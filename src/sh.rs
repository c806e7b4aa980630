//! Spherical-harmonics coefficient counts per colour channel.
use vstd::prelude::*;

verus! {

/// Highest spherical-harmonics degree the renderer evaluates.
pub const MAX_SH_DEGREE: usize = 4;

/// Number of SH basis functions of all degrees up to `degree`.
pub open spec fn sh_count(degree: nat) -> nat {
    (degree + 1) * (degree + 1)
}

/// A per-channel coefficient count that belongs to a supported SH degree
/// (`0..=4`).
pub open spec fn is_sh_count(n: nat) -> bool {
    n == 1 || n == 4 || n == 9 || n == 16 || n == 25
}

/// Degree of a supported per-channel coefficient count.
pub open spec fn sh_degree_of(n: nat) -> nat
    recommends
        is_sh_count(n),
{
    if n == 1 {
        0
    } else if n == 4 {
        1
    } else if n == 9 {
        2
    } else if n == 16 {
        3
    } else {
        4
    }
}

/// Number of coefficients per colour channel for an SH expansion of `degree`.
pub fn num_sh_coeffs(degree: usize) -> (r: usize)
    requires
        sh_count(degree as nat) <= usize::MAX,
    ensures
        r == sh_count(degree as nat),
{
    assert(degree + 1 <= sh_count(degree as nat)) by (nonlinear_arith);
    let d = degree + 1;
    d * d
}

/// SH degree whose expansion has `coeffs_per_channel` coefficients per
/// channel. Only degrees `0..=4` are supported.
pub fn sh_degree_from_coeffs(coeffs_per_channel: usize) -> (r: usize)
    requires
        is_sh_count(coeffs_per_channel as nat),
    ensures
        r == sh_degree_of(coeffs_per_channel as nat),
        r <= MAX_SH_DEGREE,
        sh_count(r as nat) == coeffs_per_channel,
{
    match try_sh_degree_from_coeffs(coeffs_per_channel) {
        Some(d) => d,
        None => {
            assert(false);
            0
        },
    }
}

/// Like [`sh_degree_from_coeffs`], but reports an unsupported count as `None`.
pub fn try_sh_degree_from_coeffs(coeffs_per_channel: usize) -> (r: Option<usize>)
    ensures
        r is Some <==> is_sh_count(coeffs_per_channel as nat),
        r matches Some(d) ==> d == sh_degree_of(coeffs_per_channel as nat) && sh_count(d as nat)
            == coeffs_per_channel,
{
    let n = coeffs_per_channel;
    proof {
        lemma_sh_counts();
    }
    if n == 1 {
        Some(0)
    } else if n == 4 {
        Some(1)
    } else if n == 9 {
        Some(2)
    } else if n == 16 {
        Some(3)
    } else if n == 25 {
        Some(4)
    } else {
        None
    }
}

/// The coefficient counts of the supported degrees.
pub proof fn lemma_sh_counts()
    ensures
        sh_count(0) == 1,
        sh_count(1) == 4,
        sh_count(2) == 9,
        sh_count(3) == 16,
        sh_count(4) == 25,
{
    assert(1nat * 1 == 1 && 2nat * 2 == 4 && 3nat * 3 == 9 && 4nat * 4 == 16 && 5nat * 5 == 25)
        by (nonlinear_arith);
}

/// Every supported degree's coefficient count is supported and maps back to
/// that degree.
pub proof fn lemma_sh_degree_round_trip(degree: nat)
    requires
        degree <= MAX_SH_DEGREE,
    ensures
        is_sh_count(sh_count(degree)),
        sh_degree_of(sh_count(degree)) == degree,
{
    lemma_sh_counts();
    assert(degree == 0 || degree == 1 || degree == 2 || degree == 3 || degree == 4);
}

} // verus!
