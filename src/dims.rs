//! Shape validation of the per-primitive parameter tensors before a render.
use vstd::prelude::*;
use crate::sh::{is_sh_count, sh_count, try_sh_degree_from_coeffs, MAX_SH_DEGREE};

verus! {

/// Why a set of parameter shapes cannot be rendered.
#[derive(Clone, Copy, Debug, PartialEq, Eq)]
pub enum DimError {
    /// A tensor has the wrong rank or the wrong number of columns.
    Shape,
    /// The tensors disagree on the number of primitives.
    PointCount,
    /// The SH column count is not three channels of a supported degree.
    ShCoeffs,
}

/// Sizes shared by all parameter tensors of a valid render call.
#[derive(Clone, Copy, Debug, PartialEq, Eq)]
pub struct RenderDims {
    pub num_points: usize,
    pub sh_degree: usize,
}

/// `shape` is a matrix with `cols` columns.
pub open spec fn has_cols(shape: Seq<usize>, cols: nat) -> bool {
    shape.len() == 2 && shape[1] == cols
}

/// Every shape has the rank and fixed column count the renderer expects:
/// means N×3, log-scales N×3, quats N×4, SH coefficients N×C, opacities N.
pub open spec fn shapes_well_formed(
    means: Seq<usize>,
    log_scales: Seq<usize>,
    quats: Seq<usize>,
    sh_coeffs: Seq<usize>,
    raw_opacities: Seq<usize>,
) -> bool {
    has_cols(means, 3) && has_cols(log_scales, 3) && has_cols(quats, 4) && sh_coeffs.len() == 2
        && raw_opacities.len() == 1
}

/// Well-formed shapes that agree on the number of primitives.
pub open spec fn counts_agree(
    means: Seq<usize>,
    log_scales: Seq<usize>,
    quats: Seq<usize>,
    sh_coeffs: Seq<usize>,
    raw_opacities: Seq<usize>,
) -> bool {
    log_scales[0] == means[0] && quats[0] == means[0] && sh_coeffs[0] == means[0]
        && raw_opacities[0] == means[0]
}

/// An SH column count made of three channels of a supported degree.
pub open spec fn valid_sh_columns(cols: nat) -> bool {
    cols % 3 == 0 && is_sh_count(cols / 3)
}

fn has_cols_exec(shape: &Vec<usize>, cols: usize) -> (r: bool)
    ensures
        r == has_cols(shape@, cols as nat),
{
    shape.len() == 2 && shape[1] == cols
}

/// Checks the parameter tensor shapes of a render call and derives the
/// number of primitives and the SH degree.
pub fn check_render_dims(
    means: &Vec<usize>,
    log_scales: &Vec<usize>,
    quats: &Vec<usize>,
    sh_coeffs: &Vec<usize>,
    raw_opacities: &Vec<usize>,
) -> (r: Result<RenderDims, DimError>)
    ensures
        !shapes_well_formed(means@, log_scales@, quats@, sh_coeffs@, raw_opacities@) <==> r
            == Err::<RenderDims, DimError>(DimError::Shape),
        shapes_well_formed(means@, log_scales@, quats@, sh_coeffs@, raw_opacities@) ==> (!counts_agree(
            means@,
            log_scales@,
            quats@,
            sh_coeffs@,
            raw_opacities@,
        ) <==> r == Err::<RenderDims, DimError>(DimError::PointCount)),
        shapes_well_formed(means@, log_scales@, quats@, sh_coeffs@, raw_opacities@) && counts_agree(
            means@,
            log_scales@,
            quats@,
            sh_coeffs@,
            raw_opacities@,
        ) ==> (!valid_sh_columns(sh_coeffs@[1] as nat) <==> r == Err::<RenderDims, DimError>(
            DimError::ShCoeffs,
        )),
        r matches Ok(d) ==> d.num_points == means@[0] && d.sh_degree <= MAX_SH_DEGREE && 3
            * sh_count(d.sh_degree as nat) == sh_coeffs@[1],
{
    if !(has_cols_exec(means, 3) && has_cols_exec(log_scales, 3) && has_cols_exec(quats, 4)
        && sh_coeffs.len() == 2 && raw_opacities.len() == 1) {
        return Err(DimError::Shape);
    }
    let n = means[0];
    if !(log_scales[0] == n && quats[0] == n && sh_coeffs[0] == n && raw_opacities[0] == n) {
        return Err(DimError::PointCount);
    }
    let cols = sh_coeffs[1];
    if cols % 3 != 0 {
        return Err(DimError::ShCoeffs);
    }
    match try_sh_degree_from_coeffs(cols / 3) {
        Some(d) => Ok(RenderDims { num_points: n, sh_degree: d }),
        None => Err(DimError::ShCoeffs),
    }
}

} // verus!
