use brush_render::dims::{check_render_dims, DimError, RenderDims};
use brush_render::sh::{num_sh_coeffs, sh_degree_from_coeffs, try_sh_degree_from_coeffs};

#[test]
fn sh_coeff_counts_per_degree() {
    assert_eq!(num_sh_coeffs(0), 1);
    assert_eq!(num_sh_coeffs(1), 4);
    assert_eq!(num_sh_coeffs(2), 9);
    assert_eq!(num_sh_coeffs(3), 16);
    assert_eq!(num_sh_coeffs(4), 25);
    assert_eq!(num_sh_coeffs(7), 64);
}

#[test]
fn sh_degree_round_trips() {
    for degree in 0..=4 {
        assert_eq!(sh_degree_from_coeffs(num_sh_coeffs(degree)), degree);
    }
}

#[test]
fn sh_degree_rejects_other_counts() {
    for n in [0usize, 2, 3, 5, 8, 10, 24, 36] {
        assert_eq!(try_sh_degree_from_coeffs(n), None);
    }
    assert_eq!(try_sh_degree_from_coeffs(16), Some(3));
}

fn shapes(n: usize, sh_cols: usize) -> [Vec<usize>; 5] {
    [vec![n, 3], vec![n, 3], vec![n, 4], vec![n, sh_cols], vec![n]]
}

#[test]
fn dims_accept_matching_shapes() {
    let [m, s, q, c, o] = shapes(8, 27);
    assert_eq!(
        check_render_dims(&m, &s, &q, &c, &o),
        Ok(RenderDims { num_points: 8, sh_degree: 2 })
    );
    let [m, s, q, c, o] = shapes(5, 3);
    assert_eq!(
        check_render_dims(&m, &s, &q, &c, &o),
        Ok(RenderDims { num_points: 5, sh_degree: 0 })
    );
}

#[test]
fn dims_reject_wrong_columns() {
    let [m, s, _q, c, o] = shapes(8, 3);
    let q = vec![8, 3];
    assert_eq!(check_render_dims(&m, &s, &q, &c, &o), Err(DimError::Shape));
    let o2 = vec![8, 1];
    let [m, s, q, c, _o] = shapes(8, 3);
    assert_eq!(check_render_dims(&m, &s, &q, &c, &o2), Err(DimError::Shape));
}

#[test]
fn dims_reject_disagreeing_counts() {
    let [m, s, q, c, _o] = shapes(8, 3);
    let o = vec![7];
    assert_eq!(check_render_dims(&m, &s, &q, &c, &o), Err(DimError::PointCount));
}

#[test]
fn dims_reject_bad_sh_columns() {
    let [m, s, q, c, o] = shapes(8, 6);
    assert_eq!(check_render_dims(&m, &s, &q, &c, &o), Err(DimError::ShCoeffs));
    let [m, s, q, c, o] = shapes(8, 10);
    assert_eq!(check_render_dims(&m, &s, &q, &c, &o), Err(DimError::ShCoeffs));
}
