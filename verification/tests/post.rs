use gbx_grobner::monomial::{Monomial, MonomialError};
use gbx_grobner::order::{compare, MonomialOrder, OrderRel};
use gbx_grobner::polynomial::{Polynomial, PolynomialError, Term};
use gbx_grobner::post::error::PostError;
use gbx_grobner::post::minimize::{make_monic_in_place, minimize_in_place};
use gbx_grobner::post::reduction::{reduce_in_place, reverse_tail_interreduce, selective_tail_cleanup};
use gbx_grobner::post::tail::{reduce_basis_element_tail_only_with_reducers, reduce_basis_element_tail_only_with_selected_indices};
use gbx_grobner::reduce::ReduceError;
use gbx_grobner::post::validate::{assert_fully_reduced_basis, assert_minimal_leading_monomials, find_reduction_violations};
use gbx_grobner::ring::RingCtx;
use gbx_grobner::spoly::{s_polynomial_in, SPolyError};

fn post_ctx() -> RingCtx {
    RingCtx::new(32003, MonomialOrder::Lex, 2).unwrap()
}

fn post_poly(ctx: &RingCtx, terms: &[(u32, &[u32])]) -> Polynomial {
    let terms: Vec<Term> = terms.iter().map(|(c, e)| Term { coeff: *c, mono: Monomial::from_slice(e) }).collect();
    Polynomial::from_terms(ctx, terms).unwrap()
}

#[test]
fn minimality_check_rejects_divisible_leading_monomials() {
    let ctx = post_ctx();

    let x2_plus_y = post_poly(&ctx, &[(1, &[2, 0]), (1, &[0, 1])]);
    let x_plus_one = post_poly(&ctx, &[(1, &[1, 0]), (1, &[0, 0])]);

    let basis = vec![x2_plus_y, x_plus_one];

    let err = assert_minimal_leading_monomials(&basis).unwrap_err();

    assert!(matches!(err, PostError::InvariantViolation));
}

#[test]
fn reduced_basis_check_detects_tail_violation() {
    let ctx = post_ctx();

    let x_plus_y = post_poly(&ctx, &[(1, &[1, 0]), (1, &[0, 1])]);
    let y_plus_one = post_poly(&ctx, &[(1, &[0, 1]), (1, &[0, 0])]);

    let basis = vec![x_plus_y, y_plus_one];

    let violations = find_reduction_violations(&basis);

    assert_eq!(violations.len(), 1);
    assert!(assert_fully_reduced_basis(&basis).is_err());
}

#[test]
fn reduced_basis_check_accepts_reduced_basis() {
    let ctx = post_ctx();

    let x_plus_one = post_poly(&ctx, &[(1, &[1, 0]), (1, &[0, 0])]);
    let y_plus_one = post_poly(&ctx, &[(1, &[0, 1]), (1, &[0, 0])]);

    let basis = vec![x_plus_one, y_plus_one];

    assert_minimal_leading_monomials(&basis).unwrap();
    assert_fully_reduced_basis(&basis).unwrap();
}

#[test]
fn reduce_in_place_removes_zero_polynomials() {
    let ctx = post_ctx();

    let zero = Polynomial::zero();
    let x_plus_one = post_poly(&ctx, &[(1, &[1, 0]), (1, &[0, 0])]);

    let mut gb = vec![zero, x_plus_one];

    reduce_in_place(&ctx, &mut gb).unwrap();

    assert_eq!(gb.len(), 1);
    assert_fully_reduced_basis(gb.as_slice()).unwrap();
}

#[test]
fn reduce_in_place_tail_reduces_basis() {
    let ctx = post_ctx();

    let x_plus_y = post_poly(&ctx, &[(1, &[1, 0]), (1, &[0, 1])]);
    let y_plus_one = post_poly(&ctx, &[(1, &[0, 1]), (1, &[0, 0])]);

    let mut gb = vec![x_plus_y, y_plus_one];

    reduce_in_place(&ctx, &mut gb).unwrap();

    assert_minimal_leading_monomials(gb.as_slice()).unwrap();
    assert_fully_reduced_basis(gb.as_slice()).unwrap();
}

#[test]
fn reduce_in_place_gives_expected_reduced_basis() {
    let ctx = post_ctx();

    // {x + y, y + 1} reduces to {x - 1, y + 1}.
    let x_plus_y = post_poly(&ctx, &[(1, &[1, 0]), (1, &[0, 1])]);
    let y_plus_one = post_poly(&ctx, &[(1, &[0, 1]), (1, &[0, 0])]);

    let mut gb = vec![x_plus_y, y_plus_one];
    reduce_in_place(&ctx, &mut gb).unwrap();

    let x_minus_one = post_poly(&ctx, &[(1, &[1, 0]), (32002, &[0, 0])]);
    let y_plus_one = post_poly(&ctx, &[(1, &[0, 1]), (1, &[0, 0])]);
    assert_eq!(gb, vec![x_minus_one, y_plus_one]);
}

#[test]
fn minimize_drops_redundant_elements_and_makes_monic() {
    let ctx = post_ctx();

    // 3x^2 + y is redundant next to 2x + 1.
    let a = post_poly(&ctx, &[(3, &[2, 0]), (1, &[0, 1])]);
    let b = post_poly(&ctx, &[(2, &[1, 0]), (1, &[0, 0])]);

    let mut gb = vec![a, b];
    minimize_in_place(&ctx, &mut gb).unwrap();

    // (2x + 1) / 2 = x + 16002.
    let expected = post_poly(&ctx, &[(1, &[1, 0]), (16002, &[0, 0])]);
    assert_eq!(gb, vec![expected]);
}

#[test]
fn make_monic_leaves_zero_polynomial_unchanged() {
    let ctx = post_ctx();
    let mut zero = Polynomial::zero();

    assert_eq!(make_monic_in_place(&ctx, &mut zero), Ok(()));
    assert!(zero.is_zero());
}

#[test]
fn make_monic_scales_by_inverse_leading_coefficient() {
    let ctx = post_ctx();
    let mut p = post_poly(&ctx, &[(3, &[1, 0]), (1, &[0, 0])]);

    make_monic_in_place(&ctx, &mut p).unwrap();

    // 1/3 = 10668 modulo 32003.
    assert_eq!(p, post_poly(&ctx, &[(1, &[1, 0]), (10668, &[0, 0])]));
}

#[test]
fn spoly_monic_example_matches_expected_after_normalization() {
    let ctx = post_ctx();

    let f = post_poly(&ctx, &[(1, &[2, 0]), (1, &[0, 1])]);
    let g = post_poly(&ctx, &[(1, &[1, 1]), (1, &[0, 0])]);

    let s = s_polynomial_in(&ctx, &f, &g).unwrap();

    let expected = post_poly(&ctx, &[(32002, &[1, 0]), (1, &[0, 2])]);

    assert_eq!(s, expected);
}

#[test]
fn spoly_non_monic_example_matches_expected_after_normalization() {
    let ctx = post_ctx();

    // S(2x^2 + y, 3xy + 1) = (1/2) y^2 - (1/3) x; mod 32003: 1/2 = 16002, -(1/3) = 21335.
    let f = post_poly(&ctx, &[(2, &[2, 0]), (1, &[0, 1])]);
    let g = post_poly(&ctx, &[(3, &[1, 1]), (1, &[0, 0])]);

    let s = s_polynomial_in(&ctx, &f, &g).unwrap();

    let expected = post_poly(&ctx, &[(21335, &[1, 0]), (16002, &[0, 2])]);

    assert_eq!(s, expected);
}

#[test]
fn spoly_zero_left_input_returns_error() {
    let ctx = post_ctx();

    let zero = post_poly(&ctx, &[]);
    let g = post_poly(&ctx, &[(1, &[1, 0])]);

    let err = s_polynomial_in(&ctx, &zero, &g).unwrap_err();
    assert_eq!(err, SPolyError::ZeroInput);
}

#[test]
fn spoly_zero_right_input_returns_error() {
    let ctx = post_ctx();

    let f = post_poly(&ctx, &[(1, &[1, 0])]);
    let zero = post_poly(&ctx, &[]);

    let err = s_polynomial_in(&ctx, &f, &zero).unwrap_err();
    assert_eq!(err, SPolyError::ZeroInput);
}

#[test]
fn spoly_ring_mismatch_returns_error() {
    let ctx1 = post_ctx();
    let ctx2 = RingCtx::new(32003, MonomialOrder::Lex, 3).unwrap();

    let f = post_poly(&ctx1, &[(1, &[2, 0]), (1, &[0, 1])]);
    let g = post_poly(&ctx2, &[(1, &[1, 1, 0]), (1, &[0, 0, 0])]);

    let err = s_polynomial_in(&ctx1, &f, &g).unwrap_err();

    match err {
        SPolyError::Poly(_) => {}
        other => panic!("expected propagated polynomial/ring error, got {other:?}"),
    }
}

#[test]
fn spoly_normalized_result_cancels_lcm_leading_term() {
    let ctx = post_ctx();

    let f = post_poly(&ctx, &[(1, &[2, 0]), (1, &[0, 1])]);
    let g = post_poly(&ctx, &[(1, &[1, 1]), (1, &[0, 0])]);

    let s = s_polynomial_in(&ctx, &f, &g).unwrap();

    let expected = post_poly(&ctx, &[(32002, &[1, 0]), (1, &[0, 2])]);

    assert_eq!(s, expected);
    assert!(s.terms().iter().all(|t| t.mono != Monomial::from_slice(&[2, 1])));
}

#[test]
fn spoly_reports_exponent_overflow() {
    let ctx = post_ctx();

    // The multiplier y^MAX of g = x + y^2 overflows the exponent of y in its tail.
    let f = post_poly(&ctx, &[(1, &[0, u32::MAX])]);
    let g = post_poly(&ctx, &[(1, &[1, 0]), (1, &[0, 2])]);

    let err = s_polynomial_in(&ctx, &f, &g).unwrap_err();
    assert!(matches!(err, SPolyError::Poly(PolynomialError::Monomial(_))));
}

#[test]
fn reverse_tail_interreduce_reduces_by_later_elements() {
    let ctx = post_ctx();

    let x_plus_y = post_poly(&ctx, &[(1, &[1, 0]), (1, &[0, 1])]);
    let y_plus_one = post_poly(&ctx, &[(1, &[0, 1]), (1, &[0, 0])]);
    let mut gb = vec![x_plus_y, Polynomial::zero(), y_plus_one.clone()];

    reverse_tail_interreduce(&ctx, &mut gb).unwrap();

    // x + y - (y + 1) = x - 1.
    let x_minus_one = post_poly(&ctx, &[(1, &[1, 0]), (32002, &[0, 0])]);
    assert_eq!(gb, vec![x_minus_one, y_plus_one]);
}

#[test]
fn selective_tail_cleanup_removes_tail_violations() {
    let ctx = post_ctx();

    let x_plus_y = post_poly(&ctx, &[(1, &[1, 0]), (1, &[0, 1])]);
    let y_plus_one = post_poly(&ctx, &[(1, &[0, 1]), (1, &[0, 0])]);
    let mut gb = vec![x_plus_y, y_plus_one.clone()];

    selective_tail_cleanup(&ctx, &mut gb).unwrap();

    let x_minus_one = post_poly(&ctx, &[(1, &[1, 0]), (32002, &[0, 0])]);
    assert_eq!(gb, vec![x_minus_one, y_plus_one]);
}

#[test]
fn tail_reduction_with_reducers_keeps_leading_term() {
    let ctx = post_ctx();

    // x^2 + x y + y^2 with reducer y + 1: tail x y + y^2 reduces to -x + 1.
    let g = post_poly(&ctx, &[(1, &[2, 0]), (1, &[1, 1]), (1, &[0, 2])]);
    let r = post_poly(&ctx, &[(1, &[0, 1]), (1, &[0, 0])]);

    let q = reduce_basis_element_tail_only_with_reducers(&ctx, &g, &[r], 0).unwrap();

    assert_eq!(q, post_poly(&ctx, &[(1, &[2, 0]), (32002, &[1, 0]), (1, &[0, 0])]));
}

#[test]
fn tail_reduction_of_zero_polynomial_fails() {
    let ctx = post_ctx();

    let err = reduce_basis_element_tail_only_with_reducers(&ctx, &Polynomial::zero(), &[], 0).unwrap_err();
    assert_eq!(err, PostError::ZeroPolynomialInReduction);
}

#[test]
fn reverse_tail_interreduce_keeps_the_ideal() {
    let ctx = post_ctx();

    let x_plus_y = post_poly(&ctx, &[(1, &[1, 0]), (1, &[0, 1])]);
    let y_plus_one = post_poly(&ctx, &[(1, &[0, 1]), (1, &[0, 0])]);
    let mut gb = vec![x_plus_y.clone(), y_plus_one.clone()];

    reverse_tail_interreduce(&ctx, &mut gb).unwrap();

    // Each side is a combination of the other: x + y = (x - 1) + (y + 1), and
    // x - 1 = (x + y) - (y + 1).
    assert_eq!(x_plus_y.sub(&ctx, &gb[0]), gb[1]);
    assert_eq!(x_plus_y.sub(&ctx, &y_plus_one), gb[0]);
}

#[test]
fn selective_tail_cleanup_leaves_reduced_basis_unchanged() {
    let ctx = post_ctx();

    let x_plus_one = post_poly(&ctx, &[(1, &[1, 0]), (1, &[0, 0])]);
    let y_plus_one = post_poly(&ctx, &[(1, &[0, 1]), (1, &[0, 0])]);
    let original = vec![x_plus_one, Polynomial::zero(), y_plus_one];
    let mut gb = original.clone();

    selective_tail_cleanup(&ctx, &mut gb).unwrap();

    assert_eq!(gb, original);
}

#[test]
fn selective_tail_cleanup_gives_up_on_long_chain_and_keeps_last_pass() {
    // x_0 + x_1, x_1 + x_2, ..., x_258 + x_259, x_259 + 1 under lex: after pass p the
    // first element is x_0 - x_(2^p), so eight passes leave x_0 - x_256, whose tail
    // the element x_256 + x_257 still reduces. The basis of the last pass is kept.
    let n: usize = 260;
    let ctx = RingCtx::new(32003, MonomialOrder::Lex, n).unwrap();
    let var = |i: usize| {
        let mut e = vec![0u32; n];
        e[i] = 1;
        Monomial::from_slice(&e)
    };
    let mut original: Vec<Polynomial> = Vec::new();
    for i in 0..n {
        let next = if i + 1 < n { var(i + 1) } else { Monomial::from_slice(&vec![0u32; n]) };
        let terms = vec![Term { coeff: 1, mono: var(i) }, Term { coeff: 1, mono: next }];
        original.push(Polynomial::from_terms(&ctx, terms).unwrap());
    }
    let mut gb = original.clone();

    let err = selective_tail_cleanup(&ctx, &mut gb).unwrap_err();

    assert_eq!(err, PostError::InvariantViolation);
    assert_eq!(gb.len(), n);
    assert_ne!(gb, original);
    let first = Polynomial::from_terms(&ctx, vec![Term { coeff: 1, mono: var(0) }, Term { coeff: 32002, mono: var(256) }]).unwrap();
    assert_eq!(gb[0], first);
}

#[test]
fn reverse_tail_interreduce_single_element_is_kept() {
    let ctx = post_ctx();

    let x_plus_y = post_poly(&ctx, &[(1, &[1, 0]), (1, &[0, 1])]);
    let mut gb = vec![Polynomial::zero(), x_plus_y.clone()];

    reverse_tail_interreduce(&ctx, &mut gb).unwrap();

    assert_eq!(gb, vec![x_plus_y]);
}

#[test]
fn reverse_tail_interreduce_overflow_keeps_basis() {
    let ctx = post_ctx();

    // x^2 + x y^MAX reduced by x y + y^2 needs y^2 * y^(MAX - 1), which overflows.
    let g = post_poly(&ctx, &[(1, &[2, 0]), (1, &[1, u32::MAX])]);
    let r = post_poly(&ctx, &[(1, &[1, 1]), (1, &[0, 2])]);
    let original = vec![g, r];
    let mut gb = original.clone();

    let err = reverse_tail_interreduce(&ctx, &mut gb).unwrap_err();

    assert_eq!(err, PostError::Reduce(ReduceError::Polynomial(PolynomialError::Monomial(MonomialError::ExponentOverflow))));
    assert_eq!(gb, original);
}

#[test]
fn reduce_in_place_all_zero_basis_becomes_empty() {
    let ctx = post_ctx();

    let mut gb = vec![Polynomial::zero(), Polynomial::zero()];

    reduce_in_place(&ctx, &mut gb).unwrap();

    assert!(gb.is_empty());
}

#[test]
fn reduce_in_place_single_element_is_made_monic() {
    let ctx = post_ctx();

    let two_x_plus_two = post_poly(&ctx, &[(2, &[1, 0]), (2, &[0, 0])]);
    let mut gb = vec![two_x_plus_two];

    reduce_in_place(&ctx, &mut gb).unwrap();

    assert_eq!(gb, vec![post_poly(&ctx, &[(1, &[1, 0]), (1, &[0, 0])])]);
}

#[test]
fn tail_reduction_with_reducers_leaves_reduced_tail() {
    let ctx = post_ctx();

    // No tail term of x^2 + x + 1 is divisible by y.
    let g = post_poly(&ctx, &[(1, &[2, 0]), (1, &[1, 0]), (1, &[0, 0])]);
    let r = post_poly(&ctx, &[(1, &[0, 1]), (1, &[0, 0])]);

    let q = reduce_basis_element_tail_only_with_reducers(&ctx, &g, &[r], 0).unwrap();

    assert_eq!(q, g);
}

#[test]
fn tail_reduction_with_reducers_reports_overflow() {
    let ctx = post_ctx();

    let g = post_poly(&ctx, &[(1, &[2, 0]), (1, &[1, u32::MAX])]);
    let r = post_poly(&ctx, &[(1, &[1, 1]), (1, &[0, 2])]);

    let err = reduce_basis_element_tail_only_with_reducers(&ctx, &g, &[r], 0).unwrap_err();

    assert_eq!(err, PostError::Reduce(ReduceError::Polynomial(PolynomialError::Monomial(MonomialError::ExponentOverflow))));
}

#[test]
fn tail_reduction_with_selected_indices_uses_selected_elements() {
    let ctx = post_ctx();

    let x_plus_y = post_poly(&ctx, &[(1, &[1, 0]), (1, &[0, 1])]);
    let y_plus_one = post_poly(&ctx, &[(1, &[0, 1]), (1, &[0, 0])]);
    let basis = vec![x_plus_y.clone(), y_plus_one];

    let q = reduce_basis_element_tail_only_with_selected_indices(&ctx, &x_plus_y, &basis, 0, &[0, 1]).unwrap();
    assert_eq!(q, post_poly(&ctx, &[(1, &[1, 0]), (32002, &[0, 0])]));

    // With nothing selected the element comes back as it is.
    let same = reduce_basis_element_tail_only_with_selected_indices(&ctx, &x_plus_y, &basis, 0, &[]).unwrap();
    assert_eq!(same, x_plus_y);
}

#[test]
fn tail_reduction_with_selected_indices_keeps_single_term() {
    let ctx = post_ctx();

    let x2 = post_poly(&ctx, &[(3, &[2, 0])]);
    let x = post_poly(&ctx, &[(1, &[1, 0])]);
    let basis = vec![x];

    let q = reduce_basis_element_tail_only_with_selected_indices(&ctx, &x2, &basis, 1, &[0]).unwrap();

    assert_eq!(q, x2);
}

#[test]
fn reverse_tail_interreduce_keeps_reduced_basis() {
    let ctx = post_ctx();

    let x_plus_one = post_poly(&ctx, &[(1, &[1, 0]), (1, &[0, 0])]);
    let y_plus_two = post_poly(&ctx, &[(1, &[0, 1]), (2, &[0, 0])]);
    let mut gb = vec![x_plus_one.clone(), Polynomial::zero(), y_plus_two.clone()];

    reverse_tail_interreduce(&ctx, &mut gb).unwrap();

    assert_eq!(gb, vec![x_plus_one, y_plus_two]);
}

#[test]
fn reduce_in_place_accepts_minimal_reduced_input() {
    let ctx = post_ctx();

    // 2x + 2 and 3y + 3 are minimal with reduced tails; they only become monic.
    let a = post_poly(&ctx, &[(2, &[1, 0]), (2, &[0, 0])]);
    let b = post_poly(&ctx, &[(3, &[0, 1]), (3, &[0, 0])]);
    let mut gb = vec![a, Polynomial::zero(), b];

    reduce_in_place(&ctx, &mut gb).unwrap();

    assert_eq!(gb, vec![post_poly(&ctx, &[(1, &[1, 0]), (1, &[0, 0])]), post_poly(&ctx, &[(1, &[0, 1]), (1, &[0, 0])])]);
}

#[test]
fn selective_tail_cleanup_two_elements_finishes_in_one_pass() {
    let ctx = post_ctx();

    // x + y^2 + y and y + 1: one pass against the fixed heads reduces x's tail fully.
    let f = post_poly(&ctx, &[(1, &[1, 0]), (1, &[0, 2]), (1, &[0, 1])]);
    let g = post_poly(&ctx, &[(1, &[0, 1]), (1, &[0, 0])]);
    let mut gb = vec![f, g.clone()];

    selective_tail_cleanup(&ctx, &mut gb).unwrap();

    // y^2 + y = (y + 1) y, so x + y^2 + y reduces to x.
    assert_eq!(gb, vec![post_poly(&ctx, &[(1, &[1, 0])]), g]);
    assert_fully_reduced_basis(gb.as_slice()).unwrap();
}

#[test]
fn spoly_swapped_arguments_negate() {
    let ctx = post_ctx();

    let f = post_poly(&ctx, &[(3, &[2, 0]), (1, &[0, 1])]);
    let g = post_poly(&ctx, &[(2, &[1, 1]), (5, &[0, 0])]);

    let s1 = s_polynomial_in(&ctx, &f, &g).unwrap();
    let s2 = s_polynomial_in(&ctx, &g, &f).unwrap();

    assert_eq!(s1, Polynomial::zero().sub(&ctx, &s2));
    assert!(!s1.is_zero());
    // The leading terms cancel: no term at lcm(x^2, x y) = x^2 y.
    assert!(s1.terms().iter().all(|t| t.mono != Monomial::from_slice(&[2, 1])));
}

#[test]
fn reduce_in_place_graded_basis_is_reduced() {
    let ctx = RingCtx::new(32003, MonomialOrder::Grevlex, 2).unwrap();

    // Under the graded order {x + y, y + 1} still reduces to {x - 1, y + 1}.
    let x_plus_y = post_poly(&ctx, &[(1, &[1, 0]), (1, &[0, 1])]);
    let y_plus_one = post_poly(&ctx, &[(1, &[0, 1]), (1, &[0, 0])]);
    let mut gb = vec![x_plus_y, y_plus_one.clone()];

    reduce_in_place(&ctx, &mut gb).unwrap();

    assert_eq!(gb, vec![post_poly(&ctx, &[(1, &[1, 0]), (32002, &[0, 0])]), y_plus_one]);
}

#[test]
fn selective_tail_cleanup_reduces_lex_tail_by_later_element() {
    let ctx = post_ctx();

    // x + y and y + 1 under lex: the tail y of x + y is reduced by y + 1.
    let x_plus_y = post_poly(&ctx, &[(1, &[1, 0]), (1, &[0, 1])]);
    let y_plus_one = post_poly(&ctx, &[(1, &[0, 1]), (1, &[0, 0])]);
    let mut gb = vec![x_plus_y, y_plus_one.clone()];

    selective_tail_cleanup(&ctx, &mut gb).unwrap();

    assert_eq!(gb, vec![post_poly(&ctx, &[(1, &[1, 0]), (32002, &[0, 0])]), y_plus_one]);
}

#[test]
fn spoly_monomials_lie_below_lcm() {
    let ctx = post_ctx();

    let f = post_poly(&ctx, &[(1, &[2, 0]), (1, &[0, 1])]);
    let g = post_poly(&ctx, &[(1, &[1, 1]), (1, &[0, 0])]);
    let lcm = Monomial::from_slice(&[2, 1]);

    let s = s_polynomial_in(&ctx, &f, &g).unwrap();

    assert!(!s.terms().is_empty());
    assert!(s.terms().iter().all(|t| compare(MonomialOrder::Lex, &lcm, &t.mono) == OrderRel::Greater));
}

#[test]
fn selective_tail_cleanup_gives_copies_the_same_outcome() {
    let ctx = post_ctx();

    let f = post_poly(&ctx, &[(1, &[1, 0]), (1, &[0, 2]), (1, &[0, 1])]);
    let g = post_poly(&ctx, &[(1, &[0, 1]), (1, &[0, 0])]);
    let mut a = vec![f.clone(), g.clone()];
    let mut b = vec![f, g];

    let ra = selective_tail_cleanup(&ctx, &mut a);
    let rb = selective_tail_cleanup(&ctx, &mut b);

    assert_eq!(ra, rb);
    assert_eq!(a, b);
}

#[test]
fn reduce_in_place_gives_copies_the_same_outcome() {
    let ctx = post_ctx();

    let x_plus_y = post_poly(&ctx, &[(2, &[1, 0]), (1, &[0, 1])]);
    let y_plus_one = post_poly(&ctx, &[(3, &[0, 1]), (1, &[0, 0])]);
    let mut a = vec![x_plus_y.clone(), y_plus_one.clone()];
    let mut b = vec![x_plus_y, Polynomial::zero(), y_plus_one];

    reduce_in_place(&ctx, &mut a).unwrap();
    reduce_in_place(&ctx, &mut b).unwrap();

    assert_eq!(a, b);
}
