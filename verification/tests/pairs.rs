use gbx_grobner::f4::pairs::criterion::{NoCriterion, PairCriterion, ProductCriterion};
use gbx_grobner::f4::pairs::critical_pair::CriticalPair;
use gbx_grobner::f4::pairs::pending::{add_pairs_with_new_basis_element, build_all_pairs, make_pair, PendingPairs};
use gbx_grobner::f4::pairs::selector::{MinDegreeSelector, PairSelector};
use gbx_grobner::f4::pairs::update::update_with_polynomial;
use gbx_grobner::monomial::{checked_lcm_degree, checked_mul, Monomial};
use gbx_grobner::order::MonomialOrder;
use gbx_grobner::polynomial::{Polynomial, Term};
use gbx_grobner::ring::RingCtx;

fn ring_of(order: MonomialOrder) -> RingCtx {
    RingCtx::new(7, order, 2).expect("test ring construction should succeed")
}

fn poly2(ring: &RingCtx, terms: &[(u32, [u32; 2])]) -> Polynomial {
    let terms: Vec<Term> = terms.iter().map(|(c, e)| Term { coeff: *c, mono: Monomial::from_slice(e) }).collect();
    Polynomial::from_terms(ring, terms).unwrap()
}

fn pair_from_basis(basis: &[Polynomial], i: usize, j: usize) -> CriticalPair {
    CriticalPair::from_lms(
        i,
        j,
        basis[i].leading_mono().expect("basis element should be nonzero"),
        basis[j].leading_mono().expect("basis element should be nonzero"),
    )
    .expect("critical pair construction should succeed")
}

fn pair_from_polys(i: usize, j: usize, f: &Polynomial, g: &Polynomial) -> CriticalPair {
    let lm_f = f.leading_mono().expect("polynomial should be nonzero");
    let lm_g = g.leading_mono().expect("polynomial should be nonzero");

    CriticalPair::from_lms(i, j, lm_f, lm_g).expect("pair construction should succeed")
}

#[test]
fn no_criterion_allows_any_valid_pair() {
    let ring = ring_of(MonomialOrder::Lex);

    let f1 = poly2(&ring, &[(1, [2, 0]), (1, [0, 1])]);
    let f2 = poly2(&ring, &[(1, [1, 1]), (1, [0, 0])]);

    let basis = vec![f1, f2];
    let pair = pair_from_basis(&basis, 0, 1);

    assert!(NoCriterion.allows(&basis, &pair));
}

#[test]
fn product_criterion_rejects_coprime_leading_monomials() {
    let ring = ring_of(MonomialOrder::Lex);

    let f1 = poly2(&ring, &[(1, [2, 0]), (1, [0, 0])]);
    let f2 = poly2(&ring, &[(1, [0, 1]), (1, [0, 0])]);

    let basis = vec![f1, f2];
    let pair = pair_from_basis(&basis, 0, 1);

    assert!(!ProductCriterion.allows(&basis, &pair));
}

#[test]
fn product_criterion_keeps_non_coprime_leading_monomials() {
    let ring = ring_of(MonomialOrder::Lex);

    let f1 = poly2(&ring, &[(1, [2, 0]), (1, [0, 0])]);
    let f2 = poly2(&ring, &[(1, [1, 1]), (1, [0, 0])]);

    let basis = vec![f1, f2];
    let pair = pair_from_basis(&basis, 0, 1);

    assert!(ProductCriterion.allows(&basis, &pair));
}

#[test]
fn product_criterion_uses_order_dependent_leading_monomials() {
    let lex_ring = ring_of(MonomialOrder::Lex);
    let grevlex_ring = ring_of(MonomialOrder::Grevlex);

    let f1_lex = poly2(&lex_ring, &[(1, [2, 0]), (1, [0, 5])]);
    let f2_lex = poly2(&lex_ring, &[(1, [1, 0])]);

    let lex_basis = vec![f1_lex, f2_lex];
    let lex_pair = pair_from_basis(&lex_basis, 0, 1);

    assert!(ProductCriterion.allows(&lex_basis, &lex_pair));

    let f1_grevlex = poly2(&grevlex_ring, &[(1, [2, 0]), (1, [0, 5])]);
    let f2_grevlex = poly2(&grevlex_ring, &[(1, [1, 0])]);

    let grevlex_basis = vec![f1_grevlex, f2_grevlex];
    let grevlex_pair = pair_from_basis(&grevlex_basis, 0, 1);

    assert!(!ProductCriterion.allows(&grevlex_basis, &grevlex_pair));
}

#[test]
fn from_lms_normalizes_indices() {
    let ring = ring_of(MonomialOrder::Lex);

    let f1 = poly2(&ring, &[(1, [2, 0]), (1, [0, 1])]);
    let f2 = poly2(&ring, &[(1, [1, 1]), (1, [0, 0])]);

    let lm1 = f1.leading_mono().unwrap();
    let lm2 = f2.leading_mono().unwrap();

    let pair = CriticalPair::from_lms(5, 2, lm1, lm2).unwrap();

    assert_eq!(pair.indices(), (2, 5));
    assert_eq!(pair.i(), 2);
    assert_eq!(pair.j(), 5);
}

#[test]
fn from_lms_computes_expected_lcm_and_multipliers() {
    let ring = ring_of(MonomialOrder::Lex);

    let f1 = poly2(&ring, &[(1, [2, 0]), (1, [0, 1])]);
    let f2 = poly2(&ring, &[(1, [1, 1]), (1, [0, 0])]);

    let lm1 = f1.leading_mono().unwrap();
    let lm2 = f2.leading_mono().unwrap();

    let pair = CriticalPair::from_lms(0, 1, lm1, lm2).unwrap();

    let left_aligned = checked_mul(pair.ti(), lm1).unwrap();
    let right_aligned = checked_mul(pair.tj(), lm2).unwrap();

    assert_eq!(&left_aligned, pair.lcm());
    assert_eq!(&right_aligned, pair.lcm());
}

#[test]
fn degree_matches_lcm_degree() {
    let ring = ring_of(MonomialOrder::Lex);

    let f1 = poly2(&ring, &[(1, [2, 0]), (1, [0, 1])]);
    let f2 = poly2(&ring, &[(1, [1, 1]), (1, [0, 0])]);

    let lm1 = f1.leading_mono().unwrap();
    let lm2 = f2.leading_mono().unwrap();

    let pair = CriticalPair::from_lms(0, 1, lm1, lm2).unwrap();
    let expected = checked_lcm_degree(lm1, lm2).unwrap();

    assert_eq!(pair.degree(), expected);
}

#[test]
fn left_and_right_sides_match_stored_data() {
    let ring = ring_of(MonomialOrder::Lex);

    let f1 = poly2(&ring, &[(1, [2, 0]), (1, [0, 1])]);
    let f2 = poly2(&ring, &[(1, [1, 1]), (1, [0, 0])]);

    let lm1 = f1.leading_mono().unwrap();
    let lm2 = f2.leading_mono().unwrap();

    let pair = CriticalPair::from_lms(0, 1, lm1, lm2).unwrap();

    let left = pair.left();
    let right = pair.right();
    let [a, b] = pair.sides();

    assert_eq!(left.basis_index, 0);
    assert_eq!(right.basis_index, 1);

    assert_eq!(left.multiplier, pair.ti());
    assert_eq!(right.multiplier, pair.tj());

    assert_eq!(a, left);
    assert_eq!(b, right);
}

#[test]
fn pair_construction_uses_order_dependent_leading_monomials_lex() {
    let ring = ring_of(MonomialOrder::Lex);

    let f1 = poly2(&ring, &[(1, [2, 0]), (1, [0, 5])]);
    let f2 = poly2(&ring, &[(1, [1, 0])]);

    let pair = CriticalPair::from_lms(0, 1, f1.leading_mono().unwrap(), f2.leading_mono().unwrap()).unwrap();

    assert_eq!(pair.lcm().exponents(), &[2, 0]);
    assert_eq!(pair.degree(), 2);
}

#[test]
fn pair_construction_uses_order_dependent_leading_monomials_grevlex() {
    let ring = ring_of(MonomialOrder::Grevlex);

    let f1 = poly2(&ring, &[(1, [2, 0]), (1, [0, 5])]);
    let f2 = poly2(&ring, &[(1, [1, 0])]);

    let pair = CriticalPair::from_lms(0, 1, f1.leading_mono().unwrap(), f2.leading_mono().unwrap()).unwrap();

    assert_eq!(pair.lcm().exponents(), &[1, 5]);
    assert_eq!(pair.degree(), 6);
}

#[test]
fn insert_deduplicates_unordered_pairs() {
    let ring = ring_of(MonomialOrder::Lex);

    let f1 = poly2(&ring, &[(1, [2, 0]), (1, [0, 0])]);
    let f2 = poly2(&ring, &[(1, [1, 1]), (1, [0, 0])]);

    let basis = vec![f1, f2];

    let lm1 = basis[0].leading_mono().unwrap();
    let lm2 = basis[1].leading_mono().unwrap();

    let pair = CriticalPair::from_lms(0, 1, lm1, lm2).unwrap();

    let mut pending = PendingPairs::new();

    assert!(pending.insert(pair.clone()));
    assert!(!pending.insert(pair));

    assert_eq!(pending.len(), 1);
    assert!(pending.contains(0, 1));
    assert!(pending.contains(1, 0));
}

#[test]
fn drain_all_empties_pending_pairs() {
    let ring = ring_of(MonomialOrder::Lex);

    let f1 = poly2(&ring, &[(1, [2, 0])]);
    let f2 = poly2(&ring, &[(1, [1, 1])]);

    let basis = vec![f1, f2];

    let pair = make_pair(&basis, 0, 1).unwrap().unwrap();

    let mut pending = PendingPairs::new();
    pending.insert(pair);

    let drained = pending.drain_all();

    assert_eq!(drained.len(), 1);
    assert!(pending.is_empty());
    assert_eq!(pending.len(), 0);
    assert!(!pending.contains(0, 1));
}

#[test]
fn make_pair_returns_none_for_equal_indices() {
    let ring = ring_of(MonomialOrder::Lex);

    let f = poly2(&ring, &[(1, [2, 0]), (1, [0, 1])]);
    let basis = vec![f];

    let pair = make_pair(&basis, 0, 0).unwrap();

    assert!(pair.is_none());
}

#[test]
fn build_all_pairs_respects_no_criterion() {
    let ring = ring_of(MonomialOrder::Lex);

    let f1 = poly2(&ring, &[(1, [2, 0])]);
    let f2 = poly2(&ring, &[(1, [1, 1])]);
    let f3 = poly2(&ring, &[(1, [0, 1])]);

    let basis = vec![f1, f2, f3];

    let pairs = build_all_pairs(&basis, &NoCriterion).unwrap();

    assert_eq!(pairs.len(), 3);
}

#[test]
fn build_all_pairs_respects_product_criterion() {
    let ring = ring_of(MonomialOrder::Lex);

    let f1 = poly2(&ring, &[(1, [2, 0])]);
    let f2 = poly2(&ring, &[(1, [1, 1])]);
    let f3 = poly2(&ring, &[(1, [0, 1])]);

    let basis = vec![f1, f2, f3];

    let pairs = build_all_pairs(&basis, &ProductCriterion).unwrap();

    // (x^2, y) is rejected because gcd = 1; (x^2, xy) and (xy, y) are kept.
    assert_eq!(pairs.len(), 2);
}

#[test]
fn add_pairs_with_new_basis_element_adds_only_new_pairs() {
    let ring = ring_of(MonomialOrder::Lex);

    let f1 = poly2(&ring, &[(1, [2, 0])]);
    let f2 = poly2(&ring, &[(1, [1, 1])]);
    let f3 = poly2(&ring, &[(1, [0, 1])]);

    let basis = vec![f1, f2, f3];

    let mut pending = PendingPairs::new();

    add_pairs_with_new_basis_element(&basis, 2, &mut pending, &NoCriterion).unwrap();

    assert_eq!(pending.len(), 2);
    assert!(pending.contains(0, 2));
    assert!(pending.contains(1, 2));
    assert!(!pending.contains(0, 1));
}

#[test]
fn select_empty_returns_empty_selection() {
    let mut selector = MinDegreeSelector::new(8);
    let selection = selector.select(Vec::new());

    assert!(selection.selected.is_empty());
    assert!(selection.remaining.is_empty());
}

#[test]
fn select_min_degree_pairs() {
    let ring = ring_of(MonomialOrder::Lex);

    let f1 = poly2(&ring, &[(1, [2, 0])]);
    let f2 = poly2(&ring, &[(1, [1, 1])]);
    let f3 = poly2(&ring, &[(1, [0, 2])]);
    let f4 = poly2(&ring, &[(1, [3, 0])]);

    let pairs = vec![
        pair_from_polys(0, 1, &f1, &f2), // lcm degree 3
        pair_from_polys(0, 2, &f1, &f3), // lcm degree 4
        pair_from_polys(1, 2, &f2, &f3), // lcm degree 3
        pair_from_polys(0, 3, &f1, &f4), // lcm degree 3
    ];

    let mut selector = MinDegreeSelector::default();
    let selection = selector.select(pairs);

    assert_eq!(selection.selected.len(), 3);
    assert!(selection.selected.iter().all(|p| p.degree() == 3));

    assert_eq!(selection.remaining.len(), 1);
    assert!(selection.remaining.iter().all(|p| p.degree() != 3));
}

#[test]
fn select_respects_batch_size_cap() {
    let ring = ring_of(MonomialOrder::Lex);

    let f1 = poly2(&ring, &[(1, [2, 0])]);
    let f2 = poly2(&ring, &[(1, [1, 1])]);
    let f3 = poly2(&ring, &[(1, [0, 2])]);

    let pairs = vec![
        pair_from_polys(0, 1, &f1, &f2), // degree 3
        pair_from_polys(1, 2, &f2, &f3), // degree 3
        pair_from_polys(0, 2, &f1, &f3), // degree 4
    ];

    let mut selector = MinDegreeSelector::new(1);
    let selection = selector.select(pairs);

    assert_eq!(selection.selected.len(), 1);
    assert_eq!(selection.selected[0].degree(), 3);

    assert_eq!(selection.remaining.len(), 2);
    assert!(selection.remaining.iter().any(|p| p.degree() == 3));
    assert!(selection.remaining.iter().any(|p| p.degree() == 4));
}

#[test]
fn selector_uses_pair_lcm_degree_not_basis_order() {
    let lex_ring = ring_of(MonomialOrder::Lex);
    let grevlex_ring = ring_of(MonomialOrder::Grevlex);

    let f1_lex = poly2(&lex_ring, &[(1, [2, 0]), (1, [0, 5])]);
    let f2_lex = poly2(&lex_ring, &[(1, [1, 0])]);

    let f1_grevlex = poly2(&grevlex_ring, &[(1, [2, 0]), (1, [0, 5])]);
    let f2_grevlex = poly2(&grevlex_ring, &[(1, [1, 0])]);

    let pair_lex = pair_from_polys(0, 1, &f1_lex, &f2_lex);
    let pair_grevlex = pair_from_polys(0, 1, &f1_grevlex, &f2_grevlex);

    assert_eq!(pair_lex.degree(), 2);
    assert_eq!(pair_grevlex.degree(), 6);
}

#[test]
fn default_selector_has_unbounded_batch_size() {
    let selector = MinDegreeSelector::default();

    assert_eq!(selector.batch_size(), usize::MAX);
}

#[test]
fn zero_batch_size_selector_still_selects_one_pair() {
    let ring = ring_of(MonomialOrder::Lex);

    let f1 = poly2(&ring, &[(1, [2, 0])]);
    let f2 = poly2(&ring, &[(1, [1, 1])]);

    let mut selector = MinDegreeSelector::new(0);
    assert_eq!(selector.batch_size(), 1);

    let selection = selector.select(vec![pair_from_polys(0, 1, &f1, &f2)]);
    assert_eq!(selection.selected.len(), 1);
    assert!(selection.remaining.is_empty());
}

#[test]
fn update_with_polynomial_appends_to_basis() {
    let ring = ring_of(MonomialOrder::Lex);

    let f1 = poly2(&ring, &[(1, [2, 0])]);
    let f2 = poly2(&ring, &[(1, [1, 1])]);

    let mut basis = vec![f1];
    let mut pending = PendingPairs::new();

    update_with_polynomial(&mut basis, &mut pending, f2, &NoCriterion).expect("update should succeed");

    assert_eq!(basis.len(), 2);
}

#[test]
fn update_with_polynomial_adds_pair_with_previous_basis_element() {
    let ring = ring_of(MonomialOrder::Lex);

    let f1 = poly2(&ring, &[(1, [2, 0])]);
    let f2 = poly2(&ring, &[(1, [1, 1])]);

    let mut basis = vec![f1];
    let mut pending = PendingPairs::new();

    update_with_polynomial(&mut basis, &mut pending, f2, &NoCriterion).expect("update should succeed");

    assert_eq!(pending.len(), 1);
    assert!(pending.contains(0, 1));
}

#[test]
fn update_with_polynomial_adds_pairs_with_all_older_basis_elements() {
    let ring = ring_of(MonomialOrder::Lex);

    let f1 = poly2(&ring, &[(1, [2, 0])]);
    let f2 = poly2(&ring, &[(1, [1, 1])]);
    let f3 = poly2(&ring, &[(1, [0, 1])]);

    let mut basis = vec![f1, f2];
    let mut pending = PendingPairs::new();

    update_with_polynomial(&mut basis, &mut pending, f3, &NoCriterion).expect("update should succeed");

    assert_eq!(basis.len(), 3);
    assert_eq!(pending.len(), 2);
    assert!(pending.contains(0, 2));
    assert!(pending.contains(1, 2));
    assert!(!pending.contains(0, 1));
}

#[test]
fn update_with_polynomial_respects_product_criterion() {
    let ring = ring_of(MonomialOrder::Lex);

    let f1 = poly2(&ring, &[(1, [2, 0])]);
    let f2 = poly2(&ring, &[(1, [0, 1])]);

    let mut basis = vec![f1];
    let mut pending = PendingPairs::new();

    update_with_polynomial(&mut basis, &mut pending, f2, &ProductCriterion).expect("update should succeed");

    assert_eq!(basis.len(), 2);
    assert!(pending.is_empty());
}

#[test]
fn update_with_zero_polynomial_appends_but_adds_no_pairs() {
    let ring = ring_of(MonomialOrder::Lex);

    let f1 = poly2(&ring, &[(1, [2, 0])]);
    let zero = Polynomial::zero();

    let mut basis = vec![f1];
    let mut pending = PendingPairs::new();

    update_with_polynomial(&mut basis, &mut pending, zero, &NoCriterion).expect("update should succeed");

    assert_eq!(basis.len(), 2);
    assert!(pending.is_empty());
}

#[test]
fn update_into_empty_basis_appends_without_pairs() {
    let ring = ring_of(MonomialOrder::Lex);

    let f = poly2(&ring, &[(1, [2, 0])]);

    let mut basis = Vec::new();
    let mut pending = PendingPairs::new();

    update_with_polynomial(&mut basis, &mut pending, f, &NoCriterion).expect("update should succeed");

    assert_eq!(basis.len(), 1);
    assert!(pending.is_empty());
}

#[test]
fn update_reports_lcm_degree_overflow() {
    let ring = ring_of(MonomialOrder::Lex);

    let f1 = poly2(&ring, &[(1, [u32::MAX, 0])]);
    let f2 = poly2(&ring, &[(1, [0, 1])]);

    let mut basis = vec![f1];
    let mut pending = PendingPairs::new();

    let r = update_with_polynomial(&mut basis, &mut pending, f2, &NoCriterion);
    assert!(matches!(r, Err(gbx_grobner::f4::F4Error::Monomial(_))));
}

#[test]
fn update_with_polynomial_adds_new_pairs_in_index_order() {
    let ring = ring_of(MonomialOrder::Lex);

    let f1 = poly2(&ring, &[(1, [2, 0])]);
    let f2 = poly2(&ring, &[(1, [1, 1])]);
    let f3 = poly2(&ring, &[(1, [0, 2])]);
    let f4 = poly2(&ring, &[(1, [0, 1])]);

    let mut basis = vec![f1, f2, f3];
    let mut pending = PendingPairs::new();

    update_with_polynomial(&mut basis, &mut pending, f4, &NoCriterion).expect("update should succeed");

    let order: Vec<(usize, usize)> = pending.as_slice().iter().map(|p| (p.i(), p.j())).collect();
    assert_eq!(order, vec![(0, 3), (1, 3), (2, 3)]);
}
