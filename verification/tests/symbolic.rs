use gbx_grobner::f4::symbolic::materialize::materialize_product;
use gbx_grobner::f4::symbolic::ordered::{OrderedMono, OrderedProduct};
use gbx_grobner::f4::symbolic::reducers::{find_top_reducer_index, find_top_reducer_product};
use gbx_grobner::f4::symbolic::types::{ProductSource, SymbolicPreprocessOutput, SymbolicRow, UnevaluatedProduct};
use gbx_grobner::f4::symbolic::worklist::MonomialWorklist;
use gbx_grobner::f4::F4Error;
use gbx_grobner::monomial::Monomial;
use gbx_grobner::order::MonomialOrder;
use gbx_grobner::polynomial::{Polynomial, Term};
use gbx_grobner::ring::RingCtx;

fn sym_ring(order: MonomialOrder) -> RingCtx {
    RingCtx::new(7, order, 2).expect("test ring construction should succeed")
}

fn sym_poly(ring: &RingCtx, terms: &[(u32, [u32; 2])]) -> Polynomial {
    let terms: Vec<Term> = terms.iter().map(|(c, e)| Term { coeff: *c, mono: Monomial::from_slice(e) }).collect();
    Polynomial::from_terms(ring, terms).unwrap()
}

#[test]
fn materializes_basis_product() {
    let ring = sym_ring(MonomialOrder::Lex);

    let f = sym_poly(&ring, &[(1, [1, 0]), (2, [0, 1])]);
    let basis = vec![f];

    let product = UnevaluatedProduct::from_basis(0, Monomial::from_slice(&[1, 1]));

    let row = materialize_product(&ring, &product, &basis, &[]).unwrap();

    assert_eq!(row.len(), 2);
    assert_eq!(row.leading_mono(), Some(&Monomial::from_slice(&[2, 1])));
}

#[test]
fn missing_basis_source_returns_error() {
    let ring = sym_ring(MonomialOrder::Lex);

    let product = UnevaluatedProduct::from_basis(4, Monomial::from_slice(&[0, 0]));

    let err = materialize_product(&ring, &product, &[], &[]).unwrap_err();

    assert!(matches!(err, F4Error::MissingBasisPolynomial { index: 4 }));
}

#[test]
fn missing_history_source_returns_error() {
    let ring = sym_ring(MonomialOrder::Lex);

    let product = UnevaluatedProduct::from_history_reduced_row(1, 2, Monomial::from_slice(&[0, 0]));

    let err = materialize_product(&ring, &product, &[], &[]).unwrap_err();

    assert!(matches!(err, F4Error::MissingHistoryRow { batch_index: 1, row_index: 2 }));
}

#[test]
fn materialize_reports_exponent_overflow() {
    let ring = sym_ring(MonomialOrder::Lex);

    let f = sym_poly(&ring, &[(1, [u32::MAX, 0])]);
    let basis = vec![f];
    let product = UnevaluatedProduct::from_basis(0, Monomial::from_slice(&[1, 0]));

    let err = materialize_product(&ring, &product, &basis, &[]).unwrap_err();

    assert!(matches!(err, F4Error::Polynomial(_)));
}

#[test]
fn ordered_mono_uses_lex_order() {
    let ring = sym_ring(MonomialOrder::Lex);

    let x = OrderedMono::new(Monomial::from_slice(&[1, 0]), &ring.order);
    let y = OrderedMono::new(Monomial::from_slice(&[0, 1]), &ring.order);

    assert!(x > y);
}

#[test]
fn ordered_mono_uses_grevlex_order() {
    let ring = sym_ring(MonomialOrder::Grevlex);

    let x2 = OrderedMono::new(Monomial::from_slice(&[2, 0]), &ring.order);
    let y5 = OrderedMono::new(Monomial::from_slice(&[0, 5]), &ring.order);

    assert!(y5 > x2);
}

#[test]
fn ordered_mono_into_inner_returns_monomial() {
    let ring = sym_ring(MonomialOrder::Lex);
    let mono = Monomial::from_slice(&[2, 1]);

    let key = OrderedMono::new(mono.clone(), &ring.order);

    assert_eq!(key.as_ref(), &mono);
    assert_eq!(key.into_inner(), mono);
}

#[test]
fn ordered_product_orders_by_source_before_multiplier() {
    let ring = sym_ring(MonomialOrder::Lex);

    let basis_product = OrderedProduct::new(ProductSource::Basis(0), Monomial::from_slice(&[0, 0]), &ring.order);

    let history_product = OrderedProduct::new(
        ProductSource::HistoryReducedRow { batch_index: 0, row_index: 0 },
        Monomial::from_slice(&[9, 9]),
        &ring.order,
    );

    assert!(basis_product < history_product);
}

#[test]
fn ordered_product_orders_same_source_by_multiplier() {
    let ring = sym_ring(MonomialOrder::Lex);

    let x = OrderedProduct::new(ProductSource::Basis(0), Monomial::from_slice(&[1, 0]), &ring.order);

    let y = OrderedProduct::new(ProductSource::Basis(0), Monomial::from_slice(&[0, 1]), &ring.order);

    assert!(x > y);
}

#[test]
fn ordered_product_accessors_return_parts() {
    let ring = sym_ring(MonomialOrder::Lex);
    let source = ProductSource::Basis(3);
    let multiplier = Monomial::from_slice(&[1, 2]);

    let product = OrderedProduct::new(source, multiplier.clone(), &ring.order);

    assert_eq!(product.source(), source);
    assert_eq!(product.multiplier().as_ref(), &multiplier);
}

#[test]
fn ordered_monos_with_different_variable_counts_are_incomparable() {
    let ring = sym_ring(MonomialOrder::Lex);

    let a = OrderedMono::new(Monomial::from_slice(&[1, 0]), &ring.order);
    let b = OrderedMono::new(Monomial::from_slice(&[1, 0, 0]), &ring.order);

    assert_eq!(a.partial_cmp(&b), None);
    assert!(a != b);
}

#[test]
fn finds_first_reducer_index_and_multiplier() {
    let ring = sym_ring(MonomialOrder::Lex);

    // LM = x
    let g0 = sym_poly(&ring, &[(1, [1, 0]), (1, [0, 0])]);

    // LM = y
    let g1 = sym_poly(&ring, &[(1, [0, 1]), (1, [0, 0])]);

    let basis = vec![g0, g1];

    let target = Monomial::from_slice(&[2, 1]);
    let found = find_top_reducer_index(&target, &basis).expect("lookup should not fail").expect("reducer should exist");

    assert_eq!(found.0, 0);
    assert_eq!(found.1, Monomial::from_slice(&[1, 1]));
}

#[test]
fn returns_none_when_no_reducer_divides_target() {
    let ring = sym_ring(MonomialOrder::Lex);

    let g0 = sym_poly(&ring, &[(1, [2, 0])]);
    let basis = vec![g0];

    let target = Monomial::from_slice(&[0, 3]);

    assert!(find_top_reducer_index(&target, &basis).unwrap().is_none());
}

#[test]
fn skips_zero_basis_polynomials() {
    let ring = sym_ring(MonomialOrder::Lex);

    let zero = Polynomial::zero();
    let g1 = sym_poly(&ring, &[(1, [0, 1])]);

    let basis = vec![zero, g1];

    let target = Monomial::from_slice(&[1, 2]);
    let found = find_top_reducer_index(&target, &basis).expect("lookup should not fail").expect("reducer should exist");

    assert_eq!(found.0, 1);
    assert_eq!(found.1, Monomial::from_slice(&[1, 1]));
}

#[test]
fn product_lookup_wraps_index_lookup() {
    let ring = sym_ring(MonomialOrder::Lex);

    let g0 = sym_poly(&ring, &[(1, [1, 0])]);
    let basis = vec![g0];

    let target = Monomial::from_slice(&[3, 2]);

    let product = find_top_reducer_product(&target, &basis).expect("lookup should not fail").expect("product should exist");

    assert_eq!(product.source, ProductSource::Basis(0));
    assert_eq!(product.multiplier, Monomial::from_slice(&[2, 2]));
}

#[test]
fn product_constructors_set_source_and_multiplier() {
    let multiplier = Monomial::from_slice(&[2, 0]);

    let product = UnevaluatedProduct::from_basis(3, multiplier.clone());

    assert_eq!(product.source, ProductSource::Basis(3));
    assert_eq!(product.multiplier, multiplier);
}

#[test]
fn history_product_constructor_sets_source() {
    let multiplier = Monomial::from_slice(&[1, 1]);

    let product = UnevaluatedProduct::from_history_reduced_row(2, 5, multiplier.clone());

    assert_eq!(product.source, ProductSource::HistoryReducedRow { batch_index: 2, row_index: 5 });
    assert_eq!(product.multiplier, multiplier);
}

#[test]
fn symbolic_row_into_parts_preserves_values() {
    let product = UnevaluatedProduct::from_basis(0, Monomial::from_slice(&[0, 0]));
    let row = SymbolicRow::new(product.clone(), 42usize);

    let (actual_product, polynomial) = row.into_parts();

    assert_eq!(actual_product, product);
    assert_eq!(polynomial, 42);
}

#[test]
fn preprocess_output_into_rows_parts_preserves_order() {
    let p0 = UnevaluatedProduct::from_basis(0, Monomial::from_slice(&[0, 0]));
    let p1 = UnevaluatedProduct::from_basis(1, Monomial::from_slice(&[1, 0]));

    let output = SymbolicPreprocessOutput::new(
        vec![SymbolicRow::new(p0.clone(), "row0"), SymbolicRow::new(p1.clone(), "row1")],
        vec![Monomial::from_slice(&[2, 0])],
    );

    let (rows, products, heads) = output.into_rows_parts();

    assert_eq!(rows, vec!["row0", "row1"]);
    assert_eq!(products, vec![p0, p1]);
    assert_eq!(heads, vec![Monomial::from_slice(&[2, 0])]);
}

#[test]
fn push_deduplicates_monomials() {
    let ring = sym_ring(MonomialOrder::Lex);

    let mut worklist = MonomialWorklist::new();

    worklist.push(Monomial::from_slice(&[1, 0]), &ring.order);
    worklist.push(Monomial::from_slice(&[1, 0]), &ring.order);

    assert_eq!(worklist.len(), 1);

    let popped = worklist.pop_next().unwrap().into_inner();

    assert_eq!(popped, Monomial::from_slice(&[1, 0]));
    assert!(worklist.is_empty());
}

#[test]
fn pop_next_uses_lex_order() {
    let ring = sym_ring(MonomialOrder::Lex);

    let mut worklist = MonomialWorklist::new();

    worklist.push(Monomial::from_slice(&[0, 1]), &ring.order);
    worklist.push(Monomial::from_slice(&[1, 0]), &ring.order);

    assert_eq!(worklist.pop_next().unwrap().into_inner(), Monomial::from_slice(&[0, 1]));

    assert_eq!(worklist.pop_next().unwrap().into_inner(), Monomial::from_slice(&[1, 0]));
}

#[test]
fn pop_next_uses_grevlex_order() {
    let ring = sym_ring(MonomialOrder::Grevlex);

    let mut worklist = MonomialWorklist::new();

    worklist.push(Monomial::from_slice(&[2, 0]), &ring.order);
    worklist.push(Monomial::from_slice(&[0, 5]), &ring.order);

    assert_eq!(worklist.pop_next().unwrap().into_inner(), Monomial::from_slice(&[2, 0]));

    assert_eq!(worklist.pop_next().unwrap().into_inner(), Monomial::from_slice(&[0, 5]));
}

#[test]
fn extend_from_row_inserts_all_row_monomials() {
    let ring = sym_ring(MonomialOrder::Lex);

    let row = sym_poly(&ring, &[(1, [2, 0]), (1, [0, 1])]);

    let mut worklist = MonomialWorklist::new();

    worklist.extend_from_row(&row, &ring.order);

    assert_eq!(worklist.len(), 2);

    assert_eq!(worklist.pop_next().unwrap().into_inner(), Monomial::from_slice(&[0, 1]));

    assert_eq!(worklist.pop_next().unwrap().into_inner(), Monomial::from_slice(&[2, 0]));

    assert!(worklist.pop_next().is_none());
}

#[test]
fn popped_monomials_are_not_reinserted() {
    let ring = sym_ring(MonomialOrder::Lex);

    let x = Monomial::from_slice(&[1, 0]);

    let mut worklist = MonomialWorklist::new();

    worklist.push(x.clone(), &ring.order);

    assert_eq!(worklist.pop_next().unwrap().into_inner(), x);

    worklist.push(Monomial::from_slice(&[1, 0]), &ring.order);

    assert!(worklist.is_empty());
}

#[test]
fn successive_pops_come_out_in_increasing_order() {
    let ring = sym_ring(MonomialOrder::Grevlex);

    let mut worklist = MonomialWorklist::new();

    worklist.push(Monomial::from_slice(&[1, 1]), &ring.order);
    worklist.push(Monomial::from_slice(&[0, 1]), &ring.order);
    worklist.push(Monomial::from_slice(&[3, 0]), &ring.order);
    worklist.push(Monomial::from_slice(&[1, 0]), &ring.order);

    let mut popped = Vec::new();
    while let Some(k) = worklist.pop_next() {
        popped.push(k.into_inner());
    }

    assert_eq!(
        popped,
        vec![Monomial::from_slice(&[0, 1]), Monomial::from_slice(&[1, 0]), Monomial::from_slice(&[1, 1]), Monomial::from_slice(&[3, 0])]
    );
}

#[test]
fn popped_monomial_is_not_returned_after_pushing_it_again() {
    let ring = sym_ring(MonomialOrder::Lex);

    let mut worklist = MonomialWorklist::new();

    worklist.push(Monomial::from_slice(&[1, 0]), &ring.order);
    assert_eq!(worklist.pop_next().unwrap().into_inner(), Monomial::from_slice(&[1, 0]));

    worklist.push(Monomial::from_slice(&[1, 0]), &ring.order);
    worklist.push(Monomial::from_slice(&[0, 1]), &ring.order);

    assert_eq!(worklist.pop_next().unwrap().into_inner(), Monomial::from_slice(&[0, 1]));
    assert!(worklist.pop_next().is_none());
}
