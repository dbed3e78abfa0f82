use gbx_grobner::f4::matrix::construct::build_dense_matrix;
use gbx_grobner::f4::matrix::reduce::row_reduce_dense;
use gbx_grobner::f4::matrix::types::MatrixRowMeta;
use gbx_grobner::f4::simplify::index::SimplifyIndex;
use gbx_grobner::f4::state::{BatchHistory, F4State};
use gbx_grobner::f4::symbolic::helpers::{build_reducer_index, enqueue_support_terms, find_any_reducer_indexed, materialize_multiple};
use gbx_grobner::f4::symbolic::preprocess::symbolic_preprocess;
use gbx_grobner::f4::symbolic::types::{ProductSource, SymbolicRowKind, UnevaluatedProduct};
use gbx_grobner::f4::trace::config::F4TraceConfig;
use gbx_grobner::f4::trace::timings::{WhileKind, WhileTimes};
use gbx_grobner::f4::trace::tracer::F4Tracer;
use gbx_grobner::f4::F4Error;
use gbx_grobner::field::PrimeField;
use gbx_grobner::monomial::{checked_lcm, checked_quotient, divides, gcd_is_one, Monomial, MonomialError};
use gbx_grobner::order::MonomialOrder;
use gbx_grobner::polynomial::{Polynomial, PolynomialError, Term};
use gbx_grobner::reduce::normal_form;
use gbx_grobner::ring::RingCtx;
use gbx_grobner::trace::{TraceConfig, TraceLevel, TraceReportMode};

fn core_ring() -> RingCtx {
    RingCtx::new(7, MonomialOrder::Lex, 2).unwrap()
}

fn core_poly(ctx: &RingCtx, terms: &[(u32, [u32; 2])]) -> Polynomial {
    let terms: Vec<Term> = terms.iter().map(|(c, e)| Term { coeff: *c, mono: Monomial::from_slice(e) }).collect();
    Polynomial::from_terms(ctx, terms).unwrap()
}

fn mono(e: &[u32]) -> Monomial {
    Monomial::from_slice(e)
}

#[test]
fn prime_field_arithmetic() {
    let f = PrimeField::prime(7).unwrap();
    assert!(PrimeField::prime(8).is_none());
    assert_eq!(f.characteristic(), 7);
    assert_eq!(f.add(5, 4), 2);
    assert_eq!(f.sub(2, 5), 4);
    assert_eq!(f.neg(3), 4);
    assert_eq!(f.mul(3, 5), 1);
    assert_eq!(f.try_inv(3), Some(5));
    assert_eq!(f.try_inv(0), None);
    assert_eq!(f.checked_div(2, 3), Some(3));
    assert_eq!(f.elem(23), 2);
}

#[test]
fn ring_requires_prime_modulus() {
    assert!(RingCtx::new(9, MonomialOrder::Lex, 2).is_none());
    assert!(RingCtx::new(11, MonomialOrder::Grevlex, 3).is_some());
}

#[test]
fn monomial_operations() {
    let a = mono(&[2, 1]);
    let b = mono(&[1, 3]);
    assert_eq!(checked_lcm(&a, &b).unwrap(), mono(&[2, 3]));
    assert!(divides(&mono(&[1, 1]), &a));
    assert!(!divides(&b, &a));
    assert_eq!(checked_quotient(&mono(&[1, 0]), &a).unwrap(), Some(mono(&[1, 1])));
    assert_eq!(checked_quotient(&b, &a).unwrap(), None);
    assert!(gcd_is_one(&mono(&[2, 0]), &mono(&[0, 3])));
    assert!(!gcd_is_one(&a, &b));
    assert_eq!(a.total_degree(), Some(3));
    assert_eq!(mono(&[u32::MAX, 1]).total_degree(), None);
    assert_eq!(checked_lcm(&a, &mono(&[1, 1, 1])), Err(MonomialError::VariableCountMismatch));
}

#[test]
fn from_terms_combines_and_sorts() {
    let ctx = core_ring();
    // y + x + 3y + 4 x^0 + 3 x^0 over F_7: x + 4y.
    let p = core_poly(&ctx, &[(1, [0, 1]), (1, [1, 0]), (3, [0, 1]), (4, [0, 0]), (3, [0, 0])]);
    assert_eq!(p, core_poly(&ctx, &[(1, [1, 0]), (4, [0, 1])]));
    assert_eq!(p.leading_mono(), Some(&mono(&[1, 0])));
    assert_eq!(p.leading_coeff(), Some(1));
}

#[test]
fn from_terms_rejects_wrong_variable_count() {
    let ctx = core_ring();
    let r = Polynomial::from_terms(&ctx, vec![Term { coeff: 1, mono: mono(&[1, 0, 0]) }]);
    assert_eq!(r, Err(PolynomialError::VariableCountMismatch));
}

#[test]
fn normal_form_reduces_to_remainder() {
    let ctx = core_ring();
    // x^2 + y reduced by x - 1 gives y + 1.
    let f = core_poly(&ctx, &[(1, [2, 0]), (1, [0, 1])]);
    let g = core_poly(&ctx, &[(1, [1, 0]), (6, [0, 0])]);
    let q = normal_form(&ctx, &f, &[g]).unwrap();
    assert_eq!(q, core_poly(&ctx, &[(1, [0, 1]), (1, [0, 0])]));
}

#[test]
fn normal_form_by_nothing_is_identity() {
    let ctx = core_ring();
    let f = core_poly(&ctx, &[(3, [2, 0]), (1, [0, 1])]);
    assert_eq!(normal_form(&ctx, &f, &[]).unwrap(), f);
}

#[test]
fn dense_matrix_and_row_reduction() {
    let ctx = core_ring();
    let r0 = core_poly(&ctx, &[(1, [2, 1]), (1, [0, 2])]);
    let r1 = core_poly(&ctx, &[(1, [2, 1]), (1, [1, 0])]);
    let meta = vec![
        MatrixRowMeta { source_basis_index: 0, multiplier: mono(&[0, 1]), kind: SymbolicRowKind::PairLeft },
        MatrixRowMeta { source_basis_index: 1, multiplier: mono(&[1, 0]), kind: SymbolicRowKind::PairRight },
    ];
    let data = build_dense_matrix(&ctx, &[r0, r1], meta).unwrap();
    assert_eq!(data.columns.monomials, vec![mono(&[2, 1]), mono(&[1, 0]), mono(&[0, 2])]);
    assert_eq!(data.rows, vec![vec![1, 0, 1], vec![1, 1, 0]]);

    let reduced = row_reduce_dense(&ctx, data).unwrap();
    assert_eq!(reduced.rows, vec![vec![1, 0, 1], vec![0, 1, 6]]);
    assert_eq!(reduced.nrows(), 2);
    assert_eq!(reduced.ncols(), 3);
}

#[test]
fn row_reduction_swaps_rows_and_scales_pivots() {
    let ctx = core_ring();
    let r0 = core_poly(&ctx, &[(3, [0, 1])]);
    let r1 = core_poly(&ctx, &[(2, [1, 0]), (1, [0, 1])]);
    let meta = vec![
        MatrixRowMeta { source_basis_index: 0, multiplier: mono(&[0, 0]), kind: SymbolicRowKind::InitialSeed },
        MatrixRowMeta { source_basis_index: 1, multiplier: mono(&[0, 0]), kind: SymbolicRowKind::InitialSeed },
    ];
    let data = build_dense_matrix(&ctx, &[r0, r1], meta).unwrap();
    let reduced = row_reduce_dense(&ctx, data).unwrap();
    assert_eq!(reduced.rows, vec![vec![1, 0], vec![0, 1]]);
    assert_eq!(reduced.row_meta[0].source_basis_index, 1);
}

#[test]
fn simplify_rewrites_with_history_rows() {
    let ctx = core_ring();
    let tilde = vec![core_poly(&ctx, &[(1, [2, 1]), (1, [0, 2])])];
    let batch = BatchHistory::new(vec![UnevaluatedProduct::from_basis(0, mono(&[0, 1]))], vec![mono(&[2, 1])], tilde);
    let index = SimplifyIndex::compile(&[batch]);

    let exact = index.simplify_product(&ctx, UnevaluatedProduct::from_basis(0, mono(&[0, 1]))).unwrap();
    assert_eq!(exact.source, ProductSource::HistoryReducedRow { batch_index: 0, row_index: 0 });
    assert_eq!(exact.multiplier, mono(&[0, 0]));

    let divisor = index.simplify_product(&ctx, UnevaluatedProduct::from_basis(0, mono(&[1, 1]))).unwrap();
    assert_eq!(divisor.source, ProductSource::HistoryReducedRow { batch_index: 0, row_index: 0 });
    assert_eq!(divisor.multiplier, mono(&[1, 0]));

    let untouched = index.simplify_product(&ctx, UnevaluatedProduct::from_basis(1, mono(&[0, 1]))).unwrap();
    assert_eq!(untouched, UnevaluatedProduct::from_basis(1, mono(&[0, 1])));
}

#[test]
fn simplify_without_history_is_identity() {
    let ctx = core_ring();
    let index = SimplifyIndex::new();
    let p = UnevaluatedProduct::from_basis(2, mono(&[3, 1]));
    assert_eq!(index.simplify_product(&ctx, p.clone()).unwrap(), p);
}

#[test]
fn state_push_history_records_batch() {
    let ctx = core_ring();
    let mut state = F4State::new();
    assert!(state.is_done());
    state.advance_iteration();
    state.push_history(vec![UnevaluatedProduct::from_basis(0, mono(&[0, 1]))], vec![mono(&[2, 1])], vec![core_poly(&ctx, &[(1, [2, 1])])]);
    let counts = state.debug_counts();
    assert_eq!(counts.iteration, 1);
    assert_eq!(counts.history_len, 1);
    assert_eq!(counts.basis_len, 0);
    assert_eq!(state.history[0].product_len(), 1);
    assert_eq!(state.history[0].reduced_len(), 1);
    assert!(!state.history[0].is_empty());
}

#[test]
fn symbolic_preprocess_closes_under_top_reducers() {
    let ctx = core_ring();
    // basis: x^2 + y, xy + 1; L_d = {y * f0, x * f1}.
    let f0 = core_poly(&ctx, &[(1, [2, 0]), (1, [0, 1])]);
    let f1 = core_poly(&ctx, &[(1, [1, 1]), (1, [0, 0])]);
    let basis = vec![f0, f1];
    let l_d = vec![UnevaluatedProduct::from_basis(0, mono(&[0, 1])), UnevaluatedProduct::from_basis(1, mono(&[1, 0]))];
    let out = symbolic_preprocess(&ctx, &l_d, &basis, &[], &SimplifyIndex::new()).unwrap();
    assert_eq!(out.len(), 2);
    assert_eq!(out.symbolic_heads, vec![mono(&[2, 1]), mono(&[2, 1])]);
}

#[test]
fn reducer_index_finds_smallest_degree_divisor() {
    let ctx = core_ring();
    let g0 = core_poly(&ctx, &[(1, [2, 0])]);
    let g1 = Polynomial::zero();
    let g2 = core_poly(&ctx, &[(1, [0, 1])]);
    let index = build_reducer_index(&[g0, g1, g2]);
    assert!(!index.is_empty());

    let found = find_any_reducer_indexed(&index, &mono(&[2, 3])).unwrap();
    assert_eq!(found, Some((2, mono(&[2, 2]))));
    assert_eq!(find_any_reducer_indexed(&index, &mono(&[1, 0])).unwrap(), None);
    assert!(matches!(find_any_reducer_indexed(&index, &mono(&[1, 0, 0])), Err(F4Error::SymbolicInvariant)));
}

#[test]
fn enqueue_support_terms_adds_each_monomial_once() {
    let ctx = core_ring();
    let p = core_poly(&ctx, &[(1, [2, 0]), (1, [0, 1]), (1, [0, 0])]);
    let mut seen = vec![mono(&[0, 1])];
    let mut pending = vec![mono(&[5, 5])];
    enqueue_support_terms(&p, &mut seen, &mut pending);
    assert_eq!(pending, vec![mono(&[5, 5]), mono(&[2, 0]), mono(&[0, 0])]);
    assert_eq!(seen.len(), 3);
    enqueue_support_terms(&p, &mut seen, &mut pending);
    assert_eq!(pending.len(), 3);
}

#[test]
fn materialize_multiple_multiplies_basis_element() {
    let ctx = core_ring();
    let g = core_poly(&ctx, &[(2, [1, 0]), (1, [0, 0])]);
    let q = materialize_multiple(&ctx, &[g], 0, &mono(&[1, 1])).unwrap();
    assert_eq!(q, core_poly(&ctx, &[(2, [2, 1]), (1, [1, 1])]));
    assert!(matches!(materialize_multiple(&ctx, &[], 0, &mono(&[0, 0])), Err(F4Error::MissingBasisPolynomial { index: 0 })));
}

#[test]
fn while_times_accumulate_per_kind() {
    let mut t = WhileTimes::default();
    t.add(WhileKind::Symbolic, 5);
    t.add(WhileKind::Symbolic, 7);
    t.add(WhileKind::RowReduce, 3);
    assert_eq!(t.symbolic, 12);
    assert_eq!(t.row_reduce, 3);
    assert_eq!(t.total(), 15);
}

#[test]
fn tracer_reports_what_is_due() {
    let quiet = F4TraceConfig::default();
    let mut tracer = F4Tracer::new(quiet);
    assert!(!tracer.on_init_complete(3));
    assert_eq!(tracer.counters().gb_len, 3);
    assert!(!tracer.on_iteration_start(50));
    let report = tracer.on_finish();
    assert!(!report.summary && !report.timings);

    let loud = F4TraceConfig {
        core: TraceConfig { level: TraceLevel::Verbose, report_mode: TraceReportMode::Summary },
        progress_every: 10,
        print_each_batch: true,
        print_batch_timings: true,
        ..F4TraceConfig::default()
    };
    let mut tracer = F4Tracer::new(loud);
    assert!(tracer.on_init_complete(1));
    assert!(tracer.on_iteration_start(20));
    assert!(!tracer.on_iteration_start(21));
    assert!(tracer.on_pairs_selected(4));
    assert_eq!(tracer.counters().selected_pairs, 4);
    assert_eq!(tracer.counters().selected_batches, 1);
    tracer.set_queue_len(9);
    tracer.set_queue_len(2);
    assert_eq!(tracer.counters().max_queue_len, 9);
    tracer.add_symbolic_time(10);
    tracer.add_symbolic_time(5);
    assert_eq!(tracer.counters().t_symbolic, 15);
    assert!(tracer.on_iteration_timing());
    let report = tracer.on_finish();
    assert!(report.summary && report.timings);
}

#[test]
fn normal_form_of_reduced_polynomial_is_itself() {
    let ctx = core_ring();
    // No term of x^2 + y is divisible by y^2.
    let f = core_poly(&ctx, &[(1, [2, 0]), (1, [0, 1])]);
    let g = core_poly(&ctx, &[(1, [0, 2]), (1, [0, 0])]);
    assert_eq!(normal_form(&ctx, &f, &[g]).unwrap(), f);
}

#[test]
fn row_reduction_keeps_every_row_meta_once() {
    let ctx = core_ring();
    let r0 = core_poly(&ctx, &[(3, [0, 1])]);
    let r1 = core_poly(&ctx, &[(2, [1, 0]), (1, [0, 1])]);
    let meta = vec![
        MatrixRowMeta { source_basis_index: 0, multiplier: mono(&[0, 0]), kind: SymbolicRowKind::InitialSeed },
        MatrixRowMeta { source_basis_index: 1, multiplier: mono(&[0, 0]), kind: SymbolicRowKind::InitialSeed },
    ];
    let data = build_dense_matrix(&ctx, &[r0, r1], meta).unwrap();
    let reduced = row_reduce_dense(&ctx, data).unwrap();
    assert_eq!(reduced.row_meta.len(), 2);
    assert_eq!(reduced.row_meta[0].source_basis_index, 1);
    assert_eq!(reduced.row_meta[1].source_basis_index, 0);
}

#[test]
fn simplify_divisor_rules_prefer_newest_batch() {
    let ctx = core_ring();
    // Batch 0 records y * f0 (head x^2 y), batch 1 records x * f0 (head x^3); both
    // multipliers divide x y, and the newer batch wins.
    let b0 = BatchHistory::new(
        vec![UnevaluatedProduct::from_basis(0, mono(&[0, 1]))],
        vec![mono(&[2, 1])],
        vec![core_poly(&ctx, &[(1, [2, 1]), (1, [0, 1])])],
    );
    let b1 = BatchHistory::new(
        vec![UnevaluatedProduct::from_basis(0, mono(&[1, 0]))],
        vec![mono(&[3, 0])],
        vec![core_poly(&ctx, &[(1, [3, 0]), (1, [1, 0])])],
    );
    let index = SimplifyIndex::compile(&[b0, b1]);

    let p = index.simplify_product(&ctx, UnevaluatedProduct::from_basis(0, mono(&[1, 1]))).unwrap();

    assert_eq!(p.source, ProductSource::HistoryReducedRow { batch_index: 1, row_index: 0 });
    assert_eq!(p.multiplier, mono(&[0, 1]));
}

#[test]
fn symbolic_preprocess_of_no_product_is_empty() {
    let ctx = core_ring();
    let basis = vec![core_poly(&ctx, &[(1, [2, 0]), (1, [0, 1])])];
    let out = symbolic_preprocess(&ctx, &[], &basis, &[], &SimplifyIndex::new()).unwrap();
    assert_eq!(out.len(), 0);
    assert!(out.symbolic_heads.is_empty());
}

#[test]
fn symbolic_preprocess_reports_missing_basis_element() {
    let ctx = core_ring();
    let basis = vec![core_poly(&ctx, &[(1, [2, 0]), (1, [0, 1])])];
    let l_d = vec![UnevaluatedProduct::from_basis(5, mono(&[0, 1]))];
    let r = symbolic_preprocess(&ctx, &l_d, &basis, &[], &SimplifyIndex::new());
    assert!(matches!(r, Err(F4Error::MissingBasisPolynomial { index: 5 })));
}

#[test]
fn while_times_total_is_sum_of_all_adds() {
    let mut t = WhileTimes::default();
    let adds = [(WhileKind::BatchSelect, 4u128), (WhileKind::PairUpdate, 9), (WhileKind::BatchSelect, 1), (WhileKind::Extract, 6)];
    for (k, d) in adds {
        t.add(k, d);
    }
    assert_eq!(t.batch_select, 5);
    assert_eq!(t.pair_update, 9);
    assert_eq!(t.extract, 6);
    assert_eq!(t.total(), 20);
}

#[test]
fn symbolic_preprocess_reports_overflow_of_a_reached_product() {
    let ctx = core_ring();
    // x^(2^32 - 1) + y: the initial product x * f0 does not fit in the exponents.
    let f0 = core_poly(&ctx, &[(1, [u32::MAX, 0]), (1, [0, 1])]);
    let basis = vec![f0];
    let l_d = vec![UnevaluatedProduct::from_basis(0, mono(&[1, 0]))];
    let r = symbolic_preprocess(&ctx, &l_d, &basis, &[], &SimplifyIndex::new());
    assert!(matches!(r, Err(F4Error::Polynomial(PolynomialError::Monomial(MonomialError::ExponentOverflow)))));
}

#[test]
fn symbolic_preprocess_succeeds_when_every_product_fits() {
    let ctx = core_ring();
    // y * f0 = x^(2^32 - 1) y + y^2 fits, and no basis element reduces y^2.
    let f0 = core_poly(&ctx, &[(1, [u32::MAX, 0]), (1, [0, 1])]);
    let basis = vec![f0];
    let l_d = vec![UnevaluatedProduct::from_basis(0, mono(&[0, 1]))];
    let out = symbolic_preprocess(&ctx, &l_d, &basis, &[], &SimplifyIndex::new()).unwrap();
    assert_eq!(out.len(), 1);
}

#[test]
fn row_reduction_keeps_labels_with_rows_when_clearing_above_pivot() {
    let ctx = core_ring();
    // Rows x + 1 and x over F_7: the first row is the first pivot, the second becomes -1 and
    // then the second pivot, which clears the 1 above it. No row moves.
    let r0 = core_poly(&ctx, &[(1, [1, 0]), (1, [0, 0])]);
    let r1 = core_poly(&ctx, &[(1, [1, 0])]);
    let meta = vec![
        MatrixRowMeta { source_basis_index: 0, multiplier: mono(&[0, 0]), kind: SymbolicRowKind::InitialSeed },
        MatrixRowMeta { source_basis_index: 1, multiplier: mono(&[0, 0]), kind: SymbolicRowKind::InitialSeed },
    ];
    let data = build_dense_matrix(&ctx, &[r0, r1], meta).unwrap();
    assert_eq!(data.rows, vec![vec![1, 1], vec![1, 0]]);
    let reduced = row_reduce_dense(&ctx, data).unwrap();
    assert_eq!(reduced.rows, vec![vec![1, 0], vec![0, 1]]);
    assert_eq!(reduced.columns.monomials, vec![mono(&[1, 0]), mono(&[0, 0])]);
    assert_eq!(reduced.row_meta[0].source_basis_index, 0);
    assert_eq!(reduced.row_meta[1].source_basis_index, 1);
}
