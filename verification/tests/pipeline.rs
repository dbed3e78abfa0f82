use gbx_grobner::f4::pairs::criterion::ProductCriterion;
use gbx_grobner::f4::pairs::critical_pair::CriticalPair;
use gbx_grobner::f4::pairs::selector::MinDegreeSelector;
use gbx_grobner::f4::pipeline::init::initialize_state;
use gbx_grobner::f4::pipeline::insert::insert_new_rows;
use gbx_grobner::f4::pipeline::iteration::run_iteration;
use gbx_grobner::f4::pipeline::post::post_process_basis;
use gbx_grobner::f4::pipeline::reduction::{extract_new_rows, reduction_phase};
use gbx_grobner::f4::pipeline::select::{build_l_d, select_pairs_phase};
use gbx_grobner::f4::simplify::index::SimplifyIndex;
use gbx_grobner::f4::state::F4State;
use gbx_grobner::f4::symbolic::types::{ProductSource, UnevaluatedProduct};
use gbx_grobner::f4::types::IterationOutcome;
use gbx_grobner::f4::{F4Error, F4Options};
use gbx_grobner::monomial::Monomial;
use gbx_grobner::order::MonomialOrder;
use gbx_grobner::polynomial::{Polynomial, PolynomialError, Term};
use gbx_grobner::post::BasisPostOptionsKind;
use gbx_grobner::reduce::normal_form;
use gbx_grobner::ring::RingCtx;

fn pipe_ring() -> RingCtx {
    RingCtx::new(32003, MonomialOrder::Lex, 2).unwrap()
}

fn pipe_poly(ctx: &RingCtx, terms: &[(u32, [u32; 2])]) -> Polynomial {
    let terms: Vec<Term> = terms.iter().map(|(c, e)| Term { coeff: *c, mono: Monomial::from_slice(e) }).collect();
    Polynomial::from_terms(ctx, terms).unwrap()
}

fn m(exps: &[u32]) -> Monomial {
    Monomial::from_slice(exps)
}

/// The pair of the basis elements with leading monomials `lm_i` and `lm_j`.
fn pair(i: usize, j: usize, lm_i: &[u32], lm_j: &[u32]) -> CriticalPair {
    CriticalPair::from_lms(i, j, &m(lm_i), &m(lm_j)).unwrap()
}

fn run_to_completion(ctx: &RingCtx, fs: Vec<Polynomial>, opts: &F4Options) -> Vec<Polynomial> {
    let validated = opts.validated().unwrap();
    let mut state = initialize_state(ctx, fs, opts, ProductCriterion).unwrap();
    let mut selector = MinDegreeSelector::new(opts.batch_size);
    let mut rounds = 0;
    loop {
        rounds += 1;
        assert!(rounds < 100, "the main loop should finish");
        match run_iteration(ctx, &mut state, &validated, &mut selector, ProductCriterion).unwrap() {
            IterationOutcome::Done => break,
            IterationOutcome::Progress => {},
        }
    }
    post_process_basis(ctx, state.basis, opts).unwrap()
}

#[test]
fn build_l_d_creates_two_symbolic_products_per_pair() {
    // lcm x^2 y, t_i = y, t_j = x.
    let p = pair(0, 1, &[2, 0], &[1, 1]);

    let l_d = build_l_d(&[p]);

    assert_eq!(l_d.len(), 2);

    match l_d[0].source {
        ProductSource::Basis(i) => assert_eq!(i, 0),
        ProductSource::HistoryReducedRow { .. } => panic!("expected basis source"),
    }

    match l_d[1].source {
        ProductSource::Basis(i) => assert_eq!(i, 1),
        ProductSource::HistoryReducedRow { .. } => panic!("expected basis source"),
    }

    assert_eq!(l_d[0].multiplier.exponents(), &[0, 1]);
    assert_eq!(l_d[1].multiplier.exponents(), &[1, 0]);
}

#[test]
fn select_pairs_phase_selects_min_degree_pairs_and_keeps_remaining() {
    let mut state = F4State::new();

    let p01 = pair(0, 1, &[2, 0], &[1, 1]);
    let p02 = pair(0, 2, &[2, 0], &[0, 2]);
    let p12 = pair(1, 2, &[1, 1], &[0, 2]);

    assert!(state.pending.insert(p01));
    assert!(state.pending.insert(p02));
    assert!(state.pending.insert(p12));

    let mut selector = MinDegreeSelector::default();

    let selection = select_pairs_phase(&mut state, &mut selector);

    assert_eq!(selection.selected_pairs.len(), 2);
    assert!(selection.selected_pairs.iter().all(|p| p.degree() == 3));

    assert_eq!(selection.l_d.len(), 4);

    assert_eq!(state.pending.len(), 1);
    assert!(state.pending.as_slice().iter().all(|p| p.degree() == 4));
}

#[test]
fn select_pairs_phase_respects_batch_size() {
    let mut state = F4State::new();

    let p01 = pair(0, 1, &[2, 0], &[1, 1]);
    let p12 = pair(1, 2, &[1, 1], &[0, 2]);
    let p02 = pair(0, 2, &[2, 0], &[0, 2]);

    assert!(state.pending.insert(p01));
    assert!(state.pending.insert(p12));
    assert!(state.pending.insert(p02));

    let mut selector = MinDegreeSelector::new(1);

    let selection = select_pairs_phase(&mut state, &mut selector);

    assert_eq!(selection.selected_pairs.len(), 1);
    assert_eq!(selection.selected_pairs[0].degree(), 3);

    assert_eq!(selection.l_d.len(), 2);

    assert_eq!(state.pending.len(), 2);
    assert!(state.pending.as_slice().iter().any(|p| p.degree() == 3));
    assert!(state.pending.as_slice().iter().any(|p| p.degree() == 4));
}

#[test]
fn select_pairs_phase_handles_empty_pending_set() {
    let mut state = F4State::new();
    let mut selector = MinDegreeSelector::default();

    let selection = select_pairs_phase(&mut state, &mut selector);

    assert!(selection.selected_pairs.is_empty());
    assert!(selection.l_d.is_empty());
    assert!(state.pending.is_empty());
}

#[test]
fn initialize_state_skips_zero_generators_and_builds_pairs() {
    let ctx = pipe_ring();
    let f1 = pipe_poly(&ctx, &[(1, [2, 0]), (1, [0, 1])]);
    let f2 = pipe_poly(&ctx, &[(1, [1, 1]), (1, [0, 0])]);

    let state = initialize_state(&ctx, vec![f1.clone(), Polynomial::zero(), f2.clone()], &F4Options::default(), ProductCriterion).unwrap();

    assert_eq!(state.basis, vec![f1, f2]);
    assert_eq!(state.pending.len(), 1);
    assert!(state.pending.contains(0, 1));
    assert_eq!(state.iteration(), 0);
    assert!(state.history.is_empty());
}

#[test]
fn initialize_state_refuses_polynomial_of_another_ring() {
    let ctx = pipe_ring();
    let other = RingCtx::new(32003, MonomialOrder::Lex, 3).unwrap();
    let g = Polynomial::from_terms(&other, vec![Term { coeff: 1, mono: m(&[1, 0, 0]) }]).unwrap();

    let r = initialize_state(&ctx, vec![g], &F4Options::default(), ProductCriterion);

    assert!(matches!(r, Err(F4Error::Polynomial(PolynomialError::VariableCountMismatch))));
}

#[test]
fn insert_new_rows_appends_nonzero_rows_with_their_pairs() {
    let ctx = pipe_ring();
    let mut state = F4State::new();
    let f1 = pipe_poly(&ctx, &[(1, [2, 0])]);
    let f2 = pipe_poly(&ctx, &[(1, [1, 1])]);

    insert_new_rows(&ctx, &mut state, vec![f1, Polynomial::zero(), f2], &ProductCriterion).unwrap();

    assert_eq!(state.basis.len(), 2);
    assert!(state.pending.contains(0, 1));
}

#[test]
fn extract_new_rows_keeps_rows_with_new_heads() {
    let ctx = pipe_ring();
    let a = pipe_poly(&ctx, &[(1, [2, 0]), (1, [0, 1])]);
    let b = pipe_poly(&ctx, &[(1, [1, 0]), (5, [0, 2])]);

    let heads = vec![m(&[2, 0])];
    let out = extract_new_rows(&heads, &[a, Polynomial::zero(), b.clone()]);

    assert_eq!(out, vec![b]);
}

#[test]
fn reduction_phase_finds_the_s_polynomial() {
    let ctx = pipe_ring();
    let f1 = pipe_poly(&ctx, &[(1, [2, 0]), (1, [0, 1])]);
    let f2 = pipe_poly(&ctx, &[(1, [1, 1]), (1, [0, 0])]);
    let basis = vec![f1, f2];
    let l_d = vec![UnevaluatedProduct::from_basis(0, m(&[0, 1])), UnevaluatedProduct::from_basis(1, m(&[1, 0]))];

    let phase = reduction_phase(&ctx, &F4Options::default(), &l_d, &basis, &[], &SimplifyIndex::new()).unwrap();

    assert_eq!(phase.f_d_products.len(), phase.f_d_tilde.len());
    // The only new leading monomial is x, from y*f1 - x*f2 = y^2 - x, made monic.
    let expected = pipe_poly(&ctx, &[(1, [1, 0]), (32002, [0, 2])]);
    assert_eq!(phase.extracted_rows, vec![expected]);
}

#[test]
fn reduction_phase_reports_missing_basis_element() {
    let ctx = pipe_ring();
    let l_d = vec![UnevaluatedProduct::from_basis(3, m(&[0, 0]))];

    let r = reduction_phase(&ctx, &F4Options::default(), &l_d, &[], &[], &SimplifyIndex::new());

    assert!(matches!(r, Err(F4Error::MissingBasisPolynomial { index: 3 })));
}

#[test]
fn run_iteration_reports_done_without_pending_pairs() {
    let ctx = pipe_ring();
    let f1 = pipe_poly(&ctx, &[(1, [2, 0])]);
    let opts = F4Options::default();
    let mut state = initialize_state(&ctx, vec![f1], &opts, ProductCriterion).unwrap();
    let mut selector = MinDegreeSelector::default();

    let outcome = run_iteration(&ctx, &mut state, &opts.validated().unwrap(), &mut selector, ProductCriterion).unwrap();

    assert_eq!(outcome, IterationOutcome::Done);
    assert_eq!(state.iteration(), 1);
    assert_eq!(state.basis.len(), 1);
}

#[test]
fn run_iteration_records_history_and_inserts_new_rows() {
    let ctx = pipe_ring();
    let f1 = pipe_poly(&ctx, &[(1, [2, 0]), (1, [0, 1])]);
    let f2 = pipe_poly(&ctx, &[(1, [1, 1]), (1, [0, 0])]);
    let opts = F4Options::default();
    let mut state = initialize_state(&ctx, vec![f1, f2], &opts, ProductCriterion).unwrap();
    let mut selector = MinDegreeSelector::default();

    let outcome = run_iteration(&ctx, &mut state, &opts.validated().unwrap(), &mut selector, ProductCriterion).unwrap();

    assert_eq!(outcome, IterationOutcome::Progress);
    assert_eq!(state.history.len(), 1);
    assert_eq!(state.basis.len(), 3);
    assert_eq!(state.basis[2], pipe_poly(&ctx, &[(1, [1, 0]), (32002, [0, 2])]));
}

#[test]
fn f4_computes_reduced_basis_of_small_ideal() {
    let ctx = pipe_ring();
    let f1 = pipe_poly(&ctx, &[(1, [2, 0]), (1, [0, 1])]);
    let f2 = pipe_poly(&ctx, &[(1, [1, 1]), (1, [0, 0])]);

    let gb = run_to_completion(&ctx, vec![f1, f2], &F4Options::default());

    // <x^2 + y, xy + 1> has reduced lex basis {x - y^2, y^3 + 1}.
    let g1 = pipe_poly(&ctx, &[(1, [1, 0]), (32002, [0, 2])]);
    let g2 = pipe_poly(&ctx, &[(1, [0, 3]), (1, [0, 0])]);
    assert_eq!(gb.len(), 2);
    assert!(gb.contains(&g1));
    assert!(gb.contains(&g2));
}

#[test]
fn post_process_unchanged_keeps_basis() {
    let ctx = pipe_ring();
    let f1 = pipe_poly(&ctx, &[(3, [2, 0]), (1, [0, 1])]);
    let f2 = pipe_poly(&ctx, &[(2, [1, 0])]);
    let opts = F4Options { post: BasisPostOptionsKind::Unchanged, ..F4Options::default() };

    let gb = post_process_basis(&ctx, vec![f1.clone(), f2.clone()], &opts).unwrap();

    assert_eq!(gb, vec![f1, f2]);
}

#[test]
fn post_process_minimal_drops_redundant_elements() {
    let ctx = pipe_ring();
    let f1 = pipe_poly(&ctx, &[(3, [2, 0]), (1, [0, 1])]);
    let f2 = pipe_poly(&ctx, &[(2, [1, 0])]);
    let opts = F4Options { post: BasisPostOptionsKind::Minimal, ..F4Options::default() };

    let gb = post_process_basis(&ctx, vec![f1, f2], &opts).unwrap();

    assert_eq!(gb, vec![pipe_poly(&ctx, &[(1, [1, 0])])]);
}

#[test]
fn f4_basis_reduces_the_generators_to_zero() {
    let ctx = pipe_ring();
    let f1 = pipe_poly(&ctx, &[(1, [2, 0]), (1, [0, 1])]);
    let f2 = pipe_poly(&ctx, &[(1, [1, 1]), (1, [0, 0])]);

    let gb = run_to_completion(&ctx, vec![f1.clone(), f2.clone()], &F4Options::default());

    // Every generator lies in the ideal of the computed basis.
    assert!(normal_form(&ctx, &f1, &gb).unwrap().is_zero());
    assert!(normal_form(&ctx, &f2, &gb).unwrap().is_zero());
}

#[test]
fn run_iteration_keeps_the_earlier_basis_elements() {
    let ctx = pipe_ring();
    let f1 = pipe_poly(&ctx, &[(1, [2, 0]), (1, [0, 1])]);
    let f2 = pipe_poly(&ctx, &[(1, [1, 1]), (1, [0, 0])]);
    let opts = F4Options::default();
    let validated = opts.validated().unwrap();
    let mut state = initialize_state(&ctx, vec![f1.clone(), f2.clone()], &opts, ProductCriterion).unwrap();
    let mut selector = MinDegreeSelector::new(opts.batch_size);

    let outcome = run_iteration(&ctx, &mut state, &validated, &mut selector, ProductCriterion).unwrap();

    assert_eq!(outcome, IterationOutcome::Progress);
    assert_eq!(state.basis[0], f1);
    assert_eq!(state.basis[1], f2);
    assert!(state.basis.len() > 2);
}
