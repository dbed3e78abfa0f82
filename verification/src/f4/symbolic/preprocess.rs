//! Symbolic preprocessing: the row set of one F4 batch, closed under top reduction.

use vstd::prelude::*;

use crate::f4::error::F4Error;
use crate::f4::simplify::index::{lemma_simplified_len, lemma_simplified_source, simplified, SimplifyIndex};
use crate::f4::state::BatchHistory;
use crate::f4::symbolic::materialize::{all_wf, history_wf, is_multiple, materializable, materialize_product, source_row};
use crate::f4::symbolic::reducers::{find_top_reducer_product, first_reducer, lemma_first_reducer, top_reducer};
use crate::f4::symbolic::types::{ProductSource, SymbolicPreprocessOutput, SymbolicRow, UnevaluatedProduct};
use crate::f4::symbolic::ordered::OrderedMono;
use crate::f4::symbolic::worklist::{key_monos, row_monos, MonomialWorklist};
use crate::f4::types::{is_nonzero, lm};
use crate::monomial::{Monomial, MonomialError};

use crate::polynomial::{poly_wf, Polynomial, PolynomialError};
use crate::ring::RingCtx;

verus! {

/// Products of a list of symbolic rows.
pub open spec fn row_products(rows: Seq<SymbolicRow<Polynomial>>) -> Seq<(ProductSource, Seq<u32>)> {
    Seq::new(rows.len(), |i: int| rows[i].product@)
}

/// Leading monomials of the nonzero rows, in row order.
pub open spec fn heads_of(rows: Seq<SymbolicRow<Polynomial>>) -> Seq<Seq<u32>>
    decreases rows.len(),
{
    if rows.len() == 0 {
        Seq::empty()
    } else if is_nonzero(rows.last().polynomial) {
        heads_of(rows.drop_last()).push(lm(rows.last().polynomial))
    } else {
        heads_of(rows.drop_last())
    }
}

/// Every monomial that occurs in one of the rows.
pub open spec fn row_mono_set(rows: Seq<SymbolicRow<Polynomial>>) -> Set<Seq<u32>>
    decreases rows.len(),
{
    if rows.len() == 0 {
        Set::empty()
    } else {
        row_mono_set(rows.drop_last()) + row_monos(rows.last().polynomial).to_set()
    }
}

/// Views of a list of monomials.
pub open spec fn mono_views(v: Seq<Monomial>) -> Seq<Seq<u32>> {
    Seq::new(v.len(), |i: int| v[i]@)
}

/// Each row is the materialization of its product.
pub open spec fn rows_sound(ctx: RingCtx, basis: Seq<Polynomial>, history: Seq<BatchHistory<Polynomial>>, rows: Seq<SymbolicRow<Polynomial>>) -> bool {
    forall|i: int|
        0 <= i < rows.len() ==> {
            let row = #[trigger] rows[i];
            &&& poly_wf(ctx, row.polynomial@)
            &&& materializable(ctx, basis, history, row.product@)
            &&& is_multiple(row.polynomial@, source_row(basis, history, row.product.source).unwrap()@, row.product.multiplier@)
        }
}

/// The monomial `m` needs no further row: it is a row head, or its top reducer, once
/// simplified, is already a row product.
pub open spec fn closed_at(
    basis: Seq<Polynomial>,
    rules: Seq<(ProductSource, Seq<u32>, ProductSource)>,
    nvars: nat,
    rows: Seq<SymbolicRow<Polynomial>>,
    m: Seq<u32>,
) -> bool {
    ||| heads_of(rows).contains(m)
    ||| (top_reducer(basis, m) matches Some(q) ==> row_products(rows).contains(simplified(rules, nvars, q)))
}

/// Where row `i` comes from: a simplified initial product, or the simplified top reducer of
/// a monomial that occurs in an earlier row and is the leading monomial of no earlier row.
pub open spec fn row_origin(
    l_d: Seq<UnevaluatedProduct>,
    basis: Seq<Polynomial>,
    rules: Seq<(ProductSource, Seq<u32>, ProductSource)>,
    nvars: nat,
    rows: Seq<SymbolicRow<Polynomial>>,
    i: int,
) -> bool {
    let p = rows[i].product@;
    let before = rows.take(i);
    ||| exists|k: int| 0 <= k < l_d.len() && p == simplified(rules, nvars, (#[trigger] l_d[k])@)
    ||| exists|m: Seq<u32>|
        #[trigger] row_mono_set(before).contains(m) && !heads_of(before).contains(m) && (top_reducer(basis, m) matches Some(q) && p == simplified(rules, nvars, q))
}

/// An error that materializing a product over `basis` and `history` can report, with its
/// cause: a source that does not exist, a multiplier with the wrong number of variables, or
/// an exponent overflow.
pub open spec fn materialize_error(basis: Seq<Polynomial>, history: Seq<BatchHistory<Polynomial>>, e: F4Error) -> bool {
    match e {
        F4Error::MissingBasisPolynomial { index } => index >= basis.len(),
        F4Error::MissingHistoryRow { batch_index, row_index } => batch_index >= history.len()
            || row_index >= history[batch_index as int].f_j_tilde@.len(),
        F4Error::Polynomial(pe) => pe == PolynomialError::VariableCountMismatch || pe == PolynomialError::Monomial(MonomialError::ExponentOverflow),
        _ => false,
    }
}

/// Every initial product and every rule target names an existing row, so that every
/// product the preprocessing reaches can be looked up.
pub open spec fn sources_exist(
    basis: Seq<Polynomial>,
    history: Seq<BatchHistory<Polynomial>>,
    rules: Seq<(ProductSource, Seq<u32>, ProductSource)>,
    l_d: Seq<UnevaluatedProduct>,
) -> bool {
    &&& forall|k: int| 0 <= k < l_d.len() ==> source_row(basis, history, (#[trigger] l_d[k]).source) is Some
    &&& forall|k: int| 0 <= k < rules.len() ==> source_row(basis, history, (#[trigger] rules[k]).2) is Some
}

/// A product the preprocessing goes on to from `rows`: the simplified form of an initial
/// product, or of the top reducer of a row monomial that heads no row.
pub open spec fn next_product(
    l_d: Seq<UnevaluatedProduct>,
    basis: Seq<Polynomial>,
    rules: Seq<(ProductSource, Seq<u32>, ProductSource)>,
    nvars: nat,
    rows: Seq<SymbolicRow<Polynomial>>,
    p: (ProductSource, Seq<u32>),
) -> bool {
    ||| exists|k: int| 0 <= k < l_d.len() && p == simplified(rules, nvars, (#[trigger] l_d[k])@)
    ||| exists|m: Seq<u32>|
        #[trigger] row_mono_set(rows).contains(m) && !heads_of(rows).contains(m) && (top_reducer(basis, m) matches Some(q) && p == simplified(rules, nvars, q))
}

/// `rows` is a row set the preprocessing can build: each row the materialization of a
/// product reached from the rows before it.
pub open spec fn built_rows(
    ctx: RingCtx,
    l_d: Seq<UnevaluatedProduct>,
    basis: Seq<Polynomial>,
    history: Seq<BatchHistory<Polynomial>>,
    rules: Seq<(ProductSource, Seq<u32>, ProductSource)>,
    rows: Seq<SymbolicRow<Polynomial>>,
) -> bool {
    &&& rows_sound(ctx, basis, history, rows)
    &&& forall|j: int| 0 <= j < rows.len() ==> #[trigger] row_origin(l_d, basis, rules, ctx.nvars as nat, rows, j)
}

/// From row set `rows` that the preprocessing can build, it reaches product `p`, which
/// cannot be materialized.
pub open spec fn reaches_unmaterializable(
    ctx: RingCtx,
    l_d: Seq<UnevaluatedProduct>,
    basis: Seq<Polynomial>,
    history: Seq<BatchHistory<Polynomial>>,
    rules: Seq<(ProductSource, Seq<u32>, ProductSource)>,
    rows: Seq<SymbolicRow<Polynomial>>,
    p: (ProductSource, Seq<u32>),
) -> bool {
    &&& built_rows(ctx, l_d, basis, history, rules, rows)
    &&& next_product(l_d, basis, rules, ctx.nvars as nat, rows, p)
    &&& !materializable(ctx, basis, history, p)
}

/// Every product the preprocessing can reach can be materialized.
pub open spec fn preprocess_fits(
    ctx: RingCtx,
    l_d: Seq<UnevaluatedProduct>,
    basis: Seq<Polynomial>,
    history: Seq<BatchHistory<Polynomial>>,
    rules: Seq<(ProductSource, Seq<u32>, ProductSource)>,
) -> bool {
    forall|rows: Seq<SymbolicRow<Polynomial>>, p: (ProductSource, Seq<u32>)| !#[trigger] reaches_unmaterializable(ctx, l_d, basis, history, rules, rows, p)
}

/// Every initial product's multiplier has `n` variables.
pub open spec fn multipliers_sized(l_d: Seq<UnevaluatedProduct>, n: nat) -> bool {
    forall|k: int| 0 <= k < l_d.len() ==> (#[trigger] l_d[k]).multiplier@.len() == n
}

/// Simplifying a product with an existing source gives a product with an existing source
/// when every rule target exists.
proof fn lemma_simplified_exists(
    basis: Seq<Polynomial>,
    history: Seq<BatchHistory<Polynomial>>,
    rules: Seq<(ProductSource, Seq<u32>, ProductSource)>,
    n: nat,
    p: (ProductSource, Seq<u32>),
)
    requires
        source_row(basis, history, p.0) is Some,
        forall|k: int| 0 <= k < rules.len() ==> source_row(basis, history, (#[trigger] rules[k]).2) is Some,
    ensures
        source_row(basis, history, simplified(rules, n, p).0) is Some,
{
    lemma_simplified_source(rules, n, p);
    if simplified(rules, n, p).0 != p.0 {
        let k = choose|k: int| 0 <= k < rules.len() && (#[trigger] rules[k]).2 == simplified(rules, n, p).0;
        assert(source_row(basis, history, rules[k].2) is Some);
    }
}

/// The invariant kept while the row set is built.
pub open spec fn state_inv(
    ctx: RingCtx,
    basis: Seq<Polynomial>,
    history: Seq<BatchHistory<Polynomial>>,
    rules: Seq<(ProductSource, Seq<u32>, ProductSource)>,
    rows: Seq<SymbolicRow<Polynomial>>,
    heads: Seq<Monomial>,
    done: Seq<Monomial>,
    worklist: MonomialWorklist,
    gap: Set<Seq<u32>>,
) -> bool {
    &&& ctx.wf()
    &&& all_wf(ctx, basis)
    &&& history_wf(ctx, history)
    &&& rows_sound(ctx, basis, history, rows)
    &&& row_products(rows).no_duplicates()
    &&& mono_views(heads) == heads_of(rows)
    &&& worklist.well_formed()
    &&& worklist.uniform(ctx.order, ctx.nvars as nat)
    &&& worklist.seen_view().to_set() == row_mono_set(rows)
    &&& forall|k: int| 0 <= k < done.len() ==> closed_at(basis, rules, ctx.nvars as nat, rows, (#[trigger] done[k])@)
    &&& forall|m: Seq<u32>| #[trigger] worklist.seen_view().contains(m) && !worklist.pending_view().contains(m) ==> mono_views(done).contains(m) || gap.contains(m)
    &&& forall|x: Seq<u32>| #[trigger] heads_of(rows).contains(x) ==> mono_views(done).contains(x)
}

proof fn lemma_closed_grow(
    basis: Seq<Polynomial>,
    rules: Seq<(ProductSource, Seq<u32>, ProductSource)>,
    nvars: nat,
    rows: Seq<SymbolicRow<Polynomial>>,
    row: SymbolicRow<Polynomial>,
    m: Seq<u32>,
)
    requires
        closed_at(basis, rules, nvars, rows, m),
    ensures
        closed_at(basis, rules, nvars, rows.push(row), m),
{
    let rows2 = rows.push(row);
    assert(rows2.drop_last() =~= rows);
    if heads_of(rows).contains(m) {
        let k = choose|k: int| 0 <= k < heads_of(rows).len() && heads_of(rows)[k] == m;
        if is_nonzero(row.polynomial) {
            assert(heads_of(rows2)[k] == m);
        }
    } else if let Some(q) = top_reducer(basis, m) {
        let p = simplified(rules, nvars, q);
        let k = choose|k: int| 0 <= k < row_products(rows).len() && row_products(rows)[k] == p;
        assert(row_products(rows2)[k] == p);
    }
}

fn contains_product(rows: &Vec<SymbolicRow<Polynomial>>, p: &UnevaluatedProduct) -> (b: bool)
    ensures
        b == row_products(rows@).contains(p@),
{
    let mut i: usize = 0;
    while i < rows.len()
        invariant
            i <= rows@.len(),
            forall|k: int| 0 <= k < i ==> row_products(rows@)[k] != p@,
        decreases rows@.len() - i,
    {
        if rows[i].product.same(p) {
            assert(row_products(rows@)[i as int] == p@);
            return true;
        }
        i += 1;
    }
    false
}

fn contains_mono(v: &Vec<Monomial>, m: &Monomial) -> (b: bool)
    ensures
        b == mono_views(v@).contains(m@),
{
    let mut i: usize = 0;
    while i < v.len()
        invariant
            i <= v@.len(),
            forall|k: int| 0 <= k < i ==> mono_views(v@)[k] != m@,
        decreases v@.len() - i,
    {
        if v[i].same(m) {
            assert(mono_views(v@)[i as int] == m@);
            return true;
        }
        i += 1;
    }
    false
}

/// Adds the materialization of `product` to the rows unless the product is already there.
fn add_product<'a>(
    ctx: &'a RingCtx,
    basis: &[Polynomial],
    history: &[BatchHistory<Polynomial>],
    rules: Ghost<Seq<(ProductSource, Seq<u32>, ProductSource)>>,
    gap: Ghost<Set<Seq<u32>>>,
    product: &UnevaluatedProduct,
    rows: &mut Vec<SymbolicRow<Polynomial>>,
    heads: &mut Vec<Monomial>,
    done: &mut Vec<Monomial>,
    worklist: &mut MonomialWorklist<'a>,
) -> (r: Result<(), F4Error>)
    requires
        state_inv(*ctx, basis@, history@, rules@, old(rows)@, old(heads)@, old(done)@, *old(worklist), gap@),
    ensures
        r matches Err(e) ==> materialize_error(basis@, history@, e),
        r is Err ==> !materializable(*ctx, basis@, history@, product@),
        source_row(basis@, history@, product.source) is Some ==> (r matches Err(e) ==> e is Polynomial),
        source_row(basis@, history@, product.source) is Some && product.multiplier@.len() == ctx.nvars ==> (r matches Err(e) ==> e == F4Error::Polynomial(PolynomialError::Monomial(MonomialError::ExponentOverflow))),
        r is Ok ==> {
            &&& state_inv(*ctx, basis@, history@, rules@, final(rows)@, final(heads)@, final(done)@, *final(worklist), gap@)
            &&& final(done)@.subrange(0, old(done)@.len() as int) == old(done)@
            &&& old(done)@.len() <= final(done)@.len()
            &&& row_products(final(rows)@).contains(product@)
            &&& old(rows)@.len() <= final(rows)@.len()
            &&& final(rows)@.subrange(0, old(rows)@.len() as int) == old(rows)@
            &&& row_mono_set(old(rows)@).subset_of(row_mono_set(final(rows)@))
            &&& final(worklist).keys().subrange(0, old(worklist).keys().len() as int) == old(worklist).keys()
            &&& old(worklist).seen_view().len() <= final(worklist).seen_view().len()
            &&& final(worklist).pending_view().len() - old(worklist).pending_view().len() == final(worklist).seen_view().len() - old(worklist).seen_view().len()
            &&& final(rows)@.len() > old(rows)@.len() ==> final(rows)@ == old(rows)@.push(final(rows)@.last()) && final(rows)@.last().product@ == product@
        },
{
    if contains_product(rows, product) {
        assert(rows@.subrange(0, rows@.len() as int) =~= rows@);
        assert(worklist.keys().subrange(0, worklist.keys().len() as int) =~= worklist.keys());
        assert(done@.subrange(0, done@.len() as int) =~= done@);
        return Ok(());
    }
    let row = match materialize_product(ctx, product, basis, history) {
        Ok(row) => row,
        Err(e) => return Err(e),
    };
    let ghost rows0 = rows@;
    let ghost heads0 = heads@;
    let ghost done0 = done@;
    let ghost seen0 = worklist.seen_view();
    let ghost pend0 = worklist.pending_view();
    let ghost keys0 = worklist.keys();
    proof {
        worklist.lemma_well_formed();
    }
    match row.leading_mono() {
        Some(head) => {
            heads.push(head.duplicate());
            done.push(head.duplicate());
        },
        None => {},
    }
    proof {
        assert(forall|i: int| 0 <= i < row@.len() ==> (#[trigger] row@[i]).mono@.len() == ctx.nvars);
    }
    worklist.extend_from_row(&row, &ctx.order);
    let new_row = SymbolicRow::new(product.duplicate(), row);
    rows.push(new_row);
    proof {
        let rows1 = rows@;
        assert(rows1.drop_last() =~= rows0);
        assert(rows1.subrange(0, rows0.len() as int) =~= rows0);
        assert(row_products(rows1) =~= row_products(rows0).push(product@));
        assert(rows_sound(*ctx, basis@, history@, rows1)) by {
            assert forall|i: int| 0 <= i < rows1.len() implies {
                let row = #[trigger] rows1[i];
                &&& poly_wf(*ctx, row.polynomial@)
                &&& materializable(*ctx, basis@, history@, row.product@)
                &&& is_multiple(row.polynomial@, source_row(basis@, history@, row.product.source).unwrap()@, row.product.multiplier@)
            } by {
                if i < rows0.len() {
                    assert(rows1[i] == rows0[i]);
                }
            }
        }
        assert(mono_views(heads@) =~= heads_of(rows1));
        assert(row_mono_set(rows1) == row_mono_set(rows0) + row_monos(rows1.last().polynomial).to_set());
        assert forall|k: int| 0 <= k < done@.len() implies closed_at(basis@, rules@, ctx.nvars as nat, rows1, (#[trigger] done@[k])@) by {
            if k < done0.len() {
                assert(done@[k] == done0[k]);
                lemma_closed_grow(basis@, rules@, ctx.nvars as nat, rows0, rows1.last(), done0[k]@);
            } else {
                let h = lm(rows1.last().polynomial);
                assert(heads_of(rows1).last() == h);
                assert(heads_of(rows1)[heads_of(rows1).len() - 1] == h);
            }
        }
        assert(done@.subrange(0, done0.len() as int) =~= done0);
        assert forall|x: Seq<u32>| #[trigger] heads_of(rows1).contains(x) implies mono_views(done@).contains(x) by {
            if heads_of(rows0).contains(x) {
                assert(mono_views(done0).contains(x));
                let k = choose|k: int| 0 <= k < mono_views(done0).len() && mono_views(done0)[k] == x;
                assert(mono_views(done@)[k] == x);
            } else {
                let k = choose|k: int| 0 <= k < heads_of(rows1).len() && heads_of(rows1)[k] == x;
                assert(mono_views(heads@)[k] == x);
                assert(k == heads0.len());
                assert(mono_views(done@)[done@.len() - 1] == x);
            }
        }
        assert forall|m: Seq<u32>| #[trigger] worklist.seen_view().contains(m) && !worklist.pending_view().contains(m) implies mono_views(done@).contains(m) || gap@.contains(m) by {
            assert(worklist.seen_view().to_set().contains(m));
            if seen0.contains(m) {
                assert(seen0.to_set().contains(m));
                assert(!worklist.pending_view().to_set().contains(m));
                assert(!pend0.to_set().contains(m));
                if mono_views(done0).contains(m) {
                    let k = choose|k: int| 0 <= k < mono_views(done0).len() && mono_views(done0)[k] == m;
                    assert(mono_views(done@)[k] == m);
                }
            } else {
                assert(!seen0.to_set().contains(m));
                assert(worklist.pending_view().to_set().contains(m));
            }
        }
        assert(row_mono_set(rows0).subset_of(row_mono_set(rows1)));
        assert(row_products(rows1)[rows0.len() as int] == product@);
        assert(row_products(rows1).no_duplicates()) by {
            assert forall|a: int, b: int| 0 <= a < row_products(rows1).len() && 0 <= b < row_products(rows1).len() && a != b implies row_products(rows1)[a] != row_products(rows1)[b] by {
                if a < rows0.len() && b < rows0.len() {
                    assert(row_products(rows1)[a] == row_products(rows0)[a]);
                    assert(row_products(rows1)[b] == row_products(rows0)[b]);
                } else if a < rows0.len() {
                    assert(row_products(rows1)[a] == row_products(rows0)[a]);
                } else {
                    assert(row_products(rows1)[b] == row_products(rows0)[b]);
                }
            }
        }
    }
    Ok(())
}

/// Builds the symbolic row set of one F4 batch.
///
/// The initial products are simplified and materialized; then every monomial of every row
/// that is not a row head and is top-reducible by the basis gets the row of its simplified
/// top reducer, until the set is closed. Products are materialized once each.
pub fn symbolic_preprocess(
    ctx: &RingCtx,
    l_d: &[UnevaluatedProduct],
    basis: &[Polynomial],
    history: &[BatchHistory<Polynomial>],
    simplify_index: &SimplifyIndex,
) -> (r: Result<SymbolicPreprocessOutput<Polynomial>, F4Error>)
    requires
        ctx.wf(),
        all_wf(*ctx, basis@),
        history_wf(*ctx, history@),
    ensures
        r matches Err(e) ==> materialize_error(basis@, history@, e),
        r is Err ==> exists|rows: Seq<SymbolicRow<Polynomial>>, p: (ProductSource, Seq<u32>)|
            #[trigger] reaches_unmaterializable(*ctx, l_d@, basis@, history@, simplify_index.rules_view(), rows, p),
        preprocess_fits(*ctx, l_d@, basis@, history@, simplify_index.rules_view()) ==> r is Ok,
        l_d@.len() == 0 ==> (r matches Ok(out) && out.rows@.len() == 0),
        sources_exist(basis@, history@, simplify_index.rules_view(), l_d@) ==> (r matches Err(e) ==> e is Polynomial),
        sources_exist(basis@, history@, simplify_index.rules_view(), l_d@) && multipliers_sized(l_d@, ctx.nvars as nat)
            ==> (r matches Err(e) ==> e == F4Error::Polynomial(PolynomialError::Monomial(MonomialError::ExponentOverflow))),
        r matches Ok(out) ==> {
            let rows = out.rows@;
            let rules = simplify_index.rules_view();
            let n = ctx.nvars as nat;
            &&& rows_sound(*ctx, basis@, history@, rows)
            &&& row_products(rows).no_duplicates()
            &&& mono_views(out.symbolic_heads@) == heads_of(rows)
            &&& forall|k: int| 0 <= k < l_d@.len() ==> row_products(rows).contains(simplified(rules, n, (#[trigger] l_d@[k])@))
            &&& forall|m: Seq<u32>| #[trigger] row_mono_set(rows).contains(m) ==> closed_at(basis@, rules, n, rows, m)
            &&& forall|i: int| 0 <= i < rows.len() ==> #[trigger] row_origin(l_d@, basis@, rules, n, rows, i)
        },
{
    let ghost rules = simplify_index.rules_view();
    let ghost nv = ctx.nvars as nat;
    let mut rows: Vec<SymbolicRow<Polynomial>> = Vec::new();
    let mut heads: Vec<Monomial> = Vec::new();
    let mut done: Vec<Monomial> = Vec::new();
    let mut worklist: MonomialWorklist = MonomialWorklist::new();
    proof {
        assert(row_products(rows@) =~= Seq::<(ProductSource, Seq<u32>)>::empty());
        assert(mono_views(heads@) =~= heads_of(rows@));
        assert(worklist.seen_view().to_set() =~= row_mono_set(rows@));
    }
    let mut i: usize = 0;
    while i < l_d.len()
        invariant
            i <= l_d@.len(),
            rules == simplify_index.rules_view(),
            nv == ctx.nvars,
            state_inv(*ctx, basis@, history@, rules, rows@, heads@, done@, worklist, Set::empty()),
            forall|k: int| 0 <= k < i ==> row_products(rows@).contains(simplified(rules, nv, (#[trigger] l_d@[k])@)),
            forall|j: int| 0 <= j < rows@.len() ==> #[trigger] row_origin(l_d@, basis@, rules, nv, rows@, j),
            l_d@.len() == 0 ==> rows@.len() == 0 && worklist.keys().len() == 0,
        decreases l_d@.len() - i,
    {
        let simplified_product = match simplify_index.simplify_product(ctx, l_d[i].duplicate()) {
            Ok(p) => p,
            Err(e) => return Err(e),
        };
        let ghost rows0 = rows@;
        proof {
            if sources_exist(basis@, history@, rules, l_d@) {
                assert(source_row(basis@, history@, l_d@[i as int].source) is Some);
                lemma_simplified_exists(basis@, history@, rules, nv, l_d@[i as int]@);
            }
            if multipliers_sized(l_d@, nv) {
                assert(l_d@[i as int].multiplier@.len() == nv);
                lemma_simplified_len(rules, nv, l_d@[i as int]@);
            }
        }
        let ghost rows_before = rows@;
        match add_product(ctx, basis, history, Ghost(rules), Ghost(Set::empty()), &simplified_product, &mut rows, &mut heads, &mut done, &mut worklist) {
            Ok(()) => {},
            Err(e) => {
                proof {
                    assert(next_product(l_d@, basis@, rules, nv, rows_before, simplified_product@));
                    assert(reaches_unmaterializable(*ctx, l_d@, basis@, history@, rules, rows_before, simplified_product@));
                }
                return Err(e);
            },
        }
        proof {
            lemma_products_grow(rows0, rows@);
            assert forall|j: int| 0 <= j < rows@.len() implies #[trigger] row_origin(l_d@, basis@, rules, nv, rows@, j) by {
                if j < rows0.len() {
                    lemma_origin_grow(l_d@, basis@, rules, nv, rows0, rows@, j);
                } else {
                    assert(rows@[j].product@ == simplified(rules, nv, l_d@[i as int]@));
                }
            }
        }
        i += 1;
    }
    loop
        invariant
            rules == simplify_index.rules_view(),
            nv == ctx.nvars,
            l_d@.len() == 0 ==> rows@.len() == 0 && worklist.keys().len() == 0,
            state_inv(*ctx, basis@, history@, rules, rows@, heads@, done@, worklist, Set::empty()),
            forall|k: int| 0 <= k < l_d@.len() ==> row_products(rows@).contains(simplified(rules, nv, (#[trigger] l_d@[k])@)),
            forall|j: int| 0 <= j < rows@.len() ==> #[trigger] row_origin(l_d@, basis@, rules, nv, rows@, j),
        ensures
            forall|m: Seq<u32>| #[trigger] row_mono_set(rows@).contains(m) ==> closed_at(basis@, rules, nv, rows@, m),
            l_d@.len() == 0 ==> rows@.len() == 0,
        decreases 2 * (usize::MAX - worklist.seen_view().len()) + worklist.pending_view().len(),
    {
        proof {
            worklist.lemma_well_formed();
        }
        let ghost seen0 = worklist.seen_view();
        let ghost pend0 = worklist.pending_view();
        let ghost keys0 = worklist.keys();
        let next = match worklist.pop_next() {
            Some(k) => k,
            None => {
                proof {
                    assert forall|m: Seq<u32>| #[trigger] row_mono_set(rows@).contains(m) implies closed_at(basis@, rules, nv, rows@, m) by {
                        assert(worklist.seen_view().to_set().contains(m));
                        assert(worklist.seen_view().contains(m));
                        assert(!worklist.pending_view().contains(m));
                        assert(mono_views(done@).contains(m) || Set::<Seq<u32>>::empty().contains(m));
                        let k = choose|k: int| 0 <= k < mono_views(done@).len() && mono_views(done@)[k] == m;
                        assert(done@[k]@ == m);
                    }
                }
                break;
            },
        };
        let ghost keys1 = worklist.keys();
        let m = next.into_inner();
        proof {
            lemma_pop_pending(keys0, keys1, next, m@);
        }
        if contains_mono(&done, &m) {
            proof {
                assert forall|x: Seq<u32>| #[trigger] worklist.seen_view().contains(x) && !worklist.pending_view().contains(x) implies mono_views(done@).contains(x) || Set::<Seq<u32>>::empty().contains(x) by {
                    if x != m@ {
                        lemma_pending_after_pop(pend0, worklist.pending_view(), m@, x);
                    }
                }
                worklist.lemma_well_formed();
                assert(worklist.pending_view().len() == pend0.len() - 1);
            }
            continue;
        }
        proof {
            assert forall|x: Seq<u32>| #[trigger] worklist.seen_view().contains(x) && !worklist.pending_view().contains(x) implies mono_views(done@).contains(x) || Set::<Seq<u32>>::empty().insert(m@).contains(x) by {
                if x != m@ {
                    lemma_pending_after_pop(pend0, worklist.pending_view(), m@, x);
                }
            }
        }
        let ghost rows0 = rows@;
        let ghost done0 = done@;
        let ghost seen1 = worklist.seen_view();
        let ghost pend1 = worklist.pending_view();
        proof {
            assert(pend1.len() == pend0.len() - 1);
            assert(seen1 == seen0);
        }
        let found = match find_top_reducer_product(&m, basis) {
            Ok(f) => f,
            Err(e) => return Err(e),
        };
        match found {
            Some(product) => {
                let simplified_product = match simplify_index.simplify_product(ctx, product) {
                    Ok(p) => p,
                    Err(e) => return Err(e),
                };
                proof {
                    if sources_exist(basis@, history@, rules, l_d@) {
                        lemma_first_reducer(basis@, m@, 0);
                        assert(source_row(basis@, history@, product@.0) is Some);
                        lemma_simplified_exists(basis@, history@, rules, nv, product@);
                    }
                    let idx = choose|idx: int| 0 <= idx < keys0.len() && keys0[idx] == next && keys1 == keys0.remove(idx);
                    assert(keys0[idx].mono_view()@.len() == nv);
                    assert(product@.1.len() == m@.len());
                    lemma_simplified_len(rules, nv, product@);
                }
                proof {
                    assert(row_mono_set(rows0).contains(m@)) by {
                        assert(seen0.contains(m@));
                        assert(seen0.to_set().contains(m@));
                    }
                    assert(!heads_of(rows0).contains(m@)) by {
                        if heads_of(rows0).contains(m@) {
                            assert(mono_views(done0).contains(m@));
                        }
                    }
                }
                match add_product(ctx, basis, history, Ghost(rules), Ghost(Set::empty().insert(m@)), &simplified_product, &mut rows, &mut heads, &mut done, &mut worklist) {
                    Ok(()) => {},
                    Err(e) => {
                        proof {
                            assert(next_product(l_d@, basis@, rules, nv, rows0, simplified_product@));
                            assert(reaches_unmaterializable(*ctx, l_d@, basis@, history@, rules, rows0, simplified_product@));
                        }
                        return Err(e);
                    },
                }
                proof {
                    lemma_products_grow(rows0, rows@);
                    assert(row_mono_set(rows0).contains(m@)) by {
                        assert(seen0.contains(m@));
                        assert(seen0.to_set().contains(m@));
                    }
                    assert(!heads_of(rows0).contains(m@)) by {
                        if heads_of(rows0).contains(m@) {
                            assert(mono_views(done0).contains(m@));
                        }
                    }
                    assert forall|j: int| 0 <= j < rows@.len() implies #[trigger] row_origin(l_d@, basis@, rules, nv, rows@, j) by {
                        if j < rows0.len() {
                            lemma_origin_grow(l_d@, basis@, rules, nv, rows0, rows@, j);
                        } else {
                            assert(rows@.take(j) =~= rows0);
                            assert(row_mono_set(rows@.take(j)).contains(m@));
                        }
                    }
                }
            },
            None => {},
        }
        let ghost done1 = done@;
        done.push(m);
        proof {
            worklist.lemma_well_formed();
            assert(worklist.pending_view().len() - (pend0.len() - 1) == worklist.seen_view().len() - seen0.len());
            assert forall|k: int| 0 <= k < done@.len() implies closed_at(basis@, rules, nv, rows@, (#[trigger] done@[k])@) by {
                if k < done1.len() {
                    assert(done@[k] == done1[k]);
                }
            }
            assert forall|x: Seq<u32>| #[trigger] heads_of(rows@).contains(x) implies mono_views(done@).contains(x) by {
                assert(mono_views(done1).contains(x));
                let k = choose|k: int| 0 <= k < mono_views(done1).len() && mono_views(done1)[k] == x;
                assert(mono_views(done@)[k] == x);
            }
            assert forall|x: Seq<u32>| #[trigger] worklist.seen_view().contains(x) && !worklist.pending_view().contains(x) implies mono_views(done@).contains(x) || Set::<Seq<u32>>::empty().contains(x) by {
                if x == m@ {
                    assert(mono_views(done@)[done@.len() - 1] == x);
                } else {
                    assert(mono_views(done1).contains(x) || Set::<Seq<u32>>::empty().insert(m@).contains(x));
                    if mono_views(done1).contains(x) {
                        let k = choose|k: int| 0 <= k < mono_views(done1).len() && mono_views(done1)[k] == x;
                        assert(mono_views(done@)[k] == x);
                    }
                }
            }
        }
    }
    Ok(SymbolicPreprocessOutput::new(rows, heads))
}

proof fn lemma_products_grow(rows0: Seq<SymbolicRow<Polynomial>>, rows1: Seq<SymbolicRow<Polynomial>>)
    requires
        rows0.len() <= rows1.len(),
        rows1.subrange(0, rows0.len() as int) == rows0,
    ensures
        forall|p: (ProductSource, Seq<u32>)| row_products(rows0).contains(p) ==> #[trigger] row_products(rows1).contains(p),
{
    assert forall|p: (ProductSource, Seq<u32>)| row_products(rows0).contains(p) implies #[trigger] row_products(rows1).contains(p) by {
        let k = choose|k: int| 0 <= k < row_products(rows0).len() && row_products(rows0)[k] == p;
        assert(rows1.subrange(0, rows0.len() as int)[k] == rows1[k]);
        assert(row_products(rows1)[k] == p);
    }
}

proof fn lemma_origin_grow(
    l_d: Seq<UnevaluatedProduct>,
    basis: Seq<Polynomial>,
    rules: Seq<(ProductSource, Seq<u32>, ProductSource)>,
    nvars: nat,
    rows0: Seq<SymbolicRow<Polynomial>>,
    rows1: Seq<SymbolicRow<Polynomial>>,
    j: int,
)
    requires
        0 <= j < rows0.len(),
        row_origin(l_d, basis, rules, nvars, rows0, j),
        rows0.len() <= rows1.len(),
        rows1.subrange(0, rows0.len() as int) == rows0,
    ensures
        row_origin(l_d, basis, rules, nvars, rows1, j),
{
    assert(rows1.take(j) =~= rows0.take(j)) by {
        assert forall|k: int| 0 <= k < j implies rows1.take(j)[k] == rows0.take(j)[k] by {
            assert(rows1.subrange(0, rows0.len() as int)[k] == rows1[k]);
        }
    }
    assert(rows1[j] == rows1.subrange(0, rows0.len() as int)[j]);
}

proof fn lemma_pop_pending(keys0: Seq<OrderedMono>, keys1: Seq<OrderedMono>, k: OrderedMono, m: Seq<u32>)
    requires
        exists|idx: int| 0 <= idx < keys0.len() && keys0[idx] == k && keys1 == keys0.remove(idx),
        k.mono_view()@ == m,
    ensures
        exists|idx: int| 0 <= idx < key_monos(keys0).len() && key_monos(keys0)[idx] == m && key_monos(keys1) == key_monos(keys0).remove(idx),
{
    let idx = choose|idx: int| 0 <= idx < keys0.len() && keys0[idx] == k && keys1 == keys0.remove(idx);
    assert(key_monos(keys1) =~= key_monos(keys0).remove(idx));
    assert(key_monos(keys0)[idx] == m);
}

proof fn lemma_pending_after_pop(pend0: Seq<Seq<u32>>, pend1: Seq<Seq<u32>>, m: Seq<u32>, x: Seq<u32>)
    requires
        exists|idx: int| 0 <= idx < pend0.len() && pend0[idx] == m && pend1 == pend0.remove(idx),
        !pend1.contains(x),
        x != m,
    ensures
        !pend0.contains(x),
{
    let idx = choose|idx: int| 0 <= idx < pend0.len() && pend0[idx] == m && pend1 == pend0.remove(idx);
    if pend0.contains(x) {
        let k = choose|k: int| 0 <= k < pend0.len() && pend0[k] == x;
        if k < idx {
            assert(pend1[k] == x);
        } else {
            assert(k != idx);
            assert(pend1[k - 1] == x);
        }
    }
}

} // verus!
