//! Monomial and product keys ordered by a monomial order.

use vstd::prelude::*;

use core::cmp::Ordering;
use vstd::std_specs::cmp::{PartialEqSpecImpl, PartialOrdSpecImpl};

use crate::f4::symbolic::types::ProductSource;
use crate::monomial::Monomial;
use crate::order::{compare, lemma_compare_equal, spec_compare, MonomialOrder, OrderRel};

verus! {

/// The standard ordering that corresponds to a comparison result.
pub open spec fn rel_ordering(c: OrderRel) -> Ordering {
    match c {
        OrderRel::Less => Ordering::Less,
        OrderRel::Equal => Ordering::Equal,
        OrderRel::Greater => Ordering::Greater,
    }
}

fn to_ordering(c: OrderRel) -> (r: Ordering)
    ensures
        r == rel_ordering(c),
{
    match c {
        OrderRel::Less => Ordering::Less,
        OrderRel::Equal => Ordering::Equal,
        OrderRel::Greater => Ordering::Greater,
    }
}

/// Order of product sources: basis sources first, by index; then history rows, by batch
/// and then by row.
pub open spec fn source_rel(a: ProductSource, b: ProductSource) -> OrderRel {
    match (a, b) {
        (ProductSource::Basis(i), ProductSource::Basis(j)) => if i < j {
            OrderRel::Less
        } else if i > j {
            OrderRel::Greater
        } else {
            OrderRel::Equal
        },
        (ProductSource::Basis(_), ProductSource::HistoryReducedRow { .. }) => OrderRel::Less,
        (ProductSource::HistoryReducedRow { .. }, ProductSource::Basis(_)) => OrderRel::Greater,
        (
            ProductSource::HistoryReducedRow { batch_index: b1, row_index: r1 },
            ProductSource::HistoryReducedRow { batch_index: b2, row_index: r2 },
        ) => if b1 < b2 || (b1 == b2 && r1 < r2) {
            OrderRel::Less
        } else if b1 == b2 && r1 == r2 {
            OrderRel::Equal
        } else {
            OrderRel::Greater
        },
    }
}

/// Compares two product sources.
pub fn compare_sources(a: ProductSource, b: ProductSource) -> (c: OrderRel)
    ensures
        c == source_rel(a, b),
        c == OrderRel::Equal <==> a == b,
{
    match (a, b) {
        (ProductSource::Basis(i), ProductSource::Basis(j)) => if i < j {
            OrderRel::Less
        } else if i > j {
            OrderRel::Greater
        } else {
            OrderRel::Equal
        },
        (ProductSource::Basis(_), ProductSource::HistoryReducedRow { .. }) => OrderRel::Less,
        (ProductSource::HistoryReducedRow { .. }, ProductSource::Basis(_)) => OrderRel::Greater,
        (
            ProductSource::HistoryReducedRow { batch_index: b1, row_index: r1 },
            ProductSource::HistoryReducedRow { batch_index: b2, row_index: r2 },
        ) => if b1 < b2 || (b1 == b2 && r1 < r2) {
            OrderRel::Less
        } else if b1 == b2 && r1 == r2 {
            OrderRel::Equal
        } else {
            OrderRel::Greater
        },
    }
}

/// A monomial together with the order it is compared by.
#[derive(Debug, Clone)]
pub struct OrderedMono<'a> {
    mono: Monomial,
    order: &'a MonomialOrder,
}

impl<'a> OrderedMono<'a> {
    /// The wrapped monomial.
    pub closed spec fn mono_view(&self) -> Monomial {
        self.mono
    }

    /// The order used for comparisons.
    pub closed spec fn order_view(&self) -> MonomialOrder {
        *self.order
    }

    /// Creates an ordered monomial key.
    pub fn new(mono: Monomial, order: &'a MonomialOrder) -> (r: OrderedMono<'a>)
        ensures
            r.mono_view() == mono,
            r.order_view() == *order,
    {
        OrderedMono { mono, order }
    }

    /// Borrows the wrapped monomial.
    pub fn as_ref(&self) -> (r: &Monomial)
        ensures
            *r == self.mono_view(),
    {
        &self.mono
    }

    /// The order used for comparisons.
    pub fn order(&self) -> (r: MonomialOrder)
        ensures
            r == self.order_view(),
    {
        *self.order
    }

    /// Consumes the key and returns the wrapped monomial.
    pub fn into_inner(self) -> (r: Monomial)
        ensures
            r == self.mono_view(),
    {
        self.mono
    }

    /// Comparison of the two keys under this key's order, for equal variable counts.
    pub open spec fn rel(&self, other: &OrderedMono) -> Option<OrderRel> {
        if self.mono_view()@.len() == other.mono_view()@.len() {
            Some(spec_compare(self.order_view(), self.mono_view()@, other.mono_view()@))
        } else {
            None
        }
    }

    /// Compares two keys under this key's order; `None` when the variable counts differ.
    pub fn compare_to(&self, other: &OrderedMono) -> (r: Option<OrderRel>)
        ensures
            r == self.rel(other),
    {
        if self.mono.n_vars() == other.mono.n_vars() {
            Some(compare(*self.order, &self.mono, &other.mono))
        } else {
            None
        }
    }
}

impl<'a, 'b> PartialEq<OrderedMono<'b>> for OrderedMono<'a> {
    fn eq(&self, other: &OrderedMono<'b>) -> (r: bool) {
        proof {
            if self.mono_view()@.len() == other.mono_view()@.len() {
                lemma_compare_equal(self.order_view(), self.mono_view()@, other.mono_view()@);
            }
        }
        self.mono.same(&other.mono)
    }
}

impl<'a, 'b> PartialEqSpecImpl<OrderedMono<'b>> for OrderedMono<'a> {
    open spec fn obeys_eq_spec() -> bool {
        true
    }

    open spec fn eq_spec(&self, other: &OrderedMono<'b>) -> bool {
        self.rel(other) == Some(OrderRel::Equal)
    }
}

impl<'a, 'b> PartialOrd<OrderedMono<'b>> for OrderedMono<'a> {
    fn partial_cmp(&self, other: &OrderedMono<'b>) -> (r: Option<Ordering>) {
        match self.compare_to(other) {
            Some(c) => Some(to_ordering(c)),
            None => None,
        }
    }
}

impl<'a, 'b> PartialOrdSpecImpl<OrderedMono<'b>> for OrderedMono<'a> {
    open spec fn obeys_partial_cmp_spec() -> bool {
        true
    }

    open spec fn partial_cmp_spec(&self, other: &OrderedMono<'b>) -> Option<Ordering> {
        match self.rel(other) {
            Some(c) => Some(rel_ordering(c)),
            None => None,
        }
    }
}

/// A product key ordered by source first and multiplier second.
#[derive(Debug, Clone)]
pub struct OrderedProduct<'a> {
    source: ProductSource,
    multiplier: OrderedMono<'a>,
}

impl<'a> OrderedProduct<'a> {
    /// The product source.
    pub closed spec fn source_view(&self) -> ProductSource {
        self.source
    }

    /// The ordered multiplier key.
    pub closed spec fn multiplier_view(&self) -> OrderedMono<'a> {
        self.multiplier
    }

    /// Creates an ordered product key.
    pub fn new(source: ProductSource, multiplier: Monomial, order: &'a MonomialOrder) -> (r: OrderedProduct<'a>)
        ensures
            r.source_view() == source,
            r.multiplier_view().mono_view() == multiplier,
            r.multiplier_view().order_view() == *order,
    {
        OrderedProduct { source, multiplier: OrderedMono::new(multiplier, order) }
    }

    /// The product source.
    pub fn source(&self) -> (r: ProductSource)
        ensures
            r == self.source_view(),
    {
        self.source
    }

    /// The ordered multiplier key.
    pub fn multiplier(&self) -> (r: &OrderedMono<'a>)
        ensures
            *r == self.multiplier_view(),
    {
        &self.multiplier
    }

    /// Comparison by source, then by multiplier.
    pub open spec fn rel(&self, other: &OrderedProduct) -> Option<OrderRel> {
        let s = source_rel(self.source_view(), other.source_view());
        if s == OrderRel::Equal {
            self.multiplier_view().rel(&other.multiplier_view())
        } else {
            Some(s)
        }
    }

    /// Compares two product keys; `None` when the sources agree and the multipliers have
    /// different variable counts.
    pub fn compare_to(&self, other: &OrderedProduct) -> (r: Option<OrderRel>)
        ensures
            r == self.rel(other),
    {
        let s = compare_sources(self.source, other.source);
        match s {
            OrderRel::Equal => self.multiplier.compare_to(&other.multiplier),
            _ => Some(s),
        }
    }
}

impl<'a, 'b> PartialEq<OrderedProduct<'b>> for OrderedProduct<'a> {
    fn eq(&self, other: &OrderedProduct<'b>) -> (r: bool) {
        match self.compare_to(other) {
            Some(OrderRel::Equal) => true,
            _ => false,
        }
    }
}

impl<'a, 'b> PartialEqSpecImpl<OrderedProduct<'b>> for OrderedProduct<'a> {
    open spec fn obeys_eq_spec() -> bool {
        true
    }

    open spec fn eq_spec(&self, other: &OrderedProduct<'b>) -> bool {
        self.rel(other) == Some(OrderRel::Equal)
    }
}

impl<'a, 'b> PartialOrd<OrderedProduct<'b>> for OrderedProduct<'a> {
    fn partial_cmp(&self, other: &OrderedProduct<'b>) -> (r: Option<Ordering>) {
        match self.compare_to(other) {
            Some(c) => Some(to_ordering(c)),
            None => None,
        }
    }
}

impl<'a, 'b> PartialOrdSpecImpl<OrderedProduct<'b>> for OrderedProduct<'a> {
    open spec fn obeys_partial_cmp_spec() -> bool {
        true
    }

    open spec fn partial_cmp_spec(&self, other: &OrderedProduct<'b>) -> Option<Ordering> {
        match self.rel(other) {
            Some(c) => Some(rel_ordering(c)),
            None => None,
        }
    }
}

} // verus!
