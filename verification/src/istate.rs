use vstd::prelude::*;
use crate::prod::{EarleyProd, ProdView};

verus! {

/// Mathematical value of an [`IState`].
pub struct StateView {
    pub origin: int,
    pub prod: ProdView,
}

/// Mathematical value of a [`FlippedIState`].
pub struct FStateView {
    pub end: int,
    pub prod: ProdView,
}

/// An Earley item as the recognizer stores it: a dotted production together
/// with the chart position at which its derivation began.
#[derive(Clone, Debug, PartialEq, Eq, Hash)]
pub struct IState {
    pub origin: usize,
    pub prod: EarleyProd,
}

/// A completed item as the tree builder reads it: a dotted production
/// together with the chart position at which its derivation ended.
#[derive(Clone, Debug, PartialEq, Eq, Hash)]
pub struct FlippedIState {
    pub end: usize,
    pub prod: EarleyProd,
}

impl DeepView for IState {
    type V = StateView;

    open spec fn deep_view(&self) -> StateView {
        StateView { origin: self.origin as int, prod: self.prod.deep_view() }
    }
}

impl DeepView for FlippedIState {
    type V = FStateView;

    open spec fn deep_view(&self) -> FStateView {
        FStateView { end: self.end as int, prod: self.prod.deep_view() }
    }
}

impl IState {
    /// Packs a dotted production and its origin into an item.
    pub fn new(prod: EarleyProd, origin: usize) -> (r: IState)
        ensures
            r.deep_view() == (StateView { origin: origin as int, prod: prod.deep_view() }),
    {
        IState { prod, origin }
    }

    /// Structural equality of origin and production.
    pub fn equals(&self, other: &IState) -> (r: bool)
        ensures
            r == (self.deep_view() == other.deep_view()),
    {
        self.origin == other.origin && self.prod.equals(&other.prod)
    }

    /// A copy whose mathematical value equals this one's.
    pub fn duplicate(&self) -> (r: IState)
        ensures
            r.deep_view() == self.deep_view(),
    {
        IState { origin: self.origin, prod: self.prod.duplicate() }
    }
}

impl FlippedIState {
    /// Packs a dotted production and its end position into an item.
    pub fn new(prod: EarleyProd, end: usize) -> (r: FlippedIState)
        ensures
            r.deep_view() == (FStateView { end: end as int, prod: prod.deep_view() }),
    {
        FlippedIState { prod, end }
    }

    /// Structural equality of end position and production.
    pub fn equals(&self, other: &FlippedIState) -> (r: bool)
        ensures
            r == (self.deep_view() == other.deep_view()),
    {
        self.end == other.end && self.prod.equals(&other.prod)
    }

    /// A copy whose mathematical value equals this one's.
    pub fn duplicate(&self) -> (r: FlippedIState)
        ensures
            r.deep_view() == self.deep_view(),
    {
        FlippedIState { end: self.end, prod: self.prod.duplicate() }
    }
}

} // verus!
