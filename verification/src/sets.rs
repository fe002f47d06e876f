use vstd::prelude::*;
use crate::istate::{FStateView, FlippedIState, IState, StateView};

verus! {

/// Inserting into an ordered set: the sequence is unchanged when the value
/// is already present, and grows by it at the back otherwise.
pub open spec fn seq_insert<A>(s: Seq<A>, x: A) -> Seq<A> {
    if s.contains(x) {
        s
    } else {
        s.push(x)
    }
}

/// Inserting preserves freedom from duplicates.
pub proof fn lemma_seq_insert_no_duplicates<A>(s: Seq<A>, x: A)
    requires
        s.no_duplicates(),
    ensures
        seq_insert(s, x).no_duplicates(),
{
    if !s.contains(x) {
        assert forall|i: int, j: int|
            0 <= i < seq_insert(s, x).len() && 0 <= j < seq_insert(s, x).len() && i != j
            implies seq_insert(s, x)[i] != seq_insert(s, x)[j] by {
            if i < s.len() && j < s.len() {
            } else if i < s.len() {
                assert(s.contains(s[i]));
            } else if j < s.len() {
                assert(s.contains(s[j]));
            }
        }
    }
}

/// An ordered set of recognizer items: membership is by structural equality,
/// iteration follows first insertion, duplicates are never stored.
#[derive(Clone, Debug, PartialEq, Eq)]
pub struct StateSet {
    items: Vec<IState>,
}

impl DeepView for StateSet {
    type V = Seq<StateView>;

    closed spec fn deep_view(&self) -> Seq<StateView> {
        self.items.deep_view()
    }
}

impl StateSet {
    /// No two stored items are structurally equal.
    pub open spec fn wf(&self) -> bool {
        self.deep_view().no_duplicates()
    }

    /// The empty set.
    pub fn new() -> (r: StateSet)
        ensures
            r.deep_view() == Seq::<StateView>::empty(),
            r.wf(),
    {
        let r = StateSet { items: Vec::new() };
        proof {
            assert(r.deep_view() =~= Seq::<StateView>::empty());
        }
        r
    }

    /// How many items the set holds.
    pub fn len(&self) -> (r: usize)
        ensures
            r == self.deep_view().len(),
    {
        proof {
            assert(self.deep_view().len() == self.items@.len());
        }
        self.items.len()
    }

    /// The item at an insertion-order position.
    pub fn get(&self, i: usize) -> (r: &IState)
        requires
            i < self.deep_view().len(),
        ensures
            r.deep_view() == self.deep_view()[i as int],
    {
        proof {
            assert(self.deep_view().len() == self.items@.len());
        }
        &self.items[i]
    }

    /// Whether a structurally equal item is already present.
    pub fn contains_state(&self, x: &IState) -> (r: bool)
        ensures
            r == self.deep_view().contains(x.deep_view()),
    {
        let mut i: usize = 0;
        proof {
            assert(self.deep_view().len() == self.items@.len());
        }
        while i < self.items.len()
            invariant
                i <= self.items.len(),
                self.deep_view().len() == self.items@.len(),
                forall|j: int| 0 <= j < i ==> self.deep_view()[j] != x.deep_view(),
            decreases self.items.len() - i,
        {
            if self.items[i].equals(x) {
                assert(self.deep_view()[i as int] == x.deep_view());
                return true;
            }
            i += 1;
        }
        false
    }

    /// Inserts at the back unless a structurally equal item is present.
    pub fn insert(&mut self, x: IState)
        requires
            old(self).wf(),
        ensures
            final(self).deep_view() == seq_insert(old(self).deep_view(), x.deep_view()),
            final(self).wf(),
    {
        proof {
            lemma_seq_insert_no_duplicates(self.deep_view(), x.deep_view());
        }
        if !self.contains_state(&x) {
            self.items.push(x);
        }
    }

    /// The items in insertion order, as copies.
    pub fn as_vec(&self) -> (r: Vec<IState>)
        ensures
            r.deep_view() == self.deep_view(),
    {
        let mut out: Vec<IState> = Vec::new();
        let mut i: usize = 0;
        proof {
            assert(self.deep_view().len() == self.items@.len());
        }
        while i < self.items.len()
            invariant
                i <= self.items.len(),
                out.len() == i,
                self.deep_view().len() == self.items@.len(),
                out.deep_view().len() == out@.len(),
                forall|j: int| 0 <= j < i ==> out.deep_view()[j] == self.deep_view()[j],
            decreases self.items.len() - i,
        {
            out.push(self.items[i].duplicate());
            i += 1;
        }
        proof {
            assert(out.deep_view() =~= self.deep_view());
        }
        out
    }

    /// A copy whose mathematical value equals this one's.
    pub fn duplicate(&self) -> (r: StateSet)
        ensures
            r.deep_view() == self.deep_view(),
    {
        StateSet { items: self.as_vec() }
    }

    /// Whether the two sets hold the same items in the same order.
    pub fn same_as(&self, other: &StateSet) -> (r: bool)
        ensures
            r == (self.deep_view() == other.deep_view()),
    {
        proof {
            assert(self.deep_view().len() == self.items@.len());
            assert(other.deep_view().len() == other.items@.len());
        }
        if self.items.len() != other.items.len() {
            return false;
        }
        let mut i: usize = 0;
        while i < self.items.len()
            invariant
                i <= self.items.len(),
                self.items.len() == other.items.len(),
                self.deep_view().len() == self.items@.len(),
                other.deep_view().len() == other.items@.len(),
                forall|j: int| 0 <= j < i ==> self.deep_view()[j] == other.deep_view()[j],
            decreases self.items.len() - i,
        {
            if !self.items[i].equals(&other.items[i]) {
                assert(self.deep_view()[i as int] != other.deep_view()[i as int]);
                return false;
            }
            i += 1;
        }
        proof {
            assert(self.deep_view() =~= other.deep_view());
        }
        true
    }
}

/// An ordered set of completed, end-indexed items, with the same semantics
/// as [`StateSet`].
#[derive(Clone, Debug, PartialEq, Eq)]
pub struct FlippedStateSet {
    items: Vec<FlippedIState>,
}

impl DeepView for FlippedStateSet {
    type V = Seq<FStateView>;

    closed spec fn deep_view(&self) -> Seq<FStateView> {
        self.items.deep_view()
    }
}

impl FlippedStateSet {
    /// No two stored items are structurally equal.
    pub open spec fn wf(&self) -> bool {
        self.deep_view().no_duplicates()
    }

    /// The empty set.
    pub fn new() -> (r: FlippedStateSet)
        ensures
            r.deep_view() == Seq::<FStateView>::empty(),
            r.wf(),
    {
        let r = FlippedStateSet { items: Vec::new() };
        proof {
            assert(r.deep_view() =~= Seq::<FStateView>::empty());
        }
        r
    }

    /// How many items the set holds.
    pub fn len(&self) -> (r: usize)
        ensures
            r == self.deep_view().len(),
    {
        proof {
            assert(self.deep_view().len() == self.items@.len());
        }
        self.items.len()
    }

    /// The item at an insertion-order position.
    pub fn get(&self, i: usize) -> (r: &FlippedIState)
        requires
            i < self.deep_view().len(),
        ensures
            r.deep_view() == self.deep_view()[i as int],
    {
        proof {
            assert(self.deep_view().len() == self.items@.len());
        }
        &self.items[i]
    }

    /// Whether a structurally equal item is already present.
    pub fn contains_state(&self, x: &FlippedIState) -> (r: bool)
        ensures
            r == self.deep_view().contains(x.deep_view()),
    {
        let mut i: usize = 0;
        proof {
            assert(self.deep_view().len() == self.items@.len());
        }
        while i < self.items.len()
            invariant
                i <= self.items.len(),
                self.deep_view().len() == self.items@.len(),
                forall|j: int| 0 <= j < i ==> self.deep_view()[j] != x.deep_view(),
            decreases self.items.len() - i,
        {
            if self.items[i].equals(x) {
                assert(self.deep_view()[i as int] == x.deep_view());
                return true;
            }
            i += 1;
        }
        false
    }

    /// Inserts at the back unless a structurally equal item is present.
    pub fn insert(&mut self, x: FlippedIState)
        requires
            old(self).wf(),
        ensures
            final(self).deep_view() == seq_insert(old(self).deep_view(), x.deep_view()),
            final(self).wf(),
    {
        proof {
            lemma_seq_insert_no_duplicates(self.deep_view(), x.deep_view());
        }
        if !self.contains_state(&x) {
            self.items.push(x);
        }
    }
}

} // verus!
