//! The deterministic automaton that determinization fills.
use vstd::prelude::*;

use crate::char_map::{is_permutation, sort_by_start};
use crate::range::CharRange;

verus! {

/// One state of a `Dfa`: its transitions (a range and a target) and whether it accepts.
#[derive(Debug)]
pub struct DfaState {
    pub transitions: Vec<(CharRange, usize)>,
    pub accepting: bool,
}

/// A deterministic finite automaton, grown by appending states and transitions.
#[derive(Debug)]
pub struct Dfa {
    states: Vec<DfaState>,
}

impl Dfa {
    /// The number of states.
    pub closed spec fn num(&self) -> nat {
        self.states@.len()
    }

    /// State `s` accepts.
    pub closed spec fn accepts(&self, s: int) -> bool {
        self.states@[s].accepting
    }

    /// The transitions out of state `s`.
    pub closed spec fn trans(&self, s: int) -> Seq<(CharRange, usize)> {
        self.states@[s].transitions@
    }

    /// Creates an automaton without states.
    pub fn new() -> (r: Dfa)
        ensures
            r.num() == 0,
    {
        Dfa { states: Vec::new() }
    }

    /// Adds a state without transitions, and returns its index.
    pub fn add_state(&mut self, accepting: bool) -> (r: usize)
        ensures
            r == old(self).num(),
            final(self).num() == old(self).num() + 1,
            final(self).accepts(r as int) == accepting,
            final(self).trans(r as int).len() == 0,
            forall|s: int|
                0 <= s < old(self).num() ==> final(self).accepts(s) == old(self).accepts(s)
                    && final(self).trans(s) == old(self).trans(s),
    {
        let r = self.states.len();
        self.states.push(DfaState { transitions: Vec::new(), accepting });
        r
    }

    /// Adds a transition from `from` to `to` over `range`.
    pub fn add_transition(&mut self, from: usize, to: usize, range: CharRange)
        requires
            from < old(self).num(),
        ensures
            final(self).num() == old(self).num(),
            final(self).trans(from as int) == old(self).trans(from as int).push((range, to)),
            forall|s: int| 0 <= s < old(self).num() ==> final(self).accepts(s) == old(self).accepts(s),
            forall|s: int|
                0 <= s < old(self).num() && s != from ==> final(self).trans(s) == old(self).trans(s),
    {
        let mut st = self.states.remove(from);
        st.transitions.push((range, to));
        self.states.insert(from, st);
        proof {
            assert forall|s: int| 0 <= s < old(self).num() && s != from implies self.states@[s]
                == old(self).states@[s] by {}
        }
    }

    /// The number of states.
    pub fn num_states(&self) -> (r: usize)
        ensures
            r == self.num(),
    {
        self.states.len()
    }

    /// Whether state `s` accepts.
    pub fn is_accepting(&self, s: usize) -> (r: bool)
        requires
            s < self.num(),
        ensures
            r == self.accepts(s as int),
    {
        self.states[s].accepting
    }

    /// The transitions out of state `s`.
    pub fn transitions_from(&self, s: usize) -> (r: &Vec<(CharRange, usize)>)
        requires
            s < self.num(),
        ensures
            r@ == self.trans(s as int),
    {
        &self.states[s].transitions
    }

    /// Orders the transitions of every state by the start of their ranges.
    pub fn sort_transitions(&mut self)
        ensures
            final(self).num() == old(self).num(),
            forall|s: int|
                0 <= s < old(self).num() ==> final(self).accepts(s) == old(self).accepts(s)
                    && is_permutation(old(self).trans(s), final(self).trans(s)),
            forall|s: int, i: int, j: int|
                0 <= s < final(self).num() && 0 <= i < j < final(self).trans(s).len()
                    ==> #[trigger] final(self).trans(s)[i].0.start <= #[trigger] final(self).trans(s)[j].0.start,
    {
        let n = self.states.len();
        let mut i: usize = 0;
        while i < n
            invariant
                n == self.num(),
                n == old(self).num(),
                i <= n,
                forall|s: int|
                    0 <= s < n ==> self.accepts(s) == old(self).accepts(s),
                forall|s: int| i <= s < n ==> self.trans(s) == old(self).trans(s),
                forall|s: int| 0 <= s < i ==> is_permutation(old(self).trans(s), self.trans(s)),
                forall|s: int, a: int, b: int|
                    0 <= s < i && 0 <= a < b < self.states@[s].transitions@.len()
                        ==> #[trigger] self.states@[s].transitions@[a].0.start
                        <= #[trigger] self.states@[s].transitions@[b].0.start,
            decreases n - i,
        {
            let ghost before = self.states@;
            let mut st = self.states.remove(i);
            sort_by_start(&mut st.transitions);
            self.states.insert(i, st);
            proof {
                assert forall|s: int| 0 <= s < n && s != i implies self.states@[s] == before[s] by {}
                assert forall|s: int, a: int, b: int|
                    0 <= s < i + 1 && 0 <= a < b < self.states@[s].transitions@.len()
                        implies #[trigger] self.states@[s].transitions@[a].0.start
                        <= #[trigger] self.states@[s].transitions@[b].0.start by {
                    if s < i {
                        assert(self.states@[s] == before[s]);
                        assert(before[s].transitions@[a].0.start <= before[s].transitions@[b].0.start);
                    }
                }
            }
            i = i + 1;
        }
    }
}

} // verus!
