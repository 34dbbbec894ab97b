//! Non-deterministic automata over code-point ranges, and their determinization.
use vstd::prelude::*;
use vstd::set_lib::{lemma_int_range, lemma_len_subset, set_int_range};

use crate::bits::{contains, copy_of, empty_set, insert, members, same_members, to_vec, StateSet};
use crate::char_map::{covered, entry_values, nonempty_ranges, well_formed, CharMultiMap};
use crate::dfa::Dfa;
use crate::range::CharRange;

verus! {

/// A zero-width condition on a transition (such as "at the start of the input").
///
/// The automaton only stores predicates and asks them two things while it removes them.
pub trait Predicate: Sized + Copy {
    /// Of the transitions `ins` into the predicate's source and `outs` out of its target, keeps
    /// those that stay valid under the condition.
    fn filter_transitions(
        &self,
        ins: &Vec<(CharRange, StateSet)>,
        outs: &Vec<(CharRange, StateSet)>,
    ) -> (Vec<(CharRange, StateSet)>, Vec<(CharRange, StateSet)>);

    /// The condition that holds where both `self` and `other` hold, if it can hold at all.
    fn intersect(&self, other: &Self) -> Option<Self>;
}

/// One state of an `Nfa`: its consuming transitions (a range and a target), its
/// eps-transitions (a target), its predicate transitions (a condition and a target) and whether
/// it accepts.
#[derive(Debug)]
pub struct NfaState<P> {
    pub ranges: Vec<(CharRange, usize)>,
    pub eps: Vec<usize>,
    pub predicates: Vec<(P, usize)>,
    pub accepting: bool,
}

impl<P> NfaState<P> {
    pub fn new(accepting: bool) -> (r: NfaState<P>)
        ensures
            r.ranges@.len() == 0,
            r.eps@.len() == 0,
            r.predicates@.len() == 0,
            r.accepting == accepting,
    {
        NfaState { ranges: Vec::new(), eps: Vec::new(), predicates: Vec::new(), accepting }
    }
}

/// The first `k` of `edges` that lead to `t`, each turned to lead to `src` instead.
pub open spec fn row_into(edges: Seq<(CharRange, usize)>, t: int, src: int, k: int) -> Seq<(CharRange, usize)>
    decreases k,
{
    if k <= 0 || k > edges.len() {
        Seq::empty()
    } else {
        let rest = row_into(edges, t, src, k - 1);
        if edges[k - 1].1 as int == t {
            rest.push((edges[k - 1].0, src as usize))
        } else {
            rest
        }
    }
}

/// The first `k` of `targets` that are `t`, each replaced by `src`.
pub open spec fn eps_row(targets: Seq<usize>, t: int, src: int, k: int) -> Seq<usize>
    decreases k,
{
    if k <= 0 || k > targets.len() {
        Seq::empty()
    } else {
        let rest = eps_row(targets, t, src, k - 1);
        if targets[k - 1] as int == t {
            rest.push(src as usize)
        } else {
            rest
        }
    }
}

/// `b` has the states of `a` and perhaps more; each state of `b` has the transitions of the
/// same state of `a` (none, for a state `a` lacks), plus perhaps one transition that leads to
/// a state of `b`.
pub open spec fn grows_by_one<P>(a: Nfa<P>, b: Nfa<P>) -> bool {
    &&& b.num() >= a.num()
    &&& forall|s: int| 0 <= s < b.num() ==> {
        &&& b.eps_of(s) == (if s < a.num() { a.eps_of(s) } else { Seq::empty() })
            || (s < a.num() && b.eps_of(s).drop_last() == a.eps_of(s) && b.eps_of(s).len() > 0
                && b.eps_of(s).last() < b.num())
        &&& b.ranges_of(s) == (if s < a.num() { a.ranges_of(s) } else { Seq::empty() })
            || (s < a.num() && b.ranges_of(s).drop_last() == a.ranges_of(s) && b.ranges_of(s).len() > 0
                && b.ranges_of(s).last().1 < b.num() && b.ranges_of(s).last().0.start
                <= b.ranges_of(s).last().0.end)
        &&& b.preds_of(s) == (if s < a.num() { a.preds_of(s) } else { Seq::empty() })
            || (s < a.num() && b.preds_of(s).drop_last() == a.preds_of(s) && b.preds_of(s).len() > 0
                && b.preds_of(s).last().1 < b.num())
    }
}

proof fn lemma_grow_wf<P>(a: Nfa<P>, b: Nfa<P>)
    requires
        grows_by_one(a, b),
    ensures
        a.wf() ==> b.wf(),
        a.preds_in_bounds() ==> b.preds_in_bounds(),
{
    if a.wf() {
        assert forall|s: int, k: int|
            0 <= s < b.num() && 0 <= k < b.eps_of(s).len() implies #[trigger] b.eps_of(s)[k] < b.num() by {
            if s < a.num() && k < a.eps_of(s).len() {
                assert(b.eps_of(s)[k] == a.eps_of(s)[k]);
            }
        }
        assert forall|s: int, k: int|
            0 <= s < b.num() && 0 <= k < b.ranges_of(s).len() implies #[trigger] b.ranges_of(s)[k].1 < b.num() by {
            if s < a.num() && k < a.ranges_of(s).len() {
                assert(b.ranges_of(s)[k] == a.ranges_of(s)[k]);
            }
        }
        assert forall|s: int| 0 <= s < b.num() implies nonempty_ranges(#[trigger] b.ranges_of(s)) by {
            if s < a.num() {
                assert(nonempty_ranges(a.ranges_of(s)));
                assert forall|k: int| 0 <= k < b.ranges_of(s).len() implies #[trigger] b.ranges_of(s)[k].0.start
                    <= b.ranges_of(s)[k].0.end by {
                    if k < a.ranges_of(s).len() {
                        assert(b.ranges_of(s)[k] == a.ranges_of(s)[k]);
                    }
                }
            }
        }
    }
    if a.preds_in_bounds() {
        assert forall|s: int, k: int|
            0 <= s < b.num() && 0 <= k < b.preds_of(s).len() implies #[trigger] b.preds_of(s)[k].1 < b.num() by {
            if s < a.num() && k < a.preds_of(s).len() {
                assert(b.preds_of(s)[k] == a.preds_of(s)[k]);
            }
        }
    }
}

/// The first `k` of the predicate transitions `edges` that lead to `t`, each turned to lead to
/// `src` instead.
pub open spec fn pred_row<P>(edges: Seq<(P, usize)>, t: int, src: int, k: int) -> Seq<(P, usize)>
    decreases k,
{
    if k <= 0 || k > edges.len() {
        Seq::empty()
    } else {
        let rest = pred_row(edges, t, src, k - 1);
        if edges[k - 1].1 as int == t {
            rest.push((edges[k - 1].0, src as usize))
        } else {
            rest
        }
    }
}

/// `b` starts with the entries of `a`.
pub open spec fn extends<A>(a: Seq<A>, b: Seq<A>) -> bool {
    a.len() <= b.len() && forall|k: int| 0 <= k < a.len() ==> #[trigger] b[k] == a[k]
}

/// `e` carries the range of an entry of `kept` and leads to a member of that entry's set.
pub open spec fn kept_has(kept: Seq<(CharRange, StateSet)>, e: (CharRange, usize)) -> bool {
    exists|a: int| 0 <= a < kept.len() && (#[trigger] kept[a]).0 == e.0 && members(kept[a].1).contains(e.1 as int)
}

/// A non-deterministic finite automaton. State 0 is the start state; states refer to each
/// other by index.
#[derive(Debug)]
pub struct Nfa<P> {
    states: Vec<NfaState<P>>,
}

impl<P> Nfa<P> {
    /// The number of states.
    pub closed spec fn num(&self) -> nat {
        self.states@.len()
    }

    /// The eps-transitions out of state `s`.
    pub closed spec fn eps_of(&self, s: int) -> Seq<usize> {
        self.states@[s].eps@
    }

    /// The consuming transitions out of state `s`.
    pub closed spec fn ranges_of(&self, s: int) -> Seq<(CharRange, usize)> {
        self.states@[s].ranges@
    }

    /// State `s` accepts.
    pub closed spec fn accepts(&self, s: int) -> bool {
        self.states@[s].accepting
    }

    /// The predicate transitions out of state `s`.
    pub closed spec fn preds_of(&self, s: int) -> Seq<(P, usize)> {
        self.states@[s].predicates@
    }

    /// Every predicate transition leads to a state of the automaton.
    pub open spec fn preds_in_bounds(&self) -> bool {
        forall|s: int, k: int|
            0 <= s < self.num() && 0 <= k < self.preds_of(s).len() ==> #[trigger] self.preds_of(s)[k].1
                < self.num()
    }

    /// No state has a predicate transition.
    pub open spec fn no_predicates(&self) -> bool {
        forall|s: int| 0 <= s < self.num() ==> (#[trigger] self.preds_of(s)).len() == 0
    }

    /// Some state has a predicate transition.
    pub open spec fn has_predicates(&self) -> bool {
        exists|s: int| 0 <= s < self.num() && (#[trigger] self.preds_of(s)).len() > 0
    }

    /// The number of predicate transitions out of the states before `n`.
    pub open spec fn pred_total(&self, n: int) -> int
        decreases n,
    {
        if n <= 0 {
            0
        } else {
            self.pred_total(n - 1) + self.preds_of(n - 1).len()
        }
    }

    proof fn lemma_pred_total(&self, n: int, s: int)
        requires
            0 <= s < n,
        ensures
            self.pred_total(n) >= self.preds_of(s).len(),
        decreases n,
    {
        self.lemma_pred_total_nonneg(n - 1);
        if s < n - 1 {
            self.lemma_pred_total(n - 1, s);
        }
    }

    proof fn lemma_pred_total_nonneg(&self, n: int)
        ensures
            self.pred_total(n) >= 0,
        decreases n,
    {
        if n > 0 {
            self.lemma_pred_total_nonneg(n - 1);
        }
    }

    /// Every transition leads to a state of the automaton.
    pub open spec fn edges_in_bounds(&self) -> bool {
        &&& forall|s: int, k: int|
            0 <= s < self.num() && 0 <= k < self.eps_of(s).len() ==> #[trigger] self.eps_of(s)[k]
                < self.num()
        &&& forall|s: int, k: int|
            0 <= s < self.num() && 0 <= k < self.ranges_of(s).len() ==> #[trigger] self.ranges_of(
                s,
            )[k].1 < self.num()
    }

    /// Every transition leads to a state of the automaton, and every consuming transition has a
    /// non-empty range.
    pub open spec fn wf(&self) -> bool {
        &&& self.edges_in_bounds()
        &&& forall|s: int| 0 <= s < self.num() ==> nonempty_ranges(#[trigger] self.ranges_of(s))
    }

    /// The targets of the consuming transitions out of members of `x` whose range includes `rg`.
    pub open spec fn step(&self, x: Set<int>, rg: CharRange) -> Set<int> {
        Set::new(
            |v: int|
                exists|s: int, k: int|
                    x.contains(s) && 0 <= s < self.num() && 0 <= k < self.ranges_of(s).len() && (
                    #[trigger] self.ranges_of(s)[k]).1 == v && self.ranges_of(s)[k].0.includes(rg),
        )
    }

    /// The targets of the consuming transitions out of members of `x` that accept the code
    /// point `c`.
    pub open spec fn step_at(&self, x: Set<int>, c: int) -> Set<int> {
        Set::new(
            |v: int|
                exists|s: int, k: int|
                    x.contains(s) && 0 <= s < self.num() && 0 <= k < self.ranges_of(s).len() && (
                    #[trigger] self.ranges_of(s)[k]).1 == v && self.ranges_of(s)[k].0.has(c),
        )
    }

    /// `path` starts at the eps-closure of the start state, and each set of it is the
    /// eps-closure of the states that the one before leads to on the code point `cs[i]`.
    pub open spec fn is_run(&self, path: Seq<Set<int>>, cs: Seq<int>) -> bool {
        &&& path.len() > 0
        &&& cs.len() == path.len() - 1
        &&& self.is_eps_closure(set![0int], path[0])
        &&& forall|i: int|
            0 <= i < cs.len() ==> self.is_eps_closure(self.step_at(path[i], #[trigger] cs[i]), path[i + 1])
    }

    /// More than `n` distinct state sets are reachable from the start.
    pub open spec fn has_many_reachable(&self, n: int) -> bool {
        exists|xs: Seq<Set<int>>|
            {
                &&& #[trigger] xs.len() > n
                &&& forall|i: int, j: int| 0 <= i < j < xs.len() ==> #[trigger] xs[i] != #[trigger] xs[j]
                &&& forall|i: int| 0 <= i < xs.len() ==> self.is_reachable(#[trigger] xs[i])
            }
    }

    proof fn lemma_reach_step(&self, y: Set<int>, c: int, x: Set<int>)
        requires
            self.is_reachable(y),
            self.is_eps_closure(self.step_at(y, c), x),
        ensures
            self.is_reachable(x),
    {
        let (path, cs) = choose|path: Seq<Set<int>>, cs: Seq<int>| #[trigger] self.is_run(path, cs) && path.last() == y;
        let longer_path = path.push(x);
        let longer_cs = cs.push(c);
        assert forall|i: int| 0 <= i < longer_cs.len() implies self.is_eps_closure(self.step_at(longer_path[i], #[trigger] longer_cs[i]), longer_path[i + 1]) by {
            if i < cs.len() {
                assert(longer_cs[i] == cs[i] && longer_path[i] == path[i] && longer_path[i + 1] == path[i + 1]);
            } else {
                assert(longer_path[i] == y && longer_cs[i] == c && longer_path[i + 1] == x);
            }
        }
        assert(self.is_run(longer_path, longer_cs));
        assert(longer_path.last() == x);
    }

    /// `x` is a state set that the subset construction reaches from the start state.
    pub open spec fn is_reachable(&self, x: Set<int>) -> bool {
        exists|path: Seq<Set<int>>, cs: Seq<int>| #[trigger] self.is_run(path, cs) && path.last() == x
    }

    /// Some consuming transition out of a member of `x` accepts the code point `c`.
    pub open spec fn consumes(&self, x: Set<int>, c: int) -> bool {
        exists|s: int, k: int|
            x.contains(s) && 0 <= s < self.num() && 0 <= k < self.ranges_of(s).len() && (
            #[trigger] self.ranges_of(s)[k]).0.has(c)
    }

    /// `e` is a consuming transition out of a member of `x`.
    pub open spec fn is_edge_of(&self, x: Set<int>, e: (CharRange, usize)) -> bool {
        exists|s: int, k: int|
            x.contains(s) && 0 <= s < self.num() && 0 <= k < self.ranges_of(s).len() && #[trigger] self.ranges_of(s)[k] == e
    }

    /// `d` is the subset automaton of this one over the state sets `sets`: state `i` of `d`
    /// stands for the eps-closed set `sets[i]` (state 0 for the closure of the start state), no
    /// two sets are equal, a state accepts exactly when its set holds an accepting state, and
    /// the transitions of each state are disjoint ranges in increasing order that cover the code
    /// points its set consumes, each leading to the state whose set is the eps-closure of the
    /// states that the range leads to; every code point of such a range leads to the same states.
    /// Every set is reachable from the start.
    pub open spec fn is_subset_automaton(&self, d: Dfa, sets: Seq<StateSet>) -> bool {
        &&& d.num() == sets.len()
        &&& sets.len() > 0
        &&& self.is_eps_closure(set![0int], members(sets[0]))
        &&& forall|i: int|
            0 <= i < sets.len() ==> self.in_bounds(members(#[trigger] sets[i])) && self.eps_closed(
                members(sets[i]),
            )
        &&& forall|i: int, j: int|
            0 <= i < j < sets.len() ==> members(#[trigger] sets[i]) != members(#[trigger] sets[j])
        &&& forall|i: int| 0 <= i < sets.len() ==> self.is_reachable(members(#[trigger] sets[i]))
        &&& forall|i: int| 0 <= i < sets.len() ==> d.accepts(i) == self.any_accepting(members(#[trigger] sets[i]))
        &&& forall|i: int| 0 <= i < sets.len() ==> well_formed(#[trigger] d.trans(i))
        &&& forall|i: int, c: int|
            0 <= i < sets.len() ==> #[trigger] covered(d.trans(i), c) == self.consumes(members(sets[i]), c)
        &&& forall|i: int, t: int, c: int|
            #![trigger d.trans(i)[t].0.has(c)]
            0 <= i < sets.len() && 0 <= t < d.trans(i).len() && d.trans(i)[t].0.has(c) ==> self.step(
                members(sets[i]),
                d.trans(i)[t].0,
            ) == self.step_at(members(sets[i]), c)
        &&& forall|i: int, t: int|
            0 <= i < sets.len() && 0 <= t < d.trans(i).len() ==> (#[trigger] d.trans(i)[t]).1 < sets.len()
                && self.is_eps_closure(
                self.step(members(sets[i]), d.trans(i)[t].0),
                members(sets[d.trans(i)[t].1 as int]),
            )
    }

    /// `d` is the subset automaton of this one over some state sets.
    pub open spec fn is_determinization(&self, d: Dfa) -> bool {
        exists|sets: Seq<StateSet>| #[trigger] self.is_subset_automaton(d, sets)
    }

    /// The consuming transitions into `t` out of the states before `n`, reversed: one entry per
    /// transition, by source state and then in the order of the source's list.
    pub open spec fn ranges_into(&self, t: int, n: int) -> Seq<(CharRange, usize)>
        decreases n,
    {
        if n <= 0 {
            Seq::empty()
        } else {
            self.ranges_into(t, n - 1) + row_into(self.ranges_of(n - 1), t, n - 1, self.ranges_of(n - 1).len() as int)
        }
    }

    /// The eps-transitions into `t` out of the states before `n`, reversed, in the same order.
    pub open spec fn eps_into(&self, t: int, n: int) -> Seq<usize>
        decreases n,
    {
        if n <= 0 {
            Seq::empty()
        } else {
            self.eps_into(t, n - 1) + eps_row(self.eps_of(n - 1), t, n - 1, self.eps_of(n - 1).len() as int)
        }
    }

    /// The predicate transitions into `t` out of the states before `n`, reversed, in the same
    /// order as `ranges_into`.
    pub open spec fn preds_into(&self, t: int, n: int) -> Seq<(P, usize)>
        decreases n,
    {
        if n <= 0 {
            Seq::empty()
        } else {
            self.preds_into(t, n - 1) + pred_row(self.preds_of(n - 1), t, n - 1, self.preds_of(n - 1).len() as int)
        }
    }

    /// There is a consuming transition from `from` to `to` over `rg`.
    pub open spec fn has_range_edge(&self, from: int, rg: CharRange, to: int) -> bool {
        exists|k: int| 0 <= k < self.ranges_of(from).len() && #[trigger] self.ranges_of(from)[k] == (rg, to as usize)
    }

    /// There is an eps-transition from `from` to `to`.
    pub open spec fn has_eps_edge(&self, from: int, to: int) -> bool {
        exists|k: int| 0 <= k < self.eps_of(from).len() && #[trigger] self.eps_of(from)[k] == to as usize
    }

    /// Every member of `x` is a state of the automaton.
    pub open spec fn in_bounds(&self, x: Set<int>) -> bool {
        forall|s: int| x.contains(s) ==> 0 <= s < self.num()
    }

    /// `x` holds the target of every eps-transition out of its members.
    pub open spec fn eps_closed(&self, x: Set<int>) -> bool {
        forall|s: int, k: int|
            x.contains(s) && 0 <= s < self.num() && 0 <= k < self.eps_of(s).len() ==> x.contains(
                #[trigger] self.eps_of(s)[k] as int,
            )
    }

    /// `r` is the eps-closure of `x`: the least eps-closed set that holds `x`.
    pub open spec fn is_eps_closure(&self, x: Set<int>, r: Set<int>) -> bool {
        &&& x.subset_of(r)
        &&& self.in_bounds(r)
        &&& self.eps_closed(r)
        &&& forall|y: Set<int>| x.subset_of(y) && #[trigger] self.eps_closed(y) ==> r.subset_of(y)
    }

    /// Some member of `x` is an accepting state.
    pub open spec fn any_accepting(&self, x: Set<int>) -> bool {
        exists|s: int| x.contains(s) && 0 <= s < self.num() && #[trigger] self.accepts(s)
    }

    pub fn new() -> (r: Nfa<P>)
        ensures
            r.num() == 0,
    {
        Nfa { states: Vec::new() }
    }

    pub fn with_capacity(n: usize) -> (r: Nfa<P>)
        ensures
            r.num() == 0,
    {
        Nfa { states: Vec::with_capacity(n) }
    }

    pub fn num_states(&self) -> (r: usize)
        ensures
            r == self.num(),
    {
        self.states.len()
    }

    /// Adds a state with no transitions.
    pub fn add_state(&mut self, accepting: bool)
        ensures
            final(self).num() == old(self).num() + 1,
            final(self).accepts(old(self).num() as int) == accepting,
            final(self).eps_of(old(self).num() as int).len() == 0,
            final(self).ranges_of(old(self).num() as int).len() == 0,
            final(self).preds_of(old(self).num() as int).len() == 0,
            forall|s: int|
                0 <= s < old(self).num() ==> final(self).eps_of(s) == old(self).eps_of(s)
                    && final(self).ranges_of(s) == old(self).ranges_of(s) && final(self).accepts(s)
                    == old(self).accepts(s) && final(self).preds_of(s) == old(self).preds_of(s),
            old(self).wf() ==> final(self).wf(),
            old(self).preds_in_bounds() ==> final(self).preds_in_bounds(),
    {
        self.states.push(NfaState::new(accepting));
        proof {
            assert forall|t: int| 0 <= t < self.num() implies self.eps_of(t) == (if t < old(self).num() { old(self).eps_of(t) } else { Seq::<usize>::empty() }) && self.ranges_of(t) == (if t < old(self).num() { old(self).ranges_of(t) } else { Seq::<(CharRange, usize)>::empty() }) && self.preds_of(t) == (if t < old(self).num() { old(self).preds_of(t) } else { Seq::<(P, usize)>::empty() }) by {
                if t == old(self).num() {
                    assert(self.eps_of(t) =~= Seq::<usize>::empty());
                    assert(self.ranges_of(t) =~= Seq::<(CharRange, usize)>::empty());
                    assert(self.preds_of(t) =~= Seq::<(P, usize)>::empty());
                }
            }
            assert(grows_by_one(*old(self), *self));
            lemma_grow_wf(*old(self), *self);
        }
    }

    /// Adds a predicate transition from `from` to `to` under `pred`.
    pub fn add_predicate(&mut self, from: usize, to: usize, pred: P)
        requires
            from < old(self).num(),
            to < old(self).num(),
        ensures
            final(self).num() == old(self).num(),
            final(self).preds_of(from as int) == old(self).preds_of(from as int).push((pred, to)),
            forall|s: int|
                0 <= s < old(self).num() ==> final(self).ranges_of(s) == old(self).ranges_of(s)
                    && final(self).eps_of(s) == old(self).eps_of(s) && final(self).accepts(s)
                    == old(self).accepts(s),
            forall|s: int|
                0 <= s < old(self).num() && s != from ==> final(self).preds_of(s) == old(
                    self,
                ).preds_of(s),
            old(self).wf() ==> final(self).wf(),
            old(self).preds_in_bounds() ==> final(self).preds_in_bounds(),
    {
        let mut st = self.states.remove(from);
        st.predicates.push((pred, to));
        self.states.insert(from, st);
        proof {
            assert forall|s: int| 0 <= s < old(self).num() && s != from implies self.states@[s]
                == old(self).states@[s] by {}
            assert(self.preds_of(from as int).drop_last() =~= old(self).preds_of(from as int));
            assert(grows_by_one(*old(self), *self));
            lemma_grow_wf(*old(self), *self);
        }
    }

    /// For each entry `(rg, set)` of `kept` whose range is not empty, and each member `s` of
    /// `set` that is a state, adds a transition from `s` to `n` over `rg` (and the mirror
    /// transition from `n` to `s` to `rev`).
    fn connect_into(&mut self, rev: &mut Nfa<P>, kept: &Vec<(CharRange, StateSet)>, n: usize)
        requires
            old(self).wf(),
            old(self).preds_in_bounds(),
            old(rev).wf(),
            old(rev).preds_in_bounds(),
            old(rev).num() == old(self).num(),
            n < old(self).num(),
        ensures
            final(self).wf(),
            final(self).preds_in_bounds(),
            final(rev).wf(),
            final(rev).preds_in_bounds(),
            final(self).num() == old(self).num(),
            final(rev).num() == old(rev).num(),
            forall|s: int|
                0 <= s < old(self).num() ==> #[trigger] final(self).accepts(s) == old(self).accepts(s)
                    && final(self).eps_of(s) == old(self).eps_of(s) && final(self).preds_of(s) == old(
                    self,
                ).preds_of(s) && extends(old(self).ranges_of(s), final(self).ranges_of(s)),
            forall|s: int, k: int|
                0 <= s < old(self).num() && old(self).ranges_of(s).len() <= k < final(self).ranges_of(s).len()
                    ==> #[trigger] final(self).ranges_of(s)[k].1 == n && exists|a: int|
                    0 <= a < kept@.len() && kept@[a].0 == final(self).ranges_of(s)[k].0 && members(
                        kept@[a].1,
                    ).contains(s),
            forall|a: int, s: int|
                #![trigger members(kept@[a].1).contains(s)]
                0 <= a < kept@.len() && 0 <= s < old(self).num() && !kept@[a].0.spec_is_empty() && members(
                    kept@[a].1,
                ).contains(s) ==> final(self).ranges_of(s).contains((kept@[a].0, n)),
    {
        let ghost o = *self;
        let mut a: usize = 0;
        while a < kept.len()
            invariant
                a <= kept@.len(),
                n < self.num(),
                self.num() == o.num(),
                o == *old(self),
                self.wf(),
                self.preds_in_bounds(),
                rev.wf(),
                rev.preds_in_bounds(),
                rev.num() == self.num(),
                rev.num() == old(rev).num(),
                forall|s: int|
                    0 <= s < o.num() ==> #[trigger] self.accepts(s) == o.accepts(s) && self.eps_of(s)
                        == o.eps_of(s) && self.preds_of(s) == o.preds_of(s) && extends(o.ranges_of(s), self.ranges_of(s)),
                forall|s: int, k: int|
                    0 <= s < o.num() && o.ranges_of(s).len() <= k < self.ranges_of(s).len()
                        ==> #[trigger] self.ranges_of(s)[k].1 == n && exists|a2: int|
                        0 <= a2 < kept@.len() && kept@[a2].0 == self.ranges_of(s)[k].0 && members(
                            kept@[a2].1,
                        ).contains(s),
                forall|a2: int, s: int|
                    #![trigger members(kept@[a2].1).contains(s)]
                    0 <= a2 < a && 0 <= s < o.num() && !kept@[a2].0.spec_is_empty() && members(
                        kept@[a2].1,
                    ).contains(s) ==> self.ranges_of(s).contains((kept@[a2].0, n)),
            decreases kept@.len() - a,
        {
            let range = kept[a].0;
            if range.start <= range.end {
                let sources = kept[a].1.elements();
                let mut b: usize = 0;
                while b < sources.len()
                    invariant
                        a < kept@.len(),
                        range == kept@[a as int].0,
                        range.start <= range.end,
                        b <= sources@.len(),
                        forall|x: int| members(kept@[a as int].1).contains(x) <==> exists|i: int| 0 <= i < sources@.len() && sources@[i] == x,
                        forall|i: int, j: int| 0 <= i < j < sources@.len() ==> sources@[i] < sources@[j],
                        n < self.num(),
                        self.num() == o.num(),
                        self.wf(),
                        self.preds_in_bounds(),
                        rev.wf(),
                        rev.preds_in_bounds(),
                        rev.num() == self.num(),
                        rev.num() == old(rev).num(),
                        forall|s: int|
                            0 <= s < o.num() ==> #[trigger] self.accepts(s) == o.accepts(s) && self.eps_of(s)
                                == o.eps_of(s) && self.preds_of(s) == o.preds_of(s) && extends(o.ranges_of(s), self.ranges_of(s)),
                        forall|s: int, k: int|
                            0 <= s < o.num() && o.ranges_of(s).len() <= k < self.ranges_of(s).len()
                                ==> #[trigger] self.ranges_of(s)[k].1 == n && exists|a2: int|
                                0 <= a2 < kept@.len() && kept@[a2].0 == self.ranges_of(s)[k].0 && members(
                                    kept@[a2].1,
                                ).contains(s),
                        forall|a2: int, s: int|
                            #![trigger members(kept@[a2].1).contains(s)]
                            0 <= a2 < a && 0 <= s < o.num() && !kept@[a2].0.spec_is_empty() && members(
                                kept@[a2].1,
                            ).contains(s) ==> self.ranges_of(s).contains((kept@[a2].0, n)),
                        forall|i: int|
                            0 <= i < b && 0 <= sources@[i] < o.num() ==> #[trigger] self.ranges_of(sources@[i] as int).contains((range, n)),
                    decreases sources@.len() - b,
                {
                    let source = sources[b];
                    if source < self.states.len() {
                        let ghost g0 = *self;
                        self.add_transition(source, n, range);
                        rev.add_transition(n, source, range);
                        proof {
                            assert(members(kept@[a as int].1).contains(source as int));
                            assert forall|s: int|
                                0 <= s < o.num() implies #[trigger] self.accepts(s) == o.accepts(s) && self.eps_of(s)
                                    == o.eps_of(s) && self.preds_of(s) == o.preds_of(s) && extends(o.ranges_of(s), self.ranges_of(s)) by {
                                assert(g0.accepts(s) == o.accepts(s));
                                if s != source {
                                    assert(self.ranges_of(s) == g0.ranges_of(s));
                                } else {
                                    assert forall|k: int| 0 <= k < o.ranges_of(s).len() implies #[trigger] self.ranges_of(s)[k] == o.ranges_of(s)[k] by {
                                        assert(self.ranges_of(s)[k] == g0.ranges_of(s)[k]);
                                    }
                                }
                            }
                            assert forall|s: int, k: int|
                                0 <= s < o.num() && o.ranges_of(s).len() <= k < self.ranges_of(s).len()
                                    implies #[trigger] self.ranges_of(s)[k].1 == n && exists|a2: int|
                                    0 <= a2 < kept@.len() && kept@[a2].0 == self.ranges_of(s)[k].0 && members(
                                        kept@[a2].1,
                                    ).contains(s) by {
                                assert(g0.accepts(s) == o.accepts(s));
                                assert(extends(o.ranges_of(s), g0.ranges_of(s)));
                                if s != source {
                                    assert(self.ranges_of(s) == g0.ranges_of(s));
                                    assert(g0.ranges_of(s)[k].1 == n);
                                } else if k < g0.ranges_of(s).len() {
                                    assert(self.ranges_of(s)[k] == g0.ranges_of(s)[k]);
                                    assert(g0.ranges_of(s)[k].1 == n);
                                } else {
                                    assert(self.ranges_of(s)[k] == (range, n));
                                    assert(kept@[a as int].0 == self.ranges_of(s)[k].0);
                                    assert(members(kept@[a as int].1).contains(s));
                                }
                            }
                            assert forall|a2: int, s: int|
                                #![trigger members(kept@[a2].1).contains(s)]
                                0 <= a2 < a && 0 <= s < o.num() && !kept@[a2].0.spec_is_empty() && members(
                                    kept@[a2].1,
                                ).contains(s) implies self.ranges_of(s).contains((kept@[a2].0, n)) by {
                                assert(g0.ranges_of(s).contains((kept@[a2].0, n)));
                                let m = choose|m: int| 0 <= m < g0.ranges_of(s).len() && g0.ranges_of(s)[m] == (kept@[a2].0, n);
                                if s == source {
                                    assert(self.ranges_of(s)[m] == g0.ranges_of(s)[m]);
                                } else {
                                    assert(self.ranges_of(s) == g0.ranges_of(s));
                                }
                            }
                            assert forall|i: int|
                                0 <= i < b + 1 && 0 <= sources@[i] < o.num() implies #[trigger] self.ranges_of(sources@[i] as int).contains((range, n)) by {
                                let si = sources@[i] as int;
                                if i < b {
                                    assert(g0.ranges_of(si).contains((range, n)));
                                    let m = choose|m: int| 0 <= m < g0.ranges_of(si).len() && g0.ranges_of(si)[m] == (range, n);
                                    if si == source {
                                        assert(self.ranges_of(si)[m] == g0.ranges_of(si)[m]);
                                    } else {
                                        assert(self.ranges_of(si) == g0.ranges_of(si));
                                    }
                                } else {
                                    assert(self.ranges_of(si)[self.ranges_of(si).len() - 1] == (range, n));
                                }
                            }
                        }
                    }
                    b = b + 1;
                }
                proof {
                    assert forall|a2: int, s: int|
                        #![trigger members(kept@[a2].1).contains(s)]
                        0 <= a2 < a + 1 && 0 <= s < o.num() && !kept@[a2].0.spec_is_empty() && members(
                            kept@[a2].1,
                        ).contains(s) implies self.ranges_of(s).contains((kept@[a2].0, n)) by {
                        if a2 == a {
                            let i = choose|i: int| 0 <= i < sources@.len() && sources@[i] == s;
                            assert(self.ranges_of(sources@[i] as int).contains((range, n)));
                        }
                    }
                }
            }
            a = a + 1;
        }
    }

    /// For each entry `(rg, set)` of `kept` whose range is not empty, and each member `t` of
    /// `set` that is a state, adds a transition from `n` to `t` over `rg` (and the mirror
    /// transition from `t` to `n` to `rev`).
    fn connect_from(&mut self, rev: &mut Nfa<P>, kept: &Vec<(CharRange, StateSet)>, n: usize)
        requires
            old(self).wf(),
            old(self).preds_in_bounds(),
            old(rev).wf(),
            old(rev).preds_in_bounds(),
            old(rev).num() == old(self).num(),
            n < old(self).num(),
        ensures
            final(self).wf(),
            final(self).preds_in_bounds(),
            final(rev).wf(),
            final(rev).preds_in_bounds(),
            final(self).num() == old(self).num(),
            final(rev).num() == old(rev).num(),
            forall|s: int|
                0 <= s < old(self).num() ==> #[trigger] final(self).accepts(s) == old(self).accepts(s)
                    && final(self).eps_of(s) == old(self).eps_of(s) && final(self).preds_of(s) == old(
                    self,
                ).preds_of(s),
            forall|s: int| 0 <= s < old(self).num() && s != n ==> #[trigger] final(self).ranges_of(s) == old(self).ranges_of(s),
            extends(old(self).ranges_of(n as int), final(self).ranges_of(n as int)),
            forall|k: int|
                #![trigger final(self).ranges_of(n as int)[k]]
                old(self).ranges_of(n as int).len() <= k < final(self).ranges_of(n as int).len()
                    ==> kept_has(kept@, final(self).ranges_of(n as int)[k]),
            forall|a: int, t: int|
                #![trigger members(kept@[a].1).contains(t)]
                0 <= a < kept@.len() && 0 <= t < old(self).num() && !kept@[a].0.spec_is_empty() && members(
                    kept@[a].1,
                ).contains(t) ==> final(self).ranges_of(n as int).contains((kept@[a].0, t as usize)),
    {
        let ghost o = *self;
        let ghost ni = n as int;
        let mut a: usize = 0;
        while a < kept.len()
            invariant
                a <= kept@.len(),
                n < self.num(),
                ni == n as int,
                self.num() == o.num(),
                o == *old(self),
                self.wf(),
                self.preds_in_bounds(),
                rev.wf(),
                rev.preds_in_bounds(),
                rev.num() == self.num(),
                rev.num() == old(rev).num(),
                forall|s: int|
                    0 <= s < o.num() ==> #[trigger] self.accepts(s) == o.accepts(s) && self.eps_of(s)
                        == o.eps_of(s) && self.preds_of(s) == o.preds_of(s),
                forall|s: int| 0 <= s < o.num() && s != ni ==> #[trigger] self.ranges_of(s) == o.ranges_of(s),
                extends(o.ranges_of(ni), self.ranges_of(ni)),
                forall|k: int|
                    #![trigger self.ranges_of(ni)[k]]
                    o.ranges_of(ni).len() <= k < self.ranges_of(ni).len() ==> kept_has(kept@, self.ranges_of(ni)[k]),
                forall|a2: int, t: int|
                    #![trigger members(kept@[a2].1).contains(t)]
                    0 <= a2 < a && 0 <= t < o.num() && !kept@[a2].0.spec_is_empty() && members(
                        kept@[a2].1,
                    ).contains(t) ==> self.ranges_of(ni).contains((kept@[a2].0, t as usize)),
            decreases kept@.len() - a,
        {
            let range = kept[a].0;
            if range.start <= range.end {
                let targets = kept[a].1.elements();
                let mut b: usize = 0;
                while b < targets.len()
                    invariant
                        a < kept@.len(),
                        range == kept@[a as int].0,
                        range.start <= range.end,
                        b <= targets@.len(),
                        forall|x: int| members(kept@[a as int].1).contains(x) <==> exists|i: int| 0 <= i < targets@.len() && targets@[i] == x,
                        n < self.num(),
                        ni == n as int,
                        self.num() == o.num(),
                        self.wf(),
                        self.preds_in_bounds(),
                        rev.wf(),
                        rev.preds_in_bounds(),
                        rev.num() == self.num(),
                        rev.num() == old(rev).num(),
                        forall|s: int|
                            0 <= s < o.num() ==> #[trigger] self.accepts(s) == o.accepts(s) && self.eps_of(s)
                                == o.eps_of(s) && self.preds_of(s) == o.preds_of(s),
                        forall|s: int| 0 <= s < o.num() && s != ni ==> #[trigger] self.ranges_of(s) == o.ranges_of(s),
                        extends(o.ranges_of(ni), self.ranges_of(ni)),
                        forall|k: int|
                            #![trigger self.ranges_of(ni)[k]]
                            o.ranges_of(ni).len() <= k < self.ranges_of(ni).len() ==> kept_has(kept@, self.ranges_of(ni)[k]),
                        forall|a2: int, t: int|
                            #![trigger members(kept@[a2].1).contains(t)]
                            0 <= a2 < a && 0 <= t < o.num() && !kept@[a2].0.spec_is_empty() && members(
                                kept@[a2].1,
                            ).contains(t) ==> self.ranges_of(ni).contains((kept@[a2].0, t as usize)),
                        forall|i: int|
                            0 <= i < b && 0 <= targets@[i] < o.num() ==> self.ranges_of(ni).contains((range, #[trigger] targets@[i])),
                    decreases targets@.len() - b,
                {
                    let t = targets[b];
                    if t < self.states.len() {
                        let ghost g0 = *self;
                        self.add_transition(n, t, range);
                        rev.add_transition(t, n, range);
                        proof {
                            assert(members(kept@[a as int].1).contains(t as int));
                            assert(self.ranges_of(ni) == g0.ranges_of(ni).push((range, t)));
                            assert forall|s: int| 0 <= s < o.num() && s != ni implies #[trigger] self.ranges_of(s) == o.ranges_of(s) by {
                                assert(self.ranges_of(s) == g0.ranges_of(s));
                            }
                            assert forall|s: int|
                                0 <= s < o.num() implies #[trigger] self.accepts(s) == o.accepts(s) && self.eps_of(s)
                                    == o.eps_of(s) && self.preds_of(s) == o.preds_of(s) by {
                                assert(g0.accepts(s) == o.accepts(s));
                            }
                            assert forall|k: int| 0 <= k < o.ranges_of(ni).len() implies #[trigger] self.ranges_of(ni)[k] == o.ranges_of(ni)[k] by {
                                assert(self.ranges_of(ni)[k] == g0.ranges_of(ni)[k]);
                            }
                            assert forall|k: int|
                                #![trigger self.ranges_of(ni)[k]]
                                o.ranges_of(ni).len() <= k < self.ranges_of(ni).len() implies kept_has(kept@, self.ranges_of(ni)[k]) by {
                                if k < g0.ranges_of(ni).len() {
                                    assert(self.ranges_of(ni)[k] == g0.ranges_of(ni)[k]);
                                    assert(o.ranges_of(ni).len() <= k < g0.ranges_of(ni).len());
                                    let _ = g0.ranges_of(ni)[k];
                                } else {
                                    assert(self.ranges_of(ni)[k] == (range, t));
                                    assert(kept@[a as int].0 == range);
                                }
                            }
                            assert forall|a2: int, t2: int|
                                #![trigger members(kept@[a2].1).contains(t2)]
                                0 <= a2 < a && 0 <= t2 < o.num() && !kept@[a2].0.spec_is_empty() && members(
                                    kept@[a2].1,
                                ).contains(t2) implies self.ranges_of(ni).contains((kept@[a2].0, t2 as usize)) by {
                                assert(g0.ranges_of(ni).contains((kept@[a2].0, t2 as usize)));
                                let m = choose|m: int| 0 <= m < g0.ranges_of(ni).len() && g0.ranges_of(ni)[m] == (kept@[a2].0, t2 as usize);
                                assert(self.ranges_of(ni)[m] == g0.ranges_of(ni)[m]);
                            }
                            assert forall|i: int|
                                0 <= i < b + 1 && 0 <= targets@[i] < o.num() implies self.ranges_of(ni).contains((range, #[trigger] targets@[i])) by {
                                if i < b {
                                    assert(g0.ranges_of(ni).contains((range, targets@[i])));
                                    let m = choose|m: int| 0 <= m < g0.ranges_of(ni).len() && g0.ranges_of(ni)[m] == (range, targets@[i]);
                                    assert(self.ranges_of(ni)[m] == g0.ranges_of(ni)[m]);
                                } else {
                                    assert(self.ranges_of(ni)[self.ranges_of(ni).len() - 1] == (range, t));
                                }
                            }
                        }
                    }
                    b = b + 1;
                }
                proof {
                    assert forall|a2: int, t2: int|
                        #![trigger members(kept@[a2].1).contains(t2)]
                        0 <= a2 < a + 1 && 0 <= t2 < o.num() && !kept@[a2].0.spec_is_empty() && members(
                            kept@[a2].1,
                        ).contains(t2) implies self.ranges_of(ni).contains((kept@[a2].0, t2 as usize)) by {
                        if a2 == a {
                            let i = choose|i: int| 0 <= i < targets@.len() && targets@[i] == t2;
                            assert(self.ranges_of(ni).contains((range, targets@[i])));
                        }
                    }
                }
            }
            a = a + 1;
        }
        proof {
            assert forall|k: int|
                #![trigger self.ranges_of(n as int)[k]]
                o.ranges_of(ni).len() <= k < self.ranges_of(ni).len() implies kept_has(kept@, self.ranges_of(n as int)[k]) by {
                let e = self.ranges_of(ni)[k];
            }
            assert(o.ranges_of(ni).len() == old(self).ranges_of(n as int).len());
        }
    }

    /// Removes the predicate transitions from `at` to `to`.
    fn drop_predicates_to(&mut self, at: usize, to: usize) where P: Copy
        requires
            at < old(self).num(),
        ensures
            final(self).num() == old(self).num(),
            forall|k: int| 0 <= k < final(self).preds_of(at as int).len() ==> (#[trigger] final(self).preds_of(at as int)[k]).1 != to,
            forall|t: int|
                0 <= t < old(self).num() ==> final(self).ranges_of(t) == old(self).ranges_of(t)
                    && final(self).eps_of(t) == old(self).eps_of(t) && final(self).accepts(t)
                    == old(self).accepts(t),
            forall|t: int|
                0 <= t < old(self).num() && t != at ==> final(self).preds_of(t) == old(self).preds_of(t),
            old(self).wf() ==> final(self).wf(),
            old(self).preds_in_bounds() ==> final(self).preds_in_bounds(),
    {
        let st = self.states.remove(at);
        let mut kept: Vec<(P, usize)> = Vec::new();
        let mut k: usize = 0;
        while k < st.predicates.len()
            invariant
                k <= st.predicates@.len(),
                forall|m: int| 0 <= m < kept@.len() ==> (#[trigger] kept@[m]).1 != to,
                forall|m: int| 0 <= m < kept@.len() ==> exists|q: int| 0 <= q < st.predicates@.len() && st.predicates@[q] == #[trigger] kept@[m],
            decreases st.predicates@.len() - k,
        {
            if st.predicates[k].1 != to {
                let ghost before = kept@;
                kept.push(st.predicates[k]);
                proof {
                    assert forall|m: int| 0 <= m < kept@.len() implies exists|q: int| 0 <= q < st.predicates@.len() && st.predicates@[q] == #[trigger] kept@[m] by {
                        if m < before.len() {
                            assert(kept@[m] == before[m]);
                        } else {
                            assert(st.predicates@[k as int] == kept@[m]);
                        }
                    }
                }
            }
            k = k + 1;
        }
        let ghost old_preds = st.predicates@;
        let cleaned = NfaState { ranges: st.ranges, eps: st.eps, predicates: kept, accepting: st.accepting };
        self.states.insert(at, cleaned);
        proof {
            assert forall|t: int| 0 <= t < old(self).num() && t != at implies self.states@[t]
                == old(self).states@[t] by {}
            assert(old_preds == old(self).preds_of(at as int));
            if old(self).preds_in_bounds() {
                assert forall|t: int, m: int|
                    0 <= t < self.num() && 0 <= m < self.preds_of(t).len() implies #[trigger] self.preds_of(t)[m].1 < self.num() by {
                    if t != at {
                        assert(self.preds_of(t) == old(self).preds_of(t));
                    } else {
                        let q = choose|q: int| 0 <= q < old_preds.len() && old_preds[q] == #[trigger] self.preds_of(t)[m];
                        assert(old(self).preds_of(at as int)[q].1 < old(self).num());
                    }
                }
            }
            if old(self).wf() {
                assert forall|t: int| 0 <= t < self.num() implies nonempty_ranges(#[trigger] self.ranges_of(t)) by {
                    assert(self.ranges_of(t) == old(self).ranges_of(t));
                }
                assert forall|t: int, m: int|
                    0 <= t < self.num() && 0 <= m < self.ranges_of(t).len() implies #[trigger] self.ranges_of(t)[m].1 < self.num() by {
                    assert(self.ranges_of(t) == old(self).ranges_of(t));
                }
                assert forall|t: int, m: int|
                    0 <= t < self.num() && 0 <= m < self.eps_of(t).len() implies #[trigger] self.eps_of(t)[m] < self.num() by {
                    assert(self.eps_of(t) == old(self).eps_of(t));
                }
            }
        }
    }

    /// Takes away the predicate transitions out of `s`, and returns them.
    fn take_predicates(&mut self, s: usize) -> (r: Vec<(P, usize)>)
        requires
            s < old(self).num(),
        ensures
            r@ == old(self).preds_of(s as int),
            final(self).num() == old(self).num(),
            final(self).preds_of(s as int).len() == 0,
            forall|t: int|
                0 <= t < old(self).num() ==> final(self).ranges_of(t) == old(self).ranges_of(t)
                    && final(self).eps_of(t) == old(self).eps_of(t) && final(self).accepts(t)
                    == old(self).accepts(t),
            forall|t: int|
                0 <= t < old(self).num() && t != s ==> final(self).preds_of(t) == old(self).preds_of(t),
            old(self).wf() ==> final(self).wf(),
            old(self).preds_in_bounds() ==> final(self).preds_in_bounds(),
    {
        let st = self.states.remove(s);
        let r = st.predicates;
        let cleared = NfaState { ranges: st.ranges, eps: st.eps, predicates: Vec::new(), accepting: st.accepting };
        self.states.insert(s, cleared);
        proof {
            assert forall|t: int| 0 <= t < old(self).num() && t != s implies self.states@[t]
                == old(self).states@[t] by {}
            if old(self).preds_in_bounds() {
                assert forall|t: int, k: int|
                    0 <= t < self.num() && 0 <= k < self.preds_of(t).len() implies #[trigger] self.preds_of(t)[k].1 < self.num() by {
                    if t != s {
                        assert(self.preds_of(t) == old(self).preds_of(t));
                    }
                }
            }
            if old(self).wf() {
                assert forall|t: int| 0 <= t < self.num() implies nonempty_ranges(#[trigger] self.ranges_of(t)) by {
                    assert(self.ranges_of(t) == old(self).ranges_of(t));
                }
                assert forall|t: int, k: int|
                    0 <= t < self.num() && 0 <= k < self.ranges_of(t).len() implies #[trigger] self.ranges_of(t)[k].1 < self.num() by {
                    assert(self.ranges_of(t) == old(self).ranges_of(t));
                }
                assert forall|t: int, k: int|
                    0 <= t < self.num() && 0 <= k < self.eps_of(t).len() implies #[trigger] self.eps_of(t)[k] < self.num() by {
                    assert(self.eps_of(t) == old(self).eps_of(t));
                }
            }
        }
        r
    }

    /// Adds a transition from `from` to `to` that consumes a code point of `r`.
    pub fn add_transition(&mut self, from: usize, to: usize, r: CharRange)
        requires
            from < old(self).num(),
            to < old(self).num(),
            !r.spec_is_empty(),
        ensures
            final(self).num() == old(self).num(),
            final(self).ranges_of(from as int) == old(self).ranges_of(from as int).push((r, to)),
            forall|s: int|
                0 <= s < old(self).num() ==> final(self).eps_of(s) == old(self).eps_of(s)
                    && final(self).accepts(s) == old(self).accepts(s) && final(self).preds_of(s)
                    == old(self).preds_of(s),
            forall|s: int|
                0 <= s < old(self).num() && s != from ==> final(self).ranges_of(s) == old(
                    self,
                ).ranges_of(s),
            old(self).wf() ==> final(self).wf(),
            old(self).preds_in_bounds() ==> final(self).preds_in_bounds(),
    {
        let mut st = self.states.remove(from);
        st.ranges.push((r, to));
        self.states.insert(from, st);
        proof {
            assert forall|s: int| 0 <= s < old(self).num() && s != from implies self.states@[s]
                == old(self).states@[s] by {}
            assert(self.ranges_of(from as int).drop_last() =~= old(self).ranges_of(from as int));
            assert(grows_by_one(*old(self), *self));
            lemma_grow_wf(*old(self), *self);
        }
    }

    /// Adds an eps-transition from `from` to `to`.
    pub fn add_eps(&mut self, from: usize, to: usize)
        requires
            from < old(self).num(),
            to < old(self).num(),
        ensures
            final(self).num() == old(self).num(),
            final(self).eps_of(from as int) == old(self).eps_of(from as int).push(to),
            forall|s: int|
                0 <= s < old(self).num() ==> final(self).ranges_of(s) == old(self).ranges_of(s)
                    && final(self).accepts(s) == old(self).accepts(s) && final(self).preds_of(s)
                    == old(self).preds_of(s),
            forall|s: int|
                0 <= s < old(self).num() && s != from ==> final(self).eps_of(s) == old(self).eps_of(
                    s,
                ),
            old(self).wf() ==> final(self).wf(),
            old(self).preds_in_bounds() ==> final(self).preds_in_bounds(),
    {
        let mut st = self.states.remove(from);
        st.eps.push(to);
        self.states.insert(from, st);
        proof {
            assert forall|s: int| 0 <= s < old(self).num() && s != from implies self.states@[s]
                == old(self).states@[s] by {}
            assert(self.eps_of(from as int).drop_last() =~= old(self).eps_of(from as int));
            assert(grows_by_one(*old(self), *self));
            lemma_grow_wf(*old(self), *self);
        }
    }

    /// The consuming transitions out of `from`.
    pub fn transitions_from(&self, from: usize) -> (r: &Vec<(CharRange, usize)>)
        requires
            from < self.num(),
        ensures
            r@ == self.ranges_of(from as int),
    {
        &self.states[from].ranges
    }

    /// Some state of `states` accepts.
    pub fn accepting(&self, states: &StateSet) -> (r: bool)
        requires
            self.in_bounds(members(*states)),
        ensures
            r == self.any_accepting(members(*states)),
    {
        let v = to_vec(states);
        let mut i: usize = 0;
        while i < v.len()
            invariant
                i <= v@.len(),
                self.in_bounds(members(*states)),
                forall|x: int| members(*states).contains(x) <==> exists|j: int| 0 <= j < v@.len() && v@[j] == x,
                forall|j: int| 0 <= j < i ==> !self.accepts(#[trigger] v@[j] as int),
            decreases v@.len() - i,
        {
            let s = v[i];
            proof {
                assert(members(*states).contains(s as int));
            }
            if self.states[s].accepting {
                proof {
                    assert(self.accepts(s as int));
                }
                return true;
            }
            i = i + 1;
        }
        proof {
            if self.any_accepting(members(*states)) {
                let s = choose|s: int| members(*states).contains(s) && 0 <= s < self.num() && #[trigger] self.accepts(s);
                let j = choose|j: int| 0 <= j < v@.len() && v@[j] == s;
                assert(!self.accepts(v@[j] as int));
            }
        }
        false
    }

    /// The states reachable from `states` by eps-transitions alone (`states` included).
    pub fn eps_closure(&self, states: &StateSet) -> (r: StateSet)
        requires
            self.edges_in_bounds(),
            self.in_bounds(members(*states)),
        ensures
            self.is_eps_closure(members(*states), members(r)),
    {
        let n = self.states.len();
        let ghost x = members(*states);
        let mut ret = copy_of(states);
        let mut work = to_vec(states);
        proof {
            assert forall|y: Set<int>| x.subset_of(y) && #[trigger] self.eps_closed(y) implies members(ret).subset_of(y) by {}
        }
        while work.len() > 0
            invariant
                n == self.num(),
                self.edges_in_bounds(),
                self.in_bounds(members(ret)),
                x.subset_of(members(ret)),
                forall|y: Set<int>| x.subset_of(y) && #[trigger] self.eps_closed(y) ==> members(ret).subset_of(y),
                forall|j: int| 0 <= j < work@.len() ==> members(ret).contains(#[trigger] work@[j] as int),
                forall|s: int, k: int|
                    members(ret).contains(s) && 0 <= k < self.eps_of(s).len() && !(exists|j: int|
                        0 <= j < work@.len() && work@[j] == s) ==> members(ret).contains(
                        #[trigger] self.eps_of(s)[k] as int,
                    ),
            decreases n - members(ret).len(), work@.len(),
        {
            proof {
                lemma_int_range(0, n as int);
                assert(members(ret).subset_of(set_int_range(0, n as int)));
                lemma_len_subset(members(ret), set_int_range(0, n as int));
            }
            let ghost size0 = members(ret).len();
            let ghost work0 = work@;
            let s = work.pop().unwrap();
            proof {
                assert(work0 =~= work@.push(s));
                assert forall|t: int, m: int|
                    members(ret).contains(t) && 0 <= m < self.eps_of(t).len() && t != s && !(exists|j: int|
                        0 <= j < work@.len() && work@[j] == t) implies members(ret).contains(
                        #[trigger] self.eps_of(t)[m] as int,
                    ) by {
                    if exists|j: int| 0 <= j < work0.len() && work0[j] == t {
                        let j = choose|j: int| 0 <= j < work0.len() && work0[j] == t;
                        if j < work@.len() {
                            assert(work@[j] == t);
                        }
                    }
                }
                assert(members(ret).contains(work0[work0.len() - 1] as int));
            }
            let eps = &self.states[s].eps;
            let mut k: usize = 0;
            let ghost grew = false;
            while k < eps.len()
                invariant
                    n == self.num(),
                    s < n,
                    eps@ == self.eps_of(s as int),
                    self.edges_in_bounds(),
                    members(ret).finite(),
                    k <= eps@.len(),
                    self.in_bounds(members(ret)),
                    members(ret).contains(s as int),
                    x.subset_of(members(ret)),
                    forall|y: Set<int>| x.subset_of(y) && #[trigger] self.eps_closed(y) ==> members(ret).subset_of(y),
                    forall|j: int| 0 <= j < work@.len() ==> members(ret).contains(#[trigger] work@[j] as int),
                    forall|m: int| 0 <= m < k ==> members(ret).contains(#[trigger] eps@[m] as int),
                    forall|t: int, m: int|
                        members(ret).contains(t) && 0 <= m < self.eps_of(t).len() && t != s && !(exists|j: int|
                            0 <= j < work@.len() && work@[j] == t) ==> members(ret).contains(
                            #[trigger] self.eps_of(t)[m] as int,
                        ),
                    !grew ==> members(ret).len() == size0 && work@.len() == work0.len() - 1,
                    grew ==> members(ret).len() > size0,
                decreases eps@.len() - k,
            {
                let t = eps[k];
                proof {
                    assert(t < n);
                }
                if !contains(&ret, t) {
                    let ghost before = members(ret);
                    let ghost wb = work@;
                    insert(&mut ret, t);
                    work.push(t);
                    proof {
                        grew = true;
                        assert forall|y: Set<int>| x.subset_of(y) && #[trigger] self.eps_closed(y) implies members(ret).subset_of(y) by {
                            assert(before.subset_of(y));
                            assert(y.contains(self.eps_of(s as int)[k as int] as int));
                        }
                        assert forall|j: int| 0 <= j < work@.len() implies members(ret).contains(#[trigger] work@[j] as int) by {}
                        assert forall|t2: int, m: int|
                            members(ret).contains(t2) && 0 <= m < self.eps_of(t2).len() && t2 != s && !(exists|j: int|
                                0 <= j < work@.len() && work@[j] == t2) implies members(ret).contains(
                                #[trigger] self.eps_of(t2)[m] as int) by {
                            assert(work@ == wb.push(t as usize));
                            if t2 != t {
                                assert(before.contains(t2));
                                if exists|j: int| 0 <= j < wb.len() && wb[j] == t2 {
                                    let j = choose|j: int| 0 <= j < wb.len() && wb[j] == t2;
                                    assert(work@[j] == t2);
                                }
                            } else {
                                assert(work@[work@.len() - 1] == t2);
                            }
                        }
                    }
                }
                k = k + 1;
            }
            proof {
                assert forall|t: int, m: int|
                    members(ret).contains(t) && 0 <= m < self.eps_of(t).len() && !(exists|j: int|
                        0 <= j < work@.len() && work@[j] == t) implies members(ret).contains(
                        #[trigger] self.eps_of(t)[m] as int,
                    ) by {
                    if t == s {
                        assert(members(ret).contains(eps@[m] as int));
                    }
                }
                lemma_int_range(0, n as int);
                assert(members(ret).subset_of(set_int_range(0, n as int)));
                lemma_len_subset(members(ret), set_int_range(0, n as int));
            }
        }
        proof {
            assert forall|s: int, k: int|
                members(ret).contains(s) && 0 <= s < self.num() && 0 <= k < self.eps_of(s).len() implies members(ret).contains(
                    #[trigger] self.eps_of(s)[k] as int,
                ) by {}
        }
        ret
    }

    /// The eps-closure of the single state `state`.
    pub fn eps_closure_single(&self, state: usize) -> (r: StateSet)
        requires
            self.edges_in_bounds(),
            state < self.num(),
        ensures
            self.is_eps_closure(set![state as int], members(r)),
    {
        let mut set = empty_set(self.states.len());
        insert(&mut set, state);
        proof {
            assert(members(set) =~= set![state as int]);
        }
        self.eps_closure(&set)
    }

    /// The consuming transitions out of `states`, as disjoint ranges in increasing order, each
    /// with the eps-closure of the states it leads to.
    pub fn transitions(&self, states: &StateSet) -> (r: Vec<(CharRange, StateSet)>)
        requires
            self.wf(),
            self.in_bounds(members(*states)),
        ensures
            well_formed(r@),
            forall|k: int|
                0 <= k < r@.len() ==> self.is_eps_closure(
                    self.step(members(*states), r@[k].0),
                    members((#[trigger] r@[k]).1),
                ),
            forall|c: int| #[trigger] covered(r@, c) == self.consumes(members(*states), c),
            forall|k: int|
                0 <= k < r@.len() ==> self.step(members(*states), (#[trigger] r@[k]).0) == self.step_at(
                    members(*states),
                    r@[k].0.start as int,
                ),
            forall|k: int, c: int|
                #![trigger r@[k].0.has(c)]
                0 <= k < r@.len() && r@[k].0.has(c) ==> self.step(members(*states), r@[k].0)
                    == self.step_at(members(*states), c),
    {
        let ghost x = members(*states);
        let v = to_vec(states);
        let mut mm: CharMultiMap<usize> = CharMultiMap::new();
        let mut i: usize = 0;
        while i < v.len()
            invariant
                i <= v@.len(),
                self.wf(),
                self.in_bounds(x),
                forall|y: int| x.contains(y) <==> exists|j: int| 0 <= j < v@.len() && v@[j] == y,
                forall|e: int| 0 <= e < mm@.len() ==> self.is_edge_of(x, #[trigger] mm@[e]),
                forall|j: int, k: int|
                    0 <= j < i && 0 <= k < self.ranges_of(v@[j] as int).len() ==> mm@.contains(
                        #[trigger] self.ranges_of(v@[j] as int)[k],
                    ),
            decreases v@.len() - i,
        {
            let s = v[i];
            proof {
                assert(x.contains(s as int));
            }
            let rs = &self.states[s].ranges;
            let mut k: usize = 0;
            while k < rs.len()
                invariant
                    i < v@.len(),
                    s == v@[i as int],
                    x.contains(s as int),
                    s < self.num(),
                    rs@ == self.ranges_of(s as int),
                    k <= rs@.len(),
                    forall|e: int| 0 <= e < mm@.len() ==> self.is_edge_of(x, #[trigger] mm@[e]),
                    forall|j: int, k2: int|
                        0 <= j < i && 0 <= k2 < self.ranges_of(v@[j] as int).len() ==> mm@.contains(
                            #[trigger] self.ranges_of(v@[j] as int)[k2],
                        ),
                    forall|k2: int| 0 <= k2 < k ==> mm@.contains(#[trigger] rs@[k2]),
                decreases rs@.len() - k,
            {
                let ghost before = mm@;
                mm.push(rs[k].0, &rs[k].1);
                proof {
                    assert(mm@[mm@.len() - 1] == rs@[k as int]);
                    assert forall|e: int| 0 <= e < mm@.len() implies self.is_edge_of(x, #[trigger] mm@[e]) by {
                        if e < before.len() {
                            assert(mm@[e] == before[e]);
                        } else {
                            assert(self.ranges_of(s as int)[k as int] == mm@[e]);
                            assert(self.is_edge_of(x, mm@[e]));
                        }
                    }
                    assert forall|y: (CharRange, usize)| before.contains(y) implies mm@.contains(y) by {
                        let e = choose|e: int| 0 <= e < before.len() && before[e] == y;
                        assert(mm@[e] == y);
                    }
                    assert(mm@.contains(rs@[k as int]));
                }
                k = k + 1;
            }
            i = i + 1;
        }
        proof {
            assert forall|e: int| 0 <= e < mm@.len() implies (#[trigger] mm@[e]).0.start <= mm@[e].0.end by {
                assert(self.is_edge_of(x, mm@[e]));
                let (s, k) = choose|s: int, k: int|
                    x.contains(s) && 0 <= s < self.num() && 0 <= k < self.ranges_of(s).len() && #[trigger] self.ranges_of(s)[k] == mm@[e];
                assert(nonempty_ranges(self.ranges_of(s)));
            }
            assert forall|rg: CharRange| entry_values(mm@, rg) == self.step(x, rg) by {
                assert forall|w: int| entry_values(mm@, rg).contains(w) implies self.step(x, rg).contains(w) by {
                    let e = choose|e: int| 0 <= e < mm@.len() && (#[trigger] mm@[e]).1 == w && mm@[e].0.includes(rg);
                    assert(self.is_edge_of(x, mm@[e]));
                    let (s, k) = choose|s: int, k: int|
                        x.contains(s) && 0 <= s < self.num() && 0 <= k < self.ranges_of(s).len() && #[trigger] self.ranges_of(s)[k] == mm@[e];
                    assert(self.ranges_of(s)[k].1 == w);
                }
                assert forall|w: int| self.step(x, rg).contains(w) implies entry_values(mm@, rg).contains(w) by {
                    let (s, k) = choose|s: int, k: int|
                        x.contains(s) && 0 <= s < self.num() && 0 <= k < self.ranges_of(s).len() && (
                        #[trigger] self.ranges_of(s)[k]).1 == w && self.ranges_of(s)[k].0.includes(rg);
                    let j = choose|j: int| 0 <= j < v@.len() && v@[j] == s;
                    assert(mm@.contains(self.ranges_of(v@[j] as int)[k]));
                    let e = choose|e: int| 0 <= e < mm@.len() && mm@[e] == self.ranges_of(s)[k];
                    assert(mm@[e].1 == w);
                }
                assert(entry_values(mm@, rg) =~= self.step(x, rg));
            }
            assert forall|c: int| covered(mm@, c) == self.consumes(x, c) by {
                if covered(mm@, c) {
                    let e = choose|e: int| 0 <= e < mm@.len() && #[trigger] mm@[e].0.has(c);
                    assert(self.is_edge_of(x, mm@[e]));
                    let (s, k) = choose|s: int, k: int|
                        x.contains(s) && 0 <= s < self.num() && 0 <= k < self.ranges_of(s).len() && #[trigger] self.ranges_of(s)[k] == mm@[e];
                    assert(self.ranges_of(s)[k].0.has(c));
                }
                if self.consumes(x, c) {
                    let (s, k) = choose|s: int, k: int|
                        x.contains(s) && 0 <= s < self.num() && 0 <= k < self.ranges_of(s).len() && (
                        #[trigger] self.ranges_of(s)[k]).0.has(c);
                    let j = choose|j: int| 0 <= j < v@.len() && v@[j] == s;
                    assert(mm@.contains(self.ranges_of(v@[j] as int)[k]));
                    let e = choose|e: int| 0 <= e < mm@.len() && mm@[e] == self.ranges_of(s)[k];
                    assert(mm@[e].0.has(c));
                }
            }
        }
        let g = mm.group();
        let gs = g.iter();
        let mut ret: Vec<(CharRange, StateSet)> = Vec::new();
        let mut k: usize = 0;
        while k < gs.len()
            invariant
                self.wf(),
                gs@ == g@,
                well_formed(g@),
                forall|j: int| 0 <= j < g@.len() ==> members((#[trigger] g@[j]).1) == entry_values(mm@, g@[j].0),
                forall|rg: CharRange| entry_values(mm@, rg) == self.step(x, rg),
                forall|a: int, e: int, c: int|
                    #![trigger mm@[e].0.has(c), g@[a]]
                    0 <= a < g@.len() && 0 <= e < mm@.len() && mm@[e].0.has(c) && g@[a].0.has(c)
                        ==> mm@[e].0.includes(g@[a].0),
                k <= gs@.len(),
                ret@.len() == k,
                forall|j: int| 0 <= j < k ==> (#[trigger] ret@[j]).0 == g@[j].0,
                forall|j: int|
                    0 <= j < k ==> self.is_eps_closure(self.step(x, ret@[j].0), members((#[trigger] ret@[j]).1)),
            decreases gs@.len() - k,
        {
            let rg = gs[k].0;
            proof {
                assert(members(gs@[k as int].1) == self.step(x, rg));
                assert forall|y: int| self.step(x, rg).contains(y) implies 0 <= y < self.num() by {
                    let (s, kk) = choose|s: int, kk: int|
                        x.contains(s) && 0 <= s < self.num() && 0 <= kk < self.ranges_of(s).len() && (
                        #[trigger] self.ranges_of(s)[kk]).1 == y && self.ranges_of(s)[kk].0.includes(rg);
                }
            }
            let closed = self.eps_closure(&gs[k].1);
            ret.push((rg, closed));
            k = k + 1;
        }
        proof {
            assert forall|a: int, c: int|
                #![trigger ret@[a].0.has(c)]
                0 <= a < ret@.len() && ret@[a].0.has(c) implies self.step(x, ret@[a].0) == self.step_at(x, c) by {
                let rg = ret@[a].0;
                assert(rg == g@[a].0);
                assert forall|w: int| self.step_at(x, c).contains(w) implies self.step(x, rg).contains(w) by {
                    let (s, k) = choose|s: int, k: int|
                        x.contains(s) && 0 <= s < self.num() && 0 <= k < self.ranges_of(s).len() && (
                        #[trigger] self.ranges_of(s)[k]).1 == w && self.ranges_of(s)[k].0.has(c);
                    let j = choose|j: int| 0 <= j < v@.len() && v@[j] == s;
                    assert(mm@.contains(self.ranges_of(v@[j] as int)[k]));
                    let e = choose|e: int| 0 <= e < mm@.len() && mm@[e] == self.ranges_of(s)[k];
                    assert(mm@[e].0.has(c));
                    assert(g@[a].0.has(c));
                    assert(mm@[e].0.includes(g@[a].0));
                }
                assert forall|w: int| self.step(x, rg).contains(w) implies self.step_at(x, c).contains(w) by {
                    let (s, k) = choose|s: int, k: int|
                        x.contains(s) && 0 <= s < self.num() && 0 <= k < self.ranges_of(s).len() && (
                        #[trigger] self.ranges_of(s)[k]).1 == w && self.ranges_of(s)[k].0.includes(rg);
                }
                assert(self.step(x, rg) =~= self.step_at(x, c));
            }
            assert forall|a: int| 0 <= a < ret@.len() implies self.step(x, (#[trigger] ret@[a]).0) == self.step_at(
                x,
                ret@[a].0.start as int,
            ) by {
                assert(ret@[a].0 == g@[a].0);
                assert(ret@[a].0.has(ret@[a].0.start as int));
            }
            assert forall|a: int| 0 <= a < ret@.len() implies #[trigger] ret@[a].0.start <= ret@[a].0.end by {
                assert(ret@[a].0 == g@[a].0);
            }
            assert forall|a: int, b: int|
                #![trigger ret@[a], ret@[b]]
                0 <= a < b < ret@.len() implies ret@[a].0.end < ret@[b].0.start by {
                assert(ret@[a].0 == g@[a].0 && ret@[b].0 == g@[b].0);
            }
            assert forall|c: int| #[trigger] covered(ret@, c) == self.consumes(x, c) by {
                if covered(ret@, c) {
                    let a = choose|a: int| 0 <= a < ret@.len() && #[trigger] ret@[a].0.has(c);
                    assert(g@[a].0.has(c));
                    assert(covered(g@, c));
                }
                if covered(g@, c) {
                    let a = choose|a: int| 0 <= a < g@.len() && #[trigger] g@[a].0.has(c);
                    assert(ret@[a].0.has(c));
                }
            }
        }
        ret
    }

    /// Builds the subset automaton of this one, and the state set that each of its states
    /// stands for; `None` where it would need more than `max_states` states.
    pub fn determinize_with_sets(&self, max_states: usize) -> (r: Option<(Dfa, Vec<StateSet>)>)
        requires
            self.wf(),
            self.num() > 0,
        ensures
            match r {
                Some(p) => self.is_subset_automaton(p.0, p.1@) && p.1@.len() <= max_states,
                None => max_states == 0 || self.has_many_reachable(max_states as int),
            },
    {
        if max_states == 0 {
            return None;
        }
        let start = self.eps_closure_single(0);
        let mut dfa = Dfa::new();
        let acc = self.accepting(&start);
        dfa.add_state(acc);
        let mut sets: Vec<StateSet> = Vec::new();
        sets.push(start);
        proof {
            let path = seq![members(sets@[0])];
            assert(self.is_run(path, Seq::<int>::empty()));
            assert(path.last() == members(sets@[0]));
        }
        let mut next: usize = 0;
        while next < sets.len()
            invariant
                self.wf(),
                dfa.num() == sets@.len(),
                1 <= sets@.len() <= max_states,
                next <= sets@.len(),
                self.is_eps_closure(set![0int], members(sets@[0])),
                forall|i: int|
                    0 <= i < sets@.len() ==> self.in_bounds(members(#[trigger] sets@[i])) && self.eps_closed(
                        members(sets@[i]),
                    ),
                forall|i: int, j: int|
                    0 <= i < j < sets@.len() ==> members(#[trigger] sets@[i]) != members(#[trigger] sets@[j]),
                forall|i: int| 0 <= i < sets@.len() ==> dfa.accepts(i) == self.any_accepting(members(#[trigger] sets@[i])),
                forall|i: int| 0 <= i < sets@.len() ==> self.is_reachable(members(#[trigger] sets@[i])),
                forall|i: int| next <= i < sets@.len() ==> (#[trigger] dfa.trans(i)).len() == 0,
                forall|i: int| 0 <= i < next ==> well_formed(#[trigger] dfa.trans(i)),
                forall|i: int, c: int|
                    0 <= i < next ==> #[trigger] covered(dfa.trans(i), c) == self.consumes(members(sets@[i]), c),
                forall|i: int, t: int, c: int|
                    #![trigger dfa.trans(i)[t].0.has(c)]
                    0 <= i < next && 0 <= t < dfa.trans(i).len() && dfa.trans(i)[t].0.has(c) ==> self.step(
                        members(sets@[i]),
                        dfa.trans(i)[t].0,
                    ) == self.step_at(members(sets@[i]), c),
                forall|i: int, t: int|
                    0 <= i < next && 0 <= t < dfa.trans(i).len() ==> (#[trigger] dfa.trans(i)[t]).1 < sets@.len()
                        && self.is_eps_closure(
                        self.step(members(sets@[i]), dfa.trans(i)[t].0),
                        members(sets@[dfa.trans(i)[t].1 as int]),
                    ),
            decreases max_states - next,
        {
            let trans = self.transitions(&sets[next]);
            let ghost cur = members(sets@[next as int]);
            let mut t: usize = 0;
            while t < trans.len()
                invariant
                    self.wf(),
                    next < sets@.len(),
                    cur == members(sets@[next as int]),
                    dfa.num() == sets@.len(),
                    1 <= sets@.len() <= max_states,
                    well_formed(trans@),
                    forall|k: int|
                        0 <= k < trans@.len() ==> self.is_eps_closure(
                            self.step(cur, trans@[k].0),
                            members((#[trigger] trans@[k]).1),
                        ),
                    t <= trans@.len(),
                    self.is_eps_closure(set![0int], members(sets@[0])),
                    forall|i: int|
                        0 <= i < sets@.len() ==> self.in_bounds(members(#[trigger] sets@[i])) && self.eps_closed(
                            members(sets@[i]),
                        ),
                    forall|i: int, j: int|
                        0 <= i < j < sets@.len() ==> members(#[trigger] sets@[i]) != members(#[trigger] sets@[j]),
                    forall|i: int| 0 <= i < sets@.len() ==> dfa.accepts(i) == self.any_accepting(members(#[trigger] sets@[i])),
                    forall|i: int| 0 <= i < sets@.len() ==> self.is_reachable(members(#[trigger] sets@[i])),
                    forall|k: int|
                        0 <= k < trans@.len() ==> self.step(cur, (#[trigger] trans@[k]).0) == self.step_at(
                            cur,
                            trans@[k].0.start as int,
                        ),
                    forall|i: int| next < i < sets@.len() ==> (#[trigger] dfa.trans(i)).len() == 0,
                    forall|i: int| 0 <= i < next ==> well_formed(#[trigger] dfa.trans(i)),
                    forall|i: int, c: int|
                        0 <= i < next ==> #[trigger] covered(dfa.trans(i), c) == self.consumes(members(sets@[i]), c),
                    forall|i: int, u: int, c: int|
                        #![trigger dfa.trans(i)[u].0.has(c)]
                        0 <= i < next && 0 <= u < dfa.trans(i).len() && dfa.trans(i)[u].0.has(c) ==> self.step(
                            members(sets@[i]),
                            dfa.trans(i)[u].0,
                        ) == self.step_at(members(sets@[i]), c),
                    forall|k: int, c: int|
                        #![trigger trans@[k].0.has(c)]
                        0 <= k < trans@.len() && trans@[k].0.has(c) ==> self.step(cur, trans@[k].0)
                            == self.step_at(cur, c),
                    forall|i: int, u: int|
                        0 <= i < next && 0 <= u < dfa.trans(i).len() ==> (#[trigger] dfa.trans(i)[u]).1 < sets@.len()
                            && self.is_eps_closure(
                            self.step(members(sets@[i]), dfa.trans(i)[u].0),
                            members(sets@[dfa.trans(i)[u].1 as int]),
                        ),
                    dfa.trans(next as int).len() == t,
                    forall|u: int|
                        0 <= u < t ==> (#[trigger] dfa.trans(next as int)[u]).0 == trans@[u].0
                            && dfa.trans(next as int)[u].1 < sets@.len() && members(
                            sets@[dfa.trans(next as int)[u].1 as int],
                        ) == members(trans@[u].1),
                decreases trans@.len() - t,
            {
                let cand = &trans[t].1;
                let mut j: usize = 0;
                let mut found = false;
                while j < sets.len() && !found
                    invariant
                        j <= sets@.len(),
                        !found ==> forall|m: int| 0 <= m < j ==> members(#[trigger] sets@[m]) != members(*cand),
                        found ==> j < sets@.len() && members(sets@[j as int]) == members(*cand),
                    decreases sets@.len() - j, if found { 0int } else { 1int },
                {
                    if same_members(&sets[j], cand) {
                        found = true;
                    } else {
                        j = j + 1;
                    }
                }
                let ghost sets0 = sets@;
                let target = if found {
                    j
                } else {
                    proof {
                        let rg = trans@[t as int].0;
                        assert(self.is_reachable(cur));
                        assert(self.step(cur, rg) == self.step_at(cur, rg.start as int));
                        self.lemma_reach_step(cur, rg.start as int, members(*cand));
                        assert(self.is_reachable(members(*cand)));
                    }
                    if sets.len() >= max_states {
                        proof {
                            let xs = sets@.map_values(|st: StateSet| members(st)).push(members(*cand));
                            assert(xs.len() > max_states);
                            assert forall|i: int, j2: int| 0 <= i < j2 < xs.len() implies #[trigger] xs[i] != #[trigger] xs[j2] by {
                                if j2 == xs.len() - 1 {
                                    assert(xs[i] == members(sets@[i]));
                                } else {
                                    assert(xs[i] == members(sets@[i]) && xs[j2] == members(sets@[j2]));
                                }
                            }
                            assert forall|i: int| 0 <= i < xs.len() implies self.is_reachable(#[trigger] xs[i]) by {
                                if i < xs.len() - 1 {
                                    assert(xs[i] == members(sets@[i]));
                                }
                            }
                            assert(self.has_many_reachable(max_states as int));
                        }
                        return None;
                    }
                    proof {
                        assert(self.is_eps_closure(self.step(cur, trans@[t as int].0), members(*cand)));
                    }
                    let acc = self.accepting(cand);
                    let idx = dfa.add_state(acc);
                    sets.push(copy_of(cand));
                    proof {
                        assert forall|i: int, j2: int|
                            0 <= i < j2 < sets@.len() implies members(#[trigger] sets@[i]) != members(#[trigger] sets@[j2]) by {
                            if j2 == sets@.len() - 1 {
                                assert(sets@[i] == sets0[i]);
                            } else {
                                assert(sets@[i] == sets0[i] && sets@[j2] == sets0[j2]);
                            }
                        }
                        assert forall|i: int| 0 <= i < sets@.len() implies self.in_bounds(members(#[trigger] sets@[i])) && self.eps_closed(
                            members(sets@[i])) by {
                            if i < sets0.len() {
                                assert(sets@[i] == sets0[i]);
                            }
                        }
                        assert forall|i: int| 0 <= i < sets@.len() implies dfa.accepts(i) == self.any_accepting(members(#[trigger] sets@[i])) by {
                            if i < sets0.len() {
                                assert(sets@[i] == sets0[i]);
                            }
                        }
                        assert forall|i: int| 0 <= i < sets@.len() implies self.is_reachable(members(#[trigger] sets@[i])) by {
                            if i < sets0.len() {
                                assert(sets@[i] == sets0[i]);
                            }
                        }
                    }
                    idx
                };
                let ghost d0 = dfa;
                dfa.add_transition(next, target, trans[t].0);
                proof {
                    assert forall|i: int, u: int|
                        0 <= i < next && 0 <= u < dfa.trans(i).len() implies (#[trigger] dfa.trans(i)[u]).1 < sets@.len()
                            && self.is_eps_closure(
                            self.step(members(sets@[i]), dfa.trans(i)[u].0),
                            members(sets@[dfa.trans(i)[u].1 as int]),
                        ) by {
                        assert(dfa.trans(i) == d0.trans(i));
                        assert(d0.trans(i)[u].1 < sets0.len());
                        assert(sets@[d0.trans(i)[u].1 as int] == sets0[d0.trans(i)[u].1 as int]);
                        assert(sets@[i] == sets0[i]);
                    }
                    assert forall|i: int, c: int|
                        0 <= i < next implies #[trigger] covered(dfa.trans(i), c) == self.consumes(members(sets@[i]), c) by {
                        assert(dfa.trans(i) == d0.trans(i));
                        assert(sets@[i] == sets0[i]);
                    }
                    assert forall|i: int| 0 <= i < next implies well_formed(#[trigger] dfa.trans(i)) by {
                        assert(dfa.trans(i) == d0.trans(i));
                    }
                    assert forall|i: int, u: int, c: int|
                        #![trigger dfa.trans(i)[u].0.has(c)]
                        0 <= i < next && 0 <= u < dfa.trans(i).len() && dfa.trans(i)[u].0.has(c) implies self.step(
                            members(sets@[i]),
                            dfa.trans(i)[u].0,
                        ) == self.step_at(members(sets@[i]), c) by {
                        assert(dfa.trans(i) == d0.trans(i));
                        assert(sets@[i] == sets0[i]);
                    }
                    assert forall|u: int|
                        0 <= u < t + 1 implies (#[trigger] dfa.trans(next as int)[u]).0 == trans@[u].0
                            && dfa.trans(next as int)[u].1 < sets@.len() && members(
                            sets@[dfa.trans(next as int)[u].1 as int],
                        ) == members(trans@[u].1) by {
                        if u < t {
                            assert(dfa.trans(next as int)[u] == d0.trans(next as int)[u]);
                            assert(sets@[d0.trans(next as int)[u].1 as int] == sets0[d0.trans(next as int)[u].1 as int]);
                        }
                    }
                    assert forall|i: int| next < i < sets@.len() implies (#[trigger] dfa.trans(i)).len() == 0 by {
                        if i < sets0.len() {
                            assert(dfa.trans(i) == d0.trans(i));
                        }
                    }
                    assert(sets@[next as int] == sets0[next as int]);
                    assert(sets@[0] == sets0[0]);
                }
                t = t + 1;
            }
            proof {
                assert(dfa.trans(next as int) =~= dfa.trans(next as int));
                assert forall|a: int| 0 <= a < dfa.trans(next as int).len() implies
                    (#[trigger] dfa.trans(next as int)[a]).0 == trans@[a].0 by {}
                assert(well_formed(dfa.trans(next as int))) by {
                    assert forall|a: int| 0 <= a < dfa.trans(next as int).len() implies
                        #[trigger] dfa.trans(next as int)[a].0.start <= dfa.trans(next as int)[a].0.end by {
                        assert(dfa.trans(next as int)[a].0 == trans@[a].0);
                    }
                    assert forall|a: int, b: int|
                        #![trigger dfa.trans(next as int)[a], dfa.trans(next as int)[b]]
                        0 <= a < b < dfa.trans(next as int).len() implies dfa.trans(next as int)[a].0.end
                            < dfa.trans(next as int)[b].0.start by {
                        assert(dfa.trans(next as int)[a].0 == trans@[a].0);
                        assert(dfa.trans(next as int)[b].0 == trans@[b].0);
                    }
                }
                assert forall|c: int| #[trigger] covered(dfa.trans(next as int), c) == covered(trans@, c) by {
                    if covered(trans@, c) {
                        let a = choose|a: int| 0 <= a < trans@.len() && #[trigger] trans@[a].0.has(c);
                        assert(dfa.trans(next as int)[a].0.has(c));
                    }
                    if covered(dfa.trans(next as int), c) {
                        let a = choose|a: int| 0 <= a < dfa.trans(next as int).len() && #[trigger] dfa.trans(next as int)[a].0.has(c);
                        assert(trans@[a].0.has(c));
                    }
                }
                assert forall|u: int, c: int|
                    #![trigger dfa.trans(next as int)[u].0.has(c)]
                    0 <= u < dfa.trans(next as int).len() && dfa.trans(next as int)[u].0.has(c) implies self.step(
                        members(sets@[next as int]),
                        dfa.trans(next as int)[u].0,
                    ) == self.step_at(members(sets@[next as int]), c) by {
                    assert(dfa.trans(next as int)[u].0 == trans@[u].0);
                    assert(trans@[u].0.has(c));
                }
                assert forall|u: int|
                    0 <= u < dfa.trans(next as int).len() implies self.is_eps_closure(
                        self.step(members(sets@[next as int]), dfa.trans(next as int)[u].0),
                        members(sets@[dfa.trans(next as int)[u].1 as int]),
                    ) by {
                    assert(self.is_eps_closure(self.step(cur, trans@[u].0), members(trans@[u].1)));
                }
            }
            next = next + 1;
        }
        Some((dfa, sets))
    }

    /// Builds the subset automaton of this one (see `determinize_with_sets`); `None` where it
    /// would need more than `max_states` states.
    pub fn determinize(&self, max_states: usize) -> (r: Option<Dfa>)
        requires
            self.wf(),
            self.num() > 0,
        ensures
            match r {
                Some(d) => self.is_determinization(d),
                None => max_states == 0 || self.has_many_reachable(max_states as int),
            },
    {
        match self.determinize_with_sets(max_states) {
            Some(p) => {
                let (d, sets) = p;
                proof {
                    assert(self.is_subset_automaton(d, sets@));
                    assert(self.is_determinization(d));
                }
                Some(d)
            },
            None => None,
        }
    }

}

impl<P: Copy> Nfa<P> {
    /// A copy with every transition reversed; states keep their indices and accepting flags.
    pub fn reversed(&self) -> (r: Nfa<P>)
        requires
            self.wf(),
            self.preds_in_bounds(),
        ensures
            r.num() == self.num(),
            r.wf(),
            r.preds_in_bounds(),
            forall|t: int| 0 <= t < self.num() ==> #[trigger] r.preds_of(t) == self.preds_into(t, self.num() as int),
            forall|s: int| 0 <= s < self.num() ==> r.accepts(s) == self.accepts(s),
            forall|s: int, t: int, rg: CharRange|
                0 <= s < self.num() && 0 <= t < self.num() ==> (#[trigger] r.has_range_edge(t, rg, s)
                    <==> self.has_range_edge(s, rg, t)),
            forall|s: int, t: int|
                0 <= s < self.num() && 0 <= t < self.num() ==> (#[trigger] r.has_eps_edge(t, s)
                    <==> self.has_eps_edge(s, t)),
            forall|t: int| 0 <= t < self.num() ==> #[trigger] r.ranges_of(t) == self.ranges_into(t, self.num() as int),
            forall|t: int| 0 <= t < self.num() ==> #[trigger] r.eps_of(t) == self.eps_into(t, self.num() as int),
    {
        let n = self.states.len();
        let mut ret = Nfa::with_capacity(n);
        let mut i: usize = 0;
        while i < n
            invariant
                n == self.num(),
                i <= n,
                ret.num() == i,
                forall|s: int| 0 <= s < i ==> ret.accepts(s) == self.accepts(s),
                forall|s: int| 0 <= s < i ==> (#[trigger] ret.ranges_of(s)).len() == 0,
                forall|s: int| 0 <= s < i ==> (#[trigger] ret.eps_of(s)).len() == 0,
                forall|s: int| 0 <= s < i ==> (#[trigger] ret.preds_of(s)).len() == 0,
            decreases n - i,
        {
            ret.add_state(self.states[i].accepting);
            i = i + 1;
        }
        proof {
            assert forall|s: int, t: int|
                0 <= s < n && 0 <= t < n implies !#[trigger] ret.has_eps_edge(t, s) by {
                assert(ret.eps_of(t).len() == 0);
            }
            assert forall|s: int, t: int, rg: CharRange|
                0 <= s < n && 0 <= t < n implies !#[trigger] ret.has_range_edge(t, rg, s) by {
                assert(ret.ranges_of(t).len() == 0);
            }
            assert forall|s: int, m: int|
                0 <= s < ret.num() && 0 <= m < ret.eps_of(s).len() implies #[trigger] ret.eps_of(s)[m] < ret.num() by {
                assert(ret.eps_of(s).len() == 0);
            }
            assert forall|s: int, m: int|
                0 <= s < ret.num() && 0 <= m < ret.ranges_of(s).len() implies #[trigger] ret.ranges_of(s)[m].1 < ret.num() by {
                assert(ret.ranges_of(s).len() == 0);
            }
            assert forall|s: int| 0 <= s < n implies nonempty_ranges(#[trigger] ret.ranges_of(s)) by {
                assert(ret.ranges_of(s).len() == 0);
            }
            assert forall|t: int| 0 <= t < n implies #[trigger] ret.ranges_of(t) == self.ranges_into(t, 0) by {
                assert(ret.ranges_of(t) =~= self.ranges_into(t, 0));
            }
            assert forall|t: int| 0 <= t < n implies #[trigger] ret.eps_of(t) == self.eps_into(t, 0) by {
                assert(ret.eps_of(t) =~= self.eps_into(t, 0));
            }
        }
        let mut idx: usize = 0;
        while idx < n
            invariant
                self.wf(),
                n == self.num(),
                idx <= n,
                ret.num() == n,
                ret.edges_in_bounds(),
                forall|s: int| 0 <= s < n ==> nonempty_ranges(#[trigger] ret.ranges_of(s)),
                forall|s: int| 0 <= s < n ==> ret.accepts(s) == self.accepts(s),
                forall|s: int, t: int, rg: CharRange|
                    0 <= s < n && 0 <= t < n ==> (#[trigger] ret.has_range_edge(t, rg, s) <==> (s < idx
                        && self.has_range_edge(s, rg, t))),
                forall|s: int, t: int|
                    0 <= s < n && 0 <= t < n ==> (#[trigger] ret.has_eps_edge(t, s) <==> (s < idx
                        && self.has_eps_edge(s, t))),
                forall|t: int| 0 <= t < n ==> #[trigger] ret.ranges_of(t) == self.ranges_into(t, idx as int),
                forall|t: int| 0 <= t < n ==> #[trigger] ret.eps_of(t) == self.eps_into(t, idx as int),
                forall|t: int| 0 <= t < n ==> (#[trigger] ret.preds_of(t)).len() == 0,
            decreases n - idx,
        {
            let rs = &self.states[idx].ranges;
            let mut k: usize = 0;
            proof {
                assert forall|t: int| 0 <= t < n implies #[trigger] ret.ranges_of(t) == self.ranges_into(t, idx as int)
                    + row_into(rs@, t, idx as int, 0) by {
                    assert(ret.ranges_of(t) =~= self.ranges_into(t, idx as int) + row_into(rs@, t, idx as int, 0));
                }
            }
            while k < rs.len()
                invariant
                    self.wf(),
                    n == self.num(),
                    idx < n,
                    rs@ == self.ranges_of(idx as int),
                    k <= rs@.len(),
                    ret.num() == n,
                    ret.edges_in_bounds(),
                    forall|s: int| 0 <= s < n ==> nonempty_ranges(#[trigger] ret.ranges_of(s)),
                    forall|s: int| 0 <= s < n ==> ret.accepts(s) == self.accepts(s),
                    forall|s: int, t: int, rg: CharRange|
                        0 <= s < n && 0 <= t < n ==> (#[trigger] ret.has_range_edge(t, rg, s) <==> ((s < idx
                            && self.has_range_edge(s, rg, t)) || (s == idx && exists|m: int|
                            0 <= m < k && #[trigger] rs@[m] == (rg, t as usize)))),
                    forall|s: int, t: int|
                        0 <= s < n && 0 <= t < n ==> (#[trigger] ret.has_eps_edge(t, s) <==> (s < idx
                            && self.has_eps_edge(s, t))),
                    forall|t: int| 0 <= t < n ==> #[trigger] ret.ranges_of(t) == self.ranges_into(t, idx as int)
                        + row_into(rs@, t, idx as int, k as int),
                    forall|t: int| 0 <= t < n ==> #[trigger] ret.eps_of(t) == self.eps_into(t, idx as int),
                    forall|t: int| 0 <= t < n ==> (#[trigger] ret.preds_of(t)).len() == 0,
                decreases rs@.len() - k,
            {
                let (range, target) = rs[k];
                proof {
                    assert(target < n);
                    assert(nonempty_ranges(self.ranges_of(idx as int)));
                    assert(range.start <= range.end);
                }
                let ghost r0 = ret;
                ret.add_transition(target, idx, range);
                proof {
                    assert forall|t: int| 0 <= t < n implies (#[trigger] ret.preds_of(t)).len() == 0 by {
                        assert(ret.preds_of(t) == r0.preds_of(t));
                    }
                    assert forall|t: int| 0 <= t < n implies #[trigger] ret.ranges_of(t) == self.ranges_into(t, idx as int)
                        + row_into(rs@, t, idx as int, k + 1) by {
                        assert(r0.ranges_of(t) == self.ranges_into(t, idx as int) + row_into(rs@, t, idx as int, k as int));
                        if t == target {
                            assert(ret.ranges_of(t) =~= self.ranges_into(t, idx as int) + row_into(rs@, t, idx as int, k + 1));
                        } else {
                            assert(ret.ranges_of(t) == r0.ranges_of(t));
                        }
                    }
                    assert forall|t: int| 0 <= t < n implies #[trigger] ret.eps_of(t) == self.eps_into(t, idx as int) by {
                        assert(ret.eps_of(t) == r0.eps_of(t));
                    }
                    assert forall|s: int, t: int, rg: CharRange|
                        0 <= s < n && 0 <= t < n implies (#[trigger] ret.has_range_edge(t, rg, s) <==> ((s < idx
                            && self.has_range_edge(s, rg, t)) || (s == idx && exists|m: int|
                            0 <= m < k + 1 && #[trigger] rs@[m] == (rg, t as usize)))) by {
                        if t != target {
                            assert(ret.ranges_of(t) == r0.ranges_of(t));
                            assert(ret.has_range_edge(t, rg, s) == r0.has_range_edge(t, rg, s));
                        } else {
                            let old_e = r0.ranges_of(t);
                            assert(ret.ranges_of(t) == old_e.push((range, idx)));
                            if ret.has_range_edge(t, rg, s) {
                                let m = choose|m: int| 0 <= m < ret.ranges_of(t).len() && #[trigger] ret.ranges_of(t)[m] == (rg, s as usize);
                                if m < old_e.len() {
                                    assert(old_e[m] == (rg, s as usize));
                                    assert(r0.has_range_edge(t, rg, s));
                                } else {
                                    assert(rs@[k as int] == (rg, t as usize));
                                }
                            }
                            if r0.has_range_edge(t, rg, s) {
                                let m = choose|m: int| 0 <= m < old_e.len() && #[trigger] old_e[m] == (rg, s as usize);
                                assert(ret.ranges_of(t)[m] == (rg, s as usize));
                            }
                            if s == idx && rs@[k as int] == (rg, t as usize) {
                                assert(ret.ranges_of(t)[old_e.len() as int] == (rg, s as usize));
                            }
                        }
                    }
                    assert forall|s: int, t: int|
                        0 <= s < n && 0 <= t < n implies (#[trigger] ret.has_eps_edge(t, s) <==> r0.has_eps_edge(t, s)) by {
                        assert(ret.eps_of(t) == r0.eps_of(t));
                    }
                    assert forall|s: int| 0 <= s < n implies nonempty_ranges(#[trigger] ret.ranges_of(s)) by {
                        if s == target {
                            assert(ret.ranges_of(s) == r0.ranges_of(s).push((range, idx)));
                        } else {
                            assert(ret.ranges_of(s) == r0.ranges_of(s));
                        }
                    }
                    assert forall|s: int, m: int|
                        0 <= s < ret.num() && 0 <= m < ret.ranges_of(s).len() implies #[trigger] ret.ranges_of(s)[m].1 < ret.num() by {
                        if s == target {
                            assert(ret.ranges_of(s) == r0.ranges_of(s).push((range, idx)));
                        } else {
                            assert(ret.ranges_of(s) == r0.ranges_of(s));
                        }
                    }
                    assert forall|s: int, m: int|
                        0 <= s < ret.num() && 0 <= m < ret.eps_of(s).len() implies #[trigger] ret.eps_of(s)[m] < ret.num() by {
                        assert(ret.eps_of(s) == r0.eps_of(s));
                    }
                }
                k = k + 1;
            }
            let es = &self.states[idx].eps;
            let mut k: usize = 0;
            proof {
                assert forall|t: int| 0 <= t < n implies #[trigger] ret.ranges_of(t) == self.ranges_into(t, idx + 1) by {
                    assert(ret.ranges_of(t) == self.ranges_into(t, idx as int) + row_into(rs@, t, idx as int, rs@.len() as int));
                }
                assert forall|t: int| 0 <= t < n implies #[trigger] ret.eps_of(t) == self.eps_into(t, idx as int)
                    + eps_row(es@, t, idx as int, 0) by {
                    assert(ret.eps_of(t) =~= self.eps_into(t, idx as int) + eps_row(es@, t, idx as int, 0));
                }
                assert forall|s: int, t: int, rg: CharRange|
                    0 <= s < n && 0 <= t < n implies (#[trigger] ret.has_range_edge(t, rg, s) <==> (s < idx + 1
                        && self.has_range_edge(s, rg, t))) by {
                    if s == idx {
                        if self.has_range_edge(s, rg, t) {
                            let m = choose|m: int| 0 <= m < self.ranges_of(s).len() && #[trigger] self.ranges_of(s)[m] == (rg, t as usize);
                            assert(rs@[m] == (rg, t as usize));
                        }
                    }
                }
            }
            while k < es.len()
                invariant
                    self.wf(),
                    n == self.num(),
                    idx < n,
                    es@ == self.eps_of(idx as int),
                    k <= es@.len(),
                    ret.num() == n,
                    ret.edges_in_bounds(),
                    forall|s: int| 0 <= s < n ==> nonempty_ranges(#[trigger] ret.ranges_of(s)),
                    forall|s: int| 0 <= s < n ==> ret.accepts(s) == self.accepts(s),
                    forall|s: int, t: int, rg: CharRange|
                        0 <= s < n && 0 <= t < n ==> (#[trigger] ret.has_range_edge(t, rg, s) <==> (s < idx + 1
                            && self.has_range_edge(s, rg, t))),
                    forall|s: int, t: int|
                        0 <= s < n && 0 <= t < n ==> (#[trigger] ret.has_eps_edge(t, s) <==> ((s < idx
                            && self.has_eps_edge(s, t)) || (s == idx && exists|m: int|
                            0 <= m < k && #[trigger] es@[m] == t as usize))),
                    forall|t: int| 0 <= t < n ==> #[trigger] ret.ranges_of(t) == self.ranges_into(t, idx + 1),
                    forall|t: int| 0 <= t < n ==> #[trigger] ret.eps_of(t) == self.eps_into(t, idx as int)
                        + eps_row(es@, t, idx as int, k as int),
                    forall|t: int| 0 <= t < n ==> (#[trigger] ret.preds_of(t)).len() == 0,
                decreases es@.len() - k,
            {
                let target = es[k];
                proof {
                    assert(target < n);
                }
                let ghost r0 = ret;
                ret.add_eps(target, idx);
                proof {
                    assert forall|t: int| 0 <= t < n implies (#[trigger] ret.preds_of(t)).len() == 0 by {
                        assert(ret.preds_of(t) == r0.preds_of(t));
                    }
                    assert forall|t: int| 0 <= t < n implies #[trigger] ret.eps_of(t) == self.eps_into(t, idx as int)
                        + eps_row(es@, t, idx as int, k + 1) by {
                        assert(r0.eps_of(t) == self.eps_into(t, idx as int) + eps_row(es@, t, idx as int, k as int));
                        if t == target {
                            assert(ret.eps_of(t) =~= self.eps_into(t, idx as int) + eps_row(es@, t, idx as int, k + 1));
                        } else {
                            assert(ret.eps_of(t) == r0.eps_of(t));
                        }
                    }
                    assert forall|t: int| 0 <= t < n implies #[trigger] ret.ranges_of(t) == self.ranges_into(t, idx + 1) by {
                        assert(ret.ranges_of(t) == r0.ranges_of(t));
                    }
                    assert forall|s: int, t: int|
                        0 <= s < n && 0 <= t < n implies (#[trigger] ret.has_eps_edge(t, s) <==> ((s < idx
                            && self.has_eps_edge(s, t)) || (s == idx && exists|m: int|
                            0 <= m < k + 1 && #[trigger] es@[m] == t as usize))) by {
                        if t != target {
                            assert(ret.eps_of(t) == r0.eps_of(t));
                            assert(ret.has_eps_edge(t, s) == r0.has_eps_edge(t, s));
                        } else {
                            let old_e = r0.eps_of(t);
                            assert(ret.eps_of(t) == old_e.push(idx));
                            if ret.has_eps_edge(t, s) {
                                let m = choose|m: int| 0 <= m < ret.eps_of(t).len() && #[trigger] ret.eps_of(t)[m] == s as usize;
                                if m < old_e.len() {
                                    assert(old_e[m] == s as usize);
                                    assert(r0.has_eps_edge(t, s));
                                } else {
                                    assert(es@[k as int] == t as usize);
                                }
                            }
                            if r0.has_eps_edge(t, s) {
                                let m = choose|m: int| 0 <= m < old_e.len() && #[trigger] old_e[m] == s as usize;
                                assert(ret.eps_of(t)[m] == s as usize);
                            }
                            if s == idx && es@[k as int] == t as usize {
                                assert(ret.eps_of(t)[old_e.len() as int] == s as usize);
                            }
                        }
                    }
                    assert forall|s: int, t: int, rg: CharRange|
                        0 <= s < n && 0 <= t < n implies (#[trigger] ret.has_range_edge(t, rg, s) <==> r0.has_range_edge(t, rg, s)) by {
                        assert(ret.ranges_of(t) == r0.ranges_of(t));
                    }
                    assert forall|s: int| 0 <= s < n implies nonempty_ranges(#[trigger] ret.ranges_of(s)) by {
                        assert(ret.ranges_of(s) == r0.ranges_of(s));
                    }
                    assert forall|s: int, m: int|
                        0 <= s < ret.num() && 0 <= m < ret.ranges_of(s).len() implies #[trigger] ret.ranges_of(s)[m].1 < ret.num() by {
                        assert(ret.ranges_of(s) == r0.ranges_of(s));
                    }
                    assert forall|s: int, m: int|
                        0 <= s < ret.num() && 0 <= m < ret.eps_of(s).len() implies #[trigger] ret.eps_of(s)[m] < ret.num() by {
                        if s == target {
                            assert(ret.eps_of(s) == r0.eps_of(s).push(idx));
                        } else {
                            assert(ret.eps_of(s) == r0.eps_of(s));
                        }
                    }
                }
                k = k + 1;
            }
            proof {
                assert forall|s: int, t: int|
                    0 <= s < n && 0 <= t < n implies (#[trigger] ret.has_eps_edge(t, s) <==> (s < idx + 1
                        && self.has_eps_edge(s, t))) by {
                    if s == idx {
                        if self.has_eps_edge(s, t) {
                            let m = choose|m: int| 0 <= m < self.eps_of(s).len() && #[trigger] self.eps_of(s)[m] == t as usize;
                            assert(es@[m] == t as usize);
                        }
                    }
                }
            }
            proof {
                assert forall|t: int| 0 <= t < n implies #[trigger] ret.eps_of(t) == self.eps_into(t, idx + 1) by {
                    assert(ret.eps_of(t) == self.eps_into(t, idx as int) + eps_row(es@, t, idx as int, es@.len() as int));
                }
            }
            idx = idx + 1;
        }
        let mut idx: usize = 0;
        proof {
            assert forall|t: int| 0 <= t < n implies #[trigger] ret.preds_of(t) == self.preds_into(t, 0) by {
                assert(ret.preds_of(t) =~= self.preds_into(t, 0));
            }
        }
        while idx < n
            invariant
                self.wf(),
                self.preds_in_bounds(),
                n == self.num(),
                idx <= n,
                ret.num() == n,
                ret.wf(),
                ret.preds_in_bounds(),
                forall|s: int| 0 <= s < n ==> ret.accepts(s) == self.accepts(s),
                forall|t: int| 0 <= t < n ==> #[trigger] ret.ranges_of(t) == self.ranges_into(t, n as int),
                forall|t: int| 0 <= t < n ==> #[trigger] ret.eps_of(t) == self.eps_into(t, n as int),
                forall|s: int, t: int, rg: CharRange|
                    0 <= s < n && 0 <= t < n ==> (#[trigger] ret.has_range_edge(t, rg, s) <==> self.has_range_edge(s, rg, t)),
                forall|s: int, t: int|
                    0 <= s < n && 0 <= t < n ==> (#[trigger] ret.has_eps_edge(t, s) <==> self.has_eps_edge(s, t)),
                forall|t: int| 0 <= t < n ==> #[trigger] ret.preds_of(t) == self.preds_into(t, idx as int),
            decreases n - idx,
        {
            let ps = &self.states[idx].predicates;
            let mut k: usize = 0;
            proof {
                assert forall|t: int| 0 <= t < n implies #[trigger] ret.preds_of(t) == self.preds_into(t, idx as int)
                    + pred_row(ps@, t, idx as int, 0) by {
                    assert(ret.preds_of(t) =~= self.preds_into(t, idx as int) + pred_row(ps@, t, idx as int, 0));
                }
            }
            while k < ps.len()
                invariant
                    self.preds_in_bounds(),
                    n == self.num(),
                    idx < n,
                    ps@ == self.preds_of(idx as int),
                    k <= ps@.len(),
                    ret.num() == n,
                    ret.wf(),
                    ret.preds_in_bounds(),
                    forall|s: int| 0 <= s < n ==> ret.accepts(s) == self.accepts(s),
                    forall|t: int| 0 <= t < n ==> #[trigger] ret.ranges_of(t) == self.ranges_into(t, n as int),
                    forall|t: int| 0 <= t < n ==> #[trigger] ret.eps_of(t) == self.eps_into(t, n as int),
                    forall|s: int, t: int, rg: CharRange|
                        0 <= s < n && 0 <= t < n ==> (#[trigger] ret.has_range_edge(t, rg, s) <==> self.has_range_edge(s, rg, t)),
                    forall|s: int, t: int|
                        0 <= s < n && 0 <= t < n ==> (#[trigger] ret.has_eps_edge(t, s) <==> self.has_eps_edge(s, t)),
                    forall|t: int| 0 <= t < n ==> #[trigger] ret.preds_of(t) == self.preds_into(t, idx as int)
                        + pred_row(ps@, t, idx as int, k as int),
                decreases ps@.len() - k,
            {
                let (pred, target) = ps[k];
                proof {
                    assert(self.preds_of(idx as int)[k as int].1 < n);
                }
                let ghost r0 = ret;
                ret.add_predicate(target, idx, pred);
                proof {
                    assert forall|t: int| 0 <= t < n implies #[trigger] ret.preds_of(t) == self.preds_into(t, idx as int)
                        + pred_row(ps@, t, idx as int, k + 1) by {
                        assert(r0.preds_of(t) == self.preds_into(t, idx as int) + pred_row(ps@, t, idx as int, k as int));
                        if t == target {
                            assert(ret.preds_of(t) =~= self.preds_into(t, idx as int) + pred_row(ps@, t, idx as int, k + 1));
                        } else {
                            assert(ret.preds_of(t) == r0.preds_of(t));
                        }
                    }
                    assert forall|t: int| 0 <= t < n implies #[trigger] ret.ranges_of(t) == self.ranges_into(t, n as int) by {
                        assert(ret.ranges_of(t) == r0.ranges_of(t));
                    }
                    assert forall|t: int| 0 <= t < n implies #[trigger] ret.eps_of(t) == self.eps_into(t, n as int) by {
                        assert(ret.eps_of(t) == r0.eps_of(t));
                    }
                    assert forall|s: int, t: int, rg: CharRange|
                        0 <= s < n && 0 <= t < n implies (#[trigger] ret.has_range_edge(t, rg, s) <==> r0.has_range_edge(t, rg, s)) by {
                        assert(ret.ranges_of(t) == r0.ranges_of(t));
                    }
                    assert forall|s: int, t: int|
                        0 <= s < n && 0 <= t < n implies (#[trigger] ret.has_eps_edge(t, s) <==> r0.has_eps_edge(t, s)) by {
                        assert(ret.eps_of(t) == r0.eps_of(t));
                    }
                }
                k = k + 1;
            }
            proof {
                assert forall|t: int| 0 <= t < n implies #[trigger] ret.preds_of(t) == self.preds_into(t, idx + 1) by {
                    assert(ret.preds_of(t) == self.preds_into(t, idx as int) + pred_row(ps@, t, idx as int, ps@.len() as int));
                }
            }
            idx = idx + 1;
        }
        ret
    }
}

impl<P: Predicate> Nfa<P> {
    /// `e` is a predicate transition out of a member of `x`.
    pub open spec fn is_pred_edge_of(&self, x: Set<int>, e: (P, usize)) -> bool {
        exists|s: int, k: int|
            x.contains(s) && 0 <= s < self.num() && 0 <= k < self.preds_of(s).len() && #[trigger] self.preds_of(s)[k] == e
    }

    /// The predicate transitions out of members of `states`.
    pub fn predicates(&self, states: &StateSet) -> (r: Vec<(P, usize)>)
        requires
            self.preds_in_bounds(),
            self.in_bounds(members(*states)),
        ensures
            forall|j: int| 0 <= j < r@.len() ==> (#[trigger] r@[j]).1 < self.num(),
            forall|e: (P, usize)| r@.contains(e) <==> self.is_pred_edge_of(members(*states), e),
    {
        let ghost x = members(*states);
        let v = to_vec(states);
        let mut ret: Vec<(P, usize)> = Vec::new();
        let mut i: usize = 0;
        while i < v.len()
            invariant
                i <= v@.len(),
                self.preds_in_bounds(),
                self.in_bounds(x),
                x == members(*states),
                forall|y: int| x.contains(y) <==> exists|j: int| 0 <= j < v@.len() && v@[j] == y,
                forall|j: int| 0 <= j < ret@.len() ==> (#[trigger] ret@[j]).1 < self.num(),
                forall|e: (P, usize)|
                    #![trigger ret@.contains(e)]
                    ret@.contains(e) <==> exists|j: int, k: int|
                        0 <= j < i && 0 <= k < self.preds_of(v@[j] as int).len() && #[trigger] self.preds_of(
                            v@[j] as int,
                        )[k] == e,
            decreases v@.len() - i,
        {
            let s = v[i];
            proof {
                assert(x.contains(s as int));
            }
            let ps = &self.states[s].predicates;
            let mut k: usize = 0;
            while k < ps.len()
                invariant
                    k <= ps@.len(),
                    i < v@.len(),
                    s == v@[i as int],
                    s < self.num(),
                    ps@ == self.preds_of(s as int),
                    self.preds_in_bounds(),
                    forall|j: int| 0 <= j < ret@.len() ==> (#[trigger] ret@[j]).1 < self.num(),
                    forall|e: (P, usize)|
                        #![trigger ret@.contains(e)]
                        ret@.contains(e) <==> (exists|j: int, k2: int|
                            0 <= j < i && 0 <= k2 < self.preds_of(v@[j] as int).len() && #[trigger] self.preds_of(
                                v@[j] as int,
                            )[k2] == e) || ps@.take(k as int).contains(e),
                decreases ps@.len() - k,
            {
                let ghost before = ret@;
                ret.push(ps[k]);
                proof {
                    assert(self.preds_of(s as int)[k as int].1 < self.num());
                    assert forall|e: (P, usize)| ret@.contains(e) <==> (before.contains(e) || e == ps@[k as int]) by {
                        if ret@.contains(e) {
                            let m = choose|m: int| 0 <= m < ret@.len() && ret@[m] == e;
                            if m < before.len() {
                                assert(before[m] == e);
                            }
                        }
                        if before.contains(e) {
                            let m = choose|m: int| 0 <= m < before.len() && before[m] == e;
                            assert(ret@[m] == e);
                        }
                        if e == ps@[k as int] {
                            assert(ret@[ret@.len() - 1] == e);
                        }
                    }
                    let t1 = ps@.take(k + 1);
                    let t0 = ps@.take(k as int);
                    assert forall|e: (P, usize)| t1.contains(e) <==> (t0.contains(e) || e == ps@[k as int]) by {
                        if t1.contains(e) {
                            let m = choose|m: int| 0 <= m < t1.len() && #[trigger] t1[m] == e;
                            if m < k {
                                assert(t0[m] == e);
                            }
                        }
                        if t0.contains(e) {
                            let m = choose|m: int| 0 <= m < t0.len() && #[trigger] t0[m] == e;
                            assert(t1[m] == e);
                        }
                        if e == ps@[k as int] {
                            assert(t1[k as int] == e);
                        }
                    }
                    assert forall|e: (P, usize)|
                        #![trigger ret@.contains(e)]
                        ret@.contains(e) <==> (exists|j: int, k2: int|
                            0 <= j < i && 0 <= k2 < self.preds_of(v@[j] as int).len() && #[trigger] self.preds_of(
                                v@[j] as int,
                            )[k2] == e) || t1.contains(e) by {
                        assert(before.contains(e) <==> (exists|j: int, k2: int|
                            0 <= j < i && 0 <= k2 < self.preds_of(v@[j] as int).len() && #[trigger] self.preds_of(
                                v@[j] as int,
                            )[k2] == e) || t0.contains(e));
                    }
                }
                k = k + 1;
            }
            proof {
                assert forall|e: (P, usize)|
                    #![trigger ret@.contains(e)]
                    ret@.contains(e) <==> exists|j: int, k2: int|
                        0 <= j < i + 1 && 0 <= k2 < self.preds_of(v@[j] as int).len() && #[trigger] self.preds_of(
                            v@[j] as int,
                        )[k2] == e by {
                    assert(ps@.take(ps@.len() as int) =~= ps@);
                    if ps@.contains(e) {
                        let k2 = choose|k2: int| 0 <= k2 < ps@.len() && ps@[k2] == e;
                        assert(self.preds_of(v@[i as int] as int)[k2] == e);
                    }
                    if exists|j: int, k2: int|
                        0 <= j < i + 1 && 0 <= k2 < self.preds_of(v@[j] as int).len() && #[trigger] self.preds_of(
                            v@[j] as int,
                        )[k2] == e {
                        let (j, k2) = choose|j: int, k2: int|
                            0 <= j < i + 1 && 0 <= k2 < self.preds_of(v@[j] as int).len() && #[trigger] self.preds_of(
                                v@[j] as int,
                            )[k2] == e;
                        if j == i {
                            assert(ps@[k2] == e);
                            assert(ps@.contains(e));
                        }
                    }
                }
            }
            i = i + 1;
        }
        proof {
            assert forall|e: (P, usize)| ret@.contains(e) <==> self.is_pred_edge_of(x, e) by {
                if ret@.contains(e) {
                    let (j, k2) = choose|j: int, k2: int|
                        0 <= j < v@.len() && 0 <= k2 < self.preds_of(v@[j] as int).len() && #[trigger] self.preds_of(
                            v@[j] as int,
                        )[k2] == e;
                    assert(x.contains(v@[j] as int));
                }
                if self.is_pred_edge_of(x, e) {
                    let (s2, k2) = choose|s2: int, k2: int|
                        x.contains(s2) && 0 <= s2 < self.num() && 0 <= k2 < self.preds_of(s2).len() && #[trigger] self.preds_of(s2)[k2] == e;
                    let j = choose|j: int| 0 <= j < v@.len() && v@[j] == s2;
                    assert(self.preds_of(v@[j] as int)[k2] == e);
                }
            }
        }
        ret
    }

    /// Removes the predicate transitions that leave the states present at the start, once: for
    /// each transition from `a` to `b` under a predicate it adds a new state, copies to it the
    /// transitions into the eps-closure of `a` and out of the eps-closure of `b` that the
    /// predicate keeps, and carries over the predicate transitions found there, intersected with
    /// this one. Returns whether any state was added; where none was, no predicate transition is
    /// left.
    pub fn remove_predicates_once(&mut self) -> (r: bool)
        requires
            old(self).wf(),
            old(self).preds_in_bounds(),
        ensures
            final(self).wf(),
            final(self).preds_in_bounds(),
            final(self).num() >= old(self).num(),
            forall|s: int| 0 <= s < old(self).num() ==> #[trigger] final(self).accepts(s) == old(self).accepts(s),
            forall|s: int| 0 <= s < old(self).num() ==> #[trigger] final(self).eps_of(s) == old(self).eps_of(s),
            forall|s: int| old(self).num() <= s < final(self).num() ==> !#[trigger] final(self).accepts(s),
            forall|s: int| old(self).num() <= s < final(self).num() ==> (#[trigger] final(self).eps_of(s)).len() == 0,
            forall|s: int| 0 <= s < old(self).num() ==> extends(old(self).ranges_of(s), #[trigger] final(self).ranges_of(s)),
            forall|s: int, k: int|
                0 <= s < old(self).num() && 0 <= k < final(self).preds_of(s).len() ==> #[trigger] final(self).preds_of(s)[k].1
                    >= old(self).num(),
            r == (final(self).num() > old(self).num()),
            r == old(self).has_predicates(),
            forall|s: int, k: int|
                0 <= s < old(self).num() && old(self).ranges_of(s).len() <= k < final(self).ranges_of(s).len()
                    ==> #[trigger] final(self).ranges_of(s)[k].1 >= old(self).num(),
            final(self).num() >= old(self).num() + old(self).pred_total(old(self).num() as int),
            !r ==> final(self).no_predicates(),
            !r ==> final(self).num() == old(self).num() && forall|s: int|
                0 <= s < old(self).num() ==> #[trigger] final(self).ranges_of(s) == old(self).ranges_of(s)
                    && final(self).preds_of(s) == old(self).preds_of(s),
    {
        let orig_len = self.states.len();
        let mut reversed = self.reversed();
        let mut idx: usize = 0;
        while idx < orig_len
            invariant
                orig_len == old(self).num(),
                idx <= orig_len,
                self.num() >= orig_len,
                self.wf(),
                self.preds_in_bounds(),
                reversed.wf(),
                reversed.preds_in_bounds(),
                reversed.num() == self.num(),
                forall|s: int| 0 <= s < orig_len ==> #[trigger] self.accepts(s) == old(self).accepts(s),
                forall|s: int| 0 <= s < orig_len ==> #[trigger] self.eps_of(s) == old(self).eps_of(s),
                forall|s: int| 0 <= s < orig_len ==> extends(old(self).ranges_of(s), #[trigger] self.ranges_of(s)),
                forall|s: int, k: int|
                    0 <= s < orig_len && old(self).ranges_of(s).len() <= k < self.ranges_of(s).len()
                        ==> #[trigger] self.ranges_of(s)[k].1 >= orig_len,
                forall|s: int| idx <= s < orig_len ==> extends(old(self).preds_of(s), #[trigger] self.preds_of(s)),
                self.num() >= orig_len + old(self).pred_total(idx as int),
                self.num() > orig_len ==> old(self).has_predicates(),
                self.num() == orig_len ==> forall|s: int| 0 <= s < orig_len ==> #[trigger] self.ranges_of(s) == old(self).ranges_of(s),
                self.num() == orig_len ==> forall|s: int| 0 <= s < idx ==> (#[trigger] old(self).preds_of(s)).len() == 0,
                self.num() == orig_len ==> forall|s: int| idx <= s < orig_len ==> #[trigger] self.preds_of(s) == old(self).preds_of(s),
                forall|s: int, k: int| 0 <= s < idx && 0 <= k < self.preds_of(s).len() ==> #[trigger] self.preds_of(s)[k].1 >= orig_len,
                forall|s: int| orig_len <= s < self.num() ==> !#[trigger] self.accepts(s),
                forall|s: int| orig_len <= s < self.num() ==> (#[trigger] self.eps_of(s)).len() == 0,
                self.num() == orig_len ==> forall|s: int| 0 <= s < idx ==> (#[trigger] self.preds_of(s)).len() == 0,
            decreases orig_len - idx,
        {
            let ghost before = *self;
            let preds = self.take_predicates(idx);
            // The same transitions leave the reversed copy too.
            let mut d: usize = 0;
            while d < preds.len()
                invariant
                    orig_len == old(self).num(),
                    idx < orig_len,
                    orig_len <= reversed.num(),
                    reversed.wf(),
                    reversed.preds_in_bounds(),
                    reversed.num() == self.num(),
                    forall|s: int| 0 <= s < orig_len ==> #[trigger] self.accepts(s) == old(self).accepts(s),
                    forall|s: int| 0 <= s < orig_len ==> #[trigger] self.eps_of(s) == old(self).eps_of(s),
                    forall|s: int| 0 <= s < orig_len ==> extends(old(self).ranges_of(s), #[trigger] self.ranges_of(s)),
                forall|s: int, k: int|
                    0 <= s < orig_len && old(self).ranges_of(s).len() <= k < self.ranges_of(s).len()
                        ==> #[trigger] self.ranges_of(s)[k].1 >= orig_len,
                    self.num() == before.num(),
                    forall|s: int| 0 <= s < self.num() ==> #[trigger] self.ranges_of(s) == before.ranges_of(s),
                    forall|s: int| 0 <= s < self.num() && s != idx ==> #[trigger] self.preds_of(s) == before.preds_of(s),
                    forall|s: int, k: int| 0 <= s < idx && 0 <= k < self.preds_of(s).len() ==> #[trigger] self.preds_of(s)[k].1 >= orig_len,
                    forall|s: int| orig_len <= s < self.num() ==> !#[trigger] self.accepts(s),
                    forall|s: int| orig_len <= s < self.num() ==> (#[trigger] self.eps_of(s)).len() == 0,
                    self.preds_in_bounds(),
                    preds@ == before.preds_of(idx as int),
                    before.preds_in_bounds(),
                    before.num() == self.num(),
                decreases preds@.len() - d,
            {
                proof {
                    assert(before.preds_of(idx as int)[d as int].1 < before.num());
                }
                reversed.drop_predicates_to(preds[d].1, idx);
                d = d + 1;
            }
            proof {
                assert(extends(old(self).preds_of(idx as int), before.preds_of(idx as int)));
                assert forall|s: int| idx < s < orig_len implies extends(old(self).preds_of(s), #[trigger] self.preds_of(s)) by {
                    assert(self.preds_of(s) == before.preds_of(s));
                    assert(extends(old(self).preds_of(s), before.preds_of(s)));
                }
                if self.num() == orig_len {
                    assert(before.preds_of(idx as int) == old(self).preds_of(idx as int));
                    assert forall|s: int| 0 <= s < orig_len implies #[trigger] self.ranges_of(s) == old(self).ranges_of(s) by {
                        assert(before.ranges_of(s) == old(self).ranges_of(s));
                    }
                    assert forall|s: int| idx < s < orig_len implies #[trigger] self.preds_of(s) == old(self).preds_of(s) by {
                        assert(before.preds_of(s) == old(self).preds_of(s));
                    }
                }
                assert forall|s: int| 0 <= s < idx + 1 && self.num() == orig_len implies (#[trigger] self.preds_of(s)).len() == 0 by {
                    if s < idx {
                        assert(self.preds_of(s) == before.preds_of(s));
                    }
                }
            }
            proof {
                assert forall|s: int, k: int| 0 <= s <= idx && 0 <= k < self.preds_of(s).len() implies #[trigger] self.preds_of(s)[k].1 >= orig_len by {
                    assert(self.preds_of(s) == before.preds_of(s));
                }
            }
            let mut j: usize = 0;
            while j < preds.len()
                invariant
                    orig_len == old(self).num(),
                    idx < orig_len,
                    self.num() >= orig_len,
                    self.wf(),
                    self.preds_in_bounds(),
                    reversed.wf(),
                    reversed.preds_in_bounds(),
                    reversed.num() == self.num(),
                    forall|s: int| 0 <= s < orig_len ==> #[trigger] self.accepts(s) == old(self).accepts(s),
                    forall|s: int| 0 <= s < orig_len ==> #[trigger] self.eps_of(s) == old(self).eps_of(s),
                    forall|s: int| 0 <= s < orig_len ==> extends(old(self).ranges_of(s), #[trigger] self.ranges_of(s)),
                forall|s: int, k: int|
                    0 <= s < orig_len && old(self).ranges_of(s).len() <= k < self.ranges_of(s).len()
                        ==> #[trigger] self.ranges_of(s)[k].1 >= orig_len,
                    forall|s: int| idx < s < orig_len ==> extends(old(self).preds_of(s), #[trigger] self.preds_of(s)),
                    extends(old(self).preds_of(idx as int), preds@),
                    self.num() >= orig_len + old(self).pred_total(idx as int) + j,
                    self.num() > orig_len ==> old(self).has_predicates(),
                    self.num() == orig_len ==> preds@ == old(self).preds_of(idx as int),
                    self.num() == orig_len ==> forall|s: int| 0 <= s < orig_len ==> #[trigger] self.ranges_of(s) == old(self).ranges_of(s),
                    self.num() == orig_len ==> forall|s: int| 0 <= s < idx ==> (#[trigger] old(self).preds_of(s)).len() == 0,
                    self.num() == orig_len ==> forall|s: int| idx < s < orig_len ==> #[trigger] self.preds_of(s) == old(self).preds_of(s),
                    forall|s: int, k: int| 0 <= s <= idx && 0 <= k < self.preds_of(s).len() ==> #[trigger] self.preds_of(s)[k].1 >= orig_len,
                    forall|s: int| orig_len <= s < self.num() ==> !#[trigger] self.accepts(s),
                    forall|s: int| orig_len <= s < self.num() ==> (#[trigger] self.eps_of(s)).len() == 0,
                    forall|k: int| 0 <= k < preds@.len() ==> (#[trigger] preds@[k]).1 < self.num(),
                    self.num() == orig_len ==> j == 0 && forall|s: int| 0 <= s < idx + 1 ==> (#[trigger] self.preds_of(s)).len() == 0,
                decreases preds@.len() - j,
            {
                let (pred, target) = preds[j];
                proof {
                    if self.num() == orig_len {
                        assert(old(self).preds_of(idx as int).len() > 0);
                        assert(old(self).has_predicates());
                    }
                }
                let ghost g0 = *self;
                self.add_state(false);
                proof {
                    assert forall|s: int, k: int|
                        0 <= s < orig_len && old(self).ranges_of(s).len() <= k < self.ranges_of(s).len()
                            implies #[trigger] self.ranges_of(s)[k].1 >= orig_len by {
                        assert(self.eps_of(s) == g0.eps_of(s));
                        assert(self.ranges_of(s) == g0.ranges_of(s));
                    }
                    assert forall|s: int| idx < s < orig_len implies extends(old(self).preds_of(s), #[trigger] self.preds_of(s)) by {
                        assert(self.eps_of(s) == g0.eps_of(s));
                        assert(self.preds_of(s) == g0.preds_of(s));
                    }
                    assert forall|s: int| 0 <= s < orig_len implies extends(old(self).ranges_of(s), #[trigger] self.ranges_of(s)) by {
                        assert(extends(old(self).ranges_of(s), g0.ranges_of(s)));
                        assert(self.ranges_of(s) == g0.ranges_of(s));
                    }
                    assert forall|s: int, k: int| 0 <= s <= idx && 0 <= k < self.preds_of(s).len() implies #[trigger] self.preds_of(s)[k].1 >= orig_len by {
                        assert(self.eps_of(s) == g0.eps_of(s));
                                        assert(self.preds_of(s) == g0.preds_of(s));
                    }
                }
                reversed.add_state(false);
                let new_idx = self.states.len() - 1;
                let in_states = reversed.eps_closure_single(idx);
                let out_states = self.eps_closure_single(target);
                let in_trans = reversed.transitions(&in_states);
                let out_trans = self.transitions(&out_states);
                let in_preds = reversed.predicates(&in_states);
                let out_preds = self.predicates(&out_states);
                let (in_kept, out_kept) = pred.filter_transitions(&in_trans, &out_trans);
                let ghost g0 = *self;
                self.connect_into(&mut reversed, &in_kept, new_idx);
                proof {
                    assert forall|s: int| 0 <= s < orig_len implies #[trigger] self.accepts(s) == old(self).accepts(s) by {
                        assert(g0.accepts(s) == old(self).accepts(s));
                    }
                    assert forall|s: int| 0 <= s < orig_len implies #[trigger] self.eps_of(s) == old(self).eps_of(s) by {
                        assert(self.accepts(s) == g0.accepts(s));
                        assert(g0.eps_of(s) == old(self).eps_of(s));
                    }
                    assert forall|s: int| orig_len <= s < self.num() implies !#[trigger] self.accepts(s) by {
                        assert(g0.accepts(s) == self.accepts(s));
                        assert(!g0.accepts(s));
                    }
                    assert forall|s: int| orig_len <= s < self.num() implies (#[trigger] self.eps_of(s)).len() == 0 by {
                        assert(self.accepts(s) == g0.accepts(s));
                        assert(g0.eps_of(s).len() == 0);
                    }
                    assert forall|s: int, k: int| 0 <= s <= idx && 0 <= k < self.preds_of(s).len() implies #[trigger] self.preds_of(s)[k].1 >= orig_len by {
                        assert(self.accepts(s) == g0.accepts(s));
                        assert(self.preds_of(s) == g0.preds_of(s));
                    }
                    assert forall|s: int| idx < s < orig_len implies extends(old(self).preds_of(s), #[trigger] self.preds_of(s)) by {
                        assert(self.accepts(s) == g0.accepts(s));
                        assert(self.preds_of(s) == g0.preds_of(s));
                    }
                    assert forall|s: int| 0 <= s < orig_len implies extends(old(self).ranges_of(s), #[trigger] self.ranges_of(s)) by {
                        assert(self.accepts(s) == g0.accepts(s));
                        assert(extends(old(self).ranges_of(s), g0.ranges_of(s)));
                        assert(extends(g0.ranges_of(s), self.ranges_of(s)));
                        assert forall|k: int| 0 <= k < old(self).ranges_of(s).len() implies #[trigger] self.ranges_of(s)[k] == old(self).ranges_of(s)[k] by {
                            assert(self.ranges_of(s)[k] == g0.ranges_of(s)[k]);
                        }
                    }
                    assert forall|s: int, k: int|
                        0 <= s < orig_len && old(self).ranges_of(s).len() <= k < self.ranges_of(s).len()
                            implies #[trigger] self.ranges_of(s)[k].1 >= orig_len by {
                        assert(self.accepts(s) == g0.accepts(s));
                        assert(extends(g0.ranges_of(s), self.ranges_of(s)));
                        if k < g0.ranges_of(s).len() {
                            assert(self.ranges_of(s)[k] == g0.ranges_of(s)[k]);
                            assert(g0.ranges_of(s)[k].1 >= orig_len);
                        } else {
                            assert(self.ranges_of(s)[k].1 == new_idx);
                        }
                    }
                }
                let mut c: usize = 0;
                while c < in_preds.len()
                    invariant
                        orig_len == old(self).num(),
                        self.num() > orig_len,
                        new_idx < self.num(),
                        new_idx >= orig_len,
                        idx < orig_len,
                        self.wf(),
                        self.preds_in_bounds(),
                        reversed.wf(),
                        reversed.preds_in_bounds(),
                        reversed.num() == self.num(),
                        forall|s: int| 0 <= s < orig_len ==> #[trigger] self.accepts(s) == old(self).accepts(s),
                        forall|s: int| 0 <= s < orig_len ==> #[trigger] self.eps_of(s) == old(self).eps_of(s),
                        forall|s: int| 0 <= s < orig_len ==> extends(old(self).ranges_of(s), #[trigger] self.ranges_of(s)),
                forall|s: int, k: int|
                    0 <= s < orig_len && old(self).ranges_of(s).len() <= k < self.ranges_of(s).len()
                        ==> #[trigger] self.ranges_of(s)[k].1 >= orig_len,
                        forall|s: int| idx < s < orig_len ==> extends(old(self).preds_of(s), #[trigger] self.preds_of(s)),
                        self.num() >= orig_len + old(self).pred_total(idx as int) + j + 1,
                        old(self).has_predicates(),
                        forall|s: int, k: int| 0 <= s <= idx && 0 <= k < self.preds_of(s).len() ==> #[trigger] self.preds_of(s)[k].1 >= orig_len,
                        forall|s: int| orig_len <= s < self.num() ==> !#[trigger] self.accepts(s),
                        forall|s: int| orig_len <= s < self.num() ==> (#[trigger] self.eps_of(s)).len() == 0,
                        forall|k: int| 0 <= k < preds@.len() ==> (#[trigger] preds@[k]).1 < self.num(),
                        forall|k: int| 0 <= k < in_preds@.len() ==> (#[trigger] in_preds@[k]).1 < self.num(),
                    decreases in_preds@.len() - c,
                {
                    let (other, source) = in_preds[c];
                    match pred.intersect(&other) {
                        Some(p) => {
                            let ghost g0 = *self;
                            self.add_predicate(source, new_idx, p);
                            proof {
                                assert forall|s: int, k: int|
                                    0 <= s < orig_len && old(self).ranges_of(s).len() <= k < self.ranges_of(s).len()
                                        implies #[trigger] self.ranges_of(s)[k].1 >= orig_len by {
                                    assert(self.ranges_of(s) == g0.ranges_of(s));
                                }
                                assert forall|s: int| idx < s < orig_len implies extends(old(self).preds_of(s), #[trigger] self.preds_of(s)) by {
                                    assert(self.ranges_of(s) == g0.ranges_of(s));
                                    assert(extends(old(self).preds_of(s), g0.preds_of(s)));
                                    if s != source {
                                        assert(self.preds_of(s) == g0.preds_of(s));
                                    } else {
                                        assert forall|k: int| 0 <= k < old(self).preds_of(s).len() implies #[trigger] self.preds_of(s)[k] == old(self).preds_of(s)[k] by {
                                            assert(self.preds_of(s)[k] == g0.preds_of(s)[k]);
                                        }
                                    }
                                }
                                assert forall|s: int| 0 <= s < orig_len implies extends(old(self).ranges_of(s), #[trigger] self.ranges_of(s)) by {
                                    assert(extends(old(self).ranges_of(s), g0.ranges_of(s)));
                                    assert(self.ranges_of(s) == g0.ranges_of(s));
                                }
                                assert forall|s: int, k: int| 0 <= s <= idx && 0 <= k < self.preds_of(s).len() implies #[trigger] self.preds_of(s)[k].1 >= orig_len by {
                                    assert(self.ranges_of(s) == g0.ranges_of(s));
                                    if s != source {
                                        assert(self.preds_of(s) == g0.preds_of(s));
                                    } else if k < g0.preds_of(s).len() {
                                        assert(self.preds_of(s)[k] == g0.preds_of(s)[k]);
                                    } else {
                                        assert(self.preds_of(s)[k] == (p, new_idx));
                                    }
                                }
                            }
                            reversed.add_predicate(new_idx, source, p);
                        },
                        None => {},
                    }
                    c = c + 1;
                }
                let ghost g0 = *self;
                self.connect_from(&mut reversed, &out_kept, new_idx);
                proof {
                    assert forall|s: int| 0 <= s < orig_len implies #[trigger] self.accepts(s) == old(self).accepts(s) by {
                        assert(g0.accepts(s) == old(self).accepts(s));
                    }
                    assert forall|s: int| 0 <= s < orig_len implies #[trigger] self.eps_of(s) == old(self).eps_of(s) by {
                        assert(self.accepts(s) == g0.accepts(s));
                        assert(g0.eps_of(s) == old(self).eps_of(s));
                    }
                    assert forall|s: int| orig_len <= s < self.num() implies !#[trigger] self.accepts(s) by {
                        assert(g0.accepts(s) == self.accepts(s));
                        assert(!g0.accepts(s));
                    }
                    assert forall|s: int| orig_len <= s < self.num() implies (#[trigger] self.eps_of(s)).len() == 0 by {
                        assert(self.accepts(s) == g0.accepts(s));
                        assert(g0.eps_of(s).len() == 0);
                    }
                    assert forall|s: int, k: int| 0 <= s <= idx && 0 <= k < self.preds_of(s).len() implies #[trigger] self.preds_of(s)[k].1 >= orig_len by {
                        assert(self.accepts(s) == g0.accepts(s));
                        assert(self.preds_of(s) == g0.preds_of(s));
                    }
                    assert forall|s: int| idx < s < orig_len implies extends(old(self).preds_of(s), #[trigger] self.preds_of(s)) by {
                        assert(self.accepts(s) == g0.accepts(s));
                        assert(self.preds_of(s) == g0.preds_of(s));
                    }
                    assert forall|s: int| 0 <= s < orig_len implies extends(old(self).ranges_of(s), #[trigger] self.ranges_of(s)) by {
                        assert(self.ranges_of(s) == g0.ranges_of(s));
                        assert(extends(old(self).ranges_of(s), g0.ranges_of(s)));
                    }
                    assert forall|s: int, k: int|
                        0 <= s < orig_len && old(self).ranges_of(s).len() <= k < self.ranges_of(s).len()
                            implies #[trigger] self.ranges_of(s)[k].1 >= orig_len by {
                        assert(self.ranges_of(s) == g0.ranges_of(s));
                    }
                }
                let mut c: usize = 0;
                while c < out_preds.len()
                    invariant
                        orig_len == old(self).num(),
                        self.num() > orig_len,
                        new_idx < self.num(),
                        new_idx >= orig_len,
                        idx < orig_len,
                        self.wf(),
                        self.preds_in_bounds(),
                        reversed.wf(),
                        reversed.preds_in_bounds(),
                        reversed.num() == self.num(),
                        forall|s: int| 0 <= s < orig_len ==> #[trigger] self.accepts(s) == old(self).accepts(s),
                        forall|s: int| 0 <= s < orig_len ==> #[trigger] self.eps_of(s) == old(self).eps_of(s),
                        forall|s: int| 0 <= s < orig_len ==> extends(old(self).ranges_of(s), #[trigger] self.ranges_of(s)),
                forall|s: int, k: int|
                    0 <= s < orig_len && old(self).ranges_of(s).len() <= k < self.ranges_of(s).len()
                        ==> #[trigger] self.ranges_of(s)[k].1 >= orig_len,
                        forall|s: int| idx < s < orig_len ==> extends(old(self).preds_of(s), #[trigger] self.preds_of(s)),
                        self.num() >= orig_len + old(self).pred_total(idx as int) + j + 1,
                        old(self).has_predicates(),
                        forall|s: int, k: int| 0 <= s <= idx && 0 <= k < self.preds_of(s).len() ==> #[trigger] self.preds_of(s)[k].1 >= orig_len,
                        forall|s: int| orig_len <= s < self.num() ==> !#[trigger] self.accepts(s),
                        forall|s: int| orig_len <= s < self.num() ==> (#[trigger] self.eps_of(s)).len() == 0,
                        forall|k: int| 0 <= k < preds@.len() ==> (#[trigger] preds@[k]).1 < self.num(),
                        forall|k: int| 0 <= k < out_preds@.len() ==> (#[trigger] out_preds@[k]).1 < self.num(),
                    decreases out_preds@.len() - c,
                {
                    let (other, t) = out_preds[c];
                    match pred.intersect(&other) {
                        Some(p) => {
                            let ghost g0 = *self;
                            self.add_predicate(new_idx, t, p);
                            proof {
                                assert forall|s: int, k: int|
                                    0 <= s < orig_len && old(self).ranges_of(s).len() <= k < self.ranges_of(s).len()
                                        implies #[trigger] self.ranges_of(s)[k].1 >= orig_len by {
                                    assert(self.ranges_of(s) == g0.ranges_of(s));
                                }
                                assert forall|s: int| idx < s < orig_len implies extends(old(self).preds_of(s), #[trigger] self.preds_of(s)) by {
                                    assert(self.ranges_of(s) == g0.ranges_of(s));
                                    assert(self.preds_of(s) == g0.preds_of(s));
                                }
                                assert forall|s: int| 0 <= s < orig_len implies extends(old(self).ranges_of(s), #[trigger] self.ranges_of(s)) by {
                                    assert(extends(old(self).ranges_of(s), g0.ranges_of(s)));
                                    assert(self.ranges_of(s) == g0.ranges_of(s));
                                }
                                assert forall|s: int, k: int| 0 <= s <= idx && 0 <= k < self.preds_of(s).len() implies #[trigger] self.preds_of(s)[k].1 >= orig_len by {
                                    assert(self.ranges_of(s) == g0.ranges_of(s));
                                    assert(s != new_idx);
                                    assert(self.preds_of(s) == g0.preds_of(s));
                                }
                            }
                            reversed.add_predicate(t, new_idx, p);
                        },
                        None => {},
                    }
                    c = c + 1;
                }
                j = j + 1;
            }
            proof {
                assert(old(self).pred_total(idx + 1) == old(self).pred_total(idx as int) + old(self).preds_of(idx as int).len());
                assert(extends(old(self).preds_of(idx as int), preds@));
            }
            idx = idx + 1;
        }
        proof {
            if self.num() == orig_len {
                if old(self).has_predicates() {
                    let s0 = choose|s0: int| 0 <= s0 < old(self).num() && (#[trigger] old(self).preds_of(s0)).len() > 0;
                }
                assert forall|s: int| 0 <= s < orig_len implies #[trigger] self.ranges_of(s) == old(self).ranges_of(s)
                    && self.preds_of(s) == old(self).preds_of(s) by {
                    assert(self.preds_of(s).len() == 0);
                    assert(old(self).preds_of(s).len() == 0);
                    assert(self.preds_of(s) =~= old(self).preds_of(s));
                }
            }
        }
        self.states.len() > orig_len
    }

    /// Removes all predicate transitions by repeating `remove_predicates_once` until a pass adds
    /// no state; gives up, returning `false`, once the automaton has more than `max_states`
    /// states. States are only appended: the old ones keep their flags and eps-transitions.
    pub fn remove_predicates(&mut self, max_states: usize) -> (r: bool)
        requires
            old(self).wf(),
            old(self).preds_in_bounds(),
        ensures
            final(self).wf(),
            final(self).preds_in_bounds(),
            r ==> final(self).no_predicates(),
            !r ==> final(self).num() > max_states,
            final(self).num() >= old(self).num(),
            forall|s: int| 0 <= s < old(self).num() ==> #[trigger] final(self).accepts(s) == old(self).accepts(s),
            forall|s: int| 0 <= s < old(self).num() ==> #[trigger] final(self).eps_of(s) == old(self).eps_of(s),
            forall|s: int| old(self).num() <= s < final(self).num() ==> !#[trigger] final(self).accepts(s),
    {
        while self.states.len() <= max_states
            invariant
                self.wf(),
                self.preds_in_bounds(),
                self.num() >= old(self).num(),
                forall|s: int| 0 <= s < old(self).num() ==> #[trigger] self.accepts(s) == old(self).accepts(s),
                forall|s: int| 0 <= s < old(self).num() ==> #[trigger] self.eps_of(s) == old(self).eps_of(s),
                forall|s: int| old(self).num() <= s < self.num() ==> !#[trigger] self.accepts(s),
            decreases (if self.num() > max_states { 0 } else { max_states + 1 - self.num() }),
        {
            let ghost g0 = *self;
            let grew = self.remove_predicates_once();
            proof {
                assert forall|s: int| 0 <= s < old(self).num() implies #[trigger] self.accepts(s) == old(self).accepts(s) by {
                    assert(g0.accepts(s) == old(self).accepts(s));
                }
                assert forall|s: int| 0 <= s < old(self).num() implies #[trigger] self.eps_of(s) == old(self).eps_of(s) by {
                    assert(g0.eps_of(s) == old(self).eps_of(s));
                }
                assert forall|s: int| old(self).num() <= s < self.num() implies !#[trigger] self.accepts(s) by {
                    if s < g0.num() {
                        assert(!g0.accepts(s));
                    }
                }
            }
            if !grew {
                return true;
            }
        }
        false
    }
}

} // verus!
