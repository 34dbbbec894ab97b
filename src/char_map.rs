use std::cmp::Ordering;
use vstd::laws_eq::obeys_concrete_eq;
use vstd::prelude::*;
use vstd::std_specs::cmp::PartialEqSpec;

use crate::bits::{empty_set, insert, members, StateSet};
use crate::range::{CharRange, MAX_CHAR};

verus! {

/// Every range is non-empty and each range ends before the next one starts.
pub open spec fn well_formed<T>(s: Seq<(CharRange, T)>) -> bool {
    &&& forall|i: int| 0 <= i < s.len() ==> #[trigger] s[i].0.start <= s[i].0.end
    &&& forall|i: int, j: int|
        #![trigger s[i], s[j]]
        0 <= i < j < s.len() ==> s[i].0.end < s[j].0.start
}

/// Some range of `s` holds the code point `c`.
pub open spec fn covered<T>(s: Seq<(CharRange, T)>, c: int) -> bool {
    exists|i: int| 0 <= i < s.len() && #[trigger] s[i].0.has(c)
}

/// The value that `s` gives to the code point `c`: that of the last range holding it.
pub open spec fn lookup<T>(s: Seq<(CharRange, T)>, c: int) -> Option<T>
    decreases s.len(),
{
    if s.len() == 0 {
        None
    } else if s.last().0.has(c) {
        Some(s.last().1)
    } else {
        lookup(s.drop_last(), c)
    }
}

/// The entry `e` starts right after the range of `prev` ends, and carries the same value.
pub open spec fn mergeable<T>(prev: (CharRange, T), e: (CharRange, T)) -> bool {
    e.0.start == prev.0.end + 1 && e.1 == prev.1
}

/// `s` with each entry merged into the one before it wherever the two are mergeable.
pub open spec fn normalized<T>(s: Seq<(CharRange, T)>) -> Seq<(CharRange, T)>
    decreases s.len(),
{
    if s.len() == 0 {
        s
    } else {
        let prev = normalized(s.drop_last());
        let e = s.last();
        if prev.len() > 0 && mergeable(prev.last(), e) {
            prev.update(
                prev.len() - 1,
                (CharRange { start: prev.last().0.start, end: e.0.end }, prev.last().1),
            )
        } else {
            prev.push(e)
        }
    }
}

/// No two ranges of `s` share a code point, and none is empty.
pub open spec fn disjoint_ranges<T>(s: Seq<(CharRange, T)>) -> bool {
    &&& nonempty_ranges(s)
    &&& forall|i: int, j: int|
        #![trigger s[i], s[j]]
        0 <= i < s.len() && 0 <= j < s.len() && i != j ==> s[i].0.end < s[j].0.start
            || s[j].0.end < s[i].0.start
}

/// `b[i]` is `a[p[i]]` for every `i`, where `p` maps the indices of `b` one-to-one onto those
/// of `a`.
pub open spec fn permutes<A>(p: Seq<int>, a: Seq<A>, b: Seq<A>) -> bool {
    &&& p.len() == b.len()
    &&& forall|i: int| 0 <= i < p.len() ==> 0 <= #[trigger] p[i] < a.len()
    &&& forall|i: int, j: int| 0 <= i < j < p.len() ==> p[i] != p[j]
    &&& forall|i: int| 0 <= i < b.len() ==> b[i] == a[#[trigger] p[i]]
    &&& forall|j: int|
        #![trigger a[j]]
        0 <= j < a.len() ==> exists|i: int| 0 <= i < p.len() && #[trigger] p[i] == j
}

/// `b` holds the entries of `a` in some order.
pub open spec fn is_permutation<A>(a: Seq<A>, b: Seq<A>) -> bool {
    &&& a.len() == b.len()
    &&& exists|p: Seq<int>| permutes(p, a, b)
}

/// The entries of `s` whose flag in `keep` is set, in order.
pub open spec fn select<A>(s: Seq<A>, keep: Seq<bool>) -> Seq<A>
    decreases s.len(),
{
    if s.len() == 0 || keep.len() < s.len() {
        Seq::empty()
    } else {
        let rest = select(s.drop_last(), keep);
        if keep[s.len() - 1] {
            rest.push(s.last())
        } else {
            rest
        }
    }
}

/// The ranges of `s`, each carrying the unit value.
pub open spec fn ranges_only<T>(s: Seq<(CharRange, T)>) -> Seq<(CharRange, ())> {
    s.map_values(|e: (CharRange, T)| (e.0, ()))
}

/// `x` is the clip of entry `i` of `a` against range `j` of `b`, where the two meet.
pub open spec fn is_clip<T, U>(a: Seq<(CharRange, T)>, b: Seq<(CharRange, U)>, i: int, j: int, x: (CharRange, T)) -> bool {
    &&& 0 <= i < a.len()
    &&& 0 <= j < b.len()
    &&& a[i].0.overlaps(b[j].0)
    &&& x == (a[i].0.spec_intersection(b[j].0), a[i].1)
}

/// `x` is the clip of some entry of `a` among the first `n` against some range of `b`.
pub open spec fn clipped_before<T, U>(a: Seq<(CharRange, T)>, b: Seq<(CharRange, U)>, n: int, x: (CharRange, T)) -> bool {
    exists|i: int, j: int| 0 <= i < n && #[trigger] is_clip(a, b, i, j, x)
}

/// `x` is the clip of entry `i` of `a` against one of the first `m` ranges of `b`.
pub open spec fn clipped_row<T, U>(a: Seq<(CharRange, T)>, b: Seq<(CharRange, U)>, i: int, m: int, x: (CharRange, T)) -> bool {
    exists|j: int| 0 <= j < m && #[trigger] is_clip(a, b, i, j, x)
}

/// Every range of `s` holds at least one code point.
pub open spec fn nonempty_ranges<T>(s: Seq<(CharRange, T)>) -> bool {
    forall|i: int| 0 <= i < s.len() ==> #[trigger] s[i].0.start <= s[i].0.end
}

/// No two neighbouring entries of `s` are mergeable.
pub open spec fn is_normal<T>(s: Seq<(CharRange, T)>) -> bool {
    forall|i: int| 0 < i < s.len() ==> !mergeable(#[trigger] s[i - 1], s[i])
}

pub proof fn lemma_lookup_some_iff_covered<T>(s: Seq<(CharRange, T)>, c: int)
    ensures
        lookup(s, c) is Some <==> covered(s, c),
    decreases s.len(),
{
    if s.len() > 0 {
        lemma_lookup_some_iff_covered(s.drop_last(), c);
        if covered(s, c) && !s.last().0.has(c) {
            let i = choose|i: int| 0 <= i < s.len() && #[trigger] s[i].0.has(c);
            assert(s.drop_last()[i].0.has(c));
        }
        if covered(s.drop_last(), c) {
            let i = choose|i: int| 0 <= i < s.drop_last().len() && #[trigger] s.drop_last()[i].0.has(c);
            assert(s[i].0.has(c));
        }
    }
}

pub proof fn lemma_lookup_well_formed<T>(s: Seq<(CharRange, T)>, i: int, c: int)
    requires
        well_formed(s),
        0 <= i < s.len(),
        s[i].0.has(c),
    ensures
        lookup(s, c) == Some(s[i].1),
    decreases s.len(),
{
    if i < s.len() - 1 {
        assert(s[i].0.end < s[s.len() - 1].0.start);
        assert(well_formed(s.drop_last()));
        assert(s.drop_last()[i] == s[i]);
        lemma_lookup_well_formed(s.drop_last(), i, c);
    }
}

proof fn lemma_normalized_shape<T>(s: Seq<(CharRange, T)>)
    ensures
        s.len() > 0 ==> normalized(s).len() > 0,
        normalized(s).len() <= s.len(),
        is_normal(normalized(s)),
        nonempty_ranges(s) ==> nonempty_ranges(normalized(s)),
        nonempty_ranges(s) ==> forall|c: int| lookup(normalized(s), c) == lookup(s, c),
        well_formed(s) ==> well_formed(normalized(s)),
        well_formed(s) && s.len() > 0 ==> normalized(s).last().0.end == s.last().0.end,
    decreases s.len(),
{
    if s.len() > 0 {
        let t = s.drop_last();
        lemma_normalized_shape(t);
        let prev = normalized(t);
        let e = s.last();
        let n = normalized(s);
        if nonempty_ranges(s) {
            assert(nonempty_ranges(t));
        }
        if prev.len() > 0 && mergeable(prev.last(), e) {
            assert(n.len() == prev.len());
            assert(n.drop_last() =~= prev.drop_last());
            assert forall|i: int| 0 < i < n.len() implies !mergeable(#[trigger] n[i - 1], n[i]) by {
                assert(n[i - 1] == prev[i - 1]);
                if i < n.len() - 1 {
                    assert(n[i] == prev[i]);
                } else {
                    assert(!mergeable(prev[i - 1], prev[i]));
                }
            }
            if nonempty_ranges(s) {
                assert(prev.last().0.start <= prev.last().0.end);
                assert forall|c: int| lookup(n, c) == lookup(s, c) by {
                    let m = n.last();
                    assert(lookup(s, c) == if e.0.has(c) {
                        Some(e.1)
                    } else {
                        lookup(t, c)
                    });
                    assert(lookup(n, c) == if m.0.has(c) {
                        Some(m.1)
                    } else {
                        lookup(n.drop_last(), c)
                    });
                    assert(lookup(prev, c) == if prev.last().0.has(c) {
                        Some(prev.last().1)
                    } else {
                        lookup(prev.drop_last(), c)
                    });
                    assert(lookup(t, c) == lookup(prev, c));
                }
            }
            if well_formed(s) {
                assert(well_formed(t));
                assert forall|i: int, j: int|
                    #![trigger n[i], n[j]]
                    0 <= i < j < n.len() implies n[i].0.end < n[j].0.start by {
                    assert(prev[i].0.end < prev[j].0.start);
                }
            }
        } else {
            assert(n.drop_last() =~= prev);
            if nonempty_ranges(s) {
                assert forall|c: int| lookup(n, c) == lookup(s, c) by {
                    assert(lookup(s, c) == if e.0.has(c) {
                        Some(e.1)
                    } else {
                        lookup(t, c)
                    });
                    assert(lookup(n, c) == if e.0.has(c) {
                        Some(e.1)
                    } else {
                        lookup(prev, c)
                    });
                }
            }
            assert forall|i: int| 0 < i < n.len() implies !mergeable(#[trigger] n[i - 1], n[i]) by {
                if i < n.len() - 1 {
                    assert(n[i - 1] == prev[i - 1] && n[i] == prev[i]);
                } else if i > 0 {
                    assert(n[i - 1] == prev.last());
                }
            }
            if well_formed(s) {
                assert(well_formed(t));
                assert forall|i: int, j: int|
                    #![trigger n[i], n[j]]
                    0 <= i < j < n.len() implies n[i].0.end < n[j].0.start by {
                    if j == n.len() - 1 && prev.len() > 0 {
                        assert(prev[i].0.end <= prev.last().0.end) by {
                            if i < prev.len() - 1 {
                                assert(prev[i].0.end < prev[prev.len() - 1].0.start);
                            }
                        }
                        assert(t[t.len() - 1].0.end < s[s.len() - 1].0.start);
                    } else if j < n.len() - 1 {
                        assert(prev[i].0.end < prev[j].0.start);
                    }
                }
            }
        }
    }
}

proof fn lemma_normal_is_fixed<T>(s: Seq<(CharRange, T)>)
    requires
        is_normal(s),
    ensures
        normalized(s) == s,
    decreases s.len(),
{
    if s.len() > 0 {
        let t = s.drop_last();
        assert forall|i: int| 0 < i < t.len() implies !mergeable(#[trigger] t[i - 1], t[i]) by {
            assert(t[i - 1] == s[i - 1] && t[i] == s[i]);
        }
        lemma_normal_is_fixed(t);
        if t.len() > 0 {
            assert(!mergeable(s[s.len() - 2], s[s.len() - 1]));
        }
        assert(t.push(s.last()) =~= s);
    }
}

/// Normalizing twice gives what normalizing once gives, and, where no range is empty,
/// normalizing keeps the value of every code point (and keeps sorted ranges sorted and
/// disjoint).
pub proof fn lemma_normalize_laws<T>(s: Seq<(CharRange, T)>)
    ensures
        normalized(normalized(s)) == normalized(s),
        nonempty_ranges(s) ==> forall|c: int| #[trigger] lookup(normalized(s), c) == lookup(s, c),
        well_formed(s) ==> well_formed(normalized(s)),
{
    lemma_normalized_shape(s);
    lemma_normal_is_fixed(normalized(s));
}

/// A set of characters. Optionally, each character in the set may be associated with some data.
#[derive(Debug)]
pub struct CharMap<T> {
    elts: Vec<(CharRange, T)>,
}

impl<T> View for CharMap<T> {
    type V = Seq<(CharRange, T)>;

    closed spec fn view(&self) -> Seq<(CharRange, T)> {
        self.elts@
    }
}

impl<T> CharMap<T> {
    /// Returns the number of intervals in this `CharMap`.
    pub fn len(&self) -> (r: usize)
        ensures
            r == self@.len(),
    {
        self.elts.len()
    }

    /// Tests whether this `CharMap` is empty.
    pub fn is_empty(&self) -> (r: bool)
        ensures
            r == (self@.len() == 0),
    {
        self.elts.len() == 0
    }

    /// The mapped ranges and values, in order.
    pub fn iter(&self) -> (r: &[(CharRange, T)])
        ensures
            r@ == self@,
    {
        self.elts.as_slice()
    }
}

impl<T: Copy + PartialEq> CharMap<T> {
    /// Creates a new empty `CharMap`.
    pub fn new() -> (r: CharMap<T>)
        ensures
            r@ == Seq::<(CharRange, T)>::empty(),
    {
        CharMap { elts: Vec::new() }
    }

    /// Creates a new empty `CharMap` for which `push` can be called `n` times without
    /// reallocation.
    pub fn with_capacity(n: usize) -> (r: CharMap<T>)
        ensures
            r@ == Seq::<(CharRange, T)>::empty(),
    {
        CharMap { elts: Vec::with_capacity(n) }
    }

    /// Creates a `CharMap` from a `Vec`, which is assumed to contain non-overlapping ranges in
    /// ascending order.
    pub fn from_vec(vec: Vec<(CharRange, T)>) -> (r: CharMap<T>)
        ensures
            r@ == vec@,
    {
        CharMap { elts: vec }
    }

    /// Tests whether this `CharMap` is a single range holding every value.
    pub fn is_full(&self) -> (r: bool)
        ensures
            r == (self@.len() == 1 && self@[0].0 == (CharRange { start: 0, end: MAX_CHAR })),
    {
        self.elts.len() == 1 && self.elts[0].0 == CharRange::new(0, MAX_CHAR)
    }

    /// Minimizes the number of ranges in this `CharMap`.
    ///
    /// If there are any adjacent ranges that map to the same data, merges them.
    pub fn normalize(&mut self)
        requires
            obeys_concrete_eq::<T>(),
        ensures
            final(self)@ == normalized(old(self)@),
    {
        proof {
            reveal(obeys_concrete_eq);
        }
        let n = self.elts.len();
        let mut vec: Vec<(CharRange, T)> = Vec::with_capacity(n);
        if n > 0 {
            vec.push(self.elts[0]);
            proof {
                let one = self.elts@.take(1);
                assert(one.drop_last() =~= Seq::<(CharRange, T)>::empty());
                assert(normalized(one.drop_last()) == Seq::<(CharRange, T)>::empty());
                assert(vec@ =~= normalized(one));
            }
            let mut i: usize = 1;
            while i < n
                invariant
                    1 <= i <= n,
                    n == self.elts@.len(),
                    T::obeys_eq_spec(),
                    forall|x: T, y: T| x.eq_spec(&y) <==> (x == y),
                    vec@ == normalized(self.elts@.take(i as int)),
                decreases n - i,
            {
                proof {
                    lemma_normalized_shape(self.elts@.take(i as int));
                }
                let elt = self.elts[i];
                let last_idx = vec.len() - 1;
                let last = vec[last_idx];
                proof {
                    assert(self.elts@.take(i + 1).drop_last() =~= self.elts@.take(i as int));
                    assert(self.elts@.take(i + 1).last() == elt);
                }
                let ghost prev = vec@;
                let ghost next = self.elts@.take(i + 1);
                if elt.0.start > 0 && elt.0.start - 1 == last.0.end && elt.1 == last.1 {
                    vec.set(last_idx, (CharRange::new(last.0.start, elt.0.end), last.1));
                    proof {
                        assert(prev.last() == last);
                        assert(mergeable(prev.last(), elt));
                        assert(vec@ =~= normalized(next));
                    }
                } else {
                    vec.push(elt);
                    proof {
                        assert(prev.last() == last);
                        assert(!mergeable(prev.last(), elt));
                        assert(vec@ =~= normalized(next));
                    }
                }
                i = i + 1;
            }
            proof {
                assert(self.elts@.take(n as int) =~= self.elts@);
            }
        }
        self.elts = vec;
    }

    /// Maps the given range of characters to to the given value.
    ///
    /// The ranges must stay non-overlapping; if they are added out of increasing order, `sort()`
    /// must be called before any other method.
    pub fn push(&mut self, range: CharRange, t: &T)
        requires
            !range.spec_is_empty(),
        ensures
            final(self)@ == old(self)@.push((range, *t)),
    {
        self.elts.push((range, *t));
    }

    /// Looks up a character in the map.
    pub fn get(&self, ch: u32) -> (r: Option<&T>)
        requires
            well_formed(self@),
        ensures
            match r {
                Some(v) => lookup(self@, ch as int) == Some(*v),
                None => lookup(self@, ch as int) is None,
            },
    {
        let mut lo: usize = 0;
        let mut hi: usize = self.elts.len();
        while lo < hi
            invariant
                0 <= lo <= hi <= self@.len(),
                well_formed(self@),
                self@ == self.elts@,
                forall|k: int| 0 <= k < lo ==> #[trigger] self@[k].0.end < ch,
                forall|k: int| hi <= k < self@.len() ==> #[trigger] self@[k].0.start > ch,
            decreases hi - lo,
        {
            let mid = lo + (hi - lo) / 2;
            let r = self.elts[mid].0;
            let place = r.cmp_point(ch);
            if matches!(place, Ordering::Less) {
                proof {
                    assert forall|k: int| 0 <= k < mid + 1 implies #[trigger] self@[k].0.end < ch by {
                        if k < mid {
                            assert(self@[k].0.end < self@[mid as int].0.start);
                        }
                    }
                }
                lo = mid + 1;
            } else if matches!(place, Ordering::Greater) {
                proof {
                    assert forall|k: int| mid <= k < self@.len() implies #[trigger] self@[k].0.start
                        > ch by {
                        if k > mid {
                            assert(self@[mid as int].0.end < self@[k].0.start);
                        }
                    }
                }
                hi = mid;
            } else {
                proof {
                    lemma_lookup_well_formed(self@, mid as int, ch as int);
                }
                return Some(&self.elts[mid].1);
            }
        }
        proof {
            lemma_lookup_some_iff_covered(self@, ch as int);
            if covered(self@, ch as int) {
                let k = choose|k: int| 0 <= k < self@.len() && #[trigger] self@[k].0.has(ch as int);
                assert(self@[k].0.end < ch || self@[k].0.start > ch);
            }
        }
        None
    }
}


impl<T: Copy + PartialEq> CharMap<T> {
    /// Intersects this map with a set of characters: each entry is clipped to every range of
    /// the set that it meets, keeping its value.
    pub fn intersect(&self, other: &CharSet) -> (r: CharMap<T>)
        requires
            well_formed(self@),
            well_formed(other@),
        ensures
            well_formed(r@),
            forall|c: int|
                #[trigger] lookup(r@, c) == if covered(other@, c) {
                    lookup(self@, c)
                } else {
                    None
                },
            forall|x: (CharRange, T)|
                #[trigger] r@.contains(x) <==> clipped_before(self@, other@, self@.len() as int, x),
    {
        let a = &self.elts;
        let b = &other.map.elts;
        let ghost sa = a@;
        let ghost sb = b@;
        let mut ret: Vec<(CharRange, T)> = Vec::new();
        let mut i: usize = 0;
        let mut j: usize = 0;
        proof {
            assert forall|c: int| lookup(ret@, c) == (if covered(sb, c) {
                lookup(sa.take(0), c)
            } else {
                None
            }) by {
                assert(sa.take(0).len() == 0);
            }
        }
        while i < a.len()
            invariant
                sa == a@,
                sb == b@,
                sa == self@,
                sb == other@,
                well_formed(sa),
                well_formed(sb),
                i <= sa.len(),
                j <= sb.len(),
                i < sa.len() ==> forall|k: int| 0 <= k < j ==> #[trigger] sb[k].0.end < sa[i as int].0.start,
                well_formed(ret@),
                i < sa.len() && ret@.len() > 0 ==> ret@.last().0.end < sa[i as int].0.start,
                forall|x: (CharRange, T)| #[trigger] ret@.contains(x) <==> clipped_before(sa, sb, i as int, x),
                forall|c: int|
                    #[trigger] lookup(ret@, c) == if covered(sb, c) {
                        lookup(sa.take(i as int), c)
                    } else {
                        None
                    },
            decreases sa.len() - i,
        {
            let (r, v) = a[i];
            let mut done = false;
            proof {
                assert forall|c: int| r.has(c) implies !covered(sb.take(j as int), c) by {
                    if covered(sb.take(j as int), c) {
                        let k = choose|k: int| 0 <= k < sb.take(j as int).len() && #[trigger] sb.take(
                            j as int,
                        )[k].0.has(c);
                        assert(sb[k].0.end < r.start);
                    }
                }
            }
            proof {
                assert forall|x: (CharRange, T)| !clipped_row(sa, sb, i as int, j as int, x) by {
                    if clipped_row(sa, sb, i as int, j as int, x) {
                        let k = choose|k: int| 0 <= k < j && #[trigger] is_clip(sa, sb, i as int, k, x);
                        assert(sb[k].0.end < r.start);
                        let c = choose|c: int| sa[i as int].0.has(c) && sb[k].0.has(c);
                    }
                }
            }
            while !done && j < b.len()
                invariant
                    sa == a@,
                    sb == b@,
                    well_formed(sa),
                    well_formed(sb),
                    i < sa.len(),
                    (r, v) == sa[i as int],
                    j <= sb.len(),
                    done ==> j < sb.len() && sb[j as int].0.end >= r.end,
                    forall|k: int| 0 <= k < j ==> #[trigger] sb[k].0.end < r.end,
                    well_formed(ret@),
                    ret@.len() > 0 ==> ret@.last().0.end <= r.end,
                    forall|x: (CharRange, T)|
                        #[trigger] ret@.contains(x) <==> (clipped_before(sa, sb, i as int, x) || clipped_row(
                            sa,
                            sb,
                            i as int,
                            if done { j + 1 } else { j as int },
                            x,
                        )),
                    !done && j < sb.len() && ret@.len() > 0 ==> ret@.last().0.end < r.start
                        || ret@.last().0.end < sb[j as int].0.start,
                    forall|c: int|
                        #[trigger] lookup(ret@, c) == if r.has(c) && covered(
                            sb.take(if done { j + 1 } else { j as int }),
                            c,
                        ) {
                            Some(v)
                        } else if covered(sb, c) {
                            lookup(sa.take(i as int), c)
                        } else {
                            None
                        },
                decreases sb.len() - j, if done { 0int } else { 1int },
            {
                let s = b[j].0;
                let ghost j_old = j as int;
                let ghost before = ret@;
                proof {
                    assert(sb.take(j + 1).drop_last() =~= sb.take(j as int));
                    assert forall|c: int| #[trigger]
                        covered(sb.take(j + 1), c) <==> covered(sb.take(j as int), c) || s.has(c) by {
                        if covered(sb.take(j + 1), c) {
                            let k = choose|k: int| 0 <= k < sb.take(j + 1).len() && #[trigger] sb.take(
                                j + 1,
                            )[k].0.has(c);
                            if k < j {
                                assert(sb.take(j as int)[k].0.has(c));
                            }
                        }
                        if covered(sb.take(j as int), c) {
                            let k = choose|k: int| 0 <= k < sb.take(j as int).len() && #[trigger] sb.take(
                                j as int,
                            )[k].0.has(c);
                            assert(sb.take(j + 1)[k].0.has(c));
                        }
                        if s.has(c) {
                            assert(sb.take(j + 1)[j as int].0.has(c));
                        }
                    }
                }
                proof {
                    assert forall|y: (CharRange, T)| #[trigger] clipped_row(sa, sb, i as int, j + 1, y) <==> (
                        clipped_row(sa, sb, i as int, j as int, y) || is_clip(sa, sb, i as int, j as int, y)) by {
                        if clipped_row(sa, sb, i as int, j + 1, y) {
                            let k = choose|k: int| 0 <= k < j + 1 && #[trigger] is_clip(sa, sb, i as int, k, y);
                            if k < j {
                                assert(clipped_row(sa, sb, i as int, j as int, y));
                            }
                        }
                        if clipped_row(sa, sb, i as int, j as int, y) {
                            let k = choose|k: int| 0 <= k < j && #[trigger] is_clip(sa, sb, i as int, k, y);
                        }
                    }
                    assert(r.overlaps(s) <==> (s.end >= r.start && s.start <= r.end)) by {
                        if s.end >= r.start && s.start <= r.end {
                            let c = if r.start >= s.start { r.start as int } else { s.start as int };
                            assert(r.has(c) && s.has(c));
                        }
                    }
                    assert forall|y: (CharRange, T)| #[trigger] is_clip(sa, sb, i as int, j as int, y) <==> (
                        r.overlaps(s) && y == (r.spec_intersection(s), v)) by {}
                }
                let ghost before_push = ret@;
                if s.end >= r.start && s.start <= r.end {
                    let x = r.intersection(&s);
                    ret.push((x, v));
                    proof {
                        assert forall|k: int| 0 <= k < before.len() implies #[trigger] before[k].0.end
                            < x.start by {
                            if k < before.len() - 1 {
                                assert(before[k].0.end < before[before.len() - 1].0.start);
                            }
                        }
                        assert forall|p: int, q: int|
                            #![trigger ret@[p], ret@[q]]
                            0 <= p < q < ret@.len() implies ret@[p].0.end < ret@[q].0.start by {
                            if q < ret@.len() - 1 {
                                assert(before[p].0.end < before[q].0.start);
                            }
                        }
                        assert forall|c: int| #[trigger]
                            lookup(ret@, c) == (if x.has(c) {
                                Some(v)
                            } else {
                                lookup(before, c)
                            }) by {
                            assert(ret@.drop_last() =~= before);
                        }
                    }
                }
                proof {
                    assert forall|y: (CharRange, T)| ret@.contains(y) <==> (before_push.contains(y) || (r.overlaps(s) && y == (r.spec_intersection(s), v))) by {
                        if ret@.len() > before_push.len() {
                            assert(ret@ == before_push.push((r.spec_intersection(s), v)));
                            if ret@.contains(y) {
                                let k = choose|k: int| 0 <= k < ret@.len() && ret@[k] == y;
                                if k < before_push.len() {
                                    assert(before_push[k] == y);
                                }
                            }
                            if before_push.contains(y) {
                                let k = choose|k: int| 0 <= k < before_push.len() && before_push[k] == y;
                                assert(ret@[k] == y);
                            }
                            if y == (r.spec_intersection(s), v) {
                                assert(ret@[ret@.len() - 1] == y);
                            }
                        }
                    }
                }
                if s.end >= r.end {
                    done = true;
                } else {
                    proof {
                        if j + 1 < sb.len() {
                            assert(sb[j as int].0.end < sb[j + 1].0.start);
                        }
                    }
                    j = j + 1;
                }
                proof {
                    assert((if done { j + 1 } else { j as int }) == j_old + 1);
                    assert forall|y: (CharRange, T)| #[trigger] ret@.contains(y) <==> (clipped_before(sa, sb, i as int, y)
                        || clipped_row(sa, sb, i as int, j_old + 1, y)) by {
                        assert(clipped_row(sa, sb, i as int, j_old + 1, y) <==> (clipped_row(sa, sb, i as int, j_old, y)
                            || is_clip(sa, sb, i as int, j_old, y)));
                        assert(before_push.contains(y) <==> (clipped_before(sa, sb, i as int, y) || clipped_row(sa, sb, i as int, j_old, y)));
                    }
                }
            }
            proof {
                let jj2 = if done { j + 1 } else { j as int };
                assert forall|y: (CharRange, T)| #[trigger] clipped_row(sa, sb, i as int, sb.len() as int, y) <==> clipped_row(sa, sb, i as int, jj2, y) by {
                    if clipped_row(sa, sb, i as int, sb.len() as int, y) {
                        let k = choose|k: int| 0 <= k < sb.len() && #[trigger] is_clip(sa, sb, i as int, k, y);
                        if k >= jj2 {
                            if k > j {
                                assert(sb[j as int].0.end < sb[k].0.start);
                            }
                            let c = choose|c: int| sa[i as int].0.has(c) && sb[k].0.has(c);
                            assert(false);
                        }
                    }
                    if clipped_row(sa, sb, i as int, jj2, y) {
                        let k = choose|k: int| 0 <= k < jj2 && #[trigger] is_clip(sa, sb, i as int, k, y);
                    }
                }
                assert forall|y: (CharRange, T)| #[trigger] clipped_before(sa, sb, i + 1, y) <==> (clipped_before(sa, sb, i as int, y) || clipped_row(sa, sb, i as int, sb.len() as int, y)) by {
                    if clipped_before(sa, sb, i + 1, y) {
                        let (i2, j2) = choose|i2: int, j2: int| 0 <= i2 < i + 1 && #[trigger] is_clip(sa, sb, i2, j2, y);
                        if i2 < i {
                            assert(clipped_before(sa, sb, i as int, y));
                        } else {
                            assert(clipped_row(sa, sb, i as int, sb.len() as int, y));
                        }
                    }
                    if clipped_before(sa, sb, i as int, y) {
                        let (i2, j2) = choose|i2: int, j2: int| 0 <= i2 < i && #[trigger] is_clip(sa, sb, i2, j2, y);
                    }
                    if clipped_row(sa, sb, i as int, sb.len() as int, y) {
                        let k = choose|k: int| 0 <= k < sb.len() && #[trigger] is_clip(sa, sb, i as int, k, y);
                    }
                }
                let jj = if done { j + 1 } else { j as int };
                assert forall|c: int| r.has(c) && covered(sb, c) implies covered(sb.take(jj), c) by {
                    let k = choose|k: int| 0 <= k < sb.len() && #[trigger] sb[k].0.has(c);
                    if k >= jj {
                        if k > j {
                            assert(sb[j as int].0.end < sb[k].0.start);
                        }
                        assert(false);
                    }
                    assert(sb.take(jj)[k].0.has(c));
                }
                assert forall|c: int| covered(sb.take(jj), c) implies covered(sb, c) by {
                    let k = choose|k: int| 0 <= k < sb.take(jj).len() && #[trigger] sb.take(jj)[k].0.has(c);
                    assert(sb[k].0.has(c));
                }
                assert(sa.take(i + 1).drop_last() =~= sa.take(i as int));
                assert forall|c: int|
                    #[trigger] lookup(sa.take(i + 1), c) == if r.has(c) {
                        Some(v)
                    } else {
                        lookup(sa.take(i as int), c)
                    } by {}
                if i + 1 < sa.len() {
                    assert(sa[i as int].0.end < sa[i + 1].0.start);
                }
            }
            i = i + 1;
        }
        proof {
            assert(sa.take(i as int) =~= sa);
        }
        CharMap { elts: ret }
    }
}

/// A set of characters, stored as a sorted list of (inclusive) ranges.
#[derive(Debug)]
pub struct CharSet {
    map: CharMap<()>,
}

impl View for CharSet {
    type V = Seq<(CharRange, ())>;

    closed spec fn view(&self) -> Seq<(CharRange, ())> {
        self.map@
    }
}


/// Relies on `slice::sort_by`: the entries end up in some order of the input, ordered by the
/// start of their ranges.
#[verifier::external_body]
pub(crate) fn sort_by_start<T>(v: &mut Vec<(CharRange, T)>)
    ensures
        is_permutation(old(v)@, final(v)@),
        forall|i: int, j: int|
            #![trigger final(v)@[i], final(v)@[j]]
            0 <= i < j < final(v)@.len() ==> final(v)@[i].0.start <= final(v)@[j].0.start,
{
    v.sort_by(|a, b| a.0.start.cmp(&b.0.start));
}

impl<T: Copy + PartialEq> CharMap<T> {
    /// Sorts the ranges. If ranges were `push()`ed out of order, this must be called before
    /// anything else. The ranges must not overlap.
    pub fn sort(&mut self)
        requires
            disjoint_ranges(old(self)@),
        ensures
            well_formed(final(self)@),
            is_permutation(old(self)@, final(self)@),
    {
        let ghost before = self@;
        sort_by_start(&mut self.elts);
        proof {
            let after = self@;
            let p = choose|p: Seq<int>| permutes(p, before, after);
            assert forall|i: int| 0 <= i < after.len() implies #[trigger] after[i].0.start
                <= after[i].0.end by {
                assert(after[i] == before[p[i]]);
            }
            assert forall|i: int, j: int|
                #![trigger after[i], after[j]]
                0 <= i < j < after.len() implies after[i].0.end < after[j].0.start by {
                assert(after[i] == before[p[i]]);
                assert(after[j] == before[p[j]]);
                assert(before[p[i]].0.end < before[p[j]].0.start || before[p[j]].0.end
                    < before[p[i]].0.start);
            }
        }
    }

    /// Returns the set of mapped chars, forgetting what they are mapped to.
    pub fn to_char_set(&self) -> (r: CharSet)
        requires
            well_formed(self@),
        ensures
            r@ == ranges_only(self@),
            well_formed(r@),
    {
        let mut v: Vec<(CharRange, ())> = Vec::with_capacity(self.elts.len());
        let mut i: usize = 0;
        while i < self.elts.len()
            invariant
                i <= self@.len(),
                self@ == self.elts@,
                v@ == ranges_only(self@.take(i as int)),
            decreases self@.len() - i,
        {
            v.push((self.elts[i].0, ()));
            proof {
                assert(ranges_only(self@.take(i + 1)) =~= ranges_only(self@.take(i as int)).push(
                    (self@[i as int].0, ()),
                ));
            }
            i = i + 1;
        }
        proof {
            assert(self@.take(i as int) =~= self@);
        }
        CharSet { map: CharMap { elts: v } }
    }

    /// Replaces each value `v` by `f(v)`, in place.
    pub fn map_values<F: Fn(T) -> T>(&mut self, f: F)
        requires
            forall|i: int| 0 <= i < old(self)@.len() ==> f.requires((#[trigger] old(self)@[i].1,)),
        ensures
            final(self)@.len() == old(self)@.len(),
            forall|i: int|
                0 <= i < old(self)@.len() ==> #[trigger] final(self)@[i].0 == old(self)@[i].0
                    && f.ensures((old(self)@[i].1,), final(self)@[i].1),
    {
        let ghost before = self@;
        let n = self.elts.len();
        let mut i: usize = 0;
        while i < n
            invariant
                n == before.len(),
                i <= n,
                self@ == self.elts@,
                self@.len() == n,
                forall|k: int| 0 <= k < n ==> f.requires((#[trigger] before[k].1,)),
                forall|k: int| i <= k < n ==> #[trigger] self@[k] == before[k],
                forall|k: int|
                    0 <= k < i ==> #[trigger] self@[k].0 == before[k].0 && f.ensures(
                        (before[k].1,),
                        self@[k].1,
                    ),
            decreases n - i,
        {
            let (r, v) = self.elts[i];
            let nv = f(v);
            self.elts.set(i, (r, nv));
            i = i + 1;
        }
    }

    /// Returns a new `CharMap`, containing only those mappings with values `v` satisfying `f(v)`.
    pub fn filter_values<F: Fn(&T) -> bool>(&self, f: F) -> (r: CharMap<T>)
        requires
            forall|i: int| 0 <= i < self@.len() ==> f.requires((&#[trigger] self@[i].1,)),
        ensures
            exists|keep: Seq<bool>|
                {
                    &&& keep.len() == self@.len()
                    &&& forall|i: int|
                        0 <= i < self@.len() ==> f.ensures((&self@[i].1,), #[trigger] keep[i])
                    &&& r@ == select(self@, keep)
                },
    {
        proof {
            assert forall|i: int| 0 <= i < self.elts@.len() implies f.requires(
                (&#[trigger] self.elts@[i].1,),
            ) by {
                assert(self.elts@[i] == self@[i]);
            }
        }
        CharMap { elts: filter_entries(&self.elts, f) }
    }

    /// Appends the given entries. If the map is then out of order, `sort()` must be called
    /// before anything else.
    pub fn extend(&mut self, items: &[(CharRange, T)])
        ensures
            final(self)@ == old(self)@ + items@,
    {
        let ghost before = self@;
        let mut i: usize = 0;
        while i < items.len()
            invariant
                i <= items@.len(),
                self@ == self.elts@,
                self@ == before + items@.take(i as int),
            decreases items@.len() - i,
        {
            self.elts.push(items[i]);
            proof {
                assert(before + items@.take(i + 1) =~= (before + items@.take(i as int)).push(
                    items@[i as int],
                ));
            }
            i = i + 1;
        }
        proof {
            assert(items@.take(i as int) =~= items@);
        }
    }
}

/// The entries of `elts` whose value satisfies `f`, in order.
fn filter_entries<T: Copy, F: Fn(&T) -> bool>(elts: &Vec<(CharRange, T)>, f: F) -> (r: Vec<(CharRange, T)>)
    requires
        forall|i: int| 0 <= i < elts@.len() ==> f.requires((&#[trigger] elts@[i].1,)),
    ensures
        exists|keep: Seq<bool>|
            {
                &&& keep.len() == elts@.len()
                &&& forall|i: int|
                    0 <= i < elts@.len() ==> f.ensures((&elts@[i].1,), #[trigger] keep[i])
                &&& r@ == select(elts@, keep)
            },
{
    let mut v: Vec<(CharRange, T)> = Vec::new();
    let ghost mut keep: Seq<bool> = Seq::empty();
    let mut i: usize = 0;
    while i < elts.len()
        invariant
            i <= elts@.len(),
            elts@ == elts@,
            keep.len() == i,
            forall|k: int| 0 <= k < elts@.len() ==> f.requires((&#[trigger] elts@[k].1,)),
            forall|k: int| 0 <= k < i ==> f.ensures((&elts@[k].1,), #[trigger] keep[k]),
            v@ == select(elts@.take(i as int), keep),
        decreases elts@.len() - i,
    {
        let e = elts[i];
        let b = f(&e.1);
        let ghost old_keep = keep;
        proof {
            keep = keep.push(b);
            let t = elts@.take(i + 1);
            assert(t.drop_last() =~= elts@.take(i as int));
            assert(select(elts@.take(i as int), keep) == select(elts@.take(i as int), old_keep))
                by {
                lemma_select_prefix(elts@.take(i as int), old_keep, keep);
            }
        }
        if b {
            v.push(e);
        }
        i = i + 1;
    }
    proof {
        assert(elts@.take(i as int) =~= elts@);
    }
    v
}

/// The two lists hold the same entries in the same order.
fn entries_equal<T: Copy + PartialEq>(a: &Vec<(CharRange, T)>, b: &Vec<(CharRange, T)>) -> (r: bool)
    ensures
        obeys_concrete_eq::<T>() ==> r == (a@ == b@),
{
    proof {
        reveal(obeys_concrete_eq);
    }
    if a.len() != b.len() {
        return false;
    }
    let mut i: usize = 0;
    while i < a.len()
        invariant
            i <= a@.len(),
            a@.len() == b@.len(),
            a@ == a@,
            b@ == b@,
            obeys_concrete_eq::<T>() ==> T::obeys_eq_spec() && forall|x: T, y: T|
                x.eq_spec(&y) <==> (x == y),
            obeys_concrete_eq::<T>() ==> forall|k: int| 0 <= k < i ==> #[trigger] a@[k]
                == b@[k],
        decreases a@.len() - i,
    {
        let a = a[i];
        let b = b[i];
        if a.0 != b.0 || !(a.1 == b.1) {
            return false;
        }
        i = i + 1;
    }
    proof {
        if obeys_concrete_eq::<T>() {
            assert(a@ =~= b@);
        }
    }
    true
}

proof fn lemma_select_prefix<A>(s: Seq<A>, keep: Seq<bool>, longer: Seq<bool>)
    requires
        keep.len() >= s.len(),
        longer.len() >= keep.len(),
        forall|k: int| 0 <= k < keep.len() ==> keep[k] == longer[k],
    ensures
        select(s, keep) == select(s, longer),
    decreases s.len(),
{
    if s.len() > 0 {
        lemma_select_prefix(s.drop_last(), keep, longer);
    }
}

impl<T: Copy + PartialEq> PartialEq for CharMap<T> {
    fn eq(&self, other: &CharMap<T>) -> (r: bool)
        ensures
            obeys_concrete_eq::<T>() ==> r == (self@ == other@),
    {
        entries_equal(&self.elts, &other.elts)
    }
}

impl<T: Copy + PartialEq> vstd::std_specs::cmp::PartialEqSpecImpl for CharMap<T> {
    open spec fn obeys_eq_spec() -> bool {
        obeys_concrete_eq::<T>()
    }

    open spec fn eq_spec(&self, other: &CharMap<T>) -> bool {
        self@ == other@
    }
}


/// Some range of `s` holds both `p` and `p + 1`.
pub open spec fn joined_in<T>(s: Seq<(CharRange, T)>, p: int) -> bool {
    exists|k: int| 0 <= k < s.len() && (#[trigger] s[k]).0.has(p) && s[k].0.has(p + 1)
}

/// Every two neighbouring code points of `r` lie together in some range of `a` or of `b`.
pub open spec fn seamless<T>(r: CharRange, a: Seq<(CharRange, T)>, b: Seq<(CharRange, T)>) -> bool {
    forall|p: int| r.start <= p < r.end ==> #[trigger] joined_in(a, p) || joined_in(b, p)
}

/// Some range of `o` includes `x`.
pub open spec fn inside_some<T>(x: CharRange, o: Seq<(CharRange, T)>) -> bool {
    exists|k: int| 0 <= k < o.len() && (#[trigger] o[k]).0.includes(x)
}

/// `o` is sorted and disjoint, holds every range of `a` and of `b` inside one of its ranges,
/// and has no range with a seam: the shape that `union` gives its result.
pub open spec fn is_union_shape<T>(o: Seq<(CharRange, T)>, a: Seq<(CharRange, T)>, b: Seq<(CharRange, T)>) -> bool {
    &&& well_formed(o)
    &&& forall|k: int| 0 <= k < o.len() ==> seamless((#[trigger] o[k]).0, a, b)
    &&& forall|k: int| 0 <= k < a.len() ==> inside_some((#[trigger] a[k]).0, o)
    &&& forall|k: int| 0 <= k < b.len() ==> inside_some((#[trigger] b[k]).0, o)
}

/// The code points of `ret` and `cur` together are those of `a` and `b` together.
spec fn same_points(
    ret: Seq<(CharRange, ())>,
    cur: CharRange,
    a: Seq<(CharRange, ())>,
    b: Seq<(CharRange, ())>,
) -> bool {
    forall|c: int| #![trigger covered(ret, c)] (covered(ret, c) || cur.has(c)) == (covered(a, c) || covered(b, c))
}

proof fn lemma_union_step(
    ret0: Seq<(CharRange, ())>,
    cur0: CharRange,
    ret1: Seq<(CharRange, ())>,
    prev: CharRange,
    cur: CharRange,
    a: Seq<(CharRange, ())>,
    b: Seq<(CharRange, ())>,
    i0: int,
    j0: int,
    take_a: bool,
)
    requires
        0 <= i0 <= a.len(),
        0 <= j0 <= b.len(),
        take_a ==> i0 < a.len(),
        !take_a ==> j0 < b.len(),
        same_points(ret0, cur0, a.take(i0), b.take(j0)),
        forall|c: int| (#[trigger] covered(ret1, c) || prev.has(c)) == (covered(ret0, c) || cur0.has(c)),
        forall|c: int|
            #[trigger] cur.has(c) == (prev.has(c) || (if take_a {
                a[i0].0
            } else {
                b[j0].0
            }).has(c)),
    ensures
        same_points(
            ret1,
            cur,
            a.take(if take_a { i0 + 1 } else { i0 }),
            b.take(if take_a { j0 } else { j0 + 1 }),
        ),
{
    assert(same_points(ret0, cur0, a.take(i0), b.take(j0)));
    if take_a {
        lemma_covered_take(a, i0);
        assert forall|c: int| #![trigger covered(ret1, c)]
            (covered(ret1, c) || cur.has(c)) == (covered(a.take(i0 + 1), c) || covered(b.take(j0), c)) by {
            assert((covered(ret0, c) || cur0.has(c)) == (covered(a.take(i0), c) || covered(b.take(j0), c)));
            assert(covered(a.take(i0 + 1), c) == (covered(a.take(i0), c) || a[i0].0.has(c)));
            assert(cur.has(c) == (prev.has(c) || a[i0].0.has(c)));
            assert((covered(ret1, c) || prev.has(c)) == (covered(ret0, c) || cur0.has(c)));
        }
        assert(same_points(ret1, cur, a.take(i0 + 1), b.take(j0)));
    } else {
        lemma_covered_take(b, j0);
        assert forall|c: int| #![trigger covered(ret1, c)]
            (covered(ret1, c) || cur.has(c)) == (covered(a.take(i0), c) || covered(b.take(j0 + 1), c)) by {
            assert((covered(ret0, c) || cur0.has(c)) == (covered(a.take(i0), c) || covered(b.take(j0), c)));
            assert(covered(b.take(j0 + 1), c) == (covered(b.take(j0), c) || b[j0].0.has(c)));
            assert(cur.has(c) == (prev.has(c) || b[j0].0.has(c)));
            assert((covered(ret1, c) || prev.has(c)) == (covered(ret0, c) || cur0.has(c)));
        }
        assert(same_points(ret1, cur, a.take(i0), b.take(j0 + 1)));
    }
}

proof fn lemma_covered_take<T>(s: Seq<(CharRange, T)>, i: int)
    requires
        0 <= i < s.len(),
    ensures
        forall|c: int| #[trigger]
            covered(s.take(i + 1), c) == (covered(s.take(i), c) || s[i].0.has(c)),
{
    assert forall|c: int| #[trigger]
        covered(s.take(i + 1), c) == (covered(s.take(i), c) || s[i].0.has(c)) by {
        if covered(s.take(i + 1), c) {
            let k = choose|k: int| 0 <= k < s.take(i + 1).len() && #[trigger] s.take(i + 1)[k].0.has(c);
            if k < i {
                assert(s.take(i)[k].0.has(c));
            }
        }
        if covered(s.take(i), c) {
            let k = choose|k: int| 0 <= k < s.take(i).len() && #[trigger] s.take(i)[k].0.has(c);
            assert(s.take(i + 1)[k].0.has(c));
        }
        if s[i].0.has(c) {
            assert(s.take(i + 1)[i].0.has(c));
        }
    }
}

proof fn lemma_covered_push<T>(s: Seq<(CharRange, T)>, x: (CharRange, T))
    ensures
        forall|c: int| #[trigger] covered(s.push(x), c) == (covered(s, c) || x.0.has(c)),
{
    assert(s.push(x).take(s.len() as int) =~= s);
    assert(s.push(x).take(s.len() as int + 1) =~= s.push(x));
    lemma_covered_take(s.push(x), s.len() as int);
}

proof fn lemma_covered_all<T>(s: Seq<(CharRange, T)>)
    ensures
        forall|c: int| #[trigger] covered(s.take(s.len() as int), c) == covered(s, c),
        forall|c: int| !covered(#[trigger] s.take(0), c),
{
    assert(s.take(s.len() as int) =~= s);
}

impl CharSet {
    /// Creates a new empty `CharSet`.
    pub fn new() -> (r: CharSet)
        ensures
            r@ == Seq::<(CharRange, ())>::empty(),
    {
        CharSet { map: CharMap::new() }
    }

    /// Creates a new empty `CharSet` for which `push` can be called `n` times without
    /// reallocation.
    pub fn with_capacity(n: usize) -> (r: CharSet)
        ensures
            r@ == Seq::<(CharRange, ())>::empty(),
    {
        CharSet { map: CharMap::with_capacity(n) }
    }

    /// Sorts the ranges in this set. The ranges must not overlap.
    pub fn sort(&mut self)
        requires
            disjoint_ranges(old(self)@),
        ensures
            well_formed(final(self)@),
            is_permutation(old(self)@, final(self)@),
    {
        self.map.sort();
    }

    /// Tests if this set is empty.
    pub fn is_empty(&self) -> (r: bool)
        ensures
            r == (self@.len() == 0),
    {
        self.map.is_empty()
    }

    /// Tests whether this set is the single range of every `u32`.
    pub fn is_full(&self) -> (r: bool)
        ensures
            r == (self@.len() == 1 && self@[0].0 == (CharRange { start: 0, end: MAX_CHAR })),
    {
        self.map.is_full()
    }

    /// Creates a set from ranges that do not overlap, sorting them.
    pub fn from_vec(vec: Vec<(CharRange, ())>) -> (r: CharSet)
        requires
            disjoint_ranges(vec@),
        ensures
            well_formed(r@),
            is_permutation(vec@, r@),
    {
        let mut ret = CharSet { map: CharMap { elts: vec } };
        ret.sort();
        ret
    }

    /// The ranges of this set, in order.
    pub fn iter(&self) -> (r: Vec<CharRange>)
        ensures
            r@ == self@.map_values(|e: (CharRange, ())| e.0),
    {
        let mut v: Vec<CharRange> = Vec::with_capacity(self.map.elts.len());
        let mut i: usize = 0;
        while i < self.map.elts.len()
            invariant
                i <= self@.len(),
                self@ == self.map.elts@,
                v@ == self@.take(i as int).map_values(|e: (CharRange, ())| e.0),
            decreases self@.len() - i,
        {
            v.push(self.map.elts[i].0);
            proof {
                assert(self@.take(i + 1).map_values(|e: (CharRange, ())| e.0) =~= self@.take(
                    i as int,
                ).map_values(|e: (CharRange, ())| e.0).push(self@[i as int].0));
            }
            i = i + 1;
        }
        proof {
            assert(self@.take(i as int) =~= self@);
        }
        v
    }

    /// Converts this set to a `CharMap` that maps all of the contained characters to `data`.
    pub fn to_char_map<T: Copy + PartialEq>(&self, data: T) -> (r: CharMap<T>)
        ensures
            r@ == self@.map_values(|e: (CharRange, ())| (e.0, data)),
    {
        let mut v: Vec<(CharRange, T)> = Vec::with_capacity(self.map.elts.len());
        let mut i: usize = 0;
        while i < self.map.elts.len()
            invariant
                i <= self@.len(),
                self@ == self.map.elts@,
                v@ == self@.take(i as int).map_values(|e: (CharRange, ())| (e.0, data)),
            decreases self@.len() - i,
        {
            v.push((self.map.elts[i].0, data));
            proof {
                assert(self@.take(i + 1).map_values(|e: (CharRange, ())| (e.0, data)) =~= self@.take(
                    i as int,
                ).map_values(|e: (CharRange, ())| (e.0, data)).push((self@[i as int].0, data)));
            }
            i = i + 1;
        }
        proof {
            assert(self@.take(i as int) =~= self@);
        }
        CharMap { elts: v }
    }

    /// Returns the union of `self` and `other`. Ranges that overlap are merged; ranges that
    /// only touch are kept apart.
    #[verifier::spinoff_prover]
    #[verifier::rlimit(50)]
    pub fn union(&self, other: &CharSet) -> (r: CharSet)
        requires
            well_formed(self@),
            well_formed(other@),
        ensures
            well_formed(r@),
            forall|c: int| #[trigger] covered(r@, c) == (covered(self@, c) || covered(other@, c)),
            points(r@) == points(self@).union(points(other@)),
            is_union_shape(r@, self@, other@),
    {
        let a = &self.map.elts;
        let b = &other.map.elts;
        let ghost sa = a@;
        let ghost sb = b@;
        let mut ret: Vec<(CharRange, ())> = Vec::new();
        let mut i: usize = 0;
        let mut j: usize = 0;
        let mut cur = CharRange::new(1, 0);
        proof {
            lemma_covered_all(sa);
            lemma_covered_all(sb);
            assert forall|c: int| !covered(ret@, c) by {}
        }
        while i < a.len() || j < b.len()
            invariant
                sa == a@,
                sb == b@,
                sa == self@,
                sb == other@,
                well_formed(sa),
                well_formed(sb),
                i <= sa.len(),
                j <= sb.len(),
                well_formed(ret@),
                !cur.spec_is_empty() ==> forall|k: int|
                    0 <= k < ret@.len() ==> #[trigger] ret@[k].0.end < cur.start,
                !cur.spec_is_empty() && i < sa.len() ==> cur.start <= sa[i as int].0.start,
                !cur.spec_is_empty() && j < sb.len() ==> cur.start <= sb[j as int].0.start,
                cur.spec_is_empty() ==> cur == (CharRange { start: 1, end: 0 }),
                cur.spec_is_empty() && i < sa.len() ==> forall|k: int|
                    0 <= k < ret@.len() ==> #[trigger] ret@[k].0.end < sa[i as int].0.start,
                cur.spec_is_empty() && j < sb.len() ==> forall|k: int|
                    0 <= k < ret@.len() ==> #[trigger] ret@[k].0.end < sb[j as int].0.start,
                same_points(ret@, cur, sa.take(i as int), sb.take(j as int)),
                forall|k: int| 0 <= k < ret@.len() ==> seamless((#[trigger] ret@[k]).0, sa, sb),
                !cur.spec_is_empty() ==> seamless(cur, sa, sb),
                forall|k: int| 0 <= k < i ==> inside_some((#[trigger] sa[k]).0, ret@) || cur.includes(sa[k].0),
                forall|k: int| 0 <= k < j ==> inside_some((#[trigger] sb[k]).0, ret@) || cur.includes(sb[k].0),
            decreases sa.len() + sb.len() - i - j,
        {
            let r1_start = if i < a.len() { a[i].0.start } else { MAX_CHAR };
            let r2_start = if j < b.len() { b[j].0.start } else { MAX_CHAR };
            let lowest = if r1_start <= r2_start { r1_start } else { r2_start };
            let ghost ret0 = ret@;
            let ghost cur0 = cur;
            let ghost i0 = i as int;
            let ghost j0 = j as int;
            proof {
                assert(same_points(ret0, cur0, sa.take(i0), sb.take(j0)));
            }
            if !cur.is_empty() && lowest > cur.end {
                let ghost before = ret@;
                ret.push((cur, ()));
                proof {
                    lemma_covered_push(before, (cur, ()));
                    assert forall|p: int, q: int|
                        #![trigger ret@[p], ret@[q]]
                        0 <= p < q < ret@.len() implies ret@[p].0.end < ret@[q].0.start by {
                        if q < ret@.len() - 1 {
                            assert(before[p].0.end < before[q].0.start);
                        }
                    }
                    assert forall|k: int| 0 <= k < ret@.len() implies #[trigger] ret@[k].0.end
                        <= cur.end by {
                        if k < ret@.len() - 1 {
                            assert(before[k].0.end < cur.start);
                        }
                    }
                    assert forall|k: int| 0 <= k < ret@.len() implies seamless((#[trigger] ret@[k]).0, sa, sb) by {
                        if k < ret@.len() - 1 {
                            assert(ret@[k] == before[k]);
                        }
                    }
                    assert forall|x: CharRange| inside_some(x, before) || cur.includes(x) implies #[trigger] inside_some(x, ret@) by {
                        if inside_some(x, before) {
                            let k = choose|k: int| 0 <= k < before.len() && (#[trigger] before[k]).0.includes(x);
                            assert(ret@[k] == before[k]);
                        } else {
                            assert(ret@[ret@.len() - 1].0 == cur);
                        }
                    }
                }
                cur = CharRange::new(1, 0);
            }
            let ghost prev = cur;
            let ghost ret1 = ret@;
            proof {
                assert forall|c: int|
                    (#[trigger] covered(ret1, c) || prev.has(c)) == (covered(ret0, c) || cur0.has(c)) by {}
            }
            if r1_start < r2_start || j >= b.len() {
                let r = a[i].0;
                proof {
                    lemma_covered_take(sa, i as int);
                    if i + 1 < sa.len() {
                        assert(sa[i as int].0.end < sa[i + 1].0.start);
                    }
                    assert(r.start <= r.end);
                }
                proof {
                    assert(r.start == lowest);
                    if !prev.spec_is_empty() {
                        assert(prev.start <= r.start && r.start <= prev.end);
                    }
                }
                cur = cur.cover(&r);
                proof {
                    assert forall|c: int| #[trigger] cur.has(c) == (prev.has(c) || r.has(c)) by {}
                    lemma_union_step(ret0, cur0, ret1, prev, cur, sa, sb, i0, j0, true);
                    assert(sa[i as int].0 == r);
                    assert forall|q: int| cur.start <= q < cur.end implies #[trigger] joined_in(sa, q) || joined_in(sb, q) by {
                        if !prev.spec_is_empty() && q < prev.end {
                            assert(joined_in(sa, q) || joined_in(sb, q));
                        } else {
                            assert(sa[i as int].0.has(q) && sa[i as int].0.has(q + 1));
                        }
                    }
                    assert(seamless(cur, sa, sb));
                    assert(cur.includes(r));
                    assert forall|x: CharRange| prev.includes(x) implies #[trigger] cur.includes(x) by {
                        if !prev.spec_is_empty() {
                            assert forall|c: int| x.has(c) implies cur.has(c) by {}
                        }
                    }
                }
                i = i + 1;
            } else {
                let r = b[j].0;
                proof {
                    lemma_covered_take(sb, j as int);
                    if j + 1 < sb.len() {
                        assert(sb[j as int].0.end < sb[j + 1].0.start);
                    }
                    assert(r.start <= r.end);
                }
                proof {
                    assert(r.start == lowest);
                    if !prev.spec_is_empty() {
                        assert(prev.start <= r.start && r.start <= prev.end);
                    }
                }
                cur = cur.cover(&r);
                proof {
                    assert forall|c: int| #[trigger] cur.has(c) == (prev.has(c) || r.has(c)) by {}
                    lemma_union_step(ret0, cur0, ret1, prev, cur, sa, sb, i0, j0, false);
                    assert(sb[j as int].0 == r);
                    assert forall|q: int| cur.start <= q < cur.end implies #[trigger] joined_in(sa, q) || joined_in(sb, q) by {
                        if !prev.spec_is_empty() && q < prev.end {
                            assert(joined_in(sa, q) || joined_in(sb, q));
                        } else {
                            assert(sb[j as int].0.has(q) && sb[j as int].0.has(q + 1));
                        }
                    }
                    assert(seamless(cur, sa, sb));
                    assert(cur.includes(r));
                    assert forall|x: CharRange| prev.includes(x) implies #[trigger] cur.includes(x) by {
                        if !prev.spec_is_empty() {
                            assert forall|c: int| x.has(c) implies cur.has(c) by {}
                        }
                    }
                }
                j = j + 1;
            }

        }
        let ghost ret0 = ret@;
        if !cur.is_empty() {
            let ghost before = ret@;
            ret.push((cur, ()));
            proof {
                lemma_covered_push(before, (cur, ()));
                assert forall|p: int, q: int|
                    #![trigger ret@[p], ret@[q]]
                    0 <= p < q < ret@.len() implies ret@[p].0.end < ret@[q].0.start by {
                    if q < ret@.len() - 1 {
                        assert(before[p].0.end < before[q].0.start);
                    }
                }
            }
        }
        proof {
            assert(points(ret@) =~= points(sa).union(points(sb)));
            assert forall|k: int| 0 <= k < ret@.len() implies seamless((#[trigger] ret@[k]).0, sa, sb) by {
                if k < ret0.len() {
                    assert(ret@[k] == ret0[k]);
                }
            }
            assert forall|x: CharRange| inside_some(x, ret0) || (!cur.spec_is_empty() && cur.includes(x)) implies #[trigger] inside_some(x, ret@) by {
                if inside_some(x, ret0) {
                    let k = choose|k: int| 0 <= k < ret0.len() && (#[trigger] ret0[k]).0.includes(x);
                    assert(ret@[k] == ret0[k]);
                } else {
                    assert(ret@[ret@.len() - 1].0 == cur);
                }
            }
            assert forall|k: int| 0 <= k < sa.len() implies inside_some((#[trigger] sa[k]).0, ret@) by {
                if cur.spec_is_empty() && cur.includes(sa[k].0) {
                    assert(sa[k].0.has(sa[k].0.start as int));
                }
            }
            assert forall|k: int| 0 <= k < sb.len() implies inside_some((#[trigger] sb[k]).0, ret@) by {
                if cur.spec_is_empty() && cur.includes(sb[k].0) {
                    assert(sb[k].0.has(sb[k].0.start as int));
                }
            }
        }
        CharSet { map: CharMap { elts: ret } }
    }
}


/// Each range of `s` ends at least two code points before the next starts: neighbouring ranges
/// neither overlap nor touch.
pub open spec fn gapped<T>(s: Seq<(CharRange, T)>) -> bool {
    forall|k: int, m: int|
        #![trigger s[k], s[m]]
        0 <= k && m == k + 1 && m < s.len() ==> s[k].0.end + 1 < s[m].0.start
}

proof fn lemma_gapped_push<T>(s: Seq<(CharRange, T)>, x: (CharRange, T))
    requires
        gapped(s),
        s.len() > 0 ==> s.last().0.end + 1 < x.0.start,
    ensures
        gapped(s.push(x)),
{
    let t = s.push(x);
    assert forall|k: int, m: int|
        #![trigger t[k], t[m]]
        0 <= k && m == k + 1 && m < t.len() implies t[k].0.end + 1 < t[m].0.start by {
        if m < s.len() {
            assert(t[k] == s[k] && t[m] == s[m]);
        } else {
            assert(t[k] == s.last());
        }
    }
}

/// The code point `c` is one of `chars`.
pub open spec fn excluded(chars: Seq<char>, c: int) -> bool {
    exists|k: int| 0 <= k < chars.len() && #[trigger] chars[k] as int == c
}

/// A code point outside ASCII and outside the surrogate band.
pub open spec fn is_non_ascii(c: int) -> bool {
    (0x80 <= c <= 0xD7FF) || (0xE000 <= c <= 0x10FFFF)
}

/// The number of code points that the ranges of `s` hold together.
pub open spec fn total_size<T>(s: Seq<(CharRange, T)>) -> int
    decreases s.len(),
{
    if s.len() == 0 {
        0
    } else {
        total_size(s.drop_last()) + (s.last().0.end - s.last().0.start + 1)
    }
}

proof fn lemma_total_size_prefix<T>(s: Seq<(CharRange, T)>, i: int)
    requires
        nonempty_ranges(s),
        0 <= i <= s.len(),
    ensures
        total_size(s.take(i)) <= total_size(s),
    decreases s.len() - i,
{
    if i < s.len() {
        lemma_total_size_prefix(s, i + 1);
        assert(s.take(i + 1).drop_last() =~= s.take(i));
        assert(s.take(i + 1).last() == s[i]);
        assert(s[i].0.start <= s[i].0.end);
    } else {
        assert(s.take(i) =~= s);
    }
}

impl CharSet {
    /// Creates a `CharSet` containing every code point.
    pub fn full() -> (r: CharSet)
        ensures
            r@ == seq![(CharRange { start: 0, end: MAX_CHAR }, ())],
            well_formed(r@),
    {
        let mut v: Vec<(CharRange, ())> = Vec::new();
        v.push((CharRange::full(), ()));
        CharSet { map: CharMap { elts: v } }
    }

    /// Creates a `CharSet` containing a single code point.
    pub fn single(ch: u32) -> (r: CharSet)
        ensures
            r@ == seq![(CharRange { start: ch, end: ch }, ())],
            well_formed(r@),
    {
        let mut v: Vec<(CharRange, ())> = Vec::new();
        v.push((CharRange::single(ch), ()));
        CharSet { map: CharMap { elts: v } }
    }

    /// Adds the given (non-empty) range of characters to this set. See `CharMap::push`.
    pub fn push(&mut self, r: CharRange)
        requires
            !r.spec_is_empty(),
        ensures
            final(self)@ == old(self)@.push((r, ())),
    {
        self.map.push(r, &());
    }

    /// Checks if the given character is contained in this set.
    pub fn contains(&self, ch: u32) -> (r: bool)
        requires
            well_formed(self@),
        ensures
            r == covered(self@, ch as int),
    {
        proof {
            lemma_lookup_some_iff_covered(self@, ch as int);
        }
        self.map.get(ch).is_some()
    }

    /// Finds the intersection between this set and `other`.
    pub fn intersect(&self, other: &CharSet) -> (r: CharSet)
        requires
            well_formed(self@),
            well_formed(other@),
        ensures
            well_formed(r@),
            forall|c: int| #[trigger] covered(r@, c) == (covered(self@, c) && covered(other@, c)),
            points(r@) == points(self@).intersect(points(other@)),
            forall|x: (CharRange, ())|
                #[trigger] r@.contains(x) <==> clipped_before(self@, other@, self@.len() as int, x),
    {
        let map = self.map.intersect(other);
        proof {
            assert forall|c: int| #[trigger] covered(map@, c) == (covered(self@, c) && covered(other@, c)) by {
                lemma_lookup_some_iff_covered(map@, c);
                lemma_lookup_some_iff_covered(self@, c);
            }
            assert(points(map@) =~= points(self@).intersect(points(other@)));
        }
        CharSet { map }
    }

    /// Creates a `CharSet` containing all code points except the given ones, which must be in
    /// strictly increasing order.
    #[verifier::spinoff_prover]
    #[verifier::rlimit(100)]
    pub fn except(chars: &str) -> (r: CharSet)
        requires
            forall|i: int, j: int|
                0 <= i < j < chars@.len() ==> (#[trigger] chars@[i] as u32) < (#[trigger] chars@[j] as u32),
        ensures
            well_formed(r@),
            forall|c: int| 0 <= c <= MAX_CHAR ==> #[trigger] covered(r@, c) == !excluded(chars@, c),
            chars@.len() == 0 ==> r@ == seq![(CharRange { start: 0, end: MAX_CHAR }, ())],
            gapped(r@),
    {
        let len = chars.unicode_len();
        if len == 0 {
            let r = CharSet::full();
            proof {
                assert forall|c: int| 0 <= c <= MAX_CHAR implies #[trigger] covered(r@, c) == !excluded(chars@, c) by {
                    assert(r@[0].0.has(c));
                }
            }
            return r;
        }
        let mut ret: Vec<(CharRange, ())> = Vec::new();
        let mut next_allowed: u32 = 0;
        let mut n: u32 = 0;
        let mut i: usize = 0;
        while i < len
            invariant
                len == chars@.len(),
                i <= len,
                forall|i: int, j: int|
                    0 <= i < j < chars@.len() ==> (#[trigger] chars@[i] as u32) < (#[trigger] chars@[j] as u32),
                well_formed(ret@),
                forall|k: int| 0 <= k < ret@.len() ==> #[trigger] ret@[k].0.end < next_allowed,
                gapped(ret@),
                i > 0 && ret@.len() > 0 ==> ret@.last().0.end + 1 < next_allowed,
                i == 0 ==> next_allowed == 0,
                i > 0 ==> n == chars@[i - 1] as u32 && next_allowed == n + 1,
                forall|k: int| 0 <= k < i ==> (#[trigger] chars@[k] as u32) < next_allowed,
                forall|c: int|
                    0 <= c < next_allowed ==> #[trigger] covered(ret@, c) == !excluded(chars@.take(i as int), c),
            decreases len - i,
        {
            let ch = chars.get_char(i);
            n = ch as u32;
            proof {
                if i > 0 {
                    assert((chars@[i - 1] as u32) < (chars@[i as int] as u32));
                }
                assert(n <= 0x10FFFF);
            }
            let ghost before = ret@;
            if n > next_allowed {
                ret.push((CharRange::new(next_allowed, n - 1), ()));
                proof {
                    lemma_gapped_push(before, ret@.last());
                    assert(ret@ == before.push(ret@.last()));
                    lemma_covered_push(before, (CharRange { start: next_allowed, end: (n - 1) as u32 }, ()));
                    assert forall|p: int, q: int|
                        #![trigger ret@[p], ret@[q]]
                        0 <= p < q < ret@.len() implies ret@[p].0.end < ret@[q].0.start by {
                        if q < ret@.len() - 1 {
                            assert(before[p].0.end < before[q].0.start);
                        }
                    }
                }
            }
            proof {
                let t = chars@.take(i + 1);
                assert forall|c: int| 0 <= c < n + 1 implies #[trigger] covered(ret@, c) == !excluded(t, c) by {
                    if excluded(t, c) {
                        let k = choose|k: int| 0 <= k < t.len() && #[trigger] t[k] as int == c;
                        if k < i {
                            assert(chars@.take(i as int)[k] == t[k]);
                        }
                    }
                    if excluded(chars@.take(i as int), c) {
                        let k = choose|k: int| 0 <= k < chars@.take(i as int).len() && #[trigger] chars@.take(i as int)[k] as int == c;
                        assert(t[k] == chars@.take(i as int)[k]);
                    }
                    if c == n {
                        assert(t[i as int] as int == c);
                    }
                    if c >= next_allowed && covered(before, c) {
                        let k = choose|k: int| 0 <= k < before.len() && #[trigger] before[k].0.has(c);
                    }
                }
            }
            next_allowed = n + 1;
            i = i + 1;
        }
        let ghost before = ret@;
        ret.push((CharRange::new(n + 1, MAX_CHAR), ()));
        proof {
            lemma_gapped_push(before, ret@.last());
            assert(ret@ == before.push(ret@.last()));
            assert(chars@.take(i as int) =~= chars@);
            lemma_covered_push(before, (CharRange { start: (n + 1) as u32, end: MAX_CHAR }, ()));
            assert forall|p: int, q: int|
                #![trigger ret@[p], ret@[q]]
                0 <= p < q < ret@.len() implies ret@[p].0.end < ret@[q].0.start by {
                if q < ret@.len() - 1 {
                    assert(before[p].0.end < before[q].0.start);
                }
            }
            assert forall|c: int| 0 <= c <= MAX_CHAR implies #[trigger] covered(ret@, c) == !excluded(chars@, c) by {
                if c > n {
                    if excluded(chars@, c) {
                        let k = choose|k: int| 0 <= k < chars@.len() && #[trigger] chars@[k] as int == c;
                    }
                    if covered(before, c) {
                        let k = choose|k: int| 0 <= k < before.len() && #[trigger] before[k].0.has(c);
                    }
                }
            }
        }
        CharSet { map: CharMap { elts: ret } }
    }
}


impl CharSet {
    /// Counts the number of chars in this set.
    pub fn char_count(&self) -> (r: u32)
        requires
            nonempty_ranges(self@),
            total_size(self@) <= MAX_CHAR,
        ensures
            r == total_size(self@),
    {
        let mut acc: u32 = 0;
        let mut i: usize = 0;
        while i < self.map.elts.len()
            invariant
                i <= self@.len(),
                self@ == self.map.elts@,
                nonempty_ranges(self@),
                total_size(self@) <= MAX_CHAR,
                acc == total_size(self@.take(i as int)),
            decreases self@.len() - i,
        {
            let r = self.map.elts[i].0;
            proof {
                lemma_total_size_prefix(self@, i + 1);
                assert(self@.take(i + 1).drop_last() =~= self@.take(i as int));
                assert(self@.take(i + 1).last() == self@[i as int]);
                assert(r.start <= r.end);
            }
            acc = acc + (r.end - r.start + 1);
            i = i + 1;
        }
        proof {
            assert(self@.take(i as int) =~= self@);
        }
        acc
    }

    /// Checks if all the chars in this set belong to the ASCII range.
    pub fn is_ascii(&self) -> (r: bool)
        requires
            well_formed(self@),
        ensures
            r == forall|c: int| #[trigger] covered(self@, c) ==> c <= 127,
    {
        let n = self.map.elts.len();
        if n == 0 {
            proof {
                assert forall|c: int| #[trigger] covered(self@, c) implies c <= 127 by {
                    let k = choose|k: int| 0 <= k < self@.len() && #[trigger] self@[k].0.has(c);
                }
            }
            true
        } else {
            let last = self.map.elts[n - 1].0;
            proof {
                if last.end <= 127 {
                    assert forall|c: int| #[trigger] covered(self@, c) implies c <= 127 by {
                        let k = choose|k: int| 0 <= k < self@.len() && #[trigger] self@[k].0.has(c);
                        if k < n - 1 {
                            assert(self@[k].0.end < self@[n - 1].0.start);
                        }
                    }
                } else {
                    assert(self@[n - 1].0.has(last.end as int));
                    assert(covered(self@, last.end as int));
                }
            }
            last.end <= 127
        }
    }

    /// Tests whether every code point from `lo` to `hi` lies in this set.
    fn covers(&self, lo: u32, hi: u32) -> (r: bool)
        requires
            well_formed(self@),
            lo <= hi,
        ensures
            r == forall|c: int| lo <= c <= hi ==> #[trigger] covered(self@, c),
    {
        let s = &self.map.elts;
        let mut pos: u32 = lo;
        let mut k: usize = 0;
        while k < s.len()
            invariant
                s@ == self@,
                well_formed(self@),
                lo <= pos <= hi,
                k <= self@.len(),
                forall|c: int| lo <= c < pos ==> #[trigger] covered(self@, c),
                forall|m: int| 0 <= m < k ==> #[trigger] self@[m].0.end < pos,
            decreases self@.len() - k,
        {
            let rg = s[k].0;
            if rg.end >= pos {
                if rg.start <= pos {
                    if rg.end >= hi {
                        proof {
                            assert forall|c: int| lo <= c <= hi implies #[trigger] covered(self@, c) by {
                                if c >= pos {
                                    assert(self@[k as int].0.has(c));
                                }
                            }
                        }
                        return true;
                    }
                    proof {
                        assert forall|c: int| lo <= c < rg.end + 1 implies #[trigger] covered(self@, c) by {
                            if c >= pos {
                                assert(self@[k as int].0.has(c));
                            }
                        }
                    }
                    pos = rg.end + 1;
                } else {
                    proof {
                        if covered(self@, pos as int) {
                            let m = choose|m: int| 0 <= m < self@.len() && #[trigger] self@[m].0.has(pos as int);
                            if m > k {
                                assert(self@[k as int].0.end < self@[m].0.start);
                            }
                        }
                    }
                    return false;
                }
            }
            k = k + 1;
        }
        proof {
            if covered(self@, pos as int) {
                let m = choose|m: int| 0 <= m < self@.len() && #[trigger] self@[m].0.has(pos as int);
            }
        }
        false
    }

    /// Returns true if all non-ASCII chars are contained in this set.
    pub fn contains_non_ascii(&self) -> (r: bool)
        requires
            well_formed(self@),
        ensures
            r == forall|c: int| is_non_ascii(c) ==> #[trigger] covered(self@, c),
    {
        let low = self.covers(0x80, 0xD7FF);
        let high = self.covers(0xE000, 0x10FFFF);
        proof {
            if !low {
                let c = choose|c: int| !(0x80 <= c <= 0xD7FF ==> #[trigger] covered(self@, c));
                assert(is_non_ascii(c));
            }
            if !high {
                let c = choose|c: int| !(0xE000 <= c <= 0x10FFFF ==> #[trigger] covered(self@, c));
                assert(is_non_ascii(c));
            }
        }
        low && high
    }

    /// Returns the set of all characters that are not in this set.
    #[verifier::spinoff_prover]
    #[verifier::rlimit(100)]
    pub fn negated(&self) -> (r: CharSet)
        requires
            well_formed(self@),
        ensures
            well_formed(r@),
            forall|c: int| 0 <= c <= MAX_CHAR ==> #[trigger] covered(r@, c) == !covered(self@, c),
            points(r@) == code_space().difference(points(self@)),
            gapped(r@),
            r@.len() <= self@.len() + 1,
    {
        let s = &self.map.elts;
        let mut ret: Vec<(CharRange, ())> = Vec::new();
        let mut last_end: u32 = 0;
        let mut reached_max = false;
        let mut i: usize = 0;
        proof {
            lemma_covered_all(self@);
        }
        while i < s.len()
            invariant
                s@ == self@,
                well_formed(self@),
                i <= self@.len(),
                reached_max ==> i == self@.len(),
                well_formed(ret@),
                gapped(ret@),
                ret@.len() <= i,
                !reached_max && ret@.len() > 0 ==> ret@.last().0.end + 1 < last_end,
                !reached_max ==> forall|k: int| 0 <= k < ret@.len() ==> #[trigger] ret@[k].0.end < last_end,
                !reached_max && i > 0 ==> last_end == self@[i - 1].0.end + 1,
                !reached_max && i == 0 ==> last_end == 0,
                !reached_max ==> forall|c: int|
                    0 <= c < last_end ==> #[trigger] covered(ret@, c) == !covered(self@.take(i as int), c),
                !reached_max ==> forall|c: int|
                    last_end <= c ==> !#[trigger] covered(self@.take(i as int), c),
                reached_max ==> forall|c: int|
                    0 <= c <= MAX_CHAR ==> #[trigger] covered(ret@, c) == !covered(self@.take(i as int), c),
            decreases self@.len() - i,
        {
            let range = s[i].0;
            let ghost before = ret@;
            proof {
                lemma_covered_take(self@, i as int);
                if i > 0 {
                    assert(self@[i - 1].0.end < self@[i as int].0.start);
                }
                assert(range.start <= range.end);
            }
            if range.start > last_end {
                ret.push((CharRange::new(last_end, range.start - 1), ()));
                proof {
                    lemma_gapped_push(before, ret@.last());
                    assert(ret@ == before.push(ret@.last()));
                    lemma_covered_push(before, (CharRange { start: last_end, end: (range.start - 1) as u32 }, ()));
                    assert forall|p: int, q: int|
                        #![trigger ret@[p], ret@[q]]
                        0 <= p < q < ret@.len() implies ret@[p].0.end < ret@[q].0.start by {
                        if q < ret@.len() - 1 {
                            assert(before[p].0.end < before[q].0.start);
                        }
                    }
                }
            }
            let ghost mid = ret@;
            proof {
                assert forall|c: int| #![trigger covered(mid, c)] 0 <= c <= range.end implies covered(mid, c)
                    == !covered(self@.take(i + 1), c) by {
                    if c >= last_end && covered(before, c) {
                        let k = choose|k: int| 0 <= k < before.len() && #[trigger] before[k].0.has(c);
                    }
                }
                assert forall|c: int| #![trigger covered(mid, c)] range.end < c implies !covered(mid, c) by {
                    if covered(before, c) {
                        let k = choose|k: int| 0 <= k < before.len() && #[trigger] before[k].0.has(c);
                    }
                }
            }
            if range.end == MAX_CHAR {
                reached_max = true;
                proof {
                    if i + 1 < self@.len() {
                        assert(self@[i as int].0.end < self@[i + 1].0.start);
                    }
                }
            } else {
                last_end = range.end + 1;
            }
            i = i + 1;
        }
        if !reached_max {
            let ghost before = ret@;
            ret.push((CharRange::new(last_end, MAX_CHAR), ()));
            proof {
                lemma_gapped_push(before, ret@.last());
                assert(ret@ == before.push(ret@.last()));
                lemma_covered_push(before, (CharRange { start: last_end, end: MAX_CHAR }, ()));
                assert forall|p: int, q: int|
                    #![trigger ret@[p], ret@[q]]
                    0 <= p < q < ret@.len() implies ret@[p].0.end < ret@[q].0.start by {
                    if q < ret@.len() - 1 {
                        assert(before[p].0.end < before[q].0.start);
                    }
                }
                assert forall|c: int| 0 <= c <= MAX_CHAR implies #[trigger] covered(ret@, c) == !covered(self@.take(i as int), c) by {
                    if c >= last_end && covered(before, c) {
                        let k = choose|k: int| 0 <= k < before.len() && #[trigger] before[k].0.has(c);
                    }
                }
            }
        }
        proof {
            lemma_covered_all(self@);
            assert forall|c: int| #[trigger] covered(ret@, c) implies 0 <= c <= MAX_CHAR by {
                let k = choose|k: int| 0 <= k < ret@.len() && #[trigger] ret@[k].0.has(c);
            }
            assert(points(ret@) =~= code_space().difference(points(self@)));
        }
        CharSet { map: CharMap { elts: ret } }
    }
}


/// The code points that the ranges of `s` hold.
pub open spec fn points<T>(s: Seq<(CharRange, T)>) -> Set<int> {
    Set::new(|c: int| covered(s, c))
}

/// Every code point a range can mention.
pub open spec fn code_space() -> Set<int> {
    Set::new(|c: int| 0 <= c <= MAX_CHAR)
}

/// The code points of a union, and of an intersection, of range sets do not depend on the order
/// of the arguments; a set together with its negation holds the whole code space, and the two
/// share no code point.
pub proof fn lemma_set_algebra(a: Seq<(CharRange, ())>, b: Seq<(CharRange, ())>)
    ensures
        points(a).union(points(b)) == points(b).union(points(a)),
        points(a).intersect(points(b)) == points(b).intersect(points(a)),
        points(a).union(code_space().difference(points(a))) == code_space(),
        points(a).intersect(code_space().difference(points(a))) == Set::<int>::empty(),
{
    assert(points(a).union(points(b)) =~= points(b).union(points(a)));
    assert(points(a).intersect(points(b)) =~= points(b).intersect(points(a)));
    assert forall|c: int| points(a).contains(c) implies code_space().contains(c) by {
        let k = choose|k: int| 0 <= k < a.len() && #[trigger] a[k].0.has(c);
    }
    assert(points(a).union(code_space().difference(points(a))) =~= code_space());
    assert(points(a).intersect(code_space().difference(points(a))) =~= Set::<int>::empty());
}

impl CharSet {
    /// Minimizes the number of ranges used to represent this set, merging ranges that touch.
    pub fn normalize(&mut self)
        ensures
            final(self)@ == normalized(old(self)@),
    {
        let n = self.map.elts.len();
        let mut vec: Vec<(CharRange, ())> = Vec::with_capacity(n);
        if n > 0 {
            vec.push(self.map.elts[0]);
            proof {
                let one = self@.take(1);
                assert(one.drop_last() =~= Seq::<(CharRange, ())>::empty());
                assert(normalized(one.drop_last()) == Seq::<(CharRange, ())>::empty());
                assert(vec@ =~= normalized(one));
            }
            let mut i: usize = 1;
            while i < n
                invariant
                    1 <= i <= n,
                    n == self@.len(),
                    self@ == self.map.elts@,
                    vec@ == normalized(self@.take(i as int)),
                decreases n - i,
            {
                proof {
                    lemma_normalized_shape(self@.take(i as int));
                }
                let elt = self.map.elts[i];
                let last_idx = vec.len() - 1;
                let last = vec[last_idx];
                let ghost prev = vec@;
                let ghost next = self@.take(i + 1);
                proof {
                    assert(next.drop_last() =~= self@.take(i as int));
                    assert(next.last() == elt);
                    assert(prev.last() == last);
                }
                if elt.0.start > 0 && elt.0.start - 1 == last.0.end {
                    vec.set(last_idx, (CharRange::new(last.0.start, elt.0.end), ()));
                    proof {
                        assert(mergeable(prev.last(), elt));
                        assert(vec@ =~= normalized(next));
                    }
                } else {
                    vec.push(elt);
                    proof {
                        assert(!mergeable(prev.last(), elt));
                        assert(vec@ =~= normalized(next));
                    }
                }
                i = i + 1;
            }
            proof {
                assert(self@.take(n as int) =~= self@);
            }
        }
        self.map.elts = vec;
    }
}

impl PartialEq for CharSet {
    fn eq(&self, other: &CharSet) -> (r: bool)
        ensures
            r == (self@ == other@),
    {
        if self.map.elts.len() != other.map.elts.len() {
            return false;
        }
        let mut i: usize = 0;
        while i < self.map.elts.len()
            invariant
                i <= self@.len(),
                self@.len() == other@.len(),
                self@ == self.map.elts@,
                other@ == other.map.elts@,
                forall|k: int| 0 <= k < i ==> #[trigger] self@[k] == other@[k],
            decreases self@.len() - i,
        {
            if self.map.elts[i].0 != other.map.elts[i].0 {
                return false;
            }
            i = i + 1;
        }
        proof {
            assert(self@ =~= other@);
        }
        true
    }
}

impl vstd::std_specs::cmp::PartialEqSpecImpl for CharSet {
    open spec fn obeys_eq_spec() -> bool {
        true
    }

    open spec fn eq_spec(&self, other: &CharSet) -> bool {
        self@ == other@
    }
}


/// The two ranges share a code point, as the scan over a sorted set tests it.
pub open spec fn meets(r: CharRange, s: CharRange) -> bool {
    s.end >= r.start && s.start <= r.end
}

/// The clipped copies of entry `e` against the first `n` ranges of `b`: one for each range
/// that meets `e`, in order, carrying the value of `e`.
pub open spec fn clip_row<T>(e: (CharRange, T), b: Seq<(CharRange, ())>, n: int) -> Seq<(CharRange, T)>
    decreases n,
{
    if n <= 0 || n > b.len() {
        Seq::empty()
    } else {
        let rest = clip_row(e, b, n - 1);
        if meets(e.0, b[n - 1].0) {
            rest.push((e.0.spec_intersection(b[n - 1].0), e.1))
        } else {
            rest
        }
    }
}

/// The rows of `clip_row` for every entry of `a`, one after the other.
pub open spec fn clip_all<T>(a: Seq<(CharRange, T)>, b: Seq<(CharRange, ())>) -> Seq<(CharRange, T)>
    decreases a.len(),
{
    if a.len() == 0 {
        Seq::empty()
    } else {
        clip_all(a.drop_last(), b) + clip_row(a.last(), b, b.len() as int)
    }
}

proof fn lemma_clip_row_skip<T>(e: (CharRange, T), b: Seq<(CharRange, ())>, m: int, n: int)
    requires
        0 <= m <= n <= b.len(),
        forall|k: int| m <= k < n ==> !meets(e.0, #[trigger] b[k].0),
    ensures
        clip_row(e, b, n) == clip_row(e, b, m),
    decreases n - m,
{
    if m < n {
        lemma_clip_row_skip(e, b, m, n - 1);
    }
}

/// A multi-valued mapping from chars to other data: ranges may overlap and repeat.
#[derive(Debug)]
pub struct CharMultiMap<T> {
    elts: Vec<(CharRange, T)>,
}

impl<T> View for CharMultiMap<T> {
    type V = Seq<(CharRange, T)>;

    closed spec fn view(&self) -> Seq<(CharRange, T)> {
        self.elts@
    }
}

impl<T: Copy + PartialEq> CharMultiMap<T> {
    /// Creates a new empty `CharMultiMap`.
    pub fn new() -> (r: CharMultiMap<T>)
        ensures
            r@ == Seq::<(CharRange, T)>::empty(),
    {
        CharMultiMap { elts: Vec::new() }
    }

    /// Adds a new mapping from a range of characters to `data`.
    pub fn push(&mut self, range: CharRange, data: &T)
        ensures
            final(self)@ == old(self)@.push((range, *data)),
    {
        self.elts.push((range, *data));
    }

    /// Creates a `CharMultiMap` from a vector of pairs.
    pub fn from_vec(vec: Vec<(CharRange, T)>) -> (r: CharMultiMap<T>)
        ensures
            r@ == vec@,
    {
        CharMultiMap { elts: vec }
    }

    /// The entries, in order.
    pub fn entries(&self) -> (r: &[(CharRange, T)])
        ensures
            r@ == self@,
    {
        self.elts.as_slice()
    }

    /// Returns a new `CharMultiMap` containing only the mappings for chars that belong to the
    /// given set: each entry is clipped to every range of the set that it meets.
    pub fn intersect(&self, other: &CharSet) -> (r: CharMultiMap<T>)
        requires
            well_formed(other@),
        ensures
            r@ == clip_all(self@, other@),
    {
        let b = &other.map.elts;
        let ghost sb = b@;
        let mut ret: Vec<(CharRange, T)> = Vec::new();
        let mut i: usize = 0;
        while i < self.elts.len()
            invariant
                i <= self@.len(),
                self@ == self.elts@,
                sb == b@,
                sb == other@,
                well_formed(sb),
                ret@ == clip_all(self@.take(i as int), sb),
            decreases self@.len() - i,
        {
            let (my_range, data) = self.elts[i];
            let e = (my_range, data);
            // The first range of the set that does not end before this entry starts.
            let mut lo: usize = 0;
            let mut hi: usize = b.len();
            while lo < hi
                invariant
                    0 <= lo <= hi <= sb.len(),
                    sb == b@,
                    well_formed(sb),
                    forall|k: int| 0 <= k < lo ==> #[trigger] sb[k].0.end < my_range.start,
                    forall|k: int| hi <= k < sb.len() ==> #[trigger] sb[k].0.end >= my_range.start,
                decreases hi - lo,
            {
                let mid = lo + (hi - lo) / 2;
                if b[mid].0.end < my_range.start {
                    proof {
                        assert forall|k: int| 0 <= k < mid + 1 implies #[trigger] sb[k].0.end
                            < my_range.start by {
                            if k < mid {
                                assert(sb[k].0.end < sb[mid as int].0.start);
                            }
                        }
                    }
                    lo = mid + 1;
                } else {
                    proof {
                        assert forall|k: int| mid <= k < sb.len() implies #[trigger] sb[k].0.end
                            >= my_range.start by {
                            if k > mid {
                                assert(sb[mid as int].0.end < sb[k].0.start);
                            }
                        }
                    }
                    hi = mid;
                }
            }
            proof {
                lemma_clip_row_skip(e, sb, 0, lo as int);
                assert(self@.take(i + 1).drop_last() =~= self@.take(i as int));
                assert(self@.take(i + 1).last() == e);
            }
            let ghost base = ret@;
            let mut k: usize = lo;
            let mut done = false;
            while !done && k < b.len()
                invariant
                    lo <= k <= sb.len(),
                    sb == b@,
                    well_formed(sb),
                    e.0 == my_range,
                    e.1 == data,
                    forall|m: int| lo <= m < sb.len() ==> #[trigger] sb[m].0.end >= my_range.start,
                    !done ==> ret@ == base + clip_row(e, sb, k as int),
                    done ==> ret@ == base + clip_row(e, sb, sb.len() as int),
                decreases sb.len() - k, if done { 0int } else { 1int },
            {
                let other_range = b[k].0;
                if other_range.start > my_range.end {
                    proof {
                        assert(sb[k as int].0.start <= sb[k as int].0.end);
                        assert forall|m: int| k <= m < sb.len() implies !meets(e.0, #[trigger] sb[m].0) by {
                            if m > k {
                                assert(sb[k as int].0.end < sb[m].0.start);
                            }
                        }
                        lemma_clip_row_skip(e, sb, k as int, sb.len() as int);
                    }
                    done = true;
                } else {
                    ret.push((my_range.intersection(&other_range), data));
                    proof {
                        assert(sb[k as int].0.end >= my_range.start);
                        assert(meets(e.0, sb[k as int].0));
                        assert(ret@ =~= base + clip_row(e, sb, k + 1));
                    }
                    k = k + 1;
                }
            }
            proof {
                assert(clip_all(self@.take(i + 1), sb) == clip_all(self@.take(i as int), sb) + clip_row(
                    e,
                    sb,
                    sb.len() as int,
                ));
                assert(ret@ =~= clip_all(self@.take(i + 1), sb));
            }
            i = i + 1;
        }
        proof {
            assert(self@.take(i as int) =~= self@);
        }
        CharMultiMap { elts: ret }
    }

    /// Returns a new `CharMultiMap`, containing only those mappings with values `v`
    /// satisfying `f(v)`.
    pub fn filter_values<F: Fn(&T) -> bool>(&self, f: F) -> (r: CharMultiMap<T>)
        requires
            forall|i: int| 0 <= i < self@.len() ==> f.requires((&#[trigger] self@[i].1,)),
        ensures
            exists|keep: Seq<bool>|
                {
                    &&& keep.len() == self@.len()
                    &&& forall|i: int|
                        0 <= i < self@.len() ==> f.ensures((&self@[i].1,), #[trigger] keep[i])
                    &&& r@ == select(self@, keep)
                },
    {
        proof {
            assert forall|i: int| 0 <= i < self.elts@.len() implies f.requires(
                (&#[trigger] self.elts@[i].1,),
            ) by {
                assert(self.elts@[i] == self@[i]);
            }
        }
        CharMultiMap { elts: filter_entries(&self.elts, f) }
    }
}

impl<T: Copy + PartialEq> PartialEq for CharMultiMap<T> {
    fn eq(&self, other: &CharMultiMap<T>) -> (r: bool)
        ensures
            obeys_concrete_eq::<T>() ==> r == (self@ == other@),
    {
        entries_equal(&self.elts, &other.elts)
    }
}

impl<T: Copy + PartialEq> vstd::std_specs::cmp::PartialEqSpecImpl for CharMultiMap<T> {
    open spec fn obeys_eq_spec() -> bool {
        obeys_concrete_eq::<T>()
    }

    open spec fn eq_spec(&self, other: &CharMultiMap<T>) -> bool {
        self@ == other@
    }
}


/// The code points at which some range of `s` starts, or right after which one ends.
pub open spec fn boundaries<T>(s: Seq<(CharRange, T)>) -> Set<int> {
    Set::new(
        |x: int|
            exists|i: int|
                0 <= i < s.len() && (x == (#[trigger] s[i]).0.start || (s[i].0.end < MAX_CHAR && x
                    == s[i].0.end + 1)),
    )
}

/// The range from `lo` to `hi`, carrying `v`, cut right before each point of `bs`.
pub open spec fn pieces<T>(lo: int, hi: int, v: T, bs: Set<int>) -> Seq<(CharRange, T)>
    decreases hi - lo,
{
    if lo > hi {
        Seq::empty()
    } else if lo == hi {
        seq![(CharRange { start: lo as u32, end: hi as u32 }, v)]
    } else {
        let rest = pieces(lo + 1, hi, v, bs);
        if bs.contains(lo + 1) {
            seq![(CharRange { start: lo as u32, end: lo as u32 }, v)] + rest
        } else {
            seq![(CharRange { start: lo as u32, end: rest[0].0.end }, v)] + rest.drop_first()
        }
    }
}

/// The pieces of every entry of `s`, cut at the points of `bs`, one entry after the other.
pub open spec fn split_all<T>(s: Seq<(CharRange, T)>, bs: Set<int>) -> Seq<(CharRange, T)>
    decreases s.len(),
{
    if s.len() == 0 {
        Seq::empty()
    } else {
        split_all(s.drop_last(), bs) + pieces(
            s.last().0.start as int,
            s.last().0.end as int,
            s.last().1,
            bs,
        )
    }
}

proof fn lemma_pieces_uncut<T>(lo: int, hi: int, v: T, bs: Set<int>)
    requires
        lo <= hi,
        forall|b: int| lo < b <= hi ==> !bs.contains(b),
    ensures
        pieces(lo, hi, v, bs) == seq![(CharRange { start: lo as u32, end: hi as u32 }, v)],
    decreases hi - lo,
{
    if lo < hi {
        lemma_pieces_uncut(lo + 1, hi, v, bs);
        let rest = pieces(lo + 1, hi, v, bs);
        assert(rest.drop_first() =~= Seq::<(CharRange, T)>::empty());
        assert(pieces(lo, hi, v, bs) =~= seq![(CharRange { start: lo as u32, end: hi as u32 }, v)]);
    }
}

proof fn lemma_pieces_cut<T>(lo: int, m: int, hi: int, v: T, bs: Set<int>)
    requires
        lo <= m < hi,
        bs.contains(m + 1),
        forall|b: int| lo < b <= m ==> !bs.contains(b),
    ensures
        pieces(lo, hi, v, bs) == seq![(CharRange { start: lo as u32, end: m as u32 }, v)] + pieces(
            m + 1,
            hi,
            v,
            bs,
        ),
    decreases m - lo,
{
    if lo < m {
        lemma_pieces_cut(lo + 1, m, hi, v, bs);
        let rest = pieces(lo + 1, hi, v, bs);
        assert(rest.drop_first() =~= pieces(m + 1, hi, v, bs));
        assert(pieces(lo, hi, v, bs) =~= seq![(CharRange { start: lo as u32, end: m as u32 }, v)]
            + pieces(m + 1, hi, v, bs));
    }
}

/// `v` is strictly increasing.
pub open spec fn strictly_sorted(v: Seq<u32>) -> bool {
    forall|i: int, j: int| 0 <= i < j < v.len() ==> v[i] < v[j]
}

/// Inserts `x` into the strictly increasing `v`, unless it is already there.
fn insert_sorted(v: &mut Vec<u32>, x: u32)
    requires
        strictly_sorted(old(v)@),
    ensures
        strictly_sorted(final(v)@),
        forall|y: u32| final(v)@.contains(y) <==> (old(v)@.contains(y) || y == x),
{
    let mut lo: usize = 0;
    let mut hi: usize = v.len();
    while lo < hi
        invariant
            0 <= lo <= hi <= v@.len(),
            v@ == old(v)@,
            strictly_sorted(v@),
            forall|k: int| 0 <= k < lo ==> #[trigger] v@[k] < x,
            forall|k: int| hi <= k < v@.len() ==> #[trigger] v@[k] >= x,
        decreases hi - lo,
    {
        let mid = lo + (hi - lo) / 2;
        if v[mid] < x {
            lo = mid + 1;
        } else {
            hi = mid;
        }
    }
    if lo < v.len() && v[lo] == x {
        proof {
            assert(v@[lo as int] == x);
            assert(v@.contains(x));
        }
        return;
    }
    let ghost before = v@;
    v.insert(lo, x);
    proof {
        assert forall|y: u32| v@.contains(y) <==> (before.contains(y) || y == x) by {
            if v@.contains(y) {
                let k = choose|k: int| 0 <= k < v@.len() && v@[k] == y;
                if k < lo {
                    assert(before[k] == y);
                } else if k > lo {
                    assert(before[k - 1] == y);
                }
            }
            if before.contains(y) {
                let k = choose|k: int| 0 <= k < before.len() && before[k] == y;
                if k < lo {
                    assert(v@[k] == y);
                } else {
                    assert(v@[k + 1] == y);
                }
            }
            if y == x {
                assert(v@[lo as int] == y);
            }
        }
        assert(before == old(v)@);
        assert forall|y: u32| v@.contains(y) <==> (old(v)@.contains(y) || y == x) by {
            assert(v@.contains(y) <==> (before.contains(y) || y == x));
        }
    }
}

impl<T: Copy + PartialEq> CharMultiMap<T> {
    /// Splits the ranges into equal or disjoint ones: every range is cut right before each
    /// point at which some range of the map starts or right after which one ends.
    pub fn split(&self) -> (r: CharMultiMap<T>)
        requires
            nonempty_ranges(self@),
        ensures
            r@ == split_all(self@, boundaries(self@)),
    {
        let s = &self.elts;
        let ghost ss = s@;
        let ghost bs = boundaries(ss);
        let mut start_chars: Vec<u32> = Vec::new();
        let mut i: usize = 0;
        while i < s.len()
            invariant
                ss == s@,
                i <= ss.len(),
                strictly_sorted(start_chars@),
                forall|y: u32|
                    start_chars@.contains(y) <==> boundaries(ss.take(i as int)).contains(y as int),
            decreases ss.len() - i,
        {
            let range = s[i].0;
            insert_sorted(&mut start_chars, range.start);
            if range.end < MAX_CHAR {
                insert_sorted(&mut start_chars, range.end + 1);
            }
            proof {
                let t = ss.take(i + 1);
                assert forall|y: u32|
                    start_chars@.contains(y) <==> boundaries(t).contains(y as int) by {
                    if boundaries(t).contains(y as int) {
                        let k = choose|k: int|
                            0 <= k < t.len() && (y == (#[trigger] t[k]).0.start || (t[k].0.end < MAX_CHAR
                                && y == t[k].0.end + 1));
                        if k < i {
                            assert(ss.take(i as int)[k] == t[k]);
                        }
                    }
                    if boundaries(ss.take(i as int)).contains(y as int) {
                        let k = choose|k: int|
                            0 <= k < ss.take(i as int).len() && (y == (#[trigger] ss.take(
                                i as int,
                            )[k]).0.start || (ss.take(i as int)[k].0.end < MAX_CHAR && y == ss.take(
                                i as int,
                            )[k].0.end + 1));
                        assert(t[k] == ss.take(i as int)[k]);
                    }
                    if y == range.start || (range.end < MAX_CHAR && y == range.end + 1) {
                        assert(t[i as int] == ss[i as int]);
                    }
                }
            }
            i = i + 1;
        }
        proof {
            assert(ss.take(i as int) =~= ss);
        }
        let sc = &start_chars;
        let mut ret: Vec<(CharRange, T)> = Vec::new();
        let mut i: usize = 0;
        while i < s.len()
            invariant
                ss == s@,
                nonempty_ranges(ss),
                bs == boundaries(ss),
                i <= ss.len(),
                strictly_sorted(sc@),
                forall|y: u32| sc@.contains(y) <==> bs.contains(y as int),
                ret@ == split_all(ss.take(i as int), bs),
            decreases ss.len() - i,
        {
            let (range, state) = s[i];
            proof {
                assert(range.start <= range.end);
            }
            // The first boundary after the start of the range.
            let mut lo: usize = 0;
            let mut hi: usize = sc.len();
            while lo < hi
                invariant
                    0 <= lo <= hi <= sc@.len(),
                    strictly_sorted(sc@),
                    forall|k: int| 0 <= k < lo ==> #[trigger] sc@[k] <= range.start,
                    forall|k: int| hi <= k < sc@.len() ==> #[trigger] sc@[k] > range.start,
                decreases hi - lo,
            {
                let mid = lo + (hi - lo) / 2;
                if sc[mid] <= range.start {
                    lo = mid + 1;
                } else {
                    hi = mid;
                }
            }
            let mut idx = lo;
            let mut last = range.start;
            let mut done = false;
            let ghost base = ret@;
            while !done
                invariant
                    strictly_sorted(sc@),
                    forall|y: u32| sc@.contains(y) <==> bs.contains(y as int),
                    range.start <= last <= range.end,
                    idx <= sc@.len(),
                    forall|k: int| 0 <= k < idx ==> #[trigger] sc@[k] <= last,
                    idx < sc@.len() ==> sc@[idx as int] > last,
                    !done ==> base + pieces(range.start as int, range.end as int, state, bs) == ret@
                        + pieces(last as int, range.end as int, state, bs),
                    done ==> ret@ == base + pieces(range.start as int, range.end as int, state, bs),
                decreases sc@.len() - idx, if done { 0int } else { 1int },
            {
                if idx >= sc.len() || sc[idx] > range.end {
                    proof {
                        assert forall|b: int| last < b <= range.end implies !bs.contains(b) by {
                            if bs.contains(b) {
                                assert(sc@.contains(b as u32));
                                let k = choose|k: int| 0 <= k < sc@.len() && sc@[k] == b as u32;
                                if k >= idx {
                                    if k > idx {
                                        assert(sc@[idx as int] < sc@[k]);
                                    }
                                }
                            }
                        }
                        lemma_pieces_uncut(last as int, range.end as int, state, bs);
                    }
                    ret.push((CharRange::new(last, range.end), state));
                    proof {
                        assert(ret@ =~= base + pieces(range.start as int, range.end as int, state, bs));
                    }
                    done = true;
                } else {
                    let next = sc[idx];
                    proof {
                        assert(sc@.contains(next));
                        assert forall|b: int| last < b <= next - 1 implies !bs.contains(b) by {
                            if bs.contains(b) {
                                assert(sc@.contains(b as u32));
                                let k = choose|k: int| 0 <= k < sc@.len() && sc@[k] == b as u32;
                                if k > idx {
                                    assert(sc@[idx as int] < sc@[k]);
                                }
                            }
                        }
                        lemma_pieces_cut(last as int, next - 1, range.end as int, state, bs);
                    }
                    let ghost before = ret@;
                    ret.push((CharRange::new(last, next - 1), state));
                    proof {
                        assert(ret@ + pieces(next as int, range.end as int, state, bs) =~= before
                            + pieces(last as int, range.end as int, state, bs));
                        if idx + 1 < sc@.len() {
                            assert(sc@[idx as int] < sc@[idx + 1]);
                        }
                    }
                    last = next;
                    idx = idx + 1;
                }
            }
            proof {
                assert(ss.take(i + 1).drop_last() =~= ss.take(i as int));
                assert(ss.take(i + 1).last() == ss[i as int]);
            }
            i = i + 1;
        }
        proof {
            assert(ss.take(i as int) =~= ss);
        }
        CharMultiMap { elts: ret }
    }
}


/// `p` starts at a point of `bs`, ends right before one (or at the top of the code space), holds
/// at least one code point, and no point of `bs` lies inside it past its start.
pub open spec fn is_atomic(p: CharRange, bs: Set<int>) -> bool {
    &&& bs.contains(p.start as int)
    &&& (p.end == MAX_CHAR || bs.contains(p.end + 1))
    &&& p.start <= p.end
    &&& forall|b: int| p.start < b <= p.end ==> !bs.contains(b)
}

proof fn lemma_pieces_shape<T>(lo: int, hi: int, v: T, bs: Set<int>)
    requires
        0 <= lo <= hi <= MAX_CHAR,
    ensures
        ({
            let ps = pieces(lo, hi, v, bs);
            &&& ps.len() > 0
            &&& ps[0].0.start == lo
            &&& forall|k: int| 0 <= k < ps.len() ==> (#[trigger] ps[k]).1 == v
            &&& forall|k: int| 0 < k < ps.len() ==> bs.contains((#[trigger] ps[k]).0.start as int)
            &&& forall|k: int|
                0 <= k < ps.len() ==> (#[trigger] ps[k]).0.start <= ps[k].0.end && (ps[k].0.end
                    == hi || bs.contains(ps[k].0.end + 1))
            &&& forall|k: int, b: int|
                #![trigger ps[k], bs.contains(b)]
                0 <= k < ps.len() && ps[k].0.start < b <= ps[k].0.end ==> !bs.contains(b)
            &&& forall|c: int| #[trigger] covered(ps, c) <==> lo <= c <= hi
        }),
    decreases hi - lo,
{
    let ps = pieces(lo, hi, v, bs);
    if lo == hi {
        assert forall|c: int| #[trigger] covered(ps, c) <==> lo <= c <= hi by {
            if lo <= c <= hi {
                assert(ps[0].0.has(c));
            }
        }
    } else {
        lemma_pieces_shape(lo + 1, hi, v, bs);
        let rest = pieces(lo + 1, hi, v, bs);
        if bs.contains(lo + 1) {
            assert forall|k: int| 0 < k < ps.len() implies ps[k] == rest[k - 1] by {}
            assert forall|c: int| #[trigger] covered(ps, c) <==> lo <= c <= hi by {
                if covered(ps, c) {
                    let k = choose|k: int| 0 <= k < ps.len() && #[trigger] ps[k].0.has(c);
                    if k > 0 {
                        assert(rest[k - 1].0.has(c));
                        assert(covered(rest, c));
                    }
                }
                if lo + 1 <= c <= hi {
                    assert(covered(rest, c));
                    let k = choose|k: int| 0 <= k < rest.len() && #[trigger] rest[k].0.has(c);
                    assert(ps[k + 1].0.has(c));
                } else if c == lo {
                    assert(ps[0].0.has(c));
                }
            }
        } else {
            assert forall|k: int| 0 < k < ps.len() implies ps[k] == rest[k] by {}
            assert forall|k: int, b: int|
                #![trigger ps[k], bs.contains(b)]
                0 <= k < ps.len() && ps[k].0.start < b <= ps[k].0.end implies !bs.contains(b) by {
                if k == 0 && b > lo + 1 {
                    assert(rest[0].0.start < b <= rest[0].0.end);
                }
                if k > 0 {
                    assert(rest[k].0.start < b <= rest[k].0.end);
                }
            }
            assert forall|c: int| #[trigger] covered(ps, c) <==> lo <= c <= hi by {
                if covered(ps, c) {
                    let k = choose|k: int| 0 <= k < ps.len() && #[trigger] ps[k].0.has(c);
                    if k > 0 {
                        assert(rest[k].0.has(c));
                        assert(covered(rest, c));
                    } else if c > lo {
                        assert(rest[0].0.has(c));
                        assert(covered(rest, c));
                    }
                }
                if lo + 1 <= c <= hi {
                    assert(covered(rest, c));
                    let k = choose|k: int| 0 <= k < rest.len() && #[trigger] rest[k].0.has(c);
                    if k > 0 {
                        assert(ps[k].0.has(c));
                    } else {
                        assert(ps[0].0.has(c));
                    }
                } else if c == lo {
                    assert(ps[0].0.has(c));
                }
            }
        }
    }
}

proof fn lemma_split_all_atomic<T>(s: Seq<(CharRange, T)>, bs: Set<int>)
    requires
        nonempty_ranges(s),
        forall|i: int|
            0 <= i < s.len() ==> bs.contains((#[trigger] s[i]).0.start as int) && (s[i].0.end == MAX_CHAR
                || bs.contains(s[i].0.end + 1)),
    ensures
        forall|k: int| 0 <= k < split_all(s, bs).len() ==> is_atomic(#[trigger] split_all(s, bs)[k].0, bs),
    decreases s.len(),
{
    if s.len() > 0 {
        let t = s.drop_last();
        assert forall|i: int| 0 <= i < t.len() implies bs.contains((#[trigger] t[i]).0.start as int) && (
        t[i].0.end == MAX_CHAR || bs.contains(t[i].0.end + 1)) by {
            assert(t[i] == s[i]);
        }
        assert(nonempty_ranges(t));
        lemma_split_all_atomic(t, bs);
        let e = s.last();
        assert(e == s[s.len() - 1]);
        lemma_pieces_shape(e.0.start as int, e.0.end as int, e.1, bs);
        let a = split_all(t, bs);
        let ps = pieces(e.0.start as int, e.0.end as int, e.1, bs);
        let out = split_all(s, bs);
        assert(out == a + ps);
        assert forall|k: int| 0 <= k < out.len() implies is_atomic(#[trigger] out[k].0, bs) by {
            if k >= a.len() {
                assert(out[k] == ps[k - a.len()]);
            } else {
                assert(out[k] == a[k]);
            }
        }
    }
}

/// Splitting a multi-valued map gives ranges that are pairwise identical or disjoint; and
/// the pieces that `split_all` puts in place of each entry carry the value of the entry and
/// together hold exactly the code points of its range.
pub proof fn lemma_split_laws<T>(s: Seq<(CharRange, T)>)
    requires
        nonempty_ranges(s),
    ensures
        forall|p: int, q: int|
            0 <= p < split_all(s, boundaries(s)).len() && 0 <= q < split_all(s, boundaries(s)).len()
                ==> (#[trigger] split_all(s, boundaries(s))[p]).0 == (#[trigger] split_all(
                s,
                boundaries(s),
            )[q]).0 || !split_all(s, boundaries(s))[p].0.overlaps(split_all(s, boundaries(s))[q].0),
        forall|i: int, c: int|
            0 <= i < s.len() ==> (#[trigger] covered(
                pieces(s[i].0.start as int, s[i].0.end as int, s[i].1, boundaries(s)),
                c,
            ) <==> s[i].0.has(c)),
        forall|i: int, k: int|
            0 <= i < s.len() && 0 <= k < pieces(
                s[i].0.start as int,
                s[i].0.end as int,
                s[i].1,
                boundaries(s),
            ).len() ==> (#[trigger] pieces(
                s[i].0.start as int,
                s[i].0.end as int,
                s[i].1,
                boundaries(s),
            )[k]).1 == s[i].1,
{
    let bs = boundaries(s);
    assert forall|i: int|
        0 <= i < s.len() implies bs.contains((#[trigger] s[i]).0.start as int) && (s[i].0.end == MAX_CHAR
            || bs.contains(s[i].0.end + 1)) by {}
    lemma_split_all_atomic(s, bs);
    let out = split_all(s, bs);
    assert forall|p: int, q: int|
        0 <= p < out.len() && 0 <= q < out.len() implies (#[trigger] out[p]).0 == (#[trigger] out[q]).0
            || !out[p].0.overlaps(out[q].0) by {
        let x = out[p].0;
        let y = out[q].0;
        assert(is_atomic(x, bs) && is_atomic(y, bs));
        if x.overlaps(y) {
            let c = choose|c: int| x.has(c) && y.has(c);
            if x.start < y.start {
                assert(!bs.contains(y.start as int));
            }
            if y.start < x.start {
                assert(!bs.contains(x.start as int));
            }
            if x.end < y.end {
                assert(!bs.contains(x.end + 1));
            }
            if y.end < x.end {
                assert(!bs.contains(y.end + 1));
            }
        }
    }
    assert forall|i: int, c: int|
        0 <= i < s.len() implies (#[trigger] covered(
            pieces(s[i].0.start as int, s[i].0.end as int, s[i].1, bs),
            c,
        ) <==> s[i].0.has(c)) by {
        lemma_pieces_shape(s[i].0.start as int, s[i].0.end as int, s[i].1, bs);
    }
    assert forall|i: int, k: int|
        0 <= i < s.len() && 0 <= k < pieces(s[i].0.start as int, s[i].0.end as int, s[i].1, bs).len()
            implies (#[trigger] pieces(s[i].0.start as int, s[i].0.end as int, s[i].1, bs)[k]).1
            == s[i].1 by {
        lemma_pieces_shape(s[i].0.start as int, s[i].0.end as int, s[i].1, bs);
    }
}


proof fn lemma_covered_concat<T>(a: Seq<(CharRange, T)>, b: Seq<(CharRange, T)>, c: int)
    ensures
        covered(a + b, c) == (covered(a, c) || covered(b, c)),
{
    if covered(a + b, c) {
        let k = choose|k: int| 0 <= k < (a + b).len() && #[trigger] (a + b)[k].0.has(c);
        if k < a.len() {
            assert(a[k].0.has(c));
        } else {
            assert(b[k - a.len()].0.has(c));
        }
    }
    if covered(a, c) {
        let k = choose|k: int| 0 <= k < a.len() && #[trigger] a[k].0.has(c);
        assert((a + b)[k].0.has(c));
    }
    if covered(b, c) {
        let k = choose|k: int| 0 <= k < b.len() && #[trigger] b[k].0.has(c);
        assert((a + b)[k + a.len()].0.has(c));
    }
}

proof fn lemma_split_covers<T>(s: Seq<(CharRange, T)>, c: int)
    requires
        nonempty_ranges(s),
    ensures
        covered(split_all(s, boundaries(s)), c) == covered(s, c),
{
    lemma_split_all_covers(s, boundaries(s), c);
}

proof fn lemma_split_all_covers<T>(s: Seq<(CharRange, T)>, bs: Set<int>, c: int)
    requires
        nonempty_ranges(s),
    ensures
        covered(split_all(s, bs), c) == covered(s, c),
    decreases s.len(),
{
    if s.len() > 0 {
        let t = s.drop_last();
        assert(nonempty_ranges(t));
        lemma_split_all_covers(t, bs, c);
        let e = s.last();
        assert(e == s[s.len() - 1]);
        lemma_pieces_shape(e.0.start as int, e.0.end as int, e.1, bs);
        lemma_covered_concat(split_all(t, bs), pieces(e.0.start as int, e.0.end as int, e.1, bs), c);
        assert(s == t.push(e));
        lemma_covered_push(t, e);
    }
}

/// The values that the entries of `s` with range exactly `rg` carry.
pub open spec fn values_at(s: Seq<(CharRange, usize)>, rg: CharRange) -> Set<int> {
    Set::new(|x: int| exists|q: int| 0 <= q < s.len() && (#[trigger] s[q]).0 == rg && s[q].1 == x)
}

/// The values that the entries of `s` among the first `n` with range exactly `rg` carry.
spec fn values_before(s: Seq<(CharRange, usize)>, n: int, rg: CharRange) -> Set<int> {
    Set::new(|x: int| exists|q: int| 0 <= q < n && (#[trigger] s[q]).0 == rg && s[q].1 == x)
}

impl CharMultiMap<usize> {
    /// Makes the ranges sorted and non-overlapping: the result maps each range that `split`
    /// produces to the set of values that `split` gives it.
    pub fn group(&self) -> (r: CharMap<StateSet>)
        requires
            nonempty_ranges(self@),
        ensures
            well_formed(r@),
            forall|k: int|
                0 <= k < r@.len() ==> members((#[trigger] r@[k]).1) == values_at(
                    split_all(self@, boundaries(self@)),
                    r@[k].0,
                ),
            forall|k: int|
                0 <= k < r@.len() ==> members((#[trigger] r@[k]).1) == entry_values(self@, r@[k].0),
            forall|c: int| #[trigger] covered(r@, c) == covered(self@, c),
            forall|k: int, i: int, c: int|
                #![trigger self@[i].0.has(c), r@[k]]
                0 <= k < r@.len() && 0 <= i < self@.len() && self@[i].0.has(c) && r@[k].0.has(c)
                    ==> self@[i].0.includes(r@[k].0),
    {
        let ghost bs = boundaries(self@);
        let sp = self.split();
        let ghost out = split_all(self@, bs);
        proof {
            lemma_split_laws(self@);
            assert forall|i: int|
                0 <= i < self@.len() implies bs.contains((#[trigger] self@[i]).0.start as int) && (self@[i].0.end
                    == MAX_CHAR || bs.contains(self@[i].0.end + 1)) by {}
            lemma_split_all_atomic(self@, bs);
        }
        let mut v = sp.elts;
        sort_by_start(&mut v);
        let ghost p = choose|p: Seq<int>| permutes(p, out, v@);
        let n = v.len();
        proof {
            assert forall|a: int, b: int|
                0 <= a < v@.len() && 0 <= b < v@.len() implies (#[trigger] v@[a]).0 == (#[trigger] v@[b]).0
                    || !v@[a].0.overlaps(v@[b].0) by {
                assert(v@[a] == out[p[a]] && v@[b] == out[p[b]]);
                assert(out[p[a]].0 == out[p[b]].0 || !out[p[a]].0.overlaps(out[p[b]].0));
            }
            assert forall|a: int| 0 <= a < v@.len() implies (#[trigger] v@[a]).0.start <= v@[a].0.end by {
                assert(v@[a] == out[p[a]]);
                assert(is_atomic(out[p[a]].0, bs));
            }
        }
        let mut ret: Vec<(CharRange, StateSet)> = Vec::new();
        if n == 0 {
            proof {
                assert forall|c: int| #[trigger] covered(ret@, c) == covered(self@, c) by {
                    lemma_split_covers(self@, c);
                    assert(out.len() == 0);
                }
            }
            return CharMap { elts: ret };
        }
        let mut cur_range = v[0].0;
        let mut cur_set = empty_set(0);
        insert(&mut cur_set, v[0].1);
        proof {
            lemma_covered_take(v@, 0);
            lemma_covered_all(v@);
            assert forall|c: int|
                (#[trigger] covered(ret@, c) || cur_range.has(c)) == covered(v@.take(1), c) by {
                assert(!covered(v@.take(0), c));
                if covered(ret@, c) {
                    let k = choose|k: int| 0 <= k < ret@.len() && #[trigger] ret@[k].0.has(c);
                }
            }
            assert(members(cur_set) =~= values_before(v@, 1, cur_range));
        }
        let mut i: usize = 1;
        while i < n
            invariant
                1 <= i <= n,
                n == v@.len(),
                permutes(p, out, v@),
                forall|a: int, b: int|
                    0 <= a < v@.len() && 0 <= b < v@.len() ==> (#[trigger] v@[a]).0 == (#[trigger] v@[b]).0
                        || !v@[a].0.overlaps(v@[b].0),
                forall|a: int, b: int|
                    #![trigger v@[a], v@[b]]
                    0 <= a < b < v@.len() ==> v@[a].0.start <= v@[b].0.start,
                forall|a: int| 0 <= a < v@.len() ==> (#[trigger] v@[a]).0.start <= v@[a].0.end,
                cur_range == v@[i - 1].0,
                forall|a: int| 0 <= a < i ==> (#[trigger] v@[a]).0.end <= cur_range.end,
                members(cur_set) == values_before(v@, i as int, cur_range),
                well_formed(ret@),
                forall|k: int| 0 <= k < ret@.len() ==> (#[trigger] ret@[k]).0.end < cur_range.start,
                forall|k: int| 0 <= k < ret@.len() ==> exists|j: int| 0 <= j < v@.len() && (#[trigger] ret@[k]).0 == v@[j].0,
                forall|k: int|
                    0 <= k < ret@.len() ==> members((#[trigger] ret@[k]).1) == values_before(
                        v@,
                        i as int,
                        ret@[k].0,
                    ),
                forall|c: int|
                    (#[trigger] covered(ret@, c) || cur_range.has(c)) == covered(v@.take(i as int), c),
            decreases n - i,
        {
            let e = v[i];
            let ghost ret0 = ret@;
            proof {
                lemma_covered_take(v@, i as int);
                assert(v@[i - 1].0.start <= e.0.start);
            }
            if e.0 == cur_range {
                let ghost old_set = members(cur_set);
                insert(&mut cur_set, e.1);
                proof {
                    assert(members(cur_set) =~= values_before(v@, i + 1, cur_range)) by {
                        assert forall|x: int| values_before(v@, i + 1, cur_range).contains(x) implies
                            members(cur_set).contains(x) by {
                            let q = choose|q: int| 0 <= q < i + 1 && (#[trigger] v@[q]).0 == cur_range && v@[q].1 == x;
                            if q < i {
                                assert(values_before(v@, i as int, cur_range).contains(x));
                            }
                        }
                        assert forall|x: int| members(cur_set).contains(x) implies
                            values_before(v@, i + 1, cur_range).contains(x) by {
                            if x != e.1 {
                                let q = choose|q: int| 0 <= q < i && (#[trigger] v@[q]).0 == cur_range && v@[q].1 == x;
                            }
                        }
                    }
                    assert forall|k: int| 0 <= k < ret@.len() implies members((#[trigger] ret@[k]).1)
                        == values_before(v@, i + 1, ret@[k].0) by {
                        assert(values_before(v@, i + 1, ret@[k].0) =~= values_before(v@, i as int, ret@[k].0));
                    }
                }
            } else {
                proof {
                    if e.0.start <= cur_range.end {
                        assert(v@[i - 1].0.has(e.0.start as int) && v@[i as int].0.has(e.0.start as int));
                        assert(v@[i - 1].0.overlaps(v@[i as int].0));
                    }
                }
                let mut fresh = empty_set(0);
                insert(&mut fresh, e.1);
                let ghost old_cur = cur_range;
                let ghost old_members = members(cur_set);
                let ghost done = cur_set;
                ret.push((cur_range, cur_set));
                cur_set = fresh;
                cur_range = e.0;
                proof {
                    assert forall|lo_k: int, hi_k: int|
                        #![trigger ret@[lo_k], ret@[hi_k]]
                        0 <= lo_k < hi_k < ret@.len() implies ret@[lo_k].0.end < ret@[hi_k].0.start by {
                        if hi_k < ret@.len() - 1 {
                            assert(ret0[lo_k].0.end < ret0[hi_k].0.start);
                        }
                    }
                    assert forall|k: int| 0 <= k < ret@.len() implies members((#[trigger] ret@[k]).1)
                        == values_before(v@, i + 1, ret@[k].0) by {
                        assert(values_before(v@, i + 1, ret@[k].0) =~= values_before(v@, i as int, ret@[k].0));
                    }
                    assert(members(cur_set) =~= values_before(v@, i + 1, cur_range)) by {
                        assert forall|x: int| values_before(v@, i + 1, cur_range).contains(x) implies
                            members(cur_set).contains(x) by {
                            let q = choose|q: int| 0 <= q < i + 1 && (#[trigger] v@[q]).0 == cur_range && v@[q].1 == x;
                            if q < i {
                                assert(v@[q].0.end <= old_cur.end);
                            }
                        }
                        assert(values_before(v@, i + 1, cur_range).contains(e.1 as int));
                    }
                    lemma_covered_push(ret0, (old_cur, done));
                    assert forall|k: int| 0 <= k < ret@.len() implies exists|j: int| 0 <= j < v@.len() && (#[trigger] ret@[k]).0 == v@[j].0 by {
                        if k == ret@.len() - 1 {
                            assert(ret@[k].0 == v@[i - 1].0);
                        } else {
                            assert(ret@[k] == ret0[k]);
                        }
                    }
                }
            }
            proof {
                assert forall|c: int|
                    (#[trigger] covered(ret@, c) || cur_range.has(c)) == covered(v@.take(i + 1), c) by {
                    assert((covered(ret0, c) || v@[i - 1].0.has(c)) == covered(v@.take(i as int), c));
                }
            }
            i = i + 1;
        }
        let ghost ret0 = ret@;
        ret.push((cur_range, cur_set));
        proof {
            assert forall|lo_k: int, hi_k: int|
                #![trigger ret@[lo_k], ret@[hi_k]]
                0 <= lo_k < hi_k < ret@.len() implies ret@[lo_k].0.end < ret@[hi_k].0.start by {
                if hi_k < ret@.len() - 1 {
                    assert(ret0[lo_k].0.end < ret0[hi_k].0.start);
                }
            }
            lemma_covered_push(ret0, (cur_range, cur_set));
            assert(v@.take(n as int) =~= v@);
            assert forall|k: int| 0 <= k < ret@.len() implies members((#[trigger] ret@[k]).1) == values_at(
                out,
                ret@[k].0,
            ) && members(ret@[k].1) == entry_values(self@, ret@[k].0) by {
                assert forall|x: int| values_at(out, ret@[k].0).contains(x) implies values_before(v@, n as int, ret@[k].0).contains(x) by {
                    let q = choose|q: int| 0 <= q < out.len() && (#[trigger] out[q]).0 == ret@[k].0 && out[q].1 == x;
                    let j = choose|j: int| 0 <= j < p.len() && #[trigger] p[j] == q;
                    assert(v@[j] == out[q]);
                }
                assert forall|x: int| values_before(v@, n as int, ret@[k].0).contains(x) implies values_at(out, ret@[k].0).contains(x) by {
                    let j = choose|j: int| 0 <= j < n && (#[trigger] v@[j]).0 == ret@[k].0 && v@[j].1 == x;
                    assert(v@[j] == out[p[j]]);
                }
                assert(values_at(out, ret@[k].0) =~= values_before(v@, n as int, ret@[k].0));
                let j = if k == ret@.len() - 1 {
                    n - 1
                } else {
                    assert(ret@[k] == ret0[k]);
                    choose|j: int| 0 <= j < v@.len() && (#[trigger] ret0[k]).0 == v@[j].0
                };
                assert(v@[j] == out[p[j]]);
                lemma_values_at_entries(self@, p[j]);
            }
            assert forall|k: int, i: int, c: int|
                #![trigger self@[i].0.has(c), ret@[k]]
                0 <= k < ret@.len() && 0 <= i < self@.len() && self@[i].0.has(c) && ret@[k].0.has(c)
                    implies self@[i].0.includes(ret@[k].0) by {
                let j = if k == ret@.len() - 1 {
                    n - 1
                } else {
                    assert(ret@[k] == ret0[k]);
                    choose|j: int| 0 <= j < v@.len() && (#[trigger] ret0[k]).0 == v@[j].0
                };
                assert(v@[j] == out[p[j]]);
                let rg = ret@[k].0;
                assert(is_atomic(rg, bs));
                assert(bs.contains(self@[i].0.start as int));
                if self@[i].0.end < MAX_CHAR {
                    assert(bs.contains(self@[i].0.end + 1));
                }
            }
            assert forall|c: int| #[trigger] covered(ret@, c) == covered(self@, c) by {
                lemma_split_covers(self@, c);
                if covered(out, c) {
                    let q = choose|q: int| 0 <= q < out.len() && #[trigger] out[q].0.has(c);
                    let j = choose|j: int| 0 <= j < p.len() && #[trigger] p[j] == q;
                    assert(v@[j].0.has(c));
                }
                if covered(v@, c) {
                    let j = choose|j: int| 0 <= j < v@.len() && #[trigger] v@[j].0.has(c);
                    assert(out[p[j]].0.has(c));
                }
            }
        }
        CharMap { elts: ret }
    }
}


/// The values of the entries of `s` whose range includes `rg`.
pub open spec fn entry_values(s: Seq<(CharRange, usize)>, rg: CharRange) -> Set<int> {
    Set::new(|x: int| exists|i: int| 0 <= i < s.len() && (#[trigger] s[i]).1 == x && s[i].0.includes(rg))
}

proof fn lemma_split_all_origin<T>(s: Seq<(CharRange, T)>, bs: Set<int>)
    requires
        nonempty_ranges(s),
    ensures
        forall|q: int|
            0 <= q < split_all(s, bs).len() ==> exists|i: int|
                0 <= i < s.len() && (#[trigger] s[i]).1 == (#[trigger] split_all(s, bs)[q]).1 && s[i].0.includes(
                    split_all(s, bs)[q].0,
                ),
        forall|i: int, k: int|
            0 <= i < s.len() && 0 <= k < pieces(s[i].0.start as int, s[i].0.end as int, s[i].1, bs).len()
                ==> split_all(s, bs).contains(
                #[trigger] pieces(s[i].0.start as int, s[i].0.end as int, s[i].1, bs)[k],
            ),
    decreases s.len(),
{
    if s.len() > 0 {
        let t = s.drop_last();
        assert(nonempty_ranges(t));
        lemma_split_all_origin(t, bs);
        let e = s.last();
        let last = s.len() - 1;
        assert(e == s[last]);
        lemma_pieces_shape(e.0.start as int, e.0.end as int, e.1, bs);
        let a = split_all(t, bs);
        let ps = pieces(e.0.start as int, e.0.end as int, e.1, bs);
        let out = split_all(s, bs);
        assert(out == a + ps);
        assert forall|q: int| 0 <= q < out.len() implies exists|i: int|
            0 <= i < s.len() && (#[trigger] s[i]).1 == (#[trigger] out[q]).1 && s[i].0.includes(out[q].0) by {
            if q < a.len() {
                assert(out[q] == a[q]);
                let i = choose|i: int| 0 <= i < t.len() && (#[trigger] t[i]).1 == (#[trigger] a[q]).1 && t[i].0.includes(a[q].0);
                assert(s[i] == t[i]);
            } else {
                assert(out[q] == ps[q - a.len()]);
                assert forall|c: int| out[q].0.has(c) implies s[last].0.has(c) by {
                    assert(covered(ps, c));
                }
                assert(s[last].1 == out[q].1);
            }
        }
        assert forall|i: int, k: int|
            0 <= i < s.len() && 0 <= k < pieces(s[i].0.start as int, s[i].0.end as int, s[i].1, bs).len()
                implies out.contains(#[trigger] pieces(s[i].0.start as int, s[i].0.end as int, s[i].1, bs)[k]) by {
            let pk = pieces(s[i].0.start as int, s[i].0.end as int, s[i].1, bs)[k];
            if i < last {
                assert(s[i] == t[i]);
                assert(a.contains(pk));
                let q = choose|q: int| 0 <= q < a.len() && a[q] == pk;
                assert(out[q] == pk);
            } else {
                assert(out[a.len() + k] == ps[k]);
            }
        }
    }
}

/// In the output of `split_all`, the values given to a range of the output are exactly those of
/// the entries whose range includes it.
pub proof fn lemma_values_at_entries(s: Seq<(CharRange, usize)>, q0: int)
    requires
        nonempty_ranges(s),
        0 <= q0 < split_all(s, boundaries(s)).len(),
    ensures
        values_at(split_all(s, boundaries(s)), split_all(s, boundaries(s))[q0].0) == entry_values(
            s,
            split_all(s, boundaries(s))[q0].0,
        ),
{
    let bs = boundaries(s);
    let out = split_all(s, bs);
    let rg = out[q0].0;
    lemma_split_all_origin(s, bs);
    lemma_split_laws(s);
    assert forall|i: int|
        0 <= i < s.len() implies bs.contains((#[trigger] s[i]).0.start as int) && (s[i].0.end == MAX_CHAR
            || bs.contains(s[i].0.end + 1)) by {}
    lemma_split_all_atomic(s, bs);
    assert(is_atomic(out[q0].0, bs));
    assert forall|x: int| values_at(out, rg).contains(x) implies entry_values(s, rg).contains(x) by {
        let q = choose|q: int| 0 <= q < out.len() && (#[trigger] out[q]).0 == rg && out[q].1 == x;
        let i = choose|i: int| 0 <= i < s.len() && (#[trigger] s[i]).1 == (#[trigger] out[q]).1 && s[i].0.includes(out[q].0);
    }
    assert forall|x: int| entry_values(s, rg).contains(x) implies values_at(out, rg).contains(x) by {
        let i = choose|i: int| 0 <= i < s.len() && (#[trigger] s[i]).1 == x && s[i].0.includes(rg);
        let ps = pieces(s[i].0.start as int, s[i].0.end as int, s[i].1, bs);
        lemma_pieces_shape(s[i].0.start as int, s[i].0.end as int, s[i].1, bs);
        assert(rg.has(rg.start as int));
        assert(covered(ps, rg.start as int));
        let k = choose|k: int| 0 <= k < ps.len() && #[trigger] ps[k].0.has(rg.start as int);
        assert(out.contains(ps[k]));
        let q = choose|q: int| 0 <= q < out.len() && out[q] == ps[k];
        assert(out[q].0.overlaps(out[q0].0));
        assert(out[q].0 == out[q0].0);
        assert(out[q].1 == x);
    }
    assert(values_at(out, rg) =~= entry_values(s, rg));
}


proof fn lemma_sorted_unique<T>(s: Seq<(CharRange, T)>, t: Seq<(CharRange, T)>)
    requires
        well_formed(s),
        well_formed(t),
        forall|x: (CharRange, T)| s.contains(x) <==> t.contains(x),
    ensures
        s == t,
    decreases s.len(),
{
    if s.len() == 0 {
        if t.len() > 0 {
            assert(t.contains(t[0]));
        }
        assert(s =~= t);
    } else {
        assert(s.contains(s[0]));
        assert(t.len() > 0);
        assert(t.contains(t[0]));
        let m = choose|m: int| 0 <= m < t.len() && t[m] == s[0];
        let q = choose|q: int| 0 <= q < s.len() && s[q] == t[0];
        if q > 0 {
            assert(s[0].0.end < s[q].0.start);
        }
        if m > 0 {
            assert(t[0].0.end < t[m].0.start);
        }
        assert(s[0] == t[0]);
        let s1 = s.drop_first();
        let t1 = t.drop_first();
        assert(well_formed(s1)) by {
            assert forall|a: int, b: int| #![trigger s1[a], s1[b]] 0 <= a < b < s1.len() implies s1[a].0.end < s1[b].0.start by {
                assert(s[a + 1].0.end < s[b + 1].0.start);
            }
        }
        assert(well_formed(t1)) by {
            assert forall|a: int, b: int| #![trigger t1[a], t1[b]] 0 <= a < b < t1.len() implies t1[a].0.end < t1[b].0.start by {
                assert(t[a + 1].0.end < t[b + 1].0.start);
            }
        }
        assert forall|x: (CharRange, T)| s1.contains(x) <==> t1.contains(x) by {
            if s1.contains(x) {
                let k = choose|k: int| 0 <= k < s1.len() && s1[k] == x;
                assert(s[k + 1] == x);
                assert(s[0].0.end < s[k + 1].0.start);
                assert(t.contains(x));
                let k2 = choose|k2: int| 0 <= k2 < t.len() && t[k2] == x;
                assert(k2 != 0);
                assert(t1[k2 - 1] == x);
            }
            if t1.contains(x) {
                let k = choose|k: int| 0 <= k < t1.len() && t1[k] == x;
                assert(t[k + 1] == x);
                assert(t[0].0.end < t[k + 1].0.start);
                assert(s.contains(x));
                let k2 = choose|k2: int| 0 <= k2 < s.len() && s[k2] == x;
                assert(k2 != 0);
                assert(s1[k2 - 1] == x);
            }
        }
        lemma_sorted_unique(s1, t1);
        assert(s =~= seq![s[0]] + s1);
        assert(t =~= seq![t[0]] + t1);
    }
}

/// Intersecting range sets does not depend on the order of the arguments: any two sorted,
/// disjoint results holding the clips of `a` against `b` and of `b` against `a` are equal.
pub proof fn lemma_intersect_commutes(
    a: Seq<(CharRange, ())>,
    b: Seq<(CharRange, ())>,
    ab: Seq<(CharRange, ())>,
    ba: Seq<(CharRange, ())>,
)
    requires
        well_formed(a),
        well_formed(b),
        well_formed(ab),
        well_formed(ba),
        forall|x: (CharRange, ())| #[trigger] ab.contains(x) <==> clipped_before(a, b, a.len() as int, x),
        forall|x: (CharRange, ())| #[trigger] ba.contains(x) <==> clipped_before(b, a, b.len() as int, x),
    ensures
        ab == ba,
{
    assert forall|x: (CharRange, ())| ab.contains(x) <==> ba.contains(x) by {
        if clipped_before(a, b, a.len() as int, x) {
            let (i, j) = choose|i: int, j: int| 0 <= i < a.len() && #[trigger] is_clip(a, b, i, j, x);
            let c = choose|c: int| a[i].0.has(c) && b[j].0.has(c);
            assert(b[j].0.overlaps(a[i].0));
            assert(is_clip(b, a, j, i, x));
        }
        if clipped_before(b, a, b.len() as int, x) {
            let (j, i) = choose|j: int, i: int| 0 <= j < b.len() && #[trigger] is_clip(b, a, j, i, x);
            let c = choose|c: int| b[j].0.has(c) && a[i].0.has(c);
            assert(a[i].0.overlaps(b[j].0));
            assert(is_clip(a, b, i, j, x));
        }
    }
    lemma_sorted_unique(ab, ba);
}


proof fn lemma_same_range<T>(o: Seq<(CharRange, T)>, k1: int, k2: int, c: int)
    requires
        well_formed(o),
        0 <= k1 < o.len(),
        0 <= k2 < o.len(),
        o[k1].0.has(c),
        o[k2].0.has(c),
    ensures
        k1 == k2,
{
    if k1 < k2 {
        assert(o[k1].0.end < o[k2].0.start);
    }
    if k2 < k1 {
        assert(o[k2].0.end < o[k1].0.start);
    }
}

/// Where `o` has the union shape over `a` and `b` and `p`, `p + 1` lie together in a range of
/// `a` or `b`, they lie together in a range of `o`.
proof fn lemma_joined_inside(o: Seq<(CharRange, ())>, a: Seq<(CharRange, ())>, b: Seq<(CharRange, ())>, p: int, k: int)
    requires
        is_union_shape(o, a, b),
        joined_in(a, p) || joined_in(b, p),
        0 <= k < o.len(),
        o[k].0.has(p) || o[k].0.has(p + 1),
    ensures
        o[k].0.has(p) && o[k].0.has(p + 1),
{
    let x = if joined_in(a, p) {
        let t = choose|t: int| 0 <= t < a.len() && (#[trigger] a[t]).0.has(p) && a[t].0.has(p + 1);
        a[t].0
    } else {
        let t = choose|t: int| 0 <= t < b.len() && (#[trigger] b[t]).0.has(p) && b[t].0.has(p + 1);
        b[t].0
    };
    assert(inside_some(x, o));
    let m = choose|m: int| 0 <= m < o.len() && (#[trigger] o[m]).0.includes(x);
    assert(o[m].0.has(p) && o[m].0.has(p + 1));
    if o[k].0.has(p) {
        lemma_same_range(o, k, m, p);
    } else {
        lemma_same_range(o, k, m, p + 1);
    }
}

proof fn lemma_union_shape_within(
    o1: Seq<(CharRange, ())>,
    o2: Seq<(CharRange, ())>,
    a: Seq<(CharRange, ())>,
    b: Seq<(CharRange, ())>,
)
    requires
        is_union_shape(o1, a, b),
        is_union_shape(o2, a, b),
        forall|c: int| #[trigger] covered(o1, c) == covered(o2, c),
    ensures
        forall|x: (CharRange, ())| o1.contains(x) ==> o2.contains(x),
{
    assert forall|x: (CharRange, ())| o1.contains(x) implies o2.contains(x) by {
        let k = choose|k: int| 0 <= k < o1.len() && o1[k] == x;
        let st = o1[k].0.start as int;
        let en = o1[k].0.end as int;
        assert(o1[k].0.has(st));
        assert(covered(o1, st));
        assert(covered(o2, st));
        let m = choose|m: int| 0 <= m < o2.len() && #[trigger] o2[m].0.has(st);
        if o2[m].0.start < st {
            assert(o2[m].0.has(st - 1));
            assert(seamless(o2[m].0, a, b));
            assert(joined_in(a, st - 1) || joined_in(b, st - 1));
            lemma_joined_inside(o1, a, b, st - 1, k);
        }
        assert(o2[m].0.start == st);
        if o2[m].0.end < en {
            let q = o2[m].0.end as int;
            assert(o1[k].0.has(q));
            assert(seamless(o1[k].0, a, b));
            assert(joined_in(a, q) || joined_in(b, q));
            lemma_joined_inside(o2, a, b, q, m);
        }
        if o2[m].0.end > en {
            assert(o2[m].0.has(en));
            assert(seamless(o2[m].0, a, b));
            assert(joined_in(a, en) || joined_in(b, en));
            lemma_joined_inside(o1, a, b, en, k);
        }
        assert(o2[m] == x);
    }
}

/// Union of range sets does not depend on the order of the arguments: any two results of the
/// shape that `union` gives, for `a` with `b` and for `b` with `a`, are equal.
pub proof fn lemma_union_commutes(
    a: Seq<(CharRange, ())>,
    b: Seq<(CharRange, ())>,
    ab: Seq<(CharRange, ())>,
    ba: Seq<(CharRange, ())>,
)
    requires
        is_union_shape(ab, a, b),
        is_union_shape(ba, b, a),
        forall|c: int| #[trigger] covered(ab, c) == (covered(a, c) || covered(b, c)),
        forall|c: int| #[trigger] covered(ba, c) == (covered(b, c) || covered(a, c)),
    ensures
        ab == ba,
{
    assert forall|k: int| 0 <= k < ba.len() implies seamless((#[trigger] ba[k]).0, a, b) by {
        assert(seamless(ba[k].0, b, a));
        assert forall|p: int| ba[k].0.start <= p < ba[k].0.end implies #[trigger] joined_in(a, p) || joined_in(b, p) by {
            assert(joined_in(b, p) || joined_in(a, p));
        }
    }
    assert(is_union_shape(ba, a, b));
    assert forall|c: int| #[trigger] covered(ab, c) == covered(ba, c) by {
        assert(covered(ab, c) == (covered(a, c) || covered(b, c)));
        assert(covered(ba, c) == (covered(b, c) || covered(a, c)));
    }
    lemma_union_shape_within(ab, ba, a, b);
    assert forall|c: int| #[trigger] covered(ba, c) == covered(ab, c) by {
        assert(covered(ab, c) == covered(ba, c));
    }
    lemma_union_shape_within(ba, ab, a, b);
    lemma_sorted_unique(ab, ba);
}


/// A sorted, disjoint range list that holds no code point has no range: so the intersection of
/// a set with its negation is the empty set itself.
pub proof fn lemma_no_points_no_ranges<T>(r: Seq<(CharRange, T)>)
    requires
        well_formed(r),
        points(r) == Set::<int>::empty(),
    ensures
        r.len() == 0,
{
    if r.len() > 0 {
        assert(r[0].0.has(r[0].0.start as int));
        assert(points(r).contains(r[0].0.start as int));
    }
}


/// Each range carrying the unit value.
pub open spec fn with_unit(rs: Seq<CharRange>) -> Seq<(CharRange, ())> {
    rs.map_values(|r: CharRange| (r, ()))
}

impl CharSet {
    /// Builds a set from ranges given in any order: `None` where a range is empty or two ranges
    /// share a code point, else the ranges sorted.
    pub fn from_pairs(ranges: Vec<CharRange>) -> (r: Option<CharSet>)
        ensures
            r is Some <==> disjoint_ranges(with_unit(ranges@)),
            match r {
                Some(set) => well_formed(set@) && is_permutation(with_unit(ranges@), set@),
                None => true,
            },
    {
        let mut v: Vec<(CharRange, ())> = Vec::with_capacity(ranges.len());
        let mut i: usize = 0;
        while i < ranges.len()
            invariant
                i <= ranges@.len(),
                v@ == with_unit(ranges@.take(i as int)),
                forall|k: int| 0 <= k < i ==> (#[trigger] ranges@[k]).start <= ranges@[k].end,
            decreases ranges@.len() - i,
        {
            let rg = ranges[i];
            if rg.start > rg.end {
                proof {
                    assert(with_unit(ranges@)[i as int].0 == rg);
                }
                return None;
            }
            v.push((rg, ()));
            proof {
                assert(with_unit(ranges@.take(i + 1)) =~= with_unit(ranges@.take(i as int)).push((rg, ())));
            }
            i = i + 1;
        }
        let ghost input = v@;
        proof {
            assert(ranges@.take(i as int) =~= ranges@);
            assert(input == with_unit(ranges@));
        }
        sort_by_start(&mut v);
        let ghost p = choose|p: Seq<int>| permutes(p, input, v@);
        let n = v.len();
        let mut k: usize = 0;
        while k < n && n - k > 1
            invariant
                n == v@.len(),
                k <= n,
                permutes(p, input, v@),
                input == with_unit(ranges@),
                forall|a: int| 0 <= a < input.len() ==> (#[trigger] input[a]).0.start <= input[a].0.end,
                forall|a: int, b: int|
                    #![trigger v@[a], v@[b]]
                    0 <= a < b < v@.len() ==> v@[a].0.start <= v@[b].0.start,
                forall|a: int| 0 <= a < k && a + 1 < v@.len() ==> (#[trigger] v@[a]).0.end < v@[a + 1].0.start,
            decreases v@.len() - k,
        {
            if v[k].0.end >= v[k + 1].0.start {
                proof {
                    let x = v@[k as int].0;
                    let y = v@[k + 1].0;
                    assert(v@[k as int] == input[p[k as int]]);
                    assert(v@[k + 1] == input[p[k + 1]]);
                    assert(x.start <= y.start);
                    assert(y.start <= y.end);
                    assert(p[k as int] != p[k + 1]);
                    let (a, b) = (p[k as int], p[k + 1]);
                    assert(!(input[a].0.end < input[b].0.start || input[b].0.end < input[a].0.start));
                }
                return None;
            }
            k = k + 1;
        }
        proof {
            assert forall|a: int| 0 <= a < v@.len() implies #[trigger] v@[a].0.start <= v@[a].0.end by {
                assert(v@[a] == input[p[a]]);
            }
            assert forall|a: int, b: int|
                #![trigger v@[a], v@[b]]
                0 <= a < b < v@.len() implies v@[a].0.end < v@[b].0.start by {
                assert(v@[a].0.end < v@[a + 1].0.start);
                assert(v@[a + 1].0.start <= v@[b].0.start);
            }
            assert forall|a: int| 0 <= a < input.len() implies #[trigger] input[a].0.start <= input[a].0.end by {}
            assert forall|a: int, b: int|
                #![trigger input[a], input[b]]
                0 <= a < input.len() && 0 <= b < input.len() && a != b implies input[a].0.end < input[b].0.start
                    || input[b].0.end < input[a].0.start by {
                assert(permutes(p, input, v@));
                assert(input[a].0.start <= input[a].0.end && input[b].0.start <= input[b].0.end);
                assert(exists|q: int| 0 <= q < p.len() && #[trigger] p[q] == a);
                assert(exists|q: int| 0 <= q < p.len() && #[trigger] p[q] == b);
                let qa = choose|q: int| 0 <= q < p.len() && #[trigger] p[q] == a;
                let qb = choose|q: int| 0 <= q < p.len() && #[trigger] p[q] == b;
                assert(v@[qa] == input[a] && v@[qb] == input[b]);
                if qa < qb {
                    assert(v@[qa].0.end < v@[qb].0.start);
                } else {
                    assert(v@[qb].0.end < v@[qa].0.start);
                }
            }
            assert(is_permutation(input, v@));
        }
        Some(CharSet { map: CharMap { elts: v } })
    }
}

} // verus!
