//! Vector clocks and their comparison lattice.
//!
//! A vector clock maps peer identifiers to monotonically non-decreasing
//! counters; a peer that is absent from the mapping stands at counter zero.

use vstd::prelude::*;

verus! {

/// Relationship between two vector clocks under the pointwise partial order.
#[derive(Clone, Copy, Debug, PartialEq, Eq, Structural)]
pub enum ComparisonResult {
    Equal,
    Before,
    After,
    Concurrent,
}

/// A vector clock: a finite mapping from peer identifiers to counters.
pub struct VectorClock {
    entries: Vec<(String, u64)>,
}

/// The keys of an association list are pairwise distinct.
pub open spec fn distinct_keys(s: Seq<(String, u64)>) -> bool {
    forall|i: int, j: int| 0 <= i < j < s.len() ==> s[i].0@ != s[j].0@
}

/// Counter of peer `p` in an association list; zero when `p` is absent.
pub open spec fn counter_in(s: Seq<(String, u64)>, p: Seq<char>) -> u64 {
    if exists|i: int| 0 <= i < s.len() && s[i].0@ == p {
        s[choose|i: int| 0 <= i < s.len() && s[i].0@ == p].1
    } else {
        0
    }
}

/// The larger of two counters.
pub open spec fn max64(a: u64, b: u64) -> u64 {
    if a >= b {
        a
    } else {
        b
    }
}

/// `a` is pointwise less than or equal to `b`.
pub open spec fn vc_leq(a: VectorClock, b: VectorClock) -> bool {
    forall|p: Seq<char>| #[trigger] a.counter(p) <= #[trigger] b.counter(p)
}

/// `a` and `b` agree on every coordinate.
pub open spec fn vc_eq(a: VectorClock, b: VectorClock) -> bool {
    vc_leq(a, b) && vc_leq(b, a)
}

/// What `compare` returns, defined over the pointwise partial order.
pub open spec fn spec_compare(a: VectorClock, b: VectorClock) -> ComparisonResult {
    if vc_leq(a, b) && vc_leq(b, a) {
        ComparisonResult::Equal
    } else if vc_leq(a, b) {
        ComparisonResult::Before
    } else if vc_leq(b, a) {
        ComparisonResult::After
    } else {
        ComparisonResult::Concurrent
    }
}

/// `m` is the pointwise maximum of `a` and `b`.
pub open spec fn is_merge_of(m: VectorClock, a: VectorClock, b: VectorClock) -> bool {
    forall|p: Seq<char>| #[trigger] m.counter(p) == max64(a.counter(p), b.counter(p))
}

/// `r` raises `a`'s counter for `peer` by one and keeps every other coordinate.
pub open spec fn is_increment_of(r: VectorClock, a: VectorClock, peer: Seq<char>) -> bool {
    &&& r.counter(peer) == a.counter(peer) + 1
    &&& forall|p: Seq<char>| p != peer ==> #[trigger] r.counter(p) == a.counter(p)
}

/// With distinct keys, the entry that holds `p` gives the counter.
proof fn lemma_counter_at(s: Seq<(String, u64)>, i: int)
    requires
        distinct_keys(s),
        0 <= i < s.len(),
    ensures
        counter_in(s, s[i].0@) == s[i].1,
{
    let p = s[i].0@;
    assert(0 <= i < s.len() && s[i].0@ == p);
    let j = choose|j: int| 0 <= j < s.len() && s[j].0@ == p;
    if i < j {
        assert(s[i].0@ != s[j].0@);
    } else if j < i {
        assert(s[j].0@ != s[i].0@);
    }
}

/// Appending a fresh key changes only that key's counter.
proof fn lemma_counter_push(s: Seq<(String, u64)>, k: String, v: u64, p: Seq<char>)
    requires
        distinct_keys(s),
        forall|i: int| 0 <= i < s.len() ==> s[i].0@ != k@,
    ensures
        distinct_keys(s.push((k, v))),
        counter_in(s.push((k, v)), p) == if p == k@ {
            v
        } else {
            counter_in(s, p)
        },
{
    let t = s.push((k, v));
    assert(forall|i: int| 0 <= i < s.len() ==> t[i] == s[i]);
    assert(t[s.len() as int] == (k, v));
    if p == k@ {
        lemma_counter_at(t, s.len() as int);
    } else {
        if exists|i: int| 0 <= i < s.len() && s[i].0@ == p {
            let i = choose|i: int| 0 <= i < s.len() && s[i].0@ == p;
            lemma_counter_at(s, i);
            lemma_counter_at(t, i);
        } else {
            assert(forall|i: int| 0 <= i < t.len() ==> t[i].0@ != p);
        }
    }
}

/// Replacing the value at an existing key changes only that key's counter.
proof fn lemma_counter_update(s: Seq<(String, u64)>, i: int, k: String, v: u64, p: Seq<char>)
    requires
        distinct_keys(s),
        0 <= i < s.len(),
        k@ == s[i].0@,
    ensures
        distinct_keys(s.update(i, (k, v))),
        counter_in(s.update(i, (k, v)), p) == if p == s[i].0@ {
            v
        } else {
            counter_in(s, p)
        },
{
    let t = s.update(i, (k, v));
    assert(t[i].0@ == s[i].0@ && t[i].1 == v);
    assert(forall|j: int| 0 <= j < s.len() && j != i ==> t[j] == s[j]);
    assert(distinct_keys(t));
    if p == s[i].0@ {
        lemma_counter_at(t, i);
    } else {
        if exists|j: int| 0 <= j < s.len() && s[j].0@ == p {
            let j = choose|j: int| 0 <= j < s.len() && s[j].0@ == p;
            lemma_counter_at(s, j);
            lemma_counter_at(t, j);
        } else {
            assert(forall|j: int| 0 <= j < t.len() ==> t[j].0@ != p);
        }
    }
}

/// Position of `peer` among `entries`, if it is present.
fn find_in(entries: &Vec<(String, u64)>, peer: &String) -> (r: Option<usize>)
    ensures
        match r {
            Some(i) => i < entries@.len() && entries@[i as int].0@ == peer@,
            None => forall|i: int| 0 <= i < entries@.len() ==> entries@[i].0@ != peer@,
        },
{
    let mut i: usize = 0;
    while i < entries.len()
        invariant
            i <= entries@.len(),
            forall|j: int| 0 <= j < i ==> entries@[j].0@ != peer@,
        decreases entries@.len() - i,
    {
        if entries[i].0.eq(peer) {
            return Some(i);
        }
        i = i + 1;
    }
    None
}

impl VectorClock {
    /// Validity of a clock: each peer is recorded at most once, with a
    /// positive counter. Every clock this module hands out satisfies it;
    /// `use_type_invariant` recovers the fact for a held value.
    #[verifier::type_invariant]
    pub closed spec fn wf(self) -> bool {
        &&& distinct_keys(self.entries@)
        &&& forall|i: int| 0 <= i < self.entries@.len() ==> (#[trigger] self.entries@[i]).1 > 0
    }

    /// Counter recorded for peer `p`; zero when `p` is absent.
    pub closed spec fn counter(self, p: Seq<char>) -> u64 {
        counter_in(self.entries@, p)
    }

    /// Returns an empty clock: every peer stands at zero.
    pub fn new() -> (r: VectorClock)
        ensures
            forall|p: Seq<char>| #[trigger] r.counter(p) == 0,
    {
        let r = VectorClock { entries: Vec::new() };
        proof {
            assert forall|p: Seq<char>| #[trigger] r.counter(p) == 0 by {
                assert(forall|i: int| !(0 <= i < r.entries@.len() && r.entries@[i].0@ == p));
            }
        }
        r
    }

    /// Reads the counter for `peer`; zero when the peer is absent.
    pub fn get_counter(&self, peer: &String) -> (r: u64)
        ensures
            r == self.counter(peer@),
    {
        proof {
            use_type_invariant(&*self);
        }
        match find_in(&self.entries, peer) {
            Some(i) => {
                proof {
                    lemma_counter_at(self.entries@, i as int);
                }
                self.entries[i].1
            },
            None => 0,
        }
    }

    /// Total of the recorded counters: a linear extension of the
    /// dominance order (see `law_weight_monotone`).
    pub closed spec fn spec_weight(self) -> int {
        seq_weight(self.entries@)
    }

    /// Sums the recorded counters.
    pub fn weight(&self) -> (r: u128)
        ensures
            r == self.spec_weight(),
    {
        proof {
            use_type_invariant(&*self);
            assert(self.entries@.skip(0) =~= self.entries@);
        }
        let ghost s = self.entries@;
        let mut acc: u128 = 0;
        let mut i: usize = 0;
        while i < self.entries.len()
            invariant
                i <= s.len(),
                s == self.entries@,
                acc == seq_weight(s) - seq_weight(s.skip(i as int)),
                acc <= i * (u64::MAX as int),
            decreases s.len() - i,
        {
            proof {
                assert(s.skip(i as int).len() > 0);
                assert(s.skip(i as int)[0] == s[i as int]);
                assert(s.skip(i as int).drop_first() =~= s.skip(i + 1 as int));
                assert((i + 1) * (u64::MAX as int) <= (u64::MAX as int) * (u64::MAX as int)) by {
                    vstd::arithmetic::mul::lemma_mul_inequality(
                        i + 1 as int,
                        u64::MAX as int,
                        u64::MAX as int,
                    );
                }
                assert(acc + s[i as int].1 <= (i + 1) * (u64::MAX as int)) by {
                    assert(acc <= i * (u64::MAX as int));
                    assert(s[i as int].1 <= u64::MAX as int);
                }
            }
            acc = acc + (self.entries[i].1 as u128);
            i = i + 1;
        }
        proof {
            assert(s.skip(s.len() as int).len() == 0);
        }
        acc
    }

    /// Raises the counter of `peer_id` by one (from zero when absent).
    pub fn increment(self, peer_id: String) -> (r: VectorClock)
        requires
            self.counter(peer_id@) < u64::MAX,
        ensures
            is_increment_of(r, self, peer_id@),
    {
        proof {
            use_type_invariant(&self);
        }
        let mut entries = self.entries;
        let ghost s0 = entries@;
        match find_in(&entries, &peer_id) {
            Some(i) => {
                proof {
                    lemma_counter_at(s0, i as int);
                }
                let c = entries[i].1;
                entries[i] = (peer_id, c + 1);
                proof {
                    let ghost k = entries@[i as int].0;
                    assert(entries@ =~= s0.update(i as int, (k, (c + 1) as u64)));
                    assert forall|p: Seq<char>| true implies #[trigger] counter_in(entries@, p)
                        == if p == s0[i as int].0@ { (c + 1) as u64 } else { counter_in(s0, p) } by {
                        lemma_counter_update(s0, i as int, k, (c + 1) as u64, p);
                    }
                }
                VectorClock { entries }
            },
            None => {
                let ghost k = peer_id;
                entries.push((peer_id, 1));
                proof {
                    assert(entries@ =~= s0.push((k, 1u64)));
                    assert forall|p: Seq<char>| true implies #[trigger] counter_in(entries@, p)
                        == if p == k@ { 1u64 } else { counter_in(s0, p) } by {
                        lemma_counter_push(s0, k, 1u64, p);
                    }
                    assert(counter_in(s0, k@) == 0);
                }
                VectorClock { entries }
            },
        }
    }

    /// Merges two clocks: the pointwise maximum over the union of peers.
    pub fn merge(self, other: &VectorClock) -> (r: VectorClock)
        ensures
            is_merge_of(r, self, *other),
    {
        proof {
            use_type_invariant(&self);
            use_type_invariant(other);
        }
        let mut entries = self.entries;
        let ghost s0 = entries@;
        let oth = &other.entries;
        let mut j: usize = 0;
        while j < oth.len()
            invariant
                distinct_keys(entries@),
                distinct_keys(oth@),
                forall|t: int| 0 <= t < entries@.len() ==> (#[trigger] entries@[t]).1 > 0,
                forall|t: int| 0 <= t < oth@.len() ==> (#[trigger] oth@[t]).1 > 0,
                j <= oth@.len(),
                forall|p: Seq<char>| #[trigger] counter_in(entries@, p) == if exists|t: int|
                    0 <= t < j && oth@[t].0@ == p {
                    max64(counter_in(s0, p), counter_in(oth@, p))
                } else {
                    counter_in(s0, p)
                },
            decreases oth@.len() - j,
        {
            let ghost before = entries@;
            let k = &oth[j].0;
            let v2 = oth[j].1;
            proof {
                lemma_counter_at(oth@, j as int);
                assert(counter_in(oth@, k@) == v2);
                assert(!(exists|t: int| 0 <= t < j && oth@[t].0@ == k@));
                assert(counter_in(before, k@) == counter_in(s0, k@));
            }
            match find_in(&entries, k) {
                Some(i) => {
                    proof {
                        lemma_counter_at(before, i as int);
                    }
                    if v2 > entries[i].1 {
                        entries[i] = (k.clone(), v2);
                        proof {
                            let ghost kk = entries@[i as int].0;
                            assert(entries@ =~= before.update(i as int, (kk, v2)));
                            assert forall|p: Seq<char>| true implies #[trigger] counter_in(
                                entries@,
                                p,
                            ) == if p == k@ { v2 } else { counter_in(before, p) } by {
                                lemma_counter_update(before, i as int, kk, v2, p);
                            }
                        }
                    }
                },
                None => {
                    entries.push((k.clone(), v2));
                    proof {
                        let ghost kk = entries@[entries@.len() - 1].0;
                        assert(entries@ =~= before.push((kk, v2)));
                        assert forall|p: Seq<char>| true implies #[trigger] counter_in(entries@, p)
                            == if p == k@ { v2 } else { counter_in(before, p) } by {
                            lemma_counter_push(before, kk, v2, p);
                        }
                        assert(counter_in(before, k@) == 0);
                    }
                },
            }
            j = j + 1;
            proof {
                assert forall|p: Seq<char>| true implies #[trigger] counter_in(entries@, p)
                    == if exists|t: int| 0 <= t < j && oth@[t].0@ == p {
                        max64(counter_in(s0, p), counter_in(oth@, p))
                    } else {
                        counter_in(s0, p)
                    } by {
                    if p == k@ {
                        assert(0 <= j - 1 < j && oth@[j - 1].0@ == p);
                    } else {
                        assert((exists|t: int| 0 <= t < j && oth@[t].0@ == p) <==> (exists|t: int|
                            0 <= t < j - 1 && oth@[t].0@ == p));
                    }
                }
            }
        }
        let r = VectorClock { entries };
        proof {
            assert forall|p: Seq<char>| true implies #[trigger] r.counter(p) == max64(
                self.counter(p),
                other.counter(p),
            ) by {
                if !(exists|t: int| 0 <= t < oth@.len() && oth@[t].0@ == p) {
                    assert(counter_in(oth@, p) == 0);
                }
            }
        }
        r
    }

    /// Classifies the relation between two clocks:
    /// `Equal` when no coordinate differs, `Before` when every coordinate of
    /// `self` is at most `other`'s and one is strictly less, `After`
    /// symmetrically, and `Concurrent` otherwise.
    pub fn compare(&self, other: &VectorClock) -> (r: ComparisonResult)
        ensures
            r == spec_compare(*self, *other),
    {
        proof {
            use_type_invariant(&*self);
            use_type_invariant(other);
        }
        let mut has_greater = false;
        let mut has_less = false;
        let mut i: usize = 0;
        while i < self.entries.len()
            invariant
                distinct_keys(self.entries@),
                distinct_keys(other.entries@),
                i <= self.entries@.len(),
                has_greater ==> !vc_leq(*self, *other),
                has_less ==> !vc_leq(*other, *self),
                !has_greater ==> forall|j: int|
                    0 <= j < i ==> #[trigger] self.entries@[j].1 <= other.counter(
                        self.entries@[j].0@,
                    ),
            decreases self.entries@.len() - i,
        {
            let v1 = self.entries[i].1;
            let v2 = other.get_counter(&self.entries[i].0);
            proof {
                lemma_counter_at(self.entries@, i as int);
                assert(self.counter(self.entries@[i as int].0@) == v1);
            }
            if v1 > v2 {
                has_greater = true;
            }
            if v1 < v2 {
                has_less = true;
            }
            i = i + 1;
        }
        let mut j: usize = 0;
        while j < other.entries.len()
            invariant
                distinct_keys(self.entries@),
                distinct_keys(other.entries@),
                j <= other.entries@.len(),
                has_greater ==> !vc_leq(*self, *other),
                has_less ==> !vc_leq(*other, *self),
                !has_greater ==> forall|t: int|
                    0 <= t < self.entries@.len() ==> #[trigger] self.entries@[t].1
                        <= other.counter(self.entries@[t].0@),
                !has_less ==> forall|t: int|
                    0 <= t < j ==> #[trigger] other.entries@[t].1 <= self.counter(
                        other.entries@[t].0@,
                    ),
            decreases other.entries@.len() - j,
        {
            let v2 = other.entries[j].1;
            let v1 = self.get_counter(&other.entries[j].0);
            proof {
                lemma_counter_at(other.entries@, j as int);
                assert(other.counter(other.entries@[j as int].0@) == v2);
            }
            if v1 > v2 {
                has_greater = true;
            }
            if v1 < v2 {
                has_less = true;
            }
            j = j + 1;
        }
        proof {
            if !has_greater {
                assert forall|p: Seq<char>| #[trigger] self.counter(p) <= other.counter(p) by {
                    if exists|t: int| 0 <= t < self.entries@.len() && self.entries@[t].0@ == p {
                        let t = choose|t: int|
                            0 <= t < self.entries@.len() && self.entries@[t].0@ == p;
                        lemma_counter_at(self.entries@, t);
                    } else {
                        assert(counter_in(self.entries@, p) == 0);
                    }
                }
            }
            if !has_less {
                assert forall|p: Seq<char>| #[trigger] other.counter(p) <= self.counter(p) by {
                    if exists|t: int| 0 <= t < other.entries@.len() && other.entries@[t].0@ == p {
                        let t = choose|t: int|
                            0 <= t < other.entries@.len() && other.entries@[t].0@ == p;
                        lemma_counter_at(other.entries@, t);
                    } else {
                        assert(counter_in(other.entries@, p) == 0);
                    }
                }
            }
        }
        match (has_greater, has_less) {
            (false, false) => ComparisonResult::Equal,
            (true, false) => ComparisonResult::After,
            (false, true) => ComparisonResult::Before,
            (true, true) => ComparisonResult::Concurrent,
        }
    }

    /// True when `self` is causally before or equal to `other`.
    pub fn happens_before(&self, other: &VectorClock) -> (r: bool)
        ensures
            r == vc_leq(*self, *other),
    {
        let c = self.compare(other);
        matches!(c, ComparisonResult::Before | ComparisonResult::Equal)
    }


    /// The recorded entries: each pairs a peer with its positive counter.
    pub fn to_entries(&self) -> (r: Vec<(String, u64)>)
        ensures
            forall|i: int|
                0 <= i < r@.len() ==> self.counter((#[trigger] r@[i]).0@) == r@[i].1 && r@[i].1
                    > 0,
            forall|i: int, j: int| 0 <= i < j < r@.len() ==> r@[i].0@ != r@[j].0@,
    {
        proof {
            use_type_invariant(&*self);
        }
        let mut out: Vec<(String, u64)> = Vec::new();
        let mut i: usize = 0;
        while i < self.entries.len()
            invariant
                i <= self.entries@.len(),
                out@ =~= self.entries@.subrange(0, i as int),
                distinct_keys(self.entries@),
                forall|t: int| 0 <= t < self.entries@.len() ==> (#[trigger] self.entries@[t]).1
                    > 0,
            decreases self.entries@.len() - i,
        {
            out.push((self.entries[i].0.clone(), self.entries[i].1));
            i = i + 1;
        }
        proof {
            assert(out@ =~= self.entries@);
            assert forall|t: int|
                0 <= t < out@.len() implies self.counter((#[trigger] out@[t]).0@) == out@[t].1
                && out@[t].1 > 0 by {
                lemma_counter_at(self.entries@, t);
            }
        }
        out
    }

    /// Builds a clock from peer counters; a later entry for a peer already
    /// seen, and any entry with a zero counter, is ignored.
    pub fn from_entries(entries: &Vec<(String, u64)>) -> (r: VectorClock)
        ensures
            forall|i: int|
                0 <= i < entries@.len() && (#[trigger] entries@[i]).1 > 0 && (forall|j: int|
                    0 <= j < i ==> (#[trigger] entries@[j]).0@ != entries@[i].0@) ==> r.counter(
                    entries@[i].0@,
                ) == entries@[i].1,
            forall|p: Seq<char>|
                (forall|i: int| 0 <= i < entries@.len() ==> (#[trigger] entries@[i]).0@ != p)
                    ==> #[trigger] r.counter(p) == 0,
    {
        let mut acc: Vec<(String, u64)> = Vec::new();
        let mut i: usize = 0;
        while i < entries.len()
            invariant
                i <= entries@.len(),
                distinct_keys(acc@),
                forall|t: int| 0 <= t < acc@.len() ==> (#[trigger] acc@[t]).1 > 0,
                forall|u: int|
                    0 <= u < i && (#[trigger] entries@[u]).1 > 0 && (forall|j: int|
                        0 <= j < u ==> (#[trigger] entries@[j]).0@ != entries@[u].0@)
                        ==> counter_in(acc@, entries@[u].0@) == entries@[u].1,
                forall|p: Seq<char>|
                    (forall|u: int| 0 <= u < i ==> (#[trigger] entries@[u]).0@ != p)
                        ==> counter_in(acc@, p) == 0,
            decreases entries@.len() - i,
        {
            let ghost acc0 = acc@;
            let ghost ii = i as int;
            let k = entries[i].0.clone();
            let v = entries[i].1;
            let mut seen = false;
            let mut t: usize = 0;
            while t < acc.len()
                invariant
                    t <= acc@.len(),
                    acc@ == acc0,
                    k@ == entries@[ii].0@,
                    seen <==> exists|j: int| 0 <= j < t && acc0[j].0@ == k@,
                decreases acc@.len() - t,
            {
                if acc[t].0.eq(&k) {
                    seen = true;
                    proof {
                        assert(0 <= t < t + 1 && acc0[t as int].0@ == k@);
                    }
                }
                t = t + 1;
            }
            if !seen && v > 0 {
                proof {
                    assert(forall|j: int| 0 <= j < acc0.len() ==> acc0[j].0@ != k@);
                }
                acc.push((k, v));
                proof {
                    assert(acc@ =~= acc0.push((acc@.last().0, v)));
                    assert forall|p: Seq<char>| true implies #[trigger] counter_in(acc@, p)
                        == if p == entries@[ii].0@ {
                        v
                    } else {
                        counter_in(acc0, p)
                    } by {
                        lemma_counter_push(acc0, acc@.last().0, v, p);
                    }
                }
            }
            i = i + 1;
            proof {
                assert forall|u: int|
                    0 <= u < i && (#[trigger] entries@[u]).1 > 0 && (forall|j: int|
                        0 <= j < u ==> (#[trigger] entries@[j]).0@ != entries@[u].0@)
                        implies counter_in(acc@, entries@[u].0@) == entries@[u].1 by {
                    if u < ii {
                        if seen || v == 0 {
                        } else {
                            if entries@[u].0@ == entries@[ii].0@ {
                                assert(entries@[u].0@ != entries@[ii].0@);
                            }
                        }
                    } else {
                        if seen {
                            let j = choose|j: int| 0 <= j < acc0.len() && acc0[j].0@ == k@;
                            assert(counter_in(acc0, k@) != 0) by {
                                lemma_counter_at(acc0, j);
                            }
                            assert(exists|w: int|
                                0 <= w < ii && (#[trigger] entries@[w]).0@ == entries@[ii].0@)
                                by {
                                if forall|w: int|
                                    0 <= w < ii ==> (#[trigger] entries@[w]).0@ != entries@[
                                    ii].0@ {
                                    assert(counter_in(acc0, k@) == 0);
                                }
                            }
                        }
                    }
                }
            }
        }
        let r = VectorClock { entries: acc };
        proof {
            assert forall|p: Seq<char>|
                (forall|i2: int| 0 <= i2 < entries@.len() ==> (#[trigger] entries@[i2]).0@ != p)
                    implies #[trigger] r.counter(p) == 0 by {}
        }
        r
    }

    /// Returns a copy that records the same counter for every peer.
    pub fn clone(&self) -> (r: VectorClock)
        ensures
            vc_eq(r, *self),
            forall|p: Seq<char>| #[trigger] r.counter(p) == self.counter(p),
    {
        proof {
            use_type_invariant(&*self);
        }
        let mut entries: Vec<(String, u64)> = Vec::new();
        let mut i: usize = 0;
        while i < self.entries.len()
            invariant
                i <= self.entries@.len(),
                entries@ =~= self.entries@.subrange(0, i as int),
                distinct_keys(self.entries@),
            decreases self.entries@.len() - i,
        {
            let k = self.entries[i].0.clone();
            let v = self.entries[i].1;
            entries.push((k, v));
            i = i + 1;
        }
        proof {
            assert(entries@ =~= self.entries@);
        }
        VectorClock { entries }
    }
}

/// Law: comparing a clock with itself yields `Equal`.
pub proof fn law_compare_reflexive(v: VectorClock)
    ensures
        spec_compare(v, v) == ComparisonResult::Equal,
{
}

/// Law: every pair of clocks falls in exactly one of the four relations.
pub proof fn law_compare_total(v: VectorClock, w: VectorClock)
    ensures
        spec_compare(v, w) == ComparisonResult::Equal <==> vc_eq(v, w),
        spec_compare(v, w) == ComparisonResult::Before <==> (vc_leq(v, w) && !vc_leq(w, v)),
        spec_compare(v, w) == ComparisonResult::After <==> (!vc_leq(v, w) && vc_leq(w, v)),
        spec_compare(v, w) == ComparisonResult::Concurrent <==> (!vc_leq(v, w) && !vc_leq(w, v)),
{
}

/// Law: `v` is after `w` exactly when `w` is before `v`.
pub proof fn law_compare_dual(v: VectorClock, w: VectorClock)
    ensures
        spec_compare(v, w) == ComparisonResult::After <==> spec_compare(w, v)
            == ComparisonResult::Before,
{
}

/// Law: the merge of two clocks is associative.
pub proof fn law_merge_associative(
    v: VectorClock,
    w: VectorClock,
    x: VectorClock,
    vw: VectorClock,
    wx: VectorClock,
    a: VectorClock,
    b: VectorClock,
)
    requires
        is_merge_of(vw, v, w),
        is_merge_of(a, vw, x),
        is_merge_of(wx, w, x),
        is_merge_of(b, v, wx),
    ensures
        vc_eq(a, b),
{
    assert forall|p: Seq<char>| #[trigger] a.counter(p) <= b.counter(p) by {
        assert(a.counter(p) == max64(vw.counter(p), x.counter(p)));
    }
    assert forall|p: Seq<char>| #[trigger] b.counter(p) <= a.counter(p) by {
        assert(b.counter(p) == max64(v.counter(p), wx.counter(p)));
    }
}

/// Law: the merge of two clocks is commutative.
pub proof fn law_merge_commutative(
    v: VectorClock,
    w: VectorClock,
    a: VectorClock,
    b: VectorClock,
)
    requires
        is_merge_of(a, v, w),
        is_merge_of(b, w, v),
    ensures
        vc_eq(a, b),
{
    assert forall|p: Seq<char>| #[trigger] a.counter(p) <= b.counter(p) by {
        assert(a.counter(p) == max64(v.counter(p), w.counter(p)));
    }
    assert forall|p: Seq<char>| #[trigger] b.counter(p) <= a.counter(p) by {
        assert(b.counter(p) == max64(w.counter(p), v.counter(p)));
    }
}

/// Law: merging a clock with itself changes nothing.
pub proof fn law_merge_idempotent(v: VectorClock, a: VectorClock)
    requires
        is_merge_of(a, v, v),
    ensures
        vc_eq(a, v),
{
    assert forall|p: Seq<char>| #[trigger] a.counter(p) <= v.counter(p) by {
        assert(a.counter(p) == max64(v.counter(p), v.counter(p)));
    }
    assert forall|p: Seq<char>| #[trigger] v.counter(p) <= a.counter(p) by {
        assert(a.counter(p) == max64(v.counter(p), v.counter(p)));
    }
}

/// Law: a merge dominates both of its inputs: each happens before it.
pub proof fn law_merge_dominates(v: VectorClock, w: VectorClock, m: VectorClock)
    requires
        is_merge_of(m, v, w),
    ensures
        vc_leq(v, m),
        vc_leq(w, m),
{
    assert forall|p: Seq<char>| #[trigger] v.counter(p) <= m.counter(p) by {
        assert(m.counter(p) == max64(v.counter(p), w.counter(p)));
    }
    assert forall|p: Seq<char>| #[trigger] w.counter(p) <= m.counter(p) by {
        assert(m.counter(p) == max64(v.counter(p), w.counter(p)));
    }
}

/// Law: a clock happens before its increment, and never the other way round.
pub proof fn law_increment_advances(v: VectorClock, r: VectorClock, peer: Seq<char>)
    requires
        is_increment_of(r, v, peer),
    ensures
        vc_leq(v, r),
        !vc_leq(r, v),
{
    assert forall|p: Seq<char>| #[trigger] v.counter(p) <= r.counter(p) by {
        if p != peer {
            assert(r.counter(p) == v.counter(p));
        }
    }
    assert(r.counter(peer) > v.counter(peer));
}

/// Sum of the counters recorded in an association list.
pub open spec fn seq_weight(s: Seq<(String, u64)>) -> int
    decreases s.len(),
{
    if s.len() == 0 {
        0
    } else {
        s[0].1 + seq_weight(s.drop_first())
    }
}

/// A weight is a sum of non-negative counters.
proof fn lemma_seq_weight_nonneg(s: Seq<(String, u64)>)
    ensures
        seq_weight(s) >= 0,
    decreases s.len(),
{
    if s.len() > 0 {
        lemma_seq_weight_nonneg(s.drop_first());
    }
}

/// Removing one entry takes exactly its counter out of the weight.
proof fn lemma_seq_weight_remove(s: Seq<(String, u64)>, i: int)
    requires
        0 <= i < s.len(),
    ensures
        seq_weight(s.remove(i)) == seq_weight(s) - s[i].1,
    decreases i,
{
    if i == 0 {
        assert(s.remove(0) =~= s.drop_first());
    } else {
        lemma_seq_weight_remove(s.drop_first(), i - 1);
        assert(s.remove(i).drop_first() =~= s.drop_first().remove(i - 1));
        assert(s.remove(i)[0] == s[0]);
        assert(s.remove(i).len() > 0);
    }
}

/// Removing an entry keeps the remaining keys pairwise distinct.
proof fn lemma_distinct_remove(s: Seq<(String, u64)>, j: int)
    requires
        distinct_keys(s),
        0 <= j < s.len(),
    ensures
        distinct_keys(s.remove(j)),
{
    let t = s.remove(j);
    assert forall|x: int, y: int| 0 <= x < y < t.len() implies t[x].0@ != t[y].0@ by {
        let x0: int = if x < j {
            x
        } else {
            x + 1
        };
        let y0: int = if y < j {
            y
        } else {
            y + 1
        };
        assert(t[x] == s[x0] && t[y] == s[y0]);
    }
}

/// Removing an entry with another key keeps a key's counter.
proof fn lemma_counter_remove(s: Seq<(String, u64)>, j: int, p: Seq<char>)
    requires
        distinct_keys(s),
        0 <= j < s.len(),
        s[j].0@ != p,
    ensures
        counter_in(s.remove(j), p) == counter_in(s, p),
{
    let t = s.remove(j);
    lemma_distinct_remove(s, j);
    if exists|u: int| 0 <= u < s.len() && s[u].0@ == p {
        let u = choose|u: int| 0 <= u < s.len() && s[u].0@ == p;
        lemma_counter_at(s, u);
        let u1: int = if u < j {
            u
        } else {
            u - 1
        };
        assert(t[u1] == s[u]);
        lemma_counter_at(t, u1);
    } else {
        assert forall|u: int| 0 <= u < t.len() implies t[u].0@ != p by {
            let u0: int = if u < j {
                u
            } else {
                u + 1
            };
            assert(t[u] == s[u0]);
        }
        assert(counter_in(t, p) == 0);
        assert(counter_in(s, p) == 0);
    }
}

/// Entries covered one by one cannot outweigh the covering list.
proof fn lemma_weight_subsum(s: Seq<(String, u64)>, t: Seq<(String, u64)>)
    requires
        distinct_keys(s),
        distinct_keys(t),
        forall|i: int| 0 <= i < s.len() ==> (#[trigger] s[i]).1 > 0,
        forall|i: int| 0 <= i < s.len() ==> counter_in(t, (#[trigger] s[i]).0@) >= s[i].1,
    ensures
        seq_weight(s) <= seq_weight(t),
    decreases s.len(),
{
    if s.len() == 0 {
        lemma_seq_weight_nonneg(t);
    } else {
        let k = s[0].0@;
        let v = s[0].1;
        assert(counter_in(t, k) >= v);
        if !(exists|j: int| 0 <= j < t.len() && t[j].0@ == k) {
            assert(counter_in(t, k) == 0);
            assert(false);
        }
        let j = choose|j: int| 0 <= j < t.len() && t[j].0@ == k;
        lemma_counter_at(t, j);
        let t1 = t.remove(j);
        lemma_seq_weight_remove(t, j);
        lemma_distinct_remove(t, j);
        let s1 = s.drop_first();
        assert(s.remove(0) =~= s1);
        lemma_distinct_remove(s, 0);
        assert(forall|i: int| 0 <= i < s1.len() ==> s1[i] == s[i + 1]);
        assert forall|i: int| 0 <= i < s1.len() implies counter_in(
            t1,
            (#[trigger] s1[i]).0@,
        ) >= s1[i].1 by {
            assert(s1[i] == s[i + 1]);
            assert(s1[i].0@ != k);
            lemma_counter_remove(t, j, s1[i].0@);
        }
        lemma_weight_subsum(s1, t1);
    }
}

/// As `lemma_weight_subsum`, and strictly when some key `q` counts for
/// more in the covering list.
proof fn lemma_weight_subsum_strict(s: Seq<(String, u64)>, t: Seq<(String, u64)>, q: Seq<char>)
    requires
        distinct_keys(s),
        distinct_keys(t),
        forall|i: int| 0 <= i < s.len() ==> (#[trigger] s[i]).1 > 0,
        forall|i: int| 0 <= i < s.len() ==> counter_in(t, (#[trigger] s[i]).0@) >= s[i].1,
        counter_in(t, q) > counter_in(s, q),
    ensures
        seq_weight(s) < seq_weight(t),
    decreases s.len(),
{
    assert(counter_in(t, q) > 0);
    if !(exists|j: int| 0 <= j < t.len() && t[j].0@ == q) {
        assert(counter_in(t, q) == 0);
        assert(false);
    }
    let jq = choose|j: int| 0 <= j < t.len() && t[j].0@ == q;
    lemma_counter_at(t, jq);
    if s.len() == 0 {
        lemma_seq_weight_remove(t, jq);
        lemma_seq_weight_nonneg(t.remove(jq));
    } else {
        let k = s[0].0@;
        let v = s[0].1;
        let s1 = s.drop_first();
        assert(s.remove(0) =~= s1);
        lemma_distinct_remove(s, 0);
        assert(forall|i: int| 0 <= i < s1.len() ==> s1[i] == s[i + 1]);
        if k == q {
            lemma_counter_at(s, 0);
            assert(v < counter_in(t, q));
            let t1 = t.remove(jq);
            lemma_seq_weight_remove(t, jq);
            lemma_distinct_remove(t, jq);
            assert forall|i: int| 0 <= i < s1.len() implies counter_in(
                t1,
                (#[trigger] s1[i]).0@,
            ) >= s1[i].1 by {
                assert(s1[i] == s[i + 1]);
                assert(s1[i].0@ != k);
                lemma_counter_remove(t, jq, s1[i].0@);
            }
            lemma_weight_subsum(s1, t1);
        } else {
            assert(counter_in(t, k) >= v);
            if !(exists|j: int| 0 <= j < t.len() && t[j].0@ == k) {
                assert(counter_in(t, k) == 0);
                assert(false);
            }
            let j = choose|j: int| 0 <= j < t.len() && t[j].0@ == k;
            lemma_counter_at(t, j);
            let t1 = t.remove(j);
            lemma_seq_weight_remove(t, j);
            lemma_distinct_remove(t, j);
            assert forall|i: int| 0 <= i < s1.len() implies counter_in(
                t1,
                (#[trigger] s1[i]).0@,
            ) >= s1[i].1 by {
                assert(s1[i] == s[i + 1]);
                assert(s1[i].0@ != k);
                lemma_counter_remove(t, j, s1[i].0@);
            }
            lemma_counter_remove(t, j, q);
            lemma_counter_remove(s, 0, q);
            lemma_weight_subsum_strict(s1, t1, q);
        }
    }
}

/// Law: the weight is a linear extension of the dominance order: a
/// dominated clock weighs no more, and strictly less when the
/// domination is strict.
pub proof fn law_weight_monotone(a: VectorClock, b: VectorClock)
    requires
        a.wf(),
        b.wf(),
        vc_leq(a, b),
    ensures
        a.spec_weight() <= b.spec_weight(),
        !vc_leq(b, a) ==> a.spec_weight() < b.spec_weight(),
{
    assert forall|i: int| 0 <= i < a.entries@.len() implies counter_in(
        b.entries@,
        (#[trigger] a.entries@[i]).0@,
    ) >= a.entries@[i].1 by {
        lemma_counter_at(a.entries@, i);
        assert(a.counter(a.entries@[i].0@) <= b.counter(a.entries@[i].0@));
    }
    lemma_weight_subsum(a.entries@, b.entries@);
    if !vc_leq(b, a) {
        let q = choose|q: Seq<char>| !(#[trigger] b.counter(q) <= a.counter(q));
        lemma_weight_subsum_strict(a.entries@, b.entries@, q);
    }
}

/// Law: merging a clock with its own increment yields the increment.
pub proof fn law_merge_increment(v: VectorClock, r: VectorClock, m: VectorClock, peer: Seq<char>)
    requires
        is_increment_of(r, v, peer),
        is_merge_of(m, v, r),
    ensures
        vc_eq(m, r),
{
    assert forall|p: Seq<char>| #[trigger] m.counter(p) <= r.counter(p) by {
        assert(m.counter(p) == max64(v.counter(p), r.counter(p)));
        if p != peer {
            assert(r.counter(p) == v.counter(p));
        }
    }
    assert forall|p: Seq<char>| #[trigger] r.counter(p) <= m.counter(p) by {
        assert(m.counter(p) == max64(v.counter(p), r.counter(p)));
    }
}

} // verus!
