use vstd::prelude::*;

verus! {

/// A totally ordered logical timestamp.
pub type Timestamp = u64;

/// An antichain of totally ordered timestamps holds at most one element;
/// `None` is the empty antichain, meaning every time has been reached.
pub type Frontier = Option<Timestamp>;

/// A batch of signed count changes at timestamps.
pub type ChangeBatch = Vec<(Timestamp, i64)>;

/// Antichain order: `a <= b` iff every element of `b` is at or above some element of `a`.
pub open spec fn frontier_le(a: Frontier, b: Frontier) -> bool {
    match b {
        None => true,
        Some(y) => match a {
            None => false,
            Some(x) => x <= y,
        },
    }
}

/// Executable antichain comparison.
pub fn less_equal(a: &Frontier, b: &Frontier) -> (r: bool)
    ensures
        r == frontier_le(*a, *b),
{
    match b {
        None => true,
        Some(y) => match a {
            None => false,
            Some(x) => *x <= *y,
        },
    }
}

/// The accumulated count at `t` of a multiset of signed counts.
pub open spec fn count(m: Map<Timestamp, int>, t: Timestamp) -> int {
    if m.contains_key(t) {
        m[t]
    } else {
        0
    }
}

/// `f` is the frontier of `m`: the least time with positive count, or empty when none is positive.
pub open spec fn is_frontier(m: Map<Timestamp, int>, f: Frontier) -> bool {
    match f {
        None => forall|t: Timestamp| count(m, t) <= 0,
        Some(x) => count(m, x) > 0 && forall|t: Timestamp| count(m, t) > 0 ==> x <= t,
    }
}

/// A multiset with a single change applied.
pub open spec fn apply_one(m: Map<Timestamp, int>, c: (Timestamp, i64)) -> Map<Timestamp, int> {
    m.insert(c.0, count(m, c.0) + c.1)
}

/// A multiset with a sequence of changes applied in order.
pub open spec fn apply(m: Map<Timestamp, int>, c: Seq<(Timestamp, i64)>) -> Map<Timestamp, int>
    decreases c.len(),
{
    if c.len() == 0 {
        m
    } else {
        apply(apply_one(m, c[0]), c.drop_first())
    }
}

/// Applying the changes in order keeps every accumulated count within `i64`.
pub open spec fn fits(m: Map<Timestamp, int>, c: Seq<(Timestamp, i64)>) -> bool
    decreases c.len(),
{
    if c.len() == 0 {
        true
    } else {
        i64::MIN <= count(m, c[0].0) + c[0].1 <= i64::MAX && fits(apply_one(m, c[0]), c.drop_first())
    }
}

/// The change on a frontier, as `+1` at the new element and `-1` at the old one.
pub open spec fn frontier_delta(old: Frontier, new: Frontier) -> Seq<(Timestamp, i64)> {
    if old == new {
        seq![]
    } else {
        (match new {
            Some(x) => seq![(x, 1i64)],
            None => seq![],
        }) + (match old {
            Some(y) => seq![(y, -1i64)],
            None => seq![],
        })
    }
}

/// The frontier of a multiset is unique.
pub proof fn lemma_frontier_unique(m: Map<Timestamp, int>, f: Frontier, g: Frontier)
    requires
        is_frontier(m, f),
        is_frontier(m, g),
    ensures
        f == g,
{
    match f {
        None => match g {
            None => {},
            Some(y) => {
                assert(count(m, y) > 0);
            },
        },
        Some(x) => match g {
            None => {
                assert(count(m, x) > 0);
            },
            Some(y) => {
                assert(x <= y);
                assert(y <= x);
            },
        },
    }
}

/// `entries` lists each time of `counts` once, with its count.
pub closed spec fn entries_match(entries: Seq<(Timestamp, i64)>, counts: Map<Timestamp, int>) -> bool {
    &&& forall|i: int, j: int| 0 <= i < j < entries.len() ==> entries[i].0 != entries[j].0
    &&& forall|i: int|
        0 <= i < entries.len() ==> #[trigger] counts.contains_key(entries[i].0) && counts[entries[i].0]
            == entries[i].1 as int
    &&& forall|t: Timestamp|
        #[trigger] counts.contains_key(t) ==> exists|i: int|
            0 <= i < entries.len() && entries[i].0 == t
}

/// A multiset of signed counts at timestamps, which reports the antichain
/// of least times with positive count.
pub struct MutableAntichain {
    entries: Vec<(Timestamp, i64)>,
    frontier: Frontier,
    counts: Ghost<Map<Timestamp, int>>,
}

impl MutableAntichain {
    /// The accumulated counts.
    pub closed spec fn view(&self) -> Map<Timestamp, int> {
        self.counts@
    }

    /// The reported frontier.
    pub closed spec fn frontier_spec(&self) -> Frontier {
        self.frontier
    }

    pub closed spec fn wf(&self) -> bool {
        &&& self.entries_wf()
        &&& is_frontier(self.counts@, self.frontier)
    }

    closed spec fn entries_wf(&self) -> bool {
        entries_match(self.entries@, self.counts@)
    }

    /// An empty multiset, whose frontier is the empty antichain.
    pub fn new() -> (r: Self)
        ensures
            r.wf(),
            r@ == Map::<Timestamp, int>::empty(),
            r.frontier_spec() == None::<Timestamp>,
    {
        MutableAntichain { entries: Vec::new(), frontier: None, counts: Ghost(Map::empty()) }
    }

    /// A multiset holding `bottom` once.
    pub fn new_bottom(bottom: Timestamp) -> (r: Self)
        ensures
            r.wf(),
            r@ == Map::<Timestamp, int>::empty().insert(bottom, 1int),
            r.frontier_spec() == Some(bottom),
    {
        let r = MutableAntichain {
            entries: vec![(bottom, 1i64)],
            frontier: Some(bottom),
            counts: Ghost(Map::empty().insert(bottom, 1int)),
        };
        assert(r.entries@[0].0 == bottom);
        r
    }

    /// A well-formed multiset reports its frontier.
    pub proof fn lemma_wf_frontier(&self)
        requires
            self.wf(),
        ensures
            is_frontier(self@, self.frontier_spec()),
    {
    }

    /// Whether every count has room for one more `+1` or `-1`.
    pub fn has_headroom(&self) -> (r: bool)
        requires
            self.wf(),
        ensures
            r == headroom(self@),
    {
        let mut i: usize = 0;
        while i < self.entries.len()
            invariant
                self.wf(),
                i <= self.entries@.len(),
                forall|k: int| 0 <= k < i ==> i64::MIN < (#[trigger] self.entries@[k]).1 < i64::MAX,
            decreases self.entries@.len() - i,
        {
            let c = self.entries[i].1;
            if c == i64::MIN || c == i64::MAX {
                proof {
                    assert(self.counts@.contains_key(self.entries@[i as int].0));
                    assert(!(i64::MIN < count(self@, self.entries@[i as int].0) < i64::MAX));
                }
                return false;
            }
            i = i + 1;
        }
        proof {
            assert forall|t: Timestamp| i64::MIN < #[trigger] count(self@, t) < i64::MAX by {
                if self.counts@.contains_key(t) {
                    let k = choose|k: int| 0 <= k < self.entries@.len() && self.entries@[k].0 == t;
                    assert(self.counts@.contains_key(self.entries@[k].0));
                }
            }
        }
        true
    }

    /// The current frontier.
    pub fn frontier(&self) -> (r: Frontier)
        requires
            self.wf(),
        ensures
            r == self.frontier_spec(),
            is_frontier(self@, r),
    {
        self.frontier
    }

    /// The least time with positive count, found by a scan of the entries.
    fn rebuild(entries: &Vec<(Timestamp, i64)>, counts: Ghost<Map<Timestamp, int>>) -> (r: Frontier)
        requires
            entries_match(entries@, counts@),
        ensures
            is_frontier(counts@, r),
    {
        let mut best: Frontier = None;
        let mut i: usize = 0;
        while i < entries.len()
            invariant
                i <= entries@.len(),
                entries_match(entries@, counts@),
                forall|k: int|
                    0 <= k < entries@.len() ==> #[trigger] counts@.contains_key(entries@[k].0)
                        && counts@[entries@[k].0] == entries@[k].1 as int,
                forall|k: int|
                    0 <= k < i && entries@[k].1 > 0 ==> frontier_le(best, Some(entries@[k].0)),
                match best {
                    None => true,
                    Some(x) => count(counts@, x) > 0,
                },
            decreases entries@.len() - i,
        {
            let (t, c) = entries[i];
            if c > 0 {
                match best {
                    None => {
                        best = Some(t);
                    },
                    Some(x) => {
                        if t < x {
                            best = Some(t);
                        }
                    },
                }
            }
            i = i + 1;
        }
        assert forall|t: Timestamp| count(counts@, t) > 0 implies frontier_le(best, Some(t)) by {
            assert(counts@.contains_key(t));
            let k = choose|k: int| 0 <= k < entries@.len() && entries@[k].0 == t;
            assert(counts@.contains_key(entries@[k].0));
        }
        best
    }

    /// Applies one change to the count at a time.
    fn update_one(&mut self, t: Timestamp, d: i64)
        requires
            old(self).entries_wf(),
            i64::MIN <= count(old(self)@, t) + d <= i64::MAX,
        ensures
            final(self).entries_wf(),
            final(self)@ == apply_one(old(self)@, (t, d)),
            final(self).frontier == old(self).frontier,
    {
        let ghost before = self.counts@;
        let mut i: usize = 0;
        while i < self.entries.len() && self.entries[i].0 != t
            invariant
                i <= self.entries@.len(),
                self.entries@ == old(self).entries@,
                self.counts@ == before,
                forall|k: int| 0 <= k < i ==> self.entries@[k].0 != t,
            decreases self.entries@.len() - i,
        {
            i = i + 1;
        }
        proof {
            if i == self.entries@.len() {
                assert(!before.contains_key(t));
            } else {
                assert(before.contains_key(t));
            }
        }
        let ghost entries0 = self.entries@;
        if i < self.entries.len() {
            let c = self.entries[i].1;
            self.entries.set(i, (t, c + d));
        } else {
            self.entries.push((t, d));
        }
        self.counts = Ghost(apply_one(before, (t, d)));
        proof {
            assert forall|k: int| 0 <= k < self.entries@.len() implies #[trigger] self.counts@.contains_key(
                self.entries@[k].0,
            ) && self.counts@[self.entries@[k].0] == self.entries@[k].1 as int by {
                if self.entries@[k].0 != t {
                    assert(entries0[k] == self.entries@[k]);
                    assert(before.contains_key(entries0[k].0));
                }
            }
            assert forall|s: Timestamp| #[trigger] self.counts@.contains_key(s) implies exists|k: int|
                0 <= k < self.entries@.len() && self.entries@[k].0 == s by {
                if s == t {
                    assert(self.entries@[i as int].0 == t);
                } else if i < entries0.len() && s == entries0[i as int].0 {
                } else {
                    assert(before.contains_key(s));
                    let k = choose|k: int| 0 <= k < entries0.len() && entries0[k].0 == s;
                    assert(self.entries@[k].0 == s);
                }
            }
        }
    }

    /// Folds a change batch into the counts and returns the change on the frontier:
    /// empty when the frontier did not move, else `+1` at the new frontier element and
    /// `-1` at the old one.
    pub fn update_iter(&mut self, changes: &ChangeBatch) -> (r: ChangeBatch)
        requires
            old(self).wf(),
            fits(old(self)@, changes@),
        ensures
            final(self).wf(),
            final(self)@ == apply(old(self)@, changes@),
            is_frontier(final(self)@, final(self).frontier_spec()),
            r@ == frontier_delta(old(self).frontier_spec(), final(self).frontier_spec()),
    {
        let old_frontier = self.frontier;
        let mut i: usize = 0;
        assert(changes@.skip(0) =~= changes@);
        while i < changes.len()
            invariant
                i <= changes@.len(),
                self.entries_wf(),
                self.frontier == old_frontier,
                apply(self@, changes@.skip(i as int)) == apply(old(self)@, changes@),
                fits(self@, changes@.skip(i as int)),
            decreases changes@.len() - i,
        {
            let ghost rest = changes@.skip(i as int);
            assert(rest[0] == changes@[i as int]);
            assert(rest.drop_first() =~= changes@.skip(i as int + 1));
            let (t, d) = changes[i];
            self.update_one(t, d);
            i = i + 1;
        }
        assert(changes@.skip(i as int) =~= Seq::<(Timestamp, i64)>::empty());
        let f = Self::rebuild(&self.entries, self.counts);
        self.frontier = f;
        let mut delta: ChangeBatch = Vec::new();
        if old_frontier != f {
            match f {
                Some(x) => delta.push((x, 1i64)),
                None => {},
            }
            match old_frontier {
                Some(y) => delta.push((y, -1i64)),
                None => {},
            }
        }
        assert(delta@ =~= frontier_delta(old_frontier, f));
        delta
    }
}

} // verus!

verus! {

/// Every count is strictly inside the range of `i64`, so one more `+1` or `-1` fits.
pub open spec fn headroom(m: Map<Timestamp, int>) -> bool {
    forall|t: Timestamp| i64::MIN < #[trigger] count(m, t) < i64::MAX
}

/// A frontier change fits into a multiset with headroom.
pub proof fn lemma_delta_fits(m: Map<Timestamp, int>, old: Frontier, new: Frontier)
    requires
        headroom(m),
    ensures
        fits(m, frontier_delta(old, new)),
{
    let c = frontier_delta(old, new);
    assert(count(m, 0) == count(m, 0));
    if c.len() > 0 {
        let m1 = apply_one(m, c[0]);
        assert(i64::MIN < count(m, c[0].0) < i64::MAX);
        if c.len() > 1 {
            assert(c[0].0 != c[1].0);
            assert(count(m1, c[1].0) == count(m, c[1].0));
            assert(i64::MIN < count(m, c[1].0) < i64::MAX);
            assert(c.drop_first().drop_first().len() == 0);
            assert(fits(apply_one(m1, c.drop_first()[0]), c.drop_first().drop_first()));
            assert(fits(m1, c.drop_first()));
        } else {
            assert(c.drop_first().len() == 0);
            assert(fits(m1, c.drop_first()));
        }
        assert(c[0].1 == 1 || c[0].1 == -1);
        assert(fits(m, c));
    }
}

/// An empty batch leaves a multiset unchanged.
pub proof fn lemma_apply_empty(m: Map<Timestamp, int>, c: Seq<(Timestamp, i64)>)
    requires
        c.len() == 0,
    ensures
        apply(m, c) == m,
{
}

/// The change batch that moves a hold from `old` to `new`.
pub fn delta_batch(old: &Frontier, new: &Frontier) -> (r: ChangeBatch)
    ensures
        r@ == frontier_delta(*old, *new),
{
    let mut r: ChangeBatch = Vec::new();
    if *old != *new {
        match new {
            Some(x) => r.push((*x, 1i64)),
            None => {},
        }
        match old {
            Some(y) => r.push((*y, -1i64)),
            None => {},
        }
    }
    assert(r@ =~= frontier_delta(*old, *new));
    r
}

} // verus!
