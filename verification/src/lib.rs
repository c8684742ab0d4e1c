//! A temporal indexed container: an ordered sequence of (time, value) entries
//! with a default value, answering "what was the value as of time `t`" queries.

use vstd::prelude::*;

verus! {

/// Logical time: an externally supplied unsigned counter used purely as an
/// ordering key.
pub type Time = u64;

/// The index of the rightmost entry of `s` whose time is at or below `t`,
/// or `-1` when every entry's time is above `t` (or `s` is empty).
pub open spec fn index_as_of<T>(s: Seq<(Time, T)>, t: Time) -> int
    decreases s.len(),
{
    if s.len() == 0 {
        -1
    } else if s.last().0 <= t {
        s.len() - 1
    } else {
        index_as_of(s.drop_last(), t)
    }
}

/// The times of `s` are non-decreasing.
pub open spec fn times_sorted<T>(s: Seq<(Time, T)>) -> bool {
    forall|i: int, j: int| 0 <= i <= j < s.len() ==> s[i].0 <= s[j].0
}

/// `index_as_of` stays within bounds, lands on an entry at or below `t`,
/// and every entry to its right is above `t`.
proof fn lemma_index_as_of_bounds<T>(s: Seq<(Time, T)>, t: Time)
    ensures
        -1 <= index_as_of(s, t) < s.len(),
        index_as_of(s, t) >= 0 ==> s[index_as_of(s, t)].0 <= t,
        forall|j: int| index_as_of(s, t) < j < s.len() ==> s[j].0 > t,
    decreases s.len(),
{
    if s.len() == 0 {
    } else if s.last().0 <= t {
    } else {
        lemma_index_as_of_bounds(s.drop_last(), t);
        assert forall|j: int| index_as_of(s, t) < j < s.len() implies s[j].0 > t by {
            if j < s.len() - 1 {
                assert(s.drop_last()[j] == s[j]);
            }
        }
    }
}

/// Any entry at or below `t` keeps `index_as_of` at or beyond its position.
proof fn lemma_index_as_of_at_least<T>(s: Seq<(Time, T)>, t: Time, i: int)
    requires
        0 <= i < s.len(),
        s[i].0 <= t,
    ensures
        index_as_of(s, t) >= i,
    decreases s.len(),
{
    if s.last().0 <= t {
    } else {
        assert(s.drop_last()[i] == s[i]);
        lemma_index_as_of_at_least(s.drop_last(), t, i);
    }
}

/// Sortedness is invariant under insertion: placing a new entry immediately
/// after the rightmost entry whose time is at or below its own keeps the
/// stored times non-decreasing.
pub proof fn lemma_insert_preserves_sorted<T>(s: Seq<(Time, T)>, t: Time, v: T)
    requires
        times_sorted(s),
    ensures
        times_sorted(s.insert(index_as_of(s, t) + 1, (t, v))),
{
    let i = index_as_of(s, t);
    lemma_index_as_of_bounds(s, t);
    let s2 = s.insert(i + 1, (t, v));
    s.insert_ensures(i + 1, (t, v));
    assert forall|a: int, b: int| 0 <= a <= b < s2.len() implies s2[a].0 <= s2[b].0 by {
        if a <= i {
            assert(s2[a] == s[a]);
        } else if a > i + 1 {
            assert(s2[a] == s[a - 1]);
        }
        if b <= i {
            assert(s2[b] == s[b]);
        } else if b > i + 1 {
            assert(s2[b] == s[b - 1]);
        }
    }
}

/// After inserting an entry at time `t` in its insertion position, that entry
/// is the one an as-of query at `t` selects.
pub proof fn lemma_index_as_of_after_insert<T>(s: Seq<(Time, T)>, t: Time, v: T)
    ensures
        index_as_of(s.insert(index_as_of(s, t) + 1, (t, v)), t) == index_as_of(s, t) + 1,
{
    let i = index_as_of(s, t);
    lemma_index_as_of_bounds(s, t);
    let s2 = s.insert(i + 1, (t, v));
    s.insert_ensures(i + 1, (t, v));
    lemma_index_as_of_bounds(s2, t);
    assert(s2[i + 1].0 <= t);
    lemma_index_as_of_at_least(s2, t, i + 1);
    let i2 = index_as_of(s2, t);
    if i2 > i + 1 {
        assert(s2[i2] == s[i2 - 1]);
        assert(s[i2 - 1].0 > t);
    }
}

/// Records how a value changes across discrete logical time points: an ordered
/// sequence of (time, value) entries plus a default for times preceding them all.
pub struct Timeline<T> {
    timeline: Vec<(Time, T)>,
    default: T,
}

impl<T> View for Timeline<T> {
    type V = Seq<(Time, T)>;

    closed spec fn view(&self) -> Seq<(Time, T)> {
        self.timeline@
    }
}

impl<T> Timeline<T> {
    /// The constructor-supplied default value.
    pub closed spec fn default_value(self) -> T {
        self.default
    }

    /// Well-formedness invariant: entries are sorted by non-decreasing time.
    pub open spec fn wf(self) -> bool {
        times_sorted(self@)
    }

    /// The value an as-of lookup at `t` must return: the value of the rightmost
    /// entry whose time is at or below `t`, or the default when there is none.
    pub open spec fn value_as_of(self, t: Time) -> T {
        if index_as_of(self@, t) >= 0 {
            self@[index_as_of(self@, t)].1
        } else {
            self.default_value()
        }
    }

    pub fn new(default: T) -> (r: Timeline<T>)
        ensures
            r.wf(),
            r@ == Seq::<(Time, T)>::empty(),
            r.default_value() == default,
    {
        let timeline: Vec<(Time, T)> = Vec::new();
        proof {
            assert(timeline@ =~= Seq::<(Time, T)>::empty());
        }
        Timeline { timeline, default }
    }

    /// Returns the index of the rightmost entry whose time is at or below `time`.
    /// Returns `None` if `time` is smaller than every recorded time, or the
    /// timeline is empty. Binary search: each probe halves the open range.
    pub fn lookup_index(&self, time: &Time) -> (r: Option<usize>)
        requires
            self.wf(),
        ensures
            index_as_of(self@, *time) >= 0 ==> r == Some(index_as_of(self@, *time) as usize),
            index_as_of(self@, *time) < 0 ==> r is None,
            self@.len() <= usize::MAX,
    {
        proof {
            lemma_index_as_of_bounds(self@, *time);
        }
        let n = self.timeline.len();
        // All indices below `low` hold times at or below `time`;
        // all indices at or above `high` hold times above `time`.
        let mut low: usize = 0;
        let mut high: usize = n;
        while low < high
            invariant
                low <= high <= n == self@.len(),
                self.wf(),
                forall|j: int| 0 <= j < low ==> self@[j].0 <= *time,
                forall|j: int| high <= j < n ==> self@[j].0 > *time,
            decreases high - low,
        {
            let mid = low + (high - low) / 2;
            if self.timeline[mid].0 <= *time {
                low = mid + 1;
            } else {
                high = mid;
            }
        }
        if low == 0 {
            None
        } else {
            proof {
                lemma_index_as_of_at_least(self@, *time, low - 1);
            }
            Some(low - 1)
        }
    }

    /// Returns the value of the entry with the greatest recorded time at or
    /// below `time`; the default if `time` is smaller than every recorded time.
    pub fn lookup(&self, time: &Time) -> (r: &T)
        requires
            self.wf(),
        ensures
            *r == self.value_as_of(*time),
    {
        proof {
            lemma_index_as_of_bounds(self@, *time);
        }
        match self.lookup_index(time) {
            Some(index) => &self.timeline[index].1,
            None => &self.default,
        }
    }

    /// Inserts `value` at the point `time` on the timeline, immediately after
    /// the rightmost existing entry whose time is at or below `time`, so that
    /// entries stay sorted and the newest entry for an equal time comes last.
    pub fn insert(&mut self, time: Time, value: T)
        requires
            old(self).wf(),
        ensures
            final(self).wf(),
            final(self)@ == old(self)@.insert(index_as_of(old(self)@, time) + 1, (time, value)),
            final(self).default_value() == old(self).default_value(),
    {
        proof {
            lemma_index_as_of_bounds(self@, time);
        }
        let insert_index = match self.lookup_index(&time) {
            Some(index) => index + 1,
            None => 0,
        };
        self.timeline.insert(insert_index, (time, value));
        proof {
            lemma_insert_preserves_sorted(old(self)@, time, value);
        }
    }

    /// The recorded entries, in storage order.
    pub fn entries(&self) -> (r: &Vec<(Time, T)>)
        ensures
            r@ == self@,
    {
        &self.timeline
    }
}

/// Default floor: when `t` lies below every recorded time — in particular when
/// nothing has been recorded — the as-of value at `t` is the constructor-supplied
/// default.
pub proof fn lemma_default_floor<T>(tl: Timeline<T>, t: Time)
    requires
        forall|j: int| 0 <= j < tl@.len() ==> t < tl@[j].0,
    ensures
        tl.value_as_of(t) == tl.default_value(),
{
    lemma_index_as_of_bounds(tl@, t);
}

/// Monotone retrieval: raising the query time never selects an earlier entry,
/// so the time of the selected entry is monotone in the query time.
pub proof fn lemma_monotone_retrieval<T>(tl: Timeline<T>, t1: Time, t2: Time)
    requires
        tl.wf(),
        t1 <= t2,
    ensures
        index_as_of(tl@, t1) <= index_as_of(tl@, t2),
        index_as_of(tl@, t1) >= 0 ==> tl@[index_as_of(tl@, t1)].0 <= tl@[index_as_of(tl@, t2)].0,
{
    lemma_index_as_of_bounds(tl@, t1);
    lemma_index_as_of_bounds(tl@, t2);
    let i1 = index_as_of(tl@, t1);
    if i1 >= 0 {
        lemma_index_as_of_at_least(tl@, t2, i1);
    }
}

/// Latest-wins: an insertion at time `t` makes the inserted value the one an
/// as-of lookup at `t` returns, so of repeated insertions at an equal time the
/// most recent one wins. The premise is exactly what `insert` ensures.
pub proof fn lemma_latest_wins<T>(before: Timeline<T>, after: Timeline<T>, t: Time, v: T)
    requires
        after@ == before@.insert(index_as_of(before@, t) + 1, (t, v)),
    ensures
        after.value_as_of(t) == v,
{
    lemma_index_as_of_bounds(before@, t);
    lemma_index_as_of_after_insert(before@, t, v);
    before@.insert_ensures(index_as_of(before@, t) + 1, (t, v));
}

} // verus!

