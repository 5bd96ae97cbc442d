//! A set of integers stored as sorted, non-overlapping intervals: items next
//! to an interval, or between two, merge with them.

use vstd::prelude::*;

verus! {

/// Closed interval. For example, `Interval(1, 2)` means `[1, 2]` in math.
#[derive(Clone, Copy, Debug, Default, PartialEq, Eq, Structural)]
pub struct Interval {
    pub start: usize,
    pub end: usize,
}

/// Constructor.
#[allow(non_snake_case)]
pub fn Interval(start: usize, end: usize) -> (r: Interval)
    ensures
        r == (Interval { start, end }),
{
    Interval { start, end }
}

/// Right side open interval. For example, `RightOpenInterval(1, 2)` means
/// `[1, 2[` in math.
#[derive(Clone, Copy, Debug, Default, PartialEq, Eq, Structural)]
pub struct RightOpenInterval {
    pub start: usize,
    pub end: usize,
}

/// Constructor.
#[allow(non_snake_case)]
pub fn RightOpenInterval(start: usize, end: usize) -> (r: RightOpenInterval)
    ensures
        r == (RightOpenInterval { start, end }),
{
    RightOpenInterval { start, end }
}

/// The right open interval of a closed one: its end moves up by one,
/// saturating at the largest `usize`.
pub open spec fn right_open_of(t: Interval) -> RightOpenInterval {
    RightOpenInterval {
        start: t.start,
        end: if t.end < usize::MAX { (t.end + 1) as usize } else { usize::MAX },
    }
}

/// The closed interval of a right open one: its end moves down by one,
/// saturating at zero.
pub open spec fn closed_of(t: RightOpenInterval) -> Interval {
    Interval { start: t.start, end: if t.end > 0 { (t.end - 1) as usize } else { 0 } }
}

impl From<Interval> for RightOpenInterval {
    fn from(t: Interval) -> (r: RightOpenInterval) {
        let start = t.start;
        let end = t.end.saturating_add(1);
        RightOpenInterval { start, end }
    }
}

impl vstd::std_specs::convert::FromSpecImpl<Interval> for RightOpenInterval {
    open spec fn obeys_from_spec() -> bool {
        true
    }

    open spec fn from_spec(t: Interval) -> RightOpenInterval {
        right_open_of(t)
    }
}

impl From<RightOpenInterval> for Interval {
    fn from(t: RightOpenInterval) -> (r: Interval) {
        let start = t.start;
        let end = t.end.saturating_sub(1);
        Interval { start, end }
    }
}

impl vstd::std_specs::convert::FromSpecImpl<RightOpenInterval> for Interval {
    open spec fn obeys_from_spec() -> bool {
        true
    }

    open spec fn from_spec(t: RightOpenInterval) -> Interval {
        closed_of(t)
    }
}

impl From<&RightOpenInterval> for RightOpenInterval {
    fn from(t: &RightOpenInterval) -> (r: RightOpenInterval) {
        *t
    }
}

impl vstd::std_specs::convert::FromSpecImpl<&RightOpenInterval> for RightOpenInterval {
    open spec fn obeys_from_spec() -> bool {
        true
    }

    open spec fn from_spec(t: &RightOpenInterval) -> RightOpenInterval {
        *t
    }
}

impl RightOpenInterval {
    /// Compares the value to this interval. A value "close" to the right
    /// side of the interval counts as included: for `RightOpenInterval(1, 2)`
    /// the value `2` is close. `Greater` means that the interval lies above
    /// the value, `Less` that it lies below.
    pub fn cmp_close_to_value(&self, value: usize) -> (r: core::cmp::Ordering)
        ensures
            r == (if self.start > value {
                core::cmp::Ordering::Greater
            } else if self.end < value {
                core::cmp::Ordering::Less
            } else {
                core::cmp::Ordering::Equal
            }),
    {
        if self.start > value {
            core::cmp::Ordering::Greater
        } else if self.end < value {
            core::cmp::Ordering::Less
        } else {
            core::cmp::Ordering::Equal
        }
    }

    /// Checks whether the `end` value is bigger than the `start` value.
    pub fn check_valid(&self) -> (r: bool)
        ensures
            r == (self.start < self.end),
    {
        self.start < self.end
    }
}

/// The number of items of an interval.
pub open spec fn width(t: RightOpenInterval) -> int {
    t.end - t.start
}

/// The intervals are valid, sorted, and separated by at least one value
/// that none of them holds (intervals next to each other are merged).
pub open spec fn is_sorted_disjoint(s: Seq<RightOpenInterval>) -> bool {
    &&& forall|i: int| 0 <= i < s.len() ==> #[trigger] s[i].start < s[i].end
    &&& forall|i: int, j: int| 0 <= i < j < s.len() ==> s[i].end < s[j].start
}

/// Some interval of `s` holds `x`.
pub open spec fn covers(s: Seq<RightOpenInterval>, x: usize) -> bool {
    exists|i: int| 0 <= i < s.len() && s[i].start <= x < #[trigger] s[i].end
}

/// The number of items that the intervals hold together.
pub open spec fn total_len(s: Seq<RightOpenInterval>) -> int
    decreases s.len(),
{
    if s.len() == 0 {
        0
    } else {
        total_len(s.drop_last()) + width(s.last())
    }
}

/// The count of a concatenation is the sum of the counts.
proof fn lemma_total_concat(a: Seq<RightOpenInterval>, b: Seq<RightOpenInterval>)
    ensures
        total_len(a + b) == total_len(a) + total_len(b),
    decreases b.len(),
{
    if b.len() > 0 {
        assert((a + b).drop_last() =~= a + b.drop_last());
        lemma_total_concat(a, b.drop_last());
    } else {
        assert(a + b =~= a);
    }
}

/// The count after replacing, inserting or removing one interval.
proof fn lemma_total_edit(s: Seq<RightOpenInterval>, i: int, t: RightOpenInterval)
    requires
        0 <= i <= s.len(),
    ensures
        i < s.len() ==> total_len(s.update(i, t)) == total_len(s) - width(s[i]) + width(t),
        i < s.len() ==> total_len(s.remove(i)) == total_len(s) - width(s[i]),
        total_len(s.insert(i, t)) == total_len(s) + width(t),
{
    let pre = s.subrange(0, i);
    let single = seq![t];
    assert(total_len(single) == width(t)) by {
        assert(single.drop_last() =~= Seq::<RightOpenInterval>::empty());
        assert(total_len(single.drop_last()) == 0);
        assert(single.last() == t);
    }
    if i < s.len() {
        let post = s.subrange(i + 1, s.len() as int);
        let old_single = seq![s[i]];
        assert(total_len(old_single) == width(s[i])) by {
            assert(old_single.drop_last() =~= Seq::<RightOpenInterval>::empty());
            assert(total_len(old_single.drop_last()) == 0);
            assert(old_single.last() == s[i]);
        }
        assert(s =~= pre + old_single + post);
        assert(s.update(i, t) =~= pre + single + post);
        assert(s.remove(i) =~= pre + post);
        lemma_total_concat(pre, old_single);
        lemma_total_concat(pre + old_single, post);
        lemma_total_concat(pre, single);
        lemma_total_concat(pre + single, post);
        lemma_total_concat(pre, post);
    }
    let rest = s.subrange(i, s.len() as int);
    assert(s =~= pre + rest);
    assert(s.insert(i, t) =~= pre + single + rest);
    lemma_total_concat(pre, rest);
    lemma_total_concat(pre, single);
    lemma_total_concat(pre + single, rest);
}

/// Sorted, disjoint intervals hold no more items than the span from the
/// first start to the last end, less one for each gap.
proof fn lemma_total_bound(s: Seq<RightOpenInterval>)
    requires
        is_sorted_disjoint(s),
    ensures
        total_len(s) >= 0,
        s.len() > 0 ==> total_len(s) + s.len() - 1 <= s.last().end - s[0].start,
        total_len(s) <= usize::MAX,
    decreases s.len(),
{
    if s.len() > 0 {
        let d = s.drop_last();
        assert(is_sorted_disjoint(d)) by {
            assert(forall|i: int| 0 <= i < d.len() ==> d[i] == s[i]);
        }
        lemma_total_bound(d);
        assert(s[s.len() - 1].start < s[s.len() - 1].end);
        if d.len() > 0 {
            assert(d.last().end < s.last().start);
            assert(d[0] == s[0]);
        }
    }
}

/// Without its first interval, a list holds the items of that interval no
/// more, and keeps the others.
proof fn lemma_covers_tail(s: Seq<RightOpenInterval>)
    requires
        is_sorted_disjoint(s),
        s.len() > 0,
    ensures
        is_sorted_disjoint(s.drop_first()),
        forall|x: usize|
            covers(s.drop_first(), x) <==> covers(s, x) && !(s[0].start <= x < s[0].end),
{
    let d = s.drop_first();
    assert forall|i: int| 0 <= i < d.len() implies #[trigger] d[i].start < d[i].end by {
        assert(d[i] == s[i + 1]);
    }
    assert forall|i: int, j: int| 0 <= i < j < d.len() implies d[i].end < d[j].start by {
        assert(d[i] == s[i + 1] && d[j] == s[j + 1]);
    }
    assert forall|x: usize| covers(d, x) <==> covers(s, x) && !(s[0].start <= x < s[0].end) by {
        if covers(d, x) {
            let i = choose|i: int| 0 <= i < d.len() && d[i].start <= x < #[trigger] d[i].end;
            assert(s[i + 1].start <= x < s[i + 1].end);
            assert(s[0].end < s[i + 1].start);
        }
        if covers(s, x) && !(s[0].start <= x < s[0].end) {
            let i = choose|i: int| 0 <= i < s.len() && s[i].start <= x < #[trigger] s[i].end;
            assert(i > 0);
            assert(d[i - 1].start <= x < d[i - 1].end);
        }
    }
}

/// Sorted, disjoint intervals are determined by the items they hold: two
/// trees with the same items hold the same intervals.
pub proof fn lemma_items_determine_intervals(s: Seq<RightOpenInterval>, t: Seq<RightOpenInterval>)
    requires
        is_sorted_disjoint(s),
        is_sorted_disjoint(t),
        forall|x: usize| covers(s, x) == covers(t, x),
    ensures
        s == t,
    decreases s.len() + t.len(),
{
    if s.len() == 0 || t.len() == 0 {
        if s.len() > 0 {
            assert(covers(s, s[0].start)) by {
                assert(s[0].start < s[0].end);
            }
        }
        if t.len() > 0 {
            assert(covers(t, t[0].start)) by {
                assert(t[0].start < t[0].end);
            }
        }
        assert(s =~= t);
    } else {
        let a = s[0];
        let b = t[0];
        assert(a.start == b.start) by {
            assert(a.start < a.end && b.start < b.end);
            assert(covers(s, a.start));
            assert(covers(t, b.start));
            let i = choose|i: int| 0 <= i < t.len() && t[i].start <= a.start < #[trigger] t[i].end;
            let j = choose|j: int| 0 <= j < s.len() && s[j].start <= b.start < #[trigger] s[j].end;
            if i > 0 {
                assert(b.end < t[i].start);
            }
            if j > 0 {
                assert(a.end < s[j].start);
            }
        }
        assert(a.end == b.end) by {
            if a.end < b.end {
                assert(covers(t, a.end));
                if covers(s, a.end) {
                    let i = choose|i: int| 0 <= i < s.len() && s[i].start <= a.end < #[trigger] s[i].end;
                    if i > 0 {
                        assert(a.end < s[i].start);
                    }
                }
            }
            if b.end < a.end {
                assert(covers(s, b.end));
                if covers(t, b.end) {
                    let i = choose|i: int| 0 <= i < t.len() && t[i].start <= b.end < #[trigger] t[i].end;
                    if i > 0 {
                        assert(b.end < t[i].start);
                    }
                }
            }
        }
        lemma_covers_tail(s);
        lemma_covers_tail(t);
        assert forall|x: usize| covers(s.drop_first(), x) == covers(t.drop_first(), x) by {
            assert(covers(s, x) == covers(t, x));
        }
        lemma_items_determine_intervals(s.drop_first(), t.drop_first());
        assert(s =~= seq![a] + s.drop_first());
        assert(t =~= seq![b] + t.drop_first());
    }
}

/// High performance interval tree. It allows inserting new values and
/// automatically merges intervals that are next to each other. All intervals
/// stored in the tree are sorted and non-overlapping.
#[derive(Clone, Debug, Default, PartialEq, Eq)]
pub struct IntervalTree {
    /// Right open intervals, which allow for the cheapest insertion.
    vec: Vec<RightOpenInterval>,
    item_count: usize,
}

impl View for IntervalTree {
    type V = Seq<RightOpenInterval>;

    closed spec fn view(&self) -> Seq<RightOpenInterval> {
        self.vec@
    }
}

impl IntervalTree {
    /// The number of items that the tree keeps count of.
    pub closed spec fn count(&self) -> nat {
        self.item_count as nat
    }

    /// The intervals are sorted and disjoint, and the count is their number
    /// of items.
    pub open spec fn wf(&self) -> bool {
        is_sorted_disjoint(self@) && self.count() == total_len(self@)
    }

    /// The items of the tree.
    pub open spec fn items(&self) -> Set<usize> {
        Set::new(|x: usize| covers(self@, x))
    }

    /// Constructor.
    pub fn new() -> (r: Self)
        ensures
            r.wf(),
            r@ == Seq::<RightOpenInterval>::empty(),
    {
        let r = IntervalTree { vec: Vec::new(), item_count: 0 };
        assert(total_len(r@) == 0);
        r
    }

    /// The number of items in this tree.
    pub fn item_count(&self) -> (r: usize)
        requires
            self.wf(),
        ensures
            r == total_len(self@),
    {
        self.item_count
    }

    /// The number of intervals in this tree.
    pub fn interval_count(&self) -> (r: usize)
        ensures
            r == self@.len(),
    {
        self.vec.len()
    }

    /// Get the interval by index.
    pub fn index(&self, ix: usize) -> (r: Option<RightOpenInterval>)
        ensures
            r == (if ix < self@.len() {
                Some(self@[ix as int])
            } else {
                None
            }),
    {
        if ix < self.vec.len() {
            Some(self.vec[ix])
        } else {
            None
        }
    }

    /// Binary search of the interval that holds `value` or ends right
    /// before it (`Ok`), or else of the position where an interval holding
    /// `value` would go (`Err`).
    fn search(&self, value: usize) -> (r: Result<usize, usize>)
        requires
            is_sorted_disjoint(self@),
        ensures
            r matches Ok(i) ==> i < self@.len() && self@[i as int].start <= value <= self@[i as int].end,
            r matches Err(i) ==> i <= self@.len() && (forall|j: int| 0 <= j < i ==> self@[j].end < value)
                && (forall|j: int| i <= j < self@.len() ==> self@[j].start > value),
    {
        let mut lo: usize = 0;
        let mut hi: usize = self.vec.len();
        while lo < hi
            invariant
                is_sorted_disjoint(self@),
                lo <= hi <= self@.len(),
                forall|j: int| 0 <= j < lo ==> self@[j].end < value,
                forall|j: int| hi <= j < self@.len() ==> self@[j].start > value,
            decreases hi - lo,
        {
            let mid = lo + (hi - lo) / 2;
            match self.vec[mid].cmp_close_to_value(value) {
                core::cmp::Ordering::Less => {
                    proof {
                        assert forall|j: int| 0 <= j < mid + 1 implies self@[j].end < value by {
                            if j < mid {
                                assert(self@[j].end < self@[mid as int].start);
                            }
                        }
                    }
                    lo = mid + 1;
                },
                core::cmp::Ordering::Greater => {
                    proof {
                        assert forall|j: int| mid <= j < self@.len() implies self@[j].start > value by {
                            if j > mid {
                                assert(self@[mid as int].end < self@[j].start);
                            }
                        }
                    }
                    hi = mid;
                },
                core::cmp::Ordering::Equal => {
                    return Ok(mid);
                },
            }
        }
        Err(lo)
    }

    /// Insert a new item. An item next to an interval, or between two,
    /// merges with them.
    pub fn insert(&mut self, value: usize)
        requires
            old(self).wf(),
            value < usize::MAX,
        ensures
            final(self).wf(),
            final(self).items() == old(self).items().insert(value),
            final(self).count() == old(self).count() + (if old(self).items().contains(value) {
                0int
            } else {
                1int
            }),
    {
        let ghost s = self@;
        match self.search(value) {
            Err(index) => {
                if index < self.vec.len() && self.vec[index].start == value + 1 {
                    self.vec[index].start = value;
                    proof {
                        lemma_extend_down(s, index as int, value);
                    }
                } else {
                    self.vec.insert(index, RightOpenInterval::from(Interval(value, value)));
                    proof {
                        lemma_insert_alone(s, index as int, value);
                    }
                }
                proof {
                    lemma_total_bound(self@);
                }
                self.item_count = self.item_count + 1;
            },
            Ok(index) => {
                let len = self.vec.len();
                if self.vec[index].end == value {
                    assert(index < len);
                    let next = index + 1;
                    if next < len && self.vec[next].start == value + 1 {
                        let end = self.vec[next].end;
                        self.vec[index].end = end;
                        self.vec.remove(next);
                        proof {
                            lemma_merge(s, index as int, value);
                        }
                    } else {
                        self.vec[index].end = value + 1;
                        proof {
                            lemma_extend_up(s, index as int, value);
                        }
                    }
                    proof {
                        lemma_total_bound(self@);
                    }
                    self.item_count = self.item_count + 1;
                } else {
                    proof {
                        assert(s[index as int].start <= value < s[index as int].end);
                    }
                }
            },
        }
        proof {
            assert(self.items() =~= old(self).items().insert(value));
        }
    }

    /// Take the first item and shrink or remove the first interval.
    pub fn take_first_item(&mut self) -> (r: Option<usize>)
        requires
            old(self).wf(),
        ensures
            final(self).wf(),
            r == (if old(self)@.len() == 0 {
                None
            } else {
                Some(old(self)@[0].start)
            }),
            final(self)@ == (if old(self)@.len() == 0 {
                old(self)@
            } else {
                without_first(old(self)@)
            }),
            r matches Some(x) ==> forall|y: usize| #[trigger] old(self).items().contains(y) ==> x <= y,
            final(self).items() == (match r {
                Some(x) => old(self).items().remove(x),
                None => old(self).items(),
            }),
            final(self).count() == old(self).count() - (if r is Some {
                1int
            } else {
                0int
            }),
    {
        let len = self.vec.len();
        if len == 0 {
            proof {
                assert(self.items() =~= old(self).items());
            }
            return None;
        }
        let ghost s = self@;
        proof {
            lemma_take_first(s);
            lemma_total_bound(without_first(s));
        }
        let out = self.vec[0].start;
        self.vec[0].start = out + 1;
        self.item_count = self.item_count - 1;
        if !self.vec[0].check_valid() {
            self.vec.remove(0);
            assert(self@ =~= s.drop_first());
        }
        proof {
            assert(self@ =~= without_first(s));
            assert(self.items() =~= old(self).items().remove(out));
        }
        Some(out)
    }

    /// Take the last item and shrink or remove the last interval.
    pub fn take_last_item(&mut self) -> (r: Option<usize>)
        requires
            old(self).wf(),
        ensures
            final(self).wf(),
            r == (if old(self)@.len() == 0 {
                None
            } else {
                Some((old(self)@.last().end - 1) as usize)
            }),
            final(self)@ == (if old(self)@.len() == 0 {
                old(self)@
            } else {
                without_last(old(self)@)
            }),
            r matches Some(x) ==> forall|y: usize| #[trigger] old(self).items().contains(y) ==> y <= x,
            final(self).items() == (match r {
                Some(x) => old(self).items().remove(x),
                None => old(self).items(),
            }),
            final(self).count() == old(self).count() - (if r is Some {
                1int
            } else {
                0int
            }),
    {
        let len = self.vec.len();
        if len == 0 {
            proof {
                assert(self.items() =~= old(self).items());
            }
            return None;
        }
        let ghost s = self@;
        proof {
            lemma_take_last(s);
            lemma_total_bound(without_last(s));
        }
        let last_index = len - 1;
        let out = self.vec[last_index].end - 1;
        self.vec[last_index].end = out;
        self.item_count = self.item_count - 1;
        if !self.vec[last_index].check_valid() {
            self.vec.truncate(last_index);
            assert(self@ =~= s.drop_last());
        }
        proof {
            assert(self@ =~= without_last(s));
            assert(self.items() =~= old(self).items().remove(out));
        }
        Some(out)
    }

    /// The first interval of the tree.
    pub fn first_interval(&mut self) -> (r: Option<Interval>)
        ensures
            *final(self) == *old(self),
            r == (if old(self)@.len() == 0 {
                None
            } else {
                Some(closed_of(old(self)@[0]))
            }),
    {
        if self.vec.len() == 0 {
            None
        } else {
            Some(Interval::from(self.vec[0]))
        }
    }

    /// The last interval of the tree.
    pub fn last_interval(&mut self) -> (r: Option<Interval>)
        ensures
            *final(self) == *old(self),
            r == (if old(self)@.len() == 0 {
                None
            } else {
                Some(closed_of(old(self)@.last()))
            }),
    {
        let len = self.vec.len();
        if len == 0 {
            None
        } else {
            Some(Interval::from(self.vec[len - 1]))
        }
    }

    /// The first item of the first interval: the smallest item.
    pub fn first_item(&mut self) -> (r: Option<usize>)
        requires
            old(self).wf(),
        ensures
            *final(self) == *old(self),
            r == (if old(self)@.len() == 0 {
                None
            } else {
                Some(old(self)@[0].start)
            }),
            r matches Some(x) ==> old(self).items().contains(x) && forall|y: usize|
                #[trigger] old(self).items().contains(y) ==> x <= y,
            r is None ==> old(self).items().is_empty(),
    {
        proof {
            if self@.len() > 0 {
                lemma_take_first(self@);
            } else {
                assert(self.items() =~= Set::<usize>::empty());
            }
        }
        match self.first_interval() {
            Some(t) => Some(t.start),
            None => None,
        }
    }

    /// The last item of the last interval: the largest item.
    pub fn last_item(&mut self) -> (r: Option<usize>)
        requires
            old(self).wf(),
        ensures
            *final(self) == *old(self),
            r == (if old(self)@.len() == 0 {
                None
            } else {
                Some((old(self)@.last().end - 1) as usize)
            }),
            r matches Some(x) ==> old(self).items().contains(x) && forall|y: usize|
                #[trigger] old(self).items().contains(y) ==> y <= x,
            r is None ==> old(self).items().is_empty(),
    {
        proof {
            if self@.len() > 0 {
                lemma_take_last(self@);
            } else {
                assert(self.items() =~= Set::<usize>::empty());
            }
        }
        match self.last_interval() {
            Some(t) => Some(t.end),
            None => None,
        }
    }
}

/// `t` holds the items of `s` but `value`, which `s` holds, and one item
/// less in all.
pub open spec fn removes_item(s: Seq<RightOpenInterval>, t: Seq<RightOpenInterval>, value: usize) -> bool {
    &&& is_sorted_disjoint(t)
    &&& covers(s, value)
    &&& forall|x: usize| covers(t, x) <==> covers(s, x) && x != value
    &&& total_len(t) == total_len(s) - 1
}

/// The first interval without its first item.
pub open spec fn without_first(s: Seq<RightOpenInterval>) -> Seq<RightOpenInterval> {
    if width(s[0]) == 1 {
        s.drop_first()
    } else {
        s.update(0, RightOpenInterval { start: (s[0].start + 1) as usize, end: s[0].end })
    }
}

/// The last interval without its last item.
pub open spec fn without_last(s: Seq<RightOpenInterval>) -> Seq<RightOpenInterval> {
    let l = s.len() - 1;
    if width(s[l]) == 1 {
        s.drop_last()
    } else {
        s.update(l, RightOpenInterval { start: s[l].start, end: (s[l].end - 1) as usize })
    }
}

/// Taking the first item out of the first interval takes the smallest item.
proof fn lemma_take_first(s: Seq<RightOpenInterval>)
    requires
        is_sorted_disjoint(s),
        s.len() > 0,
    ensures
        removes_item(s, without_first(s), s[0].start),
        forall|x: usize| covers(s, x) ==> s[0].start <= x,
{
    let t = without_first(s);
    let v = s[0].start;
    assert(s[0].start < s[0].end);
    lemma_total_edit(s, 0, s[0]);
    assert(s.remove(0) =~= s.drop_first());
    lemma_covers_tail(s);
    assert(covers(s, v)) by {
        assert(s[0].start <= v < s[0].end);
    }
    assert forall|x: usize| covers(s, x) implies v <= x by {
        let i = choose|i: int| 0 <= i < s.len() && s[i].start <= x < #[trigger] s[i].end;
        if i > 0 {
            assert(s[0].end < s[i].start);
        }
    }
    if width(s[0]) != 1 {
        lemma_total_edit(s, 0, t[0]);
        assert forall|i: int, j: int| 0 <= i < j < t.len() implies t[i].end < t[j].start by {
            assert(t[i].end == s[i].end);
        }
        assert forall|x: usize| covers(t, x) <==> covers(s, x) && x != v by {
            if covers(t, x) {
                let i = choose|i: int| 0 <= i < t.len() && t[i].start <= x < #[trigger] t[i].end;
                assert(s[i].start <= x < s[i].end);
                if i > 0 {
                    assert(s[0].end < s[i].start);
                }
            }
            if covers(s, x) && x != v {
                let i = choose|i: int| 0 <= i < s.len() && s[i].start <= x < #[trigger] s[i].end;
                assert(t[i].start <= x < t[i].end);
            }
        }
    } else {
        assert forall|x: usize| covers(t, x) <==> covers(s, x) && x != v by {
            assert(covers(t, x) <==> covers(s, x) && !(s[0].start <= x < s[0].end));
        }
    }
}

/// Taking the last item out of the last interval takes the largest item.
proof fn lemma_take_last(s: Seq<RightOpenInterval>)
    requires
        is_sorted_disjoint(s),
        s.len() > 0,
    ensures
        removes_item(s, without_last(s), (s.last().end - 1) as usize),
        forall|x: usize| covers(s, x) ==> x <= s.last().end - 1,
{
    let l = s.len() - 1;
    let t = without_last(s);
    let v = (s[l].end - 1) as usize;
    assert(s[l].start < s[l].end);
    lemma_total_edit(s, l, s[l]);
    assert(s.remove(l) =~= s.drop_last());
    if width(s[l]) != 1 {
        lemma_total_edit(s, l, t[l]);
    }
    assert forall|i: int, j: int| 0 <= i < j < t.len() implies t[i].end < t[j].start by {
        assert(t[i].end <= s[i].end);
        assert(t[j].start == s[j].start);
    }
    assert forall|i: int| 0 <= i < t.len() implies #[trigger] t[i].start < t[i].end by {
        assert(s[i].start < s[i].end);
    }
    assert(covers(s, v)) by {
        assert(s[l].start <= v < s[l].end);
    }
    assert forall|x: usize| covers(s, x) implies x <= s.last().end - 1 by {
        let i = choose|i: int| 0 <= i < s.len() && s[i].start <= x < #[trigger] s[i].end;
        if i < l {
            assert(s[i].end < s[l].start);
        }
    }
    assert forall|x: usize| covers(t, x) <==> covers(s, x) && x != v by {
        if covers(t, x) {
            let i = choose|i: int| 0 <= i < t.len() && t[i].start <= x < #[trigger] t[i].end;
            assert(s[i].start <= x < s[i].end);
            if i < l {
                assert(s[i].end < s[l].start);
            }
        }
        if covers(s, x) && x != v {
            let i = choose|i: int| 0 <= i < s.len() && s[i].start <= x < #[trigger] s[i].end;
            if i < l {
                assert(t[i] == s[i]);
            } else {
                assert(t[l].start <= x < t[l].end);
            }
        }
    }
}

/// `t` holds the items of `s` and `value`, which `s` lacks, and one item
/// more in all.
pub open spec fn adds_item(s: Seq<RightOpenInterval>, t: Seq<RightOpenInterval>, value: usize) -> bool {
    &&& is_sorted_disjoint(t)
    &&& !covers(s, value)
    &&& forall|x: usize| covers(t, x) <==> covers(s, x) || x == value
    &&& total_len(t) == total_len(s) + 1
}

/// A value right below an interval, and above the one before, extends it.
proof fn lemma_extend_down(s: Seq<RightOpenInterval>, index: int, value: usize)
    requires
        is_sorted_disjoint(s),
        0 <= index < s.len(),
        s[index].start == value + 1,
        forall|j: int| 0 <= j < index ==> s[j].end < value,
    ensures
        adds_item(s, s.update(index, RightOpenInterval { start: value, end: s[index].end }), value),
{
    let t = s.update(index, RightOpenInterval { start: value, end: s[index].end });
    lemma_total_edit(s, index, t[index]);
    assert forall|x: usize| covers(t, x) <==> covers(s, x) || x == value by {
        if covers(t, x) {
            let i = choose|i: int| 0 <= i < t.len() && t[i].start <= x < #[trigger] t[i].end;
            if x != value {
                assert(s[i].start <= x < s[i].end);
            }
        }
        if covers(s, x) {
            let i = choose|i: int| 0 <= i < s.len() && s[i].start <= x < #[trigger] s[i].end;
            assert(t[i].start <= x < t[i].end);
        }
        if x == value {
            assert(t[index].start <= x < t[index].end);
        }
    }
    assert(!covers(s, value)) by {
        if covers(s, value) {
            let i = choose|i: int| 0 <= i < s.len() && s[i].start <= value < #[trigger] s[i].end;
            if i > index {
                assert(s[index].end < s[i].start);
            }
        }
    }
}

/// A value away from every interval becomes an interval of its own.
proof fn lemma_insert_alone(s: Seq<RightOpenInterval>, index: int, value: usize)
    requires
        is_sorted_disjoint(s),
        value < usize::MAX,
        0 <= index <= s.len(),
        forall|j: int| 0 <= j < index ==> s[j].end < value,
        forall|j: int| index <= j < s.len() ==> s[j].start > value,
        !(index < s.len() && s[index].start == value + 1),
    ensures
        adds_item(s, s.insert(index, RightOpenInterval { start: value, end: (value + 1) as usize }), value),
{
    let t = s.insert(index, RightOpenInterval { start: value, end: (value + 1) as usize });
    lemma_total_edit(s, index, t[index]);
    assert forall|i: int, j: int| 0 <= i < j < t.len() implies t[i].end < t[j].start by {
        if j == index {
        } else if i == index {
            assert(t[j] == s[j - 1]);
            if j - 1 > index {
                assert(s[index].end < s[j - 1].start);
            }
        } else if i > index {
            assert(t[i] == s[i - 1] && t[j] == s[j - 1]);
        } else if j > index {
            assert(t[j] == s[j - 1]);
        }
    }
    assert forall|i: int| 0 <= i < t.len() implies #[trigger] t[i].start < t[i].end by {
        if i > index {
            assert(t[i] == s[i - 1]);
        }
    }
    assert forall|x: usize| covers(t, x) <==> covers(s, x) || x == value by {
        if covers(t, x) {
            let i = choose|i: int| 0 <= i < t.len() && t[i].start <= x < #[trigger] t[i].end;
            if i < index {
                assert(s[i] == t[i]);
            } else if i > index {
                assert(s[i - 1] == t[i]);
            }
        }
        if covers(s, x) {
            let i = choose|i: int| 0 <= i < s.len() && s[i].start <= x < #[trigger] s[i].end;
            if i < index {
                assert(t[i] == s[i]);
            } else {
                assert(t[i + 1] == s[i]);
            }
        }
        if x == value {
            assert(t[index].start <= x < t[index].end);
        }
    }
    assert(!covers(s, value)) by {
        if covers(s, value) {
            let i = choose|i: int| 0 <= i < s.len() && s[i].start <= value < #[trigger] s[i].end;
        }
    }
}

/// A value right after an interval, and right before the next, joins the
/// two.
proof fn lemma_merge(s: Seq<RightOpenInterval>, index: int, value: usize)
    requires
        is_sorted_disjoint(s),
        0 <= index < s.len() - 1,
        s[index].end == value,
        s[index + 1].start == value + 1,
    ensures
        adds_item(
            s,
            s.update(index, RightOpenInterval { start: s[index].start, end: s[index + 1].end }).remove(
                index + 1,
            ),
            value,
        ),
{
    let u = s.update(index, RightOpenInterval { start: s[index].start, end: s[index + 1].end });
    let t = u.remove(index + 1);
    lemma_total_edit(s, index, u[index]);
    lemma_total_edit(u, index + 1, u[index]);
    assert forall|i: int, j: int| 0 <= i < j < t.len() implies t[i].end < t[j].start by {
        if i == index {
            assert(t[j] == s[j + 1]);
        } else if i > index {
            assert(t[i] == s[i + 1] && t[j] == s[j + 1]);
        } else if j == index {
            assert(t[i] == s[i]);
        } else if j > index {
            assert(t[i] == s[i] && t[j] == s[j + 1]);
        }
    }
    assert forall|i: int| 0 <= i < t.len() implies #[trigger] t[i].start < t[i].end by {
        if i > index {
            assert(t[i] == s[i + 1]);
        }
    }
    assert forall|x: usize| covers(t, x) <==> covers(s, x) || x == value by {
        if covers(t, x) {
            let i = choose|i: int| 0 <= i < t.len() && t[i].start <= x < #[trigger] t[i].end;
            if x != value {
                if i < index {
                    assert(s[i] == t[i]);
                } else if i > index {
                    assert(s[i + 1] == t[i]);
                } else if x < value {
                    assert(s[i].start <= x < s[i].end);
                } else {
                    assert(s[i + 1].start <= x < s[i + 1].end);
                }
            }
        }
        if covers(s, x) {
            let i = choose|i: int| 0 <= i < s.len() && s[i].start <= x < #[trigger] s[i].end;
            if i < index {
                assert(t[i] == s[i]);
            } else if i <= index + 1 {
                assert(t[index].start <= x < t[index].end);
            } else {
                assert(t[i - 1] == s[i]);
            }
        }
        if x == value {
            assert(t[index].start <= x < t[index].end);
        }
    }
    assert(!covers(s, value)) by {
        if covers(s, value) {
            let i = choose|i: int| 0 <= i < s.len() && s[i].start <= value < #[trigger] s[i].end;
            if i < index {
                assert(s[i].end < s[index].start);
            } else if i > index {
                assert(s[index].end < s[i].start);
            }
        }
    }
}

/// A value right after an interval, and away from the next, extends it.
proof fn lemma_extend_up(s: Seq<RightOpenInterval>, index: int, value: usize)
    requires
        is_sorted_disjoint(s),
        value < usize::MAX,
        0 <= index < s.len(),
        s[index].end == value,
        !(index + 1 < s.len() && s[index + 1].start == value + 1),
    ensures
        adds_item(
            s,
            s.update(index, RightOpenInterval { start: s[index].start, end: (value + 1) as usize }),
            value,
        ),
{
    let t = s.update(index, RightOpenInterval { start: s[index].start, end: (value + 1) as usize });
    lemma_total_edit(s, index, t[index]);
    assert forall|i: int, j: int| 0 <= i < j < t.len() implies t[i].end < t[j].start by {
        if i == index {
            assert(s[index].end < s[j].start);
            if j > index + 1 {
                assert(s[index + 1].end < s[j].start);
                assert(s[index + 1].start < s[index + 1].end);
            }
        }
    }
    assert forall|x: usize| covers(t, x) <==> covers(s, x) || x == value by {
        if covers(t, x) {
            let i = choose|i: int| 0 <= i < t.len() && t[i].start <= x < #[trigger] t[i].end;
            if x != value {
                assert(s[i].start <= x < s[i].end);
            }
        }
        if covers(s, x) {
            let i = choose|i: int| 0 <= i < s.len() && s[i].start <= x < #[trigger] s[i].end;
            assert(t[i].start <= x < t[i].end);
        }
        if x == value {
            assert(t[index].start <= x < t[index].end);
        }
    }
    assert(!covers(s, value)) by {
        if covers(s, value) {
            let i = choose|i: int| 0 <= i < s.len() && s[i].start <= value < #[trigger] s[i].end;
            if i < index {
                assert(s[i].end < s[index].start);
            } else if i > index {
                assert(s[index].end < s[i].start);
            }
        }
    }
}

} // verus!
