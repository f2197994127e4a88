use crate::common_types::{NonNegativeTimeDelta, Time};
use crate::random::choose_in_range;
use rand_xoshiro::Xoshiro256PlusPlus;
use vstd::prelude::*;

verus! {

pub type Interval = IntervalWithData<()>;

pub type IntervalChain = IntervalWithDataChain<()>;

/// A half-open interval of time `[start_time, end_time)` carrying a payload.
#[derive(PartialEq, Eq, Clone, Copy, Debug)]
pub struct IntervalWithData<T> {
    start_time: Time,
    end_time: Time,
    additional_data: T,
}

impl<T> IntervalWithData<T> {
    pub closed spec fn start(&self) -> Time {
        self.start_time
    }

    pub closed spec fn end(&self) -> Time {
        self.end_time
    }

    pub closed spec fn data(&self) -> T {
        self.additional_data
    }

    /// A valid interval is non-empty.
    pub open spec fn wf(&self) -> bool {
        self.start() < self.end()
    }

    pub open spec fn contains(&self, t: int) -> bool {
        self.start() <= t < self.end()
    }
}

impl<T: Copy> IntervalWithData<T> {
    /// An interval `[start_time, end_time)`; none when it would be empty.
    pub fn new(start_time: Time, end_time: Time, additional_data: T) -> (r: Option<Self>)
        ensures
            r.is_some() <==> start_time < end_time,
            r matches Some(i) ==> i.start() == start_time && i.end() == end_time
                && i.data() == additional_data,
    {
        if start_time >= end_time {
            None
        } else {
            Some(IntervalWithData { start_time, end_time, additional_data })
        }
    }

    pub fn get_start_time(&self) -> (r: Time)
        ensures
            r == self.start(),
    {
        self.start_time
    }

    pub fn get_end_time(&self) -> (r: Time)
        ensures
            r == self.end(),
    {
        self.end_time
    }

    pub fn get_duration(&self) -> (r: NonNegativeTimeDelta)
        requires
            self.wf(),
        ensures
            r == self.end() - self.start(),
    {
        self.end_time - self.start_time
    }

    pub fn get_additional_data(&self) -> (r: &T)
        ensures
            *r == self.data(),
    {
        &self.additional_data
    }

    pub fn get_additional_data_mut(&mut self) -> (r: &mut T)
        ensures
            *r == old(self).data(),
            final(self).start() == old(self).start(),
            final(self).end() == old(self).end(),
            final(self).data() == *final(r),
    {
        &mut self.additional_data
    }

    /// A time drawn uniformly from the interval.
    pub fn random_time(&self, rng: &mut Xoshiro256PlusPlus) -> (r: Time)
        requires
            self.wf(),
        ensures
            self.contains(r as int),
    {
        match choose_in_range(rng, self.start_time, self.end_time) {
            Some(t) => t,
            None => self.start_time,
        }
    }

    /// The same interval with another payload.
    pub fn map_data<U: Copy>(&self, new_data: U) -> (r: IntervalWithData<U>)
        ensures
            r.start() == self.start(),
            r.end() == self.end(),
            r.data() == new_data,
    {
        IntervalWithData {
            start_time: self.start_time,
            end_time: self.end_time,
            additional_data: new_data,
        }
    }

    pub fn remove_additional_data(&self) -> (r: Interval)
        ensures
            r.start() == self.start(),
            r.end() == self.end(),
    {
        self.map_data(())
    }
}

/// Valid intervals in increasing order, each ending strictly before the next starts.
pub open spec fn chain_wf<T>(s: Seq<IntervalWithData<T>>) -> bool {
    &&& forall|k: int| 0 <= k < s.len() ==> (#[trigger] s[k]).wf()
    &&& forall|k: int, m: int| 0 <= k < m < s.len() ==> #[trigger] s[k].end() < #[trigger] s[m].start()
}

/// Whether time `t` lies in one of the intervals of `s`.
pub open spec fn covers<T>(s: Seq<IntervalWithData<T>>, t: int) -> bool {
    exists|k: int| 0 <= k < s.len() && (#[trigger] s[k]).contains(t)
}

/// A list of non-overlapping intervals in increasing order.
#[derive(Clone, Debug, PartialEq, Eq)]
pub struct IntervalWithDataChain<T> {
    intervals: Vec<IntervalWithData<T>>,
}

impl<T> View for IntervalWithDataChain<T> {
    type V = Seq<IntervalWithData<T>>;

    closed spec fn view(&self) -> Seq<IntervalWithData<T>> {
        self.intervals@
    }
}

impl<T> IntervalWithDataChain<T> {
    pub open spec fn wf(&self) -> bool {
        chain_wf(self@)
    }

    pub open spec fn contains(&self, t: int) -> bool {
        covers(self@, t)
    }
}


/// Interval `m` of `s` holds the interval `x`.
pub open spec fn carried_from<T, U>(s: Seq<IntervalWithData<T>>, x: IntervalWithData<U>, m: int) -> bool {
    0 <= m < s.len() && s[m].start() <= x.start() && x.end() <= s[m].end()
}

/// `x` lies inside an interval of `s` and carries its payload.
pub open spec fn carries<T>(s: Seq<IntervalWithData<T>>, x: IntervalWithData<T>) -> bool {
    exists|m: int| carried_from(s, x, m) && x.data() == s[m].data()
}

proof fn lemma_covers_take<T>(s: Seq<IntervalWithData<T>>, i: int, t: int)
    requires
        0 <= i < s.len(),
    ensures
        covers(s.take(i + 1), t) <==> (covers(s.take(i), t) || s[i].contains(t)),
{
    if covers(s.take(i + 1), t) {
        let k = choose|k: int| 0 <= k < s.take(i + 1).len() && (#[trigger] s.take(i + 1)[k]).contains(t);
        if k < i {
            assert(s.take(i)[k] == s[k]);
        }
    }
    if covers(s.take(i), t) {
        let k = choose|k: int| 0 <= k < s.take(i).len() && (#[trigger] s.take(i)[k]).contains(t);
        assert(s.take(i + 1)[k] == s[k]);
    }
    if s[i].contains(t) {
        assert(s.take(i + 1)[i] == s[i]);
    }
}

proof fn lemma_covers_push<T>(s: Seq<IntervalWithData<T>>, x: IntervalWithData<T>, t: int)
    ensures
        covers(s.push(x), t) <==> (covers(s, t) || x.contains(t)),
{
    if covers(s.push(x), t) {
        let k = choose|k: int| 0 <= k < s.push(x).len() && (#[trigger] s.push(x)[k]).contains(t);
        if k < s.len() {
            assert(s.push(x)[k] == s[k]);
        }
    }
    if covers(s, t) {
        let k = choose|k: int| 0 <= k < s.len() && (#[trigger] s[k]).contains(t);
        assert(s.push(x)[k] == s[k]);
    }
    if x.contains(t) {
        assert(s.push(x)[s.len() as int] == x);
    }
}

/// Within a valid chain, a time covered by an interval at or after index `j`
/// but not before the end of interval `j` lies in interval `j` itself or not at all.
proof fn lemma_covers_from<T>(s: Seq<IntervalWithData<T>>, j: int, t: int)
    requires
        chain_wf(s),
        0 <= j < s.len(),
        covers(s, t),
        !covers(s.take(j), t),
        t < s[j].end(),
    ensures
        s[j].contains(t),
{
    let k = choose|k: int| 0 <= k < s.len() && (#[trigger] s[k]).contains(t);
    if k < j {
        assert(s.take(j)[k] == s[k]);
    }
    if k > j {
        assert(s[j].end() <= s[k].start());
    }
}

/// One step of the merge in `intersect`: interval `i` of `a`, which ends no later
/// than interval `j` of `b`, is done with once its overlap with `j` is recorded.
proof fn lemma_merge_step<T, U>(
    a: Seq<IntervalWithData<T>>,
    b: Seq<IntervalWithData<U>>,
    i: int,
    j: int,
    old_out: Seq<IntervalWithData<T>>,
    out: Seq<IntervalWithData<T>>,
    lo: int,
    hi: int,
)
    requires
        chain_wf(a),
        chain_wf(b),
        0 <= i < a.len(),
        0 <= j < b.len(),
        forall|t: int| covers(old_out, t) <==> (covers(a, t) && covers(b, t) && (covers(a.take(i), t)
            || covers(b.take(j), t))),
        forall|t: int| #[trigger] covers(out, t) <==> (covers(old_out, t) || (lo <= t < hi)),
        lo == (if a[i].start() < b[j].start() { b[j].start() } else { a[i].start() }),
        hi == (if a[i].end() < b[j].end() { a[i].end() } else { b[j].end() }),
        a[i].end() <= b[j].end(),
    ensures
        forall|t: int| covers(out, t) <==> (covers(a, t) && covers(b, t) && (covers(a.take(i + 1), t)
            || covers(b.take(j), t))),
{
    assert forall|t: int| covers(out, t) <==> (covers(a, t) && covers(b, t) && (covers(a.take(i + 1), t)
        || covers(b.take(j), t))) by {
        lemma_covers_take(a, i, t);
        if lo <= t < hi {
            assert(a[i].contains(t));
            assert(b[j].contains(t));
        }
        if covers(a, t) && covers(b, t) && !covers(a.take(i), t) && !covers(b.take(j), t)
            && a[i].contains(t) {
            lemma_covers_from(b, j, t);
        }
        if covers(old_out, t) {
            assert(covers(a.take(i), t) || covers(b.take(j), t));
        }
    }
}

/// The merge step of `lemma_merge_step` with the roles of the chains exchanged.
proof fn lemma_merge_step_other<T, U>(
    a: Seq<IntervalWithData<T>>,
    b: Seq<IntervalWithData<U>>,
    i: int,
    j: int,
    old_out: Seq<IntervalWithData<T>>,
    out: Seq<IntervalWithData<T>>,
    lo: int,
    hi: int,
)
    requires
        chain_wf(a),
        chain_wf(b),
        0 <= i < a.len(),
        0 <= j < b.len(),
        forall|t: int| covers(old_out, t) <==> (covers(a, t) && covers(b, t) && (covers(a.take(i), t)
            || covers(b.take(j), t))),
        forall|t: int| #[trigger] covers(out, t) <==> (covers(old_out, t) || (lo <= t < hi)),
        lo == (if a[i].start() < b[j].start() { b[j].start() } else { a[i].start() }),
        hi == (if a[i].end() < b[j].end() { a[i].end() } else { b[j].end() }),
        b[j].end() < a[i].end(),
    ensures
        forall|t: int| covers(out, t) <==> (covers(a, t) && covers(b, t) && (covers(a.take(i), t)
            || covers(b.take(j + 1), t))),
{
    assert forall|t: int| covers(out, t) <==> (covers(a, t) && covers(b, t) && (covers(a.take(i), t)
        || covers(b.take(j + 1), t))) by {
        lemma_covers_take(b, j, t);
        if lo <= t < hi {
            assert(a[i].contains(t));
            assert(b[j].contains(t));
        }
        if covers(a, t) && covers(b, t) && !covers(a.take(i), t) && !covers(b.take(j), t)
            && b[j].contains(t) {
            lemma_covers_from(a, i, t);
        }
        if covers(old_out, t) {
            assert(covers(a.take(i), t) || covers(b.take(j), t));
        }
    }
}

impl<T: Copy> IntervalWithDataChain<T> {
    /// An empty chain.
    pub fn new() -> (r: Self)
        ensures
            r@ == Seq::<IntervalWithData<T>>::empty(),
            r.wf(),
    {
        IntervalWithDataChain { intervals: Vec::new() }
    }

    pub fn from_interval(interval: IntervalWithData<T>) -> (r: Self)
        requires
            interval.wf(),
        ensures
            r@ == seq![interval],
            r.wf(),
    {
        let mut intervals = Vec::new();
        intervals.push(interval);
        IntervalWithDataChain { intervals }
    }

    pub fn from_intervals(intervals: Vec<IntervalWithData<T>>) -> (r: Self)
        requires
            chain_wf(intervals@),
        ensures
            r@ == intervals@,
            r.wf(),
    {
        IntervalWithDataChain { intervals }
    }

    /// The times present in both chains, carrying the payloads of `self`.
    pub fn intersect<U>(&self, other: &IntervalWithDataChain<U>) -> (r: IntervalWithDataChain<T>)
        requires
            self.wf(),
            other.wf(),
        ensures
            r.wf(),
            forall|t: int| r.contains(t) <==> self.contains(t) && other.contains(t),
            forall|k: int| 0 <= k < r@.len() ==> carries(self@, #[trigger] r@[k]),
            (forall|t: int| !(self.contains(t) && other.contains(t))) ==> r@.len() == 0,
    {
        let a = &self.intervals;
        let b = &other.intervals;
        let mut out: Vec<IntervalWithData<T>> = Vec::new();
        let mut i: usize = 0;
        let mut j: usize = 0;
        while i < a.len() && j < b.len()
            invariant
                chain_wf(a@),
                chain_wf(b@),
                a@ == self@,
                b@ == other@,
                i <= a.len(),
                j <= b.len(),
                chain_wf(out@),
                forall|t: int| covers(out@, t) <==> (covers(a@, t) && covers(b@, t) && (covers(
                    a@.take(i as int), t) || covers(b@.take(j as int), t))),
                (i < a.len() && j < b.len() && out@.len() > 0) ==> out@.last().end() < a@[i as int].start()
                    || out@.last().end() < b@[j as int].start(),
                forall|k: int| 0 <= k < out@.len() ==> carries(a@, #[trigger] out@[k]),
            decreases a.len() - i + b.len() - j,
        {
            let x = &a[i];
            let y = &b[j];
            let lo = if x.start_time < y.start_time { y.start_time } else { x.start_time };
            let hi = if x.end_time < y.end_time { x.end_time } else { y.end_time };
            let ghost old_out = out@;
            if lo < hi {
                let piece = IntervalWithData { start_time: lo, end_time: hi, additional_data: x.additional_data };
                out.push(piece);
            }
            proof {
                assert forall|k: int| 0 <= k < out@.len() implies carries(a@, #[trigger] out@[k]) by {
                    if k < old_out.len() {
                        assert(out@[k] == old_out[k]);
                    } else {
                        assert(carried_from(a@, out@[k], i as int));
                    }
                }
                assert forall|t: int| #[trigger] covers(out@, t) <==> (covers(old_out, t) || (lo <= t < hi)) by {
                    if lo < hi {
                        lemma_covers_push(old_out, out@.last(), t);
                        assert(out@ == old_out.push(out@.last()));
                    } else {
                        assert(out@ == old_out);
                    }
                }
            }
            if x.end_time <= y.end_time {
                proof {
                    lemma_merge_step(a@, b@, i as int, j as int, old_out, out@, lo as int, hi as int);
                }
                i = i + 1;
            } else {
                proof {
                    lemma_merge_step_other(a@, b@, i as int, j as int, old_out, out@, lo as int, hi as int);
                }
                j = j + 1;
            }
        }
        proof {
            assert(a@.take(a@.len() as int) == a@);
            assert(b@.take(b@.len() as int) == b@);
            if forall|t: int| !(self.contains(t) && other.contains(t)) {
                assert forall|t: int| !covers(out@, t) by {
                    if covers(out@, t) {
                        assert(self.contains(t) && other.contains(t));
                    }
                }
                lemma_no_points_empty(out@);
            }
        }
        IntervalWithDataChain { intervals: out }
    }
}


/// The payload of the interval of `s` that ends at `t`, if any.
pub open spec fn ending_at<T>(s: Seq<IntervalWithData<T>>, t: int) -> Option<T> {
    if exists|m: int| 0 <= m < s.len() && (#[trigger] s[m]).end() == t {
        Some(s[choose|m: int| 0 <= m < s.len() && (#[trigger] s[m]).end() == t].data())
    } else {
        None
    }
}

/// The payload of the interval of `s` that starts at `t`, if any.
pub open spec fn starting_at<T>(s: Seq<IntervalWithData<T>>, t: int) -> Option<T> {
    if exists|m: int| 0 <= m < s.len() && (#[trigger] s[m]).start() == t {
        Some(s[choose|m: int| 0 <= m < s.len() && (#[trigger] s[m]).start() == t].data())
    } else {
        None
    }
}

proof fn lemma_ending_at<T>(s: Seq<IntervalWithData<T>>, m: int)
    requires
        chain_wf(s),
        0 <= m < s.len(),
    ensures
        ending_at(s, s[m].end() as int) == Some(s[m].data()),
{
    let t = s[m].end() as int;
    let c = choose|c: int| 0 <= c < s.len() && (#[trigger] s[c]).end() == t;
    if c < m {
        assert(s[c].end() <= s[m].start());
    } else if c > m {
        assert(s[m].end() <= s[c].start());
    }
}

proof fn lemma_starting_at<T>(s: Seq<IntervalWithData<T>>, m: int)
    requires
        chain_wf(s),
        0 <= m < s.len(),
    ensures
        starting_at(s, s[m].start() as int) == Some(s[m].data()),
{
    let t = s[m].start() as int;
    let c = choose|c: int| 0 <= c < s.len() && (#[trigger] s[c]).start() == t;
    if c < m {
        assert(s[c].end() <= s[m].start());
    } else if c > m {
        assert(s[m].end() <= s[c].start());
    }
}

proof fn lemma_take_wf<T>(s: Seq<IntervalWithData<T>>, k: int)
    requires
        chain_wf(s),
        0 <= k <= s.len(),
    ensures
        chain_wf(s.take(k)),
{
    assert forall|a: int, b: int| 0 <= a < b < k implies #[trigger] s.take(k)[a].end() < #[trigger] s.take(
        k,
    )[b].start() by {
        assert(s.take(k)[a] == s[a]);
        assert(s.take(k)[b] == s[b]);
    }
}

/// A time before the start of interval `k` and after the ends of all earlier
/// intervals is covered by none of them.
proof fn lemma_not_covered<T>(s: Seq<IntervalWithData<T>>, k: int, lo: int, t: int)
    requires
        chain_wf(s),
        0 <= k <= s.len(),
        forall|m: int| 0 <= m < k ==> (#[trigger] s[m]).end() <= lo,
        lo <= t,
        k < s.len() ==> t < s[k].start(),
    ensures
        !covers(s, t),
{
    if covers(s, t) {
        let m = choose|m: int| 0 <= m < s.len() && (#[trigger] s[m]).contains(t);
        if m > k {
            assert(s[k].end() <= s[m].start());
        }
    }
}

/// Sum of the lengths of the intervals of `s`.
pub open spec fn total_len<T>(s: Seq<IntervalWithData<T>>) -> int
    decreases s.len(),
{
    if s.len() == 0 {
        0
    } else {
        total_len(s.drop_last()) + s.last().end() - s.last().start()
    }
}

proof fn lemma_total_len_bound<T>(s: Seq<IntervalWithData<T>>, k: int)
    requires
        chain_wf(s),
        1 <= k <= s.len(),
    ensures
        total_len(s.take(k)) <= s[k - 1].end() - s[0].start(),
    decreases k,
{
    assert(s.take(k).drop_last() == s.take(k - 1));
    assert(s.take(k).last() == s[k - 1]);
    if k > 1 {
        lemma_total_len_bound(s, k - 1);
        assert(s[k - 2].end() <= s[k - 1].start());
    } else {
        assert(total_len(s.take(0)) == 0);
    }
}

impl<T: Copy> IntervalWithDataChain<T> {
    /// Whether every interval of the chain lies inside `other`.
    pub fn contained_in<U>(&self, other: &IntervalWithData<U>) -> (r: bool)
        requires
            self.wf(),
        ensures
            r <==> forall|k: int| 0 <= k < self@.len() ==> other.start() <= (#[trigger] self@[k]).start()
                && self@[k].end() <= other.end(),
    {
        let n = self.intervals.len();
        if n == 0 {
            true
        } else {
            let first = &self.intervals[0];
            let last = &self.intervals[n - 1];
            let r = other.start_time <= first.start_time && last.end_time <= other.end_time;
            proof {
                if r {
                    assert forall|k: int| 0 <= k < self@.len() implies other.start() <= (
                    #[trigger] self@[k]).start() && self@[k].end() <= other.end() by {
                        if k > 0 {
                            assert(self@[0].end() <= self@[k].start());
                        }
                        if k < n - 1 {
                            assert(self@[k].end() <= self@[n - 1].start());
                        }
                    }
                } else {
                    assert(!(other.start() <= self@[0].start() && self@[0].end() <= other.end()) || !(
                    other.start() <= self@[n - 1].start() && self@[n - 1].end() <= other.end()));
                }
            }
            r
        }
    }

    /// The times of `other` that the chain does not cover, as a chain of gaps.
    /// Each gap carries the payloads of the chain's intervals that end where it
    /// starts and that start where it ends, where there are such intervals.
    pub fn gaps<U>(&self, other: &IntervalWithData<U>) -> (r: IntervalWithDataChain<(Option<T>, Option<T>)>)
        requires
            self.wf(),
            other.wf(),
        ensures
            r.wf(),
            forall|t: int| r.contains(t) <==> other.contains(t) && !self.contains(t),
            forall|k: int| 0 <= k < r@.len() ==> (#[trigger] r@[k]).data() == (
                ending_at(self@, r@[k].start() as int),
                starting_at(self@, r@[k].end() as int),
            ),
            (forall|t: int| other.contains(t) ==> self.contains(t)) ==> r@.len() == 0,
    {
        let s = &self.intervals;
        let ws = other.start_time;
        let we = other.end_time;
        let n = s.len();
        let mut out: Vec<IntervalWithData<(Option<T>, Option<T>)>> = Vec::new();
        let mut prev_data: Option<T> = None;
        let mut cursor: Time = ws;
        let mut k: usize = 0;
        let mut stop = false;
        while k < n && cursor < we && !stop
            invariant
                chain_wf(s@),
                s@ == self@,
                n == s@.len(),
                k <= n,
                ws <= cursor,
                ws < we,
                forall|m: int| 0 <= m < k ==> (#[trigger] s@[m]).end() <= cursor,
                stop ==> k < n && we <= s@[k as int].start(),
                prev_data == ending_at(s@.take(k as int), cursor as int),
                chain_wf(out@),
                out@.len() > 0 ==> out@.last().end() < cursor,
                forall|t: int| #[trigger] covers(out@, t) <==> (ws <= t && t < cursor && t < we && !covers(s@, t)),
                forall|j: int| 0 <= j < out@.len() ==> (#[trigger] out@[j]).data() == (
                    ending_at(s@, out@[j].start() as int),
                    starting_at(s@, out@[j].end() as int),
                ),
            decreases n - k, (if stop { 0int } else { 1int }),
        {
            let iv = &s[k];
            let ghost old_out = out@;
            proof {
                lemma_take_wf(s@, k + 1);
                assert(s@.take(k + 1)[k as int] == s@[k as int]);
                assert forall|m: int| 0 <= m < k implies s@.take(k + 1)[m] == s@.take(k as int)[m] by {}
            }
            if iv.end_time <= cursor {
                proof {
                    if iv.end_time == cursor {
                        lemma_ending_at(s@.take(k + 1), k as int);
                    } else if exists|m: int| 0 <= m < k && (#[trigger] s@[m]).end() == cursor {
                        let m = choose|m: int| 0 <= m < k && (#[trigger] s@[m]).end() == cursor;
                        lemma_take_wf(s@, k as int);
                        assert(s@.take(k as int)[m] == s@[m]);
                        lemma_ending_at(s@.take(k + 1), m);
                        lemma_ending_at(s@.take(k as int), m);
                    } else {
                        assert(!exists|m: int| 0 <= m < k + 1 && (#[trigger] s@.take(k + 1)[m]).end() == cursor);
                        assert(!exists|m: int| 0 <= m < k && (#[trigger] s@.take(k as int)[m]).end() == cursor);
                    }
                }
                if iv.end_time == cursor {
                    prev_data = Some(iv.additional_data);
                }
                k = k + 1;
            } else if iv.start_time >= we {
                stop = true;
            } else {
                if iv.start_time > cursor {
                    let gap = IntervalWithData {
                        start_time: cursor,
                        end_time: iv.start_time,
                        additional_data: (prev_data, Some(iv.additional_data)),
                    };
                    out.push(gap);
                    proof {
                        lemma_starting_at(s@, k as int);
                        assert forall|m: int| k <= m < n implies (#[trigger] s@[m]).end() > cursor by {
                            if m > k {
                                assert(s@[k as int].end() <= s@[m].start());
                            }
                        }
                        if exists|m: int| 0 <= m < n && (#[trigger] s@[m]).end() == cursor {
                            let m = choose|m: int| 0 <= m < n && (#[trigger] s@[m]).end() == cursor;
                            lemma_take_wf(s@, k as int);
                            assert(s@.take(k as int)[m] == s@[m]);
                            lemma_ending_at(s@.take(k as int), m);
                            lemma_ending_at(s@, m);
                        } else {
                            assert(!exists|m: int| 0 <= m < k && (#[trigger] s@.take(k as int)[m]).end() == cursor);
                        }
                        assert forall|j: int| 0 <= j < out@.len() - 1 implies out@[j] == old_out[j] by {}
                    }
                }
                proof {
                    assert forall|t: int| #[trigger] covers(out@, t) <==> (ws <= t && t < iv.end_time && t < we
                        && !covers(s@, t)) by {
                        if iv.start_time > cursor {
                            lemma_covers_push(old_out, out@.last(), t);
                            assert(out@ == old_out.push(out@.last()));
                            if cursor <= t < iv.start_time {
                                lemma_not_covered(s@, k as int, cursor as int, t);
                            }
                        } else {
                            assert(out@ == old_out);
                        }
                        if iv.start_time <= t < iv.end_time {
                            assert(s@[k as int].contains(t));
                        }
                    }
                    lemma_ending_at(s@.take(k + 1), k as int);
                }
                prev_data = Some(iv.additional_data);
                cursor = iv.end_time;
                k = k + 1;
            }
        }
        let ghost old_out = out@;
        if cursor < we {
            let next_data = if stop && s[k].start_time == we {
                Some(s[k].additional_data)
            } else {
                None
            };
            out.push(IntervalWithData { start_time: cursor, end_time: we, additional_data: (prev_data, next_data) });
            proof {
                assert forall|m: int| k <= m < n implies (#[trigger] s@[m]).end() > cursor by {
                    if m > k {
                        assert(s@[k as int].end() <= s@[m].start());
                    }
                }
                if exists|m: int| 0 <= m < n && (#[trigger] s@[m]).end() == cursor {
                    let m = choose|m: int| 0 <= m < n && (#[trigger] s@[m]).end() == cursor;
                    lemma_take_wf(s@, k as int);
                    assert(s@.take(k as int)[m] == s@[m]);
                    lemma_ending_at(s@.take(k as int), m);
                    lemma_ending_at(s@, m);
                } else {
                    assert(!exists|m: int| 0 <= m < k && (#[trigger] s@.take(k as int)[m]).end() == cursor);
                }
                if stop && s@[k as int].start() == we {
                    lemma_starting_at(s@, k as int);
                } else {
                    assert forall|m: int| 0 <= m < n implies (#[trigger] s@[m]).start() != we by {
                        if m < k {
                            assert(s@[m].end() <= cursor);
                        } else if m > k {
                            assert(s@[k as int].end() <= s@[m].start());
                        }
                    }
                }
                assert forall|j: int| 0 <= j < out@.len() - 1 implies out@[j] == old_out[j] by {}
                assert forall|t: int| #[trigger] covers(out@, t) <==> (ws <= t && t < we && !covers(s@, t)) by {
                    lemma_covers_push(old_out, out@.last(), t);
                    assert(out@ == old_out.push(out@.last()));
                    if cursor <= t < we {
                        lemma_not_covered(s@, if stop { k as int } else { n as int }, cursor as int, t);
                    }
                }
            }
        }
        proof {
            if forall|t: int| other.contains(t) ==> self.contains(t) {
                assert forall|t: int| !covers(out@, t) by {
                    if covers(out@, t) {
                        assert(other.contains(t) && !self.contains(t));
                    }
                }
                lemma_no_points_empty(out@);
            }
        }
        IntervalWithDataChain { intervals: out }
    }
}

/// A valid chain that covers exactly the times of `[lo, hi)` is that one interval.
pub proof fn lemma_chain_of_interval<T>(s: Seq<IntervalWithData<T>>, lo: int, hi: int)
    requires
        chain_wf(s),
        lo < hi,
        forall|t: int| covers(s, t) <==> lo <= t < hi,
    ensures
        s.len() == 1,
        s[0].start() == lo,
        s[0].end() == hi,
{
    assert(covers(s, lo));
    if s.len() >= 2 {
        let e = s[0].end() as int;
        assert(s[0].end() < s[1].start());
        assert(s[1].contains(s[1].start() as int));
        assert(covers(s, s[1].start() as int));
        assert(s[0].contains(s[0].start() as int));
        assert(covers(s, s[0].start() as int));
        if covers(s, e) {
            let m = choose|m: int| 0 <= m < s.len() && (#[trigger] s[m]).contains(e);
            if m > 0 {
                assert(s[0].end() < s[m].start());
            }
        }
        assert(false);
    }
    assert(s[0].contains(s[0].start() as int));
    assert(covers(s, s[0].start() as int));
    assert(s[0].contains(s[0].end() - 1));
    assert(covers(s, s[0].end() - 1));
    if covers(s, hi - 1) {
        let m = choose|m: int| 0 <= m < s.len() && (#[trigger] s[m]).contains(hi - 1);
    }
    let m = choose|m: int| 0 <= m < s.len() && (#[trigger] s[m]).contains(lo);
}

/// A valid chain that covers no time holds no interval.
proof fn lemma_no_points_empty<T>(s: Seq<IntervalWithData<T>>)
    requires
        chain_wf(s),
        forall|t: int| !covers(s, t),
    ensures
        s.len() == 0,
{
    if s.len() > 0 {
        assert(s[0].contains(s[0].start() as int));
        assert(covers(s, s[0].start() as int));
    }
}

impl<T: Copy> IntervalWithDataChain<T> {
    /// A copy of the chain.
    pub fn duplicate(&self) -> (r: Self)
        ensures
            r@ == self@,
    {
        let mut v: Vec<IntervalWithData<T>> = Vec::new();
        let mut k: usize = 0;
        while k < self.intervals.len()
            invariant
                k <= self@.len(),
                v@ == self@.take(k as int),
            decreases self@.len() - k,
        {
            v.push(self.intervals[k]);
            k = k + 1;
            proof {
                assert(self@.take(k as int) == self@.take(k - 1).push(self@[k - 1]));
            }
        }
        proof {
            assert(self@.take(self@.len() as int) == self@);
        }
        IntervalWithDataChain { intervals: v }
    }

    pub fn get_intervals(&self) -> (r: &Vec<IntervalWithData<T>>)
        ensures
            r@ == self@,
    {
        &self.intervals
    }

    /// The intervals, open to change; the chain is valid afterwards only if
    /// what is left in them is.
    pub fn get_intervals_mut(&mut self) -> (r: &mut Vec<IntervalWithData<T>>)
        ensures
            r@ == old(self)@,
            final(self)@ == final(r)@,
    {
        &mut self.intervals
    }

    /// Removes and returns the interval at `index`.
    pub fn remove(&mut self, index: usize) -> (r: IntervalWithData<T>)
        requires
            index < old(self)@.len(),
            old(self).wf(),
        ensures
            r == old(self)@[index as int],
            final(self)@ == old(self)@.remove(index as int),
            final(self).wf(),
    {
        let r = self.intervals.remove(index);
        proof {
            let o = old(self)@;
            let f = self@;
            assert forall|a: int, b: int| 0 <= a < b < f.len() implies #[trigger] f[a].end() < #[trigger] f[
                b].start() by {
                let oa = if a < index { a } else { a + 1 };
                let ob = if b < index { b } else { b + 1 };
                assert(f[a] == o[oa]);
                assert(f[b] == o[ob]);
            }
        }
        r
    }

    /// Inserts `new` in its place; fails, leaving the chain unchanged, exactly
    /// when `new` overlaps or touches an interval of the chain.
    pub fn try_add(&mut self, new: IntervalWithData<T>) -> (r: bool)
        requires
            old(self).wf(),
            new.wf(),
        ensures
            r <==> forall|k: int| 0 <= k < old(self)@.len() ==> (#[trigger] old(self)@[k]).end() < new.start()
                || new.end() < old(self)@[k].start(),
            r ==> exists|idx: int| 0 <= idx <= old(self)@.len() && final(self)@ == old(self)@.insert(idx, new),
            !r ==> final(self)@ == old(self)@,
            final(self).wf(),
    {
        let n = self.intervals.len();
        let mut idx: usize = 0;
        while idx < n && self.intervals[idx].start_time < new.end_time
            invariant
                n == self@.len(),
                idx <= n,
                forall|m: int| 0 <= m < idx ==> (#[trigger] self@[m]).start() < new.end(),
            decreases n - idx,
        {
            idx = idx + 1;
        }
        if idx > 0 && self.intervals[idx - 1].end_time >= new.start_time {
            proof {
                let m = idx - 1;
                assert(!(self@[m as int].end() < new.start() || new.end() < self@[m as int].start()));
            }
            return false;
        }
        if idx < n && self.intervals[idx].start_time == new.end_time {
            proof {
                assert(!(self@[idx as int].end() < new.start() || new.end() < self@[idx as int].start()));
            }
            return false;
        }
        let ghost o = self@;
        self.intervals.insert(idx, new);
        proof {
            assert forall|k: int| 0 <= k < o.len() implies (#[trigger] o[k]).end() < new.start() || new.end() < o[
                k].start() by {
                if k < idx - 1 {
                    assert(o[k].end() < o[idx - 1].start());
                } else if k > idx {
                    assert(o[idx as int].end() < o[k].start());
                }
            }
            let f = self@;
            assert(f == o.insert(idx as int, new));
            assert forall|a: int, b: int| 0 <= a < b < f.len() implies #[trigger] f[a].end() < #[trigger] f[
                b].start() by {
                if a < idx && b > idx {
                    assert(f[a] == o[a]);
                    assert(f[b] == o[b - 1]);
                } else if a < idx && b == idx {
                    assert(f[a] == o[a]);
                    if a < idx - 1 {
                        assert(o[a].end() < o[idx - 1].start());
                    }
                } else if a == idx {
                    assert(f[b] == o[b - 1]);
                    if b - 1 > idx {
                        assert(o[idx as int].end() < o[b - 1].start());
                    }
                } else if a > idx {
                    assert(f[a] == o[a - 1]);
                    assert(f[b] == o[b - 1]);
                } else {
                    assert(f[a] == o[a]);
                    assert(f[b] == o[b]);
                }
            }
        }
        true
    }

    /// The sum of the lengths of the intervals.
    pub fn total_length(&self) -> (r: NonNegativeTimeDelta)
        requires
            self.wf(),
        ensures
            r == total_len(self@),
    {
        let s = &self.intervals;
        let n = s.len();
        let mut total: NonNegativeTimeDelta = 0;
        let mut k: usize = 0;
        while k < n
            invariant
                n == s@.len(),
                s@ == self@,
                chain_wf(s@),
                k <= n,
                total == total_len(s@.take(k as int)),
            decreases n - k,
        {
            proof {
                lemma_total_len_bound(s@, k + 1);
                assert(s@.take(k + 1).drop_last() == s@.take(k as int));
                assert(s@.take(k + 1).last() == s@[k as int]);
                if k > 0 {
                    assert(s@[0].end() <= s@[k as int].start());
                }
            }
            total = total + s[k].get_duration();
            k = k + 1;
        }
        proof {
            assert(s@.take(n as int) == s@);
        }
        total
    }

    /// Whether the chain holds no interval, that is covers no time.
    pub fn is_empty(&self) -> (r: bool)
        requires
            self.wf(),
        ensures
            r <==> self@.len() == 0,
            r <==> forall|t: int| !self.contains(t),
    {
        let r = self.intervals.len() == 0;
        proof {
            if !r {
                let t0 = self@[0].start() as int;
                assert(self@[0].wf());
                assert(self@[0].contains(t0));
                assert(self.contains(t0));
            } else {
                assert forall|t: int| !self.contains(t) by {
                    if covers(self@, t) {
                        let k = choose|k: int| 0 <= k < self@.len() && (#[trigger] self@[k]).contains(t);
                    }
                }
            }
        }
        r
    }
}

/// The times that all the chains cover: the fold of `intersect` over them,
/// starting from the interval of all representable times.
pub fn intersect_all<T: Copy>(chains: &Vec<IntervalWithDataChain<T>>) -> (r: IntervalChain)
    requires
        forall|k: int| 0 <= k < chains@.len() ==> (#[trigger] chains@[k]).wf(),
    ensures
        r.wf(),
        forall|t: int| r.contains(t) <==> (0 <= t < u64::MAX && forall|k: int| 0 <= k < chains@.len()
            ==> (#[trigger] chains@[k]).contains(t)),
        chains@.len() == 0 ==> r@.len() == 1 && r@[0].start() == 0 && r@[0].end() == u64::MAX,
{
    let largest = IntervalWithData { start_time: 0, end_time: u64::MAX, additional_data: () };
    let mut acc = IntervalWithDataChain::from_interval(largest);
    proof {
        assert forall|t: int| acc.contains(t) <==> 0 <= t < u64::MAX by {
            if 0 <= t < u64::MAX {
                assert(acc@[0].contains(t));
            }
        }
    }
    let mut k: usize = 0;
    while k < chains.len()
        invariant
            forall|m: int| 0 <= m < chains@.len() ==> (#[trigger] chains@[m]).wf(),
            k <= chains@.len(),
            acc.wf(),
            k == 0 ==> acc@ == seq![largest],
            largest.start() == 0 && largest.end() == u64::MAX,
            forall|t: int| acc.contains(t) <==> (0 <= t < u64::MAX && forall|m: int| 0 <= m < k
                ==> (#[trigger] chains@[m]).contains(t)),
        decreases chains@.len() - k,
    {
        let next = acc.intersect(&chains[k]);
        proof {
            assert forall|t: int| next.contains(t) <==> (0 <= t < u64::MAX && forall|m: int| 0 <= m < k + 1
                ==> (#[trigger] chains@[m]).contains(t)) by {
                if next.contains(t) {
                    assert forall|m: int| 0 <= m < k + 1 implies (#[trigger] chains@[m]).contains(t) by {
                        if m < k {
                            assert(acc.contains(t));
                        }
                    }
                }
            }
        }
        acc = next;
        k = k + 1;
    }
    acc
}

} // verus!
