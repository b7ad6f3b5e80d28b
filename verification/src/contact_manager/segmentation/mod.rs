use vstd::prelude::*;
use crate::contact::ContactInfo;
use crate::contact_manager::ContactManagerTxData;
use crate::types::{sat_add, DataRate, Date, Duration, Volume};

pub mod pseg;
pub mod seg;

verus! {

/// A value that holds over the time interval `[start, end]`.
#[derive(Clone, Copy, Debug)]
pub struct Segment<T> {
    pub start: Date,
    pub end: Date,
    pub val: T,
}

/// A segmented contact manager, built from the rate and delay intervals of its contact.
pub trait BaseSegmentationManager: Sized {
    /// Creates the manager from the rate and delay intervals of its contact.
    fn new(
        rate_intervals: Vec<Segment<DataRate>>,
        delay_intervals: Vec<Segment<Duration>>,
    ) -> Self;
}

/// The segments are each well ordered and follow one another without overlapping.
pub open spec fn sorted_disjoint<T>(s: Seq<Segment<T>>) -> bool {
    &&& forall|i: int| 0 <= i < s.len() ==> #[trigger] s[i].start <= s[i].end
    &&& forall|i: int, j: int| 0 <= i < j < s.len() ==> #[trigger] s[i].end <= #[trigger] s[j].start
}

/// The segments follow one another without gap over `[from, to]`.
pub open spec fn covers_without_gap<T>(s: Seq<Segment<T>>, from: Date, to: Date) -> bool {
    &&& s.len() > 0
    &&& s[0].start <= from
    &&& to <= s.last().end
    &&& forall|i: int| 0 <= i < s.len() ==> #[trigger] s[i].start < s[i].end
    &&& forall|i: int| 0 <= i < s.len() - 1 ==> #[trigger] s[i].end == s[i + 1].start
}

/// The length of the intersection of `[s, e]` and `[a, b]`.
pub open spec fn overlap(s: int, e: int, a: int, b: int) -> int {
    let lo = if s > a { s } else { a };
    let hi = if e < b { e } else { b };
    if hi > lo { hi - lo } else { 0 }
}

/// The volume that the piecewise rates `rates` let through between `a` and `b`.
pub open spec fn sent(rates: Seq<Segment<DataRate>>, a: int, b: int) -> int
    decreases rates.len(),
{
    if rates.len() == 0 {
        0
    } else {
        sent(rates.drop_last(), a, b) + rates.last().val * overlap(
            rates.last().start as int,
            rates.last().end as int,
            a,
            b,
        )
    }
}

/// `end` is the earliest date by which `size` has been sent from `start` on.
pub open spec fn is_earliest_end(
    rates: Seq<Segment<DataRate>>,
    start: Date,
    size: Volume,
    end: Date,
) -> bool {
    &&& start <= end
    &&& sent(rates, start as int, end as int) >= size
    &&& forall|u: Date| start <= u < end ==> sent(rates, start as int, u as int) < size
}

/// The earliest date, not after `limit`, by which a transmission of `size` that
/// starts at `start` is over; `None` where there is none.
pub open spec fn tx_end_within(
    rates: Seq<Segment<DataRate>>,
    start: Date,
    size: Volume,
    limit: Date,
) -> Option<Date> {
    if forall|u: Date| start <= u <= limit ==> sent(rates, start as int, u as int) < size {
        None
    } else {
        Some(choose|e: Date| e <= limit && is_earliest_end(rates, start, size, e))
    }
}

/// The delay of the first segment that has not ended at `t`, or of the last one.
pub open spec fn delay_at(delays: Seq<Segment<Duration>>, t: int) -> Duration
    decreases delays.len(),
{
    if delays.len() == 0 {
        0
    } else if delays.len() == 1 || t < delays[0].end {
        delays[0].val
    } else {
        delay_at(delays.drop_first(), t)
    }
}

/// The transmission over `[tx_start, tx_end]`, valid until `expiration`, with the
/// delays that hold at its start and at its end.
pub open spec fn tx_data(
    tx_start: Date,
    tx_end: Date,
    expiration: Date,
    delays: Seq<Segment<Duration>>,
) -> ContactManagerTxData {
    let d_start = delay_at(delays, tx_start as int);
    let d_end = delay_at(delays, tx_end as int);
    ContactManagerTxData {
        tx_start,
        tx_end,
        delay: d_end,
        expiration,
        arrival: sat_add(tx_end, d_end),
        rx_start: sat_add(tx_start, d_start),
        rx_end: sat_add(tx_end, d_end),
    }
}

pub proof fn lemma_overlap_split(s: int, e: int, a: int, b: int, c: int)
    requires
        a <= b <= c,
    ensures
        overlap(s, e, a, c) == overlap(s, e, a, b) + overlap(s, e, b, c),
{
}

/// What is sent over `[a, c]` is what is sent over `[a, b]` and then over `[b, c]`.
pub proof fn lemma_sent_additive(rates: Seq<Segment<DataRate>>, a: int, b: int, c: int)
    requires
        a <= b <= c,
    ensures
        sent(rates, a, c) == sent(rates, a, b) + sent(rates, b, c),
    decreases rates.len(),
{
    if rates.len() > 0 {
        lemma_sent_additive(rates.drop_last(), a, b, c);
        let l = rates.last();
        lemma_overlap_split(l.start as int, l.end as int, a, b, c);
        vstd::arithmetic::mul::lemma_mul_is_distributive_add(
            l.val as int,
            overlap(l.start as int, l.end as int, a, b),
            overlap(l.start as int, l.end as int, b, c),
        );
    }
}

pub proof fn lemma_sent_nonneg(rates: Seq<Segment<DataRate>>, a: int, b: int)
    ensures
        sent(rates, a, b) >= 0,
    decreases rates.len(),
{
    if rates.len() > 0 {
        lemma_sent_nonneg(rates.drop_last(), a, b);
        let l = rates.last();
        let o = overlap(l.start as int, l.end as int, a, b);
        let v = l.val as int;
        assert(v * o >= 0) by (nonlinear_arith)
            requires
                v >= 0,
                o >= 0,
        ;
    }
}

/// Nothing is sent over an interval that no segment meets.
pub proof fn lemma_sent_zero(rates: Seq<Segment<DataRate>>, a: int, b: int)
    requires
        a <= b,
        forall|j: int|
            0 <= j < rates.len() ==> #[trigger] rates[j].end <= a || rates[j].start >= b,
    ensures
        sent(rates, a, b) == 0,
    decreases rates.len(),
{
    if rates.len() > 0 {
        let p = rates.drop_last();
        assert forall|j: int| 0 <= j < p.len() implies #[trigger] p[j].end <= a || p[j].start >= b by {
            assert(p[j] == rates[j]);
        }
        lemma_sent_zero(p, a, b);
        assert(rates.last() == rates[rates.len() - 1]);
    }
}

/// Nothing is sent over an empty interval.
pub proof fn lemma_sent_empty(rates: Seq<Segment<DataRate>>, a: int, b: int)
    requires
        b <= a,
    ensures
        sent(rates, a, b) == 0,
    decreases rates.len(),
{
    if rates.len() > 0 {
        lemma_sent_empty(rates.drop_last(), a, b);
    }
}

/// Over an interval that only segment `k` meets, its rate applies throughout.
pub proof fn lemma_sent_single(rates: Seq<Segment<DataRate>>, k: int, a: int, b: int)
    requires
        0 <= k < rates.len(),
        rates[k].start <= a <= b <= rates[k].end,
        forall|j: int|
            0 <= j < rates.len() && j != k ==> #[trigger] rates[j].end <= a || rates[j].start >= b,
    ensures
        sent(rates, a, b) == rates[k].val * (b - a),
    decreases rates.len(),
{
    let n = rates.len();
    let p = rates.drop_last();
    if k == n - 1 {
        assert forall|j: int| 0 <= j < p.len() implies #[trigger] p[j].end <= a || p[j].start >= b by {
            assert(p[j] == rates[j]);
        }
        lemma_sent_zero(p, a, b);
        assert(rates.last() == rates[k]);
    } else {
        assert forall|j: int| 0 <= j < p.len() && j != k implies #[trigger] p[j].end <= a
            || p[j].start >= b by {
            assert(p[j] == rates[j]);
        }
        assert(p[k] == rates[k]);
        lemma_sent_single(p, k, a, b);
        assert(rates.last() == rates[n - 1]);
        let l = rates.last();
        assert(overlap(l.start as int, l.end as int, a, b) == 0);
    }
}

/// Sending over a longer interval sends no less.
pub proof fn lemma_sent_mono(rates: Seq<Segment<DataRate>>, a: int, b: int, c: int)
    requires
        a <= b <= c,
    ensures
        sent(rates, a, b) <= sent(rates, a, c),
{
    lemma_sent_additive(rates, a, b, c);
    lemma_sent_nonneg(rates, b, c);
}

/// Starting later sends no more by a given date.
pub proof fn lemma_sent_later_start(rates: Seq<Segment<DataRate>>, a: int, a2: int, u: int)
    requires
        a <= a2 <= u,
    ensures
        sent(rates, a2, u) <= sent(rates, a, u),
{
    lemma_sent_additive(rates, a, a2, u);
    lemma_sent_nonneg(rates, a, a2);
}

/// There is only one earliest end.
pub proof fn lemma_earliest_unique(
    rates: Seq<Segment<DataRate>>,
    start: Date,
    size: Volume,
    e1: Date,
    e2: Date,
)
    requires
        is_earliest_end(rates, start, size, e1),
        is_earliest_end(rates, start, size, e2),
    ensures
        e1 == e2,
{
    if e1 < e2 {
        assert(sent(rates, start as int, e1 as int) < size);
    } else if e2 < e1 {
        assert(sent(rates, start as int, e2 as int) < size);
    }
}

/// `tx_end_within` gives `end` once `end` is known to be the earliest end.
pub proof fn lemma_tx_end_within_some(
    rates: Seq<Segment<DataRate>>,
    start: Date,
    size: Volume,
    limit: Date,
    end: Date,
)
    requires
        end <= limit,
        is_earliest_end(rates, start, size, end),
    ensures
        tx_end_within(rates, start, size, limit) == Some(end),
{
    assert(!(forall|u: Date| start <= u <= limit ==> sent(rates, start as int, u as int) < size));
    let e = choose|e: Date| e <= limit && is_earliest_end(rates, start, size, e);
    lemma_earliest_unique(rates, start, size, e, end);
}

/// A transmission that cannot end in time cannot end in time from a later start either.
pub proof fn lemma_tx_end_within_later_start(
    rates: Seq<Segment<DataRate>>,
    start: Date,
    start2: Date,
    size: Volume,
    limit: Date,
)
    requires
        start <= start2,
        tx_end_within(rates, start, size, limit) is None,
    ensures
        tx_end_within(rates, start2, size, limit) is None,
{
    assert forall|u: Date| start2 <= u <= limit implies sent(rates, start2 as int, u as int)
        < size by {
        lemma_sent_later_start(rates, start as int, start2 as int, u as int);
    }
}

/// The earliest date, not after `limit`, at which a transmission of `size` that
/// starts at `tx_start` ends under the piecewise rates `rate_intervals`.
pub fn get_tx_end(
    rate_intervals: &Vec<Segment<DataRate>>,
    tx_start: Date,
    size: Volume,
    limit: Date,
) -> (r: Option<Date>)
    requires
        sorted_disjoint(rate_intervals@),
    ensures
        r == tx_end_within(rate_intervals@, tx_start, size, limit),
        r matches Some(e) ==> e <= limit && is_earliest_end(rate_intervals@, tx_start, size, e),
{
    let ghost rates = rate_intervals@;
    if size == 0 {
        proof {
            lemma_sent_empty(rates, tx_start as int, tx_start as int);
        }
        if tx_start <= limit {
            proof {
                lemma_tx_end_within_some(rates, tx_start, size, limit, tx_start);
            }
            return Some(tx_start);
        } else {
            return None;
        }
    }
    let mut cur: Date = tx_start;
    let mut rem: Volume = size;
    let mut i: usize = 0;
    proof {
        lemma_sent_empty(rates, tx_start as int, tx_start as int);
    }
    while i < rate_intervals.len()
        invariant
            rates == rate_intervals@,
            sorted_disjoint(rates),
            0 <= i <= rates.len(),
            tx_start <= cur,
            0 < rem <= size,
            sent(rates, tx_start as int, cur as int) == size - rem,
            forall|j: int| 0 <= j < i ==> #[trigger] rates[j].end <= cur,
        decreases rates.len() - i,
    {
        let seg = &rate_intervals[i];
        let from: Date = if cur >= seg.start {
            cur
        } else {
            seg.start
        };
        proof {
            // nothing is sent between the cursor and the start of this segment
            if cur < from {
                assert forall|j: int| 0 <= j < rates.len() implies #[trigger] rates[j].end <= cur
                    || rates[j].start >= from by {
                    if j > i as int {
                        assert(rates[i as int].end <= rates[j].start);
                    }
                }
                lemma_sent_zero(rates, cur as int, from as int);
            } else {
                lemma_sent_empty(rates, cur as int, from as int);
            }
            lemma_sent_additive(rates, tx_start as int, cur as int, from as int);
        }
        if seg.end > from {
            let r: u64 = seg.val;
            let span: u64 = seg.end - from;
            assert((r as int) * (span as int) <= 0xffff_ffff_ffff_ffff_ffff_ffff_ffff_ffffint)
                by (nonlinear_arith)
                requires
                    r <= 0xffff_ffff_ffff_ffff,
                    span <= 0xffff_ffff_ffff_ffff,
            ;
            let cap: u128 = (r as u128) * (span as u128);
            proof {
                assert forall|j: int| 0 <= j < rates.len() && j != i as int implies #[trigger] rates[j].end
                    <= from || rates[j].start >= seg.end by {
                    if j > i as int {
                        assert(rates[i as int].end <= rates[j].start);
                    }
                }
                lemma_sent_single(rates, i as int, from as int, seg.end as int);
                lemma_sent_additive(rates, tx_start as int, from as int, seg.end as int);
            }
            if (rem as u128) <= cap {
                assert(r > 0) by (nonlinear_arith)
                    requires
                        rem > 0,
                        rem <= r * span,
                ;
                let dur: u64 = (rem - 1) / r + 1;
                assert(dur <= span && r * dur >= rem && r * (dur - 1) < rem) by (nonlinear_arith)
                    requires
                        r > 0,
                        rem > 0,
                        rem <= r * span,
                        dur == (rem - 1) as int / r as int + 1,
                ;
                let end: Date = from + dur;
                proof {
                    assert forall|j: int| 0 <= j < rates.len() && j != i as int implies #[trigger] rates[j].end
                        <= from || rates[j].start >= end by {
                        if j > i as int {
                            assert(rates[i as int].end <= rates[j].start);
                        }
                    }
                    lemma_sent_single(rates, i as int, from as int, end as int);
                    lemma_sent_additive(rates, tx_start as int, from as int, end as int);
                    assert forall|u: Date| tx_start <= u < end implies sent(
                        rates,
                        tx_start as int,
                        u as int,
                    ) < size by {
                        if u <= from {
                            lemma_sent_mono(rates, tx_start as int, u as int, from as int);
                        } else {
                            assert forall|j: int| 0 <= j < rates.len() && j != i as int implies #[trigger] rates[j].end
                                <= from || rates[j].start >= u by {
                                if j > i as int {
                                    assert(rates[i as int].end <= rates[j].start);
                                }
                            }
                            lemma_sent_single(rates, i as int, from as int, u as int);
                            lemma_sent_additive(rates, tx_start as int, from as int, u as int);
                            let k = u - from;
                            assert(r * k < rem) by (nonlinear_arith)
                                requires
                                    0 < k < dur,
                                    r * (dur - 1) < rem,
                                    r > 0,
                            ;
                        }
                    }
                }
                if end <= limit {
                    proof {
                        lemma_tx_end_within_some(rates, tx_start, size, limit, end);
                    }
                    return Some(end);
                } else {
                    return None;
                }
            }
            rem = rem - (cap as u64);
            cur = seg.end;
        } else {
            proof {
                lemma_sent_empty(rates, from as int, seg.end as int);
            }
            cur = if seg.end >= cur {
                seg.end
            } else {
                cur
            };
            proof {
                if seg.end >= cur {
                    lemma_sent_additive(rates, tx_start as int, from as int, cur as int);
                }
            }
        }
        i = i + 1;
    }
    proof {
        assert forall|u: Date| tx_start <= u <= limit implies sent(rates, tx_start as int, u as int)
            < size by {
            if u <= cur {
                lemma_sent_mono(rates, tx_start as int, u as int, cur as int);
            } else {
                lemma_sent_zero(rates, cur as int, u as int);
                lemma_sent_additive(rates, tx_start as int, cur as int, u as int);
            }
        }
    }
    None
}

/// The delay that holds at `t` under the piecewise delays `delay_intervals`.
pub fn get_delay(t: Date, delay_intervals: &Vec<Segment<Duration>>) -> (r: Duration)
    ensures
        r == delay_at(delay_intervals@, t as int),
{
    let n = delay_intervals.len();
    if n == 0 {
        return 0;
    }
    let mut i: usize = 0;
    assert(delay_intervals@.skip(0) =~= delay_intervals@);
    while i < n
        invariant
            n == delay_intervals@.len(),
            n > 0,
            0 <= i < n,
            delay_at(delay_intervals@, t as int) == delay_at(delay_intervals@.skip(i as int), t as int),
        decreases n - i,
    {
        let ghost rest = delay_intervals@.skip(i as int);
        assert(rest[0] == delay_intervals@[i as int]);
        if i == n - 1 || t < delay_intervals[i].end {
            return delay_intervals[i].val;
        }
        assert(rest.drop_first() =~= delay_intervals@.skip(i + 1));
        i = i + 1;
    }
    0
}

/// The delays that hold at `tx_start` and at `tx_end`.
pub fn get_delays(tx_start: Date, tx_end: Date, delay_intervals: &Vec<Segment<Duration>>) -> (r: (
    Duration,
    Duration,
))
    ensures
        r == (delay_at(delay_intervals@, tx_start as int), delay_at(delay_intervals@, tx_end as int)),
{
    (get_delay(tx_start, delay_intervals), get_delay(tx_end, delay_intervals))
}

/// Builds the answer for a transmission over `[tx_start, tx_end]`, valid until `expiration`.
pub fn make_tx_data(
    tx_start: Date,
    tx_end: Date,
    expiration: Date,
    delay_intervals: &Vec<Segment<Duration>>,
) -> (r: ContactManagerTxData)
    ensures
        r == tx_data(tx_start, tx_end, expiration, delay_intervals@),
{
    let (d_start, d_end) = get_delays(tx_start, tx_end, delay_intervals);
    ContactManagerTxData {
        tx_start,
        tx_end,
        delay: d_end,
        expiration,
        arrival: tx_end.saturating_add(d_end),
        rx_start: tx_start.saturating_add(d_start),
        rx_end: tx_end.saturating_add(d_end),
    }
}

/// Where some date within `[start, u]` has sent `size`, some date no later than
/// `u` is the earliest one.
pub proof fn lemma_earliest_exists(
    rates: Seq<Segment<DataRate>>,
    start: Date,
    size: Volume,
    u: Date,
)
    requires
        start <= u,
        sent(rates, start as int, u as int) >= size,
    ensures
        exists|e: Date| e <= u && is_earliest_end(rates, start, size, e),
    decreases u - start,
{
    if forall|v: Date| start <= v < u ==> sent(rates, start as int, v as int) < size {
        assert(is_earliest_end(rates, start, size, u));
    } else {
        let v = choose|v: Date| start <= v < u && !(sent(rates, start as int, v as int) < size);
        lemma_earliest_exists(rates, start, size, v);
    }
}

/// What `tx_end_within` gives is the earliest end, and it is not after the limit.
pub proof fn lemma_tx_end_within_facts(
    rates: Seq<Segment<DataRate>>,
    start: Date,
    size: Volume,
    limit: Date,
)
    ensures
        tx_end_within(rates, start, size, limit) matches Some(e) ==> e <= limit && is_earliest_end(
            rates,
            start,
            size,
            e,
        ),
{
    if !(forall|u: Date| start <= u <= limit ==> sent(rates, start as int, u as int) < size) {
        let u = choose|u: Date| start <= u <= limit && !(sent(rates, start as int, u as int) < size);
        lemma_earliest_exists(rates, start, size, u);
        let e = choose|e: Date| e <= u && is_earliest_end(rates, start, size, e);
        assert(e <= limit && is_earliest_end(rates, start, size, e));
    }
}

/// Segments that follow one another without gap are sorted and disjoint.
pub proof fn lemma_no_gap_sorted<T>(s: Seq<Segment<T>>, from: Date, to: Date)
    requires
        covers_without_gap(s, from, to),
    ensures
        sorted_disjoint(s),
{
    assert forall|i: int, j: int| 0 <= i < j < s.len() implies #[trigger] s[i].end
        <= #[trigger] s[j].start by {
        lemma_chain_ends(s, from, to, i, j);
    }
}

proof fn lemma_chain_ends<T>(s: Seq<Segment<T>>, from: Date, to: Date, i: int, j: int)
    requires
        covers_without_gap(s, from, to),
        0 <= i < j < s.len(),
    ensures
        s[i].end <= s[j].start,
    decreases j - i,
{
    if j > i + 1 {
        lemma_chain_ends(s, from, to, i, j - 1);
        assert(s[j - 1].end == s[j].start);
    } else {
        assert(s[i].end == s[i + 1].start);
    }
}

/// Whether `intervals` follow one another without gap over `[from, to]`.
pub fn check_no_gap<T>(intervals: &Vec<Segment<T>>, from: Date, to: Date) -> (r: bool)
    ensures
        r == covers_without_gap(intervals@, from, to),
{
    let n = intervals.len();
    if n == 0 {
        return false;
    }
    if !(intervals[0].start <= from && to <= intervals[n - 1].end) {
        return false;
    }
    let mut i: usize = 0;
    while i < n
        invariant
            n == intervals@.len(),
            n > 0,
            0 <= i <= n,
            forall|k: int| 0 <= k < i ==> #[trigger] intervals@[k].start < intervals@[k].end,
            forall|k: int| 0 <= k < i && k < n - 1 ==> #[trigger] intervals@[k].end
                == intervals@[k + 1].start,
        decreases n - i,
    {
        if !(intervals[i].start < intervals[i].end) {
            return false;
        }
        if i + 1 < n && intervals[i].end != intervals[i + 1].start {
            return false;
        }
        i = i + 1;
    }
    true
}

/// Prepares the booked or free intervals of a segmented contact: where the rate
/// and the delay intervals both cover the contact without gap, `intervals`
/// becomes the whole contact with the value `default` and `true` is returned;
/// otherwise nothing changes and `false` is returned.
pub fn try_init<T: Copy>(
    rate_intervals: &Vec<Segment<DataRate>>,
    delay_intervals: &Vec<Segment<Duration>>,
    intervals: &mut Vec<Segment<T>>,
    default: T,
    contact_data: &ContactInfo,
) -> (r: bool)
    ensures
        r == (contact_data.start <= contact_data.end && covers_without_gap(
            rate_intervals@,
            contact_data.start,
            contact_data.end,
        ) && covers_without_gap(delay_intervals@, contact_data.start, contact_data.end)),
        r ==> final(intervals)@ == seq![
            Segment { start: contact_data.start, end: contact_data.end, val: default },
        ],
        r ==> sorted_disjoint(rate_intervals@),
        !r ==> final(intervals)@ == old(intervals)@,
{
    if contact_data.start > contact_data.end {
        return false;
    }
    if !check_no_gap(rate_intervals, contact_data.start, contact_data.end) {
        return false;
    }
    if !check_no_gap(delay_intervals, contact_data.start, contact_data.end) {
        return false;
    }
    proof {
        lemma_no_gap_sorted(rate_intervals@, contact_data.start, contact_data.end);
    }
    let mut fresh: Vec<Segment<T>> = Vec::new();
    fresh.push(Segment { start: contact_data.start, end: contact_data.end, val: default });
    *intervals = fresh;
    assert(intervals@ =~= seq![
        Segment { start: contact_data.start, end: contact_data.end, val: default },
    ]);
    true
}

/// Among sorted, disjoint segments, the delay at a date inside a segment is
/// that segment's delay.
pub proof fn lemma_delay_at_in(delays: Seq<Segment<Duration>>, t: int, i: int)
    requires
        sorted_disjoint(delays),
        0 <= i < delays.len(),
        delays[i].start <= t < delays[i].end,
    ensures
        delay_at(delays, t) == delays[i].val,
    decreases delays.len(),
{
    if i > 0 {
        assert(delays[0].end <= delays[i].start);
        let rest = delays.drop_first();
        assert(sorted_disjoint(rest)) by {
            assert forall|a: int| 0 <= a < rest.len() implies #[trigger] rest[a].start <= rest[a].end by {
                assert(rest[a] == delays[a + 1]);
            }
            assert forall|a: int, b: int| 0 <= a < b < rest.len() implies #[trigger] rest[a].end
                <= #[trigger] rest[b].start by {
                assert(rest[a] == delays[a + 1]);
                assert(rest[b] == delays[b + 1]);
            }
        }
        assert(rest[i - 1] == delays[i]);
        lemma_delay_at_in(rest, t, i - 1);
    }
}

/// A transmission over `[tx_start, tx_end]` starts being received after the
/// delay of the segment that holds `tx_start`, and is received in full, and
/// arrives, after the delay of the segment that holds `tx_end`, which is the
/// delay it reports.
pub proof fn law_tx_data_delays(
    tx_start: Date,
    tx_end: Date,
    expiration: Date,
    delays: Seq<Segment<Duration>>,
)
    requires
        sorted_disjoint(delays),
    ensures
        tx_data(tx_start, tx_end, expiration, delays).tx_start == tx_start,
        tx_data(tx_start, tx_end, expiration, delays).tx_end == tx_end,
        tx_data(tx_start, tx_end, expiration, delays).expiration == expiration,
        forall|i: int|
            0 <= i < delays.len() && delays[i].start <= tx_start < delays[i].end ==> tx_data(
                tx_start,
                tx_end,
                expiration,
                delays,
            ).rx_start == sat_add(tx_start, #[trigger] delays[i].val),
        forall|k: int|
            0 <= k < delays.len() && delays[k].start <= tx_end < delays[k].end ==> {
                let d = tx_data(tx_start, tx_end, expiration, delays);
                &&& d.delay == #[trigger] delays[k].val
                &&& d.arrival == sat_add(tx_end, delays[k].val)
                &&& d.rx_end == d.arrival
            },
{
    assert forall|i: int|
        0 <= i < delays.len() && delays[i].start <= tx_start < delays[i].end implies tx_data(
        tx_start,
        tx_end,
        expiration,
        delays,
    ).rx_start == sat_add(tx_start, #[trigger] delays[i].val) by {
        lemma_delay_at_in(delays, tx_start as int, i);
    }
    assert forall|k: int| 0 <= k < delays.len() && delays[k].start <= tx_end < delays[k].end implies {
        let d = tx_data(tx_start, tx_end, expiration, delays);
        &&& d.delay == #[trigger] delays[k].val
        &&& d.arrival == sat_add(tx_end, delays[k].val)
        &&& d.rx_end == d.arrival
    } by {
        lemma_delay_at_in(delays, tx_end as int, k);
    }
}

} // verus!
