use vstd::prelude::*;
use crate::bundle::Bundle;
use crate::contact::ContactInfo;
use crate::contact_manager::segmentation::{
    BaseSegmentationManager,
    get_tx_end,
    law_tx_data_delays,
    lemma_tx_end_within_later_start,
    make_tx_data,
    covers_without_gap,
    lemma_tx_end_within_facts,
    sorted_disjoint,
    try_init,
    tx_data,
    tx_end_within,
    Segment,
};
use crate::contact_manager::{ContactManager, ContactManagerTxData};
use crate::types::{date_max, max_u64, min_u64, sat_add, DataRate, Date, Duration, Priority, Volume};

verus! {

/// Priority-aware segmentation manager. Tracks bandwidth availability per priority level
/// using booking intervals.
///
/// Each booking interval holds the priority of what is booked over it (`-1` for
/// nothing); a bundle may only use intervals booked at a priority lower than its own.
#[derive(Debug)]
pub struct PSegmentationManager {
    /// The priority booked over each interval of the contact.
    pub booking: Vec<Segment<Priority>>,
    /// The data rates over the contact.
    pub rate_intervals: Vec<Segment<DataRate>>,
    /// The delays over the contact.
    pub delay_intervals: Vec<Segment<Duration>>,
}

/// The booking interval `b[i]` has not ended at `at_time` and is booked below `priority`.
pub open spec fn usable(b: Seq<Segment<Priority>>, i: int, at_time: Date, priority: Priority) -> bool {
    b[i].end > at_time && priority > b[i].val
}

/// The first interval of the run of usable intervals that ends with `b[k]`.
pub open spec fn run_start(b: Seq<Segment<Priority>>, k: int, at_time: Date, priority: Priority) -> int
    decreases k,
{
    if k <= 0 || !usable(b, k - 1, at_time, priority) {
        k
    } else {
        run_start(b, k - 1, at_time, priority)
    }
}

/// The value that the booking holds at `t`, if any interval holds one.
pub open spec fn booked_at(b: Seq<Segment<Priority>>, t: int) -> Option<Priority> {
    if exists|i: int| 0 <= i < b.len() && b[i].start <= t < #[trigger] b[i].end {
        Some(
            b[choose|i: int| 0 <= i < b.len() && b[i].start <= t < #[trigger] b[i].end].val,
        )
    } else {
        None
    }
}

/// The booking interval `seg`, cut at `tx_start` and `tx_end`, with the part in
/// between booked at `priority`.
pub open spec fn split_one(seg: Segment<Priority>, tx_start: Date, tx_end: Date, priority: Priority) -> Seq<
    Segment<Priority>,
> {
    if seg.end <= tx_start || seg.start >= tx_end {
        seq![seg]
    } else {
        let left = if seg.start < tx_start {
            seq![Segment { start: seg.start, end: tx_start, val: seg.val }]
        } else {
            Seq::empty()
        };
        let right = if seg.end > tx_end {
            seq![Segment { start: tx_end, end: seg.end, val: seg.val }]
        } else {
            Seq::empty()
        };
        left + seq![
            Segment {
                start: max_u64(seg.start, tx_start),
                end: min_u64(seg.end, tx_end),
                val: priority,
            },
        ] + right
    }
}

/// The booking once `[tx_start, tx_end]` is booked at `priority`.
pub open spec fn book(b: Seq<Segment<Priority>>, tx_start: Date, tx_end: Date, priority: Priority) -> Seq<
    Segment<Priority>,
>
    decreases b.len(),
{
    if b.len() == 0 {
        Seq::empty()
    } else {
        book(b.drop_last(), tx_start, tx_end, priority) + split_one(
            b.last(),
            tx_start,
            tx_end,
            priority,
        )
    }
}

impl PSegmentationManager {
    /// Creates a manager with the given rate and delay intervals and no booking interval.
    pub fn new(
        rate_intervals: Vec<Segment<DataRate>>,
        delay_intervals: Vec<Segment<Duration>>,
    ) -> (r: Self)
        ensures
            r.booking@ == Seq::<Segment<Priority>>::empty(),
            r.rate_intervals@ == rate_intervals@,
            r.delay_intervals@ == delay_intervals@,
            r.wf(),
    {
        let booking = Vec::new();
        PSegmentationManager { booking, rate_intervals, delay_intervals }
    }

    /// When a transmission built from the start of the run ending at `k` would be over.
    pub open spec fn run_tx_end(
        &self,
        k: int,
        contact_end: Date,
        at_time: Date,
        priority: Priority,
        size: Volume,
    ) -> Option<Date> {
        let j = run_start(self.booking@, k, at_time, priority);
        tx_end_within(
            self.rate_intervals@,
            max_u64(self.booking@[j].start, at_time),
            size,
            contact_end,
        )
    }

    /// The run ending at `k` holds the whole transmission before the end of `b[k]`.
    pub open spec fn holds(
        &self,
        k: int,
        contact_end: Date,
        at_time: Date,
        priority: Priority,
        size: Volume,
    ) -> bool {
        &&& usable(self.booking@, k, at_time, priority)
        &&& self.run_tx_end(k, contact_end, at_time, priority, size) matches Some(t)
        &&& t < self.booking@[k].end
    }

    /// The first booking interval before whose end the transmission can be over.
    pub open spec fn hold_index(
        &self,
        contact_end: Date,
        at_time: Date,
        priority: Priority,
        size: Volume,
    ) -> Option<int> {
        if exists|k: int|
            0 <= k < self.booking@.len() && self.holds(k, contact_end, at_time, priority, size) {
            Some(
                choose|k: int|
                    0 <= k < self.booking@.len() && self.holds(
                        k,
                        contact_end,
                        at_time,
                        priority,
                        size,
                    ) && forall|j: int| 0 <= j < k ==> !self.holds(j, contact_end, at_time, priority, size),
            )
        } else {
            None
        }
    }

    /// The transmission that the booking gives a bundle of `priority` and `size`.
    pub open spec fn booking_tx(
        &self,
        contact_end: Date,
        at_time: Date,
        priority: Priority,
        size: Volume,
    ) -> Option<ContactManagerTxData> {
        match self.hold_index(contact_end, at_time, priority, size) {
            Some(k) => {
                let j = run_start(self.booking@, k, at_time, priority);
                let tx_start = max_u64(self.booking@[j].start, at_time);
                match self.run_tx_end(k, contact_end, at_time, priority, size) {
                    Some(tx_end) => Some(
                        tx_data(tx_start, tx_end, self.booking@[k].end, self.delay_intervals@),
                    ),
                    None => None,
                }
            },
            None => None,
        }
    }

    proof fn lemma_hold_index_is(
        &self,
        k: int,
        contact_end: Date,
        at_time: Date,
        priority: Priority,
        size: Volume,
    )
        requires
            0 <= k < self.booking@.len(),
            self.holds(k, contact_end, at_time, priority, size),
            forall|j: int| 0 <= j < k ==> !self.holds(j, contact_end, at_time, priority, size),
        ensures
            self.hold_index(contact_end, at_time, priority, size) == Some(k),
    {
        let m = choose|m: int|
            0 <= m < self.booking@.len() && self.holds(m, contact_end, at_time, priority, size)
                && forall|j: int| 0 <= j < m ==> !self.holds(j, contact_end, at_time, priority, size);
        if m < k {
            assert(!self.holds(m, contact_end, at_time, priority, size));
        } else if k < m {
            assert(!self.holds(k, contact_end, at_time, priority, size));
        }
    }
}

pub proof fn lemma_run_start_bounds(b: Seq<Segment<Priority>>, k: int, at_time: Date, priority: Priority)
    requires
        0 <= k,
    ensures
        0 <= run_start(b, k, at_time, priority) <= k,
    decreases k,
{
    if k > 0 && usable(b, k - 1, at_time, priority) {
        lemma_run_start_bounds(b, k - 1, at_time, priority);
    }
}

/// Runs that end later start no earlier.
pub proof fn lemma_run_start_mono(b: Seq<Segment<Priority>>, k: int, j: int, at_time: Date, priority: Priority)
    requires
        0 <= k <= j,
    ensures
        run_start(b, k, at_time, priority) <= run_start(b, j, at_time, priority),
    decreases j,
{
    lemma_run_start_bounds(b, k, at_time, priority);
    if j > k && j > 0 && usable(b, j - 1, at_time, priority) {
        lemma_run_start_mono(b, k, j - 1, at_time, priority);
    }
}

/// The window that a priority segmentation manager gives starts no later than
/// any run of intervals booked below the bundle's priority that can hold the
/// transmission would let it start; there is a window exactly when such a run
/// exists.
#[verifier::rlimit(40)]
pub proof fn law_pseg_earliest_window(
    m: PSegmentationManager,
    contact_end: Date,
    at_time: Date,
    priority: Priority,
    size: Volume,
)
    requires
        sorted_disjoint(m.booking@),
    ensures
        m.booking_tx(contact_end, at_time, priority, size) is Some <==> exists|j: int|
            0 <= j < m.booking@.len() && m.holds(j, contact_end, at_time, priority, size),
        m.booking_tx(contact_end, at_time, priority, size) matches Some(d) ==> forall|j: int|
            0 <= j < m.booking@.len() && m.holds(j, contact_end, at_time, priority, size) ==> d.tx_start
                <= max_u64(m.booking@[run_start(m.booking@, j, at_time, priority)].start, at_time),
{
    let b = m.booking@;
    if exists|k: int| 0 <= k < b.len() && m.holds(k, contact_end, at_time, priority, size) {
        let k0 = choose|k: int| 0 <= k < b.len() && m.holds(k, contact_end, at_time, priority, size);
        m.lemma_first_hold_exists(k0, contact_end, at_time, priority, size);
        let k = m.hold_index(contact_end, at_time, priority, size)->0;
        assert(m.holds(k, contact_end, at_time, priority, size));
        assert forall|j: int|
            0 <= j < b.len() && m.holds(j, contact_end, at_time, priority, size) implies m.booking_tx(
            contact_end,
            at_time,
            priority,
            size,
        )->0.tx_start <= max_u64(b[run_start(b, j, at_time, priority)].start, at_time) by {
            assert(k <= j);
            lemma_run_start_mono(b, k, j, at_time, priority);
            lemma_run_start_bounds(b, j, at_time, priority);
            lemma_run_start_bounds(b, k, at_time, priority);
            let rk = run_start(b, k, at_time, priority);
            let rj = run_start(b, j, at_time, priority);
            assert(0 <= rk <= rj < b.len());
            assert(m.booking_tx(contact_end, at_time, priority, size)->0.tx_start == max_u64(b[rk].start, at_time));
            if rk < rj {
                assert(b[rk].end <= b[rj].start);
                assert(b[rk].start <= b[rk].end);
            }
        }
    }
}

impl PSegmentationManager {
    /// The transmission that the booking gives `bundle` on a contact ending at `contact_end`.
    fn find_hold(&self, contact_end: Date, at_time: Date, bundle: &Bundle) -> (r: Option<
        ContactManagerTxData,
    >)
        requires
            self.wf(),
        ensures
            r == self.booking_tx(contact_end, at_time, bundle.priority, bundle.size),
            r matches Some(d) ==> d.tx_start <= d.tx_end,
    {
        let ghost b = self.booking@;
        let ghost p = bundle.priority;
        let ghost size = bundle.size;
        let mut tx_start: Date = at_time;
        let mut tx_end_opt: Option<Date> = None;
        let mut i: usize = 0;
        while i < self.booking.len()
            invariant
                self.wf(),
                b == self.booking@,
                p == bundle.priority,
                size == bundle.size,
                0 <= i <= b.len(),
                forall|k: int| 0 <= k < i ==> !self.holds(k, contact_end, at_time, p, size),
                (i == 0 || !usable(b, i - 1, at_time, p)) ==> tx_end_opt is None,
                i > 0 && usable(b, i - 1, at_time, p) ==> tx_end_opt == self.run_tx_end(
                    i - 1,
                    contact_end,
                    at_time,
                    p,
                    size,
                ),
                i > 0 && usable(b, i - 1, at_time, p) && tx_end_opt is Some ==> tx_start
                    == max_u64(b[run_start(b, i - 1, at_time, p)].start, at_time),
                tx_end_opt matches Some(t) ==> tx_start <= t,
            decreases b.len() - i,
        {
            let seg = self.booking[i];
            proof {
                lemma_run_start_bounds(b, i as int, at_time, p);
                if i > 0 {
                    lemma_run_start_bounds(b, i - 1, at_time, p);
                }
            }
            if seg.end <= at_time {
                proof {
                    if i > 0 && usable(b, i - 1, at_time, p) {
                        assert(b[i - 1].end <= b[i as int].start);
                    }
                }
            } else if bundle.priority <= seg.val {
                tx_end_opt = None;
            } else {
                match tx_end_opt {
                    Some(tx_end) => {
                        if tx_end < seg.end {
                            let d = make_tx_data(tx_start, tx_end, seg.end, &self.delay_intervals);
                            proof {
                                self.lemma_hold_index_is(i as int, contact_end, at_time, p, size);
                            }
                            return Some(d);
                        }
                    },
                    None => {
                        let ghost was_usable = i > 0 && usable(b, i - 1, at_time, p);
                        tx_start = date_max(seg.start, at_time);
                        proof {
                            if was_usable {
                                let j = run_start(b, i - 1, at_time, p);
                                if j < i - 1 {
                                    assert(b[j].end <= b[i - 1].start);
                                }
                                assert(b[j].start <= b[j].end);
                                assert(b[j].end <= b[i as int].start);
                                lemma_tx_end_within_later_start(
                                    self.rate_intervals@,
                                    max_u64(b[j].start, at_time),
                                    tx_start,
                                    size,
                                    contact_end,
                                );
                            }
                        }
                        match get_tx_end(&self.rate_intervals, tx_start, bundle.size, contact_end) {
                            Some(tx_end) => {
                                if tx_end < seg.end {
                                    let d = make_tx_data(
                                        tx_start,
                                        tx_end,
                                        seg.end,
                                        &self.delay_intervals,
                                    );
                                    proof {
                                        self.lemma_hold_index_is(
                                            i as int,
                                            contact_end,
                                            at_time,
                                            p,
                                            size,
                                        );
                                    }
                                    return Some(d);
                                }
                                tx_end_opt = Some(tx_end);
                            },
                            None => {},
                        }
                    },
                }
            }
            i = i + 1;
        }
        proof {
            if exists|k: int| 0 <= k < b.len() && self.holds(k, contact_end, at_time, p, size) {
                let k = choose|k: int| 0 <= k < b.len() && self.holds(k, contact_end, at_time, p, size);
                assert(!self.holds(k, contact_end, at_time, p, size));
            }
        }
        None
    }
}

/// Every interval of a run is usable.
pub proof fn lemma_run_usable(b: Seq<Segment<Priority>>, k: int, i: int, at_time: Date, priority: Priority)
    requires
        0 <= k < b.len(),
        usable(b, k, at_time, priority),
        run_start(b, k, at_time, priority) <= i <= k,
    ensures
        usable(b, i, at_time, priority),
    decreases k,
{
    if i < k {
        lemma_run_usable(b, k - 1, i, at_time, priority);
    }
}

impl PSegmentationManager {
    /// Where some interval can hold the transmission, a first one does.
    pub proof fn lemma_first_hold_exists(
        &self,
        k: int,
        contact_end: Date,
        at_time: Date,
        priority: Priority,
        size: Volume,
    )
        requires
            0 <= k < self.booking@.len(),
            self.holds(k, contact_end, at_time, priority, size),
        ensures
            exists|m: int|
                0 <= m < self.booking@.len() && self.holds(m, contact_end, at_time, priority, size)
                    && forall|j: int| 0 <= j < m ==> !self.holds(j, contact_end, at_time, priority, size),
        decreases k,
    {
        if !(forall|j: int| 0 <= j < k ==> !self.holds(j, contact_end, at_time, priority, size)) {
            let j = choose|j: int| 0 <= j < k && self.holds(j, contact_end, at_time, priority, size);
            self.lemma_first_hold_exists(j, contact_end, at_time, priority, size);
        }
    }
}

/// The transmission that a priority segmentation manager gives starts no
/// earlier than asked, ends before the contact does, and only uses booking
/// intervals booked below the bundle's priority.
pub proof fn law_pseg_window_below_priority(
    m: PSegmentationManager,
    contact_end: Date,
    at_time: Date,
    priority: Priority,
    size: Volume,
)
    requires
        sorted_disjoint(m.booking@),
    ensures
        m.booking_tx(contact_end, at_time, priority, size) matches Some(d) ==> {
            &&& at_time <= d.tx_start <= d.tx_end <= contact_end
            &&& forall|i: int|
                0 <= i < m.booking@.len() && m.booking@[i].start < d.tx_end && m.booking@[i].end
                    > d.tx_start ==> #[trigger] m.booking@[i].val < priority
        },
{
    let b = m.booking@;
    if exists|k: int| 0 <= k < b.len() && m.holds(k, contact_end, at_time, priority, size) {
        let k0 = choose|k: int| 0 <= k < b.len() && m.holds(k, contact_end, at_time, priority, size);
        m.lemma_first_hold_exists(k0, contact_end, at_time, priority, size);
        let k = m.hold_index(contact_end, at_time, priority, size)->0;
        let j = run_start(b, k, at_time, priority);
        lemma_run_start_bounds(b, k, at_time, priority);
        let tx_start = max_u64(b[j].start, at_time);
        lemma_tx_end_within_facts(m.rate_intervals@, tx_start, size, contact_end);
        let d = m.booking_tx(contact_end, at_time, priority, size)->0;
        assert forall|i: int|
            0 <= i < b.len() && b[i].start < d.tx_end && b[i].end > d.tx_start implies #[trigger] b[i].val
            < priority by {
            if i < j {
                assert(b[i].end <= b[j].start);
            } else if i > k {
                assert(b[k].end <= b[i].start);
            } else {
                lemma_run_usable(b, k, i, at_time, priority);
            }
        }
    }
}

/// Booking a (non-empty) window at `priority`: every piece that meets the
/// window lies in it and is booked at `priority`; every other piece lies in an
/// interval of the former booking and keeps its value.
pub proof fn law_book_window(b: Seq<Segment<Priority>>, tx_start: Date, tx_end: Date, priority: Priority)
    requires
        tx_start < tx_end,
        forall|i: int| 0 <= i < b.len() ==> #[trigger] b[i].start <= b[i].end,
    ensures
        forall|x: int|
            0 <= x < book(b, tx_start, tx_end, priority).len() ==> {
                let y = #[trigger] book(b, tx_start, tx_end, priority)[x];
                if y.start < tx_end && y.end > tx_start {
                    y.val == priority && tx_start <= y.start && y.end <= tx_end
                } else {
                    exists|i: int|
                        0 <= i < b.len() && b[i].val == y.val && b[i].start <= y.start && y.end
                            <= b[i].end
                }
            },
    decreases b.len(),
{
    if b.len() > 0 {
        let p = b.drop_last();
        assert forall|i: int| 0 <= i < p.len() implies #[trigger] p[i].start <= p[i].end by {
            assert(p[i] == b[i]);
        }
        law_book_window(p, tx_start, tx_end, priority);
        let a = book(p, tx_start, tx_end, priority);
        let l = b.last();
        assert(l == b[b.len() - 1]);
        let c = split_one(l, tx_start, tx_end, priority);
        let r = book(b, tx_start, tx_end, priority);
        assert(r == a + c);
        assert forall|x: int| 0 <= x < r.len() implies {
            let y = #[trigger] r[x];
            if y.start < tx_end && y.end > tx_start {
                y.val == priority && tx_start <= y.start && y.end <= tx_end
            } else {
                exists|i: int|
                    0 <= i < b.len() && b[i].val == y.val && b[i].start <= y.start && y.end <= b[i].end
            }
        } by {
            if x < a.len() {
                assert(r[x] == a[x]);
                let y = a[x];
                if !(y.start < tx_end && y.end > tx_start) {
                    let i = choose|i: int|
                        0 <= i < p.len() && p[i].val == y.val && p[i].start <= y.start && y.end <= p[i].end;
                    assert(b[i] == p[i]);
                }
            } else {
                assert(r[x] == c[x - a.len()]);
                let y = c[x - a.len()];
                let n = b.len() - 1;
                if !(l.end <= tx_start || l.start >= tx_end) {
                    let left: Seq<Segment<Priority>> = if l.start < tx_start {
                        seq![Segment { start: l.start, end: tx_start, val: l.val }]
                    } else {
                        Seq::empty()
                    };
                    let right: Seq<Segment<Priority>> = if l.end > tx_end {
                        seq![Segment { start: tx_end, end: l.end, val: l.val }]
                    } else {
                        Seq::empty()
                    };
                    let mid = Segment {
                        start: max_u64(l.start, tx_start),
                        end: min_u64(l.end, tx_end),
                        val: priority,
                    };
                    assert(c == left + seq![mid] + right);
                    let z = x - a.len();
                    if z < left.len() {
                        assert(y == left[z]);
                        assert(b[n].val == y.val && b[n].start <= y.start && y.end <= b[n].end);
                    } else if z == left.len() {
                        assert(y == mid);
                    } else {
                        assert(y == right[z - left.len() - 1]);
                        assert(b[n].val == y.val && b[n].start <= y.start && y.end <= b[n].end);
                    }
                } else {
                    assert(y == l);
                    assert(b[n].val == y.val && b[n].start <= y.start && y.end <= b[n].end);
                }
            }
        }
    }
}

/// Every piece of a booking lies within an interval of the former booking, and
/// every date that an interval of the former booking holds is held by a piece.
pub proof fn lemma_book_pieces(
    b: Seq<Segment<Priority>>,
    tx_start: Date,
    tx_end: Date,
    priority: Priority,
    t: int,
)
    ensures
        forall|x: int|
            0 <= x < book(b, tx_start, tx_end, priority).len() ==> exists|i: int|
                0 <= i < b.len() && b[i].start <= (#[trigger] book(b, tx_start, tx_end, priority)[x]).start
                    && book(b, tx_start, tx_end, priority)[x].end <= b[i].end,
        forall|i: int|
            0 <= i < b.len() && (#[trigger] b[i]).start <= t < b[i].end ==> exists|x: int|
                0 <= x < book(b, tx_start, tx_end, priority).len() && book(b, tx_start, tx_end, priority)[x].start
                    <= t < #[trigger] book(b, tx_start, tx_end, priority)[x].end,
    decreases b.len(),
{
    if b.len() > 0 {
        let p = b.drop_last();
        lemma_book_pieces(p, tx_start, tx_end, priority, t);
        let a = book(p, tx_start, tx_end, priority);
        let l = b.last();
        let n = b.len() - 1;
        assert(l == b[n]);
        let c = split_one(l, tx_start, tx_end, priority);
        let r = book(b, tx_start, tx_end, priority);
        assert(r == a + c);
        let left: Seq<Segment<Priority>> = if l.start < tx_start {
            seq![Segment { start: l.start, end: tx_start, val: l.val }]
        } else {
            Seq::empty()
        };
        let right: Seq<Segment<Priority>> = if l.end > tx_end {
            seq![Segment { start: tx_end, end: l.end, val: l.val }]
        } else {
            Seq::empty()
        };
        let mid = Segment { start: max_u64(l.start, tx_start), end: min_u64(l.end, tx_end), val: priority };
        let cut = !(l.end <= tx_start || l.start >= tx_end);
        if cut {
            assert(c == left + seq![mid] + right);
        }
        assert forall|x: int| 0 <= x < r.len() implies exists|i: int|
            0 <= i < b.len() && b[i].start <= (#[trigger] r[x]).start && r[x].end <= b[i].end by {
            if x < a.len() {
                assert(r[x] == a[x]);
                let i = choose|i: int| 0 <= i < p.len() && p[i].start <= a[x].start && a[x].end <= p[i].end;
                assert(b[i] == p[i]);
            } else {
                let z = x - a.len();
                assert(r[x] == c[z]);
                if cut {
                    if z < left.len() {
                        assert(c[z] == left[z]);
                    } else if z == left.len() {
                        assert(c[z] == mid);
                    } else {
                        assert(c[z] == right[z - left.len() - 1]);
                    }
                }
                assert(b[n].start <= r[x].start && r[x].end <= b[n].end);
            }
        }
        assert forall|i: int| 0 <= i < b.len() && (#[trigger] b[i]).start <= t < b[i].end implies exists|x: int|
            0 <= x < r.len() && r[x].start <= t < #[trigger] r[x].end by {
            if i < n {
                assert(p[i] == b[i]);
                assert(p[i].start <= t < p[i].end);
                let x = choose|x: int| 0 <= x < a.len() && a[x].start <= t < #[trigger] a[x].end;
                assert(r[x] == a[x]);
            } else {
                if cut {
                    if t < tx_start {
                        assert(l.start < tx_start);
                        assert(c[0] == left[0]);
                        assert(r[a.len() as int] == c[0]);
                    } else if t < tx_end {
                        assert(c[left.len() as int] == mid);
                        assert(r[(a.len() + left.len()) as int] == c[left.len() as int]);
                    } else {
                        assert(l.end > tx_end);
                        assert(c[(left.len() + 1) as int] == right[0]);
                        assert(r[(a.len() + left.len() + 1) as int] == c[(left.len() + 1) as int]);
                    }
                } else {
                    assert(c[0] == l);
                    assert(r[a.len() as int] == c[0]);
                }
            }
        }
    }
}

/// Booking a (non-empty) window at `priority` into a sorted booking: a date of
/// the window that the booking holds is now booked at `priority`; any other date
/// keeps what the booking held there, and a date it did not hold stays unheld.
pub proof fn law_pseg_booking_per_date(
    b: Seq<Segment<Priority>>,
    tx_start: Date,
    tx_end: Date,
    priority: Priority,
    t: int,
)
    requires
        sorted_disjoint(b),
        tx_start < tx_end,
    ensures
        sorted_disjoint(book(b, tx_start, tx_end, priority)),
        booked_at(book(b, tx_start, tx_end, priority), t) == match booked_at(b, t) {
            Some(v) => Some(
                if tx_start <= t < tx_end {
                    priority
                } else {
                    v
                },
            ),
            None => None,
        },
{
    let r = book(b, tx_start, tx_end, priority);
    lemma_book_sorted(b, tx_start, tx_end, priority);
    lemma_book_pieces(b, tx_start, tx_end, priority, t);
    law_book_window(b, tx_start, tx_end, priority);
    if exists|i: int| 0 <= i < b.len() && b[i].start <= t < #[trigger] b[i].end {
        let i = choose|i: int| 0 <= i < b.len() && b[i].start <= t < #[trigger] b[i].end;
        assert(b[i].start <= t < b[i].end);
        assert(exists|x: int| 0 <= x < r.len() && r[x].start <= t < #[trigger] r[x].end);
        let x = choose|x: int| 0 <= x < r.len() && r[x].start <= t < #[trigger] r[x].end;
        let y = r[x];
        if !(y.start < tx_end && y.end > tx_start) {
            let i2 = choose|i2: int|
                0 <= i2 < b.len() && b[i2].val == y.val && b[i2].start <= y.start && y.end <= b[i2].end;
            if i2 != i {
                if i2 < i {
                    assert(b[i2].end <= b[i].start);
                } else {
                    assert(b[i].end <= b[i2].start);
                }
            }
        }
    } else {
        if exists|x: int| 0 <= x < r.len() && r[x].start <= t < #[trigger] r[x].end {
            let x = choose|x: int| 0 <= x < r.len() && r[x].start <= t < #[trigger] r[x].end;
            let i = choose|i: int| 0 <= i < b.len() && b[i].start <= r[x].start && r[x].end <= b[i].end;
            assert(b[i].start <= t < b[i].end);
        }
    }
}

/// The pieces of one cut booking interval are sorted, disjoint, and within it.
pub proof fn lemma_split_one(seg: Segment<Priority>, tx_start: Date, tx_end: Date, priority: Priority)
    requires
        seg.start <= seg.end,
        tx_start <= tx_end,
    ensures
        sorted_disjoint(split_one(seg, tx_start, tx_end, priority)),
        forall|x: int|
            0 <= x < split_one(seg, tx_start, tx_end, priority).len() ==> seg.start <= (
            #[trigger] split_one(seg, tx_start, tx_end, priority)[x]).start && split_one(
                seg,
                tx_start,
                tx_end,
                priority,
            )[x].end <= seg.end,
{
}

/// Booking a window keeps the booking sorted and disjoint, and within its bounds.
pub proof fn lemma_book_sorted(b: Seq<Segment<Priority>>, tx_start: Date, tx_end: Date, priority: Priority)
    requires
        sorted_disjoint(b),
        tx_start <= tx_end,
    ensures
        sorted_disjoint(book(b, tx_start, tx_end, priority)),
        b.len() > 0 ==> forall|x: int|
            0 <= x < book(b, tx_start, tx_end, priority).len() ==> b[0].start <= (
            #[trigger] book(b, tx_start, tx_end, priority)[x]).start && book(
                b,
                tx_start,
                tx_end,
                priority,
            )[x].end <= b.last().end,
    decreases b.len(),
{
    if b.len() > 0 {
        let p = b.drop_last();
        let l = b.last();
        assert(l == b[b.len() - 1]);
        assert(sorted_disjoint(p)) by {
            assert forall|i: int| 0 <= i < p.len() implies #[trigger] p[i].start <= p[i].end by {
                assert(p[i] == b[i]);
            }
            assert forall|i: int, j: int| 0 <= i < j < p.len() implies #[trigger] p[i].end
                <= #[trigger] p[j].start by {
                assert(p[i] == b[i]);
                assert(p[j] == b[j]);
            }
        }
        lemma_book_sorted(p, tx_start, tx_end, priority);
        lemma_split_one(l, tx_start, tx_end, priority);
        let a = book(p, tx_start, tx_end, priority);
        let c = split_one(l, tx_start, tx_end, priority);
        let r = book(b, tx_start, tx_end, priority);
        assert(r == a + c);
        if p.len() > 0 {
            assert(p[0] == b[0]);
            assert(p.last() == b[b.len() - 2]);
            assert(b[b.len() - 2].end <= l.start);
            assert(b[0].start <= b[0].end);
            if b.len() > 2 {
                assert(b[0].end <= b[b.len() - 2].start);
            }
        }
        assert forall|x: int| 0 <= x < r.len() implies #[trigger] r[x].start <= r[x].end by {
            if x < a.len() {
                assert(r[x] == a[x]);
            } else {
                assert(r[x] == c[x - a.len()]);
            }
        }
        assert forall|x: int, y: int| 0 <= x < y < r.len() implies #[trigger] r[x].end
            <= #[trigger] r[y].start by {
            if y < a.len() {
                assert(r[x] == a[x]);
                assert(r[y] == a[y]);
            } else if x >= a.len() {
                assert(r[x] == c[x - a.len()]);
                assert(r[y] == c[y - a.len()]);
            } else {
                assert(r[x] == a[x]);
                assert(r[y] == c[y - a.len()]);
            }
        }
        assert forall|x: int| 0 <= x < r.len() implies b[0].start <= (#[trigger] r[x]).start
            && r[x].end <= b.last().end by {
            if x < a.len() {
                assert(r[x] == a[x]);
            } else {
                assert(r[x] == c[x - a.len()]);
                if p.len() > 0 {
                    assert(b[0].end <= l.start);
                }
            }
        }
    }
}

/// Booking one more interval of the input booking appends its pieces.
pub proof fn lemma_book_step(b: Seq<Segment<Priority>>, k: int, tx_start: Date, tx_end: Date, priority: Priority)
    requires
        0 <= k < b.len(),
    ensures
        book(b.take(k + 1), tx_start, tx_end, priority) == book(b.take(k), tx_start, tx_end, priority)
            + split_one(b[k], tx_start, tx_end, priority),
{
    assert(b.take(k + 1).drop_last() =~= b.take(k));
    assert(b.take(k + 1).last() == b[k]);
}

/// Intervals that start after the window are left as they are.
pub proof fn lemma_book_rest_untouched(
    b: Seq<Segment<Priority>>,
    k: int,
    tx_start: Date,
    tx_end: Date,
    priority: Priority,
)
    requires
        0 <= k <= b.len(),
        forall|j: int| k <= j < b.len() ==> #[trigger] b[j].start >= tx_end,
    ensures
        book(b, tx_start, tx_end, priority) == book(b.take(k), tx_start, tx_end, priority) + b.skip(k),
    decreases b.len() - k,
{
    if k == b.len() {
        assert(b.take(k) =~= b);
        assert(b.skip(k) =~= Seq::<Segment<Priority>>::empty());
    } else {
        let p = b.drop_last();
        assert forall|j: int| k <= j < p.len() implies #[trigger] p[j].start >= tx_end by {
            assert(p[j] == b[j]);
        }
        lemma_book_rest_untouched(p, k, tx_start, tx_end, priority);
        assert(p.take(k) =~= b.take(k));
        assert(b.last() == b[b.len() - 1]);
        assert(split_one(b.last(), tx_start, tx_end, priority) == seq![b.last()]);
        assert(p.skip(k) + seq![b.last()] =~= b.skip(k));
    }
}

impl PSegmentationManager {
    /// Books `[tx_start, tx_end]` at `priority`, cutting the booking intervals it meets.
    #[verifier::rlimit(40)]
    fn book_window(&mut self, tx_start: Date, tx_end: Date, priority: Priority)
        requires
            sorted_disjoint(old(self).booking@),
            tx_start <= tx_end,
        ensures
            final(self).booking@ == book(old(self).booking@, tx_start, tx_end, priority),
            final(self).rate_intervals@ == old(self).rate_intervals@,
            final(self).delay_intervals@ == old(self).delay_intervals@,
    {
        let ghost ob = self.booking@;
        let mut i: usize = 0;
        let ghost mut k: int = 0;
        let mut done = false;
        assert(ob.take(0) =~= Seq::<Segment<Priority>>::empty());
        assert(ob.skip(0) =~= ob);
        while !done && i < self.booking.len()
            invariant
                sorted_disjoint(ob),
                tx_start <= tx_end,
                0 <= k <= ob.len(),
                self.booking@ == book(ob.take(k), tx_start, tx_end, priority) + ob.skip(k),
                i == book(ob.take(k), tx_start, tx_end, priority).len(),
                self.rate_intervals@ == old(self).rate_intervals@,
                self.delay_intervals@ == old(self).delay_intervals@,
                done ==> forall|j: int| k <= j < ob.len() ==> #[trigger] ob[j].start >= tx_end,
            decreases ob.len() - k + (if done { 0int } else { 1int }),
        {
            let ghost a = book(ob.take(k), tx_start, tx_end, priority);
            assert(self.booking@[i as int] == ob[k]);
            let seg = self.booking[i];
            proof {
                lemma_book_step(ob, k, tx_start, tx_end, priority);
            }
            if seg.end <= tx_start {
                i = i + 1;
                proof {
                    k = k + 1;
                }
                assert(self.booking@ =~= book(ob.take(k), tx_start, tx_end, priority) + ob.skip(k));
            } else if seg.start >= tx_end {
                done = true;
                assert forall|j: int| k <= j < ob.len() implies #[trigger] ob[j].start >= tx_end by {
                    if j > k {
                        assert(ob[k].start <= ob[k].end);
                        assert(ob[k].end <= ob[j].start);
                    }
                }
            } else {
                let old_prio = seg.val;
                let mut cur = seg;
                if seg.start < tx_start {
                    self.booking.insert(i, Segment { start: seg.start, end: tx_start, val: old_prio });
                    i = i + 1;
                    cur.start = tx_start;
                }
                let right_cut = cur.end > tx_end;
                if right_cut {
                    assert(i < self.booking.len());
                    self.booking.insert(i + 1, Segment { start: tx_end, end: cur.end, val: old_prio });
                    cur.end = tx_end;
                }
                cur.val = priority;
                self.booking.set(i, cur);
                assert(i < self.booking.len());
                i = i + 1;
                if right_cut {
                    // the piece after the window keeps its booking
                    assert(i < self.booking.len());
                    i = i + 1;
                }
                proof {
                    k = k + 1;
                }
                assert(self.booking@ =~= book(ob.take(k), tx_start, tx_end, priority) + ob.skip(k));
            }
        }
        proof {
            if done {
                lemma_book_rest_untouched(ob, k, tx_start, tx_end, priority);
            } else {
                assert(ob.take(k) =~= ob);
                assert(ob.skip(k) =~= Seq::<Segment<Priority>>::empty());
            }
        }
        assert(self.booking@ =~= book(ob, tx_start, tx_end, priority));
    }
}

impl BaseSegmentationManager for PSegmentationManager {
    /// Delegates to the inherent constructor.
    fn new(
        rate_intervals: Vec<Segment<DataRate>>,
        delay_intervals: Vec<Segment<Duration>>,
    ) -> (r: Self)
        ensures
            r.booking@ == Seq::<Segment<Priority>>::empty(),
            r.rate_intervals@ == rate_intervals@,
            r.delay_intervals@ == delay_intervals@,
            r.wf(),
    {
        PSegmentationManager::new(rate_intervals, delay_intervals)
    }
}

impl ContactManager for PSegmentationManager {
    open spec fn wf(&self) -> bool {
        &&& sorted_disjoint(self.booking@)
        &&& self.booking@.len() > 0 ==> sorted_disjoint(self.rate_intervals@)
    }

    open spec fn accepts(&self, contact_data: ContactInfo) -> bool {
        contact_data.start <= contact_data.end && covers_without_gap(
            self.rate_intervals@,
            contact_data.start,
            contact_data.end,
        ) && covers_without_gap(self.delay_intervals@, contact_data.start, contact_data.end)
    }

    open spec fn tx_spec(
        &self,
        contact_data: ContactInfo,
        at_time: Date,
        priority: Priority,
        size: Volume,
    ) -> Option<ContactManagerTxData> {
        self.booking_tx(contact_data.end, at_time, priority, size)
    }

    proof fn lemma_tx_not_before(&self, contact_data: ContactInfo, at_time: Date, priority: Priority, size: Volume) {
        law_pseg_window_below_priority(*self, contact_data.end, at_time, priority, size);
    }

    open spec fn booked(
        &self,
        next: Self,
        contact_data: ContactInfo,
        at_time: Date,
        priority: Priority,
        size: Volume,
    ) -> bool {
        &&& next.rate_intervals@ == self.rate_intervals@
        &&& next.delay_intervals@ == self.delay_intervals@
        &&& next.booking@ == match self.booking_tx(contact_data.end, at_time, priority, size) {
            Some(d) => book(self.booking@, d.tx_start, d.tx_end, priority),
            None => self.booking@,
        }
    }

    open spec fn initialised(&self, next: Self, contact_data: ContactInfo) -> bool {
        &&& next.rate_intervals@ == self.rate_intervals@
        &&& next.delay_intervals@ == self.delay_intervals@
        &&& next.booking@ == if self.accepts(contact_data) {
            seq![Segment { start: contact_data.start, end: contact_data.end, val: -1i8 }]
        } else {
            self.booking@
        }
    }

    /// The transmission that the first run of intervals booked below the bundle's
    /// priority, and long enough to hold it, gives.
    fn dry_run_tx(&self, contact_data: &ContactInfo, at_time: Date, bundle: &Bundle) -> (r: Option<
        ContactManagerTxData,
    >) {
        self.find_hold(contact_data.end, at_time, bundle)
    }

    /// Books the transmission that `dry_run_tx` gives at the bundle's priority.
    fn schedule_tx(&mut self, contact_data: &ContactInfo, at_time: Date, bundle: &Bundle) -> (r:
        Option<ContactManagerTxData>)
        ensures
            final(self).rate_intervals@ == old(self).rate_intervals@,
            final(self).delay_intervals@ == old(self).delay_intervals@,
            match r {
                Some(d) => final(self).booking@ == book(
                    old(self).booking@,
                    d.tx_start,
                    d.tx_end,
                    bundle.priority,
                ),
                None => final(self).booking@ == old(self).booking@,
            },
    {
        let out = self.find_hold(contact_data.end, at_time, bundle);
        match out {
            None => None,
            Some(d) => {
                proof {
                    lemma_book_sorted(self.booking@, d.tx_start, d.tx_end, bundle.priority);
                    if self.booking@.len() == 0 {
                        assert(self.hold_index(contact_data.end, at_time, bundle.priority, bundle.size)
                            is None);
                    }
                }
                self.book_window(d.tx_start, d.tx_end, bundle.priority);
                Some(d)
            },
        }
    }

    /// Books nothing over the whole contact, if the rate and delay intervals cover it without gap.
    fn try_init(&mut self, contact_data: &ContactInfo) -> (r: bool)
        ensures
            r ==> final(self).booking@ == seq![
                Segment { start: contact_data.start, end: contact_data.end, val: -1i8 },
            ],
            !r ==> final(self).booking@ == old(self).booking@,
            final(self).rate_intervals@ == old(self).rate_intervals@,
            final(self).delay_intervals@ == old(self).delay_intervals@,
    {
        try_init(&self.rate_intervals, &self.delay_intervals, &mut self.booking, -1, contact_data)
    }
}

/// The window that a priority segmentation manager gives stays valid until the
/// end of a booking interval after its end, and every booking interval met from
/// its start to that expiration is booked below the bundle's priority; over
/// sorted, disjoint delay segments it starts being received after the delay of
/// the segment holding its start and arrives after the delay of the segment
/// holding its end.
pub proof fn law_pseg_window_expiration(
    m: PSegmentationManager,
    contact_end: Date,
    at_time: Date,
    priority: Priority,
    size: Volume,
)
    requires
        sorted_disjoint(m.booking@),
    ensures
        m.booking_tx(contact_end, at_time, priority, size) matches Some(d) ==> {
            &&& d.tx_end < d.expiration
            &&& exists|k: int| 0 <= k < m.booking@.len() && #[trigger] m.booking@[k].end == d.expiration
            &&& forall|i: int|
                0 <= i < m.booking@.len() && m.booking@[i].start < d.expiration && m.booking@[i].end
                    > d.tx_start ==> #[trigger] m.booking@[i].val < priority
        },
        sorted_disjoint(m.delay_intervals@) ==> (m.booking_tx(contact_end, at_time, priority, size) matches Some(
            d,
        ) ==> {
            &&& forall|i: int|
                0 <= i < m.delay_intervals@.len() && m.delay_intervals@[i].start <= d.tx_start
                    < m.delay_intervals@[i].end ==> d.rx_start == sat_add(
                    d.tx_start,
                    #[trigger] m.delay_intervals@[i].val,
                )
            &&& forall|k: int|
                0 <= k < m.delay_intervals@.len() && m.delay_intervals@[k].start <= d.tx_end
                    < m.delay_intervals@[k].end ==> d.arrival == sat_add(
                    d.tx_end,
                    #[trigger] m.delay_intervals@[k].val,
                ) && d.delay == m.delay_intervals@[k].val
        }),
{
    let b = m.booking@;
    if exists|k: int| 0 <= k < b.len() && m.holds(k, contact_end, at_time, priority, size) {
        let k0 = choose|k: int| 0 <= k < b.len() && m.holds(k, contact_end, at_time, priority, size);
        m.lemma_first_hold_exists(k0, contact_end, at_time, priority, size);
        let k = m.hold_index(contact_end, at_time, priority, size)->0;
        let j = run_start(b, k, at_time, priority);
        lemma_run_start_bounds(b, k, at_time, priority);
        let tx_start = max_u64(b[j].start, at_time);
        lemma_tx_end_within_facts(m.rate_intervals@, tx_start, size, contact_end);
        if let Some(d) = m.booking_tx(contact_end, at_time, priority, size) {
            let tx_end = m.run_tx_end(k, contact_end, at_time, priority, size)->0;
            assert(d == tx_data(tx_start, tx_end, b[k].end, m.delay_intervals@));
            if sorted_disjoint(m.delay_intervals@) {
                law_tx_data_delays(tx_start, tx_end, b[k].end, m.delay_intervals@);
            }
            assert(b[k].end == d.expiration);
            assert forall|i: int|
                0 <= i < b.len() && b[i].start < d.expiration && b[i].end > d.tx_start implies #[trigger] b[i].val
                < priority by {
                if i < j {
                    assert(b[i].end <= b[j].start);
                } else if i > k {
                    assert(b[k].end <= b[i].start);
                } else {
                    lemma_run_usable(b, k, i, at_time, priority);
                }
            }
        }
    }
}

} // verus!
