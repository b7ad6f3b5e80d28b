use vstd::prelude::*;
use crate::bundle::Bundle;
use crate::contact::ContactInfo;
use crate::contact_manager::segmentation::{
    BaseSegmentationManager,
    get_tx_end,
    law_tx_data_delays,
    make_tx_data,
    covers_without_gap,
    is_earliest_end,
    lemma_tx_end_within_facts,
    sorted_disjoint,
    try_init,
    tx_data,
    tx_end_within,
    Segment,
};
use crate::contact_manager::{ContactManager, ContactManagerTxData};
use crate::types::{date_max, max_u64, sat_add, DataRate, Date, Duration, Priority, Volume};

verus! {

/// Manages contact segments, where each segment may have a distinct data rate and delay.
///
/// The free intervals are the parts of the contact still available for
/// transmission; a scheduled transmission is cut out of the first free interval
/// that can hold it.
#[derive(Debug)]
pub struct SegmentationManager {
    /// The intervals still available for transmission.
    pub free_intervals: Vec<Segment<()>>,
    /// The data rates over the contact.
    pub rate_intervals: Vec<Segment<DataRate>>,
    /// The delays over the contact.
    pub delay_intervals: Vec<Segment<Duration>>,
}

/// What the free interval `free` can give a transmission of `size` asked at `at_time`.
pub open spec fn free_candidate(
    free: Segment<()>,
    rates: Seq<Segment<DataRate>>,
    delays: Seq<Segment<Duration>>,
    at_time: Date,
    size: Volume,
) -> Option<ContactManagerTxData> {
    if free.end < at_time {
        None
    } else {
        let tx_start = max_u64(free.start, at_time);
        match tx_end_within(rates, tx_start, size, free.end) {
            Some(tx_end) => Some(tx_data(tx_start, tx_end, free.end, delays)),
            None => None,
        }
    }
}

/// The free intervals once `[tx_start, tx_end]` is cut out of the one at `i`.
pub open spec fn cut_free(f: Seq<Segment<()>>, i: int, tx_start: Date, tx_end: Date) -> Seq<
    Segment<()>,
> {
    if f[i].start != tx_start {
        f.take(i) + seq![
            Segment { start: f[i].start, end: tx_start, val: () },
            Segment { start: tx_end, end: f[i].end, val: () },
        ] + f.skip(i + 1)
    } else {
        f.take(i) + seq![Segment { start: tx_end, end: f[i].end, val: () }] + f.skip(i + 1)
    }
}

/// `t` lies in one of the intervals of `f`.
pub open spec fn is_free_at(f: Seq<Segment<()>>, t: int) -> bool {
    exists|i: int| 0 <= i < f.len() && f[i].start <= t < #[trigger] f[i].end
}

impl SegmentationManager {
    /// Creates a manager with the given rate and delay intervals and no free interval.
    pub fn new(
        rate_intervals: Vec<Segment<DataRate>>,
        delay_intervals: Vec<Segment<Duration>>,
    ) -> (r: Self)
        ensures
            r.free_intervals@ == Seq::<Segment<()>>::empty(),
            r.rate_intervals@ == rate_intervals@,
            r.delay_intervals@ == delay_intervals@,
            r.wf(),
    {
        let free_intervals = Vec::new();
        SegmentationManager { free_intervals, rate_intervals, delay_intervals }
    }

    /// The free interval at `i` can hold the transmission.
    pub open spec fn fits(&self, i: int, at_time: Date, size: Volume) -> bool {
        free_candidate(
            self.free_intervals@[i],
            self.rate_intervals@,
            self.delay_intervals@,
            at_time,
            size,
        ) is Some
    }

    /// The first free interval that can hold the transmission.
    pub open spec fn fit_index(&self, at_time: Date, size: Volume) -> Option<int> {
        if exists|i: int| 0 <= i < self.free_intervals@.len() && self.fits(i, at_time, size) {
            Some(
                choose|i: int|
                    0 <= i < self.free_intervals@.len() && self.fits(i, at_time, size) && forall|
                        j: int,
                    |
                        0 <= j < i ==> !self.fits(j, at_time, size),
            )
        } else {
            None
        }
    }

    /// The transmission that the first fitting free interval gives.
    pub open spec fn first_fit(&self, at_time: Date, size: Volume) -> Option<ContactManagerTxData> {
        match self.fit_index(at_time, size) {
            Some(i) => free_candidate(
                self.free_intervals@[i],
                self.rate_intervals@,
                self.delay_intervals@,
                at_time,
                size,
            ),
            None => None,
        }
    }

    proof fn lemma_fit_index_is(&self, i: int, at_time: Date, size: Volume)
        requires
            0 <= i < self.free_intervals@.len(),
            self.fits(i, at_time, size),
            forall|j: int| 0 <= j < i ==> !self.fits(j, at_time, size),
        ensures
            self.fit_index(at_time, size) == Some(i),
    {
        let k = choose|k: int|
            0 <= k < self.free_intervals@.len() && self.fits(k, at_time, size) && forall|j: int|
                0 <= j < k ==> !self.fits(j, at_time, size);
        if k < i {
            assert(!self.fits(k, at_time, size));
        } else if i < k {
            assert(!self.fits(i, at_time, size));
        }
    }

    /// Finds the first free interval that can hold the transmission, and what it gives.
    fn find_fit(&self, at_time: Date, bundle: &Bundle) -> (r: Option<(usize, ContactManagerTxData)>)
        requires
            self.wf(),
        ensures
            match r {
                Some((i, d)) => {
                    &&& self.fit_index(at_time, bundle.size) == Some(i as int)
                    &&& self.first_fit(at_time, bundle.size) == Some(d)
                    &&& i < self.free_intervals@.len()
                    &&& self.free_intervals@[i as int].start <= d.tx_start <= d.tx_end
                        <= self.free_intervals@[i as int].end
                    &&& d.expiration == self.free_intervals@[i as int].end
                },
                None => self.fit_index(at_time, bundle.size) is None,
            },
    {
        let mut i: usize = 0;
        while i < self.free_intervals.len()
            invariant
                self.wf(),
                0 <= i <= self.free_intervals@.len(),
                forall|j: int| 0 <= j < i ==> !self.fits(j, at_time, bundle.size),
            decreases self.free_intervals@.len() - i,
        {
            let free_seg = &self.free_intervals[i];
            if free_seg.end >= at_time {
                let tx_start = date_max(free_seg.start, at_time);
                match get_tx_end(&self.rate_intervals, tx_start, bundle.size, free_seg.end) {
                    Some(tx_end) => {
                        let d = make_tx_data(tx_start, tx_end, free_seg.end, &self.delay_intervals);
                        proof {
                            self.lemma_fit_index_is(i as int, at_time, bundle.size);
                        }
                        return Some((i, d));
                    },
                    None => {},
                }
            }
            i = i + 1;
        }
        None
    }
}

impl SegmentationManager {
    /// Removes `[tx_start, tx_end]` from the free interval at `index`.
    fn cut_out(&mut self, index: usize, tx_start: Date, tx_end: Date)
        requires
            sorted_disjoint(old(self).free_intervals@),
            index < old(self).free_intervals@.len(),
            old(self).free_intervals@[index as int].start <= tx_start <= tx_end
                <= old(self).free_intervals@[index as int].end,
        ensures
            final(self).free_intervals@ == cut_free(old(self).free_intervals@, index as int, tx_start, tx_end),
            sorted_disjoint(final(self).free_intervals@),
            final(self).rate_intervals@ == old(self).rate_intervals@,
            final(self).delay_intervals@ == old(self).delay_intervals@,
    {
        let ghost f = self.free_intervals@;
        let start = self.free_intervals[index].start;
        let expiration = self.free_intervals[index].end;
        proof {
            lemma_cut_free_sorted(f, index as int, tx_start, tx_end);
        }
        if start != tx_start {
            self.free_intervals.set(index, Segment { start, end: tx_start, val: () });
            assert(index < self.free_intervals.len());
            self.free_intervals.insert(index + 1, Segment { start: tx_end, end: expiration, val: () });
        } else {
            self.free_intervals.set(index, Segment { start: tx_end, end: expiration, val: () });
        }
        assert(self.free_intervals@ =~= cut_free(f, index as int, tx_start, tx_end));
    }
}

impl SegmentationManager {
    /// Where some free interval can hold the transmission, a first one does.
    pub proof fn lemma_first_fit_exists(&self, i: int, at_time: Date, size: Volume)
        requires
            0 <= i < self.free_intervals@.len(),
            self.fits(i, at_time, size),
        ensures
            exists|k: int|
                0 <= k < self.free_intervals@.len() && self.fits(k, at_time, size) && forall|j: int|
                    0 <= j < k ==> !self.fits(j, at_time, size),
        decreases i,
    {
        if !(forall|j: int| 0 <= j < i ==> !self.fits(j, at_time, size)) {
            let j = choose|j: int| 0 <= j < i && self.fits(j, at_time, size);
            self.lemma_first_fit_exists(j, at_time, size);
        }
    }
}

/// The transmission that a segmentation manager gives lies within the first
/// free interval that can hold it, starts no earlier than asked, and is over at
/// the earliest date the rates allow from its start.
pub proof fn law_seg_tx_within_free_interval(m: SegmentationManager, at_time: Date, size: Volume)
    ensures
        m.first_fit(at_time, size) matches Some(d) ==> (m.fit_index(at_time, size) matches Some(i) && {
            let f = m.free_intervals@[i];
            &&& 0 <= i < m.free_intervals@.len()
            &&& f.start <= d.tx_start <= d.tx_end <= f.end
            &&& at_time <= d.tx_start
            &&& d.expiration == f.end
            &&& is_earliest_end(m.rate_intervals@, d.tx_start, size, d.tx_end)
            &&& d.arrival == sat_add(d.tx_end, d.delay)
        }),
{
    if exists|i: int| 0 <= i < m.free_intervals@.len() && m.fits(i, at_time, size) {
        let i0 = choose|i: int| 0 <= i < m.free_intervals@.len() && m.fits(i, at_time, size);
        m.lemma_first_fit_exists(i0, at_time, size);
        let i = m.fit_index(at_time, size)->0;
        let f = m.free_intervals@[i];
        let tx_start = max_u64(f.start, at_time);
        lemma_tx_end_within_facts(m.rate_intervals@, tx_start, size, f.end);
    }
}

/// Booking the transmission that a segmentation manager gives takes exactly
/// its window `[tx_start, tx_end)` out of what is free.
pub proof fn law_seg_schedule_takes_window(m: SegmentationManager, at_time: Date, size: Volume, t: int)
    requires
        m.wf(),
    ensures
        m.first_fit(at_time, size) matches Some(d) ==> (m.fit_index(at_time, size) matches Some(i) && (
        is_free_at(cut_free(m.free_intervals@, i, d.tx_start, d.tx_end), t) <==> (is_free_at(
            m.free_intervals@,
            t,
        ) && !(d.tx_start <= t < d.tx_end)))),
{
    law_seg_tx_within_free_interval(m, at_time, size);
    if let Some(d) = m.first_fit(at_time, size) {
        let i = m.fit_index(at_time, size)->0;
        lemma_cut_free_region(m.free_intervals@, i, d.tx_start, d.tx_end, t);
    }
}

/// Cutting a transmission window out of a free interval keeps the free intervals sorted and disjoint.
pub proof fn lemma_cut_free_sorted(f: Seq<Segment<()>>, i: int, tx_start: Date, tx_end: Date)
    requires
        sorted_disjoint(f),
        0 <= i < f.len(),
        f[i].start <= tx_start <= tx_end <= f[i].end,
    ensures
        sorted_disjoint(cut_free(f, i, tx_start, tx_end)),
{
    let g = cut_free(f, i, tx_start, tx_end);
    let m: int = if f[i].start != tx_start { 2 } else { 1 };
    assert(g.len() == f.len() + m - 1);
    assert forall|k: int| 0 <= k < g.len() implies g[k] == (if k < i {
        f[k]
    } else if k >= i + m {
        f[k - m + 1]
    } else {
        g[k]
    }) by {}
    assert forall|k: int| 0 <= k < g.len() implies #[trigger] g[k].start <= g[k].end by {
        if k < i {
            assert(g[k] == f[k]);
        } else if k >= i + m {
            assert(g[k] == f[k - m + 1]);
        }
    }
    assert forall|a: int, b: int| 0 <= a < b < g.len() implies #[trigger] g[a].end
        <= #[trigger] g[b].start by {
        if a < i {
            assert(g[a] == f[a]);
            if b < i {
                assert(g[b] == f[b]);
            } else if b >= i + m {
                assert(g[b] == f[b - m + 1]);
            } else {
                assert(f[a].end <= f[i].start);
            }
        } else if a >= i + m {
            assert(g[a] == f[a - m + 1]);
            assert(g[b] == f[b - m + 1]);
        } else {
            if b >= i + m {
                assert(g[b] == f[b - m + 1]);
                assert(f[i].end <= f[b - m + 1].start);
            }
        }
    }
}

/// Cutting `[tx_start, tx_end]` out of the free intervals frees exactly what was
/// free outside of that window.
pub proof fn lemma_cut_free_region(
    f: Seq<Segment<()>>,
    i: int,
    tx_start: Date,
    tx_end: Date,
    t: int,
)
    requires
        sorted_disjoint(f),
        0 <= i < f.len(),
        f[i].start <= tx_start <= tx_end <= f[i].end,
    ensures
        is_free_at(cut_free(f, i, tx_start, tx_end), t) <==> (is_free_at(f, t) && !(tx_start <= t
            < tx_end)),
{
    let g = cut_free(f, i, tx_start, tx_end);
    let m: int = if f[i].start != tx_start { 2 } else { 1 };
    if is_free_at(g, t) {
        let k = choose|k: int| 0 <= k < g.len() && g[k].start <= t < #[trigger] g[k].end;
        if k < i {
            assert(g[k] == f[k]);
            assert(f[k].end <= f[i].start);
        } else if k >= i + m {
            assert(g[k] == f[k - m + 1]);
            assert(f[i].end <= f[k - m + 1].start);
        } else {
            assert(f[i].start <= t < f[i].end);
        }
    }
    if is_free_at(f, t) && !(tx_start <= t < tx_end) {
        let k = choose|k: int| 0 <= k < f.len() && f[k].start <= t < #[trigger] f[k].end;
        if k < i {
            assert(g[k] == f[k]);
        } else if k > i {
            assert(g[k + m - 1] == f[k]);
        } else {
            if t < tx_start {
                assert(g[i].start <= t < g[i].end);
            } else {
                assert(g[i + m - 1].start <= t < g[i + m - 1].end);
            }
        }
    }
}

impl BaseSegmentationManager for SegmentationManager {
    /// Delegates to the inherent constructor.
    fn new(
        rate_intervals: Vec<Segment<DataRate>>,
        delay_intervals: Vec<Segment<Duration>>,
    ) -> (r: Self)
        ensures
            r.free_intervals@ == Seq::<Segment<()>>::empty(),
            r.rate_intervals@ == rate_intervals@,
            r.delay_intervals@ == delay_intervals@,
            r.wf(),
    {
        SegmentationManager::new(rate_intervals, delay_intervals)
    }
}

impl ContactManager for SegmentationManager {
    open spec fn wf(&self) -> bool {
        &&& sorted_disjoint(self.free_intervals@)
        &&& self.free_intervals@.len() > 0 ==> sorted_disjoint(self.rate_intervals@)
    }

    open spec fn accepts(&self, contact_data: ContactInfo) -> bool {
        contact_data.start <= contact_data.end && covers_without_gap(
            self.rate_intervals@,
            contact_data.start,
            contact_data.end,
        ) && covers_without_gap(self.delay_intervals@, contact_data.start, contact_data.end)
    }

    open spec fn tx_spec(
        &self,
        contact_data: ContactInfo,
        at_time: Date,
        priority: Priority,
        size: Volume,
    ) -> Option<ContactManagerTxData> {
        self.first_fit(at_time, size)
    }

    proof fn lemma_tx_not_before(&self, contact_data: ContactInfo, at_time: Date, priority: Priority, size: Volume) {
        law_seg_tx_within_free_interval(*self, at_time, size);
    }

    open spec fn booked(
        &self,
        next: Self,
        contact_data: ContactInfo,
        at_time: Date,
        priority: Priority,
        size: Volume,
    ) -> bool {
        &&& next.rate_intervals@ == self.rate_intervals@
        &&& next.delay_intervals@ == self.delay_intervals@
        &&& match (self.fit_index(at_time, size), self.first_fit(at_time, size)) {
            (Some(i), Some(d)) => next.free_intervals@ == cut_free(self.free_intervals@, i, d.tx_start, d.tx_end),
            _ => next.free_intervals@ == self.free_intervals@,
        }
    }

    open spec fn initialised(&self, next: Self, contact_data: ContactInfo) -> bool {
        &&& next.rate_intervals@ == self.rate_intervals@
        &&& next.delay_intervals@ == self.delay_intervals@
        &&& next.free_intervals@ == if self.accepts(contact_data) {
            seq![Segment { start: contact_data.start, end: contact_data.end, val: () }]
        } else {
            self.free_intervals@
        }
    }

    /// The transmission that the first free interval able to hold the bundle gives.
    fn dry_run_tx(&self, _contact_data: &ContactInfo, at_time: Date, bundle: &Bundle) -> (r: Option<
        ContactManagerTxData,
    >) {
        match self.find_fit(at_time, bundle) {
            Some((_i, d)) => Some(d),
            None => None,
        }
    }

    /// Books the transmission that `dry_run_tx` gives by cutting it out of its free interval.
    fn schedule_tx(&mut self, _contact_data: &ContactInfo, at_time: Date, bundle: &Bundle) -> (r:
        Option<ContactManagerTxData>)
        ensures
            final(self).rate_intervals@ == old(self).rate_intervals@,
            final(self).delay_intervals@ == old(self).delay_intervals@,
            match (old(self).fit_index(at_time, bundle.size), r) {
                (Some(i), Some(d)) => final(self).free_intervals@ == cut_free(
                    old(self).free_intervals@,
                    i,
                    d.tx_start,
                    d.tx_end,
                ),
                _ => final(self).free_intervals@ == old(self).free_intervals@,
            },
    {
        let found = self.find_fit(at_time, bundle);
        match found {
            None => None,
            Some((index, d)) => {
                self.cut_out(index, d.tx_start, d.tx_end);
                Some(d)
            },
        }
    }

    /// Makes the whole contact free, if the rate and delay intervals cover it without gap.
    fn try_init(&mut self, contact_data: &ContactInfo) -> (r: bool)
        ensures
            r ==> final(self).free_intervals@ == seq![
                Segment { start: contact_data.start, end: contact_data.end, val: () },
            ],
            !r ==> final(self).free_intervals@ == old(self).free_intervals@,
            final(self).rate_intervals@ == old(self).rate_intervals@,
            final(self).delay_intervals@ == old(self).delay_intervals@,
    {
        try_init(
            &self.rate_intervals,
            &self.delay_intervals,
            &mut self.free_intervals,
            (),
            contact_data,
        )
    }
}

/// Over sorted, disjoint delay segments, the transmission that a segmentation
/// manager gives starts being received after the delay of the segment holding
/// its start, and arrives after the delay of the segment holding its end.
pub proof fn law_seg_reception_delays(m: SegmentationManager, at_time: Date, size: Volume)
    requires
        sorted_disjoint(m.delay_intervals@),
    ensures
        m.first_fit(at_time, size) matches Some(d) ==> {
            &&& forall|i: int|
                0 <= i < m.delay_intervals@.len() && m.delay_intervals@[i].start <= d.tx_start
                    < m.delay_intervals@[i].end ==> d.rx_start == sat_add(
                    d.tx_start,
                    #[trigger] m.delay_intervals@[i].val,
                )
            &&& forall|k: int|
                0 <= k < m.delay_intervals@.len() && m.delay_intervals@[k].start <= d.tx_end
                    < m.delay_intervals@[k].end ==> d.arrival == sat_add(
                    d.tx_end,
                    #[trigger] m.delay_intervals@[k].val,
                ) && d.delay == m.delay_intervals@[k].val
        },
{
    if let Some(i) = m.fit_index(at_time, size) {
        let f = m.free_intervals@[i];
        if let Some(d) = m.first_fit(at_time, size) {
            let tx_start = max_u64(f.start, at_time);
            let tx_end = tx_end_within(m.rate_intervals@, tx_start, size, f.end)->0;
            assert(d == tx_data(tx_start, tx_end, f.end, m.delay_intervals@));
            law_tx_data_delays(tx_start, tx_end, f.end, m.delay_intervals@);
        }
    }
}

} // verus!
