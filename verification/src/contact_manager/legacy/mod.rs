use vstd::prelude::*;
use crate::bundle::Bundle;
use crate::contact::ContactInfo;
use crate::contact_manager::{ContactManager, ContactManagerTxData};
use crate::types::{date_max, max_u64, sat_add, DataRate, Date, Duration, Priority, Volume};

pub mod eto;
pub mod evl;

verus! {

/// A contact manager that only tracks volumes: a constant rate and delay over
/// the contact, and the volume queued for transmission at each priority level.
///
/// * `QUEUE_DELAY`: the transmission starts once the volume queued ahead of the
///   bundle has been sent (otherwise the queue only takes volume).
/// * `AUTO_UPDATE`: a scheduled bundle is added to the queue.
/// * `LEVELS`: the number of priority levels (one level ignores priorities).
/// * `BUDGETED`: each level may hold no more than its budget.
#[derive(Debug)]
pub struct PrioVolumeManager<
    const QUEUE_DELAY: bool,
    const AUTO_UPDATE: bool,
    const LEVELS: usize,
    const BUDGETED: bool,
> {
    /// The data rate of the contact.
    pub rate: DataRate,
    /// The propagation delay of the contact.
    pub delay: Duration,
    /// The volume queued at each priority level.
    pub queue_size: Vec<Volume>,
    /// The most volume that each priority level may hold (when budgeted).
    pub budgets: Vec<Volume>,
}

/// The volume queued at `level` and above.
pub open spec fn queued_from(q: Seq<Volume>, level: int) -> int
    decreases q.len() - level,
{
    if level < 0 || level >= q.len() {
        0
    } else {
        q[level] + queued_from(q, level + 1)
    }
}

/// `a / r`, rounded up.
pub open spec fn ceil_div(a: int, r: int) -> int {
    (a + r - 1) / r
}

impl<
    const QUEUE_DELAY: bool,
    const AUTO_UPDATE: bool,
    const LEVELS: usize,
    const BUDGETED: bool,
> PrioVolumeManager<QUEUE_DELAY, AUTO_UPDATE, LEVELS, BUDGETED> {
    /// The queue level that a bundle of `priority` goes to, if there is one.
    pub open spec fn level_of(priority: Priority) -> Option<int> {
        if LEVELS == 1 {
            Some(0)
        } else if 0 <= priority < LEVELS {
            Some(priority as int)
        } else {
            None
        }
    }

    /// The transmission that a bundle of `priority` and `size` asked at `at_time` is given.
    pub open spec fn volume_tx(
        &self,
        contact_data: ContactInfo,
        at_time: Date,
        priority: Priority,
        size: Volume,
    ) -> Option<ContactManagerTxData> {
        match Self::level_of(priority) {
            None => None,
            Some(level) => {
                let t0 = max_u64(contact_data.start, at_time);
                let q = queued_from(self.queue_size@, level);
                if self.rate == 0 {
                    None
                } else if BUDGETED && self.queue_size@[level] + size > self.budgets@[level] {
                    None
                } else if q + size > self.rate * (contact_data.end - t0) {
                    None
                } else {
                    let tx_start = if QUEUE_DELAY {
                        (t0 + ceil_div(q, self.rate as int)) as Date
                    } else {
                        t0
                    };
                    let tx_end = if QUEUE_DELAY {
                        (t0 + ceil_div(q + size, self.rate as int)) as Date
                    } else {
                        (t0 + ceil_div(size as int, self.rate as int)) as Date
                    };
                    Some(
                        ContactManagerTxData {
                            tx_start,
                            tx_end,
                            delay: self.delay,
                            expiration: contact_data.end,
                            arrival: sat_add(tx_end, self.delay),
                            rx_start: sat_add(tx_start, self.delay),
                            rx_end: sat_add(tx_end, self.delay),
                        },
                    )
                }
            },
        }
    }

    /// The queue level that a bundle of `priority` goes to, if there is one.
    fn level(priority: Priority) -> (r: Option<usize>)
        ensures
            r matches Some(l) ==> Self::level_of(priority) == Some(l as int),
            r is None ==> Self::level_of(priority) is None,
    {
        if LEVELS == 1 {
            Some(0)
        } else if 0 <= priority && (priority as usize) < LEVELS {
            Some(priority as usize)
        } else {
            None
        }
    }

    /// The volume queued at `level` and above.
    fn queued(&self, level: usize) -> (r: u128)
        ensures
            r == queued_from(self.queue_size@, level as int),
            r <= self.queue_size@.len() * 0xffff_ffff_ffff_ffffu128,
    {
        let n = self.queue_size.len();
        let mut total: u128 = 0;
        let mut i: usize = level;
        while i < n
            invariant
                n == self.queue_size@.len(),
                level <= i <= n || (i == level && level > n),
                total + queued_from(self.queue_size@, i as int) == queued_from(
                    self.queue_size@,
                    level as int,
                ),
                total <= (i - level) * 0xffff_ffff_ffff_ffff,
            decreases n - i,
        {
            total = total + self.queue_size[i] as u128;
            i = i + 1;
        }
        total
    }
}

impl<
    const QUEUE_DELAY: bool,
    const AUTO_UPDATE: bool,
    const LEVELS: usize,
    const BUDGETED: bool,
> PrioVolumeManager<QUEUE_DELAY, AUTO_UPDATE, LEVELS, BUDGETED> {
    /// Computes the transmission that `volume_tx` describes.
    fn compute_tx(&self, contact_data: &ContactInfo, at_time: Date, bundle: &Bundle) -> (r: Option<
        ContactManagerTxData,
    >)
        requires
            self.wf(),
        ensures
            r == self.volume_tx(*contact_data, at_time, bundle.priority, bundle.size),
    {
        let level = match Self::level(bundle.priority) {
            None => {
                return None;
            },
            Some(l) => l,
        };
        if self.rate == 0 {
            return None;
        }
        let t0 = date_max(contact_data.start, at_time);
        let q = self.queued(level);
        let size = bundle.size;
        if BUDGETED && (self.queue_size[level] as u128) + (size as u128)
            > (self.budgets[level] as u128) {
            return None;
        }
        if t0 > contact_data.end {
            assert(self.rate * (contact_data.end - t0) < 0) by (nonlinear_arith)
                requires
                    self.rate > 0,
                    contact_data.end - t0 < 0,
            ;
            return None;
        }
        let span: u64 = contact_data.end - t0;
        assert((self.rate as int) * (span as int) <= 0xffff_ffff_ffff_ffff_ffff_ffff_ffff_ffffint)
            by (nonlinear_arith)
            requires
                self.rate <= 0xffff_ffff_ffff_ffff,
                span <= 0xffff_ffff_ffff_ffff,
        ;
        let cap: u128 = (self.rate as u128) * (span as u128);
        if q + (size as u128) > cap {
            return None;
        }
        let r: u128 = self.rate as u128;
        proof {
            lemma_ceil_within(q as int, r as int, span as int);
            lemma_ceil_within(q + size, r as int, span as int);
            lemma_ceil_within(size as int, r as int, span as int);
        }
        let tx_start: Date = if QUEUE_DELAY {
            t0 + ((q + r - 1) / r) as u64
        } else {
            t0
        };
        let tx_end: Date = if QUEUE_DELAY {
            t0 + ((q + size as u128 + r - 1) / r) as u64
        } else {
            t0 + ((size as u128 + r - 1) / r) as u64
        };
        Some(
            ContactManagerTxData {
                tx_start,
                tx_end,
                delay: self.delay,
                expiration: contact_data.end,
                arrival: tx_end.saturating_add(self.delay),
                rx_start: tx_start.saturating_add(self.delay),
                rx_end: tx_end.saturating_add(self.delay),
            },
        )
    }

    /// Adds the volume of `bundle` to the queue of its level, as a transmission
    /// that is known to be pending without having been scheduled here.
    pub fn manual_enqueue(&mut self, bundle: &Bundle)
        requires
            old(self).wf(),
        ensures
            final(self).wf(),
            final(self).rate == old(self).rate,
            final(self).delay == old(self).delay,
            final(self).budgets@ == old(self).budgets@,
            final(self).queue_size@ == match Self::level_of(bundle.priority) {
                Some(l) => old(self).queue_size@.update(
                    l,
                    sat_add(old(self).queue_size@[l], bundle.size),
                ),
                None => old(self).queue_size@,
            },
    {
        if let Some(level) = Self::level(bundle.priority) {
            let v = self.queue_size[level].saturating_add(bundle.size);
            self.queue_size.set(level, v);
        }
    }
}

/// Rounding `a / r` up stays within `d` when `a` fits in `r * d`.
pub proof fn lemma_ceil_within(a: int, r: int, d: int)
    requires
        0 <= a,
        0 < r,
        0 <= d,
        a <= r * d,
    ensures
        0 <= ceil_div(a, r) <= d,
        r * ceil_div(a, r) >= a,
{
    assert(0 <= (a + r - 1) / r <= d && r * ((a + r - 1) / r) >= a) by (nonlinear_arith)
        requires
            0 <= a,
            0 < r,
            0 <= d,
            a <= r * d,
    ;
}

impl<
    const QUEUE_DELAY: bool,
    const AUTO_UPDATE: bool,
    const LEVELS: usize,
    const BUDGETED: bool,
> ContactManager for PrioVolumeManager<QUEUE_DELAY, AUTO_UPDATE, LEVELS, BUDGETED> {
    open spec fn wf(&self) -> bool {
        &&& self.queue_size@.len() == LEVELS
        &&& BUDGETED ==> self.budgets@.len() == LEVELS
    }

    open spec fn accepts(&self, contact_data: ContactInfo) -> bool {
        contact_data.start <= contact_data.end
    }

    open spec fn tx_spec(
        &self,
        contact_data: ContactInfo,
        at_time: Date,
        priority: Priority,
        size: Volume,
    ) -> Option<ContactManagerTxData> {
        self.volume_tx(contact_data, at_time, priority, size)
    }

    proof fn lemma_tx_not_before(&self, contact_data: ContactInfo, at_time: Date, priority: Priority, size: Volume) {
        law_granted_fits_volume(*self, contact_data, at_time, priority, size);
        if let Some(d) = self.volume_tx(contact_data, at_time, priority, size) {
            let l = Self::level_of(priority)->0;
            let t0 = max_u64(contact_data.start, at_time);
            let q = queued_from(self.queue_size@, l);
            lemma_queued_from_nonneg(self.queue_size@, l);
            let span = contact_data.end - t0;
            assert(span >= 0) by (nonlinear_arith)
                requires
                    self.rate > 0,
                    q + size <= self.rate * span,
                    q >= 0,
            ;
            lemma_ceil_within(q, self.rate as int, span);
        }
    }

    open spec fn booked(
        &self,
        next: Self,
        contact_data: ContactInfo,
        at_time: Date,
        priority: Priority,
        size: Volume,
    ) -> bool {
        &&& next.rate == self.rate
        &&& next.delay == self.delay
        &&& next.budgets@ == self.budgets@
        &&& next.queue_size@ == match (
            AUTO_UPDATE,
            self.volume_tx(contact_data, at_time, priority, size),
            Self::level_of(priority),
        ) {
            (true, Some(_), Some(l)) => self.queue_size@.update(l, sat_add(self.queue_size@[l], size)),
            _ => self.queue_size@,
        }
    }

    open spec fn initialised(&self, next: Self, contact_data: ContactInfo) -> bool {
        next == *self
    }

    /// The transmission that the volume left on the contact gives the bundle.
    fn dry_run_tx(&self, contact_data: &ContactInfo, at_time: Date, bundle: &Bundle) -> (r: Option<
        ContactManagerTxData,
    >) {
        self.compute_tx(contact_data, at_time, bundle)
    }

    /// The transmission that `dry_run_tx` gives; with `AUTO_UPDATE`, the bundle
    /// is then added to the queue of its level.
    fn schedule_tx(&mut self, contact_data: &ContactInfo, at_time: Date, bundle: &Bundle) -> (r:
        Option<ContactManagerTxData>)
        ensures
            final(self).rate == old(self).rate,
            final(self).delay == old(self).delay,
            final(self).budgets@ == old(self).budgets@,
            final(self).queue_size@ == match (AUTO_UPDATE, r, Self::level_of(bundle.priority)) {
                (true, Some(_), Some(l)) => old(self).queue_size@.update(
                    l,
                    sat_add(old(self).queue_size@[l], bundle.size),
                ),
                _ => old(self).queue_size@,
            },
    {
        let r = self.compute_tx(contact_data, at_time, bundle);
        if AUTO_UPDATE && r.is_some() {
            self.manual_enqueue(bundle);
        }
        r
    }

    /// Accepts a contact that does not close before it opens; the state is left as it is.
    fn try_init(&mut self, contact_data: &ContactInfo) -> (r: bool)
        ensures
            r == (contact_data.start <= contact_data.end),
            *final(self) == *old(self),
    {
        contact_data.start <= contact_data.end
    }
}

impl<const QUEUE_DELAY: bool, const AUTO_UPDATE: bool> PrioVolumeManager<
    QUEUE_DELAY,
    AUTO_UPDATE,
    1,
    false,
> {
    /// Creates a manager for a contact of constant `rate` and `delay`, with an empty queue.
    pub fn new(rate: DataRate, delay: Duration) -> (r: Self)
        ensures
            r.wf(),
            r.rate == rate,
            r.delay == delay,
            r.queue_size@ == seq![0u64],
    {
        let queue_size = vec![0];
        PrioVolumeManager { rate, delay, queue_size, budgets: Vec::new() }
    }
}

impl<const QUEUE_DELAY: bool, const AUTO_UPDATE: bool> PrioVolumeManager<
    QUEUE_DELAY,
    AUTO_UPDATE,
    3,
    false,
> {
    /// Creates a manager for a contact of constant `rate` and `delay`, with three
    /// empty priority queues.
    pub fn new(rate: DataRate, delay: Duration) -> (r: Self)
        ensures
            r.wf(),
            r.rate == rate,
            r.delay == delay,
            r.queue_size@ == seq![0u64, 0u64, 0u64],
    {
        let queue_size = vec![0, 0, 0];
        PrioVolumeManager { rate, delay, queue_size, budgets: Vec::new() }
    }
}

impl<const QUEUE_DELAY: bool, const AUTO_UPDATE: bool> PrioVolumeManager<
    QUEUE_DELAY,
    AUTO_UPDATE,
    3,
    true,
> {
    /// Creates a manager for a contact of constant `rate` and `delay`, with three
    /// empty priority queues, each bounded by its budget.
    pub fn new(rate: DataRate, delay: Duration, budgets: [Volume; 3]) -> (r: Self)
        ensures
            r.wf(),
            r.rate == rate,
            r.delay == delay,
            r.queue_size@ == seq![0u64, 0u64, 0u64],
            r.budgets@ == budgets@,
    {
        let queue_size = vec![0, 0, 0];
        let b = vec![budgets[0], budgets[1], budgets[2]];
        assert(b@ =~= budgets@);
        PrioVolumeManager { rate, delay, queue_size, budgets: b }
    }
}

/// More volume queued at every level means no less queued from any level.
pub proof fn lemma_queued_from_mono(q1: Seq<Volume>, q2: Seq<Volume>, level: int)
    requires
        q1.len() == q2.len(),
        forall|i: int| 0 <= i < q1.len() ==> #[trigger] q1[i] <= q2[i],
    ensures
        queued_from(q1, level) <= queued_from(q2, level),
    decreases q1.len() - level,
{
    if 0 <= level < q1.len() {
        lemma_queued_from_mono(q1, q2, level + 1);
    }
}

/// Rounding up a quotient keeps the order of the dividends.
pub proof fn lemma_ceil_div_mono(a1: int, a2: int, r: int)
    requires
        a1 <= a2,
        0 < r,
    ensures
        ceil_div(a1, r) <= ceil_div(a2, r),
{
    vstd::arithmetic::div_mod::lemma_div_is_ordered(a1 + r - 1, a2 + r - 1, r);
}

/// Without queue delay, the queue never delays a transmission: it starts as
/// soon as the contact is open and the transmission is asked for.
pub proof fn law_no_queue_delay_start<const AUTO_UPDATE: bool, const LEVELS: usize, const BUDGETED: bool>(
    m: PrioVolumeManager<false, AUTO_UPDATE, LEVELS, BUDGETED>,
    contact_data: ContactInfo,
    at_time: Date,
    priority: Priority,
    size: Volume,
)
    ensures
        m.volume_tx(contact_data, at_time, priority, size) matches Some(d) ==> d.tx_start == max_u64(
            contact_data.start,
            at_time,
        ),
{
}

/// A granted transmission fits, with all the volume queued at its level and
/// above, in what the contact can still send from the time it is asked for.
pub proof fn law_granted_fits_volume<
    const QUEUE_DELAY: bool,
    const AUTO_UPDATE: bool,
    const LEVELS: usize,
    const BUDGETED: bool,
>(
    m: PrioVolumeManager<QUEUE_DELAY, AUTO_UPDATE, LEVELS, BUDGETED>,
    contact_data: ContactInfo,
    at_time: Date,
    priority: Priority,
    size: Volume,
)
    ensures
        m.volume_tx(contact_data, at_time, priority, size) matches Some(d) ==> (
        PrioVolumeManager::<QUEUE_DELAY, AUTO_UPDATE, LEVELS, BUDGETED>::level_of(priority) matches Some(
            l,
        ) && queued_from(m.queue_size@, l) + size <= m.rate * (contact_data.end - max_u64(
            contact_data.start,
            at_time,
        )) && d.tx_start <= d.tx_end <= contact_data.end && (BUDGETED ==> m.queue_size@[l] + size
            <= m.budgets@[l])),
{
    if let Some(d) = m.volume_tx(contact_data, at_time, priority, size) {
        let l = PrioVolumeManager::<QUEUE_DELAY, AUTO_UPDATE, LEVELS, BUDGETED>::level_of(priority)->0;
        let t0 = max_u64(contact_data.start, at_time);
        let q = queued_from(m.queue_size@, l);
        lemma_queued_from_nonneg(m.queue_size@, l);
        let span = contact_data.end - t0;
        assert(span >= 0) by (nonlinear_arith)
            requires
                m.rate > 0,
                q + size <= m.rate * span,
                q >= 0,
        ;
        lemma_ceil_within(q, m.rate as int, span);
        lemma_ceil_within(q + size, m.rate as int, span);
        lemma_ceil_within(size as int, m.rate as int, span);
        lemma_ceil_div_mono(q, q + size, m.rate as int);
    }
}

/// Nothing queued is negative.
pub proof fn lemma_queued_from_nonneg(q: Seq<Volume>, level: int)
    ensures
        queued_from(q, level) >= 0,
    decreases q.len() - level,
{
    if 0 <= level < q.len() {
        lemma_queued_from_nonneg(q, level + 1);
    }
}

/// More volume queued never helps: a transmission granted with more queued at
/// every level is granted with less too, starting and ending no later.
pub proof fn law_queue_growth_never_helps<
    const QUEUE_DELAY: bool,
    const AUTO_UPDATE: bool,
    const LEVELS: usize,
    const BUDGETED: bool,
>(
    less: PrioVolumeManager<QUEUE_DELAY, AUTO_UPDATE, LEVELS, BUDGETED>,
    more: PrioVolumeManager<QUEUE_DELAY, AUTO_UPDATE, LEVELS, BUDGETED>,
    contact_data: ContactInfo,
    at_time: Date,
    priority: Priority,
    size: Volume,
)
    requires
        less.rate == more.rate,
        less.delay == more.delay,
        less.budgets@ == more.budgets@,
        less.queue_size@.len() == LEVELS,
        more.queue_size@.len() == LEVELS,
        forall|i: int| 0 <= i < LEVELS ==> #[trigger] less.queue_size@[i] <= more.queue_size@[i],
    ensures
        more.volume_tx(contact_data, at_time, priority, size) matches Some(d2) ==> (less.volume_tx(
            contact_data,
            at_time,
            priority,
            size,
        ) matches Some(d1) && d1.tx_start <= d2.tx_start && d1.tx_end <= d2.tx_end),
{
    if let Some(d2) = more.volume_tx(contact_data, at_time, priority, size) {
        let l = PrioVolumeManager::<QUEUE_DELAY, AUTO_UPDATE, LEVELS, BUDGETED>::level_of(priority)->0;
        lemma_queued_from_mono(less.queue_size@, more.queue_size@, l);
        lemma_queued_from_nonneg(less.queue_size@, l);
        let q1 = queued_from(less.queue_size@, l);
        let q2 = queued_from(more.queue_size@, l);
        lemma_ceil_div_mono(q1, q2, less.rate as int);
        lemma_ceil_div_mono(q1 + size, q2 + size, less.rate as int);
        law_granted_fits_volume(more, contact_data, at_time, priority, size);
        let t0 = max_u64(contact_data.start, at_time);
        let span = contact_data.end - t0;
        lemma_queued_from_nonneg(more.queue_size@, l);
        assert(span >= 0 && q1 + size <= less.rate * span) by (nonlinear_arith)
            requires
                less.rate > 0,
                q2 + size <= less.rate * span,
                0 <= q1 <= q2,
        ;
        lemma_ceil_within(q1, less.rate as int, span);
        lemma_ceil_within(q1 + size, less.rate as int, span);
        lemma_ceil_within(q2, less.rate as int, span);
        lemma_ceil_within(q2 + size, less.rate as int, span);
    }
}

/// Rounding up `a / r` gives the least number of steps of `r` that hold `a`.
pub proof fn lemma_ceil_least(a: int, r: int)
    requires
        0 <= a,
        0 < r,
    ensures
        r * ceil_div(a, r) >= a,
        r * ceil_div(a, r) < a + r,
        ceil_div(a, r) >= 0,
{
    assert(r * ((a + r - 1) / r) >= a && r * ((a + r - 1) / r) < a + r && (a + r - 1) / r >= 0)
        by (nonlinear_arith)
        requires
            0 <= a,
            0 < r,
    ;
}

/// Without queue delay, a granted transmission starts as soon as the contact is
/// open and it is asked for, and lasts the least whole number of ticks in which
/// the rate carries the bundle: the volume queued takes room on the contact but
/// never lengthens or delays the transmission.
pub proof fn law_no_queue_delay_duration<const AUTO_UPDATE: bool, const LEVELS: usize, const BUDGETED: bool>(
    m: PrioVolumeManager<false, AUTO_UPDATE, LEVELS, BUDGETED>,
    contact_data: ContactInfo,
    at_time: Date,
    priority: Priority,
    size: Volume,
)
    ensures
        m.volume_tx(contact_data, at_time, priority, size) matches Some(d) ==> {
            &&& d.tx_start == max_u64(contact_data.start, at_time)
            &&& d.tx_start <= d.tx_end
            &&& m.rate * (d.tx_end - d.tx_start) >= size
            &&& m.rate * (d.tx_end - d.tx_start) < size + m.rate
            &&& d.arrival == sat_add(d.tx_end, m.delay)
        },
{
    law_granted_fits_volume(m, contact_data, at_time, priority, size);
    if let Some(d) = m.volume_tx(contact_data, at_time, priority, size) {
        let l = PrioVolumeManager::<false, AUTO_UPDATE, LEVELS, BUDGETED>::level_of(priority)->0;
        let t0 = max_u64(contact_data.start, at_time);
        let q = queued_from(m.queue_size@, l);
        lemma_queued_from_nonneg(m.queue_size@, l);
        let span = contact_data.end - t0;
        assert(span >= 0) by (nonlinear_arith)
            requires
                m.rate > 0,
                q + size <= m.rate * span,
                q >= 0,
        ;
        lemma_ceil_within(size as int, m.rate as int, span);
        lemma_ceil_least(size as int, m.rate as int);
        assert(d.tx_end - d.tx_start == ceil_div(size as int, m.rate as int));
    }
}

/// Without queue delay, two managers with the same rate and delay give a
/// bundle the same transmission whenever both grant it, whatever each has queued.
pub proof fn law_no_queue_delay_ignores_queue<const AUTO_UPDATE: bool, const LEVELS: usize, const BUDGETED: bool>(
    m1: PrioVolumeManager<false, AUTO_UPDATE, LEVELS, BUDGETED>,
    m2: PrioVolumeManager<false, AUTO_UPDATE, LEVELS, BUDGETED>,
    contact_data: ContactInfo,
    at_time: Date,
    priority: Priority,
    size: Volume,
)
    requires
        m1.rate == m2.rate,
        m1.delay == m2.delay,
    ensures
        m1.volume_tx(contact_data, at_time, priority, size) matches Some(d1) ==> (m2.volume_tx(
            contact_data,
            at_time,
            priority,
            size,
        ) matches Some(d2) ==> d1.tx_start == d2.tx_start && d1.tx_end == d2.tx_end && d1.arrival
            == d2.arrival),
{
    law_no_queue_delay_duration(m1, contact_data, at_time, priority, size);
    law_no_queue_delay_duration(m2, contact_data, at_time, priority, size);
    if let Some(d1) = m1.volume_tx(contact_data, at_time, priority, size) {
        if let Some(d2) = m2.volume_tx(contact_data, at_time, priority, size) {
            let a = d1.tx_end - d1.tx_start;
            let b = d2.tx_end - d2.tx_start;
            let r = m1.rate as int;
            assert(a == b) by (nonlinear_arith)
                requires
                    r > 0,
                    r * a >= size,
                    r * a < size + r,
                    r * b >= size,
                    r * b < size + r,
            ;
        }
    }
}

/// A bundle with a queue level is granted a window whenever the rate is not
/// zero, its own level (under budgets) can take it, and the contact can still
/// send it together with all the volume queued at its level and above; the
/// budget test reads the bundle's own level alone.
pub proof fn law_granted_when_it_fits<
    const QUEUE_DELAY: bool,
    const AUTO_UPDATE: bool,
    const LEVELS: usize,
    const BUDGETED: bool,
>(
    m: PrioVolumeManager<QUEUE_DELAY, AUTO_UPDATE, LEVELS, BUDGETED>,
    contact_data: ContactInfo,
    at_time: Date,
    priority: Priority,
    size: Volume,
    l: int,
)
    requires
        m.queue_size@.len() == LEVELS,
        BUDGETED ==> m.budgets@.len() == LEVELS,
        PrioVolumeManager::<QUEUE_DELAY, AUTO_UPDATE, LEVELS, BUDGETED>::level_of(priority) == Some(l),
        m.rate > 0,
        BUDGETED ==> m.queue_size@[l] + size <= m.budgets@[l],
        queued_from(m.queue_size@, l) + size <= m.rate * (contact_data.end - max_u64(
            contact_data.start,
            at_time,
        )),
    ensures
        m.volume_tx(contact_data, at_time, priority, size) is Some,
{
}

/// With queue delay, a granted transmission waits for the volume queued at its
/// level and above to be sent: it starts the least whole number of ticks after
/// the contact is open and it is asked for in which the rate carries that
/// volume, and ends the least whole number of ticks after that same date in
/// which the rate carries that volume and the bundle.
pub proof fn law_queue_delay_window<const AUTO_UPDATE: bool, const LEVELS: usize, const BUDGETED: bool>(
    m: PrioVolumeManager<true, AUTO_UPDATE, LEVELS, BUDGETED>,
    contact_data: ContactInfo,
    at_time: Date,
    priority: Priority,
    size: Volume,
)
    ensures
        m.volume_tx(contact_data, at_time, priority, size) matches Some(d) ==> {
            let t0 = max_u64(contact_data.start, at_time);
            let q = queued_from(
                m.queue_size@,
                PrioVolumeManager::<true, AUTO_UPDATE, LEVELS, BUDGETED>::level_of(priority)->0,
            );
            &&& t0 <= d.tx_start <= d.tx_end
            &&& m.rate * (d.tx_start - t0) >= q
            &&& m.rate * (d.tx_start - t0) < q + m.rate
            &&& m.rate * (d.tx_end - t0) >= q + size
            &&& m.rate * (d.tx_end - t0) < q + size + m.rate
            &&& d.arrival == sat_add(d.tx_end, m.delay)
        },
{
    law_granted_fits_volume(m, contact_data, at_time, priority, size);
    if let Some(d) = m.volume_tx(contact_data, at_time, priority, size) {
        let l = PrioVolumeManager::<true, AUTO_UPDATE, LEVELS, BUDGETED>::level_of(priority)->0;
        let t0 = max_u64(contact_data.start, at_time);
        let q = queued_from(m.queue_size@, l);
        lemma_queued_from_nonneg(m.queue_size@, l);
        let span = contact_data.end - t0;
        assert(span >= 0) by (nonlinear_arith)
            requires
                m.rate > 0,
                q + size <= m.rate * span,
                q >= 0,
        ;
        lemma_ceil_within(q, m.rate as int, span);
        lemma_ceil_within(q + size, m.rate as int, span);
        lemma_ceil_least(q, m.rate as int);
        lemma_ceil_least(q + size, m.rate as int);
        assert(d.tx_start - t0 == ceil_div(q, m.rate as int));
        assert(d.tx_end - t0 == ceil_div(q + size, m.rate as int));
    }
}

/// Booking a transmission with automatic queue update adds the bundle to the
/// queue of its own level, and to no other, where it is granted; nothing else
/// is queued otherwise, and the rate, delay and budgets never change.
pub proof fn law_booking_queues_the_bundle<
    const QUEUE_DELAY: bool,
    const AUTO_UPDATE: bool,
    const LEVELS: usize,
    const BUDGETED: bool,
>(
    m: PrioVolumeManager<QUEUE_DELAY, AUTO_UPDATE, LEVELS, BUDGETED>,
    next: PrioVolumeManager<QUEUE_DELAY, AUTO_UPDATE, LEVELS, BUDGETED>,
    contact_data: ContactInfo,
    at_time: Date,
    priority: Priority,
    size: Volume,
)
    requires
        m.wf(),
        m.booked(next, contact_data, at_time, priority, size),
    ensures
        next.rate == m.rate,
        next.delay == m.delay,
        next.budgets@ == m.budgets@,
        next.queue_size@.len() == m.queue_size@.len(),
        forall|l: int|
            0 <= l < m.queue_size@.len() ==> #[trigger] next.queue_size@[l] == if AUTO_UPDATE && m.volume_tx(
                contact_data,
                at_time,
                priority,
                size,
            ) is Some && PrioVolumeManager::<QUEUE_DELAY, AUTO_UPDATE, LEVELS, BUDGETED>::level_of(priority)
                == Some(l) {
                if m.queue_size@[l] + size <= u64::MAX {
                    (m.queue_size@[l] + size) as u64
                } else {
                    u64::MAX
                }
            } else {
                m.queue_size@[l]
            },
{
}

} // verus!
