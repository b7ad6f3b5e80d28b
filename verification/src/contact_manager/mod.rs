use vstd::prelude::*;
use crate::bundle::Bundle;
use crate::contact::ContactInfo;
use crate::types::{sat_add, Date, Duration, Priority, Volume};

pub mod legacy;
pub mod segmentation;

verus! {

/// What a contact manager answers about one transmission of a bundle.
#[derive(Clone, Copy, Debug)]
pub struct ContactManagerTxData {
    /// The date at which the transmission starts.
    pub tx_start: Date,
    /// The date at which the transmission ends.
    pub tx_end: Date,
    /// The propagation delay that applies to the end of the transmission.
    pub delay: Duration,
    /// The date after which the booked window is no longer valid.
    pub expiration: Date,
    /// The date at which the bundle is fully received (`tx_end + delay`).
    pub arrival: Date,
    /// The date at which the reception starts.
    pub rx_start: Date,
    /// The date at which the reception ends.
    pub rx_end: Date,
}

/// The booking policy of a contact: how a bundle would be, and is, given a
/// transmission window on it.
pub trait ContactManager: Sized {
    /// The well-formedness of the manager's state.
    spec fn wf(&self) -> bool;

    /// What a transmission of `bundle` asked at `at_time` is given, if anything.
    spec fn tx_spec(
        &self,
        contact_data: ContactInfo,
        at_time: Date,
        priority: Priority,
        size: Volume,
    ) -> Option<ContactManagerTxData>;

    /// The manager can be prepared for the contact described by `contact_data`.
    spec fn accepts(&self, contact_data: ContactInfo) -> bool;

    /// `next` is this manager after booking the transmission that `tx_spec`
    /// gives for a bundle of `priority` and `size` asked at `at_time`: the window
    /// is taken (nothing changes where there is none).
    spec fn booked(
        &self,
        next: Self,
        contact_data: ContactInfo,
        at_time: Date,
        priority: Priority,
        size: Volume,
    ) -> bool;

    /// `next` is this manager after being prepared for the contact described by
    /// `contact_data` (nothing changes where it does not accept it).
    spec fn initialised(&self, next: Self, contact_data: ContactInfo) -> bool;

    /// A transmission that is given starts no earlier than it is asked for, and
    /// arrives when it ends plus its delay (saturating).
    proof fn lemma_tx_not_before(&self, contact_data: ContactInfo, at_time: Date, priority: Priority, size: Volume)
        requires
            self.wf(),
        ensures
            self.tx_spec(contact_data, at_time, priority, size) matches Some(d) ==> at_time <= d.tx_start
                <= d.tx_end <= d.arrival && d.arrival == sat_add(d.tx_end, d.delay),
    ;

    /// Answers what a transmission of `bundle` at `at_time` would be given, without booking it.
    fn dry_run_tx(&self, contact_data: &ContactInfo, at_time: Date, bundle: &Bundle) -> (r: Option<
        ContactManagerTxData,
    >)
        requires
            self.wf(),
        ensures
            r == self.tx_spec(*contact_data, at_time, bundle.priority, bundle.size),
    ;

    /// Books the transmission that `dry_run_tx` would answer, and returns it.
    fn schedule_tx(&mut self, contact_data: &ContactInfo, at_time: Date, bundle: &Bundle) -> (r:
        Option<ContactManagerTxData>)
        requires
            old(self).wf(),
        ensures
            final(self).wf(),
            r == old(self).tx_spec(*contact_data, at_time, bundle.priority, bundle.size),
            old(self).booked(*final(self), *contact_data, at_time, bundle.priority, bundle.size),
    ;

    /// Prepares the manager for the contact described by `contact_data`; `false` where it cannot.
    fn try_init(&mut self, contact_data: &ContactInfo) -> (r: bool)
        requires
            old(self).wf(),
        ensures
            final(self).wf(),
            r == old(self).accepts(*contact_data),
            old(self).initialised(*final(self), *contact_data),
    ;
}

} // verus!
