use vstd::prelude::*;
use crate::bundle::Bundle;
use crate::types::Date;

verus! {

/// The policy of a node towards the bundles it sends and receives.
pub trait NodeManager: Sized {
    /// The node would send `bundle` over `[start, end]`, having held it since `waiting_since`.
    spec fn tx_accepts(&self, waiting_since: Date, start: Date, end: Date, bundle: Bundle) -> bool;

    /// The node would receive `bundle` over `[start, end]`.
    spec fn rx_accepts(&self, start: Date, end: Date, bundle: Bundle) -> bool;

    /// `next` is this node after booking the sending of `bundle` over `[start, end]`.
    spec fn tx_booked(&self, next: Self, waiting_since: Date, start: Date, end: Date, bundle: Bundle) -> bool;

    /// `next` is this node after booking the reception of `bundle` over `[start, end]`.
    spec fn rx_booked(&self, next: Self, start: Date, end: Date, bundle: Bundle) -> bool;

    /// Whether the node would send `bundle` over `[start, end]`.
    fn dry_run_tx(&self, waiting_since: Date, start: Date, end: Date, bundle: &Bundle) -> (r: bool)
        ensures
            r == self.tx_accepts(waiting_since, start, end, *bundle),
    ;

    /// Books the sending of `bundle` over `[start, end]`, if the node accepts it.
    fn schedule_tx(&mut self, waiting_since: Date, start: Date, end: Date, bundle: &Bundle) -> (r:
        bool)
        ensures
            r == old(self).tx_accepts(waiting_since, start, end, *bundle),
            old(self).tx_booked(*final(self), waiting_since, start, end, *bundle),
    ;

    /// Whether the node would receive `bundle` over `[start, end]`.
    fn dry_run_rx(&self, start: Date, end: Date, bundle: &Bundle) -> (r: bool)
        ensures
            r == self.rx_accepts(start, end, *bundle),
    ;

    /// Books the reception of `bundle` over `[start, end]`, if the node accepts it.
    fn schedule_rx(&mut self, start: Date, end: Date, bundle: &Bundle) -> (r: bool)
        ensures
            r == old(self).rx_accepts(start, end, *bundle),
            old(self).rx_booked(*final(self), start, end, *bundle),
    ;
}

/// A node that accepts everything.
#[derive(Debug, Clone, Copy)]
pub struct NoManagement {}

impl NodeManager for NoManagement {
    open spec fn tx_accepts(&self, waiting_since: Date, start: Date, end: Date, bundle: Bundle) -> bool {
        true
    }

    open spec fn rx_accepts(&self, start: Date, end: Date, bundle: Bundle) -> bool {
        true
    }

    open spec fn tx_booked(&self, next: Self, waiting_since: Date, start: Date, end: Date, bundle: Bundle) -> bool {
        next == *self
    }

    open spec fn rx_booked(&self, next: Self, start: Date, end: Date, bundle: Bundle) -> bool {
        next == *self
    }

    fn dry_run_tx(&self, _waiting_since: Date, _start: Date, _end: Date, _bundle: &Bundle) -> (r: bool) {
        true
    }

    fn schedule_tx(&mut self, _waiting_since: Date, _start: Date, _end: Date, _bundle: &Bundle) -> (r:
        bool) {
        true
    }

    fn dry_run_rx(&self, _start: Date, _end: Date, _bundle: &Bundle) -> (r: bool) {
        true
    }

    fn schedule_rx(&mut self, _start: Date, _end: Date, _bundle: &Bundle) -> (r: bool) {
        true
    }
}

} // verus!
