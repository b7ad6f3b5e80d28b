use vstd::prelude::*;
use crate::route_stage::RouteStage;
use crate::types::Date;

verus! {

/// An order on route stages: which of two ways of reaching a node is preferred.
pub trait Distance {
    /// A stage with `a_hops` hops arriving at `a_at` is preferred to one with
    /// `b_hops` hops arriving at `b_at`.
    spec fn better_spec(a_hops: u32, a_at: Date, b_hops: u32, b_at: Date) -> bool;

    /// Whether `a` is preferred to `b`.
    fn better(a: &RouteStage, b: &RouteStage) -> (r: bool)
        ensures
            r == Self::better_spec(a.hop_count, a.at_time, b.hop_count, b.at_time),
    ;

    /// No stage is preferred to itself.
    proof fn lemma_irreflexive(h: u32, at: Date)
        ensures
            !Self::better_spec(h, at, h, at),
    ;

    /// Preference is transitive.
    proof fn lemma_transitive(a_h: u32, a_at: Date, b_h: u32, b_at: Date, c_h: u32, c_at: Date)
        requires
            Self::better_spec(a_h, a_at, b_h, b_at),
            Self::better_spec(b_h, b_at, c_h, c_at),
        ensures
            Self::better_spec(a_h, a_at, c_h, c_at),
    ;

    /// Not being preferred is transitive.
    proof fn lemma_not_better_transitive(a_h: u32, a_at: Date, b_h: u32, b_at: Date, c_h: u32, c_at: Date)
        requires
            !Self::better_spec(a_h, a_at, b_h, b_at),
            !Self::better_spec(b_h, b_at, c_h, c_at),
        ensures
            !Self::better_spec(a_h, a_at, c_h, c_at),
    ;

    /// A stage reached by one more hop, arriving no earlier, is not preferred
    /// to the stage it leaves from.
    proof fn lemma_hop_not_better(h: u32, at: Date, next_at: Date)
        requires
            at <= next_at,
        ensures
            !Self::better_spec(next_hop_count(h), next_at, h, at),
    ;
}

/// The hop count of a stage one hop further (it saturates).
pub open spec fn next_hop_count(h: u32) -> u32 {
    if h == 0xffff_ffff {
        h
    } else {
        (h + 1) as u32
    }
}

/// Prefers fewer hops, then an earlier arrival.
#[derive(Debug, Clone, Copy)]
pub struct Hop {}

/// Prefers an earlier arrival, then fewer hops.
#[derive(Debug, Clone, Copy)]
pub struct SABR {}

impl Distance for Hop {
    open spec fn better_spec(a_hops: u32, a_at: Date, b_hops: u32, b_at: Date) -> bool {
        a_hops < b_hops || (a_hops == b_hops && a_at < b_at)
    }

    fn better(a: &RouteStage, b: &RouteStage) -> (r: bool) {
        a.hop_count < b.hop_count || (a.hop_count == b.hop_count && a.at_time < b.at_time)
    }

    proof fn lemma_irreflexive(h: u32, at: Date) {
    }

    proof fn lemma_transitive(a_h: u32, a_at: Date, b_h: u32, b_at: Date, c_h: u32, c_at: Date) {
    }

    proof fn lemma_not_better_transitive(a_h: u32, a_at: Date, b_h: u32, b_at: Date, c_h: u32, c_at: Date) {
    }

    proof fn lemma_hop_not_better(h: u32, at: Date, next_at: Date) {
    }
}

impl Distance for SABR {
    open spec fn better_spec(a_hops: u32, a_at: Date, b_hops: u32, b_at: Date) -> bool {
        a_at < b_at || (a_at == b_at && a_hops < b_hops)
    }

    fn better(a: &RouteStage, b: &RouteStage) -> (r: bool) {
        a.at_time < b.at_time || (a.at_time == b.at_time && a.hop_count < b.hop_count)
    }

    proof fn lemma_irreflexive(h: u32, at: Date) {
    }

    proof fn lemma_transitive(a_h: u32, a_at: Date, b_h: u32, b_at: Date, c_h: u32, c_at: Date) {
    }

    proof fn lemma_not_better_transitive(a_h: u32, a_at: Date, b_h: u32, b_at: Date, c_h: u32, c_at: Date) {
    }

    proof fn lemma_hop_not_better(h: u32, at: Date, next_at: Date) {
    }
}

} // verus!
