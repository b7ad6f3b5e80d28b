use vstd::prelude::*;
use crate::contact_manager::legacy::PrioVolumeManager;

verus! {

/// Queued volume delays the transmission; the queue is only changed by
/// external means (`manual_enqueue`).
pub type ETOManager = PrioVolumeManager<true, false, 1, false>;

/// As `ETOManager`, with three priority levels.
pub type PETOManager = PrioVolumeManager<true, false, 3, false>;

/// As `PETOManager`, with a volume budget per level.
pub type PBETOManager = PrioVolumeManager<true, false, 3, true>;

} // verus!
