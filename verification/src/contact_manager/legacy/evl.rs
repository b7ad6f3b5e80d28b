use vstd::prelude::*;
use crate::contact_manager::legacy::PrioVolumeManager;

verus! {

/// Queued volume does not delay the transmission but takes volume from the
/// contact; scheduled bundles are queued automatically.
pub type EVLManager = PrioVolumeManager<false, true, 1, false>;

/// As `EVLManager`, with three priority levels.
pub type PEVLManager = PrioVolumeManager<false, true, 3, false>;

/// As `PEVLManager`, with a volume budget per level.
pub type PBEVLManager = PrioVolumeManager<false, true, 3, true>;

} // verus!
