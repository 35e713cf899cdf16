//! Live-code-reload plumbing in its inert configuration.
//!
//! The build without live reloading never swaps code at run time: the
//! reloader holds no state, a recompile request has nothing to do, and a
//! reload poll always reports that no new code was loaded.

use vstd::prelude::*;

verus! {

/// The reloader of the build without live code reloading.
pub struct HotReloading;

impl HotReloading {
    /// Builds the inert reloader. The path to watch is ignored, since no
    /// library is ever swapped in.
    pub fn from_path(_path: Option<&str>) -> (r: HotReloading) {
        HotReloading
    }
}

/// The table behind which the application's entry points are called,
/// together with its reloader.
pub struct FnPtrs {
    pub reloading: HotReloading,
}

impl FnPtrs {
    /// Requests a rebuild of the application; without live reloading there
    /// is nothing to rebuild.
    pub fn recompile(&self) {
    }

    /// Polls for newly built code. In the inert configuration no code is
    /// ever swapped, so no reload ever takes place.
    pub fn reload(&mut self) -> (r: bool)
        ensures
            r == false,
            *final(self) == *old(self),
    {
        false
    }
}

} // verus!
