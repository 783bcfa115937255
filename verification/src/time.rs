//! The watermark: sod's only notion of "now".
//!
//! The watermark is the maximum event-time across every frame applied so far.
//! Max is commutative and associative over the replicated frame set, so the
//! watermark converges exactly as the data does: it is time *as data*, never a
//! wall clock.

use crate::peak::{Peak, Sound};
use std::sync::Arc;
use vstd::prelude::*;
use vstd::rwlock::{RwLock, RwLockPredicate};

verus! {

/// A shared, monotonically-advancing watermark handle. Every holder of a clone
/// may advance it at any time, so what a later read gives is not said here; what
/// is behind the handle is always the greatest of the times it was advanced to,
/// 0 at first.
pub struct Watermark(Arc<RwLock<Peak, Sound>>);

impl Clone for Watermark {
    fn clone(&self) -> (w: Self)
        ensures
            w == *self,
    {
        Watermark(self.0.clone())
    }
}

impl Default for Watermark {
    fn default() -> (w: Self) {
        Watermark(Arc::new(RwLock::new(Peak::new(), Ghost(Sound))))
    }
}

impl Watermark {
    /// A watermark at 0.
    pub fn new() -> (w: Self) {
        Self::default()
    }

    /// Max event-time applied so far.
    pub fn get(&self) -> (wm: u64)
        ensures
            crate::peak::reached(wm),
    {
        read(&self.0)
    }

    /// Advance to at least `wm` (monotonic max). Returns where the watermark then
    /// stands.
    pub fn advance(&self, wm: u64) -> (now: u64)
        ensures
            now >= wm,
    {
        let (mut peak, handle) = self.0.acquire_write();
        let now = peak.raise(wm);
        handle.release_write(peak);
        now
    }

    /// A `Fn() -> u64` closure over this watermark, in the shape clock-taking
    /// operators accept.
    pub fn clock(&self) -> (c: impl Fn() -> u64 + Clone + 'static)
        ensures
            c.requires(()),
            forall|wm: u64| c.ensures((), wm) ==> crate::peak::reached(wm),
    {
        let inner = self.0.clone();
        move || -> (wm: u64)
            ensures
                crate::peak::reached(wm),
            { read(&inner) }
    }
}

fn read(shared: &Arc<RwLock<Peak, Sound>>) -> (wm: u64)
    ensures
        crate::peak::reached(wm),
{
    let handle = shared.acquire_read();
    let wm = handle.borrow().value();
    handle.release_read();
    wm
}

/// One more advance: what then stands behind a handle is at least the time advanced
/// to, at least what stood there before, and one of the two. At first it is 0.
pub proof fn law_advancing(before: Peak, after: Peak, wm: u64)
    requires
        Sound.inv(before),
        Sound.inv(after),
        after.history() == before.history().push(wm),
    ensures
        after.at() >= wm,
        after.at() >= before.at(),
        after.at() == wm || after.at() == before.at(),
        before.history().len() == 0 ==> before.at() == 0 && after.at() == wm,
{
    law_watermark_is_greatest(before, 0);
    law_watermark_is_greatest(after, 0);
    let (old_raises, raises) = (before.history(), after.history());
    assert(raises[old_raises.len() as int] == wm);
    if old_raises.len() > 0 {
        let i = choose|i: int|
            0 <= i < old_raises.len() && #[trigger] old_raises[i] == before.at();
        assert(raises[i] == before.at());
    }
    let k = choose|k: int| 0 <= k < raises.len() && #[trigger] raises[k] == after.at();
    if k < old_raises.len() {
        assert(old_raises[k] == after.at());
    }
}

/// What stands behind a handle is the greatest of the times it was advanced to,
/// and is the only number that is: none of those times is beyond it, and it is one
/// of them, or 0 if there are none.
pub proof fn law_watermark_is_greatest(peak: Peak, n: u64)
    requires
        Sound.inv(peak),
    ensures
        forall|i: int|
            0 <= i < peak.history().len() ==> #[trigger] peak.history()[i] <= peak.at(),
        peak.history().len() == 0 ==> peak.at() == 0,
        peak.history().len() > 0 ==> exists|i: int|
            0 <= i < peak.history().len() && #[trigger] peak.history()[i] == peak.at(),
        peak.history().len() > 0 && (forall|i: int|
            0 <= i < peak.history().len() ==> #[trigger] peak.history()[i] <= n) && (exists|i: int|
            0 <= i < peak.history().len() && #[trigger] peak.history()[i] == n) ==> n == peak.at(),
{
    let (at, raises) = (peak.at(), peak.history());
    if raises.len() > 0 {
        assert(raises[0] <= at);
        if raises.contains(at) {
            let i = choose|i: int| 0 <= i < raises.len() && raises[i] == at;
            assert(raises[i] == at);
        } else {
            assert(raises[0] == at);
        }
    }
}

} // verus!
