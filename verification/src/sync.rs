//! The synchronization pipelines as decisions: pure functions from the
//! cache's state and the source's answers to the next fetch and to what
//! the consumer must do with each message. The waiting, the channel and
//! the calls into the source stay with the caller.

use vstd::prelude::*;
use crate::cache::{spec_upsert, TrackCache};
use crate::track::CachedTrack;

verus! {

/// How many records one full-build batch asks for.
pub const BATCH_SIZE: usize = 50;

/// How many records may arrive between periodic saves during a build.
pub const SAVE_EVERY: usize = 100;

/// How far before the last reconciliation an incremental fetch reaches
/// back, to tolerate records added while a previous pass still ran.
pub const CUTOFF_MARGIN_SECS: u64 = 86400;

/// One message of the track pipeline, applied by the single consumer in
/// arrival order.
pub enum CacheResponse {
    BatchLoaded { tracks: Vec<CachedTrack>, loaded: usize, total: usize },
    Upsert { tracks: Vec<CachedTrack>, total: usize },
    Complete,
}

/// What the consumer owes after applying one message: whether to persist
/// now, whether the timestamp was stamped, and how many records were
/// genuinely new.
pub struct ApplyOutcome {
    pub save_needed: bool,
    pub stamped: bool,
    pub added: usize,
    pub finished: bool,
}

/// How a sync pass starts: nothing to do, a full build resumed from an
/// offset, or an incremental fetch since a cutoff.
pub enum SyncPlan {
    Idle,
    FullBuild { offset: usize },
    Incremental { cutoff: u64 },
}

/// Picks the mode of a sync pass, exactly once at its start. The mode is
/// decided by the cache's own stored state: a cache already complete (by
/// its stored total) with a timestamp asks only for what was added since
/// one day before that timestamp; an incomplete cache resumes a full
/// build from the count already loaded. The freshly reported source size
/// only ends the pass at once when it is zero; during a build it bounds
/// the fetch loop.
pub fn plan_sync(
    stored_total: usize,
    loaded: usize,
    last_updated: Option<u64>,
    fresh_total: usize,
) -> (r: SyncPlan)
    ensures
        fresh_total == 0 ==> r is Idle,
        fresh_total > 0 && stored_total > 0 && loaded >= stored_total ==> r == (
        match last_updated {
            Some(ts) => SyncPlan::Incremental {
                cutoff: if ts >= CUTOFF_MARGIN_SECS {
                    (ts - CUTOFF_MARGIN_SECS) as u64
                } else {
                    0u64
                },
            },
            None => SyncPlan::Idle,
        }),
        fresh_total > 0 && !(stored_total > 0 && loaded >= stored_total) ==> r == (
        SyncPlan::FullBuild { offset: loaded }),
{
    if fresh_total == 0 {
        SyncPlan::Idle
    } else if stored_total > 0 && loaded >= stored_total {
        match last_updated {
            Some(ts) => SyncPlan::Incremental {
                cutoff: if ts >= CUTOFF_MARGIN_SECS {
                    ts - CUTOFF_MARGIN_SECS
                } else {
                    0
                },
            },
            None => SyncPlan::Idle,
        }
    } else {
        SyncPlan::FullBuild { offset: loaded }
    }
}

/// The next batch a full build fetches: records `offset + 1` through
/// `offset + BATCH_SIZE` (the source counts from one), or nothing once
/// the reported total is reached.
pub fn next_fetch(offset: usize, total: usize) -> (r: Option<(usize, usize)>)
    requires
        offset <= usize::MAX - 1,
    ensures
        offset < total ==> r == Some(((offset + 1) as usize, BATCH_SIZE)),
        offset >= total ==> r is None,
{
    if offset < total {
        Some((offset + 1, BATCH_SIZE))
    } else {
        None
    }
}

impl TrackCache {
    /// Applies one pipeline message, as the consumer does after draining
    /// the channel: a build batch is appended and the cache persisted at
    /// the end of the build (with a fresh timestamp) or every
    /// `SAVE_EVERY` records; an incremental batch is merged and its merged
    /// data persisted, but the timestamp moves forward only when something
    /// genuinely new arrived; a completion mark asks for nothing.
    pub fn apply_response(&mut self, resp: CacheResponse) -> (r: ApplyOutcome)
        ensures
            resp matches CacheResponse::BatchLoaded { tracks, loaded, total } ==> {
                &&& final(self).tracks.deep_view() == old(self).tracks.deep_view()
                    + tracks.deep_view()
                &&& final(self).loaded_tracks == final(self).tracks@.len()
                &&& final(self).total_tracks == total
                &&& r.save_needed == (loaded >= total || loaded % SAVE_EVERY == 0)
                &&& r.stamped == (loaded >= total)
                &&& r.stamped ==> final(self).last_updated is Some
                &&& !r.stamped ==> final(self).last_updated == old(self).last_updated
                &&& !r.finished
                &&& r.added == tracks@.len()
                &&& final(self).wf()
            },
            resp matches CacheResponse::Upsert { tracks, total } ==> {
                &&& final(self).tracks.deep_view() == spec_upsert(
                    old(self).tracks.deep_view(),
                    tracks.deep_view(),
                ).0
                &&& r.added as nat == spec_upsert(
                    old(self).tracks.deep_view(),
                    tracks.deep_view(),
                ).1
                &&& final(self).loaded_tracks == final(self).tracks@.len()
                &&& final(self).total_tracks == total
                &&& r.save_needed == (tracks@.len() > 0)
                &&& r.stamped == (r.added > 0)
                &&& r.stamped ==> final(self).last_updated is Some
                &&& !r.stamped ==> final(self).last_updated == old(self).last_updated
                &&& !r.finished
                &&& final(self).wf()
            },
            resp is Complete ==> *final(self) == *old(self) && !r.save_needed && !r.stamped
                && r.finished && r.added == 0,
            final(self).is_fresh_build == old(self).is_fresh_build,
            old(self).wf() ==> final(self).wf(),
    {
        match resp {
            CacheResponse::BatchLoaded { tracks, loaded, total } => {
                let n = tracks.len();
                self.add_tracks(tracks);
                self.total_tracks = total;
                let stamped = loaded >= total;
                if stamped {
                    self.update_timestamp();
                }
                ApplyOutcome {
                    save_needed: stamped || loaded % SAVE_EVERY == 0,
                    stamped,
                    added: n,
                    finished: false,
                }
            }
            CacheResponse::Upsert { tracks, total } => {
                let nonempty = tracks.len() > 0;
                let added = self.upsert_tracks(tracks);
                self.total_tracks = total;
                let stamped = added > 0;
                if stamped {
                    self.update_timestamp();
                }
                ApplyOutcome { save_needed: nonempty, stamped, added, finished: false }
            }
            CacheResponse::Complete => ApplyOutcome {
                save_needed: false,
                stamped: false,
                added: 0,
                finished: true,
            },
        }
    }
}

} // verus!
