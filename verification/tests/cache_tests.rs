//! The cache engine: merging, completeness, and the end-to-end build.

use music_cache::cache::TrackCache;
use music_cache::sync::{CacheResponse, SyncPlan};
use music_cache::sync::{next_fetch, plan_sync};
use music_cache::track::CachedTrack;

fn track(name: &str, artist: &str, album: &str, date: &str, disc: u32, num: u32) -> CachedTrack {
    CachedTrack::new(
        name.to_string(),
        artist.to_string(),
        album.to_string(),
        date.to_string(),
        2020,
        num,
        disc,
        "3:08".to_string(),
        0,
        false,
    )
}

fn empty_cache() -> TrackCache {
    TrackCache::from_file_text(None)
}

#[test]
fn upsert_twice_is_idempotent() {
    let mut cache = empty_cache();
    let batch = vec![
        track("One", "A", "X", "d1", 1, 1),
        track("Two", "B", "Y", "d2", 1, 2),
    ];
    let batch_again = vec![
        track("One", "A", "X", "d1", 1, 1),
        track("Two", "B", "Y", "d2", 1, 2),
    ];
    let first = cache.upsert_tracks(batch);
    assert_eq!(first, 2);
    let names: Vec<String> = cache.tracks.iter().map(|t| t.name.clone()).collect();
    let second = cache.upsert_tracks(batch_again);
    assert_eq!(second, 0);
    let names_after: Vec<String> = cache.tracks.iter().map(|t| t.name.clone()).collect();
    assert_eq!(names, names_after);
    assert_eq!(cache.loaded_tracks, 2);
}

#[test]
fn upsert_merges_by_key_and_counts_new() {
    let mut cache = empty_cache();
    cache.upsert_tracks(vec![track("One", "A", "X", "d1", 1, 1)]);
    assert_eq!(cache.loaded_tracks, 1);
    // same key: mutable fields overwritten, count unchanged
    let mut changed = track("One", "A", "X", "d9", 2, 7);
    changed.played_count = 42;
    let added = cache.upsert_tracks(vec![changed]);
    assert_eq!(added, 0);
    assert_eq!(cache.loaded_tracks, 1);
    assert_eq!(cache.tracks[0].date_added, "d9");
    assert_eq!(cache.tracks[0].disc_number, 2);
    assert_eq!(cache.tracks[0].track_number, 7);
    assert_eq!(cache.tracks[0].played_count, 42);
    assert_eq!(cache.tracks[0].name, "One");
    // new key: exactly one more record
    let added = cache.upsert_tracks(vec![track("Two", "A", "X", "d2", 1, 2)]);
    assert_eq!(added, 1);
    assert_eq!(cache.loaded_tracks, 2);
}

#[test]
fn completeness_tracks_totals() {
    let mut cache = empty_cache();
    assert!(!cache.is_complete());
    cache.total_tracks = 0;
    cache.loaded_tracks = 0;
    assert!(!cache.is_complete());
    cache.total_tracks = 2;
    cache.loaded_tracks = 1;
    assert!(!cache.is_complete());
    cache.loaded_tracks = 2;
    assert!(cache.is_complete());
    cache.loaded_tracks = 3;
    assert!(cache.is_complete());
}

#[test]
fn full_build_of_three_batches() {
    // a 120-track library built with batches of 50 needs exactly three
    let mut cache = empty_cache();
    assert!(cache.is_fresh_build);
    let total: usize = 120;
    match plan_sync(cache.total_tracks, cache.loaded_tracks, cache.last_updated, total) {
        SyncPlan::FullBuild { offset } => assert_eq!(offset, 0),
        _ => panic!("a fresh cache must start a full build"),
    }
    let mut offset: usize = 0;
    let mut batches = 0;
    let mut last_save = false;
    while let Some((start, count)) = next_fetch(offset, total) {
        assert_eq!(start, offset + 1);
        assert_eq!(count, 50);
        let n = count.min(total - offset);
        let mut tracks = Vec::new();
        for k in 0..n {
            let id = offset + k;
            tracks.push(track(&format!("T{}", id), "A", "X", "d", 1, id as u32));
        }
        offset += n;
        let outcome = cache.apply_response(CacheResponse::BatchLoaded {
            tracks,
            loaded: offset,
            total,
        });
        batches += 1;
        last_save = outcome.save_needed;
    }
    assert_eq!(batches, 3);
    assert_eq!(cache.loaded_tracks, 120);
    assert_eq!(cache.total_tracks, 120);
    assert!(cache.is_complete());
    assert!(last_save, "the completing batch must trigger a save");
    assert!(cache.last_updated.is_some());
}

#[test]
fn incremental_refresh_bumps_timestamp_only_for_new_records() {
    let mut cache = empty_cache();
    cache.apply_response(CacheResponse::BatchLoaded {
        tracks: vec![track("One", "A", "X", "d1", 1, 1)],
        loaded: 1,
        total: 1,
    });
    let stamp = cache.last_updated;
    assert!(stamp.is_some());
    // a pure update persists the merged data but must not stamp
    let outcome = cache.apply_response(CacheResponse::Upsert {
        tracks: vec![track("One", "A", "X", "d2", 1, 1)],
        total: 1,
    });
    assert_eq!(outcome.added, 0);
    assert!(!outcome.stamped);
    assert!(outcome.save_needed);
    assert_eq!(cache.last_updated, stamp);
    assert_eq!(cache.tracks[0].date_added, "d2");
    // a genuinely new record stamps and saves
    let outcome = cache.apply_response(CacheResponse::Upsert {
        tracks: vec![track("Two", "B", "Y", "d3", 1, 1)],
        total: 2,
    });
    assert_eq!(outcome.added, 1);
    assert!(outcome.stamped);
    assert!(outcome.save_needed);
}

#[test]
fn plan_sync_modes() {
    match plan_sync(10, 10, Some(5), 0) {
        SyncPlan::Idle => {}
        _ => panic!("an empty library plans nothing"),
    }
    // a complete cache refreshes incrementally even when the library grew
    match plan_sync(10, 10, Some(100000), 12) {
        SyncPlan::Incremental { cutoff } => assert_eq!(cutoff, 13600),
        _ => panic!("a complete cache refreshes incrementally"),
    }
    match plan_sync(10, 10, Some(1000), 10) {
        SyncPlan::Incremental { cutoff } => assert_eq!(cutoff, 0),
        _ => panic!("an early timestamp clamps the cutoff at zero"),
    }
    match plan_sync(10, 4, Some(1000), 10) {
        SyncPlan::FullBuild { offset } => assert_eq!(offset, 4),
        _ => panic!("an incomplete cache resumes its build"),
    }
    match plan_sync(0, 0, None, 120) {
        SyncPlan::FullBuild { offset } => assert_eq!(offset, 0),
        _ => panic!("a fresh cache starts a full build"),
    }
}

#[test]
fn format_last_updated_renders_local_time() {
    let mut cache = empty_cache();
    assert!(cache.format_last_updated().is_none());
    // 2015-09-13 03:44:42 UTC is 12:44 the same day at UTC+9
    cache.last_updated = Some(1442115882);
    assert_eq!(
        cache.format_last_updated().unwrap(),
        "Last updated: 2015/09/13 12:44"
    );
}
