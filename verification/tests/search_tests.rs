//! The query language: smart case, field filters and quoting.

use music_cache::cache::TrackCache;
use music_cache::track::CachedTrack;

fn track(name: &str, artist: &str, album: &str) -> CachedTrack {
    CachedTrack::new(
        name.to_string(),
        artist.to_string(),
        album.to_string(),
        String::new(),
        0,
        0,
        0,
        String::new(),
        0,
        false,
    )
}

fn cache_with(tracks: Vec<CachedTrack>) -> TrackCache {
    let mut cache = TrackCache::from_file_text(None);
    cache.add_tracks(tracks);
    cache
}

#[test]
fn lowercase_query_is_case_insensitive() {
    let cache = cache_with(vec![track("Song", "IO", "Album")]);
    let hits = cache.search("io");
    assert_eq!(hits.len(), 1);
    assert_eq!(hits[0].artist, "IO");
}

#[test]
fn uppercase_query_is_case_sensitive() {
    let cache = cache_with(vec![
        track("Song", "studio", "Album"),
        track("Other", "IO people", "Album"),
    ]);
    // "IO" must not match the lowercase "studio", only the literal "IO"
    let hits = cache.search("IO");
    assert_eq!(hits.len(), 1);
    assert_eq!(hits[0].artist, "IO people");
    // while the lowercase query matches both
    let hits = cache.search("io");
    assert_eq!(hits.len(), 2);
}

#[test]
fn quoted_field_filter_is_exact() {
    let cache = cache_with(vec![
        track("Song", "IO", "Album"),
        track("Other", "IO Extended", "Album"),
    ]);
    let hits = cache.search("artist:\"IO\"");
    assert_eq!(hits.len(), 1);
    assert_eq!(hits[0].artist, "IO");
    // unquoted, the filter is a substring match
    let hits = cache.search("artist:IO");
    assert_eq!(hits.len(), 2);
    // single quotes work the same way
    let hits = cache.search("artist:'IO'");
    assert_eq!(hits.len(), 1);
}

#[test]
fn unterminated_quote_matches_literally() {
    let cache = cache_with(vec![
        track("Song", "\"IO", "Album"),
        track("Other", "IO", "Album"),
    ]);
    let hits = cache.search("artist:\"IO");
    assert_eq!(hits.len(), 1);
    assert_eq!(hits[0].artist, "\"IO");
}

#[test]
fn filters_and_terms_are_conjoined() {
    let cache = cache_with(vec![
        track("Alpha", "Ann", "First"),
        track("Beta", "Ann", "Second"),
        track("Alpha", "Bob", "Second"),
    ]);
    let hits = cache.search("artist:ann alpha");
    assert_eq!(hits.len(), 1);
    assert_eq!(hits[0].album, "First");
    let hits = cache.search("name:alpha album:second");
    assert_eq!(hits.len(), 1);
    assert_eq!(hits[0].artist, "Bob");
}

#[test]
fn field_prefix_is_case_insensitive() {
    let cache = cache_with(vec![track("Alpha", "Ann", "First")]);
    assert_eq!(cache.search("Artist:ann").len(), 1);
    assert_eq!(cache.search("ARTIST:ann").len(), 1);
    assert_eq!(cache.search("artist:zzz").len(), 0);
}

#[test]
fn empty_query_returns_everything() {
    let cache = cache_with(vec![
        track("Alpha", "Ann", "First"),
        track("Beta", "Bob", "Second"),
    ]);
    assert_eq!(cache.search("").len(), 2);
    assert_eq!(cache.search("   ").len(), 2);
}
