//! Album views, date keys, persistence round trips, playlists, the wire
//! format, and settings.

use music_cache::cache::TrackCache;
use music_cache::playlist::PlaylistCache;
use music_cache::settings::{HighlightColor, Settings};
use music_cache::source::MusicController;
use music_cache::track::{CachedPlaylist, CachedPlaylistTrack, CachedTrack};

fn track_full(
    name: &str,
    artist: &str,
    album: &str,
    date: &str,
    disc: u32,
    num: u32,
) -> CachedTrack {
    CachedTrack::new(
        name.to_string(),
        artist.to_string(),
        album.to_string(),
        date.to_string(),
        2019,
        num,
        disc,
        "2:30".to_string(),
        5,
        true,
    )
}

#[test]
fn album_tracks_come_in_disc_then_track_order() {
    let mut cache = TrackCache::from_file_text(None);
    cache.add_tracks(vec![
        track_full("C", "A", "X", "", 2, 1),
        track_full("B", "A", "X", "", 1, 2),
        track_full("D", "A", "Y", "", 1, 1),
        track_full("A", "A", "X", "", 1, 1),
    ]);
    let hits = cache.get_tracks_by_album("X");
    let names: Vec<&str> = hits.iter().map(|t| t.name.as_str()).collect();
    assert_eq!(names, vec!["A", "B", "C"]);
}

#[test]
fn recent_albums_dedup_and_order() {
    let mut cache = TrackCache::from_file_text(None);
    cache.add_tracks(vec![
        track_full("One", "Ann", "A", "Sunday, September 13, 2015 at 3:44:42", 1, 1),
        track_full("Two", "Ann", "A", "Monday, January 5, 2014 at 1:00:00", 1, 2),
        track_full("Three", "Bob", "B", "Friday, March 4, 2016 at 10:00:00", 1, 1),
        track_full("Four", "Cid", "", "Friday, March 4, 2018 at 10:00:00", 1, 1),
    ]);
    let albums = cache.get_recent_albums(10);
    let names: Vec<&str> = albums.iter().map(|(a, _)| a.as_str()).collect();
    // B's newest record is newer than A's; the empty album never appears
    assert_eq!(names, vec!["B", "A"]);
    assert_eq!(albums[0].1, "Bob");
    assert_eq!(albums[1].1, "Ann");
    // the limit caps the walk
    assert_eq!(cache.get_recent_albums(1).len(), 1);
}

#[test]
fn save_and_load_round_trip() {
    let mut cache = TrackCache::from_file_text(None);
    cache.add_tracks(vec![
        track_full("Song \"quoted\"", "A\\B", "X", "Sunday, May 1, 2022 at 9:10:11", 1, 1),
        track_full("Tab\there", "C", "Y", "", 2, 3),
    ]);
    cache.total_tracks = 2;
    cache.update_timestamp();
    let text = cache.to_json();
    let back = TrackCache::from_file_text(Some(text.as_str()));
    assert_eq!(back.total_tracks, cache.total_tracks);
    assert_eq!(back.loaded_tracks, cache.loaded_tracks);
    assert_eq!(back.last_updated, cache.last_updated);
    assert_eq!(back.tracks.len(), cache.tracks.len());
    for (a, b) in back.tracks.iter().zip(cache.tracks.iter()) {
        assert_eq!(a.name, b.name);
        assert_eq!(a.artist, b.artist);
        assert_eq!(a.album, b.album);
        assert_eq!(a.date_added, b.date_added);
        assert_eq!(a.year, b.year);
        assert_eq!(a.track_number, b.track_number);
        assert_eq!(a.disc_number, b.disc_number);
        assert_eq!(a.time, b.time);
        assert_eq!(a.played_count, b.played_count);
        assert_eq!(a.favorited, b.favorited);
        assert_eq!(a.search_key, b.search_key);
    }
    assert!(!back.is_fresh_build);
}

#[test]
fn missing_file_yields_fresh_empty_cache() {
    let cache = TrackCache::from_file_text(None);
    assert_eq!(cache.total_tracks, 0);
    assert_eq!(cache.loaded_tracks, 0);
    assert!(cache.last_updated.is_none());
    assert!(cache.tracks.is_empty());
    assert!(cache.is_fresh_build);
    assert!(!cache.is_complete());
}

#[test]
fn corrupt_file_yields_plain_default() {
    let cache = TrackCache::from_file_text(Some("not json at all"));
    assert_eq!(cache.total_tracks, 0);
    assert_eq!(cache.loaded_tracks, 0);
    assert!(!cache.is_fresh_build);
    let cache = TrackCache::from_file_text(Some(""));
    assert_eq!(cache.loaded_tracks, 0);
}

#[test]
fn emitted_json_has_the_documented_shape() {
    let mut cache = TrackCache::from_file_text(None);
    cache.total_tracks = 1;
    cache.add_tracks(vec![track_full("N", "Ar", "Al", "D", 1, 2)]);
    let text = cache.to_json();
    assert_eq!(
        text,
        "{\"total_tracks\":1,\"loaded_tracks\":1,\"last_updated\":null,\"tracks\":[\
         {\"name\":\"N\",\"artist\":\"Ar\",\"album\":\"Al\",\"date_added\":\"D\",\
         \"year\":2019,\"track_number\":2,\"disc_number\":1,\"time\":\"2:30\",\
         \"played_count\":5,\"favorited\":true}]}"
    );
}

#[test]
fn playlist_cache_get_and_insert() {
    let mut pc = PlaylistCache::default();
    assert!(pc.get("Drive").is_none());
    let pl = CachedPlaylist {
        name: "Drive".to_string(),
        tracks: vec![CachedPlaylistTrack {
            name: "One".to_string(),
            artist: "A".to_string(),
            album: "X".to_string(),
            year: 2001,
            time: "3:00".to_string(),
            played_count: 3,
            favorited: false,
        }],
    };
    pc.insert(pl);
    assert_eq!(pc.get("Drive").unwrap().tracks.len(), 1);
    // inserting under the same name overwrites, never duplicates
    let replacement = CachedPlaylist { name: "Drive".to_string(), tracks: Vec::new() };
    pc.insert(replacement);
    assert_eq!(pc.playlists.len(), 1);
    assert_eq!(pc.get("Drive").unwrap().tracks.len(), 0);
}

#[test]
fn wire_format_parses_records_and_counts() {
    assert_eq!(MusicController::get_total_track_count("120"), 120);
    assert_eq!(MusicController::get_total_track_count("junk"), 0);
    let raw = "One:::Ann:::X:::Sunday, May 1, 2022 at 9:10:11:::2022:::3:::1:::2:30:::7:::true|||\
               Two:::Bob:::Y::::::0:::0:::0::::::0:::false|||";
    let tracks = MusicController::get_tracks_batch(raw);
    assert_eq!(tracks.len(), 2);
    assert_eq!(tracks[0].name, "One");
    assert_eq!(tracks[0].artist, "Ann");
    assert_eq!(tracks[0].year, 2022);
    assert_eq!(tracks[0].track_number, 3);
    assert!(tracks[0].favorited);
    assert_eq!(tracks[1].name, "Two");
    assert_eq!(tracks[1].date_added, "");
    assert!(!tracks[1].favorited);
    // a short record falls back to defaults
    let tracks = MusicController::get_tracks_added_since("OnlyName");
    assert_eq!(tracks.len(), 1);
    assert_eq!(tracks[0].name, "OnlyName");
    assert_eq!(tracks[0].artist, "");
    assert_eq!(tracks[0].year, 0);
}

#[test]
fn highlight_colors_cycle() {
    let mut c = HighlightColor::Cyan;
    for _ in 0..10 {
        c = c.next();
    }
    assert_eq!(c, HighlightColor::Cyan);
    assert_ne!(HighlightColor::Cyan.next(), HighlightColor::Cyan);
    assert_eq!(HighlightColor::Red.rgb(), (255, 100, 100));
    let s = Settings::default();
    assert_eq!(s.highlight_color, HighlightColor::Cyan);
}

#[test]
fn playlist_catalog_drops_builtin_lists() {
    let raw = "Drive:::12|||Music:::999|||Calm:::3|||Favorite Songs:::4|||";
    let lists = MusicController::get_playlists(raw);
    let names: Vec<&str> = lists.iter().map(|p| p.name.as_str()).collect();
    assert_eq!(names, vec!["Drive", "Calm"]);
    assert_eq!(lists[0].artist, "12 tracks");
    assert_eq!(lists[1].artist, "3 tracks");
}

#[test]
fn playlist_tracks_parse_in_order() {
    let raw = "One:::Ann:::X:::2001:::3:10:::7:::true|||Two:::Bob:::Y:::0::::::0:::false|||";
    let tracks = MusicController::get_playlist_tracks(raw);
    assert_eq!(tracks.len(), 2);
    assert_eq!(tracks[0].name, "One");
    assert_eq!(tracks[0].year, 2001);
    assert_eq!(tracks[0].time, "3:10");
    assert_eq!(tracks[0].played_count, 7);
    assert!(tracks[0].favorited);
    assert_eq!(tracks[0].track_number, 0);
    assert_eq!(tracks[1].name, "Two");
    assert!(!tracks[1].favorited);
}

#[test]
fn date_keys_are_zero_padded() {
    let date: Vec<char> = "Sunday, September 13, 2015 at 3:44:42".chars().collect();
    let key: String = music_cache::dates::sortable_date_key(&date).into_iter().collect();
    assert_eq!(key, "2015-09-13 03:44:42");
    let date: Vec<char> = "Monday, October 3, 2016 at 13:02:03".chars().collect();
    let key: String = music_cache::dates::sortable_date_key(&date).into_iter().collect();
    assert_eq!(key, "2016-10-03 13:02:03");
    // a single-digit hour no longer outsorts a two-digit one within a day
    let early: Vec<char> = "Friday, March 4, 2016 at 3:00:00".chars().collect();
    let late: Vec<char> = "Friday, March 4, 2016 at 13:00:00".chars().collect();
    let early: String = music_cache::dates::sortable_date_key(&early).into_iter().collect();
    let late: String = music_cache::dates::sortable_date_key(&late).into_iter().collect();
    assert!(early < late);
}

#[test]
fn playlist_save_and_load_round_trip() {
    let mut pc = PlaylistCache::default();
    pc.insert(CachedPlaylist {
        name: "Drive \"mix\"".to_string(),
        tracks: vec![CachedPlaylistTrack {
            name: "One".to_string(),
            artist: "A\\B".to_string(),
            album: "X".to_string(),
            year: 2001,
            time: "3:00".to_string(),
            played_count: 3,
            favorited: true,
        }],
    });
    pc.insert(CachedPlaylist { name: "Calm".to_string(), tracks: Vec::new() });
    let text = pc.to_json();
    let back = PlaylistCache::from_file_text(Some(text.as_str()));
    assert_eq!(back.playlists.len(), 2);
    let drive = back.get("Drive \"mix\"").unwrap();
    assert_eq!(drive.tracks.len(), 1);
    assert_eq!(drive.tracks[0].name, "One");
    assert_eq!(drive.tracks[0].artist, "A\\B");
    assert_eq!(drive.tracks[0].year, 2001);
    assert!(drive.tracks[0].favorited);
    assert!(back.get("Calm").unwrap().tracks.is_empty());
    // missing and corrupt files both give the empty store
    assert!(PlaylistCache::from_file_text(None).playlists.is_empty());
    assert!(PlaylistCache::from_file_text(Some("junk")).playlists.is_empty());
}

#[test]
fn date_keys_sort_like_the_source_dates() {
    let mut cache = TrackCache::from_file_text(None);
    cache.add_tracks(vec![
        track_full("Old", "A", "OldAlbum", "Sunday, September 13, 2015 at 3:44:42", 1, 1),
        track_full("New", "B", "NewAlbum", "Monday, October 3, 2016 at 1:02:03", 1, 1),
        track_full("NoDate", "C", "Undated", "", 1, 1),
    ]);
    let albums = cache.get_recent_albums(10);
    let names: Vec<&str> = albums.iter().map(|(a, _)| a.as_str()).collect();
    // an empty date sorts first, so the undated album comes last
    assert_eq!(names, vec!["NewAlbum", "OldAlbum", "Undated"]);
}

#[test]
fn recent_album_artist_breaks_date_ties_by_storage_order() {
    let mut cache = TrackCache::from_file_text(None);
    cache.add_tracks(vec![
        track_full("One", "First", "A", "Friday, March 4, 2016 at 10:00:00", 1, 1),
        track_full("Two", "Second", "A", "Friday, March 4, 2016 at 10:00:00", 1, 2),
    ]);
    let albums = cache.get_recent_albums(10);
    assert_eq!(albums.len(), 1);
    // both records carry the newest date; the first stored one names the artist
    assert_eq!(albums[0].1, "First");
}

#[test]
fn album_ties_keep_storage_order() {
    let mut cache = TrackCache::from_file_text(None);
    cache.add_tracks(vec![
        track_full("Early", "A", "X", "", 1, 1),
        track_full("Later", "A", "X", "", 1, 1),
    ]);
    let hits = cache.get_tracks_by_album("X");
    let names: Vec<&str> = hits.iter().map(|t| t.name.as_str()).collect();
    // equal disc and track numbers keep the stored order
    assert_eq!(names, vec!["Early", "Later"]);
}
