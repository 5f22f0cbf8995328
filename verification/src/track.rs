//! The track records held by the library cache.

use vstd::prelude::*;
use crate::text::{chars_of, lower_of, string_of, to_lower};

verus! {

/// The mathematical value of a track record: every text field as its
/// character sequence.
pub ghost struct TrackV {
    pub name: Seq<char>,
    pub artist: Seq<char>,
    pub album: Seq<char>,
    pub date_added: Seq<char>,
    pub year: u32,
    pub track_number: u32,
    pub disc_number: u32,
    pub time: Seq<char>,
    pub played_count: u32,
    pub favorited: bool,
    pub search_key: Seq<char>,
}

/// The text a track's search key is computed from: name, artist and album
/// joined with single spaces.
pub open spec fn joined(name: Seq<char>, artist: Seq<char>, album: Seq<char>) -> Seq<char> {
    name + seq![' '] + artist + seq![' '] + album
}

/// The search key owed to a track with the given identity fields.
pub open spec fn key_of(name: Seq<char>, artist: Seq<char>, album: Seq<char>) -> Seq<char> {
    lower_of(joined(name, artist, album))
}

/// Whether two records have the same logical identity: equal name, artist
/// and album. This triple is the primary key of the cache.
pub open spec fn same_key(a: TrackV, b: TrackV) -> bool {
    a.name == b.name && a.artist == b.artist && a.album == b.album
}

/// A record whose search key has been (re)built from its identity fields.
pub open spec fn canonical(t: TrackV) -> bool {
    t.search_key == key_of(t.name, t.artist, t.album)
}

/// The record left behind when an incoming record `n` is merged into an
/// existing record `e` with the same key: the identity fields stay, every
/// mutable field is overwritten, and the search key is rebuilt.
pub open spec fn merged(e: TrackV, n: TrackV) -> TrackV {
    TrackV {
        name: e.name,
        artist: e.artist,
        album: e.album,
        date_added: n.date_added,
        year: n.year,
        track_number: n.track_number,
        disc_number: n.disc_number,
        time: n.time,
        played_count: n.played_count,
        favorited: n.favorited,
        search_key: key_of(e.name, e.artist, e.album),
    }
}

/// One row of the library: the identity triple (name, artist, album), the
/// mutable presentation fields, and a derived lower-cased search key that
/// is never persisted.
pub struct CachedTrack {
    pub name: String,
    pub artist: String,
    pub album: String,
    pub date_added: String,
    pub year: u32,
    pub track_number: u32,
    pub disc_number: u32,
    pub time: String,
    pub played_count: u32,
    pub favorited: bool,
    pub search_key: String,
}

impl View for CachedTrack {
    type V = TrackV;

    open spec fn view(&self) -> TrackV {
        TrackV {
            name: self.name@,
            artist: self.artist@,
            album: self.album@,
            date_added: self.date_added@,
            year: self.year,
            track_number: self.track_number,
            disc_number: self.disc_number,
            time: self.time@,
            played_count: self.played_count,
            favorited: self.favorited,
            search_key: self.search_key@,
        }
    }
}

impl DeepView for CachedTrack {
    type V = TrackV;

    open spec fn deep_view(&self) -> TrackV {
        self.view()
    }
}

impl Clone for CachedTrack {
    /// A clone carries exactly the same field values.
    fn clone(&self) -> (r: Self)
        ensures
            r == *self,
    {
        CachedTrack {
            name: self.name.clone(),
            artist: self.artist.clone(),
            album: self.album.clone(),
            date_added: self.date_added.clone(),
            year: self.year,
            track_number: self.track_number,
            disc_number: self.disc_number,
            time: self.time.clone(),
            played_count: self.played_count,
            favorited: self.favorited,
            search_key: self.search_key.clone(),
        }
    }
}

/// The lower-cased join of the three identity fields.
fn build_search_key(name: &str, artist: &str, album: &str) -> (r: String)
    ensures
        r@ == key_of(name@, artist@, album@),
{
    let mut j = chars_of(name);
    j.push(' ');
    let mut a = chars_of(artist);
    j.append(&mut a);
    j.push(' ');
    let mut b = chars_of(album);
    j.append(&mut b);
    proof {
        assert(j@ =~= joined(name@, artist@, album@));
    }
    let js = string_of(&j);
    to_lower(js.as_str())
}

impl CachedTrack {
    /// Builds a record and derives its search key from name, artist and
    /// album.
    pub fn new(
        name: String,
        artist: String,
        album: String,
        date_added: String,
        year: u32,
        track_number: u32,
        disc_number: u32,
        time: String,
        played_count: u32,
        favorited: bool,
    ) -> (r: Self)
        ensures
            r@ == (TrackV {
                name: name@,
                artist: artist@,
                album: album@,
                date_added: date_added@,
                year: year,
                track_number: track_number,
                disc_number: disc_number,
                time: time@,
                played_count: played_count,
                favorited: favorited,
                search_key: key_of(name@, artist@, album@),
            }),
    {
        let search_key = build_search_key(name.as_str(), artist.as_str(), album.as_str());
        CachedTrack {
            name,
            artist,
            album,
            date_added,
            year,
            track_number,
            disc_number,
            time,
            played_count,
            favorited,
            search_key,
        }
    }

    /// Rebuilds the derived search key from the identity fields; nothing
    /// else changes.
    pub fn init_search_key(&mut self)
        ensures
            final(self)@ == (TrackV {
                search_key: key_of(old(self)@.name, old(self)@.artist, old(self)@.album),
                ..old(self)@
            }),
            canonical(final(self)@),
    {
        self.search_key = build_search_key(
            self.name.as_str(),
            self.artist.as_str(),
            self.album.as_str(),
        );
    }
}

/// One track of a cached playlist: the same fields as a library record
/// less the disc and track numbers, which playlists do not order by.
pub struct CachedPlaylistTrack {
    pub name: String,
    pub artist: String,
    pub album: String,
    pub year: u32,
    pub time: String,
    pub played_count: u32,
    pub favorited: bool,
}

/// The mathematical value of a playlist track.
pub ghost struct PlaylistTrackV {
    pub name: Seq<char>,
    pub artist: Seq<char>,
    pub album: Seq<char>,
    pub year: u32,
    pub time: Seq<char>,
    pub played_count: u32,
    pub favorited: bool,
}

impl View for CachedPlaylistTrack {
    type V = PlaylistTrackV;

    open spec fn view(&self) -> PlaylistTrackV {
        PlaylistTrackV {
            name: self.name@,
            artist: self.artist@,
            album: self.album@,
            year: self.year,
            time: self.time@,
            played_count: self.played_count,
            favorited: self.favorited,
        }
    }
}

impl DeepView for CachedPlaylistTrack {
    type V = PlaylistTrackV;

    open spec fn deep_view(&self) -> PlaylistTrackV {
        self.view()
    }
}

impl Clone for CachedPlaylistTrack {
    /// A clone carries exactly the same field values.
    fn clone(&self) -> (r: Self)
        ensures
            r == *self,
    {
        CachedPlaylistTrack {
            name: self.name.clone(),
            artist: self.artist.clone(),
            album: self.album.clone(),
            year: self.year,
            time: self.time.clone(),
            played_count: self.played_count,
            favorited: self.favorited,
        }
    }
}

/// A named, ordered list of playlist tracks.
pub struct CachedPlaylist {
    pub name: String,
    pub tracks: Vec<CachedPlaylistTrack>,
}

/// The mathematical value of a cached playlist.
pub ghost struct PlaylistV {
    pub name: Seq<char>,
    pub tracks: Seq<PlaylistTrackV>,
}

impl View for CachedPlaylist {
    type V = PlaylistV;

    open spec fn view(&self) -> PlaylistV {
        PlaylistV { name: self.name@, tracks: self.tracks.deep_view() }
    }
}

impl DeepView for CachedPlaylist {
    type V = PlaylistV;

    open spec fn deep_view(&self) -> PlaylistV {
        self.view()
    }
}

impl Clone for CachedPlaylist {
    /// A clone carries exactly the same name and tracks.
    fn clone(&self) -> (r: Self)
        ensures
            r@ == self@,
    {
        let mut ts: Vec<CachedPlaylistTrack> = Vec::new();
        let mut i: usize = 0;
        while i < self.tracks.len()
            invariant
                0 <= i <= self.tracks.len(),
                ts@.len() == i,
                forall|k: int| 0 <= k < i ==> ts@[k] == self.tracks@[k],
            decreases self.tracks.len() - i,
        {
            ts.push(self.tracks[i].clone());
            i += 1;
        }
        proof {
            assert(ts.deep_view() =~= self.tracks.deep_view());
        }
        CachedPlaylist { name: self.name.clone(), tracks: ts }
    }
}

} // verus!
