//! The playlist side-cache: a keyed store of per-playlist track lists,
//! insensitive to insertion order, each playlist independently present or
//! absent.

use vstd::prelude::*;
use crate::text::{chars_of, eq_chars};
use crate::track::{CachedPlaylist, PlaylistV};

verus! {

/// The index of the first playlist in `ps` with the given name.
pub open spec fn find_name(ps: Seq<PlaylistV>, name: Seq<char>) -> Option<int>
    decreases ps.len(),
{
    if ps.len() == 0 {
        None
    } else if ps[0].name == name {
        Some(0)
    } else {
        match find_name(ps.drop_first(), name) {
            Some(i) => Some(i + 1),
            None => None,
        }
    }
}

/// `find_name` returns exactly the first position with the name.
pub proof fn lemma_find_name(ps: Seq<PlaylistV>, name: Seq<char>)
    ensures
        match find_name(ps, name) {
            Some(i) => 0 <= i < ps.len() && ps[i].name == name && forall|m: int|
                0 <= m < i ==> (#[trigger] ps[m]).name != name,
            None => forall|m: int| 0 <= m < ps.len() ==> (#[trigger] ps[m]).name != name,
        },
    decreases ps.len(),
{
    if ps.len() > 0 && ps[0].name != name {
        lemma_find_name(ps.drop_first(), name);
        assert(forall|m: int| 1 <= m < ps.len() ==> ps[m] == ps.drop_first()[m - 1]);
    }
}

/// The store after one playlist is put in: an entry with the same name
/// is overwritten in place, a new name is appended.
pub open spec fn insert_entry(acc: Seq<PlaylistV>, p: PlaylistV) -> Seq<PlaylistV> {
    match find_name(acc, p.name) {
        Some(i) => acc.update(i, p),
        None => acc.push(p),
    }
}

/// The store after a run of playlists is put in, first to last.
pub open spec fn insert_all(acc: Seq<PlaylistV>, ps: Seq<PlaylistV>) -> Seq<PlaylistV>
    decreases ps.len(),
{
    if ps.len() == 0 {
        acc
    } else {
        insert_all(insert_entry(acc, ps[0]), ps.drop_first())
    }
}

/// A keyed store of cached playlists; at most one entry per name.
pub struct PlaylistCache {
    pub playlists: Vec<CachedPlaylist>,
}

impl PlaylistCache {
    /// The stored playlists as mathematical values.
    pub open spec fn view_playlists(&self) -> Seq<PlaylistV> {
        self.playlists.deep_view()
    }

    /// Well-formedness: no two stored playlists share a name.
    pub open spec fn wf(&self) -> bool {
        forall|i: int, j: int|
            0 <= i < j < self.view_playlists().len() ==> (#[trigger] self.view_playlists()[i]).name
                != (#[trigger] self.view_playlists()[j]).name
    }

    /// The index of the stored playlist with the given name, if any.
    fn find_idx(&self, name: &str) -> (r: Option<usize>)
        ensures
            r matches Some(i) ==> find_name(self.view_playlists(), name@) == Some(i as int),
            r is None ==> find_name(self.view_playlists(), name@) is None,
    {
        proof {
            lemma_find_name(self.view_playlists(), name@);
        }
        let nc = chars_of(name);
        let mut i: usize = 0;
        while i < self.playlists.len()
            invariant
                0 <= i <= self.view_playlists().len(),
                nc@ == name@,
                forall|m: int| 0 <= m < i ==> (#[trigger] self.view_playlists()[m]).name != name@,
            decreases self.playlists@.len() - i,
        {
            let pc = chars_of(self.playlists[i].name.as_str());
            if eq_chars(pc.as_slice(), nc.as_slice()) {
                proof {
                    assert(self.view_playlists()[i as int] == self.playlists@[i as int]@);
                    assert(self.view_playlists()[i as int].name == name@);
                    lemma_find_name(self.view_playlists(), name@);
                }
                return Some(i);
            }
            proof {
                assert(self.view_playlists()[i as int] == self.playlists@[i as int]@);
            }
            i += 1;
        }
        proof {
            lemma_find_name(self.view_playlists(), name@);
        }
        None
    }

    /// The cached playlist with the given name, if one is held.
    pub fn get(&self, playlist_name: &str) -> (r: Option<&CachedPlaylist>)
        ensures
            match (r, find_name(self.view_playlists(), playlist_name@)) {
                (Some(p), Some(i)) => p@ == self.view_playlists()[i],
                (None, None) => true,
                _ => false,
            },
    {
        match self.find_idx(playlist_name) {
            Some(i) => {
                proof {
                    lemma_find_name(self.view_playlists(), playlist_name@);
                }
                Some(&self.playlists[i])
            },
            None => None,
        }
    }

    /// Stores a playlist under its name: an entry with the same name is
    /// overwritten, any other playlist stays untouched, and a new name is
    /// appended.
    pub fn insert(&mut self, playlist: CachedPlaylist)
        ensures
            final(self).view_playlists() == insert_entry(old(self).view_playlists(), playlist@),
            old(self).wf() ==> final(self).wf(),
    {
        let ghost prev = self.view_playlists();
        match self.find_idx(playlist.name.as_str()) {
            Some(i) => {
                proof {
                    lemma_find_name(prev, playlist@.name);
                }
                self.playlists[i] = playlist;
                proof {
                    assert(self.view_playlists() =~= prev.update(i as int, playlist@));
                    if old(self).wf() {
                        assert forall|a: int, b: int|
                            0 <= a < b < self.view_playlists().len() implies (
                        #[trigger] self.view_playlists()[a]).name != (
                        #[trigger] self.view_playlists()[b]).name by {
                            assert(prev[a].name != prev[b].name);
                        }
                    }
                }
            }
            None => {
                proof {
                    lemma_find_name(prev, playlist@.name);
                }
                self.playlists.push(playlist);
                proof {
                    assert(self.view_playlists() =~= prev.push(playlist@));
                    if old(self).wf() {
                        assert forall|a: int, b: int|
                            0 <= a < b < self.view_playlists().len() implies (
                        #[trigger] self.view_playlists()[a]).name != (
                        #[trigger] self.view_playlists()[b]).name by {
                            if b < prev.len() {
                                assert(prev[a].name != prev[b].name);
                            } else {
                                assert(self.view_playlists()[b] == playlist@);
                                assert(prev[a].name != playlist@.name);
                            }
                        }
                    }
                }
            }
        }
    }
}

impl Default for PlaylistCache {
    /// The empty side-cache.
    fn default() -> (r: Self)
        ensures
            r.view_playlists().len() == 0,
            r.wf(),
    {
        let r = PlaylistCache { playlists: Vec::new() };
        proof {
            assert(r.view_playlists() =~= Seq::<PlaylistV>::empty());
        }
        r
    }
}

} // verus!
