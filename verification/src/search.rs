//! The query language and matching rules of the cache.
//!
//! A query is whitespace-tokenized. A token whose lower-cased form starts
//! with `name:`, `artist:` or `album:` is a field filter; its value may be
//! wrapped in matching double or single quotes, which switches the filter
//! to exact equality. Every other token is a general term. All filters and
//! terms must match (one conjunction over the whole query). Matching is
//! smart-case: a value with an uppercase character is matched
//! case-sensitively against the raw field text, any other value
//! case-insensitively.

use vstd::prelude::*;
use crate::cache::TrackCache;
use crate::text::{
    chars_of,
    contains_chars,
    eq_chars,
    has_upper,
    has_upper_chars,
    lower_chars,
    lower_of,
    spec_contains,
    spec_tokens,
    split_spaces,
    starts_with,
    starts_with_chars,
    sub_chars,
};
use crate::track::{joined, CachedTrack, TrackV};

verus! {

/// The lower-cased prefix that marks a name filter.
pub open spec fn name_pre() -> Seq<char> {
    seq!['n', 'a', 'm', 'e', ':']
}

/// The lower-cased prefix that marks an artist filter.
pub open spec fn artist_pre() -> Seq<char> {
    seq!['a', 'r', 't', 'i', 's', 't', ':']
}

/// The lower-cased prefix that marks an album filter.
pub open spec fn album_pre() -> Seq<char> {
    seq!['a', 'l', 'b', 'u', 'm', ':']
}

/// How a filter value is read: a value wrapped in matching quotes asks
/// for exact equality on its inside; an empty value (or empty quotes)
/// drops the filter; anything else, a stray quote included, is a
/// substring value.
pub open spec fn spec_filter_value(v: Seq<char>) -> Option<(Seq<char>, bool)> {
    if v.len() == 0 {
        None
    } else if v.len() >= 2 && ((v[0] == '"' && v.last() == '"') || (v[0] == '\'' && v.last()
        == '\'')) {
        if v.len() == 2 {
            None
        } else {
            Some((v.subrange(1, v.len() - 1), true))
        }
    } else {
        Some((v, false))
    }
}

/// Smart-case substring matching: case-sensitive when the key holds an
/// uppercase character, case-insensitive otherwise.
pub open spec fn smart_match(target: Seq<char>, key: Seq<char>) -> bool {
    if has_upper(key) {
        spec_contains(target, key)
    } else {
        spec_contains(lower_of(target), lower_of(key))
    }
}

/// A field filter: exact equality for a quoted value, smart-case
/// substring matching otherwise.
pub open spec fn field_matches(target: Seq<char>, key: Seq<char>, exact: bool) -> bool {
    if exact {
        target == key
    } else {
        smart_match(target, key)
    }
}

/// A general term: matched case-sensitively against the raw join of
/// name, artist and album when it holds an uppercase character, else
/// case-insensitively against the record's stored search key.
pub open spec fn word_matches(t: TrackV, w: Seq<char>) -> bool {
    if has_upper(w) {
        spec_contains(joined(t.name, t.artist, t.album), w)
    } else {
        spec_contains(t.search_key, lower_of(w))
    }
}

/// What one query token demands of a record. A field filter whose value
/// parses away demands nothing.
pub open spec fn token_matches(t: TrackV, w: Seq<char>) -> bool {
    let wl = lower_of(w);
    if starts_with(wl, name_pre()) && w.len() >= 5 {
        match spec_filter_value(w.skip(5)) {
            Some(ve) => field_matches(t.name, ve.0, ve.1),
            None => true,
        }
    } else if starts_with(wl, artist_pre()) && w.len() >= 7 {
        match spec_filter_value(w.skip(7)) {
            Some(ve) => field_matches(t.artist, ve.0, ve.1),
            None => true,
        }
    } else if starts_with(wl, album_pre()) && w.len() >= 6 {
        match spec_filter_value(w.skip(6)) {
            Some(ve) => field_matches(t.album, ve.0, ve.1),
            None => true,
        }
    } else {
        word_matches(t, w)
    }
}

/// Whether a record satisfies the whole query: every token of the query
/// must match. The empty query matches every record.
pub open spec fn matches_query(t: TrackV, q: Seq<char>) -> bool {
    forall|k: int| 0 <= k < spec_tokens(q).len() ==> token_matches(t, #[trigger] spec_tokens(q)[k])
}

/// One classified query token, ready to be matched against records.
enum Clause {
    NameF(Vec<char>, bool),
    ArtistF(Vec<char>, bool),
    AlbumF(Vec<char>, bool),
    Word(Vec<char>),
    Pass,
}

/// The mathematical value of a classified token.
ghost enum ClauseV {
    NameF(Seq<char>, bool),
    ArtistF(Seq<char>, bool),
    AlbumF(Seq<char>, bool),
    Word(Seq<char>),
    Pass,
}

impl View for Clause {
    type V = ClauseV;

    closed spec fn view(&self) -> ClauseV {
        match self {
            Clause::NameF(v, e) => ClauseV::NameF(v@, *e),
            Clause::ArtistF(v, e) => ClauseV::ArtistF(v@, *e),
            Clause::AlbumF(v, e) => ClauseV::AlbumF(v@, *e),
            Clause::Word(w) => ClauseV::Word(w@),
            Clause::Pass => ClauseV::Pass,
        }
    }
}

/// What a classified token demands of a record.
spec fn clause_matches(t: TrackV, c: ClauseV) -> bool {
    match c {
        ClauseV::NameF(v, e) => field_matches(t.name, v, e),
        ClauseV::ArtistF(v, e) => field_matches(t.artist, v, e),
        ClauseV::AlbumF(v, e) => field_matches(t.album, v, e),
        ClauseV::Word(w) => word_matches(t, w),
        ClauseV::Pass => true,
    }
}

/// Reads a filter value as `spec_filter_value` describes.
fn parse_filter(v: Vec<char>) -> (r: Option<(Vec<char>, bool)>)
    ensures
        match r {
            Some(ve) => spec_filter_value(v@) matches Some(se) && ve.0@ == se.0 && ve.1 == se.1,
            None => spec_filter_value(v@) is None,
        },
{
    if v.len() == 0 {
        return None;
    }
    let first = v[0];
    let last = v[v.len() - 1];
    if v.len() >= 2 && ((first == '"' && last == '"') || (first == '\'' && last == '\'')) {
        if v.len() == 2 {
            None
        } else {
            let inner = sub_chars(&v, 1, v.len() - 1);
            Some((inner, true))
        }
    } else {
        Some((v, false))
    }
}

/// Classifies one query token.
fn classify(w: &Vec<char>) -> (c: Clause)
    ensures
        forall|t: TrackV| #[trigger] clause_matches(t, c@) == token_matches(t, w@),
{
    let wl = lower_chars(w.as_slice());
    let mut namep: Vec<char> = Vec::new();
    namep.push('n');
    namep.push('a');
    namep.push('m');
    namep.push('e');
    namep.push(':');
    proof {
        assert(namep@ =~= name_pre());
    }
    let mut artistp: Vec<char> = Vec::new();
    artistp.push('a');
    artistp.push('r');
    artistp.push('t');
    artistp.push('i');
    artistp.push('s');
    artistp.push('t');
    artistp.push(':');
    proof {
        assert(artistp@ =~= artist_pre());
    }
    let mut albump: Vec<char> = Vec::new();
    albump.push('a');
    albump.push('l');
    albump.push('b');
    albump.push('u');
    albump.push('m');
    albump.push(':');
    proof {
        assert(albump@ =~= album_pre());
    }
    if starts_with_chars(wl.as_slice(), namep.as_slice()) && w.len() >= 5 {
        match parse_filter(sub_chars(w.as_slice(), 5, w.len())) {
            Some((v, e)) => {
                proof {
                    assert(w@.skip(5) =~= w@.subrange(5, w@.len() as int));
                }
                Clause::NameF(v, e)
            }
            None => {
                proof {
                    assert(w@.skip(5) =~= w@.subrange(5, w@.len() as int));
                }
                Clause::Pass
            }
        }
    } else if starts_with_chars(wl.as_slice(), artistp.as_slice()) && w.len() >= 7 {
        match parse_filter(sub_chars(w.as_slice(), 7, w.len())) {
            Some((v, e)) => {
                proof {
                    assert(w@.skip(7) =~= w@.subrange(7, w@.len() as int));
                }
                Clause::ArtistF(v, e)
            }
            None => {
                proof {
                    assert(w@.skip(7) =~= w@.subrange(7, w@.len() as int));
                }
                Clause::Pass
            }
        }
    } else if starts_with_chars(wl.as_slice(), albump.as_slice()) && w.len() >= 6 {
        match parse_filter(sub_chars(w.as_slice(), 6, w.len())) {
            Some((v, e)) => {
                proof {
                    assert(w@.skip(6) =~= w@.subrange(6, w@.len() as int));
                }
                Clause::AlbumF(v, e)
            }
            None => {
                proof {
                    assert(w@.skip(6) =~= w@.subrange(6, w@.len() as int));
                }
                Clause::Pass
            }
        }
    } else {
        Clause::Word(w.clone())
    }
}

/// Smart-case substring matching of `key` against `target`.
fn smart_match_chars(target: &[char], key: &[char]) -> (r: bool)
    ensures
        r == smart_match(target@, key@),
{
    if has_upper_chars(key) {
        contains_chars(target, key)
    } else {
        let lt = lower_chars(target);
        let lk = lower_chars(key);
        contains_chars(lt.as_slice(), lk.as_slice())
    }
}

/// Whether one field satisfies a filter.
fn field_match(target: &String, key: &Vec<char>, exact: bool) -> (r: bool)
    ensures
        r == field_matches(target@, key@, exact),
{
    let tc = chars_of(target.as_str());
    if exact {
        eq_chars(tc.as_slice(), key.as_slice())
    } else {
        smart_match_chars(tc.as_slice(), key.as_slice())
    }
}

/// Whether a record satisfies one classified token.
fn clause_match(t: &CachedTrack, c: &Clause) -> (r: bool)
    ensures
        r == clause_matches(t@, c@),
{
    match c {
        Clause::NameF(v, e) => field_match(&t.name, v, *e),
        Clause::ArtistF(v, e) => field_match(&t.artist, v, *e),
        Clause::AlbumF(v, e) => field_match(&t.album, v, *e),
        Clause::Word(w) => {
            if has_upper_chars(w.as_slice()) {
                let mut target = chars_of(t.name.as_str());
                target.push(' ');
                let mut a = chars_of(t.artist.as_str());
                target.append(&mut a);
                target.push(' ');
                let mut b = chars_of(t.album.as_str());
                target.append(&mut b);
                proof {
                    assert(target@ =~= joined(t@.name, t@.artist, t@.album));
                }
                contains_chars(target.as_slice(), w.as_slice())
            } else {
                let sk = chars_of(t.search_key.as_str());
                let lw = lower_chars(w.as_slice());
                contains_chars(sk.as_slice(), lw.as_slice())
            }
        }
        Clause::Pass => true,
    }
}

impl TrackCache {
    /// Answers a query: exactly the records that satisfy every token of
    /// the query, in their stored order. An empty query returns the whole
    /// record set.
    pub fn search(&self, query: &str) -> (r: Vec<CachedTrack>)
        ensures
            r.deep_view() == self.tracks_view().filter(
                |t: TrackV| matches_query(t, query@),
            ),
    {
        broadcast use vstd::seq_lib::group_filter_ensures;

        let qc = chars_of(query);
        let tokens = split_spaces(&qc);
        let ghost toks = spec_tokens(query@);
        let mut clauses: Vec<Clause> = Vec::new();
        let mut k: usize = 0;
        while k < tokens.len()
            invariant
                0 <= k <= tokens@.len(),
                tokens.deep_view() == toks,
                clauses@.len() == k,
                forall|m: int, t: TrackV|
                    0 <= m < k ==> #[trigger] clause_matches(t, clauses@[m]@) == token_matches(
                        t,
                        toks[m],
                    ),
            decreases tokens@.len() - k,
        {
            let c = classify(&tokens[k]);
            proof {
                assert(tokens@[k as int].deep_view() == toks[k as int]);
                assert(tokens@[k as int].deep_view() =~= tokens@[k as int]@);
            }
            clauses.push(c);
            k += 1;
        }
        let ghost pred = |t: TrackV| matches_query(t, query@);
        let mut r: Vec<CachedTrack> = Vec::new();
        let mut i: usize = 0;
        proof {
            assert(self.tracks_view().take(0) =~= Seq::<TrackV>::empty());
            reveal(Seq::filter);
        }
        while i < self.tracks.len()
            invariant
                0 <= i <= self.tracks@.len(),
                tokens.deep_view() == toks,
                toks == spec_tokens(query@),
                clauses@.len() == toks.len(),
                forall|m: int, t: TrackV|
                    0 <= m < clauses@.len() ==> #[trigger] clause_matches(t, clauses@[m]@)
                        == token_matches(t, toks[m]),
                pred == (|t: TrackV| matches_query(t, query@)),
                r.deep_view() == self.tracks_view().take(i as int).filter(pred),
            decreases self.tracks@.len() - i,
        {
            let t = &self.tracks[i];
            let ghost tv = t@;
            let mut ok = true;
            let mut m: usize = 0;
            while m < clauses.len()
                invariant
                    0 <= m <= clauses@.len(),
                    tv == t@,
                    forall|mm: int, tt: TrackV|
                        0 <= mm < clauses@.len() ==> #[trigger] clause_matches(tt, clauses@[mm]@)
                            == token_matches(tt, toks[mm]),
                    ok == forall|mm: int| 0 <= mm < m ==> token_matches(tv, #[trigger] toks[mm]),
                decreases clauses@.len() - m,
            {
                if !clause_match(t, &clauses[m]) {
                    ok = false;
                    proof {
                        assert(!token_matches(tv, toks[m as int]));
                    }
                    m = clauses.len();
                } else {
                    proof {
                        assert(token_matches(tv, toks[m as int]));
                    }
                    m += 1;
                }
            }
            proof {
                assert(ok == matches_query(tv, query@));
                assert(self.tracks_view().take(i as int + 1).drop_last() =~= self.tracks_view()
                    .take(i as int));
                assert(self.tracks_view().take(i as int + 1).last() == tv);
                reveal(Seq::filter);
            }
            if ok {
                let ghost prev = r.deep_view();
                r.push(t.clone());
                proof {
                    assert(r.deep_view() =~= prev.push(tv));
                }
            }
            i += 1;
        }
        proof {
            assert(self.tracks_view().take(i as int) =~= self.tracks_view());
        }
        r
    }
}

} // verus!
