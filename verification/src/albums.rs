//! Album-oriented views of the cache: the canonical track order of one
//! album, and the most recently added distinct albums.

use vstd::prelude::*;
use vstd::multiset::Multiset;
use vstd::seq_lib::group_to_multiset_ensures;
use crate::cache::TrackCache;
use crate::dates::sortable_date;
use crate::dates::sortable_date_key;
use crate::text::{chars_of, eq_chars, le_chars, lemma_le_total, lemma_le_trans, spec_le};
use crate::track::{CachedTrack, TrackV};

verus! {

/// The canonical order of an album's tracks: by disc number, then track
/// number.
pub open spec fn album_le(a: TrackV, b: TrackV) -> bool {
    a.disc_number < b.disc_number || (a.disc_number == b.disc_number && a.track_number
        <= b.track_number)
}

/// Whether a run of records is in canonical album order.
pub open spec fn album_sorted(ts: Seq<TrackV>) -> bool {
    forall|i: int, j: int| 0 <= i < j < ts.len() ==> album_le(#[trigger] ts[i], #[trigger] ts[j])
}

/// One matching record paired with the storage position it came from.
struct Picked<'a> {
    idx: usize,
    t: &'a CachedTrack,
}

/// The mathematical value of a position-paired record.
ghost struct PickedV {
    idx: int,
    t: TrackV,
}

impl<'a> View for Picked<'a> {
    type V = PickedV;

    closed spec fn view(&self) -> PickedV {
        PickedV { idx: self.idx as int, t: self.t@ }
    }
}

impl<'a> DeepView for Picked<'a> {
    type V = PickedV;

    closed spec fn deep_view(&self) -> PickedV {
        self.view()
    }
}

/// Whether a pair points back at its record.
spec fn picked_ok(tv: Seq<TrackV>, p: PickedV) -> bool {
    0 <= p.idx < tv.len() && p.t == tv[p.idx]
}

/// The records of a run of pairs, in order.
spec fn ts_of(ps: Seq<PickedV>) -> Seq<TrackV> {
    ps.map_values(|p: PickedV| p.t)
}

/// The canonical album order made strict by the storage position: disc
/// number, then track number, then the position itself.
spec fn le_idx(a: PickedV, b: PickedV) -> bool {
    a.t.disc_number < b.t.disc_number || (a.t.disc_number == b.t.disc_number
        && a.t.track_number < b.t.track_number) || (a.t.disc_number == b.t.disc_number
        && a.t.track_number == b.t.track_number && a.idx <= b.idx)
}

/// Whether a run of pairs is in canonical order with ties kept in
/// storage order.
spec fn idx_sorted(ps: Seq<PickedV>) -> bool {
    forall|i: int, j: int| 0 <= i < j < ps.len() ==> le_idx(#[trigger] ps[i], #[trigger] ps[j])
}

/// Whether `a` comes no later than `b` in canonical order, storage
/// position breaking ties.
fn le_idx_at(a: &Picked, b: &Picked) -> (r: bool)
    ensures
        r == le_idx(a@, b@),
{
    a.t.disc_number < b.t.disc_number || (a.t.disc_number == b.t.disc_number && a.t.track_number
        < b.t.track_number) || (a.t.disc_number == b.t.disc_number && a.t.track_number
        == b.t.track_number && a.idx <= b.idx)
}

/// Sorts pairs into canonical album order, ties kept in storage order;
/// the result holds exactly the given pairs and so exactly the given
/// records.
fn sort_album_order<'a>(input: Vec<Picked<'a>>) -> (r: Vec<Picked<'a>>)
    ensures
        r.deep_view().to_multiset() == input.deep_view().to_multiset(),
        ts_of(r.deep_view()).to_multiset() == ts_of(input.deep_view()).to_multiset(),
        idx_sorted(r.deep_view()),
        r.deep_view().len() == input.deep_view().len(),
{
    broadcast use group_to_multiset_ensures, vstd::multiset::group_multiset_axioms;

    let mut work = input;
    let mut out: Vec<Picked<'a>> = Vec::new();
    let ghost full = work.deep_view().to_multiset();
    let ghost full_t = ts_of(work.deep_view()).to_multiset();
    proof {
        assert(out.deep_view().to_multiset().add(work.deep_view().to_multiset()) =~= full);
        assert(ts_of(out.deep_view()).to_multiset().add(ts_of(work.deep_view()).to_multiset())
            =~= full_t);
    }
    while work.len() > 0
        invariant
            out.deep_view().to_multiset().add(work.deep_view().to_multiset()) == full,
            ts_of(out.deep_view()).to_multiset().add(ts_of(work.deep_view()).to_multiset())
                == full_t,
            full == input.deep_view().to_multiset(),
            full_t == ts_of(input.deep_view()).to_multiset(),
            out.deep_view().len() + work.deep_view().len() == input.deep_view().len(),
            idx_sorted(out.deep_view()),
            forall|i: int, j: int|
                0 <= i < out.deep_view().len() && 0 <= j < work.deep_view().len() ==> le_idx(
                    #[trigger] out.deep_view()[i],
                    #[trigger] work.deep_view()[j],
                ),
        decreases work.len(),
    {
        // the first pair that no other pair must precede
        let mut best: usize = 0;
        let mut k: usize = 1;
        while k < work.len()
            invariant
                0 <= best < k <= work.deep_view().len(),
                work.deep_view().len() == work@.len(),
                forall|m: int|
                    0 <= m < k ==> le_idx(
                        work.deep_view()[best as int],
                        #[trigger] work.deep_view()[m],
                    ),
            decreases work.len() - k,
        {
            if !le_idx_at(&work[best], &work[k]) {
                proof {
                    assert forall|m: int| 0 <= m < k + 1 implies le_idx(
                        work.deep_view()[k as int],
                        #[trigger] work.deep_view()[m],
                    ) by {
                        let a = work.deep_view()[k as int];
                        let b = work.deep_view()[best as int];
                        let c = work.deep_view()[m];
                        assert(le_idx(a, b) || le_idx(b, a));
                        if m < k {
                            assert(le_idx(b, c));
                        }
                    }
                }
                best = k;
            }
            k += 1;
        }
        let ghost prev_out = out.deep_view();
        let ghost prev_work = work.deep_view();
        let chosen = work.remove(best);
        out.push(chosen);
        proof {
            let x = prev_work[best as int];
            assert(out.deep_view() =~= prev_out.push(x));
            assert(work.deep_view() =~= prev_work.remove(best as int));
            vstd::seq_lib::to_multiset_build::<PickedV>(prev_out, x);
            vstd::seq_lib::to_multiset_contains::<PickedV>(prev_work, x);
            assert(prev_work.contains(x));
            vstd::seq_lib::to_multiset_remove::<PickedV>(prev_work, best as int);
            assert(out.deep_view().to_multiset().add(work.deep_view().to_multiset()) =~= full);
            // the record multisets follow the pair multisets
            assert(ts_of(out.deep_view()) =~= ts_of(prev_out).push(x.t));
            assert(ts_of(work.deep_view()) =~= ts_of(prev_work).remove(best as int));
            vstd::seq_lib::to_multiset_build::<TrackV>(ts_of(prev_out), x.t);
            vstd::seq_lib::to_multiset_contains::<TrackV>(ts_of(prev_work), x.t);
            assert(ts_of(prev_work)[best as int] == x.t);
            assert(ts_of(prev_work).contains(x.t));
            vstd::seq_lib::to_multiset_remove::<TrackV>(ts_of(prev_work), best as int);
            assert(ts_of(out.deep_view()).to_multiset().add(
                ts_of(work.deep_view()).to_multiset(),
            ) =~= full_t);
            assert forall|i: int, j: int|
                0 <= i < out.deep_view().len() && 0 <= j < work.deep_view().len() implies le_idx(
                #[trigger] out.deep_view()[i],
                #[trigger] work.deep_view()[j],
            ) by {
                let w = work.deep_view()[j];
                if j < best {
                    assert(w == prev_work[j]);
                } else {
                    assert(w == prev_work[j + 1]);
                }
                if i < prev_out.len() {
                    assert(le_idx(out.deep_view()[i], w));
                } else {
                    assert(out.deep_view()[i] == prev_work[best as int]);
                }
            }
            assert(idx_sorted(out.deep_view()));
        }
    }
    proof {
        assert(work.deep_view() =~= Seq::<PickedV>::empty());
        assert forall|a: PickedV| work.deep_view().to_multiset().count(a) == 0 by {
            assert(!work.deep_view().contains(a));
        }
        assert(work.deep_view().to_multiset() =~= Multiset::<PickedV>::empty());
        assert(out.deep_view().to_multiset() =~= full);
        assert(ts_of(work.deep_view()) =~= Seq::<TrackV>::empty());
        assert forall|a: TrackV| ts_of(work.deep_view()).to_multiset().count(a) == 0 by {
            assert(!ts_of(work.deep_view()).contains(a));
        }
        assert(ts_of(work.deep_view()).to_multiset() =~= Multiset::<TrackV>::empty());
        assert(ts_of(out.deep_view()).to_multiset() =~= full_t);
    }
    out
}

/// Whether the pairing `pos` shows `r` to be a reordering of records of
/// `src` that keeps records with equal disc and track numbers in their
/// storage order.
pub open spec fn reorder_witness(src: Seq<TrackV>, r: Seq<TrackV>, pos: Seq<int>) -> bool {
    &&& pos.len() == r.len()
    &&& (forall|i: int|
        0 <= i < pos.len() ==> 0 <= #[trigger] pos[i] < src.len() && r[i] == src[pos[i]])
    &&& (forall|i: int, j: int|
        0 <= i < j < pos.len() && album_le(#[trigger] r[i], #[trigger] r[j]) && album_le(
            r[j],
            r[i],
        ) ==> pos[i] < pos[j])
}

/// Whether `r` rearranges records of `src` with equal disc and track
/// numbers kept in their storage order, as a stable sort leaves them.
pub open spec fn stable_album_reorder(src: Seq<TrackV>, r: Seq<TrackV>) -> bool {
    exists|pos: Seq<int>| #[trigger] reorder_witness(src, r, pos)
}

// ---------------------------------------------------------------------------
// Recently added albums
// ---------------------------------------------------------------------------

/// The key a record is ranked by for recency: the sortable form of its
/// date-added text.
pub open spec fn date_key(t: TrackV) -> Seq<char> {
    sortable_date(t.date_added)
}

/// One record reduced to what the recency view needs: its ranking key,
/// its album, its artist, and the position of the record it came from.
struct Entry {
    key: Vec<char>,
    album: String,
    artist: String,
    idx: usize,
}

/// The mathematical value of a recency entry.
ghost struct EntryV {
    key: Seq<char>,
    album: Seq<char>,
    artist: Seq<char>,
    idx: int,
}

impl View for Entry {
    type V = EntryV;

    closed spec fn view(&self) -> EntryV {
        EntryV { key: self.key@, album: self.album@, artist: self.artist@, idx: self.idx as int }
    }
}

impl DeepView for Entry {
    type V = EntryV;

    closed spec fn deep_view(&self) -> EntryV {
        self.view()
    }
}

/// The recency entry of the record at position `k`.
spec fn entry_at(tv: Seq<TrackV>, k: int) -> EntryV {
    EntryV { key: date_key(tv[k]), album: tv[k].album, artist: tv[k].artist, idx: k }
}

/// One recency entry per record, in record order.
spec fn entries_map(tv: Seq<TrackV>) -> Seq<EntryV> {
    Seq::new(tv.len(), |k: int| entry_at(tv, k))
}

/// Whether an entry faithfully stands for the record it points at.
spec fn entry_ok(tv: Seq<TrackV>, e: EntryV) -> bool {
    &&& 0 <= e.idx < tv.len()
    &&& e.album == tv[e.idx].album
    &&& e.artist == tv[e.idx].artist
    &&& e.key == date_key(tv[e.idx])
}

/// Newest first, with the storage position breaking exact-key ties.
spec fn e_le(a: EntryV, b: EntryV) -> bool {
    if spec_le(a.key, b.key) && spec_le(b.key, a.key) {
        a.idx <= b.idx
    } else {
        spec_le(b.key, a.key)
    }
}

/// `e_le` is total.
proof fn lemma_e_le_total(a: EntryV, b: EntryV)
    ensures
        e_le(a, b) || e_le(b, a),
{
    lemma_le_total(a.key, b.key);
}

/// `e_le` is transitive.
proof fn lemma_e_le_trans(a: EntryV, b: EntryV, c: EntryV)
    requires
        e_le(a, b),
        e_le(b, c),
    ensures
        e_le(a, c),
{
    lemma_le_total(a.key, b.key);
    lemma_le_total(b.key, c.key);
    lemma_le_total(a.key, c.key);
    lemma_le_trans(c.key, b.key, a.key);
    if spec_le(a.key, c.key) {
        lemma_le_trans(a.key, c.key, b.key);
        lemma_le_trans(b.key, a.key, c.key);
    }
}

/// Whether a run of entries is newest first, exact-key ties in storage
/// order.
spec fn e_sorted(es: Seq<EntryV>) -> bool {
    forall|i: int, j: int| 0 <= i < j < es.len() ==> e_le(#[trigger] es[i], #[trigger] es[j])
}

/// Whether `a` comes no later than `b`: newer keys first, the storage
/// position breaking exact-key ties.
fn e_le_at(a: &Entry, b: &Entry) -> (r: bool)
    ensures
        r == e_le(a@, b@),
{
    let ab = le_chars(a.key.as_slice(), b.key.as_slice());
    let ba = le_chars(b.key.as_slice(), a.key.as_slice());
    if ab && ba {
        a.idx <= b.idx
    } else {
        ba
    }
}

/// Sorts entries newest first, exact-key ties kept in storage order; the
/// result holds exactly the given entries.
fn sort_entries_desc(input: Vec<Entry>) -> (r: Vec<Entry>)
    ensures
        r.deep_view().to_multiset() == input.deep_view().to_multiset(),
        e_sorted(r.deep_view()),
        r.deep_view().len() == input.deep_view().len(),
{
    broadcast use group_to_multiset_ensures, vstd::multiset::group_multiset_axioms;

    let mut work = input;
    let mut out: Vec<Entry> = Vec::new();
    let ghost full = work.deep_view().to_multiset();
    proof {
        assert(out.deep_view().to_multiset().add(work.deep_view().to_multiset()) =~= full);
    }
    while work.len() > 0
        invariant
            out.deep_view().to_multiset().add(work.deep_view().to_multiset()) == full,
            full == input.deep_view().to_multiset(),
            out.deep_view().len() + work.deep_view().len() == input.deep_view().len(),
            e_sorted(out.deep_view()),
            forall|i: int, j: int|
                0 <= i < out.deep_view().len() && 0 <= j < work.deep_view().len() ==> e_le(
                    #[trigger] out.deep_view()[i],
                    #[trigger] work.deep_view()[j],
                ),
        decreases work.len(),
    {
        // the first entry that no other entry outranks
        let mut best: usize = 0;
        let mut k: usize = 1;
        proof {
            lemma_e_le_total(work.deep_view()[0], work.deep_view()[0]);
        }
        while k < work.len()
            invariant
                0 <= best < k <= work.deep_view().len(),
                work.deep_view().len() == work@.len(),
                forall|m: int|
                    0 <= m < k ==> e_le(
                        work.deep_view()[best as int],
                        #[trigger] work.deep_view()[m],
                    ),
            decreases work.len() - k,
        {
            if !e_le_at(&work[best], &work[k]) {
                proof {
                    lemma_e_le_total(work.deep_view()[k as int], work.deep_view()[best as int]);
                    lemma_e_le_total(work.deep_view()[k as int], work.deep_view()[k as int]);
                    assert forall|m: int| 0 <= m < k + 1 implies e_le(
                        work.deep_view()[k as int],
                        #[trigger] work.deep_view()[m],
                    ) by {
                        if m < k {
                            lemma_e_le_trans(
                                work.deep_view()[k as int],
                                work.deep_view()[best as int],
                                work.deep_view()[m],
                            );
                        }
                    }
                }
                best = k;
            }
            k += 1;
        }
        let ghost prev_out = out.deep_view();
        let ghost prev_work = work.deep_view();
        let chosen = work.remove(best);
        out.push(chosen);
        proof {
            let x = prev_work[best as int];
            assert(out.deep_view() =~= prev_out.push(x));
            assert(work.deep_view() =~= prev_work.remove(best as int));
            vstd::seq_lib::to_multiset_build::<EntryV>(prev_out, x);
            vstd::seq_lib::to_multiset_contains::<EntryV>(prev_work, x);
            assert(prev_work.contains(x));
            vstd::seq_lib::to_multiset_remove::<EntryV>(prev_work, best as int);
            assert(out.deep_view().to_multiset().add(work.deep_view().to_multiset()) =~= full);
            assert forall|i: int, j: int|
                0 <= i < out.deep_view().len() && 0 <= j < work.deep_view().len() implies e_le(
                #[trigger] out.deep_view()[i],
                #[trigger] work.deep_view()[j],
            ) by {
                let w = work.deep_view()[j];
                if j < best {
                    assert(w == prev_work[j]);
                } else {
                    assert(w == prev_work[j + 1]);
                }
                if i < prev_out.len() {
                    assert(e_le(out.deep_view()[i], x));
                    assert(e_le(x, w));
                    lemma_e_le_trans(out.deep_view()[i], x, w);
                } else {
                    assert(out.deep_view()[i] == x);
                    assert(e_le(x, w));
                }
            }
            assert(e_sorted(out.deep_view()));
        }
    }
    proof {
        assert(work.deep_view() =~= Seq::<EntryV>::empty());
        assert forall|a: EntryV| work.deep_view().to_multiset().count(a) == 0 by {
            assert(!work.deep_view().contains(a));
        }
        assert(work.deep_view().to_multiset() =~= Multiset::<EntryV>::empty());
        assert(out.deep_view().to_multiset() =~= full);
    }
    out
}

/// One sorted recency entry per record, newest first; each entry points
/// back at the record it stands for.
#[verifier::rlimit(100)]
#[verifier::spinoff_prover]
fn sorted_entries(tracks: &Vec<CachedTrack>) -> (sorted: Vec<Entry>)
    ensures
        e_sorted(sorted.deep_view()),
        forall|q: int|
            0 <= q < sorted.deep_view().len() ==> entry_ok(
                tracks.deep_view(),
                #[trigger] sorted.deep_view()[q],
            ),
        sorted.deep_view().to_multiset() == entries_map(tracks.deep_view()).to_multiset(),
{
    broadcast use vstd::seq_lib::group_to_multiset_ensures, vstd::multiset::group_multiset_axioms;

    let ghost tv = tracks.deep_view();
    let mut entries: Vec<Entry> = Vec::new();
    let mut i: usize = 0;
    while i < tracks.len()
        invariant
            0 <= i <= tracks@.len(),
            tv == tracks.deep_view(),
            entries.deep_view() =~= entries_map(tv).take(i as int),
        decreases tracks@.len() - i,
    {
        let t = &tracks[i];
        let dc = chars_of(t.date_added.as_str());
        let key = sortable_date_key(dc.as_slice());
        let ghost prev = entries.deep_view();
        entries.push(Entry { key, album: t.album.clone(), artist: t.artist.clone(), idx: i });
        proof {
            assert(entries.deep_view() =~= prev.push(entry_at(tv, i as int)));
            assert(entries.deep_view() =~= entries_map(tv).take(i as int + 1));
        }
        i += 1;
    }
    proof {
        assert(entries_map(tv).take(i as int) =~= entries_map(tv));
    }
    let ghost emap = entries_map(tv);
    let sorted = sort_entries_desc(entries);
    let ghost sv = sorted.deep_view();
    proof {
        assert forall|q: int| 0 <= q < sv.len() implies entry_ok(tv, #[trigger] sv[q]) by {
            assert(sv.to_multiset().count(sv[q]) > 0) by {
                assert(sv.contains(sv[q]));
            }
            assert(emap.contains(sv[q]));
            let k = choose|k: int| 0 <= k < emap.len() && emap[k] == sv[q];
            assert(emap[k] == entry_at(tv, k));
        }
    }
    sorted
}

/// Whether some record of `ts` belongs to `album`, carries `artist`, and
/// is dated no earlier than every record of the album.
pub open spec fn newest_of_album(ts: Seq<TrackV>, album: Seq<char>, artist: Seq<char>) -> bool {
    exists|k: int|
        0 <= k < ts.len() && (#[trigger] ts[k]).album == album && ts[k].artist == artist && (
        forall|u: TrackV|
            ts.contains(u) && u.album == album ==> spec_le(date_key(u), #[trigger] date_key(ts[k])))
        && (forall|m: int|
            0 <= m < k && (#[trigger] ts[m]).album == album ==> !spec_le(
                date_key(ts[k]),
                date_key(ts[m]),
            ))
}

/// Whether some record of `ts` belongs to `album` and is dated no earlier
/// than `u`.
pub open spec fn album_no_newer_than(ts: Seq<TrackV>, u: TrackV, album: Seq<char>) -> bool {
    exists|t: TrackV|
        ts.contains(t) && t.album == album && spec_le(date_key(u), #[trigger] date_key(t))
}

/// Whether `album` stands somewhere in the collected pairs.
pub open spec fn album_listed(r: Seq<(String, String)>, album: Seq<char>) -> bool {
    exists|i: int| 0 <= i < r.len() && #[trigger] r[i].0@ == album
}

/// What the recency walk relies on about the entries and the pairs it
/// collected: the entries are sorted newest first, each points back at
/// its record, and each pair was taken in order at the first position of
/// its album.
spec fn walk_shape(tv: Seq<TrackV>, sv: Seq<EntryV>, rv: Seq<(String, String)>, picks: Seq<int>) -> bool {
    &&& e_sorted(sv)
    &&& (forall|q: int| 0 <= q < sv.len() ==> entry_ok(tv, #[trigger] sv[q]))
    &&& sv.to_multiset() == entries_map(tv).to_multiset()
    &&& picks.len() == rv.len()
    &&& (forall|i: int| 0 <= i < picks.len() ==> 0 <= #[trigger] picks[i] < sv.len())
    &&& (forall|i: int, j: int| 0 <= i < j < picks.len() ==> picks[i] < picks[j])
    &&& (forall|i: int|
        0 <= i < rv.len() ==> #[trigger] rv[i].0@ == sv[picks[i]].album && rv[i].1@ == sv[
            picks[i]
        ].artist)
    &&& (forall|i: int, q: int|
        0 <= i < picks.len() && 0 <= q < picks[i] ==> (#[trigger] sv[q]).album != sv[
            #[trigger] picks[i]
        ].album)
}

/// A record of the album collected at `j` is never newer than the entry
/// taken for it.
#[verifier::rlimit(100)]
#[verifier::spinoff_prover]
proof fn lemma_album_bound(
    tv: Seq<TrackV>,
    sv: Seq<EntryV>,
    rv: Seq<(String, String)>,
    picks: Seq<int>,
    j: int,
    u: TrackV,
)
    requires
        walk_shape(tv, sv, rv, picks),
        0 <= j < rv.len(),
        tv.contains(u),
        u.album == rv[j].0@,
    ensures
        spec_le(date_key(u), sv[picks[j]].key),
{
    broadcast use vstd::seq_lib::group_to_multiset_ensures, vstd::multiset::group_multiset_axioms;

    let pj = picks[j];
    assert(sv[pj] == sv[picks[j]]);
    let ku = choose|ku: int| 0 <= ku < tv.len() && tv[ku] == u;
    assert(tv[ku] == u);
    let e = entries_map(tv)[ku];
    assert(e == entry_at(tv, ku));
    assert(entries_map(tv).contains(e));
    assert(entries_map(tv).to_multiset().count(e) > 0);
    assert(sv.to_multiset().count(e) > 0);
    assert(sv.contains(e));
    let q = choose|q: int| 0 <= q < sv.len() && sv[q] == e;
    assert(sv[q].album == sv[pj].album);
    assert(q >= pj);
    if q > pj {
        assert(e_le(sv[pj], sv[q]));
        assert(spec_le(sv[q].key, sv[pj].key));
    } else {
        lemma_le_total(sv[pj].key, sv[pj].key);
    }
}

/// The entries taken later rank no newer than the ones taken earlier,
/// and each is the entry of a real record of its album.
proof fn lemma_picks_desc(
    tv: Seq<TrackV>,
    sv: Seq<EntryV>,
    rv: Seq<(String, String)>,
    picks: Seq<int>,
    i: int,
    j: int,
)
    requires
        walk_shape(tv, sv, rv, picks),
        0 <= i < j < rv.len(),
    ensures
        spec_le(sv[picks[j]].key, sv[picks[i]].key),
{
    assert(picks[i] < picks[j]);
    assert(e_le(sv[picks[i]], sv[picks[j]]));
    assert(spec_le(sv[picks[j]].key, sv[picks[i]].key));
}

/// No stored record of the collected album that comes before the one the
/// walk picked is as new as the picked one.
#[verifier::rlimit(100)]
#[verifier::spinoff_prover]
proof fn lemma_first_of_album(
    tv: Seq<TrackV>,
    sv: Seq<EntryV>,
    rv: Seq<(String, String)>,
    picks: Seq<int>,
    i: int,
)
    requires
        walk_shape(tv, sv, rv, picks),
        0 <= i < rv.len(),
    ensures
        forall|m: int|
            0 <= m < sv[picks[i]].idx && (#[trigger] tv[m]).album == sv[picks[i]].album
                ==> !spec_le(sv[picks[i]].key, date_key(tv[m])),
{
    broadcast use vstd::seq_lib::group_to_multiset_ensures, vstd::multiset::group_multiset_axioms;

    let p = picks[i];
    assert(sv[p] == sv[picks[i]]);
    assert forall|m: int|
        0 <= m < sv[p].idx && (#[trigger] tv[m]).album == sv[p].album implies !spec_le(
        sv[p].key,
        date_key(tv[m]),
    ) by {
        assert(entry_ok(tv, sv[p]));
        let e = entries_map(tv)[m];
        assert(e == entry_at(tv, m));
        assert(entries_map(tv).contains(e));
        assert(entries_map(tv).to_multiset().count(e) > 0);
        assert(sv.to_multiset().count(e) > 0);
        assert(sv.contains(e));
        let q = choose|q: int| 0 <= q < sv.len() && sv[q] == e;
        assert(sv[q].album == sv[p].album);
        assert(q >= p);
        if q == p {
            assert(sv[p].idx == m);
            assert(false);
        }
        assert(e_le(sv[p], sv[q]));
        if spec_le(sv[p].key, sv[q].key) && spec_le(sv[q].key, sv[p].key) {
            assert(sv[p].idx <= sv[q].idx);
            assert(false);
        }
    }
}

/// The record behind one collected pair: it belongs to the album, carries
/// the collected artist, no record of the album is newer, and no earlier
/// stored record of the album is as new.
#[verifier::rlimit(100)]
#[verifier::spinoff_prover]
proof fn lemma_recent_provenance_one(
    tv: Seq<TrackV>,
    sv: Seq<EntryV>,
    rv: Seq<(String, String)>,
    picks: Seq<int>,
    i: int,
)
    requires
        walk_shape(tv, sv, rv, picks),
        0 <= i < rv.len(),
    ensures
        newest_of_album(tv, rv[i].0@, rv[i].1@),
{
    let p = picks[i];
    assert(sv[p] == sv[picks[i]]);
    assert(entry_ok(tv, sv[p]));
    let k = sv[p].idx;
    let t = tv[k];
    assert(t.album == rv[i].0@ && t.artist == rv[i].1@);
    assert(date_key(t) == sv[p].key);
    assert forall|u: TrackV| tv.contains(u) && u.album == rv[i].0@ implies spec_le(
        date_key(u),
        #[trigger] date_key(tv[k]),
    ) by {
        lemma_album_bound(tv, sv, rv, picks, i, u);
    }
    lemma_first_of_album(tv, sv, rv, picks, i);
    assert forall|m: int| 0 <= m < k && (#[trigger] tv[m]).album == rv[i].0@ implies !spec_le(
        date_key(tv[k]),
        date_key(tv[m]),
    ) by {
        assert(!spec_le(sv[p].key, date_key(tv[m])));
    }
    assert(0 <= k < tv.len() && tv[k].album == rv[i].0@ && tv[k].artist == rv[i].1@);
}

/// One pair of collected albums, compared through one record of the
/// later one.
#[verifier::rlimit(100)]
#[verifier::spinoff_prover]
proof fn lemma_recent_order_one(
    tv: Seq<TrackV>,
    sv: Seq<EntryV>,
    rv: Seq<(String, String)>,
    picks: Seq<int>,
    i: int,
    j: int,
    u: TrackV,
)
    requires
        walk_shape(tv, sv, rv, picks),
        0 <= i < j < rv.len(),
        tv.contains(u),
        u.album == rv[j].0@,
    ensures
        exists|t: TrackV|
            tv.contains(t) && t.album == rv[i].0@ && spec_le(date_key(u), #[trigger] date_key(t)),
{
    lemma_album_bound(tv, sv, rv, picks, j, u);
    lemma_picks_desc(tv, sv, rv, picks, i, j);
    let pi = picks[i];
    assert(entry_ok(tv, sv[pi]));
    let t = tv[sv[pi].idx];
    assert(tv.contains(t)) by {
        assert(tv[sv[pi].idx] == t);
    }
    lemma_le_trans(date_key(u), sv[picks[j]].key, sv[pi].key);
    assert(spec_le(date_key(u), date_key(t)));
}

/// When the walk ran through every entry, every nonempty album appears.
#[verifier::rlimit(100)]
#[verifier::spinoff_prover]
proof fn lemma_recent_complete(
    tv: Seq<TrackV>,
    sv: Seq<EntryV>,
    rv: Seq<(String, String)>,
)
    requires
        sv.to_multiset() == entries_map(tv).to_multiset(),
        forall|q: int|
            0 <= q < sv.len() ==> (#[trigger] sv[q]).album.len() == 0 || exists|i: int|
                0 <= i < rv.len() && #[trigger] rv[i].0@ == sv[q].album,
    ensures
        forall|t: TrackV|
            tv.contains(t) && t.album.len() > 0 ==> exists|i: int|
                0 <= i < rv.len() && #[trigger] rv[i].0@ == t.album,
{
    broadcast use vstd::seq_lib::group_to_multiset_ensures, vstd::multiset::group_multiset_axioms;

    assert forall|t: TrackV| tv.contains(t) && t.album.len() > 0 implies exists|i: int|
        0 <= i < rv.len() && #[trigger] rv[i].0@ == t.album by {
        let kt = choose|kt: int| 0 <= kt < tv.len() && tv[kt] == t;
        assert(tv[kt] == t);
        let e = entries_map(tv)[kt];
        assert(e == entry_at(tv, kt));
        assert(entries_map(tv).contains(e));
        assert(entries_map(tv).to_multiset().count(e) > 0);
        assert(sv.to_multiset().count(e) > 0);
        assert(sv.contains(e));
        let q = choose|q: int| 0 <= q < sv.len() && sv[q] == e;
        assert(sv[q].album == t.album);
        assert(sv[q].album.len() > 0);
    }
}

impl TrackCache {
    /// The most recently added distinct albums, newest first, at most
    /// `limit` of them. Each album appears once, paired with the artist
    /// of the first stored record among those carrying the album's newest
    /// date-added text; albums with empty names are left out entirely.
    #[verifier::rlimit(100)]
    #[verifier::spinoff_prover]
    pub fn get_recent_albums(&self, limit: usize) -> (r: Vec<(String, String)>)
        ensures
            r@.len() <= limit,
            forall|i: int, j: int| 0 <= i < j < r@.len() ==> r@[i].0@ != r@[j].0@,
            forall|i: int| 0 <= i < r@.len() ==> r@[i].0@.len() > 0,
            forall|i: int|
                0 <= i < r@.len() ==> #[trigger] newest_of_album(
                    self.tracks_view(),
                    r@[i].0@,
                    r@[i].1@,
                ),
            forall|i: int, j: int, u: TrackV|
                #![trigger album_no_newer_than(self.tracks_view(), u, r@[i].0@), r@[j]]
                0 <= i < j < r@.len() && self.tracks_view().contains(u) && u.album == r@[j].0@
                    ==> album_no_newer_than(self.tracks_view(), u, r@[i].0@),
            r@.len() == limit || forall|t: TrackV|
                self.tracks_view().contains(t) && t.album.len() > 0 ==> #[trigger] album_listed(
                    r@,
                    t.album,
                ),
    {
        broadcast use vstd::seq_lib::group_to_multiset_ensures, vstd::multiset::group_multiset_axioms
        ;

        let ghost tv = self.tracks_view();
        let sorted = sorted_entries(&self.tracks);
        let ghost sv = sorted.deep_view();
        let mut r: Vec<(String, String)> = Vec::new();
        let ghost mut picks: Seq<int> = Seq::empty();
        let mut w: usize = 0;
        while w < sorted.len() && r.len() < limit
            invariant
                0 <= w <= sv.len(),
                sv == sorted.deep_view(),
                tv == self.tracks_view(),
                e_sorted(sv),
                forall|q: int| 0 <= q < sv.len() ==> entry_ok(tv, #[trigger] sv[q]),
                sv.to_multiset() == entries_map(tv).to_multiset(),
                r@.len() <= limit,
                picks.len() == r@.len(),
                forall|i: int| 0 <= i < picks.len() ==> 0 <= #[trigger] picks[i] < w,
                forall|i: int, j: int| 0 <= i < j < picks.len() ==> picks[i] < picks[j],
                forall|i: int|
                    0 <= i < r@.len() ==> #[trigger] r@[i].0@ == sv[picks[i]].album && r@[i].1@
                        == sv[picks[i]].artist,
                forall|i: int| 0 <= i < r@.len() ==> #[trigger] r@[i].0@.len() > 0,
                forall|i: int, q: int|
                    0 <= i < picks.len() && 0 <= q < picks[i] ==> (#[trigger] sv[q]).album != sv[
                        #[trigger] picks[i]
                    ].album,
                forall|i: int, j: int| 0 <= i < j < r@.len() ==> r@[i].0@ != r@[j].0@,
                forall|q: int|
                    0 <= q < w ==> (#[trigger] sv[q]).album.len() == 0 || exists|i: int|
                        0 <= i < r@.len() && #[trigger] r@[i].0@ == sv[q].album,
            decreases sv.len() - w,
        {
            let e = &sorted[w];
            let ghost ev = sv[w as int];
            proof {
                assert(e@ == ev);
            }
            let album_empty = e.album.as_str().is_empty();
            proof {
                if album_empty {
                    assert(ev.album.len() == 0);
                }
            }
            if !album_empty {
                // skip an album already collected
                let mut dup = false;
                let mut m: usize = 0;
                while m < r.len()
                    invariant
                        0 <= m <= r@.len(),
                        sv == sorted.deep_view(),
                        0 <= w < sv.len(),
                        e@ == sv[w as int],
                        dup == exists|i: int|
                            0 <= i < m && #[trigger] r@[i].0@ == sv[w as int].album,
                    decreases r@.len() - m,
                {
                    let rc = chars_of(r[m].0.as_str());
                    let ec = chars_of(e.album.as_str());
                    if eq_chars(rc.as_slice(), ec.as_slice()) {
                        dup = true;
                        m = r.len();
                    } else {
                        m += 1;
                    }
                }
                if !dup {
                    let ghost prev = r@;
                    r.push((e.album.clone(), e.artist.clone()));
                    proof {
                        picks = picks.push(w as int);
                        assert(r@ =~= prev.push((r@[prev.len() as int].0, r@[
                            prev.len() as int
                        ].1)));
                        assert(r@[prev.len() as int].0@ == ev.album);
                        assert(r@[prev.len() as int].1@ == ev.artist);
                        assert(r@[prev.len() as int].0@.len() > 0);
                        // the position taken is the first with this album:
                        // an earlier one would already stand in the list
                        assert forall|q: int| 0 <= q < w implies (#[trigger] sv[q]).album
                            != ev.album by {
                            if sv[q].album == ev.album {
                                assert(exists|i: int|
                                    0 <= i < prev.len() && #[trigger] prev[i].0@ == sv[q].album);
                            }
                        }
                        // no collected album repeats
                        assert forall|i: int, j: int| 0 <= i < j < r@.len() implies r@[i].0@ != r@[
                            j
                        ].0@ by {
                            assert(r@[i] == prev[i]);
                            if j < r@.len() - 1 {
                                assert(prev[j] == r@[j]);
                            } else {
                                assert(r@[j].0@ == ev.album);
                                assert(!(exists|m: int|
                                    0 <= m < prev.len() && #[trigger] prev[m].0@ == ev.album));
                            }
                        }
                        // every album seen so far still stands in the list
                        assert forall|q: int|
                            0 <= q < w + 1 && (#[trigger] sv[q]).album.len() > 0 implies exists|
                            i: int,
                        |
                            0 <= i < r@.len() && #[trigger] r@[i].0@ == sv[q].album by {
                            if q < w {
                                let i0 = choose|i0: int|
                                    0 <= i0 < prev.len() && #[trigger] prev[i0].0@ == sv[q].album;
                                assert(r@[i0].0@ == sv[q].album);
                            } else {
                                assert(r@[prev.len() as int].0@ == sv[q].album);
                            }
                        }
                    }
                }
            }
            w += 1;
        }
        proof {
            assert forall|i: int| 0 <= i < r@.len() implies #[trigger] newest_of_album(
                tv,
                r@[i].0@,
                r@[i].1@,
            ) by {
                lemma_recent_provenance_one(tv, sv, r@, picks, i);
            }
            assert forall|i: int, j: int, u: TrackV|
                #![trigger album_no_newer_than(tv, u, r@[i].0@), r@[j]]
                0 <= i < j < r@.len() && tv.contains(u) && u.album == r@[j].0@ implies
                album_no_newer_than(tv, u, r@[i].0@) by {
                lemma_recent_order_one(tv, sv, r@, picks, i, j, u);
            }
            if r@.len() != limit {
                assert(w >= sv.len());
                lemma_recent_complete(tv, sv, r@);
                assert forall|t: TrackV| tv.contains(t) && t.album.len() > 0 implies
                    #[trigger] album_listed(r@, t.album) by {}
            }
        }
        r
    }

    /// The records of one album, by exact album-name equality, in
    /// canonical album order: disc number first, then track number,
    /// whatever order the library stores them in; records with equal disc
    /// and track numbers keep their storage order.
    #[verifier::rlimit(100)]
    #[verifier::spinoff_prover]
    pub fn get_tracks_by_album<'a>(&'a self, album_name: &str) -> (r: Vec<&'a CachedTrack>)
        ensures
            r.deep_view().to_multiset() == self.tracks_view().filter(
                |t: TrackV| t.album == album_name@,
            ).to_multiset(),
            album_sorted(r.deep_view()),
            stable_album_reorder(self.tracks_view(), r.deep_view()),
    {
        let ghost tv = self.tracks_view();
        let ghost pred = |t: TrackV| t.album == album_name@;
        let an = chars_of(album_name);
        let mut picked: Vec<Picked<'a>> = Vec::new();
        let mut i: usize = 0;
        proof {
            assert(tv.take(0) =~= Seq::<TrackV>::empty());
            reveal(Seq::filter);
            assert(ts_of(picked.deep_view()) =~= tv.take(0).filter(pred));
        }
        while i < self.tracks.len()
            invariant
                0 <= i <= self.tracks@.len(),
                tv == self.tracks_view(),
                an@ == album_name@,
                pred == (|t: TrackV| t.album == album_name@),
                ts_of(picked.deep_view()) == tv.take(i as int).filter(pred),
                forall|q: int|
                    0 <= q < picked.deep_view().len() ==> picked_ok(
                        tv,
                        #[trigger] picked.deep_view()[q],
                    ) && picked.deep_view()[q].idx < i,
                forall|a: int, b: int|
                    0 <= a < b < picked.deep_view().len() ==> (#[trigger] picked.deep_view()[
                        a
                    ]).idx < (#[trigger] picked.deep_view()[b]).idx,
            decreases self.tracks@.len() - i,
        {
            let t = &self.tracks[i];
            let ghost tvi = t@;
            let tc = chars_of(t.album.as_str());
            let matched = eq_chars(tc.as_slice(), an.as_slice());
            proof {
                assert(tv.take(i as int + 1).drop_last() =~= tv.take(i as int));
                assert(tv.take(i as int + 1).last() == tvi);
                reveal(Seq::filter);
            }
            if matched {
                let ghost prev = picked.deep_view();
                picked.push(Picked { idx: i, t });
                proof {
                    assert(picked.deep_view() =~= prev.push(PickedV { idx: i as int, t: tvi }));
                    assert(ts_of(picked.deep_view()) =~= ts_of(prev).push(tvi));
                }
            }
            i += 1;
        }
        proof {
            assert(tv.take(i as int) =~= tv);
        }
        let ghost pv = picked.deep_view();
        let sorted = sort_album_order(picked);
        let ghost sv = sorted.deep_view();
        proof {
            broadcast use vstd::seq_lib::group_to_multiset_ensures, vstd::multiset::group_multiset_axioms
            ;
            // each sorted pair still points back at its record
            assert forall|q: int| 0 <= q < sv.len() implies picked_ok(tv, #[trigger] sv[q]) by {
                assert(sv.to_multiset().count(sv[q]) > 0) by {
                    assert(sv.contains(sv[q]));
                }
                assert(pv.contains(sv[q]));
                let k = choose|k: int| 0 <= k < pv.len() && pv[k] == sv[q];
                assert(picked_ok(tv, pv[k]));
            }
            // distinct storage positions keep the pairs distinct
            assert(pv.no_duplicates()) by {
                assert forall|a: int, b: int|
                    0 <= a < pv.len() && 0 <= b < pv.len() && a != b implies pv[a] != pv[b] by {
                    if a < b {
                        assert(pv[a].idx < pv[b].idx);
                    } else {
                        assert(pv[b].idx < pv[a].idx);
                    }
                }
            }
            pv.lemma_multiset_has_no_duplicates();
            assert forall|x: PickedV| sv.to_multiset().contains(x) implies sv.to_multiset().count(
                x,
            ) == 1 by {
                assert(pv.to_multiset().contains(x));
            }
            sv.lemma_multiset_has_no_duplicates_conv();
        }
        let mut r: Vec<&'a CachedTrack> = Vec::new();
        let mut j: usize = 0;
        while j < sorted.len()
            invariant
                0 <= j <= sv.len(),
                sv == sorted.deep_view(),
                r@.len() == j,
                forall|m: int| 0 <= m < j ==> #[trigger] r.deep_view()[m] == sv[m].t,
            decreases sv.len() - j,
        {
            let ghost prev = r.deep_view();
            r.push(sorted[j].t);
            proof {
                assert(r.deep_view() =~= prev.push(sv[j as int].t));
            }
            j += 1;
        }
        proof {
            assert(r.deep_view() =~= ts_of(sv));
            assert(ts_of(pv) == tv.filter(pred));
            // canonical order, ties aside
            assert forall|a: int, b: int| 0 <= a < b < r.deep_view().len() implies album_le(
                #[trigger] r.deep_view()[a],
                #[trigger] r.deep_view()[b],
            ) by {
                assert(le_idx(sv[a], sv[b]));
            }
            // the storage positions of the sorted pairs witness stability
            let pos = Seq::new(sv.len(), |q: int| sv[q].idx);
            assert(reorder_witness(tv, r.deep_view(), pos)) by {
                assert forall|a: int| 0 <= a < pos.len() implies 0 <= #[trigger] pos[a] < tv.len()
                    && r.deep_view()[a] == tv[pos[a]] by {
                    assert(picked_ok(tv, sv[a]));
                }
                assert forall|a: int, b: int|
                    0 <= a < b < pos.len() && album_le(
                        #[trigger] r.deep_view()[a],
                        #[trigger] r.deep_view()[b],
                    ) && album_le(r.deep_view()[b], r.deep_view()[a]) implies pos[a] < pos[b] by {
                    assert(le_idx(sv[a], sv[b]));
                    assert(sv[a].t.disc_number == sv[b].t.disc_number);
                    assert(sv[a].t.track_number == sv[b].t.track_number);
                    assert(sv[a].idx <= sv[b].idx);
                    if sv[a].idx == sv[b].idx {
                        assert(picked_ok(tv, sv[a]));
                        assert(picked_ok(tv, sv[b]));
                        assert(sv[a].t == sv[b].t);
                        assert(sv[a] == sv[b]);
                        assert(sv[a] != sv[b]);
                    }
                }
            }
            assert(stable_album_reorder(tv, r.deep_view()));
        }
        r
    }
}

} // verus!
