//! The track cache: the aggregate that owns the record set, tracks
//! completeness of the mirror, and merges incoming batches by the
//! (name, artist, album) key.

use vstd::prelude::*;
use crate::track::{CachedTrack, TrackV, same_key, merged, canonical};

verus! {

/// The index of the first record in `ts` with the same key as `k`.
pub open spec fn find_key(ts: Seq<TrackV>, k: TrackV) -> Option<int>
    decreases ts.len(),
{
    if ts.len() == 0 {
        None
    } else if same_key(ts[0], k) {
        Some(0)
    } else {
        match find_key(ts.drop_first(), k) {
            Some(i) => Some(i + 1),
            None => None,
        }
    }
}

/// `find_key` returns exactly the first position whose key matches.
pub proof fn lemma_find_key(ts: Seq<TrackV>, k: TrackV)
    ensures
        match find_key(ts, k) {
            Some(i) => 0 <= i < ts.len() && same_key(ts[i], k) && forall|m: int|
                0 <= m < i ==> !same_key(ts[m], k),
            None => forall|m: int| 0 <= m < ts.len() ==> !same_key(ts[m], k),
        },
    decreases ts.len(),
{
    if ts.len() > 0 && !same_key(ts[0], k) {
        lemma_find_key(ts.drop_first(), k);
        assert(forall|m: int| 1 <= m < ts.len() ==> ts[m] == ts.drop_first()[m - 1]);
    }
}

/// `find_key` looks only at the keys of the records.
pub proof fn lemma_find_key_same_skeleton(a: Seq<TrackV>, b: Seq<TrackV>, k: TrackV)
    requires
        a.len() == b.len(),
        forall|i: int| 0 <= i < a.len() ==> same_key(a[i], b[i]),
    ensures
        find_key(a, k) == find_key(b, k),
    decreases a.len(),
{
    if a.len() > 0 {
        assert(same_key(a[0], k) == same_key(b[0], k));
        if !same_key(a[0], k) {
            assert(forall|i: int|
                0 <= i < a.drop_first().len() ==> same_key(
                    a.drop_first()[i],
                    b.drop_first()[i],
                ));
            lemma_find_key_same_skeleton(a.drop_first(), b.drop_first(), k);
        }
    }
}

/// One upsert step: merge `n` into the first record with its key, or
/// append it. The second component counts whether `n` was genuinely new.
pub open spec fn upsert_one(ts: Seq<TrackV>, n: TrackV) -> (Seq<TrackV>, nat) {
    match find_key(ts, n) {
        Some(i) => (ts.update(i, merged(ts[i], n)), 0),
        None => (ts.push(n), 1),
    }
}

/// The record set after a whole batch is merged in, first to last, and
/// the number of genuinely new records.
pub open spec fn spec_upsert(ts: Seq<TrackV>, batch: Seq<TrackV>) -> (Seq<TrackV>, nat)
    decreases batch.len(),
{
    if batch.len() == 0 {
        (ts, 0)
    } else {
        let head = upsert_one(ts, batch[0]);
        let rest = spec_upsert(head.0, batch.drop_first());
        (rest.0, (head.1 + rest.1) as nat)
    }
}

/// Whether some record of `b` has the same key as `x`.
pub open spec fn key_in(b: Seq<TrackV>, x: TrackV) -> bool {
    exists|k: int| 0 <= k < b.len() && same_key(#[trigger] b[k], x)
}

/// Whether every record of `b` carries the search key derived from its
/// own identity fields (as every record built by `CachedTrack::new` does).
pub open spec fn all_canonical(b: Seq<TrackV>) -> bool {
    forall|k: int| 0 <= k < b.len() ==> canonical(#[trigger] b[k])
}

/// Whether position `i` holds the first record of `s` with its key.
pub open spec fn first_with_key(s: Seq<TrackV>, i: int) -> bool {
    forall|m: int| 0 <= m < i ==> !same_key(s[m], s[i])
}

/// Merging cannot shorten the record set, and never changes the key of
/// any record already held.
pub proof fn lemma_upsert_skeleton(ts: Seq<TrackV>, b: Seq<TrackV>)
    ensures
        spec_upsert(ts, b).0.len() >= ts.len(),
        forall|i: int| 0 <= i < ts.len() ==> same_key(#[trigger] spec_upsert(ts, b).0[i], ts[i]),
    decreases b.len(),
{
    if b.len() > 0 {
        lemma_find_key(ts, b[0]);
        let head = upsert_one(ts, b[0]);
        lemma_upsert_skeleton(head.0, b.drop_first());
        assert forall|i: int| 0 <= i < ts.len() implies same_key(
            #[trigger] spec_upsert(ts, b).0[i],
            ts[i],
        ) by {
            assert(same_key(spec_upsert(head.0, b.drop_first()).0[i], head.0[i]));
            assert(same_key(head.0[i], ts[i]));
        }
    }
}

/// A record whose key occurs nowhere in the batch is left exactly as it
/// was.
pub proof fn lemma_upsert_untouched(ts: Seq<TrackV>, b: Seq<TrackV>, j: int)
    requires
        0 <= j < ts.len(),
        forall|k: int| 0 <= k < b.len() ==> !same_key(#[trigger] b[k], ts[j]),
    ensures
        spec_upsert(ts, b).0[j] == ts[j],
    decreases b.len(),
{
    if b.len() > 0 {
        lemma_find_key(ts, b[0]);
        let head = upsert_one(ts, b[0]);
        match find_key(ts, b[0]) {
            Some(i) => {
                assert(i != j);
            }
            None => {}
        }
        assert(head.0[j] == ts[j]);
        assert(forall|k: int|
            0 <= k < b.drop_first().len() ==> !same_key(
                #[trigger] b.drop_first()[k],
                head.0[j],
            ));
        lemma_upsert_untouched(head.0, b.drop_first(), j);
    }
}

/// Two record sets with the same keys position for position, differing
/// only at first-of-key positions whose key the batch holds, are brought
/// together by merging the batch: the results are equal, and so are the
/// counts of new records.
proof fn lemma_upsert_converges(s: Seq<TrackV>, t: Seq<TrackV>, b: Seq<TrackV>)
    requires
        s.len() == t.len(),
        forall|i: int| 0 <= i < s.len() ==> same_key(#[trigger] s[i], t[i]),
        forall|i: int|
            0 <= i < s.len() ==> #[trigger] s[i] == t[i] || (first_with_key(s, i) && key_in(
                b,
                s[i],
            )),
    ensures
        spec_upsert(s, b) == spec_upsert(t, b),
    decreases b.len(),
{
    if b.len() == 0 {
        assert(s =~= t);
    } else {
        let m = b[0];
        lemma_find_key_same_skeleton(s, t, m);
        lemma_find_key(s, m);
        lemma_find_key(t, m);
        match find_key(s, m) {
            Some(j) => {
                let s1 = s.update(j, merged(s[j], m));
                let t1 = t.update(j, merged(t[j], m));
                assert(merged(s[j], m) == merged(t[j], m));
                assert forall|i: int|
                    0 <= i < s1.len() implies #[trigger] s1[i] == t1[i] || (first_with_key(
                    s1,
                    i,
                ) && key_in(b.drop_first(), s1[i])) by {
                    if i != j && s1[i] != t1[i] {
                        assert(s[i] != t[i]);
                        assert(first_with_key(s, i) && key_in(b, s[i]));
                        // the differing key cannot be the head's key: that
                        // key's first position is j
                        if same_key(s[i], m) {
                            if j < i {
                                assert(!same_key(s[j], s[i]));
                            }
                            assert(false);
                        }
                        let k = choose|k: int| 0 <= k < b.len() && same_key(#[trigger] b[k], s[i]);
                        assert(k != 0);
                        assert(b.drop_first()[k - 1] == b[k]);
                        assert(key_in(b.drop_first(), s1[i]));
                        assert forall|q: int| 0 <= q < i implies !same_key(s1[q], s1[i]) by {
                            assert(same_key(s1[q], s[q]));
                        }
                    }
                }
                assert(forall|i: int| 0 <= i < s1.len() ==> same_key(#[trigger] s1[i], t1[i]));
                lemma_upsert_converges(s1, t1, b.drop_first());
            }
            None => {
                let s1 = s.push(m);
                let t1 = t.push(m);
                assert forall|i: int|
                    0 <= i < s1.len() implies #[trigger] s1[i] == t1[i] || (first_with_key(
                    s1,
                    i,
                ) && key_in(b.drop_first(), s1[i])) by {
                    if i < s.len() && s1[i] != t1[i] {
                        assert(s[i] != t[i]);
                        assert(first_with_key(s, i) && key_in(b, s[i]));
                        if same_key(s[i], m) {
                            assert(false);
                        }
                        let k = choose|k: int| 0 <= k < b.len() && same_key(#[trigger] b[k], s[i]);
                        assert(k != 0);
                        assert(b.drop_first()[k - 1] == b[k]);
                        assert(key_in(b.drop_first(), s1[i]));
                        assert forall|q: int| 0 <= q < i implies !same_key(s1[q], s1[i]) by {
                            assert(same_key(s1[q], s[q]));
                        }
                    }
                }
                assert(forall|i: int| 0 <= i < s1.len() ==> same_key(#[trigger] s1[i], t1[i]));
                lemma_upsert_converges(s1, t1, b.drop_first());
            }
        }
    }
}

/// Merging the same batch a second time adds no record and leaves the
/// record set exactly as the first merge left it, provided every batch
/// record carries the search key derived from its own fields (as every
/// record built by `CachedTrack::new` does).
pub proof fn lemma_upsert_idempotent(ts: Seq<TrackV>, b: Seq<TrackV>)
    requires
        all_canonical(b),
    ensures
        spec_upsert(spec_upsert(ts, b).0, b) == (spec_upsert(ts, b).0, 0nat),
    decreases b.len(),
{
    if b.len() == 0 {
        assert(spec_upsert(spec_upsert(ts, b).0, b) == (spec_upsert(ts, b).0, 0nat));
    } else {
        let n = b[0];
        let bt = b.drop_first();
        assert(all_canonical(bt)) by {
            assert(forall|k: int| 0 <= k < bt.len() ==> #[trigger] bt[k] == b[k + 1]);
        }
        lemma_find_key(ts, n);
        let sa = upsert_one(ts, n).0;
        let s1 = spec_upsert(sa, bt).0;
        assert(spec_upsert(ts, b).0 == s1);
        lemma_upsert_idempotent(sa, bt);
        assert(spec_upsert(s1, bt) == (s1, 0nat));
        // where the head record now sits, and that it sits there as-is
        let jn: int = match find_key(ts, n) {
            Some(j) => j,
            None => ts.len() as int,
        };
        assert(0 <= jn < sa.len());
        assert(sa[jn] == n);
        assert(forall|m: int| 0 <= m < jn ==> !same_key(#[trigger] sa[m], n));
        lemma_upsert_skeleton(sa, bt);
        // the first match for n in s1 is still jn
        lemma_find_key(s1, n);
        assert(same_key(s1[jn], n)) by {
            assert(same_key(s1[jn], sa[jn]));
        }
        assert(find_key(s1, n) == Some(jn)) by {
            assert(forall|m: int| 0 <= m < jn ==> same_key(#[trigger] s1[m], sa[m]));
            match find_key(s1, n) {
                Some(i0) => {
                    if i0 < jn {
                        assert(same_key(s1[i0], n));
                        assert(!same_key(sa[i0], n));
                        assert(false);
                    }
                    if jn < i0 {
                        assert(!same_key(s1[jn], n));
                        assert(false);
                    }
                }
                None => {
                    assert(!same_key(s1[jn], n));
                    assert(false);
                }
            }
        }
        assert(merged(s1[jn], n) == n);
        let h2 = upsert_one(s1, n);
        assert(h2 == (s1.update(jn, n), 0nat));
        if key_in(bt, n) {
            assert forall|i: int|
                0 <= i < s1.update(jn, n).len() implies #[trigger] s1.update(jn, n)[i] == s1[i]
                || (first_with_key(s1.update(jn, n), i) && key_in(bt, s1.update(jn, n)[i])) by {
                if i == jn && s1[jn] != n {
                    assert forall|q: int| 0 <= q < jn implies !same_key(
                        s1.update(jn, n)[q],
                        s1.update(jn, n)[jn],
                    ) by {
                        assert(s1.update(jn, n)[q] == s1[q]);
                        assert(!same_key(s1[q], n));
                    }
                }
            }
            assert(forall|i: int|
                0 <= i < s1.update(jn, n).len() ==> same_key(
                    #[trigger] s1.update(jn, n)[i],
                    s1[i],
                ));
            lemma_upsert_converges(s1.update(jn, n), s1, bt);
            assert(spec_upsert(s1.update(jn, n), bt) == spec_upsert(s1, bt));
        } else {
            // the key of n occurs nowhere after the head, so its record
            // was never touched again: the update writes back the same
            // record
            assert(forall|k: int| 0 <= k < bt.len() ==> !same_key(#[trigger] bt[k], sa[jn]));
            lemma_upsert_untouched(sa, bt, jn);
            assert(s1[jn] == n);
            assert(s1.update(jn, n) =~= s1);
        }
        assert(spec_upsert(s1, b) == (s1, 0nat)) by {
            assert(spec_upsert(s1, b).0 == spec_upsert(h2.0, bt).0);
            assert(spec_upsert(s1, b).1 == h2.1 + spec_upsert(h2.0, bt).1);
        }
    }
}

/// Merging a single record either overwrites the mutable fields of the
/// first record with its key, leaving the record count unchanged, or
/// appends it as exactly one new record.
pub proof fn lemma_upsert_merge(ts: Seq<TrackV>, n: TrackV)
    ensures
        find_key(ts, n) matches Some(j) ==> spec_upsert(ts, seq![n]) == (
            ts.update(j, merged(ts[j], n)),
            0nat,
        ) && spec_upsert(ts, seq![n]).0.len() == ts.len(),
        find_key(ts, n) is None ==> spec_upsert(ts, seq![n]) == (ts.push(n), 1nat),
{
    let b = seq![n];
    assert(b[0] == n);
    assert(b.drop_first() =~= Seq::<TrackV>::empty());
    lemma_find_key(ts, n);
    let head = upsert_one(ts, n);
    assert(spec_upsert(head.0, b.drop_first()) == (head.0, 0nat));
    assert(spec_upsert(ts, b) == (head.0, head.1));
}

/// The cache aggregate: the source-reported library size, the held record
/// count, the time of the last successful reconciliation, and the records
/// themselves. A cache built because no usable file existed is flagged
/// fresh for onboarding behaviour.
pub struct TrackCache {
    pub total_tracks: usize,
    pub loaded_tracks: usize,
    pub last_updated: Option<u64>,
    pub tracks: Vec<CachedTrack>,
    pub is_fresh_build: bool,
}

impl Default for TrackCache {
    /// The empty cache: nothing reported, nothing loaded, never updated.
    fn default() -> (r: Self)
        ensures
            r.total_tracks == 0,
            r.loaded_tracks == 0,
            r.last_updated is None,
            r.tracks@.len() == 0,
            !r.is_fresh_build,
            r.wf(),
    {
        TrackCache {
            total_tracks: 0,
            loaded_tracks: 0,
            last_updated: None,
            tracks: Vec::new(),
            is_fresh_build: false,
        }
    }
}

/// Relies on `std::time::SystemTime::now`: reads the wall clock and
/// converts it to whole seconds since the Unix epoch (zero if the clock
/// sits before the epoch). Nothing can be promised of the value.
#[verifier::external_body]
fn now_unix_secs() -> u64 {
    std::time::SystemTime::now()
        .duration_since(std::time::UNIX_EPOCH)
        .map(|d| d.as_secs())
        .unwrap_or(0)
}

/// The index of the first record in `ts` with the same key as `nt`, if
/// any record has it.
fn find_track_idx(ts: &Vec<CachedTrack>, nt: &CachedTrack) -> (r: Option<usize>)
    ensures
        r matches Some(j) ==> find_key(ts.deep_view(), nt@) == Some(j as int),
        r is None ==> find_key(ts.deep_view(), nt@) is None,
{
    let ghost cur = ts.deep_view();
    proof {
        lemma_find_key(cur, nt@);
    }
    let mut j: usize = 0;
    while j < ts.len()
        invariant
            0 <= j <= cur.len(),
            cur == ts.deep_view(),
            forall|m: int| 0 <= m < j ==> !same_key(cur[m], nt@),
        decreases ts@.len() - j,
    {
        let t = &ts[j];
        if t.name == nt.name && t.artist == nt.artist && t.album == nt.album {
            proof {
                assert(same_key(cur[j as int], nt@));
                lemma_find_key(cur, nt@);
            }
            return Some(j);
        }
        j += 1;
    }
    proof {
        lemma_find_key(cur, nt@);
    }
    None
}

impl TrackCache {
    /// The record set as mathematical values.
    pub open spec fn tracks_view(&self) -> Seq<TrackV> {
        self.tracks.deep_view()
    }

    /// Well-formedness: the loaded counter always equals the number of
    /// records actually held.
    pub open spec fn wf(&self) -> bool {
        self.loaded_tracks == self.tracks@.len()
    }

    /// Whether the mirror is complete: the source reported a positive
    /// size and at least that many records are held.
    pub fn is_complete(&self) -> (r: bool)
        ensures
            r == (self.total_tracks > 0 && self.loaded_tracks >= self.total_tracks),
    {
        self.total_tracks > 0 && self.loaded_tracks >= self.total_tracks
    }

    /// Stamps the cache with the given reconciliation time; the records
    /// and counters stay as they were.
    pub fn set_timestamp(&mut self, now: u64)
        ensures
            final(self).last_updated == Some(now),
            final(self).total_tracks == old(self).total_tracks,
            final(self).loaded_tracks == old(self).loaded_tracks,
            final(self).tracks == old(self).tracks,
            final(self).is_fresh_build == old(self).is_fresh_build,
    {
        self.last_updated = Some(now);
    }

    /// Stamps the cache with the present wall-clock time; the records and
    /// counters stay as they were.
    pub fn update_timestamp(&mut self)
        ensures
            final(self).last_updated is Some,
            final(self).total_tracks == old(self).total_tracks,
            final(self).loaded_tracks == old(self).loaded_tracks,
            final(self).tracks == old(self).tracks,
            final(self).is_fresh_build == old(self).is_fresh_build,
    {
        let now = now_unix_secs();
        self.set_timestamp(now);
    }

    /// Appends a batch unconditionally (used only during a full build)
    /// and recounts the loaded records.
    pub fn add_tracks(&mut self, new_tracks: Vec<CachedTrack>)
        ensures
            final(self).tracks.deep_view() == old(self).tracks.deep_view()
                + new_tracks.deep_view(),
            final(self).loaded_tracks == final(self).tracks@.len(),
            final(self).total_tracks == old(self).total_tracks,
            final(self).last_updated == old(self).last_updated,
            final(self).is_fresh_build == old(self).is_fresh_build,
            final(self).wf(),
    {
        let mut nt = new_tracks;
        self.tracks.append(&mut nt);
        self.loaded_tracks = self.tracks.len();
        proof {
            assert(self.tracks.deep_view() =~= old(self).tracks.deep_view()
                + new_tracks.deep_view());
        }
    }

    /// Merges a batch by the (name, artist, album) key: a record whose key
    /// is already held overwrites the mutable fields of the first record
    /// with that key and refreshes its search key in place; a record with
    /// a new key is appended. Returns how many records were genuinely new.
    pub fn upsert_tracks(&mut self, new_tracks: Vec<CachedTrack>) -> (added: usize)
        ensures
            final(self).tracks.deep_view() == spec_upsert(
                old(self).tracks.deep_view(),
                new_tracks.deep_view(),
            ).0,
            added as nat == spec_upsert(old(self).tracks.deep_view(), new_tracks.deep_view()).1,
            added <= new_tracks@.len(),
            final(self).loaded_tracks == final(self).tracks@.len(),
            final(self).total_tracks == old(self).total_tracks,
            final(self).last_updated == old(self).last_updated,
            final(self).is_fresh_build == old(self).is_fresh_build,
            final(self).wf(),
    {
        let ghost orig = self.tracks.deep_view();
        let ghost bview = new_tracks.deep_view();
        let ghost full = spec_upsert(orig, bview);
        let mut added: usize = 0;
        let mut i: usize = 0;
        proof {
            assert(bview.skip(0) =~= bview);
        }
        while i < new_tracks.len()
            invariant
                0 <= i <= new_tracks@.len(),
                added <= i,
                bview == new_tracks.deep_view(),
                full == spec_upsert(orig, bview),
                spec_upsert(self.tracks.deep_view(), bview.skip(i as int)).0 == full.0,
                added + spec_upsert(self.tracks.deep_view(), bview.skip(i as int)).1 == full.1,
                self.total_tracks == old(self).total_tracks,
                self.last_updated == old(self).last_updated,
                self.is_fresh_build == old(self).is_fresh_build,
                self.loaded_tracks == old(self).loaded_tracks,
            decreases new_tracks@.len() - i,
        {
            let ghost cur = self.tracks.deep_view();
            let ghost n = bview[i as int];
            proof {
                assert(bview.skip(i as int)[0] == n);
                assert(bview.skip(i as int).drop_first() =~= bview.skip(i as int + 1));
                lemma_find_key(cur, n);
            }
            let nt = &new_tracks[i];
            match find_track_idx(&self.tracks, nt) {
                Some(j) => {
                    let mut m = nt.clone();
                    m.init_search_key();
                    self.tracks[j] = m;
                    proof {
                        assert(m@ == merged(cur[j as int], n));
                        assert(self.tracks.deep_view() =~= cur.update(j as int, merged(
                            cur[j as int],
                            n,
                        )));
                        assert(upsert_one(cur, n) == (self.tracks.deep_view(), 0nat));
                    }
                }
                None => {
                    self.tracks.push(nt.clone());
                    added += 1;
                    proof {
                        assert(self.tracks.deep_view() =~= cur.push(n));
                        assert(upsert_one(cur, n) == (self.tracks.deep_view(), 1nat));
                    }
                }
            }
            i += 1;
        }
        proof {
            assert(bview.skip(i as int) =~= Seq::<TrackV>::empty());
            assert(spec_upsert(self.tracks.deep_view(), bview.skip(i as int)).0
                == self.tracks.deep_view());
        }
        self.loaded_tracks = self.tracks.len();
        added
    }
}

} // verus!
