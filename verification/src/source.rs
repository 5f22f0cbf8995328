//! Reading the library source's wire format: records arrive as one text
//! with `|||` between records and `:::` between fields. The automation
//! that produces the text lives outside; these functions turn it into
//! typed records.

use vstd::prelude::*;
use vstd::seq_lib::group_filter_ensures;
use crate::dates::{split_by, split_by_chars};
use crate::text::{all_digits, chars_of, digits_val, eq_chars, parse_u32, spec_parse_u32, string_of, sub_chars};

verus! {

/// The separator between records on the wire.
pub open spec fn rec_sep() -> Seq<char> {
    seq!['|', '|', '|']
}

/// The separator between the fields of one record.
pub open spec fn field_sep() -> Seq<char> {
    seq![':', ':', ':']
}

/// Field `i` of a record, or the given default where the record is short.
pub open spec fn field_or(fields: Seq<Seq<char>>, i: int, d: Seq<char>) -> Seq<char> {
    if 0 <= i < fields.len() {
        fields[i]
    } else {
        d
    }
}

/// A numeric field read as the source writes it: a decimal number, zero
/// where missing or unreadable.
pub open spec fn num_field(fields: Seq<Seq<char>>, i: int) -> u32 {
    match spec_parse_u32(field_or(fields, i, seq!['0'])) {
        Some(v) => v,
        None => 0,
    }
}

/// A raw track record of the library source, before it enters the cache.
pub struct SimpleTrack {
    pub name: String,
    pub artist: String,
    pub album: String,
    pub date_added: String,
    pub year: u32,
    pub track_number: u32,
    pub disc_number: u32,
    pub time: String,
    pub played_count: u32,
    pub favorited: bool,
}

/// The mathematical value of a raw track record.
pub ghost struct SimpleTrackV {
    pub name: Seq<char>,
    pub artist: Seq<char>,
    pub album: Seq<char>,
    pub date_added: Seq<char>,
    pub year: u32,
    pub track_number: u32,
    pub disc_number: u32,
    pub time: Seq<char>,
    pub played_count: u32,
    pub favorited: bool,
}

impl View for SimpleTrack {
    type V = SimpleTrackV;

    open spec fn view(&self) -> SimpleTrackV {
        SimpleTrackV {
            name: self.name@,
            artist: self.artist@,
            album: self.album@,
            date_added: self.date_added@,
            year: self.year,
            track_number: self.track_number,
            disc_number: self.disc_number,
            time: self.time@,
            played_count: self.played_count,
            favorited: self.favorited,
        }
    }
}

impl DeepView for SimpleTrack {
    type V = SimpleTrackV;

    open spec fn deep_view(&self) -> SimpleTrackV {
        self.view()
    }
}

/// The raw track record one wire record stands for: ten `:::`-separated
/// fields, missing text fields empty, missing numbers zero, and the
/// favorite flag set only by the exact word `true`.
pub open spec fn spec_simple_track(piece: Seq<char>) -> SimpleTrackV {
    let f = split_by(piece, field_sep());
    SimpleTrackV {
        name: field_or(f, 0, Seq::empty()),
        artist: field_or(f, 1, Seq::empty()),
        album: field_or(f, 2, Seq::empty()),
        date_added: field_or(f, 3, Seq::empty()),
        year: num_field(f, 4),
        track_number: num_field(f, 5),
        disc_number: num_field(f, 6),
        time: field_or(f, 7, Seq::empty()),
        played_count: num_field(f, 8),
        favorited: field_or(f, 9, Seq::empty()) == "true"@,
    }
}

/// The raw track records a whole wire text stands for: one per nonempty
/// `|||`-separated piece, in order.
pub open spec fn spec_track_batch(raw: Seq<char>) -> Seq<SimpleTrackV> {
    split_by(raw, rec_sep()).filter(|p: Seq<char>| p.len() > 0).map_values(
        |p: Seq<char>| spec_simple_track(p),
    )
}

/// One text field of a record, owned.
fn take_field(fields: &Vec<Vec<char>>, i: usize) -> (r: String)
    ensures
        r@ == field_or(fields.deep_view(), i as int, Seq::empty()),
{
    if i < fields.len() {
        proof {
            assert(fields.deep_view()[i as int] =~= fields@[i as int]@);
        }
        string_of(fields[i].as_slice())
    } else {
        let empty: Vec<char> = Vec::new();
        string_of(empty.as_slice())
    }
}

/// One numeric field of a record.
fn take_num(fields: &Vec<Vec<char>>, i: usize) -> (r: u32)
    ensures
        r == num_field(fields.deep_view(), i as int),
{
    if i < fields.len() {
        proof {
            assert(fields.deep_view()[i as int] =~= fields@[i as int]@);
        }
        match parse_u32(fields[i].as_slice()) {
            Some(v) => v,
            None => 0,
        }
    } else {
        let mut zero: Vec<char> = Vec::new();
        zero.push('0');
        proof {
            assert(zero@ =~= seq!['0']);
            assert(seq!['0'].drop_last() =~= Seq::<char>::empty());
            assert(digits_val(Seq::<char>::empty()) == 0);
            assert(digits_val(seq!['0']) == 0);
            assert(all_digits(seq!['0']));
            assert(spec_parse_u32(seq!['0']) == Some(0u32));
        }
        match parse_u32(zero.as_slice()) {
            Some(v) => v,
            None => 0,
        }
    }
}

/// Reads one wire record as a raw track record.
fn parse_simple_track(piece: &Vec<char>) -> (r: SimpleTrack)
    ensures
        r@ == spec_simple_track(piece@),
{
    let mut fsep: Vec<char> = Vec::new();
    fsep.push(':');
    fsep.push(':');
    fsep.push(':');
    proof {
        assert(fsep@ =~= field_sep());
    }
    let fields = split_by_chars(piece.as_slice(), fsep.as_slice());
    let mut tlit: Vec<char> = Vec::new();
    tlit.push('t');
    tlit.push('r');
    tlit.push('u');
    tlit.push('e');
    proof {
        assert(tlit@ =~= "true"@) by {
            reveal_strlit("true");
        }
    }
    let fav: bool = if 9 < fields.len() {
        proof {
            assert(fields.deep_view()[9] =~= fields@[9]@);
        }
        eq_chars(fields[9].as_slice(), tlit.as_slice())
    } else {
        proof {
            assert(Seq::<char>::empty().len() != "true"@.len()) by {
                reveal_strlit("true");
            }
        }
        false
    };
    SimpleTrack {
        name: take_field(&fields, 0),
        artist: take_field(&fields, 1),
        album: take_field(&fields, 2),
        date_added: take_field(&fields, 3),
        year: take_num(&fields, 4),
        track_number: take_num(&fields, 5),
        disc_number: take_num(&fields, 6),
        time: take_field(&fields, 7),
        played_count: take_num(&fields, 8),
        favorited: fav,
    }
}

/// One listed item: a playlist of the catalog, or one track of a
/// playlist.
pub struct ListItem {
    pub name: String,
    pub artist: String,
    pub album: String,
    pub time: String,
    pub year: u32,
    pub track_number: u32,
    pub played_count: u32,
    pub favorited: bool,
}

/// The mathematical value of a listed item.
pub ghost struct ListItemV {
    pub name: Seq<char>,
    pub artist: Seq<char>,
    pub album: Seq<char>,
    pub time: Seq<char>,
    pub year: u32,
    pub track_number: u32,
    pub played_count: u32,
    pub favorited: bool,
}

impl View for ListItem {
    type V = ListItemV;

    open spec fn view(&self) -> ListItemV {
        ListItemV {
            name: self.name@,
            artist: self.artist@,
            album: self.album@,
            time: self.time@,
            year: self.year,
            track_number: self.track_number,
            played_count: self.played_count,
            favorited: self.favorited,
        }
    }
}

impl DeepView for ListItem {
    type V = ListItemV;

    open spec fn deep_view(&self) -> ListItemV {
        self.view()
    }
}

/// The built-in playlists the catalog never lists.
pub open spec fn excluded_playlist(name: Seq<char>) -> bool {
    name == "Music"@ || name == "Music Videos"@ || name == "Favorite Songs"@
}

/// The catalog entry one wire record stands for: its name, and a track
/// count rendered as display text.
pub open spec fn spec_playlist_entry(piece: Seq<char>) -> ListItemV {
    let f = split_by(piece, field_sep());
    ListItemV {
        name: field_or(f, 0, Seq::empty()),
        artist: field_or(f, 1, seq!['0']) + " tracks"@,
        album: Seq::empty(),
        time: Seq::empty(),
        year: 0,
        track_number: 0,
        played_count: 0,
        favorited: false,
    }
}

/// The catalog a whole wire text stands for: one entry per nonempty
/// piece whose name is not a built-in playlist.
pub open spec fn spec_playlist_catalog(raw: Seq<char>) -> Seq<ListItemV> {
    split_by(raw, rec_sep()).filter(
        |p: Seq<char>|
            p.len() > 0 && !excluded_playlist(
                field_or(split_by(p, field_sep()), 0, Seq::empty()),
            ),
    ).map_values(|p: Seq<char>| spec_playlist_entry(p))
}

/// The playlist track one wire record stands for: seven `:::`-separated
/// fields; playlists carry no disc or track numbers.
pub open spec fn spec_playlist_track(piece: Seq<char>) -> ListItemV {
    let f = split_by(piece, field_sep());
    ListItemV {
        name: field_or(f, 0, Seq::empty()),
        artist: field_or(f, 1, Seq::empty()),
        album: field_or(f, 2, Seq::empty()),
        time: field_or(f, 4, Seq::empty()),
        year: num_field(f, 3),
        track_number: 0,
        played_count: num_field(f, 5),
        favorited: field_or(f, 6, Seq::empty()) == "true"@,
    }
}

/// The playlist tracks a whole wire text stands for, one per nonempty
/// piece, in playlist order.
pub open spec fn spec_playlist_tracks(raw: Seq<char>) -> Seq<ListItemV> {
    split_by(raw, rec_sep()).filter(|p: Seq<char>| p.len() > 0).map_values(
        |p: Seq<char>| spec_playlist_track(p),
    )
}

/// Whether a field equals the exact word `true`.
fn field_is_true(fields: &Vec<Vec<char>>, i: usize) -> (r: bool)
    ensures
        r == (field_or(fields.deep_view(), i as int, Seq::empty()) == "true"@),
{
    let mut tlit: Vec<char> = Vec::new();
    tlit.push('t');
    tlit.push('r');
    tlit.push('u');
    tlit.push('e');
    proof {
        assert(tlit@ =~= "true"@) by {
            reveal_strlit("true");
        }
    }
    if i < fields.len() {
        proof {
            assert(fields.deep_view()[i as int] =~= fields@[i as int]@);
        }
        eq_chars(fields[i].as_slice(), tlit.as_slice())
    } else {
        proof {
            assert(Seq::<char>::empty().len() != "true"@.len()) by {
                reveal_strlit("true");
            }
        }
        false
    }
}

/// Splits one wire record into its fields.
fn split_fields(piece: &Vec<char>) -> (r: Vec<Vec<char>>)
    ensures
        r.deep_view() == split_by(piece@, field_sep()),
{
    let mut fsep: Vec<char> = Vec::new();
    fsep.push(':');
    fsep.push(':');
    fsep.push(':');
    proof {
        assert(fsep@ =~= field_sep());
    }
    split_by_chars(piece.as_slice(), fsep.as_slice())
}

/// Reads one wire record as a playlist track.
fn parse_playlist_track(piece: &Vec<char>) -> (r: ListItem)
    ensures
        r@ == spec_playlist_track(piece@),
{
    let fields = split_fields(piece);
    let fav = field_is_true(&fields, 6);
    ListItem {
        name: take_field(&fields, 0),
        artist: take_field(&fields, 1),
        album: take_field(&fields, 2),
        time: take_field(&fields, 4),
        year: take_num(&fields, 3),
        track_number: 0,
        played_count: take_num(&fields, 5),
        favorited: fav,
    }
}

/// The library source as seen by the cache: the typed boundary over the
/// automation layer. Each reader takes the raw text the automation
/// returned and yields the records it stands for; running the automation
/// itself is the caller's business.
pub struct MusicController;

impl MusicController {
    /// The library size the source reported: a decimal count, zero where
    /// the text is unreadable.
    pub fn get_total_track_count(raw: &str) -> (r: u32)
        ensures
            r == (match spec_parse_u32(raw@) {
                Some(v) => v,
                None => 0u32,
            }),
    {
        let rc = chars_of(raw);
        match parse_u32(rc.as_slice()) {
            Some(v) => v,
            None => 0,
        }
    }

    /// The raw track records of one fetched batch.
    pub fn get_tracks_batch(raw: &str) -> (r: Vec<SimpleTrack>)
        ensures
            r.deep_view() == spec_track_batch(raw@),
    {
        Self::parse_wire_tracks(raw)
    }

    /// The raw track records fetched by an incremental query; the wire
    /// format is the same as a batch's.
    pub fn get_tracks_added_since(raw: &str) -> (r: Vec<SimpleTrack>)
        ensures
            r.deep_view() == spec_track_batch(raw@),
    {
        Self::parse_wire_tracks(raw)
    }

    /// The playlist catalog the source listed, with the built-in
    /// playlists left out.
    pub fn get_playlists(raw: &str) -> (r: Vec<ListItem>)
        ensures
            r.deep_view() == spec_playlist_catalog(raw@),
    {
        broadcast use group_filter_ensures;

        let rc = chars_of(raw);
        let mut rsep: Vec<char> = Vec::new();
        rsep.push('|');
        rsep.push('|');
        rsep.push('|');
        proof {
            assert(rsep@ =~= rec_sep());
        }
        let pieces = split_by_chars(rc.as_slice(), rsep.as_slice());
        let ghost pv = split_by(raw@, rec_sep());
        let ghost keep = |p: Seq<char>|
            p.len() > 0 && !excluded_playlist(
                field_or(split_by(p, field_sep()), 0, Seq::empty()),
            );
        let ghost conv = |p: Seq<char>| spec_playlist_entry(p);
        let mut r: Vec<ListItem> = Vec::new();
        let mut i: usize = 0;
        proof {
            assert(pv.take(0) =~= Seq::<Seq<char>>::empty());
            reveal(Seq::filter);
            assert(r.deep_view() =~= pv.take(0).filter(keep).map_values(conv));
        }
        while i < pieces.len()
            invariant
                0 <= i <= pv.len(),
                pieces.deep_view() == pv,
                keep == (|p: Seq<char>|
                    p.len() > 0 && !excluded_playlist(
                        field_or(split_by(p, field_sep()), 0, Seq::empty()),
                    )),
                conv == (|p: Seq<char>| spec_playlist_entry(p)),
                r.deep_view() == pv.take(i as int).filter(keep).map_values(conv),
            decreases pv.len() - i,
        {
            let piece = &pieces[i];
            let ghost pc = pv[i as int];
            proof {
                assert(pieces.deep_view()[i as int] =~= pieces@[i as int]@);
                assert(pv.take(i as int + 1).drop_last() =~= pv.take(i as int));
                assert(pv.take(i as int + 1).last() == pc);
                reveal(Seq::filter);
            }
            if piece.len() > 0 {
                let fields = split_fields(piece);
                let name = take_field(&fields, 0);
                let deny = {
                    let nc = chars_of(name.as_str());
                    let m1 = chars_of("Music");
                    let m2 = chars_of("Music Videos");
                    let m3 = chars_of("Favorite Songs");
                    eq_chars(nc.as_slice(), m1.as_slice()) || eq_chars(
                        nc.as_slice(),
                        m2.as_slice(),
                    ) || eq_chars(nc.as_slice(), m3.as_slice())
                };
                if !deny {
                    let mut count = if fields.len() > 1 {
                        proof {
                            assert(fields.deep_view()[1] =~= fields@[1]@);
                        }
                        sub_chars(fields[1].as_slice(), 0, fields[1].len())
                    } else {
                        let mut z: Vec<char> = Vec::new();
                        z.push('0');
                        proof {
                            assert(z@ =~= seq!['0']);
                        }
                        z
                    };
                    let mut suffix = chars_of(" tracks");
                    count.append(&mut suffix);
                    let item = ListItem {
                        name,
                        artist: string_of(count.as_slice()),
                        album: String::new(),
                        time: String::new(),
                        year: 0,
                        track_number: 0,
                        played_count: 0,
                        favorited: false,
                    };
                    let ghost prev = r.deep_view();
                    proof {
                        assert(item@.artist =~= field_or(split_by(pc, field_sep()), 1, seq!['0'])
                            + " tracks"@);
                        assert(item@ == spec_playlist_entry(pc));
                    }
                    r.push(item);
                    proof {
                        assert(r.deep_view() =~= prev.push(spec_playlist_entry(pc)));
                        assert(pv.take(i as int).filter(keep).push(pc).map_values(conv)
                            =~= pv.take(i as int).filter(keep).map_values(conv).push(conv(pc)));
                    }
                }
            }
            i += 1;
        }
        proof {
            assert(pv.take(i as int) =~= pv);
        }
        r
    }

    /// The tracks of one playlist, in playlist order.
    pub fn get_playlist_tracks(raw: &str) -> (r: Vec<ListItem>)
        ensures
            r.deep_view() == spec_playlist_tracks(raw@),
    {
        broadcast use group_filter_ensures;

        let rc = chars_of(raw);
        let mut rsep: Vec<char> = Vec::new();
        rsep.push('|');
        rsep.push('|');
        rsep.push('|');
        proof {
            assert(rsep@ =~= rec_sep());
        }
        let pieces = split_by_chars(rc.as_slice(), rsep.as_slice());
        let ghost pv = split_by(raw@, rec_sep());
        let ghost keep = |p: Seq<char>| p.len() > 0;
        let ghost conv = |p: Seq<char>| spec_playlist_track(p);
        let mut r: Vec<ListItem> = Vec::new();
        let mut i: usize = 0;
        proof {
            assert(pv.take(0) =~= Seq::<Seq<char>>::empty());
            reveal(Seq::filter);
            assert(r.deep_view() =~= pv.take(0).filter(keep).map_values(conv));
        }
        while i < pieces.len()
            invariant
                0 <= i <= pv.len(),
                pieces.deep_view() == pv,
                keep == (|p: Seq<char>| p.len() > 0),
                conv == (|p: Seq<char>| spec_playlist_track(p)),
                r.deep_view() == pv.take(i as int).filter(keep).map_values(conv),
            decreases pv.len() - i,
        {
            let piece = &pieces[i];
            let ghost pc = pv[i as int];
            proof {
                assert(pieces.deep_view()[i as int] =~= pieces@[i as int]@);
                assert(pv.take(i as int + 1).drop_last() =~= pv.take(i as int));
                assert(pv.take(i as int + 1).last() == pc);
                reveal(Seq::filter);
            }
            if piece.len() > 0 {
                let ghost prev = r.deep_view();
                let t = parse_playlist_track(piece);
                r.push(t);
                proof {
                    assert(r.deep_view() =~= prev.push(spec_playlist_track(pc)));
                    assert(pv.take(i as int).filter(keep).push(pc).map_values(conv) =~= pv.take(
                        i as int,
                    ).filter(keep).map_values(conv).push(conv(pc)));
                }
            }
            i += 1;
        }
        proof {
            assert(pv.take(i as int) =~= pv);
        }
        r
    }

    /// Reads every nonempty wire record of `raw` as a raw track record.
    fn parse_wire_tracks(raw: &str) -> (r: Vec<SimpleTrack>)
        ensures
            r.deep_view() == spec_track_batch(raw@),
    {
        broadcast use group_filter_ensures;

        let rc = chars_of(raw);
        let mut rsep: Vec<char> = Vec::new();
        rsep.push('|');
        rsep.push('|');
        rsep.push('|');
        proof {
            assert(rsep@ =~= rec_sep());
        }
        let pieces = split_by_chars(rc.as_slice(), rsep.as_slice());
        let ghost pv = split_by(raw@, rec_sep());
        let ghost keep = |p: Seq<char>| p.len() > 0;
        let ghost conv = |p: Seq<char>| spec_simple_track(p);
        let mut r: Vec<SimpleTrack> = Vec::new();
        let mut i: usize = 0;
        proof {
            assert(pv.take(0) =~= Seq::<Seq<char>>::empty());
            reveal(Seq::filter);
            assert(r.deep_view() =~= pv.take(0).filter(keep).map_values(conv));
        }
        while i < pieces.len()
            invariant
                0 <= i <= pv.len(),
                pieces.deep_view() == pv,
                keep == (|p: Seq<char>| p.len() > 0),
                conv == (|p: Seq<char>| spec_simple_track(p)),
                r.deep_view() == pv.take(i as int).filter(keep).map_values(conv),
            decreases pv.len() - i,
        {
            let piece = &pieces[i];
            let ghost pc = pv[i as int];
            proof {
                assert(pieces.deep_view()[i as int] =~= pieces@[i as int]@);
                assert(pv.take(i as int + 1).drop_last() =~= pv.take(i as int));
                assert(pv.take(i as int + 1).last() == pc);
                reveal(Seq::filter);
            }
            if piece.len() > 0 {
                let ghost prev = r.deep_view();
                let t = parse_simple_track(piece);
                r.push(t);
                proof {
                    assert(r.deep_view() =~= prev.push(spec_simple_track(pc)));
                    assert(pv.take(i as int).filter(keep).push(pc).map_values(conv) =~= pv.take(
                        i as int,
                    ).filter(keep).map_values(conv).push(conv(pc)));
                }
            }
            i += 1;
        }
        proof {
            assert(pv.take(i as int) =~= pv);
        }
        r
    }
}

} // verus!
