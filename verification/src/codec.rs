//! The persistence codec: the cache aggregates as JSON text, written and
//! read by this library itself so that a saved snapshot is provably read
//! back unchanged. The emitter writes one canonical compact form; the
//! reader accepts that form and treats everything else as a corrupt file.

use vstd::prelude::*;
use crate::text::{
    chars_of,
    dec_u64,
    digit_of,
    digit_val,
    digits_val,
    is_digit,
    lemma_dec_digits,
    lemma_dec_val,
    spec_dec,
    spec_is_digit,
    string_of,
};
use crate::cache::TrackCache;
use crate::playlist::{find_name, PlaylistCache};
use crate::track::{
    key_of,
    CachedPlaylist,
    CachedPlaylistTrack,
    CachedTrack,
    PlaylistTrackV,
    PlaylistV,
    TrackV,
};

verus! {

// ---------------------------------------------------------------------------
// Escaping string values
// ---------------------------------------------------------------------------

/// The hexadecimal digit with value `d`, lower case.
pub open spec fn hex_char(d: nat) -> char {
    if d < 10 {
        crate::text::digit_char(d)
    } else if d == 10 {
        'a'
    } else if d == 11 {
        'b'
    } else if d == 12 {
        'c'
    } else if d == 13 {
        'd'
    } else if d == 14 {
        'e'
    } else {
        'f'
    }
}

/// The value of a hexadecimal digit, either case; 16 where `c` is none.
pub open spec fn hex_val(c: char) -> nat {
    if spec_is_digit(c) {
        digit_val(c)
    } else if c == 'a' || c == 'A' {
        10
    } else if c == 'b' || c == 'B' {
        11
    } else if c == 'c' || c == 'C' {
        12
    } else if c == 'd' || c == 'D' {
        13
    } else if c == 'e' || c == 'E' {
        14
    } else if c == 'f' || c == 'F' {
        15
    } else {
        16
    }
}

/// How one character of a string value is written: quotes and backslashes
/// get a backslash, the named control characters their short escapes, any
/// other control character a `\u00..` escape, and everything else stands
/// as itself.
pub open spec fn esc(c: char) -> Seq<char> {
    if c == '"' {
        seq!['\\', '"']
    } else if c == '\\' {
        seq!['\\', '\\']
    } else if c == '\u{8}' {
        seq!['\\', 'b']
    } else if c == '\u{c}' {
        seq!['\\', 'f']
    } else if c == '\n' {
        seq!['\\', 'n']
    } else if c == '\r' {
        seq!['\\', 'r']
    } else if c == '\t' {
        seq!['\\', 't']
    } else if (c as u32) < 0x20 {
        seq!['\\', 'u', '0', '0', hex_char(((c as u32) / 16) as nat), hex_char(
            ((c as u32) % 16) as nat,
        )]
    } else {
        seq![c]
    }
}

/// A whole string value, escaped.
pub open spec fn esc_str(s: Seq<char>) -> Seq<char>
    decreases s.len(),
{
    if s.len() == 0 {
        Seq::empty()
    } else {
        esc(s[0]) + esc_str(s.drop_first())
    }
}

/// A string value as JSON text: the escaped characters between quotes.
pub open spec fn emit_str(s: Seq<char>) -> Seq<char> {
    seq!['"'] + esc_str(s) + seq!['"']
}

/// Writes one character of a string value.
fn push_esc(out: &mut Vec<char>, c: char)
    ensures
        final(out)@ == old(out)@ + esc(c),
{
    let ghost prev = out@;
    if c == '"' {
        out.push('\\');
        out.push('"');
    } else if c == '\\' {
        out.push('\\');
        out.push('\\');
    } else if c == '\u{8}' {
        out.push('\\');
        out.push('b');
    } else if c == '\u{c}' {
        out.push('\\');
        out.push('f');
    } else if c == '\n' {
        out.push('\\');
        out.push('n');
    } else if c == '\r' {
        out.push('\\');
        out.push('r');
    } else if c == '\t' {
        out.push('\\');
        out.push('t');
    } else if (c as u32) < 0x20 {
        out.push('\\');
        out.push('u');
        out.push('0');
        out.push('0');
        let hi = (c as u32) / 16;
        let lo = (c as u32) % 16;
        out.push(hex_digit(hi));
        out.push(hex_digit(lo));
    } else {
        out.push(c);
    }
    proof {
        assert(out@ =~= prev + esc(c));
    }
}

/// The hexadecimal digit with value `d`, lower case.
fn hex_digit(d: u32) -> (r: char)
    requires
        d <= 15,
    ensures
        r == hex_char(d as nat),
{
    match d {
        0 => '0',
        1 => '1',
        2 => '2',
        3 => '3',
        4 => '4',
        5 => '5',
        6 => '6',
        7 => '7',
        8 => '8',
        9 => '9',
        10 => 'a',
        11 => 'b',
        12 => 'c',
        13 => 'd',
        14 => 'e',
        _ => 'f',
    }
}

/// Writes a whole string value, quotes included.
fn push_str_value(out: &mut Vec<char>, s: &str)
    ensures
        final(out)@ == old(out)@ + emit_str(s@),
{
    let ghost base = out@;
    out.push('"');
    let cs = chars_of(s);
    let mut i: usize = 0;
    while i < cs.len()
        invariant
            0 <= i <= cs@.len(),
            cs@ == s@,
            out@ == base + seq!['"'] + esc_str(s@.take(i as int)),
        decreases cs@.len() - i,
    {
        proof {
            lemma_esc_str_snoc(s@.take(i as int), s@[i as int]);
            assert(s@.take(i as int).push(s@[i as int]) =~= s@.take(i as int + 1));
        }
        push_esc(out, cs[i]);
        proof {
            assert(out@ =~= base + seq!['"'] + esc_str(s@.take(i as int + 1)));
        }
        i += 1;
    }
    out.push('"');
    proof {
        assert(s@.take(i as int) =~= s@);
        assert(out@ =~= base + emit_str(s@));
    }
}

/// Escaping one more character appends its escape.
proof fn lemma_esc_str_snoc(s: Seq<char>, c: char)
    ensures
        esc_str(s.push(c)) == esc_str(s) + esc(c),
    decreases s.len(),
{
    if s.len() == 0 {
        assert(s.push(c).drop_first() =~= Seq::<char>::empty());
        assert(esc_str(Seq::<char>::empty()) =~= Seq::<char>::empty());
        assert(esc_str(s.push(c)) =~= esc(c) + esc_str(Seq::<char>::empty()));
        assert(esc_str(s.push(c)) =~= esc(c));
        assert(esc_str(s) + esc(c) =~= esc(c));
    } else {
        assert(s.push(c).drop_first() =~= s.drop_first().push(c));
        lemma_esc_str_snoc(s.drop_first(), c);
        assert(esc_str(s.push(c)) =~= esc_str(s) + esc(c));
    }
}

// ---------------------------------------------------------------------------
// The reader, as a mathematical function
// ---------------------------------------------------------------------------

/// Expects the fixed text `l` at `pos`; the position after it on success.
pub open spec fn sp_lit(s: Seq<char>, pos: int, l: Seq<char>) -> Option<int> {
    if 0 <= pos && pos + l.len() <= s.len() && s.subrange(pos, pos + l.len()) == l {
        Some(pos + l.len())
    } else {
        None
    }
}

/// The character a short escape stands for.
pub open spec fn unesc_short(e: char) -> Option<char> {
    if e == '"' {
        Some('"')
    } else if e == '\\' {
        Some('\\')
    } else if e == '/' {
        Some('/')
    } else if e == 'b' {
        Some('\u{8}')
    } else if e == 'f' {
        Some('\u{c}')
    } else if e == 'n' {
        Some('\n')
    } else if e == 'r' {
        Some('\r')
    } else if e == 't' {
        Some('\t')
    } else {
        None
    }
}

/// Reads the body of a string value up to its closing quote: the value's
/// characters and the position after the quote.
pub open spec fn sp_strbody(s: Seq<char>, pos: int) -> Option<(Seq<char>, int)>
    decreases s.len() - pos,
    when 0 <= pos <= s.len()
{
    if pos >= s.len() {
        None
    } else {
        let c = s[pos];
        if c == '"' {
            Some((Seq::empty(), pos + 1))
        } else if c == '\\' {
            if pos + 1 >= s.len() {
                None
            } else {
                let e = s[pos + 1];
                if e == 'u' {
                    if pos + 6 <= s.len() && s[pos + 2] == '0' && s[pos + 3] == '0' && hex_val(
                        s[pos + 4],
                    ) < 16 && hex_val(s[pos + 5]) < 16 {
                        let code = hex_val(s[pos + 4]) * 16 + hex_val(s[pos + 5]);
                        match sp_strbody(s, pos + 6) {
                            Some(tp) => Some((seq![((code as u8) as char)] + tp.0, tp.1)),
                            None => None,
                        }
                    } else {
                        None
                    }
                } else {
                    match unesc_short(e) {
                        Some(ch) => match sp_strbody(s, pos + 2) {
                            Some(tp) => Some((seq![ch] + tp.0, tp.1)),
                            None => None,
                        },
                        None => None,
                    }
                }
            }
        } else {
            match sp_strbody(s, pos + 1) {
                Some(tp) => Some((seq![c] + tp.0, tp.1)),
                None => None,
            }
        }
    }
}

/// Reads a whole string value, quotes included.
pub open spec fn sp_str(s: Seq<char>, pos: int) -> Option<(Seq<char>, int)> {
    if 0 <= pos < s.len() && s[pos] == '"' {
        sp_strbody(s, pos + 1)
    } else {
        None
    }
}

/// A read string body ends after where it started, within the text.
pub proof fn lemma_sp_strbody_advances(s: Seq<char>, pos: int)
    requires
        0 <= pos <= s.len(),
        sp_strbody(s, pos) is Some,
    ensures
        pos < sp_strbody(s, pos)->Some_0.1 <= s.len(),
    decreases s.len() - pos,
{
    let c = s[pos];
    if c == '"' {
    } else if c == '\\' {
        let e = s[pos + 1];
        if e == 'u' {
            lemma_sp_strbody_advances(s, pos + 6);
        } else {
            lemma_sp_strbody_advances(s, pos + 2);
        }
    } else {
        lemma_sp_strbody_advances(s, pos + 1);
    }
}

/// The position after the run of decimal digits starting at `pos`.
pub open spec fn digits_end(s: Seq<char>, pos: int) -> int
    decreases s.len() - pos,
    when 0 <= pos <= s.len()
{
    if pos >= s.len() {
        pos
    } else if spec_is_digit(s[pos]) {
        digits_end(s, pos + 1)
    } else {
        pos
    }
}

/// Reads a decimal number: its value and the position after its digits.
/// There must be at least one digit, and the value must fit.
pub open spec fn sp_num(s: Seq<char>, pos: int) -> Option<(u64, int)> {
    if 0 <= pos <= s.len() {
        let e = digits_end(s, pos);
        if e > pos && digits_val(s.subrange(pos, e)) <= u64::MAX {
            Some((digits_val(s.subrange(pos, e)) as u64, e))
        } else {
            None
        }
    } else {
        None
    }
}

/// The digit run ends within the text, after at least the start.
pub proof fn lemma_digits_end_bounds(s: Seq<char>, pos: int)
    requires
        0 <= pos <= s.len(),
    ensures
        pos <= digits_end(s, pos) <= s.len(),
    decreases s.len() - pos,
{
    if pos < s.len() && spec_is_digit(s[pos]) {
        lemma_digits_end_bounds(s, pos + 1);
    }
}

/// Reads `true` or `false`.
pub open spec fn sp_bool(s: Seq<char>, pos: int) -> Option<(bool, int)> {
    if sp_lit(s, pos, "true"@) is Some {
        Some((true, sp_lit(s, pos, "true"@)->Some_0))
    } else if sp_lit(s, pos, "false"@) is Some {
        Some((false, sp_lit(s, pos, "false"@)->Some_0))
    } else {
        None
    }
}

/// Reads `null` or a number.
pub open spec fn sp_opt_num(s: Seq<char>, pos: int) -> Option<(Option<u64>, int)> {
    if sp_lit(s, pos, "null"@) is Some {
        Some((None, sp_lit(s, pos, "null"@)->Some_0))
    } else {
        match sp_num(s, pos) {
            Some(vp) => Some((Some(vp.0), vp.1)),
            None => None,
        }
    }
}

// ---------------------------------------------------------------------------
// Reading back what was written
// ---------------------------------------------------------------------------

/// A text that starts (at `pos`) with `a + b` starts with `a`, and `b`
/// follows it.
pub proof fn lemma_subrange_split(s: Seq<char>, pos: int, a: Seq<char>, b: Seq<char>)
    requires
        0 <= pos,
        pos + a.len() + b.len() <= s.len(),
        s.subrange(pos, pos + a.len() + b.len()) == a + b,
    ensures
        s.subrange(pos, pos + a.len()) == a,
        s.subrange(pos + a.len(), pos + a.len() + b.len()) == b,
{
    assert(s.subrange(pos, pos + a.len()) =~= (a + b).subrange(0, a.len() as int));
    assert((a + b).subrange(0, a.len() as int) =~= a);
    assert(s.subrange(pos + a.len(), pos + a.len() + b.len()) =~= (a + b).subrange(
        a.len() as int,
        (a + b).len() as int,
    ));
    assert((a + b).subrange(a.len() as int, (a + b).len() as int) =~= b);
}

/// Escapes decode to the character they were written for.
proof fn lemma_esc_decode(s: Seq<char>, pos: int, c: char, rest_ok: (Seq<char>, int))
    requires
        0 <= pos,
        pos + esc(c).len() <= s.len(),
        s.subrange(pos, pos + esc(c).len()) == esc(c),
        sp_strbody(s, pos + esc(c).len()) == Some(rest_ok),
    ensures
        sp_strbody(s, pos) == Some((seq![c] + rest_ok.0, rest_ok.1)),
{
    lemma_sp_strbody_advances(s, pos + esc(c).len());
    let e = esc(c);
    assert forall|k: int| 0 <= k < e.len() implies s[pos + k] == e[k] by {
        assert(s.subrange(pos, pos + e.len())[k] == s[pos + k]);
    }
    if c == '"' || c == '\\' {
        assert(s[pos] == '\\');
        assert(unesc_short(s[pos + 1]) == Some(c));
    } else if c == '\u{8}' || c == '\u{c}' || c == '\n' || c == '\r' || c == '\t' {
        assert(s[pos] == '\\');
        assert(unesc_short(s[pos + 1]) == Some(c));
    } else if (c as u32) < 0x20 {
        assert(s[pos] == '\\' && s[pos + 1] == 'u' && s[pos + 2] == '0' && s[pos + 3] == '0');
        let hi = ((c as u32) / 16) as nat;
        let lo = ((c as u32) % 16) as nat;
        assert(hex_val(hex_char(hi)) == hi);
        assert(hex_val(hex_char(lo)) == lo);
        assert(hi * 16 + lo == c as u32);
        assert((((hi * 16 + lo) as u8) as char) == c);
    } else {
        assert(s[pos + 0] == e[0]);
        assert(s[pos] == c);
        assert(c != '"' && c != '\\');
    }
}

/// A written string value reads back exactly, and the reader stops at its
/// closing quote.
pub proof fn lemma_str_round_trip(s: Seq<char>, pos: int, x: Seq<char>)
    requires
        0 <= pos,
        pos + esc_str(x).len() + 1 <= s.len(),
        s.subrange(pos, pos + esc_str(x).len()) == esc_str(x),
        s[pos + esc_str(x).len()] == '"',
    ensures
        sp_strbody(s, pos) == Some((x, pos + esc_str(x).len() + 1)),
    decreases x.len(),
{
    if x.len() == 0 {
        assert(esc_str(x).len() == 0);
        assert(s[pos] == '"');
    } else {
        let e = esc(x[0]);
        let rest = esc_str(x.drop_first());
        assert(esc_str(x) == e + rest);
        lemma_subrange_split(s, pos, e, rest);
        assert(s.subrange(pos, pos + e.len()) == e);
        lemma_str_round_trip(s, pos + e.len(), x.drop_first());
        lemma_esc_decode(
            s,
            pos,
            x[0],
            (x.drop_first(), pos + e.len() + rest.len() + 1),
        );
        assert(seq![x[0]] + x.drop_first() =~= x);
    }
}

/// A written number reads back exactly when what follows it is not a
/// digit.
pub proof fn lemma_num_round_trip(s: Seq<char>, pos: int, n: u64)
    requires
        0 <= pos,
        pos + spec_dec(n as nat).len() <= s.len(),
        s.subrange(pos, pos + spec_dec(n as nat).len()) == spec_dec(n as nat),
        pos + spec_dec(n as nat).len() == s.len() || !spec_is_digit(
            s[pos + spec_dec(n as nat).len()],
        ),
    ensures
        sp_num(s, pos) == Some((n, pos + spec_dec(n as nat).len())),
{
    let d = spec_dec(n as nat);
    lemma_dec_digits(n as nat);
    lemma_dec_val(n as nat);
    assert forall|k: int| 0 <= k < d.len() implies s[pos + k] == d[k] by {
        assert(s.subrange(pos, pos + d.len())[k] == s[pos + k]);
    }
    assert forall|m: int| pos <= m < pos + d.len() implies spec_is_digit(#[trigger] s[m]) by {
        assert(s[pos + (m - pos)] == d[m - pos]);
        assert(spec_is_digit(d[m - pos]));
    }
    lemma_digits_end_run(s, pos, pos + d.len());
    assert(digits_end(s, pos) == pos + d.len());
    assert(s.subrange(pos, pos + d.len()) == d);
}

/// The digit run from `pos` ends exactly at `q` when everything before
/// `q` is a digit and `q` is the end or a non-digit.
proof fn lemma_digits_end_run(s: Seq<char>, pos: int, q: int)
    requires
        0 <= pos <= q <= s.len(),
        forall|k: int| pos <= k < q ==> spec_is_digit(#[trigger] s[k]),
        q == s.len() || !spec_is_digit(s[q]),
    ensures
        digits_end(s, pos) == q,
    decreases q - pos,
{
    if pos < q {
        lemma_digits_end_run(s, pos + 1, q);
    }
}

// ---------------------------------------------------------------------------
// The track record grammar
// ---------------------------------------------------------------------------

/// A number as JSON text.
pub open spec fn emit_num(n: u64) -> Seq<char> {
    spec_dec(n as nat)
}

/// A boolean as JSON text.
pub open spec fn emit_bool(b: bool) -> Seq<char> {
    if b {
        "true"@
    } else {
        "false"@
    }
}

/// An optional number as JSON text.
pub open spec fn emit_opt(o: Option<u64>) -> Seq<char> {
    match o {
        None => "null"@,
        Some(n) => emit_num(n),
    }
}

/// One track record as JSON text, fields in declaration order; the
/// derived search key is never persisted.
pub open spec fn emit_track(t: TrackV) -> Seq<char> {
    "{\"name\":"@ + emit_str(t.name) + ",\"artist\":"@ + emit_str(t.artist) + ",\"album\":"@
        + emit_str(t.album) + ",\"date_added\":"@ + emit_str(t.date_added) + ",\"year\":"@
        + emit_num(t.year as u64) + ",\"track_number\":"@ + emit_num(t.track_number as u64)
        + ",\"disc_number\":"@ + emit_num(t.disc_number as u64) + ",\"time\":"@ + emit_str(t.time)
        + ",\"played_count\":"@ + emit_num(t.played_count as u64) + ",\"favorited\":"@ + emit_bool(
        t.favorited,
    ) + "}"@
}

/// The later records of a track array: a comma before each.
pub open spec fn emit_tracks_rest(ts: Seq<TrackV>) -> Seq<char>
    decreases ts.len(),
{
    if ts.len() == 0 {
        Seq::empty()
    } else {
        seq![','] + emit_track(ts[0]) + emit_tracks_rest(ts.drop_first())
    }
}

/// The records of a track array, comma-separated.
pub open spec fn emit_tracks(ts: Seq<TrackV>) -> Seq<char> {
    if ts.len() == 0 {
        Seq::empty()
    } else {
        emit_track(ts[0]) + emit_tracks_rest(ts.drop_first())
    }
}

/// The whole cache aggregate as JSON text.
pub open spec fn emit_cache(total: u64, loaded: u64, last: Option<u64>, ts: Seq<TrackV>) -> Seq<
    char,
> {
    "{\"total_tracks\":"@ + emit_num(total) + ",\"loaded_tracks\":"@ + emit_num(loaded)
        + ",\"last_updated\":"@ + emit_opt(last) + ",\"tracks\":["@ + emit_tracks(ts) + "]}"@
}

/// The record a parsed track stands for: the persisted fields as read,
/// the search key rebuilt from the identity fields.
pub open spec fn parsed_track(
    name: Seq<char>,
    artist: Seq<char>,
    album: Seq<char>,
    date_added: Seq<char>,
    year: u32,
    track_number: u32,
    disc_number: u32,
    time: Seq<char>,
    played_count: u32,
    favorited: bool,
) -> TrackV {
    TrackV {
        name,
        artist,
        album,
        date_added,
        year,
        track_number,
        disc_number,
        time,
        played_count,
        favorited,
        search_key: key_of(name, artist, album),
    }
}

/// Reads a number that must fit in `u32`.
pub open spec fn sp_num32(s: Seq<char>, pos: int) -> Option<(u32, int)> {
    match sp_num(s, pos) {
        Some(vp) => if vp.0 <= u32::MAX as u64 {
            Some((vp.0 as u32, vp.1))
        } else {
            None
        },
        None => None,
    }
}

/// Reads one track record.
pub open spec fn sp_track(s: Seq<char>, pos: int) -> Option<(TrackV, int)> {
    match sp_lit(s, pos, "{\"name\":"@) {
        None => None,
        Some(p1) => match sp_str(s, p1) {
            None => None,
            Some((name, p2)) => match sp_lit(s, p2, ",\"artist\":"@) {
                None => None,
                Some(p3) => match sp_str(s, p3) {
                    None => None,
                    Some((artist, p4)) => match sp_lit(s, p4, ",\"album\":"@) {
                        None => None,
                        Some(p5) => match sp_str(s, p5) {
                            None => None,
                            Some((album, p6)) => match sp_lit(s, p6, ",\"date_added\":"@) {
                                None => None,
                                Some(p7) => match sp_str(s, p7) {
                                    None => None,
                                    Some((date_added, p8)) => match sp_lit(s, p8, ",\"year\":"@) {
                                        None => None,
                                        Some(p9) => match sp_num32(s, p9) {
                                            None => None,
                                            Some((year, p10)) => match sp_lit(
                                                s,
                                                p10,
                                                ",\"track_number\":"@,
                                            ) {
                                                None => None,
                                                Some(p11) => match sp_num32(s, p11) {
                                                    None => None,
                                                    Some((track_number, p12)) => match sp_lit(
                                                        s,
                                                        p12,
                                                        ",\"disc_number\":"@,
                                                    ) {
                                                        None => None,
                                                        Some(p13) => match sp_num32(s, p13) {
                                                            None => None,
                                                            Some((disc_number, p14)) => match sp_lit(
                                                                s,
                                                                p14,
                                                                ",\"time\":"@,
                                                            ) {
                                                                None => None,
                                                                Some(p15) => match sp_str(s, p15) {
                                                                    None => None,
                                                                    Some((time, p16)) => match sp_lit(
                                                                        s,
                                                                        p16,
                                                                        ",\"played_count\":"@,
                                                                    ) {
                                                                        None => None,
                                                                        Some(p17) => match sp_num32(
                                                                            s,
                                                                            p17,
                                                                        ) {
                                                                            None => None,
                                                                            Some(
                                                                                (played_count, p18),
                                                                            ) => match sp_lit(
                                                                                s,
                                                                                p18,
                                                                                ",\"favorited\":"@,
                                                                            ) {
                                                                                None => None,
                                                                                Some(p19) => match sp_bool(
                                                                                    s,
                                                                                    p19,
                                                                                ) {
                                                                                    None => None,
                                                                                    Some(
                                                                                        (
                                                                                            favorited,
                                                                                            p20,
                                                                                        ),
                                                                                    ) => match sp_lit(
                                                                                        s,
                                                                                        p20,
                                                                                        "}"@,
                                                                                    ) {
                                                                                        None
                                                                                        => None,
                                                                                        Some(p21)
                                                                                        => Some(
                                                                                            (
                                                                                                parsed_track(
                                                                                                    name,
                                                                                                    artist,
                                                                                                    album,
                                                                                                    date_added,
                                                                                                    year,
                                                                                                    track_number,
                                                                                                    disc_number,
                                                                                                    time,
                                                                                                    played_count,
                                                                                                    favorited,
                                                                                                ),
                                                                                                p21,
                                                                                            ),
                                                                                        ),
                                                                                    },
                                                                                },
                                                                            },
                                                                        },
                                                                    },
                                                                },
                                                            },
                                                        },
                                                    },
                                                },
                                            },
                                        },
                                    },
                                },
                            },
                        },
                    },
                },
            },
        },
    }
}

/// A read track ends after where it started, within the text.
pub proof fn lemma_sp_track_advances(s: Seq<char>, pos: int)
    requires
        sp_track(s, pos) is Some,
    ensures
        pos < sp_track(s, pos)->Some_0.1 <= s.len(),
{
    let p1 = sp_lit(s, pos, "{\"name\":"@)->Some_0;
    reveal_strlit("{\"name\":");
    assert(pos < p1 <= s.len());
    lemma_sp_str_advances(s, p1);
    let p2 = sp_str(s, p1)->Some_0.1;
    lemma_sp_num_bounds(s);
    lemma_sp_str_advances(s, sp_lit(s, p2, ",\"artist\":"@)->Some_0);
    let p4 = sp_str(s, sp_lit(s, p2, ",\"artist\":"@)->Some_0)->Some_0.1;
    lemma_sp_str_advances(s, sp_lit(s, p4, ",\"album\":"@)->Some_0);
    let p6 = sp_str(s, sp_lit(s, p4, ",\"album\":"@)->Some_0)->Some_0.1;
    lemma_sp_str_advances(s, sp_lit(s, p6, ",\"date_added\":"@)->Some_0);
    let p8 = sp_str(s, sp_lit(s, p6, ",\"date_added\":"@)->Some_0)->Some_0.1;
    let p10 = sp_num32(s, sp_lit(s, p8, ",\"year\":"@)->Some_0)->Some_0.1;
    let p12 = sp_num32(s, sp_lit(s, p10, ",\"track_number\":"@)->Some_0)->Some_0.1;
    let p14 = sp_num32(s, sp_lit(s, p12, ",\"disc_number\":"@)->Some_0)->Some_0.1;
    lemma_sp_str_advances(s, sp_lit(s, p14, ",\"time\":"@)->Some_0);
    let p16 = sp_str(s, sp_lit(s, p14, ",\"time\":"@)->Some_0)->Some_0.1;
    let p18 = sp_num32(s, sp_lit(s, p16, ",\"played_count\":"@)->Some_0)->Some_0.1;
    let p19 = sp_lit(s, p18, ",\"favorited\":"@)->Some_0;
    reveal_strlit("true");
    reveal_strlit("false");
    let p20 = sp_bool(s, p19)->Some_0.1;
    reveal_strlit("}");
}

/// A read string value ends after where it started, within the text.
pub proof fn lemma_sp_str_advances(s: Seq<char>, pos: int)
    requires
        sp_str(s, pos) is Some,
    ensures
        pos < sp_str(s, pos)->Some_0.1 <= s.len(),
{
    lemma_sp_strbody_advances(s, pos + 1);
}

/// A read number ends within the text, after where it started.
pub proof fn lemma_sp_num_bounds(s: Seq<char>)
    ensures
        forall|pos: int|
            #[trigger] sp_num(s, pos) is Some ==> pos < sp_num(s, pos)->Some_0.1 <= s.len(),
{
    assert forall|pos: int| #[trigger] sp_num(s, pos) is Some implies pos < sp_num(
        s,
        pos,
    )->Some_0.1 <= s.len() by {
        lemma_digits_end_bounds(s, pos);
    }
}

/// Reads the rest of a track array: either the closing bracket, or a
/// comma and one more record, repeatedly.
pub open spec fn sp_tracks_rest(s: Seq<char>, pos: int) -> Option<(Seq<TrackV>, int)>
    decreases s.len() - pos,
    when 0 <= pos <= s.len()
    via sp_tracks_rest_decreases
{
    if pos >= s.len() {
        None
    } else if s[pos] == ']' {
        Some((Seq::empty(), pos + 1))
    } else if s[pos] == ',' {
        match sp_track(s, pos + 1) {
            None => None,
            Some((t, p)) => match sp_tracks_rest(s, p) {
                None => None,
                Some((ts, q)) => Some((seq![t] + ts, q)),
            },
        }
    } else {
        None
    }
}

#[via_fn]
proof fn sp_tracks_rest_decreases(s: Seq<char>, pos: int) {
    if 0 <= pos < s.len() && s[pos] != ']' && s[pos] == ',' {
        if sp_track(s, pos + 1) is Some {
            lemma_sp_track_advances(s, pos + 1);
        }
    }
}

/// Reads a whole track array after its opening bracket.
pub open spec fn sp_tracks(s: Seq<char>, pos: int) -> Option<(Seq<TrackV>, int)> {
    if 0 <= pos < s.len() && s[pos] == ']' {
        Some((Seq::empty(), pos + 1))
    } else {
        match sp_track(s, pos) {
            None => None,
            Some((t, p)) => if p <= s.len() {
                match sp_tracks_rest(s, p) {
                    None => None,
                    Some((ts, q)) => Some((seq![t] + ts, q)),
                }
            } else {
                None
            },
        }
    }
}

/// Reads the whole cache aggregate; the text must end with it.
pub open spec fn sp_cache(s: Seq<char>) -> Option<(u64, u64, Option<u64>, Seq<TrackV>)> {
    match sp_lit(s, 0, "{\"total_tracks\":"@) {
        None => None,
        Some(p1) => match sp_num(s, p1) {
            None => None,
            Some((total, p2)) => match sp_lit(s, p2, ",\"loaded_tracks\":"@) {
                None => None,
                Some(p3) => match sp_num(s, p3) {
                    None => None,
                    Some((loaded, p4)) => match sp_lit(s, p4, ",\"last_updated\":"@) {
                        None => None,
                        Some(p5) => match sp_opt_num(s, p5) {
                            None => None,
                            Some((last, p6)) => match sp_lit(s, p6, ",\"tracks\":["@) {
                                None => None,
                                Some(p7) => if 0 <= p7 <= s.len() {
                                    match sp_tracks(s, p7) {
                                        None => None,
                                        Some((ts, p8)) => match sp_lit(s, p8, "}"@) {
                                            None => None,
                                            Some(p9) => if p9 == s.len() {
                                                Some((total, loaded, last, ts))
                                            } else {
                                                None
                                            },
                                        },
                                    }
                                } else {
                                    None
                                },
                            },
                        },
                    },
                },
            },
        },
    }
}

// ---------------------------------------------------------------------------
// Round trip: what was written reads back unchanged
// ---------------------------------------------------------------------------

/// A record as it stands after a round trip: the persisted fields as
/// they were, the search key rebuilt.
pub open spec fn reparse(t: TrackV) -> TrackV {
    parsed_track(
        t.name,
        t.artist,
        t.album,
        t.date_added,
        t.year,
        t.track_number,
        t.disc_number,
        t.time,
        t.played_count,
        t.favorited,
    )
}

/// A record set as it stands after a round trip.
pub open spec fn reparse_all(ts: Seq<TrackV>) -> Seq<TrackV> {
    ts.map_values(|t: TrackV| reparse(t))
}

/// A fixed text that stands at `pos` is read there.
proof fn lemma_lit_at(s: Seq<char>, p: int, l: Seq<char>)
    requires
        0 <= p,
        p + l.len() <= s.len(),
        s.subrange(p, p + l.len()) == l,
    ensures
        sp_lit(s, p, l) == Some(p + l.len()),
{
}

/// A written string value that stands at `pos` reads back exactly.
proof fn lemma_emit_str_at(s: Seq<char>, p: int, x: Seq<char>)
    requires
        0 <= p,
        p + emit_str(x).len() <= s.len(),
        s.subrange(p, p + emit_str(x).len()) == emit_str(x),
    ensures
        sp_str(s, p) == Some((x, p + emit_str(x).len())),
{
    let q1 = seq!['"'] + esc_str(x);
    let q2 = seq!['"'];
    lemma_subrange_split(s, p, q1, q2);
    lemma_subrange_split(s, p, seq!['"'], esc_str(x));
    assert(s[p] == s.subrange(p, p + 1)[0]);
    assert(s[p + 1 + esc_str(x).len()] == s.subrange(
        p + q1.len(),
        p + q1.len() + 1,
    )[0]);
    lemma_str_round_trip(s, p + 1, x);
}

/// A written number that stands at `pos`, followed by a non-digit, reads
/// back exactly.
proof fn lemma_num32_at(s: Seq<char>, p: int, n: u32)
    requires
        0 <= p,
        p + emit_num(n as u64).len() <= s.len(),
        s.subrange(p, p + emit_num(n as u64).len()) == emit_num(n as u64),
        p + emit_num(n as u64).len() == s.len() || !spec_is_digit(
            s[p + emit_num(n as u64).len()],
        ),
    ensures
        sp_num32(s, p) == Some((n, p + emit_num(n as u64).len())),
{
    lemma_num_round_trip(s, p, n as u64);
}

/// A written boolean that stands at `pos` reads back exactly.
proof fn lemma_bool_at(s: Seq<char>, p: int, b: bool)
    requires
        0 <= p,
        p + emit_bool(b).len() <= s.len(),
        s.subrange(p, p + emit_bool(b).len()) == emit_bool(b),
    ensures
        sp_bool(s, p) == Some((b, p + emit_bool(b).len())),
{
    reveal_strlit("true");
    reveal_strlit("false");
    if b {
        lemma_lit_at(s, p, "true"@);
    } else {
        assert(s[p] == s.subrange(p, p + 5)[0]);
        assert(s[p] == 'f');
        if p + 4 <= s.len() && s.subrange(p, p + 4) == "true"@ {
            assert(s.subrange(p, p + 4)[0] == s[p]);
            assert(false);
        }
        lemma_lit_at(s, p, "false"@);
    }
}

/// A written optional number that stands at `pos`, followed by a
/// non-digit, reads back exactly.
proof fn lemma_opt_at(s: Seq<char>, p: int, o: Option<u64>)
    requires
        0 <= p,
        p + emit_opt(o).len() <= s.len(),
        s.subrange(p, p + emit_opt(o).len()) == emit_opt(o),
        p + emit_opt(o).len() == s.len() || !spec_is_digit(s[p + emit_opt(o).len()]),
    ensures
        sp_opt_num(s, p) == Some((o, p + emit_opt(o).len())),
{
    reveal_strlit("null");
    match o {
        None => {
            lemma_lit_at(s, p, "null"@);
        }
        Some(n) => {
            lemma_dec_digits(n as nat);
            assert(s[p] == s.subrange(p, p + emit_num(n).len())[0]);
            assert(spec_is_digit(s[p]));
            if p + 4 <= s.len() && s.subrange(p, p + 4) == "null"@ {
                assert(s.subrange(p, p + 4)[0] == s[p]);
                assert(s[p] == 'n');
                assert(false);
            }
            lemma_num_round_trip(s, p, n);
        }
    }
}

/// A written track record that stands at `pos` reads back exactly: the
/// same persisted fields, the search key rebuilt.
proof fn lemma_track_round_trip(s: Seq<char>, pos: int, t: TrackV)
    requires
        0 <= pos,
        pos + emit_track(t).len() <= s.len(),
        s.subrange(pos, pos + emit_track(t).len()) == emit_track(t),
    ensures
        sp_track(s, pos) == Some((reparse(t), pos + emit_track(t).len())),
{
    reveal_strlit("{\"name\":");
    reveal_strlit(",\"artist\":");
    reveal_strlit(",\"album\":");
    reveal_strlit(",\"date_added\":");
    reveal_strlit(",\"year\":");
    reveal_strlit(",\"track_number\":");
    reveal_strlit(",\"disc_number\":");
    reveal_strlit(",\"time\":");
    reveal_strlit(",\"played_count\":");
    reveal_strlit(",\"favorited\":");
    reveal_strlit("}");
    let a1 = "{\"name\":"@;
    let b1 = emit_str(t.name);
    let a2 = ",\"artist\":"@;
    let b2 = emit_str(t.artist);
    let a3 = ",\"album\":"@;
    let b3 = emit_str(t.album);
    let a4 = ",\"date_added\":"@;
    let b4 = emit_str(t.date_added);
    let a5 = ",\"year\":"@;
    let b5 = emit_num(t.year as u64);
    let a6 = ",\"track_number\":"@;
    let b6 = emit_num(t.track_number as u64);
    let a7 = ",\"disc_number\":"@;
    let b7 = emit_num(t.disc_number as u64);
    let a8 = ",\"time\":"@;
    let b8 = emit_str(t.time);
    let a9 = ",\"played_count\":"@;
    let b9 = emit_num(t.played_count as u64);
    let a10 = ",\"favorited\":"@;
    let b10 = emit_bool(t.favorited);
    let a11 = "}"@;
    // peel the pieces off the back, one by one
    let w20 = a1 + b1 + a2 + b2 + a3 + b3 + a4 + b4 + a5 + b5 + a6 + b6 + a7 + b7 + a8 + b8 + a9
        + b9 + a10 + b10;
    lemma_subrange_split(s, pos, w20, a11);
    let w19 = a1 + b1 + a2 + b2 + a3 + b3 + a4 + b4 + a5 + b5 + a6 + b6 + a7 + b7 + a8 + b8 + a9
        + b9 + a10;
    lemma_subrange_split(s, pos, w19, b10);
    let w18 = a1 + b1 + a2 + b2 + a3 + b3 + a4 + b4 + a5 + b5 + a6 + b6 + a7 + b7 + a8 + b8 + a9
        + b9;
    lemma_subrange_split(s, pos, w18, a10);
    let w17 = a1 + b1 + a2 + b2 + a3 + b3 + a4 + b4 + a5 + b5 + a6 + b6 + a7 + b7 + a8 + b8 + a9;
    lemma_subrange_split(s, pos, w17, b9);
    let w16 = a1 + b1 + a2 + b2 + a3 + b3 + a4 + b4 + a5 + b5 + a6 + b6 + a7 + b7 + a8 + b8;
    lemma_subrange_split(s, pos, w16, a9);
    let w15 = a1 + b1 + a2 + b2 + a3 + b3 + a4 + b4 + a5 + b5 + a6 + b6 + a7 + b7 + a8;
    lemma_subrange_split(s, pos, w15, b8);
    let w14 = a1 + b1 + a2 + b2 + a3 + b3 + a4 + b4 + a5 + b5 + a6 + b6 + a7 + b7;
    lemma_subrange_split(s, pos, w14, a8);
    let w13 = a1 + b1 + a2 + b2 + a3 + b3 + a4 + b4 + a5 + b5 + a6 + b6 + a7;
    lemma_subrange_split(s, pos, w13, b7);
    let w12 = a1 + b1 + a2 + b2 + a3 + b3 + a4 + b4 + a5 + b5 + a6 + b6;
    lemma_subrange_split(s, pos, w12, a7);
    let w11 = a1 + b1 + a2 + b2 + a3 + b3 + a4 + b4 + a5 + b5 + a6;
    lemma_subrange_split(s, pos, w11, b6);
    let w10 = a1 + b1 + a2 + b2 + a3 + b3 + a4 + b4 + a5 + b5;
    lemma_subrange_split(s, pos, w10, a6);
    let w9 = a1 + b1 + a2 + b2 + a3 + b3 + a4 + b4 + a5;
    lemma_subrange_split(s, pos, w9, b5);
    let w8 = a1 + b1 + a2 + b2 + a3 + b3 + a4 + b4;
    lemma_subrange_split(s, pos, w8, a5);
    let w7 = a1 + b1 + a2 + b2 + a3 + b3 + a4;
    lemma_subrange_split(s, pos, w7, b4);
    let w6 = a1 + b1 + a2 + b2 + a3 + b3;
    lemma_subrange_split(s, pos, w6, a4);
    let w5 = a1 + b1 + a2 + b2 + a3;
    lemma_subrange_split(s, pos, w5, b3);
    let w4 = a1 + b1 + a2 + b2;
    lemma_subrange_split(s, pos, w4, a3);
    let w3 = a1 + b1 + a2;
    lemma_subrange_split(s, pos, w3, b2);
    let w2 = a1 + b1;
    lemma_subrange_split(s, pos, w2, a2);
    lemma_subrange_split(s, pos, a1, b1);
    // now walk the reader forward
    let p1 = pos + a1.len();
    lemma_lit_at(s, pos, a1);
    lemma_emit_str_at(s, p1, t.name);
    let p2 = p1 + b1.len();
    lemma_lit_at(s, p2, a2);
    let p3 = p2 + a2.len();
    lemma_emit_str_at(s, p3, t.artist);
    let p4 = p3 + b2.len();
    lemma_lit_at(s, p4, a3);
    let p5 = p4 + a3.len();
    lemma_emit_str_at(s, p5, t.album);
    let p6 = p5 + b3.len();
    lemma_lit_at(s, p6, a4);
    let p7 = p6 + a4.len();
    lemma_emit_str_at(s, p7, t.date_added);
    let p8 = p7 + b4.len();
    lemma_lit_at(s, p8, a5);
    let p9 = p8 + a5.len();
    assert(s[p9 + b5.len()] == s.subrange(p9 + b5.len(), p9 + b5.len() + a6.len())[0]);
    lemma_num32_at(s, p9, t.year);
    let p10 = p9 + b5.len();
    lemma_lit_at(s, p10, a6);
    let p11 = p10 + a6.len();
    assert(s[p11 + b6.len()] == s.subrange(p11 + b6.len(), p11 + b6.len() + a7.len())[0]);
    lemma_num32_at(s, p11, t.track_number);
    let p12 = p11 + b6.len();
    lemma_lit_at(s, p12, a7);
    let p13 = p12 + a7.len();
    assert(s[p13 + b7.len()] == s.subrange(p13 + b7.len(), p13 + b7.len() + a8.len())[0]);
    lemma_num32_at(s, p13, t.disc_number);
    let p14 = p13 + b7.len();
    lemma_lit_at(s, p14, a8);
    let p15 = p14 + a8.len();
    lemma_emit_str_at(s, p15, t.time);
    let p16 = p15 + b8.len();
    lemma_lit_at(s, p16, a9);
    let p17 = p16 + a9.len();
    assert(s[p17 + b9.len()] == s.subrange(p17 + b9.len(), p17 + b9.len() + a10.len())[0]);
    lemma_num32_at(s, p17, t.played_count);
    let p18 = p17 + b9.len();
    lemma_lit_at(s, p18, a10);
    let p19 = p18 + a10.len();
    lemma_bool_at(s, p19, t.favorited);
    let p20 = p19 + b10.len();
    lemma_lit_at(s, p20, a11);
}

/// A written row of later array records, closed by a bracket, reads back
/// exactly.
#[verifier::rlimit(100)]
#[verifier::spinoff_prover]
proof fn lemma_tracks_rest_round_trip(s: Seq<char>, pos: int, ts: Seq<TrackV>)
    requires
        0 <= pos,
        pos + emit_tracks_rest(ts).len() + 1 <= s.len(),
        s.subrange(pos, pos + emit_tracks_rest(ts).len()) == emit_tracks_rest(ts),
        s[pos + emit_tracks_rest(ts).len()] == ']',
    ensures
        sp_tracks_rest(s, pos) == Some((reparse_all(ts), pos + emit_tracks_rest(ts).len() + 1)),
    decreases ts.len(),
{
    if ts.len() == 0 {
        assert(emit_tracks_rest(ts).len() == 0);
        assert(reparse_all(ts) =~= Seq::<TrackV>::empty());
    } else {
        let e0 = emit_track(ts[0]);
        let rest = emit_tracks_rest(ts.drop_first());
        assert(emit_tracks_rest(ts) == seq![','] + e0 + rest);
        lemma_subrange_split(s, pos, seq![','] + e0, rest);
        lemma_subrange_split(s, pos, seq![','], e0);
        assert(s[pos] == s.subrange(pos, pos + 1)[0]);
        assert(s[pos] == ',');
        lemma_track_round_trip(s, pos + 1, ts[0]);
        lemma_tracks_rest_round_trip(s, pos + 1 + e0.len(), ts.drop_first());
        assert(seq![reparse(ts[0])] + reparse_all(ts.drop_first()) =~= reparse_all(ts));
    }
}

/// A track's text begins with its opening brace.
#[verifier::spinoff_prover]
proof fn lemma_emit_track_first(t: TrackV)
    ensures
        emit_track(t).len() > 0,
        emit_track(t)[0] == '{',
{
    reveal_strlit("{\"name\":");
    assert(emit_track(t)[0] == ("{\"name\":"@)[0]);
}

/// A written track array, closed by a bracket, reads back exactly.
#[verifier::rlimit(100)]
#[verifier::spinoff_prover]
proof fn lemma_tracks_round_trip(s: Seq<char>, pos: int, ts: Seq<TrackV>)
    requires
        0 <= pos,
        pos + emit_tracks(ts).len() + 1 <= s.len(),
        s.subrange(pos, pos + emit_tracks(ts).len()) == emit_tracks(ts),
        s[pos + emit_tracks(ts).len()] == ']',
    ensures
        sp_tracks(s, pos) == Some((reparse_all(ts), pos + emit_tracks(ts).len() + 1)),
{
    if ts.len() == 0 {
        assert(reparse_all(ts) =~= Seq::<TrackV>::empty());
    } else {
        let e0 = emit_track(ts[0]);
        let rest = emit_tracks_rest(ts.drop_first());
        assert(emit_tracks(ts) == e0 + rest);
        lemma_subrange_split(s, pos, e0, rest);
        lemma_emit_track_first(ts[0]);
        assert(s[pos] == s.subrange(pos, pos + e0.len())[0]);
        assert(s[pos] != ']');
        lemma_track_round_trip(s, pos, ts[0]);
        lemma_sp_track_advances(s, pos);
        lemma_tracks_rest_round_trip(s, pos + e0.len(), ts.drop_first());
        assert(seq![reparse(ts[0])] + reparse_all(ts.drop_first()) =~= reparse_all(ts));
    }
}

/// The round trip of the whole aggregate: the text written for a cache
/// reads back as the same counts, the same timestamp, and the same
/// records with their search keys rebuilt.
pub proof fn lemma_cache_round_trip(total: u64, loaded: u64, last: Option<u64>, ts: Seq<TrackV>)
    ensures
        sp_cache(emit_cache(total, loaded, last, ts)) == Some(
            (total, loaded, last, reparse_all(ts)),
        ),
{
    reveal_strlit("{\"total_tracks\":");
    reveal_strlit(",\"loaded_tracks\":");
    reveal_strlit(",\"last_updated\":");
    reveal_strlit(",\"tracks\":[");
    reveal_strlit("]}");
    let s = emit_cache(total, loaded, last, ts);
    let c1 = "{\"total_tracks\":"@;
    let n1 = emit_num(total);
    let c2 = ",\"loaded_tracks\":"@;
    let n2 = emit_num(loaded);
    let c3 = ",\"last_updated\":"@;
    let n3 = emit_opt(last);
    let c4 = ",\"tracks\":["@;
    let n4 = emit_tracks(ts);
    let c5 = "]}"@;
    assert(s.subrange(0, s.len() as int) =~= s);
    let w8 = c1 + n1 + c2 + n2 + c3 + n3 + c4 + n4;
    lemma_subrange_split(s, 0, w8, c5);
    let w7 = c1 + n1 + c2 + n2 + c3 + n3 + c4;
    lemma_subrange_split(s, 0, w7, n4);
    let w6 = c1 + n1 + c2 + n2 + c3 + n3;
    lemma_subrange_split(s, 0, w6, c4);
    let w5 = c1 + n1 + c2 + n2 + c3;
    lemma_subrange_split(s, 0, w5, n3);
    let w4 = c1 + n1 + c2 + n2;
    lemma_subrange_split(s, 0, w4, c3);
    let w3 = c1 + n1 + c2;
    lemma_subrange_split(s, 0, w3, n2);
    let w2 = c1 + n1;
    lemma_subrange_split(s, 0, w2, c2);
    lemma_subrange_split(s, 0, c1, n1);
    lemma_lit_at(s, 0, c1);
    let p1 = c1.len() as int;
    assert(s[p1 + n1.len()] == s.subrange(p1 + n1.len(), p1 + n1.len() + c2.len())[0]);
    lemma_num_round_trip(s, p1, total);
    let p2 = p1 + n1.len();
    lemma_lit_at(s, p2, c2);
    let p3 = p2 + c2.len();
    assert(s[p3 + n2.len()] == s.subrange(p3 + n2.len(), p3 + n2.len() + c3.len())[0]);
    lemma_num_round_trip(s, p3, loaded);
    let p4 = p3 + n2.len();
    lemma_lit_at(s, p4, c3);
    let p5 = p4 + c3.len();
    assert(s[p5 + n3.len()] == s.subrange(p5 + n3.len(), p5 + n3.len() + c4.len())[0]);
    lemma_opt_at(s, p5, last);
    let p6 = p5 + n3.len();
    lemma_lit_at(s, p6, c4);
    let p7 = p6 + c4.len();
    assert(s[p7 + n4.len()] == s.subrange(p7 + n4.len(), p7 + n4.len() + c5.len())[0]);
    assert(s[p7 + n4.len()] == ']');
    lemma_tracks_round_trip(s, p7, ts);
    let p8 = p7 + n4.len() + 1;
    assert(s.subrange(p8, p8 + 1) =~= seq![s[p8]]);
    assert(s[p8] == s.subrange(p7 + n4.len(), p7 + n4.len() + c5.len())[1]);
    assert(s[p8] == '}');
    assert(s.subrange(p8, p8 + 1) =~= "}"@) by {
        reveal_strlit("}");
    }
    lemma_lit_at(s, p8, "}"@);
}

// ---------------------------------------------------------------------------
// The writer
// ---------------------------------------------------------------------------

/// Appends a fixed text.
fn push_lit(out: &mut Vec<char>, l: &str)
    ensures
        final(out)@ == old(out)@ + l@,
{
    let mut c = chars_of(l);
    out.append(&mut c);
}

/// Appends a number.
fn push_num(out: &mut Vec<char>, n: u64)
    ensures
        final(out)@ == old(out)@ + emit_num(n),
{
    let mut d = dec_u64(n);
    out.append(&mut d);
}

/// Appends a boolean.
fn push_bool(out: &mut Vec<char>, b: bool)
    ensures
        final(out)@ == old(out)@ + emit_bool(b),
{
    if b {
        push_lit(out, "true");
    } else {
        push_lit(out, "false");
    }
}

/// Appends one track record.
#[verifier::rlimit(100)]
#[verifier::spinoff_prover]
fn push_track(out: &mut Vec<char>, t: &CachedTrack)
    ensures
        final(out)@ == old(out)@ + emit_track(t@),
{
    push_lit(out, "{\"name\":");
    push_str_value(out, t.name.as_str());
    push_lit(out, ",\"artist\":");
    push_str_value(out, t.artist.as_str());
    push_lit(out, ",\"album\":");
    push_str_value(out, t.album.as_str());
    push_lit(out, ",\"date_added\":");
    push_str_value(out, t.date_added.as_str());
    push_lit(out, ",\"year\":");
    push_num(out, t.year as u64);
    push_lit(out, ",\"track_number\":");
    push_num(out, t.track_number as u64);
    push_lit(out, ",\"disc_number\":");
    push_num(out, t.disc_number as u64);
    push_lit(out, ",\"time\":");
    push_str_value(out, t.time.as_str());
    push_lit(out, ",\"played_count\":");
    push_num(out, t.played_count as u64);
    push_lit(out, ",\"favorited\":");
    push_bool(out, t.favorited);
    push_lit(out, "}");
    proof {
        assert(out@ =~= old(out)@ + emit_track(t@));
    }
}

/// One more record extends the array text by a comma and the record.
proof fn lemma_emit_tracks_snoc(ts: Seq<TrackV>, t: TrackV)
    ensures
        ts.len() == 0 ==> emit_tracks(ts.push(t)) == emit_track(t),
        ts.len() > 0 ==> emit_tracks(ts.push(t)) == emit_tracks(ts) + seq![','] + emit_track(t),
    decreases ts.len(),
{
    if ts.len() == 0 {
        assert(ts.push(t)[0] == t);
        assert(ts.push(t).drop_first() =~= Seq::<TrackV>::empty());
        assert(emit_tracks_rest(Seq::<TrackV>::empty()) =~= Seq::<char>::empty());
        assert(emit_tracks(ts.push(t)) =~= emit_track(t));
    } else {
        lemma_emit_tracks_rest_snoc(ts.drop_first(), t);
        assert(ts.push(t)[0] == ts[0]);
        assert(ts.push(t).drop_first() =~= ts.drop_first().push(t));
        assert(emit_tracks(ts.push(t)) =~= emit_tracks(ts) + seq![','] + emit_track(t));
    }
}

proof fn lemma_emit_tracks_rest_snoc(ts: Seq<TrackV>, t: TrackV)
    ensures
        emit_tracks_rest(ts.push(t)) == emit_tracks_rest(ts) + seq![','] + emit_track(t),
    decreases ts.len(),
{
    if ts.len() == 0 {
        assert(ts.push(t)[0] == t);
        assert(ts.push(t).drop_first() =~= Seq::<TrackV>::empty());
        assert(emit_tracks_rest(Seq::<TrackV>::empty()) =~= Seq::<char>::empty());
        assert(emit_tracks_rest(ts.push(t)) =~= emit_tracks_rest(ts) + seq![','] + emit_track(t));
    } else {
        lemma_emit_tracks_rest_snoc(ts.drop_first(), t);
        assert(ts.push(t)[0] == ts[0]);
        assert(ts.push(t).drop_first() =~= ts.drop_first().push(t));
        assert(emit_tracks_rest(ts.push(t)) =~= emit_tracks_rest(ts) + seq![','] + emit_track(t));
    }
}

// ---------------------------------------------------------------------------
// The reader
// ---------------------------------------------------------------------------

/// Expects the fixed text `l` at `pos`.
fn p_lit(s: &[char], pos: usize, l: &str) -> (r: Option<usize>)
    ensures
        r matches Some(p) ==> sp_lit(s@, pos as int, l@) == Some(p as int),
        r is None ==> sp_lit(s@, pos as int, l@) is None,
{
    let lc = chars_of(l);
    let n = s.len();
    if lc.len() > n || pos > n - lc.len() {
        return None;
    }
    let mut j: usize = 0;
    while j < lc.len()
        invariant
            0 <= j <= lc@.len(),
            lc@ == l@,
            n == s@.len(),
            pos + lc@.len() <= s@.len(),
            forall|m: int| 0 <= m < j ==> s@[pos + m] == lc@[m],
        decreases lc@.len() - j,
    {
        if s[pos + j] != lc[j] {
            proof {
                assert(s@.subrange(pos as int, pos + l@.len())[j as int] == s@[pos + j]);
            }
            return None;
        }
        j += 1;
    }
    proof {
        assert(s@.subrange(pos as int, pos + l@.len()) =~= l@);
    }
    Some(pos + lc.len())
}

/// Reads a string value, quotes included.
fn p_str(s: &[char], pos: usize) -> (r: Option<(Vec<char>, usize)>)
    ensures
        r matches Some(vp) ==> sp_str(s@, pos as int) == Some((vp.0@, vp.1 as int)) && vp.1
            <= s@.len(),
        r is None ==> sp_str(s@, pos as int) is None,
{
    let n = s.len();
    if pos >= n || s[pos] != '"' {
        return None;
    }
    let mut acc: Vec<char> = Vec::new();
    let mut cur: usize = pos + 1;
    loop
        invariant
            pos + 1 <= cur <= s@.len(),
            n == s@.len(),
            pos < s@.len(),
            s@[pos as int] == '"',
            sp_strbody(s@, pos as int + 1) == (match sp_strbody(s@, cur as int) {
                Some(tp) => Some((acc@ + tp.0, tp.1)),
                None => None::<(Seq<char>, int)>,
            }),
        decreases s@.len() - cur,
    {
        if cur >= n {
            return None;
        }
        let c = s[cur];
        if c == '"' {
            proof {
                assert(acc@ + Seq::<char>::empty() =~= acc@);
            }
            return Some((acc, cur + 1));
        }
        let ghost prev = acc@;
        let ghost prev_cur = cur as int;
        if c == '\\' {
            if cur + 1 >= n {
                return None;
            }
            let e = s[cur + 1];
            if e == 'u' {
                if n - cur >= 6 && s[cur + 2] == '0' && s[cur + 3] == '0' && hex_of(s[cur + 4])
                    < 16 && hex_of(s[cur + 5]) < 16 {
                    let code = hex_of(s[cur + 4]) * 16 + hex_of(s[cur + 5]);
                    acc.push((code as u8) as char);
                    cur = cur + 6;
                } else {
                    return None;
                }
            } else {
                match unesc_short_at(e) {
                    Some(ch) => {
                        acc.push(ch);
                        cur = cur + 2;
                    }
                    None => {
                        return None;
                    }
                }
            }
        } else {
            acc.push(c);
            cur = cur + 1;
        }
        proof {
            assert forall|tp: (Seq<char>, int)|
                sp_strbody(s@, cur as int) == Some::<(Seq<char>, int)>(tp) implies acc@ + tp.0
                =~= prev + (seq![acc@[acc@.len() - 1]] + tp.0) by {}
            assert(sp_strbody(s@, pos as int + 1) == (match sp_strbody(s@, cur as int) {
                Some(tp) => Some((acc@ + tp.0, tp.1)),
                None => None::<(Seq<char>, int)>,
            }));
        }
    }
}

/// The value of a hexadecimal digit, or 16.
fn hex_of(c: char) -> (r: u32)
    ensures
        r == hex_val(c),
{
    if is_digit(c) {
        digit_of(c)
    } else if c == 'a' || c == 'A' {
        10
    } else if c == 'b' || c == 'B' {
        11
    } else if c == 'c' || c == 'C' {
        12
    } else if c == 'd' || c == 'D' {
        13
    } else if c == 'e' || c == 'E' {
        14
    } else if c == 'f' || c == 'F' {
        15
    } else {
        16
    }
}

/// The character a short escape stands for.
fn unesc_short_at(e: char) -> (r: Option<char>)
    ensures
        r == unesc_short(e),
{
    if e == '"' {
        Some('"')
    } else if e == '\\' {
        Some('\\')
    } else if e == '/' {
        Some('/')
    } else if e == 'b' {
        Some('\u{8}')
    } else if e == 'f' {
        Some('\u{c}')
    } else if e == 'n' {
        Some('\n')
    } else if e == 'r' {
        Some('\r')
    } else if e == 't' {
        Some('\t')
    } else {
        None
    }
}

/// Reads a decimal number.
fn p_num(s: &[char], pos: usize) -> (r: Option<(u64, usize)>)
    ensures
        r matches Some(vp) ==> sp_num(s@, pos as int) == Some((vp.0, vp.1 as int)) && vp.1
            <= s@.len(),
        r is None ==> sp_num(s@, pos as int) is None,
{
    let n = s.len();
    if pos > n {
        return None;
    }
    let ghost e = digits_end(s@, pos as int);
    proof {
        lemma_digits_end_bounds(s@, pos as int);
    }
    let mut acc: u128 = 0;
    let mut cur: usize = pos;
    while cur < n && is_digit(s[cur])
        invariant
            pos <= cur <= s@.len(),
            n == s@.len(),
            e == digits_end(s@, pos as int),
            pos <= e <= s@.len(),
            forall|k: int| pos <= k < cur ==> spec_is_digit(#[trigger] s@[k]),
            cur <= e,
            acc == digits_val(s@.subrange(pos as int, cur as int)),
            acc <= u64::MAX,
        decreases s@.len() - cur,
    {
        let d = digit_of(s[cur]);
        proof {
            lemma_digits_end_stable(s@, pos as int, cur as int);
            assert(s@.subrange(pos as int, cur as int + 1).drop_last() =~= s@.subrange(
                pos as int,
                cur as int,
            ));
            assert(s@.subrange(pos as int, cur as int + 1).last() == s@[cur as int]);
        }
        acc = acc * 10 + (d as u128);
        cur += 1;
        if acc > u64::MAX as u128 {
            proof {
                lemma_digits_end_digits(s@, pos as int);
                lemma_digits_prefix_grows(s@, pos as int, cur as int, e);
            }
            return None;
        }
    }
    proof {
        if cur < s@.len() {
            lemma_digits_end_run(s@, pos as int, cur as int);
        } else {
            lemma_digits_end_run(s@, pos as int, cur as int);
        }
        assert(e == cur);
    }
    if cur == pos {
        return None;
    }
    Some((acc as u64, cur))
}

/// Every character before the digit run's end is a digit.
proof fn lemma_digits_end_digits(s: Seq<char>, pos: int)
    requires
        0 <= pos <= s.len(),
    ensures
        forall|k: int| pos <= k < digits_end(s, pos) ==> spec_is_digit(#[trigger] s[k]),
    decreases s.len() - pos,
{
    if pos < s.len() && spec_is_digit(s[pos]) {
        lemma_digits_end_digits(s, pos + 1);
    }
}

/// Everything before the digit run's end is a digit, so the run's end
/// seen from any point inside it is the same.
proof fn lemma_digits_end_stable(s: Seq<char>, pos: int, cur: int)
    requires
        0 <= pos <= cur <= s.len(),
        forall|k: int| pos <= k < cur ==> spec_is_digit(#[trigger] s[k]),
        cur < s.len() ==> spec_is_digit(s[cur]),
        cur < s.len(),
    ensures
        cur + 1 <= digits_end(s, pos),
    decreases cur - pos,
{
    if pos < cur {
        lemma_digits_end_stable(s, pos + 1, cur);
    } else {
        lemma_digits_end_bounds(s, pos + 1);
    }
}

/// The whole digit run's value is at least any prefix's value.
proof fn lemma_digits_prefix_grows(s: Seq<char>, pos: int, cur: int, e: int)
    requires
        0 <= pos <= cur <= e <= s.len(),
        forall|k: int| pos <= k < e ==> spec_is_digit(#[trigger] s[k]),
    ensures
        digits_val(s.subrange(pos, e)) >= digits_val(s.subrange(pos, cur)),
{
    let whole = s.subrange(pos, e);
    crate::text::lemma_digits_val_grows(whole, cur - pos);
    assert(whole.take(cur - pos) =~= s.subrange(pos, cur));
}

/// Reads `true` or `false`.
fn p_bool(s: &[char], pos: usize) -> (r: Option<(bool, usize)>)
    ensures
        r matches Some(vp) ==> sp_bool(s@, pos as int) == Some((vp.0, vp.1 as int)) && vp.1
            <= s@.len(),
        r is None ==> sp_bool(s@, pos as int) is None,
{
    match p_lit(s, pos, "true") {
        Some(p) => Some((true, p)),
        None => match p_lit(s, pos, "false") {
            Some(p) => Some((false, p)),
            None => None,
        },
    }
}

/// Reads `null` or a number.
fn p_opt_num(s: &[char], pos: usize) -> (r: Option<(Option<u64>, usize)>)
    ensures
        r matches Some(vp) ==> sp_opt_num(s@, pos as int) == Some((vp.0, vp.1 as int)) && vp.1
            <= s@.len(),
        r is None ==> sp_opt_num(s@, pos as int) is None,
{
    match p_lit(s, pos, "null") {
        Some(p) => Some((None, p)),
        None => match p_num(s, pos) {
            Some((v, p)) => Some((Some(v), p)),
            None => None,
        },
    }
}

/// Reads a number that must fit in `u32`.
fn p_num32(s: &[char], pos: usize) -> (r: Option<(u32, usize)>)
    ensures
        r matches Some(vp) ==> sp_num32(s@, pos as int) == Some((vp.0, vp.1 as int)) && vp.1
            <= s@.len(),
        r is None ==> sp_num32(s@, pos as int) is None,
{
    match p_num(s, pos) {
        Some((v, p)) => if v <= u32::MAX as u64 {
            Some((v as u32, p))
        } else {
            None
        },
        None => None,
    }
}

/// Reads one track record; its search key is rebuilt from the read
/// identity fields.
fn p_track(s: &[char], pos: usize) -> (r: Option<(CachedTrack, usize)>)
    ensures
        r matches Some(vp) ==> sp_track(s@, pos as int) == Some((vp.0@, vp.1 as int)) && vp.1
            <= s@.len(),
        r is None ==> sp_track(s@, pos as int) is None,
{
    let p1 = match p_lit(s, pos, "{\"name\":") {
        Some(p) => p,
        None => {
            return None;
        },
    };
    let (name, p2) = match p_str(s, p1) {
        Some(vp) => vp,
        None => {
            return None;
        },
    };
    let p3 = match p_lit(s, p2, ",\"artist\":") {
        Some(p) => p,
        None => {
            return None;
        },
    };
    let (artist, p4) = match p_str(s, p3) {
        Some(vp) => vp,
        None => {
            return None;
        },
    };
    let p5 = match p_lit(s, p4, ",\"album\":") {
        Some(p) => p,
        None => {
            return None;
        },
    };
    let (album, p6) = match p_str(s, p5) {
        Some(vp) => vp,
        None => {
            return None;
        },
    };
    let p7 = match p_lit(s, p6, ",\"date_added\":") {
        Some(p) => p,
        None => {
            return None;
        },
    };
    let (date_added, p8) = match p_str(s, p7) {
        Some(vp) => vp,
        None => {
            return None;
        },
    };
    let p9 = match p_lit(s, p8, ",\"year\":") {
        Some(p) => p,
        None => {
            return None;
        },
    };
    let (year, p10) = match p_num32(s, p9) {
        Some(vp) => vp,
        None => {
            return None;
        },
    };
    let p11 = match p_lit(s, p10, ",\"track_number\":") {
        Some(p) => p,
        None => {
            return None;
        },
    };
    let (track_number, p12) = match p_num32(s, p11) {
        Some(vp) => vp,
        None => {
            return None;
        },
    };
    let p13 = match p_lit(s, p12, ",\"disc_number\":") {
        Some(p) => p,
        None => {
            return None;
        },
    };
    let (disc_number, p14) = match p_num32(s, p13) {
        Some(vp) => vp,
        None => {
            return None;
        },
    };
    let p15 = match p_lit(s, p14, ",\"time\":") {
        Some(p) => p,
        None => {
            return None;
        },
    };
    let (time, p16) = match p_str(s, p15) {
        Some(vp) => vp,
        None => {
            return None;
        },
    };
    let p17 = match p_lit(s, p16, ",\"played_count\":") {
        Some(p) => p,
        None => {
            return None;
        },
    };
    let (played_count, p18) = match p_num32(s, p17) {
        Some(vp) => vp,
        None => {
            return None;
        },
    };
    let p19 = match p_lit(s, p18, ",\"favorited\":") {
        Some(p) => p,
        None => {
            return None;
        },
    };
    let (favorited, p20) = match p_bool(s, p19) {
        Some(vp) => vp,
        None => {
            return None;
        },
    };
    let p21 = match p_lit(s, p20, "}") {
        Some(p) => p,
        None => {
            return None;
        },
    };
    let t = CachedTrack::new(
        string_of(name.as_slice()),
        string_of(artist.as_slice()),
        string_of(album.as_slice()),
        string_of(date_added.as_slice()),
        year,
        track_number,
        disc_number,
        string_of(time.as_slice()),
        played_count,
        favorited,
    );
    Some((t, p21))
}

/// Reads a whole track array after its opening bracket.
#[verifier::rlimit(100)]
#[verifier::spinoff_prover]
fn p_tracks(s: &[char], pos: usize) -> (r: Option<(Vec<CachedTrack>, usize)>)
    requires
        pos <= s@.len(),
    ensures
        r matches Some(vp) ==> sp_tracks(s@, pos as int) == Some(
            (vp.0.deep_view(), vp.1 as int),
        ) && vp.1 <= s@.len(),
        r is None ==> sp_tracks(s@, pos as int) is None,
{
    let n = s.len();
    if pos < n && s[pos] == ']' {
        let empty: Vec<CachedTrack> = Vec::new();
        proof {
            assert(empty.deep_view() =~= Seq::<TrackV>::empty());
        }
        return Some((empty, pos + 1));
    }
    let (first, mut cur) = match p_track(s, pos) {
        Some(vp) => vp,
        None => {
            return None;
        },
    };
    let mut acc: Vec<CachedTrack> = Vec::new();
    acc.push(first);
    proof {
        assert(acc.deep_view() =~= seq![sp_track(s@, pos as int)->Some_0.0]);
    }
    loop
        invariant
            cur <= s@.len(),
            n == s@.len(),
            sp_tracks(s@, pos as int) == (match sp_tracks_rest(s@, cur as int) {
                Some(tp) => Some::<(Seq<TrackV>, int)>((acc.deep_view() + tp.0, tp.1)),
                None => None::<(Seq<TrackV>, int)>,
            }),
        decreases s@.len() - cur,
    {
        if cur >= n {
            return None;
        }
        if s[cur] == ']' {
            proof {
                assert(acc.deep_view() + Seq::<TrackV>::empty() =~= acc.deep_view());
            }
            return Some((acc, cur + 1));
        }
        if s[cur] != ',' {
            return None;
        }
        let (t, p) = match p_track(s, cur + 1) {
            Some(vp) => vp,
            None => {
                return None;
            },
        };
        proof {
            lemma_sp_track_advances(s@, cur as int + 1);
        }
        let ghost prev = acc.deep_view();
        let ghost tview = t@;
        acc.push(t);
        cur = p;
        proof {
            assert(acc.deep_view() =~= prev.push(tview));
            assert forall|tp: (Seq<TrackV>, int)|
                sp_tracks_rest(s@, cur as int) == Some::<(Seq<TrackV>, int)>(tp) implies
                acc.deep_view() + tp.0 =~= prev + (seq![tview] + tp.0) by {}
        }
    }
}

/// The cache aggregate as its canonical JSON text.
pub fn cache_to_json(
    total_tracks: usize,
    loaded_tracks: usize,
    last_updated: Option<u64>,
    tracks: &Vec<CachedTrack>,
) -> (r: String)
    ensures
        r@ == emit_cache(
            total_tracks as u64,
            loaded_tracks as u64,
            last_updated,
            tracks.deep_view(),
        ),
{
    let mut out: Vec<char> = Vec::new();
    push_lit(&mut out, "{\"total_tracks\":");
    push_num(&mut out, total_tracks as u64);
    push_lit(&mut out, ",\"loaded_tracks\":");
    push_num(&mut out, loaded_tracks as u64);
    push_lit(&mut out, ",\"last_updated\":");
    match last_updated {
        Some(ts) => push_num(&mut out, ts),
        None => push_lit(&mut out, "null"),
    }
    push_lit(&mut out, ",\"tracks\":[");
    let ghost base = out@;
    let mut i: usize = 0;
    while i < tracks.len()
        invariant
            0 <= i <= tracks@.len(),
            out@ == base + emit_tracks(tracks.deep_view().take(i as int)),
        decreases tracks@.len() - i,
    {
        proof {
            lemma_emit_tracks_snoc(tracks.deep_view().take(i as int), tracks.deep_view()[i as int]);
            assert(tracks.deep_view().take(i as int).push(tracks.deep_view()[i as int])
                =~= tracks.deep_view().take(i as int + 1));
        }
        if i > 0 {
            push_lit(&mut out, ",");
            proof {
                reveal_strlit(",");
                assert(","@ =~= seq![',']);
            }
        }
        push_track(&mut out, &tracks[i]);
        proof {
            assert(out@ =~= base + emit_tracks(tracks.deep_view().take(i as int + 1)));
        }
        i += 1;
    }
    push_lit(&mut out, "]}");
    proof {
        assert(tracks.deep_view().take(i as int) =~= tracks.deep_view());
        assert(out@ =~= emit_cache(
            total_tracks as u64,
            loaded_tracks as u64,
            last_updated,
            tracks.deep_view(),
        ));
    }
    string_of(out.as_slice())
}

/// Reads a cache aggregate back from its JSON text: the counts, the
/// timestamp and the records, or nothing where the text is not a snapshot
/// this library would write.
pub fn cache_from_json(s: &str) -> (r: Option<(usize, usize, Option<u64>, Vec<CachedTrack>)>)
    ensures
        r matches Some(vp) ==> sp_cache(s@) == Some(
            (vp.0 as u64, vp.1 as u64, vp.2, vp.3.deep_view()),
        ) && vp.0 <= usize::MAX && vp.1 <= usize::MAX,
        r is None ==> (match sp_cache(s@) {
            Some(c) => c.0 > usize::MAX as u64 || c.1 > usize::MAX as u64,
            None => true,
        }),
{
    let cs = chars_of(s);
    let sv = cs.as_slice();
    let p1 = match p_lit(sv, 0, "{\"total_tracks\":") {
        Some(p) => p,
        None => {
            return None;
        },
    };
    let (total, p2) = match p_num(sv, p1) {
        Some(vp) => vp,
        None => {
            return None;
        },
    };
    let p3 = match p_lit(sv, p2, ",\"loaded_tracks\":") {
        Some(p) => p,
        None => {
            return None;
        },
    };
    let (loaded, p4) = match p_num(sv, p3) {
        Some(vp) => vp,
        None => {
            return None;
        },
    };
    let p5 = match p_lit(sv, p4, ",\"last_updated\":") {
        Some(p) => p,
        None => {
            return None;
        },
    };
    let (last, p6) = match p_opt_num(sv, p5) {
        Some(vp) => vp,
        None => {
            return None;
        },
    };
    let p7 = match p_lit(sv, p6, ",\"tracks\":[") {
        Some(p) => p,
        None => {
            return None;
        },
    };
    let (tracks, p8) = match p_tracks(sv, p7) {
        Some(vp) => vp,
        None => {
            return None;
        },
    };
    let p9 = match p_lit(sv, p8, "}") {
        Some(p) => p,
        None => {
            return None;
        },
    };
    if p9 != cs.len() {
        return None;
    }
    if total > usize::MAX as u64 || loaded > usize::MAX as u64 {
        return None;
    }
    Some((total as usize, loaded as usize, last, tracks))
}

/// Whether a cache is the empty default: nothing reported, nothing held,
/// never updated.
pub open spec fn is_empty_cache(r: TrackCache) -> bool {
    r.total_tracks == 0 && r.loaded_tracks == 0 && r.last_updated is None && r.tracks@.len() == 0
}

impl TrackCache {
    /// The whole aggregate as its canonical JSON text. The derived search
    /// keys and the fresh-build flag are not persisted.
    pub fn to_json(&self) -> (r: String)
        ensures
            r@ == emit_cache(
                self.total_tracks as u64,
                self.loaded_tracks as u64,
                self.last_updated,
                self.tracks.deep_view(),
            ),
    {
        cache_to_json(self.total_tracks, self.loaded_tracks, self.last_updated, &self.tracks)
    }

    /// The cache a file's text stands for. A missing or unreadable file
    /// (no content) yields the empty default flagged as a fresh build; a
    /// corrupt file yields the same empty default, silently and without
    /// the flag; a good snapshot yields its counts, its timestamp and its
    /// records with their search keys rebuilt.
    pub fn from_file_text(content: Option<&str>) -> (r: TrackCache)
        ensures
            content is None ==> is_empty_cache(r) && r.is_fresh_build,
            content matches Some(s) ==> match sp_cache(s@) {
                Some(c) => if c.0 <= usize::MAX as u64 && c.1 <= usize::MAX as u64 {
                    r.total_tracks == c.0 && r.loaded_tracks == c.1 && r.last_updated == c.2
                        && r.tracks.deep_view() == c.3 && !r.is_fresh_build
                } else {
                    is_empty_cache(r) && !r.is_fresh_build
                },
                None => is_empty_cache(r) && !r.is_fresh_build,
            },
    {
        match content {
            None => {
                let mut r = TrackCache::default();
                r.is_fresh_build = true;
                r
            }
            Some(s) => match cache_from_json(s) {
                Some((total, loaded, last, tracks)) => TrackCache {
                    total_tracks: total,
                    loaded_tracks: loaded,
                    last_updated: last,
                    tracks,
                    is_fresh_build: false,
                },
                None => TrackCache::default(),
            },
        }
    }
}


// ---------------------------------------------------------------------------
// The playlist side-cache grammar
// ---------------------------------------------------------------------------

/// One playlist track as JSON text, fields in declaration order.
pub open spec fn emit_ptrack(t: PlaylistTrackV) -> Seq<char> {
    "{\"name\":"@ + emit_str(t.name) + ",\"artist\":"@ + emit_str(t.artist) + ",\"album\":"@
        + emit_str(t.album) + ",\"year\":"@ + emit_num(t.year as u64) + ",\"time\":"@ + emit_str(
        t.time,
    ) + ",\"played_count\":"@ + emit_num(t.played_count as u64) + ",\"favorited\":"@ + emit_bool(
        t.favorited,
    ) + "}"@
}

/// The later tracks of a playlist array: a comma before each.
pub open spec fn emit_ptracks_rest(ts: Seq<PlaylistTrackV>) -> Seq<char>
    decreases ts.len(),
{
    if ts.len() == 0 {
        Seq::empty()
    } else {
        seq![','] + emit_ptrack(ts[0]) + emit_ptracks_rest(ts.drop_first())
    }
}

/// The tracks of a playlist array, comma-separated.
pub open spec fn emit_ptracks(ts: Seq<PlaylistTrackV>) -> Seq<char> {
    if ts.len() == 0 {
        Seq::empty()
    } else {
        emit_ptrack(ts[0]) + emit_ptracks_rest(ts.drop_first())
    }
}

/// One map entry of the side-cache: the playlist's name as the key, then
/// the playlist object.
pub open spec fn emit_pentry(p: PlaylistV) -> Seq<char> {
    emit_str(p.name) + ":{\"name\":"@ + emit_str(p.name) + ",\"tracks\":["@ + emit_ptracks(
        p.tracks,
    ) + "]}"@
}

/// The later map entries: a comma before each.
pub open spec fn emit_pentries_rest(ps: Seq<PlaylistV>) -> Seq<char>
    decreases ps.len(),
{
    if ps.len() == 0 {
        Seq::empty()
    } else {
        seq![','] + emit_pentry(ps[0]) + emit_pentries_rest(ps.drop_first())
    }
}

/// The map entries of the side-cache, comma-separated.
pub open spec fn emit_pentries(ps: Seq<PlaylistV>) -> Seq<char> {
    if ps.len() == 0 {
        Seq::empty()
    } else {
        emit_pentry(ps[0]) + emit_pentries_rest(ps.drop_first())
    }
}

/// The whole side-cache as JSON text.
pub open spec fn emit_pcache(ps: Seq<PlaylistV>) -> Seq<char> {
    "{\"playlists\":{"@ + emit_pentries(ps) + "}}"@
}

/// Reads one playlist track.
pub open spec fn sp_ptrack(s: Seq<char>, pos: int) -> Option<(PlaylistTrackV, int)> {
    match sp_lit(s, pos, "{\"name\":"@) {
        None => None,
        Some(p1) => match sp_str(s, p1) {
            None => None,
            Some((name, p2)) => match sp_lit(s, p2, ",\"artist\":"@) {
                None => None,
                Some(p3) => match sp_str(s, p3) {
                    None => None,
                    Some((artist, p4)) => match sp_lit(s, p4, ",\"album\":"@) {
                        None => None,
                        Some(p5) => match sp_str(s, p5) {
                            None => None,
                            Some((album, p6)) => match sp_lit(s, p6, ",\"year\":"@) {
                                None => None,
                                Some(p7) => match sp_num32(s, p7) {
                                    None => None,
                                    Some((year, p8)) => match sp_lit(s, p8, ",\"time\":"@) {
                                        None => None,
                                        Some(p9) => match sp_str(s, p9) {
                                            None => None,
                                            Some((time, p10)) => match sp_lit(
                                                s,
                                                p10,
                                                ",\"played_count\":"@,
                                            ) {
                                                None => None,
                                                Some(p11) => match sp_num32(s, p11) {
                                                    None => None,
                                                    Some((played_count, p12)) => match sp_lit(
                                                        s,
                                                        p12,
                                                        ",\"favorited\":"@,
                                                    ) {
                                                        None => None,
                                                        Some(p13) => match sp_bool(s, p13) {
                                                            None => None,
                                                            Some((favorited, p14)) => match sp_lit(
                                                                s,
                                                                p14,
                                                                "}"@,
                                                            ) {
                                                                None => None,
                                                                Some(p15) => Some(
                                                                    (
                                                                        PlaylistTrackV {
                                                                            name,
                                                                            artist,
                                                                            album,
                                                                            year,
                                                                            time,
                                                                            played_count,
                                                                            favorited,
                                                                        },
                                                                        p15,
                                                                    ),
                                                                ),
                                                            },
                                                        },
                                                    },
                                                },
                                            },
                                        },
                                    },
                                },
                            },
                        },
                    },
                },
            },
        },
    }
}

/// A read playlist track ends after where it started, within the text.
pub proof fn lemma_sp_ptrack_advances(s: Seq<char>, pos: int)
    requires
        sp_ptrack(s, pos) is Some,
    ensures
        pos < sp_ptrack(s, pos)->Some_0.1 <= s.len(),
{
    let p1 = sp_lit(s, pos, "{\"name\":"@)->Some_0;
    reveal_strlit("{\"name\":");
    assert(pos < p1 <= s.len());
    lemma_sp_str_advances(s, p1);
    let p2 = sp_str(s, p1)->Some_0.1;
    lemma_sp_num_bounds(s);
    lemma_sp_str_advances(s, sp_lit(s, p2, ",\"artist\":"@)->Some_0);
    let p4 = sp_str(s, sp_lit(s, p2, ",\"artist\":"@)->Some_0)->Some_0.1;
    lemma_sp_str_advances(s, sp_lit(s, p4, ",\"album\":"@)->Some_0);
    let p6 = sp_str(s, sp_lit(s, p4, ",\"album\":"@)->Some_0)->Some_0.1;
    let p8 = sp_num32(s, sp_lit(s, p6, ",\"year\":"@)->Some_0)->Some_0.1;
    lemma_sp_str_advances(s, sp_lit(s, p8, ",\"time\":"@)->Some_0);
    let p10 = sp_str(s, sp_lit(s, p8, ",\"time\":"@)->Some_0)->Some_0.1;
    let p12 = sp_num32(s, sp_lit(s, p10, ",\"played_count\":"@)->Some_0)->Some_0.1;
    let p13 = sp_lit(s, p12, ",\"favorited\":"@)->Some_0;
    reveal_strlit("true");
    reveal_strlit("false");
    let p14 = sp_bool(s, p13)->Some_0.1;
    reveal_strlit("}");
}

/// Reads the rest of a playlist-track array: either the closing bracket,
/// or a comma and one more track, repeatedly.
pub open spec fn sp_ptracks_rest(s: Seq<char>, pos: int) -> Option<(Seq<PlaylistTrackV>, int)>
    decreases s.len() - pos,
    when 0 <= pos <= s.len()
    via sp_ptracks_rest_decreases
{
    if pos >= s.len() {
        None
    } else if s[pos] == ']' {
        Some((Seq::empty(), pos + 1))
    } else if s[pos] == ',' {
        match sp_ptrack(s, pos + 1) {
            None => None,
            Some((t, p)) => match sp_ptracks_rest(s, p) {
                None => None,
                Some((ts, q)) => Some((seq![t] + ts, q)),
            },
        }
    } else {
        None
    }
}

#[via_fn]
proof fn sp_ptracks_rest_decreases(s: Seq<char>, pos: int) {
    if 0 <= pos < s.len() && s[pos] != ']' && s[pos] == ',' {
        if sp_ptrack(s, pos + 1) is Some {
            lemma_sp_ptrack_advances(s, pos + 1);
        }
    }
}

/// Reads a whole playlist-track array after its opening bracket.
pub open spec fn sp_ptracks(s: Seq<char>, pos: int) -> Option<(Seq<PlaylistTrackV>, int)> {
    if 0 <= pos < s.len() && s[pos] == ']' {
        Some((Seq::empty(), pos + 1))
    } else {
        match sp_ptrack(s, pos) {
            None => None,
            Some((t, p)) => if p <= s.len() {
                match sp_ptracks_rest(s, p) {
                    None => None,
                    Some((ts, q)) => Some((seq![t] + ts, q)),
                }
            } else {
                None
            },
        }
    }
}

/// Reads one map entry of the side-cache: its key, then the playlist
/// object; the object's own name field, not the key, names the playlist.
pub open spec fn sp_pentry(s: Seq<char>, pos: int) -> Option<(PlaylistV, int)> {
    match sp_str(s, pos) {
        None => None,
        Some((_key, p1)) => match sp_lit(s, p1, ":{\"name\":"@) {
            None => None,
            Some(p2) => match sp_str(s, p2) {
                None => None,
                Some((name, p3)) => match sp_lit(s, p3, ",\"tracks\":["@) {
                    None => None,
                    Some(p4) => if 0 <= p4 <= s.len() {
                        match sp_ptracks(s, p4) {
                            None => None,
                            Some((tracks, p5)) => match sp_lit(s, p5, "}"@) {
                                None => None,
                                Some(p6) => Some((PlaylistV { name, tracks }, p6)),
                            },
                        }
                    } else {
                        None
                    },
                },
            },
        },
    }
}

/// A read map entry ends after where it started, within the text.
pub proof fn lemma_sp_pentry_advances(s: Seq<char>, pos: int)
    requires
        sp_pentry(s, pos) is Some,
    ensures
        pos < sp_pentry(s, pos)->Some_0.1 <= s.len(),
{
    lemma_sp_str_advances(s, pos);
    let p1 = sp_str(s, pos)->Some_0.1;
    reveal_strlit(":{\"name\":");
    lemma_sp_str_advances(s, sp_lit(s, p1, ":{\"name\":"@)->Some_0);
    let p3 = sp_str(s, sp_lit(s, p1, ":{\"name\":"@)->Some_0)->Some_0.1;
    reveal_strlit(",\"tracks\":[");
    let p4 = sp_lit(s, p3, ",\"tracks\":["@)->Some_0;
    lemma_sp_ptracks_bounds(s, p4);
    reveal_strlit("}");
}

/// A read playlist-track array ends within the text, after its start.
pub proof fn lemma_sp_ptracks_bounds(s: Seq<char>, pos: int)
    requires
        0 <= pos <= s.len(),
        sp_ptracks(s, pos) is Some,
    ensures
        pos < sp_ptracks(s, pos)->Some_0.1 <= s.len(),
{
    if !(0 <= pos < s.len() && s[pos] == ']') {
        lemma_sp_ptrack_advances(s, pos);
        let p = sp_ptrack(s, pos)->Some_0.1;
        lemma_sp_ptracks_rest_bounds(s, p);
    }
}

/// The rest of a read playlist-track array ends within the text.
pub proof fn lemma_sp_ptracks_rest_bounds(s: Seq<char>, pos: int)
    requires
        0 <= pos <= s.len(),
        sp_ptracks_rest(s, pos) is Some,
    ensures
        pos < sp_ptracks_rest(s, pos)->Some_0.1 <= s.len(),
    decreases s.len() - pos,
{
    if pos < s.len() && s[pos] != ']' && s[pos] == ',' {
        lemma_sp_ptrack_advances(s, pos + 1);
        let p = sp_ptrack(s, pos + 1)->Some_0.1;
        lemma_sp_ptracks_rest_bounds(s, p);
    }
}

/// Reads the rest of the side-cache map: either the closing brace, or a
/// comma and one more entry, repeatedly.
pub open spec fn sp_pentries_rest(s: Seq<char>, pos: int) -> Option<(Seq<PlaylistV>, int)>
    decreases s.len() - pos,
    when 0 <= pos <= s.len()
    via sp_pentries_rest_decreases
{
    if pos >= s.len() {
        None
    } else if s[pos] == '}' {
        Some((Seq::empty(), pos + 1))
    } else if s[pos] == ',' {
        match sp_pentry(s, pos + 1) {
            None => None,
            Some((p, q)) => if 0 <= q <= s.len() {
                match sp_pentries_rest(s, q) {
                    None => None,
                    Some((ps, q2)) => Some((seq![p] + ps, q2)),
                }
            } else {
                None
            },
        }
    } else {
        None
    }
}

#[via_fn]
proof fn sp_pentries_rest_decreases(s: Seq<char>, pos: int) {
    if 0 <= pos < s.len() && s[pos] != '}' && s[pos] == ',' {
        if sp_pentry(s, pos + 1) is Some {
            lemma_sp_pentry_advances(s, pos + 1);
        }
    }
}

/// Reads the whole side-cache map after its opening brace.
pub open spec fn sp_pentries(s: Seq<char>, pos: int) -> Option<(Seq<PlaylistV>, int)> {
    if 0 <= pos < s.len() && s[pos] == '}' {
        Some((Seq::empty(), pos + 1))
    } else {
        match sp_pentry(s, pos) {
            None => None,
            Some((p, q)) => if 0 <= q <= s.len() {
                match sp_pentries_rest(s, q) {
                    None => None,
                    Some((ps, q2)) => Some((seq![p] + ps, q2)),
                }
            } else {
                None
            },
        }
    }
}

/// Reads the whole side-cache; the text must end with it.
pub open spec fn sp_pcache(s: Seq<char>) -> Option<Seq<PlaylistV>> {
    match sp_lit(s, 0, "{\"playlists\":{"@) {
        None => None,
        Some(p1) => if 0 <= p1 <= s.len() {
            match sp_pentries(s, p1) {
                None => None,
                Some((ps, p2)) => match sp_lit(s, p2, "}"@) {
                    None => None,
                    Some(p3) => if p3 == s.len() {
                        Some(ps)
                    } else {
                        None
                    },
                },
            }
        } else {
            None
        },
    }
}


/// A playlist track's text begins with its opening brace.
#[verifier::spinoff_prover]
proof fn lemma_emit_ptrack_first(t: PlaylistTrackV)
    ensures
        emit_ptrack(t).len() > 0,
        emit_ptrack(t)[0] == '{',
{
    reveal_strlit("{\"name\":");
    assert(emit_ptrack(t)[0] == ("{\"name\":"@)[0]);
}

/// A map entry's text begins with the quote of its key.
#[verifier::spinoff_prover]
proof fn lemma_emit_pentry_first(p: PlaylistV)
    ensures
        emit_pentry(p).len() > 0,
        emit_pentry(p)[0] == '"',
{
    assert(emit_pentry(p)[0] == emit_str(p.name)[0]);
}

/// A written playlist track that stands at `pos` reads back exactly.
#[verifier::rlimit(100)]
#[verifier::spinoff_prover]
proof fn lemma_ptrack_round_trip(s: Seq<char>, pos: int, t: PlaylistTrackV)
    requires
        0 <= pos,
        pos + emit_ptrack(t).len() <= s.len(),
        s.subrange(pos, pos + emit_ptrack(t).len()) == emit_ptrack(t),
    ensures
        sp_ptrack(s, pos) == Some((t, pos + emit_ptrack(t).len())),
{
    reveal_strlit("{\"name\":");
    reveal_strlit(",\"artist\":");
    reveal_strlit(",\"album\":");
    reveal_strlit(",\"year\":");
    reveal_strlit(",\"time\":");
    reveal_strlit(",\"played_count\":");
    reveal_strlit(",\"favorited\":");
    reveal_strlit("}");
    let a1 = "{\"name\":"@;
    let b1 = emit_str(t.name);
    let a2 = ",\"artist\":"@;
    let b2 = emit_str(t.artist);
    let a3 = ",\"album\":"@;
    let b3 = emit_str(t.album);
    let a4 = ",\"year\":"@;
    let b4 = emit_num(t.year as u64);
    let a5 = ",\"time\":"@;
    let b5 = emit_str(t.time);
    let a6 = ",\"played_count\":"@;
    let b6 = emit_num(t.played_count as u64);
    let a7 = ",\"favorited\":"@;
    let b7 = emit_bool(t.favorited);
    let a8 = "}"@;
    // peel the pieces off the back, one by one
    let w14 = a1 + b1 + a2 + b2 + a3 + b3 + a4 + b4 + a5 + b5 + a6 + b6 + a7 + b7;
    lemma_subrange_split(s, pos, w14, a8);
    let w13 = a1 + b1 + a2 + b2 + a3 + b3 + a4 + b4 + a5 + b5 + a6 + b6 + a7;
    lemma_subrange_split(s, pos, w13, b7);
    let w12 = a1 + b1 + a2 + b2 + a3 + b3 + a4 + b4 + a5 + b5 + a6 + b6;
    lemma_subrange_split(s, pos, w12, a7);
    let w11 = a1 + b1 + a2 + b2 + a3 + b3 + a4 + b4 + a5 + b5 + a6;
    lemma_subrange_split(s, pos, w11, b6);
    let w10 = a1 + b1 + a2 + b2 + a3 + b3 + a4 + b4 + a5 + b5;
    lemma_subrange_split(s, pos, w10, a6);
    let w9 = a1 + b1 + a2 + b2 + a3 + b3 + a4 + b4 + a5;
    lemma_subrange_split(s, pos, w9, b5);
    let w8 = a1 + b1 + a2 + b2 + a3 + b3 + a4 + b4;
    lemma_subrange_split(s, pos, w8, a5);
    let w7 = a1 + b1 + a2 + b2 + a3 + b3 + a4;
    lemma_subrange_split(s, pos, w7, b4);
    let w6 = a1 + b1 + a2 + b2 + a3 + b3;
    lemma_subrange_split(s, pos, w6, a4);
    let w5 = a1 + b1 + a2 + b2 + a3;
    lemma_subrange_split(s, pos, w5, b3);
    let w4 = a1 + b1 + a2 + b2;
    lemma_subrange_split(s, pos, w4, a3);
    let w3 = a1 + b1 + a2;
    lemma_subrange_split(s, pos, w3, b2);
    let w2 = a1 + b1;
    lemma_subrange_split(s, pos, w2, a2);
    lemma_subrange_split(s, pos, a1, b1);
    // now walk the reader forward
    let p1 = pos + a1.len();
    lemma_lit_at(s, pos, a1);
    lemma_emit_str_at(s, p1, t.name);
    let p2 = p1 + b1.len();
    lemma_lit_at(s, p2, a2);
    let p3 = p2 + a2.len();
    lemma_emit_str_at(s, p3, t.artist);
    let p4 = p3 + b2.len();
    lemma_lit_at(s, p4, a3);
    let p5 = p4 + a3.len();
    lemma_emit_str_at(s, p5, t.album);
    let p6 = p5 + b3.len();
    lemma_lit_at(s, p6, a4);
    let p7 = p6 + a4.len();
    assert(s[p7 + b4.len()] == s.subrange(p7 + b4.len(), p7 + b4.len() + a5.len())[0]);
    lemma_num32_at(s, p7, t.year);
    let p8 = p7 + b4.len();
    lemma_lit_at(s, p8, a5);
    let p9 = p8 + a5.len();
    lemma_emit_str_at(s, p9, t.time);
    let p10 = p9 + b5.len();
    lemma_lit_at(s, p10, a6);
    let p11 = p10 + a6.len();
    assert(s[p11 + b6.len()] == s.subrange(p11 + b6.len(), p11 + b6.len() + a7.len())[0]);
    lemma_num32_at(s, p11, t.played_count);
    let p12 = p11 + b6.len();
    lemma_lit_at(s, p12, a7);
    let p13 = p12 + a7.len();
    lemma_bool_at(s, p13, t.favorited);
    let p14 = p13 + b7.len();
    lemma_lit_at(s, p14, a8);
}

/// A written row of later playlist tracks, closed by a bracket, reads
/// back exactly.
#[verifier::rlimit(100)]
#[verifier::spinoff_prover]
proof fn lemma_ptracks_rest_round_trip(s: Seq<char>, pos: int, ts: Seq<PlaylistTrackV>)
    requires
        0 <= pos,
        pos + emit_ptracks_rest(ts).len() + 1 <= s.len(),
        s.subrange(pos, pos + emit_ptracks_rest(ts).len()) == emit_ptracks_rest(ts),
        s[pos + emit_ptracks_rest(ts).len()] == ']',
    ensures
        sp_ptracks_rest(s, pos) == Some((ts, pos + emit_ptracks_rest(ts).len() + 1)),
    decreases ts.len(),
{
    if ts.len() == 0 {
        assert(emit_ptracks_rest(ts).len() == 0);
    } else {
        let e0 = emit_ptrack(ts[0]);
        let rest = emit_ptracks_rest(ts.drop_first());
        assert(emit_ptracks_rest(ts) == seq![','] + e0 + rest);
        lemma_subrange_split(s, pos, seq![','] + e0, rest);
        lemma_subrange_split(s, pos, seq![','], e0);
        assert(s[pos] == s.subrange(pos, pos + 1)[0]);
        assert(s[pos] == ',');
        lemma_ptrack_round_trip(s, pos + 1, ts[0]);
        lemma_ptracks_rest_round_trip(s, pos + 1 + e0.len(), ts.drop_first());
        assert(seq![ts[0]] + ts.drop_first() =~= ts);
    }
}

/// A written playlist-track array, closed by a bracket, reads back
/// exactly.
#[verifier::rlimit(100)]
#[verifier::spinoff_prover]
proof fn lemma_ptracks_round_trip(s: Seq<char>, pos: int, ts: Seq<PlaylistTrackV>)
    requires
        0 <= pos,
        pos + emit_ptracks(ts).len() + 1 <= s.len(),
        s.subrange(pos, pos + emit_ptracks(ts).len()) == emit_ptracks(ts),
        s[pos + emit_ptracks(ts).len()] == ']',
    ensures
        sp_ptracks(s, pos) == Some((ts, pos + emit_ptracks(ts).len() + 1)),
{
    if ts.len() == 0 {
    } else {
        let e0 = emit_ptrack(ts[0]);
        let rest = emit_ptracks_rest(ts.drop_first());
        assert(emit_ptracks(ts) == e0 + rest);
        lemma_subrange_split(s, pos, e0, rest);
        lemma_emit_ptrack_first(ts[0]);
        assert(s[pos] == s.subrange(pos, pos + e0.len())[0]);
        assert(s[pos] != ']');
        lemma_ptrack_round_trip(s, pos, ts[0]);
        lemma_sp_ptrack_advances(s, pos);
        lemma_ptracks_rest_round_trip(s, pos + e0.len(), ts.drop_first());
        assert(seq![ts[0]] + ts.drop_first() =~= ts);
    }
}

/// A written map entry that stands at `pos` reads back exactly.
#[verifier::rlimit(100)]
#[verifier::spinoff_prover]
proof fn lemma_pentry_round_trip(s: Seq<char>, pos: int, p: PlaylistV)
    requires
        0 <= pos,
        pos + emit_pentry(p).len() <= s.len(),
        s.subrange(pos, pos + emit_pentry(p).len()) == emit_pentry(p),
    ensures
        sp_pentry(s, pos) == Some((p, pos + emit_pentry(p).len())),
{
    reveal_strlit(":{\"name\":");
    reveal_strlit(",\"tracks\":[");
    reveal_strlit("]}");
    let b1 = emit_str(p.name);
    let a1 = ":{\"name\":"@;
    let b2 = emit_str(p.name);
    let a2 = ",\"tracks\":["@;
    let b3 = emit_ptracks(p.tracks);
    let a3 = "]}"@;
    let w5 = b1 + a1 + b2 + a2 + b3;
    lemma_subrange_split(s, pos, w5, a3);
    let w4 = b1 + a1 + b2 + a2;
    lemma_subrange_split(s, pos, w4, b3);
    let w3 = b1 + a1 + b2;
    lemma_subrange_split(s, pos, w3, a2);
    let w2 = b1 + a1;
    lemma_subrange_split(s, pos, w2, b2);
    lemma_subrange_split(s, pos, b1, a1);
    lemma_emit_str_at(s, pos, p.name);
    let p1 = pos + b1.len();
    lemma_lit_at(s, p1, a1);
    let p2 = p1 + a1.len();
    lemma_emit_str_at(s, p2, p.name);
    let p3 = p2 + b2.len();
    lemma_lit_at(s, p3, a2);
    let p4 = p3 + a2.len();
    assert(s[p4 + b3.len()] == s.subrange(p4 + b3.len(), p4 + b3.len() + a3.len())[0]);
    assert(s[p4 + b3.len()] == ']');
    lemma_ptracks_round_trip(s, p4, p.tracks);
    let p5 = p4 + b3.len() + 1;
    assert(s.subrange(p5, p5 + 1) =~= seq![s[p5]]);
    assert(s[p5] == s.subrange(p4 + b3.len(), p4 + b3.len() + a3.len())[1]);
    assert(s[p5] == '}');
    assert(s.subrange(p5, p5 + 1) =~= "}"@) by {
        reveal_strlit("}");
    }
    lemma_lit_at(s, p5, "}"@);
}

/// A written row of later map entries, closed by a brace, reads back
/// exactly.
#[verifier::rlimit(100)]
#[verifier::spinoff_prover]
proof fn lemma_pentries_rest_round_trip(s: Seq<char>, pos: int, ps: Seq<PlaylistV>)
    requires
        0 <= pos,
        pos + emit_pentries_rest(ps).len() + 1 <= s.len(),
        s.subrange(pos, pos + emit_pentries_rest(ps).len()) == emit_pentries_rest(ps),
        s[pos + emit_pentries_rest(ps).len()] == '}',
    ensures
        sp_pentries_rest(s, pos) == Some((ps, pos + emit_pentries_rest(ps).len() + 1)),
    decreases ps.len(),
{
    if ps.len() == 0 {
        assert(emit_pentries_rest(ps).len() == 0);
    } else {
        let e0 = emit_pentry(ps[0]);
        let rest = emit_pentries_rest(ps.drop_first());
        assert(emit_pentries_rest(ps) == seq![','] + e0 + rest);
        lemma_subrange_split(s, pos, seq![','] + e0, rest);
        lemma_subrange_split(s, pos, seq![','], e0);
        assert(s[pos] == s.subrange(pos, pos + 1)[0]);
        assert(s[pos] == ',');
        lemma_pentry_round_trip(s, pos + 1, ps[0]);
        lemma_sp_pentry_advances(s, pos + 1);
        lemma_pentries_rest_round_trip(s, pos + 1 + e0.len(), ps.drop_first());
        assert(seq![ps[0]] + ps.drop_first() =~= ps);
    }
}

/// A written side-cache map, closed by a brace, reads back exactly.
#[verifier::rlimit(100)]
#[verifier::spinoff_prover]
proof fn lemma_pentries_round_trip(s: Seq<char>, pos: int, ps: Seq<PlaylistV>)
    requires
        0 <= pos,
        pos + emit_pentries(ps).len() + 1 <= s.len(),
        s.subrange(pos, pos + emit_pentries(ps).len()) == emit_pentries(ps),
        s[pos + emit_pentries(ps).len()] == '}',
    ensures
        sp_pentries(s, pos) == Some((ps, pos + emit_pentries(ps).len() + 1)),
{
    if ps.len() == 0 {
    } else {
        let e0 = emit_pentry(ps[0]);
        let rest = emit_pentries_rest(ps.drop_first());
        assert(emit_pentries(ps) == e0 + rest);
        lemma_subrange_split(s, pos, e0, rest);
        lemma_emit_pentry_first(ps[0]);
        assert(s[pos] == s.subrange(pos, pos + e0.len())[0]);
        assert(s[pos] != '}');
        lemma_pentry_round_trip(s, pos, ps[0]);
        lemma_sp_pentry_advances(s, pos);
        lemma_pentries_rest_round_trip(s, pos + e0.len(), ps.drop_first());
        assert(seq![ps[0]] + ps.drop_first() =~= ps);
    }
}

/// The round trip of the side-cache: the text written for a run of
/// playlists reads back as exactly those playlists.
pub proof fn lemma_pcache_round_trip(ps: Seq<PlaylistV>)
    ensures
        sp_pcache(emit_pcache(ps)) == Some(ps),
{
    reveal_strlit("{\"playlists\":{");
    reveal_strlit("}}");
    let s = emit_pcache(ps);
    let c1 = "{\"playlists\":{"@;
    let n1 = emit_pentries(ps);
    let c2 = "}}"@;
    assert(s.subrange(0, s.len() as int) =~= s);
    let w2 = c1 + n1;
    lemma_subrange_split(s, 0, w2, c2);
    lemma_subrange_split(s, 0, c1, n1);
    lemma_lit_at(s, 0, c1);
    let p1 = c1.len() as int;
    assert(s[p1 + n1.len()] == s.subrange(p1 + n1.len(), p1 + n1.len() + c2.len())[0]);
    assert(s[p1 + n1.len()] == '}');
    lemma_pentries_round_trip(s, p1, ps);
    let p2 = p1 + n1.len() + 1;
    assert(s.subrange(p2, p2 + 1) =~= seq![s[p2]]);
    assert(s[p2] == s.subrange(p1 + n1.len(), p1 + n1.len() + c2.len())[1]);
    assert(s[p2] == '}');
    assert(s.subrange(p2, p2 + 1) =~= "}"@) by {
        reveal_strlit("}");
    }
    lemma_lit_at(s, p2, "}"@);
}


/// Appends one playlist track.
#[verifier::rlimit(100)]
#[verifier::spinoff_prover]
fn push_ptrack(out: &mut Vec<char>, t: &CachedPlaylistTrack)
    ensures
        final(out)@ == old(out)@ + emit_ptrack(t@),
{
    push_lit(out, "{\"name\":");
    push_str_value(out, t.name.as_str());
    push_lit(out, ",\"artist\":");
    push_str_value(out, t.artist.as_str());
    push_lit(out, ",\"album\":");
    push_str_value(out, t.album.as_str());
    push_lit(out, ",\"year\":");
    push_num(out, t.year as u64);
    push_lit(out, ",\"time\":");
    push_str_value(out, t.time.as_str());
    push_lit(out, ",\"played_count\":");
    push_num(out, t.played_count as u64);
    push_lit(out, ",\"favorited\":");
    push_bool(out, t.favorited);
    push_lit(out, "}");
    proof {
        assert(out@ =~= old(out)@ + emit_ptrack(t@));
    }
}

proof fn lemma_emit_ptracks_rest_snoc(ts: Seq<PlaylistTrackV>, t: PlaylistTrackV)
    ensures
        emit_ptracks_rest(ts.push(t)) == emit_ptracks_rest(ts) + seq![','] + emit_ptrack(t),
    decreases ts.len(),
{
    if ts.len() == 0 {
        assert(ts.push(t)[0] == t);
        assert(ts.push(t).drop_first() =~= Seq::<PlaylistTrackV>::empty());
        assert(emit_ptracks_rest(Seq::<PlaylistTrackV>::empty()) =~= Seq::<char>::empty());
        assert(emit_ptracks_rest(ts.push(t)) =~= emit_ptracks_rest(ts) + seq![','] + emit_ptrack(
            t,
        ));
    } else {
        lemma_emit_ptracks_rest_snoc(ts.drop_first(), t);
        assert(ts.push(t)[0] == ts[0]);
        assert(ts.push(t).drop_first() =~= ts.drop_first().push(t));
        assert(emit_ptracks_rest(ts.push(t)) =~= emit_ptracks_rest(ts) + seq![','] + emit_ptrack(
            t,
        ));
    }
}

/// One more track extends the array text by a comma and the track.
proof fn lemma_emit_ptracks_snoc(ts: Seq<PlaylistTrackV>, t: PlaylistTrackV)
    ensures
        ts.len() == 0 ==> emit_ptracks(ts.push(t)) == emit_ptrack(t),
        ts.len() > 0 ==> emit_ptracks(ts.push(t)) == emit_ptracks(ts) + seq![','] + emit_ptrack(t),
{
    if ts.len() == 0 {
        assert(ts.push(t)[0] == t);
        assert(ts.push(t).drop_first() =~= Seq::<PlaylistTrackV>::empty());
        assert(emit_ptracks_rest(Seq::<PlaylistTrackV>::empty()) =~= Seq::<char>::empty());
        assert(emit_ptracks(ts.push(t)) =~= emit_ptrack(t));
    } else {
        lemma_emit_ptracks_rest_snoc(ts.drop_first(), t);
        assert(ts.push(t)[0] == ts[0]);
        assert(ts.push(t).drop_first() =~= ts.drop_first().push(t));
        assert(emit_ptracks(ts.push(t)) =~= emit_ptracks(ts) + seq![','] + emit_ptrack(t));
    }
}

/// Appends one map entry of the side-cache.
#[verifier::rlimit(100)]
#[verifier::spinoff_prover]
fn push_pentry(out: &mut Vec<char>, p: &CachedPlaylist)
    ensures
        final(out)@ == old(out)@ + emit_pentry(p@),
{
    push_str_value(out, p.name.as_str());
    push_lit(out, ":{\"name\":");
    push_str_value(out, p.name.as_str());
    push_lit(out, ",\"tracks\":[");
    let ghost base = out@;
    let mut i: usize = 0;
    while i < p.tracks.len()
        invariant
            0 <= i <= p.tracks@.len(),
            out@ == base + emit_ptracks(p.tracks.deep_view().take(i as int)),
        decreases p.tracks@.len() - i,
    {
        proof {
            lemma_emit_ptracks_snoc(
                p.tracks.deep_view().take(i as int),
                p.tracks.deep_view()[i as int],
            );
            assert(p.tracks.deep_view().take(i as int).push(p.tracks.deep_view()[i as int])
                =~= p.tracks.deep_view().take(i as int + 1));
        }
        if i > 0 {
            push_lit(out, ",");
            proof {
                reveal_strlit(",");
                assert(","@ =~= seq![',']);
            }
        }
        push_ptrack(out, &p.tracks[i]);
        proof {
            assert(out@ =~= base + emit_ptracks(p.tracks.deep_view().take(i as int + 1)));
        }
        i += 1;
    }
    push_lit(out, "]}");
    proof {
        assert(p.tracks.deep_view().take(i as int) =~= p.tracks.deep_view());
        assert(out@ =~= old(out)@ + emit_pentry(p@));
    }
}

proof fn lemma_emit_pentries_rest_snoc(ps: Seq<PlaylistV>, p: PlaylistV)
    ensures
        emit_pentries_rest(ps.push(p)) == emit_pentries_rest(ps) + seq![','] + emit_pentry(p),
    decreases ps.len(),
{
    if ps.len() == 0 {
        assert(ps.push(p)[0] == p);
        assert(ps.push(p).drop_first() =~= Seq::<PlaylistV>::empty());
        assert(emit_pentries_rest(Seq::<PlaylistV>::empty()) =~= Seq::<char>::empty());
        assert(emit_pentries_rest(ps.push(p)) =~= emit_pentries_rest(ps) + seq![','] + emit_pentry(
            p,
        ));
    } else {
        lemma_emit_pentries_rest_snoc(ps.drop_first(), p);
        assert(ps.push(p)[0] == ps[0]);
        assert(ps.push(p).drop_first() =~= ps.drop_first().push(p));
        assert(emit_pentries_rest(ps.push(p)) =~= emit_pentries_rest(ps) + seq![','] + emit_pentry(
            p,
        ));
    }
}

/// One more entry extends the map text by a comma and the entry.
proof fn lemma_emit_pentries_snoc(ps: Seq<PlaylistV>, p: PlaylistV)
    ensures
        ps.len() == 0 ==> emit_pentries(ps.push(p)) == emit_pentry(p),
        ps.len() > 0 ==> emit_pentries(ps.push(p)) == emit_pentries(ps) + seq![','] + emit_pentry(
            p,
        ),
{
    if ps.len() == 0 {
        assert(ps.push(p)[0] == p);
        assert(ps.push(p).drop_first() =~= Seq::<PlaylistV>::empty());
        assert(emit_pentries_rest(Seq::<PlaylistV>::empty()) =~= Seq::<char>::empty());
        assert(emit_pentries(ps.push(p)) =~= emit_pentry(p));
    } else {
        lemma_emit_pentries_rest_snoc(ps.drop_first(), p);
        assert(ps.push(p)[0] == ps[0]);
        assert(ps.push(p).drop_first() =~= ps.drop_first().push(p));
        assert(emit_pentries(ps.push(p)) =~= emit_pentries(ps) + seq![','] + emit_pentry(p));
    }
}

/// Reads one playlist track.
fn p_ptrack(s: &[char], pos: usize) -> (r: Option<(CachedPlaylistTrack, usize)>)
    ensures
        r matches Some(vp) ==> sp_ptrack(s@, pos as int) == Some((vp.0@, vp.1 as int)) && vp.1
            <= s@.len(),
        r is None ==> sp_ptrack(s@, pos as int) is None,
{
    let p1 = match p_lit(s, pos, "{\"name\":") {
        Some(p) => p,
        None => {
            return None;
        },
    };
    let (name, p2) = match p_str(s, p1) {
        Some(vp) => vp,
        None => {
            return None;
        },
    };
    let p3 = match p_lit(s, p2, ",\"artist\":") {
        Some(p) => p,
        None => {
            return None;
        },
    };
    let (artist, p4) = match p_str(s, p3) {
        Some(vp) => vp,
        None => {
            return None;
        },
    };
    let p5 = match p_lit(s, p4, ",\"album\":") {
        Some(p) => p,
        None => {
            return None;
        },
    };
    let (album, p6) = match p_str(s, p5) {
        Some(vp) => vp,
        None => {
            return None;
        },
    };
    let p7 = match p_lit(s, p6, ",\"year\":") {
        Some(p) => p,
        None => {
            return None;
        },
    };
    let (year, p8) = match p_num32(s, p7) {
        Some(vp) => vp,
        None => {
            return None;
        },
    };
    let p9 = match p_lit(s, p8, ",\"time\":") {
        Some(p) => p,
        None => {
            return None;
        },
    };
    let (time, p10) = match p_str(s, p9) {
        Some(vp) => vp,
        None => {
            return None;
        },
    };
    let p11 = match p_lit(s, p10, ",\"played_count\":") {
        Some(p) => p,
        None => {
            return None;
        },
    };
    let (played_count, p12) = match p_num32(s, p11) {
        Some(vp) => vp,
        None => {
            return None;
        },
    };
    let p13 = match p_lit(s, p12, ",\"favorited\":") {
        Some(p) => p,
        None => {
            return None;
        },
    };
    let (favorited, p14) = match p_bool(s, p13) {
        Some(vp) => vp,
        None => {
            return None;
        },
    };
    let p15 = match p_lit(s, p14, "}") {
        Some(p) => p,
        None => {
            return None;
        },
    };
    let t = CachedPlaylistTrack {
        name: string_of(name.as_slice()),
        artist: string_of(artist.as_slice()),
        album: string_of(album.as_slice()),
        year,
        time: string_of(time.as_slice()),
        played_count,
        favorited,
    };
    Some((t, p15))
}

/// Reads a whole playlist-track array after its opening bracket.
#[verifier::rlimit(100)]
#[verifier::spinoff_prover]
fn p_ptracks(s: &[char], pos: usize) -> (r: Option<(Vec<CachedPlaylistTrack>, usize)>)
    requires
        pos <= s@.len(),
    ensures
        r matches Some(vp) ==> sp_ptracks(s@, pos as int) == Some(
            (vp.0.deep_view(), vp.1 as int),
        ) && vp.1 <= s@.len(),
        r is None ==> sp_ptracks(s@, pos as int) is None,
{
    let n = s.len();
    if pos < n && s[pos] == ']' {
        let empty: Vec<CachedPlaylistTrack> = Vec::new();
        proof {
            assert(empty.deep_view() =~= Seq::<PlaylistTrackV>::empty());
        }
        return Some((empty, pos + 1));
    }
    let (first, mut cur) = match p_ptrack(s, pos) {
        Some(vp) => vp,
        None => {
            return None;
        },
    };
    let mut acc: Vec<CachedPlaylistTrack> = Vec::new();
    acc.push(first);
    proof {
        assert(acc.deep_view() =~= seq![sp_ptrack(s@, pos as int)->Some_0.0]);
    }
    loop
        invariant
            cur <= s@.len(),
            n == s@.len(),
            sp_ptracks(s@, pos as int) == (match sp_ptracks_rest(s@, cur as int) {
                Some(tp) => Some::<(Seq<PlaylistTrackV>, int)>((acc.deep_view() + tp.0, tp.1)),
                None => None::<(Seq<PlaylistTrackV>, int)>,
            }),
        decreases s@.len() - cur,
    {
        if cur >= n {
            return None;
        }
        if s[cur] == ']' {
            proof {
                assert(acc.deep_view() + Seq::<PlaylistTrackV>::empty() =~= acc.deep_view());
            }
            return Some((acc, cur + 1));
        }
        if s[cur] != ',' {
            return None;
        }
        let (t, p) = match p_ptrack(s, cur + 1) {
            Some(vp) => vp,
            None => {
                return None;
            },
        };
        proof {
            lemma_sp_ptrack_advances(s@, cur as int + 1);
        }
        let ghost prev = acc.deep_view();
        let ghost tview = t@;
        acc.push(t);
        cur = p;
        proof {
            assert(acc.deep_view() =~= prev.push(tview));
            assert forall|tp: (Seq<PlaylistTrackV>, int)|
                sp_ptracks_rest(s@, cur as int) == Some::<(Seq<PlaylistTrackV>, int)>(tp) implies
                acc.deep_view() + tp.0 =~= prev + (seq![tview] + tp.0) by {}
        }
    }
}

/// Reads one map entry of the side-cache.
fn p_pentry(s: &[char], pos: usize) -> (r: Option<(CachedPlaylist, usize)>)
    ensures
        r matches Some(vp) ==> sp_pentry(s@, pos as int) == Some((vp.0@, vp.1 as int)) && vp.1
            <= s@.len(),
        r is None ==> sp_pentry(s@, pos as int) is None,
{
    let (_key, p1) = match p_str(s, pos) {
        Some(vp) => vp,
        None => {
            return None;
        },
    };
    let p2 = match p_lit(s, p1, ":{\"name\":") {
        Some(p) => p,
        None => {
            return None;
        },
    };
    let (name, p3) = match p_str(s, p2) {
        Some(vp) => vp,
        None => {
            return None;
        },
    };
    let p4 = match p_lit(s, p3, ",\"tracks\":[") {
        Some(p) => p,
        None => {
            return None;
        },
    };
    let (tracks, p5) = match p_ptracks(s, p4) {
        Some(vp) => vp,
        None => {
            return None;
        },
    };
    let p6 = match p_lit(s, p5, "}") {
        Some(p) => p,
        None => {
            return None;
        },
    };
    Some((CachedPlaylist { name: string_of(name.as_slice()), tracks }, p6))
}

/// The whole side-cache as its canonical JSON text.
pub fn pcache_to_json(playlists: &Vec<CachedPlaylist>) -> (r: String)
    ensures
        r@ == emit_pcache(playlists.deep_view()),
{
    let mut out: Vec<char> = Vec::new();
    push_lit(&mut out, "{\"playlists\":{");
    let ghost base = out@;
    let mut i: usize = 0;
    while i < playlists.len()
        invariant
            0 <= i <= playlists@.len(),
            out@ == base + emit_pentries(playlists.deep_view().take(i as int)),
        decreases playlists@.len() - i,
    {
        proof {
            lemma_emit_pentries_snoc(
                playlists.deep_view().take(i as int),
                playlists.deep_view()[i as int],
            );
            assert(playlists.deep_view().take(i as int).push(playlists.deep_view()[i as int])
                =~= playlists.deep_view().take(i as int + 1));
        }
        if i > 0 {
            push_lit(&mut out, ",");
            proof {
                reveal_strlit(",");
                assert(","@ =~= seq![',']);
            }
        }
        push_pentry(&mut out, &playlists[i]);
        proof {
            assert(out@ =~= base + emit_pentries(playlists.deep_view().take(i as int + 1)));
        }
        i += 1;
    }
    push_lit(&mut out, "}}");
    proof {
        assert(playlists.deep_view().take(i as int) =~= playlists.deep_view());
        assert(out@ =~= emit_pcache(playlists.deep_view()));
    }
    string_of(out.as_slice())
}

/// Reads a side-cache back from its JSON text: the playlists in file
/// order, or nothing where the text is not a snapshot this library would
/// write.
#[verifier::rlimit(100)]
#[verifier::spinoff_prover]
pub fn pcache_from_json(s: &str) -> (r: Option<Vec<CachedPlaylist>>)
    ensures
        r matches Some(ps) ==> sp_pcache(s@) == Some(ps.deep_view()),
        r is None ==> sp_pcache(s@) is None,
{
    let cs = chars_of(s);
    let sv = cs.as_slice();
    let p1 = match p_lit(sv, 0, "{\"playlists\":{") {
        Some(p) => p,
        None => {
            return None;
        },
    };
    let n = cs.len();
    let mut acc: Vec<CachedPlaylist> = Vec::new();
    let mut cur: usize = p1;
    if cur < n && sv[cur] == '}' {
        let p2 = match p_lit(sv, cur + 1, "}") {
            Some(p) => p,
            None => {
                return None;
            },
        };
        if p2 != n {
            return None;
        }
        proof {
            assert(acc.deep_view() =~= Seq::<PlaylistV>::empty());
        }
        return Some(acc);
    }
    let (first, p) = match p_pentry(sv, cur) {
        Some(vp) => vp,
        None => {
            return None;
        },
    };
    acc.push(first);
    cur = p;
    proof {
        assert(acc.deep_view() =~= seq![sp_pentry(sv@, p1 as int)->Some_0.0]);
    }
    loop
        invariant
            cur <= sv@.len(),
            n == sv@.len(),
            sv@ == s@,
            sp_lit(s@, 0, "{\"playlists\":{"@) == Some(p1 as int),
            sp_pentries(s@, p1 as int) == (match sp_pentries_rest(s@, cur as int) {
                Some(tp) => Some::<(Seq<PlaylistV>, int)>((acc.deep_view() + tp.0, tp.1)),
                None => None::<(Seq<PlaylistV>, int)>,
            }),
        decreases s@.len() - cur,
    {
        if cur >= n {
            return None;
        }
        if sv[cur] == '}' {
            proof {
                assert(acc.deep_view() + Seq::<PlaylistV>::empty() =~= acc.deep_view());
            }
            let p2 = match p_lit(sv, cur + 1, "}") {
                Some(p) => p,
                None => {
                    return None;
                },
            };
            if p2 != n {
                return None;
            }
            return Some(acc);
        }
        if sv[cur] != ',' {
            return None;
        }
        let (e, p) = match p_pentry(sv, cur + 1) {
            Some(vp) => vp,
            None => {
                return None;
            },
        };
        proof {
            lemma_sp_pentry_advances(s@, cur as int + 1);
        }
        let ghost prev = acc.deep_view();
        let ghost eview = e@;
        acc.push(e);
        cur = p;
        proof {
            assert(acc.deep_view() =~= prev.push(eview));
            assert forall|tp: (Seq<PlaylistV>, int)|
                sp_pentries_rest(s@, cur as int) == Some::<(Seq<PlaylistV>, int)>(tp) implies
                acc.deep_view() + tp.0 =~= prev + (seq![eview] + tp.0) by {}
        }
    }
}

/// Whether a side-cache is the empty default.
pub open spec fn is_empty_pcache(r: PlaylistCache) -> bool {
    r.view_playlists().len() == 0
}

impl PlaylistCache {
    /// The whole side-cache as its canonical JSON text.
    pub fn to_json(&self) -> (r: String)
        ensures
            r@ == emit_pcache(self.view_playlists()),
    {
        pcache_to_json(&self.playlists)
    }

    /// The side-cache a file's text stands for. A missing, unreadable or
    /// corrupt file yields the empty store; a good snapshot yields its
    /// playlists, put in one by one in file order, so a later entry with
    /// a repeated name overwrites an earlier one and the store stays
    /// keyed.
    pub fn from_file_text(content: Option<&str>) -> (r: PlaylistCache)
        ensures
            r.wf(),
            content is None ==> is_empty_pcache(r),
            content matches Some(s) ==> match sp_pcache(s@) {
                Some(ps) => r.view_playlists() == crate::playlist::insert_all(
                    Seq::empty(),
                    ps,
                ),
                None => is_empty_pcache(r),
            },
    {
        let s = match content {
            None => {
                return PlaylistCache::default();
            },
            Some(s) => s,
        };
        let parsed = match pcache_from_json(s) {
            Some(ps) => ps,
            None => {
                return PlaylistCache::default();
            },
        };
        let ghost psv = parsed.deep_view();
        let mut r = PlaylistCache::default();
        let mut i: usize = 0;
        proof {
            assert(psv.skip(0) =~= psv);
            assert(r.view_playlists() =~= Seq::<PlaylistV>::empty());
            assert(crate::playlist::insert_all(r.view_playlists(), psv.skip(0))
                == crate::playlist::insert_all(Seq::empty(), psv));
        }
        while i < parsed.len()
            invariant
                0 <= i <= psv.len(),
                psv == parsed.deep_view(),
                r.wf(),
                crate::playlist::insert_all(r.view_playlists(), psv.skip(i as int))
                    == crate::playlist::insert_all(Seq::empty(), psv),
            decreases psv.len() - i,
        {
            proof {
                assert(psv.skip(i as int)[0] == psv[i as int]);
                assert(psv.skip(i as int).drop_first() =~= psv.skip(i as int + 1));
            }
            let p = parsed[i].clone();
            r.insert(p);
            i += 1;
        }
        proof {
            assert(psv.skip(i as int) =~= Seq::<PlaylistV>::empty());
        }
        r
    }
}

} // verus!
