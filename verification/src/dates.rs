//! Turning the source's opaque, locale-formatted date strings
//! ("Weekday, Month D, YYYY at H:MM:SS") into zero-padded sortable keys
//! ("YYYY-MM-DD HH:MM:SS"). An empty or unrecognizable string keeps its
//! own text as the key, so it sorts before every well-formed date — a
//! known quirk that is preserved, not corrected.

use vstd::prelude::*;
use crate::text::{
    chars_of,
    dec_u64,
    eq_chars,
    parse_u32,
    spec_dec,
    spec_parse_u32,
    spec_tokens,
    split_spaces,
    sub_chars,
};

verus! {

// ---------------------------------------------------------------------------
// Splitting on a multi-character separator
// ---------------------------------------------------------------------------

/// The position of the first occurrence of `d` in `s`, if any.
pub open spec fn find_sep(s: Seq<char>, d: Seq<char>) -> Option<int>
    decreases s.len(),
{
    if d.len() == 0 || s.len() < d.len() {
        None
    } else if s.subrange(0, d.len() as int) == d {
        Some(0)
    } else {
        match find_sep(s.drop_first(), d) {
            Some(i) => Some(i + 1),
            None => None,
        }
    }
}

/// `find_sep` returns exactly the first match position.
pub proof fn lemma_find_sep(s: Seq<char>, d: Seq<char>)
    requires
        d.len() > 0,
    ensures
        match find_sep(s, d) {
            Some(i) => 0 <= i && i + d.len() <= s.len() && s.subrange(i, i + d.len() as int) == d
                && forall|m: int|
                0 <= m < i ==> #[trigger] s.subrange(m, m + d.len() as int) != d,
            None => forall|m: int|
                0 <= m && m + d.len() <= s.len() ==> #[trigger] s.subrange(m, m + d.len() as int)
                    != d,
        },
    decreases s.len(),
{
    if s.len() >= d.len() && s.subrange(0, d.len() as int) != d {
        lemma_find_sep(s.drop_first(), d);
        assert forall|m: int| 1 <= m && m + d.len() <= s.len() implies #[trigger] s.subrange(
            m,
            m + d.len() as int,
        ) == s.drop_first().subrange(m - 1, m - 1 + d.len() as int) by {
            assert(s.subrange(m, m + d.len() as int) =~= s.drop_first().subrange(
                m - 1,
                m - 1 + d.len() as int,
            ));
        }
    }
}

/// The pieces of `s` between the occurrences of the separator `d`, in
/// order; splitting the empty text yields one empty piece.
pub open spec fn split_by(s: Seq<char>, d: Seq<char>) -> Seq<Seq<char>>
    decreases s.len(),
    via split_by_decreases
{
    match find_sep(s, d) {
        None => seq![s],
        Some(i) => seq![s.subrange(0, i)] + split_by(s.skip(i + d.len()), d),
    }
}

#[via_fn]
proof fn split_by_decreases(s: Seq<char>, d: Seq<char>) {
    if d.len() > 0 {
        lemma_find_sep(s, d);
    } else {
        assert(find_sep(s, d) is None);
    }
}

/// The position of the first occurrence of `d` in `s`, if any.
fn find_sep_at(s: &[char], d: &[char]) -> (r: Option<usize>)
    requires
        d@.len() > 0,
    ensures
        r matches Some(i) ==> find_sep(s@, d@) == Some(i as int),
        r is None ==> find_sep(s@, d@) is None,
{
    proof {
        lemma_find_sep(s@, d@);
    }
    let n = s.len();
    if d.len() > n {
        return None;
    }
    let bound = n - d.len();
    let mut i: usize = 0;
    loop
        invariant
            d@.len() > 0,
            d@.len() <= s@.len(),
            n == s@.len(),
            bound == s@.len() - d@.len(),
            0 <= i <= bound,
            forall|m: int| 0 <= m < i ==> #[trigger] s@.subrange(m, m + d@.len() as int) != d@,
        ensures
            forall|m: int|
                0 <= m && m + d@.len() <= s@.len() ==> #[trigger] s@.subrange(
                    m,
                    m + d@.len() as int,
                ) != d@,
        decreases bound - i,
    {
        let piece = sub_chars(s, i, i + d.len());
        if eq_chars(piece.as_slice(), d) {
            proof {
                lemma_find_sep(s@, d@);
            }
            return Some(i);
        }
        if i == bound {
            break;
        }
        i += 1;
    }
    None
}

/// Splits `s` on every occurrence of the separator `d`.
pub fn split_by_chars(s: &[char], d: &[char]) -> (r: Vec<Vec<char>>)
    requires
        d@.len() > 0,
    ensures
        r.deep_view() == split_by(s@, d@),
    decreases s@.len(),
{
    match find_sep_at(s, d) {
        None => {
            let mut r: Vec<Vec<char>> = Vec::new();
            r.push(sub_chars(s, 0, s.len()));
            proof {
                assert(s@.subrange(0, s@.len() as int) =~= s@);
                assert(r.deep_view() =~~= seq![s@]);
            }
            r
        }
        Some(i) => {
            proof {
                lemma_find_sep(s@, d@);
            }
            let n = s.len();
            let head = sub_chars(s, 0, i);
            let rest = sub_chars(s, i + d.len(), n);
            proof {
                assert(rest@ =~= s@.skip(i + d@.len()));
            }
            let mut r: Vec<Vec<char>> = Vec::new();
            r.push(head);
            let mut tail = split_by_chars(rest.as_slice(), d);
            let ghost tail_view = tail.deep_view();
            r.append(&mut tail);
            proof {
                assert(r.deep_view() =~~= seq![s@.subrange(0, i as int)] + tail_view);
            }
            r
        }
    }
}

// ---------------------------------------------------------------------------
// Month names and numbers
// ---------------------------------------------------------------------------

/// The month number for an English month name; any other text counts as
/// January, which the source format never produces.
pub open spec fn month_of(name: Seq<char>) -> u32 {
    if name == "January"@ {
        1u32
    } else if name == "February"@ {
        2u32
    } else if name == "March"@ {
        3u32
    } else if name == "April"@ {
        4u32
    } else if name == "May"@ {
        5u32
    } else if name == "June"@ {
        6u32
    } else if name == "July"@ {
        7u32
    } else if name == "August"@ {
        8u32
    } else if name == "September"@ {
        9u32
    } else if name == "October"@ {
        10u32
    } else if name == "November"@ {
        11u32
    } else if name == "December"@ {
        12u32
    } else {
        1u32
    }
}

/// The month number for an English month name.
fn month_number(name: &[char]) -> (r: u32)
    ensures
        r == month_of(name@),
{
    let mut nc = chars_of("January");
    if eq_chars(name, nc.as_slice()) {
        return 1;
    }
    nc = chars_of("February");
    if eq_chars(name, nc.as_slice()) {
        return 2;
    }
    nc = chars_of("March");
    if eq_chars(name, nc.as_slice()) {
        return 3;
    }
    nc = chars_of("April");
    if eq_chars(name, nc.as_slice()) {
        return 4;
    }
    nc = chars_of("May");
    if eq_chars(name, nc.as_slice()) {
        return 5;
    }
    nc = chars_of("June");
    if eq_chars(name, nc.as_slice()) {
        return 6;
    }
    nc = chars_of("July");
    if eq_chars(name, nc.as_slice()) {
        return 7;
    }
    nc = chars_of("August");
    if eq_chars(name, nc.as_slice()) {
        return 8;
    }
    nc = chars_of("September");
    if eq_chars(name, nc.as_slice()) {
        return 9;
    }
    nc = chars_of("October");
    if eq_chars(name, nc.as_slice()) {
        return 10;
    }
    nc = chars_of("November");
    if eq_chars(name, nc.as_slice()) {
        return 11;
    }
    nc = chars_of("December");
    if eq_chars(name, nc.as_slice()) {
        return 12;
    }
    1
}

// ---------------------------------------------------------------------------
// The sortable key
// ---------------------------------------------------------------------------

/// A numeral padded with leading zeros to at least `w` characters.
pub open spec fn zero_pad(s: Seq<char>, w: nat) -> Seq<char> {
    if s.len() >= w {
        s
    } else {
        Seq::new((w - s.len()) as nat, |i: int| '0') + s
    }
}

/// The decimal numeral for `n`, zero-padded to at least `w` characters.
pub fn pad_num(n: u32, w: usize) -> (r: Vec<char>)
    ensures
        r@ == zero_pad(spec_dec(n as nat), w as nat),
{
    let d = dec_u64(n as u64);
    if d.len() >= w {
        return d;
    }
    let mut r: Vec<char> = Vec::new();
    let mut k: usize = 0;
    let pad = w - d.len();
    while k < pad
        invariant
            0 <= k <= pad,
            r@ =~= Seq::new(k as nat, |i: int| '0'),
        decreases pad - k,
    {
        r.push('0');
        k += 1;
    }
    let mut dm = d;
    r.append(&mut dm);
    proof {
        assert(r@ =~= zero_pad(spec_dec(n as nat), w as nat));
    }
    r
}

/// The number a text parses to, or `d` where it does not parse.
pub open spec fn parse_or(s: Seq<char>, d: u32) -> u32 {
    match spec_parse_u32(s) {
        Some(v) => v,
        None => d,
    }
}

/// The separator between the weekday, the month-and-day and the
/// year-and-time pieces of a source date.
pub open spec fn comma_sep() -> Seq<char> {
    seq![',', ' ']
}

/// The separator between the year and the time of day.
pub open spec fn at_sep() -> Seq<char> {
    seq![' ', 'a', 't', ' ']
}

/// The time of day assumed when a date carries none.
pub open spec fn default_time() -> Seq<char> {
    seq!['0', '0', ':', '0', '0', ':', '0', '0']
}

/// A time of day with its hour zero-padded to two digits: a single-digit
/// hour ("3:44:42") gains a leading zero; any other text stands as it is.
pub open spec fn pad_hour(t: Seq<char>) -> Seq<char> {
    if t.len() >= 2 && t[1] == ':' {
        seq!['0'] + t
    } else {
        t
    }
}

/// The sortable key of a source-formatted date string: the empty text for
/// an empty date, the text itself when it has no comma-separated pieces,
/// and otherwise "YYYY-MM-DD " followed by the zero-padded time of day,
/// with missing or unreadable pieces replaced by January 1, 1970,
/// midnight.
pub open spec fn sortable_date(ds: Seq<char>) -> Seq<char> {
    if ds.len() == 0 {
        Seq::empty()
    } else {
        let parts = split_by(ds, comma_sep());
        if parts.len() < 2 {
            ds
        } else {
            let month_day = parts[1];
            let year_time = if parts.len() >= 3 {
                parts[2]
            } else {
                Seq::empty()
            };
            let md = spec_tokens(month_day);
            let month_name = if md.len() >= 1 {
                md[0]
            } else {
                Seq::empty()
            };
            let day = if md.len() >= 2 {
                parse_or(md[1], 1)
            } else {
                1u32
            };
            let yt = split_by(year_time, at_sep());
            let year = if yt.len() >= 1 {
                parse_or(yt[0], 1970)
            } else {
                1970u32
            };
            let time = if yt.len() >= 2 {
                pad_hour(yt[1])
            } else {
                default_time()
            };
            zero_pad(spec_dec(year as nat), 4) + seq!['-'] + zero_pad(
                spec_dec(month_of(month_name) as nat),
                2,
            ) + seq!['-'] + zero_pad(spec_dec(day as nat), 2) + seq![' '] + time
        }
    }
}

/// Computes the sortable key of a source-formatted date string.
#[verifier::rlimit(100)]
#[verifier::spinoff_prover]
pub fn sortable_date_key(ds: &[char]) -> (r: Vec<char>)
    ensures
        r@ == sortable_date(ds@),
{
    if ds.len() == 0 {
        let r: Vec<char> = Vec::new();
        proof {
            assert(r@ =~= sortable_date(ds@));
        }
        return r;
    }
    let mut comma: Vec<char> = Vec::new();
    comma.push(',');
    comma.push(' ');
    proof {
        assert(comma@ =~= comma_sep());
    }
    let parts = split_by_chars(ds, comma.as_slice());
    let ghost partsv = split_by(ds@, comma_sep());
    if parts.len() < 2 {
        return sub_chars(ds, 0, ds.len());
    }
    proof {
        assert(parts@[1].deep_view() == partsv[1]);
        assert(parts@[1].deep_view() =~= parts@[1]@);
    }
    let month_day = &parts[1];
    let empty: Vec<char> = Vec::new();
    let year_time: &Vec<char> = if parts.len() >= 3 {
        proof {
            assert(parts@[2].deep_view() == partsv[2]);
            assert(parts@[2].deep_view() =~= parts@[2]@);
        }
        &parts[2]
    } else {
        &empty
    };
    let md = split_spaces(month_day);
    let ghost mdv = spec_tokens(month_day@);
    let one: u32 = 1;
    let day: u32 = if md.len() >= 2 {
        proof {
            assert(md@[1].deep_view() == mdv[1]);
            assert(md@[1].deep_view() =~= md@[1]@);
        }
        match parse_u32(md[1].as_slice()) {
            Some(v) => v,
            None => one,
        }
    } else {
        one
    };
    let month: u32 = if md.len() >= 1 {
        proof {
            assert(md@[0].deep_view() == mdv[0]);
            assert(md@[0].deep_view() =~= md@[0]@);
        }
        month_number(md[0].as_slice())
    } else {
        proof {
            assert(Seq::<char>::empty() != "January"@ && Seq::<char>::empty() != "February"@
                && Seq::<char>::empty() != "March"@ && Seq::<char>::empty() != "April"@
                && Seq::<char>::empty() != "May"@ && Seq::<char>::empty() != "June"@
                && Seq::<char>::empty() != "July"@ && Seq::<char>::empty() != "August"@
                && Seq::<char>::empty() != "September"@ && Seq::<char>::empty() != "October"@
                && Seq::<char>::empty() != "November"@ && Seq::<char>::empty() != "December"@) by {
                reveal_strlit("January");
                reveal_strlit("February");
                reveal_strlit("March");
                reveal_strlit("April");
                reveal_strlit("May");
                reveal_strlit("June");
                reveal_strlit("July");
                reveal_strlit("August");
                reveal_strlit("September");
                reveal_strlit("October");
                reveal_strlit("November");
                reveal_strlit("December");
            }
        }
        one
    };
    let mut atsep: Vec<char> = Vec::new();
    atsep.push(' ');
    atsep.push('a');
    atsep.push('t');
    atsep.push(' ');
    proof {
        assert(atsep@ =~= at_sep());
    }
    let yt = split_by_chars(year_time.as_slice(), atsep.as_slice());
    let ghost ytv = split_by(year_time@, at_sep());
    proof {
        assert(ytv.len() >= 1);
        assert(yt@.len() == ytv.len());
        assert(yt@[0].deep_view() == ytv[0]);
        assert(yt@[0].deep_view() =~= yt@[0]@);
    }
    let year: u32 = match parse_u32(yt[0].as_slice()) {
        Some(v) => v,
        None => 1970,
    };
    let mut out = pad_num(year, 4);
    out.push('-');
    let mut mm = pad_num(month, 2);
    out.append(&mut mm);
    out.push('-');
    let mut dd = pad_num(day, 2);
    out.append(&mut dd);
    out.push(' ');
    if yt.len() >= 2 {
        proof {
            assert(yt@[1].deep_view() == ytv[1]);
            assert(yt@[1].deep_view() =~= yt@[1]@);
        }
        let mut tm = sub_chars(yt[1].as_slice(), 0, yt[1].len());
        proof {
            assert(tm@ =~= yt@[1]@);
        }
        if tm.len() >= 2 && tm[1] == ':' {
            out.push('0');
        }
        out.append(&mut tm);
    } else {
        let mut tm: Vec<char> = Vec::new();
        tm.push('0');
        tm.push('0');
        tm.push(':');
        tm.push('0');
        tm.push('0');
        tm.push(':');
        tm.push('0');
        tm.push('0');
        proof {
            assert(tm@ =~= default_time());
        }
        out.append(&mut tm);
    }
    proof {
        assert(out@ =~= sortable_date(ds@));
    }
    out
}

} // verus!
