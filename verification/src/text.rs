//! Character-level text utilities shared by the search engine, the date
//! parser and the persistence codec.
//!
//! All algorithms work on `Vec<char>`; the only operations taken on trust
//! are the ones std computes from Unicode tables (case mapping and the
//! character classes) and the rebuilding of a `String` from characters.

use vstd::prelude::*;
use vstd::std_specs::iter::IteratorSpec;

verus! {

broadcast use vstd::string::next_postcondition, vstd::string::axiom_spec_iter;

// ---------------------------------------------------------------------------
// Unicode facts taken on trust
// ---------------------------------------------------------------------------

/// What `str::to_lowercase` returns: a function of the characters alone.
pub uninterp spec fn lower_of(s: Seq<char>) -> Seq<char>;

/// What `char::is_uppercase` returns: a function of the character alone.
pub uninterp spec fn char_upper(c: char) -> bool;

/// What `char::is_whitespace` returns: a function of the character alone.
pub uninterp spec fn char_space(c: char) -> bool;

/// Relies on `str::to_lowercase`: the lower-cased text depends on the
/// characters alone, and an empty string stays empty.
#[verifier::external_body]
pub fn to_lower(s: &str) -> (r: String)
    ensures
        r@ == lower_of(s@),
        s@.len() == 0 ==> r@.len() == 0,
{
    s.to_lowercase()
}

/// Relies on `char::is_uppercase`: the Unicode uppercase property of the
/// character alone.
#[verifier::external_body]
pub fn char_is_upper(c: char) -> (r: bool)
    ensures
        r == char_upper(c),
{
    c.is_uppercase()
}

/// Relies on `char::is_whitespace`: the Unicode whitespace property of the
/// character alone.
#[verifier::external_body]
pub fn char_is_space(c: char) -> (r: bool)
    ensures
        r == char_space(c),
{
    c.is_whitespace()
}

/// Relies on `String: FromIterator<char>`: collecting characters yields the
/// string made of exactly those characters.
#[verifier::external_body]
pub fn string_of(v: &[char]) -> (r: String)
    ensures
        r@ == v@,
{
    v.iter().collect()
}

// ---------------------------------------------------------------------------
// Conversions and comparisons
// ---------------------------------------------------------------------------

/// The characters of `s`, in order.
pub fn chars_of(s: &str) -> (r: Vec<char>)
    ensures
        r@ == s@,
{
    let mut v: Vec<char> = Vec::new();
    let mut it = s.chars();
    proof {
        assert(it.remaining() =~= s@);
    }
    loop
        invariant
            v@ + it.remaining() =~= s@,
        ensures
            v@ =~= s@,
        decreases s@.len() - v@.len(),
    {
        match it.next() {
            Some(c) => {
                v.push(c);
            }
            None => {
                break;
            }
        }
    }
    v
}

/// Character-for-character equality of two texts.
pub fn eq_chars(a: &[char], b: &[char]) -> (r: bool)
    ensures
        r == (a@ == b@),
{
    if a.len() != b.len() {
        proof {
            assert(a@.len() != b@.len());
        }
        return false;
    }
    let mut i: usize = 0;
    while i < a.len()
        invariant
            0 <= i <= a.len(),
            a@.len() == b@.len(),
            forall|j: int| 0 <= j < i ==> a@[j] == b@[j],
        decreases a.len() - i,
    {
        if a[i] != b[i] {
            return false;
        }
        i += 1;
    }
    proof {
        assert(a@ =~= b@);
    }
    true
}

/// Lexicographic order on texts by Unicode scalar value; this is also the
/// byte order of their UTF-8 encodings.
pub open spec fn spec_le(a: Seq<char>, b: Seq<char>) -> bool
    decreases a.len(),
{
    if a.len() == 0 {
        true
    } else if b.len() == 0 {
        false
    } else if (a[0] as u32) < (b[0] as u32) {
        true
    } else if (a[0] as u32) > (b[0] as u32) {
        false
    } else {
        spec_le(a.drop_first(), b.drop_first())
    }
}

/// `spec_le` is total.
pub proof fn lemma_le_total(a: Seq<char>, b: Seq<char>)
    ensures
        spec_le(a, b) || spec_le(b, a),
    decreases a.len(),
{
    if a.len() != 0 && b.len() != 0 && (a[0] as u32) == (b[0] as u32) {
        lemma_le_total(a.drop_first(), b.drop_first());
    }
}

/// `spec_le` is transitive.
pub proof fn lemma_le_trans(a: Seq<char>, b: Seq<char>, c: Seq<char>)
    requires
        spec_le(a, b),
        spec_le(b, c),
    ensures
        spec_le(a, c),
    decreases a.len(),
{
    if a.len() != 0 && b.len() != 0 && c.len() != 0 && (a[0] as u32) == (b[0] as u32) && (b[0]
        as u32) == (c[0] as u32) {
        lemma_le_trans(a.drop_first(), b.drop_first(), c.drop_first());
    }
}

proof fn lemma_skip_drop_first(s: Seq<char>, i: int)
    requires
        0 <= i < s.len(),
    ensures
        s.skip(i).drop_first() =~= s.skip(i + 1),
        s.skip(i).len() > 0,
        s.skip(i)[0] == s[i],
{
}

/// Whether `a` comes no later than `b` in lexicographic order.
pub fn le_chars(a: &[char], b: &[char]) -> (r: bool)
    ensures
        r == spec_le(a@, b@),
{
    let mut i: usize = 0;
    proof {
        assert(a@.skip(0) =~= a@);
        assert(b@.skip(0) =~= b@);
    }
    loop
        invariant
            0 <= i <= a.len(),
            0 <= i <= b.len(),
            spec_le(a@, b@) == spec_le(a@.skip(i as int), b@.skip(i as int)),
        decreases a.len() - i,
    {
        if i >= a.len() {
            proof {
                assert(a@.skip(i as int).len() == 0);
            }
            return true;
        }
        if i >= b.len() {
            proof {
                assert(b@.skip(i as int).len() == 0);
                assert(a@.skip(i as int).len() > 0);
            }
            return false;
        }
        let ca = a[i];
        let cb = b[i];
        proof {
            lemma_skip_drop_first(a@, i as int);
            lemma_skip_drop_first(b@, i as int);
        }
        if (ca as u32) < (cb as u32) {
            return true;
        }
        if (ca as u32) > (cb as u32) {
            return false;
        }
        i += 1;
    }
}

// ---------------------------------------------------------------------------
// Substring search
// ---------------------------------------------------------------------------

/// True when `k` occurs as a contiguous run inside `t` (an empty `k`
/// occurs everywhere).
pub open spec fn spec_contains(t: Seq<char>, k: Seq<char>) -> bool {
    exists|i: int|
        0 <= i && i + k.len() <= t.len() && #[trigger] t.subrange(i, i + k.len() as int) == k
}

/// Whether `k` matches `t` exactly at position `i`.
fn match_at(t: &[char], k: &[char], i: usize) -> (r: bool)
    requires
        i + k@.len() <= t@.len(),
    ensures
        r == (t@.subrange(i as int, i + k@.len()) == k@),
{
    let tl = t.len();
    let mut j: usize = 0;
    while j < k.len()
        invariant
            0 <= j <= k.len(),
            i + k@.len() <= t@.len(),
            t@.len() == tl,
            forall|m: int| 0 <= m < j ==> t@[i + m] == k@[m],
        decreases k.len() - j,
    {
        if t[i + j] != k[j] {
            proof {
                assert(t@.subrange(i as int, i + k@.len())[j as int] == t@[i + j]);
            }
            return false;
        }
        j += 1;
    }
    proof {
        assert(t@.subrange(i as int, i + k@.len()) =~= k@);
    }
    true
}

/// Whether `k` occurs as a contiguous run inside `t`.
pub fn contains_chars(t: &[char], k: &[char]) -> (r: bool)
    ensures
        r == spec_contains(t@, k@),
{
    if k.len() > t.len() {
        return false;
    }
    let bound = t.len() - k.len();
    let mut i: usize = 0;
    loop
        invariant
            k@.len() <= t@.len(),
            bound == t@.len() - k@.len(),
            0 <= i <= bound,
            forall|m: int| 0 <= m < i ==> #[trigger] t@.subrange(m, m + k@.len()) != k@,
        ensures
            forall|m: int| 0 <= m <= bound ==> #[trigger] t@.subrange(m, m + k@.len()) != k@,
        decreases bound - i,
    {
        if match_at(t, k, i) {
            return true;
        }
        if i == bound {
            break;
        }
        i += 1;
    }
    false
}

/// Whether the text holds any character with the Unicode uppercase
/// property.
pub open spec fn has_upper(s: Seq<char>) -> bool {
    exists|i: int| 0 <= i < s.len() && char_upper(#[trigger] s[i])
}

/// Whether the text holds any uppercase character.
pub fn has_upper_chars(s: &[char]) -> (r: bool)
    ensures
        r == has_upper(s@),
{
    let mut i: usize = 0;
    while i < s.len()
        invariant
            0 <= i <= s.len(),
            forall|j: int| 0 <= j < i ==> !char_upper(#[trigger] s@[j]),
        decreases s.len() - i,
    {
        if char_is_upper(s[i]) {
            return true;
        }
        i += 1;
    }
    false
}

/// The lower-cased text, as characters.
pub fn lower_chars(s: &[char]) -> (r: Vec<char>)
    ensures
        r@ == lower_of(s@),
{
    let owned = string_of(s);
    let lowered = to_lower(owned.as_str());
    chars_of(lowered.as_str())
}

/// The characters of `v` from `from` (inclusive) to `to` (exclusive).
pub fn sub_chars(v: &[char], from: usize, to: usize) -> (r: Vec<char>)
    requires
        0 <= from <= to <= v@.len(),
    ensures
        r@ == v@.subrange(from as int, to as int),
{
    let mut r: Vec<char> = Vec::new();
    let mut i: usize = from;
    while i < to
        invariant
            from <= i <= to <= v@.len(),
            r@ == v@.subrange(from as int, i as int),
        decreases to - i,
    {
        proof {
            assert(v@.subrange(from as int, i as int).push(v@[i as int]) =~= v@.subrange(
                from as int,
                i as int + 1,
            ));
        }
        r.push(v[i]);
        i += 1;
    }
    r
}

/// Whether `p` is a prefix of `s`.
pub open spec fn starts_with(s: Seq<char>, p: Seq<char>) -> bool {
    p.len() <= s.len() && s.subrange(0, p.len() as int) == p
}

/// Whether `p` is a prefix of `s`.
pub fn starts_with_chars(s: &[char], p: &[char]) -> (r: bool)
    ensures
        r == starts_with(s@, p@),
{
    if p.len() > s.len() {
        return false;
    }
    let mut i: usize = 0;
    while i < p.len()
        invariant
            0 <= i <= p@.len() <= s@.len(),
            forall|j: int| 0 <= j < i ==> s@[j] == p@[j],
        decreases p.len() - i,
    {
        if s[i] != p[i] {
            proof {
                assert(s@.subrange(0, p@.len() as int)[i as int] == s@[i as int]);
            }
            return false;
        }
        i += 1;
    }
    proof {
        assert(s@.subrange(0, p@.len() as int) =~= p@);
    }
    true
}

// ---------------------------------------------------------------------------
// Whitespace tokenization
// ---------------------------------------------------------------------------

/// The length of the longest prefix of `s` without whitespace.
pub open spec fn word_len(s: Seq<char>) -> nat
    decreases s.len(),
{
    if s.len() == 0 || char_space(s[0]) {
        0
    } else {
        1 + word_len(s.drop_first())
    }
}

proof fn lemma_word_len_bound(s: Seq<char>)
    ensures
        word_len(s) <= s.len(),
    decreases s.len(),
{
    if s.len() != 0 && !char_space(s[0]) {
        lemma_word_len_bound(s.drop_first());
    }
}

/// The whitespace-separated words of `s`, in order.
pub open spec fn spec_tokens(s: Seq<char>) -> Seq<Seq<char>>
    decreases s.len(),
    via spec_tokens_decreases
{
    if s.len() == 0 {
        Seq::empty()
    } else if char_space(s[0]) {
        spec_tokens(s.drop_first())
    } else {
        seq![s.take(word_len(s) as int)] + spec_tokens(s.skip(word_len(s) as int))
    }
}

#[via_fn]
proof fn spec_tokens_decreases(s: Seq<char>) {
    if s.len() != 0 && !char_space(s[0]) {
        assert(word_len(s) == 1 + word_len(s.drop_first()));
        lemma_word_len_bound(s);
    }
}

proof fn lemma_word_len_step(s: Seq<char>, i: int)
    requires
        0 <= i < s.len(),
        !char_space(s[i]),
    ensures
        word_len(s.skip(i)) == 1 + word_len(s.skip(i + 1)),
{
    lemma_skip_drop_first(s, i);
}

proof fn lemma_tokens_skip_space(s: Seq<char>, i: int)
    requires
        0 <= i < s.len(),
        char_space(s[i]),
    ensures
        spec_tokens(s.skip(i)) == spec_tokens(s.skip(i + 1)),
{
    lemma_skip_drop_first(s, i);
}

/// The whitespace-separated words of `s`, in order; words are maximal
/// runs without whitespace, and empty words never occur.
pub fn split_spaces(s: &Vec<char>) -> (r: Vec<Vec<char>>)
    ensures
        r.deep_view() == spec_tokens(s@),
{
    let mut r: Vec<Vec<char>> = Vec::new();
    let mut i: usize = 0;
    proof {
        assert(s@.skip(0) =~= s@);
        assert(r.deep_view() =~= Seq::<Seq<char>>::empty());
        assert(r.deep_view() + spec_tokens(s@) =~= spec_tokens(s@));
    }
    while i < s.len()
        invariant
            0 <= i <= s.len(),
            spec_tokens(s@) == r.deep_view() + spec_tokens(s@.skip(i as int)),
        decreases s.len() - i,
    {
        if char_is_space(s[i]) {
            proof {
                lemma_tokens_skip_space(s@, i as int);
            }
            i += 1;
        } else {
            let start = i;
            let ghost base = r.deep_view();
            let mut w: Vec<char> = Vec::new();
            proof {
                lemma_word_len_step(s@, i as int);
                assert(Seq::<char>::empty().push(s@[i as int]) =~= s@.subrange(
                    start as int,
                    i as int + 1,
                ));
            }
            w.push(s[i]);
            i += 1;
            loop
                invariant
                    0 <= start < i <= s.len(),
                    w@ == s@.subrange(start as int, i as int),
                    word_len(s@.skip(start as int)) == (i - start) + word_len(
                        s@.skip(i as int),
                    ),
                ensures
                    w@ == s@.subrange(start as int, i as int),
                    word_len(s@.skip(start as int)) == i - start,
                    i == s.len() || char_space(s@[i as int]),
                    start < i <= s.len(),
                decreases s.len() - i,
            {
                if i >= s.len() {
                    proof {
                        assert(s@.skip(i as int).len() == 0);
                    }
                    break;
                }
                if char_is_space(s[i]) {
                    proof {
                        assert(s@.skip(i as int)[0] == s@[i as int]);
                    }
                    break;
                }
                proof {
                    lemma_word_len_step(s@, i as int);
                    assert(s@.subrange(start as int, i as int).push(s@[i as int]) =~= s@.subrange(
                        start as int,
                        i as int + 1,
                    ));
                }
                w.push(s[i]);
                i += 1;
            }
            proof {
                let sk = s@.skip(start as int);
                assert(spec_tokens(sk) == seq![sk.take(word_len(sk) as int)] + spec_tokens(
                    sk.skip(word_len(sk) as int),
                ));
                assert(sk.take((i - start) as int) =~= s@.subrange(start as int, i as int));
                assert(sk.skip((i - start) as int) =~= s@.skip(i as int));
            }
            r.push(w);
            proof {
                assert(r.deep_view() =~~= base.push(s@.subrange(start as int, i as int)));
                assert(r.deep_view() + spec_tokens(s@.skip(i as int)) =~~= base + (seq![
                    s@.subrange(start as int, i as int),
                ] + spec_tokens(s@.skip(i as int))));
            }
        }
    }
    proof {
        assert(spec_tokens(s@.skip(i as int)) =~= Seq::<Seq<char>>::empty());
        assert(r.deep_view() =~= r.deep_view() + Seq::<Seq<char>>::empty());
    }
    r
}

// ---------------------------------------------------------------------------
// Decimal numbers
// ---------------------------------------------------------------------------

/// True when every character of `s` is an ASCII decimal digit.
pub open spec fn all_digits(s: Seq<char>) -> bool {
    forall|i: int| 0 <= i < s.len() ==> spec_is_digit(s[i])
}

/// The value of a run of ASCII digits read as a decimal number.
pub open spec fn digits_val(s: Seq<char>) -> nat
    decreases s.len(),
{
    if s.len() == 0 {
        0
    } else {
        digits_val(s.drop_last()) * 10 + digit_val(s.last())
    }
}

/// The ASCII digit with value `d`.
pub open spec fn digit_char(d: nat) -> char {
    if d == 0 {
        '0'
    } else if d == 1 {
        '1'
    } else if d == 2 {
        '2'
    } else if d == 3 {
        '3'
    } else if d == 4 {
        '4'
    } else if d == 5 {
        '5'
    } else if d == 6 {
        '6'
    } else if d == 7 {
        '7'
    } else if d == 8 {
        '8'
    } else {
        '9'
    }
}

/// The shortest decimal numeral for `n`.
pub open spec fn spec_dec(n: nat) -> Seq<char>
    decreases n,
{
    if n < 10 {
        seq![digit_char(n)]
    } else {
        spec_dec(n / 10).push(digit_char(n % 10))
    }
}

/// A numeral is made of digits and is never empty.
pub proof fn lemma_dec_digits(n: nat)
    ensures
        all_digits(spec_dec(n)),
        spec_dec(n).len() >= 1,
    decreases n,
{
    if n >= 10 {
        lemma_dec_digits(n / 10);
        assert forall|i: int| 0 <= i < spec_dec(n).len() implies spec_is_digit(
            spec_dec(n)[i],
        ) by {
            if i < spec_dec(n).len() - 1 {
                assert(spec_dec(n)[i] == spec_dec(n / 10)[i]);
            }
        }
    }
}

/// Reading a numeral back gives the number it was made from.
pub proof fn lemma_dec_val(n: nat)
    ensures
        digits_val(spec_dec(n)) == n,
    decreases n,
{
    if n < 10 {
        assert(spec_dec(n).drop_last() =~= Seq::<char>::empty());
        assert(digits_val(Seq::<char>::empty()) == 0);
        assert(digit_val(digit_char(n)) == n);
    } else {
        lemma_dec_val(n / 10);
        assert(spec_dec(n).drop_last() =~= spec_dec(n / 10));
        assert(digit_val(digit_char((n % 10) as nat)) == n % 10);
    }
}

/// True when `c` is an ASCII decimal digit.
pub open spec fn spec_is_digit(c: char) -> bool {
    '0' <= c && c <= '9'
}

/// The numeric value of an ASCII digit.
pub open spec fn digit_val(c: char) -> nat
    recommends
        spec_is_digit(c),
{
    ((c as int) - ('0' as int)) as nat
}

/// Whether `c` is an ASCII decimal digit.
pub fn is_digit(c: char) -> (r: bool)
    ensures
        r == spec_is_digit(c),
{
    '0' <= c && c <= '9'
}

/// The value of the ASCII digit `c`.
pub fn digit_of(c: char) -> (r: u32)
    requires
        spec_is_digit(c),
    ensures
        r == digit_val(c),
        r <= 9,
{
    (c as u32) - ('0' as u32)
}

/// The ASCII digit with value `d`.
pub fn char_of_digit(d: u64) -> (r: char)
    requires
        d <= 9,
    ensures
        r == digit_char(d as nat),
{
    match d {
        0 => '0',
        1 => '1',
        2 => '2',
        3 => '3',
        4 => '4',
        5 => '5',
        6 => '6',
        7 => '7',
        8 => '8',
        _ => '9',
    }
}

/// The shortest decimal numeral for `n`.
pub fn dec_u64(n: u64) -> (r: Vec<char>)
    ensures
        r@ == spec_dec(n as nat),
    decreases n,
{
    if n < 10 {
        let mut v: Vec<char> = Vec::new();
        v.push(char_of_digit(n));
        proof {
            assert(v@ =~= seq![digit_char(n as nat)]);
        }
        v
    } else {
        let mut v = dec_u64(n / 10);
        v.push(char_of_digit(n % 10));
        v
    }
}

/// What Rust's `u32` parser accepts: an optional leading plus sign, then
/// one or more digits whose value fits.
pub open spec fn spec_parse_u32(s: Seq<char>) -> Option<u32> {
    let body = if s.len() > 0 && s[0] == '+' {
        s.drop_first()
    } else {
        s
    };
    if body.len() > 0 && all_digits(body) && digits_val(body) <= u32::MAX {
        Some(digits_val(body) as u32)
    } else {
        None
    }
}

pub proof fn lemma_digits_val_take_step(s: Seq<char>, i: int)
    requires
        0 <= i < s.len(),
    ensures
        digits_val(s.take(i + 1)) == digits_val(s.take(i)) * 10 + digit_val(s[i]),
{
    assert(s.take(i + 1).drop_last() =~= s.take(i));
    assert(s.take(i + 1).last() == s[i]);
}

pub proof fn lemma_digits_val_grows(s: Seq<char>, i: int)
    requires
        0 <= i <= s.len(),
    ensures
        digits_val(s.take(i)) <= digits_val(s),
    decreases s.len() - i,
{
    if i < s.len() {
        lemma_digits_val_take_step(s, i);
        lemma_digits_val_grows(s, i + 1);
    } else {
        assert(s.take(i) =~= s);
    }
}

/// Reads a decimal `u32` the way Rust's `str::parse::<u32>` does on the
/// inputs this library meets: an optional plus sign, then digits.
pub fn parse_u32(s: &[char]) -> (r: Option<u32>)
    ensures
        r == spec_parse_u32(s@),
{
    let start: usize = if s.len() > 0 && s[0] == '+' {
        1
    } else {
        0
    };
    let ghost body = if s@.len() > 0 && s@[0] == '+' {
        s@.drop_first()
    } else {
        s@
    };
    proof {
        assert(body =~= s@.skip(start as int));
    }
    if s.len() == start {
        return None;
    }
    let mut acc: u64 = 0;
    let mut i: usize = start;
    while i < s.len()
        invariant
            start <= i <= s.len(),
            start < s.len(),
            body =~= s@.skip(start as int),
            body == (if s@.len() > 0 && s@[0] == '+' {
                s@.drop_first()
            } else {
                s@
            }),
            forall|j: int| start <= j < i ==> spec_is_digit(s@[j]),
            acc == digits_val(body.take((i - start) as int)),
            acc <= u32::MAX,
        decreases s.len() - i,
    {
        let c = s[i];
        if !is_digit(c) {
            proof {
                assert(body[(i - start) as int] == s@[i as int]);
                assert(!all_digits(body));
            }
            return None;
        }
        let d = digit_of(c) as u64;
        proof {
            lemma_digits_val_take_step(body, (i - start) as int);
            assert(body[(i - start) as int] == s@[i as int]);
        }
        acc = acc * 10 + d;
        i += 1;
        if acc > u32::MAX as u64 {
            proof {
                lemma_digits_val_grows(body, (i - start) as int);
                assert(digits_val(body) > u32::MAX);
            }
            return None;
        }
    }
    proof {
        assert(body.take((i - start) as int) =~= body);
        assert(all_digits(body));
    }
    Some(acc as u32)
}

} // verus!
