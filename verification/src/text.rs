//! Character-level text handling shared by the other modules: decimal
//! numbers as Rust prints and parses them, the `", "`-separated byte lists
//! in which encrypted fields are stored, ASCII case mapping and trailing
//! whitespace.

use vstd::prelude::*;

verus! {

// ---------------------------------------------------------------------------
// Small std wrappers
// ---------------------------------------------------------------------------

/// `String::push`: appends one character at the end of the string.
#[verifier::external_body]
pub(crate) fn push_char(s: &mut String, c: char)
    ensures
        final(s)@ == old(s)@.push(c),
{
    s.push(c);
}

/// `String::from_utf8`: takes the bytes as a string when they are valid
/// UTF-8, in which case the string's UTF-8 encoding is exactly those bytes;
/// gives `None` when they are not valid UTF-8.
#[verifier::external_body]
pub(crate) fn string_from_utf8(bytes: Vec<u8>) -> (r: Option<String>)
    ensures
        r is Some <==> vstd::utf8::valid_utf8(bytes@),
        r matches Some(s) ==> vstd::utf8::encode_utf8(s@) == bytes@,
{
    String::from_utf8(bytes).ok()
}

/// The characters of a string slice, in order.
pub fn chars_of(s: &str) -> (v: Vec<char>)
    ensures
        v@ == s@,
{
    let mut v: Vec<char> = Vec::new();
    for c in it: s.chars()
        invariant
            v@ == it.seq().take(it.index() as int),
            it.seq() == s@,
    {
        v.push(c);
    }
    v
}

/// The UTF-8 encoding of a string, as an owned byte vector.
pub fn utf8_bytes(s: &str) -> (v: Vec<u8>)
    ensures
        v@ == vstd::utf8::encode_utf8(s@),
{
    let b = s.as_bytes();
    let mut v: Vec<u8> = Vec::new();
    let mut i: usize = 0;
    while i < b.len()
        invariant
            0 <= i <= b@.len(),
            b@ == vstd::utf8::encode_utf8(s@),
            v@ == b@.take(i as int),
        decreases b@.len() - i,
    {
        v.push(b[i]);
        i = i + 1;
    }
    assert(b@.take(b@.len() as int) =~= b@);
    v
}

// ---------------------------------------------------------------------------
// Decimal digits
// ---------------------------------------------------------------------------

pub open spec fn is_digit(c: char) -> bool {
    '0' <= c && c <= '9'
}

pub open spec fn all_digits(s: Seq<char>) -> bool {
    forall|i: int| 0 <= i < s.len() ==> is_digit(#[trigger] s[i])
}

pub open spec fn digit_value(c: char) -> nat {
    (c as int - '0' as int) as nat
}

/// The character of a digit `0..=9`.
pub open spec fn digit_char(d: nat) -> char {
    ((d + '0' as int) as u32) as char
}

/// The value of a string of decimal digits, most significant first.
pub open spec fn digits_value(s: Seq<char>) -> nat
    decreases s.len(),
{
    if s.len() == 0 {
        0
    } else {
        digits_value(s.drop_last()) * 10 + digit_value(s.last())
    }
}

/// `n` written in decimal the way Rust's `Display` and `Debug` print an
/// unsigned integer: no sign, no leading zeros.
pub open spec fn decimal(n: nat) -> Seq<char>
    decreases n,
{
    if n < 10 {
        seq![digit_char(n)]
    } else {
        decimal(n / 10).push(digit_char(n % 10))
    }
}

/// The digits that `str::parse` reads for an unsigned integer: one leading
/// `'+'` is allowed and skipped.
pub open spec fn unsigned_digits(s: Seq<char>) -> Seq<char> {
    if s.len() > 0 && s[0] == '+' {
        s.drop_first()
    } else {
        s
    }
}

/// What `str::parse` gives for an unsigned integer type whose largest value
/// is `max`: `Some(v)` when the text is an optional `'+'` followed by at
/// least one decimal digit and nothing else, and its value `v` is at most
/// `max`; `None` otherwise (empty text, a stray character, a sign `'-'`,
/// overflow).
pub open spec fn parse_unsigned(s: Seq<char>, max: nat) -> Option<nat> {
    let ds = unsigned_digits(s);
    if ds.len() > 0 && all_digits(ds) && digits_value(ds) <= max {
        Some(digits_value(ds))
    } else {
        None
    }
}

pub proof fn lemma_digit_char(d: nat)
    requires
        d < 10,
    ensures
        is_digit(digit_char(d)),
        digit_value(digit_char(d)) == d,
        digit_char(d) != '+',
        digit_char(d) != ',',
{
}

/// `decimal(n)` is a non-empty string of digits whose value is `n`.
pub proof fn lemma_decimal(n: nat)
    ensures
        decimal(n).len() >= 1,
        all_digits(decimal(n)),
        digits_value(decimal(n)) == n,
    decreases n,
{
    if n < 10 {
        lemma_digit_char(n);
        let s = decimal(n);
        assert(s.drop_last() =~= Seq::<char>::empty());
        assert(digits_value(Seq::<char>::empty()) == 0);
        assert(digits_value(s) == digits_value(s.drop_last()) * 10 + digit_value(s.last()));
    } else {
        lemma_decimal(n / 10);
        lemma_digit_char(n % 10);
        let s = decimal(n);
        assert(s.drop_last() =~= decimal(n / 10));
        assert forall|i: int| 0 <= i < s.len() implies is_digit(#[trigger] s[i]) by {
            if i < s.len() - 1 {
                assert(s[i] == decimal(n / 10)[i]);
            }
        }
        assert(s.last() == digit_char(n % 10));
        assert(digits_value(s) == digits_value(s.drop_last()) * 10 + digit_value(s.last()));
        assert((n / 10) * 10 + n % 10 == n) by (nonlinear_arith);
    }
}

/// Reading back what `decimal` wrote gives the number again.
pub proof fn lemma_parse_decimal(n: nat, max: nat)
    requires
        n <= max,
    ensures
        parse_unsigned(decimal(n), max) == Some(n),
{
    lemma_decimal(n);
    let s = decimal(n);
    assert(is_digit(s[0]));
    assert(unsigned_digits(s) == s);
}

// ---------------------------------------------------------------------------
// Executable decimal parsing and printing
// ---------------------------------------------------------------------------

/// Parses `chars[start..end]` as `str::parse` does for an unsigned integer
/// type whose largest value is `max`.
pub fn parse_unsigned_range(chars: &Vec<char>, start: usize, end: usize, max: u64) -> (r: Option<
    u64,
>)
    requires
        start <= end <= chars@.len(),
    ensures
        r matches Some(v) ==> parse_unsigned(chars@.subrange(start as int, end as int), max as nat)
            == Some(v as nat),
        r is None ==> parse_unsigned(chars@.subrange(start as int, end as int), max as nat)
            is None,
{
    let ghost s = chars@.subrange(start as int, end as int);
    let mut first = start;
    if start < end && chars[start] == '+' {
        first = start + 1;
    }
    let ghost ds = chars@.subrange(first as int, end as int);
    assert(s.len() > 0 ==> s[0] == chars@[start as int]);
    assert(ds =~= unsigned_digits(s));
    if first == end {
        assert(ds.len() == 0);
        return None;
    }
    // `acc` is the value read so far, kept below `max + 1` once it passes it.
    let cap: u128 = (max as u128) + 1;
    let mut acc: u128 = 0;
    let mut i = first;
    while i < end
        invariant
            first <= i <= end <= chars@.len(),
            ds == chars@.subrange(first as int, end as int),
            ds == unsigned_digits(chars@.subrange(start as int, end as int)),
            cap == max + 1,
            all_digits(chars@.subrange(first as int, i as int)),
            acc == if digits_value(chars@.subrange(first as int, i as int)) < cap {
                digits_value(chars@.subrange(first as int, i as int))
            } else {
                cap as nat
            },
        decreases end - i,
    {
        let c = chars[i];
        if !('0' <= c && c <= '9') {
            assert(ds[i - first] == c);
            assert(!is_digit(ds[i - first]));
            return None;
        }
        let d = (c as u32) - ('0' as u32);
        let ghost prev = chars@.subrange(first as int, i as int);
        let ghost next = chars@.subrange(first as int, i + 1);
        assert(next.drop_last() =~= prev);
        assert(next.last() == c);
        assert(digits_value(next) == digits_value(prev) * 10 + d);
        assert forall|k: int| 0 <= k < next.len() implies is_digit(#[trigger] next[k]) by {
            if k < prev.len() {
                assert(next[k] == prev[k]);
            }
        }
        let step = acc * 10 + (d as u128);
        if step < cap {
            acc = step;
        } else {
            acc = cap;
        }
        i = i + 1;
    }
    assert(chars@.subrange(first as int, end as int) =~= ds);
    if acc <= max as u128 {
        Some(acc as u64)
    } else {
        None
    }
}

/// Appends `n` in decimal.
pub fn push_decimal(s: &mut String, n: u8)
    ensures
        final(s)@ == old(s)@ + decimal(n as nat),
{
    proof {
        reveal_with_fuel(decimal, 3);
    }
    if n >= 100 {
        push_char(s, ((n / 100) + 48) as char);
    }
    if n >= 10 {
        push_char(s, (((n / 10) % 10) + 48) as char);
    }
    push_char(s, ((n % 10) + 48) as char);
    proof {
        if n >= 100 {
            assert(decimal(n as nat) =~= seq![
                digit_char((n / 100) as nat),
                digit_char(((n / 10) % 10) as nat),
                digit_char((n % 10) as nat),
            ]);
        } else if n >= 10 {
            assert(decimal(n as nat) =~= seq![
                digit_char((n / 10) as nat),
                digit_char((n % 10) as nat),
            ]);
        }
    }
}

// ---------------------------------------------------------------------------
// Byte lists: decimal bytes separated by ", "
// ---------------------------------------------------------------------------

/// There is a `", "` separator starting at index `k`.
pub open spec fn is_separator_at(s: Seq<char>, k: int) -> bool {
    0 <= k && k + 1 < s.len() && s[k] == ',' && s[k + 1] == ' '
}

/// Index of the first `", "` separator in `s`, or `-1` when there is none.
pub open spec fn separator_index(s: Seq<char>) -> int
    decreases s.len(),
{
    if s.len() < 2 {
        -1
    } else if s[0] == ',' && s[1] == ' ' {
        0
    } else {
        let j = separator_index(s.drop_first());
        if j < 0 {
            -1
        } else {
            j + 1
        }
    }
}

pub proof fn lemma_separator_index(s: Seq<char>)
    ensures
        separator_index(s) >= -1,
        separator_index(s) >= 0 ==> is_separator_at(s, separator_index(s)),
        forall|k: int|
            0 <= k && (separator_index(s) < 0 || k < separator_index(s)) ==> !is_separator_at(
                s,
                k,
            ),
    decreases s.len(),
{
    if s.len() < 2 {
    } else if s[0] == ',' && s[1] == ' ' {
    } else {
        let t = s.drop_first();
        lemma_separator_index(t);
        assert forall|k: int|
            0 <= k && (separator_index(s) < 0 || k < separator_index(s)) implies !is_separator_at(
            s,
            k,
        ) by {
            if k > 0 && k + 1 < s.len() {
                assert(s[k] == t[k - 1]);
                assert(s[k + 1] == t[k]);
                assert(!is_separator_at(t, k - 1));
            }
        }
    }
}

/// A string without `','` has no separator.
pub proof fn lemma_no_comma_no_separator(s: Seq<char>)
    requires
        forall|i: int| 0 <= i < s.len() ==> s[i] != ',',
    ensures
        separator_index(s) == -1,
{
    lemma_separator_index(s);
    if separator_index(s) >= 0 {
        assert(s[separator_index(s)] == ',');
    }
}

/// The first separator of `x + ", " + y`, where `x` holds no `','`, is right
/// after `x`.
pub proof fn lemma_separator_after(x: Seq<char>, y: Seq<char>)
    requires
        forall|i: int| 0 <= i < x.len() ==> x[i] != ',',
    ensures
        separator_index(x + seq![',', ' '] + y) == x.len(),
    decreases x.len(),
{
    let s = x + seq![',', ' '] + y;
    if x.len() == 0 {
        assert(s[0] == ',' && s[1] == ' ');
    } else {
        assert(x[0] != ',');
        let x1 = x.drop_first();
        lemma_separator_after(x1, y);
        assert(s.drop_first() =~= x1 + seq![',', ' '] + y);
    }
}

/// `str::split(", ")`: the pieces of `s` between its `", "` separators, from
/// left to right; always at least one piece.
pub open spec fn split_pieces(s: Seq<char>) -> Seq<Seq<char>>
    decreases s.len(),
{
    let i = separator_index(s);
    if i < 0 {
        seq![s]
    } else {
        proof {
            lemma_separator_index(s);
        }
        seq![s.take(i)] + split_pieces(s.skip(i + 2))
    }
}

/// Every piece read as a byte (`str::parse::<u8>`), or `None` when one of
/// them is not a byte.
pub open spec fn parse_pieces(ps: Seq<Seq<char>>) -> Option<Seq<u8>>
    decreases ps.len(),
{
    if ps.len() == 0 {
        Some(Seq::<u8>::empty())
    } else {
        match parse_unsigned(ps[0], 255) {
            None => None,
            Some(v) => match parse_pieces(ps.drop_first()) {
                None => None,
                Some(rest) => Some(seq![v as u8] + rest),
            },
        }
    }
}

/// The bytes listed in `s`: split on `", "`, each piece parsed as a `u8`.
pub open spec fn parse_byte_list(s: Seq<char>) -> Option<Seq<u8>> {
    parse_pieces(split_pieces(s))
}

/// `", "` followed by a byte in decimal, for each byte in turn.
pub open spec fn byte_list_tail(b: Seq<u8>) -> Seq<char>
    decreases b.len(),
{
    if b.len() == 0 {
        Seq::<char>::empty()
    } else {
        seq![',', ' '] + decimal(b[0] as nat) + byte_list_tail(b.drop_first())
    }
}

/// The bytes in decimal, separated by `", "`: what `format!("{:?}", bytes)`
/// prints for a `Vec<u8>`, without the enclosing brackets.
pub open spec fn byte_list_text(b: Seq<u8>) -> Seq<char> {
    if b.len() == 0 {
        Seq::<char>::empty()
    } else {
        decimal(b[0] as nat) + byte_list_tail(b.drop_first())
    }
}

/// Whether `c` can occur in a byte list: a digit, `','` or `' '`.
pub open spec fn is_byte_list_char(c: char) -> bool {
    is_digit(c) || c == ',' || c == ' '
}

proof fn lemma_decimal_no_comma(n: nat)
    ensures
        forall|i: int| 0 <= i < decimal(n).len() ==> decimal(n)[i] != ',',
{
    lemma_decimal(n);
    assert forall|i: int| 0 <= i < decimal(n).len() implies decimal(n)[i] != ',' by {
        assert(is_digit(decimal(n)[i]));
    }
}

/// The text of a non-empty list is its first byte, `", "`, and the text of
/// the rest.
proof fn lemma_byte_list_text_step(b: Seq<u8>)
    requires
        b.len() >= 2,
    ensures
        byte_list_text(b) =~= decimal(b[0] as nat) + seq![',', ' '] + byte_list_text(
            b.drop_first(),
        ),
{
    let r = b.drop_first();
    assert(r[0] == b[1]);
    assert(byte_list_tail(r) =~= seq![',', ' '] + decimal(r[0] as nat) + byte_list_tail(
        r.drop_first(),
    ));
}

/// Only digits, `','` and `' '` occur in a byte list.
pub proof fn lemma_byte_list_chars(b: Seq<u8>)
    ensures
        forall|i: int|
            0 <= i < byte_list_text(b).len() ==> is_byte_list_char(#[trigger] byte_list_text(b)[i]),
    decreases b.len(),
{
    if b.len() == 0 {
    } else {
        lemma_decimal(b[0] as nat);
        if b.len() == 1 {
            assert(byte_list_tail(b.drop_first()) =~= Seq::<char>::empty());
            assert(byte_list_text(b) =~= decimal(b[0] as nat));
        } else {
            lemma_byte_list_chars(b.drop_first());
            lemma_byte_list_text_step(b);
            let d = decimal(b[0] as nat);
            let t = byte_list_text(b);
            assert forall|i: int| 0 <= i < t.len() implies is_byte_list_char(#[trigger] t[i]) by {
                if i < d.len() {
                    assert(t[i] == d[i]);
                } else if i >= d.len() + 2 {
                    assert(t[i] == byte_list_text(b.drop_first())[i - d.len() - 2]);
                }
            }
        }
    }
}

proof fn lemma_parse_pieces_cons(p: Seq<char>, rest: Seq<Seq<char>>)
    ensures
        parse_pieces(seq![p] + rest) == match parse_unsigned(p, 255) {
            None => None,
            Some(v) => match parse_pieces(rest) {
                None => None,
                Some(r) => Some(seq![v as u8] + r),
            },
        },
{
    let ps = seq![p] + rest;
    assert(ps[0] == p);
    assert(ps.drop_first() =~= rest);
}

proof fn lemma_split_pieces_unfold(s: Seq<char>)
    ensures
        separator_index(s) < 0 ==> split_pieces(s) == seq![s],
        separator_index(s) >= 0 ==> split_pieces(s) == seq![s.take(separator_index(s))]
            + split_pieces(s.skip(separator_index(s) + 2)),
{
}

/// `x + ", " + y`, where `x` holds no `','`, splits into `x` and the pieces
/// of `y`.
proof fn lemma_split_after(x: Seq<char>, y: Seq<char>)
    requires
        forall|i: int| 0 <= i < x.len() ==> x[i] != ',',
    ensures
        split_pieces(x + seq![',', ' '] + y) == seq![x] + split_pieces(y),
{
    let t = x + seq![',', ' '] + y;
    lemma_separator_after(x, y);
    lemma_split_pieces_unfold(t);
    assert(t.take(x.len() as int) =~= x);
    assert(t.skip(x.len() as int + 2) =~= y);
}

/// Reading back the text of a non-empty byte list gives the same bytes.
pub proof fn lemma_byte_list_round_trip(b: Seq<u8>)
    requires
        b.len() >= 1,
    ensures
        parse_byte_list(byte_list_text(b)) == Some(b),
    decreases b.len(),
{
    let d = decimal(b[0] as nat);
    lemma_decimal_no_comma(b[0] as nat);
    lemma_parse_decimal(b[0] as nat, 255);
    assert(b[0] as nat as u8 == b[0]);
    if b.len() == 1 {
        assert(byte_list_tail(b.drop_first()) =~= Seq::<char>::empty());
        assert(byte_list_text(b) =~= d);
        lemma_no_comma_no_separator(d);
        lemma_split_pieces_unfold(d);
        assert(seq![d] =~= seq![d] + Seq::<Seq<char>>::empty());
        lemma_parse_pieces_cons(d, Seq::<Seq<char>>::empty());
        assert(parse_pieces(Seq::<Seq<char>>::empty()) == Some(Seq::<u8>::empty()));
        assert(seq![b[0]] + Seq::<u8>::empty() =~= b);
    } else {
        let r = b.drop_first();
        lemma_byte_list_round_trip(r);
        lemma_byte_list_text_step(b);
        lemma_split_after(d, byte_list_text(r));
        lemma_parse_pieces_cons(d, split_pieces(byte_list_text(r)));
        assert(seq![b[0]] + r =~= b);
    }
}

/// Different non-empty byte lists are written differently.
pub proof fn lemma_byte_list_text_injective(a: Seq<u8>, b: Seq<u8>)
    requires
        a.len() >= 1,
        b.len() >= 1,
        byte_list_text(a) == byte_list_text(b),
    ensures
        a == b,
{
    lemma_byte_list_round_trip(a);
    lemma_byte_list_round_trip(b);
}

/// Index of the first `", "` in `chars` at or after `start`, or
/// `chars.len()` when there is none.
pub fn find_separator(chars: &Vec<char>, start: usize) -> (idx: usize)
    requires
        start <= chars@.len(),
    ensures
        separator_index(chars@.skip(start as int)) < 0 ==> idx == chars@.len(),
        separator_index(chars@.skip(start as int)) >= 0 ==> idx == start + separator_index(
            chars@.skip(start as int),
        ),
{
    let ghost t = chars@.skip(start as int);
    proof {
        lemma_separator_index(t);
    }
    let mut i = start;
    while i < chars.len() && i + 1 < chars.len()
        invariant
            start <= i <= chars@.len(),
            t == chars@.skip(start as int),
            forall|k: int| 0 <= k < i - start ==> !is_separator_at(t, k),
            separator_index(t) >= -1,
            separator_index(t) >= 0 ==> is_separator_at(t, separator_index(t)),
            forall|k: int|
                0 <= k && (separator_index(t) < 0 || k < separator_index(t)) ==> !is_separator_at(
                    t,
                    k,
                ),
        decreases chars@.len() - i,
    {
        if chars[i] == ',' && chars[i + 1] == ' ' {
            assert(t[i - start] == chars@[i as int]);
            assert(t[i - start + 1] == chars@[i + 1]);
            assert(is_separator_at(t, i - start));
            proof {
                if separator_index(t) >= 0 && separator_index(t) < i - start {
                    assert(!is_separator_at(t, separator_index(t)));
                }
            }
            return i;
        }
        assert(!is_separator_at(t, i - start));
        i = i + 1;
    }
    proof {
        if separator_index(t) >= 0 {
            assert(!is_separator_at(t, separator_index(t)));
        }
    }
    chars.len()
}

/// Reads a byte list: `Some` of the bytes exactly when every `", "`-separated
/// piece of `s` parses as a `u8`.
pub fn parse_byte_list_chars(chars: &Vec<char>) -> (r: Option<Vec<u8>>)
    ensures
        r matches Some(v) ==> parse_byte_list(chars@) == Some(v@),
        r is None ==> parse_byte_list(chars@) is None,
{
    let mut out: Vec<u8> = Vec::new();
    let mut start: usize = 0;
    assert(chars@.skip(0) =~= chars@);
    loop
        invariant
            start <= chars@.len(),
            parse_byte_list(chars@) == match parse_byte_list(chars@.skip(start as int)) {
                None => None,
                Some(rest) => Some(out@ + rest),
            },
        decreases chars@.len() - start,
    {
        let ghost t = chars@.skip(start as int);
        proof {
            lemma_separator_index(t);
        }
        let idx = find_separator(chars, start);
        let piece = parse_unsigned_range(chars, start, idx, 255);
        let ghost i = separator_index(t);
        let ghost piece_text = chars@.subrange(start as int, idx as int);
        proof {
            lemma_split_pieces_unfold(t);
            if i >= 0 {
                assert(piece_text =~= t.take(i));
                assert(chars@.skip(idx + 2) =~= t.skip(i + 2));
                lemma_parse_pieces_cons(piece_text, split_pieces(t.skip(i + 2)));
            } else {
                assert(piece_text =~= t);
                assert(seq![t] =~= seq![t] + Seq::<Seq<char>>::empty());
                lemma_parse_pieces_cons(piece_text, Seq::<Seq<char>>::empty());
                assert(parse_pieces(Seq::<Seq<char>>::empty()) == Some(Seq::<u8>::empty()));
            }
        }
        match piece {
            None => {
                return None;
            },
            Some(v) => {
                let ghost old_out = out@;
                out.push(v as u8);
                proof {
                    if i >= 0 {
                        match parse_byte_list(chars@.skip(idx + 2)) {
                            None => {},
                            Some(rest) => {
                                assert(old_out + (seq![v as u8] + rest) =~= out@ + rest);
                            },
                        }
                    } else {
                        assert(old_out + (seq![v as u8] + Seq::<u8>::empty()) =~= out@);
                    }
                }
                if idx == chars.len() {
                    return Some(out);
                }
                start = idx + 2;
            },
        }
    }
}

/// Appends the text of the byte list `bytes`.
pub fn push_byte_list(s: &mut String, bytes: &Vec<u8>)
    ensures
        final(s)@ == old(s)@ + byte_list_text(bytes@),
{
    if bytes.len() == 0 {
        assert(old(s)@ + byte_list_text(bytes@) =~= old(s)@);
        return;
    }
    let ghost s0 = s@;
    push_decimal(s, bytes[0]);
    assert(bytes@.skip(1) =~= bytes@.drop_first());
    let mut i: usize = 1;
    while i < bytes.len()
        invariant
            1 <= i <= bytes@.len(),
            s0 + byte_list_text(bytes@) =~= s@ + byte_list_tail(bytes@.skip(i as int)),
        decreases bytes@.len() - i,
    {
        let ghost rest = bytes@.skip(i as int);
        assert(rest[0] == bytes@[i as int]);
        assert(rest.drop_first() =~= bytes@.skip(i + 1));
        push_char(s, ',');
        push_char(s, ' ');
        push_decimal(s, bytes[i]);
        i = i + 1;
    }
    assert(bytes@.skip(i as int) =~= Seq::<u8>::empty());
}

// ---------------------------------------------------------------------------
// ASCII case and trailing whitespace
// ---------------------------------------------------------------------------

/// `char::to_ascii_uppercase`.
pub open spec fn ascii_upper(c: char) -> char {
    if 'a' <= c && c <= 'z' {
        ((c as int) - 32) as char
    } else {
        c
    }
}

/// `char::to_ascii_lowercase`.
pub open spec fn ascii_lower(c: char) -> char {
    if 'A' <= c && c <= 'Z' {
        ((c as int) + 32) as char
    } else {
        c
    }
}

/// `str::to_ascii_uppercase`: every ASCII lowercase letter made uppercase.
pub fn to_ascii_uppercase(s: &str) -> (r: String)
    ensures
        r@ == s@.map_values(|c: char| ascii_upper(c)),
{
    let chars = chars_of(s);
    let mut r = String::new();
    let mut i: usize = 0;
    while i < chars.len()
        invariant
            0 <= i <= chars@.len(),
            chars@ == s@,
            r@ =~= s@.take(i as int).map_values(|c: char| ascii_upper(c)),
        decreases chars@.len() - i,
    {
        let c = chars[i];
        let u = if 'a' <= c && c <= 'z' {
            ((c as u8) - 32) as char
        } else {
            c
        };
        push_char(&mut r, u);
        assert(s@.take(i + 1) =~= s@.take(i as int).push(c));
        i = i + 1;
    }
    assert(s@.take(i as int) =~= s@);
    r
}

/// `str::to_ascii_lowercase`: every ASCII uppercase letter made lowercase.
pub fn to_ascii_lowercase(s: &str) -> (r: Vec<char>)
    ensures
        r@ == s@.map_values(|c: char| ascii_lower(c)),
{
    let chars = chars_of(s);
    let mut r: Vec<char> = Vec::new();
    let mut i: usize = 0;
    while i < chars.len()
        invariant
            0 <= i <= chars@.len(),
            chars@ == s@,
            r@ =~= s@.take(i as int).map_values(|c: char| ascii_lower(c)),
        decreases chars@.len() - i,
    {
        let c = chars[i];
        let l = if 'A' <= c && c <= 'Z' {
            ((c as u8) + 32) as char
        } else {
            c
        };
        r.push(l);
        assert(s@.take(i + 1) =~= s@.take(i as int).push(c));
        i = i + 1;
    }
    assert(s@.take(i as int) =~= s@);
    r
}

/// `char::is_whitespace`: the characters with the Unicode `White_Space`
/// property.
pub open spec fn is_whitespace(c: char) -> bool {
    ||| '\u{9}' <= c && c <= '\u{d}'
    ||| c == ' '
    ||| c == '\u{85}'
    ||| c == '\u{a0}'
    ||| c == '\u{1680}'
    ||| '\u{2000}' <= c && c <= '\u{200a}'
    ||| c == '\u{2028}'
    ||| c == '\u{2029}'
    ||| c == '\u{202f}'
    ||| c == '\u{205f}'
    ||| c == '\u{3000}'
}

/// `str::trim_end`: `s` without its trailing whitespace.
pub open spec fn trim_end(s: Seq<char>) -> Seq<char>
    decreases s.len(),
{
    if s.len() > 0 && is_whitespace(s.last()) {
        trim_end(s.drop_last())
    } else {
        s
    }
}

fn is_whitespace_exec(c: char) -> (r: bool)
    ensures
        r == is_whitespace(c),
{
    ('\u{9}' <= c && c <= '\u{d}') || c == ' ' || c == '\u{85}' || c == '\u{a0}' || c
        == '\u{1680}' || ('\u{2000}' <= c && c <= '\u{200a}') || c == '\u{2028}' || c
        == '\u{2029}' || c == '\u{202f}' || c == '\u{205f}' || c == '\u{3000}'
}

/// ASCII letters, digits and punctuation are not whitespace; space, tab,
/// line feed and carriage return are.
pub proof fn law_ascii_whitespace(c: char)
    ensures
        '!' <= c && c <= '~' ==> !is_whitespace(c),
        c == ' ' || c == '\t' || c == '\n' || c == '\r' ==> is_whitespace(c),
{
}

/// `trim_end` removes a tail of whitespace and nothing else: what is left is
/// a prefix of `s` that does not end in whitespace, everything after it is
/// whitespace, and a text ending in a visible ASCII character is kept whole.
pub proof fn law_trim_end(s: Seq<char>)
    ensures
        trim_end(s).len() <= s.len(),
        trim_end(s) == s.take(trim_end(s).len() as int),
        forall|i: int| trim_end(s).len() <= i < s.len() ==> is_whitespace(#[trigger] s[i]),
        trim_end(s).len() > 0 ==> !is_whitespace(trim_end(s).last()),
        s.len() > 0 && '!' <= s.last() && s.last() <= '~' ==> trim_end(s) == s,
    decreases s.len(),
{
    if s.len() > 0 && is_whitespace(s.last()) {
        let t = s.drop_last();
        law_trim_end(t);
        assert(trim_end(s) == trim_end(t));
        assert(t.take(trim_end(t).len() as int) =~= s.take(trim_end(t).len() as int));
        assert forall|i: int| trim_end(s).len() <= i < s.len() implies is_whitespace(#[trigger] s[i]) by {
            if i < t.len() {
                assert(s[i] == t[i]);
            }
        }
    } else {
        assert(s.take(s.len() as int) =~= s);
    }
}

/// The characters of `s` without its trailing whitespace.
pub fn trim_end_chars(s: &str) -> (r: Vec<char>)
    ensures
        r@ == trim_end(s@),
{
    let mut chars = chars_of(s);
    while chars.len() > 0 && is_whitespace_exec(chars[chars.len() - 1])
        invariant
            trim_end(chars@) == trim_end(s@),
        decreases chars@.len(),
    {
        let ghost before = chars@;
        chars.pop();
        assert(chars@ =~= before.drop_last());
    }
    chars
}

/// A string of the given characters.
pub fn string_of_chars(chars: &Vec<char>) -> (r: String)
    ensures
        r@ == chars@,
{
    let mut r = String::new();
    let mut i: usize = 0;
    while i < chars.len()
        invariant
            0 <= i <= chars@.len(),
            r@ =~= chars@.take(i as int),
        decreases chars@.len() - i,
    {
        push_char(&mut r, chars[i]);
        assert(chars@.take(i + 1) =~= chars@.take(i as int).push(chars@[i as int]));
        i = i + 1;
    }
    assert(chars@.take(i as int) =~= chars@);
    r
}

} // verus!
