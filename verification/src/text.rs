//! Comma-separated lists and decimal feature numbers.
//!
//! Announcement tags carry multi-value fields as one comma-separated string.
//! Feature numbers are parsed the way std parses a `u16`: an optional leading
//! `+`, then one or more ASCII digits, rejecting overflow.

use vstd::prelude::*;

verus! {

/// Whether `c` is an ASCII decimal digit.
pub open spec fn is_dec_digit(c: char) -> bool {
    '0' <= c && c <= '9'
}

/// The numeric value of an ASCII decimal digit.
pub open spec fn dec_digit_value(c: char) -> int {
    c as int - '0' as int
}

/// The digits of an unsigned decimal literal after the optional leading `+`.
pub open spec fn unsigned_digits(s: Seq<char>) -> Seq<char> {
    if s.len() > 0 && s[0] == '+' {
        s.skip(1)
    } else {
        s
    }
}

/// The numeric value of a sequence of decimal digits.
pub open spec fn dec_value(s: Seq<char>) -> int
    decreases s.len(),
{
    if s.len() == 0 {
        0
    } else {
        dec_value(s.drop_last()) * 10 + dec_digit_value(s.last())
    }
}

/// Whether `s` is a string the `u16` parser accepts: an optional leading `+`,
/// then one or more ASCII digits, with a value below 2^16.
pub open spec fn is_u16_string(s: Seq<char>) -> bool {
    let d = unsigned_digits(s);
    &&& d.len() > 0
    &&& forall|i: int| 0 <= i < d.len() ==> is_dec_digit(#[trigger] d[i])
    &&& dec_value(d) < 65536
}

/// The value of a string accepted by [`is_u16_string`].
pub open spec fn u16_string_value(s: Seq<char>) -> int {
    dec_value(unsigned_digits(s))
}

/// A sequence of decimal digits has a non-negative value.
proof fn lemma_dec_value_nonneg(s: Seq<char>)
    requires
        forall|i: int| 0 <= i < s.len() ==> is_dec_digit(#[trigger] s[i]),
    ensures
        dec_value(s) >= 0,
    decreases s.len(),
{
    if s.len() > 0 {
        lemma_dec_value_nonneg(s.drop_last());
    }
}

/// Appending further digits never decreases the value of a digit string.
proof fn lemma_dec_value_grows(s: Seq<char>, start: int, mid: int, end: int)
    requires
        0 <= start <= mid <= end <= s.len(),
        forall|k: int| start <= k < mid ==> is_dec_digit(#[trigger] s[k]),
    ensures
        (forall|k: int| mid <= k < end ==> is_dec_digit(#[trigger] s[k])) ==> dec_value(
            s.subrange(start, end),
        ) >= dec_value(s.subrange(start, mid)),
    decreases end - mid,
{
    if mid < end {
        if is_dec_digit(s[mid]) {
            lemma_dec_value_grows(s, start, mid + 1, end);
            if forall|k: int| mid + 1 <= k < end ==> is_dec_digit(#[trigger] s[k]) {
                assert(s.subrange(start, mid + 1).drop_last() =~= s.subrange(start, mid));
                assert(s.subrange(start, mid + 1).last() == s[mid]);
                lemma_dec_value_nonneg(s.subrange(start, mid));
            }
        }
    } else {
        assert(s.subrange(start, end) =~= s.subrange(start, mid));
    }
}

/// Parse a feature number as std parses a `u16`: optional `+`, then decimal
/// digits. Anything else, and any value at or above 2^16, yields `None`.
pub fn parse_u16(s: &str) -> (r: Option<u16>)
    ensures
        match r {
            Some(v) => is_u16_string(s@) && v as int == u16_string_value(s@),
            None => !is_u16_string(s@),
        },
{
    let n = s.unicode_len();
    let mut start: usize = 0;
    if n > 0 && s.get_char(0) == '+' {
        start = 1;
    }
    if start >= n {
        // no digits at all
        return None;
    }
    let ghost d = unsigned_digits(s@);
    proof {
        assert(d =~= s@.subrange(start as int, n as int));
    }
    let mut value: u32 = 0;
    let mut i: usize = start;
    while i < n
        invariant
            start <= i <= n,
            n == s@.len(),
            start == 1 ==> s@[0] == '+',
            start == 0 || start == 1,
            d == unsigned_digits(s@),
            d =~= s@.subrange(start as int, n as int),
            forall|k: int| start <= k < i ==> is_dec_digit(#[trigger] s@[k]),
            value < 65536,
            value as int == dec_value(s@.subrange(start as int, i as int)),
        decreases n - i,
    {
        let c = s.get_char(i);
        if !('0' <= c && c <= '9') {
            proof {
                // the offending character refutes acceptance
                assert(d[i - start] == s@[i as int]);
                assert(!is_dec_digit(d[i - start]));
            }
            return None;
        }
        let digit: u32 = (c as u32) - 48;
        let next: u32 = value * 10 + digit;
        proof {
            assert(s@.subrange(start as int, i + 1).drop_last() =~= s@.subrange(
                start as int,
                i as int,
            ));
            assert(s@.subrange(start as int, i + 1).last() == s@[i as int]);
            assert(dec_value(s@.subrange(start as int, i + 1)) == next as int);
        }
        if next > 65535 {
            proof {
                if is_u16_string(s@) {
                    assert forall|k: int| i + 1 <= k < n implies is_dec_digit(
                        #[trigger] s@[k],
                    ) by {
                        assert(is_dec_digit(d[k - start]));
                        assert(d[k - start] == s@[k]);
                    }
                    lemma_dec_value_grows(s@, start as int, i + 1, n as int);
                    assert(dec_value(d) == dec_value(s@.subrange(start as int, n as int)));
                    assert(false);
                }
            }
            return None;
        }
        value = next;
        i = i + 1;
    }
    proof {
        assert(s@.subrange(start as int, n as int) =~= d);
        assert forall|j: int| 0 <= j < d.len() implies is_dec_digit(#[trigger] d[j]) by {
            assert(d[j] == s@[j + start]);
        }
    }
    Some(value as u16)
}

/// Strict lexicographic order on strings, by character scalar value: the
/// order std's `Ord` on `String` gives.
pub open spec fn lex_less(a: Seq<char>, b: Seq<char>) -> bool
    decreases a.len(),
{
    if b.len() == 0 {
        false
    } else if a.len() == 0 {
        true
    } else if (a[0] as u32) != (b[0] as u32) {
        (a[0] as u32) < (b[0] as u32)
    } else {
        lex_less(a.skip(1), b.skip(1))
    }
}

/// Characters are their scalar values: equal exactly when the values are.
proof fn lemma_char_value_eq(c1: char, c2: char)
    ensures
        c1 == c2 <==> c1 as u32 == c2 as u32,
{
}

/// Lexicographic order is a strict total order: of two strings, exactly one
/// is smaller, unless they are equal.
pub proof fn lemma_lex_total(a: Seq<char>, b: Seq<char>)
    ensures
        lex_less(a, b) ==> !lex_less(b, a) && a != b,
        !lex_less(a, b) && !lex_less(b, a) ==> a == b,
    decreases a.len(),
{
    if a.len() == 0 && b.len() == 0 {
        assert(a =~= b);
    } else if a.len() == 0 {
        assert(lex_less(a, b));
        assert(a.len() != b.len());
    } else if b.len() == 0 {
        assert(lex_less(b, a));
        assert(a.len() != b.len());
    } else if (a[0] as u32) == (b[0] as u32) {
        lemma_lex_total(a.skip(1), b.skip(1));
        assert(lex_less(a, b) == lex_less(a.skip(1), b.skip(1)));
        assert(lex_less(b, a) == lex_less(b.skip(1), a.skip(1)));
        if !lex_less(a, b) && !lex_less(b, a) {
            assert(a.skip(1) == b.skip(1));
            assert(a.skip(1).len() == b.skip(1).len());
            assert(a.len() == b.len());
            lemma_char_value_eq(a[0], b[0]);
            assert forall|k: int| 0 <= k < a.len() implies a[k] == b[k] by {
                if k >= 1 {
                    assert(a.skip(1)[k - 1] == a[k]);
                    assert(b.skip(1)[k - 1] == b[k]);
                }
            }
            assert(a =~= b);
        }
        if a == b {
            assert(a.skip(1) =~= b.skip(1));
        }
    } else {
        assert(lex_less(a, b) || lex_less(b, a));
        assert(a != b);
    }
}

/// Lexicographic order is transitive.
pub proof fn lemma_lex_trans(a: Seq<char>, b: Seq<char>, c: Seq<char>)
    requires
        lex_less(a, b),
        lex_less(b, c),
    ensures
        lex_less(a, c),
    decreases a.len(),
{
    if a.len() > 0 && b.len() > 0 && (a[0] as u32) == (b[0] as u32) {
        if c.len() > 0 && (b[0] as u32) == (c[0] as u32) {
            lemma_lex_trans(a.skip(1), b.skip(1), c.skip(1));
        }
    }
}

/// Whether `a` comes strictly before `b` in lexicographic order.
pub fn str_lex_less(a: &str, b: &str) -> (r: bool)
    ensures
        r == lex_less(a@, b@),
{
    let na = a.unicode_len();
    let nb = b.unicode_len();
    let mut i: usize = 0;
    proof {
        assert(a@.skip(0) =~= a@);
        assert(b@.skip(0) =~= b@);
    }
    while i < na && i < nb
        invariant
            i <= na,
            i <= nb,
            na == a@.len(),
            nb == b@.len(),
            lex_less(a@, b@) == lex_less(a@.skip(i as int), b@.skip(i as int)),
        decreases na - i,
    {
        let ca = a.get_char(i);
        let cb = b.get_char(i);
        proof {
            assert(a@.skip(i as int)[0] == a@[i as int]);
            assert(b@.skip(i as int)[0] == b@[i as int]);
            assert(a@.skip(i as int).skip(1) =~= a@.skip(i + 1));
            assert(b@.skip(i as int).skip(1) =~= b@.skip(i + 1));
        }
        if ca as u32 != cb as u32 {
            return (ca as u32) < (cb as u32);
        }
        i = i + 1;
    }
    proof {
        if i >= na {
            assert(a@.skip(i as int) =~= Seq::<char>::empty());
        }
        if i >= nb {
            assert(b@.skip(i as int) =~= Seq::<char>::empty());
        }
    }
    na < nb
}

/// The pieces of `s` between commas, as std's `split(',')` yields them:
/// the empty string splits into one empty piece.
pub open spec fn spec_split_commas(s: Seq<char>) -> Seq<Seq<char>>
    decreases s.len(),
{
    if s.len() == 0 {
        seq![Seq::<char>::empty()]
    } else if s[0] == ',' {
        seq![Seq::<char>::empty()] + spec_split_commas(s.skip(1))
    } else {
        let rest = spec_split_commas(s.skip(1));
        seq![seq![s[0]] + rest[0]] + rest.skip(1)
    }
}

/// Splitting always yields at least one piece.
pub proof fn lemma_split_commas_len(s: Seq<char>)
    ensures
        spec_split_commas(s).len() >= 1,
    decreases s.len(),
{
    if s.len() > 0 {
        lemma_split_commas_len(s.skip(1));
    }
}

/// Split `s` at every comma, keeping empty pieces, as std's `split(',')` does.
pub fn split_commas(s: &str) -> (r: Vec<String>)
    ensures
        r.deep_view() == spec_split_commas(s@),
{
    let n = s.unicode_len();
    let mut pieces: Vec<String> = Vec::new();
    let mut piece_start: usize = 0;
    let mut i: usize = 0;
    proof {
        lemma_split_commas_len(s@);
        let whole = spec_split_commas(s@);
        assert(s@.skip(0) =~= s@);
        assert(seq![whole[0]] + whole.skip(1) =~~= whole);
        assert(pieces.deep_view() =~~= Seq::<Seq<char>>::empty());
        assert(s@.subrange(0, 0) =~= Seq::<char>::empty());
    }
    while i < n
        invariant
            piece_start <= i <= n,
            n == s@.len(),
            spec_split_commas(s@) =~~= ({
                let tail = spec_split_commas(s@.skip(i as int));
                pieces.deep_view() + seq![s@.subrange(piece_start as int, i as int) + tail[0]]
                    + tail.skip(1)
            }),
        decreases n - i,
    {
        proof {
            lemma_split_commas_len(s@.skip(i + 1));
        }
        let ghost tail_i = spec_split_commas(s@.skip(i as int));
        let ghost tail_next = spec_split_commas(s@.skip(i + 1));
        proof {
            assert(s@.skip(i as int).len() > 0);
            assert(s@.skip(i as int)[0] == s@[i as int]);
            assert(s@.skip(i as int).skip(1) =~= s@.skip(i + 1));
        }
        let c = s.get_char(i);
        if c == ',' {
            let ghost old_dv = pieces.deep_view();
            let piece = String::from_str(s.substring_char(piece_start, i));
            pieces.push(piece);
            proof {
                assert(pieces.deep_view() =~~= old_dv + seq![
                    s@.subrange(piece_start as int, i as int),
                ]);
                assert(tail_i =~~= seq![Seq::<char>::empty()] + tail_next);
                assert(tail_i[0] =~= Seq::<char>::empty());
                assert(tail_i.skip(1) =~~= tail_next);
                assert(seq![tail_next[0]] + tail_next.skip(1) =~~= tail_next);
                assert(s@.subrange(piece_start as int, i as int) + tail_i[0] =~= s@.subrange(
                    piece_start as int,
                    i as int,
                ));
                assert(s@.subrange(i + 1, i + 1) =~= Seq::<char>::empty());
            }
            piece_start = i + 1;
        } else {
            proof {
                assert(tail_i =~~= seq![seq![s@[i as int]] + tail_next[0]] + tail_next.skip(1));
                assert(tail_i[0] =~= seq![s@[i as int]] + tail_next[0]);
                assert(tail_i.skip(1) =~~= tail_next.skip(1));
                assert(s@.subrange(piece_start as int, i + 1) =~= s@.subrange(
                    piece_start as int,
                    i as int,
                ) + seq![s@[i as int]]);
            }
        }
        i = i + 1;
    }
    proof {
        assert(s@.skip(n as int) =~= Seq::<char>::empty());
        let tail = spec_split_commas(s@.skip(n as int));
        assert(tail =~~= seq![Seq::<char>::empty()]);
    }
    let ghost old_dv = pieces.deep_view();
    let last_piece = String::from_str(s.substring_char(piece_start, n));
    pieces.push(last_piece);
    proof {
        assert(pieces.deep_view() =~~= old_dv + seq![s@.subrange(piece_start as int, n as int)]);
        assert(pieces.deep_view() =~~= spec_split_commas(s@));
    }
    pieces
}

} // verus!
