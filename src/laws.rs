//! Laws relating parsing, shifting and serialising.
use crate::subrip::{
    arrow, blank_from, block_fits, block_ok, shift_blocks, shift_fits, shifted, blocks_ok, body_ok, fits, block_text, char_at, decimal, digit_char, digit_value, digits_end, digits_value,
    is_digit, pad2, pad3, serialize_from, spec_blocks, spec_block, spec_entry, spec_number,
    spec_parse, spec_serialize, spec_timestamp, timestamp_text, timestamp_value, lit_at, SpecBlock,
};
use vstd::arithmetic::div_mod::lemma_div_denominator;
use vstd::prelude::*;

verus! {

/// The run of digits from `k` ends at `e` where every character before `e` is a
/// digit and the one at `e` is not.
proof fn lemma_digits_end(s: Seq<char>, k: int, e: int)
    requires
        0 <= k <= e <= s.len(),
        forall|j: int| k <= j < e ==> is_digit(#[trigger] s[j]),
        e == s.len() || !is_digit(s[e]),
    ensures
        digits_end(s, k) == e,
    decreases e - k,
{
    if k < e {
        lemma_digits_end(s, k + 1, e);
    }
}

/// The character of a digit is a digit of that value.
proof fn lemma_digit_char(d: int)
    requires
        0 <= d < 10,
    ensures
        is_digit(digit_char(d)),
        digit_value(digit_char(d)) == d,
{
    assert('0' as u32 == 48);
    assert('9' as u32 == 57);
}

/// Decimal text is made of digits and reads back as the number it was made from.
proof fn lemma_decimal(n: nat)
    ensures
        decimal(n).len() >= 1,
        forall|j: int| 0 <= j < decimal(n).len() ==> is_digit(#[trigger] decimal(n)[j]),
        digits_value(decimal(n)) == n,
    decreases n,
{
    if n >= 10 {
        lemma_decimal(n / 10);
        lemma_digit_char((n % 10) as int);
        let d = decimal(n);
        assert(d.drop_last() =~= decimal(n / 10));
        assert(d.last() == digit_char((n % 10) as int));
        assert(digits_value(d) == digits_value(decimal(n / 10)) * 10 + digit_value(d.last()));
        assert((n / 10) * 10 + n % 10 == n);
    } else {
        lemma_digit_char(n as int);
        let d = decimal(n);
        assert(d.drop_last() =~= Seq::<char>::empty());
        assert(digits_value(d) == digits_value(d.drop_last()) * 10 + digit_value(d.last()));
    }
}

/// A leading zero does not change the value of digits.
proof fn lemma_leading_zero(d: Seq<char>)
    ensures
        digits_value(seq!['0'] + d) == digits_value(d),
    decreases d.len(),
{
    let z = seq!['0'] + d;
    assert('0' as u32 == 48);
    if d.len() == 0 {
        assert(z.drop_last() =~= Seq::<char>::empty());
        assert(z.last() == '0');
        assert(digits_value(z) == digits_value(z.drop_last()) * 10 + digit_value(z.last()));
    } else {
        assert(z.drop_last() =~= seq!['0'] + d.drop_last());
        assert(z.last() == d.last());
        lemma_leading_zero(d.drop_last());
        assert(digits_value(z) == digits_value(z.drop_last()) * 10 + digit_value(z.last()));
    }
}


/// Digits `d`, followed by a text that does not start with a digit, read as their value.
proof fn lemma_number_in(p: Seq<char>, d: Seq<char>, r: Seq<char>)
    requires
        d.len() >= 1,
        forall|j: int| 0 <= j < d.len() ==> is_digit(#[trigger] d[j]),
        r.len() == 0 || !is_digit(r[0]),
        digits_value(d) <= u64::MAX,
    ensures
        spec_number(p + d + r, p.len() as int) == Some((digits_value(d), (p.len() + d.len()) as int)),
{
    let s = p + d + r;
    let e = (p.len() + d.len()) as int;
    assert forall|j: int| p.len() <= j < e implies is_digit(#[trigger] s[j]) by {
        assert(s[j] == d[j - p.len()]);
    }
    if e < s.len() {
        assert(s[e] == r[0]);
    }
    lemma_digits_end(s, p.len() as int, e);
    assert(s.subrange(p.len() as int, e) =~= d);
}

/// Padded decimal text is made of digits and reads back as its number.
proof fn lemma_padded(n: nat)
    ensures
        pad2(n).len() >= 1,
        forall|j: int| 0 <= j < pad2(n).len() ==> is_digit(#[trigger] pad2(n)[j]),
        digits_value(pad2(n)) == n,
        pad3(n).len() >= 1,
        forall|j: int| 0 <= j < pad3(n).len() ==> is_digit(#[trigger] pad3(n)[j]),
        digits_value(pad3(n)) == n,
{
    lemma_decimal(n);
    lemma_leading_zero(decimal(n));
    lemma_leading_zero(seq!['0'] + decimal(n));
    assert(seq!['0', '0'] + decimal(n) =~= seq!['0'] + (seq!['0'] + decimal(n)));
    assert('0' as u32 == 48);
    assert forall|j: int| 0 <= j < pad2(n).len() implies is_digit(#[trigger] pad2(n)[j]) by {
        if n < 10 && j > 0 {
            assert(pad2(n)[j] == decimal(n)[j - 1]);
        }
    }
    assert forall|j: int| 0 <= j < pad3(n).len() implies is_digit(#[trigger] pad3(n)[j]) by {
        if n < 10 && j > 1 {
            assert(pad3(n)[j] == decimal(n)[j - 2]);
        } else if 10 <= n < 100 && j > 0 {
            assert(pad3(n)[j] == decimal(n)[j - 1]);
        }
    }
}

/// A timestamp is the sum of its hours, minutes, seconds and milliseconds.
proof fn lemma_timestamp_parts(v: nat)
    ensures
        timestamp_value(
            (v / 3_600_000) as int,
            (v / 60_000 % 60) as int,
            (v / 1000 % 60) as int,
            (v % 1000) as int,
        ) == v,
{
    let a = v as int / 1000;
    let b = a / 60;
    lemma_div_denominator(v as int, 1000, 60);
    lemma_div_denominator(v as int, 60_000, 60);
    assert(v as int / 60_000 == b);
    assert(v as int / 3_600_000 == b / 60);
    assert(v == a * 1000 + v % 1000);
    assert(a == b * 60 + a % 60);
    assert(b == (b / 60) * 60 + b % 60);
}

/// Digits `d` and then a character `c` that is not a digit: the number, and `c`
/// right after it.
proof fn lemma_field(p: Seq<char>, d: Seq<char>, c: char, r: Seq<char>)
    requires
        d.len() >= 1,
        forall|j: int| 0 <= j < d.len() ==> is_digit(#[trigger] d[j]),
        !is_digit(c),
        digits_value(d) <= u64::MAX,
    ensures
        spec_number(p + d + seq![c] + r, p.len() as int) == Some(
            (digits_value(d), (p.len() + d.len()) as int),
        ),
        char_at(p + d + seq![c] + r, (p.len() + d.len()) as int, c),
{
    let s = p + d + seq![c] + r;
    assert(s =~= p + d + (seq![c] + r));
    lemma_number_in(p, d, seq![c] + r);
    assert(s[(p.len() + d.len()) as int] == c);
}

/// The text of a timestamp, followed by a text that does not start with a digit,
/// reads back as that timestamp.
#[verifier::rlimit(100)]
#[verifier::spinoff_prover]
proof fn lemma_timestamp_in(p: Seq<char>, v: nat, r: Seq<char>)
    requires
        v <= u64::MAX,
        r.len() == 0 || !is_digit(r[0]),
    ensures
        spec_timestamp(p + timestamp_text(v) + r, p.len() as int) == Some(
            (v as int, (p.len() + timestamp_text(v).len()) as int),
        ),
{
    let h = v / 3_600_000;
    let m = v / 60_000 % 60;
    let sec = v / 1000 % 60;
    let ms = v % 1000;
    let s = p + timestamp_text(v) + r;
    let p1 = p + pad2(h) + seq![':'];
    let p2 = p1 + pad2(m) + seq![':'];
    let p3 = p2 + pad2(sec) + seq![','];
    let a = (p.len() + pad2(h).len()) as int;
    let b = (p1.len() + pad2(m).len()) as int;
    let c = (p2.len() + pad2(sec).len()) as int;
    let e = (p3.len() + pad3(ms).len()) as int;
    assert(':' as u32 == 58 && ',' as u32 == 44);
    assert(spec_number(s, p.len() as int) == Some((h as int, a)) && char_at(s, a, ':')) by {
        lemma_padded(h);
        let rest = pad2(m) + seq![':'] + pad2(sec) + seq![','] + pad3(ms) + r;
        assert(s =~= p + pad2(h) + seq![':'] + rest);
        lemma_field(p, pad2(h), ':', rest);
    }
    assert(spec_number(s, a + 1) == Some((m as int, b)) && char_at(s, b, ':')) by {
        lemma_padded(m);
        let rest = pad2(sec) + seq![','] + pad3(ms) + r;
        assert(s =~= p1 + pad2(m) + seq![':'] + rest);
        lemma_field(p1, pad2(m), ':', rest);
    }
    assert(spec_number(s, b + 1) == Some((sec as int, c)) && char_at(s, c, ',')) by {
        lemma_padded(sec);
        let rest = pad3(ms) + r;
        assert(s =~= p2 + pad2(sec) + seq![','] + rest);
        lemma_field(p2, pad2(sec), ',', rest);
    }
    assert(spec_number(s, c + 1) == Some((ms as int, e))) by {
        lemma_padded(ms);
        assert(s =~= p3 + pad3(ms) + r);
        lemma_number_in(p3, pad3(ms), r);
    }
    lemma_timestamp_parts(v);
    assert(e == p.len() + timestamp_text(v).len());
}


/// The first blank line is found where every earlier position starts none.
proof fn lemma_blank_walk(s: Seq<char>, j: int, e: int)
    requires
        0 <= j <= e,
        e + 1 < s.len(),
        s[e] == '\n' && s[e + 1] == '\n',
        forall|i: int| j <= i < e ==> !(#[trigger] s[i] == '\n' && s[i + 1] == '\n'),
    ensures
        blank_from(s, j) == Some(e),
    decreases e - j,
{
    if j < e {
        lemma_blank_walk(s, j + 1, e);
    }
}

/// What a found blank line tells: two newlines there, and none earlier.
proof fn lemma_blank_found(s: Seq<char>, j: int)
    requires
        blank_from(s, j) is Some,
    ensures
        j <= blank_from(s, j)->0,
        blank_from(s, j)->0 + 1 < s.len(),
        s[blank_from(s, j)->0] == '\n' && s[blank_from(s, j)->0 + 1] == '\n',
        forall|i: int|
            j <= i < blank_from(s, j)->0 ==> !(#[trigger] s[i] == '\n' && s[i + 1] == '\n'),
    decreases s.len() - j,
{
    if !(s[j] == '\n' && s[j + 1] == '\n') {
        lemma_blank_found(s, j + 1);
    }
}

/// A block's text followed by a blank line ends at that blank line.
proof fn lemma_blank_in(p: Seq<char>, c: Seq<char>, r: Seq<char>)
    requires
        body_ok(c),
    ensures
        blank_from(p + c + seq!['\n', '\n'] + r, p.len() as int) == Some((p.len() + c.len()) as int),
{
    let s = p + c + seq!['\n', '\n'] + r;
    let e = (p.len() + c.len()) as int;
    assert forall|i: int| p.len() <= i < e implies !(#[trigger] s[i] == '\n' && s[i + 1] == '\n') by {
        assert(s[i] == c[i - p.len()]);
        if i + 1 < e {
            assert(s[i + 1] == c[i + 1 - p.len()]);
        } else {
            assert(c.last() == s[i]);
        }
    }
    lemma_blank_walk(s, p.len() as int, e);
}

/// A block's text, after its index line and before anything, reads back as the block.
#[verifier::rlimit(100)]
#[verifier::spinoff_prover]
proof fn lemma_block_in(p: Seq<char>, b: SpecBlock, r: Seq<char>)
    requires
        block_ok(b),
    ensures
        ({
            let t = timestamp_text(b.0 as nat) + arrow() + timestamp_text(b.1 as nat) + seq!['\n']
                + b.2 + seq!['\n', '\n'];
            spec_block(p + t + r, p.len() as int) == Some((b, (p.len() + t.len()) as int))
        }),
{
    let t1 = timestamp_text(b.0 as nat);
    let t2 = timestamp_text(b.1 as nat);
    let t = t1 + arrow() + t2 + seq!['\n'] + b.2 + seq!['\n', '\n'];
    let s = p + t + r;
    let a = (p.len() + t1.len()) as int;
    let p1 = p + t1 + arrow();
    let c = (p1.len() + t2.len()) as int;
    let p2 = p1 + t2 + seq!['\n'];
    let e = (p2.len() + b.2.len()) as int;
    assert(' ' as u32 == 32 && '\n' as u32 == 10);
    assert(spec_timestamp(s, p.len() as int) == Some((b.0, a))) by {
        let rest = arrow() + t2 + seq!['\n'] + b.2 + seq!['\n', '\n'] + r;
        assert(s =~= p + t1 + rest);
        assert(rest[0] == ' ');
        lemma_timestamp_in(p, b.0 as nat, rest);
    }
    assert(lit_at(s, a, arrow())) by {
        assert(s.subrange(a, a + 5) =~= arrow());
    }
    assert(spec_timestamp(s, a + 5) == Some((b.1, c)) && char_at(s, c, '\n')) by {
        let rest = seq!['\n'] + b.2 + seq!['\n', '\n'] + r;
        assert(s =~= p1 + t2 + rest);
        assert(rest[0] == '\n');
        lemma_timestamp_in(p1, b.1 as nat, rest);
    }
    assert(blank_from(s, c + 1) == Some(e)) by {
        assert(s =~= p2 + b.2 + seq!['\n', '\n'] + r);
        lemma_blank_in(p2, b.2, r);
    }
    assert(s.subrange(c + 1, e) =~= b.2);
}


/// A whole block's text, numbered `n`, reads back as the block.
#[verifier::rlimit(60)]
#[verifier::spinoff_prover]
proof fn lemma_entry_in(p: Seq<char>, n: nat, b: SpecBlock, r: Seq<char>)
    requires
        block_ok(b),
        n <= u64::MAX,
    ensures
        spec_entry(p + block_text(n, b) + r, p.len() as int) == Some(
            (b, (p.len() + block_text(n, b).len()) as int),
        ),
{
    let d = decimal(n);
    let t = timestamp_text(b.0 as nat) + arrow() + timestamp_text(b.1 as nat) + seq!['\n'] + b.2
        + seq!['\n', '\n'];
    let s = p + block_text(n, b) + r;
    let a = (p.len() + d.len()) as int;
    assert('\n' as u32 == 10);
    assert(spec_number(s, p.len() as int) == Some((n as int, a)) && char_at(s, a, '\n')) by {
        lemma_decimal(n);
        assert(s =~= p + d + seq!['\n'] + (t + r));
        lemma_field(p, d, '\n', t + r);
    }
    let p1 = p + d + seq!['\n'];
    assert(s =~= p1 + t + r);
    lemma_block_in(p1, b, r);
}

/// The text of the blocks `bs`, numbered from `n`, reads back as `bs` to its end.
proof fn lemma_blocks_in(p: Seq<char>, bs: Seq<SpecBlock>, n: nat)
    requires
        blocks_ok(bs),
        n + bs.len() <= u64::MAX + 1,
    ensures
        spec_blocks(p + serialize_from(bs, n), p.len() as int) == (bs, (p + serialize_from(bs, n)).len() as int),
    decreases bs.len(),
{
    let s = p + serialize_from(bs, n);
    if bs.len() == 0 {
        assert(s =~= p);
        assert(digits_end(s, p.len() as int) == p.len());
    } else {
        let b = bs[0];
        let rest = bs.drop_first();
        assert(block_ok(b));
        assert(blocks_ok(rest)) by {
            assert forall|k: int| 0 <= k < rest.len() implies #[trigger] block_ok(rest[k]) by {
                assert(rest[k] == bs[k + 1]);
            }
        }
        let p1 = p + block_text(n, b);
        assert(s =~= p1 + serialize_from(rest, n + 1));
        lemma_entry_in(p, n, b, serialize_from(rest, n + 1));
        lemma_blocks_in(p1, rest, n + 1);
        assert(seq![b] + rest =~= bs);
    }
}

/// Every sequence of blocks whose timestamps fit and whose texts hold no blank line,
/// whatever the order of their timestamps (a start after its end included), is read
/// back from its text as the same blocks in the same order.
pub proof fn lemma_parse_serialized(bs: Seq<SpecBlock>)
    requires
        blocks_ok(bs),
        bs.len() <= u64::MAX,
    ensures
        spec_parse(spec_serialize(bs)) == Some(bs),
{
    let e = Seq::<char>::empty();
    assert(e + spec_serialize(bs) =~= spec_serialize(bs));
    lemma_blocks_in(e, bs, 1);
}


/// Digits never make a negative value.
proof fn lemma_digits_value_nonneg(d: Seq<char>)
    ensures
        digits_value(d) >= 0,
    decreases d.len(),
{
    if d.len() > 0 {
        lemma_digits_value_nonneg(d.drop_last());
    }
}

/// A timestamp read from text is never negative.
proof fn lemma_timestamp_nonneg(s: Seq<char>, k: int)
    requires
        spec_timestamp(s, k) is Some,
    ensures
        (spec_timestamp(s, k)->0).0 >= 0,
{
    let (_, a) = spec_number(s, k)->0;
    let (_, b) = spec_number(s, a + 1)->0;
    let (_, c) = spec_number(s, b + 1)->0;
    let (_, e) = spec_number(s, c + 1)->0;
    lemma_digits_value_nonneg(s.subrange(k, a));
    lemma_digits_value_nonneg(s.subrange(a + 1, b));
    lemma_digits_value_nonneg(s.subrange(b + 1, c));
    lemma_digits_value_nonneg(s.subrange(c + 1, e));
}

/// A block read from text has timestamps that fit and a text that reads back.
proof fn lemma_entry_ok(s: Seq<char>, k: int)
    requires
        spec_entry(s, k) is Some,
    ensures
        block_ok((spec_entry(s, k)->0).0),
{
    let a = (spec_number(s, k)->0).1;
    let i = a + 1;
    lemma_timestamp_nonneg(s, i);
    let a1 = (spec_timestamp(s, i)->0).1;
    lemma_timestamp_nonneg(s, a1 + 5);
    let c = (spec_timestamp(s, a1 + 5)->0).1;
    lemma_blank_found(s, c + 1);
    let e = blank_from(s, c + 1)->0;
    let body = s.subrange(c + 1, e);
    assert forall|j: int| 0 <= j < body.len() - 1 implies !(#[trigger] body[j] == '\n' && body[j
        + 1] == '\n') by {
        assert(body[j] == s[c + 1 + j] && body[j + 1] == s[c + 1 + j + 1]);
    }
    if body.len() > 0 {
        assert(body.last() == s[e - 1]);
    }
}

/// The blocks read from `k` on all read back, and there are no more of them than
/// characters were used.
proof fn lemma_blocks_ok(s: Seq<char>, k: int)
    requires
        0 <= k <= s.len(),
    ensures
        blocks_ok(spec_blocks(s, k).0),
        k + spec_blocks(s, k).0.len() <= spec_blocks(s, k).1,
    decreases s.len() - k,
{
    match spec_entry(s, k) {
        Some((b, j)) => if k < j <= s.len() {
            lemma_entry_ok(s, k);
            lemma_blocks_ok(s, j);
            let rest = spec_blocks(s, j).0;
            let all = seq![b] + rest;
            assert forall|i: int| 0 <= i < all.len() implies #[trigger] block_ok(all[i]) by {
                if i > 0 {
                    assert(all[i] == rest[i - 1]);
                }
            }
        },
        None => {},
    }
}

/// A subtitle file that reads, written out again, reads as the same blocks in the
/// same order.
pub proof fn lemma_round_trip(s: Seq<char>)
    requires
        spec_parse(s) is Some,
        s.len() <= u64::MAX,
    ensures
        spec_parse(spec_serialize(spec_parse(s)->0)) == spec_parse(s),
{
    lemma_blocks_ok(s, 0);
    lemma_parse_serialized(spec_parse(s)->0);
}

/// Shifting by a zero duration, forwards or backwards, always succeeds and moves no
/// timestamp.
pub proof fn lemma_shift_identity(bs: Seq<SpecBlock>, negative: bool)
    requires
        forall|k: int| 0 <= k < bs.len() ==> fits(#[trigger] bs[k].0) && fits(bs[k].1),
    ensures
        shift_fits(bs, (negative, 0)),
        shift_blocks(bs, (negative, 0)) == bs,
{
    assert forall|k: int| 0 <= k < bs.len() implies #[trigger] block_fits(bs[k], (negative, 0)) by {
        assert(fits(bs[k].0));
    }
    assert(shift_blocks(bs, (negative, 0)) =~= bs);
}

/// Shifting by a duration and then by the same duration the other way, where the
/// first shift succeeds, succeeds and gives every timestamp back its first value.
pub proof fn lemma_shift_inverse(bs: Seq<SpecBlock>, negative: bool, d: int)
    requires
        forall|k: int| 0 <= k < bs.len() ==> fits(#[trigger] bs[k].0) && fits(bs[k].1),
        0 <= d <= u64::MAX,
        shift_fits(bs, (negative, d)),
    ensures
        shift_fits(shift_blocks(bs, (negative, d)), (!negative, d)),
        shift_blocks(shift_blocks(bs, (negative, d)), (!negative, d)) == bs,
{
    let once = shift_blocks(bs, (negative, d));
    let back = (!negative, d);
    assert forall|k: int| 0 <= k < once.len() implies #[trigger] block_fits(once[k], back) by {
        assert(fits(bs[k].0));
        assert(block_fits(bs[k], (negative, d)));
    }
    assert(shift_blocks(once, back) =~= bs);
}

/// A shift that succeeds keeps every block readable from its text.
proof fn lemma_shift_keeps_blocks_ok(bs: Seq<SpecBlock>, sh: (bool, int))
    requires
        blocks_ok(bs),
        shift_fits(bs, sh),
    ensures
        blocks_ok(shift_blocks(bs, sh)),
{
    let moved = shift_blocks(bs, sh);
    assert forall|k: int| 0 <= k < moved.len() implies #[trigger] block_ok(moved[k]) by {
        assert(block_ok(bs[k]));
        assert(block_fits(bs[k], sh));
    }
}


/// A non-empty text without the arrow between two timestamps is never read as a
/// subtitle file.
pub proof fn lemma_needs_arrow(s: Seq<char>)
    requires
        s.len() > 0,
        forall|k: int| !lit_at(s, k, arrow()),
    ensures
        spec_parse(s) is None,
{
    if spec_parse(s) is Some {
        let e = spec_entry(s, 0);
        assert(e is Some);
        let a = (spec_number(s, 0)->0).1;
        let t = (spec_timestamp(s, a + 1)->0).1;
        assert(lit_at(s, t, arrow()));
    }
}


/// A block read from text ends with a blank line.
proof fn lemma_entry_ends_blank(s: Seq<char>, k: int)
    requires
        spec_entry(s, k) is Some,
    ensures
        ({
            let j = (spec_entry(s, k)->0).1;
            2 <= j <= s.len() && s[j - 2] == '\n' && s[j - 1] == '\n'
        }),
{
    let a = (spec_number(s, k)->0).1;
    let a1 = (spec_timestamp(s, a + 1)->0).1;
    let c = (spec_timestamp(s, a1 + 5)->0).1;
    lemma_blank_found(s, c + 1);
}

/// Reading blocks stops where it started, or right after a blank line.
proof fn lemma_blocks_end(s: Seq<char>, k: int)
    requires
        0 <= k <= s.len(),
    ensures
        ({
            let e = spec_blocks(s, k).1;
            e == k || (2 <= e <= s.len() && s[e - 2] == '\n' && s[e - 1] == '\n')
        }),
    decreases s.len() - k,
{
    match spec_entry(s, k) {
        Some((_, j)) => if k < j <= s.len() {
            lemma_entry_ends_blank(s, k);
            lemma_blocks_end(s, j);
        },
        None => {},
    }
}

/// A non-empty text that does not end with a blank line, as the text of its last
/// block must, is never read as a subtitle file.
pub proof fn lemma_needs_terminated_body(s: Seq<char>)
    requires
        s.len() > 0,
        !(s.len() >= 2 && s[s.len() - 2] == '\n' && s[s.len() - 1] == '\n'),
    ensures
        spec_parse(s) is None,
{
    lemma_blocks_end(s, 0);
}


/// A subtitle file that reads, shifted with success and written out, reads as the
/// shifted blocks in the same order.
pub proof fn lemma_shifted_round_trip(s: Seq<char>, sh: (bool, int))
    requires
        spec_parse(s) is Some,
        s.len() <= u64::MAX,
        shift_fits(spec_parse(s)->0, sh),
    ensures
        spec_parse(spec_serialize(shift_blocks(spec_parse(s)->0, sh))) == Some(
            shift_blocks(spec_parse(s)->0, sh),
        ),
{
    lemma_blocks_ok(s, 0);
    lemma_shift_keeps_blocks_ok(spec_parse(s)->0, sh);
    lemma_parse_serialized(shift_blocks(spec_parse(s)->0, sh));
}


/// A run of digits ends between where it starts and the end of the text.
proof fn lemma_digits_end_bounds(s: Seq<char>, k: int)
    requires
        0 <= k <= s.len(),
    ensures
        k <= digits_end(s, k) <= s.len(),
    decreases s.len() - k,
{
    if k < s.len() && is_digit(s[k]) {
        lemma_digits_end_bounds(s, k + 1);
    }
}

/// A run of digits that ends inside `a` ends at the same place after `a` is extended.
proof fn lemma_digits_end_ext(a: Seq<char>, b: Seq<char>, k: int)
    requires
        0 <= k <= a.len(),
        digits_end(a, k) < a.len(),
    ensures
        digits_end(a + b, k) == digits_end(a, k),
    decreases a.len() - k,
{
    if k < a.len() && is_digit(a[k]) {
        lemma_digits_end_ext(a, b, k + 1);
    }
}

/// A run of digits does not depend on what stands before it.
proof fn lemma_digits_end_pre(p: Seq<char>, s: Seq<char>, k: int)
    requires
        0 <= k <= s.len(),
    ensures
        digits_end(p + s, p.len() + k) == p.len() + digits_end(s, k),
    decreases s.len() - k,
{
    if k < s.len() && is_digit(s[k]) {
        lemma_digits_end_pre(p, s, k + 1);
    }
}

/// A number that ends inside `a` is read the same after `a` is extended.
proof fn lemma_number_ext(a: Seq<char>, b: Seq<char>, k: int)
    requires
        0 <= k <= a.len(),
        spec_number(a, k) is Some,
        (spec_number(a, k)->0).1 < a.len(),
    ensures
        spec_number(a + b, k) == spec_number(a, k),
{
    lemma_digits_end_ext(a, b, k);
    lemma_digits_end_bounds(a, k);
    let e = digits_end(a, k);
    assert((a + b).subrange(k, e) =~= a.subrange(k, e));
}

/// A number does not depend on what stands before it.
proof fn lemma_number_pre(p: Seq<char>, s: Seq<char>, k: int)
    requires
        0 <= k <= s.len(),
    ensures
        spec_number(p + s, p.len() + k) == match spec_number(s, k) {
            Some((v, e)) => Some((v, p.len() + e)),
            None => None,
        },
{
    lemma_digits_end_pre(p, s, k);
    lemma_digits_end_bounds(s, k);
    let e = digits_end(s, k);
    if e != k {
        assert((p + s).subrange(p.len() + k, p.len() + e) =~= s.subrange(k, e));
    }
}

/// A blank line found in `a` is found the same after `a` is extended.
proof fn lemma_blank_ext(a: Seq<char>, b: Seq<char>, k: int)
    requires
        blank_from(a, k) is Some,
    ensures
        blank_from(a + b, k) == blank_from(a, k),
    decreases a.len() - k,
{
    if !(a[k] == '\n' && a[k + 1] == '\n') {
        lemma_blank_ext(a, b, k + 1);
    }
}

/// Finding a blank line does not depend on what stands before.
proof fn lemma_blank_pre(p: Seq<char>, s: Seq<char>, k: int)
    requires
        0 <= k,
    ensures
        blank_from(p + s, p.len() + k) == match blank_from(s, k) {
            Some(e) => Some(p.len() + e),
            None => None,
        },
    decreases s.len() - k,
{
    if k + 1 < s.len() && !(s[k] == '\n' && s[k + 1] == '\n') {
        lemma_blank_pre(p, s, k + 1);
    }
}


/// A timestamp ends after where it starts, inside the text.
proof fn lemma_timestamp_bounds(s: Seq<char>, k: int)
    requires
        0 <= k <= s.len(),
        spec_timestamp(s, k) is Some,
    ensures
        k < (spec_timestamp(s, k)->0).1 <= s.len(),
{
    let x = (spec_number(s, k)->0).1;
    let y = (spec_number(s, x + 1)->0).1;
    let z = (spec_number(s, y + 1)->0).1;
    lemma_digits_end_bounds(s, k);
    lemma_digits_end_bounds(s, x + 1);
    lemma_digits_end_bounds(s, y + 1);
    lemma_digits_end_bounds(s, z + 1);
}

/// A timestamp that ends inside `a` is read the same after `a` is extended.
proof fn lemma_timestamp_ext(a: Seq<char>, b: Seq<char>, k: int)
    requires
        0 <= k <= a.len(),
        spec_timestamp(a, k) is Some,
        (spec_timestamp(a, k)->0).1 < a.len(),
    ensures
        spec_timestamp(a + b, k) == spec_timestamp(a, k),
{
    let x = (spec_number(a, k)->0).1;
    let y = (spec_number(a, x + 1)->0).1;
    let z = (spec_number(a, y + 1)->0).1;
    lemma_number_ext(a, b, k);
    lemma_number_ext(a, b, x + 1);
    lemma_number_ext(a, b, y + 1);
    lemma_number_ext(a, b, z + 1);
}

/// A timestamp does not depend on what stands before it.
proof fn lemma_timestamp_pre(p: Seq<char>, s: Seq<char>, k: int)
    requires
        0 <= k <= s.len(),
    ensures
        spec_timestamp(p + s, p.len() + k) == match spec_timestamp(s, k) {
            Some((v, e)) => Some((v, p.len() + e)),
            None => None,
        },
{
    let t = p + s;
    let n = p.len() as int;
    lemma_number_pre(p, s, k);
    if let Some((_, x)) = spec_number(s, k) {
        lemma_digits_end_bounds(s, k);
        if x < s.len() {
            assert(t[n + x] == s[x]);
        }
        if char_at(s, x, ':') {
            lemma_number_pre(p, s, x + 1);
            if let Some((_, y)) = spec_number(s, x + 1) {
                lemma_digits_end_bounds(s, x + 1);
                if y < s.len() {
                    assert(t[n + y] == s[y]);
                }
                if char_at(s, y, ':') {
                    lemma_number_pre(p, s, y + 1);
                    if let Some((_, z)) = spec_number(s, y + 1) {
                        lemma_digits_end_bounds(s, y + 1);
                        if z < s.len() {
                            assert(t[n + z] == s[z]);
                            lemma_number_pre(p, s, z + 1);
                        }
                    }
                }
            }
        }
    }
}

/// A block that reads from `a` reads the same after `a` is extended.
proof fn lemma_entry_ext(a: Seq<char>, b: Seq<char>, k: int)
    requires
        0 <= k <= a.len(),
        spec_entry(a, k) is Some,
    ensures
        spec_entry(a + b, k) == spec_entry(a, k),
{
    let x = (spec_number(a, k)->0).1;
    lemma_number_ext(a, b, k);
    let i = x + 1;
    let y = (spec_timestamp(a, i)->0).1;
    lemma_timestamp_ext(a, b, i);
    assert((a + b).subrange(y, y + 5) =~= a.subrange(y, y + 5));
    let z = (spec_timestamp(a, y + 5)->0).1;
    lemma_timestamp_ext(a, b, y + 5);
    lemma_blank_ext(a, b, z + 1);
    let e = blank_from(a, z + 1)->0;
    lemma_blank_found(a, z + 1);
    assert((a + b).subrange(z + 1, e) =~= a.subrange(z + 1, e));
}

/// A block after its index line does not depend on what stands before it.
#[verifier::rlimit(100)]
#[verifier::spinoff_prover]
proof fn lemma_block_pre(p: Seq<char>, s: Seq<char>, i: int)
    requires
        0 <= i <= s.len(),
    ensures
        spec_block(p + s, p.len() + i) == match spec_block(s, i) {
            Some((v, e)) => Some((v, p.len() + e)),
            None => None,
        },
{
    let t = p + s;
    let n = p.len() as int;
    lemma_timestamp_pre(p, s, i);
    if let Some((_, y)) = spec_timestamp(s, i) {
        lemma_timestamp_bounds(s, i);
        if y + 5 <= s.len() {
            assert(t.subrange(n + y, n + y + 5) =~= s.subrange(y, y + 5));
        }
        if lit_at(s, y, arrow()) {
            lemma_timestamp_pre(p, s, y + 5);
            if let Some((_, z)) = spec_timestamp(s, y + 5) {
                lemma_timestamp_bounds(s, y + 5);
                if z < s.len() {
                    assert(t[n + z] == s[z]);
                }
                if char_at(s, z, '\n') {
                    lemma_blank_pre(p, s, z + 1);
                    if let Some(e) = blank_from(s, z + 1) {
                        lemma_blank_found(s, z + 1);
                        assert(t.subrange(n + z + 1, n + e) =~= s.subrange(z + 1, e));
                    }
                }
            }
        }
    }
}

/// A block does not depend on what stands before it.
proof fn lemma_entry_pre(p: Seq<char>, s: Seq<char>, k: int)
    requires
        0 <= k <= s.len(),
    ensures
        spec_entry(p + s, p.len() + k) == match spec_entry(s, k) {
            Some((v, e)) => Some((v, p.len() + e)),
            None => None,
        },
{
    let t = p + s;
    let n = p.len() as int;
    lemma_number_pre(p, s, k);
    if let Some((_, x)) = spec_number(s, k) {
        lemma_digits_end_bounds(s, k);
        if x < s.len() {
            assert(t[n + x] == s[x]);
        }
        if char_at(s, x, '\n') {
            lemma_block_pre(p, s, x + 1);
        }
    }
}


/// Reading blocks does not depend on what stands before.
proof fn lemma_blocks_pre(p: Seq<char>, s: Seq<char>, k: int)
    requires
        0 <= k <= s.len(),
    ensures
        spec_blocks(p + s, p.len() + k) == (spec_blocks(s, k).0, p.len() + spec_blocks(s, k).1),
    decreases s.len() - k,
{
    lemma_entry_pre(p, s, k);
    if let Some((_, j)) = spec_entry(s, k) {
        if k < j <= s.len() {
            lemma_blocks_pre(p, s, j);
        }
    }
}

/// Blocks that use up `a` are read the same after `a` is extended, and reading
/// then goes on from the end of `a`.
proof fn lemma_blocks_ext(a: Seq<char>, b: Seq<char>, k: int)
    requires
        0 <= k <= a.len(),
        spec_blocks(a, k).1 == a.len(),
    ensures
        spec_blocks(a + b, k) == (
            spec_blocks(a, k).0 + spec_blocks(a + b, a.len() as int).0,
            spec_blocks(a + b, a.len() as int).1,
        ),
    decreases a.len() - k,
{
    let rest = spec_blocks(a + b, a.len() as int);
    if k == a.len() {
        assert(digits_end(a, k) == k);
        assert(Seq::<SpecBlock>::empty() + rest.0 =~= rest.0);
    } else {
        let (blk, j) = spec_entry(a, k)->0;
        lemma_entry_ext(a, b, k);
        lemma_blocks_ext(a, b, j);
        assert(seq![blk] + (spec_blocks(a, j).0 + rest.0) =~= (seq![blk] + spec_blocks(a, j).0)
            + rest.0);
    }
}

/// Two subtitle files written one after the other read as the blocks of the first
/// followed by the blocks of the second: blocks keep the order in which they stand
/// in the text, whatever their timestamps.
pub proof fn lemma_parse_concat(a: Seq<char>, b: Seq<char>)
    requires
        spec_parse(a) is Some,
        spec_parse(b) is Some,
    ensures
        spec_parse(a + b) == Some(spec_parse(a)->0 + spec_parse(b)->0),
{
    lemma_blocks_ext(a, b, 0);
    lemma_blocks_pre(a, b, 0);
}

} // verus!
