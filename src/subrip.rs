//! `SubRip` files: parsing, shifting of timestamps, and serialising.
use vstd::prelude::*;

verus! {

/// A decimal digit.
pub open spec fn is_digit(c: char) -> bool {
    48 <= (c as u32) <= 57
}

/// The value of a decimal digit.
pub open spec fn digit_value(c: char) -> int {
    if is_digit(c) {
        (c as u32) - 48
    } else {
        0
    }
}

/// The value of a string of decimal digits.
pub open spec fn digits_value(d: Seq<char>) -> int
    decreases d.len(),
{
    if d.len() == 0 {
        0
    } else {
        digits_value(d.drop_last()) * 10 + digit_value(d.last())
    }
}

/// The position where the run of digits that starts at `k` ends.
pub open spec fn digits_end(s: Seq<char>, k: int) -> int
    decreases s.len() - k,
{
    if 0 <= k < s.len() && is_digit(s[k]) {
        digits_end(s, k + 1)
    } else {
        k
    }
}

/// An unsigned decimal number at `k`, as many digits as there are: its value and
/// the position after it. There is none where no digit stands at `k`, nor where
/// the value does not fit in a `u64`.
pub open spec fn spec_number(s: Seq<char>, k: int) -> Option<(int, int)> {
    let e = digits_end(s, k);
    if e == k {
        None
    } else {
        let v = digits_value(s.subrange(k, e));
        if v <= u64::MAX {
            Some((v, e))
        } else {
            None
        }
    }
}

/// A failure to read the subtitle grammar, with the position where it was found.
#[derive(Debug, Clone, Copy, PartialEq, Eq)]
pub struct GrammarError {
    /// Position, in characters from the start of the input.
    pub at: usize,
}

/// Reads an unsigned decimal number at `i`.
fn parse_number(s: &Vec<char>, i: usize) -> (r: Result<(u64, usize), GrammarError>)
    requires
        i <= s@.len(),
    ensures
        match r {
            Ok((v, j)) => spec_number(s@, i as int) == Some((v as int, j as int)) && i < j
                <= s@.len(),
            Err(_) => spec_number(s@, i as int) is None,
        },
{
    let mut j: usize = i;
    let mut v: u64 = 0;
    let mut overflow = false;
    while j < s.len() && is_digit_char(s[j])
        invariant
            i <= j <= s@.len(),
            digits_end(s@, i as int) == digits_end(s@, j as int),
            forall|k: int| i <= k < j ==> is_digit(#[trigger] s@[k]),
            !overflow ==> v as int == digits_value(s@.subrange(i as int, j as int)),
            overflow ==> digits_value(s@.subrange(i as int, j as int)) > u64::MAX,
        decreases s@.len() - j,
    {
        let ghost old_sub = s@.subrange(i as int, j as int);
        let d = (s[j] as u32 - 48) as u64;
        proof {
            assert(s@.subrange(i as int, j + 1).drop_last() =~= old_sub);
        }
        if !overflow {
            if v > (u64::MAX - d) / 10 {
                overflow = true;
            } else {
                v = v * 10 + d;
            }
        }
        j = j + 1;
    }
    if j == i || overflow {
        Err(GrammarError { at: i })
    } else {
        Ok((v, j))
    }
}

/// Whether `c` is a decimal digit.
fn is_digit_char(c: char) -> (r: bool)
    ensures
        r == is_digit(c),
{
    let u = c as u32;
    48 <= u && u <= 57
}


/// A block as the library reasons about it: start, end (milliseconds) and text.
pub type SpecBlock = (int, int, Seq<char>);

/// Holds when `s[k]` is the character `c`.
pub open spec fn char_at(s: Seq<char>, k: int, c: char) -> bool {
    0 <= k < s.len() && s[k] == c
}

/// The separator before the milliseconds of a timestamp.
pub open spec fn is_millis_sep(c: char) -> bool {
    c == ',' || c == '.'
}

/// The value in milliseconds of `hours:minutes:seconds,millis`.
pub open spec fn timestamp_value(h: int, m: int, sec: int, ms: int) -> int {
    h * 3_600_000 + m * 60_000 + sec * 1000 + ms
}

/// A timestamp `hours:minutes:seconds<sep>millis` at `k`, each part a decimal number
/// of any width and `<sep>` a comma or a dot: its value in milliseconds and the
/// position after it. There is none where the value does not fit in a `u64`.
pub open spec fn spec_timestamp(s: Seq<char>, k: int) -> Option<(int, int)> {
    match spec_number(s, k) {
        None => None,
        Some((h, a)) => if !char_at(s, a, ':') {
            None
        } else {
            match spec_number(s, a + 1) {
                None => None,
                Some((m, b)) => if !char_at(s, b, ':') {
                    None
                } else {
                    match spec_number(s, b + 1) {
                        None => None,
                        Some((sec, c)) => if !(0 <= c < s.len() && is_millis_sep(s[c])) {
                            None
                        } else {
                            match spec_number(s, c + 1) {
                                None => None,
                                Some((ms, d)) => {
                                    let v = timestamp_value(h, m, sec, ms);
                                    if v <= u64::MAX {
                                        Some((v, d))
                                    } else {
                                        None
                                    }
                                },
                            }
                        },
                    }
                },
            }
        },
    }
}

/// The literal between the two timestamps of a block.
pub open spec fn arrow() -> Seq<char> {
    seq![' ', '-', '-', '>', ' ']
}

/// Holds when the text `lit` stands at `k`.
pub open spec fn lit_at(s: Seq<char>, k: int, lit: Seq<char>) -> bool {
    0 <= k && k + lit.len() <= s.len() && s.subrange(k, k + lit.len()) == lit
}

/// The position of the first blank-line terminator (two newlines) at or after `k`.
pub open spec fn blank_from(s: Seq<char>, k: int) -> Option<int>
    decreases s.len() - k,
{
    if k < 0 || k + 1 >= s.len() {
        None
    } else if s[k] == '\n' && s[k + 1] == '\n' {
        Some(k)
    } else {
        blank_from(s, k + 1)
    }
}

/// A block after its index line, at `k`: `start --> end`, a newline, then the text
/// up to the first blank line, which ends the block. Gives the block and the
/// position after the blank line.
pub open spec fn spec_block(s: Seq<char>, k: int) -> Option<(SpecBlock, int)> {
    match spec_timestamp(s, k) {
        None => None,
        Some((start, a)) => if !lit_at(s, a, arrow()) {
            None
        } else {
            match spec_timestamp(s, a + 5) {
                None => None,
                Some((end, b)) => if !char_at(s, b, '\n') {
                    None
                } else {
                    match blank_from(s, b + 1) {
                        None => None,
                        Some(e) => Some(((start, end, s.subrange(b + 1, e)), e + 2)),
                    }
                },
            }
        },
    }
}

/// A whole block at `k`: an index number (read and dropped), a newline, then the rest.
pub open spec fn spec_entry(s: Seq<char>, k: int) -> Option<(SpecBlock, int)> {
    match spec_number(s, k) {
        None => None,
        Some((_, a)) => if !char_at(s, a, '\n') {
            None
        } else {
            spec_block(s, a + 1)
        },
    }
}

/// The blocks read one after the other from `k` for as long as one can be read,
/// and the position where reading stopped.
pub open spec fn spec_blocks(s: Seq<char>, k: int) -> (Seq<SpecBlock>, int)
    decreases s.len() - k,
{
    if 0 <= k <= s.len() {
        match spec_entry(s, k) {
            Some((b, j)) => if k < j <= s.len() {
                let rest = spec_blocks(s, j);
                (seq![b] + rest.0, rest.1)
            } else {
                (seq![], k)
            },
            None => (seq![], k),
        }
    } else {
        (seq![], k)
    }
}

/// The blocks of a subtitle file, where the blocks use up the whole text.
pub open spec fn spec_parse(s: Seq<char>) -> Option<Seq<SpecBlock>> {
    let r = spec_blocks(s, 0);
    if r.1 == s.len() {
        Some(r.0)
    } else {
        None
    }
}

/// A point in time, in milliseconds since the start of the media.
#[derive(Debug, Clone, Copy)]
pub struct Timestamp(pub u64);

/// A signed duration to move timestamps by.
#[derive(Debug, Clone, Copy)]
pub struct Shift {
    /// Whether the duration is taken away rather than added.
    pub negative: bool,
    /// The size of the duration.
    pub offset: Timestamp,
}

/// A single subtitle block.
#[derive(Debug)]
pub struct Subtitle {
    /// When the text is first shown.
    pub start: Timestamp,
    /// When the text stops being shown.
    pub end: Timestamp,
    /// The text.
    pub content: String,
}

impl View for Subtitle {
    type V = SpecBlock;

    open spec fn view(&self) -> SpecBlock {
        (self.start.0 as int, self.end.0 as int, self.content@)
    }
}

/// A full subtitle file.
#[derive(Debug)]
pub struct Subtitles {
    /// The blocks, in the order of the file.
    pile: Vec<Subtitle>,
}

/// The models of a sequence of blocks.
pub open spec fn blocks_view(v: Seq<Subtitle>) -> Seq<SpecBlock> {
    v.map_values(|b: Subtitle| b@)
}

impl View for Subtitles {
    type V = Seq<SpecBlock>;

    closed spec fn view(&self) -> Seq<SpecBlock> {
        blocks_view(self.pile@)
    }
}

/// Relies on `str::chars`, collected into a `Vec`: the characters of `s` in order.
#[verifier::external_body]
fn chars_of(s: &str) -> (r: Vec<char>)
    ensures
        r@ == s@,
{
    s.chars().collect()
}

/// Relies on collecting characters into a `String` (`FromIterator<&char>`): the
/// characters `v[from..to]` in order.
#[verifier::external_body]
fn string_of_range(v: &Vec<char>, from: usize, to: usize) -> (r: String)
    requires
        from <= to <= v@.len(),
    ensures
        r@ == v@.subrange(from as int, to as int),
{
    v[from..to].iter().collect()
}

/// Whether `s[i]` is `c`.
fn expect_char(s: &Vec<char>, i: usize, c: char) -> (r: bool)
    ensures
        r == char_at(s@, i as int, c),
        r ==> i < usize::MAX,
{
    i < s.len() && s[i] == c
}

/// Reads a timestamp at `i`.
fn parse_timestamp(s: &Vec<char>, i: usize) -> (r: Result<(Timestamp, usize), GrammarError>)
    requires
        i <= s@.len(),
    ensures
        match r {
            Ok((t, j)) => spec_timestamp(s@, i as int) == Some((t.0 as int, j as int)) && i < j
                <= s@.len(),
            Err(_) => spec_timestamp(s@, i as int) is None,
        },
{
    let (h, a) = match parse_number(s, i) {
        Ok(p) => p,
        Err(e) => return Err(e),
    };
    if !expect_char(s, a, ':') {
        return Err(GrammarError { at: a });
    }
    let (m, b) = match parse_number(s, a + 1) {
        Ok(p) => p,
        Err(e) => return Err(e),
    };
    if !expect_char(s, b, ':') {
        return Err(GrammarError { at: b });
    }
    let (sec, c) = match parse_number(s, b + 1) {
        Ok(p) => p,
        Err(e) => return Err(e),
    };
    if !(c < s.len() && (s[c] == ',' || s[c] == '.')) {
        return Err(GrammarError { at: c });
    }
    let (ms, d) = match parse_number(s, c + 1) {
        Ok(p) => p,
        Err(e) => return Err(e),
    };
    let v: u128 = h as u128 * 3_600_000 + m as u128 * 60_000 + sec as u128 * 1000 + ms as u128;
    if v > u64::MAX as u128 {
        return Err(GrammarError { at: d });
    }
    Ok((Timestamp(v as u64), d))
}


/// Whether the arrow literal stands at `i`.
fn expect_arrow(s: &Vec<char>, i: usize) -> (r: bool)
    requires
        i <= s@.len(),
    ensures
        r == lit_at(s@, i as int, arrow()),
        r ==> i + 5 <= s@.len(),
{
    if s.len() - i >= 5 && s[i] == ' ' && s[i + 1] == '-' && s[i + 2] == '-' && s[i + 3] == '>'
        && s[i + 4] == ' ' {
        assert(s@.subrange(i as int, i + 5) =~= arrow());
        true
    } else {
        proof {
            if lit_at(s@, i as int, arrow()) {
                assert(s@.subrange(i as int, i + 5)[0] == ' ');
                assert(s@.subrange(i as int, i + 5)[1] == '-');
                assert(s@.subrange(i as int, i + 5)[2] == '-');
                assert(s@.subrange(i as int, i + 5)[3] == '>');
                assert(s@.subrange(i as int, i + 5)[4] == ' ');
            }
        }
        false
    }
}

/// Finds the first blank-line terminator at or after `k`.
fn find_blank(s: &Vec<char>, k: usize) -> (r: Option<usize>)
    requires
        k <= s@.len(),
    ensures
        match r {
            Some(e) => blank_from(s@, k as int) == Some(e as int) && k <= e && e + 2 <= s@.len(),
            None => blank_from(s@, k as int) is None,
        },
{
    let mut j: usize = k;
    while s.len() - j >= 2
        invariant
            k <= j <= s@.len(),
            blank_from(s@, k as int) == blank_from(s@, j as int),
        decreases s@.len() - j,
    {
        if s[j] == '\n' && s[j + 1] == '\n' {
            return Some(j);
        }
        j = j + 1;
    }
    None
}

/// Reads a block after its index line at `i`: both timestamps and the text.
fn parse_subtitle_block(s: &Vec<char>, i: usize) -> (r: Result<(Subtitle, usize), GrammarError>)
    requires
        i <= s@.len(),
    ensures
        match r {
            Ok((b, j)) => spec_block(s@, i as int) == Some((b@, j as int)) && i < j <= s@.len(),
            Err(_) => spec_block(s@, i as int) is None,
        },
{
    let n = s.len();
    let (start, a) = match parse_timestamp(s, i) {
        Ok(p) => p,
        Err(e) => return Err(e),
    };
    if !expect_arrow(s, a) {
        return Err(GrammarError { at: a });
    }
    let (end, b) = match parse_timestamp(s, a + 5) {
        Ok(p) => p,
        Err(e) => return Err(e),
    };
    if !expect_char(s, b, '\n') {
        return Err(GrammarError { at: b });
    }
    match find_blank(s, b + 1) {
        None => Err(GrammarError { at: b + 1 }),
        Some(e) => {
            let content = string_of_range(s, b + 1, e);
            Ok((Subtitle { start, end, content }, e + 2))
        },
    }
}

/// Reads a whole block at `i`: the index line, then the rest.
fn parse_entry(s: &Vec<char>, i: usize) -> (r: Result<(Subtitle, usize), GrammarError>)
    requires
        i <= s@.len(),
    ensures
        match r {
            Ok((b, j)) => spec_entry(s@, i as int) == Some((b@, j as int)) && i < j <= s@.len(),
            Err(_) => spec_entry(s@, i as int) is None,
        },
{
    let (_index, a) = match parse_number(s, i) {
        Ok(p) => p,
        Err(e) => return Err(e),
    };
    if !expect_char(s, a, '\n') {
        return Err(GrammarError { at: a });
    }
    parse_subtitle_block(s, a + 1)
}

/// Parses an entire subtitle file. Fails where the blocks do not use up the whole
/// text, trailing blank space included.
pub fn parse_subtitle_file(content: &str) -> (r: Result<Subtitles, GrammarError>)
    ensures
        match r {
            Ok(subs) => spec_parse(content@) == Some(subs@),
            Err(e) => spec_parse(content@) is None && e.at <= content@.len(),
        },
{
    let s = chars_of(content);
    let mut pile: Vec<Subtitle> = Vec::new();
    let mut i: usize = 0;
    loop
        invariant
            i <= s@.len(),
            s@ == content@,
            spec_blocks(s@, 0) == (blocks_view(pile@) + spec_blocks(s@, i as int).0, spec_blocks(
                s@,
                i as int,
            ).1),
        ensures
            i <= s@.len(),
            spec_blocks(s@, 0) == (blocks_view(pile@), i as int),
        decreases s@.len() - i,
    {
        match parse_entry(&s, i) {
            Ok((b, j)) => {
                proof {
                    let rest = spec_blocks(s@, j as int);
                    assert(spec_blocks(s@, i as int) == (seq![b@] + rest.0, rest.1));
                    assert(blocks_view(pile@.push(b)) =~= blocks_view(pile@).push(b@));
                    assert(blocks_view(pile@) + (seq![b@] + rest.0) =~= blocks_view(pile@).push(b@)
                        + rest.0);
                }
                pile.push(b);
                i = j;
            },
            Err(_) => {
                proof {
                    assert(spec_blocks(s@, i as int) == (Seq::<SpecBlock>::empty(), i as int));
                    assert(blocks_view(pile@) + Seq::<SpecBlock>::empty() =~= blocks_view(pile@));
                }
                break;
            },
        }
    }
    if i == s.len() {
        Ok(Subtitles { pile })
    } else {
        Err(GrammarError { at: i })
    }
}

/// The sign and size of a shift written `[+|-]hours:minutes:seconds<sep>millis`,
/// with nothing after it; no sign means adding.
pub open spec fn spec_shift(s: Seq<char>) -> Option<(bool, int)> {
    let negative = char_at(s, 0, '-');
    let k: int = if char_at(s, 0, '+') || negative {
        1
    } else {
        0
    };
    match spec_timestamp(s, k) {
        Some((v, e)) => if e == s.len() {
            Some((negative, v))
        } else {
            None
        },
        None => None,
    }
}

impl View for Shift {
    type V = (bool, int);

    open spec fn view(&self) -> (bool, int) {
        (self.negative, self.offset.0 as int)
    }
}

/// Parses a shift given by a user.
pub fn parse_shift(i: &str) -> (r: Result<Shift, GrammarError>)
    ensures
        match r {
            Ok(sh) => spec_shift(i@) == Some(sh@),
            Err(e) => spec_shift(i@) is None && e.at <= i@.len(),
        },
{
    let s = chars_of(i);
    let negative = expect_char(&s, 0, '-');
    let k: usize = if expect_char(&s, 0, '+') || negative {
        1
    } else {
        0
    };
    let (offset, e) = match parse_timestamp(&s, k) {
        Ok(p) => p,
        Err(_) => return Err(GrammarError { at: k }),
    };
    if e != s.len() {
        return Err(GrammarError { at: e });
    }
    Ok(Shift { negative, offset })
}


/// Holds when the text of a block can be read back: it holds no blank line and does
/// not end in a newline.
pub open spec fn body_ok(c: Seq<char>) -> bool {
    &&& forall|j: int| 0 <= j < c.len() - 1 ==> !(#[trigger] c[j] == '\n' && c[j + 1] == '\n')
    &&& (c.len() == 0 || c.last() != '\n')
}

/// Holds when both timestamps of a block fit and its text can be read back.
pub open spec fn block_ok(b: SpecBlock) -> bool {
    fits(b.0) && fits(b.1) && body_ok(b.2)
}

/// Holds when every block of `bs` is as `block_ok` says.
pub open spec fn blocks_ok(bs: Seq<SpecBlock>) -> bool {
    forall|k: int| 0 <= k < bs.len() ==> #[trigger] block_ok(bs[k])
}

/// A timestamp moved by a shift.
pub open spec fn shifted(v: int, sh: (bool, int)) -> int {
    if sh.0 {
        v - sh.1
    } else {
        v + sh.1
    }
}

/// Holds when a value can be held by a timestamp.
pub open spec fn fits(v: int) -> bool {
    0 <= v <= u64::MAX
}

/// Holds when both timestamps of `b` can be moved by `sh`.
pub open spec fn block_fits(b: SpecBlock, sh: (bool, int)) -> bool {
    fits(shifted(b.0, sh)) && fits(shifted(b.1, sh))
}

/// Holds when every timestamp of `bs` can be moved by `sh`.
pub open spec fn shift_fits(bs: Seq<SpecBlock>, sh: (bool, int)) -> bool {
    forall|k: int|
        0 <= k < bs.len() ==> #[trigger] block_fits(bs[k], sh)
}

/// The blocks `bs` with every timestamp moved by `sh`, their text untouched.
pub open spec fn shift_blocks(bs: Seq<SpecBlock>, sh: (bool, int)) -> Seq<SpecBlock> {
    bs.map_values(|b: SpecBlock| (shifted(b.0, sh), shifted(b.1, sh), b.2))
}

/// A shift that would move a timestamp out of what it can hold.
#[derive(Debug, Clone, Copy, PartialEq, Eq)]
pub enum ShiftError {
    /// The timestamp would fall below zero.
    Underflow,
    /// The timestamp would exceed the largest value it can hold.
    Overflow,
}

impl Timestamp {
    /// Moves the timestamp by `shift`; on failure it is left as it was.
    pub fn shift_by(&mut self, shift: &Shift) -> (r: Result<(), ShiftError>)
        ensures
            r is Ok <==> fits(shifted(old(self).0 as int, shift@)),
            r is Ok ==> final(self).0 as int == shifted(old(self).0 as int, shift@),
            r is Err ==> *final(self) == *old(self),
            r matches Err(ShiftError::Underflow) ==> shift.negative,
            r matches Err(ShiftError::Overflow) ==> !shift.negative,
    {
        if shift.negative {
            if self.0 < shift.offset.0 {
                return Err(ShiftError::Underflow);
            }
            self.0 = self.0 - shift.offset.0;
        } else {
            if self.0 > u64::MAX - shift.offset.0 {
                return Err(ShiftError::Overflow);
            }
            self.0 = self.0 + shift.offset.0;
        }
        Ok(())
    }
}

/// Shifts every timestamp of `subtitles` by `shift`. Either all of them are moved
/// or, where one cannot be, none is.
pub fn shift(subtitles: &mut Subtitles, by: &Shift) -> (r: Result<(), ShiftError>)
    ensures
        r is Ok <==> shift_fits(old(subtitles)@, by@),
        r is Ok ==> final(subtitles)@ == shift_blocks(old(subtitles)@, by@),
        r is Err ==> final(subtitles)@ == old(subtitles)@,
        r matches Err(ShiftError::Underflow) ==> by.negative,
        r matches Err(ShiftError::Overflow) ==> !by.negative,
{
    let ghost bs = subtitles@;
    let mut moved: Vec<Subtitle> = Vec::new();
    let n = subtitles.pile.len();
    let mut k: usize = 0;
    while k < n
        invariant
            k <= n == subtitles.pile@.len(),
            subtitles@ == bs,
            *subtitles == *old(subtitles),
            moved@.len() == k,
            forall|j: int| 0 <= j < k ==> #[trigger] block_fits(bs[j], by@),
            forall|j: int| 0 <= j < k ==> #[trigger] blocks_view(moved@)[j] == shift_blocks(bs, by@)[j],
        decreases n - k,
    {
        let b = &subtitles.pile[k];
        assert(bs[k as int] == b@);
        let mut start = b.start;
        let mut end = b.end;
        match start.shift_by(by) {
            Ok(()) => {},
            Err(e) => {
                assert(!block_fits(bs[k as int], by@));
                return Err(e);
            },
        }
        match end.shift_by(by) {
            Ok(()) => {},
            Err(e) => {
                assert(!block_fits(bs[k as int], by@));
                return Err(e);
            },
        }
        assert(block_fits(bs[k as int], by@));
        let ghost before = moved@;
        moved.push(Subtitle { start, end, content: b.content.clone() });
        proof {
            assert(blocks_view(moved@)[k as int] == shift_blocks(bs, by@)[k as int]);
            assert forall|j: int| 0 <= j < k implies #[trigger] blocks_view(moved@)[j]
                == blocks_view(before)[j] by {
                assert(moved@[j] == before[j]);
            }
        }
        k = k + 1;
    }
    assert(blocks_view(moved@) =~= shift_blocks(bs, by@));
    assert(bs.len() == n);
    subtitles.pile = moved;
    Ok(())
}


/// The character of a decimal digit.
pub open spec fn digit_char(d: int) -> char {
    if d == 0 {
        '0'
    } else if d == 1 {
        '1'
    } else if d == 2 {
        '2'
    } else if d == 3 {
        '3'
    } else if d == 4 {
        '4'
    } else if d == 5 {
        '5'
    } else if d == 6 {
        '6'
    } else if d == 7 {
        '7'
    } else if d == 8 {
        '8'
    } else {
        '9'
    }
}

/// `n` written in decimal, without leading zeros.
pub open spec fn decimal(n: nat) -> Seq<char>
    decreases n,
{
    if n < 10 {
        seq![digit_char(n as int)]
    } else {
        decimal(n / 10).push(digit_char((n % 10) as int))
    }
}

/// `n` in decimal, with leading zeros up to two digits.
pub open spec fn pad2(n: nat) -> Seq<char> {
    if n < 10 {
        seq!['0'] + decimal(n)
    } else {
        decimal(n)
    }
}

/// `n` in decimal, with leading zeros up to three digits.
pub open spec fn pad3(n: nat) -> Seq<char> {
    if n < 10 {
        seq!['0', '0'] + decimal(n)
    } else if n < 100 {
        seq!['0'] + decimal(n)
    } else {
        decimal(n)
    }
}

/// The text of a timestamp: `HH:MM:SS,mmm`, hours at least two digits wide.
pub open spec fn timestamp_text(v: nat) -> Seq<char> {
    pad2(v / 3_600_000) + seq![':'] + pad2(v / 60_000 % 60) + seq![':'] + pad2(v / 1000 % 60)
        + seq![','] + pad3(v % 1000)
}

/// The text of block `b` at 1-based position `n`, blank line included.
pub open spec fn block_text(n: nat, b: SpecBlock) -> Seq<char> {
    decimal(n) + seq!['\n'] + timestamp_text(b.0 as nat) + arrow() + timestamp_text(b.1 as nat)
        + seq!['\n'] + b.2 + seq!['\n', '\n']
}

/// The text of the blocks `bs`, numbered from `n` on.
pub open spec fn serialize_from(bs: Seq<SpecBlock>, n: nat) -> Seq<char>
    decreases bs.len(),
{
    if bs.len() == 0 {
        seq![]
    } else {
        block_text(n, bs[0]) + serialize_from(bs.drop_first(), n + 1)
    }
}

/// The text of a subtitle file holding the blocks `bs`, numbered from 1.
pub open spec fn spec_serialize(bs: Seq<SpecBlock>) -> Seq<char> {
    serialize_from(bs, 1)
}

/// The character of the digit `d`.
fn digit_char_of(d: u64) -> (c: char)
    requires
        d < 10,
    ensures
        c == digit_char(d as int),
{
    if d == 0 {
        '0'
    } else if d == 1 {
        '1'
    } else if d == 2 {
        '2'
    } else if d == 3 {
        '3'
    } else if d == 4 {
        '4'
    } else if d == 5 {
        '5'
    } else if d == 6 {
        '6'
    } else if d == 7 {
        '7'
    } else if d == 8 {
        '8'
    } else {
        '9'
    }
}

/// Appends `n` in decimal.
fn push_decimal(out: &mut Vec<char>, n: u64)
    ensures
        final(out)@ == old(out)@ + decimal(n as nat),
    decreases n,
{
    if n >= 10 {
        push_decimal(out, n / 10);
    }
    out.push(digit_char_of(n % 10));
    assert(final(out)@ =~= old(out)@ + decimal(n as nat));
}

/// Appends `n` in decimal, with leading zeros up to `width` digits (two or three).
fn push_padded(out: &mut Vec<char>, n: u64, width: u64)
    requires
        width == 2 || width == 3,
    ensures
        final(out)@ == old(out)@ + (if width == 2 {
            pad2(n as nat)
        } else {
            pad3(n as nat)
        }),
{
    if width == 3 && n < 10 {
        out.push('0');
        out.push('0');
    } else if n < 10 || (width == 3 && n < 100) {
        out.push('0');
    }
    push_decimal(out, n);
    assert(final(out)@ =~= old(out)@ + (if width == 2 {
        pad2(n as nat)
    } else {
        pad3(n as nat)
    }));
}

/// Appends the characters of `text`.
fn push_all(out: &mut Vec<char>, text: &Vec<char>)
    ensures
        final(out)@ == old(out)@ + text@,
{
    let mut k: usize = 0;
    while k < text.len()
        invariant
            k <= text@.len(),
            out@ == old(out)@ + text@.subrange(0, k as int),
        decreases text@.len() - k,
    {
        out.push(text[k]);
        k = k + 1;
        assert(out@ =~= old(out)@ + text@.subrange(0, k as int));
    }
    assert(text@.subrange(0, k as int) =~= text@);
}

/// Appends the text of a timestamp.
fn push_timestamp(out: &mut Vec<char>, t: Timestamp)
    ensures
        final(out)@ == old(out)@ + timestamp_text(t.0 as nat),
{
    let v = t.0;
    push_padded(out, v / 3_600_000, 2);
    out.push(':');
    push_padded(out, v / 60_000 % 60, 2);
    out.push(':');
    push_padded(out, v / 1000 % 60, 2);
    out.push(',');
    push_padded(out, v % 1000, 3);
    assert(final(out)@ =~= old(out)@ + timestamp_text(t.0 as nat));
}

/// Appends the text of block `b` at 1-based position `n`.
fn push_block(out: &mut Vec<char>, n: u64, b: &Subtitle)
    ensures
        final(out)@ == old(out)@ + block_text(n as nat, b@),
{
    push_decimal(out, n);
    out.push('\n');
    push_timestamp(out, b.start);
    out.push(' ');
    out.push('-');
    out.push('-');
    out.push('>');
    out.push(' ');
    push_timestamp(out, b.end);
    out.push('\n');
    let text = chars_of(b.content.as_str());
    push_all(out, &text);
    out.push('\n');
    out.push('\n');
    assert(final(out)@ =~= old(out)@ + block_text(n as nat, b@));
}

impl Timestamp {
    /// The text of the timestamp, `HH:MM:SS,mmm`.
    pub fn to_string(&self) -> (r: String)
        ensures
            r@ == timestamp_text(self.0 as nat),
    {
        let mut out: Vec<char> = Vec::new();
        push_timestamp(&mut out, *self);
        assert(out@ =~= timestamp_text(self.0 as nat));
        string_of_range(&out, 0, out.len())
    }
}

impl Shift {
    /// The text of the shift: its sign, then its size as a timestamp.
    pub fn to_string(&self) -> (r: String)
        ensures
            r@ == seq![if self.negative { '-' } else { '+' }] + timestamp_text(self.offset.0 as nat),
    {
        let mut out: Vec<char> = Vec::new();
        out.push(if self.negative { '-' } else { '+' });
        push_timestamp(&mut out, self.offset);
        string_of_range(&out, 0, out.len())
    }
}

impl Subtitles {
    /// The blocks, in the order of the file.
    pub fn blocks(&self) -> (r: &Vec<Subtitle>)
        ensures
            blocks_view(r@) == self@,
    {
        &self.pile
    }

    /// The number of blocks.
    pub fn len(&self) -> (r: usize)
        ensures
            r == self@.len(),
    {
        self.pile.len()
    }

    /// The text of the file: the blocks in order, numbered from 1.
    pub fn to_string(&self) -> (r: String)
        ensures
            r@ == spec_serialize(self@),
    {
        let ghost bs = self@;
        let mut out: Vec<char> = Vec::new();
        let n = self.pile.len();
        let mut k: usize = 0;
        assert(bs.skip(0) =~= bs);
        assert(out@ + spec_serialize(bs) =~= spec_serialize(bs));
        while k < n
            invariant
                k <= n == self.pile@.len() == bs.len(),
                bs == self@,
                out@ + serialize_from(bs.skip(k as int), (k + 1) as nat) == spec_serialize(bs),
            decreases n - k,
        {
            proof {
                let rest = bs.skip(k as int);
                assert(rest.drop_first() =~= bs.skip(k + 1));
                assert(rest[0] == self.pile@[k as int]@);
            }
            let ghost before = out@;
            push_block(&mut out, (k + 1) as u64, &self.pile[k]);
            k = k + 1;
            proof {
                let tail = serialize_from(bs.skip(k as int), (k + 1) as nat);
                assert(before + (block_text(k as nat, bs[k - 1]) + tail) =~= out@ + tail);
            }
        }
        proof {
            assert(bs.skip(k as int) =~= Seq::<SpecBlock>::empty());
            assert(out@ + Seq::<char>::empty() =~= out@);
        }
        string_of_range(&out, 0, out.len())
    }
}

} // verus!
