//! Parser for the run-length-encoded (RLE) Game-of-Life pattern text.
//!
//! The grammar is line oriented: optional `#`-prefixed comment lines,
//! one `x = <n>, y = <n>` header line, then a body of counted
//! `b`/`o`/`$` runs terminated by `!`.
//!
//! Every executable parser has a specification mirror over the input
//! bytes, so its contract states exactly on which inputs it succeeds,
//! what it consumes and what it returns. A parse failure carries the
//! byte position at which parsing stopped.

use vstd::prelude::*;

verus! {

/// One body token: advance to the next row, a run of dead cells, or
/// a run of alive cells.
#[derive(Clone, Copy, Debug, PartialEq, Eq, Structural)]
pub enum RleTag {
    NextLine,
    Dead,
    Alive,
}

/// The header line: declared width and height.
#[derive(Clone, Copy, Debug, PartialEq, Eq, Structural)]
pub struct RleFirstLine(pub usize, pub usize);

/// A run length together with its tag.
#[derive(Clone, Copy, Debug, PartialEq, Eq, Structural)]
pub struct RleTagSequence(pub usize, pub RleTag);

/// A parsed comment line.
#[derive(Debug, PartialEq)]
pub enum RleComment {
    Comment(String),
    Name(String),
    Author(String),
    Coordinates(i32, i32),
    Other(String),
}

/// A fully parsed pattern.
#[derive(Debug, PartialEq)]
pub struct Rle {
    pub comments: Vec<RleComment>,
    pub size: RleFirstLine,
    pub content: Vec<RleTagSequence>,
}

/// Ghost image of a comment, with text as character sequences.
pub ghost enum CommentV {
    Comment(Seq<char>),
    Name(Seq<char>),
    Author(Seq<char>),
    Coordinates(int, int),
    Other(Seq<char>),
}

/// Ghost image of a parsed pattern.
#[verifier::ext_equal]
pub ghost struct RleV {
    pub comments: Seq<CommentV>,
    pub size: RleFirstLine,
    pub content: Seq<RleTagSequence>,
}

pub open spec fn comment_view(c: RleComment) -> CommentV {
    match c {
        RleComment::Comment(s) => CommentV::Comment(s@),
        RleComment::Name(s) => CommentV::Name(s@),
        RleComment::Author(s) => CommentV::Author(s@),
        RleComment::Coordinates(x, y) => CommentV::Coordinates(x as int, y as int),
        RleComment::Other(s) => CommentV::Other(s@),
    }
}

/// A comment list as its ghost image.
pub open spec fn comments_view(cs: Seq<RleComment>) -> Seq<CommentV> {
    cs.map(|_i: int, c: RleComment| comment_view(c))
}

pub open spec fn rle_view(r: Rle) -> RleV {
    RleV { comments: comments_view(r.comments@), size: r.size, content: r.content@ }
}

/// An executable parse step agrees with its specification mirror.
pub open spec fn step_matches<T>(r: Result<(usize, T), usize>, s: Result<(int, T), int>) -> bool {
    match (r, s) {
        (Ok((j, v)), Ok((j2, v2))) => j as int == j2 && v == v2,
        (Err(p), Err(p2)) => p as int == p2,
        _ => false,
    }
}

pub open spec fn is_space_b(b: u8) -> bool {
    b == 32 || b == 9
}

pub open spec fn is_digit_b(b: u8) -> bool {
    48 <= b && b <= 57
}

/// First position at or after `i` holding no space or tab.
pub open spec fn sp_skip_spaces(s: Seq<u8>, i: int) -> int
    decreases s.len() - i when 0 <= i <= s.len()
{
    if i < s.len() && is_space_b(s[i]) {
        sp_skip_spaces(s, i + 1)
    } else {
        i
    }
}

/// First position at or after `i` holding no space, tab or line
/// break (a line break is `\n` or `\r\n`).
pub open spec fn sp_skip_ws(s: Seq<u8>, i: int) -> int
    decreases s.len() - i when 0 <= i <= s.len()
{
    if i < s.len() && (is_space_b(s[i]) || s[i] == 10) {
        sp_skip_ws(s, i + 1)
    } else if i + 1 < s.len() && s[i] == 13 && s[i + 1] == 10 {
        sp_skip_ws(s, i + 2)
    } else {
        i
    }
}

/// Position of the first `\n` at or after `i`, if any.
pub open spec fn sp_find_newline(s: Seq<u8>, i: int) -> Option<int>
    decreases s.len() - i when 0 <= i <= s.len()
{
    if i >= s.len() {
        None
    } else if s[i] == 10 {
        Some(i)
    } else {
        sp_find_newline(s, i + 1)
    }
}

proof fn lemma_find_newline_bounds(s: Seq<u8>, i: int)
    requires
        0 <= i <= s.len(),
    ensures
        sp_find_newline(s, i) matches Some(nl) ==> i <= nl < s.len() && s[nl] == 10,
    decreases s.len() - i,
{
    if i < s.len() && s[i] != 10 {
        lemma_find_newline_bounds(s, i + 1);
    }
}

/// First position at or after `i` holding a non-digit.
pub open spec fn sp_digits_end(s: Seq<u8>, i: int) -> int
    decreases s.len() - i when 0 <= i <= s.len()
{
    if i < s.len() && is_digit_b(s[i]) {
        sp_digits_end(s, i + 1)
    } else {
        i
    }
}

proof fn lemma_digits_end_bounds(s: Seq<u8>, i: int)
    requires
        0 <= i <= s.len(),
    ensures
        i <= sp_digits_end(s, i) <= s.len(),
        forall|k: int| i <= k < sp_digits_end(s, i) ==> is_digit_b(#[trigger] s[k]),
    decreases s.len() - i,
{
    if i < s.len() && is_digit_b(s[i]) {
        lemma_digits_end_bounds(s, i + 1);
    }
}

/// Numeric value of a sequence of decimal digit characters.
pub open spec fn digits_value(cs: Seq<char>) -> int
    decreases cs.len(),
{
    if cs.len() == 0 {
        0
    } else {
        digits_value(cs.drop_last()) * 10 + (cs.last() as int - 48)
    }
}

/// The digit characters of the byte range `[i, j)`.
pub open spec fn digit_chars(s: Seq<u8>, i: int, j: int) -> Seq<char> {
    Seq::new((j - i) as nat, |k: int| s[i + k] as char)
}

pub open spec fn all_digit_chars(cs: Seq<char>) -> bool {
    forall|k: int| 0 <= k < cs.len() ==> 48 <= (#[trigger] cs[k]) as int <= 57
}

proof fn lemma_digits_value_nonneg(cs: Seq<char>)
    requires
        all_digit_chars(cs),
    ensures
        digits_value(cs) >= 0,
    decreases cs.len(),
{
    if cs.len() > 0 {
        assert(all_digit_chars(cs.drop_last()));
        lemma_digits_value_nonneg(cs.drop_last());
        assert(digits_value(cs.drop_last()) * 10 >= 0) by (nonlinear_arith)
            requires
                digits_value(cs.drop_last()) >= 0,
        ;
    }
}

/// The value of a prefix never exceeds the value of the whole.
proof fn lemma_digits_prefix_le(cs: Seq<char>, m: int)
    requires
        all_digit_chars(cs),
        0 <= m <= cs.len(),
    ensures
        digits_value(cs.take(m)) <= digits_value(cs),
    decreases cs.len() - m,
{
    if m == cs.len() {
        assert(cs.take(m) =~= cs);
    } else {
        assert(cs.take(m + 1).drop_last() =~= cs.take(m));
        assert(cs.take(m + 1).last() == cs[m]);
        assert(all_digit_chars(cs.take(m)));
        lemma_digits_value_nonneg(cs.take(m));
        assert(digits_value(cs.take(m)) * 10 >= digits_value(cs.take(m))) by (nonlinear_arith)
            requires
                digits_value(cs.take(m)) >= 0,
        ;
        lemma_digits_prefix_le(cs, m + 1);
    }
}

/// Parse the digit characters of a decimal number. `None` exactly
/// when the value does not fit a `usize`.
pub fn buf_to_int(s: &[char]) -> (r: Option<usize>)
    requires
        s@.len() > 0,
        all_digit_chars(s@),
    ensures
        r is Some <==> digits_value(s@) <= usize::MAX as int,
        r matches Some(v) ==> v as int == digits_value(s@),
{
    let mut val: usize = 0;
    let mut k: usize = 0;
    while k < s.len()
        invariant
            0 <= k <= s@.len(),
            all_digit_chars(s@),
            val as int == digits_value(s@.take(k as int)),
        decreases s@.len() - k,
    {
        let d: u32 = (s[k] as u32) - 48;
        proof {
            assert(s@.take(k as int + 1).drop_last() =~= s@.take(k as int));
            assert(s@.take(k as int + 1).last() == s@[k as int]);
        }
        let next_val = match val.checked_mul(10) {
            Some(x) => x.checked_add(d as usize),
            None => None,
        };
        match next_val {
            Some(x) => {
                val = x;
            },
            None => {
                proof {
                    assert(digits_value(s@.take(k as int + 1)) > usize::MAX as int);
                    lemma_digits_prefix_le(s@, k as int + 1);
                }
                return None;
            },
        }
        k += 1;
    }
    proof {
        assert(s@.take(s@.len() as int) =~= s@);
    }
    Some(val)
}

/// Specification of `num`: one or more digits whose value fits a
/// `usize`; fails at `i` otherwise.
pub open spec fn sp_num(s: Seq<u8>, i: int) -> Result<(int, usize), int> {
    let j = sp_digits_end(s, i);
    if j == i {
        Err(i)
    } else if digits_value(digit_chars(s, i, j)) <= usize::MAX as int {
        Ok((j, digits_value(digit_chars(s, i, j)) as usize))
    } else {
        Err(i)
    }
}

/// Parse an unsigned decimal number.
fn num(s: &[u8], i: usize) -> (r: Result<(usize, usize), usize>)
    requires
        i <= s@.len(),
    ensures
        step_matches(r, sp_num(s@, i as int)),
        r matches Ok((j, _v)) ==> i <= j <= s@.len(),
{
    proof {
        lemma_digits_end_bounds(s@, i as int);
    }
    let mut j = i;
    let mut digits: Vec<char> = Vec::new();
    while j < s.len() && s[j] >= 48 && s[j] <= 57
        invariant
            i <= j <= s@.len(),
            sp_digits_end(s@, i as int) == sp_digits_end(s@, j as int),
            forall|k: int| i <= k < j ==> is_digit_b(#[trigger] s@[k]),
            digits@ == digit_chars(s@, i as int, j as int),
        decreases s@.len() - j,
    {
        digits.push(s[j] as char);
        proof {
            assert(digits@ =~= digit_chars(s@, i as int, j as int + 1));
        }
        j += 1;
    }
    proof {
        assert(sp_digits_end(s@, j as int) == j as int);
        assert(all_digit_chars(digits@));
    }
    if digits.len() == 0 {
        return Err(i);
    }
    match buf_to_int(digits.as_slice()) {
        Some(v) => Ok((j, v)),
        None => Err(i),
    }
}

/// Specification of `signed_num`: an optional `-` or `+` sign, then a
/// number; the magnitude must also fit an `i32`.
pub open spec fn sp_signed_num(s: Seq<u8>, i: int) -> Result<(int, i32), int> {
    let neg = i < s.len() && s[i] == 45;
    let start = if i < s.len() && (s[i] == 45 || s[i] == 43) {
        i + 1
    } else {
        i
    };
    match sp_num(s, start) {
        Ok((j, v)) => if v as int <= i32::MAX as int {
            if neg {
                Ok((j, (-(v as int)) as i32))
            } else {
                Ok((j, v as i32))
            }
        } else {
            Err(i)
        },
        Err(p) => Err(p),
    }
}

/// Parse a signed decimal number.
fn signed_num(s: &[u8], i: usize) -> (r: Result<(usize, i32), usize>)
    requires
        i <= s@.len(),
    ensures
        step_matches(r, sp_signed_num(s@, i as int)),
        r matches Ok((j, _v)) ==> i <= j <= s@.len(),
{
    let neg = i < s.len() && s[i] == 45;
    let start = if i < s.len() && (s[i] == 45 || s[i] == 43) {
        i + 1
    } else {
        i
    };
    match num(s, start) {
        Ok((j, v)) => {
            if v <= i32::MAX as usize {
                if neg {
                    Ok((j, -(v as i32)))
                } else {
                    Ok((j, v as i32))
                }
            } else {
                Err(i)
            }
        },
        Err(p) => Err(p),
    }
}

/// Specification of `rle_tag`: exactly one of `$`, `b`, `o`.
pub open spec fn sp_rle_tag(s: Seq<u8>, i: int) -> Result<(int, RleTag), int> {
    if i < s.len() && s[i] == 36 {
        Ok((i + 1, RleTag::NextLine))
    } else if i < s.len() && s[i] == 98 {
        Ok((i + 1, RleTag::Dead))
    } else if i < s.len() && s[i] == 111 {
        Ok((i + 1, RleTag::Alive))
    } else {
        Err(i)
    }
}

/// Parse one body tag character.
pub fn rle_tag(s: &[u8], i: usize) -> (r: Result<(usize, RleTag), usize>)
    requires
        i <= s@.len(),
    ensures
        step_matches(r, sp_rle_tag(s@, i as int)),
{
    if i < s.len() {
        let b = s[i];
        if b == 36 {
            return Ok((i + 1, RleTag::NextLine));
        }
        if b == 98 {
            return Ok((i + 1, RleTag::Dead));
        }
        if b == 111 {
            return Ok((i + 1, RleTag::Alive));
        }
    }
    Err(i)
}

/// Specification of `rle_tag_sequence`: optional whitespace and line
/// breaks, an optional run length (default 1), then one tag.
pub open spec fn sp_rle_tag_sequence(s: Seq<u8>, i: int) -> Result<(int, RleTagSequence), int> {
    let j = sp_skip_ws(s, i);
    match sp_num(s, j) {
        Ok((j2, n)) => match sp_rle_tag(s, j2) {
            Ok((j3, t)) => Ok((j3, RleTagSequence(n, t))),
            Err(_) => Err(j2),
        },
        Err(_) => match sp_rle_tag(s, j) {
            Ok((j3, t)) => Ok((j3, RleTagSequence(1, t))),
            Err(_) => Err(j),
        },
    }
}

/// Skip spaces and tabs.
fn skip_spaces(s: &[u8], i: usize) -> (r: usize)
    requires
        i <= s@.len(),
    ensures
        r as int == sp_skip_spaces(s@, i as int),
        i <= r <= s@.len(),
{
    let mut j = i;
    while j < s.len() && (s[j] == 32 || s[j] == 9)
        invariant
            i <= j <= s@.len(),
            sp_skip_spaces(s@, i as int) == sp_skip_spaces(s@, j as int),
        decreases s@.len() - j,
    {
        j += 1;
    }
    j
}

/// Skip spaces, tabs and line breaks.
fn skip_ws(s: &[u8], i: usize) -> (r: usize)
    requires
        i <= s@.len(),
    ensures
        r as int == sp_skip_ws(s@, i as int),
        i <= r <= s@.len(),
{
    let mut j = i;
    loop
        invariant
            i <= j <= s@.len(),
            sp_skip_ws(s@, i as int) == sp_skip_ws(s@, j as int),
        ensures
            j as int == sp_skip_ws(s@, i as int),
        decreases s@.len() - j,
    {
        if j < s.len() && (s[j] == 32 || s[j] == 9 || s[j] == 10) {
            j += 1;
        } else if j < s.len() && s[j] == 13 && j + 1 < s.len() && s[j + 1] == 10 {
            j += 2;
        } else {
            break ;
        }
    }
    j
}

/// Parse one counted tag sequence.
pub fn rle_tag_sequence(s: &[u8], i: usize) -> (r: Result<(usize, RleTagSequence), usize>)
    requires
        i <= s@.len(),
    ensures
        step_matches(r, sp_rle_tag_sequence(s@, i as int)),
        r matches Ok((j, _t)) ==> i < j <= s@.len(),
{
    let j = skip_ws(s, i);
    match num(s, j) {
        Ok((j2, n)) => match rle_tag(s, j2) {
            Ok((j3, t)) => Ok((j3, RleTagSequence(n, t))),
            Err(_) => Err(j2),
        },
        Err(_) => match rle_tag(s, j) {
            Ok((j3, t)) => Ok((j3, RleTagSequence(1, t))),
            Err(_) => Err(j),
        },
    }
}

/// Specification of `rle_first_line`: optional spaces around the
/// tokens of `x = <num> , y = <num>`, then everything up to and
/// including the next newline is consumed (the ignored rule suffix).
pub open spec fn sp_rle_first_line(s: Seq<u8>, i: int) -> Result<(int, RleFirstLine), int> {
    let j0 = sp_skip_spaces(s, i);
    if !(j0 < s.len() && s[j0] == 120) {
        Err(j0)
    } else {
        let j1 = sp_skip_spaces(s, j0 + 1);
        if !(j1 < s.len() && s[j1] == 61) {
            Err(j1)
        } else {
            let j2 = sp_skip_spaces(s, j1 + 1);
            match sp_num(s, j2) {
                Err(_) => Err(j2),
                Ok((j3, xv)) => {
                    let j4 = sp_skip_spaces(s, j3);
                    if !(j4 < s.len() && s[j4] == 44) {
                        Err(j4)
                    } else {
                        let j5 = sp_skip_spaces(s, j4 + 1);
                        if !(j5 < s.len() && s[j5] == 121) {
                            Err(j5)
                        } else {
                            let j6 = sp_skip_spaces(s, j5 + 1);
                            if !(j6 < s.len() && s[j6] == 61) {
                                Err(j6)
                            } else {
                                let j7 = sp_skip_spaces(s, j6 + 1);
                                match sp_num(s, j7) {
                                    Err(_) => Err(j7),
                                    Ok((j8, yv)) => match sp_find_newline(s, j8) {
                                        Some(nl) => Ok((nl + 1, RleFirstLine(xv, yv))),
                                        None => Err(j8),
                                    },
                                }
                            }
                        }
                    }
                },
            }
        }
    }
}

/// Find the next newline and return the position just past it.
pub(crate) fn consume_through_newline(s: &[u8], i: usize) -> (r: Option<(usize, usize)>)
    requires
        i <= s@.len(),
    ensures
        r matches Some((nl, nxt)) ==> sp_find_newline(s@, i as int) == Some(nl as int) && nxt == nl
            + 1 && i <= nl < s@.len(),
        r is None ==> sp_find_newline(s@, i as int) is None,
{
    let mut j = i;
    while j < s.len() && s[j] != 10
        invariant
            i <= j <= s@.len(),
            sp_find_newline(s@, i as int) == sp_find_newline(s@, j as int),
        decreases s@.len() - j,
    {
        j += 1;
    }
    if j < s.len() {
        Some((j, j + 1))
    } else {
        None
    }
}

/// Parse the header line.
pub fn rle_first_line(s: &[u8], i: usize) -> (r: Result<(usize, RleFirstLine), usize>)
    requires
        i <= s@.len(),
    ensures
        step_matches(r, sp_rle_first_line(s@, i as int)),
        r matches Ok((j, _v)) ==> i <= j <= s@.len(),
{
    let j0 = skip_spaces(s, i);
    if !(j0 < s.len() && s[j0] == 120) {
        return Err(j0);
    }
    let j1 = skip_spaces(s, j0 + 1);
    if !(j1 < s.len() && s[j1] == 61) {
        return Err(j1);
    }
    let j2 = skip_spaces(s, j1 + 1);
    let (j3, xv) = match num(s, j2) {
        Err(_) => {
            return Err(j2);
        },
        Ok(p) => p,
    };
    proof {
        lemma_digits_end_bounds(s@, j2 as int);
    }
    let j4 = skip_spaces(s, j3);
    if !(j4 < s.len() && s[j4] == 44) {
        return Err(j4);
    }
    let j5 = skip_spaces(s, j4 + 1);
    if !(j5 < s.len() && s[j5] == 121) {
        return Err(j5);
    }
    let j6 = skip_spaces(s, j5 + 1);
    if !(j6 < s.len() && s[j6] == 61) {
        return Err(j6);
    }
    let j7 = skip_spaces(s, j6 + 1);
    let (j8, yv) = match num(s, j7) {
        Err(_) => {
            return Err(j7);
        },
        Ok(p) => p,
    };
    proof {
        lemma_digits_end_bounds(s@, j7 as int);
    }
    match consume_through_newline(s, j8) {
        Some((_, nxt)) => Ok((nxt, RleFirstLine(xv, yv))),
        None => Err(j8),
    }
}

/// Specification of a line break: `\n` or `\r\n`.
pub open spec fn sp_line_ending(s: Seq<u8>, i: int) -> Result<int, int> {
    if i < s.len() && s[i] == 10 {
        Ok(i + 1)
    } else if i + 1 < s.len() && s[i] == 13 && s[i + 1] == 10 {
        Ok(i + 2)
    } else {
        Err(i)
    }
}

/// Text from `i` up to the next newline, consumed past it; fails if
/// no newline follows or the text is not valid UTF-8.
pub open spec fn sp_take_line(s: Seq<u8>, i: int) -> Result<(int, Seq<char>), int> {
    match sp_find_newline(s, i) {
        Some(nl) => if vstd::utf8::valid_utf8(s.subrange(i, nl)) {
            Ok((nl + 1, vstd::utf8::decode_utf8(s.subrange(i, nl))))
        } else {
            Err(i)
        },
        None => Err(i),
    }
}

/// A `#P`/`#R` coordinates comment: two signed numbers separated by
/// whitespace, ending at a line break.
pub open spec fn sp_comment_coordinates(s: Seq<u8>, i: int) -> Result<(int, CommentV), int> {
    let j = sp_skip_spaces(s, i);
    if j + 2 < s.len() && s[j] == 35 && (s[j + 1] == 80 || s[j + 1] == 82) && s[j + 2] == 32 {
        match sp_signed_num(s, j + 3) {
            Ok((j4, x)) => if j4 < s.len() && is_space_b(s[j4]) {
                let j5 = sp_skip_spaces(s, j4);
                match sp_signed_num(s, j5) {
                    Ok((j6, y)) => match sp_line_ending(s, j6) {
                        Ok(j7) => Ok((j7, CommentV::Coordinates(x as int, y as int))),
                        Err(p) => Err(p),
                    },
                    Err(p) => Err(p),
                }
            } else {
                Err(j4)
            },
            Err(p) => Err(p),
        }
    } else {
        Err(j)
    }
}

/// A comment of the shape `#<t> <text>` up to the line's end.
pub open spec fn sp_tagged_line(s: Seq<u8>, i: int, t: u8) -> Result<(int, Seq<char>), int> {
    let j = sp_skip_spaces(s, i);
    if j + 2 < s.len() && s[j] == 35 && s[j + 1] == t && s[j + 2] == 32 {
        sp_take_line(s, j + 3)
    } else {
        Err(j)
    }
}

/// Any other `#`-prefixed line, captured verbatim.
pub open spec fn sp_comment_other(s: Seq<u8>, i: int) -> Result<(int, CommentV), int> {
    let j = sp_skip_spaces(s, i);
    if j < s.len() && s[j] == 35 {
        match sp_take_line(s, j + 1) {
            Ok((j2, txt)) => Ok((j2, CommentV::Other(txt))),
            Err(p) => Err(p),
        }
    } else {
        Err(j)
    }
}

/// One comment line: coordinates, author (`#O`), name (`#N`), free
/// comment (`#C`/`#c`), then the catch-all, tried in that order.
pub open spec fn sp_rle_comment(s: Seq<u8>, i: int) -> Result<(int, CommentV), int> {
    match sp_comment_coordinates(s, i) {
        Ok(p) => Ok(p),
        Err(_) => match sp_tagged_line(s, i, 79) {
            Ok((j, txt)) => Ok((j, CommentV::Author(txt))),
            Err(_) => match sp_tagged_line(s, i, 78) {
                Ok((j, txt)) => Ok((j, CommentV::Name(txt))),
                Err(_) => match sp_tagged_line(s, i, 67) {
                    Ok((j, txt)) => Ok((j, CommentV::Comment(txt))),
                    Err(_) => match sp_tagged_line(s, i, 99) {
                        Ok((j, txt)) => Ok((j, CommentV::Comment(txt))),
                        Err(_) => sp_comment_other(s, i),
                    },
                },
            },
        },
    }
}

/// As many comments as parse, with where they end.
pub open spec fn sp_comments(s: Seq<u8>, i: int) -> (int, Seq<CommentV>)
    decreases s.len() - i when 0 <= i <= s.len()
{
    match sp_rle_comment(s, i) {
        Ok((j, c)) => if i < j <= s.len() {
            let rest = sp_comments(s, j);
            (rest.0, seq![c] + rest.1)
        } else {
            (i, Seq::empty())
        },
        Err(_) => (i, Seq::empty()),
    }
}

/// As many body tag sequences as parse, with where they end.
pub open spec fn sp_sequences(s: Seq<u8>, i: int) -> (int, Seq<RleTagSequence>)
    decreases s.len() - i when 0 <= i <= s.len()
{
    match sp_rle_tag_sequence(s, i) {
        Ok((j, t)) => if i < j <= s.len() {
            let rest = sp_sequences(s, j);
            (rest.0, seq![t] + rest.1)
        } else {
            (i, Seq::empty())
        },
        Err(_) => (i, Seq::empty()),
    }
}

/// Specification of `parse_rle`: comments, the header, at least one
/// body tag sequence, then the mandatory `!`.
pub open spec fn sp_parse_rle(s: Seq<u8>) -> Result<(int, RleV), int> {
    let c = sp_comments(s, 0);
    match sp_rle_first_line(s, c.0) {
        Err(p) => Err(p),
        Ok((j2, size)) => match sp_rle_tag_sequence(s, j2) {
            Err(p) => Err(p),
            Ok(_) => {
                let body = sp_sequences(s, j2);
                if body.0 < s.len() && s[body.0] == 33 {
                    Ok((body.0 + 1, RleV { comments: c.1, size, content: body.1 }))
                } else {
                    Err(body.0)
                }
            },
        },
    }
}

/// An executable comment step agrees with its specification mirror.
pub open spec fn comment_step_matches(
    r: Result<(usize, RleComment), usize>,
    s: Result<(int, CommentV), int>,
) -> bool {
    match (r, s) {
        (Ok((j, c)), Ok((j2, cv))) => j as int == j2 && comment_view(c) == cv,
        (Err(p), Err(p2)) => p as int == p2,
        _ => false,
    }
}

/// Relies on `String::from_utf8`: it returns `Ok` exactly on valid
/// UTF-8 input, which it decodes into the string's characters.
#[verifier::external_body]
pub(crate) fn string_from_utf8(v: Vec<u8>) -> (r: Option<String>)
    ensures
        r is Some <==> vstd::utf8::valid_utf8(v@),
        r matches Some(st) ==> st@ == vstd::utf8::decode_utf8(v@),
{
    String::from_utf8(v).ok()
}

/// Copy the byte range `[a, b)` out of a slice.
fn copy_range(s: &[u8], a: usize, b: usize) -> (r: Vec<u8>)
    requires
        a <= b,
        b <= s@.len(),
    ensures
        r@ == s@.subrange(a as int, b as int),
{
    let mut v: Vec<u8> = Vec::new();
    proof {
        assert(v@ =~= s@.subrange(a as int, a as int));
    }
    let mut k = a;
    while k < b
        invariant
            a <= k <= b <= s@.len(),
            v@ == s@.subrange(a as int, k as int),
        decreases b - k,
    {
        v.push(s[k]);
        proof {
            assert(v@ =~= s@.subrange(a as int, k as int + 1));
        }
        k += 1;
    }
    v
}

/// Parse a line break.
fn line_ending(s: &[u8], i: usize) -> (r: Result<usize, usize>)
    requires
        i <= s@.len(),
    ensures
        r matches Ok(j) ==> sp_line_ending(s@, i as int) == Ok::<int, int>(j as int) && i < j
            <= s@.len(),
        r matches Err(p) ==> sp_line_ending(s@, i as int) == Err::<int, int>(p as int),
{
    if i < s.len() && s[i] == 10 {
        Ok(i + 1)
    } else if i < s.len() && s[i] == 13 && i + 1 < s.len() && s[i + 1] == 10 {
        Ok(i + 2)
    } else {
        Err(i)
    }
}

/// Read one comment line's text and build the owned string.
fn take_line(s: &[u8], i: usize) -> (r: Result<(usize, String), usize>)
    requires
        i <= s@.len(),
    ensures
        (r is Ok <==> sp_take_line(s@, i as int) is Ok),
        r matches Ok((j, st)) ==> (sp_take_line(s@, i as int) matches Ok((j2, txt)) && j as int
            == j2 && st@ == txt),
        r matches Err(p) ==> (sp_take_line(s@, i as int) matches Err(p2) && p as int == p2),
        r matches Ok((j, _)) ==> i < j <= s@.len(),
{
    proof {
        lemma_find_newline_bounds(s@, i as int);
    }
    match consume_through_newline(s, i) {
        Some((nl, nxt)) => {
            let payload = copy_range(s, i, nl);
            match string_from_utf8(payload) {
                Some(st) => Ok((nxt, st)),
                None => Err(i),
            }
        },
        None => Err(i),
    }
}

/// Parse a `#P`/`#R` coordinates comment.
fn rle_comment_coordinates(s: &[u8], i: usize) -> (r: Result<(usize, RleComment), usize>)
    requires
        i <= s@.len(),
    ensures
        comment_step_matches(r, sp_comment_coordinates(s@, i as int)),
        r matches Ok((j, _)) ==> i < j <= s@.len(),
{
    let j = skip_spaces(s, i);
    if s.len() - j > 2 && s[j] == 35 && (s[j + 1] == 80 || s[j + 1] == 82) && s[j + 2] == 32 {
        match signed_num(s, j + 3) {
            Ok((j4, x)) => {
                if j4 < s.len() && (s[j4] == 32 || s[j4] == 9) {
                    let j5 = skip_spaces(s, j4);
                    match signed_num(s, j5) {
                        Ok((j6, y)) => match line_ending(s, j6) {
                            Ok(j7) => Ok((j7, RleComment::Coordinates(x, y))),
                            Err(p) => Err(p),
                        },
                        Err(p) => Err(p),
                    }
                } else {
                    Err(j4)
                }
            },
            Err(p) => Err(p),
        }
    } else {
        Err(j)
    }
}

/// Parse a `#<t> <text>` comment line.
fn tagged_line(s: &[u8], i: usize, t: u8) -> (r: Result<(usize, String), usize>)
    requires
        i <= s@.len(),
    ensures
        (r is Ok <==> sp_tagged_line(s@, i as int, t) is Ok),
        r matches Ok((j, st)) ==> (sp_tagged_line(s@, i as int, t) matches Ok((j2, txt))
            && j as int == j2 && st@ == txt),
        r matches Err(p) ==> (sp_tagged_line(s@, i as int, t) matches Err(p2) && p as int == p2),
        r matches Ok((j, _)) ==> i < j <= s@.len(),
{
    let j = skip_spaces(s, i);
    if s.len() - j > 2 && s[j] == 35 && s[j + 1] == t && s[j + 2] == 32 {
        take_line(s, j + 3)
    } else {
        Err(j)
    }
}

/// Parse one comment line, trying the specific forms first and the
/// catch-all last.
fn rle_comment(s: &[u8], i: usize) -> (r: Result<(usize, RleComment), usize>)
    requires
        i <= s@.len(),
    ensures
        comment_step_matches(r, sp_rle_comment(s@, i as int)),
        r matches Ok((j, _)) ==> i < j <= s@.len(),
{
    match rle_comment_coordinates(s, i) {
        Ok(p) => {
            return Ok(p);
        },
        Err(_) => {},
    }
    match tagged_line(s, i, 79) {
        Ok((j, st)) => {
            return Ok((j, RleComment::Author(st)));
        },
        Err(_) => {},
    }
    match tagged_line(s, i, 78) {
        Ok((j, st)) => {
            return Ok((j, RleComment::Name(st)));
        },
        Err(_) => {},
    }
    match tagged_line(s, i, 67) {
        Ok((j, st)) => {
            return Ok((j, RleComment::Comment(st)));
        },
        Err(_) => {},
    }
    match tagged_line(s, i, 99) {
        Ok((j, st)) => {
            return Ok((j, RleComment::Comment(st)));
        },
        Err(_) => {},
    }
    let j = skip_spaces(s, i);
    if j < s.len() && s[j] == 35 {
        match take_line(s, j + 1) {
            Ok((j2, st)) => Ok((j2, RleComment::Other(st))),
            Err(p) => Err(p),
        }
    } else {
        Err(j)
    }
}

/// Parse a complete RLE pattern from the start of `s`. On success the
/// returned position is just past the terminating `!`; trailing input
/// is left unconsumed. On failure the grid-free structure of the
/// input decides the reported position.
pub fn parse_rle(s: &[u8]) -> (r: Result<(usize, Rle), usize>)
    ensures
        (r is Ok <==> sp_parse_rle(s@) is Ok),
        r matches Ok((j, rle)) ==> (sp_parse_rle(s@) matches Ok((j2, rv)) && j as int == j2
            && rle_view(rle) == rv),
        r matches Err(p) ==> (sp_parse_rle(s@) matches Err(p2) && p as int == p2),
{
    let mut comments: Vec<RleComment> = Vec::new();
    let mut i: usize = 0;
    proof {
        assert(comments_view(comments@) + sp_comments(s@, 0).1 =~= sp_comments(s@, 0).1);
    }
    loop
        invariant
            i <= s@.len(),
            sp_comments(s@, 0).0 == sp_comments(s@, i as int).0,
            sp_comments(s@, 0).1 == comments_view(comments@) + sp_comments(s@, i as int).1,
        ensures
            i <= s@.len(),
            sp_comments(s@, 0).0 == i as int,
            sp_comments(s@, 0).1 == comments_view(comments@),
        decreases s@.len() - i,
    {
        let ghost prev = comments@;
        match rle_comment(s, i) {
            Ok((j, c)) => {
                comments.push(c);
                proof {
                    assert(sp_comments(s@, i as int).1 =~= seq![comment_view(c)] + sp_comments(
                        s@,
                        j as int,
                    ).1);
                    assert(comments@ == prev.push(c));
                    assert(comments_view(comments@) =~= comments_view(prev).push(comment_view(c)));
                    assert(comments_view(prev) + sp_comments(s@, i as int).1 =~= comments_view(
                        comments@,
                    ) + sp_comments(s@, j as int).1);
                }
                i = j;
            },
            Err(_) => {
                proof {
                    assert(comments_view(comments@) + sp_comments(s@, i as int).1 =~= comments_view(
                        comments@,
                    ));
                }
                break ;
            },
        }
    }
    let (j2, size) = match rle_first_line(s, i) {
        Err(p) => {
            return Err(p);
        },
        Ok(p) => p,
    };
    match rle_tag_sequence(s, j2) {
        Err(p) => {
            return Err(p);
        },
        Ok(_) => {},
    }
    let mut content: Vec<RleTagSequence> = Vec::new();
    let mut k = j2;
    proof {
        assert(content@ + sp_sequences(s@, j2 as int).1 =~= sp_sequences(s@, j2 as int).1);
    }
    loop
        invariant
            k <= s@.len(),
            sp_sequences(s@, j2 as int).0 == sp_sequences(s@, k as int).0,
            sp_sequences(s@, j2 as int).1 == content@ + sp_sequences(s@, k as int).1,
        ensures
            k <= s@.len(),
            sp_sequences(s@, j2 as int).0 == k as int,
            sp_sequences(s@, j2 as int).1 == content@,
        decreases s@.len() - k,
    {
        let ghost prev = content@;
        match rle_tag_sequence(s, k) {
            Ok((j3, t)) => {
                content.push(t);
                proof {
                    assert(sp_sequences(s@, k as int).1 =~= seq![t] + sp_sequences(
                        s@,
                        j3 as int,
                    ).1);
                    assert(prev + sp_sequences(s@, k as int).1 =~= content@ + sp_sequences(
                        s@,
                        j3 as int,
                    ).1);
                }
                k = j3;
            },
            Err(_) => {
                proof {
                    assert(content@ + sp_sequences(s@, k as int).1 =~= content@);
                }
                break ;
            },
        }
    }
    if k < s.len() && s[k] == 33 {
        let rle = Rle { comments, size, content };
        proof {
            let spr = sp_parse_rle(s@);
            assert(spr is Ok);
            let rv = (match spr {
                Ok(p) => p.1,
                Err(_) => RleV { comments: Seq::empty(), size: RleFirstLine(0, 0), content: Seq::empty() },
            });
            assert(rle_view(rle).comments =~= rv.comments);
            assert(rle_view(rle) =~= rv);
        }
        Ok((k + 1, rle))
    } else {
        Err(k)
    }
}

} // verus!
