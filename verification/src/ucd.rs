//! Parsing of the character-database sources the table is curated from.
//!
//! Three line formats occur: `CODE;NAME;...` records, where a name opening
//! with `<` marks a placeholder to skip; space-separated records whose
//! first token is a code point or a `START..END` span, with `#` opening a
//! comment; and tab-separated records whose first token is a `U+CODE`
//! prefix. Reading the files stays outside; these functions classify one
//! line each, and `insert_code_point` grows the sorted, duplicate-free
//! list the compressor expects.

use vstd::prelude::*;

verus! {

use vstd::string::StrSliceExecFns;
use crate::ranges::ascending;

/// What one source line contributes to the code-point list.
#[derive(Debug, Clone, Copy, PartialEq, Eq, Structural)]
pub enum ParsedLine {
    /// One code point.
    Code(u32),
    /// A span of code points, from the first up to but not including the
    /// second.
    Span(u32, u32),
    /// Nothing: a comment, a placeholder record or an empty line.
    Skip,
    /// A malformed record: table generation must abort.
    Bad,
}

/// A hexadecimal digit.
pub open spec fn is_hex_digit(c: char) -> bool {
    let u = c as int;
    (0x30 <= u <= 0x39) || (0x41 <= u <= 0x46) || (0x61 <= u <= 0x66)
}

/// The value of a hexadecimal digit; zero for any other character.
pub open spec fn hex_digit_val(c: char) -> int {
    let u = c as int;
    if 0x30 <= u <= 0x39 {
        u - 0x30
    } else if 0x41 <= u <= 0x46 {
        u - 0x37
    } else if 0x61 <= u <= 0x66 {
        u - 0x57
    } else {
        0
    }
}

/// The number a digit string spells, most significant digit first.
pub open spec fn hex_val(digits: Seq<char>) -> int
    decreases digits.len(),
{
    if digits.len() == 0 {
        0
    } else {
        16 * hex_val(digits.drop_last()) + hex_digit_val(digits.last())
    }
}

/// A digit string that spells a `u32`: nonempty, hexadecimal throughout,
/// and within range.
pub open spec fn valid_hex_u32(digits: Seq<char>) -> bool {
    &&& digits.len() > 0
    &&& forall|k: int| 0 <= k < digits.len() ==> is_hex_digit(#[trigger] digits[k])
    &&& hex_val(digits) <= 0xFFFF_FFFF
}

/// A digit string never spells a negative number.
pub proof fn lemma_hex_val_nonneg(digits: Seq<char>)
    ensures
        hex_val(digits) >= 0,
    decreases digits.len(),
{
    if digits.len() > 0 {
        lemma_hex_val_nonneg(digits.drop_last());
    }
}

/// One more digit multiplies the prefix value by sixteen and adds the
/// digit.
pub proof fn lemma_hex_val_extend(digits: Seq<char>, k: int)
    requires
        0 <= k < digits.len(),
    ensures
        hex_val(digits.take(k + 1)) == 16 * hex_val(digits.take(k)) + hex_digit_val(digits[k]),
{
    assert(digits.take(k + 1).drop_last() =~= digits.take(k));
    assert(digits.take(k + 1).last() == digits[k]);
}

/// A prefix never spells more than the whole string.
pub proof fn lemma_hex_val_prefix(digits: Seq<char>, k: int)
    requires
        0 <= k <= digits.len(),
    ensures
        hex_val(digits.take(k)) <= hex_val(digits),
    decreases digits.len(),
{
    if k < digits.len() {
        assert(digits.take(k) =~= digits.drop_last().take(k));
        lemma_hex_val_prefix(digits.drop_last(), k);
        lemma_hex_val_nonneg(digits.drop_last());
    } else {
        assert(digits.take(k) =~= digits);
    }
}

/// Parses a hexadecimal code point: `Some` exactly when the string is
/// nonempty, hexadecimal throughout and fits, and then its value.
#[verifier::loop_isolation(false)]
pub fn parse_code_point(code_point: &str) -> (r: Option<u32>)
    ensures
        r is Some <==> valid_hex_u32(code_point@),
        r matches Some(v) ==> v as int == hex_val(code_point@),
{
    let ghost digits = code_point@;
    let len = code_point.unicode_len();
    if len == 0 {
        return None;
    }
    let mut acc: u32 = 0;
    let mut k: usize = 0;
    while k < len
        invariant
            0 <= k <= len,
            len == digits.len(),
            forall|j: int| 0 <= j < k ==> is_hex_digit(#[trigger] digits[j]),
            acc as int == hex_val(digits.take(k as int)),
        decreases len - k,
    {
        let ch = code_point.get_char(k);
        let u = ch as u32;
        let d: u32 = if 0x30 <= u && u <= 0x39 {
            u - 0x30
        } else if 0x41 <= u && u <= 0x46 {
            u - 0x37
        } else if 0x61 <= u && u <= 0x66 {
            u - 0x57
        } else {
            return None;
        };
        proof {
            assert(is_hex_digit(digits[k as int]));
            assert(d as int == hex_digit_val(digits[k as int]));
            lemma_hex_val_extend(digits, k as int);
        }
        if acc > 0x0FFF_FFFF {
            proof {
                lemma_hex_val_nonneg(digits.take(k as int));
                lemma_hex_val_prefix(digits, k + 1);
                assert(hex_val(digits) > 0xFFFF_FFFF);
            }
            return None;
        }
        acc = 16 * acc + d;
        k = k + 1;
    }
    proof {
        assert(digits.take(len as int) =~= digits);
    }
    Some(acc)
}

/// The first position at or past `from` holding `c`, or -1.
pub open spec fn find_from(chars: Seq<char>, from: int, c: char) -> int
    decreases chars.len() - from,
{
    if from < 0 || from >= chars.len() {
        -1
    } else if chars[from] == c {
        from
    } else {
        find_from(chars, from + 1, c)
    }
}

/// A found position characterizes `find_from`.
proof fn lemma_find_from_at(chars: Seq<char>, from: int, k: int, c: char)
    requires
        0 <= from <= k < chars.len(),
        chars[k] == c,
        forall|j: int| from <= j < k ==> chars[j] != c,
    ensures
        find_from(chars, from, c) == k,
    decreases k - from,
{
    if from < k {
        lemma_find_from_at(chars, from + 1, k, c);
    }
}

/// No occurrence at or past `from` characterizes the -1 answer.
proof fn lemma_find_from_none(chars: Seq<char>, from: int, c: char)
    requires
        0 <= from,
        forall|j: int| from <= j < chars.len() ==> chars[j] != c,
    ensures
        find_from(chars, from, c) == -1,
    decreases chars.len() - from,
{
    if from < chars.len() {
        lemma_find_from_none(chars, from + 1, c);
    }
}

/// Scans for the first occurrence of `c` in the text.
#[verifier::loop_isolation(false)]
fn find_char(s: &str, c: char) -> (r: Option<usize>)
    ensures
        ({
            let f = find_from(s@, 0, c);
            &&& (r matches Some(i) ==> f == i && i < s@.len())
            &&& (r is None ==> f == -1)
        }),
{
    let len = s.unicode_len();
    let mut k: usize = 0;
    while k < len
        invariant
            0 <= k <= len,
            len == s@.len(),
            forall|j: int| 0 <= j < k ==> s@[j] != c,
        decreases len - k,
    {
        if s.get_char(k) == c {
            proof {
                lemma_find_from_at(s@, 0, k as int, c);
            }
            return Some(k);
        }
        k = k + 1;
    }
    proof {
        lemma_find_from_none(s@, 0, c);
    }
    None
}

/// A `..` opens at position `j`.
pub open spec fn dotdot_at(chars: Seq<char>, j: int) -> bool {
    0 <= j && j + 1 < chars.len() && chars[j] == '.' && chars[j + 1] == '.'
}

/// The first position at or past `from` where `..` opens, or -1.
pub open spec fn find_dotdot(chars: Seq<char>, from: int) -> int
    decreases chars.len() - from,
{
    if from < 0 || from + 1 >= chars.len() {
        -1
    } else if dotdot_at(chars, from) {
        from
    } else {
        find_dotdot(chars, from + 1)
    }
}

proof fn lemma_find_dotdot_at(chars: Seq<char>, from: int, k: int)
    requires
        0 <= from <= k,
        dotdot_at(chars, k),
        forall|j: int| from <= j < k ==> !(#[trigger] dotdot_at(chars, j)),
    ensures
        find_dotdot(chars, from) == k,
    decreases k - from,
{
    if from < k {
        lemma_find_dotdot_at(chars, from + 1, k);
    }
}

proof fn lemma_find_dotdot_none(chars: Seq<char>, from: int)
    requires
        0 <= from,
        forall|j: int| from <= j < chars.len() - 1 ==> !(#[trigger] dotdot_at(chars, j)),
    ensures
        find_dotdot(chars, from) == -1,
    decreases chars.len() - from,
{
    if from + 1 < chars.len() {
        lemma_find_dotdot_none(chars, from + 1);
    }
}

/// Scans for the first `..` in the text.
#[verifier::loop_isolation(false)]
fn find_dots(s: &str) -> (r: Option<usize>)
    ensures
        ({
            let f = find_dotdot(s@, 0);
            &&& (r matches Some(i) ==> f == i && i + 1 < s@.len())
            &&& (r is None ==> f == -1)
        }),
{
    let len = s.unicode_len();
    if len < 2 {
        proof {
            lemma_find_dotdot_none(s@, 0);
        }
        return None;
    }
    let mut k: usize = 0;
    while k + 1 < len
        invariant
            0 <= k <= len - 1,
            2 <= len == s@.len(),
            forall|j: int| 0 <= j < k ==> !(#[trigger] dotdot_at(s@, j)),
        decreases len - k,
    {
        if s.get_char(k) == '.' && s.get_char(k + 1) == '.' {
            proof {
                assert(dotdot_at(s@, k as int));
                lemma_find_dotdot_at(s@, 0, k as int);
            }
            return Some(k);
        }
        proof {
            assert(!dotdot_at(s@, k as int));
        }
        k = k + 1;
    }
    proof {
        lemma_find_dotdot_none(s@, 0);
    }
    None
}

/// One code point from a digit string, or a malformed record.
pub open spec fn hex_to_line(digits: Seq<char>) -> ParsedLine {
    if valid_hex_u32(digits) {
        ParsedLine::Code(hex_val(digits) as u32)
    } else {
        ParsedLine::Bad
    }
}

/// What a `CODE;NAME;...` record line contributes: nothing when the name
/// opens with `<`, its code point otherwise; malformed without any `;`.
pub open spec fn unicode_data_line_spec(chars: Seq<char>) -> ParsedLine {
    let semi = find_from(chars, 0, ';');
    if semi < 0 {
        ParsedLine::Bad
    } else if semi + 1 < chars.len() && chars[semi + 1] == '<' {
        ParsedLine::Skip
    } else {
        hex_to_line(chars.take(semi))
    }
}

/// Classifies one `CODE;NAME;...` record line.
pub fn unicode_data_line(line: &str) -> (r: ParsedLine)
    ensures
        r == unicode_data_line_spec(line@),
{
    let len = line.unicode_len();
    let semi = match find_char(line, ';') {
        Some(i) => i,
        None => {
            return ParsedLine::Bad;
        },
    };
    if semi + 1 < len && line.get_char(semi + 1) == '<' {
        return ParsedLine::Skip;
    }
    let field = line.substring_char(0, semi);
    match parse_code_point(field) {
        Some(v) => ParsedLine::Code(v),
        None => ParsedLine::Bad,
    }
}

/// What a space-separated line contributes: nothing when empty or a `#`
/// comment; else its first token, a code point or a `START..END` span.
pub open spec fn hangul_line_spec(chars: Seq<char>) -> ParsedLine {
    if chars.len() == 0 {
        ParsedLine::Skip
    } else {
        let sp = find_from(chars, 0, ' ');
        let tok = if sp < 0 {
            chars
        } else {
            chars.take(sp)
        };
        if tok.len() > 0 && tok[0] == '#' {
            ParsedLine::Skip
        } else {
            let dd = find_dotdot(tok, 0);
            if dd < 0 {
                hex_to_line(tok)
            } else {
                let start = tok.take(dd);
                let rest = tok.skip(dd + 2);
                let dd2 = find_dotdot(rest, 0);
                let endp = if dd2 < 0 {
                    rest
                } else {
                    rest.take(dd2)
                };
                if valid_hex_u32(start) && valid_hex_u32(endp) {
                    ParsedLine::Span(hex_val(start) as u32, hex_val(endp) as u32)
                } else {
                    ParsedLine::Bad
                }
            }
        }
    }
}

/// Classifies one space-separated record line.
pub fn hangul_line(line: &str) -> (r: ParsedLine)
    ensures
        r == hangul_line_spec(line@),
{
    let len = line.unicode_len();
    if len == 0 {
        return ParsedLine::Skip;
    }
    let tok_end = match find_char(line, ' ') {
        Some(i) => i,
        None => len,
    };
    let tok = line.substring_char(0, tok_end);
    proof {
        assert(tok@ =~= ({
            let sp = find_from(line@, 0, ' ');
            if sp < 0 {
                line@
            } else {
                line@.take(sp)
            }
        }));
    }
    if tok.unicode_len() > 0 && tok.get_char(0) == '#' {
        return ParsedLine::Skip;
    }
    let dd = match find_dots(tok) {
        Some(i) => i,
        None => {
            return match parse_code_point(tok) {
                Some(v) => ParsedLine::Code(v),
                None => ParsedLine::Bad,
            };
        },
    };
    let start_str = tok.substring_char(0, dd);
    let rest = tok.substring_char(dd + 2, tok.unicode_len());
    proof {
        assert(rest@ =~= tok@.skip(dd + 2));
    }
    let end_len = match find_dots(rest) {
        Some(i) => i,
        None => rest.unicode_len(),
    };
    let end_str = rest.substring_char(0, end_len);
    proof {
        assert(end_str@ =~= ({
            let dd2 = find_dotdot(rest@, 0);
            if dd2 < 0 {
                rest@
            } else {
                rest@.take(dd2)
            }
        }));
    }
    let a = parse_code_point(start_str);
    let b = parse_code_point(end_str);
    match (a, b) {
        (Some(x), Some(y)) => ParsedLine::Span(x, y),
        _ => ParsedLine::Bad,
    }
}

/// What a tab-separated line contributes: its first token's code point
/// when that token opens with `U+`, nothing otherwise.
pub open spec fn unihan_line_spec(chars: Seq<char>) -> ParsedLine {
    let tab = find_from(chars, 0, '\t');
    let tok = if tab < 0 {
        chars
    } else {
        chars.take(tab)
    };
    if tok.len() >= 2 && tok[0] == 'U' && tok[1] == '+' {
        hex_to_line(tok.skip(2))
    } else {
        ParsedLine::Skip
    }
}

/// Classifies one tab-separated record line.
pub fn unihan_line(line: &str) -> (r: ParsedLine)
    ensures
        r == unihan_line_spec(line@),
{
    let tok_end = match find_char(line, '\t') {
        Some(i) => i,
        None => line.unicode_len(),
    };
    let tok = line.substring_char(0, tok_end);
    proof {
        assert(tok@ =~= ({
            let tab = find_from(line@, 0, '\t');
            if tab < 0 {
                line@
            } else {
                line@.take(tab)
            }
        }));
    }
    if tok.unicode_len() < 2 || !(tok.get_char(0) == 'U' && tok.get_char(1) == '+') {
        return ParsedLine::Skip;
    }
    let digits = tok.substring_char(2, tok.unicode_len());
    proof {
        assert(digits@ =~= tok@.skip(2));
    }
    match parse_code_point(digits) {
        Some(v) => ParsedLine::Code(v),
        None => ParsedLine::Bad,
    }
}

/// Inserts a code point into a sorted, duplicate-free list, keeping it
/// sorted and duplicate-free: the set grows by the point and nothing else.
#[verifier::loop_isolation(false)]
pub fn insert_code_point(points: &mut Vec<u32>, cp: u32)
    requires
        ascending(old(points)@),
    ensures
        ascending(final(points)@),
        forall|x: u32| final(points)@.contains(x) <==> old(points)@.contains(x) || x == cp,
        final(points)@.len() <= old(points)@.len() + 1,
{
    let ghost orig = points@;
    let mut lo: usize = 0;
    let mut hi: usize = points.len();
    while lo < hi
        invariant
            0 <= lo <= hi <= orig.len(),
            points@ == orig,
            forall|j: int| 0 <= j < lo ==> orig[j] < cp,
            forall|j: int| hi <= j < orig.len() ==> orig[j] > cp,
        decreases hi - lo,
    {
        let mid = lo + (hi - lo) / 2;
        let v = points[mid];
        if v < cp {
            lo = mid + 1;
        } else if v > cp {
            hi = mid;
        } else {
            proof {
                assert(orig.contains(cp)) by {
                    assert(orig[mid as int] == cp);
                }
                assert forall|x: u32| points@.contains(x) <==> orig.contains(x) || x == cp by {}
            }
            return ;
        }
    }
    points.insert(lo, cp);
    proof {
        let now = points@;
        assert(now =~= orig.take(lo as int) + seq![cp] + orig.skip(lo as int));
        assert forall|a: int, b: int| 0 <= a < b < now.len() implies #[trigger] now[a]
            < #[trigger] now[b] by {
            assert(now[a] == if a < lo {
                orig[a]
            } else if a == lo {
                cp
            } else {
                orig[a - 1]
            });
            assert(now[b] == if b < lo {
                orig[b]
            } else if b == lo {
                cp
            } else {
                orig[b - 1]
            });
        }
        assert forall|x: u32| now.contains(x) implies orig.contains(x) || x == cp by {
            let i = choose|i: int| 0 <= i < now.len() && now[i] == x;
            if i < lo {
                assert(orig[i] == x);
            } else if i > lo {
                assert(orig[i - 1] == x);
            }
        }
        assert forall|x: u32| orig.contains(x) || x == cp implies now.contains(x) by {
            if orig.contains(x) {
                let i = choose|i: int| 0 <= i < orig.len() && orig[i] == x;
                if i < lo {
                    assert(now[i] == x);
                } else {
                    assert(now[i + 1] == x);
                }
            } else {
                assert(now[lo as int] == cp);
            }
        }
    }
}

} // verus!
