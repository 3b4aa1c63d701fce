//! Reading the structure of a GNU Info file: the makeinfo version of its
//! header, its node headers, its split parts and its index menu.
use vstd::prelude::*;
use crate::info_index::{DeffnEntry, DeffnV, deffn_end, measure_deffn_length, seek_lines, topic_offset, byte_slice, find_newline, is_utf8, lossy_chars, memchr, next_byte, utf8_lossy, utf8_valid};
use crate::text::{
    chars_of, chars_of_string, eq_chars, find_chars_from, find_from, has_prefix, is_whitespace,
    is_ws, lemma_find_from, lemma_next_char, lemma_ws_skip_bounds, lines, matches_at, next_char,
    occurs_at, push_all, skip_ws, slice_copy, split_lines, starts_with, string_of, strs, trim,
    trimmed, views, ws_skip,
};

verus! {

// ---------------------------------------------------------------------------
// Digits
// ---------------------------------------------------------------------------

/// An ASCII digit.
pub open spec fn is_digit(c: char) -> bool {
    '0' <= c <= '9'
}

/// The number that the ASCII digits `s[i..j]` spell.
pub open spec fn digits_value(s: Seq<char>, i: int, j: int) -> nat
    decreases j - i,
{
    if j <= i {
        0
    } else {
        digits_value(s, i, j - 1) * 10 + (s[j - 1] as nat - '0' as nat) as nat
    }
}

proof fn lemma_digits_grow(s: Seq<char>, i: int, j: int, k: int)
    requires
        i <= j <= k,
        forall|q: int| i <= q < k ==> is_digit(#[trigger] s[q]),
    ensures
        digits_value(s, i, j) <= digits_value(s, i, k),
    decreases k - j,
{
    if j < k {
        lemma_digits_grow(s, i, j, k - 1);
        assert(is_digit(s[k - 1]));
    }
}

/// The number spelled by the ASCII digits `s[a..e]`, or `None` when it does
/// not fit in a `usize`.
fn digits_usize(s: &[char], a: usize, e: usize) -> (r: Option<usize>)
    requires
        a <= e <= s@.len(),
        forall|q: int| a <= q < e ==> is_digit(#[trigger] s@[q]),
    ensures
        match r {
            Some(v) => v == digits_value(s@, a as int, e as int),
            None => digits_value(s@, a as int, e as int) > usize::MAX,
        },
{
    let mut v: usize = 0;
    let mut k = a;
    while k < e
        invariant
            a <= k <= e <= s@.len(),
            forall|q: int| a <= q < e ==> is_digit(#[trigger] s@[q]),
            v == digits_value(s@, a as int, k as int),
        decreases e - k,
    {
        let d = (s[k] as u32 - '0' as u32) as usize;
        assert(is_digit(s@[k as int]));
        match v.checked_mul(10) {
            Some(m) => match m.checked_add(d) {
                Some(n) => {
                    v = n;
                },
                None => {
                    proof {
                        lemma_digits_grow(s@, a as int, k + 1, e as int);
                    }
                    return None;
                },
            },
            None => {
                proof {
                    lemma_digits_grow(s@, a as int, k + 1, e as int);
                }
                return None;
            },
        }
        k += 1;
    }
    Some(v)
}

/// Whether `c` is a decimal digit: a character of Unicode's general category
/// `Nd` (as of Unicode 16.0), what `\d` stands for in the line patterns of
/// info files (headings, split parts, the version, index line references)
/// and of example prompts. It holds of ASCII `0`-`9` and of the decimal
/// digits of other scripts.
#[verifier::opaque]
pub open spec fn is_decimal_digit(c: char) -> bool {
    let v = c as u32;
    ||| 0x30 <= v <= 0x39
    ||| 0x660 <= v <= 0x669
    ||| 0x6F0 <= v <= 0x6F9
    ||| 0x7C0 <= v <= 0x7C9
    ||| 0x966 <= v <= 0x96F
    ||| 0x9E6 <= v <= 0x9EF
    ||| 0xA66 <= v <= 0xA6F
    ||| 0xAE6 <= v <= 0xAEF
    ||| 0xB66 <= v <= 0xB6F
    ||| 0xBE6 <= v <= 0xBEF
    ||| 0xC66 <= v <= 0xC6F
    ||| 0xCE6 <= v <= 0xCEF
    ||| 0xD66 <= v <= 0xD6F
    ||| 0xDE6 <= v <= 0xDEF
    ||| 0xE50 <= v <= 0xE59
    ||| 0xED0 <= v <= 0xED9
    ||| 0xF20 <= v <= 0xF29
    ||| 0x1040 <= v <= 0x1049
    ||| 0x1090 <= v <= 0x1099
    ||| 0x17E0 <= v <= 0x17E9
    ||| 0x1810 <= v <= 0x1819
    ||| 0x1946 <= v <= 0x194F
    ||| 0x19D0 <= v <= 0x19D9
    ||| 0x1A80 <= v <= 0x1A89
    ||| 0x1A90 <= v <= 0x1A99
    ||| 0x1B50 <= v <= 0x1B59
    ||| 0x1BB0 <= v <= 0x1BB9
    ||| 0x1C40 <= v <= 0x1C49
    ||| 0x1C50 <= v <= 0x1C59
    ||| 0xA620 <= v <= 0xA629
    ||| 0xA8D0 <= v <= 0xA8D9
    ||| 0xA900 <= v <= 0xA909
    ||| 0xA9D0 <= v <= 0xA9D9
    ||| 0xA9F0 <= v <= 0xA9F9
    ||| 0xAA50 <= v <= 0xAA59
    ||| 0xABF0 <= v <= 0xABF9
    ||| 0xFF10 <= v <= 0xFF19
    ||| 0x104A0 <= v <= 0x104A9
    ||| 0x10D30 <= v <= 0x10D39
    ||| 0x10D40 <= v <= 0x10D49
    ||| 0x11066 <= v <= 0x1106F
    ||| 0x110F0 <= v <= 0x110F9
    ||| 0x11136 <= v <= 0x1113F
    ||| 0x111D0 <= v <= 0x111D9
    ||| 0x112F0 <= v <= 0x112F9
    ||| 0x11450 <= v <= 0x11459
    ||| 0x114D0 <= v <= 0x114D9
    ||| 0x11650 <= v <= 0x11659
    ||| 0x116C0 <= v <= 0x116C9
    ||| 0x116D0 <= v <= 0x116E3
    ||| 0x11730 <= v <= 0x11739
    ||| 0x118E0 <= v <= 0x118E9
    ||| 0x11950 <= v <= 0x11959
    ||| 0x11BF0 <= v <= 0x11BF9
    ||| 0x11C50 <= v <= 0x11C59
    ||| 0x11D50 <= v <= 0x11D59
    ||| 0x11DA0 <= v <= 0x11DA9
    ||| 0x11F50 <= v <= 0x11F59
    ||| 0x16130 <= v <= 0x16139
    ||| 0x16A60 <= v <= 0x16A69
    ||| 0x16AC0 <= v <= 0x16AC9
    ||| 0x16B50 <= v <= 0x16B59
    ||| 0x16D70 <= v <= 0x16D79
    ||| 0x1CCF0 <= v <= 0x1CCF9
    ||| 0x1D7CE <= v <= 0x1D7FF
    ||| 0x1E140 <= v <= 0x1E149
    ||| 0x1E2F0 <= v <= 0x1E2F9
    ||| 0x1E4F0 <= v <= 0x1E4F9
    ||| 0x1E5F1 <= v <= 0x1E5FA
    ||| 0x1E950 <= v <= 0x1E959
    ||| 0x1FBF0 <= v <= 0x1FBF9
}

fn decimal_digit(c: char) -> (r: bool)
    ensures
        r == is_decimal_digit(c),
{
    reveal(is_decimal_digit);
    let v = c as u32;
    (0x30 <= v && v <= 0x39)
        || (0x660 <= v && v <= 0x669)
        || (0x6F0 <= v && v <= 0x6F9)
        || (0x7C0 <= v && v <= 0x7C9)
        || (0x966 <= v && v <= 0x96F)
        || (0x9E6 <= v && v <= 0x9EF)
        || (0xA66 <= v && v <= 0xA6F)
        || (0xAE6 <= v && v <= 0xAEF)
        || (0xB66 <= v && v <= 0xB6F)
        || (0xBE6 <= v && v <= 0xBEF)
        || (0xC66 <= v && v <= 0xC6F)
        || (0xCE6 <= v && v <= 0xCEF)
        || (0xD66 <= v && v <= 0xD6F)
        || (0xDE6 <= v && v <= 0xDEF)
        || (0xE50 <= v && v <= 0xE59)
        || (0xED0 <= v && v <= 0xED9)
        || (0xF20 <= v && v <= 0xF29)
        || (0x1040 <= v && v <= 0x1049)
        || (0x1090 <= v && v <= 0x1099)
        || (0x17E0 <= v && v <= 0x17E9)
        || (0x1810 <= v && v <= 0x1819)
        || (0x1946 <= v && v <= 0x194F)
        || (0x19D0 <= v && v <= 0x19D9)
        || (0x1A80 <= v && v <= 0x1A89)
        || (0x1A90 <= v && v <= 0x1A99)
        || (0x1B50 <= v && v <= 0x1B59)
        || (0x1BB0 <= v && v <= 0x1BB9)
        || (0x1C40 <= v && v <= 0x1C49)
        || (0x1C50 <= v && v <= 0x1C59)
        || (0xA620 <= v && v <= 0xA629)
        || (0xA8D0 <= v && v <= 0xA8D9)
        || (0xA900 <= v && v <= 0xA909)
        || (0xA9D0 <= v && v <= 0xA9D9)
        || (0xA9F0 <= v && v <= 0xA9F9)
        || (0xAA50 <= v && v <= 0xAA59)
        || (0xABF0 <= v && v <= 0xABF9)
        || (0xFF10 <= v && v <= 0xFF19)
        || (0x104A0 <= v && v <= 0x104A9)
        || (0x10D30 <= v && v <= 0x10D39)
        || (0x10D40 <= v && v <= 0x10D49)
        || (0x11066 <= v && v <= 0x1106F)
        || (0x110F0 <= v && v <= 0x110F9)
        || (0x11136 <= v && v <= 0x1113F)
        || (0x111D0 <= v && v <= 0x111D9)
        || (0x112F0 <= v && v <= 0x112F9)
        || (0x11450 <= v && v <= 0x11459)
        || (0x114D0 <= v && v <= 0x114D9)
        || (0x11650 <= v && v <= 0x11659)
        || (0x116C0 <= v && v <= 0x116C9)
        || (0x116D0 <= v && v <= 0x116E3)
        || (0x11730 <= v && v <= 0x11739)
        || (0x118E0 <= v && v <= 0x118E9)
        || (0x11950 <= v && v <= 0x11959)
        || (0x11BF0 <= v && v <= 0x11BF9)
        || (0x11C50 <= v && v <= 0x11C59)
        || (0x11D50 <= v && v <= 0x11D59)
        || (0x11DA0 <= v && v <= 0x11DA9)
        || (0x11F50 <= v && v <= 0x11F59)
        || (0x16130 <= v && v <= 0x16139)
        || (0x16A60 <= v && v <= 0x16A69)
        || (0x16AC0 <= v && v <= 0x16AC9)
        || (0x16B50 <= v && v <= 0x16B59)
        || (0x16D70 <= v && v <= 0x16D79)
        || (0x1CCF0 <= v && v <= 0x1CCF9)
        || (0x1D7CE <= v && v <= 0x1D7FF)
        || (0x1E140 <= v && v <= 0x1E149)
        || (0x1E2F0 <= v && v <= 0x1E2F9)
        || (0x1E4F0 <= v && v <= 0x1E4F9)
        || (0x1E5F1 <= v && v <= 0x1E5FA)
        || (0x1E950 <= v && v <= 0x1E959)
        || (0x1FBF0 <= v && v <= 0x1FBF9)
}

/// The end of the run of decimal digits that starts at `i`.
pub open spec fn decimal_run_end(s: Seq<char>, i: int) -> int
    decreases s.len() - i,
{
    if 0 <= i < s.len() && is_decimal_digit(s[i]) {
        decimal_run_end(s, i + 1)
    } else {
        i
    }
}

pub(crate) fn decimal_run_end_exec(s: &[char], i: usize) -> (r: usize)
    requires
        i <= s@.len(),
    ensures
        r == decimal_run_end(s@, i as int),
        i <= r <= s@.len(),
{
    let mut k = i;
    while k < s.len() && decimal_digit(s[k])
        invariant
            i <= k <= s@.len(),
            decimal_run_end(s@, i as int) == decimal_run_end(s@, k as int),
        decreases s@.len() - k,
    {
        k += 1;
    }
    k
}

// ---------------------------------------------------------------------------
// The makeinfo version
// ---------------------------------------------------------------------------

/// `makeinfo version X.Y` at `p`, where `X` and `Y` are runs of decimal
/// digits of any script: the two runs.
pub open spec fn version_at(h: Seq<char>, p: int) -> Option<(Seq<char>, Seq<char>)> {
    let m = "makeinfo version "@;
    let a = p + m.len();
    if occurs_at(h, m, p) {
        let e = decimal_run_end(h, a);
        if e > a && e < h.len() && h[e] == '.' {
            let f = decimal_run_end(h, e + 1);
            if f > e + 1 {
                Some((h.subrange(a, e), h.subrange(e + 1, f)))
            } else {
                None
            }
        } else {
            None
        }
    } else {
        None
    }
}

/// The first version named at or after `p`.
pub open spec fn first_version(h: Seq<char>, p: int) -> Option<(Seq<char>, Seq<char>)>
    decreases h.len() - p,
{
    if p < 0 || p >= h.len() {
        None
    } else {
        match version_at(h, p) {
            Some(v) => Some(v),
            None => first_version(h, p + 1),
        }
    }
}

/// The text of the first 200 bytes of a file, decoded leniently.
pub open spec fn header_text(data: Seq<u8>) -> Seq<char> {
    utf8_lossy(if data.len() > 200 { data.take(200) } else { data })
}

/// The digit runs of the makeinfo version that a file's header names, if
/// any.
pub open spec fn header_version(data: Seq<u8>) -> Option<(Seq<char>, Seq<char>)> {
    first_version(header_text(data), 0)
}

/// The number that a run of digits spells.
pub open spec fn digits_number(d: Seq<char>) -> nat {
    digits_value(d, 0, d.len() as int)
}

/// A run of digits that reads as a `u32`: every digit is ASCII and the
/// number fits in 32 bits (what `str::parse::<u32>` takes of such a run).
pub open spec fn u32_digits(d: Seq<char>) -> bool {
    &&& forall|k: int| 0 <= k < d.len() ==> is_digit(#[trigger] d[k])
    &&& digits_number(d) <= u32::MAX
}

/// The version that a header names reads as two `u32`s, or it names none.
pub open spec fn version_fits(data: Seq<u8>) -> bool {
    header_version(data) matches Some((x, y)) ==> u32_digits(x) && u32_digits(y)
}

/// The makeinfo version that produced an info file.
#[derive(Debug, Clone, Copy, PartialEq, Eq, Structural)]
pub struct MakeinfoVersion {
    pub major: u32,
    pub minor: u32,
}

fn version_at_exec(h: &[char], p: usize) -> (r: Option<(usize, usize, usize, usize)>)
    requires
        p <= h@.len(),
    ensures
        match r {
            Some((a, e, f, g)) => a <= e <= f <= g <= h@.len() && version_at(h@, p as int) == Some(
                (h@.subrange(a as int, e as int), h@.subrange(f as int, g as int)),
            ),
            None => version_at(h@, p as int) is None,
        },
{
    let m = chars_of("makeinfo version ");
    if !matches_at(h, m.as_slice(), p) {
        return None;
    }
    assert(m@ == "makeinfo version "@);
    let hl = h.len();
    assert(p + m@.len() <= hl);
    let a = p + m.len();
    let e = decimal_run_end_exec(h, a);
    if e > a && e < h.len() && h[e] == '.' {
        let f = decimal_run_end_exec(h, e + 1);
        if f > e + 1 {
            return Some((a, e, e + 1, f));
        }
    }
    None
}

/// The `u32` that the digits `s[a..e]` spell, when they read as one.
fn u32_of_digits(s: &[char], a: usize, e: usize) -> (r: Option<u32>)
    requires
        a <= e <= s@.len(),
    ensures
        match r {
            Some(v) => u32_digits(s@.subrange(a as int, e as int)) && v == digits_number(
                s@.subrange(a as int, e as int),
            ),
            None => !u32_digits(s@.subrange(a as int, e as int)),
        },
{
    let t = slice_copy(s, a, e);
    let mut k: usize = 0;
    while k < t.len()
        invariant
            k <= t@.len(),
            t@ == s@.subrange(a as int, e as int),
            forall|q: int| 0 <= q < k ==> is_digit(#[trigger] t@[q]),
        decreases t@.len() - k,
    {
        if !('0' <= t[k] && t[k] <= '9') {
            assert(!is_digit(t@[k as int]));
            return None;
        }
        k += 1;
    }
    match digits_usize(t.as_slice(), 0, t.len()) {
        Some(v) => if v <= 4294967295usize {
            Some(v as u32)
        } else {
            None
        },
        None => None,
    }
}

/// The makeinfo version named in the first 200 bytes of an info file
/// (`makeinfo version X.Y`). A header whose version does not read as two
/// `u32`s is left out.
pub fn detect_makeinfo_version(data: &[u8]) -> (r: Option<MakeinfoVersion>)
    requires
        version_fits(data@),
    ensures
        match r {
            Some(v) => header_version(data@) matches Some((x, y)) && v.major == digits_number(x)
                && v.minor == digits_number(y),
            None => header_version(data@) is None,
        },
{
    let n = if data.len() > 200 { 200 } else { data.len() };
    let head = byte_slice(data, 0, n);
    assert(head@ =~= (if data@.len() > 200 { data@.take(200) } else { data@ }));
    let h = lossy_chars(head.as_slice());
    let mut p: usize = 0;
    while p < h.len()
        invariant
            p <= h@.len(),
            h@ == header_text(data@),
            version_fits(data@),
            header_version(data@) == first_version(h@, p as int),
        decreases h@.len() - p,
    {
        match version_at_exec(h.as_slice(), p) {
            Some((a, e, f, g)) => {
                let x = u32_of_digits(h.as_slice(), a, e);
                let y = u32_of_digits(h.as_slice(), f, g);
                match (x, y) {
                    (Some(x), Some(y)) => {
                        return Some(MakeinfoVersion { major: x, minor: y });
                    },
                    _ => {
                        return None;
                    },
                }
            },
            None => {},
        }
        p += 1;
    }
    None
}

/// Whether `detect_makeinfo_version` can take a file: the version that its
/// header names, if any, reads as two `u32`s (ASCII digits, 32 bits).
pub fn header_version_fits(data: &[u8]) -> (r: bool)
    ensures
        r == version_fits(data@),
{
    let n = if data.len() > 200 { 200 } else { data.len() };
    let head = byte_slice(data, 0, n);
    assert(head@ =~= (if data@.len() > 200 { data@.take(200) } else { data@ }));
    let h = lossy_chars(head.as_slice());
    let mut p: usize = 0;
    while p < h.len()
        invariant
            p <= h@.len(),
            h@ == header_text(data@),
            header_version(data@) == first_version(h@, p as int),
        decreases h@.len() - p,
    {
        match version_at_exec(h.as_slice(), p) {
            Some((a, e, f, g)) => {
                let x = u32_of_digits(h.as_slice(), a, e);
                let y = u32_of_digits(h.as_slice(), f, g);
                return x.is_some() && y.is_some();
            },
            None => {},
        }
        p += 1;
    }
    true
}

// ---------------------------------------------------------------------------
// Node headers
// ---------------------------------------------------------------------------

/// The node named by a node header line: the line starts with `File:`; after
/// the first `Node:` that follows and its whitespace, the name runs to the
/// next comma (there must be one).
pub open spec fn node_name_of(line: Seq<char>) -> Option<Seq<char>> {
    let k = find_from(line, "Node:"@, "File:"@.len() as int);
    if has_prefix(line, "File:"@) && k >= 0 {
        let s = ws_skip(line, k + "Node:"@.len());
        let c = next_char(line, ',', s);
        if c < line.len() {
            Some(line.subrange(s, c))
        } else {
            None
        }
    } else {
        None
    }
}

/// The node name of the header line `data[a..b]`: none unless the bytes
/// are well-formed UTF-8.
pub open spec fn header_node(data: Seq<u8>, a: int, b: int) -> Option<Seq<char>> {
    let bytes = data.subrange(a, b);
    if utf8_valid(bytes) {
        node_name_of(utf8_lossy(bytes))
    } else {
        None
    }
}

/// The node headers of a file from byte `pos` on, each with the offset of
/// the newline before its unit separator (or of the separator itself when
/// no newline precedes it).
pub open spec fn node_headers(data: Seq<u8>, pos: int) -> Seq<(Seq<char>, int)>
    decreases data.len() - pos,
{
    if pos < 0 || pos >= data.len() {
        Seq::empty()
    } else {
        let sep = next_byte(data, 0x1Fu8, pos);
        let after = sep + 1;
        if sep >= data.len() || after >= data.len() {
            Seq::empty()
        } else {
            let record = if sep > 0 && data[sep - 1] == 10u8 { sep - 1 } else { sep };
            let ls = if data[after] == 10u8 { after + 1 } else { after };
            let le = next_byte(data, 10u8, ls);
            let rest = if pos < le <= data.len() { node_headers(data, le) } else { Seq::empty() };
            match header_node(data, ls, le) {
                Some(name) => seq![(name, record)] + rest,
                None => rest,
            }
        }
    }
}

fn node_name_exec(line: &[char]) -> (r: Option<Vec<char>>)
    ensures
        match r {
            Some(n) => node_name_of(line@) == Some(n@),
            None => node_name_of(line@) is None,
        },
{
    let file = chars_of("File:");
    let node = chars_of("Node:");
    if !starts_with(line, file.as_slice()) {
        return None;
    }
    match find_chars_from(line, node.as_slice(), file.len()) {
        Some(k) => {
            proof {
                lemma_find_from(line@, node@, file@.len() as int);
            }
            assert(occurs_at(line@, node@, k as int));
            let ll = line.len();
            assert(k + node@.len() <= ll);
            let s = skip_ws(line, k + node.len());
            let mut c = s;
            while c < line.len() && line[c] != ','
                invariant
                    s <= c <= line@.len(),
                    next_char(line@, ',', s as int) == next_char(line@, ',', c as int),
                decreases line@.len() - c,
            {
                c += 1;
            }
            if c < line.len() {
                Some(slice_copy(line, s, c))
            } else {
                None
            }
        },
        None => None,
    }
}

/// Where each node of an info file is found.
pub struct NodeTable {
    pub entries: Vec<(String, String, usize)>,
}

pub open spec fn node_entries(v: Seq<(String, String, usize)>) -> Map<Seq<char>, (Seq<char>, usize)>
    decreases v.len(),
{
    if v.len() == 0 {
        Map::empty()
    } else {
        node_entries(v.drop_last()).insert(v.last().0@, (v.last().1@, v.last().2))
    }
}

impl NodeTable {
    /// Node name to file name and byte offset.
    pub open spec fn view_map(&self) -> Map<Seq<char>, (Seq<char>, usize)> {
        node_entries(self.entries@)
    }

    pub fn new() -> (r: NodeTable)
        ensures
            r.view_map() == Map::<Seq<char>, (Seq<char>, usize)>::empty(),
    {
        NodeTable { entries: Vec::new() }
    }

    /// Records where a node is, replacing what was known of it.
    pub fn insert(&mut self, name: &str, filename: &str, offset: usize)
        ensures
            final(self).view_map() == old(self).view_map().insert(name@, (filename@, offset)),
    {
        let ghost before = self.entries@;
        let e = (string_of(chars_of(name).as_slice()), string_of(chars_of(filename).as_slice()), offset);
        self.entries.push(e);
        assert(self.entries@.drop_last() =~= before);
    }

    /// The number of nodes known.
    pub fn len(&self) -> (r: usize)
        ensures
            r == self.view_map().dom().len(),
    {
        let n = self.entries.len();
        let mut count: usize = 0;
        let mut i: usize = 0;
        while i < n
            invariant
                i <= n == self.entries@.len(),
                count <= i,
                count == first_entries(self.entries@.take(i as int)),
            decreases n - i,
        {
            let key = chars_of_string(&self.entries[i].0);
            let mut seen = false;
            let mut j: usize = 0;
            while j < i
                invariant
                    j <= i < n == self.entries@.len(),
                    key@ == self.entries@[i as int].0@,
                    seen <==> has_entry(self.entries@.take(j as int), key@),
                decreases i - j,
            {
                let ghost tj = self.entries@.take(j as int);
                let ghost tj1 = self.entries@.take(j + 1);
                assert(tj1.drop_last() =~= tj);
                if eq_chars(chars_of_string(&self.entries[j].0).as_slice(), key.as_slice()) {
                    seen = true;
                    assert(tj1[j as int].0@ == key@);
                } else {
                    proof {
                        assert forall|m: int| 0 <= m < tj1.len() implies #[trigger] tj1[m].0@ != key@ || has_entry(tj, key@) by {
                            if m < j {
                                assert(tj1[m] == tj[m]);
                            }
                        }
                        if has_entry(tj, key@) {
                            let m = choose|m: int| 0 <= m < tj.len() && #[trigger] tj[m].0@ == key@;
                            assert(tj1[m] == tj[m]);
                        }
                    }
                }
                j += 1;
            }
            let ghost t1 = self.entries@.take(i + 1);
            assert(t1.drop_last() =~= self.entries@.take(i as int));
            assert(t1.last() == self.entries@[i as int]);
            if !seen {
                count += 1;
            }
            i += 1;
        }
        proof {
            assert(self.entries@.take(n as int) =~= self.entries@);
            lemma_entries_dom(self.entries@);
        }
        count
    }

    /// Where a node is, if it is known.
    pub fn get(&self, name: &str) -> (r: Option<(String, usize)>)
        ensures
            match r {
                Some((f, o)) => self.view_map().contains_key(name@) && self.view_map()[name@] == (
                f@,
                o,
            ),
                None => !self.view_map().contains_key(name@),
            },
    {
        let nm = chars_of(name);
        let mut i = self.entries.len();
        while i > 0
            invariant
                i <= self.entries.len(),
                nm@ == name@,
                forall|k: int|
                    i <= k < self.entries@.len() ==> #[trigger] self.entries@[k].0@ != name@,
            decreases i,
        {
            i -= 1;
            if eq_chars(chars_of_string(&self.entries[i].0).as_slice(), nm.as_slice()) {
                proof {
                    lemma_last_entry(self.entries@, i as int, name@);
                }
                let f = string_of(chars_of_string(&self.entries[i].1).as_slice());
                return Some((f, self.entries[i].2));
            }
        }
        proof {
            lemma_absent(self.entries@, name@);
        }
        None
    }
}

/// Whether some entry records the node `name`.
pub open spec fn has_entry(v: Seq<(String, String, usize)>, name: Seq<char>) -> bool {
    exists|j: int| 0 <= j < v.len() && #[trigger] v[j].0@ == name
}

/// The number of entries whose node no earlier entry records.
pub open spec fn first_entries(v: Seq<(String, String, usize)>) -> nat
    decreases v.len(),
{
    if v.len() == 0 {
        0
    } else {
        first_entries(v.drop_last()) + if has_entry(v.drop_last(), v.last().0@) {
            0nat
        } else {
            1nat
        }
    }
}

proof fn lemma_entries_dom(v: Seq<(String, String, usize)>)
    ensures
        node_entries(v).dom().finite(),
        node_entries(v).dom().len() == first_entries(v),
        forall|k: Seq<char>| #[trigger] node_entries(v).contains_key(k) <==> has_entry(v, k),
    decreases v.len(),
{
    if v.len() > 0 {
        let d = v.drop_last();
        lemma_entries_dom(d);
        let lk = v.last().0@;
        assert forall|k: Seq<char>| #[trigger] node_entries(v).contains_key(k) <==> has_entry(v, k) by {
            if has_entry(d, k) {
                let j = choose|j: int| 0 <= j < d.len() && #[trigger] d[j].0@ == k;
                assert(v[j] == d[j]);
            }
            if k == lk {
                assert(v[v.len() - 1].0@ == k);
            }
            if has_entry(v, k) && k != lk {
                let j = choose|j: int| 0 <= j < v.len() && #[trigger] v[j].0@ == k;
                assert(j < v.len() - 1);
                assert(d[j] == v[j]);
            }
        }
    }
}

proof fn lemma_last_entry(v: Seq<(String, String, usize)>, i: int, name: Seq<char>)
    requires
        0 <= i < v.len(),
        v[i].0@ == name,
        forall|k: int| i < k < v.len() ==> #[trigger] v[k].0@ != name,
    ensures
        node_entries(v).contains_key(name),
        node_entries(v)[name] == (v[i].1@, v[i].2),
    decreases v.len(),
{
    if i < v.len() - 1 {
        let d = v.drop_last();
        assert forall|k: int| i < k < d.len() implies #[trigger] d[k].0@ != name by {
            assert(d[k] == v[k]);
        }
        assert(d[i] == v[i]);
        lemma_last_entry(d, i, name);
    }
}

proof fn lemma_absent(v: Seq<(String, String, usize)>, name: Seq<char>)
    requires
        forall|k: int| 0 <= k < v.len() ==> #[trigger] v[k].0@ != name,
    ensures
        !node_entries(v).contains_key(name),
    decreases v.len(),
{
    if v.len() > 0 {
        let d = v.drop_last();
        assert forall|k: int| 0 <= k < d.len() implies #[trigger] d[k].0@ != name by {
            assert(d[k] == v[k]);
        }
        lemma_absent(d, name);
        assert(v[v.len() - 1].0@ != name);
    }
}

/// The table after recording the headers `hs` of `filename` in order.
pub open spec fn recorded(
    m: Map<Seq<char>, (Seq<char>, usize)>,
    hs: Seq<(Seq<char>, int)>,
    filename: Seq<char>,
) -> Map<Seq<char>, (Seq<char>, usize)>
    decreases hs.len(),
{
    if hs.len() == 0 {
        m
    } else {
        recorded(m, hs.drop_last(), filename).insert(hs.last().0, (filename, hs.last().1 as usize))
    }
}

/// Records the node headers of an info file's bytes in `nodes` (each node
/// at the offset of the newline before its unit separator) and sets
/// `last_node` to the last node found, if any.
pub fn scan_nodes(data: &[u8], filename: &str, nodes: &mut NodeTable, last_node: &mut String)
    ensures
        final(nodes).view_map() == recorded(old(nodes).view_map(), node_headers(data@, 0), filename@),
        node_headers(data@, 0).len() > 0 ==> final(last_node)@ == node_headers(data@, 0).last().0,
        node_headers(data@, 0).len() == 0 ==> final(last_node)@ == old(last_node)@,
{
    let ghost m0 = nodes.view_map();
    let ghost all = node_headers(data@, 0);
    let ghost l0 = last_node@;
    let mut pos: usize = 0;
    let ghost mut done: Seq<(Seq<char>, int)> = Seq::empty();
    assert(done + node_headers(data@, 0) =~= all);
    loop
        invariant
            pos <= data@.len(),
            all == node_headers(data@, 0),
            done + node_headers(data@, pos as int) == all,
            nodes.view_map() == recorded(m0, done, filename@),
            done.len() > 0 ==> last_node@ == done.last().0,
            done.len() == 0 ==> last_node@ == l0,
        ensures
            done == all,
            nodes.view_map() == recorded(m0, done, filename@),
            done.len() > 0 ==> last_node@ == done.last().0,
            done.len() == 0 ==> last_node@ == l0,
        decreases data@.len() - pos,
    {
        if pos >= data.len() {
            assert(node_headers(data@, pos as int) =~= Seq::<(Seq<char>, int)>::empty());
            assert(done + Seq::<(Seq<char>, int)>::empty() =~= done);
            break;
        }
        let ghost p0 = pos as int;
        let rest = byte_slice(data, pos, data.len());
        let sep = match memchr(0x1Fu8, rest.as_slice()) {
            Some(off) => {
                proof {
                    lemma_next_byte_shift(data@, 0x1Fu8, pos as int, off as int);
                }
                pos + off
            },
            None => {
                proof {
                    lemma_next_byte_shift(data@, 0x1Fu8, pos as int, rest@.len() as int);
                }
                assert(node_headers(data@, pos as int) =~= Seq::<(Seq<char>, int)>::empty());
                assert(done + Seq::<(Seq<char>, int)>::empty() =~= done);
                break;
            },
        };
        assert(sep == next_byte(data@, 0x1Fu8, pos as int));
        let record = if sep > 0 && data[sep - 1] == 10u8 { sep - 1 } else { sep };
        let after = sep + 1;
        if after >= data.len() {
            assert(node_headers(data@, pos as int) =~= Seq::<(Seq<char>, int)>::empty());
            assert(done + Seq::<(Seq<char>, int)>::empty() =~= done);
            break;
        }
        let ls = if data[after] == 10u8 { after + 1 } else { after };
        let le = find_newline(data, ls);
        proof {
            crate::info_index::lemma_next_byte(data@, 10u8, ls as int);
        }
        let line = byte_slice(data, ls, le);
        let ghost found = header_node(data@, ls as int, le as int);
        if is_utf8(line.as_slice()) {
            let text = lossy_chars(line.as_slice());
            match node_name_exec(text.as_slice()) {
                Some(name) => {
                    let nm = string_of(name.as_slice());
                    nodes.insert(nm.as_str(), filename, record);
                    *last_node = nm;
                    proof {
                        let h = (name@, record as int);
                        assert(found == Some(name@));
                        assert(node_headers(data@, p0) == seq![h] + node_headers(data@, le as int));
                        assert((done + seq![h]).drop_last() =~= done);
                        assert(done + seq![h] + node_headers(data@, le as int) =~= all);
                        done = done + seq![h];
                    }
                },
                None => {
                    assert(found is None);
                    assert(node_headers(data@, p0) == node_headers(data@, le as int));
                },
            }
        } else {
            assert(found is None);
            assert(node_headers(data@, p0) == node_headers(data@, le as int));
        }
        pos = le;
    }
}

proof fn lemma_next_byte_shift(data: Seq<u8>, b: u8, pos: int, off: int)
    requires
        0 <= pos <= data.len(),
        off == next_byte(data.subrange(pos, data.len() as int), b, 0),
    ensures
        next_byte(data, b, pos) == pos + off,
{
    let rest = data.subrange(pos, data.len() as int);
    crate::info_index::lemma_next_byte(rest, b, 0);
    crate::info_index::lemma_next_byte(data, b, pos);
    let n = next_byte(data, b, pos);
    if n < pos + off {
        assert(rest[n - pos] == data[n]);
    } else if n > pos + off {
        assert(rest[off] == data[pos + off]);
    }
}

// ---------------------------------------------------------------------------
// Split files
// ---------------------------------------------------------------------------

/// The split file that a line of the indirect table names:
/// `<main>-<digits>: <digit>...` at the start of the line, with decimal
/// digits of any script.
pub open spec fn split_file_of(line: Seq<char>, main: Seq<char>) -> Option<Seq<char>> {
    let pre = main + "-"@;
    let a = pre.len() as int;
    if has_prefix(line, pre) {
        let e = decimal_run_end(line, a);
        let c = ": "@;
        if e > a && occurs_at(line, c, e) && e + c.len() < line.len() && is_decimal_digit(
            line[e + c.len()],
        ) {
            Some(line.take(e))
        } else {
            None
        }
    } else {
        None
    }
}

/// The split files named in `ls`, in order.
pub open spec fn split_files(ls: Seq<Seq<char>>, main: Seq<char>) -> Seq<Seq<char>>
    decreases ls.len(),
{
    if ls.len() == 0 {
        Seq::empty()
    } else {
        let r = split_files(ls.drop_last(), main);
        match split_file_of(ls.last(), main) {
            Some(f) => r.push(f),
            None => r,
        }
    }
}

fn split_file_exec(line: &[char], main: &[char]) -> (r: Option<Vec<char>>)
    ensures
        match r {
            Some(f) => split_file_of(line@, main@) == Some(f@),
            None => split_file_of(line@, main@) is None,
        },
{
    let mut pre: Vec<char> = Vec::new();
    push_all(&mut pre, main);
    pre.push('-');
    assert(pre@ =~= main@ + "-"@) by {
        reveal_strlit("-");
    }
    if !starts_with(line, pre.as_slice()) {
        return None;
    }
    let a = pre.len();
    let ll = line.len();
    let e = decimal_run_end_exec(line, a);
    let c = chars_of(": ");
    assert(c@.len() == 2) by {
        reveal_strlit(": ");
    }
    if e > a && matches_at(line, c.as_slice(), e) && e + 2 < ll && decimal_digit(line[e + 2]) {
        Some(slice_copy(line, 0, e))
    } else {
        None
    }
}

/// The split files of an info file, named in its indirect table as
/// `<main>-<n>: <offset>` lines.
pub fn find_split_files(data: &[u8], main_filename: &str) -> (r: Vec<String>)
    ensures
        strs(r@) == split_files(lines(utf8_lossy(data@)), main_filename@),
{
    let text = lossy_chars(data);
    let ls = split_lines(text.as_slice());
    let ghost lv = views(ls@);
    let main = chars_of(main_filename);
    let mut r: Vec<String> = Vec::new();
    let mut i: usize = 0;
    assert(lv.take(0) =~= Seq::<Seq<char>>::empty());
    assert(strs(r@) =~= Seq::<Seq<char>>::empty());
    while i < ls.len()
        invariant
            i <= ls.len(),
            lv == views(ls@),
            main@ == main_filename@,
            strs(r@) == split_files(lv.take(i as int), main_filename@),
        decreases ls.len() - i,
    {
        assert(lv.take(i + 1).drop_last() =~= lv.take(i as int));
        assert(lv.take(i + 1).last() == ls@[i as int]@);
        match split_file_exec(ls[i].as_slice(), main.as_slice()) {
            Some(f) => {
                let s = string_of(f.as_slice());
                let ghost before = r@;
                r.push(s);
                assert(strs(r@) =~= strs(before).push(s@));
            },
            None => {},
        }
        i += 1;
    }
    assert(lv.take(ls.len() as int) =~= lv);
    r
}

// ---------------------------------------------------------------------------
// The index menu
// ---------------------------------------------------------------------------

/// Characters equal but for ASCII case.
pub open spec fn ci_eq(a: char, b: char) -> bool {
    a == b || ('A' <= a <= 'Z' && b == ((a as u32) + 32) as char) || ('A' <= b <= 'Z' && a == ((
    b as u32) + 32) as char)
}

/// `p` occurs in `s` at `i`, ignoring ASCII case.
pub open spec fn ci_occurs(s: Seq<char>, p: Seq<char>, i: int) -> bool {
    0 <= i && i + p.len() <= s.len() && forall|k: int| 0 <= k < p.len() ==> ci_eq(#[trigger] s[i + k], p[k])
}

/// From `j`: whitespace, then `name` (ASCII case ignored).
pub open spec fn ws_then_name(s: Seq<char>, j: int, name: Seq<char>) -> bool
    decreases s.len() - j,
{
    ci_occurs(s, name, j) || (0 <= j < s.len() && is_ws(s[j]) && ws_then_name(s, j + 1, name))
}

/// From `k`, on the same line: `Node:`, then whitespace and `name` (ASCII
/// case ignored).
pub open spec fn node_then_name(s: Seq<char>, k: int, name: Seq<char>) -> bool
    decreases s.len() - k,
{
    if k < 0 || k >= s.len() {
        false
    } else {
        (ci_occurs(s, "Node:"@, k) && ws_then_name(s, k + "Node:"@.len(), name)) || (s[k] != '\n'
            && node_then_name(s, k + 1, name))
    }
}

/// The header of the index node starts at `l`: at the start of a line,
/// `File:`, then on the same line `Node:`, then whitespace and the node's
/// name, ASCII case ignored throughout.
pub open spec fn index_header_at(s: Seq<char>, l: int, name: Seq<char>) -> bool {
    &&& (l == 0 || (0 < l <= s.len() && s[l - 1] == '\n'))
    &&& ci_occurs(s, "File:"@, l)
    &&& node_then_name(s, l + "File:"@.len(), name)
}

/// The first index header at or after `l`.
pub open spec fn first_index_header(s: Seq<char>, name: Seq<char>, l: int) -> Option<int>
    decreases s.len() + 1 - l,
{
    if l < 0 || l > s.len() {
        None
    } else if index_header_at(s, l, name) {
        Some(l)
    } else {
        first_index_header(s, name, l + 1)
    }
}

/// The menu entries of an index node's lines: the lines starting `* `
/// after a `* Menu:` line, each with its indented continuation lines
/// appended, trimmed, after a space; and whether a menu has begun.
pub open spec fn menu_scan(ls: Seq<Seq<char>>) -> (Seq<Seq<char>>, bool)
    decreases ls.len(),
{
    if ls.len() == 0 {
        (Seq::empty(), false)
    } else {
        let (es, m) = menu_scan(ls.drop_last());
        let l = ls.last();
        if has_prefix(l, "* Menu:"@) {
            (es, true)
        } else if !m {
            (es, m)
        } else if has_prefix(l, "* "@) {
            (es.push(l), m)
        } else if es.len() > 0 && l.len() > 0 && (l[0] == ' ' || l[0] == '\t') {
            (es.update(es.len() - 1, es.last() + seq![' '] + trim(l)), m)
        } else {
            (es, m)
        }
    }
}

/// The end of the run of non-whitespace from `i`.
pub open spec fn nonws_end(s: Seq<char>, i: int) -> int
    decreases s.len() - i,
{
    if 0 <= i < s.len() && !is_ws(s[i]) {
        nonws_end(s, i + 1)
    } else {
        i
    }
}

/// `.` then whitespace, `(line`, whitespace, decimal digits of any script
/// and `)` from `q`: the digits' bounds.
pub open spec fn line_ref_at(e: Seq<char>, q: int) -> Option<(int, int)> {
    if 0 <= q < e.len() && e[q] == '.' {
        let a = ws_skip(e, q + 1);
        let b = ws_skip(e, a + "(line"@.len());
        let d = decimal_run_end(e, b);
        if a > q + 1 && occurs_at(e, "(line"@, a) && b > a + "(line"@.len() && d > b && d < e.len()
            && e[d] == ')' {
            Some((b, d))
        } else {
            None
        }
    } else {
        None
    }
}

/// The first line reference at or after `q`, on the same line.
pub open spec fn first_line_ref(e: Seq<char>, q: int) -> Option<(int, int, int)>
    decreases e.len() - q,
{
    if q < 0 || q >= e.len() || e[q] == '\n' {
        None
    } else {
        match line_ref_at(e, q) {
            Some((b, d)) => Some((q, b, d)),
            None => first_line_ref(e, q + 1),
        }
    }
}

/// After the colon at `c`: whitespace, then the node name up to the first
/// line reference; the name and the line number's digits.
pub open spec fn after_colon(e: Seq<char>, c: int) -> Option<(Seq<char>, Seq<char>)> {
    let s = ws_skip(e, c + 1);
    if 0 <= c && s > c + 1 {
        match first_line_ref(e, s) {
            Some((q, b, d)) => Some((e.subrange(s, q), e.subrange(b, d))),
            None => None,
        }
    } else {
        None
    }
}

/// A menu entry `* topic: node. (line n)`: the topic (a run of
/// non-whitespace ending in the colon, else everything up to the first
/// colon), the node name and the line number's digits.
pub open spec fn entry_match(e: Seq<char>) -> Option<(Seq<char>, Seq<char>, Seq<char>)> {
    if !has_prefix(e, "* "@) {
        None
    } else {
        let n = nonws_end(e, 2);
        let c = next_char(e, ':', 2);
        if n > 3 && e[n - 1] == ':' && after_colon(e, n - 1) is Some {
            let (node, digits) = after_colon(e, n - 1).unwrap();
            Some((e.subrange(2, n - 1), node, digits))
        } else if c > 2 && c < e.len() && after_colon(e, c) is Some {
            let (node, digits) = after_colon(e, c).unwrap();
            Some((e.subrange(2, c), node, digits))
        } else {
            None
        }
    }
}

/// The line number of a reference: its digits' value, or 0 when one of
/// them is not an ASCII digit or the value does not fit in a `usize`.
pub open spec fn line_number(digits: Seq<char>) -> nat {
    let v = digits_value(digits, 0, digits.len() as int);
    if (forall|k: int| 0 <= k < digits.len() ==> is_digit(#[trigger] digits[k])) && v <= usize::MAX {
        v
    } else {
        0
    }
}

/// `t` put into the topics sorted by name, replacing a topic of the same
/// name.
pub open spec fn insert_topic(acc: Seq<(Seq<char>, Seq<char>, nat)>, t: (Seq<char>, Seq<char>, nat)) -> Seq<
    (Seq<char>, Seq<char>, nat),
>
    decreases acc.len(),
{
    if acc.len() == 0 {
        seq![t]
    } else if acc[0].0 == t.0 {
        seq![t] + acc.skip(1)
    } else if crate::text::seq_lt(t.0, acc[0].0) {
        seq![t] + acc
    } else {
        seq![acc[0]] + insert_topic(acc.skip(1), t)
    }
}

/// The topics of the entries `es`: name, node name (trimmed) and line.
pub open spec fn menu_topics(es: Seq<Seq<char>>) -> Seq<(Seq<char>, Seq<char>, nat)>
    decreases es.len(),
{
    if es.len() == 0 {
        Seq::empty()
    } else {
        let r = menu_topics(es.drop_last());
        match entry_match(es.last()) {
            Some((topic, node, digits)) => insert_topic(r, (topic, trim(node), line_number(digits))),
            None => r,
        }
    }
}

/// The topics of an index node's menu: none unless the text holds the
/// node's header.
pub open spec fn index_topics(text: Seq<char>, node: Seq<char>) -> Seq<(Seq<char>, Seq<char>, nat)> {
    match first_index_header(text, node, 0) {
        Some(start) => menu_topics(menu_scan(lines(text.skip(start))).0),
        None => Seq::empty(),
    }
}

fn ci_eq_exec(a: char, b: char) -> (r: bool)
    ensures
        r == ci_eq(a, b),
{
    a == b || ('A' <= a && a <= 'Z' && b as u32 == a as u32 + 32) || ('A' <= b && b <= 'Z' && a as u32
        == b as u32 + 32)
}

fn ci_occurs_exec(s: &[char], p: &[char], i: usize) -> (r: bool)
    ensures
        r == ci_occurs(s@, p@, i as int),
{
    let sl = s.len();
    if p.len() > sl || i > sl - p.len() {
        return false;
    }
    let mut k: usize = 0;
    while k < p.len()
        invariant
            k <= p@.len(),
            sl == s@.len(),
            i + p@.len() <= sl,
            forall|q: int| 0 <= q < k ==> ci_eq(#[trigger] s@[i + q], p@[q]),
        decreases p@.len() - k,
    {
        if !ci_eq_exec(s[i + k], p[k]) {
            return false;
        }
        k += 1;
    }
    true
}

fn ws_then_name_exec(s: &[char], j: usize, name: &[char]) -> (r: bool)
    requires
        j <= s@.len(),
    ensures
        r == ws_then_name(s@, j as int, name@),
{
    let mut q = j;
    while q < s.len() && !ci_occurs_exec(s, name, q) && is_whitespace(s[q])
        invariant
            j <= q <= s@.len(),
            ws_then_name(s@, j as int, name@) == ws_then_name(s@, q as int, name@),
        decreases s@.len() - q,
    {
        q += 1;
    }
    ci_occurs_exec(s, name, q)
}

fn node_then_name_exec(s: &[char], k: usize, name: &[char], node: &[char]) -> (r: bool)
    requires
        k <= s@.len(),
        node@ == "Node:"@,
    ensures
        r == node_then_name(s@, k as int, name@),
{
    let mut q = k;
    while q < s.len()
        invariant
            k <= q <= s@.len(),
            node@ == "Node:"@,
            node_then_name(s@, k as int, name@) == node_then_name(s@, q as int, name@),
        decreases s@.len() - q,
    {
        if ci_occurs_exec(s, node, q) {
            let sl = s.len();
            assert(q + node@.len() <= sl);
            if ws_then_name_exec(s, q + node.len(), name) {
                return true;
            }
        }
        if s[q] == '\n' {
            return false;
        }
        q += 1;
    }
    false
}

/// Where the index node's header starts in the text, if it is there.
fn find_index_header(s: &[char], name: &[char]) -> (r: Option<usize>)
    ensures
        match r {
            Some(l) => first_index_header(s@, name@, 0) == Some(l as int) && l <= s@.len(),
            None => first_index_header(s@, name@, 0) is None,
        },
{
    let file = chars_of("File:");
    let node = chars_of("Node:");
    let mut l: usize = 0;
    while l <= s.len()
        invariant
            l <= s@.len() + 1,
            file@ == "File:"@,
            node@ == "Node:"@,
            first_index_header(s@, name@, 0) == first_index_header(s@, name@, l as int),
        decreases s@.len() + 1 - l,
    {
        if (l == 0 || s[l - 1] == '\n') && ci_occurs_exec(s, file.as_slice(), l) {
            let sl = s.len();
            assert(l + file@.len() <= sl);
            if node_then_name_exec(s, l + file.len(), name, node.as_slice()) {
                return Some(l);
            }
        }
        if l == s.len() {
            assert(first_index_header(s@, name@, l + 1) is None);
            return None;
        }
        l += 1;
    }
    None
}

fn menu_scan_exec(ls: &Vec<Vec<char>>) -> (r: Vec<Vec<char>>)
    ensures
        views(r@) == menu_scan(views(ls@)).0,
{
    let ghost lv = views(ls@);
    let menu = chars_of("* Menu:");
    let star = chars_of("* ");
    let mut es: Vec<Vec<char>> = Vec::new();
    let mut m = false;
    let mut i: usize = 0;
    assert(lv.take(0) =~= Seq::<Seq<char>>::empty());
    assert(views(es@) =~= Seq::<Seq<char>>::empty());
    while i < ls.len()
        invariant
            i <= ls.len(),
            lv == views(ls@),
            menu@ == "* Menu:"@,
            star@ == "* "@,
            menu_scan(lv.take(i as int)) == (views(es@), m),
        decreases ls.len() - i,
    {
        assert(lv.take(i + 1).drop_last() =~= lv.take(i as int));
        assert(lv.take(i + 1).last() == ls@[i as int]@);
        let l = ls[i].as_slice();
        let ghost prev = menu_scan(lv.take(i as int));
        assert(menu_scan(lv.take(i + 1)) == ({
            let (es0, m0) = prev;
            if has_prefix(l@, "* Menu:"@) {
                (es0, true)
            } else if !m0 {
                (es0, m0)
            } else if has_prefix(l@, "* "@) {
                (es0.push(l@), m0)
            } else if es0.len() > 0 && l@.len() > 0 && (l@[0] == ' ' || l@[0] == '\t') {
                (es0.update(es0.len() - 1, es0.last() + seq![' '] + trim(l@)), m0)
            } else {
                (es0, m0)
            }
        }));
        if starts_with(l, menu.as_slice()) {
            m = true;
        } else if !m {
        } else if starts_with(l, star.as_slice()) {
            let ghost before = es@;
            es.push(slice_copy(l, 0, l.len()));
            assert(l@.subrange(0, l@.len() as int) =~= l@);
            assert(views(es@) =~= views(before).push(l@));
        } else if es.len() > 0 && l.len() > 0 && (l[0] == ' ' || l[0] == '\t') {
            let ghost before = es@;
            let last = es.len() - 1;
            let mut joined = slice_copy(es[last].as_slice(), 0, es[last].len());
            assert(es@[last as int]@.subrange(0, es@[last as int]@.len() as int) =~= es@[last as int]@);
            joined.push(' ');
            push_all(&mut joined, trimmed(l).as_slice());
            let ghost jv = joined@;
            assert(jv == views(before).last() + seq![' '] + trim(l@));
            es.set(last, joined);
            assert(views(es@) =~= views(before).update(last as int, jv));
        }
        i += 1;
    }
    assert(lv.take(ls.len() as int) =~= lv);
    es
}

fn nonws_end_exec(s: &[char], i: usize) -> (r: usize)
    requires
        i <= s@.len(),
    ensures
        r == nonws_end(s@, i as int),
        i <= r <= s@.len(),
{
    let mut k = i;
    while k < s.len() && !is_whitespace(s[k])
        invariant
            i <= k <= s@.len(),
            nonws_end(s@, i as int) == nonws_end(s@, k as int),
        decreases s@.len() - k,
    {
        k += 1;
    }
    k
}

fn line_ref_exec(e: &[char], q: usize, line: &[char]) -> (r: Option<(usize, usize)>)
    requires
        line@ == "(line"@,
    ensures
        match r {
            Some((b, d)) => line_ref_at(e@, q as int) == Some((b as int, d as int)) && b <= d
                <= e@.len(),
            None => line_ref_at(e@, q as int) is None,
        },
{
    if q >= e.len() || e[q] != '.' {
        return None;
    }
    let el = e.len();
    let a = skip_ws(e, q + 1);
    if !(a > q + 1 && matches_at(e, line, a)) {
        return None;
    }
    assert(a + line@.len() <= el);
    let b = skip_ws(e, a + line.len());
    let d = decimal_run_end_exec(e, b);
    if b > a + line.len() && d > b && d < e.len() && e[d] == ')' {
        Some((b, d))
    } else {
        None
    }
}

fn after_colon_exec(e: &[char], c: usize, line: &[char]) -> (r: Option<(Vec<char>, usize, usize)>)
    requires
        c < e@.len(),
        line@ == "(line"@,
    ensures
        match r {
            Some((node, b, d)) => after_colon(e@, c as int) == Some((node@, e@.subrange(b as int, d as int)))
                && b <= d <= e@.len(),
            None => after_colon(e@, c as int) is None,
        },
{
    let el = e.len();
    let s = skip_ws(e, c + 1);
    if s <= c + 1 {
        return None;
    }
    let mut q = s;
    while q < e.len() && e[q] != '\n'
        invariant
            s <= q <= e@.len(),
            line@ == "(line"@,
            s == ws_skip(e@, c + 1),
            s > c + 1,
            first_line_ref(e@, s as int) == first_line_ref(e@, q as int),
        decreases e@.len() - q,
    {
        match line_ref_exec(e, q, line) {
            Some((b, d)) => {
                assert(first_line_ref(e@, q as int) == Some((q as int, b as int, d as int)));
                let node = slice_copy(e, s, q);
                assert(after_colon(e@, c as int) == Some((node@, e@.subrange(b as int, d as int))));
                return Some((node, b, d));
            },
            None => {},
        }
        q += 1;
    }
    None
}

fn digits_of(e: &[char], b: usize, d: usize) -> (r: usize)
    requires
        b <= d <= e@.len(),
    ensures
        r == line_number(e@.subrange(b as int, d as int)),
{
    let t = slice_copy(e, b, d);
    assert(t@ =~= e@.subrange(b as int, d as int));
    let mut k: usize = 0;
    while k < t.len()
        invariant
            k <= t@.len(),
            t@ == e@.subrange(b as int, d as int),
            forall|q: int| 0 <= q < k ==> is_digit(#[trigger] t@[q]),
        decreases t@.len() - k,
    {
        if !('0' <= t[k] && t[k] <= '9') {
            assert(!is_digit(t@[k as int]));
            return 0;
        }
        k += 1;
    }
    match digits_usize(t.as_slice(), 0, t.len()) {
        Some(v) => v,
        None => 0,
    }
}

/// A topic of an index menu: the node that documents it, and the line of
/// that node where it is.
pub struct TopicRef {
    pub node_name: String,
    pub line_offset: usize,
}

pub open spec fn topic_views(v: Seq<(String, TopicRef)>) -> Seq<(Seq<char>, Seq<char>, nat)> {
    Seq::new(v.len(), |i: int| (v[i].0@, v[i].1.node_name@, v[i].1.line_offset as nat))
}

fn entry_exec(e: &[char], line: &[char]) -> (r: Option<(Vec<char>, Vec<char>, usize)>)
    requires
        line@ == "(line"@,
    ensures
        match r {
            Some((t, n, k)) => entry_match(e@) matches Some((t2, n2, d2)) && t@ == t2 && n@ == trim(n2)
                && k == line_number(d2),
            None => entry_match(e@) is None,
        },
{
    let star = chars_of("* ");
    if !starts_with(e, star.as_slice()) {
        return None;
    }
    assert(star@.len() == 2) by {
        reveal_strlit("* ");
    }
    let n = nonws_end_exec(e, 2);
    if n > 3 && e[n - 1] == ':' {
        match after_colon_exec(e, n - 1, line) {
            Some((node, b, d)) => {
                let k = digits_of(e, b, d);
                return Some((slice_copy(e, 2, n - 1), trimmed(node.as_slice()), k));
            },
            None => {},
        }
    }
    let mut c: usize = 2;
    while c < e.len() && e[c] != ':'
        invariant
            2 <= c <= e@.len(),
            next_char(e@, ':', 2) == next_char(e@, ':', c as int),
        decreases e@.len() - c,
    {
        c += 1;
    }
    if c > 2 && c < e.len() {
        match after_colon_exec(e, c, line) {
            Some((node, b, d)) => {
                let k = digits_of(e, b, d);
                return Some((slice_copy(e, 2, c), trimmed(node.as_slice()), k));
            },
            None => {},
        }
    }
    None
}

proof fn lemma_insert_topic(acc: Seq<(Seq<char>, Seq<char>, nat)>, t: (Seq<char>, Seq<char>, nat), p: int)
    requires
        0 <= p <= acc.len(),
        forall|q: int| 0 <= q < p ==> #[trigger] acc[q].0 != t.0 && !crate::text::seq_lt(t.0, acc[q].0),
        p < acc.len() ==> (acc[p].0 == t.0 || crate::text::seq_lt(t.0, acc[p].0)),
    ensures
        insert_topic(acc, t) == if p < acc.len() && acc[p].0 == t.0 {
            acc.update(p, t)
        } else {
            acc.take(p) + seq![t] + acc.skip(p)
        },
    decreases acc.len(),
{
    if acc.len() == 0 {
        assert(acc.take(p) + seq![t] + acc.skip(p) =~= seq![t]);
    } else if p == 0 {
        if acc[0].0 == t.0 {
            assert(seq![t] + acc.skip(1) =~= acc.update(0, t));
        } else {
            assert(acc.take(p) + seq![t] + acc.skip(p) =~= seq![t] + acc);
        }
    } else {
        let u = acc.skip(1);
        assert forall|q: int| 0 <= q < p - 1 implies #[trigger] u[q].0 != t.0 && !crate::text::seq_lt(
            t.0,
            u[q].0,
        ) by {
            assert(u[q] == acc[q + 1]);
        }
        if p - 1 < u.len() {
            assert(u[p - 1] == acc[p]);
        }
        lemma_insert_topic(u, t, p - 1);
        if p < acc.len() && acc[p].0 == t.0 {
            assert(seq![acc[0]] + u.update(p - 1, t) =~= acc.update(p, t));
        } else {
            assert(acc.take(p) + seq![t] + acc.skip(p) =~= seq![acc[0]] + (u.take(p - 1) + seq![t]
                + u.skip(p - 1)));
        }
    }
}

fn insert_topic_exec(acc: &mut Vec<(String, TopicRef)>, topic: Vec<char>, node: Vec<char>, line: usize)
    ensures
        topic_views(final(acc)@) == insert_topic(topic_views(old(acc)@), (topic@, node@, line as nat)),
{
    let ghost a = topic_views(acc@);
    let ghost t = (topic@, node@, line as nat);
    let mut p: usize = 0;
    while p < acc.len() && !eq_chars(chars_of_string(&acc[p].0).as_slice(), topic.as_slice())
        && !crate::text::lt_chars(topic.as_slice(), chars_of_string(&acc[p].0).as_slice())
        invariant
            p <= acc.len(),
            a == topic_views(acc@),
            forall|q: int| 0 <= q < p ==> #[trigger] a[q].0 != topic@ && !crate::text::seq_lt(topic@, a[q].0),
        decreases acc.len() - p,
    {
        assert(a[p as int].0 == acc@[p as int].0@);
        p += 1;
    }
    if p < acc.len() {
        assert(a[p as int].0 == acc@[p as int].0@);
    }
    proof {
        lemma_insert_topic(a, t, p as int);
    }
    let entry = (string_of(topic.as_slice()), TopicRef { node_name: string_of(node.as_slice()), line_offset: line });
    if p < acc.len() && eq_chars(chars_of_string(&acc[p].0).as_slice(), topic.as_slice()) {
        acc.set(p, entry);
        assert(topic_views(acc@) =~= a.update(p as int, t));
    } else {
        acc.insert(p, entry);
        assert(topic_views(acc@) =~= a.take(p as int) + seq![t] + a.skip(p as int));
    }
}

/// The topics of the index menu in an info file's text: found after the
/// index node's header, each with its node and line, sorted by topic, a
/// later entry replacing an earlier one of the same topic.
pub fn parse_index_menu(data: &[u8], index_node_name: &str) -> (r: Vec<(String, TopicRef)>)
    ensures
        topic_views(r@) == index_topics(utf8_lossy(data@), index_node_name@),
{
    let text = lossy_chars(data);
    let name = chars_of(index_node_name);
    let mut topics: Vec<(String, TopicRef)> = Vec::new();
    assert(topic_views(topics@) =~= Seq::<(Seq<char>, Seq<char>, nat)>::empty());
    let start = match find_index_header(text.as_slice(), name.as_slice()) {
        Some(l) => l,
        None => {
            return topics;
        },
    };
    let rest = slice_copy(text.as_slice(), start, text.len());
    assert(rest@ =~= text@.skip(start as int));
    let ls = split_lines(rest.as_slice());
    let es = menu_scan_exec(&ls);
    let ghost ev = views(es@);
    let line = chars_of("(line");
    let mut i: usize = 0;
    assert(ev.take(0) =~= Seq::<Seq<char>>::empty());
    while i < es.len()
        invariant
            i <= es.len(),
            ev == views(es@),
            line@ == "(line"@,
            topic_views(topics@) == menu_topics(ev.take(i as int)),
        decreases es.len() - i,
    {
        assert(ev.take(i + 1).drop_last() =~= ev.take(i as int));
        assert(ev.take(i + 1).last() == es@[i as int]@);
        match entry_exec(es[i].as_slice(), line.as_slice()) {
            Some((t, n, k)) => {
                insert_topic_exec(&mut topics, t, n, k);
            },
            None => {},
        }
        i += 1;
    }
    assert(ev.take(es.len() as int) =~= ev);
    topics
}

// ---------------------------------------------------------------------------
// Resolving topics
// ---------------------------------------------------------------------------

/// The bytes of the first file named `name`.
pub open spec fn file_bytes(files: Seq<(Seq<char>, Seq<u8>)>, name: Seq<char>) -> Option<Seq<u8>>
    decreases files.len(),
{
    if files.len() == 0 {
        None
    } else if files[0].0 == name {
        Some(files[0].1)
    } else {
        file_bytes(files.drop_first(), name)
    }
}

/// The index entry of a topic: none when its node is unknown; an error
/// (`None`) when the node's file is not among `files`, or the offsets do
/// not fall inside it.
pub open spec fn topic_entry(
    t: (Seq<char>, Seq<char>, nat),
    nodes: Map<Seq<char>, (Seq<char>, usize)>,
    files: Seq<(Seq<char>, Seq<u8>)>,
    major: Option<u32>,
) -> Option<Option<DeffnV>> {
    if !nodes.contains_key(t.1) {
        Some(None)
    } else {
        let (f, off) = nodes[t.1];
        match file_bytes(files, f) {
            None => None,
            Some(data) => if off > data.len() || t.2 > usize::MAX || (major == Some(4u32) && t.2
                >= usize::MAX) {
                None
            } else {
                let b = topic_offset(data, off as int, t.2 as int, major);
                if 0 <= b <= data.len() {
                    Some(
                        Some(
                            DeffnV {
                                topic: t.0,
                                filename: f,
                                byte_offset: b as usize,
                                char_length: deffn_end(utf8_lossy(data.skip(b)), 0) as usize,
                                node_name: t.1,
                            },
                        ),
                    )
                } else {
                    None
                }
            },
        }
    }
}

/// The index entries of the topics, in order; `None` if one of them is in
/// error.
pub open spec fn resolved(
    ts: Seq<(Seq<char>, Seq<char>, nat)>,
    nodes: Map<Seq<char>, (Seq<char>, usize)>,
    files: Seq<(Seq<char>, Seq<u8>)>,
    major: Option<u32>,
) -> Option<Seq<DeffnV>>
    decreases ts.len(),
{
    if ts.len() == 0 {
        Some(Seq::empty())
    } else {
        match resolved(ts.drop_last(), nodes, files, major) {
            None => None,
            Some(es) => match topic_entry(ts.last(), nodes, files, major) {
                None => None,
                Some(None) => Some(es),
                Some(Some(e)) => Some(es.push(e)),
            },
        }
    }
}

pub open spec fn file_views(v: Seq<(String, Vec<u8>)>) -> Seq<(Seq<char>, Seq<u8>)> {
    Seq::new(v.len(), |i: int| (v[i].0@, v[i].1@))
}

fn file_index(files: &Vec<(String, Vec<u8>)>, name: &str) -> (r: Option<usize>)
    ensures
        match r {
            Some(k) => k < files.len() && file_bytes(file_views(files@), name@) == Some(files@[k as int].1@),
            None => file_bytes(file_views(files@), name@) is None,
        },
{
    let ghost fv = file_views(files@);
    let nm = chars_of(name);
    let mut i: usize = 0;
    assert(fv.skip(0) =~= fv);
    while i < files.len()
        invariant
            i <= files.len(),
            fv == file_views(files@),
            nm@ == name@,
            file_bytes(fv, name@) == file_bytes(fv.skip(i as int), name@),
        decreases files.len() - i,
    {
        assert(fv.skip(i as int)[0] == fv[i as int]);
        if eq_chars(chars_of_string(&files[i].0).as_slice(), nm.as_slice()) {
            return Some(i);
        }
        assert(fv.skip(i as int).drop_first() =~= fv.skip(i + 1));
        i += 1;
    }
    None
}

/// A topic refers to a node, or a file, that is not in what was read.
pub struct ResolveError;

/// The definition entries of an index's topics, in order: each topic whose
/// node is known, at the byte offset of its line in the node's file and
/// with the length of its definition text. `files` holds the bytes of the
/// info files by name; an error comes when a node's file is not among them
/// or the node lies outside it.
pub fn resolve_topics(
    topics: &Vec<(String, TopicRef)>,
    nodes: &NodeTable,
    files: &Vec<(String, Vec<u8>)>,
    major_version: Option<u32>,
) -> (r: Result<Vec<DeffnEntry>, ResolveError>)
    ensures
        match r {
            Ok(v) => resolved(topic_views(topics@), nodes.view_map(), file_views(files@), major_version)
                == Some(crate::info_index::deffn_views(v@)),
            Err(_) => resolved(topic_views(topics@), nodes.view_map(), file_views(files@), major_version)
                is None,
        },
{
    let ghost tv = topic_views(topics@);
    let ghost nm = nodes.view_map();
    let ghost fv = file_views(files@);
    let mut out: Vec<DeffnEntry> = Vec::new();
    let mut i: usize = 0;
    assert(tv.take(0) =~= Seq::<(Seq<char>, Seq<char>, nat)>::empty());
    assert(crate::info_index::deffn_views(out@) =~= Seq::<DeffnV>::empty());
    while i < topics.len()
        invariant
            i <= topics.len(),
            tv == topic_views(topics@),
            nm == nodes.view_map(),
            fv == file_views(files@),
            resolved(tv.take(i as int), nm, fv, major_version) == Some(
                crate::info_index::deffn_views(out@),
            ),
        decreases topics.len() - i,
    {
        assert(tv.take(i + 1).drop_last() =~= tv.take(i as int));
        assert(tv.take(i + 1).last() == tv[i as int]);
        let (topic, tref) = (&topics[i].0, &topics[i].1);
        match nodes.get(tref.node_name.as_str()) {
            None => {},
            Some((fname, off)) => {
                let k = match file_index(files, fname.as_str()) {
                    Some(k) => k,
                    None => {
                        assert(resolved(tv.take(i + 1), nm, fv, major_version) is None);
                        proof {
                            lemma_resolved_stays_none(tv, nm, fv, major_version, i + 1);
                        }
                        return Err(ResolveError);
                    },
                };
                let data = files[k].1.as_slice();
                if off > data.len() || (major_version == Some(4u32) && tref.line_offset == usize::MAX) {
                    proof {
                        lemma_resolved_stays_none(tv, nm, fv, major_version, i + 1);
                    }
                    return Err(ResolveError);
                }
                let b = seek_lines(data, off, tref.line_offset, major_version);
                if b > data.len() {
                    proof {
                        lemma_resolved_stays_none(tv, nm, fv, major_version, i + 1);
                    }
                    return Err(ResolveError);
                }
                let len = measure_deffn_length(data, b);
                let e = DeffnEntry {
                    topic: string_of(chars_of_string(topic).as_slice()),
                    filename: fname,
                    byte_offset: b,
                    char_length: len,
                    node_name: string_of(chars_of_string(&tref.node_name).as_slice()),
                };
                let ghost before = out@;
                out.push(e);
                assert(crate::info_index::deffn_views(out@) =~= crate::info_index::deffn_views(before).push(e@));
            },
        }
        i += 1;
    }
    assert(tv.take(topics.len() as int) =~= tv);
    Ok(out)
}

proof fn lemma_resolved_stays_none(
    ts: Seq<(Seq<char>, Seq<char>, nat)>,
    nodes: Map<Seq<char>, (Seq<char>, usize)>,
    files: Seq<(Seq<char>, Seq<u8>)>,
    major: Option<u32>,
    k: int,
)
    requires
        0 <= k <= ts.len(),
        resolved(ts.take(k), nodes, files, major) is None,
    ensures
        resolved(ts, nodes, files, major) is None,
    decreases ts.len() - k,
{
    if k < ts.len() {
        assert(ts.take(k + 1).drop_last() =~= ts.take(k));
        lemma_resolved_stays_none(ts, nodes, files, major, k + 1);
    } else {
        assert(ts.take(k) =~= ts);
    }
}

} // verus!
