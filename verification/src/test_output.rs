//! Reading the output of Maxima's test runner: pass counts and failure reports.
use vstd::prelude::*;
use crate::text::{
    chars_of, contains, contains_chars, ends_with, find, find_chars, has_suffix, join,
    join_chars, lemma_find_from, lines, occurs_at, push_all, slice_copy, split_lines, string_of,
    trim, trim_end, trimmed, trimmed_end, views,
};

verus! {

// ---------------------------------------------------------------------------
// Unsigned integers
// ---------------------------------------------------------------------------

pub open spec fn is_digit(c: char) -> bool {
    '0' <= c <= '9'
}

pub open spec fn all_digits(s: Seq<char>) -> bool {
    forall|i: int| 0 <= i < s.len() ==> is_digit(#[trigger] s[i])
}

/// The decimal value of a string of ASCII digits.
pub open spec fn digits_value(s: Seq<char>) -> nat
    decreases s.len(),
{
    if s.len() == 0 {
        0
    } else {
        digits_value(s.drop_last()) * 10 + (s.last() as nat - '0' as nat) as nat
    }
}

/// `str::parse::<u32>`: an optional `+`, then one or more ASCII digits whose
/// value fits in 32 bits.
pub open spec fn parse_u32(s: Seq<char>) -> Option<u32> {
    let d = if s.len() > 0 && s[0] == '+' { s.skip(1) } else { s };
    if d.len() > 0 && all_digits(d) && digits_value(d) <= u32::MAX {
        Some(digits_value(d) as u32)
    } else {
        None
    }
}

proof fn lemma_digits_value_prefix(s: Seq<char>, i: int)
    requires
        0 <= i <= s.len(),
        all_digits(s),
    ensures
        digits_value(s.take(i)) <= digits_value(s),
    decreases s.len() - i,
{
    if i < s.len() {
        lemma_digits_value_prefix(s, i + 1);
        let t = s.take(i + 1);
        assert(t.drop_last() =~= s.take(i));
        assert(digits_value(t) == digits_value(t.drop_last()) * 10 + (t.last() as nat
            - '0' as nat) as nat);
    } else {
        assert(s.take(i) =~= s);
    }
}

/// Parses an unsigned 32-bit decimal as `str::parse::<u32>` does.
pub fn parse_u32_chars(s: &[char]) -> (r: Option<u32>)
    ensures
        r == parse_u32(s@),
{
    let start: usize = if s.len() > 0 && s[0] == '+' { 1 } else { 0 };
    let ghost d = if s@.len() > 0 && s@[0] == '+' { s@.skip(1) } else { s@ };
    assert(d =~= s@.skip(start as int));
    if start >= s.len() {
        return None;
    }
    let mut i = start;
    while i < s.len()
        invariant
            start <= i <= s@.len(),
            d == s@.skip(start as int),
            d == (if s@.len() > 0 && s@[0] == '+' { s@.skip(1) } else { s@ }),
            forall|j: int| start <= j < i ==> is_digit(#[trigger] s@[j]),
        decreases s@.len() - i,
    {
        if !('0' <= s[i] && s[i] <= '9') {
            assert(d[i - start] == s@[i as int]);
            assert(!is_digit(d[i - start]));
            return None;
        }
        i += 1;
    }
    assert forall|j: int| 0 <= j < d.len() implies is_digit(#[trigger] d[j]) by {
        assert(d[j] == s@[j + start]);
    }
    let mut v: u64 = 0;
    let mut k = start;
    while k < s.len()
        invariant
            start <= k <= s@.len(),
            d == s@.skip(start as int),
            d == (if s@.len() > 0 && s@[0] == '+' { s@.skip(1) } else { s@ }),
            all_digits(d),
            v == digits_value(d.take(k - start)),
            v <= u32::MAX,
        decreases s@.len() - k,
    {
        let c = s[k];
        assert(d.take(k - start + 1).drop_last() =~= d.take(k - start));
        assert(is_digit(d[k - start]));
        let digit = (c as u32 - '0' as u32) as u64;
        let nv = v * 10 + digit;
        assert(d.take(k - start + 1).last() == c);
        assert(nv == digits_value(d.take(k - start + 1)));
        if nv > 4294967295u64 {
            proof {
                lemma_digits_value_prefix(d, k - start + 1);
            }
            return None;
        }
        v = nv;
        k += 1;
    }
    assert(d.take(d.len() as int) =~= d);
    Some(v as u32)
}

// ---------------------------------------------------------------------------
// Character trimming
// ---------------------------------------------------------------------------

/// `s` without every trailing `c` (`str::trim_end_matches` with a char).
pub open spec fn trim_end_char(s: Seq<char>, c: char) -> Seq<char>
    decreases s.len(),
{
    if s.len() > 0 && s.last() == c {
        trim_end_char(s.drop_last(), c)
    } else {
        s
    }
}

/// `s` without every leading `c` (`str::trim_start_matches` with a char).
pub open spec fn trim_start_char(s: Seq<char>, c: char) -> Seq<char>
    decreases s.len(),
{
    if s.len() > 0 && s[0] == c {
        trim_start_char(s.skip(1), c)
    } else {
        s
    }
}

fn trim_end_char_exec(s: &[char], c: char) -> (r: Vec<char>)
    ensures
        r@ == trim_end_char(s@, c),
{
    let mut b = s.len();
    assert(s@.take(b as int) =~= s@);
    while b > 0 && s[b - 1] == c
        invariant
            b <= s@.len(),
            trim_end_char(s@.take(b as int), c) == trim_end_char(s@, c),
        decreases b,
    {
        assert(s@.take(b as int).drop_last() =~= s@.take(b - 1));
        b -= 1;
    }
    assert(s@.take(b as int) =~= s@.subrange(0, b as int));
    slice_copy(s, 0, b)
}

fn trim_start_char_exec(s: &[char], c: char) -> (r: Vec<char>)
    ensures
        r@ == trim_start_char(s@, c),
{
    let mut a: usize = 0;
    assert(s@.skip(0) =~= s@);
    while a < s.len() && s[a] == c
        invariant
            a <= s@.len(),
            trim_start_char(s@.skip(a as int), c) == trim_start_char(s@, c),
        decreases s@.len() - a,
    {
        assert(s@.skip(a as int).skip(1) =~= s@.skip(a + 1));
        a += 1;
    }
    assert(s@.skip(a as int) =~= s@.subrange(a as int, s@.len() as int));
    slice_copy(s, a, s.len())
}

// ---------------------------------------------------------------------------
// Summary lines
// ---------------------------------------------------------------------------

/// `(total, passed)` of a trimmed summary line `M/N tests passed`.
pub open spec fn modern_counts(t: Seq<char>) -> Option<(u32, u32)> {
    if has_suffix(t, "tests passed"@) {
        let rest = trim(t.take(t.len() - 12));
        let k = find(rest, "/"@);
        if k >= 0 {
            match (parse_u32(trim(rest.take(k))), parse_u32(trim(rest.skip(k + 1)))) {
                (Some(passed), Some(total)) => Some((total, passed)),
                _ => None,
            }
        } else {
            None
        }
    } else {
        None
    }
}

/// `(attempted, correct)` of a trimmed summary line
/// `N problems attempted; M correct.`
pub open spec fn legacy_counts(t: Seq<char>) -> Option<(u32, u32)> {
    let td = trim_end_char(t, '.');
    if has_suffix(td, "correct"@) {
        let rest = trim(trim_end_char(trim(td.take(td.len() - 7)), ';'));
        let idx = find(rest, "problems attempted"@);
        if idx >= 0 {
            let a = trim(rest.take(idx));
            let c = trim(trim_start_char(trim(rest.skip(idx + 18)), ';'));
            match (parse_u32(a), parse_u32(c)) {
                (Some(x), Some(y)) => Some((x, y)),
                _ => None,
            }
        } else {
            None
        }
    } else {
        None
    }
}

/// The counts a line reports, in either format.
pub open spec fn line_counts(l: Seq<char>) -> Option<(u32, u32)> {
    let t = trim(l);
    match modern_counts(t) {
        Some(p) => Some(p),
        None => legacy_counts(t),
    }
}

/// Sums of attempted and correct counts over the first `n` lines, and
/// whether any of them was a summary line.
pub open spec fn sum_counts(ls: Seq<Seq<char>>, n: int) -> (nat, nat, bool)
    decreases n,
{
    if n <= 0 {
        (0, 0, false)
    } else {
        let p = sum_counts(ls, n - 1);
        match line_counts(ls[n - 1]) {
            Some((a, c)) => ((p.0 + a) as nat, (p.1 + c) as nat, true),
            None => p,
        }
    }
}

/// `(attempted, correct)` summed over every summary line, or `None`
/// when the output holds no summary line.
pub open spec fn test_counts(output: Seq<char>) -> Option<(u32, u32)> {
    let ls = lines(output);
    let s = sum_counts(ls, ls.len() as int);
    if s.2 {
        Some((s.0 as u32, s.1 as u32))
    } else {
        None
    }
}

/// The sums fit in 32 bits.
pub open spec fn counts_fit(output: Seq<char>) -> bool {
    let ls = lines(output);
    sum_counts(ls, ls.len() as int).0 <= u32::MAX && sum_counts(ls, ls.len() as int).1
        <= u32::MAX
}

proof fn lemma_sum_counts_mono(ls: Seq<Seq<char>>, i: int, n: int)
    requires
        0 <= i <= n,
    ensures
        sum_counts(ls, i).0 <= sum_counts(ls, n).0,
        sum_counts(ls, i).1 <= sum_counts(ls, n).1,
    decreases n - i,
{
    if i < n {
        lemma_sum_counts_mono(ls, i, n - 1);
    }
}

fn parse_pair(a: &[char], b: &[char]) -> (r: Option<(u32, u32)>)
    ensures
        r == match (parse_u32(a@), parse_u32(b@)) {
            (Some(x), Some(y)) => Some((x, y)),
            _ => None::<(u32, u32)>,
        },
{
    match (parse_u32_chars(a), parse_u32_chars(b)) {
        (Some(x), Some(y)) => Some((x, y)),
        _ => None,
    }
}

fn modern_counts_exec(t: &[char]) -> (r: Option<(u32, u32)>)
    ensures
        r == modern_counts(t@),
{
    let suffix = chars_of("tests passed");
    proof {
        reveal_strlit("tests passed");
    }
    if !ends_with(t, suffix.as_slice()) {
        return None;
    }
    let rest = trimmed(slice_copy(t, 0, t.len() - 12).as_slice());
    assert(t@.subrange(0, t@.len() - 12) =~= t@.take(t@.len() - 12));
    let slash = chars_of("/");
    proof {
        reveal_strlit("/");
        lemma_find_from(rest@, "/"@, 0);
    }
    match find_chars(rest.as_slice(), slash.as_slice()) {
        Some(k) => {
            assert(occurs_at(rest@, "/"@, k as int));
            assert("/"@.len() == 1);
            let n = rest.len();
            assert(k < n);
            let a = trimmed(slice_copy(rest.as_slice(), 0, k).as_slice());
            let b = trimmed(slice_copy(rest.as_slice(), k + 1, n).as_slice());
            assert(rest@.subrange(0, k as int) =~= rest@.take(k as int));
            assert(rest@.subrange(k + 1, rest@.len() as int) =~= rest@.skip(k + 1));
            match parse_pair(a.as_slice(), b.as_slice()) {
                Some((p, tot)) => Some((tot, p)),
                None => None,
            }
        },
        None => None,
    }
}

fn legacy_counts_exec(t: &[char]) -> (r: Option<(u32, u32)>)
    ensures
        r == legacy_counts(t@),
{
    let td = trim_end_char_exec(t, '.');
    let suffix = chars_of("correct");
    proof {
        reveal_strlit("correct");
    }
    if !ends_with(td.as_slice(), suffix.as_slice()) {
        return None;
    }
    let head = trimmed(slice_copy(td.as_slice(), 0, td.len() - 7).as_slice());
    assert(td@.subrange(0, td@.len() - 7) =~= td@.take(td@.len() - 7));
    let rest = trimmed(trim_end_char_exec(head.as_slice(), ';').as_slice());
    let key = chars_of("problems attempted");
    proof {
        reveal_strlit("problems attempted");
        lemma_find_from(rest@, "problems attempted"@, 0);
    }
    match find_chars(rest.as_slice(), key.as_slice()) {
        Some(idx) => {
            assert(occurs_at(rest@, "problems attempted"@, idx as int));
            let n = rest.len();
            assert(idx + 18 <= n);
            let a = trimmed(slice_copy(rest.as_slice(), 0, idx).as_slice());
            assert(rest@.subrange(0, idx as int) =~= rest@.take(idx as int));
            let after = trimmed(slice_copy(rest.as_slice(), idx + 18, n).as_slice());
            assert(rest@.subrange(idx + 18, rest@.len() as int) =~= rest@.skip(idx + 18));
            let c = trimmed(trim_start_char_exec(after.as_slice(), ';').as_slice());
            parse_pair(a.as_slice(), c.as_slice())
        },
        None => None,
    }
}

fn line_counts_exec(l: &[char]) -> (r: Option<(u32, u32)>)
    ensures
        r == line_counts(l@),
{
    let t = trimmed(l);
    match modern_counts_exec(t.as_slice()) {
        Some(p) => Some(p),
        None => legacy_counts_exec(t.as_slice()),
    }
}

/// Sums the counts of every summary line of a test run's output, in the
/// modern (`M/N tests passed`) or legacy (`N problems attempted; M correct.`)
/// format: `(attempted, correct)`, or `None` when there is no summary line.
pub fn parse_test_output(output: &str) -> (r: Option<(u32, u32)>)
    requires
        counts_fit(output@),
    ensures
        r == test_counts(output@),
{
    let c = chars_of(output);
    let ls = split_lines(c.as_slice());
    let ghost lv = views(ls@);
    let mut attempted: u32 = 0;
    let mut correct: u32 = 0;
    let mut saw_any = false;
    let mut i: usize = 0;
    while i < ls.len()
        invariant
            i <= ls@.len(),
            lv == views(ls@),
            lv == lines(output@),
            counts_fit(output@),
            (attempted as nat, correct as nat, saw_any) == sum_counts(lv, i as int),
        decreases ls@.len() - i,
    {
        proof {
            lemma_sum_counts_mono(lv, i + 1, lv.len() as int);
        }
        assert(lv[i as int] == ls@[i as int]@);
        match line_counts_exec(ls[i].as_slice()) {
            Some((a, k)) => {
                attempted = attempted + a;
                correct = correct + k;
                saw_any = true;
            },
            None => {},
        }
        i += 1;
    }
    if saw_any {
        Some((attempted, correct))
    } else {
        None
    }
}

/// Whether the summed counts of a test run's output fit in 32 bits, which
/// `parse_test_output` asks of its input.
pub fn test_counts_fit(output: &str) -> (r: bool)
    ensures
        r == counts_fit(output@),
{
    let c = chars_of(output);
    let ls = split_lines(c.as_slice());
    let ghost lv = views(ls@);
    let mut attempted: u32 = 0;
    let mut correct: u32 = 0;
    let mut i: usize = 0;
    while i < ls.len()
        invariant
            i <= ls@.len(),
            lv == views(ls@),
            lv == lines(output@),
            attempted as nat == sum_counts(lv, i as int).0,
            correct as nat == sum_counts(lv, i as int).1,
        decreases ls@.len() - i,
    {
        assert(lv[i as int] == ls@[i as int]@);
        match line_counts_exec(ls[i].as_slice()) {
            Some((a, k)) => {
                let na = attempted.checked_add(a);
                let nk = correct.checked_add(k);
                if na.is_none() || nk.is_none() {
                    proof {
                        lemma_sum_counts_mono(lv, i + 1, lv.len() as int);
                    }
                    return false;
                }
                attempted = na.unwrap();
                correct = nk.unwrap();
            },
            None => {},
        }
        i += 1;
    }
    true
}

// ---------------------------------------------------------------------------
// Joined outputs
// ---------------------------------------------------------------------------

/// The counts of all the lines of `ls`.
pub open spec fn all_counts(ls: Seq<Seq<char>>) -> (nat, nat, bool) {
    sum_counts(ls, ls.len() as int)
}

proof fn lemma_sum_counts_prefix(x: Seq<Seq<char>>, y: Seq<Seq<char>>, n: int)
    requires
        0 <= n <= x.len(),
        n <= y.len(),
        x.take(n) == y.take(n),
    ensures
        sum_counts(x, n) == sum_counts(y, n),
    decreases n,
{
    if n > 0 {
        assert(x.take(n - 1) =~= x.take(n).take(n - 1));
        assert(y.take(n - 1) =~= y.take(n).take(n - 1));
        assert(x[n - 1] == x.take(n)[n - 1]);
        assert(y[n - 1] == y.take(n)[n - 1]);
        lemma_sum_counts_prefix(x, y, n - 1);
    }
}

proof fn lemma_all_counts_append(x: Seq<Seq<char>>, y: Seq<Seq<char>>)
    ensures
        all_counts(x + y) == (
            (all_counts(x).0 + all_counts(y).0) as nat,
            (all_counts(x).1 + all_counts(y).1) as nat,
            all_counts(x).2 || all_counts(y).2,
        ),
    decreases y.len(),
{
    if y.len() == 0 {
        assert(x + y =~= x);
    } else {
        let d = y.drop_last();
        lemma_all_counts_append(x, d);
        let xy = x + y;
        assert(xy.take(xy.len() - 1) =~= (x + d).take(xy.len() - 1));
        lemma_sum_counts_prefix(xy, x + d, xy.len() - 1);
        assert(xy[xy.len() - 1] == y[y.len() - 1]);
        assert(y.take(d.len() as int) =~= d.take(d.len() as int));
        lemma_sum_counts_prefix(y, d, d.len() as int);
    }
}

proof fn lemma_ws_skip_prefix(s: Seq<char>, t: Seq<char>, i: int)
    requires
        0 <= i <= t.len() <= s.len(),
        t == s.take(t.len() as int),
        crate::text::ws_skip(s, i) < t.len(),
    ensures
        crate::text::ws_skip(t, i) == crate::text::ws_skip(s, i),
    decreases s.len() - i,
{
    if i < s.len() && crate::text::is_ws(s[i]) {
        crate::text::lemma_ws_skip_bounds(s, i + 1);
        lemma_ws_skip_prefix(s, t, i + 1);
    }
}

proof fn lemma_ws_skip_all(s: Seq<char>, i: int)
    requires
        0 <= i <= s.len(),
        crate::text::ws_skip(s, i) == s.len(),
    ensures
        forall|k: int| i <= k < s.len() ==> crate::text::is_ws(#[trigger] s[k]),
    decreases s.len() - i,
{
    if i < s.len() {
        lemma_ws_skip_all(s, i + 1);
    }
}

proof fn lemma_ws_back_prefix(s: Seq<char>, t: Seq<char>, lo: int, j: int)
    requires
        0 <= lo <= j <= t.len() <= s.len(),
        t == s.take(t.len() as int),
    ensures
        crate::text::ws_back(t, lo, j) == crate::text::ws_back(s, lo, j),
    decreases j - lo,
{
    if lo < j && crate::text::is_ws(s[j - 1]) {
        lemma_ws_back_prefix(s, t, lo, j - 1);
    }
}

/// Dropping a final whitespace character does not change the trimmed text.
proof fn lemma_trim_drop_ws(s: Seq<char>)
    requires
        s.len() > 0,
        crate::text::is_ws(s.last()),
    ensures
        trim(s.drop_last()) == trim(s),
{
    let d = s.drop_last();
    let n = s.len() as int;
    let a = crate::text::ws_skip(s, 0);
    crate::text::lemma_ws_skip_bounds(s, 0);
    crate::text::lemma_ws_skip_bounds(d, 0);
    assert(d =~= s.take(n - 1));
    if a < n - 1 {
        lemma_ws_skip_prefix(s, d, 0);
        assert(crate::text::ws_back(s, a, n) == crate::text::ws_back(s, a, n - 1));
        lemma_ws_back_prefix(s, d, a, n - 1);
        crate::text::lemma_ws_back_bounds(s, a, n - 1);
        let e = crate::text::ws_back(s, a, n - 1);
        assert(s.subrange(a, e) =~= d.subrange(a, e));
    } else {
        // all of `s` is whitespace
        if a == n - 1 {
            assert(false);
        }
        lemma_ws_skip_all(s, 0);
        let b = crate::text::ws_skip(d, 0);
        if b < n - 1 {
            assert(crate::text::is_ws(d[b]));
            assert(false);
        }
        assert(trim(s).len() == 0);
        assert(trim(d).len() == 0);
        assert(trim(s) =~= trim(d));
    }
}

proof fn lemma_counts_strip_cr(l: Seq<char>)
    ensures
        line_counts(crate::text::strip_cr(l)) == line_counts(l),
{
    if l.len() > 0 && l[l.len() - 1] == '\r' {
        assert(crate::text::is_ws(l.last()));
        assert(crate::text::strip_cr(l) =~= l.drop_last());
        lemma_trim_drop_ws(l);
    }
}

proof fn lemma_counts_empty()
    ensures
        line_counts(Seq::empty()) is None,
{
    reveal_strlit("tests passed");
    reveal_strlit("correct");
    let e = Seq::<char>::empty();
    assert(crate::text::ws_skip(e, 0) == 0);
    assert(trim(e) =~= e);
    assert(trim_end_char(e, '.') == e);
}

/// The lines of `a` when a newline follows it: the last one is also freed
/// of a `\r`, and an empty last line counts.
pub open spec fn lines_before_newline(a: Seq<char>, i: int) -> Seq<Seq<char>>
    decreases a.len() + 1 - i,
{
    if i < 0 || i > a.len() {
        Seq::empty()
    } else {
        let j = crate::text::next_char(a, '\n', i);
        if i <= j < a.len() {
            seq![crate::text::strip_cr(a.subrange(i, j))] + lines_before_newline(a, j + 1)
        } else {
            seq![crate::text::strip_cr(a.subrange(i, a.len() as int))]
        }
    }
}

proof fn lemma_next_char_joined(a: Seq<char>, b: Seq<char>, i: int)
    requires
        0 <= i <= a.len(),
    ensures
        crate::text::next_char(a + "\n"@ + b, '\n', i) == crate::text::next_char(a, '\n', i),
    decreases a.len() - i,
{
    reveal_strlit("\n");
    let s = a + "\n"@ + b;
    if i < a.len() {
        assert(s[i] == a[i]);
        lemma_next_char_joined(a, b, i + 1);
    } else {
        assert(s[i] == '\n');
    }
}

proof fn lemma_next_char_shift(p: Seq<char>, b: Seq<char>, k: int)
    requires
        0 <= k <= b.len(),
    ensures
        crate::text::next_char(p + b, '\n', p.len() + k) == p.len() + crate::text::next_char(b, '\n', k),
    decreases b.len() - k,
{
    if k < b.len() {
        assert((p + b)[p.len() + k] == b[k]);
        lemma_next_char_shift(p, b, k + 1);
    }
}

pub(crate) proof fn lemma_lines_shift(p: Seq<char>, b: Seq<char>, k: int)
    requires
        0 <= k <= b.len(),
    ensures
        crate::text::lines_from(p + b, p.len() + k) == crate::text::lines_from(b, k),
    decreases b.len() - k,
{
    if k < b.len() {
        lemma_next_char_shift(p, b, k);
        crate::text::lemma_next_char(b, '\n', k);
        let j = crate::text::next_char(b, '\n', k);
        if j < b.len() {
            lemma_lines_shift(p, b, j + 1);
            assert((p + b).subrange(p.len() + k, p.len() + j) =~= b.subrange(k, j));
        } else {
            assert((p + b).subrange(p.len() + k, (p + b).len() as int) =~= b.subrange(k, b.len() as int));
        }
    }
}

proof fn lemma_lines_joined(a: Seq<char>, b: Seq<char>, i: int)
    requires
        0 <= i <= a.len(),
    ensures
        crate::text::lines_from(a + "\n"@ + b, i) == lines_before_newline(a, i) + lines(b),
    decreases a.len() - i,
{
    reveal_strlit("\n");
    let s = a + "\n"@ + b;
    lemma_next_char_joined(a, b, i);
    crate::text::lemma_next_char(a, '\n', i);
    let j = crate::text::next_char(a, '\n', i);
    assert(s.subrange(i, j) =~= a.subrange(i, j));
    if j < a.len() {
        lemma_lines_joined(a, b, j + 1);
    } else {
        let p = a + "\n"@;
        assert(s =~= p + b);
        lemma_lines_shift(p, b, 0);
        assert(a.subrange(i, j) =~= a.subrange(i, a.len() as int));
    }
}

proof fn lemma_counts_one(l: Seq<char>)
    ensures
        all_counts(seq![l]) == match line_counts(l) {
            Some((a, c)) => (a as nat, c as nat, true),
            None => (0nat, 0nat, false),
        },
{
    let one = seq![l];
    assert(one[0] == l);
    assert(sum_counts(one, 0) == (0nat, 0nat, false));
}

proof fn lemma_counts_before_newline(a: Seq<char>, i: int)
    requires
        0 <= i <= a.len(),
    ensures
        all_counts(lines_before_newline(a, i)) == all_counts(crate::text::lines_from(a, i)),
    decreases a.len() - i,
{
    crate::text::lemma_next_char(a, '\n', i);
    let j = crate::text::next_char(a, '\n', i);
    if j < a.len() {
        let l = crate::text::strip_cr(a.subrange(i, j));
        lemma_counts_before_newline(a, j + 1);
        assert(lines_before_newline(a, i) == seq![l] + lines_before_newline(a, j + 1));
        assert(crate::text::lines_from(a, i) == seq![l] + crate::text::lines_from(a, j + 1));
        lemma_all_counts_append(seq![l], lines_before_newline(a, j + 1));
        lemma_all_counts_append(seq![l], crate::text::lines_from(a, j + 1));
    } else if i == a.len() {
        let l = crate::text::strip_cr(a.subrange(i, a.len() as int));
        lemma_counts_empty();
        assert(a.subrange(i, a.len() as int) =~= Seq::<char>::empty());
        assert(l =~= Seq::<char>::empty());
        assert(lines_before_newline(a, i) == seq![l]);
        lemma_counts_one(l);
        assert(crate::text::lines_from(a, i) == Seq::<Seq<char>>::empty());
        assert(all_counts(Seq::<Seq<char>>::empty()) == (0nat, 0nat, false));
    } else {
        let m = a.subrange(i, a.len() as int);
        let l = crate::text::strip_cr(m);
        lemma_counts_strip_cr(m);
        assert(lines_before_newline(a, i) == seq![l]);
        assert(crate::text::lines_from(a, i) == seq![m]);
        lemma_counts_one(l);
        lemma_counts_one(m);
    }
}

/// The summaries of two outputs joined by a newline add up: the counts of
/// both (each part's when the other has none), or none when neither has a
/// summary line.
pub proof fn lemma_test_counts_joined(a: Seq<char>, b: Seq<char>)
    requires
        counts_fit(a + "\n"@ + b),
    ensures
        test_counts(a + "\n"@ + b) == match (test_counts(a), test_counts(b)) {
            (None, y) => y,
            (x, None) => x,
            (Some((p, q)), Some((r, t))) => Some(((p + r) as u32, (q + t) as u32)),
        },
        all_counts(lines(a + "\n"@ + b)) == (
            (all_counts(lines(a)).0 + all_counts(lines(b)).0) as nat,
            (all_counts(lines(a)).1 + all_counts(lines(b)).1) as nat,
            all_counts(lines(a)).2 || all_counts(lines(b)).2,
        ),
{
    lemma_lines_joined(a, b, 0);
    lemma_all_counts_append(lines_before_newline(a, 0), lines(b));
    lemma_counts_before_newline(a, 0);
    let ca = all_counts(lines(a));
    let cb = all_counts(lines(b));
    if !ca.2 {
        lemma_no_summary_zero(lines(a), lines(a).len() as int);
    }
    if !cb.2 {
        lemma_no_summary_zero(lines(b), lines(b).len() as int);
    }
}

proof fn lemma_no_summary_zero(ls: Seq<Seq<char>>, n: int)
    requires
        !sum_counts(ls, n).2,
    ensures
        sum_counts(ls, n).0 == 0 && sum_counts(ls, n).1 == 0,
    decreases n,
{
    if n > 0 {
        lemma_no_summary_zero(ls, n - 1);
    }
}

// ---------------------------------------------------------------------------
// Failure reports
// ---------------------------------------------------------------------------

/// The banner line that opens each problem's report.
pub open spec fn is_banner(l: Seq<char>) -> bool {
    contains(l, "***"@) && contains(l, "Problem"@)
}

/// A summary line, which closes the problem block before it.
pub open spec fn is_summary(l: Seq<char>) -> bool {
    let t = trim(l);
    has_suffix(t, "tests passed"@) || has_suffix(trim_end_char(t, '.'), "correct"@)
}

/// The end of the block whose lines after the banner start at `j`: the next
/// banner (excluded), a summary line (included), or the end.
pub open spec fn block_end(ls: Seq<Seq<char>>, j: int) -> int
    decreases ls.len() - j,
{
    if j < 0 || j >= ls.len() {
        ls.len() as int
    } else if is_banner(ls[j]) {
        j
    } else if is_summary(ls[j]) {
        j + 1
    } else {
        block_end(ls, j + 1)
    }
}

pub proof fn lemma_block_end(ls: Seq<Seq<char>>, j: int)
    requires
        0 <= j,
    ensures
        j <= block_end(ls, j) <= ls.len() || (j > ls.len() && block_end(ls, j) == ls.len()),
    decreases ls.len() - j,
{
    if j < ls.len() && !is_banner(ls[j]) && !is_summary(ls[j]) {
        lemma_block_end(ls, j + 1);
    }
}

/// The failing problem blocks from line `i` on, each trimmed at its end.
/// A block runs from a banner to its end; it fails when it holds
/// `This differed from the expected result`.
pub open spec fn failure_blocks(ls: Seq<Seq<char>>, i: int) -> Seq<Seq<char>>
    decreases ls.len() - i,
{
    if i < 0 || i >= ls.len() {
        Seq::empty()
    } else if is_banner(ls[i]) {
        let e = block_end(ls, i + 1);
        proof {
            lemma_block_end(ls, i + 1);
        }
        if e <= i {
            Seq::empty()
        } else {
            let blk = join(ls.subrange(i, e), "\n"@);
            let here = if contains(blk, "This differed from the expected result"@) {
                seq![trim_end(blk)]
            } else {
                Seq::empty()
            };
            here + failure_blocks(ls, e)
        }
    } else {
        failure_blocks(ls, i + 1)
    }
}

/// The marker that a failing problem's report holds.
pub open spec fn failure_marker() -> Seq<char> {
    "This differed from the expected result"@
}

proof fn lemma_ws_back_above(s: Seq<char>, lo: int, j: int, idx: int)
    requires
        0 <= lo <= idx < j <= s.len(),
        !crate::text::is_ws(s[idx]),
    ensures
        crate::text::ws_back(s, lo, j) > idx,
    decreases j - lo,
{
    if j - 1 > idx && crate::text::is_ws(s[j - 1]) {
        lemma_ws_back_above(s, lo, j - 1, idx);
    }
}

proof fn lemma_trim_end_keeps_marker(blk: Seq<char>)
    requires
        contains(blk, failure_marker()),
    ensures
        contains(trim_end(blk), failure_marker()),
{
    reveal_strlit("This differed from the expected result");
    let m = failure_marker();
    let k = choose|k: int| occurs_at(blk, m, k);
    let last = k + m.len() - 1;
    assert(blk.subrange(k, k + m.len())[m.len() - 1] == blk[last]);
    assert(blk[last] == 't');
    lemma_ws_back_above(blk, 0, blk.len() as int, last);
    let e = crate::text::ws_back(blk, 0, blk.len() as int);
    crate::text::lemma_ws_back_bounds(blk, 0, blk.len() as int);
    let t = trim_end(blk);
    assert(t == blk.subrange(0, e));
    assert(t.subrange(k, k + m.len()) =~= blk.subrange(k, k + m.len()));
    assert(occurs_at(t, m, k));
}

proof fn lemma_failure_blocks_marked(ls: Seq<Seq<char>>, i: int)
    ensures
        forall|k: int|
            0 <= k < failure_blocks(ls, i).len() ==> contains(
                #[trigger] failure_blocks(ls, i)[k],
                failure_marker(),
            ),
    decreases ls.len() - i,
{
    if 0 <= i < ls.len() {
        if is_banner(ls[i]) {
            let e = block_end(ls, i + 1);
            lemma_block_end(ls, i + 1);
            if e <= i {
                assert(failure_blocks(ls, i).len() == 0);
            } else {
                lemma_failure_blocks_marked(ls, e);
                let blk = join(ls.subrange(i, e), "\n"@);
                let rest = failure_blocks(ls, e);
                if contains(blk, failure_marker()) {
                    lemma_trim_end_keeps_marker(blk);
                    let fb = seq![trim_end(blk)] + rest;
                    assert(failure_blocks(ls, i) == fb);
                    assert forall|k: int| 0 <= k < fb.len() implies contains(#[trigger] fb[k], failure_marker()) by {
                        if k > 0 {
                            assert(fb[k] == rest[k - 1]);
                        }
                    }
                } else {
                    assert(failure_blocks(ls, i) =~= rest);
                }
            }
        } else {
            lemma_failure_blocks_marked(ls, i + 1);
            assert(failure_blocks(ls, i) == failure_blocks(ls, i + 1));
        }
    } else {
        assert(failure_blocks(ls, i).len() == 0);
    }
}

/// A test run's output has failure details exactly when it reports a
/// failing problem block, and each block in the details holds the marker
/// `This differed from the expected result`.
pub proof fn lemma_failure_details(output: Seq<char>)
    ensures
        failure_details(output) is Some <==> failure_blocks(lines(output), 0).len() > 0,
        forall|k: int|
            0 <= k < failure_blocks(lines(output), 0).len() ==> contains(
                #[trigger] failure_blocks(lines(output), 0)[k],
                failure_marker(),
            ),
{
    lemma_failure_blocks_marked(lines(output), 0);
}

/// The region of the banner line `i`: its lines up to the next banner
/// (excluded), through the first summary line, or to the end, joined by
/// newlines.
pub open spec fn region(ls: Seq<Seq<char>>, i: int) -> Seq<char> {
    join(ls.subrange(i, block_end(ls, i + 1)), "\n"@)
}

/// From line `i` on, the regions of the banner lines that hold the marker,
/// in order, each trimmed at its end.
pub open spec fn marked_regions(ls: Seq<Seq<char>>, i: int) -> Seq<Seq<char>>
    decreases ls.len() - i,
{
    if i < 0 || i >= ls.len() {
        Seq::empty()
    } else {
        (if is_banner(ls[i]) && contains(region(ls, i), failure_marker()) {
            seq![trim_end(region(ls, i))]
        } else {
            Seq::empty()
        }) + marked_regions(ls, i + 1)
    }
}

proof fn lemma_block_no_banner(ls: Seq<Seq<char>>, j: int)
    requires
        0 <= j,
    ensures
        forall|k: int| j <= k < block_end(ls, j) && k < ls.len() ==> !is_banner(#[trigger] ls[k]),
    decreases ls.len() - j,
{
    if j < ls.len() && !is_banner(ls[j]) && !is_summary(ls[j]) {
        lemma_block_no_banner(ls, j + 1);
    }
}

proof fn lemma_marked_skip(ls: Seq<Seq<char>>, k: int, e: int)
    requires
        0 <= k <= e <= ls.len(),
        forall|q: int| k <= q < e ==> !is_banner(#[trigger] ls[q]),
    ensures
        marked_regions(ls, k) == marked_regions(ls, e),
    decreases e - k,
{
    if k < e {
        lemma_marked_skip(ls, k + 1, e);
        assert(!is_banner(ls[k]));
        assert(marked_regions(ls, k) =~= marked_regions(ls, k + 1));
    }
}

proof fn lemma_failure_blocks_regions(ls: Seq<Seq<char>>, i: int)
    requires
        0 <= i,
    ensures
        failure_blocks(ls, i) == marked_regions(ls, i),
    decreases ls.len() - i,
{
    reveal_strlit("This differed from the expected result");
    if i < ls.len() {
        if is_banner(ls[i]) {
            let e = block_end(ls, i + 1);
            lemma_block_end(ls, i + 1);
            lemma_block_no_banner(ls, i + 1);
            lemma_failure_blocks_regions(ls, e);
            lemma_marked_skip(ls, i + 1, e);
            assert(failure_blocks(ls, i) =~= marked_regions(ls, i));
        } else {
            lemma_failure_blocks_regions(ls, i + 1);
            assert(marked_regions(ls, i) =~= marked_regions(ls, i + 1));
        }
    }
}

proof fn lemma_marked_nonempty(ls: Seq<Seq<char>>, i: int)
    requires
        0 <= i,
    ensures
        marked_regions(ls, i).len() > 0 <==> exists|j: int|
            i <= j < ls.len() && is_banner(#[trigger] ls[j]) && contains(region(ls, j), failure_marker()),
    decreases ls.len() - i,
{
    if i < ls.len() {
        lemma_marked_nonempty(ls, i + 1);
        if is_banner(ls[i]) && contains(region(ls, i), failure_marker()) {
            assert(is_banner(ls[i]));
        }
    }
}

/// Which regions the failure details join: every line holding both `***`
/// and `Problem` opens a region that runs up to the next such line
/// (excluded), through the first summary line, or to the end; the details
/// are the regions that hold `This differed from the expected result`, in
/// order, each trimmed at its end and joined by a blank line, and there are
/// details exactly when some region holds it.
pub proof fn lemma_failure_regions(output: Seq<char>)
    ensures
        failure_details(output) is Some <==> exists|j: int|
            0 <= j < lines(output).len() && is_banner(#[trigger] lines(output)[j]) && contains(
                region(lines(output), j),
                failure_marker(),
            ),
        failure_details(output) matches Some(d) ==> d == join(marked_regions(lines(output), 0), "\n\n"@),
{
    lemma_failure_blocks_regions(lines(output), 0);
    lemma_marked_nonempty(lines(output), 0);
}

/// The failing blocks of a test run's output, separated by blank lines.
pub open spec fn failure_details(output: Seq<char>) -> Option<Seq<char>> {
    let bs = failure_blocks(lines(output), 0);
    if bs.len() == 0 {
        None
    } else {
        Some(join(bs, "\n\n"@))
    }
}

fn is_banner_exec(l: &[char]) -> (r: bool)
    ensures
        r == is_banner(l@),
{
    contains_chars(l, chars_of("***").as_slice()) && contains_chars(
        l,
        chars_of("Problem").as_slice(),
    )
}

fn is_summary_exec(l: &[char]) -> (r: bool)
    ensures
        r == is_summary(l@),
{
    let t = trimmed(l);
    ends_with(t.as_slice(), chars_of("tests passed").as_slice()) || ends_with(
        trim_end_char_exec(t.as_slice(), '.').as_slice(),
        chars_of("correct").as_slice(),
    )
}

fn copy_lines(ls: &Vec<Vec<char>>, a: usize, b: usize) -> (r: Vec<Vec<char>>)
    requires
        a <= b <= ls@.len(),
    ensures
        views(r@) == views(ls@).subrange(a as int, b as int),
{
    let mut out: Vec<Vec<char>> = Vec::new();
    let mut k = a;
    while k < b
        invariant
            a <= k <= b <= ls@.len(),
            views(out@) == views(ls@).subrange(a as int, k as int),
        decreases b - k,
    {
        let l = slice_copy(ls[k].as_slice(), 0, ls[k].len());
        assert(l@ =~= ls@[k as int]@);
        proof {
            crate::text::lemma_views_push(out@, l);
        }
        out.push(l);
        k += 1;
        assert(views(out@) =~= views(ls@).subrange(a as int, k as int));
    }
    out
}

/// The report of every failing problem in a test run's output: each block
/// from a `*** Problem` banner to the next banner or summary line that
/// holds `This differed from the expected result`, trimmed at its end and
/// separated by blank lines; `None` when no problem failed.
pub fn extract_failure_details(output: &str) -> (r: Option<String>)
    ensures
        match r {
            Some(s) => failure_details(output@) == Some(s@),
            None => failure_details(output@) is None,
        },
{
    let c = chars_of(output);
    let ls = split_lines(c.as_slice());
    let ghost lv = views(ls@);
    let marker = chars_of("This differed from the expected result");
    let mut blocks: Vec<Vec<char>> = Vec::new();
    let mut i: usize = 0;
    while i < ls.len()
        invariant
            i <= ls@.len(),
            lv == views(ls@),
            lv == lines(output@),
            marker@ == "This differed from the expected result"@,
            failure_blocks(lv, 0) == views(blocks@) + failure_blocks(lv, i as int),
        decreases ls@.len() - i,
    {
        if is_banner_exec(ls[i].as_slice()) {
            let start = i;
            i += 1;
            let mut done = false;
            while !done && i < ls.len()
                invariant
                    start < i <= ls@.len(),
                    lv == views(ls@),
                    !done ==> block_end(lv, i as int) == block_end(lv, start + 1),
                    done ==> i == block_end(lv, start + 1),
                decreases ls@.len() - i + (if done { 0int } else { 1int }),
            {
                assert(lv[i as int] == ls@[i as int]@);
                if is_banner_exec(ls[i].as_slice()) {
                    done = true;
                } else if is_summary_exec(ls[i].as_slice()) {
                    i += 1;
                    done = true;
                } else {
                    i += 1;
                }
            }
            assert(i == block_end(lv, start + 1));
            proof {
                lemma_block_end(lv, start + 1);
            }
            let part = copy_lines(&ls, start, i);
            let blk = join_chars(&part, chars_of("\n").as_slice());
            let ghost before = views(blocks@);
            if contains_chars(blk.as_slice(), marker.as_slice()) {
                let t = trimmed_end(blk.as_slice());
                proof {
                    crate::text::lemma_views_push(blocks@, t);
                }
                blocks.push(t);
            }
            assert(failure_blocks(lv, start as int) == views(blocks@).subrange(
                before.len() as int,
                views(blocks@).len() as int,
            ) + failure_blocks(lv, i as int));
            assert(failure_blocks(lv, 0) =~= views(blocks@) + failure_blocks(lv, i as int));
        } else {
            i += 1;
        }
    }
    assert(failure_blocks(lv, i as int) =~= Seq::<Seq<char>>::empty());
    assert(views(blocks@) =~= failure_blocks(lv, 0));
    if blocks.len() == 0 {
        None
    } else {
        Some(string_of(join_chars(&blocks, chars_of("\n\n").as_slice()).as_slice()))
    }
}

/// The last `n` lines of `s` after trailing whitespace is removed, joined
/// by newlines.
pub open spec fn last_lines(s: Seq<char>, n: nat) -> Seq<char> {
    let t = trim_end(s);
    if t.len() == 0 {
        Seq::empty()
    } else {
        let ls = lines(t);
        let start = if ls.len() >= n { ls.len() - n } else { 0 };
        join(ls.subrange(start as int, ls.len() as int), "\n"@)
    }
}

/// The last `n` lines of `s`, trailing whitespace removed first.
pub fn tail_lines(s: &str, n: usize) -> (r: String)
    ensures
        r@ == last_lines(s@, n as nat),
{
    let t = trimmed_end(chars_of(s).as_slice());
    if t.len() == 0 {
        return string_of(t.as_slice());
    }
    let ls = split_lines(t.as_slice());
    let start = if ls.len() >= n { ls.len() - n } else { 0 };
    let part = copy_lines(&ls, start, ls.len());
    string_of(join_chars(&part, chars_of("\n").as_slice()).as_slice())
}

} // verus!
