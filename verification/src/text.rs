//! Character-level text model shared by every parser of the library.
//!
//! Text is handled as `Vec<char>` whose view is a `Seq<char>`; the spec
//! functions here state what `trim`, `lines`, prefix and substring tests
//! mean on those sequences.
use vstd::prelude::*;

verus! {

/// The Unicode `White_Space` property (what `char::is_whitespace` tests).
pub open spec fn is_ws(c: char) -> bool {
    let u = c as u32;
    ||| 0x09 <= u <= 0x0d
    ||| u == 0x20
    ||| u == 0x85
    ||| u == 0xa0
    ||| u == 0x1680
    ||| 0x2000 <= u <= 0x200a
    ||| u == 0x2028
    ||| u == 0x2029
    ||| u == 0x202f
    ||| u == 0x205f
    ||| u == 0x3000
}

pub fn is_whitespace(c: char) -> (r: bool)
    ensures
        r == is_ws(c),
{
    let u = c as u32;
    (0x09 <= u && u <= 0x0d) || u == 0x20 || u == 0x85 || u == 0xa0 || u == 0x1680 || (0x2000
        <= u && u <= 0x200a) || u == 0x2028 || u == 0x2029 || u == 0x202f || u == 0x205f || u
        == 0x3000
}

/// The characters of a string slice, in order.
pub fn chars_of(s: &str) -> (r: Vec<char>)
    ensures
        r@ == s@,
{
    let mut r: Vec<char> = Vec::new();
    for c in it: s.chars()
        invariant
            r@ == it.seq().take(it.index() as int),
            it.seq() == s@,
    {
        r.push(c);
    }
    r
}

/// `String::from_iter` over characters: the string of those characters.
#[verifier::external_body]
pub(crate) fn string_of(v: &[char]) -> (r: String)
    ensures
        r@ == v@,
{
    String::from_iter(v)
}

/// The characters of a `String`.
pub fn chars_of_string(s: &String) -> (r: Vec<char>)
    ensures
        r@ == s@,
{
    chars_of(s.as_str())
}

/// Appends `src` to `dst`.
pub fn push_all(dst: &mut Vec<char>, src: &[char])
    ensures
        final(dst)@ == old(dst)@ + src@,
{
    let ghost d0 = dst@;
    let mut i: usize = 0;
    while i < src.len()
        invariant
            i <= src@.len(),
            dst@ == d0 + src@.subrange(0, i as int),
        decreases src@.len() - i,
    {
        dst.push(src[i]);
        i += 1;
        assert(src@.subrange(0, i as int) == src@.subrange(0, i - 1) + seq![src@[i - 1]]);
    }
    assert(src@.subrange(0, src@.len() as int) == src@);
}

/// Copy of `s[a..b]`.
pub fn slice_copy(s: &[char], a: usize, b: usize) -> (r: Vec<char>)
    requires
        a <= b <= s@.len(),
    ensures
        r@ == s@.subrange(a as int, b as int),
{
    let mut r: Vec<char> = Vec::new();
    let mut i = a;
    while i < b
        invariant
            a <= i <= b <= s@.len(),
            r@ == s@.subrange(a as int, i as int),
        decreases b - i,
    {
        r.push(s[i]);
        i += 1;
        assert(s@.subrange(a as int, i as int) == s@.subrange(a as int, i - 1) + seq![s@[i - 1]]);
    }
    r
}

// ---------------------------------------------------------------------------
// Whitespace trimming
// ---------------------------------------------------------------------------

/// First index at or after `i` that does not hold whitespace.
pub open spec fn ws_skip(s: Seq<char>, i: int) -> int
    decreases s.len() - i,
{
    if 0 <= i < s.len() && is_ws(s[i]) {
        ws_skip(s, i + 1)
    } else {
        i
    }
}

/// Walking back from `j` (not below `lo`), the end of the text before trailing whitespace.
pub open spec fn ws_back(s: Seq<char>, lo: int, j: int) -> int
    decreases j - lo,
{
    if lo < j && j <= s.len() && is_ws(s[j - 1]) {
        ws_back(s, lo, j - 1)
    } else {
        j
    }
}

pub open spec fn trim_start(s: Seq<char>) -> Seq<char> {
    s.subrange(ws_skip(s, 0), s.len() as int)
}

pub open spec fn trim_end(s: Seq<char>) -> Seq<char> {
    s.subrange(0, ws_back(s, 0, s.len() as int))
}

/// `str::trim`: both ends stripped of Unicode whitespace.
pub open spec fn trim(s: Seq<char>) -> Seq<char> {
    let a = ws_skip(s, 0);
    s.subrange(a, ws_back(s, a, s.len() as int))
}

pub proof fn lemma_ws_skip_bounds(s: Seq<char>, i: int)
    requires
        0 <= i <= s.len(),
    ensures
        i <= ws_skip(s, i) <= s.len(),
        ws_skip(s, i) < s.len() ==> !is_ws(s[ws_skip(s, i)]),
    decreases s.len() - i,
{
    if i < s.len() && is_ws(s[i]) {
        lemma_ws_skip_bounds(s, i + 1);
    }
}

pub proof fn lemma_ws_back_bounds(s: Seq<char>, lo: int, j: int)
    requires
        0 <= lo <= j <= s.len(),
    ensures
        lo <= ws_back(s, lo, j) <= j,
        lo < ws_back(s, lo, j) ==> !is_ws(s[ws_back(s, lo, j) - 1]),
    decreases j - lo,
{
    if lo < j && is_ws(s[j - 1]) {
        lemma_ws_back_bounds(s, lo, j - 1);
    }
}

/// Start and end of the trimmed part of `s`.
pub fn trim_bounds(s: &[char]) -> (r: (usize, usize))
    ensures
        r.0 == ws_skip(s@, 0),
        r.1 == ws_back(s@, r.0 as int, s@.len() as int),
        r.0 <= r.1 <= s@.len(),
{
    let n = s.len();
    let mut a: usize = 0;
    while a < n && is_whitespace(s[a])
        invariant
            a <= n == s@.len(),
            ws_skip(s@, a as int) == ws_skip(s@, 0),
        decreases n - a,
    {
        a += 1;
    }
    let mut b: usize = n;
    while b > a && is_whitespace(s[b - 1])
        invariant
            a <= b <= n == s@.len(),
            ws_back(s@, a as int, b as int) == ws_back(s@, a as int, n as int),
        decreases b - a,
    {
        b -= 1;
    }
    (a, b)
}

pub fn trimmed(s: &[char]) -> (r: Vec<char>)
    ensures
        r@ == trim(s@),
{
    let (a, b) = trim_bounds(s);
    slice_copy(s, a, b)
}

pub fn trimmed_start(s: &[char]) -> (r: Vec<char>)
    ensures
        r@ == trim_start(s@),
{
    let n = s.len();
    let mut a: usize = 0;
    while a < n && is_whitespace(s[a])
        invariant
            a <= n == s@.len(),
            ws_skip(s@, a as int) == ws_skip(s@, 0),
        decreases n - a,
    {
        a += 1;
    }
    slice_copy(s, a, n)
}

pub fn trimmed_end(s: &[char]) -> (r: Vec<char>)
    ensures
        r@ == trim_end(s@),
{
    let n = s.len();
    let mut b: usize = n;
    while b > 0 && is_whitespace(s[b - 1])
        invariant
            b <= n == s@.len(),
            ws_back(s@, 0, b as int) == ws_back(s@, 0, n as int),
        decreases b,
    {
        b -= 1;
    }
    slice_copy(s, 0, b)
}

// ---------------------------------------------------------------------------
// Prefix, suffix and substring tests
// ---------------------------------------------------------------------------

pub open spec fn has_prefix(s: Seq<char>, p: Seq<char>) -> bool {
    p.len() <= s.len() && s.subrange(0, p.len() as int) == p
}

pub open spec fn has_suffix(s: Seq<char>, p: Seq<char>) -> bool {
    p.len() <= s.len() && s.subrange(s.len() - p.len(), s.len() as int) == p
}

/// `p` occurs in `s` starting at index `i`.
pub open spec fn occurs_at(s: Seq<char>, p: Seq<char>, i: int) -> bool {
    0 <= i && i + p.len() <= s.len() && s.subrange(i, i + p.len()) == p
}

pub open spec fn contains(s: Seq<char>, p: Seq<char>) -> bool {
    exists|i: int| occurs_at(s, p, i)
}

/// First occurrence of `p` in `s` at or after `i`, or -1.
pub open spec fn find_from(s: Seq<char>, p: Seq<char>, i: int) -> int
    decreases s.len() + 1 - i,
{
    if i < 0 || i + p.len() > s.len() {
        -1
    } else if occurs_at(s, p, i) {
        i
    } else {
        find_from(s, p, i + 1)
    }
}

pub open spec fn find(s: Seq<char>, p: Seq<char>) -> int {
    find_from(s, p, 0)
}

pub proof fn lemma_find_from(s: Seq<char>, p: Seq<char>, i: int)
    requires
        0 <= i,
    ensures
        find_from(s, p, i) == -1 <==> (forall|j: int| i <= j ==> !occurs_at(s, p, j)),
        find_from(s, p, i) != -1 ==> {
            &&& i <= find_from(s, p, i)
            &&& occurs_at(s, p, find_from(s, p, i))
            &&& forall|j: int| i <= j < find_from(s, p, i) ==> !occurs_at(s, p, j)
        },
    decreases s.len() + 1 - i,
{
    if i + p.len() > s.len() {
    } else if occurs_at(s, p, i) {
    } else {
        lemma_find_from(s, p, i + 1);
    }
}

pub proof fn lemma_contains_find(s: Seq<char>, p: Seq<char>)
    ensures
        contains(s, p) <==> find(s, p) != -1,
        find(s, p) != -1 ==> occurs_at(s, p, find(s, p)),
{
    lemma_find_from(s, p, 0);
    if contains(s, p) {
        let j = choose|j: int| occurs_at(s, p, j);
        assert(0 <= j);
    }
}

/// Whether `p` occurs in `s` at index `i`.
pub fn matches_at(s: &[char], p: &[char], i: usize) -> (r: bool)
    ensures
        r == occurs_at(s@, p@, i as int),
{
    if p.len() > s.len() || i > s.len() - p.len() {
        return false;
    }
    let n = s.len();
    let mut k: usize = 0;
    while k < p.len()
        invariant
            k <= p@.len(),
            n == s@.len(),
            i + p@.len() <= n,
            forall|t: int| 0 <= t < k ==> s@[i + t] == p@[t],
        decreases p@.len() - k,
    {
        if s[i + k] != p[k] {
            assert(s@.subrange(i as int, i + p@.len())[k as int] != p@[k as int]);
            return false;
        }
        k += 1;
    }
    assert(s@.subrange(i as int, i + p@.len()) =~= p@);
    true
}

pub fn starts_with(s: &[char], p: &[char]) -> (r: bool)
    ensures
        r == has_prefix(s@, p@),
{
    matches_at(s, p, 0)
}

pub fn ends_with(s: &[char], p: &[char]) -> (r: bool)
    ensures
        r == has_suffix(s@, p@),
{
    if p.len() > s.len() {
        false
    } else {
        matches_at(s, p, s.len() - p.len())
    }
}

/// First occurrence of `p` in `s` at or after `from`.
pub fn find_chars_from(s: &[char], p: &[char], from: usize) -> (r: Option<usize>)
    ensures
        match r {
            Some(i) => find_from(s@, p@, from as int) == i,
            None => find_from(s@, p@, from as int) == -1,
        },
{
    if p.len() > s.len() || from > s.len() - p.len() {
        return None;
    }
    let last = s.len() - p.len();
    let mut i = from;
    loop
        invariant
            p@.len() <= s@.len(),
            last == s@.len() - p@.len(),
            from <= i <= last,
            find_from(s@, p@, i as int) == find_from(s@, p@, from as int),
        decreases last - i,
    {
        if matches_at(s, p, i) {
            return Some(i);
        }
        if i == last {
            assert(find_from(s@, p@, i + 1) == -1);
            return None;
        }
        i += 1;
    }
}

pub fn find_chars(s: &[char], p: &[char]) -> (r: Option<usize>)
    ensures
        match r {
            Some(i) => find(s@, p@) == i,
            None => find(s@, p@) == -1,
        },
{
    find_chars_from(s, p, 0)
}

pub fn contains_chars(s: &[char], p: &[char]) -> (r: bool)
    ensures
        r == contains(s@, p@),
{
    proof {
        lemma_contains_find(s@, p@);
    }
    find_chars(s, p).is_some()
}

// ---------------------------------------------------------------------------
// Lines
// ---------------------------------------------------------------------------

/// First index at or after `i` holding `c`, or `s.len()`.
pub open spec fn next_char(s: Seq<char>, c: char, i: int) -> int
    decreases s.len() - i,
{
    if i < 0 || i >= s.len() {
        s.len() as int
    } else if s[i] == c {
        i
    } else {
        next_char(s, c, i + 1)
    }
}

pub proof fn lemma_next_char(s: Seq<char>, c: char, i: int)
    requires
        0 <= i <= s.len(),
    ensures
        i <= next_char(s, c, i) <= s.len(),
        next_char(s, c, i) < s.len() ==> s[next_char(s, c, i)] == c,
        forall|j: int| i <= j < next_char(s, c, i) ==> s[j] != c,
    decreases s.len() - i,
{
    if i < s.len() && s[i] != c {
        lemma_next_char(s, c, i + 1);
    }
}

/// A line terminated by `\n` loses one trailing `\r`.
pub open spec fn strip_cr(l: Seq<char>) -> Seq<char> {
    if l.len() > 0 && l[l.len() - 1] == '\r' {
        l.subrange(0, l.len() - 1)
    } else {
        l
    }
}

/// `str::lines` on the text from index `i` on.
pub open spec fn lines_from(s: Seq<char>, i: int) -> Seq<Seq<char>>
    decreases s.len() - i,
{
    if i < 0 || i >= s.len() {
        Seq::empty()
    } else {
        let j = next_char(s, '\n', i);
        if j < s.len() && j >= i {
            seq![strip_cr(s.subrange(i, j))] + lines_from(s, j + 1)
        } else {
            seq![s.subrange(i, s.len() as int)]
        }
    }
}

/// `str::lines`: split at `\n`, drop a `\r` before it, no empty last line.
pub open spec fn lines(s: Seq<char>) -> Seq<Seq<char>> {
    lines_from(s, 0)
}

pub fn strip_cr_exec(l: Vec<char>) -> (r: Vec<char>)
    ensures
        r@ == strip_cr(l@),
{
    let mut l = l;
    if l.len() > 0 && l[l.len() - 1] == '\r' {
        l.pop();
    }
    l
}

/// No character of `s` is a newline.
pub open spec fn no_newline(s: Seq<char>) -> bool {
    forall|k: int| 0 <= k < s.len() ==> #[trigger] s[k] != '\n'
}

/// A line that reads back as itself: no newline in it, no `\r` at its end.
pub open spec fn plain_line(l: Seq<char>) -> bool {
    no_newline(l) && !(l.len() > 0 && l.last() == '\r')
}

/// The lines `ls`, each followed by a newline.
pub open spec fn terminated(ls: Seq<Seq<char>>) -> Seq<char>
    decreases ls.len(),
{
    if ls.len() == 0 {
        Seq::empty()
    } else {
        terminated(ls.drop_last()) + ls.last() + "\n"@
    }
}

pub proof fn lemma_terminated_append(a: Seq<Seq<char>>, b: Seq<Seq<char>>)
    ensures
        terminated(a + b) == terminated(a) + terminated(b),
    decreases b.len(),
{
    if b.len() == 0 {
        assert(a + b =~= a);
        assert(terminated(a) + terminated(b) =~= terminated(a));
    } else {
        lemma_terminated_append(a, b.drop_last());
        assert((a + b).drop_last() =~= a + b.drop_last());
        assert((a + b).last() == b.last());
        assert(terminated(a + b) =~= terminated(a) + terminated(b));
    }
}

pub proof fn lemma_no_newline_concat(a: Seq<char>, b: Seq<char>)
    requires
        no_newline(a),
        no_newline(b),
    ensures
        no_newline(a + b),
{
    assert forall|k: int| 0 <= k < (a + b).len() implies #[trigger] (a + b)[k] != '\n' by {
        if k < a.len() {
            assert((a + b)[k] == a[k]);
        } else {
            assert((a + b)[k] == b[k - a.len()]);
        }
    }
}

/// Text made of plain lines, each followed by a newline, splits back into
/// exactly those lines.
pub proof fn lemma_lines_terminated(ls: Seq<Seq<char>>)
    requires
        forall|k: int| 0 <= k < ls.len() ==> plain_line(#[trigger] ls[k]),
    ensures
        lines(terminated(ls)) == ls,
    decreases ls.len(),
{
    reveal_strlit("\n");
    if ls.len() > 0 {
        let l = ls[0];
        let rest = ls.drop_first();
        assert(ls =~= seq![l] + rest);
        lemma_terminated_append(seq![l], rest);
        assert(seq![l].drop_last() =~= Seq::<Seq<char>>::empty());
        assert(seq![l].last() == l);
        assert(terminated(Seq::<Seq<char>>::empty()) == Seq::<char>::empty());
        assert(terminated(seq![l]) == terminated(Seq::<Seq<char>>::empty()) + l + "\n"@);
        assert(terminated(seq![l]) =~= l + "\n"@);
        assert forall|k: int| 0 <= k < rest.len() implies plain_line(#[trigger] rest[k]) by {
            assert(rest[k] == ls[k + 1]);
        }
        lemma_lines_terminated(rest);
        let p = l + "\n"@;
        let t = terminated(rest);
        let s = p + t;
        assert(plain_line(ls[0]));
        lemma_next_char(s, '\n', 0);
        let j = next_char(s, '\n', 0);
        assert(s[l.len() as int] == '\n');
        if j < l.len() {
            assert(s[j] == l[j]);
        }
        assert(j == l.len());
        assert(s.subrange(0, j) =~= l);
        crate::test_output::lemma_lines_shift(p, t, 0);
        assert(lines(s) =~= seq![l] + lines(t));
    } else {
        assert(lines(terminated(ls)) =~= ls);
    }
}

/// The views of a sequence of character vectors.
pub open spec fn views(v: Seq<Vec<char>>) -> Seq<Seq<char>> {
    Seq::new(v.len(), |i: int| v[i]@)
}

pub proof fn lemma_views_push(v: Seq<Vec<char>>, x: Vec<char>)
    ensures
        views(v.push(x)) == views(v).push(x@),
{
    assert(views(v.push(x)) =~= views(v).push(x@));
}

pub fn split_lines(s: &[char]) -> (r: Vec<Vec<char>>)
    ensures
        views(r@) == lines(s@),
{
    let mut out: Vec<Vec<char>> = Vec::new();
    let n = s.len();
    let mut i: usize = 0;
    while i < n
        invariant
            i <= n == s@.len(),
            lines(s@) == views(out@) + lines_from(s@, i as int),
        decreases n - i,
    {
        let ghost gi = i;
        let mut j = i;
        while j < n && s[j] != '\n'
            invariant
                i <= j <= n == s@.len(),
                next_char(s@, '\n', j as int) == next_char(s@, '\n', i as int),
            decreases n - j,
        {
            j += 1;
        }
        proof {
            lemma_next_char(s@, '\n', i as int);
        }
        let piece = slice_copy(s, i, j);
        let ghost before = views(out@);
        let ghost old_out = out@;
        if j < n {
            let l = strip_cr_exec(piece);
            let ghost lv = l;
            out.push(l);
            proof {
                lemma_views_push(old_out, lv);
                assert(lines_from(s@, gi as int) == seq![strip_cr(s@.subrange(gi as int, j as int))]
                    + lines_from(s@, j + 1));
                assert(before + lines_from(s@, gi as int) =~= views(out@) + lines_from(
                    s@,
                    j + 1,
                ));
            }
            i = j + 1;
        } else {
            let ghost pv = piece;
            out.push(piece);
            proof {
                lemma_views_push(old_out, pv);
                assert(lines_from(s@, n as int) =~= Seq::<Seq<char>>::empty());
                assert(before + lines_from(s@, gi as int) =~= views(out@) + lines_from(
                    s@,
                    n as int,
                ));
            }
            i = n;
        }
    }
    assert(lines_from(s@, i as int) =~= Seq::<Seq<char>>::empty());
    assert(views(out@) + Seq::<Seq<char>>::empty() =~= views(out@));
    out
}

} // verus!

verus! {

// ---------------------------------------------------------------------------
// Scanners
// ---------------------------------------------------------------------------

/// End of the run of non-whitespace characters starting at `i`.
pub open spec fn tok_end(s: Seq<char>, i: int) -> int
    decreases s.len() - i,
{
    if 0 <= i < s.len() && !is_ws(s[i]) {
        tok_end(s, i + 1)
    } else {
        i
    }
}

pub proof fn lemma_tok_end(s: Seq<char>, i: int)
    requires
        0 <= i <= s.len(),
    ensures
        i <= tok_end(s, i) <= s.len(),
        forall|j: int| i <= j < tok_end(s, i) ==> !is_ws(s[j]),
        tok_end(s, i) < s.len() ==> is_ws(s[tok_end(s, i)]),
    decreases s.len() - i,
{
    if i < s.len() && !is_ws(s[i]) {
        lemma_tok_end(s, i + 1);
    }
}

/// Last index `k` with `lo <= k < j` and `s[k] == c`, or -1.
pub open spec fn rfind_char(s: Seq<char>, c: char, lo: int, j: int) -> int
    decreases j - lo,
{
    if j <= lo || j > s.len() {
        -1
    } else if s[j - 1] == c {
        j - 1
    } else {
        rfind_char(s, c, lo, j - 1)
    }
}

pub proof fn lemma_rfind_char(s: Seq<char>, c: char, lo: int, j: int)
    requires
        0 <= lo,
        j <= s.len(),
    ensures
        rfind_char(s, c, lo, j) != -1 ==> lo <= rfind_char(s, c, lo, j) < j && s[rfind_char(
            s,
            c,
            lo,
            j,
        )] == c,
    decreases j - lo,
{
    if j > lo && s[j - 1] != c {
        lemma_rfind_char(s, c, lo, j - 1);
    }
}

pub fn skip_ws(s: &[char], i: usize) -> (r: usize)
    requires
        i <= s@.len(),
    ensures
        r == ws_skip(s@, i as int),
        i <= r <= s@.len(),
{
    proof {
        lemma_ws_skip_bounds(s@, i as int);
    }
    let n = s.len();
    let mut k = i;
    while k < n && is_whitespace(s[k])
        invariant
            i <= k <= n == s@.len(),
            ws_skip(s@, k as int) == ws_skip(s@, i as int),
        decreases n - k,
    {
        k += 1;
    }
    k
}

pub fn token_end(s: &[char], i: usize) -> (r: usize)
    requires
        i <= s@.len(),
    ensures
        r == tok_end(s@, i as int),
        i <= r <= s@.len(),
{
    proof {
        lemma_tok_end(s@, i as int);
    }
    let n = s.len();
    let mut k = i;
    while k < n && !is_whitespace(s[k])
        invariant
            i <= k <= n == s@.len(),
            tok_end(s@, k as int) == tok_end(s@, i as int),
        decreases n - k,
    {
        k += 1;
    }
    k
}

pub fn back_ws(s: &[char], lo: usize, j: usize) -> (r: usize)
    requires
        lo <= j <= s@.len(),
    ensures
        r == ws_back(s@, lo as int, j as int),
        lo <= r <= j,
{
    proof {
        lemma_ws_back_bounds(s@, lo as int, j as int);
    }
    let mut k = j;
    while k > lo && is_whitespace(s[k - 1])
        invariant
            lo <= k <= j <= s@.len(),
            ws_back(s@, lo as int, k as int) == ws_back(s@, lo as int, j as int),
        decreases k - lo,
    {
        k -= 1;
    }
    k
}

pub fn rfind_char_exec(s: &[char], c: char, lo: usize, j: usize) -> (r: Option<usize>)
    requires
        j <= s@.len(),
    ensures
        match r {
            Some(k) => rfind_char(s@, c, lo as int, j as int) == k,
            None => rfind_char(s@, c, lo as int, j as int) == -1,
        },
{
    let mut k = j;
    while k > lo
        invariant
            k <= j <= s@.len(),
            rfind_char(s@, c, lo as int, k as int) == rfind_char(s@, c, lo as int, j as int),
        decreases k,
    {
        if s[k - 1] == c {
            return Some(k - 1);
        }
        k -= 1;
    }
    None
}

/// `s` followed by `c`.
pub fn push_char(v: &mut Vec<char>, c: char)
    ensures
        final(v)@ == old(v)@.push(c),
{
    v.push(c);
}

// ---------------------------------------------------------------------------
// Joining
// ---------------------------------------------------------------------------

/// The pieces of `ps` joined with `sep` between consecutive pieces.
pub open spec fn join(ps: Seq<Seq<char>>, sep: Seq<char>) -> Seq<char>
    decreases ps.len(),
{
    if ps.len() == 0 {
        Seq::empty()
    } else if ps.len() == 1 {
        ps[0]
    } else {
        join(ps.drop_last(), sep) + sep + ps.last()
    }
}

pub fn join_chars(ps: &Vec<Vec<char>>, sep: &[char]) -> (r: Vec<char>)
    ensures
        r@ == join(views(ps@), sep@),
{
    let mut out: Vec<char> = Vec::new();
    let mut i: usize = 0;
    while i < ps.len()
        invariant
            i <= ps@.len(),
            out@ == join(views(ps@).subrange(0, i as int), sep@),
        decreases ps@.len() - i,
    {
        let ghost before = out@;
        if i > 0 {
            push_all(&mut out, sep);
        }
        push_all(&mut out, ps[i].as_slice());
        i += 1;
        proof {
            let vs = views(ps@).subrange(0, i as int);
            assert(vs.drop_last() =~= views(ps@).subrange(0, i - 1));
            if i == 1 {
                assert(out@ =~= join(vs, sep@));
            }
        }
    }
    assert(views(ps@).subrange(0, ps@.len() as int) =~= views(ps@));
    out
}

} // verus!

verus! {

// ---------------------------------------------------------------------------
// Ordering (the order of `str`: by code point, then by length)
// ---------------------------------------------------------------------------

/// `a` sorts strictly before `b`.
pub open spec fn seq_lt(a: Seq<char>, b: Seq<char>) -> bool
    decreases a.len(),
{
    if a.len() == 0 {
        b.len() > 0
    } else if b.len() == 0 {
        false
    } else if a[0] != b[0] {
        a[0] < b[0]
    } else {
        seq_lt(a.drop_first(), b.drop_first())
    }
}

/// `a` comes before `b`: they agree up to some position where `a` ends
/// and `b` goes on, or where `a` has the smaller character.
pub proof fn lemma_seq_lt_witness(a: Seq<char>, b: Seq<char>)
    requires
        seq_lt(a, b),
    ensures
        exists|k: int|
            0 <= k <= a.len() && k <= b.len() && a.take(k) == b.take(k) && (k == a.len() || (k < b.len()
                && a[k] < b[k])),
    decreases a.len(),
{
    if a.len() == 0 {
        assert(a.take(0) =~= b.take(0));
    } else if a[0] != b[0] {
        assert(a.take(0) =~= b.take(0));
    } else {
        lemma_seq_lt_witness(a.drop_first(), b.drop_first());
        let k = choose|k: int|
            0 <= k <= a.drop_first().len() && k <= b.drop_first().len() && a.drop_first().take(k)
                == b.drop_first().take(k) && (k == a.drop_first().len() || (k < b.drop_first().len()
                && a.drop_first()[k] < b.drop_first()[k]));
        assert(a.take(k + 1) =~= seq![a[0]] + a.drop_first().take(k));
        assert(b.take(k + 1) =~= seq![b[0]] + b.drop_first().take(k));
        if k < a.drop_first().len() {
            assert(a[k + 1] == a.drop_first()[k]);
            assert(b[k + 1] == b.drop_first()[k]);
        }
    }
}

pub proof fn lemma_seq_lt_irrefl(a: Seq<char>)
    ensures
        !seq_lt(a, a),
    decreases a.len(),
{
    if a.len() > 0 {
        lemma_seq_lt_irrefl(a.drop_first());
    }
}

pub proof fn lemma_seq_lt_total(a: Seq<char>, b: Seq<char>)
    ensures
        a != b ==> (seq_lt(a, b) || seq_lt(b, a)),
        !(seq_lt(a, b) && seq_lt(b, a)),
    decreases a.len(),
{
    if a.len() > 0 && b.len() > 0 {
        lemma_seq_lt_total(a.drop_first(), b.drop_first());
        if a[0] == b[0] && a.drop_first() == b.drop_first() {
            assert(a =~= seq![a[0]] + a.drop_first());
            assert(b =~= seq![b[0]] + b.drop_first());
        }
    } else if a.len() == 0 && b.len() == 0 {
        assert(a =~= b);
    }
}

pub proof fn lemma_seq_lt_trans(a: Seq<char>, b: Seq<char>, c: Seq<char>)
    requires
        seq_lt(a, b),
        seq_lt(b, c),
    ensures
        seq_lt(a, c),
    decreases a.len(),
{
    if a.len() > 0 && b.len() > 0 && c.len() > 0 {
        if a[0] == b[0] && b[0] == c[0] {
            lemma_seq_lt_trans(a.drop_first(), b.drop_first(), c.drop_first());
        }
    }
}

/// Whether `a` sorts strictly before `b`.
pub fn lt_chars(a: &[char], b: &[char]) -> (r: bool)
    ensures
        r == seq_lt(a@, b@),
{
    let mut i: usize = 0;
    assert(a@.subrange(0, a@.len() as int) =~= a@);
    assert(b@.subrange(0, b@.len() as int) =~= b@);
    while i < a.len() && i < b.len() && a[i] == b[i]
        invariant
            i <= a@.len(),
            i <= b@.len(),
            seq_lt(a@.subrange(i as int, a@.len() as int), b@.subrange(i as int, b@.len() as int))
                == seq_lt(a@, b@),
        decreases a@.len() - i,
    {
        let ghost x = a@.subrange(i as int, a@.len() as int);
        let ghost y = b@.subrange(i as int, b@.len() as int);
        assert(x.drop_first() =~= a@.subrange(i + 1, a@.len() as int));
        assert(y.drop_first() =~= b@.subrange(i + 1, b@.len() as int));
        i += 1;
    }
    let ghost x = a@.subrange(i as int, a@.len() as int);
    let ghost y = b@.subrange(i as int, b@.len() as int);
    if i == a.len() {
        i < b.len()
    } else if i == b.len() {
        false
    } else {
        assert(x[0] == a@[i as int] && y[0] == b@[i as int]);
        a[i] < b[i]
    }
}

pub fn eq_chars(a: &[char], b: &[char]) -> (r: bool)
    ensures
        r == (a@ == b@),
{
    if a.len() != b.len() {
        return false;
    }
    let mut i: usize = 0;
    while i < a.len()
        invariant
            i <= a@.len() == b@.len(),
            forall|k: int| 0 <= k < i ==> a@[k] == b@[k],
        decreases a@.len() - i,
    {
        if a[i] != b[i] {
            return false;
        }
        i += 1;
    }
    assert(a@ =~= b@);
    true
}


// ---------------------------------------------------------------------------
// Strings
// ---------------------------------------------------------------------------

/// The views of a sequence of strings.
pub open spec fn strs(v: Seq<String>) -> Seq<Seq<char>> {
    Seq::new(v.len(), |i: int| v[i]@)
}

pub proof fn lemma_strs_push(v: Seq<String>, x: String)
    ensures
        strs(v.push(x)) == strs(v).push(x@),
{
    assert(strs(v.push(x)) =~= strs(v).push(x@));
}

/// Appends the characters of `s` to `v`.
pub fn push_str(v: &mut Vec<char>, s: &str)
    ensures
        final(v)@ == old(v)@ + s@,
{
    let c = chars_of(s);
    push_all(v, c.as_slice());
}

/// The strings of `ps` joined with `sep`.
pub fn join_strings(ps: &Vec<String>, sep: &str) -> (r: Vec<char>)
    ensures
        r@ == join(strs(ps@), sep@),
{
    let mut parts: Vec<Vec<char>> = Vec::new();
    let mut i: usize = 0;
    while i < ps.len()
        invariant
            i <= ps@.len(),
            views(parts@) == strs(ps@).subrange(0, i as int),
        decreases ps@.len() - i,
    {
        let c = chars_of_string(&ps[i]);
        proof {
            lemma_views_push(parts@, c);
        }
        parts.push(c);
        i += 1;
        assert(views(parts@) =~= strs(ps@).subrange(0, i as int));
    }
    assert(strs(ps@).subrange(0, ps@.len() as int) =~= strs(ps@));
    let sp = chars_of(sep);
    join_chars(&parts, sp.as_slice())
}

// ---------------------------------------------------------------------------
// Unicode case and character classes
// ---------------------------------------------------------------------------

/// The Unicode lowercase mapping of a string, as `str::to_lowercase` computes it.
pub uninterp spec fn lowercase(s: Seq<char>) -> Seq<char>;

/// Every character is ASCII.
pub open spec fn is_ascii_text(s: Seq<char>) -> bool {
    forall|i: int| 0 <= i < s.len() ==> (#[trigger] s[i] as u32) < 128
}

/// `A`..`Z` turned into `a`..`z`, every other character kept.
pub open spec fn ascii_lowercase(s: Seq<char>) -> Seq<char> {
    Seq::new(
        s.len(),
        |i: int|
            if 'A' <= s[i] <= 'Z' {
                ((s[i] as u32) + 32) as char
            } else {
                s[i]
            },
    )
}

/// `a`..`z` turned into `A`..`Z`, every other character kept.
pub open spec fn ascii_uppercase(s: Seq<char>) -> Seq<char> {
    Seq::new(
        s.len(),
        |i: int|
            if 'a' <= s[i] <= 'z' {
                ((s[i] as u32) - 32) as char
            } else {
                s[i]
            },
    )
}

/// ASCII case changes keep text ASCII, and lowercasing forgets which of
/// the two it was given: lowercasing lowercased or uppercased text gives
/// the text lowercased.
pub proof fn lemma_ascii_case(s: Seq<char>)
    ensures
        is_ascii_text(s) ==> is_ascii_text(ascii_lowercase(s)) && is_ascii_text(ascii_uppercase(s)),
        ascii_lowercase(ascii_lowercase(s)) == ascii_lowercase(s),
        ascii_lowercase(ascii_uppercase(s)) == ascii_lowercase(s),
{
    let l = ascii_lowercase(s);
    let u = ascii_uppercase(s);
    assert(ascii_lowercase(l) =~= l);
    assert(ascii_lowercase(u) =~= l);
}

/// A prefix stays a prefix when both are lowercased.
pub proof fn lemma_ascii_lowercase_prefix(s: Seq<char>, p: Seq<char>)
    requires
        has_prefix(s, p),
    ensures
        has_prefix(ascii_lowercase(s), ascii_lowercase(p)),
{
    let l = ascii_lowercase(s);
    assert(l.subrange(0, p.len() as int) =~= ascii_lowercase(p)) by {
        assert forall|i: int| 0 <= i < p.len() implies l.subrange(0, p.len() as int)[i]
            == ascii_lowercase(p)[i] by {
            assert(s.subrange(0, p.len() as int)[i] == p[i]);
        }
    }
}

/// `str::to_lowercase`. Its result is the Unicode lowercase mapping of `s`,
/// which depends on `s` alone; the mapping itself is not restated here,
/// except that on ASCII text it lowercases as `to_ascii_lowercase` does
/// (std points from `to_ascii_lowercase` to `to_lowercase` for lowercasing
/// the non-ASCII characters "in addition").
#[verifier::external_body]
pub(crate) fn to_lowercase(s: &str) -> (r: String)
    ensures
        r@ == lowercase(s@),
        is_ascii_text(s@) ==> r@ == ascii_lowercase(s@),
{
    s.to_lowercase()
}

/// The Unicode uppercase mapping of a string, as `str::to_uppercase` computes it.
pub uninterp spec fn uppercase(s: Seq<char>) -> Seq<char>;

/// `str::to_uppercase`. Its result is the Unicode uppercase mapping of `s`,
/// which depends on `s` alone; the mapping itself is not restated here.
#[verifier::external_body]
pub(crate) fn to_uppercase(s: &str) -> (r: String)
    ensures
        r@ == uppercase(s@),
{
    s.to_uppercase()
}

/// Whether `c` has the Unicode `Alphabetic` or a `Numeric` property,
/// as `char::is_alphanumeric` tests.
pub uninterp spec fn alphanumeric(c: char) -> bool;

/// `char::is_alphanumeric`. Its result depends on `c` alone; the Unicode
/// tables behind it are not restated here.
#[verifier::external_body]
pub(crate) fn is_alphanumeric(c: char) -> (r: bool)
    ensures
        r == alphanumeric(c),
{
    c.is_alphanumeric()
}

// ---------------------------------------------------------------------------
// UTF-8 lengths
// ---------------------------------------------------------------------------

/// Bytes of `c` in UTF-8.
pub open spec fn utf8_width(c: char) -> nat {
    let u = c as u32;
    if u < 0x80 {
        1
    } else if u < 0x800 {
        2
    } else if u < 0x10000 {
        3
    } else {
        4
    }
}

/// Bytes of `s` in UTF-8 (`str::len`).
pub open spec fn utf8_len(s: Seq<char>) -> nat
    decreases s.len(),
{
    if s.len() == 0 {
        0
    } else {
        utf8_len(s.drop_last()) + utf8_width(s.last())
    }
}

pub fn utf8_width_exec(c: char) -> (r: usize)
    ensures
        r == utf8_width(c),
{
    let u = c as u32;
    if u < 0x80 {
        1
    } else if u < 0x800 {
        2
    } else if u < 0x10000 {
        3
    } else {
        4
    }
}

pub proof fn lemma_utf8_len_take(s: Seq<char>, k: int)
    requires
        0 <= k < s.len(),
    ensures
        utf8_len(s.take(k + 1)) == utf8_len(s.take(k)) + utf8_width(s[k]),
{
    assert(s.take(k + 1).drop_last() =~= s.take(k));
}

pub proof fn lemma_utf8_len_bound(s: Seq<char>)
    ensures
        utf8_len(s) <= 4 * s.len(),
    decreases s.len(),
{
    if s.len() > 0 {
        lemma_utf8_len_bound(s.drop_last());
    }
}

/// Bytes of `s` in UTF-8.
pub fn utf8_len_exec(s: &[char]) -> (r: u128)
    ensures
        r == utf8_len(s@),
{
    let mut total: u128 = 0;
    let mut i: usize = 0;
    while i < s.len()
        invariant
            i <= s@.len(),
            total == utf8_len(s@.take(i as int)),
        decreases s@.len() - i,
    {
        proof {
            lemma_utf8_len_take(s@, i as int);
            lemma_utf8_len_bound(s@.take(i as int));
        }
        let w = utf8_width_exec(s[i]);
        total = total + (w as u128);
        i += 1;
    }
    assert(s@.take(s@.len() as int) =~= s@);
    total
}

// ---------------------------------------------------------------------------
// Splitting at a character
// ---------------------------------------------------------------------------

/// `str::split` at `c` on the text from index `i` on: every piece, the
/// empty ones and the last one included.
pub open spec fn pieces_from(s: Seq<char>, c: char, i: int) -> Seq<Seq<char>>
    decreases s.len() + 1 - i,
{
    if i < 0 || i > s.len() {
        Seq::empty()
    } else {
        let j = next_char(s, c, i);
        if i <= j < s.len() {
            seq![s.subrange(i, j)] + pieces_from(s, c, j + 1)
        } else {
            seq![s.subrange(i, s.len() as int)]
        }
    }
}

/// `str::split` at `c`.
pub open spec fn pieces(s: Seq<char>, c: char) -> Seq<Seq<char>> {
    pieces_from(s, c, 0)
}

/// The pieces of `s` between occurrences of `c`.
pub fn split_at_char(s: &[char], c: char) -> (r: Vec<Vec<char>>)
    ensures
        views(r@) == pieces(s@, c),
{
    let mut out: Vec<Vec<char>> = Vec::new();
    let n = s.len();
    let mut i: usize = 0;
    loop
        invariant
            i <= n == s@.len(),
            pieces(s@, c) == views(out@) + pieces_from(s@, c, i as int),
        decreases n - i,
    {
        let mut j = i;
        while j < n && s[j] != c
            invariant
                i <= j <= n == s@.len(),
                next_char(s@, c, j as int) == next_char(s@, c, i as int),
            decreases n - j,
        {
            j += 1;
        }
        proof {
            lemma_next_char(s@, c, i as int);
        }
        let piece = slice_copy(s, i, j);
        let ghost before = views(out@);
        proof {
            lemma_views_push(out@, piece);
        }
        out.push(piece);
        if j < n {
            assert(before + pieces_from(s@, c, i as int) =~= views(out@) + pieces_from(
                s@,
                c,
                j + 1,
            ));
            i = j + 1;
        } else {
            assert(before + pieces_from(s@, c, i as int) =~= views(out@));
            return out;
        }
    }
}

// ---------------------------------------------------------------------------
// Sorted keys
// ---------------------------------------------------------------------------

/// Keys in non-decreasing order.
pub open spec fn keys_sorted(ks: Seq<Seq<char>>) -> bool {
    forall|i: int, j: int| 0 <= i < j < ks.len() ==> !seq_lt(#[trigger] ks[j], #[trigger] ks[i])
}

/// Inserting a key before the first key greater than it keeps the keys sorted.
pub proof fn lemma_insert_keeps_sorted(ks: Seq<Seq<char>>, k: Seq<char>, p: int)
    requires
        keys_sorted(ks),
        0 <= p <= ks.len(),
        forall|q: int| 0 <= q < p ==> !seq_lt(k, #[trigger] ks[q]),
        p < ks.len() ==> seq_lt(k, ks[p]),
    ensures
        keys_sorted(ks.take(p) + seq![k] + ks.skip(p)),
{
    let r = ks.take(p) + seq![k] + ks.skip(p);
    assert forall|i: int, j: int| 0 <= i < j < r.len() implies !seq_lt(#[trigger] r[j], #[trigger] r[i]) by {
        if j < p {
            assert(r[i] == ks[i] && r[j] == ks[j]);
        } else if j == p {
            assert(r[j] == k);
            assert(r[i] == ks[i]);
        } else if i < p {
            assert(r[i] == ks[i] && r[j] == ks[j - 1]);
        } else if i == p {
            assert(r[i] == k && r[j] == ks[j - 1]);
            lemma_seq_lt_total(ks[p], k);
            if seq_lt(ks[j - 1], k) {
                if j - 1 > p {
                    lemma_seq_lt_trans(ks[j - 1], k, ks[p]);
                }
            }
        } else {
            assert(r[i] == ks[i - 1] && r[j] == ks[j - 1]);
        }
    }
}

} // verus!
