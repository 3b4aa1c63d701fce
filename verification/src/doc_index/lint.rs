//! Lint checks for a parsed documentation index.
use vstd::prelude::*;
use crate::text::{
    chars_of, chars_of_string, contains, contains_chars, eq_chars, has_prefix, push_all,
    slice_copy, starts_with, string_of, trim, trimmed,
};
use super::{strs, DocIndex, SymbolV};
use super::symbols::SymbolMap;
use crate::text::{lemma_utf8_len_take, utf8_len, utf8_len_exec, utf8_width, utf8_width_exec};

verus! {

/// Severity of a lint warning.
#[derive(PartialEq, Eq, Structural, Clone, Copy, Debug)]
pub enum LintLevel {
    Warn,
    Info,
}

/// A lint warning about the documentation of a symbol.
#[derive(Debug)]
pub struct LintWarning {
    /// The symbol name, or `None` for document-level warnings.
    pub symbol: Option<String>,
    pub level: LintLevel,
    pub message: String,
}

pub struct WarnV {
    pub symbol: Option<Seq<char>>,
    pub level: LintLevel,
    pub message: Seq<char>,
}

impl View for LintWarning {
    type V = WarnV;

    open spec fn view(&self) -> WarnV {
        WarnV { symbol: super::ostr(self.symbol), level: self.level, message: self.message@ }
    }
}

pub open spec fn warn_views(v: Seq<LintWarning>) -> Seq<WarnV> {
    Seq::new(v.len(), |i: int| v[i]@)
}

// ---------------------------------------------------------------------------
// UTF-8 lengths and truncation
// ---------------------------------------------------------------------------

/// Characters before byte `max`: the first prefix of at least `max` bytes.
pub open spec fn cut_from(s: Seq<char>, k: int, max: nat) -> int
    decreases s.len() - k,
{
    if 0 <= k < s.len() && utf8_len(s.take(k)) < max {
        cut_from(s, k + 1, max)
    } else {
        k
    }
}

/// Byte `max` of `s` is a character boundary, or `s` is not longer than `max` bytes.
pub open spec fn truncate_ok(s: Seq<char>, max: nat) -> bool {
    utf8_len(s) <= max || utf8_len(s.take(cut_from(s, 0, max))) == max
}

/// The first `max` bytes of `s` followed by `...`, or `s` when it is short enough.
pub open spec fn truncated(s: Seq<char>, max: nat) -> Seq<char> {
    if utf8_len(s) <= max {
        s
    } else {
        s.take(cut_from(s, 0, max)) + "..."@
    }
}

/// `s` cut to `max` bytes with `...` appended, or `s` when short enough.
pub fn truncate(s: &[char], max: usize) -> (r: Vec<char>)
    requires
        truncate_ok(s@, max as nat),
    ensures
        r@ == truncated(s@, max as nat),
{
    let len = utf8_len_exec(s);
    if len <= max as u128 {
        return slice_copy(s, 0, s.len());
    }
    assert(utf8_len(s@) > max);
    let mut k: usize = 0;
    let mut bytes: usize = 0;
    while k < s.len() && bytes < max
        invariant
            k <= s@.len(),
            bytes == utf8_len(s@.take(k as int)),
            bytes <= max,
            truncate_ok(s@, max as nat),
            utf8_len(s@) > max,
            cut_from(s@, k as int, max as nat) == cut_from(s@, 0, max as nat),
        decreases s@.len() - k,
    {
        proof {
            lemma_utf8_len_take(s@, k as int);
        }
        let w = utf8_width_exec(s[k]);
        if w > max - bytes {
            // the cut would fall inside this character, which the precondition excludes
            assert(cut_from(s@, k as int, max as nat) == cut_from(s@, k + 1, max as nat));
            proof {
                lemma_cut_past(s@, k + 1, max as nat);
            }
            assert(false);
        }
        bytes = bytes + w;
        k += 1;
    }
    proof {
        lemma_cut_past(s@, k as int, max as nat);
    }
    let mut r = slice_copy(s, 0, k);
    assert(s@.subrange(0, k as int) =~= s@.take(k as int));
    let dots = chars_of("...");
    push_all(&mut r, dots.as_slice());
    r
}

/// Whether `truncate` can cut `s` at `max` bytes: `s` is not longer, or
/// byte `max` is a character boundary.
pub fn truncate_ok_check(s: &[char], max: usize) -> (r: bool)
    ensures
        r == truncate_ok(s@, max as nat),
{
    let len = utf8_len_exec(s);
    if len <= max as u128 {
        return true;
    }
    let mut k: usize = 0;
    let mut bytes: usize = 0;
    while k < s.len() && bytes < max
        invariant
            k <= s@.len(),
            bytes == utf8_len(s@.take(k as int)),
            bytes <= max,
            utf8_len(s@) > max,
            cut_from(s@, k as int, max as nat) == cut_from(s@, 0, max as nat),
        decreases s@.len() - k,
    {
        proof {
            lemma_utf8_len_take(s@, k as int);
        }
        let w = utf8_width_exec(s[k]);
        if w > max - bytes {
            proof {
                lemma_cut_past(s@, k + 1, max as nat);
            }
            return false;
        }
        bytes = bytes + w;
        k += 1;
    }
    proof {
        if k == s@.len() {
            assert(s@.take(k as int) =~= s@);
        }
        lemma_cut_past(s@, k as int, max as nat);
    }
    true
}

/// Past a prefix longer than `max` bytes, the cut stays where it is and lies past `max`.
proof fn lemma_cut_past(s: Seq<char>, k: int, max: nat)
    requires
        0 <= k <= s.len(),
        utf8_len(s.take(k)) >= max,
    ensures
        cut_from(s, k, max) == k,
{
}

// ---------------------------------------------------------------------------
// Checks
// ---------------------------------------------------------------------------

/// The summary reads like a signature: it starts with `name(` or a backtick.
pub open spec fn signature_like(summary: Seq<char>, name: Seq<char>) -> bool {
    let s = trim(summary);
    has_prefix(s, name + "("@) || has_prefix(s, "`"@)
}

/// Whether a summary reads like a signature of `symbol_name`: trimmed, it
/// starts with `symbol_name(` or with a backtick.
pub fn looks_like_signature(summary: &str, symbol_name: &str) -> (r: bool)
    ensures
        r == signature_like(summary@, symbol_name@),
{
    let ts = trimmed(chars_of(summary).as_slice());
    let mut pre = chars_of(symbol_name);
    push_all(&mut pre, chars_of("(").as_slice());
    starts_with(ts.as_slice(), pre.as_slice()) || starts_with(ts.as_slice(), chars_of("`").as_slice())
}

pub open spec fn signature_summary(e: SymbolV, name: Seq<char>) -> bool {
    e.summary.len() > 0 && (has_prefix(e.summary, "`"@) || has_prefix(e.summary, "ax_"@)
        || signature_like(e.summary, name))
}

pub open spec fn warn(name: Seq<char>, level: LintLevel, message: Seq<char>) -> WarnV {
    WarnV { symbol: Some(name), level, message }
}

/// Warnings for unknown cross-references of `refs`, from index `i` on.
pub open spec fn unknown_refs(name: Seq<char>, refs: Seq<Seq<char>>, names: Seq<Seq<char>>, i: int) -> Seq<WarnV>
    decreases refs.len() - i,
{
    if i < 0 || i >= refs.len() {
        Seq::empty()
    } else if contains(refs[i], ":"@) || names.contains(refs[i]) {
        unknown_refs(name, refs, names, i + 1)
    } else {
        seq![warn(name, LintLevel::Warn, "See also references unknown symbol '"@ + refs[i] + "' (may be external)"@)]
            + unknown_refs(name, refs, names, i + 1)
    }
}

/// The warnings about one symbol.
pub open spec fn symbol_warnings(name: Seq<char>, e: SymbolV, names: Seq<Seq<char>>) -> Seq<WarnV> {
    if trim(e.body_md).len() == 0 {
        seq![warn(name, LintLevel::Warn, "symbol has no documentation body"@)]
    } else {
        let w1 = if e.summary.len() == 0 {
            seq![warn(name, LintLevel::Warn, "symbol has no summary (first paragraph is empty or a code block)"@)]
        } else if signature_summary(e, name) {
            seq![warn(name, LintLevel::Warn, "summary looks like a signature, not a description: \""@ + truncated(e.summary, 60) + "\""@)]
        } else {
            Seq::empty()
        };
        let w2 = if e.examples.len() == 0 {
            seq![warn(name, LintLevel::Info, "no examples found"@)]
        } else {
            Seq::empty()
        };
        let w3 = if e.see_also.len() == 0 {
            seq![warn(name, LintLevel::Info, "no cross-references (See also:)"@)]
        } else {
            Seq::empty()
        };
        w1 + w2 + w3 + unknown_refs(name, e.see_also, names, 0)
    }
}

pub open spec fn key_names(s: Seq<(Seq<char>, SymbolV)>) -> Seq<Seq<char>> {
    Seq::new(s.len(), |i: int| s[i].0)
}

/// The warnings about the symbols from index `i` on, in symbol order.
pub open spec fn lint_from(s: Seq<(Seq<char>, SymbolV)>, i: int) -> Seq<WarnV>
    decreases s.len() - i,
{
    if i < 0 || i >= s.len() {
        Seq::empty()
    } else {
        symbol_warnings(s[i].0, s[i].1, key_names(s)) + lint_from(s, i + 1)
    }
}

/// No summary that the lint reports as a signature is cut inside a character.
pub open spec fn lint_truncations_ok(s: Seq<(Seq<char>, SymbolV)>) -> bool {
    forall|i: int|
        0 <= i < s.len() && signature_summary(#[trigger] s[i].1, s[i].0) ==> truncate_ok(
            s[i].1.summary,
            60,
        )
}

fn make_warning(name: &String, level: LintLevel, message: &Vec<char>, out: &mut Vec<LintWarning>)
    ensures
        warn_views(final(out)@) == warn_views(old(out)@).push(warn(name@, level, message@)),
{
    let w = LintWarning { symbol: Some(name.clone()), level, message: string_of(message.as_slice()) };
    let ghost o = out@;
    let ghost wv = w@;
    out.push(w);
    assert(warn_views(out@) =~= warn_views(o).push(wv));
}

fn contains_name(names: &Vec<String>, x: &String) -> (r: bool)
    ensures
        r == strs(names@).contains(x@),
{
    let xc = chars_of_string(x);
    let mut i: usize = 0;
    while i < names.len()
        invariant
            i <= names@.len(),
            xc@ == x@,
            forall|j: int| 0 <= j < i ==> strs(names@)[j] != x@,
        decreases names@.len() - i,
    {
        if eq_chars(chars_of_string(&names[i]).as_slice(), xc.as_slice()) {
            assert(strs(names@)[i as int] == x@);
            return true;
        }
        i += 1;
    }
    false
}

fn lint_symbol(name: &String, e: &super::SymbolEntry, names: &Vec<String>, out: &mut Vec<LintWarning>)
    requires
        signature_summary(e@, name@) ==> truncate_ok(e@.summary, 60),
    ensures
        warn_views(final(out)@) == warn_views(old(out)@) + symbol_warnings(name@, e@, strs(names@)),
{
    let ghost start = warn_views(out@);
    let body = chars_of_string(&e.body_md);
    let tb = trimmed(body.as_slice());
    if tb.len() == 0 {
        make_warning(name, LintLevel::Warn, &chars_of("symbol has no documentation body"), out);
        return;
    }
    let summary = chars_of_string(&e.summary);
    let nm = chars_of_string(name);
    let ghost w1: Seq<WarnV>;
    if summary.len() == 0 {
        make_warning(
            name,
            LintLevel::Warn,
            &chars_of("symbol has no summary (first paragraph is empty or a code block)"),
            out,
        );
    } else {
        let tick = chars_of("`");
        let ax = chars_of("ax_");
        let looks = looks_like_signature(e.summary.as_str(), name.as_str());
        if starts_with(summary.as_slice(), tick.as_slice()) || starts_with(summary.as_slice(), ax.as_slice()) || looks {
            let mut msg = chars_of("summary looks like a signature, not a description: \"");
            let t = truncate(summary.as_slice(), 60);
            push_all(&mut msg, t.as_slice());
            push_all(&mut msg, chars_of("\"").as_slice());
            make_warning(name, LintLevel::Warn, &msg, out);
        }
    }
    if e.examples.len() == 0 {
        make_warning(name, LintLevel::Info, &chars_of("no examples found"), out);
    }
    if e.see_also.len() == 0 {
        make_warning(name, LintLevel::Info, &chars_of("no cross-references (See also:)"), out);
    }
    let colon = chars_of(":");
    let ghost before_refs = warn_views(out@);
    let mut i: usize = 0;
    while i < e.see_also.len()
        invariant
            i <= e.see_also@.len(),
            colon@ == ":"@,
            warn_views(out@) + unknown_refs(name@, strs(e.see_also@), strs(names@), i as int)
                == before_refs + unknown_refs(name@, strs(e.see_also@), strs(names@), 0),
        decreases e.see_also@.len() - i,
    {
        let r = &e.see_also[i];
        assert(strs(e.see_also@)[i as int] == r@);
        let rc = chars_of_string(r);
        let ghost o = warn_views(out@);
        if contains_chars(rc.as_slice(), colon.as_slice()) || contains_name(names, r) {
        } else {
            let mut msg = chars_of("See also references unknown symbol '");
            push_all(&mut msg, rc.as_slice());
            push_all(&mut msg, chars_of("' (may be external)").as_slice());
            make_warning(name, LintLevel::Warn, &msg, out);
            assert(o + unknown_refs(name@, strs(e.see_also@), strs(names@), i as int) =~= warn_views(
                out@,
            ) + unknown_refs(name@, strs(e.see_also@), strs(names@), i + 1));
        }
        i += 1;
    }
    assert(warn_views(out@) + Seq::<WarnV>::empty() =~= warn_views(out@));
    assert(warn_views(out@) =~= start + symbol_warnings(name@, e@, strs(names@)));
}

/// Whether `lint_doc_index` can take an index: each summary that it quotes
/// as a signature can be cut at byte 60.
pub fn lint_truncations_check(index: &DocIndex) -> (r: bool)
    ensures
        r == lint_truncations_ok(index.symbols@),
{
    let n = index.symbols.entries.len();
    let mut i: usize = 0;
    while i < n
        invariant
            i <= n == index.symbols.entries@.len(),
            index.symbols@.len() == n,
            forall|j: int|
                0 <= j < i && signature_summary(#[trigger] index.symbols@[j].1, index.symbols@[j].0)
                    ==> truncate_ok(index.symbols@[j].1.summary, 60),
        decreases n - i,
    {
        let name = &index.symbols.entries[i].0;
        let e = &index.symbols.entries[i].1;
        assert(index.symbols@[i as int] == (name@, e@));
        let summary = chars_of_string(&e.summary);
        let sig = summary.len() > 0 && (starts_with(summary.as_slice(), chars_of("`").as_slice())
            || starts_with(summary.as_slice(), chars_of("ax_").as_slice())
            || looks_like_signature(e.summary.as_str(), name.as_str()));
        proof {
            reveal_strlit("`");
            reveal_strlit("ax_");
        }
        assert(sig == signature_summary(e@, name@));
        if sig && !truncate_ok_check(summary.as_slice(), 60) {
            assert(signature_summary(index.symbols@[i as int].1, index.symbols@[i as int].0));
            assert(!truncate_ok(index.symbols@[i as int].1.summary, 60));
            return false;
        }
        i += 1;
    }
    true
}

/// Runs the lint checks on a parsed documentation index.
pub fn lint_doc_index(index: &DocIndex) -> (r: Vec<LintWarning>)
    requires
        lint_truncations_ok(index.symbols@),
    ensures
        warn_views(r@) == lint_from(index.symbols@, 0),
{
    let names = index.symbols.keys();
    assert(strs(names@) =~= key_names(index.symbols@));
    let mut out: Vec<LintWarning> = Vec::new();
    let n = index.symbols.entries.len();
    let mut i: usize = 0;
    assert(warn_views(out@) =~= Seq::<WarnV>::empty());
    while i < n
        invariant
            i <= n == index.symbols.entries@.len(),
            strs(names@) == key_names(index.symbols@),
            lint_truncations_ok(index.symbols@),
            warn_views(out@) + lint_from(index.symbols@, i as int) == lint_from(index.symbols@, 0),
        decreases n - i,
    {
        let ghost o = warn_views(out@);
        assert(index.symbols@[i as int] == (index.symbols.entries@[i as int].0@, index.symbols.entries@[i as int].1@));
        lint_symbol(&index.symbols.entries[i].0, &index.symbols.entries[i].1, &names, &mut out);
        assert(o + lint_from(index.symbols@, i as int) =~= warn_views(out@) + lint_from(
            index.symbols@,
            i + 1,
        ));
        i += 1;
    }
    assert(warn_views(out@) + lint_from(index.symbols@, i as int) =~= warn_views(out@));
    out
}

/// The warning about a `See also:` reference that names no symbol.
pub open spec fn unknown_ref_warning(name: Seq<char>, r: Seq<char>) -> WarnV {
    warn(name, LintLevel::Warn, "See also references unknown symbol '"@ + r + "' (may be external)"@)
}

/// A reference is reported when it has no `:` and names no symbol.
pub open spec fn reported_ref(r: Seq<char>, names: Seq<Seq<char>>) -> bool {
    !contains(r, ":"@) && !names.contains(r)
}

proof fn lemma_unknown_refs(name: Seq<char>, refs: Seq<Seq<char>>, names: Seq<Seq<char>>, i: int)
    requires
        0 <= i <= refs.len(),
    ensures
        forall|w: WarnV|
            #[trigger] unknown_refs(name, refs, names, i).contains(w) <==> exists|k: int|
                i <= k < refs.len() && reported_ref(refs[k], names) && w == unknown_ref_warning(
                    name,
                    #[trigger] refs[k],
                ),
    decreases refs.len() - i,
{
    if i < refs.len() {
        lemma_unknown_refs(name, refs, names, i + 1);
        let rest = unknown_refs(name, refs, names, i + 1);
        let u = unknown_refs(name, refs, names, i);
        assert forall|w: WarnV| #[trigger] u.contains(w) <==> exists|k: int|
            i <= k < refs.len() && reported_ref(refs[k], names) && w == unknown_ref_warning(
                name,
                #[trigger] refs[k],
            ) by {
            if reported_ref(refs[i], names) {
                let h = unknown_ref_warning(name, refs[i]);
                assert(u == seq![h] + rest);
                if u.contains(w) {
                    let m = choose|m: int| 0 <= m < u.len() && u[m] == w;
                    if m == 0 {
                        assert(w == unknown_ref_warning(name, refs[i]));
                    } else {
                        assert(rest[m - 1] == w);
                        assert(rest.contains(w));
                    }
                }
                if exists|k: int|
                    i <= k < refs.len() && reported_ref(refs[k], names) && w == unknown_ref_warning(
                        name,
                        #[trigger] refs[k],
                    ) {
                    let k = choose|k: int|
                        i <= k < refs.len() && reported_ref(refs[k], names) && w == unknown_ref_warning(
                            name,
                            #[trigger] refs[k],
                        );
                    if k == i {
                        assert(u[0] == w);
                    } else {
                        assert(rest.contains(w));
                        let m = choose|m: int| 0 <= m < rest.len() && rest[m] == w;
                        assert(u[m + 1] == w);
                    }
                }
            } else {
                assert(u == rest);
                if exists|k: int|
                    i <= k < refs.len() && reported_ref(refs[k], names) && w == unknown_ref_warning(
                        name,
                        #[trigger] refs[k],
                    ) {
                    let k = choose|k: int|
                        i <= k < refs.len() && reported_ref(refs[k], names) && w == unknown_ref_warning(
                            name,
                            #[trigger] refs[k],
                        );
                    assert(k != i);
                }
            }
        }
    }
}

/// The lint's warnings about one symbol: all of them name the symbol; a
/// symbol without a body gets exactly the one warning that says so; one
/// with a body gets, among its warnings, one per `See also:` reference that
/// has no `:` and names no symbol, and no unknown-reference warning beside
/// those.
pub proof fn lemma_symbol_warnings(name: Seq<char>, e: SymbolV, names: Seq<Seq<char>>)
    ensures
        forall|k: int|
            0 <= k < symbol_warnings(name, e, names).len() ==> (#[trigger] symbol_warnings(
                name,
                e,
                names,
            )[k]).symbol == Some(name),
        trim(e.body_md).len() == 0 ==> symbol_warnings(name, e, names) == seq![
            warn(name, LintLevel::Warn, "symbol has no documentation body"@),
        ],
        trim(e.body_md).len() > 0 ==> forall|r: Seq<char>|
            e.see_also.contains(r) && reported_ref(r, names) ==> symbol_warnings(
                name,
                e,
                names,
            ).contains(#[trigger] unknown_ref_warning(name, r)),
        trim(e.body_md).len() > 0 ==> forall|w: WarnV|
            #[trigger] unknown_refs(name, e.see_also, names, 0).contains(w) <==> exists|k: int|
                0 <= k < e.see_also.len() && reported_ref(e.see_also[k], names) && w
                    == unknown_ref_warning(name, #[trigger] e.see_also[k]),
{
    lemma_unknown_refs(name, e.see_also, names, 0);
    let sw = symbol_warnings(name, e, names);
    let u = unknown_refs(name, e.see_also, names, 0);
    if trim(e.body_md).len() > 0 {
        let w1 = if e.summary.len() == 0 {
            seq![warn(name, LintLevel::Warn, "symbol has no summary (first paragraph is empty or a code block)"@)]
        } else if signature_summary(e, name) {
            seq![warn(name, LintLevel::Warn, "summary looks like a signature, not a description: \""@ + truncated(e.summary, 60) + "\""@)]
        } else {
            Seq::empty()
        };
        let w2 = if e.examples.len() == 0 {
            seq![warn(name, LintLevel::Info, "no examples found"@)]
        } else {
            Seq::empty()
        };
        let w3 = if e.see_also.len() == 0 {
            seq![warn(name, LintLevel::Info, "no cross-references (See also:)"@)]
        } else {
            Seq::empty()
        };
        let pre = w1 + w2 + w3;
        assert(sw == pre + u);
        assert forall|k: int| 0 <= k < u.len() implies (#[trigger] u[k]).symbol == Some(name) by {
            assert(u.contains(u[k]));
        }
        assert forall|k: int| 0 <= k < sw.len() implies (#[trigger] sw[k]).symbol == Some(name) by {
            if k >= pre.len() {
                assert(sw[k] == u[k - pre.len()]);
            }
        }
        assert forall|r: Seq<char>|
            e.see_also.contains(r) && reported_ref(r, names) implies sw.contains(
                #[trigger] unknown_ref_warning(name, r),
            ) by {
            let k = choose|k: int| 0 <= k < e.see_also.len() && e.see_also[k] == r;
            assert(u.contains(unknown_ref_warning(name, e.see_also[k])));
            let m = choose|m: int| 0 <= m < u.len() && u[m] == unknown_ref_warning(name, r);
            assert(sw[pre.len() + m] == u[m]);
        }
    }
}

/// The warnings of `ws` about the symbol `name`.
pub open spec fn warnings_for(ws: Seq<WarnV>, name: Seq<char>) -> Seq<WarnV> {
    ws.filter(|w: WarnV| w.symbol == Some(name))
}

proof fn lemma_warnings_for_all(ws: Seq<WarnV>, name: Seq<char>)
    ensures
        (forall|k: int| 0 <= k < ws.len() ==> (#[trigger] ws[k]).symbol == Some(name)) ==> warnings_for(ws, name)
            == ws,
        (forall|k: int| 0 <= k < ws.len() ==> (#[trigger] ws[k]).symbol != Some(name)) ==> warnings_for(ws, name)
            == Seq::<WarnV>::empty(),
    decreases ws.len(),
{
    reveal(Seq::filter);
    if ws.len() > 0 {
        lemma_warnings_for_all(ws.drop_last(), name);
        if forall|k: int| 0 <= k < ws.len() ==> (#[trigger] ws[k]).symbol == Some(name) {
            assert(ws.drop_last().push(ws.last()) =~= ws);
        }
    }
}

proof fn lemma_warnings_for_lint(s: Seq<(Seq<char>, SymbolV)>, t: int, i: int)
    requires
        super::symbols::sorted_keys(s),
        0 <= t < s.len(),
        0 <= i,
    ensures
        warnings_for(lint_from(s, i), s[t].0) == if i <= t {
            symbol_warnings(s[t].0, s[t].1, key_names(s))
        } else {
            Seq::<WarnV>::empty()
        },
    decreases s.len() - i,
{
    reveal(Seq::filter);
    if i < s.len() {
        lemma_warnings_for_lint(s, t, i + 1);
        let sw = symbol_warnings(s[i].0, s[i].1, key_names(s));
        lemma_symbol_warnings(s[i].0, s[i].1, key_names(s));
        Seq::filter_distributes_over_add(sw, lint_from(s, i + 1), |w: WarnV| w.symbol == Some(s[t].0));
        lemma_warnings_for_all(sw, s[t].0);
        if i != t {
            if s[i].0 == s[t].0 {
                crate::text::lemma_seq_lt_irrefl(s[i].0);
                if i < t {
                    assert(crate::text::seq_lt(s[i].0, s[t].0));
                } else {
                    assert(crate::text::seq_lt(s[t].0, s[i].0));
                }
            }
            assert forall|k: int| 0 <= k < sw.len() implies (#[trigger] sw[k]).symbol != Some(s[t].0) by {}
            assert(warnings_for(lint_from(s, i), s[t].0) =~= warnings_for(lint_from(s, i + 1), s[t].0));
        } else {
            assert(warnings_for(lint_from(s, i + 1), s[t].0) =~= Seq::<WarnV>::empty());
            assert(warnings_for(lint_from(s, i), s[t].0) =~= sw);
        }
    } else {
        assert(warnings_for(lint_from(s, i), s[t].0) =~= Seq::<WarnV>::empty());
    }
}

proof fn lemma_ref_message(r1: Seq<char>, r2: Seq<char>)
    requires
        "See also references unknown symbol '"@ + r1 + "' (may be external)"@ == "See also references unknown symbol '"@
            + r2 + "' (may be external)"@,
    ensures
        r1 == r2,
{
    let a = "See also references unknown symbol '"@;
    let b = "' (may be external)"@;
    let m1 = a + r1 + b;
    let m2 = a + r2 + b;
    assert(m1.len() == m2.len());
    assert(r1 =~= m1.subrange(a.len() as int, (a.len() + r1.len()) as int));
    assert(r2 =~= m2.subrange(a.len() as int, (a.len() + r2.len()) as int));
}

/// The warnings that `lint_doc_index` gives about each symbol of a
/// (sorted) index: exactly that symbol's own warnings. A symbol with a
/// blank body gets just `symbol has no documentation body`; otherwise a
/// `See also:` reference `r` of it is reported as unknown exactly when `r`
/// has no `:` and names no symbol of the index.
pub proof fn lemma_lint_per_symbol(s: Seq<(Seq<char>, SymbolV)>)
    requires
        super::symbols::sorted_keys(s),
    ensures
        forall|i: int|
            0 <= i < s.len() ==> #[trigger] warnings_for(lint_from(s, 0), s[i].0) == symbol_warnings(
                s[i].0,
                s[i].1,
                key_names(s),
            ),
        forall|i: int|
            0 <= i < s.len() && trim(s[i].1.body_md).len() == 0 ==> #[trigger] warnings_for(
                lint_from(s, 0),
                s[i].0,
            ) == seq![warn(s[i].0, LintLevel::Warn, "symbol has no documentation body"@)],
        forall|i: int, r: Seq<char>|
            0 <= i < s.len() && trim(s[i].1.body_md).len() > 0 && s[i].1.see_also.contains(r) ==> (
            #[trigger] warnings_for(lint_from(s, 0), s[i].0).contains(#[trigger] unknown_ref_warning(s[i].0, r))
                <==> !contains(r, ":"@) && !key_names(s).contains(r)),
{
    reveal_strlit("symbol has no summary (first paragraph is empty or a code block)");
    reveal_strlit("summary looks like a signature, not a description: \"");
    reveal_strlit("no examples found");
    reveal_strlit("no cross-references (See also:)");
    reveal_strlit("See also references unknown symbol '");
    assert forall|i: int| 0 <= i < s.len() implies #[trigger] warnings_for(lint_from(s, 0), s[i].0)
        == symbol_warnings(s[i].0, s[i].1, key_names(s)) by {
        lemma_warnings_for_lint(s, i, 0);
    }
    assert forall|i: int| 0 <= i < s.len() && trim(s[i].1.body_md).len() == 0 implies #[trigger] warnings_for(
        lint_from(s, 0),
        s[i].0,
    ) == seq![warn(s[i].0, LintLevel::Warn, "symbol has no documentation body"@)] by {
        lemma_warnings_for_lint(s, i, 0);
        lemma_symbol_warnings(s[i].0, s[i].1, key_names(s));
    }
    assert forall|i: int, r: Seq<char>|
        0 <= i < s.len() && trim(s[i].1.body_md).len() > 0 && s[i].1.see_also.contains(r) implies (
        #[trigger] warnings_for(lint_from(s, 0), s[i].0).contains(#[trigger] unknown_ref_warning(s[i].0, r))
            <==> !contains(r, ":"@) && !key_names(s).contains(r)) by {
        let n = s[i].0;
        let e = s[i].1;
        let names = key_names(s);
        lemma_warnings_for_lint(s, i, 0);
        lemma_symbol_warnings(n, e, names);
        let w = unknown_ref_warning(n, r);
        let sw = symbol_warnings(n, e, names);
        let u = unknown_refs(n, e.see_also, names, 0);
        if sw.contains(w) {
            let k = choose|k: int| 0 <= k < sw.len() && sw[k] == w;
            assert(w.message[0] == 'S');
            let w1 = if e.summary.len() == 0 {
                seq![warn(n, LintLevel::Warn, "symbol has no summary (first paragraph is empty or a code block)"@)]
            } else if signature_summary(e, n) {
                seq![warn(n, LintLevel::Warn, "summary looks like a signature, not a description: \""@ + truncated(e.summary, 60) + "\""@)]
            } else {
                Seq::empty()
            };
            let w2 = if e.examples.len() == 0 {
                seq![warn(n, LintLevel::Info, "no examples found"@)]
            } else {
                Seq::empty()
            };
            let w3 = if e.see_also.len() == 0 {
                seq![warn(n, LintLevel::Info, "no cross-references (See also:)"@)]
            } else {
                Seq::empty()
            };
            assert(sw == w1 + w2 + w3 + u);
            let pre = w1 + w2 + w3;
            if k < pre.len() {
                assert(pre[k].message[0] != 'S');
                assert(false);
            }
            assert(u[k - pre.len()] == w);
            assert(u.contains(w));
            let k2 = choose|k2: int|
                0 <= k2 < e.see_also.len() && reported_ref(e.see_also[k2], names) && w == unknown_ref_warning(
                    n,
                    #[trigger] e.see_also[k2],
                );
            lemma_ref_message(r, e.see_also[k2]);
        }
    }
}

/// The other warnings about a symbol with a body: an empty summary gets
/// `symbol has no summary (first paragraph is empty or a code block)`; a
/// summary that starts with a backtick or with `ax_` gets `summary looks like
/// a signature, not a description: "<its first 60 bytes>"`; a symbol without
/// examples gets the note `no examples found`, and one without `See also:`
/// references the note `no cross-references (See also:)`. A symbol with
/// examples gets no such note, and neither does one with references.
pub proof fn lemma_lint_content_warnings(name: Seq<char>, e: SymbolV, names: Seq<Seq<char>>)
    requires
        trim(e.body_md).len() > 0,
    ensures
        e.summary.len() == 0 ==> symbol_warnings(name, e, names).contains(
            warn(name, LintLevel::Warn, "symbol has no summary (first paragraph is empty or a code block)"@),
        ),
        e.summary.len() > 0 && (has_prefix(e.summary, "`"@) || has_prefix(e.summary, "ax_"@))
            ==> symbol_warnings(name, e, names).contains(
            warn(
                name,
                LintLevel::Warn,
                "summary looks like a signature, not a description: \""@ + truncated(e.summary, 60)
                    + "\""@,
            ),
        ),
        e.examples.len() == 0 ==> symbol_warnings(name, e, names).contains(
            warn(name, LintLevel::Info, "no examples found"@),
        ),
        e.see_also.len() == 0 ==> symbol_warnings(name, e, names).contains(
            warn(name, LintLevel::Info, "no cross-references (See also:)"@),
        ),
        e.examples.len() > 0 ==> !symbol_warnings(name, e, names).contains(
            warn(name, LintLevel::Info, "no examples found"@),
        ),
        e.see_also.len() > 0 ==> !symbol_warnings(name, e, names).contains(
            warn(name, LintLevel::Info, "no cross-references (See also:)"@),
        ),
{
    reveal_strlit("no examples found");
    reveal_strlit("no cross-references (See also:)");
    reveal_strlit("See also references unknown symbol '");
    let w1 = if e.summary.len() == 0 {
        seq![warn(name, LintLevel::Warn, "symbol has no summary (first paragraph is empty or a code block)"@)]
    } else if signature_summary(e, name) {
        seq![warn(name, LintLevel::Warn, "summary looks like a signature, not a description: \""@ + truncated(e.summary, 60) + "\""@)]
    } else {
        Seq::empty()
    };
    let w2 = if e.examples.len() == 0 {
        seq![warn(name, LintLevel::Info, "no examples found"@)]
    } else {
        Seq::empty()
    };
    let w3 = if e.see_also.len() == 0 {
        seq![warn(name, LintLevel::Info, "no cross-references (See also:)"@)]
    } else {
        Seq::empty()
    };
    let u = unknown_refs(name, e.see_also, names, 0);
    let sw = w1 + w2 + w3 + u;
    assert(symbol_warnings(name, e, names) == sw);
    lemma_unknown_refs(name, e.see_also, names, 0);
    if w1.len() > 0 {
        assert(sw[0] == w1[0]);
    }
    if w2.len() > 0 {
        assert(sw[w1.len() as int] == w2[0]);
    }
    if w3.len() > 0 {
        assert(sw[(w1.len() + w2.len()) as int] == w3[0]);
    }
    let ex = warn(name, LintLevel::Info, "no examples found"@);
    let xr = warn(name, LintLevel::Info, "no cross-references (See also:)"@);
    if e.examples.len() > 0 && sw.contains(ex) {
        let k = choose|k: int| 0 <= k < sw.len() && sw[k] == ex;
        if k < w1.len() {
            assert(w1[k].level == LintLevel::Warn);
        } else if k < w1.len() + w2.len() + w3.len() {
            assert(sw[k] == w3[k - w1.len() - w2.len()]);
            assert(ex.message.len() != xr.message.len());
        } else {
            assert(u.contains(ex));
            assert(ex.level == LintLevel::Info);
        }
    }
    if e.see_also.len() > 0 && sw.contains(xr) {
        let k = choose|k: int| 0 <= k < sw.len() && sw[k] == xr;
        if k < w1.len() {
            assert(w1[k].level == LintLevel::Warn);
        } else if k < w1.len() + w2.len() {
            assert(sw[k] == w2[k - w1.len()]);
            assert(ex.message.len() != xr.message.len());
        } else if k < w1.len() + w2.len() + w3.len() {
        } else {
            assert(u.contains(xr));
        }
    }
}

} // verus!
