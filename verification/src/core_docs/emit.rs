//! Category mapping and markdown emission for symbols extracted from the
//! Texinfo XML.
use vstd::prelude::*;
use crate::text::{
    alphanumeric, ascii_lowercase, ascii_uppercase, chars_of, lemma_ascii_case,
    lemma_ascii_lowercase_prefix, is_ascii_text, chars_of_string, contains, contains_chars, eq_chars, has_prefix,
    is_alphanumeric, join, join_strings, lowercase, push_all, push_char, push_str, slice_copy,
    starts_with, string_of, strs, to_lowercase, trim, trimmed,
};

verus! {

/// A symbol extracted from the Texinfo XML.
pub struct ExtractedSymbol {
    pub name: String,
    pub symbol_type: String,
    pub signatures: Vec<String>,
    pub body_md: String,
    pub examples: Vec<(String, String)>,
    pub see_also: Vec<String>,
    pub category: String,
    pub chapter: String,
    pub keywords: Vec<String>,
}

pub struct ExtractedV {
    pub name: Seq<char>,
    pub symbol_type: Seq<char>,
    pub signatures: Seq<Seq<char>>,
    pub body_md: Seq<char>,
    pub examples: Seq<(Seq<char>, Seq<char>)>,
    pub see_also: Seq<Seq<char>>,
    pub category: Seq<char>,
    pub chapter: Seq<char>,
    pub keywords: Seq<Seq<char>>,
}

impl View for ExtractedSymbol {
    type V = ExtractedV;

    open spec fn view(&self) -> ExtractedV {
        ExtractedV {
            name: self.name@,
            symbol_type: self.symbol_type@,
            signatures: strs(self.signatures@),
            body_md: self.body_md@,
            examples: super::xml::pair_views(self.examples@),
            see_also: strs(self.see_also@),
            category: self.category@,
            chapter: self.chapter@,
            keywords: strs(self.keywords@),
        }
    }
}

// ---------------------------------------------------------------------------
// Categories
// ---------------------------------------------------------------------------

/// Some pattern of `patterns` occurs in `value`.
pub open spec fn contains_any_spec(value: Seq<char>, patterns: Seq<&str>) -> bool {
    exists|i: int| 0 <= i < patterns.len() && contains(value, #[trigger] patterns[i]@)
}

/// Some pattern of `patterns` occurs in `value`.
pub fn contains_any(value: &str, patterns: &[&str]) -> (r: bool)
    ensures
        r == contains_any_spec(value@, patterns@),
{
    let v = chars_of(value);
    let mut i: usize = 0;
    while i < patterns.len()
        invariant
            i <= patterns@.len(),
            v@ == value@,
            forall|j: int| 0 <= j < i ==> !contains(value@, #[trigger] patterns@[j]@),
        decreases patterns@.len() - i,
    {
        let p = chars_of(patterns[i]);
        if contains_chars(v.as_slice(), p.as_slice()) {
            return true;
        }
        i += 1;
    }
    false
}

/// The category strings that name a kind of definition rather than a topic.
pub open spec fn definition_types() -> Seq<&'static str> {
    seq![
        "function",
        "variable",
        "option variable",
        "system variable",
        "system function",
        "special operator",
        "operator",
        "property",
        "declaration",
        "special symbol",
    ]
}

pub open spec fn is_definition_type_spec(lower: Seq<char>) -> bool {
    exists|i: int| 0 <= i < definition_types().len() && #[trigger] definition_types()[i]@ == lower
}

/// `lower` names a kind of definition (`function`, `option variable`, ...).
pub fn is_definition_type(lower: &str) -> (r: bool)
    ensures
        r == is_definition_type_spec(lower@),
{
    let kinds = [
        "function",
        "variable",
        "option variable",
        "system variable",
        "system function",
        "special operator",
        "operator",
        "property",
        "declaration",
        "special symbol",
    ];
    assert(kinds@ == definition_types());
    let l = chars_of(lower);
    let mut i: usize = 0;
    while i < kinds.len()
        invariant
            i <= kinds@.len(),
            kinds@ == definition_types(),
            l@ == lower@,
            forall|j: int| 0 <= j < i ==> #[trigger] definition_types()[j]@ != lower@,
        decreases kinds@.len() - i,
    {
        let k = chars_of(kinds[i]);
        if eq_chars(k.as_slice(), l.as_slice()) {
            return true;
        }
        i += 1;
    }
    false
}

/// The prefixes that Maxima section titles put before the topic.
pub open spec fn title_prefixes() -> Seq<&'static str> {
    seq!["Functions and Variables for ", "Introduction to ", "Package ", "Definitions for "]
}

/// `raw` without the first of the title prefixes that it starts with.
pub open spec fn strip_title_prefix(raw: Seq<char>) -> Seq<char> {
    let p = title_prefixes();
    if has_prefix(raw, p[0]@) {
        raw.skip(p[0]@.len() as int)
    } else if has_prefix(raw, p[1]@) {
        raw.skip(p[1]@.len() as int)
    } else if has_prefix(raw, p[2]@) {
        raw.skip(p[2]@.len() as int)
    } else if has_prefix(raw, p[3]@) {
        raw.skip(p[3]@.len() as int)
    } else {
        raw
    }
}

pub open spec fn pats_linear_algebra() -> Seq<&'static str> {
    seq!["linear algebra", "matri", "vector", "eigen", "linearalgebra"]
}

pub open spec fn pats_trigonometry() -> Seq<&'static str> {
    seq!["trigonometr", "hyperbolic", "trigtools"]
}

pub open spec fn pats_calculus() -> Seq<&'static str> {
    seq![
        "calcul",
        "integr",
        "differenti",
        "ode",
        "laplace",
        "quadpack",
        "romberg",
        "contrib_ode",
        "differential equation",
    ]
}

pub open spec fn pats_simplification() -> Seq<&'static str> {
    seq!["simplif", "rational", "rules and pattern", "opsubst"]
}

pub open spec fn pats_solving() -> Seq<&'static str> {
    seq!["solv", "equation", "to_poly_solve", "algsys"]
}

pub open spec fn pats_plotting() -> Seq<&'static str> {
    seq!["plot", "draw", "graph", "dynamics", "worldmap", "picture", "bode"]
}

pub open spec fn pats_number_theory() -> Seq<&'static str> {
    seq!["number theory", "prime", "number", "divis"]
}

pub open spec fn pats_polynomials() -> Seq<&'static str> {
    seq!["polynom", "grobner", "algebraic", "ratpow"]
}

pub open spec fn pats_series() -> Seq<&'static str> {
    seq![
        "series",
        "taylor",
        "fourier",
        "power series",
        "limit",
        "sum",
        "product",
        "zeilberger",
        "solve_rec",
    ]
}

pub open spec fn pats_combinatorics() -> Seq<&'static str> {
    seq!["combinat", "set", "permut"]
}

pub open spec fn pats_special_functions() -> Seq<&'static str> {
    seq![
        "elliptic",
        "special function",
        "gamma",
        "bessel",
        "hypergeometric",
        "airy",
        "struve",
        "orthogonal poly",
        "orthopoly",
        "math",
    ]
}

pub open spec fn pats_io() -> Seq<&'static str> {
    seq![
        "input",
        "output",
        "file",
        "display",
        "print",
        "read",
        "string",
        "numericalio",
        "format",
        "fortran",
        "tex output",
        "f90",
        "gentran",
        "alt-display",
    ]
}

pub open spec fn pats_tensors() -> Seq<&'static str> {
    seq!["tensor", "ctensor", "itensor", "atensor", "cartan", "frame", "affine"]
}

pub open spec fn pats_programming() -> Seq<&'static str> {
    seq![
        "program",
        "flow",
        "function defin",
        "debug",
        "compile",
        "evaluation",
        "macro",
        "operator",
        "expression",
        "data type",
        "structure",
        "array",
        "list",
        "predicate",
        "propert",
        "database",
        "command line",
        "runtime",
        "help",
        "constant",
        "comment",
        "identifier",
        "reserved",
    ]
}

pub open spec fn pats_algebra() -> Seq<&'static str> {
    seq!["algebra", "sym"]
}

pub open spec fn pats_statistics() -> Seq<&'static str> {
    seq!["stat", "distrib", "random", "lsquare", "descriptive", "inference"]
}

pub open spec fn pats_numerical() -> Seq<&'static str> {
    seq![
        "numer",
        "float",
        "fft",
        "lapack",
        "minpack",
        "lbfgs",
        "mnewton",
        "simplex",
        "cobyla",
        "hompack",
        "interpol",
        "rk_adaptive",
        "odepack",
        "colnew",
        "levin",
        "pslq",
    ]
}

pub open spec fn pats_units() -> Seq<&'static str> {
    seq!["unit", "physical_constant", "ezunit"]
}

/// The thirteen top-level categories.
pub open spec fn top_categories() -> Seq<Seq<char>> {
    seq![
        "LinearAlgebra"@,
        "Calculus"@,
        "Simplification"@,
        "Algebra"@,
        "Plotting"@,
        "NumberTheory"@,
        "SpecialFunctions"@,
        "IO"@,
        "Tensors"@,
        "Programming"@,
        "Statistics"@,
        "Numerical"@,
        "Other"@,
    ]
}

/// The top-level category of a lowercased topic: the first group, in this
/// order, one of whose patterns occurs in it. Trigonometry counts among the
/// special functions, solving, polynomials and combinatorics among algebra,
/// series among calculus, and units among the rest.
pub open spec fn category_of(lower: Seq<char>) -> Seq<char> {
    if is_definition_type_spec(lower) {
        "Other"@
    } else if contains_any_spec(lower, pats_linear_algebra()) {
        "LinearAlgebra"@
    } else if contains_any_spec(lower, pats_trigonometry()) {
        "SpecialFunctions"@
    } else if contains_any_spec(lower, pats_calculus()) {
        "Calculus"@
    } else if contains_any_spec(lower, pats_simplification()) {
        "Simplification"@
    } else if contains_any_spec(lower, pats_solving()) {
        "Algebra"@
    } else if contains_any_spec(lower, pats_plotting()) {
        "Plotting"@
    } else if contains_any_spec(lower, pats_number_theory()) {
        "NumberTheory"@
    } else if contains_any_spec(lower, pats_polynomials()) {
        "Algebra"@
    } else if contains_any_spec(lower, pats_series()) {
        "Calculus"@
    } else if contains_any_spec(lower, pats_combinatorics()) {
        "Algebra"@
    } else if contains_any_spec(lower, pats_special_functions()) {
        "SpecialFunctions"@
    } else if contains_any_spec(lower, pats_io()) {
        "IO"@
    } else if contains_any_spec(lower, pats_tensors()) {
        "Tensors"@
    } else if contains_any_spec(lower, pats_programming()) {
        "Programming"@
    } else if contains_any_spec(lower, pats_algebra()) && !contains(lower, "linear"@) {
        "Algebra"@
    } else if contains_any_spec(lower, pats_statistics()) {
        "Statistics"@
    } else if contains_any_spec(lower, pats_numerical()) {
        "Numerical"@
    } else if contains_any_spec(lower, pats_units()) {
        "Other"@
    } else {
        "Other"@
    }
}

/// The topic groups in the order they are tried: the patterns that put a
/// topic in the group, the patterns whose presence keeps it out, and the
/// group's top-level category.
pub open spec fn category_groups() -> Seq<(Seq<&'static str>, Seq<&'static str>, Seq<char>)> {
    seq![
        (
            seq!["linear algebra", "matri", "vector", "eigen", "linearalgebra"],
            Seq::<&'static str>::empty(),
            "LinearAlgebra"@,
        ),
        (
            seq!["trigonometr", "hyperbolic", "trigtools"],
            Seq::<&'static str>::empty(),
            "SpecialFunctions"@,
        ),
        (
            seq!["calcul", "integr", "differenti", "ode", "laplace", "quadpack", "romberg", "contrib_ode", "differential equation"],
            Seq::<&'static str>::empty(),
            "Calculus"@,
        ),
        (
            seq!["simplif", "rational", "rules and pattern", "opsubst"],
            Seq::<&'static str>::empty(),
            "Simplification"@,
        ),
        (
            seq!["solv", "equation", "to_poly_solve", "algsys"],
            Seq::<&'static str>::empty(),
            "Algebra"@,
        ),
        (
            seq!["plot", "draw", "graph", "dynamics", "worldmap", "picture", "bode"],
            Seq::<&'static str>::empty(),
            "Plotting"@,
        ),
        (
            seq!["number theory", "prime", "number", "divis"],
            Seq::<&'static str>::empty(),
            "NumberTheory"@,
        ),
        (
            seq!["polynom", "grobner", "algebraic", "ratpow"],
            Seq::<&'static str>::empty(),
            "Algebra"@,
        ),
        (
            seq!["series", "taylor", "fourier", "power series", "limit", "sum", "product", "zeilberger", "solve_rec"],
            Seq::<&'static str>::empty(),
            "Calculus"@,
        ),
        (
            seq!["combinat", "set", "permut"],
            Seq::<&'static str>::empty(),
            "Algebra"@,
        ),
        (
            seq!["elliptic", "special function", "gamma", "bessel", "hypergeometric", "airy", "struve", "orthogonal poly", "orthopoly", "math"],
            Seq::<&'static str>::empty(),
            "SpecialFunctions"@,
        ),
        (
            seq!["input", "output", "file", "display", "print", "read", "string", "numericalio", "format", "fortran", "tex output", "f90", "gentran", "alt-display"],
            Seq::<&'static str>::empty(),
            "IO"@,
        ),
        (
            seq!["tensor", "ctensor", "itensor", "atensor", "cartan", "frame", "affine"],
            Seq::<&'static str>::empty(),
            "Tensors"@,
        ),
        (
            seq!["program", "flow", "function defin", "debug", "compile", "evaluation", "macro", "operator", "expression", "data type", "structure", "array", "list", "predicate", "propert", "database", "command line", "runtime", "help", "constant", "comment", "identifier", "reserved"],
            Seq::<&'static str>::empty(),
            "Programming"@,
        ),
        (
            seq!["algebra", "sym"],
            seq!["linear"],
            "Algebra"@,
        ),
        (
            seq!["stat", "distrib", "random", "lsquare", "descriptive", "inference"],
            Seq::<&'static str>::empty(),
            "Statistics"@,
        ),
        (
            seq!["numer", "float", "fft", "lapack", "minpack", "lbfgs", "mnewton", "simplex", "cobyla", "hompack", "interpol", "rk_adaptive", "odepack", "colnew", "levin", "pslq"],
            Seq::<&'static str>::empty(),
            "Numerical"@,
        ),
        (
            seq!["unit", "physical_constant", "ezunit"],
            Seq::<&'static str>::empty(),
            "Other"@,
        ),
        (
            seq!["crypto", "finance", "misc", "share", "functs"],
            Seq::<&'static str>::empty(),
            "Other"@,
        ),
    ]
}

/// A topic that names a kind of definition is `Other`, even where a
/// pattern of some group occurs in it (`operator`, `property`).
pub proof fn lemma_definition_kinds_other(lower: Seq<char>)
    requires
        lower == "function"@ || lower == "variable"@ || lower == "option variable"@ || lower == "system variable"@ || lower == "system function"@ || lower == "special operator"@ || lower == "operator"@ || lower == "property"@ || lower == "declaration"@ || lower == "special symbol"@,
    ensures
        category_of(lower) == "Other"@,
{
    reveal_strlit("function");
    reveal_strlit("variable");
    reveal_strlit("option variable");
    reveal_strlit("system variable");
    reveal_strlit("system function");
    reveal_strlit("special operator");
    reveal_strlit("operator");
    reveal_strlit("property");
    reveal_strlit("declaration");
    reveal_strlit("special symbol");
    let t = definition_types();
    assert(t[0]@ == "function"@ && t[1]@ == "variable"@ && t[2]@ == "option variable"@ && t[3]@
        == "system variable"@ && t[4]@ == "system function"@ && t[5]@ == "special operator"@ && t[6]@
        == "operator"@ && t[7]@ == "property"@ && t[8]@ == "declaration"@ && t[9]@ == "special symbol"@);
}

/// A section title that starts with one of `Functions and Variables for `,
/// `Introduction to `, `Package ` or `Definitions for ` is classified by
/// what follows the prefix.
pub proof fn lemma_title_prefixes(t: Seq<char>)
    ensures
        strip_title_prefix("Functions and Variables for "@ + t) == t,
        strip_title_prefix("Introduction to "@ + t) == t,
        strip_title_prefix("Package "@ + t) == t,
        strip_title_prefix("Definitions for "@ + t) == t,
{
    let p = title_prefixes();
    reveal_strlit("Functions and Variables for ");
    reveal_strlit("Introduction to ");
    reveal_strlit("Package ");
    reveal_strlit("Definitions for ");
    let f = "Functions and Variables for "@;
    let i = "Introduction to "@;
    let k = "Package "@;
    let d = "Definitions for "@;
    assert(p[0]@ == f && p[1]@ == i && p[2]@ == k && p[3]@ == d);
    assert((f + t).subrange(0, f.len() as int) =~= f);
    assert((f + t).skip(f.len() as int) =~= t);
    assert((i + t).subrange(0, i.len() as int) =~= i);
    assert((i + t).skip(i.len() as int) =~= t);
    if has_prefix(i + t, f) {
        assert((i + t).subrange(0, f.len() as int)[0] == 'I');
    }
    assert((k + t).subrange(0, k.len() as int) =~= k);
    assert((k + t).skip(k.len() as int) =~= t);
    if has_prefix(k + t, f) {
        assert((k + t).subrange(0, f.len() as int)[0] == 'P');
    }
    if has_prefix(k + t, i) {
        assert((k + t).subrange(0, i.len() as int)[0] == 'P');
    }
    assert((d + t).subrange(0, d.len() as int) =~= d);
    assert((d + t).skip(d.len() as int) =~= t);
    if has_prefix(d + t, f) {
        assert((d + t).subrange(0, f.len() as int)[0] == 'D');
    }
    if has_prefix(d + t, i) {
        assert((d + t).subrange(0, i.len() as int)[0] == 'D');
    }
    if has_prefix(d + t, k) {
        assert((d + t).subrange(0, k.len() as int)[0] == 'D');
    }
}

/// The group takes the topic: one of its patterns occurs in it, and none of
/// the patterns that keep topics out.
pub open spec fn group_takes(
    lower: Seq<char>,
    g: (Seq<&'static str>, Seq<&'static str>, Seq<char>),
) -> bool {
    contains_any_spec(lower, g.0) && !contains_any_spec(lower, g.1)
}

spec fn first_group(
    lower: Seq<char>,
    gs: Seq<(Seq<&'static str>, Seq<&'static str>, Seq<char>)>,
    i: int,
) -> Seq<char>
    decreases gs.len() - i,
{
    if i < 0 || i >= gs.len() {
        "Other"@
    } else if group_takes(lower, gs[i]) {
        gs[i].2
    } else {
        first_group(lower, gs, i + 1)
    }
}

proof fn lemma_first_group_at(
    lower: Seq<char>,
    gs: Seq<(Seq<&'static str>, Seq<&'static str>, Seq<char>)>,
    i: int,
    g: int,
)
    requires
        0 <= i <= g <= gs.len(),
        forall|e: int| i <= e < g ==> !group_takes(lower, #[trigger] gs[e]),
    ensures
        g < gs.len() && group_takes(lower, gs[g]) ==> first_group(lower, gs, i) == gs[g].2,
        g == gs.len() ==> first_group(lower, gs, i) == "Other"@,
    decreases g - i,
{
    if i < g {
        assert(!group_takes(lower, gs[i]));
        lemma_first_group_at(lower, gs, i + 1, g);
    }
}

proof fn lemma_category_first_group(lower: Seq<char>)
    requires
        !is_definition_type_spec(lower),
    ensures
        category_of(lower) == first_group(lower, category_groups(), 0),
{
    let gs = category_groups();
    reveal_with_fuel(first_group, 20);
    assert(contains_any_spec(lower, gs[14].1) <==> contains(lower, "linear"@)) by {
        assert(gs[14].1[0]@ == "linear"@);
    }
    assert forall|k: int| 0 <= k < 19 && k != 14 implies !contains_any_spec(lower, #[trigger] gs[k].1) by {}
}

/// How a lowercased topic is classified, with the pattern groups given as
/// data in `category_groups`: a kind of definition (`function`, `option
/// variable`, ...) is `Other`; otherwise the first group, in that order,
/// that takes the topic gives its category, and a topic that no group takes
/// is `Other`.
pub proof fn lemma_category_groups(lower: Seq<char>)
    ensures
        is_definition_type_spec(lower) ==> category_of(lower) == "Other"@,
        forall|g: int|
            0 <= g < category_groups().len() && !is_definition_type_spec(lower) && group_takes(
                lower,
                #[trigger] category_groups()[g],
            ) && (forall|e: int| 0 <= e < g ==> !group_takes(lower, #[trigger] category_groups()[e]))
                ==> category_of(lower) == category_groups()[g].2,
        !is_definition_type_spec(lower) && (forall|e: int|
            0 <= e < category_groups().len() ==> !group_takes(lower, #[trigger] category_groups()[e]))
            ==> category_of(lower) == "Other"@,
{
    let gs = category_groups();
    if !is_definition_type_spec(lower) {
        lemma_category_first_group(lower);
        assert forall|g: int|
            0 <= g < gs.len() && group_takes(lower, #[trigger] gs[g]) && (forall|e: int|
                0 <= e < g ==> !group_takes(lower, #[trigger] gs[e])) implies category_of(lower) == gs[g].2 by {
            lemma_first_group_at(lower, gs, 0, g);
        }
        if forall|e: int| 0 <= e < gs.len() ==> !group_takes(lower, #[trigger] gs[e]) {
            lemma_first_group_at(lower, gs, 0, gs.len() as int);
        }
    }
}

pub(crate) fn title_prefix_stripped(raw: &str) -> (r: Vec<char>)
    ensures
        r@ == strip_title_prefix(raw@),
{
    let c = chars_of(raw);
    let ps = ["Functions and Variables for ", "Introduction to ", "Package ", "Definitions for "];
    assert(ps@ == title_prefixes());
    let mut i: usize = 0;
    while i < 4
        invariant
            i <= 4,
            ps@ == title_prefixes(),
            c@ == raw@,
            forall|j: int| 0 <= j < i ==> !has_prefix(raw@, #[trigger] title_prefixes()[j]@),
        decreases 4 - i,
    {
        let p = chars_of(ps[i]);
        if starts_with(c.as_slice(), p.as_slice()) {
            return slice_copy(c.as_slice(), p.len(), c.len());
        }
        i += 1;
    }
    c
}

/// The top-level category of an already lowercased topic string.
pub fn category_for(lower: &str) -> (r: String)
    ensures
        r@ == category_of(lower@),
{
    let name = if is_definition_type(lower) {
        "Other"
    } else if contains_any(lower, &["linear algebra", "matri", "vector", "eigen", "linearalgebra"]) {
        "LinearAlgebra"
    } else if contains_any(lower, &["trigonometr", "hyperbolic", "trigtools"]) {
        "SpecialFunctions"
    } else if contains_any(
        lower,
        &[
            "calcul",
            "integr",
            "differenti",
            "ode",
            "laplace",
            "quadpack",
            "romberg",
            "contrib_ode",
            "differential equation",
        ],
    ) {
        "Calculus"
    } else if contains_any(lower, &["simplif", "rational", "rules and pattern", "opsubst"]) {
        "Simplification"
    } else if contains_any(lower, &["solv", "equation", "to_poly_solve", "algsys"]) {
        "Algebra"
    } else if contains_any(
        lower,
        &["plot", "draw", "graph", "dynamics", "worldmap", "picture", "bode"],
    ) {
        "Plotting"
    } else if contains_any(lower, &["number theory", "prime", "number", "divis"]) {
        "NumberTheory"
    } else if contains_any(lower, &["polynom", "grobner", "algebraic", "ratpow"]) {
        "Algebra"
    } else if contains_any(
        lower,
        &[
            "series",
            "taylor",
            "fourier",
            "power series",
            "limit",
            "sum",
            "product",
            "zeilberger",
            "solve_rec",
        ],
    ) {
        "Calculus"
    } else if contains_any(lower, &["combinat", "set", "permut"]) {
        "Algebra"
    } else if contains_any(
        lower,
        &[
            "elliptic",
            "special function",
            "gamma",
            "bessel",
            "hypergeometric",
            "airy",
            "struve",
            "orthogonal poly",
            "orthopoly",
            "math",
        ],
    ) {
        "SpecialFunctions"
    } else if contains_any(
        lower,
        &[
            "input",
            "output",
            "file",
            "display",
            "print",
            "read",
            "string",
            "numericalio",
            "format",
            "fortran",
            "tex output",
            "f90",
            "gentran",
            "alt-display",
        ],
    ) {
        "IO"
    } else if contains_any(
        lower,
        &["tensor", "ctensor", "itensor", "atensor", "cartan", "frame", "affine"],
    ) {
        "Tensors"
    } else if contains_any(
        lower,
        &[
            "program",
            "flow",
            "function defin",
            "debug",
            "compile",
            "evaluation",
            "macro",
            "operator",
            "expression",
            "data type",
            "structure",
            "array",
            "list",
            "predicate",
            "propert",
            "database",
            "command line",
            "runtime",
            "help",
            "constant",
            "comment",
            "identifier",
            "reserved",
        ],
    ) {
        "Programming"
    } else if contains_any(lower, &["algebra", "sym"]) && !contains_chars(
        chars_of(lower).as_slice(),
        chars_of("linear").as_slice(),
    ) {
        "Algebra"
    } else if contains_any(
        lower,
        &["stat", "distrib", "random", "lsquare", "descriptive", "inference"],
    ) {
        "Statistics"
    } else if contains_any(
        lower,
        &[
            "numer",
            "float",
            "fft",
            "lapack",
            "minpack",
            "lbfgs",
            "mnewton",
            "simplex",
            "cobyla",
            "hompack",
            "interpol",
            "rk_adaptive",
            "odepack",
            "colnew",
            "levin",
            "pslq",
        ],
    ) {
        "Numerical"
    } else if contains_any(lower, &["unit", "physical_constant", "ezunit"]) {
        "Other"
    } else {
        "Other"
    };
    name.to_owned()
}

/// Every topic falls in one of the thirteen top-level categories.
pub proof fn lemma_category_is_top_level(lower: Seq<char>)
    ensures
        top_categories().contains(category_of(lower)),
{
    let t = top_categories();
    let c = category_of(lower);
    let i = if c == "LinearAlgebra"@ {
        0
    } else if c == "Calculus"@ {
        1
    } else if c == "Simplification"@ {
        2
    } else if c == "Algebra"@ {
        3
    } else if c == "Plotting"@ {
        4
    } else if c == "NumberTheory"@ {
        5
    } else if c == "SpecialFunctions"@ {
        6
    } else if c == "IO"@ {
        7
    } else if c == "Tensors"@ {
        8
    } else if c == "Programming"@ {
        9
    } else if c == "Statistics"@ {
        10
    } else if c == "Numerical"@ {
        11
    } else {
        12int
    };
    assert(t[i] == c);
}

/// Maps a raw Maxima category or section title to one of the thirteen
/// top-level categories:
/// the common title prefixes are removed, the rest is lowercased and
/// classified by [`category_for`].
pub fn map_category(raw: &str) -> (r: String)
    ensures
        r@ == category_of(lowercase(strip_title_prefix(raw@))),
        top_categories().contains(r@),
        is_ascii_text(strip_title_prefix(raw@)) ==> r@ == category_of(
            ascii_lowercase(strip_title_prefix(raw@)),
        ),
{
    proof {
        lemma_category_is_top_level(lowercase(strip_title_prefix(raw@)));
    }
    let stripped = string_of(title_prefix_stripped(raw).as_slice());
    let lower = to_lowercase(stripped.as_str());
    category_for(lower.as_str())
}

/// The category that `map_category` gives ASCII text.
pub open spec fn ascii_category(raw: Seq<char>) -> Seq<char> {
    category_of(ascii_lowercase(strip_title_prefix(raw)))
}

/// Classification ignores ASCII case. Take ASCII text that, lowercased,
/// starts with none of the title prefixes lowercased: the text, its
/// lowercase and its uppercase form keep their text through the prefix
/// stripping, stay ASCII (so `map_category`'s ASCII clause covers each), and
/// get the same category.
pub proof fn lemma_category_ignores_ascii_case(raw: Seq<char>)
    requires
        is_ascii_text(raw),
        forall|k: int|
            0 <= k < 4 ==> !has_prefix(
                ascii_lowercase(raw),
                ascii_lowercase(#[trigger] title_prefixes()[k]@),
            ),
    ensures
        strip_title_prefix(raw) == raw,
        strip_title_prefix(ascii_lowercase(raw)) == ascii_lowercase(raw),
        strip_title_prefix(ascii_uppercase(raw)) == ascii_uppercase(raw),
        is_ascii_text(ascii_lowercase(raw)),
        is_ascii_text(ascii_uppercase(raw)),
        ascii_category(ascii_lowercase(raw)) == ascii_category(raw),
        ascii_category(ascii_uppercase(raw)) == ascii_category(raw),
{
    let l = ascii_lowercase(raw);
    let u = ascii_uppercase(raw);
    lemma_ascii_case(raw);
    let p = title_prefixes();
    assert forall|k: int| 0 <= k < 4 implies !has_prefix(raw, #[trigger] p[k]@) && !has_prefix(l, p[k]@)
        && !has_prefix(u, p[k]@) by {
        assert(!has_prefix(l, ascii_lowercase(p[k]@)));
        if has_prefix(raw, p[k]@) {
            lemma_ascii_lowercase_prefix(raw, p[k]@);
        }
        if has_prefix(l, p[k]@) {
            lemma_ascii_lowercase_prefix(l, p[k]@);
        }
        if has_prefix(u, p[k]@) {
            lemma_ascii_lowercase_prefix(u, p[k]@);
        }
    }
    assert(!has_prefix(raw, p[0]@) && !has_prefix(raw, p[1]@) && !has_prefix(raw, p[2]@) && !has_prefix(raw, p[3]@));
    assert(!has_prefix(l, p[0]@) && !has_prefix(l, p[1]@) && !has_prefix(l, p[2]@) && !has_prefix(l, p[3]@));
    assert(!has_prefix(u, p[0]@) && !has_prefix(u, p[1]@) && !has_prefix(u, p[2]@) && !has_prefix(u, p[3]@));
}

// ---------------------------------------------------------------------------
// Headings and file names
// ---------------------------------------------------------------------------

/// The first `(` or `[` of `sig` at or after `i`, or the length.
pub open spec fn list_start(sig: Seq<char>, i: int) -> int
    decreases sig.len() - i,
{
    if i < 0 || i >= sig.len() {
        sig.len() as int
    } else if sig[i] == '(' || sig[i] == '[' {
        i
    } else {
        list_start(sig, i + 1)
    }
}

proof fn lemma_list_start(sig: Seq<char>, i: int)
    requires
        0 <= i <= sig.len(),
    ensures
        i <= list_start(sig, i) <= sig.len(),
        list_start(sig, i) < sig.len() ==> (sig[list_start(sig, i)] == '(' || sig[list_start(sig, i)] == '['),
        forall|k: int| i <= k < list_start(sig, i) ==> sig[k] != '(' && sig[k] != '[',
    decreases sig.len() - i,
{
    if i < sig.len() && sig[i] != '(' && sig[i] != '[' {
        lemma_list_start(sig, i + 1);
    }
}

/// An argument part without one pair of enclosing parentheses.
pub open spec fn unparenthesised(rest: Seq<char>) -> Seq<char> {
    if rest.len() >= 2 && rest[0] == '(' && rest[rest.len() - 1] == ')' {
        rest.subrange(1, rest.len() - 1)
    } else {
        rest
    }
}

/// The argument part of a signature for a `### Function:` heading: what
/// follows `name`, trimmed, without one pair of enclosing parentheses; where
/// the signature does not start with `name`, or nothing follows it, the
/// same from its first `(` or `[` on. `None` when the signature has no
/// argument list at all.
pub open spec fn heading_args(sig: Seq<char>, name: Seq<char>) -> Option<Seq<char>> {
    let after = if has_prefix(sig, name) {
        trim(sig.skip(name.len() as int))
    } else {
        Seq::empty()
    };
    if after.len() > 0 {
        Some(unparenthesised(after))
    } else {
        let p = list_start(sig, 0);
        if p < sig.len() {
            Some(unparenthesised(trim(sig.skip(p))))
        } else {
            None
        }
    }
}

fn unparenthesised_exec(rest: &Vec<char>) -> (r: String)
    ensures
        r@ == unparenthesised(rest@),
{
    if rest.len() >= 2 && rest[0] == '(' && rest[rest.len() - 1] == ')' {
        string_of(slice_copy(rest.as_slice(), 1, rest.len() - 1).as_slice())
    } else {
        string_of(rest.as_slice())
    }
}

/// The argument part is missing exactly when the signature has no `(` or
/// `[` and nothing but whitespace follows `name` at its start (or it does
/// not start with `name`).
pub proof fn lemma_heading_args_none(sig: Seq<char>, name: Seq<char>)
    ensures
        heading_args(sig, name) is None <==> (forall|k: int|
            0 <= k < sig.len() ==> sig[k] != '(' && sig[k] != '[') && !(has_prefix(sig, name) && trim(
            sig.skip(name.len() as int),
        ).len() > 0),
{
    lemma_list_start(sig, 0);
}

/// The argument part of `sig` after the function name `name`
/// (`diff(expr, x)` gives `expr, x`; `%f[p, q](z)` gives `[p, q](z)`);
/// `None` only when the signature has no argument list.
pub fn extract_heading_args(sig: &str, name: &str) -> (r: Option<String>)
    ensures
        match r {
            Some(a) => heading_args(sig@, name@) == Some(a@),
            None => heading_args(sig@, name@) is None,
        },
        r is None ==> forall|k: int| 0 <= k < sig@.len() ==> sig@[k] != '(' && sig@[k] != '[',
{
    let s = chars_of(sig);
    let n = chars_of(name);
    if starts_with(s.as_slice(), n.as_slice()) {
        let after = slice_copy(s.as_slice(), n.len(), s.len());
        assert(after@ =~= sig@.skip(name@.len() as int));
        let rest = trimmed(after.as_slice());
        if rest.len() > 0 {
            return Some(unparenthesised_exec(&rest));
        }
    }
    let mut p: usize = 0;
    while p < s.len() && s[p] != '(' && s[p] != '['
        invariant
            p <= s@.len(),
            s@ == sig@,
            list_start(sig@, p as int) == list_start(sig@, 0),
        decreases s@.len() - p,
    {
        p += 1;
    }
    proof {
        lemma_list_start(sig@, 0);
    }
    if p < s.len() {
        let tail = slice_copy(s.as_slice(), p, s.len());
        assert(tail@ =~= sig@.skip(p as int));
        let rest = trimmed(tail.as_slice());
        Some(unparenthesised_exec(&rest))
    } else {
        None
    }
}

/// Slug of the first `n` characters: runs of alphanumeric characters joined
/// by single hyphens; the flag tells whether a separator is pending.
pub open spec fn slug_run(s: Seq<char>, n: int) -> (Seq<char>, bool)
    decreases n,
{
    if n <= 0 {
        (Seq::empty(), false)
    } else {
        let prev = slug_run(s, n - 1);
        let c = s[n - 1];
        if alphanumeric(c) {
            if prev.1 {
                (prev.0 + seq!['-', c], false)
            } else {
                (prev.0.push(c), false)
            }
        } else {
            (prev.0, prev.0.len() > 0)
        }
    }
}

/// The maximal runs of alphanumeric characters of `s`, joined by single hyphens.
pub open spec fn slug(s: Seq<char>) -> Seq<char> {
    slug_run(s, s.len() as int).0
}

/// A file-name slug: the lowercased string with every run of
/// non-alphanumeric characters turned into one hyphen, none at either end.
pub fn slugify(s: &str) -> (r: String)
    ensures
        r@ == slug(lowercase(s@)),
{
    let lower = to_lowercase(s);
    let c = chars_of(lower.as_str());
    let mut out: Vec<char> = Vec::new();
    let mut gap = false;
    let mut i: usize = 0;
    while i < c.len()
        invariant
            i <= c@.len(),
            c@ == lowercase(s@),
            (out@, gap) == slug_run(c@, i as int),
        decreases c@.len() - i,
    {
        let ch = c[i];
        if is_alphanumeric(ch) {
            if gap {
                out.push('-');
            }
            out.push(ch);
            gap = false;
        } else {
            gap = out.len() > 0;
        }
        i += 1;
        assert((out@, gap) == slug_run(c@, i as int));
    }
    string_of(out.as_slice())
}

// ---------------------------------------------------------------------------
// Markdown
// ---------------------------------------------------------------------------

/// The `### ...` heading line of a symbol.
pub open spec fn symbol_heading(s: ExtractedV) -> Seq<char> {
    if s.symbol_type == "Function"@ {
        let sig = if s.signatures.len() > 0 { s.signatures[0] } else { s.name };
        match heading_args(sig, s.name) {
            Some(a) => "### Function: "@ + s.name + " ("@ + a + ")\n\n"@,
            None => "### Function: "@ + s.name + "\n\n"@,
        }
    } else {
        "### Variable: "@ + s.name + "\n\n"@
    }
}

pub open spec fn backticked(v: Seq<Seq<char>>) -> Seq<Seq<char>> {
    Seq::new(v.len(), |i: int| "`"@ + v[i] + "`"@)
}

/// The metadata comments of a symbol: its category, then its keywords and
/// its signatures where it has any.
pub open spec fn meta_md(s: ExtractedV) -> Seq<char> {
    "<!-- category: "@ + s.category + " -->\n"@ + (if s.keywords.len() > 0 {
        "<!-- keywords: "@ + join(s.keywords, ", "@) + " -->\n"@
    } else {
        Seq::empty()
    }) + (if s.signatures.len() > 0 {
        "<!-- signatures: "@ + join(s.signatures, ", "@) + " -->\n"@
    } else {
        Seq::empty()
    })
}

/// The body of a symbol and its `See also:` line, each where present.
pub open spec fn tail_md(s: ExtractedV) -> Seq<char> {
    (if s.body_md.len() > 0 {
        s.body_md + "\n\n"@
    } else {
        Seq::empty()
    }) + (if s.see_also.len() > 0 {
        "See also: "@ + join(backticked(s.see_also), ", "@) + ".\n\n"@
    } else {
        Seq::empty()
    })
}

/// The markdown of one symbol: metadata comments, heading, body and
/// `See also:` line.
pub open spec fn symbol_md(s: ExtractedV) -> Seq<char> {
    meta_md(s) + symbol_heading(s) + tail_md(s)
}

/// The markdown of the first `n` symbols, in order.
pub open spec fn symbols_md(ss: Seq<ExtractedV>, n: int) -> Seq<char>
    decreases n,
{
    if n <= 0 {
        Seq::empty()
    } else {
        symbols_md(ss, n - 1) + symbol_md(ss[n - 1])
    }
}

pub open spec fn sym_views(v: Seq<&ExtractedSymbol>) -> Seq<ExtractedV> {
    Seq::new(v.len(), |i: int| v[i]@)
}

fn heading_line(sym: &ExtractedSymbol, out: &mut Vec<char>)
    ensures
        final(out)@ == old(out)@ + symbol_heading(sym@),
{
    let t = chars_of_string(&sym.symbol_type);
    let f = chars_of("Function");
    if eq_chars(t.as_slice(), f.as_slice()) {
        let sig: &String = if sym.signatures.len() > 0 { &sym.signatures[0] } else { &sym.name };
        assert(sym.signatures@.len() > 0 ==> sym@.signatures[0] == sym.signatures@[0]@);
        match extract_heading_args(sig.as_str(), sym.name.as_str()) {
            Some(a) => {
                push_str(out, "### Function: ");
                push_str(out, sym.name.as_str());
                push_str(out, " (");
                push_str(out, a.as_str());
                push_str(out, ")\n\n");
            },
            None => {
                push_str(out, "### Function: ");
                push_str(out, sym.name.as_str());
                push_str(out, "\n\n");
            },
        }
    } else {
        push_str(out, "### Variable: ");
        push_str(out, sym.name.as_str());
        push_str(out, "\n\n");
    }
}

fn backticked_strings(v: &Vec<String>) -> (r: Vec<String>)
    ensures
        strs(r@) == backticked(strs(v@)),
{
    let mut out: Vec<String> = Vec::new();
    let mut i: usize = 0;
    while i < v.len()
        invariant
            i <= v@.len(),
            strs(out@) == backticked(strs(v@)).subrange(0, i as int),
        decreases v@.len() - i,
    {
        let mut c: Vec<char> = Vec::new();
        push_str(&mut c, "`");
        push_str(&mut c, v[i].as_str());
        push_str(&mut c, "`");
        let s = string_of(c.as_slice());
        proof {
            crate::text::lemma_strs_push(out@, s);
        }
        out.push(s);
        i += 1;
        assert(strs(out@) =~= backticked(strs(v@)).subrange(0, i as int));
    }
    assert(backticked(strs(v@)).subrange(0, v@.len() as int) =~= backticked(strs(v@)));
    out
}

fn meta_lines(sym: &ExtractedSymbol, out: &mut Vec<char>)
    ensures
        final(out)@ == old(out)@ + meta_md(sym@),
{
    let ghost o = out@;
    push_str(out, "<!-- category: ");
    push_str(out, sym.category.as_str());
    push_str(out, " -->\n");
    let ghost a = out@;
    if sym.keywords.len() > 0 {
        push_str(out, "<!-- keywords: ");
        let k = join_strings(&sym.keywords, ", ");
        push_all(out, k.as_slice());
        push_str(out, " -->\n");
    }
    let ghost b = out@;
    if sym.signatures.len() > 0 {
        push_str(out, "<!-- signatures: ");
        let k = join_strings(&sym.signatures, ", ");
        push_all(out, k.as_slice());
        push_str(out, " -->\n");
    }
    assert(out@ =~= o + meta_md(sym@));
}

fn tail_lines(sym: &ExtractedSymbol, out: &mut Vec<char>)
    ensures
        final(out)@ == old(out)@ + tail_md(sym@),
{
    let ghost o = out@;
    if !sym.body_md.as_str().is_empty() {
        push_str(out, sym.body_md.as_str());
        push_str(out, "\n\n");
    }
    let ghost e = out@;
    if sym.see_also.len() > 0 {
        push_str(out, "See also: ");
        let refs = backticked_strings(&sym.see_also);
        let k = join_strings(&refs, ", ");
        push_all(out, k.as_slice());
        push_str(out, ".\n\n");
    }
    assert(out@ =~= o + tail_md(sym@));
}

fn symbol_markdown(sym: &ExtractedSymbol, out: &mut Vec<char>)
    ensures
        final(out)@ == old(out)@ + symbol_md(sym@),
{
    let ghost o = out@;
    meta_lines(sym, out);
    heading_line(sym, out);
    tail_lines(sym, out);
    assert(out@ =~= o + symbol_md(sym@));
}

/// Appends to `content`, for each symbol in order, its metadata comments
/// (category; keywords and signatures where there are any), its heading,
/// its body and its `See also:` line.
pub fn emit_symbols(content: &mut String, syms: &[&ExtractedSymbol])
    ensures
        final(content)@ == old(content)@ + symbols_md(sym_views(syms@), syms@.len() as int),
{
    let mut out = chars_of_string(content);
    let mut i: usize = 0;
    while i < syms.len()
        invariant
            i <= syms@.len(),
            out@ == old(content)@ + symbols_md(sym_views(syms@), i as int),
        decreases syms@.len() - i,
    {
        symbol_markdown(syms[i], &mut out);
        i += 1;
    }
    *content = string_of(out.as_slice());
}

/// The text of the main documentation file: a fixed introduction, then one
/// section per category listing an include directive for each of its files.
pub open spec fn main_doc(groups: Seq<(Seq<char>, Seq<Seq<char>>)>, n: int) -> Seq<char>
    decreases n,
{
    if n <= 0 {
        "# Maxima Core Documentation\n\n## Introduction\n\nReference documentation for Maxima's built-in functions and variables,\ngenerated from the official Maxima Texinfo source.\n\n"@
    } else {
        main_doc(groups, n - 1) + "## "@ + groups[n - 1].0 + "\n\n"@ + includes(groups[n - 1].1, groups[n - 1].1.len() as int) + "\n"@
    }
}

/// One include directive line per file, in order.
pub open spec fn includes(files: Seq<Seq<char>>, n: int) -> Seq<char>
    decreases n,
{
    if n <= 0 {
        Seq::empty()
    } else {
        includes(files, n - 1) + "<!-- include: "@ + files[n - 1] + " -->\n"@
    }
}

pub open spec fn group_views(v: Seq<(String, Vec<String>)>) -> Seq<(Seq<char>, Seq<Seq<char>>)> {
    Seq::new(v.len(), |i: int| (v[i].0@, strs(v[i].1@)))
}

/// The text of the main documentation file for `(category, files)` groups.
pub fn main_doc_content(category_groups: &Vec<(String, Vec<String>)>) -> (r: String)
    ensures
        r@ == main_doc(group_views(category_groups@), category_groups@.len() as int),
{
    let mut out: Vec<char> = Vec::new();
    push_str(&mut out, "# Maxima Core Documentation\n\n");
    push_str(&mut out, "## Introduction\n\n");
    push_str(
        &mut out,
        "Reference documentation for Maxima's built-in functions and variables,\ngenerated from the official Maxima Texinfo source.\n\n",
    );
    proof {
        reveal_strlit("# Maxima Core Documentation\n\n");
        reveal_strlit("## Introduction\n\n");
        reveal_strlit("Reference documentation for Maxima's built-in functions and variables,\ngenerated from the official Maxima Texinfo source.\n\n");
        reveal_strlit("# Maxima Core Documentation\n\n## Introduction\n\nReference documentation for Maxima's built-in functions and variables,\ngenerated from the official Maxima Texinfo source.\n\n");
    }
    assert(out@ =~= main_doc(group_views(category_groups@), 0));
    let mut i: usize = 0;
    while i < category_groups.len()
        invariant
            i <= category_groups@.len(),
            out@ == main_doc(group_views(category_groups@), i as int),
        decreases category_groups@.len() - i,
    {
        let ghost before = out@;
        let (category, files) = &category_groups[i];
        push_str(&mut out, "## ");
        push_str(&mut out, category.as_str());
        push_str(&mut out, "\n\n");
        let ghost mid = out@;
        let mut j: usize = 0;
        while j < files.len()
            invariant
                j <= files@.len(),
                out@ == mid + includes(strs(files@), j as int),
            decreases files@.len() - j,
        {
            push_str(&mut out, "<!-- include: ");
            push_str(&mut out, files[j].as_str());
            push_str(&mut out, " -->\n");
            j += 1;
        }
        push_str(&mut out, "\n");
        i += 1;
        assert(group_views(category_groups@)[i - 1] == (category@, strs(files@)));
    }
    string_of(out.as_slice())
}

/// The `manifest.toml` of the generated core documentation package, for a
/// Maxima version.
pub fn core_docs_manifest(version: &str) -> (r: String)
    ensures
        r@ == "[package]\nname = \"maxima-core-docs\"\nversion = \""@ + version@
            + "\"\ndescription = \"Reference documentation for Maxima built-in functions and variables\"\nlicense = \"GPL-2.0-or-later\"\nentry = \"maxima_core_docs.mac\"\ndoc = \"doc/maxima-core-docs.md\"\nkeywords = [\"documentation\", \"core\", \"reference\"]\n"@,
{
    let mut out: Vec<char> = Vec::new();
    push_str(&mut out, "[package]\nname = \"maxima-core-docs\"\nversion = \"");
    push_str(&mut out, version);
    push_str(
        &mut out,
        "\"\ndescription = \"Reference documentation for Maxima built-in functions and variables\"\nlicense = \"GPL-2.0-or-later\"\nentry = \"maxima_core_docs.mac\"\ndoc = \"doc/maxima-core-docs.md\"\nkeywords = [\"documentation\", \"core\", \"reference\"]\n",
    );
    string_of(out.as_slice())
}

} // verus!
