//! Splitting documentation markdown into section and symbol blocks.
use vstd::prelude::*;
use crate::text::{
    chars_of, has_prefix, lemma_views_push, lines, push_all, split_lines, starts_with, views,
};
use super::grammar::{
    func_heading, func_signature, func_signature_exec, list_items, match_func_heading,
    match_meta_line, match_section_heading, match_var_heading, meta_line, section_heading,
    split_list, var_heading, MetaKey,
};

verus! {

/// Metadata gathered from comments before a definition heading.
pub struct Meta {
    pub category: Option<Vec<char>>,
    pub keywords: Vec<Vec<char>>,
    pub signatures: Vec<Vec<char>>,
}

pub struct MetaV {
    pub category: Option<Seq<char>>,
    pub keywords: Seq<Seq<char>>,
    pub signatures: Seq<Seq<char>>,
}

pub open spec fn oview(o: Option<Vec<char>>) -> Option<Seq<char>> {
    match o {
        Some(v) => Some(v@),
        None => None,
    }
}

impl View for Meta {
    type V = MetaV;

    open spec fn view(&self) -> MetaV {
        MetaV {
            category: oview(self.category),
            keywords: views(self.keywords@),
            signatures: views(self.signatures@),
        }
    }
}

pub open spec fn empty_meta() -> MetaV {
    MetaV { category: None, keywords: Seq::empty(), signatures: Seq::empty() }
}

/// What a metadata comment does to the pending metadata.
pub open spec fn apply_meta(m: MetaV, k: MetaKey, v: Seq<char>) -> MetaV {
    match k {
        MetaKey::Category => MetaV { category: Some(v), ..m },
        MetaKey::Keywords => MetaV { keywords: list_items(v), ..m },
        MetaKey::Signatures => MetaV { signatures: list_items(v), ..m },
    }
}

/// A definition heading: name, type (`Function` or `Variable`), signature, metadata.
pub struct SymbolKind {
    pub name: Vec<char>,
    pub symbol_type: Vec<char>,
    pub signature: Vec<char>,
    pub meta: Meta,
}

pub struct KindV {
    pub name: Seq<char>,
    pub symbol_type: Seq<char>,
    pub signature: Seq<char>,
    pub meta: MetaV,
}

impl View for SymbolKind {
    type V = KindV;

    open spec fn view(&self) -> KindV {
        KindV {
            name: self.name@,
            symbol_type: self.symbol_type@,
            signature: self.signature@,
            meta: self.meta@,
        }
    }
}

/// A block of the document: a `##` section or a `###` definition, with its body.
pub enum ParsedBlock {
    Section { title: Vec<char>, body: Vec<char> },
    Symbol { kind: SymbolKind, body: Vec<char> },
}

pub enum BlockV {
    Section { title: Seq<char>, body: Seq<char> },
    Symbol { kind: KindV, body: Seq<char> },
}

impl View for ParsedBlock {
    type V = BlockV;

    open spec fn view(&self) -> BlockV {
        match self {
            ParsedBlock::Section { title, body } => BlockV::Section { title: title@, body: body@ },
            ParsedBlock::Symbol { kind, body } => BlockV::Symbol { kind: kind@, body: body@ },
        }
    }
}

pub open spec fn block_views(v: Seq<ParsedBlock>) -> Seq<BlockV> {
    Seq::new(v.len(), |i: int| v[i]@)
}

/// The heading of the block being read.
pub enum Head {
    Section(Vec<char>),
    Symbol(SymbolKind),
}

pub enum HeadV {
    Section(Seq<char>),
    Symbol(KindV),
}

impl View for Head {
    type V = HeadV;

    open spec fn view(&self) -> HeadV {
        match self {
            Head::Section(t) => HeadV::Section(t@),
            Head::Symbol(k) => HeadV::Symbol(k@),
        }
    }
}

pub open spec fn head_oview(h: Option<Head>) -> Option<HeadV> {
    match h {
        Some(x) => Some(x@),
        None => None,
    }
}

pub open spec fn block_of(h: HeadV, body: Seq<char>) -> BlockV {
    match h {
        HeadV::Section(t) => BlockV::Section { title: t, body },
        HeadV::Symbol(k) => BlockV::Symbol { kind: k, body },
    }
}

/// State of the splitter between lines.
pub struct SplitV {
    pub blocks: Seq<BlockV>,
    pub current: Option<HeadV>,
    pub body: Seq<char>,
    pub pending: MetaV,
}

/// Closing the block being read, if any.
pub open spec fn flush_v(st: SplitV) -> SplitV {
    match st.current {
        Some(h) => SplitV {
            blocks: st.blocks.push(block_of(h, st.body)),
            current: None,
            body: Seq::empty(),
            pending: st.pending,
        },
        None => SplitV { body: Seq::empty(), ..st },
    }
}

/// What one line does to the splitter.
pub open spec fn split_step(st: SplitV, l: Seq<char>) -> SplitV {
    if section_heading(l) is Some {
        let f = flush_v(st);
        SplitV {
            current: Some(HeadV::Section(section_heading(l)->0)),
            pending: empty_meta(),
            ..f
        }
    } else if func_heading(l) is Some {
        let f = flush_v(st);
        let (name, args) = func_heading(l)->0;
        SplitV {
            current: Some(
                HeadV::Symbol(
                    KindV {
                        name,
                        symbol_type: "Function"@,
                        signature: func_signature(name, args),
                        meta: st.pending,
                    },
                ),
            ),
            pending: empty_meta(),
            ..f
        }
    } else if var_heading(l) is Some {
        let f = flush_v(st);
        let name = var_heading(l)->0;
        SplitV {
            current: Some(
                HeadV::Symbol(
                    KindV { name, symbol_type: "Variable"@, signature: name, meta: st.pending },
                ),
            ),
            pending: empty_meta(),
            ..f
        }
    } else if meta_line(l) is Some {
        let (k, v) = meta_line(l)->0;
        SplitV { pending: apply_meta(st.pending, k, v), ..st }
    } else if has_prefix(l, "# "@) && st.current is None {
        st
    } else if st.current is Some {
        SplitV { body: st.body + l + seq!['\n'], ..st }
    } else {
        st
    }
}

pub open spec fn split_init() -> SplitV {
    SplitV { blocks: Seq::empty(), current: None, body: Seq::empty(), pending: empty_meta() }
}

/// The splitter state after the first `n` lines.
pub open spec fn split_run(ls: Seq<Seq<char>>, n: int) -> SplitV
    decreases n,
{
    if n <= 0 {
        split_init()
    } else {
        split_step(split_run(ls, n - 1), ls[n - 1])
    }
}

/// The blocks of a document: every line read, then the last block closed.
pub open spec fn doc_blocks(content: Seq<char>) -> Seq<BlockV> {
    let ls = lines(content);
    flush_v(split_run(ls, ls.len() as int)).blocks
}

fn clone_chars(v: &Vec<char>) -> (r: Vec<char>)
    ensures
        r@ == v@,
{
    let mut r: Vec<char> = Vec::new();
    push_all(&mut r, v.as_slice());
    r
}

fn new_meta() -> (r: Meta)
    ensures
        r@ == empty_meta(),
{
    let r = Meta { category: None, keywords: Vec::new(), signatures: Vec::new() };
    assert(views(r.keywords@) =~= Seq::<Seq<char>>::empty());
    assert(views(r.signatures@) =~= Seq::<Seq<char>>::empty());
    r
}

fn take_meta(m: &mut Meta) -> (r: Meta)
    ensures
        r@ == old(m)@,
        final(m)@ == empty_meta(),
{
    let mut fresh = new_meta();
    std::mem::swap(m, &mut fresh);
    fresh
}

/// Closes the block being read, if any.
fn flush_block(current: &mut Option<Head>, body: &mut Vec<char>, blocks: &mut Vec<ParsedBlock>)
    ensures
        ({
            let before = SplitV {
                blocks: block_views(old(blocks)@),
                current: head_oview(*old(current)),
                body: old(body)@,
                pending: empty_meta(),
            };
            let after = flush_v(before);
            &&& block_views(final(blocks)@) == after.blocks
            &&& final(current).is_none()
            &&& final(body)@ == after.body
        }),
{
    let mut b: Vec<char> = Vec::new();
    std::mem::swap(body, &mut b);
    let cur = current.take();
    match cur {
        Some(h) => {
            let blk = match h {
                Head::Section(t) => ParsedBlock::Section { title: t, body: b },
                Head::Symbol(k) => ParsedBlock::Symbol { kind: k, body: b },
            };
            let ghost o = blocks@;
            let ghost bv = blk;
            blocks.push(blk);
            assert(block_views(blocks@) =~= block_views(o).push(bv@));
        },
        None => {},
    }
}

/// Splits documentation markdown into section and symbol blocks.
pub fn split_into_blocks(content: &[char]) -> (r: Vec<ParsedBlock>)
    ensures
        block_views(r@) == doc_blocks(content@),
{
    let ls = split_lines(content);
    let function_word = chars_of("Function");
    let variable_word = chars_of("Variable");
    let top = chars_of("# ");
    let mut blocks: Vec<ParsedBlock> = Vec::new();
    let mut current: Option<Head> = None;
    let mut body: Vec<char> = Vec::new();
    let mut pending = new_meta();
    assert(block_views(blocks@) =~= Seq::<BlockV>::empty());
    let mut i: usize = 0;
    while i < ls.len()
        invariant
            i <= ls@.len(),
            views(ls@) == lines(content@),
            function_word@ == "Function"@,
            variable_word@ == "Variable"@,
            top@ == "# "@,
            split_run(views(ls@), i as int) == (SplitV {
                blocks: block_views(blocks@),
                current: head_oview(current),
                body: body@,
                pending: pending@,
            }),
        decreases ls@.len() - i,
    {
        let line = ls[i].as_slice();
        assert(line@ == views(ls@)[i as int]);
        let ghost st = split_run(views(ls@), i as int);
        let ghost nxt = split_step(st, line@);
        if let Some(title) = match_section_heading(line) {
            flush_block(&mut current, &mut body, &mut blocks);
            current = Some(Head::Section(title));
            pending = new_meta();
        } else if let Some((name, args)) = match_func_heading(line) {
            flush_block(&mut current, &mut body, &mut blocks);
            let signature = func_signature_exec(name.as_slice(), args.as_slice());
            let meta = take_meta(&mut pending);
            current = Some(
                Head::Symbol(
                    SymbolKind {
                        name,
                        symbol_type: clone_chars(&function_word),
                        signature,
                        meta,
                    },
                ),
            );
        } else if let Some(name) = match_var_heading(line) {
            flush_block(&mut current, &mut body, &mut blocks);
            let signature = clone_chars(&name);
            let meta = take_meta(&mut pending);
            current = Some(
                Head::Symbol(
                    SymbolKind {
                        name,
                        symbol_type: clone_chars(&variable_word),
                        signature,
                        meta,
                    },
                ),
            );
        } else if let Some((k, v)) = match_meta_line(line) {
            match k {
                MetaKey::Category => {
                    pending.category = Some(v);
                },
                MetaKey::Keywords => {
                    pending.keywords = split_list(v.as_slice());
                },
                MetaKey::Signatures => {
                    pending.signatures = split_list(v.as_slice());
                },
            }
        } else if starts_with(line, top.as_slice()) && current.is_none() {
        } else if current.is_some() {
            push_all(&mut body, line);
            body.push('\n');
        }
        assert(block_views(blocks@) == nxt.blocks);
        assert(head_oview(current) == nxt.current);
        assert(body@ == nxt.body);
        assert(pending@ == nxt.pending);
        i += 1;
    }
    flush_block(&mut current, &mut body, &mut blocks);
    blocks
}

} // verus!
