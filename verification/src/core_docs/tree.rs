//! The element tree of a Texinfo XML document, as plain values.
use vstd::prelude::*;
use super::xml::pair_views;
use crate::index::opt_view;

verus! {

/// What kind of node an XML node is.
#[derive(Debug, Clone, Copy, PartialEq, Eq, Structural)]
pub enum XmlKind {
    Root,
    Element,
    Pi,
    Comment,
    Text,
}

/// One node of a parsed document, in document order, with the id of its
/// parent. `text` is what the parser reports as the node's text.
pub struct XmlItem {
    pub id: usize,
    pub parent: Option<usize>,
    pub kind: XmlKind,
    pub tag: String,
    pub attrs: Vec<(String, String)>,
    pub text: Option<String>,
}

pub struct ItemV {
    pub id: usize,
    pub parent: Option<usize>,
    pub kind: XmlKind,
    pub tag: Seq<char>,
    pub attrs: Seq<(Seq<char>, Seq<char>)>,
    pub text: Option<Seq<char>>,
}

impl View for XmlItem {
    type V = ItemV;

    open spec fn view(&self) -> ItemV {
        ItemV {
            id: self.id,
            parent: self.parent,
            kind: self.kind,
            tag: self.tag@,
            attrs: pair_views(self.attrs@),
            text: opt_view(self.text),
        }
    }
}

pub open spec fn item_views(v: Seq<XmlItem>) -> Seq<ItemV> {
    Seq::new(v.len(), |i: int| v[i]@)
}

/// A node with its children.
pub struct XmlNode {
    pub kind: XmlKind,
    pub tag: String,
    pub attrs: Vec<(String, String)>,
    pub text: Option<String>,
    pub children: Vec<XmlNode>,
}

/// A node with its children, every string taken by its view.
pub struct XmlTree {
    pub kind: XmlKind,
    pub tag: Seq<char>,
    pub attrs: Seq<(Seq<char>, Seq<char>)>,
    pub text: Option<Seq<char>>,
    pub children: Seq<XmlTree>,
}

pub open spec fn tree_of(n: XmlNode) -> XmlTree
    decreases n,
{
    XmlTree {
        kind: n.kind,
        tag: n.tag@,
        attrs: pair_views(n.attrs@),
        text: opt_view(n.text),
        children: trees_of(n.children@),
    }
}

pub open spec fn trees_of(cs: Seq<XmlNode>) -> Seq<XmlTree>
    decreases cs,
{
    if cs.len() == 0 {
        Seq::empty()
    } else {
        trees_of(cs.drop_last()).push(tree_of(cs.last()))
    }
}

impl View for XmlNode {
    type V = XmlTree;

    open spec fn view(&self) -> XmlTree {
        tree_of(*self)
    }
}

// ---------------------------------------------------------------------------
// Parsing
// ---------------------------------------------------------------------------

#[verifier::external_type_specification]
#[verifier::external_body]
pub struct ExNodeType(roxmltree::NodeType);

#[verifier::external_type_specification]
#[verifier::external_body]
pub struct ExXmlError(roxmltree::Error);

/// The nodes that `roxmltree` reads from a document, in document order.
pub uninterp spec fn xml_items_of(text: Seq<char>) -> Option<Seq<ItemV>>;

/// `roxmltree::Document::parse_with_options` with DTDs allowed, then
/// `descendants()` of the document: each node's id, its parent's id, its
/// `node_type()`, `tag_name().name()`, `attributes()` and `text()`. The
/// contract says only that the outcome is a function of the text; the
/// parse error is handed back as the crate's value.
#[verifier::external_body]
pub(crate) fn parse_items(text: &str) -> (r: Result<Vec<XmlItem>, roxmltree::Error>)
    ensures
        r is Ok <==> xml_items_of(text@) is Some,
        r matches Ok(v) ==> xml_items_of(text@) == Some(item_views(v@)),
{
    let opts = roxmltree::ParsingOptions { allow_dtd: true, ..Default::default() };
    let doc = roxmltree::Document::parse_with_options(text, opts)?;
    Ok(doc.descendants().map(|n| XmlItem {
        id: n.id().get_usize(),
        parent: n.parent().map(|p| p.id().get_usize()),
        kind: node_kind(n.node_type()),
        tag: n.tag_name().name().to_string(),
        attrs: n.attributes().map(|a| (a.name().to_string(), a.value().to_string())).collect(),
        text: n.text().map(|t| t.to_string()),
    }).collect())
}

/// Tells the variants of `roxmltree::NodeType` apart.
#[verifier::external_body]
fn node_kind(t: roxmltree::NodeType) -> XmlKind {
    match t {
        roxmltree::NodeType::Root => XmlKind::Root,
        roxmltree::NodeType::Element => XmlKind::Element,
        roxmltree::NodeType::PI => XmlKind::Pi,
        roxmltree::NodeType::Comment => XmlKind::Comment,
        roxmltree::NodeType::Text => XmlKind::Text,
    }
}

/// The `Display` text of a `roxmltree::Error`. Nothing is stated of it.
#[verifier::external_body]
pub(crate) fn xml_error_text(e: &roxmltree::Error) -> String {
    e.to_string()
}

// ---------------------------------------------------------------------------
// Building the tree
// ---------------------------------------------------------------------------

pub open spec fn empty_tree() -> XmlTree {
    XmlTree {
        kind: XmlKind::Root,
        tag: Seq::empty(),
        attrs: Seq::empty(),
        text: None,
        children: Seq::empty(),
    }
}

/// The tree rooted at item `k` (its children are the items that follow it
/// and name it as their parent, each with its own subtree), and the index
/// just past that subtree.
pub open spec fn subtree_at(items: Seq<ItemV>, k: int) -> (XmlTree, int)
    decreases items.len() - k, items.len() + 1 - k,
{
    if 0 <= k < items.len() {
        let (cs, e) = children_from(items, k, k + 1);
        let it = items[k];
        (XmlTree { kind: it.kind, tag: it.tag, attrs: it.attrs, text: it.text, children: cs }, e)
    } else {
        (empty_tree(), k)
    }
}

/// The children of item `k` from index `j` on, and the index past the last.
pub open spec fn children_from(items: Seq<ItemV>, k: int, j: int) -> (Seq<XmlTree>, int)
    decreases items.len() - k, items.len() - j,
{
    if 0 <= k < j < items.len() && items[j].parent == Some(items[k].id) {
        let (t, e) = subtree_at(items, j);
        if j < e <= items.len() {
            let (rest, f) = children_from(items, k, e);
            (seq![t] + rest, f)
        } else {
            (seq![t], e)
        }
    } else {
        (Seq::empty(), j)
    }
}

/// The document tree: the subtree of the first item.
pub open spec fn document_tree(items: Seq<ItemV>) -> XmlTree {
    subtree_at(items, 0).0
}

fn clone_pairs(v: &Vec<(String, String)>) -> (r: Vec<(String, String)>)
    ensures
        pair_views(r@) == pair_views(v@),
{
    let mut r: Vec<(String, String)> = Vec::new();
    let mut i: usize = 0;
    while i < v.len()
        invariant
            i <= v.len(),
            pair_views(r@) == pair_views(v@).take(i as int),
        decreases v.len() - i,
    {
        let p = (v[i].0.clone(), v[i].1.clone());
        let ghost o = r@;
        r.push(p);
        assert(pair_views(r@) =~= pair_views(o).push((v@[i as int].0@, v@[i as int].1@)));
        assert(pair_views(r@) =~= pair_views(v@).take(i + 1));
        i += 1;
    }
    assert(pair_views(v@).take(v.len() as int) =~= pair_views(v@));
    r
}

fn clone_opt(o: &Option<String>) -> (r: Option<String>)
    ensures
        opt_view(r) == opt_view(*o),
{
    match o {
        Some(s) => Some(s.clone()),
        None => None,
    }
}

proof fn lemma_trees_push(cs: Seq<XmlNode>, n: XmlNode)
    ensures
        trees_of(cs.push(n)) == trees_of(cs).push(tree_of(n)),
{
    assert(cs.push(n).drop_last() =~= cs);
}

/// The subtree rooted at item `k` and the index just past it.
fn node_at(items: &Vec<XmlItem>, k: usize) -> (r: (XmlNode, usize))
    requires
        k < items.len(),
    ensures
        (r.0@, r.1 as int) == subtree_at(item_views(items@), k as int),
        k < r.1 <= items.len(),
    decreases items.len() - k,
{
    let ghost iv = item_views(items@);
    let it = &items[k];
    let mut children: Vec<XmlNode> = Vec::new();
    let mut j: usize = k + 1;
    proof {
        assert(trees_of(children@) =~= Seq::<XmlTree>::empty());
    }
    loop
        invariant_except_break
            k < j <= items.len(),
            iv == item_views(items@),
            children_from(iv, k as int, k + 1) == (
                trees_of(children@) + children_from(iv, k as int, j as int).0,
                children_from(iv, k as int, j as int).1,
            ),
        ensures
            k < j <= items.len(),
            children_from(iv, k as int, k + 1) == (trees_of(children@), j as int),
        decreases items.len() - j,
    {
        if j >= items.len() {
            assert(trees_of(children@) + Seq::<XmlTree>::empty() =~= trees_of(children@));
            break;
        }
        let same = match items[j].parent {
            Some(p) => p == items[k].id,
            None => false,
        };
        assert(iv[j as int] == items@[j as int]@);
        assert(iv[k as int] == items@[k as int]@);
        if !same {
            assert(trees_of(children@) + Seq::<XmlTree>::empty() =~= trees_of(children@));
            break;
        }
        let (t, e) = node_at(items, j);
        let ghost before = children@;
        proof {
            lemma_trees_push(before, t);
        }
        children.push(t);
        let ghost rest = children_from(iv, k as int, e as int);
        assert(trees_of(before) + (seq![t@] + rest.0) =~= trees_of(children@) + rest.0);
        j = e;
    }
    let node = XmlNode {
        kind: it.kind,
        tag: it.tag.clone(),
        attrs: clone_pairs(&it.attrs),
        text: clone_opt(&it.text),
        children,
    };
    (node, j)
}

/// The tree of the parsed items; `None` when there are none.
pub fn tree_of_items(items: &Vec<XmlItem>) -> (r: Option<XmlNode>)
    ensures
        items.len() == 0 ==> r is None,
        items.len() > 0 ==> (r matches Some(t) && t@ == document_tree(item_views(items@))),
{
    if items.len() == 0 {
        None
    } else {
        let (t, _) = node_at(items, 0);
        Some(t)
    }
}

} // verus!
