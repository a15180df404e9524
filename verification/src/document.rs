//! KDL documents, as the `kdl` crate holds them.
//!
//! What a document holds is modelled by [`Tree`]s: the names of its nodes, the
//! text before each, their entries and their children. Type annotations and the
//! rest of the formatting travel inside the document untouched, so that what an
//! edit does not concern stays in it.
use vstd::prelude::*;
use kdl::{FormatConfigBuilder, KdlDocument, KdlNode};
use crate::proj_write;
use crate::text;

verus! {

/// `kdl::KdlDocument`, a sequence of nodes.
#[verifier::external_type_specification]
#[verifier::external_body]
pub struct ExKdlDocument(kdl::KdlDocument);

/// `kdl::KdlNode`, one node with its children.
#[verifier::external_type_specification]
#[verifier::external_body]
pub struct ExKdlNode(kdl::KdlNode);

/// The model of a node.
pub struct Tree {
    /// The node's name.
    pub name: Seq<char>,
    /// The white space and comments before it; empty where it has no format.
    pub lead: Seq<char>,
    /// Its arguments and properties, each as it is written.
    pub entries: Seq<Seq<char>>,
    /// Its children, where it has a block for them.
    pub children: Option<Seq<Tree>>,
}

/// What a document holds.
pub uninterp spec fn tree(doc: KdlDocument) -> Seq<Tree>;

/// What a node holds, as a sequence of one.
pub uninterp spec fn node_tree(node: KdlNode) -> Seq<Tree>;

/// What a document reads as once it is formatted with two spaces per level.
pub uninterp spec fn rendered(doc: KdlDocument, indent: Seq<char>) -> Seq<char>;

/// What the KDL parser makes of a text: its nodes, or the message that says what
/// is wrong with it.
pub uninterp spec fn parsed(s: Seq<char>) -> Result<Seq<Tree>, Seq<char>>;

/// What the KDL parser makes of a text that is a single node.
pub uninterp spec fn parsed_node(s: Seq<char>) -> Result<Seq<Tree>, Seq<char>>;

/// `KdlDocument::parse`. What comes out is named.
#[verifier::external_body]
pub(crate) fn parse_document(s: &str) -> (out: Result<KdlDocument, String>)
    ensures
        match out {
            Ok(doc) => parsed(s@) == Ok::<Seq<Tree>, Seq<char>>(tree(doc)),
            Err(e) => parsed(s@) == Err::<Seq<Tree>, Seq<char>>(e@),
        },
{
    KdlDocument::parse(s).map_err(|e| e.to_string())
}

/// Whether a character is one of the letters of ASCII.
pub open spec fn is_letter(c: char) -> bool {
    'a' <= c <= 'z' || 'A' <= c <= 'Z'
}

/// Whether a text is a name that KDL takes as it is: letters, digits, `_`, `-`, `.`
/// and `+`, with a letter or `_` first.
pub open spec fn is_plain_name(name: Seq<char>) -> bool {
    &&& name.len() > 0
    &&& is_letter(name[0]) || name[0] == '_'
    &&& forall|i: int|
        0 <= i < name.len() ==> is_letter(#[trigger] name[i]) || '0' <= name[i] <= '9'
            || name[i] == '_' || name[i] == '-' || name[i] == '.' || name[i] == '+'
}

/// Whether a text begins with a plain name and a blank.
pub open spec fn opens_with(s: Seq<char>, name: Seq<char>) -> bool {
    is_plain_name(name) && text::begins(s, name + " "@)
}

/// `KdlNode`'s `FromStr`. What comes out is named; it is one node, and where the
/// text opens with a plain name, that is the node's.
#[verifier::external_body]
pub(crate) fn parse_node(s: &str) -> (out: Result<KdlNode, String>)
    ensures
        match out {
            Ok(node) => parsed_node(s@) == Ok::<Seq<Tree>, Seq<char>>(node_tree(node))
                && node_tree(node).len() == 1 && forall|name: Seq<char>| #[trigger]
                opens_with(s@, name) ==> node_tree(node)[0].name == name,
            Err(e) => parsed_node(s@) == Err::<Seq<Tree>, Seq<char>>(e@),
        },
{
    s.parse::<KdlNode>().map_err(|e| e.to_string())
}

/// `KdlDocument::new`: a document without nodes.
#[verifier::external_body]
pub(crate) fn new_document() -> (out: KdlDocument)
    ensures
        tree(out) == Seq::<Tree>::empty(),
{
    KdlDocument::new()
}

/// `KdlNode::new`: a node with a name, without entries or children, and with
/// nothing before it.
#[verifier::external_body]
pub(crate) fn new_node(name: &str) -> (out: KdlNode)
    ensures
        node_tree(out) == seq![
            (Tree { name: name@, lead: Seq::empty(), entries: Seq::empty(), children: None }),
        ],
{
    KdlNode::new(name)
}

/// The length of `KdlDocument::nodes`.
#[verifier::external_body]
pub(crate) fn node_count(doc: &KdlDocument) -> (n: usize)
    ensures
        n == tree(*doc).len(),
{
    doc.nodes().len()
}

/// A copy of one of `KdlDocument::nodes`.
#[verifier::external_body]
pub(crate) fn node_at(doc: &KdlDocument, i: usize) -> (out: KdlNode)
    requires
        i < tree(*doc).len(),
    ensures
        node_tree(out) == seq![tree(*doc)[i as int]],
{
    doc.nodes()[i].clone()
}

/// Put a node in place of one of `KdlDocument::nodes_mut`.
#[verifier::external_body]
pub(crate) fn set_node(doc: &mut KdlDocument, i: usize, node: KdlNode)
    requires
        i < tree(*old(doc)).len(),
    ensures
        tree(*final(doc)) == tree(*old(doc)).update(i as int, node_tree(node)[0]),
{
    doc.nodes_mut()[i] = node;
}

/// Add a node at the end of `KdlDocument::nodes_mut`.
#[verifier::external_body]
pub(crate) fn push_node(doc: &mut KdlDocument, node: KdlNode)
    ensures
        tree(*final(doc)) == tree(*old(doc)).push(node_tree(node)[0]),
{
    doc.nodes_mut().push(node)
}

/// Take a node out of `KdlDocument::nodes_mut`.
#[verifier::external_body]
pub(crate) fn remove_node(doc: &mut KdlDocument, i: usize)
    requires
        i < tree(*old(doc)).len(),
    ensures
        tree(*final(doc)) == tree(*old(doc)).remove(i as int),
{
    doc.nodes_mut().remove(i);
}

/// The value of `KdlNode::name`.
#[verifier::external_body]
pub(crate) fn name_of(node: &KdlNode) -> (out: String)
    ensures
        out@ == node_tree(*node)[0].name,
{
    node.name().value().to_owned()
}

/// A copy of `KdlNode::children`.
#[verifier::external_body]
pub(crate) fn children_of(node: &KdlNode) -> (out: Option<KdlDocument>)
    ensures
        match out {
            Some(doc) => node_tree(*node)[0].children == Some(tree(doc)),
            None => node_tree(*node)[0].children is None,
        },
{
    node.children().cloned()
}

/// `KdlNode::set_children`: the node is given a block of children.
#[verifier::external_body]
pub(crate) fn set_children(node: &mut KdlNode, doc: KdlDocument)
    ensures
        node_tree(*final(node)) == seq![
            (Tree { children: Some(tree(doc)), ..node_tree(*old(node))[0] }),
        ],
{
    node.set_children(doc)
}

/// `KdlNode::set_format`, with another text before the node.
#[verifier::external_body]
pub(crate) fn set_leading(node: &mut KdlNode, lead: &str)
    ensures
        node_tree(*final(node)) == seq![(Tree { lead: lead@, ..node_tree(*old(node))[0] })],
{
    let mut format = node.format().cloned().unwrap_or_default();
    format.leading = lead.to_owned();
    node.set_format(format);
}

/// `KdlDocument::autoformat_config` with `indent` per level, then the document's
/// text. The text is named; that it reads back as the same document is not stated.
#[verifier::external_body]
pub(crate) fn render(doc: KdlDocument, indent: &str) -> (out: String)
    ensures
        out@ == rendered(doc, indent@),
{
    let mut doc = doc;
    doc.autoformat_config(&FormatConfigBuilder::new().indent(indent).build());
    doc.to_string()
}

/// The first position of a node called `name`, or the number of nodes where there
/// is none.
pub open spec fn find_node(ts: Seq<Tree>, name: Seq<char>) -> int
    decreases ts.len(),
{
    if ts.len() == 0 || ts[0].name == name {
        0
    } else {
        1 + find_node(ts.skip(1), name)
    }
}

/// Whether there is a node called `name`.
pub open spec fn has_node(ts: Seq<Tree>, name: Seq<char>) -> bool {
    find_node(ts, name) < ts.len()
}

/// The nodes not called `name`.
pub open spec fn other_nodes(ts: Seq<Tree>, name: Seq<char>) -> Seq<Tree> {
    ts.filter(|t: Tree| t.name != name)
}

/// The children of a node; none where it has no block for them.
pub open spec fn kids(t: Tree) -> Seq<Tree> {
    match t.children {
        Some(c) => c,
        None => Seq::empty(),
    }
}

/// [`find_node`] is the first index at which the name stands.
pub proof fn lemma_find_node(ts: Seq<Tree>, name: Seq<char>)
    ensures
        0 <= find_node(ts, name) <= ts.len(),
        has_node(ts, name) ==> ts[find_node(ts, name)].name == name,
        forall|i: int| 0 <= i < find_node(ts, name) ==> (#[trigger] ts[i]).name != name,
    decreases ts.len(),
{
    if ts.len() > 0 && ts[0].name != name {
        lemma_find_node(ts.skip(1), name);
        assert forall|i: int| 0 <= i < find_node(ts, name) implies (#[trigger] ts[i]).name != name by {
            if i > 0 {
                assert(ts.skip(1)[i - 1] == ts[i]);
            }
        }
    }
}

/// An index before which the name does not stand, and at which it does, is where
/// the node is found.
pub proof fn lemma_find_node_is(ts: Seq<Tree>, name: Seq<char>, i: int)
    requires
        0 <= i <= ts.len(),
        i < ts.len() ==> ts[i].name == name,
        forall|j: int| 0 <= j < i ==> (#[trigger] ts[j]).name != name,
    ensures
        find_node(ts, name) == i,
{
    lemma_find_node(ts, name);
    let p = find_node(ts, name);
    if p < i {
        assert(ts[p].name != name);
    }
    if i < p {
        assert(ts[i].name != name);
    }
}

/// Leaving out a name leaves no node of that name, keeps the rest, and changes
/// nothing where there was none.
pub proof fn lemma_other_nodes(ts: Seq<Tree>, name: Seq<char>)
    ensures
        !has_node(other_nodes(ts, name), name),
        !has_node(ts, name) ==> other_nodes(ts, name) == ts,
    decreases ts.len(),
{
    reveal(Seq::filter);
    lemma_find_node(ts, name);
    lemma_find_node(other_nodes(ts, name), name);
    if ts.len() > 0 {
        let front = ts.drop_last();
        lemma_other_nodes(front, name);
        lemma_find_node(front, name);
        lemma_find_node(other_nodes(front, name), name);
        let o = other_nodes(ts, name);
        let fo = other_nodes(front, name);
        if has_node(o, name) {
            let p = find_node(o, name);
            if p < fo.len() {
                assert(fo[p].name == name);
            }
        }
        if !has_node(ts, name) {
            assert forall|j: int| 0 <= j < front.len() implies (#[trigger] front[j]).name != name by {
                assert(ts[j].name != name);
            }
            lemma_find_node_is(front, name, front.len() as int);
            assert(ts[ts.len() - 1].name != name);
            assert(o =~= ts);
        }
    }
}

/// Leaving out a name from a document with one more node at its end.
pub proof fn lemma_other_nodes_push(ts: Seq<Tree>, t: Tree, name: Seq<char>)
    ensures
        other_nodes(ts.push(t), name) == (if t.name == name {
            other_nodes(ts, name)
        } else {
            other_nodes(ts, name).push(t)
        }),
{
    reveal(Seq::filter);
    assert(ts.push(t).drop_last() =~= ts);
}

/// Where a document's first node called `name` is.
pub fn position_of_node(doc: &KdlDocument, name: &str) -> (i: usize)
    ensures
        i == find_node(tree(*doc), name@),
        i <= tree(*doc).len(),
{
    let n: usize = node_count(doc);
    let mut i: usize = 0;
    while i < n
        invariant
            i <= n == tree(*doc).len(),
            forall|j: int| 0 <= j < i ==> (#[trigger] tree(*doc)[j]).name != name@,
        decreases n - i,
    {
        let node = node_at(doc, i);
        let here = name_of(&node);
        if text::same(here.as_str(), name) {
            proof {
                lemma_find_node_is(tree(*doc), name@, i as int);
            }
            return i;
        }
        i += 1;
    }
    proof {
        lemma_find_node_is(tree(*doc), name@, i as int);
    }
    i
}

/// Take every node called `name` out of a document.
pub fn drop_nodes(doc: &mut KdlDocument, name: &str)
    ensures
        tree(*final(doc)) == other_nodes(tree(*old(doc)), name@),
{
    let ghost before = tree(*doc);
    let mut i: usize = node_count(doc);
    proof {
        reveal(Seq::filter);
        assert(before.take(i as int) =~= before);
        assert(before.skip(i as int) =~= Seq::empty());
        assert(other_nodes(before.skip(i as int), name@) =~= Seq::empty());
        assert(tree(*doc) =~= before.take(i as int) + other_nodes(before.skip(i as int), name@));
    }
    while i > 0
        invariant
            i <= before.len(),
            tree(*doc) == before.take(i as int) + other_nodes(before.skip(i as int), name@),
        decreases i,
    {
        i -= 1;
        let ghost rest = before.skip(i + 1);
        let node = node_at(doc, i);
        let here = name_of(&node);
        proof {
            let all = before.skip(i as int);
            assert(all =~= seq![before[i as int]] + rest);
            Seq::filter_distributes_over_add(
                seq![before[i as int]],
                rest,
                |t: Tree| t.name != name@,
            );
            reveal_with_fuel(Seq::filter, 2);
            assert(seq![before[i as int]].drop_last() =~= Seq::empty());
            assert(seq![before[i as int]].last() == before[i as int]);
        }
        if text::same(here.as_str(), name) {
            remove_node(doc, i);
            proof {
                assert(tree(*doc) =~= before.take(i as int) + other_nodes(rest, name@));
                assert(other_nodes(before.skip(i as int), name@) =~= other_nodes(rest, name@));
            }
        } else {
            proof {
                assert(other_nodes(before.skip(i as int), name@) =~= seq![before[i as int]]
                    + other_nodes(rest, name@));
                assert(tree(*doc) =~= before.take(i as int) + other_nodes(
                    before.skip(i as int),
                    name@,
                ));
            }
        }
    }
    proof {
        assert(before.skip(0) =~= before);
        assert(tree(*doc) =~= other_nodes(before, name@));
    }
}

/// The text a document is saved as: formatted with two blanks per level, and with its
/// braces laid out.
pub open spec fn laid_out(doc: KdlDocument) -> Seq<char> {
    proj_write::fixed(rendered(doc, "  "@))
}

/// The text a document is saved as.
pub fn document_text(doc: KdlDocument) -> (out: String)
    ensures
        out@ == laid_out(doc),
{
    let s = render(doc, "  ");
    proj_write::fix_braces(s.as_str())
}

} // verus!
