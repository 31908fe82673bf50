//! The XPath axes as array operations on an index.

use vstd::prelude::*;
use vstd::utf8::encode_utf8;
use crate::index::access::is_element_type;
use crate::index::structural::low32;
use crate::index::{TagType, XmlIndex};
use crate::text::{str_eq, texts};
use crate::xpath::strings::{stands_at, starts_with_text};
use crate::xpath::ast::{Axis, NodeTest, TestV};
use crate::xpath::nodes::{
    attr_name_hash, doc_pos, in_doc_order, lemma_sort_ok, matches_node_test, merge_items,
    merge_placed, name_hash, node_doc_pos, node_ok, nodes_of, nodes_ok, passes, placed, placed_ok,
    sort_doc_order, sort_items, sort_placed, unplaced, Placed, XPathNode, DOC_ROOT,
};

verus! {

/// Whether a tag of this type is a node: an element, a comment or a processing
/// instruction. The content of a CDATA section is a text node instead.
pub open spec fn is_node_kind(t: TagType) -> bool {
    t == TagType::Open || t == TagType::SelfClose || t == TagType::Comment || t == TagType::PI
}

/// Tests whether a tag of this type is a node.
pub fn is_node_tag(t: TagType) -> (r: bool)
    ensures
        r == is_node_kind(t),
{
    t == TagType::Open || t == TagType::SelfClose || t == TagType::Comment || t == TagType::PI
}

/// The element tags on the way from a tag up to the root, nearest first.
pub open spec fn chain(ix: XmlIndex, tag: u32) -> Seq<XPathNode>
    decreases tag,
{
    if tag == u32::MAX || tag >= ix.tags() {
        Seq::empty()
    } else {
        let up = ix.parents@[tag as int];
        seq![XPathNode::Element(tag as usize)] + (if up < tag {
            chain(ix, up)
        } else {
            Seq::empty()
        })
    }
}

/// Conditions on tags.
pub enum PickV {
    /// A node at depth 0.
    RootLevel,
    /// A node with this parent entry.
    Under(u32),
    /// Any node.
    Any,
    /// A node with this parent entry that starts after this byte.
    UnderAfter(u32, u64),
    /// A node with this parent entry that starts before this byte.
    UnderBefore(u32, u64),
    /// A node that starts after this byte.
    After(u64),
    /// A node that starts before this byte and is not on the way from the tag with
    /// this entry up to the root.
    Apart(u32, u64),
    /// A tag that passes this node test.
    Test(TestV),
}

/// Whether tag `j` meets a condition.
pub open spec fn picks(ix: XmlIndex, pick: PickV, j: int) -> bool {
    match pick {
        PickV::RootLevel => ix.depths@[j] == 0 && is_node_kind(ix.tag_types@[j]),
        PickV::Under(p) => ix.parents@[j] == p && is_node_kind(ix.tag_types@[j]),
        PickV::Any => is_node_kind(ix.tag_types@[j]),
        PickV::UnderAfter(p, at) => ix.parents@[j] == p && ix.tag_starts@[j] > at && is_node_kind(
            ix.tag_types@[j],
        ),
        PickV::UnderBefore(p, at) => ix.parents@[j] == p && ix.tag_starts@[j] < at
            && is_node_kind(ix.tag_types@[j]),
        PickV::After(at) => ix.tag_starts@[j] > at && is_node_kind(ix.tag_types@[j]),
        PickV::Apart(entry, at) => ix.tag_starts@[j] < at && is_node_kind(ix.tag_types@[j])
            && !chain(ix, entry).contains(XPathNode::Element(j as usize)),
        PickV::Test(test) => passes(ix, XPathNode::Element(j as usize), test),
    }
}

/// The tags in `lo..hi` that meet a condition, in order.
pub open spec fn pick_tags(ix: XmlIndex, pick: PickV, lo: int, hi: int) -> Seq<XPathNode>
    decreases hi - lo,
{
    if hi <= lo {
        Seq::empty()
    } else if picks(ix, pick, hi - 1) {
        pick_tags(ix, pick, lo, hi - 1).push(XPathNode::Element((hi - 1) as usize))
    } else {
        pick_tags(ix, pick, lo, hi - 1)
    }
}

/// Conditions on text ranges.
pub enum TextPick {
    /// The parent entry is this.
    Under(u32),
    /// The parent is a tag in this range.
    Within(usize, usize),
    /// There is a parent entry.
    Inside,
    /// The parent entry is this, and the text starts after this byte.
    UnderAfter(u32, u64),
    /// The parent entry is this, and the text starts before this byte.
    UnderBefore(u32, u64),
    /// There is a parent entry, and the text starts after this byte.
    After(u64),
    /// There is a parent entry, and the text starts before this byte.
    Before(u64),
}

/// Whether text range `t` meets a condition.
pub open spec fn picks_text(ix: XmlIndex, pick: TextPick, t: int) -> bool {
    let parent = ix.text_ranges@[t].parent_tag;
    let start = ix.text_ranges@[t].start;
    match pick {
        TextPick::Under(p) => parent == p,
        TextPick::Within(lo, hi) => lo <= parent < hi,
        TextPick::Inside => parent != u32::MAX,
        TextPick::UnderAfter(p, at) => parent == p && start > at,
        TextPick::UnderBefore(p, at) => parent == p && start < at,
        TextPick::After(at) => parent != u32::MAX && start > at,
        TextPick::Before(at) => parent != u32::MAX && start < at,
    }
}

/// The first `k` text ranges that meet a condition, in order.
pub open spec fn pick_texts(ix: XmlIndex, pick: TextPick, k: int) -> Seq<XPathNode>
    decreases k,
{
    if k <= 0 {
        Seq::empty()
    } else if picks_text(ix, pick, k - 1) {
        pick_texts(ix, pick, k - 1).push(XPathNode::Text((k - 1) as usize))
    } else {
        pick_texts(ix, pick, k - 1)
    }
}

/// The node that a row entry stands for.
pub open spec fn entry_node(entry: u32, text: bool) -> XPathNode {
    if text {
        XPathNode::Text(entry as usize)
    } else {
        XPathNode::Element(entry as usize)
    }
}

/// The nodes of the entries of a row, in order.
pub open spec fn row_nodes(row: Seq<u32>, text: bool) -> Seq<XPathNode> {
    row.map_values(|entry: u32| entry_node(entry, text))
}

/// The child nodes of a node.
pub open spec fn child_axis(ix: XmlIndex, node: XPathNode) -> Seq<XPathNode> {
    match node {
        XPathNode::Element(p) => if p == DOC_ROOT {
            pick_tags(ix, PickV::RootLevel, 0, ix.tags() as int)
        } else if ix.tabled() {
            unplaced(
                merge_placed(
                    placed(ix, row_nodes(ix.text_row(p as int), true)),
                    placed(ix, row_nodes(ix.child_row(p as int), false)),
                ),
            )
        } else {
            let entry = (p as int % 0x1_0000_0000) as u32;
            in_doc_order(
                ix,
                pick_tags(ix, PickV::Under(entry), 0, ix.tags() as int) + pick_texts(
                    ix,
                    TextPick::Under(entry),
                    ix.text_ranges@.len() as int,
                ),
            )
        },
        _ => Seq::empty(),
    }
}

/// Where the content of a tag ends: at its close tag, or at the end of the
/// document. Only an open tag has content; for other tags, the tag itself.
pub open spec fn scope_end(ix: XmlIndex, tag: int) -> int {
    if ix.tag_types@[tag] != TagType::Open {
        tag
    } else {
        match ix.close_of(tag) {
            Some(c) => c,
            None => ix.tags() as int,
        }
    }
}

/// The node itself in a list, when it is wanted.
pub open spec fn self_item(wanted: bool, pos: u128, node: XPathNode) -> Seq<Placed> {
    if wanted {
        seq![(pos, node)]
    } else {
        Seq::empty()
    }
}

/// The descendant nodes of a node, with the node itself when wanted.
pub open spec fn descendant_axis(ix: XmlIndex, node: XPathNode, with_self: bool) -> Seq<XPathNode> {
    match node {
        XPathNode::Element(i) => if i == DOC_ROOT {
            unplaced(
                sort_placed(
                    self_item(with_self, 0, node) + placed(
                        ix,
                        pick_tags(ix, PickV::Any, 0, ix.tags() as int),
                    ) + placed(
                        ix,
                        pick_texts(ix, TextPick::Inside, ix.text_ranges@.len() as int),
                    ),
                ),
            )
        } else {
            let end = scope_end(ix, i as int);
            unplaced(
                sort_placed(
                    self_item(with_self, doc_pos(ix, node), node) + placed(
                        ix,
                        pick_tags(ix, PickV::Any, i + 1, end),
                    ) + placed(
                        ix,
                        pick_texts(
                            ix,
                            TextPick::Within(i, end as usize),
                            ix.text_ranges@.len() as int,
                        ),
                    ),
                ),
            )
        },
        _ => if with_self {
            seq![node]
        } else {
            Seq::empty()
        },
    }
}

/// The tag with this entry, or the document root.
pub open spec fn parent_node(entry: u32) -> XPathNode {
    if entry == u32::MAX {
        XPathNode::Element(DOC_ROOT)
    } else {
        XPathNode::Element(entry as usize)
    }
}

/// The parent of a node; the document root has none.
pub open spec fn parent_axis(ix: XmlIndex, node: XPathNode) -> Seq<XPathNode> {
    match node {
        XPathNode::Element(i) => if i == DOC_ROOT {
            Seq::empty()
        } else {
            seq![parent_node(ix.parents@[i as int])]
        },
        XPathNode::Text(i) => seq![parent_node(ix.text_ranges@[i as int].parent_tag)],
        XPathNode::Attribute(i, _) => seq![XPathNode::Element(i)],
        XPathNode::Namespace(i, _) => seq![XPathNode::Element(i)],
    }
}

/// Where the ancestors of a node start.
pub open spec fn ancestor_start(ix: XmlIndex, node: XPathNode) -> u32 {
    match node {
        XPathNode::Element(i) => if i < ix.tags() {
            ix.parents@[i as int]
        } else {
            u32::MAX
        },
        XPathNode::Text(i) => ix.text_ranges@[i as int].parent_tag,
        XPathNode::Attribute(i, _) => (i as int % 0x1_0000_0000) as u32,
        XPathNode::Namespace(i, _) => (i as int % 0x1_0000_0000) as u32,
    }
}

/// The ancestors of a node, nearest first, with the node itself before them
/// when wanted and the document root after them.
pub open spec fn ancestor_axis(ix: XmlIndex, node: XPathNode, with_self: bool) -> Seq<XPathNode> {
    (if with_self {
        seq![node]
    } else {
        Seq::empty()
    }) + chain(ix, ancestor_start(ix, node)) + (if node == XPathNode::Element(DOC_ROOT) {
        Seq::empty()
    } else {
        seq![XPathNode::Element(DOC_ROOT)]
    })
}

/// The parent entry of a tag or text, and where it starts.
pub open spec fn place(ix: XmlIndex, node: XPathNode) -> Option<(u32, u64)> {
    match node {
        XPathNode::Element(i) => if i >= ix.tags() {
            None
        } else {
            Some((ix.parents@[i as int], ix.tag_starts@[i as int]))
        },
        XPathNode::Text(i) => {
            let t = ix.text_ranges@[i as int];
            if t.parent_tag == u32::MAX {
                None
            } else {
                Some((t.parent_tag, t.start))
            }
        },
        _ => None,
    }
}

/// The tags and texts that meet conditions, in document order. Texts outside of
/// the root element are no nodes.
pub open spec fn pick_nodes(ix: XmlIndex, tags: PickV, texts: TextPick, inside: bool) -> Seq<
    XPathNode,
> {
    in_doc_order(
        ix,
        pick_tags(ix, tags, 0, ix.tags() as int) + (if inside {
            pick_texts(ix, texts, ix.text_ranges@.len() as int)
        } else {
            Seq::empty()
        }),
    )
}

/// The siblings after a node, in document order.
pub open spec fn following_sibling_axis(ix: XmlIndex, node: XPathNode) -> Seq<XPathNode> {
    match place(ix, node) {
        None => Seq::empty(),
        Some((parent, at)) => pick_nodes(
            ix,
            PickV::UnderAfter(parent, at),
            TextPick::UnderAfter(parent, at),
            parent != u32::MAX,
        ),
    }
}

/// The siblings before a node, nearest first.
pub open spec fn preceding_sibling_axis(ix: XmlIndex, node: XPathNode) -> Seq<XPathNode> {
    match place(ix, node) {
        None => Seq::empty(),
        Some((parent, at)) => pick_nodes(
            ix,
            PickV::UnderBefore(parent, at),
            TextPick::UnderBefore(parent, at),
            parent != u32::MAX,
        ).reverse(),
    }
}

/// Where the last part of a node starts: the close tag of the tag that the node is
/// or belongs to, that tag itself when it has no content, or the text. Nothing
/// follows the document root, nor a tag that is never closed.
pub open spec fn last_start(ix: XmlIndex, node: XPathNode) -> Option<u64> {
    let tag = match node {
        XPathNode::Element(i) => i as int,
        XPathNode::Attribute(i, _) => i as int,
        XPathNode::Namespace(i, _) => i as int,
        XPathNode::Text(_) => -1,
    };
    match node {
        XPathNode::Text(i) => Some(ix.text_ranges@[i as int].start),
        _ => if tag < ix.tags() && scope_end(ix, tag) < ix.tags() {
            Some(ix.tag_starts@[scope_end(ix, tag)])
        } else {
            None
        },
    }
}

/// Where a node starts, and the parent entry of the tag that it is or belongs to.
/// Nothing precedes the document root.
pub open spec fn first_start(ix: XmlIndex, node: XPathNode) -> Option<(u32, u64)> {
    match node {
        XPathNode::Attribute(i, _) => place(ix, XPathNode::Element(i)),
        XPathNode::Namespace(i, _) => place(ix, XPathNode::Element(i)),
        XPathNode::Text(i) => Some(
            (ix.text_ranges@[i as int].parent_tag, ix.text_ranges@[i as int].start),
        ),
        _ => place(ix, node),
    }
}

/// The nodes after the end of a node, in document order.
pub open spec fn following_axis(ix: XmlIndex, node: XPathNode) -> Seq<XPathNode> {
    match last_start(ix, node) {
        None => Seq::empty(),
        Some(at) => pick_nodes(ix, PickV::After(at), TextPick::After(at), true),
    }
}

/// The nodes before the start of a node that do not enclose it, nearest first.
pub open spec fn preceding_axis(ix: XmlIndex, node: XPathNode) -> Seq<XPathNode> {
    match first_start(ix, node) {
        None => Seq::empty(),
        Some((parent, at)) => pick_nodes(
            ix,
            PickV::Apart(parent, at),
            TextPick::Before(at),
            true,
        ).reverse(),
    }
}

/// The attributes of an element that pass a test.
pub open spec fn attribute_axis(ix: XmlIndex, node: XPathNode, test: TestV) -> Seq<XPathNode> {
    match node {
        XPathNode::Element(i) => match test {
            TestV::Name(name) => if ix.attribute(i as int, name) is Some {
                seq![XPathNode::Attribute(i, name_hash(name))]
            } else {
                Seq::empty()
            },
            TestV::NamespacedName(prefix, local) => if local == "*"@ {
                attribute_nodes(ix, i, prefix + ":"@)
            } else if ix.attribute(i as int, prefix + ":"@ + local) is Some {
                seq![XPathNode::Attribute(i, name_hash(prefix + ":"@ + local))]
            } else {
                Seq::empty()
            },
            TestV::Wildcard => attribute_nodes(ix, i, Seq::empty()),
            TestV::Node => attribute_nodes(ix, i, Seq::empty()),
            _ => Seq::empty(),
        },
        _ => Seq::empty(),
    }
}

/// The names among the first `k` that begin with the given text.
pub open spec fn names_beginning(names: Seq<Seq<char>>, head: Seq<char>, k: int) -> Seq<Seq<char>>
    decreases k,
{
    if k <= 0 {
        Seq::empty()
    } else if stands_at(names[k - 1], 0, head) {
        names_beginning(names, head, k - 1).push(names[k - 1])
    } else {
        names_beginning(names, head, k - 1)
    }
}

/// The attributes of a tag whose names begin with the given text.
pub open spec fn attribute_nodes(ix: XmlIndex, i: usize, head: Seq<char>) -> Seq<XPathNode> {
    let names = ix.attribute_names(i as int);
    names_beginning(names, head, names.len() as int).map_values(
        |name: Seq<char>| XPathNode::Attribute(i, name_hash(name)),
    )
}

/// The list with a name added, unless it is there.
pub open spec fn with_name(names: Seq<Seq<char>>, name: Seq<char>) -> Seq<Seq<char>> {
    if names.contains(name) {
        names
    } else {
        names.push(name)
    }
}

/// The list with the prefixes of the first `k` declarations added.
pub open spec fn with_prefixes(
    names: Seq<Seq<char>>,
    decls: Seq<(Seq<char>, Seq<char>)>,
    k: int,
) -> Seq<Seq<char>>
    decreases k,
{
    if k <= 0 {
        names
    } else {
        with_name(with_prefixes(names, decls, k - 1), decls[k - 1].0)
    }
}

/// The list with the prefixes declared on a tag and its ancestors added.
pub open spec fn prefixes_from(ix: XmlIndex, tag: int, names: Seq<Seq<char>>) -> Seq<Seq<char>>
    decreases tag,
{
    let own = if ix.element(tag) {
        let decls = ix.namespace_decls(tag);
        with_prefixes(names, decls, decls.len() as int)
    } else {
        names
    };
    let up = ix.parents@[tag];
    if up == u32::MAX || up >= tag || tag < 0 {
        own
    } else {
        prefixes_from(ix, up as int, own)
    }
}

/// The prefixes in scope at a tag, `xml` included.
pub open spec fn prefixes_at(ix: XmlIndex, tag: int) -> Seq<Seq<char>> {
    with_name(prefixes_from(ix, tag, Seq::empty()), "xml"@)
}

/// The namespaces in scope at an element, `xml` included.
pub open spec fn namespace_axis(ix: XmlIndex, node: XPathNode) -> Seq<XPathNode> {
    match node {
        XPathNode::Element(i) => if i >= ix.tags() {
            Seq::empty()
        } else {
            prefixes_at(ix, i as int).map_values(
                |name: Seq<char>| XPathNode::Namespace(i, name_hash(name)),
            )
        },
        _ => Seq::empty(),
    }
}

/// The nodes on an axis; the attribute axis uses the node test.
pub open spec fn axis_nodes(ix: XmlIndex, node: XPathNode, axis: Axis, test: TestV) -> Seq<
    XPathNode,
> {
    match axis {
        Axis::Child => child_axis(ix, node),
        Axis::Descendant => descendant_axis(ix, node, false),
        Axis::DescendantOrSelf => descendant_axis(ix, node, true),
        Axis::Parent => parent_axis(ix, node),
        Axis::Ancestor => ancestor_axis(ix, node, false),
        Axis::AncestorOrSelf => ancestor_axis(ix, node, true),
        Axis::FollowingSibling => following_sibling_axis(ix, node),
        Axis::PrecedingSibling => preceding_sibling_axis(ix, node),
        Axis::Following => following_axis(ix, node),
        Axis::Preceding => preceding_axis(ix, node),
        Axis::SelfAxis => seq![node],
        Axis::Attribute => attribute_axis(ix, node, test),
        Axis::Namespace => namespace_axis(ix, node),
    }
}

/// Conditions on tags: see `PickV`.
pub enum TagPick<'b> {
    RootLevel,
    Under(u32),
    Any,
    UnderAfter(u32, u64),
    UnderBefore(u32, u64),
    After(u64),
    Test(&'b NodeTest),
}

impl<'b> View for TagPick<'b> {
    type V = PickV;

    open spec fn view(&self) -> PickV {
        match self {
            TagPick::RootLevel => PickV::RootLevel,
            TagPick::Under(p) => PickV::Under(*p),
            TagPick::Any => PickV::Any,
            TagPick::UnderAfter(p, at) => PickV::UnderAfter(*p, *at),
            TagPick::UnderBefore(p, at) => PickV::UnderBefore(*p, *at),
            TagPick::After(at) => PickV::After(*at),
            TagPick::Test(t) => PickV::Test(t@),
        }
    }
}

fn tag_meets(index: &XmlIndex, pick: &TagPick, j: usize) -> (r: bool)
    requires
        index.wf(),
        j < index.tags(),
    ensures
        r == picks(*index, pick@, j as int),
{
    match pick {
        TagPick::RootLevel => index.depths[j] == 0 && is_node_tag(index.tag_types[j]),
        TagPick::Under(p) => index.parents[j] == *p && is_node_tag(index.tag_types[j]),
        TagPick::Any => is_node_tag(index.tag_types[j]),
        TagPick::UnderAfter(p, at) => index.parents[j] == *p && index.tag_starts[j] > *at
            && is_node_tag(index.tag_types[j]),
        TagPick::UnderBefore(p, at) => index.parents[j] == *p && index.tag_starts[j] < *at
            && is_node_tag(index.tag_types[j]),
        TagPick::After(at) => index.tag_starts[j] > *at && is_node_tag(index.tag_types[j]),
        TagPick::Test(t) => matches_node_test(index, XPathNode::Element(j), t),
    }
}

/// The tags in `lo..hi` that meet a condition, in order.
pub fn collect_tags(index: &XmlIndex, pick: &TagPick, lo: usize, hi: usize) -> (r: Vec<XPathNode>)
    requires
        index.wf(),
        hi <= index.tags(),
    ensures
        r@ == pick_tags(*index, pick@, lo as int, hi as int),
        nodes_ok(*index, r@),
{
    let mut out: Vec<XPathNode> = Vec::new();
    let mut j: usize = lo;
    while j < hi
        invariant
            index.wf(),
            hi <= index.tags(),
            lo <= j,
            lo <= hi ==> j <= hi,
            lo > hi ==> j == lo,
            out@ == pick_tags(*index, pick@, lo as int, j as int),
            nodes_ok(*index, out@),
        decreases hi - j,
    {
        if tag_meets(index, pick, j) {
            out.push(XPathNode::Element(j));
        }
        j += 1;
    }
    assert(lo > hi ==> out@ =~= pick_tags(*index, pick@, lo as int, hi as int));
    out
}

/// The text ranges that meet a condition, in order.
pub fn collect_texts(index: &XmlIndex, pick: &TextPick) -> (r: Vec<XPathNode>)
    requires
        index.wf(),
    ensures
        r@ == pick_texts(*index, *pick, index.text_ranges@.len() as int),
        nodes_ok(*index, r@),
{
    let mut out: Vec<XPathNode> = Vec::new();
    let n: usize = index.text_count();
    let mut t: usize = 0;
    while t < n
        invariant
            index.wf(),
            n == index.text_ranges@.len(),
            t <= n,
            out@ == pick_texts(*index, *pick, t as int),
            nodes_ok(*index, out@),
        decreases n - t,
    {
        let parent: u32 = index.text_ranges[t].parent_tag;
        let start: u64 = index.text_ranges[t].start;
        let meets = match pick {
            TextPick::Under(p) => parent == *p,
            TextPick::Within(lo, hi) => *lo <= parent as usize && (parent as usize) < *hi,
            TextPick::Inside => parent != u32::MAX,
            TextPick::UnderAfter(p, at) => parent == *p && start > *at,
            TextPick::UnderBefore(p, at) => parent == *p && start < *at,
            TextPick::After(at) => parent != u32::MAX && start > *at,
            TextPick::Before(at) => parent != u32::MAX && start < *at,
        };
        if meets {
            out.push(XPathNode::Text(t));
        }
        t += 1;
    }
    out
}

/// The nodes of the entries of a row, in order.
pub fn collect_row(index: &XmlIndex, row: &[u32], text: bool) -> (r: Vec<XPathNode>)
    requires
        index.wf(),
        forall|j: int|
            0 <= j < row@.len() ==> #[trigger] row@[j] < (if text {
                index.text_ranges@.len()
            } else {
                index.tags()
            }),
    ensures
        r@ == row_nodes(row@, text),
        nodes_ok(*index, r@),
{
    let mut out: Vec<XPathNode> = Vec::new();
    let n: usize = row.len();
    let mut j: usize = 0;
    while j < n
        invariant
            index.wf(),
            n == row@.len(),
            j <= n,
            forall|j: int|
                0 <= j < row@.len() ==> #[trigger] row@[j] < (if text {
                    index.text_ranges@.len()
                } else {
                    index.tags()
                }),
            out@ == row_nodes(row@.take(j as int), text),
            nodes_ok(*index, out@),
        decreases n - j,
    {
        let entry: u32 = row[j];
        out.push(
            if text {
                XPathNode::Text(entry as usize)
            } else {
                XPathNode::Element(entry as usize)
            },
        );
        assert(out@ =~= row_nodes(row@.take(j + 1), text));
        j += 1;
    }
    assert(row@.take(n as int) =~= row@);
    out
}

/// Appends nodes with their positions.
fn place_all(index: &XmlIndex, items: &mut Vec<Placed>, nodes: &Vec<XPathNode>)
    requires
        index.wf(),
        placed_ok(*index, old(items)@),
        nodes_ok(*index, nodes@),
    ensures
        final(items)@ == old(items)@ + placed(*index, nodes@),
        placed_ok(*index, final(items)@),
{
    let ghost before = items@;
    let mut i: usize = 0;
    assert(before + placed(*index, nodes@.take(0)) =~= before);
    while i < nodes.len()
        invariant
            index.wf(),
            nodes_ok(*index, nodes@),
            i <= nodes@.len(),
            items@ == before + placed(*index, nodes@.take(i as int)),
            placed_ok(*index, items@),
        decreases nodes@.len() - i,
    {
        let node = nodes[i];
        items.push((node_doc_pos(index, &node), node));
        assert(items@ =~= before + placed(*index, nodes@.take(i + 1)));
        i += 1;
    }
    assert(nodes@.take(i as int) =~= nodes@);
}

/// Sorts items and hands out their nodes.
fn sorted_nodes(index: &XmlIndex, items: &Vec<Placed>) -> (r: Vec<XPathNode>)
    requires
        placed_ok(*index, items@),
    ensures
        r@ == unplaced(sort_placed(items@)),
        nodes_ok(*index, r@),
{
    let sorted = sort_items(items.as_slice());
    proof {
        lemma_sort_ok(*index, items@);
    }
    nodes_of(&sorted)
}

proof fn lemma_merge_ok(ix: XmlIndex, a: Seq<Placed>, b: Seq<Placed>)
    requires
        placed_ok(ix, a),
        placed_ok(ix, b),
    ensures
        placed_ok(ix, merge_placed(a, b)),
    decreases a.len() + b.len(),
{
    if a.len() > 0 && b.len() > 0 {
        if a[0].0 <= b[0].0 {
            lemma_merge_ok(ix, a.drop_first(), b);
        } else {
            lemma_merge_ok(ix, a, b.drop_first());
        }
    }
}

/// The child nodes of a node.
pub fn eval_child_axis(index: &XmlIndex, node: XPathNode) -> (r: Vec<XPathNode>)
    requires
        index.wf(),
        node_ok(*index, node),
    ensures
        r@ == child_axis(*index, node),
        nodes_ok(*index, r@),
{
    let parent: usize = match node {
        XPathNode::Element(p) => p,
        _ => {
            return Vec::new();
        },
    };
    if parent == DOC_ROOT {
        return collect_tags(index, &TagPick::RootLevel, 0, index.tag_count());
    }
    if !index.has_indices() {
        let entry: u32 = low32(parent);
        let mut out = collect_tags(index, &TagPick::Under(entry), 0, index.tag_count());
        let mut texts = collect_texts(index, &TextPick::Under(entry));
        out.append(&mut texts);
        sort_doc_order(index, &mut out);
        return out;
    }
    let tags = collect_row(index, index.child_tag_slice(parent), false);
    let texts = collect_row(index, index.child_text_slice(parent), true);
    let mut placed_texts: Vec<Placed> = Vec::new();
    place_all(index, &mut placed_texts, &texts);
    let mut placed_tags: Vec<Placed> = Vec::new();
    place_all(index, &mut placed_tags, &tags);
    let merged = merge_items(&placed_texts, &placed_tags);
    proof {
        assert(placed_texts@ =~= placed(*index, texts@));
        assert(placed_tags@ =~= placed(*index, tags@));
        lemma_merge_ok(*index, placed_texts@, placed_tags@);
    }
    nodes_of(&merged)
}

/// Where the content of a tag ends: see `scope_end`.
pub fn content_end(index: &XmlIndex, tag: usize) -> (r: usize)
    requires
        index.wf(),
        tag < index.tags(),
    ensures
        r == scope_end(*index, tag as int),
        r <= index.tags(),
{
    if index.tag_types[tag] != TagType::Open {
        return tag;
    }
    match index.matching_close(tag) {
        Some(c) => c,
        None => index.tag_count(),
    }
}

/// The descendant nodes of a node, with the node itself when wanted.
pub fn eval_descendant_axis(index: &XmlIndex, node: XPathNode, with_self: bool) -> (r: Vec<
    XPathNode,
>)
    requires
        index.wf(),
        node_ok(*index, node),
    ensures
        r@ == descendant_axis(*index, node, with_self),
        nodes_ok(*index, r@),
{
    let mut items: Vec<Placed> = Vec::new();
    match node {
        XPathNode::Element(i) => {
            if i == DOC_ROOT {
                if with_self {
                    items.push((0, node));
                }
                assert(items@ =~= self_item(with_self, 0, node));
                let tags = collect_tags(index, &TagPick::Any, 0, index.tag_count());
                place_all(index, &mut items, &tags);
                let texts = collect_texts(index, &TextPick::Inside);
                place_all(index, &mut items, &texts);
            } else {
                if with_self {
                    items.push((node_doc_pos(index, &node), node));
                }
                assert(items@ =~= self_item(with_self, doc_pos(*index, node), node));
                let end: usize = content_end(index, i);
                let tags = collect_tags(index, &TagPick::Any, i + 1, end);
                place_all(index, &mut items, &tags);
                let texts = collect_texts(index, &TextPick::Within(i, end));
                place_all(index, &mut items, &texts);
            }
            sorted_nodes(index, &items)
        },
        _ => {
            let mut out: Vec<XPathNode> = Vec::new();
            if with_self {
                out.push(node);
            }
            assert(out@ =~= descendant_axis(*index, node, with_self));
            out
        },
    }
}

/// A list of one node.
fn single(node: XPathNode) -> (r: Vec<XPathNode>)
    ensures
        r@ == seq![node],
{
    let mut out: Vec<XPathNode> = Vec::new();
    out.push(node);
    assert(out@ =~= seq![node]);
    out
}

fn parent_of(entry: u32) -> (r: XPathNode)
    ensures
        r == parent_node(entry),
{
    if entry == u32::MAX {
        XPathNode::Element(DOC_ROOT)
    } else {
        XPathNode::Element(entry as usize)
    }
}

/// The parent of a node.
pub fn eval_parent_axis(index: &XmlIndex, node: XPathNode) -> (r: Vec<XPathNode>)
    requires
        index.wf(),
        node_ok(*index, node),
    ensures
        r@ == parent_axis(*index, node),
        nodes_ok(*index, r@),
{
    match node {
        XPathNode::Element(i) => if i == DOC_ROOT {
            Vec::new()
        } else {
            assert(index.doc().parents[i as int] == index.parents@[i as int]);
            single(parent_of(index.parents[i]))
        },
        XPathNode::Text(i) => {
            assert(index.doc().texts[i as int] == index.text_ranges@[i as int]);
            single(parent_of(index.text_ranges[i].parent_tag))
        },
        XPathNode::Attribute(i, _) => single(XPathNode::Element(i)),
        XPathNode::Namespace(i, _) => single(XPathNode::Element(i)),
    }
}

/// Appends the tags on the way up from a tag: see `chain`.
fn push_chain(index: &XmlIndex, start: u32, out: &mut Vec<XPathNode>)
    requires
        index.wf(),
        nodes_ok(*index, old(out)@),
    ensures
        final(out)@ == old(out)@ + chain(*index, start),
        nodes_ok(*index, final(out)@),
{
    let mut current: u32 = start;
    let ghost before = out@;
    loop
        invariant_except_break
            before + chain(*index, start) == out@ + chain(*index, current),
        invariant
            index.wf(),
            nodes_ok(*index, out@),
        ensures
            nodes_ok(*index, out@),
            before + chain(*index, start) == out@,
        decreases current,
    {
        if current == u32::MAX || current as usize >= index.tag_count() {
            assert(out@ + chain(*index, current) =~= out@);
            break ;
        }
        let ghost so_far = out@;
        let node = XPathNode::Element(current as usize);
        out.push(node);
        assert(index.doc().parents[current as int] == index.parents@[current as int]);
        let up: u32 = index.parents[current as usize];
        if up == u32::MAX {
            assert(so_far + chain(*index, current) =~= out@);
            break ;
        }
        assert(so_far + (seq![node] + chain(*index, up)) =~= out@ + chain(*index, up));
        current = up;
    }
}

/// The ancestors of a node, nearest first.
pub fn eval_ancestor_axis(index: &XmlIndex, node: XPathNode, with_self: bool) -> (r: Vec<XPathNode>)
    requires
        index.wf(),
        node_ok(*index, node),
    ensures
        r@ == ancestor_axis(*index, node, with_self),
        nodes_ok(*index, r@),
{
    let mut out: Vec<XPathNode> = Vec::new();
    if with_self {
        out.push(node);
    }
    let ghost head = out@;
    let start: u32 = match node {
        XPathNode::Element(i) => if i < index.tag_count() {
            index.parents[i]
        } else {
            u32::MAX
        },
        XPathNode::Text(i) => index.text_ranges[i].parent_tag,
        XPathNode::Attribute(i, _) => low32(i),
        XPathNode::Namespace(i, _) => low32(i),
    };
    push_chain(index, start, &mut out);
    let is_root = match node {
        XPathNode::Element(i) => i == DOC_ROOT,
        _ => false,
    };
    if !is_root {
        out.push(XPathNode::Element(DOC_ROOT));
    }
    assert(out@ =~= ancestor_axis(*index, node, with_self));
    out
}

fn place_of(index: &XmlIndex, node: XPathNode) -> (r: Option<(u32, u64)>)
    requires
        index.wf(),
        node_ok(*index, node),
    ensures
        r == place(*index, node),
{
    match node {
        XPathNode::Element(i) => if i >= index.tag_count() {
            None
        } else {
            Some((index.parents[i], index.tag_starts[i]))
        },
        XPathNode::Text(i) => {
            let t = index.text_ranges[i];
            if t.parent_tag == u32::MAX {
                None
            } else {
                Some((t.parent_tag, t.start))
            }
        },
        _ => None,
    }
}

/// The tags and texts that meet conditions, in document order.
fn collect_nodes(index: &XmlIndex, tags: &TagPick, texts: &TextPick, inside: bool) -> (r: Vec<
    XPathNode,
>)
    requires
        index.wf(),
    ensures
        r@ == pick_nodes(*index, tags@, *texts, inside),
        nodes_ok(*index, r@),
{
    let mut out = collect_tags(index, tags, 0, index.tag_count());
    let ghost first = out@;
    if inside {
        let mut more = collect_texts(index, texts);
        out.append(&mut more);
    } else {
        assert(first + Seq::<XPathNode>::empty() =~= first);
    }
    sort_doc_order(index, &mut out);
    out
}

/// The siblings after a node, in document order.
pub fn eval_following_sibling_axis(index: &XmlIndex, node: XPathNode) -> (r: Vec<XPathNode>)
    requires
        index.wf(),
        node_ok(*index, node),
    ensures
        r@ == following_sibling_axis(*index, node),
        nodes_ok(*index, r@),
{
    match place_of(index, node) {
        None => Vec::new(),
        Some((parent, at)) => collect_nodes(
            index,
            &TagPick::UnderAfter(parent, at),
            &TextPick::UnderAfter(parent, at),
            parent != u32::MAX,
        ),
    }
}

/// The nodes in reverse order.
pub(crate) fn reversed(nodes: &Vec<XPathNode>) -> (r: Vec<XPathNode>)
    ensures
        r@ == nodes@.reverse(),
{
    let mut out: Vec<XPathNode> = Vec::new();
    let mut i: usize = nodes.len();
    while i > 0
        invariant
            i <= nodes@.len(),
            out@.len() == nodes@.len() - i,
            forall|j: int| 0 <= j < out@.len() ==> out@[j] == nodes@[nodes@.len() - 1 - j],
        decreases i,
    {
        i -= 1;
        out.push(nodes[i]);
    }
    assert(out@ =~= nodes@.reverse());
    out
}

/// The siblings before a node, nearest first.
pub fn eval_preceding_sibling_axis(index: &XmlIndex, node: XPathNode) -> (r: Vec<XPathNode>)
    requires
        index.wf(),
        node_ok(*index, node),
    ensures
        r@ == preceding_sibling_axis(*index, node),
        nodes_ok(*index, r@),
{
    match place_of(index, node) {
        None => Vec::new(),
        Some((parent, at)) => {
            let before = collect_nodes(
                index,
                &TagPick::UnderBefore(parent, at),
                &TextPick::UnderBefore(parent, at),
                parent != u32::MAX,
            );
            reversed(&before)
        },
    }
}

/// The nodes after the end of a node, in document order.
pub fn eval_following_axis(index: &XmlIndex, node: XPathNode) -> (r: Vec<XPathNode>)
    requires
        index.wf(),
        node_ok(*index, node),
    ensures
        r@ == following_axis(*index, node),
        nodes_ok(*index, r@),
{
    let tag: usize = match node {
        XPathNode::Text(i) => {
            let at: u64 = index.text_ranges[i].start;
            return collect_nodes(index, &TagPick::After(at), &TextPick::After(at), true);
        },
        XPathNode::Element(i) => i,
        XPathNode::Attribute(i, _) => i,
        XPathNode::Namespace(i, _) => i,
    };
    let n: usize = index.tag_count();
    if tag >= n {
        return Vec::new();
    }
    let end: usize = content_end(index, tag);
    if end >= n {
        return Vec::new();
    }
    let at: u64 = index.tag_starts[end];
    collect_nodes(index, &TagPick::After(at), &TextPick::After(at), true)
}

/// The nodes before the start of a node that do not enclose it, nearest first.
pub fn eval_preceding_axis(index: &XmlIndex, node: XPathNode) -> (r: Vec<XPathNode>)
    requires
        index.wf(),
        node_ok(*index, node),
    ensures
        r@ == preceding_axis(*index, node),
        nodes_ok(*index, r@),
{
    let from: Option<(u32, u64)> = match node {
        XPathNode::Text(i) => Some((index.text_ranges[i].parent_tag, index.text_ranges[i].start)),
        XPathNode::Element(_) => place_of(index, node),
        XPathNode::Attribute(i, _) => place_of(index, XPathNode::Element(i)),
        XPathNode::Namespace(i, _) => place_of(index, XPathNode::Element(i)),
    };
    let (parent, at): (u32, u64) = match from {
        None => {
            return Vec::new();
        },
        Some(p) => p,
    };
    let mut enclosing: Vec<XPathNode> = Vec::new();
    push_chain(index, parent, &mut enclosing);
    assert(enclosing@ =~= chain(*index, parent));
    let n: usize = index.tag_count();
    let mut out: Vec<XPathNode> = Vec::new();
    let mut j: usize = 0;
    while j < n
        invariant
            index.wf(),
            n == index.tags(),
            j <= n,
            enclosing@ == chain(*index, parent),
            out@ == pick_tags(*index, PickV::Apart(parent, at), 0, j as int),
            nodes_ok(*index, out@),
        decreases n - j,
    {
        if index.tag_starts[j] < at && is_node_tag(index.tag_types[j]) && !holds_element(
            &enclosing,
            j,
        ) {
            out.push(XPathNode::Element(j));
        }
        j += 1;
    }
    let mut more = collect_texts(index, &TextPick::Before(at));
    out.append(&mut more);
    sort_doc_order(index, &mut out);
    reversed(&out)
}

/// Whether an element is in the list.
fn holds_element(nodes: &Vec<XPathNode>, tag: usize) -> (r: bool)
    ensures
        r == nodes@.contains(XPathNode::Element(tag)),
{
    let mut i: usize = 0;
    while i < nodes.len()
        invariant
            i <= nodes@.len(),
            forall|j: int| 0 <= j < i ==> nodes@[j] != XPathNode::Element(tag),
        decreases nodes@.len() - i,
    {
        if nodes[i] == XPathNode::Element(tag) {
            return true;
        }
        i += 1;
    }
    false
}

fn attributes_beginning(index: &XmlIndex, i: usize, head: &str) -> (r: Vec<XPathNode>)
    requires
        index.wf(),
    ensures
        r@ == attribute_nodes(*index, i, head@),
        nodes_ok(*index, r@),
{
    let names = index.get_all_attribute_names(i);
    let ghost view = texts(names@);
    let mut out: Vec<XPathNode> = Vec::new();
    let mut k: usize = 0;
    while k < names.len()
        invariant
            view == texts(names@),
            view == index.attribute_names(i as int),
            k <= names@.len(),
            out@ == names_beginning(view, head@, k as int).map_values(
                |name: Seq<char>| XPathNode::Attribute(i, name_hash(name)),
            ),
            nodes_ok(*index, out@),
        decreases names@.len() - k,
    {
        assert(view[k as int] == names@[k as int]@);
        assert(i < index.tags()) by {
            if i >= index.tags() {
                assert(view.len() == 0);
            }
        }
        if starts_with_text(names[k], head) {
            out.push(XPathNode::Attribute(i, attr_name_hash(names[k])));
        }
        assert(out@ =~= names_beginning(view, head@, k + 1).map_values(
            |name: Seq<char>| XPathNode::Attribute(i, name_hash(name)),
        ));
        k += 1;
    }
    out
}

/// The attributes of an element that pass a test.
pub fn eval_attribute_axis(index: &XmlIndex, node: XPathNode, test: &NodeTest) -> (r: Vec<
    XPathNode,
>)
    requires
        index.wf(),
        node_ok(*index, node),
    ensures
        r@ == attribute_axis(*index, node, test@),
        nodes_ok(*index, r@),
{
    let i: usize = match node {
        XPathNode::Element(i) => i,
        _ => {
            return Vec::new();
        },
    };
    proof {
        reveal_strlit("");
        assert(""@ =~= Seq::<char>::empty());
    }
    match test {
        NodeTest::Name(name) => if index.get_attribute(i, name.as_str()).is_some() {
            single(XPathNode::Attribute(i, attr_name_hash(name.as_str())))
        } else {
            Vec::new()
        },
        NodeTest::NamespacedName(prefix, local) => {
            let mut name = String::new();
            name.append(prefix.as_str());
            name.append(":");
            if str_eq(local.as_str(), "*") {
                return attributes_beginning(index, i, name.as_str());
            }
            name.append(local.as_str());
            assert(name@ =~= prefix@ + ":"@ + local@);
            if index.get_attribute(i, name.as_str()).is_some() {
                single(XPathNode::Attribute(i, attr_name_hash(name.as_str())))
            } else {
                Vec::new()
            }
        },
        NodeTest::Wildcard => attributes_beginning(index, i, ""),
        NodeTest::Node => attributes_beginning(index, i, ""),
        _ => Vec::new(),
    }
}

/// Adds a name to a list, unless it is there.
fn add_name<'b>(names: &mut Vec<&'b str>, name: &'b str)
    ensures
        texts(final(names)@) == with_name(texts(old(names)@), name@),
{
    let mut i: usize = 0;
    while i < names.len()
        invariant
            *names == *old(names),
            i <= names@.len(),
            forall|j: int| 0 <= j < i ==> (#[trigger] names@[j])@ != name@,
        decreases names@.len() - i,
    {
        if str_eq(names[i], name) {
            assert(texts(names@)[i as int] == name@);
            return ;
        }
        i += 1;
    }
    proof {
        assert forall|j: int| 0 <= j < names@.len() implies texts(names@)[j] != name@ by {
            assert(texts(names@)[j] == names@[j]@);
        }
    }
    names.push(name);
    assert(texts(names@) =~= texts(old(names)@).push(name@));
}

/// The prefixes in scope at a tag: see `prefixes_at`.
pub(crate) fn prefixes_in_scope<'a>(index: &XmlIndex<'a>, tag: usize) -> (r: Vec<&'a str>)
    requires
        index.wf(),
        tag < index.tags(),
    ensures
        texts(r@) == prefixes_at(*index, tag as int),
{
    let mut names: Vec<&'a str> = Vec::new();
    let mut current: usize = tag;
    assert(texts(names@) =~= Seq::empty());
    loop
        invariant_except_break
            prefixes_from(*index, tag as int, Seq::empty()) == prefixes_from(
                *index,
                current as int,
                texts(names@),
            ),
        invariant
            index.wf(),
            tag < index.tags(),
            current < index.tags(),
        ensures
            texts(names@) == prefixes_from(*index, tag as int, Seq::empty()),
        decreases current,
    {
        assert(index.doc().parents[current as int] == index.parents@[current as int]);
        let ghost start_names = texts(names@);
        if is_element_type(index.tag_types[current]) {
            let decls = index.get_namespace_decls(current);
            let ghost pairs = index.namespace_decls(current as int);
            let mut k: usize = 0;
            while k < decls.len()
                invariant
                    k <= decls@.len(),
                    crate::index::tags::text_pairs(decls@) == pairs,
                    texts(names@) == with_prefixes(start_names, pairs, k as int),
                decreases decls@.len() - k,
            {
                assert(pairs[k as int].0 == decls@[k as int].0@);
                add_name(&mut names, decls[k].0);
                k += 1;
            }
        }
        let up: u32 = index.parents[current];
        if up == u32::MAX {
            break ;
        }
        current = up as usize;
    }
    add_name(&mut names, "xml");
    names
}

/// The namespaces in scope at an element.
pub fn eval_namespace_axis(index: &XmlIndex, node: XPathNode) -> (r: Vec<XPathNode>)
    requires
        index.wf(),
        node_ok(*index, node),
    ensures
        r@ == namespace_axis(*index, node),
        nodes_ok(*index, r@),
{
    let tag: usize = match node {
        XPathNode::Element(i) => i,
        _ => {
            return Vec::new();
        },
    };
    if tag >= index.tag_count() {
        return Vec::new();
    }
    let names = prefixes_in_scope(index, tag);
    let ghost view = texts(names@);
    let mut out: Vec<XPathNode> = Vec::new();
    let mut k: usize = 0;
    while k < names.len()
        invariant
            tag < index.tags(),
            view == texts(names@),
            k <= names@.len(),
            out@.len() == k,
            forall|j: int|
                0 <= j < k ==> #[trigger] out@[j] == XPathNode::Namespace(tag, name_hash(view[j])),
        decreases names@.len() - k,
    {
        assert(view[k as int] == names@[k as int]@);
        out.push(XPathNode::Namespace(tag, attr_name_hash(names[k])));
        k += 1;
    }
    assert(out@ =~= namespace_axis(*index, node));
    out
}

/// The nodes on an axis: see `axis_nodes`.
pub fn eval_axis(index: &XmlIndex, node: XPathNode, axis: Axis, test: &NodeTest) -> (r: Vec<
    XPathNode,
>)
    requires
        index.wf(),
        node_ok(*index, node),
    ensures
        r@ == axis_nodes(*index, node, axis, test@),
        nodes_ok(*index, r@),
{
    match axis {
        Axis::Child => eval_child_axis(index, node),
        Axis::Descendant => eval_descendant_axis(index, node, false),
        Axis::DescendantOrSelf => eval_descendant_axis(index, node, true),
        Axis::Parent => eval_parent_axis(index, node),
        Axis::Ancestor => eval_ancestor_axis(index, node, false),
        Axis::AncestorOrSelf => eval_ancestor_axis(index, node, true),
        Axis::FollowingSibling => eval_following_sibling_axis(index, node),
        Axis::PrecedingSibling => eval_preceding_sibling_axis(index, node),
        Axis::Following => eval_following_axis(index, node),
        Axis::Preceding => eval_preceding_axis(index, node),
        Axis::SelfAxis => single(node),
        Axis::Attribute => eval_attribute_axis(index, node, test),
        Axis::Namespace => eval_namespace_axis(index, node),
    }
}

} // verus!
