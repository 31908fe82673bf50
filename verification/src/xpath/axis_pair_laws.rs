//! How the axes relate to each other, and which nodes pass a node test.

use vstd::prelude::*;
use vstd::utf8::*;
use crate::bytes::occurs_at;
use crate::index::{TagType, XmlIndex};
use crate::text::lemma_encode_injective;
use crate::xpath::ast::{Axis, TestV};
use crate::xpath::axes::{
    axis_nodes, chain, is_node_kind, names_beginning, prefixes_at, prefixes_from, with_name,
    with_prefixes,
};
use crate::xpath::axis_laws::{
    is_balanced, is_tree_node, lemma_axes_divide_the_elements, lemma_beside_by_place,
    lemma_descendants_and_ancestors, lemma_descendants_in_order, lemma_siblings,
};
use crate::xpath::nodes::{doc_pos, name_hash, passes, XPathNode, DOC_ROOT};
use crate::xpath::scope_laws::{
    is_faithful, is_strict, lemma_children, lemma_descendants, root_or_tag, tag_node, up,
};
use crate::xpath::strings::lemma_starts_with;

verus! {

/// The nodes on an axis; only the attribute axis looks at the node test.
pub open spec fn along(ix: XmlIndex, node: XPathNode, axis: Axis) -> Seq<XPathNode> {
    axis_nodes(ix, node, axis, TestV::Node)
}

/// A node has at most one parent. The document root has none, that of an attribute or a
/// namespace is its element, and that of a tag or a text is the tag that its entry
/// names, or the document root.
pub proof fn lemma_parent_axis(ix: XmlIndex, node: XPathNode)
    ensures
        along(ix, node, Axis::Parent).len() <= 1,
        along(ix, node, Axis::Parent).len() == 0 <==> node == XPathNode::Element(DOC_ROOT),
        node matches XPathNode::Attribute(i, _) ==> along(ix, node, Axis::Parent)
            == seq![XPathNode::Element(i)],
        node matches XPathNode::Namespace(i, _) ==> along(ix, node, Axis::Parent)
            == seq![XPathNode::Element(i)],
        node matches XPathNode::Element(i) ==> i != DOC_ROOT && ix.parents@[i as int] == u32::MAX
            ==> along(ix, node, Axis::Parent) == seq![XPathNode::Element(DOC_ROOT)],
        node matches XPathNode::Element(i) ==> i != DOC_ROOT && ix.parents@[i as int] != u32::MAX
            ==> along(ix, node, Axis::Parent) == seq![tag_node(ix.parents@[i as int] as int)],
        node matches XPathNode::Text(t) ==> ix.text_ranges@[t as int].parent_tag != u32::MAX
            ==> along(ix, node, Axis::Parent) == seq![
            tag_node(ix.text_ranges@[t as int].parent_tag as int),
        ],
{
}

/// Children and parents answer each other: a tag that is a node, or a text inside of an
/// element, is a child of a node exactly when the node is its parent.
pub proof fn lemma_child_and_parent(ix: XmlIndex, node: XPathNode, x: XPathNode)
    requires
        is_faithful(ix),
        root_or_tag(ix, node),
    ensures
        along(ix, node, Axis::Child).contains(x) <==> is_tree_node(ix, x) && along(
            ix,
            x,
            Axis::Parent,
        ) == seq![node] && !(x is Text && node == XPathNode::Element(DOC_ROOT)),
{
    lemma_children(ix, node, x);
    if is_tree_node(ix, x) {
        assert(x != XPathNode::Element(DOC_ROOT)) by {
            assert(ix.tags() == ix.tag_starts.len());
        }
        assert(along(ix, x, Axis::Parent) =~= seq![up(ix, x)]);
        assert(seq![up(ix, x)][0] == up(ix, x));
        assert(seq![node][0] == node);
    }
}

/// The ancestors of a node are its parent and the ancestors of its parent, nearest
/// first; the document root has none.
pub proof fn lemma_ancestors_by_parent(ix: XmlIndex, node: XPathNode)
    requires
        ix.wf(),
        ix.tables_fit(),
        match node {
            XPathNode::Element(i) => i == DOC_ROOT || i < ix.tags(),
            XPathNode::Text(t) => t < ix.text_ranges@.len(),
            XPathNode::Attribute(i, _) => i < ix.tags(),
            XPathNode::Namespace(i, _) => i < ix.tags(),
        },
    ensures
        along(ix, node, Axis::AncestorOrSelf) == seq![node] + along(ix, node, Axis::Ancestor),
        along(ix, node, Axis::Ancestor) == (if node == XPathNode::Element(DOC_ROOT) {
            Seq::empty()
        } else {
            along(ix, along(ix, node, Axis::Parent)[0], Axis::AncestorOrSelf)
        }),
{
    let root = XPathNode::Element(DOC_ROOT);
    assert(ix.tags() == ix.tag_starts.len());
    assert(ix.text_ranges@.len() == ix.text_ranges.len());
    assert(along(ix, node, Axis::AncestorOrSelf) =~= seq![node] + along(ix, node, Axis::Ancestor));
    if node == root {
        assert(along(ix, node, Axis::Ancestor) =~= Seq::empty());
    } else {
        let entry: u32 = match node {
            XPathNode::Element(i) => ix.parents@[i as int],
            XPathNode::Text(t) => ix.text_ranges@[t as int].parent_tag,
            XPathNode::Attribute(i, _) => i as u32,
            XPathNode::Namespace(i, _) => i as u32,
        };
        match node {
            XPathNode::Element(i) => {
                assert(ix.doc().parents[i as int] == entry);
            },
            XPathNode::Text(t) => {
                assert(ix.doc().texts[t as int].parent_tag == entry);
            },
            _ => {},
        }
        let p = along(ix, node, Axis::Parent)[0];
        if entry == u32::MAX && !(node is Attribute || node is Namespace) {
            assert(p == root);
            assert(chain(ix, entry) =~= Seq::empty());
            assert(along(ix, node, Axis::Ancestor) =~= seq![root]);
            assert(along(ix, root, Axis::AncestorOrSelf) =~= seq![root]);
        } else {
            assert(p == XPathNode::Element(entry as usize));
            assert(entry < ix.tags());
            let above = ix.parents@[entry as int];
            assert(ix.doc().parents[entry as int] == above);
            assert(p != root);
            if above == u32::MAX {
                assert(chain(ix, above) =~= Seq::empty());
            }
            assert(chain(ix, entry) =~= seq![p] + chain(ix, above));
            assert(along(ix, node, Axis::Ancestor) =~= chain(ix, entry) + seq![root]);
            assert(along(ix, p, Axis::AncestorOrSelf) =~= seq![p] + chain(ix, above) + seq![root]);
        }
    }
}

/// Descendants and ancestors answer each other, and the node itself comes before its
/// descendants where it is wanted. The self axis holds the node alone.
pub proof fn lemma_descendants_by_ancestors(ix: XmlIndex, i: int, x: XPathNode)
    requires
        is_faithful(ix),
        0 <= i < ix.tags(),
        is_node_kind(ix.tag_types@[i]),
        is_tree_node(ix, x),
    ensures
        along(ix, tag_node(i), Axis::Descendant).contains(x) <==> along(
            ix,
            x,
            Axis::Ancestor,
        ).contains(tag_node(i)),
        along(ix, tag_node(i), Axis::DescendantOrSelf) == along(ix, tag_node(i), Axis::SelfAxis)
            + along(ix, tag_node(i), Axis::Descendant),
        along(ix, tag_node(i), Axis::SelfAxis) == seq![tag_node(i)],
        is_strict(ix, along(ix, tag_node(i), Axis::Descendant)),
{
    assert(ix.tags() == ix.tag_starts.len());
    lemma_descendants_and_ancestors(ix, i, x);
    lemma_descendants_in_order(ix, tag_node(i));
}

/// The siblings of a node are the other children of its parent: those after it are on
/// the one axis, in document order, and those before it on the other, nearest first.
pub proof fn lemma_siblings_by_parent(ix: XmlIndex, node: XPathNode, x: XPathNode)
    requires
        is_faithful(ix),
        is_tree_node(ix, node),
        node matches XPathNode::Text(t) ==> ix.text_ranges@[t as int].parent_tag != u32::MAX,
    ensures
        ({
            let children = along(ix, along(ix, node, Axis::Parent)[0], Axis::Child);
            &&& along(ix, node, Axis::FollowingSibling).contains(x) <==> children.contains(x)
                && doc_pos(ix, node) < doc_pos(ix, x)
            &&& along(ix, node, Axis::PrecedingSibling).contains(x) <==> children.contains(x)
                && doc_pos(ix, x) < doc_pos(ix, node)
            &&& is_strict(ix, along(ix, node, Axis::FollowingSibling))
            &&& is_strict(ix, along(ix, node, Axis::PrecedingSibling).reverse())
        }),
{
    assert(ix.tags() == ix.tag_starts.len());
    lemma_siblings(ix, node, x);
    assert(along(ix, node, Axis::Parent)[0] == up(ix, node));
}

/// Every other element, comment and processing instruction of a balanced document is an
/// ancestor, a descendant, or on one of the two axes beside: what follows starts after
/// the node, what precedes it before.
pub proof fn lemma_following_and_preceding(ix: XmlIndex, j: int, i: int)
    requires
        is_faithful(ix),
        is_balanced(ix),
        0 <= j < ix.tags(),
        0 <= i < ix.tags(),
        is_node_kind(ix.tag_types@[j]),
        is_node_kind(ix.tag_types@[i]),
    ensures
        along(ix, tag_node(j), Axis::Following).contains(tag_node(i)) <==> i > j && !along(
            ix,
            tag_node(j),
            Axis::Descendant,
        ).contains(tag_node(i)),
        along(ix, tag_node(j), Axis::Preceding).contains(tag_node(i)) <==> i < j && !along(
            ix,
            tag_node(j),
            Axis::Ancestor,
        ).contains(tag_node(i)),
{
    assert(ix.tags() == ix.tag_starts.len());
    lemma_axes_divide_the_elements(ix, j, i);
    lemma_beside_by_place(ix, j, i);
    lemma_descendants(ix, tag_node(j), true, tag_node(i));
    lemma_descendants(ix, tag_node(j), false, tag_node(i));
}

/// Document order: the document root comes first, tags and texts come by where they
/// start, and the namespaces and then the attributes of an element come after it and
/// before all that starts later.
pub proof fn lemma_document_order(ix: XmlIndex, i: usize, j: usize, t: usize, g: u64, h: u64)
    requires
        ix.wf(),
        i < ix.tags(),
        j < ix.tags(),
        i < j,
        t < ix.text_ranges@.len(),
    ensures
        doc_pos(ix, XPathNode::Element(DOC_ROOT)) < doc_pos(ix, XPathNode::Element(i)),
        doc_pos(ix, XPathNode::Element(DOC_ROOT)) < doc_pos(ix, XPathNode::Text(t)),
        doc_pos(ix, XPathNode::Element(i)) < doc_pos(ix, XPathNode::Namespace(i, g)),
        doc_pos(ix, XPathNode::Namespace(i, g)) < doc_pos(ix, XPathNode::Attribute(i, h)),
        doc_pos(ix, XPathNode::Attribute(i, h)) < doc_pos(ix, XPathNode::Element(j)),
        ix.tag_starts@[i as int] < ix.text_ranges@[t as int].start ==> doc_pos(
            ix,
            XPathNode::Attribute(i, h),
        ) < doc_pos(ix, XPathNode::Text(t)),
        ix.text_ranges@[t as int].start < ix.tag_starts@[i as int] ==> doc_pos(
            ix,
            XPathNode::Text(t),
        ) < doc_pos(ix, XPathNode::Element(i)),
{
    assert(ix.tags() == ix.tag_starts.len());
    let d = ix.doc();
    assert(d.starts[i as int] < d.starts[j as int]);
}

/// Which nodes pass a test: every node is a `node()`; `*` and names find elements,
/// `text()` texts, `comment()` comments and `processing-instruction()` processing
/// instructions.
pub proof fn lemma_tests_by_kind(ix: XmlIndex, i: usize, t: usize, node: XPathNode)
    requires
        i < ix.tags(),
    ensures
        passes(ix, node, TestV::Node),
        passes(ix, XPathNode::Text(t), TestV::Text),
        !passes(ix, XPathNode::Text(t), TestV::Wildcard),
        !passes(ix, XPathNode::Text(t), TestV::Comment),
        !passes(ix, XPathNode::Text(t), TestV::PI),
        !passes(ix, XPathNode::Element(i), TestV::Text),
        passes(ix, XPathNode::Element(i), TestV::Wildcard) <==> ix.tag_types@[i as int]
            == TagType::Open || ix.tag_types@[i as int] == TagType::SelfClose,
        passes(ix, XPathNode::Element(i), TestV::Comment) <==> ix.tag_types@[i as int]
            == TagType::Comment,
        passes(ix, XPathNode::Element(i), TestV::PI) <==> ix.tag_types@[i as int] == TagType::PI,
{
}

/// A test for a name finds the elements that `*` finds with exactly that name, one for
/// `prefix:local` those with the whole name, and one for `prefix:*` those whose name is
/// the prefix, a colon and anything. A test for a target finds the processing
/// instructions with exactly that target.
pub proof fn lemma_tests_by_name(ix: XmlIndex, i: usize, a: Seq<char>, b: Seq<char>)
    requires
        ix.wf(),
        i < ix.tags(),
        valid_utf8(ix.name_bytes(i as int)),
    ensures
        passes(ix, XPathNode::Element(i), TestV::Name(a)) <==> passes(
            ix,
            XPathNode::Element(i),
            TestV::Wildcard,
        ) && ix.name_text(i as int) == a,
        passes(ix, XPathNode::Element(i), TestV::PIName(a)) <==> passes(
            ix,
            XPathNode::Element(i),
            TestV::PI,
        ) && ix.name_text(i as int) == a,
        b != seq!['*'] ==> (passes(ix, XPathNode::Element(i), TestV::NamespacedName(a, b))
            <==> passes(ix, XPathNode::Element(i), TestV::Wildcard) && ix.name_text(i as int) == a
            + seq![':'] + b),
        passes(ix, XPathNode::Element(i), TestV::NamespacedName(a, seq!['*'])) <==> passes(
            ix,
            XPathNode::Element(i),
            TestV::Wildcard,
        ) && exists|rest: Seq<u8>|
            ix.name_bytes(i as int) == #[trigger] (encode_utf8(a + seq![':']) + rest),
{
    reveal_strlit("*");
    reveal_strlit(":");
    assert("*"@ =~= seq!['*']);
    assert(":"@ =~= seq![':']);
    let name = ix.name_bytes(i as int);
    let text = ix.name_text(i as int);
    decode_utf8_encode_utf8(name);
    encode_utf8_decode_utf8(a);
    encode_utf8_decode_utf8(a + seq![':'] + b);
    lemma_encode_injective(text, a);
    lemma_encode_injective(text, a + seq![':'] + b);
    let head = encode_utf8(a + seq![':']);
    if occurs_at(name, 0, head) {
        let rest = name.skip(head.len() as int);
        assert(name =~= head + rest);
    }
    if exists|rest: Seq<u8>| name == #[trigger] (head + rest) {
        let rest = choose|rest: Seq<u8>| name == #[trigger] (head + rest);
        assert forall|j: int| 0 <= j < head.len() implies #[trigger] head[j] == name[0 + j] by {}
        assert(occurs_at(name, 0, head));
    }
}

/// The attribute axis for a name holds the attribute of that name, if the tag has one,
/// and nothing else.
pub proof fn lemma_attribute_axis(ix: XmlIndex, i: usize, name: Seq<char>)
    ensures
        axis_nodes(ix, XPathNode::Element(i), Axis::Attribute, TestV::Name(name)) == (if ix.attribute(
            i as int,
            name,
        ) is Some {
            seq![XPathNode::Attribute(i, name_hash(name))]
        } else {
            Seq::empty()
        }),
        axis_nodes(ix, XPathNode::Element(i), Axis::Attribute, TestV::Wildcard) == axis_nodes(
            ix,
            XPathNode::Element(i),
            Axis::Attribute,
            TestV::Node,
        ),
        axis_nodes(ix, XPathNode::Element(i), Axis::Attribute, TestV::Wildcard)
            == ix.attribute_names(i as int).map_values(
            |n: Seq<char>| XPathNode::Attribute(i, name_hash(n)),
        ),
{
    let names = ix.attribute_names(i as int);
    lemma_all_begin(names, names.len() as int);
    assert(names.take(names.len() as int) =~= names);
}

/// Every name begins with nothing.
proof fn lemma_all_begin(names: Seq<Seq<char>>, k: int)
    requires
        0 <= k <= names.len(),
    ensures
        names_beginning(names, Seq::empty(), k) == names.take(k),
    decreases k,
{
    if k > 0 {
        lemma_all_begin(names, k - 1);
        assert(names.take(k) =~= names.take(k - 1).push(names[k - 1]));
    } else {
        assert(names.take(0) =~= Seq::empty());
    }
}

/// The namespace axis holds one node for each prefix in scope.
pub proof fn lemma_namespace_axis(ix: XmlIndex, i: usize)
    requires
        i < ix.tags(),
    ensures
        along(ix, XPathNode::Element(i), Axis::Namespace) == prefixes_at(ix, i as int).map_values(
            |n: Seq<char>| XPathNode::Namespace(i, name_hash(n)),
        ),
{
}

/// Whether a tag declares a prefix.
pub open spec fn declares(ix: XmlIndex, tag: int, prefix: Seq<char>) -> bool {
    ix.element(tag) && exists|k: int|
        0 <= k < ix.namespace_decls(tag).len() && (#[trigger] ix.namespace_decls(tag)[k]).0
            == prefix
}

/// A prefix is in scope at a tag when the tag or one of its ancestors declares it, or it
/// is `xml`; no prefix is listed twice.
pub proof fn lemma_prefixes_in_scope(ix: XmlIndex, tag: int, prefix: Seq<char>)
    requires
        ix.wf(),
        ix.tables_fit(),
        0 <= tag < ix.tags(),
    ensures
        prefixes_at(ix, tag).contains(prefix) <==> prefix == seq!['x', 'm', 'l'] || declares(
            ix,
            tag,
            prefix,
        ) || exists|up: XPathNode|
            chain(ix, ix.parents@[tag]).contains(up) && #[trigger] declares(
                ix,
                up->Element_0 as int,
                prefix,
            ),
        prefixes_at(ix, tag).no_duplicates(),
{
    reveal_strlit("xml");
    assert("xml"@ =~= seq!['x', 'm', 'l']);
    let none = Seq::<Seq<char>>::empty();
    lemma_prefixes_from(ix, tag, none, prefix);
    lemma_with_name(prefixes_from(ix, tag, none), "xml"@, prefix);
}

proof fn lemma_with_name(names: Seq<Seq<char>>, name: Seq<char>, x: Seq<char>)
    ensures
        with_name(names, name).contains(x) <==> names.contains(x) || x == name,
        names.no_duplicates() ==> with_name(names, name).no_duplicates(),
{
    if !names.contains(name) {
        let all = names.push(name);
        assert(all[names.len() as int] == name);
        if names.contains(x) {
            let w = choose|w: int| 0 <= w < names.len() && names[w] == x;
            assert(all[w] == x);
        }
        if all.contains(x) && x != name {
            let w = choose|w: int| 0 <= w < all.len() && all[w] == x;
            assert(names[w] == x);
        }
    }
}

proof fn lemma_with_prefixes(
    names: Seq<Seq<char>>,
    decls: Seq<(Seq<char>, Seq<char>)>,
    k: int,
    x: Seq<char>,
)
    requires
        0 <= k <= decls.len(),
    ensures
        with_prefixes(names, decls, k).contains(x) <==> names.contains(x) || exists|j: int|
            0 <= j < k && (#[trigger] decls[j]).0 == x,
        names.no_duplicates() ==> with_prefixes(names, decls, k).no_duplicates(),
    decreases k,
{
    if k > 0 {
        lemma_with_prefixes(names, decls, k - 1, x);
        lemma_with_name(with_prefixes(names, decls, k - 1), decls[k - 1].0, x);
    }
}

proof fn lemma_prefixes_from(ix: XmlIndex, tag: int, names: Seq<Seq<char>>, x: Seq<char>)
    requires
        ix.wf(),
        ix.tables_fit(),
        0 <= tag < ix.tags(),
    ensures
        prefixes_from(ix, tag, names).contains(x) <==> names.contains(x) || declares(ix, tag, x)
            || exists|up: XPathNode|
            chain(ix, ix.parents@[tag]).contains(up) && #[trigger] declares(
                ix,
                up->Element_0 as int,
                x,
            ),
        names.no_duplicates() ==> prefixes_from(ix, tag, names).no_duplicates(),
    decreases tag,
{
    assert(ix.tags() == ix.tag_starts.len());
    let decls = ix.namespace_decls(tag);
    lemma_with_prefixes(names, decls, decls.len() as int, x);
    let own = if ix.element(tag) {
        with_prefixes(names, decls, decls.len() as int)
    } else {
        names
    };
    let up = ix.parents@[tag];
    assert(ix.doc().parents[tag] == up);
    let above = chain(ix, up);
    if up == u32::MAX {
        assert(above =~= Seq::empty());
    } else {
        lemma_prefixes_from(ix, up as int, own, x);
        let head = XPathNode::Element(up as usize);
        let next = ix.parents@[up as int];
        assert(ix.doc().parents[up as int] == next);
        let rest = chain(ix, next);
        if next == u32::MAX {
            assert(rest =~= Seq::empty());
        }
        assert(above =~= seq![head] + rest);
        assert(above[0] == head);
        assert forall|y: XPathNode| #[trigger] above.contains(y) <==> y == head || rest.contains(y) by {
            if rest.contains(y) {
                let w = choose|w: int| 0 <= w < rest.len() && rest[w] == y;
                assert(above[w + 1] == y);
            }
            if above.contains(y) && y != head {
                let w = choose|w: int| 0 <= w < above.len() && above[w] == y;
                assert(rest[w - 1] == y);
            }
        }
        if declares(ix, up as int, x) {
            assert(above.contains(head) && declares(ix, head->Element_0 as int, x));
        }
        if exists|y: XPathNode|
            rest.contains(y) && #[trigger] declares(ix, y->Element_0 as int, x) {
            let y = choose|y: XPathNode|
                rest.contains(y) && #[trigger] declares(ix, y->Element_0 as int, x);
            assert(above.contains(y) && declares(ix, y->Element_0 as int, x));
        }
        if exists|y: XPathNode|
            above.contains(y) && #[trigger] declares(ix, y->Element_0 as int, x) {
            let y = choose|y: XPathNode|
                above.contains(y) && #[trigger] declares(ix, y->Element_0 as int, x);
            if y != head {
                assert(rest.contains(y) && declares(ix, y->Element_0 as int, x));
            }
        }
    }
}

/// The attributes for a prefix and an asterisk are those whose names begin with the
/// prefix and a colon, in order.
pub proof fn lemma_names_beginning(names: Seq<Seq<char>>, head: Seq<char>, k: int, x: Seq<char>)
    requires
        0 <= k <= names.len(),
    ensures
        names_beginning(names, head, k).contains(x) <==> names.take(k).contains(x) && exists|
            rest: Seq<char>,
        |
            x == #[trigger] (head + rest),
    decreases k,
{
    if k == 0 {
        assert(names.take(0) =~= Seq::empty());
    } else {
        lemma_names_beginning(names, head, k - 1, x);
        lemma_starts_with(names[k - 1], head);
        let before = names_beginning(names, head, k - 1);
        let y = names[k - 1];
        let old = names.take(k - 1);
        assert(names.take(k) =~= old.push(y));
        assert(old.push(y).contains(x) <==> old.contains(x) || x == y) by {
            assert(old.push(y)[old.len() as int] == y);
            if old.contains(x) {
                let w = choose|w: int| 0 <= w < old.len() && old[w] == x;
                assert(old.push(y)[w] == x);
            }
        }
        assert(before.push(y).contains(x) <==> before.contains(x) || x == y) by {
            assert(before.push(y)[before.len() as int] == y);
            if before.contains(x) {
                let w = choose|w: int| 0 <= w < before.len() && before[w] == x;
                assert(before.push(y)[w] == x);
            }
        }
    }
}

} // verus!
