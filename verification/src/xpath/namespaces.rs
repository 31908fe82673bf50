//! The namespace that the name of a node belongs to.

use vstd::prelude::*;
use crate::index::access::is_element_type;
use crate::index::entities::decoded;
use crate::index::tags::text_pairs;
use crate::index::XmlIndex;
use crate::text::{str_eq, texts};
use crate::xpath::axes::{prefixes_at, prefixes_in_scope};
use crate::xpath::nodes::{attr_name_hash, name_hash, node_ok, XPathNode};
use crate::xpath::strings::{
    before_part, find_part, lemma_find_part, lemma_stands_at, stands_at, text_before,
};
use crate::xpath::values::{empty_string, owned_text};

verus! {

/// The prefix of a name: what stands before its first colon.
pub open spec fn prefix_of(name: Seq<char>) -> Seq<char> {
    text_before(name, ":"@)
}

/// The URI that the first declaration of a prefix from `k` on gives.
pub open spec fn declared_from(
    decls: Seq<(Seq<char>, Seq<char>)>,
    prefix: Seq<char>,
    k: int,
) -> Option<Seq<char>>
    decreases decls.len() - k,
{
    if k < 0 || k >= decls.len() {
        None
    } else if decls[k].0 == prefix {
        Some(decls[k].1)
    } else {
        declared_from(decls, prefix, k + 1)
    }
}

/// The URI that a tag declares for a prefix; without a prefix, for names that have
/// none.
pub open spec fn declared(ix: XmlIndex, tag: int, prefix: Seq<char>) -> Option<Seq<char>> {
    if prefix.len() == 0 {
        ix.attribute(tag, "xmlns"@)
    } else {
        declared_from(ix.namespace_decls(tag), prefix, 0)
    }
}

/// The URI of a prefix that no tag declares. The prefix `xml` needs no declaration.
pub open spec fn built_in(prefix: Seq<char>) -> Seq<char> {
    if prefix == "xml"@ {
        "http://www.w3.org/XML/1998/namespace"@
    } else {
        Seq::empty()
    }
}

/// The URI that a tag or its nearest ancestor with a declaration gives a prefix.
pub open spec fn uri_from(ix: XmlIndex, tag: int, prefix: Seq<char>) -> Seq<char>
    decreases tag,
{
    match declared(ix, tag, prefix) {
        Some(uri) => uri,
        None => {
            let up = ix.parents@[tag];
            if tag < 0 || up == u32::MAX || up >= tag {
                built_in(prefix)
            } else {
                uri_from(ix, up as int, prefix)
            }
        },
    }
}

/// The first name from `k` on with the given hash.
pub open spec fn name_with_hash(names: Seq<Seq<char>>, hash: u64, k: int) -> Seq<char>
    decreases names.len() - k,
{
    if k < 0 || k >= names.len() {
        Seq::empty()
    } else if name_hash(names[k]) == hash {
        names[k]
    } else {
        name_with_hash(names, hash, k + 1)
    }
}

/// The URI of the namespace in scope at a tag whose prefix has the given hash, with
/// its references expanded.
pub open spec fn scope_uri(ix: XmlIndex, tag: int, hash: u64) -> Seq<char> {
    let prefix = name_with_hash(prefixes_at(ix, tag), hash, 0);
    if prefix.len() == 0 {
        Seq::empty()
    } else {
        decoded(uri_from(ix, tag, prefix), 0)
    }
}

/// The namespace URI of an element or an attribute. An attribute without a prefix
/// belongs to no namespace; other nodes have none.
pub open spec fn node_uri(ix: XmlIndex, node: XPathNode) -> Seq<char> {
    match node {
        XPathNode::Element(i) => if i < ix.tags() && ix.element(i as int) {
            uri_from(ix, i as int, prefix_of(ix.name_text(i as int)))
        } else {
            Seq::empty()
        },
        XPathNode::Attribute(i, h) => {
            let prefix = prefix_of(name_with_hash(ix.attribute_names(i as int), h, 0));
            if prefix.len() == 0 {
                Seq::empty()
            } else {
                uri_from(ix, i as int, prefix)
            }
        },
        _ => Seq::empty(),
    }
}

fn find_declared(index: &XmlIndex, tag: usize, prefix: &str) -> (r: Option<String>)
    requires
        index.wf(),
        tag < index.tags(),
    ensures
        match r {
            Some(uri) => declared(*index, tag as int, prefix@) == Some(uri@),
            None => declared(*index, tag as int, prefix@) is None,
        },
{
    if prefix.is_empty() {
        return match index.get_attribute(tag, "xmlns") {
            Some(uri) => Some(uri.to_owned()),
            None => None,
        };
    }
    let decls = index.get_namespace_decls(tag);
    let ghost view = text_pairs(decls@);
    let n: usize = decls.len();
    let mut k: usize = 0;
    while k < n
        invariant
            n == decls@.len(),
            k <= n,
            view == text_pairs(decls@),
            view == index.namespace_decls(tag as int),
            prefix@.len() > 0,
            declared_from(view, prefix@, 0) == declared_from(view, prefix@, k as int),
        decreases n - k,
    {
        assert(view[k as int] == (decls@[k as int].0@, decls@[k as int].1@));
        if str_eq(decls[k].0, prefix) {
            return Some(decls[k].1.to_owned());
        }
        k += 1;
    }
    None
}

fn find_uri(index: &XmlIndex, tag: usize, prefix: &str) -> (r: String)
    requires
        index.wf(),
        tag < index.tags(),
    ensures
        r@ == uri_from(*index, tag as int, prefix@),
{
    let mut current: usize = tag;
    loop
        invariant
            index.wf(),
            current < index.tags(),
            uri_from(*index, tag as int, prefix@) == uri_from(*index, current as int, prefix@),
        decreases current,
    {
        assert(index.doc().parents[current as int] == index.parents@[current as int]);
        match find_declared(index, current, prefix) {
            Some(uri) => {
                return uri;
            },
            None => {},
        }
        let up: u32 = index.parents[current];
        if up == u32::MAX {
            return if str_eq(prefix, "xml") {
                "http://www.w3.org/XML/1998/namespace".to_owned()
            } else {
                empty_string()
            };
        }
        current = up as usize;
    }
}

/// The name of the attribute with the given hash: see `name_with_hash`.
pub(crate) fn find_hashed(index: &XmlIndex, tag: usize, hash: u64) -> (r: String)
    requires
        index.wf(),
        tag < index.tags(),
    ensures
        r@ == name_with_hash(index.attribute_names(tag as int), hash, 0),
{
    find_in(&index.get_all_attribute_names(tag), hash)
}

/// The prefix in scope with the given hash: see `name_with_hash`.
pub(crate) fn find_prefix(index: &XmlIndex, tag: usize, hash: u64) -> (r: String)
    requires
        index.wf(),
        tag < index.tags(),
    ensures
        r@ == name_with_hash(prefixes_at(*index, tag as int), hash, 0),
{
    find_in(&prefixes_in_scope(index, tag), hash)
}

/// The URI of the namespace with the given hash: see `scope_uri`.
pub(crate) fn namespace_value(index: &XmlIndex, tag: usize, hash: u64) -> (r: String)
    requires
        index.wf(),
        tag < index.tags(),
    ensures
        r@ == scope_uri(*index, tag as int, hash),
{
    let prefix = find_prefix(index, tag, hash);
    if prefix.as_str().is_empty() {
        return empty_string();
    }
    let uri = find_uri(index, tag, prefix.as_str());
    owned_text(XmlIndex::decode_entities(uri.as_str()))
}

/// The first of the names with the given hash: see `name_with_hash`.
fn find_in(names: &Vec<&str>, hash: u64) -> (r: String)
    ensures
        r@ == name_with_hash(texts(names@), hash, 0),
{
    let ghost view = texts(names@);
    let n: usize = names.len();
    let mut k: usize = 0;
    while k < n
        invariant
            n == names@.len(),
            k <= n,
            view == texts(names@),
            name_with_hash(view, hash, 0) == name_with_hash(view, hash, k as int),
        decreases n - k,
    {
        assert(view[k as int] == names@[k as int]@);
        if attr_name_hash(names[k]) == hash {
            return names[k].to_owned();
        }
        k += 1;
    }
    empty_string()
}

/// The namespace URI of a node: see `node_uri`.
pub fn namespace_uri(index: &XmlIndex, node: XPathNode) -> (r: String)
    requires
        index.wf(),
        node_ok(*index, node),
    ensures
        r@ == node_uri(*index, node),
{
    match node {
        XPathNode::Element(i) => {
            if i >= index.tag_count() || !is_element_type(index.tag_types[i]) {
                return empty_string();
            }
            let prefix = before_part(index.tag_name(i), ":");
            find_uri(index, i, prefix.as_str())
        },
        XPathNode::Attribute(i, h) => {
            let name = find_hashed(index, i, h);
            let prefix = before_part(name.as_str(), ":");
            if prefix.as_str().is_empty() {
                return empty_string();
            }
            find_uri(index, i, prefix.as_str())
        },
        _ => empty_string(),
    }
}

/// A declaration gives a prefix its URI: of several of a tag the first, and of several on
/// the way up the nearest. Without any, the prefix `xml` has the URI that is built in,
/// and any other none.
pub proof fn lemma_uri(ix: XmlIndex, tag: int, prefix: Seq<char>)
    requires
        ix.wf(),
        0 <= tag < ix.tags(),
    ensures
        declared(ix, tag, prefix) matches Some(uri) ==> uri_from(ix, tag, prefix) == uri,
        declared(ix, tag, prefix) is None && ix.parents@[tag] != u32::MAX ==> uri_from(
            ix,
            tag,
            prefix,
        ) == uri_from(ix, ix.parents@[tag] as int, prefix),
        declared(ix, tag, prefix) is None && ix.parents@[tag] == u32::MAX && prefix
            == seq!['x', 'm', 'l'] ==> uri_from(ix, tag, prefix)
            == "http://www.w3.org/XML/1998/namespace"@,
        declared(ix, tag, prefix) is None && ix.parents@[tag] == u32::MAX && prefix
            != seq!['x', 'm', 'l'] ==> uri_from(ix, tag, prefix).len() == 0,
{
    reveal_strlit("xml");
    assert("xml"@ =~= seq!['x', 'm', 'l']);
    assert(ix.doc().parents[tag] == ix.parents@[tag]);
}

/// A tag declares a URI for a prefix when it has a declaration of it, the first of them;
/// for names without a prefix, when it has an attribute `xmlns`.
pub proof fn lemma_declared(ix: XmlIndex, tag: int, prefix: Seq<char>)
    ensures
        prefix.len() == 0 ==> declared(ix, tag, prefix) == ix.attribute(tag, "xmlns"@),
        prefix.len() > 0 ==> match declared(ix, tag, prefix) {
            Some(uri) => exists|k: int|
                0 <= k < ix.namespace_decls(tag).len() && #[trigger] ix.namespace_decls(tag)[k] == (
                    prefix,
                    uri,
                ) && forall|j: int|
                    0 <= j < k ==> (#[trigger] ix.namespace_decls(tag)[j]).0 != prefix,
            None => forall|j: int|
                0 <= j < ix.namespace_decls(tag).len() ==> (
                #[trigger] ix.namespace_decls(tag)[j]).0 != prefix,
        },
{
    if prefix.len() > 0 {
        lemma_declared_from(ix.namespace_decls(tag), prefix, 0);
    }
}

proof fn lemma_declared_from(decls: Seq<(Seq<char>, Seq<char>)>, prefix: Seq<char>, k: int)
    requires
        0 <= k,
    ensures
        match declared_from(decls, prefix, k) {
            Some(uri) => exists|i: int|
                k <= i < decls.len() && #[trigger] decls[i] == (prefix, uri) && forall|j: int|
                    k <= j < i ==> (#[trigger] decls[j]).0 != prefix,
            None => forall|j: int| k <= j < decls.len() ==> (#[trigger] decls[j]).0 != prefix,
        },
    decreases decls.len() - k,
{
    if k < decls.len() {
        if decls[k].0 == prefix {
            assert(decls[k] == (prefix, decls[k].1));
        } else {
            lemma_declared_from(decls, prefix, k + 1);
            if let Some(uri) = declared_from(decls, prefix, k + 1) {
                let i = choose|i: int|
                    k + 1 <= i < decls.len() && #[trigger] decls[i] == (prefix, uri) && forall|
                        j: int,
                    |
                        k + 1 <= j < i ==> (#[trigger] decls[j]).0 != prefix;
                assert(decls[i] == (prefix, uri));
            }
        }
    }
}

/// The namespace of an element is that of the prefix of its name; that of an attribute
/// is that of its prefix, and none when it has no prefix. Texts and comments have none.
pub proof fn lemma_namespaces_of_nodes(ix: XmlIndex, i: usize, t: usize, name: Seq<char>)
    requires
        i < ix.tags(),
    ensures
        ix.element(i as int) ==> node_uri(ix, XPathNode::Element(i)) == uri_from(
            ix,
            i as int,
            prefix_of(ix.name_text(i as int)),
        ),
        !ix.element(i as int) ==> node_uri(ix, XPathNode::Element(i)).len() == 0,
        node_uri(ix, XPathNode::Text(t)).len() == 0,
        only_of_hash(ix.attribute_names(i as int), name) ==> node_uri(
            ix,
            XPathNode::Attribute(i, name_hash(name)),
        ) == (if name.contains(':') && prefix_of(name).len() > 0 {
            uri_from(ix, i as int, prefix_of(name))
        } else {
            Seq::empty()
        }),
{
    if only_of_hash(ix.attribute_names(i as int), name) {
        lemma_name_of_hash(ix.attribute_names(i as int), name, 0);
        lemma_prefix(name);
    }
}

/// Whether a name is one of several and no other of them has its hash.
pub open spec fn only_of_hash(names: Seq<Seq<char>>, name: Seq<char>) -> bool {
    &&& exists|w: int| 0 <= w < names.len() && #[trigger] names[w] == name
    &&& forall|j: int|
        0 <= j < names.len() ==> name_hash(#[trigger] names[j]) == name_hash(name) ==> names[j]
            == name
}

/// The value of a namespace node is the URI of its prefix, with the references expanded.
pub proof fn lemma_uri_of_namespace(ix: XmlIndex, tag: int, prefix: Seq<char>)
    requires
        only_of_hash(prefixes_at(ix, tag), prefix),
        prefix.len() > 0,
    ensures
        scope_uri(ix, tag, name_hash(prefix)) == decoded(uri_from(ix, tag, prefix), 0),
{
    lemma_name_of_hash(prefixes_at(ix, tag), prefix, 0);
}

/// The prefix of a name is what stands before its first colon, and is empty without one.
pub proof fn lemma_prefix(name: Seq<char>)
    ensures
        !name.contains(':') ==> prefix_of(name).len() == 0,
        name.contains(':') ==> !prefix_of(name).contains(':') && prefix_of(name).len()
            < name.len() && name[prefix_of(name).len() as int] == ':' && name.take(
            prefix_of(name).len() as int,
        ) == prefix_of(name),
{
    reveal_strlit(":");
    let colon = ":"@;
    assert(colon =~= seq![':']);
    lemma_find_part(name, 0, colon);
    match find_part(name, 0, colon) {
        Some(i) => {
            let prefix = name.subrange(0, i);
            assert(name.subrange(i, i + 1)[0] == colon[0]);
            assert(name.take(i) =~= prefix);
            assert forall|j: int| 0 <= j < prefix.len() implies prefix[j] != ':' by {
                lemma_stands_at(name, j, colon);
                assert(!stands_at(name, j, colon));
                assert(name.subrange(j, j + 1) != colon);
                if name[j] == ':' {
                    assert(name.subrange(j, j + 1) =~= colon);
                }
            }
        },
        None => {
            assert forall|j: int| 0 <= j < name.len() implies name[j] != ':' by {
                lemma_stands_at(name, j, colon);
                assert(!stands_at(name, j, colon));
                if name[j] == ':' {
                    assert(name.subrange(j, j + 1) =~= colon);
                }
            }
        },
    }
}

/// The first name with a hash is the one that it was made of, as long as no other name
/// has the same.
pub proof fn lemma_name_of_hash(names: Seq<Seq<char>>, name: Seq<char>, k: int)
    requires
        0 <= k,
        exists|w: int| k <= w < names.len() && #[trigger] names[w] == name,
        forall|j: int|
            k <= j < names.len() ==> name_hash(#[trigger] names[j]) == name_hash(name) ==> names[j]
                == name,
    ensures
        name_with_hash(names, name_hash(name), k) == name,
    decreases names.len() - k,
{
    let w = choose|w: int| k <= w < names.len() && #[trigger] names[w] == name;
    if name_hash(names[k]) != name_hash(name) {
        assert(w > k);
        assert(names[w] == name);
        lemma_name_of_hash(names, name, k + 1);
    }
}

} // verus!
