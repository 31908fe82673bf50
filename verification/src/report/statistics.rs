//! Statistics of an index.

use vstd::prelude::*;
use crate::index::{TagType, XmlIndex};
use crate::text::str_eq;

verus! {

/// A tag name with the number of its elements.
pub struct TagCount<'a> {
    pub name: &'a str,
    pub count: usize,
}

/// How many of the first `k` tags open an element of this name.
pub open spec fn named_count(index: XmlIndex, name: Seq<char>, k: int) -> nat
    decreases k,
{
    if k <= 0 {
        0
    } else if index.element(k - 1) && index.name_text(k - 1) == name {
        named_count(index, name, k - 1) + 1
    } else {
        named_count(index, name, k - 1)
    }
}

/// The list counts, for each name of an element among the first `k` tags, the
/// elements of that name, and lists each name once.
pub open spec fn counts_names(index: XmlIndex, list: Seq<TagCount>, k: int) -> bool {
    &&& forall|i: int| #![trigger list[i]]
        0 <= i < list.len() ==> list[i].count == named_count(index, list[i].name@, k)
            && list[i].count > 0
    &&& forall|i: int, j: int| 0 <= i < j < list.len() ==> list[i].name@ != list[j].name@
    &&& forall|t: int|
        0 <= t < k && #[trigger] index.element(t) ==> exists|i: int|
            0 <= i < list.len() && (#[trigger] list[i]).name@ == index.name_text(t)
}

/// The greatest of the first `k` depths; 0 when there are none.
pub open spec fn greatest(depths: Seq<u16>, k: int) -> u16
    decreases k,
{
    if k <= 0 {
        0
    } else {
        let before = greatest(depths, k - 1);
        if depths[k - 1] > before {
            depths[k - 1]
        } else {
            before
        }
    }
}

/// The greatest depth of a tag.
pub fn max_depth(index: &XmlIndex) -> (r: u16)
    ensures
        r == greatest(index.depths@, index.depths@.len() as int),
{
    let n: usize = index.depths.len();
    let mut best: u16 = 0;
    let mut i: usize = 0;
    while i < n
        invariant
            n == index.depths@.len(),
            i <= n,
            best == greatest(index.depths@, i as int),
        decreases n - i,
    {
        if index.depths[i] > best {
            best = index.depths[i];
        }
        i += 1;
    }
    best
}

proof fn lemma_named_count_bound(index: XmlIndex, name: Seq<char>, k: int)
    requires
        0 <= k,
    ensures
        named_count(index, name, k) <= k,
    decreases k,
{
    if k > 0 {
        lemma_named_count_bound(index, name, k - 1);
    }
}

proof fn lemma_unlisted(index: XmlIndex, list: Seq<TagCount>, name: Seq<char>, k: int)
    requires
        0 <= k,
        forall|t: int|
            0 <= t < k && #[trigger] index.element(t) ==> exists|i: int|
                0 <= i < list.len() && (#[trigger] list[i]).name@ == index.name_text(t),
        forall|i: int| 0 <= i < list.len() ==> (#[trigger] list[i]).name@ != name,
    ensures
        named_count(index, name, k) == 0,
    decreases k,
{
    if k > 0 {
        lemma_unlisted(index, list, name, k - 1);
        if index.element(k - 1) {
            let i = choose|i: int|
                0 <= i < list.len() && (#[trigger] list[i]).name@ == index.name_text(k - 1);
            assert(list[i].name@ != name);
        }
    }
}

/// The place of a name in the list, if it is listed.
fn place_of(list: &Vec<TagCount>, name: &str) -> (r: Option<usize>)
    ensures
        match r {
            Some(i) => i < list@.len() && list@[i as int].name@ == name@,
            None => forall|i: int| 0 <= i < list@.len() ==> (#[trigger] list@[i]).name@ != name@,
        },
{
    let n: usize = list.len();
    let mut i: usize = 0;
    while i < n
        invariant
            n == list@.len(),
            i <= n,
            forall|j: int| 0 <= j < i ==> (#[trigger] list@[j]).name@ != name@,
        decreases n - i,
    {
        if str_eq(list[i].name, name) {
            return Some(i);
        }
        i += 1;
    }
    None
}

/// Counts the elements of each name, in the order of first appearance.
fn count_names<'a>(index: &XmlIndex<'a>) -> (list: Vec<TagCount<'a>>)
    requires
        index.wf(),
    ensures
        counts_names(*index, list@, index.tags() as int),
{
    let n: usize = index.tag_count();
    let mut list: Vec<TagCount<'a>> = Vec::new();
    let mut k: usize = 0;
    while k < n
        invariant
            index.wf(),
            n == index.tags(),
            k <= n,
            counts_names(*index, list@, k as int),
        decreases n - k,
    {
        let ghost before = list@;
        assert(index.doc().types.len() == n);
        let tt = index.tag_types[k];
        if tt == TagType::Open || tt == TagType::SelfClose {
            let name = index.tag_name(k);
            match place_of(&list, name) {
                Some(i) => {
                    let old = &list[i];
                    proof {
                        lemma_named_count_bound(*index, name@, k as int);
                    }
                    let grown = TagCount { name: old.name, count: old.count + 1 };
                    list.set(i, grown);
                    assert forall|j: int| #![trigger list@[j]] 0 <= j < list@.len() implies list@[j].count
                        == named_count(*index, list@[j].name@, k + 1) && list@[j].count > 0 by {
                        assert(before[j].name@ == list@[j].name@);
                        if j != i {
                            if j < i {
                                assert(before[j].name@ != before[i as int].name@);
                            } else {
                                assert(before[i as int].name@ != before[j].name@);
                            }
                        }
                    }
                    assert forall|a: int, b: int| 0 <= a < b < list@.len() implies list@[a].name@
                        != list@[b].name@ by {
                        assert(before[a].name@ != before[b].name@);
                    }
                    assert forall|t: int| 0 <= t < k + 1 && #[trigger] index.element(t) implies exists|
                        j: int,
                    | 0 <= j < list@.len() && (#[trigger] list@[j]).name@ == index.name_text(t) by {
                        if t < k {
                            let j = choose|j: int|
                                0 <= j < before.len() && (#[trigger] before[j]).name@
                                    == index.name_text(t);
                            assert(list@[j].name@ == index.name_text(t));
                        } else {
                            assert(list@[i as int].name@ == index.name_text(t));
                        }
                    }
                },
                None => {
                    proof {
                        lemma_unlisted(*index, before, name@, k as int);
                    }
                    list.push(TagCount { name, count: 1 });
                    assert forall|j: int| #![trigger list@[j]] 0 <= j < list@.len() implies list@[j].count
                        == named_count(*index, list@[j].name@, k + 1) && list@[j].count > 0 by {
                        if j < before.len() {
                            assert(before[j].name@ != name@);
                        }
                    }
                    assert forall|t: int| 0 <= t < k + 1 && #[trigger] index.element(t) implies exists|
                        j: int,
                    | 0 <= j < list@.len() && (#[trigger] list@[j]).name@ == index.name_text(t) by {
                        if t < k {
                            let j = choose|j: int|
                                0 <= j < before.len() && (#[trigger] before[j]).name@
                                    == index.name_text(t);
                            assert(list@[j].name@ == index.name_text(t));
                        } else {
                            assert(list@[before.len() as int].name@ == index.name_text(t));
                        }
                    }
                },
            }
        } else {
            assert forall|j: int| #![trigger list@[j]] 0 <= j < list@.len() implies list@[j].count
                == named_count(*index, list@[j].name@, k + 1) && list@[j].count > 0 by {}
        }
        k += 1;
    }
    list
}

/// The counts descend.
pub open spec fn descending(list: Seq<TagCount>) -> bool {
    forall|i: int, j: int| 0 <= i <= j < list.len() ==> list[i].count >= list[j].count
}

/// Counts the elements of each name, the most frequent name first. The order of names
/// with equal counts is left open.
pub fn tag_statistics<'a>(index: &XmlIndex<'a>) -> (list: Vec<TagCount<'a>>)
    requires
        index.wf(),
    ensures
        counts_names(*index, list@, index.tags() as int),
        descending(list@),
{
    let mut list = count_names(index);
    let n: usize = list.len();
    let mut done: usize = 0;
    while done < n
        invariant
            n == list@.len(),
            done <= n,
            counts_names(*index, list@, index.tags() as int),
            forall|i: int, j: int|
                0 <= i < done && i <= j < n ==> list@[i].count >= list@[j].count,
        decreases n - done,
    {
        let mut best: usize = done;
        let mut i: usize = done + 1;
        while i < n
            invariant
                n == list@.len(),
                done <= best < i <= n,
                forall|j: int| done <= j < i ==> list@[best as int].count >= list@[j].count,
            decreases n - i,
        {
            if list[i].count > list[best].count {
                best = i;
            }
            i += 1;
        }
        let ghost before = list@;
        let a = TagCount { name: list[done].name, count: list[done].count };
        let b = TagCount { name: list[best].name, count: list[best].count };
        list.set(done, b);
        list.set(best, a);
        proof {
            lemma_swapped(*index, before, list@, done as int, best as int, index.tags() as int);
        }
        done += 1;
    }
    list
}

/// Swapping two entries keeps what a list counts.
proof fn lemma_swapped(
    index: XmlIndex,
    before: Seq<TagCount>,
    after: Seq<TagCount>,
    a: int,
    b: int,
    k: int,
)
    requires
        counts_names(index, before, k),
        0 <= a < before.len(),
        0 <= b < before.len(),
        after == before.update(a, before[b]).update(b, before[a]),
    ensures
        counts_names(index, after, k),
{
    let at = |i: int|
        if i == a {
            b
        } else if i == b {
            a
        } else {
            i
        };
    assert forall|i: int| 0 <= i < after.len() implies #[trigger] after[i] == before[at(i)] by {}
    assert forall|i: int, j: int| 0 <= i < j < after.len() implies after[i].name@
        != after[j].name@ by {
        assert(after[i] == before[at(i)] && after[j] == before[at(j)]);
        if at(i) < at(j) {
            assert(before[at(i)].name@ != before[at(j)].name@);
        } else {
            assert(before[at(j)].name@ != before[at(i)].name@);
        }
    }
    assert forall|t: int| 0 <= t < k && #[trigger] index.element(t) implies exists|i: int|
        0 <= i < after.len() && (#[trigger] after[i]).name@ == index.name_text(t) by {
        let i = choose|i: int|
            0 <= i < before.len() && (#[trigger] before[i]).name@ == index.name_text(t);
        assert(after[at(i)] == before[at(at(i))]);
        assert(after[at(i)].name@ == index.name_text(t));
    }
}

} // verus!
