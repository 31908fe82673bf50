//! Lookup tables over the document arrays: children and texts by parent,
//! matching close tags, and post-order numbers.

use vstd::prelude::*;
use crate::index::outline::Doc;
use crate::index::{TagType, XmlIndex};

verus! {

/// The ascending list of the positions below `k` whose owner is `row`.
pub open spec fn owned(owner: Seq<u32>, row: int, k: int) -> Seq<u32>
    decreases k,
{
    if k <= 0 {
        Seq::empty()
    } else if owner[k - 1] == row {
        owned(owner, row, k - 1).push((k - 1) as u32)
    } else {
        owned(owner, row, k - 1)
    }
}

/// How many positions below `k` are owned by a row below `rows`.
pub open spec fn owned_before(owner: Seq<u32>, rows: int, k: int) -> int
    decreases rows,
{
    if rows <= 0 {
        0
    } else {
        owned_before(owner, rows - 1, k) + owned(owner, rows - 1, k).len()
    }
}

/// A CSR table that lists, for each row, the positions it owns in ascending
/// order.
pub open spec fn csr_of(offsets: Seq<u32>, data: Seq<u32>, owner: Seq<u32>, rows: nat) -> bool {
    &&& offsets.len() == rows + 1
    &&& offsets[0] == 0
    &&& data.len() == offsets[rows as int]
    &&& forall|i: int, j: int| 0 <= i <= j < offsets.len() ==> offsets[i] <= offsets[j]
    &&& forall|r: int| #![trigger offsets[r]]
        0 <= r < rows ==> data.subrange(offsets[r] as int, offsets[r + 1] as int) == owned(
            owner,
            r,
            owner.len() as int,
        )
}

proof fn lemma_owned_len(owner: Seq<u32>, row: int, k: int)
    requires
        0 <= k <= owner.len(),
    ensures
        owned(owner, row, k).len() <= k,
    decreases k,
{
    if k > 0 {
        lemma_owned_len(owner, row, k - 1);
    }
}

/// Every listed position is below the bound and owned by the row, in ascending
/// order, and every owned position is listed.
pub proof fn lemma_owned(owner: Seq<u32>, row: int, k: int)
    requires
        0 <= k <= owner.len() <= u32::MAX,
    ensures
        forall|j: int|
            0 <= j < owned(owner, row, k).len() ==> #[trigger] owned(owner, row, k)[j] < k
                && owner[owned(owner, row, k)[j] as int] == row,
        forall|i: int, j: int|
            0 <= i < j < owned(owner, row, k).len() ==> owned(owner, row, k)[i] < owned(
                owner,
                row,
                k,
            )[j],
        forall|i: int|
            0 <= i < k && #[trigger] owner[i] == row ==> owned(owner, row, k).contains(i as u32),
    decreases k,
{
    if k > 0 {
        lemma_owned(owner, row, k - 1);
        let prev = owned(owner, row, k - 1);
        let cur = owned(owner, row, k);
        assert forall|i: int| 0 <= i < k && #[trigger] owner[i] == row implies cur.contains(
            i as u32,
        ) by {
            if i == k - 1 {
                assert(cur[cur.len() - 1] == i as u32);
            } else {
                let w = choose|w: int| 0 <= w < prev.len() && prev[w] == i as u32;
                assert(cur[w] == i as u32);
            }
        }
    }
}

proof fn lemma_owned_mono(owner: Seq<u32>, row: int, j: int, k: int)
    requires
        0 <= j <= k <= owner.len(),
    ensures
        owned(owner, row, j).len() <= owned(owner, row, k).len(),
    decreases k,
{
    if j < k {
        lemma_owned_mono(owner, row, j, k - 1);
    }
}

proof fn lemma_owned_before_step(owner: Seq<u32>, rows: int, k: int)
    requires
        0 <= rows,
        0 < k <= owner.len(),
    ensures
        owned_before(owner, rows, k) == owned_before(owner, rows, k - 1) + (if owner[k - 1] < rows {
            1int
        } else {
            0
        }),
    decreases rows,
{
    if rows > 0 {
        lemma_owned_before_step(owner, rows - 1, k);
    }
}

proof fn lemma_owned_before(owner: Seq<u32>, rows: int, k: int)
    requires
        0 <= rows,
        0 <= k <= owner.len(),
    ensures
        0 <= owned_before(owner, rows, k) <= k,
    decreases k,
{
    if k > 0 {
        lemma_owned_before_step(owner, rows, k);
        lemma_owned_before(owner, rows, k - 1);
    } else {
        lemma_owned_before_none(owner, rows);
    }
}

proof fn lemma_owned_before_none(owner: Seq<u32>, rows: int)
    ensures
        owned_before(owner, rows, 0) == 0,
    decreases rows,
{
    if rows > 0 {
        lemma_owned_before_none(owner, rows - 1);
    }
}

proof fn lemma_owned_before_mono(owner: Seq<u32>, i: int, j: int, k: int)
    requires
        0 <= i <= j,
        0 <= k <= owner.len(),
    ensures
        owned_before(owner, i, k) <= owned_before(owner, j, k),
    decreases j,
{
    if i < j {
        lemma_owned_before_mono(owner, i, j - 1, k);
    }
}

/// Builds the CSR table of positions by owner: count, prefix sums, fill.
pub fn build_csr(owner: &Vec<u32>, rows: usize) -> (r: (Vec<u32>, Vec<u32>))
    requires
        owner@.len() <= u32::MAX,
    ensures
        csr_of(r.0@, r.1@, owner@, rows as nat),
        forall|j: int| 0 <= j < r.1@.len() ==> #[trigger] r.1@[j] < owner@.len(),
{
    let n: usize = owner.len();
    let ghost ow = owner@;
    let mut counts: Vec<u32> = vec![0u32; rows];
    let mut i: usize = 0;
    while i < n
        invariant
            ow == owner@,
            n == ow.len(),
            n <= u32::MAX,
            i <= n,
            counts@.len() == rows,
            forall|r: int| 0 <= r < rows ==> #[trigger] counts@[r] == owned(ow, r, i as int).len(),
        decreases n - i,
    {
        let row: u32 = owner[i];
        if (row as usize) < rows {
            proof {
                lemma_owned_len(ow, row as int, i as int);
            }
            let c: u32 = counts[row as usize];
            counts.set(row as usize, c + 1);
        }
        i += 1;
    }
    let mut offsets: Vec<u32> = Vec::new();
    offsets.push(0);
    let mut r: usize = 0;
    while r < rows
        invariant
            ow == owner@,
            n == ow.len(),
            n <= u32::MAX,
            r <= rows,
            counts@.len() == rows,
            forall|q: int| 0 <= q < rows ==> #[trigger] counts@[q] == owned(ow, q, n as int).len(),
            offsets@.len() == r + 1,
            forall|q: int|
                0 <= q <= r ==> #[trigger] offsets@[q] == owned_before(ow, q, n as int),
        decreases rows - r,
    {
        proof {
            lemma_owned_before(ow, r + 1, n as int);
        }
        let next: u32 = offsets[r] + counts[r];
        offsets.push(next);
        r += 1;
    }
    proof {
        lemma_owned_before(ow, rows as int, n as int);
        assert forall|a: int, b: int| 0 <= a <= b < offsets@.len() implies offsets@[a]
            <= offsets@[b] by {
            lemma_owned_before_mono(ow, a, b, n as int);
        }
    }
    let total: usize = offsets[rows] as usize;
    let mut data: Vec<u32> = vec![0u32; total];
    let mut write: Vec<u32> = Vec::new();
    let mut k: usize = 0;
    while k < rows
        invariant
            k <= rows,
            offsets@.len() == rows + 1,
            write@ == offsets@.subrange(0, k as int),
        decreases rows - k,
    {
        write.push(offsets[k]);
        assert(write@ =~= offsets@.subrange(0, k + 1));
        k += 1;
    }
    let mut i: usize = 0;
    while i < n
        invariant
            ow == owner@,
            n == ow.len(),
            n <= u32::MAX,
            i <= n,
            offsets@.len() == rows + 1,
            forall|q: int|
                0 <= q <= rows ==> #[trigger] offsets@[q] == owned_before(ow, q, n as int),
            forall|a: int, b: int| 0 <= a <= b < offsets@.len() ==> offsets@[a] <= offsets@[b],
            data@.len() == offsets@[rows as int],
            write@.len() == rows,
            forall|q: int|
                0 <= q < rows ==> #[trigger] write@[q] == offsets@[q] + owned(
                    ow,
                    q,
                    i as int,
                ).len(),
            forall|q: int, j: int|
                #![trigger owned(ow, q, i as int)[j]]
                0 <= q < rows && 0 <= j < owned(ow, q, i as int).len() ==> data@[offsets@[q] + j]
                    == owned(ow, q, i as int)[j],
            forall|j: int| 0 <= j < data@.len() ==> #[trigger] data@[j] < n || data@[j] == 0,
        decreases n - i,
    {
        let row: u32 = owner[i];
        if (row as usize) < rows {
            let at: u32 = write[row as usize];
            proof {
                lemma_owned_mono(ow, row as int, i + 1, n as int);
                assert(offsets@[row + 1] == offsets@[row as int] + owned(
                    ow,
                    row as int,
                    n as int,
                ).len());
                assert(at < offsets@[row + 1]);
                assert(offsets@[row + 1] <= offsets@[rows as int]);
            }
            let ghost before = data@;
            data.set(at as usize, i as u32);
            write.set(row as usize, at + 1);
            proof {
                assert forall|q: int, j: int|
                    #![trigger owned(ow, q, i + 1)[j]]
                    0 <= q < rows && 0 <= j < owned(ow, q, i + 1).len() implies data@[offsets@[q]
                    + j] == owned(ow, q, i + 1)[j] by {
                    lemma_owned_mono(ow, q, i + 1, n as int);
                    assert(offsets@[q + 1] == offsets@[q] + owned(ow, q, n as int).len());
                    if q == row {
                        if j < owned(ow, q, i as int).len() {
                            assert(owned(ow, q, i + 1)[j] == owned(ow, q, i as int)[j]);
                        }
                    } else {
                        assert(owned(ow, q, i + 1) == owned(ow, q, i as int));
                        assert(before[offsets@[q] + j] == owned(ow, q, i as int)[j]);
                        if q < row {
                            assert(offsets@[q + 1] <= offsets@[row as int]);
                        } else {
                            assert(offsets@[row + 1] <= offsets@[q]);
                        }
                    }
                }
            }
        } else {
            proof {
                assert forall|q: int, j: int|
                    #![trigger owned(ow, q, i + 1)[j]]
                    0 <= q < rows && 0 <= j < owned(ow, q, i + 1).len() implies data@[offsets@[q]
                    + j] == owned(ow, q, i + 1)[j] by {
                    assert(owned(ow, q, i + 1) == owned(ow, q, i as int));
                }
            }
        }
        i += 1;
    }
    proof {
        assert forall|r: int| #![trigger offsets@[r]] 0 <= r < rows implies data@.subrange(
            offsets@[r] as int,
            offsets@[r + 1] as int,
        ) == owned(ow, r, n as int) by {
            assert(offsets@[r + 1] == offsets@[r] + owned(ow, r, n as int).len());
            assert(offsets@[r + 1] <= offsets@[rows as int]);
            let sub = data@.subrange(offsets@[r] as int, offsets@[r + 1] as int);
            assert forall|j: int| 0 <= j < sub.len() implies sub[j] == owned(
                ow,
                r,
                n as int,
            )[j] by {
                assert(data@[offsets@[r] + j] == owned(ow, r, n as int)[j]);
            }
            assert(sub =~= owned(ow, r, n as int));
        }
        if n == 0 {
            assert(owned_before(ow, rows as int, 0) == 0);
        }
    }
    (offsets, data)
}

/// Whether tags of this type are listed as children of their parent.
pub open spec fn is_child_kind(t: TagType) -> bool {
    t != TagType::Close && t != TagType::CData
}

/// The parent of each tag that is a child node; `u32::MAX` for the others.
pub open spec fn child_owner(d: Doc) -> Seq<u32> {
    Seq::new(
        d.types.len(),
        |i: int|
            if is_child_kind(d.types[i]) {
                d.parents[i]
            } else {
                u32::MAX
            },
    )
}

/// The parent of each text range.
pub open spec fn text_owner(d: Doc) -> Seq<u32> {
    Seq::new(d.texts.len(), |i: int| d.texts[i].parent_tag)
}

/// Reading tags in document order: the open tags that are not yet closed, the
/// matching close tag of each tag read so far, the post-order number of each,
/// and the next number.
#[verifier::ext_equal]
pub struct Pairing {
    pub pending: Seq<int>,
    pub close: Seq<u32>,
    pub post: Seq<u32>,
    pub counter: int,
}

impl Pairing {
    /// Reads the tag at index `i`. An open tag waits for its close tag; a close
    /// tag closes the innermost open tag and gives both the next number; any
    /// other tag takes the next number, and a self-closing tag closes itself.
    pub open spec fn step(self, t: TagType, i: int) -> Pairing {
        match t {
            TagType::Open => Pairing { pending: self.pending.push(i), ..self },
            TagType::Close => if self.pending.len() > 0 {
                let o = self.pending.last();
                Pairing {
                    pending: self.pending.drop_last(),
                    close: self.close.update(o, i as u32),
                    post: self.post.update(o, self.counter as u32).update(i, self.counter as u32),
                    counter: self.counter + 1,
                }
            } else {
                Pairing {
                    post: self.post.update(i, self.counter as u32),
                    counter: self.counter + 1,
                    ..self
                }
            },
            TagType::SelfClose => Pairing {
                close: self.close.update(i, i as u32),
                post: self.post.update(i, self.counter as u32),
                counter: self.counter + 1,
                ..self
            },
            _ => Pairing {
                post: self.post.update(i, self.counter as u32),
                counter: self.counter + 1,
                ..self
            },
        }
    }
}

/// The pairing after the first `k` tags.
pub open spec fn pairing(types: Seq<TagType>, k: int) -> Pairing
    decreases k,
{
    if k <= 0 {
        Pairing {
            pending: Seq::empty(),
            close: Seq::new(types.len(), |i: int| u32::MAX),
            post: Seq::new(types.len(), |i: int| 0u32),
            counter: 0,
        }
    } else {
        pairing(types, k - 1).step(types[k - 1], k - 1)
    }
}

/// Shape of the pairing after `k` tags.
pub proof fn lemma_pairing_shape(types: Seq<TagType>, k: int)
    requires
        0 <= k <= types.len() <= u32::MAX,
    ensures
        ({
            let p = pairing(types, k);
            &&& p.close.len() == types.len()
            &&& p.post.len() == types.len()
            &&& 0 <= p.counter <= k
            &&& p.pending.len() <= k
            &&& forall|i: int|
                0 <= i < p.pending.len() ==> 0 <= #[trigger] p.pending[i] < k
                    && types[p.pending[i]] == TagType::Open && p.close[p.pending[i]] == u32::MAX
            &&& forall|i: int, j: int|
                0 <= i < j < p.pending.len() ==> p.pending[i] < p.pending[j]
            &&& forall|i: int|
                0 <= i < types.len() ==> #[trigger] p.close[i] == u32::MAX || i <= p.close[i] < k
        }),
    decreases k,
{
    if k > 0 {
        lemma_pairing_shape(types, k - 1);
    }
}

/// Close tags and post-order numbers of the tags.
pub(crate) fn pair_tags(types: &Vec<TagType>) -> (r: (Vec<u32>, Vec<u32>))
    requires
        types@.len() <= u32::MAX,
    ensures
        r.0@ == pairing(types@, types@.len() as int).close,
        r.1@ == pairing(types@, types@.len() as int).post,
{
    let n: usize = types.len();
    let mut close_map: Vec<u32> = vec![u32::MAX; n];
    let mut post_order: Vec<u32> = vec![0u32; n];
    let mut counter: u32 = 0;
    let mut pending: Vec<usize> = Vec::new();
    let ghost ts = types@;
    assert(close_map@ =~= pairing(ts, 0).close);
    assert(post_order@ =~= pairing(ts, 0).post);
    let mut i: usize = 0;
    while i < n
        invariant
            ts == types@,
            n == ts.len(),
            n <= u32::MAX,
            i <= n,
            close_map@ == pairing(ts, i as int).close,
            post_order@ == pairing(ts, i as int).post,
            counter == pairing(ts, i as int).counter,
            pending@.len() == pairing(ts, i as int).pending.len(),
            forall|j: int|
                0 <= j < pending@.len() ==> #[trigger] pending@[j] == pairing(
                    ts,
                    i as int,
                ).pending[j],
        decreases n - i,
    {
        proof {
            lemma_pairing_shape(ts, i as int);
        }
        let ghost p = pairing(ts, i as int);
        let tt = types[i];
        if tt == TagType::Open {
            pending.push(i);
        } else {
            if tt == TagType::Close {
                if pending.len() > 0 {
                    let o: usize = pending[pending.len() - 1];
                    assert(o == p.pending.last());
                    pending.pop();
                    close_map.set(o, i as u32);
                    post_order.set(o, counter);
                }
            } else if tt == TagType::SelfClose {
                close_map.set(i, i as u32);
            }
            post_order.set(i, counter);
            counter += 1;
        }
        assert(close_map@ =~= pairing(ts, i + 1).close);
        assert(post_order@ =~= pairing(ts, i + 1).post);
        i += 1;
    }
    (close_map, post_order)
}

/// A list of positions by owner has one CSR table only.
pub proof fn lemma_csr_unique(
    offsets: Seq<u32>,
    data: Seq<u32>,
    more_offsets: Seq<u32>,
    more_data: Seq<u32>,
    owner: Seq<u32>,
    rows: nat,
)
    requires
        csr_of(offsets, data, owner, rows),
        csr_of(more_offsets, more_data, owner, rows),
    ensures
        offsets == more_offsets,
        data == more_data,
{
    lemma_csr_prefix(offsets, data, more_offsets, more_data, owner, rows, rows as int);
    assert(offsets =~= more_offsets);
    assert(data.subrange(0, offsets[rows as int] as int) =~= data);
    assert(more_data.subrange(0, offsets[rows as int] as int) =~= more_data);
}

#[verifier::spinoff_prover]
#[verifier::rlimit(60)]
proof fn lemma_csr_prefix(
    offsets: Seq<u32>,
    data: Seq<u32>,
    more_offsets: Seq<u32>,
    more_data: Seq<u32>,
    owner: Seq<u32>,
    rows: nat,
    k: int,
)
    requires
        csr_of(offsets, data, owner, rows),
        csr_of(more_offsets, more_data, owner, rows),
        0 <= k <= rows,
    ensures
        forall|r: int| 0 <= r <= k ==> #[trigger] offsets[r] == more_offsets[r],
        data.subrange(0, offsets[k] as int) == more_data.subrange(0, offsets[k] as int),
    decreases k,
{
    if k > 0 {
        let r = k - 1;
        lemma_csr_prefix(offsets, data, more_offsets, more_data, owner, rows, r);
        let a = offsets[r] as int;
        let own = owned(owner, r, owner.len() as int);
        let last = rows as int;
        assert(offsets[r] <= offsets[k] <= offsets[last]);
        assert(more_offsets[r] <= more_offsets[k] <= more_offsets[last]);
        assert(data.subrange(a, offsets[k] as int) == own);
        assert(more_data.subrange(a, more_offsets[k] as int) == own);
        assert(offsets[k] - a == own.len());
        assert(more_offsets[k] - a == own.len());
        assert(data.subrange(0, offsets[k] as int) =~= data.subrange(0, a) + own);
        assert(more_data.subrange(0, offsets[k] as int) =~= more_data.subrange(0, a) + own);
    }
}

impl<'a> XmlIndex<'a> {
    /// The tables of a document are fixed: building them again changes none.
    pub proof fn lemma_tables_fixed(&self, other: &XmlIndex<'a>)
        requires
            self.doc() == other.doc(),
            self.indexed(),
            other.indexed(),
        ensures
            self.child_offsets@ == other.child_offsets@,
            self.child_data@ == other.child_data@,
            self.text_child_offsets@ == other.text_child_offsets@,
            self.text_child_data@ == other.text_child_data@,
            self.close_map@ == other.close_map@,
            self.post_order@ == other.post_order@,
    {
        let d = self.doc();
        assert(self.tags() == d.starts.len() && other.tags() == d.starts.len());
        assert(self.tag_types@ == d.types && other.tag_types@ == d.types);
        lemma_csr_unique(
            self.child_offsets@,
            self.child_data@,
            other.child_offsets@,
            other.child_data@,
            child_owner(d),
            self.tags(),
        );
        lemma_csr_unique(
            self.text_child_offsets@,
            self.text_child_data@,
            other.text_child_offsets@,
            other.text_child_data@,
            text_owner(d),
            self.tags(),
        );
    }

    /// The lookup tables list exactly what the document arrays say.
    pub open spec fn indexed(&self) -> bool {
        &&& csr_of(
            self.child_offsets@,
            self.child_data@,
            child_owner(self.doc()),
            self.tags(),
        )
        &&& csr_of(
            self.text_child_offsets@,
            self.text_child_data@,
            text_owner(self.doc()),
            self.tags(),
        )
        &&& self.close_map@ == pairing(self.tag_types@, self.tags() as int).close
        &&& self.post_order@ == pairing(self.tag_types@, self.tags() as int).post
    }

    /// Whether the tag and text counts fit the 32-bit entries of the tables.
    pub open spec fn tables_fit(&self) -> bool {
        self.tags() <= u32::MAX && self.text_ranges@.len() <= u32::MAX
    }

    /// Builds the lookup tables for children, texts, close tags and post-order
    /// numbers. The document arrays and the name tables stay as they are.
    pub fn build_indices(&mut self)
        requires
            old(self).wf(),
            old(self).tables_fit(),
        ensures
            final(self).wf(),
            final(self).indexed(),
            final(self).input == old(self).input,
            final(self).doc() == old(self).doc(),
            final(self).name_ids@ == old(self).name_ids@,
            final(self).name_table@ == old(self).name_table@,
            final(self).name_posting@ == old(self).name_posting@,
    {
        let n: usize = self.tag_starts.len();
        let ghost d = self.doc();
        let mut owner: Vec<u32> = Vec::new();
        let mut i: usize = 0;
        while i < n
            invariant
                *self == *old(self),
                self.wf(),
                d == self.doc(),
                n == self.tags(),
                i <= n,
                owner@ == child_owner(d).subrange(0, i as int),
            decreases n - i,
        {
            let tt = self.tag_types[i];
            if tt == TagType::Close || tt == TagType::CData {
                owner.push(u32::MAX);
            } else {
                owner.push(self.parents[i]);
            }
            assert(owner@ =~= child_owner(d).subrange(0, i + 1));
            i += 1;
        }
        assert(owner@ =~= child_owner(d));
        let mut text_parent: Vec<u32> = Vec::new();
        let m: usize = self.text_ranges.len();
        let mut i: usize = 0;
        while i < m
            invariant
                *self == *old(self),
                d == self.doc(),
                m == self.text_ranges@.len(),
                i <= m,
                text_parent@ == text_owner(d).subrange(0, i as int),
            decreases m - i,
        {
            text_parent.push(self.text_ranges[i].parent_tag);
            assert(text_parent@ =~= text_owner(d).subrange(0, i + 1));
            i += 1;
        }
        assert(text_parent@ =~= text_owner(d));
        let (child_offsets, child_data) = build_csr(&owner, n);
        let (text_child_offsets, text_child_data) = build_csr(&text_parent, n);
        let (close_map, post_order) = pair_tags(&self.tag_types);
        proof {
            lemma_pairing_shape(self.tag_types@, n as int);
        }
        self.child_offsets = child_offsets;
        self.child_data = child_data;
        self.text_child_offsets = text_child_offsets;
        self.text_child_data = text_child_data;
        self.close_map = close_map;
        self.post_order = post_order;
    }
}

} // verus!
