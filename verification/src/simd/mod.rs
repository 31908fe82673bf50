//! Structural character classification in blocks of 64 bytes.
//!
//! Every byte is classified into bitmasks: one bit per byte, one mask per
//! block. Quoted regions are masked out with bit arithmetic on whole blocks.

pub mod masks;

use vstd::prelude::*;
use vstd::std_specs::bits::*;
use crate::simd::masks::{
    apply_quote_mask, bit, block_masks, lemma_clear_lowest, mask_state, marks_byte, qstep, Quote,
};

verus! {

/// Structural positions. Each `u64` is a bitmask over a 64-byte block of input.
pub struct StructuralIndex {
    /// Positions of `<` outside quotes.
    pub lt_bits: Vec<u64>,
    /// Positions of `>` outside quotes.
    pub gt_bits: Vec<u64>,
    /// Total input length.
    pub len: usize,
}

/// The number of blocks for an input of `n` bytes.
pub open spec fn block_count(n: int) -> int {
    (n + 63) / 64
}

/// Every set bit stands for a position below `n`.
pub open spec fn bits_inside(bits: Seq<u64>, n: int) -> bool {
    forall|c: int, j: u64|
        0 <= c < bits.len() && j < 64 && #[trigger] bit(bits[c], j) ==> c * 64 + j < n
}

/// The set bits of a mask from bit `j` on, each as its index plus `base`.
pub open spec fn ones(mask: u64, j: u64, base: int) -> Seq<int>
    decreases 64 - j,
{
    if j >= 64 {
        Seq::empty()
    } else if bit(mask, j) {
        seq![base + j] + ones(mask, (j + 1) as u64, base)
    } else {
        ones(mask, (j + 1) as u64, base)
    }
}

/// The positions of the set bits of all blocks from block `c` on, in ascending
/// order.
pub open spec fn bit_positions(bits: Seq<u64>, c: int) -> Seq<int>
    decreases bits.len() - c,
{
    if c < 0 || c >= bits.len() {
        Seq::empty()
    } else {
        ones(bits[c], 0, c * 64) + bit_positions(bits, c + 1)
    }
}

/// The quote state before position `k`.
pub open spec fn quote_before(s: Seq<u8>, k: int) -> Quote
    decreases k,
{
    if k <= 0 {
        Quote::Outside
    } else {
        qstep(quote_before(s, k - 1), s[k - 1] == 0x22, s[k - 1] == 0x27)
    }
}

/// Whether the byte stands at position `p`, outside quotes.
pub open spec fn unquoted(s: Seq<u8>, p: int, b: u8) -> bool {
    s[p] == b && quote_before(s, p) == Quote::Outside
}

/// The bits are those of the unquoted occurrences of a byte.
pub open spec fn marks(bits: Seq<u64>, s: Seq<u8>, b: u8) -> bool {
    &&& bits.len() == block_count(s.len() as int)
    &&& forall|c: int, j: u64|
        0 <= c < bits.len() && j < 64 ==> #[trigger] bit(bits[c], j) == (c * 64 + j < s.len()
            && unquoted(s, c * 64 + j, b))
}

impl StructuralIndex {
    /// Every set bit stands for a position of the input.
    pub open spec fn wf(&self) -> bool {
        &&& bits_inside(self.lt_bits@, self.len as int)
        &&& bits_inside(self.gt_bits@, self.len as int)
    }

    /// Iterates all `<` positions in document order.
    pub fn lt_positions(&self) -> (r: BitPositionIter<'_>)
        requires
            self.wf(),
        ensures
            r.wf(),
            r@ == bit_positions(self.lt_bits@, 0),
    {
        let r = BitPositionIter { bits: self.lt_bits.as_slice(), chunk: 0, current: 0 };
        proof {
            lemma_no_ones(0, -64);
            assert(r@ =~= bit_positions(self.lt_bits@, 0));
        }
        r
    }

    /// Iterates all `>` positions in document order.
    pub fn gt_positions(&self) -> (r: BitPositionIter<'_>)
        requires
            self.wf(),
        ensures
            r.wf(),
            r@ == bit_positions(self.gt_bits@, 0),
    {
        let r = BitPositionIter { bits: self.gt_bits.as_slice(), chunk: 0, current: 0 };
        proof {
            lemma_no_ones(0, -64);
            assert(r@ =~= bit_positions(self.gt_bits@, 0));
        }
        r
    }
}

/// A cursor over the positions of set bits across blocks. Its view is the
/// positions still to come.
pub struct BitPositionIter<'a> {
    pub bits: &'a [u64],
    pub chunk: usize,
    pub current: u64,
}

impl<'a> View for BitPositionIter<'a> {
    type V = Seq<int>;

    open spec fn view(&self) -> Seq<int> {
        ones(self.current, 0, (self.chunk - 1) * 64) + bit_positions(
            self.bits@,
            self.chunk as int,
        )
    }
}

proof fn lemma_no_ones(j: u64, base: int)
    requires
        j <= 64,
    ensures
        ones(0, j, base) == Seq::<int>::empty(),
    decreases 64 - j,
{
    if j < 64 {
        assert((0u64 >> j) & 1 == 0) by (bit_vector);
        lemma_no_ones((j + 1) as u64, base);
    }
}

/// Clear bits may be skipped, and equal bits give equal positions.
proof fn lemma_ones_agree(a: u64, b: u64, j: u64, base: int)
    requires
        j <= 64,
        forall|k: u64| j <= k < 64 ==> #[trigger] bit(a, k) == bit(b, k),
    ensures
        ones(a, j, base) == ones(b, j, base),
    decreases 64 - j,
{
    if j < 64 {
        assert(bit(a, j) == bit(b, j));
        lemma_ones_agree(a, b, (j + 1) as u64, base);
    }
}

proof fn lemma_ones_skip(a: u64, j: u64, t: u64, base: int)
    requires
        j <= t <= 64,
        forall|k: u64| j <= k < t ==> !#[trigger] bit(a, k),
    ensures
        ones(a, j, base) == ones(a, t, base),
    decreases t - j,
{
    if j < t {
        assert(!bit(a, j));
        lemma_ones_skip(a, (j + 1) as u64, t, base);
    }
}

/// The lowest set bit comes first; the others follow.
proof fn lemma_ones_first(a: u64, t: u64, base: int)
    requires
        t < 64,
        bit(a, t),
        forall|k: u64| k < t ==> !#[trigger] bit(a, k),
        a != 0,
    ensures
        ones(a, 0, base) == seq![base + t] + ones(a & ((a - 1) as u64), 0, base),
{
    let b = a & ((a - 1) as u64);
    lemma_clear_lowest(a, t);
    lemma_ones_skip(a, 0, t, base);
    lemma_ones_agree(a, b, (t + 1) as u64, base);
    assert forall|k: u64| k < t + 1 implies !#[trigger] bit(b, k) by {
        if k < t {
            assert(!bit(a, k));
        }
    }
    lemma_ones_skip(b, 0, (t + 1) as u64, base);
}

impl<'a> BitPositionIter<'a> {
    /// All positions still to come can be told as a `usize`.
    pub open spec fn wf(&self) -> bool {
        &&& self.chunk <= self.bits@.len()
        &&& self.chunk == 0 ==> self.current == 0
        &&& forall|j: u64|
            j < 64 && #[trigger] bit(self.current, j) ==> (self.chunk - 1) * 64 + j < usize::MAX
        &&& bits_inside(self.bits@, usize::MAX as int)
    }

    /// The next position, if there is one.
    pub fn next(&mut self) -> (r: Option<usize>)
        requires
            old(self).wf(),
        ensures
            final(self).wf(),
            match r {
                Some(p) => old(self)@.len() > 0 && p == old(self)@[0] && final(self)@ == old(
                    self,
                )@.drop_first(),
                None => old(self)@.len() == 0 && final(self)@ == old(self)@,
            },
    {
        let ghost start = self@;
        loop
            invariant
                self.wf(),
                self@ == start,
                start == old(self)@,
            decreases self.bits@.len() - self.chunk,
        {
            if self.current != 0 {
                let ghost before = self.current;
                let ghost base = (self.chunk - 1) * 64;
                let ghost rest = bit_positions(self.bits@, self.chunk as int);
                broadcast use axiom_u64_trailing_zeros;

                let pos: u32 = self.current.trailing_zeros();
                proof {
                    assert(bit(before, pos as u64));
                    assert forall|k: u64| k < pos implies !#[trigger] bit(before, k) by {
                        assert((before >> k) & 1 == 0);
                    }
                    lemma_ones_first(before, pos as u64, base);
                    lemma_clear_lowest(before, pos as u64);
                }
                self.current = self.current & (self.current - 1);
                proof {
                    let tail = ones(self.current, 0, base) + rest;
                    assert(start =~= seq![base + pos] + tail);
                    assert(start.drop_first() =~= tail);
                    assert forall|j: u64| j < 64 && #[trigger] bit(self.current, j) implies (
                    self.chunk - 1) * 64 + j < usize::MAX by {
                        assert(bit(before, j));
                    }
                }
                return Some((self.chunk - 1) * 64 + pos as usize);
            }
            proof {
                lemma_no_ones(0, (self.chunk - 1) * 64);
            }
            if self.chunk >= self.bits.len() {
                return None;
            }
            self.current = self.bits[self.chunk];
            self.chunk = self.chunk + 1;
            assert(self@ =~= start);
        }
    }

    /// The positions still to come.
    pub fn collect(self) -> (r: Vec<usize>)
        requires
            self.wf(),
        ensures
            r@.len() == self@.len(),
            forall|i: int| 0 <= i < r@.len() ==> #[trigger] r@[i] == self@[i],
    {
        let mut cursor = self;
        let ghost all = self@;
        let mut out: Vec<usize> = Vec::new();
        loop
            invariant
                cursor.wf(),
                out@.len() + cursor@.len() == all.len(),
                forall|i: int| 0 <= i < out@.len() ==> #[trigger] out@[i] == all[i],
                forall|i: int|
                    0 <= i < cursor@.len() ==> #[trigger] cursor@[i] == all[out@.len() + i],
            ensures
                out@.len() == all.len(),
                forall|i: int| 0 <= i < out@.len() ==> #[trigger] out@[i] == all[i],
            decreases cursor@.len(),
        {
            let ghost before = cursor@;
            match cursor.next() {
                Some(p) => {
                    out.push(p);
                    assert forall|i: int| 0 <= i < cursor@.len() implies #[trigger] cursor@[i]
                        == all[out@.len() + i] by {
                        assert(cursor@[i] == before[i + 1]);
                    }
                },
                None => {
                    break;
                },
            }
        }
        out
    }

    /// The number of positions still to come.
    pub fn count(self) -> (r: usize)
        requires
            self.wf(),
        ensures
            r == self@.len(),
    {
        self.collect().len()
    }
}

/// The state inside a block follows the state of the whole input.
proof fn lemma_block_state(s: Seq<u8>, base: int, dq: u64, sq: u64, k: u64)
    requires
        0 <= base,
        k <= 64,
        base + k <= s.len(),
        marks_byte(dq, s, base, 0x22),
        marks_byte(sq, s, base, 0x27),
    ensures
        mask_state(dq, sq, quote_before(s, base), k) == quote_before(s, base + k),
    decreases k,
{
    if k > 0 {
        let j = (k - 1) as u64;
        lemma_block_state(s, base, dq, sq, j);
        assert(bit(dq, j) == (base + j < s.len() && s[base + j] == 0x22));
        assert(bit(sq, j) == (base + j < s.len() && s[base + j] == 0x27));
    }
}

/// Classifies the input block by block.
fn classify_blocks(input: &[u8]) -> (r: StructuralIndex)
    ensures
        marks(r.lt_bits@, input@, 0x3c),
        marks(r.gt_bits@, input@, 0x3e),
        r.len == input@.len(),
        r.wf(),
{
    let n: usize = input.len();
    let ghost s = input@;
    let mut lt_bits: Vec<u64> = Vec::new();
    let mut gt_bits: Vec<u64> = Vec::new();
    let mut q: Quote = Quote::Outside;
    let mut base: usize = 0;
    let mut more: bool = n > 0;
    while more
        invariant
            n == s.len(),
            s == input@,
            lt_bits@.len() == gt_bits@.len(),
            more ==> base < n && base == lt_bits@.len() * 64 && q == quote_before(s, base as int),
            !more ==> lt_bits@.len() == block_count(n as int),
            forall|c: int, j: u64|
                0 <= c < lt_bits@.len() && j < 64 ==> #[trigger] bit(lt_bits@[c], j) == (c * 64 + j
                    < n && unquoted(s, c * 64 + j, 0x3c)),
            forall|c: int, j: u64|
                0 <= c < gt_bits@.len() && j < 64 ==> #[trigger] bit(gt_bits@[c], j) == (c * 64 + j
                    < n && unquoted(s, c * 64 + j, 0x3e)),
        decreases
            n - base,
            if more {
                1int
            } else {
                0int
            },
    {
        let (lt, gt, dq, sq) = block_masks(input, base);
        let ghost before = q;
        proof {
            assert forall|j: u64| j < 64 && #[trigger] bit(lt, j) implies !bit(dq, j) && !bit(sq, j) by {}
            assert forall|j: u64| j < 64 && #[trigger] bit(gt, j) implies !bit(dq, j) && !bit(sq, j) by {}
        }
        let masked = apply_quote_mask(lt, gt, dq, sq, q);
        proof {
            let c = lt_bits@.len() as int;
            assert forall|j: u64| j < 64 implies #[trigger] bit(masked.0, j) == (c * 64 + j < n
                && unquoted(s, c * 64 + j, 0x3c)) by {
                if base + j < n {
                    lemma_block_state(s, base as int, dq, sq, j);
                }
            }
            assert forall|j: u64| j < 64 implies #[trigger] bit(masked.1, j) == (c * 64 + j < n
                && unquoted(s, c * 64 + j, 0x3e)) by {
                if base + j < n {
                    lemma_block_state(s, base as int, dq, sq, j);
                }
            }
        }
        lt_bits.push(masked.0);
        gt_bits.push(masked.1);
        if n - base > 64 {
            proof {
                lemma_block_state(s, base as int, dq, sq, 64);
            }
            q = masked.2;
            base = base + 64;
        } else {
            more = false;
        }
    }
    let r = StructuralIndex { lt_bits, gt_bits, len: n };
    proof {
        assert forall|c: int, j: u64| 0 <= c < r.lt_bits@.len() && j < 64 && #[trigger] bit(
            r.lt_bits@[c],
            j,
        ) implies c * 64 + j < n by {}
        assert forall|c: int, j: u64| 0 <= c < r.gt_bits@.len() && j < 64 && #[trigger] bit(
            r.gt_bits@[c],
            j,
        ) implies c * 64 + j < n by {}
    }
    r
}

/// Classifies structural characters for AArch64 (64 bytes at a time).
pub fn classify_neon(input: &[u8]) -> (r: StructuralIndex)
    ensures
        marks(r.lt_bits@, input@, 0x3c),
        marks(r.gt_bits@, input@, 0x3e),
        r.len == input@.len(),
        r.wf(),
{
    classify_blocks(input)
}

/// Classifies structural characters for x86-64 (64 bytes at a time).
pub fn classify_sse42(input: &[u8]) -> (r: StructuralIndex)
    ensures
        marks(r.lt_bits@, input@, 0x3c),
        marks(r.gt_bits@, input@, 0x3e),
        r.len == input@.len(),
        r.wf(),
{
    classify_blocks(input)
}

/// Builds the structural index: a bit for each `<` and each `>` outside quotes.
pub fn classify_structural(input: &[u8]) -> (r: StructuralIndex)
    ensures
        marks(r.lt_bits@, input@, 0x3c),
        marks(r.gt_bits@, input@, 0x3e),
        r.len == input@.len(),
        r.wf(),
{
    classify_blocks(input)
}

proof fn lemma_ones_list(mask: u64, j: u64, base: int)
    requires
        j <= 64,
    ensures
        forall|k: int|
            0 <= k < ones(mask, j, base).len() ==> base + j <= #[trigger] ones(mask, j, base)[k]
                < base + 64 && bit(mask, (ones(mask, j, base)[k] - base) as u64),
        forall|k: int, l: int|
            0 <= k < l < ones(mask, j, base).len() ==> ones(mask, j, base)[k] < ones(
                mask,
                j,
                base,
            )[l],
        forall|t: u64|
            j <= t < 64 && #[trigger] bit(mask, t) ==> ones(mask, j, base).contains(base + t),
    decreases 64 - j,
{
    if j < 64 {
        lemma_ones_list(mask, (j + 1) as u64, base);
        let rest = ones(mask, (j + 1) as u64, base);
        let all = ones(mask, j, base);
        assert forall|t: u64| j <= t < 64 && #[trigger] bit(mask, t) implies all.contains(
            base + t,
        ) by {
            if t == j {
                assert(all[0] == base + j);
            } else {
                let k = choose|k: int| 0 <= k < rest.len() && rest[k] == base + t;
                if bit(mask, j) {
                    assert(all[k + 1] == base + t);
                } else {
                    assert(all[k] == base + t);
                }
            }
        }
    }
}

/// The positions that a structural index gives for a byte are exactly those at
/// which it stands outside quotes, in ascending order.
pub proof fn lemma_positions_of_marks(bits: Seq<u64>, s: Seq<u8>, b: u8, c: int)
    requires
        marks(bits, s, b),
        0 <= c <= bits.len(),
    ensures
        forall|k: int|
            0 <= k < bit_positions(bits, c).len() ==> c * 64 <= #[trigger] bit_positions(
                bits,
                c,
            )[k] < s.len() && unquoted(s, bit_positions(bits, c)[k], b),
        forall|k: int, l: int|
            0 <= k < l < bit_positions(bits, c).len() ==> bit_positions(bits, c)[k]
                < bit_positions(bits, c)[l],
        forall|p: int|
            c * 64 <= p < s.len() && #[trigger] unquoted(s, p, b) ==> bit_positions(
                bits,
                c,
            ).contains(p),
    decreases bits.len() - c,
{
    let all = bit_positions(bits, c);
    if c < bits.len() {
        lemma_positions_of_marks(bits, s, b, c + 1);
        lemma_ones_list(bits[c], 0, c * 64);
        let first = ones(bits[c], 0, c * 64);
        let rest = bit_positions(bits, c + 1);
        assert forall|k: int| 0 <= k < all.len() implies c * 64 <= #[trigger] all[k] < s.len()
            && unquoted(s, all[k], b) by {
            if k < first.len() {
                assert(all[k] == first[k]);
                let j = (first[k] - c * 64) as u64;
                assert(bit(bits[c], j));
            } else {
                assert(all[k] == rest[k - first.len()]);
            }
        }
        assert forall|p: int| c * 64 <= p < s.len() && #[trigger] unquoted(s, p, b) implies all.contains(
            p,
        ) by {
            if p < (c + 1) * 64 {
                let j = (p - c * 64) as u64;
                assert(bit(bits[c], j));
                let k = choose|k: int| 0 <= k < first.len() && first[k] == c * 64 + j;
                assert(all[k] == p);
            } else {
                let k = choose|k: int| 0 <= k < rest.len() && rest[k] == p;
                assert(all[first.len() + k] == p);
            }
        }
    }
}

/// Quotes: outside of quotes a byte that is no quotation mark changes nothing, and a
/// quotation mark opens a quoted part that the next of its kind closes; marks of the
/// other kind do not.
pub proof fn lemma_quoted_part(s: Seq<u8>, p: int, q: int, k: int, mark: u8)
    requires
        0 <= p < q < s.len(),
        mark == 0x22 || mark == 0x27,
        s[p] == mark,
        s[q] == mark,
        forall|j: int| p < j < q ==> s[j] != mark,
        quote_before(s, p) == Quote::Outside,
        p < k <= q,
    ensures
        quote_before(s, k) == (if mark == 0x22 {
            Quote::Double
        } else {
            Quote::Single
        }),
        quote_before(s, q + 1) == Quote::Outside,
    decreases k,
{
    if k > p + 1 {
        lemma_quoted_part(s, p, q, k - 1, mark);
    }
    if k < q {
        lemma_quoted_part_end(s, p, q, k, mark);
    }
}

proof fn lemma_quoted_part_end(s: Seq<u8>, p: int, q: int, k: int, mark: u8)
    requires
        0 <= p < k <= q < s.len(),
        mark == 0x22 || mark == 0x27,
        s[q] == mark,
        forall|j: int| p < j < q ==> s[j] != mark,
        quote_before(s, k) == (if mark == 0x22 {
            Quote::Double
        } else {
            Quote::Single
        }),
    ensures
        quote_before(s, q + 1) == Quote::Outside,
    decreases q - k,
{
    if k < q {
        lemma_quoted_part_end(s, p, q, k + 1, mark);
    }
}

/// Without quotation marks the state stays outside of quotes.
pub proof fn lemma_unquoted_part(s: Seq<u8>, p: int, k: int)
    requires
        0 <= p <= k <= s.len(),
        quote_before(s, p) == Quote::Outside,
        forall|j: int| p <= j < k ==> s[j] != 0x22 && s[j] != 0x27,
    ensures
        quote_before(s, k) == Quote::Outside,
        quote_before(s, 0) == Quote::Outside,
    decreases k,
{
    if k > p {
        lemma_unquoted_part(s, p, k - 1);
    }
}

} // verus!
