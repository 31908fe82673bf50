//! Bitmasks over blocks of 64 bytes.

use vstd::prelude::*;

verus! {

/// Whether bit `j` of the mask is set.
pub open spec fn bit(mask: u64, j: u64) -> bool {
    (mask >> j) & 1 == 1
}

/// Where a position stands: outside quotes, or inside double or single quotes.
#[derive(Clone, Copy, PartialEq, Eq, Structural)]
pub enum Quote {
    Outside,
    Double,
    Single,
}

/// The quote state after one more byte, given whether it is a double or a single
/// quote.
pub open spec fn qstep(q: Quote, double: bool, single: bool) -> Quote {
    match q {
        Quote::Outside => if double {
            Quote::Double
        } else if single {
            Quote::Single
        } else {
            Quote::Outside
        },
        Quote::Double => if double {
            Quote::Outside
        } else {
            Quote::Double
        },
        Quote::Single => if single {
            Quote::Outside
        } else {
            Quote::Single
        },
    }
}

/// The quote state before bit `k`, given where the quotes stand and the state
/// before the block.
pub open spec fn mask_state(dq: u64, sq: u64, q: Quote, k: u64) -> Quote
    decreases k,
{
    if k == 0 {
        q
    } else {
        qstep(
            mask_state(dq, sq, q, (k - 1) as u64),
            bit(dq, (k - 1) as u64),
            bit(sq, (k - 1) as u64),
        )
    }
}

/// Clearing the lowest set bit leaves the other bits.
pub proof fn lemma_clear_lowest(a: u64, t: u64)
    requires
        t < 64,
        bit(a, t),
        forall|k: u64| k < t ==> !#[trigger] bit(a, k),
        a != 0,
    ensures
        forall|k: u64|
            k < 64 ==> #[trigger] bit(a & ((a - 1) as u64), k) == (bit(a, k) && k != t),
{
    let b = a & ((a - 1) as u64);
    lemma_low_zero(a, t);
    assert forall|k: u64| k < 64 implies #[trigger] bit(b, k) == (bit(a, k) && k != t) by {
        assert((((a & ((a - 1) as u64)) >> k) & 1 == 1) == ((a >> k) & 1 == 1 && k != t)) by (bit_vector)
            requires
                k < 64,
                t < 64,
                (a >> t) & 1 == 1,
                a & (((1u64 << t) - 1) as u64) == 0,
        ;
    }
}

/// A mask whose bits below `t` are clear is zero there.
proof fn lemma_low_zero(a: u64, t: u64)
    requires
        t < 64,
        forall|k: u64| k < t ==> !#[trigger] bit(a, k),
    ensures
        a & (((1u64 << t) - 1) as u64) == 0,
    decreases t,
{
    if t == 0 {
        assert(a & (((1u64 << 0u64) - 1) as u64) == 0) by (bit_vector);
    } else {
        let p = (t - 1) as u64;
        lemma_low_zero(a, p);
        assert(!bit(a, p));
        assert(a & (((1u64 << t) - 1) as u64) == 0) by (bit_vector)
            requires
                0 < t < 64,
                p + 1 == t,
                a & (((1u64 << p) - 1) as u64) == 0,
                (a >> p) & 1 != 1,
        ;
    }
}

/// Setting a bit leaves the others.
pub proof fn lemma_set_bit(m: u64, i: u64)
    requires
        i < 64,
    ensures
        forall|j: u64| j < 64 ==> #[trigger] bit(m | (1u64 << i), j) == (bit(m, j) || j == i),
{
    assert forall|j: u64| j < 64 implies #[trigger] bit(m | (1u64 << i), j) == (bit(m, j) || j
        == i) by {
        assert((((m | (1u64 << i)) >> j) & 1 == 1) == ((m >> j) & 1 == 1 || j == i))
            by (bit_vector)
            requires
                i < 64,
                j < 64,
        ;
    }
}

/// No bit of zero is set.
pub proof fn lemma_zero_bits()
    ensures
        forall|j: u64| j < 64 ==> !#[trigger] bit(0, j),
{
    assert forall|j: u64| j < 64 implies !#[trigger] bit(0, j) by {
        assert((0u64 >> j) & 1 != 1) by (bit_vector);
    }
}

/// Masking one mask with the complement of another, bit by bit.
proof fn lemma_and_not(m: u64, q: u64)
    ensures
        forall|j: u64| j < 64 ==> #[trigger] bit(m & !q, j) == (bit(m, j) && !bit(q, j)),
        forall|j: u64| j < 64 ==> #[trigger] bit(!q, j) == !bit(q, j),
{
    assert forall|j: u64| j < 64 implies #[trigger] bit(m & !q, j) == (bit(m, j) && !bit(q, j)) by {
        assert((((m & !q) >> j) & 1 == 1) == ((m >> j) & 1 == 1 && !((q >> j) & 1 == 1)))
            by (bit_vector)
            requires
                j < 64,
        ;
    }
    assert forall|j: u64| j < 64 implies #[trigger] bit(!q, j) == !bit(q, j) by {
        assert((((!q) >> j) & 1 == 1) == !((q >> j) & 1 == 1)) by (bit_vector)
            requires
                j < 64,
        ;
    }
}

/// Prefix XOR: bit `i` of the result is the XOR of the bits 0 to `i` of the mask.
/// So each bit differs from the one below it exactly where the mask is set.
fn prefix_xor(mask: u64) -> (r: u64)
    ensures
        bit(r, 0) == bit(mask, 0),
        forall|j: u64| 0 < j < 64 ==> #[trigger] bit(r, j) == (bit(mask, j) != bit(r, (j - 1) as u64)),
{
    let a: u64 = mask ^ (mask << 1u64);
    let b: u64 = a ^ (a << 2u64);
    let c: u64 = b ^ (b << 4u64);
    let d: u64 = c ^ (c << 8u64);
    let e: u64 = d ^ (d << 16u64);
    let r: u64 = e ^ (e << 32u64);
    proof {
        assert(r ^ (r << 1u64) == mask) by (bit_vector)
            requires
                a == mask ^ (mask << 1u64),
                b == a ^ (a << 2u64),
                c == b ^ (b << 4u64),
                d == c ^ (c << 8u64),
                e == d ^ (d << 16u64),
                r == e ^ (e << 32u64),
        ;
        assert(((r >> 0u64) & 1 == 1) == ((mask >> 0u64) & 1 == 1)) by (bit_vector)
            requires
                r ^ (r << 1u64) == mask,
        ;
        assert forall|j: u64| 0 < j < 64 implies #[trigger] bit(r, j) == (bit(mask, j) != bit(
            r,
            (j - 1) as u64,
        )) by {
            let k = (j - 1) as u64;
            assert(((r >> j) & 1 == 1) == (((mask >> j) & 1 == 1) != ((r >> k) & 1 == 1)))
                by (bit_vector)
                requires
                    0 < j < 64,
                    k + 1 == j,
                    r ^ (r << 1u64) == mask,
            ;
        }
    }
    r
}

/// Where only one kind of quote stands in the block, the state follows the
/// prefix XOR of its mask.
proof fn lemma_single_kind(
    own: u64,
    dq: u64,
    sq: u64,
    quoted: u64,
    q: Quote,
    kind: Quote,
    k: u64,
)
    requires
        k <= 64,
        kind != Quote::Outside,
        q == Quote::Outside || q == kind,
        kind == Quote::Double ==> own == dq && (forall|j: u64| j < 64 ==> !#[trigger] bit(sq, j)),
        kind == Quote::Single ==> own == sq && (forall|j: u64| j < 64 ==> !#[trigger] bit(dq, j)),
        bit(quoted, 0) == (bit(own, 0) != (q == kind)),
        forall|j: u64|
            0 < j < 64 ==> #[trigger] bit(quoted, j) == (bit(own, j) != bit(
                quoted,
                (j - 1) as u64,
            )),
    ensures
        mask_state(dq, sq, q, k) == Quote::Outside || mask_state(dq, sq, q, k) == kind,
        k > 0 ==> bit(quoted, (k - 1) as u64) == (mask_state(dq, sq, q, k) == kind),
    decreases k,
{
    if k > 0 {
        lemma_single_kind(own, dq, sq, quoted, q, kind, (k - 1) as u64);
        if k > 1 {
            assert(bit(quoted, (k - 1) as u64) == (bit(own, (k - 1) as u64) != bit(
                quoted,
                (k - 1 - 1) as u64,
            )));
        }
    }
}

/// Without quotes, a position outside quotes stays outside.
proof fn lemma_no_quotes(k: u64)
    ensures
        mask_state(0, 0, Quote::Outside, k) == Quote::Outside,
    decreases k,
{
    if k > 0 {
        let j = (k - 1) as u64;
        lemma_no_quotes(j);
        assert((0u64 >> j) & 1 != 1) by (bit_vector);
    }
}

/// The masks of a block after its quoted regions are taken out, and the quote
/// state after the block.
pub open spec fn unquoted_masks(
    lt: u64,
    gt: u64,
    dq: u64,
    sq: u64,
    q: Quote,
    r: (u64, u64, Quote),
) -> bool {
    &&& forall|j: u64|
        j < 64 ==> #[trigger] bit(r.0, j) == (bit(lt, j) && mask_state(dq, sq, q, j)
            == Quote::Outside)
    &&& forall|j: u64|
        j < 64 ==> #[trigger] bit(r.1, j) == (bit(gt, j) && mask_state(dq, sq, q, j)
            == Quote::Outside)
    &&& r.2 == mask_state(dq, sq, q, 64)
}

/// No bit is set in two of the masks.
pub open spec fn disjoint(lt: u64, gt: u64, dq: u64, sq: u64) -> bool {
    &&& forall|j: u64| j < 64 && #[trigger] bit(lt, j) ==> !bit(dq, j) && !bit(sq, j)
    &&& forall|j: u64| j < 64 && #[trigger] bit(gt, j) ==> !bit(dq, j) && !bit(sq, j)
}

/// Takes out the quoted regions where only one kind of quote matters: the
/// regions come from a prefix XOR of the whole block.
fn mask_one_kind(lt: u64, gt: u64, own: u64, q: Quote, kind: Quote, Ghost(dq): Ghost<u64>, Ghost(
    sq,
): Ghost<u64>) -> (r: (u64, u64, Quote))
    requires
        kind != Quote::Outside,
        q == Quote::Outside || q == kind,
        kind == Quote::Double ==> own == dq && (forall|j: u64| j < 64 ==> !#[trigger] bit(sq, j)),
        kind == Quote::Single ==> own == sq && (forall|j: u64| j < 64 ==> !#[trigger] bit(dq, j)),
        disjoint(lt, gt, dq, sq),
    ensures
        unquoted_masks(lt, gt, dq, sq, q, r),
{
    let prefix: u64 = prefix_xor(own);
    let quoted: u64 = if q == Quote::Outside {
        prefix
    } else {
        !prefix
    };
    proof {
        lemma_and_not(0, prefix);
        lemma_and_not(lt, quoted);
        lemma_and_not(gt, quoted);
        assert(bit(quoted, 0) == (bit(own, 0) != (q == kind)));
        assert forall|j: u64| 0 < j < 64 implies #[trigger] bit(quoted, j) == (bit(own, j) != bit(
            quoted,
            (j - 1) as u64,
        )) by {
            assert(bit(prefix, j) == (bit(own, j) != bit(prefix, (j - 1) as u64)));
        }
        assert forall|j: u64| j < 64 implies (#[trigger] bit(quoted, j)) == (mask_state(
            dq,
            sq,
            q,
            (j + 1) as u64,
        ) == kind) && (mask_state(dq, sq, q, j) == Quote::Outside || mask_state(dq, sq, q, j)
            == kind) by {
            lemma_single_kind(own, dq, sq, quoted, q, kind, (j + 1) as u64);
            lemma_single_kind(own, dq, sq, quoted, q, kind, j);
        }
        lemma_single_kind(own, dq, sq, quoted, q, kind, 64);
    }
    let state: Quote = if (quoted >> 63u64) & 1 == 1 {
        kind
    } else {
        Quote::Outside
    };
    let r = (lt & !quoted, gt & !quoted, state);
    proof {
        assert forall|j: u64| j < 64 implies #[trigger] bit(r.0, j) == (bit(lt, j) && mask_state(
            dq,
            sq,
            q,
            j,
        ) == Quote::Outside) by {
            assert(bit(quoted, j) == (mask_state(dq, sq, q, (j + 1) as u64) == kind));
        }
        assert forall|j: u64| j < 64 implies #[trigger] bit(r.1, j) == (bit(gt, j) && mask_state(
            dq,
            sq,
            q,
            j,
        ) == Quote::Outside) by {
            assert(bit(quoted, j) == (mask_state(dq, sq, q, (j + 1) as u64) == kind));
        }
        assert(bit(quoted, 63) == (mask_state(dq, sq, q, 64) == kind));
    }
    r
}

/// Takes out the quoted regions of a block with both kinds of quotes, walking
/// its bits in order.
fn apply_quote_mask_slow(lt_mask: u64, gt_mask: u64, dq_mask: u64, sq_mask: u64, q: Quote) -> (r: (
    u64,
    u64,
    Quote,
))
    ensures
        unquoted_masks(lt_mask, gt_mask, dq_mask, sq_mask, q, r),
{
    let mut lt: u64 = 0;
    let mut gt: u64 = 0;
    let mut state: Quote = q;
    let mut i: u64 = 0;
    proof {
        lemma_zero_bits();
    }
    while i < 64
        invariant
            i <= 64,
            state == mask_state(dq_mask, sq_mask, q, i),
            forall|j: u64|
                j < 64 ==> #[trigger] bit(lt, j) == (j < i && bit(lt_mask, j) && mask_state(
                    dq_mask,
                    sq_mask,
                    q,
                    j,
                ) == Quote::Outside),
            forall|j: u64|
                j < 64 ==> #[trigger] bit(gt, j) == (j < i && bit(gt_mask, j) && mask_state(
                    dq_mask,
                    sq_mask,
                    q,
                    j,
                ) == Quote::Outside),
        decreases 64 - i,
    {
        let double = (dq_mask >> i) & 1 == 1;
        let single = (sq_mask >> i) & 1 == 1;
        if state == Quote::Outside {
            proof {
                lemma_set_bit(lt, i);
                lemma_set_bit(gt, i);
            }
            if (lt_mask >> i) & 1 == 1 {
                lt = lt | (1u64 << i);
            }
            if (gt_mask >> i) & 1 == 1 {
                gt = gt | (1u64 << i);
            }
            if double {
                state = Quote::Double;
            } else if single {
                state = Quote::Single;
            }
        } else if state == Quote::Double {
            if double {
                state = Quote::Outside;
            }
        } else if single {
            state = Quote::Outside;
        }
        i += 1;
    }
    (lt, gt, state)
}

/// Takes the quoted regions out of the masks of a block, given the quote state
/// before it, and tells the state after it. A block without quotes needs no
/// masking; one with a single kind of quote is masked by a prefix XOR.
pub fn apply_quote_mask(lt_mask: u64, gt_mask: u64, dq_mask: u64, sq_mask: u64, q: Quote) -> (r: (
    u64,
    u64,
    Quote,
))
    requires
        disjoint(lt_mask, gt_mask, dq_mask, sq_mask),
    ensures
        unquoted_masks(lt_mask, gt_mask, dq_mask, sq_mask, q, r),
{
    proof {
        lemma_zero_bits();
    }
    if dq_mask == 0 && sq_mask == 0 && q == Quote::Outside {
        proof {
            assert forall|k: u64| k <= 64 implies #[trigger] mask_state(0, 0, Quote::Outside, k)
                == Quote::Outside by {
                lemma_no_quotes(k);
            }
        }
        return (lt_mask, gt_mask, Quote::Outside);
    }
    if sq_mask == 0 && q != Quote::Single {
        return mask_one_kind(
            lt_mask,
            gt_mask,
            dq_mask,
            q,
            Quote::Double,
            Ghost(dq_mask),
            Ghost(sq_mask),
        );
    }
    if dq_mask == 0 && q != Quote::Double {
        return mask_one_kind(
            lt_mask,
            gt_mask,
            sq_mask,
            q,
            Quote::Single,
            Ghost(dq_mask),
            Ghost(sq_mask),
        );
    }
    apply_quote_mask_slow(lt_mask, gt_mask, dq_mask, sq_mask, q)
}

/// The bits of a mask mark where the byte stands in the block that starts at
/// `base`.
pub open spec fn marks_byte(mask: u64, s: Seq<u8>, base: int, b: u8) -> bool {
    forall|j: u64|
        j < 64 ==> #[trigger] bit(mask, j) == (base + j < s.len() && s[base + j] == b)
}

/// The masks of the block that starts at `base`, for `<`, `>`, `"` and `'`.
pub fn block_masks(input: &[u8], base: usize) -> (r: (u64, u64, u64, u64))
    requires
        base < input@.len(),
    ensures
        marks_byte(r.0, input@, base as int, 0x3c),
        marks_byte(r.1, input@, base as int, 0x3e),
        marks_byte(r.2, input@, base as int, 0x22),
        marks_byte(r.3, input@, base as int, 0x27),
{
    let n: usize = input.len();
    let width: usize = if n - base >= 64 {
        64
    } else {
        n - base
    };
    let mut lt: u64 = 0;
    let mut gt: u64 = 0;
    let mut dq: u64 = 0;
    let mut sq: u64 = 0;
    let mut i: usize = 0;
    proof {
        lemma_zero_bits();
    }
    while i < width
        invariant
            n == input@.len(),
            i <= width <= 64,
            base + width <= n,
            forall|j: u64|
                j < 64 ==> #[trigger] bit(lt, j) == (j < i && input@[base + j] == 0x3c),
            forall|j: u64|
                j < 64 ==> #[trigger] bit(gt, j) == (j < i && input@[base + j] == 0x3e),
            forall|j: u64|
                j < 64 ==> #[trigger] bit(dq, j) == (j < i && input@[base + j] == 0x22),
            forall|j: u64|
                j < 64 ==> #[trigger] bit(sq, j) == (j < i && input@[base + j] == 0x27),
        decreases width - i,
    {
        let b: u8 = input[base + i];
        proof {
            lemma_set_bit(lt, i as u64);
            lemma_set_bit(gt, i as u64);
            lemma_set_bit(dq, i as u64);
            lemma_set_bit(sq, i as u64);
        }
        if b == 0x3c {
            lt = lt | (1u64 << i as u64);
        } else if b == 0x3e {
            gt = gt | (1u64 << i as u64);
        } else if b == 0x22 {
            dq = dq | (1u64 << i as u64);
        } else if b == 0x27 {
            sq = sq | (1u64 << i as u64);
        }
        i += 1;
    }
    (lt, gt, dq, sq)
}

} // verus!
