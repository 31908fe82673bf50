//! Where documents are cut.

use vstd::prelude::*;
use crate::bytes::{is_byte, is_space, lemma_scan_to, scan_to};
use crate::index::lexer::{lemma_lex_bounds, lex};
use crate::index::outline::scan;
use crate::index::text_laws::lemma_scan_successive;
use crate::parallel::{boundary_from, is_boundary, is_visible, markup_follows, safe_boundary};

verus! {

/// Where a construct of a document ends.
pub open spec fn ends_construct(s: Seq<u8>, p: int, e: int) -> bool {
    exists|i: int|
        0 <= i < scan(s, p, false).lexemes.len() && (#[trigger] scan(s, p, false).lexemes[i]).end
            + 1 == e
}

/// All constructs from a position on are closed by a `>`.
pub open spec fn closed_from(s: Seq<u8>, p: int) -> bool {
    forall|i: int|
        0 <= i < scan(s, p, false).lexemes.len() ==> (#[trigger] scan(
            s,
            p,
            false,
        ).lexemes[i]).end < s.len() && s[scan(s, p, false).lexemes[i].end] == 0x3e
}

/// Whether the next byte from a position on that is not blank is a `<`, or there is none.
pub open spec fn before_tag(s: Seq<u8>, e: int) -> bool {
    (forall|j: int| e <= j < s.len() ==> is_space(#[trigger] s[j])) || exists|k: int|
        e <= k < s.len() && #[trigger] s[k] == 0x3c && forall|j: int|
            e <= j < k ==> is_space(#[trigger] s[j])
}

proof fn lemma_before_tag(s: Seq<u8>, e: int)
    requires
        0 <= e <= s.len(),
    ensures
        markup_follows(s, e) <==> before_tag(s, e),
{
    lemma_scan_to(s, e, is_visible());
    let next = scan_to(s, e, is_visible());
    assert forall|j: int| e <= j < next implies is_space(#[trigger] s[j]) by {
        assert(!is_visible()(s[j]));
    }
    if next < s.len() {
        assert(is_visible()(s[next]));
        if s[next] == 0x3c {
            assert(s[next] == 0x3c);
        }
        if before_tag(s, e) {
            assert(!is_space(s[next]));
            let k = choose|k: int|
                e <= k < s.len() && #[trigger] s[k] == 0x3c && forall|j: int|
                    e <= j < k ==> is_space(#[trigger] s[j]);
            if k < next {
                assert(is_space(s[k]));
            }
            if next < k {
                assert(is_space(s[next]));
            }
        }
    }
}

/// Whether a position can be a boundary at or before a target: it stands just after a
/// construct, less than 4096 bytes before the target, and a tag or the end comes next.
pub open spec fn fits_before(s: Seq<u8>, p: int, e: int, target: int) -> bool {
    ends_construct(s, p, e) && target - 4096 < e <= target && before_tag(s, e)
}

proof fn lemma_boundary_from(s: Seq<u8>, p: int, best: Option<int>, target: int)
    requires
        0 <= p,
        closed_from(s, p),
    ensures
        match boundary_from(s, p, best, target) {
            Some(b) => {
                ||| fits_before(s, p, b, target) && forall|e: int|
                    e > b ==> !#[trigger] fits_before(s, p, e, target)
                ||| best == Some(b) && forall|e: int| !#[trigger] fits_before(s, p, e, target)
                ||| best is None && b > target && ends_construct(s, p, b) && (forall|e: int|
                    !#[trigger] fits_before(s, p, e, target)) && forall|e: int|
                    target < e < b ==> !#[trigger] ends_construct(s, p, e)
            },
            None => best is None && forall|e: int|
                #![trigger ends_construct(s, p, e)]
                ends_construct(s, p, e) ==> e <= target && !fits_before(s, p, e, target),
        },
    decreases s.len() + 1 - p,
{
    let q = scan_to(s, p, is_byte(0x3c));
    let all = scan(s, p, false).lexemes;
    if p < s.len() {
        lemma_scan_to(s, p, is_byte(0x3c));
    }
    if q < s.len() && lex(s, q, false) is Some {
        let l = lex(s, q, false)->0;
        lemma_lex_bounds(s, q, false);
        let rest = scan(s, l.end + 1, false).lexemes;
        assert(all == seq![l] + rest);
        assert(all[0] == l);
        let e = l.end + 1;
        assert(l.end < s.len() && s[l.end] == 0x3e);
        assert forall|i: int| 0 <= i < rest.len() implies (#[trigger] rest[i]).end < s.len()
            && s[rest[i].end] == 0x3e by {
            assert(all[i + 1] == rest[i]);
        }
        lemma_scan_successive(s, e);
        assert forall|x: int| #[trigger] ends_construct(s, p, x) <==> x == e || ends_construct(
            s,
            e,
            x,
        ) by {
            if ends_construct(s, p, x) {
                let i = choose|i: int| 0 <= i < all.len() && (#[trigger] all[i]).end + 1 == x;
                if i > 0 {
                    assert(all[i] == rest[i - 1]);
                    assert(rest[i - 1].end + 1 == x);
                }
            }
            if ends_construct(s, e, x) {
                let i = choose|i: int| 0 <= i < rest.len() && (#[trigger] rest[i]).end + 1 == x;
                assert(all[i + 1] == rest[i]);
            }
        }
        assert forall|x: int| #[trigger] ends_construct(s, e, x) implies x > e by {
            let i = choose|i: int| 0 <= i < rest.len() && (#[trigger] rest[i]).end + 1 == x;
            assert(rest[0].start < rest[0].end);
            if i > 0 {
                assert(rest[0].end < rest[i].start);
                assert(rest[i].start < rest[i].end);
            }
        }
        lemma_before_tag(s, e);
        if e <= target {
            let now = if is_boundary(s, e, target) {
                Some(e)
            } else {
                best
            };
            lemma_boundary_from(s, e, now, target);
            assert forall|x: int| #[trigger] fits_before(s, p, x, target) <==> (x == e
                && is_boundary(s, e, target)) || fits_before(s, e, x, target) by {
                assert(ends_construct(s, p, x) <==> x == e || ends_construct(s, e, x));
                if x == e {
                    assert(!ends_construct(s, e, e));
                }
            }
        } else {
            assert forall|x: int| !#[trigger] fits_before(s, p, x, target) by {
                assert(ends_construct(s, p, x) <==> x == e || ends_construct(s, e, x));
            }
        }
    } else {
        assert(all.len() == 0);
        assert forall|x: int| !#[trigger] ends_construct(s, p, x) by {}
        assert forall|x: int| !#[trigger] fits_before(s, p, x, target) by {
            assert(!ends_construct(s, p, x));
        }
    }
}

/// A safe boundary near a target is the last position at or before it, less than 4096
/// bytes away, that stands just after a construct and before a tag or the end; without
/// one, the first position after the target that stands just after a construct; without
/// that, there is none. All constructs of the document are closed.
pub proof fn lemma_safe_boundary(s: Seq<u8>, target: int)
    requires
        closed_from(s, 0),
        0 <= target <= s.len(),
    ensures
        match safe_boundary(s, target) {
            Some(b) => {
                ||| fits_before(s, 0, b, target) && forall|e: int|
                    e > b ==> !#[trigger] fits_before(s, 0, e, target)
                ||| b > target && ends_construct(s, 0, b) && (forall|e: int|
                    !#[trigger] fits_before(s, 0, e, target)) && forall|e: int|
                    target < e < b ==> !#[trigger] ends_construct(s, 0, e)
            },
            None => forall|e: int|
                #![trigger ends_construct(s, 0, e)]
                ends_construct(s, 0, e) ==> e <= target && !fits_before(s, 0, e, target),
        },
{
    lemma_boundary_from(s, 0, None, target);
}

} // verus!
