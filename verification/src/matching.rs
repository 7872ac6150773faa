//! Intersection and inclusion between key expressions.
//!
//! Two key expressions intersect when there is at least one concrete key
//! that both match. A pattern includes a key expression when every key the
//! latter matches is also matched by the pattern. Both relations are
//! defined chunk-wise, with the multi-level wildcard `**` allowed to stand
//! for any number of chunks (including none) on either side.

use vstd::prelude::*;
use crate::keyexpr::{
    chunk_eq,
    chunks_view,
    dbl_star_chunk,
    is_dbl_star,
    is_star,
    literal_byte,
    literal_chunk,
    star_chunk,
    OwnedKeyExpr,
    STAR,
};

verus! {

/// Whether two single chunks (neither of them `**`) intersect: equal
/// chunks always do, and the single-level wildcard `*` intersects every
/// chunk.
pub open spec fn chunk_intersects(a: Seq<u8>, b: Seq<u8>) -> bool {
    a == b || a == star_chunk() || b == star_chunk()
}

/// Whether the single pattern chunk `p` (not `**`) covers the single chunk
/// `k`: either they are equal, or `p` is `*` and `k` is a chunk that spans
/// exactly one level.
pub open spec fn chunk_includes(p: Seq<u8>, k: Seq<u8>) -> bool {
    p == k || (p == star_chunk() && k != dbl_star_chunk())
}

/// Whether every chunk of `s` from position `i` on is `**`.
pub open spec fn all_dbl_star(s: Seq<Seq<u8>>, i: int) -> bool {
    forall|k: int| i <= k < s.len() ==> s[k] == dbl_star_chunk()
}

/// Whether the suffixes `a[i..]` and `b[j..]` intersect. A `**` chunk on
/// either side may stand for no chunk or absorb one chunk of the other
/// side at a time.
pub open spec fn ke_intersects_from(a: Seq<Seq<u8>>, b: Seq<Seq<u8>>, i: int, j: int) -> bool
    recommends
        0 <= i <= a.len(),
        0 <= j <= b.len(),
    decreases a.len() - i + b.len() - j,
{
    if i < 0 || j < 0 {
        false
    } else if i >= a.len() && j >= b.len() {
        true
    } else if i >= a.len() {
        all_dbl_star(b, j)
    } else if j >= b.len() {
        all_dbl_star(a, i)
    } else if a[i] == dbl_star_chunk() {
        ke_intersects_from(a, b, i + 1, j) || ke_intersects_from(a, b, i, j + 1)
    } else if b[j] == dbl_star_chunk() {
        ke_intersects_from(a, b, i, j + 1) || ke_intersects_from(a, b, i + 1, j)
    } else {
        chunk_intersects(a[i], b[j]) && ke_intersects_from(a, b, i + 1, j + 1)
    }
}

/// Whether the key expressions `a` and `b` intersect.
pub open spec fn ke_intersects(a: Seq<Seq<u8>>, b: Seq<Seq<u8>>) -> bool {
    ke_intersects_from(a, b, 0, 0)
}

/// Whether the pattern suffix `p[i..]` covers the suffix `k[j..]`.
pub open spec fn ke_includes_from(p: Seq<Seq<u8>>, k: Seq<Seq<u8>>, i: int, j: int) -> bool
    recommends
        0 <= i <= p.len(),
        0 <= j <= k.len(),
    decreases p.len() - i + k.len() - j,
{
    if i < 0 || j < 0 || j > k.len() {
        false
    } else if i >= p.len() && j >= k.len() {
        true
    } else if i >= p.len() {
        false
    } else if p[i] == dbl_star_chunk() {
        ke_includes_from(p, k, i + 1, j) || (j < k.len() && ke_includes_from(p, k, i, j + 1))
    } else if j >= k.len() {
        false
    } else {
        chunk_includes(p[i], k[j]) && ke_includes_from(p, k, i + 1, j + 1)
    }
}

/// Whether the pattern `p` covers the key expression `k`: every key
/// matched by `k` is matched by `p`.
pub open spec fn ke_includes(p: Seq<Seq<u8>>, k: Seq<Seq<u8>>) -> bool {
    ke_includes_from(p, k, 0, 0)
}

/// A key expression whose chunks are all literal (no wildcards).
pub open spec fn literal_keyexpr(ks: Seq<Seq<u8>>) -> bool {
    forall|i: int| 0 <= i < ks.len() ==> literal_chunk(#[trigger] ks[i])
}

/// Whether every chunk of `s` from position `i` on is `**`, decided.
fn all_dbl_star_exec(s: &Vec<Vec<u8>>, i: usize) -> (r: bool)
    requires
        i <= s@.len(),
    ensures
        r == all_dbl_star(chunks_view(s@), i as int),
{
    let mut k: usize = i;
    while k < s.len()
        invariant
            i <= k <= s@.len(),
            forall|m: int| i <= m < k ==> chunks_view(s@)[m] == dbl_star_chunk(),
        decreases s.len() - k,
    {
        if !is_dbl_star(&s[k]) {
            proof {
                assert(chunks_view(s@)[k as int] != dbl_star_chunk());
            }
            return false;
        }
        k += 1;
    }
    true
}

/// Decides [`ke_intersects_from`] on chunk lists.
pub(crate) fn ke_intersects_at(a: &Vec<Vec<u8>>, b: &Vec<Vec<u8>>, i: usize, j: usize) -> (r: bool)
    requires
        i <= a@.len(),
        j <= b@.len(),
    ensures
        r == ke_intersects_from(chunks_view(a@), chunks_view(b@), i as int, j as int),
    decreases a@.len() - i + b@.len() - j,
{
    if i >= a.len() && j >= b.len() {
        true
    } else if i >= a.len() {
        all_dbl_star_exec(b, j)
    } else if j >= b.len() {
        all_dbl_star_exec(a, i)
    } else if is_dbl_star(&a[i]) {
        ke_intersects_at(a, b, i + 1, j) || ke_intersects_at(a, b, i, j + 1)
    } else if is_dbl_star(&b[j]) {
        ke_intersects_at(a, b, i, j + 1) || ke_intersects_at(a, b, i + 1, j)
    } else {
        (chunk_eq(&a[i], &b[j]) || is_star(&a[i]) || is_star(&b[j])) && ke_intersects_at(
            a,
            b,
            i + 1,
            j + 1,
        )
    }
}

/// Decides [`ke_includes_from`] on chunk lists.
pub(crate) fn ke_includes_at(p: &Vec<Vec<u8>>, k: &Vec<Vec<u8>>, i: usize, j: usize) -> (r: bool)
    requires
        i <= p@.len(),
        j <= k@.len(),
    ensures
        r == ke_includes_from(chunks_view(p@), chunks_view(k@), i as int, j as int),
    decreases p@.len() - i + k@.len() - j,
{
    if i >= p.len() && j >= k.len() {
        true
    } else if i >= p.len() {
        false
    } else if is_dbl_star(&p[i]) {
        ke_includes_at(p, k, i + 1, j) || (j < k.len() && ke_includes_at(p, k, i, j + 1))
    } else if j >= k.len() {
        false
    } else {
        (chunk_eq(&p[i], &k[j]) || (is_star(&p[i]) && !is_dbl_star(&k[j]))) && ke_includes_at(
            p,
            k,
            i + 1,
            j + 1,
        )
    }
}

/// Whether two key expressions intersect.
pub fn keyexpr_intersects(a: &OwnedKeyExpr, b: &OwnedKeyExpr) -> (r: bool)
    ensures
        r == ke_intersects(a@, b@),
{
    ke_intersects_at(a.chunks(), b.chunks(), 0, 0)
}

/// Whether the pattern `p` includes the key expression `k`.
pub fn keyexpr_includes(p: &OwnedKeyExpr, k: &OwnedKeyExpr) -> (r: bool)
    ensures
        r == ke_includes(p@, k@),
{
    ke_includes_at(p.chunks(), k.chunks(), 0, 0)
}

/// Intersection is symmetric, position-wise.
proof fn lemma_intersects_from_sym(a: Seq<Seq<u8>>, b: Seq<Seq<u8>>, i: int, j: int)
    requires
        0 <= i <= a.len(),
        0 <= j <= b.len(),
    ensures
        ke_intersects_from(a, b, i, j) == ke_intersects_from(b, a, j, i),
    decreases a.len() - i + b.len() - j,
{
    if i >= a.len() && j >= b.len() {
    } else if i >= a.len() {
    } else if j >= b.len() {
    } else if a[i] == dbl_star_chunk() {
        lemma_intersects_from_sym(a, b, i + 1, j);
        lemma_intersects_from_sym(a, b, i, j + 1);
    } else if b[j] == dbl_star_chunk() {
        lemma_intersects_from_sym(a, b, i, j + 1);
        lemma_intersects_from_sym(a, b, i + 1, j);
    } else {
        lemma_intersects_from_sym(a, b, i + 1, j + 1);
    }
}

/// Intersection of key expressions is a symmetric relation.
pub proof fn lemma_intersects_sym(a: Seq<Seq<u8>>, b: Seq<Seq<u8>>)
    ensures
        ke_intersects(a, b) == ke_intersects(b, a),
{
    lemma_intersects_from_sym(a, b, 0, 0);
}

/// For wildcard-free suffixes, intersection is equality of the suffixes.
proof fn lemma_literal_intersects_from(a: Seq<Seq<u8>>, b: Seq<Seq<u8>>, i: int, j: int)
    requires
        0 <= i <= a.len(),
        0 <= j <= b.len(),
        literal_keyexpr(a),
        literal_keyexpr(b),
    ensures
        ke_intersects_from(a, b, i, j) <==> (a.len() - i == b.len() - j && forall|m: int|
            0 <= m < a.len() - i ==> #[trigger] a[i + m] == b[j + m]),
    decreases a.len() - i + b.len() - j,
{
    if i >= a.len() && j >= b.len() {
    } else if i >= a.len() {
        assert(literal_chunk(b[j]));
        assert(b[j] != dbl_star_chunk());
    } else if j >= b.len() {
        assert(literal_chunk(a[i]));
        assert(a[i] != dbl_star_chunk());
    } else {
        assert(literal_chunk(a[i]) && literal_chunk(b[j]));
        assert(star_chunk().len() == 1 && star_chunk()[0] == STAR);
        assert(a[i] != star_chunk() && b[j] != star_chunk()) by {
            assert(!literal_byte(STAR));
            if a[i] == star_chunk() {
                assert(literal_byte(a[i][0]));
            }
            if b[j] == star_chunk() {
                assert(literal_byte(b[j][0]));
            }
        }
        lemma_literal_intersects_from(a, b, i + 1, j + 1);
        if ke_intersects_from(a, b, i, j) {
            assert forall|m: int| 0 <= m < a.len() - i implies #[trigger] a[i + m] == b[j + m] by {
                if m > 0 {
                    assert(a[i + 1 + (m - 1)] == b[j + 1 + (m - 1)]);
                }
            }
        }
        if a.len() - i == b.len() - j && (forall|m: int|
            0 <= m < a.len() - i ==> #[trigger] a[i + m] == b[j + m]) {
            assert(a[i + 0] == b[j + 0]);
            assert forall|m: int| 0 <= m < a.len() - (i + 1) implies #[trigger] a[i + 1 + m] == b[
                j + 1 + m] by {
                assert(a[i + (m + 1)] == b[j + (m + 1)]);
            }
        }
    }
}

/// For key expressions without wildcards, intersection is exactly
/// equality: a literal key intersects a literal key only when the two are
/// the same expression.
pub proof fn lemma_literal_intersects(a: Seq<Seq<u8>>, b: Seq<Seq<u8>>)
    requires
        literal_keyexpr(a),
        literal_keyexpr(b),
    ensures
        ke_intersects(a, b) <==> a == b,
{
    lemma_literal_intersects_from(a, b, 0, 0);
    if ke_intersects(a, b) {
        assert forall|m: int| 0 <= m < a.len() implies a[m] == b[m] by {
            assert(a[0 + m] == b[0 + m]);
        }
        assert(a =~= b);
    }
}

/// A pattern suffix that covers an exhausted key suffix is all `**`.
proof fn lemma_includes_exhausted(p: Seq<Seq<u8>>, k: Seq<Seq<u8>>, i: int, j: int)
    requires
        0 <= i <= p.len(),
        j == k.len(),
        ke_includes_from(p, k, i, j),
    ensures
        all_dbl_star(p, i),
    decreases p.len() - i,
{
    if i >= p.len() {
    } else {
        assert(p[i] == dbl_star_chunk());
        lemma_includes_exhausted(p, k, i + 1, j);
    }
}

/// A pattern that covers a key expression also intersects it, suffix-wise.
proof fn lemma_includes_intersects_from(p: Seq<Seq<u8>>, k: Seq<Seq<u8>>, i: int, j: int)
    requires
        0 <= i <= p.len(),
        0 <= j <= k.len(),
        ke_includes_from(p, k, i, j),
    ensures
        ke_intersects_from(p, k, i, j),
    decreases p.len() - i + k.len() - j,
{
    if i >= p.len() && j >= k.len() {
    } else if i >= p.len() {
    } else if p[i] == dbl_star_chunk() {
        if j >= k.len() {
            lemma_includes_exhausted(p, k, i, j);
        } else if ke_includes_from(p, k, i + 1, j) {
            lemma_includes_intersects_from(p, k, i + 1, j);
        } else {
            lemma_includes_intersects_from(p, k, i, j + 1);
        }
    } else {
        assert(chunk_intersects(p[i], k[j]));
        lemma_includes_intersects_from(p, k, i + 1, j + 1);
    }
}

/// Inclusion is stronger than intersection: a pattern that covers a key
/// expression shares keys with it.
pub proof fn lemma_includes_implies_intersects(p: Seq<Seq<u8>>, k: Seq<Seq<u8>>)
    requires
        ke_includes(p, k),
    ensures
        ke_intersects(p, k),
{
    lemma_includes_intersects_from(p, k, 0, 0);
}

/// Key expressions of the same length whose chunks intersect pairwise
/// (equal literals, or `*` against any single chunk) intersect as a
/// whole: the single-level wildcard covers exactly one level.
pub proof fn lemma_pointwise_intersects(a: Seq<Seq<u8>>, b: Seq<Seq<u8>>)
    requires
        a.len() == b.len(),
        forall|i: int| 0 <= i < a.len() ==> (#[trigger] a[i]) != dbl_star_chunk(),
        forall|i: int| 0 <= i < b.len() ==> (#[trigger] b[i]) != dbl_star_chunk(),
        forall|i: int| 0 <= i < a.len() ==> chunk_intersects(#[trigger] a[i], b[i]),
    ensures
        ke_intersects(a, b),
{
    lemma_pointwise_intersects_from(a, b, 0);
}

/// Position-wise form of [`lemma_pointwise_intersects`].
proof fn lemma_pointwise_intersects_from(a: Seq<Seq<u8>>, b: Seq<Seq<u8>>, i: int)
    requires
        a.len() == b.len(),
        0 <= i <= a.len(),
        forall|m: int| 0 <= m < a.len() ==> (#[trigger] a[m]) != dbl_star_chunk(),
        forall|m: int| 0 <= m < b.len() ==> (#[trigger] b[m]) != dbl_star_chunk(),
        forall|m: int| 0 <= m < a.len() ==> chunk_intersects(#[trigger] a[m], b[m]),
    ensures
        ke_intersects_from(a, b, i, i),
    decreases a.len() - i,
{
    if i < a.len() {
        lemma_pointwise_intersects_from(a, b, i + 1);
    }
}

/// A pattern that ends in `**` covers every key expression that begins
/// with the chunks before the `**`.
pub proof fn lemma_dbl_star_tail_includes(p: Seq<Seq<u8>>, k: Seq<Seq<u8>>)
    requires
        p.len() >= 1,
        p.last() == dbl_star_chunk(),
        forall|m: int| 0 <= m < p.len() - 1 ==> (#[trigger] p[m]) != dbl_star_chunk(),
        k.len() >= p.len() - 1,
        k.take(p.len() - 1) == p.take(p.len() - 1),
    ensures
        ke_includes(p, k),
{
    lemma_dbl_star_tail_includes_from(p, k, 0);
}

/// Position-wise form of [`lemma_dbl_star_tail_includes`].
proof fn lemma_dbl_star_tail_includes_from(p: Seq<Seq<u8>>, k: Seq<Seq<u8>>, i: int)
    requires
        p.len() >= 1,
        p.last() == dbl_star_chunk(),
        forall|m: int| 0 <= m < p.len() - 1 ==> (#[trigger] p[m]) != dbl_star_chunk(),
        k.len() >= p.len() - 1,
        k.take(p.len() - 1) == p.take(p.len() - 1),
        0 <= i <= p.len() - 1,
        i <= k.len(),
    ensures
        ke_includes_from(p, k, i, i),
    decreases p.len() - i,
{
    if i == p.len() - 1 {
        lemma_dbl_star_absorbs(p, k, i);
    } else {
        assert(p[i] == k[i]) by {
            assert(p.take(p.len() - 1)[i] == p[i]);
            assert(k.take(p.len() - 1)[i] == k[i]);
        }
        lemma_dbl_star_tail_includes_from(p, k, i + 1);
        assert(chunk_includes(p[i], k[i]));
    }
}

/// A final `**` pattern chunk absorbs any remaining key chunks.
proof fn lemma_dbl_star_absorbs(p: Seq<Seq<u8>>, k: Seq<Seq<u8>>, j: int)
    requires
        p.len() >= 1,
        p.last() == dbl_star_chunk(),
        0 <= j <= k.len(),
    ensures
        ke_includes_from(p, k, p.len() - 1, j),
    decreases k.len() - j,
{
    if j == k.len() {
        assert(ke_includes_from(p, k, p.len() as int, j));
    } else {
        lemma_dbl_star_absorbs(p, k, j + 1);
    }
}

} // verus!
