//! The key-expression grammar and the validated owned key-expression type.
//!
//! A key expression is a non-empty, slash-delimited sequence of chunks.
//! A chunk is either the single-level wildcard `*`, the multi-level
//! wildcard `**`, or a non-empty literal segment that contains none of the
//! separator `/`, the wildcard bytes `*` and `$`, and the reserved bytes
//! `#` and `?`. Two `**` chunks may not be adjacent (the canonical form of
//! such an expression has a single `**`).

use vstd::prelude::*;
use vstd::string::StringSliceAdditionalSpecFns;

verus! {

/// The chunk separator byte, `/`.
pub const SLASH: u8 = 47;

/// The wildcard byte, `*`.
pub const STAR: u8 = 42;

/// The sub-chunk wildcard introducer, `$`, reserved by the grammar.
pub const DOLLAR: u8 = 36;

/// The reserved byte `#`.
pub const HASH: u8 = 35;

/// The reserved byte `?`.
pub const QMARK: u8 = 63;

/// The single-level wildcard chunk `*`.
pub open spec fn star_chunk() -> Seq<u8> {
    seq![STAR]
}

/// The multi-level wildcard chunk `**`.
pub open spec fn dbl_star_chunk() -> Seq<u8> {
    seq![STAR, STAR]
}

/// A byte that may appear in a literal chunk.
pub open spec fn literal_byte(b: u8) -> bool {
    b != SLASH && b != STAR && b != DOLLAR && b != HASH && b != QMARK
}

/// A non-empty segment of literal bytes.
pub open spec fn literal_chunk(c: Seq<u8>) -> bool {
    c.len() > 0 && forall|i: int| 0 <= i < c.len() ==> literal_byte(#[trigger] c[i])
}

/// A valid chunk: `*`, `**`, or a literal segment.
pub open spec fn valid_chunk(c: Seq<u8>) -> bool {
    c == star_chunk() || c == dbl_star_chunk() || literal_chunk(c)
}

/// A valid key expression, as a sequence of chunks: non-empty, every chunk
/// valid, and no two adjacent `**` chunks.
pub open spec fn valid_keyexpr(ks: Seq<Seq<u8>>) -> bool {
    &&& ks.len() > 0
    &&& forall|i: int| 0 <= i < ks.len() ==> valid_chunk(#[trigger] ks[i])
    &&& forall|i: int|
        0 <= i && i + 1 < ks.len() ==> !(#[trigger] ks[i] == dbl_star_chunk() && ks[i + 1]
            == dbl_star_chunk())
}

/// Every non-empty prefix of a valid key expression is itself a valid key
/// expression: the path to any node of a key-expression tree is a key
/// expression.
pub proof fn lemma_take_valid(ks: Seq<Seq<u8>>, n: int)
    requires
        valid_keyexpr(ks),
        1 <= n <= ks.len(),
    ensures
        valid_keyexpr(ks.take(n)),
{
    assert forall|i: int| 0 <= i < n implies valid_chunk(#[trigger] ks.take(n)[i]) by {
        assert(ks.take(n)[i] == ks[i]);
    }
    assert forall|i: int| 0 <= i && i + 1 < n implies !(#[trigger] ks.take(n)[i]
        == dbl_star_chunk() && ks.take(n)[i + 1] == dbl_star_chunk()) by {
        assert(ks.take(n)[i] == ks[i] && ks.take(n)[i + 1] == ks[i + 1]);
    }
}

/// The chunk sequences denoted by a list of chunk vectors.
pub open spec fn chunks_view(v: Seq<Vec<u8>>) -> Seq<Seq<u8>> {
    Seq::new(v.len(), |i: int| v[i]@)
}

/// Splits a byte string on `/`, scanning from position `i` with the current
/// chunk starting at `start`.
pub open spec fn split_chunks_from(bs: Seq<u8>, start: int, i: int) -> Seq<Seq<u8>>
    decreases bs.len() - i,
{
    if i >= bs.len() {
        seq![bs.subrange(start, bs.len() as int)]
    } else if bs[i] == SLASH {
        seq![bs.subrange(start, i)] + split_chunks_from(bs, i + 1, i + 1)
    } else {
        split_chunks_from(bs, start, i + 1)
    }
}

/// The chunks of a slash-delimited byte string.
pub open spec fn split_chunks(bs: Seq<u8>) -> Seq<Seq<u8>> {
    split_chunks_from(bs, 0, 0)
}

/// A byte string that parses to a valid key expression.
pub open spec fn valid_keyexpr_bytes(bs: Seq<u8>) -> bool {
    valid_keyexpr(split_chunks(bs))
}

/// An immutable, validated key expression, stored chunk-wise.
///
/// Construction goes through [`OwnedKeyExpr::new`] (from a slash-delimited
/// string) or [`OwnedKeyExpr::from_chunks`]; both reject input that does
/// not satisfy [`valid_keyexpr`], so every value of this type is valid.
#[derive(Debug, PartialEq, Eq, Hash)]
pub struct OwnedKeyExpr {
    chunks: Vec<Vec<u8>>,
}

impl View for OwnedKeyExpr {
    type V = Seq<Seq<u8>>;

    closed spec fn view(&self) -> Seq<Seq<u8>> {
        chunks_view(self.chunks@)
    }
}

impl OwnedKeyExpr {
    /// The validity invariant: the stored chunks form a valid key expression.
    #[verifier::type_invariant]
    closed spec fn inv(self) -> bool {
        valid_keyexpr(self@)
    }

    /// Builds a key expression from its chunks, rejecting invalid input.
    pub fn from_chunks(chunks: Vec<Vec<u8>>) -> (r: Option<OwnedKeyExpr>)
        ensures
            r is Some <==> valid_keyexpr(chunks_view(chunks@)),
            r is Some ==> r->0@ == chunks_view(chunks@),
    {
        if chunks_valid(&chunks) {
            Some(OwnedKeyExpr { chunks })
        } else {
            None
        }
    }

    /// Builds a key expression from chunks already known to be valid.
    pub fn from_valid_chunks(chunks: Vec<Vec<u8>>) -> (r: OwnedKeyExpr)
        requires
            valid_keyexpr(chunks_view(chunks@)),
        ensures
            r@ == chunks_view(chunks@),
    {
        OwnedKeyExpr { chunks }
    }

    /// Parses a slash-delimited string, rejecting invalid input.
    pub fn new(s: &str) -> (r: Option<OwnedKeyExpr>)
        ensures
            r is Some <==> valid_keyexpr_bytes(s.spec_bytes()),
            r is Some ==> r->0@ == split_chunks(s.spec_bytes()),
    {
        let bytes = s.as_bytes();
        let chunks = split_bytes(bytes);
        OwnedKeyExpr::from_chunks(chunks)
    }

    /// The number of chunks.
    pub fn chunk_count(&self) -> (n: usize)
        ensures
            n == self@.len(),
    {
        self.chunks.len()
    }

    /// Read access to the stored chunks.
    pub fn chunks(&self) -> (r: &Vec<Vec<u8>>)
        ensures
            chunks_view(r@) == self@,
            valid_keyexpr(self@),
    {
        proof {
            use_type_invariant(self);
        }
        &self.chunks
    }

    /// Whether two key expressions are the same expression.
    pub fn keyexpr_eq(&self, other: &OwnedKeyExpr) -> (r: bool)
        ensures
            r <==> self@ == other@,
    {
        chunk_list_eq(&self.chunks, &other.chunks)
    }

    /// A copy of this key expression.
    pub fn clone_key(&self) -> (r: OwnedKeyExpr)
        ensures
            r@ == self@,
    {
        proof {
            use_type_invariant(self);
        }
        let chunks = copy_chunk_prefix(&self.chunks, self.chunks.len());
        proof {
            assert(chunks_view(chunks@) =~= self@);
        }
        OwnedKeyExpr { chunks }
    }
}

/// Whether two chunk vectors hold the same bytes.
pub fn chunk_eq(a: &Vec<u8>, b: &Vec<u8>) -> (r: bool)
    ensures
        r <==> a@ == b@,
{
    if a.len() != b.len() {
        return false;
    }
    let mut i: usize = 0;
    while i < a.len()
        invariant
            0 <= i <= a.len(),
            a@.len() == b@.len(),
            forall|j: int| 0 <= j < i ==> a@[j] == b@[j],
        decreases a.len() - i,
    {
        if a[i] != b[i] {
            return false;
        }
        i += 1;
    }
    proof {
        assert(a@ =~= b@);
    }
    true
}

/// Whether two chunk lists hold the same chunks.
pub fn chunk_list_eq(a: &Vec<Vec<u8>>, b: &Vec<Vec<u8>>) -> (r: bool)
    ensures
        r <==> chunks_view(a@) == chunks_view(b@),
{
    if a.len() != b.len() {
        proof {
            assert(chunks_view(a@).len() != chunks_view(b@).len());
        }
        return false;
    }
    let mut i: usize = 0;
    while i < a.len()
        invariant
            0 <= i <= a.len(),
            a@.len() == b@.len(),
            forall|j: int| 0 <= j < i ==> a@[j]@ == b@[j]@,
        decreases a.len() - i,
    {
        if !chunk_eq(&a[i], &b[i]) {
            proof {
                assert(chunks_view(a@)[i as int] != chunks_view(b@)[i as int]);
            }
            return false;
        }
        i += 1;
    }
    proof {
        assert(chunks_view(a@) =~~= chunks_view(b@));
    }
    true
}

/// Copies a chunk.
pub fn copy_chunk(a: &Vec<u8>) -> (r: Vec<u8>)
    ensures
        r@ == a@,
{
    let mut r: Vec<u8> = Vec::new();
    let mut i: usize = 0;
    while i < a.len()
        invariant
            0 <= i <= a.len(),
            r@ =~= a@.take(i as int),
        decreases a.len() - i,
    {
        r.push(a[i]);
        i += 1;
    }
    proof {
        assert(r@ =~= a@);
    }
    r
}

/// Copies the first `n` chunks of a chunk list.
pub fn copy_chunk_prefix(a: &Vec<Vec<u8>>, n: usize) -> (r: Vec<Vec<u8>>)
    requires
        n <= a@.len(),
    ensures
        chunks_view(r@) == chunks_view(a@).take(n as int),
{
    let mut r: Vec<Vec<u8>> = Vec::new();
    let mut i: usize = 0;
    while i < n
        invariant
            0 <= i <= n <= a@.len(),
            r@.len() == i,
            forall|j: int| 0 <= j < i ==> r@[j]@ == a@[j]@,
        decreases n - i,
    {
        r.push(copy_chunk(&a[i]));
        i += 1;
    }
    proof {
        assert(chunks_view(r@) =~~= chunks_view(a@).take(n as int));
    }
    r
}

/// Whether a chunk is the single-level wildcard `*`.
pub fn is_star(c: &Vec<u8>) -> (r: bool)
    ensures
        r <==> c@ == star_chunk(),
{
    proof {
        assert(star_chunk().len() == 1 && star_chunk()[0] == STAR);
    }
    let r = c.len() == 1 && c[0] == STAR;
    proof {
        if r {
            assert(c@ =~= star_chunk());
        }
    }
    r
}

/// Whether a chunk is the multi-level wildcard `**`.
pub fn is_dbl_star(c: &Vec<u8>) -> (r: bool)
    ensures
        r <==> c@ == dbl_star_chunk(),
{
    proof {
        assert(dbl_star_chunk().len() == 2 && dbl_star_chunk()[0] == STAR && dbl_star_chunk()[1]
            == STAR);
    }
    let r = c.len() == 2 && c[0] == STAR && c[1] == STAR;
    proof {
        if r {
            assert(c@ =~= dbl_star_chunk());
        }
    }
    r
}

/// Whether a chunk is a non-empty literal segment.
pub fn is_literal(c: &Vec<u8>) -> (r: bool)
    ensures
        r <==> literal_chunk(c@),
{
    if c.len() == 0 {
        return false;
    }
    let mut i: usize = 0;
    while i < c.len()
        invariant
            0 <= i <= c.len(),
            c@.len() > 0,
            forall|j: int| 0 <= j < i ==> literal_byte(#[trigger] c@[j]),
        decreases c.len() - i,
    {
        let b = c[i];
        if b == SLASH || b == STAR || b == DOLLAR || b == HASH || b == QMARK {
            return false;
        }
        i += 1;
    }
    true
}

/// Whether a chunk is valid.
pub fn is_valid_chunk(c: &Vec<u8>) -> (r: bool)
    ensures
        r <==> valid_chunk(c@),
{
    is_star(c) || is_dbl_star(c) || is_literal(c)
}

/// Whether a chunk list forms a valid key expression.
pub fn chunks_valid(chunks: &Vec<Vec<u8>>) -> (r: bool)
    ensures
        r <==> valid_keyexpr(chunks_view(chunks@)),
{
    if chunks.len() == 0 {
        return false;
    }
    let mut i: usize = 0;
    let mut prev_dbl = false;
    while i < chunks.len()
        invariant
            0 <= i <= chunks.len(),
            chunks@.len() > 0,
            forall|j: int| 0 <= j < i ==> valid_chunk(#[trigger] chunks_view(chunks@)[j]),
            forall|j: int|
                0 <= j && j + 1 < i ==> !(#[trigger] chunks_view(chunks@)[j] == dbl_star_chunk()
                    && chunks_view(chunks@)[j + 1] == dbl_star_chunk()),
            prev_dbl <==> (i > 0 && chunks_view(chunks@)[i - 1] == dbl_star_chunk()),
        decreases chunks.len() - i,
    {
        if !is_valid_chunk(&chunks[i]) {
            proof {
                assert(!valid_chunk(chunks_view(chunks@)[i as int]));
            }
            return false;
        }
        let dbl = is_dbl_star(&chunks[i]);
        if prev_dbl && dbl {
            proof {
                assert(chunks_view(chunks@)[i as int - 1] == dbl_star_chunk());
                assert(chunks_view(chunks@)[i as int] == dbl_star_chunk());
            }
            return false;
        }
        prev_dbl = dbl;
        i += 1;
    }
    true
}

/// Splits a byte string on `/` into chunk vectors.
fn split_bytes(bs: &[u8]) -> (r: Vec<Vec<u8>>)
    ensures
        chunks_view(r@) == split_chunks(bs@),
{
    let ghost gbs = bs@;
    let mut r: Vec<Vec<u8>> = Vec::new();
    let mut cur: Vec<u8> = Vec::new();
    let ghost mut start: int = 0;
    let mut i: usize = 0;
    while i < bs.len()
        invariant
            0 <= start <= i <= gbs.len(),
            gbs == bs@,
            cur@ =~= gbs.subrange(start, i as int),
            split_chunks(gbs) =~= chunks_view(r@) + split_chunks_from(gbs, start, i as int),
        decreases bs.len() - i,
    {
        let b = bs[i];
        if b == SLASH {
            r.push(cur);
            cur = Vec::new();
            proof {
                start = i + 1;
            }
        } else {
            cur.push(b);
        }
        i += 1;
        proof {
            assert(cur@ =~= gbs.subrange(start, i as int));
            assert(split_chunks(gbs) =~= chunks_view(r@) + split_chunks_from(
                gbs,
                start,
                i as int,
            ));
        }
    }
    r.push(cur);
    proof {
        assert(chunks_view(r@) =~~= split_chunks(gbs));
    }
    r
}

} // verus!
