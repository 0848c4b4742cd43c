//! The `pieces` field: a byte string of concatenated 20-byte SHA-1 hashes.
use vstd::prelude::*;

use crate::Sha1Hash;

verus! {

/// Why a `pieces` byte string was refused.
#[derive(Debug, PartialEq, Eq, Structural)]
pub enum PiecesError {
    /// The length is not a multiple of 20; carries the length.
    Length(usize),
}

/// The concatenation of the hashes: byte `k` is byte `k % 20` of hash `k / 20`.
pub open spec fn is_concatenation(bytes: Seq<u8>, pieces: Seq<Sha1Hash>) -> bool {
    &&& bytes.len() == 20 * pieces.len()
    &&& forall|k: int| 0 <= k < bytes.len() ==> #[trigger] bytes[k] == pieces[k / 20]@[k % 20]
}

/// Concatenates the piece hashes into one byte string.
pub fn serialize(pieces: &[Sha1Hash]) -> (v: Vec<u8>)
    requires
        20 * pieces@.len() <= usize::MAX,
    ensures
        is_concatenation(v@, pieces@),
{
    let mut v: Vec<u8> = Vec::new();
    let mut i: usize = 0;
    while i < pieces.len()
        invariant
            i <= pieces@.len(),
            20 * pieces@.len() <= usize::MAX,
            v@.len() == 20 * i,
            forall|k: int| 0 <= k < v@.len() ==> #[trigger] v@[k] == pieces@[k / 20]@[k % 20],
        decreases pieces@.len() - i,
    {
        let piece = pieces[i];
        let mut j: usize = 0;
        while j < 20
            invariant
                i < pieces@.len(),
                piece == pieces@[i as int],
                j <= 20,
                v@.len() == 20 * i + j,
                forall|k: int| 0 <= k < v@.len() ==> #[trigger] v@[k] == pieces@[k / 20]@[k % 20],
            decreases 20 - j,
        {
            proof {
                let k = 20 * i + j;
                assert(k / 20 == i && k % 20 == j) by (nonlinear_arith)
                    requires
                        k == 20 * i + j,
                        0 <= j < 20,
                ;
            }
            v.push(piece[j]);
            j = j + 1;
        }
        i = i + 1;
    }
    v
}

/// Splits a byte string into 20-byte hashes; refused unless its length is a
/// multiple of 20.
pub fn deserialize(v: &[u8]) -> (r: Result<Vec<Sha1Hash>, PiecesError>)
    ensures
        v@.len() % 20 != 0 <==> r == Err::<Vec<Sha1Hash>, PiecesError>(
            PiecesError::Length(v@.len() as usize),
        ),
        r is Ok <==> v@.len() % 20 == 0,
        r matches Ok(p) ==> is_concatenation(v@, p@),
{
    if v.len() % 20 != 0 {
        return Err(PiecesError::Length(v.len()));
    }
    let n = v.len() / 20;
    let mut out: Vec<Sha1Hash> = Vec::new();
    let mut i: usize = 0;
    while i < n
        invariant
            n == v@.len() / 20,
            v@.len() % 20 == 0,
            i <= n,
            out@.len() == i,
            forall|p: int, q: int|
                0 <= p < i && 0 <= q < 20 ==> #[trigger] out@[p]@[q] == v@[20 * p + q],
        decreases n - i,
    {
        proof {
            assert(20 * i + 20 <= v@.len()) by (nonlinear_arith)
                requires
                    i < n,
                    n == v@.len() / 20,
                    v@.len() % 20 == 0,
            ;
        }
        let mut hash = [0u8; 20];
        let mut j: usize = 0;
        while j < 20
            invariant
                20 * i + 20 <= v@.len(),
                v@.len() == v.len(),
                j <= 20,
                hash@.len() == 20,
                forall|q: int| 0 <= q < j ==> #[trigger] hash@[q] == v@[20 * i + q],
            decreases 20 - j,
        {
            hash[j] = v[20 * i + j];
            j = j + 1;
        }
        out.push(hash);
        i = i + 1;
    }
    proof {
        assert(v@.len() == 20 * n) by (nonlinear_arith)
            requires
                n == v@.len() / 20,
                v@.len() % 20 == 0,
        ;
        assert forall|k: int| 0 <= k < v@.len() implies #[trigger] v@[k] == out@[k / 20]@[k % 20] by {
            let p = k / 20;
            let q = k % 20;
            assert(k == 20 * p + q && 0 <= p < n && 0 <= q < 20) by (nonlinear_arith)
                requires
                    p == k / 20,
                    q == k % 20,
                    0 <= k < v@.len(),
                    v@.len() == 20 * n,
            ;
            assert(out@[p]@[q] == v@[20 * p + q]);
        }
    }
    Ok(out)
}

/// Concatenation determines the hashes: two hash lists with the same
/// concatenation are equal.
pub proof fn lemma_concatenation_unique(bytes: Seq<u8>, a: Seq<Sha1Hash>, b: Seq<Sha1Hash>)
    requires
        is_concatenation(bytes, a),
        is_concatenation(bytes, b),
    ensures
        a == b,
{
    assert(a.len() == b.len());
    assert forall|p: int| 0 <= p < a.len() implies a[p] == b[p] by {
        assert forall|q: int| 0 <= q < 20 implies a[p]@[q] == b[p]@[q] by {
            let k = 20 * p + q;
            assert(k / 20 == p && k % 20 == q && 0 <= k < bytes.len()) by (nonlinear_arith)
                requires
                    k == 20 * p + q,
                    0 <= q < 20,
                    0 <= p < a.len(),
                    bytes.len() == 20 * a.len(),
            ;
            assert(bytes[k] == a[k / 20]@[k % 20]);
            assert(bytes[k] == b[k / 20]@[k % 20]);
        }
        assert(a[p] =~= b[p]);
    }
    assert(a =~= b);
}

/// Splitting what `serialize` produced gives back the same hashes.
pub proof fn lemma_deserialize_serialize(pieces: Seq<Sha1Hash>, bytes: Seq<u8>, parsed: Seq<Sha1Hash>)
    requires
        is_concatenation(bytes, pieces),
        is_concatenation(bytes, parsed),
    ensures
        parsed == pieces,
{
    lemma_concatenation_unique(bytes, pieces, parsed);
}

/// Concatenating what `deserialize` split gives back the same bytes:
/// the hashes determine their concatenation.
pub proof fn lemma_serialize_deserialize(bytes: Seq<u8>, parsed: Seq<Sha1Hash>, joined: Seq<u8>)
    requires
        is_concatenation(bytes, parsed),
        is_concatenation(joined, parsed),
    ensures
        joined == bytes,
{
    assert forall|k: int| 0 <= k < bytes.len() implies joined[k] == bytes[k] by {
        assert(joined[k] == parsed[k / 20]@[k % 20]);
    }
    assert(joined =~= bytes);
}

} // verus!
