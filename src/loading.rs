//! Decoding the packed dictionary image.
use crate::dawg::{Dawg, DawgEdge, DawgNodeIndex, NULL_DAWG_NODE_INDEX};
use crate::error::ScrabbleError;
use vstd::prelude::*;

verus! {

/// The number of bytes of one packed edge.
pub const EDGE_BYTES: usize = 8;

/// The target field of edge `k`: bytes 4 to 7, little-endian.
pub open spec fn target_at(b: Seq<u8>, k: int) -> int {
    b[8 * k + 4] as int + 256 * b[8 * k + 5] + 65536 * b[8 * k + 6] + 16777216 * b[8 * k + 7]
}

/// Edge `k` of a packed image: byte 0 is the letter, the low bits of bytes 1 and 2 are the
/// word and node terminators, bytes 4 to 7 the target.
pub open spec fn edge_at(b: Seq<u8>, k: int) -> DawgEdge {
    DawgEdge {
        letter: b[8 * k] as char,
        word_terminator: b[8 * k + 1] % 2 == 1,
        node_terminator: b[8 * k + 2] % 2 == 1,
        target: DawgNodeIndex(target_at(b, k) as u32),
    }
}

/// A packed image is well formed when it holds whole edges and each target is absent or
/// names an edge of the image.
pub open spec fn image_is_valid(b: Seq<u8>) -> bool {
    &&& b.len() % 8 == 0
    &&& forall|k: int|
        0 <= k < b.len() / 8 ==> #[trigger] target_at(b, k) == NULL_DAWG_NODE_INDEX
            || target_at(b, k) < b.len() / 8
}

impl DawgEdge {
    /// Decodes edge `k` of a packed image.
    pub fn from_le_bytes(bytes: &[u8], k: usize) -> (r: DawgEdge)
        requires
            8 * k + 8 <= bytes@.len(),
        ensures
            r == edge_at(bytes@, k as int),
    {
        let len = bytes.len();
        assert(8 * k <= len);
        let base = EDGE_BYTES * k;
        let target: u32 = bytes[base + 4] as u32 + 256 * (bytes[base + 5] as u32) + 65536 * (
        bytes[base + 6] as u32) + 16777216 * (bytes[base + 7] as u32);
        DawgEdge {
            letter: bytes[base] as char,
            word_terminator: bytes[base + 1] % 2 == 1,
            node_terminator: bytes[base + 2] % 2 == 1,
            target: DawgNodeIndex(target),
        }
    }
}

/// Decodes a packed dictionary image, one little-endian 64-bit edge per eight bytes.
pub fn load_dawg(bytes: &[u8]) -> (r: Result<Dawg, ScrabbleError>)
    ensures
        r is Ok <==> image_is_valid(bytes@),
        r is Err ==> r == Err::<Dawg, ScrabbleError>(ScrabbleError::MalformedDictionary),
        r matches Ok(d) ==> d.wf() && d.edges@.len() == bytes@.len() / 8 && forall|k: int|
            0 <= k < d.edges@.len() ==> #[trigger] d.edges@[k] == edge_at(bytes@, k),
{
    if bytes.len() % EDGE_BYTES != 0 {
        return Err(ScrabbleError::MalformedDictionary);
    }
    let n = bytes.len() / EDGE_BYTES;
    let mut edges: Vec<DawgEdge> = Vec::with_capacity(n);
    let mut k: usize = 0;
    while k < n
        invariant
            n == bytes@.len() / 8,
            bytes@.len() % 8 == 0,
            0 <= k <= n,
            edges@.len() == k,
            forall|j: int| 0 <= j < k ==> #[trigger] edges@[j] == edge_at(bytes@, j),
            forall|j: int|
                0 <= j < k ==> #[trigger] target_at(bytes@, j) == NULL_DAWG_NODE_INDEX
                    || target_at(bytes@, j) < n,
        decreases n - k,
    {
        let edge = DawgEdge::from_le_bytes(bytes, k);
        if edge.target.0 != NULL_DAWG_NODE_INDEX && edge.target.0 as usize >= n {
            proof {
                assert(!(target_at(bytes@, k as int) == NULL_DAWG_NODE_INDEX || target_at(
                    bytes@,
                    k as int,
                ) < n));
            }
            return Err(ScrabbleError::MalformedDictionary);
        }
        edges.push(edge);
        k += 1;
    }
    let d = Dawg { edges };
    proof {
        assert forall|i: int| 0 <= i < d.edges@.len() implies (#[trigger] d.edges@[i]).target.0
            == NULL_DAWG_NODE_INDEX || (d.edges@[i].target.0 as int) < d.edges@.len() by {
            assert(d.edges@[i] == edge_at(bytes@, i));
            assert(target_at(bytes@, i) == NULL_DAWG_NODE_INDEX || target_at(bytes@, i) < n);
        }
    }
    Ok(d)
}

} // verus!
