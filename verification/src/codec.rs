//! Serialization of a compiled tree.
//!
//! The persisted layout is fixed and little-endian: the 256-word palette
//! (1024 bytes), one 32-bit word holding the node array's byte count, the
//! node array (four 32-bit words per node), then the raw leaf bytes. A
//! general-purpose compressor is applied to the whole encoded stream as a
//! second, orthogonal pass.

use crate::map::VoxelMap;
use crate::math::Vec3i;
use crate::tree::{
    generate_tree, node_consistent, region_fits, Node, VoxelTree,
};
use std::io::{Read, Write};
use vstd::arithmetic::div_mod::lemma_mod_multiples_basic;
use vstd::prelude::*;

verus! {

/// The four little-endian bytes of a 32-bit word.
pub open spec fn le32(x: u32) -> Seq<u8> {
    seq![
        (x & 0xFF) as u8,
        ((x >> 8) & 0xFF) as u8,
        ((x >> 16) & 0xFF) as u8,
        ((x >> 24) & 0xFF) as u8,
    ]
}

/// The 32-bit word read from four little-endian bytes.
pub open spec fn le32_val(b0: u8, b1: u8, b2: u8, b3: u8) -> u32 {
    (b0 + b1 * 0x100 + b2 * 0x1_0000 + b3 * 0x100_0000) as u32
}

/// Reading back the four little-endian bytes of a word gives the word.
proof fn lemma_le32_round_trip(x: u32)
    by (bit_vector)
    ensures
        (x & 0xFF) + ((x >> 8) & 0xFF) * 0x100 + ((x >> 16) & 0xFF) * 0x1_0000 + ((x >> 24)
            & 0xFF) * 0x100_0000 == x,
        x & 0xFF < 0x100,
        (x >> 8) & 0xFF < 0x100,
        (x >> 16) & 0xFF < 0x100,
        (x >> 24) & 0xFF < 0x100,
{
}

/// The first `n` words, each as four little-endian bytes.
pub open spec fn words_bytes(ws: Seq<u32>, n: int) -> Seq<u8>
    decreases n,
{
    if n <= 0 {
        Seq::empty()
    } else {
        words_bytes(ws, n - 1) + le32(ws[n - 1])
    }
}

proof fn lemma_words_bytes_len(ws: Seq<u32>, n: int)
    requires
        0 <= n,
    ensures
        words_bytes(ws, n).len() == 4 * n,
    decreases n,
{
    if n > 0 {
        lemma_words_bytes_len(ws, n - 1);
    }
}

proof fn lemma_words_bytes_index(ws: Seq<u32>, n: int, i: int, j: int)
    requires
        0 <= i < n,
        0 <= j < 4,
    ensures
        words_bytes(ws, n).len() == 4 * n,
        words_bytes(ws, n)[4 * i + j] == le32(ws[i])[j],
    decreases n,
{
    lemma_words_bytes_len(ws, n);
    if i < n - 1 {
        lemma_words_bytes_index(ws, n - 1, i, j);
    } else {
        lemma_words_bytes_len(ws, n - 1);
    }
}

/// The words of the node array in wire order: pointer word, low mask, high
/// mask, padding, for each node in turn.
pub open spec fn node_words(ns: Seq<Node>) -> Seq<u32> {
    Seq::new(
        4 * ns.len(),
        |k: int|
            {
                let f = k % 4;
                if f == 0 {
                    ns[k / 4].child_ptr_is_leaf
                } else if f == 1 {
                    ns[k / 4].maskl
                } else if f == 2 {
                    ns[k / 4].maskh
                } else {
                    ns[k / 4].pad
                }
            },
    )
}

/// The encoded byte stream of a tree: palette, node byte count, nodes,
/// leaves.
pub open spec fn encoded(t: VoxelTree) -> Seq<u8> {
    words_bytes(t.palette@, 256) + le32((t.nodes@.len() * 16) as u32) + words_bytes(
        node_words(t.nodes@),
        4 * t.nodes@.len() as int,
    ) + t.leaves@
}

/// A byte stream is decodable when it holds the full palette and count
/// header, its node byte count is a whole number of node records, and the
/// records all lie inside the stream.
pub open spec fn decode_ok(bytes: Seq<u8>) -> bool {
    &&& bytes.len() >= 1028
    &&& le32_val(bytes[1024], bytes[1025], bytes[1026], bytes[1027]) as int % 16 == 0
    &&& 1028 + le32_val(bytes[1024], bytes[1025], bytes[1026], bytes[1027]) as int
        <= bytes.len()
}

/// The node byte count of a decodable stream.
pub open spec fn decoded_node_bytes(bytes: Seq<u8>) -> int {
    le32_val(bytes[1024], bytes[1025], bytes[1026], bytes[1027]) as int
}

/// What decoding a decodable stream yields, field by field.
pub open spec fn decodes_to(bytes: Seq<u8>, exp: u32, t: VoxelTree) -> bool {
    let nb = decoded_node_bytes(bytes);
    &&& t.exp == exp
    &&& t.palette@.len() == 256
    &&& forall|i: int|
        0 <= i < 256 ==> #[trigger] t.palette@[i] == le32_val(
            bytes[4 * i],
            bytes[4 * i + 1],
            bytes[4 * i + 2],
            bytes[4 * i + 3],
        )
    &&& t.nodes@.len() == nb / 16
    &&& forall|i: int|
        0 <= i < nb / 16 ==> #[trigger] t.nodes@[i] == (Node {
            child_ptr_is_leaf: le32_val(
                bytes[1028 + 16 * i],
                bytes[1028 + 16 * i + 1],
                bytes[1028 + 16 * i + 2],
                bytes[1028 + 16 * i + 3],
            ),
            maskl: le32_val(
                bytes[1028 + 16 * i + 4],
                bytes[1028 + 16 * i + 5],
                bytes[1028 + 16 * i + 6],
                bytes[1028 + 16 * i + 7],
            ),
            maskh: le32_val(
                bytes[1028 + 16 * i + 8],
                bytes[1028 + 16 * i + 9],
                bytes[1028 + 16 * i + 10],
                bytes[1028 + 16 * i + 11],
            ),
            pad: le32_val(
                bytes[1028 + 16 * i + 12],
                bytes[1028 + 16 * i + 13],
                bytes[1028 + 16 * i + 14],
                bytes[1028 + 16 * i + 15],
            ),
        })
    &&& t.leaves@ == bytes.subrange(1028 + nb, bytes.len() as int)
}

/// Why a byte stream failed to decode.
#[derive(Clone, Copy, PartialEq, Eq, Structural, Debug)]
pub enum CodecError {
    /// The stream ends before the header or the node records do.
    Truncated,
    /// The recorded node byte count is not a whole number of records.
    BadNodeLength,
    /// The compressed stream cannot be decompressed.
    Corrupted,
}

/// Appends the four little-endian bytes of `x`.
fn push_u32_le(out: &mut Vec<u8>, x: u32)
    ensures
        final(out)@ == old(out)@ + le32(x),
{
    out.push((x & 0xFF) as u8);
    out.push(((x >> 8) & 0xFF) as u8);
    out.push(((x >> 16) & 0xFF) as u8);
    out.push(((x >> 24) & 0xFF) as u8);
    proof {
        assert(final(out)@ =~= old(out)@ + le32(x));
    }
}

/// Reads the 32-bit word stored little-endian at `off`.
fn read_u32_le(bytes: &Vec<u8>, off: usize) -> (r: u32)
    requires
        off + 4 <= bytes@.len(),
    ensures
        r == le32_val(bytes@[off as int], bytes@[off + 1], bytes@[off + 2], bytes@[off + 3]),
{
    let n = bytes.len();
    let b0 = bytes[off] as u32;
    let b1 = bytes[off + 1] as u32;
    let b2 = bytes[off + 2] as u32;
    let b3 = bytes[off + 3] as u32;
    b0 + b1 * 0x100 + b2 * 0x1_0000 + b3 * 0x100_0000
}

impl VoxelTree {
    /// Serializes the tree into the fixed little-endian layout: palette,
    /// node byte count, node records, leaf bytes.
    pub fn encode(&self) -> (r: Vec<u8>)
        requires
            self.palette@.len() == 256,
            self.nodes@.len() * 16 <= 0xFFFF_FFFF,
        ensures
            r@ == encoded(*self),
    {
        let mut out: Vec<u8> = Vec::new();
        let mut i: usize = 0;
        while i < 256
            invariant
                i <= 256,
                self.palette@.len() == 256,
                out@ == words_bytes(self.palette@, i as int),
            decreases 256 - i,
        {
            push_u32_le(&mut out, self.palette[i]);
            i += 1;
        }
        let nb: u32 = (self.nodes.len() as u32) * 16;
        push_u32_le(&mut out, nb);
        let ghost header = words_bytes(self.palette@, 256) + le32(nb);
        let mut j: usize = 0;
        while j < self.nodes.len()
            invariant
                j <= self.nodes@.len(),
                self.nodes@.len() * 16 <= 0xFFFF_FFFF,
                header == words_bytes(self.palette@, 256) + le32(
                    (self.nodes@.len() * 16) as u32,
                ),
                out@ == header + words_bytes(node_words(self.nodes@), 4 * j),
            decreases self.nodes@.len() - j,
        {
            let n = &self.nodes[j];
            push_u32_le(&mut out, n.child_ptr_is_leaf);
            push_u32_le(&mut out, n.maskl);
            push_u32_le(&mut out, n.maskh);
            push_u32_le(&mut out, n.pad);
            proof {
                let ws = node_words(self.nodes@);
                assert(ws[4 * j] == self.nodes@[j as int].child_ptr_is_leaf && ws[4 * j + 1]
                    == self.nodes@[j as int].maskl && ws[4 * j + 2] == self.nodes@[
                    j as int].maskh && ws[4 * j + 3] == self.nodes@[j as int].pad) by {
                    assert((4 * j) % 4 == 0 && (4 * j) / 4 == j) by {
                        lemma_mod_multiples_basic(j as int, 4);
                    }
                    assert((4 * j + 1) % 4 == 1 && (4 * j + 1) / 4 == j && (4 * j + 2) % 4
                        == 2 && (4 * j + 2) / 4 == j && (4 * j + 3) % 4 == 3 && (4 * j + 3)
                        / 4 == j) by {
                        vstd::arithmetic::div_mod::lemma_fundamental_div_mod_converse(
                            4 * j + 1,
                            4,
                            j as int,
                            1,
                        );
                        vstd::arithmetic::div_mod::lemma_fundamental_div_mod_converse(
                            4 * j + 2,
                            4,
                            j as int,
                            2,
                        );
                        vstd::arithmetic::div_mod::lemma_fundamental_div_mod_converse(
                            4 * j + 3,
                            4,
                            j as int,
                            3,
                        );
                    }
                }
                assert(words_bytes(ws, 4 * j + 1) == words_bytes(ws, 4 * j) + le32(
                    ws[4 * j],
                ));
                assert(words_bytes(ws, 4 * j + 2) == words_bytes(ws, 4 * j + 1) + le32(
                    ws[4 * j + 1],
                ));
                assert(words_bytes(ws, 4 * j + 3) == words_bytes(ws, 4 * j + 2) + le32(
                    ws[4 * j + 2],
                ));
                assert(words_bytes(ws, 4 * j + 4) == words_bytes(ws, 4 * j + 3) + le32(
                    ws[4 * j + 3],
                ));
                assert(out@ =~= header + words_bytes(ws, 4 * (j + 1)));
            }
            j += 1;
        }
        let mut k: usize = 0;
        let ghost body = header + words_bytes(node_words(self.nodes@), 4 * self.nodes@.len() as int);
        while k < self.leaves.len()
            invariant
                k <= self.leaves@.len(),
                out@ == body + self.leaves@.subrange(0, k as int),
            decreases self.leaves@.len() - k,
        {
            out.push(self.leaves[k]);
            proof {
                assert(out@ =~= body + self.leaves@.subrange(0, k + 1));
            }
            k += 1;
        }
        proof {
            assert(self.leaves@.subrange(0, self.leaves@.len() as int) =~= self.leaves@);
        }
        out
    }

    /// Parses the fixed little-endian layout back into a tree, with `exp`
    /// supplied out of band. Exactly the streams accepted by `decode_ok`
    /// succeed; a short stream or an uneven node byte count is rejected.
    pub fn decode(bytes: &Vec<u8>, exp: u32) -> (r: Result<VoxelTree, CodecError>)
        ensures
            match r {
                Ok(t) => decode_ok(bytes@) && decodes_to(bytes@, exp, t),
                Err(e) => !decode_ok(bytes@) && (e == CodecError::Truncated || e
                    == CodecError::BadNodeLength) && (e == CodecError::BadNodeLength
                    ==> bytes@.len() >= 1028),
            },
    {
        if bytes.len() < 1028 {
            return Err(CodecError::Truncated);
        }
        let nb = read_u32_le(bytes, 1024) as usize;
        if nb % 16 != 0 {
            return Err(CodecError::BadNodeLength);
        }
        if bytes.len() - 1028 < nb {
            return Err(CodecError::Truncated);
        }
        let blen = bytes.len();
        let mut palette: Vec<u32> = Vec::new();
        let mut i: usize = 0;
        while i < 256
            invariant
                i <= 256,
                bytes@.len() >= 1028,
                palette@.len() == i,
                forall|q: int|
                    0 <= q < i ==> #[trigger] palette@[q] == le32_val(
                        bytes@[4 * q],
                        bytes@[4 * q + 1],
                        bytes@[4 * q + 2],
                        bytes@[4 * q + 3],
                    ),
            decreases 256 - i,
        {
            palette.push(read_u32_le(bytes, 4 * i));
            i += 1;
        }
        let count = nb / 16;
        let mut nodes: Vec<Node> = Vec::new();
        let mut j: usize = 0;
        while j < count
            invariant
                j <= count,
                count == nb / 16,
                nb % 16 == 0,
                blen == bytes@.len(),
                1028 + nb <= blen,
                nodes@.len() == j,
                forall|q: int|
                    0 <= q < j ==> #[trigger] nodes@[q] == (Node {
                        child_ptr_is_leaf: le32_val(
                            bytes@[1028 + 16 * q],
                            bytes@[1028 + 16 * q + 1],
                            bytes@[1028 + 16 * q + 2],
                            bytes@[1028 + 16 * q + 3],
                        ),
                        maskl: le32_val(
                            bytes@[1028 + 16 * q + 4],
                            bytes@[1028 + 16 * q + 5],
                            bytes@[1028 + 16 * q + 6],
                            bytes@[1028 + 16 * q + 7],
                        ),
                        maskh: le32_val(
                            bytes@[1028 + 16 * q + 8],
                            bytes@[1028 + 16 * q + 9],
                            bytes@[1028 + 16 * q + 10],
                            bytes@[1028 + 16 * q + 11],
                        ),
                        pad: le32_val(
                            bytes@[1028 + 16 * q + 12],
                            bytes@[1028 + 16 * q + 13],
                            bytes@[1028 + 16 * q + 14],
                            bytes@[1028 + 16 * q + 15],
                        ),
                    }),
            decreases count - j,
        {
            proof {
                assert(16 * (j + 1) <= nb) by (nonlinear_arith)
                    requires
                        j < count,
                        count == nb / 16,
                        nb % 16 == 0,
                        nb >= 0,
                ;
            }
            let base = 1028 + 16 * j;
            let node = Node {
                child_ptr_is_leaf: read_u32_le(bytes, base),
                maskl: read_u32_le(bytes, base + 4),
                maskh: read_u32_le(bytes, base + 8),
                pad: read_u32_le(bytes, base + 12),
            };
            nodes.push(node);
            j += 1;
        }
        let mut leaves: Vec<u8> = Vec::new();
        let mut k: usize = 1028 + nb;
        while k < blen
            invariant
                blen == bytes@.len(),
                1028 + nb <= k <= blen,
                leaves@ == bytes@.subrange(1028 + nb, k as int),
            decreases bytes@.len() - k,
        {
            leaves.push(bytes[k]);
            proof {
                assert(leaves@ =~= bytes@.subrange(1028 + nb, k + 1));
            }
            k += 1;
        }
        proof {
            assert(count as int == decoded_node_bytes(bytes@) / 16);
        }
        Ok(VoxelTree { nodes, leaves, palette, exp })
    }
}

/// Losslessness of the fixed layout: every tree that can be encoded is
/// accepted by the decoder, and decoding reproduces it field for field.
pub proof fn lemma_codec_round_trip(t: VoxelTree)
    requires
        t.palette@.len() == 256,
        t.nodes@.len() * 16 <= 0xFFFF_FFFF,
    ensures
        decode_ok(encoded(t)),
        decodes_to(encoded(t), t.exp, t),
{
    let bytes = encoded(t);
    let n = t.nodes@.len() as int;
    let pal = words_bytes(t.palette@, 256);
    let cnt = le32((n * 16) as u32);
    let nw = node_words(t.nodes@);
    let nb_bytes = words_bytes(nw, 4 * n);
    lemma_words_bytes_len(t.palette@, 256);
    lemma_words_bytes_len(nw, 4 * n);
    // The count word reads back as the node byte total.
    assert(bytes[1024] == cnt[0] && bytes[1025] == cnt[1] && bytes[1026] == cnt[2]
        && bytes[1027] == cnt[3]);
    lemma_le32_round_trip((n * 16) as u32);
    assert(le32_val(cnt[0], cnt[1], cnt[2], cnt[3]) == (n * 16) as u32);
    assert(decoded_node_bytes(bytes) == 16 * n);
    lemma_mod_multiples_basic(n, 16);
    assert((16 * n) % 16 == 0);
    assert(bytes.len() == 1028 + 16 * n + t.leaves@.len());
    assert(decode_ok(bytes));
    // Palette words read back unchanged.
    assert forall|i: int| 0 <= i < 256 implies #[trigger] t.palette@[i] == le32_val(
        bytes[4 * i],
        bytes[4 * i + 1],
        bytes[4 * i + 2],
        bytes[4 * i + 3],
    ) by {
        lemma_words_bytes_index(t.palette@, 256, i, 0);
        lemma_words_bytes_index(t.palette@, 256, i, 1);
        lemma_words_bytes_index(t.palette@, 256, i, 2);
        lemma_words_bytes_index(t.palette@, 256, i, 3);
        lemma_le32_round_trip(t.palette@[i]);
    }
    // Node records read back unchanged.
    assert((16 * n) / 16 == n) by {
        lemma_mod_multiples_basic(n, 16);
        vstd::arithmetic::div_mod::lemma_fundamental_div_mod_converse(16 * n, 16, n, 0);
    }
    assert forall|i: int| 0 <= i < n implies #[trigger] t.nodes@[i] == (Node {
        child_ptr_is_leaf: le32_val(
            bytes[1028 + 16 * i],
            bytes[1028 + 16 * i + 1],
            bytes[1028 + 16 * i + 2],
            bytes[1028 + 16 * i + 3],
        ),
        maskl: le32_val(
            bytes[1028 + 16 * i + 4],
            bytes[1028 + 16 * i + 5],
            bytes[1028 + 16 * i + 6],
            bytes[1028 + 16 * i + 7],
        ),
        maskh: le32_val(
            bytes[1028 + 16 * i + 8],
            bytes[1028 + 16 * i + 9],
            bytes[1028 + 16 * i + 10],
            bytes[1028 + 16 * i + 11],
        ),
        pad: le32_val(
            bytes[1028 + 16 * i + 12],
            bytes[1028 + 16 * i + 13],
            bytes[1028 + 16 * i + 14],
            bytes[1028 + 16 * i + 15],
        ),
    }) by {
lemma_words_bytes_index(nw, 4 * n, 4 * i + 0, 0);
        assert(bytes[1028 + 16 * i + 0] == le32(nw[4 * i + 0])[0]) by {
            assert(nb_bytes[4 * (4 * i + 0) + 0] == le32(nw[4 * i + 0])[0]);
        }
        lemma_words_bytes_index(nw, 4 * n, 4 * i + 0, 1);
        assert(bytes[1028 + 16 * i + 1] == le32(nw[4 * i + 0])[1]) by {
            assert(nb_bytes[4 * (4 * i + 0) + 1] == le32(nw[4 * i + 0])[1]);
        }
        lemma_words_bytes_index(nw, 4 * n, 4 * i + 0, 2);
        assert(bytes[1028 + 16 * i + 2] == le32(nw[4 * i + 0])[2]) by {
            assert(nb_bytes[4 * (4 * i + 0) + 2] == le32(nw[4 * i + 0])[2]);
        }
        lemma_words_bytes_index(nw, 4 * n, 4 * i + 0, 3);
        assert(bytes[1028 + 16 * i + 3] == le32(nw[4 * i + 0])[3]) by {
            assert(nb_bytes[4 * (4 * i + 0) + 3] == le32(nw[4 * i + 0])[3]);
        }
        lemma_words_bytes_index(nw, 4 * n, 4 * i + 1, 0);
        assert(bytes[1028 + 16 * i + 4] == le32(nw[4 * i + 1])[0]) by {
            assert(nb_bytes[4 * (4 * i + 1) + 0] == le32(nw[4 * i + 1])[0]);
        }
        lemma_words_bytes_index(nw, 4 * n, 4 * i + 1, 1);
        assert(bytes[1028 + 16 * i + 5] == le32(nw[4 * i + 1])[1]) by {
            assert(nb_bytes[4 * (4 * i + 1) + 1] == le32(nw[4 * i + 1])[1]);
        }
        lemma_words_bytes_index(nw, 4 * n, 4 * i + 1, 2);
        assert(bytes[1028 + 16 * i + 6] == le32(nw[4 * i + 1])[2]) by {
            assert(nb_bytes[4 * (4 * i + 1) + 2] == le32(nw[4 * i + 1])[2]);
        }
        lemma_words_bytes_index(nw, 4 * n, 4 * i + 1, 3);
        assert(bytes[1028 + 16 * i + 7] == le32(nw[4 * i + 1])[3]) by {
            assert(nb_bytes[4 * (4 * i + 1) + 3] == le32(nw[4 * i + 1])[3]);
        }
        lemma_words_bytes_index(nw, 4 * n, 4 * i + 2, 0);
        assert(bytes[1028 + 16 * i + 8] == le32(nw[4 * i + 2])[0]) by {
            assert(nb_bytes[4 * (4 * i + 2) + 0] == le32(nw[4 * i + 2])[0]);
        }
        lemma_words_bytes_index(nw, 4 * n, 4 * i + 2, 1);
        assert(bytes[1028 + 16 * i + 9] == le32(nw[4 * i + 2])[1]) by {
            assert(nb_bytes[4 * (4 * i + 2) + 1] == le32(nw[4 * i + 2])[1]);
        }
        lemma_words_bytes_index(nw, 4 * n, 4 * i + 2, 2);
        assert(bytes[1028 + 16 * i + 10] == le32(nw[4 * i + 2])[2]) by {
            assert(nb_bytes[4 * (4 * i + 2) + 2] == le32(nw[4 * i + 2])[2]);
        }
        lemma_words_bytes_index(nw, 4 * n, 4 * i + 2, 3);
        assert(bytes[1028 + 16 * i + 11] == le32(nw[4 * i + 2])[3]) by {
            assert(nb_bytes[4 * (4 * i + 2) + 3] == le32(nw[4 * i + 2])[3]);
        }
        lemma_words_bytes_index(nw, 4 * n, 4 * i + 3, 0);
        assert(bytes[1028 + 16 * i + 12] == le32(nw[4 * i + 3])[0]) by {
            assert(nb_bytes[4 * (4 * i + 3) + 0] == le32(nw[4 * i + 3])[0]);
        }
        lemma_words_bytes_index(nw, 4 * n, 4 * i + 3, 1);
        assert(bytes[1028 + 16 * i + 13] == le32(nw[4 * i + 3])[1]) by {
            assert(nb_bytes[4 * (4 * i + 3) + 1] == le32(nw[4 * i + 3])[1]);
        }
        lemma_words_bytes_index(nw, 4 * n, 4 * i + 3, 2);
        assert(bytes[1028 + 16 * i + 14] == le32(nw[4 * i + 3])[2]) by {
            assert(nb_bytes[4 * (4 * i + 3) + 2] == le32(nw[4 * i + 3])[2]);
        }
        lemma_words_bytes_index(nw, 4 * n, 4 * i + 3, 3);
        assert(bytes[1028 + 16 * i + 15] == le32(nw[4 * i + 3])[3]) by {
            assert(nb_bytes[4 * (4 * i + 3) + 3] == le32(nw[4 * i + 3])[3]);
        }
        assert(nw[4 * i] == t.nodes@[i].child_ptr_is_leaf && nw[4 * i + 1]
            == t.nodes@[i].maskl && nw[4 * i + 2] == t.nodes@[i].maskh && nw[4 * i + 3]
            == t.nodes@[i].pad) by {
            lemma_mod_multiples_basic(i, 4);
            vstd::arithmetic::div_mod::lemma_fundamental_div_mod_converse(4 * i + 1, 4, i, 1);
            vstd::arithmetic::div_mod::lemma_fundamental_div_mod_converse(4 * i + 2, 4, i, 2);
            vstd::arithmetic::div_mod::lemma_fundamental_div_mod_converse(4 * i + 3, 4, i, 3);
        }
        lemma_le32_round_trip(t.nodes@[i].child_ptr_is_leaf);
        lemma_le32_round_trip(t.nodes@[i].maskl);
        lemma_le32_round_trip(t.nodes@[i].maskh);
        lemma_le32_round_trip(t.nodes@[i].pad);
        assert(bytes[1028 + 16 * i] == le32(t.nodes@[i].child_ptr_is_leaf)[0]);
    }
    // Leaf bytes are the tail.
    assert(t.leaves@ =~= bytes.subrange(1028 + 16 * n, bytes.len() as int));
}


/// What the compressor produces for a byte stream. Compression at a fixed
/// level is a function of the input bytes alone.
pub uninterp spec fn bz2_compressed(s: Seq<u8>) -> Seq<u8>;

/// What the decompressor yields for a byte stream: the recovered bytes, or
/// nothing for a stream it rejects.
pub uninterp spec fn bz2_decompressed(s: Seq<u8>) -> Option<Seq<u8>>;

/// Relies on bzip2's `BzEncoder` writing to an in-memory buffer at
/// `Compression::best()`: the output is a function of the input bytes, and
/// bzip2 is lossless, so decompressing the output recovers the input.
#[verifier::external_body]
fn bz2_compress(bytes: &Vec<u8>) -> (r: Vec<u8>)
    ensures
        r@ == bz2_compressed(bytes@),
        bz2_decompressed(r@) == Some(bytes@),
{
    let mut encoder = bzip2::write::BzEncoder::new(Vec::new(), bzip2::Compression::best());
    encoder.write_all(bytes).expect("in-memory compression cannot fail");
    encoder.finish().expect("in-memory compression cannot fail")
}

/// Relies on bzip2's `BzDecoder` reading from an in-memory buffer: decoding
/// is deterministic, yielding the recovered bytes or an error for a stream
/// it rejects.
#[verifier::external_body]
fn bz2_decompress(bytes: &Vec<u8>) -> (r: Option<Vec<u8>>)
    ensures
        match r {
            Some(d) => bz2_decompressed(bytes@) == Some(d@),
            None => bz2_decompressed(bytes@) is None,
        },
{
    let mut decoder = bzip2::read::BzDecoder::new(&bytes[..]);
    let mut out = Vec::new();
    match decoder.read_to_end(&mut out) {
        Ok(_) => Some(out),
        Err(_) => None,
    }
}

impl VoxelTree {
    /// Encodes the tree and compresses the encoded stream for storage.
    /// Decompressing the result recovers exactly the encoded stream.
    pub fn compress(&self) -> (r: Vec<u8>)
        requires
            self.palette@.len() == 256,
            self.nodes@.len() * 16 <= 0xFFFF_FFFF,
        ensures
            r@ == bz2_compressed(encoded(*self)),
            bz2_decompressed(r@) == Some(encoded(*self)),
    {
        let bytes = self.encode();
        bz2_compress(&bytes)
    }

    /// Decompresses a stored stream and decodes the tree from it, with `exp`
    /// supplied out of band. A stream the decompressor rejects is reported
    /// as corrupted; a decompressed stream that is not a whole encoded tree
    /// is rejected by the decoder.
    pub fn decompress(bytes: &Vec<u8>, exp: u32) -> (r: Result<VoxelTree, CodecError>)
        ensures
            match bz2_decompressed(bytes@) {
                Some(d) => match r {
                    Ok(t) => decode_ok(d) && decodes_to(d, exp, t),
                    Err(e) => !decode_ok(d) && e != CodecError::Corrupted,
                },
                None => r == Err::<VoxelTree, CodecError>(CodecError::Corrupted),
            },
    {
        match bz2_decompress(bytes) {
            Some(d) => VoxelTree::decode(&d, exp),
            None => Err(CodecError::Corrupted),
        }
    }

    /// The full storage round trip: compressing a tree and decompressing
    /// the result recovers it field for field. Demonstrates the losslessness
    /// of the codec and of the compression pass together.
    pub fn storage_round_trip(&self) -> (r: Option<VoxelTree>)
        requires
            self.palette@.len() == 256,
            self.nodes@.len() * 16 <= 0xFFFF_FFFF,
        ensures
            match r {
                Some(t) => {
                    &&& t.exp == self.exp
                    &&& t.palette@ == self.palette@
                    &&& t.nodes@ == self.nodes@
                    &&& t.leaves@ == self.leaves@
                },
                None => false,
            },
    {
        let packed = self.compress();
        proof {
            lemma_codec_round_trip(*self);
        }
        match VoxelTree::decompress(&packed, self.exp) {
            Ok(t) => {
                proof {
                    let bytes = encoded(*self);
                    let n = self.nodes@.len() as int;
                    lemma_words_bytes_len(self.palette@, 256);
                    lemma_words_bytes_len(node_words(self.nodes@), 4 * n);
                    lemma_le32_round_trip((n * 16) as u32);
                    lemma_mod_multiples_basic(n, 16);
                    vstd::arithmetic::div_mod::lemma_fundamental_div_mod_converse(
                        16 * n,
                        16,
                        n,
                        0,
                    );
                    assert(t.palette@ =~= self.palette@);
                    assert(t.nodes@ =~= self.nodes@);
                    assert(t.leaves@ =~= self.leaves@);
                }
                Some(t)
            },
            Err(_) => {
                proof {
                    assert(false);
                }
                None
            },
        }
    }
}

} // verus!
