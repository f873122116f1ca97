//! Conversion between logical bit sequences and packed bytes.
//!
//! Bits are packed most-significant-bit-first within each byte; when the bit
//! count is not a multiple of 8, the final byte is padded with zero bits at
//! its low-order end.

use vstd::prelude::*;

verus! {

/// Numeric weight of a single bit.
pub open spec fn bit_u8(b: bool) -> u8 {
    if b {
        1u8
    } else {
        0u8
    }
}

/// The byte formed by exactly 8 bits, most significant first.
pub open spec fn byte_of_8(c: Seq<bool>) -> u8
    recommends
        c.len() == 8,
{
    (bit_u8(c[0]) * 128 + bit_u8(c[1]) * 64 + bit_u8(c[2]) * 32 + bit_u8(c[3]) * 16 + bit_u8(c[4])
        * 8 + bit_u8(c[5]) * 4 + bit_u8(c[6]) * 2 + bit_u8(c[7])) as u8
}

/// A bit chunk extended with zero bits to a full byte.
pub open spec fn pad8(c: Seq<bool>) -> Seq<bool> {
    Seq::new(8, |k: int| if k < c.len() { c[k] } else { false })
}

/// The byte formed by at most 8 bits, zero-padded at the low-order end.
pub open spec fn byte_of_bits(c: Seq<bool>) -> u8
    recommends
        c.len() <= 8,
{
    byte_of_8(pad8(c))
}

/// Packing a bit sequence into bytes, 8 bits per byte, zero-padded at the end.
pub open spec fn pack_bits(bits: Seq<bool>) -> Seq<u8>
    decreases bits.len(),
{
    if bits.len() == 0 {
        Seq::empty()
    } else if bits.len() <= 8 {
        seq![byte_of_bits(bits)]
    } else {
        seq![byte_of_bits(bits.take(8))] + pack_bits(bits.skip(8))
    }
}

/// Bit `k` (0 = most significant) of a byte.
pub open spec fn bit_of_byte(v: u8, k: int) -> bool
    recommends
        0 <= k < 8,
{
    (v >> ((7 - k) as u8)) & 1 == 1
}

/// The 8 bits of a byte, most significant first.
pub open spec fn bits_of_byte(v: u8) -> Seq<bool> {
    Seq::new(8, |k: int| bit_of_byte(v, k))
}

/// Expanding a byte sequence into its full bit sequence.
pub open spec fn unpack_bits(bytes: Seq<u8>) -> Seq<bool>
    decreases bytes.len(),
{
    if bytes.len() == 0 {
        Seq::empty()
    } else {
        bits_of_byte(bytes[0]) + unpack_bits(bytes.skip(1))
    }
}

/// A bit sequence of at least 8 bits packs to its first full byte followed by
/// the packing of the remainder.
proof fn lemma_pack_unfold(rest: Seq<bool>)
    requires
        rest.len() >= 8,
    ensures
        pack_bits(rest) == seq![byte_of_bits(rest.take(8))] + pack_bits(rest.skip(8)),
{
    if rest.len() == 8 {
        assert(rest.take(8) =~= rest);
        assert(rest.skip(8) =~= Seq::<bool>::empty());
        assert(pack_bits(rest) =~= seq![byte_of_bits(rest.take(8))] + pack_bits(rest.skip(8)));
    }
}

/// The bits of a byte reconstruct the chunk the byte was formed from.
pub proof fn lemma_byte_bits(c: Seq<bool>)
    requires
        c.len() == 8,
    ensures
        forall|k: int| 0 <= k < 8 ==> bit_of_byte(byte_of_8(c), k) == c[k],
{
    let d0: u8 = bit_u8(c[0]);
    let d1: u8 = bit_u8(c[1]);
    let d2: u8 = bit_u8(c[2]);
    let d3: u8 = bit_u8(c[3]);
    let d4: u8 = bit_u8(c[4]);
    let d5: u8 = bit_u8(c[5]);
    let d6: u8 = bit_u8(c[6]);
    let d7: u8 = bit_u8(c[7]);
    let v: u8 = byte_of_8(c);
    assert(v == d0 * 128 + d1 * 64 + d2 * 32 + d3 * 16 + d4 * 8 + d5 * 4 + d6 * 2 + d7);
    assert((((v >> 7u8) & 1 == 1) == (d0 == 1)) && (((v >> 6u8) & 1 == 1) == (d1 == 1)) && (((v
        >> 5u8) & 1 == 1) == (d2 == 1)) && (((v >> 4u8) & 1 == 1) == (d3 == 1)) && (((v >> 3u8) & 1
        == 1) == (d4 == 1)) && (((v >> 2u8) & 1 == 1) == (d5 == 1)) && (((v >> 1u8) & 1 == 1) == (
    d6 == 1)) && (((v >> 0u8) & 1 == 1) == (d7 == 1))) by (bit_vector)
        requires
            v == d0 * 128 + d1 * 64 + d2 * 32 + d3 * 16 + d4 * 8 + d5 * 4 + d6 * 2 + d7,
            d0 <= 1,
            d1 <= 1,
            d2 <= 1,
            d3 <= 1,
            d4 <= 1,
            d5 <= 1,
            d6 <= 1,
            d7 <= 1,
    ;
    assert forall|k: int| 0 <= k < 8 implies bit_of_byte(v, k) == c[k] by {
        if k == 0 {
            assert(bit_of_byte(v, 0) == ((v >> 7u8) & 1 == 1));
        } else if k == 1 {
            assert(bit_of_byte(v, 1) == ((v >> 6u8) & 1 == 1));
        } else if k == 2 {
            assert(bit_of_byte(v, 2) == ((v >> 5u8) & 1 == 1));
        } else if k == 3 {
            assert(bit_of_byte(v, 3) == ((v >> 4u8) & 1 == 1));
        } else if k == 4 {
            assert(bit_of_byte(v, 4) == ((v >> 3u8) & 1 == 1));
        } else if k == 5 {
            assert(bit_of_byte(v, 5) == ((v >> 2u8) & 1 == 1));
        } else if k == 6 {
            assert(bit_of_byte(v, 6) == ((v >> 1u8) & 1 == 1));
        } else {
            assert(bit_of_byte(v, 7) == ((v >> 0u8) & 1 == 1));
        }
    }
}

/// The number of bytes needed to pack a bit sequence.
pub proof fn lemma_pack_len(bits: Seq<bool>)
    ensures
        pack_bits(bits).len() == (bits.len() + 7) / 8,
    decreases bits.len(),
{
    if bits.len() > 8 {
        lemma_pack_len(bits.skip(8));
    }
}

/// The length of an unpacked bit sequence.
pub proof fn lemma_unpack_len(bytes: Seq<u8>)
    ensures
        unpack_bits(bytes).len() == 8 * bytes.len(),
    decreases bytes.len(),
{
    if bytes.len() > 0 {
        lemma_unpack_len(bytes.skip(1));
    }
}

/// Unpacking a packed bit sequence gives the original bits back, followed by
/// fewer than 8 zero-padding bits.
pub proof fn lemma_unpack_pack(bits: Seq<bool>)
    ensures
        unpack_bits(pack_bits(bits)).len() == 8 * pack_bits(bits).len(),
        unpack_bits(pack_bits(bits)).take(bits.len() as int) == bits,
        bits.len() <= 8 * pack_bits(bits).len(),
    decreases bits.len(),
{
    lemma_unpack_len(pack_bits(bits));
    lemma_pack_len(bits);
    if bits.len() == 0 {
        assert(unpack_bits(pack_bits(bits)).take(0) =~= bits);
    } else if bits.len() <= 8 {
        let p = pad8(bits);
        lemma_byte_bits(p);
        assert(byte_of_bits(bits) == byte_of_8(p));
        let u = unpack_bits(pack_bits(bits));
        assert(pack_bits(bits) == seq![byte_of_bits(bits)]);
        assert(pack_bits(bits).skip(1) =~= Seq::<u8>::empty());
        assert(u =~= bits_of_byte(byte_of_8(p)));
        assert forall|k: int| 0 <= k < bits.len() implies u[k] == bits[k] by {
            assert(p[k] == bits[k]);
        }
        assert(u.take(bits.len() as int) =~= bits);
    } else {
        let head = bits.take(8);
        let tail = bits.skip(8);
        lemma_unpack_pack(tail);
        lemma_pack_len(tail);
        lemma_unpack_len(pack_bits(tail));
        let p = pad8(head);
        assert(p =~= head);
        lemma_byte_bits(head);
        lemma_pack_unfold(bits);
        assert((seq![byte_of_bits(head)] + pack_bits(tail)).skip(1) =~= pack_bits(tail));
        assert((seq![byte_of_bits(head)] + pack_bits(tail))[0] == byte_of_bits(head));
        let u = unpack_bits(pack_bits(bits));
        assert(u == bits_of_byte(byte_of_bits(head)) + unpack_bits(pack_bits(tail)));
        assert(bits_of_byte(byte_of_bits(head)) =~= head);
        assert(u.take(bits.len() as int) =~= head + unpack_bits(pack_bits(tail)).take(
            tail.len() as int,
        ));
        assert(head + tail =~= bits);
    }
}

/// Builds one packed byte from 8 bit values, most significant first.
#[verifier::rlimit(30)]
fn pack_one_byte(c0: bool, c1: bool, c2: bool, c3: bool, c4: bool, c5: bool, c6: bool, c7: bool)
    -> (v: u8)
    ensures
        v == byte_of_8(seq![c0, c1, c2, c3, c4, c5, c6, c7]),
{
    let v: u8 = (if c0 {
        128u8
    } else {
        0u8
    }) + (if c1 {
        64u8
    } else {
        0u8
    }) + (if c2 {
        32u8
    } else {
        0u8
    }) + (if c3 {
        16u8
    } else {
        0u8
    }) + (if c4 {
        8u8
    } else {
        0u8
    }) + (if c5 {
        4u8
    } else {
        0u8
    }) + (if c6 {
        2u8
    } else {
        0u8
    }) + (if c7 {
        1u8
    } else {
        0u8
    });
    proof {
        let c = seq![c0, c1, c2, c3, c4, c5, c6, c7];
        assert(c[0] == c0 && c[1] == c1 && c[2] == c2 && c[3] == c3 && c[4] == c4 && c[5] == c5
            && c[6] == c6 && c[7] == c7);
        assert(bit_u8(c0) * 128 == (if c0 {
            128int
        } else {
            0int
        }));
        assert(bit_u8(c1) * 64 == (if c1 {
            64int
        } else {
            0int
        }));
        assert(bit_u8(c2) * 32 == (if c2 {
            32int
        } else {
            0int
        }));
        assert(bit_u8(c3) * 16 == (if c3 {
            16int
        } else {
            0int
        }));
        assert(bit_u8(c4) * 8 == (if c4 {
            8int
        } else {
            0int
        }));
        assert(bit_u8(c5) * 4 == (if c5 {
            4int
        } else {
            0int
        }));
        assert(bit_u8(c6) * 2 == (if c6 {
            2int
        } else {
            0int
        }));
    }
    v
}

/// Packs a bit sequence into bytes, most-significant-bit-first, padding the
/// last byte with zero bits at its low-order end.
#[verifier::rlimit(80)]
pub fn convert_bits_to_bytes(bits: &Vec<bool>) -> (bytes: Vec<u8>)
    ensures
        bytes@ == pack_bits(bits@),
{
    let n: usize = bits.len();
    let mut bytes: Vec<u8> = Vec::new();
    let mut i: usize = 0;
    proof {
        assert(bits@.skip(0) =~= bits@);
    }
    while n - i >= 8
        invariant
            i <= n,
            n == bits@.len(),
            bytes@ + pack_bits(bits@.skip(i as int)) == pack_bits(bits@),
        decreases n - i,
    {
        let v: u8 = pack_one_byte(
            bits[i],
            bits[i + 1],
            bits[i + 2],
            bits[i + 3],
            bits[i + 4],
            bits[i + 5],
            bits[i + 6],
            bits[i + 7],
        );
        proof {
            let rest = bits@.skip(i as int);
            lemma_pack_unfold(rest);
            assert(rest.take(8) =~= seq![
                bits@[i as int],
                bits@[i + 1],
                bits@[i + 2],
                bits@[i + 3],
                bits@[i + 4],
                bits@[i + 5],
                bits@[i + 6],
                bits@[i + 7],
            ]);
            assert(pad8(rest.take(8)) =~= rest.take(8));
            assert(v == byte_of_bits(rest.take(8)));
            assert(rest.skip(8) =~= bits@.skip(i + 8));
            assert((bytes@ + seq![v]) + pack_bits(bits@.skip(i + 8)) =~= bytes@ + pack_bits(
                bits@.skip(i as int),
            ));
        }
        bytes.push(v);
        i = i + 8;
    }
    if i < n {
        let r: usize = n - i;
        let v: u8 = pack_one_byte(
            bits[i],
            if r > 1 {
                bits[i + 1]
            } else {
                false
            },
            if r > 2 {
                bits[i + 2]
            } else {
                false
            },
            if r > 3 {
                bits[i + 3]
            } else {
                false
            },
            if r > 4 {
                bits[i + 4]
            } else {
                false
            },
            if r > 5 {
                bits[i + 5]
            } else {
                false
            },
            if r > 6 {
                bits[i + 6]
            } else {
                false
            },
            false,
        );
        proof {
            let rest = bits@.skip(i as int);
            assert(rest.len() == r);
            assert(pad8(rest) =~= seq![
                bits@[i as int],
                if r > 1 {
                    bits@[i + 1]
                } else {
                    false
                },
                if r > 2 {
                    bits@[i + 2]
                } else {
                    false
                },
                if r > 3 {
                    bits@[i + 3]
                } else {
                    false
                },
                if r > 4 {
                    bits@[i + 4]
                } else {
                    false
                },
                if r > 5 {
                    bits@[i + 5]
                } else {
                    false
                },
                if r > 6 {
                    bits@[i + 6]
                } else {
                    false
                },
                false,
            ]);
            assert(v == byte_of_bits(rest));
            assert(pack_bits(rest) == seq![v]);
            assert((bytes@ + seq![v]) =~= bytes@ + pack_bits(rest));
        }
        bytes.push(v);
    } else {
        proof {
            assert(bits@.skip(i as int) =~= Seq::<bool>::empty());
            assert(bytes@ + Seq::<u8>::empty() =~= bytes@);
        }
    }
    bytes
}

/// Expands a byte slice into its full bit sequence, most-significant-bit-first
/// within each byte.
pub fn convert_bytes_to_bits(bytes: &[u8]) -> (bits: Vec<bool>)
    ensures
        bits@ == unpack_bits(bytes@),
{
    let n: usize = bytes.len();
    let mut bits: Vec<bool> = Vec::new();
    let mut i: usize = 0;
    proof {
        assert(bytes@.skip(0) =~= bytes@);
    }
    while i < n
        invariant
            i <= n,
            n == bytes@.len(),
            bits@ + unpack_bits(bytes@.skip(i as int)) == unpack_bits(bytes@),
        decreases n - i,
    {
        let v: u8 = bytes[i];
        let ghost before = bits@;
        bits.push((v >> 7u8) & 1 == 1);
        bits.push((v >> 6u8) & 1 == 1);
        bits.push((v >> 5u8) & 1 == 1);
        bits.push((v >> 4u8) & 1 == 1);
        bits.push((v >> 3u8) & 1 == 1);
        bits.push((v >> 2u8) & 1 == 1);
        bits.push((v >> 1u8) & 1 == 1);
        bits.push((v >> 0u8) & 1 == 1);
        proof {
            let rest = bytes@.skip(i as int);
            assert(rest[0] == v);
            assert(bits@ =~= before + bits_of_byte(v));
            assert(rest.skip(1) =~= bytes@.skip(i + 1));
            assert(unpack_bits(rest) == bits_of_byte(v) + unpack_bits(bytes@.skip(i + 1)));
            assert(bits@ + unpack_bits(bytes@.skip(i + 1)) =~= before + unpack_bits(rest));
        }
        i = i + 1;
    }
    proof {
        assert(bytes@.skip(n as int) =~= Seq::<u8>::empty());
        assert(bits@ + Seq::<bool>::empty() =~= bits@);
    }
    bits
}

} // verus!
