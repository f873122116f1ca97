//! The container header: little-endian integers and the serialized form of
//! {code table, original bit count}.
//!
//! Layout: 8 bytes little-endian original bit count, then, for each byte
//! value 0..=255 in order, one length byte followed by that many code bytes,
//! each 0 or 1. A length byte of 0 means the byte value has no code.

use vstd::prelude::*;
use crate::codes::blank_table;

verus! {

/// 256 to the power `k`.
pub open spec fn pow256(k: nat) -> nat
    decreases k,
{
    if k == 0 {
        1
    } else {
        256 * pow256((k - 1) as nat)
    }
}

pub proof fn lemma_pow256_pos(k: nat)
    ensures
        pow256(k) >= 1,
    decreases k,
{
    if k > 0 {
        lemma_pow256_pos((k - 1) as nat);
    }
}

pub proof fn lemma_pow256_le(a: nat, b: nat)
    requires
        a <= b,
    ensures
        pow256(a) <= pow256(b),
    decreases b,
{
    lemma_pow256_pos(a);
    if a < b {
        lemma_pow256_le(a, (b - 1) as nat);
    }
}

pub proof fn lemma_pow256_8()
    ensures
        pow256(8) == 0x1_0000_0000_0000_0000,
        pow256(4) == 0x1_0000_0000,
{
    assert(pow256(0) == 1);
    assert(pow256(1) == 256);
    assert(pow256(2) == 0x1_0000);
    assert(pow256(3) == 0x100_0000);
    assert(pow256(4) == 0x1_0000_0000);
    assert(pow256(5) == 0x100_0000_0000);
    assert(pow256(6) == 0x1_0000_0000_0000);
    assert(pow256(7) == 0x100_0000_0000_0000);
    assert(pow256(8) == 0x1_0000_0000_0000_0000);
}

/// The `k` little-endian bytes of `n`.
pub open spec fn le_bytes(n: nat, k: nat) -> Seq<u8>
    decreases k,
{
    if k == 0 {
        Seq::empty()
    } else {
        seq![(n % 256) as u8] + le_bytes(n / 256, (k - 1) as nat)
    }
}

/// The number encoded by a little-endian byte sequence.
pub open spec fn le_value(s: Seq<u8>) -> nat
    decreases s.len(),
{
    if s.len() == 0 {
        0
    } else {
        s[0] as nat + 256 * le_value(s.skip(1))
    }
}

pub proof fn lemma_le_bytes_len(n: nat, k: nat)
    ensures
        le_bytes(n, k).len() == k,
    decreases k,
{
    if k > 0 {
        lemma_le_bytes_len(n / 256, (k - 1) as nat);
    }
}

/// Reading back the little-endian bytes of a number below 256^k gives the
/// number.
pub proof fn lemma_le_round_trip(n: nat, k: nat)
    requires
        n < pow256(k),
    ensures
        le_value(le_bytes(n, k)) == n,
    decreases k,
{
    if k > 0 {
        let rest = le_bytes(n / 256, (k - 1) as nat);
        assert(le_bytes(n, k).skip(1) =~= rest);
        assert(le_bytes(n, k)[0] == (n % 256) as u8);
        assert(n / 256 < pow256((k - 1) as nat)) by (nonlinear_arith)
            requires
                n < 256 * pow256((k - 1) as nat),
        ;
        lemma_le_round_trip(n / 256, (k - 1) as nat);
        assert(n % 256 + 256 * (n / 256) == n) by (nonlinear_arith);
    }
}

/// Writes the `k` little-endian bytes of `x`.
pub fn nat_to_le(x: u64, k: usize) -> (r: Vec<u8>)
    ensures
        r@ == le_bytes(x as nat, k as nat),
        r@.len() == k,
{
    let mut r: Vec<u8> = Vec::new();
    let mut cur: u64 = x;
    let mut j: usize = 0;
    while j < k
        invariant
            j <= k,
            r@.len() == j,
            le_bytes(x as nat, k as nat) == r@ + le_bytes(cur as nat, (k - j) as nat),
        decreases k - j,
    {
        proof {
            assert(le_bytes(cur as nat, (k - j) as nat) == seq![(cur as nat % 256) as u8]
                + le_bytes(cur as nat / 256, (k - j - 1) as nat));
            assert((r@ + seq![(cur % 256) as u8]) + le_bytes(cur as nat / 256, (k - j - 1) as nat)
                =~= r@ + le_bytes(cur as nat, (k - j) as nat));
        }
        r.push((cur % 256) as u8);
        cur = cur / 256;
        j = j + 1;
    }
    proof {
        assert(le_bytes(cur as nat, 0) =~= Seq::<u8>::empty());
        assert(r@ + Seq::<u8>::empty() =~= r@);
        lemma_le_bytes_len(x as nat, k as nat);
    }
    r
}

/// Reads `k <= 8` little-endian bytes starting at `start`.
pub fn read_le(data: &[u8], start: usize, k: usize) -> (x: u64)
    requires
        k <= 8,
        start + k <= data@.len(),
    ensures
        x as nat == le_value(data@.subrange(start as int, start as int + k as int)),
        x < pow256(k as nat),
{
    let n: usize = data.len();
    let mut acc: u64 = 0;
    let mut j: usize = k;
    proof {
        assert(data@.subrange(start + k, start + k) =~= Seq::<u8>::empty());
        lemma_pow256_pos(0);
    }
    while j > 0
        invariant
            j <= k <= 8,
            n == data@.len(),
            start + k <= n,
            acc as nat == le_value(data@.subrange(start + j, start + k as int)),
            (acc as nat) < pow256((k - j) as nat),
        decreases j,
    {
        j = j - 1;
        let b: u8 = data[start + j];
        proof {
            lemma_pow256_8();
            lemma_pow256_le(((k - j) as nat - 1) as nat, 7);
            let s = data@.subrange(start + j, start + k as int);
            assert(s[0] == data@[start + j]);
            assert(s.skip(1) =~= data@.subrange(start + j + 1, start + k as int));
        }
        acc = b as u64 + 256 * acc;
    }
    proof {
        lemma_pow256_le((k - j) as nat, k as nat);
    }
    acc
}

/// The bytes of one code: one byte per bit, 1 for a set bit.
pub open spec fn code_bytes(c: Seq<bool>) -> Seq<u8> {
    Seq::new(
        c.len(),
        |i: int|
            if c[i] {
                1u8
            } else {
                0u8
            },
    )
}

/// The bits read back from one byte per bit.
pub open spec fn bits_of_01(s: Seq<u8>) -> Seq<bool> {
    Seq::new(s.len(), |i: int| s[i] == 1)
}

/// The serialized entry of one byte value: length byte, then the code bytes.
pub open spec fn entry_bytes(t: Seq<Seq<bool>>, b: int) -> Seq<u8> {
    seq![t[b].len() as u8] + code_bytes(t[b])
}

/// The serialized entries of the byte values from `b` upward.
pub open spec fn entries_bytes(t: Seq<Seq<bool>>, b: int) -> Seq<u8>
    decreases 256 - b,
{
    if b >= 256 {
        Seq::empty()
    } else {
        entry_bytes(t, b) + entries_bytes(t, b + 1)
    }
}

/// The serialized header: bit count, then all 256 entries.
pub open spec fn header_bytes(t: Seq<Seq<bool>>, count: nat) -> Seq<u8> {
    le_bytes(count, 8) + entries_bytes(t, 0)
}

/// Parses entries from position `pos` for the byte values from `b` upward,
/// accumulating into `acc`; yields the final table and end position.
pub open spec fn parse_entries(h: Seq<u8>, pos: int, b: int, acc: Seq<Seq<bool>>) -> Option<
    (Seq<Seq<bool>>, int),
>
    decreases 256 - b,
{
    if b >= 256 {
        Some((acc, pos))
    } else if pos < 0 || pos >= h.len() {
        None
    } else {
        let l = h[pos] as int;
        if pos + 1 + l > h.len() {
            None
        } else {
            parse_entries(
                h,
                pos + 1 + l,
                b + 1,
                acc.update(b, bits_of_01(h.subrange(pos + 1, pos + 1 + l))),
            )
        }
    }
}

/// Parses a whole header buffer into {code table, original bit count}.
pub open spec fn parse_header(h: Seq<u8>) -> Option<(Seq<Seq<bool>>, nat)> {
    if h.len() < 8 {
        None
    } else {
        match parse_entries(h, 8, 0, blank_table()) {
            None => None,
            Some((t, pos)) => if pos == h.len() {
                Some((t, le_value(h.subrange(0, 8))))
            } else {
                None
            },
        }
    }
}

/// `acc` with the entries from `b` upward replaced by those of `t`.
pub open spec fn splice(acc: Seq<Seq<bool>>, t: Seq<Seq<bool>>, b: int) -> Seq<Seq<bool>> {
    Seq::new(
        256,
        |i: int|
            if i < b {
                acc[i]
            } else {
                t[i]
            },
    )
}

/// The serialized entries occupy at most 256 bytes per byte value.
pub proof fn lemma_entries_bytes_len(t: Seq<Seq<bool>>, b: int)
    requires
        0 <= b <= 256,
        forall|bb: int| b <= bb < 256 ==> #[trigger] t[bb].len() <= 255,
    ensures
        entries_bytes(t, b).len() <= (256 - b) * 256,
    decreases 256 - b,
{
    if b < 256 {
        lemma_entries_bytes_len(t, b + 1);
    }
}

/// Parsing the serialized entries recovers them exactly and consumes the
/// whole buffer.
proof fn lemma_parse_entries_round_trip(
    h: Seq<u8>,
    pos: int,
    b: int,
    acc: Seq<Seq<bool>>,
    t: Seq<Seq<bool>>,
)
    requires
        acc.len() == 256,
        t.len() == 256,
        0 <= b <= 256,
        0 <= pos <= h.len(),
        h.subrange(pos, h.len() as int) == entries_bytes(t, b),
        forall|bb: int| b <= bb < 256 ==> #[trigger] t[bb].len() <= 255,
    ensures
        parse_entries(h, pos, b, acc) == Some((splice(acc, t, b), h.len() as int)),
    decreases 256 - b,
{
    let suffix = h.subrange(pos, h.len() as int);
    if b >= 256 {
        assert(suffix.len() == 0);
        assert(pos == h.len());
        assert(splice(acc, t, b) =~= acc);
    } else {
        let e = entry_bytes(t, b);
        let l = t[b].len() as int;
        assert(t[b].len() <= 255);
        assert(entries_bytes(t, b) == e + entries_bytes(t, b + 1));
        assert(e.len() == 1 + l);
        assert(suffix.len() == h.len() - pos);
        assert(suffix.len() == e.len() + entries_bytes(t, b + 1).len());
        assert(pos < h.len());
        assert(suffix[0] == e[0]);
        assert(e[0] == t[b].len() as u8);
        assert(h[pos] == suffix[0]);
        assert(h[pos] as int == l);
        assert(pos + 1 + l <= h.len());
        let codeslice = h.subrange(pos + 1, pos + 1 + l);
        assert(codeslice =~= code_bytes(t[b])) by {
            assert forall|i: int| 0 <= i < l implies codeslice[i] == code_bytes(t[b])[i] by {
                assert(codeslice[i] == suffix[1 + i]);
                assert(suffix[1 + i] == e[1 + i]);
            }
        }
        assert(bits_of_01(codeslice) =~= t[b]);
        let acc2 = acc.update(b, t[b]);
        assert(h.subrange(pos + 1 + l, h.len() as int) =~= entries_bytes(t, b + 1)) by {
            assert forall|i: int|
                0 <= i < h.len() - pos - 1 - l implies #[trigger] h.subrange(
                pos + 1 + l,
                h.len() as int,
            )[i] == entries_bytes(t, b + 1)[i] by {
                assert(h.subrange(pos + 1 + l, h.len() as int)[i] == suffix[1 + l + i]);
                assert(suffix[1 + l + i] == entries_bytes(t, b)[1 + l + i]);
            }
        }
        lemma_parse_entries_round_trip(h, pos + 1 + l, b + 1, acc2, t);
        assert(splice(acc2, t, b + 1) =~= splice(acc, t, b));
    }
}

/// Parsing a serialized header recovers the code table and bit count.
pub proof fn lemma_header_round_trip(t: Seq<Seq<bool>>, count: nat)
    requires
        t.len() == 256,
        count < pow256(8),
        forall|bb: int| 0 <= bb < 256 ==> #[trigger] t[bb].len() <= 255,
    ensures
        parse_header(header_bytes(t, count)) == Some((t, count)),
{
    let h = header_bytes(t, count);
    lemma_le_bytes_len(count, 8);
    assert(h.len() >= 8);
    assert(h.subrange(0, 8) =~= le_bytes(count, 8));
    lemma_le_round_trip(count, 8);
    assert(h.subrange(8, h.len() as int) =~= entries_bytes(t, 0));
    lemma_parse_entries_round_trip(h, 8, 0, blank_table(), t);
    assert(splice(blank_table(), t, 0) =~= t);
}

/// Serializes {code table, original bit count} into header bytes.
pub fn serialize_header(codes: &Vec<Vec<bool>>, count: u64) -> (h: Vec<u8>)
    requires
        codes@.len() == 256,
        forall|bb: int| 0 <= bb < 256 ==> (#[trigger] codes@[bb])@.len() <= 255,
    ensures
        h@ == header_bytes(codes.deep_view(), count as nat),
{
    let ghost dv = codes.deep_view();
    proof {
        assert(forall|bb: int| 0 <= bb < 256 ==> #[trigger] dv[bb].len() <= 255);
    }
    let mut h: Vec<u8> = nat_to_le(count, 8);
    let mut b: usize = 0;
    while b < 256
        invariant
            b <= 256,
            codes@.len() == 256,
            dv == codes.deep_view(),
            forall|bb: int| 0 <= bb < 256 ==> #[trigger] dv[bb].len() <= 255,
            h@ + entries_bytes(dv, b as int) == header_bytes(dv, count as nat),
        decreases 256 - b,
    {
        let ghost hpre = h@;
        let code: &Vec<bool> = &codes[b];
        proof {
            assert(dv[b as int] == code@);
        }
        h.push(code.len() as u8);
        let mut j: usize = 0;
        while j < code.len()
            invariant
                j <= code@.len(),
                h@ == hpre + seq![code@.len() as u8] + code_bytes(code@).take(j as int),
            decreases code@.len() - j,
        {
            proof {
                assert(code_bytes(code@).take(j + 1) =~= code_bytes(code@).take(j as int).push(
                    if code@[j as int] {
                        1u8
                    } else {
                        0u8
                    },
                ));
            }
            if code[j] {
                h.push(1);
            } else {
                h.push(0);
            }
            j = j + 1;
        }
        proof {
            assert(code_bytes(code@).take(code@.len() as int) =~= code_bytes(code@));
            assert(h@ =~= hpre + entry_bytes(dv, b as int));
            assert(entries_bytes(dv, b as int) == entry_bytes(dv, b as int) + entries_bytes(
                dv,
                b as int + 1,
            ));
            assert(h@ + entries_bytes(dv, b as int + 1) =~= hpre + entries_bytes(dv, b as int));
        }
        b = b + 1;
    }
    proof {
        assert(entries_bytes(dv, 256) =~= Seq::<u8>::empty());
        assert(h@ + Seq::<u8>::empty() =~= h@);
    }
    h
}

/// Parses header bytes into {code table, original bit count}, or reports that
/// they are malformed.
pub fn parse_header_exec(h: &[u8]) -> (r: Option<(Vec<Vec<bool>>, u64)>)
    ensures
        (match r {
            None => parse_header(h@) is None,
            Some(p) => parse_header(h@) == Some((p.0.deep_view(), p.1 as nat)) && p.0@.len()
                == 256,
        }),
{
    if h.len() < 8 {
        return None;
    }
    let n: usize = h.len();
    let count: u64 = read_le(h, 0, 8);
    let mut tbl: Vec<Vec<bool>> = crate::codes::new_code_table();
    proof {
        assert(tbl.deep_view().len() == tbl@.len());
        assert(tbl@.len() == 256);
    }
    let mut pos: usize = 8;
    let mut b: usize = 0;
    while b < 256
        invariant
            b <= 256,
            n == h@.len(),
            8 <= pos <= n,
            tbl@.len() == 256,
            parse_entries(h@, 8, 0, blank_table()) == parse_entries(
                h@,
                pos as int,
                b as int,
                tbl.deep_view(),
            ),
        decreases 256 - b,
    {
        if pos >= h.len() {
            return None;
        }
        let l: usize = h[pos] as usize;
        if l > h.len() - pos - 1 {
            return None;
        }
        let ghost dvpre = tbl.deep_view();
        let mut code: Vec<bool> = Vec::new();
        let mut j: usize = 0;
        while j < l
            invariant
                j <= l,
                n == h@.len(),
                pos + 1 + l <= n,
                code@.len() == j,
                forall|i: int| 0 <= i < j ==> code@[i] == (h@[pos + 1 + i] == 1),
            decreases l - j,
        {
            code.push(h[pos + 1 + j] == 1);
            j = j + 1;
        }
        proof {
            assert(code@ =~= bits_of_01(h@.subrange(pos + 1, pos + 1 + l)));
        }
        tbl[b] = code;
        proof {
            assert(tbl.deep_view() =~~= dvpre.update(
                b as int,
                bits_of_01(h@.subrange(pos + 1, pos + 1 + l)),
            ));
        }
        pos = pos + 1 + l;
        b = b + 1;
    }
    if pos == h.len() {
        proof {
            assert(h@.subrange(0, 8) =~= h@.subrange(0int, 0int + 8int));
        }
        Some((tbl, count))
    } else {
        None
    }
}

} // verus!
