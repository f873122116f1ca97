//! The container format codec: compression and decompression of a whole
//! in-memory buffer, together with the proofs that tie them together.
//!
//! A compressed container is a 4-byte little-endian header length, the
//! serialized header ({code table, original bit count}), and the packed
//! payload bits. Both directions are pinned to pure specification functions,
//! so the codec is deterministic by contract, and decoding a container that
//! encoding produced is proved to give the original bytes back.

use vstd::prelude::*;
use crate::bits::pack_bits;
use crate::bits::unpack_bits;
use crate::bits::convert_bits_to_bytes;
use crate::bits::convert_bytes_to_bits;
use crate::tree::Node;
use crate::tree::count_byte;
use crate::tree::init_ws;
use crate::tree::build_tree;
use crate::tree::build_frequency_table;
use crate::tree::build_huffman_tree;
use crate::codes::table_of_tree;
use crate::codes::blank_table;
use crate::codes::insert_codes_opt;
use crate::codes::is_prefix_of;
use crate::codes::prefix_free;
use crate::codes::new_code_table;
use crate::codes::generate_codes;
use crate::header::le_bytes;
use crate::header::le_value;
use crate::header::header_bytes;
use crate::header::parse_header;
use crate::header::pow256;
use crate::header::read_le;
use crate::header::nat_to_le;
use crate::header::serialize_header;
use crate::header::parse_header_exec;

verus! {

/// The failures of the codec.
#[derive(Clone, Copy, Debug, PartialEq, Eq, Structural)]
pub enum CodecError {
    /// Compression was asked for a zero-length buffer.
    EmptyInput,
    /// The frequency table was empty at tree-construction time.
    TreeBuildFailure,
    /// The compressed buffer is shorter than its framing requires.
    MalformedContainer,
    /// The header bytes do not deserialize into {code table, bit count}.
    CorruptHeader,
    /// Leftover bits after greedy decoding do not form a valid code.
    UnmatchedResidualBits,
}

/// Whether every byte of `d` has a code in the table.
pub open spec fn all_coded(t: Seq<Seq<bool>>, d: Seq<u8>) -> bool {
    forall|i: int| 0 <= i < d.len() ==> #[trigger] t[d[i] as int].len() > 0
}

/// The concatenation of the codes of the bytes of `d`, in order.
pub open spec fn encode_bits(t: Seq<Seq<bool>>, d: Seq<u8>) -> Seq<bool>
    decreases d.len(),
{
    if d.len() == 0 {
        Seq::empty()
    } else {
        encode_bits(t, d.drop_last()) + t[d.last() as int]
    }
}

/// The smallest byte value from `k` upward whose code is exactly `c`.
pub open spec fn match_byte(t: Seq<Seq<bool>>, c: Seq<bool>, k: int) -> Option<u8>
    decreases 256 - k,
{
    if k < 0 || k >= 256 {
        None
    } else if t[k] == c {
        Some(k as u8)
    } else {
        match_byte(t, c, k + 1)
    }
}

/// The first prefix length `>= j` of `bits` that is a code, with the byte it
/// decodes to.
pub open spec fn first_match(t: Seq<Seq<bool>>, bits: Seq<bool>, j: int) -> Option<(int, u8)>
    decreases bits.len() + 1 - j,
{
    if j < 1 || j > bits.len() {
        None
    } else {
        match match_byte(t, bits.take(j), 0) {
            Some(b) => Some((j, b)),
            None => first_match(t, bits, j + 1),
        }
    }
}

/// Greedy prefix decoding: repeatedly take the shortest prefix that is a
/// code and emit its byte; fail if the bits end inside an unmatched prefix.
pub open spec fn greedy_decode(t: Seq<Seq<bool>>, bits: Seq<bool>) -> Option<Seq<u8>>
    decreases bits.len(),
{
    if bits.len() == 0 {
        Some(Seq::empty())
    } else {
        match first_match(t, bits, 1) {
            None => None,
            Some(jb) => {
                let jj = if 1 <= jb.0 && jb.0 <= bits.len() {
                    jb.0
                } else {
                    1
                };
                match greedy_decode(t, bits.skip(jj)) {
                    None => None,
                    Some(rest) => Some(seq![jb.1] + rest),
                }
            },
        }
    }
}

/// The frequency table of a buffer, as a 256-entry sequence.
pub open spec fn freq_seq(d: Seq<u8>) -> Seq<usize> {
    Seq::new(256, |b: int| count_byte(d, b as u8) as usize)
}

/// The code table that compression derives from a buffer.
pub open spec fn spec_code_table(d: Seq<u8>) -> Seq<Seq<bool>> {
    table_of_tree(build_tree(init_ws(freq_seq(d), 256)))
}

/// What compression returns: the container bytes, or the error for the
/// inputs that are rejected.
pub open spec fn spec_compress(d: Seq<u8>) -> Result<Seq<u8>, CodecError> {
    if d.len() == 0 {
        Err(CodecError::EmptyInput)
    } else if init_ws(freq_seq(d), 256).len() == 0 {
        Err(CodecError::TreeBuildFailure)
    } else {
        let t = spec_code_table(d);
        let bits = encode_bits(t, d);
        let hdr = header_bytes(t, bits.len());
        Ok(le_bytes(hdr.len(), 4) + hdr + pack_bits(bits))
    }
}

/// What decompression returns, for every input: the decoded bytes, or the
/// error naming the first framing, header or payload fault found.
pub open spec fn spec_decompress(c: Seq<u8>) -> Result<Seq<u8>, CodecError> {
    if c.len() < 4 {
        Err(CodecError::MalformedContainer)
    } else {
        let hlen = le_value(c.subrange(0, 4)) as int;
        if c.len() < 4 + hlen {
            Err(CodecError::MalformedContainer)
        } else {
            match parse_header(c.subrange(4, 4 + hlen)) {
                None => Err(CodecError::CorruptHeader),
                Some(tc) => {
                    let all = unpack_bits(c.subrange(4 + hlen, c.len() as int));
                    let bits = all.take(
                        if tc.1 <= all.len() {
                            tc.1 as int
                        } else {
                            all.len() as int
                        },
                    );
                    match greedy_decode(tc.0, bits) {
                        Some(d) => Ok(d),
                        None => Err(CodecError::UnmatchedResidualBits),
                    }
                },
            }
        }
    }
}

/// Compares two bit strings.
fn codes_equal(a: &Vec<bool>, b: &Vec<bool>) -> (r: bool)
    ensures
        r == (a@ == b@),
{
    if a.len() != b.len() {
        return false;
    }
    let mut j: usize = 0;
    while j < a.len()
        invariant
            a@.len() == b@.len(),
            j <= a@.len(),
            forall|i: int| 0 <= i < j ==> a@[i] == b@[i],
        decreases a@.len() - j,
    {
        if a[j] != b[j] {
            return false;
        }
        j = j + 1;
    }
    proof {
        assert(a@ =~= b@);
    }
    true
}

/// Finds the smallest byte value whose code is exactly `cand`.
fn lookup_code(table: &Vec<Vec<bool>>, cand: &Vec<bool>) -> (r: Option<u8>)
    requires
        table@.len() == 256,
    ensures
        r == match_byte(table.deep_view(), cand@, 0),
{
    let ghost tdv = table.deep_view();
    let mut b: usize = 0;
    while b < 256
        invariant
            b <= 256,
            table@.len() == 256,
            tdv == table.deep_view(),
            match_byte(tdv, cand@, 0) == match_byte(tdv, cand@, b as int),
        decreases 256 - b,
    {
        proof {
            assert(tdv[b as int] == table@[b as int]@);
        }
        if codes_equal(&table[b], cand) {
            return Some(b as u8);
        }
        b = b + 1;
    }
    None
}

/// Appends `g`'s bytes, if any, after `out`.
pub open spec fn greedy_then(out: Seq<u8>, g: Option<Seq<u8>>) -> Option<Seq<u8>> {
    match g {
        None => None,
        Some(rest) => Some(out + rest),
    }
}

proof fn lemma_greedy_then_push(out: Seq<u8>, b: u8, g: Option<Seq<u8>>)
    ensures
        greedy_then(out, greedy_then(seq![b], g)) == greedy_then(out.push(b), g),
{
    match g {
        None => {},
        Some(rest) => {
            assert(out + (seq![b] + rest) =~= out.push(b) + rest);
        },
    }
}

/// Skipping match lengths that are known not to match does not change the
/// first match.
proof fn lemma_first_match_steps(t: Seq<Seq<bool>>, bits: Seq<bool>, j: int, j0: int)
    requires
        1 <= j <= j0,
        forall|j2: int| j <= j2 < j0 ==> match_byte(t, #[trigger] bits.take(j2), 0) is None,
    ensures
        first_match(t, bits, j) == first_match(t, bits, j0),
    decreases j0 - j,
{
    if j < j0 {
        if j <= bits.len() {
            assert(match_byte(t, bits.take(j), 0) is None);
        }
        lemma_first_match_steps(t, bits, j + 1, j0);
    }
}

/// What a returned match byte means: its code is `c`, and no smaller byte
/// value from `k` upward has code `c`.
proof fn lemma_match_byte_props(t: Seq<Seq<bool>>, c: Seq<bool>, k: int)
    requires
        0 <= k <= 256,
    ensures
        (match match_byte(t, c, k) {
            Some(b) => k <= b < 256 && t[b as int] == c && (forall|b2: int|
                k <= b2 < b ==> t[b2] != c),
            None => forall|b2: int| k <= b2 < 256 ==> t[b2] != c,
        }),
    decreases 256 - k,
{
    if k < 256 {
        lemma_match_byte_props(t, c, k + 1);
    }
}

/// Greedy prefix decoding, over a candidate buffer, matching the greedy
/// specification bit for bit.
fn decode_bits_greedy(table: &Vec<Vec<bool>>, bits: &Vec<bool>) -> (r: Option<Vec<u8>>)
    requires
        table@.len() == 256,
    ensures
        (match r {
            Some(v) => greedy_decode(table.deep_view(), bits@) == Some(v@),
            None => greedy_decode(table.deep_view(), bits@) is None,
        }),
{
    let ghost tdv = table.deep_view();
    let n: usize = bits.len();
    let mut out: Vec<u8> = Vec::new();
    let mut cand: Vec<bool> = Vec::new();
    let ghost mut start: int = 0;
    let mut i: usize = 0;
    proof {
        assert(bits@.skip(0) =~= bits@);
        assert(cand@ =~= bits@.subrange(0, 0));
        assert(greedy_then(out@, greedy_decode(tdv, bits@.skip(0))) == greedy_decode(tdv, bits@));
    }
    while i < n
        invariant
            table@.len() == 256,
            tdv == table.deep_view(),
            n == bits@.len(),
            0 <= start <= i <= n,
            cand@ == bits@.subrange(start, i as int),
            forall|j: int|
                1 <= j <= cand@.len() ==> match_byte(
                    tdv,
                    #[trigger] bits@.subrange(start, start + j),
                    0,
                ) is None,
            greedy_then(out@, greedy_decode(tdv, bits@.skip(start))) == greedy_decode(tdv, bits@),
        decreases n - i,
    {
        cand.push(bits[i]);
        proof {
            assert(cand@ =~= bits@.subrange(start, i + 1));
        }
        let found = lookup_code(table, &cand);
        match found {
            Some(b) => {
                proof {
                    let s = bits@.skip(start);
                    let clen = cand@.len() as int;
                    assert(s.len() == n - start);
                    assert(clen == i + 1 - start);
                    assert forall|j2: int|
                        1 <= j2 < clen implies match_byte(tdv, #[trigger] s.take(j2), 0) is None by {
                        assert(s.take(j2) =~= bits@.subrange(start, start + j2));
                    }
                    assert(s.take(clen) =~= cand@);
                    lemma_first_match_steps(tdv, s, 1, clen);
                    assert(first_match(tdv, s, clen) == Some((clen, b)));
                    assert(greedy_decode(tdv, s) == greedy_then(
                        seq![b],
                        greedy_decode(tdv, s.skip(clen)),
                    ));
                    assert(s.skip(clen) =~= bits@.skip(i + 1));
                    lemma_greedy_then_push(out@, b, greedy_decode(tdv, bits@.skip(i + 1)));
                    assert(greedy_then(out@.push(b), greedy_decode(tdv, bits@.skip(i + 1)))
                        == greedy_decode(tdv, bits@));
                }
                out.push(b);
                cand.clear();
                proof {
                    start = i + 1;
                    assert(cand@ =~= bits@.subrange(start, i + 1));
                }
            },
            None => {
                proof {
                    assert forall|j: int|
                        1 <= j <= cand@.len() implies match_byte(
                        tdv,
                        #[trigger] bits@.subrange(start, start + j),
                        0,
                    ) is None by {
                        if j == cand@.len() {
                            assert(bits@.subrange(start, start + j) =~= cand@);
                        }
                    }
                }
            },
        }
        i = i + 1;
    }
    if cand.len() == 0 {
        proof {
            assert(start == n);
            assert(bits@.skip(start) =~= Seq::<bool>::empty());
            assert(greedy_decode(tdv, bits@.skip(start)) == Some(Seq::<u8>::empty()));
            assert(out@ + Seq::<u8>::empty() =~= out@);
        }
        Some(out)
    } else {
        proof {
            let s = bits@.skip(start);
            assert(s.len() == cand@.len());
            assert forall|j2: int|
                1 <= j2 < s.len() + 1 implies match_byte(tdv, #[trigger] s.take(j2), 0) is None by {
                assert(s.take(j2) =~= bits@.subrange(start, start + j2));
            }
            lemma_first_match_steps(tdv, s, 1, s.len() as int + 1);
            assert(first_match(tdv, s, s.len() as int + 1) is None);
            assert(greedy_decode(tdv, s) is None);
        }
        None
    }
}

/// Concatenates the codes of the input bytes, in input order.
fn encode_data_bits(table: &Vec<Vec<bool>>, data: &[u8]) -> (bits: Vec<bool>)
    requires
        table@.len() == 256,
    ensures
        bits@ == encode_bits(table.deep_view(), data@),
{
    let ghost tdv = table.deep_view();
    let n: usize = data.len();
    let mut bits: Vec<bool> = Vec::new();
    let mut i: usize = 0;
    proof {
        assert(bits@ =~= encode_bits(tdv, data@.take(0)));
    }
    while i < n
        invariant
            table@.len() == 256,
            tdv == table.deep_view(),
            n == data@.len(),
            i <= n,
            bits@ == encode_bits(tdv, data@.take(i as int)),
        decreases n - i,
    {
        let b: usize = data[i] as usize;
        let code: &Vec<bool> = &table[b];
        let ghost pre = bits@;
        let mut j: usize = 0;
        while j < code.len()
            invariant
                j <= code@.len(),
                bits@ == pre + code@.take(j as int),
            decreases code@.len() - j,
        {
            proof {
                assert(code@.take(j + 1) =~= code@.take(j as int).push(code@[j as int]));
            }
            bits.push(code[j]);
            j = j + 1;
        }
        proof {
            assert(code@.take(code@.len() as int) =~= code@);
            assert(tdv[data@[i as int] as int] == code@);
            assert(data@.take(i + 1).drop_last() =~= data@.take(i as int));
            assert(data@.take(i + 1).last() == data@[i as int]);
            assert(bits@ =~= encode_bits(tdv, data@.take(i + 1)));
        }
        i = i + 1;
    }
    proof {
        assert(data@.take(n as int) =~= data@);
    }
    bits
}

/// Compresses a buffer into a self-contained container: header length,
/// header, packed payload. Rejects the empty buffer.
pub fn compress(data: &[u8]) -> (r: Result<Vec<u8>, CodecError>)
    ensures
        (match r {
            Ok(out) => spec_compress(data@) == Ok::<Seq<u8>, CodecError>(out@),
            Err(e) => spec_compress(data@) == Err::<Seq<u8>, CodecError>(e),
        }),
{
    let n: usize = data.len();
    if n == 0 {
        return Err(CodecError::EmptyInput);
    }
    let freq = build_frequency_table(data);
    proof {
        assert forall|b: int| 0 <= b < 256 implies freq@[b] == freq_seq(data@)[b] by {
            crate::tree::lemma_count_le_len(data@, b as u8);
        }
        assert(freq@ =~= freq_seq(data@));
        crate::tree::lemma_freq_table_sum(freq@, data@, 256);
        crate::tree::lemma_total_counts_all(data@);
        assert(freq@.take(256) =~= freq@);
    }
    let tree = build_huffman_tree(&freq);
    match tree {
        None => Err(CodecError::TreeBuildFailure),
        Some(root) => {
            let ghost ws = init_ws(freq_seq(data@), 256);
            let tree_opt: Option<Box<Node>> = Some(root);
            let mut codes = new_code_table();
            proof {
                assert(codes@.len() == codes.deep_view().len());
            }
            generate_codes(&tree_opt, Vec::new(), &mut codes);
            proof {
                assert(codes.deep_view() == insert_codes_opt(
                    blank_table(),
                    tree_opt,
                    Seq::<bool>::empty(),
                ));
                assert(codes.deep_view() == spec_code_table(data@));
                lemma_spec_table_props(data@);
                assert(codes@.len() == codes.deep_view().len());
                assert forall|bb: int| 0 <= bb < 256 implies (#[trigger] codes@[bb])@.len()
                    <= 255 by {
                    assert(codes.deep_view()[bb] == codes@[bb]@);
                }
            }
            let bits = encode_data_bits(&codes, data);
            let mut hdr = serialize_header(&codes, bits.len() as u64);
            proof {
                crate::header::lemma_entries_bytes_len(spec_code_table(data@), 0);
                crate::header::lemma_le_bytes_len(bits@.len() as nat, 8);
                crate::header::lemma_pow256_8();
                assert(hdr@.len() <= 8 + 256 * 256);
            }
            let mut out = nat_to_le(hdr.len() as u64, 4);
            let ghost hdr_snap = hdr@;
            out.append(&mut hdr);
            let mut packed = convert_bits_to_bytes(&bits);
            let ghost packed_snap = packed@;
            out.append(&mut packed);
            proof {
                let t = spec_code_table(data@);
                let sbits = encode_bits(t, data@);
                let shdr = header_bytes(t, sbits.len());
                assert(hdr_snap == shdr);
                assert(out@ =~= le_bytes(shdr.len(), 4) + shdr + pack_bits(sbits));
            }
            Ok(out)
        },
    }
}

/// Decompresses a container produced by `compress`; on any malformed input
/// it returns the error naming the first fault found, and never panics.
pub fn decompress(data: &[u8]) -> (r: Result<Vec<u8>, CodecError>)
    ensures
        (match r {
            Ok(out) => spec_decompress(data@) == Ok::<Seq<u8>, CodecError>(out@),
            Err(e) => spec_decompress(data@) == Err::<Seq<u8>, CodecError>(e),
        }),
{
    let n: usize = data.len();
    if n < 4 {
        return Err(CodecError::MalformedContainer);
    }
    let hlen64: u64 = read_le(data, 0, 4);
    proof {
        assert(data@.subrange(0int, 0int + 4int) =~= data@.subrange(0, 4));
        crate::header::lemma_pow256_8();
    }
    if (n as u64) < 4u64 + hlen64 {
        return Err(CodecError::MalformedContainer);
    }
    let hlen: usize = hlen64 as usize;
    let header_slice: &[u8] = &data[4..4 + hlen];
    match parse_header_exec(header_slice) {
        None => Err(CodecError::CorruptHeader),
        Some(tc) => {
            let (tbl, count) = tc;
            let payload: &[u8] = &data[4 + hlen..n];
            let mut all_bits = convert_bytes_to_bits(payload);
            let ghost all = unpack_bits(data@.subrange(4 + hlen as int, n as int));
            if count < all_bits.len() as u64 {
                all_bits.truncate(count as usize);
                proof {
                    assert(all_bits@ =~= all.take(count as int));
                }
            } else {
                proof {
                    assert(all_bits@ =~= all.take(all.len() as int));
                }
            }
            match decode_bits_greedy(&tbl, &all_bits) {
                Some(v) => Ok(v),
                None => Err(CodecError::UnmatchedResidualBits),
            }
        },
    }
}

/// The code table compression derives from a nonempty buffer: 256 entries,
/// a nonempty code exactly for the bytes that occur, every code at most 255
/// bits, and no code a prefix of another.
pub proof fn lemma_spec_table_props(d: Seq<u8>)
    requires
        d.len() > 0,
        d.len() <= usize::MAX,
    ensures
        init_ws(freq_seq(d), 256).len() > 0,
        spec_code_table(d).len() == 256,
        forall|b: u8|
            (#[trigger] spec_code_table(d)[b as int].len() > 0) == (count_byte(d, b) > 0),
        forall|b: u8|
            count_byte(d, b) > 0 ==> 1 <= #[trigger] spec_code_table(d)[b as int].len() <= 255,
        prefix_free(spec_code_table(d)),
        all_coded(spec_code_table(d), d),
{
    let f = freq_seq(d);
    let ws = init_ws(f, 256);
    assert forall|b: int| 0 <= b < 256 implies (#[trigger] f[b] > 0) == (count_byte(d, b as u8)
        > 0) by {
        crate::tree::lemma_count_le_len(d, b as u8);
    }
    crate::tree::lemma_count_pos(d, d[0]);
    assert(d[0] == d[0] && 0 <= 0 < d.len());
    assert(count_byte(d, d[0]) > 0);
    assert(f[d[0] as int] > 0);
    crate::tree::lemma_init_ws_props(f, 256);
    assert(f[d[0] as int] > 0);
    assert(ws.len() > 0);
    let root = build_tree(ws);
    crate::tree::lemma_build_tree_props(ws);
    assert(root.leaf_count() == crate::tree::sum_leaf_counts(ws));
    assert(root.leaf_count() <= 256);
    crate::codes::lemma_code_table_props(root);
    assert forall|b: u8| (#[trigger] spec_code_table(d)[b as int].len() > 0) == (count_byte(d, b)
        > 0) by {
        crate::tree::lemma_init_ws_has(f, 256, b);
        assert(root.has_leaf(b) == crate::tree::ws_has(ws, b));
        crate::tree::lemma_count_le_len(d, b);
    }
    assert forall|i: int| 0 <= i < d.len() implies #[trigger] spec_code_table(d)[d[i] as int].len()
        > 0 by {
        crate::tree::lemma_count_pos(d, d[i]);
        assert(0 <= i < d.len() && d[i] == d[i]);
    }
}

/// The concatenated encoding is at most 255 bits per input byte.
proof fn lemma_encode_len_bound(t: Seq<Seq<bool>>, d: Seq<u8>)
    requires
        forall|i: int| 0 <= i < d.len() ==> #[trigger] t[d[i] as int].len() <= 255,
    ensures
        encode_bits(t, d).len() <= 255 * d.len(),
    decreases d.len(),
{
    if d.len() > 0 {
        assert(forall|i: int|
            0 <= i < d.drop_last().len() ==> #[trigger] t[d.drop_last()[i] as int].len() <= 255);
        lemma_encode_len_bound(t, d.drop_last());
        assert(t[d.last() as int].len() <= 255);
    }
}

/// The encoding of a nonempty buffer starts with the code of its first byte.
proof fn lemma_encode_front(t: Seq<Seq<bool>>, d: Seq<u8>)
    requires
        d.len() > 0,
    ensures
        encode_bits(t, d) == t[d[0] as int] + encode_bits(t, d.skip(1)),
    decreases d.len(),
{
    if d.len() == 1 {
        assert(d.drop_last().len() == 0);
        assert(d.skip(1).len() == 0);
        assert(encode_bits(t, d) == encode_bits(t, d.drop_last()) + t[d.last() as int]);
        assert(Seq::<bool>::empty() + t[d[0] as int] =~= t[d[0] as int] + Seq::<bool>::empty());
        assert(encode_bits(t, d.skip(1)) == Seq::<bool>::empty());
    } else {
        let ddl = d.drop_last();
        lemma_encode_front(t, ddl);
        assert(d.skip(1).drop_last() =~= ddl.skip(1));
        assert(d.skip(1).last() == d.last());
        assert(d.skip(1).len() > 0);
        assert(encode_bits(t, d.skip(1)) == encode_bits(t, ddl.skip(1)) + t[d.last() as int]);
        assert(ddl[0] == d[0]);
        assert((t[d[0] as int] + encode_bits(t, ddl.skip(1))) + t[d.last() as int] =~= t[d[0] as int]
            + (encode_bits(t, ddl.skip(1)) + t[d.last() as int]));
    }
}

/// Greedy decoding of a concatenation of codes of a prefix-free table gives
/// the encoded bytes back.
proof fn lemma_greedy_round_trip(t: Seq<Seq<bool>>, d: Seq<u8>)
    requires
        t.len() == 256,
        prefix_free(t),
        all_coded(t, d),
    ensures
        greedy_decode(t, encode_bits(t, d)) == Some(d),
    decreases d.len(),
{
    let bits = encode_bits(t, d);
    if d.len() == 0 {
        assert(bits.len() == 0);
        assert(Seq::<u8>::empty() =~= d);
    } else {
        let b0 = d[0];
        assert(t[d[0] as int].len() > 0);
        let c = t[b0 as int];
        let rest = encode_bits(t, d.skip(1));
        lemma_encode_front(t, d);
        assert(bits == c + rest);
        let clen = c.len() as int;
        assert forall|j2: int|
            1 <= j2 < clen implies match_byte(t, #[trigger] bits.take(j2), 0) is None by {
            lemma_match_byte_props(t, bits.take(j2), 0);
            assert(bits.take(j2) =~= c.take(j2));
            match match_byte(t, bits.take(j2), 0) {
                Some(b) => {
                    assert(t[b as int] == c.take(j2));
                    assert(t[b as int].len() == j2 > 0);
                    if b == b0 {
                        assert(false);
                    } else {
                        assert(c.take(t[b as int].len() as int) == t[b as int]);
                        assert(is_prefix_of(t[b as int], t[b0 as int]));
                        assert(false);
                    }
                },
                None => {},
            }
        }
        assert(match_byte(t, bits.take(clen), 0) == Some(b0)) by {
            assert(bits.take(clen) =~= c);
            lemma_match_byte_props(t, c, 0);
            match match_byte(t, c, 0) {
                Some(b) => {
                    if b != b0 {
                        assert(t[b as int] == c);
                        assert(c.take(c.len() as int) =~= c);
                        assert(is_prefix_of(t[b as int], t[b0 as int]));
                        assert(false);
                    }
                },
                None => {
                    assert(t[b0 as int] == c);
                    assert(false);
                },
            }
        }
        lemma_first_match_steps(t, bits, 1, clen);
        assert(first_match(t, bits, 1) == Some((clen, b0)));
        assert(forall|i: int|
            0 <= i < d.skip(1).len() ==> #[trigger] t[d.skip(1)[i] as int].len() > 0);
        lemma_greedy_round_trip(t, d.skip(1));
        assert(bits.skip(clen) =~= rest);
        assert(greedy_decode(t, bits) == Some(seq![b0] + d.skip(1)));
        assert(seq![b0] + d.skip(1) =~= d);
    }
}

/// Round trip: decompressing a compressed nonempty buffer gives the buffer
/// back, bit for bit. The two bounds are machine limits: the buffer must fit
/// in memory and its encoded bit count in the header's 8-byte field.
pub proof fn lemma_round_trip(d: Seq<u8>)
    requires
        d.len() > 0,
        d.len() <= usize::MAX,
        255 * d.len() < pow256(8),
    ensures
        (match spec_compress(d) {
            Ok(c) => spec_decompress(c) == Ok::<Seq<u8>, CodecError>(d),
            Err(_) => false,
        }),
{
    lemma_spec_table_props(d);
    let t = spec_code_table(d);
    assert forall|i: int| 0 <= i < d.len() implies #[trigger] t[d[i] as int].len() <= 255 by {
        crate::tree::lemma_count_pos(d, d[i]);
        assert(0 <= i < d.len() && d[i] == d[i]);
    }
    lemma_encode_len_bound(t, d);
    lemma_round_trip_core(d);
}

/// The round-trip core, under the exact bound: the encoded bit count fits
/// the header's 8-byte field.
proof fn lemma_round_trip_core(d: Seq<u8>)
    requires
        d.len() > 0,
        d.len() <= usize::MAX,
        encode_bits(spec_code_table(d), d).len() < pow256(8),
    ensures
        (match spec_compress(d) {
            Ok(c) => spec_decompress(c) == Ok::<Seq<u8>, CodecError>(d),
            Err(_) => false,
        }),
{
    lemma_spec_table_props(d);
    let t = spec_code_table(d);
    let bits = encode_bits(t, d);
    let hdr = header_bytes(t, bits.len());
    let c = le_bytes(hdr.len(), 4) + hdr + pack_bits(bits);
    assert(spec_compress(d) == Ok::<Seq<u8>, CodecError>(c));
    assert forall|i: int| 0 <= i < d.len() implies #[trigger] t[d[i] as int].len() <= 255 by {
        crate::tree::lemma_count_pos(d, d[i]);
        assert(0 <= i < d.len() && d[i] == d[i]);
    }
    assert(bits.len() < pow256(8));
    crate::header::lemma_le_bytes_len(hdr.len(), 4);
    crate::header::lemma_le_bytes_len(bits.len(), 8);
    crate::header::lemma_entries_bytes_len(t, 0);
    crate::header::lemma_pow256_8();
    assert(hdr.len() <= 8 + 256 * 256);
    assert(hdr.len() < pow256(4));
    assert(c.len() == 4 + hdr.len() + pack_bits(bits).len());
    assert(c.subrange(0, 4) =~= le_bytes(hdr.len(), 4));
    crate::header::lemma_le_round_trip(hdr.len(), 4);
    let hlen = hdr.len() as int;
    assert(le_value(c.subrange(0, 4)) == hdr.len());
    assert(c.len() >= 4 + hlen);
    assert(c.subrange(4, 4 + hlen) =~= hdr);
    crate::header::lemma_header_round_trip(t, bits.len());
    assert(parse_header(c.subrange(4, 4 + hlen)) == Some((t, bits.len())));
    assert(c.subrange(4 + hlen, c.len() as int) =~= pack_bits(bits));
    crate::bits::lemma_unpack_pack(bits);
    let all = unpack_bits(pack_bits(bits));
    assert(bits.len() <= all.len());
    assert(all.take(bits.len() as int) == bits);
    lemma_greedy_round_trip(t, d);
    assert(spec_decompress(c) == Ok::<Seq<u8>, CodecError>(d));
}

/// Determinism: compression is a pure function of the input buffer, so two
/// results for the same buffer are identical containers (and so identical
/// code tables and packed payloads).
pub proof fn lemma_compress_deterministic(
    d: Seq<u8>,
    r1: Result<Seq<u8>, CodecError>,
    r2: Result<Seq<u8>, CodecError>,
)
    requires
        r1 == spec_compress(d),
        r2 == spec_compress(d),
    ensures
        r1 == r2,
{
}

/// Compressing an empty buffer is rejected before any tree work begins.
pub proof fn lemma_empty_input(d: Seq<u8>)
    requires
        d.len() == 0,
    ensures
        spec_compress(d) == Err::<Seq<u8>, CodecError>(CodecError::EmptyInput),
{
}

/// The concatenated encoding of bytes whose codes are all one bit long is
/// one bit per byte.
proof fn lemma_encode_len_ones(t: Seq<Seq<bool>>, d: Seq<u8>)
    requires
        forall|i: int| 0 <= i < d.len() ==> #[trigger] t[d[i] as int].len() == 1,
    ensures
        encode_bits(t, d).len() == d.len(),
    decreases d.len(),
{
    if d.len() > 0 {
        assert(forall|i: int|
            0 <= i < d.drop_last().len() ==> #[trigger] t[d.drop_last()[i] as int].len() == 1);
        lemma_encode_len_ones(t, d.drop_last());
        assert(t[d.last() as int].len() == 1);
    }
}

/// A buffer holding one repeated byte value gets a one-bit code for it, and
/// the round trip reproduces the buffer exactly.
pub proof fn lemma_single_symbol(d: Seq<u8>)
    requires
        d.len() > 0,
        d.len() <= usize::MAX,
        forall|i: int| 0 <= i < d.len() ==> #[trigger] d[i] == d[0],
    ensures
        spec_code_table(d)[d[0] as int].len() == 1,
        (match spec_compress(d) {
            Ok(c) => spec_decompress(c) == Ok::<Seq<u8>, CodecError>(d),
            Err(_) => false,
        }),
{
    let f = freq_seq(d);
    let b0 = d[0];
    crate::tree::lemma_count_pos(d, b0);
    assert(0 <= 0 < d.len() && d[0] == b0);
    crate::tree::lemma_count_le_len(d, b0);
    assert(f[b0 as int] > 0);
    assert forall|b: int| 0 <= b < 256 && b != b0 as int implies f[b] == 0 by {
        crate::tree::lemma_count_pos(d, b as u8);
        crate::tree::lemma_count_le_len(d, b as u8);
        if count_byte(d, b as u8) > 0 {
            let i = choose|i: int| 0 <= i < d.len() && d[i] == b as u8;
            assert(d[i] == d[0]);
            assert(false);
        }
    }
    lemma_init_ws_single(f, 256, b0 as int);
    let ws = init_ws(f, 256);
    assert(ws == seq![crate::tree::leaf_node(f[b0 as int], b0)]);
    assert(ws.len() == 1);
    let root = build_tree(ws);
    assert(root == ws[0]);
    assert(root == crate::tree::leaf_node(f[b0 as int], b0));
    assert(spec_code_table(d) == blank_table().update(b0 as int, seq![false]));
    assert(spec_code_table(d)[b0 as int] == seq![false]);
    let t = spec_code_table(d);
    assert forall|i: int| 0 <= i < d.len() implies #[trigger] t[d[i] as int].len() == 1 by {
        assert(d[i] == b0);
    }
    lemma_encode_len_ones(t, d);
    crate::header::lemma_pow256_8();
    assert(usize::MAX <= 0xffff_ffff_ffff_ffff);
    assert(encode_bits(t, d).len() < pow256(8));
    lemma_round_trip_core(d);
}

/// The initial worklist of a table with exactly one nonzero entry is that
/// single leaf.
proof fn lemma_init_ws_single(f: Seq<usize>, k: int, b0: int)
    requires
        f.len() == 256,
        0 <= b0 < 256,
        0 <= k <= 256,
        f[b0] > 0,
        forall|b: int| 0 <= b < 256 && b != b0 ==> f[b] == 0,
    ensures
        init_ws(f, k) == if b0 < k {
            seq![crate::tree::leaf_node(f[b0], b0 as u8)]
        } else {
            Seq::<Node>::empty()
        },
    decreases k,
{
    if k > 0 {
        lemma_init_ws_single(f, k - 1, b0);
        if k - 1 == b0 {
            assert(init_ws(f, k) =~= seq![crate::tree::leaf_node(f[b0], b0 as u8)]);
        } else {
            assert(f[k - 1] == 0);
            assert(init_ws(f, k) =~= init_ws(f, k - 1));
        }
    }
}

/// Bit-count accounting: the packed payload has at most 7 padding bits.
pub proof fn lemma_bit_count_accounting(bits: Seq<bool>)
    ensures
        bits.len() <= 8 * pack_bits(bits).len(),
        8 * pack_bits(bits).len() - bits.len() < 8,
{
    crate::bits::lemma_pack_len(bits);
    crate::bits::lemma_unpack_pack(bits);
    assert(pack_bits(bits).len() == (bits.len() + 7) / 8);
    assert(8 * ((bits.len() + 7) / 8) < bits.len() + 8) by (nonlinear_arith);
}

} // verus!
