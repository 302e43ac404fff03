use vstd::prelude::*;
use vstd::multiset::Multiset;
use crate::bits::{BitReader, BitWriter, bytes_to_bits, padding_for, stream_bits, zeros};
use crate::code::{Code, EncodingTable, build_encoding_table, code_bits, code_of, distinct_symbols, lemma_code_len, opt_code};
use crate::freq::{calculate_frequencies, count, entries_below, frequency_table, lemma_count_bound};
use crate::tree::{HuffmanNode, build_huffman_tree, bytes_increasing, count_total, lemma_nonzero_all, nonzero_entries, huffman_tree_of, leaves_of, lemma_huffman, lemma_leaves_of, symbols_of};

verus! {

/// The four signature bytes `HRST` that open every encoded file.
pub open spec fn magic() -> Seq<u8> {
    seq![72u8, 82u8, 83u8, 84u8]
}

/// `n` as four little-endian bytes.
pub open spec fn le32(n: u32) -> Seq<u8> {
    seq![(n % 256) as u8, (n / 256 % 256) as u8, (n / 65536 % 256) as u8, (n / 16777216) as u8]
}

/// The table entries for the byte values below `n`: a triple (symbol,
/// pattern, length) for each byte value that has a code, in byte order.
pub open spec fn entries_bytes(codes: Seq<Option<Code>>, n: nat) -> Seq<u8>
    decreases n,
{
    if n == 0 {
        seq![]
    } else {
        let rest = entries_bytes(codes, (n - 1) as nat);
        match codes[n - 1] {
            Some(c) => rest + seq![(n - 1) as u8, c.bits, c.length],
            None => rest,
        }
    }
}

/// The number of byte values below `n` that have a code.
pub open spec fn entry_count(codes: Seq<Option<Code>>, n: nat) -> nat
    decreases n,
{
    if n == 0 {
        0
    } else {
        entry_count(codes, (n - 1) as nat) + if codes[n - 1] is Some { 1nat } else { 0nat }
    }
}

/// The header of an encoded file: signature, entry count, padding-bit count
/// and the table entries.
pub open spec fn header_bytes(codes: Seq<Option<Code>>, padding: u8) -> Seq<u8> {
    magic() + le32(entry_count(codes, 256) as u32) + seq![padding] + entries_bytes(codes, 256)
}

/// The concatenated code words of the bytes of `data`.
pub open spec fn encode_bits(codes: Seq<Option<Code>>, data: Seq<u8>) -> Seq<bool>
    decreases data.len(),
{
    if data.len() == 0 {
        seq![]
    } else {
        encode_bits(codes, data.drop_last()) + code_bits(codes[data.last() as int].unwrap())
    }
}

/// The Huffman tree of the bytes of `data`, which must not be empty.
pub open spec fn tree_of(data: Seq<u8>) -> HuffmanNode {
    huffman_tree_of(frequency_table(data))
}

/// The code table of `data`: empty for empty data.
pub open spec fn table_of(data: Seq<u8>) -> Seq<Option<Code>> {
    if data.len() == 0 {
        Seq::new(256, |i: int| None)
    } else {
        Seq::new(256, |i: int| opt_code(code_of(tree_of(data), i as u8)))
    }
}

/// Every code of `data` fits in the eight bits that the format gives it.
pub open spec fn encodable(data: Seq<u8>) -> bool {
    data.len() == 0 || tree_of(data).depth() <= 8
}

/// The packed payload bits of the encoding of `data`.
pub open spec fn payload_of(data: Seq<u8>) -> Seq<bool> {
    encode_bits(table_of(data), data)
}

/// The header of the encoding of `data`, with its padding-bit count.
pub open spec fn header_of(data: Seq<u8>) -> Seq<u8> {
    header_bytes(table_of(data), padding_for(payload_of(data).len()) as u8)
}

/// `out` is the encoding of `data`: its header, then the payload bits packed
/// most significant bit first, the final byte completed with zero bits.
pub open spec fn is_encoding_of(out: Seq<u8>, data: Seq<u8>) -> bool {
    let h = header_of(data);
    &&& out.len() >= h.len()
    &&& out.take(h.len() as int) == h
    &&& bytes_to_bits(out.skip(h.len() as int)) == payload_of(data) + zeros(
        padding_for(payload_of(data).len()),
    )
}

/// Why a byte sequence could not be encoded.
#[derive(Clone, Copy, PartialEq, Eq, Debug)]
pub enum EncodeError {
    /// Some code word would need more than eight bits.
    CodeTooLong,
}

/// The sum of the counts of the byte values below `n`.
pub open spec fn counts_below(s: Seq<u8>, n: nat) -> nat
    decreases n,
{
    if n == 0 {
        0
    } else {
        counts_below(s, (n - 1) as nat) + count(s, (n - 1) as u8)
    }
}

proof fn lemma_counts_below_push(s: Seq<u8>, x: u8, n: nat)
    requires
        n <= 256,
    ensures
        counts_below(s.push(x), n) == counts_below(s, n) + if (x as nat) < n { 1nat } else { 0nat },
    decreases n,
{
    if n > 0 {
        lemma_counts_below_push(s, x, (n - 1) as nat);
        assert(s.push(x).drop_last() =~= s);
    }
}

proof fn lemma_counts_total(s: Seq<u8>)
    ensures
        counts_below(s, 256) == s.len(),
    decreases s.len(),
{
    if s.len() == 0 {
        lemma_counts_zero(s, 256);
    } else {
        lemma_counts_total(s.drop_last());
        lemma_counts_below_push(s.drop_last(), s.last(), 256);
        assert(s.drop_last().push(s.last()) =~= s);
    }
}

proof fn lemma_counts_zero(s: Seq<u8>, n: nat)
    requires
        s.len() == 0,
    ensures
        counts_below(s, n) == 0,
    decreases n,
{
    if n > 0 {
        lemma_counts_zero(s, (n - 1) as nat);
    }
}

proof fn lemma_entries_below(s: Seq<u8>, n: nat)
    requires
        n <= 256,
        s.len() <= u32::MAX,
    ensures
        count_total(entries_below(s, n)) == counts_below(s, n),
        bytes_increasing(entries_below(s, n)),
        forall|k: int| 0 <= k < entries_below(s, n).len() ==> (#[trigger] entries_below(s, n)[k]).1 > 0
            && (entries_below(s, n)[k].0 as nat) < n,
        forall|b: u8| #[trigger] symbols_of(leaves_of(entries_below(s, n))).count(b) == if (b as nat)
            < n && count(s, b) > 0 {
            1nat
        } else {
            0nat
        },
    decreases n,
{
    if n > 0 {
        let m = (n - 1) as nat;
        let b = m as u8;
        lemma_entries_below(s, m);
        lemma_count_bound(s, b);
        let rest = entries_below(s, m);
        if count(s, b) > 0 {
            let e = rest.push((b, count(s, b) as u32));
            assert(e.drop_last() =~= rest);
            assert(leaves_of(e).drop_last() =~= leaves_of(rest));
            let leaf = HuffmanNode::Leaf { weight: count(s, b) as u32, character: b };
            assert(leaves_of(e).last() == leaf);
            assert(symbols_of(leaves_of(e)) == symbols_of(leaves_of(rest)).add(leaf.symbols()));
            assert(leaf.symbols() == Multiset::singleton(b));
            assert(bytes_increasing(e)) by {
                assert forall|i: int, j: int| 0 <= i < j < e.len() implies (#[trigger] e[i]).0 < (#[trigger] e[j]).0 by {
                    assert(e[i] == rest[i]);
                    if j < rest.len() {
                        assert(e[j] == rest[j]);
                    }
                }
            }
            assert forall|k: int| 0 <= k < e.len() implies (#[trigger] e[k]).1 > 0 && (e[k].0 as nat) < n by {
                if k < rest.len() {
                    assert(e[k] == rest[k]);
                }
            }
        }
    }
}

proof fn lemma_entries_empty(s: Seq<u8>, n: nat)
    requires
        s.len() == 0,
    ensures
        entries_below(s, n).len() == 0,
    decreases n,
{
    if n > 0 {
        lemma_entries_empty(s, (n - 1) as nat);
    }
}

/// The frequency table of non-empty data is non-empty, its counts add up to
/// the data's length, and its leaves hold each byte value that occurs
/// exactly once.
pub proof fn lemma_frequency_table(s: Seq<u8>)
    requires
        s.len() <= u32::MAX,
    ensures
        count_total(frequency_table(s)) == s.len(),
        bytes_increasing(frequency_table(s)),
        nonzero_entries(frequency_table(s)) == frequency_table(s),
        forall|b: u8| #[trigger] symbols_of(leaves_of(frequency_table(s))).count(b) == if count(s, b) > 0 {
            1nat
        } else {
            0nat
        },
        frequency_table(s).len() == 0 <==> s.len() == 0,
{
    lemma_entries_below(s, 256);
    lemma_nonzero_all(frequency_table(s));
    lemma_counts_total(s);
    if s.len() > 0 {
        lemma_count_pos(s, 0);
        let b = s[0];
        assert(symbols_of(leaves_of(frequency_table(s))).count(b) == 1);
        if frequency_table(s).len() == 0 {
            assert(leaves_of(frequency_table(s)) =~= Seq::<HuffmanNode>::empty());
        }
    } else {
        lemma_entries_empty(s, 256);
    }
}

/// Every byte of a sequence occurs in it.
pub proof fn lemma_count_pos(s: Seq<u8>, i: int)
    requires
        0 <= i < s.len(),
    ensures
        count(s, s[i]) > 0,
    decreases s.len(),
{
    if i < s.len() - 1 {
        lemma_count_pos(s.drop_last(), i);
    }
}

/// The tree of non-empty data has consistent weights (each internal node
/// weighs what its children weigh together), a total weight equal to the
/// data's length, and exactly one leaf for each byte value that occurs.
pub proof fn lemma_tree_of(data: Seq<u8>)
    requires
        0 < data.len() <= u32::MAX,
    ensures
        tree_of(data).weights_ok(),
        tree_of(data).leaf_total() == data.len(),
        forall|b: u8| #[trigger] tree_of(data).symbols().count(b) == if count(data, b) > 0 {
            1nat
        } else {
            0nat
        },
        distinct_symbols(tree_of(data)),
{
    lemma_frequency_table(data);
    lemma_leaves_of(frequency_table(data));
    lemma_huffman(leaves_of(frequency_table(data)));
}

/// The code table of any byte sequence has a code for exactly the byte
/// values that occur in it, and the tree it comes from has one leaf for each
/// of them.
pub proof fn lemma_table_complete(data: Seq<u8>, b: u8)
    requires
        data.len() <= u32::MAX,
    ensures
        table_of(data)[b as int] is Some <==> count(data, b) > 0,
        data.len() > 0 ==> tree_of(data).symbols().count(b) == if count(data, b) > 0 {
            1nat
        } else {
            0nat
        },
{
    if data.len() > 0 {
        lemma_tree_of(data);
        lemma_code_len(tree_of(data), b);
    } else {
        assert(count(data, b) == 0);
    }
}

/// Every internal node of the tree of non-empty data weighs what its two
/// children weigh together.
pub proof fn lemma_weights(data: Seq<u8>)
    requires
        0 < data.len() <= u32::MAX,
    ensures
        tree_of(data).weights_ok(),
{
    lemma_tree_of(data);
}

/// The padding-bit count in the header of an encoding is below eight and
/// completes the payload bits to whole bytes.
pub proof fn lemma_padding(data: Seq<u8>, out: Seq<u8>)
    requires
        is_encoding_of(out, data),
    ensures
        out[8] < 8,
        out[8] as nat == padding_for(payload_of(data).len()),
        (payload_of(data).len() + out[8]) % 8 == 0,
{
    let h = header_of(data);
    let n = payload_of(data).len();
    assert(out.take(h.len() as int)[8] == out[8]);
    assert(h[8] == padding_for(n) as u8);
    assert(padding_for(n) < 8);
}

/// Writes the header with a zero placeholder for the padding-bit count.
pub fn encode_provisionary_header(encoding_table: &EncodingTable) -> (r: Vec<u8>)
    requires
        encoding_table.codes@.len() == 256,
    ensures
        r@ == header_bytes(encoding_table.codes@, 0),
{
    let ghost codes = encoding_table.codes@;
    let mut entries: Vec<u8> = Vec::new();
    let mut n: u32 = 0;
    let mut b: usize = 0;
    while b < 256
        invariant
            b <= 256,
            codes.len() == 256,
            codes == encoding_table.codes@,
            entries@ == entries_bytes(codes, b as nat),
            n == entry_count(codes, b as nat),
            n <= b,
        decreases 256 - b,
    {
        match encoding_table.codes[b] {
            Some(code) => {
                entries.push(b as u8);
                entries.push(code.bits);
                entries.push(code.length);
                n = n + 1;
            },
            None => {},
        }
        b = b + 1;
    }
    let mut out: Vec<u8> = Vec::new();
    out.push(72u8);
    out.push(82u8);
    out.push(83u8);
    out.push(84u8);
    out.push((n % 256) as u8);
    out.push((n / 256 % 256) as u8);
    out.push((n / 65536 % 256) as u8);
    out.push((n / 16777216) as u8);
    out.push(0u8);
    let ghost head = out@;
    let mut k: usize = 0;
    while k < entries.len()
        invariant
            k <= entries@.len(),
            head.len() == 9,
            out@ == head + entries@.take(k as int),
        decreases entries@.len() - k,
    {
        out.push(entries[k]);
        k = k + 1;
        assert(out@ =~= head + entries@.take(k as int));
    }
    assert(entries@.take(k as int) =~= entries@);
    assert(out@ =~= header_bytes(codes, 0));
    out
}

/// Patches the padding-bit count into a header.
pub fn encode_header_padding_bits(out: &mut Vec<u8>, padding_bits: u8)
    requires
        old(out)@.len() > 8,
    ensures
        final(out)@ == old(out)@.update(8, padding_bits),
{
    out.set(8, padding_bits);
}

/// Encodes `data`: the header with the code table, then each byte's code
/// word, packed most significant bit first. Empty data gives a header with
/// no entries and no payload. Fails when a code word would need more than
/// eight bits.
pub fn encode(data: &Vec<u8>) -> (r: Result<Vec<u8>, EncodeError>)
    requires
        data@.len() <= u32::MAX,
    ensures
        r is Ok <==> encodable(data@),
        r matches Ok(out) ==> is_encoding_of(out@, data@),
        r matches Err(e) ==> e == EncodeError::CodeTooLong,
{
    let frequencies = calculate_frequencies(data);
    proof {
        lemma_frequency_table(data@);
    }
    let table: EncodingTable;
    if frequencies.len() == 0 {
        let mut codes: Vec<Option<Code>> = Vec::new();
        let mut k: usize = 0;
        while k < 256
            invariant
                k <= 256,
                codes@.len() == k,
                forall|j: int| 0 <= j < k ==> codes@[j] is None,
            decreases 256 - k,
        {
            codes.push(None);
            k = k + 1;
        }
        table = EncodingTable { codes };
        assert(table.codes@ =~= table_of(data@));
    } else {
        proof {
            lemma_tree_of(data@);
        }
        let tree = build_huffman_tree(&frequencies).unwrap();
        if !tree.depth_at_most(8) {
            return Err(EncodeError::CodeTooLong);
        }
        table = build_encoding_table(&tree);
        assert(table.codes@ =~= table_of(data@));
    }
    let ghost codes = table.codes@;
    let mut out = encode_provisionary_header(&table);
    let mut writer = BitWriter::new();
    let mut i: usize = 0;
    while i < data.len()
        invariant
            i <= data@.len(),
            codes == table.codes@,
            codes == table_of(data@),
            data@.len() > 0 ==> tree_of(data@).depth() <= 8,
            data@.len() > 0 ==> distinct_symbols(tree_of(data@)),
            data@.len() > 0 ==> forall|b: u8| #[trigger] tree_of(data@).symbols().count(b) == if count(data@, b) > 0 { 1nat } else { 0nat },
            writer.wf(),
            writer@ == encode_bits(codes, data@.take(i as int)),
        decreases data@.len() - i,
    {
        let byte = data[i];
        proof {
            lemma_count_pos(data@, i as int);
            lemma_code_len(tree_of(data@), byte);
            assert(data@.take(i + 1).drop_last() =~= data@.take(i as int));
        }
        match table.codes[byte as usize] {
            Some(code) => {
                writer.write_bits(code.bits, code.length);
            },
            None => {
                assert(false);
            },
        }
        i = i + 1;
    }
    assert(data@.take(i as int) =~= data@);
    let (body, padding_bits) = writer.flush();
    proof {
        lemma_entry_count(codes, 256);
    }
    encode_header_padding_bits(&mut out, padding_bits);
    let ghost h = out@;
    assert(h =~= header_of(data@));
    let mut k: usize = 0;
    while k < body.len()
        invariant
            k <= body@.len(),
            out@ == h + body@.take(k as int),
        decreases body@.len() - k,
    {
        out.push(body[k]);
        k = k + 1;
        assert(out@ =~= h + body@.take(k as int));
    }
    assert(body@.take(k as int) =~= body@);
    assert(out@.take(h.len() as int) =~= h);
    assert(out@.skip(h.len() as int) =~= body@);
    Ok(out)
}

proof fn lemma_entry_count(codes: Seq<Option<Code>>, n: nat)
    requires
        n <= 256,
    ensures
        entry_count(codes, n) <= n,
        entries_bytes(codes, n).len() == 3 * entry_count(codes, n),
    decreases n,
{
    if n > 0 {
        lemma_entry_count(codes, (n - 1) as nat);
    }
}


/// Why a byte sequence could not be decoded.
#[derive(Clone, Copy, PartialEq, Eq, Debug)]
pub enum DecodeError {
    /// The signature is wrong, the header is truncated, or one of its fields
    /// is out of range.
    InvalidFormat,
    /// The payload ends inside a code word, or holds a bit sequence that no
    /// code word starts.
    Corrupt,
}

/// The header fields that decoding reads.
pub struct Header {
    pub num_entries: u32,
    pub padding_bits: u8,
    /// The (symbol, code) entries in file order.
    pub encoding_table: Vec<(u8, Code)>,
}

/// The little-endian number in the four bytes from `at`.
pub open spec fn read_le32(s: Seq<u8>, at: int) -> nat {
    (s[at] + 256 * s[at + 1] + 65536 * s[at + 2] + 16777216 * s[at + 3]) as nat
}

/// The length of the header of `file`.
pub open spec fn header_len(file: Seq<u8>) -> int {
    (9 + 3 * read_le32(file, 4)) as int
}

/// The `k`-th table entry of the header of `file`.
pub open spec fn entry_at(file: Seq<u8>, k: int) -> (u8, Code) {
    (file[9 + 3 * k], Code { bits: file[10 + 3 * k], length: file[11 + 3 * k] })
}

/// The table entries of the header of `file`, in file order.
pub open spec fn entries_of(file: Seq<u8>) -> Seq<(u8, Code)> {
    Seq::new(read_le32(file, 4), |k: int| entry_at(file, k))
}

/// `file` starts with a well-formed header: the signature, a padding-bit
/// count below eight, all the entries it announces, and code lengths from
/// one to eight.
pub open spec fn header_ok(file: Seq<u8>) -> bool {
    &&& file.len() >= 9
    &&& file.take(4) == magic()
    &&& file[8] < 8
    &&& file.len() >= header_len(file)
    &&& forall|k: int| 0 <= k < read_le32(file, 4) ==> 1 <= (#[trigger] entry_at(file, k)).1.length <= 8
}

/// The decode-table key of a code: its length and its pattern moved to the
/// low-order end.
pub open spec fn key_of(c: Code) -> u16 {
    (c.length as u16 * 256 + (c.bits >> ((8 - c.length) as u8)) as u16) as u16
}

/// The number that a bit sequence spells, most significant bit first.
pub open spec fn bits_value(s: Seq<bool>) -> nat
    decreases s.len(),
{
    if s.len() == 0 {
        0
    } else {
        2 * bits_value(s.drop_last()) + if s.last() { 1nat } else { 0nat }
    }
}

/// The decode-table key of an accumulated bit sequence.
pub open spec fn acc_key(s: Seq<bool>) -> u16 {
    (s.len() * 256 + bits_value(s)) as u16
}

/// The decode table of the first `n` entries: each key maps to the symbol of
/// the last entry with that key.
pub open spec fn decode_table_of(entries: Seq<(u8, Code)>, n: nat) -> Map<u16, u8>
    decreases n,
{
    if n == 0 {
        Map::empty()
    } else {
        let e = entries[n - 1];
        decode_table_of(entries, (n - 1) as nat).insert(key_of(e.1), e.0)
    }
}

/// Decodes `bits` with the table `dt`, an accumulator `acc` and the output
/// `out` so far: after each bit the accumulator is looked up; a match emits
/// its symbol and empties the accumulator. Eight bits without a match, or
/// bits left over at the end, mean a corrupt payload.
pub open spec fn decode_run(dt: Map<u16, u8>, bits: Seq<bool>, acc: Seq<bool>, out: Seq<u8>) -> Result<
    Seq<u8>,
    DecodeError,
>
    decreases bits.len(),
{
    if bits.len() == 0 {
        if acc.len() == 0 {
            Ok(out)
        } else {
            Err(DecodeError::Corrupt)
        }
    } else {
        let a = acc.push(bits[0]);
        let k = acc_key(a);
        if dt.contains_key(k) {
            decode_run(dt, bits.drop_first(), seq![], out.push(dt[k]))
        } else if a.len() >= 8 {
            Err(DecodeError::Corrupt)
        } else {
            decode_run(dt, bits.drop_first(), a, out)
        }
    }
}

/// The bytes that the payload `body` decodes to under `entries`.
pub open spec fn decode_stream(entries: Seq<(u8, Code)>, body: Seq<u8>, padding: u8) -> Result<
    Seq<u8>,
    DecodeError,
> {
    decode_run(decode_table_of(entries, entries.len()), stream_bits(body, padding), seq![], seq![])
}

/// What decoding `file` gives.
pub open spec fn decode_spec(file: Seq<u8>) -> Result<Seq<u8>, DecodeError> {
    if !header_ok(file) {
        Err(DecodeError::InvalidFormat)
    } else {
        decode_stream(entries_of(file), file.skip(header_len(file)), file[8])
    }
}

pub open spec fn result_view(r: Result<Vec<u8>, DecodeError>) -> Result<Seq<u8>, DecodeError> {
    match r {
        Ok(v) => Ok(v@),
        Err(e) => Err(e),
    }
}

/// A sequence of at most `n` bits spells a number below `2^n`.
pub proof fn lemma_bits_value_bound(s: Seq<bool>)
    requires
        s.len() <= 8,
    ensures
        s.len() <= 7 ==> bits_value(s) < 128,
        s.len() <= 6 ==> bits_value(s) < 64,
        s.len() <= 5 ==> bits_value(s) < 32,
        s.len() <= 4 ==> bits_value(s) < 16,
        s.len() <= 3 ==> bits_value(s) < 8,
        s.len() <= 2 ==> bits_value(s) < 4,
        s.len() <= 1 ==> bits_value(s) < 2,
        bits_value(s) < 256,
    decreases s.len(),
{
    if s.len() > 0 {
        lemma_bits_value_bound(s.drop_last());
    }
}

/// Reads and checks the header of `file`.
pub fn decode_header(file: &Vec<u8>) -> (r: Result<Header, DecodeError>)
    ensures
        r is Ok <==> header_ok(file@),
        r matches Err(e) ==> e == DecodeError::InvalidFormat,
        r matches Ok(h) ==> h.num_entries == read_le32(file@, 4) && h.padding_bits == file@[8]
            && h.encoding_table@ == entries_of(file@),
{
    if file.len() < 9 {
        return Err(DecodeError::InvalidFormat);
    }
    if file[0] != 72u8 || file[1] != 82u8 || file[2] != 83u8 || file[3] != 84u8 {
        assert(file@.take(4) != magic()) by {
            if file@.take(4) == magic() {
                assert(file@.take(4)[0] == file@[0]);
                assert(file@.take(4)[1] == file@[1]);
                assert(file@.take(4)[2] == file@[2]);
                assert(file@.take(4)[3] == file@[3]);
            }
        }
        return Err(DecodeError::InvalidFormat);
    }
    assert(file@.take(4) =~= magic());
    let num_entries: u32 = file[4] as u32 + 256 * (file[5] as u32) + 65536 * (file[6] as u32)
        + 16777216 * (file[7] as u32);
    let padding_bits = file[8];
    if padding_bits >= 8 {
        return Err(DecodeError::InvalidFormat);
    }
    let flen: usize = file.len();
    let available: usize = flen - 9;
    if (num_entries as usize) > available / 3 {
        return Err(DecodeError::InvalidFormat);
    }
    assert(3 * (available / 3) <= available) by (nonlinear_arith);
    let mut encoding_table: Vec<(u8, Code)> = Vec::new();
    let mut k: usize = 0;
    while k < num_entries as usize
        invariant
            k <= num_entries,
            num_entries == read_le32(file@, 4),
            9 + 3 * num_entries <= file@.len(),
            file@.len() == available + 9,
            file@.len() == flen,
            encoding_table@ == entries_of(file@).take(k as int),
            forall|j: int| 0 <= j < k ==> 1 <= (#[trigger] entry_at(file@, j)).1.length <= 8,
        decreases num_entries - k,
    {
        let character = file[9 + 3 * k];
        let bits = file[10 + 3 * k];
        let length = file[11 + 3 * k];
        if length < 1 || length > 8 {
            assert(!(1 <= entry_at(file@, k as int).1.length <= 8));
            return Err(DecodeError::InvalidFormat);
        }
        encoding_table.push((character, Code { bits, length }));
        k = k + 1;
        assert(encoding_table@ =~= entries_of(file@).take(k as int));
    }
    assert(encoding_table@ =~= entries_of(file@));
    Ok(Header { num_entries, padding_bits, encoding_table })
}

fn build_decode_table(entries: &Vec<(u8, Code)>) -> (r: std::collections::HashMap<u16, u8>)
    requires
        forall|k: int| 0 <= k < entries@.len() ==> 1 <= (#[trigger] entries@[k]).1.length <= 8,
    ensures
        r@ == decode_table_of(entries@, entries@.len()),
{
    broadcast use vstd::std_specs::hash::group_hash_axioms;

    let mut decode_table: std::collections::HashMap<u16, u8> = std::collections::HashMap::new();
    let mut k: usize = 0;
    while k < entries.len()
        invariant
            k <= entries@.len(),
            forall|j: int| 0 <= j < entries@.len() ==> 1 <= (#[trigger] entries@[j]).1.length <= 8,
            decode_table@ == decode_table_of(entries@, k as nat),
        decreases entries@.len() - k,
    {
        let (character, code) = entries[k];
        let right_aligned_bits = code.bits >> (8 - code.length);
        let key: u16 = (code.length as u16) * 256 + (right_aligned_bits as u16);
        decode_table.insert(key, character);
        k = k + 1;
    }
    decode_table
}

/// Decodes the payload `body`, whose final byte carries `padding_bits`
/// unused bits, with the code entries of a header.
pub fn decode_file(body: Vec<u8>, padding_bits: u8, encoding_table: &Vec<(u8, Code)>) -> (r: Result<
    Vec<u8>,
    DecodeError,
>)
    requires
        padding_bits <= 8,
        forall|k: int| 0 <= k < encoding_table@.len() ==> 1 <= (#[trigger] encoding_table@[k]).1.length <= 8,
    ensures
        result_view(r) == decode_stream(encoding_table@, body@, padding_bits),
{
    broadcast use vstd::std_specs::hash::group_hash_axioms;

    let decode_table = build_decode_table(encoding_table);
    let ghost dt = decode_table@;
    let ghost goal = decode_stream(encoding_table@, body@, padding_bits);
    let mut reader = BitReader::new(body, padding_bits);
    let ghost all = reader@;
    let mut out: Vec<u8> = Vec::new();
    let mut current_bits: u16 = 0;
    let mut current_length: u16 = 0;
    let ghost mut acc: Seq<bool> = seq![];
    #[verifier::loop_isolation(false)]
    loop
        invariant
            reader.wf(),
            dt == decode_table@,
            goal == decode_run(dt, all, seq![], seq![]),
            decode_run(dt, all, seq![], seq![]) == decode_run(dt, reader@, acc, out@),
            acc.len() == current_length,
            current_length <= 7,
            current_bits == bits_value(acc),
        decreases reader@.len(),
    {
        let ghost before = reader@;
        match reader.read_bit() {
            None => {
                assert(before.len() == 0);
                assert(decode_run(dt, before, acc, out@) == if acc.len() == 0 {
                    Ok(out@)
                } else {
                    Err(DecodeError::Corrupt)
                });
                if current_length == 0 {
                    return Ok(out);
                } else {
                    return Err(DecodeError::Corrupt);
                }
            },
            Some(bit) => {
                proof {
                    lemma_bits_value_bound(acc);
                }
                let ghost a = acc.push(bit);
                assert(a.drop_last() =~= acc);
                current_bits = current_bits * 2 + if bit { 1u16 } else { 0u16 };
                current_length = current_length + 1;
                proof {
                    lemma_bits_value_bound(a);
                }
                let key: u16 = current_length * 256 + current_bits;
                assert(key == acc_key(a));
                match decode_table.get(&key) {
                    Some(character) => {
                        out.push(*character);
                        current_bits = 0;
                        current_length = 0;
                        proof {
                            acc = seq![];
                        }
                    },
                    None => {
                        if current_length >= 8 {
                            return Err(DecodeError::Corrupt);
                        }
                        proof {
                            acc = a;
                        }
                    },
                }
            },
        }
    }
}

/// Decodes an encoded file back to the bytes it was made from. Fails with
/// `InvalidFormat` when the header is malformed and with `Corrupt` when the
/// payload does not decode to whole code words.
pub fn decode(file: &Vec<u8>) -> (r: Result<Vec<u8>, DecodeError>)
    ensures
        result_view(r) == decode_spec(file@),
{
    let header = match decode_header(file) {
        Ok(h) => h,
        Err(e) => {
            return Err(e);
        },
    };
    let flen = file.len();
    assert(header_ok(file@));
    assert(header_len(file@) == 9 + 3 * header.num_entries);
    let start: usize = 9 + 3 * (header.num_entries as usize);
    let mut body: Vec<u8> = Vec::new();
    let mut k: usize = start;
    while k < file.len()
        invariant
            start <= k <= file@.len(),
            body@ == file@.subrange(start as int, k as int),
        decreases file@.len() - k,
    {
        body.push(file[k]);
        k = k + 1;
        assert(body@ =~= file@.subrange(start as int, k as int));
    }
    assert(body@ =~= file@.skip(header_len(file@)));
    decode_file(body, header.padding_bits, &header.encoding_table)
}

} // verus!
