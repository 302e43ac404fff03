use vstd::prelude::*;
use crate::bits::{bit_of, bytes_to_bits, lemma_bytes_to_bits_index, lemma_bytes_to_bits_len, padding_for, prefix_bits, stream_bits, zeros};
use crate::code::{Code, code_bits, code_of, is_prefix, lemma_code_len, lemma_codes_prefix_free, lemma_pack, prefix_free};
use crate::container::{
    DecodeError, acc_key, bits_value, decode_run, decode_spec, decode_table_of, encodable,
    encode_bits, entries_bytes, entries_of, entry_at, entry_count, header_bytes, header_len,
    header_ok, header_of, is_encoding_of, key_of, lemma_bits_value_bound, lemma_count_pos, lemma_tree_of, magic,
    payload_of, read_le32, table_of, tree_of,
};

verus! {

/// The (symbol, code) entries of a code table for the byte values below `n`,
/// in byte order.
pub open spec fn table_entries(codes: Seq<Option<Code>>, n: nat) -> Seq<(u8, Code)>
    decreases n,
{
    if n == 0 {
        seq![]
    } else {
        let rest = table_entries(codes, (n - 1) as nat);
        match codes[n - 1] {
            Some(c) => rest.push(((n - 1) as u8, c)),
            None => rest,
        }
    }
}

/// A code table that decodes unambiguously: 256 slots, codes of one to eight
/// bits, none a prefix of another.
pub open spec fn codes_ok(codes: Seq<Option<Code>>) -> bool {
    &&& codes.len() == 256
    &&& prefix_free(codes)
    &&& forall|b: u8| (#[trigger] codes[b as int]) is Some ==> 1 <= codes[b as int].unwrap().length <= 8
}

/// `dt` maps the key of each code of `codes` to its symbol, and holds no
/// other key.
pub open spec fn decodes(dt: Map<u16, u8>, codes: Seq<Option<Code>>) -> bool {
    &&& forall|b: u8|
        (#[trigger] codes[b as int]) is Some ==> dt.contains_key(key_of(codes[b as int].unwrap()))
            && dt[key_of(codes[b as int].unwrap())] == b
    &&& forall|k: u16|
        #[trigger] dt.contains_key(k) ==> exists|b: u8|
            (#[trigger] codes[b as int]) is Some && key_of(codes[b as int].unwrap()) == k
}

proof fn lemma_shift_bv(b: u8, m: u8)
    by (bit_vector)
    requires
        1 <= m <= 7,
    ensures
        (b >> ((7u8 - m) as u8)) == ((b >> ((8u8 - m) as u8)) << 1u8) | ((b >> ((7u8 - m) as u8))
            & 1u8),
        (b >> ((8u8 - m) as u8)) < 128,
        (b >> 7u8) & 1u8 == b >> 7u8,
        (b >> 7u8) <= 1,
{
}

proof fn lemma_double_bv(x: u8, y: u8)
    by (bit_vector)
    requires
        x < 128,
        y <= 1,
    ensures
        (x << 1u8) | y == 2 * x + y,
{
}

/// The pattern of the first `l` bits of `b`, moved to the low-order end,
/// is the number those bits spell.
proof fn lemma_shift_value(b: u8, l: int)
    requires
        1 <= l <= 8,
    ensures
        (b >> ((8 - l) as u8)) as nat == bits_value(prefix_bits(b, l)),
    decreases l,
{
    let p = prefix_bits(b, l);
    assert(p.drop_last() =~= prefix_bits(b, l - 1));
    if l == 1 {
        lemma_shift_bv(b, 1);
        assert(prefix_bits(b, 0) =~= Seq::<bool>::empty());
        assert(bits_value(p.drop_last()) == 0);
        assert(p.last() == bit_of(b, 0));
        assert((8 - l) as u8 == 7u8);
        assert(bits_value(p) == if bit_of(b, 0) { 1nat } else { 0nat });
    } else {
        lemma_shift_value(b, l - 1);
        let m = (l - 1) as u8;
        lemma_shift_bv(b, m);
        let x = b >> ((8u8 - m) as u8);
        let y = (b >> ((7u8 - m) as u8)) & 1u8;
        assert(y <= 1) by (bit_vector)
            requires
                y == (b >> ((7u8 - m) as u8)) & 1u8,
        ;
        lemma_double_bv(x, y);
        assert((8 - (l - 1)) as u8 == (8u8 - m) as u8);
        assert((8 - l) as u8 == (7u8 - m) as u8);
        assert((7 - (l - 1)) as u8 == (7u8 - m) as u8);
        assert(p.last() == bit_of(b, l - 1));
        assert(bit_of(b, l - 1) == (y == 1));
        assert(bits_value(p) == 2 * bits_value(p.drop_last()) + if p.last() { 1nat } else { 0nat });
    }
}

/// The key of a code is the key of the bits it stands for.
pub proof fn lemma_key(c: Code)
    requires
        1 <= c.length <= 8,
    ensures
        key_of(c) == acc_key(code_bits(c)),
        bits_value(code_bits(c)) < 256,
{
    lemma_shift_value(c.bits, c.length as int);
    assert((c.bits >> ((8 - c.length) as u8)) < 256);
}

/// Bit sequences of equal length that spell the same number are equal.
proof fn lemma_value_injective(p: Seq<bool>, q: Seq<bool>)
    requires
        p.len() == q.len(),
        bits_value(p) == bits_value(q),
    ensures
        p == q,
    decreases p.len(),
{
    if p.len() > 0 {
        lemma_value_injective(p.drop_last(), q.drop_last());
        assert(p =~= p.drop_last().push(p.last()));
        assert(q =~= q.drop_last().push(q.last()));
    } else {
        assert(p =~= q);
    }
}

/// Bit sequences of at most eight bits with the same key are equal.
proof fn lemma_acc_key_injective(p: Seq<bool>, q: Seq<bool>)
    requires
        1 <= p.len() <= 8,
        1 <= q.len() <= 8,
        acc_key(p) == acc_key(q),
    ensures
        p == q,
{
    lemma_bits_value_bound(p);
    lemma_bits_value_bound(q);
    lemma_value_injective(p, q);
}

proof fn lemma_table_prefix(s: Seq<(u8, Code)>, e: (u8, Code), k: nat)
    requires
        k <= s.len(),
    ensures
        decode_table_of(s.push(e), k) == decode_table_of(s, k),
    decreases k,
{
    if k > 0 {
        lemma_table_prefix(s, e, (k - 1) as nat);
    }
}

/// The decode table of a well-formed code table's entries holds exactly its
/// codes.
proof fn lemma_decode_table(codes: Seq<Option<Code>>, n: nat)
    requires
        codes_ok(codes),
        n <= 256,
    ensures
        forall|b: u8|
            (b as nat) < n && (#[trigger] codes[b as int]) is Some ==> decode_table_of(
                table_entries(codes, n),
                table_entries(codes, n).len(),
            ).contains_key(key_of(codes[b as int].unwrap())) && decode_table_of(
                table_entries(codes, n),
                table_entries(codes, n).len(),
            )[key_of(codes[b as int].unwrap())] == b,
        forall|k: u16|
            #[trigger] decode_table_of(table_entries(codes, n), table_entries(codes, n).len()).contains_key(k)
                ==> exists|b: u8|
                (b as nat) < n && (#[trigger] codes[b as int]) is Some && key_of(codes[b as int].unwrap()) == k,
    decreases n,
{
    if n > 0 {
        let m = (n - 1) as nat;
        lemma_decode_table(codes, m);
        let rest = table_entries(codes, m);
        let old_dt = decode_table_of(rest, rest.len());
        let x = m as u8;
        match codes[m as int] {
            Some(cx) => {
                let e = (x, cx);
                lemma_table_prefix(rest, e, rest.len());
                assert(table_entries(codes, n) == rest.push(e));
                let dt = decode_table_of(rest.push(e), rest.len() + 1);
                assert(dt == old_dt.insert(key_of(cx), x));
                assert(codes[x as int] == Some(cx));
                assert forall|b: u8|
                    (b as nat) < n && (#[trigger] codes[b as int]) is Some implies dt.contains_key(key_of(codes[b as int].unwrap())) && dt[key_of(codes[b as int].unwrap())] == b by {
                    if b != x {
                        let c = codes[b as int].unwrap();
                        if key_of(c) == key_of(cx) {
                            lemma_key(c);
                            lemma_key(cx);
                            lemma_acc_key_injective(code_bits(c), code_bits(cx));
                            assert(code_bits(c).take(code_bits(c).len() as int) =~= code_bits(c));
                            assert(is_prefix(code_bits(c), code_bits(cx)));
                        }
                    }
                }
                assert forall|k: u16| #[trigger] dt.contains_key(k) implies exists|b: u8|
                    (b as nat) < n && (#[trigger] codes[b as int]) is Some && key_of(codes[b as int].unwrap()) == k by {
                    if k == key_of(cx) {
                        assert((x as nat) < n && codes[x as int] is Some && key_of(codes[x as int].unwrap()) == k);
                    } else {
                        assert(old_dt.contains_key(k));
                    }
                }
            },
            None => {
                assert(table_entries(codes, n) == rest);
            },
        }
    }
}

/// The header bytes of a code table lay out its entries three bytes each.
proof fn lemma_entries_layout(codes: Seq<Option<Code>>, n: nat)
    requires
        n <= 256,
        codes.len() == 256,
    ensures
        table_entries(codes, n).len() == entry_count(codes, n),
        entries_bytes(codes, n).len() == 3 * entry_count(codes, n),
        entry_count(codes, n) <= n,
        forall|k: int|
            0 <= k < table_entries(codes, n).len() ==> {
                &&& entries_bytes(codes, n)[3 * k] == (#[trigger] table_entries(codes, n)[k]).0
                &&& entries_bytes(codes, n)[3 * k + 1] == table_entries(codes, n)[k].1.bits
                &&& entries_bytes(codes, n)[3 * k + 2] == table_entries(codes, n)[k].1.length
                &&& codes[table_entries(codes, n)[k].0 as int] == Some(table_entries(codes, n)[k].1)
            },
    decreases n,
{
    if n > 0 {
        lemma_entries_layout(codes, (n - 1) as nat);
    }
}

/// A well-formed header parses back to its entries and padding.
proof fn lemma_header(codes: Seq<Option<Code>>, padding: u8, out: Seq<u8>)
    requires
        codes_ok(codes),
        padding < 8,
        out.len() >= header_bytes(codes, padding).len(),
        out.take(header_bytes(codes, padding).len() as int) == header_bytes(codes, padding),
    ensures
        header_ok(out),
        header_len(out) == header_bytes(codes, padding).len(),
        out[8] == padding,
        entries_of(out) == table_entries(codes, 256),
{
    let h = header_bytes(codes, padding);
    lemma_entries_layout(codes, 256);
    let n = entry_count(codes, 256);
    assert forall|i: int| 0 <= i < h.len() implies out[i] == #[trigger] h[i] by {
        assert(out.take(h.len() as int)[i] == out[i]);
    }
    assert(out.take(4) =~= magic()) by {
        assert(out[0] == h[0] && out[1] == h[1] && out[2] == h[2] && out[3] == h[3]);
    }
    assert(out[4] == h[4] && out[5] == h[5] && out[6] == h[6] && out[7] == h[7] && out[8] == h[8]);
    if n < 256 {
        assert((n as u32) % 256 == n);
        assert((n as u32) / 256 % 256 == 0);
    } else {
        assert(n == 256);
    }
    assert(read_le32(out, 4) == n);
    let te = table_entries(codes, 256);
    assert forall|k: int| 0 <= k < n implies #[trigger] entry_at(out, k) == te[k] by {
        assert(out[9 + 3 * k] == h[9 + 3 * k]);
        assert(out[10 + 3 * k] == h[10 + 3 * k]);
        assert(out[11 + 3 * k] == h[11 + 3 * k]);
        let t = te[k];
        assert(codes[t.0 as int] == Some(t.1));
    }
    assert(entries_of(out) =~= te);
    assert forall|k: int| 0 <= k < read_le32(out, 4) implies 1 <= (#[trigger] entry_at(out, k)).1.length <= 8 by {
        let t = te[k];
        assert(codes[t.0 as int] == Some(t.1));
    }
}

proof fn lemma_encode_bits_front(codes: Seq<Option<Code>>, d: Seq<u8>)
    requires
        d.len() > 0,
    ensures
        encode_bits(codes, d) == code_bits(codes[d[0] as int].unwrap()) + encode_bits(codes, d.drop_first()),
    decreases d.len(),
{
    if d.len() == 1 {
        assert(d.drop_last() =~= Seq::<u8>::empty());
        assert(d.drop_first() =~= Seq::<u8>::empty());
        assert(encode_bits(codes, d) =~= code_bits(codes[d[0] as int].unwrap()) + encode_bits(codes, d.drop_first()));
    } else {
        lemma_encode_bits_front(codes, d.drop_last());
        assert(d.drop_first().drop_last() =~= d.drop_last().drop_first());
        assert(d.drop_first().last() == d.last());
        assert(encode_bits(codes, d) =~= code_bits(codes[d[0] as int].unwrap()) + encode_bits(codes, d.drop_first()));
    }
}

/// Decoding one code word: after the bits of `p` that the accumulator does
/// not yet hold, its symbol is emitted and the accumulator is empty again.
proof fn lemma_decode_word(
    dt: Map<u16, u8>,
    codes: Seq<Option<Code>>,
    x: u8,
    j: int,
    rest: Seq<bool>,
    out: Seq<u8>,
)
    requires
        codes_ok(codes),
        decodes(dt, codes),
        codes[x as int] is Some,
        0 <= j < code_bits(codes[x as int].unwrap()).len(),
    ensures
        ({
            let p = code_bits(codes[x as int].unwrap());
            decode_run(dt, p.skip(j) + rest, p.take(j), out) == decode_run(dt, rest, seq![], out.push(x))
        }),
    decreases code_bits(codes[x as int].unwrap()).len() - j,
{
    let cx = codes[x as int].unwrap();
    let p = code_bits(cx);
    let bits = p.skip(j) + rest;
    let a = p.take(j).push(bits[0]);
    assert(a =~= p.take(j + 1));
    assert(bits.drop_first() =~= p.skip(j + 1) + rest);
    lemma_key(cx);
    if j + 1 == p.len() {
        assert(a =~= p);
        assert(bits.drop_first() =~= rest);
    } else {
        if dt.contains_key(acc_key(a)) {
            let b = choose|b: u8| (#[trigger] codes[b as int]) is Some && key_of(codes[b as int].unwrap()) == acc_key(a);
            let cb = codes[b as int].unwrap();
            lemma_key(cb);
            lemma_acc_key_injective(code_bits(cb), a);
            assert(is_prefix(code_bits(cb), p));
            assert(false);
        }
        lemma_decode_word(dt, codes, x, j + 1, rest, out);
    }
}

/// Decoding the code words of `d` emits `d`, whatever bits follow.
proof fn lemma_decode_words(
    dt: Map<u16, u8>,
    codes: Seq<Option<Code>>,
    d: Seq<u8>,
    tail: Seq<bool>,
    out: Seq<u8>,
)
    requires
        codes_ok(codes),
        decodes(dt, codes),
        forall|i: int| 0 <= i < d.len() ==> codes[(#[trigger] d[i]) as int] is Some,
    ensures
        decode_run(dt, encode_bits(codes, d) + tail, seq![], out) == decode_run(dt, tail, seq![], out + d),
    decreases d.len(),
{
    if d.len() == 0 {
        assert(out + d =~= out);
        assert(encode_bits(codes, d) + tail =~= tail);
    } else {
        let x = d[0];
        lemma_encode_bits_front(codes, d);
        let p = code_bits(codes[x as int].unwrap());
        let rest = encode_bits(codes, d.drop_first());
        assert(p.skip(0) =~= p);
        assert(p.take(0) =~= Seq::<bool>::empty());
        assert(encode_bits(codes, d) + tail =~= p.skip(0) + (rest + tail));
        lemma_decode_word(dt, codes, x, 0, rest + tail, out);
        assert forall|i: int| 0 <= i < d.drop_first().len() implies codes[(#[trigger] d.drop_first()[i]) as int] is Some by {
            assert(d.drop_first()[i] == d[i + 1]);
        }
        lemma_decode_words(dt, codes, d.drop_first(), tail, out.push(x));
        assert(out.push(x) + d.drop_first() =~= out + d);
    }
}

/// Decoding a proper, non-empty beginning of a code word ends with bits left
/// in the accumulator: a corrupt payload.
proof fn lemma_decode_cut(
    dt: Map<u16, u8>,
    codes: Seq<Option<Code>>,
    x: u8,
    k: int,
    j: int,
    out: Seq<u8>,
)
    requires
        codes_ok(codes),
        decodes(dt, codes),
        codes[x as int] is Some,
        0 < k < code_bits(codes[x as int].unwrap()).len(),
        0 <= j <= k,
    ensures
        ({
            let q = code_bits(codes[x as int].unwrap()).take(k);
            decode_run(dt, q.skip(j), q.take(j), out) == Err::<Seq<u8>, DecodeError>(DecodeError::Corrupt)
        }),
    decreases k - j,
{
    let cx = codes[x as int].unwrap();
    let p = code_bits(cx);
    let q = p.take(k);
    if j < k {
        let bits = q.skip(j);
        let a = q.take(j).push(bits[0]);
        assert(a =~= q.take(j + 1));
        assert(a =~= p.take(j + 1));
        assert(bits.drop_first() =~= q.skip(j + 1));
        if dt.contains_key(acc_key(a)) {
            let b = choose|b: u8| (#[trigger] codes[b as int]) is Some && key_of(codes[b as int].unwrap()) == acc_key(a);
            let cb = codes[b as int].unwrap();
            lemma_key(cb);
            lemma_key(cx);
            lemma_acc_key_injective(code_bits(cb), a);
            assert(is_prefix(code_bits(cb), p));
            assert(false);
        }
        lemma_key(cx);
        lemma_decode_cut(dt, codes, x, k, j + 1, out);
    } else {
        assert(q.skip(j).len() == 0);
    }
}

/// The payload of a packed stream whose padding completes it to whole bytes
/// is the bits that were packed.
proof fn lemma_stream(body: Seq<u8>, bits: Seq<bool>)
    requires
        bytes_to_bits(body) == bits + zeros(padding_for(bits.len())),
    ensures
        stream_bits(body, padding_for(bits.len()) as u8) == bits,
{
    lemma_bytes_to_bits_len(body);
    if body.len() > 0 {
        assert(bytes_to_bits(body).take(bits.len() as int) =~= bits);
    } else {
        assert(bits =~= Seq::<bool>::empty());
    }
}

/// The code table of encodable data decodes unambiguously, has a code for
/// each of its bytes, and the header's entries give a decode table that holds
/// exactly its codes.
proof fn lemma_codes_of(data: Seq<u8>)
    requires
        data.len() <= u32::MAX,
        encodable(data),
    ensures
        codes_ok(table_of(data)),
        forall|i: int| 0 <= i < data.len() ==> table_of(data)[(#[trigger] data[i]) as int] is Some,
        decodes(
            decode_table_of(table_entries(table_of(data), 256), table_entries(table_of(data), 256).len()),
            table_of(data),
        ),
{
    let codes = table_of(data);
    assert forall|i: int| 0 <= i < data.len() implies codes[(#[trigger] data[i]) as int] is Some by {
        lemma_tree_of(data);
        lemma_count_pos(data, i);
        lemma_code_len(tree_of(data), data[i]);
    }
    assert(codes_ok(codes)) by {
        if data.len() > 0 {
            lemma_tree_of(data);
            let t = tree_of(data);
            assert forall|b: u8| (#[trigger] codes[b as int]) is Some implies 1 <= codes[b as int].unwrap().length <= 8 by {
                lemma_code_len(t, b);
            }
            assert forall|a: u8, b: u8|
                a != b && (#[trigger] codes[a as int]) is Some && (#[trigger] codes[b as int]) is Some
                    implies !is_prefix(code_bits(codes[a as int].unwrap()), code_bits(codes[b as int].unwrap())) by {
                lemma_codes_prefix_free(t, a, b);
                lemma_code_len(t, a);
                lemma_code_len(t, b);
                lemma_pack(code_of(t, a).unwrap());
                lemma_pack(code_of(t, b).unwrap());
            }
        }
    }
    lemma_decode_table(codes, 256);
}

/// Decoding the encoding of any byte sequence whose codes fit the format
/// gives that byte sequence back.
pub proof fn lemma_round_trip(data: Seq<u8>, out: Seq<u8>)
    requires
        data.len() <= u32::MAX,
        encodable(data),
        is_encoding_of(out, data),
    ensures
        decode_spec(out) == Ok::<Seq<u8>, DecodeError>(data),
{
    let codes = table_of(data);
    let bits = payload_of(data);
    let pad = padding_for(bits.len());
    assert(pad < 8) by {
        assert((8 - bits.len() % 8) % 8 < 8);
    }
    lemma_codes_of(data);
    let h = header_of(data);
    lemma_header(codes, pad as u8, out);
    let body = out.skip(h.len() as int);
    lemma_stream(body, bits);
    let te = table_entries(codes, 256);
    let dt = decode_table_of(te, te.len());
    lemma_decode_words(dt, codes, data, seq![], seq![]);
    assert(bits + Seq::<bool>::empty() =~= bits);
    assert(Seq::<u8>::empty() + data =~= data);
}

/// A payload that stops inside a code word is reported as corrupt: under the
/// decode table of an encoding of `data`, the code words of the first `i`
/// bytes followed by the first `k` bits of the code word of byte `i`, with
/// `k` neither zero nor the whole word, decode to `Corrupt`.
pub proof fn lemma_cut_payload(data: Seq<u8>, out: Seq<u8>, i: int, k: int)
    requires
        data.len() <= u32::MAX,
        encodable(data),
        is_encoding_of(out, data),
        0 <= i < data.len(),
        0 < k < code_bits(table_of(data)[data[i] as int].unwrap()).len(),
    ensures
        decode_run(
            decode_table_of(entries_of(out), entries_of(out).len()),
            encode_bits(table_of(data), data.take(i)) + code_bits(table_of(data)[data[i] as int].unwrap()).take(k),
            seq![],
            seq![],
        ) == Err::<Seq<u8>, DecodeError>(DecodeError::Corrupt),
{
    let codes = table_of(data);
    let bits = payload_of(data);
    let pad = padding_for(bits.len());
    assert(pad < 8) by {
        assert((8 - bits.len() % 8) % 8 < 8);
    }
    lemma_codes_of(data);
    lemma_header(codes, pad as u8, out);
    let te = table_entries(codes, 256);
    let dt = decode_table_of(te, te.len());
    let d = data.take(i);
    assert forall|m: int| 0 <= m < d.len() implies codes[(#[trigger] d[m]) as int] is Some by {
        assert(d[m] == data[m]);
    }
    let x = data[i];
    let q = code_bits(codes[x as int].unwrap()).take(k);
    lemma_decode_words(dt, codes, d, q, seq![]);
    lemma_decode_cut(dt, codes, x, k, 0, seq![] + d);
    assert(q.skip(0) =~= q);
    assert(q.take(0) =~= Seq::<bool>::empty());
}

/// The bits of the first `m` bytes are the first `8 * m` bits.
proof fn lemma_bytes_to_bits_take(s: Seq<u8>, m: int)
    requires
        0 <= m <= s.len(),
    ensures
        bytes_to_bits(s.take(m)) == bytes_to_bits(s).take(8 * m),
{
    lemma_bytes_to_bits_len(s);
    lemma_bytes_to_bits_len(s.take(m));
    assert forall|i: int| 0 <= i < 8 * m implies bytes_to_bits(s.take(m))[i] == #[trigger] bytes_to_bits(s)[i] by {
        let p = i / 8;
        let k = i % 8;
        assert(i == 8 * p + k);
        lemma_bytes_to_bits_index(s.take(m), p, k);
        lemma_bytes_to_bits_index(s, p, k);
    }
    assert(bytes_to_bits(s.take(m)) =~= bytes_to_bits(s).take(8 * m));
}

/// Any proper beginning of the code words of `d` is the code words of its
/// first `i` bytes followed by a proper beginning of the code word of byte `i`.
proof fn lemma_split_prefix(codes: Seq<Option<Code>>, d: Seq<u8>, n: int)
    requires
        0 <= n < encode_bits(codes, d).len(),
    ensures
        exists|i: int, k: int|
            0 <= i < d.len() && 0 <= k < code_bits(codes[d[i] as int].unwrap()).len()
                && #[trigger] encode_bits(codes, d).take(n) == encode_bits(codes, d.take(i)) + code_bits(
                codes[d[i] as int].unwrap(),
            ).take(k),
    decreases d.len(),
{
    let e = encode_bits(codes, d.drop_last());
    let c = code_bits(codes[d.last() as int].unwrap());
    let i = d.len() - 1;
    assert(d.take(i) =~= d.drop_last());
    if n >= e.len() {
        let k = n - e.len();
        assert(encode_bits(codes, d).take(n) =~= encode_bits(codes, d.take(i)) + c.take(k));
    } else {
        lemma_split_prefix(codes, d.drop_last(), n);
        let (i2, k2) = choose|i2: int, k2: int|
            0 <= i2 < d.drop_last().len() && 0 <= k2 < code_bits(codes[d.drop_last()[i2] as int].unwrap()).len()
                && #[trigger] encode_bits(codes, d.drop_last()).take(n) == encode_bits(codes, d.drop_last().take(i2)) + code_bits(
                codes[d.drop_last()[i2] as int].unwrap(),
            ).take(k2);
        assert(d.drop_last().take(i2) =~= d.take(i2));
        assert(d.drop_last()[i2] == d[i2]);
        assert(encode_bits(codes, d).take(n) =~= e.take(n));
    }
}

/// Dropping trailing payload bytes from an encoding never yields wrong
/// bytes: the shortened file decodes either to `Corrupt` or to a strict
/// prefix of the data.
pub proof fn lemma_truncated(data: Seq<u8>, out: Seq<u8>, m: int)
    requires
        data.len() <= u32::MAX,
        encodable(data),
        is_encoding_of(out, data),
        0 <= m < out.len() - header_of(data).len(),
    ensures
        decode_spec(out.take(header_of(data).len() + m)) == Err::<Seq<u8>, DecodeError>(DecodeError::Corrupt)
            || exists|i: int|
            0 <= i < data.len() && decode_spec(out.take(header_of(data).len() + m)) == Ok::<
                Seq<u8>,
                DecodeError,
            >(#[trigger] data.take(i)),
{
    let codes = table_of(data);
    let bits = payload_of(data);
    let pad = padding_for(bits.len());
    assert(pad < 8) by {
        assert((8 - bits.len() % 8) % 8 < 8);
    }
    lemma_codes_of(data);
    let h = header_of(data);
    let cut = out.take(h.len() + m);
    assert(cut.take(h.len() as int) =~= out.take(h.len() as int));
    lemma_header(codes, pad as u8, cut);
    let body = out.skip(h.len() as int);
    let short = cut.skip(h.len() as int);
    assert(short =~= body.take(m));
    lemma_bytes_to_bits_len(body);
    lemma_bytes_to_bits_take(body, m);
    let n: int = if m == 0 { 0 } else { 8 * m - pad };
    assert(stream_bits(short, pad as u8) =~= bits.take(n));
    assert(n < bits.len());
    lemma_split_prefix(codes, data, n);
    let (i, k) = choose|i: int, k: int|
        0 <= i < data.len() && 0 <= k < code_bits(codes[data[i] as int].unwrap()).len()
            && #[trigger] encode_bits(codes, data).take(n) == encode_bits(codes, data.take(i)) + code_bits(
            codes[data[i] as int].unwrap(),
        ).take(k);
    let te = table_entries(codes, 256);
    let dt = decode_table_of(te, te.len());
    let d = data.take(i);
    assert forall|j: int| 0 <= j < d.len() implies codes[(#[trigger] d[j]) as int] is Some by {
        assert(d[j] == data[j]);
    }
    let q = code_bits(codes[data[i] as int].unwrap()).take(k);
    lemma_decode_words(dt, codes, d, q, seq![]);
    assert(Seq::<u8>::empty() + d =~= d);
    if k == 0 {
        assert(q =~= Seq::<bool>::empty());
    } else {
        lemma_decode_cut(dt, codes, data[i], k, 0, d);
        assert(q.skip(0) =~= q);
        assert(q.take(0) =~= Seq::<bool>::empty());
    }
}

} // verus!
