use vstd::prelude::*;

verus! {

/// Number of occurrences of `b` in `s`.
pub open spec fn count(s: Seq<u8>, b: u8) -> nat
    decreases s.len(),
{
    if s.len() == 0 {
        0
    } else {
        count(s.drop_last(), b) + if s.last() == b { 1nat } else { 0nat }
    }
}

/// The frequency entries for byte values below `n`, in increasing byte order,
/// holding only the bytes that occur.
pub open spec fn entries_below(s: Seq<u8>, n: nat) -> Seq<(u8, u32)>
    decreases n,
{
    if n == 0 {
        seq![]
    } else {
        let b = (n - 1) as u8;
        let rest = entries_below(s, (n - 1) as nat);
        if count(s, b) > 0 {
            rest.push((b, count(s, b) as u32))
        } else {
            rest
        }
    }
}

/// The frequency table of `s`: one `(byte, count)` entry per byte value that
/// occurs, in increasing byte order.
pub open spec fn frequency_table(s: Seq<u8>) -> Seq<(u8, u32)> {
    entries_below(s, 256)
}

/// No byte occurs more often than the sequence is long.
pub proof fn lemma_count_bound(s: Seq<u8>, b: u8)
    ensures
        count(s, b) <= s.len(),
    decreases s.len(),
{
    if s.len() > 0 {
        lemma_count_bound(s.drop_last(), b);
    }
}

/// Counts the occurrences of every byte value; the result has one slot per
/// byte value.
pub fn count_bytes(data: &Vec<u8>) -> (r: Vec<u32>)
    requires
        data@.len() <= u32::MAX,
    ensures
        r@.len() == 256,
        forall|b: u8| #[trigger] r@[b as int] == count(data@, b),
{
    let mut counts: Vec<u32> = Vec::new();
    let mut k: usize = 0;
    while k < 256
        invariant
            k <= 256,
            counts@.len() == k,
            forall|j: int| 0 <= j < k ==> counts@[j] == 0,
        decreases 256 - k,
    {
        counts.push(0);
        k = k + 1;
    }
    let mut i: usize = 0;
    while i < data.len()
        invariant
            i <= data@.len(),
            data@.len() <= u32::MAX,
            counts@.len() == 256,
            forall|b: u8| #[trigger] counts@[b as int] == count(data@.take(i as int), b),
        decreases data@.len() - i,
    {
        let byte = data[i];
        proof {
            assert(data@.take(i + 1).drop_last() =~= data@.take(i as int));
            lemma_count_bound(data@.take(i as int), byte);
        }
        let c = counts[byte as usize];
        counts.set(byte as usize, c + 1);
        i = i + 1;
        assert forall|b: u8| #[trigger] counts@[b as int] == count(data@.take(i as int), b) by {
            assert(data@.take(i as int).drop_last() =~= data@.take(i - 1));
        }
    }
    assert(data@.take(data@.len() as int) =~= data@);
    counts
}

/// Builds the frequency table of `data`: the byte values that occur, each
/// with its count, in increasing byte order. Absent bytes have no entry.
pub fn calculate_frequencies(data: &Vec<u8>) -> (r: Vec<(u8, u32)>)
    requires
        data@.len() <= u32::MAX,
    ensures
        r@ == frequency_table(data@),
{
    let counts = count_bytes(data);
    let mut table: Vec<(u8, u32)> = Vec::new();
    let mut b: usize = 0;
    while b < 256
        invariant
            b <= 256,
            counts@.len() == 256,
            forall|x: u8| #[trigger] counts@[x as int] == count(data@, x),
            table@ == entries_below(data@, b as nat),
        decreases 256 - b,
    {
        let c = counts[b];
        proof {
            lemma_count_bound(data@, b as u8);
            assert(counts@[(b as u8) as int] == count(data@, b as u8));
        }
        if c > 0 {
            table.push((b as u8, c));
        }
        b = b + 1;
    }
    table
}

} // verus!
