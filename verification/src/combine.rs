//! The combiners: the per-chunk hashes of a long input folded into one byte,
//! by XOR or by addition modulo 256.

use crate::chunks::{lemma_split_short, split, Chunks};
use crate::hash::pearson;
use crate::table::SubstitutionTable;
use vstd::multiset::Multiset;
use vstd::prelude::*;
use vstd::seq_lib::{to_multiset_contains, to_multiset_len, to_multiset_remove};

verus! {

/// The XOR of all of `hashes`, starting from 0.
pub open spec fn xor_fold(hashes: Seq<u8>) -> u8
    decreases hashes.len(),
{
    if hashes.len() == 0 {
        0
    } else {
        xor_fold(hashes.drop_last()) ^ hashes.last()
    }
}

/// The sum of all of `hashes` modulo 256, starting from 0.
pub open spec fn sum_fold(hashes: Seq<u8>) -> u8
    decreases hashes.len(),
{
    if hashes.len() == 0 {
        0
    } else {
        sum_fold(hashes.drop_last()).wrapping_add(hashes.last())
    }
}

/// The sum of all of `hashes`, as an integer.
pub open spec fn total(hashes: Seq<u8>) -> int
    decreases hashes.len(),
{
    if hashes.len() == 0 {
        0
    } else {
        total(hashes.drop_last()) + hashes.last()
    }
}

/// The base hash of every chunk, in the chunks' order.
pub open spec fn chunk_hashes(table: Seq<u8>, chunks: Seq<Seq<u8>>) -> Seq<u8> {
    chunks.map_values(|chunk: Seq<u8>| pearson(table, chunk))
}

/// The XOR-combined hash of `bytes` under `table`.
pub open spec fn xor_hash(table: Seq<u8>, bytes: Seq<u8>) -> u8 {
    xor_fold(chunk_hashes(table, split(bytes)))
}

/// The sum-combined hash of `bytes` under `table`.
pub open spec fn sum_hash(table: Seq<u8>, bytes: Seq<u8>) -> u8 {
    sum_fold(chunk_hashes(table, split(bytes)))
}

/// Where two sequences hold the same items the same number of times, the
/// last item of the first occurs in the second; the result is a place
/// where it does.
proof fn lemma_occurs_in_both<A>(items_a: Seq<A>, items_b: Seq<A>) -> (i: int)
    requires
        items_a.len() > 0,
        items_a.to_multiset() == items_b.to_multiset(),
    ensures
        0 <= i < items_b.len(),
        items_b[i] == items_a.last(),
{
    let last = items_a.last();
    assert(items_a[items_a.len() - 1] == last);
    assert(items_a.contains(last));
    to_multiset_contains(items_a, last);
    to_multiset_contains(items_b, last);
    assert(items_b.contains(last));
    choose|i: int| 0 <= i < items_b.len() && items_b[i] == last
}

/// Two multisets that both hold `item`, and are equal once one `item` is
/// taken out of each, are equal.
proof fn lemma_put_back<A>(items_a: Multiset<A>, items_b: Multiset<A>, item: A)
    requires
        items_a.count(item) > 0,
        items_b.count(item) > 0,
        items_a.remove(item) == items_b.remove(item),
    ensures
        items_a == items_b,
{
    broadcast use vstd::multiset::group_multiset_axioms;

    let one = Multiset::singleton(item);
    assert forall|x: A| items_a.count(x) == items_b.count(x) by {
        assert(one.count(x) == if x == item { 1nat } else { 0nat });
        assert(items_a.sub(one).count(x) == items_b.sub(one).count(x));
    }
    assert(items_a =~= items_b);
}

/// Taking one hash out of the XOR fold and putting it back at the end
/// does not change the result.
proof fn lemma_xor_fold_remove(hashes: Seq<u8>, i: int)
    requires
        0 <= i < hashes.len(),
    ensures
        xor_fold(hashes) == xor_fold(hashes.remove(i)) ^ hashes[i],
    decreases hashes.len(),
{
    if i == hashes.len() - 1 {
        assert(hashes.remove(i) =~= hashes.drop_last());
    } else {
        let front = hashes.drop_last();
        lemma_xor_fold_remove(front, i);
        assert(hashes.remove(i).drop_last() =~= front.remove(i));
        let rest = xor_fold(front.remove(i));
        let a = hashes[i];
        let b = hashes.last();
        assert((rest ^ a) ^ b == (rest ^ b) ^ a) by (bit_vector);
    }
}

/// Taking one hash out of the sum fold and putting it back at the end
/// does not change the result.
proof fn lemma_sum_fold_remove(hashes: Seq<u8>, i: int)
    requires
        0 <= i < hashes.len(),
    ensures
        sum_fold(hashes) == sum_fold(hashes.remove(i)).wrapping_add(hashes[i]),
    decreases hashes.len(),
{
    if i == hashes.len() - 1 {
        assert(hashes.remove(i) =~= hashes.drop_last());
    } else {
        let front = hashes.drop_last();
        lemma_sum_fold_remove(front, i);
        assert(hashes.remove(i).drop_last() =~= front.remove(i));
    }
}

/// The XOR fold does not depend on the order of the hashes: two sequences
/// that hold the same hashes the same number of times fold to one byte.
pub proof fn lemma_xor_fold_any_order(hashes_a: Seq<u8>, hashes_b: Seq<u8>)
    requires
        hashes_a.to_multiset() == hashes_b.to_multiset(),
    ensures
        xor_fold(hashes_a) == xor_fold(hashes_b),
    decreases hashes_a.len(),
{
    to_multiset_len(hashes_a);
    to_multiset_len(hashes_b);
    if hashes_a.len() > 0 {
        let i = lemma_occurs_in_both(hashes_a, hashes_b);
        to_multiset_remove(hashes_a, hashes_a.len() - 1);
        to_multiset_remove(hashes_b, i);
        assert(hashes_a.remove(hashes_a.len() - 1) =~= hashes_a.drop_last());
        lemma_xor_fold_any_order(hashes_a.drop_last(), hashes_b.remove(i));
        lemma_xor_fold_remove(hashes_b, i);
    }
}

/// The sum fold does not depend on the order of the hashes: two sequences
/// that hold the same hashes the same number of times fold to one byte.
pub proof fn lemma_sum_fold_any_order(hashes_a: Seq<u8>, hashes_b: Seq<u8>)
    requires
        hashes_a.to_multiset() == hashes_b.to_multiset(),
    ensures
        sum_fold(hashes_a) == sum_fold(hashes_b),
    decreases hashes_a.len(),
{
    to_multiset_len(hashes_a);
    to_multiset_len(hashes_b);
    if hashes_a.len() > 0 {
        let i = lemma_occurs_in_both(hashes_a, hashes_b);
        to_multiset_remove(hashes_a, hashes_a.len() - 1);
        to_multiset_remove(hashes_b, i);
        assert(hashes_a.remove(hashes_a.len() - 1) =~= hashes_a.drop_last());
        lemma_sum_fold_any_order(hashes_a.drop_last(), hashes_b.remove(i));
        lemma_sum_fold_remove(hashes_b, i);
    }
}

/// Reordering chunks reorders their hashes: two chunk lists that hold the
/// same chunks the same number of times have hash lists that do so too.
pub proof fn lemma_chunk_hashes_any_order(
    table: Seq<u8>,
    chunks_a: Seq<Seq<u8>>,
    chunks_b: Seq<Seq<u8>>,
)
    requires
        chunks_a.to_multiset() == chunks_b.to_multiset(),
    ensures
        chunk_hashes(table, chunks_a).to_multiset() == chunk_hashes(table, chunks_b).to_multiset(),
    decreases chunks_a.len(),
{
    to_multiset_len(chunks_a);
    to_multiset_len(chunks_b);
    let hashes_a = chunk_hashes(table, chunks_a);
    let hashes_b = chunk_hashes(table, chunks_b);
    if chunks_a.len() == 0 {
        assert(hashes_a =~= hashes_b);
    } else {
        let n = chunks_a.len() - 1;
        let i = lemma_occurs_in_both(chunks_a, chunks_b);
        to_multiset_remove(chunks_a, n);
        to_multiset_remove(chunks_b, i);
        assert(chunks_a.remove(n) =~= chunks_a.drop_last());
        lemma_chunk_hashes_any_order(table, chunks_a.drop_last(), chunks_b.remove(i));
        let rest_a = chunk_hashes(table, chunks_a.drop_last());
        let rest_b = chunk_hashes(table, chunks_b.remove(i));
        assert(hashes_a.remove(n) =~= rest_a);
        assert(hashes_b.remove(i) =~= rest_b);
        assert(hashes_a[n] == hashes_b[i]);
        to_multiset_remove(hashes_a, n);
        to_multiset_remove(hashes_b, i);
        to_multiset_contains(hashes_a, hashes_a[n]);
        to_multiset_contains(hashes_b, hashes_b[i]);
        assert(hashes_a.contains(hashes_a[n]));
        assert(hashes_b.contains(hashes_b[i]));
        lemma_put_back(hashes_a.to_multiset(), hashes_b.to_multiset(), hashes_a[n]);
    }
}

/// Both combiners give the same result for the chunks of an input in any
/// order.
pub proof fn lemma_combiners_ignore_chunk_order(
    table: Seq<u8>,
    chunks_a: Seq<Seq<u8>>,
    chunks_b: Seq<Seq<u8>>,
)
    requires
        chunks_a.to_multiset() == chunks_b.to_multiset(),
    ensures
        xor_fold(chunk_hashes(table, chunks_a)) == xor_fold(chunk_hashes(table, chunks_b)),
        sum_fold(chunk_hashes(table, chunks_a)) == sum_fold(chunk_hashes(table, chunks_b)),
{
    lemma_chunk_hashes_any_order(table, chunks_a, chunks_b);
    lemma_xor_fold_any_order(chunk_hashes(table, chunks_a), chunk_hashes(table, chunks_b));
    lemma_sum_fold_any_order(chunk_hashes(table, chunks_a), chunk_hashes(table, chunks_b));
}

/// For an input of at most 256 bytes both combined hashes are the base
/// hash.
pub proof fn lemma_single_chunk(table: Seq<u8>, bytes: Seq<u8>)
    requires
        bytes.len() <= 256,
    ensures
        xor_hash(table, bytes) == pearson(table, bytes),
        sum_hash(table, bytes) == pearson(table, bytes),
{
    let hashes = chunk_hashes(table, split(bytes));
    if bytes.len() == 0 {
        assert(hashes.len() == 0);
    } else {
        lemma_split_short(bytes);
        let hash = pearson(table, bytes);
        assert(hashes =~= seq![hash]);
        assert(xor_fold(hashes.drop_last()) == 0);
        assert(sum_fold(hashes.drop_last()) == 0);
        assert(0u8 ^ hash == hash) by (bit_vector);
    }
}

/// The sum fold is the sum of the hashes modulo 256.
pub proof fn lemma_sum_fold_is_total_mod_256(hashes: Seq<u8>)
    ensures
        sum_fold(hashes) == total(hashes) % 256,
    decreases hashes.len(),
{
    if hashes.len() > 0 {
        lemma_sum_fold_is_total_mod_256(hashes.drop_last());
    }
}

/// For an input of more than 256 and at most 512 bytes the combined hashes
/// are the base hash of the first 256 bytes and the base hash of the rest,
/// combined by XOR or by addition modulo 256.
pub proof fn lemma_two_chunks(table: Seq<u8>, bytes: Seq<u8>)
    requires
        256 < bytes.len() <= 512,
    ensures
        xor_hash(table, bytes) == pearson(table, bytes.take(256)) ^ pearson(
            table,
            bytes.skip(256),
        ),
        sum_hash(table, bytes) == (pearson(table, bytes.take(256)) + pearson(
            table,
            bytes.skip(256),
        )) % 256,
{
    let first = pearson(table, bytes.take(256));
    let rest = pearson(table, bytes.skip(256));
    let hashes = chunk_hashes(table, split(bytes));
    assert(split(bytes)[0] =~= bytes.take(256));
    assert(split(bytes)[1] =~= bytes.skip(256));
    assert(hashes =~= seq![first, rest]);
    assert(hashes.drop_last() =~= seq![first]);
    assert(hashes.drop_last().drop_last() =~= Seq::<u8>::empty());
    assert(xor_fold(hashes.drop_last().drop_last()) == 0);
    assert(xor_fold(hashes.drop_last()) == 0u8 ^ first);
    assert(sum_fold(hashes.drop_last().drop_last()) == 0);
    assert(sum_fold(hashes.drop_last()) == first);
    assert(0u8 ^ first == first) by (bit_vector);
}

/// The XOR combiner: folds per-chunk hashes into one byte by XOR.
pub fn combine_xor(hashes: &[u8]) -> (combined: u8)
    ensures
        combined == xor_fold(hashes@),
{
    let mut acc: u8 = 0;
    let mut k: usize = 0;
    while k < hashes.len()
        invariant
            k <= hashes@.len(),
            acc == xor_fold(hashes@.take(k as int)),
        decreases hashes@.len() - k,
    {
        proof {
            assert(hashes@.take(k + 1).drop_last() =~= hashes@.take(k as int));
        }
        acc = acc ^ hashes[k];
        k += 1;
    }
    assert(hashes@.take(k as int) =~= hashes@);
    acc
}

/// The additive combiner: folds per-chunk hashes into one byte by addition
/// modulo 256.
pub fn combine_sum(hashes: &[u8]) -> (combined: u8)
    ensures
        combined == sum_fold(hashes@),
{
    let mut acc: u8 = 0;
    let mut k: usize = 0;
    while k < hashes.len()
        invariant
            k <= hashes@.len(),
            acc == sum_fold(hashes@.take(k as int)),
        decreases hashes@.len() - k,
    {
        proof {
            assert(hashes@.take(k + 1).drop_last() =~= hashes@.take(k as int));
        }
        acc = acc.wrapping_add(hashes[k]);
        k += 1;
    }
    assert(hashes@.take(k as int) =~= hashes@);
    acc
}

impl SubstitutionTable {
    /// The hash of an input of any length: the base hashes of its chunks,
    /// combined by XOR. For an input of at most 256 bytes this is the base
    /// hash.
    pub fn hash_xor(&self, bytes: &[u8]) -> (hash: u8)
        ensures
            hash == xor_hash(self@, bytes@),
            bytes@.len() <= 256 ==> hash == pearson(self@, bytes@),
    {
        let mut chunks = Chunks::new(bytes);
        let mut acc: u8 = 0;
        loop
            invariant
                chunks.input() == bytes@,
                chunks.position() <= split(bytes@).len(),
                acc == xor_fold(
                    chunk_hashes(self@, split(bytes@)).take(chunks.position() as int),
                ),
            ensures
                chunks.position() == split(bytes@).len(),
            decreases split(bytes@).len() - chunks.position(),
        {
            let ghost done = chunks.position() as int;
            match chunks.next_chunk() {
                Some(chunk) => {
                    proof {
                        let hashes = chunk_hashes(self@, split(bytes@));
                        assert(hashes.take(done + 1).drop_last() =~= hashes.take(done));
                    }
                    acc = acc ^ self.base_hash(chunk);
                },
                None => {
                    break ;
                },
            }
        }
        proof {
            let hashes = chunk_hashes(self@, split(bytes@));
            assert(hashes.take(hashes.len() as int) =~= hashes);
            if bytes@.len() <= 256 {
                lemma_single_chunk(self@, bytes@);
            }
        }
        acc
    }

    /// The hash of an input of any length: the base hashes of its chunks,
    /// combined by addition modulo 256. For an input of at most 256 bytes
    /// this is the base hash.
    pub fn hash_sum(&self, bytes: &[u8]) -> (hash: u8)
        ensures
            hash == sum_hash(self@, bytes@),
            bytes@.len() <= 256 ==> hash == pearson(self@, bytes@),
    {
        let mut chunks = Chunks::new(bytes);
        let mut acc: u8 = 0;
        loop
            invariant
                chunks.input() == bytes@,
                chunks.position() <= split(bytes@).len(),
                acc == sum_fold(
                    chunk_hashes(self@, split(bytes@)).take(chunks.position() as int),
                ),
            ensures
                chunks.position() == split(bytes@).len(),
            decreases split(bytes@).len() - chunks.position(),
        {
            let ghost done = chunks.position() as int;
            match chunks.next_chunk() {
                Some(chunk) => {
                    proof {
                        let hashes = chunk_hashes(self@, split(bytes@));
                        assert(hashes.take(done + 1).drop_last() =~= hashes.take(done));
                    }
                    acc = acc.wrapping_add(self.base_hash(chunk));
                },
                None => {
                    break ;
                },
            }
        }
        proof {
            let hashes = chunk_hashes(self@, split(bytes@));
            assert(hashes.take(hashes.len() as int) =~= hashes);
            if bytes@.len() <= 256 {
                lemma_single_chunk(self@, bytes@);
            }
        }
        acc
    }
}

} // verus!
