//! The base hash: one table lookup per input byte.

use crate::table::{is_permutation, SubstitutionTable};
use vstd::prelude::*;

verus! {

/// The accumulator after one more byte: the table's entry at
/// `acc XOR byte`.
pub open spec fn step(table: Seq<u8>, acc: u8, byte: u8) -> u8
    recommends
        table.len() == 256,
{
    table[(acc ^ byte) as int]
}

/// The Pearson hash of `bytes` under `table`: the accumulator starts at 0
/// and takes one step for every byte, in order.
pub open spec fn pearson(table: Seq<u8>, bytes: Seq<u8>) -> u8
    recommends
        table.len() == 256,
    decreases bytes.len(),
{
    if bytes.len() == 0 {
        0
    } else {
        step(table, pearson(table, bytes.drop_last()), bytes.last())
    }
}

/// The base hash is a function of the table's and the input's contents:
/// tables that agree entry by entry and inputs that agree byte by byte have
/// one hash.
pub proof fn lemma_pearson_deterministic(
    table_a: Seq<u8>,
    table_b: Seq<u8>,
    bytes_a: Seq<u8>,
    bytes_b: Seq<u8>,
)
    requires
        table_a.len() == table_b.len(),
        forall|i: int| 0 <= i < table_a.len() ==> table_a[i] == table_b[i],
        bytes_a.len() == bytes_b.len(),
        forall|i: int| 0 <= i < bytes_a.len() ==> bytes_a[i] == bytes_b[i],
    ensures
        pearson(table_a, bytes_a) == pearson(table_b, bytes_b),
{
    assert(table_a =~= table_b);
    assert(bytes_a =~= bytes_b);
}

/// Under a permutation, two bytes that differ lead one accumulator to
/// accumulators that differ.
pub proof fn lemma_step_separates_bytes(table: Seq<u8>, acc: u8, byte_a: u8, byte_b: u8)
    requires
        is_permutation(table),
        byte_a != byte_b,
    ensures
        step(table, acc, byte_a) != step(table, acc, byte_b),
{
    assert(acc ^ byte_a != acc ^ byte_b) by (bit_vector)
        requires
            byte_a != byte_b,
    ;
}

/// Under a permutation, one byte leads two accumulators that differ to
/// accumulators that differ.
pub proof fn lemma_step_separates_accumulators(table: Seq<u8>, acc_a: u8, acc_b: u8, byte: u8)
    requires
        is_permutation(table),
        acc_a != acc_b,
    ensures
        step(table, acc_a, byte) != step(table, acc_b, byte),
{
    assert(acc_a ^ byte != acc_b ^ byte) by (bit_vector)
        requires
            acc_a != acc_b,
    ;
}

/// Under a permutation, changing exactly one byte of an input changes its
/// hash.
pub proof fn lemma_one_byte_changes_hash(table: Seq<u8>, bytes_a: Seq<u8>, bytes_b: Seq<u8>, at: int)
    requires
        is_permutation(table),
        bytes_a.len() == bytes_b.len(),
        0 <= at < bytes_a.len(),
        bytes_a[at] != bytes_b[at],
        forall|i: int| 0 <= i < bytes_a.len() && i != at ==> bytes_a[i] == bytes_b[i],
    ensures
        pearson(table, bytes_a) != pearson(table, bytes_b),
    decreases bytes_a.len(),
{
    let front_a = bytes_a.drop_last();
    let front_b = bytes_b.drop_last();
    if at == bytes_a.len() - 1 {
        assert(front_a =~= front_b);
        lemma_step_separates_bytes(table, pearson(table, front_a), bytes_a.last(), bytes_b.last());
    } else {
        lemma_one_byte_changes_hash(table, front_a, front_b, at);
        lemma_step_separates_accumulators(
            table,
            pearson(table, front_a),
            pearson(table, front_b),
            bytes_a.last(),
        );
    }
}

impl SubstitutionTable {
    /// One step of the hash: the entry at `acc XOR byte`.
    pub fn step(&self, acc: u8, byte: u8) -> (next: u8)
        ensures
            next == step(self@, acc, byte),
    {
        self.lookup(acc ^ byte)
    }

    /// The Pearson hash of `bytes` under this table. The empty input
    /// hashes to 0. An input of more than 256 bytes is hashed in the same
    /// way, byte by byte; `hash_xor` and `hash_sum` split such an input into
    /// chunks instead.
    pub fn base_hash(&self, bytes: &[u8]) -> (hash: u8)
        ensures
            hash == pearson(self@, bytes@),
            bytes@.len() == 0 ==> hash == 0,
    {
        let mut acc: u8 = 0;
        let mut k: usize = 0;
        while k < bytes.len()
            invariant
                k <= bytes@.len(),
                acc == pearson(self@, bytes@.take(k as int)),
            decreases bytes@.len() - k,
        {
            proof {
                assert(bytes@.take(k + 1).drop_last() =~= bytes@.take(k as int));
            }
            acc = self.step(acc, bytes[k]);
            k += 1;
        }
        assert(bytes@.take(k as int) =~= bytes@);
        acc
    }
}

} // verus!
