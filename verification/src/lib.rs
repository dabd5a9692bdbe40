//! Pearson hashing: a table-driven hash that reduces a byte sequence to one
//! byte, with two ways of extending it to inputs longer than 256 bytes.

pub mod chunks;
pub mod combine;
pub mod hash;
pub mod table;

use crate::combine::{sum_hash, xor_hash};
use crate::hash::pearson;
use crate::table::{default_table, SubstitutionTable};
use vstd::prelude::*;

verus! {

/// The Pearson hash of `input` under the default table. The empty input
/// hashes to 0.
pub fn pearson_hash_base(input: &[u8]) -> (hash: u8)
    ensures
        hash == pearson(default_table(), input@),
        input@.len() == 0 ==> hash == 0,
{
    SubstitutionTable::new().base_hash(input)
}

/// The hash of an input of any length under the default table: the base
/// hashes of its chunks of 256 bytes, combined by XOR.
pub fn pearson_hash_wrapper2(input: &[u8]) -> (hash: u8)
    ensures
        hash == xor_hash(default_table(), input@),
        input@.len() <= 256 ==> hash == pearson(default_table(), input@),
{
    SubstitutionTable::new().hash_xor(input)
}

/// The hash of an input of any length under the default table: the base
/// hashes of its chunks of 256 bytes, combined by addition modulo 256.
pub fn pearson_hash_wrapper(input: &[u8]) -> (hash: u8)
    ensures
        hash == sum_hash(default_table(), input@),
        input@.len() <= 256 ==> hash == pearson(default_table(), input@),
{
    SubstitutionTable::new().hash_sum(input)
}

} // verus!
