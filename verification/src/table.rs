//! The substitution table: a permutation of the 256 byte values.

use vstd::prelude::*;
use vstd::seq_lib::seq_to_set_is_finite;
use vstd::set_lib::{lemma_int_range, lemma_subset_equality, set_int_range};

verus! {

/// Number of entries of a substitution table: one for every byte value.
pub const TABLE_LEN: usize = 256;

/// `t` holds every byte value exactly once.
pub open spec fn is_permutation(t: Seq<u8>) -> bool {
    &&& t.len() == TABLE_LEN
    &&& t.no_duplicates()
    &&& forall|v: u8| #[trigger] t.contains(v)
}

/// `t` with the entries at `i` and `j` exchanged.
pub open spec fn swapped(t: Seq<u8>, i: int, j: int) -> Seq<u8> {
    t.update(i, t[j]).update(j, t[i])
}

/// The table that maps every byte to itself.
pub open spec fn identity_table() -> Seq<u8> {
    Seq::new(TABLE_LEN as nat, |i: int| i as u8)
}

/// The identity table is a permutation.
pub proof fn lemma_identity_is_permutation()
    ensures
        is_permutation(identity_table()),
{
    let t = identity_table();
    assert forall|v: u8| #[trigger] t.contains(v) by {
        assert(t[v as int] == v);
    }
}

/// Exchanging two entries of a permutation gives a permutation.
pub proof fn lemma_swap_keeps_permutation(t: Seq<u8>, i: int, j: int)
    requires
        is_permutation(t),
        0 <= i < TABLE_LEN,
        0 <= j < TABLE_LEN,
    ensures
        is_permutation(swapped(t, i, j)),
{
    let s = swapped(t, i, j);
    assert forall|v: u8| #[trigger] s.contains(v) by {
        assert(t.contains(v));
        let k = choose|k: int| 0 <= k < t.len() && t[k] == v;
        let k2 = if k == i { j } else if k == j { i } else { k };
        assert(s[k2] == v);
    }
}

/// 256 distinct bytes hold every byte value.
pub proof fn lemma_distinct_entries_cover_all(t: Seq<u8>)
    requires
        t.len() == TABLE_LEN,
        t.no_duplicates(),
    ensures
        is_permutation(t),
{
    let ints = t.map_values(|b: u8| b as int);
    let all = set_int_range(0, 256);
    assert(ints.no_duplicates());
    ints.unique_seq_to_set();
    seq_to_set_is_finite(ints);
    lemma_int_range(0, 256);
    assert(ints.to_set().subset_of(all)) by {
        assert forall|x: int| ints.to_set().contains(x) implies all.contains(x) by {
            let k = choose|k: int| 0 <= k < ints.len() && ints[k] == x;
            assert(x == t[k] as int);
        }
    }
    lemma_subset_equality(ints.to_set(), all);
    assert forall|v: u8| #[trigger] t.contains(v) by {
        assert(all.contains(v as int));
        assert(ints.contains(v as int));
        let k = choose|k: int| 0 <= k < ints.len() && ints[k] == v as int;
        assert(t[k] == v);
    }
}

/// Multiplier of the linear congruential generator that drives the shuffle.
pub const LCG_MULTIPLIER: u64 = 6364136223846793005;

/// Increment of the linear congruential generator that drives the shuffle.
pub const LCG_INCREMENT: u64 = 1442695040888963407;

/// Seed of the default table.
pub const DEFAULT_SEED: u64 = 0x5045_4152_534f_4e31;

/// The generator's state after `state`: `state * LCG_MULTIPLIER + LCG_INCREMENT`
/// modulo 2^64.
pub open spec fn lcg_next(state: u64) -> u64 {
    state.wrapping_mul(LCG_MULTIPLIER).wrapping_add(LCG_INCREMENT)
}

/// The index below `bound` that `state` selects: its upper 31 bits modulo
/// `bound`.
pub open spec fn lcg_pick(state: u64, bound: int) -> int {
    ((state >> 33) as int) % bound
}

/// The Fisher-Yates shuffle of `t` from position `i` down to position 1:
/// each step advances the generator, picks `j <= i` and exchanges the
/// entries at `i` and `j`.
pub open spec fn shuffled(t: Seq<u8>, state: u64, i: int) -> Seq<u8>
    decreases i,
{
    if i <= 0 {
        t
    } else {
        let next = lcg_next(state);
        shuffled(swapped(t, i, lcg_pick(next, i + 1)), next, i - 1)
    }
}

/// The table that `seed` stands for: the shuffle of the identity table.
pub open spec fn seeded_table(seed: u64) -> Seq<u8> {
    shuffled(identity_table(), seed, TABLE_LEN - 1)
}

/// The table used where the caller names none.
pub open spec fn default_table() -> Seq<u8> {
    seeded_table(DEFAULT_SEED)
}

/// Shuffling a permutation gives a permutation.
pub proof fn lemma_shuffled_is_permutation(t: Seq<u8>, state: u64, i: int)
    requires
        is_permutation(t),
        i < TABLE_LEN,
    ensures
        is_permutation(shuffled(t, state, i)),
    decreases i,
{
    if i > 0 {
        let next = lcg_next(state);
        let j = lcg_pick(next, i + 1);
        lemma_swap_keeps_permutation(t, i, j);
        lemma_shuffled_is_permutation(swapped(t, i, j), next, i - 1);
    }
}

/// Every seed stands for a permutation.
pub proof fn lemma_seeded_table_is_permutation(seed: u64)
    ensures
        is_permutation(seeded_table(seed)),
{
    lemma_identity_is_permutation();
    lemma_shuffled_is_permutation(identity_table(), seed, TABLE_LEN - 1);
}

/// Whether `entries` holds every byte value exactly once.
pub fn check_permutation(entries: &[u8]) -> (ok: bool)
    ensures
        ok == is_permutation(entries@),
{
    if entries.len() != 256 {
        return false;
    }
    let mut seen: [bool; 256] = [false; 256];
    let mut k: usize = 0;
    while k < 256
        invariant
            k <= 256,
            entries@.len() == 256,
            forall|v: int|
                0 <= v < 256 ==> (#[trigger] seen@[v] <==> exists|n: int|
                    0 <= n < k && #[trigger] entries@[n] == v),
            forall|a: int, b: int| 0 <= a < b < k ==> entries@[a] != entries@[b],
        decreases 256 - k,
    {
        let v: usize = entries[k] as usize;
        if seen[v] {
            proof {
                let n = choose|n: int| 0 <= n < k && #[trigger] entries@[n] == v;
                assert(entries@[n] == entries@[k as int]);
            }
            return false;
        }
        seen[v] = true;
        proof {
            assert forall|w: int| 0 <= w < 256 implies (#[trigger] seen@[w] <==> exists|n: int|
                0 <= n < k + 1 && #[trigger] entries@[n] == w) by {
                if w == v {
                    assert(entries@[k as int] == w);
                }
            }
        }
        k += 1;
    }
    proof {
        lemma_distinct_entries_cover_all(entries@);
    }
    true
}

/// A substitution table: 256 bytes that hold every byte value exactly once.
pub struct SubstitutionTable {
    entries: [u8; 256],
}

impl View for SubstitutionTable {
    type V = Seq<u8>;

    closed spec fn view(&self) -> Seq<u8> {
        self.entries@
    }
}

impl SubstitutionTable {
    #[verifier::type_invariant]
    spec fn well_formed(self) -> bool {
        is_permutation(self.entries@)
    }

    /// The default table.
    pub fn new() -> (table: SubstitutionTable)
        ensures
            table@ == default_table(),
            is_permutation(table@),
    {
        SubstitutionTable::with_seed(DEFAULT_SEED)
    }

    /// The table that `seed` stands for.
    pub fn with_seed(seed: u64) -> (table: SubstitutionTable)
        ensures
            table@ == seeded_table(seed),
            is_permutation(table@),
    {
        let mut entries: [u8; 256] = [0u8; 256];
        let mut k: usize = 0;
        while k < 256
            invariant
                k <= 256,
                forall|n: int| 0 <= n < k ==> entries@[n] == n as u8,
            decreases 256 - k,
        {
            entries[k] = k as u8;
            k += 1;
        }
        assert(entries@ =~= identity_table());
        proof {
            lemma_identity_is_permutation();
        }
        let mut state: u64 = seed;
        let mut i: usize = 255;
        while i > 0
            invariant
                i < 256,
                is_permutation(entries@),
                shuffled(entries@, state, i as int) == seeded_table(seed),
            decreases i,
        {
            state = state.wrapping_mul(LCG_MULTIPLIER).wrapping_add(LCG_INCREMENT);
            let j: usize = ((state >> 33) % (i as u64 + 1)) as usize;
            proof {
                lemma_swap_keeps_permutation(entries@, i as int, j as int);
            }
            let at_i: u8 = entries[i];
            let at_j: u8 = entries[j];
            entries[i] = at_j;
            entries[j] = at_i;
            i -= 1;
        }
        SubstitutionTable { entries }
    }

    /// The table with the given entries, where they hold every byte value
    /// exactly once; `None` where they do not.
    pub fn from_entries(entries: &[u8]) -> (table: Option<SubstitutionTable>)
        ensures
            table is Some <==> is_permutation(entries@),
            table matches Some(t) ==> t@ == entries@,
    {
        if !check_permutation(entries) {
            return None;
        }
        let mut copy: [u8; 256] = [0u8; 256];
        let mut k: usize = 0;
        while k < 256
            invariant
                k <= 256,
                entries@.len() == 256,
                forall|n: int| 0 <= n < k ==> copy@[n] == entries@[n],
            decreases 256 - k,
        {
            copy[k] = entries[k];
            k += 1;
        }
        assert(copy@ =~= entries@);
        Some(SubstitutionTable { entries: copy })
    }

    /// The 256 entries, in order.
    pub fn entries(&self) -> (entries: [u8; 256])
        ensures
            entries@ == self@,
            is_permutation(self@),
    {
        proof {
            use_type_invariant(self);
        }
        self.entries
    }

    /// The entry at `index`.
    pub fn lookup(&self, index: u8) -> (entry: u8)
        ensures
            entry == self@[index as int],
    {
        proof {
            use_type_invariant(self);
        }
        self.entries[index as usize]
    }
}

} // verus!
