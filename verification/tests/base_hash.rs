use pearson_hash::pearson_hash_base;
use pearson_hash::table::SubstitutionTable;

fn identity_table() -> SubstitutionTable {
    let entries: Vec<u8> = (0..=255u8).collect();
    SubstitutionTable::from_entries(&entries).expect("the identity is a permutation")
}

fn sample(seed: u64, len: usize) -> Vec<u8> {
    let mut state: u64 = seed;
    let mut bytes: Vec<u8> = Vec::with_capacity(len);
    for _ in 0..len {
        state = state.wrapping_mul(2862933555777941757).wrapping_add(3037000493);
        bytes.push((state >> 56) as u8);
    }
    bytes
}

#[test]
fn base_hash_of_the_empty_input_is_zero() {
    assert_eq!(pearson_hash_base(&[]), 0);
    assert_eq!(SubstitutionTable::new().base_hash(&[]), 0);
    assert_eq!(SubstitutionTable::with_seed(12345).base_hash(&[]), 0);
    assert_eq!(identity_table().base_hash(&[]), 0);
}

#[test]
fn base_hash_of_one_byte_is_the_entry_at_that_byte() {
    let table = SubstitutionTable::new();
    for byte in 0..=255u8 {
        assert_eq!(table.base_hash(&[byte]), table.lookup(byte));
    }
    assert_eq!(pearson_hash_base(b"a"), 131);
}

#[test]
fn step_looks_up_the_xor_of_accumulator_and_byte() {
    let table = SubstitutionTable::new();
    assert_eq!(table.step(0, 0), 223);
    assert_eq!(table.step(0, 97), 131);
    assert_eq!(table.step(97, 97), 223);
    assert_eq!(table.step(0xf0, 0x0f), 164);
    assert_eq!(table.step(131, 98), table.lookup(131 ^ 98));
}

#[test]
fn base_hash_folds_one_step_per_byte() {
    let table = SubstitutionTable::new();
    let bytes = b"hello world";
    let mut acc: u8 = 0;
    for &byte in bytes.iter() {
        acc = table.step(acc, byte);
    }
    assert_eq!(table.base_hash(bytes), acc);
}

#[test]
fn base_hash_has_the_expected_values() {
    assert_eq!(pearson_hash_base(b"hello world"), 199);
    assert_eq!(pearson_hash_base(b"hello hello world"), 54);
    assert_eq!(pearson_hash_base(b"to test the wrapper function"), 77);
    assert_eq!(
        pearson_hash_base(b"This is a longer string to test the wrapper function"),
        119
    );
}

#[test]
fn base_hash_accepts_more_than_one_chunk() {
    let bytes: Vec<u8> = (0..300usize).map(|i| ((i * 7 + 3) % 256) as u8).collect();
    assert_eq!(pearson_hash_base(&bytes), 33);
    let bytes: Vec<u8> = (0..1000usize).map(|i| ((i * 31 + 11) % 251) as u8).collect();
    assert_eq!(pearson_hash_base(&bytes), 131);
}

#[test]
fn base_hash_under_the_identity_table_is_the_xor_of_the_bytes() {
    let table = identity_table();
    assert_eq!(table.base_hash(b"hello world"), 32);
    assert_eq!(table.base_hash(&[0x0f, 0xf0]), 0xff);
    assert_eq!(table.base_hash(&[7, 7]), 0);
}

#[test]
fn base_hash_is_deterministic() {
    let table = SubstitutionTable::new();
    let again = SubstitutionTable::new();
    for len in [0usize, 1, 2, 17, 255, 256] {
        let bytes = sample(len as u64 + 1, len);
        let copy = bytes.clone();
        let first = table.base_hash(&bytes);
        assert_eq!(table.base_hash(&bytes), first);
        assert_eq!(table.base_hash(&copy), first);
        assert_eq!(again.base_hash(&bytes), first);
        assert_eq!(pearson_hash_base(&bytes), first);
    }
}

#[test]
fn base_hash_depends_on_the_order_of_the_bytes() {
    assert_ne!(pearson_hash_base(b"ab"), pearson_hash_base(b"ba"));
    assert_ne!(pearson_hash_base(b"hello world"), pearson_hash_base(b"world hello"));
}

#[test]
fn base_hash_depends_on_the_table() {
    let bytes = b"hello world";
    assert_eq!(SubstitutionTable::new().base_hash(bytes), 199);
    assert_eq!(identity_table().base_hash(bytes), 32);
}

#[test]
fn changing_one_byte_changes_the_base_hash() {
    let table = SubstitutionTable::new();
    let mut changed: usize = 0;
    let mut trials: usize = 0;
    for round in 0..200u64 {
        let len = 1 + (round as usize * 13) % 256;
        let bytes = sample(round + 1000, len);
        let at = (round as usize * 7) % len;
        let flip = 1u8 << (round % 8);
        let mut other = bytes.clone();
        other[at] ^= flip;
        trials += 1;
        if table.base_hash(&bytes) != table.base_hash(&other) {
            changed += 1;
        }
    }
    assert_eq!(trials, 200);
    assert_eq!(changed, trials);
}

#[test]
fn changing_one_byte_to_any_value_changes_the_base_hash() {
    let table = SubstitutionTable::with_seed(42);
    let bytes = sample(5, 40);
    let hash = table.base_hash(&bytes);
    for at in [0usize, 19, 39] {
        for value in 0..=255u8 {
            if value != bytes[at] {
                let mut other = bytes.clone();
                other[at] = value;
                assert_ne!(table.base_hash(&other), hash);
            }
        }
    }
}
