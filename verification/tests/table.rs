use pearson_hash::table::{check_permutation, SubstitutionTable, DEFAULT_SEED};

const DEFAULT_ENTRIES: [u8; 256] = [
    223, 156, 233, 162, 6, 122, 23, 88, 151, 230, 163, 191, 125, 9, 57, 185,
    24, 103, 139, 59, 61, 108, 89, 236, 54, 126, 13, 11, 50, 64, 29, 177,
    181, 91, 249, 215, 111, 200, 117, 119, 246, 84, 199, 186, 171, 90, 154, 96,
    159, 220, 172, 173, 10, 114, 150, 36, 195, 22, 222, 104, 243, 224, 56, 202,
    49, 179, 241, 18, 65, 63, 214, 123, 15, 188, 184, 85, 158, 238, 2, 52,
    132, 231, 16, 7, 210, 74, 4, 109, 83, 48, 25, 86, 115, 75, 120, 147,
    138, 131, 228, 44, 165, 135, 113, 221, 204, 14, 118, 3, 254, 87, 82, 81,
    157, 77, 30, 170, 193, 73, 189, 137, 227, 248, 168, 174, 209, 67, 247, 148,
    79, 187, 167, 19, 178, 180, 212, 35, 46, 71, 237, 27, 160, 194, 182, 112,
    136, 72, 95, 219, 235, 206, 38, 134, 198, 37, 166, 197, 217, 129, 216, 70,
    78, 226, 76, 53, 142, 20, 66, 45, 213, 143, 146, 255, 0, 68, 127, 245,
    240, 100, 43, 169, 34, 40, 12, 234, 105, 94, 250, 31, 5, 242, 130, 218,
    153, 140, 176, 141, 47, 55, 60, 42, 196, 244, 190, 92, 97, 144, 124, 41,
    1, 252, 28, 8, 99, 205, 62, 39, 80, 203, 207, 175, 93, 107, 232, 183,
    58, 32, 201, 106, 192, 17, 211, 69, 225, 102, 152, 33, 208, 253, 149, 121,
    145, 51, 116, 128, 26, 98, 110, 229, 161, 251, 155, 239, 101, 133, 21, 164,
];

fn identity_entries() -> Vec<u8> {
    (0..=255u8).collect()
}

fn assert_holds_every_byte_once(entries: &[u8]) {
    assert_eq!(entries.len(), 256);
    let mut seen = [0usize; 256];
    for &entry in entries {
        seen[entry as usize] += 1;
    }
    for value in 0..256usize {
        assert_eq!(seen[value], 1, "byte {} occurs {} times", value, seen[value]);
    }
    for i in 0..256usize {
        for j in (i + 1)..256usize {
            assert_ne!(entries[i], entries[j]);
        }
    }
}

#[test]
fn default_table_is_a_permutation() {
    let table = SubstitutionTable::new();
    assert_holds_every_byte_once(&table.entries());
    assert!(check_permutation(&table.entries()));
}

#[test]
fn default_table_has_the_documented_entries() {
    let table = SubstitutionTable::new();
    assert_eq!(table.entries(), DEFAULT_ENTRIES);
}

#[test]
fn default_table_is_the_table_of_the_default_seed() {
    assert_eq!(DEFAULT_SEED, 0x5045_4152_534f_4e31u64);
    let table = SubstitutionTable::with_seed(DEFAULT_SEED);
    assert_eq!(table.entries(), SubstitutionTable::new().entries());
}

#[test]
fn default_table_is_not_the_identity() {
    let table = SubstitutionTable::new();
    assert_ne!(table.entries().to_vec(), identity_entries());
}

#[test]
fn table_construction_is_repeatable() {
    assert_eq!(SubstitutionTable::new().entries(), SubstitutionTable::new().entries());
    assert_eq!(
        SubstitutionTable::with_seed(99).entries(),
        SubstitutionTable::with_seed(99).entries()
    );
}

#[test]
fn seeded_tables_have_the_expected_entries() {
    let seven = SubstitutionTable::with_seed(7).entries();
    assert_eq!(seven[..8], [2u8, 15, 44, 169, 254, 231, 252, 42]);
    assert_eq!(seven[255], 94u8);
    let zero = SubstitutionTable::with_seed(0).entries();
    assert_eq!(zero[..8], [159u8, 246, 82, 153, 116, 223, 54, 124]);
}

#[test]
fn every_seeded_table_is_a_permutation() {
    let seeds: [u64; 8] = [0, 1, 2, 7, 255, 256, 0xdead_beef, u64::MAX];
    for seed in seeds {
        let table = SubstitutionTable::with_seed(seed);
        assert_holds_every_byte_once(&table.entries());
    }
}

#[test]
fn different_seeds_give_different_tables() {
    assert_ne!(
        SubstitutionTable::with_seed(1).entries(),
        SubstitutionTable::with_seed(2).entries()
    );
}

#[test]
fn lookup_reads_the_entry_at_the_index() {
    let table = SubstitutionTable::new();
    assert_eq!(table.lookup(0), 223);
    assert_eq!(table.lookup(1), 156);
    assert_eq!(table.lookup(172), 0);
    assert_eq!(table.lookup(255), 164);
    for index in 0..=255u8 {
        assert_eq!(table.lookup(index), DEFAULT_ENTRIES[index as usize]);
    }
}

#[test]
fn from_entries_accepts_a_permutation() {
    let identity = identity_entries();
    let table = SubstitutionTable::from_entries(&identity).expect("the identity is a permutation");
    assert_eq!(table.entries().to_vec(), identity);

    let mut reversed = identity_entries();
    reversed.reverse();
    let table = SubstitutionTable::from_entries(&reversed).expect("a reversal is a permutation");
    assert_eq!(table.entries().to_vec(), reversed);
    assert_eq!(table.lookup(0), 255);
    assert_eq!(table.lookup(255), 0);
}

#[test]
fn from_entries_round_trips_the_default_table() {
    let table = SubstitutionTable::from_entries(&DEFAULT_ENTRIES).expect("a permutation");
    assert_eq!(table.entries(), DEFAULT_ENTRIES);
}

#[test]
fn from_entries_rejects_the_doubling_rule() {
    let doubled: Vec<u8> = (0..=255u8).map(|i| i.wrapping_add(i)).collect();
    assert_eq!(doubled.len(), 256);
    assert!(!check_permutation(&doubled));
    assert!(SubstitutionTable::from_entries(&doubled).is_none());
}

#[test]
fn from_entries_rejects_one_repeated_value() {
    let mut entries = identity_entries();
    entries[200] = 3;
    assert!(!check_permutation(&entries));
    assert!(SubstitutionTable::from_entries(&entries).is_none());
    entries[200] = 200;
    assert!(check_permutation(&entries));
    entries[255] = 0;
    assert!(!check_permutation(&entries));
    entries[255] = 255;
    entries[0] = 1;
    assert!(!check_permutation(&entries));
}

#[test]
fn from_entries_rejects_a_wrong_length() {
    assert!(SubstitutionTable::from_entries(&[]).is_none());
    assert!(!check_permutation(&[]));
    let short: Vec<u8> = (0..255u8).collect();
    assert!(!check_permutation(&short));
    assert!(SubstitutionTable::from_entries(&short).is_none());
    let mut long = identity_entries();
    long.push(0);
    assert!(!check_permutation(&long));
    assert!(SubstitutionTable::from_entries(&long).is_none());
}
