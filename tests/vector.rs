use agent_policy::matched_field::MatchedField;
use agent_policy::table::Atom;
use agent_policy::vector::{abs_diff, calc_index, select_bits, sort_table_index, vector_size, Vector};

#[test]
fn calc_index_scores_even_splits_best() {
    assert_eq!(calc_index(0, 0, 10), 10);
    assert_eq!(calc_index(5, 5, 10), 0);
    assert_eq!(calc_index(3, 3, 10), 4);
    assert_eq!(calc_index(4, 5, 10), 2);
    assert_eq!(calc_index(1, 9, 10), 8);
    assert_eq!(abs_diff(3, 10), 7);
    assert_eq!(abs_diff(10, 3), 7);
}

#[test]
fn sort_table_index_folds_large_scores() {
    assert_eq!(sort_table_index(1, 1, 100), 98);
    // 40000 > i16::MAX: folded to 40000 / 2 + 32767
    assert_eq!(sort_table_index(0, 0, 40000), 52767);
    assert_eq!(sort_table_index(0, 0, 32767), 32767);
}

#[test]
fn vector_size_picks_largest_that_fits() {
    assert_eq!(vector_size(0, 8), 4);
    assert_eq!(vector_size(1 << 8 << 10, 8), 10);
    assert_eq!(vector_size(usize::MAX, 8), 16);
    assert_eq!(vector_size(1 << 20, 0), 16);
    assert_eq!(vector_size(1 << 20, 40), 4);
}

#[test]
fn select_bits_takes_best_ranked() {
    let scores = vec![5, 1, 3, 1, 9, 0];
    let bits = select_bits(&scores, 3);
    assert_eq!(bits, vec![1, 3, 5]);
}

#[test]
fn chosen_bits_split_atoms_evenly() {
    // 16 atoms caring about the low 8 bits of one word, with values 0..16:
    // bits 0..4 split the atoms 8/8, bits 4..8 put all of them on one side.
    let mut atoms = Vec::new();
    for v in 0..16u64 {
        atoms.push(Atom {
            field: MatchedField { words: vec![v, 0, 0] },
            mask: MatchedField { words: vec![0xff, 0, 0] },
            acl: 0,
        });
    }
    let vector = Vector::init(&atoms, 3, 4);
    let mut bits = vector.vector_bits.clone();
    bits.sort();
    assert_eq!(bits, vec![0, 1, 2, 3]);
    assert_eq!(vector.min_bit, 0);
    assert_eq!(vector.max_bit, 3);
    assert_eq!(vector.mask.words, vec![0b1111, 0, 0]);
    for &b in &bits {
        let ones = atoms.iter().filter(|a| !a.field.is_bit_zero(b)).count();
        assert!(ones == 8);
    }
}
