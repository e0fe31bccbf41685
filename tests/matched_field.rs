use agent_policy::lookup_key::{build_flow_field, IpAddress};
use agent_policy::matched_field::MatchedField;

#[test]
fn table_index_packs_selected_bits() {
    // bit 0 set, bit 1 clear, bit 65 set
    let f = MatchedField { words: vec![0b01, 0b10] };
    assert_eq!(f.get_table_index(&vec![0, 1, 65]), 0b101);
    assert_eq!(f.get_table_index(&vec![65, 0]), 0b11);
    assert_eq!(f.get_table_index(&vec![]), 0);
}

#[test]
fn all_table_index_count_follows_cared_bits() {
    // The atom cares about bit 0 (must be 1) and bit 2 (must be 0).
    let field = MatchedField { words: vec![0b001] };
    let mask = MatchedField { words: vec![0b101] };
    let vbits = vec![0, 1, 2, 3];
    let mut all = field.get_all_table_index(&mask, &vbits);
    // 2^(4 - 2) indices
    assert_eq!(all.len(), 4);
    all.sort();
    assert_eq!(all, vec![0b0001, 0b0011, 0b1001, 0b1011]);
}

#[test]
fn all_table_index_without_cared_bits_covers_everything() {
    let field = MatchedField { words: vec![0] };
    let mask = MatchedField { words: vec![0] };
    let mut all = field.get_all_table_index(&mask, &vec![5, 9, 40]);
    all.sort();
    assert_eq!(all, vec![0, 1, 2, 3, 4, 5, 6, 7]);
}

#[test]
fn all_table_index_fully_cared_is_one_index() {
    let field = MatchedField { words: vec![0b110] };
    let mask = MatchedField { words: vec![u64::MAX] };
    let all = field.get_all_table_index(&mask, &vec![0, 1, 2]);
    assert_eq!(all, vec![0b110]);
}

#[test]
fn matching_key_index_is_enumerated() {
    let field = MatchedField { words: vec![0x10, 0] };
    let mask = MatchedField { words: vec![0xf0, 0] };
    let key = MatchedField { words: vec![0x1a, 77] };
    assert!(key.matches(&field, &mask));
    let vbits = vec![1, 4, 5, 64];
    let idx = key.get_table_index(&vbits);
    assert!(field.get_all_table_index(&mask, &vbits).contains(&idx));
    let other = MatchedField { words: vec![0x2a, 77] };
    assert!(!other.matches(&field, &mask));
}

#[test]
fn matched_field_layout() {
    let f = build_flow_field(2, 20, IpAddress::v4(192, 168, 2, 1), IpAddress::v4(192, 168, 2, 5), 80, 100, 6, 3);
    assert_eq!(f.words.len(), 3);
    assert_eq!(f.words[0], 2 | (20 << 16) | (80 << 32) | (100 << 48));
    assert_eq!(f.words[1], 6 | (3 << 8));
    assert_eq!(f.words[2], 0xc0a8_0201 | (0xc0a8_0205u64 << 32));
    assert_eq!(f.bit_size(), 192);
    assert!(!f.is_bit_zero(1));
    assert!(f.is_bit_zero(0));
    let g = build_flow_field(0, 0, IpAddress::V6(1 << 64 | 5), IpAddress::V6(7), 0, 0, 0, 0);
    assert_eq!(g.words, vec![0, 0, 1, 5, 0, 7]);
    let h = build_flow_field(0, 0, IpAddress::V6(1), IpAddress::v4(1, 1, 1, 1), 0, 0, 0, 0);
    assert!(h.words.is_empty());
}

#[test]
fn set_bits_and_and() {
    let mut f = MatchedField::zeros(2);
    assert_eq!(f.words, vec![0, 0]);
    f.set_bits(&vec![0, 3, 64, 127]);
    assert_eq!(f.words, vec![0b1001, 1 | (1 << 63)]);
    let g = MatchedField { words: vec![0b1100, u64::MAX] };
    assert_eq!(f.and(&g).words, vec![0b1000, 1 | (1 << 63)]);
}
