use mdlmine::CodeTable;
use mdlmine::Database;
use mdlmine::Pattern;

fn single_record_table(text: &str) -> CodeTable {
    let database = Database::new(vec![text.as_bytes().to_vec()]);
    CodeTable::new(database)
}

#[test]
fn simple_cover_usage_test() {
    let mut ct = single_record_table("abcdefghijklmnopqrstuvxyz");
    ct.cover();
    assert_eq!(ct.usage_of(0), 94usize);
    assert_eq!(ct.usage_of(1), 106usize);
}

#[test]
fn cover_consumes_every_bit_exactly() {
    let mut ct = single_record_table("abcdefghijklmnopqrstuvxyz");
    ct.insert_pattern(Pattern::new(vec![0b01110100], 3));
    ct.insert_pattern(Pattern::new(vec![0b11010100], 3));
    ct.cover();
    let mut consumed: usize = 0;
    for i in 0..ct.num_patterns() {
        consumed += ct.usage_of(i) * ct.pattern_at(i).len();
    }
    assert_eq!(consumed, ct.data_total_bits());
    assert_eq!(ct.data_total_bits(), 200);
}

#[test]
fn singleton_cover_counts_set_bits() {
    // 0xF0 0x0F: eight set bits and eight clear bits.
    let database = Database::new(vec![vec![0xF0, 0x0F]]);
    let mut ct = CodeTable::new(database);
    ct.cover();
    assert_eq!(ct.usage_of(0), 8);
    assert_eq!(ct.usage_of(1), 8);
}

#[test]
fn cover_is_idempotent() {
    let mut ct = single_record_table("abcdefghijklmnopqrstuvxyz");
    assert!(!ct.is_covered());
    ct.cover();
    assert!(ct.is_covered());
    let u0 = ct.usage_of(0);
    let u1 = ct.usage_of(1);
    ct.cover();
    assert!(ct.is_covered());
    assert_eq!(ct.usage_of(0), u0);
    assert_eq!(ct.usage_of(1), u1);
}

#[test]
fn mutation_invalidates_and_cover_recomputes() {
    let mut ct = single_record_table("aa");
    ct.cover();
    assert!(ct.is_covered());
    // 'a' = 0x61: per record byte, three set bits and five clear bits.
    assert_eq!(ct.usage_of(0), 10);
    assert_eq!(ct.usage_of(1), 6);

    // "01100001": the whole byte of 'a' as one concrete pattern, packed as
    // value/mask pairs: 01 11 11 01, then 01 01 01 11.
    let byte_a = Pattern::new(vec![0b01111101, 0b01010111], 8);
    ct.insert_pattern(byte_a.clone());
    assert!(!ct.is_covered());
    ct.cover();
    assert!(ct.is_covered());
    // The 8-bit pattern is sorted first and swallows both bytes whole.
    assert_eq!(ct.usage_of(0), 2);
    assert_eq!(ct.usage_of(1), 0);
    assert_eq!(ct.usage_of(2), 0);

    ct.remove_pattern(&byte_a);
    assert!(!ct.is_covered());
    ct.cover();
    assert_eq!(ct.num_patterns(), 2);
    assert_eq!(ct.usage_of(0), 10);
    assert_eq!(ct.usage_of(1), 6);
}

#[test]
fn removing_absent_pattern_only_marks_dirty() {
    let mut ct = single_record_table("a");
    ct.cover();
    let absent = Pattern::new(vec![0xFF], 4);
    ct.remove_pattern(&absent);
    assert_eq!(ct.num_patterns(), 2);
    assert!(!ct.is_covered());
    ct.cover();
    assert_eq!(ct.usage_of(0) + ct.usage_of(1), 8);
}

#[test]
fn equal_length_tie_break_prefers_earlier_table_entry() {
    // Record 0b10100000: both two-bit candidates below fit and match at
    // offsets 0 and 2; the lexicographically earlier one must win both.
    let database = Database::new(vec![vec![0b10100000]]);
    let mut ct = CodeTable::new(database);
    let set_then_gap = Pattern::new(vec![0b11000000], 2);
    let set_then_zero = Pattern::new(vec![0b11010000], 2);
    ct.insert_pattern(set_then_zero.clone());
    ct.insert_pattern(set_then_gap.clone());
    assert_eq!(ct.num_patterns(), 4);
    // Sorted order: the two-bit patterns first, byte 0xC0 before 0xD0.
    assert_eq!(ct.pattern_at(0).byte_at(0), 0b11000000);
    assert_eq!(ct.pattern_at(1).byte_at(0), 0b11010000);
    ct.cover();
    assert_eq!(ct.usage_of(0), 2);
    assert_eq!(ct.usage_of(1), 0);
    assert_eq!(ct.usage_of(2), 4);
    assert_eq!(ct.usage_of(3), 0);
}

#[test]
fn empty_database_covers_to_zero_usage() {
    let database = Database::new(vec![]);
    let mut ct = CodeTable::new(database);
    ct.cover();
    assert!(ct.is_covered());
    assert_eq!(ct.usage_of(0), 0);
    assert_eq!(ct.usage_of(1), 0);
    assert_eq!(ct.total_usage(), 0);
    assert_eq!(ct.data_total_bits(), 0);
}

#[test]
fn empty_record_contributes_nothing() {
    let database = Database::new(vec![vec![], vec![0xFF]]);
    let mut ct = CodeTable::new(database);
    ct.cover();
    assert_eq!(ct.usage_of(0), 0);
    assert_eq!(ct.usage_of(1), 8);
}

#[test]
fn concat_built_pattern_covers() {
    // one().concat(zero()) is the two-bit pattern "10".
    let ten = Pattern::one().concat(&Pattern::zero());
    assert_eq!(ten.len(), 2);
    let database = Database::new(vec![vec![0b10101010]]);
    let mut ct = CodeTable::new(database);
    ct.insert_pattern(ten);
    ct.cover();
    assert_eq!(ct.usage_of(0), 4);
    assert_eq!(ct.usage_of(1), 0);
    assert_eq!(ct.usage_of(2), 0);
}

#[test]
fn remove_keeps_table_order() {
    let mut ct = single_record_table("x");
    let p2 = Pattern::new(vec![0b11010000], 2);
    let p4 = Pattern::new(vec![0b10000000], 4);
    ct.insert_pattern(p2.clone());
    ct.insert_pattern(p4.clone());
    assert_eq!(ct.num_patterns(), 4);
    ct.remove_pattern(&p2);
    assert_eq!(ct.num_patterns(), 3);
    assert_eq!(ct.pattern_at(0).len(), 4);
    assert_eq!(ct.pattern_at(1).byte_at(0), 0x40);
    assert_eq!(ct.pattern_at(2).byte_at(0), 0xC0);
}

#[test]
fn insert_keeps_length_descending_order() {
    let mut ct = single_record_table("x");
    ct.insert_pattern(Pattern::new(vec![0b11010000], 2));
    ct.insert_pattern(Pattern::new(vec![0xFF, 0xFF, 0xFF], 12));
    ct.insert_pattern(Pattern::new(vec![0b10000000], 4));
    assert_eq!(ct.num_patterns(), 5);
    assert_eq!(ct.pattern_at(0).len(), 12);
    assert_eq!(ct.pattern_at(1).len(), 4);
    assert_eq!(ct.pattern_at(2).len(), 2);
    assert_eq!(ct.pattern_at(3).len(), 1);
    assert_eq!(ct.pattern_at(4).len(), 1);
    // The singletons keep their relative order at the tail.
    assert_eq!(ct.pattern_at(3).byte_at(0), 0x40);
    assert_eq!(ct.pattern_at(4).byte_at(0), 0xC0);
}
