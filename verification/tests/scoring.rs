use mdlmine::CodeTable;
use mdlmine::Database;
use mdlmine::Miner;
use mdlmine::Pattern;

fn table_over(text: &str) -> CodeTable {
    let database = Database::new(vec![text.as_bytes().to_vec()]);
    CodeTable::new(database)
}

/// The real-valued MDL score, computed from the verified counts the same
/// way the unverified shell computes it.
fn mdl_of(ct: &mut CodeTable) -> f64 {
    ct.cover();
    let total = ct.total_usage() as f64;
    let mut encoded = 0.0_f64;
    for i in 0..ct.num_patterns() {
        let c = ct.usage_of(i);
        if c > 0 {
            encoded += -((c as f64 / total).log2()) * c as f64;
        }
    }
    encoded + ct.table_cost_bits() as f64
}

#[test]
fn total_usage_sums_counts() {
    let mut ct = table_over("abcdefghijklmnopqrstuvxyz");
    ct.cover();
    assert_eq!(ct.total_usage(), 200);
    assert_eq!(ct.usage_of(0) + ct.usage_of(1), 200);
}

#[test]
fn table_cost_counts_header_and_body_bits() {
    let ct = table_over("a");
    // Two singletons: each costs 2*floor(log2 1) + 1 header bits plus
    // 2*1 body bits, so 3 + 3 = 6 bits in all.
    assert_eq!(ct.table_cost_bits(), 6);

    let mut ct2 = table_over("a");
    ct2.insert_pattern(Pattern::new(vec![0xFF, 0xF0], 6));
    // The 6-position pattern adds 2*floor(log2 6) + 1 + 2*6 = 17 bits.
    assert_eq!(ct2.table_cost_bits(), 23);
}

#[test]
fn score_is_deterministic() {
    let mut ct = table_over("aaaaaaaaaaaaaaaaaaaaaaaaaaaaaaaaaabbbbbbbbbbbbbbbbbb");
    let first = mdl_of(&mut ct);
    let second = mdl_of(&mut ct);
    assert_eq!(first.to_bits(), second.to_bits());

    let mut again = table_over("aaaaaaaaaaaaaaaaaaaaaaaaaaaaaaaaaabbbbbbbbbbbbbbbbbb");
    let third = mdl_of(&mut again);
    assert_eq!(first.to_bits(), third.to_bits());
}

#[test]
fn score_is_finite_and_non_negative() {
    let mut ct = table_over("abcdefghijklmnopqrstuvxyz");
    let score = mdl_of(&mut ct);
    assert!(score.is_finite());
    assert!(score >= 0.0);

    // An empty database has zero usage everywhere and still a defined score.
    let mut empty = CodeTable::new(Database::new(vec![]));
    empty.cover();
    assert_eq!(empty.total_usage(), 0);
    let score_empty = empty.table_cost_bits() as f64;
    assert!(score_empty.is_finite());
    assert!(score_empty >= 0.0);
}

#[test]
fn miner_exposes_table_operations() {
    let database = Database::new(vec![vec![0b10100000]]);
    let mut m = Miner::new(database);
    assert!(!m.is_covered());
    let p = Pattern::new(vec![0b11000000], 2);
    m.insert_pattern(p.clone());
    assert_eq!(m.num_patterns(), 3);
    m.cover();
    assert!(m.is_covered());
    assert_eq!(m.usage_of(0), 2);
    assert_eq!(m.usage_of(1), 4);
    assert_eq!(m.usage_of(2), 0);
    assert_eq!(m.total_usage(), 6);
    assert_eq!(m.total_bits(), 8);
    m.remove_pattern(&p);
    assert!(!m.is_covered());
    m.cover();
    assert_eq!(m.num_patterns(), 2);
    assert_eq!(m.usage_of(0) + m.usage_of(1), 8);
}

#[test]
fn with_database_matches_new() {
    let a = Miner::with_database(Database::new(vec![vec![1, 2, 3]]));
    let b = Miner::new(Database::new(vec![vec![1, 2, 3]]));
    assert_eq!(a.num_patterns(), b.num_patterns());
    assert_eq!(a.total_bits(), 24);
    assert_eq!(b.total_bits(), 24);
}
