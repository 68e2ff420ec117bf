use mdlmine::Pattern;

#[test]
fn pattern_construction_test() {
    let zero = Pattern::zero();
    assert_eq!(zero.byte_at(0), 64);
    assert_eq!(zero.len(), 1);
    let one = Pattern::one();
    assert_eq!(one.byte_at(0), 128 + 64);
    assert_eq!(one.len(), 1);

    let other = Pattern::new(vec![255, 0, 77], 12);
    assert_eq!(other.byte_at(0), 255);
    assert_eq!(other.byte_at(1), 0);
    assert_eq!(other.byte_at(2), 77);
    assert_eq!(other.len(), 12);
}

#[test]
fn get_test() {
    let zero = Pattern::zero();
    assert_eq!(zero.get(0), Some(false));
    let one = Pattern::one();
    assert_eq!(one.get(0), Some(true));

    let other: Pattern = Pattern::new(vec![0b00011011], 4);
    assert_eq!(other.len(), 4);
    assert_eq!(other.get(0), None);
    assert_eq!(other.get(1), Some(false));
    assert_eq!(other.get(2), None);
    assert_eq!(other.get(3), Some(true));
}

#[test]
fn equality_is_structural() {
    let a = Pattern::new(vec![0b10010000], 2);
    let b = Pattern::new(vec![0b10010000], 2);
    let c = Pattern::new(vec![0b10010000], 3);
    let d = Pattern::new(vec![0b10010001], 2);
    assert!(a == b);
    assert!(a != c);
    assert!(a != d);
    assert!(Pattern::zero() != Pattern::one());
}

#[test]
fn order_prefers_longer_then_lex() {
    let long = Pattern::new(vec![0xFF, 0xFF], 8);
    let short_small = Pattern::new(vec![0x80], 2);
    let short_big = Pattern::new(vec![0x90], 2);
    assert!(long.order_le(&short_small));
    assert!(!short_small.order_le(&long));
    assert!(short_small.order_le(&short_big));
    assert!(!short_big.order_le(&short_small));
    assert!(short_small.order_le(&short_small));
    assert!(Pattern::zero().order_le(&Pattern::one()));
    assert!(!Pattern::one().order_le(&Pattern::zero()));
}

#[test]
fn concat_appends_positions() {
    let zero = Pattern::zero();
    let one = Pattern::one();
    let zo = zero.concat(&one);
    assert_eq!(zo.len(), 2);
    assert_eq!(zo.get(0), Some(false));
    assert_eq!(zo.get(1), Some(true));

    // Concatenation repacks across byte boundaries, wildcards included.
    let gaps = Pattern::new(vec![0b00011011], 4);
    let both = gaps.concat(&zo);
    assert_eq!(both.len(), 6);
    assert_eq!(both.get(0), None);
    assert_eq!(both.get(1), Some(false));
    assert_eq!(both.get(2), None);
    assert_eq!(both.get(3), Some(true));
    assert_eq!(both.get(4), Some(false));
    assert_eq!(both.get(5), Some(true));

    let empty = Pattern::new(vec![], 0);
    let same = empty.concat(&gaps);
    assert_eq!(same.len(), 4);
    assert_eq!(same.get(0), None);
    assert_eq!(same.get(1), Some(false));
    assert_eq!(same.get(2), None);
    assert_eq!(same.get(3), Some(true));
}

#[test]
fn byte_len_counts_packed_bytes() {
    let p = Pattern::new(vec![1, 2, 3], 10);
    assert_eq!(p.byte_len(), 3);
    assert_eq!(Pattern::zero().byte_len(), 1);
}
