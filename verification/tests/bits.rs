use xcc::bits::{copy_bits, full_bits, has_bit, insert_bit, list_bits, new_bits, set_bit};

#[test]
fn new_bits_are_clear() {
    let b = new_bits(70);
    assert_eq!(b.len(), 70);
    assert!(list_bits(&b).is_empty());
    assert!(!has_bit(&b, 0));
    assert!(!has_bit(&b, 69));
    assert!(!has_bit(&b, 70));
    assert!(list_bits(&new_bits(0)).is_empty());
}

#[test]
fn full_bits_are_set_up_to_the_length() {
    let b = full_bits(5);
    assert_eq!(b.len(), 5);
    assert_eq!(list_bits(&b), [0, 1, 2, 3, 4]);
    assert!(has_bit(&b, 4));
    assert!(!has_bit(&b, 5));
    let wide = full_bits(130);
    assert_eq!(list_bits(&wide), (0..130).collect::<Vec<usize>>());
    assert!(!has_bit(&wide, 130));
    assert!(list_bits(&full_bits(0)).is_empty());
    let exact = full_bits(128);
    assert_eq!(list_bits(&exact).len(), 128);
}

#[test]
fn insert_and_set_change_one_bit() {
    let mut b = new_bits(100);
    insert_bit(&mut b, 64);
    insert_bit(&mut b, 3);
    insert_bit(&mut b, 99);
    insert_bit(&mut b, 3);
    assert_eq!(list_bits(&b), [3, 64, 99]);
    assert!(has_bit(&b, 64));
    assert!(!has_bit(&b, 63));
    set_bit(&mut b, 64, false);
    assert_eq!(list_bits(&b), [3, 99]);
    set_bit(&mut b, 64, false);
    assert_eq!(list_bits(&b), [3, 99]);
    set_bit(&mut b, 0, true);
    assert_eq!(list_bits(&b), [0, 3, 99]);
}

#[test]
fn a_copy_does_not_follow_its_source() {
    let mut b = new_bits(10);
    insert_bit(&mut b, 2);
    let c = copy_bits(&b);
    insert_bit(&mut b, 7);
    assert_eq!(list_bits(&c), [2]);
    assert_eq!(list_bits(&b), [2, 7]);
    assert_eq!(c.len(), 10);
}
