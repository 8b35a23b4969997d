use turbo_ecs::bit_field::BitField;

#[test]
fn get_and_set_grow_only_when_setting() {
    let mut bits = BitField::new();
    assert_eq!(bits.capacity(), 0);
    assert!(!bits.get(100));
    bits.set(100, false);
    assert_eq!(bits.capacity(), 0);
    bits.set(33, true);
    assert_eq!(bits.capacity(), 64);
    assert!(bits.get(33));
    assert!(!bits.get(32));
    bits.set(33, false);
    assert!(!bits.get(33));
}

#[test]
fn ranges_merge_across_word_boundaries() {
    let mut bits = BitField::new();
    for i in 30..35 {
        bits.set(i, true);
    }
    bits.set(0, true);
    bits.set(63, true);
    bits.set(64, true);
    assert_eq!(bits.iter_ranges(), vec![0..1, 30..35, 63..65]);
}

#[test]
fn full_words_form_one_range() {
    let mut bits = BitField::with_capacity(96);
    for i in 0..96 {
        bits.set(i, true);
    }
    assert_eq!(bits.iter_ranges(), vec![0..96]);
    bits.clear();
    assert!(bits.iter_ranges().is_empty());
    assert_eq!(bits.capacity(), 96);
}

#[test]
fn subset_is_transitive_on_examples() {
    let mut a = BitField::new();
    let mut b = BitField::new();
    let mut c = BitField::new();
    a.set(3, true);
    b.set(3, true);
    b.set(40, true);
    c.set(3, true);
    c.set(40, true);
    c.set(70, true);
    assert!(a.is_subset_of(&b));
    assert!(b.is_subset_of(&c));
    assert!(a.is_subset_of(&c));
    assert!(!c.is_subset_of(&a));
    let empty = BitField::new();
    assert!(empty.is_subset_of(&empty));
    assert!(empty.is_subset_of(&a));
}

#[test]
fn equality_ignores_trailing_zero_words() {
    let mut a = BitField::with_capacity(256);
    let mut b = BitField::new();
    assert!(a == b);
    a.set(5, true);
    assert!(a != b);
    b.set(5, true);
    assert!(a == b);
    b.set(200, true);
    b.set(200, false);
    assert!(a == b);
}

#[test]
fn batch_set_and_copy() {
    let mut a = BitField::with_capacity(64);
    a.set_batch_unchecked::<true>(&[1, 5, 5, 40]);
    assert_eq!(a.iter_ranges(), vec![1..2, 5..6, 40..41]);
    a.set_batch_unchecked::<false>(&[5]);
    let mut b = BitField::new();
    b.copy_from(&a);
    assert!(a == b);
    assert_eq!(b.iter_ranges(), vec![1..2, 40..41]);
    b.reserve(40);
    assert_eq!(b.capacity(), 64 + 64);
    b.ensure_capacity(10);
    assert_eq!(b.capacity(), 128);
}
