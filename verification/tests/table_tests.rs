use racing::table::{NameTable, PairTable};

#[test]
fn pair_table_keeps_the_last_value_per_key() {
    let mut t: PairTable<u32> = PairTable::new();
    let (a, b, c) = ("a".to_string(), "b".to_string(), "c".to_string());
    assert_eq!(t.get(&a, &b), None);
    t.set(a.clone(), b.clone(), 1);
    t.set(a.clone(), c.clone(), 2);
    t.set(a.clone(), b.clone(), 3);
    assert_eq!(t.get(&a, &b), Some(3));
    assert_eq!(t.get(&a, &c), Some(2));
    assert_eq!(t.get(&b, &a), None);
    assert_eq!(t.get_ref(&a, &c), Some(&2));
}

#[test]
fn name_table_keeps_the_last_value_per_key() {
    let mut t: NameTable<i64> = NameTable::new();
    let (a, b) = ("a".to_string(), "b".to_string());
    assert_eq!(t.get(&a), None);
    t.set(a.clone(), -1);
    t.set(b.clone(), 5);
    t.set(a.clone(), 4);
    assert_eq!(t.get(&a), Some(4));
    assert_eq!(t.get(&b), Some(5));
    assert_eq!(t.get_ref(&b), Some(&5));
}

#[test]
fn take_list_empties_the_entry() {
    let mut t: NameTable<Vec<u8>> = NameTable::new();
    let a = "a".to_string();
    assert_eq!(t.take_list(&a), Vec::<u8>::new());
    t.set(a.clone(), vec![1, 2, 3]);
    assert_eq!(t.take_list(&a), vec![1, 2, 3]);
    assert_eq!(t.take_list(&a), Vec::<u8>::new());
}
