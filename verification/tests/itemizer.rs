use espresso_codec::itemizer::Itemizer;

#[test]
fn id_of_assigns_increasing_ids_in_first_seen_order() {
    let mut it = Itemizer::new();
    let a = String::from("apple");
    let b = String::from("pear");
    let c = String::from("plum");
    assert_eq!(it.id_of(&a), 1);
    assert_eq!(it.id_of(&b), 2);
    assert_eq!(it.id_of(&c), 3);
    assert_eq!(it.len(), 3);
}

#[test]
fn id_of_repeated_value_returns_first_id() {
    let mut it = Itemizer::new();
    let a = String::from("apple");
    let b = String::from("pear");
    assert_eq!(it.id_of(&a), 1);
    assert_eq!(it.id_of(&b), 2);
    assert_eq!(it.id_of(&a), 1);
    assert_eq!(it.id_of(&b), 2);
    assert_eq!(it.len(), 2);
}

#[test]
fn value_of_inverts_id_of() {
    let mut it = Itemizer::new();
    let vals = ["x", "y", "z", "w"];
    for v in vals.iter() {
        let s = String::from(*v);
        let id = it.id_of(&s);
        assert_eq!(it.value_of(id), s);
    }
    assert_eq!(it.value_of(1), String::from("x"));
    assert_eq!(it.value_of(4), String::from("w"));
}

#[test]
fn id_of_opt_absent_is_none() {
    let mut it = Itemizer::new();
    let a = String::from("seen");
    let b = String::from("unseen");
    it.id_of(&a);
    assert_eq!(it.id_of_opt(&a), Some(1));
    assert_eq!(it.id_of_opt(&b), None);
    assert_eq!(it.id_of_exists(&b), None);
    assert_eq!(it.len(), 1);
}
