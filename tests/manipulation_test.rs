use commandblock::NbtValue;

#[test]
fn test_create_compound() {
    let mut compound = NbtValue::new();
    compound.insert("key1".to_string(), NbtValue::Int(1));
    compound.insert("key2".to_string(), NbtValue::String("value2".to_string()));

    if let NbtValue::Compound(_) = &compound {
        assert_eq!(compound.get("key1"), Some(&NbtValue::Int(1)));
        assert_eq!(
            compound.get("key2"),
            Some(&NbtValue::String("value2".to_string()))
        );
    } else {
        panic!("Expected NbtValue::Compound");
    }
}

#[test]
fn test_edit_compound() {
    let mut compound = NbtValue::new();

    // Test insert
    compound.insert("key1".to_string(), NbtValue::Int(1));
    compound.insert("key2".to_string(), NbtValue::String("value2".to_string()));
    assert_eq!(compound.get("key1"), Some(&NbtValue::Int(1)));
    assert_eq!(
        compound.get("key2"),
        Some(&NbtValue::String("value2".to_string()))
    );

    // Test updating via insert
    compound.insert("key1".to_string(), NbtValue::Int(2));
    assert_eq!(compound.get("key1"), Some(&NbtValue::Int(2)));

    // Test remove
    compound.remove("key1");
    assert_eq!(compound.get("key1"), None);
}

#[test]
fn test_into_nbtvalue() {
    let mut compound = NbtValue::new();
    compound.insert("key1".to_string(), NbtValue::from(1));
    compound.insert("key2".to_string(), NbtValue::from("value2".to_string()));

    if let NbtValue::Compound(_) = &compound {
        assert_eq!(compound.get("key1"), Some(&NbtValue::Int(1)));
        assert_eq!(
            compound.get("key2"),
            Some(&NbtValue::String("value2".to_string()))
        );
    } else {
        panic!("Expected NbtValue::Compound");
    }
}

#[test]
fn compound_accessors_follow_insertion_order() {
    let mut compound = NbtValue::new();
    assert!(compound.is_empty());
    compound.insert("b".to_string(), NbtValue::Byte(1));
    compound.insert("a".to_string(), NbtValue::Short(2));
    compound.insert("b".to_string(), NbtValue::Byte(3));
    assert_eq!(compound.len(), 2);
    assert!(!compound.is_empty());
    let keys: Vec<String> = compound.keys().into_iter().cloned().collect();
    assert_eq!(keys, vec!["b".to_string(), "a".to_string()]);
    assert_eq!(compound.values(), vec![&NbtValue::Byte(3), &NbtValue::Short(2)]);
    assert_eq!(compound.remove("b"), Some(NbtValue::Byte(3)));
    assert_eq!(compound.remove("b"), None);
    assert_eq!(compound.len(), 1);
}

#[test]
fn conversions_pick_the_matching_variant() {
    assert_eq!(NbtValue::from(true), NbtValue::Byte(1));
    assert_eq!(NbtValue::from(false), NbtValue::Byte(0));
    assert_eq!(NbtValue::from(-3i8), NbtValue::Byte(-3));
    assert_eq!(NbtValue::from(300i16), NbtValue::Short(300));
    assert_eq!(NbtValue::from(7i64), NbtValue::Long(7));
    assert_eq!(NbtValue::from(vec![1i8, 2]), NbtValue::ByteArray(vec![1, 2]));
    assert_eq!(NbtValue::from(vec![1i32]), NbtValue::IntArray(vec![1]));
    assert_eq!(NbtValue::from(vec![1i64]), NbtValue::LongArray(vec![1]));
    assert_eq!(
        NbtValue::from(vec![NbtValue::End]),
        NbtValue::List(vec![NbtValue::End])
    );
}

#[test]
fn tag_codes_map_both_ways() {
    for code in 0u8..=12 {
        let v = NbtValue::from_binary(code).unwrap();
        assert_eq!(v.to_binary(), code);
    }
    assert_eq!(NbtValue::from_binary(13), None);
    assert_eq!(NbtValue::from_binary(0xff), None);
}

#[test]
fn clone_copies_nested_values() {
    let mut inner = NbtValue::new();
    inner.insert("x".to_string(), NbtValue::List(vec![NbtValue::Long(9)]));
    let mut outer = NbtValue::new();
    outer.insert("inner".to_string(), inner);
    let copy = outer.clone();
    assert_eq!(copy, outer);
    outer.remove("inner");
    assert_eq!(copy.len(), 1);
    assert_eq!(outer.len(), 0);
}

#[test]
fn iter_gives_members_in_order() {
    let mut compound = NbtValue::new();
    compound.insert("a".to_string(), NbtValue::Int(1));
    compound.insert("b".to_string(), NbtValue::Int(2));
    let pairs: Vec<(String, NbtValue)> = compound
        .iter()
        .into_iter()
        .map(|(k, v)| (k.clone(), v.clone()))
        .collect();
    assert_eq!(
        pairs,
        vec![("a".to_string(), NbtValue::Int(1)), ("b".to_string(), NbtValue::Int(2))]
    );
}

#[test]
fn conversions_from_text_and_members() {
    assert_eq!(NbtValue::from("hi"), NbtValue::String("hi".to_string()));
    let s = "yo".to_string();
    assert_eq!(NbtValue::from(&s), NbtValue::String("yo".to_string()));
    assert_eq!(NbtValue::text("x"), NbtValue::String("x".to_string()));
    let members = vec![("k".to_string(), NbtValue::Byte(1))];
    assert_eq!(
        NbtValue::from(members),
        NbtValue::Compound(vec![("k".to_string(), NbtValue::Byte(1))])
    );
}
