use hashtable::{dbj2, HashNode, HashTable, User, HASH_SIZE};

#[test]
fn concrete_scenario_users() {
    let mut users: HashTable<User> = HashTable::new();
    users.insert("mingas", User { name: "mingas", age: 19 });
    users.insert("guizin", User { name: "guizin", age: 19 });
    users.insert("vinizin", User { name: "vinizin", age: 190 });

    assert_eq!(users.search("mingas"), Some(&User { name: "mingas", age: 19 }));
    assert_eq!(users.search("guizin"), Some(&User { name: "guizin", age: 19 }));
    assert_eq!(users.search("vinizin"), Some(&User { name: "vinizin", age: 190 }));
    assert_eq!(users.search("nobody"), None);
}

#[test]
fn user_debug_rendering() {
    let u = User { name: "mingas", age: 19 };
    assert_eq!(format!("{:?}", u), "User { name: \"mingas\", age: 19 }");
}

#[test]
fn empty_key_round_trip() {
    let mut t: HashTable<i32> = HashTable::new();
    t.insert("", 42);
    assert_eq!(t.search(""), Some(&42));
    assert_eq!(t.search("a"), None);
}

#[test]
fn insert_then_search_round_trip() {
    let mut t: HashTable<String> = HashTable::new();
    t.insert("key", String::from("value"));
    assert_eq!(t.search("key"), Some(&String::from("value")));
}

#[test]
fn search_on_empty_table_is_absent() {
    let t: HashTable<u8> = HashTable::new();
    assert_eq!(t.search(""), None);
    assert_eq!(t.search("anything"), None);
}

#[test]
fn search_miss_on_populated_table() {
    let mut t: HashTable<u32> = HashTable::new();
    for (i, k) in ["one", "two", "three", "four"].iter().enumerate() {
        t.insert(k, i as u32);
    }
    assert_eq!(t.search("five"), None);
    assert_eq!(t.search("On"), None);
    assert_eq!(t.search("one "), None);
    assert_eq!(t.search("three"), Some(&2));
}

#[test]
fn exact_key_match_only() {
    let mut t: HashTable<u32> = HashTable::new();
    t.insert("Key", 1);
    assert_eq!(t.search("key"), None);
    assert_eq!(t.search(" Key"), None);
    assert_eq!(t.search("Key"), Some(&1));
}

#[test]
fn colliding_keys_all_retrievable() {
    let keys = ["a", "la", "ob", "rc", "ud", "xe"];
    let bucket = dbj2("a") % HASH_SIZE as u64;
    for k in keys {
        assert_eq!(dbj2(k) % HASH_SIZE as u64, bucket);
    }
    let mut t: HashTable<usize> = HashTable::new();
    for (i, k) in keys.iter().enumerate() {
        t.insert(k, i);
    }
    for (i, k) in keys.iter().enumerate() {
        assert_eq!(t.search(k), Some(&i));
    }
    assert_eq!(t.search("b"), None);
}

#[test]
fn first_insert_wins_on_duplicate_keys() {
    let mut t: HashTable<char> = HashTable::new();
    t.insert("k", 'A');
    t.insert("other", 'X');
    t.insert("k", 'B');
    assert_eq!(t.search("k"), Some(&'A'));
    assert_eq!(t.search("other"), Some(&'X'));
}

#[test]
fn non_ascii_keys() {
    let mut t: HashTable<u8> = HashTable::new();
    t.insert("é", 1);
    t.insert("e", 2);
    assert_eq!(t.search("é"), Some(&1));
    assert_eq!(t.search("e"), Some(&2));
}

#[test]
fn many_keys_all_retrievable() {
    let keys: Vec<String> = (0..500).map(|i| format!("key{}", i)).collect();
    let mut t: HashTable<usize> = HashTable::new();
    for (i, k) in keys.iter().enumerate() {
        t.insert(k, i);
    }
    for (i, k) in keys.iter().enumerate() {
        assert_eq!(t.search(k), Some(&i));
    }
}

#[test]
fn chain_append_and_search() {
    let mut head = HashNode::create_node("x", 1).unwrap();
    assert_eq!(head.search_node("x"), Some(&1));
    assert_eq!(head.search_node("y"), None);
    HashNode::insert_next_node(&mut head, HashNode::create_node("y", 2));
    HashNode::insert_next_node(&mut head, HashNode::create_node("x", 3));
    HashNode::insert_next_node(&mut head, HashNode::create_node("z", 4));
    assert_eq!(head.search_node("x"), Some(&1));
    assert_eq!(head.search_node("y"), Some(&2));
    assert_eq!(head.search_node("z"), Some(&4));
    assert_eq!(head.search_node("w"), None);
}

#[test]
fn chain_append_nothing_keeps_chain() {
    let mut head = HashNode::create_node("x", 1).unwrap();
    HashNode::insert_next_node(&mut head, None);
    HashNode::insert_next_node(&mut head, HashNode::create_node("y", 2));
    assert_eq!(head.search_node("y"), Some(&2));
}

#[test]
fn node_search_exact_match_only() {
    let n = *HashNode::create_node("Mingas", 1).unwrap();
    assert_eq!(n.search_node("mingas"), None);
    assert_eq!(n.search_node("Mingas "), None);
    assert_eq!(n.search_node("Mingas"), Some(&1));
}

#[test]
fn node_chain_first_match_wins() {
    let mut n = HashNode::create_node("k", 1).unwrap();
    HashNode::insert_next_node(&mut n, HashNode::create_node("k", 2));
    assert_eq!(n.search_node("k"), Some(&1));
}
