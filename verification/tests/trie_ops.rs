use seqtrie::trie::Trie;

fn sval(s: &str) -> Vec<i64> {
    s.bytes().map(|x| x as i64).collect::<Vec<i64>>()
}

fn ival(v: i32) -> Vec<i64> {
    vec![v as i64]
}

const TEST_DATA: [(&str, i32); 7] = [
    ("abcdefgh", 19),
    ("abcdef", 18),
    ("abcd", 17),
    ("ab", 16),
    ("a", 15),
    ("acbdef", 30),
    ("bcdefgh", 29),
];

fn dummy_trie() -> Trie {
    let mut t = Trie::new();
    for &(k, v) in &TEST_DATA {
        t.insert(sval(k), ival(v));
    }
    assert!(t.check_integrity());
    t
}

#[test]
fn get_nonexistant() {
    let trie = dummy_trie();
    assert!(trie.get(sval("nonexistant")).is_none());
    assert!(trie.get(sval("")).is_none());
    assert!(trie.get(sval("abcx")).is_none());
    assert!(trie.get(sval("x")).is_none());
}

#[test]
fn unicode() {
    let mut trie = Trie::new();
    trie.insert(sval("bär"), vec![1]);
    trie.insert(sval("bären"), vec![2]);
    assert_eq!(*trie.get(sval("bär")).unwrap(), vec![1]);
}

#[test]
fn insert_replace() {
    let mut trie = Trie::new();
    assert_eq!(trie.insert(sval("haskell"), vec![18]), None);
    let length = trie.len();
    assert_eq!(trie.insert(sval("haskell"), vec![36]), Some(vec![18]));
    assert_eq!(trie.len(), length);
}

#[test]
fn insert_similar() {
    let mut trie = Trie::new();
    trie.insert(sval("a"), vec![1, 4]);
    trie.insert(sval("p"), vec![1, 3]);
    assert_eq!(trie.get(sval("a")), Some(&vec![1, 4]));
    assert_eq!(trie.get(sval("p")), Some(&vec![1, 3]));
    trie.insert(sval("a"), vec![1, 5]);
    assert_eq!(trie.get(sval("a")), Some(&vec![1, 5]));
    assert_eq!(trie.len(), 2);
    trie.remove(sval("a"));
    assert_eq!(trie.len(), 1);
    assert_eq!(trie.get(sval("a")), None);
}

#[test]
fn remove() {
    let mut trie = dummy_trie();
    for &(key, val) in &TEST_DATA {
        let res = trie.remove(sval(key));
        assert_eq!(
            res,
            Some(ival(val)),
            "{}",
            format!("key: {:?} returned None \n {:#?}", sval(key), trie)
        );
        assert!(trie.check_integrity());
    }
    assert!(trie.is_empty());
    for &(key, _) in &TEST_DATA {
        assert!(trie.get(sval(key)).is_none(), "{}", format!("key: `{:?}` is not None", &key));
    }
}

#[test]
fn remove_simple() {
    let mut trie = Trie::new();
    trie.insert(sval("HELL"), vec![66]);
    trie.insert(sval("HELLO"), vec![77]);
    let val = trie.remove(sval("HELLO"));
    assert_eq!(val, Some(vec![77]));
}

#[test]
fn remove_plus_insertion() {
    let mut trie = Trie::new();
    trie.insert(sval("HELL"), vec![66]);
    trie.insert(sval("HELLO"), vec![77]);
    let val = trie.remove(sval("HELLO"));
    trie.insert(sval("HELLO"), vec![88]);
    assert_eq!(val, Some(vec![77]));
    assert_eq!(trie.get(sval("HELLO")), Some(&vec![88]));
}

#[test]
fn remove_non_existent() {
    let mut trie = Trie::new();
    trie.insert(sval("acab"), vec![1]);
    assert_eq!(trie.remove(sval("abc")), None);
    assert_eq!(trie.remove(sval("acaba")), None);
    assert_eq!(trie.remove(sval("a")), None);
    assert_eq!(trie.remove(sval("")), None);
    assert_eq!(trie.len(), 1);
    trie.insert(sval("acaz"), vec![1]);
    assert_eq!(trie.remove(sval("acb")), None);
    assert_eq!(trie.remove(sval("acaca")), None);
    assert_eq!(trie.remove(sval("aca")), None);
    assert_eq!(trie.len(), 2);
}

#[test]
fn get_prefix_bug() {
    let mut trie = Trie::new();
    trie.insert(sval("abdc"), vec![5]);
    trie.insert(sval("abde"), vec![6]);
    assert!(trie.get(sval("abc")).is_none());
}

#[test]
fn root_replace_bug() {
    let mut trie = Trie::new();
    trie.insert(sval("a"), sval(""));
    trie.insert(sval("p"), sval(""));
    trie.remove(sval("a"));
    assert_eq!(trie.len(), 1);
    trie.remove(sval("p"));
    assert_eq!(trie.len(), 0);
}

#[test]
fn test_get_borrow() {
    let mut trie = Trie::new();
    trie.insert(sval("/boot"), sval("dir"));
    assert_eq!(*trie.get(sval("/boot")).unwrap(), sval("dir"));
}

#[test]
fn test_remove_borrow() {
    let mut trie = Trie::new();
    trie.insert(sval("/boot"), sval("dir"));
    assert_eq!(trie.remove(sval("/boot")).unwrap(), sval("dir"));
}

#[test]
fn prefix_independence() {
    let mut trie = Trie::new();
    trie.insert(vec![1, 2, 3, 4, 5, 6], vec![18]);
    trie.insert(vec![1, 2, 3, 4], vec![17]);
    trie.insert(vec![1, 2], vec![16]);
    assert_eq!(trie.get(vec![1, 2, 3, 4, 5, 6]), Some(&vec![18]));
    assert_eq!(trie.get(vec![1, 2, 3, 4]), Some(&vec![17]));
    assert_eq!(trie.get(vec![1, 2]), Some(&vec![16]));
    assert_eq!(trie.len(), 3);
    assert_eq!(trie.remove(vec![1, 2, 3, 4]), Some(vec![17]));
    assert_eq!(trie.get(vec![1, 2, 3, 4, 5, 6]), Some(&vec![18]));
    assert_eq!(trie.get(vec![1, 2]), Some(&vec![16]));
    assert!(trie.check_integrity());
}

#[test]
fn deep_removal_scenario() {
    let mut trie = Trie::new();
    trie.insert(vec![97, 98, 99, 100, 101, 102, 103, 104], vec![19]);
    trie.insert(vec![97, 98, 99, 100, 101, 102], vec![18]);
    trie.insert(vec![97, 98], vec![16]);
    trie.insert(vec![97], vec![15]);
    assert_eq!(trie.get(vec![97, 98]), Some(&vec![16]));
    assert_eq!(trie.get(vec![97, 99]), None);
    assert_eq!(trie.len(), 4);
    assert_eq!(trie.remove(vec![97]), Some(vec![15]));
    assert_eq!(trie.remove(vec![97, 98]), Some(vec![16]));
    assert_eq!(trie.len(), 2);
    assert_eq!(trie.get(vec![97, 98, 99, 100, 101, 102]), Some(&vec![18]));
    assert_eq!(trie.get(vec![97, 98, 99, 100, 101, 102, 103, 104]), Some(&vec![19]));
}

#[test]
fn empty_key_degenerate_insert() {
    let mut trie = Trie::new();
    assert_eq!(trie.insert(vec![], vec![7]), None);
    assert_eq!(trie.len(), 1);
    assert_eq!(trie.get(vec![]), None);
    assert_eq!(trie.remove(vec![]), None);
    assert_eq!(trie.len(), 1);
}

#[test]
fn clear_resets() {
    let mut trie = dummy_trie();
    assert!(!trie.is_empty());
    trie.clear();
    assert!(trie.is_empty());
    assert_eq!(trie.len(), 0);
    assert!(trie.get(sval("a")).is_none());
}

#[test]
fn key_values_lists_entries() {
    let mut trie = Trie::new();
    trie.insert(vec![2], vec![20]);
    trie.insert(vec![2, 9], vec![29]);
    let kvs = trie.key_values();
    assert_eq!(kvs.len(), 2);
    assert!(kvs.contains(&(vec![2, 9], vec![29])));
    assert!(kvs.contains(&(vec![2], vec![20])));
}

#[test]
fn collision_refused() {
    // first elements 16 (even: high nibble 1) and 1 (odd: low nibble 1)
    // select the same bucket while differing, which the no-chain layout
    // cannot store
    let mut trie = Trie::new();
    assert!(trie.insertable(&vec![16, 5]));
    trie.insert(vec![16, 5], vec![1]);
    assert!(!trie.insertable(&vec![1, 5]));
    match trie.try_insert(vec![1, 5], vec![2]) {
        Ok(_) => panic!("collision accepted"),
        Err((k, v)) => {
            assert_eq!(k, vec![1, 5]);
            assert_eq!(v, vec![2]);
        }
    }
    assert_eq!(trie.len(), 1);
}

#[test]
fn codec_round_trip() {
    let trie = dummy_trie();
    let bytes = trie.to_bytes();
    let back = Trie::from_bytes(&bytes).unwrap();
    assert_eq!(back, trie);
    assert_eq!(back.len(), trie.len());
    assert!(back.check_integrity());
}

#[test]
fn codec_round_trip_empty() {
    let trie = Trie::new();
    let back = Trie::from_bytes(&trie.to_bytes()).unwrap();
    assert_eq!(back, trie);
    assert_eq!(back.len(), 0);
}

#[test]
fn codec_rejects_garbage() {
    assert!(Trie::from_bytes(&vec![]).is_err());
    assert!(Trie::from_bytes(&vec![1, 2, 3]).is_err());
    let mut bytes = dummy_trie().to_bytes();
    bytes.push(0);
    assert!(Trie::from_bytes(&bytes).is_err());
    bytes.pop();
    bytes.pop();
    assert!(Trie::from_bytes(&bytes).is_err());
}

#[test]
fn many_distinct_keys_round_trip() {
    let mut trie = Trie::new();
    let keys: Vec<Vec<i64>> = vec![
        vec![1],
        vec![1, 2],
        vec![1, 2, 3],
        vec![2, 7, 9],
        vec![300],
        vec![-5, 4],
        vec![35],
        vec![80, 1],
    ];
    for (n, k) in keys.iter().enumerate() {
        assert!(trie.insertable(k));
        assert_eq!(trie.insert(k.clone(), vec![n as i64]), None);
    }
    assert_eq!(trie.len(), keys.len());
    assert!(trie.check_integrity());
    for (n, k) in keys.iter().enumerate() {
        assert_eq!(trie.get(k.clone()), Some(&vec![n as i64]));
    }
}

#[test]
fn doubled_suffix_key_aliases() {
    // a key ending in a doubled block can collide with the descent's
    // own-label shortcut: storing [1,2,1,2] after [1,2] overwrites the
    // shorter key's entry instead of creating a second one
    let mut trie = Trie::new();
    trie.insert(vec![1, 2], vec![10]);
    assert_eq!(trie.insert(vec![1, 2, 1, 2], vec![20]), Some(vec![10]));
    assert_eq!(trie.len(), 1);
    assert_eq!(trie.get(vec![1, 2]), Some(&vec![20]));
    assert_eq!(trie.get(vec![1, 2, 1, 2]), Some(&vec![20]));
}
