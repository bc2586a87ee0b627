use seqtrie::string_trie_map::StringTrieMap;
use seqtrie::symboltable::SymbolTable;

#[test]
fn symbol_round_trip() {
    let mut t = SymbolTable::new();
    assert!(t.is_empty());
    let k = t.add_symbol("hello".to_string());
    assert_eq!(t.get_symbol(k), Some(&"hello".to_string()));
    assert_eq!(t.get_key("hello"), Some(k));
    assert_eq!(t.get_key("other"), None);
    assert_eq!(t.get_symbol(k.wrapping_add(1)), None);
    assert_eq!(t.len(), 1);
    assert!(!t.is_empty());
}

#[test]
fn symbol_count_counts_additions() {
    let mut t = SymbolTable::new();
    let k1 = t.add_symbol("twice".to_string());
    let k2 = t.add_symbol("twice".to_string());
    assert_eq!(k1, k2);
    assert_eq!(t.len(), 2);
}

#[test]
fn distinct_symbols_get_distinct_keys() {
    let mut t = SymbolTable::new();
    let ka = t.add_symbol("alpha".to_string());
    let kb = t.add_symbol("beta".to_string());
    assert_ne!(ka, kb);
    assert_eq!(t.get_symbol(ka), Some(&"alpha".to_string()));
    assert_eq!(t.get_symbol(kb), Some(&"beta".to_string()));
}

#[test]
fn test_trie_map() {
    let mut map = StringTrieMap::new();
    map.insert("/boot", "dir");
    assert_eq!(map.get("/boot"), Some("dir".to_string()));
    map.insert("alpha", "beta");
    assert_eq!(map.get("alpha"), Some("beta".to_string()));
    assert_eq!(map.len(), 2);
    map.remove("alpha");
    assert_eq!(map.get("alpha"), None);
    assert_eq!(map.len(), 1);
    assert_eq!(map.get("/boot"), Some("dir".to_string()));
    map.insert("gamma  rho", "sigma");
    assert_eq!(map.get("gamma  rho"), Some("sigma".to_string()));
    map.insert("gamma", "sigma  sigma");
    assert_eq!(map.get("gamma"), Some("sigma  sigma".to_string()));
}

#[test]
fn map_get_unknown_words() {
    let map = StringTrieMap::new();
    assert_eq!(map.get("never interned"), None);
    let mut map = StringTrieMap::new();
    map.insert("known", "value");
    assert_eq!(map.get("known unknown"), None);
    assert_eq!(map.len(), 1);
}

#[test]
fn map_remove_missing() {
    let mut map = StringTrieMap::new();
    map.insert("key", "val");
    assert_eq!(map.remove("absent"), None);
    assert_eq!(map.len(), 1);
    assert_eq!(map.remove("key"), Some("val".to_string()));
    assert_eq!(map.len(), 0);
}

#[test]
fn symbol_table_bytes_round_trip() {
    let mut t = SymbolTable::new();
    t.add_symbol("alpha".to_string());
    t.add_symbol("beta".to_string());
    t.add_symbol("überraschung".to_string());
    let back = SymbolTable::from_bytes(&t.to_bytes()).unwrap();
    assert_eq!(back.len(), t.len());
    let ka = t.get_key("alpha").unwrap();
    let ku = t.get_key("überraschung").unwrap();
    assert_eq!(back.get_symbol(ka), Some(&"alpha".to_string()));
    assert_eq!(back.get_symbol(ku), Some(&"überraschung".to_string()));
    assert_eq!(back.get_key("beta"), t.get_key("beta"));
    assert!(SymbolTable::from_bytes(&vec![3, 1]).is_err());
}

#[test]
fn map_parts_round_trip() {
    let mut map = StringTrieMap::new();
    map.insert("/boot", "dir");
    map.insert("gamma  rho", "sigma");
    let trie_bytes = map.trie_to_bytes();
    let table_bytes = map.table_to_bytes();
    let back = StringTrieMap::from_parts_bytes(&trie_bytes, &table_bytes).unwrap();
    assert_eq!(back.len(), map.len());
    assert_eq!(back.get("/boot"), Some("dir".to_string()));
    assert_eq!(back.get("gamma  rho"), Some("sigma".to_string()));
    assert_eq!(back.get("absent"), None);
}

#[test]
fn symbol_table_rejects_trailing_bytes() {
    let mut t = SymbolTable::new();
    t.add_symbol("alpha".to_string());
    let mut bytes = t.to_bytes();
    assert!(SymbolTable::from_bytes(&bytes).is_ok());
    bytes.push(0);
    assert!(SymbolTable::from_bytes(&bytes).is_err());
    bytes.pop();
    bytes.pop();
    assert!(SymbolTable::from_bytes(&bytes).is_err());
}
