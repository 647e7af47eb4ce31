use lookups::lookup::map::UniqueMapIndex;
use lookups::lookup::map::UniqueMapLookup;
use lookups::lookup::store::Lookup;
use lookups::lookup::store::Retriever;
use lookups::lookup::store::Store;

#[test]
fn map_filter() {
    let mut idx = UniqueMapIndex::with_capacity(5);
    idx.insert(String::from("a"), 0).unwrap();
    idx.insert(String::from("b"), 1).unwrap();
    idx.insert(String::from("c"), 2).unwrap();
    idx.insert(String::from("s"), 4).unwrap();

    assert!(idx.key_exist("a"));
    assert!(!idx.key_exist("zz"));

    assert_eq!(&[1], idx.pos_by_key("b"));
    assert_eq!(&[2], idx.pos_by_key("c"));
    assert_eq!(&[1usize; 0], idx.pos_by_key("zz"));

    assert_eq!(
        vec![0, 1, 4],
        idx.pos_by_many_keys(vec!["a", "b", "-", "s"]).collect()
    );
}

#[test]
fn map_store_and_lookup() {
    let mut idx = UniqueMapLookup::with_capacity(5);
    idx.insert(String::from("a"), 0).unwrap();
    idx.insert(String::from("b"), 1).unwrap();
    idx.insert(String::from("c"), 2).unwrap();
    idx.insert(String::from("s"), 4).unwrap();

    assert!(idx.key_exist("a"));
    assert!(!idx.key_exist("zz"));

    assert_eq!(&[1], idx.pos_by_key("b"));
    assert_eq!(&[2], idx.pos_by_key("c"));
    assert_eq!(&[1usize; 0], idx.pos_by_key("zz"));

    assert_eq!(
        vec![0, 1, 4],
        idx.pos_by_many_keys(vec!["a", "b", "-", "s"]).collect()
    );

    let mut keys = idx.ext().keys();
    keys.sort();
    assert_eq!(vec!["a", "b", "c", "s"], keys);
}
