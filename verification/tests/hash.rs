use lookups::lookup::hash::HashLookup;
use lookups::lookup::hash::HashStore;
use lookups::lookup::store::position::PositionError;
use lookups::lookup::store::position::UniqueKeyPositon;
use lookups::lookup::store::Lookup;
use lookups::lookup::store::Retriever;
use lookups::lookup::store::Store;
use lookups::lookup::store::ViewCreator;
use std::collections::HashSet;

type UniqueKeyHash = HashStore<UniqueKeyPositon>;

#[test]
fn hash_create_view() {
    let mut idx = UniqueKeyHash::with_capacity(5);
    idx.insert(String::from("a"), 0).unwrap();
    idx.insert(String::from("b"), 1).unwrap();
    idx.insert(String::from("c"), 2).unwrap();
    idx.insert(String::from("s"), 4).unwrap();

    assert!(idx.key_exist("a"));

    let view = idx.create_view(vec![String::from("b"), String::from("s")]);
    assert!(!view.key_exist("a"));
    assert!(!view.key_exist("x"));

    assert!(view.key_exist("b"));
    assert!(view.key_exist("s"));

    assert_eq!(&[4], view.pos_by_key("s"));
    assert_eq!(&[1usize; 0], view.pos_by_key("c"));

    assert_eq!(
        vec![1, 4],
        view.pos_by_many_keys(vec!["a", "b", "-", "s"]).collect()
    );

    let keys = view.lookup().ext().keys();
    assert!(keys.contains(&String::from("b")));
    assert!(keys.contains(&String::from("s")));
}

#[test]
fn hash_store_and_lookup() {
    let mut idx = UniqueKeyHash::with_capacity(5);
    idx.insert(String::from("a"), 0).unwrap();
    idx.insert(String::from("b"), 1).unwrap();
    idx.insert(String::from("c"), 2).unwrap();
    idx.insert(String::from("s"), 4).unwrap();

    assert!(idx.key_exist("a"));
    assert!(!idx.key_exist("zz"));

    assert_eq!(&[1], idx.pos_by_key("b"));
    assert_eq!(&[2], idx.pos_by_key("c"));
    assert_eq!(&[1usize; 0], idx.pos_by_key("zz"));

    // check many keys
    assert_eq!(
        vec![0, 1, 4],
        idx.pos_by_many_keys(vec!["a", "b", "-", "s"]).collect()
    );

    let keys = idx.ext().keys().into_iter().collect::<HashSet<_>>();
    assert_eq!(4, keys.len());
    assert!(keys.contains("a"));
    assert!(keys.contains("b"));
    assert!(keys.contains("c"));
    assert!(keys.contains("s"));
}

#[test]
fn hash_by_name_scenario() {
    let mut idx = HashLookup::with_unique_key();
    for (name, pos) in [("Paul", 0), ("Mario", 5), ("Jasmin", 2)] {
        idx.insert(String::from(name), pos).unwrap();
    }

    assert_eq!(&[5], idx.pos_by_key("Mario"));
    assert_eq!(
        vec![0, 2],
        idx.pos_by_many_keys(vec!["Paul", "Jasmin"]).collect()
    );
    assert!(!idx.key_exist("Otto"));
}

#[test]
fn hash_round_trip() {
    let mut idx = HashLookup::with_multi_keys();
    idx.insert(String::from("k"), 7).unwrap();
    assert!(idx.pos_by_key("k").contains(&7));
    idx.delete(String::from("k"), &7);
    assert!(!idx.pos_by_key("k").contains(&7));
    assert!(!idx.key_exist("k"));
    assert!(idx.ext().keys().is_empty());
}

#[test]
fn hash_delete_of_absent_pair_changes_nothing() {
    let mut idx = HashLookup::with_multi_keys();
    idx.insert(String::from("a"), 1).unwrap();
    idx.insert(String::from("a"), 3).unwrap();

    idx.delete(String::from("zz"), &1);
    idx.delete(String::from("a"), &2);

    assert_eq!(&[1, 3], idx.pos_by_key("a"));
    assert_eq!(vec![String::from("a")], idx.ext().keys());
}

#[test]
fn hash_multi_positions_are_sorted() {
    let mut idx = HashLookup::with_multi_keys();
    for pos in [9, 2, 7, 2, 0, 9] {
        idx.insert(String::from("a"), pos).unwrap();
    }
    assert_eq!(&[0, 2, 7, 9], idx.pos_by_key("a"));
}

#[test]
fn hash_unique_refuses_second_position() {
    let mut idx = HashLookup::with_unique_key();
    idx.insert(String::from("a"), 1).unwrap();
    assert_eq!(Err(PositionError::Occupied), idx.insert(String::from("a"), 2));
    assert_eq!(&[1], idx.pos_by_key("a"));
    assert_eq!(Err(PositionError::Occupied), idx.insert(String::from("a"), 1));
    assert_eq!(&[1], idx.pos_by_key("a"));
}

#[test]
fn hash_many_keys_with_duplicates() {
    let mut idx = HashLookup::with_multi_keys();
    idx.insert(String::from("a"), 1).unwrap();
    idx.insert(String::from("b"), 3).unwrap();
    idx.insert(String::from("b"), 2).unwrap();
    assert_eq!(
        vec![1, 1, 2, 3],
        idx.pos_by_many_keys(vec!["a", "a", "b"]).collect()
    );
}

#[test]
fn hash_update_moves_the_position() {
    let mut idx = HashLookup::with_multi_keys();
    idx.insert(String::from("a"), 1).unwrap();
    idx.insert(String::from("a"), 2).unwrap();
    idx.update(String::from("a"), 1, String::from("b")).unwrap();
    assert_eq!(&[2], idx.pos_by_key("a"));
    assert_eq!(&[1], idx.pos_by_key("b"));
}

#[test]
fn hash_update_is_not_atomic() {
    let mut idx = HashLookup::with_unique_key();
    idx.insert(String::from("a"), 1).unwrap();
    idx.insert(String::from("b"), 2).unwrap();
    assert_eq!(
        Err(PositionError::Occupied),
        idx.update(String::from("a"), 1, String::from("b"))
    );
    assert!(!idx.key_exist("a"));
    assert_eq!(&[2], idx.pos_by_key("b"));
}

#[test]
fn hash_view_is_isolated() {
    let mut idx = HashLookup::with_multi_keys();
    idx.insert(String::from("a"), 1).unwrap();
    idx.insert(String::from("b"), 2).unwrap();
    let view = idx.create_view(vec![String::from("a"), String::from("a"), String::from("x")]);
    idx.insert(String::from("a"), 9).unwrap();
    idx.delete(String::from("a"), &1);
    assert_eq!(&[1], view.pos_by_key("a"));
    assert!(!view.key_exist("b"));
    assert_eq!(&[9], idx.pos_by_key("a"));
}

#[test]
fn hash_with_large_capacity() {
    let mut idx = HashStore::<Vec<usize>>::with_capacity(1_000_000);
    idx.insert(String::from("a"), 1).unwrap();
    assert_eq!(&[1], idx.pos_by_key("a"));
}

#[test]
fn walk_hands_out_one_position_at_a_time() {
    let mut idx = HashLookup::with_multi_keys();
    idx.insert(String::from("a"), 1).unwrap();
    idx.insert(String::from("c"), 3).unwrap();
    idx.insert(String::from("c"), 2).unwrap();
    let mut walk = idx.pos_by_many_keys(vec!["-", "a", "-", "-", "c", "-"]);
    assert_eq!(Some(1), walk.next());
    assert_eq!(Some(2), walk.next());
    assert_eq!(Some(3), walk.next());
    assert_eq!(None, walk.next());
    assert_eq!(None, walk.next());

    let mut none = idx.pos_by_many_keys(vec![]);
    assert_eq!(None, none.next());
}
