use lookups::lookup::store::position::PositionError;
use lookups::lookup::store::Lookup;
use lookups::lookup::store::Retriever;
use lookups::lookup::store::Store;
use lookups::lookup::uint::MultiUIntLookup;
use lookups::lookup::uint::UniqueUIntLookup;

#[test]
fn uint_by_insert() {
    let mut idx = MultiUIntLookup::<usize>::with_capacity(0);

    // both not set
    assert_eq!(None, idx.ext().min_key());
    assert_eq!(None, idx.ext().max_key());
    assert_eq!(0, idx.max_index());

    // first insert, max and min are equal
    idx.insert(1, 0).unwrap();
    assert_eq!(Some(1), idx.ext().min_key());
    assert_eq!(Some(1), idx.ext().max_key());
    assert_eq!(1, idx.max_index());

    // first insert, max and min are equal
    idx.insert(10, 1).unwrap();
    assert_eq!(Some(1), idx.ext().min_key());
    assert_eq!(Some(10), idx.ext().max_key());
    assert_eq!(10, idx.max_index());

    idx.insert(11, 2).unwrap();
    assert_eq!(Some(1), idx.ext().min_key());
    assert_eq!(Some(11), idx.ext().max_key());
    assert_eq!(11, idx.max_index());

    idx.delete(10, &1);
    idx.delete(11, &2);
    assert_eq!(Some(1), idx.ext().min_key());
    assert_eq!(Some(1), idx.ext().max_key());
    assert_eq!(1, idx.max_index());

    // remove last
    idx.delete(1, &0);
    assert_eq!(None, idx.ext().min_key());
    assert_eq!(None, idx.ext().max_key());
    assert_eq!(0, idx.max_index());
}

#[test]
fn uint_by_insertwith_capacity() {
    let mut idx = UniqueUIntLookup::<usize>::with_capacity(5);
    // both not set
    assert_eq!(None, idx.ext().min_key());
    assert_eq!(None, idx.ext().max_key());

    // first insert, max and min are equal
    idx.insert(1, 1).unwrap();
    assert_eq!(Some(1), idx.ext().min_key());
    assert_eq!(Some(1), idx.ext().max_key());

    // min and max are different
    idx.insert(4, 4).unwrap();
    assert_eq!(Some(1), idx.ext().min_key());
    assert_eq!(Some(4), idx.ext().max_key());

    // new min
    idx.insert(0, 0).unwrap();
    assert_eq!(Some(0), idx.ext().min_key());
    assert_eq!(Some(4), idx.ext().max_key());

    // new max
    idx.insert(6, 6).unwrap();
    assert_eq!(Some(0), idx.ext().min_key());
    assert_eq!(Some(6), idx.ext().max_key());
}

#[test]
fn uint_by_delete() {
    let mut idx = MultiUIntLookup::<usize>::with_capacity(5);

    // min/max not set
    assert_eq!(None, idx.ext().min_key());
    assert_eq!(None, idx.ext().max_key());

    // remove not exist key/pos pair
    idx.delete(1, &1);
    assert_eq!(None, idx.ext().min_key());
    assert_eq!(None, idx.ext().max_key());

    idx.insert(1, 1).unwrap();
    idx.insert(2, 2).unwrap();
    idx.insert(3, 2).unwrap();
    idx.insert(4, 4).unwrap();
    idx.insert(5, 5).unwrap();

    // remove min key
    idx.delete(1, &1);
    assert_eq!(Some(2), idx.ext().min_key());
    assert_eq!(Some(5), idx.ext().max_key());

    // remove no max and no min key
    idx.delete(4, &4);
    assert_eq!(Some(2), idx.ext().min_key());
    assert_eq!(Some(5), idx.ext().max_key());

    // remove min key
    idx.delete(2, &2);
    assert_eq!(Some(3), idx.ext().min_key());
    assert_eq!(Some(5), idx.ext().max_key());

    // invalid pos, no key is removed
    idx.delete(3, &3);
    assert_eq!(Some(3), idx.ext().min_key());
    assert_eq!(Some(5), idx.ext().max_key());

    // remove last key for pos 2
    idx.delete(3, &2);
    assert_eq!(Some(5), idx.ext().min_key());
    assert_eq!(Some(5), idx.ext().max_key());

    // remove last key
    idx.delete(5, &5);
    assert_eq!(None, idx.ext().min_key());
    assert_eq!(None, idx.ext().max_key());
}

#[test]
fn by_insert_and_delete() {
    let mut idx = UniqueUIntLookup::<usize>::with_capacity(5);
    idx.insert(1, 1).unwrap();
    idx.insert(3, 3).unwrap();

    idx.delete(3, &3);
    idx.delete(1, &1);

    idx.insert(2, 2).unwrap();
    idx.insert(3, 3).unwrap();
}

#[test]
fn uint_store_and_lookup() {
    let mut idx = UniqueUIntLookup::<usize>::with_capacity(5);
    idx.insert(0, 0).unwrap();
    idx.insert(1, 1).unwrap();
    idx.insert(2, 2).unwrap();
    idx.insert(4, 4).unwrap();

    assert!(idx.key_exist(0));
    assert!(!idx.key_exist(1_000));

    assert_eq!(&[1], idx.pos_by_key(1));
    assert_eq!(&[2], idx.pos_by_key(2));
    assert_eq!(&[1usize; 0], idx.pos_by_key(1_000));

    // check many keys
    assert_eq!(
        vec![0, 1, 4],
        idx.pos_by_many_keys(vec![0, 1, 1_000, 4]).collect()
    );
}

#[test]
fn uint_keys_and_the_walk_down() {
    let mut idx = MultiUIntLookup::<u8>::with_capacity(2);
    assert!(idx.ext().keys().is_empty());
    assert_eq!(0, idx.find_new_max_index());
    idx.insert(7, 1).unwrap();
    idx.insert(0, 2).unwrap();
    idx.insert(3, 3).unwrap();
    assert_eq!(vec![0, 3, 7], idx.ext().keys());
    assert_eq!(7, idx.find_new_max_index());
    idx.delete(7, &1);
    assert_eq!(3, idx.max_index());
    assert_eq!(vec![0, 3], idx.ext().keys());
}

#[test]
fn uint_refuses() {
    let mut idx = UniqueUIntLookup::<usize>::with_capacity(0);
    assert_eq!(Err(PositionError::OutOfRange), idx.insert(usize::MAX, 1));
    idx.insert(2, 1).unwrap();
    assert_eq!(Err(PositionError::Occupied), idx.insert(2, 5));
    assert_eq!(&[1], idx.pos_by_key(2));
}
