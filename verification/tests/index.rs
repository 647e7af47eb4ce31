use lookups::lookup::index::IndexLookup;
use lookups::lookup::index::MultiPosIndex;
use lookups::lookup::index::UniquePosIndex;
use lookups::lookup::index::PRE_ALLOC_SIZE;
use lookups::lookup::store::position::PositionError;
use lookups::lookup::store::Lookup;
use lookups::lookup::store::Retriever;
use lookups::lookup::store::Store;
use lookups::lookup::store::ViewCreator;

#[test]
fn index_create_view() {
    let names = vec!["a", "b", "c", "-", "s"];
    let mut idx = MultiPosIndex::<u8>::with_capacity(0);
    idx.insert(0, 0).unwrap();
    idx.insert(1, 1).unwrap();
    idx.insert(2, 2).unwrap();
    idx.insert(4, 4).unwrap();

    assert!(idx.key_exist(0));

    let view = idx.create_view(vec![1, 4]);
    assert!(!view.key_exist(0));
    assert!(!view.key_exist(2));

    assert!(view.key_exist(1));
    assert!(view.key_exist(4));

    assert_eq!(&[4], view.pos_by_key(4));
    assert_eq!("s", names[view.pos_by_key(4)[0]]);
    assert_eq!(&[1], view.pos_by_key(1));
    assert_eq!("b", names[view.pos_by_key(1)[0]]);

    assert_eq!(
        vec![1, 4],
        view.pos_by_many_keys(vec![0, 1, 2, 99, 4]).collect()
    );

    assert_eq!(1, view.lookup().ext().min_key().unwrap());
    assert_eq!(4, view.lookup().ext().max_key().unwrap());
}

#[test]
fn index_by_insert() {
    let mut idx = MultiPosIndex::<usize>::with_capacity(0);

    // both not set
    assert_eq!(None, idx.ext().min_key());
    assert_eq!(None, idx.ext().max_key());
    assert!(idx.ext().keys().is_empty());

    // first insert, max and min are equal
    idx.insert(1, 0).unwrap();
    assert_eq!(Some(1), idx.ext().min_key());
    assert_eq!(Some(1), idx.ext().max_key());
    assert_eq!(vec![1], idx.ext().keys());

    // first insert, max and min are equal
    idx.insert(10, 1).unwrap();
    assert_eq!(Some(1), idx.ext().min_key());
    assert_eq!(Some(10), idx.ext().max_key());
    assert_eq!(vec![1, 10], idx.ext().keys());

    idx.insert(11, 2).unwrap();
    assert_eq!(Some(1), idx.ext().min_key());
    assert_eq!(Some(11), idx.ext().max_key());
    assert_eq!(vec![1, 10, 11], idx.ext().keys());

    idx.delete(10, &1);
    idx.delete(11, &2);
    assert_eq!(Some(1), idx.ext().min_key());
    assert_eq!(Some(1), idx.ext().max_key());
    assert_eq!(vec![1], idx.ext().keys());

    // remove last
    idx.delete(1, &0);
    assert_eq!(None, idx.ext().min_key());
    assert_eq!(None, idx.ext().max_key());
    assert!(idx.ext().keys().is_empty());
}

#[test]
fn index_by_insertwith_capacity() {
    let mut idx = MultiPosIndex::<usize>::with_capacity(5);
    // both not set
    assert_eq!(None, idx.ext().min_key());
    assert_eq!(None, idx.ext().max_key());
    assert!(idx.ext().keys().is_empty());

    // first insert, max and min are equal
    idx.insert(1, 1).unwrap();
    assert_eq!(Some(1), idx.ext().min_key());
    assert_eq!(Some(1), idx.ext().max_key());
    assert_eq!(vec![1], idx.ext().keys());

    // min and max are different
    idx.insert(4, 4).unwrap();
    assert_eq!(Some(1), idx.ext().min_key());
    assert_eq!(Some(4), idx.ext().max_key());
    assert_eq!(vec![1, 4], idx.ext().keys());

    // new min
    idx.insert(0, 0).unwrap();
    assert_eq!(Some(0), idx.ext().min_key());
    assert_eq!(Some(4), idx.ext().max_key());
    assert_eq!(vec![0, 1, 4], idx.ext().keys());

    // new max
    idx.insert(6, 6).unwrap();
    assert_eq!(Some(0), idx.ext().min_key());
    assert_eq!(Some(6), idx.ext().max_key());
    assert_eq!(vec![0, 1, 4, 6], idx.ext().keys());
}

#[test]
fn index_by_delete() {
    let mut idx = MultiPosIndex::<usize>::with_capacity(5);

    // min/max not set
    assert_eq!(None, idx.ext().min_key());
    assert_eq!(None, idx.ext().max_key());

    // remove not exist key/pos pair
    idx.delete(1, &1);
    assert_eq!(None, idx.ext().min_key());
    assert_eq!(None, idx.ext().max_key());

    idx.insert(1, 1).unwrap();
    idx.insert(2, 2).unwrap();
    idx.insert(3, 2).unwrap();
    idx.insert(4, 4).unwrap();
    idx.insert(5, 5).unwrap();
    assert_eq!(vec![1, 2, 3, 4, 5], idx.ext().keys());

    // remove min key
    idx.delete(1, &1);
    assert_eq!(Some(2), idx.ext().min_key());
    assert_eq!(Some(5), idx.ext().max_key());
    assert_eq!(vec![2, 3, 4, 5], idx.ext().keys());

    // remove no max and no min key
    idx.delete(4, &4);
    assert_eq!(Some(2), idx.ext().min_key());
    assert_eq!(Some(5), idx.ext().max_key());
    assert_eq!(vec![2, 3, 5], idx.ext().keys());

    // remove min key
    idx.delete(2, &2);
    assert_eq!(Some(3), idx.ext().min_key());
    assert_eq!(Some(5), idx.ext().max_key());
    assert_eq!(vec![3, 5], idx.ext().keys());

    // invalid pos, no key is removed
    idx.delete(3, &3);
    assert_eq!(Some(3), idx.ext().min_key());
    assert_eq!(Some(5), idx.ext().max_key());
    assert_eq!(vec![3, 5], idx.ext().keys());

    // remove last key for pos 2
    idx.delete(3, &2);
    assert_eq!(Some(5), idx.ext().min_key());
    assert_eq!(Some(5), idx.ext().max_key());
    assert_eq!(vec![5], idx.ext().keys());

    // remove last key
    idx.delete(5, &5);
    assert_eq!(None, idx.ext().min_key());
    assert_eq!(None, idx.ext().max_key());
    assert!(idx.ext().keys().is_empty());
}

#[test]
fn index_store_and_lookup() {
    let mut idx = UniquePosIndex::with_capacity(5);
    idx.insert(0usize, 0).unwrap();
    idx.insert(1, 1).unwrap();
    idx.insert(2, 2).unwrap();
    idx.insert(4, 4).unwrap();

    assert!(idx.key_exist(0));
    assert!(!idx.key_exist(1_000));

    assert_eq!(&[1], idx.pos_by_key(1));
    assert_eq!(&[2], idx.pos_by_key(2));
    assert_eq!(&[1usize; 0], idx.pos_by_key(1_000));

    // check many keys
    assert_eq!(
        vec![0, 1, 4],
        idx.pos_by_many_keys(vec![0, 1, 1_000, 4]).collect()
    );
}

#[derive(Debug, Clone, PartialEq)]
struct Complex {
    id: usize,
    name: String,
}

#[test]
fn store_and_lookup_complex_key() {
    let items = vec![
        Complex {
            id: 1,
            name: String::from("0"),
        },
        Complex {
            id: 2,
            name: String::from("1"),
        },
        Complex {
            id: 3,
            name: String::from("2"),
        },
        Complex {
            id: 4,
            name: String::from("4"),
        },
    ];

    let mut idx = UniquePosIndex::<usize>::with_capacity(5);
    idx.insert(0, 0).unwrap();
    idx.insert(1, 1).unwrap();
    idx.insert(2, 2).unwrap();
    idx.insert(4, 3).unwrap();

    assert!(idx.key_exist(0));

    assert_eq!(
        &[Complex {
            id: 2,
            name: String::from("1"),
        }],
        &items[idx.pos_by_key(1)[0]..=idx.pos_by_key(1)[0]]
    );
}

#[test]
fn index_bounds_scenario() {
    let mut idx = IndexLookup::<usize, Vec<usize>>::with_multi_keys();
    assert_eq!(None, idx.ext().min_key());
    assert_eq!(None, idx.ext().max_key());

    idx.insert(5, 0).unwrap();
    idx.insert(1, 1).unwrap();
    idx.insert(3, 2).unwrap();
    assert_eq!(Some(1), idx.ext().min_key());
    assert_eq!(Some(5), idx.ext().max_key());

    idx.delete(1, &1);
    assert_eq!(Some(3), idx.ext().min_key());
    assert_eq!(Some(5), idx.ext().max_key());
}

#[test]
fn index_round_trip() {
    let mut idx = MultiPosIndex::<u16>::with_capacity(0);
    idx.insert(3, 7).unwrap();
    assert!(idx.pos_by_key(3).contains(&7));
    idx.delete(3, &7);
    assert!(!idx.pos_by_key(3).contains(&7));
    assert!(!idx.key_exist(3));
}

#[test]
fn index_delete_of_absent_pair_changes_nothing() {
    let mut idx = MultiPosIndex::<usize>::with_capacity(0);
    idx.insert(2, 1).unwrap();
    idx.insert(2, 3).unwrap();

    idx.delete(7, &1);
    idx.delete(1_000_000, &1);
    idx.delete(2, &2);

    assert_eq!(&[1, 3], idx.pos_by_key(2));
    assert_eq!(vec![2], idx.ext().keys());
    assert_eq!(Some(2), idx.ext().min_key());
    assert_eq!(Some(2), idx.ext().max_key());
}

#[test]
fn index_multi_positions_are_sorted() {
    let mut idx = MultiPosIndex::<u32>::with_capacity(0);
    for pos in [9, 2, 7, 2, 0, 9] {
        idx.insert(4, pos).unwrap();
    }
    assert_eq!(&[0, 2, 7, 9], idx.pos_by_key(4));
}

#[test]
fn index_unique_refuses_second_position() {
    let mut idx = UniquePosIndex::<usize>::with_unique_key();
    idx.insert(3, 1).unwrap();
    assert_eq!(Err(PositionError::Occupied), idx.insert(3, 2));
    assert_eq!(&[1], idx.pos_by_key(3));
    assert_eq!(vec![3], idx.ext().keys());
}

#[test]
fn index_refuses_a_key_beyond_reach() {
    let mut idx = MultiPosIndex::<usize>::with_capacity(0);
    assert_eq!(Err(PositionError::OutOfRange), idx.insert(usize::MAX, 1));
    assert_eq!(
        Err(PositionError::OutOfRange),
        idx.insert(usize::MAX - PRE_ALLOC_SIZE + 1, 1)
    );
    assert!(!idx.key_exist(usize::MAX));
    assert_eq!(None, idx.ext().max_key());
}

#[test]
fn index_many_keys_with_duplicates() {
    let mut idx = MultiPosIndex::<usize>::with_capacity(0);
    idx.insert(1, 1).unwrap();
    idx.insert(2, 3).unwrap();
    idx.insert(2, 2).unwrap();
    assert_eq!(
        vec![1, 1, 2, 3],
        idx.pos_by_many_keys(vec![1, 1, 2]).collect()
    );
}

#[test]
fn index_update_moves_the_position() {
    let mut idx = MultiPosIndex::<usize>::with_capacity(0);
    idx.insert(1, 1).unwrap();
    idx.insert(1, 2).unwrap();
    idx.update(1, 1, 8).unwrap();
    assert_eq!(&[2], idx.pos_by_key(1));
    assert_eq!(&[1], idx.pos_by_key(8));
    assert_eq!(vec![1, 8], idx.ext().keys());
}

#[test]
fn index_view_of_unknown_and_repeated_keys() {
    let mut idx = MultiPosIndex::<usize>::with_capacity(0);
    idx.insert(1, 1).unwrap();
    idx.insert(3, 2).unwrap();
    idx.insert(3, 5).unwrap();
    let view = idx.create_view(vec![3, 3, 500, 2]);
    assert_eq!(&[2, 5], view.pos_by_key(3));
    assert!(!view.key_exist(1));
    assert_eq!(vec![3], view.lookup().ext().keys());
    assert_eq!(Some(3), view.lookup().ext().min_key());

    let none = idx.create_view(vec![]);
    assert_eq!(None, none.lookup().ext().min_key());
    assert!(none.lookup().ext().keys().is_empty());
}
