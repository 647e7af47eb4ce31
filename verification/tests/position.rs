use lookups::lookup::store::position::KeyPosition;
use lookups::lookup::store::position::KeyPositionAsSlice;
use lookups::lookup::store::position::MultiKeyPositon;
use lookups::lookup::store::position::search;
use lookups::lookup::store::position::PositionError;
use lookups::lookup::store::position::UniqueKeyPositon;

#[test]
fn unique_new() {
    assert_eq!(UniqueKeyPositon::from_pos(7), Some(7));
    assert_eq!(UniqueKeyPositon::from_pos(7).as_slice(), &[7]);
}

#[test]
fn as_position() {
    let mut x = UniqueKeyPositon::from_pos(1);

    assert_eq!(x.as_slice(), &[1; 1]);

    assert!(x.remove_pos(&1));
    assert_eq!(x.as_slice(), &[]);
}

#[test]
fn remove_pos() {
    let mut x = UniqueKeyPositon::from_pos(1);

    // invalid key
    assert!(!x.remove_pos(&2));

    // remove twice
    assert!(x.remove_pos(&1));
    assert!(x.remove_pos(&1));

    // the key is alway removed, also returns true for ever
    assert!(x.remove_pos(&2));
}

#[test]
fn multi_new() {
    assert_eq!(MultiKeyPositon::from_pos(7), vec![7]);
    assert_eq!(MultiKeyPositon::from_pos(7).as_slice(), &[7]);
}

#[test]
fn multi_position_and_are_ordered() {
    let mut m = MultiKeyPositon::from_pos(2);
    assert_eq!(&[2], m.as_slice());

    m.add_pos(1).unwrap();
    assert_eq!(&[1, 2], m.as_slice());

    m.add_pos(0).unwrap();
    assert_eq!(&[0, 1, 2], m.as_slice());
}

#[test]
fn multi_duplicate() {
    let mut m = MultiKeyPositon::from_pos(1);
    assert_eq!(&[1], m.as_slice());

    // ignore add: 1, 1 exists already
    m.add_pos(1).unwrap();
    assert_eq!(&[1], m.as_slice());
}

#[test]
fn multi_ordered() {
    let mut m = MultiKeyPositon::from_pos(5);
    assert_eq!(&[5], m.as_slice());

    m.add_pos(3).unwrap();
    m.add_pos(1).unwrap();
    m.add_pos(4).unwrap();

    assert_eq!(&[1, 3, 4, 5], m.as_slice());
}

#[test]
fn position_remove() {
    let mut m = MultiKeyPositon::from_pos(5);
    m.add_pos(3).unwrap();
    m.add_pos(2).unwrap();

    assert_eq!(&[2, 3, 5], m.as_slice());

    assert!(!m.remove_pos(&3));

    // remove 3 twice, no problem
    assert!(!m.remove_pos(&3));

    assert!(!m.remove_pos(&2));

    // remove last pos
    assert!(m.remove_pos(&5));

    // remove after last
    assert!(m.remove_pos(&3));
}

#[test]
fn unique_refuses_a_second_position() {
    let mut x = UniqueKeyPositon::from_pos(1);
    assert_eq!(Err(PositionError::Occupied), x.add_pos(2));
    assert_eq!(Some(1), x);
    assert_eq!(Err(PositionError::Occupied), x.add_pos(1));
    assert_eq!(Some(1), x);
}

#[test]
fn unique_takes_a_position_when_empty() {
    let mut x = UniqueKeyPositon::from_pos(1);
    assert!(x.remove_pos(&1));
    assert_eq!(Ok(()), x.add_pos(4));
    assert_eq!(&[4], KeyPositionAsSlice::as_slice(&x));
}

#[test]
fn unique_remove_on_empty_says_gone() {
    let mut x: UniqueKeyPositon = None;
    assert!(x.remove_pos(&9));
    assert_eq!(None, x);
}

#[test]
fn positions_convert_both_ways() {
    assert_eq!(vec![3], UniqueKeyPositon::from_pos(3).into_positions());
    assert_eq!(Vec::<usize>::new(), (None as UniqueKeyPositon).into_positions());
    assert_eq!(Some(3), UniqueKeyPositon::from_positions(vec![3]));
    assert_eq!(None, UniqueKeyPositon::from_positions(vec![]));
    assert_eq!(vec![1, 2], MultiKeyPositon::from_positions(vec![1, 2]).into_positions());
}

#[test]
fn search_finds_the_place() {
    let held = vec![2, 4, 6];
    assert_eq!(0, search(&held, 1));
    assert_eq!(0, search(&held, 2));
    assert_eq!(1, search(&held, 3));
    assert_eq!(2, search(&held, 6));
    assert_eq!(3, search(&held, 7));
    assert_eq!(0, search(&Vec::new(), 7));
}
