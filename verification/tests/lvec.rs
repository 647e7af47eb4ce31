use lookups::collections::ro::LVec;
use lookups::collections::rw::list::LVec as GrowingLVec;
use lookups::lookup::hash::MultiPosHash;
use lookups::lookup::hash::UniquePosHash;
use lookups::lookup::index::UniquePosIndex;
use lookups::lookup::store::position::PositionError;
use lookups::lookup::uint::MultiUIntLookup;
use std::collections::HashSet;

#[derive(Debug, PartialEq)]
struct Car(u16, String);

impl Car {
    fn id(&self) -> usize {
        self.0.into()
    }

    fn name(&self) -> String {
        self.1.clone()
    }
}

#[test]
fn lvec_u16() {
    let items = vec![Car(99, "Audi".into()), Car(1, "BMW".into())];
    let v = LVec::<UniquePosIndex<_>, _>::new(Car::id, items).unwrap();

    assert!(v.lkup().contains_key(1));
    assert!(v.lkup().contains_key(99));
    assert!(!v.lkup().contains_key(1_000));

    assert_eq!(vec![&Car(1, "BMW".into())], v.lkup().get_by_key(1));
    assert_eq!(vec![&Car(99, "Audi".into())], v.lkup().get_by_key(99));
    assert!(v.lkup().get_by_key(98).is_empty());

    assert_eq!(
        vec![&Car(1, "BMW".into()), &Car(99, "Audi".into())],
        v.lkup().get_by_many_keys(vec![1, 99])
    );

    assert_eq!(1, v.lkup().ext().min_key().unwrap());
    assert_eq!(99, v.lkup().ext().max_key().unwrap());

    assert_eq!(vec![1, 99], v.lkup().ext().keys());
}

#[test]
fn lvec_string() {
    let items = vec![Car(99, "Audi".into()), Car(0, "BMW".into())];
    let v = LVec::<UniquePosHash, _>::new(Car::name, items).unwrap();

    assert!(v.lkup().contains_key("Audi"));
    assert!(!v.lkup().contains_key("VW"));

    assert_eq!(vec![&Car(0, "BMW".into())], v.lkup().get_by_key("BMW"));

    assert_eq!(
        vec![&Car(99, "Audi".into()), &Car(0, "BMW".into())],
        v.lkup().get_by_many_keys(vec!["Audi", "BMW"])
    );

    let keys = v
        .lkup()
        .ext()
        .keys()
        .into_iter()
        .collect::<HashSet<_>>();
    assert!(keys.contains("Audi"));
    assert!(keys.contains("BMW"));

    let view = v.create_lkup_view(vec!["Audi".into()]);

    assert!(view.contains_key("Audi"));
    assert!(!view.contains_key("BMW"));

    assert_eq!(vec![&Car(99, "Audi".into())], view.get_by_key("Audi"));

    assert_eq!(
        vec![&Car(99, "Audi".into())],
        view.get_by_many_keys(vec!["Audi", "BMW", "VW"])
    );

    assert_eq!(vec![String::from("Audi")], view.ext().keys());
}

#[derive(PartialEq, Debug, Clone)]
struct Person {
    id: usize,
    name: String,
}

impl Person {
    fn new(id: usize, name: &str) -> Self {
        Self {
            id,
            name: name.into(),
        }
    }

    fn id(&self) -> usize {
        self.id
    }

    fn name(&self) -> String {
        self.name.clone()
    }
}

#[test]
fn lvec() {
    let persons = vec![Person::new(0, "Paul")];

    let mut v = GrowingLVec::<MultiPosHash, _, _>::from_iter(Person::name, persons).unwrap();
    v.push(Person::new(1, "Anna")).unwrap();

    assert_eq!(&Person::new(1, "Anna"), v.lkup().get_by_key("Anna")[0]);

    // id 101 not exist
    assert_eq!(None, v.update(101, |p| { p.id = 102 }).unwrap());
    assert_eq!(
        Some(&Person::new(99, "Anna")),
        v.update(1, |p| { p.id = 99 }).unwrap()
    );
    assert_eq!(&Person::new(99, "Anna"), v.lkup().get_by_key("Anna")[0]);

    let view = v.create_lkup_view(vec![String::from("Paul")]);
    assert_eq!(&Person::new(0, "Paul"), view.get_by_key("Paul")[0]);
    assert!(view.get_by_key("Anna").is_empty());
}

#[test]
fn lvec_over_the_exact_index() {
    let persons = vec![Person::new(4, "Paul"), Person::new(2, "Anna"), Person::new(4, "Mia")];
    let mut v = GrowingLVec::<MultiUIntLookup, _, _>::from_iter(Person::id, persons).unwrap();
    assert_eq!(Ok(3), v.push(Person::new(0, "Eve")));
    assert_eq!(
        vec![&Person::new(4, "Paul"), &Person::new(4, "Mia")],
        v.lkup().get_by_key(4)
    );
    assert_eq!(vec![0, 2, 4], v.lkup().ext().keys());
    assert_eq!(Some(0), v.lkup().ext().min_key());
    assert_eq!(Some(4), v.lkup().ext().max_key());
}

#[test]
fn lvec_refuses_a_key_twice_when_unique() {
    let twice = vec![Car(1, "Audi".into()), Car(1, "BMW".into())];
    assert_eq!(
        Some(PositionError::Occupied),
        LVec::<UniquePosIndex<_>, _>::new(Car::id, twice).err()
    );
}
