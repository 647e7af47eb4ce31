use lookups::collections::list::ro::LkupList;
use lookups::collections::list::rw::LkupVec;
use lookups::lookup::hash::HashLookup;
use lookups::lookup::index::IndexLookup;
use lookups::lookup::store::position::PositionError;
use std::collections::HashSet;

#[derive(Debug, PartialEq)]
struct Car(u16, String);

impl Car {
    fn id(&self) -> u16 {
        self.0
    }

    fn name(&self) -> String {
        self.1.clone()
    }
}

#[test]
fn lkuplist_u16() {
    let items = vec![Car(99, "Audi".into()), Car(1, "BMW".into())];
    let v = LkupList::new(IndexLookup::with_multi_keys(), Car::id, items).unwrap();

    assert_eq!(2, v.len());

    assert!(v.contains_lkup_key(1));
    assert!(v.contains_lkup_key(99));
    assert!(!v.contains_lkup_key(1_000));

    assert_eq!(vec![&Car(1, "BMW".into())], v.get_by_lkup_key(1));
    assert_eq!(vec![&Car(99, "Audi".into())], v.get_by_lkup_key(99));
    assert!(v.get_by_lkup_key(98).is_empty());

    assert_eq!(
        vec![&Car(1, "BMW".into()), &Car(99, "Audi".into())],
        v.get_by_many_lkup_keys(vec![1, 99])
    );

    assert_eq!(1, v.lkup_ext().ext().min_key().unwrap());
    assert_eq!(99, v.lkup_ext().ext().max_key().unwrap());

    assert_eq!(vec![1, 99], v.lkup_ext().ext().keys());
}

#[test]
fn lkuplist_string() {
    let items = vec![Car(99, "Audi".into()), Car(0, "BMW".into())];
    let v = LkupList::new(HashLookup::with_unique_key(), Car::name, items).unwrap();

    assert!(v.contains_lkup_key("Audi"));
    assert!(!v.contains_lkup_key("VW"));

    assert_eq!(vec![&Car(0, "BMW".into())], v.get_by_lkup_key("BMW"));

    assert_eq!(
        vec![&Car(99, "Audi".into()), &Car(0, "BMW".into())],
        v.get_by_many_lkup_keys(vec!["Audi", "BMW"])
    );

    let keys = v
        .lkup_ext()
        .ext()
        .keys()
        .into_iter()
        .collect::<HashSet<_>>();
    assert!(keys.contains("Audi"));
    assert!(keys.contains("BMW"));

    let view = v.create_lkup_view(vec!["Audi".into()]);

    assert!(view.contains_key("Audi"));
    assert!(!view.contains_key("BMW"));

    assert_eq!(vec![&Car(99, "Audi".into())], view.get_by_key("Audi"));

    assert_eq!(
        vec![&Car(99, "Audi".into())],
        view.get_by_many_keys(vec!["Audi", "BMW", "VW"])
    );

    // check the Items
    assert_eq!(vec![&Car(99, "Audi".into())], view.items());

    // check the extension
    assert_eq!(vec![String::from("Audi")], view.ext().keys());
}

#[derive(PartialEq, Debug, Clone)]
struct Person {
    id: usize,
    name: String,
}

impl Person {
    fn new(id: usize, name: &str) -> Self {
        Self {
            id,
            name: name.into(),
        }
    }

    fn id(&self) -> usize {
        self.id
    }

    fn name(&self) -> String {
        self.name.clone()
    }
}

#[test]
fn lkupvec() {
    let mut v = LkupVec::new(HashLookup::with_multi_keys(), Person::name);
    v.push(Person::new(1, "Anna")).unwrap();
    v.push(Person::new(0, "Paul")).unwrap();

    assert!(!v.is_empty());
    assert_eq!(2, v.len());

    assert_eq!(&Person::new(1, "Anna"), &v[0]);

    assert_eq!(&Person::new(1, "Anna"), v.get_by_lkup_key("Anna")[0]);

    assert_eq!(
        Some(&Person::new(99, "Anna")),
        v.update(0, |p| { p.id = 99 }).unwrap()
    );
    assert_eq!(&Person::new(99, "Anna"), v.get_by_lkup_key("Anna")[0]);

    let view = v.create_lkup_view(vec![String::from("Paul")]);
    assert_eq!(&Person::new(0, "Paul"), view.get_by_key("Paul")[0]);
    assert!(view.get_by_key("Anna").is_empty());
}

#[test]
fn rw_remove() {
    let mut v = LkupVec::new(IndexLookup::with_multi_keys(), Person::id);
    v.push(Person::new(1, "Anna")).unwrap();
    v.push(Person::new(2, "Paul")).unwrap();

    assert_eq!(2, v.len());

    assert_eq!(Some(Person::new(1, "Anna")), v.remove(0).unwrap());
    assert_eq!(1, v.len());
    assert_eq!(Person::new(2, "Paul"), v[0]);

    assert_eq!(Some(Person::new(2, "Paul")), v.remove(0).unwrap());
    assert_eq!(0, v.len());

    assert_eq!(None, v.remove(0).unwrap());
    assert_eq!(0, v.len());
}

#[test]
fn remove_by_key() {
    let mut v = LkupVec::new(IndexLookup::with_multi_keys(), Person::id);
    v.push(Person::new(1, "Anna")).unwrap();
    v.push(Person::new(2, "Paul")).unwrap();

    assert_eq!(2, v.len());

    // key not exist
    v.remove_by_key(99).unwrap();
    assert_eq!(2, v.len());

    // remove key = 1 (Anna)
    v.remove_by_key(1).unwrap();
    assert_eq!(1, v.len());

    assert!(!v.contains_lkup_key(1));
    assert!(v.contains_lkup_key(2));

    v.remove_by_key(2).unwrap();
    assert_eq!(0, v.len());
}

#[test]
fn remove_keeps_the_index_in_step() {
    let mut v = LkupVec::new(HashLookup::with_multi_keys(), Person::name);
    v.push(Person::new(1, "Anna")).unwrap();
    v.push(Person::new(2, "Paul")).unwrap();
    v.push(Person::new(3, "Anna")).unwrap();
    v.push(Person::new(4, "Mia")).unwrap();

    assert_eq!(Some(Person::new(2, "Paul")), v.remove(1).unwrap());
    assert_eq!(3, v.len());
    assert_eq!(Person::new(4, "Mia"), v[1]);
    assert_eq!(vec![&Person::new(4, "Mia")], v.get_by_lkup_key("Mia"));
    assert!(v.get_by_lkup_key("Paul").is_empty());
    assert_eq!(
        vec![&Person::new(1, "Anna"), &Person::new(3, "Anna")],
        v.get_by_lkup_key("Anna")
    );

    assert_eq!(None, v.remove(3).unwrap());
    assert_eq!(Ok(2), v.remove_by_key("Anna"));
    assert_eq!(1, v.len());
    assert_eq!(vec![&Person::new(4, "Mia")], v.get_by_lkup_key("Mia"));
    assert_eq!(Ok(0), v.remove_by_key("Anna"));
}

#[test]
fn update_by_key_changes_every_item_of_the_key() {
    let mut v = LkupVec::new(HashLookup::with_multi_keys(), Person::name);
    v.push(Person::new(1, "Anna")).unwrap();
    v.push(Person::new(2, "Paul")).unwrap();
    v.push(Person::new(3, "Anna")).unwrap();

    assert_eq!(Ok(2), v.update_by_key("Anna", |p| p.name = String::from("Eve")));
    assert_eq!(Ok(0), v.update_by_key("Anna", |p| p.id = 0));
    assert_eq!(
        vec![&Person::new(1, "Eve"), &Person::new(3, "Eve")],
        v.get_by_lkup_key("Eve")
    );
    assert_eq!(None, v.update(7, |p| p.id = 0).unwrap());
}

#[test]
fn push_under_a_taken_unique_key_is_refused() {
    let mut v = LkupVec::new(HashLookup::with_unique_key(), Person::name);
    assert_eq!(Ok(0), v.push(Person::new(1, "Anna")));
    assert_eq!(Err(PositionError::Occupied), v.push(Person::new(2, "Anna")));
    assert_eq!(1, v.len());
    assert_eq!(vec![&Person::new(1, "Anna")], v.get_by_lkup_key("Anna"));

    let twice = vec![Person::new(1, "Anna"), Person::new(2, "Anna")];
    assert_eq!(
        Some(PositionError::Occupied),
        LkupList::new(HashLookup::with_unique_key(), Person::name, twice).err()
    );
}

#[test]
fn items_of_an_index_view_come_in_key_order() {
    let items = vec![Car(7, "Audi".into()), Car(1, "BMW".into()), Car(7, "VW".into())];
    let v = LkupList::new(IndexLookup::with_multi_keys(), Car::id, items).unwrap();
    let view = v.create_lkup_view(vec![7, 1]);
    assert_eq!(
        vec![&Car(1, "BMW".into()), &Car(7, "Audi".into()), &Car(7, "VW".into())],
        view.items()
    );
    assert_eq!(Some(1), view.ext().min_key());
    assert_eq!(Some(7), view.ext().max_key());
}

#[test]
fn update_by_key_hands_a_refusal_on() {
    let mut v = LkupVec::new(HashLookup::with_unique_key(), Person::name);
    v.push(Person::new(1, "Anna")).unwrap();
    v.push(Person::new(2, "Paul")).unwrap();

    assert_eq!(
        Err(PositionError::Occupied),
        v.update_by_key("Anna", |p| p.name = String::from("Paul"))
    );
    assert_eq!(2, v.len());
    assert_eq!(Person::new(1, "Paul"), v[0]);
    assert!(!v.contains_lkup_key("Anna"));
    assert_eq!(vec![&Person::new(2, "Paul")], v.get_by_lkup_key("Paul"));

    assert_eq!(Ok(0), v.update_by_key("Nobody", |p| p.id = 0));
    assert_eq!(Ok(0), v.remove_by_key("Nobody"));
    assert_eq!(2, v.len());
}

#[test]
fn a_growing_list_reads_as_its_list() {
    let mut v = LkupVec::new(IndexLookup::with_multi_keys(), Person::id);
    v.push(Person::new(3, "Anna")).unwrap();
    let list: &LkupList<_, _> = &v;
    assert_eq!(1, list.len());
    let items: &Vec<Person> = list;
    assert_eq!(vec![Person::new(3, "Anna")], *items);
}
