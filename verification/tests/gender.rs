use lookups::lookup::index::IndexKey;
use lookups::lookup::index::MultiPosIndex;
use lookups::lookup::store::Retriever;
use lookups::lookup::store::Store;

#[derive(Debug, Clone, Copy, PartialEq)]
enum Gender {
    Female,
    Male,
    Other,
}

impl IndexKey for Gender {
    fn slot(self) -> usize {
        self.index()
    }

    fn index(self) -> usize {
        match self {
            Gender::Female => 0,
            Gender::Male => 1,
            Gender::Other => 2,
        }
    }
}

#[test]
fn gender() {
    let mut idx = MultiPosIndex::with_capacity(10);

    idx.insert(Gender::Female, 10).unwrap();
    idx.insert(Gender::Female, 2).unwrap();
    idx.insert(Gender::Male, 1).unwrap();
    idx.insert(Gender::Other, 0).unwrap();

    assert_eq!(Gender::Female, idx.ext().min_key().unwrap());
    assert_eq!(Gender::Other, idx.ext().max_key().unwrap());

    assert_eq!(
        vec![Gender::Female, Gender::Male, Gender::Other],
        idx.ext().keys()
    );

    assert_eq!(&[2, 10], idx.pos_by_key(Gender::Female));
}
