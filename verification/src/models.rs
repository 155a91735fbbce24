use vstd::prelude::*;

verus! {

use crate::index_value::{IndexValue, sanitize_of};
use crate::model::{IndexDefinition, IndexRegistry, IndexSpec, Model, distinct_names,
    registry_matches};
use crate::record_id::RecordId;

// Reference models: a minimal record with no indices, and a user record with
// one unique and one non-unique index. They show how a model registers its
// indices and they carry the test-suite.
/// A minimal model: an identity and nothing else.
#[derive(Clone, Copy, Debug, PartialEq, Eq, Structural)]
pub struct Unit {
    /// The record identifier.
    pub id: RecordId,
}

impl Model for Unit {
    open spec fn id_spec(&self) -> u128 {
        self.id@
    }

    open spec fn index_specs() -> Seq<IndexSpec> {
        Seq::empty()
    }

    open spec fn key_spec(&self, i: int) -> Seq<Seq<char>> {
        Seq::empty()
    }

    open spec fn table_name_spec() -> Seq<char> {
        "unit"@
    }

    fn table_name() -> (r: String) {
        "unit".to_owned()
    }

    fn id(&self) -> (r: RecordId) {
        self.id
    }

    fn indices() -> (r: IndexRegistry) {
        IndexRegistry::new(Vec::new())
    }

    fn extract(&self, ordinal: usize) -> (v: IndexValue) {
        proof {
            assert(false);
        }
        IndexValue::new_single("")
    }

    fn duplicate(&self) -> (r: Unit) {
        Unit { id: self.id }
    }
}

/// A user record: a unique index on the email address and a non-unique index
/// on the name.
#[derive(Clone, Debug)]
pub struct User {
    /// The record identifier.
    pub id: RecordId,
    /// The user's email address; no two users may share one.
    pub email: String,
    /// The user's display name; several users may share one.
    pub name: String,
    /// The user's age.
    pub age: u32,
}

impl Model for User {
    open spec fn id_spec(&self) -> u128 {
        self.id@
    }

    open spec fn index_specs() -> Seq<IndexSpec> {
        seq![
            IndexSpec { name: "email"@, unique: true },
            IndexSpec { name: "name"@, unique: false },
        ]
    }

    open spec fn key_spec(&self, i: int) -> Seq<Seq<char>> {
        if i == 0 {
            seq![sanitize_of(self.email@)]
        } else {
            seq![sanitize_of(self.name@)]
        }
    }

    open spec fn table_name_spec() -> Seq<char> {
        "users"@
    }

    fn table_name() -> (r: String) {
        "users".to_owned()
    }

    fn id(&self) -> (r: RecordId) {
        self.id
    }

    fn indices() -> (r: IndexRegistry) {
        let mut defs: Vec<IndexDefinition> = Vec::new();
        defs.push(IndexDefinition::new("email".to_owned(), true, 0));
        defs.push(IndexDefinition::new("name".to_owned(), false, 1));
        let r = IndexRegistry::new(defs);
        proof {
            reveal_strlit("email");
            reveal_strlit("name");
            assert(registry_matches(&r, User::index_specs()));
            assert(("email"@).len() == 5 && ("name"@).len() == 4);
            assert forall|i: int, j: int| 0 <= i < j < User::index_specs().len() implies (
            #[trigger] User::index_specs()[i]).name != (#[trigger] User::index_specs()[j]).name by {
                assert(i == 0 && j == 1);
                assert(User::index_specs()[0].name.len() != User::index_specs()[1].name.len());
            }
            assert(distinct_names(User::index_specs()));
        }
        r
    }

    fn extract(&self, ordinal: usize) -> (v: IndexValue) {
        if ordinal == 0 {
            IndexValue::new_single(self.email.as_str())
        } else {
            IndexValue::new_single(self.name.as_str())
        }
    }

    fn duplicate(&self) -> (r: User) {
        User {
            id: self.id,
            email: self.email.clone(),
            name: self.name.clone(),
            age: self.age,
        }
    }
}

impl PartialEq for User {
    fn eq(&self, other: &User) -> (r: bool) {
        self.id == other.id && self.email == other.email && self.name == other.name && self.age
            == other.age
    }
}

impl Eq for User {

}

impl vstd::std_specs::cmp::PartialEqSpecImpl for User {
    open spec fn obeys_eq_spec() -> bool {
        true
    }

    open spec fn eq_spec(&self, other: &User) -> bool {
        &&& self.id == other.id
        &&& self.email@ == other.email@
        &&& self.name@ == other.name@
        &&& self.age == other.age
    }
}

} // verus!
