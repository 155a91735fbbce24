use vstd::prelude::*;

verus! {

use crate::index_value::IndexValue;
use crate::record_id::RecordId;
use crate::text::str_eq;

/// The ghost description of one declared index: its name and whether it is
/// unique.
pub ghost struct IndexSpec {
    /// The index name (also the selector used to look it up).
    pub name: Seq<char>,
    /// Whether at most one live record may hold a given key of this index.
    pub unique: bool,
}

/// A domain type that can be stored: it owns exactly one record identifier
/// and declares a fixed set of secondary indices.
///
/// The ghost side fixes, once per type, the table name, the declared indices
/// (with distinct names) and the key segments each instance contributes to
/// each index; the executable side must agree with it. Extraction is pure and
/// total over valid instances, and always yields a well-formed (sanitized,
/// non-empty) index value.
pub trait Model: Sized {
    /// The model's identifier, as a ghost value.
    spec fn id_spec(&self) -> u128;

    /// The declared indices, in declaration order.
    spec fn index_specs() -> Seq<IndexSpec>;

    /// The key segments this instance contributes to index `i`.
    spec fn key_spec(&self, i: int) -> Seq<Seq<char>>;

    /// The table name, as a ghost value.
    spec fn table_name_spec() -> Seq<char>;

    /// The table (collection) name under which records of this type live.
    fn table_name() -> (r: String)
        ensures
            r@ == Self::table_name_spec(),
    ;

    /// The model's identifier.
    fn id(&self) -> (r: RecordId)
        ensures
            r@ == self.id_spec(),
    ;

    /// The registry of all indices declared for this model.
    fn indices() -> (r: IndexRegistry)
        ensures
            registry_matches(&r, Self::index_specs()),
            distinct_names(Self::index_specs()),
    ;

    /// Extract the index value this instance contributes to the index at the
    /// given position of the declaration order.
    fn extract(&self, ordinal: usize) -> (v: IndexValue)
        requires
            ordinal < Self::index_specs().len(),
        ensures
            v@ == self.key_spec(ordinal as int),
            v.wf(),
    ;

    /// An exact copy of this instance.
    fn duplicate(&self) -> (r: Self)
        ensures
            r == *self,
    ;
}

/// Definition of a single index (simple or composite): its name, whether it
/// is unique, and its position in the model's declaration order, through
/// which the model's extraction function is reached.
#[derive(Debug)]
pub struct IndexDefinition {
    /// The name of the index (matches the selector).
    pub name: String,
    /// Whether this is a unique index.
    pub unique: bool,
    /// The position of this index in the model's declaration order.
    pub ordinal: usize,
}

impl IndexDefinition {
    /// Create a new index definition.
    pub fn new(name: String, unique: bool, ordinal: usize) -> (r: IndexDefinition)
        ensures
            r.name == name,
            r.unique == unique,
            r.ordinal == ordinal,
    {
        IndexDefinition { name, unique, ordinal }
    }

    /// Extract the index value a model instance contributes to this index.
    pub fn extract<M: Model>(&self, model: &M) -> (v: IndexValue)
        requires
            self.ordinal < M::index_specs().len(),
        ensures
            v@ == model.key_spec(self.ordinal as int),
            v.wf(),
    {
        model.extract(self.ordinal)
    }

    /// An exact copy of this definition.
    pub fn duplicate(&self) -> (r: IndexDefinition)
        ensures
            r == *self,
    {
        IndexDefinition { name: self.name.clone(), unique: self.unique, ordinal: self.ordinal }
    }
}

/// The subsequence of definitions that are unique indices, in order.
pub open spec fn uniques_of(defs: Seq<IndexDefinition>) -> Seq<IndexDefinition>
    decreases defs.len(),
{
    if defs.len() == 0 {
        Seq::empty()
    } else if defs.last().unique {
        uniques_of(defs.drop_last()).push(defs.last())
    } else {
        uniques_of(defs.drop_last())
    }
}

/// The subsequence of definitions that are non-unique indices, in order.
pub open spec fn non_uniques_of(defs: Seq<IndexDefinition>) -> Seq<IndexDefinition>
    decreases defs.len(),
{
    if defs.len() == 0 {
        Seq::empty()
    } else if !defs.last().unique {
        non_uniques_of(defs.drop_last()).push(defs.last())
    } else {
        non_uniques_of(defs.drop_last())
    }
}

/// Registry containing all index definitions for a model, in declaration
/// order.
#[derive(Debug)]
pub struct IndexRegistry {
    /// The index definitions.
    pub definitions: Vec<IndexDefinition>,
}

/// The registry agrees with the given ghost index declarations: one
/// definition per declared index, in order, carrying its name, its uniqueness
/// and its position.
pub open spec fn registry_matches(r: &IndexRegistry, specs: Seq<IndexSpec>) -> bool {
    &&& r.definitions@.len() == specs.len()
    &&& forall|i: int|
        0 <= i < r.definitions@.len() ==> {
            &&& (#[trigger] r.definitions@[i]).name@ == specs[i].name
            &&& r.definitions@[i].unique == specs[i].unique
            &&& r.definitions@[i].ordinal == i
        }
}

/// The declared index names are pairwise distinct.
pub open spec fn distinct_names(specs: Seq<IndexSpec>) -> bool {
    forall|i: int, j: int|
        0 <= i < j < specs.len() ==> (#[trigger] specs[i]).name != (#[trigger] specs[j]).name
}

impl IndexRegistry {
    /// Create a new index registry.
    pub fn new(definitions: Vec<IndexDefinition>) -> (r: IndexRegistry)
        ensures
            r.definitions == definitions,
    {
        IndexRegistry { definitions }
    }

    /// Get an index definition by selector (the index name). Returns the
    /// first definition whose name matches, or `None` when the selector names
    /// no declared index.
    pub fn get(&self, selector: &str) -> (r: Option<&IndexDefinition>)
        ensures
            match r {
                Some(d) => exists|i: int|
                    0 <= i < self.definitions@.len() && #[trigger] self.definitions@[i] == *d
                        && d.name@ == selector@,
                None => forall|i: int|
                    0 <= i < self.definitions@.len() ==> (#[trigger] self.definitions@[i]).name@
                        != selector@,
            },
            (r is Some) == exists|i: int|
                0 <= i < self.definitions@.len() && (#[trigger] self.definitions@[i]).name@
                    == selector@,
    {
        let mut i: usize = 0;
        while i < self.definitions.len()
            invariant
                0 <= i <= self.definitions@.len(),
                forall|j: int|
                    0 <= j < i ==> (#[trigger] self.definitions@[j]).name@ != selector@,
            decreases self.definitions@.len() - i,
        {
            if str_eq(self.definitions[i].name.as_str(), selector) {
                return Some(&self.definitions[i]);
            }
            i = i + 1;
        }
        None
    }

    /// All unique indices, in declaration order.
    pub fn unique_indices(&self) -> (r: Vec<IndexDefinition>)
        ensures
            r@ == uniques_of(self.definitions@),
    {
        let mut r: Vec<IndexDefinition> = Vec::new();
        let mut i: usize = 0;
        while i < self.definitions.len()
            invariant
                0 <= i <= self.definitions@.len(),
                r@ == uniques_of(self.definitions@.subrange(0, i as int)),
            decreases self.definitions@.len() - i,
        {
            proof {
                assert(self.definitions@.subrange(0, i as int + 1).drop_last()
                    =~= self.definitions@.subrange(0, i as int));
                assert(self.definitions@.subrange(0, i as int + 1).last()
                    == self.definitions@[i as int]);
            }
            if self.definitions[i].unique {
                r.push(self.definitions[i].duplicate());
            }
            i = i + 1;
        }
        proof {
            assert(self.definitions@.subrange(0, self.definitions@.len() as int)
                =~= self.definitions@);
        }
        r
    }

    /// All non-unique indices, in declaration order.
    pub fn non_unique_indices(&self) -> (r: Vec<IndexDefinition>)
        ensures
            r@ == non_uniques_of(self.definitions@),
    {
        let mut r: Vec<IndexDefinition> = Vec::new();
        let mut i: usize = 0;
        while i < self.definitions.len()
            invariant
                0 <= i <= self.definitions@.len(),
                r@ == non_uniques_of(self.definitions@.subrange(0, i as int)),
            decreases self.definitions@.len() - i,
        {
            proof {
                assert(self.definitions@.subrange(0, i as int + 1).drop_last()
                    =~= self.definitions@.subrange(0, i as int));
                assert(self.definitions@.subrange(0, i as int + 1).last()
                    == self.definitions@[i as int]);
            }
            if !self.definitions[i].unique {
                r.push(self.definitions[i].duplicate());
            }
            i = i + 1;
        }
        proof {
            assert(self.definitions@.subrange(0, self.definitions@.len() as int)
                =~= self.definitions@);
        }
        r
    }
}

} // verus!
