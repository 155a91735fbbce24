use vstd::prelude::*;

verus! {

use crate::error::StoreResult;
use crate::index_value::IndexValue;
use crate::memory::MockDatabase;
use crate::model::Model;
use crate::record_id::RecordId;
use crate::store::{DatabaseLike, contains_id, delete_post, first_conflict_at, has_index,
    insert_ok, insert_post, is_duplicate_id_err, is_not_found_err, is_unique_violation_err,
    key_not_found_msg, list_window, matches_key, matching_seq, s_get, sel_of, update_ok,
    update_post};
use crate::store::ids_of;
use crate::error::StoreError;

/// A domain model database: the handle callers hold. It owns a concrete
/// backend satisfying the [`DatabaseLike`] contract and exposes exactly the
/// store contract; call sites stay backend-agnostic.
pub struct Database<M: Model> {
    inner: MockDatabase<M>,
}

impl<M: Model> View for Database<M> {
    type V = Seq<M>;

    closed spec fn view(&self) -> Seq<M> {
        self.inner.records()
    }
}

impl<M: Model> Database<M> {
    /// The backend's internal consistency invariant, carried through every
    /// operation.
    pub closed spec fn inv(&self) -> bool {
        DatabaseLike::inv(&self.inner)
    }

    /// Create a new database backed by the in-memory reference store.
    pub fn new_mock() -> (r: Self)
        ensures
            r@ == Seq::<M>::empty(),
            r.inv(),
    {
        Database { inner: MockDatabase::new() }
    }

    /// Initialize the storage schema for this model.
    pub fn initialize_schema(&mut self) -> (r: StoreResult<()>)
        requires
            old(self).inv(),
        ensures
            final(self).inv(),
            final(self)@ == old(self)@,
            r is Ok,
    {
        self.inner.initialize_schema()
    }

    /// Insert a new record; fails on a taken identifier or a unique-index
    /// conflict, and then changes nothing.
    pub fn insert(&mut self, model: &M) -> (r: StoreResult<()>)
        requires
            old(self).inv(),
        ensures
            final(self).inv(),
            match r {
                Ok(()) => insert_ok(old(self)@, *model) && final(self)@ == insert_post(
                    old(self)@,
                    *model,
                ),
                Err(e) => final(self)@ == old(self)@ && {
                    ||| contains_id(old(self)@, model.id_spec()) && is_duplicate_id_err(
                        e,
                        model.id_spec(),
                    )
                    ||| !contains_id(old(self)@, model.id_spec()) && exists|d: int|
                        #[trigger] first_conflict_at(old(self)@, *model, None, d)
                            && is_unique_violation_err::<M>(e, *model, d)
                },
            },
    {
        self.inner.insert(model)
    }

    /// Replace the record carrying `model`'s identifier and recompute its
    /// index entries.
    pub fn update(&mut self, model: &M) -> (r: StoreResult<()>)
        requires
            old(self).inv(),
        ensures
            final(self).inv(),
            match r {
                Ok(()) => update_ok(old(self)@, *model) && final(self)@ == update_post(
                    old(self)@,
                    *model,
                ),
                Err(e) => final(self)@ == old(self)@ && {
                    ||| !contains_id(old(self)@, model.id_spec()) && is_not_found_err(
                        e,
                        model.id_spec(),
                    )
                    ||| contains_id(old(self)@, model.id_spec()) && exists|d: int|
                        #[trigger] first_conflict_at(
                            old(self)@,
                            *model,
                            Some(model.id_spec()),
                            d,
                        ) && is_unique_violation_err::<M>(e, *model, d)
                },
            },
    {
        self.inner.update(model)
    }

    /// Insert the record if its identifier is free, update it otherwise;
    /// `true` means it inserted.
    pub fn upsert(&mut self, model: &M) -> (r: StoreResult<bool>)
        requires
            old(self).inv(),
        ensures
            final(self).inv(),
            match r {
                Ok(b) => if b {
                    insert_ok(old(self)@, *model) && final(self)@ == insert_post(
                        old(self)@,
                        *model,
                    )
                } else {
                    update_ok(old(self)@, *model) && final(self)@ == update_post(
                        old(self)@,
                        *model,
                    )
                },
                Err(e) => final(self)@ == old(self)@ && {
                    ||| contains_id(old(self)@, model.id_spec()) && exists|d: int|
                        #[trigger] first_conflict_at(
                            old(self)@,
                            *model,
                            Some(model.id_spec()),
                            d,
                        ) && is_unique_violation_err::<M>(e, *model, d)
                    ||| !contains_id(old(self)@, model.id_spec()) && exists|d: int|
                        #[trigger] first_conflict_at(old(self)@, *model, None, d)
                            && is_unique_violation_err::<M>(e, *model, d)
                },
            },
    {
        self.inner.upsert(model)
    }

    /// Delete the record carrying `id` and all its index entries.
    pub fn delete(&mut self, id: RecordId) -> (r: StoreResult<()>)
        requires
            old(self).inv(),
        ensures
            final(self).inv(),
            match r {
                Ok(()) => contains_id(old(self)@, id@) && final(self)@ == delete_post(
                    old(self)@,
                    id@,
                ),
                Err(e) => final(self)@ == old(self)@ && !contains_id(old(self)@, id@)
                    && is_not_found_err(e, id@),
            },
    {
        self.inner.delete(id)
    }

    /// Delete the record carrying `id` and return the deleted value.
    pub fn delete_and_return(&mut self, id: RecordId) -> (r: StoreResult<M>)
        requires
            old(self).inv(),
        ensures
            final(self).inv(),
            match r {
                Ok(m) => contains_id(old(self)@, id@) && Some(m) == s_get(old(self)@, id@)
                    && final(self)@ == delete_post(old(self)@, id@),
                Err(e) => final(self)@ == old(self)@ && !contains_id(old(self)@, id@)
                    && is_not_found_err(e, id@),
            },
    {
        self.inner.delete_and_return(id)
    }

    /// Get the record carrying `id`, exactly as stored.
    pub fn get(&self, id: RecordId) -> (r: StoreResult<Option<M>>)
        requires
            self.inv(),
        ensures
            r matches Ok(o) && o == s_get(self@, id@),
    {
        self.inner.get(id)
    }

    /// Get the record carrying `id`, or fail with "not found".
    pub fn get_or_error(&self, id: RecordId) -> (r: StoreResult<M>)
        requires
            self.inv(),
        ensures
            match r {
                Ok(m) => contains_id(self@, id@) && Some(m) == s_get(self@, id@),
                Err(e) => !contains_id(self@, id@) && is_not_found_err(e, id@),
            },
    {
        self.inner.get_or_error(id)
    }

    /// Get several records at once; the result lines up with `ids` and holds
    /// `None` wherever the identifier is not live.
    pub fn get_many(&self, ids: &Vec<RecordId>) -> (r: StoreResult<Vec<Option<M>>>)
        requires
            self.inv(),
        ensures
            r matches Ok(v) && v@.len() == ids@.len() && forall|i: int|
                0 <= i < ids@.len() ==> v@[i] == s_get(self@, (#[trigger] ids@[i])@),
    {
        self.inner.get_many(ids)
    }

    /// Find the single record holding `key` under the unique index named
    /// `selector`.
    pub fn find_by_unique_index(&self, selector: &str, key: &IndexValue) -> (r: StoreResult<
        Option<M>,
    >)
        requires
            self.inv(),
            key.wf(),
        ensures
            match r {
                Ok(o) => {
                    &&& has_index::<M>(selector@)
                    &&& M::index_specs()[sel_of::<M>(selector@)].unique
                    &&& match o {
                        Some(m) => {
                            &&& self@.contains(m)
                            &&& matches_key(m, sel_of::<M>(selector@), key@)
                            &&& forall|i: int|
                                0 <= i < self@.len() && matches_key(
                                    #[trigger] self@[i],
                                    sel_of::<M>(selector@),
                                    key@,
                                ) ==> self@[i] == m
                        },
                        None => forall|i: int|
                            0 <= i < self@.len() ==> !matches_key(
                                #[trigger] self@[i],
                                sel_of::<M>(selector@),
                                key@,
                            ),
                    }
                },
                Err(e) => match e {
                    StoreError::IndexNotFound(s) => s@ == selector@ && !has_index::<M>(selector@),
                    StoreError::IndexNotUnique(s) => s@ == selector@ && has_index::<M>(selector@)
                        && !M::index_specs()[sel_of::<M>(selector@)].unique,
                    _ => false,
                },
            },
    {
        self.inner.find_by_unique_index(selector, key)
    }

    /// Find the record holding `key` under the unique index named
    /// `selector`, or fail with "not found".
    pub fn find_by_unique_index_or_error(&self, selector: &str, key: &IndexValue) -> (r:
        StoreResult<M>)
        requires
            self.inv(),
            key.wf(),
        ensures
            match r {
                Ok(m) => {
                    &&& has_index::<M>(selector@)
                    &&& M::index_specs()[sel_of::<M>(selector@)].unique
                    &&& self@.contains(m)
                    &&& matches_key(m, sel_of::<M>(selector@), key@)
                },
                Err(e) => match e {
                    StoreError::NotFound(s) => s@ == key_not_found_msg::<M>(selector@, key@)
                        && forall|i: int|
                        0 <= i < self@.len() ==> !matches_key(
                            #[trigger] self@[i],
                            sel_of::<M>(selector@),
                            key@,
                        ),
                    StoreError::IndexNotFound(s) => s@ == selector@ && !has_index::<M>(selector@),
                    StoreError::IndexNotUnique(s) => s@ == selector@ && has_index::<M>(selector@)
                        && !M::index_specs()[sel_of::<M>(selector@)].unique,
                    _ => false,
                },
            },
    {
        self.inner.find_by_unique_index_or_error(selector, key)
    }

    /// Find every record holding `key` under the index named `selector`,
    /// each exactly once.
    pub fn find_by_index(&self, selector: &str, key: &IndexValue) -> (r: StoreResult<Vec<M>>)
        requires
            self.inv(),
            key.wf(),
        ensures
            match r {
                Ok(v) => {
                    &&& has_index::<M>(selector@)
                    &&& forall|p: int|
                        0 <= p < v@.len() ==> self@.contains(#[trigger] v@[p]) && matches_key(
                            v@[p],
                            sel_of::<M>(selector@),
                            key@,
                        )
                    &&& forall|i: int|
                        0 <= i < self@.len() && matches_key(
                            #[trigger] self@[i],
                            sel_of::<M>(selector@),
                            key@,
                        ) ==> v@.contains(self@[i])
                    &&& ids_of(v@).no_duplicates()
                    &&& v@.len() == matching_seq(self@, sel_of::<M>(selector@), key@).len()
                },
                Err(e) => e matches StoreError::IndexNotFound(s) && s@ == selector@
                    && !has_index::<M>(selector@),
            },
    {
        self.inner.find_by_index(selector, key)
    }

    /// Find some record holding `key` under the index named `selector`; ties
    /// are broken arbitrarily.
    pub fn find_one_by_index(&self, selector: &str, key: &IndexValue) -> (r: StoreResult<Option<M>>)
        requires
            self.inv(),
            key.wf(),
        ensures
            match r {
                Ok(o) => {
                    &&& has_index::<M>(selector@)
                    &&& match o {
                        Some(m) => self@.contains(m) && matches_key(
                            m,
                            sel_of::<M>(selector@),
                            key@,
                        ),
                        None => forall|i: int|
                            0 <= i < self@.len() ==> !matches_key(
                                #[trigger] self@[i],
                                sel_of::<M>(selector@),
                                key@,
                            ),
                    }
                },
                Err(e) => e matches StoreError::IndexNotFound(s) && s@ == selector@
                    && !has_index::<M>(selector@),
            },
    {
        self.inner.find_one_by_index(selector, key)
    }

    /// List records with pagination: `limit` records starting at `offset`,
    /// clipped to the available range.
    pub fn list(&self, limit: u32, offset: u32) -> (r: StoreResult<Vec<M>>)
        requires
            self.inv(),
        ensures
            r matches Ok(v) && v@ == list_window(self@, limit, offset),
    {
        self.inner.list(limit, offset)
    }

    /// List every record (bounded by the largest page the interface can ask
    /// for).
    pub fn list_all(&self) -> (r: StoreResult<Vec<M>>)
        requires
            self.inv(),
        ensures
            r matches Ok(v) && v@ == list_window(self@, u32::MAX, 0),
    {
        self.inner.list_all()
    }

    /// The number of live records.
    pub fn count(&self) -> (r: StoreResult<u64>)
        requires
            self.inv(),
        ensures
            r matches Ok(c) && c == self@.len(),
    {
        self.inner.count()
    }

    /// Count the records holding `key` under the index named `selector`.
    pub fn count_by_index(&self, selector: &str, key: &IndexValue) -> (r: StoreResult<u64>)
        requires
            self.inv(),
            key.wf(),
        ensures
            match r {
                Ok(c) => has_index::<M>(selector@) && c == matching_seq(
                    self@,
                    sel_of::<M>(selector@),
                    key@,
                ).len(),
                Err(e) => e matches StoreError::IndexNotFound(s) && s@ == selector@
                    && !has_index::<M>(selector@),
            },
    {
        self.inner.count_by_index(selector, key)
    }

    /// Whether a record with the given identifier is live.
    pub fn exists_record(&self, id: RecordId) -> (r: StoreResult<bool>)
        requires
            self.inv(),
        ensures
            r matches Ok(b) && b == contains_id(self@, id@),
    {
        self.inner.exists_record(id)
    }

    /// Whether some record holds `key` under the unique index named
    /// `selector`.
    pub fn exists_by_unique_index(&self, selector: &str, key: &IndexValue) -> (r: StoreResult<
        bool,
    >)
        requires
            self.inv(),
            key.wf(),
        ensures
            match r {
                Ok(b) => {
                    &&& has_index::<M>(selector@)
                    &&& M::index_specs()[sel_of::<M>(selector@)].unique
                    &&& b == exists|i: int|
                        0 <= i < self@.len() && matches_key(
                            #[trigger] self@[i],
                            sel_of::<M>(selector@),
                            key@,
                        )
                },
                Err(e) => match e {
                    StoreError::IndexNotFound(s) => s@ == selector@ && !has_index::<M>(selector@),
                    StoreError::IndexNotUnique(s) => s@ == selector@ && has_index::<M>(selector@)
                        && !M::index_specs()[sel_of::<M>(selector@)].unique,
                    _ => false,
                },
            },
    {
        let r = self.inner.exists_by_unique_index(selector, key);
        proof {
            match r {
                Ok(b) => {
                    if b {
                        let i = choose|i: int|
                            0 <= i < self.inner.records().len() && matches_key(
                                #[trigger] self.inner.records()[i],
                                sel_of::<M>(selector@),
                                key@,
                            );
                        assert(0 <= i < self@.len() && matches_key(
                            self@[i],
                            sel_of::<M>(selector@),
                            key@,
                        ));
                    } else {
                        if exists|i: int|
                            0 <= i < self@.len() && matches_key(
                                #[trigger] self@[i],
                                sel_of::<M>(selector@),
                                key@,
                            ) {
                            let i = choose|i: int|
                                0 <= i < self@.len() && matches_key(
                                    #[trigger] self@[i],
                                    sel_of::<M>(selector@),
                                    key@,
                                );
                            assert(matches_key(
                                self.inner.records()[i],
                                sel_of::<M>(selector@),
                                key@,
                            ));
                            assert(false);
                        }
                    }
                },
                Err(_) => {},
            }
        }
        r
    }
}

} // verus!
