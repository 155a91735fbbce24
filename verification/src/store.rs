use vstd::prelude::*;

verus! {

use crate::error::{StoreError, StoreResult};
use crate::index_value::{IndexValue, encode_of, segment_ok};
use crate::model::Model;
use crate::record_id::{RecordId, decimal_of};
use vstd::string::StringExecFns;

// The ghost semantics of a store. A store's contents are a sequence of
// records (in insertion order); everything a backend promises is stated in
// terms of this sequence and of the model type's declared indices.
/// A well-formed composite key: at least one segment, and no segment
/// contains the delimiter.
pub open spec fn wf_key(segs: Seq<Seq<char>>) -> bool {
    &&& segs.len() > 0
    &&& forall|i: int| 0 <= i < segs.len() ==> segment_ok(#[trigger] segs[i])
}

/// The canonical encoded composite key of record `m` under the index at
/// position `ord` of the declaration order.
pub open spec fn key_of<M: Model>(m: M, ord: int) -> Seq<char> {
    encode_of(m.key_spec(ord))
}

/// Whether some record in `data` carries identifier `id`.
pub open spec fn contains_id<M: Model>(data: Seq<M>, id: u128) -> bool {
    exists|i: int| 0 <= i < data.len() && (#[trigger] data[i]).id_spec() == id
}

/// The position of the record with identifier `id` (meaningful when
/// `contains_id` holds and identifiers are distinct).
pub open spec fn id_index<M: Model>(data: Seq<M>, id: u128) -> int {
    choose|i: int| 0 <= i < data.len() && (#[trigger] data[i]).id_spec() == id
}

/// All records carry pairwise distinct identifiers.
pub open spec fn distinct_ids<M: Model>(data: Seq<M>) -> bool {
    forall|i: int, j: int|
        0 <= i < j < data.len() ==> (#[trigger] data[i]).id_spec() != (
        #[trigger] data[j]).id_spec()
}

/// The record with identifier `id`, if any.
pub open spec fn s_get<M: Model>(data: Seq<M>, id: u128) -> Option<M> {
    if contains_id(data, id) {
        Some(data[id_index(data, id)])
    } else {
        None
    }
}

/// Whether record `m` matches key segments `segs` under index `ord`.
pub open spec fn matches_key<M: Model>(m: M, ord: int, segs: Seq<Seq<char>>) -> bool {
    m.key_spec(ord) == segs
}

/// The records of `data` matching key segments `segs` under index `ord`, in
/// data order.
pub open spec fn matching_seq<M: Model>(data: Seq<M>, ord: int, segs: Seq<Seq<char>>) -> Seq<M>
    decreases data.len(),
{
    if data.len() == 0 {
        Seq::empty()
    } else if matches_key(data.last(), ord, segs) {
        matching_seq(data.drop_last(), ord, segs).push(data.last())
    } else {
        matching_seq(data.drop_last(), ord, segs)
    }
}

/// A record other than `exclude` already holds `m`'s key under the unique
/// index at position `ord`.
pub open spec fn unique_conflict_at<M: Model>(
    data: Seq<M>,
    m: M,
    ord: int,
    exclude: Option<u128>,
) -> bool {
    &&& M::index_specs()[ord].unique
    &&& exists|i: int|
        {
            &&& 0 <= i < data.len()
            &&& matches_key(#[trigger] data[i], ord, m.key_spec(ord))
            &&& match exclude {
                Some(e) => data[i].id_spec() != e,
                None => true,
            }
        }
}

/// Whether the model type declares an index named `name`.
pub open spec fn has_index<M: Model>(name: Seq<char>) -> bool {
    exists|d: int| 0 <= d < M::index_specs().len() && (#[trigger] M::index_specs()[d]).name == name
}

/// The declaration position of the index named `name` (meaningful when
/// `has_index` holds; unambiguous when names are distinct).
pub open spec fn sel_of<M: Model>(name: Seq<char>) -> int {
    choose|d: int| 0 <= d < M::index_specs().len() && (#[trigger] M::index_specs()[d]).name == name
}

/// The identifiers of a record sequence, in order.
pub open spec fn ids_of<M: Model>(s: Seq<M>) -> Seq<u128> {
    Seq::new(s.len(), |i: int| s[i].id_spec())
}

/// Some declared unique index rejects `m` (ignoring the record `exclude`,
/// used when `m` replaces it).
pub open spec fn has_unique_conflict<M: Model>(data: Seq<M>, m: M, exclude: Option<u128>) -> bool {
    exists|d: int| 0 <= d < M::index_specs().len() && #[trigger] unique_conflict_at(
        data,
        m,
        d,
        exclude,
    )
}

/// `d` is the first declared index (in declaration order) that rejects `m`.
pub open spec fn first_conflict_at<M: Model>(
    data: Seq<M>,
    m: M,
    exclude: Option<u128>,
    d: int,
) -> bool {
    &&& 0 <= d < M::index_specs().len()
    &&& unique_conflict_at(data, m, d, exclude)
    &&& forall|d2: int| 0 <= d2 < d ==> !unique_conflict_at(data, m, d2, exclude)
}

/// Insert is allowed: the identifier is fresh and no unique index objects.
pub open spec fn insert_ok<M: Model>(data: Seq<M>, m: M) -> bool {
    &&& !contains_id(data, m.id_spec())
    &&& !has_unique_conflict(data, m, None)
}

/// The record sequence after a successful insert.
pub open spec fn insert_post<M: Model>(data: Seq<M>, m: M) -> Seq<M> {
    data.push(m)
}

/// Update is allowed: the identifier is live and no unique index objects to
/// the new value (the record being replaced does not count against itself).
pub open spec fn update_ok<M: Model>(data: Seq<M>, m: M) -> bool {
    &&& contains_id(data, m.id_spec())
    &&& !has_unique_conflict(data, m, Some(m.id_spec()))
}

/// The record sequence after a successful update: the document is replaced
/// in place.
pub open spec fn update_post<M: Model>(data: Seq<M>, m: M) -> Seq<M> {
    data.update(id_index(data, m.id_spec()), m)
}

/// The record sequence after a successful delete.
pub open spec fn delete_post<M: Model>(data: Seq<M>, id: u128) -> Seq<M> {
    data.remove(id_index(data, id))
}

/// The message reported when an insert finds its identifier already taken.
pub open spec fn duplicate_id_msg(id: u128) -> Seq<char> {
    "Record with id "@ + decimal_of(id as int) + " already exists"@
}

/// The error reported when an insert finds its identifier already taken.
pub open spec fn is_duplicate_id_err(e: StoreError, id: u128) -> bool {
    e matches StoreError::Database(msg) && msg@ == duplicate_id_msg(id)
}

/// The error reported when an identifier names no live record.
pub open spec fn is_not_found_err(e: StoreError, id: u128) -> bool {
    e matches StoreError::NotFound(msg) && msg@ == decimal_of(id as int)
}

/// The error reported when the index at declaration position `d` rejects
/// record `m`: it names the index and carries the duplicate key in canonical
/// encoded form.
pub open spec fn is_unique_violation_err<M: Model>(e: StoreError, m: M, d: int) -> bool {
    e matches StoreError::UniqueViolation { index, value } && index@ == M::index_specs()[d].name
        && value@ == key_of(m, d)
}

/// With distinct index names, the index at position `d` is the one `sel_of`
/// resolves for its name.
pub proof fn lemma_sel_of_unique<M: Model>(d: int, name: Seq<char>)
    requires
        crate::model::distinct_names(M::index_specs()),
        0 <= d < M::index_specs().len(),
        M::index_specs()[d].name == name,
    ensures
        has_index::<M>(name),
        sel_of::<M>(name) == d,
{
    assert(has_index::<M>(name));
    let e = sel_of::<M>(name);
    assert(0 <= e < M::index_specs().len() && M::index_specs()[e].name == name);
    if e != d {
        assert(false);
    }
}

/// With distinct identifiers, the record at position `i` is the one
/// `id_index` finds for its identifier.
pub proof fn lemma_id_index_unique<M: Model>(data: Seq<M>, i: int)
    requires
        distinct_ids(data),
        0 <= i < data.len(),
    ensures
        contains_id(data, data[i].id_spec()),
        id_index(data, data[i].id_spec()) == i,
{
    assert(contains_id(data, data[i].id_spec()));
    let j = id_index(data, data[i].id_spec());
    assert(0 <= j < data.len() && data[j].id_spec() == data[i].id_spec());
    if i != j {
        assert(false);
    }
}

/// Two duplicate-free sequences over the same set of values have the same
/// length.
pub proof fn lemma_same_set_same_len(a: Seq<u128>, b: Seq<u128>)
    requires
        a.no_duplicates(),
        b.no_duplicates(),
        a.to_set() == b.to_set(),
    ensures
        a.len() == b.len(),
{
    a.unique_seq_to_set();
    b.unique_seq_to_set();
}

/// Membership in `ids_of`: exactly the identifiers of the records.
pub proof fn lemma_ids_of_contains<M: Model>(s: Seq<M>)
    ensures
        forall|x: u128|
            ids_of(s).contains(x) <==> exists|i: int|
                0 <= i < s.len() && (#[trigger] s[i]).id_spec() == x,
{
    assert forall|x: u128| ids_of(s).contains(x) implies exists|i: int|
        0 <= i < s.len() && (#[trigger] s[i]).id_spec() == x by {
        let i = choose|i: int| 0 <= i < ids_of(s).len() && ids_of(s)[i] == x;
        assert(s[i].id_spec() == x);
    }
    assert forall|x: u128|
        exists|i: int| 0 <= i < s.len() && (#[trigger] s[i]).id_spec() == x implies ids_of(
        s,
    ).contains(x) by {
        let i = choose|i: int| 0 <= i < s.len() && (#[trigger] s[i]).id_spec() == x;
        assert(ids_of(s)[i] == x);
    }
}

/// What `matching_seq` holds: exactly the matching records of `data`, and,
/// when identifiers are distinct, each at most once.
pub proof fn lemma_matching_seq<M: Model>(data: Seq<M>, ord: int, segs: Seq<Seq<char>>)
    ensures
        forall|x: M|
            #[trigger] matching_seq(data, ord, segs).contains(x) <==> (data.contains(x)
                && matches_key(x, ord, segs)),
        distinct_ids(data) ==> ids_of(matching_seq(data, ord, segs)).no_duplicates(),
    decreases data.len(),
{
    broadcast use vstd::seq_lib::group_seq_properties;

    let r = matching_seq(data, ord, segs);
    if data.len() == 0 {
        assert(ids_of(r) =~= Seq::<u128>::empty());
        assert forall|x: M| #[trigger] r.contains(x) <==> (data.contains(x) && matches_key(
            x,
            ord,
            segs,
        )) by {
            assert(!r.contains(x));
            assert(!data.contains(x));
        }
    } else {
        let head = data.drop_last();
        let last = data.last();
        assert(data =~= head.push(last));
        assert(distinct_ids(data) ==> distinct_ids(head)) by {
            if distinct_ids(data) {
                assert forall|i: int, j: int| 0 <= i < j < head.len() implies (
                #[trigger] head[i]).id_spec() != (#[trigger] head[j]).id_spec() by {
                    assert(head[i] == data[i] && head[j] == data[j]);
                }
            }
        }
        lemma_matching_seq(head, ord, segs);
        let rh = matching_seq(head, ord, segs);
        assert forall|x: M| #[trigger] r.contains(x) <==> (data.contains(x) && matches_key(
            x,
            ord,
            segs,
        )) by {
            assert(data.contains(x) <==> (head.contains(x) || x == last));
            if matches_key(last, ord, segs) {
                assert(r == rh.push(last));
                assert(r.contains(x) <==> (rh.contains(x) || x == last));
            } else {
                assert(r == rh);
            }
        }
        if distinct_ids(data) {
            if matches_key(last, ord, segs) {
                assert(r == rh.push(last));
                assert(ids_of(r) =~= ids_of(rh).push(last.id_spec()));
                lemma_ids_of_contains::<M>(rh);
                assert(!ids_of(rh).contains(last.id_spec())) by {
                    if ids_of(rh).contains(last.id_spec()) {
                        let w = choose|i: int|
                            0 <= i < rh.len() && (#[trigger] rh[i]).id_spec() == last.id_spec();
                        assert(rh.contains(rh[w]));
                        assert(head.contains(rh[w]));
                        let j = choose|j: int| 0 <= j < head.len() && head[j] == rh[w];
                        assert(data[j] == rh[w]);
                        assert(data[j].id_spec() == data[data.len() - 1].id_spec());
                        assert(false);
                    }
                }
                let idr = ids_of(r);
                let idh = ids_of(rh);
                assert forall|i: int, j: int|
                    0 <= i < idr.len() && 0 <= j < idr.len() && i != j implies idr[i] != idr[j] by {
                    if i < idr.len() - 1 && j < idr.len() - 1 {
                        assert(idh[i] == idr[i] && idh[j] == idr[j]);
                        assert(idh.no_duplicates());
                    } else {
                        let a = if i < j {
                            i
                        } else {
                            j
                        };
                        assert(idr[a] == idh[a]);
                        assert(idh.contains(idh[a]));
                    }
                }
            } else {
                assert(r == rh);
            }
        }
    }
}

/// The message `find_by_unique_index_or_error` reports when no record holds
/// the key: the selector and the encoded key, joined by an equals sign.
pub open spec fn key_not_found_msg<M: Model>(selector: Seq<char>, key: Seq<Seq<char>>) -> Seq<
    char,
> {
    selector + "="@ + encode_of(key)
}

/// The storage contract every backend satisfies: CRUD primitives, indexed
/// lookup, pagination, counting and existence, plus derived convenience
/// operations built once from the primitives.
///
/// The ghost state of a store is its sequence of live records (in insertion
/// order); each operation's contract says exactly how it reads or rewrites
/// that sequence and which error it returns on which input.
pub trait DatabaseLike<M: Model>: Sized {
    /// The live records, in insertion order.
    spec fn records(&self) -> Seq<M>;

    /// The backend's internal consistency invariant.
    spec fn inv(&self) -> bool;

    /// Initialize the storage schema for this model; the records are
    /// untouched.
    fn initialize_schema(&mut self) -> (r: StoreResult<()>)
        requires
            old(self).inv(),
        ensures
            final(self).inv(),
            final(self).records() == old(self).records(),
            r is Ok,
    ;

    /// Insert a new record; fails on a taken identifier or a unique-index
    /// conflict, and then changes nothing.
    fn insert(&mut self, model: &M) -> (r: StoreResult<()>)
        requires
            old(self).inv(),
        ensures
            final(self).inv(),
            match r {
                Ok(()) => insert_ok(old(self).records(), *model) && final(self).records()
                    == insert_post(old(self).records(), *model),
                Err(e) => final(self).records() == old(self).records() && {
                    ||| contains_id(old(self).records(), model.id_spec()) && is_duplicate_id_err(
                        e,
                        model.id_spec(),
                    )
                    ||| !contains_id(old(self).records(), model.id_spec()) && exists|d: int|
                        #[trigger] first_conflict_at(old(self).records(), *model, None, d)
                            && is_unique_violation_err::<M>(e, *model, d)
                },
            },
    ;

    /// Replace the record carrying `model`'s identifier and recompute its
    /// index entries; fails when the identifier is not live or the new value
    /// conflicts under a unique index, and then changes nothing.
    fn update(&mut self, model: &M) -> (r: StoreResult<()>)
        requires
            old(self).inv(),
        ensures
            final(self).inv(),
            match r {
                Ok(()) => update_ok(old(self).records(), *model) && final(self).records()
                    == update_post(old(self).records(), *model),
                Err(e) => final(self).records() == old(self).records() && {
                    ||| !contains_id(old(self).records(), model.id_spec()) && is_not_found_err(
                        e,
                        model.id_spec(),
                    )
                    ||| contains_id(old(self).records(), model.id_spec()) && exists|d: int|
                        #[trigger] first_conflict_at(
                            old(self).records(),
                            *model,
                            Some(model.id_spec()),
                            d,
                        ) && is_unique_violation_err::<M>(e, *model, d)
                },
            },
    ;

    /// Delete the record carrying `id` and all its index entries; fails when
    /// the identifier is not live, and then changes nothing.
    fn delete(&mut self, id: RecordId) -> (r: StoreResult<()>)
        requires
            old(self).inv(),
        ensures
            final(self).inv(),
            match r {
                Ok(()) => contains_id(old(self).records(), id@) && final(self).records()
                    == delete_post(old(self).records(), id@),
                Err(e) => final(self).records() == old(self).records() && !contains_id(
                    old(self).records(),
                    id@,
                ) && is_not_found_err(e, id@),
            },
    ;

    /// Get the record carrying `id`, exactly as stored.
    fn get(&self, id: RecordId) -> (r: StoreResult<Option<M>>)
        requires
            self.inv(),
        ensures
            r matches Ok(o) && o == s_get(self.records(), id@),
    ;

    /// Find the single record holding `key` under the unique index named
    /// `selector`.
    fn find_by_unique_index(&self, selector: &str, key: &IndexValue) -> (r: StoreResult<Option<M>>)
        requires
            self.inv(),
            key.wf(),
        ensures
            match r {
                Ok(o) => {
                    &&& has_index::<M>(selector@)
                    &&& M::index_specs()[sel_of::<M>(selector@)].unique
                    &&& match o {
                        Some(m) => {
                            &&& self.records().contains(m)
                            &&& matches_key(m, sel_of::<M>(selector@), key@)
                            &&& forall|i: int|
                                0 <= i < self.records().len() && matches_key(
                                    #[trigger] self.records()[i],
                                    sel_of::<M>(selector@),
                                    key@,
                                ) ==> self.records()[i] == m
                        },
                        None => forall|i: int|
                            0 <= i < self.records().len() ==> !matches_key(
                                #[trigger] self.records()[i],
                                sel_of::<M>(selector@),
                                key@,
                            ),
                    }
                },
                Err(e) => match e {
                    StoreError::IndexNotFound(s) => s@ == selector@ && !has_index::<M>(selector@),
                    StoreError::IndexNotUnique(s) => s@ == selector@ && has_index::<M>(selector@)
                        && !M::index_specs()[sel_of::<M>(selector@)].unique,
                    _ => false,
                },
            },
    ;

    /// Find every record holding `key` under the index named `selector`,
    /// each exactly once, in backend-chosen order.
    fn find_by_index(&self, selector: &str, key: &IndexValue) -> (r: StoreResult<Vec<M>>)
        requires
            self.inv(),
            key.wf(),
        ensures
            match r {
                Ok(v) => {
                    &&& has_index::<M>(selector@)
                    &&& forall|p: int|
                        0 <= p < v@.len() ==> self.records().contains(#[trigger] v@[p])
                            && matches_key(v@[p], sel_of::<M>(selector@), key@)
                    &&& forall|i: int|
                        0 <= i < self.records().len() && matches_key(
                            #[trigger] self.records()[i],
                            sel_of::<M>(selector@),
                            key@,
                        ) ==> v@.contains(self.records()[i])
                    &&& ids_of(v@).no_duplicates()
                    &&& v@.len() == matching_seq(self.records(), sel_of::<M>(selector@), key@).len()
                },
                Err(e) => e matches StoreError::IndexNotFound(s) && s@ == selector@
                    && !has_index::<M>(selector@),
            },
    ;

    /// List records with pagination: `limit` records starting at `offset`,
    /// clipped to the available range.
    fn list(&self, limit: u32, offset: u32) -> (r: StoreResult<Vec<M>>)
        requires
            self.inv(),
        ensures
            r matches Ok(v) && v@ == list_window(self.records(), limit, offset),
    ;

    /// The number of live records.
    fn count(&self) -> (r: StoreResult<u64>)
        requires
            self.inv(),
        ensures
            r matches Ok(c) && c == self.records().len(),
    ;

    /// Whether a record with the given identifier is live.
    fn exists_record(&self, id: RecordId) -> (r: StoreResult<bool>)
        requires
            self.inv(),
        ensures
            r matches Ok(b) && b == contains_id(self.records(), id@),
    ;

    /// Insert the record if its identifier is free, update it otherwise.
    /// Returns `true` when it inserted and `false` when it updated.
    fn upsert(&mut self, model: &M) -> (r: StoreResult<bool>)
        requires
            old(self).inv(),
        ensures
            final(self).inv(),
            match r {
                Ok(b) => if b {
                    insert_ok(old(self).records(), *model) && final(self).records() == insert_post(
                        old(self).records(),
                        *model,
                    )
                } else {
                    update_ok(old(self).records(), *model) && final(self).records() == update_post(
                        old(self).records(),
                        *model,
                    )
                },
                Err(e) => final(self).records() == old(self).records() && {
                    ||| contains_id(old(self).records(), model.id_spec()) && exists|d: int|
                        #[trigger] first_conflict_at(
                            old(self).records(),
                            *model,
                            Some(model.id_spec()),
                            d,
                        ) && is_unique_violation_err::<M>(e, *model, d)
                    ||| !contains_id(old(self).records(), model.id_spec()) && exists|d: int|
                        #[trigger] first_conflict_at(old(self).records(), *model, None, d)
                            && is_unique_violation_err::<M>(e, *model, d)
                },
            },
    {
        let ex = match self.exists_record(model.id()) {
            Ok(b) => b,
            Err(e) => {
                return Err(e);
            },
        };
        if ex {
            match self.update(model) {
                Ok(()) => Ok(false),
                Err(e) => Err(e),
            }
        } else {
            match self.insert(model) {
                Ok(()) => Ok(true),
                Err(e) => Err(e),
            }
        }
    }

    /// Get the record carrying `id`, or fail with "not found".
    fn get_or_error(&self, id: RecordId) -> (r: StoreResult<M>)
        requires
            self.inv(),
        ensures
            match r {
                Ok(m) => contains_id(self.records(), id@) && Some(m) == s_get(self.records(), id@),
                Err(e) => !contains_id(self.records(), id@) && is_not_found_err(e, id@),
            },
    {
        match self.get(id) {
            Ok(Some(m)) => Ok(m),
            Ok(None) => Err(StoreError::NotFound(id.to_text())),
            Err(e) => Err(e),
        }
    }

    /// Delete the record carrying `id` and return the deleted value.
    fn delete_and_return(&mut self, id: RecordId) -> (r: StoreResult<M>)
        requires
            old(self).inv(),
        ensures
            final(self).inv(),
            match r {
                Ok(m) => contains_id(old(self).records(), id@) && Some(m) == s_get(
                    old(self).records(),
                    id@,
                ) && final(self).records() == delete_post(old(self).records(), id@),
                Err(e) => final(self).records() == old(self).records() && !contains_id(
                    old(self).records(),
                    id@,
                ) && is_not_found_err(e, id@),
            },
    {
        let model = match self.get_or_error(id) {
            Ok(m) => m,
            Err(e) => {
                return Err(e);
            },
        };
        match self.delete(id) {
            Ok(()) => Ok(model),
            Err(e) => Err(e),
        }
    }

    /// Get several records at once: the result lines up with `ids`, holding
    /// `None` at the position of every identifier that is not live.
    fn get_many(&self, ids: &Vec<RecordId>) -> (r: StoreResult<Vec<Option<M>>>)
        requires
            self.inv(),
        ensures
            r matches Ok(v) && v@.len() == ids@.len() && forall|i: int|
                0 <= i < ids@.len() ==> v@[i] == s_get(self.records(), (#[trigger] ids@[i])@),
    {
        let mut results: Vec<Option<M>> = Vec::new();
        let mut i: usize = 0;
        while i < ids.len()
            invariant
                self.inv(),
                0 <= i <= ids@.len(),
                results@.len() == i,
                forall|j: int|
                    0 <= j < i ==> results@[j] == s_get(self.records(), (#[trigger] ids@[j])@),
            decreases ids@.len() - i,
        {
            match self.get(ids[i]) {
                Ok(o) => {
                    results.push(o);
                },
                Err(e) => {
                    return Err(e);
                },
            }
            i = i + 1;
        }
        Ok(results)
    }

    /// Find the record holding `key` under the unique index named
    /// `selector`, or fail with "not found".
    fn find_by_unique_index_or_error(&self, selector: &str, key: &IndexValue) -> (r: StoreResult<
        M,
    >)
        requires
            self.inv(),
            key.wf(),
        ensures
            match r {
                Ok(m) => {
                    &&& has_index::<M>(selector@)
                    &&& M::index_specs()[sel_of::<M>(selector@)].unique
                    &&& self.records().contains(m)
                    &&& matches_key(m, sel_of::<M>(selector@), key@)
                },
                Err(e) => match e {
                    StoreError::NotFound(s) => s@ == key_not_found_msg::<M>(selector@, key@)
                        && forall|i: int|
                        0 <= i < self.records().len() ==> !matches_key(
                            #[trigger] self.records()[i],
                            sel_of::<M>(selector@),
                            key@,
                        ),
                    StoreError::IndexNotFound(s) => s@ == selector@ && !has_index::<M>(selector@),
                    StoreError::IndexNotUnique(s) => s@ == selector@ && has_index::<M>(selector@)
                        && !M::index_specs()[sel_of::<M>(selector@)].unique,
                    _ => false,
                },
            },
    {
        match self.find_by_unique_index(selector, key) {
            Ok(Some(m)) => Ok(m),
            Ok(None) => {
                let mut msg = selector.to_owned();
                msg.append("=");
                let encoded = key.encode();
                msg.append(encoded.as_str());
                Err(StoreError::NotFound(msg))
            },
            Err(e) => Err(e),
        }
    }

    /// Find some record holding `key` under the index named `selector`; when
    /// several match, any one of them may be returned.
    fn find_one_by_index(&self, selector: &str, key: &IndexValue) -> (r: StoreResult<Option<M>>)
        requires
            self.inv(),
            key.wf(),
        ensures
            match r {
                Ok(o) => {
                    &&& has_index::<M>(selector@)
                    &&& match o {
                        Some(m) => self.records().contains(m) && matches_key(
                            m,
                            sel_of::<M>(selector@),
                            key@,
                        ),
                        None => forall|i: int|
                            0 <= i < self.records().len() ==> !matches_key(
                                #[trigger] self.records()[i],
                                sel_of::<M>(selector@),
                                key@,
                            ),
                    }
                },
                Err(e) => e matches StoreError::IndexNotFound(s) && s@ == selector@
                    && !has_index::<M>(selector@),
            },
    {
        let mut results = match self.find_by_index(selector, key) {
            Ok(v) => v,
            Err(e) => {
                return Err(e);
            },
        };
        if results.len() == 0 {
            proof {
                assert forall|i: int| 0 <= i < self.records().len() implies !matches_key(
                    #[trigger] self.records()[i],
                    sel_of::<M>(selector@),
                    key@,
                ) by {
                    if matches_key(self.records()[i], sel_of::<M>(selector@), key@) {
                        assert(results@.contains(self.records()[i]));
                    }
                }
            }
            Ok(None)
        } else {
            let m = results.remove(0);
            proof {
                assert(results@.insert(0, m)[0] == m);
            }
            Ok(Some(m))
        }
    }

    /// List every record (bounded by the largest page the interface can
    /// ask for).
    fn list_all(&self) -> (r: StoreResult<Vec<M>>)
        requires
            self.inv(),
        ensures
            r matches Ok(v) && v@ == list_window(self.records(), u32::MAX, 0),
    {
        self.list(u32::MAX, 0)
    }

    /// Count the records holding `key` under the index named `selector`.
    fn count_by_index(&self, selector: &str, key: &IndexValue) -> (r: StoreResult<u64>)
        requires
            self.inv(),
            key.wf(),
        ensures
            match r {
                Ok(c) => has_index::<M>(selector@) && c == matching_seq(
                    self.records(),
                    sel_of::<M>(selector@),
                    key@,
                ).len(),
                Err(e) => e matches StoreError::IndexNotFound(s) && s@ == selector@
                    && !has_index::<M>(selector@),
            },
    {
        match self.find_by_index(selector, key) {
            Ok(v) => Ok(v.len() as u64),
            Err(e) => Err(e),
        }
    }

    /// Whether some record holds `key` under the unique index named
    /// `selector`.
    fn exists_by_unique_index(&self, selector: &str, key: &IndexValue) -> (r: StoreResult<bool>)
        requires
            self.inv(),
            key.wf(),
        ensures
            match r {
                Ok(b) => {
                    &&& has_index::<M>(selector@)
                    &&& M::index_specs()[sel_of::<M>(selector@)].unique
                    &&& b == exists|i: int|
                        0 <= i < self.records().len() && matches_key(
                            #[trigger] self.records()[i],
                            sel_of::<M>(selector@),
                            key@,
                        )
                },
                Err(e) => match e {
                    StoreError::IndexNotFound(s) => s@ == selector@ && !has_index::<M>(selector@),
                    StoreError::IndexNotUnique(s) => s@ == selector@ && has_index::<M>(selector@)
                        && !M::index_specs()[sel_of::<M>(selector@)].unique,
                    _ => false,
                },
            },
    {
        match self.find_by_unique_index(selector, key) {
            Ok(Some(m)) => {
                proof {
                    let i = choose|i: int|
                        0 <= i < self.records().len() && #[trigger] self.records()[i] == m;
                }
                Ok(true)
            },
            Ok(None) => Ok(false),
            Err(e) => Err(e),
        }
    }
}

/// The window of records that `list(limit, offset)` returns: `limit` records
/// starting at `offset`, clipped to the available range.
pub open spec fn list_window<M>(data: Seq<M>, limit: u32, offset: u32) -> Seq<M> {
    let lo = if offset as int <= data.len() {
        offset as int
    } else {
        data.len() as int
    };
    let hi = if offset as int + limit as int <= data.len() {
        offset as int + limit as int
    } else {
        data.len() as int
    };
    data.subrange(lo, hi)
}

} // verus!
