use vstd::prelude::*;

verus! {

use crate::error::{StoreError, StoreResult};
use crate::model::{Model, distinct_names};
use crate::record_id::RecordId;
use crate::store::{contains_id, distinct_ids, id_index, list_window, s_get, wf_key};
use crate::store::{key_of, lemma_id_index_unique, lemma_sel_of_unique, sel_of};
use crate::store::{ids_of, lemma_ids_of_contains, lemma_matching_seq, lemma_same_set_same_len,
    matching_seq};
use crate::store::{first_conflict_at, has_index, has_unique_conflict, matches_key,
    unique_conflict_at};
use crate::store::{delete_post, insert_ok, insert_post, update_ok, update_post};
use crate::store::{duplicate_id_msg, is_duplicate_id_err, is_not_found_err, is_unique_violation_err};
use crate::index_value::{IndexValue, encode_of, lemma_encode_injective};
use crate::text::str_eq;
use vstd::pervasive::VecAdditionalExecFns;
use vstd::string::StringExecFns;

// ---------------------------------------------------------------------------
// Index buckets.
//
// The in-memory backend keeps one table per declared index; a table is a list
// of buckets, one per encoded composite key in use, holding the identifiers
// of the live records that carry that key (in insertion order). Buckets that
// become empty are dropped.
// ---------------------------------------------------------------------------
/// One bucket of an index table: an encoded composite key together with the
/// identifiers of the live records that carry it.
pub struct IndexBucket {
    /// The encoded composite key.
    pub key: String,
    /// The identifiers of the live records carrying the key, in insertion
    /// order.
    pub ids: Vec<u128>,
}

/// No two buckets of a table share a key.
pub open spec fn keys_distinct(bs: Seq<IndexBucket>) -> bool {
    forall|a: int, b: int|
        0 <= a < b < bs.len() ==> (#[trigger] bs[a]).key@ != (#[trigger] bs[b]).key@
}

/// Some bucket holds key `k`.
pub open spec fn has_key(bs: Seq<IndexBucket>, k: Seq<char>) -> bool {
    exists|b: int| 0 <= b < bs.len() && (#[trigger] bs[b]).key@ == k
}

/// The position of the bucket holding key `k` (meaningful when `has_key`
/// holds and keys are distinct).
pub open spec fn key_slot(bs: Seq<IndexBucket>, k: Seq<char>) -> int {
    choose|b: int| 0 <= b < bs.len() && (#[trigger] bs[b]).key@ == k
}

/// The identifiers filed under key `k`; empty when no bucket holds `k`.
pub open spec fn ids_at(bs: Seq<IndexBucket>, k: Seq<char>) -> Seq<u128> {
    if has_key(bs, k) {
        bs[key_slot(bs, k)].ids@
    } else {
        Seq::empty()
    }
}

/// Structural well-formedness of one index table: distinct keys, no empty
/// bucket, no identifier listed twice under one key.
pub open spec fn table_wf(bs: Seq<IndexBucket>) -> bool {
    &&& keys_distinct(bs)
    &&& forall|b: int| 0 <= b < bs.len() ==> (#[trigger] bs[b]).ids@.len() > 0
    &&& forall|b: int| 0 <= b < bs.len() ==> (#[trigger] bs[b]).ids@.no_duplicates()
}

/// With distinct keys, the bucket at position `b` is the one `ids_at` reads
/// for its key.
proof fn lemma_ids_at_slot(bs: Seq<IndexBucket>, b: int)
    requires
        keys_distinct(bs),
        0 <= b < bs.len(),
    ensures
        has_key(bs, bs[b].key@),
        key_slot(bs, bs[b].key@) == b,
        ids_at(bs, bs[b].key@) == bs[b].ids@,
{
    assert(has_key(bs, bs[b].key@));
    let s = key_slot(bs, bs[b].key@);
    assert(0 <= s < bs.len() && bs[s].key@ == bs[b].key@);
    if s != b {
        assert(false);
    }
}

/// The identifiers that remain when every occurrence of `id` is dropped,
/// order preserved.
pub open spec fn remove_all(ids: Seq<u128>, id: u128) -> Seq<u128>
    decreases ids.len(),
{
    if ids.len() == 0 {
        Seq::empty()
    } else if ids.last() == id {
        remove_all(ids.drop_last(), id)
    } else {
        remove_all(ids.drop_last(), id).push(ids.last())
    }
}

/// What `remove_all` keeps: everything but `id`, without introducing
/// duplicates or new elements.
pub proof fn lemma_remove_all(ids: Seq<u128>, id: u128)
    ensures
        forall|x: u128| remove_all(ids, id).contains(x) <==> (ids.contains(x) && x != id),
        ids.no_duplicates() ==> remove_all(ids, id).no_duplicates(),
        remove_all(ids, id).len() <= ids.len(),
        !ids.contains(id) ==> remove_all(ids, id) == ids,
    decreases ids.len(),
{
    broadcast use vstd::seq_lib::group_seq_properties;

    if ids.len() == 0 {
        assert forall|x: u128| remove_all(ids, id).contains(x) implies (ids.contains(x) && x
            != id) by {}
        assert(remove_all(ids, id) =~= ids);
    } else {
        let head = ids.drop_last();
        let last = ids.last();
        lemma_remove_all(head, id);
        assert forall|x: u128| ids.contains(x) implies (head.contains(x) || x == last) by {
            let i = choose|i: int| 0 <= i < ids.len() && ids[i] == x;
            if i < ids.len() - 1 {
                assert(head[i] == x);
            }
        }
        assert forall|x: u128| head.contains(x) || x == last implies ids.contains(x) by {
            if head.contains(x) {
                let i = choose|i: int| 0 <= i < head.len() && head[i] == x;
                assert(ids[i] == x);
            } else {
                assert(ids[ids.len() - 1] == x);
            }
        }
        if last == id {
            assert(remove_all(ids, id) == remove_all(head, id));
            assert(ids.contains(id));
        } else {
            let r = remove_all(head, id).push(last);
            assert(remove_all(ids, id) == r);
            assert forall|x: u128| r.contains(x) implies (ids.contains(x) && x != id) by {
                if remove_all(head, id).contains(x) {
                } else {
                    assert(x == last);
                }
            }
            assert forall|x: u128| ids.contains(x) && x != id implies r.contains(x) by {
                if head.contains(x) && x != id {
                    assert(remove_all(head, id).contains(x));
                }
            }
            if ids.no_duplicates() {
                assert(head.no_duplicates());
                assert forall|i: int, j: int|
                    0 <= i < r.len() && 0 <= j < r.len() && i != j implies r[i] != r[j] by {
                    if i < r.len() - 1 && j < r.len() - 1 {
                        assert(remove_all(head, id)[i] == r[i]);
                        assert(remove_all(head, id)[j] == r[j]);
                        assert(remove_all(head, id).no_duplicates());
                    } else {
                        let a = if i < j {
                            i
                        } else {
                            j
                        };
                        assert(remove_all(head, id).contains(r[a]));
                        assert(head.contains(r[a]));
                        assert(!head.contains(last));
                    }
                }
            }
            if !ids.contains(id) {
                assert(!head.contains(id));
                assert(remove_all(head, id) == head);
                assert(r =~= ids);
            }
        }
    }
}

/// Find the bucket holding `key`, if any.
fn find_slot(bs: &Vec<IndexBucket>, key: &str) -> (r: Option<usize>)
    ensures
        match r {
            Some(b) => b < bs@.len() && bs@[b as int].key@ == key@,
            None => !has_key(bs@, key@),
        },
{
    let mut b: usize = 0;
    while b < bs.len()
        invariant
            0 <= b <= bs@.len(),
            forall|j: int| 0 <= j < b ==> (#[trigger] bs@[j]).key@ != key@,
        decreases bs@.len() - b,
    {
        if str_eq(bs[b].key.as_str(), key) {
            return Some(b);
        }
        b = b + 1;
    }
    None
}

/// File identifier `id` under `key`, appending to the key's bucket or
/// opening a fresh one.
fn add_id(bs: &mut Vec<IndexBucket>, key: &str, id: u128)
    requires
        table_wf(old(bs)@),
        !ids_at(old(bs)@, key@).contains(id),
    ensures
        table_wf(final(bs)@),
        ids_at(final(bs)@, key@) == ids_at(old(bs)@, key@).push(id),
        forall|k2: Seq<char>| k2 != key@ ==> ids_at(final(bs)@, k2) == ids_at(old(bs)@, k2),
{
    let ghost pre = bs@;
    match find_slot(bs, key) {
        Some(b) => {
            proof {
                lemma_ids_at_slot(pre, b as int);
            }
            bs[b].ids.push(id);
            proof {
                let post = bs@;
                assert(post =~= pre.update(b as int, post[b as int]));
                assert(post[b as int].key@ == key@);
                assert(post[b as int].ids@ == pre[b as int].ids@.push(id));
                assert(keys_distinct(post)) by {
                    assert(forall|x: int| 0 <= x < post.len() ==> (#[trigger] post[x]).key@
                        == pre[x].key@);
                }
                assert forall|x: int| 0 <= x < post.len() implies (
                #[trigger] post[x]).ids@.no_duplicates() && post[x].ids@.len() > 0 by {
                    if x == b as int {
                        assert(!pre[b as int].ids@.contains(id));
                        let p = post[x].ids@;
                        assert forall|i: int, j: int|
                            0 <= i < p.len() && 0 <= j < p.len() && i != j implies p[i] != p[j] by {
                            broadcast use vstd::seq_lib::group_seq_properties;

                            if i < p.len() - 1 && j < p.len() - 1 {
                                assert(pre[b as int].ids@.no_duplicates());
                            } else {
                                let a = if i < j {
                                    i
                                } else {
                                    j
                                };
                                assert(pre[b as int].ids@.contains(p[a]));
                            }
                        }
                    }
                }
                lemma_ids_at_slot(post, b as int);
                assert forall|k2: Seq<char>| k2 != key@ implies ids_at(post, k2) == ids_at(
                    pre,
                    k2,
                ) by {
                    assert(forall|x: int| 0 <= x < post.len() ==> (#[trigger] post[x]).key@
                        == pre[x].key@);
                    if has_key(pre, k2) {
                        let s = key_slot(pre, k2);
                        assert(0 <= s < pre.len() && pre[s].key@ == k2);
                        assert(post[s].key@ == k2);
                        assert(s != b as int);
                        lemma_ids_at_slot(post, s);
                        lemma_ids_at_slot(pre, s);
                    } else {
                        if has_key(post, k2) {
                            let s = key_slot(post, k2);
                            assert(0 <= s < post.len() && post[s].key@ == k2);
                            assert(pre[s].key@ == k2);
                            assert(false);
                        }
                    }
                }
            }
        },
        None => {
            let mut ids: Vec<u128> = Vec::new();
            ids.push(id);
            bs.push(IndexBucket { key: key.to_owned(), ids });
            proof {
                let post = bs@;
                let nb = post.len() - 1;
                assert(post[nb].key@ == key@);
                assert(post[nb].ids@ =~= seq![id]);
                assert(keys_distinct(post)) by {
                    assert forall|a: int, b2: int|
                        0 <= a < b2 < post.len() implies (#[trigger] post[a]).key@ != (
                    #[trigger] post[b2]).key@ by {
                        if b2 == nb {
                            assert(pre[a].key@ != key@);
                        }
                    }
                }
                assert(table_wf(post)) by {
                    assert(forall|x: int| 0 <= x < nb ==> post[x] == pre[x]);
                    assert(post[nb].ids@.len() == 1);
                    assert(post[nb].ids@.no_duplicates());
                }
                lemma_ids_at_slot(post, nb);
                assert(ids_at(pre, key@) =~= Seq::<u128>::empty());
                assert(ids_at(post, key@) =~= ids_at(pre, key@).push(id));
                assert forall|k2: Seq<char>| k2 != key@ implies ids_at(post, k2) == ids_at(
                    pre,
                    k2,
                ) by {
                    assert(forall|x: int| 0 <= x < nb ==> post[x] == pre[x]);
                    if has_key(pre, k2) {
                        let s = key_slot(pre, k2);
                        assert(0 <= s < pre.len() && pre[s].key@ == k2);
                        assert(post[s].key@ == k2);
                        lemma_ids_at_slot(post, s);
                        lemma_ids_at_slot(pre, s);
                    } else {
                        if has_key(post, k2) {
                            let s = key_slot(post, k2);
                            assert(0 <= s < post.len() && post[s].key@ == k2);
                            assert(s != nb);
                            assert(pre[s].key@ == k2);
                            assert(false);
                        }
                    }
                }
            }
        },
    }
}

/// Drop every occurrence of identifier `id` from the table, dropping buckets
/// that become empty.
fn remove_id(bs: &mut Vec<IndexBucket>, id: u128)
    requires
        table_wf(old(bs)@),
    ensures
        table_wf(final(bs)@),
        forall|k: Seq<char>| ids_at(final(bs)@, k) == remove_all(ids_at(old(bs)@, k), id),
{
    let ghost pre = bs@;
    let mut out: Vec<IndexBucket> = Vec::new();
    let mut b: usize = 0;
    while b < bs.len()
        invariant
            0 <= b <= pre.len(),
            bs@ == pre,
            table_wf(pre),
            table_wf(out@),
            forall|k: Seq<char>|
                has_key(pre.subrange(0, b as int), k) ==> ids_at(out@, k) == remove_all(
                    ids_at(pre, k),
                    id,
                ),
            forall|k: Seq<char>| !has_key(pre.subrange(0, b as int), k) ==> !has_key(out@, k),
        decreases pre.len() - b,
    {
        let ghost out_pre = out@;
        let ghost cur = pre[b as int];
        proof {
            lemma_ids_at_slot(pre, b as int);
            assert(!has_key(pre.subrange(0, b as int), cur.key@)) by {
                if has_key(pre.subrange(0, b as int), cur.key@) {
                    let s = key_slot(pre.subrange(0, b as int), cur.key@);
                    assert(pre.subrange(0, b as int)[s] == pre[s]);
                    assert(false);
                }
            }
            assert(!has_key(out_pre, cur.key@));
        }
        // keep the identifiers of this bucket that are not `id`
        let src: &Vec<u128> = &bs[b].ids;
        let mut kept: Vec<u128> = Vec::new();
        let mut j: usize = 0;
        while j < src.len()
            invariant
                0 <= j <= src@.len(),
                src@ == cur.ids@,
                kept@ == remove_all(src@.subrange(0, j as int), id),
            decreases src@.len() - j,
        {
            proof {
                assert(src@.subrange(0, j as int + 1).drop_last() =~= src@.subrange(0, j as int));
                assert(src@.subrange(0, j as int + 1).last() == src@[j as int]);
            }
            if src[j] != id {
                kept.push(src[j]);
            }
            j = j + 1;
        }
        proof {
            assert(src@.subrange(0, src@.len() as int) =~= src@);
            assert(kept@ == remove_all(cur.ids@, id));
        }
        if kept.len() > 0 {
            let nb = IndexBucket { key: bs[b].key.clone(), ids: kept };
            out.push(nb);
            proof {
                let post = out@;
                let last = post.len() - 1;
                assert(post[last].key@ == cur.key@);
                assert(post[last].ids@ == remove_all(cur.ids@, id));
                assert(keys_distinct(post)) by {
                    assert forall|a: int, b2: int|
                        0 <= a < b2 < post.len() implies (#[trigger] post[a]).key@ != (
                    #[trigger] post[b2]).key@ by {
                        if b2 == last {
                            assert(out_pre[a].key@ != cur.key@) by {
                                if out_pre[a].key@ == cur.key@ {
                                    assert(has_key(out_pre, cur.key@));
                                }
                            }
                        }
                    }
                }
                assert(table_wf(post)) by {
                    lemma_remove_all(cur.ids@, id);
                    assert(cur.ids@.no_duplicates());
                    assert(forall|x: int| 0 <= x < last ==> post[x] == out_pre[x]);
                }
                lemma_ids_at_slot(post, last);
            }
        }
        proof {
            let post = out@;
            assert forall|k: Seq<char>| has_key(pre.subrange(0, b as int + 1), k) implies ids_at(
                post,
                k,
            ) == remove_all(ids_at(pre, k), id) by {
                let sub1 = pre.subrange(0, b as int + 1);
                let s = key_slot(sub1, k);
                assert(0 <= s < sub1.len() && sub1[s].key@ == k);
                assert(sub1[s] == pre[s]);
                if s < b as int {
                    assert(has_key(pre.subrange(0, b as int), k)) by {
                        assert(pre.subrange(0, b as int)[s] == pre[s]);
                    }
                    // untouched this iteration: k differs from cur.key
                    assert(k != cur.key@) by {
                        if k == cur.key@ {
                            assert(keys_distinct(pre));
                            assert(false);
                        }
                    }
                    assert(ids_at(out_pre, k) == remove_all(ids_at(pre, k), id));
                    if kept@.len() > 0 {
                        // out grew by a bucket with a different key
                        if has_key(out_pre, k) {
                            let t = key_slot(out_pre, k);
                            assert(0 <= t < out_pre.len() && out_pre[t].key@ == k);
                            assert(post[t].key@ == k);
                            lemma_ids_at_slot(post, t);
                            lemma_ids_at_slot(out_pre, t);
                        } else {
                            assert(ids_at(out_pre, k) =~= Seq::<u128>::empty());
                            if has_key(post, k) {
                                let t = key_slot(post, k);
                                assert(0 <= t < post.len() && post[t].key@ == k);
                                assert(t != post.len() - 1);
                                assert(out_pre[t].key@ == k);
                                assert(false);
                            }
                        }
                    } else {
                        assert(post == out_pre);
                    }
                } else {
                    // the bucket processed this iteration
                    assert(k == cur.key@);
                    assert(ids_at(pre, k) == cur.ids@);
                    if kept@.len() > 0 {
                        lemma_ids_at_slot(post, post.len() - 1);
                    } else {
                        assert(remove_all(cur.ids@, id) =~= Seq::<u128>::empty());
                        if has_key(post, k) {
                            let t = key_slot(post, k);
                            assert(0 <= t < post.len() && post[t].key@ == k);
                            assert(!has_key(out_pre, k));
                            assert(false);
                        }
                        assert(ids_at(post, k) =~= Seq::<u128>::empty());
                    }
                }
            }
            assert forall|k: Seq<char>| !has_key(pre.subrange(0, b as int + 1), k) implies !has_key(
                post,
                k,
            ) by {
                assert(!has_key(pre.subrange(0, b as int), k)) by {
                    if has_key(pre.subrange(0, b as int), k) {
                        let s = key_slot(pre.subrange(0, b as int), k);
                        assert(pre.subrange(0, b as int)[s] == pre[s]);
                        assert(pre.subrange(0, b as int + 1)[s] == pre[s]);
                        assert(has_key(pre.subrange(0, b as int + 1), k));
                    }
                }
                assert(k != cur.key@) by {
                    if k == cur.key@ {
                        assert(pre.subrange(0, b as int + 1)[b as int] == pre[b as int]);
                        assert(has_key(pre.subrange(0, b as int + 1), k));
                    }
                }
                assert(!has_key(out_pre, k));
                if has_key(post, k) {
                    let t = key_slot(post, k);
                    assert(0 <= t < post.len() && post[t].key@ == k);
                    if kept@.len() > 0 {
                        if t < post.len() - 1 {
                            assert(out_pre[t].key@ == k);
                        }
                    } else {
                        assert(out_pre[t].key@ == k);
                    }
                    assert(false);
                }
            }
        }
        b = b + 1;
    }
    proof {
        assert(pre.subrange(0, pre.len() as int) =~= pre);
    }
    *bs = out;
    proof {
        assert forall|k: Seq<char>| #![all_triggers] true implies ids_at(bs@, k) == remove_all(
            ids_at(pre, k),
            id,
        ) by {
            if has_key(pre, k) {
            } else {
                assert(!has_key(bs@, k));
                assert(ids_at(pre, k) =~= Seq::<u128>::empty());
                assert(remove_all(Seq::<u128>::empty(), id) =~= Seq::<u128>::empty());
            }
        }
    }
}

// ---------------------------------------------------------------------------
// The backend itself.
// ---------------------------------------------------------------------------
/// One side table of the in-memory backend, serving one declared index.
pub struct IndexTable {
    /// The index name.
    pub name: String,
    /// Whether the index is unique.
    pub unique: bool,
    /// The buckets of this table, one per encoded key in use.
    pub buckets: Vec<IndexBucket>,
}

/// Identifier `id` is filed correctly under key `k` of index `d`: some live
/// record carries it, and that record's composite key encodes to `k`.
pub open spec fn entry_live<M: Model>(data: Seq<M>, d: int, k: Seq<char>, id: u128) -> bool {
    exists|i: int|
        0 <= i < data.len() && (#[trigger] data[i]).id_spec() == id && key_of(data[i], d) == k
}

/// Every entry of the table points at a live record with the right key
/// ("no orphans").
pub open spec fn table_sound<M: Model>(data: Seq<M>, d: int, bs: Seq<IndexBucket>) -> bool {
    forall|k: Seq<char>, p: int|
        0 <= p < ids_at(bs, k).len() ==> entry_live(data, d, k, #[trigger] ids_at(bs, k)[p])
}

/// Every live record is filed under its key ("exactly one up-to-date entry
/// per declared index").
pub open spec fn table_complete<M: Model>(data: Seq<M>, d: int, bs: Seq<IndexBucket>) -> bool {
    forall|i: int|
        0 <= i < data.len() ==> ids_at(bs, key_of(#[trigger] data[i], d)).contains(
            data[i].id_spec(),
        )
}

/// At most one record per key (the discipline of a unique index).
pub open spec fn table_unique_card(bs: Seq<IndexBucket>) -> bool {
    forall|k: Seq<char>| (#[trigger] ids_at(bs, k)).len() <= 1
}

/// An empty table is well-formed, sound, of unique cardinality, and complete
/// for an empty record sequence.
proof fn lemma_empty_table<M: Model>(data: Seq<M>, d: int)
    ensures
        table_wf(Seq::<IndexBucket>::empty()),
        table_sound(data, d, Seq::<IndexBucket>::empty()),
        table_unique_card(Seq::<IndexBucket>::empty()),
        data.len() == 0 ==> table_complete::<M>(data, d, Seq::<IndexBucket>::empty()),
{
    assert forall|k: Seq<char>| (#[trigger] ids_at(Seq::<IndexBucket>::empty(), k)).len() <= 1 by {
        assert(!has_key(Seq::<IndexBucket>::empty(), k));
    }
    assert forall|k: Seq<char>, p: int|
        0 <= p < ids_at(Seq::<IndexBucket>::empty(), k).len() implies entry_live(
        data,
        d,
        k,
        #[trigger] ids_at(Seq::<IndexBucket>::empty(), k)[p],
    ) by {
        assert(!has_key(Seq::<IndexBucket>::empty(), k));
    }
}

/// Entries that are live stay live when a record is appended.
proof fn lemma_sound_after_push<M: Model>(data: Seq<M>, m: M, d: int, bs: Seq<IndexBucket>)
    requires
        table_sound(data, d, bs),
    ensures
        table_sound(data.push(m), d, bs),
{
    let data2 = data.push(m);
    assert forall|k: Seq<char>, p: int| 0 <= p < ids_at(bs, k).len() implies entry_live(
        data2,
        d,
        k,
        #[trigger] ids_at(bs, k)[p],
    ) by {
        assert(entry_live(data, d, k, ids_at(bs, k)[p]));
        let i = choose|i: int|
            0 <= i < data.len() && (#[trigger] data[i]).id_spec() == ids_at(bs, k)[p] && key_of(
                data[i],
                d,
            ) == k;
        assert(data2[i] == data[i]);
        assert(entry_live(data2, d, k, ids_at(bs, k)[p]));
    }
}

/// In-memory reference backend for models implementing the [`Model`] trait.
///
/// Primary records are kept in insertion order; one side table per declared
/// index maps encoded composite keys to the identifiers of the records that
/// carry them. Every operation validates before it mutates, so a failed
/// operation leaves the state untouched, and every completed operation leaves
/// records and index entries consistent: no orphan entries, exactly one entry
/// per record and index, and at most one record per key of a unique index.
pub struct MockDatabase<M: Model> {
    data: Vec<M>,
    tables: Vec<IndexTable>,
    initialized: bool,
}

impl<M: Model> View for MockDatabase<M> {
    type V = Seq<M>;

    closed spec fn view(&self) -> Seq<M> {
        self.data@
    }
}

impl<M: Model> MockDatabase<M> {
    /// The consistency invariant tying records to index entries. It holds
    /// when the store is created and every operation preserves it.
    #[verifier::opaque]
    pub closed spec fn inv(&self) -> bool {
        let data = self.data@;
        &&& distinct_names(M::index_specs())
        &&& distinct_ids(data)
        &&& self.tables@.len() == M::index_specs().len()
        &&& forall|d: int|
            0 <= d < self.tables@.len() ==> {
                let t = #[trigger] self.tables@[d];
                &&& t.name@ == M::index_specs()[d].name
                &&& t.unique == M::index_specs()[d].unique
                &&& table_wf(t.buckets@)
                &&& table_sound(data, d, t.buckets@)
                &&& table_complete(data, d, t.buckets@)
                &&& (M::index_specs()[d].unique ==> table_unique_card(t.buckets@))
            }
        &&& forall|i: int, d: int|
            0 <= i < data.len() && 0 <= d < M::index_specs().len() ==> wf_key(
                #[trigger] data[i].key_spec(d),
            )
    }

    /// Create a new, empty in-memory database.
    pub fn new() -> (r: Self)
        ensures
            r@ == Seq::<M>::empty(),
            r.inv(),
    {
        let registry = M::indices();
        let mut tables: Vec<IndexTable> = Vec::new();
        let mut d: usize = 0;
        while d < registry.definitions.len()
            invariant
                0 <= d <= registry.definitions@.len(),
                registry.definitions@.len() == M::index_specs().len(),
                forall|e: int|
                    0 <= e < registry.definitions@.len() ==> {
                        &&& (#[trigger] registry.definitions@[e]).name@ == M::index_specs()[e].name
                        &&& registry.definitions@[e].unique == M::index_specs()[e].unique
                    },
                tables@.len() == d,
                forall|e: int|
                    0 <= e < d ==> {
                        &&& (#[trigger] tables@[e]).name@ == M::index_specs()[e].name
                        &&& tables@[e].unique == M::index_specs()[e].unique
                        &&& tables@[e].buckets@ =~= Seq::<IndexBucket>::empty()
                    },
            decreases registry.definitions@.len() - d,
        {
            let def = &registry.definitions[d];
            tables.push(IndexTable { name: def.name.clone(), unique: def.unique, buckets: Vec::new() });
            d = d + 1;
        }
        let r = MockDatabase { data: Vec::new(), tables, initialized: false };
        proof {
            reveal(MockDatabase::inv);
            assert forall|d2: int| 0 <= d2 < r.tables@.len() implies {
                let t = #[trigger] r.tables@[d2];
                &&& t.name@ == M::index_specs()[d2].name
                &&& t.unique == M::index_specs()[d2].unique
                &&& table_wf(t.buckets@)
                &&& table_sound(r.data@, d2, t.buckets@)
                &&& table_complete(r.data@, d2, t.buckets@)
                &&& (M::index_specs()[d2].unique ==> table_unique_card(t.buckets@))
            } by {
                lemma_empty_table::<M>(r.data@, d2);
            }
        }
        r
    }

    /// Initialize the schema (the in-memory backend only marks itself
    /// initialized; it never fails).
    pub fn initialize_schema(&mut self) -> (r: StoreResult<()>)
        requires
            old(self).inv(),
        ensures
            final(self).inv(),
            final(self)@ == old(self)@,
            r is Ok,
    {
        self.initialized = true;
        proof {
            reveal(MockDatabase::inv);
        }
        Ok(())
    }

    /// Find the position of the record carrying `id`.
    fn find_record(&self, id: u128) -> (r: Option<usize>)
        ensures
            match r {
                Some(i) => i < self@.len() && self@[i as int].id_spec() == id,
                None => !contains_id(self@, id),
            },
    {
        let mut i: usize = 0;
        while i < self.data.len()
            invariant
                0 <= i <= self.data@.len(),
                forall|j: int| 0 <= j < i ==> (#[trigger] self.data@[j]).id_spec() != id,
            decreases self.data@.len() - i,
        {
            if self.data[i].id().value() == id {
                return Some(i);
            }
            i = i + 1;
        }
        None
    }

    /// Find the side table serving the index named `selector`.
    fn find_table(&self, selector: &str) -> (r: Option<usize>)
        requires
            self.inv(),
        ensures
            match r {
                Some(d) => d < M::index_specs().len() && M::index_specs()[d as int].name
                    == selector@,
                None => !has_index::<M>(selector@),
            },
    {
        proof {
            reveal(MockDatabase::inv);
        }
        let mut d: usize = 0;
        while d < self.tables.len()
            invariant
                self.inv(),
                0 <= d <= self.tables@.len(),
                self.tables@.len() == M::index_specs().len(),
                forall|e: int|
                    0 <= e < self.tables@.len() ==> (#[trigger] self.tables@[e]).name@
                        == M::index_specs()[e].name,
                forall|e: int| 0 <= e < d ==> M::index_specs()[e].name != selector@,
            decreases self.tables@.len() - d,
        {
            if str_eq(self.tables[d].name.as_str(), selector) {
                return Some(d);
            }
            d = d + 1;
        }
        None
    }

    /// Get a record by identifier.
    pub fn get(&self, id: RecordId) -> (r: StoreResult<Option<M>>)
        requires
            self.inv(),
        ensures
            r matches Ok(o) && o == s_get(self@, id@),
    {
        proof {
            reveal(MockDatabase::inv);
        }
        match self.find_record(id.value()) {
            Some(i) => {
                proof {
                    lemma_id_index_unique(self@, i as int);
                }
                Ok(Some(self.data[i].duplicate()))
            },
            None => Ok(None),
        }
    }

    /// Whether a record with the given identifier exists.
    pub fn exists_record(&self, id: RecordId) -> (r: StoreResult<bool>)
        ensures
            r matches Ok(b) && b == contains_id(self@, id@),
    {
        match self.find_record(id.value()) {
            Some(_) => Ok(true),
            None => Ok(false),
        }
    }

    /// The number of live records.
    pub fn count(&self) -> (r: StoreResult<u64>)
        ensures
            r matches Ok(c) && c == self@.len(),
    {
        Ok(self.data.len() as u64)
    }

    /// The number of live records (synchronous convenience form).
    pub fn len(&self) -> (r: usize)
        ensures
            r == self@.len(),
    {
        self.data.len()
    }

    /// Whether the store holds no records.
    pub fn is_empty(&self) -> (r: bool)
        ensures
            r == (self@.len() == 0),
    {
        self.data.len() == 0
    }

    /// List records with pagination: `limit` records starting at `offset`,
    /// in insertion order, clipped to the available range.
    pub fn list(&self, limit: u32, offset: u32) -> (r: StoreResult<Vec<M>>)
        ensures
            r matches Ok(v) && v@ == list_window(self@, limit, offset),
    {
        let n = self.data.len();
        let start: usize = if (offset as usize) < n {
            offset as usize
        } else {
            n
        };
        let remaining = n - start;
        let take: usize = if (limit as usize) < remaining {
            limit as usize
        } else {
            remaining
        };
        let mut out: Vec<M> = Vec::new();
        let mut i: usize = 0;
        while i < take
            invariant
                0 <= i <= take,
                start + take <= n,
                n == self.data@.len(),
                out@ =~= self.data@.subrange(start as int, start as int + i),
            decreases take - i,
        {
            out.push(self.data[start + i].duplicate());
            proof {
                assert(out@ =~= self.data@.subrange(start as int, start as int + i + 1));
            }
            i = i + 1;
        }
        proof {
            assert(out@ =~= list_window(self@, limit, offset));
        }
        Ok(out)
    }

    /// Check every declared unique index against `model`'s keys; a record
    /// other than `exclude` already holding one of them is a violation. The
    /// first violating index (in declaration order) is reported.
    fn check_unique_violations(&self, model: &M, exclude: Option<u128>) -> (r: StoreResult<()>)
        requires
            self.inv(),
        ensures
            match r {
                Ok(()) => !has_unique_conflict(self@, *model, exclude),
                Err(e) => exists|d: int|
                    #[trigger] first_conflict_at(self@, *model, exclude, d)
                        && is_unique_violation_err::<M>(e, *model, d),
            },
    {
        proof {
            reveal(MockDatabase::inv);
        }
        let mut d: usize = 0;
        while d < self.tables.len()
            invariant
                self.inv(),
                0 <= d <= self.tables@.len(),
                self.tables@.len() == M::index_specs().len(),
                forall|e: int| 0 <= e < d ==> !unique_conflict_at(self@, *model, e, exclude),
            decreases self.tables@.len() - d,
        {
            proof {
                reveal(MockDatabase::inv);
            }
            let ghost dd = d as int;
            if self.tables[d].unique {
                let kv = model.extract(d);
                let key = kv.encode();
                let ghost bs = self.tables@[dd].buckets@;
                match find_slot(&self.tables[d].buckets, key.as_str()) {
                    Some(b) => {
                        proof {
                            lemma_ids_at_slot(bs, b as int);
                        }
                        let ids = &self.tables[d].buckets[b].ids;
                        let mut p: usize = 0;
                        while p < ids.len()
                            invariant
                                self.inv(),
                                0 <= p <= ids@.len(),
                                dd == d as int,
                                0 <= dd < M::index_specs().len(),
                                self.tables@.len() == M::index_specs().len(),
                                bs == self.tables@[dd].buckets@,
                                ids@ == ids_at(bs, key@),
                                M::index_specs()[dd].unique,
                                key@ == key_of(*model, dd),
                                kv.wf(),
                                kv@ == model.key_spec(dd),
                                forall|e: int|
                                    0 <= e < dd ==> !unique_conflict_at(
                                        self@,
                                        *model,
                                        e,
                                        exclude,
                                    ),
                                forall|q: int|
                                    0 <= q < p ==> (match exclude {
                                        Some(e2) => #[trigger] ids@[q] == e2,
                                        None => false,
                                    }),
                            decreases ids@.len() - p,
                        {
                            let conflicting = match exclude {
                                Some(e2) => ids[p] != e2,
                                None => true,
                            };
                            if conflicting {
                                proof {
                                    reveal(MockDatabase::inv);
                                    // the entry points at a live record whose
                                    // key collides with the model's
                                    assert(entry_live(self@, dd, key@, ids@[p as int]));
                                    let i = choose|i: int|
                                        0 <= i < self@.len() && (#[trigger] self@[i]).id_spec()
                                            == ids@[p as int] && key_of(self@[i], dd) == key@;
                                    assert(wf_key(self@[i].key_spec(dd)));
                                    assert(wf_key(model.key_spec(dd)));
                                    lemma_encode_injective(
                                        self@[i].key_spec(dd),
                                        model.key_spec(dd),
                                    );
                                    assert(matches_key(self@[i], dd, model.key_spec(dd)));
                                    assert(unique_conflict_at(self@, *model, dd, exclude));
                                    assert(first_conflict_at(self@, *model, exclude, dd));
                                }
                                let err = StoreError::UniqueViolation {
                                    index: self.tables[d].name.clone(),
                                    value: key,
                                };
                                proof {
                                    reveal(MockDatabase::inv);
                                    assert(is_unique_violation_err::<M>(err, *model, dd));
                                }
                                return Err(err);
                            }
                            p = p + 1;
                        }
                        proof {
                            reveal(MockDatabase::inv);
                            assert(!unique_conflict_at(self@, *model, dd, exclude)) by {
                                if unique_conflict_at(self@, *model, dd, exclude) {
                                    let i = choose|i: int|
                                        {
                                            &&& 0 <= i < self@.len()
                                            &&& matches_key(
                                                #[trigger] self@[i],
                                                dd,
                                                model.key_spec(dd),
                                            )
                                            &&& match exclude {
                                                Some(e) => self@[i].id_spec() != e,
                                                None => true,
                                            }
                                        };
                                    assert(key_of(self@[i], dd) == key@);
                                    assert(ids_at(bs, key@).contains(self@[i].id_spec()));
                                    let q = choose|q: int|
                                        0 <= q < ids@.len() && ids@[q] == self@[i].id_spec();
                                    assert(false);
                                }
                            }
                        }
                    },
                    None => {
                        proof {
                            reveal(MockDatabase::inv);
                            assert(ids_at(bs, key@) =~= Seq::<u128>::empty());
                            assert(!unique_conflict_at(self@, *model, dd, exclude)) by {
                                if unique_conflict_at(self@, *model, dd, exclude) {
                                    let i = choose|i: int|
                                        {
                                            &&& 0 <= i < self@.len()
                                            &&& matches_key(
                                                #[trigger] self@[i],
                                                dd,
                                                model.key_spec(dd),
                                            )
                                            &&& match exclude {
                                                Some(e) => self@[i].id_spec() != e,
                                                None => true,
                                            }
                                        };
                                    assert(key_of(self@[i], dd) == key@);
                                    assert(ids_at(bs, key@).contains(self@[i].id_spec()));
                                    assert(false);
                                }
                            }
                        }
                    },
                }
            } else {
                proof {
                    reveal(MockDatabase::inv);
                    assert(!M::index_specs()[dd].unique);
                    assert(!unique_conflict_at(self@, *model, dd, exclude));
                }
            }
            d = d + 1;
        }
        Ok(())
    }

    /// Insert a new record. Fails when the identifier is already taken or
    /// when a unique index already holds one of the record's keys; a failed
    /// insert leaves the store unchanged.
    pub fn insert(&mut self, model: &M) -> (r: StoreResult<()>)
        requires
            old(self).inv(),
        ensures
            final(self).inv(),
            match r {
                Ok(()) => insert_ok(old(self)@, *model) && final(self)@ == insert_post(
                    old(self)@,
                    *model,
                ),
                Err(e) => final(self)@ == old(self)@ && {
                    ||| contains_id(old(self)@, model.id_spec()) && is_duplicate_id_err(
                        e,
                        model.id_spec(),
                    )
                    ||| !contains_id(old(self)@, model.id_spec()) && exists|d: int|
                        #[trigger] first_conflict_at(old(self)@, *model, None, d)
                            && is_unique_violation_err::<M>(e, *model, d)
                },
            },
    {
        proof {
            reveal(MockDatabase::inv);
        }
        let id = model.id();
        if let Some(_) = self.find_record(id.value()) {
            let mut msg = "Record with id ".to_owned();
            let id_text = id.to_text();
            msg.append(id_text.as_str());
            msg.append(" already exists");
            proof {
                assert(msg@ == duplicate_id_msg(model.id_spec()));
            }
            return Err(StoreError::Database(msg));
        }
        match self.check_unique_violations(model, None) {
            Err(e) => {
                return Err(e);
            },
            Ok(()) => {},
        }
        let ghost data0 = self.data@;
        let ghost m = *model;
        let ghost pre_tables = self.tables@;
        self.data.push(model.duplicate());
        let mut d: usize = 0;
        while d < self.tables.len()
            invariant
                0 <= d <= self.tables@.len(),
                self.tables@.len() == M::index_specs().len(),
                self.data@ == data0.push(m),
                m == *model,
                m.id_spec() == id@,
                !contains_id(data0, id@),
                !has_unique_conflict(data0, m, None),
                distinct_names(M::index_specs()),
                distinct_ids(data0),
                forall|i: int, d2: int|
                    0 <= i < data0.len() && 0 <= d2 < M::index_specs().len() ==> wf_key(
                        #[trigger] data0[i].key_spec(d2),
                    ),
                forall|e: int|
                    0 <= e < self.tables@.len() ==> {
                        &&& (#[trigger] self.tables@[e]).name@ == M::index_specs()[e].name
                        &&& self.tables@[e].unique == M::index_specs()[e].unique
                    },
                forall|e: int|
                    d <= e < self.tables@.len() ==> {
                        let t = #[trigger] self.tables@[e];
                        &&& t.buckets@ == pre_tables[e].buckets@
                        &&& table_wf(t.buckets@)
                        &&& table_sound(data0, e, t.buckets@)
                        &&& table_complete(data0, e, t.buckets@)
                        &&& (M::index_specs()[e].unique ==> table_unique_card(t.buckets@))
                    },
                forall|e: int|
                    0 <= e < d ==> {
                        let t = #[trigger] self.tables@[e];
                        &&& table_wf(t.buckets@)
                        &&& table_sound(self.data@, e, t.buckets@)
                        &&& table_complete(self.data@, e, t.buckets@)
                        &&& (M::index_specs()[e].unique ==> table_unique_card(t.buckets@))
                        &&& wf_key(m.key_spec(e))
                    },
            decreases self.tables@.len() - d,
        {
            let ghost dd = d as int;
            let ghost data2 = self.data@;
            let kv = model.extract(d);
            let key = kv.encode();
            let ghost bs0 = self.tables@[dd].buckets@;
            proof {
                assert(kv@ == m.key_spec(dd));
                assert(key@ == key_of(m, dd));
                assert(wf_key(m.key_spec(dd)));
                // the fresh identifier is filed nowhere yet
                assert(!ids_at(bs0, key@).contains(id@)) by {
                    if ids_at(bs0, key@).contains(id@) {
                        let p = choose|p: int|
                            0 <= p < ids_at(bs0, key@).len() && ids_at(bs0, key@)[p] == id@;
                        assert(entry_live(data0, dd, key@, ids_at(bs0, key@)[p]));
                        assert(contains_id(data0, id@));
                    }
                }
            }
            let t = &mut self.tables[d];
            add_id(&mut t.buckets, key.as_str(), id.value());
            proof {
                let bs1 = self.tables@[dd].buckets@;
                assert(ids_at(bs1, key@) == ids_at(bs0, key@).push(id@));
                // soundness
                assert(table_sound(data2, dd, bs1)) by {
                    lemma_sound_after_push(data0, m, dd, bs0);
                    assert forall|k: Seq<char>, p: int| 0 <= p < ids_at(bs1, k).len() implies
                        entry_live(data2, dd, k, #[trigger] ids_at(bs1, k)[p]) by {
                        if k == key@ {
                            if p < ids_at(bs0, key@).len() {
                                assert(ids_at(bs1, k)[p] == ids_at(bs0, k)[p]);
                                assert(entry_live(data2, dd, k, ids_at(bs0, k)[p]));
                            } else {
                                assert(ids_at(bs1, k)[p] == id@);
                                assert(data2[data0.len() as int] == m);
                                assert(key_of(m, dd) == k);
                                assert(entry_live(data2, dd, k, id@));
                            }
                        } else {
                            assert(ids_at(bs1, k) == ids_at(bs0, k));
                            assert(entry_live(data2, dd, k, ids_at(bs0, k)[p]));
                        }
                    }
                }
                // completeness
                assert(table_complete(data2, dd, bs1)) by {
                    assert forall|i: int| 0 <= i < data2.len() implies ids_at(
                        bs1,
                        key_of(#[trigger] data2[i], dd),
                    ).contains(data2[i].id_spec()) by {
                        broadcast use vstd::seq_lib::group_seq_properties;

                        if i < data0.len() {
                            assert(data2[i] == data0[i]);
                            assert(ids_at(bs0, key_of(data0[i], dd)).contains(data0[i].id_spec()));
                            if key_of(data0[i], dd) == key@ {
                                assert(ids_at(bs1, key@) == ids_at(bs0, key@).push(id@));
                            } else {
                                assert(ids_at(bs1, key_of(data0[i], dd)) == ids_at(
                                    bs0,
                                    key_of(data0[i], dd),
                                ));
                            }
                        } else {
                            assert(data2[i] == m);
                            let ids1 = ids_at(bs1, key@);
                            assert(ids1[ids1.len() - 1] == id@);
                        }
                    }
                }
                // unique cardinality: the bucket must have been empty
                if M::index_specs()[dd].unique {
                    assert(table_unique_card(bs1)) by {
                        assert(ids_at(bs0, key@).len() == 0) by {
                            if ids_at(bs0, key@).len() > 0 {
                                assert(entry_live(data0, dd, key@, ids_at(bs0, key@)[0]));
                                let i = choose|i: int|
                                    0 <= i < data0.len() && (#[trigger] data0[i]).id_spec()
                                        == ids_at(bs0, key@)[0] && key_of(data0[i], dd) == key@;
                                assert(wf_key(data0[i].key_spec(dd)));
                                assert(wf_key(m.key_spec(dd)));
                                lemma_encode_injective(data0[i].key_spec(dd), m.key_spec(dd));
                                assert(unique_conflict_at(data0, m, dd, None));
                                assert(has_unique_conflict(data0, m, None));
                            }
                        }
                        assert forall|k: Seq<char>| (#[trigger] ids_at(bs1, k)).len() <= 1 by {
                            if k == key@ {
                                assert(ids_at(bs1, k).len() == 1);
                            } else {
                                assert(ids_at(bs1, k) == ids_at(bs0, k));
                            }
                        }
                    }
                }
            }
            d = d + 1;
        }
        proof {
            reveal(MockDatabase::inv);
            assert(distinct_ids(self.data@)) by {
                assert forall|i: int, j: int| 0 <= i < j < self.data@.len() implies (
                #[trigger] self.data@[i]).id_spec() != (#[trigger] self.data@[j]).id_spec() by {
                    if j < data0.len() {
                        assert(self.data@[i] == data0[i] && self.data@[j] == data0[j]);
                    } else {
                        assert(self.data@[j] == m);
                        assert(self.data@[i] == data0[i]);
                        if data0[i].id_spec() == id@ {
                            assert(contains_id(data0, id@));
                        }
                    }
                }
            }
            assert forall|i: int, d2: int|
                0 <= i < self.data@.len() && 0 <= d2 < M::index_specs().len() implies wf_key(
                #[trigger] self.data@[i].key_spec(d2),
            ) by {
                let t = self.tables@[d2];
                if i < data0.len() {
                    assert(self.data@[i] == data0[i]);
                    assert(wf_key(data0[i].key_spec(d2)));
                } else {
                    assert(self.data@[i] == m);
                    assert(wf_key(m.key_spec(d2)));
                }
            }
            assert(final(self)@ =~= insert_post(data0, m));
        }
        Ok(())
    }

    /// Update the record carrying `model`'s identifier: the stored document
    /// is replaced and every index entry is recomputed. Fails with "not
    /// found" when the identifier is not live, and with a unique violation
    /// when another record already holds one of the new keys; a failed update
    /// leaves the store unchanged.
    pub fn update(&mut self, model: &M) -> (r: StoreResult<()>)
        requires
            old(self).inv(),
        ensures
            final(self).inv(),
            match r {
                Ok(()) => update_ok(old(self)@, *model) && final(self)@ == update_post(
                    old(self)@,
                    *model,
                ),
                Err(e) => final(self)@ == old(self)@ && {
                    ||| !contains_id(old(self)@, model.id_spec()) && is_not_found_err(
                        e,
                        model.id_spec(),
                    )
                    ||| contains_id(old(self)@, model.id_spec()) && exists|d: int|
                        #[trigger] first_conflict_at(
                            old(self)@,
                            *model,
                            Some(model.id_spec()),
                            d,
                        ) && is_unique_violation_err::<M>(e, *model, d)
                },
            },
    {
        proof {
            reveal(MockDatabase::inv);
        }
        let id = model.id();
        let i = match self.find_record(id.value()) {
            Some(i) => i,
            None => {
                return Err(StoreError::NotFound(id.to_text()));
            },
        };
        match self.check_unique_violations(model, Some(id.value())) {
            Err(e) => {
                return Err(e);
            },
            Ok(()) => {},
        }
        let ghost data0 = self.data@;
        let ghost ii = i as int;
        let ghost m = *model;
        let ghost pre_tables = self.tables@;
        proof {
            lemma_id_index_unique(data0, ii);
        }
        self.data.set(i, model.duplicate());
        let mut d: usize = 0;
        while d < self.tables.len()
            invariant
                0 <= d <= self.tables@.len(),
                self.tables@.len() == M::index_specs().len(),
                self.data@ == data0.update(ii, m),
                m == *model,
                m.id_spec() == id@,
                0 <= ii < data0.len(),
                data0[ii].id_spec() == id@,
                !has_unique_conflict(data0, m, Some(id@)),
                distinct_names(M::index_specs()),
                distinct_ids(data0),
                forall|i2: int, d2: int|
                    0 <= i2 < data0.len() && 0 <= d2 < M::index_specs().len() ==> wf_key(
                        #[trigger] data0[i2].key_spec(d2),
                    ),
                forall|e: int|
                    0 <= e < self.tables@.len() ==> {
                        &&& (#[trigger] self.tables@[e]).name@ == M::index_specs()[e].name
                        &&& self.tables@[e].unique == M::index_specs()[e].unique
                    },
                forall|e: int|
                    d <= e < self.tables@.len() ==> {
                        let t = #[trigger] self.tables@[e];
                        &&& t.buckets@ == pre_tables[e].buckets@
                        &&& table_wf(t.buckets@)
                        &&& table_sound(data0, e, t.buckets@)
                        &&& table_complete(data0, e, t.buckets@)
                        &&& (M::index_specs()[e].unique ==> table_unique_card(t.buckets@))
                    },
                forall|e: int|
                    0 <= e < d ==> {
                        let t = #[trigger] self.tables@[e];
                        &&& table_wf(t.buckets@)
                        &&& table_sound(self.data@, e, t.buckets@)
                        &&& table_complete(self.data@, e, t.buckets@)
                        &&& (M::index_specs()[e].unique ==> table_unique_card(t.buckets@))
                        &&& wf_key(m.key_spec(e))
                    },
            decreases self.tables@.len() - d,
        {
            let ghost dd = d as int;
            let ghost data2 = self.data@;
            let ghost tables_in = self.tables@;
            let ghost bs0 = self.tables@[dd].buckets@;
            let kv = model.extract(d);
            let key = kv.encode();
            proof {
                assert(kv@ == m.key_spec(dd));
                assert(key@ == key_of(m, dd));
                assert(wf_key(m.key_spec(dd)));
            }
            let t = &mut self.tables[d];
            remove_id(&mut t.buckets, id.value());
            let ghost bsr = self.tables@[dd].buckets@;
            proof {
                lemma_remove_all(ids_at(bs0, key@), id@);
                assert(!ids_at(bsr, key@).contains(id@));
            }
            let t2 = &mut self.tables[d];
            add_id(&mut t2.buckets, key.as_str(), id.value());
            proof {
                broadcast use vstd::seq_lib::group_seq_properties;

                let bs2 = self.tables@[dd].buckets@;
                assert(ids_at(bs2, key@) == ids_at(bsr, key@).push(id@));
                // soundness
                assert(table_sound(data2, dd, bs2)) by {
                    assert forall|k: Seq<char>, p: int| 0 <= p < ids_at(bs2, k).len() implies
                        entry_live(data2, dd, k, #[trigger] ids_at(bs2, k)[p]) by {
                        let x = ids_at(bs2, k)[p];
                        let survivor = if k == key@ {
                            p < ids_at(bs2, k).len() - 1
                        } else {
                            true
                        };
                        if survivor {
                            assert(ids_at(bsr, k).contains(x)) by {
                                if k == key@ {
                                    assert(ids_at(bs2, k)[p] == ids_at(bsr, k)[p]);
                                } else {
                                    assert(ids_at(bs2, k) == ids_at(bsr, k));
                                }
                            }
                            lemma_remove_all(ids_at(bs0, k), id@);
                            assert(ids_at(bs0, k).contains(x) && x != id@);
                            let q = choose|q: int|
                                0 <= q < ids_at(bs0, k).len() && ids_at(bs0, k)[q] == x;
                            assert(entry_live(data0, dd, k, ids_at(bs0, k)[q]));
                            let j = choose|j: int|
                                0 <= j < data0.len() && (#[trigger] data0[j]).id_spec() == x
                                    && key_of(data0[j], dd) == k;
                            assert(j != ii);
                            assert(data2[j] == data0[j]);
                            assert(entry_live(data2, dd, k, x));
                        } else {
                            assert(x == id@);
                            assert(data2[ii] == m);
                            assert(key_of(m, dd) == k);
                            assert(entry_live(data2, dd, k, id@));
                        }
                    }
                }
                // completeness
                assert(table_complete(data2, dd, bs2)) by {
                    assert forall|q: int| 0 <= q < data2.len() implies ids_at(
                        bs2,
                        key_of(#[trigger] data2[q], dd),
                    ).contains(data2[q].id_spec()) by {
                        if q == ii {
                            assert(data2[q] == m);
                            let ids2 = ids_at(bs2, key@);
                            assert(ids2[ids2.len() - 1] == id@);
                        } else {
                            assert(data2[q] == data0[q]);
                            let k = key_of(data0[q], dd);
                            assert(ids_at(bs0, k).contains(data0[q].id_spec()));
                            assert(data0[q].id_spec() != id@) by {
                                if data0[q].id_spec() == data0[ii].id_spec() {
                                    assert(false);
                                }
                            }
                            lemma_remove_all(ids_at(bs0, k), id@);
                            assert(ids_at(bsr, k) == remove_all(ids_at(bs0, k), id@));
                            assert(ids_at(bsr, k).contains(data0[q].id_spec()));
                            if k == key@ {
                                assert(ids_at(bs2, k) == ids_at(bsr, k).push(id@));
                            } else {
                                assert(ids_at(bs2, k) == ids_at(bsr, k));
                            }
                        }
                    }
                }
                // unique cardinality: the new key's bucket held only this
                // record's own entry, if any
                if M::index_specs()[dd].unique {
                    assert(ids_at(bsr, key@).len() == 0) by {
                        if ids_at(bsr, key@).len() > 0 {
                            let x = ids_at(bsr, key@)[0];
                            lemma_remove_all(ids_at(bs0, key@), id@);
                            assert(ids_at(bsr, key@).contains(x));
                            assert(ids_at(bs0, key@).contains(x) && x != id@);
                            let q = choose|q: int|
                                0 <= q < ids_at(bs0, key@).len() && ids_at(bs0, key@)[q] == x;
                            assert(entry_live(data0, dd, key@, ids_at(bs0, key@)[q]));
                            let j = choose|j: int|
                                0 <= j < data0.len() && (#[trigger] data0[j]).id_spec() == x
                                    && key_of(data0[j], dd) == key@;
                            assert(wf_key(data0[j].key_spec(dd)));
                            lemma_encode_injective(data0[j].key_spec(dd), m.key_spec(dd));
                            assert(matches_key(data0[j], dd, m.key_spec(dd)));
                            assert(unique_conflict_at(data0, m, dd, Some(id@)));
                            assert(has_unique_conflict(data0, m, Some(id@)));
                        }
                    }
                    assert forall|k: Seq<char>| (#[trigger] ids_at(bs2, k)).len() <= 1 by {
                        lemma_remove_all(ids_at(bs0, k), id@);
                        if k == key@ {
                            assert(ids_at(bs2, k).len() == 1);
                        } else {
                            assert(ids_at(bs2, k) == ids_at(bsr, k));
                            assert(ids_at(bsr, k) == remove_all(ids_at(bs0, k), id@));
                            assert(ids_at(bs0, k).len() <= 1);
                        }
                    }
                }
                assert(forall|e: int|
                    0 <= e < self.tables@.len() && e != dd ==> #[trigger] self.tables@[e]
                        == tables_in[e]);
            }
            d = d + 1;
        }
        proof {
            reveal(MockDatabase::inv);
            let data2 = self.data@;
            assert(distinct_ids(data2)) by {
                assert forall|a: int, b: int| 0 <= a < b < data2.len() implies (
                #[trigger] data2[a]).id_spec() != (#[trigger] data2[b]).id_spec() by {
                    assert(data2[a] == if a == ii {
                        m
                    } else {
                        data0[a]
                    });
                    assert(data2[b] == if b == ii {
                        m
                    } else {
                        data0[b]
                    });
                }
            }
            assert forall|i2: int, d2: int|
                0 <= i2 < data2.len() && 0 <= d2 < M::index_specs().len() implies wf_key(
                #[trigger] data2[i2].key_spec(d2),
            ) by {
                let t = self.tables@[d2];
                if i2 == ii {
                    assert(data2[i2] == m);
                    assert(wf_key(m.key_spec(d2)));
                } else {
                    assert(data2[i2] == data0[i2]);
                    assert(wf_key(data0[i2].key_spec(d2)));
                }
            }
            assert(final(self)@ == update_post(data0, m));
        }
        Ok(())
    }

    /// Delete the record carrying `id` together with every index entry that
    /// points at it. Fails with "not found" when no such record is live, and
    /// then changes nothing.
    pub fn delete(&mut self, id: RecordId) -> (r: StoreResult<()>)
        requires
            old(self).inv(),
        ensures
            final(self).inv(),
            match r {
                Ok(()) => contains_id(old(self)@, id@) && final(self)@ == delete_post(
                    old(self)@,
                    id@,
                ),
                Err(e) => final(self)@ == old(self)@ && !contains_id(old(self)@, id@)
                    && is_not_found_err(e, id@),
            },
    {
        proof {
            reveal(MockDatabase::inv);
        }
        let i = match self.find_record(id.value()) {
            Some(i) => i,
            None => {
                return Err(StoreError::NotFound(id.to_text()));
            },
        };
        let ghost data0 = self.data@;
        let ghost ii = i as int;
        let ghost pre_tables = self.tables@;
        proof {
            lemma_id_index_unique(data0, ii);
        }
        self.data.remove(i);
        let mut d: usize = 0;
        while d < self.tables.len()
            invariant
                0 <= d <= self.tables@.len(),
                self.tables@.len() == M::index_specs().len(),
                self.data@ == data0.remove(ii),
                0 <= ii < data0.len(),
                data0[ii].id_spec() == id@,
                distinct_names(M::index_specs()),
                distinct_ids(data0),
                forall|i2: int, d2: int|
                    0 <= i2 < data0.len() && 0 <= d2 < M::index_specs().len() ==> wf_key(
                        #[trigger] data0[i2].key_spec(d2),
                    ),
                forall|e: int|
                    0 <= e < self.tables@.len() ==> {
                        &&& (#[trigger] self.tables@[e]).name@ == M::index_specs()[e].name
                        &&& self.tables@[e].unique == M::index_specs()[e].unique
                    },
                forall|e: int|
                    d <= e < self.tables@.len() ==> {
                        let t = #[trigger] self.tables@[e];
                        &&& t.buckets@ == pre_tables[e].buckets@
                        &&& table_wf(t.buckets@)
                        &&& table_sound(data0, e, t.buckets@)
                        &&& table_complete(data0, e, t.buckets@)
                        &&& (M::index_specs()[e].unique ==> table_unique_card(t.buckets@))
                    },
                forall|e: int|
                    0 <= e < d ==> {
                        let t = #[trigger] self.tables@[e];
                        &&& table_wf(t.buckets@)
                        &&& table_sound(self.data@, e, t.buckets@)
                        &&& table_complete(self.data@, e, t.buckets@)
                        &&& (M::index_specs()[e].unique ==> table_unique_card(t.buckets@))
                    },
            decreases self.tables@.len() - d,
        {
            let ghost dd = d as int;
            let ghost data2 = self.data@;
            let ghost bs0 = self.tables@[dd].buckets@;
            let t = &mut self.tables[d];
            remove_id(&mut t.buckets, id.value());
            proof {
                broadcast use vstd::seq_lib::group_seq_properties;

                let bs1 = self.tables@[dd].buckets@;
                // soundness: surviving entries point at surviving records
                assert(table_sound(data2, dd, bs1)) by {
                    assert forall|k: Seq<char>, p: int| 0 <= p < ids_at(bs1, k).len() implies
                        entry_live(data2, dd, k, #[trigger] ids_at(bs1, k)[p]) by {
                        let x = ids_at(bs1, k)[p];
                        assert(ids_at(bs1, k) == remove_all(ids_at(bs0, k), id@));
                        lemma_remove_all(ids_at(bs0, k), id@);
                        assert(ids_at(bs1, k).contains(x));
                        assert(ids_at(bs0, k).contains(x) && x != id@);
                        let q = choose|q: int|
                            0 <= q < ids_at(bs0, k).len() && ids_at(bs0, k)[q] == x;
                        assert(entry_live(data0, dd, k, ids_at(bs0, k)[q]));
                        let j = choose|j: int|
                            0 <= j < data0.len() && (#[trigger] data0[j]).id_spec() == x && key_of(
                                data0[j],
                                dd,
                            ) == k;
                        assert(j != ii);
                        if j < ii {
                            assert(data2[j] == data0[j]);
                            assert(entry_live(data2, dd, k, x));
                        } else {
                            assert(data2[j - 1] == data0[j]);
                            assert(entry_live(data2, dd, k, x));
                        }
                    }
                }
                // completeness: surviving records keep their entries
                assert(table_complete(data2, dd, bs1)) by {
                    assert forall|q: int| 0 <= q < data2.len() implies ids_at(
                        bs1,
                        key_of(#[trigger] data2[q], dd),
                    ).contains(data2[q].id_spec()) by {
                        let j = if q < ii {
                            q
                        } else {
                            q + 1
                        };
                        assert(data2[q] == data0[j]);
                        let k = key_of(data0[j], dd);
                        assert(ids_at(bs0, k).contains(data0[j].id_spec()));
                        assert(data0[j].id_spec() != id@) by {
                            if j != ii && data0[j].id_spec() == data0[ii].id_spec() {
                                assert(false);
                            }
                        }
                        lemma_remove_all(ids_at(bs0, k), id@);
                        assert(ids_at(bs1, k) == remove_all(ids_at(bs0, k), id@));
                        assert(ids_at(bs1, k).contains(data0[j].id_spec()));
                    }
                }
                // unique cardinality can only shrink
                if M::index_specs()[dd].unique {
                    assert forall|k: Seq<char>| (#[trigger] ids_at(bs1, k)).len() <= 1 by {
                        lemma_remove_all(ids_at(bs0, k), id@);
                        assert(ids_at(bs1, k) == remove_all(ids_at(bs0, k), id@));
                        assert(ids_at(bs0, k).len() <= 1);
                    }
                }
            }
            d = d + 1;
        }
        proof {
            reveal(MockDatabase::inv);
            let data2 = self.data@;
            assert(distinct_ids(data2)) by {
                assert forall|a: int, b: int| 0 <= a < b < data2.len() implies (
                #[trigger] data2[a]).id_spec() != (#[trigger] data2[b]).id_spec() by {
                    let ja = if a < ii {
                        a
                    } else {
                        a + 1
                    };
                    let jb = if b < ii {
                        b
                    } else {
                        b + 1
                    };
                    assert(data2[a] == data0[ja] && data2[b] == data0[jb]);
                }
            }
            assert forall|i2: int, d2: int|
                0 <= i2 < data2.len() && 0 <= d2 < M::index_specs().len() implies wf_key(
                #[trigger] data2[i2].key_spec(d2),
            ) by {
                let j = if i2 < ii {
                    i2
                } else {
                    i2 + 1
                };
                assert(data2[i2] == data0[j]);
                assert(wf_key(data0[j].key_spec(d2)));
            }
            assert(final(self)@ == delete_post(data0, id@));
        }
        Ok(())
    }

    /// Find the single record holding `key` under the unique index named
    /// `selector`. Looking an undeclared index up is an error, as is using
    /// this on a non-unique index.
    pub fn find_by_unique_index(&self, selector: &str, key: &IndexValue) -> (r: StoreResult<
        Option<M>,
    >)
        requires
            self.inv(),
            key.wf(),
        ensures
            match r {
                Ok(o) => {
                    &&& has_index::<M>(selector@)
                    &&& M::index_specs()[sel_of::<M>(selector@)].unique
                    &&& match o {
                        Some(m) => {
                            &&& self@.contains(m)
                            &&& matches_key(m, sel_of::<M>(selector@), key@)
                            &&& forall|i: int|
                                0 <= i < self@.len() && matches_key(
                                    #[trigger] self@[i],
                                    sel_of::<M>(selector@),
                                    key@,
                                ) ==> self@[i] == m
                        },
                        None => forall|i: int|
                            0 <= i < self@.len() ==> !matches_key(
                                #[trigger] self@[i],
                                sel_of::<M>(selector@),
                                key@,
                            ),
                    }
                },
                Err(e) => match e {
                    StoreError::IndexNotFound(s) => s@ == selector@ && !has_index::<M>(selector@),
                    StoreError::IndexNotUnique(s) => s@ == selector@ && has_index::<M>(selector@)
                        && !M::index_specs()[sel_of::<M>(selector@)].unique,
                    _ => false,
                },
            },
    {
        proof {
            reveal(MockDatabase::inv);
        }
        let d = match self.find_table(selector) {
            Some(d) => d,
            None => {
                return Err(StoreError::IndexNotFound(selector.to_owned()));
            },
        };
        let ghost dd = d as int;
        proof {
            lemma_sel_of_unique::<M>(dd, selector@);
        }
        if !self.tables[d].unique {
            return Err(StoreError::IndexNotUnique(selector.to_owned()));
        }
        let encoded = key.encode();
        let ghost bs = self.tables@[dd].buckets@;
        proof {
            // a record matches the key segments exactly when its encoded key
            // is the encoded lookup key
            assert forall|i: int| 0 <= i < self@.len() implies (matches_key(
                #[trigger] self@[i],
                dd,
                key@,
            ) <==> key_of(self@[i], dd) == encoded@) by {
                if key_of(self@[i], dd) == encoded@ {
                    lemma_encode_injective(self@[i].key_spec(dd), key@);
                }
            }
        }
        match find_slot(&self.tables[d].buckets, encoded.as_str()) {
            Some(b) => {
                proof {
                    lemma_ids_at_slot(bs, b as int);
                }
                let rid = self.tables[d].buckets[b].ids[0];
                proof {
                    assert(ids_at(bs, encoded@)[0] == rid);
                    assert(entry_live(self@, dd, encoded@, rid));
                }
                match self.find_record(rid) {
                    Some(i) => {
                        proof {
                            let j = choose|j: int|
                                0 <= j < self@.len() && (#[trigger] self@[j]).id_spec() == rid
                                    && key_of(self@[j], dd) == encoded@;
                            assert(self@[i as int].id_spec() == self@[j].id_spec());
                            if i as int != j {
                                assert(false);
                            }
                            assert(matches_key(self@[i as int], dd, key@));
                            assert(self@.contains(self@[i as int]));
                            // the unique index admits no second match
                            assert forall|q: int|
                                0 <= q < self@.len() && matches_key(
                                    #[trigger] self@[q],
                                    dd,
                                    key@,
                                ) implies self@[q] == self@[i as int] by {
                                assert(key_of(self@[q], dd) == encoded@);
                                assert(ids_at(bs, encoded@).contains(self@[q].id_spec()));
                                let p = choose|p: int|
                                    0 <= p < ids_at(bs, encoded@).len() && ids_at(bs, encoded@)[p]
                                        == self@[q].id_spec();
                                assert(ids_at(bs, encoded@).len() <= 1);
                                assert(self@[q].id_spec() == rid);
                                if q != i as int {
                                    assert(false);
                                }
                            }
                        }
                        Ok(Some(self.data[i].duplicate()))
                    },
                    None => {
                        proof {
                            assert(contains_id(self@, rid));
                            assert(false);
                        }
                        Ok(None)
                    },
                }
            },
            None => {
                proof {
                    assert forall|i: int| 0 <= i < self@.len() implies !matches_key(
                        #[trigger] self@[i],
                        dd,
                        key@,
                    ) by {
                        if matches_key(self@[i], dd, key@) {
                            assert(ids_at(bs, key_of(self@[i], dd)).contains(self@[i].id_spec()));
                            assert(ids_at(bs, encoded@) =~= Seq::<u128>::empty());
                            assert(false);
                        }
                    }
                }
                Ok(None)
            },
        }
    }

    /// Find every record holding `key` under the index named `selector` (in
    /// no specified order, each record exactly once). Looking an undeclared
    /// index up is an error.
    pub fn find_by_index(&self, selector: &str, key: &IndexValue) -> (r: StoreResult<Vec<M>>)
        requires
            self.inv(),
            key.wf(),
        ensures
            match r {
                Ok(v) => {
                    &&& has_index::<M>(selector@)
                    &&& forall|p: int|
                        0 <= p < v@.len() ==> self@.contains(#[trigger] v@[p]) && matches_key(
                            v@[p],
                            sel_of::<M>(selector@),
                            key@,
                        )
                    &&& forall|i: int|
                        0 <= i < self@.len() && matches_key(
                            #[trigger] self@[i],
                            sel_of::<M>(selector@),
                            key@,
                        ) ==> v@.contains(self@[i])
                    &&& ids_of(v@).no_duplicates()
                    &&& v@.len() == matching_seq(self@, sel_of::<M>(selector@), key@).len()
                },
                Err(e) => e matches StoreError::IndexNotFound(s) && s@ == selector@ && !has_index::<
                    M,
                >(selector@),
            },
    {
        proof {
            reveal(MockDatabase::inv);
        }
        let d = match self.find_table(selector) {
            Some(d) => d,
            None => {
                return Err(StoreError::IndexNotFound(selector.to_owned()));
            },
        };
        let ghost dd = d as int;
        let encoded = key.encode();
        let ghost bs = self.tables@[dd].buckets@;
        proof {
            lemma_sel_of_unique::<M>(dd, selector@);
            lemma_matching_seq(self@, dd, key@);
            assert forall|i: int| 0 <= i < self@.len() implies (matches_key(
                #[trigger] self@[i],
                dd,
                key@,
            ) <==> key_of(self@[i], dd) == encoded@) by {
                if key_of(self@[i], dd) == encoded@ {
                    lemma_encode_injective(self@[i].key_spec(dd), key@);
                }
            }
        }
        let ghost msq = matching_seq(self@, dd, key@);
        match find_slot(&self.tables[d].buckets, encoded.as_str()) {
            Some(b) => {
                proof {
                    lemma_ids_at_slot(bs, b as int);
                }
                let ids = &self.tables[d].buckets[b].ids;
                let mut out: Vec<M> = Vec::new();
                let mut p: usize = 0;
                while p < ids.len()
                    invariant
                        self.inv(),
                        key.wf(),
                        0 <= p <= ids@.len(),
                        0 <= dd < M::index_specs().len(),
                        ids@ == ids_at(bs, encoded@),
                        bs == self.tables@[dd].buckets@,
                        encoded@ == encode_of(key@),
                        out@.len() == p,
                        forall|q: int|
                            0 <= q < p ==> {
                                &&& self@.contains(#[trigger] out@[q])
                                &&& out@[q].id_spec() == ids@[q]
                                &&& matches_key(out@[q], dd, key@)
                            },
                        forall|i: int|
                            0 <= i < self@.len() ==> (matches_key(#[trigger] self@[i], dd, key@)
                                <==> key_of(self@[i], dd) == encoded@),
                    decreases ids@.len() - p,
                {
                    proof {
                        reveal(MockDatabase::inv);
                        assert(entry_live(self@, dd, encoded@, ids_at(bs, encoded@)[p as int]));
                    }
                    let rid = ids[p];
                    match self.find_record(rid) {
                        Some(i) => {
                            proof {
                                let j = choose|j: int|
                                    0 <= j < self@.len() && (#[trigger] self@[j]).id_spec() == rid
                                        && key_of(self@[j], dd) == encoded@;
                                assert(self@[i as int].id_spec() == self@[j].id_spec());
                                if i as int != j {
                                    reveal(MockDatabase::inv);
                                    assert(false);
                                }
                                assert(self@.contains(self@[i as int]));
                            }
                            out.push(self.data[i].duplicate());
                        },
                        None => {
                            proof {
                                assert(contains_id(self@, rid));
                                assert(false);
                            }
                        },
                    }
                    p = p + 1;
                }
                proof {
                    reveal(MockDatabase::inv);
                    // the result lists exactly the identifiers of the bucket
                    assert(ids_of(out@) =~= ids@);
                    // every matching record appears
                    assert forall|i: int|
                        0 <= i < self@.len() && matches_key(
                            #[trigger] self@[i],
                            dd,
                            key@,
                        ) implies out@.contains(self@[i]) by {
                        assert(ids_at(bs, key_of(self@[i], dd)).contains(self@[i].id_spec()));
                        let q = choose|q: int|
                            0 <= q < ids@.len() && ids@[q] == self@[i].id_spec();
                        assert(out@[q].id_spec() == self@[i].id_spec());
                        let j = choose|j: int|
                            0 <= j < self@.len() && #[trigger] self@[j] == out@[q];
                        assert(self@[j].id_spec() == self@[i].id_spec());
                        if j != i {
                            assert(false);
                        }
                        assert(out@[q] == self@[i]);
                        assert(out@.contains(self@[i]));
                    }
                    // as many results as matching records
                    lemma_ids_of_contains::<M>(msq);
                    lemma_ids_of_contains::<M>(out@);
                    assert forall|x: u128| #![all_triggers] ids_of(out@).contains(x) implies ids_of(
                        msq,
                    ).contains(x) by {
                        let q = choose|q: int|
                            0 <= q < out@.len() && (#[trigger] out@[q]).id_spec() == x;
                        assert(msq.contains(out@[q]));
                        let w = choose|w: int| 0 <= w < msq.len() && #[trigger] msq[w] == out@[q];
                        assert(msq[w].id_spec() == x);
                    }
                    assert forall|x: u128| #![all_triggers] ids_of(msq).contains(x) implies ids_of(
                        out@,
                    ).contains(x) by {
                        let w = choose|w: int|
                            0 <= w < msq.len() && (#[trigger] msq[w]).id_spec() == x;
                        assert(msq.contains(msq[w]));
                        assert(self@.contains(msq[w]) && matches_key(msq[w], dd, key@));
                        let i = choose|i: int| 0 <= i < self@.len() && #[trigger] self@[i]
                            == msq[w];
                        assert(ids_at(bs, key_of(self@[i], dd)).contains(self@[i].id_spec()));
                        let q = choose|q: int|
                            0 <= q < ids@.len() && ids@[q] == self@[i].id_spec();
                        assert(out@[q].id_spec() == x);
                    }
                    assert(ids_of(out@).to_set() =~= ids_of(msq).to_set());
                    lemma_same_set_same_len(ids_of(out@), ids_of(msq));
                    assert(out@.len() == msq.len());
                }
                Ok(out)
            },
            None => {
                proof {
                    assert forall|i: int| 0 <= i < self@.len() implies !matches_key(
                        #[trigger] self@[i],
                        dd,
                        key@,
                    ) by {
                        if matches_key(self@[i], dd, key@) {
                            assert(ids_at(bs, key_of(self@[i], dd)).contains(self@[i].id_spec()));
                            assert(ids_at(bs, encoded@) =~= Seq::<u128>::empty());
                            assert(false);
                        }
                    }
                    assert(msq.len() == 0) by {
                        if msq.len() > 0 {
                            assert(msq.contains(msq[0]));
                            assert(self@.contains(msq[0]) && matches_key(msq[0], dd, key@));
                            let i = choose|i: int| 0 <= i < self@.len() && #[trigger] self@[i]
                                == msq[0];
                            assert(false);
                        }
                    }
                    assert(ids_of(Seq::<M>::empty()) =~= Seq::<u128>::empty());
                }
                Ok(Vec::new())
            },
        }
    }

    /// Remove every record and every index entry.
    pub fn clear(&mut self)
        requires
            old(self).inv(),
        ensures
            final(self).inv(),
            final(self)@ == Seq::<M>::empty(),
    {
        proof {
            reveal(MockDatabase::inv);
        }
        self.data = Vec::new();
        let mut d: usize = 0;
        while d < self.tables.len()
            invariant
                self.data@ =~= Seq::<M>::empty(),
                self.tables@.len() == M::index_specs().len(),
                distinct_names(M::index_specs()),
                forall|e: int|
                    0 <= e < self.tables@.len() ==> {
                        &&& (#[trigger] self.tables@[e]).name@ == M::index_specs()[e].name
                        &&& self.tables@[e].unique == M::index_specs()[e].unique
                    },
                forall|e: int|
                    0 <= e < d ==> (#[trigger] self.tables@[e]).buckets@ =~= Seq::<
                        IndexBucket,
                    >::empty(),
            decreases self.tables@.len() - d,
        {
            let t = &mut self.tables[d];
            t.buckets = Vec::new();
            d = d + 1;
        }
        proof {
            reveal(MockDatabase::inv);
            assert forall|d2: int| 0 <= d2 < self.tables@.len() implies {
                let t = #[trigger] self.tables@[d2];
                &&& t.name@ == M::index_specs()[d2].name
                &&& t.unique == M::index_specs()[d2].unique
                &&& table_wf(t.buckets@)
                &&& table_sound(self.data@, d2, t.buckets@)
                &&& table_complete(self.data@, d2, t.buckets@)
                &&& (M::index_specs()[d2].unique ==> table_unique_card(t.buckets@))
            } by {
                lemma_empty_table::<M>(self.data@, d2);
            }
        }
    }
}

impl<M: Model> crate::store::DatabaseLike<M> for MockDatabase<M> {
    open spec fn records(&self) -> Seq<M> {
        self@
    }

    open spec fn inv(&self) -> bool {
        MockDatabase::inv(self)
    }

    fn initialize_schema(&mut self) -> (r: StoreResult<()>) {
        MockDatabase::initialize_schema(self)
    }

    fn insert(&mut self, model: &M) -> (r: StoreResult<()>) {
        MockDatabase::insert(self, model)
    }

    fn update(&mut self, model: &M) -> (r: StoreResult<()>) {
        MockDatabase::update(self, model)
    }

    fn delete(&mut self, id: RecordId) -> (r: StoreResult<()>) {
        MockDatabase::delete(self, id)
    }

    fn get(&self, id: RecordId) -> (r: StoreResult<Option<M>>) {
        MockDatabase::get(self, id)
    }

    fn find_by_unique_index(&self, selector: &str, key: &IndexValue) -> (r: StoreResult<
        Option<M>,
    >) {
        MockDatabase::find_by_unique_index(self, selector, key)
    }

    fn find_by_index(&self, selector: &str, key: &IndexValue) -> (r: StoreResult<Vec<M>>) {
        MockDatabase::find_by_index(self, selector, key)
    }

    fn list(&self, limit: u32, offset: u32) -> (r: StoreResult<Vec<M>>) {
        MockDatabase::list(self, limit, offset)
    }

    fn count(&self) -> (r: StoreResult<u64>) {
        MockDatabase::count(self)
    }

    fn exists_record(&self, id: RecordId) -> (r: StoreResult<bool>) {
        MockDatabase::exists_record(self, id)
    }
}

} // verus!
