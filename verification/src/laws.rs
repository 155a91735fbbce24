use vstd::prelude::*;

verus! {

use crate::model::Model;
use crate::store::{contains_id, delete_post, distinct_ids, has_unique_conflict, id_index,
    insert_ok, insert_post, lemma_id_index_unique, lemma_matching_seq, list_window, matches_key,
    matching_seq, s_get, update_ok, update_post};

// The laws of the store, stated once over the ghost semantics that every
// operation's contract uses. Each holds for any conforming backend.
/// An inserted record is returned by `get` exactly as stored, and no other
/// record moves: after a permitted insert of `m`, looking its identifier up
/// yields `m` itself, and every other identifier resolves as before.
pub proof fn lemma_insert_then_get<M: Model>(data: Seq<M>, m: M)
    requires
        distinct_ids(data),
        insert_ok(data, m),
    ensures
        s_get(insert_post(data, m), m.id_spec()) == Some(m),
        forall|x: u128| x != m.id_spec() ==> s_get(insert_post(data, m), x) == s_get(data, x),
{
    let post = insert_post(data, m);
    assert(distinct_ids(post)) by {
        assert forall|i: int, j: int| 0 <= i < j < post.len() implies (
        #[trigger] post[i]).id_spec() != (#[trigger] post[j]).id_spec() by {
            if j < data.len() {
                assert(post[i] == data[i] && post[j] == data[j]);
            } else {
                assert(post[j] == m && post[i] == data[i]);
                if data[i].id_spec() == m.id_spec() {
                    assert(contains_id(data, m.id_spec()));
                }
            }
        }
    }
    assert(post[data.len() as int] == m);
    lemma_id_index_unique(post, data.len() as int);
    assert forall|x: u128| x != m.id_spec() implies s_get(post, x) == s_get(data, x) by {
        if contains_id(data, x) {
            let i = id_index(data, x);
            assert(0 <= i < data.len() && data[i].id_spec() == x);
            assert(post[i] == data[i]);
            lemma_id_index_unique(post, i);
            lemma_id_index_unique(data, i);
        } else {
            if contains_id(post, x) {
                let i = id_index(post, x);
                assert(0 <= i < post.len() && post[i].id_spec() == x);
                assert(i < data.len());
                assert(contains_id(data, x));
            }
        }
    }
}

/// Inserting a record whose identifier is already live is never permitted;
/// together with `insert`'s contract (a failed insert returns the duplicate
/// error and leaves the store untouched), a duplicate insert always fails
/// and changes nothing.
pub proof fn lemma_duplicate_insert_rejected<M: Model>(data: Seq<M>, m: M)
    requires
        contains_id(data, m.id_spec()),
    ensures
        !insert_ok(data, m),
{
}

/// Inserting a record that collides with a live record under a unique index
/// is never permitted; together with `insert`'s contract (a failed insert
/// returns the violation naming the first conflicting index and leaves the
/// store untouched), such an insert always fails and changes nothing.
pub proof fn lemma_conflicting_insert_rejected<M: Model>(data: Seq<M>, m: M)
    requires
        has_unique_conflict(data, m, None),
    ensures
        !insert_ok(data, m),
{
}

/// Updating an identifier that is not live is never permitted; together with
/// `update`'s contract (a failed update returns "not found" and leaves the
/// store untouched), such an update always fails and mutates nothing.
pub proof fn lemma_update_nonexistent_rejected<M: Model>(data: Seq<M>, m: M)
    requires
        !contains_id(data, m.id_spec()),
    ensures
        !update_ok(data, m),
{
}

/// What a permitted update does to every index lookup: afterwards a record
/// matches key `k` under index `ord` exactly when it is the updated value
/// matching `k`, or an untouched record (a different identifier) that
/// matched `k` before. In particular, moving an indexed field from value A
/// to value B removes the record from A's lookup and adds it to B's.
pub proof fn lemma_update_moves_index<M: Model>(data: Seq<M>, m: M, ord: int, k: Seq<Seq<char>>)
    requires
        distinct_ids(data),
        contains_id(data, m.id_spec()),
    ensures
        forall|x: M|
            #[trigger] matching_seq(update_post(data, m), ord, k).contains(x) <==> (matches_key(
                x,
                ord,
                k,
            ) && ((data.contains(x) && x.id_spec() != m.id_spec()) || x == m)),
{
    let post = update_post(data, m);
    let ii = id_index(data, m.id_spec());
    assert(0 <= ii < data.len() && data[ii].id_spec() == m.id_spec());
    lemma_matching_seq(post, ord, k);
    assert forall|x: M| #[trigger] post.contains(x) <==> ((data.contains(x) && x.id_spec()
        != m.id_spec()) || x == m) by {
        if post.contains(x) {
            let j = choose|j: int| 0 <= j < post.len() && post[j] == x;
            if j == ii {
                assert(x == m);
            } else {
                assert(post[j] == data[j]);
                assert(data.contains(x)) by {
                    assert(data[j] == x);
                }
                assert(data[j].id_spec() != data[ii].id_spec());
            }
        }
        if data.contains(x) && x.id_spec() != m.id_spec() {
            let j = choose|j: int| 0 <= j < data.len() && data[j] == x;
            assert(j != ii);
            assert(post[j] == x);
            assert(post.contains(x));
        }
        if x == m {
            assert(post[ii] == m);
            assert(post.contains(x));
        }
    }
}

/// What a permitted delete does: the deleted identifier resolves to nothing,
/// every other identifier resolves as before, and afterwards a record
/// matches a key under an index exactly when it matched before and is not
/// the deleted record — no orphan index entry remains.
pub proof fn lemma_delete_removes<M: Model>(data: Seq<M>, id: u128, ord: int, k: Seq<Seq<char>>)
    requires
        distinct_ids(data),
        contains_id(data, id),
    ensures
        s_get(delete_post(data, id), id) == None::<M>,
        forall|x: u128| x != id ==> s_get(delete_post(data, id), x) == s_get(data, x),
        forall|x: M|
            #[trigger] matching_seq(delete_post(data, id), ord, k).contains(x) <==> (matches_key(
                x,
                ord,
                k,
            ) && data.contains(x) && x.id_spec() != id),
{
    let post = delete_post(data, id);
    let ii = id_index(data, id);
    assert(0 <= ii < data.len() && data[ii].id_spec() == id);
    assert(forall|j: int| 0 <= j < post.len() ==> #[trigger] post[j] == (if j < ii {
        data[j]
    } else {
        data[j + 1]
    }));
    assert(!contains_id(post, id)) by {
        if contains_id(post, id) {
            let j = id_index(post, id);
            assert(0 <= j < post.len() && post[j].id_spec() == id);
            if j < ii {
                assert(data[j].id_spec() == data[ii].id_spec());
            } else {
                assert(data[j + 1].id_spec() == data[ii].id_spec());
            }
            assert(false);
        }
    }
    assert forall|x: u128| x != id implies s_get(post, x) == s_get(data, x) by {
        if contains_id(data, x) {
            let i = id_index(data, x);
            assert(0 <= i < data.len() && data[i].id_spec() == x);
            assert(i != ii);
            let p = if i < ii {
                i
            } else {
                i - 1
            };
            assert(post[p] == data[i]);
            lemma_id_index_unique(data, i);
            assert(distinct_ids(post)) by {
                assert forall|a: int, b: int| 0 <= a < b < post.len() implies (
                #[trigger] post[a]).id_spec() != (#[trigger] post[b]).id_spec() by {}
            }
            lemma_id_index_unique(post, p);
        } else {
            if contains_id(post, x) {
                let j = id_index(post, x);
                assert(0 <= j < post.len() && post[j].id_spec() == x);
                if j < ii {
                    assert(data[j].id_spec() == x);
                } else {
                    assert(data[j + 1].id_spec() == x);
                }
                assert(contains_id(data, x));
            }
        }
    }
    lemma_matching_seq(post, ord, k);
    assert forall|x: M| #[trigger] post.contains(x) <==> (data.contains(x) && x.id_spec()
        != id) by {
        if post.contains(x) {
            let j = choose|j: int| 0 <= j < post.len() && post[j] == x;
            if j < ii {
                assert(data[j] == x);
                assert(data.contains(x));
                assert(data[j].id_spec() != data[ii].id_spec());
            } else {
                assert(data[j + 1] == x);
                assert(data.contains(x));
                assert(data[j + 1].id_spec() != data[ii].id_spec());
            }
        }
        if data.contains(x) && x.id_spec() != id {
            let j = choose|j: int| 0 <= j < data.len() && data[j] == x;
            assert(j != ii);
            let p = if j < ii {
                j
            } else {
                j - 1
            };
            assert(post[p] == x);
            assert(post.contains(x));
        }
    }
}

/// One page after another: the concatenation of the first `n` pages of size
/// `k` is exactly the first `n * k` records, so successive `list(k, j * k)`
/// calls on an unchanged store cover every record exactly once.
pub open spec fn pages_concat<M>(data: Seq<M>, k: u32, n: int) -> Seq<M>
    decreases n,
{
    if n <= 0 {
        Seq::empty()
    } else {
        pages_concat(data, k, n - 1) + list_window(data, k, (((n - 1) * (k as int))) as u32)
    }
}

/// The concatenation of the first `n` pages of size `k` is the prefix of
/// `n * k` records (everything, once `n * k` reaches the record count).
pub proof fn lemma_paging_covers<M>(data: Seq<M>, k: u32, n: int)
    requires
        k > 0,
        n >= 0,
        data.len() <= u32::MAX,
        n * (k as int) <= u32::MAX,
    ensures
        pages_concat(data, k, n) == data.take(
            if n * (k as int) <= data.len() {
                n * (k as int)
            } else {
                data.len() as int
            },
        ),
        n * (k as int) >= data.len() ==> pages_concat(data, k, n) == data,
    decreases n,
{
    if n == 0 {
        assert(n * (k as int) == 0) by (nonlinear_arith)
            requires
                n == 0,
        ;
        assert(pages_concat(data, k, 0) =~= data.take(0));
    } else {
        assert((n - 1) * (k as int) == n * (k as int) - (k as int)) by (nonlinear_arith);
        assert(0 <= (n - 1) * (k as int)) by (nonlinear_arith)
            requires
                n >= 1 && k > 0,
        ;
        lemma_paging_covers(data, k, n - 1);
        let off = (n - 1) * (k as int);
        assert(off <= u32::MAX);
        let offu = off as u32;
        assert(offu as int == off);
        let prev = if off <= data.len() {
            off
        } else {
            data.len() as int
        };
        let cur = if n * (k as int) <= data.len() {
            n * (k as int)
        } else {
            data.len() as int
        };
        let w = list_window(data, k, offu);
        assert(w == data.subrange(prev, cur)) by {
            assert(off + k == n * (k as int));
        }
        assert(pages_concat(data, k, n) == data.take(prev) + data.subrange(prev, cur));
        assert(data.take(prev) + data.subrange(prev, cur) =~= data.take(cur));
        if n * (k as int) >= data.len() {
            assert(data.take(data.len() as int) =~= data);
        }
    }
}

/// Counting by an index agrees with the length of the matching-records
/// lookup: `count_by_index` promises the length of the matching sequence and
/// `find_by_index` promises a result of that same length, so the two agree
/// on every store, selector and key.
pub proof fn lemma_count_matches_find<M: Model>(
    data: Seq<M>,
    ord: int,
    k: Seq<Seq<char>>,
    c: u64,
    found: Seq<M>,
)
    requires
        c == matching_seq(data, ord, k).len(),
        found.len() == matching_seq(data, ord, k).len(),
    ensures
        c == found.len(),
{
}

} // verus!
