//! Row sequences of an ordered map.
//!
//! Both halves of a snapshot graph are stored as a vector of key/value rows
//! kept strictly ascending in the key order.  The spec functions here give
//! such a row sequence its meaning as a finite [`Map`], and the lemmas relate
//! row-level edits (lookup, insertion, in-place resolution) to map
//! operations.  They are generic in the key and value types; the key order is
//! passed in as a spec closure.

use vstd::prelude::*;

verus! {

/// The rows are strictly ascending under `lt`.
pub open spec fn rows_sorted<K, V>(rows: Seq<(K, V)>, lt: spec_fn(K, K) -> bool) -> bool {
    forall|i: int, j: int| 0 <= i < j < rows.len() ==> lt(#[trigger] rows[i].0, #[trigger] rows[j].0)
}

/// The keys of the rows are pairwise distinct.
pub open spec fn rows_distinct<K, V>(rows: Seq<(K, V)>) -> bool {
    forall|i: int, j: int| 0 <= i < j < rows.len() ==> (#[trigger] rows[i].0) != (#[trigger] rows[j].0)
}

/// A strict order relates no key to itself, so sorted rows have distinct keys.
pub proof fn lemma_sorted_distinct<K, V>(rows: Seq<(K, V)>, lt: spec_fn(K, K) -> bool)
    requires
        rows_sorted(rows, lt),
        forall|k: K| !(#[trigger] lt(k, k)),
    ensures
        rows_distinct(rows),
{
    assert forall|i: int, j: int| 0 <= i < j < rows.len() implies (#[trigger] rows[i].0) != (
    #[trigger] rows[j].0) by {
        assert(lt(rows[i].0, rows[j].0));
    }
}

/// The finite map that a row sequence stands for (later rows win, which is
/// irrelevant once keys are distinct).
pub open spec fn rows_map<K, V>(rows: Seq<(K, V)>) -> Map<K, V>
    decreases rows.len(),
{
    if rows.len() == 0 {
        Map::empty()
    } else {
        rows_map(rows.drop_last()).insert(rows.last().0, rows.last().1)
    }
}

/// A key is in the map exactly when some row carries it.
pub proof fn lemma_rows_map_contains<K, V>(rows: Seq<(K, V)>, k: K)
    ensures
        rows_map(rows).contains_key(k) <==> exists|i: int|
            0 <= i < rows.len() && (#[trigger] rows[i].0) == k,
    decreases rows.len(),
{
    if rows.len() > 0 {
        lemma_rows_map_contains(rows.drop_last(), k);
        if rows.last().0 == k {
            assert(rows[rows.len() - 1].0 == k);
        } else if rows_map(rows).contains_key(k) {
            let i = choose|i: int| 0 <= i < rows.drop_last().len() && (#[trigger] rows.drop_last()[i].0)
                == k;
            assert(rows[i].0 == k);
        } else {
            assert forall|i: int| 0 <= i < rows.len() implies (#[trigger] rows[i].0) != k by {
                if i < rows.len() - 1 {
                    assert(rows.drop_last()[i].0 == rows[i].0);
                }
            }
        }
    }
}

/// With distinct keys, the row holding a key gives the map's value at it.
pub proof fn lemma_rows_map_index<K, V>(rows: Seq<(K, V)>, i: int)
    requires
        rows_distinct(rows),
        0 <= i < rows.len(),
    ensures
        rows_map(rows).contains_key(rows[i].0),
        rows_map(rows)[rows[i].0] == rows[i].1,
    decreases rows.len(),
{
    if i == rows.len() - 1 {
    } else {
        assert(rows[i].0 != rows.last().0);
        assert(rows.drop_last()[i] == rows[i]);
        lemma_rows_map_index(rows.drop_last(), i);
    }
}

/// Inserting a row with a fresh key inserts into the map.
pub proof fn lemma_rows_map_insert<K, V>(rows: Seq<(K, V)>, pos: int, k: K, v: V)
    requires
        0 <= pos <= rows.len(),
        forall|i: int| 0 <= i < rows.len() ==> (#[trigger] rows[i].0) != k,
    ensures
        rows_map(rows.insert(pos, (k, v))) =~= rows_map(rows).insert(k, v),
    decreases rows.len(),
{
    let grown = rows.insert(pos, (k, v));
    if pos == rows.len() {
        assert(grown.last() == (k, v));
        assert(grown.drop_last() =~= rows);
    } else {
        assert(grown.last() == rows.last());
        assert(grown.drop_last() =~= rows.drop_last().insert(pos, (k, v)));
        assert(forall|i: int|
            0 <= i < rows.drop_last().len() ==> (#[trigger] rows.drop_last()[i].0) == rows[i].0);
        lemma_rows_map_insert(rows.drop_last(), pos, k, v);
        assert(rows.last().0 != k);
    }
}

/// Replacing the value of the row at `i` updates the map at that key.
pub proof fn lemma_rows_map_update<K, V>(rows: Seq<(K, V)>, i: int, v: V)
    requires
        rows_distinct(rows),
        0 <= i < rows.len(),
    ensures
        rows_map(rows.update(i, (rows[i].0, v))) =~= rows_map(rows).insert(rows[i].0, v),
    decreases rows.len(),
{
    let grown = rows.update(i, (rows[i].0, v));
    if i == rows.len() - 1 {
        assert(grown.drop_last() =~= rows.drop_last());
    } else {
        assert(grown.last() == rows.last());
        assert(grown.drop_last() =~= rows.drop_last().update(i, (rows[i].0, v)));
        assert(rows.drop_last()[i] == rows[i]);
        lemma_rows_map_update(rows.drop_last(), i, v);
        assert(rows.last().0 != rows[i].0);
    }
}

/// Two sorted row sequences with the same map are the same sequence: the
/// sorted form is canonical, whatever order the entries were inserted in.
pub proof fn lemma_sorted_rows_canonical<K, V>(
    r1: Seq<(K, V)>,
    r2: Seq<(K, V)>,
    lt: spec_fn(K, K) -> bool,
)
    requires
        rows_sorted(r1, lt),
        rows_sorted(r2, lt),
        forall|k: K| !(#[trigger] lt(k, k)),
        forall|a: K, b: K| #[trigger] lt(a, b) ==> !lt(b, a),
        rows_map(r1) == rows_map(r2),
    ensures
        r1 =~= r2,
    decreases r1.len(),
{
    lemma_sorted_distinct(r1, lt);
    lemma_sorted_distinct(r2, lt);
    if r1.len() == 0 {
        if r2.len() > 0 {
            lemma_rows_map_index(r2, r2.len() - 1);
            lemma_rows_map_contains(r1, r2.last().0);
        }
    } else if r2.len() == 0 {
        lemma_rows_map_index(r1, r1.len() - 1);
        lemma_rows_map_contains(r2, r1.last().0);
    } else {
        let k1 = r1.last().0;
        let k2 = r2.last().0;
        lemma_rows_map_index(r1, r1.len() - 1);
        lemma_rows_map_index(r2, r2.len() - 1);
        lemma_rows_map_contains(r2, k1);
        lemma_rows_map_contains(r1, k2);
        let i2 = choose|i: int| 0 <= i < r2.len() && (#[trigger] r2[i].0) == k1;
        let i1 = choose|i: int| 0 <= i < r1.len() && (#[trigger] r1[i].0) == k2;
        if k1 != k2 {
            assert(i2 < r2.len() - 1);
            assert(i1 < r1.len() - 1);
            assert(lt(k1, k2));
            assert(lt(k2, k1));
        }
        assert(r1.last().1 == rows_map(r1)[k1]);
        assert(r2.last().1 == rows_map(r2)[k1]);
        assert(r1.last() == r2.last());
        lemma_rows_map_drop_last(r1);
        lemma_rows_map_drop_last(r2);
        assert(rows_map(r1.drop_last()) =~= rows_map(r2.drop_last()));
        lemma_sorted_rows_canonical(r1.drop_last(), r2.drop_last(), lt);
        assert forall|i: int| 0 <= i < r1.len() implies r1[i] == r2[i] by {
            if i < r1.len() - 1 {
                assert(r1.drop_last()[i] == r2.drop_last()[i]);
            }
        }
    }
}

/// With distinct keys, dropping the last row removes its key from the map.
pub proof fn lemma_rows_map_drop_last<K, V>(rows: Seq<(K, V)>)
    requires
        rows_distinct(rows),
        rows.len() > 0,
    ensures
        rows_map(rows.drop_last()) =~= rows_map(rows).remove(rows.last().0),
{
    lemma_rows_map_contains(rows.drop_last(), rows.last().0);
    assert forall|i: int| 0 <= i < rows.drop_last().len() implies (#[trigger] rows.drop_last()[i].0)
        != rows.last().0 by {
        assert(rows.drop_last()[i].0 == rows[i].0);
    }
    assert(!rows_map(rows.drop_last()).contains_key(rows.last().0));
}

} // verus!
