//! Vocabulary for stating what a query selects and what an update rewrites,
//! over the rows of a table in row order.
use vstd::prelude::*;

verus! {

/// The first row, if there is one.
pub open spec fn first_of<T>(rows: Seq<T>) -> Option<T> {
    if rows.len() > 0 {
        Some(rows[0])
    } else {
        None
    }
}

/// The rows after an update that rewrites with `set` every row that `pred`
/// selects and leaves the others as they are.
pub open spec fn update_where<T>(rows: Seq<T>, pred: spec_fn(T) -> bool, set: spec_fn(T) -> T) -> Seq<
    T,
> {
    rows.map_values(
        |r: T|
            if pred(r) {
                set(r)
            } else {
                r
            },
    )
}

/// Whether some row satisfies `pred`.
pub open spec fn any_row<T>(rows: Seq<T>, pred: spec_fn(T) -> bool) -> bool {
    exists|i: int| 0 <= i < rows.len() && pred(#[trigger] rows[i])
}

/// Filtering the first `i + 1` rows keeps what filtering the first `i` rows
/// kept, and row `i` if it is selected.
pub proof fn lemma_filter_step<T>(rows: Seq<T>, pred: spec_fn(T) -> bool, i: int)
    requires
        0 <= i < rows.len(),
    ensures
        rows.take(i + 1).filter(pred) == if pred(rows[i]) {
            rows.take(i).filter(pred).push(rows[i])
        } else {
            rows.take(i).filter(pred)
        },
{
    assert(rows.take(i + 1) == rows.take(i).push(rows[i]));
    rows.take(i).lemma_filter_push(rows[i], pred);
}

/// A filter that selects nothing among the rows yields no row, and one that
/// yields no row selects nothing.
pub proof fn lemma_filter_empty_iff<T>(rows: Seq<T>, pred: spec_fn(T) -> bool)
    ensures
        (rows.filter(pred).len() == 0) <==> !any_row(rows, pred),
    decreases rows.len(),
{
    reveal(Seq::filter);
    if rows.len() > 0 {
        lemma_filter_empty_iff(rows.drop_last(), pred);
        if any_row(rows, pred) {
            let i = choose|i: int| 0 <= i < rows.len() && pred(#[trigger] rows[i]);
            if i < rows.len() - 1 {
                assert(rows.drop_last()[i] == rows[i]);
            }
        }
    }
}

/// Two predicates that agree on every row select the same rows.
pub proof fn lemma_filter_agree<T>(rows: Seq<T>, p: spec_fn(T) -> bool, q: spec_fn(T) -> bool)
    requires
        forall|i: int| 0 <= i < rows.len() ==> p(#[trigger] rows[i]) == q(rows[i]),
    ensures
        rows.filter(p) == rows.filter(q),
    decreases rows.len(),
{
    reveal(Seq::filter);
    if rows.len() > 0 {
        lemma_filter_agree(rows.drop_last(), p, q);
    }
}

/// A filter that selects every row keeps the table as it is.
pub proof fn lemma_filter_all<T>(rows: Seq<T>, pred: spec_fn(T) -> bool)
    requires
        forall|i: int| 0 <= i < rows.len() ==> pred(#[trigger] rows[i]),
    ensures
        rows.filter(pred) == rows,
    decreases rows.len(),
{
    reveal(Seq::filter);
    if rows.len() > 0 {
        lemma_filter_all(rows.drop_last(), pred);
    }
}

/// A filter that rejects row `i` and no other removes exactly that row.
pub proof fn lemma_filter_remove<T>(rows: Seq<T>, pred: spec_fn(T) -> bool, i: int)
    requires
        0 <= i < rows.len(),
        !pred(rows[i]),
        forall|j: int| 0 <= j < rows.len() && j != i ==> pred(#[trigger] rows[j]),
    ensures
        rows.filter(pred) == rows.remove(i),
    decreases rows.len(),
{
    reveal(Seq::filter);
    let init = rows.drop_last();
    if i == rows.len() - 1 {
        lemma_filter_all(init, pred);
    } else {
        lemma_filter_remove(init, pred, i);
    }
}

/// With a single selected row `i`, the filter keeps that row alone.
pub proof fn lemma_filter_single<T>(rows: Seq<T>, pred: spec_fn(T) -> bool, i: int)
    requires
        0 <= i < rows.len(),
        pred(rows[i]),
        forall|j: int| 0 <= j < rows.len() && j != i ==> !pred(#[trigger] rows[j]),
    ensures
        rows.filter(pred) == seq![rows[i]],
    decreases rows.len(),
{
    reveal(Seq::filter);
    let init = rows.drop_last();
    if i == rows.len() - 1 {
        lemma_filter_empty_iff(init, pred);
    } else {
        lemma_filter_single(init, pred, i);
    }
}

/// The rows ordered by `key`, with `x` put behind every row whose key is
/// not above its own.
pub open spec fn insert_ordered<T>(sorted: Seq<T>, x: T, key: spec_fn(T) -> int) -> Seq<T>
    decreases sorted.len(),
{
    if sorted.len() == 0 {
        seq![x]
    } else if key(sorted.last()) <= key(x) {
        sorted.push(x)
    } else {
        insert_ordered(sorted.drop_last(), x, key).push(sorted.last())
    }
}

/// The rows in ascending order of `key`; rows with the same key keep the
/// order that they have in the table.
pub open spec fn order_by<T>(rows: Seq<T>, key: spec_fn(T) -> int) -> Seq<T>
    decreases rows.len(),
{
    if rows.len() == 0 {
        rows
    } else {
        insert_ordered(order_by(rows.drop_last(), key), rows.last(), key)
    }
}

/// Whether the keys ascend along the rows.
pub open spec fn ascending<T>(rows: Seq<T>, key: spec_fn(T) -> int) -> bool {
    forall|i: int, j: int|
        0 <= i <= j < rows.len() ==> key(#[trigger] rows[i]) <= key(#[trigger] rows[j])
}

/// The rows of one page: at most `limit` rows, starting after the first
/// `offset`. An offset below zero and a limit that is not above zero give no
/// rows.
pub open spec fn page_of<T>(rows: Seq<T>, offset: int, limit: int) -> Seq<T> {
    if offset < 0 || limit <= 0 || offset >= rows.len() {
        Seq::empty()
    } else if offset + limit >= rows.len() {
        rows.subrange(offset, rows.len() as int)
    } else {
        rows.subrange(offset, offset + limit)
    }
}

/// Where `insert_ordered` puts a row: behind the last row whose key is not
/// above its own.
pub proof fn lemma_insert_ordered_at<T>(sorted: Seq<T>, x: T, key: spec_fn(T) -> int, j: int)
    requires
        0 <= j <= sorted.len(),
        forall|k: int| j <= k < sorted.len() ==> key(#[trigger] sorted[k]) > key(x),
        j > 0 ==> key(sorted[j - 1]) <= key(x),
    ensures
        insert_ordered(sorted, x, key) == sorted.insert(j, x),
    decreases sorted.len(),
{
    if sorted.len() == 0 {
    } else if j != sorted.len() {
        let init = sorted.drop_last();
        lemma_insert_ordered_at(init, x, key, j);
    }
}

/// Putting a row into ascending rows keeps them ascending, and adds the row
/// and nothing else.
pub proof fn lemma_insert_ordered<T>(sorted: Seq<T>, x: T, key: spec_fn(T) -> int)
    requires
        ascending(sorted, key),
    ensures
        ascending(insert_ordered(sorted, x, key), key),
        insert_ordered(sorted, x, key).to_multiset() == sorted.to_multiset().insert(x),
        insert_ordered(sorted, x, key).len() == sorted.len() + 1,
    decreases sorted.len(),
{
    if sorted.len() == 0 {
        assert(sorted =~= Seq::empty());
        vstd::seq_lib::to_multiset_build(sorted, x);
    } else if key(sorted.last()) <= key(x) {
        let r = sorted.push(x);
        vstd::seq_lib::to_multiset_build(sorted, x);
    } else {
        let init = sorted.drop_last();
        lemma_insert_ordered(init, x, key);
        let m = insert_ordered(init, x, key);
        let r = m.push(sorted.last());
        assert(init.push(sorted.last()) =~= sorted);
        assert forall|i: int, j: int| 0 <= i <= j < r.len() implies key(#[trigger] r[i]) <= key(
            #[trigger] r[j],
        ) by {
            if j == m.len() {
                if i < m.len() {
                    assert(m.to_multiset().count(m[i]) > 0) by {
                        m.to_multiset_ensures();
                    }
                    if m[i] != x {
                        init.to_multiset_ensures();
                    }
                }
            }
        }
        vstd::seq_lib::to_multiset_build(m, sorted.last());
        vstd::seq_lib::to_multiset_build(init, sorted.last());
    }
}

/// `order_by` yields the same rows, each as often as the table holds it, in
/// ascending order of the key.
pub proof fn lemma_order_by<T>(rows: Seq<T>, key: spec_fn(T) -> int)
    ensures
        ascending(order_by(rows, key), key),
        order_by(rows, key).to_multiset() == rows.to_multiset(),
        order_by(rows, key).len() == rows.len(),
    decreases rows.len(),
{
    if rows.len() > 0 {
        lemma_order_by(rows.drop_last(), key);
        lemma_insert_ordered(order_by(rows.drop_last(), key), rows.last(), key);
        assert(rows.drop_last().push(rows.last()) =~= rows);
        vstd::seq_lib::to_multiset_build(rows.drop_last(), rows.last());
    }
}

/// Where an update leaves every selected row selected, selecting after the
/// update yields the rows selected before, rewritten.
pub proof fn lemma_filter_updated<T>(rows: Seq<T>, pred: spec_fn(T) -> bool, set: spec_fn(T) -> T)
    requires
        forall|x: T| #[trigger] pred(x) ==> pred(set(x)),
    ensures
        update_where(rows, pred, set).filter(pred) == rows.filter(pred).map_values(set),
    decreases rows.len(),
{
    reveal(Seq::filter);
    if rows.len() > 0 {
        let init = rows.drop_last();
        lemma_filter_updated(init, pred, set);
        let u = update_where(rows, pred, set);
        assert(u.drop_last() =~= update_where(init, pred, set));
    }
}

/// Filtering by a predicate and then by one that implies it is filtering by
/// the second alone.
pub proof fn lemma_filter_twice<T>(rows: Seq<T>, p: spec_fn(T) -> bool, q: spec_fn(T) -> bool)
    requires
        forall|x: T| #[trigger] q(x) ==> p(x),
    ensures
        rows.filter(p).filter(q) == rows.filter(q),
    decreases rows.len(),
{
    reveal(Seq::filter);
    if rows.len() > 0 {
        let init = rows.drop_last();
        lemma_filter_twice(init, p, q);
        if p(rows.last()) {
            init.filter(p).lemma_filter_push(rows.last(), q);
        }
    }
}

/// A filter keeps rows apart that a key keeps apart.
pub proof fn lemma_filter_keeps_distinct<T, K>(
    rows: Seq<T>,
    pred: spec_fn(T) -> bool,
    key: spec_fn(T) -> K,
)
    requires
        forall|i: int, j: int|
            0 <= i < j < rows.len() ==> key(#[trigger] rows[i]) != key(#[trigger] rows[j]),
    ensures
        forall|i: int, j: int|
            0 <= i < j < rows.filter(pred).len() ==> key(#[trigger] rows.filter(pred)[i]) != key(
                #[trigger] rows.filter(pred)[j],
            ),
    decreases rows.len(),
{
    reveal(Seq::filter);
    if rows.len() > 0 {
        let init = rows.drop_last();
        lemma_filter_keeps_distinct(init, pred, key);
        let f = init.filter(pred);
        if pred(rows.last()) {
            let g = rows.filter(pred);
            assert forall|i: int, j: int| 0 <= i < j < g.len() implies key(#[trigger] g[i]) != key(
                #[trigger] g[j],
            ) by {
                if j == f.len() {
                    init.lemma_filter_contains_rev(pred, f[i]);
                }
            }
        }
    }
}

/// The first row that a filter keeps among the first `k` rows is the first
/// that it keeps among all of them.
pub proof fn lemma_first_kept<T>(rows: Seq<T>, pred: spec_fn(T) -> bool, k: int)
    requires
        0 <= k <= rows.len(),
        rows.take(k).filter(pred).len() > 0,
    ensures
        rows.filter(pred).len() > 0,
        rows.filter(pred)[0] == rows.take(k).filter(pred)[0],
    decreases rows.len() - k,
{
    if k < rows.len() {
        lemma_filter_step(rows, pred, k);
        lemma_first_kept(rows, pred, k + 1);
    } else {
        assert(rows.take(k) == rows);
    }
}

/// Rows that ascend already are in order.
pub proof fn lemma_order_by_ascending<T>(rows: Seq<T>, key: spec_fn(T) -> int)
    requires
        ascending(rows, key),
    ensures
        order_by(rows, key) == rows,
    decreases rows.len(),
{
    if rows.len() > 0 {
        let init = rows.drop_last();
        assert(ascending(init, key)) by {
            assert forall|i: int, j: int| 0 <= i <= j < init.len() implies key(#[trigger] init[i])
                <= key(#[trigger] init[j]) by {
                assert(init[i] == rows[i] && init[j] == rows[j]);
            }
        }
        lemma_order_by_ascending(init, key);
        if init.len() > 0 {
            assert(init.last() == rows[rows.len() - 2]);
            assert(rows.last() == rows[rows.len() - 1]);
        }
        assert(init.push(rows.last()) =~= rows);
    }
}

/// Putting a row into rows that a name keeps apart keeps them apart, where no
/// row has the name of the new one; and it adds the row and no other.
pub proof fn lemma_insert_ordered_keeps_distinct<T, K>(
    sorted: Seq<T>,
    x: T,
    key: spec_fn(T) -> int,
    name: spec_fn(T) -> K,
)
    requires
        forall|i: int, j: int|
            0 <= i < j < sorted.len() ==> name(#[trigger] sorted[i]) != name(#[trigger] sorted[j]),
        forall|i: int| 0 <= i < sorted.len() ==> name(#[trigger] sorted[i]) != name(x),
    ensures
        insert_ordered(sorted, x, key).len() == sorted.len() + 1,
        forall|i: int|
            0 <= i < insert_ordered(sorted, x, key).len() ==> (#[trigger] insert_ordered(
                sorted,
                x,
                key,
            )[i]) == x || sorted.contains(insert_ordered(sorted, x, key)[i]),
        forall|i: int, j: int|
            0 <= i < j < insert_ordered(sorted, x, key).len() ==> name(
                #[trigger] insert_ordered(sorted, x, key)[i],
            ) != name(#[trigger] insert_ordered(sorted, x, key)[j]),
    decreases sorted.len(),
{
    let r = insert_ordered(sorted, x, key);
    if sorted.len() == 0 {
    } else if key(sorted.last()) <= key(x) {
        assert forall|i: int| 0 <= i < r.len() implies (#[trigger] r[i]) == x || sorted.contains(
            r[i],
        ) by {
            if i < sorted.len() {
                assert(sorted[i] == r[i]);
            }
        }
    } else {
        let init = sorted.drop_last();
        let last = sorted.last();
        assert(last == sorted[sorted.len() - 1]);
        assert forall|i: int, j: int| 0 <= i < j < init.len() implies name(#[trigger] init[i])
            != name(#[trigger] init[j]) by {
            assert(init[i] == sorted[i] && init[j] == sorted[j]);
        }
        assert forall|i: int| 0 <= i < init.len() implies name(#[trigger] init[i]) != name(x) by {
            assert(init[i] == sorted[i]);
        }
        lemma_insert_ordered_keeps_distinct(init, x, key, name);
        let m = insert_ordered(init, x, key);
        assert(r == m.push(last));
        assert forall|i: int| 0 <= i < r.len() implies (#[trigger] r[i]) == x || sorted.contains(
            r[i],
        ) by {
            if i < m.len() {
                assert(r[i] == m[i]);
                if m[i] != x {
                    let k = choose|k: int| 0 <= k < init.len() && init[k] == m[i];
                    assert(sorted[k] == m[i]);
                }
            }
        }
        assert forall|i: int, j: int| 0 <= i < j < r.len() implies name(#[trigger] r[i]) != name(
            #[trigger] r[j],
        ) by {
            if j < m.len() {
                assert(r[i] == m[i] && r[j] == m[j]);
            } else {
                assert(r[i] == m[i]);
                if m[i] != x {
                    let k = choose|k: int| 0 <= k < init.len() && init[k] == m[i];
                    assert(name(sorted[k]) != name(sorted[sorted.len() - 1]));
                }
            }
        }
    }
}

/// Ordering rows that a name keeps apart keeps them apart, and yields rows
/// of the table only.
pub proof fn lemma_order_by_keeps_distinct<T, K>(
    rows: Seq<T>,
    key: spec_fn(T) -> int,
    name: spec_fn(T) -> K,
)
    requires
        forall|i: int, j: int|
            0 <= i < j < rows.len() ==> name(#[trigger] rows[i]) != name(#[trigger] rows[j]),
    ensures
        order_by(rows, key).len() == rows.len(),
        forall|i: int|
            0 <= i < rows.len() ==> rows.contains(#[trigger] order_by(rows, key)[i]),
        forall|i: int, j: int|
            0 <= i < j < rows.len() ==> name(#[trigger] order_by(rows, key)[i]) != name(
                #[trigger] order_by(rows, key)[j],
            ),
    decreases rows.len(),
{
    if rows.len() > 0 {
        let init = rows.drop_last();
        let last = rows.last();
        assert(last == rows[rows.len() - 1]);
        assert forall|i: int, j: int| 0 <= i < j < init.len() implies name(#[trigger] init[i])
            != name(#[trigger] init[j]) by {
            assert(init[i] == rows[i] && init[j] == rows[j]);
        }
        lemma_order_by_keeps_distinct(init, key, name);
        let o = order_by(init, key);
        assert forall|i: int| 0 <= i < o.len() implies name(#[trigger] o[i]) != name(last) by {
            let k = choose|k: int| 0 <= k < init.len() && init[k] == o[i];
            assert(name(rows[k]) != name(rows[rows.len() - 1]));
        }
        lemma_insert_ordered_keeps_distinct(o, last, key, name);
        let r = order_by(rows, key);
        assert forall|i: int| 0 <= i < rows.len() implies rows.contains(#[trigger] r[i]) by {
            if r[i] != last {
                assert(o.contains(r[i]));
                let a = choose|a: int| 0 <= a < o.len() && o[a] == r[i];
                let k = choose|k: int| 0 <= k < init.len() && init[k] == o[a];
                assert(rows[k] == r[i]);
            }
        }
    }
}

} // verus!
