//! The order of the entries in a file: by id, and entries of the same id as they were added.

use vstd::prelude::*;

verus! {

/// An entry as it is handed to the builder.
pub struct Row {
    pub id: u32,
    pub parent_id: u32,
    pub path: Seq<char>,
}

/// The row that the builder keeps as a triple.
pub open spec fn row(e: (u32, u32, String)) -> Row {
    Row { id: e.0, parent_id: e.1, path: e.2@ }
}

/// The rows that the builder keeps as triples.
pub open spec fn rows(entries: Seq<(u32, u32, String)>) -> Seq<Row> {
    Seq::new(entries.len(), |i: int| row(entries[i]))
}

/// `s` with `e` put behind every row whose id is not greater.
pub open spec fn insert_by_id(s: Seq<Row>, e: Row) -> Seq<Row>
    decreases s.len(),
{
    if s.len() == 0 || s.last().id <= e.id {
        s.push(e)
    } else {
        insert_by_id(s.drop_last(), e).push(s.last())
    }
}

/// `s` ordered by id; rows of one id keep their order.
pub open spec fn by_id(s: Seq<Row>) -> Seq<Row>
    decreases s.len(),
{
    if s.len() == 0 {
        s
    } else {
        insert_by_id(by_id(s.drop_last()), s.last())
    }
}

/// The ids of `s` do not decrease.
pub open spec fn id_sorted(s: Seq<Row>) -> bool {
    forall|i: int, j: int| 0 <= i <= j < s.len() ==> s[i].id <= s[j].id
}

/// No two rows of `s` have the same id.
pub open spec fn distinct_ids(s: Seq<Row>) -> bool {
    forall|i: int, j: int| 0 <= i < j < s.len() ==> s[i].id != s[j].id
}

/// The rows of `s` whose id is `id`, in their order.
pub open spec fn with_id(s: Seq<Row>, id: u32) -> Seq<Row>
    decreases s.len(),
{
    if s.len() == 0 {
        s
    } else if s.last().id == id {
        with_id(s.drop_last(), id).push(s.last())
    } else {
        with_id(s.drop_last(), id)
    }
}

proof fn lemma_insert(s: Seq<Row>, e: Row)
    requires
        id_sorted(s),
    ensures
        id_sorted(insert_by_id(s, e)),
        insert_by_id(s, e).len() == s.len() + 1,
        insert_by_id(s, e).to_multiset() == s.to_multiset().insert(e),
        forall|id: u32| #[trigger]
            with_id(insert_by_id(s, e), id) == with_id(s.push(e), id),
        insert_by_id(s, e).last().id >= e.id,
        s.len() > 0 ==> insert_by_id(s, e).last().id == s.last().id || insert_by_id(
            s,
            e,
        ).last().id == e.id,
    decreases s.len(),
{
    broadcast use vstd::seq_lib::group_to_multiset_ensures;

    if s.len() == 0 || s.last().id <= e.id {
    } else {
        let init = s.drop_last();
        let last = s.last();
        lemma_insert(init, e);
        assert(init.push(last) =~= s);
        let t = insert_by_id(init, e);
        let r = insert_by_id(s, e);
        assert(t.last().id <= last.id);
        assert(r.drop_last() =~= t);
        assert(s.push(e).drop_last() =~= s);
        assert(init.push(e).drop_last() =~= init);
        assert(r.to_multiset() =~= s.to_multiset().insert(e));
        assert forall|id: u32| #[trigger] with_id(r, id) == with_id(s.push(e), id) by {
            assert(with_id(t, id) == with_id(init.push(e), id));
            assert(with_id(s, id) == if last.id == id {
                with_id(init, id).push(last)
            } else {
                with_id(init, id)
            });
            assert(with_id(init.push(e), id) == if e.id == id {
                with_id(init, id).push(e)
            } else {
                with_id(init, id)
            });
        }
        assert forall|i: int, j: int| 0 <= i <= j < r.len() implies r[i].id <= r[j].id by {
            if j == r.len() - 1 && i < j {
                assert(t[i].id <= t[t.len() - 1].id);
            }
        }
    }
}

/// The order of a file: ids do not decrease, no row is lost or made up, and the rows of each id
/// stand as they were added.
pub proof fn by_id_is_stable_sort(s: Seq<Row>)
    ensures
        id_sorted(by_id(s)),
        by_id(s).len() == s.len(),
        by_id(s).to_multiset() == s.to_multiset(),
        forall|id: u32| #[trigger] with_id(by_id(s), id) == with_id(s, id),
    decreases s.len(),
{
    broadcast use vstd::seq_lib::group_to_multiset_ensures;

    if s.len() > 0 {
        let init = s.drop_last();
        let t = by_id(init);
        by_id_is_stable_sort(init);
        lemma_insert(t, s.last());
        assert(init.push(s.last()) =~= s);
        assert forall|id: u32| #[trigger] with_id(by_id(s), id) == with_id(s, id) by {
            assert(with_id(t, id) == with_id(init, id));
            assert(t.push(s.last()).drop_last() =~= t);
            assert(with_id(insert_by_id(t, s.last()), id) == with_id(t.push(s.last()), id));
        }
    }
}

proof fn lemma_with_id_nonempty(s: Seq<Row>, id: u32)
    requires
        with_id(s, id).len() > 0,
    ensures
        exists|i: int| 0 <= i < s.len() && #[trigger] s[i].id == id,
    decreases s.len(),
{
    if s.len() > 0 {
        if s.last().id == id {
            assert(s[s.len() - 1].id == id);
        } else {
            lemma_with_id_nonempty(s.drop_last(), id);
            let i = choose|i: int| 0 <= i < s.drop_last().len() && #[trigger] s.drop_last()[i].id == id;
            assert(s[i].id == id);
        }
    }
}

/// The order of a file is the only one: a sequence whose ids do not decrease and whose rows of
/// each id are those of `s`, in their order, is `by_id(s)`.
pub proof fn by_id_is_unique(s: Seq<Row>, t: Seq<Row>)
    requires
        id_sorted(t),
        forall|id: u32| #[trigger] with_id(t, id) == with_id(s, id),
    ensures
        t == by_id(s),
{
    by_id_is_stable_sort(s);
    lemma_same_order(t, by_id(s));
}

proof fn lemma_same_order(a: Seq<Row>, b: Seq<Row>)
    requires
        id_sorted(a),
        id_sorted(b),
        forall|id: u32| #[trigger] with_id(a, id) == with_id(b, id),
    ensures
        a == b,
    decreases a.len(),
{
    if a.len() == 0 {
        if b.len() > 0 {
            assert(with_id(b, b.last().id) == with_id(a, b.last().id));
        }
        assert(a =~= b);
    } else {
        let k = a.last().id;
        assert(with_id(a, k) == with_id(b, k));
        lemma_with_id_nonempty(b, k);
        let l = b.last().id;
        assert(with_id(a, l) == with_id(b, l));
        lemma_with_id_nonempty(a, l);
        assert(k == l);
        assert(with_id(a, k).last() == a.last());
        assert(with_id(b, k).last() == b.last());
        assert forall|id: u32| #[trigger]
            with_id(a.drop_last(), id) == with_id(b.drop_last(), id) by {
            assert(with_id(a, id) == with_id(b, id));
            if id == k {
                assert(with_id(a, id).drop_last() =~= with_id(a.drop_last(), id));
                assert(with_id(b, id).drop_last() =~= with_id(b.drop_last(), id));
            }
        }
        lemma_same_order(a.drop_last(), b.drop_last());
        assert(a =~= a.drop_last().push(a.last()));
        assert(b =~= b.drop_last().push(b.last()));
    }
}

/// Rows that already stand in order stay where they are.
pub proof fn by_id_keeps_order(s: Seq<Row>)
    requires
        id_sorted(s),
    ensures
        by_id(s) == s,
    decreases s.len(),
{
    if s.len() > 0 {
        let init = s.drop_last();
        by_id_keeps_order(init);
        assert(init.push(s.last()) =~= s);
    }
}

/// The two sequences merged from their ends; of equal ids the one from `y` comes later.
pub open spec fn merge_by_id(x: Seq<Row>, y: Seq<Row>) -> Seq<Row>
    decreases x.len() + y.len(),
{
    if x.len() == 0 {
        y
    } else if y.len() == 0 {
        x
    } else if x.last().id <= y.last().id {
        merge_by_id(x, y.drop_last()).push(y.last())
    } else {
        merge_by_id(x.drop_last(), y).push(x.last())
    }
}

proof fn lemma_merge_insert(x: Seq<Row>, y: Seq<Row>, e: Row)
    ensures
        insert_by_id(merge_by_id(x, y), e) == merge_by_id(x, insert_by_id(y, e)),
        insert_by_id(y, e).len() > 0,
    decreases x.len() + y.len(),
{
    let m = merge_by_id(x, y);
    let z = insert_by_id(y, e);
    if x.len() == 0 {
    } else if y.len() == 0 {
        assert(z.drop_last() =~= y);
        assert(z.last() == e);
        assert(m == x);
        if x.last().id > e.id {
            lemma_merge_insert(x.drop_last(), y, e);
            assert(merge_by_id(x.drop_last(), y) =~= x.drop_last());
        }
    } else if x.last().id <= y.last().id {
        assert(m.drop_last() =~= merge_by_id(x, y.drop_last()));
        if y.last().id <= e.id {
            assert(z.drop_last() =~= y);
            assert(z.last() == e);
        } else {
            lemma_merge_insert(x, y.drop_last(), e);
            assert(z.drop_last() =~= insert_by_id(y.drop_last(), e));
            assert(z.last() == y.last());
        }
    } else {
        assert(m.drop_last() =~= merge_by_id(x.drop_last(), y));
        if x.last().id <= e.id {
            assert(z.drop_last() =~= y);
            assert(z.last() == e);
        } else {
            lemma_merge_insert(x.drop_last(), y, e);
            assert(z.last() == e || z.last() == y.last());
            assert(merge_by_id(x, z) == merge_by_id(x.drop_last(), z).push(x.last()));
        }
    }
}

/// Ordering two halves and merging them orders the whole.
proof fn lemma_merge_sorts(s: Seq<Row>, t: Seq<Row>)
    ensures
        merge_by_id(by_id(s), by_id(t)) == by_id(s + t),
    decreases t.len(),
{
    if t.len() == 0 {
        assert(s + t =~= s);
    } else {
        lemma_merge_sorts(s, t.drop_last());
        lemma_merge_insert(by_id(s), by_id(t.drop_last()), t.last());
        assert((s + t).drop_last() =~= s + t.drop_last());
        assert((s + t).last() == t.last());
    }
}

/// The rows that the positions in `order` pick.
pub open spec fn picked(s: Seq<Row>, order: Seq<usize>) -> Seq<Row> {
    Seq::new(order.len(), |i: int| s[order[i] as int])
}

/// Every position in `order` is one of `s`.
pub open spec fn in_range(s: Seq<Row>, order: Seq<usize>) -> bool {
    forall|i: int| 0 <= i < order.len() ==> #[trigger] order[i] < s.len()
}

/// One step of merging from the ends: the last row of one side goes in front of what is placed.
proof fn lemma_place(
    before: Seq<Row>,
    after: Seq<Row>,
    s: Seq<Row>,
    p: usize,
    rest: Seq<usize>,
)
    requires
        before == after.push(s[p as int]),
        in_range(s, rest),
        p < s.len(),
    ensures
        before + picked(s, rest) == after + picked(s, seq![p] + rest),
        in_range(s, seq![p] + rest),
{
    assert(picked(s, seq![p] + rest) =~= seq![s[p as int]] + picked(s, rest));
    assert(before + picked(s, rest) =~= after + picked(s, seq![p] + rest));
}

proof fn lemma_merge_take_x(x: Seq<Row>, y: Seq<Row>, i: int, j: int)
    requires
        0 < i <= x.len(),
        0 <= j <= y.len(),
        j == 0 || x[i - 1].id > y[j - 1].id,
    ensures
        merge_by_id(x.take(i), y.take(j)) == merge_by_id(x.take(i - 1), y.take(j)).push(x[i - 1]),
{
    assert(x.take(i).drop_last() =~= x.take(i - 1));
    if j == 0 {
        assert(merge_by_id(x.take(i - 1), y.take(j)) =~= x.take(i - 1));
        assert(x.take(i) =~= x.take(i - 1).push(x[i - 1]));
    }
}

proof fn lemma_merge_take_y(x: Seq<Row>, y: Seq<Row>, i: int, j: int)
    requires
        0 <= i <= x.len(),
        0 < j <= y.len(),
        i == 0 || x[i - 1].id <= y[j - 1].id,
    ensures
        merge_by_id(x.take(i), y.take(j)) == merge_by_id(x.take(i), y.take(j - 1)).push(y[j - 1]),
{
    assert(y.take(j).drop_last() =~= y.take(j - 1));
    if i == 0 {
        assert(y.take(j) =~= y.take(j - 1).push(y[j - 1]));
    }
}

fn merge(entries: &Vec<(u32, u32, String)>, x: Vec<usize>, y: Vec<usize>) -> (order: Vec<usize>)
    requires
        in_range(rows(entries@), x@),
        in_range(rows(entries@), y@),
        x@.len() + y@.len() <= entries@.len(),
    ensures
        in_range(rows(entries@), order@),
        order@.len() == x@.len() + y@.len(),
        picked(rows(entries@), order@) == merge_by_id(
            picked(rows(entries@), x@),
            picked(rows(entries@), y@),
        ),
{
    let total: usize = entries.len();
    let mut order: Vec<usize> = vec![0; x.len() + y.len()];
    let mut i: usize = x.len();
    let mut j: usize = y.len();
    let ghost s = rows(entries@);
    let ghost px = picked(s, x@);
    let ghost py = picked(s, y@);
    proof {
        assert(px.take(i as int) =~= px);
        assert(py.take(j as int) =~= py);
        assert(merge_by_id(px, py) + picked(s, order@.skip(i + j)) =~= merge_by_id(px, py));
    }
    while i > 0 || j > 0
        invariant
            total == entries@.len(),
            s == rows(entries@),
            px == picked(s, x@),
            py == picked(s, y@),
            in_range(s, x@),
            in_range(s, y@),
            i <= x@.len(),
            j <= y@.len(),
            x@.len() + y@.len() <= total,
            order@.len() == x@.len() + y@.len(),
            in_range(s, order@.skip(i + j)),
            merge_by_id(px.take(i as int), py.take(j as int)) + picked(s, order@.skip(i + j))
                == merge_by_id(px, py),
        decreases i + j,
    {
        let take_x: bool = if i == 0 {
            false
        } else if j == 0 {
            true
        } else {
            entries[x[i - 1]].0 > entries[y[j - 1]].0
        };
        let ghost m = merge_by_id(px.take(i as int), py.take(j as int));
        let ghost rest = order@.skip(i + j);
        let p: usize = if take_x {
            x[i - 1]
        } else {
            y[j - 1]
        };
        if take_x {
            proof {
                lemma_merge_take_x(px, py, i as int, j as int);
            }
            i = i - 1;
        } else {
            proof {
                lemma_merge_take_y(px, py, i as int, j as int);
            }
            j = j - 1;
        }
        order.set(i + j, p);
        proof {
            assert(order@.skip(i + j) =~= seq![p] + rest);
            lemma_place(m, merge_by_id(px.take(i as int), py.take(j as int)), s, p, rest);
        }
    }
    assert(order@.skip(0) =~= order@);
    assert(merge_by_id(px.take(0), py.take(0)) + picked(s, order@) =~= picked(s, order@));
    order
}

/// The positions from `lo` up to `hi`, in the order of the file.
fn sort_range(entries: &Vec<(u32, u32, String)>, lo: usize, hi: usize) -> (order: Vec<usize>)
    requires
        lo <= hi <= entries@.len(),
    ensures
        in_range(rows(entries@), order@),
        order@.len() == hi - lo,
        picked(rows(entries@), order@) == by_id(rows(entries@).subrange(lo as int, hi as int)),
    decreases hi - lo,
{
    let ghost s = rows(entries@);
    if lo == hi {
        let order: Vec<usize> = Vec::new();
        assert(picked(s, order@) =~= by_id(s.subrange(lo as int, hi as int)));
        order
    } else if lo + 1 == hi {
        let order: Vec<usize> = vec![lo];
        proof {
            let one = s.subrange(lo as int, hi as int);
            assert(one.drop_last().len() == 0);
            assert(by_id(one.drop_last()) =~= one.drop_last());
            assert(by_id(one) =~= one);
            assert(picked(s, order@) =~= one);
        }
        order
    } else {
        let mid: usize = lo + (hi - lo) / 2;
        let x = sort_range(entries, lo, mid);
        let y = sort_range(entries, mid, hi);
        proof {
            lemma_merge_sorts(s.subrange(lo as int, mid as int), s.subrange(mid as int, hi as int));
            assert(s.subrange(lo as int, mid as int) + s.subrange(mid as int, hi as int)
                =~= s.subrange(lo as int, hi as int));
        }
        merge(entries, x, y)
    }
}

/// The positions of the entries in the order of the file.
pub(crate) fn sorted_order(entries: &Vec<(u32, u32, String)>) -> (order: Vec<usize>)
    ensures
        in_range(rows(entries@), order@),
        picked(rows(entries@), order@) == by_id(rows(entries@)),
{
    let order = sort_range(entries, 0, entries.len());
    assert(rows(entries@).subrange(0, entries@.len() as int) =~= rows(entries@));
    order
}

} // verus!
