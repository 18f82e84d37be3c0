//! Order by keys: sequences of integers, compared item by item.

use vstd::prelude::*;
use vstd::seq_lib;
use vstd::set_lib;

verus! {

/// Whether `a` comes before `b`: at the first place where they differ it has the smaller integer,
/// or it ends there.
pub open spec fn before(a: Seq<i128>, b: Seq<i128>) -> bool
    decreases a.len(),
{
    if b.len() == 0 {
        false
    } else if a.len() == 0 {
        true
    } else {
        a[0] < b[0] || (a[0] == b[0] && before(a.skip(1), b.skip(1)))
    }
}

/// What has a key to be ordered by.
pub trait Keyed {
    spec fn key(&self) -> Seq<i128>;

    fn make_key(&self) -> (r: Vec<i128>)
        ensures
            r@ == self.key(),
    ;
}

/// Whether `order` lists the positions of `from` in the order in which `to` has its items: by key,
/// and items with the same key as they were.
pub open spec fn orders<T: Keyed>(from: Seq<T>, to: Seq<T>, order: Seq<int>) -> bool {
    &&& order.len() == to.len()
    &&& to.len() == from.len()
    &&& forall|i: int| 0 <= i < order.len() ==> 0 <= #[trigger] order[i] < from.len()
    &&& forall|i: int| 0 <= i < order.len() ==> #[trigger] to[i] == from[order[i]]
    &&& forall|i: int, j: int|
        0 <= i < j < order.len() ==> {
            ||| before((#[trigger] to[i]).key(), (#[trigger] to[j]).key())
            ||| to[i].key() == to[j].key() && order[i] < order[j]
        }
}

/// Whether `to` holds the items of `from`, ordered by key, those with the same key as they were.
pub open spec fn stably_sorted<T: Keyed>(from: Seq<T>, to: Seq<T>) -> bool {
    exists|order: Seq<int>| orders(from, to, order)
}

pub proof fn lemma_irreflexive(a: Seq<i128>)
    ensures
        !before(a, a),
    decreases a.len(),
{
    if a.len() > 0 {
        lemma_irreflexive(a.skip(1));
    }
}

pub proof fn lemma_transitive(a: Seq<i128>, b: Seq<i128>, c: Seq<i128>)
    requires
        before(a, b),
        before(b, c),
    ensures
        before(a, c),
    decreases a.len(),
{
    if a.len() > 0 && a[0] == b[0] && b[0] == c[0] {
        lemma_transitive(a.skip(1), b.skip(1), c.skip(1));
    }
}

pub proof fn lemma_total(a: Seq<i128>, b: Seq<i128>)
    ensures
        before(a, b) || a == b || before(b, a),
    decreases a.len(),
{
    if a.len() > 0 && b.len() > 0 && a[0] == b[0] {
        lemma_total(a.skip(1), b.skip(1));
        if a.skip(1) == b.skip(1) {
            assert(a == seq![a[0]] + a.skip(1));
            assert(b == seq![b[0]] + b.skip(1));
        }
    } else if a.len() == 0 && b.len() == 0 {
        assert(a == b);
    }
}

/// Whether `a` comes before `b`.
pub fn precedes(a: &Vec<i128>, b: &Vec<i128>) -> (r: bool)
    ensures
        r == before(a@, b@),
{
    let mut i: usize = 0;
    assert(a@.skip(0) == a@);
    assert(b@.skip(0) == b@);
    while i < a.len() && i < b.len()
        invariant
            i <= a@.len(),
            i <= b@.len(),
            before(a@.skip(i as int), b@.skip(i as int)) == before(a@, b@),
        decreases a@.len() - i,
    {
        assert(a@.skip(i as int).skip(1) == a@.skip(i + 1));
        assert(b@.skip(i as int).skip(1) == b@.skip(i + 1));
        if a[i] != b[i] {
            return a[i] < b[i];
        }
        i = i + 1;
    }
    i < b.len()
}

/// Sorts by key; items with the same key stay as they were.
pub fn stable_sort<T: Keyed>(items: Vec<T>) -> (r: Vec<T>)
    ensures
        stably_sorted(items@, r@),
        r@.to_multiset() == items@.to_multiset(),
        forall|i: int, j: int|
            0 <= i < j < r@.len() ==> !before(
                (#[trigger] r@[j]).key(),
                (#[trigger] r@[i]).key(),
            ),
        forall|key: Seq<i128>| #[trigger] with_key(r@, key) == with_key(items@, key),
{
    let ghost from = items@;
    let mut rest = items;
    let mut out: Vec<T> = Vec::new();
    let ghost mut order: Seq<int> = Seq::empty();
    proof {
        assert(from.skip(0) == from);
        assert(from.take(0) == out@);
    }
    while rest.len() > 0
        invariant
            out@.len() <= from.len(),
            rest@ == from.skip(out@.len() as int),
            orders(from.take(out@.len() as int), out@, order),
            out@.to_multiset() == from.take(out@.len() as int).to_multiset(),
            forall|key: Seq<i128>| #[trigger]
                with_key(out@, key) == with_key(from.take(out@.len() as int), key),
        decreases rest@.len(),
    {
        let ghost n = out@.len() as int;
        let ghost done = from.take(n);
        let ghost old_out = out@;
        let ghost old_order = order;
        let item = rest.remove(0);
        let key = item.make_key();
        let mut at: usize = out.len();
        while at > 0 && precedes(&key, &out[at - 1].make_key())
            invariant
                at <= out@.len(),
                out@ == old_out,
                key@ == item.key(),
                forall|i: int| at <= i < out@.len() ==> before(key@, (#[trigger] out@[i]).key()),
            decreases at,
        {
            at = at - 1;
        }
        proof {
            assert(item == from[n]);
            assert(from.skip(n).remove(0) == from.skip(n + 1));
            order = order.insert(at as int, n);
            let next = from.take(n + 1);
            let to = old_out.insert(at as int, item);
            assert forall|i: int, j: int| 0 <= i < j < order.len() implies {
                ||| before((#[trigger] to[i]).key(), (#[trigger] to[j]).key())
                ||| to[i].key() == to[j].key() && order[i] < order[j]
            } by {
                if i == at {
                    assert(to[j] == old_out[j - 1]);
                } else if j == at {
                    // everything up to the last item that the new one does not precede
                    let last = at - 1;
                    lemma_total(old_out[last].key(), key@);
                    assert(to[i] == old_out[i]);
                    assert(order[i] == old_order[i]);
                    if i < last {
                        if before(old_out[i].key(), old_out[last].key()) && before(
                            old_out[last].key(),
                            key@,
                        ) {
                            lemma_transitive(old_out[i].key(), old_out[last].key(), key@);
                        }
                    }
                } else {
                    let i0 = if i < at {
                        i
                    } else {
                        i - 1
                    };
                    let j0 = if j < at {
                        j
                    } else {
                        j - 1
                    };
                    assert(to[i] == old_out[i0]);
                    assert(to[j] == old_out[j0]);
                }
            }
            assert forall|i: int| 0 <= i < order.len() implies {
                &&& 0 <= #[trigger] order[i] < next.len()
                &&& to[i] == next[order[i]]
            } by {
                if i < at {
                    assert(to[i] == old_out[i] && order[i] == old_order[i]);
                    assert(done[old_order[i]] == next[old_order[i]]);
                } else if i > at {
                    assert(to[i] == old_out[i - 1] && order[i] == old_order[i - 1]);
                    assert(done[old_order[i - 1]] == next[old_order[i - 1]]);
                }
            }
        }
        out.insert(at, item);
        assert(orders(from.take(n + 1), out@, order));
        proof {
            let next = from.take(n + 1);
            assert(next == done.push(item));
            lemma_insert_multiset(old_out, at as int, item);
            seq_lib::to_multiset_build(done, item);
            assert forall|k: Seq<i128>| #[trigger] with_key(out@, k) == with_key(next, k) by {
                let pred = |x: T| x.key() == k;
                assert(with_key(old_out, k) == with_key(done, k));
                assert forall|i: int| at <= i < old_out.len() && pred(item) implies !pred(
                    #[trigger] old_out[i],
                ) by {
                    lemma_irreflexive(k);
                }
                lemma_filter_insert(old_out, at as int, item, pred);
                lemma_filter_push(done, item, pred);
            }
        }
    }
    assert(from.take(out@.len() as int) == from);
    proof {
        assert forall|i: int, j: int| 0 <= i < j < out@.len() implies !before(
            (#[trigger] out@[j]).key(),
            (#[trigger] out@[i]).key(),
        ) by {
            let (a, b) = (out@[i].key(), out@[j].key());
            if before(b, a) && before(a, b) {
                lemma_transitive(a, b, a);
            }
            lemma_irreflexive(a);
        }
    }
    out
}

/// The items with a key, in their order.
pub open spec fn with_key<T: Keyed>(items: Seq<T>, key: Seq<i128>) -> Seq<T> {
    items.filter(|x: T| x.key() == key)
}

proof fn lemma_insert_multiset<T>(s: Seq<T>, at: int, x: T)
    requires
        0 <= at <= s.len(),
    ensures
        s.insert(at, x).to_multiset() == s.to_multiset().insert(x),
{
    let t = s.insert(at, x);
    assert(t.remove(at) == s);
    seq_lib::to_multiset_remove(t, at);
    seq_lib::to_multiset_contains(t, x);
    assert(t[at] == x);
    assert(t.contains(x));
    assert(t.to_multiset() =~= s.to_multiset().insert(x));
}

proof fn lemma_filter_push<T>(s: Seq<T>, x: T, pred: spec_fn(T) -> bool)
    ensures
        s.push(x).filter(pred) == if pred(x) {
            s.filter(pred).push(x)
        } else {
            s.filter(pred)
        },
{
    assert(s.push(x).drop_last() == s);
    reveal(Seq::filter);
}

proof fn lemma_filter_none<T>(s: Seq<T>, pred: spec_fn(T) -> bool)
    requires
        forall|i: int| 0 <= i < s.len() ==> !pred(#[trigger] s[i]),
    ensures
        s.filter(pred) == Seq::<T>::empty(),
    decreases s.len(),
{
    reveal(Seq::filter);
    if s.len() > 0 {
        assert forall|i: int| 0 <= i < s.drop_last().len() implies !pred(
            #[trigger] s.drop_last()[i],
        ) by {
            assert(s.drop_last()[i] == s[i]);
        }
        lemma_filter_none(s.drop_last(), pred);
        assert(!pred(s[s.len() - 1]));
    }
}

/// An item that is inserted comes last of those that are kept, where none is kept behind it.
proof fn lemma_filter_insert<T>(s: Seq<T>, at: int, x: T, pred: spec_fn(T) -> bool)
    requires
        0 <= at <= s.len(),
        forall|i: int| at <= i < s.len() && pred(x) ==> !pred(#[trigger] s[i]),
    ensures
        s.insert(at, x).filter(pred) == if pred(x) {
            s.filter(pred).push(x)
        } else {
            s.filter(pred)
        },
{
    let (a, b) = (s.take(at), s.skip(at));
    assert(s == a + b);
    assert(s.insert(at, x) == a.push(x) + b);
    Seq::filter_distributes_over_add(a, b, pred);
    Seq::filter_distributes_over_add(a.push(x), b, pred);
    lemma_filter_push(a, x, pred);
    if pred(x) {
        assert forall|i: int| 0 <= i < b.len() implies !pred(#[trigger] b[i]) by {
            assert(b[i] == s[at + i]);
        }
        lemma_filter_none(b, pred);
        assert(a.filter(pred) + b.filter(pred) == a.filter(pred));
        assert(a.filter(pred).push(x) + b.filter(pred) == a.filter(pred).push(x));
    }
}

/// Nothing is lost or doubled by sorting: each item of `from` is at exactly one place of `to`.
pub proof fn lemma_sorting_loses_nothing<T: Keyed>(from: Seq<T>, to: Seq<T>, order: Seq<int>)
    requires
        orders(from, to, order),
    ensures
        order.no_duplicates(),
        forall|p: int| 0 <= p < from.len() ==> #[trigger] order.contains(p),
{
    let n = from.len() as int;
    assert forall|i: int, j: int| 0 <= i < j < order.len() implies order[i] != order[j] by {
        if order[i] == order[j] {
            assert(to[i] == to[j]);
            lemma_irreflexive(to[i].key());
        }
    }
    assert(order.no_duplicates());
    let places = set_lib::set_int_range(0, n);
    order.unique_seq_to_set();
    set_lib::lemma_int_range(0, n);
    assert(order.to_set().subset_of(places)) by {
        assert forall|p: int| order.to_set().contains(p) implies places.contains(p) by {
            let i = choose|i: int| 0 <= i < order.len() && order[i] == p;
            assert(0 <= order[i] < from.len());
        }
    }
    set_lib::lemma_subset_equality(order.to_set(), places);
    assert forall|p: int| 0 <= p < from.len() implies #[trigger] order.contains(p) by {
        assert(places.contains(p));
        assert(order.to_set().contains(p));
    }
}

/// Sorting has one outcome only.
pub proof fn lemma_sorting_is_determined<T: Keyed>(from: Seq<T>, a: Seq<T>, b: Seq<T>)
    requires
        stably_sorted(from, a),
        stably_sorted(from, b),
    ensures
        a == b,
{
    let oa = choose|order: Seq<int>| orders(from, a, order);
    let ob = choose|order: Seq<int>| orders(from, b, order);
    lemma_sorting_loses_nothing(from, a, oa);
    lemma_sorting_loses_nothing(from, b, ob);
    assert forall|i: int| 0 <= i < from.len() implies a[i] == b[i] by {
        lemma_same_place(from, a, b, oa, ob, i);
    }
}

proof fn lemma_same_place<T: Keyed>(
    from: Seq<T>,
    a: Seq<T>,
    b: Seq<T>,
    oa: Seq<int>,
    ob: Seq<int>,
    i: int,
)
    requires
        orders(from, a, oa),
        orders(from, b, ob),
        oa.no_duplicates(),
        ob.no_duplicates(),
        forall|p: int| 0 <= p < from.len() ==> #[trigger] oa.contains(p),
        forall|p: int| 0 <= p < from.len() ==> #[trigger] ob.contains(p),
        0 <= i < from.len(),
    ensures
        oa[i] == ob[i],
        a[i] == b[i],
    decreases i,
{
    assert forall|k: int| 0 <= k < i implies oa[k] == ob[k] by {
        lemma_same_place(from, a, b, oa, ob, k);
    }
    assert(0 <= oa[i] < from.len());
    assert(0 <= ob[i] < from.len());
    if oa[i] != ob[i] {
        // what one has here, the other has only later
        assert(ob.contains(oa[i]));
        let j = choose|j: int| 0 <= j < ob.len() && ob[j] == oa[i];
        assert(oa.contains(ob[i]));
        let k = choose|k: int| 0 <= k < oa.len() && oa[k] == ob[i];
        assert(j > i) by {
            if j < i {
                assert(oa[j] == ob[j]);
            }
        }
        assert(k > i) by {
            if k < i {
                assert(oa[k] == ob[k]);
            }
        }
        assert(a[i] == b[j] && b[i] == a[k]);
        let (x, y) = (a[i].key(), b[i].key());
        if before(x, y) && before(y, x) {
            lemma_transitive(x, y, x);
        }
        lemma_irreflexive(x);
    }
    assert(a[i] == from[oa[i]]);
    assert(b[i] == from[ob[i]]);
}

} // verus!
