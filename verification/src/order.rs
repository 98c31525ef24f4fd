//! Putting things in order.
//!
//! What a list in order is, is said by putting one thing after another in its
//! place, which is stable: what ties keeps the order it had. Sorting halves a
//! list, sorts the halves and merges them, and comes to the same. The order is
//! given by a function that says whether one thing goes strictly before
//! another.

use vstd::multiset::Multiset;
use vstd::prelude::*;

verus! {

/// A list that is in order, with one more thing put in its place: behind
/// everything that it does not go before.
pub open spec fn placed<T>(list: Seq<T>, x: T, less: spec_fn(T, T) -> bool) -> Seq<T>
    decreases list.len(),
{
    if list.len() == 0 || !less(x, list.last()) {
        list.push(x)
    } else {
        placed(list.drop_last(), x, less).push(list.last())
    }
}

/// A list put in order.
pub open spec fn sorted<T>(list: Seq<T>, less: spec_fn(T, T) -> bool) -> Seq<T>
    decreases list.len(),
{
    if list.len() == 0 {
        Seq::empty()
    } else {
        placed(sorted(list.drop_last(), less), list.last(), less)
    }
}

/// Whether a relation orders things: nothing goes before itself, and both
/// going before and not going before carry over.
pub open spec fn orders<T>(less: spec_fn(T, T) -> bool) -> bool {
    &&& forall|a: T| !#[trigger] less(a, a)
    &&& forall|a: T, b: T, c: T| #[trigger] less(a, b) && #[trigger] less(b, c) ==> less(a, c)
    &&& forall|a: T, b: T, c: T|
        !#[trigger] less(a, b) && !#[trigger] less(b, c) ==> !less(a, c)
}

/// Two lists that are in order made one, in order: where two things tie, the
/// one of the first list comes first.
pub open spec fn merged<T>(a: Seq<T>, b: Seq<T>, less: spec_fn(T, T) -> bool) -> Seq<T>
    decreases a.len() + b.len(),
{
    if b.len() == 0 {
        a
    } else if a.len() > 0 && less(b.last(), a.last()) {
        merged(a.drop_last(), b, less).push(a.last())
    } else {
        merged(a, b.drop_last(), less).push(b.last())
    }
}

proof fn lemma_merged_placed<T>(a: Seq<T>, b: Seq<T>, x: T, less: spec_fn(T, T) -> bool)
    requires
        orders(less),
    ensures
        merged(a, placed(b, x, less), less) == placed(merged(a, b, less), x, less),
    decreases a.len() + b.len(),
{
    let more = placed(b, x, less);
    let all = merged(a, b, less);
    if b.len() == 0 || !less(x, b.last()) {
        assert(more.last() == x && more.drop_last() =~= b);
        if a.len() > 0 && less(x, a.last()) {
            lemma_merged_placed(a.drop_last(), b, x, less);
            if b.len() > 0 {
                assert(less(b.last(), a.last()));
                assert(all.last() == a.last() && all.drop_last() =~= merged(
                    a.drop_last(),
                    b,
                    less,
                ));
            }
        } else if b.len() > 0 {
            assert(all.last() == b.last() || a.len() > 0 && all.last() == a.last());
        }
    } else {
        let front = b.drop_last();
        assert(more.last() == b.last() && more.drop_last() =~= placed(front, x, less));
        if a.len() > 0 && less(b.last(), a.last()) {
            lemma_merged_placed(a.drop_last(), b, x, less);
            assert(less(x, a.last()));
            assert(all.drop_last() =~= merged(a.drop_last(), b, less));
        } else {
            lemma_merged_placed(a, front, x, less);
            assert(all.drop_last() =~= merged(a, front, less));
        }
    }
}

proof fn lemma_sorted_halves<T>(a: Seq<T>, b: Seq<T>, less: spec_fn(T, T) -> bool)
    requires
        orders(less),
    ensures
        sorted(a + b, less) == merged(sorted(a, less), sorted(b, less), less),
    decreases b.len(),
{
    if b.len() == 0 {
        assert(a + b =~= a);
    } else {
        let front = b.drop_last();
        assert((a + b).drop_last() =~= a + front);
        lemma_sorted_halves(a, front, less);
        lemma_merged_placed(sorted(a, less), sorted(front, less), b.last(), less);
    }
}

/// Looking at things through a function keeps an order one.
pub proof fn lemma_orders_through<T, U>(
    f: spec_fn(T) -> U,
    less: spec_fn(T, T) -> bool,
    seen: spec_fn(U, U) -> bool,
)
    requires
        orders(seen),
        forall|a: T, b: T| #[trigger] less(a, b) == seen(f(a), f(b)),
    ensures
        orders(less),
{
    assert forall|a: T| !#[trigger] less(a, a) by {
        assert(!seen(f(a), f(a)));
    }
    assert forall|a: T, b: T, c: T| #[trigger] less(a, b) && #[trigger] less(b, c) implies less(
        a,
        c,
    ) by {
        assert(seen(f(a), f(b)) && seen(f(b), f(c)));
    }
    assert forall|a: T, b: T, c: T| !#[trigger] less(a, b) && !#[trigger] less(b, c) implies !less(
        a,
        c,
    ) by {
        assert(!seen(f(a), f(b)) && !seen(f(b), f(c)));
    }
}

fn merge<T, F: Fn(&T, &T) -> bool>(
    first: Vec<T>,
    second: Vec<T>,
    before: &F,
    Ghost(less): Ghost<spec_fn(T, T) -> bool>,
) -> (r: Vec<T>)
    requires
        forall|a: &T, b: &T| #[trigger] before.requires((a, b)),
        forall|a: &T, b: &T, r: bool|
            #[trigger] before.ensures((a, b), r) ==> r == less(*a, *b),
    ensures
        r@ == merged(first@, second@, less),
{
    let ghost all = merged(first@, second@, less);
    let mut first: Vec<T> = first;
    let mut second: Vec<T> = second;
    let mut behind: Vec<T> = Vec::new();
    while second.len() > 0
        invariant
            forall|a: &T, b: &T| #[trigger] before.requires((a, b)),
            forall|a: &T, b: &T, r: bool|
                #[trigger] before.ensures((a, b), r) ==> r == less(*a, *b),
            all == merged(first@, second@, less) + behind@.reverse(),
        decreases first@.len() + second@.len(),
    {
        let ghost (a, b, tail) = (first@, second@, behind@);
        let last: usize = second.len() - 1;
        let from_first: bool = first.len() > 0 && before(&second[last], &first[first.len() - 1]);
        let taken: Option<T> = if from_first {
            first.pop()
        } else {
            second.pop()
        };
        if let Some(x) = taken {
            behind.push(x);
            proof {
                assert(tail.push(x).reverse() =~= seq![x] + tail.reverse());
                let rest = merged(first@, second@, less);
                assert(if from_first {
                    first@ =~= a.drop_last() && x == a.last()
                } else {
                    second@ =~= b.drop_last() && x == b.last()
                });
                assert(merged(a, b, less) == rest.push(x));
                assert(rest.push(x) + tail.reverse() =~= rest + behind@.reverse());
            }
        }
    }
    let ghost front = first@;
    let ghost tail = behind@;
    while behind.len() > 0
        invariant
            front + tail.reverse() == first@ + behind@.reverse(),
        decreases behind@.len(),
    {
        let ghost left = behind@;
        let ghost was = first@;
        if let Some(x) = behind.pop() {
            first.push(x);
            assert(behind@ =~= left.drop_last() && x == left.last());
            assert(left.reverse() =~= seq![x] + behind@.reverse());
            assert(was + left.reverse() =~= first@ + behind@.reverse());
        }
    }
    assert(first@ + behind@.reverse() =~= first@);
    first
}

fn sort_owned<T, F: Fn(&T, &T) -> bool>(
    list: Vec<T>,
    before: &F,
    Ghost(less): Ghost<spec_fn(T, T) -> bool>,
) -> (r: Vec<T>)
    requires
        orders(less),
        forall|a: &T, b: &T| #[trigger] before.requires((a, b)),
        forall|a: &T, b: &T, r: bool|
            #[trigger] before.ensures((a, b), r) ==> r == less(*a, *b),
    ensures
        r@ == sorted(list@, less),
    decreases list@.len(),
{
    if list.len() < 2 {
        proof {
            if list@.len() == 1 {
                assert(list@.drop_last() =~= Seq::<T>::empty());
                assert(sorted(list@.drop_last(), less) =~= Seq::<T>::empty());
                assert(sorted(list@, less) =~= list@);
            } else {
                assert(sorted(list@, less) =~= list@);
            }
        }
        return list;
    }
    let half: usize = list.len() / 2;
    let mut first: Vec<T> = list;
    let second: Vec<T> = first.split_off(half);
    proof {
        assert(list@ =~= first@ + second@);
        lemma_sorted_halves(first@, second@, less);
    }
    let first: Vec<T> = sort_owned(first, before, Ghost(less));
    let second: Vec<T> = sort_owned(second, before, Ghost(less));
    merge(first, second, before, Ghost(less))
}

/// Puts a list in order.
pub(crate) fn sort<T, F: Fn(&T, &T) -> bool>(
    list: &mut Vec<T>,
    before: F,
    Ghost(less): Ghost<spec_fn(T, T) -> bool>,
)
    requires
        orders(less),
        forall|a: &T, b: &T| #[trigger] before.requires((a, b)),
        forall|a: &T, b: &T, r: bool|
            #[trigger] before.ensures((a, b), r) ==> r == less(*a, *b),
    ensures
        final(list)@ == sorted(old(list)@, less),
{
    let whole: Vec<T> = list.split_off(0);
    assert(whole@ =~= old(list)@);
    *list = sort_owned(whole, &before, Ghost(less));
}

proof fn lemma_placed_len<T>(list: Seq<T>, x: T, less: spec_fn(T, T) -> bool)
    ensures
        placed(list, x, less).len() == list.len() + 1,
        placed(list, x, less).to_multiset() == list.to_multiset().insert(x),
        forall|k: int|
            0 <= k < placed(list, x, less).len() ==> #[trigger] placed(list, x, less)[k] == x
                || list.contains(placed(list, x, less)[k]),
    decreases list.len(),
{
    broadcast use vstd::seq_lib::group_to_multiset_ensures;

    let all = placed(list, x, less);
    if list.len() == 0 || !less(x, list.last()) {
        assert forall|k: int| 0 <= k < all.len() implies #[trigger] all[k] == x || list.contains(
            all[k],
        ) by {
            if k < list.len() {
                assert(list[k] == all[k]);
            }
        }
    } else {
        let front = list.drop_last();
        lemma_placed_len(front, x, less);
        assert(list =~= front.push(list.last()));
        assert(list.to_multiset() =~= front.to_multiset().insert(list.last()));
        assert(all.to_multiset() =~= list.to_multiset().insert(x));
        assert forall|k: int| 0 <= k < all.len() implies #[trigger] all[k] == x || list.contains(
            all[k],
        ) by {
            if k < all.len() - 1 {
                let sub = placed(front, x, less);
                assert(sub[k] == all[k]);
                if sub[k] != x {
                    assert(front.contains(sub[k]));
                    let m = choose|m: int| 0 <= m < front.len() && front[m] == sub[k];
                    assert(list[m] == all[k]);
                }
            } else {
                assert(list[list.len() - 1] == all[k]);
            }
        }
    }
}

/// Sorting keeps everything that was there, and nothing else.
pub proof fn law_sorting_keeps_everything<T>(list: Seq<T>, less: spec_fn(T, T) -> bool)
    ensures
        sorted(list, less).len() == list.len(),
        sorted(list, less).to_multiset() == list.to_multiset(),
    decreases list.len(),
{
    broadcast use vstd::seq_lib::group_to_multiset_ensures;

    if list.len() > 0 {
        let front = list.drop_last();
        law_sorting_keeps_everything(front, less);
        lemma_placed_len(sorted(front, less), list.last(), less);
        assert(list =~= front.push(list.last()));
    } else {
        assert(sorted(list, less) =~= list);
    }
}

proof fn lemma_placed_in_order<T>(list: Seq<T>, x: T, less: spec_fn(T, T) -> bool)
    requires
        orders(less),
        forall|i: int, j: int|
            0 <= i < j < list.len() ==> !less(#[trigger] list[j], #[trigger] list[i]),
    ensures
        ({
            let all = placed(list, x, less);
            forall|i: int, j: int|
                0 <= i < j < all.len() ==> !less(#[trigger] all[j], #[trigger] all[i])
        }),
    decreases list.len(),
{
    let all = placed(list, x, less);
    if list.len() == 0 || !less(x, list.last()) {
        assert forall|i: int, j: int| 0 <= i < j < all.len() implies !less(
            #[trigger] all[j],
            #[trigger] all[i],
        ) by {
            if j == list.len() {
                if i < list.len() - 1 {
                    assert(!less(list[list.len() - 1], list[i]));
                }
            }
        }
    } else {
        let front = list.drop_last();
        let last = list.last();
        assert forall|i: int, j: int| 0 <= i < j < front.len() implies !less(
            #[trigger] front[j],
            #[trigger] front[i],
        ) by {
            assert(!less(list[j], list[i]));
        }
        lemma_placed_in_order(front, x, less);
        lemma_placed_len(front, x, less);
        let sub = placed(front, x, less);
        assert forall|i: int, j: int| 0 <= i < j < all.len() implies !less(
            #[trigger] all[j],
            #[trigger] all[i],
        ) by {
            if j < sub.len() {
                assert(!less(sub[j], sub[i]));
            } else {
                assert(all[j] == last);
                assert(all[i] == sub[i]);
                if sub[i] == x {
                    if less(last, x) {
                        assert(less(x, x));
                    }
                } else {
                    let m = choose|m: int| 0 <= m < front.len() && front[m] == sub[i];
                    assert(!less(list[list.len() - 1], list[m]));
                }
            }
        }
    }
}

/// Where the relation orders things, nothing in the sorted list goes before
/// something that stands in front of it.
pub proof fn law_sorting_puts_in_order<T>(list: Seq<T>, less: spec_fn(T, T) -> bool)
    requires
        orders(less),
    ensures
        forall|i: int, j: int|
            0 <= i < j < sorted(list, less).len() ==> !less(
                #[trigger] sorted(list, less)[j],
                #[trigger] sorted(list, less)[i],
            ),
    decreases list.len(),
{
    if list.len() > 0 {
        law_sorting_puts_in_order(list.drop_last(), less);
        lemma_placed_in_order(sorted(list.drop_last(), less), list.last(), less);
    }
}

proof fn lemma_placed_filter<T>(
    list: Seq<T>,
    x: T,
    less: spec_fn(T, T) -> bool,
    tied: spec_fn(T) -> bool,
)
    requires
        forall|a: T, b: T| #[trigger] tied(a) && #[trigger] tied(b) ==> !less(a, b),
    ensures
        placed(list, x, less).filter(tied) == list.push(x).filter(tied),
    decreases list.len(),
{
    reveal(Seq::filter);
    if list.len() > 0 && less(x, list.last()) {
        let front = list.drop_last();
        let last = list.last();
        lemma_placed_filter(front, x, less, tied);
        let all = placed(list, x, less);
        assert(all.drop_last() =~= placed(front, x, less));
        assert(list.push(x).drop_last() =~= list);
        assert(front.push(x).drop_last() =~= front);
        assert(all.last() == last);
        let f = front.filter(tied);
        assert(front.push(x).last() == x);
        assert(front.push(x).filter(tied) == if tied(x) {
            f.push(x)
        } else {
            f
        });
        assert(list.filter(tied) == if tied(last) {
            f.push(last)
        } else {
            f
        });
        assert(list.push(x).filter(tied) == if tied(x) {
            list.filter(tied).push(x)
        } else {
            list.filter(tied)
        });
        assert(all.filter(tied) == if tied(last) {
            placed(front, x, less).filter(tied).push(last)
        } else {
            placed(front, x, less).filter(tied)
        });
        if tied(x) {
            assert(!tied(last));
        }
    }
}

/// What ties keeps the order it had.
pub proof fn law_sorting_is_stable<T>(
    list: Seq<T>,
    less: spec_fn(T, T) -> bool,
    tied: spec_fn(T) -> bool,
)
    requires
        forall|a: T, b: T| #[trigger] tied(a) && #[trigger] tied(b) ==> !less(a, b),
    ensures
        sorted(list, less).filter(tied) == list.filter(tied),
    decreases list.len(),
{
    reveal(Seq::filter);
    if list.len() > 0 {
        let front = list.drop_last();
        let x = list.last();
        law_sorting_is_stable(front, less, tied);
        lemma_placed_filter(sorted(front, less), x, less, tied);
        assert(sorted(front, less).push(x).drop_last() =~= sorted(front, less));
    }
}

/// Sorting and then looking at things through a function is looking at them
/// first and sorting what is seen, where the order depends on nothing else.
pub proof fn lemma_sorted_map<T, U>(
    list: Seq<T>,
    f: spec_fn(T) -> U,
    less: spec_fn(T, T) -> bool,
    seen: spec_fn(U, U) -> bool,
)
    requires
        forall|a: T, b: T| #[trigger] less(a, b) == seen(f(a), f(b)),
    ensures
        sorted(list, less).map_values(f) == sorted(list.map_values(f), seen),
    decreases list.len(),
{
    if list.len() > 0 {
        let front = list.drop_last();
        lemma_sorted_map(front, f, less, seen);
        lemma_placed_map(sorted(front, less), list.last(), f, less, seen);
        assert(list.map_values(f).drop_last() =~= front.map_values(f));
        assert(list.map_values(f).last() == f(list.last()));
    } else {
        assert(sorted(list, less).map_values(f) =~= sorted(list.map_values(f), seen));
    }
}

proof fn lemma_placed_map<T, U>(
    list: Seq<T>,
    x: T,
    f: spec_fn(T) -> U,
    less: spec_fn(T, T) -> bool,
    seen: spec_fn(U, U) -> bool,
)
    requires
        forall|a: T, b: T| #[trigger] less(a, b) == seen(f(a), f(b)),
    ensures
        placed(list, x, less).map_values(f) == placed(list.map_values(f), f(x), seen),
    decreases list.len(),
{
    let mapped = list.map_values(f);
    if list.len() == 0 || !less(x, list.last()) {
        assert(list.push(x).map_values(f) =~= mapped.push(f(x)));
        if list.len() > 0 {
            assert(mapped.last() == f(list.last()));
            assert(less(x, list.last()) == seen(f(x), f(list.last())));
        }
    } else {
        let front = list.drop_last();
        lemma_placed_map(front, x, f, less, seen);
        assert(mapped.drop_last() =~= front.map_values(f));
        assert(mapped.last() == f(list.last()));
        assert(less(x, list.last()) == seen(f(x), f(list.last())));
        assert(placed(list, x, less).map_values(f) =~= placed(front, x, less).map_values(f).push(
            f(list.last()),
        ));
    }
}

} // verus!
