//! Walking a tree: what is found inside something comes before what stands
//! beside it.
//!
//! A walk keeps a list of what waits. The first of it is taken, and what is
//! inside that is put in front of the rest. The laws here say what this comes
//! to: everything in the tree, each thing once, in the order of the tree.

use vstd::prelude::*;

verus! {

/// Whether a tree ends within so many levels.
pub open spec fn ends<T>(inside: spec_fn(T) -> Seq<T>, steps: Seq<T>, depth: nat) -> bool
    decreases depth, steps.len(),
{
    steps.len() > 0 ==> {
        &&& depth > 0
        &&& ends(inside, inside(steps[0]), (depth - 1) as nat)
        &&& ends(inside, steps.skip(1), depth)
    }
}

/// A tree in order: each thing, then what is inside it, then what stands
/// beside it.
pub open spec fn in_order<T>(inside: spec_fn(T) -> Seq<T>, steps: Seq<T>, depth: nat) -> Seq<T>
    decreases depth, steps.len(),
{
    if steps.len() == 0 || depth == 0 {
        Seq::empty()
    } else {
        seq![steps[0]] + in_order(inside, inside(steps[0]), (depth - 1) as nat) + in_order(
            inside,
            steps.skip(1),
            depth,
        )
    }
}

/// What has been taken after so many rounds of a walk.
pub open spec fn taken<T>(inside: spec_fn(T) -> Seq<T>, waiting: Seq<T>, rounds: nat) -> Seq<T>
    decreases rounds,
{
    if rounds == 0 || waiting.len() == 0 {
        Seq::empty()
    } else {
        seq![waiting[0]] + taken(
            inside,
            inside(waiting[0]) + waiting.skip(1),
            (rounds - 1) as nat,
        )
    }
}

/// What still waits after so many rounds of a walk.
pub open spec fn left<T>(inside: spec_fn(T) -> Seq<T>, waiting: Seq<T>, rounds: nat) -> Seq<T>
    decreases rounds,
{
    if rounds == 0 || waiting.len() == 0 {
        waiting
    } else {
        left(inside, inside(waiting[0]) + waiting.skip(1), (rounds - 1) as nat)
    }
}

proof fn lemma_walk_goes_on<T>(
    inside: spec_fn(T) -> Seq<T>,
    steps: Seq<T>,
    depth: nat,
    rest: Seq<T>,
    rounds: nat,
)
    requires
        ends(inside, steps, depth),
    ensures
        ({
            let tree = in_order(inside, steps, depth);
            &&& taken(inside, steps + rest, tree.len() + rounds) == tree + taken(
                inside,
                rest,
                rounds,
            )
            &&& left(inside, steps + rest, tree.len() + rounds) == left(inside, rest, rounds)
        }),
    decreases depth, steps.len(),
{
    let tree = in_order(inside, steps, depth);
    if steps.len() == 0 {
        assert(steps + rest =~= rest);
        assert(tree + taken(inside, rest, rounds) =~= taken(inside, rest, rounds));
    } else {
        let below = inside(steps[0]);
        let beside = steps.skip(1);
        let first = in_order(inside, below, (depth - 1) as nat);
        let second = in_order(inside, beside, depth);
        lemma_walk_goes_on(
            inside,
            below,
            (depth - 1) as nat,
            beside + rest,
            second.len() + rounds,
        );
        lemma_walk_goes_on(inside, beside, depth, rest, rounds);
        assert((steps + rest).skip(1) =~= beside + rest);
        assert((steps + rest)[0] == steps[0]);
        assert(tree.len() + rounds == 1 + (first.len() + (second.len() + rounds)));
        assert(taken(inside, steps + rest, tree.len() + rounds) == seq![steps[0]] + taken(
            inside,
            below + (beside + rest),
            first.len() + (second.len() + rounds),
        ));
        assert(tree + taken(inside, rest, rounds) =~= seq![steps[0]] + (first + (second + taken(
            inside,
            rest,
            rounds,
        ))));
    }
}

/// A walk of a tree that ends comes to its end, and has then taken the whole
/// tree in order.
pub proof fn law_a_walk_takes_the_whole_tree<T>(
    inside: spec_fn(T) -> Seq<T>,
    steps: Seq<T>,
    depth: nat,
)
    requires
        ends(inside, steps, depth),
    ensures
        ({
            let tree = in_order(inside, steps, depth);
            &&& taken(inside, steps, tree.len()) == tree
            &&& left(inside, steps, tree.len()).len() == 0
        }),
{
    let tree = in_order(inside, steps, depth);
    lemma_walk_goes_on(inside, steps, depth, Seq::empty(), 0);
    assert(steps + Seq::<T>::empty() =~= steps);
    assert(tree + taken(inside, Seq::<T>::empty(), 0) =~= tree);
}

/// What a tree holds: where it begins, and what is inside anything it holds.
pub proof fn law_a_tree_holds_what_is_inside<T>(
    inside: spec_fn(T) -> Seq<T>,
    steps: Seq<T>,
    depth: nat,
)
    requires
        ends(inside, steps, depth),
    ensures
        forall|i: int|
            0 <= i < steps.len() ==> in_order(inside, steps, depth).contains(#[trigger] steps[i]),
        forall|x: T, i: int|
            #![trigger inside(x)[i]]
            in_order(inside, steps, depth).contains(x) && 0 <= i < inside(x).len() ==> in_order(
                inside,
                steps,
                depth,
            ).contains(inside(x)[i]),
    decreases depth, steps.len(),
{
    let tree = in_order(inside, steps, depth);
    if steps.len() > 0 {
        let below = inside(steps[0]);
        let beside = steps.skip(1);
        let first = in_order(inside, below, (depth - 1) as nat);
        let second = in_order(inside, beside, depth);
        law_a_tree_holds_what_is_inside(inside, below, (depth - 1) as nat);
        law_a_tree_holds_what_is_inside(inside, beside, depth);
        assert(tree[0] == steps[0]);
        lemma_holds_parts(steps[0], first, second);
        assert forall|i: int| 0 <= i < steps.len() implies tree.contains(#[trigger] steps[i]) by {
            if i > 0 {
                assert(beside[i - 1] == steps[i]);
            }
        }
        assert forall|x: T, i: int|
            #![trigger inside(x)[i]]
            tree.contains(x) && 0 <= i < inside(x).len() implies tree.contains(inside(x)[i]) by {
            if x == steps[0] {
                assert(first.contains(below[i]));
            } else if first.contains(x) {
                assert(first.contains(inside(x)[i]));
            } else {
                assert(second.contains(x));
                assert(second.contains(inside(x)[i]));
            }
        }
    }
}

proof fn lemma_holds_parts<T>(x: T, first: Seq<T>, second: Seq<T>)
    ensures
        forall|y: T|
            #[trigger] (seq![x] + first + second).contains(y) <==> y == x || first.contains(y)
                || second.contains(y),
{
    let all = seq![x] + first + second;
    assert forall|y: T| #[trigger] all.contains(y) <==> y == x || first.contains(y)
        || second.contains(y) by {
        if y == x {
            assert(all[0] == y);
        }
        if first.contains(y) {
            let k = choose|k: int| 0 <= k < first.len() && first[k] == y;
            assert(all[1 + k] == y);
        }
        if second.contains(y) {
            let k = choose|k: int| 0 <= k < second.len() && second[k] == y;
            assert(all[1 + first.len() + k] == y);
        }
        if all.contains(y) {
            let k = choose|k: int| 0 <= k < all.len() && all[k] == y;
            if 1 <= k <= first.len() {
                assert(first[k - 1] == y);
            } else if k > first.len() {
                assert(second[k - 1 - first.len()] == y);
            }
        }
    }
}

/// A tree holds nothing else: whatever is in it is where it begins, or inside
/// something it holds.
pub proof fn law_a_tree_holds_nothing_else<T>(
    inside: spec_fn(T) -> Seq<T>,
    steps: Seq<T>,
    depth: nat,
    x: T,
)
    requires
        in_order(inside, steps, depth).contains(x),
    ensures
        steps.contains(x) || exists|y: T|
            #![trigger inside(y)]
            in_order(inside, steps, depth).contains(y) && inside(y).contains(x),
    decreases depth, steps.len(),
{
    if steps.len() > 0 && depth > 0 {
        let tree = in_order(inside, steps, depth);
        let below = inside(steps[0]);
        let beside = steps.skip(1);
        let first = in_order(inside, below, (depth - 1) as nat);
        let second = in_order(inside, beside, depth);
        lemma_holds_parts(steps[0], first, second);
        if x == steps[0] {
        } else if first.contains(x) {
            law_a_tree_holds_nothing_else(inside, below, (depth - 1) as nat, x);
            if below.contains(x) {
                assert(tree.contains(steps[0]));
            } else {
                let y = choose|y: T|
                    #![trigger inside(y)]
                    first.contains(y) && inside(y).contains(x);
                assert(tree.contains(y));
            }
        } else {
            law_a_tree_holds_nothing_else(inside, beside, depth, x);
            if beside.contains(x) {
                let k = choose|k: int| 0 <= k < beside.len() && beside[k] == x;
                assert(steps[k + 1] == x);
            } else {
                let y = choose|y: T|
                    #![trigger inside(y)]
                    second.contains(y) && inside(y).contains(x);
                assert(tree.contains(y));
            }
        }
    }
}

} // verus!
