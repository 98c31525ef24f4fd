//! Files tagged while walking a tree, by full path: a list in the order of
//! paths in which no path stands twice.

use vstd::prelude::*;
use crate::pathname;
use crate::pathname::Style;
use crate::text;

verus! {

broadcast use vstd::string::group_string_axioms;

/// Whether a list of tags is in the order of paths, and none stands twice.
pub open spec fn in_order(style: Style, tags: Seq<Seq<char>>) -> bool {
    forall|i: int, j: int|
        0 <= i < j < tags.len() ==> pathname::precedes(style, #[trigger] tags[i], #[trigger] tags[j])
}

/// Whether a path is among some tags.
pub open spec fn has_tag(style: Style, tags: Seq<Seq<char>>, path: Seq<char>) -> bool {
    exists|i: int| 0 <= i < tags.len() && pathname::same(style, #[trigger] tags[i], path)
}

/// Tags with one more, in its place; one that is there already stays as it
/// is.
pub open spec fn with_tag(style: Style, tags: Seq<Seq<char>>, path: Seq<char>) -> Seq<Seq<char>>
    decreases tags.len(),
{
    if tags.len() == 0 {
        seq![path]
    } else if pathname::same(style, tags.last(), path) {
        tags
    } else if pathname::precedes(style, tags.last(), path) {
        tags.push(path)
    } else {
        with_tag(style, tags.drop_last(), path).push(tags.last())
    }
}

/// Tags without one.
pub open spec fn without_tag(style: Style, tags: Seq<Seq<char>>, path: Seq<char>) -> Seq<Seq<char>>
    decreases tags.len(),
{
    if tags.len() == 0 {
        Seq::empty()
    } else if pathname::same(style, tags.last(), path) {
        tags.drop_last()
    } else {
        without_tag(style, tags.drop_last(), path).push(tags.last())
    }
}

/// Whether a path is among some tags.
pub fn is_tagged(style: Style, tags: &Vec<String>, path: &str) -> (r: bool)
    ensures
        r == has_tag(style, text::views(tags@), path@),
{
    let ghost all = text::views(tags@);
    let mut i: usize = 0;
    while i < tags.len()
        invariant
            i <= tags@.len(),
            all == text::views(tags@),
            forall|j: int| 0 <= j < i ==> !pathname::same(style, #[trigger] all[j], path@),
        decreases tags@.len() - i,
    {
        assert(all[i as int] == tags@[i as int]@);
        if pathname::is_same(style, tags[i].as_str(), path) {
            return true;
        }
        i += 1;
    }
    false
}

proof fn lemma_with_tag(style: Style, tags: Seq<Seq<char>>, path: Seq<char>, at: int)
    requires
        0 <= at <= tags.len(),
        forall|k: int|
            at <= k < tags.len() ==> !pathname::same(style, #[trigger] tags[k], path)
                && !pathname::precedes(style, tags[k], path),
    ensures
        with_tag(style, tags, path) == with_tag(style, tags.take(at), path) + tags.skip(at),
    decreases tags.len() - at,
{
    if at == tags.len() {
        assert(tags.take(at) =~= tags);
        assert(with_tag(style, tags, path) + tags.skip(at) =~= with_tag(style, tags, path));
    } else {
        let front = tags.drop_last();
        assert forall|k: int| at <= k < front.len() implies !pathname::same(
            style,
            #[trigger] front[k],
            path,
        ) && !pathname::precedes(style, front[k], path) by {
            assert(front[k] == tags[k]);
        }
        lemma_with_tag(style, front, path, at);
        assert(front.take(at) =~= tags.take(at));
        assert(!pathname::same(style, tags[tags.len() - 1], path));
        assert((with_tag(style, tags.take(at), path) + front.skip(at)).push(tags.last()) =~= with_tag(
            style,
            tags.take(at),
            path,
        ) + tags.skip(at));
    }
}

/// Adds a path to some tags.
pub fn tag(style: Style, tags: &mut Vec<String>, path: String)
    ensures
        text::views(final(tags)@) == with_tag(style, text::views(old(tags)@), path@),
{
    let ghost all = text::views(tags@);
    let mut at: usize = tags.len();
    while at > 0
        invariant
            at <= tags@.len(),
            all == text::views(tags@),
            tags@ == old(tags)@,
            forall|k: int|
                at <= k < all.len() ==> !pathname::same(style, #[trigger] all[k], path@)
                    && !pathname::precedes(style, all[k], path@),
        ensures
            at > 0 ==> pathname::precedes(style, all[at - 1], path@) && !pathname::same(
                style,
                all[at - 1],
                path@,
            ),
        decreases at,
    {
        assert(all[at - 1] == tags@[at - 1]@);
        if pathname::is_same(style, tags[at - 1].as_str(), path.as_str()) {
            proof {
                lemma_with_tag(style, all, path@, at as int);
                assert(all.take(at as int).last() == all[at - 1]);
                assert(all.take(at as int) + all.skip(at as int) =~= all);
            }
            return;
        }
        if pathname::is_before(style, tags[at - 1].as_str(), path.as_str()) {
            break;
        }
        at -= 1;
    }
    proof {
        lemma_with_tag(style, all, path@, at as int);
        let head = all.take(at as int);
        if at > 0 {
            assert(head.last() == all[at - 1]);
        }
        assert(with_tag(style, head, path@) =~= head.push(path@));
    }
    tags.insert(at, path);
    assert(text::views(tags@) =~= all.take(at as int).push(path@) + all.skip(at as int));
}

proof fn lemma_without_tag(style: Style, tags: Seq<Seq<char>>, path: Seq<char>, at: int)
    requires
        0 <= at <= tags.len(),
        forall|k: int| at <= k < tags.len() ==> !pathname::same(style, #[trigger] tags[k], path),
    ensures
        without_tag(style, tags, path) == without_tag(style, tags.take(at), path) + tags.skip(at),
    decreases tags.len() - at,
{
    if at == tags.len() {
        assert(tags.take(at) =~= tags);
        assert(without_tag(style, tags, path) + tags.skip(at) =~= without_tag(style, tags, path));
    } else {
        let front = tags.drop_last();
        assert forall|k: int| at <= k < front.len() implies !pathname::same(
            style,
            #[trigger] front[k],
            path,
        ) by {
            assert(front[k] == tags[k]);
        }
        lemma_without_tag(style, front, path, at);
        assert(front.take(at) =~= tags.take(at));
        assert(!pathname::same(style, tags[tags.len() - 1], path));
        assert((without_tag(style, tags.take(at), path) + front.skip(at)).push(tags.last())
            =~= without_tag(style, tags.take(at), path) + tags.skip(at));
    }
}

/// Takes a path out of some tags.
pub fn untag(style: Style, tags: &mut Vec<String>, path: &str)
    ensures
        text::views(final(tags)@) == without_tag(style, text::views(old(tags)@), path@),
{
    let ghost all = text::views(tags@);
    let mut at: usize = tags.len();
    while at > 0
        invariant
            at <= tags@.len(),
            all == text::views(tags@),
            tags@ == old(tags)@,
            forall|k: int| at <= k < all.len() ==> !pathname::same(style, #[trigger] all[k], path@),
        decreases at,
    {
        assert(all[at - 1] == tags@[at - 1]@);
        if pathname::is_same(style, tags[at - 1].as_str(), path) {
            proof {
                lemma_without_tag(style, all, path@, at as int);
                assert(all.take(at as int).last() == all[at - 1]);
                assert(all.take(at as int).drop_last() =~= all.take(at - 1));
            }
            tags.remove(at - 1);
            assert(text::views(tags@) =~= all.take(at - 1) + all.skip(at as int));
            return;
        }
        at -= 1;
    }
    proof {
        lemma_without_tag(style, all, path@, 0);
        assert(all.take(0) =~= Seq::<Seq<char>>::empty());
        assert(without_tag(style, all.take(0), path@) + all.skip(0) =~= all);
    }
}

// ---- laws -------------------------------------------------------------------------------------

/// Adding a tag keeps the order, and the path is then among the tags.
pub proof fn law_tagging_keeps_the_order(style: Style, tags: Seq<Seq<char>>, path: Seq<char>)
    requires
        in_order(style, tags),
    ensures
        in_order(style, with_tag(style, tags, path)),
        has_tag(style, with_tag(style, tags, path), path),
{
    lemma_tagging(style, tags, path);
}

proof fn lemma_tagging(style: Style, tags: Seq<Seq<char>>, path: Seq<char>)
    requires
        in_order(style, tags),
    ensures
        in_order(style, with_tag(style, tags, path)),
        has_tag(style, with_tag(style, tags, path), path),
        forall|i: int|
            0 <= i < with_tag(style, tags, path).len() ==> (#[trigger] with_tag(style, tags, path)[i] == path)
                || exists|j: int| 0 <= j < tags.len() && tags[j] == with_tag(style, tags, path)[i],
    decreases tags.len(),
{
    let out = with_tag(style, tags, path);
    if tags.len() == 0 {
        assert(out[0] == path);
    } else {
        let last = tags.last();
        pathname::lemma_parts_before(style, pathname::keys(style, last), pathname::keys(style, path));
        if pathname::same(style, last, path) {
            assert(out[tags.len() - 1] == last);
            assert forall|i: int| 0 <= i < out.len() implies (#[trigger] out[i] == path) || exists|
                j: int,
            | 0 <= j < tags.len() && tags[j] == out[i] by {
                assert(tags[i] == out[i]);
            }
        } else if pathname::precedes(style, last, path) {
            assert(out[tags.len() as int] == path);
            assert forall|i: int, j: int| 0 <= i < j < out.len() implies pathname::precedes(
                style,
                #[trigger] out[i],
                #[trigger] out[j],
            ) by {
                if j == tags.len() {
                    if i < tags.len() - 1 {
                        assert(pathname::precedes(style, tags[i], tags[tags.len() - 1]));
                        pathname::lemma_parts_before_transitive(
                            style,
                            pathname::keys(style, tags[i]),
                            pathname::keys(style, last),
                            pathname::keys(style, path),
                        );
                    }
                } else {
                    assert(pathname::precedes(style, tags[i], tags[j]));
                }
            }
            assert forall|i: int| 0 <= i < out.len() implies (#[trigger] out[i] == path) || exists|
                j: int,
            | 0 <= j < tags.len() && tags[j] == out[i] by {
                if i < tags.len() {
                    assert(tags[i] == out[i]);
                }
            }
        } else {
            let front = tags.drop_last();
            assert forall|i: int, j: int| 0 <= i < j < front.len() implies pathname::precedes(
                style,
                #[trigger] front[i],
                #[trigger] front[j],
            ) by {
                assert(pathname::precedes(style, tags[i], tags[j]));
            }
            lemma_tagging(style, front, path);
            let head = with_tag(style, front, path);
            assert forall|i: int| 0 <= i < head.len() implies pathname::precedes(
                style,
                #[trigger] head[i],
                last,
            ) by {
                if head[i] != path {
                    let j = choose|j: int| 0 <= j < front.len() && front[j] == head[i];
                    assert(pathname::precedes(style, tags[j], tags[tags.len() - 1]));
                }
            }
            assert forall|i: int, j: int| 0 <= i < j < out.len() implies pathname::precedes(
                style,
                #[trigger] out[i],
                #[trigger] out[j],
            ) by {
                assert(out[i] == head[i]);
                if j < head.len() {
                    assert(out[j] == head[j]);
                }
            }
            let k = choose|k: int| 0 <= k < head.len() && pathname::same(style, #[trigger] head[k], path);
            assert(out[k] == head[k]);
            assert forall|i: int| 0 <= i < out.len() implies (#[trigger] out[i] == path) || exists|
                j: int,
            | 0 <= j < tags.len() && tags[j] == out[i] by {
                if i < head.len() {
                    assert(out[i] == head[i]);
                    if head[i] != path {
                        let j = choose|j: int| 0 <= j < front.len() && front[j] == head[i];
                        assert(tags[j] == out[i]);
                    }
                } else {
                    assert(tags[tags.len() - 1] == out[i]);
                }
            }
        }
    }
}

/// Taking a tag out keeps the order, and the path is then not among the tags.
pub proof fn law_untagging_takes_it_out(style: Style, tags: Seq<Seq<char>>, path: Seq<char>)
    requires
        in_order(style, tags),
    ensures
        in_order(style, without_tag(style, tags, path)),
        !has_tag(style, without_tag(style, tags, path), path),
    decreases tags.len(),
{
    let out = without_tag(style, tags, path);
    if tags.len() > 0 {
        let front = tags.drop_last();
        let last = tags.last();
        assert forall|i: int, j: int| 0 <= i < j < front.len() implies pathname::precedes(
            style,
            #[trigger] front[i],
            #[trigger] front[j],
        ) by {
            assert(pathname::precedes(style, tags[i], tags[j]));
        }
        if pathname::same(style, last, path) {
            assert forall|i: int| 0 <= i < out.len() implies !pathname::same(
                style,
                #[trigger] out[i],
                path,
            ) by {
                assert(pathname::precedes(style, tags[i], tags[tags.len() - 1]));
                pathname::lemma_parts_before(
                    style,
                    pathname::keys(style, tags[i]),
                    pathname::keys(style, last),
                );
            }
        } else {
            law_untagging_takes_it_out(style, front, path);
            let head = without_tag(style, front, path);
            lemma_untagged_are_tags(style, front, path);
            assert forall|i: int, j: int| 0 <= i < j < out.len() implies pathname::precedes(
                style,
                #[trigger] out[i],
                #[trigger] out[j],
            ) by {
                assert(out[i] == head[i]);
                if j < head.len() {
                    assert(out[j] == head[j]);
                } else {
                    let k = choose|k: int| 0 <= k < front.len() && front[k] == head[i];
                    assert(pathname::precedes(style, tags[k], tags[tags.len() - 1]));
                }
            }
            assert forall|i: int| 0 <= i < out.len() implies !pathname::same(
                style,
                #[trigger] out[i],
                path,
            ) by {
                if i < head.len() {
                    assert(out[i] == head[i]);
                    assert(!pathname::same(style, head[i], path));
                }
            }
        }
    }
}

proof fn lemma_untagged_are_tags(style: Style, tags: Seq<Seq<char>>, path: Seq<char>)
    ensures
        forall|i: int|
            0 <= i < without_tag(style, tags, path).len() ==> exists|j: int|
                0 <= j < tags.len() && tags[j] == #[trigger] without_tag(style, tags, path)[i],
    decreases tags.len(),
{
    if tags.len() > 0 {
        let front = tags.drop_last();
        let out = without_tag(style, tags, path);
        lemma_untagged_are_tags(style, front, path);
        assert forall|i: int| 0 <= i < out.len() implies exists|j: int|
            0 <= j < tags.len() && tags[j] == #[trigger] out[i] by {
            if pathname::same(style, tags.last(), path) {
                assert(tags[i] == out[i]);
            } else if i < out.len() - 1 {
                let head = without_tag(style, front, path);
                assert(out[i] == head[i]);
                let j = choose|j: int| 0 <= j < front.len() && front[j] == head[i];
                assert(tags[j] == out[i]);
            } else {
                assert(tags[tags.len() - 1] == out[i]);
            }
        }
    }
}

/// Adding a tag changes nothing for other paths.
pub proof fn law_tagging_is_for_one_path(
    style: Style,
    tags: Seq<Seq<char>>,
    path: Seq<char>,
    other: Seq<char>,
)
    ensures
        has_tag(style, with_tag(style, tags, path), other) == (has_tag(style, tags, other) || pathname::same(
            style,
            path,
            other,
        )),
    decreases tags.len(),
{
    let out = with_tag(style, tags, path);
    if tags.len() == 0 {
        assert(out[0] == path);
        if pathname::same(style, path, other) {
            assert(has_tag(style, out, other));
        }
    } else if pathname::same(style, tags.last(), path) {
        if pathname::same(style, path, other) {
            assert(pathname::same(style, tags[tags.len() - 1], other));
        }
    } else if pathname::precedes(style, tags.last(), path) {
        lemma_has_tag_push(style, tags, path, other);
    } else {
        let front = tags.drop_last();
        law_tagging_is_for_one_path(style, front, path, other);
        lemma_has_tag_push(style, with_tag(style, front, path), tags.last(), other);
        lemma_has_tag_push(style, front, tags.last(), other);
        assert(front.push(tags.last()) =~= tags);
    }
}

proof fn lemma_has_tag_push(style: Style, tags: Seq<Seq<char>>, path: Seq<char>, other: Seq<char>)
    ensures
        has_tag(style, tags.push(path), other) == (has_tag(style, tags, other) || pathname::same(style, path, other)),
{
    let out = tags.push(path);
    if has_tag(style, tags, other) {
        let i = choose|i: int| 0 <= i < tags.len() && pathname::same(style, #[trigger] tags[i], other);
        assert(out[i] == tags[i]);
    }
    if pathname::same(style, path, other) {
        assert(out[tags.len() as int] == path);
    }
    if has_tag(style, out, other) {
        let i = choose|i: int| 0 <= i < out.len() && pathname::same(style, #[trigger] out[i], other);
        if i < tags.len() {
            assert(tags[i] == out[i]);
        }
    }
}

/// Taking a tag out changes nothing for other paths.
pub proof fn law_untagging_is_for_one_path(
    style: Style,
    tags: Seq<Seq<char>>,
    path: Seq<char>,
    other: Seq<char>,
)
    requires
        !pathname::same(style, path, other),
    ensures
        has_tag(style, without_tag(style, tags, path), other) == has_tag(style, tags, other),
    decreases tags.len(),
{
    if tags.len() > 0 {
        let front = tags.drop_last();
        lemma_has_tag_push(style, front, tags.last(), other);
        assert(front.push(tags.last()) =~= tags);
        if !pathname::same(style, tags.last(), path) {
            law_untagging_is_for_one_path(style, front, path, other);
            lemma_has_tag_push(style, without_tag(style, front, path), tags.last(), other);
        }
    }
}

} // verus!
