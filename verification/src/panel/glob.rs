//! Matching a name against a shell-style pattern: `*` any run, `?` any one.

use vstd::prelude::*;
use crate::text;
use crate::text::chars;

verus! {

broadcast use vstd::string::group_string_axioms;

/// Whether a name matches a pattern.
pub open spec fn glob(pattern: Seq<char>, name: Seq<char>) -> bool
    decreases pattern.len() + name.len(),
{
    if pattern.len() == 0 {
        name.len() == 0
    } else if pattern[0] == '*' {
        glob(pattern.skip(1), name) || (name.len() > 0 && glob(pattern, name.skip(1)))
    } else {
        name.len() > 0 && (pattern[0] == '?' || pattern[0] == name[0]) && glob(
            pattern.skip(1),
            name.skip(1),
        )
    }
}

/// What is compared: the text as it is, or in lower case.
pub open spec fn folded(text: Seq<char>, case_sensitive: bool) -> Seq<char> {
    if case_sensitive {
        text
    } else {
        text::lowercase(text)
    }
}

/// What is left of both, from a place in each.
spec fn from(pattern: Seq<char>, name: Seq<char>, p: int, n: int) -> bool {
    glob(pattern.skip(p), name.skip(n))
}

proof fn lemma_from(pattern: Seq<char>, name: Seq<char>, p: int, n: int)
    requires
        0 <= p <= pattern.len(),
        0 <= n <= name.len(),
    ensures
        p == pattern.len() ==> from(pattern, name, p, n) == (n == name.len()),
        p < pattern.len() && pattern[p] == '*' ==> from(pattern, name, p, n) == (from(
            pattern,
            name,
            p + 1,
            n,
        ) || (n < name.len() && from(pattern, name, p, n + 1))),
        p < pattern.len() && pattern[p] != '*' ==> from(pattern, name, p, n) == (n < name.len() && (
        pattern[p] == '?' || pattern[p] == name[n]) && from(pattern, name, p + 1, n + 1)),
{
    if p < pattern.len() {
        assert(pattern.skip(p).skip(1) =~= pattern.skip(p + 1));
    }
    if n < name.len() {
        assert(name.skip(n).skip(1) =~= name.skip(n + 1));
    }
}

/// What a star matches from further on it matches from here too.
proof fn lemma_star_gives(pattern: Seq<char>, name: Seq<char>, p: int, n: int, later: int)
    requires
        0 <= p < pattern.len(),
        pattern[p] == '*',
        0 <= n <= later <= name.len(),
        from(pattern, name, p, later),
    ensures
        from(pattern, name, p, n),
    decreases later - n,
{
    if n < later {
        lemma_star_gives(pattern, name, p, n + 1, later);
        lemma_from(pattern, name, p, n);
    }
}

/// What a star matches, the rest of the pattern matches from some place on.
proof fn lemma_star_takes(pattern: Seq<char>, name: Seq<char>, s: int, n: int) -> (m: int)
    requires
        0 <= s < pattern.len(),
        pattern[s] == '*',
        0 <= n <= name.len(),
        from(pattern, name, s, n),
    ensures
        n <= m <= name.len(),
        from(pattern, name, s + 1, m),
    decreases name.len() - n,
{
    lemma_from(pattern, name, s, n);
    if from(pattern, name, s + 1, n) {
        n
    } else {
        lemma_star_takes(pattern, name, s, n + 1)
    }
}

/// A run of a pattern without stars takes up one character of the name each.
proof fn lemma_run(pattern: Seq<char>, name: Seq<char>, p: int, n: int, to: int)
    requires
        0 <= p <= to <= pattern.len(),
        0 <= n <= name.len(),
        forall|i: int| p <= i < to ==> pattern[i] != '*',
        from(pattern, name, p, n),
    ensures
        n + (to - p) <= name.len(),
        from(pattern, name, to, n + (to - p)),
    decreases to - p,
{
    if p < to {
        lemma_from(pattern, name, p, n);
        lemma_run(pattern, name, p + 1, n + 1, to);
    }
}

/// Whether the last star would do better by swallowing one character more.
spec fn may_retry(pattern: Seq<char>, name: Seq<char>, star: int, retry: int) -> bool {
    star >= 0 && retry + 1 <= name.len() && from(pattern, name, star, retry + 1)
}

/// Match a name against a shell-style glob, whatever the case.
pub fn matches_glob(pattern: &str, name: &str) -> (r: bool)
    ensures
        r == glob(text::lowercase(pattern@), text::lowercase(name@)),
{
    matches_glob_with(pattern, name, false)
}

fn fold(text: &str, case_sensitive: bool) -> (r: Vec<char>)
    ensures
        r@ == folded(text@, case_sensitive),
{
    if case_sensitive {
        chars(text)
    } else {
        chars(text::to_lowercase(text).as_str())
    }
}

/// As [`matches_glob`], with the case rule chosen.
///
/// Iterative with backtracking rather than recursive, so a pathological
/// pattern cannot blow the stack.
pub fn matches_glob_with(pattern: &str, name: &str, case_sensitive: bool) -> (r: bool)
    ensures
        r == glob(folded(pattern@, case_sensitive), folded(name@, case_sensitive)),
{
    let pattern: Vec<char> = fold(pattern, case_sensitive);
    let name: Vec<char> = fold(name, case_sensitive);
    is_match(&pattern, &name)
}

fn is_match(pattern: &Vec<char>, name: &Vec<char>) -> (r: bool)
    ensures
        r == glob(pattern@, name@),
{
    let ghost ps = pattern@;
    let ghost ns = name@;
    let mut p: usize = 0;
    let mut n: usize = 0;
    // Where to resume if the current `*` turns out to have eaten too little.
    let mut star: Option<usize> = None;
    let mut retry: usize = 0;
    let ghost mut s: int = -1;
    proof {
        assert(ps.skip(0) =~= ps);
        assert(ns.skip(0) =~= ns);
    }
    while n < name.len()
        invariant
            ps == pattern@,
            ns == name@,
            p <= ps.len(),
            retry <= n <= ns.len(),
            match star {
                Some(at) => s == at && at < p && ps[at as int] == '*' && p - at - 1 == n - retry
                    && (forall|i: int| s < i < p ==> ps[i] != '*'),
                None => s == -1 && p == n && retry == 0 && (forall|i: int|
                    0 <= i < p ==> ps[i] != '*'),
            },
            glob(ps, ns) == (from(ps, ns, p as int, n as int) || may_retry(
                ps,
                ns,
                s,
                retry as int,
            )),
        decreases ps.len() - s, ns.len() - retry, ps.len() - p,
    {
        proof {
            lemma_from(ps, ns, p as int, n as int);
        }
        if p < pattern.len() && pattern[p] == '*' {
            proof {
                if may_retry(ps, ns, s, retry as int) {
                    let m = lemma_star_takes(ps, ns, s, retry + 1);
                    lemma_run(ps, ns, s + 1, m, p as int);
                    lemma_star_gives(ps, ns, p as int, n as int, m + (p - s - 1));
                }
                s = p as int;
            }
            star = Some(p);
            retry = n;
            p += 1;
        } else if p < pattern.len() && (pattern[p] == '?' || pattern[p] == name[n]) {
            p += 1;
            n += 1;
        } else {
            match star {
                // Back up: let the last `*` swallow one more character.
                Some(position) => {
                    proof {
                        lemma_from(ps, ns, s, retry + 1);
                    }
                    p = position + 1;
                    retry += 1;
                    n = retry;
                },
                None => {
                    return false;
                },
            }
        }
    }
    proof {
        if may_retry(ps, ns, s, retry as int) {
            let m = lemma_star_takes(ps, ns, s, retry + 1);
            lemma_run(ps, ns, s + 1, m, p as int);
        }
    }
    // Trailing stars can match nothing at all.
    while p < pattern.len() && pattern[p] == '*'
        invariant
            ps == pattern@,
            ns == name@,
            p <= ps.len(),
            n == ns.len(),
            glob(ps, ns) == from(ps, ns, p as int, n as int),
        decreases ps.len() - p,
    {
        proof {
            lemma_from(ps, ns, p as int, n as int);
        }
        p += 1;
    }
    proof {
        lemma_from(ps, ns, p as int, n as int);
    }
    p == pattern.len()
}

// ---- laws -------------------------------------------------------------------------------------

/// A star alone matches any name.
pub proof fn law_a_star_matches_anything(name: Seq<char>)
    ensures
        glob(seq!['*'], name),
    decreases name.len(),
{
    if name.len() > 0 {
        law_a_star_matches_anything(name.skip(1));
    } else {
        assert(seq!['*'].skip(1) =~= Seq::<char>::empty());
        assert(glob(seq!['*'].skip(1), name));
    }
}

/// A pattern without wildcards matches itself and nothing else.
pub proof fn law_a_plain_pattern_is_a_name(pattern: Seq<char>, name: Seq<char>)
    requires
        forall|i: int| 0 <= i < pattern.len() ==> pattern[i] != '*' && pattern[i] != '?',
    ensures
        glob(pattern, name) <==> pattern == name,
    decreases pattern.len(),
{
    if pattern.len() == 0 {
        if name.len() == 0 {
            assert(pattern =~= name);
        }
    } else {
        assert forall|i: int| 0 <= i < pattern.skip(1).len() implies pattern.skip(1)[i] != '*'
            && pattern.skip(1)[i] != '?' by {
            assert(pattern.skip(1)[i] == pattern[i + 1]);
        }
        if name.len() > 0 {
            law_a_plain_pattern_is_a_name(pattern.skip(1), name.skip(1));
            if pattern[0] == name[0] && pattern.skip(1) == name.skip(1) {
                assert(pattern =~= seq![pattern[0]] + pattern.skip(1));
                assert(name =~= seq![name[0]] + name.skip(1));
            }
        }
    }
}

/// A pattern matches piece by piece: two patterns one behind the other match
/// exactly the names that are made of what the one matches and what the other
/// matches.
pub proof fn law_patterns_match_piece_by_piece(first: Seq<char>, second: Seq<char>, name: Seq<char>)
    ensures
        glob(first + second, name) <==> exists|cut: int|
            0 <= cut <= name.len() && glob(first, #[trigger] name.take(cut)) && glob(
                second,
                name.skip(cut),
            ),
    decreases first.len() + name.len(),
{
    let whole = first + second;
    if first.len() == 0 {
        assert(whole =~= second);
        assert(name.skip(0) =~= name);
        assert(name.take(0).len() == 0);
        if glob(whole, name) {
            assert(glob(first, name.take(0)));
        }
    } else {
        let rest = first.skip(1);
        assert(whole.skip(1) =~= rest + second);
        if first[0] == '*' {
            law_patterns_match_piece_by_piece(rest, second, name);
            if name.len() > 0 {
                law_patterns_match_piece_by_piece(first, second, name.skip(1));
            }
            if glob(whole, name) {
                if glob(whole.skip(1), name) {
                    let cut = choose|cut: int|
                        0 <= cut <= name.len() && glob(rest, #[trigger] name.take(cut)) && glob(
                            second,
                            name.skip(cut),
                        );
                    assert(glob(first, name.take(cut)));
                } else {
                    let tail = name.skip(1);
                    let cut = choose|cut: int|
                        0 <= cut <= tail.len() && glob(first, #[trigger] tail.take(cut)) && glob(
                            second,
                            tail.skip(cut),
                        );
                    assert(name.take(cut + 1).skip(1) =~= tail.take(cut));
                    assert(name.skip(cut + 1) =~= tail.skip(cut));
                    assert(glob(first, name.take(cut + 1)));
                }
            }
            if exists|cut: int|
                0 <= cut <= name.len() && glob(first, #[trigger] name.take(cut)) && glob(
                    second,
                    name.skip(cut),
                ) {
                let cut = choose|cut: int|
                    0 <= cut <= name.len() && glob(first, #[trigger] name.take(cut)) && glob(
                        second,
                        name.skip(cut),
                    );
                let head = name.take(cut);
                if glob(rest, head) {
                    assert(glob(whole.skip(1), name));
                } else {
                    let tail = name.skip(1);
                    assert(head.skip(1) =~= tail.take(cut - 1));
                    assert(tail.skip(cut - 1) =~= name.skip(cut));
                    assert(glob(whole, tail));
                }
            }
        } else if name.len() > 0 {
            let tail = name.skip(1);
            law_patterns_match_piece_by_piece(rest, second, tail);
            if glob(whole, name) {
                let cut = choose|cut: int|
                    0 <= cut <= tail.len() && glob(rest, #[trigger] tail.take(cut)) && glob(
                        second,
                        tail.skip(cut),
                    );
                assert(name.take(cut + 1).skip(1) =~= tail.take(cut));
                assert(name.skip(cut + 1) =~= tail.skip(cut));
                assert(glob(first, name.take(cut + 1)));
            }
            if exists|cut: int|
                0 <= cut <= name.len() && glob(first, #[trigger] name.take(cut)) && glob(
                    second,
                    name.skip(cut),
                ) {
                let cut = choose|cut: int|
                    0 <= cut <= name.len() && glob(first, #[trigger] name.take(cut)) && glob(
                        second,
                        name.skip(cut),
                    );
                assert(cut > 0);
                assert(name.take(cut).skip(1) =~= tail.take(cut - 1));
                assert(tail.skip(cut - 1) =~= name.skip(cut));
            }
        } else {
            assert forall|cut: int| 0 <= cut <= name.len() implies !glob(
                first,
                #[trigger] name.take(cut),
            ) by {
                assert(name.take(cut).len() == 0);
            }
        }
    }
}

/// One `?` stands for any one character.
pub proof fn law_a_question_mark_is_one_character(name: Seq<char>)
    ensures
        glob(seq!['?'], name) <==> name.len() == 1,
{
    let rest = seq!['?'].skip(1);
    assert(rest =~= Seq::<char>::empty());
    if name.len() > 0 {
        assert(glob(rest, name.skip(1)) <==> name.skip(1).len() == 0);
    }
}

/// Case is no matter where it is not asked for: a name in ASCII matches
/// whatever its letters' case, and where it is asked for it is kept.
pub proof fn law_case_counts_where_asked_for(s: Seq<char>)
    ensures
        folded(s, true) == s,
        text::all_ascii(s) ==> folded(s, false) == text::ascii_lower(s),
{
}

} // verus!
