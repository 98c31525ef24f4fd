//! Finding files by name, and by what is inside them.
//!
//! What to look at and what to make of it is decided here, by a walk that is
//! handed what the directories hold and says what to do next.

use vstd::prelude::*;
use crate::encoding;
use crate::panel::glob;
use crate::text;
use crate::text::chars;
use crate::walking;

verus! {

broadcast use vstd::string::group_string_axioms;

/// How many hits are kept before a search calls it enough.
pub const MAX_HITS: usize = 5_000;

/// The longest line offered as an excerpt.
pub const MAX_EXCERPT: usize = 200;

// ---- queries ----------------------------------------------------------------------------------

/// What to look for.
#[derive(Debug, Clone, PartialEq, Eq)]
pub struct Query {
    /// A glob over the file name. Empty means every name.
    pub pattern: String,
    /// Text that must appear inside the file. Empty means do not look.
    pub contains: String,
    pub case_sensitive: bool,
    /// Whether to descend into and report dot-files.
    pub include_hidden: bool,
}

impl Default for Query {
    fn default() -> (r: Query)
        ensures
            r.pattern@.len() == 0,
            r.contains@.len() == 0,
            !r.case_sensitive,
            !r.include_hidden,
    {
        let pattern: String = String::new();
        let contains: String = String::new();
        assert(pattern@ =~= Seq::<char>::empty());
        assert(contains@ =~= Seq::<char>::empty());
        Query { pattern, contains, case_sensitive: false, include_hidden: false }
    }
}

/// The glob to match names against, with an empty box meaning everything.
pub open spec fn glob_of(query: Query) -> Seq<char> {
    if text::trimmed(query.pattern@).len() == 0 {
        "*"@
    } else {
        text::trimmed(query.pattern@)
    }
}

/// Whether a name matches what is looked for.
pub open spec fn name_matches(query: Query, name: Seq<char>) -> bool {
    glob::glob(
        glob::folded(glob_of(query), query.case_sensitive),
        glob::folded(name, query.case_sensitive),
    )
}

impl Query {
    /// Whether there is anything to search for. Every name is only a search
    /// worth running when there is also text to look for inside.
    pub fn is_empty(&self) -> (r: bool)
        ensures
            r == (glob_of(*self) == "*"@ && self.contains@.len() == 0),
    {
        text::same(self.glob(), "*") && self.contains.as_str().is_empty()
    }

    /// The glob to match names against, with an empty box meaning everything.
    pub fn glob(&self) -> (r: &str)
        ensures
            r@ == glob_of(*self),
    {
        let pattern: &str = text::trim(self.pattern.as_str());
        if pattern.is_empty() {
            "*"
        } else {
            pattern
        }
    }

    /// Whether a bare name matches, before anything is opened.
    pub fn matches_name(&self, name: &str) -> (r: bool)
        ensures
            r == name_matches(*self, name@),
    {
        glob::matches_glob_with(self.glob(), name, self.case_sensitive)
    }

    /// Whether this search has to open files to answer.
    pub fn reads_files(&self) -> (r: bool)
        ensures
            r == (self.contains@.len() > 0),
    {
        !self.contains.as_str().is_empty()
    }
}

// ---- what is inside ---------------------------------------------------------------------------

/// Whether a line holds a text.
pub open spec fn line_holds(line: Seq<char>, needle: Seq<char>, case_sensitive: bool) -> bool {
    if case_sensitive {
        text::holds(line, needle)
    } else {
        text::holds(text::lowercase(line), text::lowercase(needle))
    }
}

/// Whether `line` contains `needle`.
pub fn line_matches(line: &str, needle: &str, case_sensitive: bool) -> (r: bool)
    ensures
        r == line_holds(line@, needle@, case_sensitive),
{
    if case_sensitive {
        text::contains(line, needle)
    } else {
        text::contains(
            text::to_lowercase(line).as_str(),
            text::to_lowercase(needle).as_str(),
        )
    }
}

/// What is shown of a line: without the space around it, and not too long.
pub open spec fn excerpt(line: Seq<char>) -> Seq<char> {
    let trimmed = text::trimmed(line);
    if trimmed.len() <= MAX_EXCERPT {
        trimmed
    } else {
        trimmed.take(MAX_EXCERPT as int)
    }
}

/// What a line of a file shows where it holds a text, and nothing where it
/// does not.
pub fn excerpt_of(line: &[u8], needle: &str, case_sensitive: bool) -> (r: Option<String>)
    ensures
        text::optional(r) == if line_holds(encoding::utf8_text(line@), needle@, case_sensitive) {
            Some(excerpt(encoding::utf8_text(line@)))
        } else {
            None
        },
{
    let line: String = encoding::from_utf8_lossy(line);
    if !line_matches(line.as_str(), needle, case_sensitive) {
        return None;
    }
    let trimmed: Vec<char> = chars(text::trim(line.as_str()));
    if trimmed.len() <= MAX_EXCERPT {
        Some(text::string(&trimmed))
    } else {
        assert(trimmed@.subrange(0, MAX_EXCERPT as int) =~= trimmed@.take(MAX_EXCERPT as int));
        Some(text::part(&trimmed, 0, MAX_EXCERPT))
    }
}

/// Where the line that begins at a place ends: behind its newline, or at the
/// end of the file.
pub open spec fn line_end(bytes: Seq<u8>, from: int) -> int
    decreases bytes.len() - from,
{
    if from >= bytes.len() {
        bytes.len() as int
    } else if bytes[from] == 10 {
        from + 1
    } else {
        line_end(bytes, from + 1)
    }
}

/// The first line at or after a place that holds a text: its number, and what
/// is shown of it. `number` lines come before the place.
pub open spec fn first_match(
    bytes: Seq<u8>,
    from: int,
    number: int,
    needle: Seq<char>,
    case_sensitive: bool,
) -> Option<(int, Seq<char>)>
    decreases bytes.len() - from,
    when 0 <= from
{
    if from >= bytes.len() {
        None
    } else {
        let to = line_end(bytes, from);
        let line = encoding::utf8_text(bytes.subrange(from, to));
        if line_holds(line, needle, case_sensitive) {
            Some((number + 1, excerpt(line)))
        } else if from < to <= bytes.len() {
            first_match(bytes, to, number + 1, needle, case_sensitive)
        } else {
            None
        }
    }
}

proof fn lemma_line_end(bytes: Seq<u8>, from: int)
    requires
        0 <= from < bytes.len(),
    ensures
        from < line_end(bytes, from) <= bytes.len(),
    decreases bytes.len() - from,
{
    if bytes[from] != 10 {
        if from + 1 < bytes.len() {
            lemma_line_end(bytes, from + 1);
        } else {
            assert(line_end(bytes, from + 1) == bytes.len());
        }
    }
}

/// A line number and what is shown of the line, as characters.
pub open spec fn match_view(found: Option<(usize, String)>) -> Option<(int, Seq<char>)> {
    match found {
        Some((number, excerpt)) => Some((number as int, excerpt@)),
        None => None,
    }
}

/// The first line containing `needle`, one-based.
pub fn scan_text(bytes: &[u8], needle: &str, case_sensitive: bool) -> (r: Option<(usize, String)>)
    ensures
        match_view(r) == first_match(bytes@, 0, 0, needle@, case_sensitive),
{
    let mut from: usize = 0;
    let mut number: usize = 0;
    while from < bytes.len()
        invariant
            from <= bytes@.len(),
            number <= from,
            first_match(bytes@, 0, 0, needle@, case_sensitive) == first_match(
                bytes@,
                from as int,
                number as int,
                needle@,
                case_sensitive,
            ),
        decreases bytes@.len() - from,
    {
        proof {
            lemma_line_end(bytes@, from as int);
        }
        let to: usize = end_of_line(bytes, from);
        let line: &[u8] = vstd::slice::slice_subrange(bytes, from, to);
        number += 1;
        if let Some(excerpt) = excerpt_of(line, needle, case_sensitive) {
            return Some((number, excerpt));
        }
        from = to;
    }
    None
}

fn end_of_line(bytes: &[u8], from: usize) -> (r: usize)
    requires
        from < bytes@.len(),
    ensures
        r == line_end(bytes@, from as int),
        from < r <= bytes@.len(),
{
    proof {
        lemma_line_end(bytes@, from as int);
    }
    let mut at: usize = from;
    while at < bytes.len()
        invariant
            from <= at <= bytes@.len(),
            line_end(bytes@, from as int) == line_end(bytes@, at as int),
        decreases bytes@.len() - at,
    {
        if bytes[at] == 10 {
            return at + 1;
        }
        at += 1;
    }
    at
}

/// Look inside one file, from its bytes and whether they look like text.
/// `None` when it does not match, or is not text.
pub fn search_file(bytes: &[u8], looks_like_text: bool, query: &Query) -> (r: Option<
    (usize, String),
>)
    ensures
        match_view(r) == if looks_like_text {
            first_match(bytes@, 0, 0, query.contains@, query.case_sensitive)
        } else {
            None
        },
{
    if !looks_like_text {
        return None;
    }
    scan_text(bytes, query.contains.as_str(), query.case_sensitive)
}

// ---- walking ----------------------------------------------------------------------------------

/// What the walk does with something it came upon.
#[derive(Debug, Clone, Copy, PartialEq, Eq, Structural)]
pub enum Visit {
    /// Nothing.
    Leave,
    /// Report it.
    Report,
    /// Look inside it, and report it if the text is there.
    Read,
    /// Walk into it.
    Enter,
    /// Report it, and walk into it.
    ReportAndEnter,
}

/// Whether a name is hidden, in the sense the panels use.
pub open spec fn dotted(name: Seq<char>) -> bool {
    name.len() > 0 && name[0] == '.' && name != "."@ && name != ".."@
}

fn is_hidden(name: &str) -> (r: bool)
    ensures
        r == dotted(name@),
{
    let s: Vec<char> = chars(name);
    s.len() > 0 && s[0] == '.' && !text::same(name, ".") && !text::same(name, "..")
}

/// What a walk does with something: a directory that is no link is walked
/// into, and reported where its name alone decides.
pub open spec fn visit_of(query: Query, name: Seq<char>, is_dir: bool, is_link: bool) -> Visit {
    let matches = name_matches(query, name);
    let reads = query.contains@.len() > 0;
    if !query.include_hidden && dotted(name) {
        Visit::Leave
    } else if is_dir && !is_link {
        if !reads && matches {
            Visit::ReportAndEnter
        } else {
            Visit::Enter
        }
    } else if !matches {
        Visit::Leave
    } else if reads {
        Visit::Read
    } else {
        Visit::Report
    }
}

/// What to do with something the walk came upon.
///
/// Symbolic links to directories are not followed. Names are matched before
/// anything is opened: `*.rs` with text opens the Rust files only.
pub fn walk(query: &Query, name: &str, is_dir: bool, is_link: bool) -> (r: Visit)
    ensures
        r == visit_of(*query, name@, is_dir, is_link),
{
    if !query.include_hidden && is_hidden(name) {
        return Visit::Leave;
    }
    if is_dir && !is_link {
        return if !query.reads_files() && query.matches_name(name) {
            Visit::ReportAndEnter
        } else {
            Visit::Enter
        };
    }
    if !query.matches_name(name) {
        return Visit::Leave;
    }
    if query.reads_files() {
        Visit::Read
    } else {
        Visit::Report
    }
}

/// Something that a directory holds, as a search sees it: a link as a link.
#[derive(Debug, Clone)]
pub struct Listed {
    pub name: String,
    pub path: String,
    pub is_dir: bool,
    pub is_link: bool,
}

/// One thing for a search to do.
#[derive(Debug, Clone, PartialEq, Eq)]
pub enum Step {
    /// Look at what this directory holds.
    Look(String),
    /// Report this path.
    Report(String),
    /// Look inside this file, and report it if the text is there.
    Read(String),
}

/// One thing for a search to do, as characters.
pub enum StepView {
    Look(Seq<char>),
    Report(Seq<char>),
    Read(Seq<char>),
}

impl View for Step {
    type V = StepView;

    open spec fn view(&self) -> StepView {
        match *self {
            Step::Look(path) => StepView::Look(path@),
            Step::Report(path) => StepView::Report(path@),
            Step::Read(path) => StepView::Read(path@),
        }
    }
}

/// What there is to do about something.
pub open spec fn steps_for(query: Query, listed: Listed) -> Seq<StepView> {
    match visit_of(query, listed.name@, listed.is_dir, listed.is_link) {
        Visit::Leave => Seq::empty(),
        Visit::Report => seq![StepView::Report(listed.path@)],
        Visit::Read => seq![StepView::Read(listed.path@)],
        Visit::Enter => seq![StepView::Look(listed.path@)],
        Visit::ReportAndEnter => seq![
            StepView::Report(listed.path@),
            StepView::Look(listed.path@),
        ],
    }
}

/// What there is to do about what a directory holds, in its order.
pub open spec fn steps_in(query: Query, listing: Seq<Listed>) -> Seq<StepView>
    decreases listing.len(),
{
    if listing.len() == 0 {
        Seq::empty()
    } else {
        steps_in(query, listing.drop_last()) + steps_for(query, listing.last())
    }
}

/// A search of a tree, step by step.
///
/// `next` says what to do. Where that is to look at a directory, `listed` is
/// told what it holds: nothing, where it cannot be read. What lies below a
/// directory comes before what stands beside it.
#[derive(Debug, Clone)]
pub struct Walk {
    query: Query,
    /// The next step is the last.
    waiting: Vec<Step>,
}

/// What a search looks for, and the steps that wait, the next one first.
#[verifier::ext_equal]
pub struct WalkView {
    pub query: Query,
    pub waiting: Seq<StepView>,
}

spec fn next_first(waiting: Seq<Step>) -> Seq<StepView> {
    Seq::new(waiting.len(), |i: int| waiting[waiting.len() - 1 - i]@)
}

impl View for Walk {
    type V = WalkView;

    closed spec fn view(&self) -> WalkView {
        WalkView { query: self.query, waiting: next_first(self.waiting@) }
    }
}

fn add_steps(query: &Query, listed: Listed, steps: &mut Vec<Step>)
    ensures
        final(steps)@.map_values(|step: Step| step@) == old(steps)@.map_values(
            |step: Step| step@,
        ) + steps_for(*query, listed),
{
    let ghost was = steps@.map_values(|step: Step| step@);
    let ghost path = listed.path@;
    match walk(query, listed.name.as_str(), listed.is_dir, listed.is_link) {
        Visit::Leave => {},
        Visit::Report => {
            steps.push(Step::Report(listed.path));
        },
        Visit::Read => {
            steps.push(Step::Read(listed.path));
        },
        Visit::Enter => {
            steps.push(Step::Look(listed.path));
        },
        Visit::ReportAndEnter => {
            steps.push(Step::Report(listed.path.clone()));
            steps.push(Step::Look(listed.path));
        },
    }
    assert(steps@.map_values(|step: Step| step@) =~= was + steps_for(*query, listed));
}

impl Walk {
    pub fn new(query: Query, root: &str) -> (r: Walk)
        ensures
            r@ == (WalkView { query, waiting: seq![StepView::Look(root@)] }),
    {
        let waiting: Vec<Step> = vec![Step::Look(root.to_owned())];
        assert(next_first(waiting@) =~= seq![StepView::Look(root@)]);
        Walk { query, waiting }
    }

    /// What to do next; nothing where the search is at its end.
    pub fn next(&mut self) -> (r: Option<Step>)
        ensures
            match r {
                Some(step) => old(self)@.waiting.len() > 0 && step@ == old(self)@.waiting[0]
                    && final(self)@ == (WalkView {
                    waiting: old(self)@.waiting.skip(1),
                    ..old(self)@
                }),
                None => old(self)@.waiting.len() == 0 && final(self)@ == old(self)@,
            },
    {
        let ghost was = next_first(self.waiting@);
        let r: Option<Step> = self.waiting.pop();
        assert(r is Some ==> next_first(self.waiting@) =~= was.skip(1));
        r
    }

    /// Take in what the directory that was looked at holds: what there is to
    /// do about it comes next.
    pub fn listed(&mut self, listing: Vec<Listed>)
        ensures
            final(self)@ == (WalkView {
                waiting: steps_in(old(self)@.query, listing@) + old(self)@.waiting,
                ..old(self)@
            }),
    {
        let ghost all = listing@;
        let mut steps: Vec<Step> = Vec::new();
        assert(all.take(0) =~= Seq::<Listed>::empty());
        assert(steps@.map_values(|step: Step| step@) =~= Seq::empty());
        for listed in it: listing
            invariant
                it.seq() == all,
                steps@.map_values(|step: Step| step@) == steps_in(
                    self.query,
                    all.take(it.index() as int),
                ),
        {
            proof {
                let i = it.index() as int;
                assert(all.take(i + 1).drop_last() =~= all.take(i));
                assert(all.take(i + 1).last() == all[i]);
            }
            add_steps(&self.query, listed, &mut steps);
        }
        assert(all.take(all.len() as int) =~= all);
        let ghost query = self.query;
        let ghost later = next_first(self.waiting@);
        let ghost sooner = steps@.map_values(|step: Step| step@);
        assert(next_first(self.waiting@) =~= sooner.skip(steps@.len() as int) + later);
        while steps.len() > 0
            invariant
                self.query == query,
                steps@.len() <= sooner.len(),
                steps@.map_values(|step: Step| step@) =~= sooner.take(steps@.len() as int),
                next_first(self.waiting@) == sooner.skip(steps@.len() as int) + later,
            decreases steps@.len(),
        {
            let ghost before = next_first(self.waiting@);
            let ghost left = steps@;
            if let Some(step) = steps.pop() {
                proof {
                    assert(left.map_values(|step: Step| step@)[left.len() - 1] == step@);
                    assert(sooner[left.len() - 1] == step@);
                    assert(steps@.map_values(|step: Step| step@) =~= sooner.take(
                        steps@.len() as int,
                    ));
                }
                self.waiting.push(step);
                assert(next_first(self.waiting@) =~= seq![step@] + before);
                assert(seq![step@] + (sooner.skip(left.len() as int) + later) =~= sooner.skip(
                    left.len() - 1,
                ) + later);
            }
        }
        assert(sooner.skip(0) =~= sooner);
    }

    /// Nothing more is wanted.
    pub fn stop(&mut self)
        ensures
            final(self)@ == (WalkView { waiting: Seq::empty(), ..old(self)@ }),
    {
        self.waiting = Vec::new();
        assert(next_first(self.waiting@) =~= Seq::empty());
    }
}

/// One file the search matched.
#[derive(Debug, Clone, PartialEq, Eq)]
pub struct Hit {
    pub path: String,
    /// Where in the file the text was found, for a content search.
    pub line: Option<usize>,
    /// The matching line, trimmed and capped.
    pub excerpt: Option<String>,
}

impl Hit {
    /// A file that matched, and where, if it was looked into.
    pub fn new(path: &str, found: Option<(usize, String)>) -> (r: Hit)
        ensures
            r.path@ == path@,
            match found {
                Some((line, excerpt)) => r.line == Some(line) && r.excerpt == Some(excerpt),
                None => r.line is None && r.excerpt is None,
            },
    {
        match found {
            Some((line, excerpt)) => Hit {
                path: path.to_owned(),
                line: Some(line),
                excerpt: Some(excerpt),
            },
            None => Hit { path: path.to_owned(), line: None, excerpt: None },
        }
    }
}

/// What a running search has turned up so far.
#[derive(Debug, Clone)]
pub struct Found {
    pub hits: Vec<Hit>,
    /// Where it has got to, for the line that says it is still going.
    pub current: String,
    pub finished: bool,
    pub cancelled: bool,
    /// It stopped at [`MAX_HITS`] rather than because it ran out of tree.
    pub truncated: bool,
}

impl Default for Found {
    fn default() -> (r: Found)
        ensures
            r.hits@.len() == 0,
            r.current@.len() == 0,
            !r.finished,
            !r.cancelled,
            !r.truncated,
    {
        let current: String = String::new();
        assert(current@ =~= Seq::<char>::empty());
        Found { hits: Vec::new(), current, finished: false, cancelled: false, truncated: false }
    }
}

impl Found {
    /// Take in a file that matched. False stops the walk: the cap is reached.
    pub fn hit(&mut self, hit: Hit) -> (r: bool)
        ensures
            r == (old(self).hits@.len() + 1 < MAX_HITS),
            final(self).hits@ == old(self).hits@.push(hit),
            final(self).truncated == (old(self).truncated || !r),
            final(self).current == old(self).current,
            final(self).finished == old(self).finished,
            final(self).cancelled == old(self).cancelled,
    {
        self.hits.push(hit);
        if self.hits.len() >= MAX_HITS {
            self.truncated = true;
            return false;
        }
        true
    }

    /// Somewhere the walk has got to.
    pub fn looking_at(&mut self, path: &str)
        ensures
            final(self).current@ == path@,
            final(self).hits == old(self).hits,
            final(self).truncated == old(self).truncated,
            final(self).finished == old(self).finished,
            final(self).cancelled == old(self).cancelled,
    {
        self.current = path.to_owned();
    }

    /// Just the count, which is all a redraw needs most frames.
    pub fn count(&self) -> (r: usize)
        ensures
            r == self.hits@.len(),
    {
        self.hits.len()
    }

    /// The search is over.
    pub fn finish(&mut self, cancelled: bool)
        ensures
            final(self).finished,
            final(self).cancelled == cancelled,
            final(self).current@.len() == 0,
            final(self).hits == old(self).hits,
            final(self).truncated == old(self).truncated,
    {
        self.cancelled = cancelled;
        self.finished = true;
        let none: String = String::new();
        assert(none@ =~= Seq::<char>::empty());
        self.current = none;
    }
}

// ---- laws -------------------------------------------------------------------------------------

/// What is inside what a search does: for a directory, what there is to do
/// about what it holds. `disk` says what each directory holds.
pub open spec fn inside(query: Query, disk: spec_fn(Seq<char>) -> Seq<Listed>) -> spec_fn(
    StepView,
) -> Seq<StepView> {
    |step: StepView|
        match step {
            StepView::Look(dir) => steps_in(query, disk(dir)),
            _ => Seq::empty(),
        }
}

proof fn lemma_steps_in(query: Query, listing: Seq<Listed>)
    ensures
        forall|i: int, k: int|
            0 <= i < listing.len() && 0 <= k < steps_for(query, #[trigger] listing[i]).len()
                ==> steps_in(query, listing).contains(#[trigger] steps_for(query, listing[i])[k]),
        forall|step: StepView|
            #[trigger] steps_in(query, listing).contains(step) ==> exists|i: int|
                0 <= i < listing.len() && steps_for(query, #[trigger] listing[i]).contains(step),
    decreases listing.len(),
{
    if listing.len() > 0 {
        let front = listing.drop_last();
        let more = steps_for(query, listing.last());
        let all = steps_in(query, listing);
        lemma_steps_in(query, front);
        assert forall|i: int, k: int|
            0 <= i < listing.len() && 0 <= k < steps_for(query, #[trigger] listing[i]).len()
            implies all.contains(#[trigger] steps_for(query, listing[i])[k]) by {
            let step = steps_for(query, listing[i])[k];
            if i < front.len() {
                assert(front[i] == listing[i]);
                assert(steps_in(query, front).contains(steps_for(query, front[i])[k]));
                let at = choose|at: int|
                    0 <= at < steps_in(query, front).len() && steps_in(query, front)[at] == step;
                assert(all[at] == step);
            } else {
                assert(all[steps_in(query, front).len() + k] == step);
            }
        }
        assert forall|step: StepView| #[trigger] all.contains(step) implies exists|i: int|
            0 <= i < listing.len() && steps_for(query, #[trigger] listing[i]).contains(step) by {
            let at = choose|at: int| 0 <= at < all.len() && all[at] == step;
            if at < steps_in(query, front).len() {
                assert(steps_in(query, front)[at] == step);
                assert(steps_in(query, front).contains(step));
                let i = choose|i: int|
                    0 <= i < front.len() && steps_for(query, #[trigger] front[i]).contains(step);
                assert(listing[i] == front[i]);
            } else {
                assert(more[at - steps_in(query, front).len()] == step);
                assert(listing[listing.len() - 1] == listing.last());
            }
        }
    }
}

/// A search of a tree that ends comes to its end, having done everything there
/// is to do in the tree, in its order.
pub proof fn law_a_search_covers_the_tree(
    query: Query,
    disk: spec_fn(Seq<char>) -> Seq<Listed>,
    root: Seq<char>,
    depth: nat,
)
    requires
        walking::ends(inside(query, disk), seq![StepView::Look(root)], depth),
    ensures
        ({
            let start = seq![StepView::Look(root)];
            let tree = walking::in_order(inside(query, disk), start, depth);
            &&& walking::taken(inside(query, disk), start, tree.len()) == tree
            &&& walking::left(inside(query, disk), start, tree.len()).len() == 0
        }),
{
    walking::law_a_walk_takes_the_whole_tree(
        inside(query, disk),
        seq![StepView::Look(root)],
        depth,
    );
}

/// Everything that a search comes upon gets what its name asks for: it is
/// reported, read or looked into, and nothing that asks for it is left out.
pub proof fn law_everything_that_matches_is_reported(
    query: Query,
    disk: spec_fn(Seq<char>) -> Seq<Listed>,
    root: Seq<char>,
    depth: nat,
    dir: Seq<char>,
    at: int,
    k: int,
)
    requires
        walking::ends(inside(query, disk), seq![StepView::Look(root)], depth),
        walking::in_order(inside(query, disk), seq![StepView::Look(root)], depth).contains(
            StepView::Look(dir),
        ),
        0 <= at < disk(dir).len(),
        0 <= k < steps_for(query, disk(dir)[at]).len(),
    ensures
        walking::in_order(inside(query, disk), seq![StepView::Look(root)], depth).contains(
            steps_for(query, disk(dir)[at])[k],
        ),
{
    let start = seq![StepView::Look(root)];
    walking::law_a_tree_holds_what_is_inside(inside(query, disk), start, depth);
    lemma_steps_in(query, disk(dir));
    let step = steps_for(query, disk(dir)[at])[k];
    let steps = inside(query, disk)(StepView::Look(dir));
    assert(steps == steps_in(query, disk(dir)));
    assert(steps.contains(step));
    let i = choose|i: int| 0 <= i < steps.len() && steps[i] == step;
    assert(inside(query, disk)(StepView::Look(dir))[i] == step);
}

/// Nothing is reported or read that does not ask for it: all a search does
/// but looking at its root is for something that a directory it looked at
/// holds.
pub proof fn law_nothing_else_is_reported(
    query: Query,
    disk: spec_fn(Seq<char>) -> Seq<Listed>,
    root: Seq<char>,
    depth: nat,
    step: StepView,
)
    requires
        walking::in_order(inside(query, disk), seq![StepView::Look(root)], depth).contains(step),
        step != StepView::Look(root),
    ensures
        exists|dir: Seq<char>, at: int|
            #![trigger disk(dir)[at]]
            walking::in_order(inside(query, disk), seq![StepView::Look(root)], depth).contains(
                StepView::Look(dir),
            ) && 0 <= at < disk(dir).len() && steps_for(query, disk(dir)[at]).contains(step),
{
    let start = seq![StepView::Look(root)];
    let tree = walking::in_order(inside(query, disk), start, depth);
    walking::law_a_tree_holds_nothing_else(inside(query, disk), start, depth, step);
    if start.contains(step) {
        assert(step == StepView::Look(root));
    }
    let from = choose|from: StepView|
        #![trigger inside(query, disk)(from)]
        tree.contains(from) && inside(query, disk)(from).contains(step);
    match from {
        StepView::Look(dir) => {
            lemma_steps_in(query, disk(dir));
            assert(steps_in(query, disk(dir)).contains(step));
            let at = choose|at: int|
                0 <= at < disk(dir).len() && steps_for(query, #[trigger] disk(dir)[at]).contains(
                    step,
                );
            assert(steps_for(query, disk(dir)[at]).contains(step));
        },
        _ => {
            assert(inside(query, disk)(from).len() == 0);
        },
    }
}

/// A link is never walked into, so the walk comes to an end.
pub proof fn law_links_are_not_followed(query: Query, name: Seq<char>, is_dir: bool)
    ensures
        visit_of(query, name, is_dir, true) != Visit::Enter,
        visit_of(query, name, is_dir, true) != Visit::ReportAndEnter,
{
}

/// An empty pattern matches every name.
pub proof fn law_an_empty_pattern_matches_every_name(query: Query, name: Seq<char>)
    requires
        text::trimmed(query.pattern@).len() == 0,
    ensures
        name_matches(query, name),
{
    reveal_strlit("*");
    assert("*"@ =~= seq!['*']);
    assert(text::ascii_lower(seq!['*']) =~= seq!['*']);
    glob::law_a_star_matches_anything(glob::folded(name, query.case_sensitive));
}

/// What is shown of a line is never longer than it may be.
pub proof fn law_excerpts_are_short(line: Seq<char>)
    ensures
        excerpt(line).len() <= MAX_EXCERPT,
{
}

/// Whether the bytes from `from` up to `to` are a line of a file: they begin
/// at its start or behind a newline, end behind the next newline or at the end
/// of the file, and have no other newline in them.
pub open spec fn is_line(bytes: Seq<u8>, from: int, to: int) -> bool {
    &&& 0 <= from < to <= bytes.len()
    &&& from == 0 || bytes[from - 1] == 10
    &&& to == bytes.len() || bytes[to - 1] == 10
    &&& forall|k: int| from <= k < to - 1 ==> bytes[k] != 10
}

/// How many newlines stand before a place.
pub open spec fn newlines_before(bytes: Seq<u8>, place: int) -> int
    decreases place,
{
    if place <= 0 {
        0
    } else {
        newlines_before(bytes, place - 1) + if bytes[place - 1] == 10 {
            1int
        } else {
            0int
        }
    }
}

/// Whether a line of a file holds a text.
pub open spec fn holds_at(
    bytes: Seq<u8>,
    from: int,
    to: int,
    needle: Seq<char>,
    case_sensitive: bool,
) -> bool {
    line_holds(encoding::utf8_text(bytes.subrange(from, to)), needle, case_sensitive)
}

proof fn lemma_line_is(bytes: Seq<u8>, from: int, to: int)
    requires
        is_line(bytes, from, to),
    ensures
        line_end(bytes, from) == to,
    decreases to - from,
{
    if bytes[from] != 10 {
        if from + 1 < to {
            lemma_rest_of_line(bytes, from + 1, to);
        } else {
            assert(line_end(bytes, from + 1) == bytes.len());
        }
    } else if from + 1 < to {
        assert(bytes[from] != 10);
    }
}

proof fn lemma_rest_of_line(bytes: Seq<u8>, from: int, to: int)
    requires
        0 <= from < to <= bytes.len(),
        to == bytes.len() || bytes[to - 1] == 10,
        forall|k: int| from <= k < to - 1 ==> bytes[k] != 10,
    ensures
        line_end(bytes, from) == to,
    decreases to - from,
{
    if from + 1 < to {
        assert(bytes[from] != 10);
        lemma_rest_of_line(bytes, from + 1, to);
    } else if bytes[from] != 10 {
        assert(line_end(bytes, from + 1) == bytes.len());
    }
}

proof fn lemma_line_end_is(bytes: Seq<u8>, from: int)
    requires
        0 <= from < bytes.len(),
    ensures
        ({
            let to = line_end(bytes, from);
            &&& from < to <= bytes.len()
            &&& to == bytes.len() || bytes[to - 1] == 10
            &&& forall|k: int| from <= k < to - 1 ==> bytes[k] != 10
        }),
    decreases bytes.len() - from,
{
    if bytes[from] != 10 {
        if from + 1 < bytes.len() {
            lemma_line_end_is(bytes, from + 1);
        } else {
            assert(line_end(bytes, from + 1) == bytes.len());
        }
    }
}

proof fn lemma_newlines_in_line(bytes: Seq<u8>, from: int, to: int)
    requires
        0 <= from <= to <= bytes.len(),
        forall|k: int| from <= k < to ==> bytes[k] != 10,
    ensures
        newlines_before(bytes, to) == newlines_before(bytes, from),
    decreases to - from,
{
    if from < to {
        lemma_newlines_in_line(bytes, from, to - 1);
    }
}

/// What the search of a file answers where nothing in front of a place holds
/// the text.
spec fn answers(
    found: Option<(int, Seq<char>)>,
    bytes: Seq<u8>,
    place: int,
    needle: Seq<char>,
    case_sensitive: bool,
) -> bool {
    match found {
        Some((number, shown)) => exists|from: int, to: int|
            {
                &&& #[trigger] is_line(bytes, from, to)
                &&& place <= from
                &&& number == newlines_before(bytes, from) + 1
                &&& holds_at(bytes, from, to, needle, case_sensitive)
                &&& shown == excerpt(encoding::utf8_text(bytes.subrange(from, to)))
                &&& forall|f: int, t: int| #[trigger]
                    is_line(bytes, f, t) && place <= f < from ==> !holds_at(
                        bytes,
                        f,
                        t,
                        needle,
                        case_sensitive,
                    )
            },
        None => forall|f: int, t: int| #[trigger]
            is_line(bytes, f, t) && place <= f ==> !holds_at(bytes, f, t, needle, case_sensitive),
    }
}

proof fn lemma_first_match(
    bytes: Seq<u8>,
    place: int,
    number: int,
    needle: Seq<char>,
    case_sensitive: bool,
)
    requires
        0 <= place <= bytes.len(),
        place == 0 || place == bytes.len() || bytes[place - 1] == 10,
        place < bytes.len() ==> number == newlines_before(bytes, place),
    ensures
        answers(
            first_match(bytes, place, number, needle, case_sensitive),
            bytes,
            place,
            needle,
            case_sensitive,
        ),
    decreases bytes.len() - place,
{
    if place < bytes.len() {
        let to = line_end(bytes, place);
        lemma_line_end_is(bytes, place);
        assert(is_line(bytes, place, to));
        if !holds_at(bytes, place, to, needle, case_sensitive) {
            if to < bytes.len() {
                lemma_newlines_in_line(bytes, place, to - 1);
            }
            lemma_first_match(bytes, to, number + 1, needle, case_sensitive);
            let found = first_match(bytes, to, number + 1, needle, case_sensitive);
            assert(found == first_match(bytes, place, number, needle, case_sensitive));
            assert forall|f: int, t: int| #[trigger]
                is_line(bytes, f, t) && place <= f < to implies !holds_at(
                bytes,
                f,
                t,
                needle,
                case_sensitive,
            ) by {
                if f == place {
                    lemma_line_is(bytes, f, t);
                } else {
                    assert(bytes[f - 1] == 10);
                    assert(f - 1 < to - 1);
                }
            }
            if let Some((n, shown)) = found {
                let (from, end) = choose|from: int, end: int|
                    {
                        &&& #[trigger] is_line(bytes, from, end)
                        &&& to <= from
                        &&& n == newlines_before(bytes, from) + 1
                        &&& holds_at(bytes, from, end, needle, case_sensitive)
                        &&& shown == excerpt(encoding::utf8_text(bytes.subrange(from, end)))
                        &&& forall|f: int, t: int| #[trigger]
                            is_line(bytes, f, t) && to <= f < from ==> !holds_at(
                                bytes,
                                f,
                                t,
                                needle,
                                case_sensitive,
                            )
                    };
                assert(is_line(bytes, from, end));
            }
        }
    }
}

/// The search of a file finds the first of its lines that holds the text,
/// says its number and shows it; it finds nothing only where no line of the
/// whole file holds the text.
pub proof fn law_the_first_line_that_holds_the_text_is_found(
    bytes: Seq<u8>,
    needle: Seq<char>,
    case_sensitive: bool,
)
    ensures
        match first_match(bytes, 0, 0, needle, case_sensitive) {
            Some((number, shown)) => exists|from: int, to: int|
                {
                    &&& #[trigger] is_line(bytes, from, to)
                    &&& number == newlines_before(bytes, from) + 1
                    &&& holds_at(bytes, from, to, needle, case_sensitive)
                    &&& shown == excerpt(encoding::utf8_text(bytes.subrange(from, to)))
                    &&& forall|f: int, t: int| #[trigger]
                        is_line(bytes, f, t) && f < from ==> !holds_at(
                            bytes,
                            f,
                            t,
                            needle,
                            case_sensitive,
                        )
                },
            None => forall|f: int, t: int| #[trigger]
                is_line(bytes, f, t) ==> !holds_at(bytes, f, t, needle, case_sensitive),
        },
{
    lemma_first_match(bytes, 0, 0, needle, case_sensitive);
    if let Some((number, shown)) = first_match(bytes, 0, 0, needle, case_sensitive) {
        let (from, to) = choose|from: int, to: int|
            {
                &&& #[trigger] is_line(bytes, from, to)
                &&& 0 <= from
                &&& number == newlines_before(bytes, from) + 1
                &&& holds_at(bytes, from, to, needle, case_sensitive)
                &&& shown == excerpt(encoding::utf8_text(bytes.subrange(from, to)))
                &&& forall|f: int, t: int| #[trigger]
                    is_line(bytes, f, t) && 0 <= f < from ==> !holds_at(
                        bytes,
                        f,
                        t,
                        needle,
                        case_sensitive,
                    )
            };
        assert(is_line(bytes, from, to));
    }
}

/// A line holds a text, with its case, exactly where it is made of something,
/// the text and something more.
pub proof fn law_a_line_holds_what_stands_in_it(
    line: Seq<char>,
    needle: Seq<char>,
    before: Seq<char>,
    behind: Seq<char>,
)
    ensures
        line_holds(before + needle + behind, needle, true),
        line_holds(line, needle, true) ==> exists|at: int|
            0 <= at <= line.len() - needle.len() && line == #[trigger] line.take(at) + needle
                + line.skip(at + needle.len()),
{
    let whole = before + needle + behind;
    assert(whole.subrange(before.len() as int, (before.len() + needle.len()) as int) =~= needle);
    assert(text::stands_at(whole, needle, before.len() as int));
    if line_holds(line, needle, true) {
        let at = choose|at: int| text::stands_at(line, needle, at);
        assert(line =~= line.take(at) + needle + line.skip(at + needle.len())) by {
            assert(needle == line.subrange(at, at + needle.len()));
        }
    }
}

/// Without its case a line holds a text exactly where the line in small
/// letters holds the text in small letters: in ASCII, whatever the case of
/// either.
pub proof fn law_case_is_left_out_where_asked(line: Seq<char>, needle: Seq<char>)
    requires
        text::all_ascii(line),
        text::all_ascii(needle),
    ensures
        line_holds(line, needle, false) == line_holds(
            text::ascii_lower(line),
            text::ascii_lower(needle),
            true,
        ),
        line_holds(line, needle, true) ==> line_holds(line, needle, false),
{
    if line_holds(line, needle, true) {
        let at = choose|at: int| text::stands_at(line, needle, at);
        let (small, sought) = (text::ascii_lower(line), text::ascii_lower(needle));
        assert(small.subrange(at, at + sought.len()) =~= sought) by {
            assert forall|k: int| 0 <= k < sought.len() implies small[at + k] == sought[k] by {
                assert(line.subrange(at, at + needle.len())[k] == needle[k]);
            }
        }
        assert(text::stands_at(small, sought, at));
    }
}

/// What is shown of a line is the line without the space around it, and where
/// that is longer than 200 characters, the first 200.
pub proof fn law_an_excerpt_begins_the_line(line: Seq<char>)
    ensures
        text::trimmed(line).len() <= 200 ==> excerpt(line) == text::trimmed(line),
        text::trimmed(line).len() > 200 ==> excerpt(line).len() == 200 && excerpt(line)
            == text::trimmed(line).take(200),
{
}

/// A pattern without wildcards asks for the one name, whatever the space
/// around it.
pub proof fn law_a_plain_pattern_asks_for_one_name(query: Query, name: Seq<char>)
    requires
        query.case_sensitive,
        text::trimmed(query.pattern@).len() > 0,
        forall|i: int|
            0 <= i < text::trimmed(query.pattern@).len() ==> text::trimmed(query.pattern@)[i] != '*'
                && text::trimmed(query.pattern@)[i] != '?',
    ensures
        name_matches(query, name) <==> name == text::trimmed(query.pattern@),
{
    glob::law_a_plain_pattern_is_a_name(text::trimmed(query.pattern@), name);
}

/// What a search does with what it comes upon. A hidden name is left alone
/// where hidden ones were not asked for. Of the others a directory that is no
/// link is walked into, whatever its name; what matches is reported where no
/// text is sought; and where one is, what matches and is no such directory is
/// read.
pub proof fn law_what_a_search_does_with_a_name(
    query: Query,
    name: Seq<char>,
    is_dir: bool,
    is_link: bool,
)
    ensures
        ({
            let visit = visit_of(query, name, is_dir, is_link);
            let hidden = name.len() > 0 && name[0] == '.' && name != seq!['.'] && name
                != seq!['.', '.'];
            let seen = query.include_hidden || !hidden;
            let sought = query.contains@.len() > 0;
            &&& (visit == Visit::Enter || visit == Visit::ReportAndEnter) <==> seen && is_dir
                && !is_link
            &&& (visit == Visit::Report || visit == Visit::ReportAndEnter) <==> seen
                && name_matches(query, name) && !sought
            &&& visit == Visit::Read <==> seen && name_matches(query, name) && sought && !(is_dir
                && !is_link)
        }),
{
    reveal_strlit(".");
    reveal_strlit("..");
    assert("."@ =~= seq!['.']);
    assert(".."@ =~= seq!['.', '.']);
}

/// What a directory holds is taken in the order it is listed, and each thing
/// by itself.
pub proof fn law_a_listing_is_taken_in_order(query: Query, first: Seq<Listed>, second: Seq<Listed>)
    ensures
        steps_in(query, first + second) == steps_in(query, first) + steps_in(query, second),
    decreases second.len(),
{
    let all = first + second;
    if second.len() == 0 {
        assert(all =~= first);
        assert(steps_in(query, first) + steps_in(query, second) =~= steps_in(query, first));
    } else {
        assert(all.drop_last() =~= first + second.drop_last());
        law_a_listing_is_taken_in_order(query, first, second.drop_last());
        assert(steps_in(query, all) =~= steps_in(query, first) + steps_in(query, second));
    }
}

/// Every step is for the path of what was listed: the one reported, read or
/// looked into is the one that was come upon, and reporting comes before
/// looking inside.
pub proof fn law_each_step_is_for_what_was_listed(query: Query, listed: Listed)
    ensures
        ({
            let steps = steps_for(query, listed);
            let visit = visit_of(query, listed.name@, listed.is_dir, listed.is_link);
            &&& steps.contains(StepView::Report(listed.path@)) <==> visit == Visit::Report || visit
                == Visit::ReportAndEnter
            &&& steps.contains(StepView::Read(listed.path@)) <==> visit == Visit::Read
            &&& steps.contains(StepView::Look(listed.path@)) <==> visit == Visit::Enter || visit
                == Visit::ReportAndEnter
            &&& steps.len() <= 2
            &&& steps.len() == 2 ==> steps[0] == StepView::Report(listed.path@)
            &&& steps.len() == 0 <==> visit == Visit::Leave
        }),
{
    let steps = steps_for(query, listed);
    if steps.len() > 0 {
        assert(steps.contains(steps[0]));
        assert(steps.contains(steps[steps.len() - 1]));
    }
}

/// Where case is no matter a plain pattern asks for a name whatever the case
/// of either.
pub proof fn law_a_pattern_may_leave_case_out(query: Query, name: Seq<char>)
    requires
        !query.case_sensitive,
        text::trimmed(query.pattern@).len() > 0,
        text::all_ascii(text::trimmed(query.pattern@)),
        text::all_ascii(name),
        forall|i: int|
            0 <= i < text::trimmed(query.pattern@).len() ==> text::trimmed(query.pattern@)[i] != '*'
                && text::trimmed(query.pattern@)[i] != '?',
    ensures
        name_matches(query, name) <==> text::ascii_lower(name) == text::ascii_lower(
            text::trimmed(query.pattern@),
        ),
{
    let small = text::ascii_lower(text::trimmed(query.pattern@));
    assert forall|i: int| 0 <= i < small.len() implies small[i] != '*' && small[i] != '?' by {
        let c = text::trimmed(query.pattern@)[i];
        assert(c != '*' && c != '?');
    }
    glob::law_a_plain_pattern_is_a_name(small, text::ascii_lower(name));
}

} // verus!
