//! Finding files that are the same file twice.
//!
//! Nothing here reports a duplicate of which not both copies were read:
//! hashing is used to narrow, never to conclude, and every group is confirmed
//! byte for byte before it is shown. Most files are never read at all: files
//! are grouped by size first, and only inside a size group is anything read.
//!
//! Hard links are left out of it. Two names for one file are trivially
//! identical and deleting one reclaims nothing.

use std::collections::{HashMap, HashSet};
use vstd::prelude::*;
use crate::entry;
use crate::order;
use crate::pathname;
use crate::pathname::Style;
use crate::text;
use crate::walking;

verus! {

broadcast use {vstd::string::group_string_axioms, vstd::std_specs::hash::group_hash_axioms};

/// How many groups a scan collects before it calls it enough.
pub const MAX_GROUPS: usize = 5_000;

/// Where a hash begins.
pub const FNV_OFFSET: u64 = 0xcbf2_9ce4_8422_2325;

/// What a hash is multiplied by, byte for byte.
pub const FNV_PRIME: u64 = 0x0000_0100_0000_01b3;

/// What a scan should look at.
#[derive(Debug, Clone, Copy, PartialEq, Eq, Structural)]
pub struct Options {
    pub include_hidden: bool,
    /// Files smaller than this are not worth reporting. Empty files are all
    /// copies of each other, which is true and useless.
    pub smallest: u64,
}

impl Default for Options {
    fn default() -> (r: Options)
        ensures
            !r.include_hidden,
            r.smallest == 1,
    {
        Options { include_hidden: false, smallest: 1 }
    }
}

// ---- groups -----------------------------------------------------------------------------------

/// One copy, and whether it is one of the ones to go.
#[derive(Debug, Clone, PartialEq, Eq)]
pub struct Copy {
    pub path: String,
    /// Ticked by hand. Nothing is ticked to start with.
    pub remove: bool,
}

/// One copy, with its path as characters.
#[verifier::ext_equal]
pub struct CopyView {
    pub path: Seq<char>,
    pub remove: bool,
}

impl View for Copy {
    type V = CopyView;

    open spec fn view(&self) -> CopyView {
        CopyView { path: self.path@, remove: self.remove }
    }
}

/// A set of files that are byte for byte the same.
#[derive(Debug, Clone, PartialEq, Eq)]
pub struct Group {
    /// What each copy weighs.
    pub size: u64,
    pub copies: Vec<Copy>,
}

/// A set of copies, with their paths as characters.
#[verifier::ext_equal]
pub struct GroupView {
    pub size: u64,
    pub copies: Seq<CopyView>,
}

/// Copies with their paths as characters.
pub open spec fn copy_views(copies: Seq<Copy>) -> Seq<CopyView> {
    copies.map_values(|copy: Copy| copy@)
}

impl View for Group {
    type V = GroupView;

    open spec fn view(&self) -> GroupView {
        GroupView { size: self.size, copies: copy_views(self.copies@) }
    }
}

/// Groups with their paths as characters.
pub open spec fn group_views(groups: Seq<Group>) -> Seq<GroupView> {
    groups.map_values(|group: Group| group@)
}

/// How many of some copies are kept.
pub open spec fn kept_in(copies: Seq<CopyView>) -> nat
    decreases copies.len(),
{
    if copies.len() == 0 {
        0
    } else {
        kept_in(copies.drop_last()) + (if copies.last().remove {
            0nat
        } else {
            1
        })
    }
}

/// How many of some copies are ticked.
pub open spec fn ticked_in(copies: Seq<CopyView>) -> nat {
    (copies.len() - kept_in(copies)) as nat
}

/// Whether a copy can be ticked, or unticked: the last one kept cannot go.
pub open spec fn may_toggle(copies: Seq<CopyView>, index: int) -> bool {
    0 <= index < copies.len() && (copies[index].remove || kept_in(copies) > 1)
}

/// Copies with one ticked or unticked.
pub open spec fn toggled(copies: Seq<CopyView>, index: int) -> Seq<CopyView> {
    if may_toggle(copies, index) {
        copies.update(
            index,
            CopyView { remove: !copies[index].remove, path: copies[index].path },
        )
    } else {
        copies
    }
}

/// Copies with all but the first ticked.
pub open spec fn first_kept(copies: Seq<CopyView>) -> Seq<CopyView> {
    copies.map(|at: int, copy: CopyView| CopyView { remove: at > 0, path: copy.path })
}

/// Copies with none ticked.
pub open spec fn all_kept(copies: Seq<CopyView>) -> Seq<CopyView> {
    copies.map_values(|copy: CopyView| CopyView { remove: false, path: copy.path })
}

impl Group {
    pub fn new(size: u64, paths: Vec<String>) -> (r: Group)
        ensures
            r@ == (GroupView {
                size,
                copies: text::views(paths@).map_values(
                    |path: Seq<char>| CopyView { path, remove: false },
                ),
            }),
    {
        let ghost given = paths@;
        let ghost wanted = text::views(given).map_values(
            |path: Seq<char>| CopyView { path, remove: false },
        );
        let mut copies: Vec<Copy> = Vec::new();
        for path in it: paths
            invariant
                it.seq() == given,
                wanted == text::views(given).map_values(
                    |path: Seq<char>| CopyView { path, remove: false },
                ),
                copy_views(copies@) =~= wanted.take(it.index() as int),
        {
            let ghost was = copy_views(copies@);
            let copy: Copy = Copy { path, remove: false };
            copies.push(copy);
            assert(copy_views(copies@) =~= was.push(copy@));
        }
        assert(copy_views(copies@) =~= wanted);
        Group { size, copies }
    }

    pub fn keeping(&self) -> (r: usize)
        ensures
            r == kept_in(self@.copies),
            r <= self@.copies.len(),
    {
        let ghost views = self@.copies;
        let mut count: usize = 0;
        let mut i: usize = 0;
        assert(views.take(0) =~= Seq::<CopyView>::empty());
        while i < self.copies.len()
            invariant
                i <= self.copies@.len(),
                views == self@.copies,
                count <= i,
                count == kept_in(views.take(i as int)),
            decreases self.copies@.len() - i,
        {
            proof {
                assert(views.take(i + 1).drop_last() =~= views.take(i as int));
                assert(views.take(i + 1).last() == self.copies@[i as int]@);
            }
            if !self.copies[i].remove {
                count += 1;
            }
            i += 1;
        }
        assert(views.take(i as int) =~= views);
        count
    }

    /// Whether this one can still be ticked, or unticked. The last copy
    /// cannot go.
    pub fn can_remove(&self, index: usize) -> (r: bool)
        ensures
            r == may_toggle(self@.copies, index as int),
    {
        if index >= self.copies.len() {
            return false;
        }
        assert(self@.copies[index as int] == self.copies@[index as int]@);
        self.copies[index].remove || self.keeping() > 1
    }

    fn set_remove(&mut self, index: usize, remove: bool)
        requires
            index < old(self)@.copies.len(),
        ensures
            final(self)@ == (GroupView {
                copies: old(self)@.copies.update(
                    index as int,
                    CopyView { remove, path: old(self)@.copies[index as int].path },
                ),
                ..old(self)@
            }),
    {
        let ghost was = self@.copies;
        let copy: &mut Copy = &mut self.copies[index];
        copy.remove = remove;
        assert(copy_views(self.copies@) =~= was.update(
            index as int,
            CopyView { remove, path: was[index as int].path },
        ));
    }

    /// Tick or untick one copy, refusing to tick the last one kept.
    pub fn toggle(&mut self, index: usize) -> (r: bool)
        ensures
            r == may_toggle(old(self)@.copies, index as int),
            final(self)@ == (GroupView {
                copies: toggled(old(self)@.copies, index as int),
                ..old(self)@
            }),
    {
        if !self.can_remove(index) {
            return false;
        }
        assert(self@.copies[index as int] == self.copies@[index as int]@);
        let remove: bool = !self.copies[index].remove;
        self.set_remove(index, remove);
        true
    }

    /// Tick everything but the first, which is the whole point in one press.
    pub fn keep_first(&mut self)
        ensures
            final(self)@ == (GroupView {
                copies: first_kept(old(self)@.copies),
                ..old(self)@
            }),
    {
        let ghost given = self@.copies;
        let ghost wanted = first_kept(given);
        let mut i: usize = 0;
        while i < self.copies.len()
            invariant
                i <= self@.copies.len(),
                self@.copies.len() == given.len(),
                given == old(self)@.copies,
                wanted == first_kept(given),
                self@.size == old(self)@.size,
                self@.copies =~= wanted.take(i as int) + given.skip(i as int),
            decreases self@.copies.len() - i,
        {
            self.set_remove(i, i > 0);
            assert(self@.copies =~= wanted.take(i + 1) + given.skip(i + 1));
            i += 1;
        }
        assert(self@.copies =~= wanted);
    }

    pub fn keep_all(&mut self)
        ensures
            final(self)@ == (GroupView { copies: all_kept(old(self)@.copies), ..old(self)@ }),
    {
        let ghost given = self@.copies;
        let ghost wanted = all_kept(given);
        let mut i: usize = 0;
        while i < self.copies.len()
            invariant
                i <= self@.copies.len(),
                self@.copies.len() == given.len(),
                given == old(self)@.copies,
                wanted == all_kept(given),
                self@.size == old(self)@.size,
                self@.copies =~= wanted.take(i as int) + given.skip(i as int),
            decreases self@.copies.len() - i,
        {
            self.set_remove(i, false);
            assert(self@.copies =~= wanted.take(i + 1) + given.skip(i + 1));
            i += 1;
        }
        assert(self@.copies =~= wanted);
    }

    /// What ticking these would give back.
    pub fn reclaimed(&self) -> (r: u64)
        requires
            ticked_in(self@.copies) * self.size <= u64::MAX,
        ensures
            r == ticked_in(self@.copies) * self.size,
    {
        let count: u64 = (self.copies.len() - self.keeping()) as u64;
        count * self.size
    }
}

/// The paths ticked in some copies.
pub open spec fn paths_ticked(copies: Seq<CopyView>) -> Seq<Seq<char>>
    decreases copies.len(),
{
    if copies.len() == 0 {
        Seq::empty()
    } else if copies.last().remove {
        paths_ticked(copies.drop_last()).push(copies.last().path)
    } else {
        paths_ticked(copies.drop_last())
    }
}

/// The paths ticked across some groups.
pub open spec fn all_ticked(groups: Seq<GroupView>) -> Seq<Seq<char>>
    decreases groups.len(),
{
    if groups.len() == 0 {
        Seq::empty()
    } else {
        all_ticked(groups.drop_last()) + paths_ticked(groups.last().copies)
    }
}

/// How many copies are ticked across some groups.
pub open spec fn count_ticked(groups: Seq<GroupView>) -> nat
    decreases groups.len(),
{
    if groups.len() == 0 {
        0
    } else {
        count_ticked(groups.drop_last()) + ticked_in(groups.last().copies)
    }
}

/// What the ticked copies of some groups weigh.
pub open spec fn weight_ticked(groups: Seq<GroupView>) -> nat
    decreases groups.len(),
{
    if groups.len() == 0 {
        0
    } else {
        weight_ticked(groups.drop_last()) + ticked_in(groups.last().copies) * (
        groups.last().size as nat)
    }
}

/// What all copies but one of each group weigh.
pub open spec fn weight_wasted(groups: Seq<GroupView>) -> nat
    decreases groups.len(),
{
    if groups.len() == 0 {
        0
    } else {
        weight_wasted(groups.drop_last()) + ((groups.last().copies.len() - 1) as nat) * (
        groups.last().size as nat)
    }
}

proof fn lemma_counts_grow(groups: Seq<GroupView>, to: int)
    requires
        0 <= to <= groups.len(),
    ensures
        count_ticked(groups.take(to)) <= count_ticked(groups),
        weight_ticked(groups.take(to)) <= weight_ticked(groups),
        weight_wasted(groups.take(to)) <= weight_wasted(groups),
    decreases groups.len() - to,
{
    if to < groups.len() {
        lemma_counts_grow(groups, to + 1);
        assert(groups.take(to + 1).drop_last() =~= groups.take(to));
    } else {
        assert(groups.take(to) =~= groups);
    }
}

/// Everything ticked across every group.
pub fn to_remove(groups: &[Group]) -> (r: Vec<String>)
    ensures
        text::views(r@) == all_ticked(group_views(groups@)),
{
    let ghost all = group_views(groups@);
    let mut out: Vec<String> = Vec::new();
    let mut g: usize = 0;
    assert(all.take(0) =~= Seq::<GroupView>::empty());
    assert(text::views(out@) =~= Seq::empty());
    while g < groups.len()
        invariant
            g <= groups@.len(),
            all == group_views(groups@),
            text::views(out@) == all_ticked(all.take(g as int)),
        decreases groups@.len() - g,
    {
        let ghost base = text::views(out@);
        let ghost copies = groups@[g as int]@.copies;
        proof {
            assert(all.take(g + 1).drop_last() =~= all.take(g as int));
            assert(all.take(g + 1).last() == groups@[g as int]@);
            assert(copies.take(0) =~= Seq::<CopyView>::empty());
            assert(base + paths_ticked(copies.take(0)) =~= base);
        }
        let mut i: usize = 0;
        while i < groups[g].copies.len()
            invariant
                g < groups@.len(),
                i <= groups@[g as int].copies@.len(),
                copies == groups@[g as int]@.copies,
                text::views(out@) == base + paths_ticked(copies.take(i as int)),
            decreases groups@[g as int].copies@.len() - i,
        {
            proof {
                assert(copies.take(i + 1).drop_last() =~= copies.take(i as int));
                assert(copies.take(i + 1).last() == groups@[g as int].copies@[i as int]@);
            }
            if groups[g].copies[i].remove {
                let ghost was = text::views(out@);
                out.push(groups[g].copies[i].path.clone());
                assert(text::views(out@) =~= was.push(copies[i as int].path));
                assert(text::views(out@) =~= base + paths_ticked(copies.take(i + 1)));
            }
            i += 1;
        }
        assert(copies.take(i as int) =~= copies);
        g += 1;
    }
    assert(all.take(g as int) =~= all);
    out
}

/// How many copies are ticked, without building the list of them.
pub fn ticked(groups: &[Group]) -> (r: usize)
    requires
        count_ticked(group_views(groups@)) <= usize::MAX,
    ensures
        r == count_ticked(group_views(groups@)),
{
    let ghost all = group_views(groups@);
    let mut count: usize = 0;
    let mut g: usize = 0;
    assert(all.take(0) =~= Seq::<GroupView>::empty());
    while g < groups.len()
        invariant
            g <= groups@.len(),
            all == group_views(groups@),
            count_ticked(all) <= usize::MAX,
            count == count_ticked(all.take(g as int)),
        decreases groups@.len() - g,
    {
        proof {
            assert(all.take(g + 1).drop_last() =~= all.take(g as int));
            assert(all.take(g + 1).last() == groups@[g as int]@);
            lemma_counts_grow(all, g + 1);
        }
        count = count + (groups[g].copies.len() - groups[g].keeping());
        g += 1;
    }
    assert(all.take(g as int) =~= all);
    count
}

/// What the whole selection would give back.
pub fn reclaimed(groups: &[Group]) -> (r: u64)
    requires
        weight_ticked(group_views(groups@)) <= u64::MAX,
    ensures
        r == weight_ticked(group_views(groups@)),
{
    let ghost all = group_views(groups@);
    let mut weight: u64 = 0;
    let mut g: usize = 0;
    assert(all.take(0) =~= Seq::<GroupView>::empty());
    while g < groups.len()
        invariant
            g <= groups@.len(),
            all == group_views(groups@),
            weight_ticked(all) <= u64::MAX,
            weight == weight_ticked(all.take(g as int)),
        decreases groups@.len() - g,
    {
        proof {
            assert(all.take(g + 1).drop_last() =~= all.take(g as int));
            assert(all.take(g + 1).last() == groups@[g as int]@);
            lemma_counts_grow(all, g + 1);
        }
        weight = weight + groups[g].reclaimed();
        g += 1;
    }
    assert(all.take(g as int) =~= all);
    weight
}

/// What could be given back if every group kept one copy.
pub fn wasted(groups: &[Group]) -> (r: u64)
    requires
        forall|g: int| 0 <= g < groups@.len() ==> (#[trigger] groups@[g]).copies@.len() > 0,
        weight_wasted(group_views(groups@)) <= u64::MAX,
    ensures
        r == weight_wasted(group_views(groups@)),
{
    let ghost all = group_views(groups@);
    let mut weight: u64 = 0;
    let mut g: usize = 0;
    assert(all.take(0) =~= Seq::<GroupView>::empty());
    while g < groups.len()
        invariant
            g <= groups@.len(),
            all == group_views(groups@),
            forall|g: int| 0 <= g < groups@.len() ==> (#[trigger] groups@[g]).copies@.len() > 0,
            weight_wasted(all) <= u64::MAX,
            weight == weight_wasted(all.take(g as int)),
        decreases groups@.len() - g,
    {
        proof {
            assert(all.take(g + 1).drop_last() =~= all.take(g as int));
            assert(all.take(g + 1).last() == groups@[g as int]@);
            lemma_counts_grow(all, g + 1);
        }
        let spare: u64 = (groups[g].copies.len() - 1) as u64;
        weight = weight + spare * groups[g].size;
        g += 1;
    }
    assert(all.take(g as int) =~= all);
    weight
}

// ---- hashing ----------------------------------------------------------------------------------

/// A hash with one more byte taken in.
pub open spec fn hash_step(sum: u64, byte: u8) -> u64 {
    (((sum ^ (byte as u64)) as int * FNV_PRIME as int) % 0x1_0000_0000_0000_0000) as u64
}

/// A hash with some more bytes taken in.
pub open spec fn hashed(sum: u64, bytes: Seq<u8>) -> u64
    decreases bytes.len(),
{
    if bytes.len() == 0 {
        sum
    } else {
        hash_step(hashed(sum, bytes.drop_last()), bytes.last())
    }
}

/// Take one more block of a file into its hash; the first starts from
/// [`FNV_OFFSET`].
pub fn hash(sum: u64, block: &[u8]) -> (r: u64)
    ensures
        r == hashed(sum, block@),
{
    let mut out: u64 = sum;
    let mut i: usize = 0;
    assert(block@.take(0) =~= Seq::<u8>::empty());
    while i < block.len()
        invariant
            i <= block@.len(),
            out == hashed(sum, block@.take(i as int)),
        decreases block@.len() - i,
    {
        assert(block@.take(i + 1).drop_last() =~= block@.take(i as int));
        out = out ^ (block[i] as u64);
        out = out.wrapping_mul(FNV_PRIME);
        i += 1;
    }
    assert(block@.take(i as int) =~= block@);
    out
}

/// Hashing a file block by block comes to the same as hashing it whole.
pub proof fn law_blocks_hash_alike(sum: u64, first: Seq<u8>, second: Seq<u8>)
    ensures
        hashed(sum, first + second) == hashed(hashed(sum, first), second),
    decreases second.len(),
{
    if second.len() == 0 {
        assert(first + second =~= first);
    } else {
        law_blocks_hash_alike(sum, first, second.drop_last());
        assert((first + second).drop_last() =~= first + second.drop_last());
    }
}

// ---- candidates -------------------------------------------------------------------------------

/// A file the walk found.
#[derive(Debug, Clone, PartialEq, Eq)]
pub struct Candidate {
    pub path: String,
    pub size: u64,
    /// What the filesystem calls this file, where it says. Two names sharing
    /// one are two names for one file rather than two files.
    pub identity: Option<(u64, u64)>,
}

/// Whether some file has an identity.
pub open spec fn identity_seen(files: Seq<Candidate>, identity: (u64, u64)) -> bool {
    exists|i: int| 0 <= i < files.len() && (#[trigger] files[i]).identity == Some(identity)
}

/// Files without the names that are only other names for one before them.
pub open spec fn one_name_each(files: Seq<Candidate>) -> Seq<Candidate>
    decreases files.len(),
{
    if files.len() == 0 {
        Seq::empty()
    } else {
        let front = one_name_each(files.drop_last());
        let file = files.last();
        if file.identity is Some && identity_seen(files.drop_last(), file.identity->0) {
            front
        } else {
            front.push(file)
        }
    }
}

/// An identity as one number.
spec fn identity_key(identity: (u64, u64)) -> u128 {
    (identity.0 as int * 0x1_0000_0000_0000_0000 + identity.1) as u128
}

fn key_of(identity: (u64, u64)) -> (r: u128)
    ensures
        r == identity_key(identity),
        r == identity.0 as int * 0x1_0000_0000_0000_0000 + identity.1,
{
    identity.0 as u128 * 0x1_0000_0000_0000_0000 + identity.1 as u128
}

proof fn lemma_keys_differ(a: (u64, u64), b: (u64, u64))
    ensures
        identity_key(a) == identity_key(b) <==> a == b,
{
}

/// Drop the names that are only other names for a file already in the list.
/// Order is kept, so the first name found is the one that stays.
pub fn without_hard_links(files: Vec<Candidate>) -> (r: Vec<Candidate>)
    ensures
        r@ == one_name_each(files@),
{
    let ghost all = files@;
    let mut seen: HashSet<u128> = HashSet::new();
    let mut out: Vec<Candidate> = Vec::new();
    assert(all.take(0) =~= Seq::<Candidate>::empty());
    for file in it: files
        invariant
            it.seq() == all,
            out@ == one_name_each(all.take(it.index() as int)),
            forall|identity: (u64, u64)|
                seen@.contains(#[trigger] identity_key(identity)) <==> identity_seen(
                    all.take(it.index() as int),
                    identity,
                ),
    {
        let ghost i = it.index() as int;
        let ghost front = all.take(i);
        let ghost next = all.take(i + 1);
        proof {
            assert(next.drop_last() =~= front);
            assert(next.last() == all[i]);
        }
        match file.identity {
            Some(identity) => {
                let ghost before = seen@;
                let fresh: bool = seen.insert(key_of(identity));
                proof {
                    assert(fresh == !before.contains(identity_key(identity)));
                    assert forall|other: (u64, u64)|
                        seen@.contains(#[trigger] identity_key(other)) <==> identity_seen(
                            next,
                            other,
                        ) by {
                        lemma_keys_differ(identity, other);
                        lemma_one_more_seen(front, all[i], other);
                        assert(front.push(all[i]) =~= next);
                    }
                }
                if fresh {
                    out.push(file);
                }
            },
            None => {
                proof {
                    assert forall|other: (u64, u64)|
                        seen@.contains(#[trigger] identity_key(other)) <==> identity_seen(
                            next,
                            other,
                        ) by {
                        lemma_one_more_seen(front, all[i], other);
                        assert(front.push(all[i]) =~= next);
                    }
                }
                out.push(file);
            },
        }
    }
    assert(all.take(all.len() as int) =~= all);
    out
}

proof fn lemma_one_more_seen(files: Seq<Candidate>, file: Candidate, identity: (u64, u64))
    ensures
        identity_seen(files.push(file), identity) <==> identity_seen(files, identity)
            || file.identity == Some(identity),
{
    let all = files.push(file);
    if identity_seen(files, identity) {
        let i = choose|i: int|
            0 <= i < files.len() && (#[trigger] files[i]).identity == Some(identity);
        assert(all[i].identity == Some(identity));
    }
    if file.identity == Some(identity) {
        assert(all[files.len() as int].identity == Some(identity));
    }
    if identity_seen(all, identity) {
        let i = choose|i: int| 0 <= i < all.len() && (#[trigger] all[i]).identity == Some(identity);
        if i < files.len() {
            assert(files[i].identity == Some(identity));
        }
    }
}

// ---- by size ----------------------------------------------------------------------------------

/// The first group at or after `from` whose files have a size; the length
/// where there is none.
pub open spec fn group_of(groups: Seq<Seq<Candidate>>, size: u64, from: int) -> int
    decreases groups.len() - from,
{
    if from >= groups.len() {
        groups.len() as int
    } else if groups[from].len() > 0 && groups[from][0].size == size {
        from
    } else {
        group_of(groups, size, from + 1)
    }
}

/// Files in groups of one size each, in the order they were found.
pub open spec fn grouped(files: Seq<Candidate>) -> Seq<Seq<Candidate>>
    decreases files.len(),
{
    if files.len() == 0 {
        Seq::empty()
    } else {
        let front = grouped(files.drop_last());
        let file = files.last();
        let at = group_of(front, file.size, 0);
        if at < front.len() {
            front.update(at, front[at].push(file))
        } else {
            front.push(seq![file])
        }
    }
}

/// The groups with more than one file.
pub open spec fn shared(groups: Seq<Seq<Candidate>>) -> Seq<Seq<Candidate>>
    decreases groups.len(),
{
    if groups.len() == 0 {
        Seq::empty()
    } else if groups.last().len() > 1 {
        shared(groups.drop_last()).push(groups.last())
    } else {
        shared(groups.drop_last())
    }
}

/// What each file of a group weighs.
pub open spec fn size_of_group(group: Seq<Candidate>) -> u64 {
    if group.len() > 0 {
        group[0].size
    } else {
        0
    }
}

/// The order of groups: the largest files first.
pub open spec fn largest_first() -> spec_fn(Seq<Candidate>, Seq<Candidate>) -> bool {
    |a: Seq<Candidate>, b: Seq<Candidate>| size_of_group(a) > size_of_group(b)
}

/// The order of files in a group: by path.
pub open spec fn by_path(style: Style) -> spec_fn(Candidate, Candidate) -> bool {
    |a: Candidate, b: Candidate| pathname::precedes(style, a.path@, b.path@)
}

/// Each group in the order of paths.
pub open spec fn each_by_path(style: Style, groups: Seq<Seq<Candidate>>) -> Seq<Seq<Candidate>> {
    groups.map_values(|group: Seq<Candidate>| order::sorted(group, by_path(style)))
}

/// The sizes that more than one file has, the largest first, each with its
/// files by path.
pub open spec fn sized(style: Style, files: Seq<Candidate>) -> Seq<Seq<Candidate>> {
    each_by_path(style, order::sorted(shared(grouped(files)), largest_first()))
}

/// Groups as sequences.
pub open spec fn lists(groups: Seq<Vec<Candidate>>) -> Seq<Seq<Candidate>> {
    groups.map_values(|group: Vec<Candidate>| group@)
}

/// Whether every group has a file, and no two have files of one size.
pub open spec fn sizes_differ(groups: Seq<Seq<Candidate>>) -> bool {
    &&& forall|i: int| 0 <= i < groups.len() ==> (#[trigger] groups[i]).len() > 0
    &&& forall|i: int, j: int|
        0 <= i < j < groups.len() ==> (#[trigger] groups[i])[0].size != (#[trigger] groups[j])[0].size
}

proof fn lemma_group_of(groups: Seq<Seq<Candidate>>, size: u64, from: int)
    requires
        0 <= from <= groups.len(),
    ensures
        from <= group_of(groups, size, from) <= groups.len(),
        group_of(groups, size, from) < groups.len() ==> groups[group_of(groups, size, from)].len()
            > 0 && groups[group_of(groups, size, from)][0].size == size,
        forall|i: int|
            from <= i < group_of(groups, size, from) ==> !((#[trigger] groups[i]).len() > 0
                && groups[i][0].size == size),
    decreases groups.len() - from,
{
    if from < groups.len() && !(groups[from].len() > 0 && groups[from][0].size == size) {
        lemma_group_of(groups, size, from + 1);
    }
}

proof fn lemma_grouped(files: Seq<Candidate>)
    ensures
        sizes_differ(grouped(files)),
        forall|i: int, k: int|
            #![trigger grouped(files)[i][k]]
            0 <= i < grouped(files).len() && 0 <= k < grouped(files)[i].len()
                ==> grouped(files)[i][k].size == grouped(files)[i][0].size,
    decreases files.len(),
{
    if files.len() > 0 {
        lemma_grouped(files.drop_last());
        let front = grouped(files.drop_last());
        let file = files.last();
        let at = group_of(front, file.size, 0);
        lemma_group_of(front, file.size, 0);
        let out = grouped(files);
        assert forall|i: int| 0 <= i < out.len() implies (#[trigger] out[i]).len() > 0 by {
            if i < front.len() {
                assert(front[i].len() > 0);
            }
        }
        assert forall|i: int, j: int| 0 <= i < j < out.len() implies (#[trigger] out[i])[0].size
            != (#[trigger] out[j])[0].size by {
            assert(front[i].len() > 0);
            if j < front.len() {
                assert(front[j].len() > 0);
                assert(front[i][0].size != front[j][0].size);
            }
        }
        assert forall|i: int, k: int|
            #![trigger out[i][k]]
            0 <= i < out.len() && 0 <= k < out[i].len() implies out[i][k].size
            == out[i][0].size by {
            if i < front.len() {
                assert(front[i].len() > 0);
                if k < front[i].len() {
                    assert(front[i][k].size == front[i][0].size);
                }
            }
        }
    }
}

/// A number of a group for each size.
spec fn indexes(index: Map<u64, usize>, groups: Seq<Seq<Candidate>>) -> bool {
    forall|size: u64|
        #![trigger index.dom().contains(size)]
        match group_of(groups, size, 0) < groups.len() {
            true => index.dom().contains(size) && index[size] == group_of(groups, size, 0),
            false => !index.dom().contains(size),
        }
}

fn push_into(groups: &mut Vec<Vec<Candidate>>, at: usize, file: Candidate)
    requires
        at < old(groups)@.len(),
    ensures
        lists(final(groups)@) == lists(old(groups)@).update(
            at as int,
            lists(old(groups)@)[at as int].push(file),
        ),
{
    let ghost was = lists(groups@);
    let group: &mut Vec<Candidate> = &mut groups[at];
    group.push(file);
    assert(lists(groups@) =~= was.update(at as int, was[at as int].push(file)));
}

fn group_files(files: Vec<Candidate>) -> (r: Vec<Vec<Candidate>>)
    ensures
        lists(r@) == grouped(files@),
{
    let ghost all = files@;
    let mut index: HashMap<u64, usize> = HashMap::new();
    let mut groups: Vec<Vec<Candidate>> = Vec::new();
    assert(all.take(0) =~= Seq::<Candidate>::empty());
    assert(lists(groups@) =~= Seq::empty());
    for file in it: files
        invariant
            it.seq() == all,
            lists(groups@) == grouped(all.take(it.index() as int)),
            indexes(index@, lists(groups@)),
    {
        let ghost i = it.index() as int;
        let ghost was = lists(groups@);
        proof {
            assert(all.take(i + 1).drop_last() =~= all.take(i));
            assert(all.take(i + 1).last() == all[i]);
            lemma_group_of(was, file.size, 0);
            lemma_grouped(all.take(i));
            lemma_grouped(all.take(i + 1));
            assert(index@.dom().contains(file.size) == (group_of(was, file.size, 0) < was.len()));
        }
        let size: u64 = file.size;
        let found: Option<usize> = match index.get(&size) {
            Some(at) => Some(*at),
            None => None,
        };
        match found {
            Some(at) => {
                push_into(&mut groups, at, file);
                proof {
                    assert forall|s: u64|
                        #![trigger index@.dom().contains(s)]
                        group_of(lists(groups@), s, 0) == group_of(was, s, 0) by {
                        lemma_same_places(was, lists(groups@), s, 0);
                    }
                }
            },
            None => {
                let at: usize = groups.len();
                index.insert(size, at);
                let one: Vec<Candidate> = vec![file];
                assert(one@ =~= seq![file]);
                groups.push(one);
                proof {
                    assert(lists(groups@) =~= was.push(seq![file]));
                    assert forall|s: u64|
                        #![trigger index@.dom().contains(s)]
                        group_of(lists(groups@), s, 0) == if s == size {
                            at as int
                        } else if group_of(was, s, 0) < was.len() {
                            group_of(was, s, 0)
                        } else {
                            lists(groups@).len() as int
                        } by {
                        lemma_one_group_more(was, file, s, 0);
                    }
                    assert(indexes(index@, lists(groups@)));
                }
            },
        }
    }
    assert(all.take(all.len() as int) =~= all);
    groups
}

proof fn lemma_same_places(
    a: Seq<Seq<Candidate>>,
    b: Seq<Seq<Candidate>>,
    size: u64,
    from: int,
)
    requires
        a.len() == b.len(),
        0 <= from <= a.len(),
        forall|i: int|
            0 <= i < a.len() ==> (#[trigger] a[i]).len() > 0 && b[i].len() > 0 && a[i][0].size
                == b[i][0].size,
    ensures
        group_of(a, size, from) == group_of(b, size, from),
    decreases a.len() - from,
{
    if from < a.len() {
        assert(a[from].len() > 0);
        lemma_same_places(a, b, size, from + 1);
    }
}

proof fn lemma_one_group_more(
    groups: Seq<Seq<Candidate>>,
    file: Candidate,
    size: u64,
    from: int,
)
    requires
        0 <= from <= groups.len(),
    ensures
        group_of(groups.push(seq![file]), size, from) == if group_of(groups, size, from)
            < groups.len() {
            group_of(groups, size, from)
        } else if file.size == size {
            groups.len() as int
        } else {
            (groups.len() + 1) as int
        },
    decreases groups.len() - from,
{
    let all = groups.push(seq![file]);
    if from < groups.len() {
        assert(all[from] == groups[from]);
        lemma_one_group_more(groups, file, size, from + 1);
    } else {
        assert(group_of(all, size, from + 1) == all.len());
        assert(group_of(groups, size, from) == groups.len());
        assert(all[from] == seq![file]);
    }
}

fn group_size(group: &Vec<Candidate>) -> (r: u64)
    ensures
        r == size_of_group(group@),
{
    if group.len() > 0 {
        group[0].size
    } else {
        0
    }
}

fn is_larger(a: &Vec<Candidate>, b: &Vec<Candidate>) -> (r: bool)
    ensures
        r == (size_of_group(a@) > size_of_group(b@)),
{
    group_size(a) > group_size(b)
}

fn path_is_before(style: Style, a: &Candidate, b: &Candidate) -> (r: bool)
    ensures
        r == pathname::precedes(style, a.path@, b.path@),
{
    pathname::is_before(style, a.path.as_str(), b.path.as_str())
}

/// Group by size, keeping only the sizes more than one file has.
///
/// The step that means most files are never opened: in a real directory
/// nearly every size belongs to exactly one file. Largest first: the biggest
/// waste is what anyone came here for.
pub fn by_size(style: Style, files: Vec<Candidate>) -> (r: Vec<Vec<Candidate>>)
    ensures
        lists(r@) == sized(style, files@),
{
    let groups: Vec<Vec<Candidate>> = group_files(files);
    let ghost all = lists(groups@);
    let ghost given = groups@;
    let mut several: Vec<Vec<Candidate>> = Vec::new();
    assert(all.take(0) =~= Seq::<Seq<Candidate>>::empty());
    assert(lists(several@) =~= Seq::empty());
    for group in it: groups
        invariant
            it.seq() == given,
            all == lists(given),
            lists(several@) == shared(all.take(it.index() as int)),
    {
        proof {
            let i = it.index() as int;
            assert(all.take(i + 1).drop_last() =~= all.take(i));
            assert(all.take(i + 1).last() == given[i]@);
        }
        if group.len() > 1 {
            let ghost was = lists(several@);
            let ghost files = group@;
            several.push(group);
            assert(lists(several@) =~= was.push(files));
        }
    }
    assert(all.take(all.len() as int) =~= all);
    let ghost unsorted = several@;
    let ghost less = |a: Vec<Candidate>, b: Vec<Candidate>|
        size_of_group(a@) > size_of_group(b@);
    order::sort(&mut several, is_larger, Ghost(less));
    proof {
        order::lemma_sorted_map(
            unsorted,
            |group: Vec<Candidate>| group@,
            less,
            largest_first(),
        );
    }
    let ghost ordered = several@;
    let ghost wanted = each_by_path(style, lists(ordered));
    let mut out: Vec<Vec<Candidate>> = Vec::new();
    for group in it: several
        invariant
            it.seq() == ordered,
            wanted == each_by_path(style, lists(ordered)),
            lists(out@) =~= wanted.take(it.index() as int),
    {
        let ghost was = lists(out@);
        let mut files: Vec<Candidate> = group;
        proof {
            pathname::lemma_paths_have_an_order(style);
            order::lemma_orders_through(
                |file: Candidate| file.path@,
                by_path(style),
                pathname::path_order(style),
            );
        }
        let before = |a: &Candidate, b: &Candidate| -> (r: bool)
            ensures
                r == pathname::precedes(style, a.path@, b.path@),
            { path_is_before(style, a, b) };
        order::sort(&mut files, before, Ghost(by_path(style)));
        let ghost sorted = files@;
        out.push(files);
        assert(sorted == wanted[it.index() as int]);
        assert(lists(out@) =~= was.push(sorted));
    }
    assert(lists(out@) =~= wanted);
    out
}

// ---- confirming -------------------------------------------------------------------------------

/// The first set at or after `from` whose files have a hash; the length where
/// there is none.
pub open spec fn set_with(sums: Seq<u64>, sum: u64, from: int) -> int
    decreases sums.len() - from,
{
    if from >= sums.len() {
        sums.len() as int
    } else if sums[from] == sum {
        from
    } else {
        set_with(sums, sum, from + 1)
    }
}

/// The hashes that were found, each once, and the paths that have each, in
/// the order they came. A file that could not be read has no hash.
pub open spec fn hash_sets(files: Seq<Candidate>, sums: Seq<Option<u64>>) -> (
    Seq<u64>,
    Seq<Seq<Seq<char>>>,
)
    decreases files.len(),
{
    if files.len() == 0 {
        (Seq::empty(), Seq::empty())
    } else {
        let at = files.len() - 1;
        let (known, sets) = hash_sets(files.drop_last(), sums);
        if at < sums.len() && sums[at] is Some {
            let set = set_with(known, sums[at]->0, 0);
            if set < known.len() {
                (known, sets.update(set, sets[set].push(files[at].path@)))
            } else {
                (known.push(sums[at]->0), sets.push(seq![files[at].path@]))
            }
        } else {
            (known, sets)
        }
    }
}

/// The sets with more than one path.
pub open spec fn several(sets: Seq<Seq<Seq<char>>>) -> Seq<Seq<Seq<char>>>
    decreases sets.len(),
{
    if sets.len() == 0 {
        Seq::empty()
    } else if sets.last().len() > 1 {
        several(sets.drop_last()).push(sets.last())
    } else {
        several(sets.drop_last())
    }
}

/// Sets of paths as characters.
pub open spec fn path_sets(sets: Seq<Vec<String>>) -> Seq<Seq<Seq<char>>> {
    sets.map_values(|set: Vec<String>| text::views(set@))
}

fn push_path(sets: &mut Vec<Vec<String>>, at: usize, path: String)
    requires
        at < old(sets)@.len(),
    ensures
        path_sets(final(sets)@) == path_sets(old(sets)@).update(
            at as int,
            path_sets(old(sets)@)[at as int].push(path@),
        ),
{
    let ghost was = path_sets(sets@);
    let ghost before = text::views(sets@[at as int]@);
    let set: &mut Vec<String> = &mut sets[at];
    set.push(path);
    proof {
        assert(text::views(sets@[at as int]@) =~= before.push(path@));
        assert(path_sets(sets@) =~= was.update(at as int, was[at as int].push(path@)));
    }
}

proof fn lemma_set_with(sums: Seq<u64>, sum: u64, from: int)
    requires
        0 <= from <= sums.len(),
    ensures
        from <= set_with(sums, sum, from) <= sums.len(),
        set_with(sums, sum, from) < sums.len() ==> sums[set_with(sums, sum, from)] == sum,
        forall|i: int| from <= i < set_with(sums, sum, from) ==> #[trigger] sums[i] != sum,
    decreases sums.len() - from,
{
    if from < sums.len() && sums[from] != sum {
        lemma_set_with(sums, sum, from + 1);
    }
}

proof fn lemma_hash_sets(files: Seq<Candidate>, sums: Seq<Option<u64>>)
    ensures
        hash_sets(files, sums).0.len() == hash_sets(files, sums).1.len(),
    decreases files.len(),
{
    if files.len() > 0 {
        lemma_hash_sets(files.drop_last(), sums);
        let at = files.len() - 1;
        if at < sums.len() && sums[at] is Some {
            lemma_set_with(hash_sets(files.drop_last(), sums).0, sums[at]->0, 0);
        }
    }
}

/// A number of a set for each hash.
spec fn indexes_sums(index: Map<u64, usize>, sums: Seq<u64>) -> bool {
    forall|sum: u64|
        #![trigger index.dom().contains(sum)]
        match set_with(sums, sum, 0) < sums.len() {
            true => index.dom().contains(sum) && index[sum] == set_with(sums, sum, 0),
            false => !index.dom().contains(sum),
        }
}

proof fn lemma_one_sum_more(sums: Seq<u64>, sum: u64, other: u64, from: int)
    requires
        0 <= from <= sums.len(),
    ensures
        set_with(sums.push(sum), other, from) == if set_with(sums, other, from) < sums.len() {
            set_with(sums, other, from)
        } else if sum == other {
            sums.len() as int
        } else {
            (sums.len() + 1) as int
        },
    decreases sums.len() - from,
{
    let all = sums.push(sum);
    if from < sums.len() {
        assert(all[from] == sums[from]);
        lemma_one_sum_more(sums, sum, other, from + 1);
    } else {
        assert(set_with(all, other, from + 1) == all.len());
        assert(set_with(sums, other, from) == sums.len());
    }
}

/// The paths of a same-size set that have the same hash, in sets of more than
/// one; `sums` has the hash of each file that could be read.
pub fn same_hash(files: &[Candidate], sums: &Vec<Option<u64>>) -> (r: Vec<Vec<String>>)
    ensures
        path_sets(r@) == several(hash_sets(files@, sums@).1),
{
    let ghost all = files@;
    let mut index: HashMap<u64, usize> = HashMap::new();
    let mut sets: Vec<Vec<String>> = Vec::new();
    let ghost mut known: Seq<u64> = Seq::empty();
    let mut i: usize = 0;
    assert(all.take(0) =~= Seq::<Candidate>::empty());
    assert(path_sets(sets@) =~= Seq::empty());
    while i < files.len()
        invariant
            all == files@,
            i <= all.len(),
            (known, path_sets(sets@)) == hash_sets(all.take(i as int), sums@),
            indexes_sums(index@, known),
        decreases all.len() - i,
    {
        let ghost was = path_sets(sets@);
        proof {
            assert(all.take(i + 1).drop_last() =~= all.take(i as int));
            assert(all.take(i + 1).last() == all[i as int]);
            lemma_hash_sets(all.take(i as int), sums@);
        }
        let sum: Option<u64> = if i < sums.len() {
            sums[i]
        } else {
            None
        };
        if let Some(sum) = sum {
            proof {
                lemma_set_with(known, sum, 0);
                assert(index@.dom().contains(sum) == (set_with(known, sum, 0) < known.len()));
            }
            let found: Option<usize> = match index.get(&sum) {
                Some(at) => Some(*at),
                None => None,
            };
            match found {
                Some(at) => {
                    push_path(&mut sets, at, files[i].path.clone());
                },
                None => {
                    let at: usize = sets.len();
                    index.insert(sum, at);
                    let one: Vec<String> = vec![files[i].path.clone()];
                    assert(text::views(one@) =~= seq![files@[i as int].path@]);
                    sets.push(one);
                    proof {
                        assert(path_sets(sets@) =~= was.push(seq![files@[i as int].path@]));
                        let before = known;
                        known = known.push(sum);
                        assert forall|s: u64|
                            #![trigger index@.dom().contains(s)]
                            set_with(known, s, 0) == if s == sum {
                                at as int
                            } else if set_with(before, s, 0) < before.len() {
                                set_with(before, s, 0)
                            } else {
                                known.len() as int
                            } by {
                            lemma_one_sum_more(before, sum, s, 0);
                        }
                        assert(indexes_sums(index@, known));
                    }
                },
            }
        }
        i += 1;
    }
    assert(all.take(i as int) =~= all);
    let ghost found = path_sets(sets@);
    let ghost given = sets@;
    let mut out: Vec<Vec<String>> = Vec::new();
    assert(found.take(0) =~= Seq::<Seq<Seq<char>>>::empty());
    assert(path_sets(out@) =~= Seq::empty());
    for set in it: sets
        invariant
            it.seq() == given,
            found == path_sets(given),
            path_sets(out@) == several(found.take(it.index() as int)),
    {
        proof {
            let i = it.index() as int;
            assert(found.take(i + 1).drop_last() =~= found.take(i));
            assert(found.take(i + 1).last() == text::views(given[i]@));
        }
        if set.len() > 1 {
            let ghost was = path_sets(out@);
            let ghost paths = text::views(set@);
            out.push(set);
            assert(path_sets(out@) =~= was.push(paths));
        }
    }
    assert(found.take(found.len() as int) =~= found);
    out
}

/// The first set at or after `from` whose first path is the same as a path.
pub open spec fn set_for(
    sets: Seq<Seq<Seq<char>>>,
    path: Seq<char>,
    same: spec_fn(Seq<char>, Seq<char>) -> bool,
    from: int,
) -> int
    decreases sets.len() - from,
{
    if from >= sets.len() {
        sets.len() as int
    } else if same(sets[from][0], path) {
        from
    } else {
        set_for(sets, path, same, from + 1)
    }
}

/// Sets with one more path: in the first whose first path is the same, or in
/// a new one.
pub open spec fn path_placed(sets: Seq<Seq<Seq<char>>>, path: Seq<char>, at: int) -> Seq<
    Seq<Seq<char>>,
> {
    if at < sets.len() {
        sets.update(at, sets[at].push(path))
    } else {
        sets.push(seq![path])
    }
}

/// A set of same-hash files split into sets that really do match.
pub open spec fn matching_sets(
    paths: Seq<Seq<char>>,
    same: spec_fn(Seq<char>, Seq<char>) -> bool,
) -> Seq<Seq<Seq<char>>>
    decreases paths.len(),
{
    if paths.len() == 0 {
        Seq::empty()
    } else {
        let front = matching_sets(paths.drop_last(), same);
        path_placed(front, paths.last(), set_for(front, paths.last(), same, 0))
    }
}

/// A set of same-hash files being split into sets that really do match.
///
/// It asks whether two files have the same content, one question at a time:
/// `question` says which two, and `answer` is told. Very nearly always this
/// comes to one set: it is there for the collision that has not happened yet.
#[derive(Debug, Clone)]
pub struct Verifying {
    paths: Vec<String>,
    next: usize,
    set: usize,
    sets: Vec<Vec<String>>,
}

/// Where a verification stands: the paths, the one being placed, the set it
/// is being compared with, and the sets so far.
#[verifier::ext_equal]
pub struct VerifyingView {
    pub paths: Seq<Seq<char>>,
    pub next: int,
    pub set: int,
    pub sets: Seq<Seq<Seq<char>>>,
}

impl View for Verifying {
    type V = VerifyingView;

    closed spec fn view(&self) -> VerifyingView {
        VerifyingView {
            paths: text::views(self.paths@),
            next: self.next as int,
            set: self.set as int,
            sets: path_sets(self.sets@),
        }
    }
}

/// Whether a verification is in good order: no set is empty, and there is a
/// set to compare with as long as there is a path to place.
pub open spec fn verifying_well(v: VerifyingView) -> bool {
    &&& 0 <= v.next <= v.paths.len()
    &&& 0 <= v.set
    &&& v.next < v.paths.len() ==> v.set < v.sets.len()
    &&& forall|i: int| 0 <= i < v.sets.len() ==> (#[trigger] v.sets[i]).len() > 0
}

/// A verification with the next path in a set of its own, if it is the first.
pub open spec fn verifying_from(paths: Seq<Seq<char>>) -> VerifyingView {
    if paths.len() == 0 {
        VerifyingView { paths, next: 0, set: 0, sets: Seq::empty() }
    } else {
        VerifyingView { paths, next: 1, set: 0, sets: seq![seq![paths[0]]] }
    }
}

/// A verification after an answer.
pub open spec fn answered(v: VerifyingView, same: bool) -> VerifyingView {
    if v.next >= v.paths.len() {
        v
    } else if same || v.set + 1 >= v.sets.len() {
        VerifyingView {
            sets: path_placed(
                v.sets,
                v.paths[v.next],
                if same {
                    v.set
                } else {
                    v.sets.len() as int
                },
            ),
            next: v.next + 1,
            set: 0,
            ..v
        }
    } else {
        VerifyingView { set: v.set + 1, ..v }
    }
}

impl Verifying {
    pub fn new(paths: Vec<String>) -> (r: Verifying)
        ensures
            r@ == verifying_from(text::views(paths@)),
            verifying_well(r@),
    {
        let mut sets: Vec<Vec<String>> = Vec::new();
        let mut next: usize = 0;
        if paths.len() > 0 {
            let one: Vec<String> = vec![paths[0].clone()];
            assert(text::views(one@) =~= seq![paths@[0]@]);
            sets.push(one);
            next = 1;
            assert(path_sets(sets@) =~= seq![seq![paths@[0]@]]);
        } else {
            assert(path_sets(sets@) =~= Seq::empty());
        }
        Verifying { paths, next, set: 0, sets }
    }

    /// The two files whose contents have to be compared next; none where all
    /// are placed.
    pub fn question(&self) -> (r: Option<(&str, &str)>)
        requires
            verifying_well(self@),
        ensures
            match r {
                Some((one, other)) => self@.next < self@.paths.len() && one@
                    == self@.sets[self@.set][0] && other@ == self@.paths[self@.next],
                None => self@.next >= self@.paths.len(),
            },
    {
        if self.next >= self.paths.len() {
            return None;
        }
        assert(self@.sets[self@.set] == text::views(self.sets@[self.set as int]@));
        let one: &str = self.sets[self.set][0].as_str();
        Some((one, self.paths[self.next].as_str()))
    }

    /// Take the answer to the question.
    pub fn answer(&mut self, same: bool)
        requires
            verifying_well(old(self)@),
        ensures
            final(self)@ == answered(old(self)@, same),
            verifying_well(final(self)@),
    {
        if self.next >= self.paths.len() {
            return;
        }
        let ghost v = self@;
        let count: usize = self.sets.len();
        if same {
            let path: String = self.paths[self.next].clone();
            push_path(&mut self.sets, self.set, path);
            self.next = self.next + 1;
            self.set = 0;
        } else if self.set + 1 >= count {
            let one: Vec<String> = vec![self.paths[self.next].clone()];
            assert(text::views(one@) =~= seq![v.paths[v.next]]);
            self.sets.push(one);
            assert(path_sets(self.sets@) =~= v.sets.push(seq![v.paths[v.next]]));
            self.next = self.next + 1;
            self.set = 0;
        } else {
            self.set = self.set + 1;
        }
        proof {
            assert(self@ =~= answered(v, same));
            assert forall|i: int| 0 <= i < self@.sets.len() implies (#[trigger] self@.sets[i]).len()
                > 0 by {
                if i < v.sets.len() {
                    assert(v.sets[i].len() > 0);
                }
            }
        }
    }

    /// The sets, once all files are placed.
    pub fn sets(self) -> (r: Vec<Vec<String>>)
        ensures
            path_sets(r@) == self@.sets,
    {
        self.sets
    }
}

/// The groups that some sets of a size come to: those of more than one file.
pub open spec fn groups_of(size: u64, sets: Seq<Seq<Seq<char>>>) -> Seq<GroupView> {
    several(sets).map_values(
        |set: Seq<Seq<char>>|
            GroupView {
                size,
                copies: set.map_values(|path: Seq<char>| CopyView { path, remove: false }),
            },
    )
}

/// The groups that some confirmed sets of a size come to: those of more than
/// one file.
pub fn confirm(size: u64, sets: Vec<Vec<String>>) -> (r: Vec<Group>)
    ensures
        group_views(r@) == groups_of(size, path_sets(sets@)),
{
    let ghost all = path_sets(sets@);
    let ghost given = sets@;
    let mut out: Vec<Group> = Vec::new();
    assert(all.take(0) =~= Seq::<Seq<Seq<char>>>::empty());
    assert(group_views(out@) =~= groups_of(size, all.take(0)));
    for set in it: sets
        invariant
            it.seq() == given,
            all == path_sets(given),
            group_views(out@) == groups_of(size, all.take(it.index() as int)),
    {
        let ghost i = it.index() as int;
        proof {
            assert(all.take(i + 1).drop_last() =~= all.take(i));
            assert(all.take(i + 1).last() == text::views(given[i]@));
        }
        if set.len() > 1 {
            let ghost was = group_views(out@);
            let group: Group = Group::new(size, set);
            out.push(group);
            assert(group_views(out@) =~= was.push(group@));
            assert(group_views(out@) =~= groups_of(size, all.take(i + 1)));
        }
    }
    assert(all.take(all.len() as int) =~= all);
    out
}

// ---- lines ------------------------------------------------------------------------------------

/// One line of the list: a group's heading, or one of its copies.
#[derive(Debug, Clone, Copy, PartialEq, Eq, Structural)]
pub enum Line {
    Heading { group: usize },
    Copy { group: usize, copy: usize },
}

/// The lines of one group.
pub open spec fn lines_of_group(group: GroupView, at: int) -> Seq<Line> {
    seq![Line::Heading { group: at as usize }] + Seq::new(
        group.copies.len(),
        |copy: int| Line::Copy { group: at as usize, copy: copy as usize },
    )
}

/// The lines of some groups, one after another.
pub open spec fn lines_of(groups: Seq<GroupView>) -> Seq<Line>
    decreases groups.len(),
{
    if groups.len() == 0 {
        Seq::empty()
    } else {
        lines_of(groups.drop_last()) + lines_of_group(groups.last(), groups.len() - 1)
    }
}

pub fn lines(groups: &[Group]) -> (r: Vec<Line>)
    ensures
        r@ == lines_of(group_views(groups@)),
{
    let ghost all = group_views(groups@);
    let mut out: Vec<Line> = Vec::new();
    let mut group: usize = 0;
    assert(all.take(0) =~= Seq::<GroupView>::empty());
    while group < groups.len()
        invariant
            group <= groups@.len(),
            all == group_views(groups@),
            out@ == lines_of(all.take(group as int)),
        decreases groups@.len() - group,
    {
        proof {
            assert(all.take(group + 1).drop_last() =~= all.take(group as int));
            assert(all.take(group + 1).last() == groups@[group as int]@);
        }
        let ghost was = out@;
        out.push(Line::Heading { group });
        let mut copy: usize = 0;
        while copy < groups[group].copies.len()
            invariant
                group < groups@.len(),
                copy <= groups@[group as int].copies@.len(),
                out@ =~= was + seq![Line::Heading { group }] + Seq::new(
                    copy as nat,
                    |copy: int| Line::Copy { group, copy: copy as usize },
                ),
            decreases groups@[group as int].copies@.len() - copy,
        {
            out.push(Line::Copy { group, copy });
            copy += 1;
        }
        assert(out@ =~= was + lines_of_group(groups@[group as int]@, group as int));
        group += 1;
    }
    assert(all.take(group as int) =~= all);
    out
}

/// The copies of a group after its heading was pressed: the first kept, or,
/// where any is ticked, all.
pub open spec fn heading_pressed(copies: Seq<CopyView>) -> Seq<CopyView> {
    if kept_in(copies) == copies.len() {
        first_kept(copies)
    } else {
        all_kept(copies)
    }
}

/// The groups after a line was pressed.
pub open spec fn pressed(groups: Seq<GroupView>, line: Line) -> Seq<GroupView> {
    match line {
        Line::Copy { group, copy } => if group < groups.len() {
            groups.update(
                group as int,
                GroupView {
                    copies: toggled(groups[group as int].copies, copy as int),
                    ..groups[group as int]
                },
            )
        } else {
            groups
        },
        Line::Heading { group } => if group < groups.len() {
            groups.update(
                group as int,
                GroupView {
                    copies: heading_pressed(groups[group as int].copies),
                    ..groups[group as int]
                },
            )
        } else {
            groups
        },
    }
}

/// What the space bar does to the line under the cursor.
///
/// On a copy it ticks or unticks that one. On a heading it keeps the first
/// and lets the rest go, and pressing it again puts them all back.
pub fn toggle_at(groups: &mut Vec<Group>, line: Line)
    ensures
        group_views(final(groups)@) == pressed(group_views(old(groups)@), line),
{
    let ghost was = group_views(groups@);
    match line {
        Line::Copy { group, copy } => {
            if group < groups.len() {
                let set: &mut Group = &mut groups[group];
                set.toggle(copy);
                assert(group_views(groups@) =~= pressed(was, line));
            }
        },
        Line::Heading { group } => {
            if group < groups.len() {
                let set: &mut Group = &mut groups[group];
                if set.keeping() == set.copies.len() {
                    set.keep_first();
                } else {
                    set.keep_all();
                }
                assert(group_views(groups@) =~= pressed(was, line));
            }
        },
    }
}

// ---- walking ----------------------------------------------------------------------------------

/// Something that a directory holds, as the walk sees it: a link is seen as
/// what it is, not as what it leads to.
#[derive(Debug, Clone)]
pub struct Listed {
    pub name: String,
    pub path: String,
    pub is_dir: bool,
    pub is_symlink: bool,
    pub is_file: bool,
    pub size: u64,
    pub identity: Option<(u64, u64)>,
}

/// What the walk does next.
#[derive(Debug)]
pub enum Visit {
    /// Look into this directory.
    Enter(String),
    /// This file may be a copy of another.
    Take(Candidate),
}

/// What the walk makes of something: nothing of what is hidden, where that
/// is left out, of a link, of what is no file, and of a file too small.
pub open spec fn visit_of(listed: Listed, options: Options) -> Option<Visit> {
    if !options.include_hidden && listed.name@.len() > 0 && listed.name@[0] == '.' {
        None
    } else if listed.is_dir {
        if listed.is_symlink {
            None
        } else {
            Some(Visit::Enter(listed.path))
        }
    } else if !listed.is_file || listed.size < options.smallest {
        None
    } else {
        Some(
            Visit::Take(
                Candidate { path: listed.path, size: listed.size, identity: listed.identity },
            ),
        )
    }
}

/// What the walk makes of some things, one after another.
pub open spec fn visits_of(listed: Seq<Listed>, options: Options) -> Seq<Visit>
    decreases listed.len(),
{
    if listed.len() == 0 {
        Seq::empty()
    } else {
        match visit_of(listed.last(), options) {
            Some(visit) => visits_of(listed.drop_last(), options).push(visit),
            None => visits_of(listed.drop_last(), options),
        }
    }
}

/// The order in which a directory is walked: by name.
pub open spec fn by_name() -> spec_fn(Listed, Listed) -> bool {
    |a: Listed, b: Listed| text::before(a.name@, b.name@)
}

fn name_is_before(a: &Listed, b: &Listed) -> (r: bool)
    ensures
        r == text::before(a.name@, b.name@),
{
    text::comes_before(a.name.as_str(), b.name.as_str())
}

fn is_dotted(name: &str) -> (r: bool)
    ensures
        r == (name@.len() > 0 && name@[0] == '.'),
{
    let s: Vec<char> = text::chars(name);
    s.len() > 0 && s[0] == '.'
}

/// What the walk does with a directory's contents, in the order of names.
pub fn walk_into(listing: Vec<Listed>, options: &Options) -> (r: Vec<Visit>)
    ensures
        r@ == visits_of(order::sorted(listing@, by_name()), *options),
{
    let mut listing: Vec<Listed> = listing;
    proof {
        text::lemma_texts_have_an_order();
        order::lemma_orders_through(|listed: Listed| listed.name@, by_name(), text::text_order());
    }
    order::sort(&mut listing, name_is_before, Ghost(by_name()));
    let ghost all = listing@;
    let mut out: Vec<Visit> = Vec::new();
    assert(all.take(0) =~= Seq::<Listed>::empty());
    for listed in it: listing
        invariant
            it.seq() == all,
            out@ == visits_of(all.take(it.index() as int), *options),
    {
        proof {
            let i = it.index() as int;
            assert(all.take(i + 1).drop_last() =~= all.take(i));
            assert(all.take(i + 1).last() == all[i]);
        }
        let left_out: bool = !options.include_hidden && is_dotted(listed.name.as_str());
        if !left_out {
            if listed.is_dir {
                if !listed.is_symlink {
                    out.push(Visit::Enter(listed.path));
                }
            } else if listed.is_file && listed.size >= options.smallest {
                out.push(
                    Visit::Take(
                        Candidate {
                            path: listed.path,
                            size: listed.size,
                            identity: listed.identity,
                        },
                    ),
                );
            }
        }
    }
    assert(all.take(all.len() as int) =~= all);
    out
}

/// The walk of a scan, step by step.
///
/// `next` says what comes: a file to take, or a directory to look into. Then
/// `listed` is told what the directory holds: nothing, where it cannot be
/// read. What lies below a directory comes before what stands beside it.
#[derive(Debug)]
pub struct Walk {
    options: Options,
    /// The next step is the last.
    waiting: Vec<Visit>,
}

/// What a scan looks for, and the steps that wait, the next one first.
#[verifier::ext_equal]
pub struct WalkView {
    pub options: Options,
    pub waiting: Seq<Visit>,
}

impl View for Walk {
    type V = WalkView;

    closed spec fn view(&self) -> WalkView {
        WalkView { options: self.options, waiting: self.waiting@.reverse() }
    }
}

impl Walk {
    pub fn new(options: Options, root: String) -> (r: Walk)
        ensures
            r@ == (WalkView { options, waiting: seq![Visit::Enter(root)] }),
    {
        let waiting: Vec<Visit> = vec![Visit::Enter(root)];
        assert(waiting@.reverse() =~= seq![Visit::Enter(root)]);
        Walk { options, waiting }
    }

    /// What comes next; nothing where the walk is at its end.
    pub fn next(&mut self) -> (r: Option<Visit>)
        ensures
            r == if old(self)@.waiting.len() > 0 {
                Some(old(self)@.waiting[0])
            } else {
                None
            },
            final(self)@ == (WalkView {
                waiting: if old(self)@.waiting.len() > 0 {
                    old(self)@.waiting.skip(1)
                } else {
                    Seq::empty()
                },
                ..old(self)@
            }),
    {
        let ghost was = self.waiting@.reverse();
        let r: Option<Visit> = self.waiting.pop();
        assert(r is Some ==> self.waiting@.reverse() =~= was.skip(1));
        assert(r is None ==> self.waiting@.reverse() =~= Seq::empty());
        r
    }

    /// Take in what the directory that was looked into holds: it comes next,
    /// in the order of names.
    pub fn listed(&mut self, listing: Vec<Listed>)
        ensures
            final(self)@ == (WalkView {
                waiting: visits_of(
                    order::sorted(listing@, by_name()),
                    old(self)@.options,
                ) + old(self)@.waiting,
                ..old(self)@
            }),
    {
        let mut steps: Vec<Visit> = walk_into(listing, &self.options);
        let ghost options = self.options;
        let ghost later = self.waiting@.reverse();
        let ghost sooner = steps@;
        assert(self.waiting@.reverse() =~= sooner.skip(steps@.len() as int) + later);
        while steps.len() > 0
            invariant
                self.options == options,
                steps@.len() <= sooner.len(),
                steps@ =~= sooner.take(steps@.len() as int),
                self.waiting@.reverse() == sooner.skip(steps@.len() as int) + later,
            decreases steps@.len(),
        {
            let ghost before = self.waiting@.reverse();
            let ghost left = steps@;
            if let Some(step) = steps.pop() {
                self.waiting.push(step);
                assert(step == sooner[left.len() - 1]);
                assert(self.waiting@.reverse() =~= seq![step] + before);
                assert(seq![step] + (sooner.skip(left.len() as int) + later) =~= sooner.skip(
                    left.len() - 1,
                ) + later);
            }
        }
        assert(sooner.skip(0) =~= sooner);
    }
}

/// What is said while a size group is being read.
pub fn looking_at(count: usize, size: u64) -> (r: String)
    ensures
        r@ == text::decimal(count as nat) + " files of "@ + entry::size_text(size as nat),
{
    text::concat3(
        text::decimal_text(count as u64).as_str(),
        " files of ",
        entry::human_size(size).as_str(),
    )
}

/// A scan in progress, and what it has found.
#[derive(Debug, Clone)]
pub struct Duplicates {
    pub groups: Vec<Group>,
    pub current: String,
    pub finished: bool,
    pub cancelled: bool,
    /// It stopped at [`MAX_GROUPS`] rather than because it ran out of tree.
    pub truncated: bool,
}

impl Default for Duplicates {
    fn default() -> (r: Duplicates)
        ensures
            r.groups@.len() == 0,
            r.current@.len() == 0,
            !r.finished,
            !r.cancelled,
            !r.truncated,
    {
        let current: String = String::new();
        assert(current@ =~= Seq::<char>::empty());
        Duplicates {
            groups: Vec::new(),
            current,
            finished: false,
            cancelled: false,
            truncated: false,
        }
    }
}

impl Duplicates {
    /// Take in a set of copies that was confirmed. False stops the scan:
    /// there are enough.
    pub fn group(&mut self, group: Group) -> (r: bool)
        ensures
            r == (old(self).groups@.len() < MAX_GROUPS),
            final(self).groups@ == if r {
                old(self).groups@.push(group)
            } else {
                old(self).groups@
            },
            final(self).truncated == (old(self).truncated || !r),
            final(self).current == old(self).current,
            final(self).finished == old(self).finished,
            final(self).cancelled == old(self).cancelled,
    {
        if self.groups.len() >= MAX_GROUPS {
            self.truncated = true;
            return false;
        }
        self.groups.push(group);
        true
    }

    /// Where it has got to, for the line that says it is still going.
    pub fn looking_at(&mut self, what: &str)
        ensures
            final(self).current@ == what@,
            final(self).groups == old(self).groups,
            final(self).truncated == old(self).truncated,
            final(self).finished == old(self).finished,
            final(self).cancelled == old(self).cancelled,
    {
        self.current = what.to_owned();
    }

    /// The scan is over.
    pub fn finish(&mut self, cancelled: bool)
        ensures
            final(self).finished,
            final(self).cancelled == cancelled,
            final(self).current@.len() == 0,
            final(self).groups == old(self).groups,
            final(self).truncated == old(self).truncated,
    {
        self.cancelled = cancelled;
        self.finished = true;
        let none: String = String::new();
        assert(none@ =~= Seq::<char>::empty());
        self.current = none;
    }
}

// ---- laws -------------------------------------------------------------------------------------

/// What is inside what a walk takes: for a directory, what it holds, in the
/// order of names. `disk` says what each directory holds.
pub open spec fn inside(options: Options, disk: spec_fn(Seq<char>) -> Seq<Listed>) -> spec_fn(
    Visit,
) -> Seq<Visit> {
    |visit: Visit|
        match visit {
            Visit::Enter(dir) => visits_of(order::sorted(disk(dir@), by_name()), options),
            Visit::Take(_) => Seq::empty(),
        }
}

proof fn lemma_visits_of(listing: Seq<Listed>, options: Options)
    ensures
        forall|i: int|
            0 <= i < listing.len() && visit_of(#[trigger] listing[i], options) is Some
                ==> visits_of(listing, options).contains(visit_of(listing[i], options)->0),
        forall|visit: Visit|
            #[trigger] visits_of(listing, options).contains(visit) ==> exists|i: int|
                0 <= i < listing.len() && visit_of(#[trigger] listing[i], options) == Some(visit),
    decreases listing.len(),
{
    if listing.len() > 0 {
        let front = listing.drop_last();
        let all = visits_of(listing, options);
        let first = visits_of(front, options);
        lemma_visits_of(front, options);
        assert forall|i: int|
            0 <= i < listing.len() && visit_of(#[trigger] listing[i], options) is Some
            implies all.contains(visit_of(listing[i], options)->0) by {
            let visit = visit_of(listing[i], options)->0;
            if i < front.len() {
                assert(front[i] == listing[i]);
                let at = choose|at: int| 0 <= at < first.len() && first[at] == visit;
                assert(all[at] == visit);
            } else {
                assert(all[all.len() - 1] == visit);
            }
        }
        assert forall|visit: Visit| #[trigger] all.contains(visit) implies exists|i: int|
            0 <= i < listing.len() && visit_of(#[trigger] listing[i], options) == Some(visit) by {
            let at = choose|at: int| 0 <= at < all.len() && all[at] == visit;
            if at < first.len() {
                assert(first[at] == visit);
                assert(first.contains(visit));
                let i = choose|i: int|
                    0 <= i < front.len() && visit_of(#[trigger] front[i], options) == Some(visit);
                assert(listing[i] == front[i]);
            } else {
                assert(listing[listing.len() - 1] == listing.last());
            }
        }
    }
}

proof fn lemma_sorted_holds(listing: Seq<Listed>, listed: Listed)
    ensures
        order::sorted(listing, by_name()).contains(listed) <==> listing.contains(listed),
{
    broadcast use vstd::seq_lib::group_to_multiset_ensures;

    order::law_sorting_keeps_everything(listing, by_name());
    let sorted = order::sorted(listing, by_name());
    assert(sorted.contains(listed) <==> sorted.to_multiset().count(listed) > 0);
    assert(listing.contains(listed) <==> listing.to_multiset().count(listed) > 0);
}

/// A walk of a tree that ends comes to its end, having gone into every
/// directory and taken every file of the tree, in its order.
pub proof fn law_a_scan_covers_the_tree(
    options: Options,
    disk: spec_fn(Seq<char>) -> Seq<Listed>,
    root: String,
    depth: nat,
)
    requires
        walking::ends(inside(options, disk), seq![Visit::Enter(root)], depth),
    ensures
        ({
            let start = seq![Visit::Enter(root)];
            let tree = walking::in_order(inside(options, disk), start, depth);
            &&& walking::taken(inside(options, disk), start, tree.len()) == tree
            &&& walking::left(inside(options, disk), start, tree.len()).len() == 0
        }),
{
    walking::law_a_walk_takes_the_whole_tree(
        inside(options, disk),
        seq![Visit::Enter(root)],
        depth,
    );
}

/// Every file below the root that is worth looking at is taken.
pub proof fn law_every_file_is_taken(
    options: Options,
    disk: spec_fn(Seq<char>) -> Seq<Listed>,
    root: String,
    depth: nat,
    dir: String,
    listed: Listed,
)
    requires
        walking::ends(inside(options, disk), seq![Visit::Enter(root)], depth),
        walking::in_order(inside(options, disk), seq![Visit::Enter(root)], depth).contains(
            Visit::Enter(dir),
        ),
        disk(dir@).contains(listed),
        visit_of(listed, options) is Some,
    ensures
        walking::in_order(inside(options, disk), seq![Visit::Enter(root)], depth).contains(
            visit_of(listed, options)->0,
        ),
{
    let start = seq![Visit::Enter(root)];
    let visit = visit_of(listed, options)->0;
    let sorted = order::sorted(disk(dir@), by_name());
    walking::law_a_tree_holds_what_is_inside(inside(options, disk), start, depth);
    lemma_sorted_holds(disk(dir@), listed);
    lemma_visits_of(sorted, options);
    let at = choose|at: int| 0 <= at < sorted.len() && sorted[at] == listed;
    assert(visit_of(sorted[at], options) is Some);
    let steps = inside(options, disk)(Visit::Enter(dir));
    assert(steps == visits_of(sorted, options));
    assert(steps.contains(visit));
    let i = choose|i: int| 0 <= i < steps.len() && steps[i] == visit;
    assert(inside(options, disk)(Visit::Enter(dir))[i] == visit);
}

/// Nothing else is taken: all a walk comes upon but its root is something that
/// a directory it went into holds.
pub proof fn law_nothing_else_is_taken(
    options: Options,
    disk: spec_fn(Seq<char>) -> Seq<Listed>,
    root: String,
    depth: nat,
    visit: Visit,
)
    requires
        walking::in_order(inside(options, disk), seq![Visit::Enter(root)], depth).contains(visit),
        visit != Visit::Enter(root),
    ensures
        exists|dir: String, listed: Listed|
            #![trigger disk(dir@).contains(listed)]
            walking::in_order(inside(options, disk), seq![Visit::Enter(root)], depth).contains(
                Visit::Enter(dir),
            ) && disk(dir@).contains(listed) && visit_of(listed, options) == Some(visit),
{
    let start = seq![Visit::Enter(root)];
    let tree = walking::in_order(inside(options, disk), start, depth);
    walking::law_a_tree_holds_nothing_else(inside(options, disk), start, depth, visit);
    if start.contains(visit) {
        assert(visit == Visit::Enter(root));
    }
    let from = choose|from: Visit|
        #![trigger inside(options, disk)(from)]
        tree.contains(from) && inside(options, disk)(from).contains(visit);
    match from {
        Visit::Enter(dir) => {
            let sorted = order::sorted(disk(dir@), by_name());
            lemma_visits_of(sorted, options);
            assert(visits_of(sorted, options).contains(visit));
            let at = choose|at: int|
                0 <= at < sorted.len() && visit_of(#[trigger] sorted[at], options) == Some(visit);
            lemma_sorted_holds(disk(dir@), sorted[at]);
            assert(sorted.contains(sorted[at]));
            assert(disk(dir@).contains(sorted[at]));
        },
        Visit::Take(_) => {
            assert(inside(options, disk)(from).len() == 0);
        },
    }
}

/// However copies are ticked one by one, one is always kept.
pub proof fn law_one_copy_is_always_kept(copies: Seq<CopyView>, index: int)
    requires
        kept_in(copies) > 0,
    ensures
        kept_in(toggled(copies, index)) > 0,
{
    if may_toggle(copies, index) {
        lemma_kept_update(
            copies,
            index,
            CopyView { remove: !copies[index].remove, path: copies[index].path },
        );
    }
}

proof fn lemma_kept_update(copies: Seq<CopyView>, index: int, copy: CopyView)
    requires
        0 <= index < copies.len(),
    ensures
        kept_in(copies.update(index, copy)) == kept_in(copies) - (if copies[index].remove {
            0int
        } else {
            1
        }) + (if copy.remove {
            0int
        } else {
            1
        }),
    decreases copies.len(),
{
    let out = copies.update(index, copy);
    if index == copies.len() - 1 {
        assert(out.drop_last() =~= copies.drop_last());
    } else {
        lemma_kept_update(copies.drop_last(), index, copy);
        assert(out.drop_last() =~= copies.drop_last().update(index, copy));
    }
}

proof fn lemma_kept_counts(copies: Seq<CopyView>)
    ensures
        (forall|i: int| 0 <= i < copies.len() ==> !(#[trigger] copies[i]).remove) ==> kept_in(copies)
            == copies.len(),
        (forall|i: int|
            0 <= i < copies.len() ==> (#[trigger] copies[i]).remove == (i > 0)) ==> kept_in(copies)
            == if copies.len() == 0 {
            0nat
        } else {
            1
        },
    decreases copies.len(),
{
    if copies.len() > 0 {
        let front = copies.drop_last();
        lemma_kept_counts(front);
        if forall|i: int| 0 <= i < copies.len() ==> !(#[trigger] copies[i]).remove {
            assert forall|i: int| 0 <= i < front.len() implies !(#[trigger] front[i]).remove by {
                assert(!copies[i].remove);
            }
            assert(!copies[copies.len() - 1].remove);
        }
        if forall|i: int| 0 <= i < copies.len() ==> (#[trigger] copies[i]).remove == (i > 0) {
            assert forall|i: int| 0 <= i < front.len() implies (#[trigger] front[i]).remove == (i
                > 0) by {
                assert(copies[i].remove == (i > 0));
            }
            assert(copies[copies.len() - 1].remove == (copies.len() - 1 > 0));
        }
    }
}

/// Keeping the first keeps exactly one of them.
pub proof fn law_keeping_the_first_keeps_one(copies: Seq<CopyView>)
    requires
        copies.len() > 0,
    ensures
        kept_in(first_kept(copies)) == 1,
        kept_in(all_kept(copies)) == copies.len(),
{
    lemma_kept_counts(first_kept(copies));
    lemma_kept_counts(all_kept(copies));
}

/// Pressing a heading twice, where nothing was ticked, puts everything back.
pub proof fn law_pressing_a_heading_twice_undoes_it(copies: Seq<CopyView>)
    requires
        copies.len() > 1,
        forall|i: int| 0 <= i < copies.len() ==> !(#[trigger] copies[i]).remove,
    ensures
        heading_pressed(heading_pressed(copies)) == copies,
{
    lemma_kept_counts(copies);
    law_keeping_the_first_keeps_one(copies);
    assert(all_kept(first_kept(copies)) =~= copies);
}

/// Whether a verification stands where an oracle leads it.
pub open spec fn led_by(v: VerifyingView, same: spec_fn(Seq<char>, Seq<char>) -> bool) -> bool {
    &&& verifying_well(v)
    &&& v.sets == matching_sets(v.paths.take(v.next), same)
    &&& v.next < v.paths.len() ==> forall|i: int|
        0 <= i < v.set ==> !same((#[trigger] v.sets[i])[0], v.paths[v.next])
}

/// A verification begins where any oracle leads it.
pub proof fn law_verifying_begins_well(
    paths: Seq<Seq<char>>,
    same: spec_fn(Seq<char>, Seq<char>) -> bool,
)
    ensures
        led_by(verifying_from(paths), same),
{
    let v = verifying_from(paths);
    if paths.len() > 0 {
        let one = paths.take(1);
        assert(one.drop_last() =~= Seq::<Seq<char>>::empty());
        assert(matching_sets(one.drop_last(), same) =~= Seq::empty());
        assert(one.last() == paths[0]);
        assert(matching_sets(one, same) =~= seq![seq![paths[0]]]);
    } else {
        assert(paths.take(0) =~= Seq::<Seq<char>>::empty());
        assert(matching_sets(paths.take(0), same) =~= Seq::empty());
    }
}

/// Answered truly, a verification comes to the sets of files that are the
/// same: an answer keeps it where the oracle leads, and once all files are
/// placed its sets are those.
pub proof fn law_true_answers_lead_to_the_sets(
    v: VerifyingView,
    same: spec_fn(Seq<char>, Seq<char>) -> bool,
)
    requires
        led_by(v, same),
    ensures
        v.next < v.paths.len() ==> led_by(
            answered(v, same(v.sets[v.set][0], v.paths[v.next])),
            same,
        ),
        v.next >= v.paths.len() ==> v.sets == matching_sets(v.paths, same),
{
    if v.next < v.paths.len() {
        let path = v.paths[v.next];
        let answer = same(v.sets[v.set][0], path);
        let out = answered(v, answer);
        let next = v.paths.take(v.next + 1);
        assert(next.drop_last() =~= v.paths.take(v.next));
        assert(next.last() == path);
        if answer || v.set + 1 >= v.sets.len() {
            let at = if answer {
                v.set
            } else {
                v.sets.len() as int
            };
            assert forall|i: int| 0 <= i < at implies !same((#[trigger] v.sets[i])[0], path) by {
                if i < v.set {
                    assert(!same(v.sets[i][0], v.paths[v.next]));
                }
            }
            lemma_set_for(v.sets, path, same, 0, at);
            assert(out.sets == matching_sets(next, same));
            assert forall|i: int| 0 <= i < out.sets.len() implies (#[trigger] out.sets[i]).len()
                > 0 by {
                if i < v.sets.len() {
                    assert(v.sets[i].len() > 0);
                }
            }
        }
    } else {
        assert(v.paths.take(v.next) =~= v.paths);
    }
}

proof fn lemma_set_for(
    sets: Seq<Seq<Seq<char>>>,
    path: Seq<char>,
    same: spec_fn(Seq<char>, Seq<char>) -> bool,
    from: int,
    at: int,
)
    requires
        0 <= from <= at <= sets.len(),
        at < sets.len() ==> same(sets[at][0], path),
        forall|i: int| from <= i < at ==> !same((#[trigger] sets[i])[0], path),
    ensures
        set_for(sets, path, same, from) == at,
    decreases at - from,
{
    if from < at {
        assert(!same(sets[from][0], path));
        lemma_set_for(sets, path, same, from + 1, at);
    }
}

/// Every file of a set is the same as its first.
pub proof fn law_sets_hold_what_is_the_same(
    paths: Seq<Seq<char>>,
    same: spec_fn(Seq<char>, Seq<char>) -> bool,
    set: int,
    at: int,
)
    requires
        0 <= set < matching_sets(paths, same).len(),
        0 < at < matching_sets(paths, same)[set].len(),
    ensures
        same(matching_sets(paths, same)[set][0], matching_sets(paths, same)[set][at]),
    decreases paths.len(),
{
    if paths.len() > 0 {
        let front = matching_sets(paths.drop_last(), same);
        let path = paths.last();
        let into = set_for(front, path, same, 0);
        lemma_set_for_bounds(front, path, same, 0);
        lemma_sets_not_empty(paths.drop_last(), same);
        if set < front.len() {
            assert(front[set].len() > 0);
            if at < front[set].len() {
                law_sets_hold_what_is_the_same(paths.drop_last(), same, set, at);
            }
        }
    }
}

proof fn lemma_set_for_bounds(
    sets: Seq<Seq<Seq<char>>>,
    path: Seq<char>,
    same: spec_fn(Seq<char>, Seq<char>) -> bool,
    from: int,
)
    requires
        0 <= from <= sets.len(),
    ensures
        from <= set_for(sets, path, same, from) <= sets.len(),
        set_for(sets, path, same, from) < sets.len() ==> same(
            sets[set_for(sets, path, same, from)][0],
            path,
        ),
    decreases sets.len() - from,
{
    if from < sets.len() && !same(sets[from][0], path) {
        lemma_set_for_bounds(sets, path, same, from + 1);
    }
}

proof fn lemma_sets_not_empty(
    paths: Seq<Seq<char>>,
    same: spec_fn(Seq<char>, Seq<char>) -> bool,
)
    ensures
        forall|i: int|
            0 <= i < matching_sets(paths, same).len() ==> (#[trigger] matching_sets(
                paths,
                same,
            )[i]).len() > 0,
    decreases paths.len(),
{
    if paths.len() > 0 {
        lemma_sets_not_empty(paths.drop_last(), same);
        let front = matching_sets(paths.drop_last(), same);
        lemma_set_for_bounds(front, paths.last(), same, 0);
        let out = matching_sets(paths, same);
        assert forall|i: int| 0 <= i < out.len() implies (#[trigger] out[i]).len() > 0 by {
            if i < front.len() {
                assert(front[i].len() > 0);
            }
        }
    }
}

/// No two files of a group differ in size, and no two groups have one size.
pub proof fn law_groups_are_of_one_size_each(files: Seq<Candidate>)
    ensures
        sizes_differ(grouped(files)),
        forall|i: int, k: int|
            #![trigger grouped(files)[i][k]]
            0 <= i < grouped(files).len() && 0 <= k < grouped(files)[i].len()
                ==> grouped(files)[i][k].size == grouped(files)[i][0].size,
{
    lemma_grouped(files);
}

/// The groups come with the largest files first.
pub proof fn law_largest_files_come_first(files: Seq<Candidate>, i: int, j: int)
    requires
        0 <= i < j < order::sorted(shared(grouped(files)), largest_first()).len(),
    ensures
        size_of_group(order::sorted(shared(grouped(files)), largest_first())[i]) >= size_of_group(
            order::sorted(shared(grouped(files)), largest_first())[j],
        ),
{
    assert(order::orders(largest_first()));
    order::law_sorting_puts_in_order(shared(grouped(files)), largest_first());
}

/// No file stays twice under two names.
pub proof fn law_hard_links_are_left_out(files: Seq<Candidate>, i: int, j: int)
    requires
        0 <= i < j < one_name_each(files).len(),
        one_name_each(files)[i].identity is Some,
    ensures
        one_name_each(files)[i].identity != one_name_each(files)[j].identity,
    decreases files.len(),
{
    let front = files.drop_last();
    let kept = one_name_each(front);
    if j < kept.len() {
        law_hard_links_are_left_out(front, i, j);
    } else {
        lemma_kept_was_there(front, i);
        let k = choose|k: int| 0 <= k < front.len() && front[k] == kept[i];
        if kept[i].identity == files.last().identity {
            assert(front[k].identity == Some(files.last().identity->0));
        }
    }
}

proof fn lemma_kept_was_there(files: Seq<Candidate>, i: int)
    requires
        0 <= i < one_name_each(files).len(),
    ensures
        exists|k: int| 0 <= k < files.len() && files[k] == one_name_each(files)[i],
    decreases files.len(),
{
    let front = files.drop_last();
    let kept = one_name_each(front);
    if i < kept.len() {
        lemma_kept_was_there(front, i);
        let k = choose|k: int| 0 <= k < front.len() && front[k] == kept[i];
        assert(files[k] == one_name_each(files)[i]);
    } else {
        assert(files[files.len() - 1] == one_name_each(files)[i]);
    }
}

proof fn lemma_paths_ticked(copies: Seq<CopyView>)
    ensures
        paths_ticked(copies).len() == ticked_in(copies),
        kept_in(copies) <= copies.len(),
        forall|path: Seq<char>|
            paths_ticked(copies).contains(path) <==> exists|i: int|
                0 <= i < copies.len() && (#[trigger] copies[i]).remove && copies[i].path == path,
    decreases copies.len(),
{
    if copies.len() > 0 {
        let front = copies.drop_last();
        let last = copies.last();
        let out = paths_ticked(copies);
        lemma_paths_ticked(front);
        assert forall|path: Seq<char>| out.contains(path) implies exists|i: int|
            0 <= i < copies.len() && (#[trigger] copies[i]).remove && copies[i].path == path by {
            let k = choose|k: int| 0 <= k < out.len() && out[k] == path;
            if k < paths_ticked(front).len() {
                assert(paths_ticked(front)[k] == path);
                assert(paths_ticked(front).contains(path));
                let i = choose|i: int|
                    0 <= i < front.len() && (#[trigger] front[i]).remove && front[i].path == path;
                assert(copies[i] == front[i]);
            } else {
                assert(copies[copies.len() - 1] == last);
            }
        }
        assert forall|path: Seq<char>|
            (exists|i: int|
                0 <= i < copies.len() && (#[trigger] copies[i]).remove && copies[i].path
                    == path) implies out.contains(path) by {
            let i = choose|i: int|
                0 <= i < copies.len() && (#[trigger] copies[i]).remove && copies[i].path == path;
            if i < front.len() {
                assert(front[i] == copies[i]);
                assert(paths_ticked(front).contains(path));
                let k = choose|k: int|
                    0 <= k < paths_ticked(front).len() && paths_ticked(front)[k] == path;
                assert(out[k] == path);
            } else {
                assert(out[out.len() - 1] == path);
            }
        }
    }
}

/// What is removed is what is ticked: a path is in the list exactly where
/// some group has a ticked copy of that path, and the list is as long as the
/// number of ticked copies that is shown.
pub proof fn law_what_is_ticked_is_removed(groups: Seq<GroupView>)
    ensures
        all_ticked(groups).len() == count_ticked(groups),
        forall|path: Seq<char>|
            all_ticked(groups).contains(path) <==> exists|g: int, i: int|
                0 <= g < groups.len() && 0 <= i < groups[g].copies.len() && (
                #[trigger] groups[g].copies[i]).remove && groups[g].copies[i].path == path,
    decreases groups.len(),
{
    if groups.len() > 0 {
        let front = groups.drop_last();
        let last = groups.last().copies;
        let out = all_ticked(groups);
        law_what_is_ticked_is_removed(front);
        lemma_paths_ticked(last);
        let (first, second) = (all_ticked(front), paths_ticked(last));
        assert forall|path: Seq<char>| out.contains(path) implies exists|g: int, i: int|
            0 <= g < groups.len() && 0 <= i < groups[g].copies.len() && (
            #[trigger] groups[g].copies[i]).remove && groups[g].copies[i].path == path by {
            let k = choose|k: int| 0 <= k < out.len() && out[k] == path;
            if k < first.len() {
                assert(first[k] == path);
                assert(first.contains(path));
                let (g, i) = choose|g: int, i: int|
                    0 <= g < front.len() && 0 <= i < front[g].copies.len() && (
                    #[trigger] front[g].copies[i]).remove && front[g].copies[i].path == path;
                assert(groups[g].copies[i] == front[g].copies[i]);
            } else {
                assert(second[k - first.len()] == path);
                assert(second.contains(path));
                let i = choose|i: int|
                    0 <= i < last.len() && (#[trigger] last[i]).remove && last[i].path == path;
                assert(groups[groups.len() - 1].copies[i] == last[i]);
            }
        }
        assert forall|path: Seq<char>|
            (exists|g: int, i: int|
                0 <= g < groups.len() && 0 <= i < groups[g].copies.len() && (
                #[trigger] groups[g].copies[i]).remove && groups[g].copies[i].path
                    == path) implies out.contains(path) by {
            let (g, i) = choose|g: int, i: int|
                0 <= g < groups.len() && 0 <= i < groups[g].copies.len() && (
                #[trigger] groups[g].copies[i]).remove && groups[g].copies[i].path == path;
            if g < front.len() {
                assert(front[g].copies[i] == groups[g].copies[i]);
                assert(first.contains(path));
                let k = choose|k: int| 0 <= k < first.len() && first[k] == path;
                assert(out[k] == path);
            } else {
                assert(last[i] == groups[g].copies[i]);
                assert(second.contains(path));
                let k = choose|k: int| 0 <= k < second.len() && second[k] == path;
                assert(out[first.len() + k] == path);
            }
        }
    }
}

/// The files of one size.
pub open spec fn of_size(files: Seq<Candidate>, size: u64) -> Seq<Candidate> {
    files.filter(|file: Candidate| file.size == size)
}

proof fn lemma_of_size(files: Seq<Candidate>, size: u64)
    requires
        files.len() > 0,
    ensures
        of_size(files, size) == if files.last().size == size {
            of_size(files.drop_last(), size).push(files.last())
        } else {
            of_size(files.drop_last(), size)
        },
{
    reveal(Seq::filter);
}

proof fn lemma_grouped_by_size(files: Seq<Candidate>, size: u64)
    ensures
        ({
            let at = group_of(grouped(files), size, 0);
            &&& 0 <= at <= grouped(files).len()
            &&& at < grouped(files).len() ==> grouped(files)[at] == of_size(files, size)
            &&& at == grouped(files).len() ==> of_size(files, size).len() == 0
        }),
    decreases files.len(),
{
    reveal(Seq::filter);
    let out = grouped(files);
    lemma_group_of(out, size, 0);
    if files.len() > 0 {
        let before = files.drop_last();
        let file = files.last();
        let front = grouped(before);
        lemma_grouped_by_size(before, size);
        lemma_grouped_by_size(before, file.size);
        lemma_of_size(files, size);
        lemma_grouped(before);
        lemma_grouped(files);
        let at = group_of(front, file.size, 0);
        lemma_group_of(front, file.size, 0);
        lemma_group_of(front, size, 0);
        let was = group_of(front, size, 0);
        let now = group_of(out, size, 0);
        if size == file.size {
            assert(out[at].len() > 0 && out[at][0].size == size) by {
                if at < front.len() {
                    assert(front[at].len() > 0 && front[at][0].size == size);
                }
            }
            if now < at {
                assert(out[now] == front[now]);
            }
            assert(now == at);
        } else if was < front.len() {
            assert(was != at);
            assert(out[was] == front[was]);
            if now < was {
                assert(out[now][0].size != out[was][0].size);
            } else if was < now {
                assert(out[was][0].size == size);
            }
            assert(now == was);
        } else {
            if now < out.len() {
                if now < front.len() {
                    assert(out[now][0].size == front[now][0].size);
                }
            }
        }
    }
}

proof fn lemma_shared(groups: Seq<Seq<Candidate>>)
    ensures
        forall|group: Seq<Candidate>| #[trigger]
            shared(groups).contains(group) <==> groups.contains(group) && group.len() > 1,
    decreases groups.len(),
{
    let out = shared(groups);
    if groups.len() > 0 {
        let before = groups.drop_last();
        let front = shared(before);
        lemma_shared(before);
        assert forall|group: Seq<Candidate>| #[trigger]
            out.contains(group) <==> groups.contains(group) && group.len() > 1 by {
            if out.contains(group) {
                let k = choose|k: int| 0 <= k < out.len() && out[k] == group;
                if k < front.len() {
                    assert(front[k] == group);
                    assert(front.contains(group));
                    let j = choose|j: int| 0 <= j < before.len() && before[j] == group;
                    assert(groups[j] == group);
                } else {
                    assert(groups[groups.len() - 1] == group);
                }
            }
            if groups.contains(group) && group.len() > 1 {
                let j = choose|j: int| 0 <= j < groups.len() && groups[j] == group;
                if j < before.len() {
                    assert(before[j] == group);
                    assert(before.contains(group));
                    assert(front.contains(group));
                    let k = choose|k: int| 0 <= k < front.len() && front[k] == group;
                    assert(out[k] == group);
                } else {
                    assert(out[out.len() - 1] == group);
                }
            }
        }
    }
}

/// Files of one size that more than one file has are compared with each other:
/// there is a group of all of them and of nothing else.
pub proof fn law_files_of_one_size_are_compared(style: Style, files: Seq<Candidate>, size: u64)
    requires
        of_size(files, size).len() > 1,
    ensures
        exists|k: int|
            0 <= k < sized(style, files).len() && (#[trigger] sized(style, files)[k]).to_multiset()
                == of_size(files, size).to_multiset(),
{
    broadcast use vstd::seq_lib::group_to_multiset_ensures;

    let groups = grouped(files);
    lemma_grouped_by_size(files, size);
    let wanted = of_size(files, size);
    let at = group_of(groups, size, 0);
    assert(groups[at] == wanted);
    assert(groups.contains(wanted));
    lemma_shared(groups);
    let kept = shared(groups);
    assert(kept.contains(wanted));
    let sorted = order::sorted(kept, largest_first());
    order::law_sorting_keeps_everything(kept, largest_first());
    assert(kept.to_multiset().count(wanted) > 0);
    assert(sorted.to_multiset().count(wanted) > 0);
    assert(sorted.contains(wanted));
    let k = choose|k: int| 0 <= k < sorted.len() && sorted[k] == wanted;
    order::law_sorting_keeps_everything(wanted, by_path(style));
    assert(sized(style, files)[k] == order::sorted(wanted, by_path(style)));
}

/// Every group is of two files or more, all of one size, and within it the
/// files come in the order of their paths.
pub proof fn law_groups_are_in_the_order_of_paths(style: Style, files: Seq<Candidate>, k: int)
    requires
        0 <= k < sized(style, files).len(),
    ensures
        ({
            let group = sized(style, files)[k];
            &&& group.len() > 1
            &&& group.to_multiset() == of_size(files, group[0].size).to_multiset()
            &&& forall|i: int, j: int|
                0 <= i < j < group.len() ==> !pathname::precedes(
                    style,
                    (#[trigger] group[j]).path@,
                    (#[trigger] group[i]).path@,
                )
        }),
{
    broadcast use vstd::seq_lib::group_to_multiset_ensures;

    let groups = grouped(files);
    let kept = shared(groups);
    lemma_shared(groups);
    let sorted = order::sorted(kept, largest_first());
    order::law_sorting_keeps_everything(kept, largest_first());
    let plain = sorted[k];
    assert(sorted.contains(plain));
    assert(sorted.to_multiset().count(plain) > 0);
    assert(kept.contains(plain));
    assert(groups.contains(plain));
    let at = choose|at: int| 0 <= at < groups.len() && groups[at] == plain;
    lemma_grouped(files);
    let size = plain[0].size;
    lemma_grouped_by_size(files, size);
    lemma_group_of(groups, size, 0);
    let found = group_of(groups, size, 0);
    if found < at {
        assert(groups[found][0].size != groups[at][0].size);
    }
    assert(found == at);
    let group = sized(style, files)[k];
    assert(group == order::sorted(plain, by_path(style)));
    order::law_sorting_keeps_everything(plain, by_path(style));
    pathname::lemma_paths_have_an_order(style);
    order::lemma_orders_through(
        |file: Candidate| file.path@,
        by_path(style),
        pathname::path_order(style),
    );
    order::law_sorting_puts_in_order(plain, by_path(style));
    assert forall|i: int, j: int| 0 <= i < j < group.len() implies !pathname::precedes(
        style,
        (#[trigger] group[j]).path@,
        (#[trigger] group[i]).path@,
    ) by {
        let less = by_path(style);
        assert(!less(group[j], group[i]));
    }
    assert(group[0].size == size) by {
        let first = group[0];
        assert(group.contains(first));
        assert(group.to_multiset().count(first) > 0);
        assert(plain.contains(first));
        let m = choose|m: int| 0 <= m < plain.len() && plain[m] == first;
        assert(groups[at][m].size == groups[at][0].size);
    }
}

/// Of several names of one file the first is kept, and a file that is not
/// known to have others is always kept.
pub proof fn law_the_first_name_of_a_file_is_kept(files: Seq<Candidate>, i: int)
    requires
        0 <= i < files.len(),
        files[i].identity is None || forall|j: int|
            0 <= j < i ==> (#[trigger] files[j]).identity != files[i].identity,
    ensures
        one_name_each(files).contains(files[i]),
    decreases files.len(),
{
    let before = files.drop_last();
    let out = one_name_each(files);
    let front = one_name_each(before);
    if i < before.len() {
        assert(before[i] == files[i]);
        assert forall|j: int| 0 <= j < i implies (#[trigger] before[j]) == files[j] by {}
        law_the_first_name_of_a_file_is_kept(before, i);
        let k = choose|k: int| 0 <= k < front.len() && front[k] == files[i];
        assert(out[k] == files[i]);
    } else {
        if files[i].identity is Some && identity_seen(before, files[i].identity->0) {
            let j = choose|j: int|
                0 <= j < before.len() && (#[trigger] before[j]).identity == Some(
                    files[i].identity->0,
                );
            assert(files[j].identity != files[i].identity);
        }
        assert(out[out.len() - 1] == files[i]);
    }
}

/// The paths of the files with a sum, in their order.
pub open spec fn paths_with(files: Seq<Candidate>, sums: Seq<Option<u64>>, sum: u64) -> Seq<
    Seq<char>,
>
    decreases files.len(),
{
    if files.len() == 0 {
        Seq::empty()
    } else {
        let front = paths_with(files.drop_last(), sums, sum);
        let at = files.len() - 1;
        if at < sums.len() && sums[at] == Some(sum) {
            front.push(files[at].path@)
        } else {
            front
        }
    }
}

/// Files are put together by their sums: each set holds all the files of one
/// sum and no other, each sum has one set, and a file without a sum is in
/// none.
pub proof fn law_sets_go_by_the_sums(files: Seq<Candidate>, sums: Seq<Option<u64>>)
    ensures
        ({
            let (known, sets) = hash_sets(files, sums);
            &&& known.len() == sets.len()
            &&& known.no_duplicates()
            &&& forall|k: int|
                0 <= k < sets.len() ==> #[trigger] sets[k] == paths_with(files, sums, known[k])
            &&& forall|i: int|
                0 <= i < files.len() && i < sums.len() && (#[trigger] sums[i]) is Some
                    ==> known.contains(sums[i]->0)
        }),
    decreases files.len(),
{
    let (known, sets) = hash_sets(files, sums);
    if files.len() > 0 {
        let before = files.drop_last();
        let at = files.len() - 1;
        let (was, front) = hash_sets(before, sums);
        law_sets_go_by_the_sums(before, sums);
        if at < sums.len() && sums[at] is Some {
            let sum = sums[at]->0;
            let set = set_with(was, sum, 0);
            lemma_set_with(was, sum, 0);
            if set == was.len() {
                assert(!was.contains(sum)) by {
                    if was.contains(sum) {
                        let m = choose|m: int| 0 <= m < was.len() && was[m] == sum;
                        lemma_set_is_first(was, sum, 0, m);
                    }
                }
                lemma_no_paths(before, sums, sum);
                assert(known[was.len() as int] == sum);
            }
            assert forall|k: int| 0 <= k < sets.len() implies #[trigger] sets[k] == paths_with(
                files,
                sums,
                known[k],
            ) by {
                if k < front.len() {
                    assert(front[k] == paths_with(before, sums, was[k]));
                    if k != set {
                        assert(was[k] != sum) by {
                            if set < was.len() {
                                assert(was[set] == sum);
                            } else {
                                assert(was.contains(was[k]));
                            }
                        }
                    }
                }
            }
            assert(known.no_duplicates());
        }
        assert forall|i: int|
            0 <= i < files.len() && i < sums.len() && (#[trigger] sums[i]) is Some implies
            known.contains(sums[i]->0) by {
            if i < before.len() {
                assert(was.contains(sums[i]->0));
                let m = choose|m: int| 0 <= m < was.len() && was[m] == sums[i]->0;
                assert(known[m] == sums[i]->0);
            } else {
                let set = set_with(was, sums[at]->0, 0);
                lemma_set_with(was, sums[at]->0, 0);
                assert(known[set] == sums[i]->0);
            }
        }
    }
}

proof fn lemma_set_is_first(sums: Seq<u64>, sum: u64, from: int, at: int)
    requires
        0 <= from <= at < sums.len(),
        sums[at] == sum,
    ensures
        set_with(sums, sum, from) <= at,
    decreases at - from,
{
    if sums[from] != sum {
        lemma_set_is_first(sums, sum, from + 1, at);
    }
}

proof fn lemma_no_paths(files: Seq<Candidate>, sums: Seq<Option<u64>>, sum: u64)
    requires
        !hash_sets(files, sums).0.contains(sum),
        forall|i: int|
            0 <= i < files.len() && i < sums.len() && (#[trigger] sums[i]) is Some
                ==> hash_sets(files, sums).0.contains(sums[i]->0),
    ensures
        paths_with(files, sums, sum).len() == 0,
{
    lemma_none_with(files, sums, sum);
}

proof fn lemma_none_with(files: Seq<Candidate>, sums: Seq<Option<u64>>, sum: u64)
    requires
        forall|i: int|
            0 <= i < files.len() && i < sums.len() && (#[trigger] sums[i]) is Some ==> sums[i]->0
                != sum,
    ensures
        paths_with(files, sums, sum).len() == 0,
    decreases files.len(),
{
    if files.len() > 0 {
        lemma_none_with(files.drop_last(), sums, sum);
        let at = files.len() - 1;
        if at < sums.len() {
            assert(sums[at] is Some ==> sums[at]->0 != sum);
        }
    }
}

/// A set is shown exactly where it has two paths or more, with nothing ticked
/// in it yet.
pub proof fn law_a_group_has_two_copies_or_more(size: u64, sets: Seq<Seq<Seq<char>>>, k: int)
    requires
        0 <= k < groups_of(size, sets).len(),
    ensures
        ({
            let group = groups_of(size, sets)[k];
            &&& group.size == size
            &&& group.copies.len() > 1
            &&& forall|i: int| 0 <= i < group.copies.len() ==> !(#[trigger] group.copies[i]).remove
            &&& sets.contains(group.copies.map_values(|copy: CopyView| copy.path))
        }),
{
    lemma_several(sets);
    let set = several(sets)[k];
    assert(several(sets).contains(set));
    let group = groups_of(size, sets)[k];
    assert(group.copies.map_values(|copy: CopyView| copy.path) =~= set);
}

proof fn lemma_several(sets: Seq<Seq<Seq<char>>>)
    ensures
        forall|set: Seq<Seq<char>>| #[trigger]
            several(sets).contains(set) <==> sets.contains(set) && set.len() > 1,
    decreases sets.len(),
{
    let out = several(sets);
    if sets.len() > 0 {
        let before = sets.drop_last();
        let front = several(before);
        lemma_several(before);
        assert forall|set: Seq<Seq<char>>| #[trigger]
            out.contains(set) <==> sets.contains(set) && set.len() > 1 by {
            if out.contains(set) {
                let k = choose|k: int| 0 <= k < out.len() && out[k] == set;
                if k < front.len() {
                    assert(front[k] == set);
                    assert(front.contains(set));
                    let j = choose|j: int| 0 <= j < before.len() && before[j] == set;
                    assert(sets[j] == set);
                } else {
                    assert(sets[sets.len() - 1] == set);
                }
            }
            if sets.contains(set) && set.len() > 1 {
                let j = choose|j: int| 0 <= j < sets.len() && sets[j] == set;
                if j < before.len() {
                    assert(before[j] == set);
                    assert(before.contains(set));
                    assert(front.contains(set));
                    let k = choose|k: int| 0 <= k < front.len() && front[k] == set;
                    assert(out[k] == set);
                } else {
                    assert(out[out.len() - 1] == set);
                }
            }
        }
    }
}

/// No set of two paths or more is left out, whichever way they were put
/// together.
pub proof fn law_no_set_of_several_is_left_out(size: u64, sets: Seq<Seq<Seq<char>>>, at: int)
    requires
        0 <= at < sets.len(),
        sets[at].len() > 1,
    ensures
        several(sets).contains(sets[at]),
        exists|k: int|
            0 <= k < groups_of(size, sets).len() && (#[trigger] groups_of(
                size,
                sets,
            )[k]).copies.map_values(|copy: CopyView| copy.path) == sets[at],
{
    lemma_several(sets);
    assert(sets.contains(sets[at]));
    assert(several(sets).contains(sets[at]));
    let k = choose|k: int| 0 <= k < several(sets).len() && several(sets)[k] == sets[at];
    assert(groups_of(size, sets)[k].copies.map_values(|copy: CopyView| copy.path) =~= sets[at]);
}

proof fn lemma_kept_exists(copies: Seq<CopyView>)
    ensures
        kept_in(copies) > 0 <==> exists|i: int|
            0 <= i < copies.len() && !(#[trigger] copies[i]).remove,
    decreases copies.len(),
{
    if copies.len() > 0 {
        let front = copies.drop_last();
        lemma_kept_exists(front);
        assert(copies[copies.len() - 1] == copies.last());
        if kept_in(front) > 0 {
            let i = choose|i: int| 0 <= i < front.len() && !(#[trigger] front[i]).remove;
            assert(!copies[i].remove);
        }
        if exists|i: int| 0 <= i < copies.len() && !(#[trigger] copies[i]).remove {
            let i = choose|i: int| 0 <= i < copies.len() && !(#[trigger] copies[i]).remove;
            if i < front.len() {
                assert(!front[i].remove);
            }
        }
    }
}

/// Ticking turns the tick of the one copy and of no other. It is refused only
/// where it would take the last copy that is kept.
pub proof fn law_ticking_turns_one_tick(copies: Seq<CopyView>, index: int, j: int)
    requires
        0 <= index < copies.len(),
        0 <= j < copies.len(),
    ensures
        toggled(copies, index).len() == copies.len(),
        j != index ==> toggled(copies, index)[j] == copies[j],
        toggled(copies, index)[index].path == copies[index].path,
        toggled(copies, index)[index].remove != copies[index].remove <==> copies[index].remove
            || exists|k: int|
            0 <= k < copies.len() && k != index && !(#[trigger] copies[k]).remove,
        may_toggle(copies, index) <==> toggled(copies, index)[index].remove
            != copies[index].remove,
{
    if !copies[index].remove {
        let gone = CopyView { remove: true, path: copies[index].path };
        let rest = copies.update(index, gone);
        lemma_kept_update(copies, index, gone);
        lemma_kept_exists(rest);
        if exists|k: int| 0 <= k < copies.len() && k != index && !(#[trigger] copies[k]).remove {
            let k = choose|k: int|
                0 <= k < copies.len() && k != index && !(#[trigger] copies[k]).remove;
            assert(!rest[k].remove);
        }
        if kept_in(rest) > 0 {
            let k = choose|k: int| 0 <= k < rest.len() && !(#[trigger] rest[k]).remove;
            assert(!copies[k].remove && k != index);
        }
    }
}

/// A heading ticks all its copies but the first where none is ticked, and
/// unticks all where one is.
pub proof fn law_a_heading_ticks_all_but_the_first(copies: Seq<CopyView>, i: int)
    requires
        0 <= i < copies.len(),
    ensures
        ({
            let none = forall|k: int| 0 <= k < copies.len() ==> !(#[trigger] copies[k]).remove;
            heading_pressed(copies)[i] == (CopyView {
                path: copies[i].path,
                remove: none && i > 0,
            })
        }),
        heading_pressed(copies).len() == copies.len(),
{
    lemma_kept_counts(copies);
    if exists|k: int| 0 <= k < copies.len() && (#[trigger] copies[k]).remove {
        let k = choose|k: int| 0 <= k < copies.len() && (#[trigger] copies[k]).remove;
        let back = CopyView { remove: false, path: copies[k].path };
        lemma_kept_update(copies, k, back);
        lemma_paths_ticked(copies.update(k, back));
    }
}

/// What is counted and weighed adds up over two lists of groups; a group
/// gives back its size for each ticked copy, and wastes it for each but one.
pub proof fn law_weights_add_up(
    first: Seq<GroupView>,
    second: Seq<GroupView>,
    copies: Seq<CopyView>,
    copy: CopyView,
    size: u64,
)
    ensures
        count_ticked(first + second) == count_ticked(first) + count_ticked(second),
        weight_ticked(first + second) == weight_ticked(first) + weight_ticked(second),
        weight_wasted(first + second) == weight_wasted(first) + weight_wasted(second),
        all_ticked(first + second) == all_ticked(first) + all_ticked(second),
        kept_in(copies.push(copy)) == kept_in(copies) + (if copy.remove {
            0nat
        } else {
            1
        }),
        weight_ticked(seq![GroupView { size, copies }]) == paths_ticked(copies).len() * size,
        copies.len() > 0 ==> weight_wasted(seq![GroupView { size, copies }]) == (copies.len() - 1)
            * size,
    decreases second.len(),
{
    let all = first + second;
    if second.len() == 0 {
        assert(all =~= first);
        assert(all_ticked(first) + all_ticked(second) =~= all_ticked(first));
    } else {
        assert(all.drop_last() =~= first + second.drop_last());
        law_weights_add_up(first, second.drop_last(), copies, copy, size);
        assert(all_ticked(all) =~= all_ticked(first) + all_ticked(second));
    }
    assert(copies.push(copy).drop_last() =~= copies);
    lemma_paths_ticked(copies);
    let one = seq![GroupView { size, copies }];
    assert(one.drop_last() =~= Seq::<GroupView>::empty());
    assert(weight_ticked(one.drop_last()) == 0 && weight_wasted(one.drop_last()) == 0);
    assert(one.last() == GroupView { size, copies });
}

/// What a scan does with what it comes upon. A hidden name is left alone where
/// hidden ones were not asked for. Of the others a directory that is no link
/// is walked into, and a file of the smallest size or more is taken, with its
/// path and size.
pub proof fn law_what_a_scan_does_with_a_name(listed: Listed, options: Options)
    ensures
        ({
            let hidden = listed.name@.len() > 0 && listed.name@[0] == '.';
            let seen = options.include_hidden || !hidden;
            match visit_of(listed, options) {
                Some(Visit::Enter(path)) => seen && listed.is_dir && !listed.is_symlink && path
                    == listed.path,
                Some(Visit::Take(file)) => seen && !listed.is_dir && listed.is_file && listed.size
                    >= options.smallest && file.path == listed.path && file.size == listed.size
                    && file.identity == listed.identity,
                None => !seen || (listed.is_dir && listed.is_symlink) || (!listed.is_dir && (
                !listed.is_file || listed.size < options.smallest)),
            }
        }),
{
}

/// Each group has a line of its own, and each of its copies one.
pub proof fn law_every_copy_has_a_line(groups: Seq<GroupView>, g: int, c: int)
    requires
        0 <= g < groups.len() <= usize::MAX,
        groups[g].copies.len() <= usize::MAX,
    ensures
        lines_of(groups).contains(Line::Heading { group: g as usize }),
        0 <= c < groups[g].copies.len() ==> lines_of(groups).contains(
            Line::Copy { group: g as usize, copy: c as usize },
        ),
    decreases groups.len(),
{
    let before = groups.drop_last();
    let front = lines_of(before);
    let tail = lines_of_group(groups.last(), groups.len() - 1);
    let all = lines_of(groups);
    if g < before.len() {
        assert(before[g] == groups[g]);
        law_every_copy_has_a_line(before, g, c);
        let heading = Line::Heading { group: g as usize };
        let k = choose|k: int| 0 <= k < front.len() && front[k] == heading;
        assert(all[k] == heading);
        if 0 <= c < groups[g].copies.len() {
            let copy = Line::Copy { group: g as usize, copy: c as usize };
            let k = choose|k: int| 0 <= k < front.len() && front[k] == copy;
            assert(all[k] == copy);
        }
    } else {
        assert(all[front.len() as int] == tail[0]);
        if 0 <= c < groups[g].copies.len() {
            assert(all[front.len() + 1 + c] == tail[1 + c]);
        }
    }
}

/// A line that is pressed is for its own group: a copy's line for the copy, a
/// heading for all of them; no other group changes, and no group its size.
pub proof fn law_a_line_is_for_its_own_group(groups: Seq<GroupView>, line: Line, i: int)
    requires
        0 <= i < groups.len(),
    ensures
        pressed(groups, line).len() == groups.len(),
        pressed(groups, line)[i].size == groups[i].size,
        match line {
            Line::Copy { group, copy } => pressed(groups, line)[i].copies == if group == i {
                toggled(groups[i].copies, copy as int)
            } else {
                groups[i].copies
            },
            Line::Heading { group } => pressed(groups, line)[i].copies == if group == i {
                heading_pressed(groups[i].copies)
            } else {
                groups[i].copies
            },
        },
{
}

/// A scan takes what a directory holds in the order of the names, and each
/// thing by itself.
pub proof fn law_a_directory_is_taken_in_name_order(
    listing: Seq<Listed>,
    options: Options,
    i: int,
    j: int,
    first: Seq<Listed>,
    second: Seq<Listed>,
)
    requires
        0 <= i < j < order::sorted(listing, by_name()).len(),
    ensures
        !text::before(
            order::sorted(listing, by_name())[j].name@,
            order::sorted(listing, by_name())[i].name@,
        ),
        visits_of(first + second, options) == visits_of(first, options) + visits_of(
            second,
            options,
        ),
    decreases second.len(),
{
    let less = by_name();
    assert(order::orders(less)) by {
        assert forall|a: Listed| !#[trigger] less(a, a) by {
            text::lemma_before_total(a.name@, a.name@);
        }
        assert forall|a: Listed, b: Listed, c: Listed|
            #[trigger] less(a, b) && #[trigger] less(b, c) implies less(a, c) by {
            text::lemma_before_transitive(a.name@, b.name@, c.name@);
        }
        assert forall|a: Listed, b: Listed, c: Listed|
            !#[trigger] less(a, b) && !#[trigger] less(b, c) implies !less(a, c) by {
            text::lemma_not_before_transitive(a.name@, b.name@, c.name@);
        }
    }
    order::law_sorting_puts_in_order(listing, less);
    assert(!less(order::sorted(listing, less)[j], order::sorted(listing, less)[i]));
    let all = first + second;
    if second.len() == 0 {
        assert(all =~= first);
        assert(visits_of(first, options) + visits_of(second, options) =~= visits_of(
            first,
            options,
        ));
    } else {
        assert(all.drop_last() =~= first + second.drop_last());
        law_a_directory_is_taken_in_name_order(listing, options, i, j, first, second.drop_last());
        assert(visits_of(all, options) =~= visits_of(first, options) + visits_of(second, options));
    }
}

} // verus!
