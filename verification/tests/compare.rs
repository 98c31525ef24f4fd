use lost_commander::compare::{
    bulk_controls, case_sensitive, facts_of, listing, looking_at, mark_differences, pair_up,
    same_content, same_moment, state_of, suggested, tally, tasks, to_mark, turn_all, Bulk,
    Compared, Direction, Facts, Options, Pair, Show, State, SyncTask, Tally, Walk, MAX_PAIRS,
};
use lost_commander::moment::Moment;
use lost_commander::mount::Platform;
use lost_commander::panel::{
    signature, Found, Look, Panel, Seen, Signature, WATCH_DETAIL_LIMIT,
};
use lost_commander::pathname::Style;
use std::collections::BTreeMap;

const ROOT: &str = "/root";

/// Files and directories kept in memory, with a clock of their own.
struct Disk {
    nodes: BTreeMap<String, Node>,
    clock: i64,
}

struct Node {
    is_dir: bool,
    size: u64,
    modified: i64,
}

impl Disk {
    fn new() -> Disk {
        let mut disk = Disk {
            nodes: BTreeMap::new(),
            clock: 1_000,
        };
        disk.mkdir(ROOT);
        disk
    }

    fn touch(&mut self, path: &str) {
        self.clock += 10;
        let clock = self.clock;
        let parent = path.rsplit_once('/').unwrap().0;
        if let Some(dir) = self.nodes.get_mut(parent) {
            dir.modified = clock;
        }
    }

    fn mkdir(&mut self, path: &str) {
        self.touch(path);
        let modified = self.clock;
        self.nodes.insert(
            path.to_string(),
            Node {
                is_dir: true,
                size: 0,
                modified,
            },
        );
    }

    fn write(&mut self, path: &str, text: &str) {
        if self.nodes.contains_key(path) {
            self.clock += 10;
        } else {
            self.touch(path);
        }
        let modified = self.clock;
        self.nodes.insert(
            path.to_string(),
            Node {
                is_dir: false,
                size: text.len() as u64,
                modified,
            },
        );
    }

    fn remove(&mut self, path: &str) {
        self.touch(path);
        self.nodes.remove(path);
    }

    fn found(&self, dir: &str) -> Result<Vec<Found>, String> {
        if !self.nodes.get(dir).map(|n| n.is_dir).unwrap_or(false) {
            return Err("no such directory".to_string());
        }
        Ok(self
            .nodes
            .iter()
            .filter(|(path, _)| path.rsplit_once('/').unwrap().0 == dir)
            .map(|(path, node)| Found {
                name: path.rsplit_once('/').unwrap().1.to_string(),
                path: path.clone(),
                hidden: false,
                is_symlink: false,
                is_dir: node.is_dir,
                size: node.size,
                modified: Some(Moment::from_seconds(node.modified)),
                mode: None,
            })
            .collect())
    }

    fn signature(&self, dir: &str, limit: usize) -> Signature {
        match (self.nodes.get(dir), self.found(dir)) {
            (Some(node), Ok(found)) => {
                let seen: Vec<Option<Seen>> = found
                    .iter()
                    .map(|f| {
                        Some(Seen {
                            size: f.size,
                            modified: f.modified,
                        })
                    })
                    .collect();
                signature(Some(Moment::from_seconds(node.modified)), Some(&seen), limit)
            }
            _ => signature(None, None, limit),
        }
    }

    fn look(&self, dir: &str) -> Look {
        Look {
            entries: self.found(dir),
            signature: self.signature(dir, WATCH_DETAIL_LIMIT),
        }
    }
}

fn panel_on(disk: &Disk, dir: &str) -> Panel {
    Panel::new(Style::Unix, dir.to_string(), disk.look(dir))
}

fn reload(panel: &mut Panel, disk: &Disk) {
    let look = disk.look(&panel.cwd);
    panel.reload(look);
}

fn at(seconds: i64) -> Option<Moment> {
    Some(Moment::from_seconds(seconds))
}

fn file(size: u64, seconds: i64) -> Facts {
    Facts::file(size, at(seconds))
}

/// One side of a comparison: each directory's listing, and what the files
/// hold.
struct Side {
    listings: BTreeMap<&'static str, Vec<(&'static str, Facts)>>,
    contents: BTreeMap<&'static str, Vec<u8>>,
}

impl Side {
    fn of(listings: &[(&'static str, &[(&'static str, Facts)])]) -> Side {
        Side {
            listings: listings
                .iter()
                .map(|(dir, files)| (*dir, files.to_vec()))
                .collect(),
            contents: BTreeMap::new(),
        }
    }

    fn list(&self, prefix: &str, include_hidden: bool) -> Vec<(String, Facts)> {
        let found: Vec<(String, Facts)> = match self.listings.get(prefix) {
            Some(files) => files.iter().map(|(n, f)| (n.to_string(), *f)).collect(),
            None => Vec::new(),
        };
        listing(found, include_hidden)
    }
}

/// Two trees, alike except in the ways the test is about.
fn trees() -> (Side, Side) {
    let left = Side::of(&[
        (
            "",
            &[
                ("both", Facts::dir()),
                ("left-only", Facts::dir()),
                ("same.txt", file(9, 100)),
                ("only-left.txt", file(4, 100)),
                (".hidden", file(3, 100)),
            ],
        ),
        ("both", &[("deep.txt", file(3, 100))]),
        ("left-only", &[("inside.txt", file(1, 100))]),
    ]);
    let right = Side::of(&[
        (
            "",
            &[
                ("both", Facts::dir()),
                ("same.txt", file(9, 100)),
                ("only-right.txt", file(5, 100)),
            ],
        ),
        ("both", &[("deep.txt", file(14, 100))]),
    ]);
    (left, right)
}

fn options() -> Options {
    Options::on(Platform::Linux)
}

/// Collect a walk, in name order, as `name state`.
fn walked(sides: &(Side, Side), options: &Options) -> Vec<String> {
    let (left, right) = sides;
    let mut walk = Walk::new(*options);
    let mut pairs: Vec<Pair> = Vec::new();
    while let Some(prefix) = walk.next() {
        let found = walk.walk_at(
            &prefix,
            left.list(&prefix, options.include_hidden),
            right.list(&prefix, options.include_hidden),
        );
        for one in found {
            let same = if one.read_both {
                let name = one.pair.name.as_str();
                Some(left.contents.get(name) == right.contents.get(name))
            } else {
                None
            };
            pairs.push(one.settle(same));
        }
    }
    pairs.sort_by(|a, b| a.name.cmp(&b.name));
    pairs
        .iter()
        .map(|p| format!("{} {}", p.name, p.state.mark()))
        .collect()
}

#[test]
fn two_seconds_apart_is_the_same_moment() {
    // FAT rounds to two seconds, so a file copied to a memory stick and
    // back is not a different file.
    assert!(same_moment(at(1_000), at(1_000)));
    assert!(same_moment(at(1_000), at(1_002)));
    assert!(same_moment(at(1_002), at(1_000)));
    assert!(!same_moment(at(1_000), at(1_003)));
    assert!(same_moment(None, None));
    assert!(!same_moment(at(1_000), None));
}

#[test]
fn size_and_date_decide_which_side_is_newer() {
    let cases = [
        (file(10, 100), file(10, 100), State::Same),
        (file(10, 100), file(10, 101), State::Same), // within tolerance
        (file(10, 200), file(10, 100), State::LeftNewer),
        (file(10, 100), file(10, 200), State::RightNewer),
        (file(10, 100), file(20, 100), State::Differ),
        (file(20, 300), file(10, 100), State::LeftNewer),
    ];
    for (left, right, expected) in cases {
        assert_eq!(
            state_of(Some(&left), Some(&right), None),
            expected,
            "{left:?} vs {right:?}"
        );
    }

    assert_eq!(state_of(Some(&file(1, 1)), None, None), State::OnlyLeft);
    assert_eq!(state_of(None, Some(&file(1, 1)), None), State::OnlyRight);
}

#[test]
fn the_same_size_at_the_same_moment_is_a_difference_with_no_direction() {
    // Two files that claim the same time and are not the same length is
    // something being wrong, and guessing which one to keep is how the
    // wrong one wins.
    let state = state_of(Some(&file(10, 100)), Some(&file(20, 100)), None);
    assert_eq!(state, State::Differ);
    assert_eq!(suggested(state), Direction::Skip);
}

#[test]
fn a_content_comparison_overrides_the_dates() {
    // Same bytes, different dates: nothing to copy either way.
    let state = state_of(Some(&file(10, 100)), Some(&file(10, 900)), Some(true));
    assert_eq!(state, State::Same);
    assert_eq!(suggested(state), Direction::Skip);

    // Different bytes at the same size and time: a difference, and still
    // no direction it can pick for you.
    let state = state_of(Some(&file(10, 100)), Some(&file(10, 100)), Some(false));
    assert_eq!(state, State::Differ);

    // Different bytes, and one is newer.
    let state = state_of(Some(&file(10, 900)), Some(&file(10, 100)), Some(false));
    assert_eq!(state, State::LeftNewer);
}

#[test]
fn a_directory_on_both_sides_is_not_itself_a_difference() {
    let state = state_of(Some(&Facts::dir()), Some(&Facts::dir()), None);
    assert_eq!(state, State::Same);
}

#[test]
fn what_each_state_would_do_by_default() {
    assert_eq!(suggested(State::OnlyLeft), Direction::ToRight);
    assert_eq!(suggested(State::OnlyRight), Direction::ToLeft);
    assert_eq!(suggested(State::LeftNewer), Direction::ToRight);
    assert_eq!(suggested(State::RightNewer), Direction::ToLeft);
    assert_eq!(suggested(State::Same), Direction::Skip);
    assert_eq!(suggested(State::Differ), Direction::Skip);
    // And the row cycles through all three and back.
    let mut direction = Direction::ToRight;
    for _ in 0..3 {
        direction = direction.next();
    }
    assert_eq!(direction, Direction::ToRight);
}

#[test]
fn pairing_lines_the_two_listings_up_by_name() {
    let left = vec![
        ("shared.txt".to_string(), file(10, 100)),
        ("only-left.txt".to_string(), file(5, 100)),
    ];
    let right = vec![
        ("shared.txt".to_string(), file(10, 500)),
        ("only-right.txt".to_string(), file(7, 100)),
    ];
    let pairs = pair_up(&left, &right, true);

    let names: Vec<&str> = pairs.iter().map(|p| p.name.as_str()).collect();
    assert_eq!(
        names,
        ["only-left.txt", "only-right.txt", "shared.txt"],
        "in name order, since neither pane's sort is the right one"
    );
    assert_eq!(pairs[0].state, State::OnlyLeft);
    assert_eq!(pairs[1].state, State::OnlyRight);
    assert_eq!(pairs[2].state, State::RightNewer);
}

#[test]
fn where_the_platform_folds_case_so_does_the_pairing() {
    let left = vec![("README".to_string(), file(10, 100))];
    let right = vec![("readme".to_string(), file(10, 100))];

    // Linux: two different files, each only on one side.
    let apart = pair_up(&left, &right, true);
    assert_eq!(apart.len(), 2);
    assert_eq!(apart[0].state, State::OnlyLeft);

    // Windows and macOS: one file, and it matches.
    let together = pair_up(&left, &right, false);
    assert_eq!(together.len(), 1);
    assert_eq!(together[0].state, State::Same);

    assert!(case_sensitive(Platform::Linux));
    assert!(!case_sensitive(Platform::Windows));
    assert!(!case_sensitive(Platform::MacOs));
}

#[test]
fn the_tasks_are_copies_to_an_exact_path_both_ways() {
    let mut pairs = vec![
        Pair::new("a.txt".to_string(), Some(file(1, 200)), Some(file(1, 100))),
        Pair::new("deep/b.txt".to_string(), None, Some(file(1, 100))),
        Pair::new("same.txt".to_string(), Some(file(1, 100)), Some(file(1, 100))),
    ];
    assert_eq!(pairs[0].direction, Direction::ToRight);
    assert_eq!(pairs[1].direction, Direction::ToLeft);
    assert_eq!(pairs[2].direction, Direction::Skip);

    let planned = tasks(Style::Unix, &pairs, "/left", "/right");
    assert_eq!(
        planned,
        vec![
            SyncTask::Copy {
                from: "/left/a.txt".into(),
                to: "/right/a.txt".into()
            },
            SyncTask::Copy {
                from: "/right/deep/b.txt".into(),
                to: "/left/deep/b.txt".into()
            },
        ],
        "the ones that already agree are not work"
    );

    // And a row turned round goes the other way.
    pairs[0].direction = Direction::ToLeft;
    let turned = tasks(Style::Unix, &pairs[..1], "/left", "/right");
    assert_eq!(
        turned[0],
        SyncTask::Copy {
            from: "/right/a.txt".into(),
            to: "/left/a.txt".into()
        }
    );
}

#[test]
fn each_side_marks_what_it_has_that_the_other_does_not() {
    let left = vec![
        ("only-left.txt".to_string(), file(1, 100)),
        ("newer-left.txt".to_string(), file(1, 900)),
        ("newer-right.txt".to_string(), file(1, 100)),
        ("same.txt".to_string(), file(1, 100)),
        ("odd.txt".to_string(), file(1, 100)),
        ("shared-dir".to_string(), Facts::dir()),
        ("left-dir".to_string(), Facts::dir()),
    ];
    let right = vec![
        ("only-right.txt".to_string(), file(1, 100)),
        ("newer-left.txt".to_string(), file(1, 100)),
        ("newer-right.txt".to_string(), file(1, 900)),
        ("same.txt".to_string(), file(1, 100)),
        ("odd.txt".to_string(), file(2, 100)),
        ("shared-dir".to_string(), Facts::dir()),
    ];

    let (mut mark_left, mut mark_right) = to_mark(&left, &right, true);
    mark_left.sort();
    mark_right.sort();
    assert_eq!(
        mark_left,
        ["newer-left.txt", "odd.txt", "only-left.txt"],
        "what this side has, and has a newer copy of"
    );
    assert_eq!(mark_right, ["newer-right.txt", "odd.txt", "only-right.txt"]);
    assert!(
        !mark_left.contains(&"left-dir".to_string()),
        "a directory is not marked: whether it differs is a question about \
         what is inside it"
    );
    assert!(
        mark_left.contains(&"odd.txt".to_string())
            && mark_right.contains(&"odd.txt".to_string()),
        "a difference with no direction is worth looking at on both sides"
    );
}

#[test]
fn marking_replaces_whatever_was_marked_before() {
    let mut disk = Disk::new();
    for dir in ["left", "left/both", "left/left-only", "right", "right/both"] {
        disk.mkdir(&format!("/root/{dir}"));
    }
    disk.write("/root/left/same.txt", "identical");
    disk.write("/root/left/only-left.txt", "here");
    disk.write("/root/right/same.txt", "identical");
    disk.write("/root/right/only-right.txt", "there");
    for path in ["/root/left/same.txt", "/root/right/same.txt"] {
        disk.nodes.get_mut(path).unwrap().modified = 500;
    }
    let mut left = panel_on(&disk, "/root/left");
    let mut right = panel_on(&disk, "/root/right");
    left.mark_all();

    let (marked_left, marked_right) = mark_differences(&mut left, &mut right, true);
    assert_eq!(
        (marked_left, marked_right),
        (1, 1),
        "only-left.txt and only-right.txt; same.txt agrees and the two \
         directories are not compared by name"
    );
    assert_eq!(
        left.marked_count(),
        1,
        "the marks that were there are replaced, not added to"
    );
    assert!(left
        .entries
        .iter()
        .any(|e| e.marked && e.name == "only-left.txt"));
    assert!(right
        .entries
        .iter()
        .any(|e| e.marked && e.name == "only-right.txt"));
    reload(&mut left, &disk);
    assert_eq!(left.marked_count(), 1);
}

#[test]
fn the_tally_counts_what_would_happen() {
    let pairs = vec![
        Pair::new("a".to_string(), Some(file(1, 200)), Some(file(1, 100))),
        Pair::new("b".to_string(), None, Some(file(1, 100))),
        Pair::new("c".to_string(), Some(file(1, 100)), Some(file(1, 100))),
        Pair::new("d".to_string(), Some(file(1, 100)), Some(file(2, 100))),
    ];
    assert_eq!(
        tally(&pairs),
        Tally {
            same: 1,
            to_right: 1,
            to_left: 1,
            skipped_differences: 1,
        }
    );
}

#[test]
fn the_filter_hides_what_is_not_the_point() {
    let show = Show::differences_only();
    assert!(!show.allows(State::Same));
    assert!(show.allows(State::LeftNewer));
    assert!(show.allows(State::Differ));
    assert!(show.allows(State::OnlyLeft));
    assert!(show.allows(State::OnlyRight));

    let nothing = Show::default();
    assert!(!nothing.allows(State::LeftNewer));
}

#[test]
fn a_walk_reports_every_difference_and_no_agreement_twice() {
    let root = trees();
    let listed = walked(&root, &options());
    assert_eq!(
        listed,
        [
            "both/deep.txt !=".to_string(),
            "left-only ->".to_string(),
            "only-left.txt ->".to_string(),
            "only-right.txt <-".to_string(),
            "same.txt =".to_string(),
        ],
        "the directory on both sides is not a row; what is inside it is, \
         and a directory only one side has copies whole"
    );
}

#[test]
fn without_recursion_it_compares_the_two_listings_and_stops() {
    let root = trees();
    let flat = Options {
        recursive: false,
        ..options()
    };
    let listed = walked(&root, &flat);
    assert!(
        !listed.iter().any(|line| line.contains('/')),
        "nothing from inside a subdirectory: {listed:?}"
    );
    assert!(listed.contains(&"only-left.txt ->".to_string()));
}

#[test]
fn compare_hidden_files_are_left_out_unless_asked_for() {
    let root = trees();
    let without = walked(&root, &options());
    assert!(!without.iter().any(|l| l.starts_with(".hidden")));

    let with = walked(&root,
        &Options {
            include_hidden: true,
            ..options()
        },
    );
    assert!(with.iter().any(|l| l.starts_with(".hidden")));
}

#[test]
fn comparing_by_content_finds_what_dates_cannot() {
    // Same length, same date, different bytes - invisible to a quick
    // comparison and the whole reason the slow one exists.
    let mut left = Side::of(&[("", &[("a.txt", file(4, 100))])]);
    let mut right = Side::of(&[("", &[("a.txt", file(4, 100))])]);
    left.contents.insert("a.txt", b"aaaa".to_vec());
    right.contents.insert("a.txt", b"bbbb".to_vec());
    let root = (left, right);

    let quick = walked(&root, &options());
    let slow = walked(
        &root,
        &Options {
            by_content: true,
            ..options()
        },
    );
    assert_eq!(quick, ["a.txt =".to_string()], "size and date agree");
    assert_eq!(slow, ["a.txt !=".to_string()], "the bytes do not");
}

#[test]
fn same_content_reads_no_further_than_it_has_to() {
    assert_eq!(same_content(&[7; 11], &[7; 11]), None, "alike so far");
    assert_eq!(same_content(&[7; 11], &[7; 12]), Some(false), "one byte longer");
    let mut bytes = vec![7u8; 11];
    *bytes.last_mut().unwrap() = 8;
    assert_eq!(same_content(&[7; 11], &bytes), Some(false));
    assert_eq!(same_content(&[], &[]), Some(true), "both at their end");
}

#[test]
fn a_pair_will_not_be_pointed_at_a_file_that_is_not_there() {
    // Cycling an only-on-the-right row used to reach "copy it to the
    // right", which asks for a left-hand file that does not exist; the
    // run got as far as "No such file or directory".
    let mut orphan = Pair::new("orphan.txt".to_string(), None, Some(file(18, 100)));
    assert_eq!(orphan.direction, Direction::ToLeft);
    assert!(!orphan.allows(Direction::ToRight));

    orphan.turn();
    assert_eq!(orphan.direction, Direction::Skip);
    orphan.turn();
    assert_eq!(
        orphan.direction,
        Direction::ToLeft,
        "past the impossible one"
    );

    let mut mine = Pair::new("mine.txt".to_string(), Some(file(18, 100)), None);
    assert_eq!(mine.direction, Direction::ToRight);
    mine.turn();
    assert_eq!(mine.direction, Direction::Skip);
    mine.turn();
    assert_eq!(mine.direction, Direction::ToRight);

    // And a pair with both sides still cycles all three ways.
    let mut both = Pair::new("both.txt".to_string(), Some(file(10, 200)), Some(file(10, 100)));
    let mut seen = Vec::new();
    for _ in 0..3 {
        both.turn();
        seen.push(both.direction);
    }
    seen.sort_by_key(|d| format!("{d:?}"));
    assert_eq!(
        seen,
        [Direction::Skip, Direction::ToLeft, Direction::ToRight]
    );
}

#[test]
fn a_direction_that_cannot_happen_is_never_work() {
    // Belt and braces: even if a direction were set some other way, the
    // list of copies does not include one with nothing to copy.
    let mut orphan = Pair::new("orphan.txt".to_string(), None, Some(file(18, 100)));
    orphan.direction = Direction::ToRight;
    assert!(!orphan.is_work());
    assert!(tasks(Style::Unix, &[orphan], "/l", "/r").is_empty());
}

#[test]
fn one_control_points_the_whole_list_one_way() {
    let mut pairs = vec![
        Pair::new("newer-left".to_string(), Some(file(10, 200)), Some(file(10, 100))),
        Pair::new("newer-right".to_string(), Some(file(10, 100)), Some(file(10, 200))),
        Pair::new("mine".to_string(), Some(file(10, 100)), None),
        Pair::new("theirs".to_string(), None, Some(file(10, 100))),
    ];
    let all: Vec<usize> = (0..pairs.len()).collect();

    // Everything right. Two rows already point that way and the row only
    // the right has cannot, so exactly one moves - the count is what
    // changed, not what was asked for.
    assert_eq!(turn_all(&mut pairs, &all, Bulk::All(Direction::ToRight)), 1);
    let directions: Vec<Direction> = pairs.iter().map(|p| p.direction).collect();
    assert_eq!(
        directions,
        [
            Direction::ToRight,
            Direction::ToRight,
            Direction::ToRight,
            Direction::ToLeft
        ]
    );

    // Nothing at all, then back to what the comparison worked out.
    assert_eq!(turn_all(&mut pairs, &all, Bulk::All(Direction::Skip)), 4);
    assert_eq!(tally(&pairs).skipped_differences, 4);
    assert_eq!(turn_all(&mut pairs, &all, Bulk::Suggested), 4);
    let directions: Vec<Direction> = pairs.iter().map(|p| p.direction).collect();
    assert_eq!(
        directions,
        [
            Direction::ToRight,
            Direction::ToLeft,
            Direction::ToRight,
            Direction::ToLeft
        ]
    );
    // Doing it twice is not a change the second time.
    assert_eq!(turn_all(&mut pairs, &all, Bulk::Suggested), 0);
}

#[test]
fn a_whole_list_control_only_touches_the_rows_on_screen() {
    // The rows the filter is hiding are not what "all of them" means.
    let mut pairs = vec![
        Pair::new("mine".to_string(), Some(file(10, 100)), None),
        Pair::new("theirs".to_string(), None, Some(file(10, 100))),
    ];
    assert_eq!(turn_all(&mut pairs, &[1], Bulk::All(Direction::Skip)), 1);
    assert_eq!(pairs[0].direction, Direction::ToRight, "left where it was");
    assert_eq!(pairs[1].direction, Direction::Skip);
}

#[test]
fn a_scan_that_found_too_much_says_so() {
    let mut found = Compared::default();
    for n in 0..MAX_PAIRS {
        assert!(found.pair(Pair::new(format!("{n}"), Some(file(1, 1)), None)));
    }
    assert!(!found.truncated);
    assert!(!found.pair(Pair::new("last".to_string(), Some(file(1, 1)), None)));
    assert!(found.truncated);
    found.looking_at("deep");
    assert_eq!(found.current, "deep");
    found.finish(false);
    assert!(found.finished && !found.cancelled && found.current.is_empty());
    assert_eq!(looking_at("both"), "both");
}

#[test]
fn every_control_says_what_it_does() {
    for bulk in bulk_controls() {
        assert!(!bulk.label().is_empty() && !bulk.describe().is_empty());
    }
    assert_eq!(bulk_controls().len(), 4);
    assert_eq!(Direction::ToRight.mark(), "->");
    assert!(State::Same.is_same() && !State::Differ.is_same());
    assert!(!State::Differ.describe().is_empty());
}

#[test]
fn a_panel_is_compared_by_what_it_lists() {
    let mut disk = Disk::new();
    disk.write("/root/a.txt", "abc");
    disk.mkdir("/root/sub");
    let panel = panel_on(&disk, ROOT);
    let facts = facts_of(&panel.entries);
    let names: Vec<&str> = facts.iter().map(|(n, _)| n.as_str()).collect();
    assert_eq!(names, ["sub", "a.txt"]);
    assert_eq!(facts[1].1.size, 3);
}

#[test]
fn a_directory_is_left_alone_on_the_side_that_has_it() {
    let file_here = vec![("x".to_string(), Facts::file(1, None))];
    let dir_here = vec![("x".to_string(), Facts::dir())];
    let (left, right) = to_mark(&file_here, &dir_here, true);
    assert_eq!(left, ["x"]);
    assert!(right.is_empty());
    let (left, right) = to_mark(&dir_here, &file_here, true);
    assert!(left.is_empty());
    assert_eq!(right, ["x"]);
}

#[test]
fn marks_are_found_and_counted_whatever_the_case() {
    let mut disk = Disk::new();
    disk.mkdir("/root/left");
    disk.mkdir("/root/right");
    disk.write("/root/left/README", "same size");
    disk.write("/root/right/readme", "same size");
    disk.nodes.get_mut("/root/left/README").unwrap().modified = 500;
    disk.nodes.get_mut("/root/right/readme").unwrap().modified = 4_100;
    let mut left = panel_on(&disk, "/root/left");
    let mut right = panel_on(&disk, "/root/right");
    assert_eq!(mark_differences(&mut left, &mut right, false), (0, 1));
    assert_eq!(left.marked_count(), 0);
    assert_eq!(right.marked_count(), 1);
    assert!(right.entries.iter().any(|e| e.marked && e.name == "readme"));
}
