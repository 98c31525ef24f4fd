use lost_commander::diff::{
    align, choose_files, choose_from, compare_files, gutter, gutter_width, lines, read, script,
    side_by_side, Diff, Edit, Refusal, Row, Side, MAX_BYTES, MAX_EDITS,
};
use lost_commander::moment::Moment;
use lost_commander::panel::{
    signature, Found, Look, Panel, Seen, Signature, WATCH_DETAIL_LIMIT,
};
use lost_commander::pathname::Style;
use std::collections::BTreeMap;

const ROOT: &str = "/root";

/// Files and directories kept in memory, with a clock of their own.
struct Disk {
    nodes: BTreeMap<String, Node>,
    clock: i64,
}

struct Node {
    is_dir: bool,
    size: u64,
    modified: i64,
}

impl Disk {
    fn new() -> Disk {
        let mut disk = Disk {
            nodes: BTreeMap::new(),
            clock: 1_000,
        };
        disk.mkdir(ROOT);
        disk
    }

    fn touch(&mut self, path: &str) {
        self.clock += 10;
        let clock = self.clock;
        let parent = path.rsplit_once('/').unwrap().0;
        if let Some(dir) = self.nodes.get_mut(parent) {
            dir.modified = clock;
        }
    }

    fn mkdir(&mut self, path: &str) {
        self.touch(path);
        let modified = self.clock;
        self.nodes.insert(
            path.to_string(),
            Node {
                is_dir: true,
                size: 0,
                modified,
            },
        );
    }

    fn write(&mut self, path: &str, text: &str) {
        if self.nodes.contains_key(path) {
            self.clock += 10;
        } else {
            self.touch(path);
        }
        let modified = self.clock;
        self.nodes.insert(
            path.to_string(),
            Node {
                is_dir: false,
                size: text.len() as u64,
                modified,
            },
        );
    }

    fn remove(&mut self, path: &str) {
        self.touch(path);
        self.nodes.remove(path);
    }

    fn found(&self, dir: &str) -> Result<Vec<Found>, String> {
        if !self.nodes.get(dir).map(|n| n.is_dir).unwrap_or(false) {
            return Err("no such directory".to_string());
        }
        Ok(self
            .nodes
            .iter()
            .filter(|(path, _)| path.rsplit_once('/').unwrap().0 == dir)
            .map(|(path, node)| Found {
                name: path.rsplit_once('/').unwrap().1.to_string(),
                path: path.clone(),
                hidden: false,
                is_symlink: false,
                is_dir: node.is_dir,
                size: node.size,
                modified: Some(Moment::from_seconds(node.modified)),
                mode: None,
            })
            .collect())
    }

    fn signature(&self, dir: &str, limit: usize) -> Signature {
        match (self.nodes.get(dir), self.found(dir)) {
            (Some(node), Ok(found)) => {
                let seen: Vec<Option<Seen>> = found
                    .iter()
                    .map(|f| {
                        Some(Seen {
                            size: f.size,
                            modified: f.modified,
                        })
                    })
                    .collect();
                signature(Some(Moment::from_seconds(node.modified)), Some(&seen), limit)
            }
            _ => signature(None, None, limit),
        }
    }

    fn look(&self, dir: &str) -> Look {
        Look {
            entries: self.found(dir),
            signature: self.signature(dir, WATCH_DETAIL_LIMIT),
        }
    }
}

fn panel_on(disk: &Disk, dir: &str) -> Panel {
    Panel::new(Style::Unix, dir.to_string(), disk.look(dir))
}

fn reload(panel: &mut Panel, disk: &Disk) {
    let look = disk.look(&panel.cwd);
    panel.reload(look);
}

fn name_of(path: &str) -> &str {
    path.rsplit_once('/').unwrap().1
}

fn folder_of(path: &str) -> &str {
    path.rsplit_once('/').unwrap().0
}

/// A pair of panels over a directory with a few files and a directory.
fn panels() -> (Disk, Panel, Panel) {
    let mut disk = Disk::new();
    disk.mkdir("/root/left");
    disk.mkdir("/root/left/sub");
    disk.mkdir("/root/right");
    for name in ["a.txt", "b.txt", "c.txt"] {
        disk.write(&format!("/root/left/{name}"), &format!("in the left {name}\n"));
    }
    disk.write("/root/right/a.txt", "in the right a.txt\n");
    let left = panel_on(&disk, "/root/left");
    let right = panel_on(&disk, "/root/right");
    (disk, left, right)
}

fn text(lines: &[&str]) -> Vec<String> {
    lines.iter().map(|l| l.to_string()).collect()
}

/// A diff as `-left`, `+right`, ` same`, which is how one reads.
fn shown(diff: &Diff) -> Vec<String> {
    diff.rows
        .iter()
        .map(|row| match row {
            Row::Same { text, .. } => format!(" {text}"),
            Row::OnlyLeft { text, .. } => format!("-{text}"),
            Row::OnlyRight { text, .. } => format!("+{text}"),
        })
        .collect()
}

#[test]
fn two_files_the_same_have_no_differences() {
    let same = text(&["one", "two", "three"]);
    let diff = align(&same, &same);
    assert!(diff.is_identical());
    assert_eq!(diff.changes, 0);
    assert_eq!(diff.rows.len(), 3);
    assert!(diff.rows.iter().all(Row::is_same));
}

#[test]
fn a_changed_line_is_a_deletion_and_an_insertion() {
    let left = text(&["one", "two", "three"]);
    let right = text(&["one", "TWO", "three"]);
    let diff = align(&left, &right);
    assert_eq!(shown(&diff), [" one", "-two", "+TWO", " three"]);
    assert_eq!(diff.changes, 2);
}

#[test]
fn lines_added_and_removed_keep_the_rest_lined_up() {
    let left = text(&["a", "b", "c", "d"]);
    let right = text(&["a", "c", "d", "e"]);
    let diff = align(&left, &right);
    assert_eq!(shown(&diff), [" a", "-b", " c", " d", "+e"]);
    assert_eq!(diff.changes, 2);
}

#[test]
fn the_line_numbers_are_each_files_own() {
    let left = text(&["a", "b", "c"]);
    let right = text(&["a", "c"]);
    let diff = align(&left, &right);
    // b is line 2 on the left and nothing on the right; c is line 3 on
    // the left and line 2 on the right.
    assert_eq!(
        diff.rows[1],
        Row::OnlyLeft {
            left: 2,
            text: "b".into()
        }
    );
    assert_eq!(
        diff.rows[2],
        Row::Same {
            left: 3,
            right: 2,
            text: "c".into()
        }
    );
    assert_eq!(diff.rows[2].left(), Some((3, "c")));
    assert_eq!(diff.rows[2].right(), Some((2, "c")));
    assert_eq!(diff.rows[1].right(), None);
}

#[test]
fn an_empty_file_against_a_full_one_is_all_insertions() {
    let diff = align(&[], &text(&["a", "b"]));
    assert_eq!(shown(&diff), ["+a", "+b"]);

    let diff = align(&text(&["a", "b"]), &[]);
    assert_eq!(shown(&diff), ["-a", "-b"]);

    let diff = align(&[], &[]);
    assert!(diff.is_identical());
    assert!(diff.rows.is_empty());
}

#[test]
fn a_block_moved_is_a_removal_and_an_addition() {
    // Myers finds the shortest script, not the smartest one: a block that
    // moved reads as gone from one place and arrived in another, which is
    // what every line differ says about it.
    let left = text(&["header", "one", "two", "footer"]);
    let right = text(&["header", "two", "one", "footer"]);
    let diff = align(&left, &right);
    assert_eq!(diff.changes, 2);
    assert_eq!(shown(&diff), [" header", "-one", " two", "+one", " footer"]);
}

#[test]
fn walking_the_differences_wraps_round() {
    let left = text(&["a", "b", "c", "d", "e"]);
    let right = text(&["a", "B", "c", "d", "E"]);
    let diff = align(&left, &right);
    let firsts: Vec<usize> = diff
        .rows
        .iter()
        .enumerate()
        .filter(|(_, r)| !r.is_same())
        .map(|(i, _)| i)
        .collect();
    assert!(firsts.len() >= 2);

    let first = diff.next_change(0).unwrap();
    assert_eq!(first, firsts[0]);
    let last = *firsts.last().unwrap();
    assert_eq!(
        diff.next_change(last),
        Some(firsts[0]),
        "past the last difference comes back to the first"
    );
    assert_eq!(diff.previous_change(firsts[0]), Some(last));
}

#[test]
fn two_files_with_nothing_in_common_are_shown_as_they_are() {
    // The alignment is capped, and past it there is no alignment worth
    // drawing - so both files are shown, and the diff says as much rather
    // than pretending.
    let left = text(&["a", "b", "c"]);
    let right = text(&["x", "y", "z"]);
    let capped = script(&left, &right, 2);
    assert!(capped.is_none(), "six edits is more than the cap of two");

    let diff = side_by_side(&left, &right);
    assert!(diff.unaligned);
    assert!(!diff.is_identical());
    assert_eq!(diff.rows.len(), 6);
}

#[test]
fn splitting_into_lines_invents_none() {
    assert_eq!(lines("one\ntwo\n"), ["one", "two"]);
    assert_eq!(lines("one\ntwo"), ["one", "two"]);
    assert_eq!(lines(""), Vec::<String>::new());
    assert_eq!(lines("\n"), [""]);
    // Windows line endings are line endings.
    assert_eq!(lines("one\r\ntwo\r\n"), ["one", "two"]);
}

#[test]
fn the_gutter_is_as_wide_as_the_longest_line_number() {
    let short = align(&text(&["a"]), &text(&["a"]));
    assert_eq!(gutter_width(&short), 2, "never narrower than two");

    let long: Vec<String> = (1..=1200).map(|n| n.to_string()).collect();
    let diff = align(&long, &long);
    assert_eq!(gutter_width(&diff), 4);
    assert_eq!(gutter(Some(7), 4), "   7");
    assert_eq!(gutter(None, 4), "    ");
}

fn mark(panel: &mut Panel, names: &[&str]) {
    for entry in panel.entries.iter_mut() {
        entry.marked = names.contains(&entry.name.as_str());
    }
}

fn put_cursor(panel: &mut Panel, name: &str) {
    let at = panel
        .entries
        .iter()
        .position(|e| e.name == name)
        .unwrap_or_else(|| panic!("{name} not listed"));
    panel.cursor_to(at);
}

#[test]
fn two_marked_in_one_pane_are_the_two() {
    let (mut disk, mut left, right) = panels();
    mark(&mut left, &["a.txt", "c.txt"]);
    // The cursor is somewhere else entirely, and does not matter.
    put_cursor(&mut left, "b.txt");

    let chosen = choose_files(&left, &right, true).unwrap();
    assert_eq!(name_of(&chosen.left), "a.txt");
    assert_eq!(name_of(&chosen.right), "c.txt");
    assert!(chosen.from_one_pane);
}

#[test]
fn a_pair_from_the_two_panes_comes_back_in_pane_order() {
    // Whichever pane has the keyboard, the left pane's file is the left
    // column - anything else reads as though the files had swapped places.
    let (mut disk, mut left, mut right) = panels();
    put_cursor(&mut left, "b.txt");
    put_cursor(&mut right, "a.txt");

    for active_is_left in [true, false] {
        let chosen = choose_files(&left, &right, active_is_left).unwrap();
        assert_eq!(
            Some(folder_of(&chosen.left)),
            Some(left.cwd.as_str()),
            "active_is_left = {active_is_left}"
        );
        assert_eq!(name_of(&chosen.left), "b.txt");
        assert_eq!(name_of(&chosen.right), "a.txt");
    }
}

#[test]
fn one_under_each_cursor_when_nothing_is_marked() {
    let (mut disk, mut left, mut right) = panels();
    put_cursor(&mut left, "b.txt");
    put_cursor(&mut right, "a.txt");

    let chosen = choose_files(&left, &right, true).unwrap();
    assert_eq!(name_of(&chosen.left), "b.txt");
    assert_eq!(name_of(&chosen.right), "a.txt");
    assert!(!chosen.from_one_pane);
}

#[test]
fn marks_in_the_other_pane_count_when_this_one_has_none() {
    // Marking a pair and then tabbing across still does what you meant.
    let (mut disk, left, mut right) = panels();
    disk.write("/root/right/d.txt", "d\n");
    reload(&mut right, &disk);
    mark(&mut right, &["a.txt", "d.txt"]);

    let chosen = choose_files(&left, &right, true).unwrap();
    assert!(chosen.from_one_pane);
    assert_eq!(name_of(&chosen.left), "a.txt");
    assert_eq!(name_of(&chosen.right), "d.txt");
}

#[test]
fn the_active_panes_marks_win_over_the_others() {
    let (mut disk, mut left, mut right) = panels();
    disk.write("/root/right/d.txt", "d\n");
    reload(&mut right, &disk);
    mark(&mut left, &["a.txt", "b.txt"]);
    mark(&mut right, &["a.txt", "d.txt"]);

    // With the left pane active it is the left pane's pair...
    let chosen = choose_files(&left, &right, true).unwrap();
    assert_eq!(Some(folder_of(&chosen.left)), Some(left.cwd.as_str()));
    assert_eq!(name_of(&chosen.right), "b.txt");

    // ...and with the right pane active it is the right pane's.
    let chosen = choose_files(&left, &right, false).unwrap();
    assert_eq!(Some(folder_of(&chosen.left)), Some(right.cwd.as_str()));
    assert_eq!(name_of(&chosen.right), "d.txt");
}

#[test]
fn marks_that_are_not_a_pair_are_a_message_rather_than_a_guess() {
    let (mut disk, mut left, mut right) = panels();
    put_cursor(&mut right, "a.txt");
    mark(&mut left, &["a.txt", "b.txt", "c.txt"]);
    let error = choose_files(&left, &right, true).unwrap_err();
    assert!(error.contains("exactly two"), "{error}");
}

#[test]
fn one_mark_here_and_a_cursor_there_is_a_pair() {
    // A mark beats the cursor for a single file, as it does for every
    // other operation in the program.
    let (mut disk, mut left, mut right) = panels();
    mark(&mut left, &["c.txt"]);
    put_cursor(&mut left, "a.txt");
    put_cursor(&mut right, "a.txt");

    let chosen = choose_files(&left, &right, true).unwrap();
    assert_eq!(name_of(&chosen.left), "c.txt");
    assert_eq!(name_of(&chosen.right), "a.txt");
    assert!(!chosen.from_one_pane);
}

#[test]
fn a_directory_is_never_one_of_the_two() {
    let (mut disk, mut left, mut right) = panels();
    put_cursor(&mut left, "sub");
    put_cursor(&mut right, "a.txt");
    let error = choose_files(&left, &right, true).unwrap_err();
    assert!(error.contains("cursor"), "{error}");

    // And the same for the parent row.
    left.cursor_home();
    assert!(choose_files(&left, &right, true).is_err());

    // A marked directory is not a file either, so marking one beside a
    // file leaves one file rather than a pair - and one file plus the
    // other pane's cursor is a perfectly good pair.
    mark(&mut left, &["sub", "a.txt"]);
    let chosen = choose_files(&left, &right, true).unwrap();
    assert_eq!(name_of(&chosen.left), "a.txt");
}

#[test]
fn a_file_is_not_compared_with_itself() {
    let (mut disk, mut left, mut right) = panels();
    right.chdir(left.cwd.clone(), disk.look(&left.cwd));
    put_cursor(&mut left, "a.txt");
    put_cursor(&mut right, "a.txt");
    let error = choose_files(&left, &right, true).unwrap_err();
    assert!(error.contains("same file"), "{error}");
}

#[test]
fn reading_refuses_what_it_cannot_show() {
    assert!(matches!(
        read(6, &[0u8, 1, 2, 3, 0, 5], false),
        Err(Refusal::Binary { .. })
    ));
    assert!(matches!(
        read(MAX_BYTES + 1, b"", true),
        Err(Refusal::TooBig { .. })
    ));
    assert_eq!(read(8, b"one\ntwo\n", true).unwrap(), ["one", "two"]);
}

#[test]
fn two_files_nobody_can_read_get_a_yes_or_a_no() {
    let binary = || read(4, &[0u8, 1, 2, 3], false);
    assert_eq!(
        compare_files(binary(), binary(), None),
        Err(Refusal::Binary { at: None })
    );
    assert_eq!(
        compare_files(binary(), read(4, &[0u8, 9, 9, 9], false), Some(1)),
        Err(Refusal::Binary { at: Some(1) }),
        "they agree on the first byte and differ on the second"
    );
    assert!(Refusal::Binary { at: None }.message().contains("identical"));
    let said = Refusal::Binary { at: Some(70_000) }.message();
    assert!(said.contains("70000") && said.contains("0x11170"), "{said}");
}

#[test]
fn comparing_two_real_files() {
    let a = read(14, b"one\ntwo\nthree\n", true);
    let b = read(14, b"one\nTWO\nthree\n", true);
    let diff = compare_files(a, b, None).unwrap();
    assert_eq!(shown(&diff), [" one", "-two", "+TWO", " three"]);
}

#[test]
fn a_long_file_with_one_change_is_cheap_to_align() {
    // The point of Myers: cost follows the size of the difference, not
    // the size of the files. Ten thousand lines and one edit.
    let left: Vec<String> = (0..10_000).map(|n| format!("line {n}")).collect();
    let mut right = left.clone();
    right[5_000] = "changed".to_string();

    let diff = align(&left, &right);
    assert_eq!(diff.changes, 2, "one line out, one line in");
    assert!(!diff.unaligned);
}

#[test]
fn what_cannot_be_read_is_said_as_it_was() {
    let gone = Err(Refusal::Unreadable("no such file".to_string()));
    let text = read(4, b"one\n", true);
    assert_eq!(
        compare_files(gone.clone(), text, None),
        Err(Refusal::Unreadable("no such file".to_string()))
    );
    assert!(Refusal::TooBig { bytes: 20 << 20 }.message().contains("20.0M"));
    assert!(Refusal::Unreadable("no such file".to_string())
        .message()
        .contains("no such file"));
}

#[test]
fn the_script_is_no_longer_than_it_has_to_be() {
    let left = text(&["a", "b", "c", "a", "b", "b", "a"]);
    let right = text(&["c", "b", "a", "b", "a", "c"]);
    assert_eq!(align(&left, &right).changes, 5);
    assert!(script(&left, &right, 5).is_some());
    assert!(script(&left, &right, 4).is_none());
    assert!(MAX_EDITS >= 5);
}

#[test]
fn a_pane_offers_its_marks_and_its_cursor() {
    let (_, mut left, _) = panels();
    mark(&mut left, &["a.txt", "sub"]);
    put_cursor(&mut left, "b.txt");
    let side = Side::of(&left);
    assert_eq!(side.marked, vec!["/root/left/a.txt".to_string()]);
    assert_eq!(side.cursor.as_deref(), Some("/root/left/b.txt"));
    assert!(choose_from(Style::Unix, &side, &Side::default(), true).is_err());
    let empty = Diff::default();
    assert!(empty.rows.is_empty() && empty.next_change(0).is_none());
}

#[test]
fn a_script_takes_any_bound() {
    let lines = |list: &[&str]| -> Vec<String> { list.iter().map(|l| l.to_string()).collect() };
    let left = lines(&["a", "b", "c"]);
    let right = lines(&["a", "x", "c"]);
    let free = script(&left, &right, usize::MAX).unwrap();
    assert_eq!(free.iter().filter(|e| **e != Edit::Keep).count(), 2);
    assert_eq!(script(&left, &right, 2), Some(free));
    assert_eq!(script(&left, &right, 1), None);
}
