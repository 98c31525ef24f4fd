use lost_commander::archive;
use lost_commander::archive::{identified, list_with, FormatKind, Listing, Member};
use lost_commander::entry::{Entry, EntryKind};
use lost_commander::moment::Moment;
use lost_commander::panel::{
    listing, matches_glob, matches_glob_with, signature, Found, Look, Order, Panel, Seen,
    Signature, SortBy, WATCH_DETAIL_LIMIT,
};
use lost_commander::pathname::Style;
use std::collections::BTreeMap;

const ROOT: &str = "/root";

/// Files and directories kept in memory, with a clock of their own.
struct Disk {
    nodes: BTreeMap<String, Node>,
    clock: i64,
}

struct Node {
    is_dir: bool,
    size: u64,
    modified: i64,
}

impl Disk {
    fn new() -> Disk {
        let mut disk = Disk {
            nodes: BTreeMap::new(),
            clock: 1_000,
        };
        disk.mkdir(ROOT);
        disk
    }

    fn touch(&mut self, path: &str) {
        self.clock += 10;
        let clock = self.clock;
        let parent = path.rsplit_once('/').unwrap().0;
        if let Some(dir) = self.nodes.get_mut(parent) {
            dir.modified = clock;
        }
    }

    fn mkdir(&mut self, path: &str) {
        self.touch(path);
        let modified = self.clock;
        self.nodes.insert(
            path.to_string(),
            Node {
                is_dir: true,
                size: 0,
                modified,
            },
        );
    }

    fn write(&mut self, path: &str, text: &str) {
        if self.nodes.contains_key(path) {
            self.clock += 10;
        } else {
            self.touch(path);
        }
        let modified = self.clock;
        self.nodes.insert(
            path.to_string(),
            Node {
                is_dir: false,
                size: text.len() as u64,
                modified,
            },
        );
    }

    fn remove(&mut self, path: &str) {
        self.touch(path);
        self.nodes.remove(path);
    }

    fn found(&self, dir: &str) -> Result<Vec<Found>, String> {
        if !self.nodes.get(dir).map(|n| n.is_dir).unwrap_or(false) {
            return Err("no such directory".to_string());
        }
        Ok(self
            .nodes
            .iter()
            .filter(|(path, _)| path.rsplit_once('/').unwrap().0 == dir)
            .map(|(path, node)| Found {
                name: path.rsplit_once('/').unwrap().1.to_string(),
                path: path.clone(),
                hidden: false,
                is_symlink: false,
                is_dir: node.is_dir,
                size: node.size,
                modified: Some(Moment::from_seconds(node.modified)),
                mode: None,
            })
            .collect())
    }

    fn signature(&self, dir: &str, limit: usize) -> Signature {
        match (self.nodes.get(dir), self.found(dir)) {
            (Some(node), Ok(found)) => {
                let seen: Vec<Option<Seen>> = found
                    .iter()
                    .map(|f| {
                        Some(Seen {
                            size: f.size,
                            modified: f.modified,
                        })
                    })
                    .collect();
                signature(Some(Moment::from_seconds(node.modified)), Some(&seen), limit)
            }
            _ => signature(None, None, limit),
        }
    }

    fn look(&self, dir: &str) -> Look {
        Look {
            entries: self.found(dir),
            signature: self.signature(dir, WATCH_DETAIL_LIMIT),
        }
    }
}

fn panel_on(disk: &Disk, dir: &str) -> Panel {
    Panel::new(Style::Unix, dir.to_string(), disk.look(dir))
}

fn reload(panel: &mut Panel, disk: &Disk) {
    let look = disk.look(&panel.cwd);
    panel.reload(look);
}

fn poll(panel: &mut Panel, disk: &Disk) -> bool {
    let now = disk.signature(&panel.cwd, WATCH_DETAIL_LIMIT);
    let look = disk.look(&panel.cwd);
    panel.poll_changes(now, look)
}

fn enter(panel: &mut Panel, disk: &Disk) -> bool {
    let look = disk.look(&panel.way_in().unwrap_or_default());
    panel.enter(look)
}

fn read_entries(
    disk: &Disk,
    show_hidden: bool,
    sort_by: SortBy,
    order: Order,
) -> Result<Vec<Entry>, String> {
    let found = disk.found(ROOT)?;
    Ok(listing::read_entries(Style::Unix, found, ROOT, show_hidden, sort_by, order))
}

fn fixture() -> Disk {
    let mut dir = Disk::new();
    dir.mkdir("/root/zeta_dir");
    dir.mkdir("/root/alpha_dir");
    dir.write("/root/b.txt", "hello");
    dir.write("/root/a.rs", "0123456789");
    dir.write("/root/.hidden", "");
    dir
}

/// Two directories with a file each, and a panel showing the first.
fn two_directories() -> (Disk, Panel) {
    let mut dir = Disk::new();
    for name in ["one", "two"] {
        dir.mkdir(&format!("/root/{name}"));
        dir.write(&format!("/root/{name}/same-name.txt"), "x");
    }
    let panel = panel_on(&dir, "/root/one");
    (dir, panel)
}

/// A directory with an archive in it, and the archive's path.
fn with_a_zip() -> (Disk, &'static str) {
    let mut dir = Disk::new();
    dir.write("/root/loose.txt", "beside it\n");
    dir.write("/root/papers.zip", "PK");
    (dir, "/root/papers.zip")
}

/// What that archive holds: two levels.
fn papers() -> Listing {
    let member = |path: &str, size: u64, is_dir: bool| Member {
        path: path.to_string(),
        size,
        is_dir,
        modified: Some(Moment::from_seconds(1_000)),
        ..Member::default()
    };
    list_with(
        &archive::format(FormatKind::Zip),
        &[
            member("readme.txt", 11, false),
            member("docs/", 0, true),
            member("docs/notes.txt", 12, false),
            member("docs/deep/buried.txt", 9, false),
        ],
    )
}

fn marked(panel: &Panel) -> Vec<String> {
    panel
        .entries
        .iter()
        .filter(|e| e.marked)
        .map(|e| e.name.clone())
        .collect()
}

#[test]
fn a_glob_matches_the_way_a_typed_pattern_is_meant_to() {
    assert!(matches_glob("*.txt", "notes.txt"));
    assert!(!matches_glob("*.txt", "notes.txt.bak"));
    assert!(matches_glob("*", "anything"));
    assert!(matches_glob("*", ""), "a star may match nothing");
    assert!(matches_glob("a?c", "abc"));
    assert!(!matches_glob("a?c", "ac"), "? is exactly one");

    // Typed as *.JPG, meant to catch photo.jpg: the user is naming a kind
    // of file, not a byte sequence.
    assert!(matches_glob("*.JPG", "photo.jpg"));
    assert!(matches_glob("*.jpg", "PHOTO.JPG"));

    // Several stars, and the backtracking they need.
    assert!(matches_glob("*report*.pdf", "2026-report-final.pdf"));
    assert!(!matches_glob("*report*.pdf", "2026-summary.pdf"));
    assert!(matches_glob("a*b*c", "axxbyyc"));
    assert!(!matches_glob("a*b*c", "axxbyy"));

    // The case that makes a naive matcher loop or give up early: the star
    // has to give back what it took.
    assert!(matches_glob("*aab", "aaab"));
    assert!(matches_glob("*ab*ab", "abab"));

    // A plain name is just a name.
    assert!(matches_glob("Makefile", "makefile"));
    assert!(!matches_glob("Makefile", "Makefile.in"));
}

#[test]
fn selecting_in_bulk_never_takes_the_parent_entry() {
    let dir = fixture();
    let mut panel = panel_on(&dir, ROOT);
    assert_eq!(panel.entries[0].name, "..");

    panel.mark_all();
    assert!(!panel.entries[0].marked, ".. is not a file");
    assert_eq!(panel.marked_count(), panel.entries.len() - 1);
    // And it never becomes a target, however it was marked.
    assert!(!panel.action_targets().iter().any(|p| p.ends_with("/..")));

    panel.invert_marks();
    assert_eq!(panel.marked_count(), 0);
    panel.invert_marks();
    assert_eq!(panel.marked_count(), panel.entries.len() - 1);

    panel.clear_marks();
    panel.mark_range(0, panel.entries.len() - 1, false);
    assert!(!panel.entries[0].marked);
}

#[test]
fn a_range_is_marked_either_way_round() {
    let dir = fixture();
    let mut panel = panel_on(&dir, ROOT);
    let last = panel.entries.len() - 1;

    panel.mark_range(1, 3, false);
    assert_eq!(panel.marked_count(), 3);

    // Dragged upwards: the same range.
    panel.mark_range(3, 1, false);
    assert_eq!(panel.marked_count(), 3);

    // Not additive, so the previous range goes.
    panel.mark_range(last, last, false);
    assert_eq!(panel.marked_count(), 1);

    // Additive keeps it, which is ctrl-shift-click.
    panel.mark_range(1, 2, true);
    assert_eq!(panel.marked_count(), 3);

    // Out of range indices are clamped rather than panicking.
    panel.mark_range(0, 9999, false);
    assert_eq!(panel.marked_count(), panel.entries.len() - 1);
}

#[test]
fn a_pattern_selects_and_deselects_what_it_matches() {
    let dir = fixture();
    let mut panel = panel_on(&dir, ROOT);

    assert_eq!(panel.mark_matching("*.txt", true), 1);
    assert_eq!(marked(&panel), ["b.txt"]);

    // Already-marked entries are not counted again.
    assert_eq!(panel.mark_matching("*.txt", true), 0);

    assert_eq!(panel.mark_matching("*_dir", true), 2);
    assert_eq!(panel.marked_count(), 3);

    // Grey-minus: take a subset back out.
    assert_eq!(panel.mark_matching("alpha*", false), 1);
    assert_eq!(panel.marked_count(), 2);

    // A pattern matching nothing changes nothing.
    assert_eq!(panel.mark_matching("*.nope", true), 0);
}

#[test]
fn each_column_starts_the_way_it_reads_best() {
    // Written down because a front-end has to know the same thing to draw
    // the right arrow before it has asked for a listing, and a front-end
    // guessing differently would point the arrow the wrong way.
    assert_eq!(SortBy::Name.natural_order(), Order::Ascending);
    assert_eq!(SortBy::Ext.natural_order(), Order::Ascending);
    assert_eq!(SortBy::Size.natural_order(), Order::Descending);
    assert_eq!(SortBy::Time.natural_order(), Order::Descending);
}

#[test]
fn turning_a_column_over_leaves_the_directories_on_top() {
    // Reversing a sort by size should not send the folders to the bottom:
    // nobody asking for the biggest files first is asking for that.
    let mut dir = Disk::new();
    dir.mkdir("/root/a-folder");
    dir.write(&format!("{ROOT}/{}", "small.txt"), &"x".repeat(10));
    dir.write(&format!("{ROOT}/{}", "large.txt"), &"x".repeat(5000));

    for order in [Order::Ascending, Order::Descending] {
        let entries = read_entries(&dir, false, SortBy::Size, order).unwrap();
        let names: Vec<&str> = entries.iter().map(|e| e.name.as_str()).collect();
        assert_eq!(names[0], "..", "{order:?}");
        assert_eq!(names[1], "a-folder", "the folder stays on top: {order:?}");
    }

    // And the files themselves do turn over.
    let big_first = read_entries(&dir, false, SortBy::Size, Order::Descending).unwrap();
    let small_first = read_entries(&dir, false, SortBy::Size, Order::Ascending).unwrap();
    assert_eq!(big_first.last().unwrap().name, "small.txt");
    assert_eq!(small_first.last().unwrap().name, "large.txt");
}

#[test]
fn hidden_files_are_filtered_unless_requested() {
    let dir = fixture();
    let visible = read_entries(&dir,
        false,
        SortBy::Name,
        SortBy::Name.natural_order(),
    )
    .unwrap();
    assert!(!names(&visible).contains(&".hidden".to_string()));

    let all =
        read_entries(&dir, true, SortBy::Name, SortBy::Name.natural_order()).unwrap();
    assert!(names(&all).contains(&".hidden".to_string()));
}

#[test]
fn parent_entry_is_first_and_dirs_precede_files() {
    let dir = fixture();
    let entries = read_entries(&dir,
        false,
        SortBy::Name,
        SortBy::Name.natural_order(),
    )
    .unwrap();
    let listed = names(&entries);

    assert_eq!(listed[0], "..");
    assert_eq!(listed[1], "alpha_dir");
    assert_eq!(listed[2], "zeta_dir");
    // Files follow, sorted by name.
    assert_eq!(listed[3], "a.rs");
    assert_eq!(listed[4], "b.txt");
}

#[test]
fn sort_by_size_is_descending_for_files() {
    let dir = fixture();
    let entries = read_entries(&dir,
        false,
        SortBy::Size,
        SortBy::Size.natural_order(),
    )
    .unwrap();
    let files: Vec<&Entry> = entries.iter().filter(|e| !e.is_dir()).collect();
    // a.rs is 10 bytes, b.txt is 5.
    assert_eq!(files[0].name, "a.rs");
    assert_eq!(files[1].name, "b.txt");
}

#[test]
fn sort_by_ext_groups_extensions() {
    let dir = fixture();
    let entries =
        read_entries(&dir, false, SortBy::Ext, SortBy::Ext.natural_order()).unwrap();
    let files: Vec<String> = entries
        .iter()
        .filter(|e| !e.is_dir())
        .map(|e| e.name.clone())
        .collect();
    // ".rs" sorts before ".txt".
    assert_eq!(files, vec!["a.rs", "b.txt"]);
}

#[test]
fn entering_and_leaving_a_directory_restores_the_cursor() {
    let dir = fixture();
    let mut panel = panel_on(&dir, ROOT);

    let zeta = panel
        .entries
        .iter()
        .position(|e| e.name == "zeta_dir")
        .unwrap();
    panel.cursor_to(zeta);
    assert!(enter(&mut panel, &dir));
    assert_eq!(panel.cwd, format!("{ROOT}/{}", "zeta_dir"));

    // ".." is the only entry inside; going back should re-select zeta_dir.
    assert!(enter(&mut panel, &dir));
    assert_eq!(panel.cwd, ROOT);
    assert_eq!(panel.selected().unwrap().name, "zeta_dir");
}

#[test]
fn enter_on_a_file_is_a_no_op() {
    let dir = fixture();
    let mut panel = panel_on(&dir, ROOT);
    let idx = panel
        .entries
        .iter()
        .position(|e| e.name == "b.txt")
        .unwrap();
    panel.cursor_to(idx);

    assert!(!enter(&mut panel, &dir));
    assert_eq!(panel.cwd, ROOT);
}

#[test]
fn cursor_movement_is_clamped() {
    let dir = fixture();
    let mut panel = panel_on(&dir, ROOT);
    let len = panel.entries.len();

    panel.move_cursor(-100);
    assert_eq!(panel.cursor, 0);

    panel.move_cursor(1000);
    assert_eq!(panel.cursor, len - 1);

    panel.cursor_home();
    assert_eq!(panel.cursor, 0);

    panel.cursor_end();
    assert_eq!(panel.cursor, len - 1);
}

#[test]
fn marking_skips_parent_and_advances() {
    let dir = fixture();
    let mut panel = panel_on(&dir, ROOT);

    // Cursor starts on "..", which must never become marked.
    assert!(panel.selected().unwrap().is_parent());
    panel.toggle_mark();
    assert_eq!(panel.marked_count(), 0);
    assert_eq!(panel.cursor, 1);

    panel.toggle_mark();
    assert_eq!(panel.marked_count(), 1);
    assert_eq!(panel.cursor, 2);
}

#[test]
fn action_targets_prefers_marks_then_cursor() {
    let dir = fixture();
    let mut panel = panel_on(&dir, ROOT);

    // No marks: the cursor entry is the target, but never "..".
    panel.cursor_home();
    assert!(panel.action_targets().is_empty());

    let idx = panel.entries.iter().position(|e| e.name == "a.rs").unwrap();
    panel.cursor_to(idx);
    assert_eq!(panel.action_targets(), vec![format!("{ROOT}/{}", "a.rs")]);

    // With marks, the cursor is ignored.
    panel.cursor_to(1);
    panel.toggle_mark();
    panel.cursor_to(2);
    panel.toggle_mark();
    assert_eq!(panel.action_targets().len(), 2);
}

#[test]
fn marks_survive_a_reload() {
    let dir = fixture();
    let mut panel = panel_on(&dir, ROOT);
    let idx = panel.entries.iter().position(|e| e.name == "a.rs").unwrap();
    panel.cursor_to(idx);
    panel.toggle_mark();
    assert_eq!(panel.marked_count(), 1);

    reload(&mut panel, &dir);
    assert_eq!(panel.marked_count(), 1);
    assert!(
        panel
            .entries
            .iter()
            .find(|e| e.name == "a.rs")
            .unwrap()
            .marked
    );
}

#[test]
fn unreadable_directory_reports_an_error_instead_of_panicking() {
    let dir = Disk::new();
    let panel = panel_on(&dir, "/root/does-not-exist");
    assert!(panel.error.is_some());
}

#[test]
fn nothing_changing_is_not_a_change() {
    let mut dir = Disk::new();
    dir.write(&format!("{ROOT}/{}", "a.txt"), "a");
    let mut panel = panel_on(&dir, ROOT);

    assert!(!poll(&mut panel, &dir));
    assert!(!poll(&mut panel, &dir), "it kept finding a change");
}

#[test]
fn a_file_appearing_is_noticed() {
    let mut dir = Disk::new();
    let mut panel = panel_on(&dir, ROOT);
    assert_eq!(panel.entries.len(), 1); // just `..`

    dir.write(&format!("{ROOT}/{}", "new.txt"), "x");
    assert!(poll(&mut panel, &dir), "the new file went unnoticed");
    assert!(panel.entries.iter().any(|e| e.name == "new.txt"));
    // ...and the panel settles rather than reloading for ever.
    assert!(!poll(&mut panel, &dir));
}

#[test]
fn a_file_vanishing_is_noticed() {
    let mut dir = Disk::new();
    dir.write("/root/gone.txt", "x");
    let mut panel = panel_on(&dir, ROOT);

    dir.remove("/root/gone.txt");
    assert!(poll(&mut panel, &dir));
    assert!(!panel.entries.iter().any(|e| e.name == "gone.txt"));
}

#[test]
fn a_file_growing_is_noticed_even_though_the_directory_did_not_change() {
    // The case the directory's own timestamp misses: appending to a file
    // that is already there moves nothing about the directory itself, so
    // the size column would sit there being wrong.
    let mut dir = Disk::new();
    dir.write("/root/build.log", "one line\n");
    let mut panel = panel_on(&dir, ROOT);
    let size = |panel: &Panel| {
        panel
            .entries
            .iter()
            .find(|e| e.name == "build.log")
            .unwrap()
            .size
    };
    let before = size(&panel);

    dir.write("/root/build.log", "one line\nand another\n");
    assert!(poll(&mut panel, &dir), "the file grew unnoticed");
    let after = size(&panel);
    assert!(after > before, "{before} -> {after}");
}

#[test]
fn a_refresh_keeps_the_cursor_and_the_marks() {
    // A listing that refreshed itself by throwing away where you were
    // would be worse than a stale one.
    let mut dir = Disk::new();
    for name in ["a.txt", "b.txt", "c.txt"] {
        dir.write(&format!("{ROOT}/{}", name), "x");
    }
    let mut panel = panel_on(&dir, ROOT);
    let b = panel
        .entries
        .iter()
        .position(|e| e.name == "b.txt")
        .unwrap();
    panel.cursor_to(b);
    panel.entries[b].marked = true;

    dir.write(&format!("{ROOT}/{}", "zz-new.txt"), "x");
    assert!(poll(&mut panel, &dir));

    assert_eq!(panel.selected().map(|e| e.name.as_str()), Some("b.txt"));
    assert!(panel.selected().unwrap().marked, "the mark was lost");
}

#[test]
fn a_directory_that_disappears_reads_as_a_change() {
    let mut dir = Disk::new();
    dir.mkdir("/root/here");
    let mut panel = panel_on(&dir, "/root/here");

    dir.remove("/root/here");
    assert!(
        poll(&mut panel, &dir),
        "the panel sat on a directory that had gone"
    );
    assert!(panel.error.is_some());
}

#[test]
fn a_tree_is_left_to_its_own_refresh() {
    // A tree is a view of a filesystem rather than of one directory, and
    // it has a refresh of its own.
    let mut dir = Disk::new();
    let mut panel = panel_on(&dir, ROOT);
    panel.enter_tree_mode();

    dir.write(&format!("{ROOT}/{}", "new.txt"), "x");
    assert!(!poll(&mut panel, &dir));
}

#[test]
fn a_big_directory_costs_one_look_rather_than_one_per_entry() {
    // Reading a directory is one syscall however many entries it has;
    // asking each entry for its size is one each. Past the limit the
    // detail is dropped - so the signature is the count and the
    // directory's own time, and it must not depend on the order the
    // entries happened to come back in.
    let mut dir = Disk::new();
    for n in 0..10 {
        dir.write(&format!("{ROOT}/{}", format!("f{n}.txt")), "x");
    }
    let small = dir.signature(ROOT, 100);
    let big = dir.signature(ROOT, 5);

    assert_eq!(small.count, big.count);
    assert!(small.bytes > 0 && small.newest.is_some());
    assert_eq!(big.bytes, 0, "detail kept past the limit");
    assert_eq!(big.newest, None);
    // Repeating it gives the same answer, whatever the read order.
    assert_eq!(dir.signature(ROOT, 5), big);
}

#[test]
fn an_unreadable_directory_still_has_a_signature() {
    assert_eq!(
        Disk::new().signature("/no/such/directory/at/all", 100),
        Signature::default()
    );
}

#[test]
fn a_directory_that_cannot_be_listed_has_the_default_signature() {
    assert_eq!(
        signature(Some(Moment::from_seconds(1_000)), None, 100),
        Signature::default()
    );
}

#[test]
fn a_tag_survives_walking_to_another_directory_and_back() {
    let (dir, mut panel) = two_directories();
    panel.enter_tree_mode();

    let at = panel
        .entries
        .iter()
        .position(|e| e.name == "same-name.txt")
        .unwrap();
    panel.cursor_to(at);
    panel.toggle_mark();
    assert_eq!(panel.tagged_count(), 1);

    // Away, and the mark is not on any row here...
    panel.cwd = "/root/two".to_string();
    reload(&mut panel, &dir);
    assert!(
        panel.entries.iter().all(|e| !e.marked),
        "a file of the same name in another directory is a different file"
    );
    assert_eq!(panel.tagged_count(), 1, "and the tag is still held");

    // ...and back, where it is.
    panel.cwd = "/root/one".to_string();
    reload(&mut panel, &dir);
    assert!(
        panel
            .entries
            .iter()
            .any(|e| e.marked && e.name == "same-name.txt"),
        "the tag comes back onto the row it was made on"
    );
}

#[test]
fn untagging_sticks_rather_than_coming_back_on_the_next_reload() {
    // The failure this guards is subtle: if unmarking only cleared the
    // row and not the set, the file would look unmarked until anything
    // re-read the directory and then quietly mark itself again.
    let (dir, mut panel) = two_directories();
    panel.enter_tree_mode();

    let at = panel
        .entries
        .iter()
        .position(|e| e.name == "same-name.txt")
        .unwrap();
    panel.cursor_to(at);
    panel.toggle_mark();
    panel.cursor_to(at);
    panel.toggle_mark();

    assert_eq!(panel.tagged_count(), 0);
    reload(&mut panel, &dir);
    assert!(panel.entries.iter().all(|e| !e.marked));
}

#[test]
fn tags_do_not_outlive_the_tree_that_made_them_reachable() {
    let (dir, mut panel) = two_directories();
    panel.enter_tree_mode();
    panel.mark_all();
    assert!(panel.tagged_count() > 0);

    panel.leave_tree_mode();
    // Without a tree every marked file is on screen. A set spread over
    // directories the reader can no longer reach is one they cannot undo.
    assert_eq!(panel.tagged_count(), 0);
}

#[test]
fn without_a_tree_nothing_is_tagged_at_all() {
    // The whole point of gating on the tree: an ordinary two-pane listing
    // gains no lasting set, so nothing about it changes.
    let (dir, mut panel) = two_directories();
    panel.mark_all();
    assert_eq!(panel.tagged_count(), 0, "no tree, no lasting set");

    // Not asserted here: whether the *rows* keep their marks. `reload`
    // has always restored them by name, and both directories hold a
    // `same-name.txt` - which is exactly the confusion the tagged set
    // exists to avoid, and is pre-existing behaviour either way.
    panel.cwd = "/root/two".to_string();
    reload(&mut panel, &dir);
    assert_eq!(panel.tagged_count(), 0);
}

#[test]
fn the_parent_row_is_never_tagged() {
    let (dir, mut panel) = two_directories();
    panel.enter_tree_mode();
    panel.mark_all();
    panel.invert_marks();
    panel.mark_range(0, panel.entries.len(), true);

    // `..` is not a file, and a job that tried to copy it would be acting
    // on the directory the reader is standing in.
    assert!(panel.tagged_paths().iter().all(|p| !p.ends_with("/..")));
}

#[test]
fn walking_in_and_around_and_back_out() {
    let (dir, archive) = with_a_zip();
    let mut panel = panel_on(&dir, ROOT);
    assert!(!panel.in_archive());

    // In.
    panel.open_archive(archive, Ok(papers()), None).expect("opens");
    assert!(panel.in_archive());
    assert_eq!(names(&panel.entries), vec!["..", "docs", "readme.txt"]);
    // The path shown is the archive itself, which is what a breadcrumb
    // and a title want.
    assert_eq!(panel.cwd, archive);

    // Down a level.
    panel.cursor = names(&panel.entries).iter().position(|n| n == "docs").unwrap();
    assert!(enter(&mut panel, &dir));
    assert_eq!(names(&panel.entries), vec!["..", "deep", "notes.txt"]);
    assert_eq!(panel.cwd, format!("{archive}/docs"));

    // And another.
    panel.cursor = names(&panel.entries).iter().position(|n| n == "deep").unwrap();
    assert!(enter(&mut panel, &dir));
    assert_eq!(names(&panel.entries), vec!["..", "buried.txt"]);

    // Back up, landing on where we came from.
    panel.cursor = 0;
    assert!(enter(&mut panel, &dir));
    assert_eq!(panel.selected().unwrap().name, "deep", "landed on it");
    assert!(panel.in_archive());

    // Up again: still inside, at the top.
    panel.cursor = 0;
    assert!(enter(&mut panel, &dir));
    assert_eq!(panel.selected().unwrap().name, "docs");

    // And out, landing on the archive in the folder that holds it.
    panel.cursor = 0;
    assert!(enter(&mut panel, &dir));
    assert!(!panel.in_archive(), "left the archive");
    assert_eq!(panel.cwd, ROOT);
    assert_eq!(panel.selected().unwrap().name, "papers.zip");
}

#[test]
fn a_member_keeps_its_size_and_a_directory_has_none() {
    let (dir, archive) = with_a_zip();
    let mut panel = panel_on(&dir, ROOT);
    panel.open_archive(archive, Ok(papers()), None).unwrap();

    let readme = panel
        .entries
        .iter()
        .find(|e| e.name == "readme.txt")
        .expect("readme");
    assert_eq!(readme.size, 11);
    assert_eq!(readme.kind, EntryKind::File);
    assert!(readme.modified.is_some(), "a zip carries dates");

    let docs = panel.entries.iter().find(|e| e.name == "docs").unwrap();
    assert!(docs.is_dir());
}

#[test]
fn the_member_path_comes_back_for_reading_it() {
    let (dir, archive) = with_a_zip();
    let mut panel = panel_on(&dir, ROOT);
    panel.open_archive(archive, Ok(papers()), None).unwrap();
    panel.cursor = names(&panel.entries).iter().position(|n| n == "docs").unwrap();
    enter(&mut panel, &dir);

    let notes = panel
        .entries
        .iter()
        .find(|e| e.name == "notes.txt")
        .unwrap()
        .clone();
    assert_eq!(panel.member_of(&notes).as_deref(), Some("docs/notes.txt"));
}

#[test]
fn a_reload_keeps_the_level_being_looked_at() {
    // Panels reload on a timer and after every operation. One that forgot
    // where it was would throw the user back to the archive's top level
    // in the middle of working two levels down.
    let (dir, archive) = with_a_zip();
    let mut panel = panel_on(&dir, ROOT);
    panel.open_archive(archive, Ok(papers()), None).unwrap();
    panel.cursor = names(&panel.entries).iter().position(|n| n == "docs").unwrap();
    enter(&mut panel, &dir);
    assert_eq!(panel.inside.as_ref().unwrap().at, "docs");

    reload(&mut panel, &dir);
    assert_eq!(panel.inside.as_ref().unwrap().at, "docs", "after a reload");
    assert!(names(&panel.entries).contains(&"notes.txt".to_string()));

    // And the timer's own check does not walk it out either.
    poll(&mut panel, &dir);
    assert_eq!(panel.inside.as_ref().unwrap().at, "docs", "after a poll");
    assert!(panel.in_archive());
}

#[test]
fn asking_for_a_directory_leaves_the_archive() {
    // chdir means a directory. A panel left half-inside would list an
    // archive's members under a folder's path.
    let (dir, archive) = with_a_zip();
    let mut panel = panel_on(&dir, ROOT);
    panel.open_archive(archive, Ok(papers()), None).unwrap();
    assert!(panel.in_archive());

    panel.chdir(ROOT.to_string(), dir.look(ROOT));
    assert!(!panel.in_archive());
    assert!(names(&panel.entries).contains(&"loose.txt".to_string()));
}

#[test]
fn something_that_is_not_an_archive_is_not_opened() {
    let mut dir = Disk::new();
    dir.write("/root/notes.txt", "just text\n");
    let mut panel = panel_on(&dir, ROOT);
    let refused = identified(Style::Unix, b"just text\n", "/root/notes.txt")
        .map(|format| list_with(&format, &[]));
    assert!(panel.open_archive("/root/notes.txt", refused, None).is_err());
    assert!(!panel.in_archive(), "and the panel is left where it was");
}

fn names(entries: &[Entry]) -> Vec<String> {
    entries.iter().map(|e| e.name.clone()).collect()
}

#[test]
fn a_glob_can_be_told_to_mind_the_case() {
    assert!(matches_glob_with("*.JPG", "photo.jpg", false));
    assert!(!matches_glob_with("*.JPG", "photo.jpg", true));
    assert!(matches_glob_with("*.jpg", "photo.jpg", true));
}

#[test]
fn going_up_lands_on_the_directory_left_behind() {
    let dir = fixture();
    let mut panel = panel_on(&dir, "/root/zeta_dir");
    let look = dir.look(&panel.way_up().unwrap());
    panel.go_parent(look);
    assert_eq!(panel.cwd, ROOT);
    assert_eq!(panel.selected().unwrap().name, "zeta_dir");
}

#[test]
fn leaving_an_archive_lands_on_it() {
    let (dir, archive) = with_a_zip();
    let mut panel = panel_on(&dir, ROOT);
    panel.open_archive(archive, Ok(papers()), None).unwrap();
    let look = dir.look(&panel.way_out().unwrap());
    panel.leave_archive(look);
    assert!(!panel.in_archive());
    assert_eq!(panel.selected().unwrap().name, "papers.zip");
}

#[test]
fn a_column_chosen_again_turns_over() {
    let dir = fixture();
    let mut panel = panel_on(&dir, ROOT);
    panel.set_sort(SortBy::Size, dir.look(ROOT));
    assert_eq!(panel.order, Order::Descending);
    panel.flip_order(dir.look(ROOT));
    assert_eq!(panel.order, Order::Ascending);
    assert_eq!(panel.entries.last().unwrap().name, "a.rs");
    panel.toggle_hidden(dir.look(ROOT));
    assert!(names(&panel.entries).contains(&".hidden".to_string()));
}

#[test]
fn the_marked_size_adds_up() {
    let dir = fixture();
    let mut panel = panel_on(&dir, ROOT);
    panel.mark_all();
    assert_eq!(panel.marked_size(), 15);
    assert_eq!(panel.action_entries().len(), 4);
}

#[test]
fn a_panel_says_whether_it_shows_a_tree() {
    let disk = Disk::new();
    let mut panel = panel_on(&disk, ROOT);
    assert!(!panel.in_tree_mode());
    panel.enter_tree_mode();
    assert!(panel.in_tree_mode());
}

#[test]
fn a_long_listing_comes_in_order_and_whole() {
    let found: Vec<Found> = (0..20_000u64)
        .map(|i| {
            let name = format!("file{:05}.txt", (i * 7_919) % 20_000);
            Found {
                path: format!("/root/{name}"),
                name,
                hidden: false,
                is_symlink: false,
                is_dir: false,
                size: i % 3,
                modified: None,
                mode: None,
            }
        })
        .collect();
    let entries = listing::read_entries(Style::Unix, found, ROOT, false, SortBy::Size, Order::Ascending);
    let files: Vec<&Entry> = entries.iter().filter(|e| e.kind == EntryKind::File).collect();
    assert_eq!(files.len(), 20_000);
    for pair in files.windows(2) {
        let (a, b) = (pair[0], pair[1]);
        assert!(a.size < b.size || (a.size == b.size && a.name < b.name));
    }
}
