use lost_commander::dupes::{
    by_size, confirm, hash, lines, looking_at, reclaimed, same_hash, ticked, to_remove, toggle_at,
    walk_into, wasted, without_hard_links, Candidate, Duplicates, Group, Line, Listed, Options,
    Verifying, Visit, Walk, FNV_OFFSET, FNV_PRIME, MAX_GROUPS,
};
use lost_commander::pathname::Style;

/// A file: its path, what it holds, and what the file system calls it.
struct File {
    path: String,
    bytes: Vec<u8>,
    identity: Option<(u64, u64)>,
}

fn file(path: &str, bytes: &[u8]) -> File {
    File {
        path: path.to_string(),
        bytes: bytes.to_vec(),
        identity: None,
    }
}

/// Files with a known set of duplicates among them.
fn fixture() -> Vec<File> {
    vec![
        // Three copies of one thing, in three places.
        file("a.txt", b"the very same contents\n"),
        file("deep/b.txt", b"the very same contents\n"),
        file("deep/deeper/c.txt", b"the very same contents\n"),
        // Two copies of another.
        file("x.bin", &[7u8; 4096]),
        file("deep/y.bin", &[7u8; 4096]),
        // The same length as x.bin, and not the same bytes - the case that
        // size alone would get wrong.
        file("z.bin", &[9u8; 4096]),
        // On its own.
        file("only.txt", b"unique\n"),
        // Hidden, and empty.
        file(".hidden", b"the very same contents\n"),
        file("empty-one", b""),
        file("empty-two", b""),
    ]
}

/// What is in one directory of the tree the files make up.
fn listing(files: &[File], dir: &str) -> Vec<Listed> {
    let mut listed: Vec<Listed> = Vec::new();
    for file in files {
        let rest = match file.path.strip_prefix(dir) {
            Some(rest) => rest,
            None => continue,
        };
        let name = rest.split('/').next().unwrap().to_string();
        if listed.iter().any(|l| l.name == name) {
            continue;
        }
        let is_dir = name != rest;
        listed.push(Listed {
            path: format!("{dir}{name}"),
            name,
            is_dir,
            is_symlink: false,
            is_file: !is_dir,
            size: if is_dir { 0 } else { file.bytes.len() as u64 },
            identity: if is_dir { None } else { file.identity },
        });
    }
    listed
}

fn groups(files: &[File], options: &Options) -> Vec<Group> {
    let bytes = |path: &str| &files.iter().find(|f| f.path == path).unwrap().bytes;
    let mut walk = Walk::new(*options, String::new());
    let mut candidates: Vec<Candidate> = Vec::new();
    while let Some(visit) = walk.next() {
        match visit {
            Visit::Enter(dir) if dir.is_empty() => walk.listed(listing(files, "")),
            Visit::Enter(dir) => walk.listed(listing(files, &format!("{dir}/"))),
            Visit::Take(candidate) => candidates.push(candidate),
        }
    }
    let mut found = Vec::new();
    for sized in by_size(Style::Unix, without_hard_links(candidates)) {
        let sums = sized
            .iter()
            .map(|c| Some(hash(FNV_OFFSET, bytes(&c.path))))
            .collect();
        let mut sets: Vec<Vec<String>> = Vec::new();
        for alike in same_hash(&sized, &sums) {
            let mut verifying = Verifying::new(alike);
            while let Some((one, other)) = verifying.question() {
                let same = bytes(one) == bytes(other);
                verifying.answer(same);
            }
            sets.extend(verifying.sets());
        }
        found.extend(confirm(sized[0].size, sets));
    }
    found
}

/// The groups a walk finds, as sorted lists of names.
fn found(files: &[File], options: &Options) -> Vec<Vec<String>> {
    let mut out: Vec<Vec<String>> = groups(files, options)
        .iter()
        .map(|group| {
            let mut names: Vec<String> = group
                .copies
                .iter()
                .map(|c| c.path.rsplit('/').next().unwrap().to_string())
                .collect();
            names.sort();
            names
        })
        .collect();
    out.sort();
    out
}

fn candidate(path: &str, size: u64) -> Candidate {
    Candidate {
        path: path.to_string(),
        size,
        identity: None,
    }
}

#[test]
fn identical_files_are_found_however_deep_they_are() {
    let root = fixture();
    assert_eq!(
        found(&root, &Options::default()),
        [
            vec!["a.txt".to_string(), "b.txt".into(), "c.txt".into()],
            vec!["x.bin".to_string(), "y.bin".into()],
        ]
    );
}

#[test]
fn two_files_of_one_size_are_not_two_copies() {
    // x.bin and z.bin are both 4096 bytes and share not one byte of
    // content. Grouping by size alone would call them copies; reading
    // them is the only thing that answers it.
    let root = fixture();
    let groups = found(&root, &Options::default());
    let together = groups
        .iter()
        .any(|g| g.contains(&"z.bin".to_string()) && g.contains(&"x.bin".to_string()));
    assert!(!together, "{groups:?}");
}

#[test]
fn empty_files_are_left_out_unless_asked_for() {
    let root = fixture();
    let default = found(&root, &Options::default());
    assert!(
        !default.iter().any(|g| g.contains(&"empty-one".to_string())),
        "every empty file is a copy of every other, which is true and useless"
    );

    let everything = found(&root,
        &Options {
            smallest: 0,
            ..Options::default()
        },
    );
    assert!(everything
        .iter()
        .any(|g| g.contains(&"empty-one".to_string())));
}

#[test]
fn dupes_hidden_files_are_left_out_unless_asked_for() {
    let root = fixture();
    let without = found(&root, &Options::default());
    assert!(!without.iter().any(|g| g.contains(&".hidden".to_string())));

    let with = found(&root,
        &Options {
            include_hidden: true,
            ..Options::default()
        },
    );
    assert!(with.iter().any(|g| g.contains(&".hidden".to_string())));
}

#[test]
fn two_names_for_one_file_are_not_two_files() {
    // Deleting one of them reclaims nothing, so offering them as
    // duplicates would be offering to do nothing and call it tidying.
    let mut root = vec![
        file("original.txt", b"shared\n"),
        file("another-name.txt", b"shared\n"),
    ];
    root[0].identity = Some((1, 7));
    root[1].identity = Some((1, 7));

    assert!(
        found(&root, &Options::default()).is_empty(),
        "a hard link is the same file, not a copy of it"
    );

    // A real copy beside them is still found, and only once.
    root.push(file("copy.txt", b"shared\n"));
    root[2].identity = Some((1, 8));
    let groups = found(&root, &Options::default());
    assert_eq!(groups.len(), 1);
    assert_eq!(groups[0].len(), 2);
}

#[test]
fn grouping_by_size_drops_the_sizes_only_one_file_has() {
    let files = vec![
        candidate("/a", 10),
        candidate("/b", 20),
        candidate("/c", 10),
        candidate("/d", 30),
        candidate("/e", 30),
        candidate("/f", 30),
    ];
    let groups = by_size(Style::Unix, files);
    assert_eq!(groups.len(), 2, "20 belongs to one file and is dropped");
    assert_eq!(groups[0].len(), 3, "largest first");
    assert_eq!(groups[0][0].size, 30);
    assert_eq!(groups[1][0].size, 10);
}

#[test]
fn a_group_will_not_let_go_of_its_last_copy() {
    let mut group = Group::new(100, vec!["/a".into(), "/b".into()]);
    assert_eq!(group.keeping(), 2);
    assert_eq!(group.reclaimed(), 0, "nothing is ticked to start with");

    assert!(group.toggle(0));
    assert_eq!(group.keeping(), 1);
    assert_eq!(group.reclaimed(), 100);

    assert!(
        !group.toggle(1),
        "the last copy kept cannot be ticked as well"
    );
    assert_eq!(group.keeping(), 1);

    // Ticking one back off is always allowed.
    assert!(group.toggle(0));
    assert_eq!(group.keeping(), 2);
}

#[test]
fn keeping_the_first_ticks_everything_else() {
    let mut group = Group::new(50, vec!["/a".into(), "/b".into(), "/c".into()]);
    group.keep_first();
    assert_eq!(group.keeping(), 1);
    assert!(!group.copies[0].remove);
    assert!(group.copies[1].remove && group.copies[2].remove);
    assert_eq!(group.reclaimed(), 100);

    group.keep_all();
    assert_eq!(group.keeping(), 3);
    assert_eq!(group.reclaimed(), 0);
}

#[test]
fn the_numbers_say_what_is_there_and_what_was_asked_for() {
    let mut groups = vec![
        Group::new(1000, vec!["/a".into(), "/b".into(), "/c".into()]),
        Group::new(500, vec!["/d".into(), "/e".into()]),
    ];
    assert_eq!(wasted(&groups), 2000 + 500, "what is the same thing twice");
    assert_eq!(reclaimed(&groups), 0, "before anything is ticked");
    assert!(to_remove(&groups).is_empty());

    assert_eq!(ticked(&groups), 0);

    groups[0].keep_first();
    assert_eq!(reclaimed(&groups), 2000);
    assert_eq!(to_remove(&groups), ["/b", "/c"]);
    assert_eq!(ticked(&groups), 2, "counted without building the list");
}

#[test]
fn the_list_is_a_heading_and_then_its_copies() {
    let groups = vec![
        Group::new(10, vec!["/a".into(), "/b".into()]),
        Group::new(20, vec!["/c".into(), "/d".into(), "/e".into()]),
    ];
    assert_eq!(
        lines(&groups),
        [
            Line::Heading { group: 0 },
            Line::Copy { group: 0, copy: 0 },
            Line::Copy { group: 0, copy: 1 },
            Line::Heading { group: 1 },
            Line::Copy { group: 1, copy: 0 },
            Line::Copy { group: 1, copy: 1 },
            Line::Copy { group: 1, copy: 2 },
        ]
    );
    assert!(lines(&[]).is_empty());
}

#[test]
fn the_space_bar_ticks_a_copy_and_thins_a_whole_group() {
    let mut groups = vec![Group::new(10, vec!["/a".into(), "/b".into(), "/c".into()])];

    toggle_at(&mut groups, Line::Copy { group: 0, copy: 1 });
    assert!(groups[0].copies[1].remove);
    toggle_at(&mut groups, Line::Copy { group: 0, copy: 1 });
    assert!(!groups[0].copies[1].remove);

    // On the heading: keep the first, then put them all back.
    toggle_at(&mut groups, Line::Heading { group: 0 });
    assert_eq!(groups[0].keeping(), 1);
    toggle_at(&mut groups, Line::Heading { group: 0 });
    assert_eq!(groups[0].keeping(), 3);

    // An index that is not there is not a panic.
    toggle_at(&mut groups, Line::Copy { group: 9, copy: 9 });
    toggle_at(&mut groups, Line::Heading { group: 9 });
}

#[test]
fn hashing_two_files_the_same_gives_the_same_answer() {
    let bytes: Vec<u8> = (0..200_000u32).map(|n| (n % 251) as u8).collect();
    let mut different = bytes.clone();
    different[150_000] ^= 0xff;
    // Block by block, as a file is read.
    let sum = |bytes: &[u8]| bytes.chunks(65_536).fold(FNV_OFFSET, hash);

    assert_eq!(sum(&bytes), sum(&bytes.clone()));
    assert_ne!(
        sum(&bytes),
        sum(&different),
        "a change past the first chunk still changes the answer"
    );
    assert_eq!(sum(&bytes), hash(FNV_OFFSET, &bytes), "however it is cut");
}

#[test]
fn a_hard_link_check_over_many_files_is_not_quadratic() {
    // Through a set rather than a list. This runs once per file in the
    // whole tree, and a linear scan here is the difference between a home
    // directory taking a second and taking a minute.
    let files: Vec<Candidate> = (0..20_000)
        .map(|n| Candidate {
            path: format!("/f{n}"),
            size: n as u64,
            identity: Some((0, n as u64)),
        })
        .collect();
    let start = std::time::Instant::now();
    let kept = without_hard_links(files);
    assert_eq!(kept.len(), 20_000);
    assert!(
        start.elapsed() < std::time::Duration::from_millis(500),
        "twenty thousand files took {:?}",
        start.elapsed()
    );
}

#[test]
fn what_is_found_adds_up() {
    let found = groups(&fixture(), &Options::default());
    assert_eq!(found.len(), 2);
    assert_eq!(wasted(&found), 23 * 2 + 4096);
}

#[test]
fn the_hash_of_one_byte_is_one_step() {
    assert_eq!(hash(FNV_OFFSET, b""), FNV_OFFSET);
    assert_eq!(hash(FNV_OFFSET, b"a"), (FNV_OFFSET ^ 97).wrapping_mul(FNV_PRIME));
}

#[test]
fn files_nobody_could_read_are_in_no_group() {
    let files = vec![candidate("/a", 10), candidate("/b", 10), candidate("/c", 10)];
    assert_eq!(
        same_hash(&files, &vec![Some(1), None, Some(1)]),
        vec![vec!["/a".to_string(), "/c".to_string()]]
    );
}

#[test]
fn a_search_that_found_too_much_says_so() {
    let mut found = Duplicates::default();
    for _ in 0..MAX_GROUPS {
        assert!(found.group(Group::new(1, vec!["/a".into(), "/b".into()])));
    }
    assert!(!found.truncated);
    assert!(!found.group(Group::new(1, vec!["/a".into(), "/b".into()])));
    assert!(found.truncated);
    found.looking_at(&looking_at(3, 2048));
    assert!(found.current.contains('3'), "{}", found.current);
    found.finish(true);
    assert!(found.finished && found.cancelled);
}

#[test]
fn a_scan_takes_files_by_name_and_goes_down_first() {
    let item = |path: &str, is_dir: bool| Listed {
        name: path.rsplit('/').next().unwrap().to_string(),
        path: path.to_string(),
        is_dir,
        is_symlink: false,
        is_file: !is_dir,
        size: 9,
        identity: None,
    };
    let mut walk = Walk::new(Options::default(), "/r".to_string());
    let mut seen: Vec<String> = Vec::new();
    while let Some(visit) = walk.next() {
        match visit {
            Visit::Enter(dir) => {
                let held = match dir.as_str() {
                    "/r" => vec![item("/r/z", false), item("/r/m", true), item("/r/a", false)],
                    "/r/m" => vec![item("/r/m/inner", false)],
                    _ => vec![],
                };
                walk.listed(held);
            }
            Visit::Take(candidate) => seen.push(candidate.path),
        }
    }
    assert_eq!(seen, vec!["/r/a", "/r/m/inner", "/r/z"]);
    assert_eq!(walk_into(vec![item("/r/.x", false)], &Options::default()).len(), 0);
}
