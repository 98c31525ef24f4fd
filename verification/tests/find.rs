use lost_commander::find::{
    excerpt_of, line_matches, scan_text, search_file, walk, Found, Hit, Listed, Query, Step, Visit,
    Walk, MAX_EXCERPT, MAX_HITS,
};

/// A file or a directory, as a search meets it.
enum Node {
    File(&'static str, Vec<u8>),
    Dir(&'static str, Vec<Node>),
    Link(&'static str, bool),
}

#[derive(Default)]
struct Sink {
    hits: Vec<Hit>,
    visited: Vec<String>,
    stop_after: Option<usize>,
}

impl Sink {
    fn hit(&mut self, hit: Hit) -> bool {
        self.hits.push(hit);
        match self.stop_after {
            Some(limit) => self.hits.len() < limit,
            None => true,
        }
    }

    fn names(&self) -> Vec<String> {
        let mut names: Vec<String> = self
            .hits
            .iter()
            .map(|h| h.path.rsplit('/').next().unwrap().to_string())
            .collect();
        names.sort();
        names
    }
}

/// Text has no byte of nothing in it.
fn looks_like_text(bytes: &[u8]) -> bool {
    !bytes.contains(&0)
}

/// What the tree has at a path below the root.
fn node_at<'a>(nodes: &'a [Node], path: &str) -> Option<&'a Node> {
    let (first, rest) = match path.split_once('/') {
        Some((first, rest)) => (first, Some(rest)),
        None => (path, None),
    };
    let node = nodes.iter().find(|node| match node {
        Node::File(name, _) | Node::Dir(name, _) | Node::Link(name, _) => *name == first,
    })?;
    match (rest, node) {
        (None, node) => Some(node),
        (Some(rest), Node::Dir(_, inside)) => node_at(inside, rest),
        (Some(_), _) => None,
    }
}

fn listing(nodes: &[Node], dir: &str) -> Vec<Listed> {
    let held: &[Node] = if dir.is_empty() {
        nodes
    } else {
        match node_at(nodes, &dir[1..]) {
            Some(Node::Dir(_, inside)) => inside,
            _ => &[],
        }
    };
    held.iter()
        .map(|node| {
            let (name, is_dir, is_link) = match node {
                Node::File(name, _) => (*name, false, false),
                Node::Dir(name, _) => (*name, true, false),
                Node::Link(name, to_dir) => (*name, *to_dir, true),
            };
            Listed {
                name: name.to_string(),
                path: format!("{dir}/{name}"),
                is_dir,
                is_link,
            }
        })
        .collect()
}

fn search(path: &str, nodes: &[Node], query: &Query, sink: &mut Sink) {
    let mut walk = Walk::new(query.clone(), path);
    while let Some(step) = walk.next() {
        let hit = match step {
            Step::Look(dir) => {
                sink.visited.push(dir.clone());
                walk.listed(listing(nodes, &dir));
                None
            }
            Step::Report(path) => Some(Hit::new(&path, None)),
            Step::Read(path) => match node_at(nodes, &path[1..]) {
                Some(Node::File(_, bytes)) => {
                    let found = search_file(bytes, looks_like_text(bytes), query);
                    if found.is_some() { Some(Hit::new(&path, found)) } else { None }
                }
                _ => None,
            },
        };
        if let Some(hit) = hit {
            if !sink.hit(hit) {
                walk.stop();
            }
        }
    }
}

/// A small tree with something to find at every depth.
fn tree() -> Vec<Node> {
    vec![
        Node::File("README.md", b"the readme\nwith a needle in it\n".to_vec()),
        Node::File("notes.txt", b"nothing here\n".to_vec()),
        Node::Dir(
            "src",
            vec![
                Node::File("main.rs", b"fn main() { needle(); }\n".to_vec()),
                Node::Dir("deep", vec![Node::File("util.rs", b"// no match\n".to_vec())]),
            ],
        ),
        Node::File(".hidden.txt", b"a needle, hidden\n".to_vec()),
        Node::Dir(".git", vec![Node::File("config", b"needle\n".to_vec())]),
    ]
}

fn run(nodes: &[Node], query: Query) -> Sink {
    let mut sink = Sink::default();
    search("", nodes, &query, &mut sink);
    sink
}

#[test]
fn a_name_pattern_finds_files_at_every_depth() {
    let dir = tree();
    let sink = run(
        &dir,
        Query {
            pattern: "*.rs".into(),
            ..Query::default()
        },
    );
    assert_eq!(sink.names(), vec!["main.rs", "util.rs"]);
    // No content was asked for, so nothing carries a line.
    assert!(sink.hits.iter().all(|h| h.line.is_none()));
}

#[test]
fn the_pattern_is_forgiving_about_case_unless_told_otherwise() {
    let dir = tree();
    let sink = run(
        &dir,
        Query {
            pattern: "readme*".into(),
            ..Query::default()
        },
    );
    assert_eq!(sink.names(), vec!["README.md"]);

    let sink = run(
        &dir,
        Query {
            pattern: "readme*".into(),
            case_sensitive: true,
            ..Query::default()
        },
    );
    assert!(sink.names().is_empty(), "{:?}", sink.names());
}

#[test]
fn hidden_files_are_left_out_until_they_are_asked_for() {
    let dir = tree();
    let sink = run(
        &dir,
        Query {
            pattern: "*.txt".into(),
            ..Query::default()
        },
    );
    assert_eq!(sink.names(), vec!["notes.txt"]);

    let sink = run(
        &dir,
        Query {
            pattern: "*.txt".into(),
            include_hidden: true,
            ..Query::default()
        },
    );
    assert_eq!(sink.names(), vec![".hidden.txt", "notes.txt"]);
}

#[test]
fn a_hidden_directory_is_not_walked_either() {
    // .git is the case that matters: searching a repository without this
    // returns ten times as much as it should.
    let dir = tree();
    let sink = run(
        &dir,
        Query {
            pattern: "config".into(),
            ..Query::default()
        },
    );
    assert!(sink.names().is_empty(), "{:?}", sink.names());
    assert!(
        !sink.visited.iter().any(|p| p.ends_with(".git")),
        "it walked into .git"
    );
}

#[test]
fn searching_the_contents_reports_where_it_matched() {
    let dir = tree();
    let sink = run(
        &dir,
        Query {
            pattern: "*".into(),
            contains: "needle".into(),
            ..Query::default()
        },
    );
    assert_eq!(sink.names(), vec!["README.md", "main.rs"]);

    let readme = sink
        .hits
        .iter()
        .find(|h| h.path.ends_with("README.md"))
        .unwrap();
    assert_eq!(readme.line, Some(2));
    assert_eq!(readme.excerpt.as_deref(), Some("with a needle in it"));
}

#[test]
fn the_name_narrows_what_is_opened() {
    // This is what keeps a content search over a big tree bearable: the
    // name is checked first, and only what passes gets read.
    let dir = tree();
    let sink = run(
        &dir,
        Query {
            pattern: "*.rs".into(),
            contains: "needle".into(),
            ..Query::default()
        },
    );
    assert_eq!(sink.names(), vec!["main.rs"]);
}

#[test]
fn a_directory_matches_by_name_but_never_by_content() {
    let dir = tree();
    let sink = run(
        &dir,
        Query {
            pattern: "src".into(),
            ..Query::default()
        },
    );
    assert_eq!(sink.names(), vec!["src"]);

    // With text to find, a directory cannot be the answer.
    let sink = run(
        &dir,
        Query {
            pattern: "src".into(),
            contains: "needle".into(),
            ..Query::default()
        },
    );
    assert!(sink.names().is_empty(), "{:?}", sink.names());
}

#[test]
fn a_binary_is_skipped_rather_than_searched() {
    let dir = vec![
        // The needle really is in there, as bytes.
        Node::File("prog.bin", b"\x7fELF\0\0needle\0\0".to_vec()),
        Node::File("prog.txt", b"needle\n".to_vec()),
    ];
    let sink = run(
        &dir,
        Query {
            pattern: "*".into(),
            contains: "needle".into(),
            ..Query::default()
        },
    );
    assert_eq!(sink.names(), vec!["prog.txt"]);
}

#[test]
fn a_match_is_found_however_long_the_line_before_it() {
    // Reading in fixed blocks would drop a match straddling a boundary.
    let mut text = "x".repeat(200_000);
    text.push('\n');
    text.push_str("needle\n");
    let dir = vec![Node::File("long.txt", text.into_bytes())];

    let sink = run(
        &dir,
        Query {
            pattern: "*".into(),
            contains: "needle".into(),
            ..Query::default()
        },
    );
    assert_eq!(sink.hits.len(), 1);
    assert_eq!(sink.hits[0].line, Some(2));
}

#[test]
fn an_excerpt_is_capped_rather_than_being_the_whole_line() {
    let mut line = "needle".to_string();
    line.push_str(&"y".repeat(10_000));
    let found = scan_text(line.as_bytes(), "needle", false)
        .unwrap();
    assert_eq!(found.0, 1);
    assert_eq!(found.1.chars().count(), MAX_EXCERPT);
}

#[test]
fn the_text_search_can_be_told_to_mind_the_case() {
    assert!(line_matches("The Needle", "needle", false));
    assert!(!line_matches("The Needle", "needle", true));
    assert!(line_matches("The Needle", "Needle", true));
}

#[test]
fn scanning_reports_the_first_line_that_matches() {
    let text = "one\ntwo\nneedle here\nneedle again\n";
    let found = scan_text(text.as_bytes(), "needle", false)
        .unwrap();
    assert_eq!(found, (3, "needle here".to_string()));

    assert!(scan_text(text.as_bytes(), "haystack", false)
        .is_none());
}

#[test]
fn a_walk_stops_when_the_sink_says_so() {
    let names = ["f0.txt", "f1.txt", "f2.txt", "f3.txt", "f4.txt", "f5.txt", "f6.txt"];
    let dir: Vec<Node> = names.iter().map(|n| Node::File(n, b"x".to_vec())).collect();
    let mut sink = Sink {
        stop_after: Some(5),
        ..Sink::default()
    };
    search("", &dir, &Query::default(), &mut sink);
    assert_eq!(sink.hits.len(), 5);
}

#[test]
fn a_symlink_loop_does_not_hang_the_walk() {
    // A link pointing at an ancestor is the classic way to make a
    // recursive walk never return.
    let dir = vec![Node::Dir(
        "sub",
        vec![
            Node::File("found.txt", b"x".to_vec()),
            Node::Link("loop", true),
        ],
    )];
    let sink = run(
        &dir,
        Query {
            pattern: "found.txt".into(),
            ..Query::default()
        },
    );
    assert_eq!(sink.names(), vec!["found.txt"], "walked the link");
}

#[test]
fn an_empty_query_is_not_worth_running() {
    assert!(Query::default().is_empty());
    assert!(Query {
        pattern: "  ".into(),
        ..Query::default()
    }
    .is_empty());
    // A bare `*` is only a search when there is text to go with it.
    assert!(!Query {
        pattern: "*".into(),
        contains: "needle".into(),
        ..Query::default()
    }
    .is_empty());
    assert!(!Query {
        pattern: "*.rs".into(),
        ..Query::default()
    }
    .is_empty());
}

#[test]
fn an_empty_pattern_means_every_name() {
    let query = Query {
        pattern: String::new(),
        contains: "needle".into(),
        ..Query::default()
    };
    assert_eq!(query.glob(), "*");
    assert!(query.matches_name("anything.at.all"));
}

#[test]
fn a_result_stops_at_the_limit_and_says_so() {
    let mut found = Found::default();
    for n in 0..MAX_HITS - 1 {
        assert!(found.hit(Hit::new(&format!("/a/{n}"), None)));
    }
    assert!(!found.truncated);
    assert!(!found.hit(Hit::new("/a/last", None)));
    assert!(found.truncated);
    assert_eq!(found.count(), MAX_HITS);

    found.looking_at("/a/b");
    assert_eq!(found.current, "/a/b");
    found.finish(true);
    assert!(found.finished && found.cancelled && found.current.is_empty());
}

#[test]
fn an_excerpt_comes_from_the_line_that_matches() {
    assert_eq!(excerpt_of(b"  a needle \n", "needle", true).as_deref(), Some("a needle"));
    assert_eq!(excerpt_of(b"nothing", "needle", true), None);
}

#[test]
fn a_walk_goes_down_before_it_goes_on() {
    let mut walk = Walk::new(Query { pattern: "*a*".into(), ..Query::default() }, "/r");
    assert_eq!(walk.next(), Some(Step::Look("/r".into())));
    let item = |path: &str, is_dir: bool| Listed {
        name: path.rsplit('/').next().unwrap().to_string(),
        path: path.to_string(),
        is_dir,
        is_link: false,
    };
    walk.listed(vec![item("/r/a", true), item("/r/b.txt", false), item("/r/ab.txt", false)]);
    assert_eq!(walk.next(), Some(Step::Report("/r/a".into())), "a directory matches too");
    assert_eq!(walk.next(), Some(Step::Look("/r/a".into())));
    walk.listed(vec![item("/r/a/deep_a", false)]);
    assert_eq!(walk.next(), Some(Step::Report("/r/a/deep_a".into())));
    assert_eq!(walk.next(), Some(Step::Report("/r/ab.txt".into())));
    assert_eq!(walk.next(), None);

    let mut stopped = Walk::new(Query::default(), "/r");
    stopped.stop();
    assert_eq!(stopped.next(), None);
}

#[test]
fn what_a_walk_does_with_each_thing() {
    let names = Query { pattern: "*.rs".into(), ..Query::default() };
    let text = Query { contains: "x".into(), ..names.clone() };
    assert_eq!(walk(&names, "a.rs", false, false), Visit::Report);
    assert_eq!(walk(&text, "a.rs", false, false), Visit::Read);
    assert_eq!(walk(&names, "a.rs", true, false), Visit::ReportAndEnter);
    assert_eq!(walk(&names, "src", true, false), Visit::Enter);
    assert_eq!(walk(&names, "src", true, true), Visit::Leave);
    assert_eq!(walk(&names, ".a.rs", false, false), Visit::Leave);
}

#[test]
fn an_unreadable_directory_does_not_stop_the_search() {
    // A path that is not a directory at all stands in for one that cannot be
    // read: either way the walk carries on.
    let dir = tree();
    let mut sink = Sink::default();
    search("/README.md", &dir, &Query::default(), &mut sink);
    assert!(sink.hits.is_empty());
}
