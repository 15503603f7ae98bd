use cats::canonical_path::{CanonicalPath, CanonicalPathError};
use cats::dependencies::DependencyMap;
use cats::error::CatsError;
use cats::imports::{ImportDescriptor, ImportKind, ParseError, SourceSpan};
use cats::parsing::{DependencyParser, Phase, Reply, Request};

/// A file tree held in memory: files with their text, and directories.
struct Tree {
    files: Vec<(&'static str, &'static str)>,
    dirs: Vec<&'static str>,
}

impl Tree {
    /// The canonical text of `text`, if it names an entry of the tree.
    fn canonical(&self, text: &str) -> Option<String> {
        let mut names: Vec<&str> = Vec::new();
        for segment in text.split('/') {
            match segment {
                "" | "." => {}
                ".." => {
                    names.pop();
                }
                name => names.push(name),
            }
        }
        let clean = format!("/{}", names.join("/"));
        let known = self.files.iter().any(|(path, _)| *path == clean)
            || self.dirs.iter().any(|path| *path == clean);
        if known {
            Some(clean)
        } else {
            None
        }
    }

    fn answer(&self, request: &Request) -> Reply {
        match request {
            Request::Read(file) => {
                let text = file.to_text();
                match self.files.iter().find(|(path, _)| *path == text) {
                    Some((_, source)) => Reply::Source(source.to_string()),
                    None => Reply::Unreadable,
                }
            }
            Request::Probe(text) => match self.canonical(text) {
                Some(clean) => Reply::Directory(self.dirs.iter().any(|path| *path == clean)),
                None => Reply::Directory(false),
            },
            Request::Canonicalize(text) => match self.canonical(text) {
                Some(clean) => Reply::Canonical(clean),
                None => Reply::Missing,
            },
            Request::Finished => unreachable!(),
        }
    }
}

struct Outcome {
    map: DependencyMap,
    reads: Vec<String>,
    probes: Vec<String>,
    lookups: Vec<String>,
}

fn build(tree: &Tree, entry: &str) -> Result<Outcome, CatsError> {
    let entry = CanonicalPath::new(entry).unwrap();
    let mut parser = DependencyParser::new();
    let mut outcome =
        Outcome { map: DependencyMap::new(), reads: vec![], probes: vec![], lookups: vec![] };
    let mut request = parser.get_deps_recursively(&outcome.map, &entry);
    let mut steps = 0;
    loop {
        match &request {
            Request::Finished => return Ok(outcome),
            Request::Read(file) => outcome.reads.push(file.to_text()),
            Request::Probe(text) => outcome.probes.push(text.clone()),
            Request::Canonicalize(text) => outcome.lookups.push(text.clone()),
        }
        steps += 1;
        assert!(steps < 10_000);
        request = parser.advance(&mut outcome.map, tree.answer(&request))?;
    }
}

fn listing(map: &DependencyMap) -> Vec<(String, Vec<String>)> {
    let mut lines = Vec::new();
    for i in 0..map.len() {
        let deps = map.dependencies(i).iter().map(|d| d.path.to_text()).collect();
        lines.push((map.file(i).to_text(), deps));
    }
    lines
}

fn line(file: &str, deps: &[&str]) -> (String, Vec<String>) {
    (file.to_string(), deps.iter().map(|d| d.to_string()).collect())
}

fn scenario() -> Tree {
    Tree {
        files: vec![
            ("/proj/index.ts", "import a from './a';\nimport b from './b';\n"),
            ("/proj/a.ts", "import b from './b';\nexport default 1;\n"),
            ("/proj/b.ts", "export default 2;\n"),
        ],
        dirs: vec!["/", "/proj"],
    }
}

#[test]
fn scenario_map_lists_each_file_with_its_imports() {
    let outcome = build(&scenario(), "/proj/index.ts").unwrap();
    assert_eq!(
        listing(&outcome.map),
        vec![
            line("/proj/a.ts", &["/proj/b.ts"]),
            line("/proj/b.ts", &[]),
            line("/proj/index.ts", &["/proj/a.ts", "/proj/b.ts"]),
        ]
    );
}

#[test]
fn scenario_reads_each_file_once() {
    let outcome = build(&scenario(), "/proj/index.ts").unwrap();
    assert_eq!(outcome.reads, vec!["/proj/index.ts", "/proj/a.ts", "/proj/b.ts"]);
}

#[test]
fn build_is_repeatable() {
    let first = build(&scenario(), "/proj/index.ts").unwrap();
    let second = build(&scenario(), "/proj/index.ts").unwrap();
    assert_eq!(first.map, second.map);
    assert_eq!(listing(&first.map), listing(&second.map));
    assert_eq!(first.reads, second.reads);
    assert_eq!(first.probes, second.probes);
    assert_eq!(first.lookups, second.lookups);
}

#[test]
fn shared_import_is_one_key_and_read_once() {
    let tree = Tree {
        files: vec![
            ("/p/main.ts", "import './b';\nimport './c';\n"),
            ("/p/b.ts", "import './a';\n"),
            ("/p/c.ts", "import './a';\n"),
            ("/p/a.ts", ""),
        ],
        dirs: vec!["/", "/p"],
    };
    let outcome = build(&tree, "/p/main.ts").unwrap();
    let files: Vec<String> = listing(&outcome.map).into_iter().map(|l| l.0).collect();
    assert_eq!(files, vec!["/p/a.ts", "/p/b.ts", "/p/c.ts", "/p/main.ts"]);
    assert_eq!(outcome.reads.iter().filter(|r| *r == "/p/a.ts").count(), 1);
    assert_eq!(outcome.reads, vec!["/p/main.ts", "/p/b.ts", "/p/a.ts", "/p/c.ts"]);
}

#[test]
fn cycle_terminates_with_both_files() {
    let tree = Tree {
        files: vec![("/p/a.ts", "import './b';\n"), ("/p/b.ts", "import './a';\n")],
        dirs: vec!["/", "/p"],
    };
    let outcome = build(&tree, "/p/a.ts").unwrap();
    assert_eq!(
        listing(&outcome.map),
        vec![line("/p/a.ts", &["/p/b.ts"]), line("/p/b.ts", &["/p/a.ts"])]
    );
    assert_eq!(outcome.reads, vec!["/p/a.ts", "/p/b.ts"]);
}

#[test]
fn self_import_terminates() {
    let tree = Tree { files: vec![("/p/a.ts", "import './a';\n")], dirs: vec!["/", "/p"] };
    let outcome = build(&tree, "/p/a.ts").unwrap();
    assert_eq!(listing(&outcome.map), vec![line("/p/a.ts", &["/p/a.ts"])]);
    assert_eq!(outcome.reads, vec!["/p/a.ts"]);
}

#[test]
fn bare_import_is_neither_resolved_nor_looked_up() {
    let tree = Tree {
        files: vec![("/p/a.ts", "import x from \"somepkg\";\nimport y from './y';\n"), ("/p/y.ts", "")],
        dirs: vec!["/", "/p"],
    };
    let outcome = build(&tree, "/p/a.ts").unwrap();
    assert_eq!(listing(&outcome.map), vec![line("/p/a.ts", &["/p/y.ts"]), line("/p/y.ts", &[])]);
    assert_eq!(outcome.probes, vec!["/p/./y"]);
    assert_eq!(outcome.lookups, vec!["/p/./y.ts"]);
    assert_eq!(outcome.map.dependencies(0).len(), 1);
    assert_eq!(outcome.map.dependencies(0)[0].descriptor.specifier, "./y");
}

#[test]
fn file_with_only_bare_imports_has_an_empty_list() {
    let tree = Tree {
        files: vec![("/p/a.ts", "import x from 'somepkg';\nexport * from './other';\n")],
        dirs: vec!["/", "/p"],
    };
    let outcome = build(&tree, "/p/a.ts").unwrap();
    assert_eq!(listing(&outcome.map), vec![line("/p/a.ts", &[])]);
    assert!(outcome.probes.is_empty());
    assert!(outcome.lookups.is_empty());
}

#[test]
fn directory_import_resolves_to_its_index() {
    let tree = Tree {
        files: vec![("/p/main.ts", "import u from \"./util\";\n"), ("/p/util/index.ts", "")],
        dirs: vec!["/", "/p", "/p/util"],
    };
    let outcome = build(&tree, "/p/main.ts").unwrap();
    assert_eq!(
        listing(&outcome.map),
        vec![line("/p/main.ts", &["/p/util/index.ts"]), line("/p/util/index.ts", &[])]
    );
    assert_eq!(outcome.lookups, vec!["/p/./util/index.ts"]);
}

#[test]
fn import_without_extension_gets_the_default() {
    let tree = Tree {
        files: vec![("/p/main.ts", "import u from \"./util\";\n"), ("/p/util.ts", "")],
        dirs: vec!["/", "/p"],
    };
    let outcome = build(&tree, "/p/main.ts").unwrap();
    assert_eq!(
        listing(&outcome.map),
        vec![line("/p/main.ts", &["/p/util.ts"]), line("/p/util.ts", &[])]
    );
    assert_eq!(outcome.lookups, vec!["/p/./util.ts"]);
}

#[test]
fn parent_directory_import_is_followed() {
    let tree = Tree {
        files: vec![("/p/src/main.ts", "import s from '../shared/s';\n"), ("/p/shared/s.ts", "")],
        dirs: vec!["/", "/p", "/p/src", "/p/shared"],
    };
    let outcome = build(&tree, "/p/src/main.ts").unwrap();
    assert_eq!(
        listing(&outcome.map),
        vec![line("/p/shared/s.ts", &[]), line("/p/src/main.ts", &["/p/shared/s.ts"])]
    );
    assert_eq!(outcome.probes, vec!["/p/src/../shared/s"]);
}

#[test]
fn broken_import_fails_the_build() {
    let tree = Tree {
        files: vec![("/p/main.ts", "import m from \"./missing\";\n")],
        dirs: vec!["/", "/p"],
    };
    match build(&tree, "/p/main.ts") {
        Err(CatsError::UnresolvedImport { importer, specifier, candidate }) => {
            assert_eq!(importer.to_text(), "/p/main.ts");
            assert_eq!(specifier, "./missing");
            assert_eq!(candidate, "/p/./missing.ts");
        }
        _ => panic!("the build must fail on the broken import"),
    }
}

#[test]
fn broken_import_deep_in_the_graph_fails_the_build() {
    let tree = Tree {
        files: vec![("/p/main.ts", "import './a';\n"), ("/p/a.ts", "import './gone';\n")],
        dirs: vec!["/", "/p"],
    };
    match build(&tree, "/p/main.ts") {
        Err(CatsError::UnresolvedImport { importer, specifier, .. }) => {
            assert_eq!(importer.to_text(), "/p/a.ts");
            assert_eq!(specifier, "./gone");
        }
        _ => panic!("the build must fail on the broken import"),
    }
}

#[test]
fn unreadable_entry_fails_the_build() {
    let tree = Tree { files: vec![], dirs: vec!["/", "/p"] };
    match build(&tree, "/p/main.ts") {
        Err(CatsError::Io { file }) => assert_eq!(file.to_text(), "/p/main.ts"),
        _ => panic!("the build must fail on the unreadable file"),
    }
}

#[test]
fn syntax_error_fails_the_build() {
    let tree = Tree {
        files: vec![("/p/main.ts", "import './a';\n"), ("/p/a.ts", "import { from './b';\n")],
        dirs: vec!["/", "/p"],
    };
    match build(&tree, "/p/main.ts") {
        Err(CatsError::Parse { file, error }) => {
            assert_eq!(file.to_text(), "/p/a.ts");
            assert!(!error.message.is_empty());
        }
        _ => panic!("the build must fail on the syntax error"),
    }
}

#[test]
fn file_without_directory_fails_the_build() {
    let mut parser = DependencyParser::new();
    let mut map = DependencyMap::new();
    let root = CanonicalPath::new("/").unwrap();
    assert_eq!(parser.get_deps_recursively(&map, &root), Request::Read(CanonicalPath::root()));
    match parser.advance(&mut map, Reply::Source(String::new())) {
        Err(CatsError::NoParent { file }) => assert_eq!(file.to_text(), "/"),
        _ => panic!("the root has no directory"),
    }
}

#[test]
fn non_canonical_reply_fails_the_build() {
    let mut parser = DependencyParser::new();
    let mut map = DependencyMap::new();
    let entry = CanonicalPath::new("/p/a.ts").unwrap();
    parser.get_deps_recursively(&map, &entry);
    let request = parser.advance(&mut map, Reply::Source("import './b';".to_string())).unwrap();
    assert_eq!(request, Request::Probe("/p/./b".to_string()));
    let request = parser.advance(&mut map, Reply::Directory(false)).unwrap();
    assert_eq!(request, Request::Canonicalize("/p/./b.ts".to_string()));
    assert_eq!(
        parser.advance(&mut map, Reply::Canonical("/p/./b.ts".to_string())),
        Err(CatsError::CanonicalPath(CanonicalPathError::NotCanonical))
    );
    assert_eq!(parser.phase(), Phase::Idle);
    assert_eq!(map.len(), 0);
}

#[test]
fn reply_out_of_turn_fails_the_build() {
    let mut parser = DependencyParser::new();
    let mut map = DependencyMap::new();
    assert_eq!(parser.advance(&mut map, Reply::Missing), Err(CatsError::UnexpectedReply));
    let entry = CanonicalPath::new("/p/a.ts").unwrap();
    parser.get_deps_recursively(&map, &entry);
    assert_eq!(parser.phase(), Phase::Reading);
    assert_eq!(parser.advance(&mut map, Reply::Directory(true)), Err(CatsError::UnexpectedReply));
    assert_eq!(parser.phase(), Phase::Idle);
}

#[test]
fn entry_already_in_the_map_is_not_read_again() {
    let outcome = build(&scenario(), "/proj/index.ts").unwrap();
    let mut parser = DependencyParser::new();
    let entry = CanonicalPath::new("/proj/a.ts").unwrap();
    assert_eq!(parser.get_deps_recursively(&outcome.map, &entry), Request::Finished);
    assert_eq!(parser.phase(), Phase::Idle);
}

#[test]
fn error_converts_from_path_error() {
    assert_eq!(
        CatsError::from(CanonicalPathError::StripPrefix),
        CatsError::CanonicalPath(CanonicalPathError::StripPrefix)
    );
}

fn import(specifier: &str, kind: ImportKind) -> ImportDescriptor {
    ImportDescriptor::new(specifier.to_string(), kind, false, 1, 2)
}

#[test]
fn visit_starts_from_descriptors_in_place_of_text() {
    let mut parser = DependencyParser::new();
    let mut map = DependencyMap::new();
    let entry = CanonicalPath::new("/p/a.ts").unwrap();
    parser.get_deps_recursively(&map, &entry);
    let descriptors = vec![
        import("pkg", ImportKind::Import),
        import("./t", ImportKind::ImportType),
        import("./b", ImportKind::Import),
    ];
    let request = parser.enter(&mut map, Ok(descriptors)).unwrap();
    assert_eq!(request, Request::Probe("/p/./b".to_string()));
    assert_eq!(parser.phase(), Phase::Probing);
    let request = parser.advance(&mut map, Reply::Directory(true)).unwrap();
    assert_eq!(request, Request::Canonicalize("/p/./b/index.ts".to_string()));
    assert_eq!(parser.phase(), Phase::Locating);
    let request =
        parser.advance(&mut map, Reply::Canonical("/p/b/index.ts".to_string())).unwrap();
    assert_eq!(request, Request::Read(CanonicalPath::new("/p/b/index.ts").unwrap()));
    assert_eq!(map.len(), 1);
    assert_eq!(map.dependencies(0)[0].descriptor, import("./b", ImportKind::Import));
    let request = parser.enter(&mut map, Ok(vec![])).unwrap();
    assert_eq!(request, Request::Finished);
    assert_eq!(map.len(), 2);
    assert_eq!(parser.phase(), Phase::Idle);
}

#[test]
fn visit_of_a_failed_analysis_fails_the_build() {
    let mut parser = DependencyParser::new();
    let mut map = DependencyMap::new();
    let entry = CanonicalPath::new("/p/a.ts").unwrap();
    parser.get_deps_recursively(&map, &entry);
    let error = ParseError {
        message: "unexpected token".to_string(),
        span: SourceSpan { lo: 4, hi: 5 },
        line: 1,
        column: 4,
    };
    assert_eq!(
        parser.enter(&mut map, Err(error.clone())),
        Err(CatsError::Parse { file: entry, error })
    );
    assert_eq!(parser.phase(), Phase::Idle);
}

#[test]
fn visit_out_of_turn_fails_the_build() {
    let mut parser = DependencyParser::new();
    let mut map = DependencyMap::new();
    assert_eq!(parser.enter(&mut map, Ok(vec![])), Err(CatsError::UnexpectedReply));
}

#[test]
fn pending_files_are_visited_first_import_first() {
    let tree = Tree {
        files: vec![
            ("/p/m.ts", "import './x';\nimport './y';\nimport './z';\n"),
            ("/p/x.ts", "import './x1';\n"),
            ("/p/x1.ts", ""),
            ("/p/y.ts", ""),
            ("/p/z.ts", ""),
        ],
        dirs: vec!["/", "/p"],
    };
    let outcome = build(&tree, "/p/m.ts").unwrap();
    assert_eq!(outcome.reads, vec!["/p/m.ts", "/p/x.ts", "/p/x1.ts", "/p/y.ts", "/p/z.ts"]);
}

#[test]
fn first_failure_in_visiting_order_is_reported() {
    let tree = Tree {
        files: vec![
            ("/p/m.ts", "import './x';\nimport './y';\n"),
            ("/p/x.ts", "import './gone';\n"),
            ("/p/y.ts", "import { broken\n"),
        ],
        dirs: vec!["/", "/p"],
    };
    match build(&tree, "/p/m.ts") {
        Err(CatsError::UnresolvedImport { importer, .. }) => {
            assert_eq!(importer.to_text(), "/p/x.ts")
        }
        _ => panic!("the first failure is the broken import of x"),
    }
}
