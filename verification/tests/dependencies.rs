use cats::canonical_path::{CanonicalPath, CanonicalPathError};
use cats::dependencies::{DependencyMap, ResolvedDependency};
use cats::imports::{ImportDescriptor, ImportKind};
use cats::overview::{list_seen_from, OverviewLine};

fn path(text: &str) -> CanonicalPath {
    CanonicalPath::new(text).unwrap()
}

fn dependency(specifier: &str, target: &str) -> ResolvedDependency {
    ResolvedDependency {
        descriptor: ImportDescriptor::new(specifier.to_string(), ImportKind::Import, false, 1, 9),
        path: path(target),
    }
}

fn files(map: &DependencyMap) -> Vec<String> {
    (0..map.len()).map(|i| map.file(i).to_text()).collect()
}

#[test]
fn new_map_is_empty() {
    let map = DependencyMap::new();
    assert_eq!(map.len(), 0);
    assert!(!map.contains_key(&path("/a")));
    assert!(map.get(&path("/a")).is_none());
    assert_eq!(map.find(&path("/a")), None);
}

#[test]
fn inserted_file_is_found_with_its_list() {
    let mut map = DependencyMap::new();
    map.insert(path("/p/a.ts"), vec![dependency("./b", "/p/b.ts")]);
    assert_eq!(map.len(), 1);
    assert!(map.contains_key(&path("/p/a.ts")));
    assert_eq!(map.get(&path("/p/a.ts")), Some(&vec![dependency("./b", "/p/b.ts")]));
    assert_eq!(map.find(&path("/p/a.ts")), Some(0));
    assert!(!map.contains_key(&path("/p/b.ts")));
}

#[test]
fn files_are_listed_in_the_order_of_their_paths() {
    let mut map = DependencyMap::new();
    for text in ["/p/m.ts", "/p/a.ts", "/p/z.ts", "/p/a/b.ts", "/p/a.b", "/"] {
        map.insert(path(text), Vec::new());
    }
    assert_eq!(files(&map), vec!["/", "/p/a/b.ts", "/p/a.b", "/p/a.ts", "/p/m.ts", "/p/z.ts"]);
}

#[test]
fn insertion_order_does_not_show() {
    let texts = ["/c", "/a", "/b/x", "/b"];
    let mut forward = DependencyMap::new();
    for text in texts {
        forward.insert(path(text), Vec::new());
    }
    let mut backward = DependencyMap::new();
    for text in texts.iter().rev() {
        backward.insert(path(text), Vec::new());
    }
    assert_eq!(files(&forward), files(&backward));
    assert_eq!(files(&forward), vec!["/a", "/b", "/b/x", "/c"]);
}

#[test]
fn second_insert_replaces_the_list() {
    let mut map = DependencyMap::new();
    map.insert(path("/a"), vec![dependency("./b", "/b")]);
    map.insert(path("/c"), vec![]);
    map.insert(path("/a"), vec![dependency("./c", "/c"), dependency("./d", "/d")]);
    assert_eq!(map.len(), 2);
    assert_eq!(map.dependencies(0).len(), 2);
    assert_eq!(map.dependencies(0)[0].path, path("/c"));
    assert_eq!(map.get(&path("/c")), Some(&vec![]));
}

#[test]
fn list_keeps_its_order() {
    let mut map = DependencyMap::new();
    map.insert(path("/a"), vec![dependency("./z", "/z"), dependency("./b", "/b")]);
    let list = map.get(&path("/a")).unwrap();
    assert_eq!(list[0].descriptor.specifier, "./z");
    assert_eq!(list[1].descriptor.specifier, "./b");
}

#[test]
fn resolved_dependency_clones() {
    let d = dependency("./b", "/p/b.ts");
    assert_eq!(d.clone(), d);
}

#[test]
fn overview_lists_paths_as_seen_from_the_root() {
    let mut map = DependencyMap::new();
    map.insert(
        path("/p/index.ts"),
        vec![dependency("./a", "/p/a.ts"), dependency("./lib/b", "/p/lib/b.ts")],
    );
    map.insert(path("/p/a.ts"), vec![dependency("./lib/b", "/p/lib/b.ts")]);
    map.insert(path("/p/lib/b.ts"), vec![]);
    let lines = map.overview(&path("/p")).unwrap();
    assert_eq!(
        lines,
        vec![
            OverviewLine { file: "a.ts".to_string(), dependencies: vec!["lib/b.ts".to_string()] },
            OverviewLine {
                file: "index.ts".to_string(),
                dependencies: vec!["a.ts".to_string(), "lib/b.ts".to_string()],
            },
            OverviewLine { file: "lib/b.ts".to_string(), dependencies: vec![] },
        ]
    );
}

#[test]
fn overview_of_the_empty_map_is_empty() {
    assert_eq!(DependencyMap::new().overview(&path("/p")), Ok(vec![]));
}

#[test]
fn overview_fails_for_a_file_outside_the_root() {
    let mut map = DependencyMap::new();
    map.insert(path("/p/a.ts"), vec![]);
    map.insert(path("/q/b.ts"), vec![]);
    assert_eq!(map.overview(&path("/p")), Err(CanonicalPathError::StripPrefix));
}

#[test]
fn overview_fails_for_an_import_outside_the_root() {
    let mut map = DependencyMap::new();
    map.insert(path("/p/src/a.ts"), vec![dependency("../../q/b", "/q/b.ts")]);
    assert_eq!(map.overview(&path("/p/src")), Err(CanonicalPathError::StripPrefix));
    assert!(map.overview(&path("/")).is_ok());
}

#[test]
fn list_is_seen_from_the_root() {
    let list = vec![dependency("./a", "/p/a.ts"), dependency("./b/c", "/p/b/c.ts")];
    assert_eq!(
        list_seen_from(&path("/p"), &list),
        Ok(vec!["a.ts".to_string(), "b/c.ts".to_string()])
    );
    assert_eq!(list_seen_from(&path("/p/b"), &list), Err(CanonicalPathError::StripPrefix));
    assert_eq!(list_seen_from(&path("/p"), &vec![]), Ok(vec![]));
}
