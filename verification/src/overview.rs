//! The overview of a dependency map: each file with the files it imports,
//! every path as seen from one root directory.

use crate::canonical_path::{is_ancestor, relative_text, CanonicalPath, CanonicalPathError};
use crate::dependencies::{resolved_models, DependencyMap, ResolvedDependency, ResolvedModel};
use vstd::prelude::*;

verus! {

/// One line of the overview.
#[derive(Debug, PartialEq, Eq)]
pub struct OverviewLine {
    /// The file, as seen from the root directory.
    pub file: String,
    /// The files that it imports, as seen from the root directory.
    pub dependencies: Vec<String>,
}

/// `p` as seen from `root`.
pub open spec fn seen_from(root: Seq<Seq<char>>, p: Seq<Seq<char>>) -> Seq<char> {
    relative_text(p.skip(root.len() as int))
}

/// The first `n` files of `list` all lie under `root`.
pub open spec fn targets_under(root: Seq<Seq<char>>, list: Seq<ResolvedModel>, n: int) -> bool {
    forall|j: int| 0 <= j < n ==> is_ancestor(root, (#[trigger] list[j]).path)
}

/// The file and the whole list lie under `root`.
pub open spec fn line_under(root: Seq<Seq<char>>, file: Seq<Seq<char>>, list: Seq<ResolvedModel>) -> bool {
    is_ancestor(root, file) && targets_under(root, list, list.len() as int)
}

/// `line` is the overview line of `file` and `list`.
pub open spec fn is_line_of(
    line: OverviewLine,
    root: Seq<Seq<char>>,
    file: Seq<Seq<char>>,
    list: Seq<ResolvedModel>,
) -> bool {
    &&& line.file@ == seen_from(root, file)
    &&& line.dependencies.len() == list.len()
    &&& forall|j: int|
        0 <= j < list.len() ==> (#[trigger] line.dependencies[j])@ == seen_from(root, list[j].path)
}

/// The files of `dependencies` as seen from `root`, in their order; an
/// error where one of them does not lie under `root`.
pub fn list_seen_from(root: &CanonicalPath, dependencies: &Vec<ResolvedDependency>) -> (r: Result<
    Vec<String>,
    CanonicalPathError,
>)
    ensures
        r is Ok <==> targets_under(
            root@,
            resolved_models(dependencies@),
            dependencies.len() as int,
        ),
        r matches Ok(texts) ==> texts.len() == dependencies.len() && forall|j: int|
            0 <= j < texts.len() ==> (#[trigger] texts[j])@ == seen_from(
                root@,
                dependencies[j]@.path,
            ),
        r matches Err(e) ==> e == CanonicalPathError::StripPrefix,
{
    let ghost list = resolved_models(dependencies@);
    let mut texts: Vec<String> = Vec::new();
    let n = dependencies.len();
    let mut j: usize = 0;
    while j < n
        invariant
            j <= n,
            n == dependencies.len(),
            list == resolved_models(dependencies@),
            texts.len() == j,
            targets_under(root@, list, j as int),
            forall|k: int|
                0 <= k < j ==> (#[trigger] texts[k])@ == seen_from(root@, dependencies[k]@.path),
        decreases n - j,
    {
        proof {
            assert(list[j as int].path == dependencies[j as int]@.path);
        }
        match dependencies[j].path.strip_prefix(root) {
            Ok(text) => {
                texts.push(text);
            },
            Err(e) => {
                return Err(e);
            },
        }
        j += 1;
    }
    Ok(texts)
}

impl DependencyMap {
    /// The overview of the map as seen from `root`: one line for each file,
    /// in the order of the files. Where a file or an import of the map does
    /// not lie under `root` there is no overview.
    pub fn overview(&self, root: &CanonicalPath) -> (r: Result<
        Vec<OverviewLine>,
        CanonicalPathError,
    >)
        ensures
            r is Ok <==> forall|i: int|
                0 <= i < self.keys().len() ==> line_under(
                    root@,
                    #[trigger] self.keys()[i],
                    self.lists()[i],
                ),
            r matches Ok(lines) ==> lines.len() == self.keys().len() && forall|i: int|
                0 <= i < lines.len() ==> is_line_of(
                    #[trigger] lines[i],
                    root@,
                    self.keys()[i],
                    self.lists()[i],
                ),
            r matches Err(e) ==> e == CanonicalPathError::StripPrefix,
    {
        let mut lines: Vec<OverviewLine> = Vec::new();
        let n = self.len();
        let mut i: usize = 0;
        while i < n
            invariant
                i <= n,
                n == self.keys().len(),
                n == self.lists().len(),
                lines.len() == i,
                forall|k: int|
                    0 <= k < i ==> line_under(root@, #[trigger] self.keys()[k], self.lists()[k]),
                forall|k: int|
                    0 <= k < i ==> is_line_of(
                        #[trigger] lines[k],
                        root@,
                        self.keys()[k],
                        self.lists()[k],
                    ),
            decreases n - i,
        {
            let file = match self.file(i).strip_prefix(root) {
                Ok(text) => text,
                Err(e) => {
                    proof {
                        assert(!line_under(root@, self.keys()[i as int], self.lists()[i as int]));
                    }
                    return Err(e);
                },
            };
            let deps = self.dependencies(i);
            let dependencies = match list_seen_from(root, deps) {
                Ok(texts) => texts,
                Err(e) => {
                    proof {
                        assert(!line_under(root@, self.keys()[i as int], self.lists()[i as int]));
                    }
                    return Err(e);
                },
            };
            let ghost done = lines@;
            let line = OverviewLine { file, dependencies };
            proof {
                let list = self.lists()[i as int];
                assert forall|j: int| 0 <= j < list.len() implies (#[trigger] line.dependencies[j])@
                    == seen_from(root@, list[j].path) by {
                    assert(list[j] == deps[j]@);
                }
                assert(is_line_of(line, root@, self.keys()[i as int], list));
            }
            lines.push(line);
            proof {
                assert forall|k: int| 0 <= k < i + 1 implies is_line_of(
                    #[trigger] lines[k],
                    root@,
                    self.keys()[k],
                    self.lists()[k],
                ) by {
                    if k < i {
                        assert(lines[k] == done[k]);
                    }
                }
            }
            i += 1;
        }
        Ok(lines)
    }
}

} // verus!
