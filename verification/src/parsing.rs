//! The traversal: which file to read next, which path to look up next, and
//! what goes into the map.
//!
//! The [`DependencyParser`] never reads a disk. It hands out a [`Request`],
//! the caller answers with a [`Reply`], and each answer moves the traversal
//! one step on, until the request is [`Request::Finished`].

use crate::canonical_path::{
    components_of, is_canonical_text, text_of, CanonicalPath, CanonicalPathError,
};
use crate::dependencies::{
    resolved_models, targets, DependencyMap, ResolvedDependency, ResolvedModel,
};
use crate::error::{CatsError, CatsFault};
use crate::imports::{
    analysis, analysis_model, analyze, import_models, relative_imports, retain_relative_imports,
    ImportDescriptor, ImportModel, ParseError, ParseFault,
};
use crate::path_text::{candidate, candidate_text, join_text};
use vstd::prelude::*;

verus! {

/// What the traversal needs to know next.
#[derive(Debug, PartialEq, Eq)]
pub enum Request {
    /// The text of this file.
    Read(CanonicalPath),
    /// Whether this path text names an existing directory.
    Probe(String),
    /// The canonical text of this path, if anything exists there.
    Canonicalize(String),
    /// Nothing: the map is complete.
    Finished,
}

/// A [`Request`] as a value of the logic.
pub enum RequestModel {
    Read(Seq<Seq<char>>),
    Probe(Seq<char>),
    Canonicalize(Seq<char>),
    Finished,
}

impl View for Request {
    type V = RequestModel;

    open spec fn view(&self) -> RequestModel {
        match self {
            Request::Read(file) => RequestModel::Read(file@),
            Request::Probe(text) => RequestModel::Probe(text@),
            Request::Canonicalize(text) => RequestModel::Canonicalize(text@),
            Request::Finished => RequestModel::Finished,
        }
    }
}

/// What the caller found out.
#[derive(Debug, PartialEq, Eq)]
pub enum Reply {
    /// The text of the file that was to be read.
    Source(String),
    /// The file could not be read.
    Unreadable,
    /// Whether the probed path names an existing directory.
    Directory(bool),
    /// The canonical text of the path that was to be looked up.
    Canonical(String),
    /// Nothing exists at the path that was to be looked up.
    Missing,
}

/// A [`Reply`] as a value of the logic.
pub enum ReplyModel {
    Source(Seq<char>),
    Unreadable,
    Directory(bool),
    Canonical(Seq<char>),
    Missing,
}

impl View for Reply {
    type V = ReplyModel;

    open spec fn view(&self) -> ReplyModel {
        match self {
            Reply::Source(text) => ReplyModel::Source(text@),
            Reply::Unreadable => ReplyModel::Unreadable,
            Reply::Directory(is_dir) => ReplyModel::Directory(*is_dir),
            Reply::Canonical(text) => ReplyModel::Canonical(text@),
            Reply::Missing => ReplyModel::Missing,
        }
    }
}

/// What the traversal waits for.
#[derive(Debug, Clone, Copy, PartialEq, Eq, Structural)]
pub enum Phase {
    /// Nothing: no traversal is under way.
    Idle,
    /// The text of `file`.
    Reading,
    /// Whether `pursuit`, the joined text of the next import, is a directory.
    Probing,
    /// The canonical text of `pursuit`, the candidate of the next import.
    Locating,
}

/// The state of a traversal as a value of the logic.
pub struct ParserModel {
    /// The files still to visit; the last one is next.
    pub pending: Seq<Seq<Seq<char>>>,
    pub phase: Phase,
    /// The file being visited.
    pub file: Seq<Seq<char>>,
    /// Its directory.
    pub parent: Seq<Seq<char>>,
    /// The imports of `file` that the graph follows.
    pub imports: Seq<ImportModel>,
    /// The first of them, resolved.
    pub resolved: Seq<ResolvedModel>,
    /// The path text that the last request named.
    pub pursuit: Seq<char>,
}

/// A step of the traversal: the state and the map after it, and what it
/// asks for or fails with.
pub struct Step {
    pub state: ParserModel,
    pub map: Map<Seq<Seq<char>>, Seq<ResolvedModel>>,
    pub outcome: Result<RequestModel, CatsFault>,
}

/// The models of a list of paths.
pub open spec fn path_models(v: Seq<CanonicalPath>) -> Seq<Seq<Seq<char>>> {
    Seq::new(v.len(), |i: int| v[i]@)
}

/// The outcome of a step as a value of the logic.
pub open spec fn outcome_model(r: Result<Request, CatsError>) -> Result<RequestModel, CatsFault> {
    match r {
        Ok(request) => Ok(request@),
        Err(e) => Err(e@),
    }
}

/// The state in which no traversal is under way.
pub open spec fn idle() -> ParserModel {
    ParserModel {
        pending: Seq::empty(),
        phase: Phase::Idle,
        file: Seq::empty(),
        parent: Seq::empty(),
        imports: Seq::empty(),
        resolved: Seq::empty(),
        pursuit: Seq::empty(),
    }
}

/// The traversal stops with `fault`; the map stays as it is.
pub open spec fn fail(map: Map<Seq<Seq<char>>, Seq<ResolvedModel>>, fault: CatsFault) -> Step {
    Step { state: idle(), map, outcome: Err(fault) }
}

/// Picks the next file to visit: the last pending file that the map does
/// not hold yet. With none left the traversal is finished.
pub open spec fn settle(
    pending: Seq<Seq<Seq<char>>>,
    map: Map<Seq<Seq<char>>, Seq<ResolvedModel>>,
) -> Step
    decreases pending.len(),
{
    if pending.len() == 0 {
        Step { state: idle(), map, outcome: Ok(RequestModel::Finished) }
    } else if map.contains_key(pending.last()) {
        settle(pending.drop_last(), map)
    } else {
        Step {
            state: ParserModel {
                pending: pending.drop_last(),
                phase: Phase::Reading,
                file: pending.last(),
                ..idle()
            },
            map,
            outcome: Ok(RequestModel::Read(pending.last())),
        }
    }
}

/// Picking the next file leaves the map as it is and never fails.
pub(crate) proof fn lemma_settle(pending: Seq<Seq<Seq<char>>>, map: Map<Seq<Seq<char>>, Seq<ResolvedModel>>)
    ensures
        settle(pending, map).map == map,
        settle(pending, map).outcome is Ok,
    decreases pending.len(),
{
    if pending.len() > 0 && map.contains_key(pending.last()) {
        lemma_settle(pending.drop_last(), map);
    }
}

/// Goes on with the visit of `file`. While an import is left, its joined
/// text is probed. Once all are resolved, the file goes into the map with
/// its list, and the files of the list become pending, the first one next.
pub open spec fn pursue(
    pending: Seq<Seq<Seq<char>>>,
    file: Seq<Seq<char>>,
    parent: Seq<Seq<char>>,
    imports: Seq<ImportModel>,
    resolved: Seq<ResolvedModel>,
    map: Map<Seq<Seq<char>>, Seq<ResolvedModel>>,
) -> Step {
    if resolved.len() >= imports.len() {
        settle(pending + targets(resolved).reverse(), map.insert(file, resolved))
    } else {
        let joined = join_text(text_of(parent), imports[resolved.len() as int].specifier);
        Step {
            state: ParserModel {
                pending,
                phase: Phase::Probing,
                file,
                parent,
                imports,
                resolved,
                pursuit: joined,
            },
            map,
            outcome: Ok(RequestModel::Probe(joined)),
        }
    }
}

/// The traversal that starts at `file`.
pub open spec fn begin(map: Map<Seq<Seq<char>>, Seq<ResolvedModel>>, file: Seq<Seq<char>>) -> Step {
    settle(seq![file], map)
}

/// What the analysis of the file that was read makes of a state and a map:
/// the visit of the file starts with the imports that the graph follows.
pub open spec fn enter(
    s: ParserModel,
    map: Map<Seq<Seq<char>>, Seq<ResolvedModel>>,
    outcome: Result<Seq<ImportModel>, ParseFault>,
) -> Step {
    if s.phase != Phase::Reading {
        fail(map, CatsFault::UnexpectedReply)
    } else {
        match outcome {
            Err(error) => fail(map, CatsFault::Parse { file: s.file, error }),
            Ok(descriptors) => if s.file.len() == 0 {
                fail(map, CatsFault::NoParent { file: s.file })
            } else {
                pursue(
                    s.pending,
                    s.file,
                    s.file.drop_last(),
                    relative_imports(descriptors),
                    Seq::empty(),
                    map,
                )
            },
        }
    }
}

/// What a reply makes of a state and a map.
pub open spec fn step(
    s: ParserModel,
    map: Map<Seq<Seq<char>>, Seq<ResolvedModel>>,
    reply: ReplyModel,
) -> Step {
    match (s.phase, reply) {
        (Phase::Reading, ReplyModel::Source(text)) => enter(s, map, analysis(text)),
        (Phase::Reading, ReplyModel::Unreadable) => fail(map, CatsFault::Io { file: s.file }),
        (Phase::Probing, ReplyModel::Directory(is_dir)) => {
            let candidate = candidate_text(s.pursuit, is_dir);
            Step {
                state: ParserModel { phase: Phase::Locating, pursuit: candidate, ..s },
                map,
                outcome: Ok(RequestModel::Canonicalize(candidate)),
            }
        },
        (Phase::Locating, ReplyModel::Canonical(text)) => if is_canonical_text(text) {
            pursue(
                s.pending,
                s.file,
                s.parent,
                s.imports,
                s.resolved.push(
                    ResolvedModel {
                        descriptor: s.imports[s.resolved.len() as int],
                        path: components_of(text),
                    },
                ),
                map,
            )
        } else {
            fail(map, CatsFault::CanonicalPath(CanonicalPathError::NotCanonical))
        },
        (Phase::Locating, ReplyModel::Missing) => fail(
            map,
            CatsFault::UnresolvedImport {
                importer: s.file,
                specifier: s.imports[s.resolved.len() as int].specifier,
                candidate: s.pursuit,
            },
        ),
        _ => fail(map, CatsFault::UnexpectedReply),
    }
}

/// The traversal of a dependency graph: the files that are pending, and
/// how far the visit of the current file has come.
#[derive(Debug)]
pub struct DependencyParser {
    pending: Vec<CanonicalPath>,
    phase: Phase,
    file: CanonicalPath,
    parent: CanonicalPath,
    imports: Vec<ImportDescriptor>,
    resolved: Vec<ResolvedDependency>,
    pursuit: String,
}

impl View for DependencyParser {
    type V = ParserModel;

    closed spec fn view(&self) -> ParserModel {
        ParserModel {
            pending: path_models(self.pending@),
            phase: self.phase,
            file: self.file@,
            parent: self.parent@,
            imports: import_models(self.imports@),
            resolved: resolved_models(self.resolved@),
            pursuit: self.pursuit@,
        }
    }
}

impl DependencyParser {
    #[verifier::type_invariant]
    spec fn well_formed(self) -> bool {
        (self.phase == Phase::Probing || self.phase == Phase::Locating) ==> self.resolved.len()
            < self.imports.len()
    }

    /// A parser with no traversal under way.
    pub fn new() -> (r: DependencyParser)
        ensures
            r@ == idle(),
    {
        let r = DependencyParser {
            pending: Vec::new(),
            phase: Phase::Idle,
            file: CanonicalPath::root(),
            parent: CanonicalPath::root(),
            imports: Vec::new(),
            resolved: Vec::new(),
            pursuit: String::new(),
        };
        proof {
            assert(r@.pending =~= Seq::empty());
            assert(r@.imports =~= Seq::empty());
            assert(r@.resolved =~= Seq::empty());
        }
        r
    }

    /// What the traversal waits for.
    pub fn phase(&self) -> (r: Phase)
        ensures
            r == self@.phase,
    {
        self.phase
    }

    /// Forgets the visit under way; the pending files stay.
    fn reset(&mut self)
        ensures
            final(self)@ == (ParserModel { pending: old(self)@.pending, ..idle() }),
    {
        self.phase = Phase::Idle;
        self.file = CanonicalPath::root();
        self.parent = CanonicalPath::root();
        self.imports = Vec::new();
        self.resolved = Vec::new();
        self.pursuit = String::new();
        proof {
            assert(self@.imports =~= Seq::empty());
            assert(self@.resolved =~= Seq::empty());
        }
    }

    /// Forgets the traversal.
    fn abandon(&mut self)
        ensures
            final(self)@ == idle(),
    {
        self.reset();
        self.pending = Vec::new();
        proof {
            assert(self@.pending =~= Seq::empty());
        }
    }

    /// Picks the next file to visit among the pending ones.
    fn settle(&mut self, map: &DependencyMap) -> (r: Request)
        requires
            old(self)@ == (ParserModel { pending: old(self)@.pending, ..idle() }),
        ensures
            final(self)@ == settle(old(self)@.pending, map@).state,
            Ok::<RequestModel, CatsFault>(r@) == settle(old(self)@.pending, map@).outcome,
    {
        let mut pending: Vec<CanonicalPath> = Vec::new();
        core::mem::swap(&mut self.pending, &mut pending);
        proof {
            assert(self@.pending =~= Seq::empty());
        }
        loop
            invariant
                self@ == idle(),
                settle(path_models(pending@), map@) == settle(old(self)@.pending, map@),
            decreases pending.len(),
        {
            let ghost before = path_models(pending@);
            match pending.pop() {
                None => {
                    return Request::Finished;
                },
                Some(top) => {
                    proof {
                        assert(path_models(pending@) =~= before.drop_last());
                        assert(top@ == before.last());
                    }
                    if !map.contains_key(&top) {
                        let asked = top.clone();
                        self.file = top;
                        self.phase = Phase::Reading;
                        self.pending = pending;
                        return Request::Read(asked);
                    }
                },
            }
        }
    }

    /// Goes on with the visit: probes the next import, or, with none left,
    /// puts the file into the map and picks the next file.
    fn pursue(&mut self, map: &mut DependencyMap) -> (r: Request)
        requires
            old(self).phase == Phase::Reading,
            old(self).resolved.len() <= old(self).imports.len(),
        ensures
            ({
                let s = old(self)@;
                let st = pursue(s.pending, s.file, s.parent, s.imports, s.resolved, old(map)@);
                &&& final(self)@ == st.state
                &&& final(map)@ == st.map
                &&& Ok::<RequestModel, CatsFault>(r@) == st.outcome
            }),
    {
        let ghost s = self@;
        let done = self.resolved.len();
        if done >= self.imports.len() {
            let mut file = CanonicalPath::root();
            let mut resolved: Vec<ResolvedDependency> = Vec::new();
            let mut pending: Vec<CanonicalPath> = Vec::new();
            core::mem::swap(&mut self.file, &mut file);
            core::mem::swap(&mut self.resolved, &mut resolved);
            core::mem::swap(&mut self.pending, &mut pending);
            let ghost found = targets(resolved_models(resolved@)).reverse();
            let mut i: usize = done;
            proof {
                assert(s.pending + found.take(0) =~= s.pending);
            }
            while i > 0
                invariant
                    i <= done,
                    done == resolved.len(),
                    found == targets(resolved_models(resolved@)).reverse(),
                    path_models(pending@) == s.pending + found.take(done - i),
                decreases i,
            {
                let ghost before = path_models(pending@);
                i -= 1;
                let target = resolved[i].path.clone();
                pending.push(target);
                proof {
                    assert(found[done - 1 - i] == resolved[i as int]@.path);
                    assert(path_models(pending@) =~= before.push(resolved[i as int]@.path));
                    assert(s.pending + found.take(done - i) =~= (s.pending + found.take(
                        done - 1 - i,
                    )).push(found[done - 1 - i]));
                }
            }
            proof {
                assert(found.take(done as int) =~= found);
            }
            map.insert(file, resolved);
            self.reset();
            self.pending = pending;
            proof {
                lemma_settle(self@.pending, map@);
            }
            self.settle(&*map)
        } else {
            let specifier = self.imports[done].specifier.clone();
            let joined = self.parent.join(specifier.as_str());
            self.pursuit = joined.clone();
            self.phase = Phase::Probing;
            Request::Probe(joined)
        }
    }

    /// Starts the traversal at `file_path`, in place of any that was under
    /// way: the request is for the text of `file_path`, unless
    /// `file_dep_map` holds it already, in which case there is nothing to do.
    pub fn get_deps_recursively(
        &mut self,
        file_dep_map: &DependencyMap,
        file_path: &CanonicalPath,
    ) -> (r: Request)
        ensures
            final(self)@ == begin(file_dep_map@, file_path@).state,
            Ok::<RequestModel, CatsFault>(r@) == begin(file_dep_map@, file_path@).outcome,
    {
        self.abandon();
        let mut pending: Vec<CanonicalPath> = Vec::new();
        pending.push(file_path.clone());
        self.pending = pending;
        proof {
            assert(self@.pending =~= seq![file_path@]);
        }
        self.settle(file_dep_map)
    }

    /// Takes the analysis of the file that was asked for, in place of its
    /// text, and says what to do next. A failed analysis ends the traversal,
    /// and so does a file without a directory. Otherwise the visit of the
    /// file starts: the request is the probe of its first followed import,
    /// or, where it has none, the file enters the map with an empty list.
    pub fn enter(
        &mut self,
        file_dep_map: &mut DependencyMap,
        outcome: Result<Vec<ImportDescriptor>, ParseError>,
    ) -> (r: Result<Request, CatsError>)
        ensures
            ({
                let st = enter(old(self)@, old(file_dep_map)@, analysis_model(outcome));
                &&& final(self)@ == st.state
                &&& final(file_dep_map)@ == st.map
                &&& outcome_model(r) == st.outcome
            }),
    {
        match self.phase {
            Phase::Reading => match outcome {
                Err(error) => {
                    let file = self.file.clone();
                    self.abandon();
                    Err(CatsError::Parse { file, error })
                },
                Ok(descriptors) => match self.file.parent() {
                    None => {
                        let file = self.file.clone();
                        self.abandon();
                        Err(CatsError::NoParent { file })
                    },
                    Some(parent) => {
                        self.parent = parent;
                        self.imports = retain_relative_imports(&descriptors);
                        self.resolved = Vec::new();
                        proof {
                            assert(self@.resolved =~= Seq::empty());
                        }
                        Ok(self.pursue(file_dep_map))
                    },
                },
            },
            _ => {
                self.abandon();
                Err(CatsError::UnexpectedReply)
            },
        }
    }

    /// Takes the reply to the last request and says what to do next.
    ///
    /// The text of a file is analysed and the imports that the graph follows
    /// are resolved one by one, each by a probe of its joined text and a
    /// lookup of its candidate. When the last one is resolved the file
    /// enters the map. Any failure ends the traversal.
    pub fn advance(&mut self, file_dep_map: &mut DependencyMap, reply: Reply) -> (r: Result<
        Request,
        CatsError,
    >)
        ensures
            ({
                let st = step(old(self)@, old(file_dep_map)@, reply@);
                &&& final(self)@ == st.state
                &&& final(file_dep_map)@ == st.map
                &&& outcome_model(r) == st.outcome
            }),
    {
        proof {
            use_type_invariant(&*self);
        }
        match self.phase {
            Phase::Reading => match reply {
                Reply::Source(text) => {
                    let outcome = analyze(text.as_str());
                    self.enter(file_dep_map, outcome)
                },
                Reply::Unreadable => {
                    let file = self.file.clone();
                    self.abandon();
                    Err(CatsError::Io { file })
                },
                _ => {
                    self.abandon();
                    Err(CatsError::UnexpectedReply)
                },
            },
            Phase::Probing => match reply {
                Reply::Directory(is_dir) => {
                    let text = candidate(self.pursuit.as_str(), is_dir);
                    self.pursuit = text.clone();
                    self.phase = Phase::Locating;
                    Ok(Request::Canonicalize(text))
                },
                _ => {
                    self.abandon();
                    Err(CatsError::UnexpectedReply)
                },
            },
            Phase::Locating => match reply {
                Reply::Canonical(text) => match CanonicalPath::new(text.as_str()) {
                    Err(e) => {
                        self.abandon();
                        Err(CatsError::CanonicalPath(e))
                    },
                    Ok(path) => {
                        let ghost before = self@.resolved;
                        let descriptor = self.imports[self.resolved.len()].clone();
                        let mut resolved: Vec<ResolvedDependency> = Vec::new();
                        self.phase = Phase::Reading;
                        core::mem::swap(&mut self.resolved, &mut resolved);
                        resolved.push(ResolvedDependency { descriptor, path });
                        self.resolved = resolved;
                        proof {
                            assert(self@.resolved =~= before.push(
                                ResolvedModel {
                                    descriptor: self@.imports[before.len() as int],
                                    path: components_of(text@),
                                },
                            ));
                        }
                        Ok(self.pursue(file_dep_map))
                    },
                },
                Reply::Missing => {
                    let importer = self.file.clone();
                    let specifier = self.imports[self.resolved.len()].specifier.clone();
                    let candidate = self.pursuit.clone();
                    self.abandon();
                    Err(CatsError::UnresolvedImport { importer, specifier, candidate })
                },
                _ => {
                    self.abandon();
                    Err(CatsError::UnexpectedReply)
                },
            },
            Phase::Idle => {
                self.abandon();
                Err(CatsError::UnexpectedReply)
            },
        }
    }
}

} // verus!
