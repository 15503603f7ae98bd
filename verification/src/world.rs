//! Builds against a world: what a disk would answer, as a value of the
//! logic, and what holds of every build against it.
//!
//! Nothing here runs. A [`World`] answers each request the way an unchanging
//! disk would, [`run`] lets the traversal take its steps against it, and the
//! proof functions state what every such run has in common.

use crate::canonical_path::{components_of, is_canonical_text};
use crate::dependencies::{targets, ResolvedModel};
use crate::imports::{analysis, relative_imports, ImportModel};
use crate::parsing::{
    begin, idle, lemma_settle, pursue, settle, step, Phase, ReplyModel, RequestModel, Step,
};
use vstd::prelude::*;
use vstd::set::{axiom_set_difference_finite, axiom_set_remove_len};

verus! {

/// What there is to find on a disk that does not change.
pub struct World {
    /// The text of each file that can be read, by its canonical path.
    pub sources: Map<Seq<Seq<char>>, Seq<char>>,
    /// The path texts that name an existing directory.
    pub directories: Set<Seq<char>>,
    /// The canonical text of each path text at which something exists.
    pub canonical: Map<Seq<char>, Seq<char>>,
}

/// The reply of the world to a request.
pub open spec fn answer(w: World, request: RequestModel) -> ReplyModel {
    match request {
        RequestModel::Read(file) => if w.sources.contains_key(file) {
            ReplyModel::Source(w.sources[file])
        } else {
            ReplyModel::Unreadable
        },
        RequestModel::Probe(text) => ReplyModel::Directory(w.directories.contains(text)),
        RequestModel::Canonicalize(text) => if w.canonical.contains_key(text) {
            ReplyModel::Canonical(w.canonical[text])
        } else {
            ReplyModel::Missing
        },
        RequestModel::Finished => ReplyModel::Missing,
    }
}

/// Nothing is left to ask: the traversal has finished or failed.
pub open spec fn is_over(st: Step) -> bool {
    match st.outcome {
        Ok(RequestModel::Finished) => true,
        Ok(_) => false,
        Err(_) => true,
    }
}

/// The step that the world's reply leads to; none once the traversal is over.
pub open spec fn next(w: World, st: Step) -> Step {
    if is_over(st) {
        st
    } else {
        step(st.state, st.map, answer(w, st.outcome->Ok_0))
    }
}

/// Where `n` replies of the world lead from `st`.
pub open spec fn run(w: World, st: Step, n: nat) -> Step
    decreases n,
{
    if n == 0 {
        st
    } else {
        run(w, next(w, st), (n - 1) as nat)
    }
}

/// The build of the graph of `entry`, from the empty map, after `n` replies.
pub open spec fn build(w: World, entry: Seq<Seq<char>>, n: nat) -> Step {
    run(w, begin(Map::empty(), entry), n)
}

/// The requests that the world answers in the first `n` steps from `st`.
pub open spec fn requests(w: World, st: Step, n: nat) -> Seq<RequestModel>
    decreases n,
{
    if n == 0 || is_over(st) {
        Seq::<RequestModel>::empty()
    } else {
        seq![st.outcome->Ok_0] + requests(w, next(w, st), (n - 1) as nat)
    }
}

/// No file is asked for twice.
pub open spec fn reads_once(rs: Seq<RequestModel>) -> bool {
    forall|i: int, j: int| 0 <= i < j < rs.len() && rs[i] is Read ==> rs[j] != rs[i]
}

/// State, map and request fit together: the request is the one that the
/// phase waits on, and the file being visited is not in the map yet.
pub open spec fn coherent(st: Step) -> bool {
    match st.outcome {
        Err(_) => true,
        Ok(RequestModel::Finished) => st.state == idle(),
        Ok(RequestModel::Read(file)) => {
            &&& st.state.phase == Phase::Reading
            &&& st.state.file == file
            &&& !st.map.contains_key(file)
        },
        Ok(RequestModel::Probe(text)) => {
            &&& st.state.phase == Phase::Probing
            &&& st.state.pursuit == text
            &&& !st.map.contains_key(st.state.file)
            &&& st.state.resolved.len() < st.state.imports.len()
        },
        Ok(RequestModel::Canonicalize(text)) => {
            &&& st.state.phase == Phase::Locating
            &&& st.state.pursuit == text
            &&& !st.map.contains_key(st.state.file)
            &&& st.state.resolved.len() < st.state.imports.len()
        },
    }
}

/// The file being visited has been read from the world.
pub open spec fn grounded(w: World, st: Step) -> bool {
    (st.state.phase == Phase::Probing || st.state.phase == Phase::Locating)
        ==> w.sources.contains_key(st.state.file)
}

/// The readable files that the map does not hold yet.
pub open spec fn unvisited(w: World, st: Step) -> Set<Seq<Seq<char>>> {
    w.sources.dom().difference(st.map.dom())
}

/// What is left to do, first part: two for each unvisited file, less one
/// once the file being visited has been read.
pub open spec fn files_left(w: World, st: Step) -> nat {
    2 * unvisited(w, st).len() + if st.state.phase == Phase::Probing || st.state.phase
        == Phase::Locating {
        0nat
    } else {
        1nat
    }
}

/// What is left to do, second part: two for each import of the file being
/// visited that is not resolved, less one once its joined text is probed.
pub open spec fn imports_left(st: Step) -> nat {
    if st.state.resolved.len() < st.state.imports.len() {
        (2 * (st.state.imports.len() - st.state.resolved.len()) - if st.state.phase
            == Phase::Probing {
            0int
        } else {
            1int
        }) as nat
    } else {
        0
    }
}

pub(crate) proof fn lemma_settle_coherent(
    pending: Seq<Seq<Seq<char>>>,
    map: Map<Seq<Seq<char>>, Seq<ResolvedModel>>,
)
    ensures
        coherent(settle(pending, map)),
        settle(pending, map).state.phase == Phase::Idle || settle(pending, map).state.phase
            == Phase::Reading,
    decreases pending.len(),
{
    if pending.len() > 0 && map.contains_key(pending.last()) {
        lemma_settle_coherent(pending.drop_last(), map);
    }
}

/// The visit of one file goes on from `st` to `after`: from reading to the
/// first probe, from a probe to its lookup, or from a lookup to the next
/// probe, with one more import resolved.
pub open spec fn visit_goes_on(st: Step, after: Step) -> bool {
    &&& after.map == st.map
    &&& after.state.file == st.state.file
    &&& !(after.outcome->Ok_0 is Read)
    &&& match st.state.phase {
        Phase::Reading => after.state.phase == Phase::Probing,
        Phase::Probing => {
            &&& after.state.phase == Phase::Locating
            &&& after.state.imports == st.state.imports
            &&& after.state.resolved == st.state.resolved
        },
        Phase::Locating => {
            &&& after.state.phase == Phase::Probing
            &&& after.state.imports == st.state.imports
            &&& after.state.resolved.len() == st.state.resolved.len() + 1
        },
        Phase::Idle => false,
    }
}

/// The visit of one file ends between `st` and `after`: the file, which
/// the world could read, enters the map, and no visit is half way.
pub open spec fn visit_ends(w: World, st: Step, after: Step) -> bool {
    &&& w.sources.contains_key(st.state.file)
    &&& after.map == st.map.insert(st.state.file, after.map[st.state.file])
    &&& (after.state.phase == Phase::Idle || after.state.phase == Phase::Reading)
}

/// Going on with a visit either probes the next import, with the map as it
/// was, or puts the file into the map and picks the next file.
pub(crate) proof fn lemma_pursue(
    pending: Seq<Seq<Seq<char>>>,
    file: Seq<Seq<char>>,
    parent: Seq<Seq<char>>,
    imports: Seq<ImportModel>,
    resolved: Seq<ResolvedModel>,
    map: Map<Seq<Seq<char>>, Seq<ResolvedModel>>,
)
    requires
        !map.contains_key(file),
    ensures
        coherent(pursue(pending, file, parent, imports, resolved, map)),
        pursue(pending, file, parent, imports, resolved, map).outcome is Ok,
        resolved.len() < imports.len() ==> {
            let st = pursue(pending, file, parent, imports, resolved, map);
            &&& st.map == map
            &&& st.state.phase == Phase::Probing
            &&& st.state.file == file
            &&& st.state.imports == imports
            &&& st.state.resolved == resolved
            &&& st.outcome->Ok_0 is Probe
        },
        resolved.len() >= imports.len() ==> {
            let st = pursue(pending, file, parent, imports, resolved, map);
            &&& st.map == map.insert(file, resolved)
            &&& (st.state.phase == Phase::Idle || st.state.phase == Phase::Reading)
        },
{
    if resolved.len() >= imports.len() {
        let pending2 = pending + targets(resolved).reverse();
        let map2 = map.insert(file, resolved);
        lemma_settle(pending2, map2);
        lemma_settle_coherent(pending2, map2);
    }
}

/// What a reply of the world makes of a fitting step: another fitting step,
/// which has failed with the map as it was, or goes on with the visit, or
/// has ended the visit.
pub(crate) proof fn lemma_next(w: World, st: Step)
    requires
        coherent(st),
        grounded(w, st),
        !is_over(st),
    ensures
        coherent(next(w, st)),
        grounded(w, next(w, st)),
        next(w, st).outcome is Err ==> next(w, st).map == st.map,
        next(w, st).outcome is Ok ==> visit_goes_on(st, next(w, st)) || visit_ends(
            w,
            st,
            next(w, st),
        ),
        forall|k: Seq<Seq<char>>|
            st.map.contains_key(k) ==> next(w, st).map.contains_key(k) && next(w, st).map[k]
                == st.map[k],
{
    let s = st.state;
    let after = next(w, st);
    assert(after == step(s, st.map, answer(w, st.outcome->Ok_0)));
    match (s.phase, answer(w, st.outcome->Ok_0)) {
        (Phase::Reading, ReplyModel::Source(text)) => {
            match analysis(text) {
                Ok(descriptors) => {
                    if s.file.len() > 0 {
                        lemma_pursue(
                            s.pending,
                            s.file,
                            s.file.drop_last(),
                            relative_imports(descriptors),
                            Seq::empty(),
                            st.map,
                        );
                    }
                },
                Err(_) => {},
            }
        },
        (Phase::Locating, ReplyModel::Canonical(text)) => {
            if is_canonical_text(text) {
                lemma_pursue(
                    s.pending,
                    s.file,
                    s.parent,
                    s.imports,
                    s.resolved.push(
                        ResolvedModel {
                            descriptor: s.imports[s.resolved.len() as int],
                            path: components_of(text),
                        },
                    ),
                    st.map,
                );
            }
        },
        _ => {},
    }
}

/// Once over, a run stays where it is.
pub(crate) proof fn lemma_over_stays(w: World, st: Step, n: nat)
    requires
        is_over(st),
    ensures
        run(w, st, n) == st,
    decreases n,
{
    if n > 0 {
        lemma_over_stays(w, st, (n - 1) as nat);
    }
}

/// A run that is over after `n` replies is the same after any more.
proof fn lemma_run_stays(w: World, st: Step, n: nat, m: nat)
    requires
        is_over(run(w, st, n)),
        n <= m,
    ensures
        run(w, st, m) == run(w, st, n),
    decreases n,
{
    if n == 0 {
        lemma_over_stays(w, st, m);
    } else {
        lemma_run_stays(w, next(w, st), (n - 1) as nat, (m - 1) as nat);
    }
}

/// Against one world, the build of one entry file ends in one way. However many replies two runs take, once both are over they have the
/// same map and the same outcome.
pub proof fn build_is_deterministic(w: World, entry: Seq<Seq<char>>, n: nat, m: nat)
    requires
        is_over(build(w, entry, n)),
        is_over(build(w, entry, m)),
    ensures
        build(w, entry, n) == build(w, entry, m),
{
    let start = begin(Map::empty(), entry);
    if n <= m {
        lemma_run_stays(w, start, n, m);
    } else {
        lemma_run_stays(w, start, m, n);
    }
}

/// Each step that does not end the traversal leaves less to do.
proof fn lemma_progress(w: World, st: Step)
    requires
        coherent(st),
        grounded(w, st),
        !is_over(st),
        w.sources.dom().finite(),
    ensures
        is_over(next(w, st)) || files_left(w, next(w, st)) < files_left(w, st) || (files_left(
            w,
            next(w, st),
        ) == files_left(w, st) && imports_left(next(w, st)) < imports_left(st)),
{
    lemma_next(w, st);
    let after = next(w, st);
    let file = st.state.file;
    if !is_over(after) && !visit_goes_on(st, after) {
        axiom_set_difference_finite(w.sources.dom(), st.map.dom());
        axiom_set_remove_len(unvisited(w, st), file);
        assert(unvisited(w, after) =~= unvisited(w, st).remove(file));
        assert(unvisited(w, st).contains(file));
    }
}

/// From any fitting state the traversal is over after finitely many
/// replies, if the world holds finitely many files.
proof fn lemma_run_terminates(w: World, st: Step)
    requires
        coherent(st),
        grounded(w, st),
        w.sources.dom().finite(),
    ensures
        exists|n: nat| is_over(run(w, st, n)),
    decreases files_left(w, st), imports_left(st),
{
    if is_over(st) {
        assert(is_over(run(w, st, 0)));
    } else {
        let after = next(w, st);
        lemma_next(w, st);
        lemma_progress(w, st);
        if is_over(after) {
            assert(run(w, st, 1) == run(w, after, 0));
            assert(is_over(run(w, st, 1)));
        } else {
            lemma_run_terminates(w, after);
            let n = choose|n: nat| is_over(run(w, after, n));
            assert(run(w, st, n + 1) == run(w, after, n));
            assert(is_over(run(w, st, n + 1)));
        }
    }
}

/// Against a world of finitely many files every build is over after
/// finitely many replies, whatever imports what, cycles included.
pub proof fn build_terminates(w: World, entry: Seq<Seq<char>>)
    requires
        w.sources.dom().finite(),
    ensures
        exists|n: nat| is_over(build(w, entry, n)),
{
    let start = begin(Map::empty(), entry);
    lemma_settle_coherent(seq![entry], Map::empty());
    lemma_run_terminates(w, start);
    let n = choose|n: nat| is_over(run(w, start, n));
    assert(is_over(build(w, entry, n)));
}

/// The files asked for in a run are not in the map at its start, differ
/// from the file that is being visited, and differ from each other.
proof fn lemma_reads(w: World, st: Step, n: nat)
    requires
        coherent(st),
        grounded(w, st),
    ensures
        reads_once(requests(w, st, n)),
        forall|i: int|
            0 <= i < requests(w, st, n).len() ==> (#[trigger] requests(w, st, n)[i]
                matches RequestModel::Read(f) ==> !st.map.contains_key(f) && (i > 0 ==> f
                != st.state.file)),
    decreases n,
{
    if n == 0 || is_over(st) {
    } else {
        let after = next(w, st);
        lemma_next(w, st);
        lemma_reads(w, after, (n - 1) as nat);
        let rest = requests(w, after, (n - 1) as nat);
        let rs = requests(w, st, n);
        assert(rs == seq![st.outcome->Ok_0] + rest);
        assert forall|i: int| 0 <= i < rs.len() implies (#[trigger] rs[i]
            matches RequestModel::Read(f) ==> !st.map.contains_key(f) && (i > 0 ==> f
            != st.state.file)) by {
            if i > 0 {
                assert(rs[i] == rest[i - 1]);
                assert(!is_over(after));
                if i == 1 {
                    assert(rest[0] == after.outcome->Ok_0);
                }
            }
        }
        assert forall|i: int, j: int| 0 <= i < j < rs.len() && rs[i] is Read implies rs[j]
            != rs[i] by {
            assert(rs[j] == rest[j - 1]);
            if i > 0 {
                assert(rs[i] == rest[i - 1]);
            }
        }
    }
}

/// In a build no file is asked for twice, however many files import it. So
/// each file is parsed once, when its text arrives.
pub proof fn each_file_is_read_once(w: World, entry: Seq<Seq<char>>, n: nat)
    ensures
        reads_once(requests(w, begin(Map::empty(), entry), n)),
{
    lemma_settle_coherent(seq![entry], Map::empty());
    lemma_reads(w, begin(Map::empty(), entry), n);
}

} // verus!
