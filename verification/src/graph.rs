//! What a finished build holds: the entry file, every file that its lists
//! lead to, and under each file what the world resolves its imports to.

use crate::canonical_path::{components_of, is_canonical_text, text_of};
use crate::dependencies::{targets, ResolvedModel};
use crate::error::CatsFault;
use crate::imports::{analysis, is_relative_import, relative_imports, ImportModel};
use crate::parsing::{
    begin, idle, lemma_settle, pursue, settle, ParserModel, Phase, ReplyModel, RequestModel, Step,
};
use crate::path_text::{candidate_text, join_text};
use crate::world::{
    answer, build, build_terminates, coherent, grounded, is_over, lemma_next, lemma_over_stays,
    lemma_pursue, lemma_settle_coherent, next, requests, run, World,
};
use vstd::prelude::*;

verus! {

/// The imports of `file` that the graph follows, in source order.
pub open spec fn followed_imports(w: World, file: Seq<Seq<char>>) -> Seq<ImportModel> {
    relative_imports(analysis(w.sources[file])->Ok_0)
}

/// The specifier of `d` joined to the directory of `file`.
pub open spec fn joined(file: Seq<Seq<char>>, d: ImportModel) -> Seq<char> {
    join_text(text_of(file.drop_last()), d.specifier)
}

/// The path text that is looked up for the import `d` of `file`: the index
/// of a directory, the default extension where the name has none.
pub open spec fn looked_up(w: World, file: Seq<Seq<char>>, d: ImportModel) -> Seq<char> {
    candidate_text(joined(file, d), w.directories.contains(joined(file, d)))
}

/// What the import `d` of `file` resolves to.
pub open spec fn resolution(w: World, file: Seq<Seq<char>>, d: ImportModel) -> ResolvedModel {
    ResolvedModel { descriptor: d, path: components_of(w.canonical[looked_up(w, file, d)]) }
}

/// The dependency list of `file`: each followed import with what it
/// resolves to, in source order.
pub open spec fn listing(w: World, file: Seq<Seq<char>>) -> Seq<ResolvedModel> {
    Seq::new(
        followed_imports(w, file).len(),
        |i: int| resolution(w, file, followed_imports(w, file)[i]),
    )
}

/// The import `d` of `file` resolves: something exists at the path that is
/// looked up for it, under a canonical text.
pub open spec fn resolves(w: World, file: Seq<Seq<char>>, d: ImportModel) -> bool {
    &&& w.canonical.contains_key(looked_up(w, file, d))
    &&& is_canonical_text(w.canonical[looked_up(w, file, d)])
}

/// The first `n` followed imports of `file` resolve.
pub open spec fn resolves_first(w: World, file: Seq<Seq<char>>, n: int) -> bool {
    forall|i: int| 0 <= i < n ==> resolves(w, file, #[trigger] followed_imports(w, file)[i])
}

/// The file can be read, is a module that the parser accepts, lies in a
/// directory, and every import of it that the graph follows resolves.
pub open spec fn sound(w: World, file: Seq<Seq<char>>) -> bool {
    &&& w.sources.contains_key(file)
    &&& analysis(w.sources[file]) is Ok
    &&& file.len() > 0
    &&& resolves_first(w, file, followed_imports(w, file).len() as int)
}

/// The traversal knows of `p`: the map holds it, or it is pending, or it is
/// the file being visited.
pub open spec fn known(st: Step, p: Seq<Seq<char>>) -> bool {
    ||| st.map.contains_key(p)
    ||| st.state.pending.contains(p)
    ||| (st.state.phase != Phase::Idle && st.state.file == p)
}

/// The traversal knows of every file that a list of the map leads to.
pub open spec fn closed(st: Step) -> bool {
    forall|k: Seq<Seq<char>>, i: int|
        st.map.contains_key(k) && 0 <= i < st.map[k].len() ==> known(
            st,
            (#[trigger] st.map[k][i]).path,
        )
}

/// Every file of the map is sound, and the map lists under it what the
/// world resolves its imports to.
pub open spec fn faithful(
    w: World,
    map: Map<Seq<Seq<char>>, Seq<ResolvedModel>>,
) -> bool {
    forall|k: Seq<Seq<char>>| #[trigger] map.contains_key(k) ==> sound(w, k) && map[k] == listing(w, k)
}

/// The visit under way holds what the world says of its file so far.
pub open spec fn visit_faithful(w: World, s: ParserModel) -> bool {
    (s.phase == Phase::Probing || s.phase == Phase::Locating) ==> {
        &&& w.sources.contains_key(s.file)
        &&& analysis(w.sources[s.file]) is Ok
        &&& s.file.len() > 0
        &&& resolves_first(w, s.file, s.resolved.len() as int)
        &&& s.parent == s.file.drop_last()
        &&& s.imports == followed_imports(w, s.file)
        &&& s.resolved.len() < s.imports.len()
        &&& s.resolved == listing(w, s.file).take(s.resolved.len() as int)
        &&& s.pursuit == if s.phase == Phase::Probing {
            joined(s.file, s.imports[s.resolved.len() as int])
        } else {
            looked_up(w, s.file, s.imports[s.resolved.len() as int])
        }
    }
}

/// All that holds of a build of `entry` under way.
pub open spec fn complete(w: World, entry: Seq<Seq<char>>, st: Step) -> bool {
    &&& coherent(st)
    &&& grounded(w, st)
    &&& closed(st)
    &&& known(st, entry)
    &&& faithful(w, st.map)
    &&& visit_faithful(w, st.state)
}

/// Picking the next file loses none: whatever was in the map or pending is
/// known afterwards.
proof fn lemma_settle_known(
    pending: Seq<Seq<Seq<char>>>,
    map: Map<Seq<Seq<char>>, Seq<ResolvedModel>>,
    p: Seq<Seq<char>>,
)
    requires
        map.contains_key(p) || pending.contains(p),
    ensures
        known(settle(pending, map), p),
    decreases pending.len(),
{
    lemma_settle(pending, map);
    if pending.len() > 0 {
        let rest = pending.drop_last();
        if pending.contains(p) && pending.last() != p {
            let i = choose|i: int| 0 <= i < pending.len() && pending[i] == p;
            assert(rest[i] == p);
            assert(rest.contains(p));
        }
        if map.contains_key(pending.last()) {
            lemma_settle(rest, map);
            lemma_settle_known(rest, map, p);
        }
    }
}

/// Going on with a visit keeps all that holds of the build.
proof fn lemma_pursue_complete(
    w: World,
    entry: Seq<Seq<char>>,
    pre: Step,
    imports: Seq<ImportModel>,
    resolved: Seq<ResolvedModel>,
)
    requires
        pre.state.phase != Phase::Idle,
        !pre.map.contains_key(pre.state.file),
        closed(pre),
        known(pre, entry),
        faithful(w, pre.map),
        w.sources.contains_key(pre.state.file),
        analysis(w.sources[pre.state.file]) is Ok,
        pre.state.file.len() > 0,
        imports == followed_imports(w, pre.state.file),
        resolved.len() <= imports.len(),
        resolves_first(w, pre.state.file, resolved.len() as int),
        resolved == listing(w, pre.state.file).take(resolved.len() as int),
    ensures
        complete(
            w,
            entry,
            pursue(
                pre.state.pending,
                pre.state.file,
                pre.state.file.drop_last(),
                imports,
                resolved,
                pre.map,
            ),
        ),
{
    let pending = pre.state.pending;
    let file = pre.state.file;
    let map = pre.map;
    let after = pursue(pending, file, file.drop_last(), imports, resolved, map);
    lemma_pursue(pending, file, file.drop_last(), imports, resolved, map);
    if resolved.len() < imports.len() {
        assert forall|k: Seq<Seq<char>>, i: int|
            after.map.contains_key(k) && 0 <= i < after.map[k].len() implies known(
            after,
            (#[trigger] after.map[k][i]).path,
        ) by {
            assert(known(pre, pre.map[k][i].path));
        }
    } else {
        let found = targets(resolved).reverse();
        let pending2 = pending + found;
        let map2 = map.insert(file, resolved);
        assert(resolved =~= listing(w, file));
        lemma_settle(pending2, map2);
        lemma_settle_coherent(pending2, map2);
        assert(after == settle(pending2, map2));
        assert forall|k: Seq<Seq<char>>, i: int|
            after.map.contains_key(k) && 0 <= i < after.map[k].len() implies known(
            after,
            (#[trigger] after.map[k][i]).path,
        ) by {
            let p = after.map[k][i].path;
            if k == file {
                assert(found[resolved.len() - 1 - i] == p);
                assert(pending2[pending.len() + resolved.len() - 1 - i] == p);
                assert(pending2.contains(p));
            } else {
                assert(known(pre, pre.map[k][i].path));
                if pending.contains(p) {
                    let j = choose|j: int| 0 <= j < pending.len() && pending[j] == p;
                    assert(pending2[j] == p);
                    assert(pending2.contains(p));
                }
            }
            lemma_settle_known(pending2, map2, p);
        }
        if pending.contains(entry) {
            let j = choose|j: int| 0 <= j < pending.len() && pending[j] == entry;
            assert(pending2[j] == entry);
            assert(pending2.contains(entry));
        }
        lemma_settle_known(pending2, map2, entry);
    }
}

/// A step that does not fail keeps all that holds of the build.
proof fn lemma_next_complete(w: World, entry: Seq<Seq<char>>, st: Step)
    requires
        complete(w, entry, st),
        !is_over(st),
        next(w, st).outcome is Ok,
    ensures
        complete(w, entry, next(w, st)),
{
    let s = st.state;
    let reply = answer(w, st.outcome->Ok_0);
    let after = next(w, st);
    lemma_next(w, st);
    match (s.phase, reply) {
        (Phase::Reading, ReplyModel::Source(text)) => {
            match analysis(text) {
                Ok(descriptors) => {
                    if s.file.len() > 0 {
                        let imports = relative_imports(descriptors);
                        assert(Seq::<ResolvedModel>::empty() =~= listing(w, s.file).take(0));
                        lemma_pursue_complete(w, entry, st, imports, Seq::empty());
                    }
                },
                Err(_) => {},
            }
        },
        (Phase::Probing, ReplyModel::Directory(is_dir)) => {
            assert forall|k: Seq<Seq<char>>, i: int|
                after.map.contains_key(k) && 0 <= i < after.map[k].len() implies known(
                after,
                (#[trigger] after.map[k][i]).path,
            ) by {
                assert(known(st, st.map[k][i].path));
            }
        },
        (Phase::Locating, ReplyModel::Canonical(text)) => {
            if is_canonical_text(text) {
                let i = s.resolved.len() as int;
                let resolved = s.resolved.push(
                    ResolvedModel { descriptor: s.imports[i], path: components_of(text) },
                );
                assert(listing(w, s.file)[i] == resolution(w, s.file, s.imports[i]));
                assert(resolved =~= listing(w, s.file).take(i + 1));
                assert(resolves(w, s.file, followed_imports(w, s.file)[i]));
                lemma_pursue_complete(w, entry, st, s.imports, resolved);
            }
        },
        _ => {},
    }
}

/// A run that has not failed keeps all that holds of the build.
proof fn lemma_run_complete(w: World, entry: Seq<Seq<char>>, st: Step, n: nat)
    requires
        complete(w, entry, st),
        run(w, st, n).outcome is Ok,
    ensures
        complete(w, entry, run(w, st, n)),
    decreases n,
{
    if n > 0 {
        let after = next(w, st);
        if is_over(st) {
            lemma_over_stays(w, st, n);
        } else {
            if after.outcome is Err {
                lemma_over_stays(w, after, (n - 1) as nat);
            }
            lemma_next_complete(w, entry, st);
            lemma_run_complete(w, entry, after, (n - 1) as nat);
        }
    }
}

/// A finished build holds the entry file and every file that one of its
/// lists leads to. Each file that it holds is sound: it was read and
/// parsed, and none of its followed imports is broken. Under each file
/// the map lists what the world resolves its followed imports to, in source
/// order.
pub proof fn finished_build_is_exhaustive(w: World, entry: Seq<Seq<char>>, n: nat)
    requires
        build(w, entry, n).outcome == Ok::<RequestModel, CatsFault>(RequestModel::Finished),
    ensures
        ({
            let map = build(w, entry, n).map;
            &&& map.contains_key(entry)
            &&& forall|k: Seq<Seq<char>>, i: int|
                map.contains_key(k) && 0 <= i < map[k].len() ==> map.contains_key(
                    (#[trigger] map[k][i]).path,
                )
            &&& forall|k: Seq<Seq<char>>| #[trigger]
                map.contains_key(k) ==> sound(w, k) && map[k] == listing(w, k)
        }),
{
    let start = begin(Map::empty(), entry);
    lemma_settle(seq![entry], Map::empty());
    lemma_settle_coherent(seq![entry], Map::empty());
    assert(seq![entry][0] == entry);
    lemma_settle_known(seq![entry], Map::empty(), entry);
    lemma_run_complete(w, entry, start, n);
    let end = build(w, entry, n);
    assert(end.state == idle());
    assert forall|k: Seq<Seq<char>>, i: int|
        end.map.contains_key(k) && 0 <= i < end.map[k].len() implies end.map.contains_key(
        (#[trigger] end.map[k][i]).path,
    ) by {
        assert(known(end, end.map[k][i].path));
    }
}

/// A list of `a` leads to `b`.
pub open spec fn leads_to(w: World, a: Seq<Seq<char>>, b: Seq<Seq<char>>) -> bool {
    exists|i: int| 0 <= i < listing(w, a).len() && (#[trigger] listing(w, a)[i]).path == b
}

/// In `chain`, the file at place `i` leads to the next.
pub open spec fn linked(w: World, chain: Seq<Seq<Seq<char>>>, i: int) -> bool {
    leads_to(w, chain[i], chain[i + 1])
}

/// Each file of `chain` leads to the next.
pub open spec fn is_import_chain(w: World, chain: Seq<Seq<Seq<char>>>) -> bool {
    forall|i: int| 0 <= i < chain.len() - 1 ==> #[trigger] linked(w, chain, i)
}

/// Imports lead from the entry file to `p`: through a chain of files that
/// starts with the entry file and ends with `p`.
pub open spec fn reachable(w: World, entry: Seq<Seq<char>>, p: Seq<Seq<char>>) -> bool {
    exists|chain: Seq<Seq<Seq<char>>>|
        #[trigger] is_import_chain(w, chain) && chain.len() > 0 && chain[0] == entry
            && chain.last() == p
}

/// The traversal knows of nothing but what imports lead to from the entry.
pub open spec fn rooted(w: World, entry: Seq<Seq<char>>, st: Step) -> bool {
    forall|p: Seq<Seq<char>>| #[trigger] known(st, p) ==> reachable(w, entry, p)
}

proof fn lemma_reachable_step(
    w: World,
    entry: Seq<Seq<char>>,
    q: Seq<Seq<char>>,
    p: Seq<Seq<char>>,
)
    requires
        reachable(w, entry, q),
        leads_to(w, q, p),
    ensures
        reachable(w, entry, p),
{
    let chain = choose|chain: Seq<Seq<Seq<char>>>|
        #[trigger] is_import_chain(w, chain) && chain.len() > 0 && chain[0] == entry
            && chain.last() == q;
    let longer = chain.push(p);
    assert forall|i: int| 0 <= i < longer.len() - 1 implies #[trigger] linked(w, longer, i) by {
        if i < chain.len() - 1 {
            assert(linked(w, chain, i));
        }
    }
    assert(is_import_chain(w, longer) && longer[0] == entry && longer.last() == p);
}

/// Picking the next file adds none: whatever is known afterwards was in the
/// map or pending.
proof fn lemma_settle_adds_none(
    pending: Seq<Seq<Seq<char>>>,
    map: Map<Seq<Seq<char>>, Seq<ResolvedModel>>,
    p: Seq<Seq<char>>,
)
    requires
        known(settle(pending, map), p),
    ensures
        map.contains_key(p) || pending.contains(p),
    decreases pending.len(),
{
    lemma_settle(pending, map);
    if pending.len() > 0 {
        let rest = pending.drop_last();
        assert(pending[pending.len() - 1] == pending.last());
        if map.contains_key(pending.last()) {
            lemma_settle_adds_none(rest, map, p);
        }
        if rest.contains(p) {
            let i = choose|i: int| 0 <= i < rest.len() && rest[i] == p;
            assert(pending[i] == p);
        }
    }
}

/// Going on with a visit adds nothing but what the file being visited
/// leads to.
proof fn lemma_pursue_rooted(
    w: World,
    entry: Seq<Seq<char>>,
    pre: Step,
    imports: Seq<ImportModel>,
    resolved: Seq<ResolvedModel>,
)
    requires
        pre.state.phase != Phase::Idle,
        rooted(w, entry, pre),
        imports == followed_imports(w, pre.state.file),
        resolved.len() <= imports.len(),
        resolved == listing(w, pre.state.file).take(resolved.len() as int),
    ensures
        rooted(
            w,
            entry,
            pursue(
                pre.state.pending,
                pre.state.file,
                pre.state.file.drop_last(),
                imports,
                resolved,
                pre.map,
            ),
        ),
{
    let pending = pre.state.pending;
    let file = pre.state.file;
    let map = pre.map;
    let after = pursue(pending, file, file.drop_last(), imports, resolved, map);
    assert(known(pre, file));
    if resolved.len() < imports.len() {
        assert forall|p: Seq<Seq<char>>| #[trigger] known(after, p) implies reachable(
            w,
            entry,
            p,
        ) by {
            assert(known(pre, p));
        }
    } else {
        let found = targets(resolved).reverse();
        let pending2 = pending + found;
        let map2 = map.insert(file, resolved);
        assert(resolved =~= listing(w, file));
        assert forall|p: Seq<Seq<char>>| #[trigger] known(after, p) implies reachable(
            w,
            entry,
            p,
        ) by {
            lemma_settle_adds_none(pending2, map2, p);
            if map2.contains_key(p) {
                assert(known(pre, p));
            } else {
                let j = choose|j: int| 0 <= j < pending2.len() && pending2[j] == p;
                if j < pending.len() {
                    assert(pending[j] == p);
                    assert(known(pre, p));
                } else {
                    let i = resolved.len() - 1 - (j - pending.len());
                    assert(found[j - pending.len()] == resolved[i].path);
                    assert(listing(w, file)[i].path == p);
                    lemma_reachable_step(w, entry, file, p);
                }
            }
        }
    }
}

/// A step that does not fail adds nothing but what imports lead to.
proof fn lemma_next_rooted(w: World, entry: Seq<Seq<char>>, st: Step)
    requires
        complete(w, entry, st),
        rooted(w, entry, st),
        !is_over(st),
        next(w, st).outcome is Ok,
    ensures
        rooted(w, entry, next(w, st)),
{
    let s = st.state;
    let reply = answer(w, st.outcome->Ok_0);
    let after = next(w, st);
    lemma_next(w, st);
    match (s.phase, reply) {
        (Phase::Reading, ReplyModel::Source(text)) => {
            match analysis(text) {
                Ok(descriptors) => {
                    if s.file.len() > 0 {
                        let imports = relative_imports(descriptors);
                        assert(Seq::<ResolvedModel>::empty() =~= listing(w, s.file).take(0));
                        lemma_pursue_rooted(w, entry, st, imports, Seq::empty());
                    }
                },
                Err(_) => {},
            }
        },
        (Phase::Probing, ReplyModel::Directory(is_dir)) => {
            assert forall|p: Seq<Seq<char>>| #[trigger] known(after, p) implies reachable(
                w,
                entry,
                p,
            ) by {
                assert(known(st, p));
            }
        },
        (Phase::Locating, ReplyModel::Canonical(text)) => {
            if is_canonical_text(text) {
                let i = s.resolved.len() as int;
                let resolved = s.resolved.push(
                    ResolvedModel { descriptor: s.imports[i], path: components_of(text) },
                );
                assert(listing(w, s.file)[i] == resolution(w, s.file, s.imports[i]));
                assert(resolved =~= listing(w, s.file).take(i + 1));
                lemma_pursue_rooted(w, entry, st, s.imports, resolved);
            }
        },
        _ => {},
    }
}

/// A run that has not failed knows of nothing but what imports lead to.
proof fn lemma_run_rooted(w: World, entry: Seq<Seq<char>>, st: Step, n: nat)
    requires
        complete(w, entry, st),
        rooted(w, entry, st),
        run(w, st, n).outcome is Ok,
    ensures
        rooted(w, entry, run(w, st, n)),
    decreases n,
{
    if n > 0 {
        let after = next(w, st);
        if is_over(st) {
            lemma_over_stays(w, st, n);
        } else {
            if after.outcome is Err {
                lemma_over_stays(w, after, (n - 1) as nat);
            }
            lemma_next_complete(w, entry, st);
            lemma_next_rooted(w, entry, st);
            lemma_run_rooted(w, entry, after, (n - 1) as nat);
        }
    }
}

/// A finished build holds no file but those that imports lead to from the
/// entry file. As it also holds every file that its lists lead to, it holds
/// exactly the reachable files.
pub proof fn finished_build_holds_reachable_files_only(
    w: World,
    entry: Seq<Seq<char>>,
    n: nat,
)
    requires
        build(w, entry, n).outcome == Ok::<RequestModel, CatsFault>(RequestModel::Finished),
    ensures
        forall|k: Seq<Seq<char>>| #[trigger]
            build(w, entry, n).map.contains_key(k) ==> reachable(w, entry, k),
{
    let start = begin(Map::empty(), entry);
    lemma_settle(seq![entry], Map::empty());
    lemma_settle_coherent(seq![entry], Map::empty());
    assert(seq![entry][0] == entry);
    lemma_settle_known(seq![entry], Map::empty(), entry);
    assert forall|p: Seq<Seq<char>>| #[trigger] known(start, p) implies reachable(
        w,
        entry,
        p,
    ) by {
        lemma_settle_adds_none(seq![entry], Map::empty(), p);
        assert(p == entry);
        let chain = seq![entry];
        assert(is_import_chain(w, chain) && chain[0] == entry && chain.last() == p);
    }
    lemma_run_rooted(w, entry, start, n);
    let end = build(w, entry, n);
    assert forall|k: Seq<Seq<char>>| #[trigger] end.map.contains_key(k) implies reachable(
        w,
        entry,
        k,
    ) by {
        assert(known(end, k));
    }
}

/// A finished build holds every file of every chain of imports that
/// starts at the entry file.
proof fn lemma_chain_in_map(
    w: World,
    map: Map<Seq<Seq<char>>, Seq<ResolvedModel>>,
    chain: Seq<Seq<Seq<char>>>,
    i: int,
)
    requires
        is_import_chain(w, chain),
        0 <= i < chain.len(),
        map.contains_key(chain[0]),
        faithful(w, map),
        forall|k: Seq<Seq<char>>, j: int|
            map.contains_key(k) && 0 <= j < map[k].len() ==> map.contains_key(
                (#[trigger] map[k][j]).path,
            ),
    ensures
        map.contains_key(chain[i]),
    decreases i,
{
    if i > 0 {
        lemma_chain_in_map(w, map, chain, i - 1);
        let from = chain[i - 1];
        assert(linked(w, chain, i - 1));
        let j = choose|j: int|
            0 <= j < listing(w, from).len() && (#[trigger] listing(w, from)[j]).path == chain[i];
        assert(map[from] == listing(w, from));
        assert(map.contains_key(map[from][j].path));
    }
}

/// A finished build holds every file that imports lead to from the entry
/// file.
pub proof fn finished_build_holds_every_reachable_file(
    w: World,
    entry: Seq<Seq<char>>,
    n: nat,
)
    requires
        build(w, entry, n).outcome == Ok::<RequestModel, CatsFault>(RequestModel::Finished),
    ensures
        forall|p: Seq<Seq<char>>| #[trigger]
            reachable(w, entry, p) ==> build(w, entry, n).map.contains_key(p),
{
    finished_build_is_exhaustive(w, entry, n);
    let map = build(w, entry, n).map;
    assert forall|p: Seq<Seq<char>>| #[trigger] reachable(w, entry, p) implies map.contains_key(
        p,
    ) by {
        let chain = choose|chain: Seq<Seq<Seq<char>>>|
            #[trigger] is_import_chain(w, chain) && chain.len() > 0 && chain[0] == entry
                && chain.last() == p;
        lemma_chain_in_map(w, map, chain, chain.len() - 1);
    }
}

/// Where every file that the traversal knows of is sound, the next step
/// does not fail.
proof fn lemma_next_succeeds(w: World, entry: Seq<Seq<char>>, st: Step)
    requires
        complete(w, entry, st),
        rooted(w, entry, st),
        !is_over(st),
        forall|p: Seq<Seq<char>>| #[trigger] reachable(w, entry, p) ==> sound(w, p),
    ensures
        next(w, st).outcome is Ok,
{
    let s = st.state;
    lemma_next(w, st);
    assert(known(st, s.file));
    assert(sound(w, s.file));
    match (s.phase, answer(w, st.outcome->Ok_0)) {
        (Phase::Reading, ReplyModel::Source(text)) => {
            lemma_pursue(
                s.pending,
                s.file,
                s.file.drop_last(),
                relative_imports(analysis(text)->Ok_0),
                Seq::empty(),
                st.map,
            );
        },
        (Phase::Locating, _) => {
            let i = s.resolved.len() as int;
            assert(resolves(w, s.file, followed_imports(w, s.file)[i]));
            let text = w.canonical[s.pursuit];
            lemma_pursue(
                s.pending,
                s.file,
                s.parent,
                s.imports,
                s.resolved.push(
                    ResolvedModel { descriptor: s.imports[i], path: components_of(text) },
                ),
                st.map,
            );
        },
        _ => {},
    }
}

/// Where every reachable file is sound, no run fails.
proof fn lemma_run_succeeds(w: World, entry: Seq<Seq<char>>, st: Step, n: nat)
    requires
        complete(w, entry, st),
        rooted(w, entry, st),
        st.outcome is Ok,
        forall|p: Seq<Seq<char>>| #[trigger] reachable(w, entry, p) ==> sound(w, p),
    ensures
        run(w, st, n).outcome is Ok,
    decreases n,
{
    if n > 0 {
        if is_over(st) {
            lemma_over_stays(w, st, n);
        } else {
            lemma_next_succeeds(w, entry, st);
            lemma_next_complete(w, entry, st);
            lemma_next_rooted(w, entry, st);
            lemma_run_succeeds(w, entry, next(w, st), (n - 1) as nat);
        }
    }
}

/// The start of a build: the entry file is known, and nothing else.
proof fn lemma_begin(w: World, entry: Seq<Seq<char>>)
    ensures
        complete(w, entry, begin(Map::empty(), entry)),
        rooted(w, entry, begin(Map::empty(), entry)),
        begin(Map::empty(), entry).outcome is Ok,
{
    let start = begin(Map::empty(), entry);
    lemma_settle(seq![entry], Map::empty());
    lemma_settle_coherent(seq![entry], Map::empty());
    assert(seq![entry][0] == entry);
    lemma_settle_known(seq![entry], Map::empty(), entry);
    assert forall|p: Seq<Seq<char>>| #[trigger] known(start, p) implies reachable(
        w,
        entry,
        p,
    ) by {
        lemma_settle_adds_none(seq![entry], Map::empty(), p);
        assert(p == entry);
        let chain = seq![entry];
        assert(is_import_chain(w, chain) && chain[0] == entry && chain.last() == p);
    }
}

/// Where the world holds finitely many files and every file that imports
/// lead to from the entry file is sound, the build finishes: no file is
/// left unread, and no error ends it.
pub proof fn build_of_sound_files_finishes(w: World, entry: Seq<Seq<char>>)
    requires
        w.sources.dom().finite(),
        forall|p: Seq<Seq<char>>| #[trigger] reachable(w, entry, p) ==> sound(w, p),
    ensures
        exists|n: nat|
            build(w, entry, n).outcome == Ok::<RequestModel, CatsFault>(RequestModel::Finished),
{
    build_terminates(w, entry);
    let n = choose|n: nat| is_over(build(w, entry, n));
    lemma_begin(w, entry);
    lemma_run_succeeds(w, entry, begin(Map::empty(), entry), n);
    assert(build(w, entry, n).outcome == Ok::<RequestModel, CatsFault>(RequestModel::Finished));
}

/// What the choice of imports keeps is a value import of a relative
/// specifier.
proof fn lemma_relative_imports(ds: Seq<ImportModel>, i: int)
    requires
        0 <= i < relative_imports(ds).len(),
    ensures
        is_relative_import(relative_imports(ds)[i]),
    decreases ds.len(),
{
    if ds.len() > 0 {
        let rest = relative_imports(ds.drop_last());
        if i < rest.len() {
            lemma_relative_imports(ds.drop_last(), i);
        }
    }
}

/// The text `t` is the joined text of the followed import `d` of `file`.
pub open spec fn probes_import(t: Seq<char>, file: Seq<Seq<char>>, d: ImportModel) -> bool {
    is_relative_import(d) && t == joined(file, d)
}

/// The text `t` is what is looked up for the followed import `d` of `file`.
pub open spec fn locates_import(
    w: World,
    t: Seq<char>,
    file: Seq<Seq<char>>,
    d: ImportModel,
) -> bool {
    is_relative_import(d) && t == looked_up(w, file, d)
}

/// A request about a path text concerns a value import of a relative
/// specifier.
pub open spec fn asks_about_followed_import(w: World, r: RequestModel) -> bool {
    match r {
        RequestModel::Probe(t) => exists|file: Seq<Seq<char>>, d: ImportModel| #[trigger]
            probes_import(t, file, d),
        RequestModel::Canonicalize(t) => exists|file: Seq<Seq<char>>, d: ImportModel| #[trigger]
            locates_import(w, t, file, d),
        _ => true,
    }
}

proof fn lemma_requests_followed(w: World, entry: Seq<Seq<char>>, st: Step, n: nat)
    requires
        complete(w, entry, st),
    ensures
        forall|i: int|
            0 <= i < requests(w, st, n).len() ==> asks_about_followed_import(
                w,
                #[trigger] requests(w, st, n)[i],
            ),
    decreases n,
{
    if n == 0 || is_over(st) {
    } else {
        let s = st.state;
        let after = next(w, st);
        let rest = requests(w, after, (n - 1) as nat);
        let rs = requests(w, st, n);
        assert(rs == seq![st.outcome->Ok_0] + rest);
        if s.phase == Phase::Probing || s.phase == Phase::Locating {
            let d = s.imports[s.resolved.len() as int];
            lemma_relative_imports(analysis(w.sources[s.file])->Ok_0, s.resolved.len() as int);
            if s.phase == Phase::Probing {
                assert(probes_import(s.pursuit, s.file, d));
            } else {
                assert(locates_import(w, s.pursuit, s.file, d));
            }
        }
        assert(asks_about_followed_import(w, rs[0]));
        if after.outcome is Ok {
            lemma_next_complete(w, entry, st);
            lemma_requests_followed(w, entry, after, (n - 1) as nat);
        }
        assert forall|i: int| 0 <= i < rs.len() implies asks_about_followed_import(
            w,
            #[trigger] rs[i],
        ) by {
            if i > 0 {
                assert(rs[i] == rest[i - 1]);
            }
        }
    }
}

/// Whatever a build probes or looks up belongs to a value import of a
/// relative specifier. Bare specifiers, type imports, exports,
/// requires and import calls never reach the disk.
pub proof fn only_followed_imports_are_looked_up(w: World, entry: Seq<Seq<char>>, n: nat)
    ensures
        forall|i: int|
            0 <= i < requests(w, begin(Map::empty(), entry), n).len()
                ==> asks_about_followed_import(
                w,
                #[trigger] requests(w, begin(Map::empty(), entry), n)[i],
            ),
{
    lemma_settle(seq![entry], Map::empty());
    lemma_settle_coherent(seq![entry], Map::empty());
    assert(seq![entry][0] == entry);
    lemma_settle_known(seq![entry], Map::empty(), entry);
    lemma_requests_followed(w, entry, begin(Map::empty(), entry), n);
}

/// Every entry of every list of a finished build is a value import of a
/// relative specifier.
pub proof fn finished_lists_hold_followed_imports_only(w: World, entry: Seq<Seq<char>>, n: nat)
    requires
        build(w, entry, n).outcome == Ok::<RequestModel, CatsFault>(RequestModel::Finished),
    ensures
        forall|k: Seq<Seq<char>>, i: int|
            build(w, entry, n).map.contains_key(k) && 0 <= i < build(w, entry, n).map[k].len()
                ==> is_relative_import((#[trigger] build(w, entry, n).map[k][i]).descriptor),
{
    finished_build_is_exhaustive(w, entry, n);
    let map = build(w, entry, n).map;
    assert forall|k: Seq<Seq<char>>, i: int|
        map.contains_key(k) && 0 <= i < map[k].len() implies is_relative_import(
        (#[trigger] map[k][i]).descriptor,
    ) by {
        assert(map[k] == listing(w, k));
        lemma_relative_imports(analysis(w.sources[k])->Ok_0, i);
    }
}

} // verus!
