//! The dependency map: for each file, the files it imports.
//!
//! The map keeps its files in the order of their paths, each file once, so
//! that two maps with the same content list it in the same order.

use crate::canonical_path::CanonicalPath;
use crate::imports::{ImportDescriptor, ImportModel};
use crate::path_order::{
    path_order_is_irreflexive, path_order_is_total, path_order_is_transitive, path_precedes,
};
use vstd::prelude::*;

verus! {

/// An import together with the file that it resolved to.
#[derive(Debug, PartialEq, Eq)]
pub struct ResolvedDependency {
    pub descriptor: ImportDescriptor,
    pub path: CanonicalPath,
}

/// A [`ResolvedDependency`] as a value of the logic.
pub struct ResolvedModel {
    pub descriptor: ImportModel,
    pub path: Seq<Seq<char>>,
}

impl View for ResolvedDependency {
    type V = ResolvedModel;

    open spec fn view(&self) -> ResolvedModel {
        ResolvedModel { descriptor: self.descriptor@, path: self.path@ }
    }
}

impl Clone for ResolvedDependency {
    fn clone(&self) -> (r: ResolvedDependency)
        ensures
            r@ == self@,
    {
        ResolvedDependency { descriptor: self.descriptor.clone(), path: self.path.clone() }
    }
}

/// The models of a list of resolved dependencies.
pub open spec fn resolved_models(v: Seq<ResolvedDependency>) -> Seq<ResolvedModel> {
    Seq::new(v.len(), |i: int| v[i]@)
}

/// The files that a list of dependencies leads to, in its order.
pub open spec fn targets(deps: Seq<ResolvedModel>) -> Seq<Seq<Seq<char>>> {
    Seq::new(deps.len(), |i: int| deps[i].path)
}

/// Each path comes strictly before the next.
pub open spec fn strictly_ascending(keys: Seq<Seq<Seq<char>>>) -> bool {
    forall|i: int, j: int| 0 <= i < j < keys.len() ==> path_precedes(keys[i], keys[j])
}

/// The place of `key` in `keys`.
pub open spec fn position(keys: Seq<Seq<Seq<char>>>, key: Seq<Seq<char>>) -> int {
    choose|i: int| 0 <= i < keys.len() && keys[i] == key
}

/// The map that lists `lists[i]` under `keys[i]`.
pub open spec fn map_of(keys: Seq<Seq<Seq<char>>>, lists: Seq<Seq<ResolvedModel>>) -> Map<
    Seq<Seq<char>>,
    Seq<ResolvedModel>,
> {
    Map::new(
        |k: Seq<Seq<char>>| exists|i: int| 0 <= i < keys.len() && keys[i] == k,
        |k: Seq<Seq<char>>| lists[position(keys, k)],
    )
}

/// In an ascending list each path has one place.
proof fn lemma_position(keys: Seq<Seq<Seq<char>>>, i: int)
    requires
        strictly_ascending(keys),
        0 <= i < keys.len(),
    ensures
        position(keys, keys[i]) == i,
{
    let j = position(keys, keys[i]);
    path_order_is_irreflexive(keys[i]);
    if j < i {
        assert(path_precedes(keys[j], keys[i]));
    } else if i < j {
        assert(path_precedes(keys[i], keys[j]));
    }
}

/// Two ascending lists of the same paths are the same list.
proof fn lemma_ascending_unique(a: Seq<Seq<Seq<char>>>, b: Seq<Seq<Seq<char>>>)
    requires
        strictly_ascending(a),
        strictly_ascending(b),
        forall|k: Seq<Seq<char>>| a.contains(k) <==> b.contains(k),
    ensures
        a == b,
    decreases a.len(),
{
    if a.len() == 0 {
        if b.len() > 0 {
            assert(b.contains(b[0]));
        }
        assert(a =~= b);
    } else {
        assert(a.contains(a[0]));
        let j = choose|j: int| 0 <= j < b.len() && b[j] == a[0];
        assert(b.contains(b[0]));
        let i = choose|i: int| 0 <= i < a.len() && a[i] == b[0];
        path_order_is_irreflexive(a[0]);
        if j > 0 {
            assert(path_precedes(b[0], b[j]));
            if i > 0 {
                assert(path_precedes(a[0], a[i]));
                path_order_is_transitive(a[0], b[0], a[0]);
            }
        }
        assert(a[0] == b[0]);
        let ta = a.skip(1);
        let tb = b.skip(1);
        assert forall|k: Seq<Seq<char>>| ta.contains(k) <==> tb.contains(k) by {
            if ta.contains(k) {
                let x = choose|x: int| 0 <= x < ta.len() && ta[x] == k;
                assert(a[x + 1] == k);
                assert(a.contains(k));
                let y = choose|y: int| 0 <= y < b.len() && b[y] == k;
                assert(path_precedes(a[0], a[x + 1]));
                assert(y != 0);
                assert(tb[y - 1] == k);
            }
            if tb.contains(k) {
                let y = choose|y: int| 0 <= y < tb.len() && tb[y] == k;
                assert(b[y + 1] == k);
                assert(b.contains(k));
                let x = choose|x: int| 0 <= x < a.len() && a[x] == k;
                assert(path_precedes(b[0], b[y + 1]));
                assert(x != 0);
                assert(ta[x - 1] == k);
            }
        }
        assert forall|x: int, y: int| 0 <= x < y < ta.len() implies path_precedes(
            ta[x],
            ta[y],
        ) by {
            assert(path_precedes(a[x + 1], a[y + 1]));
        }
        assert forall|x: int, y: int| 0 <= x < y < tb.len() implies path_precedes(
            tb[x],
            tb[y],
        ) by {
            assert(path_precedes(b[x + 1], b[y + 1]));
        }
        lemma_ascending_unique(ta, tb);
        assert(a =~= seq![a[0]] + ta);
        assert(b =~= seq![b[0]] + tb);
    }
}

/// Same content, same listing: two ascending layouts of one map list the
/// same files with the same dependencies at the same places.
pub proof fn same_content_same_listing(
    keys_a: Seq<Seq<Seq<char>>>,
    lists_a: Seq<Seq<ResolvedModel>>,
    keys_b: Seq<Seq<Seq<char>>>,
    lists_b: Seq<Seq<ResolvedModel>>,
)
    requires
        strictly_ascending(keys_a),
        strictly_ascending(keys_b),
        keys_a.len() == lists_a.len(),
        keys_b.len() == lists_b.len(),
        map_of(keys_a, lists_a) == map_of(keys_b, lists_b),
    ensures
        keys_a == keys_b,
        lists_a == lists_b,
{
    let ma = map_of(keys_a, lists_a);
    let mb = map_of(keys_b, lists_b);
    assert forall|k: Seq<Seq<char>>| keys_a.contains(k) <==> keys_b.contains(k) by {
        if keys_a.contains(k) {
            let i = choose|i: int| 0 <= i < keys_a.len() && keys_a[i] == k;
            assert(ma.contains_key(k));
            assert(mb.contains_key(k));
            let j = choose|j: int| 0 <= j < keys_b.len() && keys_b[j] == k;
            assert(keys_b[j] == k);
        }
        if keys_b.contains(k) {
            let j = choose|j: int| 0 <= j < keys_b.len() && keys_b[j] == k;
            assert(mb.contains_key(k));
            assert(ma.contains_key(k));
            let i = choose|i: int| 0 <= i < keys_a.len() && keys_a[i] == k;
            assert(keys_a[i] == k);
        }
    }
    lemma_ascending_unique(keys_a, keys_b);
    assert forall|i: int| 0 <= i < lists_a.len() implies lists_a[i] == lists_b[i] by {
        lemma_position(keys_a, i);
        lemma_position(keys_b, i);
        assert(ma.contains_key(keys_a[i]));
        assert(ma[keys_a[i]] == lists_a[i]);
        assert(mb[keys_b[i]] == lists_b[i]);
    }
    assert(lists_a =~= lists_b);
}

/// A file with its dependency list.
#[derive(Debug, PartialEq, Eq)]
struct Entry {
    file: CanonicalPath,
    dependencies: Vec<ResolvedDependency>,
}

/// For each file the imports that the graph follows, in source order, each
/// with the file it resolved to. The files ascend in the order of paths.
#[derive(Debug, PartialEq, Eq)]
pub struct DependencyMap {
    entries: Vec<Entry>,
}

spec fn entry_keys(entries: Seq<Entry>) -> Seq<Seq<Seq<char>>> {
    Seq::new(entries.len(), |i: int| entries[i].file@)
}

spec fn entry_lists(entries: Seq<Entry>) -> Seq<Seq<ResolvedModel>> {
    Seq::new(entries.len(), |i: int| resolved_models(entries[i].dependencies@))
}

impl View for DependencyMap {
    type V = Map<Seq<Seq<char>>, Seq<ResolvedModel>>;

    closed spec fn view(&self) -> Map<Seq<Seq<char>>, Seq<ResolvedModel>> {
        map_of(self.keys(), self.lists())
    }
}

impl DependencyMap {
    /// The files of the map, in their order.
    pub closed spec fn keys(&self) -> Seq<Seq<Seq<char>>> {
        entry_keys(self.entries@)
    }

    /// The dependency lists of the map, in the order of its files.
    pub closed spec fn lists(&self) -> Seq<Seq<ResolvedModel>> {
        entry_lists(self.entries@)
    }

    #[verifier::type_invariant]
    spec fn well_formed(self) -> bool {
        strictly_ascending(entry_keys(self.entries@))
    }

    /// The empty map.
    pub fn new() -> (r: DependencyMap)
        ensures
            r@ == Map::<Seq<Seq<char>>, Seq<ResolvedModel>>::empty(),
            r.keys().len() == 0,
    {
        let r = DependencyMap { entries: Vec::new() };
        proof {
            assert(r@ =~= Map::<Seq<Seq<char>>, Seq<ResolvedModel>>::empty());
        }
        r
    }

    /// The number of files. The files ascend, and the map holds exactly them.
    pub fn len(&self) -> (n: usize)
        ensures
            n == self.keys().len(),
            n == self.lists().len(),
            strictly_ascending(self.keys()),
            self@ == map_of(self.keys(), self.lists()),
            forall|k: Seq<Seq<char>>| self@.contains_key(k) <==> self.keys().contains(k),
    {
        proof {
            use_type_invariant(self);
            assert forall|k: Seq<Seq<char>>| self@.contains_key(k) <==> self.keys().contains(
                k,
            ) by {
                if self@.contains_key(k) {
                    let i = choose|i: int| 0 <= i < self.keys().len() && self.keys()[i] == k;
                    assert(self.keys()[i] == k);
                }
                if self.keys().contains(k) {
                    let i = choose|i: int| 0 <= i < self.keys().len() && self.keys()[i] == k;
                    assert(self.keys()[i] == k);
                }
            }
        }
        self.entries.len()
    }

    /// The file at place `i`.
    pub fn file(&self, i: usize) -> (r: &CanonicalPath)
        requires
            i < self.keys().len(),
        ensures
            r@ == self.keys()[i as int],
            self@.contains_key(r@),
    {
        proof {
            use_type_invariant(self);
            lemma_position(self.keys(), i as int);
        }
        &self.entries[i].file
    }

    /// The dependencies of the file at place `i`.
    pub fn dependencies(&self, i: usize) -> (r: &Vec<ResolvedDependency>)
        requires
            i < self.keys().len(),
        ensures
            resolved_models(r@) == self.lists()[i as int],
            self@.contains_key(self.keys()[i as int]),
            resolved_models(r@) == self@[self.keys()[i as int]],
    {
        proof {
            use_type_invariant(self);
            lemma_position(self.keys(), i as int);
        }
        &self.entries[i].dependencies
    }

    /// The place of `file`, if the map holds it.
    pub fn find(&self, file: &CanonicalPath) -> (r: Option<usize>)
        ensures
            match r {
                Some(i) => i < self.keys().len() && self.keys()[i as int] == file@
                    && self@.contains_key(file@) && self@[file@] == self.lists()[i as int],
                None => !self@.contains_key(file@),
            },
    {
        proof {
            use_type_invariant(self);
        }
        let n = self.entries.len();
        let mut i: usize = 0;
        while i < n
            invariant
                i <= n,
                n == self.entries.len(),
                strictly_ascending(self.keys()),
                forall|j: int| 0 <= j < i ==> self.keys()[j] != file@,
            decreases n - i,
        {
            if self.entries[i].file.equals(file) {
                proof {
                    lemma_position(self.keys(), i as int);
                }
                return Some(i);
            }
            i += 1;
        }
        None
    }

    /// Whether the map holds `file`.
    pub fn contains_key(&self, file: &CanonicalPath) -> (r: bool)
        ensures
            r == self@.contains_key(file@),
    {
        self.find(file).is_some()
    }

    /// The dependencies listed under `file`, if the map holds it.
    pub fn get(&self, file: &CanonicalPath) -> (r: Option<&Vec<ResolvedDependency>>)
        ensures
            r is Some <==> self@.contains_key(file@),
            r matches Some(deps) ==> resolved_models(deps@) == self@[file@],
    {
        match self.find(file) {
            Some(i) => Some(&self.entries[i].dependencies),
            None => None,
        }
    }

    /// Lists `dependencies` under `file`, in place of what the map listed
    /// under it before. Every other file keeps its list.
    pub fn insert(&mut self, file: CanonicalPath, dependencies: Vec<ResolvedDependency>)
        ensures
            final(self)@ == old(self)@.insert(file@, resolved_models(dependencies@)),
    {
        proof {
            use_type_invariant(&*self);
        }
        let ghost old_keys = self.keys();
        let ghost old_lists = self.lists();
        let ghost key = file@;
        let ghost list = resolved_models(dependencies@);
        let n = self.entries.len();
        let mut p: usize = 0;
        while p < n && self.entries[p].file.precedes(&file)
            invariant
                p <= n,
                n == self.entries.len(),
                old_keys == self.keys(),
                forall|j: int| 0 <= j < p ==> path_precedes(old_keys[j], file@),
            decreases n - p,
        {
            p += 1;
        }
        let replace = p < n && self.entries[p].file.equals(&file);
        let mut entries: Vec<Entry> = Vec::new();
        core::mem::swap(&mut self.entries, &mut entries);
        if replace {
            entries.set(p, Entry { file, dependencies });
        } else {
            entries.insert(p, Entry { file, dependencies });
        }
        let ghost new_keys = entry_keys(entries@);
        let ghost new_lists = entry_lists(entries@);
        proof {
            if replace {
                assert(new_keys =~= old_keys);
                assert(new_lists =~= old_lists.update(p as int, list));
            } else {
                assert(new_keys =~= old_keys.insert(p as int, key));
                assert(new_lists =~= old_lists.insert(p as int, list));
                assert forall|j: int| p <= j < old_keys.len() implies path_precedes(
                    key,
                    old_keys[j],
                ) by {
                    path_order_is_total(old_keys[p as int], key);
                    if p < j {
                        assert(path_precedes(old_keys[p as int], old_keys[j]));
                        path_order_is_transitive(key, old_keys[p as int], old_keys[j]);
                    }
                }
                assert forall|i: int, j: int| 0 <= i < j < new_keys.len() implies path_precedes(
                    new_keys[i],
                    new_keys[j],
                ) by {
                    if j < p {
                        assert(path_precedes(old_keys[i], old_keys[j]));
                    } else if j == p {
                    } else if i < p {
                        assert(path_precedes(old_keys[i], old_keys[j - 1]));
                    } else if i == p {
                    } else {
                        assert(path_precedes(old_keys[i - 1], old_keys[j - 1]));
                    }
                }
            }
            assert(strictly_ascending(new_keys));
            let before = map_of(old_keys, old_lists);
            let after = map_of(new_keys, new_lists);
            assert forall|k: Seq<Seq<char>>| after.contains_key(k) <==> (k == key
                || before.contains_key(k)) by {
                if after.contains_key(k) {
                    let i = choose|i: int| 0 <= i < new_keys.len() && new_keys[i] == k;
                    if !replace && i != p {
                        let o = if i < p { i } else { i - 1 };
                        assert(old_keys[o] == k);
                    }
                }
                if k == key {
                    assert(new_keys[p as int] == k);
                }
                if before.contains_key(k) {
                    let o = choose|o: int| 0 <= o < old_keys.len() && old_keys[o] == k;
                    let i = if replace || o < p { o } else { o + 1 };
                    assert(new_keys[i] == k);
                }
            }
            assert forall|k: Seq<Seq<char>>| after.contains_key(k) implies after[k]
                == before.insert(key, list)[k] by {
                let i = position(new_keys, k);
                lemma_position(new_keys, i);
                if k == key {
                    lemma_position(new_keys, p as int);
                } else {
                    let o = if replace || i < p { i } else { i - 1 };
                    assert(old_keys[o] == k);
                    lemma_position(old_keys, o);
                }
            }
            assert(after =~= before.insert(key, list));
        }
        self.entries = entries;
    }
}

} // verus!
