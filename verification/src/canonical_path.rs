//! Canonical paths: absolute, free of `.` and `..`, one form per file.
//!
//! A [`CanonicalPath`] is the list of names that lead from the root to a
//! directory entry. Whether such an entry exists is for the caller to find
//! out; the library takes the canonical text from it and keeps the form.

use crate::path_text::{
    candidate, candidate_text, is_name, is_name_text, join, join_text, lemma_split_nonempty, split,
};
use crate::path_order::{lemma_path_common_start, name_before, path_precedes};
use vstd::prelude::*;

verus! {

/// The character sequences of a list of strings.
pub open spec fn names(v: Seq<String>) -> Seq<Seq<char>> {
    Seq::new(v.len(), |i: int| v[i]@)
}

/// Every component names a directory entry.
pub open spec fn is_path(p: Seq<Seq<char>>) -> bool {
    forall|i: int| 0 <= i < p.len() ==> is_name(#[trigger] p[i])
}

/// Each component of `p` behind a separator.
pub open spec fn render(p: Seq<Seq<char>>) -> Seq<char>
    decreases p.len(),
{
    if p.len() == 0 {
        Seq::<char>::empty()
    } else {
        render(p.drop_last()).push('/') + p.last()
    }
}

/// The text of the absolute path with the components `p`; the root is `/`.
pub open spec fn text_of(p: Seq<Seq<char>>) -> Seq<char> {
    if p.len() == 0 {
        seq!['/']
    } else {
        render(p)
    }
}

/// The components of `p` with a separator between each two.
pub open spec fn relative_text(p: Seq<Seq<char>>) -> Seq<char>
    decreases p.len(),
{
    if p.len() == 0 {
        Seq::<char>::empty()
    } else if p.len() == 1 {
        p[0]
    } else {
        relative_text(p.drop_last()).push('/') + p.last()
    }
}

/// A text is canonical where it is `/`, or starts with a separator that
/// names follow, one separator between each two.
pub open spec fn is_canonical_text(t: Seq<char>) -> bool {
    &&& t.len() >= 1
    &&& t[0] == '/'
    &&& t.len() > 1 ==> is_path(split(t.skip(1)))
}

/// The components that a canonical text lists.
pub open spec fn components_of(t: Seq<char>) -> Seq<Seq<char>> {
    if t.len() <= 1 {
        Seq::<Seq<char>>::empty()
    } else {
        split(t.skip(1))
    }
}

/// `a` leads to `b`: the components of `a` are the first of `b`.
pub open spec fn is_ancestor(a: Seq<Seq<char>>, b: Seq<Seq<char>>) -> bool {
    a.len() <= b.len() && b.take(a.len() as int) == a
}

proof fn lemma_is_path_push(p: Seq<Seq<char>>, x: Seq<char>)
    ensures
        is_path(p.push(x)) <==> is_path(p) && is_name(x),
{
    let q = p.push(x);
    if is_path(q) {
        assert forall|i: int| 0 <= i < p.len() implies is_name(#[trigger] p[i]) by {
            assert(q[i] == p[i]);
        }
        assert(q[p.len() as int] == x);
    }
    if is_path(p) && is_name(x) {
        assert forall|i: int| 0 <= i < q.len() implies is_name(#[trigger] q[i]) by {
            if i < p.len() {
                assert(q[i] == p[i]);
            }
        }
    }
}

/// A text without a separator is its own single segment.
proof fn lemma_split_name(name: Seq<char>)
    requires
        forall|i: int| 0 <= i < name.len() ==> name[i] != '/',
    ensures
        split(name) == seq![name],
    decreases name.len(),
{
    if name.len() == 0 {
        assert(name =~= Seq::<char>::empty());
    } else {
        lemma_split_name(name.drop_last());
        let head = split(name.drop_last());
        assert(name.drop_last().push(name.last()) =~= name);
        assert(head.drop_last().push(head.last().push(name.last())) =~= seq![name]);
    }
}

/// A name behind a separator is one more segment.
proof fn lemma_split_append(x: Seq<char>, name: Seq<char>)
    requires
        forall|i: int| 0 <= i < name.len() ==> name[i] != '/',
    ensures
        split(x.push('/') + name) == split(x).push(name),
    decreases name.len(),
{
    let t = x.push('/') + name;
    if name.len() == 0 {
        assert(t =~= x.push('/'));
        assert(t.drop_last() =~= x);
        assert(name =~= Seq::<char>::empty());
    } else {
        let shorter = name.drop_last();
        lemma_split_append(x, shorter);
        assert(t.drop_last() =~= x.push('/') + shorter);
        assert(t.last() == name.last());
        let head = split(t.drop_last());
        assert(head.drop_last() =~= split(x));
        assert(head.last().push(name.last()) =~= name);
    }
}

/// The text of a path that is not the root is a separator before its
/// components with a separator between each two.
proof fn lemma_render(p: Seq<Seq<char>>)
    requires
        p.len() > 0,
    ensures
        render(p) == seq!['/'] + relative_text(p),
    decreases p.len(),
{
    if p.len() == 1 {
        assert(render(p.drop_last()) =~= Seq::<char>::empty());
        assert(render(p) =~= seq!['/'] + p[0]);
    } else {
        lemma_render(p.drop_last());
        assert(render(p) =~= seq!['/'] + (relative_text(p.drop_last()).push('/') + p.last()));
    }
}

/// The segments of the names of a path, separated, are those names.
proof fn lemma_split_relative_text(p: Seq<Seq<char>>)
    requires
        p.len() > 0,
        is_path(p),
    ensures
        split(relative_text(p)) == p,
        relative_text(p).len() > 0,
    decreases p.len(),
{
    assert(is_name(p.last()));
    if p.len() == 1 {
        assert(is_name(p[0]));
        lemma_split_name(p[0]);
        assert(seq![p[0]] =~= p);
    } else {
        let front = p.drop_last();
        assert forall|i: int| 0 <= i < front.len() implies is_name(#[trigger] front[i]) by {
            assert(front[i] == p[i]);
        }
        lemma_split_relative_text(front);
        lemma_split_append(relative_text(front), p.last());
        assert(front.push(p.last()) =~= p);
    }
}

/// The segments of any text, each behind a separator, are a separator
/// before that text.
proof fn lemma_render_split(body: Seq<char>)
    ensures
        render(split(body)) == seq!['/'] + body,
    decreases body.len(),
{
    lemma_split_nonempty(body);
    if body.len() == 0 {
        let only = seq![Seq::<char>::empty()];
        assert(render(only.drop_last()) =~= Seq::<char>::empty());
        assert(render(only) =~= seq!['/'] + body);
    } else {
        let init = body.drop_last();
        let c = body.last();
        lemma_render_split(init);
        lemma_split_nonempty(init);
        let head = split(init);
        assert(seq!['/'] + body =~= (seq!['/'] + init).push(c));
        if c == '/' {
            let all = head.push(Seq::<char>::empty());
            assert(all.drop_last() =~= head);
            assert(render(all) =~= render(head).push('/'));
        } else {
            let all = head.drop_last().push(head.last().push(c));
            assert(all.drop_last() =~= head.drop_last());
            assert(render(all) =~= (render(head.drop_last()).push('/') + head.last()).push(c));
        }
    }
}

/// The text of a path is canonical and spells that path.
pub proof fn path_text_round_trip(p: Seq<Seq<char>>)
    requires
        is_path(p),
    ensures
        is_canonical_text(text_of(p)),
        components_of(text_of(p)) == p,
{
    if p.len() == 0 {
        assert(p =~= Seq::<Seq<char>>::empty());
    } else {
        lemma_render(p);
        lemma_split_relative_text(p);
        assert(text_of(p).skip(1) =~= relative_text(p));
    }
}

/// The path that a canonical text spells has that text.
pub proof fn canonical_text_round_trip(t: Seq<char>)
    requires
        is_canonical_text(t),
    ensures
        is_path(components_of(t)),
        text_of(components_of(t)) == t,
{
    if t.len() == 1 {
        assert(t =~= seq!['/']);
    } else {
        lemma_render_split(t.skip(1));
        lemma_split_nonempty(t.skip(1));
        assert(seq!['/'] + t.skip(1) =~= t);
    }
}

/// Two paths with the same text are the same path.
pub proof fn equal_texts_equal_paths(p: Seq<Seq<char>>, q: Seq<Seq<char>>)
    requires
        is_path(p),
        is_path(q),
        text_of(p) == text_of(q),
    ensures
        p == q,
{
    path_text_round_trip(p);
    path_text_round_trip(q);
}

/// Why a path is refused.
#[derive(Debug, Clone, Copy, PartialEq, Eq, Structural)]
pub enum CanonicalPathError {
    /// The text is not the canonical form of any path.
    NotCanonical,
    /// The path does not lie under the given base.
    StripPrefix,
}

/// An absolute path in canonical form: the names that lead from the root to
/// a directory entry, none of them empty, `.` or `..`. Two values are equal
/// exactly where their texts are, and they are ordered name by name.
#[derive(Debug, PartialEq, Eq, PartialOrd, Ord)]
pub struct CanonicalPath {
    components: Vec<String>,
}

impl View for CanonicalPath {
    type V = Seq<Seq<char>>;

    closed spec fn view(&self) -> Seq<Seq<char>> {
        names(self.components@)
    }
}

impl CanonicalPath {
    #[verifier::type_invariant]
    spec fn well_formed(self) -> bool {
        is_path(names(self.components@))
    }

    /// The root directory.
    pub fn root() -> (r: CanonicalPath)
        ensures
            r@ == Seq::<Seq<char>>::empty(),
    {
        let r = CanonicalPath { components: Vec::new() };
        proof {
            assert(r@ =~= Seq::<Seq<char>>::empty());
        }
        r
    }

    /// The path that the canonical text `path` spells. Any other text is
    /// refused: the library does not guess at what a disk would make of it.
    pub fn new(path: &str) -> (r: Result<CanonicalPath, CanonicalPathError>)
        ensures
            r is Ok <==> is_canonical_text(path@),
            r matches Ok(p) ==> p@ == components_of(path@) && is_path(p@),
            r matches Err(e) ==> e == CanonicalPathError::NotCanonical,
    {
        let n = path.unicode_len();
        if n == 0 || path.get_char(0) != '/' {
            return Err(CanonicalPathError::NotCanonical);
        }
        if n == 1 {
            return Ok(CanonicalPath::root());
        }
        let mut components: Vec<String> = Vec::new();
        let mut ok = true;
        let mut start: usize = 1;
        let mut i: usize = 1;
        proof {
            assert(path@.subrange(1, 1) =~= Seq::<char>::empty());
            assert(names(components@).push(path@.subrange(1, 1)) =~= seq![Seq::<char>::empty()]);
        }
        while i < n
            invariant
                1 <= start <= i <= n,
                n == path@.len(),
                split(path@.subrange(1, i as int)) == names(components@).push(
                    path@.subrange(start as int, i as int),
                ),
                ok <==> is_path(names(components@)),
            decreases n - i,
        {
            let c = path.get_char(i);
            let ghost before = path@.subrange(1, i as int);
            let ghost after = path@.subrange(1, i + 1);
            let ghost done = names(components@);
            proof {
                assert(after.drop_last() =~= before);
                assert(after.last() == c);
            }
            if c == '/' {
                let segment = path.substring_char(start, i);
                if !is_name_text(segment) {
                    ok = false;
                }
                components.push(String::from_str(segment));
                proof {
                    assert(names(components@) =~= done.push(segment@));
                    lemma_is_path_push(done, segment@);
                    assert(path@.subrange(i + 1, i + 1) =~= Seq::<char>::empty());
                }
                start = i + 1;
            } else {
                proof {
                    let head = split(before);
                    assert(head.drop_last() =~= done);
                    assert(head.last().push(c) =~= path@.subrange(start as int, i + 1));
                }
            }
            i += 1;
        }
        let segment = path.substring_char(start, n);
        let last_ok = is_name_text(segment);
        let ghost done = names(components@);
        components.push(String::from_str(segment));
        proof {
            assert(path@.subrange(1, n as int) =~= path@.skip(1));
            assert(names(components@) =~= done.push(segment@));
            lemma_is_path_push(done, segment@);
        }
        if ok && last_ok {
            Ok(CanonicalPath { components })
        } else {
            Err(CanonicalPathError::NotCanonical)
        }
    }

    /// How many names lead from the root to this path.
    pub fn depth(&self) -> (n: usize)
        ensures
            n == self@.len(),
    {
        self.components.len()
    }

    /// The path of the first `k` components.
    fn ancestor(&self, k: usize) -> (r: CanonicalPath)
        requires
            k <= self@.len(),
        ensures
            r@ == self@.take(k as int),
            is_path(self@),
    {
        proof {
            use_type_invariant(self);
        }
        let mut components: Vec<String> = Vec::new();
        let mut i: usize = 0;
        while i < k
            invariant
                i <= k <= self.components.len(),
                components.len() == i,
                names(components@) == names(self.components@).take(i as int),
            decreases k - i,
        {
            let ghost done = components@;
            let name = self.components[i].clone();
            components.push(name);
            proof {
                let part = names(components@);
                let all = names(self.components@);
                assert(part.len() == i + 1);
                assert forall|j: int| 0 <= j < part.len() implies part[j] == all.take(i + 1)[j] by {
                    if j < i {
                        assert(components@[j] == done[j]);
                        assert(names(done)[j] == all.take(i as int)[j]);
                    }
                }
                assert(part =~= all.take(i + 1));
            }
            i += 1;
        }
        proof {
            let all = names(self.components@);
            let part = names(components@);
            assert forall|j: int| 0 <= j < part.len() implies is_name(#[trigger] part[j]) by {
                assert(part[j] == all[j]);
            }
        }
        CanonicalPath { components }
    }

    /// The directory that holds this entry; none above the root.
    pub fn parent(&self) -> (r: Option<CanonicalPath>)
        ensures
            self@.len() == 0 ==> r is None,
            self@.len() > 0 ==> r is Some && r->Some_0@ == self@.drop_last(),
    {
        let n = self.components.len();
        if n == 0 {
            None
        } else {
            let p = self.ancestor(n - 1);
            proof {
                assert(self@.take(n - 1) =~= self@.drop_last());
            }
            Some(p)
        }
    }

    /// Whether the two paths have the same components.
    pub fn equals(&self, other: &CanonicalPath) -> (r: bool)
        ensures
            r == (self@ == other@),
    {
        let n = self.components.len();
        if n != other.components.len() {
            proof {
                assert(self@.len() == n);
                assert(other@.len() == other.components.len());
            }
            return false;
        }
        let mut i: usize = 0;
        while i < n
            invariant
                i <= n,
                n == self.components.len(),
                n == other.components.len(),
                forall|j: int| 0 <= j < i ==> self.components[j]@ == other.components[j]@,
            decreases n - i,
        {
            if self.components[i] != other.components[i] {
                proof {
                    assert(self@[i as int] == self.components[i as int]@);
                    assert(other@[i as int] == other.components[i as int]@);
                }
                return false;
            }
            i += 1;
        }
        proof {
            assert(self@ =~= other@);
        }
        true
    }

    /// Whether this path comes strictly before `other`, name by name.
    pub fn precedes(&self, other: &CanonicalPath) -> (r: bool)
        ensures
            r == path_precedes(self@, other@),
    {
        let n = self.components.len();
        let m = other.components.len();
        let mut k: usize = 0;
        proof {
            assert(self@.take(0) =~= other@.take(0));
        }
        while k < n && k < m
            invariant
                k <= n,
                k <= m,
                n == self.components.len(),
                m == other.components.len(),
                self@.take(k as int) == other@.take(k as int),
            decreases n - k,
        {
            if self.components[k] != other.components[k] {
                proof {
                    lemma_path_common_start(self@, other@, k as int);
                    assert(self@.skip(k as int)[0] == self.components[k as int]@);
                    assert(other@.skip(k as int)[0] == other.components[k as int]@);
                }
                return name_before(self.components[k].as_str(), other.components[k].as_str());
            }
            proof {
                assert(self@.take(k + 1) =~= self@.take(k as int).push(self.components[k as int]@));
                assert(other@.take(k + 1) =~= other@.take(k as int).push(
                    other.components[k as int]@,
                ));
            }
            k += 1;
        }
        proof {
            lemma_path_common_start(self@, other@, k as int);
            assert(self@.len() == n);
            assert(other@.len() == m);
        }
        k < m
    }

    /// Whether this path lies at or under `base`.
    pub fn starts_with(&self, base: &CanonicalPath) -> (r: bool)
        ensures
            r == is_ancestor(base@, self@),
    {
        let k = base.components.len();
        if k > self.components.len() {
            return false;
        }
        let mut i: usize = 0;
        while i < k
            invariant
                i <= k <= self.components.len(),
                k == base.components.len(),
                forall|j: int| 0 <= j < i ==> self.components[j]@ == base.components[j]@,
            decreases k - i,
        {
            if self.components[i] != base.components[i] {
                proof {
                    assert(self@.take(k as int)[i as int] == self.components[i as int]@);
                    assert(base@[i as int] == base.components[i as int]@);
                }
                return false;
            }
            i += 1;
        }
        proof {
            assert(self@.take(k as int) =~= base@);
        }
        true
    }

    /// This path as seen from `base`: the names that lead from `base` to it,
    /// with a separator between each two, and the empty text for `base`
    /// itself. A path that does not lie under `base` has no such text.
    pub fn strip_prefix(&self, base: &CanonicalPath) -> (r: Result<String, CanonicalPathError>)
        ensures
            r is Ok <==> is_ancestor(base@, self@),
            r matches Ok(s) ==> s@ == relative_text(self@.skip(base@.len() as int)),
            r matches Err(e) ==> e == CanonicalPathError::StripPrefix,
    {
        if !self.starts_with(base) {
            return Err(CanonicalPathError::StripPrefix);
        }
        let k = base.components.len();
        let n = self.components.len();
        let mut s = String::new();
        let mut i: usize = k;
        proof {
            assert(self@.subrange(k as int, k as int) =~= Seq::<Seq<char>>::empty());
        }
        while i < n
            invariant
                k <= i <= n,
                n == self.components.len(),
                s@ == relative_text(self@.subrange(k as int, i as int)),
            decreases n - i,
        {
            let ghost before = self@.subrange(k as int, i as int);
            let ghost after = self@.subrange(k as int, i + 1);
            proof {
                assert(after.drop_last() =~= before);
                assert(after.last() == self.components[i as int]@);
                reveal_strlit("/");
                assert("/"@ =~= seq!['/']);
            }
            if i > k {
                s.append("/");
                proof {
                    assert(s@ =~= relative_text(before).push('/'));
                }
            } else {
                proof {
                    assert(after =~= seq![self.components[i as int]@]);
                    assert(s@ + self.components[i as int]@ =~= self.components[i as int]@);
                }
            }
            s.append(self.components[i].as_str());
            i += 1;
        }
        proof {
            assert(self@.subrange(k as int, n as int) =~= self@.skip(k as int));
        }
        Ok(s)
    }

    /// The text of this path.
    pub fn to_text(&self) -> (r: String)
        ensures
            r@ == text_of(self@),
            is_path(self@),
    {
        proof {
            use_type_invariant(self);
            reveal_strlit("/");
            assert("/"@ =~= seq!['/']);
        }
        let n = self.components.len();
        if n == 0 {
            return String::from_str("/");
        }
        let mut s = String::new();
        let mut i: usize = 0;
        proof {
            assert(self@.take(0) =~= Seq::<Seq<char>>::empty());
        }
        while i < n
            invariant
                i <= n,
                n == self.components.len(),
                "/"@ == seq!['/'],
                s@ == render(self@.take(i as int)),
            decreases n - i,
        {
            proof {
                assert(self@.take(i + 1).drop_last() =~= self@.take(i as int));
                assert(self@.take(i + 1).last() == self.components[i as int]@);
            }
            s.append("/");
            proof {
                assert(s@ =~= render(self@.take(i as int)).push('/'));
            }
            s.append(self.components[i].as_str());
            i += 1;
        }
        proof {
            assert(self@.take(n as int) =~= self@);
        }
        s
    }

    /// The text of `rel_path` taken relative to this directory.
    pub fn join(&self, rel_path: &str) -> (r: String)
        ensures
            r@ == join_text(text_of(self@), rel_path@),
    {
        let base = self.to_text();
        join(base.as_str(), rel_path)
    }

    /// The path text that the import of `rel_path` from this directory stands
    /// for, given whether the joined text names an existing directory: the
    /// `index` inside a directory, and the default extension where the file
    /// name has none.
    pub fn resolve_ts_file(&self, rel_path: &str, is_dir: bool) -> (r: String)
        ensures
            r@ == candidate_text(join_text(text_of(self@), rel_path@), is_dir),
    {
        let joined = self.join(rel_path);
        candidate(joined.as_str(), is_dir)
    }
}

impl Clone for CanonicalPath {
    fn clone(&self) -> (r: CanonicalPath)
        ensures
            r@ == self@,
    {
        let r = self.ancestor(self.components.len());
        proof {
            assert(self@.take(self.components.len() as int) =~= self@);
        }
        r
    }
}

} // verus!
