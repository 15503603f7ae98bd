//! Paths as text: separators, file names, extensions, joining.
//!
//! A path text is a sequence of characters in which `/` separates segments.
//! Nothing here looks at a disk.

use vstd::prelude::*;

verus! {

/// A segment that names a directory entry: not empty, without a separator,
/// and neither `.` nor `..`.
pub open spec fn is_name(s: Seq<char>) -> bool {
    &&& s.len() > 0
    &&& forall|i: int| 0 <= i < s.len() ==> s[i] != '/'
    &&& s != seq!['.']
    &&& s != seq!['.', '.']
}

/// The segments of `t`, separators removed. A text without a separator is
/// its own single segment; two adjacent separators enclose an empty segment.
pub open spec fn split(t: Seq<char>) -> Seq<Seq<char>>
    decreases t.len(),
{
    if t.len() == 0 {
        seq![Seq::<char>::empty()]
    } else {
        let head = split(t.drop_last());
        if t.last() == '/' {
            head.push(Seq::<char>::empty())
        } else {
            head.drop_last().push(head.last().push(t.last()))
        }
    }
}

/// The index of the last separator of `t`, or -1 where it has none.
pub open spec fn last_separator(t: Seq<char>) -> int
    decreases t.len(),
{
    if t.len() == 0 {
        -1
    } else if t.last() == '/' {
        t.len() - 1
    } else {
        last_separator(t.drop_last())
    }
}

/// Where the file name of `t` starts and ends: the last segment that is
/// neither empty nor `.`, unless that segment is `..`.
pub open spec fn name_span(t: Seq<char>) -> Option<(int, int)>
    decreases t.len(),
{
    let start = last_separator(t) + 1;
    let segment = t.skip(start);
    if segment.len() == 0 || segment == seq!['.'] {
        if 0 < start <= t.len() {
            name_span(t.take(start - 1))
        } else {
            None
        }
    } else if segment == seq!['.', '.'] {
        None
    } else {
        Some((start, t.len() as int))
    }
}

/// The file name of `t`, if it has one.
pub open spec fn file_name(t: Seq<char>) -> Option<Seq<char>> {
    match name_span(t) {
        Some((start, end)) => Some(t.subrange(start, end)),
        None => None,
    }
}

/// A file name has an extension where a `.` stands anywhere but at its start.
pub open spec fn name_has_extension(name: Seq<char>) -> bool {
    exists|i: int| 1 <= i < name.len() && name[i] == '.'
}

/// Whether the file name of `t` has an extension.
pub open spec fn has_extension(t: Seq<char>) -> bool {
    match file_name(t) {
        Some(name) => name_has_extension(name),
        None => false,
    }
}

/// The extension given to a candidate that has none.
pub open spec fn default_suffix() -> Seq<char> {
    seq!['.', 't', 's']
}

/// `t` with the default extension, where `t` has a file name without one:
/// whatever follows the file name is cut off and `.ts` is appended. Any other
/// text is left as it is.
pub open spec fn with_default_extension(t: Seq<char>) -> Seq<char> {
    match name_span(t) {
        Some((start, end)) => if name_has_extension(t.subrange(start, end)) {
            t
        } else {
            t.take(end) + default_suffix()
        },
        None => t,
    }
}

/// `rel` taken relative to `base`: an absolute `rel` replaces `base`;
/// otherwise `rel` is appended, after a separator unless `base` is empty or
/// already ends in one.
pub open spec fn join_text(base: Seq<char>, rel: Seq<char>) -> Seq<char> {
    if rel.len() > 0 && rel[0] == '/' {
        rel
    } else if base.len() > 0 && base.last() != '/' {
        base.push('/') + rel
    } else {
        base + rel
    }
}

/// The file name under which a directory stands for a module.
pub open spec fn index_name() -> Seq<char> {
    seq!['i', 'n', 'd', 'e', 'x']
}

/// The path text to look up for an import whose joined text is `joined`:
/// a directory stands for the `index` inside it, and a file name without an
/// extension gets the default one.
pub open spec fn candidate_text(joined: Seq<char>, is_dir: bool) -> Seq<char> {
    with_default_extension(
        if is_dir {
            join_text(joined, index_name())
        } else {
            joined
        },
    )
}

/// A relative specifier starts with `.`.
pub open spec fn is_relative(specifier: Seq<char>) -> bool {
    specifier.len() > 0 && specifier[0] == '.'
}

pub(crate) proof fn lemma_split_nonempty(t: Seq<char>)
    ensures
        split(t).len() >= 1,
    decreases t.len(),
{
    if t.len() > 0 {
        lemma_split_nonempty(t.drop_last());
    }
}

/// `last_separator` is the one index at which a separator stands with none
/// after it.
proof fn lemma_last_separator(t: Seq<char>, i: int)
    requires
        -1 <= i < t.len(),
        i >= 0 ==> t[i] == '/',
        forall|j: int| i < j < t.len() ==> t[j] != '/',
    ensures
        last_separator(t) == i,
    decreases t.len(),
{
    if t.len() > 0 && t.last() != '/' {
        lemma_last_separator(t.drop_last(), i);
    }
}

/// A name at the end of a text, alone or behind a separator, is the file
/// name of that text.
proof fn lemma_name_at_end(x: Seq<char>, name: Seq<char>)
    requires
        is_name(name),
        x.len() == 0 || x.last() == '/',
    ensures
        name_span(x + name) == Some((x.len() as int, (x.len() + name.len()) as int)),
{
    let t = x + name;
    assert forall|j: int| x.len() - 1 < j < t.len() implies t[j] != '/' by {
        assert(t[j] == name[j - x.len()]);
    }
    lemma_last_separator(t, x.len() - 1);
    assert(t.skip(x.len() as int) =~= name);
}

/// A candidate that is no directory and whose file name has no extension
/// gets the default extension.
pub proof fn bare_name_gets_default_extension(x: Seq<char>, name: Seq<char>)
    requires
        is_name(name),
        !name_has_extension(name),
        x.len() == 0 || x.last() == '/',
    ensures
        candidate_text(x + name, false) == x + name + default_suffix(),
{
    let t = x + name;
    lemma_name_at_end(x, name);
    assert(t.subrange(x.len() as int, t.len() as int) =~= name);
    assert(t.take(t.len() as int) =~= t);
}

/// A candidate that is no directory and whose file name has an extension
/// stays as it is.
pub proof fn name_with_extension_is_kept(x: Seq<char>, name: Seq<char>)
    requires
        is_name(name),
        name_has_extension(name),
        x.len() == 0 || x.last() == '/',
    ensures
        candidate_text(x + name, false) == x + name,
{
    let t = x + name;
    lemma_name_at_end(x, name);
    assert(t.subrange(x.len() as int, t.len() as int) =~= name);
}

/// The candidate of a directory is `index.ts` joined to it.
pub proof fn directory_candidate_is_its_index(joined: Seq<char>)
    ensures
        candidate_text(joined, true) == join_text(joined, index_name()) + default_suffix(),
{
    let index = index_name();
    assert(index.len() == 5);
    assert(index[0] == 'i' && index[1] == 'n' && index[2] == 'd' && index[3] == 'e' && index[4]
        == 'x');
    assert(index != seq!['.']) by {
        assert(seq!['.'].len() == 1);
    }
    assert(index != seq!['.', '.']) by {
        assert(seq!['.', '.'].len() == 2);
    }
    assert(is_name(index));
    assert(!name_has_extension(index));
    let x = if joined.len() > 0 && joined.last() != '/' {
        joined.push('/')
    } else {
        joined
    };
    assert(join_text(joined, index) == x + index);
    bare_name_gets_default_extension(x, index);
}

pub fn is_name_text(s: &str) -> (r: bool)
    ensures
        r == is_name(s@),
{
    let n = s.unicode_len();
    if n == 0 {
        return false;
    }
    let first = s.get_char(0);
    if n == 1 && first == '.' {
        assert(s@ =~= seq!['.']);
        return false;
    }
    if n == 2 && first == '.' && s.get_char(1) == '.' {
        assert(s@ =~= seq!['.', '.']);
        return false;
    }
    let mut i: usize = 0;
    while i < n
        invariant
            i <= n,
            n == s@.len(),
            forall|j: int| 0 <= j < i ==> s@[j] != '/',
        decreases n - i,
    {
        if s.get_char(i) == '/' {
            return false;
        }
        i += 1;
    }
    assert(s@ != seq!['.']) by {
        if s@ == seq!['.'] {
            assert(seq!['.'].len() == 1);
            assert(seq!['.'][0] == '.');
        }
    }
    assert(s@ != seq!['.', '.']) by {
        if s@ == seq!['.', '.'] {
            assert(seq!['.', '.'].len() == 2);
            assert(seq!['.', '.'][0] == '.');
            assert(seq!['.', '.'][1] == '.');
        }
    }
    true
}

/// The index of the last separator before `end`, if there is one.
fn last_separator_before(t: &str, end: usize) -> (r: Option<usize>)
    requires
        end <= t@.len(),
    ensures
        match r {
            Some(i) => i < end && i == last_separator(t@.take(end as int)),
            None => last_separator(t@.take(end as int)) == -1,
        },
{
    let mut i: usize = end;
    while i > 0
        invariant
            i <= end <= t@.len(),
            forall|j: int| i <= j < end ==> t@[j] != '/',
        decreases i,
    {
        if t.get_char(i - 1) == '/' {
            proof {
                lemma_last_separator(t@.take(end as int), i - 1);
            }
            return Some(i - 1);
        }
        i -= 1;
    }
    proof {
        lemma_last_separator(t@.take(end as int), -1);
    }
    None
}

pub fn is_relative_text(specifier: &str) -> (r: bool)
    ensures
        r == is_relative(specifier@),
{
    specifier.unicode_len() > 0 && specifier.get_char(0) == '.'
}

/// Where the file name of `t` starts and ends, if it has one.
pub fn find_name(t: &str) -> (r: Option<(usize, usize)>)
    ensures
        match r {
            Some((start, end)) => name_span(t@) == Some((start as int, end as int)) && start < end
                <= t@.len(),
            None => name_span(t@) is None,
        },
{
    let mut end: usize = t.unicode_len();
    assert(t@.take(end as int) =~= t@);
    loop
        invariant
            end <= t@.len(),
            name_span(t@) == name_span(t@.take(end as int)),
        decreases end,
    {
        let ghost u = t@.take(end as int);
        let start: usize = match last_separator_before(t, end) {
            Some(i) => i + 1,
            None => 0,
        };
        let len: usize = end - start;
        assert(u.skip(start as int) =~= t@.subrange(start as int, end as int));
        if len == 0 || (len == 1 && t.get_char(start) == '.') {
            assert(u.skip(start as int).len() == 0 || u.skip(start as int) =~= seq!['.']);
            if start == 0 {
                return None;
            }
            assert(u.take(start - 1) =~= t@.take(start - 1));
            end = start - 1;
        } else if len == 2 && t.get_char(start) == '.' && t.get_char(start + 1) == '.' {
            assert(u.skip(start as int) =~= seq!['.', '.']);
            assert(seq!['.', '.'] != seq!['.']) by {
                assert(seq!['.', '.'].len() == 2);
                assert(seq!['.'].len() == 1);
            }
            return None;
        } else {
            let ghost segment = u.skip(start as int);
            assert(segment != seq!['.']) by {
                if segment == seq!['.'] {
                    assert(seq!['.'].len() == 1);
                    assert(seq!['.'][0] == '.');
                }
            }
            assert(segment != seq!['.', '.']) by {
                if segment == seq!['.', '.'] {
                    assert(seq!['.', '.'].len() == 2);
                    assert(seq!['.', '.'][0] == '.');
                    assert(seq!['.', '.'][1] == '.');
                }
            }
            return Some((start, end));
        }
    }
}

/// Whether a `.` stands in `t` after `start` and before `end`.
fn has_inner_dot(t: &str, start: usize, end: usize) -> (r: bool)
    requires
        start < end <= t@.len(),
    ensures
        r == name_has_extension(t@.subrange(start as int, end as int)),
{
    let ghost name = t@.subrange(start as int, end as int);
    let mut i: usize = start + 1;
    while i < end
        invariant
            start < i <= end <= t@.len(),
            name == t@.subrange(start as int, end as int),
            forall|j: int| 1 <= j < i - start ==> name[j] != '.',
        decreases end - i,
    {
        if t.get_char(i) == '.' {
            assert(name[i - start] == '.');
            return true;
        }
        i += 1;
    }
    false
}

/// Whether the file name of `t` has an extension.
pub fn has_extension_text(t: &str) -> (r: bool)
    ensures
        r == has_extension(t@),
{
    match find_name(t) {
        Some((start, end)) => has_inner_dot(t, start, end),
        None => false,
    }
}

/// `t` with the default extension, where its file name has none.
pub fn add_default_extension(t: &str) -> (r: String)
    ensures
        r@ == with_default_extension(t@),
{
    match find_name(t) {
        Some((start, end)) => {
            if has_inner_dot(t, start, end) {
                String::from_str(t)
            } else {
                let mut s = String::from_str(t.substring_char(0, end));
                proof {
                    reveal_strlit(".ts");
                    assert(".ts"@ =~= default_suffix());
                    assert(t@.subrange(0, end as int) =~= t@.take(end as int));
                }
                s.append(".ts");
                s
            }
        },
        None => String::from_str(t),
    }
}

/// `rel` taken relative to `base`.
pub fn join(base: &str, rel: &str) -> (r: String)
    ensures
        r@ == join_text(base@, rel@),
{
    if rel.unicode_len() > 0 && rel.get_char(0) == '/' {
        return String::from_str(rel);
    }
    let n = base.unicode_len();
    let mut s = String::from_str(base);
    if n > 0 && base.get_char(n - 1) != '/' {
        proof {
            reveal_strlit("/");
            assert("/"@ =~= seq!['/']);
            assert(base@ + seq!['/'] =~= base@.push('/'));
        }
        s.append("/");
    }
    s.append(rel);
    s
}

/// The path text to look up for an import whose joined text is `joined`.
pub fn candidate(joined: &str, is_dir: bool) -> (r: String)
    ensures
        r@ == candidate_text(joined@, is_dir),
{
    if is_dir {
        proof {
            reveal_strlit("index");
            assert("index"@ =~= index_name());
        }
        let inner = join(joined, "index");
        add_default_extension(inner.as_str())
    } else {
        add_default_extension(joined)
    }
}

} // verus!
