//! The order of names and of paths.
//!
//! Names are ordered character by character, by code point, a proper prefix
//! before its extensions. Paths are ordered name by name in the same way, so
//! a directory comes before everything under it.

use vstd::prelude::*;

verus! {

/// `a` comes strictly before `b`.
pub open spec fn name_precedes(a: Seq<char>, b: Seq<char>) -> bool
    decreases a.len(),
{
    if b.len() == 0 {
        false
    } else if a.len() == 0 {
        true
    } else if a[0] != b[0] {
        a[0] < b[0]
    } else {
        name_precedes(a.skip(1), b.skip(1))
    }
}

/// `a` comes strictly before `b`.
pub open spec fn path_precedes(a: Seq<Seq<char>>, b: Seq<Seq<char>>) -> bool
    decreases a.len(),
{
    if b.len() == 0 {
        false
    } else if a.len() == 0 {
        true
    } else if a[0] != b[0] {
        name_precedes(a[0], b[0])
    } else {
        path_precedes(a.skip(1), b.skip(1))
    }
}

/// What two names have in common at their start does not order them.
proof fn lemma_name_common_start(a: Seq<char>, b: Seq<char>, k: int)
    requires
        0 <= k <= a.len(),
        k <= b.len(),
        a.take(k) == b.take(k),
    ensures
        name_precedes(a, b) == name_precedes(a.skip(k), b.skip(k)),
    decreases k,
{
    if k == 0 {
        assert(a.skip(0) =~= a);
        assert(b.skip(0) =~= b);
    } else {
        assert(a[0] == a.take(k)[0]);
        assert(b[0] == b.take(k)[0]);
        assert(a.skip(1).take(k - 1) =~= a.take(k).skip(1));
        assert(b.skip(1).take(k - 1) =~= b.take(k).skip(1));
        lemma_name_common_start(a.skip(1), b.skip(1), k - 1);
        assert(a.skip(1).skip(k - 1) =~= a.skip(k));
        assert(b.skip(1).skip(k - 1) =~= b.skip(k));
    }
}

/// What two paths have in common at their start does not order them.
pub(crate) proof fn lemma_path_common_start(a: Seq<Seq<char>>, b: Seq<Seq<char>>, k: int)
    requires
        0 <= k <= a.len(),
        k <= b.len(),
        a.take(k) == b.take(k),
    ensures
        path_precedes(a, b) == path_precedes(a.skip(k), b.skip(k)),
    decreases k,
{
    if k == 0 {
        assert(a.skip(0) =~= a);
        assert(b.skip(0) =~= b);
    } else {
        assert(a[0] == a.take(k)[0]);
        assert(b[0] == b.take(k)[0]);
        assert(a.skip(1).take(k - 1) =~= a.take(k).skip(1));
        assert(b.skip(1).take(k - 1) =~= b.take(k).skip(1));
        lemma_path_common_start(a.skip(1), b.skip(1), k - 1);
        assert(a.skip(1).skip(k - 1) =~= a.skip(k));
        assert(b.skip(1).skip(k - 1) =~= b.skip(k));
    }
}

/// No name comes before itself.
pub proof fn name_order_is_irreflexive(a: Seq<char>)
    ensures
        !name_precedes(a, a),
    decreases a.len(),
{
    if a.len() > 0 {
        name_order_is_irreflexive(a.skip(1));
    }
}

/// Of two different names one comes before the other.
pub proof fn name_order_is_total(a: Seq<char>, b: Seq<char>)
    ensures
        a == b || name_precedes(a, b) || name_precedes(b, a),
    decreases a.len(),
{
    if a.len() == 0 || b.len() == 0 {
        if a.len() == 0 && b.len() == 0 {
            assert(a =~= b);
        }
    } else if a[0] == b[0] {
        name_order_is_total(a.skip(1), b.skip(1));
        if a.skip(1) == b.skip(1) {
            assert(a =~= seq![a[0]] + a.skip(1));
            assert(b =~= seq![b[0]] + b.skip(1));
        }
    }
}

/// Before is transitive on names.
pub proof fn name_order_is_transitive(a: Seq<char>, b: Seq<char>, c: Seq<char>)
    requires
        name_precedes(a, b),
        name_precedes(b, c),
    ensures
        name_precedes(a, c),
    decreases a.len(),
{
    if a.len() > 0 && a[0] == b[0] && b[0] == c[0] {
        name_order_is_transitive(a.skip(1), b.skip(1), c.skip(1));
    }
}

/// No path comes before itself.
pub proof fn path_order_is_irreflexive(a: Seq<Seq<char>>)
    ensures
        !path_precedes(a, a),
    decreases a.len(),
{
    if a.len() > 0 {
        path_order_is_irreflexive(a.skip(1));
    }
}

/// Of two different paths one comes before the other.
pub proof fn path_order_is_total(a: Seq<Seq<char>>, b: Seq<Seq<char>>)
    ensures
        a == b || path_precedes(a, b) || path_precedes(b, a),
    decreases a.len(),
{
    if a.len() == 0 || b.len() == 0 {
        if a.len() == 0 && b.len() == 0 {
            assert(a =~= b);
        }
    } else if a[0] == b[0] {
        path_order_is_total(a.skip(1), b.skip(1));
        if a.skip(1) == b.skip(1) {
            assert(a =~= seq![a[0]] + a.skip(1));
            assert(b =~= seq![b[0]] + b.skip(1));
        }
    } else {
        name_order_is_total(a[0], b[0]);
    }
}

/// Before is transitive on paths.
pub proof fn path_order_is_transitive(a: Seq<Seq<char>>, b: Seq<Seq<char>>, c: Seq<Seq<char>>)
    requires
        path_precedes(a, b),
        path_precedes(b, c),
    ensures
        path_precedes(a, c),
    decreases a.len(),
{
    if a.len() > 0 {
        if a[0] == b[0] && b[0] == c[0] {
            path_order_is_transitive(a.skip(1), b.skip(1), c.skip(1));
        } else if a[0] != b[0] && b[0] != c[0] {
            name_order_is_transitive(a[0], b[0], c[0]);
            name_order_is_irreflexive(a[0]);
        }
    }
}

/// Whether the name `a` comes strictly before the name `b`.
pub fn name_before(a: &str, b: &str) -> (r: bool)
    ensures
        r == name_precedes(a@, b@),
{
    let n = a.unicode_len();
    let m = b.unicode_len();
    let mut k: usize = 0;
    proof {
        assert(a@.take(0) =~= b@.take(0));
    }
    while k < n && k < m
        invariant
            k <= n,
            k <= m,
            n == a@.len(),
            m == b@.len(),
            a@.take(k as int) == b@.take(k as int),
        decreases n - k,
    {
        let x = a.get_char(k);
        let y = b.get_char(k);
        if x != y {
            proof {
                lemma_name_common_start(a@, b@, k as int);
                assert(a@.skip(k as int)[0] == x);
                assert(b@.skip(k as int)[0] == y);
            }
            return x < y;
        }
        proof {
            assert(a@.take(k + 1) =~= a@.take(k as int).push(x));
            assert(b@.take(k + 1) =~= b@.take(k as int).push(y));
        }
        k += 1;
    }
    proof {
        lemma_name_common_start(a@, b@, k as int);
    }
    k < m
}

} // verus!
