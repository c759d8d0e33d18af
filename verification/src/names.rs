//! Name resolution: canonicalizing a caller-relative name into a global
//! `/`-rooted path, and the prefix relation that decides which parameter
//! subscriptions a write touches.

use vstd::prelude::*;

use crate::strutil::push_seg;

verus! {

/// The index of the last occurrence of `c` in `s`, or `-1`.
pub open spec fn last_index_of(s: Seq<char>, c: char) -> int
    decreases s.len(),
{
    if s.len() == 0 {
        -1
    } else if s[s.len() - 1] == c {
        s.len() - 1
    } else {
        last_index_of(s.drop_last(), c)
    }
}

/// What `resolve` returns: an empty key stays empty, a `/`-rooted key is
/// already global, a `~`-key is private to the caller, and any other key
/// is relative to the caller's parent namespace. A caller id without `/`
/// leaves a relative key unchanged.
pub open spec fn spec_resolve(caller_id: Seq<char>, key: Seq<char>) -> Seq<char> {
    if key.len() == 0 {
        Seq::<char>::empty()
    } else if key[0] == '/' {
        key
    } else if key[0] == '~' {
        caller_id + seq!['/'] + key.drop_first()
    } else {
        let i = last_index_of(caller_id, '/');
        if i >= 0 {
            caller_id.take(i) + seq!['/'] + key
        } else {
            key
        }
    }
}

/// One of the two strings is a prefix of the other.
pub open spec fn prefix_rel(a: Seq<char>, b: Seq<char>) -> bool {
    if a.len() <= b.len() {
        b.take(a.len() as int) == a
    } else {
        a.take(b.len() as int) == b
    }
}

/// When `i` holds `c` and nothing after it does, `i` is the last index.
proof fn lemma_last_index_at(s: Seq<char>, c: char, i: int)
    requires
        0 <= i < s.len(),
        s[i] == c,
        forall|j: int| i < j < s.len() ==> s[j] != c,
    ensures
        last_index_of(s, c) == i,
    decreases s.len(),
{
    if i == s.len() - 1 {
    } else {
        assert(s[s.len() - 1] != c);
        assert(s.drop_last()[i] == s[i]);
        lemma_last_index_at(s.drop_last(), c, i);
    }
}

/// When `c` never occurs, there is no last index.
proof fn lemma_last_index_absent(s: Seq<char>, c: char)
    requires
        forall|j: int| 0 <= j < s.len() ==> s[j] != c,
    ensures
        last_index_of(s, c) == -1,
    decreases s.len(),
{
    if s.len() > 0 {
        lemma_last_index_absent(s.drop_last(), c);
    }
}

/// Resolves `key` against `caller_id`: empty keys stay empty, `/`-rooted
/// keys pass through, `~`-keys live under the caller itself, and other
/// keys live under the caller's parent namespace.
pub fn resolve(caller_id: &str, key: &str) -> (r: String)
    ensures
        r@ == spec_resolve(caller_id@, key@),
{
    let n = key.unicode_len();
    if n == 0 {
        return String::new();
    }
    let c0 = key.get_char(0);
    if c0 == '/' {
        return key.to_owned();
    }
    if c0 == '~' {
        let rest = key.substring_char(1, n);
        proof {
            assert(rest@ =~= key@.drop_first());
        }
        let mut s = caller_id.to_owned();
        push_seg(&mut s, rest);
        return s;
    }
    let m = caller_id.unicode_len();
    let mut i: usize = m;
    #[verifier::loop_isolation(false)]
    while i > 0
        invariant
            0 <= i <= m,
            forall|j: int| i <= j < m ==> caller_id@[j] != '/',
        decreases i,
    {
        i -= 1;
        if caller_id.get_char(i) == '/' {
            proof {
                lemma_last_index_at(caller_id@, '/', i as int);
            }
            let prefix = caller_id.substring_char(0, i);
            proof {
                assert(prefix@ =~= caller_id@.take(i as int));
            }
            let mut s = prefix.to_owned();
            push_seg(&mut s, key);
            return s;
        }
    }
    proof {
        lemma_last_index_absent(caller_id@, '/');
    }
    key.to_owned()
}

/// True iff one of the two strings is a prefix of the other. This is the
/// relation between a written parameter path and a subscribed one that
/// makes the subscription see the write.
pub fn one_is_prefix_of_the_other(a: &str, b: &str) -> (r: bool)
    ensures
        r == prefix_rel(a@, b@),
{
    let na = a.unicode_len();
    let nb = b.unicode_len();
    let n = if na < nb {
        na
    } else {
        nb
    };
    let mut i: usize = 0;
    #[verifier::loop_isolation(false)]
    while i < n
        invariant
            0 <= i <= n,
            forall|j: int| 0 <= j < i ==> a@[j] == b@[j],
        decreases n - i,
    {
        if a.get_char(i) != b.get_char(i) {
            proof {
                if na <= nb {
                    assert(b@.take(na as int)[i as int] != a@[i as int]);
                } else {
                    assert(a@.take(nb as int)[i as int] != b@[i as int]);
                }
            }
            return false;
        }
        i += 1;
    }
    proof {
        if na <= nb {
            assert(b@.take(na as int) =~= a@);
        } else {
            assert(a@.take(nb as int) =~= b@);
        }
    }
    true
}

} // verus!
