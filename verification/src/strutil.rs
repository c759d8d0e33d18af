//! String helpers shared by the name resolver, the parameter tree and the
//! registry: splitting on `/`, building `/`-prefixed key strings, equality
//! and lexicographic comparison of strings, all specified over `Seq<char>`.

use vstd::prelude::*;

verus! {

/// The result of splitting `s` on `sep`, as Rust's `split` does it: the
/// separators are dropped, and `n` separators yield `n + 1` segments
/// (an empty string yields one empty segment).
pub open spec fn spec_split(s: Seq<char>, sep: char) -> Seq<Seq<char>>
    decreases s.len(),
{
    if s.len() == 0 {
        seq![Seq::<char>::empty()]
    } else if s[0] == sep {
        seq![Seq::<char>::empty()] + spec_split(s.drop_first(), sep)
    } else {
        let rest = spec_split(s.drop_first(), sep);
        seq![seq![s[0]] + rest[0]] + rest.drop_first()
    }
}

/// `/a/b/c` from the segments `[a, b, c]`: each segment prefixed by `/`.
pub open spec fn slashed(segs: Seq<Seq<char>>) -> Seq<char>
    decreases segs.len(),
{
    if segs.len() == 0 {
        Seq::<char>::empty()
    } else {
        seq!['/'] + segs[0] + slashed(segs.drop_first())
    }
}

/// `s` with one leading `/` removed, if it has one.
pub open spec fn strip_slash(s: Seq<char>) -> Seq<char> {
    if s.len() > 0 && s[0] == '/' {
        s.drop_first()
    } else {
        s
    }
}

/// A well-formed path segment: non-empty and free of `/`.
pub open spec fn seg_wf(s: Seq<char>) -> bool {
    s.len() > 0 && forall|i: int| 0 <= i < s.len() ==> s[i] != '/'
}

/// The views of a sequence of strings.
pub open spec fn views_of(ss: Seq<String>) -> Seq<Seq<char>> {
    ss.map_values(|s: String| s@)
}

/// Splitting a string without separators yields that one string.
pub proof fn lemma_split_no_sep(s: Seq<char>, sep: char)
    requires
        forall|i: int| 0 <= i < s.len() ==> s[i] != sep,
    ensures
        spec_split(s, sep) =~= seq![s],
    decreases s.len(),
{
    if s.len() == 0 {
        assert(spec_split(s, sep) == seq![Seq::<char>::empty()]);
        assert(s =~= Seq::<char>::empty());
    } else {
        lemma_split_no_sep(s.drop_first(), sep);
        assert(spec_split(s, sep)[0] =~= seq![s[0]] + s.drop_first());
        assert(seq![s[0]] + s.drop_first() =~= s);
    }
}

/// Splitting at the first separator: the part before it becomes the first
/// segment and the rest is split on its own.
pub proof fn lemma_split_at_first_sep(s: Seq<char>, sep: char, i: int)
    requires
        0 <= i < s.len(),
        s[i] == sep,
        forall|j: int| 0 <= j < i ==> s[j] != sep,
    ensures
        spec_split(s, sep) =~= seq![s.subrange(0, i)] + spec_split(
            s.subrange(i + 1, s.len() as int),
            sep,
        ),
    decreases i,
{
    if i == 0 {
        assert(s.subrange(0, 0) =~= Seq::<char>::empty());
        assert(s.subrange(1, s.len() as int) =~= s.drop_first());
    } else {
        let d = s.drop_first();
        lemma_split_at_first_sep(d, sep, i - 1);
        assert(d.subrange(i, d.len() as int) =~= s.subrange(i + 1, s.len() as int));
        let rest = spec_split(d, sep);
        assert(rest[0] == d.subrange(0, i - 1));
        assert(spec_split(s, sep)[0] =~= seq![s[0]] + rest[0]);
        assert(seq![s[0]] + d.subrange(0, i - 1) =~= s.subrange(0, i));
    }
}

/// Appending a segment extends the `/`-joined form by `/` and the segment.
pub proof fn lemma_slashed_push(p: Seq<Seq<char>>, x: Seq<char>)
    ensures
        slashed(p.push(x)) =~= slashed(p) + seq!['/'] + x,
    decreases p.len(),
{
    if p.len() == 0 {
        assert(p.push(x)[0] == x);
        assert(p.push(x).drop_first() =~= Seq::<Seq<char>>::empty());
        assert(slashed(Seq::<Seq<char>>::empty()) =~= Seq::<char>::empty());
        assert(slashed(p.push(x)) =~= seq!['/'] + x);
        assert(slashed(p) + seq!['/'] + x =~= seq!['/'] + x);
    } else {
        lemma_slashed_push(p.drop_first(), x);
        assert(p.push(x).drop_first() =~= p.drop_first().push(x));
        assert(p.push(x)[0] == p[0]);
        assert(slashed(p.push(x)) =~= seq!['/'] + p[0] + slashed(p.drop_first().push(x)));
        assert(slashed(p) + seq!['/'] + x =~= seq!['/'] + p[0] + (slashed(p.drop_first())
            + seq!['/'] + x));
    }
}

/// Splitting a `/`-joined path (with the leading `/` stripped) on `/`
/// recovers the segments, provided every segment is non-empty and `/`-free.
pub proof fn lemma_split_of_slashed(p: Seq<Seq<char>>)
    requires
        p.len() >= 1,
        forall|i: int| 0 <= i < p.len() ==> seg_wf(#[trigger] p[i]),
    ensures
        spec_split(strip_slash(slashed(p)), '/') =~= p,
    decreases p.len(),
{
    assert(slashed(p)[0] == '/');
    let body = slashed(p).drop_first();
    assert(body =~= p[0] + slashed(p.drop_first()));
    if p.len() == 1 {
        assert(slashed(p.drop_first()) =~= Seq::<char>::empty());
        assert(body =~= p[0]);
        assert(forall|j: int| 0 <= j < p[0].len() ==> p[0][j] != '/');
        lemma_split_no_sep(p[0], '/');
    } else {
        let k = p[0].len() as int;
        assert(slashed(p.drop_first())[0] == '/');
        assert(body[k] == '/');
        assert(forall|j: int| 0 <= j < k ==> body[j] == p[0][j] && p[0][j] != '/');
        lemma_split_at_first_sep(body, '/', k);
        assert(body.subrange(0, k) =~= p[0]);
        assert(body.subrange(k + 1, body.len() as int) =~= slashed(p.drop_first()).drop_first());
        lemma_split_of_slashed(p.drop_first());
        assert(strip_slash(slashed(p.drop_first())) =~= slashed(p.drop_first()).drop_first());
    }
}

/// True iff the two strings read the same.
pub fn str_eq(a: &str, b: &str) -> (r: bool)
    ensures
        r == (a@ == b@),
{
    let na = a.unicode_len();
    let nb = b.unicode_len();
    if na != nb {
        return false;
    }
    let mut i: usize = 0;
    while i < na
        invariant
            0 <= i <= na,
            na == a@.len(),
            nb == b@.len(),
            na == nb,
            forall|j: int| 0 <= j < i ==> a@[j] == b@[j],
        decreases na - i,
    {
        if a.get_char(i) != b.get_char(i) {
            return false;
        }
        i += 1;
    }
    proof {
        assert(a@ =~= b@);
    }
    true
}

/// The concatenation of three strings.
pub fn concat3(a: &str, b: &str, c: &str) -> (r: String)
    ensures
        r@ == a@ + b@ + c@,
{
    let mut s = a.to_owned();
    s.append(b);
    s.append(c);
    s
}

/// Appends `/` followed by `seg` to `s`.
pub fn push_seg(s: &mut String, seg: &str)
    ensures
        final(s)@ == old(s)@ + seq!['/'] + seg@,
{
    proof {
        reveal_strlit("/");
        assert("/"@ =~= seq!['/']);
    }
    s.append("/");
    s.append(seg);
}

/// `s` without its leading `/`, if it has one.
pub fn strip_leading_slash(s: &str) -> (r: &str)
    ensures
        r@ == strip_slash(s@),
{
    let n = s.unicode_len();
    if n > 0 && s.get_char(0) == '/' {
        let r = s.substring_char(1, n);
        proof {
            assert(r@ =~= s@.drop_first());
        }
        r
    } else {
        s
    }
}

/// Splits `s` on `sep`, as Rust's `split` does it.
pub fn split_char(s: &str, sep: char) -> (r: Vec<String>)
    ensures
        views_of(r@) =~= spec_split(s@, sep),
    decreases s@.len(),
{
    let n = s.unicode_len();
    let mut i: usize = 0;
    while i < n && s.get_char(i) != sep
        invariant
            0 <= i <= n,
            n == s@.len(),
            forall|j: int| 0 <= j < i ==> s@[j] != sep,
        decreases n - i,
    {
        i += 1;
    }
    if i == n {
        proof {
            lemma_split_no_sep(s@, sep);
        }
        let mut r: Vec<String> = Vec::new();
        r.push(s.to_owned());
        proof {
            assert(views_of(r@) =~= seq![s@]);
        }
        return r;
    }
    let head = s.substring_char(0, i).to_owned();
    let rest = s.substring_char(i + 1, n);
    proof {
        lemma_split_at_first_sep(s@, sep, i as int);
        assert(rest@ == s@.subrange(i as int + 1, s@.len() as int));
    }
    let mut r = split_char(rest, sep);
    r.insert(0, head);
    proof {
        assert(views_of(r@) =~= seq![head@] + views_of(r@.drop_first()));
    }
    r
}

/// True iff `s` is a well-formed path segment: non-empty and free of `/`.
pub fn seg_ok(s: &str) -> (r: bool)
    ensures
        r == seg_wf(s@),
{
    let n = s.unicode_len();
    if n == 0 {
        return false;
    }
    let mut i: usize = 0;
    while i < n
        invariant
            0 <= i <= n,
            n == s@.len(),
            forall|j: int| 0 <= j < i ==> s@[j] != '/',
        decreases n - i,
    {
        if s.get_char(i) == '/' {
            return false;
        }
        i += 1;
    }
    true
}

/// Lexicographic order on strings, character by character.
pub open spec fn spec_str_lt(a: Seq<char>, b: Seq<char>) -> bool
    decreases a.len(),
{
    if b.len() == 0 {
        false
    } else if a.len() == 0 {
        true
    } else if a[0] != b[0] {
        a[0] < b[0]
    } else {
        spec_str_lt(a.drop_first(), b.drop_first())
    }
}

/// `a` at or before `b` in lexicographic order.
pub open spec fn spec_str_le(a: Seq<char>, b: Seq<char>) -> bool {
    !spec_str_lt(b, a)
}

/// True iff `a` comes at or before `b` in lexicographic order.
pub fn str_le(a: &str, b: &str) -> (r: bool)
    ensures
        r == spec_str_le(a@, b@),
{
    let na = a.unicode_len();
    let nb = b.unicode_len();
    let mut i: usize = 0;
    proof {
        assert(a@.skip(0) =~= a@);
        assert(b@.skip(0) =~= b@);
    }
    loop
        invariant
            0 <= i <= na,
            i <= nb,
            na == a@.len(),
            nb == b@.len(),
            forall|j: int| 0 <= j < i ==> a@[j] == b@[j],
            spec_str_le(a@, b@) == spec_str_le(a@.skip(i as int), b@.skip(i as int)),
        decreases na - i,
    {
        if i == na || i == nb {
            proof {
                if i == na {
                    assert(a@.skip(i as int) =~= Seq::<char>::empty());
                } else {
                    assert(b@.skip(i as int) =~= Seq::<char>::empty());
                    assert(a@.skip(i as int).len() > 0);
                }
            }
            return i == na;
        }
        let ca = a.get_char(i);
        let cb = b.get_char(i);
        if ca != cb {
            proof {
                assert(a@.skip(i as int)[0] == ca);
                assert(b@.skip(i as int)[0] == cb);
            }
            return ca < cb;
        }
        proof {
            assert(a@.skip(i as int).drop_first() =~= a@.skip(i as int + 1));
            assert(b@.skip(i as int).drop_first() =~= b@.skip(i as int + 1));
        }
        i += 1;
    }
}

/// `s` with `x` inserted before the first element not below it.
pub open spec fn spec_insert_sorted(x: Seq<char>, s: Seq<Seq<char>>) -> Seq<Seq<char>>
    decreases s.len(),
{
    if s.len() == 0 {
        seq![x]
    } else if spec_str_le(x, s[0]) {
        seq![x] + s
    } else {
        seq![s[0]] + spec_insert_sorted(x, s.drop_first())
    }
}

/// The strings of `s` in lexicographic order, by insertion sort.
pub open spec fn spec_sort_strings(s: Seq<Seq<char>>) -> Seq<Seq<char>>
    decreases s.len(),
{
    if s.len() == 0 {
        Seq::empty()
    } else {
        spec_insert_sorted(s[0], spec_sort_strings(s.drop_first()))
    }
}

/// The order never holds both ways round.
proof fn lemma_str_lt_asym(a: Seq<char>, b: Seq<char>)
    requires
        spec_str_lt(a, b),
    ensures
        !spec_str_lt(b, a),
    decreases a.len(),
{
    if a.len() > 0 && b.len() > 0 && a[0] == b[0] {
        lemma_str_lt_asym(a.drop_first(), b.drop_first());
    }
}

/// The order is transitive.
proof fn lemma_str_lt_trans(a: Seq<char>, b: Seq<char>, c: Seq<char>)
    requires
        spec_str_lt(a, b),
        spec_str_lt(b, c),
    ensures
        spec_str_lt(a, c),
    decreases a.len(),
{
    if a.len() > 0 && b.len() > 0 && c.len() > 0 && a[0] == b[0] && b[0] == c[0] {
        lemma_str_lt_trans(a.drop_first(), b.drop_first(), c.drop_first());
    }
}

/// Nothing is below itself.
proof fn lemma_str_lt_irrefl(a: Seq<char>)
    ensures
        !spec_str_lt(a, a),
    decreases a.len(),
{
    if a.len() > 0 {
        lemma_str_lt_irrefl(a.drop_first());
    }
}

/// Two strings with neither below the other are equal.
proof fn lemma_str_lt_connected(a: Seq<char>, b: Seq<char>)
    requires
        !spec_str_lt(a, b),
        !spec_str_lt(b, a),
    ensures
        a == b,
    decreases a.len(),
{
    if a.len() == 0 && b.len() == 0 {
        assert(a =~= b);
    } else {
        assert(a.len() > 0 && b.len() > 0 && a[0] == b[0]);
        lemma_str_lt_connected(a.drop_first(), b.drop_first());
        assert(a.drop_first().len() == a.len() - 1);
        assert(b.drop_first().len() == b.len() - 1);
        assert(a.len() == b.len());
        assert forall|i: int| 0 <= i < a.len() implies a[i] == b[i] by {
            if i > 0 {
                assert(a[i] == a.drop_first()[i - 1]);
                assert(b[i] == b.drop_first()[i - 1]);
            }
        }
        assert(a =~= b);
    }
}

/// `spec_str_le` is transitive.
pub proof fn lemma_str_le_trans(a: Seq<char>, b: Seq<char>, c: Seq<char>)
    requires
        spec_str_le(a, b),
        spec_str_le(b, c),
    ensures
        spec_str_le(a, c),
{
    if spec_str_lt(c, a) {
        if spec_str_lt(b, c) {
            lemma_str_lt_trans(b, c, a);
            assert(false);
        } else {
            lemma_str_lt_connected(b, c);
            assert(false);
        }
    }
}

/// `s` is in lexicographic order.
pub open spec fn strings_sorted(s: Seq<Seq<char>>) -> bool {
    forall|i: int, j: int| 0 <= i <= j < s.len() ==> spec_str_le(#[trigger] s[i], #[trigger] s[j])
}

/// Every string of an insertion's result is the inserted one or one of
/// the originals.
proof fn lemma_insert_sorted_member(x: Seq<char>, s: Seq<Seq<char>>, j: int)
    requires
        0 <= j < spec_insert_sorted(x, s).len(),
    ensures
        spec_insert_sorted(x, s)[j] == x || s.contains(spec_insert_sorted(x, s)[j]),
    decreases s.len(),
{
    let r = spec_insert_sorted(x, s);
    if s.len() == 0 {
    } else if spec_str_le(x, s[0]) {
        if j > 0 {
            assert(r[j] == s[j - 1]);
        }
    } else {
        if j == 0 {
            assert(r[0] == s[0]);
        } else {
            lemma_insert_sorted_member(x, s.drop_first(), j - 1);
            assert(r[j] == spec_insert_sorted(x, s.drop_first())[j - 1]);
            if spec_insert_sorted(x, s.drop_first())[j - 1] != x {
                let k = choose|k: int|
                    0 <= k < s.drop_first().len() && s.drop_first()[k] == spec_insert_sorted(
                        x,
                        s.drop_first(),
                    )[j - 1];
                assert(s[k + 1] == s.drop_first()[k]);
            }
        }
    }
}

/// Inserting into a sorted list keeps it sorted.
proof fn lemma_insert_sorted_keeps_order(x: Seq<char>, s: Seq<Seq<char>>)
    requires
        strings_sorted(s),
    ensures
        strings_sorted(spec_insert_sorted(x, s)),
    decreases s.len(),
{
    let r = spec_insert_sorted(x, s);
    if s.len() == 0 {
        assert forall|i: int, j: int| 0 <= i <= j < r.len() implies spec_str_le(r[i], r[j]) by {
            lemma_str_lt_irrefl(x);
            assert(r[i] == x && r[j] == x);
        }
    } else if spec_str_le(x, s[0]) {
        assert forall|i: int, j: int| 0 <= i <= j < r.len() implies spec_str_le(r[i], r[j]) by {
            if i == 0 && j == 0 {
                lemma_str_lt_irrefl(x);
            } else if i == 0 && j > 0 {
                assert(r[j] == s[j - 1]);
                lemma_str_le_trans(x, s[0], s[j - 1]);
            } else {
                assert(r[i] == s[i - 1] && r[j] == s[j - 1]);
            }
        }
    } else {
        assert(spec_str_lt(s[0], x));
        let d = s.drop_first();
        assert(forall|i: int| 0 <= i < d.len() ==> d[i] == s[i + 1]);
        lemma_insert_sorted_keeps_order(x, d);
        let rd = spec_insert_sorted(x, d);
        assert forall|i: int, j: int| 0 <= i <= j < r.len() implies spec_str_le(r[i], r[j]) by {
            if i == 0 && j == 0 {
                assert(r[0] == s[0]);
                assert(spec_str_le(s[0], s[0]));
            } else if i == 0 && j > 0 {
                assert(r[j] == rd[j - 1]);
                lemma_insert_sorted_member(x, d, j - 1);
                if rd[j - 1] == x {
                    lemma_str_lt_asym(s[0], x);
                } else {
                    let k = choose|k: int| 0 <= k < d.len() && d[k] == rd[j - 1];
                    assert(spec_str_le(s[0], s[k + 1]));
                }
            } else {
                assert(r[i] == rd[i - 1] && r[j] == rd[j - 1]);
            }
        }
    }
}

/// The sorted copy really is sorted.
pub proof fn lemma_sort_strings_sorted(s: Seq<Seq<char>>)
    ensures
        strings_sorted(spec_sort_strings(s)),
    decreases s.len(),
{
    if s.len() == 0 {
    } else {
        lemma_sort_strings_sorted(s.drop_first());
        lemma_insert_sorted_keeps_order(s[0], spec_sort_strings(s.drop_first()));
    }
}

/// Where the scan stops is where the insertion happens.
proof fn lemma_insert_sorted_at(s: Seq<Seq<char>>, x: Seq<char>, idx: int)
    requires
        0 <= idx <= s.len(),
        forall|l: int| 0 <= l < idx ==> !spec_str_le(x, #[trigger] s[l]),
        idx < s.len() ==> spec_str_le(x, s[idx]),
    ensures
        spec_insert_sorted(x, s) =~= s.take(idx) + seq![x] + s.skip(idx),
    decreases idx,
{
    if idx == 0 {
        if s.len() == 0 {
            assert(s.take(0) =~= Seq::<Seq<char>>::empty());
            assert(s.skip(0) =~= Seq::<Seq<char>>::empty());
        } else {
            assert(s.take(0) =~= Seq::<Seq<char>>::empty());
            assert(s.skip(0) =~= s);
        }
    } else {
        assert(!spec_str_le(x, s[0]));
        lemma_insert_sorted_at(s.drop_first(), x, idx - 1);
        assert(s.drop_first().take(idx - 1) =~= s.take(idx).drop_first());
        assert(s.drop_first().skip(idx - 1) =~= s.skip(idx));
        assert(seq![s[0]] + (s.take(idx).drop_first() + seq![x] + s.skip(idx)) =~= s.take(idx)
            + seq![x] + s.skip(idx));
    }
}

/// Inserts `x` into `v` before the first element not below it.
pub fn insert_sorted(x: String, v: &mut Vec<String>)
    ensures
        views_of(final(v)@) =~= spec_insert_sorted(x@, views_of(old(v)@)),
{
    let mut idx: usize = 0;
    #[verifier::loop_isolation(false)]
    while idx < v.len() && !str_le(x.as_str(), v[idx].as_str())
        invariant
            0 <= idx <= v@.len(),
            v == old(v),
            forall|l: int| 0 <= l < idx ==> !spec_str_le(x@, #[trigger] views_of(v@)[l]),
        decreases v@.len() - idx,
    {
        idx += 1;
    }
    proof {
        lemma_insert_sorted_at(views_of(old(v)@), x@, idx as int);
    }
    v.insert(idx, x);
    proof {
        assert(views_of(v@) =~= views_of(old(v)@).take(idx as int) + seq![x@] + views_of(
            old(v)@,
        ).skip(idx as int));
    }
}

/// A copy of `v` sorted lexicographically.
pub fn sort_strings(v: &Vec<String>) -> (r: Vec<String>)
    ensures
        views_of(r@) =~= spec_sort_strings(views_of(v@)),
{
    let r = sort_strings_from(v, 0);
    proof {
        assert(views_of(v@).skip(0) =~= views_of(v@));
    }
    r
}

/// A sorted copy of the tail of `v` that starts at `i`.
fn sort_strings_from(v: &Vec<String>, i: usize) -> (r: Vec<String>)
    requires
        i <= v@.len(),
    ensures
        views_of(r@) =~= spec_sort_strings(views_of(v@).skip(i as int)),
    decreases v@.len() - i,
{
    if i == v.len() {
        proof {
            assert(views_of(v@).skip(i as int) =~= Seq::<Seq<char>>::empty());
        }
        Vec::new()
    } else {
        let mut r = sort_strings_from(v, i + 1);
        insert_sorted(v[i].clone(), &mut r);
        proof {
            let tail = views_of(v@).skip(i as int);
            assert(tail[0] == v@[i as int]@);
            assert(tail.drop_first() =~= views_of(v@).skip(i as int + 1));
        }
        r
    }
}

} // verus!
