use vstd::prelude::*;

verus! {

/// `a` names a strict ancestor of the node at `p`: `p` is `a`, a dot, and more.
pub open spec fn is_strict_ancestor(a: Seq<char>, p: Seq<char>) -> bool {
    &&& a.len() < p.len()
    &&& p[a.len() as int] == '.'
    &&& p.subrange(0, a.len() as int) == a
}

/// `k` is `p` itself or one of its strict ancestors: a write to `p` touches `k`.
pub open spec fn on_path(k: Seq<char>, p: Seq<char>) -> bool {
    k == p || is_strict_ancestor(k, p)
}

/// The full path of the node at `r` below the node at `p`.
pub open spec fn child_key(p: Seq<char>, r: Seq<char>) -> Seq<char> {
    p + seq!['.'] + r
}

/// The path of `k` relative to its ancestor `p`.
pub open spec fn relative_key(p: Seq<char>, k: Seq<char>) -> Seq<char> {
    k.subrange(p.len() as int + 1, k.len() as int)
}

pub proof fn lemma_child_key(p: Seq<char>, r: Seq<char>)
    ensures
        is_strict_ancestor(p, child_key(p, r)),
        relative_key(p, child_key(p, r)) == r,
{
    let k = child_key(p, r);
    assert(k[p.len() as int] == '.');
    assert(k.subrange(0, p.len() as int) =~= p);
    assert(relative_key(p, k) =~= r);
}

pub proof fn lemma_relative_key(p: Seq<char>, k: Seq<char>)
    requires
        is_strict_ancestor(p, k),
    ensures
        child_key(p, relative_key(p, k)) == k,
{
    assert(child_key(p, relative_key(p, k)) =~= k);
}

/// The strict ancestors of `p` of one length are one node.
pub proof fn lemma_ancestor_by_length(a: Seq<char>, b: Seq<char>, p: Seq<char>)
    requires
        is_strict_ancestor(a, p),
        is_strict_ancestor(b, p),
        a.len() == b.len(),
    ensures
        a == b,
{
}

/// `s` contains no dot: it is a single path segment.
pub open spec fn is_segment(s: Seq<char>) -> bool {
    forall|i: int| 0 <= i < s.len() ==> s[i] != '.'
}

/// Whether `s` is a single path segment.
pub fn segment_check(s: &str) -> (r: bool)
    ensures
        r == is_segment(s@),
{
    let len = s.unicode_len();
    let mut i: usize = 0;
    while i < len
        invariant
            len == s@.len(),
            i <= len,
            forall|j: int| 0 <= j < i ==> s@[j] != '.',
        decreases len - i,
    {
        if char_at(s, i) == '.' {
            return false;
        }
        i = i + 1;
    }
    true
}

/// The character at `i` of `s`, where `i` counts characters.
fn char_at(s: &str, i: usize) -> (c: char)
    requires
        i < s@.len(),
    ensures
        c == s@[i as int],
{
    s.get_char(i)
}

/// The path of `child` relative to `parent`, when `child` lies strictly below it.
pub fn relative_path(parent: &str, child: &str) -> (r: Option<String>)
    ensures
        r is Some <==> is_strict_ancestor(parent@, child@),
        r matches Some(s) ==> s@ == relative_key(parent@, child@),
{
    let plen = parent.unicode_len();
    let clen = child.unicode_len();
    if plen >= clen {
        return None;
    }
    if char_at(child, plen) != '.' {
        return None;
    }
    let mut i: usize = 0;
    while i < plen
        invariant
            plen == parent@.len(),
            clen == child@.len(),
            plen < clen,
            i <= plen,
            forall|j: int| 0 <= j < i ==> child@[j] == parent@[j],
        decreases plen - i,
    {
        if char_at(child, i) != char_at(parent, i) {
            assert(child@.subrange(0, plen as int)[i as int] != parent@[i as int]);
            return None;
        }
        i = i + 1;
    }
    assert(child@.subrange(0, plen as int) =~= parent@);
    Some(String::from_str(child.substring_char(plen + 1, clen)))
}

/// The full path of `rel` below `parent`.
pub fn join_path(parent: &str, rel: &str) -> (r: String)
    ensures
        r@ == child_key(parent@, rel@),
{
    let dot = ".";
    proof {
        reveal_strlit(".");
    }
    let s = String::from_str(parent).concat(dot).concat(rel);
    assert(s@ =~= child_key(parent@, rel@));
    s
}

} // verus!

verus! {

/// A node strictly below `p` is neither `p` nor one of its ancestors.
pub proof fn lemma_descendant_not_on_path(p: Seq<char>, k: Seq<char>)
    requires
        is_strict_ancestor(p, k),
    ensures
        !on_path(k, p),
{
}

} // verus!

verus! {

/// Ancestry is transitive.
pub proof fn lemma_ancestor_trans(a: Seq<char>, b: Seq<char>, c: Seq<char>)
    requires
        is_strict_ancestor(a, b),
        is_strict_ancestor(b, c),
    ensures
        is_strict_ancestor(a, c),
{
    assert(c[a.len() as int] == c.subrange(0, b.len() as int)[a.len() as int]);
    assert(c.subrange(0, a.len() as int) =~= c.subrange(0, b.len() as int).subrange(0, a.len() as int));
}

/// An ancestor of a node on the path to `p` is itself on that path.
pub proof fn lemma_ancestor_on_path(a: Seq<char>, k: Seq<char>, p: Seq<char>)
    requires
        is_strict_ancestor(a, k),
        on_path(k, p),
    ensures
        is_strict_ancestor(a, p),
{
    if k != p {
        lemma_ancestor_trans(a, k, p);
    }
}

/// A strict ancestor of the node at `r` below `p` is `p`, an ancestor of `p`,
/// or the node at an ancestor of `r` below `p`.
pub proof fn lemma_ancestor_of_child(a: Seq<char>, p: Seq<char>, r: Seq<char>)
    requires
        is_strict_ancestor(a, child_key(p, r)),
    ensures
        on_path(a, p) || (is_strict_ancestor(p, a) && is_strict_ancestor(relative_key(p, a), r)),
{
    let k = child_key(p, r);
    lemma_child_key(p, r);
    if a.len() < p.len() {
        assert(p[a.len() as int] == k[a.len() as int]);
        assert(p.subrange(0, a.len() as int) =~= k.subrange(0, a.len() as int));
    } else if a.len() == p.len() {
        assert(a =~= k.subrange(0, p.len() as int));
    } else {
        assert(a[p.len() as int] == k[p.len() as int]);
        assert(a.subrange(0, p.len() as int) =~= k.subrange(0, p.len() as int));
        let ra = relative_key(p, a);
        assert(r[ra.len() as int] == k[a.len() as int]);
        assert(r.subrange(0, ra.len() as int) =~= ra);
    }
}

/// Below `p`, ancestry of relative paths is ancestry of full paths.
pub proof fn lemma_child_ancestor(p: Seq<char>, r1: Seq<char>, r2: Seq<char>)
    requires
        is_strict_ancestor(r1, r2),
    ensures
        is_strict_ancestor(child_key(p, r1), child_key(p, r2)),
{
    let k2 = child_key(p, r2);
    let k1 = child_key(p, r1);
    assert(k2[k1.len() as int] == r2[r1.len() as int]);
    assert(k2.subrange(0, k1.len() as int) =~= k1);
}

} // verus!
