//! Facts about sequences used by the table walks.
use vstd::prelude::*;

verus! {

/// `s[..i+1]` holds `k` exactly when `s[..i]` does or `k` is `s[i]`.
pub proof fn lemma_prefix_contains<A>(s: Seq<A>, i: int, k: A)
    requires
        0 <= i < s.len(),
    ensures
        s.subrange(0, i + 1).contains(k) <==> (s.subrange(0, i).contains(k) || k == s[i]),
{
    if s.subrange(0, i + 1).contains(k) {
        let j = choose|j: int| 0 <= j < i + 1 && #[trigger] s.subrange(0, i + 1)[j] == k;
        if j < i {
            assert(s.subrange(0, i)[j] == k);
        }
    }
    if s.subrange(0, i).contains(k) {
        let j = choose|j: int| 0 <= j < i && #[trigger] s.subrange(0, i)[j] == k;
        assert(s.subrange(0, i + 1)[j] == k);
    }
    if k == s[i] {
        assert(s.subrange(0, i + 1)[i] == k);
    }
}

/// Pushing a new element keeps a sequence free of duplicates and adds the
/// element to its set.
pub proof fn lemma_push_distinct<A>(s: Seq<A>, x: A)
    requires
        s.no_duplicates(),
        !s.contains(x),
    ensures
        s.push(x).no_duplicates(),
        s.push(x).to_set() == s.to_set().insert(x),
{
    let t = s.push(x);
    assert forall|a: int, b: int| 0 <= a < t.len() && 0 <= b < t.len() && a != b implies t[a] != t[b] by {
        if a == s.len() {
            assert(s[b] == t[b]);
        } else if b == s.len() {
            assert(s[a] == t[a]);
        }
    }
    assert forall|k: A| #[trigger] t.contains(k) <==> s.contains(k) || k == x by {
        if t.contains(k) {
            let j = choose|j: int| 0 <= j < t.len() && #[trigger] t[j] == k;
            if j < s.len() {
                assert(s[j] == k);
            }
        }
        if s.contains(k) {
            let j = choose|j: int| 0 <= j < s.len() && #[trigger] s[j] == k;
            assert(t[j] == k);
        }
        if k == x {
            assert(t[s.len() as int] == x);
        }
    }
    assert(t.to_set() =~= s.to_set().insert(x));
}

} // verus!
