//! What lists hold.
use vstd::prelude::*;

verus! {

/// A list into which an item is put holds the items it held, and that one.
pub proof fn lemma_insert_contains<T>(s: Seq<T>, i: int, x: T)
    requires
        0 <= i <= s.len(),
    ensures
        forall|y: T| #[trigger] s.insert(i, x).contains(y) <==> s.contains(y) || y == x,
{
    let all = s.insert(i, x);
    assert forall|y: T| #[trigger] all.contains(y) <==> s.contains(y) || y == x by {
        if all.contains(y) {
            let k = choose|k: int| 0 <= k < all.len() && all[k] == y;
            if k < i {
                assert(s[k] == y);
            } else if k > i {
                assert(s[k - 1] == y);
            }
        }
        if s.contains(y) {
            let k = choose|k: int| 0 <= k < s.len() && s[k] == y;
            if k < i {
                assert(all[k] == y);
            } else {
                assert(all[k + 1] == y);
            }
        }
        if y == x {
            assert(all[i] == y);
        }
    }
}

/// A list with one more item at its end holds the items it held, and that one.
pub proof fn lemma_push_contains<T>(s: Seq<T>, x: T)
    ensures
        forall|y: T| #[trigger] s.push(x).contains(y) <==> s.contains(y) || y == x,
{
    lemma_insert_contains(s, s.len() as int, x);
    assert(s.insert(s.len() as int, x) =~= s.push(x));
}

/// A list holds its last item, and those of the list without it.
pub proof fn lemma_last_contains<T>(s: Seq<T>)
    requires
        s.len() > 0,
    ensures
        forall|y: T|
            #![trigger s.contains(y)]
            #![trigger s.drop_last().contains(y)]
            s.contains(y) <==> s.drop_last().contains(y) || y == s.last(),
{
    lemma_push_contains(s.drop_last(), s.last());
    assert(s.drop_last().push(s.last()) =~= s);
}

/// Two lists joined hold the items of both.
pub proof fn lemma_add_contains<T>(a: Seq<T>, b: Seq<T>)
    ensures
        forall|y: T| #[trigger] (a + b).contains(y) <==> a.contains(y) || b.contains(y),
{
    let s = a + b;
    assert forall|y: T| #[trigger] s.contains(y) <==> a.contains(y) || b.contains(y) by {
        if a.contains(y) {
            let k = choose|k: int| 0 <= k < a.len() && a[k] == y;
            assert(s[k] == y);
        }
        if b.contains(y) {
            let k = choose|k: int| 0 <= k < b.len() && b[k] == y;
            assert(s[a.len() + k] == y);
        }
        if s.contains(y) {
            let k = choose|k: int| 0 <= k < s.len() && s[k] == y;
            if k < a.len() {
                assert(a[k] == y);
            } else {
                assert(b[k - a.len()] == y);
            }
        }
    }
}

} // verus!
