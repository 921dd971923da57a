//! Ranking by score, best first.
use vstd::prelude::*;

use crate::lists;

verus! {

/// How a score compares with others: a greater number has a greater key, and the
/// two zeros have the same one. The score is given by the bits of its `f32`
/// number; a sign bit, and below it the magnitude. Bits that are not a number have
/// a key too, beyond those of all numbers of their sign; it says nothing of them.
pub open spec fn score_key(bits: u32) -> int {
    if bits < 0x8000_0000 {
        bits as int
    } else {
        0x8000_0000 - bits
    }
}

/// Computes [`score_key`].
pub fn key_of_score(bits: u32) -> (r: i64)
    ensures
        r == score_key(bits),
{
    if bits < 0x8000_0000 {
        bits as i64
    } else {
        0x8000_0000i64 - bits as i64
    }
}

/// Where an item with a key comes in a ranking: in front of the first one with a
/// smaller key.
pub open spec fn rank_place(order: Seq<int>, keys: Seq<int>, key: int) -> nat
    decreases order.len(),
{
    if order.len() == 0 {
        0
    } else {
        let before = rank_place(order.drop_last(), keys, key);
        if before < order.len() - 1 || keys[order.last()] < key {
            before
        } else {
            order.len()
        }
    }
}

/// The places of items, those with a great key first; of items with the same key,
/// the one that stands first comes first.
pub open spec fn ranking(keys: Seq<int>) -> Seq<int> {
    ranking_of(keys, keys.len())
}

/// The ranking of the first `n` items.
pub open spec fn ranking_of(keys: Seq<int>, n: nat) -> Seq<int>
    decreases n,
{
    if n == 0 {
        seq![]
    } else {
        let before = ranking_of(keys, (n - 1) as nat);
        before.insert(rank_place(before, keys, keys[n - 1]) as int, n - 1)
    }
}

/// The keys of scores.
pub open spec fn score_keys(scores: Seq<u32>) -> Seq<int> {
    scores.map_values(|s: u32| score_key(s))
}

/// The places as numbers.
pub open spec fn place_numbers(places: Seq<usize>) -> Seq<int> {
    places.map_values(|p: usize| p as int)
}

/// The first of a sequence, at most `n`.
pub open spec fn at_most<T>(s: Seq<T>, n: nat) -> Seq<T> {
    if s.len() <= n {
        s
    } else {
        s.take(n as int)
    }
}

proof fn lemma_rank_place(order: Seq<int>, keys: Seq<int>, key: int)
    ensures
        rank_place(order, keys, key) <= order.len(),
        forall|j: int|
            0 <= j < rank_place(order, keys, key) ==> keys[#[trigger] order[j]] >= key,
        rank_place(order, keys, key) < order.len() ==> keys[order[rank_place(
            order,
            keys,
            key,
        ) as int]] < key,
    decreases order.len(),
{
    if order.len() > 0 {
        let before = order.drop_last();
        lemma_rank_place(before, keys, key);
        assert forall|j: int| 0 <= j < before.len() implies before[j] == order[j] by {}
    }
}

proof fn lemma_rank_place_is(order: Seq<int>, keys: Seq<int>, key: int, p: nat)
    requires
        p <= order.len(),
        forall|j: int| 0 <= j < p ==> keys[#[trigger] order[j]] >= key,
        p < order.len() ==> keys[order[p as int]] < key,
    ensures
        rank_place(order, keys, key) == p,
{
    lemma_rank_place(order, keys, key);
    let q = rank_place(order, keys, key);
    if p < q {
        assert(keys[order[p as int]] >= key);
    }
    if q < p {
        assert(keys[order[q as int]] >= key);
    }
}

proof fn lemma_insert_at_most(order: Seq<int>, keys: Seq<int>, x: int, n: nat)
    ensures
        ({
            let top = at_most(order, n);
            at_most(order.insert(rank_place(order, keys, keys[x]) as int, x), n) == at_most(
                top.insert(rank_place(top, keys, keys[x]) as int, x),
                n,
            )
        }),
{
    let top = at_most(order, n);
    let p = rank_place(order, keys, keys[x]);
    lemma_rank_place(order, keys, keys[x]);
    let q = if p <= top.len() {
        p
    } else {
        top.len()
    };
    lemma_rank_place_is(top, keys, keys[x], q);
    assert(at_most(order.insert(p as int, x), n) =~= at_most(top.insert(q as int, x), n));
}

/// Keys as numbers.
pub open spec fn key_numbers(keys: Seq<i64>) -> Seq<int> {
    keys.map_values(|k: i64| k as int)
}

/// The places of the items with the greatest keys, at most `limit`, the greatest
/// first.
pub fn top_places(keys: &Vec<i64>, limit: usize) -> (r: Vec<usize>)
    ensures
        place_numbers(r@) == at_most(ranking(key_numbers(keys@)), limit as nat),
        forall|j: int| 0 <= j < r@.len() ==> #[trigger] r@[j] < keys@.len(),
{
    let ghost all = key_numbers(keys@);
    let mut best: Vec<usize> = Vec::new();
    let mut i: usize = 0;
    assert(place_numbers(best@) =~= at_most(ranking_of(all, 0), limit as nat));
    while i < keys.len()
        invariant
            i <= keys@.len(),
            all == key_numbers(keys@),
            best@.len() <= limit,
            place_numbers(best@) == at_most(ranking_of(all, i as nat), limit as nat),
            forall|j: int| 0 <= j < best@.len() ==> #[trigger] best@[j] < i,
        decreases keys@.len() - i,
    {
        let key: i64 = keys[i];
        let ghost order = place_numbers(best@);
        let mut p: usize = 0;
        while p < best.len() && keys[best[p]] >= key
            invariant
                p <= best@.len(),
                i < keys@.len(),
                all == key_numbers(keys@),
                order == place_numbers(best@),
                key == all[i as int],
                forall|j: int| 0 <= j < best@.len() ==> #[trigger] best@[j] < i,
                forall|j: int| 0 <= j < p ==> all[#[trigger] order[j]] >= key,
            decreases best@.len() - p,
        {
            assert(all[order[p as int]] >= key);
            p = p + 1;
        }
        proof {
            if p < best@.len() {
                assert(all[order[p as int]] < key);
            }
            lemma_rank_place_is(order, all, key as int, p as nat);
            lemma_insert_at_most(ranking_of(all, i as nat), all, i as int, limit as nat);
        }
        if p < limit {
            best.insert(p, i);
            assert(place_numbers(best@) =~= order.insert(p as int, i as int));
            if best.len() > limit {
                best.pop();
                assert(place_numbers(best@) =~= order.insert(p as int, i as int).take(
                    limit as int,
                ));
            }
        } else {
            assert(place_numbers(best@) =~= at_most(
                order.insert(p as int, i as int),
                limit as nat,
            ));
        }
        i = i + 1;
    }
    best
}

/// The places of the items with the best scores, at most `limit`, best first.
pub fn top_ranked(scores: &Vec<u32>, limit: usize) -> (r: Vec<usize>)
    ensures
        place_numbers(r@) == at_most(ranking(score_keys(scores@)), limit as nat),
        forall|j: int| 0 <= j < r@.len() ==> #[trigger] r@[j] < scores@.len(),
{
    let mut keys: Vec<i64> = Vec::new();
    let mut i: usize = 0;
    while i < scores.len()
        invariant
            i <= scores@.len(),
            key_numbers(keys@) =~= score_keys(scores@).take(i as int),
        decreases scores@.len() - i,
    {
        let ghost had = key_numbers(keys@);
        let key: i64 = key_of_score(scores[i]);
        keys.push(key);
        assert(key_numbers(keys@) =~= had.push(key as int));
        i = i + 1;
    }
    assert(key_numbers(keys@) =~= score_keys(scores@));
    assert(keys@.len() == key_numbers(keys@).len());
    top_places(&keys, limit)
}

// ── laws ─────────────────────────────────────────────────────────────────────

proof fn lemma_ranking(keys: Seq<int>, n: nat)
    requires
        n <= keys.len(),
    ensures
        ranking_of(keys, n).len() == n,
        forall|x: int| #[trigger] ranking_of(keys, n).contains(x) <==> 0 <= x < n,
        forall|i: int, j: int|
            0 <= i < j < n ==> ranked_before(
                keys,
                #[trigger] ranking_of(keys, n)[i],
                #[trigger] ranking_of(keys, n)[j],
            ),
    decreases n,
{
    if n > 0 {
        let before = ranking_of(keys, (n - 1) as nat);
        let x = n - 1;
        lemma_ranking(keys, (n - 1) as nat);
        lemma_rank_place(before, keys, keys[x]);
        let p = rank_place(before, keys, keys[x]) as int;
        let order = before.insert(p, x);
        lists::lemma_insert_contains(before, p, x);
        assert forall|y: int| #[trigger] order.contains(y) <==> 0 <= y < n by {
            assert(before.contains(y) <==> 0 <= y < x);
        }
        assert forall|i: int, j: int| 0 <= i < j < n implies ranked_before(
            keys,
            #[trigger] order[i],
            #[trigger] order[j],
        ) by {
            if j == p {
                assert(order[i] == before[i]);
                assert(before.contains(before[i]));
            } else if i == p {
                let b = before[j - 1];
                assert(order[j] == b);
                if p < j - 1 {
                    assert(ranked_before(keys, before[p], b));
                }
            } else {
                let a = if i < p {
                    i
                } else {
                    i - 1
                };
                let b = if j < p {
                    j
                } else {
                    j - 1
                };
                assert(order[i] == before[a] && order[j] == before[b]);
                assert(ranked_before(keys, before[a], before[b]));
            }
        }
    }
}

/// Whether the item at `x` is ranked before the one at `y`: it has a greater key,
/// or the same key and stands first.
pub open spec fn ranked_before(keys: Seq<int>, x: int, y: int) -> bool {
    keys[x] > keys[y] || (keys[x] == keys[y] && x < y)
}

/// A ranking has every item once, and each item is ranked before those that
/// follow it.
pub proof fn law_ranking(keys: Seq<int>)
    ensures
        ranking(keys).len() == keys.len(),
        ranking(keys).no_duplicates(),
        forall|x: int| #[trigger] ranking(keys).contains(x) <==> 0 <= x < keys.len(),
        forall|i: int, j: int|
            0 <= i < j < keys.len() ==> ranked_before(
                keys,
                #[trigger] ranking(keys)[i],
                #[trigger] ranking(keys)[j],
            ),
{
    lemma_ranking(keys, keys.len());
    let r = ranking(keys);
    assert forall|i: int, j: int| 0 <= i < r.len() && 0 <= j < r.len() && i != j implies r[i]
        != r[j] by {
        if i < j {
            assert(ranked_before(keys, r[i], r[j]));
        } else {
            assert(ranked_before(keys, r[j], r[i]));
        }
    }
}

/// Scores compare as their magnitudes do: positive ones upwards, negative ones
/// downwards, and every negative one is below zero.
pub proof fn law_score_order(a: u32, b: u32)
    ensures
        a < 0x8000_0000 && b < 0x8000_0000 ==> (score_key(a) < score_key(b) <==> a < b),
        a >= 0x8000_0000 && b >= 0x8000_0000 ==> (score_key(a) < score_key(b) <==> a > b),
        a >= 0x8000_0000 && b < 0x8000_0000 ==> (score_key(a) < score_key(b) <==> !(a
            == 0x8000_0000 && b == 0)),
{
}

/// A ranking goes from great keys to small ones; items with the same key stay in the
/// order in which they stand.
pub proof fn law_ranking_order(keys: Seq<int>, i: int, j: int)
    requires
        0 <= i < j < keys.len(),
    ensures
        ranking(keys).len() == keys.len(),
        0 <= ranking(keys)[i] < keys.len(),
        0 <= ranking(keys)[j] < keys.len(),
        ranking(keys)[i] != ranking(keys)[j],
        keys[ranking(keys)[i]] >= keys[ranking(keys)[j]],
        keys[ranking(keys)[i]] == keys[ranking(keys)[j]] ==> ranking(keys)[i] < ranking(keys)[j],
{
    law_ranking(keys);
    let r = ranking(keys);
    assert(r.contains(r[i]) && r.contains(r[j]));
    assert(ranked_before(keys, r[i], r[j]));
}

/// The first of a sequence are as many as were asked for, or all if there are fewer,
/// and stand where they stood.
pub proof fn law_at_most<T>(s: Seq<T>, n: nat)
    ensures
        at_most(s, n).len() == if s.len() <= n {
            s.len()
        } else {
            n
        },
        forall|i: int| 0 <= i < at_most(s, n).len() ==> #[trigger] at_most(s, n)[i] == s[i],
{
}

} // verus!
