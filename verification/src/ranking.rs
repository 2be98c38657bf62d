//! Ranking: which matches come first.
//!
//! Every entry of a collection has a score or none. The ranking holds the
//! places of the entries that have one, highest score first and, among equal
//! scores, in the order of the collection, and is cut off at a limit.
//! [`ranking`] builds it, [`is_ranking`] says what it is, and the two proof
//! functions show that what is built is what is meant, and nothing else is.

use vstd::prelude::*;

verus! {

/// Whether entry `i` has a score: it matched the query.
pub open spec fn is_match(scores: Seq<Option<i64>>, i: int) -> bool {
    0 <= i < scores.len() && scores[i] is Some
}

/// Whether the match `i` comes before the match `j` in the ranking: it has
/// the higher score, or the same score and the earlier place in the
/// collection.
pub open spec fn outranks(scores: Seq<Option<i64>>, i: int, j: int) -> bool {
    is_match(scores, i) && is_match(scores, j) && (scores[i]->0 > scores[j]->0 || (scores[i]->0
        == scores[j]->0 && i < j))
}

/// Where a match with `score` enters `order`, looking from position `k` on:
/// in front of the first member whose score is lower, and so behind every
/// member of the same score.
pub open spec fn entry_place(scores: Seq<Option<i64>>, order: Seq<int>, score: i64, k: int) -> int
    decreases order.len() - k,
{
    if k < 0 || k >= order.len() {
        order.len() as int
    } else if scores[order[k]] matches Some(s) && s >= score {
        entry_place(scores, order, score, k + 1)
    } else {
        k
    }
}

/// `order` after the match `n` has been taken in at position `p`: put in
/// there if that is within the limit, and the last member dropped if the
/// order has grown beyond the limit.
pub open spec fn taken_in(order: Seq<int>, limit: nat, p: int, n: int) -> Seq<int> {
    if p >= limit {
        order
    } else if order.len() < limit {
        order.insert(p, n)
    } else {
        order.insert(p, n).drop_last()
    }
}

/// The ranking of the matches among the first `n` scores, cut off at
/// `limit`: the ranking of those before the last, with the last taken in if
/// it is a match.
pub open spec fn ranking_of_first(scores: Seq<Option<i64>>, limit: nat, n: int) -> Seq<int>
    decreases n,
{
    if n <= 0 {
        Seq::empty()
    } else {
        let order = ranking_of_first(scores, limit, n - 1);
        match scores[n - 1] {
            Some(score) => taken_in(order, limit, entry_place(scores, order, score, 0), n - 1),
            None => order,
        }
    }
}

/// The ranking of the matches among `scores`, cut off at `limit`: the
/// places of the entries that have a score, highest score first and, among
/// equal scores, in the order of the collection. [`is_ranking`] says what
/// makes it the ranking, and it is the only sequence that does.
pub open spec fn ranking(scores: Seq<Option<i64>>, limit: nat) -> Seq<int> {
    ranking_of_first(scores, limit, scores.len() as int)
}

/// Whether `order` ranks the matches among `scores` up to `limit`: it holds
/// matches only, best first, and a match that it leaves out comes after all
/// that it holds, which are then `limit` many.
pub open spec fn is_ranking(scores: Seq<Option<i64>>, limit: nat, order: Seq<int>) -> bool {
    &&& order.len() <= limit
    &&& forall|k: int| 0 <= k < order.len() ==> is_match(scores, #[trigger] order[k])
    &&& forall|a: int, b: int|
        0 <= a < b < order.len() ==> outranks(scores, #[trigger] order[a], #[trigger] order[b])
    &&& forall|i: int, k: int|
        is_match(scores, i) && !order.contains(i) && 0 <= k < order.len() ==> #[trigger] outranks(
            scores,
            order[k],
            i,
        )
    &&& forall|i: int| #[trigger] is_match(scores, i) && !order.contains(i) ==> order.len() == limit
}

/// The places of a sequence of indices.
pub open spec fn places(order: Seq<usize>) -> Seq<int> {
    order.map_values(|i: usize| i as int)
}

/// Two rankings of the same scores agree on their first `k` places.
proof fn lemma_rankings_agree(
    scores: Seq<Option<i64>>,
    limit: nat,
    a: Seq<int>,
    b: Seq<int>,
    k: int,
)
    requires
        is_ranking(scores, limit, a),
        is_ranking(scores, limit, b),
        0 <= k <= a.len(),
        k <= b.len(),
    ensures
        a.take(k) == b.take(k),
    decreases k,
{
    if k == 0 {
        assert(a.take(0) =~= b.take(0));
    } else {
        lemma_rankings_agree(scores, limit, a, b, k - 1);
        let x = a[k - 1];
        let y = b[k - 1];
        assert(is_match(scores, x) && is_match(scores, y));
        assert forall|m: int| 0 <= m < k - 1 implies a[m] == b[m] by {
            assert(a.take(k - 1)[m] == b.take(k - 1)[m]);
        }
        if x != y {
            if outranks(scores, x, y) {
                if b.contains(x) {
                    let m = choose|m: int| 0 <= m < b.len() && b[m] == x;
                    if m < k - 1 {
                        assert(outranks(scores, a[m], a[k - 1]));
                    } else {
                        assert(outranks(scores, b[k - 1], b[m]));
                    }
                } else {
                    assert(outranks(scores, b[k - 1], x));
                }
            } else {
                assert(outranks(scores, y, x));
                if a.contains(y) {
                    let m = choose|m: int| 0 <= m < a.len() && a[m] == y;
                    if m < k - 1 {
                        assert(outranks(scores, b[m], b[k - 1]));
                    } else {
                        assert(outranks(scores, a[k - 1], a[m]));
                    }
                } else {
                    assert(outranks(scores, a[k - 1], y));
                }
            }
        }
        assert(a.take(k) =~= a.take(k - 1).push(x));
        assert(b.take(k) =~= b.take(k - 1).push(y));
    }
}

/// Of two rankings of the same scores neither is longer than the other.
proof fn lemma_ranking_not_longer(scores: Seq<Option<i64>>, limit: nat, a: Seq<int>, b: Seq<int>)
    requires
        is_ranking(scores, limit, a),
        is_ranking(scores, limit, b),
    ensures
        b.len() <= a.len(),
{
    if a.len() < b.len() {
        let n = a.len() as int;
        lemma_rankings_agree(scores, limit, a, b, n);
        let i = b[n];
        assert(is_match(scores, i));
        if a.contains(i) {
            let m = choose|m: int| 0 <= m < a.len() && a[m] == i;
            assert(a.take(n)[m] == b.take(n)[m]);
            assert(outranks(scores, b[m], b[n]));
        }
    }
}

/// The ranking is determined by the scores: two sequences that both rank
/// the matches among `scores` up to `limit` are the same sequence.
pub proof fn lemma_ranking_is_unique(
    scores: Seq<Option<i64>>,
    limit: nat,
    a: Seq<int>,
    b: Seq<int>,
)
    requires
        is_ranking(scores, limit, a),
        is_ranking(scores, limit, b),
    ensures
        a == b,
{
    lemma_ranking_not_longer(scores, limit, a, b);
    lemma_ranking_not_longer(scores, limit, b, a);
    lemma_rankings_agree(scores, limit, a, b, a.len() as int);
    assert(a.take(a.len() as int) == a);
    assert(b.take(b.len() as int) == b);
}

/// The members in front of the entry place have at least the score that
/// enters, the member at it has less.
proof fn lemma_entry_place(scores: Seq<Option<i64>>, order: Seq<int>, score: i64, k: int)
    requires
        0 <= k <= order.len(),
    ensures
        k <= entry_place(scores, order, score, k) <= order.len(),
        forall|j: int|
            k <= j < entry_place(scores, order, score, k) ==> (scores[#[trigger] order[j]]
                matches Some(s) && s >= score),
        entry_place(scores, order, score, k) < order.len() ==> !(scores[order[entry_place(
            scores,
            order,
            score,
            k,
        )]] matches Some(s) && s >= score),
    decreases order.len() - k,
{
    if k < order.len() && (scores[order[k]] matches Some(s) && s >= score) {
        lemma_entry_place(scores, order, score, k + 1);
    }
}

/// Taking the match `n` in at its place turns a ranking of the first `n`
/// scores into one of the first `n + 1`.
proof fn lemma_take_in(scores: Seq<Option<i64>>, limit: nat, order: Seq<int>, p: int, n: int)
    requires
        0 <= n < scores.len(),
        scores[n] is Some,
        is_ranking(scores.take(n), limit, order),
        0 <= p <= order.len(),
        forall|k: int| 0 <= k < p ==> scores[#[trigger] order[k]]->0 >= scores[n]->0,
        p < order.len() ==> scores[order[p]]->0 < scores[n]->0,
    ensures
        is_ranking(scores.take(n + 1), limit, taken_in(order, limit, p, n)),
{
    let before = scores.take(n);
    let now = scores.take(n + 1);
    let next = taken_in(order, limit, p, n);
    let grown = order.insert(p, n);
    assert forall|i: int, j: int| outranks(before, i, j) implies outranks(now, i, j) by {}
    assert forall|k: int| 0 <= k < order.len() implies is_match(now, #[trigger] order[k]) && order[k]
        < n by {
        assert(is_match(before, order[k]));
    }
    // Every member in front of `p` comes before `n`, every member from `p` on after it.
    assert forall|k: int| 0 <= k < order.len() implies if k < p {
        outranks(now, #[trigger] order[k], n)
    } else {
        outranks(now, n, order[k])
    } by {
        assert(is_match(before, order[k]));
        if k > p {
            assert(outranks(before, order[p], order[k]));
        }
    }
    assert forall|a: int, b: int| 0 <= a < b < grown.len() implies outranks(
        now,
        #[trigger] grown[a],
        #[trigger] grown[b],
    ) by {
        let from_a = if a < p { a } else { a - 1 };
        let from_b = if b < p { b } else { b - 1 };
        if a != p && b != p {
            assert(outranks(before, order[from_a], order[from_b]));
        } else if a == p {
            assert(outranks(now, n, order[from_b]));
        } else {
            assert(outranks(now, order[from_a], n));
        }
    }
    assert forall|k: int| 0 <= k < next.len() implies is_match(now, #[trigger] next[k]) by {
        if p < limit {
            if k != p {
                let from = if k < p { k } else { k - 1 };
                assert(is_match(now, order[from]));
            }
        }
    }
    assert forall|i: int| #[trigger] is_match(now, i) && !next.contains(i) implies next.len()
        == limit by {
        if i == n {
            if p < limit {
                assert(next[p] == n);
            }
        } else {
            assert(is_match(before, i));
            if order.contains(i) {
                let m = choose|m: int| 0 <= m < order.len() && order[m] == i;
                if p < limit {
                    let to = if m < p { m } else { m + 1 };
                    assert(grown[to] == i);
                    if order.len() < limit {
                        assert(next[to] == i);
                    } else if to < next.len() {
                        assert(next[to] == i);
                    }
                }
            }
        }
    }
    assert forall|i: int, k: int|
        is_match(now, i) && !next.contains(i) && 0 <= k < next.len() implies #[trigger] outranks(
        now,
        next[k],
        i,
    ) by {
        if p >= limit {
            if i == n {
                assert(outranks(now, order[k], n));
            } else {
                assert(is_match(before, i));
                assert(outranks(before, order[k], i));
            }
        } else {
            assert(next[k] == grown[k]);
            if i == n {
                assert(next[p] == n);
            } else {
                assert(is_match(before, i));
                if order.contains(i) {
                    // `i` is the member that was dropped.
                    let m = choose|m: int| 0 <= m < order.len() && order[m] == i;
                    let to = if m < p { m } else { m + 1 };
                    assert(grown[to] == i);
                    if to < next.len() {
                        assert(next[to] == i);
                    }
                    assert(outranks(now, grown[k], grown[to]));
                } else {
                    assert(order.len() == limit);
                    if k == p {
                        assert(outranks(now, n, order[p]));
                        assert(outranks(before, order[p], i));
                    } else {
                        let from = if k < p { k } else { k - 1 };
                        assert(outranks(before, order[from], i));
                    }
                }
            }
        }
    }
}

/// What is built for the first `n` scores ranks the matches among them.
proof fn lemma_ranking_of_first(scores: Seq<Option<i64>>, limit: nat, n: int)
    requires
        0 <= n <= scores.len(),
    ensures
        is_ranking(scores.take(n), limit, ranking_of_first(scores, limit, n)),
    decreases n,
{
    if n > 0 {
        lemma_ranking_of_first(scores, limit, n - 1);
        let order = ranking_of_first(scores, limit, n - 1);
        let before = scores.take(n - 1);
        let now = scores.take(n);
        match scores[n - 1] {
            Some(score) => {
                lemma_entry_place(scores, order, score, 0);
                lemma_take_in(scores, limit, order, entry_place(scores, order, score, 0), n - 1);
            },
            None => {
                assert forall|i: int| is_match(now, i) implies is_match(before, i) by {}
                assert forall|i: int, j: int| outranks(before, i, j) implies outranks(
                    now,
                    i,
                    j,
                ) by {}
                assert forall|k: int| 0 <= k < order.len() implies is_match(
                    now,
                    #[trigger] order[k],
                ) by {
                    assert(is_match(before, order[k]));
                }
            },
        }
    }
}

/// What [`ranking`] computes ranks the matches: it holds the best of them,
/// up to the limit, ordered by descending score and, among equal scores, by
/// their place in the collection.
pub proof fn lemma_ranking_ranks(scores: Seq<Option<i64>>, limit: nat)
    ensures
        is_ranking(scores, limit, ranking(scores, limit)),
{
    lemma_ranking_of_first(scores, limit, scores.len() as int);
    assert(scores.take(scores.len() as int) == scores);
}

/// Whether the entry at `i` has a score of at least `score`.
fn ahead(scores: &[Option<i64>], i: usize, score: i64) -> (b: bool)
    requires
        i < scores@.len(),
    ensures
        b == (scores@[i as int] matches Some(s) && s >= score),
{
    match scores[i] {
        Some(s) => s >= score,
        None => false,
    }
}

/// Ranks the matches among the first `count` scores.
pub(crate) fn rank_first(scores: &[Option<i64>], count: usize, limit: usize) -> (order: Vec<usize>)
    requires
        count <= scores@.len(),
    ensures
        places(order@) == ranking_of_first(scores@, limit as nat, count as int),
        is_ranking(scores@.take(count as int), limit as nat, places(order@)),
        order@.len() <= limit,
        forall|k: int| 0 <= k < order@.len() ==> #[trigger] order@[k] < count,
{
    let mut order: Vec<usize> = Vec::new();
    assert(places(order@) =~= ranking_of_first(scores@, limit as nat, 0));
    for n in 0..count
        invariant
            count <= scores@.len(),
            places(order@) == ranking_of_first(scores@, limit as nat, n as int),
            order@.len() <= limit,
            forall|k: int| 0 <= k < order@.len() ==> #[trigger] order@[k] < n,
    {
        let ghost before = places(order@);
        match scores[n] {
            Some(score) => {
                let mut p: usize = 0;
                while p < order.len() && ahead(scores, order[p], score)
                    invariant
                        0 <= p <= order@.len(),
                        n < scores@.len(),
                        before == places(order@),
                        forall|k: int| 0 <= k < order@.len() ==> #[trigger] order@[k] < n,
                        entry_place(scores@, before, score, 0) == entry_place(
                            scores@,
                            before,
                            score,
                            p as int,
                        ),
                    decreases order@.len() - p,
                {
                    p += 1;
                }
                if p < limit {
                    order.insert(p, n);
                    assert(places(order@) =~= before.insert(p as int, n as int));
                    if order.len() > limit {
                        order.pop();
                        assert(places(order@) =~= before.insert(p as int, n as int).drop_last());
                    }
                }
            },
            None => {},
        }
    }
    proof {
        lemma_ranking_of_first(scores@, limit as nat, count as int);
    }
    order
}

/// Ranks the matches among `scores`: the indices of the entries that have a
/// score, highest score first and, among equal scores, in the order of the
/// collection, cut off after `limit`.
pub fn rank(scores: &[Option<i64>], limit: usize) -> (order: Vec<usize>)
    ensures
        places(order@) == ranking(scores@, limit as nat),
        order@.len() == ranking(scores@, limit as nat).len(),
        forall|k: int|
            0 <= k < order@.len() ==> #[trigger] order@[k] == ranking(scores@, limit as nat)[k],
        is_ranking(scores@, limit as nat, places(order@)),
        order@.len() <= limit,
        forall|k: int| 0 <= k < order@.len() ==> #[trigger] order@[k] < scores@.len(),
{
    let order = rank_first(scores, scores.len(), limit);
    proof {
        assert(scores@.take(scores@.len() as int) == scores@);
        assert forall|k: int| 0 <= k < order@.len() implies #[trigger] order@[k] == ranking(
            scores@,
            limit as nat,
        )[k] by {
            assert(places(order@)[k] == order@[k]);
        }
    }
    order
}

} // verus!
