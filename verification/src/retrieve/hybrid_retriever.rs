//! Reciprocal rank fusion of the dense and lexical hit lists.
//!
//! Each hit earns `1 / (rrf_k + rank)` points from every list it appears in
//! (ranks start at 1); hits are merged by chunk id, keeping the first copy
//! seen, ranked by total points (highest first, ties broken by chunk id in
//! ascending order) and cut to `top_k`. Points are fixed point: each
//! contribution is `SCORE_SCALE / (rrf_k + rank)` rounded down, and totals
//! saturate at `i64::MAX`.
use vstd::prelude::*;

use crate::store::{same_chunk, Hit, SCORE_SCALE};
use crate::text::{
    lemma_seq_lt_irreflexive, lemma_seq_lt_total, lemma_seq_lt_transitive, seq_lt, str_lt,
};

verus! {

/// How many hits each leg contributes to the fusion.
pub const DEFAULT_N_PER_LEG: usize = 50;

/// The rank offset `k` of reciprocal rank fusion.
pub const DEFAULT_RRF_K: u64 = 60;

/// The points a hit at `rank` (from 1) earns: `SCORE_SCALE / (rrf_k + rank)`.
pub open spec fn rrf_contribution(rrf_k: u64, rank: nat) -> nat {
    (SCORE_SCALE as int / (rrf_k as int + rank as int)) as nat
}

/// A hit's points are `SCORE_SCALE / (rrf_k + rank)` rounded down: the
/// largest whole number of points whose product with `rrf_k + rank` stays
/// within `SCORE_SCALE`.
pub proof fn lemma_contribution_rounds_down(rrf_k: u64, rank: nat)
    requires
        rank >= 1,
    ensures
        rrf_contribution(rrf_k, rank) * (rrf_k + rank) <= SCORE_SCALE,
        SCORE_SCALE < (rrf_contribution(rrf_k, rank) + 1) * (rrf_k + rank),
{
    let d = rrf_k + rank;
    let q = SCORE_SCALE as int / d;
    assert(q * d <= SCORE_SCALE && SCORE_SCALE < (q + 1) * d) by (nonlinear_arith)
        requires
            d >= 1,
            q == SCORE_SCALE as int / d,
    ;
}

/// A list's hits, each with its rank (from 1).
pub open spec fn ranked(list: Seq<Hit>) -> Seq<(Hit, nat)> {
    list.map(|i: int, h: Hit| (h, (i + 1) as nat))
}

/// Every hit of every list, in order (list by list), with its rank in its list.
pub open spec fn entries(lists: Seq<Vec<Hit>>) -> Seq<(Hit, nat)> {
    lists.map_values(|v: Vec<Hit>| ranked(v@)).flatten()
}

/// The points `id` earns over the given ranked hits.
pub open spec fn score_in(es: Seq<(Hit, nat)>, id: Seq<char>, rrf_k: u64) -> nat
    decreases es.len(),
{
    if es.len() == 0 {
        0
    } else {
        score_in(es.drop_last(), id, rrf_k) + if es.last().0.chunk_id@ == id {
            rrf_contribution(rrf_k, es.last().1)
        } else {
            0
        }
    }
}

/// `n`, saturated at `i64::MAX`.
pub open spec fn capped(n: nat) -> i64 {
    if n > i64::MAX {
        i64::MAX
    } else {
        n as i64
    }
}

/// The fused score of `id`.
pub open spec fn rrf_score(lists: Seq<Vec<Hit>>, id: Seq<char>, rrf_k: u64) -> i64 {
    capped(score_in(entries(lists), id, rrf_k))
}

/// `p` is the first position of `id` among `es`.
pub open spec fn is_first(es: Seq<(Hit, nat)>, p: int, id: Seq<char>) -> bool {
    &&& 0 <= p < es.len()
    &&& es[p].0.chunk_id@ == id
    &&& forall|q: int| 0 <= q < p ==> (#[trigger] es[q]).0.chunk_id@ != id
}

/// `h` is the fused hit for its chunk id: the first copy of that chunk, with
/// the chunk's total points as score.
pub open spec fn fused_from(h: Hit, es: Seq<(Hit, nat)>, rrf_k: u64) -> bool {
    exists|p: int|
        #![trigger es[p]]
        is_first(es, p, h.chunk_id@) && same_chunk(h, es[p].0) && h.score == capped(
            score_in(es, h.chunk_id@, rrf_k),
        )
}

/// `a` ranks ahead of the chunk `id` with score `score`: a higher score, or
/// an equal score and a smaller chunk id.
pub open spec fn ahead_of(a: Hit, id: Seq<char>, score: i64) -> bool {
    a.score > score || (a.score == score && seq_lt(a.chunk_id@, id))
}

/// The chunk `id` (with score `score`) was kept among `fused`, or `fused`
/// is full and every hit in it ranks ahead of the chunk.
pub open spec fn kept_or_behind(fused: Seq<Hit>, id: Seq<char>, score: i64, top_k: nat) -> bool {
    ||| exists|i: int| 0 <= i < fused.len() && (#[trigger] fused[i]).chunk_id@ == id
    ||| fused.len() == top_k && forall|i: int| 0 <= i < fused.len() ==> ahead_of(#[trigger] fused[i], id, score)
}

/// `a` ranks ahead of `b`.
pub open spec fn ranks_before(a: Hit, b: Hit) -> bool {
    ahead_of(a, b.chunk_id@, b.score)
}

/// `fused` is the fusion of `lists`: at most `top_k` hits, each the fused
/// hit of its chunk, ordered by rank (score, then chunk id), and every chunk
/// of the lists kept, unless `fused` is full of chunks that rank ahead of it.
pub open spec fn is_rrf_fusion(lists: Seq<Vec<Hit>>, rrf_k: u64, top_k: nat, fused: Seq<Hit>) -> bool {
    &&& fused.len() <= top_k
    &&& forall|i: int| 0 <= i < fused.len() ==> fused_from(#[trigger] fused[i], entries(lists), rrf_k)
    &&& forall|i: int, j: int|
        0 <= i < j < fused.len() ==> ranks_before(#[trigger] fused[i], #[trigger] fused[j])
    &&& forall|p: int|
        0 <= p < entries(lists).len() ==> kept_or_behind(
            fused,
            (#[trigger] entries(lists)[p]).0.chunk_id@,
            rrf_score(lists, entries(lists)[p].0.chunk_id@, rrf_k),
            top_k,
        )
}

proof fn lemma_ranks_before_transitive(a: Hit, b: Hit, c: Hit)
    requires
        ranks_before(a, b),
        ranks_before(b, c),
    ensures
        ranks_before(a, c),
{
    if a.score == b.score && b.score == c.score {
        lemma_seq_lt_transitive(a.chunk_id@, b.chunk_id@, c.chunk_id@);
    }
}

proof fn lemma_ranks_before_total(a: Hit, b: Hit)
    requires
        a.chunk_id@ != b.chunk_id@,
        !ranks_before(a, b),
    ensures
        ranks_before(b, a),
{
    lemma_seq_lt_total(a.chunk_id@, b.chunk_id@);
}

proof fn lemma_ranks_before_irreflexive(a: Hit)
    ensures
        !ranks_before(a, a),
{
    lemma_seq_lt_irreflexive(a.chunk_id@);
}

fn hit_ranks_before(a: &Hit, b: &Hit) -> (r: bool)
    ensures
        r == ranks_before(*a, *b),
{
    a.score > b.score || (a.score == b.score && str_lt(a.chunk_id.as_str(), b.chunk_id.as_str()))
}

fn contribution(rrf_k: u64, rank: usize) -> (c: i64)
    requires
        rank >= 1,
    ensures
        c == rrf_contribution(rrf_k, rank as nat),
        c <= SCORE_SCALE,
{
    let denom: u128 = rrf_k as u128 + rank as u128;
    let c = SCORE_SCALE as u128 / denom;
    assert(c <= SCORE_SCALE) by (nonlinear_arith)
        requires
            denom >= 1,
            c == SCORE_SCALE as u128 / denom,
    ;
    c as i64
}

/// The accumulated hits so far: one per chunk id seen, in order of first
/// appearance, each with the points earned over `es`.
spec fn acc_ok(acc: Seq<Hit>, firsts: Seq<int>, es: Seq<(Hit, nat)>, rrf_k: u64) -> bool {
    &&& firsts.len() == acc.len()
    &&& forall|j: int|
        0 <= j < acc.len() ==> {
            &&& is_first(es, #[trigger] firsts[j], acc[j].chunk_id@)
            &&& same_chunk(acc[j], es[firsts[j]].0)
            &&& acc[j].score == capped(score_in(es, acc[j].chunk_id@, rrf_k))
        }
    &&& forall|a: int, b: int|
        0 <= a < acc.len() && 0 <= b < acc.len() && a != b ==> #[trigger] acc[a].chunk_id@
            != #[trigger] acc[b].chunk_id@
    &&& forall|p: int| 0 <= p < es.len() ==> covered(acc, (#[trigger] es[p]).0.chunk_id@)
}

/// Some hit of `acc` has chunk id `id`.
spec fn covered(acc: Seq<Hit>, id: Seq<char>) -> bool {
    exists|j: int| 0 <= j < acc.len() && #[trigger] acc[j].chunk_id@ == id
}

proof fn lemma_score_absent(es: Seq<(Hit, nat)>, id: Seq<char>, rrf_k: u64)
    requires
        forall|p: int| 0 <= p < es.len() ==> (#[trigger] es[p]).0.chunk_id@ != id,
    ensures
        score_in(es, id, rrf_k) == 0,
    decreases es.len(),
{
    if es.len() > 0 {
        assert forall|p: int| 0 <= p < es.drop_last().len() implies (#[trigger] es.drop_last()[p]).0.chunk_id@ != id by {
            assert(es.drop_last()[p] == es[p]);
        }
        lemma_score_absent(es.drop_last(), id, rrf_k);
        assert(es[es.len() - 1].0.chunk_id@ != id);
    }
}

proof fn lemma_acc_step_found(
    acc: Seq<Hit>,
    firsts: Seq<int>,
    es: Seq<(Hit, nat)>,
    e: (Hit, nat),
    j: int,
    new_hit: Hit,
    rrf_k: u64,
)
    requires
        acc_ok(acc, firsts, es, rrf_k),
        0 <= j < acc.len(),
        acc[j].chunk_id@ == e.0.chunk_id@,
        same_chunk(new_hit, acc[j]),
        new_hit.score == capped((acc[j].score + rrf_contribution(rrf_k, e.1)) as nat),
    ensures
        acc_ok(acc.update(j, new_hit), firsts, es.push(e), rrf_k),
{
    let es2 = es.push(e);
    let acc2 = acc.update(j, new_hit);
    assert(es2.drop_last() =~= es);
    assert forall|q: int| 0 <= q < acc2.len() implies {
        &&& is_first(es2, #[trigger] firsts[q], acc2[q].chunk_id@)
        &&& same_chunk(acc2[q], es2[firsts[q]].0)
        &&& acc2[q].score == capped(score_in(es2, acc2[q].chunk_id@, rrf_k))
    } by {
        assert(is_first(es, firsts[q], acc[q].chunk_id@));
        assert(es2[firsts[q]] == es[firsts[q]]);
        assert forall|r: int| 0 <= r < firsts[q] implies (#[trigger] es2[r]).0.chunk_id@ != acc2[q].chunk_id@ by {
            assert(es2[r] == es[r]);
        }
        if q != j {
            assert(acc[q].chunk_id@ != acc[j].chunk_id@);
            assert(score_in(es2, acc[q].chunk_id@, rrf_k) == score_in(es, acc[q].chunk_id@, rrf_k));
        } else {
            let id = acc[j].chunk_id@;
            assert(score_in(es2, id, rrf_k) == score_in(es, id, rrf_k) + rrf_contribution(rrf_k, e.1));
        }
    }
    assert forall|a: int, b: int|
        0 <= a < acc2.len() && 0 <= b < acc2.len() && a != b implies #[trigger] acc2[a].chunk_id@
        != #[trigger] acc2[b].chunk_id@ by {
        assert(acc[a].chunk_id@ != acc[b].chunk_id@);
    }
    assert forall|p: int| 0 <= p < es2.len() implies covered(acc2, (#[trigger] es2[p]).0.chunk_id@) by {
        if p < es.len() {
            assert(es2[p] == es[p]);
            assert(covered(acc, es[p].0.chunk_id@));
            let k = choose|k: int| 0 <= k < acc.len() && #[trigger] acc[k].chunk_id@ == es[p].0.chunk_id@;
            assert(acc2[k].chunk_id@ == acc[k].chunk_id@);
        } else {
            assert(acc2[j].chunk_id@ == es2[p].0.chunk_id@);
        }
    }
    assert(firsts.len() == acc2.len());
    assert(acc_ok(acc2, firsts, es2, rrf_k));
}

proof fn lemma_acc_step_new(
    acc: Seq<Hit>,
    firsts: Seq<int>,
    es: Seq<(Hit, nat)>,
    e: (Hit, nat),
    new_hit: Hit,
    rrf_k: u64,
)
    requires
        acc_ok(acc, firsts, es, rrf_k),
        forall|j: int| 0 <= j < acc.len() ==> (#[trigger] acc[j]).chunk_id@ != e.0.chunk_id@,
        same_chunk(new_hit, e.0),
        new_hit.score == rrf_contribution(rrf_k, e.1),
        rrf_contribution(rrf_k, e.1) <= SCORE_SCALE,
    ensures
        acc_ok(acc.push(new_hit), firsts.push(es.len() as int), es.push(e), rrf_k),
{
    let es2 = es.push(e);
    let acc2 = acc.push(new_hit);
    let firsts2 = firsts.push(es.len() as int);
    let id = e.0.chunk_id@;
    assert(es2.drop_last() =~= es);
    assert forall|p: int| 0 <= p < es.len() implies (#[trigger] es[p]).0.chunk_id@ != id by {
        assert(covered(acc, es[p].0.chunk_id@));
        let k = choose|k: int| 0 <= k < acc.len() && #[trigger] acc[k].chunk_id@ == es[p].0.chunk_id@;
        assert(acc[k].chunk_id@ != id);
    }
    lemma_score_absent(es, id, rrf_k);
    assert forall|q: int| 0 <= q < acc2.len() implies {
        &&& is_first(es2, #[trigger] firsts2[q], acc2[q].chunk_id@)
        &&& same_chunk(acc2[q], es2[firsts2[q]].0)
        &&& acc2[q].score == capped(score_in(es2, acc2[q].chunk_id@, rrf_k))
    } by {
        if q < acc.len() {
            assert(acc2[q] == acc[q]);
            assert(firsts2[q] == firsts[q]);
            assert(is_first(es, firsts[q], acc[q].chunk_id@));
            assert(es2[firsts[q]] == es[firsts[q]]);
            assert forall|r: int| 0 <= r < firsts[q] implies (#[trigger] es2[r]).0.chunk_id@ != acc2[q].chunk_id@ by {
                assert(es2[r] == es[r]);
            }
            assert(acc[q].chunk_id@ != id);
        } else {
            assert forall|r: int| 0 <= r < es.len() implies (#[trigger] es2[r]).0.chunk_id@ != id by {
                assert(es2[r] == es[r]);
            }
        }
    }
    assert forall|a: int, b: int|
        0 <= a < acc2.len() && 0 <= b < acc2.len() && a != b implies #[trigger] acc2[a].chunk_id@
        != #[trigger] acc2[b].chunk_id@ by {
        if a < acc.len() && b < acc.len() {
            assert(acc[a].chunk_id@ != acc[b].chunk_id@);
        } else if a < acc.len() {
            assert(acc[a].chunk_id@ != id);
        } else if b < acc.len() {
            assert(acc[b].chunk_id@ != id);
        }
    }
    assert forall|p: int| 0 <= p < es2.len() implies covered(acc2, (#[trigger] es2[p]).0.chunk_id@) by {
        if p < es.len() {
            assert(es2[p] == es[p]);
            assert(covered(acc, es[p].0.chunk_id@));
            let k = choose|k: int| 0 <= k < acc.len() && #[trigger] acc[k].chunk_id@ == es[p].0.chunk_id@;
            assert(acc2[k] == acc[k]);
        } else {
            assert(acc2[acc.len() as int].chunk_id@ == es2[p].0.chunk_id@);
        }
    }
}

proof fn lemma_entries_step(lists: Seq<Vec<Hit>>, l: int)
    requires
        0 <= l < lists.len(),
    ensures
        entries(lists.take(l + 1)) == entries(lists.take(l)) + ranked(lists[l]@),
{
    let f = |v: Vec<Hit>| ranked(v@);
    assert(lists.take(l + 1).map_values(f) =~= lists.take(l).map_values(f).push(f(lists[l])));
    lists.take(l).map_values(f).lemma_flatten_push(f(lists[l]));
}

/// Merges ranked hit lists by reciprocal rank fusion.
///
/// The result holds one hit per chunk id, at most `top_k` of them: the first
/// copy of the chunk met (list by list, in rank order), scored with the
/// chunk's points over all lists; it is ordered by score, highest first, ties
/// broken by ascending chunk id; and every chunk left out ranks behind every
/// chunk kept.
pub fn rrf_fuse(lists: Vec<Vec<Hit>>, rrf_k: u64, top_k: usize) -> (fused: Vec<Hit>)
    ensures
        is_rrf_fusion(lists@, rrf_k, top_k as nat, fused@),
{
    // Merge by chunk id, summing points.
    let mut acc: Vec<Hit> = Vec::new();
    let ghost mut firsts: Seq<int> = seq![];
    let n = lists.len();
    assert(entries(lists@.take(0)) =~= Seq::<(Hit, nat)>::empty()) by {
        assert(lists@.take(0).map_values(|v: Vec<Hit>| ranked(v@)) =~= Seq::<Seq<(Hit, nat)>>::empty());
    }
    for l in 0..n
        invariant
            n == lists@.len(),
            acc_ok(acc@, firsts, entries(lists@.take(l as int)), rrf_k),
    {
        let list = &lists[l];
        let m = list.len();
        let ghost before = entries(lists@.take(l as int));
        proof {
            lemma_entries_step(lists@, l as int);
            assert(ranked(list@).take(0) =~= Seq::<(Hit, nat)>::empty());
            assert(before + ranked(list@).take(0) =~= before);
        }
        for i in 0..m
            invariant
                m == list@.len(),
                *list == lists@[l as int],
                acc_ok(acc@, firsts, before + ranked(list@).take(i as int), rrf_k),
        {
            let h = &list[i];
            let c = contribution(rrf_k, i + 1);
            let ghost es = before + ranked(list@).take(i as int);
            let ghost e = (*h, (i + 1) as nat);
            assert(ranked(list@)[i as int] == e);
            assert(before + ranked(list@).take(i + 1) =~= es.push(e));

            let mut j: usize = 0;
            let mut found = false;
            while j < acc.len()
                invariant_except_break
                    !found,
                invariant
                    j <= acc@.len(),
                    forall|q: int| 0 <= q < j ==> (#[trigger] acc@[q]).chunk_id@ != h.chunk_id@,
                ensures
                    found ==> j < acc@.len() && acc@[j as int].chunk_id@ == h.chunk_id@,
                    !found ==> j == acc@.len(),
                decreases acc@.len() - j,
            {
                if acc[j].chunk_id == h.chunk_id {
                    found = true;
                    break;
                }
                j = j + 1;
            }
            if found {
                proof {
                    assert(is_first(es, firsts[j as int], acc@[j as int].chunk_id@));
                    assert(acc@[j as int].score >= 0);
                }
                let total = match acc[j].score.checked_add(c) {
                    Some(t) => t,
                    None => i64::MAX,
                };
                let updated = acc[j].with_score(total);
                proof {
                    lemma_acc_step_found(acc@, firsts, es, e, j as int, updated, rrf_k);
                }
                acc.set(j, updated);
            } else {
                let fresh = h.with_score(c);
                proof {
                    lemma_acc_step_new(acc@, firsts, es, e, fresh, rrf_k);
                    firsts = firsts.push(es.len() as int);
                }
                acc.push(fresh);
            }
        }
        assert(ranked(list@).take(m as int) =~= ranked(list@));
    }
    assert(lists@.take(n as int) =~= lists@);
    let ghost es = entries(lists@);
    let ghost all = acc@;

    // Select the best remaining hit, `top_k` times at most.
    let mut remaining = acc;
    let mut out: Vec<Hit> = Vec::new();
    while out.len() < top_k && remaining.len() > 0
        invariant
            out@.len() <= top_k,
            out@.len() + remaining@.len() == all.len(),
            forall|x: Hit| all.contains(x) <==> (out@.contains(x) || remaining@.contains(x)),
            forall|a: int, b: int|
                0 <= a < remaining@.len() && 0 <= b < remaining@.len() && a != b
                    ==> #[trigger] remaining@[a].chunk_id@ != #[trigger] remaining@[b].chunk_id@,
            forall|a: int, b: int|
                0 <= a < b < out@.len() ==> ranks_before(#[trigger] out@[a], #[trigger] out@[b]),
            forall|a: int, b: int|
                0 <= a < out@.len() && 0 <= b < remaining@.len() ==> ranks_before(
                    #[trigger] out@[a],
                    #[trigger] remaining@[b],
                ),
            forall|a: int, b: int|
                0 <= a < all.len() && 0 <= b < all.len() && a != b ==> #[trigger] all[a].chunk_id@
                    != #[trigger] all[b].chunk_id@,
        decreases remaining@.len(),
    {
        let mut best: usize = 0;
        let mut r: usize = 1;
        while r < remaining.len()
            invariant
                1 <= r <= remaining@.len(),
                best < r,
                forall|a: int, b: int|
                    0 <= a < remaining@.len() && 0 <= b < remaining@.len() && a != b
                        ==> #[trigger] remaining@[a].chunk_id@ != #[trigger] remaining@[b].chunk_id@,
                forall|q: int|
                    0 <= q < r && q != best ==> ranks_before(remaining@[best as int], #[trigger] remaining@[q]),
            decreases remaining@.len() - r,
        {
            if hit_ranks_before(&remaining[r], &remaining[best]) {
                proof {
                    assert forall|q: int| 0 <= q < r + 1 && q != r implies ranks_before(
                        remaining@[r as int],
                        #[trigger] remaining@[q],
                    ) by {
                        if q != best {
                            lemma_ranks_before_transitive(remaining@[r as int], remaining@[best as int], remaining@[q]);
                        }
                    }
                }
                best = r;
            } else {
                proof {
                    assert(remaining@[r as int].chunk_id@ != remaining@[best as int].chunk_id@);
                    lemma_ranks_before_total(remaining@[r as int], remaining@[best as int]);
                }
            }
            r = r + 1;
        }
        let ghost rem0 = remaining@;
        let ghost out0 = out@;
        let h = remaining.remove(best);
        assert(h == rem0[best as int]);
        assert(remaining@ == rem0.remove(best as int));
        out.push(h);
        proof {
            assert forall|q: int| 0 <= q < remaining@.len() implies #[trigger] remaining@[q] == (if q < best {
                rem0[q]
            } else {
                rem0[q + 1]
            }) by {}
            assert forall|x: Hit| all.contains(x) <==> (out@.contains(x) || remaining@.contains(x)) by {
                if out0.contains(x) {
                    let i = choose|i: int| 0 <= i < out0.len() && out0[i] == x;
                    assert(out@[i] == x);
                }
                if rem0.contains(x) {
                    let i = choose|i: int| 0 <= i < rem0.len() && rem0[i] == x;
                    if i < best {
                        assert(remaining@[i] == x);
                    } else if i > best {
                        assert(remaining@[i - 1] == x);
                    } else {
                        assert(out@[out0.len() as int] == x);
                    }
                }
                if out@.contains(x) {
                    let i = choose|i: int| 0 <= i < out@.len() && out@[i] == x;
                    if i < out0.len() {
                        assert(out0[i] == x);
                    } else {
                        assert(rem0[best as int] == x);
                    }
                }
                if remaining@.contains(x) {
                    let i = choose|i: int| 0 <= i < remaining@.len() && remaining@[i] == x;
                    if i < best {
                        assert(rem0[i] == x);
                    } else {
                        assert(rem0[i + 1] == x);
                    }
                }
            }
            assert forall|a: int, b: int|
                0 <= a < remaining@.len() && 0 <= b < remaining@.len() && a != b implies #[trigger] remaining@[a].chunk_id@
                != #[trigger] remaining@[b].chunk_id@ by {
                let a0 = if a < best { a } else { a + 1 };
                let b0 = if b < best { b } else { b + 1 };
                assert(rem0[a0].chunk_id@ != rem0[b0].chunk_id@);
            }
            assert forall|a: int, b: int| 0 <= a < b < out@.len() implies ranks_before(
                #[trigger] out@[a],
                #[trigger] out@[b],
            ) by {
                if b == out0.len() {
                    assert(out@[a] == out0[a]);
                    assert(ranks_before(out0[a], rem0[best as int]));
                } else {
                    assert(ranks_before(out0[a], out0[b]));
                }
            }
            assert forall|a: int, b: int| 0 <= a < out@.len() && 0 <= b < remaining@.len() implies ranks_before(
                #[trigger] out@[a],
                #[trigger] remaining@[b],
            ) by {
                let b0 = if b < best { b } else { b + 1 };
                assert(remaining@[b] == rem0[b0]);
                if a < out0.len() {
                    assert(out@[a] == out0[a]);
                } else {
                    assert(b0 != best);
                }
            }
        }
    }

    proof {
        // Each hit kept is a fused hit.
        assert forall|i: int| 0 <= i < out@.len() implies fused_from(#[trigger] out@[i], es, rrf_k) by {
            assert(out@.contains(out@[i]));
            assert(all.contains(out@[i]));
            let j = choose|j: int| 0 <= j < all.len() && all[j] == out@[i];
            assert(is_first(es, firsts[j], all[j].chunk_id@));
        }
        // Each chunk left out ranks behind all that were kept.
        assert forall|p: int| 0 <= p < es.len() implies {
            let id = (#[trigger] es[p]).0.chunk_id@;
            ||| exists|i: int| 0 <= i < out@.len() && (#[trigger] out@[i]).chunk_id@ == id
            ||| out@.len() == top_k && forall|i: int|
                0 <= i < out@.len() ==> ahead_of(#[trigger] out@[i], id, rrf_score(lists@, id, rrf_k))
        } by {
            let id = es[p].0.chunk_id@;
            assert(covered(all, es[p].0.chunk_id@));
            let j = choose|j: int| 0 <= j < all.len() && #[trigger] all[j].chunk_id@ == es[p].0.chunk_id@;
            assert(all.contains(all[j]));
            assert(is_first(es, firsts[j], all[j].chunk_id@));
            assert(all[j].score == rrf_score(lists@, id, rrf_k));
            if out@.contains(all[j]) {
                let i = choose|i: int| 0 <= i < out@.len() && out@[i] == all[j];
                assert(out@[i].chunk_id@ == id);
            } else {
                assert(remaining@.contains(all[j]));
                let b = choose|b: int| 0 <= b < remaining@.len() && remaining@[b] == all[j];
                assert(out@.len() == top_k);
                assert forall|i: int| 0 <= i < out@.len() implies ahead_of(
                    #[trigger] out@[i],
                    id,
                    rrf_score(lists@, id, rrf_k),
                ) by {
                    assert(ranks_before(out@[i], remaining@[b]));
                }
            }
        }
        assert forall|p: int| 0 <= p < entries(lists@).len() implies kept_or_behind(
            out@,
            (#[trigger] entries(lists@)[p]).0.chunk_id@,
            rrf_score(lists@, entries(lists@)[p].0.chunk_id@, rrf_k),
            top_k as nat,
        ) by {
            assert(es[p] == entries(lists@)[p]);
        }
    }
    out
}

/// The chunk ids of the hits, in order.
pub open spec fn id_seq(hits: Seq<Hit>) -> Seq<Seq<char>> {
    hits.map_values(|h: Hit| h.chunk_id@)
}

/// Two fused hits of the same chunk are the same hit.
proof fn lemma_fused_same_id(x: Hit, y: Hit, es: Seq<(Hit, nat)>, rrf_k: u64)
    requires
        fused_from(x, es, rrf_k),
        fused_from(y, es, rrf_k),
        x.chunk_id@ == y.chunk_id@,
    ensures
        x == y,
{
    let p = choose|p: int|
        #![trigger es[p]]
        is_first(es, p, x.chunk_id@) && same_chunk(x, es[p].0) && x.score == capped(
            score_in(es, x.chunk_id@, rrf_k),
        );
    let q = choose|q: int|
        #![trigger es[q]]
        is_first(es, q, y.chunk_id@) && same_chunk(y, es[q].0) && y.score == capped(
            score_in(es, y.chunk_id@, rrf_k),
        );
    if p < q {
        assert(es[p].0.chunk_id@ != y.chunk_id@);
    }
    if q < p {
        assert(es[q].0.chunk_id@ != x.chunk_id@);
    }
    assert(p == q);
}

/// A fusion holds each chunk once.
proof fn lemma_fusion_ids_distinct(lists: Seq<Vec<Hit>>, rrf_k: u64, top_k: nat, f: Seq<Hit>)
    requires
        is_rrf_fusion(lists, rrf_k, top_k, f),
    ensures
        id_seq(f).no_duplicates(),
        id_seq(f).to_set().len() == f.len(),
{
    assert forall|i: int, j: int| 0 <= i < id_seq(f).len() && 0 <= j < id_seq(f).len() && i != j implies id_seq(f)[i]
        != id_seq(f)[j] by {
        if f[i].chunk_id@ == f[j].chunk_id@ {
            lemma_fused_same_id(f[i], f[j], entries(lists), rrf_k);
            if i < j {
                assert(ranks_before(f[i], f[j]));
            } else {
                assert(ranks_before(f[j], f[i]));
            }
            lemma_ranks_before_irreflexive(f[i]);
        }
    }
    id_seq(f).unique_seq_to_set();
}

/// Each chunk of one fusion is in any other fusion of the same lists.
proof fn lemma_fusion_covers(lists: Seq<Vec<Hit>>, rrf_k: u64, top_k: nat, a: Seq<Hit>, b: Seq<Hit>)
    requires
        is_rrf_fusion(lists, rrf_k, top_k, a),
        is_rrf_fusion(lists, rrf_k, top_k, b),
    ensures
        forall|i: int| 0 <= i < a.len() ==> id_seq(b).contains(#[trigger] a[i].chunk_id@),
{
    broadcast use vstd::seq_lib::seq_to_set_is_finite;

    let es = entries(lists);
    assert forall|i: int| 0 <= i < a.len() implies id_seq(b).contains(#[trigger] a[i].chunk_id@) by {
        let x = a[i];
        if !id_seq(b).contains(x.chunk_id@) {
            let p = choose|p: int|
                #![trigger es[p]]
                is_first(es, p, x.chunk_id@) && same_chunk(x, es[p].0) && x.score == capped(
                    score_in(es, x.chunk_id@, rrf_k),
                );
            assert(kept_or_behind(b, es[p].0.chunk_id@, rrf_score(lists, es[p].0.chunk_id@, rrf_k), top_k));
            assert forall|j: int| 0 <= j < b.len() implies (#[trigger] b[j]).chunk_id@ != x.chunk_id@ by {
                if b[j].chunk_id@ == x.chunk_id@ {
                    assert(id_seq(b)[j] == x.chunk_id@);
                }
            }
            assert(b.len() == top_k);
            // Every chunk of `b` ranks ahead of `x`, so it is in `a` too.
            assert forall|j: int| 0 <= j < b.len() implies #[trigger] id_seq(b)[j] != x.chunk_id@
                && id_seq(a).contains(id_seq(b)[j]) by {
                let y = b[j];
                assert(ahead_of(b[j], x.chunk_id@, x.score));
                assert(ranks_before(y, x));
                if y.chunk_id@ == x.chunk_id@ {
                    lemma_fused_same_id(y, x, es, rrf_k);
                    lemma_ranks_before_irreflexive(x);
                }
                if !id_seq(a).contains(y.chunk_id@) {
                    assert(fused_from(y, es, rrf_k));
                    let q = choose|q: int|
                        #![trigger es[q]]
                        is_first(es, q, y.chunk_id@) && same_chunk(y, es[q].0) && y.score == capped(
                            score_in(es, y.chunk_id@, rrf_k),
                        );
                    assert(kept_or_behind(a, es[q].0.chunk_id@, rrf_score(lists, es[q].0.chunk_id@, rrf_k), top_k));
                    assert forall|k: int| 0 <= k < a.len() implies (#[trigger] a[k]).chunk_id@ != y.chunk_id@ by {
                        if a[k].chunk_id@ == y.chunk_id@ {
                            assert(id_seq(a)[k] == y.chunk_id@);
                        }
                    }
                    assert(ahead_of(a[i], y.chunk_id@, y.score));
                    lemma_ranks_before_transitive(x, y, x);
                    lemma_ranks_before_irreflexive(x);
                }
            }
            // Counting: `a` would hold the `top_k` chunks of `b` and `x` besides.
            lemma_fusion_ids_distinct(lists, rrf_k, top_k, a);
            lemma_fusion_ids_distinct(lists, rrf_k, top_k, b);
            let sa = id_seq(a).to_set();
            let sb = id_seq(b).to_set();
            assert(!sb.contains(x.chunk_id@));
            assert(sb.insert(x.chunk_id@).subset_of(sa)) by {
                assert forall|v: Seq<char>| sb.insert(x.chunk_id@).contains(v) implies sa.contains(v) by {
                    if v != x.chunk_id@ {
                        let j = choose|j: int| 0 <= j < id_seq(b).len() && id_seq(b)[j] == v;
                        assert(id_seq(a).contains(id_seq(b)[j]));
                    } else {
                        assert(id_seq(a)[i] == x.chunk_id@);
                    }
                }
            }
            vstd::set_lib::lemma_len_subset(sb.insert(x.chunk_id@), sa);
            assert(false);
        }
    }
}

/// Two sequences of hits, each strictly ordered by rank, holding the same hits, are equal.
proof fn lemma_ranked_unique(a: Seq<Hit>, b: Seq<Hit>)
    requires
        forall|i: int, j: int| 0 <= i < j < a.len() ==> ranks_before(#[trigger] a[i], #[trigger] a[j]),
        forall|i: int, j: int| 0 <= i < j < b.len() ==> ranks_before(#[trigger] b[i], #[trigger] b[j]),
        forall|h: Hit| a.contains(h) <==> b.contains(h),
    ensures
        a == b,
    decreases a.len(),
{
    if a.len() == 0 {
        if b.len() > 0 {
            assert(b.contains(b[0]));
        }
        assert(a =~= b);
    } else {
        assert(a.contains(a[0]));
        assert(b.contains(b[0]));
        let j = choose|j: int| 0 <= j < b.len() && b[j] == a[0];
        let k = choose|k: int| 0 <= k < a.len() && a[k] == b[0];
        if a[0] != b[0] {
            assert(j > 0 && k > 0);
            assert(ranks_before(b[0], b[j]));
            assert(ranks_before(a[0], a[k]));
            lemma_ranks_before_transitive(a[0], b[0], a[0]);
            lemma_ranks_before_irreflexive(a[0]);
        }
        let ra = a.drop_first();
        let rb = b.drop_first();
        assert forall|i: int, m: int| 0 <= i < m < ra.len() implies ranks_before(#[trigger] ra[i], #[trigger] ra[m]) by {
            assert(ranks_before(a[i + 1], a[m + 1]));
        }
        assert forall|i: int, m: int| 0 <= i < m < rb.len() implies ranks_before(#[trigger] rb[i], #[trigger] rb[m]) by {
            assert(ranks_before(b[i + 1], b[m + 1]));
        }
        assert forall|h: Hit| ra.contains(h) <==> rb.contains(h) by {
            if ra.contains(h) {
                let i = choose|i: int| 0 <= i < ra.len() && ra[i] == h;
                assert(ranks_before(a[0], a[i + 1]));
                assert(a.contains(h));
                let m = choose|m: int| 0 <= m < b.len() && b[m] == h;
                if m == 0 {
                    lemma_ranks_before_irreflexive(h);
                }
                assert(rb[m - 1] == h);
            }
            if rb.contains(h) {
                let i = choose|i: int| 0 <= i < rb.len() && rb[i] == h;
                assert(ranks_before(b[0], b[i + 1]));
                assert(b.contains(h));
                let m = choose|m: int| 0 <= m < a.len() && a[m] == h;
                if m == 0 {
                    lemma_ranks_before_irreflexive(h);
                }
                assert(ra[m - 1] == h);
            }
        }
        lemma_ranked_unique(ra, rb);
        assert(a =~= seq![a[0]] + ra);
        assert(b =~= seq![b[0]] + rb);
    }
}

/// Fusion is reproducible: for the same lists, `rrf_k` and `top_k` there is
/// exactly one result, whatever order the merge met the chunks in, so ties
/// are always broken the same way and repeated runs rank alike.
pub proof fn lemma_rrf_fusion_unique(
    lists: Seq<Vec<Hit>>,
    rrf_k: u64,
    top_k: nat,
    a: Seq<Hit>,
    b: Seq<Hit>,
)
    requires
        is_rrf_fusion(lists, rrf_k, top_k, a),
        is_rrf_fusion(lists, rrf_k, top_k, b),
    ensures
        a == b,
{
    let es = entries(lists);
    lemma_fusion_covers(lists, rrf_k, top_k, a, b);
    lemma_fusion_covers(lists, rrf_k, top_k, b, a);
    assert forall|h: Hit| a.contains(h) <==> b.contains(h) by {
        if a.contains(h) {
            let i = choose|i: int| 0 <= i < a.len() && a[i] == h;
            assert(id_seq(b).contains(a[i].chunk_id@));
            let j = choose|j: int| 0 <= j < id_seq(b).len() && id_seq(b)[j] == a[i].chunk_id@;
            assert(fused_from(a[i], es, rrf_k));
            assert(fused_from(b[j], es, rrf_k));
            lemma_fused_same_id(a[i], b[j], es, rrf_k);
            assert(b[j] == h);
        }
        if b.contains(h) {
            let i = choose|i: int| 0 <= i < b.len() && b[i] == h;
            assert(id_seq(a).contains(b[i].chunk_id@));
            let j = choose|j: int| 0 <= j < id_seq(a).len() && id_seq(a)[j] == b[i].chunk_id@;
            assert(fused_from(b[i], es, rrf_k));
            assert(fused_from(a[j], es, rrf_k));
            lemma_fused_same_id(b[i], a[j], es, rrf_k);
            assert(a[j] == h);
        }
    }
    lemma_ranked_unique(a, b);
}

} // verus!
