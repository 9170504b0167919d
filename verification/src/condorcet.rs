//! Ranked-pairs (Tideman) tally engine.
//!
//! Ballots rank candidates (lower rank is better; equal ranks are explicit
//! ties). The engine counts pairwise preferences, locks pairwise defeats into
//! a directed graph from the strongest down — skipping any defeat that would
//! close a cycle, with defeats of equal strength and margin handled as one
//! batch — and finally reads the ranking off the locked graph as tiers of
//! undefeated candidates.

use vstd::prelude::*;

verus! {

/// One entry of a ballot: a candidate index together with its rank.
/// Lower rank is better; equal ranks tie the candidates on that ballot.
#[derive(Clone, Copy, PartialEq, Eq, Structural, Debug)]
pub struct VoteItem {
    pub candidate: usize,
    // Lower is better.
    pub rank: u64,
}

/// Result of a ranked-pairs tally.
#[derive(Debug)]
pub struct CondorcetTally {
    /// totals[a][b] is the number of ballots preferring candidate a over b.
    pub totals: Vec<Vec<u64>>,
    /// ranks[0] holds the winner(s); ranks[t] holds the winners once the
    /// members of all earlier tiers are removed.
    pub ranks: Vec<Vec<usize>>,
}

/// Whether some entry of `b` names candidate `c`.
pub open spec fn has_candidate(b: Seq<VoteItem>, c: int) -> bool {
    exists|i: int| 0 <= i < b.len() && b[i].candidate == c
}

/// A ballot after validation: entries with out-of-range candidates are
/// dropped, and only the first entry for any given candidate is kept.
pub open spec fn filter_ballot_spec(n: int, b: Seq<VoteItem>) -> Seq<VoteItem>
    decreases b.len(),
{
    if b.len() == 0 {
        Seq::empty()
    } else {
        let prefix = filter_ballot_spec(n, b.drop_last());
        let item = b.last();
        if item.candidate < n && !has_candidate(prefix, item.candidate as int) {
            prefix.push(item)
        } else {
            prefix
        }
    }
}

/// No two entries of `b` name the same candidate.
pub open spec fn distinct_candidates(b: Seq<VoteItem>) -> bool {
    forall|i: int, j: int|
        0 <= i < j < b.len() ==> b[i].candidate != b[j].candidate
}

/// Every candidate named in `b` is below `n`.
pub open spec fn candidates_below(b: Seq<VoteItem>, n: int) -> bool {
    forall|i: int| 0 <= i < b.len() ==> (#[trigger] b[i]).candidate < n
}

/// A validated ballot names each candidate at most once, and only in range.
proof fn lemma_filter_ballot_wf(n: int, b: Seq<VoteItem>)
    ensures
        distinct_candidates(filter_ballot_spec(n, b)),
        candidates_below(filter_ballot_spec(n, b), n),
    decreases b.len(),
{
    if b.len() != 0 {
        lemma_filter_ballot_wf(n, b.drop_last());
        let prefix = filter_ballot_spec(n, b.drop_last());
        let item = b.last();
        if item.candidate < n && !has_candidate(prefix, item.candidate as int) {
            let f = prefix.push(item);
            assert forall|i: int, j: int| 0 <= i < j < f.len() implies
                f[i].candidate != f[j].candidate by {
                if j == f.len() - 1 {
                    assert(f[i] == prefix[i]);
                }
            }
        }
    }
}

/// A validated ballot only keeps entries of the raw ballot.
proof fn lemma_filter_ballot_sub(n: int, b: Seq<VoteItem>)
    ensures
        forall|i: int| 0 <= i < filter_ballot_spec(n, b).len()
            ==> b.contains(#[trigger] filter_ballot_spec(n, b)[i]),
    decreases b.len(),
{
    if b.len() != 0 {
        lemma_filter_ballot_sub(n, b.drop_last());
        let prefix = filter_ballot_spec(n, b.drop_last());
        assert forall|i: int| 0 <= i < filter_ballot_spec(n, b).len() implies
            b.contains(#[trigger] filter_ballot_spec(n, b)[i]) by {
            if i < prefix.len() {
                let j = choose|j: int| 0 <= j < b.drop_last().len() && b.drop_last()[j] == prefix[i];
                assert(b[j] == prefix[i]);
            } else {
                assert(b[b.len() - 1] == filter_ballot_spec(n, b)[i]);
            }
        }
    }
}

/// Validating a ballot is idempotent: re-validating an already validated
/// ballot changes nothing.
pub proof fn lemma_filter_ballot_idempotent(n: int, b: Seq<VoteItem>)
    ensures
        filter_ballot_spec(n, filter_ballot_spec(n, b)) == filter_ballot_spec(n, b),
{
    lemma_filter_ballot_wf(n, b);
    lemma_filter_clean_identity(n, filter_ballot_spec(n, b));
}

/// Validation leaves a ballot unchanged when it is already clean:
/// all candidates in range and no candidate repeated.
proof fn lemma_filter_clean_identity(n: int, b: Seq<VoteItem>)
    requires
        distinct_candidates(b),
        candidates_below(b, n),
    ensures
        filter_ballot_spec(n, b) == b,
    decreases b.len(),
{
    if b.len() == 0 {
        assert(filter_ballot_spec(n, b) =~= b);
    } else {
        lemma_filter_clean_identity(n, b.drop_last());
        let prefix = filter_ballot_spec(n, b.drop_last());
        let item = b.last();
        assert(!has_candidate(prefix, item.candidate as int));
        assert(filter_ballot_spec(n, b) =~= b);
    }
}

/// Validate one raw ballot: drop entries whose candidate index is out of
/// range, and all but the first entry for any given candidate.
pub fn filter_ballot(num_choices: usize, ballot: &Vec<VoteItem>) -> (r: Vec<VoteItem>)
    ensures
        r@ == filter_ballot_spec(num_choices as int, ballot@),
{
    let mut seen: Vec<bool> = Vec::new();
    let mut i: usize = 0;
    while i < num_choices
        invariant
            i <= num_choices,
            seen@.len() == i,
            forall|c: int| 0 <= c < i ==> !seen@[c],
        decreases num_choices - i,
    {
        seen.push(false);
        i = i + 1;
    }
    let mut r: Vec<VoteItem> = Vec::new();
    let mut k: usize = 0;
    while k < ballot.len()
        invariant
            k <= ballot@.len(),
            seen@.len() == num_choices,
            r@ == filter_ballot_spec(num_choices as int, ballot@.take(k as int)),
            forall|c: int| 0 <= c < num_choices
                ==> seen@[c] == has_candidate(r@, c),
        decreases ballot@.len() - k,
    {
        let item = ballot[k];
        proof {
            assert(ballot@.take(k + 1).drop_last() =~= ballot@.take(k as int));
            assert(ballot@.take(k + 1).last() == item);
        }
        if item.candidate < num_choices {
            if !seen[item.candidate] {
                let ghost r0 = r@;
                r.push(item);
                seen.set(item.candidate, true);
                proof {
                    assert(r@ == r0.push(item));
                    assert forall|c: int| 0 <= c < num_choices implies
                        seen@[c] == has_candidate(r@, c) by {
                        if c == item.candidate {
                            assert(r@[r@.len() - 1].candidate == c);
                        } else {
                            assert(has_candidate(r@, c) == has_candidate(r0, c)) by {
                                if has_candidate(r@, c) {
                                    let i0 = choose|i0: int|
                                        0 <= i0 < r@.len() && r@[i0].candidate == c;
                                    assert(r@[r@.len() - 1].candidate == item.candidate);
                                    assert(i0 < r0.len() && r0[i0].candidate == c);
                                }
                                if has_candidate(r0, c) {
                                    let i0 = choose|i0: int|
                                        0 <= i0 < r0.len() && r0[i0].candidate == c;
                                    assert(r@[i0].candidate == c);
                                }
                            }
                        }
                    }
                }
            }
        }
        k = k + 1;
    }
    proof {
        assert(ballot@.take(ballot@.len() as int) =~= ballot@);
    }
    r
}

/// The rank that the (already validated) ballot `f` gives candidate `c`,
/// or None when the ballot does not rank `c`.
pub open spec fn cand_rank_of(f: Seq<VoteItem>, c: int) -> Option<u64>
    decreases f.len(),
{
    if f.len() == 0 {
        None
    } else if f.last().candidate == c {
        Some(f.last().rank)
    } else {
        cand_rank_of(f.drop_last(), c)
    }
}

/// Both candidates are ranked, and the first strictly better than the second.
pub open spec fn pref_by_rank(ra: Option<u64>, rb: Option<u64>) -> bool {
    match (ra, rb) {
        (Some(x), Some(y)) => x < y,
        _ => false,
    }
}

/// On the validated form of the raw ballot, candidate `a` is ranked strictly
/// better (lower) than candidate `b`.
pub open spec fn prefers(n: int, raw: Seq<VoteItem>, a: int, b: int) -> bool {
    pref_by_rank(
        cand_rank_of(filter_ballot_spec(n, raw), a),
        cand_rank_of(filter_ballot_spec(n, raw), b),
    )
}

/// A ballot's contribution to the pairwise cell (a, b): one when it prefers
/// a over b, else zero. Ties and unranked candidates contribute nothing.
pub open spec fn ballot_pref(n: int, raw: Seq<VoteItem>, a: int, b: int) -> nat {
    if prefers(n, raw, a, b) {
        1nat
    } else {
        0nat
    }
}

/// Number of ballots in `bs` that prefer candidate `a` over candidate `b`.
pub open spec fn pair_total(n: int, bs: Seq<Seq<VoteItem>>, a: int, b: int) -> nat
    decreases bs.len(),
{
    if bs.len() == 0 {
        0nat
    } else {
        pair_total(n, bs.drop_last(), a, b) + ballot_pref(n, bs.last(), a, b)
    }
}

/// Each ballot adds at most one to a pairwise cell.
pub proof fn lemma_pair_total_bound(n: int, bs: Seq<Seq<VoteItem>>, a: int, b: int)
    ensures
        pair_total(n, bs, a, b) <= bs.len(),
    decreases bs.len(),
{
    if bs.len() != 0 {
        lemma_pair_total_bound(n, bs.drop_last(), a, b);
    }
}

/// Build the table of ranks that one ballot gives each candidate.
fn rank_table(num_choices: usize, ballot: &Vec<VoteItem>) -> (tab: Vec<Option<u64>>)
    ensures
        tab@.len() == num_choices,
        forall|c: int| 0 <= c < num_choices
            ==> tab@[c] == cand_rank_of(
                filter_ballot_spec(num_choices as int, ballot@), c),
{
    let f = filter_ballot(num_choices, ballot);
    proof {
        lemma_filter_ballot_wf(num_choices as int, ballot@);
    }
    let mut tab: Vec<Option<u64>> = Vec::new();
    let mut c: usize = 0;
    while c < num_choices
        invariant
            c <= num_choices,
            tab@.len() == c,
            forall|c0: int| 0 <= c0 < c ==> tab@[c0] == cand_rank_of(Seq::<VoteItem>::empty(), c0),
        decreases num_choices - c,
    {
        tab.push(None);
        c = c + 1;
    }
    proof {
        assert(f@.take(0) =~= Seq::<VoteItem>::empty());
    }
    let mut i: usize = 0;
    while i < f.len()
        invariant
            i <= f@.len(),
            tab@.len() == num_choices,
            candidates_below(f@, num_choices as int),
            forall|c0: int| 0 <= c0 < num_choices
                ==> tab@[c0] == cand_rank_of(f@.take(i as int), c0),
        decreases f@.len() - i,
    {
        let item = f[i];
        tab.set(item.candidate, Some(item.rank));
        proof {
            assert(f@.take(i + 1).drop_last() =~= f@.take(i as int));
            assert(f@.take(i + 1).last() == item);
        }
        i = i + 1;
    }
    proof {
        assert(f@.take(f@.len() as int) =~= f@);
    }
    tab
}

/// The rank tables of all ballots are correctly built for `views`.
pub open spec fn tabs_ok(n: int, tabs: Seq<Vec<Option<u64>>>, views: Seq<Seq<VoteItem>>) -> bool {
    &&& tabs.len() == views.len()
    &&& forall|k: int| 0 <= k < tabs.len() ==> (#[trigger] tabs[k])@.len() == n
    &&& forall|k: int, c: int|
        0 <= k < tabs.len() && 0 <= c < n
            ==> #[trigger] tabs[k]@[c] == cand_rank_of(filter_ballot_spec(n, views[k]), c)
}

/// Compute the full pairwise-preference matrix for an election.
fn compute_totals(num_choices: usize, votes: &Vec<Vec<VoteItem>>) -> (totals: Vec<Vec<u64>>)
    ensures
        totals@.len() == num_choices,
        forall|a: int| 0 <= a < num_choices ==> (#[trigger] totals@[a])@.len() == num_choices,
        forall|a: int, b: int| 0 <= a < num_choices && 0 <= b < num_choices
            ==> (#[trigger] totals@[a]@[b]) as nat
                == pair_total(num_choices as int, ballots_view(*votes), a, b),
{
    let ghost views = ballots_view(*votes);
    let ghost n = num_choices as int;
    let mut tabs: Vec<Vec<Option<u64>>> = Vec::new();
    let mut k: usize = 0;
    while k < votes.len()
        invariant
            k <= votes@.len(),
            n == num_choices as int,
            views == ballots_view(*votes),
            tabs_ok(n, tabs@, views.take(k as int)),
        decreases votes@.len() - k,
    {
        let tab = rank_table(num_choices, &votes[k]);
        tabs.push(tab);
        proof {
            assert(views.take(k + 1).drop_last() =~= views.take(k as int));
            assert(views.take(k + 1)[k as int] == votes@[k as int]@);
        }
        k = k + 1;
    }
    proof {
        assert(views.take(views.len() as int) =~= views);
    }
    let mut totals: Vec<Vec<u64>> = Vec::new();
    let mut a: usize = 0;
    while a < num_choices
        invariant
            a <= num_choices,
            n == num_choices as int,
            views == ballots_view(*votes),
            tabs_ok(n, tabs@, views),
            totals@.len() == a,
            forall|a0: int| 0 <= a0 < a ==> (#[trigger] totals@[a0])@.len() == num_choices,
            forall|a0: int, b0: int| 0 <= a0 < a && 0 <= b0 < num_choices
                ==> (#[trigger] totals@[a0]@[b0]) as nat == pair_total(n, views, a0, b0),
        decreases num_choices - a,
    {
        let mut row: Vec<u64> = Vec::new();
        let mut b: usize = 0;
        while b < num_choices
            invariant
                b <= num_choices,
                a < num_choices,
                n == num_choices as int,
                views == ballots_view(*votes),
                tabs_ok(n, tabs@, views),
                row@.len() == b,
                forall|b0: int| 0 <= b0 < b
                    ==> (#[trigger] row@[b0]) as nat == pair_total(n, views, a as int, b0),
            decreases num_choices - b,
        {
            let mut cnt: u64 = 0;
            let mut k2: usize = 0;
            while k2 < tabs.len()
                invariant
                    k2 <= tabs@.len(),
                    a < num_choices,
                    b < num_choices,
                    n == num_choices as int,
                    views == ballots_view(*votes),
                    tabs_ok(n, tabs@, views),
                    cnt as nat == pair_total(n, views.take(k2 as int), a as int, b as int),
                    cnt <= k2,
                decreases tabs@.len() - k2,
            {
                proof {
                    assert((tabs@[k2 as int])@.len() == n);
                }
                let ra = tabs[k2][a];
                let rb = tabs[k2][b];
                let hit = match (ra, rb) {
                    (Some(x), Some(y)) => x < y,
                    _ => false,
                };
                proof {
                    assert(views.take(k2 + 1).drop_last() =~= views.take(k2 as int));
                    assert(views.take(k2 + 1).last() == views[k2 as int]);
                    assert(hit == prefers(n, views[k2 as int], a as int, b as int));
                }
                if hit {
                    cnt = cnt + 1;
                }
                k2 = k2 + 1;
            }
            proof {
                assert(views.take(views.len() as int) =~= views);
            }
            row.push(cnt);
            b = b + 1;
        }
        totals.push(row);
        a = a + 1;
    }
    totals
}


/// A defeat graph over candidates, as an adjacency matrix:
/// `m[a][b]` holds when the defeat a-over-b is locked in.
pub open spec fn is_square(g: Vec<Vec<bool>>) -> bool {
    forall|i: int| 0 <= i < g@.len() ==> (#[trigger] g@[i])@.len() == g@.len()
}

/// The edges of an adjacency matrix, as a set of (from, to) pairs.
pub open spec fn edges_of(g: Vec<Vec<bool>>) -> Set<(int, int)> {
    Set::new(
        |e: (int, int)|
            0 <= e.0 < g@.len() && 0 <= e.1 < g@[e.0]@.len() && g@[e.0]@[e.1],
    )
}

/// Every consecutive pair of `p` is an edge of `g`.
pub open spec fn is_path(g: Set<(int, int)>, p: Seq<int>) -> bool {
    forall|i: int| 0 <= i < p.len() - 1 ==> #[trigger] g.contains((p[i], p[i + 1]))
}

/// Each consecutive pair of a path is an edge.
proof fn lemma_path_edge(g: Set<(int, int)>, p: Seq<int>, i: int)
    requires
        is_path(g, p),
        0 <= i < p.len() - 1,
    ensures
        g.contains((p[i], p[i + 1])),
{
}

/// Node `to` can be reached from `from` along edges of `g`
/// (trivially so when the two are equal).
pub open spec fn reachable(g: Set<(int, int)>, from: int, to: int) -> bool {
    exists|p: Seq<int>|
        is_path(g, p) && p.len() >= 1 && p.first() == from && p.last() == to
}

proof fn lemma_reachable_self(g: Set<(int, int)>, x: int)
    ensures
        reachable(g, x, x),
{
    let p = seq![x];
    assert(is_path(g, p) && p.len() >= 1 && p.first() == x && p.last() == x);
}

proof fn lemma_reachable_step(g: Set<(int, int)>, a: int, x: int, y: int)
    requires
        reachable(g, a, x),
        g.contains((x, y)),
    ensures
        reachable(g, a, y),
{
    let p = choose|p: Seq<int>|
        is_path(g, p) && p.len() >= 1 && p.first() == a && p.last() == x;
    let q = p.push(y);
    assert forall|i: int| 0 <= i < q.len() - 1 implies g.contains((#[trigger] q[i], q[i + 1])) by {
        if i < p.len() - 1 {
            assert(q[i] == p[i] && q[i + 1] == p[i + 1]);
        } else {
            assert(q[i] == p.last() && q[i + 1] == y);
        }
    }
    assert(is_path(g, q) && q.len() >= 1 && q.first() == a && q.last() == y);
}

/// A node reached from elsewhere has an incoming edge.
proof fn lemma_reachable_has_in_edge(g: Set<(int, int)>, a: int, b: int)
    requires
        reachable(g, a, b),
        a != b,
    ensures
        exists|z: int| g.contains((z, b)),
{
    let p = choose|p: Seq<int>|
        is_path(g, p) && p.len() >= 1 && p.first() == a && p.last() == b;
    assert(p.len() >= 2);
    lemma_path_edge(g, p, p.len() - 2);
}

/// A path that starts inside a successor-closed node set ends inside it.
proof fn lemma_path_stays_in(g: Set<(int, int)>, d: Set<int>, p: Seq<int>)
    requires
        is_path(g, p),
        p.len() >= 1,
        d.contains(p.first()),
        forall|x: int, y: int| d.contains(x) && #[trigger] g.contains((x, y)) ==> d.contains(y),
    ensures
        d.contains(p.last()),
    decreases p.len(),
{
    if p.len() > 1 {
        assert(is_path(g, p.drop_last())) by {
            assert forall|i: int| 0 <= i < p.drop_last().len() - 1 implies
                #[trigger] g.contains((p.drop_last()[i], p.drop_last()[i + 1])) by {
                lemma_path_edge(g, p, i);
            }
        }
        lemma_path_stays_in(g, d, p.drop_last());
        lemma_path_edge(g, p, p.len() - 2);
        assert(p.drop_last().last() == p[p.len() - 2]);
    }
}

/// Nothing outside a successor-closed node set is reachable from inside it.
proof fn lemma_closed_unreachable(g: Set<(int, int)>, d: Set<int>, from: int, to: int)
    requires
        d.contains(from),
        !d.contains(to),
        forall|x: int, y: int| d.contains(x) && #[trigger] g.contains((x, y)) ==> d.contains(y),
    ensures
        !reachable(g, from, to),
{
    if reachable(g, from, to) {
        let p = choose|p: Seq<int>|
            is_path(g, p) && p.len() >= 1 && p.first() == from && p.last() == to;
        lemma_path_stays_in(g, d, p);
    }
}

/// Number of true entries of a boolean sequence.
spec fn count_trues(s: Seq<bool>) -> nat
    decreases s.len(),
{
    if s.len() == 0 {
        0nat
    } else {
        count_trues(s.drop_last()) + if s.last() {
            1nat
        } else {
            0nat
        }
    }
}

proof fn lemma_count_trues_le(s: Seq<bool>)
    ensures
        count_trues(s) <= s.len(),
    decreases s.len(),
{
    if s.len() != 0 {
        lemma_count_trues_le(s.drop_last());
    }
}

proof fn lemma_count_trues_set(s: Seq<bool>, i: int)
    requires
        0 <= i < s.len(),
        !s[i],
    ensures
        count_trues(s.update(i, true)) == count_trues(s) + 1,
    decreases s.len(),
{
    let t = s.update(i, true);
    if i == s.len() - 1 {
        assert(t.drop_last() =~= s.drop_last());
    } else {
        assert(t.drop_last() =~= s.drop_last().update(i, true));
        lemma_count_trues_set(s.drop_last(), i);
    }
}

/// Some entry of `st` equals `y`.
pub open spec fn stack_has(st: Seq<usize>, y: int) -> bool {
    exists|s: int| 0 <= s < st.len() && st[s] == y
}

/// Whether candidate `b` can be reached from candidate `a` in the defeat
/// graph: an iterative depth-first search with an explicit stack.
#[verifier::rlimit(60)]
pub fn is_reachable(a: usize, b: usize, graph: &Vec<Vec<bool>>) -> (r: bool)
    requires
        is_square(*graph),
        a < graph@.len(),
        b < graph@.len(),
    ensures
        r == reachable(edges_of(*graph), a as int, b as int),
{
    let n = graph.len();
    let ghost g = edges_of(*graph);
    let mut discovered: Vec<bool> = Vec::new();
    let mut i: usize = 0;
    while i < n
        invariant
            i <= n,
            discovered@.len() == i,
            forall|c: int| 0 <= c < i ==> !discovered@[c],
        decreases n - i,
    {
        discovered.push(false);
        i = i + 1;
    }
    let mut num_discovered: usize = 0;
    proof {
        assert(count_trues(discovered@) == 0) by {
            lemma_count_trues_all_false(discovered@);
        }
    }
    let mut stack: Vec<usize> = Vec::new();
    stack.push(a);
    proof {
        lemma_reachable_self(g, a as int);
        assert(stack@[0] == a);
    }
    while stack.len() > 0
        invariant
            n == graph@.len(),
            is_square(*graph),
            g == edges_of(*graph),
            a < n,
            b < n,
            discovered@.len() == n,
            num_discovered == count_trues(discovered@),
            forall|s: int| 0 <= s < stack@.len() ==> (#[trigger] stack@[s]) < n,
            forall|s: int| 0 <= s < stack@.len()
                ==> reachable(g, a as int, (#[trigger] stack@[s]) as int),
            forall|c: int| 0 <= c < n && discovered@[c] ==> reachable(g, a as int, c),
            forall|c: int| 0 <= c < n && discovered@[c] ==> c != b,
            forall|c: int, y: int|
                0 <= c < n && discovered@[c] && #[trigger] g.contains((c, y))
                    ==> discovered@[y] || stack_has(stack@, y),
            stack_has(stack@, a as int) || discovered@[a as int],
        decreases n - num_discovered, stack@.len(),
    {
        let ghost stack0 = stack@;
        let node = stack.pop().unwrap();
        proof {
            assert(stack0[stack0.len() - 1] == node);
        }
        if !discovered[node] {
            if node == b {
                return true;
            }
            let ghost disc0 = discovered@;
            discovered.set(node, true);
            proof {
                lemma_count_trues_set(disc0, node as int);
                lemma_count_trues_le(discovered@);
            }
            num_discovered = num_discovered + 1;
            proof {
                assert forall|c: int, y0: int|
                    0 <= c < n && c != node && discovered@[c] && #[trigger] g.contains((c, y0))
                        implies discovered@[y0] || stack_has(stack@, y0) by {
                    if !discovered@[y0] {
                        assert(disc0[c]);
                        assert(y0 != node as int);
                        assert(!disc0[y0]);
                        let s = choose|s: int| 0 <= s < stack0.len() && stack0[s] == y0;
                        if s < stack0.len() - 1 {
                            assert(stack@[s] == y0);
                        }
                    }
                }
                assert(stack_has(stack@, a as int) || discovered@[a as int]) by {
                    if a as int != node as int && !discovered@[a as int] {
                        let s = choose|s: int| 0 <= s < stack0.len() && stack0[s] == a as int;
                        if s < stack0.len() - 1 {
                            assert(stack@[s] == a as int);
                        }
                    }
                }
            }
            let mut y: usize = 0;
            while y < n
                invariant
                    n == graph@.len(),
                    is_square(*graph),
                    g == edges_of(*graph),
                    a < n,
                    b < n,
                    node < n,
                    y <= n,
                    discovered@.len() == n,
                    num_discovered == count_trues(discovered@),
                    num_discovered <= n,
                    discovered@[node as int],
                    reachable(g, a as int, node as int),
                    forall|s: int| 0 <= s < stack@.len() ==> (#[trigger] stack@[s]) < n,
                    forall|s: int| 0 <= s < stack@.len()
                        ==> reachable(g, a as int, (#[trigger] stack@[s]) as int),
                    forall|c: int| 0 <= c < n && discovered@[c] ==> reachable(g, a as int, c),
                    forall|c: int| 0 <= c < n && discovered@[c] ==> c != b,
                    forall|c: int, y0: int|
                        0 <= c < n && c != node && discovered@[c] && #[trigger] g.contains((c, y0))
                            ==> discovered@[y0] || stack_has(stack@, y0),
                    forall|y0: int| 0 <= y0 < y && #[trigger] g.contains((node as int, y0))
                        ==> stack_has(stack@, y0),
                    stack_has(stack@, a as int) || discovered@[a as int],
                decreases n - y,
            {
                if graph[node][y] {
                    let ghost stack1 = stack@;
                    stack.push(y);
                    proof {
                        assert(stack@[stack@.len() - 1] == y);
                        assert forall|z: int| stack_has(stack1, z) implies stack_has(stack@, z) by {
                            let s = choose|s: int| 0 <= s < stack1.len() && stack1[s] == z;
                            assert(stack@[s] == z);
                        }
                        lemma_reachable_step(g, a as int, node as int, y as int);
                    }
                }
                y = y + 1;
            }
            proof {
                assert forall|c: int, y0: int|
                    0 <= c < n && discovered@[c] && #[trigger] g.contains((c, y0))
                        implies discovered@[y0] || stack_has(stack@, y0) by {
                    if c == node {
                        assert(0 <= y0 < n);
                    }
                }
            }
        } else {
            proof {
                assert forall|c: int, y0: int|
                    0 <= c < n && discovered@[c] && #[trigger] g.contains((c, y0))
                        implies discovered@[y0] || stack_has(stack@, y0) by {
                    if !discovered@[y0] {
                        let s = choose|s: int| 0 <= s < stack0.len() && stack0[s] == y0;
                        if s < stack0.len() - 1 {
                            assert(stack@[s] == y0);
                        } else {
                            assert(discovered@[node as int]);
                        }
                    }
                }
                assert(stack_has(stack@, a as int) || discovered@[a as int]) by {
                    if !discovered@[a as int] {
                        let s = choose|s: int| 0 <= s < stack0.len() && stack0[s] == a as int;
                        if s < stack0.len() - 1 {
                            assert(stack@[s] == a as int);
                        }
                    }
                }
            }
        }
    }
    proof {
        let d = Set::new(|c: int| 0 <= c < n && discovered@[c]);
        assert(d.contains(a as int));
        assert forall|x: int, y: int| d.contains(x) && #[trigger] g.contains((x, y))
            implies d.contains(y) by {
            assert(0 <= y < n);
        }
        lemma_closed_unreachable(g, d, a as int, b as int);
    }
    false
}

proof fn lemma_count_trues_all_false(s: Seq<bool>)
    requires
        forall|c: int| 0 <= c < s.len() ==> !s[c],
    ensures
        count_trues(s) == 0,
    decreases s.len(),
{
    if s.len() != 0 {
        lemma_count_trues_all_false(s.drop_last());
    }
}


/// Ordered pair (a, b) is a candidate defeat: a strictly beats b pairwise.
pub open spec fn is_defeat(n: int, bs: Seq<Seq<VoteItem>>, a: int, b: int) -> bool {
    &&& 0 <= a < n
    &&& 0 <= b < n
    &&& pair_total(n, bs, a, b) > pair_total(n, bs, b, a)
}

/// Strength and margin of a defeat folded into one integer so that
/// comparing keys is comparing (strength, margin) lexicographically.
pub open spec fn defeat_key(n: int, bs: Seq<Seq<VoteItem>>, a: int, b: int) -> int {
    let s = pair_total(n, bs, a, b) as int;
    let m = s - pair_total(n, bs, b, a) as int;
    s * (bs.len() + 1) + m
}

/// The largest value a defeat key can take with this many ballots.
pub open spec fn max_defeat_key(bs: Seq<Seq<VoteItem>>) -> int {
    (bs.len() + 1) * (bs.len() + 1) - 1
}

/// All defeats of the election that share the key `k`: one tie group.
pub open spec fn group_at(n: int, bs: Seq<Seq<VoteItem>>, k: int) -> Set<(int, int)> {
    Set::new(|e: (int, int)| is_defeat(n, bs, e.0, e.1) && defeat_key(n, bs, e.0, e.1) == k)
}

/// Insert a whole tie group into the graph at once, then drop every member
/// that closes a cycle in the graph as it stands after all the insertions.
/// Because the cycle test runs only after the batch insert, the outcome does
/// not depend on any order within the group.
pub open spec fn lock_group(g: Set<(int, int)>, grp: Set<(int, int)>) -> Set<(int, int)> {
    let ins = g.union(grp);
    ins.difference(Set::new(|e: (int, int)| grp.contains(e) && reachable(ins, e.1, e.0)))
}

/// The defeat graph after the `steps` strongest key classes have been
/// processed, walking from `max_defeat_key` downward.
pub open spec fn locked_steps(n: int, bs: Seq<Seq<VoteItem>>, steps: nat) -> Set<(int, int)>
    decreases steps,
{
    if steps == 0 {
        Set::empty()
    } else {
        lock_group(
            locked_steps(n, bs, (steps - 1) as nat),
            group_at(n, bs, max_defeat_key(bs) - (steps - 1)),
        )
    }
}

/// The final locked defeat graph of the election.
pub open spec fn locked_graph(n: int, bs: Seq<Seq<VoteItem>>) -> Set<(int, int)> {
    locked_steps(n, bs, (max_defeat_key(bs) + 1) as nat)
}

/// Defeat keys order exactly as (strength, margin) pairs do, and every
/// defeat key lies between 0 and the maximum.
proof fn lemma_key_lex(cap: int, s1: int, m1: int, s2: int, m2: int)
    requires
        0 <= m1 <= s1 <= cap,
        0 <= m2 <= s2 <= cap,
    ensures
        (s1 * (cap + 1) + m1 < s2 * (cap + 1) + m2) <==> (s1 < s2 || (s1 == s2 && m1 < m2)),
        (s1 * (cap + 1) + m1 == s2 * (cap + 1) + m2) <==> (s1 == s2 && m1 == m2),
        0 <= s1 * (cap + 1) + m1 <= (cap + 1) * (cap + 1) - 1,
{
    assert((s1 < s2 ==> s1 * (cap + 1) + m1 < s2 * (cap + 1) + m2)
        && (s1 == s2 ==> (s1 * (cap + 1) + m1 < s2 * (cap + 1) + m2 <==> m1 < m2))
        && (s1 > s2 ==> s1 * (cap + 1) + m1 > s2 * (cap + 1) + m2)
        && ((s1 * (cap + 1) + m1 == s2 * (cap + 1) + m2) <==> (s1 == s2 && m1 == m2))
        && 0 <= s1 * (cap + 1) + m1 <= (cap + 1) * (cap + 1) - 1) by (nonlinear_arith)
        requires
            0 <= m1 <= s1 <= cap,
            0 <= m2 <= s2 <= cap,
    ;
}

/// The key of any defeat lies between 0 and `max_defeat_key`.
proof fn lemma_defeat_key_bounds(n: int, bs: Seq<Seq<VoteItem>>, a: int, b: int)
    requires
        is_defeat(n, bs, a, b),
    ensures
        0 <= defeat_key(n, bs, a, b) <= max_defeat_key(bs),
{
    lemma_pair_total_bound(n, bs, a, b);
    lemma_pair_total_bound(n, bs, b, a);
    let s = pair_total(n, bs, a, b) as int;
    let m = s - pair_total(n, bs, b, a) as int;
    lemma_key_lex(bs.len() as int, s, m, s, m);
}

/// Locking an empty group leaves the graph unchanged.
proof fn lemma_lock_group_empty(g: Set<(int, int)>)
    ensures
        lock_group(g, Set::empty()) == g,
{
    assert(g.union(Set::empty()) =~= g);
    assert(lock_group(g, Set::empty()) =~= g);
}

/// Key classes without any defeat do not move the graph: the locked graph
/// after `s2` steps equals the one after `s1` steps when all the key classes
/// in between are empty.
proof fn lemma_locked_steps_skip(n: int, bs: Seq<Seq<VoteItem>>, s1: nat, s2: nat)
    requires
        s1 <= s2,
        forall|j: int| s1 <= j < s2 ==> (#[trigger] group_at(n, bs, max_defeat_key(bs) - j)).is_empty(),
    ensures
        locked_steps(n, bs, s2) == locked_steps(n, bs, s1),
    decreases s2 - s1,
{
    if s2 > s1 {
        lemma_locked_steps_skip(n, bs, s1, (s2 - 1) as nat);
        assert(group_at(n, bs, max_defeat_key(bs) - (s2 - 1)).is_empty());
        assert(group_at(n, bs, max_defeat_key(bs) - (s2 - 1)) =~= Set::empty());
        lemma_lock_group_empty(locked_steps(n, bs, (s2 - 1) as nat));
    }
}

/// Some entry of `ds` is the pair (x, y).
pub open spec fn pair_in(ds: Seq<(usize, usize)>, x: int, y: int) -> bool {
    exists|i: int| 0 <= i < ds.len() && ds[i].0 == x && ds[i].1 == y
}

/// The entries of `ds` as a set of integer pairs.
pub open spec fn pairs_set(ds: Seq<(usize, usize)>) -> Set<(int, int)> {
    Set::new(|e: (int, int)| pair_in(ds, e.0, e.1))
}


/// The pairwise matrix `totals` agrees with the spec totals of `bs`.
pub open spec fn totals_ok(n: int, totals: Seq<Vec<u64>>, bs: Seq<Seq<VoteItem>>) -> bool {
    &&& totals.len() == n
    &&& forall|a: int| 0 <= a < n ==> (#[trigger] totals[a])@.len() == n
    &&& forall|a: int, b: int|
        0 <= a < n && 0 <= b < n
            ==> (#[trigger] totals[a]@[b]) as nat == pair_total(n, bs, a, b)
}

/// Set one cell of the adjacency matrix.
fn set_edge(graph: &mut Vec<Vec<bool>>, x: usize, y: usize, v: bool)
    requires
        x < old(graph)@.len(),
        y < old(graph)@[x as int]@.len(),
    ensures
        final(graph)@.len() == old(graph)@.len(),
        forall|i: int| 0 <= i < final(graph)@.len() && i != x
            ==> final(graph)@[i] == old(graph)@[i],
        final(graph)@[x as int]@ == old(graph)@[x as int]@.update(y as int, v),
{
    let mut row = graph.remove(x);
    row.set(y, v);
    graph.insert(x, row);
    proof {
        assert(graph@ =~= old(graph)@.update(x as int, graph@[x as int]));
    }
}

/// Build the locked defeat graph: collect every pairwise defeat, then
/// process the defeats in descending (strength, margin) order, one whole
/// tie group at a time — insert the group, then drop the members that
/// closed a cycle.
#[verifier::loop_isolation(false)]
#[verifier::rlimit(100)]
fn lock_defeats(
    num_choices: usize,
    totals: &Vec<Vec<u64>>,
    Ghost(bs): Ghost<Seq<Seq<VoteItem>>>,
) -> (graph: Vec<Vec<bool>>)
    requires
        totals_ok(num_choices as int, totals@, bs),
    ensures
        graph@.len() == num_choices,
        is_square(graph),
        edges_of(graph) == locked_graph(num_choices as int, bs),
{
    let ghost n = num_choices as int;
    let ghost cap = bs.len() as int;
    // Empty n-by-n adjacency matrix.
    let mut graph: Vec<Vec<bool>> = Vec::new();
    let mut a: usize = 0;
    while a < num_choices
        invariant
            a <= num_choices,
            graph@.len() == a,
            forall|i: int| 0 <= i < a ==> (#[trigger] graph@[i])@.len() == num_choices,
            forall|i: int, j: int| 0 <= i < a && 0 <= j < num_choices
                ==> !(#[trigger] graph@[i]@[j]),
        decreases num_choices - a,
    {
        let mut row: Vec<bool> = Vec::new();
        let mut b: usize = 0;
        while b < num_choices
            invariant
                b <= num_choices,
                row@.len() == b,
                forall|j: int| 0 <= j < b ==> !(#[trigger] row@[j]),
            decreases num_choices - b,
        {
            row.push(false);
            b = b + 1;
        }
        graph.push(row);
        a = a + 1;
    }
    proof {
        assert(edges_of(graph) =~= Set::<(int, int)>::empty());
        assert(edges_of(graph) == locked_steps(n, bs, 0));
    }
    // Collect every pairwise defeat.
    let mut defeats: Vec<(usize, usize)> = Vec::new();
    let mut x: usize = 0;
    while x < num_choices
        invariant
            x <= num_choices,
            forall|i: int| 0 <= i < defeats@.len()
                ==> is_defeat(n, bs, (#[trigger] defeats@[i]).0 as int, defeats@[i].1 as int),
            forall|x0: int, y0: int|
                0 <= x0 < x && 0 <= y0 < num_choices && is_defeat(n, bs, x0, y0)
                    ==> pair_in(defeats@, x0, y0),
        decreases num_choices - x,
    {
        let mut y: usize = 0;
        while y < num_choices
            invariant
                y <= num_choices,
                forall|i: int| 0 <= i < defeats@.len()
                    ==> is_defeat(n, bs, (#[trigger] defeats@[i]).0 as int, defeats@[i].1 as int),
                forall|x0: int, y0: int|
                    0 <= x0 < x && 0 <= y0 < num_choices && is_defeat(n, bs, x0, y0)
                        ==> pair_in(defeats@, x0, y0),
                forall|y0: int|
                    0 <= y0 < y && is_defeat(n, bs, x as int, y0)
                        ==> pair_in(defeats@, x as int, y0),
            decreases num_choices - y,
        {
            if totals[x][y] > totals[y][x] {
                let ghost d0 = defeats@;
                defeats.push((x, y));
                proof {
                    assert(defeats@[defeats@.len() - 1] == (x, y));
                    assert forall|x0: int, y0: int| pair_in(d0, x0, y0)
                        implies pair_in(defeats@, x0, y0) by {
                        let i = choose|i: int| 0 <= i < d0.len() && (#[trigger] d0[i]).0 == x0 && d0[i].1 == y0;
                        assert(defeats@[i].0 == x0 && defeats@[i].1 == y0);
                    }
                }
            }
            y = y + 1;
        }
        x = x + 1;
    }
    // Process defeats a tie group at a time, strongest key first.
    let mut remaining = defeats;
    let ghost mut pdt: int = max_defeat_key(bs);
    proof {
        assert((cap + 1) * (cap + 1) - 1 >= 0) by (nonlinear_arith)
            requires cap >= 0;
        assert forall|i: int| 0 <= i < remaining@.len() implies
            is_defeat(n, bs, (#[trigger] remaining@[i]).0 as int, remaining@[i].1 as int)
                && defeat_key(n, bs, remaining@[i].0 as int, remaining@[i].1 as int) <= pdt by {
            lemma_defeat_key_bounds(n, bs, remaining@[i].0 as int, remaining@[i].1 as int);
        }
    }
    while remaining.len() > 0
        invariant
            graph@.len() == num_choices,
            is_square(graph),
            -1 <= pdt <= max_defeat_key(bs),
            edges_of(graph) == locked_steps(n, bs, (max_defeat_key(bs) - pdt) as nat),
            forall|i: int| 0 <= i < remaining@.len()
                ==> is_defeat(n, bs, (#[trigger] remaining@[i]).0 as int, remaining@[i].1 as int)
                    && defeat_key(n, bs, remaining@[i].0 as int, remaining@[i].1 as int) <= pdt,
            forall|x0: int, y0: int|
                is_defeat(n, bs, x0, y0) && defeat_key(n, bs, x0, y0) <= pdt
                    ==> pair_in(remaining@, x0, y0),
        decreases remaining@.len(),
    {
        // Find a defeat of maximal key.
        let mut best: usize = 0;
        let mut i: usize = 1;
        while i < remaining.len()
            invariant
                best < remaining@.len(),
                1 <= i <= remaining@.len(),
                forall|j: int| 0 <= j < i
                    ==> defeat_key(n, bs, (#[trigger] remaining@[j]).0 as int, remaining@[j].1 as int)
                        <= defeat_key(n, bs, remaining@[best as int].0 as int, remaining@[best as int].1 as int),
            decreases remaining@.len() - i,
        {
            let ei = remaining[i];
            let eb = remaining[best];
            let si = totals[ei.0][ei.1];
            let ti = totals[ei.1][ei.0];
            let sb = totals[eb.0][eb.1];
            let tb = totals[eb.1][eb.0];
            proof {
                lemma_pair_total_bound(n, bs, ei.0 as int, ei.1 as int);
                lemma_pair_total_bound(n, bs, ei.1 as int, ei.0 as int);
                lemma_pair_total_bound(n, bs, eb.0 as int, eb.1 as int);
                lemma_pair_total_bound(n, bs, eb.1 as int, eb.0 as int);
                lemma_key_lex(cap, si as int, si - ti, sb as int, sb - tb);
            }
            if si > sb || (si == sb && si - ti > sb - tb) {
                best = i;
            }
            i = i + 1;
        }
        let eb = remaining[best];
        let ghost kmax = defeat_key(n, bs, eb.0 as int, eb.1 as int);
        proof {
            lemma_defeat_key_bounds(n, bs, eb.0 as int, eb.1 as int);
        }
        let sb = totals[eb.0][eb.1];
        let tb = totals[eb.1][eb.0];
        // Split the remaining defeats into this tie group and the rest.
        let mut grp: Vec<(usize, usize)> = Vec::new();
        let mut rest: Vec<(usize, usize)> = Vec::new();
        let mut i2: usize = 0;
        while i2 < remaining.len()
            invariant
                i2 <= remaining@.len(),
                grp@.len() + rest@.len() == i2,
                i2 > best ==> grp@.len() >= 1,
                forall|j: int| 0 <= j < grp@.len()
                    ==> is_defeat(n, bs, (#[trigger] grp@[j]).0 as int, grp@[j].1 as int)
                        && defeat_key(n, bs, grp@[j].0 as int, grp@[j].1 as int) == kmax,
                forall|j: int| 0 <= j < rest@.len()
                    ==> is_defeat(n, bs, (#[trigger] rest@[j]).0 as int, rest@[j].1 as int)
                        && defeat_key(n, bs, rest@[j].0 as int, rest@[j].1 as int) < kmax,
                forall|x0: int, y0: int| pair_in(remaining@.take(i2 as int), x0, y0)
                    ==> pair_in(grp@, x0, y0) || pair_in(rest@, x0, y0),
            decreases remaining@.len() - i2,
        {
            let e = remaining[i2];
            let s = totals[e.0][e.1];
            let t = totals[e.1][e.0];
            proof {
                lemma_pair_total_bound(n, bs, e.0 as int, e.1 as int);
                lemma_pair_total_bound(n, bs, e.1 as int, e.0 as int);
                lemma_pair_total_bound(n, bs, eb.0 as int, eb.1 as int);
                lemma_pair_total_bound(n, bs, eb.1 as int, eb.0 as int);
                lemma_key_lex(cap, s as int, s - t, sb as int, sb - tb);
            }
            let ghost grp0 = grp@;
            let ghost rest0 = rest@;
            if s == sb && s - t == sb - tb {
                grp.push(e);
                proof { assert(grp@[grp@.len() - 1] == e); }
            } else {
                rest.push(e);
                proof { assert(rest@[rest@.len() - 1] == e); }
            }
            proof {
                assert forall|x0: int, y0: int| pair_in(remaining@.take(i2 + 1), x0, y0)
                    implies pair_in(grp@, x0, y0) || pair_in(rest@, x0, y0) by {
                    let j = choose|j: int| 0 <= j < remaining@.take(i2 + 1).len()
                        && (#[trigger] remaining@.take(i2 + 1)[j]).0 == x0
                        && remaining@.take(i2 + 1)[j].1 == y0;
                    if j < i2 {
                        assert(pair_in(remaining@.take(i2 as int), x0, y0)) by {
                            assert(remaining@.take(i2 as int)[j] == remaining@[j]);
                        }
                        assert forall|z0: int, w0: int| pair_in(grp0, z0, w0)
                            implies pair_in(grp@, z0, w0) by {
                            let j2 = choose|j2: int| 0 <= j2 < grp0.len() && (#[trigger] grp0[j2]).0 == z0 && grp0[j2].1 == w0;
                            assert(grp@[j2].0 == z0 && grp@[j2].1 == w0);
                        }
                        assert forall|z0: int, w0: int| pair_in(rest0, z0, w0)
                            implies pair_in(rest@, z0, w0) by {
                            let j2 = choose|j2: int| 0 <= j2 < rest0.len() && (#[trigger] rest0[j2]).0 == z0 && rest0[j2].1 == w0;
                            assert(rest@[j2].0 == z0 && rest@[j2].1 == w0);
                        }
                    } else {
                        assert(remaining@.take(i2 + 1)[j] == e);
                        if s == sb && s - t == sb - tb {
                            assert(grp@[grp@.len() - 1].0 == x0 && grp@[grp@.len() - 1].1 == y0);
                        } else {
                            assert(rest@[rest@.len() - 1].0 == x0 && rest@[rest@.len() - 1].1 == y0);
                        }
                    }
                }
            }
            i2 = i2 + 1;
        }
        proof {
            assert(remaining@.take(remaining@.len() as int) =~= remaining@);
        }
        // The group we built is exactly the spec tie group at kmax.
        let ghost grpset = group_at(n, bs, kmax);
        // Insert the whole group.
        let ghost g0 = edges_of(graph);
        let mut j: usize = 0;
        while j < grp.len()
            invariant
                j <= grp@.len(),
                graph@.len() == num_choices,
                is_square(graph),
                edges_of(graph) == g0.union(pairs_set(grp@.take(j as int))),
            decreases grp@.len() - j,
        {
            let e = grp[j];
            proof {
                assert(grp@[j as int] == e);
                assert(is_defeat(n, bs, e.0 as int, e.1 as int));
            }
            let ghost gprev = graph;
            set_edge(&mut graph, e.0, e.1, true);
            proof {
                assert(edges_of(graph) =~= g0.union(pairs_set(grp@.take(j + 1)))) by {
                    assert forall|e2: (int, int)|
                        edges_of(graph).contains(e2)
                            == g0.union(pairs_set(grp@.take(j + 1))).contains(e2) by {
                        let x0 = e2.0;
                        let y0 = e2.1;
                        assert(e2 == (x0, y0));
                        assert(edges_of(graph).contains((x0, y0))
                            <==> (edges_of(gprev).contains((x0, y0))
                                || (x0 == e.0 as int && y0 == e.1 as int))) by {
                            if 0 <= x0 < graph@.len() {
                                if x0 == e.0 as int {
                                    assert(graph@[x0]@ == gprev@[x0]@.update(e.1 as int, true));
                                } else {
                                    assert(graph@[x0] == gprev@[x0]);
                                }
                            }
                        }
                        if pair_in(grp@.take(j + 1), x0, y0) {
                            let j2 = choose|j2: int|
                                0 <= j2 < j + 1 && (#[trigger] grp@.take(j + 1)[j2]).0 == x0
                                    && grp@.take(j + 1)[j2].1 == y0;
                            if j2 < j {
                                assert(grp@.take(j as int)[j2] == grp@[j2]);
                                assert(pair_in(grp@.take(j as int), x0, y0));
                            }
                        }
                        if pair_in(grp@.take(j as int), x0, y0) {
                            let j2 = choose|j2: int|
                                0 <= j2 < j && (#[trigger] grp@.take(j as int)[j2]).0 == x0
                                    && grp@.take(j as int)[j2].1 == y0;
                            assert(grp@.take(j + 1)[j2].0 == x0 && grp@.take(j + 1)[j2].1 == y0);
                            assert(pair_in(grp@.take(j + 1), x0, y0));
                        }
                        if x0 == e.0 as int && y0 == e.1 as int {
                            assert(grp@.take(j + 1)[j as int] == grp@[j as int]);
                            assert(pair_in(grp@.take(j + 1), x0, y0));
                        }
                    }
                }
            }
            j = j + 1;
        }
        let ghost ins = edges_of(graph);
        proof {
            assert(grp@.take(grp@.len() as int) =~= grp@);
            assert(grpset =~= pairs_set(grp@)) by {
                assert forall|e2: (int, int)| grpset.contains(e2)
                    == pairs_set(grp@).contains(e2) by {
                    assert(e2 == (e2.0, e2.1));
                    if grpset.contains(e2) {
                        assert(pair_in(remaining@, e2.0, e2.1));
                        assert(pair_in(grp@, e2.0, e2.1) || pair_in(rest@, e2.0, e2.1));
                        if pair_in(rest@, e2.0, e2.1) {
                            let j4 = choose|j4: int|
                                0 <= j4 < rest@.len() && (#[trigger] rest@[j4]).0 == e2.0
                                    && rest@[j4].1 == e2.1;
                            assert(false);
                        }
                    }
                    if pairs_set(grp@).contains(e2) {
                        let j4 = choose|j4: int|
                            0 <= j4 < grp@.len() && (#[trigger] grp@[j4]).0 == e2.0
                                && grp@[j4].1 == e2.1;
                        assert(grpset.contains(e2));
                    }
                }
            }
            assert(ins == g0.union(grpset));
        }
        // Test each group member against the graph after all insertions.
        let mut cycl: Vec<(usize, usize)> = Vec::new();
        let mut j2: usize = 0;
        while j2 < grp.len()
            invariant
                j2 <= grp@.len(),
                graph@.len() == num_choices,
                is_square(graph),
                edges_of(graph) == ins,
                forall|c: int| 0 <= c < cycl@.len()
                    ==> pair_in(grp@, (#[trigger] cycl@[c]).0 as int, cycl@[c].1 as int)
                        && reachable(ins, cycl@[c].1 as int, cycl@[c].0 as int),
                forall|j0: int| 0 <= j0 < j2
                    && reachable(ins, (#[trigger] grp@[j0]).1 as int, grp@[j0].0 as int)
                    ==> pair_in(cycl@, grp@[j0].0 as int, grp@[j0].1 as int),
            decreases grp@.len() - j2,
        {
            let e = grp[j2];
            if is_reachable(e.1, e.0, &graph) {
                let ghost c0 = cycl@;
                cycl.push(e);
                proof {
                    assert(cycl@[cycl@.len() - 1] == e);
                    assert(pair_in(grp@, e.0 as int, e.1 as int)) by {
                        assert(grp@[j2 as int] == e);
                    }
                    assert forall|x0: int, y0: int| pair_in(c0, x0, y0)
                        implies pair_in(cycl@, x0, y0) by {
                        let c = choose|c: int| 0 <= c < c0.len() && (#[trigger] c0[c]).0 == x0 && c0[c].1 == y0;
                        assert(cycl@[c].0 == x0 && cycl@[c].1 == y0);
                    }
                }
            }
            j2 = j2 + 1;
        }
        // Remove the members that closed a cycle.
        let mut j3: usize = 0;
        while j3 < cycl.len()
            invariant
                j3 <= cycl@.len(),
                graph@.len() == num_choices,
                is_square(graph),
                edges_of(graph) == ins.difference(pairs_set(cycl@.take(j3 as int))),
            decreases cycl@.len() - j3,
        {
            let e = cycl[j3];
            proof {
                assert(cycl@[j3 as int] == e);
                assert(pair_in(grp@, e.0 as int, e.1 as int));
                let j0 = choose|j0: int|
                    0 <= j0 < grp@.len() && (#[trigger] grp@[j0]).0 == e.0 && grp@[j0].1 == e.1;
                assert(is_defeat(n, bs, e.0 as int, e.1 as int));
            }
            let ghost gprev = graph;
            set_edge(&mut graph, e.0, e.1, false);
            proof {
                assert(edges_of(graph) =~= ins.difference(pairs_set(cycl@.take(j3 + 1)))) by {
                    assert forall|e2: (int, int)|
                        edges_of(graph).contains(e2)
                            == ins.difference(pairs_set(cycl@.take(j3 + 1))).contains(e2) by {
                        let x0 = e2.0;
                        let y0 = e2.1;
                        assert(e2 == (x0, y0));
                        assert(edges_of(graph).contains((x0, y0))
                            <==> (edges_of(gprev).contains((x0, y0))
                                && !(x0 == e.0 as int && y0 == e.1 as int))) by {
                            if 0 <= x0 < graph@.len() {
                                if x0 == e.0 as int {
                                    assert(graph@[x0]@ == gprev@[x0]@.update(e.1 as int, false));
                                } else {
                                    assert(graph@[x0] == gprev@[x0]);
                                }
                            }
                        }
                        if pair_in(cycl@.take(j3 + 1), x0, y0) {
                            let c = choose|c: int|
                                0 <= c < j3 + 1 && (#[trigger] cycl@.take(j3 + 1)[c]).0 == x0
                                    && cycl@.take(j3 + 1)[c].1 == y0;
                            if c < j3 {
                                assert(cycl@.take(j3 as int)[c] == cycl@[c]);
                                assert(pair_in(cycl@.take(j3 as int), x0, y0));
                            }
                        }
                        if pair_in(cycl@.take(j3 as int), x0, y0) {
                            let c = choose|c: int|
                                0 <= c < j3 && (#[trigger] cycl@.take(j3 as int)[c]).0 == x0
                                    && cycl@.take(j3 as int)[c].1 == y0;
                            assert(cycl@.take(j3 + 1)[c].0 == x0 && cycl@.take(j3 + 1)[c].1 == y0);
                            assert(pair_in(cycl@.take(j3 + 1), x0, y0));
                        }
                        if x0 == e.0 as int && y0 == e.1 as int {
                            assert(cycl@.take(j3 + 1)[j3 as int] == cycl@[j3 as int]);
                            assert(pair_in(cycl@.take(j3 + 1), x0, y0));
                        }
                    }
                }
            }
            j3 = j3 + 1;
        }
        // The graph now equals the spec lock of this group; account for the
        // empty key classes skipped between pdt and kmax.
        proof {
            assert(cycl@.take(cycl@.len() as int) =~= cycl@);
            assert forall|x0: int, y0: int| pair_in(cycl@, x0, y0)
                implies grpset.contains((x0, y0)) && reachable(ins, y0, x0) by {
                let c = choose|c: int| 0 <= c < cycl@.len() && (#[trigger] cycl@[c]).0 == x0 && cycl@[c].1 == y0;
                assert(pair_in(grp@, x0, y0));
                assert(pairs_set(grp@).contains((x0, y0)));
            }
            assert forall|x0: int, y0: int|
                grpset.contains((x0, y0)) && reachable(ins, y0, x0)
                implies pair_in(cycl@, x0, y0) by {
                assert(pairs_set(grp@).contains((x0, y0)));
                assert(pair_in(grp@, x0, y0));
                let j0 = choose|j0: int| 0 <= j0 < grp@.len() && (#[trigger] grp@[j0]).0 == x0 && grp@[j0].1 == y0;
                assert(reachable(ins, grp@[j0].1 as int, grp@[j0].0 as int));
            }
            assert(edges_of(graph) =~= lock_group(g0, grpset)) by {
                assert(pairs_set(cycl@) =~= Set::new(
                    |e2: (int, int)| grpset.contains(e2) && reachable(ins, e2.1, e2.0),
                )) by {
                    assert forall|e2: (int, int)| pairs_set(cycl@).contains(e2)
                        == (grpset.contains(e2) && reachable(ins, e2.1, e2.0)) by {
                        assert(e2 == (e2.0, e2.1));
                    }
                }
                assert(g0.union(grpset) == ins);
            }
            assert(kmax <= pdt) by {
                assert(remaining@[best as int] == eb);
            }
            let steps_old = (max_defeat_key(bs) - pdt) as nat;
            let steps_mid = (max_defeat_key(bs) - kmax) as nat;
            assert forall|j0: int| steps_old <= j0 < steps_mid
                implies (#[trigger] group_at(n, bs, max_defeat_key(bs) - j0)).is_empty() by {
                let k = max_defeat_key(bs) - j0;
                assert(kmax < k <= pdt);
                if exists|e: (int, int)| group_at(n, bs, k).contains(e) {
                    let e = choose|e: (int, int)| group_at(n, bs, k).contains(e);
                    assert(pair_in(remaining@, e.0, e.1));
                    let j1 = choose|j1: int|
                        0 <= j1 < remaining@.len() && (#[trigger] remaining@[j1]).0 == e.0 && remaining@[j1].1 == e.1;
                    assert(defeat_key(n, bs, e.0, e.1) <= kmax);
                    assert(false);
                }
                assert(group_at(n, bs, k) =~= Set::empty());
            }
            lemma_locked_steps_skip(n, bs, steps_old, steps_mid);
            assert(locked_steps(n, bs, steps_mid + 1) == lock_group(
                locked_steps(n, bs, steps_mid),
                group_at(n, bs, max_defeat_key(bs) - steps_mid),
            ));
            assert(max_defeat_key(bs) - steps_mid == kmax);
            pdt = kmax - 1;
            assert(edges_of(graph) == locked_steps(n, bs, (max_defeat_key(bs) - pdt) as nat));
        }
        // Keys strictly below kmax are still to do; everything else is done.
        proof {
            assert forall|x0: int, y0: int|
                is_defeat(n, bs, x0, y0) && defeat_key(n, bs, x0, y0) <= pdt
                implies pair_in(rest@, x0, y0) by {
                assert(pair_in(remaining@, x0, y0));
                assert(pair_in(grp@, x0, y0) || pair_in(rest@, x0, y0));
                if pair_in(grp@, x0, y0) {
                    let j0 = choose|j0: int| 0 <= j0 < grp@.len() && (#[trigger] grp@[j0]).0 == x0 && grp@[j0].1 == y0;
                    assert(false);
                }
            }
        }
        remaining = rest;
    }
    // Everything is processed: the remaining key classes are all empty.
    proof {
        let steps_end = (max_defeat_key(bs) - pdt) as nat;
        let steps_all = (max_defeat_key(bs) + 1) as nat;
        assert forall|j0: int| steps_end <= j0 < steps_all
            implies (#[trigger] group_at(n, bs, max_defeat_key(bs) - j0)).is_empty() by {
            let k = max_defeat_key(bs) - j0;
            if exists|e: (int, int)| group_at(n, bs, k).contains(e) {
                let e = choose|e: (int, int)| group_at(n, bs, k).contains(e);
                assert(pair_in(remaining@, e.0, e.1));
                let j1 = choose|j1: int|
                    0 <= j1 < remaining@.len() && (#[trigger] remaining@[j1]).0 == e.0 && remaining@[j1].1 == e.1;
                assert(false);
            }
            assert(group_at(n, bs, k) =~= Set::empty());
        }
        lemma_locked_steps_skip(n, bs, steps_end, steps_all);
    }
    graph
}


/// Candidate `c` has no defeater among `rem` in graph `g`.
pub open spec fn undefeated_in(g: Set<(int, int)>, rem: Seq<usize>, c: usize) -> bool {
    forall|i: int| 0 <= i < rem.len() ==> !g.contains(((#[trigger] rem[i]) as int, c as int))
}

/// The members of `s`, in order, whose undefeated-status among `rem` equals
/// `want`.
pub open spec fn sieve(
    g: Set<(int, int)>,
    rem: Seq<usize>,
    s: Seq<usize>,
    want: bool,
) -> Seq<usize>
    decreases s.len(),
{
    if s.len() == 0 {
        Seq::empty()
    } else {
        let prefix = sieve(g, rem, s.drop_last(), want);
        if undefeated_in(g, rem, s.last()) == want {
            prefix.push(s.last())
        } else {
            prefix
        }
    }
}

/// The winners and the losers of one round partition the candidates.
proof fn lemma_sieve_split(g: Set<(int, int)>, rem: Seq<usize>, s: Seq<usize>)
    ensures
        sieve(g, rem, s, true).len() + sieve(g, rem, s, false).len() == s.len(),
    decreases s.len(),
{
    if s.len() != 0 {
        lemma_sieve_split(g, rem, s.drop_last());
    }
}

/// The ranking read off a locked graph: repeatedly emit the candidates with
/// no remaining defeater as the next tier and drop them. A remainder in
/// which no one is undefeated (impossible when the graph is cycle-free) is
/// emitted whole as one final tier.
pub open spec fn tiers_from(g: Set<(int, int)>, rem: Seq<usize>) -> Seq<Seq<usize>>
    decreases rem.len(),
    via tiers_from_dec
{
    if rem.len() == 0 {
        Seq::empty()
    } else {
        let winners = sieve(g, rem, rem, true);
        if winners.len() == 0 {
            seq![rem]
        } else {
            seq![winners] + tiers_from(g, sieve(g, rem, rem, false))
        }
    }
}

#[via_fn]
proof fn tiers_from_dec(g: Set<(int, int)>, rem: Seq<usize>) {
    if rem.len() != 0 {
        lemma_sieve_split(g, rem, rem);
    }
}

/// Candidates 0 through n-1, in index order.
pub open spec fn all_candidates(n: int) -> Seq<usize> {
    Seq::new(n as nat, |i: int| i as usize)
}

/// The complete ranked-pairs ranking of an election.
pub open spec fn ranked_pairs_ranks(n: int, bs: Seq<Seq<VoteItem>>) -> Seq<Seq<usize>> {
    tiers_from(locked_graph(n, bs), all_candidates(n))
}

/// Read the tiers off the locked defeat graph.
#[verifier::loop_isolation(false)]
#[verifier::rlimit(60)]
fn extract_tiers(num_choices: usize, graph: &Vec<Vec<bool>>) -> (ranks: Vec<Vec<usize>>)
    requires
        graph@.len() == num_choices,
        is_square(*graph),
    ensures
        ranks@.map_values(|t: Vec<usize>| t@)
            == tiers_from(edges_of(*graph), all_candidates(num_choices as int)),
{
    let ghost g = edges_of(*graph);
    let ghost n = num_choices as int;
    let mut unranked: Vec<usize> = Vec::new();
    let mut c: usize = 0;
    while c < num_choices
        invariant
            c <= num_choices,
            unranked@.len() == c,
            forall|i: int| 0 <= i < c ==> unranked@[i] == i,
        decreases num_choices - c,
    {
        unranked.push(c);
        c = c + 1;
    }
    proof {
        assert(unranked@ =~= all_candidates(n));
    }
    let mut ranks: Vec<Vec<usize>> = Vec::new();
    while unranked.len() > 0
        invariant
            forall|i: int| 0 <= i < unranked@.len() ==> (#[trigger] unranked@[i]) < num_choices,
            ranks@.map_values(|t: Vec<usize>| t@) + tiers_from(g, unranked@)
                == tiers_from(g, all_candidates(n)),
        decreases unranked@.len(),
    {
        let ghost rem = unranked@;
        let mut winners: Vec<usize> = Vec::new();
        let mut losers: Vec<usize> = Vec::new();
        let mut i: usize = 0;
        while i < unranked.len()
            invariant
                i <= unranked@.len(),
                unranked@ == rem,
                winners@ == sieve(g, rem, rem.take(i as int), true),
                losers@ == sieve(g, rem, rem.take(i as int), false),
            decreases unranked@.len() - i,
        {
            let cand = unranked[i];
            let mut und = true;
            let mut k: usize = 0;
            while k < unranked.len()
                invariant
                    k <= unranked@.len(),
                    unranked@ == rem,
                    cand < num_choices,
                    und == (forall|k0: int|
                        0 <= k0 < k ==> !g.contains(((#[trigger] rem[k0]) as int, cand as int))),
                decreases unranked@.len() - k,
            {
                let d = unranked[k];
                let ghost und0 = und;
                if graph[d][cand] {
                    und = false;
                    proof {
                        assert(g.contains((d as int, cand as int)));
                    }
                } else {
                    proof {
                        assert(!g.contains((d as int, cand as int)));
                        if und0 {
                            assert forall|k0: int| 0 <= k0 < k + 1 implies
                                !g.contains(((#[trigger] rem[k0]) as int, cand as int)) by {
                                if k0 == k {
                                    assert(rem[k0] == d);
                                }
                            }
                        }
                    }
                }
                k = k + 1;
            }
            proof {
                assert(und == undefeated_in(g, rem, cand));
                assert(rem.take(i + 1).drop_last() =~= rem.take(i as int));
                assert(rem.take(i + 1).last() == cand);
            }
            if und {
                winners.push(cand);
            } else {
                losers.push(cand);
            }
            i = i + 1;
        }
        proof {
            assert(rem.take(rem.len() as int) =~= rem);
        }
        let ghost ranks0 = ranks@;
        if winners.len() == 0 {
            let tier = unranked;
            unranked = Vec::new();
            ranks.push(tier);
            proof {
                assert(tiers_from(g, rem) == seq![rem]);
                assert(ranks@.map_values(|t: Vec<usize>| t@)
                    =~= ranks0.map_values(|t: Vec<usize>| t@).push(rem));
                assert(ranks@.map_values(|t: Vec<usize>| t@) + tiers_from(g, unranked@)
                    =~= ranks0.map_values(|t: Vec<usize>| t@) + tiers_from(g, rem));
            }
        } else {
            proof {
                lemma_sieve_split(g, rem, rem);
            }
            let ghost w = winners@;
            ranks.push(winners);
            unranked = losers;
            proof {
                assert(tiers_from(g, rem) == seq![w] + tiers_from(g, unranked@));
                assert(ranks@.map_values(|t: Vec<usize>| t@)
                    =~= ranks0.map_values(|t: Vec<usize>| t@).push(w));
                assert(ranks@.map_values(|t: Vec<usize>| t@) + tiers_from(g, unranked@)
                    =~= ranks0.map_values(|t: Vec<usize>| t@) + tiers_from(g, rem));
                assert forall|i2: int| 0 <= i2 < unranked@.len() implies
                    (#[trigger] unranked@[i2]) < num_choices by {
                    lemma_sieve_elements(g, rem, rem, false, i2);
                }
            }
        }
    }
    proof {
        assert(tiers_from(g, unranked@) =~= Seq::<Seq<usize>>::empty());
        assert(ranks@.map_values(|t: Vec<usize>| t@) + tiers_from(g, unranked@)
            =~= ranks@.map_values(|t: Vec<usize>| t@));
    }
    ranks
}

/// Every sieve output entry occurs in the sieved sequence.
proof fn lemma_sieve_elements(
    g: Set<(int, int)>,
    rem: Seq<usize>,
    s: Seq<usize>,
    want: bool,
    i: int,
)
    requires
        0 <= i < sieve(g, rem, s, want).len(),
    ensures
        s.contains(sieve(g, rem, s, want)[i]),
    decreases s.len(),
{
    if s.len() != 0 {
        let prefix = sieve(g, rem, s.drop_last(), want);
        if i < prefix.len() {
            lemma_sieve_elements(g, rem, s.drop_last(), want, i);
            let e = prefix[i];
            let j = choose|j: int| 0 <= j < s.drop_last().len() && s.drop_last()[j] == e;
            assert(s[j] == e);
        } else {
            assert(s[s.len() - 1] == sieve(g, rem, s, want)[i]);
        }
    }
}

/// Compute the results of an election using the ranked-pairs method.
///
/// The pairwise matrix of the result counts, for each ordered candidate
/// pair, the ballots that rank the first strictly better than the second
/// (after per-ballot validation); the tiers are the ranking read off the
/// locked defeat graph, strongest defeats locked first, whole tie groups at
/// a time.
pub fn ranked_pairs(num_choices: usize, votes: Vec<Vec<VoteItem>>) -> (r: CondorcetTally)
    ensures
        totals_ok(num_choices as int, r.totals@, ballots_view(votes)),
        r.ranks@.map_values(|t: Vec<usize>| t@)
            == ranked_pairs_ranks(num_choices as int, ballots_view(votes)),
{
    let totals = compute_totals(num_choices, &votes);
    let graph = lock_defeats(num_choices, &totals, Ghost(ballots_view(votes)));
    let ranks = extract_tiers(num_choices, &graph);
    CondorcetTally { totals, ranks }
}


/// The pairwise matrix of a tally, as a sequence of rows.
pub open spec fn totals_view(t: CondorcetTally) -> Seq<Seq<u64>> {
    t.totals@.map_values(|r: Vec<u64>| r@)
}

/// The tiers of a tally, as a sequence of candidate sequences.
pub open spec fn ranks_view(t: CondorcetTally) -> Seq<Seq<usize>> {
    t.ranks@.map_values(|r: Vec<usize>| r@)
}

/// Two tallies hold the same matrix and the same tiers.
pub open spec fn tally_eq(a: CondorcetTally, b: CondorcetTally) -> bool {
    totals_view(a) == totals_view(b) && ranks_view(a) == ranks_view(b)
}

fn clone_u64_rows(v: &Vec<Vec<u64>>) -> (r: Vec<Vec<u64>>)
    ensures
        r@.map_values(|x: Vec<u64>| x@) == v@.map_values(|x: Vec<u64>| x@),
{
    let mut r: Vec<Vec<u64>> = Vec::new();
    let mut i: usize = 0;
    while i < v.len()
        invariant
            i <= v@.len(),
            r@.len() == i,
            forall|k: int| 0 <= k < i ==> (#[trigger] r@[k])@ == v@[k]@,
        decreases v@.len() - i,
    {
        let row = &v[i];
        let mut nr: Vec<u64> = Vec::new();
        let mut j: usize = 0;
        while j < row.len()
            invariant
                j <= row@.len(),
                nr@ == row@.take(j as int),
            decreases row@.len() - j,
        {
            nr.push(row[j]);
            proof {
                assert(row@.take(j + 1) =~= row@.take(j as int).push(row@[j as int]));
            }
            j = j + 1;
        }
        proof {
            assert(row@.take(row@.len() as int) =~= row@);
        }
        r.push(nr);
        i = i + 1;
    }
    proof {
        assert(r@.map_values(|x: Vec<u64>| x@) =~= v@.map_values(|x: Vec<u64>| x@));
    }
    r
}

fn clone_usize_rows(v: &Vec<Vec<usize>>) -> (r: Vec<Vec<usize>>)
    ensures
        r@.map_values(|x: Vec<usize>| x@) == v@.map_values(|x: Vec<usize>| x@),
{
    let mut r: Vec<Vec<usize>> = Vec::new();
    let mut i: usize = 0;
    while i < v.len()
        invariant
            i <= v@.len(),
            r@.len() == i,
            forall|k: int| 0 <= k < i ==> (#[trigger] r@[k])@ == v@[k]@,
        decreases v@.len() - i,
    {
        let row = &v[i];
        let mut nr: Vec<usize> = Vec::new();
        let mut j: usize = 0;
        while j < row.len()
            invariant
                j <= row@.len(),
                nr@ == row@.take(j as int),
            decreases row@.len() - j,
        {
            nr.push(row[j]);
            proof {
                assert(row@.take(j + 1) =~= row@.take(j as int).push(row@[j as int]));
            }
            j = j + 1;
        }
        proof {
            assert(row@.take(row@.len() as int) =~= row@);
        }
        r.push(nr);
        i = i + 1;
    }
    proof {
        assert(r@.map_values(|x: Vec<usize>| x@) =~= v@.map_values(|x: Vec<usize>| x@));
    }
    r
}

impl CondorcetTally {
    /// A copy of this tally, holding the same matrix and tiers.
    pub fn duplicate(&self) -> (r: CondorcetTally)
        ensures
            tally_eq(*self, r),
    {
        CondorcetTally { totals: clone_u64_rows(&self.totals), ranks: clone_usize_rows(&self.ranks) }
    }
}


/// Everything ever locked is a pairwise defeat.
proof fn lemma_locked_steps_are_defeats(n: int, bs: Seq<Seq<VoteItem>>, steps: nat)
    ensures
        forall|e: (int, int)| #[trigger] locked_steps(n, bs, steps).contains(e)
            ==> is_defeat(n, bs, e.0, e.1),
    decreases steps,
{
    if steps != 0 {
        lemma_locked_steps_are_defeats(n, bs, (steps - 1) as nat);
        let prev = locked_steps(n, bs, (steps - 1) as nat);
        let grp = group_at(n, bs, max_defeat_key(bs) - (steps - 1));
        assert forall|e: (int, int)| #[trigger] locked_steps(n, bs, steps).contains(e)
            implies is_defeat(n, bs, e.0, e.1) by {
            assert(locked_steps(n, bs, steps) == lock_group(prev, grp));
            assert(prev.contains(e) || grp.contains(e));
        }
    }
}

/// With a Condorcet winner `w`, no defeat ever points at `w`, and every
/// defeat by `w` survives locking: no path back to `w` can exist to close
/// a cycle.
proof fn lemma_winner_edges_locked(n: int, bs: Seq<Seq<VoteItem>>, w: int, steps: nat)
    requires
        0 <= w < n,
        forall|x: int| 0 <= x < n && x != w
            ==> pair_total(n, bs, w, x) > #[trigger] pair_total(n, bs, x, w),
    ensures
        forall|z: int| !(#[trigger] locked_steps(n, bs, steps).contains((z, w))),
        forall|x: int|
            0 <= x < n && x != w && defeat_key(n, bs, w, x) > max_defeat_key(bs) - steps
                ==> #[trigger] locked_steps(n, bs, steps).contains((w, x)),
    decreases steps,
{
    if steps == 0 {
        assert forall|x: int|
            0 <= x < n && x != w && defeat_key(n, bs, w, x) > max_defeat_key(bs) - steps
                implies #[trigger] locked_steps(n, bs, steps).contains((w, x)) by {
            assert(is_defeat(n, bs, w, x));
            lemma_defeat_key_bounds(n, bs, w, x);
        }
    } else {
        lemma_winner_edges_locked(n, bs, w, (steps - 1) as nat);
        lemma_locked_steps_are_defeats(n, bs, (steps - 1) as nat);
        let prev = locked_steps(n, bs, (steps - 1) as nat);
        let k = max_defeat_key(bs) - (steps - 1);
        let grp = group_at(n, bs, k);
        let ins = prev.union(grp);
        // Nothing in the graph, group included, points at w.
        assert forall|z: int| !(#[trigger] ins.contains((z, w))) by {
            if grp.contains((z, w)) {
                assert(is_defeat(n, bs, z, w));
                if z != w {
                    assert(pair_total(n, bs, w, z) > pair_total(n, bs, z, w));
                }
            }
        }
        assert forall|x: int|
            0 <= x < n && x != w && defeat_key(n, bs, w, x) > max_defeat_key(bs) - steps
                implies #[trigger] locked_steps(n, bs, steps).contains((w, x)) by {
            assert(is_defeat(n, bs, w, x));
            lemma_defeat_key_bounds(n, bs, w, x);
            if defeat_key(n, bs, w, x) > k {
                assert(prev.contains((w, x)));
                assert(!grp.contains((w, x)));
                assert(ins.contains((w, x)));
            } else {
                assert(defeat_key(n, bs, w, x) == k);
                assert(grp.contains((w, x)));
                assert(ins.contains((w, x)));
                if reachable(ins, x, w) {
                    lemma_reachable_has_in_edge(ins, x, w);
                    let z = choose|z: int| ins.contains((z, w));
                    assert(false);
                }
            }
        }
    }
}

/// Winners of the sieve over the full candidate list, when exactly the
/// winner `w` is undefeated: the one-element tier.
proof fn lemma_sieve_single(
    g: Set<(int, int)>,
    rem: Seq<usize>,
    w: usize,
    m: int,
)
    requires
        0 <= m <= rem.len(),
        w < rem.len(),
        forall|i: int| 0 <= i < rem.len() ==> #[trigger] rem[i] == i,
        forall|c: usize| c < rem.len()
            ==> #[trigger] undefeated_in(g, rem, c) == (c == w),
    ensures
        sieve(g, rem, rem.take(m), true) == if m > w {
            seq![w]
        } else {
            Seq::<usize>::empty()
        },
        sieve(g, rem, rem.take(m), true).len() <= 1,
    decreases m,
{
    if m > 0 {
        lemma_sieve_single(g, rem, w, m - 1);
        assert(rem.take(m).drop_last() =~= rem.take(m - 1));
        assert(rem.take(m).last() == rem[m - 1]);
        if m - 1 == w {
            assert(undefeated_in(g, rem, rem[m - 1]));
            assert(sieve(g, rem, rem.take(m), true)
                =~= seq![w]);
        } else {
            assert(rem[m - 1] != w);
            assert(!undefeated_in(g, rem, rem[m - 1]));
        }
    } else {
        assert(rem.take(0) =~= Seq::<usize>::empty());
    }
}

/// When the ballots elect a Condorcet winner — a candidate that strictly
/// beats every other candidate pairwise — the winning tier is exactly that
/// candidate.
pub proof fn lemma_condorcet_winner(n: int, bs: Seq<Seq<VoteItem>>, w: usize)
    requires
        n <= usize::MAX,
        0 <= w < n,
        forall|x: int| 0 <= x < n && x != w
            ==> pair_total(n, bs, w as int, x) > #[trigger] pair_total(n, bs, x, w as int),
    ensures
        ranked_pairs_ranks(n, bs).len() >= 1,
        ranked_pairs_ranks(n, bs)[0] == seq![w],
{
    let cap = bs.len() as int;
    assert((cap + 1) * (cap + 1) - 1 >= 0) by (nonlinear_arith)
        requires
            cap >= 0,
    ;
    let steps = (max_defeat_key(bs) + 1) as nat;
    lemma_winner_edges_locked(n, bs, w as int, steps);
    let g = locked_graph(n, bs);
    assert forall|x: int| 0 <= x < n && x != w implies #[trigger] g.contains((w as int, x)) by {
        assert(is_defeat(n, bs, w as int, x));
        lemma_defeat_key_bounds(n, bs, w as int, x);
    }
    let rem = all_candidates(n);
    assert forall|c: usize| c < rem.len() implies
        (#[trigger] undefeated_in(g, rem, c) == (c == w)) by {
        if c == w {
            assert forall|i: int| 0 <= i < rem.len() implies
                !g.contains(((#[trigger] rem[i]) as int, c as int)) by {
                assert(!g.contains((rem[i] as int, w as int)));
            }
        } else {
            assert(rem[w as int] == w);
            assert(g.contains((w as int, c as int)));
            assert(!undefeated_in(g, rem, c)) by {
                if undefeated_in(g, rem, c) {
                    assert(!g.contains(((rem[w as int]) as int, c as int)));
                }
            }
        }
    }
    assert(ranked_pairs_ranks(n, bs) == tiers_from(g, rem));
    assert(rem.take(rem.len() as int) =~= rem);
    lemma_sieve_single(g, rem, w, rem.len() as int);
    let winners = sieve(g, rem, rem, true);
    assert(winners == seq![w]);
    assert(tiers_from(g, rem) == seq![winners] + tiers_from(g, sieve(g, rem, rem, false)));
    assert(tiers_from(g, rem)[0] == winners);
}

/// A two-candidate election split evenly produces a single tier holding
/// both candidates: with no pairwise majority there is no defeat to lock,
/// and both candidates stay undefeated.
pub proof fn lemma_even_split_ties(bs: Seq<Seq<VoteItem>>)
    requires
        pair_total(2, bs, 0, 1) == pair_total(2, bs, 1, 0),
    ensures
        ranked_pairs_ranks(2, bs) == seq![seq![0usize, 1usize]],
{
    let cap = bs.len() as int;
    assert((cap + 1) * (cap + 1) - 1 >= 0) by (nonlinear_arith)
        requires
            cap >= 0,
    ;
    assert forall|a: int, b: int| !(#[trigger] is_defeat(2, bs, a, b)) by {
        if 0 <= a < 2 && 0 <= b < 2 {
            if a == b {
                assert(pair_total(2, bs, a, b) == pair_total(2, bs, b, a));
            }
        }
    }
    let steps = (max_defeat_key(bs) + 1) as nat;
    assert forall|j: int| 0 <= j < steps implies
        (#[trigger] group_at(2, bs, max_defeat_key(bs) - j)).is_empty() by {
        let k = max_defeat_key(bs) - j;
        if exists|e: (int, int)| group_at(2, bs, k).contains(e) {
            let e = choose|e: (int, int)| group_at(2, bs, k).contains(e);
            assert(is_defeat(2, bs, e.0, e.1));
            assert(false);
        }
        assert(group_at(2, bs, k) =~= Set::empty());
    }
    lemma_locked_steps_skip(2, bs, 0, steps);
    let g = locked_graph(2, bs);
    assert(g =~= Set::<(int, int)>::empty());
    let rem = all_candidates(2);
    assert(rem =~= seq![0usize, 1usize]);
    assert forall|c: usize| #[trigger] undefeated_in(g, rem, c) by {
        assert forall|i: int| 0 <= i < rem.len() implies
            !g.contains(((#[trigger] rem[i]) as int, c as int)) by {
        }
    }
    assert(rem.take(2) =~= rem);
    assert(rem.take(1) =~= seq![0usize]);
    assert(rem.take(0) =~= Seq::<usize>::empty());
    assert(sieve(g, rem, rem.take(0), true) == Seq::<usize>::empty());
    assert(rem.take(1).drop_last() =~= rem.take(0));
    assert(sieve(g, rem, rem.take(1), true) =~= seq![0usize]);
    assert(rem.take(2).drop_last() =~= rem.take(1));
    assert(sieve(g, rem, rem, true) =~= seq![0usize, 1usize]);
    let losers = sieve(g, rem, rem, false);
    assert(losers =~= Seq::<usize>::empty()) by {
        assert(sieve(g, rem, rem.take(0), false) == Seq::<usize>::empty());
        assert(sieve(g, rem, rem.take(1), false) =~= Seq::<usize>::empty());
        assert(sieve(g, rem, rem, false) =~= Seq::<usize>::empty());
    }
    assert(tiers_from(g, losers) == Seq::<Seq<usize>>::empty());
    assert(tiers_from(g, rem) =~= seq![seq![0usize, 1usize]]);
}


/// Removing one ballot removes exactly its contribution.
proof fn lemma_pair_total_remove(n: int, bs: Seq<Seq<VoteItem>>, j: int, a: int, b: int)
    requires
        0 <= j < bs.len(),
    ensures
        pair_total(n, bs, a, b)
            == pair_total(n, bs.remove(j), a, b) + ballot_pref(n, bs[j], a, b),
    decreases bs.len(),
{
    if j == bs.len() - 1 {
        assert(bs.remove(j) =~= bs.drop_last());
    } else {
        lemma_pair_total_remove(n, bs.drop_last(), j, a, b);
        assert(bs.remove(j).drop_last() =~= bs.drop_last().remove(j));
        assert(bs.remove(j).last() == bs.last());
        assert(bs.drop_last()[j] == bs[j]);
    }
}

/// The pairwise totals depend only on the multiset of ballots, not on the
/// order the ballots arrive in.
proof fn lemma_pair_total_permutation(
    n: int,
    bs1: Seq<Seq<VoteItem>>,
    bs2: Seq<Seq<VoteItem>>,
    a: int,
    b: int,
)
    requires
        bs1.to_multiset() == bs2.to_multiset(),
    ensures
        pair_total(n, bs1, a, b) == pair_total(n, bs2, a, b),
    decreases bs1.len(),
{
    broadcast use vstd::seq_lib::group_to_multiset_ensures;
    broadcast use vstd::multiset::group_multiset_axioms;

    if bs1.len() == 0 {
        assert(bs1.to_multiset().len() == bs1.len());
        assert(bs2.to_multiset().len() == bs2.len());
        assert(bs2.len() == 0);
    } else {
        let x = bs1.last();
        assert(bs1.drop_last().push(x) =~= bs1);
        assert(bs1.to_multiset() =~= bs1.drop_last().to_multiset().insert(x));
        assert(bs1.to_multiset().count(x) > 0);
        assert(bs2.contains(x));
        let j = choose|j: int| 0 <= j < bs2.len() && bs2[j] == x;
        lemma_pair_total_remove(n, bs2, j, a, b);
        assert(bs2.remove(j).to_multiset() =~= bs2.to_multiset().remove(x));
        assert(bs1.drop_last().to_multiset() =~= bs2.remove(j).to_multiset()) by {
            assert forall|e: Seq<VoteItem>| true implies
                bs1.drop_last().to_multiset().count(e) == bs2.remove(j).to_multiset().count(e) by {
                assert(bs2.remove(j).to_multiset() =~= bs1.to_multiset().remove(x));
                assert(bs1.to_multiset() =~= bs1.drop_last().to_multiset().insert(x));
            }
        }
        lemma_pair_total_permutation(n, bs1.drop_last(), bs2.remove(j), a, b);
    }
}

/// Elections with the same size and the same pairwise totals lock the same
/// graph.
proof fn lemma_locked_steps_congruence(
    n: int,
    bs1: Seq<Seq<VoteItem>>,
    bs2: Seq<Seq<VoteItem>>,
    steps: nat,
)
    requires
        bs1.len() == bs2.len(),
        forall|a: int, b: int| #[trigger] pair_total(n, bs1, a, b) == pair_total(n, bs2, a, b),
    ensures
        locked_steps(n, bs1, steps) == locked_steps(n, bs2, steps),
    decreases steps,
{
    if steps != 0 {
        lemma_locked_steps_congruence(n, bs1, bs2, (steps - 1) as nat);
        let k = max_defeat_key(bs1) - (steps - 1);
        assert(max_defeat_key(bs2) == max_defeat_key(bs1));
        assert(group_at(n, bs1, k) =~= group_at(n, bs2, k)) by {
            assert forall|e: (int, int)| group_at(n, bs1, k).contains(e)
                == group_at(n, bs2, k).contains(e) by {
                assert(pair_total(n, bs1, e.0, e.1) == pair_total(n, bs2, e.0, e.1));
                assert(pair_total(n, bs1, e.1, e.0) == pair_total(n, bs2, e.1, e.0));
            }
        }
    }
}

/// The whole ranked-pairs result is invariant under reordering the ballots:
/// only which ballots were cast matters, not the order they arrived in.
pub proof fn lemma_ballot_order_irrelevant(
    n: int,
    bs1: Seq<Seq<VoteItem>>,
    bs2: Seq<Seq<VoteItem>>,
)
    requires
        bs1.to_multiset() == bs2.to_multiset(),
    ensures
        forall|a: int, b: int| #[trigger] pair_total(n, bs1, a, b) == pair_total(n, bs2, a, b),
        ranked_pairs_ranks(n, bs1) == ranked_pairs_ranks(n, bs2),
{
    broadcast use vstd::seq_lib::group_to_multiset_ensures;

    assert forall|a: int, b: int| #[trigger] pair_total(n, bs1, a, b)
        == pair_total(n, bs2, a, b) by {
        lemma_pair_total_permutation(n, bs1, bs2, a, b);
    }
    assert(bs1.to_multiset().len() == bs1.len());
    assert(bs2.to_multiset().len() == bs2.len());
    assert(bs1.len() == bs2.len());
    let cap = bs1.len() as int;
    assert((cap + 1) * (cap + 1) - 1 >= 0) by (nonlinear_arith)
        requires
            cap >= 0,
    ;
    lemma_locked_steps_congruence(n, bs1, bs2, (max_defeat_key(bs1) + 1) as nat);
}

/// What rank the validated ballot gives a candidate, in terms of the raw
/// entries: for a ballot without repeated candidates, it is the rank of the
/// unique entry naming that candidate, when in range.
proof fn lemma_rank_entries(n: int, b: Seq<VoteItem>, c: int)
    requires
        distinct_candidates(b),
    ensures
        match cand_rank_of(filter_ballot_spec(n, b), c) {
            Some(r) => c < n && exists|i: int|
                0 <= i < b.len() && (#[trigger] b[i]).candidate == c && b[i].rank == r,
            None => !(exists|i: int|
                0 <= i < b.len() && (#[trigger] b[i]).candidate == c && b[i].candidate < n),
        },
    decreases b.len(),
{
    if b.len() != 0 {
        lemma_rank_entries(n, b.drop_last(), c);
        lemma_filter_ballot_sub(n, b.drop_last());
        lemma_filter_ballot_wf(n, b.drop_last());
        let prefix = filter_ballot_spec(n, b.drop_last());
        let item = b.last();
        if item.candidate < n && !has_candidate(prefix, item.candidate as int) {
            let f = prefix.push(item);
            assert(f.drop_last() =~= prefix);
            if item.candidate == c {
                assert(cand_rank_of(f, c) == Some(item.rank));
                assert(b[b.len() - 1].candidate == c && b[b.len() - 1].rank == item.rank);
            } else {
                assert(cand_rank_of(f, c) == cand_rank_of(prefix, c));
                match cand_rank_of(prefix, c) {
                    Some(r) => {
                        let i = choose|i: int|
                            0 <= i < b.drop_last().len()
                                && (#[trigger] b.drop_last()[i]).candidate == c
                                && b.drop_last()[i].rank == r;
                        assert(b[i].candidate == c && b[i].rank == r);
                    },
                    None => {
                        assert forall|i: int|
                            0 <= i < b.len() && (#[trigger] b[i]).candidate == c implies
                            !(b[i].candidate < n) by {
                            if i < b.len() - 1 {
                                assert(b.drop_last()[i] == b[i]);
                            }
                        }
                    },
                }
            }
        } else {
            assert(filter_ballot_spec(n, b) == prefix);
            match cand_rank_of(prefix, c) {
                Some(r) => {
                    let i = choose|i: int|
                        0 <= i < b.drop_last().len()
                            && (#[trigger] b.drop_last()[i]).candidate == c
                            && b.drop_last()[i].rank == r;
                    assert(b[i].candidate == c && b[i].rank == r);
                },
                None => {
                    assert forall|i: int|
                        0 <= i < b.len() && (#[trigger] b[i]).candidate == c implies
                        !(b[i].candidate < n) by {
                        if i < b.len() - 1 {
                            assert(b.drop_last()[i] == b[i]);
                        } else {
                            // The last entry was dropped: either its
                            // candidate is out of range, or it repeats one
                            // already kept — impossible without repeats.
                            if item.candidate < n {
                                let i0 = choose|i0: int|
                                    0 <= i0 < prefix.len()
                                        && prefix[i0].candidate == item.candidate as int;
                                let j0 = choose|j0: int|
                                    0 <= j0 < b.drop_last().len()
                                        && b.drop_last()[j0] == prefix[i0];
                                assert(b[j0].candidate == b[b.len() - 1].candidate);
                                assert(false);
                            }
                        }
                    }
                },
            }
        }
    }
}

/// The rank a validated ballot gives each candidate depends only on the
/// multiset of its entries, for ballots without repeated candidates.
proof fn lemma_cand_rank_permutation(n: int, b1: Seq<VoteItem>, b2: Seq<VoteItem>, c: int)
    requires
        distinct_candidates(b1),
        distinct_candidates(b2),
        b1.to_multiset() == b2.to_multiset(),
    ensures
        cand_rank_of(filter_ballot_spec(n, b1), c)
            == cand_rank_of(filter_ballot_spec(n, b2), c),
    decreases b1.len(),
{
    broadcast use vstd::seq_lib::group_to_multiset_ensures;

    lemma_rank_entries(n, b1, c);
    lemma_rank_entries(n, b2, c);
    match (cand_rank_of(filter_ballot_spec(n, b1), c), cand_rank_of(filter_ballot_spec(n, b2), c)) {
        (Some(r1), Some(r2)) => {
            let i = choose|i: int|
                0 <= i < b1.len() && (#[trigger] b1[i]).candidate == c && b1[i].rank == r1;
            assert(b1.contains(b1[i]));
            assert(b1.to_multiset().count(b1[i]) > 0);
            assert(b2.to_multiset().count(b1[i]) > 0);
            assert(b2.contains(b1[i]));
            let j = choose|j: int| 0 <= j < b2.len() && b2[j] == b1[i];
            let j2 = choose|j2: int|
                0 <= j2 < b2.len() && (#[trigger] b2[j2]).candidate == c && b2[j2].rank == r2;
            assert(j == j2 || b2[j].candidate != b2[j2].candidate);
        },
        (Some(r1), None) => {
            let i = choose|i: int|
                0 <= i < b1.len() && (#[trigger] b1[i]).candidate == c && b1[i].rank == r1;
            assert(b1.contains(b1[i]));
            assert(b1.to_multiset().count(b1[i]) > 0);
            assert(b2.to_multiset().count(b1[i]) > 0);
            assert(b2.contains(b1[i]));
            let j = choose|j: int| 0 <= j < b2.len() && b2[j] == b1[i];
            assert(b2[j].candidate == c && b2[j].candidate < n);
            assert(false);
        },
        (None, Some(r2)) => {
            let j = choose|j: int|
                0 <= j < b2.len() && (#[trigger] b2[j]).candidate == c && b2[j].rank == r2;
            assert(b2.contains(b2[j]));
            assert(b2.to_multiset().count(b2[j]) > 0);
            assert(b1.to_multiset().count(b2[j]) > 0);
            assert(b1.contains(b2[j]));
            let i = choose|i: int| 0 <= i < b1.len() && b1[i] == b2[j];
            assert(b1[i].candidate == c && b1[i].candidate < n);
            assert(false);
        },
        (None, None) => {},
    }
}

/// Same-length elections whose ballots agree entrywise as multisets have
/// the same totals.
proof fn lemma_pair_total_pointwise(
    n: int,
    bs1: Seq<Seq<VoteItem>>,
    bs2: Seq<Seq<VoteItem>>,
    a: int,
    b: int,
)
    requires
        bs1.len() == bs2.len(),
        forall|k: int| 0 <= k < bs1.len()
            ==> (#[trigger] bs1[k]).to_multiset() == bs2[k].to_multiset()
                && distinct_candidates(bs1[k]) && distinct_candidates(bs2[k]),
    ensures
        pair_total(n, bs1, a, b) == pair_total(n, bs2, a, b),
    decreases bs1.len(),
{
    if bs1.len() != 0 {
        assert forall|k: int| 0 <= k < bs1.drop_last().len() implies
            (#[trigger] bs1.drop_last()[k]).to_multiset() == bs2.drop_last()[k].to_multiset()
                && distinct_candidates(bs1.drop_last()[k])
                && distinct_candidates(bs2.drop_last()[k]) by {
            assert(bs1.drop_last()[k] == bs1[k]);
            assert(bs2.drop_last()[k] == bs2[k]);
        }
        lemma_pair_total_pointwise(n, bs1.drop_last(), bs2.drop_last(), a, b);
        assert(bs1[bs1.len() - 1].to_multiset() == bs2[bs2.len() - 1].to_multiset());
        lemma_cand_rank_permutation(n, bs1.last(), bs2.last(), a);
        lemma_cand_rank_permutation(n, bs1.last(), bs2.last(), b);
    }
}

/// The ranked-pairs result is also invariant to the order of the entries
/// inside each ballot, as long as no ballot names a candidate twice: only
/// the rank values matter.
pub proof fn lemma_entry_order_irrelevant(
    n: int,
    bs1: Seq<Seq<VoteItem>>,
    bs2: Seq<Seq<VoteItem>>,
)
    requires
        bs1.len() == bs2.len(),
        forall|k: int| 0 <= k < bs1.len()
            ==> (#[trigger] bs1[k]).to_multiset() == bs2[k].to_multiset()
                && distinct_candidates(bs1[k]) && distinct_candidates(bs2[k]),
    ensures
        forall|a: int, b: int| #[trigger] pair_total(n, bs1, a, b) == pair_total(n, bs2, a, b),
        ranked_pairs_ranks(n, bs1) == ranked_pairs_ranks(n, bs2),
{
    assert forall|a: int, b: int| #[trigger] pair_total(n, bs1, a, b)
        == pair_total(n, bs2, a, b) by {
        lemma_pair_total_pointwise(n, bs1, bs2, a, b);
    }
    let cap = bs1.len() as int;
    assert((cap + 1) * (cap + 1) - 1 >= 0) by (nonlinear_arith)
        requires
            cap >= 0,
    ;
    lemma_locked_steps_congruence(n, bs1, bs2, (max_defeat_key(bs1) + 1) as nat);
}


/// The graph holds a directed cycle.
pub open spec fn has_cycle(g: Set<(int, int)>) -> bool {
    exists|p: Seq<int>| is_path(g, p) && p.len() >= 2 && p.first() == p.last()
}

/// Two paths sharing an endpoint join into one path.
proof fn lemma_path_concat(g: Set<(int, int)>, p1: Seq<int>, p2: Seq<int>)
    requires
        is_path(g, p1),
        is_path(g, p2),
        p1.len() >= 1,
        p2.len() >= 1,
        p1.last() == p2.first(),
    ensures
        is_path(g, p1 + p2.drop_first()),
        (p1 + p2.drop_first()).len() == p1.len() + p2.len() - 1,
        (p1 + p2.drop_first()).first() == p1.first(),
        (p1 + p2.drop_first()).last() == p2.last(),
{
    let q = p1 + p2.drop_first();
    assert forall|i: int| 0 <= i < q.len() - 1 implies
        #[trigger] g.contains((q[i], q[i + 1])) by {
        if i < p1.len() - 1 {
            assert(q[i] == p1[i] && q[i + 1] == p1[i + 1]);
            lemma_path_edge(g, p1, i);
        } else if i == p1.len() - 1 {
            assert(q[i] == p1.last());
            assert(q[i + 1] == p2[1]);
            lemma_path_edge(g, p2, 0);
        } else {
            assert(q[i] == p2[i - p1.len() + 1] && q[i + 1] == p2[i - p1.len() + 2]);
            lemma_path_edge(g, p2, i - p1.len() + 1);
        }
    }
    if p2.len() == 1 {
        assert(q.last() == p1.last());
    } else {
        assert(q.last() == p2[p2.len() - 1]);
    }
}

/// A subrange of a path is a path.
proof fn lemma_path_subrange(g: Set<(int, int)>, p: Seq<int>, lo: int, hi: int)
    requires
        is_path(g, p),
        0 <= lo <= hi <= p.len(),
    ensures
        is_path(g, p.subrange(lo, hi)),
{
    let q = p.subrange(lo, hi);
    assert forall|i: int| 0 <= i < q.len() - 1 implies
        #[trigger] g.contains((q[i], q[i + 1])) by {
        assert(q[i] == p[lo + i] && q[i + 1] == p[lo + i + 1]);
        lemma_path_edge(g, p, lo + i);
    }
}

/// Locking one tie group keeps the graph cycle-free: a batch member kept by
/// the cycle test cannot lie on a cycle, because the rest of that cycle
/// would be the very path the test looked for.
#[verifier::rlimit(100)]
proof fn lemma_lock_group_acyclic(g: Set<(int, int)>, grp: Set<(int, int)>)
    requires
        !has_cycle(g),
    ensures
        !has_cycle(lock_group(g, grp)),
{
    let ins = g.union(grp);
    let locked = lock_group(g, grp);
    if has_cycle(locked) {
        let p = choose|p: Seq<int>|
            is_path(locked, p) && p.len() >= 2 && p.first() == p.last();
        if forall|i: int| 0 <= i < p.len() - 1 ==> g.contains((#[trigger] p[i], p[i + 1])) {
            assert(is_path(g, p));
            assert(has_cycle(g));
        } else {
            let i = choose|i: int|
                0 <= i < p.len() - 1 && !g.contains((#[trigger] p[i], p[i + 1]));
            let e = (p[i], p[i + 1]);
            assert(locked.contains(e));
            assert(grp.contains(e));
            assert(!reachable(ins, e.1, e.0));
            // The rest of the cycle is a path from the edge's head back to
            // its tail, inside the locked graph, hence inside `ins`.
            let q1 = p.subrange(i + 1, p.len() as int);
            let q2 = p.subrange(0, i + 1);
            lemma_path_subrange(locked, p, i + 1, p.len() as int);
            lemma_path_subrange(locked, p, 0, i + 1);
            assert(q1.last() == p.last() && p.last() == p.first() && q2.first() == p.first());
            lemma_path_concat(locked, q1, q2);
            let q = q1 + q2.drop_first();
            assert(is_path(ins, q)) by {
                assert forall|k: int| 0 <= k < q.len() - 1 implies
                    ins.contains((#[trigger] q[k], q[k + 1])) by {
                    assert(locked.contains((q[k], q[k + 1])));
                }
            }
            assert(q.first() == e.1 && q.last() == e.0 && q.len() >= 1);
            assert(reachable(ins, e.1, e.0));
        }
    }
}

/// The locked defeat graph of an election is cycle-free at every stage.
pub proof fn lemma_locked_graph_acyclic(n: int, bs: Seq<Seq<VoteItem>>, steps: nat)
    ensures
        !has_cycle(locked_steps(n, bs, steps)),
    decreases steps,
{
    if steps == 0 {
        if has_cycle(locked_steps(n, bs, 0)) {
            let p = choose|p: Seq<int>|
                is_path(locked_steps(n, bs, 0), p) && p.len() >= 2 && p.first() == p.last();
            lemma_path_edge(locked_steps(n, bs, 0), p, 0);
        }
    } else {
        lemma_locked_graph_acyclic(n, bs, (steps - 1) as nat);
        lemma_lock_group_acyclic(
            locked_steps(n, bs, (steps - 1) as nat),
            group_at(n, bs, max_defeat_key(bs) - (steps - 1)),
        );
    }
}

/// In a defeated-everywhere remainder one can walk defeats backward forever.
#[verifier::rlimit(100)]
proof fn lemma_defeated_chain(g: Set<(int, int)>, s: Set<int>, start: int, k: nat)
    requires
        s.contains(start),
        forall|c: int| #[trigger] s.contains(c)
            ==> exists|d: int| s.contains(d) && g.contains((d, c)),
    ensures
        exists|p: Seq<int>|
            is_path(g, p) && p.len() == k + 1 && p.last() == start
                && (forall|m: int| 0 <= m < p.len() ==> s.contains(#[trigger] p[m])),
    decreases k,
{
    if k == 0 {
        let p = seq![start];
        assert(is_path(g, p) && p.len() == 1 && p.last() == start);
        assert(forall|m: int| 0 <= m < p.len() ==> s.contains(#[trigger] p[m]));
    } else {
        lemma_defeated_chain(g, s, start, (k - 1) as nat);
        let p0 = choose|p0: Seq<int>|
            is_path(g, p0) && p0.len() == (k - 1) + 1 && p0.last() == start
                && (forall|m: int| 0 <= m < p0.len() ==> s.contains(#[trigger] p0[m]));
        let f = p0.first();
        assert(s.contains(f));
        let d = choose|d: int| s.contains(d) && g.contains((d, f));
        let p = seq![d] + p0;
        assert forall|m: int| 0 <= m < p.len() - 1 implies
            #[trigger] g.contains((p[m], p[m + 1])) by {
            if m == 0 {
                assert(p[0] == d && p[1] == f);
            } else {
                assert(p[m] == p0[m - 1] && p[m + 1] == p0[m]);
                lemma_path_edge(g, p0, m - 1);
            }
        }
        assert(is_path(g, p) && p.len() == k + 1 && p.last() == start);
        assert(forall|m: int| 0 <= m < p.len() ==> s.contains(#[trigger] p[m]));
    }
}

/// A path longer than the node set it stays in must revisit a node.
proof fn lemma_long_path_repeats(p: Seq<int>, s: Set<int>)
    requires
        forall|m: int| 0 <= m < p.len() ==> s.contains(#[trigger] p[m]),
        s.finite(),
        p.len() > s.len(),
    ensures
        exists|i: int, j: int| 0 <= i < j < p.len() && p[i] == p[j],
{
    if !(exists|i: int, j: int| 0 <= i < j < p.len() && p[i] == p[j]) {
        assert(p.no_duplicates()) by {
            assert forall|i: int, j: int| 0 <= i < p.len() && 0 <= j < p.len() && i != j
                implies p[i] != p[j] by {
                if p[i] == p[j] {
                    if i < j {
                        assert(0 <= i < j < p.len() && p[i] == p[j]);
                    } else {
                        assert(0 <= j < i < p.len() && p[j] == p[i]);
                    }
                }
            }
        }
        p.unique_seq_to_set();
        assert(p.to_set().subset_of(s)) by {
            assert forall|x: int| p.to_set().contains(x) implies s.contains(x) by {
                let m = choose|m: int| 0 <= m < p.len() && p[m] == x;
            }
        }
        vstd::set_lib::lemma_len_subset(p.to_set(), s);
    }
}

/// A finite node set in which everything has an in-neighbour inside the
/// set forces a cycle.
#[verifier::rlimit(100)]
proof fn lemma_all_defeated_cycle(g: Set<(int, int)>, s: Set<int>, start: int)
    requires
        s.finite(),
        s.contains(start),
        forall|c: int| #[trigger] s.contains(c)
            ==> exists|d: int| s.contains(d) && g.contains((d, c)),
    ensures
        has_cycle(g),
{
    lemma_defeated_chain(g, s, start, (s.len() + 1) as nat);
    let p = choose|p: Seq<int>|
        is_path(g, p) && p.len() == s.len() + 2 && p.last() == start
            && (forall|m: int| 0 <= m < p.len() ==> s.contains(#[trigger] p[m]));
    lemma_long_path_repeats(p, s);
    let (i, j) = choose|i: int, j: int| 0 <= i < j < p.len() && p[i] == p[j];
    lemma_path_subrange(g, p, i, j + 1);
    let q = p.subrange(i, j + 1);
    assert(q.len() >= 2 && q.first() == q.last());
}

/// The tier extraction never stalls: the locked graph is cycle-free, so any
/// nonempty remainder keeps at least one undefeated candidate, and the
/// whole-remainder fallback tier of `tiers_from` can never be produced for
/// a locked graph.
#[verifier::rlimit(100)]
pub proof fn lemma_tiers_never_stall(g: Set<(int, int)>, rem: Seq<usize>)
    requires
        rem.len() >= 1,
        !has_cycle(g),
    ensures
        sieve(g, rem, rem, true).len() >= 1,
{
    broadcast use vstd::seq_lib::seq_to_set_is_finite;

    if sieve(g, rem, rem, true).len() == 0 {
        lemma_sieve_misses_none(g, rem, rem, true);
        // Every remaining candidate has a defeater among the remainder.
        let ints = rem.map_values(|u: usize| u as int);
        let s = ints.to_set();
        assert forall|c: int| #[trigger] s.contains(c)
            implies exists|d: int| s.contains(d) && g.contains((d, c)) by {
            let m = choose|m: int| 0 <= m < ints.len() && ints[m] == c;
            assert(rem[m] as int == c);
            assert(!undefeated_in(g, rem, rem[m]));
            let i = choose|i: int|
                0 <= i < rem.len() && g.contains(((#[trigger] rem[i]) as int, rem[m] as int));
            assert(ints[i] == rem[i] as int);
            assert(s.contains(rem[i] as int));
        }
        assert(s.contains(ints[0]));
        lemma_all_defeated_cycle(g, s, ints[0]);
    }
}

/// An undefeated candidate always survives the sieve.
proof fn lemma_sieve_misses_none(g: Set<(int, int)>, rem: Seq<usize>, s: Seq<usize>, want: bool)
    requires
        sieve(g, rem, s, want).len() == 0,
    ensures
        forall|i: int| 0 <= i < s.len() ==> undefeated_in(g, rem, #[trigger] s[i]) != want,
    decreases s.len(),
{
    if s.len() != 0 {
        assert(sieve(g, rem, s.drop_last(), want).len() == 0) by {
            if undefeated_in(g, rem, s.last()) == want {
                assert(sieve(g, rem, s, want).len() > 0);
            }
        }
        lemma_sieve_misses_none(g, rem, s.drop_last(), want);
        assert forall|i: int| 0 <= i < s.len() implies
            undefeated_in(g, rem, #[trigger] s[i]) != want by {
            if i < s.len() - 1 {
                assert(s.drop_last()[i] == s[i]);
            }
        }
    }
}


/// The election always produces a winner tier: at least one candidate is
/// undefeated in the locked graph, so the ranking opens with a nonempty
/// tier (and the fallback branch of `tiers_from` is never taken there).
pub proof fn lemma_winning_tier_nonempty(n: int, bs: Seq<Seq<VoteItem>>)
    requires
        1 <= n <= usize::MAX,
    ensures
        ranked_pairs_ranks(n, bs).len() >= 1,
        ranked_pairs_ranks(n, bs)[0].len() >= 1,
{
    let cap = bs.len() as int;
    assert((cap + 1) * (cap + 1) - 1 >= 0) by (nonlinear_arith)
        requires
            cap >= 0,
    ;
    lemma_locked_graph_acyclic(n, bs, (max_defeat_key(bs) + 1) as nat);
    let g = locked_graph(n, bs);
    let rem = all_candidates(n);
    lemma_tiers_never_stall(g, rem);
    let winners = sieve(g, rem, rem, true);
    assert(tiers_from(g, rem) == seq![winners] + tiers_from(g, sieve(g, rem, rem, false)));
    assert(tiers_from(g, rem)[0] == winners);
}


/// Every element of `s` is a candidate index.
pub open spec fn candidate_set(s: Set<int>, n: int) -> bool {
    forall|c: int| #[trigger] s.contains(c) ==> 0 <= c < n
}

/// `w` beats every other member of `s` head-to-head.
pub open spec fn beats_all_in(n: int, bs: Seq<Seq<VoteItem>>, s: Set<int>, w: int) -> bool {
    &&& s.contains(w)
    &&& forall|x: int|
        s.contains(x) && x != w
            ==> pair_total(n, bs, w, x) > #[trigger] pair_total(n, bs, x, w)
}

/// A Condorcet winner at every level: every nonempty set of candidates
/// holds one member that beats all its others head-to-head.
pub open spec fn always_condorcet(n: int, bs: Seq<Seq<VoteItem>>) -> bool {
    forall|s: Set<int>|
        s.finite() && s.len() >= 1 && #[trigger] candidate_set(s, n)
            ==> exists|w: int| #[trigger] beats_all_in(n, bs, s, w)
}

/// With a Condorcet winner at every level no defeat ever closes a cycle,
/// so every defeat is locked.
proof fn lemma_always_condorcet_locks_all(n: int, bs: Seq<Seq<VoteItem>>, steps: nat)
    requires
        always_condorcet(n, bs),
    ensures
        forall|a: int, b: int|
            is_defeat(n, bs, a, b) && defeat_key(n, bs, a, b) > max_defeat_key(bs) - steps
                ==> #[trigger] locked_steps(n, bs, steps).contains((a, b)),
    decreases steps,
{
    broadcast use vstd::seq_lib::seq_to_set_is_finite;

    if steps == 0 {
        assert forall|a: int, b: int|
            is_defeat(n, bs, a, b) && defeat_key(n, bs, a, b) > max_defeat_key(bs) - steps
                implies #[trigger] locked_steps(n, bs, steps).contains((a, b)) by {
            lemma_defeat_key_bounds(n, bs, a, b);
        }
    } else {
        lemma_always_condorcet_locks_all(n, bs, (steps - 1) as nat);
        lemma_locked_steps_are_defeats(n, bs, (steps - 1) as nat);
        let prev = locked_steps(n, bs, (steps - 1) as nat);
        let k = max_defeat_key(bs) - (steps - 1);
        let grp = group_at(n, bs, k);
        let ins = prev.union(grp);
        assert forall|a: int, b: int|
            is_defeat(n, bs, a, b) && defeat_key(n, bs, a, b) > max_defeat_key(bs) - steps
                implies #[trigger] locked_steps(n, bs, steps).contains((a, b)) by {
            lemma_defeat_key_bounds(n, bs, a, b);
            if defeat_key(n, bs, a, b) > k {
                assert(prev.contains((a, b)));
                assert(!grp.contains((a, b)));
                assert(ins.contains((a, b)));
            } else {
                assert(defeat_key(n, bs, a, b) == k);
                assert(grp.contains((a, b)));
                assert(ins.contains((a, b)));
                lemma_cycle_needs_no_winner(n, bs, ins, a, b);
            }
        }
    }
}

/// A path of defeats from the loser back to the winner, on top of the
/// defeat itself, yields a candidate set in which everyone is beaten by a
/// member: no level-winner can exist in it.
proof fn lemma_cycle_needs_no_winner(
    n: int,
    bs: Seq<Seq<VoteItem>>,
    ins: Set<(int, int)>,
    a: int,
    b: int,
)
    requires
        always_condorcet(n, bs),
        forall|e: (int, int)| #[trigger] ins.contains(e) ==> is_defeat(n, bs, e.0, e.1),
        is_defeat(n, bs, a, b),
    ensures
        !reachable(ins, b, a),
{
    broadcast use vstd::seq_lib::seq_to_set_is_finite;

    if !reachable(ins, b, a) {
        return ;
    }
    let p = choose|p: Seq<int>|
        is_path(ins, p) && p.len() >= 1 && p.first() == b && p.last() == a;
    let s = p.to_set();
    assert(s.contains(b)) by {
        assert(p[0] == b);
    }
    assert(s.contains(a)) by {
        assert(p[p.len() - 1] == a);
    }
    assert(candidate_set(s, n)) by {
        assert forall|c: int| #[trigger] s.contains(c) implies 0 <= c < n by {
            let m = choose|m: int| 0 <= m < p.len() && p[m] == c;
            if m == 0 {
                assert(is_defeat(n, bs, a, b));
            } else {
                lemma_path_edge(ins, p, m - 1);
                assert(ins.contains((p[m - 1], p[m])));
            }
        }
    }
    assert(s.len() >= 1) by {
        if s.len() == 0 {
            s.lemma_len0_is_empty();
        }
    }
    let w = choose|w: int| #[trigger] beats_all_in(n, bs, s, w);
    assert(beats_all_in(n, bs, s, w));
    // Everyone on the cycle, the winner included, is beaten by a member.
    let m = choose|m: int| 0 <= m < p.len() && p[m] == w;
    if m == 0 {
        assert(pair_total(n, bs, a, b) > pair_total(n, bs, b, a));
        assert(a != w) by {
            if a == w {
                assert(is_defeat(n, bs, w, w) || a == b);
            }
        }
        assert(pair_total(n, bs, w, a) > pair_total(n, bs, a, w));
    } else {
        lemma_path_edge(ins, p, m - 1);
        let d = p[m - 1];
        assert(is_defeat(n, bs, d, w));
        assert(d != w);
        assert(s.contains(d)) by {
            assert(p[m - 1] == d);
        }
        assert(pair_total(n, bs, w, d) > pair_total(n, bs, d, w));
    }
    assert(false);
}


/// When exactly one member of a remainder is undefeated, one round of the
/// sieve emits that member alone and keeps the rest in order.
proof fn lemma_sieve_unique_winner(
    g: Set<(int, int)>,
    rem: Seq<usize>,
    w: usize,
    m: int,
    k: int,
)
    requires
        forall|i: int, j: int| 0 <= i < j < rem.len() ==> rem[i] != rem[j],
        0 <= m < rem.len(),
        rem[m] == w,
        0 <= k <= rem.len(),
        forall|i: int| 0 <= i < rem.len()
            ==> (undefeated_in(g, rem, #[trigger] rem[i]) <==> rem[i] == w),
    ensures
        sieve(g, rem, rem.take(k), true) == if k > m {
            seq![w]
        } else {
            Seq::<usize>::empty()
        },
        sieve(g, rem, rem.take(k), false) == if k > m {
            rem.take(k).remove(m)
        } else {
            rem.take(k)
        },
    decreases k,
{
    if k == 0 {
        assert(rem.take(0) =~= Seq::<usize>::empty());
    } else {
        lemma_sieve_unique_winner(g, rem, w, m, k - 1);
        assert(rem.take(k).drop_last() =~= rem.take(k - 1));
        assert(rem.take(k).last() == rem[k - 1]);
        if k - 1 == m {
            assert(undefeated_in(g, rem, rem[k - 1]));
            assert(sieve(g, rem, rem.take(k), true) =~= seq![w]);
            assert(rem.take(k).remove(m) =~= rem.take(k - 1));
        } else {
            assert(rem[k - 1] != w) by {
                if k - 1 < m {
                    assert(rem[k - 1] != rem[m]);
                } else {
                    assert(rem[m] != rem[k - 1]);
                }
            }
            assert(!undefeated_in(g, rem, rem[k - 1]));
            if k - 1 < m {
                assert(sieve(g, rem, rem.take(k), false)
                    =~= rem.take(k - 1).push(rem[k - 1]));
                assert(rem.take(k - 1).push(rem[k - 1]) =~= rem.take(k));
            } else {
                assert(sieve(g, rem, rem.take(k), false)
                    =~= rem.take(k - 1).remove(m).push(rem[k - 1]));
                assert(rem.take(k - 1).remove(m).push(rem[k - 1]) =~= rem.take(k).remove(m));
            }
        }
    }
}

/// With a Condorcet winner at every level, the tiers of any distinct
/// remainder are successive singletons, each member of the remainder, and
/// an earlier tier's candidate beats every later tier's candidate.
#[verifier::rlimit(100)]
proof fn lemma_tiers_singletons(n: int, bs: Seq<Seq<VoteItem>>, g: Set<(int, int)>, rem: Seq<usize>)
    requires
        always_condorcet(n, bs),
        forall|a: int, b: int| is_defeat(n, bs, a, b) ==> #[trigger] g.contains((a, b)),
        forall|e: (int, int)| #[trigger] g.contains(e) ==> is_defeat(n, bs, e.0, e.1),
        forall|i: int, j: int| 0 <= i < j < rem.len() ==> rem[i] != rem[j],
        forall|i: int| 0 <= i < rem.len() ==> (#[trigger] rem[i]) < n,
    ensures
        tiers_from(g, rem).len() == rem.len(),
        forall|i: int| 0 <= i < rem.len() ==> (#[trigger] tiers_from(g, rem)[i]).len() == 1,
        forall|i: int| 0 <= i < rem.len() ==> rem.contains(#[trigger] tiers_from(g, rem)[i][0]),
        forall|i: int, j: int|
            0 <= i < j < rem.len()
                ==> pair_total(n, bs, (#[trigger] tiers_from(g, rem)[i])[0] as int,
                    (#[trigger] tiers_from(g, rem)[j])[0] as int)
                    > pair_total(n, bs, tiers_from(g, rem)[j][0] as int,
                        tiers_from(g, rem)[i][0] as int),
    decreases rem.len(),
{
    broadcast use vstd::seq_lib::seq_to_set_is_finite;

    if rem.len() == 0 {
        return ;
    }
    let ints = rem.map_values(|u: usize| u as int);
    let s = ints.to_set();
    assert(s.contains(ints[0]));
    assert(s.len() >= 1) by {
        if s.len() == 0 {
            s.lemma_len0_is_empty();
        }
    }
    assert(candidate_set(s, n)) by {
        assert forall|c: int| #[trigger] s.contains(c) implies 0 <= c < n by {
            let m0 = choose|m0: int| 0 <= m0 < ints.len() && ints[m0] == c;
            assert(rem[m0] < n);
        }
    }
    let w_int = choose|w_int: int| #[trigger] beats_all_in(n, bs, s, w_int);
    assert(beats_all_in(n, bs, s, w_int));
    let m = choose|m: int| 0 <= m < ints.len() && ints[m] == w_int;
    let w = rem[m];
    assert(w as int == w_int);
    // Exactly the level winner is undefeated among the remainder.
    assert forall|i: int| 0 <= i < rem.len() implies
        (undefeated_in(g, rem, #[trigger] rem[i]) <==> rem[i] == w) by {
        let c = rem[i];
        if c == w {
            assert forall|i2: int| 0 <= i2 < rem.len() implies
                !g.contains(((#[trigger] rem[i2]) as int, c as int)) by {
                if g.contains((rem[i2] as int, c as int)) {
                    assert(is_defeat(n, bs, rem[i2] as int, c as int));
                    assert(s.contains(ints[i2]));
                    assert(ints[i2] == rem[i2] as int);
                    if rem[i2] as int != w_int {
                        assert(pair_total(n, bs, w_int, rem[i2] as int)
                            > pair_total(n, bs, rem[i2] as int, w_int));
                    }
                }
            }
        } else {
            assert(s.contains(ints[i]));
            assert(ints[i] == c as int);
            assert(c as int != w_int) by {
                if i < m {
                    assert(rem[i] != rem[m]);
                } else if i > m {
                    assert(rem[m] != rem[i]);
                }
            }
            assert(pair_total(n, bs, w_int, c as int) > pair_total(n, bs, c as int, w_int));
            assert(is_defeat(n, bs, w as int, c as int));
            assert(g.contains((w as int, c as int)));
            assert(!undefeated_in(g, rem, c)) by {
                if undefeated_in(g, rem, c) {
                    assert(!g.contains(((rem[m]) as int, c as int)));
                }
            }
        }
    }
    assert(rem.take(rem.len() as int) =~= rem);
    lemma_sieve_unique_winner(g, rem, w, m, rem.len() as int);
    let winners = sieve(g, rem, rem, true);
    let losers = sieve(g, rem, rem, false);
    assert(winners == seq![w]);
    assert(losers == rem.remove(m));
    assert(tiers_from(g, rem) == seq![winners] + tiers_from(g, losers));
    // The rest of the remainder recurses with the winner removed.
    assert forall|i: int, j: int| 0 <= i < j < losers.len() implies losers[i] != losers[j] by {
        let i0: int = if i < m { i } else { i + 1 };
        let j0: int = if j < m { j } else { j + 1 };
        assert(losers[i] == rem[i0] && losers[j] == rem[j0]);
    }
    assert forall|i: int| 0 <= i < losers.len() implies (#[trigger] losers[i]) < n by {
        let i0: int = if i < m { i } else { i + 1 };
        assert(losers[i] == rem[i0]);
    }
    lemma_tiers_singletons(n, bs, g, losers);
    let tiers = tiers_from(g, rem);
    let sub = tiers_from(g, losers);
    assert forall|i: int| 0 <= i < rem.len() implies
        (#[trigger] tiers[i]).len() == 1 && rem.contains(tiers[i][0]) by {
        if i == 0 {
            assert(tiers[0] == winners);
            assert(rem[m] == w);
        } else {
            assert(tiers[i] == sub[i - 1]);
            assert(losers.contains(sub[i - 1][0]));
            let i1 = choose|i1: int| 0 <= i1 < losers.len() && losers[i1] == sub[i - 1][0];
            let i0: int = if i1 < m { i1 } else { i1 + 1 };
            assert(rem[i0] == losers[i1]);
        }
    }
    assert forall|i: int, j: int| 0 <= i < j < rem.len() implies
        pair_total(n, bs, (#[trigger] tiers[i])[0] as int, (#[trigger] tiers[j])[0] as int)
            > pair_total(n, bs, tiers[j][0] as int, tiers[i][0] as int) by {
        if i == 0 {
            assert(tiers[0][0] == w);
            assert(tiers[j] == sub[j - 1]);
            let c = tiers[j][0];
            assert(losers.contains(c));
            let i1 = choose|i1: int| 0 <= i1 < losers.len() && losers[i1] == c;
            let i0: int = if i1 < m { i1 } else { i1 + 1 };
            assert(rem[i0] == c);
            assert(i0 != m);
            assert(c != w) by {
                if i0 < m {
                    assert(rem[i0] != rem[m]);
                } else {
                    assert(rem[m] != rem[i0]);
                }
            }
            assert(s.contains(ints[i0]));
            assert(ints[i0] == c as int);
            assert(pair_total(n, bs, w_int, c as int) > pair_total(n, bs, c as int, w_int));
        } else {
            assert(tiers[i] == sub[i - 1]);
            assert(tiers[j] == sub[j - 1]);
        }
    }
}

/// With a Condorcet winner at every level — every nonempty candidate set
/// holds a member beating all its others head-to-head, as is the case when
/// every ballot ranks every candidate strictly and no head-to-head race
/// ties — the ranking is a strict total order: every tier is one candidate,
/// and each earlier candidate beats every later one.
pub proof fn lemma_total_order_tiers(n: int, bs: Seq<Seq<VoteItem>>)
    requires
        1 <= n <= usize::MAX,
        always_condorcet(n, bs),
    ensures
        ranked_pairs_ranks(n, bs).len() == n,
        forall|i: int| 0 <= i < n ==> (#[trigger] ranked_pairs_ranks(n, bs)[i]).len() == 1,
        forall|i: int, j: int|
            0 <= i < j < n
                ==> pair_total(n, bs, (#[trigger] ranked_pairs_ranks(n, bs)[i])[0] as int,
                    (#[trigger] ranked_pairs_ranks(n, bs)[j])[0] as int)
                    > pair_total(n, bs, ranked_pairs_ranks(n, bs)[j][0] as int,
                        ranked_pairs_ranks(n, bs)[i][0] as int),
{
    let cap = bs.len() as int;
    assert((cap + 1) * (cap + 1) - 1 >= 0) by (nonlinear_arith)
        requires
            cap >= 0,
    ;
    let steps = (max_defeat_key(bs) + 1) as nat;
    lemma_always_condorcet_locks_all(n, bs, steps);
    lemma_locked_steps_are_defeats(n, bs, steps);
    let g = locked_graph(n, bs);
    assert forall|a: int, b: int| is_defeat(n, bs, a, b) implies #[trigger] g.contains((a, b)) by {
        lemma_defeat_key_bounds(n, bs, a, b);
    }
    let rem = all_candidates(n);
    lemma_tiers_singletons(n, bs, g, rem);
}

/// The ballots of an election as a sequence of entry sequences.
pub open spec fn ballots_view(votes: Vec<Vec<VoteItem>>) -> Seq<Seq<VoteItem>> {
    votes@.map_values(|v: Vec<VoteItem>| v@)
}

} // verus!
