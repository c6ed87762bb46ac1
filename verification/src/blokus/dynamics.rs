//! Ranking final Blokus scores into zero-sum rewards.
use vstd::prelude::*;

verus! {

/// +1 when `a` beats `b`, -1 when it loses to it, 0 on a tie.
pub open spec fn versus(a: i32, b: i32) -> int {
    if a > b {
        1
    } else if a < b {
        -1
    } else {
        0
    }
}

/// Sum over the first `n` players `j` of `versus(s[i], s[j])`.
pub open spec fn margin_upto(s: Seq<i32>, i: int, n: int) -> int
    decreases n,
{
    if n <= 0 {
        0
    } else {
        margin_upto(s, i, n - 1) + versus(s[i], s[n - 1])
    }
}

/// Player `i`'s margin: players it beats minus players that beat it.
pub open spec fn margin(s: Seq<i32>, i: int) -> int {
    margin_upto(s, i, s.len() as int)
}

/// The margins of the first `n` players, summed, over the first `m` opponents.
pub open spec fn margins_sum(s: Seq<i32>, n: int, m: int) -> int
    decreases n,
{
    if n <= 0 {
        0
    } else {
        margins_sum(s, n - 1, m) + margin_upto(s, n - 1, m)
    }
}

/// The rank margin of each player: how many players it beats minus how many
/// beat it. The rank reward is the margin divided by one less than the
/// number of players (all zero for a single player). The counts are `i32`
/// values, as the original's are, hence at most `i32::MAX + 1` players.
pub fn rank_margins<const P: usize>(scores: &[i32; P]) -> (m: [i32; P])
    requires
        P <= i32::MAX + 1,
    ensures
        forall|i: int| 0 <= i < P ==> #[trigger] m@[i] == margin(scores@, i),
{
    let mut m: [i32; P] = [0i32; P];
    let mut i: usize = 0;
    while i < P
        invariant
            i <= P <= i32::MAX + 1,
            scores@.len() == P,
            m@.len() == P,
            forall|k: int| 0 <= k < i ==> #[trigger] m@[k] == margin(scores@, k),
        decreases P - i,
    {
        let mut total: i32 = 0;
        let mut j: usize = 0;
        while j < P
            invariant
                i < P <= i32::MAX + 1,
                j <= P,
                scores@.len() == P,
                total == margin_upto(scores@, i as int, j as int),
                -(j as int) <= total <= j,
                i < j ==> -(j - 1) <= total <= j - 1,
            decreases P - j,
        {
            if scores[i] > scores[j] {
                total = total + 1;
            } else if scores[i] < scores[j] {
                total = total - 1;
            }
            j = j + 1;
        }
        m[i] = total;
        i = i + 1;
    }
    m
}

/// Swapping the players in `versus` flips the sign.
proof fn lemma_versus_antisym(a: i32, b: i32)
    ensures
        versus(a, b) == -versus(b, a),
{
}

/// The column sum: `sum_{i<n} versus(s[i], s[m])`.
pub open spec fn column_sum(s: Seq<i32>, n: int, m: int) -> int
    decreases n,
{
    if n <= 0 {
        0
    } else {
        column_sum(s, n - 1, m) + versus(s[n - 1], s[m])
    }
}

/// Adding one opponent adds its column.
proof fn lemma_sum_extend_opponent(s: Seq<i32>, n: int, m: int)
    requires
        0 <= n,
        0 <= m,
    ensures
        margins_sum(s, n, m + 1) == margins_sum(s, n, m) + column_sum(s, n, m),
    decreases n,
{
    if n > 0 {
        lemma_sum_extend_opponent(s, n - 1, m);
    }
}

/// A column against player `m` is minus player `m`'s own row.
proof fn lemma_column_row(s: Seq<i32>, n: int, m: int)
    requires
        0 <= n,
    ensures
        column_sum(s, n, m) == -margin_upto(s, m, n),
    decreases n,
{
    if n > 0 {
        lemma_column_row(s, n - 1, m);
        lemma_versus_antisym(s[n - 1], s[m]);
    }
}

/// Among the first `n` players, the margins against each other add up to zero.
proof fn lemma_square_sum_zero(s: Seq<i32>, n: int)
    requires
        0 <= n,
    ensures
        margins_sum(s, n, n) == 0,
    decreases n,
{
    if n > 0 {
        lemma_square_sum_zero(s, n - 1);
        lemma_sum_extend_opponent(s, n - 1, n - 1);
        lemma_column_row(s, n - 1, n - 1);
        assert(versus(s[n - 1], s[n - 1]) == 0);
    }
}

/// Rank margins are zero-sum: over all players they add up to zero, so the
/// rank rewards do too.
pub proof fn law_rank_margins_zero_sum(s: Seq<i32>)
    ensures
        margins_sum(s, s.len() as int, s.len() as int) == 0,
{
    lemma_square_sum_zero(s, s.len() as int);
}

} // verus!
