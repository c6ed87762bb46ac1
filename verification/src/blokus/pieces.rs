//! The 21 Blokus polyomino pieces and their canonical orientations.
use vstd::prelude::*;
use vstd::relations::{sorted_by, total_ordering};

verus! {

/// Number of distinct polyomino pieces each player owns.
pub const NUM_PIECES: usize = 21;

/// Total number of squares over all 21 pieces of one player.
pub const TOTAL_SQUARES_PER_PLAYER: usize = 89;

/// One orientation of a polyomino, normalized so that its smallest row and
/// column are both 0 and its squares are listed in lexicographic order.
#[derive(Debug, Clone, Copy, PartialEq, Eq, Hash)]
pub struct PolyominoShape {
    /// Number of squares of the piece (1 to 5).
    pub num_squares: u8,
    /// Height of the bounding box.
    pub height: u8,
    /// Width of the bounding box.
    pub width: u8,
    /// Relative `(row, col)` squares; only the first `num_squares` are used.
    pub squares: [(u8, u8); 5],
}

/// Lexicographic order on `(row, col)` pairs.
pub open spec fn lex_leq(a: (u8, u8), b: (u8, u8)) -> bool {
    a.0 < b.0 || (a.0 == b.0 && a.1 <= b.1)
}

pub open spec fn lex_leq_fn() -> spec_fn((u8, u8), (u8, u8)) -> bool {
    |a: (u8, u8), b: (u8, u8)| lex_leq(a, b)
}

pub proof fn lemma_lex_total()
    ensures
        total_ordering(lex_leq_fn()),
{
}

impl PolyominoShape {
    /// The squares that the shape occupies, in order.
    pub open spec fn cells(self) -> Seq<(u8, u8)> {
        self.squares@.subrange(0, self.num_squares as int)
    }

    /// A shape is well formed when it is normalized, sorted, padded with
    /// `(0, 0)` and its bounding box is tight.
    pub open spec fn wf(self) -> bool {
        &&& 1 <= self.num_squares <= 5
        &&& forall|i: int| self.num_squares <= i < 5 ==> #[trigger] self.squares@[i] == (0u8, 0u8)
        &&& forall|i: int|
            0 <= i < self.num_squares ==> (#[trigger] self.squares@[i]).0 < self.height
                && self.squares@[i].1 < self.width
        &&& exists|i: int| 0 <= i < self.num_squares && (#[trigger] self.squares@[i]).0 + 1 == self.height
        &&& exists|i: int| 0 <= i < self.num_squares && (#[trigger] self.squares@[i]).1 + 1 == self.width
        &&& exists|i: int| 0 <= i < self.num_squares && (#[trigger] self.squares@[i]).0 == 0
        &&& exists|i: int| 0 <= i < self.num_squares && (#[trigger] self.squares@[i]).1 == 0
        &&& self.height <= 9
        &&& self.width <= 9
        &&& sorted_by(self.cells(), lex_leq_fn())
    }

    /// Returns the slice of squares that the shape occupies.
    pub fn active_squares(&self) -> (s: &[(u8, u8)])
        requires
            self.num_squares <= 5,
        ensures
            s@ == self.cells(),
    {
        vstd::slice::slice_subrange(self.squares.as_slice(), 0, self.num_squares as usize)
    }
}

/// The base squares of piece `id`, before any rotation or reflection.
pub open spec fn raw_piece(id: int) -> Seq<(i8, i8)> {
    if id == 0 {
        seq![(0i8, 0i8)]
    } else if id == 1 {
        seq![(0i8, 0i8), (0, 1)]
    } else if id == 2 {
        seq![(0i8, 0i8), (0, 1), (0, 2)]
    } else if id == 3 {
        seq![(0i8, 0i8), (0, 1), (1, 0)]
    } else if id == 4 {
        seq![(0i8, 0i8), (0, 1), (0, 2), (0, 3)]
    } else if id == 5 {
        seq![(0i8, 0i8), (1, 0), (2, 0), (2, 1)]
    } else if id == 6 {
        seq![(0i8, 0i8), (0, 1), (0, 2), (1, 1)]
    } else if id == 7 {
        seq![(0i8, 0i8), (0, 1), (1, 0), (1, 1)]
    } else if id == 8 {
        seq![(0i8, 0i8), (0, 1), (1, 1), (1, 2)]
    } else if id == 9 {
        seq![(0i8, 1i8), (0, 2), (1, 0), (1, 1), (2, 1)]
    } else if id == 10 {
        seq![(0i8, 0i8), (0, 1), (0, 2), (0, 3), (0, 4)]
    } else if id == 11 {
        seq![(0i8, 0i8), (1, 0), (2, 0), (3, 0), (3, 1)]
    } else if id == 12 {
        seq![(0i8, 0i8), (0, 1), (1, 0), (1, 1), (2, 0)]
    } else if id == 13 {
        seq![(0i8, 0i8), (1, 0), (1, 1), (2, 1), (3, 1)]
    } else if id == 14 {
        seq![(0i8, 0i8), (0, 1), (0, 2), (1, 1), (2, 1)]
    } else if id == 15 {
        seq![(0i8, 0i8), (1, 0), (1, 1), (1, 2), (0, 2)]
    } else if id == 16 {
        seq![(0i8, 0i8), (1, 0), (2, 0), (2, 1), (2, 2)]
    } else if id == 17 {
        seq![(0i8, 0i8), (1, 0), (1, 1), (2, 1), (2, 2)]
    } else if id == 18 {
        seq![(1i8, 0i8), (0, 1), (1, 1), (2, 1), (1, 2)]
    } else if id == 19 {
        seq![(0i8, 1i8), (1, 0), (1, 1), (2, 1), (3, 1)]
    } else {
        seq![(0i8, 0i8), (0, 1), (1, 1), (2, 1), (2, 2)]
    }
}

/// Raw coordinates usable by the orientation generator.
pub open spec fn raw_ok(raw: Seq<(i8, i8)>) -> bool {
    &&& 1 <= raw.len() <= 5
    &&& forall|i: int|
        0 <= i < raw.len() ==> 0 <= (#[trigger] raw[i]).0 <= 4 && 0 <= raw[i].1 <= 4
}

proof fn lemma_raw_piece_ok(id: int)
    requires
        0 <= id < 21,
    ensures
        raw_ok(raw_piece(id)),
        raw_piece(id).len() == spec_piece_size(id),
{
}

/// Exec copy of the base squares of piece `id`.
fn raw_piece_exec(id: usize) -> (v: Vec<(i8, i8)>)
    requires
        id < 21,
    ensures
        v@ == raw_piece(id as int),
{
    let v = if id == 0 {
        vec![(0i8, 0i8)]
    } else if id == 1 {
        vec![(0i8, 0i8), (0, 1)]
    } else if id == 2 {
        vec![(0i8, 0i8), (0, 1), (0, 2)]
    } else if id == 3 {
        vec![(0i8, 0i8), (0, 1), (1, 0)]
    } else if id == 4 {
        vec![(0i8, 0i8), (0, 1), (0, 2), (0, 3)]
    } else if id == 5 {
        vec![(0i8, 0i8), (1, 0), (2, 0), (2, 1)]
    } else if id == 6 {
        vec![(0i8, 0i8), (0, 1), (0, 2), (1, 1)]
    } else if id == 7 {
        vec![(0i8, 0i8), (0, 1), (1, 0), (1, 1)]
    } else if id == 8 {
        vec![(0i8, 0i8), (0, 1), (1, 1), (1, 2)]
    } else if id == 9 {
        vec![(0i8, 1i8), (0, 2), (1, 0), (1, 1), (2, 1)]
    } else if id == 10 {
        vec![(0i8, 0i8), (0, 1), (0, 2), (0, 3), (0, 4)]
    } else if id == 11 {
        vec![(0i8, 0i8), (1, 0), (2, 0), (3, 0), (3, 1)]
    } else if id == 12 {
        vec![(0i8, 0i8), (0, 1), (1, 0), (1, 1), (2, 0)]
    } else if id == 13 {
        vec![(0i8, 0i8), (1, 0), (1, 1), (2, 1), (3, 1)]
    } else if id == 14 {
        vec![(0i8, 0i8), (0, 1), (0, 2), (1, 1), (2, 1)]
    } else if id == 15 {
        vec![(0i8, 0i8), (1, 0), (1, 1), (1, 2), (0, 2)]
    } else if id == 16 {
        vec![(0i8, 0i8), (1, 0), (2, 0), (2, 1), (2, 2)]
    } else if id == 17 {
        vec![(0i8, 0i8), (1, 0), (1, 1), (2, 1), (2, 2)]
    } else if id == 18 {
        vec![(1i8, 0i8), (0, 1), (1, 1), (2, 1), (1, 2)]
    } else if id == 19 {
        vec![(0i8, 1i8), (1, 0), (1, 1), (2, 1), (3, 1)]
    } else {
        vec![(0i8, 0i8), (0, 1), (1, 1), (2, 1), (2, 2)]
    };
    proof {
        assert(v@ =~= raw_piece(id as int));
    }
    v
}

/// Number of squares of piece `id` (0 to 20).
pub open spec fn spec_piece_size(id: int) -> int {
    if id == 0 {
        1
    } else if id == 1 {
        2
    } else if id <= 3 {
        3
    } else if id <= 8 {
        4
    } else {
        5
    }
}

/// Returns the square count of piece `piece_id` (0 to 20).
pub fn piece_size(piece_id: u8) -> (n: u8)
    requires
        piece_id < 21,
    ensures
        n == spec_piece_size(piece_id as int),
{
    match piece_id {
        0 => 1,
        1 => 2,
        2..=3 => 3,
        4..=8 => 4,
        _ => 5,
    }
}


/// Quarter-turn of a square: `(r, c) -> (c, -r)`.
pub open spec fn rot_once(p: (int, int)) -> (int, int) {
    (p.1, -p.0)
}

/// `k` quarter-turns.
pub open spec fn rot_k(p: (int, int), k: nat) -> (int, int)
    decreases k,
{
    if k == 0 {
        p
    } else {
        rot_once(rot_k(p, (k - 1) as nat))
    }
}

/// Transformation number `t` (0 to 7): reflection across the row axis when
/// `t >= 4`, followed by `t % 4` quarter-turns.
pub open spec fn transform(p: (i8, i8), t: int) -> (int, int) {
    let start = if t >= 4 {
        (p.0 as int, -(p.1 as int))
    } else {
        (p.0 as int, p.1 as int)
    };
    rot_k(start, (t % 4) as nat)
}

pub open spec fn tseq(raw: Seq<(i8, i8)>, t: int) -> Seq<(int, int)> {
    raw.map_values(|p: (i8, i8)| transform(p, t))
}

/// Smallest row of a non-empty sequence of squares.
pub open spec fn min_row(s: Seq<(int, int)>) -> int
    decreases s.len(),
{
    if s.len() <= 1 {
        s[0].0
    } else {
        let m = min_row(s.drop_last());
        if s.last().0 < m {
            s.last().0
        } else {
            m
        }
    }
}

/// Smallest column of a non-empty sequence of squares.
pub open spec fn min_col(s: Seq<(int, int)>) -> int
    decreases s.len(),
{
    if s.len() <= 1 {
        s[0].1
    } else {
        let m = min_col(s.drop_last());
        if s.last().1 < m {
            s.last().1
        } else {
            m
        }
    }
}

proof fn lemma_min_row(s: Seq<(int, int)>)
    requires
        s.len() >= 1,
    ensures
        forall|i: int| 0 <= i < s.len() ==> min_row(s) <= #[trigger] s[i].0,
        exists|i: int| 0 <= i < s.len() && #[trigger] s[i].0 == min_row(s),
    decreases s.len(),
{
    if s.len() > 1 {
        lemma_min_row(s.drop_last());
        let i = choose|i: int| 0 <= i < s.drop_last().len() && #[trigger] s.drop_last()[i].0 == min_row(s.drop_last());
        assert(s[i].0 == s.drop_last()[i].0);
        assert forall|k: int| 0 <= k < s.len() implies min_row(s) <= #[trigger] s[k].0 by {
            if k < s.len() - 1 {
                assert(s[k] == s.drop_last()[k]);
            }
        }
        if s.last().0 < min_row(s.drop_last()) {
            assert(s[s.len() - 1].0 == min_row(s));
        }
    } else {
        assert(s[0].0 == min_row(s));
    }
}

proof fn lemma_min_col(s: Seq<(int, int)>)
    requires
        s.len() >= 1,
    ensures
        forall|i: int| 0 <= i < s.len() ==> min_col(s) <= #[trigger] s[i].1,
        exists|i: int| 0 <= i < s.len() && #[trigger] s[i].1 == min_col(s),
    decreases s.len(),
{
    if s.len() > 1 {
        lemma_min_col(s.drop_last());
        let i = choose|i: int| 0 <= i < s.drop_last().len() && #[trigger] s.drop_last()[i].1 == min_col(s.drop_last());
        assert(s[i].1 == s.drop_last()[i].1);
        assert forall|k: int| 0 <= k < s.len() implies min_col(s) <= #[trigger] s[k].1 by {
            if k < s.len() - 1 {
                assert(s[k] == s.drop_last()[k]);
            }
        }
        if s.last().1 < min_col(s.drop_last()) {
            assert(s[s.len() - 1].1 == min_col(s));
        }
    } else {
        assert(s[0].1 == min_col(s));
    }
}

/// The transformed squares translated so that the minimal row and column are 0.
pub open spec fn norm(raw: Seq<(i8, i8)>, t: int) -> Seq<(u8, u8)> {
    let s = tseq(raw, t);
    let mr = min_row(s);
    let mc = min_col(s);
    s.map_values(|q: (int, int)| ((q.0 - mr) as u8, (q.1 - mc) as u8))
}

/// Canonical squares of transformation `t`: normalized and sorted.
pub open spec fn canon(raw: Seq<(i8, i8)>, t: int) -> Seq<(u8, u8)> {
    norm(raw, t).sort_by(lex_leq_fn())
}

/// The distinct canonical orientations among the first `k` transformations,
/// in order of first appearance.
pub open spec fn orient_fold(raw: Seq<(i8, i8)>, k: nat) -> Seq<Seq<(u8, u8)>>
    decreases k,
{
    if k == 0 {
        Seq::empty()
    } else {
        let prev = orient_fold(raw, (k - 1) as nat);
        let c = canon(raw, k - 1);
        if prev.contains(c) {
            prev
        } else {
            prev.push(c)
        }
    }
}

/// Canonical orientations of piece `id`, as the registry lists them.
pub open spec fn piece_orientations(id: int) -> Seq<Seq<(u8, u8)>> {
    orient_fold(raw_piece(id), 8)
}

proof fn lemma_orient_fold_len(raw: Seq<(i8, i8)>, k: nat)
    ensures
        orient_fold(raw, k).len() <= k,
    decreases k,
{
    if k > 0 {
        lemma_orient_fold_len(raw, (k - 1) as nat);
    }
}

/// `a < b` in lexicographic order.
fn lex_lt(a: (u8, u8), b: (u8, u8)) -> (r: bool)
    ensures
        r == !lex_leq(b, a),
{
    a.0 < b.0 || (a.0 == b.0 && a.1 < b.1)
}

/// Sorts `a[..n]` in lexicographic order (selection sort), leaving the rest.
fn sort_prefix(a: &mut [(u8, u8); 5], n: usize)
    requires
        n <= 5,
    ensures
        final(a)@.subrange(0, n as int).to_multiset() == old(a)@.subrange(0, n as int).to_multiset(),
        sorted_by(final(a)@.subrange(0, n as int), lex_leq_fn()),
        forall|k: int| n <= k < 5 ==> final(a)@[k] == old(a)@[k],
{
    broadcast use vstd::seq_lib::group_to_multiset_ensures;
    broadcast use vstd::multiset::group_multiset_axioms;

    let ghost orig = a@;
    let mut i: usize = 0;
    while i < n
        invariant
            i <= n <= 5,
            a@.len() == 5,
            a@.subrange(0, n as int).to_multiset() == orig.subrange(0, n as int).to_multiset(),
            forall|p: int, q: int| 0 <= p < q < i ==> lex_leq(a@[p], a@[q]),
            forall|p: int, q: int| 0 <= p < i <= q < n ==> lex_leq(a@[p], a@[q]),
            forall|k: int| n <= k < 5 ==> a@[k] == orig[k],
        decreases n - i,
    {
        let mut m: usize = i;
        let mut j: usize = i + 1;
        while j < n
            invariant
                i <= m < j <= n,
                i < n <= 5,
                a@.len() == 5,
                forall|q: int| i <= q < j ==> lex_leq(a@[m as int], a@[q]),
            decreases n - j,
        {
            if lex_lt(a[j], a[m]) {
                m = j;
            }
            j += 1;
        }
        let ghost before = a@;
        let tmp = a[i];
        a[i] = a[m];
        a[m] = tmp;
        proof {
            let s = before.subrange(0, n as int);
            let s1 = s.update(i as int, s[m as int]);
            let s2 = s1.update(m as int, s[i as int]);
            assert(a@.subrange(0, n as int) =~= s2);
            vstd::seq_lib::to_multiset_update(s, i as int, s[m as int]);
            vstd::seq_lib::to_multiset_update(s1, m as int, s[i as int]);
            if m != i {
                assert(s1[m as int] == s[m as int]);
            }
            assert(s.contains(s[i as int]));
            vstd::seq_lib::to_multiset_contains(s, s[i as int]);
            assert(s.to_multiset().count(s[i as int]) > 0);
            assert(s.to_multiset().insert(s[m as int]).remove(s[i as int]).insert(s[i as int]).count(s[m as int]) > 0);
            assert(s2.to_multiset() =~= s.to_multiset());
        }
        i += 1;
    }
    assert forall|p: int, q: int| 0 <= p < q < n implies #[trigger] lex_leq_fn()(
        a@.subrange(0, n as int)[p],
        a@.subrange(0, n as int)[q],
    ) by {}
}


/// Applies transformation `t` to every raw square.
fn transform_all(raw: &[(i8, i8)], t: usize) -> (out: [(i8, i8); 5])
    requires
        raw_ok(raw@),
        t < 8,
    ensures
        forall|k: int|
            0 <= k < raw@.len() ==> (#[trigger] out@[k].0 as int, out@[k].1 as int) == transform(
                raw@[k],
                t as int,
            ),
        forall|k: int|
            0 <= k < raw@.len() ==> -4 <= (#[trigger] out@[k]).0 <= 4 && -4 <= out@[k].1 <= 4,
{
    let n = raw.len();
    let flip = t >= 4;
    let rot = t % 4;
    let mut transformed = [(0i8, 0i8); 5];
    let mut i: usize = 0;
    while i < n
        invariant
            i <= n,
            n == raw@.len(),
            raw_ok(raw@),
            flip == (t >= 4),
            rot == t % 4,
            t < 8,
            transformed@.len() == 5,
            forall|k: int|
                0 <= k < i ==> (#[trigger] transformed@[k].0 as int, transformed@[k].1 as int)
                    == transform(raw@[k], t as int),
            forall|k: int|
                0 <= k < i ==> -4 <= (#[trigger] transformed@[k]).0 <= 4 && -4
                    <= transformed@[k].1 <= 4,
        decreases n - i,
    {
        let (r, c) = raw[i];
        let (mut tr, mut tc) = if flip {
            (r, -c)
        } else {
            (r, c)
        };
        let ghost start: (int, int) = (tr as int, tc as int);
        let mut j: usize = 0;
        while j < rot
            invariant
                j <= rot < 4,
                (tr as int, tc as int) == rot_k(start, j as nat),
                -4 <= tr <= 4,
                -4 <= tc <= 4,
            decreases rot - j,
        {
            let nr = tc;
            let nc = -tr;
            tr = nr;
            tc = nc;
            j += 1;
        }
        transformed[i] = (tr, tc);
        i += 1;
    }
    transformed
}

/// The canonical shape of transformation `t` of `raw`.
fn canonical_shape(raw: &[(i8, i8)], t: usize) -> (shape: PolyominoShape)
    requires
        raw_ok(raw@),
        t < 8,
    ensures
        shape.wf(),
        shape.num_squares == raw@.len(),
        shape.cells() == canon(raw@, t as int),
{
    broadcast use vstd::seq_lib::group_to_multiset_ensures;

    let n = raw.len();
    let transformed = transform_all(raw, t);
    let ghost ts = tseq(raw@, t as int);
    assert(forall|k: int| 0 <= k < n ==> #[trigger] ts[k] == (transformed@[k].0 as int, transformed@[k].1 as int));

    let mut min_r = transformed[0].0;
    let mut min_c = transformed[0].1;
    let mut i: usize = 1;
    while i < n
        invariant
            1 <= i <= n,
            n == raw@.len(),
            n <= 5,
            ts == tseq(raw@, t as int),
            ts.len() == n,
            forall|k: int| 0 <= k < n ==> #[trigger] ts[k] == (transformed@[k].0 as int, transformed@[k].1 as int),
            min_r as int == min_row(ts.subrange(0, i as int)),
            min_c as int == min_col(ts.subrange(0, i as int)),
        decreases n - i,
    {
        assert(ts.subrange(0, i as int + 1).drop_last() =~= ts.subrange(0, i as int));
        if transformed[i].0 < min_r {
            min_r = transformed[i].0;
        }
        if transformed[i].1 < min_c {
            min_c = transformed[i].1;
        }
        i += 1;
    }
    assert(ts.subrange(0, n as int) =~= ts);
    proof {
        lemma_min_row(ts);
        lemma_min_col(ts);
    }
    let ghost nm = norm(raw@, t as int);

    let mut normalized = [(0u8, 0u8); 5];
    let mut i: usize = 0;
    while i < n
        invariant
            i <= n <= 5,
            n == raw@.len(),
            ts == tseq(raw@, t as int),
            nm == norm(raw@, t as int),
            ts.len() == n,
            normalized@.len() == 5,
            forall|k: int| 0 <= k < n ==> #[trigger] ts[k] == (transformed@[k].0 as int, transformed@[k].1 as int),
            forall|k: int| 0 <= k < n ==> -4 <= (#[trigger] transformed@[k]).0 <= 4 && -4 <= transformed@[k].1 <= 4,
            min_r as int == min_row(ts),
            min_c as int == min_col(ts),
            forall|k: int| 0 <= k < n ==> min_row(ts) <= #[trigger] ts[k].0,
            forall|k: int| 0 <= k < n ==> min_col(ts) <= #[trigger] ts[k].1,
            exists|k: int| 0 <= k < n && #[trigger] ts[k].0 == min_row(ts),
            exists|k: int| 0 <= k < n && #[trigger] ts[k].1 == min_col(ts),
            forall|k: int| 0 <= k < i ==> #[trigger] normalized@[k] == nm[k],
            forall|k: int| i <= k < 5 ==> #[trigger] normalized@[k] == (0u8, 0u8),
        decreases n - i,
    {
        let r = transformed[i].0 - min_r;
        let c = transformed[i].1 - min_c;
        normalized[i] = (r as u8, c as u8);
        i += 1;
    }
    assert(normalized@.subrange(0, n as int) =~= nm);
    assert(forall|k: int| 0 <= k < n ==> (#[trigger] nm[k]).0 <= 8 && nm[k].1 <= 8);
    let ghost k0 = choose|k: int| 0 <= k < n && #[trigger] ts[k].0 == min_row(ts);
    let ghost k1 = choose|k: int| 0 <= k < n && #[trigger] ts[k].1 == min_col(ts);
    assert(nm[k0].0 == 0);
    assert(nm[k1].1 == 0);

    let ghost before_sort = normalized@;
    sort_prefix(&mut normalized, n);
    let ghost cells = normalized@.subrange(0, n as int);
    proof {
        nm.lemma_sort_by_ensures(lex_leq_fn());
        lemma_lex_total();
        vstd::seq_lib::lemma_sorted_unique(cells, nm.sort_by(lex_leq_fn()), lex_leq_fn());
        assert(cells =~= canon(raw@, t as int));
        // every sorted cell comes from the normalized squares
        assert forall|k: int| 0 <= k < n implies (#[trigger] cells[k]).0 <= 8 && cells[k].1 <= 8 by {
            assert(cells.contains(cells[k]));
            vstd::seq_lib::to_multiset_contains(cells, cells[k]);
            vstd::seq_lib::to_multiset_contains(nm, cells[k]);
        }
        assert(nm.contains(nm[k0]));
        vstd::seq_lib::to_multiset_contains(nm, nm[k0]);
        vstd::seq_lib::to_multiset_contains(cells, nm[k0]);
        assert(nm.contains(nm[k1]));
        vstd::seq_lib::to_multiset_contains(nm, nm[k1]);
        vstd::seq_lib::to_multiset_contains(cells, nm[k1]);
    }
    assert forall|k: int| 0 <= k < n implies (#[trigger] normalized@[k]).0 <= 8 && normalized@[k].1 <= 8 by {
        assert(cells[k] == normalized@[k]);
    }

    let mut max_r: u8 = normalized[0].0;
    let mut max_c: u8 = normalized[0].1;
    let mut i: usize = 1;
    while i < n
        invariant
            1 <= i <= n <= 5,
            normalized@.len() == 5,
            forall|k: int| 0 <= k < n ==> (#[trigger] normalized@[k]).0 <= 8 && normalized@[k].1 <= 8,
            forall|k: int| 0 <= k < i ==> (#[trigger] normalized@[k]).0 <= max_r && normalized@[k].1 <= max_c,
            exists|k: int| 0 <= k < i && (#[trigger] normalized@[k]).0 == max_r,
            exists|k: int| 0 <= k < i && (#[trigger] normalized@[k]).1 == max_c,
        decreases n - i,
    {
        if normalized[i].0 > max_r {
            max_r = normalized[i].0;
        }
        if normalized[i].1 > max_c {
            max_c = normalized[i].1;
        }
        i += 1;
    }
    let shape = PolyominoShape {
        num_squares: n as u8,
        height: max_r + 1,
        width: max_c + 1,
        squares: normalized,
    };
    assert(shape.cells() =~= cells);
    shape
}


/// Field-by-field equality of two shapes.
fn shape_eq(a: &PolyominoShape, b: &PolyominoShape) -> (r: bool)
    ensures
        r == (*a == *b),
{
    broadcast use vstd::array::group_array_axioms;

    if a.num_squares != b.num_squares || a.height != b.height || a.width != b.width {
        return false;
    }
    let mut k: usize = 0;
    while k < 5
        invariant
            k <= 5,
            forall|j: int| 0 <= j < k ==> a.squares@[j] == b.squares@[j],
        decreases 5 - k,
    {
        if a.squares[k].0 != b.squares[k].0 || a.squares[k].1 != b.squares[k].1 {
            return false;
        }
        k += 1;
    }
    assert(a.squares =~= b.squares);
    true
}

/// Well-formed shapes with the same number of squares are equal exactly
/// when they cover the same squares in the same order.
proof fn lemma_shape_eq_cells(a: PolyominoShape, b: PolyominoShape)
    requires
        a.wf(),
        b.wf(),
        a.num_squares == b.num_squares,
    ensures
        (a == b) <==> (a.cells() == b.cells()),
{
    broadcast use vstd::array::group_array_axioms;

    if a.cells() == b.cells() {
        let n = a.num_squares as int;
        assert forall|i: int| 0 <= i < 5 implies a.squares[i] == b.squares[i] by {
            if i < n {
                assert(a.cells()[i] == b.cells()[i]);
            }
        }
        assert(a.squares =~= b.squares);
        let i = choose|i: int| 0 <= i < a.num_squares && (#[trigger] a.squares@[i]).0 + 1 == a.height;
        let j = choose|i: int| 0 <= i < b.num_squares && (#[trigger] b.squares@[i]).0 + 1 == b.height;
        assert(a.squares@[j].0 < a.height);
        assert(b.squares@[i].0 < b.height);
        let i2 = choose|i: int| 0 <= i < a.num_squares && (#[trigger] a.squares@[i]).1 + 1 == a.width;
        let j2 = choose|i: int| 0 <= i < b.num_squares && (#[trigger] b.squares@[i]).1 + 1 == b.width;
        assert(a.squares@[j2].1 < a.width);
        assert(b.squares@[i2].1 < b.width);
    }
}

/// Computes the distinct canonical orientations of `raw` over the 8
/// rotations and reflections, in order of first appearance.
fn generate_orientations(raw: &[(i8, i8)]) -> (v: Vec<PolyominoShape>)
    requires
        raw_ok(raw@),
    ensures
        v@.len() == orient_fold(raw@, 8).len(),
        forall|i: int|
            0 <= i < v@.len() ==> (#[trigger] v@[i]).wf() && v@[i].num_squares == raw@.len()
                && v@[i].cells() == orient_fold(raw@, 8)[i],
{
    let mut unique_shapes: Vec<PolyominoShape> = Vec::new();
    let mut t: usize = 0;
    while t < 8
        invariant
            t <= 8,
            raw_ok(raw@),
            unique_shapes@.len() == orient_fold(raw@, t as nat).len(),
            forall|i: int|
                0 <= i < unique_shapes@.len() ==> (#[trigger] unique_shapes@[i]).wf()
                    && unique_shapes@[i].num_squares == raw@.len()
                    && unique_shapes@[i].cells() == orient_fold(raw@, t as nat)[i],
        decreases 8 - t,
    {
        let shape = canonical_shape(raw, t);
        let ghost prev = orient_fold(raw@, t as nat);
        let mut found = false;
        let mut k: usize = 0;
        while k < unique_shapes.len()
            invariant
                k <= unique_shapes@.len(),
                found == exists|j: int| 0 <= j < k && unique_shapes@[j] == shape,
            decreases unique_shapes@.len() - k,
        {
            if shape_eq(&unique_shapes[k], &shape) {
                found = true;
            }
            k += 1;
        }
        proof {
            assert(orient_fold(raw@, (t + 1) as nat) == (if prev.contains(canon(raw@, t as int)) {
                prev
            } else {
                prev.push(canon(raw@, t as int))
            }));
            if found {
                let j = choose|j: int| 0 <= j < k && unique_shapes@[j] == shape;
                assert(prev[j] == canon(raw@, t as int));
            }
            if prev.contains(canon(raw@, t as int)) {
                let j = choose|j: int| 0 <= j < prev.len() && prev[j] == canon(raw@, t as int);
                lemma_shape_eq_cells(unique_shapes@[j], shape);
                assert(unique_shapes@[j] == shape);
            }
        }
        if !found {
            unique_shapes.push(shape);
        }
        t += 1;
    }
    unique_shapes
}

/// Canonical orientations of every piece, indexed by piece id.
pub struct PieceRegistry {
    orientations: Vec<Vec<PolyominoShape>>,
}

impl PieceRegistry {
    /// The table holds, for each piece, exactly its canonical orientations.
    pub closed spec fn wf(&self) -> bool {
        &&& self.orientations@.len() == NUM_PIECES
        &&& forall|p: int| 0 <= p < NUM_PIECES ==> orientations_match(#[trigger] self.orientations@[p]@, p)
    }

    /// The orientations listed for piece `p`.
    pub closed spec fn shapes_of(&self, p: int) -> Seq<PolyominoShape> {
        self.orientations@[p]@
    }

    pub proof fn lemma_wf(&self, p: int)
        requires
            self.wf(),
            0 <= p < NUM_PIECES,
        ensures
            orientations_match(self.shapes_of(p), p),
    {
    }

    fn new() -> (r: Self)
        ensures
            r.wf(),
    {
        let mut orientations: Vec<Vec<PolyominoShape>> = Vec::new();
        let mut i: usize = 0;
        while i < NUM_PIECES
            invariant
                i <= NUM_PIECES,
                orientations@.len() == i,
                forall|p: int| 0 <= p < i ==> orientations_match(#[trigger] orientations@[p]@, p),
            decreases NUM_PIECES - i,
        {
            orientations.push(orientations_for(i));
            i += 1;
        }
        PieceRegistry { orientations }
    }

    /// Returns the canonical orientations of `piece_id` (0 to 20).
    pub fn orientations_of(&self, piece_id: usize) -> (s: &[PolyominoShape])
        requires
            self.wf(),
            piece_id < NUM_PIECES,
        ensures
            s@ == self.shapes_of(piece_id as int),
            orientations_match(s@, piece_id as int),
    {
        self.orientations[piece_id].as_slice()
    }
}

/// `shapes` lists, in order, the canonical orientations of piece `p`.
pub open spec fn orientations_match(shapes: Seq<PolyominoShape>, p: int) -> bool {
    &&& shapes.len() == piece_orientations(p).len()
    &&& forall|i: int|
        0 <= i < shapes.len() ==> (#[trigger] shapes[i]).wf() && shapes[i].num_squares
            == spec_piece_size(p) && shapes[i].cells() == piece_orientations(p)[i]
}

/// Computes the canonical orientations of piece `piece_id` (0 to 20).
pub fn orientations_for(piece_id: usize) -> (v: Vec<PolyominoShape>)
    requires
        piece_id < NUM_PIECES,
    ensures
        orientations_match(v@, piece_id as int),
{
    proof {
        lemma_raw_piece_ok(piece_id as int);
    }
    let raw = raw_piece_exec(piece_id);
    generate_orientations(raw.as_slice())
}

/// Builds the table of canonical orientations of all 21 pieces.
pub fn registry() -> (r: PieceRegistry)
    ensures
        r.wf(),
{
    PieceRegistry::new()
}

/// The total size of the pieces below `k`.
pub open spec fn size_sum(k: int) -> int
    decreases k,
{
    if k <= 0 {
        0
    } else {
        size_sum(k - 1) + spec_piece_size(k - 1)
    }
}

/// A player's 21 pieces cover 89 squares in all, and every orientation that
/// the registry lists for piece `p` (there is at least one) has as many
/// squares as the piece.
pub proof fn law_piece_sizes(reg: PieceRegistry, p: int)
    requires
        reg.wf(),
        0 <= p < NUM_PIECES,
    ensures
        size_sum(NUM_PIECES as int) == TOTAL_SQUARES_PER_PLAYER,
        reg.shapes_of(p).len() >= 1,
        forall|i: int|
            0 <= i < reg.shapes_of(p).len() ==> (#[trigger] reg.shapes_of(p)[i]).num_squares == spec_piece_size(p)
                && reg.shapes_of(p)[i].cells().len() == spec_piece_size(p),
{
    reveal_with_fuel(size_sum, 22);
    reg.lemma_wf(p);
    lemma_orientation_count(p);
}

/// Every piece has between 1 and 8 orientations.
pub proof fn lemma_orientation_count(p: int)
    requires
        0 <= p < NUM_PIECES,
    ensures
        1 <= piece_orientations(p).len() <= 8,
{
    lemma_orient_fold_len(raw_piece(p), 8);
    assert(orient_fold(raw_piece(p), 0).len() == 0);
    assert(orient_fold(raw_piece(p), 1).len() == 1);
    lemma_orient_fold_monotone(raw_piece(p), 1, 8);
}

proof fn lemma_orient_fold_monotone(raw: Seq<(i8, i8)>, a: nat, b: nat)
    requires
        a <= b,
    ensures
        orient_fold(raw, a).len() <= orient_fold(raw, b).len(),
    decreases b - a,
{
    if a < b {
        lemma_orient_fold_monotone(raw, a, (b - 1) as nat);
    }
}

} // verus!
