//! Scanning only the lines through the chip just placed finds what a scan of
//! the whole board finds, whenever every line the team owns runs through
//! that chip: lines the team does not own are passed over either way, and
//! both scans meet the owned lines in the same order (by direction, then by
//! first cell).
use crate::sequence::board::{
    block_len, block_lines, candidate_lines, check_line, detect_fold, direction, line_cells, line_owned,
    line_params, on_board,
};
use vstd::prelude::*;

verus! {

/// The lines of `lines` that `team` owns on `board`, in order.
pub open spec fn owned_lines(board: Seq<Option<u8>>, team: u8, lines: Seq<Seq<(int, int)>>) -> Seq<
    Seq<(int, int)>,
>
    decreases lines.len(),
{
    if lines.len() == 0 {
        Seq::empty()
    } else {
        let rest = owned_lines(board, team, lines.drop_last());
        if line_owned(board, team, lines.last()) {
            rest.push(lines.last())
        } else {
            rest
        }
    }
}

/// Lines the team does not own change nothing: scanning `lines` does what
/// scanning its owned lines does.
proof fn lemma_fold_owned(
    board: Seq<Option<u8>>,
    team: u8,
    lines: Seq<Seq<(int, int)>>,
    locked: Seq<bool>,
    seqs: Seq<(u8, Seq<u8>)>,
)
    ensures
        detect_fold(board, team, lines, locked, seqs) == detect_fold(
            board,
            team,
            owned_lines(board, team, lines),
            locked,
            seqs,
        ),
    decreases lines.len(),
{
    if lines.len() > 0 {
        lemma_fold_owned(board, team, lines.drop_last(), locked, seqs);
        let rest = owned_lines(board, team, lines.drop_last());
        if line_owned(board, team, lines.last()) {
            assert(rest.push(lines.last()).drop_last() == rest);
        }
    }
}

/// The direction of a line: 0 across, 1 down, 2 down-right, 3 down-left.
pub open spec fn dir_index(l: Seq<(int, int)>) -> int {
    let d = (l[1].0 - l[0].0, l[1].1 - l[0].1);
    if d == (0int, 1int) {
        0
    } else if d == (1int, 0int) {
        1
    } else if d == (1int, 1int) {
        2
    } else {
        3
    }
}

/// Scan order: by direction, then by the row and the column of the first cell.
pub open spec fn line_before(a: Seq<(int, int)>, b: Seq<(int, int)>) -> bool {
    ||| dir_index(a) < dir_index(b)
    ||| dir_index(a) == dir_index(b) && a[0].0 < b[0].0
    ||| dir_index(a) == dir_index(b) && a[0].0 == b[0].0 && a[0].1 < b[0].1
}

/// `s` is in strictly increasing scan order.
pub open spec fn sorted_lines(s: Seq<Seq<(int, int)>>) -> bool {
    forall|i: int, j: int| 0 <= i < j < s.len() ==> line_before(#[trigger] s[i], #[trigger] s[j])
}

/// The line of five cells from `(sr, sc)` in direction `direction(d)`.
proof fn lemma_line_key(sr: int, sc: int, d: int)
    requires
        0 <= d < 4,
    ensures
        ({
            let l = line_cells(sr, sc, direction(d).0, direction(d).1);
            &&& l.len() == 5
            &&& l[0] == (sr, sc)
            &&& dir_index(l) == d
        }),
{
    let l = line_cells(sr, sc, direction(d).0, direction(d).1);
    assert(l[0] == (sr, sc));
    assert(l[1] == (sr + direction(d).0, sc + direction(d).1));
}

/// Quotient and remainder order numbers lexicographically.
proof fn lemma_divmod_order(t1: int, t2: int, w: int)
    requires
        0 <= t1 < t2,
        w > 0,
    ensures
        t1 / w < t2 / w || (t1 / w == t2 / w && t1 % w < t2 % w),
{
    vstd::arithmetic::div_mod::lemma_fundamental_div_mod(t1, w);
    vstd::arithmetic::div_mod::lemma_fundamental_div_mod(t2, w);
    vstd::arithmetic::div_mod::lemma_mod_bound(t1, w);
    vstd::arithmetic::div_mod::lemma_mod_bound(t2, w);
    if t1 / w > t2 / w {
        assert(w * (t1 / w) >= w * (t2 / w) + w) by (nonlinear_arith)
            requires
                t1 / w > t2 / w,
                w > 0,
        ;
    }
    if t1 / w == t2 / w {
        assert(w * (t1 / w) == w * (t2 / w));
    }
}

/// Line `t` of block `kind` of the whole-board scan, by its start.
proof fn lemma_block_line(kind: int, t: int)
    requires
        0 <= kind < 4,
        0 <= t < block_len(kind),
    ensures
        ({
            let p = line_params(kind, 0, 0, t);
            &&& block_lines(kind, 0, 0)[t] == line_cells(p.0, p.1, direction(kind).0, direction(kind).1)
            &&& dir_index(block_lines(kind, 0, 0)[t]) == kind
            &&& block_lines(kind, 0, 0)[t][0] == (p.0, p.1)
        }),
{
    let p = line_params(kind, 0, 0, t);
    assert((p.2, p.3) == direction(kind));
    lemma_line_key(p.0, p.1, kind);
}

/// Each block of the whole-board scan is in scan order.
proof fn lemma_block_sorted(kind: int)
    requires
        0 <= kind < 4,
    ensures
        sorted_lines(block_lines(kind, 0, 0)),
        block_lines(kind, 0, 0).len() == block_len(kind),
{
    let b = block_lines(kind, 0, 0);
    assert forall|i: int, j: int| 0 <= i < j < b.len() implies line_before(#[trigger] b[i], #[trigger] b[j]) by {
        lemma_block_line(kind, i);
        lemma_block_line(kind, j);
        let w = if kind == 1 { 10int } else { 6int };
        lemma_divmod_order(i, j, w);
    }
}

/// Joining two sorted lists whose every line of the first comes before every
/// line of the second gives a sorted list.
proof fn lemma_sorted_concat(a: Seq<Seq<(int, int)>>, b: Seq<Seq<(int, int)>>)
    requires
        sorted_lines(a),
        sorted_lines(b),
        forall|i: int, j: int| 0 <= i < a.len() && 0 <= j < b.len() ==> line_before(#[trigger] a[i], #[trigger] b[j]),
    ensures
        sorted_lines(a + b),
{
    let c = a + b;
    assert forall|i: int, j: int| 0 <= i < j < c.len() implies line_before(#[trigger] c[i], #[trigger] c[j]) by {
        if j < a.len() {
            assert(c[i] == a[i] && c[j] == a[j]);
        } else if i >= a.len() {
            assert(c[i] == b[i - a.len()] && c[j] == b[j - a.len()]);
        } else {
            assert(c[i] == a[i] && c[j] == b[j - a.len()]);
        }
    }
}

/// The whole-board scan is in scan order.
proof fn lemma_full_sorted()
    ensures
        sorted_lines(candidate_lines(None)),
        candidate_lines(None).len() == 192,
{
    let b0 = block_lines(0, 0, 0);
    let b1 = block_lines(1, 0, 0);
    let b2 = block_lines(2, 0, 0);
    let b3 = block_lines(3, 0, 0);
    lemma_block_sorted(0);
    lemma_block_sorted(1);
    lemma_block_sorted(2);
    lemma_block_sorted(3);
    assert forall|i: int, j: int| 0 <= i < b0.len() && 0 <= j < b1.len() implies line_before(#[trigger] b0[i], #[trigger] b1[j]) by {
        lemma_block_line(0, i);
        lemma_block_line(1, j);
    }
    lemma_sorted_concat(b0, b1);
    let c01 = b0 + b1;
    assert forall|i: int, j: int| 0 <= i < c01.len() && 0 <= j < b2.len() implies line_before(#[trigger] c01[i], #[trigger] b2[j]) by {
        if i < 60 {
            lemma_block_line(0, i);
        } else {
            lemma_block_line(1, i - 60);
        }
        lemma_block_line(2, j);
    }
    lemma_sorted_concat(c01, b2);
    let c012 = c01 + b2;
    assert forall|i: int, j: int| 0 <= i < c012.len() && 0 <= j < b3.len() implies line_before(#[trigger] c012[i], #[trigger] b3[j]) by {
        if i < 60 {
            lemma_block_line(0, i);
        } else if i < 120 {
            lemma_block_line(1, i - 60);
        } else {
            lemma_block_line(2, i - 120);
        }
        lemma_block_line(3, j);
    }
    lemma_sorted_concat(c012, b3);
}

/// Line `t` of the scan through `(pr, pc)`.
proof fn lemma_local_line(pr: int, pc: int, t: int)
    requires
        0 <= t < 20,
    ensures
        ({
            let d = direction(t / 5);
            let k = t % 5 - 4;
            &&& block_lines(4, pr, pc)[t] == line_cells(pr + k * d.0, pc + k * d.1, d.0, d.1)
            &&& dir_index(block_lines(4, pr, pc)[t]) == t / 5
            &&& block_lines(4, pr, pc)[t][0] == (pr + k * d.0, pc + k * d.1)
        }),
{
    let d = direction(t / 5);
    let k = t % 5 - 4;
    lemma_line_key(pr + k * d.0, pc + k * d.1, t / 5);
}

/// The scan through one cell is in scan order.
proof fn lemma_local_sorted(pr: int, pc: int)
    ensures
        sorted_lines(block_lines(4, pr, pc)),
        block_lines(4, pr, pc).len() == 20,
{
    let b = block_lines(4, pr, pc);
    assert forall|i: int, j: int| 0 <= i < j < b.len() implies line_before(#[trigger] b[i], #[trigger] b[j]) by {
        lemma_local_line(pr, pc, i);
        lemma_local_line(pr, pc, j);
        lemma_divmod_order(i, j, 5);
        let d = direction(i / 5);
        if i / 5 == j / 5 {
            let ki = i % 5 - 4;
            let kj = j % 5 - 4;
            assert(ki < kj);
            let d0 = d.0;
            let d1 = d.1;
            if d0 == 1 {
                assert(ki * d0 < kj * d0) by (nonlinear_arith)
                    requires
                        d0 == 1,
                        ki < kj,
                ;
            } else {
                assert(d0 == 0 && d1 == 1);
                assert(ki * d0 == 0 && kj * d0 == 0 && ki * d1 < kj * d1) by (nonlinear_arith)
                    requires
                        d0 == 0,
                        d1 == 1,
                        ki < kj,
                ;
            }
        }
    }
}

/// The owned lines of a sorted list are sorted, and are exactly its lines
/// that the team owns.
proof fn lemma_owned_props(board: Seq<Option<u8>>, team: u8, lines: Seq<Seq<(int, int)>>)
    requires
        sorted_lines(lines),
    ensures
        sorted_lines(owned_lines(board, team, lines)),
        forall|x: Seq<(int, int)>|
            #[trigger] owned_lines(board, team, lines).contains(x) <==> (lines.contains(x) && line_owned(
                board,
                team,
                x,
            )),
    decreases lines.len(),
{
    if lines.len() > 0 {
        let init = lines.drop_last();
        let last = lines.last();
        assert(sorted_lines(init)) by {
            assert forall|i: int, j: int| 0 <= i < j < init.len() implies line_before(#[trigger] init[i], #[trigger] init[j]) by {
                assert(init[i] == lines[i] && init[j] == lines[j]);
            }
        }
        lemma_owned_props(board, team, init);
        let rest = owned_lines(board, team, init);
        let out = owned_lines(board, team, lines);
        assert forall|x: Seq<(int, int)>| lines.contains(x) <==> (init.contains(x) || x == last) by {
            if lines.contains(x) {
                let k = choose|k: int| 0 <= k < lines.len() && lines[k] == x;
                if k < init.len() {
                    assert(init[k] == x);
                }
            }
            if init.contains(x) {
                let k = choose|k: int| 0 <= k < init.len() && init[k] == x;
                assert(lines[k] == x);
            }
            if x == last {
                assert(lines[lines.len() - 1] == x);
            }
        }
        if line_owned(board, team, last) {
            assert(out == rest.push(last));
            assert forall|i: int, j: int| 0 <= i < j < out.len() implies line_before(#[trigger] out[i], #[trigger] out[j]) by {
                if j == rest.len() {
                    assert(rest.contains(out[i]));
                    assert(init.contains(out[i]));
                    let k = choose|k: int| 0 <= k < init.len() && init[k] == out[i];
                    assert(lines[k] == out[i]);
                    assert(lines[lines.len() - 1] == last);
                } else {
                    assert(out[i] == rest[i] && out[j] == rest[j]);
                }
            }
            assert forall|x: Seq<(int, int)>| #[trigger] out.contains(x) <==> (rest.contains(x) || x == last) by {
                if out.contains(x) {
                    let k = choose|k: int| 0 <= k < out.len() && out[k] == x;
                    if k < rest.len() {
                        assert(rest[k] == x);
                    }
                }
                if rest.contains(x) {
                    let k = choose|k: int| 0 <= k < rest.len() && rest[k] == x;
                    assert(out[k] == x);
                }
                if x == last {
                    assert(out[rest.len() as int] == x);
                }
            }
        }
    }
}

/// Two sorted lists with the same lines are the same list.
proof fn lemma_sorted_equal(a: Seq<Seq<(int, int)>>, b: Seq<Seq<(int, int)>>)
    requires
        sorted_lines(a),
        sorted_lines(b),
        forall|x: Seq<(int, int)>| a.contains(x) <==> b.contains(x),
    ensures
        a == b,
    decreases a.len(),
{
    if a.len() == 0 {
        if b.len() > 0 {
            assert(b.contains(b[0]));
        }
        assert(a =~= b);
    } else {
        let x = a.last();
        assert(a.contains(a[a.len() - 1]));
        assert(b.contains(x));
        let i = choose|i: int| 0 <= i < b.len() && b[i] == x;
        let y = b.last();
        assert(b.contains(b[b.len() - 1]));
        assert(a.contains(y));
        let j = choose|j: int| 0 <= j < a.len() && a[j] == y;
        if i < b.len() - 1 {
            assert(line_before(b[i], b[b.len() - 1]));
            if j < a.len() - 1 {
                assert(line_before(a[j], a[a.len() - 1]));
            }
        }
        assert(x == y);
        let a1 = a.drop_last();
        let b1 = b.drop_last();
        assert(sorted_lines(a1)) by {
            assert forall|p: int, q: int| 0 <= p < q < a1.len() implies line_before(#[trigger] a1[p], #[trigger] a1[q]) by {
                assert(a1[p] == a[p] && a1[q] == a[q]);
            }
        }
        assert(sorted_lines(b1)) by {
            assert forall|p: int, q: int| 0 <= p < q < b1.len() implies line_before(#[trigger] b1[p], #[trigger] b1[q]) by {
                assert(b1[p] == b[p] && b1[q] == b[q]);
            }
        }
        assert forall|z: Seq<(int, int)>| a1.contains(z) <==> b1.contains(z) by {
            if a1.contains(z) {
                let k = choose|k: int| 0 <= k < a1.len() && a1[k] == z;
                assert(a[k] == z);
                assert(line_before(a[k], a[a.len() - 1]));
                assert(b.contains(z));
                let m = choose|m: int| 0 <= m < b.len() && b[m] == z;
                if m == b.len() - 1 {
                    assert(z == y);
                }
                assert(b1[m] == z);
            }
            if b1.contains(z) {
                let k = choose|k: int| 0 <= k < b1.len() && b1[k] == z;
                assert(b[k] == z);
                assert(line_before(b[k], b[b.len() - 1]));
                assert(a.contains(z));
                let m = choose|m: int| 0 <= m < a.len() && a[m] == z;
                if m == a.len() - 1 {
                    assert(z == x);
                }
                assert(a1[m] == z);
            }
        }
        lemma_sorted_equal(a1, b1);
        assert(a =~= a1.push(x));
        assert(b =~= b1.push(y));
    }
}

/// Where block `kind` starts in the whole-board scan.
pub open spec fn block_start(kind: int) -> int {
    if kind == 0 {
        0
    } else if kind == 1 {
        60
    } else if kind == 2 {
        120
    } else {
        156
    }
}

/// Line `t` of the whole-board scan, by its block.
proof fn lemma_full_index(kind: int, u: int)
    requires
        0 <= kind < 4,
        0 <= u < block_len(kind),
    ensures
        candidate_lines(None)[block_start(kind) + u] == block_lines(kind, 0, 0)[u],
        0 <= block_start(kind) + u < 192,
{
    let b0 = block_lines(0, 0, 0);
    let b1 = block_lines(1, 0, 0);
    let b2 = block_lines(2, 0, 0);
    let b3 = block_lines(3, 0, 0);
    assert(candidate_lines(None) == b0 + b1 + b2 + b3);
    assert(b0.len() == 60 && b1.len() == 60 && b2.len() == 36 && b3.len() == 36);
}

/// An owned line of the scan through a cell is a line of the whole-board scan.
proof fn lemma_local_in_full(board: Seq<Option<u8>>, team: u8, pr: int, pc: int, t: int)
    requires
        0 <= t < 20,
        line_owned(board, team, block_lines(4, pr, pc)[t]),
    ensures
        candidate_lines(None).contains(block_lines(4, pr, pc)[t]),
{
    let x = block_lines(4, pr, pc)[t];
    lemma_local_line(pr, pc, t);
    let kind = t / 5;
    let d = direction(kind);
    let k = t % 5 - 4;
    let sr = pr + k * d.0;
    let sc = pc + k * d.1;
    assert(x == line_cells(sr, sc, d.0, d.1));
    assert(on_board(x[0]) && on_board(x[4]));
    assert(x[0] == (sr, sc));
    assert(x[4] == (sr + 4 * d.0, sc + 4 * d.1));
    let u = if kind == 0 {
        sr * 6 + sc
    } else if kind == 1 {
        sr * 10 + sc
    } else if kind == 2 {
        sr * 6 + sc
    } else {
        sr * 6 + (sc - 4)
    };
    if kind == 1 {
        vstd::arithmetic::div_mod::lemma_fundamental_div_mod_converse(u, 10, sr, sc);
    } else if kind == 3 {
        vstd::arithmetic::div_mod::lemma_fundamental_div_mod_converse(u, 6, sr, sc - 4);
    } else {
        vstd::arithmetic::div_mod::lemma_fundamental_div_mod_converse(u, 6, sr, sc);
    }
    assert(0 <= u < block_len(kind));
    lemma_block_line(kind, u);
    assert(block_lines(kind, 0, 0)[u] =~= x);
    lemma_full_index(kind, u);
    assert(candidate_lines(None)[block_start(kind) + u] == x);
}

/// A line of the whole-board scan through `(pr, pc)` is a line of the scan
/// through that cell.
proof fn lemma_full_in_local(pr: int, pc: int, i: int)
    requires
        0 <= i < 192,
        candidate_lines(None)[i].contains((pr, pc)),
    ensures
        block_lines(4, pr, pc).contains(candidate_lines(None)[i]),
{
    let x = candidate_lines(None)[i];
    let kind = if i < 60 {
        0int
    } else if i < 120 {
        1int
    } else if i < 156 {
        2int
    } else {
        3int
    };
    let u = i - block_start(kind);
    lemma_full_index(kind, u);
    lemma_block_line(kind, u);
    let p = line_params(kind, 0, 0, u);
    let d = direction(kind);
    assert(x == line_cells(p.0, p.1, d.0, d.1));
    let j = choose|j: int| 0 <= j < x.len() && x[j] == (pr, pc);
    assert(x[j] == (p.0 + j * d.0, p.1 + j * d.1));
    let t = kind * 5 + (4 - j);
    vstd::arithmetic::div_mod::lemma_fundamental_div_mod_converse(t, 5, kind, 4 - j);
    lemma_local_line(pr, pc, t);
    let k = t % 5 - 4;
    assert(k == -j);
    assert(pr + k * d.0 == p.0 && pc + k * d.1 == p.1) by (nonlinear_arith)
        requires
            k == -j,
            pr == p.0 + j * d.0,
            pc == p.1 + j * d.1,
    ;
    assert(block_lines(4, pr, pc)[t] =~= x);
}

/// Scanning only the lines through the chip just placed at `(pr, pc)` finds
/// what a scan of the whole board finds (the same count, locks and records),
/// whenever every line of the board that `team` owns runs through that cell.
pub proof fn law_local_scan_matches_full(
    board: Seq<Option<u8>>,
    team: u8,
    pr: u8,
    pc: u8,
    locked: Seq<bool>,
    seqs: Seq<(u8, Seq<u8>)>,
)
    requires
        forall|x: Seq<(int, int)>|
            candidate_lines(None).contains(x) && #[trigger] line_owned(board, team, x) ==> x.contains(
                (pr as int, pc as int),
            ),
    ensures
        detect_fold(board, team, candidate_lines(Some((pr, pc))), locked, seqs) == detect_fold(
            board,
            team,
            candidate_lines(None),
            locked,
            seqs,
        ),
{
    let local = candidate_lines(Some((pr, pc)));
    let full = candidate_lines(None);
    lemma_fold_owned(board, team, local, locked, seqs);
    lemma_fold_owned(board, team, full, locked, seqs);
    lemma_local_sorted(pr as int, pc as int);
    lemma_full_sorted();
    lemma_owned_props(board, team, local);
    lemma_owned_props(board, team, full);
    let ol = owned_lines(board, team, local);
    let of = owned_lines(board, team, full);
    assert forall|x: Seq<(int, int)>| ol.contains(x) <==> of.contains(x) by {
        if ol.contains(x) {
            let t = choose|t: int| 0 <= t < local.len() && local[t] == x;
            lemma_local_in_full(board, team, pr as int, pc as int, t);
        }
        if of.contains(x) {
            let i = choose|i: int| 0 <= i < full.len() && full[i] == x;
            lemma_full_in_local(pr as int, pc as int, i);
        }
    }
    lemma_sorted_equal(ol, of);
}

} // verus!
