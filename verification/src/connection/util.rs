//! A rectangular grid of bits, stored row by row in a `FixedBitSet`.
use fixedbitset::FixedBitSet;
use vstd::prelude::*;

verus! {

#[verifier::external_type_specification]
#[verifier::external_body]
pub struct ExFixedBitSet(FixedBitSet);

/// The bits of a `FixedBitSet`, one per index below its length.
pub uninterp spec fn bit_contents(b: FixedBitSet) -> Seq<bool>;

/// `FixedBitSet::with_capacity`: `bits` bits, all clear.
#[verifier::external_body]
fn bits_with_capacity(bits: usize) -> (b: FixedBitSet)
    ensures
        bit_contents(b) == Seq::new(bits as nat, |i: int| false),
{
    FixedBitSet::with_capacity(bits)
}

/// `FixedBitSet::set`: bit `bit` becomes `enabled`; the call panics past the
/// length, which the precondition rules out.
#[verifier::external_body]
fn bits_set(b: &mut FixedBitSet, bit: usize, enabled: bool)
    requires
        bit < bit_contents(*old(b)).len(),
    ensures
        bit_contents(*final(b)) == bit_contents(*old(b)).update(bit as int, enabled),
{
    b.set(bit, enabled)
}

/// `FixedBitSet::contains`: whether `bit` is below the length and enabled.
#[verifier::external_body]
fn bits_contains(b: &FixedBitSet, bit: usize) -> (r: bool)
    ensures
        r == (bit < bit_contents(*b).len() && bit_contents(*b)[bit as int]),
{
    b.contains(bit)
}

/// `FixedBitSet::clone` copies the blocks and the length: the same bits.
pub assume_specification[ <FixedBitSet as Clone>::clone ](b: &FixedBitSet) -> (c: FixedBitSet)
    ensures
        bit_contents(c) == bit_contents(*b),
;

/// The bit at flat index `i`: clear past the end.
pub open spec fn bit_at(bits: Seq<bool>, i: int) -> bool {
    0 <= i < bits.len() && bits[i]
}

/// Whether `(r, c)` passes the bounds test of a ray on an `h`-by-`w` grid:
/// rows `0..=h` and columns `0..=w`.
pub open spec fn ray_in_bounds(h: int, w: int, r: int, c: int) -> bool {
    0 <= r <= h && 0 <= c <= w
}

/// The number of consecutive set bits met by stepping from `(r, c)` by
/// `(dr, dc)`, at most `bound` steps; each step reads the flat index
/// `row * w + col`.
pub open spec fn ray_len(bits: Seq<bool>, h: int, w: int, r: int, c: int, dr: int, dc: int, bound: nat) -> nat
    decreases bound,
{
    if bound == 0 {
        0
    } else if ray_in_bounds(h, w, r + dr, c + dc) && bit_at(bits, (r + dr) * w + (c + dc)) {
        1 + ray_len(bits, h, w, r + dr, c + dc, dr, dc, (bound - 1) as nat)
    } else {
        0
    }
}

/// Every step that a ray from `(r, c)` takes (stepping by `(dr, dc)`, at
/// most `bound` steps, on as long as it meets set bits in bounds) lands on
/// coordinates that fit in an `i32`.
pub open spec fn ray_fits(bits: Seq<bool>, h: int, w: int, r: int, c: int, dr: int, dc: int, bound: nat) -> bool
    decreases bound,
{
    bound == 0 || {
        &&& i32::MIN <= r + dr <= i32::MAX
        &&& i32::MIN <= c + dc <= i32::MAX
        &&& ray_in_bounds(h, w, r + dr, c + dc) && bit_at(bits, (r + dr) * w + (c + dc)) ==> ray_fits(
            bits,
            h,
            w,
            r + dr,
            c + dc,
            dr,
            dc,
            (bound - 1) as nat,
        )
    }
}

/// A ray of unit steps from a start at least `bound` away from the ends of
/// the `i32` range stays within it.
pub proof fn lemma_unit_ray_fits(bits: Seq<bool>, h: int, w: int, r: int, c: int, dr: int, dc: int, bound: nat)
    requires
        -1 <= dr <= 1,
        -1 <= dc <= 1,
        i32::MIN + bound <= r <= i32::MAX - bound,
        i32::MIN + bound <= c <= i32::MAX - bound,
    ensures
        ray_fits(bits, h, w, r, c, dr, dc, bound),
    decreases bound,
{
    if bound > 0 {
        lemma_unit_ray_fits(bits, h, w, r + dr, c + dc, dr, dc, (bound - 1) as nat);
    }
}

/// An `H`-by-`W` grid of bits, row-major.
pub struct RectBitSet<const H: usize, const W: usize> {
    internal: FixedBitSet,
}

impl<const H: usize, const W: usize> Clone for RectBitSet<H, W> {
    fn clone(&self) -> (c: Self)
        ensures
            c@ == self@,
    {
        RectBitSet { internal: self.internal.clone() }
    }
}

impl<const H: usize, const W: usize> View for RectBitSet<H, W> {
    type V = Seq<bool>;

    closed spec fn view(&self) -> Seq<bool> {
        bit_contents(self.internal)
    }
}

impl<const H: usize, const W: usize> RectBitSet<H, W> {
    /// The grid holds one bit per cell.
    pub open spec fn wf(&self) -> bool {
        &&& self@.len() == H * W
        &&& H * W <= usize::MAX
    }

    /// An all-clear grid.
    pub fn new() -> (g: Self)
        requires
            H * W <= usize::MAX,
        ensures
            g@ == Seq::new((H * W) as nat, |i: int| false),
            g.wf(),
    {
        RectBitSet { internal: bits_with_capacity(H * W) }
    }

    fn flatten(&self, index: (usize, usize)) -> (i: usize)
        requires
            index.0 * W + index.1 <= usize::MAX,
        ensures
            i == index.0 * W + index.1,
    {
        proof {
            assert(index.0 * W <= index.0 * W + index.1);
        }
        index.0 * W + index.1
    }

    fn flatten_i(&self, index: (i32, i32)) -> (i: usize)
        requires
            index.0 >= 0,
            index.1 >= 0,
            index.0 * W + index.1 <= usize::MAX,
        ensures
            i == index.0 * W + index.1,
    {
        let r = index.0 as usize;
        let c = index.1 as usize;
        proof {
            assert(r * W <= r * W + c);
        }
        r * W + c
    }

    /// How many set bits follow `start` in direction `delta`, at most
    /// `bound`: a step stops at a row outside `0..=H`, a column outside
    /// `0..=W`, or a clear bit.
    pub fn ray_count(&self, start: (i32, i32), delta: (i32, i32), bound: u8) -> (n: u8)
        requires
            H <= i32::MAX,
            W <= i32::MAX,
            (H + 1) * W <= usize::MAX,
            ray_fits(self@, H as int, W as int, start.0 as int, start.1 as int, delta.0 as int, delta.1 as int, bound as nat),
            bound < 255,
        ensures
            n == ray_len(self@, H as int, W as int, start.0 as int, start.1 as int, delta.0 as int, delta.1 as int, bound as nat),
            n <= bound,
    {
        let mut pos = start;
        let mut count: u8 = 1;
        let ghost h = H as int;
        let ghost w = W as int;
        while count <= bound
            invariant
                h == H,
                w == W,
                H <= i32::MAX,
                W <= i32::MAX,
                (H + 1) * W <= usize::MAX,
                1 <= count,
                count <= bound as int + 1,
                bound < 255,
                ray_fits(self@, h, w, pos.0 as int, pos.1 as int, delta.0 as int, delta.1 as int, (bound + 1 - count) as nat),
                ray_len(self@, h, w, start.0 as int, start.1 as int, delta.0 as int, delta.1 as int, bound as nat)
                    == (count - 1) + ray_len(
                    self@,
                    h,
                    w,
                    pos.0 as int,
                    pos.1 as int,
                    delta.0 as int,
                    delta.1 as int,
                    (bound + 1 - count) as nat,
                ),
            decreases bound + 1 - count,
        {
            let ghost p0 = pos;
            let ghost rem = (bound + 1 - count) as nat;
            pos = (pos.0 + delta.0, pos.1 + delta.1);
            proof {
                let hh: usize = H;
                let ww: usize = W;
                assert(hh as i32 == hh) by (bit_vector)
                    requires
                        hh <= 0x7fff_ffff,
                ;
                assert(ww as i32 == ww) by (bit_vector)
                    requires
                        ww <= 0x7fff_ffff,
                ;
            }
            assert(ray_len(self@, h, w, p0.0 as int, p0.1 as int, delta.0 as int, delta.1 as int, rem) == if ray_in_bounds(
                h,
                w,
                pos.0 as int,
                pos.1 as int,
            ) && bit_at(self@, pos.0 * w + pos.1) {
                1 + ray_len(self@, h, w, pos.0 as int, pos.1 as int, delta.0 as int, delta.1 as int, (rem - 1) as nat)
            } else {
                0
            });
            if pos.0 < 0 || pos.0 > H as i32 || pos.1 < 0 || pos.1 > W as i32 {
                return count - 1;
            }
            proof {
                assert(pos.0 * w + pos.1 <= (h + 1) * w) by (nonlinear_arith)
                    requires
                        0 <= pos.0 <= h,
                        0 <= pos.1 <= w,
                ;
            }
            let flat = self.flatten_i(pos);
            if !bits_contains(&self.internal, flat) {
                return count - 1;
            }
            count = count + 1;
        }
        bound
    }

    /// Sets the bit at `(row, col)`; the index must fall inside the grid.
    pub fn set(&mut self, index: (usize, usize), value: bool)
        requires
            old(self).wf(),
            index.0 * W + index.1 < H * W,
        ensures
            final(self)@ == old(self)@.update(index.0 * W + index.1, value),
            final(self).wf(),
    {
        let i = self.flatten(index);
        bits_set(&mut self.internal, i, value);
    }

    /// The bit at `(row, col)`: clear past the end of the grid.
    pub fn get(&self, index: (usize, usize)) -> (b: bool)
        requires
            index.0 * W + index.1 <= usize::MAX,
        ensures
            b == bit_at(self@, index.0 * W + index.1),
    {
        let i = self.flatten(index);
        bits_contains(&self.internal, i)
    }
}

} // verus!
