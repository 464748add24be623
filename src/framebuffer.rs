//! Colour and depth buffers with a depth-tested write.
use vstd::prelude::*;

verus! {

/// The depth that stands for "+infinity": nothing has been drawn in the cell.
pub const FAR: i64 = 0x7fff_ffff_ffff_ffff;

/// The largest width or height a framebuffer may have, so that fixed-point
/// screen coordinates stay within machine integers.
pub const MAX_SIDE: usize = 32768;

/// The cells after a depth-tested write of `color` at `depth` into `(x, y)`:
/// out-of-bounds writes and writes that are not strictly nearer change nothing.
pub open spec fn write_cells(
    width: nat,
    height: nat,
    colors: Seq<u32>,
    depths: Seq<i64>,
    x: int,
    y: int,
    color: u32,
    depth: i64,
) -> (Seq<u32>, Seq<i64>) {
    let i = (y * width + x) as int;
    if 0 <= x < width && 0 <= y < height && depth < depths[i] {
        (colors.update(i, color), depths.update(i, depth))
    } else {
        (colors, depths)
    }
}

/// A colour buffer and a depth buffer of `width * height` cells, row by row.
pub struct Framebuffer {
    pub width: usize,
    pub height: usize,
    pub buffer: Vec<u32>,
    pub zbuffer: Vec<i64>,
}

/// A cell's row-major index lies inside the buffers.
pub proof fn lemma_cell_index(width: int, height: int, x: int, y: int)
    requires
        0 <= width <= MAX_SIDE,
        0 <= height <= MAX_SIDE,
        0 <= x < width,
        0 <= y < height,
    ensures
        0 <= y * width + x < width * height,
        width * height <= MAX_SIDE * MAX_SIDE,
{
    assert(0 <= y * width + x < width * height) by (nonlinear_arith)
        requires
            0 <= x < width,
            0 <= y < height,
    ;
    vstd::arithmetic::mul::lemma_mul_upper_bound(width, MAX_SIDE as int, height, MAX_SIDE as int);
}

/// The index `i` and the cell `(x, y)` name the same cell of a `width`-wide buffer.
pub proof fn lemma_cell_of_index(width: int, height: int, x: int, y: int, i: int)
    requires
        0 <= x < width,
        0 <= y < height,
        0 <= i < width * height,
    ensures
        0 <= i % width < width,
        0 <= i / width < height,
        (i == y * width + x) <==> (i % width == x && i / width == y),
{
    vstd::arithmetic::div_mod::lemma_fundamental_div_mod(i, width);
    vstd::arithmetic::div_mod::lemma_fundamental_div_mod_converse(y * width + x, width, y, x);
    let q = i / width;
    assert(width * q == q * width) by (nonlinear_arith);
    assert(0 <= q < height) by (nonlinear_arith)
        requires
            i == width * q + i % width,
            0 <= i % width < width,
            0 <= i < width * height,
    ;
}

/// The cells after a sequence of depth-tested writes `(x, y, color, depth)`,
/// applied in order.
pub open spec fn apply_writes(
    width: nat,
    height: nat,
    colors: Seq<u32>,
    depths: Seq<i64>,
    writes: Seq<(usize, usize, u32, i64)>,
) -> (Seq<u32>, Seq<i64>)
    decreases writes.len(),
{
    if writes.len() == 0 {
        (colors, depths)
    } else {
        let before = apply_writes(width, height, colors, depths, writes.drop_last());
        let w = writes.last();
        write_cells(width, height, before.0, before.1, w.0 as int, w.1 as int, w.2, w.3)
    }
}

/// After any sequence of depth-tested writes, each cell's depth is at most its
/// depth before and at most every depth written to it; and the cell either is
/// unchanged, or holds the colour and depth of one write made to it.
pub proof fn lemma_depth_test_keeps_nearest(
    width: nat,
    height: nat,
    colors: Seq<u32>,
    depths: Seq<i64>,
    writes: Seq<(usize, usize, u32, i64)>,
    x: nat,
    y: nat,
)
    requires
        width <= MAX_SIDE,
        height <= MAX_SIDE,
        colors.len() == width * height,
        depths.len() == width * height,
        x < width,
        y < height,
    ensures
        ({
            let after = apply_writes(width, height, colors, depths, writes);
            let i = (y * width + x) as int;
            &&& after.0.len() == width * height
            &&& after.1.len() == width * height
            &&& after.1[i] <= depths[i]
            &&& forall|k: int|
                0 <= k < writes.len() && #[trigger] writes[k].0 == x && writes[k].1 == y
                    ==> after.1[i] <= writes[k].3
            &&& (after.0[i] == colors[i] && after.1[i] == depths[i]) || exists|k: int|
                0 <= k < writes.len() && #[trigger] writes[k].0 == x && writes[k].1 == y
                    && writes[k].2 == after.0[i] && writes[k].3 == after.1[i]
        }),
    decreases writes.len(),
{
    let i = (y * width + x) as int;
    lemma_cell_index(width as int, height as int, x as int, y as int);
    if writes.len() > 0 {
        let prefix = writes.drop_last();
        lemma_depth_test_keeps_nearest(width, height, colors, depths, prefix, x, y);
        let before = apply_writes(width, height, colors, depths, prefix);
        let after = apply_writes(width, height, colors, depths, writes);
        let w = writes.last();
        let last = writes.len() - 1;
        assert(w == writes[last]);
        assert(before.0.len() == width * height && before.1.len() == width * height);
        if w.0 < width && w.1 < height {
            let j = w.1 * width + w.0;
            lemma_cell_index(width as int, height as int, w.0 as int, w.1 as int);
            lemma_cell_of_index(width as int, height as int, w.0 as int, w.1 as int, i);
            lemma_cell_of_index(width as int, height as int, x as int, y as int, i);
            if w.3 < before.1[j] {
                assert(after.0 == before.0.update(j, w.2));
                assert(after.1 == before.1.update(j, w.3));
                if j == i {
                    assert(w.0 == x && w.1 == y);
                } else {
                    assert(after.0[i] == before.0[i] && after.1[i] == before.1[i]);
                }
            } else {
                assert(after == before);
            }
        } else {
            assert(after == before);
        }
        assert forall|k: int|
            0 <= k < writes.len() && #[trigger] writes[k].0 == x && writes[k].1 == y
                implies after.1[i] <= writes[k].3 by {
            if k < last {
                assert(prefix[k] == writes[k]);
            }
        }
        if !(after.0[i] == colors[i] && after.1[i] == depths[i]) {
            if after.0[i] == before.0[i] && after.1[i] == before.1[i] {
                let k = choose|k: int|
                    0 <= k < prefix.len() && #[trigger] prefix[k].0 == x && prefix[k].1 == y
                        && prefix[k].2 == before.0[i] && prefix[k].3 == before.1[i];
                assert(writes[k] == prefix[k]);
            } else {
                assert(writes[last].0 == x && writes[last].1 == y);
            }
        }
    }
}

/// Right after a clear, any in-bounds write of a depth below `FAR` lands.
pub proof fn lemma_cleared_cell_accepts(width: nat, height: nat, background: u32, x: nat, y: nat, color: u32, depth: i64)
    requires
        width <= MAX_SIDE,
        height <= MAX_SIDE,
        x < width,
        y < height,
        depth < FAR,
    ensures
        ({
            let n = width * height;
            let after = write_cells(width, height, Seq::new(n, |i: int| background), Seq::new(n, |i: int| FAR), x as int, y as int, color, depth);
            after.0[(y * width + x) as int] == color && after.1[(y * width + x) as int] == depth
        }),
{
    lemma_cell_index(width as int, height as int, x as int, y as int);
}

impl Framebuffer {
    /// The depth buffer, one value per cell.
    pub open spec fn depths(&self) -> Seq<i64> {
        self.zbuffer@
    }

    pub open spec fn wf(&self) -> bool {
        &&& self.width <= MAX_SIDE
        &&& self.height <= MAX_SIDE
        &&& self.buffer@.len() == self.width * self.height
        &&& self.zbuffer@.len() == self.width * self.height
    }

    pub proof fn lemma_wf_len(&self)
        requires
            self.wf(),
        ensures
            self.width <= MAX_SIDE,
            self.height <= MAX_SIDE,
            self.buffer@.len() == self.width * self.height,
            self.depths().len() == self.width * self.height,
    {
    }

    /// A framebuffer of black cells, every depth at `FAR`.
    pub fn new(width: usize, height: usize) -> (r: Self)
        requires
            width <= MAX_SIDE,
            height <= MAX_SIDE,
        ensures
            r.wf(),
            r.width == width,
            r.height == height,
            r.buffer@ == Seq::new((width * height) as nat, |i: int| 0u32),
            r.depths() == Seq::new((width * height) as nat, |i: int| FAR),
    {
        proof {
            vstd::arithmetic::mul::lemma_mul_upper_bound(width as int, MAX_SIDE as int, height as int, MAX_SIDE as int);
        }
        let n: usize = width * height;
        let mut fb = Framebuffer { width, height, buffer: Vec::new(), zbuffer: Vec::new() };
        fb.fill_cells(n, 0);
        fb
    }

    /// Makes both buffers hold `n` cells of `color` and `FAR`.
    fn fill_cells(&mut self, n: usize, color: u32)
        requires
            n == old(self).width * old(self).height,
            old(self).width <= MAX_SIDE,
            old(self).height <= MAX_SIDE,
        ensures
            final(self).wf(),
            final(self).width == old(self).width,
            final(self).height == old(self).height,
            final(self).buffer@ == Seq::new(n as nat, |i: int| color),
            final(self).depths() == Seq::new(n as nat, |i: int| FAR),
    {
        let mut colors: Vec<u32> = Vec::with_capacity(n);
        let mut depths: Vec<i64> = Vec::with_capacity(n);
        let mut k: usize = 0;
        while k < n
            invariant
                k <= n,
                colors@ == Seq::new(k as nat, |i: int| color),
                depths@ == Seq::new(k as nat, |i: int| FAR),
            decreases n - k,
        {
            colors.push(color);
            depths.push(FAR);
            k = k + 1;
            assert(colors@ =~= Seq::new(k as nat, |i: int| color));
            assert(depths@ =~= Seq::new(k as nat, |i: int| FAR));
        }
        self.buffer = colors;
        self.zbuffer = depths;
    }

    /// Resets every colour cell to `color` and every depth cell to `FAR`.
    pub fn clear(&mut self, color: u32)
        requires
            old(self).wf(),
        ensures
            final(self).wf(),
            final(self).width == old(self).width,
            final(self).height == old(self).height,
            final(self).buffer@ == Seq::new((old(self).width * old(self).height) as nat, |i: int| color),
            final(self).depths() == Seq::new((old(self).width * old(self).height) as nat, |i: int| FAR),
    {
        let n: usize = self.buffer.len();
        self.fill_cells(n, color);
    }

    /// Writes `color` and `depth` into `(x, y)` when the cell is in bounds and
    /// `depth` is strictly less than the depth stored there.
    pub fn set_pixel(&mut self, x: usize, y: usize, color: u32, depth: i64)
        requires
            old(self).wf(),
        ensures
            final(self).wf(),
            final(self).width == old(self).width,
            final(self).height == old(self).height,
            (final(self).buffer@, final(self).depths()) == write_cells(
                old(self).width as nat,
                old(self).height as nat,
                old(self).buffer@,
                old(self).depths(),
                x as int,
                y as int,
                color,
                depth,
            ),
    {
        if x < self.width && y < self.height {
            proof {
                lemma_cell_index(self.width as int, self.height as int, x as int, y as int);
            }
            let index: usize = y * self.width + x;
            if depth < self.zbuffer[index] {
                self.buffer.set(index, color);
                self.zbuffer.set(index, depth);
            }
        }
    }

    /// The colour buffer, row by row.
    pub fn get_buffer(&self) -> (r: &[u32])
        ensures
            r@ == self.buffer@,
    {
        self.buffer.as_slice()
    }
}

} // verus!
