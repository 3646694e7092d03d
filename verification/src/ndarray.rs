//! Dense-array assembly over bounding boxes: gathering a box from the
//! overlapping blocks of a dataset, and scattering a dense array back
//! into them with read-modify-write on partially covered blocks.
//!
//! A bounding box is an origin (`translation`) plus per-axis extents,
//! in elements.  Blocks are visited in row-major order of their grid
//! coordinates.

use vstd::prelude::*;
use vstd::arithmetic::div_mod::lemma_div_is_ordered;
use vstd::arithmetic::div_mod::lemma_div_pos_is_pos;
use vstd::arithmetic::div_mod::lemma_fundamental_div_mod;
use vstd::arithmetic::div_mod::lemma_fundamental_div_mod_converse_div;
use vstd::arithmetic::div_mod::lemma_fundamental_div_mod_converse_mod;
use crate::attrs::DatasetAttributes;
use crate::buffer::copy_region;
use crate::buffer::elem;
use crate::buffer::fill_buffer;
use crate::codec::compress_spec;
use crate::codec::decompress_spec;
use crate::coords::add_seq;
use crate::coords::add_vec;
use crate::coords::all_nonneg;
use crate::coords::all_pos;
use crate::coords::in_box;
use crate::coords::in_shape;
use crate::coords::ints32;
use crate::coords::ints64;
use crate::coords::lemma_lin_bounds;
use crate::coords::lemma_prod_pos;
use crate::coords::lemma_prod_take_le;
use crate::coords::lemma_prod_take_succ;
use crate::coords::lemma_prod_zero;
use crate::coords::lin;
use crate::coords::odo_next;
use crate::coords::prod;
use crate::coords::sub_seq;
use crate::coords::zero_vec;
use crate::errors::N5Error;
use crate::store::N5Store;

verus! {

pub open spec fn max_i(a: int, b: int) -> int {
    if a >= b {
        a
    } else {
        b
    }
}

pub open spec fn min_i(a: int, b: int) -> int {
    if a <= b {
        a
    } else {
        b
    }
}

/// The grid coordinate of the block containing global coordinate `q`.
pub open spec fn grid_of(q: Seq<int>, bs: Seq<int>) -> Seq<int> {
    Seq::new(q.len(), |j: int| q[j] / bs[j])
}

/// The global coordinate of a block's first element.
pub open spec fn block_origin_of(g: Seq<int>, bs: Seq<int>) -> Seq<int> {
    Seq::new(g.len(), |j: int| g[j] * bs[j])
}

/// The block-local coordinate of global coordinate `q`.
pub open spec fn local_of(q: Seq<int>, bs: Seq<int>) -> Seq<int> {
    Seq::new(q.len(), |j: int| q[j] % bs[j])
}

/// The lowest grid coordinate of a block overlapping the box at `t`.
pub open spec fn rect_lo(t: Seq<int>, bs: Seq<int>) -> Seq<int> {
    grid_of(t, bs)
}

/// How many blocks the box `(t, d)` spans on each axis.
pub open spec fn rect_ext(t: Seq<int>, d: Seq<int>, bs: Seq<int>) -> Seq<int> {
    Seq::new(t.len(), |j: int|
        if d[j] <= 0 {
            0
        } else {
            (t[j] + d[j] - 1) / bs[j] + 1 - t[j] / bs[j]
        })
}

/// The low corner of the intersection of box and block, per axis
/// `max(t, g*b)`.
pub open spec fn isect_lo(t: Seq<int>, g: Seq<int>, bs: Seq<int>) -> Seq<int> {
    Seq::new(t.len(), |j: int| max_i(t[j], g[j] * bs[j]))
}

/// The high corner (exclusive) of the intersection, per axis
/// `min(t+d, (g+1)*b)`.
pub open spec fn isect_hi(t: Seq<int>, d: Seq<int>, g: Seq<int>, bs: Seq<int>) -> Seq<int> {
    Seq::new(t.len(), |j: int| min_i(t[j] + d[j], (g[j] + 1) * bs[j]))
}

/// A bounding box a dataset accepts: matching rank, non-negative
/// origin and extents, and an end coordinate that fits the
/// coordinate type.
pub open spec fn box_wf(attrs: DatasetAttributes, t: Seq<int>, d: Seq<int>) -> bool {
    &&& t.len() == attrs.rank()
    &&& d.len() == attrs.rank()
    &&& all_nonneg(t)
    &&& all_nonneg(d)
    &&& forall|j: int| 0 <= j < t.len() ==> #[trigger] t[j] + d[j] <= i64::MAX
}

/// The dataset's element at global coordinate `q`: the matching byte
/// run of its block's content, or `fill` where no block was written.
pub open spec fn ds_elem(
    s: N5Store,
    path: Seq<char>,
    attrs: DatasetAttributes,
    q: Seq<int>,
    fill: Seq<u8>,
) -> Seq<u8> {
    let g = grid_of(q, attrs.bs());
    if s.blk(path, g) is Some {
        elem(
            s.block_content(path, attrs, g),
            lin(local_of(q, attrs.bs()), attrs.bs()),
            attrs.esize(),
        )
    } else {
        fill
    }
}

/// Every block overlapping the box is readable.
pub open spec fn box_readable(
    s: N5Store,
    path: Seq<char>,
    attrs: DatasetAttributes,
    t: Seq<int>,
    d: Seq<int>,
) -> bool {
    forall|g: Seq<int>|
        in_box(g, rect_lo(t, attrs.bs()), rect_ext(t, d, attrs.bs())) ==> #[trigger] s.block_ok(
            path,
            attrs,
            g,
        )
}

/// The box covers block `g` entirely.
pub open spec fn covers(t: Seq<int>, d: Seq<int>, bs: Seq<int>, g: Seq<int>) -> bool {
    forall|j: int|
        0 <= j < g.len() ==> t[j] <= #[trigger] (g[j] * bs[j]) && (g[j] + 1) * bs[j] <= t[j] + d[j]
}

/// Every block only partially covered by the box is readable; what a
/// scattering write needs, since fully covered blocks are overwritten
/// without being read.
pub open spec fn partials_readable(
    s: N5Store,
    path: Seq<char>,
    attrs: DatasetAttributes,
    t: Seq<int>,
    d: Seq<int>,
) -> bool {
    forall|g: Seq<int>|
        in_box(g, rect_lo(t, attrs.bs()), rect_ext(t, d, attrs.bs())) && !covers(t, d, attrs.bs(), g)
            ==> #[trigger] s.block_ok(path, attrs, g)
}

/// Per-axis geometry of a grid coordinate inside the box's rectangle.
proof fn lemma_axis(t: int, d: int, b: int, g: int)
    requires
        0 <= t,
        1 <= d,
        0 < b,
        t / b <= g,
        g <= (t + d - 1) / b,
    ensures
        0 <= g,
        g * b <= t + d - 1,
        (g + 1) * b >= t + 1,
        max_i(t, g * b) < min_i(t + d, (g + 1) * b),
        g * b <= max_i(t, g * b),
        min_i(t + d, (g + 1) * b) <= (g + 1) * b,
        g * b >= 0,
{
    lemma_div_pos_is_pos(t, b);
    lemma_fundamental_div_mod(t, b);
    lemma_fundamental_div_mod(t + d - 1, b);
    let qt = t / b;
    let rt = t % b;
    let qh = (t + d - 1) / b;
    let rh = (t + d - 1) % b;
    assert(g * b <= qh * b) by (nonlinear_arith)
        requires
            g <= qh,
            b > 0,
    ;
    assert(qh * b <= t + d - 1) by (nonlinear_arith)
        requires
            t + d - 1 == b * qh + rh,
            rh >= 0,
    ;
    assert((g + 1) * b >= (qt + 1) * b) by (nonlinear_arith)
        requires
            g >= qt,
            b > 0,
    ;
    assert((qt + 1) * b >= t + 1) by (nonlinear_arith)
        requires
            t == b * qt + rt,
            rt < b,
    ;
    assert(g * b < (g + 1) * b && g * b >= 0) by (nonlinear_arith)
        requires
            b > 0,
            g >= 0,
    ;
}

/// A global coordinate between a block's origin and its end lies in
/// that block: division and remainder are pinned.
pub proof fn lemma_q_in_block(q: int, b: int, g: int)
    requires
        0 < b,
        0 <= g,
        g * b <= q,
        q < (g + 1) * b,
    ensures
        q / b == g,
        q % b == q - g * b,
        0 <= q - g * b < b,
{
    assert((g + 1) * b == g * b + b) by (nonlinear_arith);
    lemma_fundamental_div_mod_converse_div(q, b, g, q - g * b);
    lemma_fundamental_div_mod_converse_mod(q, b, g, q - g * b);
}

/// A global coordinate of the box lies in a block of the rectangle.
pub proof fn lemma_grid_in_rect(t: Seq<int>, d: Seq<int>, bs: Seq<int>, q: Seq<int>)
    requires
        t.len() == d.len(),
        d.len() == bs.len(),
        q.len() == t.len(),
        all_nonneg(t),
        all_pos(bs),
        in_box(q, t, d),
    ensures
        in_box(grid_of(q, bs), rect_lo(t, bs), rect_ext(t, d, bs)),
{
    let g = grid_of(q, bs);
    assert forall|j: int|
        0 <= j < g.len() implies rect_lo(t, bs)[j] <= #[trigger] g[j] < rect_lo(t, bs)[j]
        + rect_ext(t, d, bs)[j] by {
        assert(t[j] <= q[j] < t[j] + d[j]);
        assert(d[j] >= 1);
        lemma_div_is_ordered(t[j], q[j], bs[j]);
        lemma_div_is_ordered(q[j], t[j] + d[j] - 1, bs[j]);
    }
}

/// The intersection window of box and block selects exactly the
/// box elements whose grid coordinate is that block.
proof fn lemma_window_member(
    t: Seq<int>,
    d: Seq<int>,
    bs: Seq<int>,
    g: Seq<int>,
    q: Seq<int>,
)
    requires
        t.len() == d.len(),
        d.len() == bs.len(),
        g.len() == t.len(),
        q.len() == t.len(),
        all_nonneg(t),
        all_pos(bs),
        forall|j: int| 0 <= j < t.len() ==> #[trigger] d[j] >= 1,
        in_box(g, rect_lo(t, bs), rect_ext(t, d, bs)),
    ensures
        in_box(q, isect_lo(t, g, bs), sub_seq(isect_hi(t, d, g, bs), isect_lo(t, g, bs))) <==> (
        in_box(q, t, d) && grid_of(q, bs) == g),
        in_box(q, isect_lo(t, g, bs), sub_seq(isect_hi(t, d, g, bs), isect_lo(t, g, bs))) ==> (
        local_of(q, bs) == sub_seq(q, block_origin_of(g, bs)) && in_shape(
            sub_seq(q, block_origin_of(g, bs)),
            bs,
        )),
{
    let lo = isect_lo(t, g, bs);
    let hi = isect_hi(t, d, g, bs);
    let w = sub_seq(hi, lo);
    assert forall|j: int| 0 <= j < t.len() implies 0 <= #[trigger] g[j] && g[j] * bs[j] <= t[j] + d[j]
        - 1 && (g[j] + 1) * bs[j] >= t[j] + 1 by {
        lemma_axis(t[j], d[j], bs[j], g[j]);
    }
    if in_box(q, lo, w) {
        assert forall|j: int| 0 <= j < q.len() implies t[j] <= #[trigger] q[j] < t[j] + d[j]
            && g[j] * bs[j] <= q[j] < (g[j] + 1) * bs[j] by {
            assert(lo[j] <= q[j] < lo[j] + w[j]);
            assert(lo[j] == max_i(t[j], g[j] * bs[j]));
            assert(lo[j] + w[j] == hi[j]);
        }
        assert forall|j: int| 0 <= j < q.len() implies #[trigger] grid_of(q, bs)[j] == g[j]
            && local_of(q, bs)[j] == q[j] - g[j] * bs[j] by {
            lemma_q_in_block(q[j], bs[j], g[j]);
        }
        assert(grid_of(q, bs) =~= g);
        assert(local_of(q, bs) =~= sub_seq(q, block_origin_of(g, bs)));
        assert forall|j: int|
            0 <= j < q.len() implies 0 <= #[trigger] sub_seq(q, block_origin_of(g, bs))[j]
            < bs[j] by {
            assert(block_origin_of(g, bs)[j] == g[j] * bs[j]);
        }
        assert(in_box(q, t, d));
    }
    if in_box(q, t, d) && grid_of(q, bs) == g {
        assert forall|j: int| 0 <= j < q.len() implies lo[j] <= #[trigger] q[j] && q[j] < lo[j]
            + w[j] by {
            assert(grid_of(q, bs)[j] == q[j] / bs[j]);
            lemma_fundamental_div_mod(q[j], bs[j]);
            assert(q[j] == bs[j] * (q[j] / bs[j]) + q[j] % bs[j]);
            assert(g[j] * bs[j] <= q[j] && q[j] < (g[j] + 1) * bs[j]) by (nonlinear_arith)
                requires
                    q[j] == bs[j] * g[j] + q[j] % bs[j],
                    0 <= q[j] % bs[j] < bs[j],
            ;
            assert(lo[j] + w[j] == hi[j]);
        }
        assert(in_box(q, lo, w));
    }
}

/// Compute the intersection window of the box and block `g`: the
/// region's extents, its offset inside the block, and its offset
/// inside the box.
#[verifier::spinoff_prover]
#[verifier::rlimit(60)]
fn block_window(
    g: &Vec<i64>,
    translation: &Vec<i64>,
    dimensions: &Vec<i64>,
    bs64: &Vec<i64>,
) -> (w: (Vec<i64>, Vec<i64>, Vec<i64>))
    requires
        g@.len() == translation@.len(),
        dimensions@.len() == translation@.len(),
        bs64@.len() == translation@.len(),
        all_nonneg(ints64(translation@)),
        all_pos(ints64(bs64@)),
        forall|j: int| 0 <= j < dimensions@.len() ==> #[trigger] ints64(dimensions@)[j] >= 1,
        forall|j: int|
            0 <= j < translation@.len() ==> #[trigger] ints64(translation@)[j] + ints64(
                dimensions@,
            )[j] <= i64::MAX,
        in_box(
            ints64(g@),
            rect_lo(ints64(translation@), ints64(bs64@)),
            rect_ext(ints64(translation@), ints64(dimensions@), ints64(bs64@)),
        ),
    ensures
        w.0@.len() == translation@.len(),
        w.1@.len() == translation@.len(),
        w.2@.len() == translation@.len(),
        ints64(w.0@) == sub_seq(
            isect_hi(ints64(translation@), ints64(dimensions@), ints64(g@), ints64(bs64@)),
            isect_lo(ints64(translation@), ints64(g@), ints64(bs64@)),
        ),
        ints64(w.1@) == sub_seq(
            isect_lo(ints64(translation@), ints64(g@), ints64(bs64@)),
            block_origin_of(ints64(g@), ints64(bs64@)),
        ),
        ints64(w.2@) == sub_seq(
            isect_lo(ints64(translation@), ints64(g@), ints64(bs64@)),
            ints64(translation@),
        ),
        forall|j: int| 0 <= j < translation@.len() ==> #[trigger] ints64(w.0@)[j] >= 1,
        all_nonneg(ints64(w.1@)),
        all_nonneg(ints64(w.2@)),
        forall|j: int|
            0 <= j < translation@.len() ==> #[trigger] ints64(w.1@)[j] + ints64(w.0@)[j] <= ints64(
                bs64@,
            )[j],
        forall|j: int|
            0 <= j < translation@.len() ==> #[trigger] ints64(w.2@)[j] + ints64(w.0@)[j] <= ints64(
                dimensions@,
            )[j],
{
    let n = translation.len();
    let ghost ti = ints64(translation@);
    let ghost di = ints64(dimensions@);
    let ghost bi = ints64(bs64@);
    let ghost gi = ints64(g@);
    let mut reg: Vec<i64> = Vec::new();
    let mut soff: Vec<i64> = Vec::new();
    let mut doff: Vec<i64> = Vec::new();
    let mut j: usize = 0;
    while j < n
        invariant
            n == translation@.len(),
            n == dimensions@.len(),
            n == bs64@.len(),
            n == g@.len(),
            ti == ints64(translation@),
            di == ints64(dimensions@),
            bi == ints64(bs64@),
            gi == ints64(g@),
            all_nonneg(ti),
            all_pos(bi),
            forall|j2: int| 0 <= j2 < n ==> #[trigger] di[j2] >= 1,
            forall|j2: int| 0 <= j2 < n ==> #[trigger] ti[j2] + di[j2] <= i64::MAX,
            in_box(gi, rect_lo(ti, bi), rect_ext(ti, di, bi)),
            0 <= j <= n,
            reg@.len() == j,
            soff@.len() == j,
            doff@.len() == j,
            forall|k: int|
                0 <= k < j ==> #[trigger] ints64(reg@)[k] == isect_hi(ti, di, gi, bi)[k] - isect_lo(
                    ti,
                    gi,
                    bi,
                )[k] && ints64(soff@)[k] == isect_lo(ti, gi, bi)[k] - gi[k] * bi[k] && ints64(
                    doff@,
                )[k] == isect_lo(ti, gi, bi)[k] - ti[k] && ints64(reg@)[k] >= 1 && ints64(soff@)[k]
                    >= 0 && ints64(doff@)[k] >= 0 && ints64(soff@)[k] + ints64(reg@)[k] <= bi[k]
                    && ints64(doff@)[k] + ints64(reg@)[k] <= di[k],
        decreases n - j,
    {
        proof {
            assert(ti[j as int] == translation@[j as int] as int);
            assert(di[j as int] == dimensions@[j as int] as int);
            assert(bi[j as int] == bs64@[j as int] as int);
            assert(gi[j as int] == g@[j as int] as int);
            assert(rect_lo(ti, bi)[j as int] <= gi[j as int] < rect_lo(ti, bi)[j as int] + rect_ext(
                ti,
                di,
                bi,
            )[j as int]);
            lemma_axis(ti[j as int], di[j as int], bi[j as int], gi[j as int]);
        }
        let t = translation[j];
        let d = dimensions[j];
        let b = bs64[j];
        let gj = g[j];
        let gb = gj * b;
        let io: i64 = if t >= gb {
            t
        } else {
            gb
        };
        // the block's end, clipped to the box's end without overflow
        let cap = ((t + d) as u64 / b as u64) as i64;
        let ih: i64 = if gj + 1 <= cap {
            proof {
                let td = ti[j as int] + di[j as int];
                let bb = bi[j as int];
                let gg = gi[j as int];
                lemma_fundamental_div_mod(td, bb);
                assert((gg + 1) * bb <= td) by (nonlinear_arith)
                    requires
                        gg + 1 <= td / bb,
                        td == bb * (td / bb) + td % bb,
                        td % bb >= 0,
                        bb > 0,
                ;
            }
            (gj + 1) * b
        } else {
            proof {
                let td = ti[j as int] + di[j as int];
                let bb = bi[j as int];
                let gg = gi[j as int];
                if (gg + 1) * bb <= td {
                    lemma_div_is_ordered((gg + 1) * bb, td, bb);
                    vstd::arithmetic::div_mod::lemma_div_by_multiple(gg + 1, bb);
                    assert(false);
                }
            }
            t + d
        };
        proof {
            assert(io as int == isect_lo(ti, gi, bi)[j as int]);
            assert(ih as int == isect_hi(ti, di, gi, bi)[j as int]);
        }
        let ghost pre_reg = reg@;
        let ghost pre_soff = soff@;
        let ghost pre_doff = doff@;
        reg.push(ih - io);
        soff.push(io - gb);
        doff.push(io - t);
        proof {
            assert forall|k: int|
                0 <= k < j + 1 implies #[trigger] ints64(reg@)[k] == isect_hi(ti, di, gi, bi)[k]
                - isect_lo(ti, gi, bi)[k] && ints64(soff@)[k] == isect_lo(ti, gi, bi)[k] - gi[k]
                * bi[k] && ints64(doff@)[k] == isect_lo(ti, gi, bi)[k] - ti[k] && ints64(reg@)[k]
                >= 1 && ints64(soff@)[k] >= 0 && ints64(doff@)[k] >= 0 && ints64(soff@)[k] + ints64(
                reg@,
            )[k] <= bi[k] && ints64(doff@)[k] + ints64(reg@)[k] <= di[k] by {
                assert(ints64(reg@)[k] == reg@[k] as int);
                assert(ints64(soff@)[k] == soff@[k] as int);
                assert(ints64(doff@)[k] == doff@[k] as int);
                if k < j {
                    assert(reg@[k] == pre_reg[k]);
                    assert(soff@[k] == pre_soff[k]);
                    assert(doff@[k] == pre_doff[k]);
                    assert(ints64(pre_reg)[k] == pre_reg[k] as int);
                    assert(ints64(pre_soff)[k] == pre_soff[k] as int);
                    assert(ints64(pre_doff)[k] == pre_doff[k] as int);
                } else {
                    assert(reg@[k] == ih - io);
                    assert(soff@[k] == io - gb);
                    assert(doff@[k] == io - t);
                    assert((gi[k] + 1) * bi[k] == gi[k] * bi[k] + bi[k]) by (nonlinear_arith);
                }
            }
        }
        j += 1;
    }
    proof {
        assert forall|k: int|
            #![trigger ints64(reg@)[k]]
            #![trigger ints64(soff@)[k]]
            #![trigger ints64(doff@)[k]]
            0 <= k < n implies ints64(soff@)[k] == sub_seq(
            isect_lo(ti, gi, bi),
            block_origin_of(gi, bi),
        )[k] && ints64(reg@)[k] == sub_seq(isect_hi(ti, di, gi, bi), isect_lo(ti, gi, bi))[k]
            && ints64(doff@)[k] == sub_seq(isect_lo(ti, gi, bi), ti)[k] by {
            assert(ints64(reg@)[k] == isect_hi(ti, di, gi, bi)[k] - isect_lo(ti, gi, bi)[k]);
            assert(block_origin_of(gi, bi)[k] == gi[k] * bi[k]);
        }
        assert(ints64(reg@) =~= sub_seq(isect_hi(ti, di, gi, bi), isect_lo(ti, gi, bi)));
        assert(ints64(soff@) =~= sub_seq(isect_lo(ti, gi, bi), block_origin_of(gi, bi)));
        assert(ints64(doff@) =~= sub_seq(isect_lo(ti, gi, bi), ti));
    }
    (reg, soff, doff)
}

/// The block extents as `i64` coordinates.
fn bs_to_i64(block_size: &Vec<i32>) -> (r: Vec<i64>)
    ensures
        r@.len() == block_size@.len(),
        ints64(r@) == ints32(block_size@),
{
    let n = block_size.len();
    let mut r: Vec<i64> = Vec::new();
    let mut j: usize = 0;
    while j < n
        invariant
            n == block_size@.len(),
            0 <= j <= n,
            r@.len() == j,
            forall|k: int| 0 <= k < j ==> #[trigger] r@[k] as int == block_size@[k] as int,
        decreases n - j,
    {
        r.push(block_size[j] as i64);
        j += 1;
    }
    proof {
        assert(ints64(r@) =~= ints32(block_size@));
    }
    r
}

/// The number of elements in a box, as a machine word.
fn box_elem_count(dimensions: &Vec<i64>) -> (r: usize)
    requires
        all_nonneg(ints64(dimensions@)),
        prod(ints64(dimensions@)) <= usize::MAX,
    ensures
        r == prod(ints64(dimensions@)),
{
    let ghost di = ints64(dimensions@);
    let n = dimensions.len();
    let mut j: usize = 0;
    while j < n
        invariant
            n == dimensions@.len(),
            di == ints64(dimensions@),
            all_nonneg(di),
            0 <= j <= n,
            forall|k: int| 0 <= k < j ==> #[trigger] di[k] > 0,
        decreases n - j,
    {
        proof {
            assert(di[j as int] == dimensions@[j as int] as int);
        }
        if dimensions[j] == 0 {
            proof {
                lemma_prod_zero(di, j as int);
            }
            return 0;
        }
        j += 1;
    }
    proof {
        assert(all_pos(di));
    }
    let mut acc: usize = 1;
    let mut i: usize = 0;
    proof {
        assert(di.take(0) =~= Seq::<int>::empty());
        lemma_prod_pos(di);
    }
    while i < n
        invariant
            n == dimensions@.len(),
            di == ints64(dimensions@),
            all_pos(di),
            prod(di) <= usize::MAX,
            0 <= i <= n,
            acc == prod(di.take(i as int)),
        decreases n - i,
    {
        proof {
            lemma_prod_take_succ(di, i as int);
            lemma_prod_take_le(di, i as int);
            lemma_prod_take_le(di, i as int + 1);
            assert(di[i as int] == dimensions@[i as int] as int);
            let p = prod(di.take(i as int));
            let f = di[i as int];
            assert(p * f >= 1 && p <= p * f && f <= p * f) by (nonlinear_arith)
                requires
                    p >= 1,
                    f >= 1,
            ;
        }
        acc = acc * (dimensions[i] as usize);
        i += 1;
    }
    proof {
        assert(di.take(n as int) =~= di);
    }
    acc
}

impl N5Store {
    /// Read the box `(translation, dimensions)` as a dense row-major
    /// byte array.  Every element whose block was never written reads
    /// as `fill_value`.  Fails with `DatasetNotFound` when the
    /// dataset does not exist and with `CorruptBlock` when any
    /// overlapping block is unreadable; no partial result is
    /// returned.
    #[verifier::spinoff_prover]
    #[verifier::rlimit(100)]
    pub fn read_ndarray(
        &self,
        path_name: &str,
        attrs: &DatasetAttributes,
        translation: &Vec<i64>,
        dimensions: &Vec<i64>,
        fill_value: &Vec<u8>,
    ) -> (r: Result<Vec<u8>, N5Error>)
        requires
            attrs.wf(),
            box_wf(*attrs, ints64(translation@), ints64(dimensions@)),
            prod(ints64(dimensions@)) * attrs.esize() <= usize::MAX,
            fill_value@.len() == attrs.esize(),
        ensures
            match r {
                Ok(out) => self.has_dataset(path_name@) && box_readable(
                    *self,
                    path_name@,
                    *attrs,
                    ints64(translation@),
                    ints64(dimensions@),
                ) && out@.len() == prod(ints64(dimensions@)) * attrs.esize() && forall|p: Seq<int>|
                    #[trigger] in_shape(p, ints64(dimensions@)) ==> elem(
                        out@,
                        lin(p, ints64(dimensions@)),
                        attrs.esize(),
                    ) == ds_elem(
                        *self,
                        path_name@,
                        *attrs,
                        add_seq(ints64(translation@), p),
                        fill_value@,
                    ),
                Err(e) => match e {
                    N5Error::DatasetNotFound => !self.has_dataset(path_name@),
                    N5Error::CorruptBlock => self.has_dataset(path_name@) && !box_readable(
                        *self,
                        path_name@,
                        *attrs,
                        ints64(translation@),
                        ints64(dimensions@),
                    ),
                    _ => false,
                },
            },
    {
        let ghost ti = ints64(translation@);
        let ghost di = ints64(dimensions@);
        let ghost bsi = attrs.bs();
        let ghost es = attrs.esize();
        if !self.dataset_exists(path_name) {
            return Err(N5Error::DatasetNotFound);
        }
        let esize = attrs.data_type.size_bytes();
        let n = translation.len();

        // an empty box: no elements, no overlapping blocks
        let mut jz: usize = 0;
        while jz < n
            invariant
                attrs.wf(),
                n == translation@.len(),
                n == dimensions@.len(),
                n == attrs.block_size@.len(),
                ti == ints64(translation@),
                di == ints64(dimensions@),
                bsi == attrs.bs(),
                es == attrs.esize(),
                es >= 1,
                self.has_dataset(path_name@),
                all_nonneg(di),
                0 <= jz <= n,
                forall|k: int| 0 <= k < jz ==> #[trigger] di[k] >= 1,
            decreases n - jz,
        {
            proof {
                assert(di[jz as int] == dimensions@[jz as int] as int);
            }
            if dimensions[jz] == 0 {
                proof {
                    lemma_prod_zero(di, jz as int);
                    assert forall|g: Seq<int>|
                        in_box(g, rect_lo(ti, bsi), rect_ext(ti, di, bsi)) implies #[trigger] self.block_ok(
                        path_name@,
                        *attrs,
                        g,
                    ) by {
                        assert(rect_ext(ti, di, bsi)[jz as int] == 0);
                        assert(rect_lo(ti, bsi)[jz as int] <= g[jz as int] < rect_lo(
                            ti,
                            bsi,
                        )[jz as int] + rect_ext(ti, di, bsi)[jz as int]);
                        assert(false);
                    }
                    assert forall|p: Seq<int>| #[trigger] in_shape(p, di) implies false by {
                        assert(0 <= p[jz as int] < di[jz as int]);
                    }
                }
                return Ok(Vec::new());
            }
            jz += 1;
        }
        proof {
            assert(all_pos(di));
            lemma_prod_pos(di);
            assert(prod(di) <= prod(di) * es) by (nonlinear_arith)
                requires
                    prod(di) >= 1,
                    es >= 1,
            ;
        }

        let count = box_elem_count(dimensions);
        let mut out = fill_buffer(count, fill_value);
        let bs64 = bs_to_i64(&attrs.block_size);
        let (g_lo, g_ext) = grid_rect(translation, dimensions, &bs64);
        let ghost gli = ints64(g_lo@);
        let ghost gei = ints64(g_ext@);

        let mut rd = zero_vec(n);
        let mut more = true;
        let ghost mut ii: int = 0;
        proof {
            assert forall|j: int| 0 <= j < n implies #[trigger] gei[j] >= 1 by {}
            assert(all_pos(gei));
            assert(in_shape(ints64(rd@), gei));
            crate::coords::lemma_lin_zero(gei);
            lemma_prod_pos(gei);
            assert forall|p: Seq<int>| #[trigger] in_shape(p, di) implies elem(
                out@,
                lin(p, di),
                es,
            ) == fill_value@ by {
                lemma_lin_bounds(p, di);
            }
        }
        while more
            invariant
                attrs.wf(),
                n == translation@.len(),
                n == dimensions@.len(),
                n == attrs.block_size@.len(),
                bs64@.len() == n,
                g_lo@.len() == n,
                g_ext@.len() == n,
                rd@.len() == n,
                ti == ints64(translation@),
                di == ints64(dimensions@),
                bsi == attrs.bs(),
                es == attrs.esize(),
                esize == es,
                ints64(bs64@) == bsi,
                gli == ints64(g_lo@),
                gei == ints64(g_ext@),
                gli == rect_lo(ti, bsi),
                gei == rect_ext(ti, di, bsi),
                all_nonneg(ti),
                all_nonneg(di),
                all_pos(bsi),
                all_pos(gei),
                forall|j: int| 0 <= j < n ==> #[trigger] di[j] >= 1,
                forall|j: int| 0 <= j < n ==> #[trigger] ti[j] + di[j] <= i64::MAX,
                forall|j: int| 0 <= j < n ==> #[trigger] gli[j] + gei[j] <= i64::MAX,
                self.has_dataset(path_name@),
                fill_value@.len() == es,
                count == prod(di),
                prod(di) * es <= usize::MAX,
                out@.len() == count * es,
                more ==> in_shape(ints64(rd@), gei) && ii == lin(ints64(rd@), gei),
                !more ==> ii == prod(gei),
                0 <= ii <= prod(gei),
                forall|g: Seq<int>|
                    in_box(g, gli, gei) && 0 <= lin(sub_seq(g, gli), gei) < ii
                        ==> #[trigger] self.block_ok(path_name@, *attrs, g),
                forall|p: Seq<int>|
                    #[trigger] in_shape(p, di) ==> elem(out@, lin(p, di), es) == (if 0 <= lin(
                        sub_seq(grid_of(add_seq(ti, p), bsi), gli),
                        gei,
                    ) < ii {
                        ds_elem(*self, path_name@, *attrs, add_seq(ti, p), fill_value@)
                    } else {
                        fill_value@
                    }),
            decreases prod(gei) - ii,
        {
            proof {
                assert forall|j: int| 0 <= j < n implies i64::MIN <= #[trigger] g_lo@[j]
                    + rd@[j] <= i64::MAX by {
                    assert(gli[j] == g_lo@[j] as int);
                    assert(ints64(rd@)[j] == rd@[j] as int);
                    assert(gei[j] == g_ext@[j] as int);
                }
            }
            let g = add_vec(&g_lo, &rd);
            let ghost gi = ints64(g@);
            proof {
                assert(gi == add_seq(gli, ints64(rd@)));
                assert forall|j: int| 0 <= j < n implies gli[j] <= #[trigger] gi[j] < gli[j]
                    + gei[j] by {
                    assert(gi[j] == gli[j] + ints64(rd@)[j]);
                }
                assert(in_box(gi, gli, gei));
                assert(sub_seq(gi, gli) =~= ints64(rd@));
                assert(lin(sub_seq(gi, gli), gei) == ii);
            }
            match self.read_block(path_name, attrs, &g) {
                Err(e) => {
                    proof {
                        assert(!self.block_ok(path_name@, *attrs, gi));
                        assert(!box_readable(*self, path_name@, *attrs, ti, di));
                    }
                    return Err(N5Error::CorruptBlock);
                },
                Ok(None) => {
                    // never written: the fill already in place is right
                    proof {
                        assert forall|p: Seq<int>| #[trigger] in_shape(p, di) implies elem(
                            out@,
                            lin(p, di),
                            es,
                        ) == (if 0 <= lin(sub_seq(grid_of(add_seq(ti, p), bsi), gli), gei) < ii + 1 {
                            ds_elem(*self, path_name@, *attrs, add_seq(ti, p), fill_value@)
                        } else {
                            fill_value@
                        }) by {
                            let q = add_seq(ti, p);
                            let gq = grid_of(q, bsi);
                            assert(in_box(q, ti, di)) by {
                                assert forall|j: int| 0 <= j < n implies ti[j] <= #[trigger] q[j]
                                    < ti[j] + di[j] by {
                                    assert(q[j] == ti[j] + p[j]);
                                }
                            }
                            lemma_grid_in_rect(ti, di, bsi, q);
                            lemma_lin_bounds(sub_seq(gq, gli), gei);
                            if lin(sub_seq(gq, gli), gei) == ii {
                                crate::coords::lemma_lin_inj(
                                    sub_seq(gq, gli),
                                    sub_seq(gi, gli),
                                    gei,
                                );
                                assert(gq =~= gi);
                                assert(ds_elem(*self, path_name@, *attrs, q, fill_value@)
                                    == fill_value@);
                            }
                        }
                    }
                },
                Ok(Some(content)) => {
                    let (reg, soff, doff) = block_window(&g, translation, dimensions, &bs64);
                    let ghost pre_out = out@;
                    proof {
                        lemma_prod_pos(bsi);
                        assert(content@.len() == prod(bsi) * es);
                        assert(prod(bsi) * es >= 1 * 1) by (nonlinear_arith)
                            requires
                                prod(bsi) >= 1,
                                es >= 1,
                        ;
                    }
                    copy_region(&content, &bs64, &soff, &mut out, dimensions, &doff, &reg, esize);
                    proof {
                        let lo_w = isect_lo(ti, gi, bsi);
                        let hi_w = isect_hi(ti, di, gi, bsi);
                        let wext = sub_seq(hi_w, lo_w);
                        assert forall|p: Seq<int>| #[trigger] in_shape(p, di) implies elem(
                            out@,
                            lin(p, di),
                            es,
                        ) == (if 0 <= lin(sub_seq(grid_of(add_seq(ti, p), bsi), gli), gei) < ii + 1 {
                            ds_elem(*self, path_name@, *attrs, add_seq(ti, p), fill_value@)
                        } else {
                            fill_value@
                        }) by {
                            let q = add_seq(ti, p);
                            let gq = grid_of(q, bsi);
                            assert(in_box(q, ti, di)) by {
                                assert forall|j: int| 0 <= j < n implies ti[j] <= #[trigger] q[j]
                                    < ti[j] + di[j] by {
                                    assert(q[j] == ti[j] + p[j]);
                                }
                            }
                            lemma_grid_in_rect(ti, di, bsi, q);
                            lemma_lin_bounds(sub_seq(gq, gli), gei);
                            lemma_window_member(ti, di, bsi, gi, q);
                            if lin(sub_seq(gq, gli), gei) == ii {
                                crate::coords::lemma_lin_inj(
                                    sub_seq(gq, gli),
                                    sub_seq(gi, gli),
                                    gei,
                                );
                                assert(gq =~= gi);
                                // q lies in this block's window: its bytes were copied
                                assert(in_box(q, lo_w, wext));
                                let pw = sub_seq(q, lo_w);
                                assert(in_shape(pw, ints64(reg@))) by {
                                    assert forall|j: int| 0 <= j < n implies 0 <= #[trigger] pw[j]
                                        < ints64(reg@)[j] by {
                                        assert(pw[j] == q[j] - lo_w[j]);
                                    }
                                }
                                assert(add_seq(ints64(doff@), pw) =~= p) by {
                                    assert forall|j: int|
                                        0 <= j < n implies #[trigger] add_seq(ints64(doff@), pw)[j]
                                        == p[j] by {
                                        assert(ints64(doff@)[j] == lo_w[j] - ti[j]);
                                        assert(pw[j] == q[j] - lo_w[j]);
                                        assert(q[j] == ti[j] + p[j]);
                                    }
                                }
                                assert(add_seq(ints64(soff@), pw) =~= local_of(q, bsi)) by {
                                    assert(local_of(q, bsi) =~= sub_seq(
                                        q,
                                        block_origin_of(gi, bsi),
                                    ));
                                    assert forall|j: int|
                                        0 <= j < n implies #[trigger] add_seq(ints64(soff@), pw)[j]
                                        == sub_seq(q, block_origin_of(gi, bsi))[j] by {
                                        assert(ints64(soff@)[j] == lo_w[j] - gi[j] * bsi[j]);
                                        assert(pw[j] == q[j] - lo_w[j]);
                                        assert(block_origin_of(gi, bsi)[j] == gi[j] * bsi[j]);
                                    }
                                }
                                assert(elem(out@, lin(p, di), es) == elem(
                                    content@,
                                    lin(local_of(q, bsi), bsi),
                                    es,
                                ));
                                assert(ds_elem(*self, path_name@, *attrs, q, fill_value@) == elem(
                                    content@,
                                    lin(local_of(q, bsi), bsi),
                                    es,
                                ));
                            } else {
                                // another block's element: untouched by this copy
                                assert(gq != gi);
                                assert(!in_box(q, lo_w, wext)) by {
                                    if in_box(q, lo_w, wext) {
                                        assert(gq == gi);
                                    }
                                }
                                assert(!in_box(p, ints64(doff@), ints64(reg@))) by {
                                    if in_box(p, ints64(doff@), ints64(reg@)) {
                                        assert forall|j: int|
                                            0 <= j < n implies lo_w[j] <= #[trigger] q[j] < lo_w[j]
                                            + wext[j] by {
                                            assert(ints64(doff@)[j] <= p[j] < ints64(doff@)[j]
                                                + ints64(reg@)[j]);
                                            assert(q[j] == ti[j] + p[j]);
                                            assert(ints64(doff@)[j] == lo_w[j] - ti[j]);
                                        }
                                        assert(in_box(q, lo_w, wext));
                                    }
                                }
                                assert(elem(out@, lin(p, di), es) == elem(pre_out, lin(p, di), es));
                            }
                        }
                    }
                },
            }
            proof {
                assert(self.block_ok(path_name@, *attrs, gi));
                assert forall|g2: Seq<int>|
                    in_box(g2, gli, gei) && 0 <= lin(sub_seq(g2, gli), gei) < ii + 1
                        implies #[trigger] self.block_ok(path_name@, *attrs, g2) by {
                    if lin(sub_seq(g2, gli), gei) == ii {
                        assert forall|j: int| 0 <= j < n implies 0 <= #[trigger] sub_seq(
                            g2,
                            gli,
                        )[j] < gei[j] by {
                            assert(gli[j] <= g2[j] < gli[j] + gei[j]);
                        }
                        assert(in_shape(sub_seq(g2, gli), gei));
                        crate::coords::lemma_lin_inj(sub_seq(g2, gli), sub_seq(gi, gli), gei);
                        assert forall|j: int| 0 <= j < n implies #[trigger] g2[j] == gi[j] by {
                            assert(sub_seq(g2, gli)[j] == sub_seq(gi, gli)[j]);
                        }
                        assert(g2 =~= gi);
                    }
                }
            }
            more = odo_next(&mut rd, &g_ext);
            proof {
                if more {
                    lemma_lin_bounds(ints64(rd@), gei);
                }
                ii = ii + 1;
            }
        }
        proof {
            assert forall|g2: Seq<int>|
                in_box(g2, rect_lo(ti, bsi), rect_ext(ti, di, bsi)) implies #[trigger] self.block_ok(
                path_name@,
                *attrs,
                g2,
            ) by {
                assert forall|j: int| 0 <= j < n implies 0 <= #[trigger] sub_seq(g2, gli)[j]
                    < gei[j] by {
                    assert(gli[j] <= g2[j] < gli[j] + gei[j]);
                }
                assert(in_shape(sub_seq(g2, gli), gei));
                lemma_lin_bounds(sub_seq(g2, gli), gei);
            }
            assert forall|p: Seq<int>| #[trigger] in_shape(p, di) implies elem(
                out@,
                lin(p, di),
                es,
            ) == ds_elem(*self, path_name@, *attrs, add_seq(ti, p), fill_value@) by {
                let q = add_seq(ti, p);
                assert(in_box(q, ti, di)) by {
                    assert forall|j: int| 0 <= j < n implies ti[j] <= #[trigger] q[j] < ti[j]
                        + di[j] by {
                        assert(q[j] == ti[j] + p[j]);
                    }
                }
                lemma_grid_in_rect(ti, di, bsi, q);
                let gq = grid_of(q, bsi);
                assert forall|j: int| 0 <= j < n implies 0 <= #[trigger] sub_seq(gq, gli)[j]
                    < gei[j] by {
                    assert(gli[j] <= gq[j] < gli[j] + gei[j]);
                }
                assert(in_shape(sub_seq(gq, gli), gei));
                lemma_lin_bounds(sub_seq(gq, gli), gei);
            }
        }
        Ok(out)
    }
}

/// Compute the rectangle of grid coordinates whose blocks overlap the
/// box: its low corner and per-axis extents.
#[verifier::spinoff_prover]
#[verifier::rlimit(60)]
fn grid_rect(translation: &Vec<i64>, dimensions: &Vec<i64>, bs64: &Vec<i64>) -> (r: (
    Vec<i64>,
    Vec<i64>,
))
    requires
        dimensions@.len() == translation@.len(),
        bs64@.len() == translation@.len(),
        all_nonneg(ints64(translation@)),
        all_nonneg(ints64(dimensions@)),
        all_pos(ints64(bs64@)),
        forall|j: int|
            0 <= j < translation@.len() ==> #[trigger] ints64(translation@)[j] + ints64(
                dimensions@,
            )[j] <= i64::MAX,
    ensures
        r.0@.len() == translation@.len(),
        r.1@.len() == translation@.len(),
        ints64(r.0@) == rect_lo(ints64(translation@), ints64(bs64@)),
        ints64(r.1@) == rect_ext(ints64(translation@), ints64(dimensions@), ints64(bs64@)),
        forall|j: int|
            0 <= j < translation@.len() ==> #[trigger] ints64(r.0@)[j] + ints64(r.1@)[j]
                <= i64::MAX,
        forall|j: int|
            0 <= j < translation@.len() && ints64(dimensions@)[j] >= 1 ==> #[trigger] ints64(
                r.1@,
            )[j] >= 1,
        all_nonneg(ints64(r.1@)),
{
    let n = translation.len();
    let ghost ti = ints64(translation@);
    let ghost di = ints64(dimensions@);
    let ghost bi = ints64(bs64@);
    let mut lo: Vec<i64> = Vec::new();
    let mut ext: Vec<i64> = Vec::new();
    let mut j: usize = 0;
    while j < n
        invariant
            n == translation@.len(),
            n == dimensions@.len(),
            n == bs64@.len(),
            ti == ints64(translation@),
            di == ints64(dimensions@),
            bi == ints64(bs64@),
            all_nonneg(ti),
            all_nonneg(di),
            all_pos(bi),
            forall|j2: int| 0 <= j2 < n ==> #[trigger] ti[j2] + di[j2] <= i64::MAX,
            0 <= j <= n,
            lo@.len() == j,
            ext@.len() == j,
            forall|k: int|
                0 <= k < j ==> #[trigger] ints64(lo@)[k] == rect_lo(ti, bi)[k] && ints64(ext@)[k]
                    == rect_ext(ti, di, bi)[k] && ints64(lo@)[k] + ints64(ext@)[k] <= i64::MAX
                    && ints64(ext@)[k] >= 0 && (di[k] >= 1 ==> ints64(ext@)[k] >= 1),
        decreases n - j,
    {
        proof {
            assert(ti[j as int] == translation@[j as int] as int);
            assert(di[j as int] == dimensions@[j as int] as int);
            assert(bi[j as int] == bs64@[j as int] as int);
        }
        let t = translation[j];
        let d = dimensions[j];
        let b = bs64[j];
        let lo_j = ((t as u64) / (b as u64)) as i64;
        proof {
            lemma_div_pos_is_pos(ti[j as int], bi[j as int]);
            vstd::arithmetic::div_mod::lemma_div_nonincreasing(ti[j as int], bi[j as int]);
        }
        let ext_j: i64 = if d == 0 {
            0
        } else {
            proof {
                lemma_div_is_ordered(ti[j as int], ti[j as int] + di[j as int] - 1, bi[j as int]);
                vstd::arithmetic::div_mod::lemma_div_nonincreasing(
                    ti[j as int] + di[j as int] - 1,
                    bi[j as int],
                );
            }
            let hi_j = (((t + d - 1) as u64) / (b as u64)) as i64;
            hi_j + 1 - lo_j
        };
        let ghost pre_lo = lo@;
        let ghost pre_ext = ext@;
        lo.push(lo_j);
        ext.push(ext_j);
        proof {
            assert forall|k: int|
                0 <= k < j + 1 implies #[trigger] ints64(lo@)[k] == rect_lo(ti, bi)[k] && ints64(
                ext@,
            )[k] == rect_ext(ti, di, bi)[k] && ints64(lo@)[k] + ints64(ext@)[k] <= i64::MAX
                && ints64(ext@)[k] >= 0 && (di[k] >= 1 ==> ints64(ext@)[k] >= 1) by {
                assert(ints64(lo@)[k] == lo@[k] as int);
                assert(ints64(ext@)[k] == ext@[k] as int);
                if k < j {
                    assert(lo@[k] == pre_lo[k]);
                    assert(ext@[k] == pre_ext[k]);
                    assert(ints64(pre_lo)[k] == pre_lo[k] as int);
                    assert(ints64(pre_ext)[k] == pre_ext[k] as int);
                } else {
                    assert(lo@[k] == lo_j);
                    assert(ext@[k] == ext_j);
                    assert(rect_lo(ti, bi)[k] == ti[k] / bi[k]);
                    assert(rect_ext(ti, di, bi)[k] == (if di[k] <= 0 {
                        0int
                    } else {
                        (ti[k] + di[k] - 1) / bi[k] + 1 - ti[k] / bi[k]
                    }));
                }
            }
        }
        j += 1;
    }
    proof {
        assert forall|k: int|
            #![trigger ints64(lo@)[k]]
            #![trigger ints64(ext@)[k]]
            0 <= k < n implies ints64(lo@)[k] == rect_lo(ti, bi)[k] && ints64(ext@)[k] == rect_ext(
            ti,
            di,
            bi,
        )[k] && ints64(lo@)[k] + ints64(ext@)[k] <= i64::MAX && ints64(ext@)[k] >= 0 && (di[k] >= 1
            ==> ints64(ext@)[k] >= 1) by {
            assert(ints64(lo@)[k] == rect_lo(ti, bi)[k]);
        }
        assert(ints64(lo@) =~= rect_lo(ti, bi));
        assert(ints64(ext@) =~= rect_ext(ti, di, bi));
    }
    (lo, ext)
}


/// Whole-block coverage per axis: the intersection window spans the
/// block exactly when the box reaches past both of its edges.
proof fn lemma_covered_axis(t: int, d: int, b: int, g: int)
    requires
        0 <= t,
        1 <= d,
        0 < b,
        t / b <= g,
        g <= (t + d - 1) / b,
    ensures
        (min_i(t + d, (g + 1) * b) - max_i(t, g * b) == b) <==> (t <= g * b && (g + 1) * b <= t
            + d),
{
    lemma_axis(t, d, b, g);
    assert((g + 1) * b == g * b + b) by (nonlinear_arith);
}

/// A written block's description depends only on the stored bytes at
/// its own coordinate: it survives writes elsewhere.
proof fn lemma_written_block_stable(
    s0: N5Store,
    sa: N5Store,
    sb: N5Store,
    path: Seq<char>,
    attrs: DatasetAttributes,
    t: Seq<int>,
    d: Seq<int>,
    arr: Seq<u8>,
    fill: Seq<u8>,
    g: Seq<int>,
)
    requires
        written_block_ok(s0, sa, path, attrs, t, d, arr, fill, g),
        sb.blk(path, g) == sa.blk(path, g),
    ensures
        written_block_ok(s0, sb, path, attrs, t, d, arr, fill, g),
{
    let bs = attrs.bs();
    let es = attrs.esize();
    let payload = sa.blk(path, g)->0;
    let content = decompress_spec(attrs.compression, payload)->0;
    assert forall|pl: Seq<int>| #[trigger] in_shape(pl, bs) implies elem(
        decompress_spec(attrs.compression, sb.blk(path, g)->0)->0,
        lin(pl, bs),
        es,
    ) == (if in_box(add_seq(block_origin_of(g, bs), pl), t, d) {
        elem(arr, lin(sub_seq(add_seq(block_origin_of(g, bs), pl), t), d), es)
    } else {
        ds_elem(s0, path, attrs, add_seq(block_origin_of(g, bs), pl), fill)
    }) by {
        assert(elem(content, lin(pl, bs), es) == (if in_box(
            add_seq(block_origin_of(g, bs), pl),
            t,
            d,
        ) {
            elem(arr, lin(sub_seq(add_seq(block_origin_of(g, bs), pl), t), d), es)
        } else {
            ds_elem(s0, path, attrs, add_seq(block_origin_of(g, bs), pl), fill)
        }));
    }
}

/// What a scattering write leaves behind: records untouched, blocks
/// outside the box's rectangle untouched, and every block of the
/// rectangle holding the composed content.
pub open spec fn write_nd_post(
    s0: N5Store,
    s1: N5Store,
    path: Seq<char>,
    attrs: DatasetAttributes,
    t: Seq<int>,
    d: Seq<int>,
    arr: Seq<u8>,
    fill: Seq<u8>,
) -> bool {
    &&& crate::store::records_same(s0, s1)
    &&& forall|p: Seq<char>, c: Seq<int>|
        !(p == path && in_box(c, rect_lo(t, attrs.bs()), rect_ext(t, d, attrs.bs())))
            ==> #[trigger] s1.blk(p, c) == s0.blk(p, c)
    &&& forall|g: Seq<int>|
        #[trigger] in_box(g, rect_lo(t, attrs.bs()), rect_ext(t, d, attrs.bs()))
            ==> written_block_ok(s0, s1, path, attrs, t, d, arr, fill, g)
}

/// Block `g` after the write: the stored bytes are the compressed
/// composition of the incoming array over the old content (or fill
/// where the block was absent).
pub open spec fn written_block_ok(
    s0: N5Store,
    s1: N5Store,
    path: Seq<char>,
    attrs: DatasetAttributes,
    t: Seq<int>,
    d: Seq<int>,
    arr: Seq<u8>,
    fill: Seq<u8>,
    g: Seq<int>,
) -> bool {
    let bs = attrs.bs();
    let es = attrs.esize();
    let payload = s1.blk(path, g)->0;
    let content = decompress_spec(attrs.compression, payload)->0;
    &&& s1.blk(path, g) is Some
    &&& decompress_spec(attrs.compression, payload) is Some
    &&& payload == compress_spec(attrs.compression, content)
    &&& content.len() == attrs.spec_block_elems() * es
    &&& forall|pl: Seq<int>|
        #[trigger] in_shape(pl, bs) ==> elem(content, lin(pl, bs), es) == (if in_box(
            add_seq(block_origin_of(g, bs), pl),
            t,
            d,
        ) {
            elem(arr, lin(sub_seq(add_seq(block_origin_of(g, bs), pl), t), d), es)
        } else {
            ds_elem(s0, path, attrs, add_seq(block_origin_of(g, bs), pl), fill)
        })
}

impl N5Store {
    /// Scatter a dense row-major byte array over the box
    /// `(translation, dimensions)`.  Blocks the box covers entirely
    /// are overwritten outright; a block it covers partially is first
    /// read (or taken as all `fill_value` when absent) so that its
    /// untouched elements keep their bytes, then written back whole.
    /// Fails with `DatasetNotFound` when the dataset does not exist,
    /// and with `CorruptBlock` when a partially covered block is
    /// unreadable; block writes before such a failure remain, as the
    /// operation is not transactional across blocks.
    #[verifier::spinoff_prover]
    #[verifier::rlimit(100)]
    pub fn write_ndarray(
        &mut self,
        path_name: &str,
        attrs: &DatasetAttributes,
        translation: &Vec<i64>,
        dimensions: &Vec<i64>,
        data: &Vec<u8>,
        fill_value: &Vec<u8>,
    ) -> (r: Result<(), N5Error>)
        requires
            old(self).wf(),
            attrs.wf(),
            box_wf(*attrs, ints64(translation@), ints64(dimensions@)),
            prod(ints64(dimensions@)) * attrs.esize() <= usize::MAX,
            data@.len() == prod(ints64(dimensions@)) * attrs.esize(),
            fill_value@.len() == attrs.esize(),
        ensures
            final(self).wf(),
            match r {
                Ok(()) => old(self).has_dataset(path_name@) && partials_readable(
                    *old(self),
                    path_name@,
                    *attrs,
                    ints64(translation@),
                    ints64(dimensions@),
                ) && write_nd_post(
                    *old(self),
                    *final(self),
                    path_name@,
                    *attrs,
                    ints64(translation@),
                    ints64(dimensions@),
                    data@,
                    fill_value@,
                ),
                Err(e) => match e {
                    N5Error::DatasetNotFound => !old(self).has_dataset(path_name@) && *final(self)
                        == *old(self),
                    N5Error::CorruptBlock => old(self).has_dataset(path_name@)
                        && !partials_readable(
                        *old(self),
                        path_name@,
                        *attrs,
                        ints64(translation@),
                        ints64(dimensions@),
                    ) && crate::store::records_same(*old(self), *final(self)) && (forall|
                        p: Seq<char>,
                        c: Seq<int>,
                    |
                        !(p == path_name@ && in_box(
                            c,
                            rect_lo(ints64(translation@), attrs.bs()),
                            rect_ext(ints64(translation@), ints64(dimensions@), attrs.bs()),
                        )) ==> #[trigger] final(self).blk(p, c) == old(self).blk(p, c)),
                    _ => false,
                },
            },
    {
        let ghost s0 = *old(self);
        let ghost ti = ints64(translation@);
        let ghost di = ints64(dimensions@);
        let ghost bsi = attrs.bs();
        let ghost es = attrs.esize();
        if !self.dataset_exists(path_name) {
            return Err(N5Error::DatasetNotFound);
        }
        let esize = attrs.data_type.size_bytes();
        let n = translation.len();

        // an empty box: nothing to scatter
        let mut jz: usize = 0;
        while jz < n
            invariant
                attrs.wf(),
                n == translation@.len(),
                n == dimensions@.len(),
                n == attrs.block_size@.len(),
                ti == ints64(translation@),
                di == ints64(dimensions@),
                bsi == attrs.bs(),
                s0 == *self,
                s0 == *old(self),
                self.wf(),
                self.has_dataset(path_name@),
                all_nonneg(di),
                0 <= jz <= n,
                forall|k: int| 0 <= k < jz ==> #[trigger] di[k] >= 1,
            decreases n - jz,
        {
            proof {
                assert(di[jz as int] == dimensions@[jz as int] as int);
            }
            if dimensions[jz] == 0 {
                proof {
                    assert forall|g: Seq<int>|
                        #[trigger] in_box(g, rect_lo(ti, bsi), rect_ext(ti, di, bsi)) implies false by {
                        assert(rect_ext(ti, di, bsi)[jz as int] == 0);
                        assert(rect_lo(ti, bsi)[jz as int] <= g[jz as int] < rect_lo(
                            ti,
                            bsi,
                        )[jz as int] + rect_ext(ti, di, bsi)[jz as int]);
                    }
                }
                return Ok(());
            }
            jz += 1;
        }
        proof {
            assert(all_pos(di));
            lemma_prod_pos(di);
            assert(prod(di) <= prod(di) * es) by (nonlinear_arith)
                requires
                    prod(di) >= 1,
                    es >= 1,
            ;
        }

        let bc = attrs.block_count();
        let bb = attrs.block_bytes();
        let bs64 = bs_to_i64(&attrs.block_size);
        let (g_lo, g_ext) = grid_rect(translation, dimensions, &bs64);
        let ghost gli = ints64(g_lo@);
        let ghost gei = ints64(g_ext@);

        let mut rd = zero_vec(n);
        let mut more = true;
        let ghost mut ii: int = 0;
        proof {
            assert forall|j: int| 0 <= j < n implies #[trigger] gei[j] >= 1 by {}
            assert(all_pos(gei));
            assert(in_shape(ints64(rd@), gei));
            crate::coords::lemma_lin_zero(gei);
            lemma_prod_pos(gei);
            lemma_prod_pos(bsi);
            assert(prod(bsi) * es >= 1 * 1) by (nonlinear_arith)
                requires
                    prod(bsi) >= 1,
                    es >= 1,
            ;
        }
        while more
            invariant
                attrs.wf(),
                self.wf(),
                n == translation@.len(),
                n == dimensions@.len(),
                n == attrs.block_size@.len(),
                bs64@.len() == n,
                g_lo@.len() == n,
                g_ext@.len() == n,
                rd@.len() == n,
                ti == ints64(translation@),
                di == ints64(dimensions@),
                bsi == attrs.bs(),
                es == attrs.esize(),
                esize == es,
                bc == attrs.spec_block_elems(),
                bb == attrs.spec_block_elems() * es,
                ints64(bs64@) == bsi,
                gli == ints64(g_lo@),
                gei == ints64(g_ext@),
                gli == rect_lo(ti, bsi),
                gei == rect_ext(ti, di, bsi),
                all_nonneg(ti),
                all_nonneg(di),
                all_pos(bsi),
                all_pos(gei),
                forall|j: int| 0 <= j < n ==> #[trigger] di[j] >= 1,
                forall|j: int| 0 <= j < n ==> #[trigger] ti[j] + di[j] <= i64::MAX,
                forall|j: int| 0 <= j < n ==> #[trigger] gli[j] + gei[j] <= i64::MAX,
                s0 == *old(self),
                s0.wf(),
                s0.has_dataset(path_name@),
                self.has_dataset(path_name@),
                fill_value@.len() == es,
                data@.len() == prod(di) * es,
                prod(di) * es <= usize::MAX,
                prod(bsi) * es >= 1,
                crate::store::records_same(s0, *self),
                more ==> in_shape(ints64(rd@), gei) && ii == lin(ints64(rd@), gei),
                !more ==> ii == prod(gei),
                0 <= ii <= prod(gei),
                forall|p: Seq<char>, c: Seq<int>|
                    !(p == path_name@ && in_box(c, gli, gei)) ==> #[trigger] self.blk(p, c)
                        == s0.blk(p, c),
                forall|g: Seq<int>|
                    in_box(g, gli, gei) && lin(sub_seq(g, gli), gei) >= ii ==> #[trigger] self.blk(
                        path_name@,
                        g,
                    ) == s0.blk(path_name@, g),
                forall|g: Seq<int>|
                    #![trigger in_box(g, gli, gei)]
                    in_box(g, gli, gei) && 0 <= lin(sub_seq(g, gli), gei) < ii ==> (covers(
                        ti,
                        di,
                        bsi,
                        g,
                    ) || s0.block_ok(path_name@, *attrs, g)) && written_block_ok(
                        s0,
                        *self,
                        path_name@,
                        *attrs,
                        ti,
                        di,
                        data@,
                        fill_value@,
                        g,
                    ),
            decreases prod(gei) - ii,
        {
            proof {
                assert forall|j: int| 0 <= j < n implies i64::MIN <= #[trigger] g_lo@[j]
                    + rd@[j] <= i64::MAX by {
                    assert(gli[j] == g_lo@[j] as int);
                    assert(ints64(rd@)[j] == rd@[j] as int);
                    assert(gei[j] == g_ext@[j] as int);
                }
            }
            let g = add_vec(&g_lo, &rd);
            let ghost gi = ints64(g@);
            proof {
                assert(gi == add_seq(gli, ints64(rd@)));
                assert forall|j: int| 0 <= j < n implies gli[j] <= #[trigger] gi[j] < gli[j]
                    + gei[j] by {
                    assert(gi[j] == gli[j] + ints64(rd@)[j]);
                }
                assert(in_box(gi, gli, gei));
                assert(sub_seq(gi, gli) =~= ints64(rd@));
                assert(lin(sub_seq(gi, gli), gei) == ii);
                assert(self.blk(path_name@, gi) == s0.blk(path_name@, gi));
            }
            let (reg, soff, doff) = block_window(&g, translation, dimensions, &bs64);

            // does the box cover this block entirely?
            let mut covered = true;
            let ghost mut jbad: int = 0;
            let mut jc: usize = 0;
            while jc < n
                invariant
                    n == reg@.len(),
                    n == bs64@.len(),
                    0 <= jc <= n,
                    covered ==> forall|k: int|
                        0 <= k < jc ==> #[trigger] ints64(reg@)[k] == ints64(bs64@)[k],
                    !covered ==> 0 <= jbad < n && ints64(reg@)[jbad] != ints64(bs64@)[jbad],
                decreases n - jc,
            {
                if reg[jc] != bs64[jc] {
                    covered = false;
                    proof {
                        jbad = jc as int;
                        assert(ints64(reg@)[jc as int] == reg@[jc as int] as int);
                        assert(ints64(bs64@)[jc as int] == bs64@[jc as int] as int);
                    }
                }
                jc += 1;
            }
            proof {
                assert forall|j: int|
                    0 <= j < n implies ((#[trigger] ints64(reg@)[j] == bsi[j]) <==> (ti[j] <= gi[j]
                    * bsi[j] && (gi[j] + 1) * bsi[j] <= ti[j] + di[j])) by {
                    assert(rect_lo(ti, bsi)[j] <= gi[j] < rect_lo(ti, bsi)[j] + rect_ext(
                        ti,
                        di,
                        bsi,
                    )[j]);
                    lemma_covered_axis(ti[j], di[j], bsi[j], gi[j]);
                    assert(ints64(reg@)[j] == isect_hi(ti, di, gi, bsi)[j] - isect_lo(
                        ti,
                        gi,
                        bsi,
                    )[j]);
                }
                if covered {
                    assert(covers(ti, di, bsi, gi)) by {
                        assert forall|j: int| 0 <= j < gi.len() implies ti[j] <= #[trigger] (gi[j]
                            * bsi[j]) && (gi[j] + 1) * bsi[j] <= ti[j] + di[j] by {
                            assert(ints64(reg@)[j] == ints64(bs64@)[j]);
                        }
                    }
                } else {
                    assert(!covers(ti, di, bsi, gi)) by {
                        if covers(ti, di, bsi, gi) {
                            assert(ti[jbad] <= gi[jbad] * bsi[jbad] && (gi[jbad] + 1) * bsi[jbad]
                                <= ti[jbad] + di[jbad]);
                            assert(ints64(reg@)[jbad] == bsi[jbad]);
                        }
                    }
                }
            }

            // the block's prior content, or all fill where absent
            let mut buf: Vec<u8>;
            let ghost mut had_block: bool = false;
            if covered {
                buf = fill_buffer(bc, fill_value);
            } else {
                match self.read_block(path_name, attrs, &g) {
                    Err(e) => {
                        proof {
                            assert(!self.block_ok(path_name@, *attrs, gi));
                            assert(!s0.block_ok(path_name@, *attrs, gi));
                            assert(!partials_readable(s0, path_name@, *attrs, ti, di));
                        }
                        return Err(N5Error::CorruptBlock);
                    },
                    Ok(None) => {
                        buf = fill_buffer(bc, fill_value);
                    },
                    Ok(Some(content)) => {
                        buf = content;
                        proof {
                            had_block = true;
                        }
                    },
                }
            }
            proof {
                assert(buf@.len() == prod(bsi) * es);
                if !had_block && !covered {
                    assert(self.blk(path_name@, gi) is None);
                }
            }
            let ghost buf0 = buf@;
            copy_region(data, dimensions, &doff, &mut buf, &bs64, &soff, &reg, esize);
            let payload = crate::codec::compress(&attrs.compression, &buf);
            let ghost newpayload = payload@;
            let ghost newcontent = buf@;
            let ghost pre_store = *self;
            self.put_block_payload(path_name, &g, payload);
            proof {
                let lo_w = isect_lo(ti, gi, bsi);
                let hi_w = isect_hi(ti, di, gi, bsi);
                let wext = sub_seq(hi_w, lo_w);
                // this block now holds the composed content
                assert(self.blk(path_name@, gi) == Some(newpayload));
                assert(decompress_spec(attrs.compression, newpayload) == Some(newcontent));
                assert(written_block_ok(
                    s0,
                    *self,
                    path_name@,
                    *attrs,
                    ti,
                    di,
                    data@,
                    fill_value@,
                    gi,
                )) by {
                    assert forall|pl: Seq<int>| #[trigger] in_shape(pl, bsi) implies elem(
                        newcontent,
                        lin(pl, bsi),
                        es,
                    ) == (if in_box(add_seq(block_origin_of(gi, bsi), pl), ti, di) {
                        elem(
                            data@,
                            lin(sub_seq(add_seq(block_origin_of(gi, bsi), pl), ti), di),
                            es,
                        )
                    } else {
                        ds_elem(s0, path_name@, *attrs, add_seq(block_origin_of(gi, bsi), pl), fill_value@)
                    }) by {
                        let q = add_seq(block_origin_of(gi, bsi), pl);
                        assert forall|j: int| 0 <= j < n implies gi[j] * bsi[j] <= #[trigger] q[j]
                            < (gi[j] + 1) * bsi[j] by {
                            assert(block_origin_of(gi, bsi)[j] == gi[j] * bsi[j]);
                            assert(q[j] == gi[j] * bsi[j] + pl[j]);
                            assert((gi[j] + 1) * bsi[j] == gi[j] * bsi[j] + bsi[j]) by (nonlinear_arith);
                        }
                        assert forall|j: int| 0 <= j < n implies #[trigger] grid_of(q, bsi)[j]
                            == gi[j] && local_of(q, bsi)[j] == pl[j] by {
                            lemma_axis(ti[j], di[j], bsi[j], gi[j]);
                            lemma_q_in_block(q[j], bsi[j], gi[j]);
                            assert(q[j] - gi[j] * bsi[j] == pl[j]);
                        }
                        assert(grid_of(q, bsi) =~= gi);
                        assert(local_of(q, bsi) =~= pl);
                        lemma_window_member(ti, di, bsi, gi, q);
                        lemma_lin_bounds(pl, bsi);
                        if in_box(q, ti, di) {
                            // inside the box: the window copy placed the array's bytes
                            assert(in_box(q, lo_w, wext));
                            let pw = sub_seq(q, lo_w);
                            assert(in_shape(pw, ints64(reg@))) by {
                                assert forall|j: int| 0 <= j < n implies 0 <= #[trigger] pw[j]
                                    < ints64(reg@)[j] by {
                                    assert(pw[j] == q[j] - lo_w[j]);
                                }
                            }
                            assert(add_seq(ints64(soff@), pw) =~= pl) by {
                                assert forall|j: int|
                                    0 <= j < n implies #[trigger] add_seq(ints64(soff@), pw)[j]
                                    == pl[j] by {
                                    assert(ints64(soff@)[j] == lo_w[j] - gi[j] * bsi[j]);
                                    assert(pw[j] == q[j] - lo_w[j]);
                                    assert(q[j] == gi[j] * bsi[j] + pl[j]);
                                }
                            }
                            assert(add_seq(ints64(doff@), pw) =~= sub_seq(q, ti)) by {
                                assert forall|j: int|
                                    0 <= j < n implies #[trigger] add_seq(ints64(doff@), pw)[j]
                                    == sub_seq(q, ti)[j] by {
                                    assert(ints64(doff@)[j] == lo_w[j] - ti[j]);
                                    assert(pw[j] == q[j] - lo_w[j]);
                                }
                            }
                            assert(elem(newcontent, lin(pl, bsi), es) == elem(
                                data@,
                                lin(sub_seq(q, ti), di),
                                es,
                            ));
                        } else {
                            // outside the box: the prior bytes survived the copy
                            assert(!in_box(q, lo_w, wext));
                            assert(!in_box(pl, ints64(soff@), ints64(reg@))) by {
                                if in_box(pl, ints64(soff@), ints64(reg@)) {
                                    assert forall|j: int|
                                        0 <= j < n implies lo_w[j] <= #[trigger] q[j] < lo_w[j]
                                        + wext[j] by {
                                        assert(ints64(soff@)[j] <= pl[j] < ints64(soff@)[j]
                                            + ints64(reg@)[j]);
                                        assert(ints64(soff@)[j] == lo_w[j] - gi[j] * bsi[j]);
                                        assert(q[j] == gi[j] * bsi[j] + pl[j]);
                                    }
                                    assert(in_box(q, lo_w, wext));
                                }
                            }
                            assert(elem(newcontent, lin(pl, bsi), es) == elem(
                                buf0,
                                lin(pl, bsi),
                                es,
                            ));
                            if covered {
                                assert(covers(ti, di, bsi, gi));
                                assert(ti[0] <= gi[0] * bsi[0] && (gi[0] + 1) * bsi[0] <= ti[0]
                                    + di[0]);
                                assert forall|j: int| 0 <= j < n implies ti[j] <= #[trigger] q[j]
                                    && q[j] < ti[j] + di[j] by {
                                    assert(ti[j] <= gi[j] * bsi[j] && (gi[j] + 1) * bsi[j] <= ti[j]
                                        + di[j]);
                                }
                                assert(in_box(q, ti, di));
                                assert(false);
                            } else if had_block {
                                assert(elem(buf0, lin(pl, bsi), es) == ds_elem(
                                    s0,
                                    path_name@,
                                    *attrs,
                                    q,
                                    fill_value@,
                                ));
                            } else {
                                assert(elem(buf0, lin(pl, bsi), es) == fill_value@);
                                assert(s0.blk(path_name@, gi) is None);
                                assert(ds_elem(s0, path_name@, *attrs, q, fill_value@)
                                    == fill_value@);
                            }
                        }
                    }
                }
                // older blocks keep their new contents; everything else its old ones
                let cur = *self;
                assert forall|g2: Seq<int>|
                    #![trigger in_box(g2, gli, gei)]
                    in_box(g2, gli, gei) && 0 <= lin(sub_seq(g2, gli), gei) < ii + 1 implies (
                covers(ti, di, bsi, g2) || s0.block_ok(path_name@, *attrs, g2))
                    && written_block_ok(
                    s0,
                    cur,
                    path_name@,
                    *attrs,
                    ti,
                    di,
                    data@,
                    fill_value@,
                    g2,
                ) by {
                    assert forall|j: int| 0 <= j < n implies 0 <= #[trigger] sub_seq(g2, gli)[j]
                        < gei[j] by {
                        assert(gli[j] <= g2[j] < gli[j] + gei[j]);
                    }
                    assert(in_shape(sub_seq(g2, gli), gei));
                    if lin(sub_seq(g2, gli), gei) == ii {
                        crate::coords::lemma_lin_inj(sub_seq(g2, gli), sub_seq(gi, gli), gei);
                        assert forall|j: int| 0 <= j < n implies #[trigger] g2[j] == gi[j] by {
                            assert(sub_seq(g2, gli)[j] == sub_seq(gi, gli)[j]);
                        }
                        assert(g2 =~= gi);
                        if !covered {
                            assert(s0.block_ok(path_name@, *attrs, gi));
                        }
                    } else {
                        assert(lin(sub_seq(g2, gli), gei) < ii);
                        assert(g2 != gi) by {
                            if g2 == gi {
                                assert(sub_seq(g2, gli) == sub_seq(gi, gli));
                            }
                        }
                        assert(cur.blk(path_name@, g2) == pre_store.blk(path_name@, g2));
                        assert(written_block_ok(
                            s0,
                            pre_store,
                            path_name@,
                            *attrs,
                            ti,
                            di,
                            data@,
                            fill_value@,
                            g2,
                        ));
                        lemma_written_block_stable(
                            s0,
                            pre_store,
                            cur,
                            path_name@,
                            *attrs,
                            ti,
                            di,
                            data@,
                            fill_value@,
                            g2,
                        );
                    }
                }
            }
            proof {
                assert(self.blk(path_name@, gi) == Some(newpayload));
                assert(written_block_ok(
                    s0,
                    *self,
                    path_name@,
                    *attrs,
                    ti,
                    di,
                    data@,
                    fill_value@,
                    gi,
                ));
            }
            more = odo_next(&mut rd, &g_ext);
            proof {
                if more {
                    lemma_lin_bounds(ints64(rd@), gei);
                }
                ii = ii + 1;
            }
        }
        proof {
            assert forall|g2: Seq<int>|
                #[trigger] in_box(g2, rect_lo(ti, bsi), rect_ext(ti, di, bsi)) implies written_block_ok(
                s0,
                *self,
                path_name@,
                *attrs,
                ti,
                di,
                data@,
                fill_value@,
                g2,
            ) && (covers(ti, di, bsi, g2) || s0.block_ok(path_name@, *attrs, g2)) by {
                assert forall|j: int| 0 <= j < n implies 0 <= #[trigger] sub_seq(g2, gli)[j]
                    < gei[j] by {
                    assert(gli[j] <= g2[j] < gli[j] + gei[j]);
                }
                assert(in_shape(sub_seq(g2, gli), gei));
                lemma_lin_bounds(sub_seq(g2, gli), gei);
            }
        }
        Ok(())
    }
}


/// The grid coordinate of the block holding a global position:
/// floor division by the block extents, per axis.
pub fn to_grid_coordinate(position: &Vec<i64>, block_size: &Vec<i32>) -> (r: Vec<i64>)
    requires
        position@.len() == block_size@.len(),
        all_nonneg(ints64(position@)),
        all_pos(ints32(block_size@)),
    ensures
        r@.len() == position@.len(),
        ints64(r@) == grid_of(ints64(position@), ints32(block_size@)),
{
    let n = position.len();
    let ghost pi = ints64(position@);
    let ghost bi = ints32(block_size@);
    let mut r: Vec<i64> = Vec::new();
    let mut j: usize = 0;
    while j < n
        invariant
            n == position@.len(),
            n == block_size@.len(),
            pi == ints64(position@),
            bi == ints32(block_size@),
            all_nonneg(pi),
            all_pos(bi),
            0 <= j <= n,
            r@.len() == j,
            forall|k: int| 0 <= k < j ==> #[trigger] r@[k] as int == pi[k] / bi[k],
        decreases n - j,
    {
        proof {
            assert(pi[j as int] == position@[j as int] as int);
            assert(bi[j as int] == block_size@[j as int] as int);
            lemma_div_pos_is_pos(pi[j as int], bi[j as int]);
            vstd::arithmetic::div_mod::lemma_div_nonincreasing(pi[j as int], bi[j as int]);
        }
        let q = ((position[j] as u64) / (block_size[j] as u64)) as i64;
        r.push(q);
        j += 1;
    }
    proof {
        assert(ints64(r@) =~= grid_of(pi, bi));
    }
    r
}

/// The global coordinate of a block's first element: the grid
/// coordinate times the block extents, per axis.
pub fn block_origin(coord: &Vec<i64>, block_size: &Vec<i32>) -> (r: Vec<i64>)
    requires
        coord@.len() == block_size@.len(),
        all_nonneg(ints64(coord@)),
        all_pos(ints32(block_size@)),
        forall|j: int|
            0 <= j < coord@.len() ==> #[trigger] (ints64(coord@)[j] * ints32(block_size@)[j])
                <= i64::MAX,
    ensures
        r@.len() == coord@.len(),
        ints64(r@) == block_origin_of(ints64(coord@), ints32(block_size@)),
{
    let n = coord.len();
    let ghost ci = ints64(coord@);
    let ghost bi = ints32(block_size@);
    let mut r: Vec<i64> = Vec::new();
    let mut j: usize = 0;
    while j < n
        invariant
            n == coord@.len(),
            n == block_size@.len(),
            ci == ints64(coord@),
            bi == ints32(block_size@),
            all_nonneg(ci),
            all_pos(bi),
            forall|k: int| 0 <= k < n ==> #[trigger] (ci[k] * bi[k]) <= i64::MAX,
            0 <= j <= n,
            r@.len() == j,
            forall|k: int| 0 <= k < j ==> #[trigger] r@[k] as int == ci[k] * bi[k],
        decreases n - j,
    {
        proof {
            assert(ci[j as int] == coord@[j as int] as int);
            assert(bi[j as int] == block_size@[j as int] as int);
            assert(ci[j as int] * bi[j as int] >= 0) by (nonlinear_arith)
                requires
                    ci[j as int] >= 0,
                    bi[j as int] > 0,
            ;
        }
        let o = coord[j] * (block_size[j] as i64);
        r.push(o);
        j += 1;
    }
    proof {
        assert(ints64(r@) =~= block_origin_of(ci, bi));
    }
    r
}

/// Every grid coordinate whose block overlaps the box, in row-major
/// order: the coordinate at index `i` is the one whose row-major rank
/// within the rectangle is `i`.  Repeated calls with the same box
/// visit the same blocks in the same order.
pub fn overlapping_blocks(
    translation: &Vec<i64>,
    dimensions: &Vec<i64>,
    block_size: &Vec<i32>,
) -> (r: Vec<Vec<i64>>)
    requires
        dimensions@.len() == translation@.len(),
        block_size@.len() == translation@.len(),
        all_nonneg(ints64(translation@)),
        all_nonneg(ints64(dimensions@)),
        all_pos(ints32(block_size@)),
        forall|j: int|
            0 <= j < translation@.len() ==> #[trigger] ints64(translation@)[j] + ints64(
                dimensions@,
            )[j] <= i64::MAX,
        prod(
            rect_ext(ints64(translation@), ints64(dimensions@), ints32(block_size@)),
        ) <= usize::MAX,
    ensures
        r@.len() == prod(
            rect_ext(ints64(translation@), ints64(dimensions@), ints32(block_size@)),
        ),
        forall|i: int|
            0 <= i < r@.len() ==> in_box(
                ints64(#[trigger] r@[i]@),
                rect_lo(ints64(translation@), ints32(block_size@)),
                rect_ext(ints64(translation@), ints64(dimensions@), ints32(block_size@)),
            ) && lin(
                sub_seq(
                    ints64(r@[i]@),
                    rect_lo(ints64(translation@), ints32(block_size@)),
                ),
                rect_ext(ints64(translation@), ints64(dimensions@), ints32(block_size@)),
            ) == i,
{
    let n = translation.len();
    let ghost ti = ints64(translation@);
    let ghost di = ints64(dimensions@);
    let ghost bsi = ints32(block_size@);
    let bs64 = bs_to_i64(block_size);
    let (g_lo, g_ext) = grid_rect(translation, dimensions, &bs64);
    let ghost gli = ints64(g_lo@);
    let ghost gei = ints64(g_ext@);
    let mut out: Vec<Vec<i64>> = Vec::new();

    // an axis the box does not span means no overlapping blocks
    let mut jz: usize = 0;
    while jz < n
        invariant
            n == g_ext@.len(),
            ti == ints64(translation@),
            di == ints64(dimensions@),
            bsi == ints32(block_size@),
            gei == ints64(g_ext@),
            gei == rect_ext(ti, di, bsi),
            all_nonneg(gei),
            out@.len() == 0,
            0 <= jz <= n,
            forall|k: int| 0 <= k < jz ==> #[trigger] gei[k] >= 1,
        decreases n - jz,
    {
        proof {
            assert(gei[jz as int] == g_ext@[jz as int] as int);
        }
        if g_ext[jz] == 0 {
            proof {
                lemma_prod_zero(gei, jz as int);
            }
            return out;
        }
        jz += 1;
    }
    proof {
        assert(all_pos(gei));
        lemma_prod_pos(gei);
        crate::coords::lemma_lin_zero(gei);
    }
    let mut rd = zero_vec(n);
    let mut more = true;
    let ghost mut ii: int = 0;
    while more
        invariant
            n == translation@.len(),
            g_lo@.len() == n,
            g_ext@.len() == n,
            rd@.len() == n,
            ti == ints64(translation@),
            di == ints64(dimensions@),
            bsi == ints32(block_size@),
            gli == ints64(g_lo@),
            gei == ints64(g_ext@),
            gli == rect_lo(ti, bsi),
            gei == rect_ext(ti, di, bsi),
            all_pos(gei),
            forall|j: int| 0 <= j < n ==> #[trigger] gli[j] + gei[j] <= i64::MAX,
            prod(gei) <= usize::MAX,
            more ==> in_shape(ints64(rd@), gei) && ii == lin(ints64(rd@), gei),
            !more ==> ii == prod(gei),
            0 <= ii <= prod(gei),
            out@.len() == ii,
            forall|i: int|
                0 <= i < out@.len() ==> in_box(ints64(#[trigger] out@[i]@), gli, gei) && lin(
                    sub_seq(ints64(out@[i]@), gli),
                    gei,
                ) == i,
        decreases prod(gei) - ii,
    {
        proof {
            assert forall|j: int| 0 <= j < n implies i64::MIN <= #[trigger] g_lo@[j]
                + rd@[j] <= i64::MAX by {
                assert(gli[j] == g_lo@[j] as int);
                assert(ints64(rd@)[j] == rd@[j] as int);
                assert(gei[j] == g_ext@[j] as int);
            }
        }
        let g = add_vec(&g_lo, &rd);
        proof {
            assert(ints64(g@) == add_seq(gli, ints64(rd@)));
            assert forall|j: int| 0 <= j < n implies gli[j] <= #[trigger] ints64(g@)[j] < gli[j]
                + gei[j] by {
                assert(ints64(g@)[j] == gli[j] + ints64(rd@)[j]);
            }
            assert(in_box(ints64(g@), gli, gei));
            assert(sub_seq(ints64(g@), gli) =~= ints64(rd@));
        }
        out.push(g);
        more = odo_next(&mut rd, &g_ext);
        proof {
            if more {
                lemma_lin_bounds(ints64(rd@), gei);
            }
            ii = ii + 1;
        }
    }
    out
}

} // verus!
