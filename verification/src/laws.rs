//! The store's governing laws, stated and proved over the
//! specifications that the operations' contracts use.

use vstd::prelude::*;
use vstd::arithmetic::div_mod::lemma_fundamental_div_mod;
use crate::attrs::DatasetAttributes;
use crate::buffer::elem;
use crate::codec::compress_spec;
use crate::coords::add_seq;
use crate::coords::all_nonneg;
use crate::coords::in_box;
use crate::coords::in_shape;
use crate::coords::ints64;
use crate::coords::lin;
use crate::coords::prod;
use crate::coords::sub_seq;
use crate::ndarray::block_origin_of;
use crate::ndarray::box_readable;
use crate::ndarray::box_wf;
use crate::ndarray::ds_elem;
use crate::ndarray::grid_of;
use crate::ndarray::lemma_grid_in_rect;
use crate::ndarray::local_of;
use crate::ndarray::rect_ext;
use crate::ndarray::rect_lo;
use crate::ndarray::write_nd_post;
use crate::ndarray::written_block_ok;
use crate::store::blocks_same;
use crate::store::blocks_same_except;
use crate::store::records_same;
use crate::store::N5Store;

verus! {

/// A non-negative coordinate splits into its block's origin plus a
/// block-local offset.
proof fn lemma_origin_local(q: Seq<int>, bs: Seq<int>)
    requires
        q.len() == bs.len(),
        all_nonneg(q),
        crate::coords::all_pos(bs),
    ensures
        in_shape(local_of(q, bs), bs),
        add_seq(block_origin_of(grid_of(q, bs), bs), local_of(q, bs)) == q,
{
    assert forall|j: int| 0 <= j < q.len() implies 0 <= #[trigger] local_of(q, bs)[j] < bs[j]
        && block_origin_of(grid_of(q, bs), bs)[j] + local_of(q, bs)[j] == q[j] by {
        lemma_fundamental_div_mod(q[j], bs[j]);
        assert(block_origin_of(grid_of(q, bs), bs)[j] == (q[j] / bs[j]) * bs[j]);
        assert((q[j] / bs[j]) * bs[j] == bs[j] * (q[j] / bs[j])) by (nonlinear_arith);
    }
    assert(add_seq(block_origin_of(grid_of(q, bs), bs), local_of(q, bs)) =~= q);
}

/// Round trip: after a dense array is scattered over a box, gathering
/// the same box yields exactly that array, whatever the box's
/// alignment to block boundaries: every overlapping block is
/// readable, and every element of the box reads back the written
/// byte run.
pub proof fn lemma_write_read_round_trip(
    s0: N5Store,
    s1: N5Store,
    path: Seq<char>,
    attrs: DatasetAttributes,
    t: Seq<int>,
    d: Seq<int>,
    arr: Seq<u8>,
    fill: Seq<u8>,
)
    requires
        attrs.wf(),
        box_wf(attrs, t, d),
        arr.len() == prod(d) * attrs.esize(),
        write_nd_post(s0, s1, path, attrs, t, d, arr, fill),
    ensures
        box_readable(s1, path, attrs, t, d),
        forall|p: Seq<int>|
            #[trigger] in_shape(p, d) ==> ds_elem(s1, path, attrs, add_seq(t, p), fill) == elem(
                arr,
                lin(p, d),
                attrs.esize(),
            ),
{
    let bs = attrs.bs();
    let es = attrs.esize();
    assert forall|g: Seq<int>|
        in_box(g, rect_lo(t, bs), rect_ext(t, d, bs)) implies #[trigger] s1.block_ok(
        path,
        attrs,
        g,
    ) by {
        assert(written_block_ok(s0, s1, path, attrs, t, d, arr, fill, g));
    }
    assert forall|p: Seq<int>| #[trigger] in_shape(p, d) implies ds_elem(
        s1,
        path,
        attrs,
        add_seq(t, p),
        fill,
    ) == elem(arr, lin(p, d), es) by {
        let q = add_seq(t, p);
        assert(in_box(q, t, d)) by {
            assert forall|j: int| 0 <= j < q.len() implies t[j] <= #[trigger] q[j] < t[j]
                + d[j] by {
                assert(q[j] == t[j] + p[j]);
            }
        }
        assert(all_nonneg(q)) by {
            assert forall|j: int| 0 <= j < q.len() implies #[trigger] q[j] >= 0 by {
                assert(q[j] == t[j] + p[j]);
            }
        }
        lemma_grid_in_rect(t, d, bs, q);
        let g = grid_of(q, bs);
        assert(written_block_ok(s0, s1, path, attrs, t, d, arr, fill, g));
        lemma_origin_local(q, bs);
        let pl = local_of(q, bs);
        assert(elem(
            crate::codec::decompress_spec(attrs.compression, s1.blk(path, g)->0)->0,
            lin(pl, bs),
            es,
        ) == (if in_box(add_seq(block_origin_of(g, bs), pl), t, d) {
            elem(arr, lin(sub_seq(add_seq(block_origin_of(g, bs), pl), t), d), es)
        } else {
            ds_elem(s0, path, attrs, add_seq(block_origin_of(g, bs), pl), fill)
        }));
        assert(add_seq(block_origin_of(g, bs), pl) == q);
        assert(sub_seq(q, t) =~= p);
    }
}

/// Idempotence: writing the same block twice with identical content
/// leaves every observable part of the store as the first write left
/// it.  The two hypothesis groups are what `write_block` ensures of
/// each write.
pub proof fn lemma_write_block_idempotent(
    s0: N5Store,
    s1: N5Store,
    s2: N5Store,
    path: Seq<char>,
    attrs: DatasetAttributes,
    position: Seq<int>,
    data: Seq<u8>,
)
    requires
        s1.blk(path, position) == Some(compress_spec(attrs.compression, data)),
        blocks_same_except(s0, s1, path, position),
        records_same(s0, s1),
        s2.blk(path, position) == Some(compress_spec(attrs.compression, data)),
        blocks_same_except(s1, s2, path, position),
        records_same(s1, s2),
    ensures
        records_same(s1, s2),
        blocks_same(s1, s2),
{
    assert forall|p: Seq<char>, c: Seq<int>| #[trigger] s2.blk(p, c) == s1.blk(p, c) by {
        if p == path && c == position {
        } else {
            assert(s2.blk(p, c) == s1.blk(p, c));
        }
    }
}

/// Absent-block fill: an element of a box whose block was never
/// written reads as the fill value.
pub proof fn lemma_absent_block_fill(
    s: N5Store,
    path: Seq<char>,
    attrs: DatasetAttributes,
    t: Seq<int>,
    d: Seq<int>,
    fill: Seq<u8>,
    p: Seq<int>,
)
    requires
        attrs.wf(),
        box_wf(attrs, t, d),
        in_shape(p, d),
        s.blk(path, grid_of(add_seq(t, p), attrs.bs())) is None,
    ensures
        ds_elem(s, path, attrs, add_seq(t, p), fill) == fill,
{
}

/// Boundary preservation: a scattering write changes no element
/// outside its box; what a read of any other region saw before the
/// write, it sees after it.
pub proof fn lemma_boundary_preservation(
    s0: N5Store,
    s1: N5Store,
    path: Seq<char>,
    attrs: DatasetAttributes,
    t: Seq<int>,
    d: Seq<int>,
    arr: Seq<u8>,
    fill: Seq<u8>,
    q: Seq<int>,
)
    requires
        attrs.wf(),
        box_wf(attrs, t, d),
        write_nd_post(s0, s1, path, attrs, t, d, arr, fill),
        q.len() == attrs.rank(),
        all_nonneg(q),
        !in_box(q, t, d),
    ensures
        ds_elem(s1, path, attrs, q, fill) == ds_elem(s0, path, attrs, q, fill),
{
    let bs = attrs.bs();
    let es = attrs.esize();
    let g = grid_of(q, bs);
    lemma_origin_local(q, bs);
    let pl = local_of(q, bs);
    if in_box(g, rect_lo(t, bs), rect_ext(t, d, bs)) {
        assert(written_block_ok(s0, s1, path, attrs, t, d, arr, fill, g));
        assert(elem(
            crate::codec::decompress_spec(attrs.compression, s1.blk(path, g)->0)->0,
            lin(pl, bs),
            es,
        ) == (if in_box(add_seq(block_origin_of(g, bs), pl), t, d) {
            elem(arr, lin(sub_seq(add_seq(block_origin_of(g, bs), pl), t), d), es)
        } else {
            ds_elem(s0, path, attrs, add_seq(block_origin_of(g, bs), pl), fill)
        }));
        assert(add_seq(block_origin_of(g, bs), pl) == q);
    } else {
        assert(s1.blk(path, g) == s0.blk(path, g));
    }
}

} // verus!
