//! Flat byte buffers holding fixed-width elements in row-major order.
//!
//! Every buffer of an `esize`-byte element type is a `Vec<u8>` whose
//! length is the element count times `esize`; `elem` reads one
//! element's bytes at a flat index.  `copy_region` moves an
//! n-dimensional sub-region between two such buffers.

use vstd::prelude::*;
use crate::coords::add_seq;
use crate::coords::add_vec;
use crate::coords::all_nonneg;
use crate::coords::all_pos;
use crate::coords::in_box;
use crate::coords::in_shape;
use crate::coords::ints64;
use crate::coords::lemma_lin_bounds;
use crate::coords::lemma_lin_inj;
use crate::coords::lemma_lin_zero;
use crate::coords::lemma_prod_pos;
use crate::coords::lin;
use crate::coords::lin_index;
use crate::coords::odo_next;
use crate::coords::prod;
use crate::coords::sub_seq;
use crate::coords::zero_seq;
use crate::coords::zero_vec;

verus! {

/// The bytes of element `l` in a buffer of `esize`-byte elements.
pub open spec fn elem(buf: Seq<u8>, l: int, esize: int) -> Seq<u8> {
    buf.subrange(l * esize, l * esize + esize)
}

/// Changing only the bytes of element `a` leaves every other element
/// unchanged.
pub proof fn lemma_elem_frame(b0: Seq<u8>, b1: Seq<u8>, a: int, esize: int)
    requires
        b0.len() == b1.len(),
        esize >= 1,
        0 <= a,
        (a + 1) * esize <= b0.len(),
        forall|t: int|
            0 <= t < b0.len() && !(a * esize <= t < a * esize + esize) ==> b0[t] == #[trigger] b1[t],
    ensures
        forall|l: int|
            0 <= l && (l + 1) * esize <= b0.len() && l != a ==> #[trigger] elem(b1, l, esize)
                == elem(b0, l, esize),
{
    assert forall|l: int|
        0 <= l && (l + 1) * esize <= b0.len() && l != a implies #[trigger] elem(b1, l, esize)
        == elem(b0, l, esize) by {
        if l < a {
            assert((l + 1) * esize <= a * esize) by (nonlinear_arith)
                requires
                    l + 1 <= a,
                    esize >= 1,
            ;
        } else {
            assert((a + 1) * esize <= l * esize) by (nonlinear_arith)
                requires
                    a + 1 <= l,
                    esize >= 1,
            ;
        }
        assert(l * esize >= 0) by (nonlinear_arith)
            requires
                l >= 0,
                esize >= 1,
        ;
        assert((l + 1) * esize == l * esize + esize) by (nonlinear_arith);
        assert((a + 1) * esize == a * esize + esize) by (nonlinear_arith);
        assert(elem(b1, l, esize) =~= elem(b0, l, esize));
    }
}

/// Copy `esize` bytes from `src` at `si` over `dst` at `di`.
pub fn copy_bytes(dst: &mut Vec<u8>, di: usize, src: &Vec<u8>, si: usize, esize: usize)
    requires
        di + esize <= old(dst)@.len(),
        si + esize <= src@.len(),
    ensures
        final(dst)@.len() == old(dst)@.len(),
        forall|t: int|
            0 <= t < old(dst)@.len() ==> final(dst)@[t] == (if di <= t < di + esize {
                src@[si + (t - di)]
            } else {
                old(dst)@[t]
            }),
{
    let slen = src.len();
    let dlen = dst.len();
    let mut k: usize = 0;
    while k < esize
        invariant
            di + esize <= old(dst)@.len(),
            si + esize <= src@.len(),
            slen == src@.len(),
            dlen == dst@.len(),
            0 <= k <= esize,
            dst@.len() == old(dst)@.len(),
            forall|t: int|
                0 <= t < old(dst)@.len() ==> dst@[t] == (if di <= t < di + k {
                    src@[si + (t - di)]
                } else {
                    old(dst)@[t]
                }),
        decreases esize - k,
    {
        let b = src[si + k];
        dst[di + k] = b;
        k += 1;
    }
}

/// A buffer of `count` elements, each a copy of `fill`.
pub fn fill_buffer(count: usize, fill: &Vec<u8>) -> (r: Vec<u8>)
    requires
        fill@.len() >= 1,
        count * fill@.len() <= usize::MAX,
    ensures
        r@.len() == count * fill@.len(),
        forall|l: int| 0 <= l < count ==> #[trigger] elem(r@, l, fill@.len() as int) == fill@,
{
    let esize = fill.len();
    let mut r: Vec<u8> = Vec::new();
    let mut i: usize = 0;
    while i < count
        invariant
            esize == fill@.len(),
            esize >= 1,
            count * esize <= usize::MAX,
            0 <= i <= count,
            r@.len() == i * esize,
            forall|l: int| 0 <= l < i ==> #[trigger] elem(r@, l, esize as int) == fill@,
        decreases count - i,
    {
        proof {
            assert((i + 1) * esize <= count * esize) by (nonlinear_arith)
                requires
                    i + 1 <= count,
                    esize >= 1,
            ;
            assert((i + 1) * esize == i * esize + esize) by (nonlinear_arith);
        }
        let ghost r0 = r@;
        let mut k: usize = 0;
        while k < esize
            invariant
                esize == fill@.len(),
                0 <= k <= esize,
                i * esize + esize <= usize::MAX,
                r@.len() == i * esize + k,
                forall|t: int| 0 <= t < i * esize ==> r@[t] == r0[t],
                r0.len() == i * esize,
                forall|t: int| 0 <= t < k ==> r@[i * esize + t] == fill@[t],
            decreases esize - k,
        {
            r.push(fill[k]);
            k += 1;
        }
        proof {
            assert forall|l: int| 0 <= l < i + 1 implies #[trigger] elem(r@, l, esize as int)
                == fill@ by {
                assert((l + 1) * esize == l * esize + esize) by (nonlinear_arith);
                if l < i {
                    assert((l + 1) * esize <= i * esize) by (nonlinear_arith)
                        requires
                            l + 1 <= i,
                            esize >= 1,
                    ;
                    assert(l * esize >= 0) by (nonlinear_arith)
                        requires
                            l >= 0,
                            esize >= 1,
                    ;
                    assert(elem(r@, l, esize as int) =~= elem(r0, l, esize as int));
                } else {
                    assert(l * esize == i * esize);
                    assert(elem(r@, l, esize as int) =~= fill@);
                }
            }
        }
        i += 1;
    }
    r
}

/// Copy the `reg`-shaped sub-region at `src_off` of the `src` buffer
/// (shaped `src_shape`) over the sub-region at `dst_off` of the `dst`
/// buffer (shaped `dst_shape`).  Elements outside the destination
/// region keep their bytes.
pub fn copy_region(
    src: &Vec<u8>,
    src_shape: &Vec<i64>,
    src_off: &Vec<i64>,
    dst: &mut Vec<u8>,
    dst_shape: &Vec<i64>,
    dst_off: &Vec<i64>,
    reg: &Vec<i64>,
    esize: usize,
)
    requires
        esize >= 1,
        src_shape@.len() == reg@.len(),
        src_off@.len() == reg@.len(),
        dst_shape@.len() == reg@.len(),
        dst_off@.len() == reg@.len(),
        all_pos(ints64(src_shape@)),
        all_pos(ints64(dst_shape@)),
        all_nonneg(ints64(reg@)),
        all_nonneg(ints64(src_off@)),
        all_nonneg(ints64(dst_off@)),
        forall|j: int|
            0 <= j < reg@.len() ==> #[trigger] ints64(src_off@)[j] + ints64(reg@)[j] <= ints64(
                src_shape@,
            )[j],
        forall|j: int|
            0 <= j < reg@.len() ==> #[trigger] ints64(dst_off@)[j] + ints64(reg@)[j] <= ints64(
                dst_shape@,
            )[j],
        src@.len() == prod(ints64(src_shape@)) * esize,
        old(dst)@.len() == prod(ints64(dst_shape@)) * esize,
    ensures
        final(dst)@.len() == old(dst)@.len(),
        forall|p: Seq<int>|
            #[trigger] in_shape(p, ints64(reg@)) ==> elem(
                final(dst)@,
                lin(add_seq(ints64(dst_off@), p), ints64(dst_shape@)),
                esize as int,
            ) == elem(src@, lin(add_seq(ints64(src_off@), p), ints64(src_shape@)), esize as int),
        forall|q: Seq<int>|
            in_shape(q, ints64(dst_shape@)) && !in_box(q, ints64(dst_off@), ints64(reg@))
                ==> #[trigger] elem(final(dst)@, lin(q, ints64(dst_shape@)), esize as int) == elem(
                old(dst)@,
                lin(q, ints64(dst_shape@)),
                esize as int,
            ),
{
    let n = reg.len();
    let slen = src.len();
    let dlen = dst.len();
    let ghost regi = ints64(reg@);
    let ghost soi = ints64(src_off@);
    let ghost doi = ints64(dst_off@);
    let ghost ssi = ints64(src_shape@);
    let ghost dsi = ints64(dst_shape@);

    // An axis of extent zero means an empty region: nothing to copy.
    let mut nonempty = true;
    let ghost mut zi: int = 0;
    let mut j: usize = 0;
    while j < n
        invariant
            n == reg@.len(),
            regi == ints64(reg@),
            0 <= j <= n,
            nonempty ==> forall|k: int| 0 <= k < j ==> #[trigger] regi[k] != 0,
            !nonempty ==> 0 <= zi < n && regi[zi] == 0,
        decreases n - j,
    {
        if reg[j] == 0 {
            nonempty = false;
            proof {
                zi = j as int;
                assert(regi[j as int] == reg@[j as int] as int);
            }
        }
        j += 1;
    }
    if !nonempty {
        proof {
            assert forall|p: Seq<int>| #[trigger] in_shape(p, regi) implies false by {
                assert(0 <= p[zi] < regi[zi]);
            }
        }
        return ;
    }
    proof {
        assert forall|k: int| 0 <= k < regi.len() implies #[trigger] regi[k] > 0 by {}
        lemma_prod_pos(regi);
        lemma_lin_zero(regi);
        // the shapes' products fit in usize because the buffers exist
        lemma_prod_pos(ssi);
        lemma_prod_pos(dsi);
        assert(prod(ssi) <= prod(ssi) * esize) by (nonlinear_arith)
            requires
                prod(ssi) >= 0,
                esize >= 1,
        ;
        assert(prod(dsi) <= prod(dsi) * esize) by (nonlinear_arith)
            requires
                prod(dsi) >= 0,
                esize >= 1,
        ;
        assert(prod(ssi) <= slen);
        assert(prod(dsi) <= dlen);
    }
    let mut d = zero_vec(n);
    let mut more = true;
    let ghost mut i: int = 0;
    proof {
        assert(in_shape(ints64(d@), regi));
    }
    while more
        invariant
            esize >= 1,
            n == reg@.len(),
            src_shape@.len() == n,
            src_off@.len() == n,
            dst_shape@.len() == n,
            dst_off@.len() == n,
            regi == ints64(reg@),
            soi == ints64(src_off@),
            doi == ints64(dst_off@),
            ssi == ints64(src_shape@),
            dsi == ints64(dst_shape@),
            all_pos(ssi),
            all_pos(dsi),
            all_pos(regi),
            all_nonneg(soi),
            all_nonneg(doi),
            forall|j2: int| 0 <= j2 < n ==> #[trigger] soi[j2] + regi[j2] <= ssi[j2],
            forall|j2: int| 0 <= j2 < n ==> #[trigger] doi[j2] + regi[j2] <= dsi[j2],
            src@.len() == prod(ssi) * esize,
            dst@.len() == old(dst)@.len(),
            old(dst)@.len() == prod(dsi) * esize,
            slen == src@.len(),
            dlen == old(dst)@.len(),
            prod(ssi) <= slen,
            prod(dsi) <= dlen,
            d@.len() == n,
            more ==> in_shape(ints64(d@), regi) && i == lin(ints64(d@), regi),
            !more ==> i == prod(regi),
            0 <= i <= prod(regi),
            forall|q: Seq<int>|
                in_shape(q, dsi) ==> #[trigger] elem(dst@, lin(q, dsi), esize as int) == (if in_box(
                    q,
                    doi,
                    regi,
                ) && 0 <= lin(sub_seq(q, doi), regi) < i {
                    elem(src@, lin(add_seq(soi, sub_seq(q, doi)), ssi), esize as int)
                } else {
                    elem(old(dst)@, lin(q, dsi), esize as int)
                }),
        decreases prod(regi) - i,
    {
        proof {
            assert forall|j2: int| 0 <= j2 < n implies i64::MIN <= #[trigger] src_off@[j2]
                + d@[j2] <= i64::MAX by {
                assert(soi[j2] == src_off@[j2] as int);
                assert(ints64(d@)[j2] == d@[j2] as int);
                assert(regi[j2] == reg@[j2] as int);
                assert(ssi[j2] == src_shape@[j2] as int);
            }
            assert forall|j2: int| 0 <= j2 < n implies i64::MIN <= #[trigger] dst_off@[j2]
                + d@[j2] <= i64::MAX by {
                assert(doi[j2] == dst_off@[j2] as int);
                assert(ints64(d@)[j2] == d@[j2] as int);
                assert(regi[j2] == reg@[j2] as int);
                assert(dsi[j2] == dst_shape@[j2] as int);
            }
        }
        let sc = add_vec(src_off, &d);
        let dc = add_vec(dst_off, &d);
        let ghost di_seq = ints64(d@);
        let ghost sci = ints64(sc@);
        let ghost dci = ints64(dc@);
        proof {
            assert(sci == add_seq(soi, di_seq));
            assert(dci == add_seq(doi, di_seq));
            assert forall|j2: int| 0 <= j2 < n implies 0 <= #[trigger] sci[j2] < ssi[j2] by {
                assert(sci[j2] == soi[j2] + di_seq[j2]);
            }
            assert forall|j2: int| 0 <= j2 < n implies 0 <= #[trigger] dci[j2] < dsi[j2] by {
                assert(dci[j2] == doi[j2] + di_seq[j2]);
            }
            assert(in_shape(sci, ssi));
            assert(in_shape(dci, dsi));
        }
        let si = lin_index(&sc, src_shape);
        let di_ = lin_index(&dc, dst_shape);
        proof {
            lemma_lin_bounds(sci, ssi);
            lemma_lin_bounds(dci, dsi);
            assert((si + 1) * esize <= prod(ssi) * esize) by (nonlinear_arith)
                requires
                    si + 1 <= prod(ssi),
                    esize >= 1,
            ;
            assert((di_ + 1) * esize <= prod(dsi) * esize) by (nonlinear_arith)
                requires
                    di_ + 1 <= prod(dsi),
                    esize >= 1,
            ;
            assert((si + 1) * esize == si * esize + esize) by (nonlinear_arith);
            assert((di_ + 1) * esize == di_ * esize + esize) by (nonlinear_arith);
            assert(si * esize + esize <= slen);
            assert(di_ * esize + esize <= dlen);
        }
        let ghost pre = dst@;
        copy_bytes(dst, di_ * esize, src, si * esize, esize);
        proof {
            lemma_elem_frame(pre, dst@, di_ as int, esize as int);
            assert(elem(dst@, di_ as int, esize as int) =~= elem(src@, si as int, esize as int));
            assert(sub_seq(dci, doi) =~= di_seq);
            assert forall|q: Seq<int>| in_shape(q, dsi) implies #[trigger] elem(
                dst@,
                lin(q, dsi),
                esize as int,
            ) == (if in_box(q, doi, regi) && 0 <= lin(sub_seq(q, doi), regi) < i + 1 {
                elem(src@, lin(add_seq(soi, sub_seq(q, doi)), ssi), esize as int)
            } else {
                elem(pre, lin(q, dsi), esize as int)
            }) by {
                lemma_lin_bounds(q, dsi);
                if q == dci {
                    assert(lin(q, dsi) == di_ as int);
                    assert(sub_seq(q, doi) == di_seq);
                    assert(lin(sub_seq(q, doi), regi) == i);
                    assert(in_box(q, doi, regi));
                    assert(add_seq(soi, sub_seq(q, doi)) == sci);
                } else {
                    if lin(q, dsi) == di_ as int {
                        lemma_lin_inj(q, dci, dsi);
                        assert(false);
                    }
                    assert(lin(q, dsi) != di_ as int);
                    assert((lin(q, dsi) + 1) * esize <= prod(dsi) * esize) by (nonlinear_arith)
                        requires
                            lin(q, dsi) + 1 <= prod(dsi),
                            esize >= 1,
                    ;
                    assert(elem(dst@, lin(q, dsi), esize as int) == elem(
                        pre,
                        lin(q, dsi),
                        esize as int,
                    ));
                    if in_box(q, doi, regi) && lin(sub_seq(q, doi), regi) == i {
                        assert(in_shape(sub_seq(q, doi), regi));
                        lemma_lin_inj(sub_seq(q, doi), di_seq, regi);
                        assert(sub_seq(q, doi) == di_seq);
                        assert forall|j2: int| 0 <= j2 < n implies q[j2] == dci[j2] by {
                            assert(sub_seq(q, doi)[j2] == di_seq[j2]);
                        }
                        assert(q =~= dci);
                        assert(false);
                    }
                }
            }
        }
        more = odo_next(&mut d, reg);
        proof {
            if more {
                lemma_lin_bounds(ints64(d@), regi);
            }
            i = i + 1;
        }
    }
    proof {
        assert forall|p: Seq<int>| #[trigger] in_shape(p, regi) implies elem(
            dst@,
            lin(add_seq(doi, p), dsi),
            esize as int,
        ) == elem(src@, lin(add_seq(soi, p), ssi), esize as int) by {
            lemma_lin_bounds(p, regi);
            let q = add_seq(doi, p);
            assert forall|j2: int| 0 <= j2 < n implies 0 <= #[trigger] q[j2] < dsi[j2] by {
                assert(q[j2] == doi[j2] + p[j2]);
            }
            assert(in_shape(q, dsi));
            assert(in_box(q, doi, regi));
            assert(sub_seq(q, doi) =~= p);
            assert(elem(dst@, lin(q, dsi), esize as int) == elem(
                src@,
                lin(add_seq(soi, p), ssi),
                esize as int,
            ));
        }
    }
}

} // verus!
