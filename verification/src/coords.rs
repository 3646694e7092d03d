//! Pure arithmetic on n-dimensional shapes and coordinates.
//!
//! Coordinates and shapes are modelled as `Seq<int>`; buffers are flat
//! and row-major, the last axis varying fastest.  `lin` maps a
//! coordinate within a shape to its flat index, and the odometer
//! (`odo_next`) enumerates the coordinates of a box in exactly that
//! order.

use vstd::prelude::*;

verus! {

pub open spec fn ints64(s: Seq<i64>) -> Seq<int> {
    s.map_values(|x: i64| x as int)
}

pub open spec fn ints32(s: Seq<i32>) -> Seq<int> {
    s.map_values(|x: i32| x as int)
}

pub open spec fn all_pos(s: Seq<int>) -> bool {
    forall|j: int| 0 <= j < s.len() ==> s[j] > 0
}

pub open spec fn all_nonneg(s: Seq<int>) -> bool {
    forall|j: int| 0 <= j < s.len() ==> s[j] >= 0
}

/// `0 <= c < s`, pointwise, with matching ranks.
pub open spec fn in_shape(c: Seq<int>, s: Seq<int>) -> bool {
    &&& c.len() == s.len()
    &&& forall|j: int| 0 <= j < c.len() ==> 0 <= #[trigger] c[j] < s[j]
}

/// `lo <= c < lo + ext`, pointwise, with matching ranks.
pub open spec fn in_box(c: Seq<int>, lo: Seq<int>, ext: Seq<int>) -> bool {
    &&& c.len() == lo.len()
    &&& lo.len() == ext.len()
    &&& forall|j: int| 0 <= j < c.len() ==> lo[j] <= #[trigger] c[j] < lo[j] + ext[j]
}

pub open spec fn add_seq(a: Seq<int>, b: Seq<int>) -> Seq<int> {
    Seq::new(a.len(), |j: int| a[j] + b[j])
}

pub open spec fn sub_seq(a: Seq<int>, b: Seq<int>) -> Seq<int> {
    Seq::new(a.len(), |j: int| a[j] - b[j])
}

pub open spec fn zero_seq(n: nat) -> Seq<int> {
    Seq::new(n, |j: int| 0)
}

/// The number of coordinates inside a shape: the product of its extents.
pub open spec fn prod(s: Seq<int>) -> int
    decreases s.len(),
{
    if s.len() == 0 {
        1
    } else {
        prod(s.drop_last()) * s.last()
    }
}

/// The row-major flat index of coordinate `c` within shape `s`
/// (last axis fastest).
pub open spec fn lin(c: Seq<int>, s: Seq<int>) -> int
    decreases s.len(),
{
    if s.len() == 0 {
        0
    } else {
        lin(c.drop_last(), s.drop_last()) * s.last() + c.last()
    }
}

pub proof fn lemma_prod_nonneg(s: Seq<int>)
    requires
        all_nonneg(s),
    ensures
        prod(s) >= 0,
    decreases s.len(),
{
    if s.len() > 0 {
        assert(all_nonneg(s.drop_last()));
        lemma_prod_nonneg(s.drop_last());
        let p = prod(s.drop_last());
        let l = s.last();
        assert(p * l >= 0) by (nonlinear_arith)
            requires
                p >= 0,
                l >= 0,
        ;
    }
}

pub proof fn lemma_prod_pos(s: Seq<int>)
    requires
        all_pos(s),
    ensures
        prod(s) >= 1,
    decreases s.len(),
{
    if s.len() > 0 {
        assert(all_pos(s.drop_last()));
        lemma_prod_pos(s.drop_last());
        let p = prod(s.drop_last());
        let l = s.last();
        assert(p * l >= 1) by (nonlinear_arith)
            requires
                p >= 1,
                l >= 1,
        ;
    }
}

pub proof fn lemma_prod_zero(s: Seq<int>, j: int)
    requires
        0 <= j < s.len(),
        s[j] == 0,
    ensures
        prod(s) == 0,
    decreases s.len(),
{
    if j == s.len() - 1 {
        assert(prod(s) == prod(s.drop_last()) * 0);
        assert(prod(s.drop_last()) * 0 == 0) by (nonlinear_arith);
    } else {
        lemma_prod_zero(s.drop_last(), j);
        assert(prod(s) == 0 * s.last());
        assert(0 * s.last() == 0) by (nonlinear_arith);
    }
}

pub proof fn lemma_prod_take_succ(s: Seq<int>, j: int)
    requires
        0 <= j < s.len(),
    ensures
        prod(s.take(j + 1)) == prod(s.take(j)) * s[j],
{
    assert(s.take(j + 1).drop_last() =~= s.take(j));
    assert(s.take(j + 1).last() == s[j]);
}

pub proof fn lemma_prod_take_le(s: Seq<int>, j: int)
    requires
        all_pos(s),
        0 <= j <= s.len(),
    ensures
        1 <= prod(s.take(j)) <= prod(s),
    decreases s.len() - j,
{
    assert(all_pos(s.take(j)));
    lemma_prod_pos(s.take(j));
    if j == s.len() {
        assert(s.take(j) =~= s);
    } else {
        lemma_prod_take_succ(s, j);
        lemma_prod_take_le(s, j + 1);
        let p = prod(s.take(j));
        let f = s[j];
        assert(p <= p * f) by (nonlinear_arith)
            requires
                p >= 1,
                f >= 1,
        ;
    }
}

/// Each extent of a positive shape is at most the whole product.
pub proof fn lemma_prod_factor_le(s: Seq<int>, j: int)
    requires
        all_pos(s),
        0 <= j < s.len(),
    ensures
        s[j] <= prod(s),
    decreases s.len(),
{
    if j == s.len() - 1 {
        assert(all_pos(s.drop_last()));
        lemma_prod_pos(s.drop_last());
        let p = prod(s.drop_last());
        let l = s.last();
        assert(l <= p * l) by (nonlinear_arith)
            requires
                p >= 1,
                l >= 1,
        ;
    } else {
        assert(all_pos(s.drop_last()));
        lemma_prod_factor_le(s.drop_last(), j);
        let p = prod(s.drop_last());
        let l = s.last();
        assert(p <= p * l) by (nonlinear_arith)
            requires
                p >= 1,
                l >= 1,
        ;
        lemma_prod_pos(s.drop_last());
    }
}

pub proof fn lemma_lin_bounds(c: Seq<int>, s: Seq<int>)
    requires
        in_shape(c, s),
    ensures
        0 <= lin(c, s) < prod(s),
    decreases s.len(),
{
    if s.len() == 0 {
    } else {
        assert(in_shape(c.drop_last(), s.drop_last()));
        lemma_lin_bounds(c.drop_last(), s.drop_last());
        let l = lin(c.drop_last(), s.drop_last());
        let p = prod(s.drop_last());
        let m = s.last();
        let r = c.last();
        assert(0 <= l * m + r < p * m) by (nonlinear_arith)
            requires
                0 <= l < p,
                0 <= r < m,
        ;
    }
}

/// Distinct coordinates within a shape have distinct flat indices.
pub proof fn lemma_lin_inj(a: Seq<int>, b: Seq<int>, s: Seq<int>)
    requires
        in_shape(a, s),
        in_shape(b, s),
        lin(a, s) == lin(b, s),
    ensures
        a == b,
    decreases s.len(),
{
    if s.len() == 0 {
        assert(a =~= b);
    } else {
        let la = lin(a.drop_last(), s.drop_last());
        let lb = lin(b.drop_last(), s.drop_last());
        let m = s.last();
        let ra = a.last();
        let rb = b.last();
        assert(la == lb && ra == rb) by (nonlinear_arith)
            requires
                la * m + ra == lb * m + rb,
                0 <= ra < m,
                0 <= rb < m,
        ;
        assert(in_shape(a.drop_last(), s.drop_last()));
        assert(in_shape(b.drop_last(), s.drop_last()));
        lemma_lin_inj(a.drop_last(), b.drop_last(), s.drop_last());
        assert forall|j: int| 0 <= j < a.len() implies a[j] == b[j] by {
            if j < s.len() - 1 {
                assert(a.drop_last()[j] == b.drop_last()[j]);
            }
        }
        assert(a =~= b);
    }
}

pub proof fn lemma_lin_zero(s: Seq<int>)
    ensures
        lin(zero_seq(s.len()), s) == 0,
    decreases s.len(),
{
    if s.len() > 0 {
        lemma_lin_zero(s.drop_last());
        assert(zero_seq(s.len()).drop_last() =~= zero_seq(s.drop_last().len()));
        let zf = zero_seq(s.drop_last().len());
        assert(lin(zf, s.drop_last()) * s.last() == 0) by (nonlinear_arith)
            requires
                lin(zf, s.drop_last()) == 0,
        ;
    }
}

pub open spec fn max_coord(s: Seq<int>) -> Seq<int> {
    Seq::new(s.len(), |j: int| s[j] - 1)
}

pub proof fn lemma_lin_max(s: Seq<int>)
    requires
        all_pos(s),
    ensures
        lin(max_coord(s), s) == prod(s) - 1,
    decreases s.len(),
{
    if s.len() > 0 {
        assert(all_pos(s.drop_last()));
        lemma_lin_max(s.drop_last());
        assert(max_coord(s).drop_last() =~= max_coord(s.drop_last()));
        let p = prod(s.drop_last());
        let m = s.last();
        assert((p - 1) * m + (m - 1) == p * m - 1) by (nonlinear_arith);
    }
}

/// The result of advancing coordinate `c` at axis `j` and resetting
/// every later axis to zero.
pub open spec fn carry_seq(c: Seq<int>, j: int) -> Seq<int> {
    Seq::new(c.len(), |k: int| if k < j { c[k] } else if k == j { c[j] + 1 } else { 0 })
}

/// Odometer step: if every axis after `j` is at its maximum and axis
/// `j` can advance, the carried coordinate has the next flat index.
pub proof fn lemma_lin_carry(c: Seq<int>, s: Seq<int>, j: int)
    requires
        in_shape(c, s),
        0 <= j < s.len(),
        c[j] + 1 < s[j],
        forall|k: int| j < k < s.len() ==> c[k] == s[k] - 1,
    ensures
        in_shape(carry_seq(c, j), s),
        lin(carry_seq(c, j), s) == lin(c, s) + 1,
    decreases s.len(),
{
    let n = s.len() as int;
    let w = carry_seq(c, j);
    assert forall|k: int| 0 <= k < s.len() implies 0 <= #[trigger] w[k] < s[k] by {
        if k < j {
            assert(w[k] == c[k]);
        } else if k == j {
            assert(w[k] == c[j] + 1);
        } else {
            assert(w[k] == 0);
            assert(0 <= c[k]);
        }
    }
    assert(in_shape(w, s));
    if j == n - 1 {
        assert(w.drop_last() =~= c.drop_last());
        assert(w.last() == c.last() + 1);
    } else {
        assert(c.last() == s.last() - 1);
        assert(w.last() == 0);
        assert(in_shape(c.drop_last(), s.drop_last()));
        lemma_lin_carry(c.drop_last(), s.drop_last(), j);
        assert(w.drop_last() =~= carry_seq(c.drop_last(), j));
        let lf = lin(c.drop_last(), s.drop_last());
        let m = s.last();
        assert((lf + 1) * m == lf * m + (m - 1) + 1) by (nonlinear_arith);
    }
}

/// Two sequences of `i64` are equal exactly when their integer images are.
pub proof fn lemma_ints64_eq(a: Seq<i64>, b: Seq<i64>)
    ensures
        (ints64(a) == ints64(b)) == (a == b),
{
    assert(ints64(a).len() == a.len());
    assert(ints64(b).len() == b.len());
    if ints64(a) == ints64(b) {
        assert forall|j: int| 0 <= j < a.len() implies a[j] == b[j] by {
            assert(ints64(a)[j] == a[j] as int);
            assert(ints64(b)[j] == b[j] as int);
        }
        assert(a =~= b);
    }
}

/// Element-wise equality of two `i64` vectors.
pub fn vec_i64_eq(a: &Vec<i64>, b: &Vec<i64>) -> (r: bool)
    ensures
        r == (a@ == b@),
        r == (ints64(a@) == ints64(b@)),
{
    proof {
        lemma_ints64_eq(a@, b@);
    }
    if a.len() != b.len() {
        proof {
            assert(ints64(a@).len() == a@.len());
            assert(ints64(b@).len() == b@.len());
            assert(!(a@ =~= b@));
            assert(a@ != b@);
            assert(!(ints64(a@) =~= ints64(b@)));
            assert(ints64(a@) != ints64(b@));
        }
        return false;
    }
    let n = a.len();
    let mut i: usize = 0;
    while i < n
        invariant
            n == a@.len(),
            n == b@.len(),
            0 <= i <= n,
            forall|k: int| 0 <= k < i ==> a@[k] == b@[k],
        decreases n - i,
    {
        if a[i] != b[i] {
            proof {
                assert(a@[i as int] != b@[i as int]);
                assert(ints64(a@)[i as int] == a@[i as int] as int);
                assert(ints64(b@)[i as int] == b@[i as int] as int);
                assert(!(a@ =~= b@));
                assert(!(ints64(a@) =~= ints64(b@)));
            }
            return false;
        }
        i += 1;
    }
    proof {
        assert(a@ =~= b@);
    }
    true
}

/// Pointwise sum of two coordinate vectors.
pub fn add_vec(a: &Vec<i64>, b: &Vec<i64>) -> (r: Vec<i64>)
    requires
        a@.len() == b@.len(),
        forall|j: int| 0 <= j < a@.len() ==> i64::MIN <= #[trigger] a@[j] + b@[j] <= i64::MAX,
    ensures
        r@.len() == a@.len(),
        ints64(r@) == add_seq(ints64(a@), ints64(b@)),
{
    let n = a.len();
    let mut r: Vec<i64> = Vec::new();
    let mut i: usize = 0;
    while i < n
        invariant
            n == a@.len(),
            n == b@.len(),
            0 <= i <= n,
            r@.len() == i,
            forall|j: int| 0 <= j < a@.len() ==> i64::MIN <= #[trigger] a@[j] + b@[j] <= i64::MAX,
            forall|k: int| 0 <= k < i ==> r@[k] == a@[k] + b@[k],
        decreases n - i,
    {
        r.push(a[i] + b[i]);
        i += 1;
    }
    proof {
        assert(ints64(r@) =~= add_seq(ints64(a@), ints64(b@)));
    }
    r
}

/// Pointwise difference of two coordinate vectors.
pub fn sub_vec(a: &Vec<i64>, b: &Vec<i64>) -> (r: Vec<i64>)
    requires
        a@.len() == b@.len(),
        forall|j: int| 0 <= j < a@.len() ==> i64::MIN <= #[trigger] a@[j] - b@[j] <= i64::MAX,
    ensures
        r@.len() == a@.len(),
        ints64(r@) == sub_seq(ints64(a@), ints64(b@)),
{
    let n = a.len();
    let mut r: Vec<i64> = Vec::new();
    let mut i: usize = 0;
    while i < n
        invariant
            n == a@.len(),
            n == b@.len(),
            0 <= i <= n,
            r@.len() == i,
            forall|j: int| 0 <= j < a@.len() ==> i64::MIN <= #[trigger] a@[j] - b@[j] <= i64::MAX,
            forall|k: int| 0 <= k < i ==> r@[k] == a@[k] - b@[k],
        decreases n - i,
    {
        r.push(a[i] - b[i]);
        i += 1;
    }
    proof {
        assert(ints64(r@) =~= sub_seq(ints64(a@), ints64(b@)));
    }
    r
}

/// A vector of `n` zero coordinates.
pub fn zero_vec(n: usize) -> (r: Vec<i64>)
    ensures
        r@.len() == n,
        ints64(r@) == zero_seq(n as nat),
{
    let mut r: Vec<i64> = Vec::new();
    let mut i: usize = 0;
    while i < n
        invariant
            0 <= i <= n,
            r@.len() == i,
            forall|k: int| 0 <= k < i ==> r@[k] == 0,
        decreases n - i,
    {
        r.push(0);
        i += 1;
    }
    proof {
        assert(ints64(r@) =~= zero_seq(n as nat));
    }
    r
}

/// The row-major flat index of `c` within shape `s`, computed by
/// Horner's rule over the axes.
pub fn lin_index(c: &Vec<i64>, s: &Vec<i64>) -> (r: usize)
    requires
        in_shape(ints64(c@), ints64(s@)),
        all_pos(ints64(s@)),
        prod(ints64(s@)) <= usize::MAX,
    ensures
        r == lin(ints64(c@), ints64(s@)),
{
    let n = c.len();
    let ghost cs = ints64(c@);
    let ghost ss = ints64(s@);
    let mut acc: usize = 0;
    let mut j: usize = 0;
    proof {
        assert(cs.take(0) =~= Seq::<int>::empty());
        assert(ss.take(0) =~= Seq::<int>::empty());
    }
    while j < n
        invariant
            n == c@.len(),
            n == s@.len(),
            cs == ints64(c@),
            ss == ints64(s@),
            in_shape(cs, ss),
            all_pos(ss),
            prod(ss) <= usize::MAX,
            0 <= j <= n,
            acc == lin(cs.take(j as int), ss.take(j as int)),
            acc < prod(ss.take(j as int)),
        decreases n - j,
    {
        proof {
            lemma_prod_take_succ(ss, j as int);
            lemma_prod_take_le(ss, j as int + 1);
            lemma_prod_factor_le(ss, j as int);
            assert(ss[j as int] == s@[j as int] as int);
            assert(cs[j as int] == c@[j as int] as int);
            assert(in_shape(cs.take(j as int), ss.take(j as int)));
            let p = prod(ss.take(j as int));
            let m = ss[j as int];
            let a = acc as int;
            let r = cs[j as int];
            assert(0 <= a * m + r < p * m) by (nonlinear_arith)
                requires
                    0 <= a < p,
                    0 <= r < m,
            ;
            assert(cs.take(j as int + 1).drop_last() =~= cs.take(j as int));
            assert(ss.take(j as int + 1).drop_last() =~= ss.take(j as int));
        }
        acc = acc * (s[j] as usize) + (c[j] as usize);
        j += 1;
    }
    proof {
        assert(cs.take(n as int) =~= cs);
        assert(ss.take(n as int) =~= ss);
    }
    acc
}

/// Advance a coordinate one step in row-major order within the box
/// whose low corner is zero and whose extents are `ext`.  Returns
/// `false`, leaving the coordinate unchanged, when it was the last.
pub fn odo_next(d: &mut Vec<i64>, ext: &Vec<i64>) -> (more: bool)
    requires
        old(d)@.len() == ext@.len(),
        all_pos(ints64(ext@)),
        in_shape(ints64(old(d)@), ints64(ext@)),
    ensures
        final(d)@.len() == ext@.len(),
        more ==> in_shape(ints64(final(d)@), ints64(ext@)) && lin(ints64(final(d)@), ints64(ext@))
            == lin(ints64(old(d)@), ints64(ext@)) + 1,
        !more ==> final(d)@ == old(d)@ && lin(ints64(old(d)@), ints64(ext@)) == prod(ints64(ext@))
            - 1,
{
    let n = d.len();
    let ghost ds = ints64(old(d)@);
    let ghost es = ints64(ext@);
    proof {
        assert forall|k: int| 0 <= k < ext@.len() implies #[trigger] ext@[k] >= 1 by {
            assert(es[k] == ext@[k] as int);
        }
        assert forall|k: int| 0 <= k < d@.len() implies 0 <= #[trigger] d@[k] by {
            assert(ds[k] == d@[k] as int);
        }
    }
    let mut j: usize = n;
    while j > 0 && d[j - 1] == ext[j - 1] - 1
        invariant
            n == d@.len(),
            n == ext@.len(),
            d@ == old(d)@,
            in_shape(ds, es),
            ds == ints64(d@),
            es == ints64(ext@),
            0 <= j <= n,
            forall|k: int| 0 <= k < n ==> #[trigger] ext@[k] >= 1,
            forall|k: int| j <= k < n ==> ds[k] == es[k] - 1,
        decreases j,
    {
        j -= 1;
    }
    if j == 0 {
        proof {
            assert(ds =~= max_coord(es));
            lemma_lin_max(es);
        }
        return false;
    }
    proof {
        assert(ds[j - 1] != es[j - 1] - 1);
        assert(ds[j - 1] + 1 < es[j - 1]);
        lemma_lin_carry(ds, es, j as int - 1);
    }
    let step = d[j - 1] + 1;
    d[j - 1] = step;
    let mut k: usize = j;
    while k < n
        invariant
            n == d@.len(),
            n == ext@.len(),
            0 < j <= k <= n,
            forall|t: int| 0 <= t < j - 1 ==> d@[t] == old(d)@[t],
            d@[j - 1] == old(d)@[j - 1] + 1,
            forall|t: int| j <= t < k ==> d@[t] == 0,
            forall|t: int| k <= t < n ==> d@[t] == old(d)@[t],
        decreases n - k,
    {
        d[k] = 0;
        k += 1;
    }
    proof {
        assert(ints64(d@) =~= carry_seq(ds, j as int - 1));
    }
    true
}

/// A fresh copy of a coordinate vector.
pub fn copy_vec_i64(v: &Vec<i64>) -> (r: Vec<i64>)
    ensures
        r@ == v@,
{
    let n = v.len();
    let mut r: Vec<i64> = Vec::new();
    let mut i: usize = 0;
    while i < n
        invariant
            n == v@.len(),
            0 <= i <= n,
            r@ == v@.take(i as int),
        decreases n - i,
    {
        r.push(v[i]);
        proof {
            assert(r@ =~= v@.take(i + 1));
        }
        i += 1;
    }
    proof {
        assert(v@.take(n as int) =~= v@);
    }
    r
}

/// A fresh copy of a block-size vector.
pub fn copy_vec_i32(v: &Vec<i32>) -> (r: Vec<i32>)
    ensures
        r@ == v@,
{
    let n = v.len();
    let mut r: Vec<i32> = Vec::new();
    let mut i: usize = 0;
    while i < n
        invariant
            n == v@.len(),
            0 <= i <= n,
            r@ == v@.take(i as int),
        decreases n - i,
    {
        r.push(v[i]);
        proof {
            assert(r@ =~= v@.take(i + 1));
        }
        i += 1;
    }
    proof {
        assert(v@.take(n as int) =~= v@);
    }
    r
}

} // verus!
