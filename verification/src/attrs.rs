//! Dataset attributes: the validated, immutable descriptor of a
//! dataset's shape, chunking, element type and codec, and the raw
//! attribute record under which it is persisted.

use vstd::prelude::*;
use crate::codec::spec_codec_from_record;
use crate::codec::spec_codec_name_known;
use crate::codec::codec_from_record;
use crate::codec::codec_name_known;
use crate::codec::lemma_codec_record_round_trip;
use crate::codec::Compression;
use crate::coords::all_nonneg;
use crate::coords::all_pos;
use crate::coords::copy_vec_i32;
use crate::coords::copy_vec_i64;
use crate::coords::ints32;
use crate::coords::ints64;
use crate::coords::lemma_prod_pos;
use crate::coords::lemma_prod_take_le;
use crate::coords::lemma_prod_take_succ;
use crate::coords::prod;
use crate::datatype::lemma_tag_round_trip;
use crate::datatype::DataType;
use crate::errors::N5Error;

verus! {

/// A dataset's raw attribute record, as the storage layer keeps it:
/// plain fields, with the element type and codec still in tag form.
/// Turning such a record into `DatasetAttributes` can fail; creating
/// a record from valid attributes cannot.
#[derive(Debug)]
pub struct AttributeRecord {
    pub dimensions: Vec<i64>,
    pub block_size: Vec<i32>,
    pub data_type: String,
    pub compression_type: String,
    /// The gzip level; `-1` asks for the default.  Ignored by `raw`.
    pub compression_level: i32,
}

/// The mathematical image of an attribute record.
pub ghost struct RecordV {
    pub dimensions: Seq<i64>,
    pub block_size: Seq<i32>,
    pub data_type: Seq<char>,
    pub compression_type: Seq<char>,
    pub compression_level: int,
}

impl View for AttributeRecord {
    type V = RecordV;

    open spec fn view(&self) -> RecordV {
        RecordV {
            dimensions: self.dimensions@,
            block_size: self.block_size@,
            data_type: self.data_type@,
            compression_type: self.compression_type@,
            compression_level: self.compression_level as int,
        }
    }
}

impl AttributeRecord {
    /// A fresh record with the same contents.
    pub fn duplicate(&self) -> (r: AttributeRecord)
        ensures
            r@ == self@,
    {
        AttributeRecord {
            dimensions: copy_vec_i64(&self.dimensions),
            block_size: copy_vec_i32(&self.block_size),
            data_type: self.data_type.clone(),
            compression_type: self.compression_type.clone(),
            compression_level: self.compression_level,
        }
    }
}

/// A valid dataset shape: equal ranks of at least one axis, positive
/// block extents, non-negative dimensions, and a block small enough
/// that a buffer of its bytes can exist (elements are at most eight
/// bytes wide).
pub open spec fn spec_shape_ok(dims: Seq<int>, bs: Seq<int>) -> bool {
    &&& dims.len() == bs.len()
    &&& dims.len() >= 1
    &&& all_pos(bs)
    &&& all_nonneg(dims)
    &&& prod(bs) * 8 <= usize::MAX
}

/// The immutable descriptor of a dataset.
#[derive(Debug)]
pub struct DatasetAttributes {
    pub dimensions: Vec<i64>,
    pub block_size: Vec<i32>,
    pub data_type: DataType,
    pub compression: Compression,
}

impl DatasetAttributes {
    /// Dimensions as mathematical integers.
    pub open spec fn dims(&self) -> Seq<int> {
        ints64(self.dimensions@)
    }

    /// Block extents as mathematical integers.
    pub open spec fn bs(&self) -> Seq<int> {
        ints32(self.block_size@)
    }

    pub open spec fn rank(&self) -> int {
        self.dims().len() as int
    }

    /// Element width in bytes.
    pub open spec fn esize(&self) -> int {
        self.data_type.spec_size()
    }

    /// Elements per block.
    pub open spec fn spec_block_elems(&self) -> int {
        prod(self.bs())
    }

    pub open spec fn wf(&self) -> bool {
        &&& spec_shape_ok(self.dims(), self.bs())
        &&& self.compression.wf()
    }

    /// Validated construction; fails with `InvalidShape` exactly when
    /// the shape is not valid.
    pub fn new(
        dimensions: Vec<i64>,
        block_size: Vec<i32>,
        data_type: DataType,
        compression: Compression,
    ) -> (r: Result<DatasetAttributes, N5Error>)
        requires
            compression.wf(),
        ensures
            r is Ok <==> spec_shape_ok(ints64(dimensions@), ints32(block_size@)),
            r matches Ok(a) ==> a == (DatasetAttributes {
                dimensions,
                block_size,
                data_type,
                compression,
            }) && a.wf(),
            r is Err ==> r == Err::<DatasetAttributes, N5Error>(N5Error::InvalidShape),
    {
        if !shape_ok(&dimensions, &block_size) {
            return Err(N5Error::InvalidShape);
        }
        Ok(DatasetAttributes { dimensions, block_size, data_type, compression })
    }

    /// Elements per block, as a machine word.
    pub fn block_count(&self) -> (r: usize)
        requires
            self.wf(),
        ensures
            r == self.spec_block_elems(),
    {
        let ghost bsi = self.bs();
        let n = self.block_size.len();
        let mut acc: usize = 1;
        let mut j: usize = 0;
        proof {
            assert(bsi.take(0) =~= Seq::<int>::empty());
            lemma_prod_pos(bsi);
            assert(prod(bsi) <= prod(bsi) * 8) by (nonlinear_arith)
                requires
                    prod(bsi) >= 0,
            ;
        }
        while j < n
            invariant
                n == self.block_size@.len(),
                bsi == self.bs(),
                self.wf(),
                0 <= j <= n,
                prod(bsi) <= usize::MAX,
                acc == prod(bsi.take(j as int)),
            decreases n - j,
        {
            proof {
                lemma_prod_take_succ(bsi, j as int);
                lemma_prod_take_le(bsi, j as int);
                lemma_prod_take_le(bsi, j as int + 1);
                assert(bsi[j as int] == self.block_size@[j as int] as int);
                let p = prod(bsi.take(j as int));
                let f = bsi[j as int];
                assert(p * f >= 1 && p <= p * f && f <= p * f) by (nonlinear_arith)
                    requires
                        p >= 1,
                        f >= 1,
                ;
            }
            acc = acc * (self.block_size[j] as usize);
            j += 1;
        }
        proof {
            assert(bsi.take(n as int) =~= bsi);
        }
        acc
    }

    /// Bytes per block: elements times element width.
    pub fn block_bytes(&self) -> (r: usize)
        requires
            self.wf(),
        ensures
            r == self.spec_block_elems() * self.esize(),
    {
        let elems = self.block_count();
        let es = self.data_type.size_bytes();
        proof {
            lemma_prod_pos(self.bs());
            assert(elems * es <= prod(self.bs()) * 8) by (nonlinear_arith)
                requires
                    elems == prod(self.bs()),
                    elems >= 1,
                    1 <= es <= 8,
            ;
        }
        elems * es
    }

    /// The grid's extent: `ceil(dimensions[j] / block_size[j])` on
    /// each axis, the number of blocks the dataset spans.
    pub fn grid_extent(&self) -> (r: Vec<i64>)
        requires
            self.wf(),
        ensures
            r@.len() == self.rank(),
            forall|j: int|
                0 <= j < self.rank() ==> ints64(r@)[j] == spec_ceil_div(
                    self.dims()[j],
                    self.bs()[j],
                ),
    {
        let n = self.dimensions.len();
        let mut r: Vec<i64> = Vec::new();
        let mut j: usize = 0;
        while j < n
            invariant
                n == self.dimensions@.len(),
                self.wf(),
                0 <= j <= n,
                r@.len() == j,
                forall|k: int|
                    0 <= k < j ==> ints64(r@)[k] == spec_ceil_div(self.dims()[k], self.bs()[k]),
            decreases n - j,
        {
            proof {
                assert(self.dims()[j as int] == self.dimensions@[j as int] as int);
                assert(self.bs()[j as int] == self.block_size@[j as int] as int);
            }
            let d = self.dimensions[j];
            let b = self.block_size[j] as i64;
            let e = ceil_div_i64(d, b);
            let ghost prev = r@;
            r.push(e);
            proof {
                assert forall|k: int| 0 <= k < j + 1 implies ints64(r@)[k] == spec_ceil_div(
                    self.dims()[k],
                    self.bs()[k],
                ) by {
                    assert(ints64(r@)[k] == r@[k] as int);
                    if k < j {
                        assert(r@[k] == prev[k]);
                        assert(ints64(prev)[k] == prev[k] as int);
                    } else {
                        assert(r@[k] == e);
                    }
                }
            }
            j += 1;
        }
        r
    }

    /// The record under which these attributes are persisted.
    pub fn to_record(&self) -> (r: AttributeRecord)
        ensures
            r@ == spec_record_of(*self),
    {
        let level: i32 = match &self.compression {
            Compression::Raw => 0,
            Compression::Gzip { level } => *level as i32,
        };
        AttributeRecord {
            dimensions: copy_vec_i64(&self.dimensions),
            block_size: copy_vec_i32(&self.block_size),
            data_type: self.data_type.tag(),
            compression_type: self.compression.tag(),
            compression_level: level,
        }
    }
}

/// `ceil(a / b)` for `a >= 0 < b`.
pub open spec fn spec_ceil_div(a: int, b: int) -> int {
    if a % b == 0 {
        a / b
    } else {
        a / b + 1
    }
}

/// Ceiling division on machine integers.
pub fn ceil_div_i64(a: i64, b: i64) -> (r: i64)
    requires
        a >= 0,
        b > 0,
    ensures
        r == spec_ceil_div(a as int, b as int),
{
    let au = a as u64;
    let bu = b as u64;
    let q = au / bu;
    let rem = au % bu;
    if rem == 0 {
        q as i64
    } else {
        proof {
            vstd::arithmetic::div_mod::lemma_fundamental_div_mod(au as int, bu as int);
            assert(q + 1 <= au) by (nonlinear_arith)
                requires
                    au as int == bu as int * (q as int) + (rem as int),
                    1 <= rem as int,
                    1 <= bu as int,
                    0 <= q as int,
            ;
        }
        (q + 1) as i64
    }
}

/// Runtime check of `spec_shape_ok`.
pub fn shape_ok(dimensions: &Vec<i64>, block_size: &Vec<i32>) -> (r: bool)
    ensures
        r == spec_shape_ok(ints64(dimensions@), ints32(block_size@)),
{
    let ghost di = ints64(dimensions@);
    let ghost bi = ints32(block_size@);
    if dimensions.len() != block_size.len() || dimensions.len() == 0 {
        return false;
    }
    let n = block_size.len();
    let mut j: usize = 0;
    while j < n
        invariant
            n == block_size@.len(),
            n == dimensions@.len(),
            di == ints64(dimensions@),
            bi == ints32(block_size@),
            0 <= j <= n,
            forall|k: int| 0 <= k < j ==> #[trigger] bi[k] > 0 && di[k] >= 0,
        decreases n - j,
    {
        proof {
            assert(bi[j as int] == block_size@[j as int] as int);
            assert(di[j as int] == dimensions@[j as int] as int);
        }
        if block_size[j] <= 0 || dimensions[j] < 0 {
            return false;
        }
        j += 1;
    }
    // every block extent is positive; now bound the block's byte count
    let cap: usize = usize::MAX / 8;
    let mut acc: usize = 1;
    let mut i: usize = 0;
    proof {
        assert(bi.take(0) =~= Seq::<int>::empty());
        assert(all_pos(bi));
        assert(di.len() == dimensions@.len());
        assert(bi.len() == block_size@.len());
        assert forall|k: int| 0 <= k < di.len() implies di[k] >= 0 by {
            assert(bi[k] > 0);
        }
        assert(all_nonneg(di));
    }
    while i < n
        invariant
            n == block_size@.len(),
            n == dimensions@.len(),
            n >= 1,
            bi == ints32(block_size@),
            di == ints64(dimensions@),
            all_pos(bi),
            all_nonneg(di),
            cap == usize::MAX / 8,
            0 <= i <= n,
            acc == prod(bi.take(i as int)),
            1 <= acc <= cap,
        decreases n - i,
    {
        proof {
            lemma_prod_take_succ(bi, i as int);
            assert(bi[i as int] == block_size@[i as int] as int);
        }
        let f = block_size[i] as usize;
        proof {
            vstd::arithmetic::div_mod::lemma_fundamental_div_mod(cap as int, f as int);
        }
        if acc > cap / f {
            proof {
                let p1 = prod(bi.take(i as int + 1));
                assert(p1 > cap) by (nonlinear_arith)
                    requires
                        p1 == acc * f,
                        acc >= cap / f + 1,
                        cap == (cap / f) * f + cap % f,
                        0 <= cap % f < f,
                        f >= 1,
                ;
                lemma_prod_take_le(bi, i as int + 1);
                assert(prod(bi) * 8 > usize::MAX) by (nonlinear_arith)
                    requires
                        prod(bi) > cap,
                        cap == usize::MAX / 8,
                        usize::MAX == cap * 8 + usize::MAX % 8,
                        0 <= usize::MAX % 8 < 8,
                ;
            }
            return false;
        }
        proof {
            assert(acc * f <= (cap / f) * f) by (nonlinear_arith)
                requires
                    acc <= cap / f,
                    f >= 1,
            ;
            assert((cap / f) * f <= cap);
            assert(acc * f >= 1) by (nonlinear_arith)
                requires
                    acc >= 1,
                    f >= 1,
            ;
        }
        acc = acc * f;
        i += 1;
    }
    proof {
        assert(bi.take(n as int) =~= bi);
        vstd::arithmetic::div_mod::lemma_fundamental_div_mod(usize::MAX as int, 8);
        assert(prod(bi) * 8 <= usize::MAX) by (nonlinear_arith)
            requires
                prod(bi) <= cap,
                usize::MAX == cap * 8 + usize::MAX % 8,
                0 <= usize::MAX % 8 < 8,
        ;
    }
    true
}

/// The record image of a set of attributes.
pub open spec fn spec_record_of(a: DatasetAttributes) -> RecordV {
    RecordV {
        dimensions: a.dimensions@,
        block_size: a.block_size@,
        data_type: a.data_type.spec_tag(),
        compression_type: a.compression.spec_tag(),
        compression_level: match a.compression {
            Compression::Raw => 0,
            Compression::Gzip { level } => level as int,
        },
    }
}

/// What, if anything, is wrong with an attribute record.
pub enum RecordFault {
    /// The element-type tag names none of the ten supported kinds.
    UnknownDataType,
    /// The codec identifier is not supported.
    UnknownCodec,
    /// A known codec with a bad parameter, or an invalid shape.
    Malformed,
}

pub open spec fn spec_record_fault(r: RecordV) -> Option<RecordFault> {
    if DataType::spec_from_tag(r.data_type) is None {
        Some(RecordFault::UnknownDataType)
    } else if !spec_codec_name_known(r.compression_type) {
        Some(RecordFault::UnknownCodec)
    } else if spec_codec_from_record(r.compression_type, r.compression_level) is None {
        Some(RecordFault::Malformed)
    } else if !spec_shape_ok(ints64(r.dimensions), ints32(r.block_size)) {
        Some(RecordFault::Malformed)
    } else {
        None
    }
}

/// A parsed `DatasetAttributes` agrees with the record it came from.
pub open spec fn attrs_match_record(a: DatasetAttributes, rv: RecordV) -> bool {
    &&& a.wf()
    &&& a.dimensions@ == rv.dimensions
    &&& a.block_size@ == rv.block_size
    &&& Some(a.data_type) == DataType::spec_from_tag(rv.data_type)
    &&& Some(a.compression) == spec_codec_from_record(rv.compression_type, rv.compression_level)
}

/// What parsing a record must return: validated attributes when the
/// record has no fault, and the fault's error otherwise.
pub open spec fn parse_outcome_ok(rv: RecordV, r: Result<DatasetAttributes, N5Error>) -> bool {
    match spec_record_fault(rv) {
        None => r matches Ok(a) && attrs_match_record(a, rv),
        Some(RecordFault::UnknownDataType) => r matches Err(e) && e matches
            N5Error::UnsupportedDataType { name } && name@ == rv.data_type,
        Some(RecordFault::UnknownCodec) => r matches Err(e) && e matches
            N5Error::UnsupportedCodec { name } && name@ == rv.compression_type,
        Some(RecordFault::Malformed) => r == Err::<DatasetAttributes, N5Error>(
            N5Error::AttributeParseError,
        ),
    }
}

/// Turn a raw record into validated attributes.  Fails with
/// `UnsupportedDataType` on an unknown element-type tag, with
/// `UnsupportedCodec` on an unknown codec identifier, and with
/// `AttributeParseError` on a bad codec parameter or invalid shape.
pub fn record_to_attributes(rec: &AttributeRecord) -> (r: Result<DatasetAttributes, N5Error>)
    ensures
        parse_outcome_ok(rec@, r),
{
    let dt = match DataType::from_tag(self_str(&rec.data_type)) {
        Some(dt) => dt,
        None => {
            return Err(N5Error::UnsupportedDataType { name: rec.data_type.clone() });
        },
    };
    if !codec_name_known(self_str(&rec.compression_type)) {
        return Err(N5Error::UnsupportedCodec { name: rec.compression_type.clone() });
    }
    let codec = match codec_from_record(self_str(&rec.compression_type), rec.compression_level) {
        Some(c) => c,
        None => {
            return Err(N5Error::AttributeParseError);
        },
    };
    if !shape_ok(&rec.dimensions, &rec.block_size) {
        return Err(N5Error::AttributeParseError);
    }
    proof {
        codec_level_wf(rec@.compression_type, rec@.compression_level);
    }
    Ok(DatasetAttributes {
        dimensions: copy_vec_i64(&rec.dimensions),
        block_size: copy_vec_i32(&rec.block_size),
        data_type: dt,
        compression: codec,
    })
}

/// A codec parsed from a record is well-formed.
proof fn codec_level_wf(name: Seq<char>, level: int)
    ensures
        spec_codec_from_record(name, level) matches Some(c) ==> c.wf(),
{
}

fn self_str(s: &String) -> (r: &str)
    ensures
        r@ == s@,
{
    s.as_str()
}

/// Attributes survive the trip through their record: the record of a
/// valid `DatasetAttributes` has no fault, and parsing it recovers the
/// same element type, codec and shape.
pub proof fn lemma_record_round_trip(a: DatasetAttributes)
    requires
        a.wf(),
    ensures
        spec_record_fault(spec_record_of(a)) is None,
        DataType::spec_from_tag(spec_record_of(a).data_type) == Some(a.data_type),
        spec_codec_from_record(
            spec_record_of(a).compression_type,
            spec_record_of(a).compression_level,
        ) == Some(a.compression),
{
    lemma_tag_round_trip(a.data_type);
    lemma_codec_record_round_trip(a.compression);
    reveal_strlit("raw");
    reveal_strlit("gzip");
    match a.compression {
        Compression::Raw => {
            assert(spec_codec_name_known(spec_record_of(a).compression_type));
        },
        Compression::Gzip { level } => {
            assert(spec_codec_name_known(spec_record_of(a).compression_type));
        },
    }
}

} // verus!
