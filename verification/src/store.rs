//! The block store: an in-memory image of a store root, holding each
//! dataset's attribute record and a sparse collection of
//! codec-compressed block payloads keyed by dataset path and grid
//! coordinate.
//!
//! The image is what a durable root contains; loading it from and
//! saving it to real storage is the caller's concern, through
//! `get_dataset_record` / `create_dataset_from_record` and
//! `get_block_payload` / `insert_block_payload`.

use vstd::prelude::*;
use crate::attrs::parse_outcome_ok;
use crate::attrs::record_to_attributes;
use crate::attrs::spec_record_of;
use crate::attrs::AttributeRecord;
use crate::attrs::DatasetAttributes;
use crate::attrs::RecordV;
use crate::codec::compress;
use crate::codec::compress_spec;
use crate::codec::copy_vec_u8;
use crate::codec::decompress;
use crate::codec::decompress_spec;
use crate::coords::copy_vec_i64;
use crate::coords::ints64;
use crate::coords::vec_i64_eq;
use crate::errors::N5Error;
use crate::strutil::str_eq;

verus! {

/// One stored block: its dataset, grid coordinate, and stored bytes.
#[derive(Debug)]
pub struct BlockEntry {
    pub path: String,
    pub coord: Vec<i64>,
    pub payload: Vec<u8>,
}

/// One dataset: its path and attribute record.
#[derive(Debug)]
pub struct DatasetEntry {
    pub path: String,
    pub record: AttributeRecord,
}

/// The first record stored under `path`, scanning from the front.
pub open spec fn find_ds(s: Seq<DatasetEntry>, path: Seq<char>) -> Option<RecordV>
    decreases s.len(),
{
    if s.len() == 0 {
        None
    } else if s[0].path@ == path {
        Some(s[0].record@)
    } else {
        find_ds(s.drop_first(), path)
    }
}

/// The first payload stored under `(path, coord)`.
pub open spec fn find_blk(s: Seq<BlockEntry>, path: Seq<char>, coord: Seq<int>) -> Option<Seq<u8>>
    decreases s.len(),
{
    if s.len() == 0 {
        None
    } else if s[0].path@ == path && ints64(s[0].coord@) == coord {
        Some(s[0].payload@)
    } else {
        find_blk(s.drop_first(), path, coord)
    }
}

proof fn lemma_find_ds_at(s: Seq<DatasetEntry>, i: int, path: Seq<char>)
    requires
        0 <= i < s.len(),
        s[i].path@ == path,
        forall|k: int| 0 <= k < i ==> #[trigger] s[k].path@ != path,
    ensures
        find_ds(s, path) == Some(s[i].record@),
    decreases i,
{
    if i > 0 {
        lemma_find_ds_at(s.drop_first(), i - 1, path);
    }
}

proof fn lemma_find_ds_none(s: Seq<DatasetEntry>, path: Seq<char>)
    requires
        forall|k: int| 0 <= k < s.len() ==> #[trigger] s[k].path@ != path,
    ensures
        find_ds(s, path) is None,
    decreases s.len(),
{
    if s.len() > 0 {
        lemma_find_ds_none(s.drop_first(), path);
    }
}

proof fn lemma_find_ds_push(s: Seq<DatasetEntry>, e: DatasetEntry, path: Seq<char>)
    ensures
        find_ds(s.push(e), path) == (if find_ds(s, path) is Some {
            find_ds(s, path)
        } else if e.path@ == path {
            Some(e.record@)
        } else {
            None::<RecordV>
        }),
    decreases s.len(),
{
    if s.len() == 0 {
        assert(s.push(e)[0] == e);
        assert(s.push(e).drop_first() =~= Seq::<DatasetEntry>::empty());
        assert(find_ds(Seq::<DatasetEntry>::empty(), path) is None);
    } else {
        assert(s.push(e)[0] == s[0]);
        assert(s.push(e).drop_first() =~= s.drop_first().push(e));
        lemma_find_ds_push(s.drop_first(), e, path);
        if s[0].path@ == path {
            assert(find_ds(s.push(e), path) == Some(s[0].record@));
            assert(find_ds(s, path) == Some(s[0].record@));
        } else {
            assert(find_ds(s.push(e), path) == find_ds(s.drop_first().push(e), path));
            assert(find_ds(s, path) == find_ds(s.drop_first(), path));
        }
    }
}

proof fn lemma_find_blk_at(s: Seq<BlockEntry>, i: int, path: Seq<char>, coord: Seq<int>)
    requires
        0 <= i < s.len(),
        s[i].path@ == path,
        ints64(s[i].coord@) == coord,
        forall|k: int|
            0 <= k < i ==> !(#[trigger] s[k].path@ == path && ints64(s[k].coord@) == coord),
    ensures
        find_blk(s, path, coord) == Some(s[i].payload@),
    decreases i,
{
    if i > 0 {
        lemma_find_blk_at(s.drop_first(), i - 1, path, coord);
    }
}

proof fn lemma_find_blk_none(s: Seq<BlockEntry>, path: Seq<char>, coord: Seq<int>)
    requires
        forall|k: int|
            0 <= k < s.len() ==> !(#[trigger] s[k].path@ == path && ints64(s[k].coord@) == coord),
    ensures
        find_blk(s, path, coord) is None,
    decreases s.len(),
{
    if s.len() > 0 {
        lemma_find_blk_none(s.drop_first(), path, coord);
    }
}

proof fn lemma_find_blk_push(s: Seq<BlockEntry>, e: BlockEntry, path: Seq<char>, coord: Seq<int>)
    ensures
        find_blk(s.push(e), path, coord) == (if find_blk(s, path, coord) is Some {
            find_blk(s, path, coord)
        } else if e.path@ == path && ints64(e.coord@) == coord {
            Some(e.payload@)
        } else {
            None::<Seq<u8>>
        }),
    decreases s.len(),
{
    if s.len() == 0 {
        assert(s.push(e)[0] == e);
        assert(s.push(e).drop_first() =~= Seq::<BlockEntry>::empty());
        assert(find_blk(Seq::<BlockEntry>::empty(), path, coord) is None);
    } else {
        assert(s.push(e)[0] == s[0]);
        assert(s.push(e).drop_first() =~= s.drop_first().push(e));
        lemma_find_blk_push(s.drop_first(), e, path, coord);
        if s[0].path@ == path && ints64(s[0].coord@) == coord {
            assert(find_blk(s.push(e), path, coord) == Some(s[0].payload@));
            assert(find_blk(s, path, coord) == Some(s[0].payload@));
        } else {
            assert(find_blk(s.push(e), path, coord) == find_blk(
                s.drop_first().push(e),
                path,
                coord,
            ));
            assert(find_blk(s, path, coord) == find_blk(s.drop_first(), path, coord));
        }
    }
}

proof fn lemma_find_blk_update(s: Seq<BlockEntry>, i: int, e: BlockEntry, path: Seq<char>, coord: Seq<int>)
    requires
        0 <= i < s.len(),
        s[i].path@ == path,
        ints64(s[i].coord@) == coord,
        e.path@ == path,
        ints64(e.coord@) == coord,
        forall|k: int|
            0 <= k < s.len() && k != i ==> !(#[trigger] s[k].path@ == path && ints64(s[k].coord@)
                == coord),
    ensures
        forall|p: Seq<char>, c: Seq<int>|
            #[trigger] find_blk(s.update(i, e), p, c) == (if p == path && c == coord {
                Some(e.payload@)
            } else {
                find_blk(s, p, c)
            }),
    decreases s.len(),
{
    assert forall|p: Seq<char>, c: Seq<int>|
        #[trigger] find_blk(s.update(i, e), p, c) == (if p == path && c == coord {
            Some(e.payload@)
        } else {
            find_blk(s, p, c)
        }) by {
        lemma_find_blk_update_one(s, i, e, path, coord, p, c);
    }
}

proof fn lemma_find_blk_update_one(
    s: Seq<BlockEntry>,
    i: int,
    e: BlockEntry,
    path: Seq<char>,
    coord: Seq<int>,
    p: Seq<char>,
    c: Seq<int>,
)
    requires
        0 <= i < s.len(),
        s[i].path@ == path,
        ints64(s[i].coord@) == coord,
        e.path@ == path,
        ints64(e.coord@) == coord,
        forall|k: int|
            0 <= k < s.len() && k != i ==> !(#[trigger] s[k].path@ == path && ints64(s[k].coord@)
                == coord),
    ensures
        find_blk(s.update(i, e), p, c) == (if p == path && c == coord {
            Some(e.payload@)
        } else {
            find_blk(s, p, c)
        }),
    decreases s.len(),
{
    let t = s.update(i, e);
    if i == 0 {
        assert(t[0] == e);
        assert(t.drop_first() =~= s.drop_first());
        if p == path && c == coord {
        } else {
            assert(!(s[0].path@ == p && ints64(s[0].coord@) == c));
        }
    } else {
        assert(t[0] == s[0]);
        assert(t.drop_first() =~= s.drop_first().update(i - 1, e));
        assert(s.drop_first()[i - 1] == s[i]);
        assert forall|k: int|
            0 <= k < s.drop_first().len() && k != i - 1 implies !(#[trigger] s.drop_first()[k].path@
            == path && ints64(s.drop_first()[k].coord@) == coord) by {
            assert(s.drop_first()[k] == s[k + 1]);
        }
        lemma_find_blk_update_one(s.drop_first(), i - 1, e, path, coord, p, c);
        if p == path && c == coord {
            assert(!(s[0].path@ == p && ints64(s[0].coord@) == c));
        }
    }
}

/// The in-memory image of a store root.
#[derive(Debug)]
pub struct N5Store {
    datasets: Vec<DatasetEntry>,
    blocks: Vec<BlockEntry>,
}

impl N5Store {
    /// The attribute record of the dataset at `path`, if one exists.
    pub closed spec fn ds_record(&self, path: Seq<char>) -> Option<RecordV> {
        find_ds(self.datasets@, path)
    }

    /// The stored bytes of the block at `(path, coord)`, if any.
    pub closed spec fn blk(&self, path: Seq<char>, coord: Seq<int>) -> Option<Seq<u8>> {
        find_blk(self.blocks@, path, coord)
    }

    pub open spec fn has_dataset(&self, path: Seq<char>) -> bool {
        self.ds_record(path) is Some
    }

    /// Entries are keyed uniquely.
    pub closed spec fn wf(&self) -> bool {
        &&& forall|i: int, j: int|
            0 <= i < j < self.datasets@.len() ==> #[trigger] self.datasets@[i].path@
                != #[trigger] self.datasets@[j].path@
        &&& forall|i: int, j: int|
            0 <= i < j < self.blocks@.len() ==> !(#[trigger] self.blocks@[i].path@
                == #[trigger] self.blocks@[j].path@ && ints64(self.blocks@[i].coord@) == ints64(
                self.blocks@[j].coord@,
            ))
    }

    /// A block that is absent, or whose stored bytes decompress to
    /// exactly one nominal block of `attrs`, is readable.
    pub open spec fn block_ok(&self, path: Seq<char>, attrs: DatasetAttributes, g: Seq<int>) -> bool {
        match self.blk(path, g) {
            None => true,
            Some(pl) => match decompress_spec(attrs.compression, pl) {
                None => false,
                Some(content) => content.len() == attrs.spec_block_elems() * attrs.esize(),
            },
        }
    }

    /// The logical bytes of a present, readable block.
    pub open spec fn block_content(&self, path: Seq<char>, attrs: DatasetAttributes, g: Seq<int>) -> Seq<u8> {
        decompress_spec(attrs.compression, self.blk(path, g)->0)->0
    }

    /// A fresh, empty store root.
    pub fn empty() -> (r: N5Store)
        ensures
            r.wf(),
            forall|p: Seq<char>| #[trigger] r.ds_record(p) is None,
            forall|p: Seq<char>, c: Seq<int>| #[trigger] r.blk(p, c) is None,
    {
        let r = N5Store { datasets: Vec::new(), blocks: Vec::new() };
        proof {
            assert forall|p: Seq<char>| #[trigger] r.ds_record(p) is None by {
                lemma_find_ds_none(r.datasets@, p);
            }
            assert forall|p: Seq<char>, c: Seq<int>| #[trigger] r.blk(p, c) is None by {
                lemma_find_blk_none(r.blocks@, p, c);
            }
        }
        r
    }

    /// Open a root, creating it when absent: with `Some` prior
    /// contents the same store; with `None` a fresh empty one.
    /// Idempotent and infallible.
    pub fn open_or_create(prior: Option<N5Store>) -> (r: N5Store)
        ensures
            match prior {
                Some(s) => r == s,
                None => r.wf() && (forall|p: Seq<char>| #[trigger] r.ds_record(p) is None) && (
                forall|p: Seq<char>, c: Seq<int>| #[trigger] r.blk(p, c) is None),
            },
    {
        match prior {
            Some(s) => s,
            None => N5Store::empty(),
        }
    }

    /// Open an existing root read-only; fails with `RootNotFound`
    /// when there is none.
    pub fn open(prior: Option<N5Store>) -> (r: Result<N5Store, N5Error>)
        ensures
            match prior {
                Some(s) => r == Ok::<N5Store, N5Error>(s),
                None => r == Err::<N5Store, N5Error>(N5Error::RootNotFound),
            },
    {
        match prior {
            Some(s) => Ok(s),
            None => Err(N5Error::RootNotFound),
        }
    }

    fn find_ds_index(&self, path_name: &str) -> (r: Option<usize>)
        ensures
            match r {
                Some(i) => 0 <= i < self.datasets@.len() && self.datasets@[i as int].path@
                    == path_name@ && (forall|k: int|
                    0 <= k < i ==> #[trigger] self.datasets@[k].path@ != path_name@),
                None => forall|k: int|
                    0 <= k < self.datasets@.len() ==> #[trigger] self.datasets@[k].path@
                        != path_name@,
            },
    {
        let n = self.datasets.len();
        let mut i: usize = 0;
        while i < n
            invariant
                n == self.datasets@.len(),
                0 <= i <= n,
                forall|k: int| 0 <= k < i ==> #[trigger] self.datasets@[k].path@ != path_name@,
            decreases n - i,
        {
            if str_eq(self.datasets[i].path.as_str(), path_name) {
                return Some(i);
            }
            i += 1;
        }
        None
    }

    fn find_blk_index(&self, path_name: &str, coord: &Vec<i64>) -> (r: Option<usize>)
        ensures
            match r {
                Some(i) => 0 <= i < self.blocks@.len() && self.blocks@[i as int].path@ == path_name@
                    && ints64(self.blocks@[i as int].coord@) == ints64(coord@) && (forall|k: int|
                    0 <= k < i ==> !(#[trigger] self.blocks@[k].path@ == path_name@ && ints64(
                        self.blocks@[k].coord@,
                    ) == ints64(coord@))),
                None => forall|k: int|
                    0 <= k < self.blocks@.len() ==> !(#[trigger] self.blocks@[k].path@ == path_name@
                        && ints64(self.blocks@[k].coord@) == ints64(coord@)),
            },
    {
        let n = self.blocks.len();
        let mut i: usize = 0;
        while i < n
            invariant
                n == self.blocks@.len(),
                0 <= i <= n,
                forall|k: int|
                    0 <= k < i ==> !(#[trigger] self.blocks@[k].path@ == path_name@ && ints64(
                        self.blocks@[k].coord@,
                    ) == ints64(coord@)),
            decreases n - i,
        {
            if str_eq(self.blocks[i].path.as_str(), path_name) && vec_i64_eq(
                &self.blocks[i].coord,
                coord,
            ) {
                return Some(i);
            }
            i += 1;
        }
        None
    }

    /// True exactly when a dataset is present at the path.
    pub fn dataset_exists(&self, path_name: &str) -> (r: bool)
        ensures
            r == self.has_dataset(path_name@),
    {
        match self.find_ds_index(path_name) {
            Some(i) => {
                proof {
                    lemma_find_ds_at(self.datasets@, i as int, path_name@);
                }
                true
            },
            None => {
                proof {
                    lemma_find_ds_none(self.datasets@, path_name@);
                }
                false
            },
        }
    }

    /// Persist a raw attribute record as a new dataset.  Fails with
    /// `DatasetAlreadyExists` when the path is taken; the record is
    /// stored as given, without validation (validation happens when
    /// attributes are read back).
    pub fn create_dataset_from_record(&mut self, path_name: &str, record: &AttributeRecord) -> (r:
        Result<(), N5Error>)
        requires
            old(self).wf(),
        ensures
            final(self).wf(),
            r is Ok <==> !old(self).has_dataset(path_name@),
            r is Err ==> r == Err::<(), N5Error>(N5Error::DatasetAlreadyExists) && *final(self)
                == *old(self),
            r is Ok ==> final(self).ds_record(path_name@) == Some(record@) && records_same_except(
                *old(self),
                *final(self),
                path_name@,
            ) && blocks_same(*old(self), *final(self)),
    {
        match self.find_ds_index(path_name) {
            Some(i) => {
                proof {
                    lemma_find_ds_at(self.datasets@, i as int, path_name@);
                }
                Err(N5Error::DatasetAlreadyExists)
            },
            None => {
                proof {
                    lemma_find_ds_none(self.datasets@, path_name@);
                }
                let e = DatasetEntry { path: path_name.to_owned(), record: record.duplicate() };
                let ghost pre = *self;
                self.datasets.push(e);
                proof {
                    assert(self.datasets@ == pre.datasets@.push(e));
                    assert forall|p: Seq<char>| true implies #[trigger] self.ds_record(p) == (if p
                        == path_name@ {
                        Some(record@)
                    } else {
                        pre.ds_record(p)
                    }) by {
                        lemma_find_ds_push(pre.datasets@, e, p);
                    }
                    assert forall|p: Seq<char>, c: Seq<int>| true implies #[trigger] self.blk(p, c)
                        == pre.blk(p, c) by {}
                    assert forall|i2: int, j2: int|
                        0 <= i2 < j2 < self.datasets@.len() implies #[trigger] self.datasets@[i2].path@
                        != #[trigger] self.datasets@[j2].path@ by {
                        if j2 == self.datasets@.len() - 1 {
                            assert(self.datasets@[i2] == pre.datasets@[i2]);
                        }
                    }
                }
                Ok(())
            },
        }
    }

    /// Create a dataset from validated attributes; its attribute
    /// record is the record image of `attrs`.
    pub fn create_dataset(&mut self, path_name: &str, attrs: &DatasetAttributes) -> (r: Result<
        (),
        N5Error,
    >)
        requires
            old(self).wf(),
            attrs.wf(),
        ensures
            final(self).wf(),
            r is Ok <==> !old(self).has_dataset(path_name@),
            r is Err ==> r == Err::<(), N5Error>(N5Error::DatasetAlreadyExists) && *final(self)
                == *old(self),
            r is Ok ==> final(self).ds_record(path_name@) == Some(spec_record_of(*attrs))
                && records_same_except(*old(self), *final(self), path_name@) && blocks_same(
                *old(self),
                *final(self),
            ),
    {
        let record = attrs.to_record();
        self.create_dataset_from_record(path_name, &record)
    }

    /// The raw attribute record at a path; `DatasetNotFound` when the
    /// dataset has not been created.
    pub fn get_dataset_record(&self, path_name: &str) -> (r: Result<AttributeRecord, N5Error>)
        ensures
            match self.ds_record(path_name@) {
                Some(rv) => r matches Ok(rec) && rec@ == rv,
                None => r == Err::<AttributeRecord, N5Error>(N5Error::DatasetNotFound),
            },
    {
        match self.find_ds_index(path_name) {
            Some(i) => {
                proof {
                    lemma_find_ds_at(self.datasets@, i as int, path_name@);
                }
                Ok(self.datasets[i].record.duplicate())
            },
            None => {
                proof {
                    lemma_find_ds_none(self.datasets@, path_name@);
                }
                Err(N5Error::DatasetNotFound)
            },
        }
    }

    /// The validated attributes at a path.  `DatasetNotFound` when
    /// absent; otherwise the record is parsed, failing with
    /// `UnsupportedDataType`, `UnsupportedCodec` or
    /// `AttributeParseError` as the record demands.
    pub fn get_dataset_attributes(&self, path_name: &str) -> (r: Result<DatasetAttributes, N5Error>)
        ensures
            match self.ds_record(path_name@) {
                Some(rv) => parse_outcome_ok(rv, r),
                None => r == Err::<DatasetAttributes, N5Error>(N5Error::DatasetNotFound),
            },
    {
        let rec = match self.get_dataset_record(path_name) {
            Ok(rec) => rec,
            Err(e) => {
                return Err(e);
            },
        };
        record_to_attributes(&rec)
    }

    /// Store `payload` under `(path, coord)`, replacing any previous
    /// bytes there.  The dataset must exist.
    pub(crate) fn put_block_payload(&mut self, path_name: &str, coord: &Vec<i64>, payload: Vec<u8>)
        requires
            old(self).wf(),
        ensures
            final(self).wf(),
            final(self).blk(path_name@, ints64(coord@)) == Some(payload@),
            blocks_same_except(*old(self), *final(self), path_name@, ints64(coord@)),
            records_same(*old(self), *final(self)),
    {
        let ghost pre = *self;
        match self.find_blk_index(path_name, coord) {
            Some(i) => {
                let e = BlockEntry {
                    path: path_name.to_owned(),
                    coord: copy_vec_i64(coord),
                    payload,
                };
                self.blocks[i] = e;
                proof {
                    assert(self.blocks@ == pre.blocks@.update(i as int, e));
                    assert forall|k: int|
                        0 <= k < pre.blocks@.len() && k != i implies !(
                        #[trigger] pre.blocks@[k].path@ == path_name@ && ints64(
                            pre.blocks@[k].coord@,
                        ) == ints64(coord@)) by {
                        if k > i {
                            if pre.blocks@[k].path@ == path_name@ && ints64(pre.blocks@[k].coord@)
                                == ints64(coord@) {
                                assert(false);
                            }
                        }
                    }
                    lemma_find_blk_update(pre.blocks@, i as int, e, path_name@, ints64(coord@));
                    assert forall|i2: int, j2: int|
                        0 <= i2 < j2 < self.blocks@.len() implies !(
                        #[trigger] self.blocks@[i2].path@ == #[trigger] self.blocks@[j2].path@
                            && ints64(self.blocks@[i2].coord@) == ints64(
                            self.blocks@[j2].coord@,
                        )) by {
                        if i2 != i && j2 != i {
                            assert(self.blocks@[i2] == pre.blocks@[i2]);
                            assert(self.blocks@[j2] == pre.blocks@[j2]);
                        }
                    }
                }
            },
            None => {
                let e = BlockEntry {
                    path: path_name.to_owned(),
                    coord: copy_vec_i64(coord),
                    payload,
                };
                self.blocks.push(e);
                proof {
                    assert(self.blocks@ == pre.blocks@.push(e));
                    assert forall|p: Seq<char>, c: Seq<int>| true implies #[trigger] self.blk(p, c)
                        == (if p == path_name@ && c == ints64(coord@) {
                        Some(payload@)
                    } else {
                        pre.blk(p, c)
                    }) by {
                        lemma_find_blk_push(pre.blocks@, e, p, c);
                        if p == path_name@ && c == ints64(coord@) {
                            lemma_find_blk_none(pre.blocks@, p, c);
                        }
                    }
                    assert forall|i2: int, j2: int|
                        0 <= i2 < j2 < self.blocks@.len() implies !(
                        #[trigger] self.blocks@[i2].path@ == #[trigger] self.blocks@[j2].path@
                            && ints64(self.blocks@[i2].coord@) == ints64(
                            self.blocks@[j2].coord@,
                        )) by {
                        if j2 == self.blocks@.len() - 1 {
                            assert(self.blocks@[i2] == pre.blocks@[i2]);
                        }
                    }
                }
            },
        }
    }

    /// Install raw stored bytes for a block, as a loader does when it
    /// brings a root's durable image into memory.  No decompression
    /// or length check is performed.  `DatasetNotFound` when the
    /// dataset has not been created.
    pub fn insert_block_payload(&mut self, path_name: &str, coord: &Vec<i64>, payload: Vec<u8>) -> (r:
        Result<(), N5Error>)
        requires
            old(self).wf(),
        ensures
            final(self).wf(),
            r is Ok <==> old(self).has_dataset(path_name@),
            r is Err ==> r == Err::<(), N5Error>(N5Error::DatasetNotFound) && *final(self) == *old(
                self,
            ),
            r is Ok ==> final(self).blk(path_name@, ints64(coord@)) == Some(payload@)
                && blocks_same_except(*old(self), *final(self), path_name@, ints64(coord@))
                && records_same(*old(self), *final(self)),
    {
        if !self.dataset_exists(path_name) {
            return Err(N5Error::DatasetNotFound);
        }
        self.put_block_payload(path_name, coord, payload);
        Ok(())
    }

    /// The raw stored bytes of a block, as a saver reads them to
    /// write a root's durable image out.  `Ok(None)` when the
    /// coordinate was never written; `DatasetNotFound` when the
    /// dataset has not been created.
    pub fn get_block_payload(&self, path_name: &str, coord: &Vec<i64>) -> (r: Result<
        Option<Vec<u8>>,
        N5Error,
    >)
        ensures
            match r {
                Ok(opt) => self.has_dataset(path_name@) && (match self.blk(
                    path_name@,
                    ints64(coord@),
                ) {
                    Some(pl) => opt matches Some(v) && v@ == pl,
                    None => opt is None,
                }),
                Err(e) => e == N5Error::DatasetNotFound && !self.has_dataset(path_name@),
            },
    {
        if !self.dataset_exists(path_name) {
            return Err(N5Error::DatasetNotFound);
        }
        match self.find_blk_index(path_name, coord) {
            Some(i) => {
                proof {
                    lemma_find_blk_at(self.blocks@, i as int, path_name@, ints64(coord@));
                }
                Ok(Some(copy_vec_u8(&self.blocks[i].payload)))
            },
            None => {
                proof {
                    lemma_find_blk_none(self.blocks@, path_name@, ints64(coord@));
                }
                Ok(None)
            },
        }
    }

    /// Read one block's logical bytes.  `Ok(None)` when the
    /// coordinate was never written; `CorruptBlock` when stored bytes
    /// fail decompression or decompress to a length other than the
    /// nominal block byte count of `attrs`; `DatasetNotFound` when
    /// the dataset has not been created.
    pub fn read_block(&self, path_name: &str, attrs: &DatasetAttributes, coord: &Vec<i64>) -> (r:
        Result<Option<Vec<u8>>, N5Error>)
        requires
            attrs.wf(),
        ensures
            match r {
                Ok(Some(data)) => self.has_dataset(path_name@) && self.blk(
                    path_name@,
                    ints64(coord@),
                ) is Some && self.block_ok(path_name@, *attrs, ints64(coord@)) && data@
                    == self.block_content(path_name@, *attrs, ints64(coord@)) && data@.len()
                    == attrs.spec_block_elems() * attrs.esize(),
                Ok(None) => self.has_dataset(path_name@) && self.blk(
                    path_name@,
                    ints64(coord@),
                ) is None,
                Err(e) => match e {
                    N5Error::DatasetNotFound => !self.has_dataset(path_name@),
                    N5Error::CorruptBlock => self.has_dataset(path_name@) && self.blk(
                        path_name@,
                        ints64(coord@),
                    ) is Some && !self.block_ok(path_name@, *attrs, ints64(coord@)),
                    _ => false,
                },
            },
    {
        if !self.dataset_exists(path_name) {
            return Err(N5Error::DatasetNotFound);
        }
        let payload = match self.find_blk_index(path_name, coord) {
            Some(i) => {
                proof {
                    lemma_find_blk_at(self.blocks@, i as int, path_name@, ints64(coord@));
                }
                &self.blocks[i].payload
            },
            None => {
                proof {
                    lemma_find_blk_none(self.blocks@, path_name@, ints64(coord@));
                }
                return Ok(None);
            },
        };
        let content = match decompress(&attrs.compression, payload) {
            Some(c) => c,
            None => {
                return Err(N5Error::CorruptBlock);
            },
        };
        let expected = attrs.block_bytes();
        if content.len() != expected {
            return Err(N5Error::CorruptBlock);
        }
        Ok(Some(content))
    }

    /// Write one block.  The buffer must hold exactly the nominal
    /// block byte count of `attrs` (`BlockSizeMismatch` otherwise,
    /// reporting expected and actual byte counts); the dataset must
    /// exist (`DatasetNotFound` otherwise).  On success the stored
    /// bytes at the position become the codec-compressed buffer,
    /// overwriting any previous content; everything else is
    /// unchanged.  The position itself is taken as given and is not
    /// held against the dataset's grid extent.
    pub fn write_block(
        &mut self,
        path_name: &str,
        attrs: &DatasetAttributes,
        position: &Vec<i64>,
        data: &Vec<u8>,
    ) -> (r: Result<(), N5Error>)
        requires
            old(self).wf(),
            attrs.wf(),
        ensures
            final(self).wf(),
            match r {
                Ok(()) => data@.len() == attrs.spec_block_elems() * attrs.esize() && old(
                    self,
                ).has_dataset(path_name@) && final(self).blk(path_name@, ints64(position@))
                    == Some(compress_spec(attrs.compression, data@)) && decompress_spec(
                    attrs.compression,
                    compress_spec(attrs.compression, data@),
                ) == Some(data@) && blocks_same_except(
                    *old(self),
                    *final(self),
                    path_name@,
                    ints64(position@),
                ) && records_same(*old(self), *final(self)),
                Err(e) => *final(self) == *old(self) && match e {
                    N5Error::BlockSizeMismatch { expected, actual } => expected
                        == attrs.spec_block_elems() * attrs.esize() && actual == data@.len()
                        && actual != expected,
                    N5Error::DatasetNotFound => data@.len() == attrs.spec_block_elems()
                        * attrs.esize() && !old(self).has_dataset(path_name@),
                    _ => false,
                },
            },
    {
        let expected = attrs.block_bytes();
        if data.len() != expected {
            return Err(N5Error::BlockSizeMismatch { expected, actual: data.len() });
        }
        if !self.dataset_exists(path_name) {
            return Err(N5Error::DatasetNotFound);
        }
        let payload = compress(&attrs.compression, data);
        self.put_block_payload(path_name, position, payload);
        Ok(())
    }
}

/// All attribute records agree between the two stores.
pub open spec fn records_same(s0: N5Store, s1: N5Store) -> bool {
    forall|p: Seq<char>| #[trigger] s1.ds_record(p) == s0.ds_record(p)
}

/// All attribute records but the one at `path` agree.
pub open spec fn records_same_except(s0: N5Store, s1: N5Store, path: Seq<char>) -> bool {
    forall|p: Seq<char>| p != path ==> #[trigger] s1.ds_record(p) == s0.ds_record(p)
}

/// All stored block bytes agree between the two stores.
pub open spec fn blocks_same(s0: N5Store, s1: N5Store) -> bool {
    forall|p: Seq<char>, c: Seq<int>| #[trigger] s1.blk(p, c) == s0.blk(p, c)
}

/// All stored block bytes but those at `(path, coord)` agree.
pub open spec fn blocks_same_except(s0: N5Store, s1: N5Store, path: Seq<char>, coord: Seq<int>) -> bool {
    forall|p: Seq<char>, c: Seq<int>|
        !(p == path && c == coord) ==> #[trigger] s1.blk(p, c) == s0.blk(p, c)
}

} // verus!
