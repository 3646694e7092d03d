//! The dataset facade: one opened dataset, tying the store to its
//! resolved attributes, plus top-level dataset creation.

use vstd::prelude::*;
use crate::attrs::attrs_match_record;
use crate::attrs::parse_outcome_ok;
use crate::attrs::spec_record_of;
use crate::attrs::spec_shape_ok;
use crate::attrs::DatasetAttributes;
use crate::codec::Compression;
use crate::coords::copy_vec_i32;
use crate::coords::ints32;
use crate::coords::ints64;
use crate::coords::in_shape;
use crate::coords::lin;
use crate::coords::prod;
use crate::buffer::elem;
use crate::datatype::DataType;
use crate::errors::N5Error;
use crate::ndarray::box_readable;
use crate::ndarray::box_wf;
use crate::ndarray::ds_elem;
use crate::ndarray::partials_readable;
use crate::ndarray::write_nd_post;
use crate::store::blocks_same;
use crate::store::blocks_same_except;
use crate::store::records_same;
use crate::store::records_same_except;
use crate::store::N5Store;

verus! {

/// An opened dataset: the store it lives in, its relative path, and
/// its resolved attributes.
#[derive(Debug)]
pub struct Dataset {
    store: N5Store,
    path: String,
    attrs: DatasetAttributes,
}

impl Dataset {
    pub closed spec fn spec_store(&self) -> N5Store {
        self.store
    }

    pub closed spec fn spec_path(&self) -> Seq<char> {
        self.path@
    }

    pub closed spec fn spec_attrs(&self) -> DatasetAttributes {
        self.attrs
    }

    /// A facade is coherent: its store is well formed, the dataset
    /// exists there, and the held attributes parse from its record.
    pub open spec fn wf(&self) -> bool {
        &&& self.spec_store().wf()
        &&& self.spec_attrs().wf()
        &&& self.spec_store().ds_record(self.spec_path()) matches Some(rv) && attrs_match_record(
            self.spec_attrs(),
            rv,
        )
    }

    /// Open a dataset that already exists in the store: its
    /// attributes are read back from its record.  With `read_only`
    /// the root must exist (`RootNotFound` otherwise); without it an
    /// absent root is created empty (and the open then fails with
    /// `DatasetNotFound`).  Attribute faults surface as in
    /// `get_dataset_attributes`.
    pub fn open(prior: Option<N5Store>, path_name: &str, read_only: bool) -> (r: Result<
        Dataset,
        N5Error,
    >)
        requires
            prior matches Some(s) ==> s.wf(),
        ensures
            r matches Ok(ds) ==> ds.wf() && ds.spec_path() == path_name@,
            prior is None && read_only ==> r == Err::<Dataset, N5Error>(N5Error::RootNotFound),
            prior is None && !read_only ==> r == Err::<Dataset, N5Error>(N5Error::DatasetNotFound),
            prior matches Some(s) ==> (match s.ds_record(path_name@) {
                Some(rv) => (match r {
                    Ok(ds) => ds.spec_store() == s && parse_outcome_ok(rv, Ok(ds.spec_attrs())),
                    Err(e) => parse_outcome_ok(rv, Err(e)),
                }),
                None => r == Err::<Dataset, N5Error>(N5Error::DatasetNotFound),
            }),
    {
        let store = if read_only {
            match N5Store::open(prior) {
                Ok(s) => s,
                Err(e) => {
                    return Err(e);
                },
            }
        } else {
            N5Store::open_or_create(prior)
        };
        let attrs = match store.get_dataset_attributes(path_name) {
            Ok(a) => a,
            Err(e) => {
                return Err(e);
            },
        };
        Ok(Dataset { store, path: path_name.to_owned(), attrs })
    }

    /// Create a dataset in the store and open it.  Fails with
    /// `DatasetAlreadyExists` when the path is taken.
    pub fn create(prior: Option<N5Store>, path_name: &str, attrs: DatasetAttributes) -> (r: Result<
        Dataset,
        N5Error,
    >)
        requires
            prior matches Some(s) ==> s.wf(),
            attrs.wf(),
        ensures
            match r {
                Ok(ds) => ds.wf() && ds.spec_path() == path_name@ && ds.spec_attrs() == attrs
                    && ds.spec_store().ds_record(path_name@) == Some(spec_record_of(attrs)) && (
                prior matches Some(s) ==> !s.has_dataset(path_name@) && records_same_except(
                    s,
                    ds.spec_store(),
                    path_name@,
                ) && blocks_same(s, ds.spec_store())),
                Err(e) => e == N5Error::DatasetAlreadyExists && (prior matches Some(s)
                    && s.has_dataset(path_name@)),
            },
    {
        let mut store = N5Store::open_or_create(prior);
        match store.create_dataset(path_name, &attrs) {
            Ok(()) => {},
            Err(e) => {
                return Err(e);
            },
        }
        proof {
            crate::attrs::lemma_record_round_trip(attrs);
        }
        Ok(Dataset { store, path: path_name.to_owned(), attrs })
    }

    /// Give the underlying store back, e.g. to persist it.
    pub fn into_store(self) -> (r: N5Store)
        ensures
            r == self.spec_store(),
    {
        self.store
    }

    /// The dataset's nominal block shape.
    pub fn block_shape(&self) -> (r: Vec<i32>)
        ensures
            ints32(r@) == self.spec_attrs().bs(),
    {
        copy_vec_i32(&self.attrs.block_size)
    }

    /// The dataset's attributes.
    pub fn attributes(&self) -> (r: &DatasetAttributes)
        ensures
            *r == self.spec_attrs(),
    {
        &self.attrs
    }

    /// Read one block's element buffer; `None` for a never-written
    /// coordinate.
    pub fn read_block(&self, coord: &Vec<i64>) -> (r: Result<Option<Vec<u8>>, N5Error>)
        requires
            self.wf(),
        ensures
            match r {
                Ok(Some(data)) => self.spec_store().blk(self.spec_path(), ints64(coord@)) is Some
                    && self.spec_store().block_ok(
                    self.spec_path(),
                    self.spec_attrs(),
                    ints64(coord@),
                ) && data@ == self.spec_store().block_content(
                    self.spec_path(),
                    self.spec_attrs(),
                    ints64(coord@),
                ),
                Ok(None) => self.spec_store().blk(self.spec_path(), ints64(coord@)) is None,
                Err(e) => e == N5Error::CorruptBlock && !self.spec_store().block_ok(
                    self.spec_path(),
                    self.spec_attrs(),
                    ints64(coord@),
                ),
            },
    {
        self.store.read_block(self.path.as_str(), &self.attrs, coord)
    }

    /// Write one block at the given grid position; the buffer must
    /// hold exactly one nominal block's bytes.
    pub fn write_block(&mut self, position: &Vec<i64>, data: &Vec<u8>) -> (r: Result<(), N5Error>)
        requires
            old(self).wf(),
        ensures
            final(self).wf(),
            final(self).spec_path() == old(self).spec_path(),
            final(self).spec_attrs() == old(self).spec_attrs(),
            match r {
                Ok(()) => data@.len() == old(self).spec_attrs().spec_block_elems() * old(
                    self,
                ).spec_attrs().esize() && final(self).spec_store().blk(
                    old(self).spec_path(),
                    ints64(position@),
                ) == Some(
                    crate::codec::compress_spec(old(self).spec_attrs().compression, data@),
                ) && crate::codec::decompress_spec(
                    old(self).spec_attrs().compression,
                    crate::codec::compress_spec(old(self).spec_attrs().compression, data@),
                ) == Some(data@) && blocks_same_except(
                    old(self).spec_store(),
                    final(self).spec_store(),
                    old(self).spec_path(),
                    ints64(position@),
                ) && records_same(old(self).spec_store(), final(self).spec_store()),
                Err(e) => final(self).spec_store() == old(self).spec_store() && (e matches
                    N5Error::BlockSizeMismatch { expected, actual } && expected == old(
                    self,
                ).spec_attrs().spec_block_elems() * old(self).spec_attrs().esize() && actual
                    == data@.len() && actual != expected),
            },
    {
        let r = self.store.write_block(self.path.as_str(), &self.attrs, position, data);
        match r {
            Ok(()) => Ok(()),
            Err(e) => Err(e),
        }
    }

    /// Read the box `(translation, dimensions)` as a dense array of
    /// element bytes, with `fill_value` for never-written regions.
    pub fn read_ndarray(
        &self,
        translation: &Vec<i64>,
        dimensions: &Vec<i64>,
        fill_value: &Vec<u8>,
    ) -> (r: Result<Vec<u8>, N5Error>)
        requires
            self.wf(),
            box_wf(self.spec_attrs(), ints64(translation@), ints64(dimensions@)),
            prod(ints64(dimensions@)) * self.spec_attrs().esize() <= usize::MAX,
            fill_value@.len() == self.spec_attrs().esize(),
        ensures
            match r {
                Ok(out) => box_readable(
                    self.spec_store(),
                    self.spec_path(),
                    self.spec_attrs(),
                    ints64(translation@),
                    ints64(dimensions@),
                ) && out@.len() == prod(ints64(dimensions@)) * self.spec_attrs().esize() && forall|
                    p: Seq<int>,
                |
                    #[trigger] in_shape(p, ints64(dimensions@)) ==> elem(
                        out@,
                        lin(p, ints64(dimensions@)),
                        self.spec_attrs().esize(),
                    ) == ds_elem(
                        self.spec_store(),
                        self.spec_path(),
                        self.spec_attrs(),
                        crate::coords::add_seq(ints64(translation@), p),
                        fill_value@,
                    ),
                Err(e) => e == N5Error::CorruptBlock && !box_readable(
                    self.spec_store(),
                    self.spec_path(),
                    self.spec_attrs(),
                    ints64(translation@),
                    ints64(dimensions@),
                ),
            },
    {
        self.store.read_ndarray(self.path.as_str(), &self.attrs, translation, dimensions, fill_value)
    }

    /// Scatter a dense array over the box at `translation`,
    /// preserving the untouched parts of partially covered blocks.
    pub fn write_ndarray(
        &mut self,
        translation: &Vec<i64>,
        dimensions: &Vec<i64>,
        data: &Vec<u8>,
        fill_value: &Vec<u8>,
    ) -> (r: Result<(), N5Error>)
        requires
            old(self).wf(),
            box_wf(old(self).spec_attrs(), ints64(translation@), ints64(dimensions@)),
            prod(ints64(dimensions@)) * old(self).spec_attrs().esize() <= usize::MAX,
            data@.len() == prod(ints64(dimensions@)) * old(self).spec_attrs().esize(),
            fill_value@.len() == old(self).spec_attrs().esize(),
        ensures
            final(self).wf(),
            final(self).spec_path() == old(self).spec_path(),
            final(self).spec_attrs() == old(self).spec_attrs(),
            match r {
                Ok(()) => partials_readable(
                    old(self).spec_store(),
                    old(self).spec_path(),
                    old(self).spec_attrs(),
                    ints64(translation@),
                    ints64(dimensions@),
                ) && write_nd_post(
                    old(self).spec_store(),
                    final(self).spec_store(),
                    old(self).spec_path(),
                    old(self).spec_attrs(),
                    ints64(translation@),
                    ints64(dimensions@),
                    data@,
                    fill_value@,
                ),
                Err(e) => e == N5Error::CorruptBlock && !partials_readable(
                    old(self).spec_store(),
                    old(self).spec_path(),
                    old(self).spec_attrs(),
                    ints64(translation@),
                    ints64(dimensions@),
                ),
            },
    {
        let r = self.store.write_ndarray(
            self.path.as_str(),
            &self.attrs,
            translation,
            dimensions,
            data,
            fill_value,
        );
        match r {
            Ok(()) => Ok(()),
            Err(e) => Err(e),
        }
    }
}

/// Create a dataset from plain values, as the top-level entry point
/// does: resolve the element-type tag, open the root (creating it
/// when absent), and create the dataset with the chosen codec (gzip
/// at the default level when none is given).  Returns the store in
/// every outcome, beside the result.
pub fn create_dataset(
    prior: Option<N5Store>,
    path_name: &str,
    dimensions: Vec<i64>,
    block_size: Vec<i32>,
    dtype: &str,
    compression: Option<Compression>,
) -> (r: (N5Store, Result<(), N5Error>))
    requires
        prior matches Some(s) ==> s.wf(),
        compression matches Some(c) ==> c.wf(),
    ensures
        r.0.wf(),
        match r.1 {
            Ok(()) => {
                &&& DataType::spec_from_tag(dtype@) is Some
                &&& spec_shape_ok(ints64(dimensions@), ints32(block_size@))
                &&& (prior matches Some(s) ==> !s.has_dataset(path_name@))
                &&& r.0.ds_record(path_name@) matches Some(rv) && rv == spec_record_of(
                    DatasetAttributes {
                        dimensions,
                        block_size,
                        data_type: DataType::spec_from_tag(dtype@)->0,
                        compression: match compression {
                            Some(c) => c,
                            None => Compression::Gzip { level: crate::codec::DEFAULT_GZIP_LEVEL },
                        },
                    },
                )
                &&& (prior matches Some(s) ==> records_same_except(s, r.0, path_name@)
                    && blocks_same(s, r.0))
            },
            Err(e) => (prior matches Some(s) ==> r.0 == s) && match e {
                N5Error::UnsupportedDataType { name } => name@ == dtype@ && DataType::spec_from_tag(
                    dtype@,
                ) is None,
                N5Error::DatasetAlreadyExists => DataType::spec_from_tag(dtype@) is Some && (prior
                    matches Some(s) && s.has_dataset(path_name@)),
                N5Error::InvalidShape => DataType::spec_from_tag(dtype@) is Some && (prior matches
                    Some(s) ==> !s.has_dataset(path_name@)) && !spec_shape_ok(
                    ints64(dimensions@),
                    ints32(block_size@),
                ),
                _ => false,
            },
        },
{
    let dt = match DataType::from_tag(dtype) {
        Some(dt) => dt,
        None => {
            let store = N5Store::open_or_create(prior);
            return (store, Err(N5Error::UnsupportedDataType { name: dtype.to_owned() }));
        },
    };
    let mut store = N5Store::open_or_create(prior);
    if store.dataset_exists(path_name) {
        return (store, Err(N5Error::DatasetAlreadyExists));
    }
    let codec = match compression {
        Some(c) => c,
        None => Compression::gzip_default(),
    };
    let attrs = match DatasetAttributes::new(dimensions, block_size, dt, codec) {
        Ok(a) => a,
        Err(e) => {
            return (store, Err(e));
        },
    };
    let cr = store.create_dataset(path_name, &attrs);
    proof {
        assert(cr is Ok);
    }
    (store, Ok(()))
}

} // verus!
