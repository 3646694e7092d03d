//! Block codecs: the reversible transform between a block's logical
//! byte buffer and its stored representation.
//!
//! `Raw` stores bytes as they are.  `Gzip` delegates to the flate2
//! crate; what its encoder and decoder return is named by the two
//! uninterpreted functions `gzip_of` and `gunzip_of`, and the library
//! relies on the documented fact that decoding inverts encoding.

use vstd::prelude::*;
use crate::strutil::str_eq;

verus! {

/// The bytes that flate2's gzip encoder produces at a given level for
/// given input bytes.  flate2 writes reproducible streams (zero
/// timestamp, fixed operating-system byte), so this is a function of
/// the level and the input alone.
pub uninterp spec fn gzip_of(level: int, data: Seq<u8>) -> Seq<u8>;

/// What flate2's gzip decoder yields for given input bytes: the
/// decoded bytes, or `None` when the stream is not valid gzip.
pub uninterp spec fn gunzip_of(data: Seq<u8>) -> Option<Seq<u8>>;

/// Relies on flate2's `write::GzEncoder` over a `Vec<u8>` sink, which
/// cannot fail: the result is the gzip encoding of `data` at `level`,
/// and `read::GzDecoder` decodes it back to `data` (gzip is lossless).
#[verifier::external_body]
fn gzip_compress_raw(data: &Vec<u8>, level: u8) -> (r: Vec<u8>)
    requires
        level <= 9,
    ensures
        r@ == gzip_of(level as int, data@),
        gunzip_of(r@) == Some(data@),
{
    let mut enc = flate2::write::GzEncoder::new(
        Vec::new(),
        flate2::Compression::new(level as u32),
    );
    std::io::Write::write_all(&mut enc, data.as_slice())
        .expect("a vec-backed gzip encoder does not fail");
    enc.finish().expect("a vec-backed gzip encoder does not fail")
}

/// Relies on flate2's `read::GzDecoder`: decoding yields the decoded
/// bytes of a valid gzip stream and an error otherwise.
#[verifier::external_body]
fn gzip_decompress_raw(data: &Vec<u8>) -> (r: Option<Vec<u8>>)
    ensures
        match gunzip_of(data@) {
            Some(x) => r is Some && r->0@ == x,
            None => r is None,
        },
{
    let mut dec = flate2::read::GzDecoder::new(data.as_slice());
    let mut out: Vec<u8> = Vec::new();
    match std::io::Read::read_to_end(&mut dec, &mut out) {
        Ok(_) => Some(out),
        Err(_) => None,
    }
}

/// The codec of a dataset, fixed when the dataset is created.
#[derive(Debug, Clone, Copy, PartialEq, Eq, Structural)]
pub enum Compression {
    /// Bytes are stored untransformed.
    Raw,
    /// Bytes are stored gzip-compressed at the given level (0 to 9).
    Gzip { level: u8 },
}

/// The level flate2 uses when none is chosen.
pub const DEFAULT_GZIP_LEVEL: u8 = 6;

impl Compression {
    pub open spec fn wf(self) -> bool {
        match self {
            Compression::Raw => true,
            Compression::Gzip { level } => level <= 9,
        }
    }

    /// The identifier under which the codec appears in an attribute
    /// record.
    pub open spec fn spec_tag(self) -> Seq<char> {
        match self {
            Compression::Raw => "raw"@,
            Compression::Gzip { .. } => "gzip"@,
        }
    }

    pub fn tag(&self) -> (r: String)
        ensures
            r@ == self.spec_tag(),
    {
        match self {
            Compression::Raw => "raw".to_owned(),
            Compression::Gzip { .. } => "gzip".to_owned(),
        }
    }

    /// The default codec of a new dataset: gzip at flate2's default
    /// level.
    pub fn gzip_default() -> (r: Compression)
        ensures
            r == (Compression::Gzip { level: DEFAULT_GZIP_LEVEL }),
            r.wf(),
    {
        Compression::Gzip { level: DEFAULT_GZIP_LEVEL }
    }
}

/// The stored bytes of a block whose logical bytes are `data`.
pub open spec fn compress_spec(c: Compression, data: Seq<u8>) -> Seq<u8> {
    match c {
        Compression::Raw => data,
        Compression::Gzip { level } => gzip_of(level as int, data),
    }
}

/// The logical bytes recovered from stored bytes, or `None` when the
/// stored bytes are not a valid stream of the codec.
pub open spec fn decompress_spec(c: Compression, data: Seq<u8>) -> Option<Seq<u8>> {
    match c {
        Compression::Raw => Some(data),
        Compression::Gzip { .. } => gunzip_of(data),
    }
}

/// A fresh byte-for-byte copy of a buffer.
pub fn copy_vec_u8(data: &Vec<u8>) -> (r: Vec<u8>)
    ensures
        r@ == data@,
{
    let n = data.len();
    let mut r: Vec<u8> = Vec::new();
    let mut i: usize = 0;
    while i < n
        invariant
            n == data@.len(),
            0 <= i <= n,
            r@ == data@.take(i as int),
        decreases n - i,
    {
        r.push(data[i]);
        proof {
            assert(r@ =~= data@.take(i + 1));
        }
        i += 1;
    }
    proof {
        assert(data@.take(n as int) =~= data@);
    }
    r
}

/// Compress a block's logical bytes.  Deterministic; never fails; the
/// result decompresses back to `data` under the same codec.
pub fn compress(c: &Compression, data: &Vec<u8>) -> (r: Vec<u8>)
    requires
        c.wf(),
    ensures
        r@ == compress_spec(*c, data@),
        decompress_spec(*c, r@) == Some(data@),
{
    match c {
        Compression::Raw => copy_vec_u8(data),
        Compression::Gzip { level } => gzip_compress_raw(data, *level),
    }
}

/// Decompress a block's stored bytes; `None` when the stream is
/// malformed for the codec.
pub fn decompress(c: &Compression, data: &Vec<u8>) -> (r: Option<Vec<u8>>)
    ensures
        match decompress_spec(*c, data@) {
            Some(x) => r is Some && r->0@ == x,
            None => r is None,
        },
{
    match c {
        Compression::Raw => Some(copy_vec_u8(data)),
        Compression::Gzip { .. } => gzip_decompress_raw(data),
    }
}

/// Which codec, if any, a record's identifier and level name.
/// A gzip level of `-1` asks for the default; levels above 9 (or
/// below -1) are malformed.
pub open spec fn spec_codec_from_record(name: Seq<char>, level: int) -> Option<Compression> {
    if name =~= "raw"@ {
        Some(Compression::Raw)
    } else if name =~= "gzip"@ {
        if level == -1 {
            Some(Compression::Gzip { level: DEFAULT_GZIP_LEVEL as u8 })
        } else if 0 <= level <= 9 {
            Some(Compression::Gzip { level: level as u8 })
        } else {
            None
        }
    } else {
        None
    }
}

/// True when the identifier itself is known, whatever the level says.
pub open spec fn spec_codec_name_known(name: Seq<char>) -> bool {
    name =~= "raw"@ || name =~= "gzip"@
}

pub fn codec_from_record(name: &str, level: i32) -> (r: Option<Compression>)
    ensures
        r == spec_codec_from_record(name@, level as int),
{
    if str_eq(name, "raw") {
        Some(Compression::Raw)
    } else if str_eq(name, "gzip") {
        if level == -1 {
            Some(Compression::Gzip { level: DEFAULT_GZIP_LEVEL })
        } else if 0 <= level && level <= 9 {
            Some(Compression::Gzip { level: level as u8 })
        } else {
            None
        }
    } else {
        None
    }
}

pub fn codec_name_known(name: &str) -> (r: bool)
    ensures
        r == spec_codec_name_known(name@),
{
    str_eq(name, "raw") || str_eq(name, "gzip")
}

/// A codec round-trips through its record form.
pub proof fn lemma_codec_record_round_trip(c: Compression)
    requires
        c.wf(),
    ensures
        spec_codec_from_record(
            c.spec_tag(),
            match c {
                Compression::Raw => 0,
                Compression::Gzip { level } => level as int,
            },
        ) == Some(c),
{
    reveal_strlit("raw");
    reveal_strlit("gzip");
    match c {
        Compression::Raw => {
            assert(spec_codec_from_record(c.spec_tag(), 0) == Some(c));
        },
        Compression::Gzip { level } => {
            assert("gzip"@[0] != "raw"@[0]);
            assert(spec_codec_from_record(c.spec_tag(), level as int) == Some(c));
        },
    }
}

} // verus!
