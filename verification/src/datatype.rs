//! The closed set of element types a dataset can hold.

use vstd::prelude::*;
use crate::strutil::str_eq;

verus! {

/// The ten supported element kinds.  The store itself moves raw bytes;
/// an element type enters the algorithms only through its byte width.
#[derive(Debug, Clone, Copy, PartialEq, Eq, Structural)]
pub enum DataType {
    UINT8,
    UINT16,
    UINT32,
    UINT64,
    INT8,
    INT16,
    INT32,
    INT64,
    FLOAT32,
    FLOAT64,
}

impl DataType {
    /// The width of one element, in bytes.
    pub open spec fn spec_size(self) -> int {
        match self {
            DataType::UINT8 | DataType::INT8 => 1,
            DataType::UINT16 | DataType::INT16 => 2,
            DataType::UINT32 | DataType::INT32 | DataType::FLOAT32 => 4,
            DataType::UINT64 | DataType::INT64 | DataType::FLOAT64 => 8,
        }
    }

    pub fn size_bytes(&self) -> (r: usize)
        ensures
            r == self.spec_size(),
            1 <= r <= 8,
    {
        match self {
            DataType::UINT8 | DataType::INT8 => 1,
            DataType::UINT16 | DataType::INT16 => 2,
            DataType::UINT32 | DataType::INT32 | DataType::FLOAT32 => 4,
            DataType::UINT64 | DataType::INT64 | DataType::FLOAT64 => 8,
        }
    }

    /// The case-sensitive tag under which the type appears in an
    /// attribute record.
    pub open spec fn spec_tag(self) -> Seq<char> {
        match self {
            DataType::UINT8 => "UINT8"@,
            DataType::UINT16 => "UINT16"@,
            DataType::UINT32 => "UINT32"@,
            DataType::UINT64 => "UINT64"@,
            DataType::INT8 => "INT8"@,
            DataType::INT16 => "INT16"@,
            DataType::INT32 => "INT32"@,
            DataType::INT64 => "INT64"@,
            DataType::FLOAT32 => "FLOAT32"@,
            DataType::FLOAT64 => "FLOAT64"@,
        }
    }

    pub fn tag(&self) -> (r: String)
        ensures
            r@ == self.spec_tag(),
    {
        match self {
            DataType::UINT8 => "UINT8".to_owned(),
            DataType::UINT16 => "UINT16".to_owned(),
            DataType::UINT32 => "UINT32".to_owned(),
            DataType::UINT64 => "UINT64".to_owned(),
            DataType::INT8 => "INT8".to_owned(),
            DataType::INT16 => "INT16".to_owned(),
            DataType::INT32 => "INT32".to_owned(),
            DataType::INT64 => "INT64".to_owned(),
            DataType::FLOAT32 => "FLOAT32".to_owned(),
            DataType::FLOAT64 => "FLOAT64".to_owned(),
        }
    }

    /// Which type, if any, a tag names.
    pub open spec fn spec_from_tag(s: Seq<char>) -> Option<DataType> {
        if s =~= "UINT8"@ {
            Some(DataType::UINT8)
        } else if s =~= "UINT16"@ {
            Some(DataType::UINT16)
        } else if s =~= "UINT32"@ {
            Some(DataType::UINT32)
        } else if s =~= "UINT64"@ {
            Some(DataType::UINT64)
        } else if s =~= "INT8"@ {
            Some(DataType::INT8)
        } else if s =~= "INT16"@ {
            Some(DataType::INT16)
        } else if s =~= "INT32"@ {
            Some(DataType::INT32)
        } else if s =~= "INT64"@ {
            Some(DataType::INT64)
        } else if s =~= "FLOAT32"@ {
            Some(DataType::FLOAT32)
        } else if s =~= "FLOAT64"@ {
            Some(DataType::FLOAT64)
        } else {
            None
        }
    }

    pub fn from_tag(s: &str) -> (r: Option<DataType>)
        ensures
            r == Self::spec_from_tag(s@),
    {
        if str_eq(s, "UINT8") {
            Some(DataType::UINT8)
        } else if str_eq(s, "UINT16") {
            Some(DataType::UINT16)
        } else if str_eq(s, "UINT32") {
            Some(DataType::UINT32)
        } else if str_eq(s, "UINT64") {
            Some(DataType::UINT64)
        } else if str_eq(s, "INT8") {
            Some(DataType::INT8)
        } else if str_eq(s, "INT16") {
            Some(DataType::INT16)
        } else if str_eq(s, "INT32") {
            Some(DataType::INT32)
        } else if str_eq(s, "INT64") {
            Some(DataType::INT64)
        } else if str_eq(s, "FLOAT32") {
            Some(DataType::FLOAT32)
        } else if str_eq(s, "FLOAT64") {
            Some(DataType::FLOAT64)
        } else {
            None
        }
    }
}

/// A tag round-trips: parsing the tag of a type yields that type back.
pub proof fn lemma_tag_round_trip(dt: DataType)
    ensures
        DataType::spec_from_tag(dt.spec_tag()) == Some(dt),
{
    reveal_strlit("UINT8");
    reveal_strlit("UINT16");
    reveal_strlit("UINT32");
    reveal_strlit("UINT64");
    reveal_strlit("INT8");
    reveal_strlit("INT16");
    reveal_strlit("INT32");
    reveal_strlit("INT64");
    reveal_strlit("FLOAT32");
    reveal_strlit("FLOAT64");
    match dt {
        DataType::UINT8 => {
            assert(DataType::spec_from_tag(dt.spec_tag()) == Some(dt));
        },
        DataType::UINT16 => {
            assert(DataType::spec_from_tag(dt.spec_tag()) == Some(dt));
        },
        DataType::UINT32 => {
            assert("UINT32"@[4] != "UINT16"@[4]);
            assert(DataType::spec_from_tag(dt.spec_tag()) == Some(dt));
        },
        DataType::UINT64 => {
            assert("UINT64"@[4] != "UINT16"@[4]);
            assert("UINT64"@[4] != "UINT32"@[4]);
            assert(DataType::spec_from_tag(dt.spec_tag()) == Some(dt));
        },
        DataType::INT8 => {
            assert(DataType::spec_from_tag(dt.spec_tag()) == Some(dt));
        },
        DataType::INT16 => {
            assert("INT16"@[0] != "UINT8"@[0]);
            assert(DataType::spec_from_tag(dt.spec_tag()) == Some(dt));
        },
        DataType::INT32 => {
            assert("INT32"@[0] != "UINT8"@[0]);
            assert("INT32"@[3] != "INT16"@[3]);
            assert(DataType::spec_from_tag(dt.spec_tag()) == Some(dt));
        },
        DataType::INT64 => {
            assert("INT64"@[0] != "UINT8"@[0]);
            assert("INT64"@[3] != "INT16"@[3]);
            assert("INT64"@[3] != "INT32"@[3]);
            assert(DataType::spec_from_tag(dt.spec_tag()) == Some(dt));
        },
        DataType::FLOAT32 => {
            assert(DataType::spec_from_tag(dt.spec_tag()) == Some(dt));
        },
        DataType::FLOAT64 => {
            assert("FLOAT64"@[5] != "FLOAT32"@[5]);
            assert(DataType::spec_from_tag(dt.spec_tag()) == Some(dt));
        },
    }
}

} // verus!
