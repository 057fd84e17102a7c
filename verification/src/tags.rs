//! The tags by which values are classified.

use vstd::prelude::*;
use vstd::utf8::is_ascii_chars;
use vstd::utf8::is_ascii_chars_encode_utf8;
use vstd::utf8::encode_utf8;
use crate::names::name_lt;
use crate::names::lemma_bytes_lt_at;
use crate::names::lemma_name_lt_transitive;
use crate::names::lemma_name_lt_irreflexive;
use crate::names::lemma_name_lt_asymmetric;

verus! {

/// The number of tags.
pub const TAG_COUNT: usize = 12;

/// The kind of a value. The variants stand in the order of their names.
///
/// `Binary`, `Date`, `Decimal128` and `ObjectId` are the tags of the
/// extended classification; the others are given under every
/// classification.
#[derive(Clone, Copy, PartialEq, Eq, Structural, Debug)]
pub enum TypeTag {
    Array,
    Binary,
    Boolean,
    Date,
    Decimal128,
    Double,
    Int64,
    Null,
    Object,
    ObjectId,
    String,
    UInt64,
}

impl TypeTag {
    /// The position of the tag among all tags, in the order of their names.
    pub open spec fn index(self) -> nat {
        match self {
            TypeTag::Array => 0,
            TypeTag::Binary => 1,
            TypeTag::Boolean => 2,
            TypeTag::Date => 3,
            TypeTag::Decimal128 => 4,
            TypeTag::Double => 5,
            TypeTag::Int64 => 6,
            TypeTag::Null => 7,
            TypeTag::Object => 8,
            TypeTag::ObjectId => 9,
            TypeTag::String => 10,
            TypeTag::UInt64 => 11,
        }
    }

    /// The tag at a position; `TypeTag::Array` for a position that no tag has.
    pub open spec fn at(position: int) -> TypeTag {
        if position == 1 {
            TypeTag::Binary
        } else if position == 2 {
            TypeTag::Boolean
        } else if position == 3 {
            TypeTag::Date
        } else if position == 4 {
            TypeTag::Decimal128
        } else if position == 5 {
            TypeTag::Double
        } else if position == 6 {
            TypeTag::Int64
        } else if position == 7 {
            TypeTag::Null
        } else if position == 8 {
            TypeTag::Object
        } else if position == 9 {
            TypeTag::ObjectId
        } else if position == 10 {
            TypeTag::String
        } else if position == 11 {
            TypeTag::UInt64
        } else {
            TypeTag::Array
        }
    }

    /// The name of the tag.
    pub open spec fn name_spec(self) -> Seq<char> {
        match self {
            TypeTag::Array => "Array"@,
            TypeTag::Binary => "Binary"@,
            TypeTag::Boolean => "Boolean"@,
            TypeTag::Date => "Date"@,
            TypeTag::Decimal128 => "Decimal128"@,
            TypeTag::Double => "Double"@,
            TypeTag::Int64 => "Int64"@,
            TypeTag::Null => "Null"@,
            TypeTag::Object => "Object"@,
            TypeTag::ObjectId => "ObjectId"@,
            TypeTag::String => "String"@,
            TypeTag::UInt64 => "UInt64"@,
        }
    }

    /// The position of the tag among all tags.
    pub fn ordinal(&self) -> (position: usize)
        ensures
            position == self.index(),
            position < TAG_COUNT,
    {
        match self {
            TypeTag::Array => 0,
            TypeTag::Binary => 1,
            TypeTag::Boolean => 2,
            TypeTag::Date => 3,
            TypeTag::Decimal128 => 4,
            TypeTag::Double => 5,
            TypeTag::Int64 => 6,
            TypeTag::Null => 7,
            TypeTag::Object => 8,
            TypeTag::ObjectId => 9,
            TypeTag::String => 10,
            TypeTag::UInt64 => 11,
        }
    }

    /// The tag at a position.
    pub fn from_ordinal(position: usize) -> (tag: TypeTag)
        requires
            position < TAG_COUNT,
        ensures
            tag == TypeTag::at(position as int),
            tag.index() == position,
    {
        if position == 1 {
            TypeTag::Binary
        } else if position == 2 {
            TypeTag::Boolean
        } else if position == 3 {
            TypeTag::Date
        } else if position == 4 {
            TypeTag::Decimal128
        } else if position == 5 {
            TypeTag::Double
        } else if position == 6 {
            TypeTag::Int64
        } else if position == 7 {
            TypeTag::Null
        } else if position == 8 {
            TypeTag::Object
        } else if position == 9 {
            TypeTag::ObjectId
        } else if position == 10 {
            TypeTag::String
        } else if position == 11 {
            TypeTag::UInt64
        } else {
            TypeTag::Array
        }
    }

    /// The name of the tag.
    pub fn name(&self) -> (name: &'static str)
        ensures
            name@ == self.name_spec(),
    {
        match self {
            TypeTag::Array => "Array",
            TypeTag::Binary => "Binary",
            TypeTag::Boolean => "Boolean",
            TypeTag::Date => "Date",
            TypeTag::Decimal128 => "Decimal128",
            TypeTag::Double => "Double",
            TypeTag::Int64 => "Int64",
            TypeTag::Null => "Null",
            TypeTag::Object => "Object",
            TypeTag::ObjectId => "ObjectId",
            TypeTag::String => "String",
            TypeTag::UInt64 => "UInt64",
        }
    }
}

/// Every tag stands at its own position.
pub proof fn lemma_tag_at_index(tag: TypeTag)
    ensures
        tag.index() < TAG_COUNT,
        TypeTag::at(tag.index() as int) == tag,
{
}

/// Every position below the number of tags holds the tag of that position.
pub proof fn lemma_tag_index_at(position: int)
    requires
        0 <= position < TAG_COUNT,
    ensures
        TypeTag::at(position).index() == position,
{
}

proof fn lemma_ascii_name_lt(a: Seq<char>, b: Seq<char>, k: int)
    requires
        is_ascii_chars(a),
        is_ascii_chars(b),
        0 <= k <= a.len(),
        k < b.len(),
        forall|j: int| 0 <= j < k ==> a[j] == b[j],
        k < a.len() ==> (a[k] as u8) < (b[k] as u8),
    ensures
        name_lt(a, b),
{
    is_ascii_chars_encode_utf8(a);
    is_ascii_chars_encode_utf8(b);
    lemma_bytes_lt_at(encode_utf8(a), encode_utf8(b), 0, k);
}

proof fn lemma_adjacent_names(position: int)
    requires
        0 <= position < TAG_COUNT - 1,
    ensures
        name_lt(TypeTag::at(position).name_spec(), TypeTag::at(position + 1).name_spec()),
{
    reveal_strlit("Array");
    reveal_strlit("Binary");
    reveal_strlit("Boolean");
    reveal_strlit("Date");
    reveal_strlit("Decimal128");
    reveal_strlit("Double");
    reveal_strlit("Int64");
    reveal_strlit("Null");
    reveal_strlit("Object");
    reveal_strlit("ObjectId");
    reveal_strlit("String");
    reveal_strlit("UInt64");
    if position == 0 {
        lemma_ascii_name_lt("Array"@, "Binary"@, 0);
    } else if position == 1 {
        lemma_ascii_name_lt("Binary"@, "Boolean"@, 1);
    } else if position == 2 {
        lemma_ascii_name_lt("Boolean"@, "Date"@, 0);
    } else if position == 3 {
        lemma_ascii_name_lt("Date"@, "Decimal128"@, 1);
    } else if position == 4 {
        lemma_ascii_name_lt("Decimal128"@, "Double"@, 1);
    } else if position == 5 {
        lemma_ascii_name_lt("Double"@, "Int64"@, 0);
    } else if position == 6 {
        lemma_ascii_name_lt("Int64"@, "Null"@, 0);
    } else if position == 7 {
        lemma_ascii_name_lt("Null"@, "Object"@, 0);
    } else if position == 8 {
        lemma_ascii_name_lt("Object"@, "ObjectId"@, 6);
    } else if position == 9 {
        lemma_ascii_name_lt("ObjectId"@, "String"@, 0);
    } else if position == 10 {
        lemma_ascii_name_lt("String"@, "UInt64"@, 0);
    }
}

proof fn lemma_names_increase(low: int, high: int)
    requires
        0 <= low < high < TAG_COUNT,
    ensures
        name_lt(TypeTag::at(low).name_spec(), TypeTag::at(high).name_spec()),
    decreases high - low,
{
    lemma_adjacent_names(high - 1);
    if low < high - 1 {
        lemma_names_increase(low, high - 1);
        lemma_name_lt_transitive(
            TypeTag::at(low).name_spec(),
            TypeTag::at(high - 1).name_spec(),
            TypeTag::at(high).name_spec(),
        );
    }
}

/// Tags are ordered by their names as they are by their positions, so
/// different tags have different names.
pub proof fn lemma_tag_order(a: TypeTag, b: TypeTag)
    ensures
        name_lt(a.name_spec(), b.name_spec()) <==> a.index() < b.index(),
        a.name_spec() == b.name_spec() <==> a == b,
{
    lemma_tag_at_index(a);
    lemma_tag_at_index(b);
    lemma_name_lt_irreflexive(a.name_spec());
    if a.index() < b.index() {
        lemma_names_increase(a.index() as int, b.index() as int);
        lemma_name_lt_asymmetric(a.name_spec(), b.name_spec());
    } else if b.index() < a.index() {
        lemma_names_increase(b.index() as int, a.index() as int);
        lemma_name_lt_asymmetric(b.name_spec(), a.name_spec());
    }
}

} // verus!
