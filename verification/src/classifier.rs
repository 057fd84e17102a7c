//! Classification: from a value to the tag of its kind.

use vstd::prelude::*;
use crate::names::name_equal;
use crate::tags::TypeTag;
use crate::value::RawValue;
use crate::value::ValueModel;
use crate::value::lemma_object_model;

verus! {

/// The rules by which values are classified.
///
/// Under `Plain` every value has the tag of its variant. Under `Extended`
/// an object with exactly one member, named `$oid`, `$date`,
/// `$numberDecimal` or `$binary`, stands for an identifier, a point in
/// time, a decimal number or a block of bytes, and has the tag `ObjectId`,
/// `Date`, `Decimal128` or `Binary`.
#[derive(Clone, Copy, PartialEq, Eq, Structural, Debug)]
pub enum Classification {
    Plain,
    Extended,
}

/// The tag that the extended rules give to an object whose only member has
/// this name, if they give one.
pub open spec fn extended_tag(name: Seq<char>) -> Option<TypeTag> {
    if name == "$oid"@ {
        Some(TypeTag::ObjectId)
    } else if name == "$date"@ {
        Some(TypeTag::Date)
    } else if name == "$numberDecimal"@ {
        Some(TypeTag::Decimal128)
    } else if name == "$binary"@ {
        Some(TypeTag::Binary)
    } else {
        None
    }
}

/// The tag of a value under the given rules.
pub open spec fn tag_of(rules: Classification, value: ValueModel) -> TypeTag {
    match value {
        ValueModel::Null => TypeTag::Null,
        ValueModel::Boolean(_) => TypeTag::Boolean,
        ValueModel::Int64(_) => TypeTag::Int64,
        ValueModel::UInt64(_) => TypeTag::UInt64,
        ValueModel::Double(_) => TypeTag::Double,
        ValueModel::String(_) => TypeTag::String,
        ValueModel::Array(_) => TypeTag::Array,
        ValueModel::Object(members) => if rules == Classification::Extended && members.len() == 1
            && extended_tag(members[0].0) is Some {
            extended_tag(members[0].0)->Some_0
        } else {
            TypeTag::Object
        },
    }
}

impl Classification {
    /// The tag of a value under these rules. Every value has exactly one.
    pub fn classify(&self, value: &RawValue) -> (tag: TypeTag)
        ensures
            tag == tag_of(*self, value@),
    {
        match value {
            RawValue::Null => TypeTag::Null,
            RawValue::Boolean(_) => TypeTag::Boolean,
            RawValue::Int64(_) => TypeTag::Int64,
            RawValue::UInt64(_) => TypeTag::UInt64,
            RawValue::Double(_) => TypeTag::Double,
            RawValue::String(_) => TypeTag::String,
            RawValue::Array(_) => TypeTag::Array,
            RawValue::Object(members) => {
                proof {
                    lemma_object_model(*members);
                }
                if matches!(self, Classification::Plain) || members.len() != 1 {
                    TypeTag::Object
                } else {
                    let name = members[0].0.as_str();
                    if name_equal(name, "$oid") {
                        TypeTag::ObjectId
                    } else if name_equal(name, "$date") {
                        TypeTag::Date
                    } else if name_equal(name, "$numberDecimal") {
                        TypeTag::Decimal128
                    } else if name_equal(name, "$binary") {
                        TypeTag::Binary
                    } else {
                        TypeTag::Object
                    }
                }
            },
        }
    }
}

/// The tag of a value under the plain rules.
pub fn classify(value: &RawValue) -> (tag: TypeTag)
    ensures
        tag == tag_of(Classification::Plain, value@),
{
    Classification::Plain.classify(value)
}

} // verus!
