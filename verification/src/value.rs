//! Dynamically typed values, the shape in which documents reach the
//! aggregation.

use vstd::prelude::*;

verus! {

/// A dynamically typed value. A document is a `RawValue::Object` whose member
/// names are pairwise different.
///
/// A `Double` holds the bit pattern of an IEEE 754 binary64 number, so that
/// two doubles are the same value exactly when their bits agree.
pub enum RawValue {
    Null,
    Boolean(bool),
    Int64(i64),
    UInt64(u64),
    Double(u64),
    String(String),
    Array(Vec<RawValue>),
    Object(Vec<(String, RawValue)>),
}

/// The mathematical content of a [`RawValue`].
pub enum ValueModel {
    Null,
    Boolean(bool),
    Int64(i64),
    UInt64(u64),
    Double(u64),
    String(Seq<char>),
    Array(Seq<ValueModel>),
    Object(Seq<(Seq<char>, ValueModel)>),
}

/// The content of a value: of a string its characters, of an array the
/// contents of its items in order, of an object its members in order, each
/// with its name and the content of its value.
pub open spec fn model_of(value: RawValue) -> ValueModel
    decreases value,
{
    match value {
        RawValue::Null => ValueModel::Null,
        RawValue::Boolean(b) => ValueModel::Boolean(b),
        RawValue::Int64(i) => ValueModel::Int64(i),
        RawValue::UInt64(u) => ValueModel::UInt64(u),
        RawValue::Double(bits) => ValueModel::Double(bits),
        RawValue::String(s) => ValueModel::String(s@),
        RawValue::Array(items) => ValueModel::Array(
            Seq::new(
                items@.len(),
                |i: int|
                    if 0 <= i < items@.len() {
                        model_of(items@[i])
                    } else {
                        ValueModel::Null
                    },
            ),
        ),
        RawValue::Object(members) => ValueModel::Object(
            Seq::new(
                members@.len(),
                |i: int|
                    if 0 <= i < members@.len() {
                        (members@[i].0@, model_of(members@[i].1))
                    } else {
                        (Seq::empty(), ValueModel::Null)
                    },
            ),
        ),
    }
}

impl View for RawValue {
    type V = ValueModel;

    open spec fn view(&self) -> ValueModel {
        model_of(*self)
    }
}

/// The contents of these values, in their order.
pub open spec fn contents(values: Seq<RawValue>) -> Seq<ValueModel> {
    values.map_values(|v: RawValue| v@)
}

/// The content of an array is the contents of its items.
pub proof fn lemma_array_model(items: Vec<RawValue>)
    ensures
        RawValue::Array(items)@ is Array,
        RawValue::Array(items)@->Array_0.len() == items@.len(),
        forall|i: int|
            0 <= i < items@.len() ==> (#[trigger] RawValue::Array(items)@->Array_0[i]) == items@[i]@,
{
}

/// The content of an object is its members' names and the contents of
/// their values.
pub proof fn lemma_object_model(members: Vec<(String, RawValue)>)
    ensures
        RawValue::Object(members)@ is Object,
        RawValue::Object(members)@->Object_0.len() == members@.len(),
        forall|i: int|
            0 <= i < members@.len() ==> (#[trigger] RawValue::Object(members)@->Object_0[i]) == (
                members@[i].0@,
                members@[i].1@,
            ),
{
}

impl RawValue {
    /// A copy of the value.
    pub fn duplicate(&self) -> (copy: RawValue)
        ensures
            copy@ == self@,
        decreases self,
    {
        match self {
            RawValue::Null => RawValue::Null,
            RawValue::Boolean(b) => RawValue::Boolean(*b),
            RawValue::Int64(i) => RawValue::Int64(*i),
            RawValue::UInt64(u) => RawValue::UInt64(*u),
            RawValue::Double(bits) => RawValue::Double(*bits),
            RawValue::String(s) => RawValue::String(s.clone()),
            RawValue::Array(items) => {
                let mut copies: Vec<RawValue> = Vec::new();
                let mut i: usize = 0;
                while i < items.len()
                    invariant
                        i <= items.len(),
                        *self == RawValue::Array(*items),
                        copies@.len() == i,
                        forall|j: int| 0 <= j < i ==> copies@[j]@ == items@[j]@,
                    decreases items.len() - i,
                {
                    proof {
                        assert(decreases_to!(*self => self->Array_0));
                    }
                    let copy = items[i].duplicate();
                    copies.push(copy);
                    i += 1;
                }
                proof {
                    lemma_array_model(*items);
                    lemma_array_model(copies);
                    assert(RawValue::Array(copies)@->Array_0 =~= self@->Array_0);
                }
                RawValue::Array(copies)
            },
            RawValue::Object(members) => {
                let mut copies: Vec<(String, RawValue)> = Vec::new();
                let mut i: usize = 0;
                while i < members.len()
                    invariant
                        i <= members.len(),
                        *self == RawValue::Object(*members),
                        copies@.len() == i,
                        forall|j: int|
                            0 <= j < i ==> copies@[j].0@ == members@[j].0@ && copies@[j].1@
                                == members@[j].1@,
                    decreases members.len() - i,
                {
                    let name = members[i].0.clone();
                    proof {
                        assert(decreases_to!(*self => self->Object_0));
                    }
                    let copy = members[i].1.duplicate();
                    copies.push((name, copy));
                    i += 1;
                }
                proof {
                    lemma_object_model(*members);
                    lemma_object_model(copies);
                    assert(RawValue::Object(copies)@->Object_0 =~= self@->Object_0);
                }
                RawValue::Object(copies)
            },
        }
    }

    /// Whether two values are the same value: the same kind, with the same
    /// content, members and items compared in order.
    pub fn same(&self, other: &RawValue) -> (same: bool)
        ensures
            same == (self@ == other@),
        decreases self,
    {
        match self {
            RawValue::Null => matches!(other, RawValue::Null),
            RawValue::Boolean(a) => match other {
                RawValue::Boolean(b) => *a == *b,
                _ => false,
            },
            RawValue::Int64(a) => match other {
                RawValue::Int64(b) => *a == *b,
                _ => false,
            },
            RawValue::UInt64(a) => match other {
                RawValue::UInt64(b) => *a == *b,
                _ => false,
            },
            RawValue::Double(a) => match other {
                RawValue::Double(b) => *a == *b,
                _ => false,
            },
            RawValue::String(a) => match other {
                RawValue::String(b) => *a == *b,
                _ => false,
            },
            RawValue::Array(a) => match other {
                RawValue::Array(b) => {
                    let ghost x = self@->Array_0;
                    let ghost y = other@->Array_0;
                    proof {
                        lemma_array_model(*a);
                        lemma_array_model(*b);
                    }
                    if a.len() != b.len() {
                        assert(x.len() != y.len());
                        return false;
                    }
                    let mut i: usize = 0;
                    while i < a.len()
                        invariant
                            i <= a.len(),
                            a.len() == b.len(),
                            *self == RawValue::Array(*a),
                            *other == RawValue::Array(*b),
                            x == self@->Array_0,
                            y == other@->Array_0,
                            forall|j: int| 0 <= j < i ==> x[j] == y[j],
                        decreases a.len() - i,
                    {
                        if !a[i].same(&b[i]) {
                            assert(x[i as int] != y[i as int]);
                            return false;
                        }
                        i += 1;
                    }
                    assert(x =~= y);
                    true
                },
                _ => false,
            },
            RawValue::Object(a) => match other {
                RawValue::Object(b) => {
                    let ghost x = self@->Object_0;
                    let ghost y = other@->Object_0;
                    proof {
                        lemma_object_model(*a);
                        lemma_object_model(*b);
                    }
                    if a.len() != b.len() {
                        assert(x.len() != y.len());
                        return false;
                    }
                    let mut i: usize = 0;
                    while i < a.len()
                        invariant
                            i <= a.len(),
                            a.len() == b.len(),
                            *self == RawValue::Object(*a),
                            *other == RawValue::Object(*b),
                            x == self@->Object_0,
                            y == other@->Object_0,
                            forall|j: int| 0 <= j < i ==> x[j] == y[j],
                        decreases a.len() - i,
                    {
                        if a[i].0 != b[i].0 || !a[i].1.same(&b[i].1) {
                            assert(x[i as int] != y[i as int]);
                            return false;
                        }
                        i += 1;
                    }
                    assert(x =~= y);
                    true
                },
                _ => false,
            },
        }
    }
}

} // verus!
