//! The schema: what an aggregation says of a corpus once it is finalized.

use vstd::prelude::*;
use crate::names::name_lt;

verus! {

/// A share, as two whole numbers: `numerator` out of `denominator`. Out of
/// nothing the share is taken to be none.
#[derive(Clone, Copy, PartialEq, Eq, Structural, Debug)]
pub struct Probability {
    pub numerator: u64,
    pub denominator: u64,
}

/// The mathematical content of a [`Probability`].
pub struct Ratio {
    pub numerator: nat,
    pub denominator: nat,
}

impl Ratio {
    /// A share is at most the whole.
    pub open spec fn wf(self) -> bool {
        self.numerator <= self.denominator
    }

    /// The share of `scale`, rounded down; none of it when the whole is
    /// nothing.
    pub open spec fn scaled(self, scale: nat) -> nat {
        if self.denominator == 0 {
            0
        } else {
            (self.numerator * scale / self.denominator) as nat
        }
    }
}

impl View for Probability {
    type V = Ratio;

    open spec fn view(&self) -> Ratio {
        Ratio { numerator: self.numerator as nat, denominator: self.denominator as nat }
    }
}

impl Probability {
    /// The share of `numerator` out of `denominator`.
    pub fn new(numerator: u64, denominator: u64) -> (probability: Probability)
        ensures
            probability == (Probability { numerator, denominator }),
    {
        Probability { numerator, denominator }
    }

    /// The share of `scale`, rounded down: with a scale of 100 the
    /// probability in percent. None of it when the whole is nothing.
    pub fn scaled(&self, scale: u64) -> (share: u64)
        requires
            self@.wf(),
        ensures
            share == self@.scaled(scale as nat),
            share <= scale,
    {
        if self.denominator == 0 {
            0
        } else {
            let n: u128 = self.numerator as u128;
            let d: u128 = self.denominator as u128;
            let s: u128 = scale as u128;
            assert(n * s <= d * s && d * s <= 0xFFFF_FFFF_FFFF_FFFF * 0xFFFF_FFFF_FFFF_FFFF)
                by (nonlinear_arith)
                requires
                    n <= d,
                    d <= 0xFFFF_FFFF_FFFF_FFFF,
                    s <= 0xFFFF_FFFF_FFFF_FFFF,
            ;
            let share: u128 = n * s / d;
            assert(share <= s) by (nonlinear_arith)
                requires
                    share as int == (n * s) as int / (d as int),
                    d > 0,
                    n * s <= d * s,
            ;
            share as u64
        }
    }
}

/// One kind of value that a field has taken.
#[derive(Clone, Debug)]
pub struct Type {
    /// The name of the kind.
    pub name: String,
    /// In how many documents the field had a value of this kind.
    pub count: u64,
    /// The share of those documents among the documents that have the field.
    pub probability: Probability,
    /// How many different values of this kind the field had.
    pub unique: u64,
    /// Whether `unique` is an estimate.
    pub approximate: bool,
}

/// The mathematical content of a [`Type`].
pub struct TypeModel {
    pub name: Seq<char>,
    pub count: nat,
    pub probability: Ratio,
    pub unique: nat,
    pub approximate: bool,
}

impl View for Type {
    type V = TypeModel;

    open spec fn view(&self) -> TypeModel {
        TypeModel {
            name: self.name@,
            count: self.count as nat,
            probability: self.probability@,
            unique: self.unique as nat,
            approximate: self.approximate,
        }
    }
}

impl Type {
    /// A type with the given name and statistics, the number of different
    /// values being exact.
    pub fn new(name: String, count: u64, probability: Probability, unique: u64) -> (made: Type)
        ensures
            made.name == name,
            made.count == count,
            made.probability == probability,
            made.unique == unique,
            !made.approximate,
    {
        Type { name, count, probability, unique, approximate: false }
    }
}

/// One field of the documents of a corpus.
#[derive(Clone, Debug)]
pub struct Field {
    /// The name of the field.
    pub name: String,
    /// How many documents have the field.
    pub count: u64,
    /// The share of those documents among all documents.
    pub probability: Probability,
    /// Whether the field had some value of some kind more than once.
    pub has_duplicates: bool,
    /// Whether `has_duplicates` rests on an estimate.
    pub approximate: bool,
    /// The kinds of values the field has taken, the most frequent first,
    /// equally frequent ones in the order of their names.
    pub types: Vec<Type>,
}

/// The mathematical content of a [`Field`].
pub struct FieldView {
    pub name: Seq<char>,
    pub count: nat,
    pub probability: Ratio,
    pub has_duplicates: bool,
    pub approximate: bool,
    pub types: Seq<TypeModel>,
}

impl View for Field {
    type V = FieldView;

    open spec fn view(&self) -> FieldView {
        FieldView {
            name: self.name@,
            count: self.count as nat,
            probability: self.probability@,
            has_duplicates: self.has_duplicates,
            approximate: self.approximate,
            types: self.types@.map_values(|t: Type| t@),
        }
    }
}

impl Field {
    /// A field with the given name, statistics and types. It is marked
    /// as resting on an estimate if one of the types is.
    pub fn new(
        name: String,
        count: u64,
        probability: Probability,
        has_duplicates: bool,
        types: Vec<Type>,
    ) -> (made: Field)
        ensures
            made.name == name,
            made.count == count,
            made.probability == probability,
            made.has_duplicates == has_duplicates,
            made.types == types,
            made.approximate <==> exists|i: int|
                0 <= i < types@.len() && (#[trigger] types@[i]).approximate,
    {
        let mut approximate = false;
        let mut i: usize = 0;
        while i < types.len()
            invariant
                i <= types.len(),
                approximate <==> exists|j: int| 0 <= j < i && (#[trigger] types@[j]).approximate,
            decreases types.len() - i,
        {
            if types[i].approximate {
                approximate = true;
            }
            i += 1;
        }
        Field { name, count, probability, has_duplicates, approximate, types }
    }
}

/// What was found of a corpus: how many documents it has, and its fields
/// in the order of their names.
#[derive(Debug)]
pub struct Schema {
    /// How many documents were analysed.
    pub count: usize,
    /// The fields of the documents.
    pub fields: Vec<Field>,
}

/// The mathematical content of a [`Schema`].
pub struct SchemaModel {
    pub count: nat,
    pub fields: Seq<FieldView>,
}

impl View for Schema {
    type V = SchemaModel;

    open spec fn view(&self) -> SchemaModel {
        SchemaModel { count: self.count as nat, fields: self.fields@.map_values(|f: Field| f@) }
    }
}

impl Schema {
    /// A schema of the given number of documents, with the given fields.
    pub fn new(count: usize, fields: Vec<Field>) -> (made: Schema)
        ensures
            made.count == count,
            made.fields == fields,
    {
        Schema { count, fields }
    }
}

/// Whether type `a` stands before type `b`: it is the more frequent, or
/// they are equally frequent and its name comes first.
pub open spec fn type_before(a: TypeModel, b: TypeModel) -> bool {
    a.count > b.count || (a.count == b.count && name_lt(a.name, b.name))
}

/// The sum of the counts of the first `n` types.
pub open spec fn sum_counts(types: Seq<TypeModel>, n: int) -> nat
    decreases n,
{
    if n <= 0 {
        0
    } else {
        sum_counts(types, n - 1) + types[n - 1].count
    }
}

impl FieldView {
    /// The statistics of a field of a finalized schema agree with each
    /// other: every occurrence of the field is counted with exactly one of
    /// its types; each type occurs, has no more different values than
    /// occurrences, and has its share of the field's occurrences as its
    /// probability; the types stand in their order; the field has
    /// duplicates exactly if one of its types has fewer different values
    /// than occurrences; and it rests on an estimate exactly if one of its
    /// types does.
    pub open spec fn wf(self) -> bool {
        &&& sum_counts(self.types, self.types.len() as int) == self.count
        &&& forall|i: int|
            0 <= i < self.types.len() ==> {
                &&& 1 <= (#[trigger] self.types[i]).count
                &&& self.types[i].unique <= self.types[i].count
                &&& self.types[i].probability == Ratio {
                    numerator: self.types[i].count,
                    denominator: self.count,
                }
            }
        &&& forall|i: int, j: int|
            0 <= i < j < self.types.len() ==> type_before(self.types[i], self.types[j])
        &&& self.has_duplicates <==> exists|i: int|
            0 <= i < self.types.len() && (#[trigger] self.types[i]).count > self.types[i].unique
        &&& self.approximate <==> exists|i: int|
            0 <= i < self.types.len() && (#[trigger] self.types[i]).approximate
    }
}

impl SchemaModel {
    /// The statistics of a finalized schema agree with each other: the
    /// fields stand in the strict order of their names; each occurs, in no
    /// more documents than there are, and has its share of the documents as
    /// its probability; and each is well formed in itself.
    pub open spec fn wf(self) -> bool {
        &&& forall|i: int, j: int|
            0 <= i < j < self.fields.len() ==> name_lt(self.fields[i].name, self.fields[j].name)
        &&& forall|i: int|
            0 <= i < self.fields.len() ==> {
                &&& (#[trigger] self.fields[i]).wf()
                &&& 1 <= self.fields[i].count <= self.count
                &&& self.fields[i].probability == Ratio {
                    numerator: self.fields[i].count,
                    denominator: self.count,
                }
            }
    }
}

} // verus!
