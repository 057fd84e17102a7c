//! Fingerprints of values: 64-bit hashes that depend on nothing but the
//! value, so that aggregates built in different places can be merged.
//!
//! A value is fed word by word into a multiplicative hash (FNV-1a, taken
//! over 64-bit words), and the result is scrambled so that its high bits
//! depend on all of the input.

use vstd::prelude::*;
use vstd::utf8::encode_utf8;
use crate::value::RawValue;
use crate::value::ValueModel;
use crate::value::lemma_array_model;
use crate::value::lemma_object_model;

verus! {

/// The state from which a fingerprint is computed.
pub const HASH_SEED: u64 = 0xcbf2_9ce4_8422_2325;

/// The multiplier of the hash.
pub const HASH_PRIME: u64 = 0x0000_0100_0000_01b3;

/// The state after one more word.
pub open spec fn stir(state: u64, word: u64) -> u64 {
    (state ^ word).wrapping_mul(HASH_PRIME)
}

/// The state after the first `n` of these bytes.
pub open spec fn stir_bytes(state: u64, bytes: Seq<u8>, n: int) -> u64
    decreases n,
{
    if n <= 0 || n > bytes.len() {
        state
    } else {
        stir(stir_bytes(state, bytes, n - 1), bytes[n - 1] as u64)
    }
}

/// The state after a name: its length in bytes, then the bytes of its
/// UTF-8 encoding.
pub open spec fn stir_name(state: u64, name: Seq<char>) -> u64 {
    stir_bytes(
        stir(state, encode_utf8(name).len() as u64),
        encode_utf8(name),
        encode_utf8(name).len() as int,
    )
}

/// The state after a value: a word for its kind, then its content.
pub open spec fn stir_value(state: u64, value: ValueModel) -> u64
    decreases value, 0int,
{
    match value {
        ValueModel::Null => stir(state, 1),
        ValueModel::Boolean(b) => stir(
            stir(state, 2),
            if b {
                1
            } else {
                0
            },
        ),
        ValueModel::Int64(i) => if i >= 0 {
            stir(stir(state, 3), i as u64)
        } else {
            stir(stir(state, 4), (-(i + 1)) as u64)
        },
        ValueModel::UInt64(u) => stir(stir(state, 5), u),
        ValueModel::Double(bits) => stir(stir(state, 6), bits),
        ValueModel::String(s) => stir_name(stir(state, 7), s),
        ValueModel::Array(items) => stir_items(
            stir(stir(state, 8), items.len() as u64),
            items,
            items.len() as int,
        ),
        ValueModel::Object(members) => stir_members(
            stir(stir(state, 9), members.len() as u64),
            members,
            members.len() as int,
        ),
    }
}

/// The state after the first `n` of these items.
pub open spec fn stir_items(state: u64, items: Seq<ValueModel>, n: int) -> u64
    decreases items, n,
{
    if n <= 0 || n > items.len() {
        state
    } else {
        stir_value(stir_items(state, items, n - 1), items[n - 1])
    }
}

/// The state after the first `n` of these members, each with its name and
/// its value.
pub open spec fn stir_members(state: u64, members: Seq<(Seq<char>, ValueModel)>, n: int) -> u64
    decreases members, n,
{
    if n <= 0 || n > members.len() {
        state
    } else {
        stir_value(
            stir_name(stir_members(state, members, n - 1), members[n - 1].0),
            members[n - 1].1,
        )
    }
}

/// Spreads what the low bits hold over all bits.
pub open spec fn scramble(hash: u64) -> u64 {
    let a = hash ^ (hash >> 33);
    let b = a.wrapping_mul(0xff51_afd7_ed55_8ccd);
    let c = b ^ (b >> 33);
    let d = c.wrapping_mul(0xc4ce_b9fe_1a85_ec53);
    d ^ (d >> 33)
}

/// The fingerprint of a value.
pub open spec fn fingerprint_of(value: ValueModel) -> u64 {
    scramble(stir_value(HASH_SEED, value))
}

fn stir_word(state: u64, word: u64) -> (stirred: u64)
    ensures
        stirred == stir(state, word),
{
    (state ^ word).wrapping_mul(HASH_PRIME)
}

fn stir_text(state: u64, text: &str) -> (stirred: u64)
    ensures
        stirred == stir_name(state, text@),
{
    let bytes = text.as_bytes();
    let mut stirred = stir_word(state, bytes.len() as u64);
    let mut i: usize = 0;
    while i < bytes.len()
        invariant
            i <= bytes.len(),
            bytes@ == encode_utf8(text@),
            stirred == stir_bytes(
                stir(state, encode_utf8(text@).len() as u64),
                bytes@,
                i as int,
            ),
        decreases bytes.len() - i,
    {
        stirred = stir_word(stirred, bytes[i] as u64);
        i += 1;
    }
    stirred
}

impl RawValue {
    fn stir_into(&self, state: u64) -> (stirred: u64)
        ensures
            stirred == stir_value(state, self@),
        decreases self,
    {
        match self {
            RawValue::Null => stir_word(state, 1),
            RawValue::Boolean(b) => stir_word(
                stir_word(state, 2),
                if *b {
                    1
                } else {
                    0
                },
            ),
            RawValue::Int64(i) => if *i >= 0 {
                stir_word(stir_word(state, 3), *i as u64)
            } else {
                stir_word(stir_word(state, 4), (-(*i + 1)) as u64)
            },
            RawValue::UInt64(u) => stir_word(stir_word(state, 5), *u),
            RawValue::Double(bits) => stir_word(stir_word(state, 6), *bits),
            RawValue::String(s) => stir_text(stir_word(state, 7), s.as_str()),
            RawValue::Array(items) => {
                let ghost models = self@->Array_0;
                proof {
                    lemma_array_model(*items);
                }
                let start = stir_word(stir_word(state, 8), items.len() as u64);
                let mut stirred = start;
                let mut i: usize = 0;
                while i < items.len()
                    invariant
                        i <= items.len(),
                        *self == RawValue::Array(*items),
                        models == self@->Array_0,
                        models.len() == items@.len(),
                        forall|j: int| 0 <= j < items@.len() ==> models[j] == items@[j]@,
                        stirred == stir_items(start, models, i as int),
                    decreases items.len() - i,
                {
                    proof {
                        assert(decreases_to!(*self => self->Array_0));
                    }
                    stirred = items[i].stir_into(stirred);
                    i += 1;
                }
                stirred
            },
            RawValue::Object(members) => {
                let ghost models = self@->Object_0;
                proof {
                    lemma_object_model(*members);
                }
                let start = stir_word(stir_word(state, 9), members.len() as u64);
                let mut stirred = start;
                let mut i: usize = 0;
                while i < members.len()
                    invariant
                        i <= members.len(),
                        *self == RawValue::Object(*members),
                        models == self@->Object_0,
                        models.len() == members@.len(),
                        forall|j: int|
                            0 <= j < members@.len() ==> models[j] == (
                                members@[j].0@,
                                members@[j].1@,
                            ),
                        stirred == stir_members(start, models, i as int),
                    decreases members.len() - i,
                {
                    proof {
                        assert(decreases_to!(*self => self->Object_0));
                    }
                    let named = stir_text(stirred, members[i].0.as_str());
                    stirred = members[i].1.stir_into(named);
                    i += 1;
                }
                stirred
            },
        }
    }

    /// The fingerprint of the value: the same for the same value, wherever
    /// and whenever it is computed.
    pub fn fingerprint(&self) -> (hash: u64)
        ensures
            hash == fingerprint_of(self@),
    {
        let hash = self.stir_into(HASH_SEED);
        let a = hash ^ (hash >> 33);
        let b = a.wrapping_mul(0xff51_afd7_ed55_8ccd);
        let c = b ^ (b >> 33);
        let d = c.wrapping_mul(0xc4ce_b9fe_1a85_ec53);
        d ^ (d >> 33)
    }
}

} // verus!
