use schema::json::unsigned_value;
use schema::names::name_equal;
use schema::names::name_less;
use schema::RawValue;

#[test]
fn names_are_ordered_bytewise() {
    let names = ["", "A", "AB", "B", "a", "ab", "b", "\u{e9}", "\u{4e2d}", "\u{1f600}"];
    for (i, a) in names.iter().enumerate() {
        for (j, b) in names.iter().enumerate() {
            assert_eq!(i < j, name_less(a, b), "{:?} before {:?}", a, b);
            assert_eq!(a < b, name_less(a, b));
            assert_eq!(i == j, name_equal(a, b));
        }
    }
}

#[test]
fn a_prefix_comes_first() {
    assert!(name_less("Object", "ObjectId"));
    assert!(!name_less("ObjectId", "Object"));
    assert!(!name_less("Object", "Object"));
}

#[test]
fn whole_numbers_become_signed_where_they_fit() {
    assert!(unsigned_value(0).same(&RawValue::Int64(0)));
    assert!(unsigned_value(20).same(&RawValue::Int64(20)));
    assert!(unsigned_value(i64::MAX as u64).same(&RawValue::Int64(i64::MAX)));
    assert!(unsigned_value(i64::MAX as u64 + 1).same(&RawValue::UInt64(9223372036854775808)));
    assert!(unsigned_value(u64::MAX).same(&RawValue::UInt64(u64::MAX)));
}
