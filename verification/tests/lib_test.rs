use schema::Analyser;
use schema::Field;
use schema::Probability;
use schema::Schema;
use schema::Type;

fn share(probability: &Probability) -> f32 {
    probability.numerator as f32 / probability.denominator as f32
}

fn decimal_type() -> Type {
    Type::new("Decimal128".to_string(), 5, Probability::new(3, 4), 26)
}

fn testing_field() -> Field {
    Field::new("testing".to_string(), 5, Probability::new(1, 2), true, vec![decimal_type()])
}

#[test]
fn type_must_expose_name() {
    let t = decimal_type();
    assert_eq!("Decimal128", t.name);
}

#[test]
fn type_must_expose_count() {
    let t = decimal_type();
    assert_eq!(5, t.count);
}

#[test]
fn type_must_expose_probability() {
    let t = decimal_type();
    assert_eq!(0.75, share(&t.probability));
}

#[test]
fn type_must_expose_unique() {
    let t = decimal_type();
    assert_eq!(26, t.unique);
}

#[test]
fn field_must_expose_name() {
    let field = testing_field();
    assert_eq!("testing", field.name);
}

#[test]
fn field_must_expose_count() {
    let field = testing_field();
    assert_eq!(5, field.count);
}

#[test]
fn field_must_expose_probability() {
    let field = testing_field();
    assert_eq!(0.5, share(&field.probability));
}

#[test]
fn field_must_expose_has_duplicates() {
    let field = testing_field();
    assert_eq!(true, field.has_duplicates);
}

#[test]
fn field_must_expose_types() {
    let field = testing_field();
    assert_eq!(1, field.types.len());
    assert_eq!("Decimal128", field.types[0].name);
}

#[test]
fn schema_must_expose_count() {
    let fields = vec![testing_field()];
    let schema = Schema::new(10, fields);
    assert_eq!(10, schema.count);
    assert_eq!(1, schema.fields.len());
}

#[test]
fn analyser_must_deserialize_json() {
    let text = "[{\"name\": \"Depeche Mode\", \"albums\": 20, \"rating\": 10.5, \"active\": true},\
                {\"name\": \"New Order\", \"albums\": 10, \"rating\": 9.5, \"active\": false}]";
    let analyser = Analyser::new(text);
    assert_eq!(2, analyser.documents.as_array().unwrap().len());
}
