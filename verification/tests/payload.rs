use velo::float::Double;
use velo::{Filter, Payload, Value};

fn double(x: f64) -> Double {
    Double::from_bits(x.to_bits())
}

fn text(s: &str) -> Value {
    Value::Str(s.into())
}

fn payload() -> Payload {
    let mut p = Payload::new();
    p.insert("lang".into(), text("en"));
    p.insert("year".into(), Value::Int(2021));
    p.insert("public".into(), Value::Bool(true));
    p
}

#[test]
fn eq_is_type_sensitive() {
    let p = payload();
    assert!(Filter::Eq("lang".into(), text("en")).matches(Some(&p)));
    assert!(!Filter::Eq("lang".into(), text("fr")).matches(Some(&p)));
    // Int field is not equal to a Float of the same magnitude.
    assert!(!Filter::Eq("year".into(), Value::Float(double(2021.0))).matches(Some(&p)));
}

#[test]
fn numeric_range_matches() {
    let p = payload();
    assert!(Filter::Gt("year".into(), double(2020.0)).matches(Some(&p)));
    assert!(!Filter::Gt("year".into(), double(2021.0)).matches(Some(&p)));
    assert!(Filter::Lt("year".into(), double(2022.0)).matches(Some(&p)));
}

#[test]
fn combinators_compose() {
    let p = payload();
    let f = Filter::And(vec![
        Filter::Eq("lang".into(), text("en")),
        Filter::Gt("year".into(), double(2000.0)),
    ]);
    assert!(f.matches(Some(&p)));

    let f = Filter::Or(vec![
        Filter::Eq("lang".into(), text("fr")),
        Filter::Eq("public".into(), Value::Bool(true)),
    ]);
    assert!(f.matches(Some(&p)));

    assert!(Filter::Not(Box::new(Filter::Eq("lang".into(), text("fr")))).matches(Some(&p)));
}

#[test]
fn absent_payload_fails_field_predicates() {
    let f = Filter::Eq("lang".into(), text("en"));
    assert!(!f.matches(None));
    // But `Not` of a non-match is still true.
    assert!(Filter::Not(Box::new(f)).matches(None));
}

#[test]
fn absent_fields_fail_in_a_present_payload() {
    let p = payload();
    assert!(!Filter::Eq("title".into(), text("en")).matches(Some(&p)));
    assert!(!Filter::Gt("title".into(), double(0.0)).matches(Some(&p)));
    assert!(!Filter::Lt("title".into(), double(0.0)).matches(Some(&p)));
    // Nor is a text or a boolean in any range.
    assert!(!Filter::Gt("lang".into(), double(-1.0)).matches(Some(&p)));
    assert!(!Filter::Lt("public".into(), double(10.0)).matches(Some(&p)));
}

#[test]
fn empty_lists_match_everything_and_nothing() {
    let p = payload();
    for candidate in [None, Some(&p)] {
        assert!(Filter::And(vec![]).matches(candidate));
        assert!(!Filter::Or(vec![]).matches(candidate));
        assert!(Filter::Not(Box::new(Filter::Or(vec![]))).matches(candidate));
    }
}

#[test]
fn double_negation_changes_nothing() {
    let p = payload();
    for lang in ["en", "fr"] {
        let f = Filter::Eq("lang".into(), text(lang));
        let twice = Filter::Not(Box::new(Filter::Not(Box::new(f.clone()))));
        assert_eq!(twice.matches(Some(&p)), f.matches(Some(&p)));
        assert_eq!(twice.matches(None), f.matches(None));
    }
}

#[test]
fn floats_are_equal_as_numbers() {
    let mut p = Payload::new();
    p.insert("x".into(), Value::Float(double(0.0)));
    p.insert("y".into(), Value::Float(double(f64::NAN)));
    assert!(Filter::Eq("x".into(), Value::Float(double(-0.0))).matches(Some(&p)));
    assert!(!Filter::Eq("y".into(), Value::Float(double(f64::NAN))).matches(Some(&p)));
    assert!(!Filter::Gt("y".into(), double(0.0)).matches(Some(&p)));
    assert!(!Filter::Lt("y".into(), double(0.0)).matches(Some(&p)));
}

#[test]
fn large_integers_are_rounded_for_ranges() {
    let mut p = Payload::new();
    p.insert("n".into(), Value::Int((1 << 53) + 1));
    // As a double this is two to the power of fifty-three.
    assert!(!Filter::Gt("n".into(), double((1u64 << 53) as f64)).matches(Some(&p)));
    assert_eq!(Value::Int((1 << 53) + 1).as_f64().map(|d| d.to_bits()), Some(((1u64 << 53) as f64).to_bits()));
    assert!(text("1").as_f64().is_none());
    assert!(Value::Bool(true).as_f64().is_none());
}

#[test]
fn fields_stand_in_key_order_and_keep_the_last_value() {
    let mut p = Payload::new();
    for key in ["b", "a", "ab", "", "é", "z", "a"] {
        p.insert(key.to_string(), text(key));
    }
    p.insert("b".to_string(), Value::Int(2));
    let keys: Vec<&str> = (0..p.len()).map(|i| p.field(i).0).collect();
    assert_eq!(keys, vec!["", "a", "ab", "b", "z", "é"]);
    assert_eq!(p.get("b"), Some(&Value::Int(2)));
    assert_eq!(p.get("ab"), Some(&text("ab")));
    assert_eq!(p.get("c"), None);
    let copy = p.clone();
    assert_eq!(copy.len(), 6);
    assert_eq!(copy.get("é"), Some(&text("é")));
}

#[test]
fn copied_filters_match_the_same() {
    let p = payload();
    let f = Filter::And(vec![
        Filter::Or(vec![Filter::Lt("year".into(), double(2000.0)), Filter::Eq("lang".into(), text("en"))]),
        Filter::Not(Box::new(Filter::Gt("year".into(), double(2021.0)))),
    ]);
    assert!(f.matches(Some(&p)));
    assert_eq!(f.clone().matches(Some(&p)), f.matches(Some(&p)));
    assert_eq!(f.clone().matches(None), f.matches(None));
}

#[test]
fn copied_filters_are_built_alike() {
    let f = Filter::And(vec![
        Filter::Gt("year".into(), double(1999.5)),
        Filter::Not(Box::new(Filter::Or(vec![Filter::Eq("lang".into(), text("en"))]))),
    ]);
    let Filter::And(subs) = f.clone() else { panic!("expected a list of conditions") };
    assert_eq!(subs.len(), 2);
    assert!(matches!(&subs[0], Filter::Gt(k, b) if k == "year" && *b == double(1999.5)));
    let Filter::Not(inner) = &subs[1] else { panic!("expected a negation") };
    let Filter::Or(inner) = &**inner else { panic!("expected alternatives") };
    assert!(matches!(&inner[0], Filter::Eq(k, v) if k == "lang" && *v == text("en")));
}
