use velo::float::{Double, Single};
use velo::metric::Op;
use velo::payload::{Filter, Value};
use velo::server::{
    add_vector, bad_request, default_k, json_to_payload, json_to_value, search, stats, AddRequest,
    FilterDto, SearchRequest,
};
use velo::{HnswIndex, Metric, VectorIndex};

fn single(x: f32) -> Single {
    Single::from_bits(x.to_bits())
}

fn singles(components: &[f32]) -> Vec<Single> {
    components.iter().map(|x| single(*x)).collect()
}

fn number(x: Single) -> f32 {
    f32::from_bits(x.to_bits())
}

fn double(x: f64) -> Double {
    Double::from_bits(x.to_bits())
}

fn arithmetic(op: Op, x: Single, y: Single) -> Single {
    let (x, y) = (number(x), number(y));
    let r = match op {
        Op::Add => x + y,
        Op::Sub => x - y,
        Op::Mul => x * y,
        Op::Div => x / y,
        Op::Sqrt => x.sqrt(),
    };
    Single::from_bits(r.to_bits())
}

fn level(u: Double, m: usize) -> Double {
    let ml = 1.0 / (m as f64).ln();
    Double::from_bits((-f64::from_bits(u.to_bits()).ln() * ml).to_bits())
}

type Arithmetic = fn(Op, Single, Single) -> Single;
type Level = fn(Double, usize) -> Double;

fn empty() -> HnswIndex<Arithmetic, Level> {
    HnswIndex::new(2, Metric::L2, arithmetic as Arithmetic, level as Level)
}

fn parsed(text: &str) -> serde_json::Value {
    serde_json::from_str(text).unwrap()
}

fn object(text: &str) -> serde_json::Map<String, serde_json::Value> {
    serde_json::from_str(text).unwrap()
}

fn filter_dto(value: &serde_json::Value) -> FilterDto {
    let (tag, body) = value.as_object().unwrap().iter().next().unwrap();
    let key = || body["key"].as_str().unwrap().to_string();
    let bound = || double(body["value"].as_f64().unwrap());
    let subs = || body.as_array().unwrap().iter().map(filter_dto).collect();
    match tag.as_str() {
        "eq" => FilterDto::Eq { key: key(), value: body["value"].clone() },
        "gt" => FilterDto::Gt { key: key(), value: bound() },
        "lt" => FilterDto::Lt { key: key(), value: bound() },
        "and" => FilterDto::And(subs()),
        "or" => FilterDto::Or(subs()),
        _ => FilterDto::Not(Box::new(filter_dto(body))),
    }
}

#[test]
fn json_numbers_map_to_int_or_float() {
    assert_eq!(json_to_value(serde_json::Value::from(5)).unwrap(), Value::Int(5));
    assert_eq!(
        json_to_value(serde_json::Value::from(2.5)).unwrap(),
        Value::Float(double(2.5))
    );
    assert_eq!(
        json_to_value(serde_json::Value::from("hi")).unwrap(),
        Value::Str("hi".into())
    );
    assert_eq!(
        json_to_value(serde_json::Value::from(true)).unwrap(),
        Value::Bool(true)
    );
}

#[test]
fn filter_dto_parses_and_converts() {
    let dto = filter_dto(&parsed(
        r#"{
            "and": [
                {"eq": {"key": "lang", "value": "en"}},
                {"gt": {"key": "year", "value": 2020}}
            ]
        }"#,
    ));
    let filter = dto.into_filter().unwrap();
    match filter {
        Filter::And(subs) => assert_eq!(subs.len(), 2),
        other => panic!("expected And, got {other:?}"),
    }
}

#[test]
fn integers_that_do_not_fit_become_floats() {
    assert_eq!(json_to_value(parsed("-7")).unwrap(), Value::Int(-7));
    assert_eq!(json_to_value(parsed("9223372036854775807")).unwrap(), Value::Int(i64::MAX));
    assert_eq!(
        json_to_value(parsed("9223372036854775808")).unwrap(),
        Value::Float(double(9223372036854775808.0))
    );
    assert_eq!(json_to_value(parsed("5.0")).unwrap(), Value::Float(double(5.0)));
    assert_eq!(json_to_value(parsed("false")).unwrap(), Value::Bool(false));
}

#[test]
fn other_json_values_are_refused_with_their_text() {
    for (json, shown) in [("null", "null"), ("[1, 2]", "[1,2]"), (r#"{"a": null}"#, r#"{"a":null}"#)] {
        let e = json_to_value(parsed(json)).unwrap_err();
        assert_eq!(e.status, 400);
        assert_eq!(
            e.message,
            format!("payload values must be string, number, or bool; got {shown}")
        );
    }
}

#[test]
fn objects_become_payloads() {
    let payload = json_to_payload(object(r#"{"year": 2021, "lang": "en", "ok": true}"#)).unwrap();
    assert_eq!(payload.len(), 3);
    assert_eq!(payload.get("lang"), Some(&Value::Str("en".into())));
    assert_eq!(payload.get("year"), Some(&Value::Int(2021)));
    assert_eq!(payload.get("ok"), Some(&Value::Bool(true)));

    let e = json_to_payload(object(r#"{"a": 1, "b": [], "c": null}"#)).unwrap_err();
    assert_eq!(e.message, "payload values must be string, number, or bool; got []");
}

#[test]
fn every_filter_shape_converts() {
    let dto = filter_dto(&parsed(
        r#"{"or": [
            {"not": {"lt": {"key": "year", "value": 2000}}},
            {"and": []},
            {"eq": {"key": "n", "value": 3}}
        ]}"#,
    ));
    match dto.into_filter().unwrap() {
        Filter::Or(subs) => {
            assert_eq!(subs.len(), 3);
            let Filter::Not(inner) = &subs[0] else { panic!("expected a negation") };
            let Filter::Lt(key, bound) = &**inner else { panic!("expected a bound") };
            assert!(key == "year" && *bound == double(2000.0));
            assert!(matches!(&subs[1], Filter::And(fs) if fs.is_empty()));
            assert!(matches!(&subs[2], Filter::Eq(k, v) if k == "n" && *v == Value::Int(3)));
        }
        other => panic!("expected Or, got {other:?}"),
    }
}

#[test]
fn first_unsuitable_value_refuses_a_filter() {
    let dto = filter_dto(&parsed(
        r#"{"and": [
            {"eq": {"key": "a", "value": 1}},
            {"not": {"eq": {"key": "b", "value": null}}},
            {"eq": {"key": "c", "value": []}}
        ]}"#,
    ));
    let e = dto.into_filter().unwrap_err();
    assert_eq!(e.status, 400);
    assert_eq!(e.message, "payload values must be string, number, or bool; got null");
}

#[test]
fn vectors_are_added_and_counted() {
    let mut index = empty();
    let response = add_vector(
        &mut index,
        AddRequest { id: 1, vector: singles(&[0.0, 0.0]), payload: None },
    )
    .unwrap();
    assert_eq!((response.count, response.dim, response.metric.as_str()), (1, 2, "L2"));
    let response = add_vector(
        &mut index,
        AddRequest {
            id: 2,
            vector: singles(&[3.0, 4.0]),
            payload: Some(object(r#"{"lang": "en"}"#)),
        },
    )
    .unwrap();
    assert_eq!(response.count, 2);
    let now = stats(&index);
    assert_eq!((now.count, now.dim, now.metric.as_str()), (2, 2, "L2"));
}

#[test]
fn refused_additions_leave_the_index_alone() {
    let mut index = empty();
    let e = add_vector(
        &mut index,
        AddRequest { id: 1, vector: singles(&[0.0; 12]), payload: None },
    )
    .unwrap_err();
    assert_eq!((e.status, e.message.as_str()), (400, "expected 2-dim vector, got 12"));
    let e = add_vector(
        &mut index,
        AddRequest { id: 1, vector: singles(&[0.0, 0.0]), payload: Some(object(r#"{"x": {}}"#)) },
    )
    .unwrap_err();
    assert_eq!(e.message, "payload values must be string, number, or bool; got {}");
    assert!(index.is_empty());
}

fn populated() -> HnswIndex<Arithmetic, Level> {
    let mut index = empty();
    for (id, lang) in [(1, "en"), (2, "fr"), (3, "en")] {
        let payload = Some(object(&format!(r#"{{"lang": "{lang}"}}"#)));
        add_vector(&mut index, AddRequest { id, vector: singles(&[id as f32, 0.0]), payload }).unwrap();
    }
    index
}

#[test]
fn searches_are_answered() {
    let index = populated();
    let hits = search(
        &index,
        SearchRequest { vector: singles(&[0.0, 0.0]), k: default_k(), filter: None },
    )
    .unwrap();
    let found: Vec<(u64, f32)> = hits.iter().map(|h| (h.id, number(h.distance))).collect();
    assert_eq!(found, vec![(1, 1.0), (2, 4.0), (3, 9.0)]);

    let filter = Some(filter_dto(&parsed(r#"{"eq": {"key": "lang", "value": "en"}}"#)));
    let hits = search(&index, SearchRequest { vector: singles(&[0.0, 0.0]), k: 10, filter }).unwrap();
    assert_eq!(hits.iter().map(|h| h.id).collect::<Vec<u64>>(), vec![1, 3]);
}

#[test]
fn refused_searches_say_why() {
    let index = populated();
    let e = search(&index, SearchRequest { vector: singles(&[1.0]), k: 1, filter: None }).unwrap_err();
    assert_eq!((e.status, e.message.as_str()), (400, "expected 2-dim vector, got 1"));

    let filter = Some(filter_dto(&parsed(r#"{"eq": {"key": "lang", "value": null}}"#)));
    let e = search(&index, SearchRequest { vector: singles(&[1.0, 0.0]), k: 1, filter }).unwrap_err();
    assert_eq!(e.message, "payload values must be string, number, or bool; got null");

    let e = bad_request("no".to_string());
    assert_eq!((e.status, e.message.as_str()), (400, "no"));
}

#[test]
fn ten_hits_are_returned_by_default() {
    assert_eq!(default_k(), 10);
}
