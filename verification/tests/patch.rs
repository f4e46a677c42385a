use triviumdb::error::TriviumError;
use triviumdb::json::{Finite, Json, JsonNumber, Member};
use triviumdb::patch::apply_patch;

fn text(value: &str) -> Json {
    Json::String(value.to_string())
}

fn whole(value: u64) -> Json {
    Json::Number(JsonNumber::PosInt(value))
}

fn negative(value: i64) -> Json {
    Json::Number(JsonNumber::NegInt(value))
}

fn float(value: f64) -> Json {
    Json::Number(JsonNumber::Float(Finite::new(value.to_bits()).unwrap()))
}

fn object(members: Vec<(&str, Json)>) -> Json {
    Json::object(
        members
            .into_iter()
            .map(|(name, value)| Member { name: name.to_string(), value })
            .collect(),
    )
}

fn one(name: &str, value: Json) -> Json {
    object(vec![(name, value)])
}

fn plus(a: u64, b: u64) -> u64 {
    (f64::from_bits(a) + f64::from_bits(b)).to_bits()
}

fn patched(payload: &Json, patch: Json) -> Json {
    apply_patch(payload, &patch, &plus).unwrap()
}

fn refused(payload: &Json, patch: Json) -> bool {
    matches!(apply_patch(payload, &patch, &plus), Err(TriviumError::InvalidInput(_)))
}

fn person() -> Json {
    object(vec![
        ("name", text("Eve")),
        ("visits", whole(3)),
        ("old_field", Json::Bool(true)),
        ("ratio", float(0.5)),
    ])
}

#[test]
fn members_are_set() {
    let result = patched(&person(), one("$set", one("name", text("Alice"))));
    let expected = object(vec![
        ("name", text("Alice")),
        ("visits", whole(3)),
        ("old_field", Json::Bool(true)),
        ("ratio", float(0.5)),
    ]);
    assert!(result.same(&expected));
    let more = patched(&person(), one("$set", one("city", text("Paris"))));
    assert!(more.get("city").unwrap().same(&text("Paris")));
    assert!(more.get("name").unwrap().same(&text("Eve")));
}

#[test]
fn a_patch_without_operators_sets_its_members() {
    let short = patched(&person(), one("name", text("Bob")));
    let long = patched(&person(), one("$set", one("name", text("Bob"))));
    assert!(short.same(&long));
    assert!(short.get("name").unwrap().same(&text("Bob")));
    assert!(short.get("$set").is_none());
}

#[test]
fn members_are_increased() {
    let result = patched(&person(), one("$inc", one("visits", whole(1))));
    assert!(result.get("visits").unwrap().same(&whole(4)));
    assert!(result.get("name").unwrap().same(&text("Eve")));
    let fewer = patched(&person(), one("$inc", one("visits", negative(-5))));
    assert!(fewer.get("visits").unwrap().same(&negative(-2)));
    let fresh = patched(&person(), one("$inc", one("likes", whole(2))));
    assert!(fresh.get("likes").unwrap().same(&whole(2)));
    let mixed = patched(&person(), one("$inc", one("ratio", whole(1))));
    assert!(mixed.get("ratio").unwrap().same(&float(1.5)));
    let large = patched(&one("n", whole(u64::MAX)), one("$inc", one("n", whole(1))));
    assert!(large.get("n").unwrap().same(&float(18446744073709551616.0)));
}

#[test]
fn members_are_taken_out() {
    let result = patched(&person(), one("$unset", one("old_field", Json::Bool(true))));
    let expected =
        object(vec![("name", text("Eve")), ("visits", whole(3)), ("ratio", float(0.5))]);
    assert!(result.same(&expected));
    let same = patched(&person(), one("$unset", one("missing", Json::Bool(true))));
    assert!(same.same(&person()));
}

#[test]
fn operators_work_together() {
    let patch = object(vec![
        ("$set", object(vec![("visits", whole(10)), ("gone", whole(1))])),
        ("$inc", one("visits", whole(5))),
        ("$unset", object(vec![("gone", Json::Null), ("old_field", Json::Null)])),
        ("name", text("Bob")),
    ]);
    let result = patched(&person(), patch);
    let expected =
        object(vec![("name", text("Bob")), ("visits", whole(15)), ("ratio", float(0.5))]);
    assert!(result.same(&expected));
}

#[test]
fn malformed_patches_are_refused() {
    assert!(refused(&person(), whole(1)));
    assert!(refused(&Json::Null, one("name", text("Bob"))));
    assert!(refused(&person(), one("$set", whole(1))));
    assert!(refused(&person(), one("$unset", text("name"))));
    assert!(refused(&person(), one("$inc", whole(1))));
    assert!(refused(&person(), one("$inc", one("name", whole(1)))));
    assert!(refused(&person(), one("$inc", one("visits", text("1")))));
    assert!(refused(&one("n", float(f64::MAX)), one("$inc", one("n", float(f64::MAX)))));
}
