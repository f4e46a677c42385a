use triviumdb::filter::{combine_mask, Filter};
use triviumdb::json::{Finite, Json, JsonNumber, Member};

fn text(value: &str) -> Json {
    Json::String(value.to_string())
}

fn whole(value: u64) -> Json {
    Json::Number(JsonNumber::PosInt(value))
}

fn negative(value: i64) -> Json {
    Json::Number(JsonNumber::NegInt(value))
}

fn float(value: f64) -> Json {
    Json::Number(JsonNumber::Float(Finite::new(value.to_bits()).unwrap()))
}

fn object(members: Vec<(&str, Json)>) -> Json {
    Json::object(
        members
            .into_iter()
            .map(|(name, value)| Member { name: name.to_string(), value })
            .collect(),
    )
}

fn one(name: &str, value: Json) -> Json {
    object(vec![(name, value)])
}

fn parse(value: Json) -> Filter {
    Filter::from_json(&value).unwrap()
}

fn rejected(value: Json) -> String {
    match Filter::from_json(&value) {
        Ok(_) => panic!("accepted"),
        Err(message) => message,
    }
}

#[test]
fn starts_with_basic_match() {
    let filter = Filter::starts_with("folder", "/地理");
    let payload = one("folder", text("/地理/亚洲/中国"));
    assert!(filter.matches(&payload));
}

#[test]
fn starts_with_exact_match() {
    let filter = Filter::starts_with("folder", "/地理");
    let payload = one("folder", text("/地理"));
    assert!(filter.matches(&payload), "精确等于前缀时也应匹配");
}

#[test]
fn starts_with_no_match() {
    let filter = Filter::starts_with("folder", "/地理");
    let payload = one("folder", text("/天文/恒星"));
    assert!(!filter.matches(&payload));
}

#[test]
fn starts_with_missing_field() {
    let filter = Filter::starts_with("folder", "/地理");
    let payload = one("name", text("test"));
    assert!(!filter.matches(&payload), "字段不存在应返回 false");
}

#[test]
fn starts_with_non_string_field() {
    let filter = Filter::starts_with("count", "12");
    let payload = one("count", whole(123));
    assert!(!filter.matches(&payload), "非字符串字段应返回 false");
}

#[test]
fn contains_basic_match() {
    let filter = Filter::contains("text", "关键词");
    let payload = one("text", text("这是一个包含关键词的文本"));
    assert!(filter.matches(&payload));
}

#[test]
fn contains_no_match() {
    let filter = Filter::contains("text", "不存在");
    let payload = one("text", text("正常文本"));
    assert!(!filter.matches(&payload));
}

#[test]
fn a_number_makes_a_plain_comparison() {
    let bound = 18.0f64.to_bits();
    match parse(one("age", one("$gt", whole(18)))) {
        Filter::Gt(key, bits) => assert_eq!((key.as_str(), bits), ("age", bound)),
        _ => panic!("no plain comparison"),
    }
    assert!(matches!(parse(one("age", one("$gte", whole(18)))), Filter::Gte(_, bits) if bits == bound));
    assert!(matches!(parse(one("age", one("$lt", float(18.0)))), Filter::Lt(_, bits) if bits == bound));
    assert!(matches!(
        parse(one("age", one("$lte", negative(-3)))),
        Filter::Lte(_, bits) if bits == (-3.0f64).to_bits()
    ));
    assert!(matches!(parse(one("name", one("$gt", text("m")))), Filter::Range(_, _, _)));
    let large = (1u64 << 53) + 1;
    assert!(matches!(
        parse(one("n", one("$gt", whole(large)))),
        Filter::Gt(_, bits) if bits == (large as f64).to_bits()
    ));
}

#[test]
fn from_json_starts_with() {
    let filter = parse(one("folder", one("$startsWith", text("/地理"))));
    assert!(filter.matches(&one("folder", text("/地理/亚洲"))));
    assert!(!filter.matches(&one("folder", text("/天文"))));
}

#[test]
fn from_json_contains() {
    let filter = parse(one("tag", one("$contains", text("重要"))));
    assert!(filter.matches(&one("tag", text("非常重要的文档"))));
    assert!(!filter.matches(&one("tag", text("普通文档"))));
}

#[test]
fn from_json_starts_with_invalid_type() {
    let value = one("folder", one("$startsWith", whole(123)));
    assert!(Filter::from_json(&value).is_err(), "$startsWith 传入数字应报错");
}

#[test]
fn or_with_starts_with() {
    let filter = Filter::or(vec![
        Filter::starts_with("folder", "/地理"),
        Filter::starts_with("folder", "/天文"),
    ]);
    assert!(filter.matches(&one("folder", text("/地理/亚洲"))));
    assert!(filter.matches(&one("folder", text("/天文/恒星"))));
    assert!(!filter.matches(&one("folder", text("/历史/近代"))));
}

#[test]
fn equality_tells_numbers_apart_by_kind() {
    let filter = Filter::eq("n", whole(1));
    assert!(filter.matches(&one("n", whole(1))));
    assert!(!filter.matches(&one("n", float(1.0))));
    assert!(!filter.matches(&one("m", whole(1))));
    let other = Filter::ne("n", whole(1));
    assert!(!other.matches(&one("n", whole(1))));
    assert!(other.matches(&one("m", whole(1))));
}

#[test]
fn ranges_compare_integers_as_numbers() {
    let above = Filter::gt("n", 2.5f64.to_bits());
    assert!(above.matches(&one("n", whole(3))));
    assert!(!above.matches(&one("n", whole(2))));
    assert!(!above.matches(&one("n", negative(-3))));
    assert!(!above.matches(&one("n", text("3"))));
    let below = Filter::lte("n", (-3.0f64).to_bits());
    assert!(below.matches(&one("n", negative(-3))));
    assert!(below.matches(&one("n", negative(-4))));
    assert!(!below.matches(&one("n", float(-2.5))));
    // 2^53 + 1 rounds to 2^53 as a double.
    let exact = Filter::gte("n", 9007199254740992.0f64.to_bits());
    assert!(exact.matches(&one("n", whole(9007199254740993))));
    let strict = Filter::gt("n", 9007199254740992.0f64.to_bits());
    assert!(!strict.matches(&one("n", whole(9007199254740993))));
    assert!(Filter::lt("n", 0f64.to_bits()).matches(&one("n", float(-0.5))));
}

#[test]
fn parsed_range_of_texts_compares_texts() {
    let filter = parse(one("name", one("$gte", text("b"))));
    assert!(filter.matches(&one("name", text("b"))));
    assert!(filter.matches(&one("name", text("中"))));
    assert!(!filter.matches(&one("name", text("a"))));
    assert!(!filter.matches(&one("name", whole(1))));
}

#[test]
fn parsed_times_compare_instants() {
    let filter = parse(one("at", one("$after", text("2024-01-01T08:00:00+08:00"))));
    assert!(filter.matches(&one("at", text("2024-01-01T00:00:01Z"))));
    assert!(!filter.matches(&one("at", text("2024-01-01T00:00:00Z"))));
    assert!(!filter.matches(&one("at", text("2023-12-31T23:59:59Z"))));
    assert!(!filter.matches(&one("at", text("not a time"))));
    assert!(Filter::from_json(&one("at", one("$after", text("yesterday")))).is_err());
    assert!(Filter::from_json(&one("at", one("$after", whole(5)))).is_err());
}

#[test]
fn lists_and_sizes() {
    let payload = one("tags", Json::Array(vec![text("a"), text("b")]));
    assert!(Filter::size("tags", 2).matches(&payload));
    assert!(!Filter::size("tags", 1).matches(&payload));
    assert!(Filter::all("tags", vec![text("b"), text("a")]).matches(&payload));
    assert!(!Filter::all("tags", vec![text("c")]).matches(&payload));
    assert!(Filter::is_in("n", vec![whole(1), whole(2)]).matches(&one("n", whole(2))));
    assert!(!Filter::is_in("n", vec![whole(1), whole(2)]).matches(&one("n", whole(3))));
    assert!(Filter::nin("n", vec![whole(1)]).matches(&one("n", whole(3))));
    assert!(!Filter::nin("n", vec![whole(1)]).matches(&one("n", whole(1))));
    assert!(Filter::field_exists("n", true).matches(&one("n", Json::Null)));
    assert!(Filter::field_exists("n", false).matches(&one("m", Json::Null)));
    assert!(Filter::type_match("n", "number").matches(&one("n", float(0.5))));
    assert!(!Filter::type_match("n", "string").matches(&one("n", float(0.5))));
}

#[test]
fn parsed_members_must_all_hold() {
    let filter = parse(object(vec![
        ("kind", text("book")),
        ("year", object(vec![("$gte", whole(1990)), ("$lt", whole(2000))])),
    ]));
    assert!(filter.matches(&object(vec![("kind", text("book")), ("year", whole(1995))])));
    assert!(!filter.matches(&object(vec![("kind", text("book")), ("year", whole(2000))])));
    assert!(!filter.matches(&object(vec![("kind", text("film")), ("year", whole(1995))])));
    let either = parse(one(
        "$or",
        Json::Array(vec![one("a", whole(1)), one("b", whole(2))]),
    ));
    assert!(either.matches(&one("b", whole(2))));
    assert!(!either.matches(&one("b", whole(1))));
}

#[test]
fn malformed_filters_are_rejected() {
    rejected(whole(5));
    rejected(one("$and", whole(1)));
    rejected(one("n", one("$size", text("x"))));
    rejected(one("n", one("$in", whole(1))));
    rejected(one("n", one("$exists", whole(1))));
    let message = rejected(one("n", one("$near", whole(1))));
    assert!(message.contains("$near"), "{}", message);
}

#[test]
fn empty_conjunction_holds_and_empty_disjunction_does_not() {
    assert!(Filter::and(vec![]).matches(&Json::Null));
    assert!(!Filter::or(vec![]).matches(&Json::Null));
}

#[test]
fn mask_of_required_pairs() {
    let filter = Filter::and(vec![
        Filter::eq("a", whole(1)),
        Filter::gt("b", 1f64.to_bits()),
        Filter::eq("c", text("x")),
    ]);
    let pairs = filter.must_have_pairs();
    assert_eq!(pairs.len(), 2);
    assert_eq!(pairs[0].name, "a");
    assert_eq!(pairs[1].name, "c");
    let tag_hash = |pair: &Member| if pair.name == "a" { 5 } else { 64 + 8 };
    assert_eq!(filter.extract_must_have_mask(&tag_hash), (1 << 5) | (1 << 8));
    assert_eq!(Filter::gt("b", 0).extract_must_have_mask(&tag_hash), 0);
    assert_eq!(combine_mask(&vec![]), 0);
}

#[test]
fn objects_keep_the_last_value_of_a_name() {
    let value = object(vec![("b", whole(1)), ("a", whole(2)), ("b", whole(3))]);
    assert!(value.get("b").unwrap().same(&whole(3)));
    assert!(value.get("a").unwrap().same(&whole(2)));
    assert!(value.get("c").is_none());
    assert!(Finite::new(f64::NAN.to_bits()).is_none());
    assert!(value.duplicate().same(&value));
}

#[test]
fn members_may_be_read_one_by_one() {
    let members = || {
        vec![
            ("kind", text("book")),
            ("year", object(vec![("$gte", whole(1990)), ("$lt", whole(2000))])),
            ("$or", Json::Array(vec![one("a", whole(1)), one("b", whole(2))])),
        ]
    };
    let together = parse(object(members()));
    let alone: Vec<Filter> =
        members().into_iter().map(|(name, value)| parse(one(name, value))).collect();
    for kind in ["book", "film"] {
        for year in [1989, 1990, 1999, 2000] {
            for a in [1, 2] {
                let payload =
                    object(vec![("kind", text(kind)), ("year", whole(year)), ("a", whole(a))]);
                assert_eq!(
                    together.matches(&payload),
                    alone.iter().all(|filter| filter.matches(&payload))
                );
            }
        }
    }
}

#[test]
fn objects_are_equal_in_any_order() {
    let one_way = object(vec![("b", whole(1)), ("a", whole(2))]);
    let other_way = object(vec![("a", whole(2)), ("b", whole(1))]);
    assert!(one_way.same(&other_way));
    assert!(!one_way.same(&object(vec![("a", whole(1)), ("b", whole(2))])));
    assert!(Filter::eq("o", one_way).matches(&one("o", other_way)));
}
