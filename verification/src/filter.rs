//! Payload filters: parsing and evaluation.
//!
//! A filter is written as a JSON object in which operators start with `$`. Parsing accepts the
//! known operators only and checks the types of their arguments. Evaluation compares values of
//! the same JSON type only; it never converts between text and numbers.
use vstd::prelude::*;

use crate::json::{
    json_views, lemma_json_view, lookup, member_views, number_key, Json, JsonNumber,
    JsonView, Member, MemberView, NumberView,
};
use crate::number::{f64_equal, f64_less, f64_nan, f64_value_key, spec_f64_equal, spec_f64_less};
use crate::text::{
    join, same_text, text_before, text_contains, text_holds, text_less, text_starts_with,
};

verus! {

/// A value that range operators compare with: the bit pattern of a double precision number, or
/// text.
#[derive(Debug)]
pub enum ComparableValue {
    Number(u64),
    String(String),
}

/// The four range comparisons.
#[derive(Debug, Clone, Copy, PartialEq, Eq, Structural)]
pub enum RangeOp {
    Gt,
    Gte,
    Lt,
    Lte,
}

/// A condition on a payload. Numbers are double precision bit patterns, times are nanoseconds
/// since the Unix epoch.
#[derive(Debug)]
pub enum Filter {
    /// The field has this value.
    Eq(String, Json),
    /// The field does not have this value; it need not exist.
    Ne(String, Json),
    /// The field is a greater number.
    Gt(String, u64),
    /// The field is a number at least as great.
    Gte(String, u64),
    /// The field is a smaller number.
    Lt(String, u64),
    /// The field is a number at most as great.
    Lte(String, u64),
    /// The field compares so with a value of its own type.
    Range(String, RangeOp, ComparableValue),
    /// The field is an RFC 3339 time that compares so with an instant.
    TimeRange(String, RangeOp, i64),
    /// The field has one of these values.
    In(String, Vec<Json>),
    /// All conditions hold.
    And(Vec<Filter>),
    /// One of the conditions holds.
    Or(Vec<Filter>),
    /// The field exists, or does not.
    Exists(String, bool),
    /// The field has none of these values; it need not exist.
    Nin(String, Vec<Json>),
    /// The field is an array of this length.
    Size(String, usize),
    /// The field is an array that holds all of these values.
    All(String, Vec<Json>),
    /// The field has this JSON type.
    TypeMatch(String, String),
    /// The field is text with this prefix.
    StartsWith(String, String),
    /// The field is text that holds this text.
    Contains(String, String),
}

/// A comparison value as a mathematical value.
pub enum ComparableView {
    Number(u64),
    String(Seq<char>),
}

/// A filter as a mathematical value.
pub enum FilterView {
    Eq(Seq<char>, JsonView),
    Ne(Seq<char>, JsonView),
    Gt(Seq<char>, u64),
    Gte(Seq<char>, u64),
    Lt(Seq<char>, u64),
    Lte(Seq<char>, u64),
    Range(Seq<char>, RangeOp, ComparableView),
    TimeRange(Seq<char>, RangeOp, i64),
    In(Seq<char>, Seq<JsonView>),
    And(Seq<FilterView>),
    Or(Seq<FilterView>),
    Exists(Seq<char>, bool),
    Nin(Seq<char>, Seq<JsonView>),
    Size(Seq<char>, usize),
    All(Seq<char>, Seq<JsonView>),
    TypeMatch(Seq<char>, Seq<char>),
    StartsWith(Seq<char>, Seq<char>),
    Contains(Seq<char>, Seq<char>),
}

impl View for ComparableValue {
    type V = ComparableView;

    open spec fn view(&self) -> ComparableView {
        match *self {
            ComparableValue::Number(bits) => ComparableView::Number(bits),
            ComparableValue::String(text) => ComparableView::String(text@),
        }
    }
}

/// The view of a filter.
pub open spec fn filter_view(filter: Filter) -> FilterView
    decreases filter,
{
    match filter {
        Filter::Eq(key, value) => FilterView::Eq(key@, value@),
        Filter::Ne(key, value) => FilterView::Ne(key@, value@),
        Filter::Gt(key, bits) => FilterView::Gt(key@, bits),
        Filter::Gte(key, bits) => FilterView::Gte(key@, bits),
        Filter::Lt(key, bits) => FilterView::Lt(key@, bits),
        Filter::Lte(key, bits) => FilterView::Lte(key@, bits),
        Filter::Range(key, op, value) => FilterView::Range(key@, op, value@),
        Filter::TimeRange(key, op, nanos) => FilterView::TimeRange(key@, op, nanos),
        Filter::In(key, values) => FilterView::In(key@, json_views(values@)),
        Filter::And(filters) => FilterView::And(
            Seq::new(
                filters@.len(),
                |i: int|
                    if 0 <= i < filters@.len() {
                        filter_view(filters@[i])
                    } else {
                        FilterView::Exists(Seq::empty(), true)
                    },
            ),
        ),
        Filter::Or(filters) => FilterView::Or(
            Seq::new(
                filters@.len(),
                |i: int|
                    if 0 <= i < filters@.len() {
                        filter_view(filters@[i])
                    } else {
                        FilterView::Exists(Seq::empty(), true)
                    },
            ),
        ),
        Filter::Exists(key, wanted) => FilterView::Exists(key@, wanted),
        Filter::Nin(key, values) => FilterView::Nin(key@, json_views(values@)),
        Filter::Size(key, size) => FilterView::Size(key@, size),
        Filter::All(key, values) => FilterView::All(key@, json_views(values@)),
        Filter::TypeMatch(key, name) => FilterView::TypeMatch(key@, name@),
        Filter::StartsWith(key, prefix) => FilterView::StartsWith(key@, prefix@),
        Filter::Contains(key, part) => FilterView::Contains(key@, part@),
    }
}

impl View for Filter {
    type V = FilterView;

    open spec fn view(&self) -> FilterView {
        filter_view(*self)
    }
}

/// The views of a list of filters.
pub open spec fn filter_views(filters: Seq<Filter>) -> Seq<FilterView> {
    filters.map_values(|filter: Filter| filter@)
}

/// What the view of a combined filter holds.
pub proof fn lemma_filter_view(filter: Filter)
    ensures
        filter matches Filter::And(filters) ==> filter@ == FilterView::And(filter_views(filters@)),
        filter matches Filter::Or(filters) ==> filter@ == FilterView::Or(filter_views(filters@)),
{
    match filter {
        Filter::And(filters) => {
            assert(filter@->And_0 =~= filter_views(filters@));
        },
        Filter::Or(filters) => {
            assert(filter@->Or_0 =~= filter_views(filters@));
        },
        _ => {},
    }
}

// ---------------------------------------------------------------------------------------
// Evaluation
// ---------------------------------------------------------------------------------------
/// How two double precision numbers compare; nothing compares with a NaN.
pub open spec fn numbers_compare(actual: u64, expected: u64, op: RangeOp) -> bool {
    match op {
        RangeOp::Gt => spec_f64_less(expected, actual),
        RangeOp::Gte => spec_f64_less(expected, actual) || spec_f64_equal(expected, actual),
        RangeOp::Lt => spec_f64_less(actual, expected),
        RangeOp::Lte => spec_f64_less(actual, expected) || spec_f64_equal(actual, expected),
    }
}

/// How a JSON number compares with a double precision number.
pub open spec fn number_compares(actual: NumberView, expected: u64, op: RangeOp) -> bool {
    !f64_nan(expected) && match op {
        RangeOp::Gt => number_key(actual) > f64_value_key(expected),
        RangeOp::Gte => number_key(actual) >= f64_value_key(expected),
        RangeOp::Lt => number_key(actual) < f64_value_key(expected),
        RangeOp::Lte => number_key(actual) <= f64_value_key(expected),
    }
}

/// How two texts compare in lexicographic order.
pub open spec fn texts_compare(actual: Seq<char>, expected: Seq<char>, op: RangeOp) -> bool {
    match op {
        RangeOp::Gt => text_before(expected, actual),
        RangeOp::Gte => text_before(expected, actual) || expected == actual,
        RangeOp::Lt => text_before(actual, expected),
        RangeOp::Lte => text_before(actual, expected) || actual == expected,
    }
}

/// How two instants compare.
pub open spec fn times_compare(actual: i64, expected: i64, op: RangeOp) -> bool {
    match op {
        RangeOp::Gt => actual > expected,
        RangeOp::Gte => actual >= expected,
        RangeOp::Lt => actual < expected,
        RangeOp::Lte => actual <= expected,
    }
}

/// Compares two double precision numbers.
pub fn compare_numbers(actual: u64, expected: u64, op: RangeOp) -> (result: bool)
    ensures
        result == numbers_compare(actual, expected, op),
{
    match op {
        RangeOp::Gt => f64_less(expected, actual),
        RangeOp::Gte => f64_less(expected, actual) || f64_equal(expected, actual),
        RangeOp::Lt => f64_less(actual, expected),
        RangeOp::Lte => f64_less(actual, expected) || f64_equal(actual, expected),
    }
}

/// Compares two texts.
pub fn compare_texts(actual: &str, expected: &str, op: RangeOp) -> (result: bool)
    ensures
        result == texts_compare(actual@, expected@, op),
{
    match op {
        RangeOp::Gt => text_less(expected, actual),
        RangeOp::Gte => text_less(expected, actual) || same_text(expected, actual),
        RangeOp::Lt => text_less(actual, expected),
        RangeOp::Lte => text_less(actual, expected) || same_text(actual, expected),
    }
}

/// Compares two instants.
pub fn compare_times(actual: i64, expected: i64, op: RangeOp) -> (result: bool)
    ensures
        result == times_compare(actual, expected, op),
{
    match op {
        RangeOp::Gt => actual > expected,
        RangeOp::Gte => actual >= expected,
        RangeOp::Lt => actual < expected,
        RangeOp::Lte => actual <= expected,
    }
}

/// The nanoseconds since the Unix epoch of an RFC 3339 time, as `chrono` reads it; none where
/// the text is no such time or the count does not fit.
pub uninterp spec fn rfc3339_nanos(text: Seq<char>) -> Option<i64>;

/// Calls `chrono::DateTime::parse_from_rfc3339` and, on what it returns,
/// `timestamp_nanos_opt`. The result is a function of the text alone; which texts are times, and
/// which instants they name, is left unsaid.
#[verifier::external_body]
pub(crate) fn parse_rfc3339_nanos(value: &str) -> (result: Option<i64>)
    ensures
        result == rfc3339_nanos(value@),
{
    chrono::DateTime::parse_from_rfc3339(value).ok()?.timestamp_nanos_opt()
}

/// Whether a field that reads as this instant, if it is a time at all, satisfies a comparison.
pub open spec fn instant_holds(actual: Option<i64>, expected: i64, op: RangeOp) -> bool {
    actual matches Some(nanos) && times_compare(nanos, expected, op)
}

/// Evaluates a time comparison on a field that was read as `actual`.
pub fn matches_instant(actual: Option<i64>, expected: i64, op: RangeOp) -> (result: bool)
    ensures
        result == instant_holds(actual, expected, op),
{
    match actual {
        Some(nanos) => compare_times(nanos, expected, op),
        None => false,
    }
}

/// The name of the type of a value.
pub open spec fn kind_of(value: JsonView) -> Seq<char> {
    match value {
        JsonView::Null => "null"@,
        JsonView::Bool(_) => "boolean"@,
        JsonView::Number(_) => "number"@,
        JsonView::String(_) => "string"@,
        JsonView::Array(_) => "array"@,
        JsonView::Object(_) => "object"@,
    }
}

/// Whether a payload satisfies a filter.
pub open spec fn holds(filter: FilterView, payload: JsonView) -> bool
    decreases filter,
{
    match filter {
        FilterView::Eq(key, value) => lookup(payload, key) == Some(value),
        FilterView::Ne(key, value) => lookup(payload, key) != Some(value),
        FilterView::Gt(key, bits) => lookup(payload, key) matches Some(JsonView::Number(number))
            && number_compares(number, bits, RangeOp::Gt),
        FilterView::Gte(key, bits) => lookup(payload, key) matches Some(JsonView::Number(number))
            && number_compares(number, bits, RangeOp::Gte),
        FilterView::Lt(key, bits) => lookup(payload, key) matches Some(JsonView::Number(number))
            && number_compares(number, bits, RangeOp::Lt),
        FilterView::Lte(key, bits) => lookup(payload, key) matches Some(JsonView::Number(number))
            && number_compares(number, bits, RangeOp::Lte),
        FilterView::Range(key, op, expected) => match (lookup(payload, key), expected) {
            (Some(JsonView::Number(number)), ComparableView::Number(bits)) => number_compares(
                number,
                bits,
                op,
            ),
            (Some(JsonView::String(text)), ComparableView::String(bound)) => texts_compare(
                text,
                bound,
                op,
            ),
            _ => false,
        },
        FilterView::TimeRange(key, op, expected) => lookup(payload, key) matches Some(
            JsonView::String(text),
        ) && instant_holds(rfc3339_nanos(text), expected, op),
        FilterView::In(key, values) => lookup(payload, key) matches Some(value) && values.contains(
            value,
        ),
        FilterView::Nin(key, values) => lookup(payload, key) matches Some(value)
            ==> !values.contains(value),
        FilterView::Exists(key, wanted) => lookup(payload, key) is Some == wanted,
        FilterView::Size(key, size) => lookup(payload, key) matches Some(JsonView::Array(items))
            && items.len() == size,
        FilterView::All(key, values) => lookup(payload, key) matches Some(JsonView::Array(items))
            && forall|i: int| 0 <= i < values.len() ==> items.contains(#[trigger] values[i]),
        FilterView::TypeMatch(key, name) => lookup(payload, key) matches Some(value) && kind_of(
            value,
        ) == name,
        FilterView::StartsWith(key, prefix) => lookup(payload, key) matches Some(
            JsonView::String(text),
        ) && prefix.is_prefix_of(text),
        FilterView::Contains(key, part) => lookup(payload, key) matches Some(
            JsonView::String(text),
        ) && text_holds(text, part),
        FilterView::And(filters) => forall|i: int|
            0 <= i < filters.len() ==> holds(#[trigger] filters[i], payload),
        FilterView::Or(filters) => exists|i: int|
            0 <= i < filters.len() && holds(#[trigger] filters[i], payload),
    }
}

/// A conjunction holds where all of its conditions do, a disjunction where one of them does.
pub proof fn law_and_or(filters: Seq<FilterView>, payload: JsonView)
    ensures
        holds(FilterView::And(filters), payload) <==> forall|i: int|
            0 <= i < filters.len() ==> holds(#[trigger] filters[i], payload),
        holds(FilterView::Or(filters), payload) <==> exists|i: int|
            0 <= i < filters.len() && holds(#[trigger] filters[i], payload),
{
    assert(FilterView::And(filters)->And_0 == filters);
    assert(FilterView::Or(filters)->Or_0 == filters);
}

/// Whether `value` is one of `values`.
fn contains_json(values: &Vec<Json>, value: &Json) -> (result: bool)
    ensures
        result == json_views(values@).contains(value@),
{
    let mut i: usize = 0;
    while i < values.len()
        invariant
            i <= values@.len(),
            forall|j: int| 0 <= j < i ==> (#[trigger] values@[j])@ != value@,
        decreases values@.len() - i,
    {
        if values[i].same(value) {
            assert(json_views(values@)[i as int] == value@);
            return true;
        }
        i += 1;
    }
    proof {
        if json_views(values@).contains(value@) {
            let j = choose|j: int|
                0 <= j < json_views(values@).len() && json_views(values@)[j] == value@;
            assert(values@[j]@ == value@);
        }
    }
    false
}

/// Whether every one of `values` is one of `items`.
fn contains_all(items: &Vec<Json>, values: &Vec<Json>) -> (result: bool)
    ensures
        result == forall|i: int|
            0 <= i < json_views(values@).len() ==> json_views(items@).contains(
                #[trigger] json_views(values@)[i],
            ),
{
    let mut i: usize = 0;
    while i < values.len()
        invariant
            i <= values@.len(),
            forall|j: int|
                0 <= j < i ==> json_views(items@).contains(#[trigger] json_views(values@)[j]),
        decreases values@.len() - i,
    {
        assert(json_views(values@)[i as int] == values@[i as int]@);
        if !contains_json(items, &values[i]) {
            assert(!json_views(items@).contains(json_views(values@)[i as int]));
            return false;
        }
        i += 1;
    }
    true
}

/// Compares a field with a number.
fn field_compares(value: Option<&Json>, bits: u64, op: RangeOp) -> (result: bool)
    ensures
        result == (value matches Some(Json::Number(number)) && number_compares(number@, bits, op)),
{
    match value {
        Some(Json::Number(number)) => compare_numbers(number.as_f64(), bits, op),
        _ => false,
    }
}

impl Filter {
    /// Whether a payload satisfies the filter.
    pub fn matches(&self, payload: &Json) -> (result: bool)
        ensures
            result == holds(self@, payload@),
        decreases *self,
    {
        proof {
            lemma_filter_view(*self);
        }
        match self {
            Filter::Eq(key, value) => match payload.get(key.as_str()) {
                Some(field) => field.same(value),
                None => false,
            },
            Filter::Ne(key, value) => match payload.get(key.as_str()) {
                Some(field) => !field.same(value),
                None => true,
            },
            Filter::Gt(key, bits) => field_compares(payload.get(key.as_str()), *bits, RangeOp::Gt),
            Filter::Gte(key, bits) => field_compares(
                payload.get(key.as_str()),
                *bits,
                RangeOp::Gte,
            ),
            Filter::Lt(key, bits) => field_compares(payload.get(key.as_str()), *bits, RangeOp::Lt),
            Filter::Lte(key, bits) => field_compares(
                payload.get(key.as_str()),
                *bits,
                RangeOp::Lte,
            ),
            Filter::Range(key, op, expected) => match (payload.get(key.as_str()), expected) {
                (Some(Json::Number(number)), ComparableValue::Number(bits)) => compare_numbers(
                    number.as_f64(),
                    *bits,
                    *op,
                ),
                (Some(Json::String(text)), ComparableValue::String(bound)) => compare_texts(
                    text.as_str(),
                    bound.as_str(),
                    *op,
                ),
                _ => false,
            },
            Filter::TimeRange(key, op, expected) => match payload.get(key.as_str()) {
                Some(Json::String(text)) => matches_instant(
                    parse_rfc3339_nanos(text.as_str()),
                    *expected,
                    *op,
                ),
                _ => false,
            },
            Filter::In(key, values) => match payload.get(key.as_str()) {
                Some(field) => contains_json(values, field),
                None => false,
            },
            Filter::Nin(key, values) => match payload.get(key.as_str()) {
                Some(field) => !contains_json(values, field),
                None => true,
            },
            Filter::Exists(key, wanted) => payload.get(key.as_str()).is_some() == *wanted,
            Filter::Size(key, size) => match payload.get(key.as_str()) {
                Some(field) => {
                    proof {
                        lemma_json_view(*field);
                    }
                    match field {
                        Json::Array(items) => items.len() == *size,
                        _ => false,
                    }
                },
                None => false,
            },
            Filter::All(key, values) => match payload.get(key.as_str()) {
                Some(field) => {
                    proof {
                        lemma_json_view(*field);
                        assert(self@->All_1 == json_views(values@));
                    }
                    match field {
                        Json::Array(items) => contains_all(items, values),
                        _ => false,
                    }
                },
                None => false,
            },
            Filter::TypeMatch(key, name) => match payload.get(key.as_str()) {
                Some(field) => {
                    let actual = match field {
                        Json::Null => "null",
                        Json::Bool(_) => "boolean",
                        Json::Number(_) => "number",
                        Json::String(_) => "string",
                        Json::Array(_) => "array",
                        Json::Object(_) => "object",
                    };
                    same_text(actual, name.as_str())
                },
                None => false,
            },
            Filter::And(filters) => {
                let mut i: usize = 0;
                while i < filters.len()
                    invariant
                        i <= filters@.len(),
                        *self == Filter::And(*filters),
                        self@ == FilterView::And(filter_views(filters@)),
                        forall|j: int|
                            0 <= j < i ==> holds(#[trigger] filter_views(filters@)[j], payload@),
                    decreases filters@.len() - i,
                {
                    assert(self->And_0 == *filters);
                    assert(filter_views(filters@)[i as int] == filters@[i as int]@);
                    if !filters[i].matches(payload) {
                        assert(!holds(filter_views(filters@)[i as int], payload@));
                        proof {
                            law_and_or(filter_views(filters@), payload@);
                        }
                        return false;
                    }
                    i += 1;
                }
                proof {
                    law_and_or(filter_views(filters@), payload@);
                }
                true
            },
            Filter::Or(filters) => {
                let mut i: usize = 0;
                while i < filters.len()
                    invariant
                        i <= filters@.len(),
                        *self == Filter::Or(*filters),
                        self@ == FilterView::Or(filter_views(filters@)),
                        forall|j: int|
                            0 <= j < i ==> !holds(#[trigger] filter_views(filters@)[j], payload@),
                    decreases filters@.len() - i,
                {
                    assert(self->Or_0 == *filters);
                    assert(filter_views(filters@)[i as int] == filters@[i as int]@);
                    if filters[i].matches(payload) {
                        assert(holds(filter_views(filters@)[i as int], payload@));
                        proof {
                            law_and_or(filter_views(filters@), payload@);
                        }
                        return true;
                    }
                    i += 1;
                }
                proof {
                    law_and_or(filter_views(filters@), payload@);
                }
                false
            },
            Filter::StartsWith(key, prefix) => match payload.get(key.as_str()) {
                Some(Json::String(text)) => text_starts_with(text.as_str(), prefix.as_str()),
                _ => false,
            },
            Filter::Contains(key, part) => match payload.get(key.as_str()) {
                Some(Json::String(text)) => text_contains(text.as_str(), part.as_str()),
                _ => false,
            },
        }
    }
}

// ---------------------------------------------------------------------------------------
// Parsing
// ---------------------------------------------------------------------------------------
/// What parsing gives: a filter, or a message.
pub enum Parsed<A> {
    Accepted(A),
    Rejected(Seq<char>),
}

/// The range operator that an operator word names.
pub open spec fn range_word(word: Seq<char>) -> Option<RangeOp> {
    if word == "$gt"@ {
        Some(RangeOp::Gt)
    } else if word == "$gte"@ {
        Some(RangeOp::Gte)
    } else if word == "$lt"@ {
        Some(RangeOp::Lt)
    } else if word == "$lte"@ {
        Some(RangeOp::Lte)
    } else {
        None
    }
}

/// The range operator that a time operator word names.
pub open spec fn time_word(word: Seq<char>) -> Option<RangeOp> {
    if word == "$before"@ {
        Some(RangeOp::Lt)
    } else if word == "$beforeEq"@ {
        Some(RangeOp::Lte)
    } else if word == "$after"@ {
        Some(RangeOp::Gt)
    } else if word == "$afterEq"@ {
        Some(RangeOp::Gte)
    } else {
        None
    }
}

/// The value that a range operator compares with. A number is taken in double precision.
pub open spec fn parsed_comparable(value: Json, operator: Seq<char>) -> Parsed<ComparableView> {
    match value {
        Json::Number(JsonNumber::PosInt(integer)) => Parsed::Accepted(
            ComparableView::Number(crate::json::integer_as_f64(integer as int)),
        ),
        Json::Number(JsonNumber::NegInt(integer)) => Parsed::Accepted(
            ComparableView::Number(crate::json::integer_as_f64(integer as int)),
        ),
        Json::Number(JsonNumber::Float(number)) => Parsed::Accepted(
            ComparableView::Number(number.spec_bits()),
        ),
        Json::String(text) => Parsed::Accepted(ComparableView::String(text@)),
        _ => Parsed::Rejected(operator + " 需要数字或字符串"@),
    }
}

/// The condition that a range operator puts on a field: a plain one for a number.
pub open spec fn range_condition(
    field: Seq<char>,
    op: RangeOp,
    bound: ComparableView,
) -> FilterView {
    match (bound, op) {
        (ComparableView::Number(bits), RangeOp::Gt) => FilterView::Gt(field, bits),
        (ComparableView::Number(bits), RangeOp::Gte) => FilterView::Gte(field, bits),
        (ComparableView::Number(bits), RangeOp::Lt) => FilterView::Lt(field, bits),
        (ComparableView::Number(bits), RangeOp::Lte) => FilterView::Lte(field, bits),
        (ComparableView::String(_), _) => FilterView::Range(field, op, bound),
    }
}

/// A time comparison whose operand was read as `instant`.
pub open spec fn parsed_time(
    field: Seq<char>,
    operator: Seq<char>,
    op: RangeOp,
    input: Seq<char>,
    instant: Option<i64>,
) -> Parsed<FilterView> {
    match instant {
        Some(nanos) => Parsed::Accepted(FilterView::TimeRange(field, op, nanos)),
        None => Parsed::Rejected(operator + " 包含无效 RFC3339 时间: "@ + input),
    }
}

/// The condition that one operator puts on a field.
pub open spec fn parsed_operator(
    field: Seq<char>,
    word: Seq<char>,
    value: Json,
) -> Parsed<FilterView> {
    if word == "$eq"@ {
        Parsed::Accepted(FilterView::Eq(field, value@))
    } else if word == "$ne"@ {
        Parsed::Accepted(FilterView::Ne(field, value@))
    } else if range_word(word) is Some {
        match parsed_comparable(value, word) {
            Parsed::Accepted(bound) => Parsed::Accepted(
                range_condition(field, range_word(word)->0, bound),
            ),
            Parsed::Rejected(message) => Parsed::Rejected(message),
        }
    } else if time_word(word) is Some {
        match value {
            Json::String(text) => parsed_time(
                field,
                word,
                time_word(word)->0,
                text@,
                rfc3339_nanos(text@),
            ),
            _ => Parsed::Rejected(word + " 需要 RFC3339 字符串"@),
        }
    } else if word == "$in"@ {
        match value {
            Json::Array(items) => Parsed::Accepted(FilterView::In(field, json_views(items@))),
            _ => Parsed::Rejected("$in 需要数组"@),
        }
    } else if word == "$nin"@ {
        match value {
            Json::Array(items) => Parsed::Accepted(FilterView::Nin(field, json_views(items@))),
            _ => Parsed::Rejected("$nin 需要数组"@),
        }
    } else if word == "$exists"@ {
        match value {
            Json::Bool(wanted) => Parsed::Accepted(FilterView::Exists(field, wanted)),
            _ => Parsed::Rejected("$exists 需要布尔值"@),
        }
    } else if word == "$size"@ {
        match value {
            Json::Number(JsonNumber::PosInt(size)) => Parsed::Accepted(
                FilterView::Size(field, size as usize),
            ),
            _ => Parsed::Rejected("$size 需要正整数"@),
        }
    } else if word == "$all"@ {
        match value {
            Json::Array(items) => Parsed::Accepted(FilterView::All(field, json_views(items@))),
            _ => Parsed::Rejected("$all 需要数组"@),
        }
    } else if word == "$type"@ {
        match value {
            Json::String(text) => Parsed::Accepted(FilterView::TypeMatch(field, text@)),
            _ => Parsed::Rejected("$type 需要字符串"@),
        }
    } else if word == "$startsWith"@ {
        match value {
            Json::String(text) => Parsed::Accepted(FilterView::StartsWith(field, text@)),
            _ => Parsed::Rejected("$startsWith 需要字符串"@),
        }
    } else if word == "$contains"@ {
        match value {
            Json::String(text) => Parsed::Accepted(FilterView::Contains(field, text@)),
            _ => Parsed::Rejected("$contains 需要字符串"@),
        }
    } else {
        Parsed::Rejected("未知操作符: "@ + word)
    }
}

/// The conditions that the first `count` operators put on a field, in order; the first message
/// where one of them is not accepted.
pub open spec fn parsed_operators(
    field: Seq<char>,
    members: Seq<Member>,
    count: nat,
) -> Parsed<Seq<FilterView>>
    decreases count,
{
    if count == 0 {
        Parsed::Accepted(Seq::empty())
    } else {
        match parsed_operators(field, members, (count - 1) as nat) {
            Parsed::Rejected(message) => Parsed::Rejected(message),
            Parsed::Accepted(before) => match parsed_operator(
                field,
                members[count - 1].name@,
                members[count - 1].value,
            ) {
                Parsed::Rejected(message) => Parsed::Rejected(message),
                Parsed::Accepted(filter) => Parsed::Accepted(before.push(filter)),
            },
        }
    }
}

/// The filters of the first `count` items of a list.
pub open spec fn parsed_items(value: Json, count: nat) -> Parsed<Seq<FilterView>>
    decreases value, count,
{
    if count == 0 || !(value matches Json::Array(items) && count <= items@.len()) {
        Parsed::Accepted(Seq::empty())
    } else {
        match parsed_items(value, (count - 1) as nat) {
            Parsed::Rejected(message) => Parsed::Rejected(message),
            Parsed::Accepted(before) => match parsed_filter(value->Array_0@[count - 1]) {
                Parsed::Rejected(message) => Parsed::Rejected(message),
                Parsed::Accepted(filter) => Parsed::Accepted(before.push(filter)),
            },
        }
    }
}

/// The filters of a list.
pub open spec fn parsed_list(value: Json, not_a_list: Seq<char>) -> Parsed<Seq<FilterView>>
    decreases value, value->Array_0@.len() + 1,
{
    match value {
        Json::Array(items) => parsed_items(value, items@.len()),
        _ => Parsed::Rejected(not_a_list),
    }
}

/// The conditions of the first `count` members of an object, in order.
pub open spec fn parsed_members(value: Json, count: nat) -> Parsed<Seq<FilterView>>
    decreases value, count,
{
    if count == 0 || !(value matches Json::Object(members) && count <= members@.len()) {
        Parsed::Accepted(Seq::empty())
    } else {
        let member = value->Object_0@[count - 1];
        match parsed_members(value, (count - 1) as nat) {
            Parsed::Rejected(message) => Parsed::Rejected(message),
            Parsed::Accepted(before) => if member.name@ == "$and"@ {
                match parsed_list(member.value, "$and 必须是数组"@) {
                    Parsed::Rejected(message) => Parsed::Rejected(message),
                    Parsed::Accepted(filters) => Parsed::Accepted(
                        before.push(FilterView::And(filters)),
                    ),
                }
            } else if member.name@ == "$or"@ {
                match parsed_list(member.value, "$or 必须是数组"@) {
                    Parsed::Rejected(message) => Parsed::Rejected(message),
                    Parsed::Accepted(filters) => Parsed::Accepted(
                        before.push(FilterView::Or(filters)),
                    ),
                }
            } else {
                match member.value {
                    Json::Object(operators) => match parsed_operators(
                        member.name@,
                        operators@,
                        operators@.len(),
                    ) {
                        Parsed::Rejected(message) => Parsed::Rejected(message),
                        Parsed::Accepted(filters) => Parsed::Accepted(before + filters),
                    },
                    _ => Parsed::Accepted(
                        before.push(FilterView::Eq(member.name@, member.value@)),
                    ),
                }
            },
        }
    }
}

/// The filter that a JSON value writes down. An object stands for the conjunction of its
/// conditions, and for the condition itself where it has only one; a field with a plain value
/// stands for equality.
pub open spec fn parsed_filter(value: Json) -> Parsed<FilterView>
    decreases value, value->Object_0@.len() + 1,
{
    match value {
        Json::Object(members) => match parsed_members(value, members@.len()) {
            Parsed::Rejected(message) => Parsed::Rejected(message),
            Parsed::Accepted(filters) => if filters.len() == 0 {
                Parsed::Rejected("过滤条件不能为空"@)
            } else if filters.len() == 1 {
                Parsed::Accepted(filters[0])
            } else {
                Parsed::Accepted(FilterView::And(filters))
            },
        },
        _ => Parsed::Rejected("过滤条件必须是 JSON 对象"@),
    }
}

/// An object stands for the conjunction of what its members say: the filter that it is read as
/// holds of a payload exactly where each of their conditions does.
pub proof fn law_members_are_joined(value: Json, filters: Seq<FilterView>, payload: JsonView)
    requires
        value is Object,
        parsed_members(value, value->Object_0@.len()) == Parsed::Accepted(filters),
    ensures
        match parsed_filter(value) {
            Parsed::Accepted(filter) => filters.len() > 0 && (holds(filter, payload)
                <==> forall|i: int| 0 <= i < filters.len() ==> holds(#[trigger] filters[i], payload)),
            Parsed::Rejected(message) => filters.len() == 0 && message == "过滤条件不能为空"@,
        },
{
    if filters.len() > 1 {
        law_and_or(filters, payload);
    } else if filters.len() == 1 {
        assert forall|i: int| 0 <= i < filters.len() && holds(filters[0], payload) implies holds(
            #[trigger] filters[i],
            payload,
        ) by {}
        assert(filters[0] == filters[0 as int]);
    }
}

/// Whether `parts` are the members of an object, each as an object of its own.
pub open spec fn are_members_alone(value: Json, parts: Seq<Json>) -> bool {
    &&& value is Object
    &&& parts.len() == value->Object_0@.len()
    &&& forall|i: int|
        0 <= i < parts.len() ==> (#[trigger] parts[i]) is Object && parts[i]->Object_0@
            == seq![value->Object_0@[i]]
}

/// The members of an object may be read one by one: where each is accepted as an object of its own,
/// the object is, and its filter holds of a payload exactly where the filters of all members do.
pub proof fn law_members_may_stand_alone(value: Json, parts: Seq<Json>, payload: JsonView)
    requires
        are_members_alone(value, parts),
        parts.len() > 0,
        forall|i: int| 0 <= i < parts.len() ==> parsed_filter(#[trigger] parts[i]) is Accepted,
    ensures
        parsed_filter(value) matches Parsed::Accepted(filter) && (holds(filter, payload)
            <==> forall|i: int|
            0 <= i < parts.len() ==> holds(
                parsed_filter(#[trigger] parts[i])->Accepted_0,
                payload,
            )),
{
    lemma_members_alone(value, parts, payload, parts.len());
    let filters = parsed_members(value, parts.len())->Accepted_0;
    law_members_are_joined(value, filters, payload);
}

/// Whether all of some filters hold.
spec fn all_hold(filters: Seq<FilterView>, payload: JsonView) -> bool {
    forall|i: int| 0 <= i < filters.len() ==> holds(#[trigger] filters[i], payload)
}

/// All of two lists hold where all of each do.
proof fn lemma_all_hold(a: Seq<FilterView>, b: Seq<FilterView>, payload: JsonView)
    ensures
        all_hold(a + b, payload) <==> all_hold(a, payload) && all_hold(b, payload),
{
    if all_hold(a + b, payload) {
        assert forall|i: int| 0 <= i < a.len() implies holds(#[trigger] a[i], payload) by {
            assert((a + b)[i] == a[i]);
        }
        assert forall|i: int| 0 <= i < b.len() implies holds(#[trigger] b[i], payload) by {
            assert((a + b)[a.len() + i] == b[i]);
        }
    }
    if all_hold(a, payload) && all_hold(b, payload) {
        assert forall|i: int| 0 <= i < (a + b).len() implies holds(
            #[trigger] (a + b)[i],
            payload,
        ) by {
            if i < a.len() {
                assert((a + b)[i] == a[i]);
            } else {
                assert((a + b)[i] == b[i - a.len()]);
            }
        }
    }
}

/// What the first members say together is what each says alone.
proof fn lemma_members_alone(value: Json, parts: Seq<Json>, payload: JsonView, count: nat)
    requires
        are_members_alone(value, parts),
        count <= parts.len(),
        forall|i: int| 0 <= i < parts.len() ==> parsed_filter(#[trigger] parts[i]) is Accepted,
    ensures
        parsed_members(value, count) matches Parsed::Accepted(filters) && (count > 0
            ==> filters.len() > 0) && (all_hold(filters, payload) <==> forall|i: int|
            0 <= i < count ==> holds(parsed_filter(#[trigger] parts[i])->Accepted_0, payload)),
    decreases count,
{
    if count > 0 {
        let last = count - 1;
        lemma_members_alone(value, parts, payload, last as nat);
        let part = parts[last];
        assert(parsed_filter(part) is Accepted);
        let before = parsed_members(value, last as nat)->Accepted_0;
        let own = parsed_members(part, 1)->Accepted_0;
        assert(part->Object_0@[0] == value->Object_0@[last]);
        assert(parsed_members(part, 0) == Parsed::Accepted(Seq::<FilterView>::empty()));
        assert(parsed_members(part, 1) == Parsed::Accepted(own));
        let all = parsed_members(value, count);
        assert(all is Accepted && all->Accepted_0 =~= before + own);
        lemma_all_hold(before, own, payload);
        law_members_are_joined(part, own, payload);
        assert(all_hold(own, payload) <==> holds(parsed_filter(part)->Accepted_0, payload));
        if forall|i: int|
            0 <= i < count ==> holds(parsed_filter(#[trigger] parts[i])->Accepted_0, payload) {
            assert(holds(parsed_filter(parts[last])->Accepted_0, payload));
        }
    }
}

/// Several operators on one field may be read one by one: the conditions that they put on it
/// together are those that each puts on it alone, in order.
pub proof fn law_operators_may_stand_alone(
    field: Seq<char>,
    members: Seq<Member>,
    filters: Seq<FilterView>,
)
    requires
        parsed_operators(field, members, members.len()) == Parsed::Accepted(filters),
    ensures
        filters.len() == members.len(),
        forall|i: int|
            0 <= i < members.len() ==> parsed_operator(
                field,
                (#[trigger] members[i]).name@,
                members[i].value,
            ) == Parsed::Accepted(filters[i]),
{
    lemma_operators_alone(field, members, filters, members.len());
}

/// The first operators of a field.
proof fn lemma_operators_alone(
    field: Seq<char>,
    members: Seq<Member>,
    filters: Seq<FilterView>,
    count: nat,
)
    requires
        count <= members.len(),
        parsed_operators(field, members, count) == Parsed::Accepted(filters),
    ensures
        filters.len() == count,
        forall|i: int|
            0 <= i < count ==> parsed_operator(
                field,
                (#[trigger] members[i]).name@,
                members[i].value,
            ) == Parsed::Accepted(filters[i]),
    decreases count,
{
    if count > 0 {
        let before = parsed_operators(field, members, (count - 1) as nat)->Accepted_0;
        lemma_operators_alone(field, members, before, (count - 1) as nat);
        assert(filters.drop_last() =~= before);
        assert forall|i: int| 0 <= i < count implies parsed_operator(
            field,
            (#[trigger] members[i]).name@,
            members[i].value,
        ) == Parsed::Accepted(filters[i]) by {
            if i < count - 1 {
                assert(filters[i] == before[i]);
            }
        }
    }
}

/// Whether an executable result agrees with what parsing gives.
pub open spec fn agrees(result: core::result::Result<Filter, String>, parsed: Parsed<FilterView>) -> bool {
    match (result, parsed) {
        (Ok(filter), Parsed::Accepted(view)) => filter@ == view,
        (Err(message), Parsed::Rejected(text)) => message@ == text,
        _ => false,
    }
}

/// Whether an executable list agrees with what parsing gives.
pub open spec fn agrees_list(
    result: core::result::Result<Vec<Filter>, String>,
    parsed: Parsed<Seq<FilterView>>,
) -> bool {
    match (result, parsed) {
        (Ok(filters), Parsed::Accepted(views)) => filter_views(filters@) == views,
        (Err(message), Parsed::Rejected(text)) => message@ == text,
        _ => false,
    }
}

/// The range operator that an operator word names.
fn read_range_word(word: &str) -> (result: Option<RangeOp>)
    ensures
        result == range_word(word@),
{
    if same_text(word, "$gt") {
        Some(RangeOp::Gt)
    } else if same_text(word, "$gte") {
        Some(RangeOp::Gte)
    } else if same_text(word, "$lt") {
        Some(RangeOp::Lt)
    } else if same_text(word, "$lte") {
        Some(RangeOp::Lte)
    } else {
        None
    }
}

/// The range operator that a time operator word names.
fn read_time_word(word: &str) -> (result: Option<RangeOp>)
    ensures
        result == time_word(word@),
{
    if same_text(word, "$before") {
        Some(RangeOp::Lt)
    } else if same_text(word, "$beforeEq") {
        Some(RangeOp::Lte)
    } else if same_text(word, "$after") {
        Some(RangeOp::Gt)
    } else if same_text(word, "$afterEq") {
        Some(RangeOp::Gte)
    } else {
        None
    }
}

/// The value that a range operator compares with.
fn parse_comparable(value: &Json, operator: &str) -> (result: core::result::Result<
    ComparableValue,
    String,
>)
    ensures
        match (result, parsed_comparable(*value, operator@)) {
            (Ok(bound), Parsed::Accepted(view)) => bound@ == view,
            (Err(message), Parsed::Rejected(text)) => message@ == text,
            _ => false,
        },
{
    match value {
        Json::Number(number) => Ok(ComparableValue::Number(number.as_f64())),
        Json::String(text) => Ok(ComparableValue::String(text.clone())),
        _ => Err(join(operator, " 需要数字或字符串")),
    }
}

/// A time comparison whose operand was read as `instant`.
pub fn time_condition(
    field: &str,
    operator: &str,
    op: RangeOp,
    input: &str,
    instant: Option<i64>,
) -> (result: core::result::Result<Filter, String>)
    ensures
        agrees(result, parsed_time(field@, operator@, op, input@, instant)),
{
    match instant {
        Some(nanos) => Ok(Filter::TimeRange(field.to_owned(), op, nanos)),
        None => Err(
            join(join(operator, " 包含无效 RFC3339 时间: ").as_str(), input),
        ),
    }
}

/// Copies of the values of a list.
fn duplicate_items(items: &Vec<Json>) -> (result: Vec<Json>)
    ensures
        json_views(result@) == json_views(items@),
{
    let mut result: Vec<Json> = Vec::new();
    let mut i: usize = 0;
    while i < items.len()
        invariant
            i <= items@.len(),
            result@.len() == i,
            forall|j: int| 0 <= j < i ==> (#[trigger] result@[j])@ == items@[j]@,
        decreases items@.len() - i,
    {
        result.push(items[i].duplicate());
        i += 1;
    }
    assert(json_views(result@) =~= json_views(items@));
    result
}

/// A list as the argument of an operator, or the message where the value is no list.
fn list_argument(value: &Json, message: &str) -> (result: core::result::Result<Vec<Json>, String>)
    ensures
        match result {
            Ok(items) => value matches Json::Array(given) && json_views(items@) == json_views(
                given@,
            ),
            Err(text) => !(*value is Array) && text@ == message@,
        },
{
    match value {
        Json::Array(items) => {
            assert(value->Array_0 == *items);
            Ok(duplicate_items(items))
        },
        _ => Err(message.to_owned()),
    }
}

/// Text as the argument of an operator, or the message where the value is no text.
fn text_argument(value: &Json, message: &str) -> (result: core::result::Result<String, String>)
    ensures
        match result {
            Ok(text) => value matches Json::String(given) && text@ == given@,
            Err(text) => !(*value is String) && text@ == message@,
        },
{
    match value {
        Json::String(text) => Ok(text.clone()),
        _ => Err(message.to_owned()),
    }
}

/// The condition that one operator puts on a field.
fn parse_operator(field: &str, word: &str, value: &Json) -> (result: core::result::Result<
    Filter,
    String,
>)
    ensures
        agrees(result, parsed_operator(field@, word@, *value)),
{
    if same_text(word, "$eq") {
        return Ok(Filter::Eq(field.to_owned(), value.duplicate()));
    }
    if same_text(word, "$ne") {
        return Ok(Filter::Ne(field.to_owned(), value.duplicate()));
    }
    match read_range_word(word) {
        Some(op) => {
            return match parse_comparable(value, word) {
                Ok(bound) => Ok(
                    match (bound, op) {
                        (ComparableValue::Number(bits), RangeOp::Gt) => Filter::Gt(
                            field.to_owned(),
                            bits,
                        ),
                        (ComparableValue::Number(bits), RangeOp::Gte) => Filter::Gte(
                            field.to_owned(),
                            bits,
                        ),
                        (ComparableValue::Number(bits), RangeOp::Lt) => Filter::Lt(
                            field.to_owned(),
                            bits,
                        ),
                        (ComparableValue::Number(bits), RangeOp::Lte) => Filter::Lte(
                            field.to_owned(),
                            bits,
                        ),
                        (ComparableValue::String(text), _) => Filter::Range(
                            field.to_owned(),
                            op,
                            ComparableValue::String(text),
                        ),
                    },
                ),
                Err(message) => Err(message),
            };
        },
        None => {},
    }
    match read_time_word(word) {
        Some(op) => {
            return match value {
                Json::String(text) => time_condition(
                    field,
                    word,
                    op,
                    text.as_str(),
                    parse_rfc3339_nanos(text.as_str()),
                ),
                _ => Err(join(word, " 需要 RFC3339 字符串")),
            };
        },
        None => {},
    }
    if same_text(word, "$in") {
        match list_argument(value, "$in 需要数组") {
            Ok(items) => Ok(Filter::In(field.to_owned(), items)),
            Err(message) => Err(message),
        }
    } else if same_text(word, "$nin") {
        match list_argument(value, "$nin 需要数组") {
            Ok(items) => Ok(Filter::Nin(field.to_owned(), items)),
            Err(message) => Err(message),
        }
    } else if same_text(word, "$exists") {
        match value {
            Json::Bool(wanted) => Ok(Filter::Exists(field.to_owned(), *wanted)),
            _ => Err("$exists 需要布尔值".to_owned()),
        }
    } else if same_text(word, "$size") {
        match value {
            Json::Number(JsonNumber::PosInt(size)) => Ok(
                Filter::Size(field.to_owned(), #[verifier::truncate] (*size as usize)),
            ),
            _ => Err("$size 需要正整数".to_owned()),
        }
    } else if same_text(word, "$all") {
        match list_argument(value, "$all 需要数组") {
            Ok(items) => Ok(Filter::All(field.to_owned(), items)),
            Err(message) => Err(message),
        }
    } else if same_text(word, "$type") {
        match text_argument(value, "$type 需要字符串") {
            Ok(text) => Ok(Filter::TypeMatch(field.to_owned(), text)),
            Err(message) => Err(message),
        }
    } else if same_text(word, "$startsWith") {
        match text_argument(value, "$startsWith 需要字符串") {
            Ok(text) => Ok(Filter::StartsWith(field.to_owned(), text)),
            Err(message) => Err(message),
        }
    } else if same_text(word, "$contains") {
        match text_argument(value, "$contains 需要字符串") {
            Ok(text) => Ok(Filter::Contains(field.to_owned(), text)),
            Err(message) => Err(message),
        }
    } else {
        Err(join("未知操作符: ", word))
    }
}

/// The conditions that operators put on a field.
fn parse_operators(field: &str, members: &Vec<Member>) -> (result: core::result::Result<
    Vec<Filter>,
    String,
>)
    ensures
        agrees_list(result, parsed_operators(field@, members@, members@.len())),
{
    let mut filters: Vec<Filter> = Vec::new();
    assert(filter_views(filters@) =~= Seq::<FilterView>::empty());
    let mut i: usize = 0;
    while i < members.len()
        invariant
            i <= members@.len(),
            parsed_operators(field@, members@, i as nat) == Parsed::Accepted(
                filter_views(filters@),
            ),
        decreases members@.len() - i,
    {
        let ghost before = filters@;
        match parse_operator(field, members[i].name.as_str(), &members[i].value) {
            Ok(filter) => {
                filters.push(filter);
                assert(filter_views(filters@) =~= filter_views(before).push(filter@));
            },
            Err(message) => {
                proof {
                    lemma_operators_stop(
                        field@,
                        members@,
                        (i + 1) as nat,
                        members@.len(),
                        message@,
                    );
                }
                return Err(message);
            },
        }
        i += 1;
    }
    Ok(filters)
}

/// The first message ends the reading of operators.
proof fn lemma_operators_stop(
    field: Seq<char>,
    members: Seq<Member>,
    few: nat,
    many: nat,
    message: Seq<char>,
)
    requires
        few <= many,
        parsed_operators(field, members, few) == Parsed::<Seq<FilterView>>::Rejected(message),
    ensures
        parsed_operators(field, members, many) == Parsed::<Seq<FilterView>>::Rejected(message),
    decreases many,
{
    if few < many {
        lemma_operators_stop(field, members, few, (many - 1) as nat, message);
    }
}

/// The first message ends the reading of a list.
proof fn lemma_items_stop(value: Json, few: nat, many: nat, message: Seq<char>)
    requires
        value is Array,
        few <= many <= value->Array_0@.len(),
        parsed_items(value, few) == Parsed::<Seq<FilterView>>::Rejected(message),
    ensures
        parsed_items(value, many) == Parsed::<Seq<FilterView>>::Rejected(message),
    decreases many,
{
    if few < many {
        lemma_items_stop(value, few, (many - 1) as nat, message);
    }
}

/// The first message ends the reading of an object.
proof fn lemma_members_stop(value: Json, few: nat, many: nat, message: Seq<char>)
    requires
        value is Object,
        few <= many <= value->Object_0@.len(),
        parsed_members(value, few) == Parsed::<Seq<FilterView>>::Rejected(message),
    ensures
        parsed_members(value, many) == Parsed::<Seq<FilterView>>::Rejected(message),
    decreases many,
{
    if few < many {
        lemma_members_stop(value, few, (many - 1) as nat, message);
    }
}

impl Filter {
    /// The filters of a list.
    fn list_from_json(value: &Json, not_a_list: &str) -> (result: core::result::Result<
        Vec<Filter>,
        String,
    >)
        ensures
            agrees_list(result, parsed_list(*value, not_a_list@)),
        decreases *value, 1int,
    {
        match value {
            Json::Array(items) => {
                let mut filters: Vec<Filter> = Vec::new();
                assert(filter_views(filters@) =~= Seq::<FilterView>::empty());
                let mut i: usize = 0;
                while i < items.len()
                    invariant
                        i <= items@.len(),
                        *value == Json::Array(*items),
                        parsed_items(*value, i as nat) == Parsed::Accepted(filter_views(filters@)),
                    decreases items@.len() - i,
                {
                    let ghost before = filters@;
                    assert(value->Array_0 == *items);
                    assert(decreases_to!(*value => items@));
                    assert(decreases_to!(items@ => items@[i as int]));
                    match Filter::from_json(&items[i]) {
                        Ok(filter) => {
                            filters.push(filter);
                            assert(filter_views(filters@) =~= filter_views(before).push(filter@));
                        },
                        Err(message) => {
                            proof {
                                lemma_items_stop(
                                    *value,
                                    (i + 1) as nat,
                                    items@.len(),
                                    message@,
                                );
                            }
                            return Err(message);
                        },
                    }
                    i += 1;
                }
                Ok(filters)
            },
            _ => Err(not_a_list.to_owned()),
        }
    }

    /// Parses a filter.
    pub fn from_json(val: &Json) -> (result: core::result::Result<Filter, String>)
        ensures
            agrees(result, parsed_filter(*val)),
        decreases *val, 0int,
    {
        match val {
            Json::Object(object) => {
                let members = object.members();
                let mut filters: Vec<Filter> = Vec::new();
                assert(filter_views(filters@) =~= Seq::<FilterView>::empty());
                let mut i: usize = 0;
                while i < members.len()
                    invariant
                        i <= members@.len(),
                        *val == Json::Object(*object),
                        members@ == object@,
                        parsed_members(*val, i as nat) == Parsed::Accepted(filter_views(filters@)),
                    decreases members@.len() - i,
                {
                    let ghost before = filters@;
                    let member = &members[i];
                    assert(val->Object_0 == *object);
                    assert(decreases_to!(*val => *object));
                    assert(decreases_to!(*object => object@));
                    assert(decreases_to!(members@ => *member));
                    let parsed: core::result::Result<Vec<Filter>, String> = if same_text(
                        member.name.as_str(),
                        "$and",
                    ) {
                        match Filter::list_from_json(&member.value, "$and 必须是数组") {
                            Ok(list) => {
                                let both = Filter::And(list);
                                proof {
                                    lemma_filter_view(both);
                                    assert(both->And_0 == list);
                                }
                                let mut one: Vec<Filter> = Vec::new();
                                one.push(both);
                                Ok(one)
                            },
                            Err(message) => Err(message),
                        }
                    } else if same_text(member.name.as_str(), "$or") {
                        match Filter::list_from_json(&member.value, "$or 必须是数组") {
                            Ok(list) => {
                                let either = Filter::Or(list);
                                proof {
                                    lemma_filter_view(either);
                                    assert(either->Or_0 == list);
                                }
                                let mut one: Vec<Filter> = Vec::new();
                                one.push(either);
                                Ok(one)
                            },
                            Err(message) => Err(message),
                        }
                    } else {
                        match &member.value {
                            Json::Object(operators) => {
                                assert(member.value->Object_0 == *operators);
                                parse_operators(member.name.as_str(), operators.members())
                            },
                            _ => {
                                let mut one: Vec<Filter> = Vec::new();
                                one.push(Filter::Eq(member.name.clone(), member.value.duplicate()));
                                Ok(one)
                            },
                        }
                    };
                    match parsed {
                        Ok(mut more) => {
                            let ghost added = more@;
                            filters.append(&mut more);
                            proof {
                                assert(filter_views(filters@) =~= filter_views(before)
                                    + filter_views(added));
                                if added.len() == 1 {
                                    assert(filter_views(filters@) =~= filter_views(before).push(
                                        added[0]@,
                                    ));
                                }
                            }
                        },
                        Err(message) => {
                            proof {
                                lemma_members_stop(
                                    *val,
                                    (i + 1) as nat,
                                    members@.len(),
                                    message@,
                                );
                            }
                            return Err(message);
                        },
                    }
                    i += 1;
                }
                let ghost found = filters@;
                if filters.len() == 0 {
                    return Err("过滤条件不能为空".to_owned());
                }
                if filters.len() == 1 {
                    let only = filters.pop().unwrap();
                    assert(only@ == filter_views(found)[0]);
                    return Ok(only);
                }
                let all = Filter::And(filters);
                proof {
                    lemma_filter_view(all);
                    assert(all->And_0 == filters);
                }
                Ok(all)
            },
            _ => Err("过滤条件必须是 JSON 对象".to_owned()),
        }
    }
}

// ---------------------------------------------------------------------------------------
// Tags
// ---------------------------------------------------------------------------------------
/// The fields whose values every matching payload must have: those that the filter, or a part
/// of a conjunction, compares for equality.
pub open spec fn required(filter: FilterView) -> Seq<MemberView>
    decreases filter, filter->And_0.len() + 1,
{
    match filter {
        FilterView::Eq(key, value) => seq![MemberView { name: key, value }],
        FilterView::And(filters) => required_by(filter, filters.len()),
        _ => Seq::empty(),
    }
}

/// The fields that the first `count` parts of a conjunction require.
pub open spec fn required_by(filter: FilterView, count: nat) -> Seq<MemberView>
    decreases filter, count,
{
    if count == 0 || !(filter matches FilterView::And(filters) && count <= filters.len()) {
        Seq::empty()
    } else {
        required_by(filter, (count - 1) as nat) + required(filter->And_0[count - 1])
    }
}

/// A bit mask with one bit for each hash: the bit that the hash names modulo 64.
pub open spec fn mask_of(hashes: Seq<u64>) -> u64
    decreases hashes.len(),
{
    if hashes.len() == 0 {
        0
    } else {
        mask_of(hashes.drop_last()) | (1u64 << (hashes.last() % 64))
    }
}

/// The mask of a list of hashes.
pub fn combine_mask(hashes: &Vec<u64>) -> (mask: u64)
    ensures
        mask == mask_of(hashes@),
{
    let mut mask: u64 = 0;
    let mut i: usize = 0;
    while i < hashes.len()
        invariant
            i <= hashes@.len(),
            mask == mask_of(hashes@.subrange(0, i as int)),
        decreases hashes@.len() - i,
    {
        mask = mask | (1u64 << (hashes[i] % 64));
        proof {
            let longer = hashes@.subrange(0, i + 1);
            assert(longer.drop_last() =~= hashes@.subrange(0, i as int));
            assert(longer.last() == hashes@[i as int]);
        }
        i += 1;
    }
    assert(hashes@.subrange(0, i as int) =~= hashes@);
    mask
}

impl Filter {
    /// The fields that every matching payload must have, with their values. The tag mask of the
    /// filter is the mask of their hashes.
    pub fn must_have_pairs(&self) -> (pairs: Vec<Member>)
        ensures
            member_views(pairs@) == required(self@),
        decreases *self,
    {
        proof {
            lemma_filter_view(*self);
        }
        let mut pairs: Vec<Member> = Vec::new();
        assert(member_views(pairs@) =~= Seq::<MemberView>::empty());
        match self {
            Filter::Eq(key, value) => {
                pairs.push(Member { name: key.clone(), value: value.duplicate() });
                assert(member_views(pairs@) =~= required(self@));
            },
            Filter::And(filters) => {
                let mut i: usize = 0;
                while i < filters.len()
                    invariant
                        i <= filters@.len(),
                        *self == Filter::And(*filters),
                        self@ == FilterView::And(filter_views(filters@)),
                        member_views(pairs@) == required_by(self@, i as nat),
                    decreases filters@.len() - i,
                {
                    let ghost before = pairs@;
                    assert(self->And_0 == *filters);
                    assert(self@->And_0 == filter_views(filters@));
                    assert(decreases_to!(*self => filters@));
                    assert(decreases_to!(filters@ => filters@[i as int]));
                    let mut more = filters[i].must_have_pairs();
                    let ghost added = more@;
                    pairs.append(&mut more);
                    proof {
                        assert(member_views(pairs@) =~= member_views(before) + member_views(added));
                        assert(filter_views(filters@)[i as int] == filters@[i as int]@);
                    }
                    i += 1;
                }
                assert(self@->And_0 == filter_views(filters@));
            },
            _ => {},
        }
        pairs
    }

    /// The mask of tags that every matching payload must have: of the hashes that `tag_hash` gives
    /// the required pairs.
    pub fn extract_must_have_mask<H: Fn(&Member) -> u64>(&self, tag_hash: &H) -> (mask: u64)
        requires
            forall|pair: &Member| call_requires(*tag_hash, (pair,)),
        ensures
            exists|pairs: Seq<Member>, hashes: Seq<u64>|
                {
                    &&& member_views(pairs) == required(self@)
                    &&& #[trigger] are_hashes(*tag_hash, pairs, hashes)
                    &&& mask == mask_of(hashes)
                },
            required(self@).len() == 0 ==> mask == 0,
    {
        let pairs = self.must_have_pairs();
        let mut hashes: Vec<u64> = Vec::new();
        let mut i: usize = 0;
        while i < pairs.len()
            invariant
                i <= pairs@.len(),
                forall|pair: &Member| call_requires(*tag_hash, (pair,)),
                hashes@.len() == i,
                forall|k: int|
                    0 <= k < i ==> call_ensures(
                        *tag_hash,
                        (&pairs@[k],),
                        #[trigger] hashes@[k],
                    ),
            decreases pairs@.len() - i,
        {
            let hash: u64 = tag_hash(&pairs[i]);
            hashes.push(hash);
            i += 1;
        }
        proof {
            assert(are_hashes(*tag_hash, pairs@, hashes@));
            assert(member_views(pairs@).len() == pairs@.len());
        }
        combine_mask(&hashes)
    }
}

/// Whether these are the hashes that `tag_hash` gives pairs of a name and a value.
pub open spec fn are_hashes<H: Fn(&Member) -> u64>(
    tag_hash: H,
    pairs: Seq<Member>,
    hashes: Seq<u64>,
) -> bool {
    hashes.len() == pairs.len() && forall|i: int|
        0 <= i < hashes.len() ==> call_ensures(tag_hash, (&pairs[i],), #[trigger] hashes[i])
}

/// What a filter requires never costs it a match: a payload that satisfies the filter has every
/// required field with the required value.
pub proof fn law_required_fields_are_present(filter: FilterView, payload: JsonView, i: int)
    requires
        holds(filter, payload),
        0 <= i < required(filter).len(),
    ensures
        lookup(payload, required(filter)[i].name) == Some(required(filter)[i].value),
    decreases filter, filter->And_0.len() + 1,
{
    match filter {
        FilterView::And(filters) => {
            lemma_required_by_present(filter, payload, filters.len(), i);
        },
        _ => {},
    }
}

/// The same for the first parts of a conjunction.
proof fn lemma_required_by_present(filter: FilterView, payload: JsonView, count: nat, i: int)
    requires
        filter is And,
        holds(filter, payload),
        count <= filter->And_0.len(),
        0 <= i < required_by(filter, count).len(),
    ensures
        lookup(payload, required_by(filter, count)[i].name) == Some(
            required_by(filter, count)[i].value,
        ),
    decreases filter, count,
{
    if count > 0 {
        let before = required_by(filter, (count - 1) as nat);
        if i < before.len() {
            lemma_required_by_present(filter, payload, (count - 1) as nat, i);
        } else {
            law_and_or(filter->And_0, payload);
            assert(filter == FilterView::And(filter->And_0));
            assert(holds(filter->And_0[count - 1], payload));
            law_required_fields_are_present(filter->And_0[count - 1], payload, i - before.len());
        }
    }
}

/// A payload whose tags lack a bit of the mask does not match: where every required pair's hash
/// is among the hashes of a payload's tags, the payload's mask has every bit of the filter's.
pub proof fn law_mask_keeps_matches(needed: Seq<u64>, present: Seq<u64>)
    requires
        forall|i: int| 0 <= i < needed.len() ==> present.contains(#[trigger] needed[i]),
    ensures
        mask_of(needed) & !mask_of(present) == 0,
    decreases needed.len(),
{
    if needed.len() == 0 {
        let have = mask_of(present);
        assert(0u64 & !have == 0) by (bit_vector);
    } else {
        let shorter = needed.drop_last();
        assert forall|i: int| 0 <= i < shorter.len() implies present.contains(
            #[trigger] shorter[i],
        ) by {
            assert(present.contains(needed[i]));
        }
        law_mask_keeps_matches(shorter, present);
        assert(present.contains(needed[needed.len() - 1]));
        let n = choose|n: int| 0 <= n < present.len() && present[n] == needed.last();
        lemma_mask_has_bit(present, n);
        let bit = 1u64 << (needed.last() % 64);
        let few = mask_of(shorter);
        let have = mask_of(present);
        assert(few & !have == 0 && bit & !have == 0 ==> (few | bit) & !have == 0) by (bit_vector);
    }
}

/// The mask of a list has the bit of each of its hashes.
proof fn lemma_mask_has_bit(hashes: Seq<u64>, n: int)
    requires
        0 <= n < hashes.len(),
    ensures
        (1u64 << (hashes[n] % 64)) & !mask_of(hashes) == 0,
    decreases hashes.len(),
{
    let bit = 1u64 << (hashes[n] % 64);
    let last = 1u64 << (hashes.last() % 64);
    let before = mask_of(hashes.drop_last());
    if n == hashes.len() - 1 {
        assert(last & !(before | last) == 0) by (bit_vector);
    } else {
        lemma_mask_has_bit(hashes.drop_last(), n);
        assert(bit & !before == 0 ==> bit & !(before | last) == 0) by (bit_vector);
    }
}

/// Conditions and their negations: a field has a value or does not, is in a set or not, exists
/// or not; and a range comparison with a number excludes its complement.
pub proof fn law_negations(
    key: Seq<char>,
    value: JsonView,
    values: Seq<JsonView>,
    bits: u64,
    payload: JsonView,
)
    ensures
        holds(FilterView::Ne(key, value), payload) == !holds(FilterView::Eq(key, value), payload),
        holds(FilterView::Nin(key, values), payload) == !holds(
            FilterView::In(key, values),
            payload,
        ),
        holds(FilterView::Exists(key, false), payload) == !holds(
            FilterView::Exists(key, true),
            payload,
        ),
        holds(FilterView::Eq(key, value), payload) == holds(
            FilterView::In(key, seq![value]),
            payload,
        ),
        !(holds(FilterView::Gt(key, bits), payload) && holds(FilterView::Lte(key, bits), payload)),
        !(holds(FilterView::Lt(key, bits), payload) && holds(FilterView::Gte(key, bits), payload)),
        (lookup(payload, key) matches Some(JsonView::Number(_))) && !f64_nan(bits) ==> holds(
            FilterView::Gt(key, bits),
            payload,
        ) != holds(FilterView::Lte(key, bits), payload),
{
    assert(seq![value][0] == value);
    if lookup(payload, key) == Some(value) {
        assert(seq![value].contains(value));
    }
}

impl Filter {
    /// The field has this value.
    pub fn eq(key: &str, val: Json) -> (filter: Filter)
        ensures
            filter@ == FilterView::Eq(key@, val@),
    {
        Filter::Eq(key.to_owned(), val)
    }

    /// The field does not have this value.
    pub fn ne(key: &str, val: Json) -> (filter: Filter)
        ensures
            filter@ == FilterView::Ne(key@, val@),
    {
        Filter::Ne(key.to_owned(), val)
    }

    /// The field is a number greater than `val`.
    pub fn gt(key: &str, val: u64) -> (filter: Filter)
        ensures
            filter@ == FilterView::Gt(key@, val),
    {
        Filter::Gt(key.to_owned(), val)
    }

    /// The field is a number of at least `val`.
    pub fn gte(key: &str, val: u64) -> (filter: Filter)
        ensures
            filter@ == FilterView::Gte(key@, val),
    {
        Filter::Gte(key.to_owned(), val)
    }

    /// The field is a number smaller than `val`.
    pub fn lt(key: &str, val: u64) -> (filter: Filter)
        ensures
            filter@ == FilterView::Lt(key@, val),
    {
        Filter::Lt(key.to_owned(), val)
    }

    /// The field is a number of at most `val`.
    pub fn lte(key: &str, val: u64) -> (filter: Filter)
        ensures
            filter@ == FilterView::Lte(key@, val),
    {
        Filter::Lte(key.to_owned(), val)
    }

    /// The field has one of these values.
    pub fn is_in(key: &str, vals: Vec<Json>) -> (filter: Filter)
        ensures
            filter@ == FilterView::In(key@, json_views(vals@)),
    {
        Filter::In(key.to_owned(), vals)
    }

    /// All of these conditions hold.
    pub fn and(filters: Vec<Filter>) -> (filter: Filter)
        ensures
            filter@ == FilterView::And(filter_views(filters@)),
    {
        let filter = Filter::And(filters);
        proof {
            lemma_filter_view(filter);
            assert(filter->And_0 == filters);
        }
        filter
    }

    /// One of these conditions holds.
    pub fn or(filters: Vec<Filter>) -> (filter: Filter)
        ensures
            filter@ == FilterView::Or(filter_views(filters@)),
    {
        let filter = Filter::Or(filters);
        proof {
            lemma_filter_view(filter);
            assert(filter->Or_0 == filters);
        }
        filter
    }

    /// The field exists, or does not.
    pub fn field_exists(key: &str, e: bool) -> (filter: Filter)
        ensures
            filter@ == FilterView::Exists(key@, e),
    {
        Filter::Exists(key.to_owned(), e)
    }

    /// The field has none of these values.
    pub fn nin(key: &str, vals: Vec<Json>) -> (filter: Filter)
        ensures
            filter@ == FilterView::Nin(key@, json_views(vals@)),
    {
        Filter::Nin(key.to_owned(), vals)
    }

    /// The field is an array of this length.
    pub fn size(key: &str, s: usize) -> (filter: Filter)
        ensures
            filter@ == FilterView::Size(key@, s),
    {
        Filter::Size(key.to_owned(), s)
    }

    /// The field is an array that holds all of these values.
    pub fn all(key: &str, vals: Vec<Json>) -> (filter: Filter)
        ensures
            filter@ == FilterView::All(key@, json_views(vals@)),
    {
        Filter::All(key.to_owned(), vals)
    }

    /// The field has this JSON type.
    pub fn type_match(key: &str, t: &str) -> (filter: Filter)
        ensures
            filter@ == FilterView::TypeMatch(key@, t@),
    {
        Filter::TypeMatch(key.to_owned(), t.to_owned())
    }

    /// The field is text with this prefix.
    pub fn starts_with(key: &str, prefix: &str) -> (filter: Filter)
        ensures
            filter@ == FilterView::StartsWith(key@, prefix@),
    {
        Filter::StartsWith(key.to_owned(), prefix.to_owned())
    }

    /// The field is text that holds this text.
    pub fn contains(key: &str, substr: &str) -> (filter: Filter)
        ensures
            filter@ == FilterView::Contains(key@, substr@),
    {
        Filter::Contains(key.to_owned(), substr.to_owned())
    }
}

} // verus!
