//! What each operator of a written filter asks of a payload.
//!
//! Every law speaks of the object that a caller writes, such as `{"age": {"$gt": 30}}`, and of the
//! payloads that the filter read from it holds of.
use vstd::prelude::*;

use crate::filter::{
    holds, mask_of, parsed_filter, required, required_by, rfc3339_nanos, FilterView, Parsed,
};
use crate::json::{
    json_views, lemma_integer_finite, lookup, number_key, Json, JsonNumber,
    JsonView, MemberView,
};
use crate::number::f64_finite;
use crate::text::{text_before, text_holds};

verus! {

/// Whether a value is written as an object with one field, which has one operator.
pub open spec fn is_condition(
    value: Json,
    field: Seq<char>,
    word: Seq<char>,
    operand: Json,
) -> bool {
    &&& field != "$and"@ && field != "$or"@
    &&& value is Object
    &&& value->Object_0@.len() == 1
    &&& value->Object_0@[0].name@ == field
    &&& value->Object_0@[0].value is Object
    &&& value->Object_0@[0].value->Object_0@.len() == 1
    &&& value->Object_0@[0].value->Object_0@[0].name@ == word
    &&& value->Object_0@[0].value->Object_0@[0].value == operand
}

/// Whether a written filter is accepted and what is read from it holds of a payload.
pub open spec fn selects(value: Json, payload: JsonView) -> bool {
    parsed_filter(value) matches Parsed::Accepted(filter) && holds(filter, payload)
}

/// Whether a written filter is accepted.
pub open spec fn is_accepted(value: Json) -> bool {
    parsed_filter(value) is Accepted
}

/// The operator words differ in their length or in what follows the dollar sign.
proof fn lemma_operator_words()
    ensures
        "$eq"@.len() == 3 && "$eq"@[1] == 'e',
        "$ne"@.len() == 3 && "$ne"@[1] == 'n',
        "$gt"@.len() == 3 && "$gt"@[1] == 'g',
        "$lt"@.len() == 3 && "$lt"@[1] == 'l',
        "$in"@.len() == 3 && "$in"@[1] == 'i',
        "$gte"@.len() == 4 && "$gte"@[1] == 'g',
        "$lte"@.len() == 4 && "$lte"@[1] == 'l',
        "$nin"@.len() == 4 && "$nin"@[1] == 'n',
        "$all"@.len() == 4 && "$all"@[1] == 'a',
        "$size"@.len() == 5 && "$size"@[1] == 's',
        "$type"@.len() == 5 && "$type"@[1] == 't',
        "$after"@.len() == 6,
        "$before"@.len() == 7 && "$before"@[1] == 'b',
        "$exists"@.len() == 7 && "$exists"@[1] == 'e',
        "$afterEq"@.len() == 8,
        "$beforeEq"@.len() == 9 && "$beforeEq"@[1] == 'b',
        "$contains"@.len() == 9 && "$contains"@[1] == 'c',
        "$startsWith"@.len() == 11,
{
    reveal_strlit("$eq");
    reveal_strlit("$ne");
    reveal_strlit("$gt");
    reveal_strlit("$lt");
    reveal_strlit("$in");
    reveal_strlit("$gte");
    reveal_strlit("$lte");
    reveal_strlit("$nin");
    reveal_strlit("$all");
    reveal_strlit("$size");
    reveal_strlit("$type");
    reveal_strlit("$after");
    reveal_strlit("$before");
    reveal_strlit("$exists");
    reveal_strlit("$afterEq");
    reveal_strlit("$beforeEq");
    reveal_strlit("$contains");
    reveal_strlit("$startsWith");
}

/// An object with one field and one operator stands for the condition of that operator.
proof fn lemma_condition(value: Json, field: Seq<char>, word: Seq<char>, operand: Json)
    requires
        is_condition(value, field, word, operand),
    ensures
        parsed_filter(value) == crate::filter::parsed_operator(field, word, operand),
{
    let inner = value->Object_0@[0].value;
    let members = inner->Object_0@;
    reveal_with_fuel(crate::filter::parsed_operators, 3);
    reveal_with_fuel(crate::filter::parsed_members, 3);
    let none = Seq::<FilterView>::empty();
    let read = crate::filter::parsed_operator(field, word, operand);
    assert(crate::filter::parsed_operators(field, members, 0) == Parsed::Accepted(none));
    assert(crate::filter::parsed_members(value, 0) == Parsed::Accepted(none));
    if let Parsed::Accepted(filter) = read {
        assert(crate::filter::parsed_operators(field, members, 1) == Parsed::Accepted(
            none.push(filter),
        ));
        assert(none + none.push(filter) =~= none.push(filter));
        assert(crate::filter::parsed_members(value, 1) == Parsed::Accepted(none.push(filter)));
        assert(none.push(filter)[0] == filter);
    }
}

/// A time condition holds of a payload exactly where the field is text that reads as an instant
/// before the operand's (`$before`), at or before it (`$beforeEq`), after it (`$after`), or at or
/// after it (`$afterEq`). It is accepted exactly where its operand reads as an instant.
pub proof fn law_time_words(
    value: Json,
    field: Seq<char>,
    word: Seq<char>,
    operand: String,
    payload: JsonView,
)
    requires
        is_condition(value, field, word, Json::String(operand)),
        word == "$before"@ || word == "$beforeEq"@ || word == "$after"@ || word == "$afterEq"@,
    ensures
        is_accepted(value) <==> rfc3339_nanos(operand@) is Some,
        selects(value, payload) <==> {
            &&& rfc3339_nanos(operand@) is Some
            &&& lookup(payload, field) is Some
            &&& lookup(payload, field)->0 is String
            &&& rfc3339_nanos(lookup(payload, field)->0->String_0) is Some
            &&& {
                let actual = rfc3339_nanos(lookup(payload, field)->0->String_0)->0;
                let bound = rfc3339_nanos(operand@)->0;
                &&& word == "$before"@ ==> actual < bound
                &&& word == "$beforeEq"@ ==> actual <= bound
                &&& word == "$after"@ ==> actual > bound
                &&& word == "$afterEq"@ ==> actual >= bound
            }
        },
{
    lemma_condition(value, field, word, Json::String(operand));
    lemma_operator_words();
}

/// Of a field that is a time, exactly one of `$before` and `$afterEq`, and exactly one of `$after`
/// and `$beforeEq`, holds; of a field that is none, none of them does.
pub proof fn law_times_are_parted(
    before: Json,
    before_eq: Json,
    after: Json,
    after_eq: Json,
    field: Seq<char>,
    operand: String,
    payload: JsonView,
)
    requires
        is_condition(before, field, "$before"@, Json::String(operand)),
        is_condition(before_eq, field, "$beforeEq"@, Json::String(operand)),
        is_condition(after, field, "$after"@, Json::String(operand)),
        is_condition(after_eq, field, "$afterEq"@, Json::String(operand)),
        rfc3339_nanos(operand@) is Some,
    ensures
        !(selects(before, payload) && selects(after_eq, payload)),
        !(selects(after, payload) && selects(before_eq, payload)),
        !(selects(before, payload) && selects(after, payload)),
        ({
            let found = lookup(payload, field);
            let is_time = found is Some && found->0 is String && rfc3339_nanos(
                found->0->String_0,
            ) is Some;
            &&& is_time <==> (selects(before, payload) || selects(after_eq, payload))
            &&& is_time <==> (selects(after, payload) || selects(before_eq, payload))
        }),
        selects(before, payload) ==> selects(before_eq, payload),
        selects(after, payload) ==> selects(after_eq, payload),
{
    lemma_operator_words();
    law_time_words(before, field, "$before"@, operand, payload);
    law_time_words(before_eq, field, "$beforeEq"@, operand, payload);
    law_time_words(after, field, "$after"@, operand, payload);
    law_time_words(after_eq, field, "$afterEq"@, operand, payload);
}

/// A range condition with a number is accepted, and holds of a payload exactly where the field is a
/// number whose value in double precision is greater (`$gt`), at least as great (`$gte`), less
/// (`$lt`) or at most as great (`$lte`).
pub proof fn law_range_words_on_numbers(
    value: Json,
    field: Seq<char>,
    word: Seq<char>,
    operand: JsonNumber,
    payload: JsonView,
)
    requires
        is_condition(value, field, word, Json::Number(operand)),
        word == "$gt"@ || word == "$gte"@ || word == "$lt"@ || word == "$lte"@,
        operand matches JsonNumber::Float(number) ==> f64_finite(number.spec_bits()),
    ensures
        is_accepted(value),
        selects(value, payload) <==> {
            &&& lookup(payload, field) is Some
            &&& lookup(payload, field)->0 is Number
            &&& {
                let actual = number_key(lookup(payload, field)->0->Number_0);
                let bound = number_key(operand@);
                &&& word == "$gt"@ ==> actual > bound
                &&& word == "$gte"@ ==> actual >= bound
                &&& word == "$lt"@ ==> actual < bound
                &&& word == "$lte"@ ==> actual <= bound
            }
        },
{
    lemma_condition(value, field, word, Json::Number(operand));
    lemma_operator_words();
    match operand {
        JsonNumber::PosInt(integer) => {
            lemma_integer_finite(integer as int);
        },
        JsonNumber::NegInt(integer) => {
            lemma_integer_finite(integer as int);
        },
        JsonNumber::Float(_) => {},
    }
}

/// A range condition with text is accepted, and holds of a payload exactly where the field is text
/// that comes after it (`$gt`), before it (`$lt`), or is it or comes after or before it (`$gte`,
/// `$lte`).
pub proof fn law_range_words_on_texts(
    value: Json,
    field: Seq<char>,
    word: Seq<char>,
    operand: String,
    payload: JsonView,
)
    requires
        is_condition(value, field, word, Json::String(operand)),
        word == "$gt"@ || word == "$gte"@ || word == "$lt"@ || word == "$lte"@,
    ensures
        is_accepted(value),
        selects(value, payload) <==> {
            &&& lookup(payload, field) is Some
            &&& lookup(payload, field)->0 is String
            &&& {
                let actual = lookup(payload, field)->0->String_0;
                let bound = operand@;
                &&& word == "$gt"@ ==> text_before(bound, actual)
                &&& word == "$gte"@ ==> text_before(bound, actual) || actual == bound
                &&& word == "$lt"@ ==> text_before(actual, bound)
                &&& word == "$lte"@ ==> text_before(actual, bound) || actual == bound
            }
        },
{
    lemma_condition(value, field, word, Json::String(operand));
    lemma_operator_words();
}

/// A range condition with anything but a number or text is refused, and a time condition with
/// anything but text.
pub proof fn law_ranges_need_ordered_operands(
    value: Json,
    field: Seq<char>,
    word: Seq<char>,
    operand: Json,
)
    requires
        is_condition(value, field, word, operand),
    ensures
        (word == "$gt"@ || word == "$gte"@ || word == "$lt"@ || word == "$lte"@) ==> (is_accepted(
            value,
        ) <==> operand is Number || operand is String),
        (word == "$before"@ || word == "$beforeEq"@ || word == "$after"@ || word == "$afterEq"@)
            ==> (is_accepted(value) ==> operand is String),
{
    lemma_condition(value, field, word, operand);
    lemma_operator_words();
}

/// `$eq` holds of a payload exactly where the field has the operand's value, `$ne` exactly where it
/// has another or none. A field with a plain value is written for `$eq`.
pub proof fn law_equality_words(
    equal: Json,
    unequal: Json,
    plain: Json,
    field: Seq<char>,
    operand: Json,
    payload: JsonView,
)
    requires
        is_condition(equal, field, "$eq"@, operand),
        is_condition(unequal, field, "$ne"@, operand),
        plain is Object && plain->Object_0@.len() == 1,
        plain->Object_0@[0].name@ == field && plain->Object_0@[0].value == operand,
    ensures
        is_accepted(equal) && is_accepted(unequal),
        selects(equal, payload) <==> lookup(payload, field) == Some(operand@),
        selects(unequal, payload) <==> lookup(payload, field) != Some(operand@),
        !(operand is Object) ==> is_accepted(plain) && selects(plain, payload) == selects(
            equal,
            payload,
        ),
{
    lemma_condition(equal, field, "$eq"@, operand);
    lemma_condition(unequal, field, "$ne"@, operand);
    lemma_operator_words();
    if !(operand is Object) {
        reveal_with_fuel(crate::filter::parsed_members, 3);
        let none = Seq::<FilterView>::empty();
        let filter = FilterView::Eq(field, operand@);
        assert(crate::filter::parsed_members(plain, 0) == Parsed::Accepted(none));
        assert(crate::filter::parsed_members(plain, 1) == Parsed::Accepted(none.push(filter)));
        assert(none.push(filter)[0] == filter);
    }
}

/// `$in` holds of a payload exactly where the field has one of the listed values, `$nin` exactly
/// where it has none of them or does not exist, and `$all` exactly where it is an array that holds
/// each of them. Each is refused where its operand is no list.
pub proof fn law_list_words(
    among: Json,
    outside: Json,
    all: Json,
    field: Seq<char>,
    operand: Json,
    payload: JsonView,
)
    requires
        is_condition(among, field, "$in"@, operand),
        is_condition(outside, field, "$nin"@, operand),
        is_condition(all, field, "$all"@, operand),
    ensures
        is_accepted(among) <==> operand is Array,
        is_accepted(outside) <==> operand is Array,
        is_accepted(all) <==> operand is Array,
        operand matches Json::Array(items) ==> {
            let found = lookup(payload, field);
            &&& selects(among, payload) <==> found is Some && exists|i: int|
                0 <= i < items@.len() && (#[trigger] items@[i])@ == found->0
            &&& selects(outside, payload) <==> !selects(among, payload)
            &&& selects(all, payload) <==> found is Some && found->0 is Array && forall|i: int|
                0 <= i < items@.len() ==> found->0->Array_0.contains((#[trigger] items@[i])@)
        },
{
    lemma_condition(among, field, "$in"@, operand);
    lemma_condition(outside, field, "$nin"@, operand);
    lemma_condition(all, field, "$all"@, operand);
    lemma_operator_words();
    if let Json::Array(items) = operand {
        let found = lookup(payload, field);
        let views = json_views(items@);
        if found is Some {
            if exists|i: int| 0 <= i < items@.len() && (#[trigger] items@[i])@ == found->0 {
                let i = choose|i: int| 0 <= i < items@.len() && (#[trigger] items@[i])@ == found->0;
                assert(views[i] == found->0);
            }
            if views.contains(found->0) {
                let i = choose|i: int| 0 <= i < views.len() && views[i] == found->0;
                assert(items@[i]@ == found->0);
            }
            if found->0 is Array {
                let held = found->0->Array_0;
                assert((forall|i: int| 0 <= i < views.len() ==> held.contains(#[trigger] views[i]))
                    <==> (forall|i: int|
                    0 <= i < items@.len() ==> held.contains((#[trigger] items@[i])@))) by {
                    if forall|i: int| 0 <= i < views.len() ==> held.contains(#[trigger] views[i]) {
                        assert forall|i: int| 0 <= i < items@.len() implies held.contains(
                            (#[trigger] items@[i])@,
                        ) by {
                            assert(views[i] == items@[i]@);
                        }
                    }
                }
            }
        }
    }
}

/// `$exists` with `true` holds of a payload exactly where it has the field, with `false` exactly
/// where it has not; it is refused with anything else.
pub proof fn law_exists_word(value: Json, field: Seq<char>, operand: Json, payload: JsonView)
    requires
        is_condition(value, field, "$exists"@, operand),
    ensures
        is_accepted(value) <==> operand is Bool,
        operand == Json::Bool(true) ==> (selects(value, payload) <==> lookup(payload, field) is Some),
        operand == Json::Bool(false) ==> (selects(value, payload) <==> lookup(payload, field) is None),
{
    lemma_condition(value, field, "$exists"@, operand);
    lemma_operator_words();
}

/// `$size` holds of a payload exactly where the field is an array with so many items; its operand
/// is an integer that is not negative.
pub proof fn law_size_word(value: Json, field: Seq<char>, operand: Json, payload: JsonView)
    requires
        is_condition(value, field, "$size"@, operand),
    ensures
        is_accepted(value) <==> operand is Number && operand->Number_0 is PosInt,
        operand matches Json::Number(JsonNumber::PosInt(size)) ==> (size <= usize::MAX ==> (selects(
            value,
            payload,
        ) <==> lookup(payload, field) is Some && lookup(payload, field)->0 is Array && lookup(
            payload,
            field,
        )->0->Array_0.len() == size)),
{
    lemma_condition(value, field, "$size"@, operand);
    lemma_operator_words();
}

/// `$type` holds of a payload exactly where the field has the JSON type with that name.
pub proof fn law_type_word(value: Json, field: Seq<char>, operand: Json, payload: JsonView)
    requires
        is_condition(value, field, "$type"@, operand),
    ensures
        is_accepted(value) <==> operand is String,
        operand matches Json::String(name) ==> (selects(value, payload) <==> {
            let found = lookup(payload, field);
            &&& found is Some
            &&& found->0 is Null ==> name@ == "null"@
            &&& found->0 is Bool ==> name@ == "boolean"@
            &&& found->0 is Number ==> name@ == "number"@
            &&& found->0 is String ==> name@ == "string"@
            &&& found->0 is Array ==> name@ == "array"@
            &&& found->0 is Object ==> name@ == "object"@
        }),
{
    lemma_condition(value, field, "$type"@, operand);
    lemma_operator_words();
}

/// `$startsWith` holds of a payload exactly where the field is text whose first characters are the
/// operand's, `$contains` exactly where they stand somewhere in it.
pub proof fn law_text_words(
    starts: Json,
    contains: Json,
    field: Seq<char>,
    operand: Json,
    payload: JsonView,
)
    requires
        is_condition(starts, field, "$startsWith"@, operand),
        is_condition(contains, field, "$contains"@, operand),
    ensures
        is_accepted(starts) <==> operand is String,
        is_accepted(contains) <==> operand is String,
        operand matches Json::String(part) ==> {
            let found = lookup(payload, field);
            let text = found->0->String_0;
            &&& selects(starts, payload) <==> found is Some && found->0 is String && part@.len()
                <= text.len() && text.take(part@.len() as int) == part@
            &&& selects(contains, payload) <==> found is Some && found->0 is String && exists|
                start: int,
            |
                0 <= start && start + part@.len() <= text.len() && #[trigger] text.subrange(
                    start,
                    start + part@.len(),
                ) == part@
            &&& selects(starts, payload) ==> selects(contains, payload)
        },
{
    lemma_condition(starts, field, "$startsWith"@, operand);
    lemma_condition(contains, field, "$contains"@, operand);
    lemma_operator_words();
    if let Json::String(part) = operand {
        let found = lookup(payload, field);
        if found is Some && found->0 is String {
            let text = found->0->String_0;
            if part@.len() <= text.len() {
                let first = text.subrange(0, part@.len() as int);
                assert(text.take(part@.len() as int) =~= first);
                assert(part@.is_prefix_of(text) <==> part@ =~= first);
                if part@ =~= first {
                    let start: int = 0;
                    assert(text.subrange(start, start + part@.len()) == part@);
                    assert(text_holds(text, part@));
                }
            }
        }
    }
}

/// Whether a value is written as an object with one member, a list under this word.
pub open spec fn is_joined(value: Json, word: Seq<char>, items: Seq<Json>) -> bool {
    &&& value is Object
    &&& value->Object_0@.len() == 1
    &&& value->Object_0@[0].name@ == word
    &&& value->Object_0@[0].value is Array
    &&& value->Object_0@[0].value->Array_0@ == items
}

/// The first written filters of a list, read one by one.
proof fn lemma_items_read(list: Json, count: nat)
    requires
        list is Array,
        count <= list->Array_0@.len(),
        forall|i: int| 0 <= i < list->Array_0@.len() ==> is_accepted(#[trigger] list->Array_0@[i]),
    ensures
        crate::filter::parsed_items(list, count) matches Parsed::Accepted(filters)
            && filters.len() == count && forall|i: int|
            0 <= i < count ==> parsed_filter(#[trigger] list->Array_0@[i]) == Parsed::Accepted(
                filters[i],
            ),
    decreases count,
{
    if count > 0 {
        lemma_items_read(list, (count - 1) as nat);
        assert(is_accepted(list->Array_0@[count - 1]));
    }
}

/// `$and` holds of a payload exactly where each of the written filters in its list does, `$or`
/// exactly where one of them does.
pub proof fn law_joining_words(both: Json, either: Json, items: Seq<Json>, payload: JsonView)
    requires
        is_joined(both, "$and"@, items),
        is_joined(either, "$or"@, items),
        forall|i: int| 0 <= i < items.len() ==> is_accepted(#[trigger] items[i]),
    ensures
        is_accepted(both) && is_accepted(either),
        selects(both, payload) <==> forall|i: int|
            0 <= i < items.len() ==> selects(#[trigger] items[i], payload),
        selects(either, payload) <==> exists|i: int|
            0 <= i < items.len() && selects(#[trigger] items[i], payload),
{
    reveal_strlit("$and");
    reveal_strlit("$or");
    reveal_with_fuel(crate::filter::parsed_members, 3);
    let none = Seq::<FilterView>::empty();
    let all = both->Object_0@[0].value;
    let any = either->Object_0@[0].value;
    lemma_items_read(all, items.len());
    lemma_items_read(any, items.len());
    let filters = crate::filter::parsed_items(all, items.len())->Accepted_0;
    let others = crate::filter::parsed_items(any, items.len())->Accepted_0;
    assert forall|i: int| 0 <= i < items.len() implies filters[i] == others[i] by {
        assert(parsed_filter(items[i]) == Parsed::Accepted(filters[i]));
        assert(parsed_filter(items[i]) == Parsed::Accepted(others[i]));
    }
    assert(filters =~= others);
    assert(crate::filter::parsed_members(both, 0) == Parsed::Accepted(none));
    assert(crate::filter::parsed_members(either, 0) == Parsed::Accepted(none));
    assert("$and"@.len() != "$or"@.len());
    let and_filter = FilterView::And(filters);
    let or_filter = FilterView::Or(filters);
    assert(crate::filter::parsed_members(both, 1) == Parsed::Accepted(none.push(and_filter)));
    assert(crate::filter::parsed_members(either, 1) == Parsed::Accepted(none.push(or_filter)));
    assert(none.push(and_filter)[0] == and_filter);
    assert(none.push(or_filter)[0] == or_filter);
    crate::filter::law_and_or(filters, payload);
    assert forall|i: int| 0 <= i < items.len() implies selects(#[trigger] items[i], payload)
        == holds(filters[i], payload) by {
        assert(parsed_filter(items[i]) == Parsed::Accepted(filters[i]));
    }
    if exists|i: int| 0 <= i < items.len() && selects(#[trigger] items[i], payload) {
        let i = choose|i: int| 0 <= i < items.len() && selects(#[trigger] items[i], payload);
        assert(holds(filters[i], payload));
    }
    if holds(or_filter, payload) {
        let i = choose|i: int| 0 <= i < filters.len() && holds(#[trigger] filters[i], payload);
        assert(selects(items[i], payload));
    }
    if holds(and_filter, payload) {
        assert forall|i: int| 0 <= i < items.len() implies selects(#[trigger] items[i], payload) by {
            assert(holds(filters[i], payload));
        }
    }
    if forall|i: int| 0 <= i < items.len() ==> selects(#[trigger] items[i], payload) {
        assert forall|i: int| 0 <= i < filters.len() implies holds(#[trigger] filters[i], payload) by {
            assert(selects(items[i], payload));
        }
    }
}

/// A mask has exactly the bits that its hashes name, each modulo the number of bits.
pub proof fn law_masks_hold_the_named_bits(hashes: Seq<u64>, bit: u64)
    requires
        bit < 64,
    ensures
        mask_of(hashes) & (1u64 << bit) != 0 <==> exists|i: int|
            0 <= i < hashes.len() && (#[trigger] hashes[i]) % 64 == bit,
    decreases hashes.len(),
{
    if hashes.len() == 0 {
        assert(0u64 & (1u64 << bit) == 0) by (bit_vector);
    } else {
        let few = hashes.drop_last();
        let last: u64 = hashes[hashes.len() - 1] % 64;
        let before: u64 = mask_of(few);
        law_masks_hold_the_named_bits(few, bit);
        assert(hashes.last() == hashes[hashes.len() - 1]);
        assert((before | (1u64 << last)) & (1u64 << bit) != 0 <==> before & (1u64 << bit) != 0
            || last == bit) by (bit_vector)
            requires
                bit < 64,
                last < 64,
        ;
        if exists|i: int| 0 <= i < few.len() && (#[trigger] few[i]) % 64 == bit {
            let i = choose|i: int| 0 <= i < few.len() && (#[trigger] few[i]) % 64 == bit;
            assert(hashes[i] % 64 == bit);
        }
        if exists|i: int| 0 <= i < hashes.len() && (#[trigger] hashes[i]) % 64 == bit {
            let i = choose|i: int| 0 <= i < hashes.len() && (#[trigger] hashes[i]) % 64 == bit;
            if i < few.len() {
                assert(few[i] % 64 == bit);
            }
        }
    }
}

/// Whether a filter asks for a value of a field: it is that condition, or a conjunction with a part
/// that asks for it.
pub open spec fn asks_for(filter: FilterView, pair: MemberView) -> bool
    decreases filter,
{
    match filter {
        FilterView::Eq(key, value) => key == pair.name && value == pair.value,
        FilterView::And(filters) => exists|i: int|
            0 <= i < filters.len() && asks_for(#[trigger] filters[i], pair),
        _ => false,
    }
}

/// What a filter requires of a payload is exactly what it asks for by equality, in itself or in the
/// parts of a conjunction.
pub proof fn law_required_pairs_are_asked_for(filter: FilterView, pair: MemberView)
    ensures
        required(filter).contains(pair) <==> asks_for(filter, pair),
    decreases filter, filter->And_0.len() + 1,
{
    match filter {
        FilterView::Eq(key, value) => {
            let own = MemberView { name: key, value };
            let all = required(filter);
            assert(all == seq![own]);
            assert(all[0] == own);
            if all.contains(pair) {
                let i = all.index_of(pair);
                assert(all[i] == pair);
                assert(pair == own);
            }
            if key == pair.name && value == pair.value {
                assert(pair == own);
                assert(all.contains(pair));
            }
            assert(asks_for(filter, pair) <==> key == pair.name && value == pair.value);
        },
        FilterView::And(filters) => {
            lemma_required_by_asked(filter, filters.len(), pair);
            assert(required(filter) == required_by(filter, filters.len()));
            if asks_for(filter, pair) {
                let i = choose|i: int| 0 <= i < filters.len() && asks_for(#[trigger] filters[i], pair);
                assert(0 <= i < filters.len() && asks_for(filter->And_0[i], pair));
            }
        },
        _ => {},
    }
}

/// What the first parts of a conjunction require.
proof fn lemma_required_by_asked(filter: FilterView, count: nat, pair: MemberView)
    requires
        filter is And,
        count <= filter->And_0.len(),
    ensures
        required_by(filter, count).contains(pair) <==> exists|i: int|
            0 <= i < count && asks_for(#[trigger] filter->And_0[i], pair),
    decreases filter, count,
{
    if count > 0 {
        let fewer = (count - 1) as nat;
        let before = required_by(filter, fewer);
        let last = filter->And_0[count - 1];
        let own = required(last);
        let all = required_by(filter, count);
        lemma_required_by_asked(filter, fewer, pair);
        law_required_pairs_are_asked_for(last, pair);
        if before.contains(pair) {
            let n = before.index_of(pair);
            assert(all[n] == pair);
            let i = choose|i: int| 0 <= i < fewer && asks_for(#[trigger] filter->And_0[i], pair);
            assert(0 <= i < count && asks_for(filter->And_0[i], pair));
        }
        if own.contains(pair) {
            let n = own.index_of(pair);
            assert(all[before.len() + n] == pair);
            assert(asks_for(filter->And_0[count - 1], pair));
        }
        if all.contains(pair) {
            let n = all.index_of(pair);
            if n < before.len() {
                assert(before[n] == pair);
            } else {
                assert(own[n - before.len()] == pair);
            }
        }
        if exists|i: int| 0 <= i < count && asks_for(#[trigger] filter->And_0[i], pair) {
            let i = choose|i: int| 0 <= i < count && asks_for(#[trigger] filter->And_0[i], pair);
            if i < fewer {
                assert(0 <= i < fewer && asks_for(filter->And_0[i], pair));
            }
        }
    }
}

} // verus!
