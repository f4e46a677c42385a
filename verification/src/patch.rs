//! Changes to some members of a JSON object.
use vstd::prelude::*;

use crate::error::{invalid_input, is_invalid_input, Result};
use crate::json::{
    integer_as_f64, law_object_is_its_members, lemma_json_view, lemma_member_position, lookup,
    member_position, member_views, names_ascend, remove_member, set_member, Finite, Json,
    JsonNumber, JsonView, Member, MemberView, NumberView, Object,
};
use crate::number::{f64_finite, f64_value_key};
use crate::text::{law_text_order_irreflexive, same_text, text_before};

verus! {

/// Whether a name in a patch says what is done, and is no member that is set.
pub open spec fn is_operator(name: Seq<char>) -> bool {
    name == "$set"@ || name == "$inc"@ || name == "$unset"@
}

/// What an operator of a patch says of a member.
pub open spec fn operand(patch: JsonView, operator: Seq<char>, name: Seq<char>) -> Option<JsonView> {
    match lookup(patch, operator) {
        Some(members) => lookup(members, name),
        None => None,
    }
}

/// The value of a member before it is increased or removed: the one under `$set`, or the one that
/// the patch itself gives it, or the one that it had.
pub open spec fn set_value(payload: JsonView, patch: JsonView, name: Seq<char>) -> Option<JsonView> {
    match operand(patch, "$set"@, name) {
        Some(value) => Some(value),
        None => if !is_operator(name) && lookup(patch, name) is Some {
            lookup(patch, name)
        } else {
            lookup(payload, name)
        },
    }
}

/// The value of a number that is an integer.
pub open spec fn integer_of(number: NumberView) -> Option<int> {
    match number {
        NumberView::PosInt(value) => Some(value as int),
        NumberView::NegInt(value) => Some(value as int),
        NumberView::Float(_) => None,
    }
}

/// An integer as a JSON number.
pub open spec fn as_number(value: int) -> NumberView {
    if value >= 0 {
        NumberView::PosInt(value as u64)
    } else {
        NumberView::NegInt(value as i64)
    }
}

/// The double precision bit pattern of a number.
pub open spec fn double_of(number: JsonNumber) -> u64 {
    match number {
        JsonNumber::PosInt(value) => integer_as_f64(value as int),
        JsonNumber::NegInt(value) => integer_as_f64(value as int),
        JsonNumber::Float(fraction) => fraction.spec_bits(),
    }
}

/// Whether two numbers are integers with a sum that is one too.
pub open spec fn adds_exactly(a: NumberView, b: NumberView) -> bool {
    integer_of(a) is Some && integer_of(b) is Some && i64::MIN <= integer_of(a)->0
        + integer_of(b)->0 <= u64::MAX
}

/// Whether `sum` is the sum of two numbers: exact for integers as long as it can be written as one,
/// and otherwise what `plus` gives in double precision. There is none where that is not finite.
pub open spec fn is_sum<F: Fn(u64, u64) -> u64>(
    plus: F,
    a: NumberView,
    b: NumberView,
    sum: Option<NumberView>,
) -> bool {
    if adds_exactly(a, b) {
        sum == Some(as_number(integer_of(a)->0 + integer_of(b)->0))
    } else {
        exists|x: JsonNumber, y: JsonNumber, bits: u64|
            {
                &&& x@ == a
                &&& y@ == b
                &&& #[trigger] call_ensures(plus, (double_of(x), double_of(y)), bits)
                &&& sum == if f64_finite(bits) {
                    Some(NumberView::Float(f64_value_key(bits)))
                } else {
                    None
                }
            }
    }
}

/// Whether `value` is what a member with the value `base` becomes when it is increased. A member
/// that is not there counts as zero. There is no value where one of the two is not a number.
pub open spec fn is_increased<F: Fn(u64, u64) -> u64>(
    plus: F,
    base: Option<JsonView>,
    amount: JsonView,
    value: Option<JsonView>,
) -> bool {
    match (base, amount) {
        (None, JsonView::Number(_)) => value == Some(amount),
        (Some(JsonView::Number(a)), JsonView::Number(b)) => exists|sum: Option<NumberView>|
            #[trigger] is_sum(plus, a, b, sum) && value == match sum {
                Some(number) => Some(JsonView::Number(number)),
                None => None,
            },
        _ => value is None,
    }
}

/// Whether `value` is what a member has after a patch: none under `$unset`, an increased one under
/// `$inc`, and otherwise the one that is set or that it had.
pub open spec fn is_member_after<F: Fn(u64, u64) -> u64>(
    plus: F,
    payload: JsonView,
    patch: JsonView,
    name: Seq<char>,
    value: Option<JsonView>,
) -> bool {
    if operand(patch, "$unset"@, name) is Some {
        value is None
    } else {
        match operand(patch, "$inc"@, name) {
            Some(amount) => value is Some && is_increased(
                plus,
                set_value(payload, patch, name),
                amount,
                value,
            ),
            None => value == set_value(payload, patch, name),
        }
    }
}

/// Whether an operator of a patch is missing or holds an object.
pub open spec fn is_well_placed(patch: JsonView, operator: Seq<char>) -> bool {
    lookup(patch, operator) matches Some(members) ==> members is Object
}

/// Whether a payload and a patch are objects, and the operators of the patch hold objects.
pub open spec fn is_patch(payload: JsonView, patch: JsonView) -> bool {
    &&& payload is Object
    &&& patch is Object
    &&& is_well_placed(patch, "$set"@)
    &&& is_well_placed(patch, "$inc"@)
    &&& is_well_placed(patch, "$unset"@)
}

/// Whether a member cannot be increased as the patch says.
pub open spec fn is_stuck<F: Fn(u64, u64) -> u64>(
    plus: F,
    payload: JsonView,
    patch: JsonView,
    name: Seq<char>,
) -> bool {
    &&& operand(patch, "$unset"@, name) is None
    &&& operand(patch, "$inc"@, name) matches Some(amount) && is_increased(
        plus,
        set_value(payload, patch, name),
        amount,
        None,
    )
}

/// Whether `patched` is the payload after the patch.
pub open spec fn is_patched<F: Fn(u64, u64) -> u64>(
    plus: F,
    payload: JsonView,
    patch: JsonView,
    patched: JsonView,
) -> bool {
    &&& patched matches JsonView::Object(members) && names_ascend(members)
    &&& forall|name: Seq<char>|
        is_member_after(plus, payload, patch, name, #[trigger] lookup(patched, name))
}

/// Whether applying a patch comes to this.
pub open spec fn is_patch_result<F: Fn(u64, u64) -> u64>(
    plus: F,
    payload: JsonView,
    patch: JsonView,
    result: Result<Json>,
) -> bool {
    match result {
        Ok(patched) => is_patch(payload, patch) && is_patched(plus, payload, patch, patched@),
        Err(error) => {
            ||| !is_patch(payload, patch) && is_invalid_input(
                error,
                "Payload 补丁必须是对象 (Payload patch must be an object)"@,
            )
            ||| is_patch(payload, patch) && is_invalid_input(
                error,
                "$inc 要求数值字段和有限的和 ($inc requires numbers with a finite sum)"@,
            ) && exists|name: Seq<char>| #[trigger] is_stuck(plus, payload, patch, name)
        },
    }
}

/// The sum of two numbers.
fn add_numbers<F: Fn(u64, u64) -> u64>(plus: &F, a: JsonNumber, b: JsonNumber) -> (sum: Option<
    JsonNumber,
>)
    requires
        forall|x: u64, y: u64| call_requires(plus, (x, y)),
    ensures
        is_sum(
            *plus,
            a@,
            b@,
            match sum {
                Some(number) => Some(number@),
                None => None,
            },
        ),
{
    let left: Option<i128> = match a {
        JsonNumber::PosInt(value) => Some(value as i128),
        JsonNumber::NegInt(value) => Some(value as i128),
        JsonNumber::Float(_) => None,
    };
    let right: Option<i128> = match b {
        JsonNumber::PosInt(value) => Some(value as i128),
        JsonNumber::NegInt(value) => Some(value as i128),
        JsonNumber::Float(_) => None,
    };
    if let (Some(x), Some(y)) = (left, right) {
        let total: i128 = x + y;
        if 0 <= total && total <= u64::MAX as i128 {
            return Some(JsonNumber::PosInt(total as u64));
        }
        if (i64::MIN as i128) <= total && total < 0 {
            return Some(JsonNumber::NegInt(total as i64));
        }
    }
    let bits: u64 = plus(a.as_f64(), b.as_f64());
    assert(call_ensures(plus, (double_of(a), double_of(b)), bits));
    match Finite::new(bits) {
        Some(number) => Some(JsonNumber::Float(number)),
        None => None,
    }
}

/// What a member becomes when it is increased.
fn increase<F: Fn(u64, u64) -> u64>(plus: &F, base: Option<&Json>, amount: &Json) -> (value: Option<
    Json,
>)
    requires
        forall|x: u64, y: u64| call_requires(plus, (x, y)),
    ensures
        is_increased(
            *plus,
            match base {
                Some(json) => Some(json@),
                None => None,
            },
            amount@,
            match value {
                Some(json) => Some(json@),
                None => None,
            },
        ),
{
    match amount {
        Json::Number(b) => match base {
            None => Some(Json::Number(*b)),
            Some(Json::Number(a)) => {
                let sum = add_numbers(plus, *a, *b);
                let ghost named = match sum {
                    Some(number) => Some(number@),
                    None => None,
                };
                assert(is_sum(*plus, a@, b@, named));
                match sum {
                    Some(number) => Some(Json::Number(number)),
                    None => None,
                }
            },
            Some(_) => None,
        },
        _ => None,
    }
}

/// Whether a name says what is done.
fn names_operator(name: &str) -> (result: bool)
    ensures
        result == is_operator(name@),
{
    same_text(name, "$set") || same_text(name, "$inc") || same_text(name, "$unset")
}

/// The first of some members is found before the others.
proof fn lemma_lookup_step(members: Seq<MemberView>, i: int, name: Seq<char>)
    requires
        0 <= i < members.len(),
    ensures
        lookup(JsonView::Object(members.skip(i)), name) == if members[i].name == name {
            Some(members[i].value)
        } else {
            lookup(JsonView::Object(members.skip(i + 1)), name)
        },
{
    let here = members.skip(i);
    let rest = members.skip(i + 1);
    assert(here.drop_first() =~= rest);
    assert(here[0] == members[i]);
    lemma_member_position(rest, name);
    if members[i].name != name && member_position(rest, name) < rest.len() {
        assert(here[1 + member_position(rest, name)] == rest[member_position(rest, name)]);
    }
}

/// Sets the members that are given, but those with the name of an operator where these are left
/// out. Of two members with the same name the first counts.
fn set_members(members: &mut Vec<Member>, given: &Vec<Member>, leave_operators: bool)
    requires
        names_ascend(member_views(old(members)@)),
    ensures
        names_ascend(member_views(final(members)@)),
        forall|name: Seq<char>| #[trigger]
            lookup(JsonView::Object(member_views(final(members)@)), name) == if !(leave_operators
                && is_operator(name)) && lookup(
                JsonView::Object(member_views(given@)),
                name,
            ) is Some {
                lookup(JsonView::Object(member_views(given@)), name)
            } else {
                lookup(JsonView::Object(member_views(old(members)@)), name)
            },
{
    let ghost start = member_views(members@);
    let ghost all = member_views(given@);
    let mut i: usize = given.len();
    assert(all.skip(i as int) =~= Seq::<MemberView>::empty());
    while i > 0
        invariant
            i <= given@.len(),
            all == member_views(given@),
            names_ascend(member_views(members@)),
            forall|name: Seq<char>| #[trigger]
                lookup(JsonView::Object(member_views(members@)), name) == if !(leave_operators
                    && is_operator(name)) && lookup(
                    JsonView::Object(all.skip(i as int)),
                    name,
                ) is Some {
                    lookup(JsonView::Object(all.skip(i as int)), name)
                } else {
                    lookup(JsonView::Object(start), name)
                },
        decreases i,
    {
        i -= 1;
        let ghost before = member_views(members@);
        let ghost new = given@[i as int]@;
        assert(all[i as int] == new);
        if !(leave_operators && names_operator(given[i].name.as_str())) {
            set_member(
                members,
                Member { name: given[i].name.clone(), value: given[i].value.duplicate() },
            );
        }
        proof {
            assert forall|name: Seq<char>| #[trigger]
                lookup(JsonView::Object(member_views(members@)), name) == if !(leave_operators
                && is_operator(name)) && lookup(
                JsonView::Object(all.skip(i as int)),
                name,
            ) is Some {
                lookup(JsonView::Object(all.skip(i as int)), name)
            } else {
                lookup(JsonView::Object(start), name)
            } by {
                lemma_lookup_step(all, i as int, name);
                assert(lookup(JsonView::Object(before), name) == if !(leave_operators
                    && is_operator(name)) && lookup(
                    JsonView::Object(all.skip(i + 1)),
                    name,
                ) is Some {
                    lookup(JsonView::Object(all.skip(i + 1)), name)
                } else {
                    lookup(JsonView::Object(start), name)
                });
            }
        }
    }
    assert(all.skip(0) =~= all);
}

/// The members of an object, in ascending order of their names.
fn in_order(given: &Vec<Member>) -> (members: Vec<Member>)
    ensures
        names_ascend(member_views(members@)),
        forall|name: Seq<char>| #[trigger]
            lookup(JsonView::Object(member_views(members@)), name) == lookup(
                JsonView::Object(member_views(given@)),
                name,
            ),
{
    let mut members: Vec<Member> = Vec::new();
    assert(member_views(members@) =~= Seq::<MemberView>::empty());
    set_members(&mut members, given, false);
    members
}

/// Takes out the members that are named.
fn unset_members(members: &mut Vec<Member>, named: &Vec<Member>)
    requires
        names_ascend(member_views(old(members)@)),
    ensures
        names_ascend(member_views(final(members)@)),
        forall|name: Seq<char>| #[trigger]
            lookup(JsonView::Object(member_views(final(members)@)), name) == if lookup(
                JsonView::Object(member_views(named@)),
                name,
            ) is Some {
                None
            } else {
                lookup(JsonView::Object(member_views(old(members)@)), name)
            },
{
    let ghost start = member_views(members@);
    let ghost all = member_views(named@);
    let mut i: usize = named.len();
    assert(all.skip(i as int) =~= Seq::<MemberView>::empty());
    while i > 0
        invariant
            i <= named@.len(),
            all == member_views(named@),
            names_ascend(member_views(members@)),
            forall|name: Seq<char>| #[trigger]
                lookup(JsonView::Object(member_views(members@)), name) == if lookup(
                    JsonView::Object(all.skip(i as int)),
                    name,
                ) is Some {
                    None
                } else {
                    lookup(JsonView::Object(start), name)
                },
        decreases i,
    {
        i -= 1;
        let ghost before = member_views(members@);
        assert(all[i as int] == named@[i as int]@);
        remove_member(members, named[i].name.as_str());
        proof {
            assert forall|name: Seq<char>| #[trigger]
                lookup(JsonView::Object(member_views(members@)), name) == if lookup(
                JsonView::Object(all.skip(i as int)),
                name,
            ) is Some {
                None
            } else {
                lookup(JsonView::Object(start), name)
            } by {
                lemma_lookup_step(all, i as int, name);
                assert(lookup(JsonView::Object(before), name) == if lookup(
                    JsonView::Object(all.skip(i + 1)),
                    name,
                ) is Some {
                    None
                } else {
                    lookup(JsonView::Object(start), name)
                });
            }
        }
    }
    assert(all.skip(0) =~= all);
}

/// Whether a member is what it was, increased where the first amounts name it and it is not left
/// out.
spec fn is_raised<F: Fn(u64, u64) -> u64>(
    plus: F,
    start: JsonView,
    amounts: JsonView,
    left_out: JsonView,
    name: Seq<char>,
    value: Option<JsonView>,
) -> bool {
    match lookup(amounts, name) {
        Some(amount) => if lookup(left_out, name) is Some {
            value == lookup(start, name)
        } else {
            value is Some && is_increased(plus, lookup(start, name), amount, value)
        },
        None => value == lookup(start, name),
    }
}

/// Increases the members that are named, but those that are left out. Fails where one cannot be
/// increased.
fn raise_members<F: Fn(u64, u64) -> u64>(
    plus: &F,
    members: &mut Vec<Member>,
    amounts: &Vec<Member>,
    left_out: &Json,
) -> (raised: bool)
    requires
        forall|x: u64, y: u64| call_requires(plus, (x, y)),
        names_ascend(member_views(old(members)@)),
        names_ascend(member_views(amounts@)),
    ensures
        raised ==> names_ascend(member_views(final(members)@)),
        raised ==> forall|name: Seq<char>|
            is_raised(
                *plus,
                JsonView::Object(member_views(old(members)@)),
                JsonView::Object(member_views(amounts@)),
                left_out@,
                name,
                #[trigger] lookup(JsonView::Object(member_views(final(members)@)), name),
            ),
        !raised ==> exists|name: Seq<char>|
            {
                &&& lookup(left_out@, name) is None
                &&& #[trigger] lookup(
                    JsonView::Object(member_views(amounts@)),
                    name,
                ) matches Some(amount) && is_increased(
                    *plus,
                    lookup(JsonView::Object(member_views(old(members)@)), name),
                    amount,
                    None,
                )
            },
{
    let ghost start = JsonView::Object(member_views(members@));
    let ghost all = member_views(amounts@);
    let mut i: usize = amounts.len();
    assert(all.skip(i as int) =~= Seq::<MemberView>::empty());
    while i > 0
        invariant
            i <= amounts@.len(),
            all == member_views(amounts@),
            names_ascend(all),
            start == JsonView::Object(member_views(old(members)@)),
            forall|x: u64, y: u64| call_requires(plus, (x, y)),
            names_ascend(member_views(members@)),
            forall|name: Seq<char>|
                is_raised(
                    *plus,
                    start,
                    JsonView::Object(all.skip(i as int)),
                    left_out@,
                    name,
                    #[trigger] lookup(JsonView::Object(member_views(members@)), name),
                ),
        decreases i,
    {
        i -= 1;
        let ghost before = member_views(members@);
        let ghost name = amounts@[i as int].name@;
        let ghost later = JsonView::Object(all.skip(i + 1));
        proof {
            assert(all[i as int] == amounts@[i as int]@);
            lemma_named_once(all, i as int);
            assert(is_raised(
                *plus,
                start,
                later,
                left_out@,
                name,
                lookup(JsonView::Object(before), name),
            ));
            assert(lookup(JsonView::Object(before), name) == lookup(start, name));
            lemma_lookup_at(all, i as int);
        }
        if left_out.get(amounts[i].name.as_str()).is_none() {
            let value = {
                let base = find_member(members, amounts[i].name.as_str());
                increase(plus, base, &amounts[i].value)
            };
            match value {
                None => {
                    proof {
                        assert(lookup(left_out@, name) is None);
                        assert(lookup(JsonView::Object(all), name) == Some(
                            amounts@[i as int].value@,
                        ));
                        assert(is_increased(
                            *plus,
                            lookup(start, name),
                            amounts@[i as int].value@,
                            None,
                        ));
                    }
                    return false;
                },
                Some(json) => {
                    set_member(members, Member { name: amounts[i].name.clone(), value: json });
                },
            }
        }
        proof {
            assert forall|other: Seq<char>|
                is_raised(
                    *plus,
                    start,
                    JsonView::Object(all.skip(i as int)),
                    left_out@,
                    other,
                    #[trigger] lookup(JsonView::Object(member_views(members@)), other),
                ) by {
                lemma_lookup_step(all, i as int, other);
                assert(is_raised(
                    *plus,
                    start,
                    later,
                    left_out@,
                    other,
                    lookup(JsonView::Object(before), other),
                ));
            }
        }
    }
    assert(all.skip(0) =~= all);
    true
}

/// The member of a name.
fn find_member<'a>(members: &'a Vec<Member>, name: &str) -> (value: Option<&'a Json>)
    ensures
        match value {
            Some(json) => lookup(JsonView::Object(member_views(members@)), name@) == Some(json@),
            None => lookup(JsonView::Object(member_views(members@)), name@) is None,
        },
{
    let ghost views = member_views(members@);
    proof {
        lemma_member_position(views, name@);
    }
    let mut i: usize = 0;
    while i < members.len()
        invariant
            i <= members@.len(),
            views == member_views(members@),
            i <= member_position(views, name@) <= views.len(),
            member_position(views, name@) < views.len() ==> views[member_position(
                views,
                name@,
            )].name == name@,
            forall|j: int|
                0 <= j < member_position(views, name@) ==> (#[trigger] views[j]).name != name@,
        decreases members@.len() - i,
    {
        assert(views[i as int] == members@[i as int]@);
        if same_text(members[i].name.as_str(), name) {
            return Some(&members[i].value);
        }
        i += 1;
    }
    None
}

/// In ascending order a name occurs once.
proof fn lemma_named_once(members: Seq<MemberView>, i: int)
    requires
        names_ascend(members),
        0 <= i < members.len(),
    ensures
        lookup(JsonView::Object(members.skip(i + 1)), members[i].name) is None,
{
    let rest = members.skip(i + 1);
    lemma_member_position(rest, members[i].name);
    let position = member_position(rest, members[i].name);
    if position < rest.len() {
        assert(rest[position] == members[i + 1 + position]);
        law_text_order_irreflexive(members[i].name);
    }
}

/// In ascending order a member is found by its name.
proof fn lemma_lookup_at(members: Seq<MemberView>, i: int)
    requires
        names_ascend(members),
        0 <= i < members.len(),
    ensures
        lookup(JsonView::Object(members), members[i].name) == Some(members[i].value),
{
    lemma_member_position(members, members[i].name);
    let position = member_position(members, members[i].name);
    law_text_order_irreflexive(members[i].name);
    if position < i {
        assert(text_before(members[position].name, members[i].name));
    }
}

/// What an operator of a patch holds; nothing where the patch does not have it.
fn operator_members<'a>(patch: &'a Json, operator: &str, none: &'a Json) -> (members: Option<
    &'a Vec<Member>,
>)
    requires
        none@ == JsonView::Object(Seq::empty()),
        none is Object,
    ensures
        members is Some <==> is_well_placed(patch@, operator@),
        members matches Some(list) ==> forall|name: Seq<char>| #[trigger]
            lookup(JsonView::Object(member_views(list@)), name) == operand(
                patch@,
                operator@,
                name,
            ),
{
    proof {
        lemma_json_view(*none);
    }
    match patch.get(operator) {
        Some(json) => {
            proof {
                lemma_json_view(*json);
            }
            match json {
                Json::Object(object) => Some(object.members()),
                _ => None,
            }
        },
        None => match none {
            Json::Object(object) => Some(object.members()),
            _ => None,
        },
    }
}

/// A payload with some of its members changed. A patch names the members to set under `$set`, or
/// as its own members, those to increase under `$inc`, and those to take out under `$unset`. All
/// other members stay as they are. `plus` adds numbers in double precision.
pub fn apply_patch<F: Fn(u64, u64) -> u64>(payload: &Json, patch: &Json, plus: &F) -> (result:
    Result<Json>)
    requires
        forall|x: u64, y: u64| call_requires(plus, (x, y)),
    ensures
        is_patch_result(*plus, payload@, patch@, result),
{
    proof {
        lemma_json_view(*payload);
        lemma_json_view(*patch);
    }
    let refusal = "Payload 补丁必须是对象 (Payload patch must be an object)";
    let (given, changes) = match (payload, patch) {
        (Json::Object(given), Json::Object(changes)) => (given.members(), changes.members()),
        _ => {
            return Err(invalid_input(refusal));
        },
    };
    let none = Json::Object(Object { members: Vec::new() });
    proof {
        lemma_json_view(none);
        assert(none@->Object_0 =~= Seq::<MemberView>::empty());
    }
    let (set, inc, unset) = match (
        operator_members(patch, "$set", &none),
        operator_members(patch, "$inc", &none),
        operator_members(patch, "$unset", &none),
    ) {
        (Some(set), Some(inc), Some(unset)) => (set, inc, unset),
        _ => {
            return Err(invalid_input(refusal));
        },
    };
    let mut members = in_order(given);
    set_members(&mut members, changes, true);
    set_members(&mut members, set, false);
    let ghost placed = JsonView::Object(member_views(members@));
    proof {
        assert forall|name: Seq<char>| #[trigger] lookup(placed, name) == set_value(
            payload@,
            patch@,
            name,
        ) by {
            assert(lookup(JsonView::Object(member_views(set@)), name) == operand(
                patch@,
                "$set"@,
                name,
            ));
        }
    }
    let amounts = in_order(inc);
    let left_out = match patch.get("$unset") {
        Some(json) => json,
        None => &none,
    };
    proof {
        assert forall|name: Seq<char>| #[trigger] lookup(left_out@, name) == operand(
            patch@,
            "$unset"@,
            name,
        ) by {
            lemma_member_position(Seq::<MemberView>::empty(), name);
        }
        assert forall|name: Seq<char>| #[trigger]
            lookup(JsonView::Object(member_views(amounts@)), name) == operand(
            patch@,
            "$inc"@,
            name,
        ) by {
            assert(lookup(JsonView::Object(member_views(inc@)), name) == operand(
                patch@,
                "$inc"@,
                name,
            ));
        }
    }
    if !raise_members(plus, &mut members, &amounts, left_out) {
        proof {
            let name = choose|name: Seq<char>|
                {
                    &&& lookup(left_out@, name) is None
                    &&& #[trigger] lookup(
                        JsonView::Object(member_views(amounts@)),
                        name,
                    ) matches Some(amount) && is_increased(
                        *plus,
                        lookup(placed, name),
                        amount,
                        None,
                    )
                };
            assert(lookup(placed, name) == set_value(payload@, patch@, name));
            assert(is_stuck(*plus, payload@, patch@, name));
        }
        return Err(
            invalid_input("$inc 要求数值字段和有限的和 ($inc requires numbers with a finite sum)"),
        );
    }
    let ghost raised = JsonView::Object(member_views(members@));
    unset_members(&mut members, unset);
    let result = Json::Object(Object { members });
    proof {
        lemma_json_view(result);
        assert forall|name: Seq<char>|
            is_member_after(
                *plus,
                payload@,
                patch@,
                name,
                #[trigger] lookup(result@, name),
            ) by {
            assert(lookup(JsonView::Object(member_views(unset@)), name) == operand(
                patch@,
                "$unset"@,
                name,
            ));
            assert(is_raised(
                *plus,
                placed,
                JsonView::Object(member_views(amounts@)),
                left_out@,
                name,
                lookup(raised, name),
            ));
            assert(lookup(placed, name) == set_value(payload@, patch@, name));
        }
    }
    Ok(result)
}

/// A member that a patch does not name stays as it is.
pub proof fn law_other_members_stay<F: Fn(u64, u64) -> u64>(
    plus: F,
    payload: JsonView,
    patch: JsonView,
    patched: JsonView,
    name: Seq<char>,
)
    requires
        is_patched(plus, payload, patch, patched),
        is_operator(name) || lookup(patch, name) is None,
        operand(patch, "$set"@, name) is None,
        operand(patch, "$inc"@, name) is None,
        operand(patch, "$unset"@, name) is None,
    ensures
        lookup(patched, name) == lookup(payload, name),
{
    assert(is_member_after(plus, payload, patch, name, lookup(patched, name)));
}

/// Members that a patch gives as its own are set as those under `$set` are.
pub proof fn law_shorthand_sets<F: Fn(u64, u64) -> u64>(
    plus: F,
    payload: JsonView,
    short: JsonView,
    long: JsonView,
    one: JsonView,
    other: JsonView,
)
    requires
        forall|name: Seq<char>| is_operator(name) ==> #[trigger] lookup(short, name) is None,
        forall|name: Seq<char>| #[trigger]
            lookup(long, name) == if name == "$set"@ {
                Some(short)
            } else {
                None
            },
        is_patched(plus, payload, short, one),
        is_patched(plus, payload, long, other),
    ensures
        one == other,
{
    reveal_strlit("$set");
    reveal_strlit("$inc");
    reveal_strlit("$unset");
    assert("$inc"@.len() == 4 && "$set"@.len() == 4 && "$unset"@.len() == 6);
    assert("$inc"@[1] == 'i' && "$set"@[1] == 's');
    assert forall|name: Seq<char>| #[trigger] lookup(one, name) == lookup(other, name) by {
        assert(is_member_after(plus, payload, short, name, lookup(one, name)));
        assert(is_member_after(plus, payload, long, name, lookup(other, name)));
        assert(lookup(short, "$set"@) is None && lookup(short, "$inc"@) is None && lookup(
            short,
            "$unset"@,
        ) is None);
        assert(lookup(long, "$set"@) == Some(short));
        assert(lookup(long, "$inc"@) is None && lookup(long, "$unset"@) is None);
        assert(lookup(long, name) == if name == "$set"@ {
            Some(short)
        } else {
            None
        });
    }
    law_object_is_its_members(one->Object_0, other->Object_0);
}

/// What the three operators do to a member. `$set` gives it the value, `$inc` adds the amount to the
/// value that it has or that is set, starting at zero, and `$unset` removes it whatever the others
/// say. The sum of integers is exact where it is an integer that JSON can hold.
pub proof fn law_operators_act_on_their_members<F: Fn(u64, u64) -> u64>(
    plus: F,
    payload: JsonView,
    patch: JsonView,
    patched: JsonView,
    name: Seq<char>,
    sets: JsonView,
    amounts: JsonView,
    removed: JsonView,
)
    requires
        is_patched(plus, payload, patch, patched),
        lookup(patch, "$set"@) == Some(sets),
        lookup(patch, "$inc"@) == Some(amounts),
        lookup(patch, "$unset"@) == Some(removed),
    ensures
        lookup(removed, name) is Some ==> lookup(patched, name) is None,
        lookup(removed, name) is None && lookup(amounts, name) is None && lookup(sets, name) is Some
            ==> lookup(patched, name) == lookup(sets, name),
        lookup(removed, name) is None && lookup(amounts, name) is Some && lookup(sets, name) is None
            && lookup(patch, name) is None && lookup(payload, name) is None ==> lookup(patched, name)
            == lookup(amounts, name),
        forall|start: int, amount: int, before: NumberView, more: NumberView|
            {
                &&& lookup(removed, name) is None
                &&& lookup(amounts, name) == Some(JsonView::Number(more))
                &&& #[trigger] is_integer(more, amount)
                &&& #[trigger] is_integer(before, start)
                &&& i64::MIN <= start + amount <= u64::MAX
                &&& lookup(sets, name) == Some(JsonView::Number(before)) || (lookup(sets, name)
                    is None && lookup(patch, name) is None && lookup(payload, name) == Some(
                    JsonView::Number(before),
                ))
            } ==> exists|after: NumberView|
                lookup(patched, name) == Some(JsonView::Number(after)) && #[trigger] is_integer(
                    after,
                    start + amount,
                ),
{
    assert(is_member_after(plus, payload, patch, name, lookup(patched, name)));
    assert forall|start: int, amount: int, before: NumberView, more: NumberView|
        {
            &&& lookup(removed, name) is None
            &&& lookup(amounts, name) == Some(JsonView::Number(more))
            &&& #[trigger] is_integer(more, amount)
            &&& #[trigger] is_integer(before, start)
            &&& i64::MIN <= start + amount <= u64::MAX
            &&& lookup(sets, name) == Some(JsonView::Number(before)) || (lookup(sets, name)
                is None && lookup(patch, name) is None && lookup(payload, name) == Some(
                JsonView::Number(before),
            ))
        } implies exists|after: NumberView|
        lookup(patched, name) == Some(JsonView::Number(after)) && #[trigger] is_integer(
            after,
            start + amount,
        ) by {
        let after = as_number(start + amount);
        assert(is_integer(after, start + amount));
    }
}

/// Whether a JSON number is this integer.
pub open spec fn is_integer(number: NumberView, value: int) -> bool {
    number == NumberView::PosInt(value as u64) && 0 <= value <= u64::MAX || number
        == NumberView::NegInt(value as i64) && i64::MIN <= value <= i64::MAX
}

} // verus!
