//! JSON values.
use vstd::arithmetic::div_mod::{lemma_div_is_ordered, lemma_fundamental_div_mod};
use vstd::arithmetic::power2::{
    lemma2_to64, lemma2_to64_rest, lemma_pow2_adds, lemma_pow2_pos, lemma_pow2_strictly_increases,
    lemma_pow2_unfold, pow2,
};
use vstd::prelude::*;

use crate::number::{f64_equal, f64_finite, f64_is_finite, f64_value_key};
use crate::text::{
    law_text_order_irreflexive, law_text_order_total, law_text_order_transitive, same_text,
    text_before, text_less,
};

verus! {

/// A finite double precision number.
#[derive(Debug, Clone, Copy)]
pub struct Finite {
    bits: u64,
}

impl Finite {
    /// The bit pattern of the number.
    pub closed spec fn spec_bits(self) -> u64 {
        self.bits
    }

    /// JSON has neither infinities nor NaNs.
    #[verifier::type_invariant]
    spec fn is_finite(self) -> bool {
        f64_finite(self.bits)
    }

    /// The number with this bit pattern, where it is finite.
    pub fn new(bits: u64) -> (result: Option<Finite>)
        ensures
            result is Some <==> f64_finite(bits),
            result matches Some(number) ==> number.spec_bits() == bits,
    {
        if f64_is_finite(bits) {
            Some(Finite { bits })
        } else {
            None
        }
    }

    /// The bit pattern of the number.
    pub fn bits(&self) -> (bits: u64)
        ensures
            bits == self.spec_bits(),
            f64_finite(bits),
    {
        proof {
            use_type_invariant(self);
        }
        self.bits
    }
}

/// A JSON number: a non-negative integer, a negative integer, or a fraction.
#[derive(Debug, Clone, Copy)]
pub enum JsonNumber {
    PosInt(u64),
    NegInt(i64),
    Float(Finite),
}

/// A JSON value.
#[derive(Debug)]
pub enum Json {
    Null,
    Bool(bool),
    Number(JsonNumber),
    String(String),
    Array(Vec<Json>),
    Object(Object),
}

/// The members of an object, in ascending order of their names, each name once.
#[derive(Debug)]
pub struct Object {
    pub(crate) members: Vec<Member>,
}

impl View for Object {
    type V = Seq<Member>;

    open(crate) spec fn view(&self) -> Seq<Member> {
        self.members@
    }
}

impl Object {
    /// The names of the members ascend.
    #[verifier::type_invariant]
    pub(crate) open spec fn ordered(&self) -> bool {
        names_ascend(member_views(self.members@))
    }

    /// The members, in ascending order of their names.
    pub fn members(&self) -> (members: &Vec<Member>)
        ensures
            members@ == self@,
            names_ascend(member_views(members@)),
    {
        proof {
            use_type_invariant(self);
        }
        &self.members
    }
}

/// A member of an object.
#[derive(Debug)]
pub struct Member {
    pub name: String,
    pub value: Json,
}

/// A JSON number as a mathematical value. An integer and a fraction are different numbers even
/// where they have the same value; the two zeros are the same number.
pub enum NumberView {
    PosInt(u64),
    NegInt(i64),
    Float(int),
}

/// A JSON value as a mathematical value. Two values are equal exactly where their views are.
pub enum JsonView {
    Null,
    Bool(bool),
    Number(NumberView),
    String(Seq<char>),
    Array(Seq<JsonView>),
    Object(Seq<MemberView>),
}

/// A member of an object as a mathematical value.
pub struct MemberView {
    pub name: Seq<char>,
    pub value: JsonView,
}

impl View for JsonNumber {
    type V = NumberView;

    open spec fn view(&self) -> NumberView {
        match *self {
            JsonNumber::PosInt(value) => NumberView::PosInt(value),
            JsonNumber::NegInt(value) => NumberView::NegInt(value),
            JsonNumber::Float(number) => NumberView::Float(f64_value_key(number.spec_bits())),
        }
    }
}

/// The view of a JSON value.
pub open spec fn json_view(json: Json) -> JsonView
    decreases json,
{
    match json {
        Json::Null => JsonView::Null,
        Json::Bool(value) => JsonView::Bool(value),
        Json::Number(number) => JsonView::Number(number@),
        Json::String(text) => JsonView::String(text@),
        Json::Array(items) => JsonView::Array(
            Seq::new(
                items@.len(),
                |i: int|
                    if 0 <= i < items@.len() {
                        json_view(items@[i])
                    } else {
                        JsonView::Null
                    },
            ),
        ),
        Json::Object(members) => JsonView::Object(
            Seq::new(
                members@.len(),
                |i: int|
                    if 0 <= i < members@.len() {
                        MemberView {
                            name: members@[i].name@,
                            value: json_view(members@[i].value),
                        }
                    } else {
                        MemberView { name: Seq::empty(), value: JsonView::Null }
                    },
            ),
        ),
    }
}

impl View for Json {
    type V = JsonView;

    open spec fn view(&self) -> JsonView {
        json_view(*self)
    }
}

impl View for Member {
    type V = MemberView;

    open spec fn view(&self) -> MemberView {
        MemberView { name: self.name@, value: self.value@ }
    }
}

/// The views of a list of values.
pub open spec fn json_views(items: Seq<Json>) -> Seq<JsonView> {
    items.map_values(|item: Json| item@)
}

/// The views of a list of members.
pub open spec fn member_views(members: Seq<Member>) -> Seq<MemberView> {
    members.map_values(|member: Member| member@)
}

/// What the view of an array or an object holds.
pub proof fn lemma_json_view(json: Json)
    ensures
        json matches Json::Array(items) ==> json@ == JsonView::Array(json_views(items@)),
        json matches Json::Object(members) ==> json@ == JsonView::Object(member_views(members@)),
{
    match json {
        Json::Array(items) => {
            assert(json@->Array_0 =~= json_views(items@));
        },
        Json::Object(members) => {
            assert(json@->Object_0 =~= member_views(members@));
        },
        _ => {},
    }
}

/// The position of the first member with this name, or the number of members.
pub open spec fn member_position(members: Seq<MemberView>, name: Seq<char>) -> int
    decreases members.len(),
{
    if members.len() == 0 || members[0].name == name {
        0
    } else {
        1 + member_position(members.drop_first(), name)
    }
}

/// The member of this name; none in a value that is not an object.
pub open spec fn lookup(json: JsonView, name: Seq<char>) -> Option<JsonView> {
    match json {
        JsonView::Object(members) => {
            let position = member_position(members, name);
            if position < members.len() {
                Some(members[position].value)
            } else {
                None
            }
        },
        _ => None,
    }
}

/// Where a member stands: nothing before it has the name.
pub proof fn lemma_member_position(members: Seq<MemberView>, name: Seq<char>)
    ensures
        0 <= member_position(members, name) <= members.len(),
        member_position(members, name) < members.len() ==> members[member_position(
            members,
            name,
        )].name == name,
        forall|i: int| 0 <= i < member_position(members, name) ==> (#[trigger] members[i]).name != name,
    decreases members.len(),
{
    if members.len() > 0 && members[0].name != name {
        let rest = members.drop_first();
        lemma_member_position(rest, name);
        assert forall|i: int| 0 <= i < member_position(members, name) implies (
        #[trigger] members[i]).name != name by {
            if i > 0 {
                assert(rest[i - 1] == members[i]);
            }
        }
    }
}

/// The place of the highest bit of a number.
pub open spec fn highest_bit(value: nat) -> nat
    decreases value,
{
    if value < 2 {
        0
    } else {
        1 + highest_bit(value / 2)
    }
}

/// How many times `step` goes into a number, rounded to the nearest, to the even one of two that
/// are as near.
pub open spec fn nearest(value: nat, step: nat) -> nat {
    let whole = value / step;
    let rest = value % step;
    if 2 * rest > step || (2 * rest == step && whole % 2 == 1) {
        whole + 1
    } else {
        whole
    }
}

/// The bit pattern of the double precision number nearest to a whole number: the exponent, then
/// the 52 bits after the highest one.
pub open spec fn magnitude_as_f64(value: nat) -> nat {
    let place = highest_bit(value);
    if value == 0 {
        0
    } else if place <= 52 {
        (1022 + place) * pow2(52) + value * pow2((52 - place) as nat)
    } else {
        (1022 + place) * pow2(52) + nearest(value, pow2((place - 52) as nat))
    }
}

/// The bit pattern of the double precision number nearest to an integer.
pub open spec fn integer_as_f64(value: int) -> u64 {
    if value < 0 {
        (pow2(63) + magnitude_as_f64((-value) as nat)) as u64
    } else {
        magnitude_as_f64(value as nat) as u64
    }
}

/// Calls `serde_json::Number::from_i128` and `serde_json::Number::as_f64`, which casts an integer
/// of a JSON number to double precision. The result is the nearest such number, the even one of
/// two that are as near.
#[verifier::external_body]
fn integer_as_f64_bits(value: i128) -> (bits: u64)
    requires
        i64::MIN <= value <= u64::MAX,
    ensures
        bits == integer_as_f64(value as int),
{
    match serde_json::Number::from_i128(value).and_then(|number| number.as_f64()) {
        Some(converted) => converted.to_bits(),
        None => 0,
    }
}

/// The highest bit bounds a number from both sides.
proof fn lemma_highest_bit(value: nat)
    requires
        value > 0,
    ensures
        pow2(highest_bit(value)) <= value,
        value < pow2(highest_bit(value) + 1),
    decreases value,
{
    lemma2_to64();
    if value >= 2 {
        lemma_highest_bit(value / 2);
        let place = highest_bit(value / 2);
        lemma_pow2_unfold(place + 1);
        lemma_pow2_unfold(place + 2);
    }
}

/// A greater number has no lower highest bit.
proof fn lemma_highest_bit_grows(few: nat, many: nat)
    requires
        few <= many,
    ensures
        highest_bit(few) <= highest_bit(many),
    decreases many,
{
    if few >= 2 {
        lemma_highest_bit_grows(few / 2, many / 2);
    }
}

/// Rounding keeps the order.
proof fn lemma_nearest_grows(few: nat, many: nat, step: nat)
    requires
        few <= many,
        step > 0,
    ensures
        nearest(few, step) <= nearest(many, step),
{
    lemma_fundamental_div_mod(few as int, step as int);
    lemma_fundamental_div_mod(many as int, step as int);
    lemma_div_is_ordered(few as int, many as int, step as int);
    if few / step == many / step {
        assert(few % step <= many % step);
    }
}

/// The 53 bits that are kept, the highest one among them.
spec fn kept_bits(value: nat) -> nat {
    let place = highest_bit(value);
    if place <= 52 {
        value * pow2((52 - place) as nat)
    } else {
        nearest(value, pow2((place - 52) as nat))
    }
}

/// The bits that are kept begin with the highest one, unless rounding carries over.
proof fn lemma_kept_bits(value: nat)
    requires
        value > 0,
    ensures
        magnitude_as_f64(value) == (1022 + highest_bit(value)) * pow2(52) + kept_bits(value),
        pow2(52) <= kept_bits(value) <= 2 * pow2(52),
        highest_bit(value) <= 52 ==> kept_bits(value) < 2 * pow2(52),
{
    let place = highest_bit(value);
    lemma_highest_bit(value);
    lemma_pow2_unfold(place + 1);
    if place <= 52 {
        let step = pow2((52 - place) as nat);
        lemma_pow2_adds(place, (52 - place) as nat);
        lemma_pow2_pos((52 - place) as nat);
        let low = pow2(place);
        assert(low * step <= value * step < (2 * low) * step) by (nonlinear_arith)
            requires
                low <= value < 2 * low,
                step > 0,
        ;
        assert((2 * low) * step == 2 * (low * step)) by (nonlinear_arith);
    } else {
        let step = pow2((place - 52) as nat);
        let width = pow2(52);
        lemma_pow2_adds(52, (place - 52) as nat);
        lemma_pow2_pos((place - 52) as nat);
        lemma_fundamental_div_mod(value as int, step as int);
        let whole = value / step;
        let rest = value % step;
        assert(width <= whole < 2 * width) by (nonlinear_arith)
            requires
                width * step <= value < 2 * (width * step),
                value == step * whole + rest,
                0 <= rest < step,
        ;
    }
}

/// A greater number has no smaller bit pattern, and a greater one up to 2 to the power of 53.
proof fn lemma_magnitude_grows(few: nat, many: nat)
    requires
        few < many,
    ensures
        magnitude_as_f64(few) <= magnitude_as_f64(many),
        many <= pow2(53) ==> magnitude_as_f64(few) < magnitude_as_f64(many),
{
    let width = pow2(52);
    let high = highest_bit(many);
    lemma_pow2_pos(52);
    lemma_kept_bits(many);
    lemma_highest_bit(many);
    assert((1022 + high) * width >= 0) by (nonlinear_arith);
    if few > 0 {
        let low = highest_bit(few);
        lemma_kept_bits(few);
        lemma_highest_bit(few);
        lemma_highest_bit_grows(few, many);
        if low < high {
            assert((1022 + low) * width + width <= (1022 + high) * width) by (nonlinear_arith)
                requires
                    low < high,
            ;
            if many <= pow2(53) && low > 52 {
                if low > 53 {
                    lemma_pow2_strictly_increases(53, low);
                }
                assert(pow2(low) >= pow2(53));
            }
        } else if low <= 52 {
            let step = pow2((52 - low) as nat);
            lemma_pow2_pos((52 - low) as nat);
            assert(few * step < many * step) by (nonlinear_arith)
                requires
                    few < many,
                    step > 0,
            ;
        } else {
            lemma_pow2_pos((low - 52) as nat);
            lemma_nearest_grows(few, many, pow2((low - 52) as nat));
            if many <= pow2(53) {
                if low > 53 {
                    lemma_pow2_strictly_increases(53, low);
                }
                assert(pow2(low) >= pow2(53));
            }
        }
    }
}

/// The bit pattern of a whole number leaves the sign free.
proof fn lemma_magnitude_fits(value: nat)
    requires
        value <= u64::MAX,
    ensures
        magnitude_as_f64(value) < 0x7ff0_0000_0000_0000,
        value > 0 ==> magnitude_as_f64(value) > 0,
        pow2(63) == 0x8000_0000_0000_0000,
{
    lemma2_to64();
    lemma2_to64_rest();
    if value > 0 {
        lemma_kept_bits(value);
        lemma_highest_bit(value);
        let place = highest_bit(value);
        if place > 63 {
            if place > 64 {
                lemma_pow2_strictly_increases(64, place);
            }
            assert(pow2(place) >= pow2(64));
        }
        assert((1022 + place) * 0x10_0000_0000_0000 <= 1085 * 0x10_0000_0000_0000)
            by (nonlinear_arith)
            requires
                place <= 63,
        ;
    }
}

/// The integers of JSON numbers are converted to finite numbers.
pub proof fn lemma_integer_finite(value: int)
    requires
        i64::MIN <= value <= u64::MAX,
    ensures
        f64_finite(integer_as_f64(value)),
{
    if value < 0 {
        lemma_magnitude_fits((-value) as nat);
    } else {
        lemma_magnitude_fits(value as nat);
    }
}

/// Converting keeps the order of the integers of JSON numbers, and keeps them apart up to 2 to the
/// power of 53 on either side of zero.
pub proof fn law_integers_keep_their_order(few: int, many: int)
    requires
        i64::MIN <= few < many <= u64::MAX,
    ensures
        f64_value_key(integer_as_f64(few)) <= f64_value_key(integer_as_f64(many)),
        -pow2(53) <= few && many <= pow2(53) ==> f64_value_key(integer_as_f64(few))
            < f64_value_key(integer_as_f64(many)),
{
    let a = if few < 0 {
        (-few) as nat
    } else {
        few as nat
    };
    let b = if many < 0 {
        (-many) as nat
    } else {
        many as nat
    };
    lemma_magnitude_fits(a);
    lemma_magnitude_fits(b);
    if few >= 0 {
        lemma_magnitude_grows(a, b);
    } else if many < 0 {
        lemma_magnitude_grows(b, a);
    }
}

/// The value of a number in double precision, as a key that orders such numbers.
pub open spec fn number_key(number: NumberView) -> int {
    match number {
        NumberView::PosInt(value) => f64_value_key(integer_as_f64(value as int)),
        NumberView::NegInt(value) => f64_value_key(integer_as_f64(value as int)),
        NumberView::Float(key) => key,
    }
}

impl JsonNumber {
    /// The number in double precision.
    pub fn as_f64(&self) -> (bits: u64)
        ensures
            f64_finite(bits),
            f64_value_key(bits) == number_key(self@),
            match *self {
                JsonNumber::PosInt(value) => bits == integer_as_f64(value as int),
                JsonNumber::NegInt(value) => bits == integer_as_f64(value as int),
                JsonNumber::Float(number) => bits == number.spec_bits(),
            },
    {
        match *self {
            JsonNumber::PosInt(value) => {
                proof {
                    lemma_integer_finite(value as int);
                }
                integer_as_f64_bits(value as i128)
            },
            JsonNumber::NegInt(value) => {
                proof {
                    lemma_integer_finite(value as int);
                }
                integer_as_f64_bits(value as i128)
            },
            JsonNumber::Float(number) => number.bits(),
        }
    }
}

impl Json {
    /// Whether both values are equal.
    pub fn same(&self, other: &Json) -> (result: bool)
        ensures
            result == (self@ == other@),
        decreases *self,
    {
        proof {
            lemma_json_view(*self);
            lemma_json_view(*other);
        }
        match (self, other) {
            (Json::Null, Json::Null) => true,
            (Json::Bool(left), Json::Bool(right)) => *left == *right,
            (Json::Number(left), Json::Number(right)) => match (left, right) {
                (JsonNumber::PosInt(a), JsonNumber::PosInt(b)) => *a == *b,
                (JsonNumber::NegInt(a), JsonNumber::NegInt(b)) => *a == *b,
                (JsonNumber::Float(a), JsonNumber::Float(b)) => f64_equal(a.bits(), b.bits()),
                _ => false,
            },
            (Json::String(left), Json::String(right)) => same_text(left.as_str(), right.as_str()),
            (Json::Array(left), Json::Array(right)) => {
                if left.len() != right.len() {
                    assert(json_views(left@).len() != json_views(right@).len());
                    return false;
                }
                let mut i: usize = 0;
                while i < left.len()
                    invariant
                        i <= left@.len(),
                        left@.len() == right@.len(),
                        *self == Json::Array(*left),
                        *other == Json::Array(*right),
                        self@ == JsonView::Array(json_views(left@)),
                        other@ == JsonView::Array(json_views(right@)),
                        forall|j: int| 0 <= j < i ==> (#[trigger] left@[j])@ == right@[j]@,
                    decreases left@.len() - i,
                {
                    if !left[i].same(&right[i]) {
                        assert(json_views(left@)[i as int] != json_views(right@)[i as int]);
                        return false;
                    }
                    i += 1;
                }
                assert(json_views(left@) =~= json_views(right@));
                true
            },
            (Json::Object(left), Json::Object(right)) => {
                let (left, right) = (&left.members, &right.members);
                if left.len() != right.len() {
                    assert(member_views(left@).len() != member_views(right@).len());
                    return false;
                }
                let mut i: usize = 0;
                while i < left.len()
                    invariant
                        i <= left@.len(),
                        left@.len() == right@.len(),
                        *self matches Json::Object(one) && one.members == *left,
                        *other matches Json::Object(two) && two.members == *right,
                        self@ == JsonView::Object(member_views(left@)),
                        other@ == JsonView::Object(member_views(right@)),
                        forall|j: int| 0 <= j < i ==> (#[trigger] left@[j])@ == right@[j]@,
                    decreases left@.len() - i,
                {
                    if !same_text(left[i].name.as_str(), right[i].name.as_str())
                        || !left[i].value.same(&right[i].value) {
                        assert(member_views(left@)[i as int] != member_views(right@)[i as int]);
                        return false;
                    }
                    i += 1;
                }
                assert(member_views(left@) =~= member_views(right@));
                true
            },
            _ => false,
        }
    }

    /// The member of this name, if the value is an object that has one.
    pub fn get(&self, name: &str) -> (result: Option<&Json>)
        ensures
            match result {
                Some(value) => lookup(self@, name@) == Some(value@),
                None => lookup(self@, name@) is None,
            },
    {
        proof {
            lemma_json_view(*self);
        }
        match self {
            Json::Object(object) => {
                let members = &object.members;
                let ghost views = member_views(members@);
                proof {
                    lemma_member_position(views, name@);
                }
                let mut i: usize = 0;
                while i < members.len()
                    invariant
                        i <= members@.len(),
                        views == member_views(members@),
                        *self == Json::Object(*object),
                        object.members == *members,
                        self@ == JsonView::Object(views),
                        i <= member_position(views, name@) <= views.len(),
                        member_position(views, name@) < views.len() ==> views[member_position(
                            views,
                            name@,
                        )].name == name@,
                        forall|j: int|
                            0 <= j < member_position(views, name@) ==> (#[trigger] views[j]).name
                                != name@,
                    decreases members@.len() - i,
                {
                    assert(views[i as int] == members@[i as int]@);
                    if same_text(members[i].name.as_str(), name) {
                        return Some(&members[i].value);
                    }
                    i += 1;
                }
                None
            },
            _ => None,
        }
    }

    /// A value with the same contents.
    pub fn duplicate(&self) -> (result: Json)
        ensures
            result@ == self@,
        decreases *self,
    {
        proof {
            lemma_json_view(*self);
        }
        match self {
            Json::Null => Json::Null,
            Json::Bool(value) => Json::Bool(*value),
            Json::Number(number) => Json::Number(*number),
            Json::String(text) => Json::String(text.clone()),
            Json::Array(items) => {
                let mut copies: Vec<Json> = Vec::new();
                let mut i: usize = 0;
                while i < items.len()
                    invariant
                        i <= items@.len(),
                        *self == Json::Array(*items),
                        copies@.len() == i,
                        forall|j: int| 0 <= j < i ==> (#[trigger] copies@[j])@ == items@[j]@,
                    decreases items@.len() - i,
                {
                    assert(self->Array_0 == *items);
                    let copy = items[i].duplicate();
                    copies.push(copy);
                    i += 1;
                }
                let result = Json::Array(copies);
                proof {
                    lemma_json_view(result);
                    assert(json_views(copies@) =~= json_views(items@));
                }
                result
            },
            Json::Object(object) => {
                let members = &object.members;
                let mut copies: Vec<Member> = Vec::new();
                let mut i: usize = 0;
                while i < members.len()
                    invariant
                        i <= members@.len(),
                        *self == Json::Object(*object),
                        object.members == *members,
                        copies@.len() == i,
                        forall|j: int| 0 <= j < i ==> (#[trigger] copies@[j])@ == members@[j]@,
                    decreases members@.len() - i,
                {
                    let member = &members[i];
                    assert(self->Object_0 == *object);
                    assert(decreases_to!(*self => *object));
                    assert(decreases_to!(*object => object.members));
                    assert(decreases_to!(*members => members@));
                    assert(decreases_to!(members@ => *member));
                    let copy = member.value.duplicate();
                    copies.push(Member { name: member.name.clone(), value: copy });
                    i += 1;
                }
                proof {
                    use_type_invariant(object);
                    assert(member_views(copies@) =~= member_views(members@));
                }
                let result = Json::Object(Object { members: copies });
                proof {
                    lemma_json_view(result);
                }
                result
            },
        }
    }
}

/// The last value that a list of members gives a name.
pub open spec fn last_value(members: Seq<MemberView>, name: Seq<char>) -> Option<JsonView>
    decreases members.len(),
{
    if members.len() == 0 {
        None
    } else if members.last().name == name {
        Some(members.last().value)
    } else {
        last_value(members.drop_last(), name)
    }
}

/// Whether the names of members are in ascending order, each once.
pub open spec fn names_ascend(members: Seq<MemberView>) -> bool {
    forall|i: int, j: int|
        0 <= i < j < members.len() ==> text_before(
            (#[trigger] members[i]).name,
            (#[trigger] members[j]).name,
        )
}

/// In ascending order, the member of a name is where the name stands.
proof fn lemma_lookup(members: Seq<MemberView>, name: Seq<char>, at: int)
    requires
        names_ascend(members),
        0 <= at < members.len(),
        members[at].name == name,
    ensures
        lookup(JsonView::Object(members), name) == Some(members[at].value),
{
    lemma_member_position(members, name);
    let position = member_position(members, name);
    if position < at {
        assert(text_before(members[position].name, members[at].name));
        law_text_order_irreflexive(name);
    } else if at < position {
        assert(members[at].name != name);
    }
}

/// A name that no member has is not found.
proof fn lemma_lookup_none(members: Seq<MemberView>, name: Seq<char>)
    requires
        forall|i: int| 0 <= i < members.len() ==> (#[trigger] members[i]).name != name,
    ensures
        lookup(JsonView::Object(members), name) is None,
{
    lemma_member_position(members, name);
}

/// Sets a member of a list in ascending order.
pub(crate) fn set_member(members: &mut Vec<Member>, member: Member)
    requires
        names_ascend(member_views(old(members)@)),
    ensures
        names_ascend(member_views(final(members)@)),
        forall|name: Seq<char>| #[trigger]
            lookup(JsonView::Object(member_views(final(members)@)), name) == if name
                == member.name@ {
                Some(member.value@)
            } else {
                lookup(JsonView::Object(member_views(old(members)@)), name)
            },
{
    let ghost before = member_views(members@);
    let ghost new = member@;
    let mut at: usize = 0;
    while at < members.len() && text_less(members[at].name.as_str(), member.name.as_str())
        invariant
            at <= members@.len(),
            before == member_views(members@),
            forall|i: int| 0 <= i < at ==> text_before((#[trigger] before[i]).name, member.name@),
        decreases members@.len() - at,
    {
        assert(before[at as int] == members@[at as int]@);
        at += 1;
    }
    if at < members.len() && same_text(members[at].name.as_str(), member.name.as_str()) {
        assert(before[at as int] == members@[at as int]@);
        members.set(at, member);
        proof {
            let after = member_views(members@);
            assert(after =~= before.update(at as int, new));
            assert forall|i: int, j: int| 0 <= i < j < after.len() implies text_before(
                (#[trigger] after[i]).name,
                (#[trigger] after[j]).name,
            ) by {
                assert(text_before(before[i].name, before[j].name));
            }
            assert forall|name: Seq<char>| #[trigger]
                lookup(JsonView::Object(after), name) == if name == new.name {
                Some(new.value)
            } else {
                lookup(JsonView::Object(before), name)
            } by {
                lemma_same_lookup(before, after, name, at as int, new);
            }
        }
    } else {
        proof {
            if at < members@.len() {
                assert(before[at as int] == members@[at as int]@);
                law_text_order_total(before[at as int].name, member.name@);
            }
        }
        members.insert(at, member);
        proof {
            let after = member_views(members@);
            assert(after =~= before.insert(at as int, new));
            assert forall|i: int| at <= i < before.len() implies text_before(
                new.name,
                (#[trigger] before[i]).name,
            ) by {
                if i > at {
                    assert(text_before(before[at as int].name, before[i].name));
                    law_text_order_transitive(new.name, before[at as int].name, before[i].name);
                }
            }
            lemma_inserted(before, after, at as int, new);
        }
    }
}

/// A member that takes the place of one with the same name.
proof fn lemma_same_lookup(
    before: Seq<MemberView>,
    after: Seq<MemberView>,
    name: Seq<char>,
    at: int,
    new: MemberView,
)
    requires
        0 <= at < before.len(),
        before[at].name == new.name,
        after == before.update(at, new),
        names_ascend(before),
        names_ascend(after),
    ensures
        lookup(JsonView::Object(after), name) == if name == new.name {
            Some(new.value)
        } else {
            lookup(JsonView::Object(before), name)
        },
{
    if name == new.name {
        lemma_lookup(after, name, at);
    } else {
        lemma_member_position(before, name);
        let position = member_position(before, name);
        if position < before.len() {
            assert(after[position] == before[position]);
            lemma_lookup(before, name, position);
            lemma_lookup(after, name, position);
        } else {
            assert forall|i: int| 0 <= i < after.len() implies (#[trigger] after[i]).name
                != name by {
                assert(before[i].name != name);
            }
            lemma_lookup_none(after, name);
        }
    }
}

/// A new member put where its name belongs.
proof fn lemma_inserted(
    before: Seq<MemberView>,
    after: Seq<MemberView>,
    at: int,
    new: MemberView,
)
    requires
        0 <= at <= before.len(),
        after == before.insert(at, new),
        names_ascend(before),
        forall|i: int| 0 <= i < at ==> text_before((#[trigger] before[i]).name, new.name),
        forall|i: int| at <= i < before.len() ==> text_before(new.name, (#[trigger] before[i]).name),
    ensures
        names_ascend(after),
        forall|name: Seq<char>| #[trigger]
            lookup(JsonView::Object(after), name) == if name == new.name {
                Some(new.value)
            } else {
                lookup(JsonView::Object(before), name)
            },
{
    assert forall|i: int, j: int| 0 <= i < j < after.len() implies text_before(
        (#[trigger] after[i]).name,
        (#[trigger] after[j]).name,
    ) by {
        let x = if i < at {
            i
        } else {
            i - 1
        };
        let y = if j < at {
            j
        } else {
            j - 1
        };
        if i == at {
            assert(after[j] == before[y]);
        } else if j == at {
            assert(after[i] == before[x]);
        } else {
            assert(text_before(before[x].name, before[y].name));
        }
    }
    assert forall|name: Seq<char>| #[trigger]
        lookup(JsonView::Object(after), name) == if name == new.name {
        Some(new.value)
    } else {
        lookup(JsonView::Object(before), name)
    } by {
        if name == new.name {
            assert(after[at] == new);
            lemma_lookup(after, name, at);
        } else {
            lemma_member_position(before, name);
            let position = member_position(before, name);
            if position < before.len() {
                let moved = if position < at {
                    position
                } else {
                    position + 1
                };
                assert(after[moved] == before[position]);
                lemma_lookup(before, name, position);
                lemma_lookup(after, name, moved);
            } else {
                assert forall|i: int| 0 <= i < after.len() implies (#[trigger] after[i]).name
                    != name by {
                    if i < at {
                        assert(before[i].name != name);
                    } else if i > at {
                        assert(before[i - 1].name != name);
                    }
                }
                lemma_lookup_none(after, name);
            }
        }
    }
}

/// Takes the member of a name out of a list in ascending order.
pub(crate) fn remove_member(members: &mut Vec<Member>, name: &str)
    requires
        names_ascend(member_views(old(members)@)),
    ensures
        names_ascend(member_views(final(members)@)),
        forall|other: Seq<char>| #[trigger]
            lookup(JsonView::Object(member_views(final(members)@)), other) == if other == name@ {
                None
            } else {
                lookup(JsonView::Object(member_views(old(members)@)), other)
            },
{
    let ghost before = member_views(members@);
    let mut at: usize = 0;
    while at < members.len() && !same_text(members[at].name.as_str(), name)
        invariant
            at <= members@.len(),
            before == member_views(members@),
            forall|i: int| 0 <= i < at ==> (#[trigger] before[i]).name != name@,
        decreases members@.len() - at,
    {
        assert(before[at as int] == members@[at as int]@);
        at += 1;
    }
    if at < members.len() {
        assert(before[at as int] == members@[at as int]@);
        let _ = members.remove(at);
        proof {
            let after = member_views(members@);
            assert(after =~= before.remove(at as int));
            lemma_removed(before, after, at as int);
        }
    } else {
        assert(lookup(JsonView::Object(before), name@) is None) by {
            lemma_lookup_none(before, name@);
        }
    }
}

/// A member that is taken out.
proof fn lemma_removed(before: Seq<MemberView>, after: Seq<MemberView>, at: int)
    requires
        0 <= at < before.len(),
        after == before.remove(at),
        names_ascend(before),
    ensures
        names_ascend(after),
        forall|name: Seq<char>| #[trigger]
            lookup(JsonView::Object(after), name) == if name == before[at].name {
                None
            } else {
                lookup(JsonView::Object(before), name)
            },
{
    assert forall|i: int, j: int| 0 <= i < j < after.len() implies text_before(
        (#[trigger] after[i]).name,
        (#[trigger] after[j]).name,
    ) by {
        let x = if i < at {
            i
        } else {
            i + 1
        };
        let y = if j < at {
            j
        } else {
            j + 1
        };
        assert(text_before(before[x].name, before[y].name));
    }
    assert forall|name: Seq<char>| #[trigger]
        lookup(JsonView::Object(after), name) == if name == before[at].name {
        None
    } else {
        lookup(JsonView::Object(before), name)
    } by {
        lemma_member_position(before, name);
        let position = member_position(before, name);
        if name == before[at].name {
            assert forall|i: int| 0 <= i < after.len() implies (#[trigger] after[i]).name
                != name by {
                law_text_order_irreflexive(name);
                if i < at {
                    assert(text_before(before[i].name, before[at].name));
                } else {
                    assert(text_before(before[at].name, before[i + 1].name));
                }
            }
            lemma_lookup_none(after, name);
        } else if position < before.len() {
            let moved = if position < at {
                position
            } else {
                position - 1
            };
            assert(after[moved] == before[position]);
            lemma_lookup(after, name, moved);
        } else {
            assert forall|i: int| 0 <= i < after.len() implies (#[trigger] after[i]).name
                != name by {
                if i < at {
                    assert(before[i].name != name);
                } else {
                    assert(before[i + 1].name != name);
                }
            }
            lemma_lookup_none(after, name);
        }
    }
}

/// An object is what its members look up to: in ascending order there is one way to list them, so
/// two objects with the same members are equal, in whatever order they were given.
pub proof fn law_object_is_its_members(a: Seq<MemberView>, b: Seq<MemberView>)
    requires
        names_ascend(a),
        names_ascend(b),
        forall|name: Seq<char>| #[trigger]
            lookup(JsonView::Object(a), name) == lookup(JsonView::Object(b), name),
    ensures
        a == b,
    decreases a.len(),
{
    if a.len() == 0 {
        if b.len() > 0 {
            lemma_lookup(b, b[0].name, 0);
            lemma_lookup_none(a, b[0].name);
        }
        assert(a =~= b);
    } else {
        let x = a[0];
        lemma_lookup(a, x.name, 0);
        lemma_member_position(b, x.name);
        let j = member_position(b, x.name);
        assert(j < b.len());
        let y = b[0];
        lemma_lookup(b, y.name, 0);
        assert(lookup(JsonView::Object(a), y.name) == lookup(JsonView::Object(b), y.name));
        lemma_member_position(a, y.name);
        let i = member_position(a, y.name);
        assert(i < a.len());
        if j > 0 && i > 0 {
            assert(text_before(b[0].name, b[j].name));
            assert(text_before(a[0].name, a[i].name));
            law_text_order_transitive(x.name, y.name, x.name);
            law_text_order_irreflexive(x.name);
        }
        if j == 0 {
            assert(x.name == y.name);
        } else {
            assert(i == 0);
            assert(x.name == y.name);
        }
        assert(x == y);
        let rest = a.remove(0);
        let others = b.remove(0);
        lemma_removed(a, rest, 0);
        lemma_removed(b, others, 0);
        assert forall|name: Seq<char>| #[trigger]
            lookup(JsonView::Object(rest), name) == lookup(JsonView::Object(others), name) by {
            assert(lookup(JsonView::Object(a), name) == lookup(JsonView::Object(b), name));
        }
        law_object_is_its_members(rest, others);
        assert(a =~= seq![x] + rest);
        assert(b =~= seq![y] + others);
    }
}

impl Json {
    /// An object with these members, in ascending order of their names. Where a name is given
    /// more than once, the last value counts.
    pub fn object(members: Vec<Member>) -> (result: Json)
        ensures
            result@ matches JsonView::Object(listed) && names_ascend(listed),
            forall|name: Seq<char>| #[trigger]
                lookup(result@, name) == last_value(member_views(members@), name),
    {
        let ghost given = member_views(members@);
        let mut listed: Vec<Member> = Vec::new();
        proof {
            assert(member_views(listed@) =~= Seq::<MemberView>::empty());
            assert(given.take(0) =~= Seq::<MemberView>::empty());
        }
        for member in iter: members
            invariant
                given == member_views(iter.seq()),
                names_ascend(member_views(listed@)),
                forall|name: Seq<char>| #[trigger]
                    lookup(JsonView::Object(member_views(listed@)), name) == last_value(
                        given.take(iter.index()),
                        name,
                    ),
        {
            let ghost before = member_views(listed@);
            let ghost few = given.take(iter.index());
            let ghost view = member@;
            assert(given[iter.index()] == view);
            set_member(&mut listed, member);
            proof {
                let more = given.take(iter.index() + 1);
                assert(more.drop_last() =~= few);
                assert forall|name: Seq<char>| #[trigger]
                    lookup(JsonView::Object(member_views(listed@)), name) == last_value(
                    more,
                    name,
                ) by {
                    assert(lookup(JsonView::Object(before), name) == last_value(few, name));
                }
            }
        }
        let result = Json::Object(Object { members: listed });
        proof {
            lemma_json_view(result);
            assert(given.take(given.len() as int) =~= given);
        }
        result
    }
}

} // verus!
