//! Transactions and query rows as JSON.
use vstd::prelude::*;

use crate::bindings::options::{is_safe, parse_count, safe_integer, Parse};
use crate::json::{
    json_views, last_value, lemma_json_view, lookup, member_views, number_key, Json, JsonNumber,
    JsonView, Member, MemberView,
};
use crate::node::{NodeId, Payload, PayloadView};
use crate::number::{f64_finite, f64_value_key};
use crate::text::{decimal, join, same_text, to_decimal};

verus! {

/// An operation of a transaction that a caller asked for. Weights are single precision bit
/// patterns.
#[derive(Debug)]
pub enum TxRequest<T> {
    Insert { vector: Vec<T>, payload: Payload },
    InsertWithId { id: NodeId, vector: Vec<T>, payload: Payload },
    Delete { id: NodeId },
    UpdatePayload { id: NodeId, payload: Payload },
    UpdateVector { id: NodeId, vector: Vec<T> },
    UpsertEdge { src: NodeId, dst: NodeId, label: String, weight: u32, metadata: Payload },
    Unlink { src: NodeId, dst: NodeId },
    UnlinkLabel { src: NodeId, dst: NodeId, label: String },
}

/// The kinds of operations.
#[derive(Debug, Clone, Copy, PartialEq, Eq, Structural)]
pub enum RequestKind {
    Insert,
    InsertWithId,
    Delete,
    UpdatePayload,
    UpdateVector,
    UpsertEdge,
    Unlink,
    UnlinkLabel,
}

/// The kind of operation of this name.
pub open spec fn spec_kind(name: Seq<char>) -> Option<RequestKind> {
    if name == "insert"@ {
        Some(RequestKind::Insert)
    } else if name == "insertWithId"@ {
        Some(RequestKind::InsertWithId)
    } else if name == "delete"@ {
        Some(RequestKind::Delete)
    } else if name == "updatePayload"@ {
        Some(RequestKind::UpdatePayload)
    } else if name == "updateVector"@ {
        Some(RequestKind::UpdateVector)
    } else if name == "upsertEdge"@ || name == "link"@ {
        Some(RequestKind::UpsertEdge)
    } else if name == "unlink"@ {
        Some(RequestKind::Unlink)
    } else if name == "unlinkLabel"@ {
        Some(RequestKind::UnlinkLabel)
    } else {
        None
    }
}

/// The kind of operation of this name.
fn find_kind(name: &str) -> (kind: Option<RequestKind>)
    ensures
        kind == spec_kind(name@),
{
    if same_text(name, "insert") {
        Some(RequestKind::Insert)
    } else if same_text(name, "insertWithId") {
        Some(RequestKind::InsertWithId)
    } else if same_text(name, "delete") {
        Some(RequestKind::Delete)
    } else if same_text(name, "updatePayload") {
        Some(RequestKind::UpdatePayload)
    } else if same_text(name, "updateVector") {
        Some(RequestKind::UpdateVector)
    } else if same_text(name, "upsertEdge") || same_text(name, "link") {
        Some(RequestKind::UpsertEdge)
    } else if same_text(name, "unlink") {
        Some(RequestKind::Unlink)
    } else if same_text(name, "unlinkLabel") {
        Some(RequestKind::UnlinkLabel)
    } else {
        None
    }
}

/// Whether `bits` encodes a JSON number in double precision.
pub open spec fn is_number(value: JsonView, bits: u64) -> bool {
    value matches JsonView::Number(number) && f64_finite(bits) && f64_value_key(bits) == number_key(
        number,
    )
}

/// Whether a JSON number stands for a whole number that can be held exactly.
pub open spec fn is_id(value: JsonView, id: usize) -> bool {
    exists|bits: u64| #[trigger] is_number(value, bits) && is_safe(bits, id)
}

/// The identifier that a member holds.
pub open spec fn member_id(op: JsonView, name: Seq<char>) -> Option<usize> {
    match lookup(op, name) {
        Some(value) => if exists|id: usize| #[trigger] is_id(value, id) {
            Some(choose|id: usize| #[trigger] is_id(value, id))
        } else {
            None
        },
        None => None,
    }
}

/// Why a member is no identifier.
pub open spec fn id_fault(op: JsonView, name: Seq<char>) -> Option<Seq<char>> {
    match lookup(op, name) {
        Some(JsonView::Number(_)) => if member_id(op, name) is None {
            Some(name + " 必须是 JavaScript 安全范围内的非负整数"@)
        } else {
            None
        },
        _ => Some("事务操作缺少 "@ + name),
    }
}

/// Two encodings of the same JSON number stand for the same whole number.
proof fn lemma_same_integer(a: u64, b: u64, x: usize, y: usize)
    requires
        f64_finite(a),
        f64_finite(b),
        f64_value_key(a) == f64_value_key(b),
        is_safe(a, x),
        is_safe(b, y),
    ensures
        x == y,
{
    if a == b {
        crate::bindings::integers::law_encoding_is_unique(a, x as nat, y as nat);
    } else {
        crate::bindings::integers::lemma_zero_encoding(a, b, x as nat, y as nat);
    }
}

/// Two encodings of the same JSON number are both whole numbers or neither.
proof fn lemma_same_safety(a: u64, b: u64, x: usize)
    requires
        f64_finite(a),
        f64_finite(b),
        f64_value_key(a) == f64_value_key(b),
        is_safe(a, x),
    ensures
        is_safe(b, x),
{
    if a != b {
        crate::bindings::integers::lemma_zero_safety(a, b, x as nat);
    }
}

/// Reads an identifier.
fn read_id(op: &Json, name: &str) -> (result: Parse<NodeId>)
    ensures
        match result {
            Ok(id) => id_fault(op@, name@) is None && member_id(op@, name@) == Some(id as usize)
                && id <= usize::MAX,
            Err(message) => id_fault(op@, name@) == Some(message@),
        },
{
    match op.get(name) {
        Some(Json::Number(number)) => {
            let bits: u64 = number.as_f64();
            let ghost value = lookup(op@, name@)->0;
            assert(is_number(value, bits));
            match parse_count(Some(bits), name, 0) {
                Ok(id) => {
                    proof {
                        assert(is_safe(bits, id)) by {
                            assert(safe_integer(bits) == Some(id));
                        }
                        assert(is_id(value, id));
                        let known = choose|known: usize| #[trigger] is_id(value, known);
                        let other = choose|other: u64| #[trigger]
                            is_number(value, other) && is_safe(other, known);
                        lemma_same_integer(bits, other, id, known);
                    }
                    Ok(id as NodeId)
                },
                Err(message) => {
                    proof {
                        if member_id(op@, name@) is Some {
                            let known = choose|known: usize| #[trigger] is_id(value, known);
                            let other = choose|other: u64| #[trigger]
                                is_number(value, other) && is_safe(other, known);
                            lemma_same_safety(other, bits, known);
                            assert(is_safe(bits, known));
                        }
                    }
                    Err(message)
                },
            }
        },
        _ => Err(join("事务操作缺少 ", name)),
    }
}

/// Why a member is no vector.
pub open spec fn vector_fault(op: JsonView) -> Option<Seq<char>> {
    match lookup(op, "vector"@) {
        Some(JsonView::Array(items)) => if exists|i: int|
            0 <= i < items.len() && !(#[trigger] items[i] is Number) {
            Some("vector 必须是数字数组"@)
        } else {
            None
        },
        _ => Some("事务操作缺少 vector"@),
    }
}

/// Whether a vector has the components that a member lists.
pub open spec fn is_vector<T, C: Fn(u64) -> T>(op: JsonView, convert: C, vector: Seq<T>) -> bool {
    lookup(op, "vector"@) matches Some(JsonView::Array(items)) && items.len() == vector.len()
        && forall|i: int|
        0 <= i < items.len() ==> is_component(convert, items[i], #[trigger] vector[i])
}

/// Whether `convert` may give a component for a JSON number.
pub open spec fn is_component<T, C: Fn(u64) -> T>(convert: C, item: JsonView, component: T) -> bool {
    exists|bits: u64| #[trigger]
        is_number(item, bits) && call_ensures(convert, (bits,), component)
}

/// Reads a vector.
fn read_vector<T, C: Fn(u64) -> T>(op: &Json, convert: &C) -> (result: Parse<Vec<T>>)
    requires
        forall|bits: u64| call_requires(*convert, (bits,)),
    ensures
        match result {
            Ok(vector) => vector_fault(op@) is None && is_vector(op@, *convert, vector@),
            Err(message) => vector_fault(op@) == Some(message@),
        },
{
    let field = op.get("vector");
    match field {
        Some(value) => match value {
            Json::Array(items) => {
                proof {
                    lemma_json_view(*value);
                }
                let ghost views = json_views(items@);
                let mut vector: Vec<T> = Vec::new();
                let mut i: usize = 0;
                while i < items.len()
                    invariant
                        forall|bits: u64| call_requires(*convert, (bits,)),
                        views == json_views(items@),
                        lookup(op@, "vector"@) == Some(JsonView::Array(views)),
                        i <= items@.len(),
                        vector@.len() == i,
                        forall|k: int| 0 <= k < i ==> (#[trigger] views[k]) is Number,
                        forall|k: int|
                            0 <= k < i ==> is_component(*convert, views[k], #[trigger] vector@[k]),
                    decreases items@.len() - i,
                {
                    assert(views[i as int] == items@[i as int]@);
                    match &items[i] {
                        Json::Number(number) => {
                            let bits: u64 = number.as_f64();
                            let component: T = convert(bits);
                            let ghost held = vector@;
                            vector.push(component);
                            proof {
                                assert(is_number(views[i as int], bits));
                                assert(is_component(*convert, views[i as int], component));
                                assert forall|k: int| 0 <= k < i + 1 implies is_component(
                                    *convert,
                                    views[k],
                                    #[trigger] vector@[k],
                                ) by {
                                    if k < i {
                                        assert(vector@[k] == held[k]);
                                    }
                                }
                            }
                        },
                        _ => {
                            assert(!(views[i as int] is Number));
                            return Err("vector 必须是数字数组".to_owned());
                        },
                    }
                    i += 1;
                }
                Ok(vector)
            },
            _ => Err("事务操作缺少 vector".to_owned()),
        },
        None => Err("事务操作缺少 vector".to_owned()),
    }
}

/// A member, or `null`.
pub open spec fn member_or_null(op: JsonView, name: Seq<char>) -> JsonView {
    match lookup(op, name) {
        Some(value) => value,
        None => JsonView::Null,
    }
}

/// Whether a payload holds a value and `encode` may give its text.
pub open spec fn is_encoded<E: Fn(&Json) -> String>(
    encode: E,
    value: JsonView,
    payload: PayloadView,
) -> bool {
    payload.value == value && exists|json: Json, text: String|
        json@ == value && #[trigger] call_ensures(encode, (&json,), text) && payload.text == text@
}

/// Reads a payload.
fn read_payload<E: Fn(&Json) -> String>(op: &Json, name: &str, encode: &E) -> (payload: Payload)
    requires
        forall|json: &Json| call_requires(*encode, (json,)),
    ensures
        is_encoded(*encode, member_or_null(op@, name@), payload@),
{
    let value = match op.get(name) {
        Some(value) => value.duplicate(),
        None => Json::Null,
    };
    let text: String = encode(&value);
    assert(call_ensures(*encode, (&value,), text));
    Payload { text, value }
}

/// Why an operation is refused: the first fault in the order in which it is read.
pub open spec fn request_fault(op: JsonView) -> Option<Seq<char>> {
    match lookup(op, "type"@) {
        Some(JsonView::String(name)) => match spec_kind(name) {
            None => Some("不支持的事务操作类型: "@ + name),
            Some(RequestKind::Insert) => vector_fault(op),
            Some(RequestKind::InsertWithId) => first_fault(id_fault(op, "id"@), vector_fault(op)),
            Some(RequestKind::Delete) => id_fault(op, "id"@),
            Some(RequestKind::UpdatePayload) => id_fault(op, "id"@),
            Some(RequestKind::UpdateVector) => first_fault(id_fault(op, "id"@), vector_fault(op)),
            Some(RequestKind::UpsertEdge) => first_fault(
                id_fault(op, "src"@),
                id_fault(op, "dst"@),
            ),
            Some(RequestKind::Unlink) => first_fault(id_fault(op, "src"@), id_fault(op, "dst"@)),
            Some(RequestKind::UnlinkLabel) => first_fault(
                first_fault(id_fault(op, "src"@), id_fault(op, "dst"@)),
                if lookup(op, "label"@) matches Some(JsonView::String(_)) {
                    None
                } else {
                    Some("事务操作缺少 label"@)
                },
            ),
        },
        _ => Some("事务操作缺少 type"@),
    }
}

/// The first of two faults.
pub open spec fn first_fault(a: Option<Seq<char>>, b: Option<Seq<char>>) -> Option<Seq<char>> {
    if a is Some {
        a
    } else {
        b
    }
}

/// The label that a member holds, or the usual one.
pub open spec fn label_or_related(op: JsonView) -> Seq<char> {
    match lookup(op, "label"@) {
        Some(JsonView::String(text)) => text,
        _ => "related"@,
    }
}

/// Whether a request is what an operation asks for.
pub open spec fn is_request<
    T,
    C: Fn(u64) -> T,
    E: Fn(&Json) -> String,
    N: Fn(u64) -> u32,
>(op: JsonView, convert: C, encode: E, narrow: N, request: TxRequest<T>) -> bool {
    lookup(op, "type"@) matches Some(JsonView::String(name)) && match (spec_kind(name), request) {
        (Some(RequestKind::Insert), TxRequest::Insert { vector, payload }) => is_vector(
            op,
            convert,
            vector@,
        ) && is_encoded(encode, member_or_null(op, "payload"@), payload@),
        (
            Some(RequestKind::InsertWithId),
            TxRequest::InsertWithId { id, vector, payload },
        ) => member_id(op, "id"@) == Some(id as usize) && is_vector(op, convert, vector@)
            && is_encoded(encode, member_or_null(op, "payload"@), payload@),
        (Some(RequestKind::Delete), TxRequest::Delete { id }) => member_id(op, "id"@) == Some(
            id as usize,
        ),
        (
            Some(RequestKind::UpdatePayload),
            TxRequest::UpdatePayload { id, payload },
        ) => member_id(op, "id"@) == Some(id as usize) && is_encoded(
            encode,
            member_or_null(op, "payload"@),
            payload@,
        ),
        (
            Some(RequestKind::UpdateVector),
            TxRequest::UpdateVector { id, vector },
        ) => member_id(op, "id"@) == Some(id as usize) && is_vector(op, convert, vector@),
        (
            Some(RequestKind::UpsertEdge),
            TxRequest::UpsertEdge { src, dst, label, weight, metadata },
        ) => {
            &&& member_id(op, "src"@) == Some(src as usize)
            &&& member_id(op, "dst"@) == Some(dst as usize)
            &&& label@ == label_or_related(op)
            &&& is_weight_of(op, narrow, weight)
            &&& is_encoded(encode, member_or_null(op, "metadata"@), metadata@)
        },
        (Some(RequestKind::Unlink), TxRequest::Unlink { src, dst }) => member_id(op, "src"@)
            == Some(src as usize) && member_id(op, "dst"@) == Some(dst as usize),
        (
            Some(RequestKind::UnlinkLabel),
            TxRequest::UnlinkLabel { src, dst, label },
        ) => member_id(op, "src"@) == Some(src as usize) && member_id(op, "dst"@) == Some(
            dst as usize,
        ) && lookup(op, "label"@) == Some(JsonView::String(label@)),
        _ => false,
    }
}

/// Whether `narrow` may give a weight for the number that a member holds; without one it is 1.
pub open spec fn is_weight_of<N: Fn(u64) -> u32>(op: JsonView, narrow: N, weight: u32) -> bool {
    match lookup(op, "weight"@) {
        Some(JsonView::Number(number)) => exists|bits: u64| #[trigger]
            is_number(JsonView::Number(number), bits) && call_ensures(narrow, (bits,), weight),
        _ => weight == 0x3f80_0000u32,
    }
}

/// Reads a weight.
fn read_weight<N: Fn(u64) -> u32>(op: &Json, narrow: &N) -> (weight: u32)
    requires
        forall|bits: u64| call_requires(*narrow, (bits,)),
    ensures
        is_weight_of(op@, *narrow, weight),
{
    match op.get("weight") {
        Some(Json::Number(number)) => {
            let bits: u64 = number.as_f64();
            let weight: u32 = narrow(bits);
            assert(is_number(lookup(op@, "weight"@)->0, bits));
            weight
        },
        _ => 0x3f80_0000,
    }
}

/// Reads an operation of a transaction. `convert` makes a component of a number, `encode` gives
/// the text of a value, `narrow` makes a number single precision.
pub fn parse_operation<
    T,
    C: Fn(u64) -> T,
    E: Fn(&Json) -> String,
    N: Fn(u64) -> u32,
>(op: &Json, convert: &C, encode: &E, narrow: &N) -> (result: Parse<TxRequest<T>>)
    requires
        forall|bits: u64| call_requires(*convert, (bits,)),
        forall|json: &Json| call_requires(*encode, (json,)),
        forall|bits: u64| call_requires(*narrow, (bits,)),
    ensures
        match result {
            Ok(request) => request_fault(op@) is None && is_request(
                op@,
                *convert,
                *encode,
                *narrow,
                request,
            ),
            Err(message) => request_fault(op@) == Some(message@),
        },
{
    let name: &str = match op.get("type") {
        Some(Json::String(name)) => name.as_str(),
        _ => {
            return Err("事务操作缺少 type".to_owned());
        },
    };
    let kind = match find_kind(name) {
        Some(kind) => kind,
        None => {
            return Err(join("不支持的事务操作类型: ", name));
        },
    };
    match kind {
        RequestKind::Insert => match read_vector(op, convert) {
            Ok(vector) => Ok(
                TxRequest::Insert { vector, payload: read_payload(op, "payload", encode) },
            ),
            Err(message) => Err(message),
        },
        RequestKind::InsertWithId => match read_id(op, "id") {
            Ok(id) => match read_vector(op, convert) {
                Ok(vector) => Ok(
                    TxRequest::InsertWithId {
                        id,
                        vector,
                        payload: read_payload(op, "payload", encode),
                    },
                ),
                Err(message) => Err(message),
            },
            Err(message) => Err(message),
        },
        RequestKind::Delete => match read_id(op, "id") {
            Ok(id) => Ok(TxRequest::Delete { id }),
            Err(message) => Err(message),
        },
        RequestKind::UpdatePayload => match read_id(op, "id") {
            Ok(id) => Ok(
                TxRequest::UpdatePayload { id, payload: read_payload(op, "payload", encode) },
            ),
            Err(message) => Err(message),
        },
        RequestKind::UpdateVector => match read_id(op, "id") {
            Ok(id) => match read_vector(op, convert) {
                Ok(vector) => Ok(TxRequest::UpdateVector { id, vector }),
                Err(message) => Err(message),
            },
            Err(message) => Err(message),
        },
        RequestKind::UpsertEdge => match read_id(op, "src") {
            Ok(src) => match read_id(op, "dst") {
                Ok(dst) => {
                    let label: String = match op.get("label") {
                        Some(Json::String(text)) => text.clone(),
                        _ => "related".to_owned(),
                    };
                    let weight: u32 = read_weight(op, narrow);
                    let metadata = read_payload(op, "metadata", encode);
                    Ok(TxRequest::UpsertEdge { src, dst, label, weight, metadata })
                },
                Err(message) => Err(message),
            },
            Err(message) => Err(message),
        },
        RequestKind::Unlink => match read_id(op, "src") {
            Ok(src) => match read_id(op, "dst") {
                Ok(dst) => Ok(TxRequest::Unlink { src, dst }),
                Err(message) => Err(message),
            },
            Err(message) => Err(message),
        },
        RequestKind::UnlinkLabel => match read_id(op, "src") {
            Ok(src) => match read_id(op, "dst") {
                Ok(dst) => match op.get("label") {
                    Some(Json::String(text)) => Ok(
                        TxRequest::UnlinkLabel { src, dst, label: text.clone() },
                    ),
                    _ => Err("事务操作缺少 label".to_owned()),
                },
                Err(message) => Err(message),
            },
            Err(message) => Err(message),
        },
    }
}

/// Reads the operations of a transaction, up to the first that is refused.
pub fn build_transaction<
    T,
    C: Fn(u64) -> T,
    E: Fn(&Json) -> String,
    N: Fn(u64) -> u32,
>(operations: &Vec<Json>, convert: &C, encode: &E, narrow: &N) -> (result: Parse<Vec<TxRequest<T>>>)
    requires
        forall|bits: u64| call_requires(*convert, (bits,)),
        forall|json: &Json| call_requires(*encode, (json,)),
        forall|bits: u64| call_requires(*narrow, (bits,)),
    ensures
        match result {
            Ok(requests) => requests@.len() == operations@.len() && forall|i: int|
                0 <= i < requests@.len() ==> request_fault((#[trigger] operations@[i])@) is None
                    && is_request(
                    operations@[i]@,
                    *convert,
                    *encode,
                    *narrow,
                    requests@[i],
                ),
            Err(message) => exists|k: int|
                0 <= k < operations@.len() && request_fault((#[trigger] operations@[k])@) == Some(
                    message@,
                ) && forall|i: int|
                    0 <= i < k ==> request_fault((#[trigger] operations@[i])@) is None,
        },
{
    let mut requests: Vec<TxRequest<T>> = Vec::new();
    let mut i: usize = 0;
    while i < operations.len()
        invariant
            forall|bits: u64| call_requires(*convert, (bits,)),
            forall|json: &Json| call_requires(*encode, (json,)),
            forall|bits: u64| call_requires(*narrow, (bits,)),
            i <= operations@.len(),
            requests@.len() == i,
            forall|k: int|
                0 <= k < i ==> request_fault((#[trigger] operations@[k])@) is None && is_request(
                    operations@[k]@,
                    *convert,
                    *encode,
                    *narrow,
                    requests@[k],
                ),
        decreases operations@.len() - i,
    {
        match parse_operation(&operations[i], convert, encode, narrow) {
            Ok(request) => {
                requests.push(request);
            },
            Err(message) => {
                assert(request_fault(operations@[i as int]@) == Some(message@));
                return Err(message);
            },
        }
        i += 1;
    }
    Ok(requests)
}

/// A value in a row that a query returned.
#[derive(Debug)]
pub enum RowValue {
    Node { id: NodeId, payload: Json, edges: usize },
    Value(Json),
    Path(Vec<NodeId>),
}

/// A named value of a row.
#[derive(Debug)]
pub struct RowField {
    pub name: String,
    pub value: RowValue,
}

/// Whether JSON stands for a value of a row: a node as an object with its identifier as text, its
/// payload and the number of its edges, a path as a list of identifiers as text.
pub open spec fn stands_for(value: RowValue, json: JsonView) -> bool {
    match value {
        RowValue::Node { id, payload, edges } => {
            &&& lookup(json, "id"@) == Some(JsonView::String(decimal(id as nat)))
            &&& lookup(json, "payload"@) == Some(payload@)
            &&& lookup(json, "numEdges"@) == Some(
                JsonView::Number(crate::json::NumberView::PosInt(edges as u64)),
            )
            &&& json is Object
        },
        RowValue::Value(given) => json == given@,
        RowValue::Path(ids) => json matches JsonView::Array(items) && items.len() == ids@.len()
            && forall|i: int|
            0 <= i < items.len() ==> (#[trigger] items[i]) == JsonView::String(
                decimal(ids@[i] as nat),
            ),
    }
}

/// The members of an object for a node.
fn node_json(id: NodeId, payload: &Json, edges: usize) -> (json: Json)
    ensures
        lookup(json@, "id"@) == Some(JsonView::String(decimal(id as nat))),
        lookup(json@, "payload"@) == Some(payload@),
        lookup(json@, "numEdges"@) == Some(
            JsonView::Number(crate::json::NumberView::PosInt(edges as u64)),
        ),
        json@ is Object,
{
    let mut members: Vec<Member> = Vec::new();
    let first = Member { name: "id".to_owned(), value: Json::String(to_decimal(id)) };
    let second = Member { name: "payload".to_owned(), value: payload.duplicate() };
    let third = Member {
        name: "numEdges".to_owned(),
        value: Json::Number(JsonNumber::PosInt(edges as u64)),
    };
    let ghost given = seq![first@, second@, third@];
    members.push(first);
    members.push(second);
    members.push(third);
    proof {
        reveal_strlit("id");
        reveal_strlit("payload");
        reveal_strlit("numEdges");
        assert(member_views(members@) =~= given);
        assert("id"@.len() != "payload"@.len() && "id"@.len() != "numEdges"@.len());
        assert("payload"@.len() != "numEdges"@.len());
        let two = given.drop_last();
        let one = two.drop_last();
        assert(two.last() == second@);
        assert(one.last() == first@);
        assert(last_value(one, "id"@) == Some(first@.value));
        assert(last_value(two, "id"@) == Some(first@.value));
        assert(last_value(two, "payload"@) == Some(second@.value));
        assert(last_value(given, "id"@) == Some(first@.value));
        assert(last_value(given, "payload"@) == Some(second@.value));
        assert(last_value(given, "numEdges"@) == Some(third@.value));
    }
    Json::object(members)
}

/// JSON for a value of a row.
fn value_json(value: &RowValue) -> (json: Json)
    ensures
        stands_for(*value, json@),
{
    match value {
        RowValue::Node { id, payload, edges } => node_json(*id, payload, *edges),
        RowValue::Value(given) => given.duplicate(),
        RowValue::Path(ids) => {
            let mut items: Vec<Json> = Vec::new();
            let mut i: usize = 0;
            while i < ids.len()
                invariant
                    i <= ids@.len(),
                    items@.len() == i,
                    forall|k: int|
                        0 <= k < i ==> (#[trigger] items@[k])@ == JsonView::String(
                            decimal(ids@[k] as nat),
                        ),
                decreases ids@.len() - i,
            {
                items.push(Json::String(to_decimal(ids[i])));
                i += 1;
            }
            let json = Json::Array(items);
            proof {
                lemma_json_view(json);
            }
            json
        },
    }
}

/// The last field of this name.
pub open spec fn last_field(row: Seq<RowField>, name: Seq<char>) -> Option<RowValue>
    decreases row.len(),
{
    if row.len() == 0 {
        None
    } else if row.last().name@ == name {
        Some(row.last().value)
    } else {
        last_field(row.drop_last(), name)
    }
}

/// A row as a JSON object. Identifiers are text, since scripts cannot hold all of them.
pub fn row_to_json(row: &Vec<RowField>) -> (json: Json)
    ensures
        json@ is Object,
        forall|name: Seq<char>|
            match last_field(row@, name) {
                Some(value) => (#[trigger] lookup(json@, name)) matches Some(member) && stands_for(
                    value,
                    member,
                ),
                None => lookup(json@, name) is None,
            },
{
    let mut members: Vec<Member> = Vec::new();
    let mut i: usize = 0;
    proof {
        assert(member_views(members@) =~= Seq::<MemberView>::empty());
        assert(row@.take(0) =~= Seq::<RowField>::empty());
    }
    while i < row.len()
        invariant
            i <= row@.len(),
            forall|name: Seq<char>|
                match last_field(row@.take(i as int), name) {
                    Some(value) => (#[trigger] last_value(
                        member_views(members@),
                        name,
                    )) matches Some(member) && stands_for(value, member),
                    None => last_value(member_views(members@), name) is None,
                },
        decreases row@.len() - i,
    {
        let ghost before = member_views(members@);
        let ghost few = row@.take(i as int);
        let member = Member { name: row[i].name.clone(), value: value_json(&row[i].value) };
        let ghost view = member@;
        members.push(member);
        proof {
            let more = row@.take(i + 1);
            assert(more.drop_last() =~= few);
            assert(member_views(members@) =~= before.push(view));
            assert(member_views(members@).drop_last() =~= before);
            assert forall|name: Seq<char>|
                match last_field(more, name) {
                    Some(value) => (#[trigger] last_value(
                        member_views(members@),
                        name,
                    )) matches Some(found) && stands_for(value, found),
                    None => last_value(member_views(members@), name) is None,
                } by {
                assert(match last_field(few, name) {
                    Some(value) => last_value(before, name) matches Some(found) && stands_for(
                        value,
                        found,
                    ),
                    None => last_value(before, name) is None,
                });
            }
        }
        i += 1;
    }
    assert(row@.take(i as int) =~= row@);
    Json::object(members)
}

} // verus!
