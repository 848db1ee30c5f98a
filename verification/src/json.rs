//! Logical values as JSON.
use vstd::prelude::*;
use vstd::string::*;

use serde_json::Value as Json;

use crate::model::{hex, members_tree, values_tree, Prim, PrimView, Value, ValueTree};
use crate::text;

verus! {

/// `serde_json`'s value type.
#[verifier::external_type_specification]
#[verifier::external_body]
pub struct ExJson(Json);

/// `serde_json`'s object type.
#[verifier::external_type_specification]
#[verifier::external_body]
#[verifier::reject_recursive_types(K)]
#[verifier::reject_recursive_types(V)]
pub struct ExJsonMap<K, V>(serde_json::Map<K, V>);

/// The contents of a JSON value. A number that is no integer is an IEEE 754
/// double, given by its bit pattern.
pub enum JsonTree {
    Null,
    Bool(bool),
    Int(int),
    Float(u64),
    Text(Seq<char>),
    Array(Seq<JsonTree>),
    Object(Map<Seq<char>, JsonTree>),
}

/// What a `serde_json::Value` holds.
pub uninterp spec fn json_tree(v: Json) -> JsonTree;

/// What a `serde_json::Map` holds.
pub uninterp spec fn json_members(
    m: serde_json::Map<String, Json>,
) -> Map<Seq<char>, JsonTree>;

/// What each value holds.
pub open spec fn json_trees(items: Seq<Json>) -> Seq<JsonTree> {
    Seq::new(items.len(), |i: int| json_tree(items[i]))
}

/// An object without members.
pub open spec fn no_members() -> Map<Seq<char>, JsonTree> {
    Map::empty()
}

/// Makes a `serde_json::Value::Null`: JSON's null.
#[verifier::external_body]
fn json_null() -> (r: Json)
    ensures
        json_tree(r) == JsonTree::Null,
{
    Json::Null
}

/// Makes a `serde_json::Value::Bool`: it holds `b`.
#[verifier::external_body]
fn json_bool(b: bool) -> (r: Json)
    ensures
        json_tree(r) == JsonTree::Bool(b),
{
    Json::Bool(b)
}

/// Calls `serde_json::Value::from` on an `i64`: the number is that integer.
#[verifier::external_body]
fn json_int(v: i64) -> (r: Json)
    ensures
        json_tree(r) == JsonTree::Int(v as int),
{
    Json::from(v)
}

/// Makes a `serde_json::Value::String`: it holds the text of `s`.
#[verifier::external_body]
fn json_text(s: String) -> (r: Json)
    ensures
        json_tree(r) == JsonTree::Text(s@),
{
    Json::String(s)
}

/// Makes a `serde_json::Value::Array`: it holds `items`, in their order.
#[verifier::external_body]
fn json_array(items: Vec<Json>) -> (r: Json)
    ensures
        json_tree(r) == JsonTree::Array(json_trees(items@)),
{
    Json::Array(items)
}

/// Makes a `serde_json::Value::Object`: it holds the members of `m`.
#[verifier::external_body]
fn json_object(m: serde_json::Map<String, Json>) -> (r: Json)
    ensures
        json_tree(r) == JsonTree::Object(json_members(m)),
{
    Json::Object(m)
}

/// Calls `serde_json::Map::new`: the map is empty.
#[verifier::external_body]
fn json_map() -> (m: serde_json::Map<String, Json>)
    ensures
        json_members(m) == no_members(),
{
    serde_json::Map::new()
}

/// Calls `serde_json::Map::insert`: the value of `key` is now `value`, whether
/// or not the map had that key before, and the other members stay.
#[verifier::external_body]
fn json_insert(
    m: &mut serde_json::Map<String, Json>,
    key: String,
    value: Json,
)
    ensures
        json_members(*final(m)) == json_members(*old(m)).insert(key@, json_tree(value)),
{
    let _ = m.insert(key, value);
}

/// The bit pattern of a floating-point number, single or double precision.
#[derive(Debug, Clone, Copy, PartialEq, Eq, Structural)]
pub enum FloatBits {
    F32(u32),
    F64(u64),
}

/// `f` may render the number with these bits as `t`.
pub open spec fn float_shown<F: Fn(FloatBits) -> Json>(
    f: F,
    bits: FloatBits,
    t: JsonTree,
) -> bool {
    exists|r: Json| #[trigger] call_ensures(f, (bits,), r) && json_tree(r) == t
}

/// An object with one member, a text.
pub open spec fn labelled(key: Seq<char>, s: Seq<char>) -> JsonTree {
    JsonTree::Object(no_members().insert(key, JsonTree::Text(s)))
}

/// Bytes as JSON: a text where they are UTF-8, else an object with their
/// hexadecimal dump.
pub open spec fn bytes_json(b: Seq<u8>) -> JsonTree {
    if vstd::utf8::valid_utf8(b) {
        JsonTree::Text(vstd::utf8::decode_utf8(b))
    } else {
        labelled("hex"@, text::hex_text(b))
    }
}

/// `t` renders `p`, with floating-point numbers rendered by `f`.
pub open spec fn prim_shown<F: Fn(FloatBits) -> Json>(
    p: PrimView,
    f: F,
    t: JsonTree,
) -> bool {
    match p {
        PrimView::Bool(b) => t == JsonTree::Bool(b),
        PrimView::I32(v) => t == JsonTree::Int(v as int),
        PrimView::I64(v) => t == JsonTree::Int(v as int),
        PrimView::I96(b) => t == labelled("int96_hex"@, text::hex_text(b)),
        PrimView::F32(bits) => float_shown(f, FloatBits::F32(bits), t),
        PrimView::F64(bits) => float_shown(f, FloatBits::F64(bits), t),
        PrimView::Bytes(b) => t == bytes_json(b),
        PrimView::Fixed(b) => t == bytes_json(b),
    }
}

/// No field behind index `i` has the name of that field.
pub open spec fn last_of_name(fields: Seq<(Seq<char>, ValueTree)>, i: int) -> bool {
    forall|j: int| i < j < fields.len() ==> (#[trigger] fields[j]).0 != fields[i].0
}

/// The keys of `m` are the names of the fields.
pub open spec fn keys_are_names(
    fields: Seq<(Seq<char>, ValueTree)>,
    m: Map<Seq<char>, JsonTree>,
) -> bool {
    forall|k: Seq<char>| #[trigger]
        m.dom().contains(k) <==> exists|i: int|
            0 <= i < fields.len() && (#[trigger] fields[i]).0 == k
}

/// `t` renders `v`, with floating-point numbers rendered by `f`: a list as an
/// array, a struct as an object in which a name that occurs more than once has
/// the last of its values.
pub open spec fn value_shown<F: Fn(FloatBits) -> Json>(
    v: ValueTree,
    f: F,
    t: JsonTree,
) -> bool
    decreases v,
{
    match v {
        ValueTree::Null => t == JsonTree::Null,
        ValueTree::Prim(p) => prim_shown(p, f, t),
        ValueTree::List(items) => t matches JsonTree::Array(ts) && ts.len() == items.len()
            && forall|i: int|
            0 <= i < items.len() ==> value_shown(#[trigger] items[i], f, ts[i]),
        ValueTree::Struct(fields) => t matches JsonTree::Object(m) && {
            &&& keys_are_names(fields, m)
            &&& forall|i: int|
                0 <= i < fields.len() && last_of_name(fields, i) ==> value_shown(
                    (#[trigger] fields[i]).1,
                    f,
                    m[fields[i].0],
                )
        },
    }
}

/// An object with the one member `key`, whose value is the dump of `b`.
fn hex_object(key: &str, b: &[u8]) -> (r: Json)
    ensures
        json_tree(r) == labelled(key@, text::hex_text(b@)),
{
    let mut m = json_map();
    json_insert(&mut m, key.to_string(), json_text(hex(b)));
    json_object(m)
}

/// Bytes as JSON.
fn bytes_to_json(b: &[u8]) -> (r: Json)
    ensures
        json_tree(r) == bytes_json(b@),
{
    match text::from_utf8(b) {
        Some(s) => json_text(s.to_string()),
        None => hex_object("hex", b),
    }
}

impl Prim {
    /// The value as JSON; `float` renders a floating-point number.
    pub fn to_json<F: Fn(FloatBits) -> Json>(&self, float: &F) -> (r:
        Json)
        requires
            forall|b: FloatBits| #[trigger] call_requires(*float, (b,)),
        ensures
            prim_shown(self@, *float, json_tree(r)),
    {
        match self {
            Prim::Bool(b) => json_bool(*b),
            Prim::I32(v) => json_int(*v as i64),
            Prim::I64(v) => json_int(*v),
            Prim::I96(b) => hex_object("int96_hex", b.as_slice()),
            Prim::F32(bits) => float(FloatBits::F32(*bits)),
            Prim::F64(bits) => float(FloatBits::F64(*bits)),
            Prim::Bytes(b) => bytes_to_json(b.as_slice()),
            Prim::Fixed(b) => bytes_to_json(b.as_slice()),
        }
    }
}

proof fn lemma_member_added<F: Fn(FloatBits) -> Json>(
    fields: Seq<(Seq<char>, ValueTree)>,
    f: F,
    m: Map<Seq<char>, JsonTree>,
    name: Seq<char>,
    v: ValueTree,
    t: JsonTree,
)
    requires
        value_shown(ValueTree::Struct(fields), f, JsonTree::Object(m)),
        value_shown(v, f, t),
    ensures
        value_shown(
            ValueTree::Struct(fields.push((name, v))),
            f,
            JsonTree::Object(m.insert(name, t)),
        ),
{
    let more = fields.push((name, v));
    let n = m.insert(name, t);
    assert(keys_are_names(fields, m));
    assert forall|k: Seq<char>| #[trigger] n.dom().contains(k) <==> exists|i: int|
        0 <= i < more.len() && (#[trigger] more[i]).0 == k by {
        if n.dom().contains(k) {
            if k == name {
                assert(more[fields.len() as int].0 == k);
            } else {
                assert(m.dom().contains(k));
                let i = choose|i: int| 0 <= i < fields.len() && (#[trigger] fields[i]).0 == k;
                assert(more[i].0 == k);
            }
        }
        if exists|i: int| 0 <= i < more.len() && (#[trigger] more[i]).0 == k {
            let i = choose|i: int| 0 <= i < more.len() && (#[trigger] more[i]).0 == k;
            if i < fields.len() {
                assert(fields[i].0 == k);
                assert(m.dom().contains(k));
            }
        }
    }
    assert forall|i: int| 0 <= i < more.len() && last_of_name(more, i) implies value_shown(
        (#[trigger] more[i]).1,
        f,
        n[more[i].0],
    ) by {
        if i < fields.len() {
            assert(more[fields.len() as int].0 != more[i].0);
            assert forall|j: int| i < j < fields.len() implies (#[trigger] fields[j]).0
                != fields[i].0 by {
                assert(more[j] == fields[j]);
            }
            assert(last_of_name(fields, i));
            assert(value_shown(fields[i].1, f, m[fields[i].0]));
        }
    }
}

impl Value {
    /// The value as JSON; `float` renders a floating-point number.
    pub fn to_json<F: Fn(FloatBits) -> Json>(&self, float: &F) -> (r: Json)
        requires
            forall|b: FloatBits| #[trigger] call_requires(*float, (b,)),
        ensures
            value_shown(self@, *float, json_tree(r)),
        decreases self,
    {
        match self {
            Value::Null => json_null(),
            Value::Prim(p) => p.to_json(float),
            Value::List(items) => {
                let mut out: Vec<Json> = Vec::new();
                let mut i: usize = 0;
                while i < items.len()
                    invariant
                        i <= items@.len(),
                        out@.len() == i,
                        *self == Value::List(*items),
                        forall|b: FloatBits| #[trigger] call_requires(*float, (b,)),
                        forall|k: int|
                            0 <= k < i ==> value_shown(
                                items@[k]@,
                                *float,
                                json_tree(#[trigger] out@[k]),
                            ),
                    decreases items@.len() - i,
                {
                    assert(decreases_to!(*self => self->List_0));
                    assert(decreases_to!(*items => items[i as int]));
                    let j = items[i].to_json(float);
                    out.push(j);
                    i += 1;
                }
                proof {
                    let vs = values_tree(items@);
                    let ts = json_trees(out@);
                    assert forall|k: int| 0 <= k < vs.len() implies value_shown(
                        #[trigger] vs[k],
                        *float,
                        ts[k],
                    ) by {
                        assert(value_shown(items@[k]@, *float, json_tree(out@[k])));
                    }
                }
                json_array(out)
            },
            Value::Struct(fields) => {
                let ghost all = members_tree(fields@);
                let mut m = json_map();
                let mut i: usize = 0;
                while i < fields.len()
                    invariant
                        i <= fields@.len(),
                        *self == Value::Struct(*fields),
                        all == members_tree(fields@),
                        forall|b: FloatBits| #[trigger] call_requires(*float, (b,)),
                        value_shown(
                            ValueTree::Struct(all.take(i as int)),
                            *float,
                            JsonTree::Object(json_members(m)),
                        ),
                    decreases fields@.len() - i,
                {
                    let field: &(String, Value) = &fields[i];
                    assert(decreases_to!(*self => self->Struct_0));
                    assert(decreases_to!(*fields => fields[i as int]));
                    assert(decreases_to!(*field => field.1));
                    let j = field.1.to_json(float);
                    proof {
                        lemma_member_added(
                            all.take(i as int),
                            *float,
                            json_members(m),
                            field.0@,
                            field.1@,
                            json_tree(j),
                        );
                        assert(all.take(i + 1) =~= all.take(i as int).push((field.0@, field.1@)));
                    }
                    json_insert(&mut m, field.0.clone(), j);
                    i += 1;
                }
                assert(all.take(i as int) =~= all);
                json_object(m)
            },
        }
    }
}

proof fn lemma_last_of_name(fields: Seq<(Seq<char>, ValueTree)>, i: int) -> (l: int)
    requires
        0 <= i < fields.len(),
    ensures
        i <= l < fields.len(),
        fields[l].0 == fields[i].0,
        last_of_name(fields, l),
    decreases fields.len() - i,
{
    if last_of_name(fields, i) {
        i
    } else {
        let j = choose|j: int| i < j < fields.len() && (#[trigger] fields[j]).0 == fields[i].0;
        lemma_last_of_name(fields, j)
    }
}

/// A value has one rendering, if each floating-point number has.
pub proof fn lemma_rendering_unique<F: Fn(FloatBits) -> Json>(
    v: ValueTree,
    f: F,
    a: JsonTree,
    b: JsonTree,
)
    requires
        forall|bits: FloatBits, x: JsonTree, y: JsonTree| #[trigger]
            float_shown(f, bits, x) && #[trigger] float_shown(f, bits, y) ==> x == y,
        value_shown(v, f, a),
        value_shown(v, f, b),
    ensures
        a == b,
    decreases v,
{
    match v {
        ValueTree::Null => {},
        ValueTree::Prim(p) => {},
        ValueTree::List(items) => {
            let x = a->Array_0;
            let y = b->Array_0;
            assert forall|i: int| 0 <= i < items.len() implies x[i] == y[i] by {
                assert(value_shown(items[i], f, x[i]));
                assert(value_shown(items[i], f, y[i]));
                lemma_rendering_unique(items[i], f, x[i], y[i]);
            }
            assert(x =~= y);
        },
        ValueTree::Struct(fields) => {
            let x = a->Object_0;
            let y = b->Object_0;
            assert(keys_are_names(fields, x));
            assert(keys_are_names(fields, y));
            assert forall|k: Seq<char>| x.dom().contains(k) <==> y.dom().contains(k) by {}
            assert(x.dom() =~= y.dom());
            assert forall|k: Seq<char>| #[trigger] x.dom().contains(k) implies x[k] == y[k] by {
                let i = choose|i: int| 0 <= i < fields.len() && (#[trigger] fields[i]).0 == k;
                let l = lemma_last_of_name(fields, i);
                assert(value_shown(fields[l].1, f, x[k]));
                assert(value_shown(fields[l].1, f, y[k]));
                assert(decreases_to!(fields => fields[l]));
                lemma_rendering_unique(fields[l].1, f, x[k], y[k]);
            }
            assert(x =~= y);
        },
    }
}

/// `t` is an object with the one member `key`, whose text has two hexadecimal digits for
/// each byte, the higher half first.
pub open spec fn dumps(t: JsonTree, key: Seq<char>, b: Seq<u8>) -> bool {
    &&& t is Object
    &&& forall|k: Seq<char>| #[trigger] t->Object_0.dom().contains(k) <==> k == key
    &&& t->Object_0[key] is Text
    &&& t->Object_0[key]->Text_0.len() == 2 * b.len()
    &&& forall|i: int|
        0 <= i < b.len() ==> text::nibble(t->Object_0[key]->Text_0[2 * i]) == (
        #[trigger] b[i]) as int / 16 && text::nibble(t->Object_0[key]->Text_0[2 * i + 1])
            == b[i] as int % 16
}

proof fn lemma_labelled(key: Seq<char>, b: Seq<u8>)
    ensures
        dumps(labelled(key, text::hex_text(b)), key, b),
{
    text::lemma_hex_reads_back(b);
}

/// What JSON a primitive value becomes: a boolean or an integer itself; bytes a text of
/// which they are the UTF-8 encoding, or else their dump under "hex"; a 96-bit integer its
/// dump under "int96_hex"; a floating-point number what the renderer makes of it.
pub proof fn lemma_prim_json<F: Fn(FloatBits) -> Json>(p: PrimView, f: F, t: JsonTree)
    requires
        prim_shown(p, f, t),
    ensures
        match p {
            PrimView::Bool(b) => t == JsonTree::Bool(b),
            PrimView::I32(v) => t == JsonTree::Int(v as int),
            PrimView::I64(v) => t == JsonTree::Int(v as int),
            PrimView::I96(b) => dumps(t, "int96_hex"@, b),
            PrimView::F32(x) => exists|r: Json| #[trigger]
                call_ensures(f, (FloatBits::F32(x),), r) && json_tree(r) == t,
            PrimView::F64(x) => exists|r: Json| #[trigger]
                call_ensures(f, (FloatBits::F64(x),), r) && json_tree(r) == t,
            PrimView::Bytes(b) => if vstd::utf8::valid_utf8(b) {
                t is Text && vstd::utf8::encode_utf8(t->Text_0) == b
            } else {
                dumps(t, "hex"@, b)
            },
            PrimView::Fixed(b) => if vstd::utf8::valid_utf8(b) {
                t is Text && vstd::utf8::encode_utf8(t->Text_0) == b
            } else {
                dumps(t, "hex"@, b)
            },
        },
{
    match p {
        PrimView::I96(b) => {
            lemma_labelled("int96_hex"@, b);
        },
        PrimView::Bytes(b) => {
            lemma_labelled("hex"@, b);
            if vstd::utf8::valid_utf8(b) {
                vstd::utf8::decode_utf8_encode_utf8(b);
            }
        },
        PrimView::Fixed(b) => {
            lemma_labelled("hex"@, b);
            if vstd::utf8::valid_utf8(b) {
                vstd::utf8::decode_utf8_encode_utf8(b);
            }
        },
        _ => {},
    }
}

/// What JSON a value becomes: a list an array of as many elements, in order, and a struct
/// an object whose keys are the names; a name that occurs again has its last value.
pub proof fn lemma_value_json<F: Fn(FloatBits) -> Json>(
    v: ValueTree,
    f: F,
    t: JsonTree,
    i: int,
    k: Seq<char>,
)
    requires
        value_shown(v, f, t),
    ensures
        match v {
            ValueTree::Null => t is Null,
            ValueTree::Prim(p) => prim_shown(p, f, t),
            ValueTree::List(items) => {
                &&& t is Array
                &&& t->Array_0.len() == items.len()
                &&& 0 <= i < items.len() ==> value_shown(items[i], f, t->Array_0[i])
            },
            ValueTree::Struct(fields) => {
                &&& t is Object
                &&& t->Object_0.dom().contains(k) <==> exists|j: int|
                    0 <= j < fields.len() && (#[trigger] fields[j]).0 == k
                &&& 0 <= i < fields.len() && (forall|j: int|
                    i < j < fields.len() ==> (#[trigger] fields[j]).0 != fields[i].0)
                    ==> value_shown(fields[i].1, f, t->Object_0[fields[i].0])
            },
        },
{
    if let ValueTree::Struct(fields) = v {
        assert(keys_are_names(fields, t->Object_0));
        if 0 <= i < fields.len() && (forall|j: int|
            i < j < fields.len() ==> (#[trigger] fields[j]).0 != fields[i].0) {
            assert(last_of_name(fields, i));
            assert(value_shown(fields[i].1, f, t->Object_0[fields[i].0]));
        }
    }
    if let ValueTree::List(items) = v {
        if 0 <= i < items.len() {
            assert(value_shown(items[i], f, t->Array_0[i]));
        }
    }
}

/// What vectors of JSON values are taken to hold: what their elements hold, one for one.
pub proof fn lemma_json_contents(items: Seq<Json>, i: int, k: Seq<char>)
    ensures
        json_trees(items).len() == items.len(),
        0 <= i < items.len() ==> json_trees(items)[i] == json_tree(items[i]),
        !no_members().dom().contains(k),
{
}

} // verus!
