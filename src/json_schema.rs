//! Rendering a schema as a JSON-Schema (draft 2020-12) document tree.

use vstd::prelude::*;
use crate::entries::{copy_strings, entries_inv, lemma_props_at, lemma_props_len, lemma_values_push};
use crate::mask::{
    contains, has_tag, lemma_plain_keeps, ABSENT, ARRAY, BOOLEAN, F64, I64, LARGE_OBJECT, NULL, OBJECT, STRING,
    STRING_SET, U64,
};
use crate::model::{ObjKind, SchemaModel, StrKind};
use crate::schema::{keys_unique, model_of, obj_model, props_model, text_model, values_set, values_unique, Schema};

verus! {

/// A JSON-Schema type name.
#[derive(Clone, Copy, Debug, PartialEq, Eq, Structural)]
pub enum JsonSchemaType {
    Object,
    Array,
    String,
    Number,
    Boolean,
    Null,
}

impl JsonSchemaType {
    /// The name that JSON-Schema gives the type.
    pub fn name(&self) -> (r: &'static str)
        ensures
            r@ == json_type_name(*self),
    {
        match self {
            JsonSchemaType::Object => "object",
            JsonSchemaType::Array => "array",
            JsonSchemaType::String => "string",
            JsonSchemaType::Number => "number",
            JsonSchemaType::Boolean => "boolean",
            JsonSchemaType::Null => "null",
        }
    }
}

pub open spec fn json_type_name(t: JsonSchemaType) -> Seq<char> {
    match t {
        JsonSchemaType::Object => "object"@,
        JsonSchemaType::Array => "array"@,
        JsonSchemaType::String => "string"@,
        JsonSchemaType::Number => "number"@,
        JsonSchemaType::Boolean => "boolean"@,
        JsonSchemaType::Null => "null"@,
    }
}

/// One entry of `anyOf`.
#[derive(Debug)]
pub enum JsonSchemaVariant {
    /// A string that is one of `values`.
    StringEnum { schema_type: JsonSchemaType, values: Vec<String> },
}

/// A JSON-Schema node.
#[derive(Debug)]
pub struct JsonSchema {
    pub description: Option<String>,
    /// Rendered as one name when it holds one type, else as a list.
    pub schema_type: Vec<JsonSchemaType>,
    /// Property name and schema, one entry per name.
    pub properties: Vec<(String, JsonSchema)>,
    pub items: Option<Box<JsonSchema>>,
    /// The properties present in every observed object.
    pub required: Vec<String>,
    pub any_of: Vec<JsonSchemaVariant>,
}

/// A JSON-Schema document: the root node and the draft it follows.
#[derive(Debug)]
pub struct RootJsonSchema {
    pub schema: String,
    pub inner: JsonSchema,
}

/// A JSON-Schema node as a mathematical value.
pub struct JsonSchemaModel {
    pub description: Option<Seq<char>>,
    pub types: Seq<JsonSchemaType>,
    pub properties: Map<Seq<char>, JsonSchemaModel>,
    pub items: Option<Box<JsonSchemaModel>>,
    pub required: Set<Seq<char>>,
    /// The string enumerations: the type of each and its set of values.
    pub enums: Seq<(JsonSchemaType, Set<Seq<char>>)>,
}

/// `t`, when `b` holds.
pub open spec fn type_if(b: bool, t: JsonSchemaType) -> Seq<JsonSchemaType> {
    if b {
        seq![t]
    } else {
        seq![]
    }
}

/// The type list of a node: array, string, number, boolean, null, object,
/// then string once more for a string set.
pub open spec fn types_of(m: SchemaModel) -> Seq<JsonSchemaType> {
    type_if(has_tag(m.plain, ARRAY), JsonSchemaType::Array) + type_if(m.text == StrKind::Open, JsonSchemaType::String)
        + type_if(
        has_tag(m.plain, I64) || has_tag(m.plain, U64) || has_tag(m.plain, F64),
        JsonSchemaType::Number,
    ) + type_if(has_tag(m.plain, BOOLEAN), JsonSchemaType::Boolean) + type_if(
        has_tag(m.plain, NULL),
        JsonSchemaType::Null,
    ) + type_if(m.obj is Props, JsonSchemaType::Object) + type_if(m.text is Values, JsonSchemaType::String)
}

/// The keys of `p` whose schema is not flagged absent.
pub open spec fn required_of(p: Map<Seq<char>, SchemaModel>) -> Set<Seq<char>> {
    Set::new(|k: Seq<char>| p.contains_key(k) && !has_tag(p[k].plain, ABSENT))
}

/// The JSON-Schema node for a schema node.
pub open spec fn emit_spec(m: SchemaModel) -> JsonSchemaModel
    decreases m,
{
    let props = match m.obj {
        ObjKind::Props(p) => Map::new(
            |k: Seq<char>| p.contains_key(k),
            |k: Seq<char>|
                if p.dom().finite() && p.contains_key(k) {
                    emit_spec(p[k])
                } else {
                    arbitrary()
                },
        ),
        _ => Map::empty(),
    };
    JsonSchemaModel {
        description: if m.obj is Large {
            Some("Large object"@)
        } else {
            None
        },
        types: types_of(m),
        properties: props,
        items: match m.items {
            Some(x) => Some(Box::new(emit_spec(*x))),
            None => None,
        },
        required: match m.obj {
            ObjKind::Props(p) => required_of(p),
            _ => Set::empty(),
        },
        enums: match m.text {
            StrKind::Values(s) => seq![(JsonSchemaType::String, s)],
            _ => seq![],
        },
    }
}

/// The property map that a list of entries stands for.
pub open spec fn js_props_model(s: Seq<(String, JsonSchema)>) -> Map<Seq<char>, JsonSchemaModel>
    decreases s,
{
    Map::new(
        |k: Seq<char>| exists|i: int| 0 <= i < s.len() && #[trigger] s[i].0@ == k,
        |k: Seq<char>|
            {
                let i = choose|i: int| 0 <= i < s.len() && #[trigger] s[i].0@ == k;
                if 0 <= i < s.len() {
                    js_model(s[i].1)
                } else {
                    arbitrary()
                }
            },
    )
}

/// The model of a JSON-Schema node.
pub open spec fn js_model(j: JsonSchema) -> JsonSchemaModel
    decreases j,
{
    JsonSchemaModel {
        description: match j.description {
            Some(d) => Some(d@),
            None => None,
        },
        types: j.schema_type@,
        properties: js_props_model(j.properties@),
        items: match j.items {
            Some(b) => Some(Box::new(js_model(*b))),
            None => None,
        },
        required: values_set(j.required@),
        enums: j.any_of@.map_values(|v: JsonSchemaVariant| (v->schema_type, values_set(v->values@))),
    }
}

impl View for JsonSchema {
    type V = JsonSchemaModel;

    open spec fn view(&self) -> JsonSchemaModel {
        js_model(*self)
    }
}

impl JsonSchema {
    /// No list repeats an entry, at any node: property names, `required`,
    /// and the values of each enumeration.
    pub open spec fn wf(&self) -> bool
        decreases *self,
    {
        &&& js_keys_unique(self.properties@)
        &&& values_unique(self.required@)
        &&& forall|i: int| 0 <= i < self.any_of@.len() ==> values_unique((#[trigger] self.any_of@[i])->values@)
        &&& forall|i: int| 0 <= i < self.properties@.len() ==> (#[trigger] self.properties@[i]).1.wf()
        &&& match self.items {
            Some(b) => b.wf(),
            None => true,
        }
    }
}

} // verus!

verus! {

/// No two entries of `s` share a key.
pub open spec fn js_keys_unique(s: Seq<(String, JsonSchema)>) -> bool {
    forall|i: int, j: int|
        0 <= i < s.len() && 0 <= j < s.len() && i != j ==> #[trigger] s[i].0@ != #[trigger] s[j].0@
}

proof fn lemma_js_props_at(s: Seq<(String, JsonSchema)>, i: int)
    requires
        js_keys_unique(s),
        0 <= i < s.len(),
    ensures
        js_props_model(s).contains_key(s[i].0@),
        js_props_model(s)[s[i].0@] == js_model(s[i].1),
{
    let k = s[i].0@;
    assert(exists|j: int| 0 <= j < s.len() && #[trigger] s[j].0@ == k);
    let j = choose|j: int| 0 <= j < s.len() && #[trigger] s[j].0@ == k;
    assert(j == i);
}


/// The type list that a mask gives.
pub open spec fn mask_types(m: u32) -> Seq<JsonSchemaType> {
    type_if(has_tag(m, ARRAY), JsonSchemaType::Array) + type_if(has_tag(m, STRING), JsonSchemaType::String) + type_if(
        has_tag(m, I64) || has_tag(m, U64) || has_tag(m, F64),
        JsonSchemaType::Number,
    ) + type_if(has_tag(m, BOOLEAN), JsonSchemaType::Boolean) + type_if(has_tag(m, NULL), JsonSchemaType::Null)
        + type_if(has_tag(m, OBJECT), JsonSchemaType::Object) + type_if(has_tag(m, STRING_SET), JsonSchemaType::String)
}

/// Appends `t` when `b` holds.
fn push_if(v: &mut Vec<JsonSchemaType>, b: bool, t: JsonSchemaType)
    ensures
        final(v)@ == old(v)@ + type_if(b, t),
{
    if b {
        v.push(t);
    }
    proof {
        assert(final(v)@ =~= old(v)@ + type_if(b, t));
    }
}

/// The type list of a node (see `types_of`).
fn types_for(m: u32) -> (r: Vec<JsonSchemaType>)
    ensures
        r@ == mask_types(m),
{
    let a = contains(m, ARRAY);
    let s = contains(m, STRING);
    let n = contains(m, I64) || contains(m, U64) || contains(m, F64);
    let b = contains(m, BOOLEAN);
    let z = contains(m, NULL);
    let o = contains(m, OBJECT);
    let e = contains(m, STRING_SET);
    let mut types: Vec<JsonSchemaType> = Vec::new();
    push_if(&mut types, a, JsonSchemaType::Array);
    push_if(&mut types, s, JsonSchemaType::String);
    push_if(&mut types, n, JsonSchemaType::Number);
    push_if(&mut types, b, JsonSchemaType::Boolean);
    push_if(&mut types, z, JsonSchemaType::Null);
    push_if(&mut types, o, JsonSchemaType::Object);
    push_if(&mut types, e, JsonSchemaType::String);
    proof {
        assert(types@ =~= mask_types(m));
    }
    types
}

/// The `properties` and `required` of an object node.
fn convert_properties(entries: &Vec<(String, Schema)>) -> (r: (Vec<(String, JsonSchema)>, Vec<String>))
    requires
        entries_inv(entries@),
    ensures
        js_keys_unique(r.0@),
        forall|i: int| 0 <= i < r.0@.len() ==> (#[trigger] r.0@[i]).1.wf(),
        js_props_model(r.0@) == Map::new(
            |k: Seq<char>| props_model(entries@).contains_key(k),
            |k: Seq<char>| emit_spec(props_model(entries@)[k]),
        ),
        values_unique(r.1@),
        values_set(r.1@) == required_of(props_model(entries@)),
    decreases entries,
{
    let ghost p = props_model(entries@);
    let mut properties: Vec<(String, JsonSchema)> = Vec::new();
    let mut required: Vec<String> = Vec::new();
    let mut i: usize = 0;
    proof {
        assert(values_set(required@) =~= Set::empty());
    }
    while i < entries.len()
        invariant
            entries_inv(entries@),
            p == props_model(entries@),
            i <= entries@.len(),
            properties@.len() == i,
            forall|j: int| 0 <= j < i ==> #[trigger] properties@[j].0@ == entries@[j].0@,
            forall|j: int| 0 <= j < i ==> #[trigger] js_model(properties@[j].1) == emit_spec(model_of(entries@[j].1)),
            forall|j: int| 0 <= j < i ==> (#[trigger] properties@[j]).1.wf(),
            values_unique_prefix(required@, entries@, i as int),
        decreases entries@.len() - i,
    {
        proof {
            assert(decreases_to!(*entries => entries@));
            assert(decreases_to!(entries@ => entries@[i as int]));
            assert(decreases_to!(entries@[i as int] => entries@[i as int].1));
            assert(entries@[i as int].1.inv());
        }
        let child = JsonSchema::from_schema(&entries[i].1);
        let ghost req_before = required@;
        if !contains(entries[i].1.type_mask, ABSENT) {
            required.push(entries[i].0.clone());
        }
        let ghost props_before = properties@;
        properties.push((entries[i].0.clone(), child));
        proof {
            lemma_required_step(req_before, required@, entries@, i as int);
            assert forall|j: int| 0 <= j < i + 1 implies #[trigger] properties@[j].0@ == entries@[j].0@ && js_model(
                properties@[j].1,
            ) == emit_spec(model_of(entries@[j].1)) && properties@[j].1.wf() by {
                if j < i {
                    assert(properties@[j] == props_before[j]);
                }
            }
        }
        i = i + 1;
    }
    proof {
        lemma_required_done(required@, entries@);
        assert(js_keys_unique(properties@)) by {
            assert forall|a: int, b: int| 0 <= a < properties@.len() && 0 <= b < properties@.len() && a != b implies #[trigger] properties@[a].0@
                != #[trigger] properties@[b].0@ by {
                assert(entries@[a].0@ != entries@[b].0@);
            }
        }
        assert forall|k: Seq<char>| #[trigger] js_props_model(properties@).contains_key(k) == p.contains_key(k) by {
            if p.contains_key(k) {
                let j = choose|j: int| 0 <= j < entries@.len() && #[trigger] entries@[j].0@ == k;
                assert(properties@[j].0@ == k);
            }
            if js_props_model(properties@).contains_key(k) {
                let j = choose|j: int| 0 <= j < properties@.len() && #[trigger] properties@[j].0@ == k;
                assert(entries@[j].0@ == k);
            }
        }
        assert forall|k: Seq<char>| #[trigger] js_props_model(properties@).contains_key(k) implies js_props_model(
            properties@,
        )[k] == emit_spec(p[k]) by {
            let j = choose|j: int| 0 <= j < properties@.len() && #[trigger] properties@[j].0@ == k;
            lemma_js_props_at(properties@, j);
            lemma_props_at(entries@, j);
        }
        assert(js_props_model(properties@) =~= Map::new(
            |k: Seq<char>| p.contains_key(k),
            |k: Seq<char>| emit_spec(p[k]),
        ));
    }
    (properties, required)
}

impl JsonSchema {
    /// The JSON-Schema node for a schema node (see `emit_spec`).
    pub fn from_schema(schema: &Schema) -> (r: JsonSchema)
        requires
            schema.inv(),
        ensures
            r.wf(),
            r@ == emit_spec(schema@),
        decreases schema,
    {
        let m = schema.type_mask;
        let ghost sm = schema@;
        proof {
            assert(sm.text == text_model(m, schema.string_values));
            assert(sm.obj == obj_model(m, schema.object_properties));
        }
        proof {
            lemma_plain_keeps(m, ARRAY);
            lemma_plain_keeps(m, I64);
            lemma_plain_keeps(m, U64);
            lemma_plain_keeps(m, F64);
            lemma_plain_keeps(m, BOOLEAN);
            lemma_plain_keeps(m, NULL);
            assert(types_of(sm) == mask_types(m));
        }
        let types = types_for(m);
        let description = if contains(m, LARGE_OBJECT) {
            Some("Large object".to_string())
        } else {
            None
        };
        let (properties, required) = match &schema.object_properties {
            Some(entries) => {
                proof {
                    assert(decreases_to!(*schema => schema.object_properties));
                    assert(decreases_to!(schema.object_properties => *entries));
                    lemma_props_len(entries@);
                }
                let (ps, req) = convert_properties(entries);
                proof {
                    assert(sm.obj == ObjKind::Props(props_model(entries@)));
                    assert(js_props_model(ps@) =~= emit_spec(sm).properties);
                }
                (ps, req)
            },
            None => {
                let ps: Vec<(String, JsonSchema)> = Vec::new();
                let req: Vec<String> = Vec::new();
                proof {
                    assert(js_props_model(ps@) =~= emit_spec(sm).properties);
                    assert(values_set(req@) =~= emit_spec(sm).required);
                }
                (ps, req)
            },
        };
        let mut any_of: Vec<JsonSchemaVariant> = Vec::new();
        match &schema.string_values {
            Some(v) => {
                let values = copy_strings(v);
                proof {
                    assert(values_unique(values@)) by {
                        assert forall|a: int, b: int| 0 <= a < values@.len() && 0 <= b < values@.len() && a != b implies #[trigger] values@[a]@
                            != #[trigger] values@[b]@ by {
                            assert(v@[a]@ != v@[b]@);
                        }
                    }
                }
                any_of.push(JsonSchemaVariant::StringEnum { schema_type: JsonSchemaType::String, values });
            },
            None => {},
        }
        let items = match &schema.array_items {
            Some(b) => {
                proof {
                    assert(decreases_to!(*schema => schema.array_items));
                    assert(decreases_to!(schema.array_items => *b));
                }
                Some(Box::new(JsonSchema::from_schema(b)))
            },
            None => None,
        };
        let r = JsonSchema { description, schema_type: types, properties, items, required, any_of };
        proof {
            assert(js_model(r).properties =~= emit_spec(sm).properties);
            assert(js_model(r).required =~= emit_spec(sm).required);
            assert(js_model(r).enums =~= emit_spec(sm).enums);
            assert(r.wf());
            assert(js_model(r) =~= emit_spec(sm));
        }
        r
    }
}

/// `req` holds, once each, the keys of `entries[..i]` whose schema is not
/// flagged absent.
pub open spec fn values_unique_prefix(req: Seq<String>, entries: Seq<(String, Schema)>, i: int) -> bool {
    &&& values_unique(req)
    &&& forall|x: Seq<char>| #[trigger]
        values_set(req).contains(x) == (exists|j: int|
            0 <= j < i && #[trigger] entries[j].0@ == x && !has_tag(entries[j].1.type_mask, ABSENT))
}

proof fn lemma_required_step(before: Seq<String>, after: Seq<String>, entries: Seq<(String, Schema)>, i: int)
    requires
        keys_unique(entries),
        0 <= i < entries.len(),
        values_unique_prefix(before, entries, i),
        !has_tag(entries[i].1.type_mask, ABSENT) ==> after == before.push(entries[i].0),
        has_tag(entries[i].1.type_mask, ABSENT) ==> after == before,
    ensures
        values_unique_prefix(after, entries, i + 1),
{
    let k = entries[i].0;
    if !has_tag(entries[i].1.type_mask, ABSENT) {
        assert(!values_set(before).contains(k@));
        lemma_values_push(before, k);
    }
    assert forall|x: Seq<char>| #[trigger] values_set(after).contains(x) == (exists|j: int|
        0 <= j < i + 1 && #[trigger] entries[j].0@ == x && !has_tag(entries[j].1.type_mask, ABSENT)) by {
        if exists|j: int| 0 <= j < i + 1 && #[trigger] entries[j].0@ == x && !has_tag(entries[j].1.type_mask, ABSENT) {
            let j = choose|j: int| 0 <= j < i + 1 && #[trigger] entries[j].0@ == x && !has_tag(entries[j].1.type_mask, ABSENT);
            if j < i {
                assert(exists|j2: int| 0 <= j2 < i && #[trigger] entries[j2].0@ == x && !has_tag(entries[j2].1.type_mask, ABSENT));
            }
        }
        if values_set(before).contains(x) {
            let j = choose|j: int| 0 <= j < i && #[trigger] entries[j].0@ == x && !has_tag(entries[j].1.type_mask, ABSENT);
            assert(0 <= j < i + 1);
        }
    }
}

proof fn lemma_required_done(req: Seq<String>, entries: Seq<(String, Schema)>)
    requires
        keys_unique(entries),
        values_unique_prefix(req, entries, entries.len() as int),
    ensures
        values_set(req) == required_of(props_model(entries)),
{
    let p = props_model(entries);
    assert forall|x: Seq<char>| #[trigger] values_set(req).contains(x) == required_of(p).contains(x) by {
        if values_set(req).contains(x) {
            let j = choose|j: int| 0 <= j < entries.len() && #[trigger] entries[j].0@ == x && !has_tag(entries[j].1.type_mask, ABSENT);
            lemma_props_at(entries, j);
            lemma_plain_keeps(entries[j].1.type_mask, ABSENT);
        }
        if required_of(p).contains(x) {
            let j = choose|j: int| 0 <= j < entries.len() && #[trigger] entries[j].0@ == x;
            lemma_props_at(entries, j);
            lemma_plain_keeps(entries[j].1.type_mask, ABSENT);
            assert(exists|j2: int| 0 <= j2 < entries.len() && #[trigger] entries[j2].0@ == x && !has_tag(entries[j2].1.type_mask, ABSENT));
        }
    }
    assert(values_set(req) =~= required_of(p));
}

impl RootJsonSchema {
    /// The document for a schema: its root node under draft 2020-12.
    pub fn new(schema: Schema) -> (r: RootJsonSchema)
        requires
            schema.inv(),
        ensures
            r.schema@ == "https://json-schema.org/draft/2020-12/schema"@,
            r.inner.wf(),
            r.inner@ == emit_spec(schema@),
    {
        let inner = JsonSchema::from_schema(&schema);
        RootJsonSchema { schema: "https://json-schema.org/draft/2020-12/schema".to_string(), inner }
    }
}

} // verus!
