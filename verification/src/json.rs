//! JSON-shaped metadata: a library-owned JSON tree and the readers the
//! node-graph parser works on.
//!
//! Parsing raw text into the tree is delegated to serde_json behind a
//! trusted bridge; everything that reads the tree is verified.

use crate::parser::GenerationParams;
use crate::parser::ParamsModel;
use crate::text::chars_vec;
use crate::text::append_vec;
use crate::text::contains_sub_exec;
use crate::text::idec;
use crate::text::i64_to_chars;
use crate::text::join_seq;
use crate::text::lower_seq;
use crate::text::string_from_chars;
use crate::text::to_ascii_lower;
use crate::text::is_alpha_char;
use crate::text::views_of_vecs;
use crate::text::is_u32_str;
use crate::text::digits_val;
use crate::text::parse_u32_chars;
use crate::text::seq_eq;
use crate::text::trim;
use crate::text::trim_seq;
use crate::text::unsigned_body;
use crate::text::contains_sub;
use crate::text::unicode_alpha;
use vstd::prelude::*;

verus! {

/// A JSON document. Numbers carry their decimal rendering plus their value
/// where it is an integer in range, so no floating point enters the crate.
pub enum JsonValue {
    Null,
    Bool(bool),
    Num { text: String, int_val: Option<i64>, uint_val: Option<u64> },
    Str(String),
    Arr(Vec<JsonValue>),
    Obj(Vec<(String, JsonValue)>),
}

#[verifier::external_type_specification]
#[verifier::external_body]
pub struct ExSerdeValue(serde_json::Value);

/// Relies on serde_json::Value's accessors: each node is carried over one
/// for one; a number becomes its decimal rendering together with its value
/// as a signed and as an unsigned integer where it is one.
#[verifier::external_body]
fn json_convert(v: serde_json::Value) -> (r: JsonValue) {
    match v {
        serde_json::Value::Null => JsonValue::Null,
        serde_json::Value::Bool(b) => JsonValue::Bool(b),
        serde_json::Value::Number(n) => JsonValue::Num { text: n.to_string(), int_val: n.as_i64(), uint_val: n.as_u64() },
        serde_json::Value::String(s) => JsonValue::Str(s),
        serde_json::Value::Array(items) => JsonValue::Arr(items.into_iter().map(json_convert).collect()),
        serde_json::Value::Object(map) => JsonValue::Obj(map.into_iter().map(|(k, v)| (k, json_convert(v))).collect()),
    }
}

/// The document a text parses to, carried into the crate's JSON tree;
/// a fixed function of the text alone, `None` where it is not valid JSON.
pub uninterp spec fn json_of(raw: Seq<char>) -> Option<JsonValue>;

/// Relies on serde_json::from_str::<serde_json::Value>, with each node
/// carried over one for one (strings and keys kept, a number as its decimal
/// rendering and integer value, object entries in serde_json's order):
/// `None` exactly when the text is not valid JSON.
#[verifier::external_body]
pub fn json_parse(raw: &str) -> (r: Option<JsonValue>)
    ensures
        r == json_of(raw@),
{
    match serde_json::from_str::<serde_json::Value>(raw) {
        Ok(v) => Some(json_convert(v)),
        Err(_) => None,
    }
}

// ─────────────────────── accessors ───────────────────────

/// Views of a list of key patterns.
pub open spec fn kviews(v: Seq<Vec<char>>) -> Seq<Seq<char>> {
    v.map_values(|x: Vec<char>| x@)
}

/// First entry of an object with the given key.
pub open spec fn obj_get_spec(
    entries: Seq<(String, JsonValue)>,
    key: Seq<char>,
) -> Option<JsonValue>
    decreases entries.len(),
{
    if entries.len() == 0 {
        None
    } else if entries[0].0@ == key {
        Some(entries[0].1)
    } else {
        obj_get_spec(entries.skip(1), key)
    }
}

pub fn obj_get<'a>(entries: &'a Vec<(String, JsonValue)>, key: &Vec<char>) -> (r: Option<
    &'a JsonValue,
>)
    ensures
        match r {
            Some(v) => obj_get_spec(entries@, key@) == Some(*v),
            None => obj_get_spec(entries@, key@) is None,
        },
{
    let mut i: usize = 0;
    proof {
        assert(entries@.skip(0) =~= entries@);
    }
    while i < entries.len()
        invariant
            0 <= i <= entries@.len(),
            obj_get_spec(entries@, key@) == obj_get_spec(entries@.skip(i as int), key@),
        decreases entries.len() - i,
    {
        let ek = chars_vec(entries[i].0.as_str());
        proof {
            assert(entries@.skip(i as int)[0] == entries@[i as int]);
            assert(entries@.skip(i as int).skip(1) =~= entries@.skip(i + 1));
        }
        if seq_eq(&ek, key) {
            return Some(&entries[i].1);
        }
        i += 1;
    }
    None
}

/// The decimal rendering of a boolean, as std formats it.
pub open spec fn bool_str(b: bool) -> Seq<char> {
    if b {
        "true"@
    } else {
        "false"@
    }
}

/// A scalar read: a non-empty trimmed string, a number's rendering, or a
/// boolean's rendering; later keys are tried when a key is absent, not a
/// scalar, or an empty string.
pub open spec fn first_scalar_spec(
    entries: Seq<(String, JsonValue)>,
    keys: Seq<Seq<char>>,
) -> Option<Seq<char>>
    decreases keys.len(),
{
    if keys.len() == 0 {
        None
    } else {
        match obj_get_spec(entries, keys[0]) {
            Some(JsonValue::Str(s)) => {
                if trim_seq(s@).len() > 0 {
                    Some(trim_seq(s@))
                } else {
                    first_scalar_spec(entries, keys.skip(1))
                }
            },
            Some(JsonValue::Num { text, int_val, uint_val }) => Some(text@),
            Some(JsonValue::Bool(b)) => Some(bool_str(b)),
            _ => first_scalar_spec(entries, keys.skip(1)),
        }
    }
}

pub fn scalar_from_entries(entries: &Vec<(String, JsonValue)>, keys: &Vec<Vec<char>>) -> (r:
    Option<String>)
    ensures
        match r {
            Some(s) => first_scalar_spec(entries@, kviews(keys@)) == Some(s@),
            None => first_scalar_spec(entries@, kviews(keys@)) is None,
        },
{
    let mut i: usize = 0;
    proof {
        assert(kviews(keys@).skip(0) =~= kviews(keys@));
    }
    while i < keys.len()
        invariant
            0 <= i <= keys@.len(),
            kviews(keys@).len() == keys@.len(),
            first_scalar_spec(entries@, kviews(keys@)) == first_scalar_spec(
                entries@,
                kviews(keys@).skip(i as int),
            ),
        decreases keys.len() - i,
    {
        proof {
            assert(kviews(keys@).skip(i as int)[0] == kviews(keys@)[i as int]);
            assert(kviews(keys@)[i as int] == keys@[i as int]@);
            assert(kviews(keys@).skip(i as int).skip(1) =~= kviews(keys@).skip(i + 1));
        }
        match obj_get(entries, &keys[i]) {
            Some(v) => {
                match v {
                    JsonValue::Str(s) => {
                        let t = trim(&chars_vec(s.as_str()));
                        if t.len() > 0 {
                            return Some(crate::text::string_from_chars(&t));
                        }
                    },
                    JsonValue::Num { text, int_val: _, uint_val: _ } => {
                        return Some(text.clone());
                    },
                    JsonValue::Bool(b) => {
                        if *b {
                            return Some("true".to_owned());
                        } else {
                            return Some("false".to_owned());
                        }
                    },
                    _ => {},
                }
            },
            None => {},
        }
        i += 1;
    }
    None
}

/// A string read: only a non-empty trimmed string counts.
pub open spec fn first_string_spec(
    entries: Seq<(String, JsonValue)>,
    keys: Seq<Seq<char>>,
) -> Option<Seq<char>>
    decreases keys.len(),
{
    if keys.len() == 0 {
        None
    } else {
        match obj_get_spec(entries, keys[0]) {
            Some(JsonValue::Str(s)) => {
                if trim_seq(s@).len() > 0 {
                    Some(trim_seq(s@))
                } else {
                    first_string_spec(entries, keys.skip(1))
                }
            },
            _ => first_string_spec(entries, keys.skip(1)),
        }
    }
}

pub fn string_from_entries(entries: &Vec<(String, JsonValue)>, keys: &Vec<Vec<char>>) -> (r:
    Option<String>)
    ensures
        match r {
            Some(s) => first_string_spec(entries@, kviews(keys@)) == Some(s@),
            None => first_string_spec(entries@, kviews(keys@)) is None,
        },
{
    let mut i: usize = 0;
    proof {
        assert(kviews(keys@).skip(0) =~= kviews(keys@));
    }
    while i < keys.len()
        invariant
            0 <= i <= keys@.len(),
            kviews(keys@).len() == keys@.len(),
            first_string_spec(entries@, kviews(keys@)) == first_string_spec(
                entries@,
                kviews(keys@).skip(i as int),
            ),
        decreases keys.len() - i,
    {
        proof {
            assert(kviews(keys@).skip(i as int)[0] == kviews(keys@)[i as int]);
            assert(kviews(keys@)[i as int] == keys@[i as int]@);
            assert(kviews(keys@).skip(i as int).skip(1) =~= kviews(keys@).skip(i + 1));
        }
        match obj_get(entries, &keys[i]) {
            Some(v) => {
                match v {
                    JsonValue::Str(s) => {
                        let t = trim(&chars_vec(s.as_str()));
                        if t.len() > 0 {
                            return Some(crate::text::string_from_chars(&t));
                        }
                    },
                    _ => {},
                }
            },
            None => {},
        }
        i += 1;
    }
    None
}

/// A u32 read: an integer in range, or a string whose trimmed text parses.
pub open spec fn first_u32_spec(entries: Seq<(String, JsonValue)>, keys: Seq<Seq<char>>) -> Option<
    u32,
>
    decreases keys.len(),
{
    if keys.len() == 0 {
        None
    } else {
        match obj_get_spec(entries, keys[0]) {
            Some(v) => {
                if v matches JsonValue::Num { text, int_val, uint_val: Some(u) } && u <= u32::MAX {
                    Some((v->uint_val)->0 as u32)
                } else if v matches JsonValue::Str(s) && is_u32_str(trim_seq(s@)) {
                    Some(digits_val(unsigned_body(trim_seq((v->Str_0)@))) as u32)
                } else {
                    first_u32_spec(entries, keys.skip(1))
                }
            },
            None => first_u32_spec(entries, keys.skip(1)),
        }
    }
}

pub fn u32_from_entries(entries: &Vec<(String, JsonValue)>, keys: &Vec<Vec<char>>) -> (r: Option<
    u32,
>)
    ensures
        r == first_u32_spec(entries@, kviews(keys@)),
{
    let mut i: usize = 0;
    proof {
        assert(kviews(keys@).skip(0) =~= kviews(keys@));
    }
    while i < keys.len()
        invariant
            0 <= i <= keys@.len(),
            kviews(keys@).len() == keys@.len(),
            first_u32_spec(entries@, kviews(keys@)) == first_u32_spec(
                entries@,
                kviews(keys@).skip(i as int),
            ),
        decreases keys.len() - i,
    {
        proof {
            assert(kviews(keys@).skip(i as int)[0] == kviews(keys@)[i as int]);
            assert(kviews(keys@)[i as int] == keys@[i as int]@);
            assert(kviews(keys@).skip(i as int).skip(1) =~= kviews(keys@).skip(i + 1));
        }
        match obj_get(entries, &keys[i]) {
            Some(v) => {
                match v {
                    JsonValue::Num { text: _, int_val: _, uint_val: Some(u) } => {
                        if *u <= 0xFFFF_FFFF {
                            return Some(*u as u32);
                        }
                    },
                    JsonValue::Str(s) => {
                        let t = trim(&chars_vec(s.as_str()));
                        match parse_u32_chars(&t) {
                            Some(n) => {
                                return Some(n);
                            },
                            None => {},
                        }
                    },
                    _ => {},
                }
            },
            None => {},
        }
        i += 1;
    }
    None
}

// ─────────────────────── node shape readers ───────────────────────

/// The `class_type` string of a graph node, if it is an object with one.
pub open spec fn node_class(node: JsonValue) -> Option<Seq<char>> {
    match node {
        JsonValue::Obj(e) => match obj_get_spec(e@, "class_type"@) {
            Some(JsonValue::Str(s)) => Some(s@),
            _ => None,
        },
        _ => None,
    }
}

/// The `inputs` object of a graph node, if present.
pub open spec fn node_inputs(node: JsonValue) -> Option<Seq<(String, JsonValue)>> {
    match node {
        JsonValue::Obj(e) => match obj_get_spec(e@, "inputs"@) {
            Some(JsonValue::Obj(inp)) => Some(inp@),
            _ => None,
        },
        _ => None,
    }
}

fn node_class_exec<'a>(node: &'a JsonValue) -> (r: Option<&'a String>)
    ensures
        match r {
            Some(s) => node_class(*node) == Some(s@),
            None => node_class(*node) is None,
        },
{
    match node {
        JsonValue::Obj(e) => {
            match obj_get(e, &chars_vec("class_type")) {
                Some(v) => match v {
                    JsonValue::Str(s) => Some(s),
                    _ => None,
                },
                None => None,
            }
        },
        _ => None,
    }
}

fn node_inputs_exec<'a>(node: &'a JsonValue) -> (r: Option<&'a Vec<(String, JsonValue)>>)
    ensures
        match r {
            Some(inp) => node_inputs(*node) == Some(inp@),
            None => node_inputs(*node) is None,
        },
{
    match node {
        JsonValue::Obj(e) => {
            match obj_get(e, &chars_vec("inputs")) {
                Some(v) => match v {
                    JsonValue::Obj(inp) => Some(inp),
                    _ => None,
                },
                None => None,
            }
        },
        _ => None,
    }
}

/// A document looks like a node graph when some value is an object with a
/// `class_type` string and an `inputs` object.
pub open spec fn looks_like_graph(doc: JsonValue) -> bool {
    match doc {
        JsonValue::Obj(entries) => exists|i: int|
            0 <= i < entries@.len() && node_class(#[trigger] entries@[i].1) is Some && node_inputs(
                entries@[i].1,
            ) is Some,
        _ => false,
    }
}

pub fn looks_like_comfy_prompt_graph(doc: &JsonValue) -> (r: bool)
    ensures
        r == looks_like_graph(*doc),
{
    match doc {
        JsonValue::Obj(entries) => {
            let mut i: usize = 0;
            while i < entries.len()
                invariant
                    0 <= i <= entries@.len(),
                    *doc == JsonValue::Obj(*entries),
                    forall|j: int|
                        0 <= j < i ==> !(node_class(#[trigger] entries@[j].1) is Some
                            && node_inputs(entries@[j].1) is Some),
                decreases entries.len() - i,
            {
                let has_class = match node_class_exec(&entries[i].1) {
                    Some(_) => true,
                    None => false,
                };
                let has_inputs = match node_inputs_exec(&entries[i].1) {
                    Some(_) => true,
                    None => false,
                };
                if has_class && has_inputs {
                    proof {
                        assert(node_class(entries@[i as int].1) is Some && node_inputs(
                            entries@[i as int].1,
                        ) is Some);
                    }
                    return true;
                }
                i += 1;
            }
            false
        },
        _ => false,
    }
}

/// A node reference: a non-empty string, or an array whose first element is
/// a non-empty string or an integer (rendered in decimal).
pub open spec fn node_ref_spec(v: JsonValue) -> Option<Seq<char>> {
    match v {
        JsonValue::Str(s) => if trim_seq(s@).len() > 0 {
            Some(trim_seq(s@))
        } else {
            None
        },
        JsonValue::Arr(items) => {
            if items@.len() == 0 {
                None
            } else {
                match items@[0] {
                    JsonValue::Str(s) => if trim_seq(s@).len() > 0 {
                        Some(trim_seq(s@))
                    } else {
                        None
                    },
                    JsonValue::Num { text, int_val: Some(n), uint_val } => Some(idec(n as int)),
                    _ => None,
                }
            }
        },
        _ => None,
    }
}

pub fn extract_node_reference(v: &JsonValue) -> (r: Option<Vec<char>>)
    ensures
        match r {
            Some(t) => node_ref_spec(*v) == Some(t@),
            None => node_ref_spec(*v) is None,
        },
{
    match v {
        JsonValue::Str(s) => {
            let t = trim(&chars_vec(s.as_str()));
            if t.len() > 0 {
                Some(t)
            } else {
                None
            }
        },
        JsonValue::Arr(items) => {
            if items.len() == 0 {
                None
            } else {
                match &items[0] {
                    JsonValue::Str(s) => {
                        let t = trim(&chars_vec(s.as_str()));
                        if t.len() > 0 {
                            Some(t)
                        } else {
                            None
                        }
                    },
                    JsonValue::Num { text: _, int_val: Some(n), uint_val: _ } => {
                        Some(i64_to_chars(*n))
                    },
                    _ => None,
                }
            }
        },
        _ => None,
    }
}

// ─────────────────────── reference resolution ───────────────────────

/// Texts of the nodes the references name: each reference is looked up,
/// its `inputs.text` string taken when non-empty.
pub open spec fn resolve_refs(
    entries: Seq<(String, JsonValue)>,
    refs: Seq<Seq<char>>,
) -> Seq<Seq<char>>
    decreases refs.len(),
{
    if refs.len() == 0 {
        Seq::empty()
    } else {
        let rest = resolve_refs(entries, refs.skip(1));
        match obj_get_spec(entries, refs[0]) {
            Some(node) => match node_inputs(node) {
                Some(inp) => match obj_get_spec(inp, "text"@) {
                    Some(JsonValue::Str(s)) => if trim_seq(s@).len() > 0 {
                        seq![trim_seq(s@)] + rest
                    } else {
                        rest
                    },
                    _ => rest,
                },
                None => rest,
            },
            None => rest,
        }
    }
}

pub fn resolve_referenced_texts(entries: &Vec<(String, JsonValue)>, refs: &Vec<Vec<char>>) -> (r:
    Vec<Vec<char>>)
    ensures
        views_of_vecs(r@) == resolve_refs(entries@, views_of_vecs(refs@)),
{
    let ghost rv = views_of_vecs(refs@);
    let mut out: Vec<Vec<char>> = Vec::new();
    let mut i: usize = 0;
    proof {
        assert(rv.skip(0) =~= rv);
        assert(views_of_vecs(out@) =~= Seq::<Seq<char>>::empty());
    }
    while i < refs.len()
        invariant
            0 <= i <= refs@.len(),
            rv == views_of_vecs(refs@),
            resolve_refs(entries@, rv) == views_of_vecs(out@) + resolve_refs(
                entries@,
                rv.skip(i as int),
            ),
        decreases refs.len() - i,
    {
        proof {
            assert(rv.skip(i as int)[0] == rv[i as int]);
            assert(rv[i as int] == refs@[i as int]@);
            assert(rv.skip(i as int).skip(1) =~= rv.skip(i + 1));
        }
        let ghost pre = views_of_vecs(out@);
        match obj_get(entries, &refs[i]) {
            Some(node) => {
                match node_inputs_exec(node) {
                    Some(inp) => {
                        match obj_get(inp, &chars_vec("text")) {
                            Some(v) => {
                                match v {
                                    JsonValue::Str(s) => {
                                        let t = trim(&chars_vec(s.as_str()));
                                        if t.len() > 0 {
                                            out.push(t);
                                            proof {
                                                assert(views_of_vecs(out@) =~~= pre + seq![
                                                    trim_seq(s@),
                                                ]);
                                            }
                                        }
                                    },
                                    _ => {},
                                }
                            },
                            None => {},
                        }
                    },
                    None => {},
                }
            },
            None => {},
        }
        proof {
            assert((pre + resolve_refs(entries@, rv.skip(i as int))) =~= (views_of_vecs(out@)
                + resolve_refs(entries@, rv.skip(i + 1))));
        }
        i += 1;
    }
    proof {
        assert(rv.skip(rv.len() as int) =~= Seq::<Seq<char>>::empty());
        assert(views_of_vecs(out@) + Seq::<Seq<char>>::empty() =~= views_of_vecs(out@));
    }
    out
}

// ─────────────────────── joining unique texts ───────────────────────

/// The texts kept by the duplicate filter: trimmed, empty ones dropped,
/// later case-insensitive duplicates dropped.
pub open spec fn unique_texts(texts: Seq<Seq<char>>, i: int, seen: Set<Seq<char>>) -> Seq<
    Seq<char>,
>
    decreases texts.len() - i,
    when 0 <= i <= texts.len()
{
    if i >= texts.len() {
        Seq::empty()
    } else {
        let t = trim_seq(texts[i]);
        if t.len() == 0 {
            unique_texts(texts, i + 1, seen)
        } else if seen.contains(lower_seq(t)) {
            unique_texts(texts, i + 1, seen)
        } else {
            seq![t] + unique_texts(texts, i + 1, seen.insert(lower_seq(t)))
        }
    }
}

/// The unique texts joined with a comma and space.
pub open spec fn join_unique_spec(texts: Seq<Seq<char>>) -> Seq<char> {
    join_seq(unique_texts(texts, 0, Set::empty()), ", "@)
}

pub fn join_unique_texts(texts: &Vec<Vec<char>>) -> (r: Vec<char>)
    ensures
        r@ == join_unique_spec(views_of_vecs(texts@)),
{
    let ghost tv = views_of_vecs(texts@);
    let mut kept: Vec<Vec<char>> = Vec::new();
    let mut seen: Vec<Vec<char>> = Vec::new();
    let mut i: usize = 0;
    proof {
        assert(views_of_vecs(kept@) =~= Seq::<Seq<char>>::empty());
        assert(views_of_vecs(seen@).to_set() =~= Set::<Seq<char>>::empty());
    }
    while i < texts.len()
        invariant
            0 <= i <= texts@.len(),
            tv == views_of_vecs(texts@),
            unique_texts(tv, 0, Set::empty()) == views_of_vecs(kept@) + unique_texts(
                tv,
                i as int,
                views_of_vecs(seen@).to_set(),
            ),
        decreases texts.len() - i,
    {
        let t = trim(&texts[i]);
        proof {
            assert(tv[i as int] == texts@[i as int]@);
        }
        if t.len() > 0 {
            let low = to_ascii_lower(&t);
            let mut present: bool = false;
            let mut j: usize = 0;
            while j < seen.len()
                invariant
                    0 <= j <= seen@.len(),
                    present ==> views_of_vecs(seen@).to_set().contains(low@),
                    !present ==> forall|k: int| 0 <= k < j ==> views_of_vecs(seen@)[k] != low@,
                decreases seen.len() - j,
            {
                if crate::text::seq_eq(&seen[j], &low) {
                    proof {
                        assert(views_of_vecs(seen@)[j as int] == low@);
                        assert(views_of_vecs(seen@).contains(low@));
                    }
                    present = true;
                }
                j += 1;
            }
            proof {
                if !present && views_of_vecs(seen@).to_set().contains(low@) {
                    let k = choose|k: int|
                        0 <= k < views_of_vecs(seen@).len() && views_of_vecs(seen@)[k] == low@;
                }
            }
            if !present {
                let ghost pre_kept = views_of_vecs(kept@);
                let ghost pre_seen = views_of_vecs(seen@).to_set();
                let ghost pre_seen_views = views_of_vecs(seen@);
                kept.push(t);
                seen.push(low);
                proof {
                    assert(views_of_vecs(kept@) =~~= pre_kept + seq![trim_seq(tv[i as int])]);
                    assert(views_of_vecs(seen@) =~~= pre_seen_views + seq![lower_seq(trim_seq(
                        tv[i as int],
                    ))]);
                    Seq::lemma_to_set_insert_commutes(
                        pre_seen_views,
                        lower_seq(trim_seq(tv[i as int])),
                    );
                    assert((pre_kept + seq![trim_seq(tv[i as int])]) + unique_texts(
                        tv,
                        i + 1,
                        pre_seen.insert(lower_seq(trim_seq(tv[i as int]))),
                    ) =~= pre_kept + (seq![trim_seq(tv[i as int])] + unique_texts(
                        tv,
                        i + 1,
                        pre_seen.insert(lower_seq(trim_seq(tv[i as int]))),
                    )));
                }
            }
        }
        i += 1;
    }
    let sep = chars_vec(", ");
    let joined = crate::text::join_with(&kept, &sep);
    proof {
        assert(unique_texts(tv, tv.len() as int, views_of_vecs(seen@).to_set())
            =~= Seq::<Seq<char>>::empty());
        assert(views_of_vecs(kept@) + Seq::<Seq<char>>::empty() =~= views_of_vecs(kept@));
        assert(kept.deep_view() =~~= views_of_vecs(kept@));
    }
    joined
}

// ─────────────────────── graph merge ───────────────────────

/// State threaded through the node-graph merge: the record being filled
/// plus the collected prompt references and fallback texts.
#[verifier::ext_equal]
pub ghost struct MergeState {
    pub m: ParamsModel,
    pub pos_refs: Seq<Seq<char>>,
    pub neg_refs: Seq<Seq<char>>,
    pub fb_pos: Seq<Seq<char>>,
    pub fb_neg: Seq<Seq<char>>,
}

/// Sampler-role detection on the lower-cased class name.
pub open spec fn sampler_class(cll: Seq<char>) -> bool {
    contains_sub(cll, "ksampler"@) || (contains_sub(cll, "sampler"@) && contains_sub(
        cll,
        "advanced"@,
    ))
}

/// Whether a text-encode node is labeled negative through its `_meta.title`.
pub open spec fn negative_title(node: JsonValue) -> bool {
    match node {
        JsonValue::Obj(e) => match obj_get_spec(e@, "_meta"@) {
            Some(JsonValue::Obj(me)) => match obj_get_spec(me@, "title"@) {
                Some(JsonValue::Str(t)) => contains_sub(lower_seq(t@), "negative"@),
                _ => false,
            },
            _ => false,
        },
        _ => false,
    }
}

/// One node's contribution to the merge state.
pub open spec fn merge_node(st: MergeState, node: JsonValue) -> MergeState {
    match node_class(node) {
        None => st,
        Some(cl) => match node_inputs(node) {
            None => st,
            Some(inp) => {
                let cll = lower_seq(cl);
                let st1 = if sampler_class(cll) {
                    let m = st.m;
                    let m1 = ParamsModel {
                        steps: if m.steps is None {
                            first_scalar_spec(inp, seq!["steps"@])
                        } else {
                            m.steps
                        },
                        sampler: if m.sampler is None {
                            first_scalar_spec(inp, seq!["sampler_name"@, "sampler"@])
                        } else {
                            m.sampler
                        },
                        schedule_type: if m.schedule_type is None {
                            first_scalar_spec(inp, seq!["scheduler"@, "schedule_type"@])
                        } else {
                            m.schedule_type
                        },
                        cfg_scale: if m.cfg_scale is None {
                            first_scalar_spec(inp, seq!["cfg"@, "guidance"@, "distilled_cfg_scale"@])
                        } else {
                            m.cfg_scale
                        },
                        seed: if m.seed is None {
                            first_scalar_spec(inp, seq!["seed"@, "noise_seed"@])
                        } else {
                            m.seed
                        },
                        ..m
                    };
                    let pr = match obj_get_spec(inp, "positive"@) {
                        Some(v) => match node_ref_spec(v) {
                            Some(t) => st.pos_refs.push(t),
                            None => st.pos_refs,
                        },
                        None => st.pos_refs,
                    };
                    let nr = match obj_get_spec(inp, "negative"@) {
                        Some(v) => match node_ref_spec(v) {
                            Some(t) => st.neg_refs.push(t),
                            None => st.neg_refs,
                        },
                        None => st.neg_refs,
                    };
                    MergeState { m: m1, pos_refs: pr, neg_refs: nr, ..st }
                } else {
                    st
                };
                let m2 = ParamsModel {
                    width: if st1.m.width is None {
                        first_u32_spec(inp, seq!["width"@])
                    } else {
                        st1.m.width
                    },
                    height: if st1.m.height is None {
                        first_u32_spec(inp, seq!["height"@])
                    } else {
                        st1.m.height
                    },
                    model_name: if st1.m.model_name is None {
                        first_scalar_spec(inp, seq!["ckpt_name"@, "model_name"@, "unet_name"@])
                    } else {
                        st1.m.model_name
                    },
                    ..st1.m
                };
                let st2 = MergeState { m: m2, ..st1 };
                match obj_get_spec(inp, "text"@) {
                    Some(JsonValue::Str(s)) => {
                        if trim_seq(s@).len() > 0 {
                            if negative_title(node) {
                                MergeState { fb_neg: st2.fb_neg.push(trim_seq(s@)), ..st2 }
                            } else {
                                MergeState { fb_pos: st2.fb_pos.push(trim_seq(s@)), ..st2 }
                            }
                        } else {
                            st2
                        }
                    },
                    _ => st2,
                }
            },
        },
    }
}

/// The merge state after folding the nodes from position `i` on.
pub open spec fn merge_fold(st: MergeState, entries: Seq<(String, JsonValue)>, i: int) -> MergeState
    decreases entries.len() - i,
    when 0 <= i <= entries.len()
{
    if i >= entries.len() {
        st
    } else {
        merge_fold(merge_node(st, entries[i].1), entries, i + 1)
    }
}

/// Prompt and negative prompt filled in from resolved references or
/// fallback texts when the direct fields were empty.
pub open spec fn merge_finish(st: MergeState, entries: Seq<(String, JsonValue)>) -> ParamsModel {
    let pos_texts = resolve_refs(entries, st.pos_refs);
    let neg_texts = resolve_refs(entries, st.neg_refs);
    let m1 = if trim_seq(st.m.prompt).len() == 0 {
        ParamsModel {
            prompt: if pos_texts.len() > 0 {
                join_unique_spec(pos_texts)
            } else {
                join_unique_spec(st.fb_pos)
            },
            ..st.m
        }
    } else {
        st.m
    };
    if trim_seq(m1.negative_prompt).len() == 0 {
        ParamsModel {
            negative_prompt: if neg_texts.len() > 0 {
                join_unique_spec(neg_texts)
            } else {
                join_unique_spec(st.fb_neg)
            },
            ..m1
        }
    } else {
        m1
    }
}

/// The whole graph merge: a fold over the nodes, then prompt resolution.
pub open spec fn merge_spec(doc: JsonValue, m: ParamsModel) -> ParamsModel {
    match doc {
        JsonValue::Obj(entries) => merge_finish(
            merge_fold(
                MergeState {
                    m,
                    pos_refs: Seq::empty(),
                    neg_refs: Seq::empty(),
                    fb_pos: Seq::empty(),
                    fb_neg: Seq::empty(),
                },
                entries@,
                0,
            ),
            entries@,
        ),
        _ => m,
    }
}

/// Applies one node to the record and reference accumulators.
#[verifier::rlimit(100)]
fn apply_merge_node(
    node: &JsonValue,
    params: &mut GenerationParams,
    pos_refs: &mut Vec<Vec<char>>,
    neg_refs: &mut Vec<Vec<char>>,
    fb_pos: &mut Vec<Vec<char>>,
    fb_neg: &mut Vec<Vec<char>>,
)
    ensures
        (MergeState {
            m: final(params)@,
            pos_refs: views_of_vecs(final(pos_refs)@),
            neg_refs: views_of_vecs(final(neg_refs)@),
            fb_pos: views_of_vecs(final(fb_pos)@),
            fb_neg: views_of_vecs(final(fb_neg)@),
        }) == merge_node(
            MergeState {
                m: old(params)@,
                pos_refs: views_of_vecs(old(pos_refs)@),
                neg_refs: views_of_vecs(old(neg_refs)@),
                fb_pos: views_of_vecs(old(fb_pos)@),
                fb_neg: views_of_vecs(old(fb_neg)@),
            },
            *node,
        ),
{
    let ghost st0 = MergeState {
        m: old(params)@,
        pos_refs: views_of_vecs(old(pos_refs)@),
        neg_refs: views_of_vecs(old(neg_refs)@),
        fb_pos: views_of_vecs(old(fb_pos)@),
        fb_neg: views_of_vecs(old(fb_neg)@),
    };
    let cl = match node_class_exec(node) {
        Some(cl) => cl,
        None => {
            proof {
                assert(MergeState {
                    m: params@,
                    pos_refs: views_of_vecs(pos_refs@),
                    neg_refs: views_of_vecs(neg_refs@),
                    fb_pos: views_of_vecs(fb_pos@),
                    fb_neg: views_of_vecs(fb_neg@),
                } =~~= merge_node(st0, *node));
            }
            return ;
        },
    };
    let inp = match node_inputs_exec(node) {
        Some(inp) => inp,
        None => {
            proof {
                assert(MergeState {
                    m: params@,
                    pos_refs: views_of_vecs(pos_refs@),
                    neg_refs: views_of_vecs(neg_refs@),
                    fb_pos: views_of_vecs(fb_pos@),
                    fb_neg: views_of_vecs(fb_neg@),
                } =~~= merge_node(st0, *node));
            }
            return ;
        },
    };
    let cll = to_ascii_lower(&chars_vec(cl.as_str()));
    let is_sampler = contains_sub_exec(&cll, &chars_vec("ksampler")) || (contains_sub_exec(
        &cll,
        &chars_vec("sampler"),
    ) && contains_sub_exec(&cll, &chars_vec("advanced")));
    if is_sampler {
        if params.steps.is_none() {
            let keys = vec![chars_vec("steps")];
            proof {
                assert(kviews(keys@) =~~= seq!["steps"@]);
            }
            params.steps = scalar_from_entries(inp, &keys);
        }
        if params.sampler.is_none() {
            let keys = vec![chars_vec("sampler_name"), chars_vec("sampler")];
            proof {
                assert(kviews(keys@) =~~= seq!["sampler_name"@, "sampler"@]);
            }
            params.sampler = scalar_from_entries(inp, &keys);
        }
        if params.schedule_type.is_none() {
            let keys = vec![chars_vec("scheduler"), chars_vec("schedule_type")];
            proof {
                assert(kviews(keys@) =~~= seq!["scheduler"@, "schedule_type"@]);
            }
            params.schedule_type = scalar_from_entries(inp, &keys);
        }
        if params.cfg_scale.is_none() {
            let keys = vec![
                chars_vec("cfg"),
                chars_vec("guidance"),
                chars_vec("distilled_cfg_scale"),
            ];
            proof {
                assert(kviews(keys@) =~~= seq!["cfg"@, "guidance"@, "distilled_cfg_scale"@]);
            }
            params.cfg_scale = scalar_from_entries(inp, &keys);
        }
        if params.seed.is_none() {
            let keys = vec![chars_vec("seed"), chars_vec("noise_seed")];
            proof {
                assert(kviews(keys@) =~~= seq!["seed"@, "noise_seed"@]);
            }
            params.seed = scalar_from_entries(inp, &keys);
        }
        match obj_get(inp, &chars_vec("positive")) {
            Some(v) => {
                match extract_node_reference(v) {
                    Some(t) => {
                        let ghost pre = views_of_vecs(pos_refs@);
                        pos_refs.push(t);
                        proof {
                            assert(views_of_vecs(pos_refs@) =~~= pre.push(node_ref_spec(*v)->0));
                        }
                    },
                    None => {},
                }
            },
            None => {},
        }
        match obj_get(inp, &chars_vec("negative")) {
            Some(v) => {
                match extract_node_reference(v) {
                    Some(t) => {
                        let ghost pre = views_of_vecs(neg_refs@);
                        neg_refs.push(t);
                        proof {
                            assert(views_of_vecs(neg_refs@) =~~= pre.push(node_ref_spec(*v)->0));
                        }
                    },
                    None => {},
                }
            },
            None => {},
        }
    }
    if params.width.is_none() {
        let keys = vec![chars_vec("width")];
        proof {
            assert(kviews(keys@) =~~= seq!["width"@]);
        }
        params.width = u32_from_entries(inp, &keys);
    }
    if params.height.is_none() {
        let keys = vec![chars_vec("height")];
        proof {
            assert(kviews(keys@) =~~= seq!["height"@]);
        }
        params.height = u32_from_entries(inp, &keys);
    }
    if params.model_name.is_none() {
        let keys = vec![
            chars_vec("ckpt_name"),
            chars_vec("model_name"),
            chars_vec("unet_name"),
        ];
        proof {
            assert(kviews(keys@) =~~= seq!["ckpt_name"@, "model_name"@, "unet_name"@]);
        }
        params.model_name = scalar_from_entries(inp, &keys);
    }
    match obj_get(inp, &chars_vec("text")) {
        Some(v) => {
            match v {
                JsonValue::Str(s) => {
                    let t = trim(&chars_vec(s.as_str()));
                    if t.len() > 0 {
                        let is_negative = match node {
                            JsonValue::Obj(e) => {
                                match obj_get(e, &chars_vec("_meta")) {
                                    Some(meta) => match meta {
                                        JsonValue::Obj(me) => {
                                            match obj_get(me, &chars_vec("title")) {
                                                Some(tv) => match tv {
                                                    JsonValue::Str(title) => contains_sub_exec(
                                                        &to_ascii_lower(&chars_vec(title.as_str())),
                                                        &chars_vec("negative"),
                                                    ),
                                                    _ => false,
                                                },
                                                None => false,
                                            }
                                        },
                                        _ => false,
                                    },
                                    None => false,
                                }
                            },
                            _ => false,
                        };
                        if is_negative {
                            let ghost pre = views_of_vecs(fb_neg@);
                            fb_neg.push(t);
                            proof {
                                assert(views_of_vecs(fb_neg@) =~~= pre.push(trim_seq(s@)));
                            }
                        } else {
                            let ghost pre = views_of_vecs(fb_pos@);
                            fb_pos.push(t);
                            proof {
                                assert(views_of_vecs(fb_pos@) =~~= pre.push(trim_seq(s@)));
                            }
                        }
                    }
                },
                _ => {},
            }
        },
        None => {},
    }
    proof {
        assert(MergeState {
            m: params@,
            pos_refs: views_of_vecs(pos_refs@),
            neg_refs: views_of_vecs(neg_refs@),
            fb_pos: views_of_vecs(fb_pos@),
            fb_neg: views_of_vecs(fb_neg@),
        } =~~= merge_node(st0, *node));
    }
}

/// Merges sampler parameters, checkpoint name and prompt texts out of a
/// node graph into the record.
pub fn merge_comfy_graph_params(doc: &JsonValue, params: &mut GenerationParams)
    ensures
        final(params)@ == merge_spec(*doc, old(params)@),
{
    match doc {
        JsonValue::Obj(entries) => {
            let mut pos_refs: Vec<Vec<char>> = Vec::new();
            let mut neg_refs: Vec<Vec<char>> = Vec::new();
            let mut fb_pos: Vec<Vec<char>> = Vec::new();
            let mut fb_neg: Vec<Vec<char>> = Vec::new();
            let ghost st0 = MergeState {
                m: old(params)@,
                pos_refs: Seq::empty(),
                neg_refs: Seq::empty(),
                fb_pos: Seq::empty(),
                fb_neg: Seq::empty(),
            };
            proof {
                assert(views_of_vecs(pos_refs@) =~= Seq::<Seq<char>>::empty());
                assert(views_of_vecs(neg_refs@) =~= Seq::<Seq<char>>::empty());
                assert(views_of_vecs(fb_pos@) =~= Seq::<Seq<char>>::empty());
                assert(views_of_vecs(fb_neg@) =~= Seq::<Seq<char>>::empty());
            }
            let mut i: usize = 0;
            while i < entries.len()
                invariant
                    0 <= i <= entries@.len(),
                    *doc == JsonValue::Obj(*entries),
                    st0 == (MergeState {
                        m: old(params)@,
                        pos_refs: Seq::<Seq<char>>::empty(),
                        neg_refs: Seq::<Seq<char>>::empty(),
                        fb_pos: Seq::<Seq<char>>::empty(),
                        fb_neg: Seq::<Seq<char>>::empty(),
                    }),
                    merge_fold(st0, entries@, 0) == merge_fold(
                        MergeState {
                            m: params@,
                            pos_refs: views_of_vecs(pos_refs@),
                            neg_refs: views_of_vecs(neg_refs@),
                            fb_pos: views_of_vecs(fb_pos@),
                            fb_neg: views_of_vecs(fb_neg@),
                        },
                        entries@,
                        i as int,
                    ),
                decreases entries.len() - i,
            {
                apply_merge_node(
                    &entries[i].1,
                    params,
                    &mut pos_refs,
                    &mut neg_refs,
                    &mut fb_pos,
                    &mut fb_neg,
                );
                i += 1;
            }
            let ghost stf = merge_fold(st0, entries@, 0);
            proof {
                assert(stf == MergeState {
                    m: params@,
                    pos_refs: views_of_vecs(pos_refs@),
                    neg_refs: views_of_vecs(neg_refs@),
                    fb_pos: views_of_vecs(fb_pos@),
                    fb_neg: views_of_vecs(fb_neg@),
                });
            }
            let pos_texts = resolve_referenced_texts(entries, &pos_refs);
            let neg_texts = resolve_referenced_texts(entries, &neg_refs);
            if trim(&chars_vec(params.prompt.as_str())).len() == 0 {
                if pos_texts.len() > 0 {
                    params.prompt = string_from_chars(&join_unique_texts(&pos_texts));
                } else {
                    params.prompt = string_from_chars(&join_unique_texts(&fb_pos));
                }
            }
            if trim(&chars_vec(params.negative_prompt.as_str())).len() == 0 {
                if neg_texts.len() > 0 {
                    params.negative_prompt = string_from_chars(&join_unique_texts(&neg_texts));
                } else {
                    params.negative_prompt = string_from_chars(&join_unique_texts(&fb_neg));
                }
            }
            proof {
                assert(views_of_vecs(pos_texts@).len() == resolve_refs(entries@, stf.pos_refs).len());
                assert(views_of_vecs(neg_texts@).len() == resolve_refs(entries@, stf.neg_refs).len());
                assert(params@ =~~= merge_finish(stf, entries@));
            }
        },
        _ => {
            proof {
                assert(params@ =~~= merge_spec(*doc, old(params)@));
            }
        },
    }
}

// ─────────────────────── string leaves ───────────────────────

/// All non-empty trimmed string leaves of a document, in document order.
pub open spec fn leaves_of(v: JsonValue) -> Seq<Seq<char>>
    decreases v, 0int,
{
    match v {
        JsonValue::Str(s) => if trim_seq(s@).len() > 0 {
            seq![trim_seq(s@)]
        } else {
            Seq::empty()
        },
        JsonValue::Arr(items) => leaves_arr(items@, 0),
        JsonValue::Obj(entries) => leaves_obj(entries@, 0),
        _ => Seq::empty(),
    }
}

pub open spec fn leaves_arr(items: Seq<JsonValue>, i: int) -> Seq<Seq<char>>
    decreases items, items.len() - i,
    when 0 <= i <= items.len()
{
    if i >= items.len() {
        Seq::empty()
    } else {
        leaves_of(items[i]) + leaves_arr(items, i + 1)
    }
}

pub open spec fn leaves_obj(entries: Seq<(String, JsonValue)>, i: int) -> Seq<Seq<char>>
    decreases entries, entries.len() - i,
    when 0 <= i <= entries.len()
{
    if i >= entries.len() {
        Seq::empty()
    } else {
        leaves_of(entries[i].1) + leaves_obj(entries, i + 1)
    }
}

pub fn collect_json_string_leaves(v: &JsonValue, out: &mut Vec<Vec<char>>)
    ensures
        views_of_vecs(final(out)@) == views_of_vecs(old(out)@) + leaves_of(*v),
    decreases *v,
{
    let ghost base = views_of_vecs(out@);
    match v {
        JsonValue::Str(s) => {
            let t = trim(&chars_vec(s.as_str()));
            if t.len() > 0 {
                out.push(t);
                proof {
                    assert(views_of_vecs(out@) =~~= base + seq![trim_seq(s@)]);
                }
            } else {
                proof {
                    assert(views_of_vecs(out@) =~~= base + leaves_of(*v));
                }
            }
        },
        JsonValue::Arr(items) => {
            let mut i: usize = 0;
            while i < items.len()
                invariant
                    0 <= i <= items@.len(),
                    *v == JsonValue::Arr(*items),
                    base + leaves_arr(items@, 0) == views_of_vecs(out@) + leaves_arr(
                        items@,
                        i as int,
                    ),
                decreases items@.len() - i,
            {
                proof {
                    assert(decreases_to!(*v => v->Arr_0));
                    assert(decreases_to!(*items => items@));
                    assert(decreases_to!(items@ => items@[i as int]));
                }
                collect_json_string_leaves(&items[i], out);
                proof {
                    assert((views_of_vecs(out@) + leaves_arr(items@, i + 1)) =~= (base + leaves_arr(
                        items@,
                        0,
                    )));
                }
                i += 1;
            }
            proof {
                assert(views_of_vecs(out@) + Seq::<Seq<char>>::empty() =~= views_of_vecs(out@));
            }
        },
        JsonValue::Obj(entries) => {
            let mut i: usize = 0;
            while i < entries.len()
                invariant
                    0 <= i <= entries@.len(),
                    *v == JsonValue::Obj(*entries),
                    base + leaves_obj(entries@, 0) == views_of_vecs(out@) + leaves_obj(
                        entries@,
                        i as int,
                    ),
                decreases entries@.len() - i,
            {
                proof {
                    assert(decreases_to!(*v => v->Obj_0));
                    assert(decreases_to!(*entries => entries@));
                    assert(decreases_to!(entries@ => entries@[i as int]));
                    assert(decreases_to!(entries@[i as int] => entries@[i as int].1));
                }
                collect_json_string_leaves(&entries[i].1, out);
                proof {
                    assert((views_of_vecs(out@) + leaves_obj(entries@, i + 1)) =~= (base
                        + leaves_obj(entries@, 0)));
                }
                i += 1;
            }
            proof {
                assert(views_of_vecs(out@) + Seq::<Seq<char>>::empty() =~= views_of_vecs(out@));
            }
        },
        _ => {
            proof {
                assert(views_of_vecs(out@) =~~= base + leaves_of(*v));
            }
        },
    }
}

/// A string leaf that plausibly is prompt text: medium length, no path or
/// checkpoint-file markers, and at least one letter.
pub open spec fn likely_spec(t: Seq<char>) -> bool {
    let x = trim_seq(t);
    &&& 3 <= x.len() <= 280
    &&& !x.contains('/')
    &&& !x.contains('\\')
    &&& !contains_sub(x, ".ckpt"@)
    &&& !contains_sub(x, ".safetensors"@)
    &&& exists|i: int| 0 <= i < x.len() && unicode_alpha(x[i])
}

pub fn is_likely_prompt_text(t: &Vec<char>) -> (r: bool)
    ensures
        r == likely_spec(t@),
{
    let x = trim(t);
    if x.len() < 3 || x.len() > 280 {
        return false;
    }
    let mut has_slash: bool = false;
    let mut has_alpha: bool = false;
    let mut i: usize = 0;
    while i < x.len()
        invariant
            0 <= i <= x@.len(),
            has_slash == exists|j: int| 0 <= j < i && (x@[j] == '/' || x@[j] == '\\'),
            has_alpha == exists|j: int| 0 <= j < i && unicode_alpha(x@[j]),
        decreases x.len() - i,
    {
        let c = x[i];
        if c == '/' || c == '\\' {
            has_slash = true;
        }
        if is_alpha_char(c) {
            has_alpha = true;
        }
        i += 1;
    }
    if has_slash {
        proof {
            let j = choose|j: int| 0 <= j < x@.len() && (x@[j] == '/' || x@[j] == '\\');
            assert(x@.contains(x@[j]));
        }
        return false;
    }
    if contains_sub_exec(&x, &chars_vec(".ckpt")) || contains_sub_exec(
        &x,
        &chars_vec(".safetensors"),
    ) {
        return false;
    }
    proof {
        assert forall|j: int| 0 <= j < x@.len() implies !(x@[j] == '/' || x@[j] == '\\') by {}
        if x@.contains('/') {
            let j = choose|j: int| 0 <= j < x@.len() && x@[j] == '/';
        }
        if x@.contains('\\') {
            let j = choose|j: int| 0 <= j < x@.len() && x@[j] == '\\';
        }
    }
    has_alpha
}

/// The first six plausible prompt leaves.
pub open spec fn likely_take6(ls: Seq<Seq<char>>) -> Seq<Seq<char>> {
    let f = ls.filter(|t: Seq<char>| likely_spec(t));
    if f.len() > 6 {
        f.subrange(0, 6)
    } else {
        f
    }
}

// ─────────────────────── whole-document parse ───────────────────────

pub open spec fn doc_entries(doc: JsonValue) -> Seq<(String, JsonValue)> {
    match doc {
        JsonValue::Obj(e) => e@,
        _ => Seq::empty(),
    }
}

pub open spec fn opt_or_empty(o: Option<Seq<char>>) -> Seq<char> {
    match o {
        Some(s) => s,
        None => Seq::empty(),
    }
}

/// The record still counts as parsed when any of these came out non-empty.
pub open spec fn has_content(m: ParamsModel) -> bool {
    ||| m.prompt.len() > 0
    ||| m.negative_prompt.len() > 0
    ||| m.steps is Some
    ||| m.sampler is Some
    ||| m.cfg_scale is Some
    ||| m.seed is Some
    ||| m.width is Some
    ||| m.height is Some
    ||| m.model_name is Some
}

/// Full JSON parse: top-level fields, then a node-graph merge when the
/// document looks like one, then a string-leaf fallback for the prompt;
/// `None` when nothing at all was recognized.
pub open spec fn json_params_spec(doc: JsonValue, raw: Seq<char>) -> Option<ParamsModel> {
    let m3 = json_m3(doc, raw);
    if has_content(m3) {
        Some(m3)
    } else {
        None
    }
}

/// Builds the record a JSON document describes; `None` when the document
/// yields no recognized content at all.
#[verifier::rlimit(60)]
pub fn params_from_json(doc: &JsonValue, raw: &str) -> (r: Option<GenerationParams>)
    ensures
        match r {
            Some(p) => json_params_spec(*doc, raw@) == Some(p@),
            None => json_params_spec(*doc, raw@) is None,
        },
{
    let mut params = crate::parser::empty_params(raw);
    let de: &Vec<(String, JsonValue)> = match doc {
        JsonValue::Obj(e) => e,
        _ => &Vec::new(),
    };
    proof {
        assert(de@ =~= doc_entries(*doc));
    }
    let keys = vec![
        chars_vec("prompt"),
        chars_vec("Prompt"),
        chars_vec("description"),
        chars_vec("Description"),
        chars_vec("caption"),
    ];
    proof {
        assert(kviews(keys@) =~~= seq![
            "prompt"@,
            "Prompt"@,
            "description"@,
            "Description"@,
            "caption"@,
        ]);
    }
    match string_from_entries(de, &keys) {
        Some(s) => {
            params.prompt = s;
        },
        None => {},
    }
    let keys = vec![
        chars_vec("negative_prompt"),
        chars_vec("negativePrompt"),
        chars_vec("negative"),
        chars_vec("uc"),
        chars_vec("Negative prompt"),
    ];
    proof {
        assert(kviews(keys@) =~~= seq![
            "negative_prompt"@,
            "negativePrompt"@,
            "negative"@,
            "uc"@,
            "Negative prompt"@,
        ]);
    }
    match string_from_entries(de, &keys) {
        Some(s) => {
            params.negative_prompt = s;
        },
        None => {},
    }
    let keys = vec![chars_vec("steps"), chars_vec("num_inference_steps")];
    proof {
        assert(kviews(keys@) =~~= seq!["steps"@, "num_inference_steps"@]);
    }
    params.steps = scalar_from_entries(de, &keys);
    let keys = vec![chars_vec("sampler"), chars_vec("sampler_name"), chars_vec("samplerName")];
    proof {
        assert(kviews(keys@) =~~= seq!["sampler"@, "sampler_name"@, "samplerName"@]);
    }
    params.sampler = scalar_from_entries(de, &keys);
    let keys = vec![chars_vec("scheduler"), chars_vec("schedule_type"), chars_vec("schedule")];
    proof {
        assert(kviews(keys@) =~~= seq!["scheduler"@, "schedule_type"@, "schedule"@]);
    }
    params.schedule_type = scalar_from_entries(de, &keys);
    let keys = vec![
        chars_vec("cfg"),
        chars_vec("cfg_scale"),
        chars_vec("guidance"),
        chars_vec("distilled_cfg_scale"),
        chars_vec("scale"),
    ];
    proof {
        assert(kviews(keys@) =~~= seq![
            "cfg"@,
            "cfg_scale"@,
            "guidance"@,
            "distilled_cfg_scale"@,
            "scale"@,
        ]);
    }
    params.cfg_scale = scalar_from_entries(de, &keys);
    let keys = vec![chars_vec("seed")];
    proof {
        assert(kviews(keys@) =~~= seq!["seed"@]);
    }
    params.seed = scalar_from_entries(de, &keys);
    let keys = vec![
        chars_vec("model"),
        chars_vec("model_name"),
        chars_vec("checkpoint"),
        chars_vec("ckpt_name"),
        chars_vec("unet_name"),
    ];
    proof {
        assert(kviews(keys@) =~~= seq![
            "model"@,
            "model_name"@,
            "checkpoint"@,
            "ckpt_name"@,
            "unet_name"@,
        ]);
    }
    params.model_name = scalar_from_entries(de, &keys);
    let keys = vec![chars_vec("width"), chars_vec("w")];
    proof {
        assert(kviews(keys@) =~~= seq!["width"@, "w"@]);
    }
    params.width = u32_from_entries(de, &keys);
    let keys = vec![chars_vec("height"), chars_vec("h")];
    proof {
        assert(kviews(keys@) =~~= seq!["height"@, "h"@]);
    }
    params.height = u32_from_entries(de, &keys);
    let ghost m1 = json_params_m1(*doc, raw@);
    proof {
        assert(params@ =~~= m1);
    }
    if looks_like_comfy_prompt_graph(doc) {
        merge_comfy_graph_params(doc, &mut params);
    }
    let ghost m2 = if looks_like_graph(*doc) {
        merge_spec(*doc, m1)
    } else {
        m1
    };
    proof {
        assert(params@ == m2);
    }
    if trim(&chars_vec(params.prompt.as_str())).len() == 0 {
        let mut leaves: Vec<Vec<char>> = Vec::new();
        proof {
            assert(views_of_vecs(leaves@) =~= Seq::<Seq<char>>::empty());
        }
        collect_json_string_leaves(doc, &mut leaves);
        proof {
            assert(views_of_vecs(leaves@) =~= Seq::<Seq<char>>::empty() + leaves_of(*doc));
        }
        let reduced = filter_likely_take6(&leaves);
        if reduced.len() > 0 {
            let sep = chars_vec(", ");
            let joined = crate::text::join_with(&reduced, &sep);
            proof {
                assert(reduced.deep_view() =~~= views_of_vecs(reduced@));
            }
            params.prompt = string_from_chars(&joined);
        }
    }
    proof {
        assert(params@ =~~= json_m3(*doc, raw@));
    }
    let any = !params.prompt.as_str().is_empty() || !params.negative_prompt.as_str().is_empty()
        || params.steps.is_some() || params.sampler.is_some() || params.cfg_scale.is_some()
        || params.seed.is_some() || params.width.is_some() || params.height.is_some()
        || params.model_name.is_some();
    if any {
        Some(params)
    } else {
        None
    }
}

/// The record before graph merge and leaf fallback.
pub open spec fn json_params_m1(doc: JsonValue, raw: Seq<char>) -> ParamsModel {
    let de = doc_entries(doc);
    ParamsModel {
        prompt: opt_or_empty(
            first_string_spec(
                de,
                seq!["prompt"@, "Prompt"@, "description"@, "Description"@, "caption"@],
            ),
        ),
        negative_prompt: opt_or_empty(
            first_string_spec(
                de,
                seq![
                    "negative_prompt"@,
                    "negativePrompt"@,
                    "negative"@,
                    "uc"@,
                    "Negative prompt"@,
                ],
            ),
        ),
        steps: first_scalar_spec(de, seq!["steps"@, "num_inference_steps"@]),
        sampler: first_scalar_spec(de, seq!["sampler"@, "sampler_name"@, "samplerName"@]),
        schedule_type: first_scalar_spec(de, seq!["scheduler"@, "schedule_type"@, "schedule"@]),
        cfg_scale: first_scalar_spec(
            de,
            seq!["cfg"@, "cfg_scale"@, "guidance"@, "distilled_cfg_scale"@, "scale"@],
        ),
        seed: first_scalar_spec(de, seq!["seed"@]),
        width: first_u32_spec(de, seq!["width"@, "w"@]),
        height: first_u32_spec(de, seq!["height"@, "h"@]),
        model_hash: None,
        model_name: first_scalar_spec(
            de,
            seq!["model"@, "model_name"@, "checkpoint"@, "ckpt_name"@, "unet_name"@],
        ),
        generation_type: None,
        extra_params: Seq::empty(),
        raw_metadata: raw,
    }
}

/// The record after graph merge and leaf fallback.
pub open spec fn json_m3(doc: JsonValue, raw: Seq<char>) -> ParamsModel {
    let m1 = json_params_m1(doc, raw);
    let m2 = if looks_like_graph(doc) {
        merge_spec(doc, m1)
    } else {
        m1
    };
    if trim_seq(m2.prompt).len() == 0 {
        let reduced = likely_take6(leaves_of(doc));
        if reduced.len() > 0 {
            ParamsModel { prompt: join_seq(reduced, ", "@), ..m2 }
        } else {
            m2
        }
    } else {
        m2
    }
}

/// Keeps the plausible prompt leaves, at most six.
fn filter_likely_take6(leaves: &Vec<Vec<char>>) -> (r: Vec<Vec<char>>)
    ensures
        views_of_vecs(r@) == likely_take6(views_of_vecs(leaves@)),
{
    let ghost lv = views_of_vecs(leaves@);
    let mut col: Vec<Vec<char>> = Vec::new();
    let mut i: usize = 0;
    proof {
        reveal(Seq::filter);
        assert(views_of_vecs(col@) =~= lv.take(0).filter(|t: Seq<char>| likely_spec(t)));
    }
    while i < leaves.len()
        invariant
            0 <= i <= leaves@.len(),
            lv == views_of_vecs(leaves@),
            views_of_vecs(col@) == lv.take(i as int).filter(|t: Seq<char>| likely_spec(t)),
        decreases leaves.len() - i,
    {
        let ghost pre = views_of_vecs(col@);
        let keep = is_likely_prompt_text(&leaves[i]);
        if keep {
            col.push(leaves[i].clone());
            proof {
                assert(leaves@[i as int]@ == lv[i as int]);
                assert(views_of_vecs(col@) =~~= pre.push(lv[i as int]));
            }
        }
        proof {
            reveal(Seq::filter);
            assert(lv.take(i + 1).drop_last() =~= lv.take(i as int));
            assert(lv.take(i + 1).last() == lv[i as int]);
            assert(views_of_vecs(col@) =~= lv.take(i + 1).filter(|t: Seq<char>| likely_spec(t)));
        }
        i += 1;
    }
    proof {
        assert(lv.take(lv.len() as int) =~= lv);
    }
    if col.len() > 6 {
        let ghost full = views_of_vecs(col@);
        let mut out: Vec<Vec<char>> = Vec::new();
        let mut j: usize = 0;
        while j < 6
            invariant
                0 <= j <= 6,
                col@.len() > 6,
                full == views_of_vecs(col@),
                views_of_vecs(out@) == full.subrange(0, j as int),
            decreases 6 - j,
        {
            let ghost pre = views_of_vecs(out@);
            out.push(col[j].clone());
            proof {
                assert(views_of_vecs(out@) =~~= pre.push(full[j as int]));
                assert(full.subrange(0, j + 1) =~= full.subrange(0, j as int).push(full[j as int]));
            }
            j += 1;
        }
        out
    } else {
        col
    }
}

/// Tries to parse the raw text as a JSON document and build a record
/// from it: `Some` exactly when the text parses and its document yields
/// recognized content, and then the record is that document's.
pub fn parse_json_metadata(raw: &str) -> (r: Option<GenerationParams>)
    ensures
        match json_of(raw@) {
            Some(doc) => match json_params_spec(doc, raw@) {
                Some(m) => r matches Some(p) && p@ == m,
                None => r is None,
            },
            None => r is None,
        },
{
    match json_parse(raw) {
        Some(doc) => params_from_json(&doc, raw),
        None => None,
    }
}

} // verus!
