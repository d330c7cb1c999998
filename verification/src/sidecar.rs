//! Sidecar files: per-image portable metadata (tags, notes, rating)
//! carried in a small YAML or JSON document next to the image.
//!
//! Reading the file from disk stays with the caller; this module turns
//! file content into the record and back.

use crate::json::JsonValue;
use crate::text::chars_vec;
use crate::text::string_from_chars;
use vstd::prelude::*;

verus! {

/// Portable metadata stored in a sidecar file next to each image.
pub struct SidecarData {
    pub tags: Vec<String>,
    pub notes: Option<String>,
    pub rating: Option<u8>,
}

/// Mathematical model of a sidecar record.
#[verifier::ext_equal]
pub ghost struct SidecarModel {
    pub tags: Seq<Seq<char>>,
    pub notes: Option<Seq<char>>,
    pub rating: Option<u8>,
}

impl View for SidecarData {
    type V = SidecarModel;

    open spec fn view(&self) -> SidecarModel {
        SidecarModel {
            tags: crate::store::string_views(self.tags@),
            notes: crate::store::view_opt_string(self.notes),
            rating: self.rating,
        }
    }
}

#[verifier::external_type_specification]
#[verifier::external_body]
pub struct ExYamlValue(serde_yaml::Value);

/// The document a YAML text parses to, carried into the crate's JSON
/// tree; a fixed function of the text alone, `None` where it is not
/// well-formed YAML.
pub uninterp spec fn yaml_of(raw: Seq<char>) -> Option<JsonValue>;

/// Relies on serde_yaml::from_str::<serde_yaml::Value> and the value's
/// accessors: the document carried over node for node into the crate's
/// JSON tree (a mapping as an object keyed by its string keys); `None`
/// when the text is not well-formed.
#[verifier::external_body]
pub fn yaml_parse(raw: &str) -> (r: Option<JsonValue>)
    ensures
        r == yaml_of(raw@),
{
    match serde_yaml::from_str::<serde_yaml::Value>(raw) {
        Ok(v) => Some(yaml_convert(v)),
        Err(_) => None,
    }
}

/// Relies on serde_yaml::Value's accessors: each node carried over one
/// for one, numbers as their rendering and integer values; a mapping key
/// that is not a string becomes the empty string.
#[verifier::external_body]
fn yaml_convert(v: serde_yaml::Value) -> (r: JsonValue) {
    match v {
        serde_yaml::Value::Null => JsonValue::Null,
        serde_yaml::Value::Bool(b) => JsonValue::Bool(b),
        serde_yaml::Value::Number(n) => JsonValue::Num { text: n.to_string(), int_val: n.as_i64(), uint_val: n.as_u64() },
        serde_yaml::Value::String(s) => JsonValue::Str(s),
        serde_yaml::Value::Sequence(items) => JsonValue::Arr(items.into_iter().map(yaml_convert).collect()),
        serde_yaml::Value::Mapping(map) => JsonValue::Obj(map.into_iter().map(|(k, v)| (k.as_str().unwrap_or_default().to_string(), yaml_convert(v))).collect()),
        serde_yaml::Value::Tagged(t) => yaml_convert(t.value),
    }
}

/// The record a parsed sidecar document describes: `tags` must be a list
/// of strings when present, `notes` a string or null, `rating` an
/// integer within a byte; any violation rejects the whole document.
pub open spec fn sidecar_of(doc: JsonValue) -> Option<SidecarModel> {
    match doc {
        JsonValue::Obj(entries) => {
            let tags = match crate::json::obj_get_spec(entries@, "tags"@) {
                Some(JsonValue::Arr(items)) => {
                    if forall|i: int|
                        0 <= i < items@.len() ==> #[trigger] items@[i] is Str {
                        Some(Seq::new(items@.len(), |i: int| items@[i]->Str_0@))
                    } else {
                        None
                    }
                },
                Some(JsonValue::Null) => None,
                Some(_) => None,
                None => Some(Seq::<Seq<char>>::empty()),
            };
            let notes = match crate::json::obj_get_spec(entries@, "notes"@) {
                Some(JsonValue::Str(s)) => Some(Some(s@)),
                Some(JsonValue::Null) => Some(None),
                Some(_) => None,
                None => Some(None),
            };
            let rating = match crate::json::obj_get_spec(entries@, "rating"@) {
                Some(JsonValue::Num { text, int_val, uint_val: Some(u) }) => if u <= 255 {
                    Some(Some(u as u8))
                } else {
                    None
                },
                Some(JsonValue::Num { text, int_val, uint_val: None }) => None,
                Some(JsonValue::Null) => Some(None),
                Some(_) => None,
                None => Some(None),
            };
            match (tags, notes, rating) {
                (Some(t), Some(n), Some(rt)) => Some(
                    SidecarModel { tags: t, notes: n, rating: rt },
                ),
                _ => None,
            }
        },
        _ => None,
    }
}

/// Builds the sidecar record a parsed document describes.
pub fn sidecar_from_json(doc: &JsonValue) -> (r: Option<SidecarData>)
    ensures
        match r {
            Some(d) => sidecar_of(*doc) == Some(d@),
            None => sidecar_of(*doc) is None,
        },
{
    let entries: &Vec<(String, JsonValue)> = match doc {
        JsonValue::Obj(e) => e,
        _ => {
            return None;
        },
    };
    let mut tags: Vec<String> = Vec::new();
    match crate::json::obj_get(entries, &chars_vec("tags")) {
        Some(v) => {
            match v {
                JsonValue::Arr(items) => {
                    let mut i: usize = 0;
                    while i < items.len()
                        invariant
                            0 <= i <= items@.len(),
                            *doc == JsonValue::Obj(*entries),
                            crate::json::obj_get_spec(entries@, "tags"@) == Some(
                                JsonValue::Arr(*items),
                            ),
                            forall|j: int| 0 <= j < i ==> #[trigger] items@[j] is Str,
                            crate::store::string_views(tags@) =~= Seq::new(
                                i as nat,
                                |j: int| items@[j]->Str_0@,
                            ),
                        decreases items.len() - i,
                    {
                        match &items[i] {
                            JsonValue::Str(s) => {
                                let ghost pre = crate::store::string_views(tags@);
                                tags.push(s.clone());
                                proof {
                                    assert(crate::store::string_views(tags@) =~~= pre.push(s@));
                                    assert(crate::store::string_views(tags@) =~= Seq::new(
                                        (i + 1) as nat,
                                        |j: int| items@[j]->Str_0@,
                                    ));
                                }
                            },
                            _ => {
                                proof {
                                    assert(!(items@[i as int] is Str));
                                    assert(sidecar_of(*doc) is None);
                                }
                                return None;
                            },
                        }
                        i += 1;
                    }
                },
                _ => {
                    return None;
                },
            }
        },
        None => {
            proof {
                assert(crate::store::string_views(tags@) =~= Seq::<Seq<char>>::empty());
            }
        },
    }
    let notes: Option<String> = match crate::json::obj_get(entries, &chars_vec("notes")) {
        Some(v) => match v {
            JsonValue::Str(s) => Some(s.clone()),
            JsonValue::Null => None,
            _ => {
                return None;
            },
        },
        None => None,
    };
    let rating: Option<u8> = match crate::json::obj_get(entries, &chars_vec("rating")) {
        Some(v) => match v {
            JsonValue::Num { text: _, int_val: _, uint_val: Some(u) } => {
                if *u <= 255 {
                    Some(*u as u8)
                } else {
                    return None;
                }
            },
            JsonValue::Null => None,
            _ => {
                return None;
            },
        },
        None => None,
    };
    let d = SidecarData { tags, notes, rating };
    proof {
        assert(sidecar_of(*doc) == Some(d@));
    }
    Some(d)
}

/// Reads a sidecar record out of file content, in the JSON shape or the
/// YAML shape: `Some` exactly when the text parses and its document fits
/// the record, and then the record is that document's.
pub fn read_sidecar(content: &str, json_format: bool) -> (r: Option<SidecarData>)
    ensures
        ({
            let parsed = if json_format {
                crate::json::json_of(content@)
            } else {
                yaml_of(content@)
            };
            match parsed {
                Some(doc) => match sidecar_of(doc) {
                    Some(m) => r matches Some(d) && d@ == m,
                    None => r is None,
                },
                None => r is None,
            }
        }),
{
    let doc = if json_format {
        crate::json::json_parse(content)
    } else {
        yaml_parse(content)
    };
    match doc {
        Some(doc) => sidecar_from_json(&doc),
        None => None,
    }
}

/// The tag block lines of the rendered document, one `- tag` line each.
pub open spec fn tag_lines(tags: Seq<Seq<char>>, i: int) -> Seq<char>
    decreases tags.len() - i,
    when 0 <= i <= tags.len()
{
    if i >= tags.len() {
        Seq::empty()
    } else {
        "- "@ + tags[i] + seq!['\n'] + tag_lines(tags, i + 1)
    }
}

/// The YAML document a record renders to: the tag block (an empty list
/// inline), then notes and rating lines only when set.
pub open spec fn sidecar_text_of(m: SidecarModel) -> Seq<char> {
    let header: Seq<char> = if m.tags.len() == 0 {
        "tags:"@ + " []"@ + seq!['\n']
    } else {
        "tags:"@ + seq!['\n']
    };
    let notes_line: Seq<char> = match m.notes {
        Some(n) => "notes: "@ + n + seq!['\n'],
        None => Seq::empty(),
    };
    let rating_line: Seq<char> = match m.rating {
        Some(rt) => "rating: "@ + crate::text::udec(rt as nat) + seq!['\n'],
        None => Seq::empty(),
    };
    header + tag_lines(m.tags, 0) + notes_line + rating_line
}

/// Renders a sidecar record as the YAML document the reader accepts
/// back: tags as a block list, notes and rating only when set.
pub fn write_sidecar_text(data: &SidecarData) -> (r: String)
    ensures
        r@ == sidecar_text_of(data@),
{
    let mut out = chars_vec("tags:");
    if data.tags.len() == 0 {
        crate::text::append_vec(&mut out, &chars_vec(" []"));
    }
    out.push('\n');
    let ghost header = out@;
    let ghost tv = data@.tags;
    let mut i: usize = 0;
    while i < data.tags.len()
        invariant
            0 <= i <= data.tags@.len(),
            tv == data@.tags,
            out@ + tag_lines(tv, i as int) == header + tag_lines(tv, 0),
        decreases data.tags.len() - i,
    {
        let ghost pre = out@;
        crate::text::append_vec(&mut out, &chars_vec("- "));
        crate::text::append_vec(&mut out, &chars_vec(data.tags[i].as_str()));
        out.push('\n');
        proof {
            assert(out@ =~= pre + ("- "@ + tv[i as int] + seq!['\n']));
            assert(out@ + tag_lines(tv, i + 1) =~= pre + tag_lines(tv, i as int));
        }
        i += 1;
    }
    proof {
        assert(tag_lines(tv, tv.len() as int) =~= Seq::<char>::empty());
        assert(out@ =~= header + tag_lines(tv, 0));
    }
    let ghost with_tags = out@;
    match &data.notes {
        Some(n) => {
            let ghost pre = out@;
            crate::text::append_vec(&mut out, &chars_vec("notes: "));
            crate::text::append_vec(&mut out, &chars_vec(n.as_str()));
            out.push('\n');
            proof {
                assert(out@ =~= pre + ("notes: "@ + n@ + seq!['\n']));
            }
        },
        None => {},
    }
    let ghost with_notes = out@;
    match &data.rating {
        Some(rt) => {
            let ghost pre = out@;
            crate::text::append_vec(&mut out, &chars_vec("rating: "));
            crate::text::append_vec(&mut out, &crate::text::u64_to_chars(*rt as u64));
            out.push('\n');
            proof {
                assert(out@ =~= pre + ("rating: "@ + crate::text::udec(*rt as nat)
                    + seq!['\n']));
            }
        },
        None => {},
    }
    proof {
        assert(out@ =~= sidecar_text_of(data@));
    }
    string_from_chars(&out)
}

} // verus!
