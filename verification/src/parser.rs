//! Generation-metadata parser for the textual "key: value" block format
//! emitted by the dominant desktop tool family.
//!
//! The grammar of the parameter block is deliberately mirrored, comma for
//! comma, by the spec functions in this module: a comma ends a field only
//! when, after optional whitespace, an uppercase-starting key of
//! alphanumeric/space/`_-/.()` characters reaches a colon before any
//! further comma or newline.

use crate::text::ascii_alnum;
use crate::text::chars_vec;
use crate::text::contains_sub;
use crate::text::digits_val;
use crate::text::find_first;
use crate::text::find_sub;
use crate::text::has_prefix;
use crate::text::has_prefix_exec;
use crate::text::is_u32_str;
use crate::text::lower_seq;
use crate::text::parse_u32_chars;
use crate::text::seq_eq;
use crate::text::string_from_chars;
use crate::text::subrange_vec;
use crate::text::to_ascii_lower;
use crate::text::trim;
use crate::text::trim_seq;
use crate::text::unsigned_body;
use crate::text::contains_sub_exec;
use crate::text::matches_at;
use vstd::prelude::*;

verus! {

/// Structured representation of parsed generation parameters.
///
/// Scalar fields are kept as the raw strings the upstream tool emitted;
/// callers parse them on demand.
pub struct GenerationParams {
    pub prompt: String,
    pub negative_prompt: String,
    pub steps: Option<String>,
    pub sampler: Option<String>,
    pub schedule_type: Option<String>,
    pub cfg_scale: Option<String>,
    pub seed: Option<String>,
    pub width: Option<u32>,
    pub height: Option<u32>,
    pub model_hash: Option<String>,
    pub model_name: Option<String>,
    pub generation_type: Option<String>,
    /// Remaining key-value parameters not explicitly mapped; at most one
    /// entry per key, latest value wins.
    pub extra_params: Vec<(String, String)>,
    /// The raw, unparsed metadata string, kept for fallback search.
    pub raw_metadata: String,
}

/// Mathematical model of `GenerationParams`.
#[verifier::ext_equal]
pub ghost struct ParamsModel {
    pub prompt: Seq<char>,
    pub negative_prompt: Seq<char>,
    pub steps: Option<Seq<char>>,
    pub sampler: Option<Seq<char>>,
    pub schedule_type: Option<Seq<char>>,
    pub cfg_scale: Option<Seq<char>>,
    pub seed: Option<Seq<char>>,
    pub width: Option<u32>,
    pub height: Option<u32>,
    pub model_hash: Option<Seq<char>>,
    pub model_name: Option<Seq<char>>,
    pub generation_type: Option<Seq<char>>,
    pub extra_params: Seq<(Seq<char>, Seq<char>)>,
    pub raw_metadata: Seq<char>,
}

pub open spec fn view_opt_str(o: Option<String>) -> Option<Seq<char>> {
    match o {
        Some(s) => Some(s@),
        None => None,
    }
}

pub open spec fn pairs_view(v: Seq<(String, String)>) -> Seq<(Seq<char>, Seq<char>)> {
    v.map_values(|p: (String, String)| (p.0@, p.1@))
}

impl View for GenerationParams {
    type V = ParamsModel;

    open spec fn view(&self) -> ParamsModel {
        ParamsModel {
            prompt: self.prompt@,
            negative_prompt: self.negative_prompt@,
            steps: view_opt_str(self.steps),
            sampler: view_opt_str(self.sampler),
            schedule_type: view_opt_str(self.schedule_type),
            cfg_scale: view_opt_str(self.cfg_scale),
            seed: view_opt_str(self.seed),
            width: self.width,
            height: self.height,
            model_hash: view_opt_str(self.model_hash),
            model_name: view_opt_str(self.model_name),
            generation_type: view_opt_str(self.generation_type),
            extra_params: pairs_view(self.extra_params@),
            raw_metadata: self.raw_metadata@,
        }
    }
}

/// The model with every field empty and the given raw text.
pub open spec fn empty_model(raw: Seq<char>) -> ParamsModel {
    ParamsModel {
        prompt: Seq::empty(),
        negative_prompt: Seq::empty(),
        steps: None,
        sampler: None,
        schedule_type: None,
        cfg_scale: None,
        seed: None,
        width: None,
        height: None,
        model_hash: None,
        model_name: None,
        generation_type: None,
        extra_params: Seq::empty(),
        raw_metadata: raw,
    }
}

pub fn empty_params(raw: &str) -> (r: GenerationParams)
    ensures
        r@ == empty_model(raw@),
{
    let r = GenerationParams {
        prompt: String::new(),
        negative_prompt: String::new(),
        steps: None,
        sampler: None,
        schedule_type: None,
        cfg_scale: None,
        seed: None,
        width: None,
        height: None,
        model_hash: None,
        model_name: None,
        generation_type: None,
        extra_params: Vec::new(),
        raw_metadata: raw.to_owned(),
    };
    proof {
        assert(pairs_view(r.extra_params@) =~= Seq::empty());
        assert(r@ =~~= empty_model(raw@));
    }
    r
}

impl Default for GenerationParams {
    /// All fields empty.
    fn default() -> (r: Self)
        ensures
            r@ == empty_model(Seq::empty()),
    {
        let r = GenerationParams {
            prompt: String::new(),
            negative_prompt: String::new(),
            steps: None,
            sampler: None,
            schedule_type: None,
            cfg_scale: None,
            seed: None,
            width: None,
            height: None,
            model_hash: None,
            model_name: None,
            generation_type: None,
            extra_params: Vec::new(),
            raw_metadata: String::new(),
        };
        proof {
            assert(pairs_view(r.extra_params@) =~= Seq::empty());
            assert(r@ =~~= empty_model(Seq::empty()));
        }
        r
    }
}

impl GenerationParams {
    /// Looks up an unmapped parameter by exact key.
    pub fn extra_param(&self, key: &str) -> (r: Option<&String>)
        ensures
            match r {
                Some(v) => exists|i: int|
                    0 <= i < self@.extra_params.len() && self@.extra_params[i].0 == key@
                        && self@.extra_params[i].1 == v@,
                None => forall|i: int|
                    0 <= i < self@.extra_params.len() ==> self@.extra_params[i].0 != key@,
            },
    {
        let kv = chars_vec(key);
        let mut i: usize = 0;
        while i < self.extra_params.len()
            invariant
                0 <= i <= self.extra_params@.len(),
                kv@ == key@,
                forall|j: int| 0 <= j < i ==> pairs_view(self.extra_params@)[j].0 != key@,
            decreases self.extra_params.len() - i,
        {
            let ek = chars_vec(self.extra_params[i].0.as_str());
            if seq_eq(&ek, &kv) {
                proof {
                    let ghost j = i as int;
                    assert(0 <= j < self@.extra_params.len() && self@.extra_params[j].0 == key@
                        && self@.extra_params[j].1 == self.extra_params@[j].1@);
                }
                return Some(&self.extra_params[i].1);
            }
            i += 1;
        }
        None
    }
}

// ─────────────────────── parameter block grammar ───────────────────────

/// ASCII whitespace as std's byte-level test has it.
pub open spec fn ascii_ws(c: char) -> bool {
    c == ' ' || c == '\t' || c == '\n' || c == '\r' || c == '\u{c}'
}

/// Characters allowed inside a parameter key.
pub open spec fn key_char(c: char) -> bool {
    ascii_alnum(c) || c == ' ' || c == '_' || c == '-' || c == '/' || c == '.' || c == '('
        || c == ')'
}

/// Scans a candidate key from `i`: true when a colon is reached after at
/// least one key character, before any comma or line break.
pub open spec fn kb_scan(s: Seq<char>, i: int, key_start: int) -> bool
    decreases s.len() - i,
    when 0 <= i <= s.len()
{
    if i >= s.len() {
        false
    } else if s[i] == ':' {
        i > key_start
    } else if s[i] == ',' || s[i] == '\n' || s[i] == '\r' {
        false
    } else if key_char(s[i]) {
        kb_scan(s, i + 1, key_start)
    } else {
        false
    }
}

/// First index at or after `i` holding a non-whitespace character.
pub open spec fn skip_ws(s: Seq<char>, i: int) -> int
    decreases s.len() - i,
    when 0 <= i <= s.len()
{
    if i >= s.len() {
        i
    } else if ascii_ws(s[i]) {
        skip_ws(s, i + 1)
    } else {
        i
    }
}

/// A comma at `from - 1` is a field boundary: after optional whitespace an
/// uppercase-starting key runs into a colon.
pub open spec fn key_boundary(s: Seq<char>, from: int) -> bool {
    let i = skip_ws(s, from)
    ;
    if i >= s.len() || !('A' <= s[i] && s[i] <= 'Z') {
        false
    } else {
        kb_scan(s, i + 1, i)
    }
}

proof fn lemma_skip_ws_bounds(s: Seq<char>, i: int)
    requires
        0 <= i <= s.len(),
    ensures
        i <= skip_ws(s, i) <= s.len(),
    decreases s.len() - i,
{
    if i < s.len() && ascii_ws(s[i]) {
        lemma_skip_ws_bounds(s, i + 1);
    }
}

fn is_ascii_ws_char(c: char) -> (r: bool)
    ensures
        r == ascii_ws(c),
{
    c == ' ' || c == '\t' || c == '\n' || c == '\r' || c == '\u{c}'
}

pub fn is_key_boundary_after_comma(block: &Vec<char>, from_idx: usize) -> (r: bool)
    requires
        from_idx <= block@.len(),
    ensures
        r == key_boundary(block@, from_idx as int),
{
    let mut i: usize = from_idx;
    while i < block.len() && is_ascii_ws_char(block[i])
        invariant
            from_idx <= i <= block@.len(),
            skip_ws(block@, from_idx as int) == skip_ws(block@, i as int),
        decreases block.len() - i,
    {
        i += 1;
    }
    proof {
        assert(skip_ws(block@, i as int) == i as int);
    }
    if i >= block.len() {
        return false;
    }
    let c0 = block[i];
    if !('A' <= c0 && c0 <= 'Z') {
        return false;
    }
    let key_start: usize = i;
    i += 1;
    while i < block.len()
        invariant
            key_start < i <= block@.len(),
            key_start == skip_ws(block@, from_idx as int),
            'A' <= block@[key_start as int] && block@[key_start as int] <= 'Z',
            kb_scan(block@, key_start + 1, key_start as int) == kb_scan(
                block@,
                i as int,
                key_start as int,
            ),
        decreases block.len() - i,
    {
        let c = block[i];
        if c == ':' {
            return true;
        }
        if c == ',' || c == '\n' || c == '\r' {
            return false;
        }
        let valid = ('a' <= c && c <= 'z') || ('A' <= c && c <= 'Z') || ('0' <= c && c <= '9')
            || c == ' ' || c == '_' || c == '-' || c == '/' || c == '.' || c == '(' || c == ')';
        if !valid {
            return false;
        }
        i += 1;
    }
    false
}

/// The parameter block split into `Key: Value` segments, trimmed, empty
/// segments dropped; commas inside double quotes or not followed by a key
/// pattern do not split.
pub open spec fn split_pairs_from(block: Seq<char>, start: int, i: int, in_quotes: bool) -> Seq<
    Seq<char>,
>
    decreases block.len() - i,
    when 0 <= start <= i <= block.len()
{
    if i >= block.len() {
        let tail = trim_seq(block.subrange(start, block.len() as int));
        if tail.len() > 0 {
            seq![tail]
        } else {
            Seq::empty()
        }
    } else if block[i] == '"' {
        split_pairs_from(block, start, i + 1, !in_quotes)
    } else if block[i] == ',' && !in_quotes && key_boundary(block, i + 1) {
        let seg = trim_seq(block.subrange(start, i));
        if seg.len() > 0 {
            seq![seg] + split_pairs_from(block, i + 1, i + 1, in_quotes)
        } else {
            split_pairs_from(block, i + 1, i + 1, in_quotes)
        }
    } else {
        split_pairs_from(block, start, i + 1, in_quotes)
    }
}

pub open spec fn split_pairs_spec(block: Seq<char>) -> Seq<Seq<char>> {
    split_pairs_from(block, 0, 0, false)
}

pub fn split_parameter_pairs(block: &Vec<char>) -> (r: Vec<Vec<char>>)
    ensures
        r.deep_view() == split_pairs_spec(block@),
{
    let mut pairs: Vec<Vec<char>> = Vec::new();
    let mut start: usize = 0;
    let mut in_quotes: bool = false;
    let mut i: usize = 0;
    while i < block.len()
        invariant
            0 <= start <= i <= block@.len(),
            split_pairs_spec(block@) =~~= pairs.deep_view() + split_pairs_from(
                block@,
                start as int,
                i as int,
                in_quotes,
            ),
        decreases block.len() - i,
    {
        let ghost old_pairs = pairs.deep_view();
        let c = block[i];
        if c == '"' {
            in_quotes = !in_quotes;
        } else if c == ',' && !in_quotes && is_key_boundary_after_comma(block, i + 1) {
            let segment = trim(&subrange_vec(block, start, i));
            if segment.len() > 0 {
                pairs.push(segment);
                proof {
                    assert(pairs.deep_view() =~~= old_pairs.push(trim_seq(
                        block@.subrange(start as int, i as int),
                    )));
                    assert(old_pairs.push(trim_seq(block@.subrange(start as int, i as int)))
                        + split_pairs_from(block@, i + 1, i + 1, in_quotes) =~~= old_pairs + (seq![
                        trim_seq(block@.subrange(start as int, i as int)),
                    ] + split_pairs_from(block@, i + 1, i + 1, in_quotes)));
                }
            }
            start = i + 1;
        }
        i += 1;
    }
    let tail = trim(&subrange_vec(block, start, block.len()));
    let ghost old_pairs = pairs.deep_view();
    if tail.len() > 0 {
        pairs.push(tail);
        proof {
            assert(pairs.deep_view() =~~= old_pairs.push(trim_seq(
                block@.subrange(start as int, block@.len() as int),
            )));
            assert(old_pairs.push(trim_seq(block@.subrange(start as int, block@.len() as int)))
                =~~= old_pairs + seq![
                trim_seq(block@.subrange(start as int, block@.len() as int)),
            ]);
        }
    } else {
        proof {
            assert(pairs.deep_view() + Seq::<Seq<char>>::empty() =~~= pairs.deep_view());
        }
    }
    pairs
}

// ─────────────────────── key normalization ───────────────────────

/// Key synonyms used by variant tools are folded onto canonical names.
pub open spec fn normalize_key_spec(key: Seq<char>) -> Seq<char> {
    let lk = lower_seq(trim_seq(key));
    if lk == "guidance"@ || lk == "distilled_cfg_scale"@ {
        "cfg_scale"@
    } else if lk == "model"@ || lk == "checkpoint"@ {
        "model"@
    } else if lk == "schedule"@ {
        "schedule_type"@
    } else {
        trim_seq(key)
    }
}

pub fn normalize_key(key: &Vec<char>) -> (r: Vec<char>)
    ensures
        r@ == normalize_key_spec(key@),
{
    let t = trim(key);
    let lk = to_ascii_lower(&t);
    if seq_eq(&lk, &chars_vec("guidance")) || seq_eq(&lk, &chars_vec("distilled_cfg_scale")) {
        chars_vec("cfg_scale")
    } else if seq_eq(&lk, &chars_vec("model")) || seq_eq(&lk, &chars_vec("checkpoint")) {
        chars_vec("model")
    } else if seq_eq(&lk, &chars_vec("schedule")) {
        chars_vec("schedule_type")
    } else {
        t
    }
}

// ─────────────────────── applying one pair ───────────────────────

/// Effect of one `Key: Value` segment on the parameter record.
pub open spec fn apply_pair(m: ParamsModel, pair: Seq<char>) -> ParamsModel {
    match find_first(pair, seq![':'], 0) {
        Some(ci) => {
            let key = trim_seq(pair.take(ci));
            let value = trim_seq(pair.skip(ci + 1));
            let nk = lower_seq(normalize_key_spec(key));
            if nk == "steps"@ {
                ParamsModel { steps: Some(value), ..m }
            } else if nk == "sampler"@ {
                ParamsModel { sampler: Some(value), ..m }
            } else if nk == "schedule type"@ || nk == "schedule_type"@ {
                ParamsModel { schedule_type: Some(value), ..m }
            } else if nk == "cfg scale"@ || nk == "cfg_scale"@ {
                ParamsModel { cfg_scale: Some(value), ..m }
            } else if nk == "seed"@ {
                ParamsModel { seed: Some(value), ..m }
            } else if nk == "model hash"@ {
                ParamsModel { model_hash: Some(value), ..m }
            } else if nk == "model"@ {
                ParamsModel { model_name: Some(value), ..m }
            } else if nk == "size"@ {
                match find_first(value, seq!['x'], 0) {
                    Some(xi) => {
                        let w = trim_seq(value.take(xi));
                        let h = trim_seq(value.skip(xi + 1));
                        ParamsModel {
                            width: if is_u32_str(w) {
                                Some(digits_val(unsigned_body(w)) as u32)
                            } else {
                                None
                            },
                            height: if is_u32_str(h) {
                                Some(digits_val(unsigned_body(h)) as u32)
                            } else {
                                None
                            },
                            ..m
                        }
                    },
                    None => m,
                }
            } else {
                ParamsModel { extra_params: extra_insert(m.extra_params, key, value), ..m }
            }
        },
        None => m,
    }
}

/// Index of the first entry with the given key.
pub open spec fn key_idx_from(
    pairs: Seq<(Seq<char>, Seq<char>)>,
    k: Seq<char>,
    from: int,
) -> Option<int>
    decreases pairs.len() - from,
    when 0 <= from <= pairs.len()
{
    if from >= pairs.len() {
        None
    } else if pairs[from].0 == k {
        Some(from)
    } else {
        key_idx_from(pairs, k, from + 1)
    }
}

/// Insert-or-update: at most one entry per key, latest value wins.
pub open spec fn extra_insert(
    pairs: Seq<(Seq<char>, Seq<char>)>,
    k: Seq<char>,
    v: Seq<char>,
) -> Seq<(Seq<char>, Seq<char>)> {
    match key_idx_from(pairs, k, 0) {
        Some(i) => pairs.update(i, (k, v)),
        None => pairs.push((k, v)),
    }
}

/// Inserts into the unmapped-parameter list, updating in place when the key
/// is already present.
fn extra_insert_exec(extra: &mut Vec<(String, String)>, key: &Vec<char>, value: &Vec<char>)
    ensures
        pairs_view(final(extra)@) == extra_insert(pairs_view(old(extra)@), key@, value@),
{
    let ghost pv = pairs_view(extra@);
    let mut i: usize = 0;
    while i < extra.len()
        invariant
            0 <= i <= extra@.len(),
            pairs_view(extra@) == pv,
            pv == pairs_view(old(extra)@),
            key_idx_from(pv, key@, 0) == key_idx_from(pv, key@, i as int),
        decreases extra.len() - i,
    {
        let ek = chars_vec(extra[i].0.as_str());
        if seq_eq(&ek, key) {
            proof {
                assert(pv[i as int].0 == key@);
                assert(key_idx_from(pv, key@, i as int) == Some(i as int));
            }
            let ks = string_from_chars(key);
            let vs = string_from_chars(value);
            extra.set(i, (ks, vs));
            proof {
                assert(pairs_view(extra@) =~= pv.update(i as int, (key@, value@)));
            }
            return ;
        }
        proof {
            assert(pv[i as int].0 != key@);
        }
        i += 1;
    }
    let ks = string_from_chars(key);
    let vs = string_from_chars(value);
    extra.push((ks, vs));
    proof {
        assert(key_idx_from(pv, key@, pv.len() as int) is None);
        assert(pairs_view(extra@) =~= pv.push((key@, value@)));
    }
}

/// Applies the segments left to right.
pub open spec fn apply_pairs(m: ParamsModel, pairs: Seq<Seq<char>>) -> ParamsModel
    decreases pairs.len(),
{
    if pairs.len() == 0 {
        m
    } else {
        apply_pairs(apply_pair(m, pairs[0]), pairs.skip(1))
    }
}

pub proof fn lemma_apply_pairs_snoc(m: ParamsModel, pairs: Seq<Seq<char>>, p: Seq<char>)
    ensures
        apply_pairs(m, pairs.push(p)) == apply_pair(apply_pairs(m, pairs), p),
    decreases pairs.len(),
{
    if pairs.len() == 0 {
        assert(pairs.push(p)[0] == p);
        assert(pairs.push(p).skip(1) =~= Seq::<Seq<char>>::empty());
        assert(apply_pairs(m, pairs.push(p)) == apply_pairs(apply_pair(m, p), pairs.push(p).skip(
            1,
        )));
        assert(apply_pairs(apply_pair(m, p), Seq::<Seq<char>>::empty()) == apply_pair(m, p));
    } else {
        assert(pairs.push(p)[0] == pairs[0]);
        assert(pairs.push(p).skip(1) =~= pairs.skip(1).push(p));
        lemma_apply_pairs_snoc(apply_pair(m, pairs[0]), pairs.skip(1), p);
    }
}

/// Parses the `Steps: 20, Sampler: Euler a, ...` parameter block into the
/// record, one segment at a time.
pub fn parse_parameter_block(block: &Vec<char>, params: &mut GenerationParams)
    ensures
        final(params)@ == apply_pairs(old(params)@, split_pairs_spec(block@)),
{
    let pairs = split_parameter_pairs(block);
    let ghost pv = pairs.deep_view();
    let ghost m0 = params@;
    let mut i: usize = 0;
    while i < pairs.len()
        invariant
            0 <= i <= pairs@.len(),
            pv == pairs.deep_view(),
            pv == split_pairs_spec(block@),
            params@ == apply_pairs(m0, pv.take(i as int)),
        decreases pairs.len() - i,
    {
        let ghost m_before = params@;
        apply_one_pair(&pairs[i], params);
        proof {
            assert(pv.take(i + 1) =~= pv.take(i as int).push(pv[i as int]));
            lemma_apply_pairs_snoc(m0, pv.take(i as int), pv[i as int]);
            assert(pairs[i as int]@ == pv[i as int]);
        }
        i += 1;
    }
    proof {
        assert(pv.take(pv.len() as int) =~= pv);
    }
}

fn apply_one_pair(pair: &Vec<char>, params: &mut GenerationParams)
    ensures
        final(params)@ == apply_pair(old(params)@, pair@),
{
    let colon_pat = chars_vec(":");
    proof {
        assert(colon_pat@ =~= seq![':']) by {
            reveal_strlit(":");
        }
    }
    let colon = find_sub(pair, &colon_pat, 0);
    match colon {
        Some(ci) => {
            proof {
                assert(matches_at(pair@, colon_pat@, ci as int));
                assert(ci + 1 <= pair@.len());
                assert(ci < pair.len());
            }
            let key = trim(&subrange_vec(pair, 0, ci));
            let value = trim(&subrange_vec(pair, ci + 1, pair.len()));
            proof {
                assert(pair@.take(ci as int) =~= pair@.subrange(0, ci as int));
                assert(pair@.skip(ci + 1) =~= pair@.subrange(ci + 1, pair@.len() as int));
            }
            let nk = to_ascii_lower(&normalize_key(&key));
            let vs = string_from_chars(&value);
            if seq_eq(&nk, &chars_vec("steps")) {
                params.steps = Some(vs);
            } else if seq_eq(&nk, &chars_vec("sampler")) {
                params.sampler = Some(vs);
            } else if seq_eq(&nk, &chars_vec("schedule type")) || seq_eq(
                &nk,
                &chars_vec("schedule_type"),
            ) {
                params.schedule_type = Some(vs);
            } else if seq_eq(&nk, &chars_vec("cfg scale")) || seq_eq(&nk, &chars_vec("cfg_scale")) {
                params.cfg_scale = Some(vs);
            } else if seq_eq(&nk, &chars_vec("seed")) {
                params.seed = Some(vs);
            } else if seq_eq(&nk, &chars_vec("model hash")) {
                params.model_hash = Some(vs);
            } else if seq_eq(&nk, &chars_vec("model")) {
                params.model_name = Some(vs);
            } else if seq_eq(&nk, &chars_vec("size")) {
                let x_pat = chars_vec("x");
                proof {
                    assert(x_pat@ =~= seq!['x']) by {
                        reveal_strlit("x");
                    }
                }
                let x = find_sub(&value, &x_pat, 0);
                match x {
                    Some(xi) => {
                        proof {
                            assert(matches_at(value@, x_pat@, xi as int));
                            assert(xi + 1 <= value@.len());
                            assert(xi < value.len());
                        }
                        let w = trim(&subrange_vec(&value, 0, xi));
                        let h = trim(&subrange_vec(&value, xi + 1, value.len()));
                        proof {
                            assert(value@.take(xi as int) =~= value@.subrange(0, xi as int));
                            assert(value@.skip(xi + 1) =~= value@.subrange(
                                xi + 1,
                                value@.len() as int,
                            ));
                        }
                        params.width = parse_u32_chars(&w);
                        params.height = parse_u32_chars(&h);
                    },
                    None => {},
                }
            } else {
                extra_insert_exec(&mut params.extra_params, &key, &value);
            }
            proof {
                assert(final(params)@ =~~= apply_pair(old(params)@, pair@));
            }
        },
        None => {
            proof {
                assert(final(params)@ =~~= apply_pair(old(params)@, pair@));
            }
        },
    }
}

// ─────────────────────── section splitting ───────────────────────

/// Full parse of the textual metadata format: the text is split at the
/// literal markers `Negative prompt:` and `Steps:` into prompt, negative
/// prompt and parameter block, and the block's segments are applied.
pub open spec fn a1111_spec(raw: Seq<char>) -> ParamsModel {
    let base = empty_model(raw);
    let t = trim_seq(raw);
    if t.len() == 0 {
        base
    } else {
        match find_first(t, "Negative prompt:"@, 0) {
            Some(ni) => {
                let with_p = ParamsModel { prompt: trim_seq(t.take(ni)), ..base };
                let rest = trim_seq(t.skip(ni + "Negative prompt:"@.len()));
                match find_first(rest, "\nSteps:"@, 0) {
                    Some(si) => apply_pairs(
                        ParamsModel { negative_prompt: trim_seq(rest.take(si)), ..with_p },
                        split_pairs_spec(trim_seq(rest.skip(si + 1))),
                    ),
                    None => match find_first(rest, "Steps:"@, 0) {
                        Some(si) => apply_pairs(
                            ParamsModel { negative_prompt: trim_seq(rest.take(si)), ..with_p },
                            split_pairs_spec(trim_seq(rest.skip(si))),
                        ),
                        None => ParamsModel { negative_prompt: rest, ..with_p },
                    },
                }
            },
            None => {
                match find_first(t, "\nSteps:"@, 0) {
                    Some(si) => apply_pairs(
                        ParamsModel { prompt: trim_seq(t.take(si)), ..base },
                        split_pairs_spec(trim_seq(t.skip(si + 1))),
                    ),
                    None => {
                        if has_prefix(t, "Steps:"@) {
                            apply_pairs(base, split_pairs_spec(t))
                        } else {
                            ParamsModel { prompt: t, ..base }
                        }
                    },
                }
            },
        }
    }
}

/// Parses a raw metadata string of the `{prompt}\nNegative prompt: {neg}\n
/// Steps: N, Sampler: X, ...` shape into a structured record.
///
/// Colons inside weighted prompt fragments, commas inside quoted values and
/// a missing negative-prompt section are all handled as `a1111_spec` states.
pub fn parse_a1111_metadata(raw: &str) -> (r: GenerationParams)
    ensures
        r@ == a1111_spec(raw@),
{
    let rc = chars_vec(raw);
    let mut params = empty_params(raw);
    let t = trim(&rc);
    if t.len() == 0 {
        return params;
    }
    let neg_pat = chars_vec("Negative prompt:");
    let nl_steps_pat = chars_vec("\nSteps:");
    let steps_pat = chars_vec("Steps:");
    proof {
        reveal_strlit("Negative prompt:");
        reveal_strlit("\nSteps:");
        reveal_strlit("Steps:");
    }
    match find_sub(&t, &neg_pat, 0) {
        Some(ni) => {
            proof {
                assert(ni + neg_pat@.len() <= t@.len());
                assert(ni <= t.len() && neg_pat.len() <= t.len());
            }
            let prompt = trim(&subrange_vec(&t, 0, ni));
            let rest = trim(&subrange_vec(&t, ni + neg_pat.len(), t.len()));
            proof {
                assert(t@.take(ni as int) =~= t@.subrange(0, ni as int));
                assert(t@.skip(ni + "Negative prompt:"@.len()) =~= t@.subrange(
                    ni + neg_pat@.len(),
                    t@.len() as int,
                ));
            }
            params.prompt = string_from_chars(&prompt);
            match find_sub(&rest, &nl_steps_pat, 0) {
                Some(si) => {
                    proof {
                        assert(si + nl_steps_pat@.len() <= rest@.len());
                        assert(si < rest.len());
                    }
                    let neg = trim(&subrange_vec(&rest, 0, si));
                    let block = trim(&subrange_vec(&rest, si + 1, rest.len()));
                    proof {
                        assert(rest@.take(si as int) =~= rest@.subrange(0, si as int));
                        assert(rest@.skip(si + 1) =~= rest@.subrange(si + 1, rest@.len() as int));
                    }
                    params.negative_prompt = string_from_chars(&neg);
                    parse_parameter_block(&block, &mut params);
                },
                None => {
                    match find_sub(&rest, &steps_pat, 0) {
                        Some(si) => {
                            proof {
                                assert(si + steps_pat@.len() <= rest@.len());
                            }
                            let neg = trim(&subrange_vec(&rest, 0, si));
                            let block = trim(&subrange_vec(&rest, si, rest.len()));
                            proof {
                                assert(rest@.take(si as int) =~= rest@.subrange(0, si as int));
                                assert(rest@.skip(si as int) =~= rest@.subrange(
                                    si as int,
                                    rest@.len() as int,
                                ));
                            }
                            params.negative_prompt = string_from_chars(&neg);
                            parse_parameter_block(&block, &mut params);
                        },
                        None => {
                            params.negative_prompt = string_from_chars(&rest);
                        },
                    }
                },
            }
        },
        None => {
            match find_sub(&t, &nl_steps_pat, 0) {
                Some(si) => {
                    proof {
                        assert(si + nl_steps_pat@.len() <= t@.len());
                        assert(si < t.len());
                    }
                    let prompt = trim(&subrange_vec(&t, 0, si));
                    let block = trim(&subrange_vec(&t, si + 1, t.len()));
                    proof {
                        assert(t@.take(si as int) =~= t@.subrange(0, si as int));
                        assert(t@.skip(si + 1) =~= t@.subrange(si + 1, t@.len() as int));
                    }
                    params.prompt = string_from_chars(&prompt);
                    parse_parameter_block(&block, &mut params);
                },
                None => {
                    if has_prefix_exec(&t, &steps_pat) {
                        parse_parameter_block(&t, &mut params);
                    } else {
                        params.prompt = string_from_chars(&t);
                    }
                },
            }
        },
    }
    proof {
        assert(params@ =~~= a1111_spec(raw@));
    }
    params
}

// ─────────────────────── generation-type inference ───────────────────────

pub open spec fn grid_meta(m: Seq<char>) -> bool {
    contains_sub(m, "script: x/y/z plot"@) || contains_sub(m, "script: xyz plot"@) || contains_sub(
        m,
        "x values:"@,
    ) || contains_sub(m, "y values:"@)
}

pub open spec fn inpaint_meta(m: Seq<char>) -> bool {
    contains_sub(m, "inpaint"@) || contains_sub(m, "mask blur"@) || contains_sub(
        m,
        "inpaint area"@,
    ) || contains_sub(m, "masked content"@) || contains_sub(
        m,
        "\"class_type\":\"inpaintmodelconditioning\""@,
    ) || contains_sub(m, "\"class_type\":\"loadimagemask\""@)
}

pub open spec fn upscale_meta(m: Seq<char>) -> bool {
    contains_sub(m, "upscaler"@) || contains_sub(m, "upscale by"@) || contains_sub(
        m,
        "postprocess upscaler"@,
    ) || contains_sub(m, "\"class_type\":\"imageupscalewithmodel\""@)
}

pub open spec fn img2img_meta(m: Seq<char>) -> bool {
    contains_sub(m, "img2img"@) || contains_sub(m, "denoising strength"@) || contains_sub(
        m,
        "init image"@,
    ) || contains_sub(m, "\"class_type\":\"loadimage\""@)
}

pub open spec fn hires_meta(m: Seq<char>) -> bool {
    contains_sub(m, "hires upscale"@) || contains_sub(m, "hires steps"@) || contains_sub(
        m,
        "hires upscaler"@,
    ) || contains_sub(m, "hires resize"@)
}

/// Generation-type classification over the lower-cased raw text, by ordered
/// keyword heuristics: grid markers, then inpaint, then upscale, then
/// img2img (with a hires-fix exception), then txt2img or unknown.
pub open spec fn infer_type_spec(raw: Seq<char>) -> Seq<char> {
    let m = lower_seq(raw);
    if grid_meta(m) {
        "grid"@
    } else if inpaint_meta(m) {
        "inpaint"@
    } else if upscale_meta(m) {
        "upscale"@
    } else if img2img_meta(m) {
        if hires_meta(m) && !contains_sub(m, "init image"@) && !contains_sub(m, "img2img"@)
            && !inpaint_meta(m) {
            "txt2img"@
        } else {
            "img2img"@
        }
    } else if trim_seq(m).len() == 0 {
        "unknown"@
    } else {
        "txt2img"@
    }
}

pub fn infer_generation_type(raw_metadata: &str) -> (r: String)
    ensures
        r@ == infer_type_spec(raw_metadata@),
{
    let rc = chars_vec(raw_metadata);
    let m = to_ascii_lower(&rc);
    let is_grid = contains_sub_exec(&m, &chars_vec("script: x/y/z plot")) || contains_sub_exec(
        &m,
        &chars_vec("script: xyz plot"),
    ) || contains_sub_exec(&m, &chars_vec("x values:")) || contains_sub_exec(
        &m,
        &chars_vec("y values:"),
    );
    if is_grid {
        return "grid".to_owned();
    }
    let is_inpaint = contains_sub_exec(&m, &chars_vec("inpaint")) || contains_sub_exec(
        &m,
        &chars_vec("mask blur"),
    ) || contains_sub_exec(&m, &chars_vec("inpaint area")) || contains_sub_exec(
        &m,
        &chars_vec("masked content"),
    ) || contains_sub_exec(&m, &chars_vec("\"class_type\":\"inpaintmodelconditioning\""))
        || contains_sub_exec(&m, &chars_vec("\"class_type\":\"loadimagemask\""));
    if is_inpaint {
        return "inpaint".to_owned();
    }
    let is_upscale = contains_sub_exec(&m, &chars_vec("upscaler")) || contains_sub_exec(
        &m,
        &chars_vec("upscale by"),
    ) || contains_sub_exec(&m, &chars_vec("postprocess upscaler")) || contains_sub_exec(
        &m,
        &chars_vec("\"class_type\":\"imageupscalewithmodel\""),
    );
    if is_upscale {
        return "upscale".to_owned();
    }
    let has_img2img = contains_sub_exec(&m, &chars_vec("img2img")) || contains_sub_exec(
        &m,
        &chars_vec("denoising strength"),
    ) || contains_sub_exec(&m, &chars_vec("init image")) || contains_sub_exec(
        &m,
        &chars_vec("\"class_type\":\"loadimage\""),
    );
    if has_img2img {
        let has_hires = contains_sub_exec(&m, &chars_vec("hires upscale")) || contains_sub_exec(
            &m,
            &chars_vec("hires steps"),
        ) || contains_sub_exec(&m, &chars_vec("hires upscaler")) || contains_sub_exec(
            &m,
            &chars_vec("hires resize"),
        );
        if has_hires && !contains_sub_exec(&m, &chars_vec("init image")) && !contains_sub_exec(
            &m,
            &chars_vec("img2img"),
        ) && !is_inpaint {
            return "txt2img".to_owned();
        }
        return "img2img".to_owned();
    }
    if trim(&m).len() == 0 {
        "unknown".to_owned()
    } else {
        "txt2img".to_owned()
    }
}

// ─────────────────────── top-level parse ───────────────────────

/// The base record of a raw text: the JSON document's record when the
/// text parses as JSON with recognized content, else the textual parse.
pub open spec fn generation_base(raw: Seq<char>) -> ParamsModel {
    match crate::json::json_of(raw) {
        Some(doc) => match crate::json::json_params_spec(doc, raw) {
            Some(m) => m,
            None => a1111_spec(raw),
        },
        None => a1111_spec(raw),
    }
}

/// A base record with the generation type filled in from the raw text.
pub open spec fn with_inferred_type(raw: Seq<char>, base: ParamsModel) -> ParamsModel {
    ParamsModel { generation_type: Some(infer_type_spec(raw)), ..base }
}

/// Parses generation metadata in either supported shape: the JSON node
/// graph exactly when the text parses as JSON and yields recognized
/// content, else the textual format; the generation type is inferred
/// over the raw text in both cases.
pub fn parse_generation_metadata(raw: &str) -> (r: GenerationParams)
    ensures
        r@ == with_inferred_type(raw@, generation_base(raw@)),
{
    let mut params = match crate::json::parse_json_metadata(raw) {
        Some(p) => p,
        None => parse_a1111_metadata(raw),
    };
    let ghost m0 = params@;
    proof {
        assert(m0 == generation_base(raw@));
    }
    params.generation_type = Some(infer_generation_type(raw));
    proof {
        assert(params@ =~~= with_inferred_type(raw@, m0));
    }
    params
}

} // verus!
