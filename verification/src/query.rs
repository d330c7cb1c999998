//! Query preparation: full-text query sanitization, sort configuration,
//! and the normalizers for generation-type and model-family filters.

use crate::tags::run_end;
use crate::text::chars_vec;
use crate::text::contains_sub;
use crate::text::find_first;
use crate::text::find_sub;
use crate::text::is_alnum_char;
use crate::text::is_space;
use crate::text::is_space_char;
use crate::text::join_seq;
use crate::text::lower_seq;
use crate::text::matches_at;
use crate::text::seq_eq;
use crate::text::string_from_chars;
use crate::text::subrange_vec;
use crate::text::to_ascii_lower;
use crate::text::trim;
use crate::text::trim_seq;
use crate::text::unicode_alnum;
use crate::text::views_of_vecs;
use vstd::prelude::*;

verus! {

// ─────────────────────── whitespace words ───────────────────────

/// The whitespace-delimited words of a text.
pub open spec fn ws_words(s: Seq<char>, i: int) -> Seq<Seq<char>>
    decreases s.len() - i,
    when 0 <= i <= s.len()
{
    if i >= s.len() {
        Seq::empty()
    } else if is_space(s[i]) {
        ws_words(s, i + 1)
    } else {
        let e = run_end(s, i, |c: char| is_space(c));
        if i < e <= s.len() {
            seq![s.subrange(i, e)] + ws_words(s, e)
        } else {
            Seq::empty()
        }
    }
}

/// Splits a character vector into whitespace-delimited words.
pub fn split_ws(s: &Vec<char>) -> (r: Vec<Vec<char>>)
    ensures
        views_of_vecs(r@) == ws_words(s@, 0),
{
    let mut out: Vec<Vec<char>> = Vec::new();
    let mut i: usize = 0;
    proof {
        assert(views_of_vecs(out@) =~= Seq::<Seq<char>>::empty());
    }
    while i < s.len()
        invariant
            0 <= i <= s@.len(),
            ws_words(s@, 0) == views_of_vecs(out@) + ws_words(s@, i as int),
        decreases s.len() - i,
    {
        if is_space_char(s[i]) {
            i += 1;
        } else {
            let mut j: usize = i + 1;
            while j < s.len() && !is_space_char(s[j])
                invariant
                    i < j <= s@.len(),
                    run_end(s@, i as int, |c: char| is_space(c)) == run_end(
                        s@,
                        j as int,
                        |c: char| is_space(c),
                    ),
                decreases s@.len() - j,
            {
                j += 1;
            }
            proof {
                assert(run_end(s@, j as int, |c: char| is_space(c)) == j as int);
            }
            let ghost pre = views_of_vecs(out@);
            out.push(subrange_vec(s, i, j));
            proof {
                assert(views_of_vecs(out@) =~~= pre + seq![s@.subrange(i as int, j as int)]);
                assert((pre + seq![s@.subrange(i as int, j as int)]) + ws_words(s@, j as int)
                    =~= pre + (seq![s@.subrange(i as int, j as int)] + ws_words(s@, j as int)));
            }
            i = j;
        }
    }
    proof {
        assert(views_of_vecs(out@) + Seq::<Seq<char>>::empty() =~= views_of_vecs(out@));
    }
    out
}

// ─────────────────────── query sanitization ───────────────────────

/// Characters kept in an unquoted search word.
pub open spec fn uq_char(c: char) -> bool {
    unicode_alnum(c) || c == '_' || c == '*'
}

/// What one unquoted word contributes: punctuation dropped, the word
/// lower-cased, and a trailing prefix wildcard added unless the user
/// supplied one.
pub open spec fn uq_keep(w: Seq<char>) -> Option<Seq<char>> {
    let cleaned = w.filter(|c: char| uq_char(c));
    if cleaned.len() == 0 || cleaned =~= seq!['*'] {
        None
    } else if w.contains('*') {
        Some(lower_seq(cleaned))
    } else {
        Some(lower_seq(cleaned).push('*'))
    }
}

pub open spec fn uq_parts(words: Seq<Seq<char>>) -> Seq<Seq<char>>
    decreases words.len(),
{
    if words.len() == 0 {
        Seq::empty()
    } else {
        let rest = uq_parts(words.skip(1));
        match uq_keep(words[0]) {
            Some(p) => seq![p] + rest,
            None => rest,
        }
    }
}

/// Characters kept inside a quoted phrase.
pub open spec fn phrase_char(c: char) -> bool {
    unicode_alnum(c) || is_space(c) || c == '_'
}

/// What a quoted phrase contributes: punctuation dropped, inner whitespace
/// collapsed, lower-cased and kept as an exact phrase.
pub open spec fn phrase_keep(ph: Seq<char>) -> Option<Seq<char>> {
    let cleaned = ph.filter(|c: char| phrase_char(c));
    let joined = join_seq(ws_words(cleaned, 0), " "@);
    if joined.len() > 0 {
        Some(seq!['"'] + lower_seq(joined) + seq!['"'])
    } else {
        None
    }
}

/// The sanitized parts of the query text: quoted phrases kept as phrases,
/// unquoted words as prefix terms.
pub open spec fn sanitize_parts(rem: Seq<char>) -> Seq<Seq<char>>
    decreases rem.len(),
{
    match find_first(rem, seq!['"'], 0) {
        None => uq_parts(ws_words(rem, 0)),
        Some(qi) => {
            if 0 <= qi < rem.len() {
                let before = uq_parts(ws_words(rem.take(qi), 0));
                match find_first(rem, seq!['"'], qi + 1) {
                    Some(ei) => {
                        if qi < ei < rem.len() {
                            let ph = match phrase_keep(rem.subrange(qi + 1, ei)) {
                                Some(p) => seq![p],
                                None => Seq::<Seq<char>>::empty(),
                            };
                            before + ph + sanitize_parts(rem.skip(ei + 1))
                        } else {
                            before
                        }
                    },
                    None => before + uq_parts(ws_words(rem.skip(qi + 1), 0)),
                }
            } else {
                Seq::empty()
            }
        },
    }
}

/// The sanitized full-text query: `"exact phrase"` kept as a phrase,
/// `word` turned into `word*`, `word*` preserved, terms joined by spaces.
pub open spec fn sanitize_spec(q: Seq<char>) -> Seq<char> {
    join_seq(sanitize_parts(trim_seq(q)), " "@)
}

/// Appends the contribution of each unquoted word of `text` to `parts`.
pub fn process_unquoted_words(text: &Vec<char>, parts: &mut Vec<Vec<char>>)
    ensures
        views_of_vecs(final(parts)@) == views_of_vecs(old(parts)@) + uq_parts(ws_words(text@, 0)),
{
    let words = split_ws(text);
    let ghost wv = views_of_vecs(words@);
    let mut i: usize = 0;
    proof {
        assert(wv.skip(0) =~= wv);
    }
    while i < words.len()
        invariant
            0 <= i <= words@.len(),
            wv == views_of_vecs(words@),
            views_of_vecs(old(parts)@) + uq_parts(wv) == views_of_vecs(parts@) + uq_parts(
                wv.skip(i as int),
            ),
        decreases words.len() - i,
    {
        proof {
            assert(wv.skip(i as int)[0] == wv[i as int]);
            assert(wv[i as int] == words@[i as int]@);
            assert(wv.skip(i as int).skip(1) =~= wv.skip(i + 1));
        }
        let w = &words[i];
        let mut has_wild: bool = false;
        let mut k: usize = 0;
        while k < w.len()
            invariant
                0 <= k <= w@.len(),
                has_wild == exists|j: int| 0 <= j < k && w@[j] == '*',
            decreases w.len() - k,
        {
            if w[k] == '*' {
                has_wild = true;
            }
            k += 1;
        }
        proof {
            if has_wild {
                let j = choose|j: int| 0 <= j < w@.len() && w@[j] == '*';
                assert(w@.contains(w@[j]));
            }
            if w@.contains('*') {
                let j = choose|j: int| 0 <= j < w@.len() && w@[j] == '*';
            }
        }
        let mut cleaned: Vec<char> = Vec::new();
        let mut k: usize = 0;
        proof {
            reveal(Seq::filter);
            assert(cleaned@ =~= w@.take(0).filter(|c: char| uq_char(c)));
        }
        while k < w.len()
            invariant
                0 <= k <= w@.len(),
                cleaned@ == w@.take(k as int).filter(|c: char| uq_char(c)),
            decreases w.len() - k,
        {
            let c = w[k];
            if is_alnum_char(c) || c == '_' || c == '*' {
                cleaned.push(c);
            }
            proof {
                reveal(Seq::filter);
                assert(w@.take(k + 1).drop_last() =~= w@.take(k as int));
                assert(w@.take(k + 1).last() == w@[k as int]);
            }
            k += 1;
        }
        proof {
            assert(w@.take(w@.len() as int) =~= w@);
        }
        let star = chars_vec("*");
        proof {
            assert(star@ =~= seq!['*']) by {
                reveal_strlit("*");
            }
        }
        let ghost pre = views_of_vecs(parts@);
        if cleaned.len() == 0 || seq_eq(&cleaned, &star) {
            proof {
                assert(uq_keep(wv[i as int]) is None);
            }
        } else if has_wild {
            parts.push(to_ascii_lower(&cleaned));
            proof {
                assert(views_of_vecs(parts@) =~~= pre + seq![lower_seq(
                    wv[i as int].filter(|c: char| uq_char(c)),
                )]);
            }
        } else {
            let mut p = to_ascii_lower(&cleaned);
            p.push('*');
            parts.push(p);
            proof {
                assert(views_of_vecs(parts@) =~~= pre + seq![lower_seq(
                    wv[i as int].filter(|c: char| uq_char(c)),
                ).push('*')]);
            }
        }
        proof {
            assert((pre + uq_parts(wv.skip(i as int))) =~= (views_of_vecs(parts@) + uq_parts(
                wv.skip(i + 1),
            )));
        }
        i += 1;
    }
    proof {
        assert(uq_parts(wv.skip(wv.len() as int)) =~= Seq::<Seq<char>>::empty());
        assert(views_of_vecs(parts@) + Seq::<Seq<char>>::empty() =~= views_of_vecs(parts@));
    }
}

/// The sanitized parts of a user query, one phrase or prefix term each.
pub fn sanitize_query_parts(query: &str) -> (r: Vec<Vec<char>>)
    ensures
        views_of_vecs(r@) == sanitize_parts(trim_seq(query@)),
{
    let q = trim(&chars_vec(query));
    let quote = chars_vec("\"");
    proof {
        assert(quote@ =~= seq!['"']) by {
            reveal_strlit("\"");
        }
    }
    let mut parts: Vec<Vec<char>> = Vec::new();
    let mut rem: Vec<char> = q;
    proof {
        assert(views_of_vecs(parts@) =~= Seq::<Seq<char>>::empty());
    }
    loop
        invariant_except_break
            quote@ == seq!['"'],
            sanitize_parts(trim_seq(query@)) == views_of_vecs(parts@) + sanitize_parts(rem@),
        ensures
            sanitize_parts(trim_seq(query@)) == views_of_vecs(parts@),
        decreases rem@.len(),
    {
        match find_sub(&rem, &quote, 0) {
            Some(qi) => {
                proof {
                    assert(qi < rem.len());
                }
                let before = subrange_vec(&rem, 0, qi);
                proof {
                    assert(before@ =~= rem@.take(qi as int));
                }
                process_unquoted_words(&before, &mut parts);
                match find_sub(&rem, &quote, qi + 1) {
                    Some(ei) => {
                        proof {
                            assert(qi < ei < rem.len());
                        }
                        let ph = subrange_vec(&rem, qi + 1, ei);
                        let mut cleaned: Vec<char> = Vec::new();
                        let mut k: usize = 0;
                        proof {
                            reveal(Seq::filter);
                            assert(cleaned@ =~= ph@.take(0).filter(|c: char| phrase_char(c)));
                        }
                        while k < ph.len()
                            invariant
                                0 <= k <= ph@.len(),
                                cleaned@ == ph@.take(k as int).filter(|c: char| phrase_char(c)),
                            decreases ph.len() - k,
                        {
                            let c = ph[k];
                            if is_alnum_char(c) || is_space_char(c) || c == '_' {
                                cleaned.push(c);
                            }
                            proof {
                                reveal(Seq::filter);
                                assert(ph@.take(k + 1).drop_last() =~= ph@.take(k as int));
                                assert(ph@.take(k + 1).last() == ph@[k as int]);
                            }
                            k += 1;
                        }
                        proof {
                            assert(ph@.take(ph@.len() as int) =~= ph@);
                        }
                        let words = split_ws(&cleaned);
                        let sep = chars_vec(" ");
                        let joined = crate::text::join_with(&words, &sep);
                        proof {
                            assert(words.deep_view() =~~= views_of_vecs(words@));
                        }
                        let ghost pre = views_of_vecs(parts@);
                        if joined.len() > 0 {
                            let mut part = quote.clone();
                            crate::text::append_vec(&mut part, &to_ascii_lower(&joined));
                            part.push('"');
                            parts.push(part);
                            proof {
                                assert(views_of_vecs(parts@) =~~= pre + seq![seq!['"'] + lower_seq(
                                    join_seq(
                                        ws_words(
                                            ph@.filter(|c: char| phrase_char(c)),
                                            0,
                                        ),
                                        " "@,
                                    ),
                                ) + seq!['"']]);
                            }
                        }
                        let next = subrange_vec(&rem, ei + 1, rem.len());
                        proof {
                            assert(next@ =~= rem@.skip(ei + 1));
                            assert((views_of_vecs(parts@) + sanitize_parts(next@))
                                =~= (sanitize_parts(trim_seq(query@))));
                        }
                        rem = next;
                    },
                    None => {
                        let rest = subrange_vec(&rem, qi + 1, rem.len());
                        proof {
                            assert(rest@ =~= rem@.skip(qi + 1));
                        }
                        process_unquoted_words(&rest, &mut parts);
                        proof {
                            assert(views_of_vecs(parts@) =~= sanitize_parts(trim_seq(query@)));
                        }
                        break ;
                    },
                }
            },
            None => {
                process_unquoted_words(&rem, &mut parts);
                proof {
                    assert(views_of_vecs(parts@) =~= sanitize_parts(trim_seq(query@)));
                }
                break ;
            },
        }
    }
    parts
}

/// Sanitizes a user query into full-text syntax.
pub fn sanitize_fts_query(query: &str) -> (r: String)
    ensures
        r@ == sanitize_spec(query@),
{
    let parts = sanitize_query_parts(query);
    let sep = chars_vec(" ");
    let joined = crate::text::join_with(&parts, &sep);
    proof {
        assert(parts.deep_view() =~~= views_of_vecs(parts@));
        assert(sep@ =~= " "@);
    }
    string_from_chars(&joined)
}

/// A text worth sending to the substring index: it has at least one
/// alphanumeric character.
pub open spec fn has_search_token(s: Seq<char>) -> bool {
    exists|i: int| 0 <= i < s.len() && unicode_alnum(s[i])
}

pub fn contains_search_token(text: &Vec<char>) -> (r: bool)
    ensures
        r == has_search_token(text@),
{
    let mut i: usize = 0;
    while i < text.len()
        invariant
            0 <= i <= text@.len(),
            forall|j: int| 0 <= j < i ==> !unicode_alnum(text@[j]),
        decreases text.len() - i,
    {
        if is_alnum_char(text[i]) {
            return true;
        }
        i += 1;
    }
    false
}

// ─────────────────────── sort configuration ───────────────────────

/// The field a gallery page is ordered by.
#[derive(Clone, Copy, PartialEq, Eq, Structural, Debug)]
pub enum SortField {
    Id,
    Filename,
    ModelName,
    GenerationType,
}

/// Sort order of a gallery query.
#[derive(Clone, Copy, PartialEq, Eq, Structural, Debug)]
pub struct SortConfig {
    pub field: SortField,
    pub descending: bool,
}

/// The configuration each sort name selects; unknown names fall back to
/// newest-first.
pub open spec fn sort_config_of(s: Seq<char>) -> SortConfig {
    if s == "oldest"@ {
        SortConfig { field: SortField::Id, descending: false }
    } else if s == "name_asc"@ {
        SortConfig { field: SortField::Filename, descending: false }
    } else if s == "name_desc"@ {
        SortConfig { field: SortField::Filename, descending: true }
    } else if s == "model"@ {
        SortConfig { field: SortField::ModelName, descending: false }
    } else if s == "generation_type"@ {
        SortConfig { field: SortField::GenerationType, descending: false }
    } else {
        SortConfig { field: SortField::Id, descending: true }
    }
}

impl SortConfig {
    /// Parses a sort name.
    pub fn from_str(sort_by: &str) -> (r: SortConfig)
        ensures
            r == sort_config_of(sort_by@),
    {
        let s = chars_vec(sort_by);
        if seq_eq(&s, &chars_vec("oldest")) {
            SortConfig { field: SortField::Id, descending: false }
        } else if seq_eq(&s, &chars_vec("name_asc")) {
            SortConfig { field: SortField::Filename, descending: false }
        } else if seq_eq(&s, &chars_vec("name_desc")) {
            SortConfig { field: SortField::Filename, descending: true }
        } else if seq_eq(&s, &chars_vec("model")) {
            SortConfig { field: SortField::ModelName, descending: false }
        } else if seq_eq(&s, &chars_vec("generation_type")) {
            SortConfig { field: SortField::GenerationType, descending: false }
        } else {
            SortConfig { field: SortField::Id, descending: true }
        }
    }
}

// ─────────────────────── filter normalizers ───────────────────────

/// Canonical generation-type names; synonyms folded, unknown dropped.
pub open spec fn gen_type_canon(s: Seq<char>) -> Option<Seq<char>> {
    let t = lower_seq(trim_seq(s));
    if t == "txt2img"@ || t == "txt2image"@ {
        Some("txt2img"@)
    } else if t == "img2img"@ || t == "image2image"@ {
        Some("img2img"@)
    } else if t == "inpaint"@ || t == "inpainting"@ {
        Some("inpaint"@)
    } else if t == "grid"@ || t == "grids"@ {
        Some("grid"@)
    } else if t == "upscale"@ || t == "extras"@ {
        Some("upscale"@)
    } else if t == "unknown"@ {
        Some("unknown"@)
    } else {
        None
    }
}

pub fn normalize_generation_type(value: &str) -> (r: Option<String>)
    ensures
        view_opt(r) == gen_type_canon(value@),
{
    let t = to_ascii_lower(&trim(&chars_vec(value)));
    if seq_eq(&t, &chars_vec("txt2img")) || seq_eq(&t, &chars_vec("txt2image")) {
        Some("txt2img".to_owned())
    } else if seq_eq(&t, &chars_vec("img2img")) || seq_eq(&t, &chars_vec("image2image")) {
        Some("img2img".to_owned())
    } else if seq_eq(&t, &chars_vec("inpaint")) || seq_eq(&t, &chars_vec("inpainting")) {
        Some("inpaint".to_owned())
    } else if seq_eq(&t, &chars_vec("grid")) || seq_eq(&t, &chars_vec("grids")) {
        Some("grid".to_owned())
    } else if seq_eq(&t, &chars_vec("upscale")) || seq_eq(&t, &chars_vec("extras")) {
        Some("upscale".to_owned())
    } else if seq_eq(&t, &chars_vec("unknown")) {
        Some("unknown".to_owned())
    } else {
        None
    }
}

pub open spec fn view_opt(o: Option<String>) -> Option<Seq<char>> {
    match o {
        Some(s) => Some(s@),
        None => None,
    }
}

/// Canonical generation types of a filter list, duplicates dropped.
pub open spec fn gen_types_canon(vs: Seq<Seq<char>>, i: int, seen: Set<Seq<char>>) -> Seq<Seq<char>>
    decreases vs.len() - i,
    when 0 <= i <= vs.len()
{
    if i >= vs.len() {
        Seq::empty()
    } else {
        match gen_type_canon(vs[i]) {
            Some(c) => {
                if seen.contains(c) {
                    gen_types_canon(vs, i + 1, seen)
                } else {
                    seq![c] + gen_types_canon(vs, i + 1, seen.insert(c))
                }
            },
            None => gen_types_canon(vs, i + 1, seen),
        }
    }
}

pub open spec fn string_views(v: Seq<String>) -> Seq<Seq<char>> {
    v.map_values(|x: String| x@)
}

pub fn normalize_generation_types(generation_types: Option<&Vec<String>>) -> (r: Vec<String>)
    ensures
        match generation_types {
            Some(vs) => string_views(r@) == gen_types_canon(string_views(vs@), 0, Set::empty()),
            None => r@.len() == 0,
        },
{
    let vs = match generation_types {
        Some(vs) => vs,
        None => {
            return Vec::new();
        },
    };
    let ghost vv = string_views(vs@);
    let mut out: Vec<String> = Vec::new();
    let mut i: usize = 0;
    proof {
        assert(string_views(out@) =~= Seq::<Seq<char>>::empty());
        assert(string_views(out@).to_set() =~= Set::<Seq<char>>::empty());
    }
    while i < vs.len()
        invariant
            0 <= i <= vs@.len(),
            vv == string_views(vs@),
            gen_types_canon(vv, 0, Set::empty()) == string_views(out@) + gen_types_canon(
                vv,
                i as int,
                string_views(out@).to_set(),
            ),
        decreases vs.len() - i,
    {
        proof {
            assert(vv[i as int] == vs@[i as int]@);
        }
        match normalize_generation_type(vs[i].as_str()) {
            Some(c) => {
                let cv = chars_vec(c.as_str());
                let mut present: bool = false;
                let mut j: usize = 0;
                while j < out.len()
                    invariant
                        0 <= j <= out@.len(),
                        cv@ == c@,
                        present ==> string_views(out@).to_set().contains(c@),
                        !present ==> forall|k: int| 0 <= k < j ==> string_views(out@)[k] != c@,
                    decreases out.len() - j,
                {
                    if seq_eq(&chars_vec(out[j].as_str()), &cv) {
                        proof {
                            assert(string_views(out@)[j as int] == c@);
                            assert(string_views(out@).contains(c@));
                        }
                        present = true;
                    }
                    j += 1;
                }
                proof {
                    if !present && string_views(out@).to_set().contains(c@) {
                        let k = choose|k: int|
                            0 <= k < string_views(out@).len() && string_views(out@)[k] == c@;
                    }
                }
                if !present {
                    let ghost pre = string_views(out@);
                    out.push(c);
                    proof {
                        assert(string_views(out@) =~~= pre + seq![gen_type_canon(vv[i as int])->0]);
                        Seq::lemma_to_set_insert_commutes(pre, gen_type_canon(vv[i as int])->0);
                        assert((pre + seq![gen_type_canon(vv[i as int])->0]) + gen_types_canon(
                            vv,
                            i + 1,
                            pre.to_set().insert(gen_type_canon(vv[i as int])->0),
                        ) =~= pre + (seq![gen_type_canon(vv[i as int])->0] + gen_types_canon(
                            vv,
                            i + 1,
                            pre.to_set().insert(gen_type_canon(vv[i as int])->0),
                        )));
                    }
                }
            },
            None => {},
        }
        i += 1;
    }
    proof {
        assert(gen_types_canon(vv, vv.len() as int, string_views(out@).to_set())
            =~= Seq::<Seq<char>>::empty());
        assert(string_views(out@) + Seq::<Seq<char>>::empty() =~= string_views(out@));
    }
    out
}

// ─────────────────────── model families ───────────────────────

/// ASCII-alphanumeric compaction of a family name.
pub open spec fn compact_of(s: Seq<char>) -> Seq<char> {
    lower_seq(trim_seq(s)).filter(|c: char| crate::text::ascii_alnum(c))
}

/// Canonical family names.
pub open spec fn family_canon(s: Seq<char>) -> Option<Seq<char>> {
    let c = compact_of(s);
    if c == "pony"@ || c == "ponyxl"@ {
        Some("ponyxl"@)
    } else if c == "sdxl"@ {
        Some("sdxl"@)
    } else if c == "flux"@ {
        Some("flux"@)
    } else if c == "zimage"@ || c == "zimageturbo"@ {
        Some("zimage_turbo"@)
    } else if c == "sd15"@ || c == "stablediffusion15"@ || c == "sdv15"@ {
        Some("sd15"@)
    } else if c == "sd21"@ || c == "stablediffusion21"@ || c == "sdv21"@ {
        Some("sd21"@)
    } else if c == "chroma"@ {
        Some("chroma"@)
    } else if c == "vace"@ {
        Some("vace"@)
    } else {
        None
    }
}

pub fn normalize_model_family(value: &str) -> (r: Option<String>)
    ensures
        view_opt(r) == family_canon(value@),
{
    let t = to_ascii_lower(&trim(&chars_vec(value)));
    let mut c: Vec<char> = Vec::new();
    let mut i: usize = 0;
    proof {
        reveal(Seq::filter);
        assert(c@ =~= t@.take(0).filter(|ch: char| crate::text::ascii_alnum(ch)));
    }
    while i < t.len()
        invariant
            0 <= i <= t@.len(),
            c@ == t@.take(i as int).filter(|ch: char| crate::text::ascii_alnum(ch)),
        decreases t.len() - i,
    {
        let ch = t[i];
        if ('a' <= ch && ch <= 'z') || ('A' <= ch && ch <= 'Z') || ('0' <= ch && ch <= '9') {
            c.push(ch);
        }
        proof {
            reveal(Seq::filter);
            assert(t@.take(i + 1).drop_last() =~= t@.take(i as int));
            assert(t@.take(i + 1).last() == t@[i as int]);
        }
        i += 1;
    }
    proof {
        assert(t@.take(t@.len() as int) =~= t@);
    }
    if seq_eq(&c, &chars_vec("pony")) || seq_eq(&c, &chars_vec("ponyxl")) {
        Some("ponyxl".to_owned())
    } else if seq_eq(&c, &chars_vec("sdxl")) {
        Some("sdxl".to_owned())
    } else if seq_eq(&c, &chars_vec("flux")) {
        Some("flux".to_owned())
    } else if seq_eq(&c, &chars_vec("zimage")) || seq_eq(&c, &chars_vec("zimageturbo")) {
        Some("zimage_turbo".to_owned())
    } else if seq_eq(&c, &chars_vec("sd15")) || seq_eq(&c, &chars_vec("stablediffusion15"))
        || seq_eq(&c, &chars_vec("sdv15")) {
        Some("sd15".to_owned())
    } else if seq_eq(&c, &chars_vec("sd21")) || seq_eq(&c, &chars_vec("stablediffusion21"))
        || seq_eq(&c, &chars_vec("sdv21")) {
        Some("sd21".to_owned())
    } else if seq_eq(&c, &chars_vec("chroma")) {
        Some("chroma".to_owned())
    } else if seq_eq(&c, &chars_vec("vace")) {
        Some("vace".to_owned())
    } else {
        None
    }
}

/// Canonical families of a filter list, duplicates dropped.
pub open spec fn families_canon(vs: Seq<Seq<char>>, i: int, seen: Set<Seq<char>>) -> Seq<Seq<char>>
    decreases vs.len() - i,
    when 0 <= i <= vs.len()
{
    if i >= vs.len() {
        Seq::empty()
    } else {
        match family_canon(vs[i]) {
            Some(c) => {
                if seen.contains(c) {
                    families_canon(vs, i + 1, seen)
                } else {
                    seq![c] + families_canon(vs, i + 1, seen.insert(c))
                }
            },
            None => families_canon(vs, i + 1, seen),
        }
    }
}

pub fn normalize_model_family_filters(model_family_filters: Option<&Vec<String>>) -> (r: Vec<
    String,
>)
    ensures
        match model_family_filters {
            Some(vs) => string_views(r@) == families_canon(string_views(vs@), 0, Set::empty()),
            None => r@.len() == 0,
        },
{
    let vs = match model_family_filters {
        Some(vs) => vs,
        None => {
            return Vec::new();
        },
    };
    let ghost vv = string_views(vs@);
    let mut out: Vec<String> = Vec::new();
    let mut i: usize = 0;
    proof {
        assert(string_views(out@) =~= Seq::<Seq<char>>::empty());
        assert(string_views(out@).to_set() =~= Set::<Seq<char>>::empty());
    }
    while i < vs.len()
        invariant
            0 <= i <= vs@.len(),
            vv == string_views(vs@),
            families_canon(vv, 0, Set::empty()) == string_views(out@) + families_canon(
                vv,
                i as int,
                string_views(out@).to_set(),
            ),
        decreases vs.len() - i,
    {
        proof {
            assert(vv[i as int] == vs@[i as int]@);
        }
        match normalize_model_family(vs[i].as_str()) {
            Some(c) => {
                let cv = chars_vec(c.as_str());
                let mut present: bool = false;
                let mut j: usize = 0;
                while j < out.len()
                    invariant
                        0 <= j <= out@.len(),
                        cv@ == c@,
                        present ==> string_views(out@).to_set().contains(c@),
                        !present ==> forall|k: int| 0 <= k < j ==> string_views(out@)[k] != c@,
                    decreases out.len() - j,
                {
                    if seq_eq(&chars_vec(out[j].as_str()), &cv) {
                        proof {
                            assert(string_views(out@)[j as int] == c@);
                            assert(string_views(out@).contains(c@));
                        }
                        present = true;
                    }
                    j += 1;
                }
                proof {
                    if !present && string_views(out@).to_set().contains(c@) {
                        let k = choose|k: int|
                            0 <= k < string_views(out@).len() && string_views(out@)[k] == c@;
                    }
                }
                if !present {
                    let ghost pre = string_views(out@);
                    out.push(c);
                    proof {
                        assert(string_views(out@) =~~= pre + seq![family_canon(vv[i as int])->0]);
                        Seq::lemma_to_set_insert_commutes(pre, family_canon(vv[i as int])->0);
                        assert((pre + seq![family_canon(vv[i as int])->0]) + families_canon(
                            vv,
                            i + 1,
                            pre.to_set().insert(family_canon(vv[i as int])->0),
                        ) =~= pre + (seq![family_canon(vv[i as int])->0] + families_canon(
                            vv,
                            i + 1,
                            pre.to_set().insert(family_canon(vv[i as int])->0),
                        )));
                    }
                }
            },
            None => {},
        }
        i += 1;
    }
    proof {
        assert(families_canon(vv, vv.len() as int, string_views(out@).to_set())
            =~= Seq::<Seq<char>>::empty());
        assert(string_views(out@) + Seq::<Seq<char>>::empty() =~= string_views(out@));
    }
    out
}

/// The curated substring patterns a family filter matches against.
pub open spec fn family_patterns_spec(family: Seq<char>) -> Seq<Seq<char>> {
    if family == "ponyxl"@ {
        seq!["%ponyxl%"@, "%pony xl%"@, "%pony diffusion%"@, "%pony%"@]
    } else if family == "sdxl"@ {
        seq!["%sdxl%"@, "%stable diffusion xl%"@]
    } else if family == "flux"@ {
        seq!["%flux%"@]
    } else if family == "zimage_turbo"@ {
        seq!["%z-image turbo%"@, "%zimage turbo%"@, "%z-image%"@, "%zimage%"@]
    } else if family == "sd15"@ {
        seq!["%sd1.5%"@, "%sd15%"@, "%stable diffusion 1.5%"@]
    } else if family == "sd21"@ {
        seq!["%sd2.1%"@, "%sd21%"@, "%stable diffusion 2.1%"@]
    } else if family == "chroma"@ {
        seq!["%chroma%"@]
    } else if family == "vace"@ {
        seq!["%vace%"@]
    } else {
        Seq::empty()
    }
}

pub fn family_patterns(family: &str) -> (r: Vec<String>)
    ensures
        string_views(r@) == family_patterns_spec(family@),
{
    let f = chars_vec(family);
    let r: Vec<String> = if seq_eq(&f, &chars_vec("ponyxl")) {
        vec![
            "%ponyxl%".to_owned(),
            "%pony xl%".to_owned(),
            "%pony diffusion%".to_owned(),
            "%pony%".to_owned(),
        ]
    } else if seq_eq(&f, &chars_vec("sdxl")) {
        vec!["%sdxl%".to_owned(), "%stable diffusion xl%".to_owned()]
    } else if seq_eq(&f, &chars_vec("flux")) {
        vec!["%flux%".to_owned()]
    } else if seq_eq(&f, &chars_vec("zimage_turbo")) {
        vec![
            "%z-image turbo%".to_owned(),
            "%zimage turbo%".to_owned(),
            "%z-image%".to_owned(),
            "%zimage%".to_owned(),
        ]
    } else if seq_eq(&f, &chars_vec("sd15")) {
        vec!["%sd1.5%".to_owned(), "%sd15%".to_owned(), "%stable diffusion 1.5%".to_owned()]
    } else if seq_eq(&f, &chars_vec("sd21")) {
        vec!["%sd2.1%".to_owned(), "%sd21%".to_owned(), "%stable diffusion 2.1%".to_owned()]
    } else if seq_eq(&f, &chars_vec("chroma")) {
        vec!["%chroma%".to_owned()]
    } else if seq_eq(&f, &chars_vec("vace")) {
        vec!["%vace%".to_owned()]
    } else {
        Vec::new()
    };
    proof {
        assert(string_views(r@) =~~= family_patterns_spec(family@));
    }
    r
}

// ─────────────────────── LIKE matching ───────────────────────

/// SQL LIKE over a lower-cased text: `%` matches any run, `_` any single
/// character, anything else itself.
pub open spec fn like_match(p: Seq<char>, t: Seq<char>) -> bool
    decreases p.len(), t.len(),
{
    if p.len() == 0 {
        t.len() == 0
    } else if p[0] == '%' {
        like_match(p.skip(1), t) || (t.len() > 0 && like_match(p, t.skip(1)))
    } else if p[0] == '_' {
        t.len() > 0 && like_match(p.skip(1), t.skip(1))
    } else {
        t.len() > 0 && t[0] == p[0] && like_match(p.skip(1), t.skip(1))
    }
}

/// Evaluates a LIKE pattern against a text.
pub fn like_match_exec(p: &Vec<char>, t: &Vec<char>) -> (r: bool)
    ensures
        r == like_match(p@, t@),
    decreases p@.len(), t@.len(),
{
    if p.len() == 0 {
        return t.len() == 0;
    }
    let c = p[0];
    let pr = subrange_vec(p, 1, p.len());
    proof {
        assert(pr@ =~= p@.skip(1));
    }
    if c == '%' {
        if like_match_exec(&pr, t) {
            return true;
        }
        if t.len() > 0 {
            let tr = subrange_vec(t, 1, t.len());
            proof {
                assert(tr@ =~= t@.skip(1));
            }
            return like_match_exec(p, &tr);
        }
        return false;
    }
    if t.len() == 0 {
        return false;
    }
    let tr = subrange_vec(t, 1, t.len());
    proof {
        assert(tr@ =~= t@.skip(1));
    }
    if c == '_' {
        return like_match_exec(&pr, &tr);
    }
    if t[0] == c {
        like_match_exec(&pr, &tr)
    } else {
        false
    }
}

/// Evaluates a LIKE pattern against a text given as strings.
pub fn like_matches(pattern: &str, text: &str) -> (r: bool)
    ensures
        r == like_match(pattern@, text@),
{
    like_match_exec(&chars_vec(pattern), &chars_vec(text))
}

} // verus!
