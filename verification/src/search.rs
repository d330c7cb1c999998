//! Matching and ordering model for the storage engine's queries: the
//! ranked word/prefix discipline, the substring fallback discipline,
//! filter predicates, row ordering and the keyset-page characterization.

use crate::query::SortConfig;
use crate::query::SortField;
use crate::query::has_search_token;
use crate::query::like_match;
use crate::query::ws_words;
use crate::store::RowModel;
use crate::tags::run_end;
use crate::text::chars_vec;
use crate::text::contains_sub;
use crate::text::contains_sub_exec;
use crate::text::find_sub;
use crate::text::has_prefix;
use crate::text::has_prefix_exec;
use crate::text::is_alnum_char;
use crate::text::lower_seq;
use crate::text::lemma_lex_le_total;
use crate::text::lemma_lex_le_trans;
use crate::text::seq_eq;
use crate::text::subrange_vec;
use crate::text::to_ascii_lower;
use crate::text::trim;
use crate::text::trim_seq;
use crate::text::unicode_alnum;
use crate::text::views_of_vecs;
use crate::text::idec;
use crate::text::lex_le;
use vstd::prelude::*;

verus! {

pub open spec fn opt_or_empty_str(o: Option<Seq<char>>) -> Seq<char> {
    match o {
        Some(s) => s,
        None => Seq::empty(),
    }
}

/// The four indexed columns of a row.
pub open spec fn row_cols(r: RowModel) -> Seq<Seq<char>> {
    seq![
        r.params.prompt,
        r.params.negative_prompt,
        r.params.raw_metadata,
        opt_or_empty_str(r.params.model_name),
    ]
}

/// Characters of an indexed word.
pub open spec fn search_word_char(c: char) -> bool {
    unicode_alnum(c) || c == '_'
}

fn is_search_word_char(c: char) -> (r: bool)
    ensures
        r == search_word_char(c),
{
    is_alnum_char(c) || c == '_'
}

/// The indexed words of a column: maximal alphanumeric/underscore runs of
/// the lower-cased text.
pub open spec fn col_words(s: Seq<char>, i: int) -> Seq<Seq<char>>
    decreases s.len() - i,
    when 0 <= i <= s.len()
{
    if i >= s.len() {
        Seq::empty()
    } else if !search_word_char(s[i]) {
        col_words(s, i + 1)
    } else {
        let e = run_end(s, i, |c: char| !search_word_char(c));
        if i < e <= s.len() {
            seq![s.subrange(i, e)] + col_words(s, e)
        } else {
            Seq::empty()
        }
    }
}

fn split_col_words(s: &Vec<char>) -> (r: Vec<Vec<char>>)
    ensures
        views_of_vecs(r@) == col_words(s@, 0),
{
    let mut out: Vec<Vec<char>> = Vec::new();
    let mut i: usize = 0;
    proof {
        assert(views_of_vecs(out@) =~= Seq::<Seq<char>>::empty());
    }
    while i < s.len()
        invariant
            0 <= i <= s@.len(),
            col_words(s@, 0) == views_of_vecs(out@) + col_words(s@, i as int),
        decreases s.len() - i,
    {
        if !is_search_word_char(s[i]) {
            i += 1;
        } else {
            let mut j: usize = i + 1;
            while j < s.len() && is_search_word_char(s[j])
                invariant
                    i < j <= s@.len(),
                    run_end(s@, i as int, |c: char| !search_word_char(c)) == run_end(
                        s@,
                        j as int,
                        |c: char| !search_word_char(c),
                    ),
                decreases s@.len() - j,
            {
                j += 1;
            }
            proof {
                assert(run_end(s@, j as int, |c: char| !search_word_char(c)) == j as int);
            }
            let ghost pre = views_of_vecs(out@);
            out.push(subrange_vec(s, i, j));
            proof {
                assert(views_of_vecs(out@) =~~= pre + seq![s@.subrange(i as int, j as int)]);
                assert((pre + seq![s@.subrange(i as int, j as int)]) + col_words(s@, j as int)
                    =~= pre + (seq![s@.subrange(i as int, j as int)] + col_words(s@, j as int)));
            }
            i = j;
        }
    }
    proof {
        assert(views_of_vecs(out@) + Seq::<Seq<char>>::empty() =~= views_of_vecs(out@));
    }
    out
}

/// The stem of a prefix term: everything before the first `*`.
pub open spec fn term_stem(t: Seq<char>) -> Seq<char> {
    match crate::text::find_first(t, seq!['*'], 0) {
        Some(i) => if 0 <= i <= t.len() {
            t.take(i)
        } else {
            t
        },
        None => t,
    }
}

/// Whether a term carries a wildcard.
pub open spec fn term_has_star(t: Seq<char>) -> bool {
    t.contains('*')
}

/// A term matches a word list: with a wildcard, some word starts with the
/// stem; without one, some word equals the term.
pub open spec fn term_matches_words(t: Seq<char>, words: Seq<Seq<char>>) -> bool {
    if term_has_star(t) {
        exists|k: int| 0 <= k < words.len() && has_prefix(#[trigger] words[k], term_stem(t))
    } else {
        exists|k: int| 0 <= k < words.len() && #[trigger] words[k] == t
    }
}

/// The phrase words stand consecutively at position `k`.
pub open spec fn phrase_at(words: Seq<Seq<char>>, k: int, pw: Seq<Seq<char>>) -> bool {
    0 <= k && k + pw.len() <= words.len() && forall|j: int|
        0 <= j < pw.len() ==> words[k + j] == pw[j]
}

pub open spec fn phrase_matches_words(pw: Seq<Seq<char>>, words: Seq<Seq<char>>) -> bool {
    exists|k: int| phrase_at(words, k, pw)
}

/// A sanitized part (phrase or term) matches one column.
pub open spec fn part_matches_col(part: Seq<char>, col: Seq<char>) -> bool {
    let words = col_words(lower_seq(col), 0);
    if part.len() >= 2 && part[0] == '"' && part.last() == '"' {
        phrase_matches_words(ws_words(part.subrange(1, part.len() - 1), 0), words)
    } else {
        term_matches_words(part, words)
    }
}

/// A part matches the row when it matches some indexed column.
pub open spec fn part_matches_row(part: Seq<char>, r: RowModel) -> bool {
    exists|c: int| 0 <= c < row_cols(r).len() && part_matches_col(part, #[trigger] row_cols(r)[c])
}

/// Ranked match: every sanitized part matches the row.
pub open spec fn ranked_match(parts: Seq<Seq<char>>, r: RowModel) -> bool {
    forall|i: int| 0 <= i < parts.len() ==> part_matches_row(#[trigger] parts[i], r)
}

/// Substring match: the trimmed query, at least three characters long,
/// occurs case-insensitively in some indexed column.
pub open spec fn trigram_match(q: Seq<char>, r: RowModel) -> bool {
    let t = lower_seq(trim_seq(q));
    t.len() >= 3 && exists|c: int|
        0 <= c < row_cols(r).len() && contains_sub(lower_seq(#[trigger] row_cols(r)[c]), t)
}

// ─────────────────────── exec matchers ───────────────────────

fn term_matches_words_exec(t: &Vec<char>, words: &Vec<Vec<char>>) -> (r: bool)
    ensures
        r == term_matches_words(t@, views_of_vecs(words@)),
{
    let star = chars_vec("*");
    proof {
        assert(star@ =~= seq!['*']) by {
            reveal_strlit("*");
        }
    }
    match find_sub(t, &star, 0) {
        Some(i) => {
            let s = subrange_vec(t, 0, i);
            proof {
                assert(s@ =~= term_stem(t@));
                assert(t@.contains('*')) by {
                    assert(crate::text::matches_at(t@, seq!['*'], i as int));
                    assert(t@.subrange(i as int, i + 1)[0] == t@[i as int]);
                    assert(t@[i as int] == '*');
                }
            }
            let mut k: usize = 0;
            while k < words.len()
                invariant
                    0 <= k <= words@.len(),
                    s@ == term_stem(t@),
                    term_has_star(t@),
                    forall|j: int|
                        0 <= j < k ==> !has_prefix(#[trigger] views_of_vecs(words@)[j], term_stem(
                            t@,
                        )),
                decreases words.len() - k,
            {
                if has_prefix_exec(&words[k], &s) {
                    proof {
                        assert(has_prefix(views_of_vecs(words@)[k as int], term_stem(t@)));
                    }
                    return true;
                }
                k += 1;
            }
            false
        },
        None => {
            proof {
                if t@.contains('*') {
                    let j = choose|j: int| 0 <= j < t@.len() && t@[j] == '*';
                    assert(crate::text::matches_at(t@, seq!['*'], j));
                }
            }
            let mut k: usize = 0;
            while k < words.len()
                invariant
                    0 <= k <= words@.len(),
                    !term_has_star(t@),
                    forall|j: int| 0 <= j < k ==> #[trigger] views_of_vecs(words@)[j] != t@,
                decreases words.len() - k,
            {
                if seq_eq(&words[k], t) {
                    proof {
                        assert(views_of_vecs(words@)[k as int] == t@);
                    }
                    return true;
                }
                k += 1;
            }
            false
        },
    }
}

fn phrase_matches_words_exec(pw: &Vec<Vec<char>>, words: &Vec<Vec<char>>) -> (r: bool)
    ensures
        r == phrase_matches_words(views_of_vecs(pw@), views_of_vecs(words@)),
{
    if pw.len() > words.len() {
        proof {
            assert forall|k: int| !phrase_at(views_of_vecs(words@), k, views_of_vecs(pw@)) by {}
        }
        return false;
    }
    let mut k: usize = 0;
    while k <= words.len() - pw.len()
        invariant
            0 <= k,
            pw@.len() <= words@.len(),
            k + pw@.len() <= words@.len() + 1,
            forall|m: int| 0 <= m < k ==> !phrase_at(views_of_vecs(words@), m, views_of_vecs(pw@)),
        decreases words.len() - k,
    {
        let mut j: usize = 0;
        let mut all: bool = true;
        while j < pw.len()
            invariant
                0 <= j <= pw@.len(),
                k + pw@.len() <= words@.len(),
                all == forall|x: int|
                    0 <= x < j ==> views_of_vecs(words@)[k + x] == #[trigger] views_of_vecs(
                        pw@,
                    )[x],
            decreases pw.len() - j,
        {
            proof {
                assert(words@.len() == words.len());
                assert(k + j < words.len());
            }
            let kj: usize = k + j;
            if !seq_eq(&words[kj], &pw[j]) {
                proof {
                    assert(views_of_vecs(words@)[k + j] != views_of_vecs(pw@)[j as int]);
                }
                all = false;
                j = pw.len();
            } else {
                proof {
                    assert(views_of_vecs(words@)[k + j] == views_of_vecs(pw@)[j as int]);
                }
                j += 1;
            }
        }
        if all {
            proof {
                assert(phrase_at(views_of_vecs(words@), k as int, views_of_vecs(pw@)));
            }
            return true;
        }
        proof {
            assert(!phrase_at(views_of_vecs(words@), k as int, views_of_vecs(pw@)));
        }
        k += 1;
    }
    proof {
        assert forall|m: int| !phrase_at(views_of_vecs(words@), m, views_of_vecs(pw@)) by {
            if 0 <= m && m + views_of_vecs(pw@).len() <= views_of_vecs(words@).len() {
                assert(m < k);
            }
        }
    }
    false
}

/// Evaluates one sanitized part against one column text.
fn part_matches_col_exec(part: &Vec<char>, col: &Vec<char>) -> (r: bool)
    ensures
        r == part_matches_col(part@, col@),
{
    let words = split_col_words(&to_ascii_lower(col));
    if part.len() >= 2 && part[0] == '"' && part[part.len() - 1] == '"' {
        let body = subrange_vec(part, 1, part.len() - 1);
        proof {
            assert(body@ =~= part@.subrange(1, part@.len() - 1));
        }
        let pw = crate::query::split_ws(&body);
        phrase_matches_words_exec(&pw, &words)
    } else {
        term_matches_words_exec(part, &words)
    }
}

// ─────────────────────── row ordering ───────────────────────

/// The textual sort key of a row; absent values fall to a sentinel that
/// sorts last in either direction.
pub open spec fn sort_key(cfg: SortConfig, r: RowModel) -> Seq<char> {
    let sentinel: Seq<char> = if cfg.descending {
        Seq::empty()
    } else {
        "~"@
    };
    match cfg.field {
        SortField::Id => Seq::empty(),
        SortField::Filename => r.filename,
        SortField::ModelName => match r.params.model_name {
            Some(m) => m,
            None => sentinel,
        },
        SortField::GenerationType => match r.params.generation_type {
            Some(g) => g,
            None => sentinel,
        },
    }
}

pub open spec fn lex_lt(a: Seq<char>, b: Seq<char>) -> bool {
    lex_le(a, b) && a != b
}

/// Strict output order of the configured sort: by key, then id, in the
/// configured direction.
pub open spec fn row_lt(cfg: SortConfig, a: RowModel, b: RowModel) -> bool {
    if cfg.field is Id {
        if cfg.descending {
            b.id < a.id
        } else {
            a.id < b.id
        }
    } else {
        let ka = sort_key(cfg, a);
        let kb = sort_key(cfg, b);
        if ka != kb {
            if cfg.descending {
                lex_lt(kb, ka)
            } else {
                lex_lt(ka, kb)
            }
        } else {
            if cfg.descending {
                b.id < a.id
            } else {
                a.id < b.id
            }
        }
    }
}

pub proof fn lemma_row_lt_total(cfg: SortConfig, a: RowModel, b: RowModel)
    requires
        a.id != b.id,
    ensures
        row_lt(cfg, a, b) || row_lt(cfg, b, a),
        !(row_lt(cfg, a, b) && row_lt(cfg, b, a)),
{
    if !(cfg.field is Id) {
        lemma_lex_le_total(sort_key(cfg, a), sort_key(cfg, b));
    }
}

pub proof fn lemma_row_lt_trans(cfg: SortConfig, a: RowModel, b: RowModel, c: RowModel)
    requires
        row_lt(cfg, a, b),
        row_lt(cfg, b, c),
    ensures
        row_lt(cfg, a, c),
{
    if !(cfg.field is Id) {
        let ka = sort_key(cfg, a);
        let kb = sort_key(cfg, b);
        let kc = sort_key(cfg, c);
        lemma_lex_le_total(ka, kb);
        lemma_lex_le_total(kb, kc);
        lemma_lex_le_total(ka, kc);
        if ka != kb && kb != kc {
            if cfg.descending {
                lemma_lex_le_trans(kc, kb, ka);
                if kc == ka {
                    lemma_lex_le_trans(kb, ka, kc);
                }
            } else {
                lemma_lex_le_trans(ka, kb, kc);
                if ka == kc {
                    lemma_lex_le_trans(kb, kc, ka);
                }
            }
        }
    }
}

/// Computes the sort key of a stored row.
pub fn sort_key_exec(cfg: SortConfig, r: &crate::store::StoredImage) -> (k: Vec<char>)
    ensures
        k@ == sort_key(cfg, r@),
{
    match cfg.field {
        SortField::Id => Vec::new(),
        SortField::Filename => chars_vec(r.filename.as_str()),
        SortField::ModelName => match &r.params.model_name {
            Some(m) => chars_vec(m.as_str()),
            None => if cfg.descending {
                Vec::new()
            } else {
                chars_vec("~")
            },
        },
        SortField::GenerationType => match &r.params.generation_type {
            Some(g) => chars_vec(g.as_str()),
            None => if cfg.descending {
                Vec::new()
            } else {
                chars_vec("~")
            },
        },
    }
}

/// Compares two stored rows in output order.
pub fn row_lt_exec(cfg: SortConfig, a: &crate::store::StoredImage, b: &crate::store::StoredImage)
    -> (r: bool)
    ensures
        r == row_lt(cfg, a@, b@),
{
    match cfg.field {
        SortField::Id => {
            if cfg.descending {
                b.id < a.id
            } else {
                a.id < b.id
            }
        },
        _ => {
            let ka = sort_key_exec(cfg, a);
            let kb = sort_key_exec(cfg, b);
            if !seq_eq(&ka, &kb) {
                if cfg.descending {
                    crate::text::lex_le_exec(&kb, &ka) && !seq_eq(&kb, &ka)
                } else {
                    crate::text::lex_le_exec(&ka, &kb) && !seq_eq(&ka, &kb)
                }
            } else {
                if cfg.descending {
                    b.id < a.id
                } else {
                    a.id < b.id
                }
            }
        },
    }
}

// ─────────────────────── cursors ───────────────────────

/// The decoded form of a continuation token.
pub ghost enum CursorModel {
    Fresh,
    ById { id: int },
    ByKey { id: int, key: Seq<char> },
}

/// The token a page ends with: the last row's id, and its sort key when
/// the order is not id-based.
pub open spec fn cursor_of_row(cfg: SortConfig, r: RowModel) -> Seq<char> {
    if cfg.field is Id {
        idec(r.id)
    } else {
        idec(r.id) + seq!['|'] + sort_key(cfg, r)
    }
}

/// A row comes strictly after the cursor position in output order.
pub open spec fn after_cursor(cfg: SortConfig, cur: CursorModel, r: RowModel) -> bool {
    match cur {
        CursorModel::Fresh => true,
        CursorModel::ById { id } => if cfg.descending {
            r.id < id
        } else {
            r.id > id
        },
        CursorModel::ByKey { id, key } => {
            if cfg.field is Id {
                if cfg.descending {
                    r.id < id
                } else {
                    r.id > id
                }
            } else {
                let k = sort_key(cfg, r);
                if cfg.descending {
                    lex_lt(k, key) || (k == key && r.id < id)
                } else {
                    lex_lt(key, k) || (k == key && r.id > id)
                }
            }
        },
    }
}

// ─────────────────────── the page characterization ───────────────────────

/// `sel` is exactly the first `limit` rows of `rows` that satisfy `pred`
/// and lie strictly after the cursor, in output order.
pub open spec fn is_page(
    rows: Seq<RowModel>,
    pred: spec_fn(RowModel) -> bool,
    cfg: SortConfig,
    cur: CursorModel,
    limit: int,
    sel: Seq<RowModel>,
) -> bool {
    &&& sel.len() <= limit
    &&& forall|i: int|
        0 <= i < sel.len() ==> rows.contains(#[trigger] sel[i]) && pred(sel[i]) && after_cursor(
            cfg,
            cur,
            sel[i],
        )
    &&& forall|i: int, j: int| 0 <= i < j < sel.len() ==> row_lt(cfg, sel[i], sel[j])
    &&& forall|j: int|
        0 <= j < rows.len() && pred(#[trigger] rows[j]) && after_cursor(cfg, cur, rows[j])
            ==> sel.contains(rows[j]) || (sel.len() == limit && (limit == 0 || row_lt(
            cfg,
            sel[sel.len() - 1],
            rows[j],
        )))
}

// ─────────────────────── filter predicates ───────────────────────

/// The grid fallback heuristics over directory, filename and raw text.
pub open spec fn grid_like(r: RowModel) -> bool {
    let dir = lower_seq(r.directory);
    let fnm = lower_seq(r.filename);
    let raw = lower_seq(r.params.raw_metadata);
    ||| like_match("%txt2img-grids%"@, dir)
    ||| like_match("%img2img-grids%"@, dir)
    ||| like_match("%/grids/%"@, dir)
    ||| like_match("%\\grids\\%"@, dir)
    ||| like_match("grid-%"@, fnm)
    ||| like_match("%_grid-%"@, fnm)
    ||| like_match("%script: x/y/z plot%"@, raw)
    ||| like_match("%script: xyz plot%"@, raw)
    ||| like_match("%x values:%"@, raw)
    ||| like_match("%y values:%"@, raw)
}

/// Generation-type filter: an empty list admits everything; `grid` is
/// OR-ed with the path/name/metadata fallbacks.
pub open spec fn gen_type_matches(r: RowModel, gts: Seq<Seq<char>>) -> bool {
    gts.len() == 0 || exists|g: int|
        0 <= g < gts.len() && (if #[trigger] gts[g] == "grid"@ {
            r.params.generation_type == Some("grid"@) || grid_like(r)
        } else {
            r.params.generation_type == Some(gts[g])
        })
}

/// Model filter: an empty or absent filter admits everything; otherwise
/// the lower-cased model name must equal the normalized filter.
pub open spec fn model_matches(r: RowModel, mf: Option<Seq<char>>) -> bool {
    match mf {
        None => true,
        Some(f0) => {
            let f = lower_seq(trim_seq(f0));
            f.len() == 0 || (r.params.model_name matches Some(m) && lower_seq(m) == f)
        },
    }
}

/// Family filter: an empty list admits everything; otherwise some curated
/// pattern of some requested family must match the lower-cased model name.
pub open spec fn family_matches(r: RowModel, fams: Seq<Seq<char>>) -> bool {
    fams.len() == 0 || (r.params.model_name matches Some(m) && exists|f: int, p: int|
        0 <= f < fams.len() && 0 <= p < crate::query::family_patterns_spec(#[trigger] fams[f]).len()
            && like_match(
            #[trigger] crate::query::family_patterns_spec(fams[f])[p],
            lower_seq(m),
        ))
}

/// Tag filters over the row's normalized tag set.
pub open spec fn tags_match(r: RowModel, inc: Seq<Seq<char>>, exc: Seq<Seq<char>>) -> bool {
    (forall|i: int| 0 <= i < inc.len() ==> r.tags.contains(#[trigger] inc[i])) && (forall|i: int|
        0 <= i < exc.len() ==> !r.tags.contains(#[trigger] exc[i]))
}

/// The text discipline a query runs under.
pub ghost enum TextSel {
    Everything,
    Ranked { parts: Seq<Seq<char>> },
    Substring { q: Seq<char> },
}

pub open spec fn text_matches(t: TextSel, r: RowModel) -> bool {
    match t {
        TextSel::Everything => true,
        TextSel::Ranked { parts } => ranked_match(parts, r),
        TextSel::Substring { q } => trigram_match(q, r),
    }
}

/// The full row predicate of a gallery query.
pub open spec fn row_pred(
    t: TextSel,
    gts: Seq<Seq<char>>,
    mf: Option<Seq<char>>,
    fams: Seq<Seq<char>>,
    inc: Seq<Seq<char>>,
    exc: Seq<Seq<char>>,
    r: RowModel,
) -> bool {
    text_matches(t, r) && gen_type_matches(r, gts) && model_matches(r, mf) && family_matches(
        r,
        fams,
    ) && tags_match(r, inc, exc)
}

// ─────────────────────── exec filter evaluation ───────────────────────

/// The executable side of `TextSel`.
pub enum TextFilter {
    Everything,
    Ranked { parts: Vec<Vec<char>> },
    Substring { q: Vec<char> },
}

impl TextFilter {
    pub open spec fn model(&self) -> TextSel {
        match self {
            TextFilter::Everything => TextSel::Everything,
            TextFilter::Ranked { parts } => TextSel::Ranked { parts: views_of_vecs(parts@) },
            TextFilter::Substring { q } => TextSel::Substring { q: q@ },
        }
    }
}

fn cols_of_row(r: &crate::store::StoredImage) -> (cols: Vec<Vec<char>>)
    ensures
        views_of_vecs(cols@) =~= row_cols(r@),
{
    let mut cols: Vec<Vec<char>> = Vec::new();
    cols.push(chars_vec(r.params.prompt.as_str()));
    cols.push(chars_vec(r.params.negative_prompt.as_str()));
    cols.push(chars_vec(r.params.raw_metadata.as_str()));
    match &r.params.model_name {
        Some(m) => cols.push(chars_vec(m.as_str())),
        None => cols.push(Vec::new()),
    }
    cols
}

fn text_matches_exec(t: &TextFilter, r: &crate::store::StoredImage) -> (res: bool)
    ensures
        res == text_matches(t.model(), r@),
{
    match t {
        TextFilter::Everything => true,
        TextFilter::Ranked { parts } => {
            proof {
                assert(t.model() == TextSel::Ranked { parts: views_of_vecs(parts@) });
            }
            let cols = cols_of_row(r);
            let mut i: usize = 0;
            while i < parts.len()
                invariant
                    0 <= i <= parts@.len(),
                    t.model() == (TextSel::Ranked { parts: views_of_vecs(parts@) }),
                    views_of_vecs(cols@) =~= row_cols(r@),
                    forall|j: int|
                        0 <= j < i ==> part_matches_row(
                            #[trigger] views_of_vecs(parts@)[j],
                            r@,
                        ),
                decreases parts.len() - i,
            {
                let mut hit: bool = false;
                let mut c: usize = 0;
                while c < cols.len()
                    invariant
                        0 <= c <= cols@.len(),
                        0 <= i < parts@.len(),
                        t.model() == (TextSel::Ranked { parts: views_of_vecs(parts@) }),
                        views_of_vecs(cols@) =~= row_cols(r@),
                        !hit ==> forall|d: int|
                            0 <= d < c ==> !part_matches_col(
                                views_of_vecs(parts@)[i as int],
                                #[trigger] views_of_vecs(cols@)[d],
                            ),
                        hit ==> part_matches_row(views_of_vecs(parts@)[i as int], r@),
                    decreases cols.len() - c,
                {
                    proof {
                        assert(views_of_vecs(parts@)[i as int] == parts@[i as int]@);
                        assert(views_of_vecs(cols@)[c as int] == cols@[c as int]@);
                    }
                    if part_matches_col_exec(&parts[i], &cols[c]) {
                        proof {
                            assert(part_matches_col(
                                views_of_vecs(parts@)[i as int],
                                row_cols(r@)[c as int],
                            ));
                        }
                        hit = true;
                    }
                    c += 1;
                }
                if !hit {
                    proof {
                        assert(!part_matches_row(views_of_vecs(parts@)[i as int], r@));
                    }
                    return false;
                }
                i += 1;
            }
            true
        },
        TextFilter::Substring { q } => {
            proof {
                assert(t.model() == TextSel::Substring { q: q@ });
            }
            let t0 = to_ascii_lower(&trim(q));
            if t0.len() < 3 {
                return false;
            }
            let cols = cols_of_row(r);
            let mut c: usize = 0;
            while c < cols.len()
                invariant
                    0 <= c <= cols@.len(),
                    t.model() == (TextSel::Substring { q: q@ }),
                    t0@ == lower_seq(trim_seq(q@)),
                    t0@.len() >= 3,
                    views_of_vecs(cols@) =~= row_cols(r@),
                    forall|d: int|
                        0 <= d < c ==> !contains_sub(
                            lower_seq(#[trigger] views_of_vecs(cols@)[d]),
                            lower_seq(trim_seq(q@)),
                        ),
                decreases cols.len() - c,
            {
                if contains_sub_exec(&to_ascii_lower(&cols[c]), &t0) {
                    proof {
                        assert(contains_sub(
                            lower_seq(row_cols(r@)[c as int]),
                            lower_seq(trim_seq(q@)),
                        ));
                    }
                    return true;
                }
                c += 1;
            }
            false
        },
    }
}

fn string_in_tags(tags: &Vec<String>, t: &Vec<char>) -> (r: bool)
    ensures
        r == crate::store::string_views(tags@).contains(t@),
{
    let mut i: usize = 0;
    while i < tags.len()
        invariant
            0 <= i <= tags@.len(),
            forall|j: int| 0 <= j < i ==> crate::store::string_views(tags@)[j] != t@,
        decreases tags.len() - i,
    {
        if seq_eq(&chars_vec(tags[i].as_str()), t) {
            proof {
                assert(crate::store::string_views(tags@)[i as int] == t@);
            }
            return true;
        }
        i += 1;
    }
    proof {
        if crate::store::string_views(tags@).contains(t@) {
            let j = choose|j: int|
                0 <= j < crate::store::string_views(tags@).len() && crate::store::string_views(
                    tags@,
                )[j] == t@;
        }
    }
    false
}

/// Evaluates the non-text filters against a stored row.
#[verifier::rlimit(60)]
fn base_matches_exec(
    r: &crate::store::StoredImage,
    gts: &Vec<String>,
    mf: &Option<Vec<char>>,
    fams: &Vec<String>,
    inc: &Vec<Vec<char>>,
    exc: &Vec<Vec<char>>,
) -> (res: bool)
    ensures
        res == (gen_type_matches(r@, crate::store::string_views(gts@)) && model_matches(
            r@,
            opt_view(*mf),
        ) && family_matches(r@, crate::store::string_views(fams@)) && tags_match(
            r@,
            views_of_vecs(inc@),
            views_of_vecs(exc@),
        )),
{
    let ghost gv = crate::store::string_views(gts@);
    let mut gen_ok: bool = gts.len() == 0;
    let mut g: usize = 0;
    while g < gts.len()
        invariant
            0 <= g <= gts@.len(),
            gv == crate::store::string_views(gts@),
            gen_ok == (gts@.len() == 0 || exists|x: int|
                0 <= x < g && (if #[trigger] gv[x] == "grid"@ {
                    r@.params.generation_type == Some("grid"@) || grid_like(r@)
                } else {
                    r@.params.generation_type == Some(gv[x])
                })),
        decreases gts.len() - g,
    {
        proof {
            assert(gv[g as int] == gts@[g as int]@);
        }
        let gt = chars_vec(gts[g].as_str());
        let this_ok: bool = if seq_eq(&gt, &chars_vec("grid")) {
            let stored_grid: bool = match &r.params.generation_type {
                Some(t) => seq_eq(&chars_vec(t.as_str()), &chars_vec("grid")),
                None => false,
            };
            stored_grid || grid_like_exec(r)
        } else {
            match &r.params.generation_type {
                Some(t) => seq_eq(&chars_vec(t.as_str()), &gt),
                None => false,
            }
        };
        if this_ok {
            gen_ok = true;
        }
        g += 1;
    }
    if !gen_ok {
        return false;
    }
    let model_ok: bool = match mf {
        None => true,
        Some(f0) => {
            let f = to_ascii_lower(&trim(f0));
            if f.len() == 0 {
                true
            } else {
                match &r.params.model_name {
                    Some(m) => seq_eq(&to_ascii_lower(&chars_vec(m.as_str())), &f),
                    None => false,
                }
            }
        },
    };
    if !model_ok {
        return false;
    }
    let fam_ok: bool = if fams.len() == 0 {
        true
    } else {
        match &r.params.model_name {
            Some(m) => fams_hit(&to_ascii_lower(&chars_vec(m.as_str())), fams),
            None => false,
        }
    };
    if !fam_ok {
        proof {
            assert(!family_matches(r@, crate::store::string_views(fams@)));
        }
        return false;
    }
    proof {
        assert(family_matches(r@, crate::store::string_views(fams@)));
    }
    let mut i: usize = 0;
    while i < inc.len()
        invariant
            0 <= i <= inc@.len(),
            forall|j: int|
                0 <= j < i ==> r@.tags.contains(#[trigger] views_of_vecs(inc@)[j]),
        decreases inc.len() - i,
    {
        if !string_in_tags(&r.tags, &inc[i]) {
            proof {
                assert(!r@.tags.contains(views_of_vecs(inc@)[i as int]));
            }
            return false;
        }
        i += 1;
    }
    let mut i: usize = 0;
    while i < exc.len()
        invariant
            0 <= i <= exc@.len(),
            forall|j: int|
                0 <= j < i ==> !r@.tags.contains(#[trigger] views_of_vecs(exc@)[j]),
        decreases exc.len() - i,
    {
        if string_in_tags(&r.tags, &exc[i]) {
            proof {
                assert(r@.tags.contains(views_of_vecs(exc@)[i as int]));
            }
            return false;
        }
        i += 1;
    }
    true
}

pub open spec fn opt_view(o: Option<Vec<char>>) -> Option<Seq<char>> {
    match o {
        Some(v) => Some(v@),
        None => None,
    }
}

/// Whether some pattern of one family matches the lower-cased model name.
fn fam_hit_one(lm: &Vec<char>, fam: &String) -> (res: bool)
    ensures
        res == exists|p: int|
            0 <= p < crate::query::family_patterns_spec(fam@).len() && like_match(
                #[trigger] crate::query::family_patterns_spec(fam@)[p],
                lm@,
            ),
{
    let pats = crate::query::family_patterns(fam.as_str());
    let ghost pv = crate::query::string_views(pats@);
    let mut p: usize = 0;
    while p < pats.len()
        invariant
            0 <= p <= pats@.len(),
            pv == crate::query::string_views(pats@),
            pv == crate::query::family_patterns_spec(fam@),
            forall|q: int| 0 <= q < p ==> !like_match(#[trigger] pv[q], lm@),
        decreases pats.len() - p,
    {
        proof {
            assert(pv[p as int] == pats@[p as int]@);
        }
        if crate::query::like_match_exec(&chars_vec(pats[p].as_str()), lm) {
            proof {
                assert(like_match(pv[p as int], lm@));
            }
            return true;
        }
        p += 1;
    }
    false
}

/// Whether any requested family has a matching pattern.
fn fams_hit(lm: &Vec<char>, fams: &Vec<String>) -> (res: bool)
    ensures
        res == exists|f: int, p: int|
            0 <= f < fams@.len() && 0 <= p < crate::query::family_patterns_spec(
                #[trigger] crate::store::string_views(fams@)[f],
            ).len() && like_match(
                #[trigger] crate::query::family_patterns_spec(
                    crate::store::string_views(fams@)[f],
                )[p],
                lm@,
            ),
{
    let ghost fv = crate::store::string_views(fams@);
    let mut fi: usize = 0;
    while fi < fams.len()
        invariant
            0 <= fi <= fams@.len(),
            fv == crate::store::string_views(fams@),
            forall|f: int, p: int|
                0 <= f < fi && 0 <= p < crate::query::family_patterns_spec(
                    #[trigger] fv[f],
                ).len() ==> !like_match(
                    #[trigger] crate::query::family_patterns_spec(fv[f])[p],
                    lm@,
                ),
        decreases fams.len() - fi,
    {
        proof {
            assert(fv[fi as int] == fams@[fi as int]@);
        }
        if fam_hit_one(lm, &fams[fi]) {
            return true;
        }
        fi += 1;
    }
    false
}

fn grid_like_exec(r: &crate::store::StoredImage) -> (res: bool)
    ensures
        res == grid_like(r@),
{
    let dir = to_ascii_lower(&chars_vec(r.directory.as_str()));
    let fnm = to_ascii_lower(&chars_vec(r.filename.as_str()));
    let raw = to_ascii_lower(&chars_vec(r.params.raw_metadata.as_str()));
    crate::query::like_match_exec(&chars_vec("%txt2img-grids%"), &dir)
        || crate::query::like_match_exec(&chars_vec("%img2img-grids%"), &dir)
        || crate::query::like_match_exec(&chars_vec("%/grids/%"), &dir)
        || crate::query::like_match_exec(&chars_vec("%\\grids\\%"), &dir)
        || crate::query::like_match_exec(&chars_vec("grid-%"), &fnm)
        || crate::query::like_match_exec(&chars_vec("%_grid-%"), &fnm)
        || crate::query::like_match_exec(&chars_vec("%script: x/y/z plot%"), &raw)
        || crate::query::like_match_exec(&chars_vec("%script: xyz plot%"), &raw)
        || crate::query::like_match_exec(&chars_vec("%x values:%"), &raw)
        || crate::query::like_match_exec(&chars_vec("%y values:%"), &raw)
}

// ─────────────────────── cursor codec ───────────────────────

/// The meaning of a continuation token: the id before the separator, the
/// sort key after it; malformed tokens restart from the top.
pub open spec fn cursor_model_of(c: Seq<char>) -> CursorModel {
    match crate::text::find_first(c, seq!['|'], 0) {
        Some(p) => {
            if 0 <= p <= c.len() && crate::text::is_i64_str(c.take(p)) {
                CursorModel::ByKey { id: crate::text::i64_str_val(c.take(p)), key: c.skip(p + 1) }
            } else {
                CursorModel::Fresh
            }
        },
        None => {
            if crate::text::is_i64_str(c) {
                CursorModel::ById { id: crate::text::i64_str_val(c) }
            } else {
                CursorModel::Fresh
            }
        },
    }
}

pub open spec fn cursor_model_opt(c: Option<Seq<char>>) -> CursorModel {
    match c {
        Some(s) => cursor_model_of(s),
        None => CursorModel::Fresh,
    }
}

/// Decoded token: `None` for a fresh page.
pub enum CursorToken {
    Fresh,
    ById { id: i64 },
    ByKey { id: i64, key: Vec<char> },
}

impl CursorToken {
    pub open spec fn model(&self) -> CursorModel {
        match self {
            CursorToken::Fresh => CursorModel::Fresh,
            CursorToken::ById { id } => CursorModel::ById { id: id as int },
            CursorToken::ByKey { id, key } => CursorModel::ByKey { id: id as int, key: key@ },
        }
    }
}

pub fn decode_cursor(cursor: Option<&str>) -> (r: CursorToken)
    ensures
        r.model() == match cursor {
            Some(c) => cursor_model_of(c@),
            None => CursorModel::Fresh,
        },
{
    let c = match cursor {
        Some(c) => chars_vec(c),
        None => {
            return CursorToken::Fresh;
        },
    };
    let bar = chars_vec("|");
    proof {
        assert(bar@ =~= seq!['|']) by {
            reveal_strlit("|");
        }
    }
    match find_sub(&c, &bar, 0) {
        Some(p) => {
            proof {
                assert(p < c.len());
            }
            let id_part = subrange_vec(&c, 0, p);
            proof {
                assert(id_part@ =~= c@.take(p as int));
            }
            match crate::text::parse_i64_chars(&id_part) {
                Some(id) => {
                    let key = subrange_vec(&c, p + 1, c.len());
                    proof {
                        assert(key@ =~= c@.skip(p + 1));
                    }
                    CursorToken::ByKey { id, key }
                },
                None => CursorToken::Fresh,
            }
        },
        None => {
            match crate::text::parse_i64_chars(&c) {
                Some(id) => CursorToken::ById { id },
                None => CursorToken::Fresh,
            }
        },
    }
}

/// Encodes the continuation token of a page ending at `r`.
pub fn encode_cursor(cfg: SortConfig, r: &crate::store::StoredImage) -> (c: String)
    ensures
        c@ == cursor_of_row(cfg, r@),
{
    let mut out = crate::text::i64_to_chars(r.id);
    match cfg.field {
        SortField::Id => {},
        _ => {
            out.push('|');
            let k = sort_key_exec(cfg, r);
            crate::text::append_vec(&mut out, &k);
            proof {
                assert(out@ =~= idec(r@.id) + seq!['|'] + sort_key(cfg, r@));
            }
        },
    }
    crate::text::string_from_chars(&out)
}

/// Decoding the token a page ends with lands exactly after that row.
pub proof fn lemma_cursor_roundtrip(cfg: SortConfig, r: RowModel)
    requires
        i64::MIN <= r.id <= i64::MAX,
    ensures
        cursor_model_of(cursor_of_row(cfg, r)) == if cfg.field is Id {
            CursorModel::ById { id: r.id }
        } else {
            CursorModel::ByKey { id: r.id, key: sort_key(cfg, r) }
        },
{
    crate::text::lemma_idec_i64(r.id as i64);
    let c = cursor_of_row(cfg, r);
    if cfg.field is Id {
        assert(c == idec(r.id));
        crate::text::lemma_find_first_char(c, seq!['|'], 0);
        match crate::text::find_first(c, seq!['|'], 0) {
            Some(p) => {
                assert(crate::text::matches_at(c, seq!['|'], p));
                assert(c.subrange(p, p + 1)[0] == c[p]);
                assert(c[p] == '|');
                assert(false);
            },
            None => {},
        }
    } else {
        let d = idec(r.id);
        assert(c =~= d + seq!['|'] + sort_key(cfg, r));
        crate::text::lemma_find_first_char(c, seq!['|'], 0);
        assert(c[d.len() as int] == '|');
        assert(crate::text::matches_at(c, seq!['|'], d.len() as int)) by {
            assert(c.subrange(d.len() as int, d.len() as int + 1) =~= seq!['|']);
        }
        match crate::text::find_first(c, seq!['|'], 0) {
            Some(p) => {
                assert(p <= d.len());
                if p < d.len() {
                    assert(c.subrange(p, p + 1)[0] == c[p]);
                    assert(c[p] == d[p]);
                    assert(d[p] != '|');
                    assert(c[p] == '|');
                    assert(false);
                }
                assert(p == d.len());
                assert(c.take(p) =~= d);
                assert(c.skip(p + 1) =~= sort_key(cfg, r));
            },
            None => {
                assert(false);
            },
        }
    }
}

// ─────────────────────── sorted collection ───────────────────────

pub open spec fn sel_of(rows: Seq<RowModel>, s: Seq<usize>) -> Seq<RowModel> {
    s.map_values(|i: usize| rows[i as int])
}

/// Inserts a row index into the sorted selection.
fn insert_idx(rows: &Vec<crate::store::StoredImage>, cfg: SortConfig, s: &mut Vec<usize>, j: usize)
    requires
        j < rows@.len(),
        forall|p: int| 0 <= p < old(s)@.len() ==> (#[trigger] old(s)@[p] as int) < j,
        forall|p: int, q: int|
            0 <= p < q < old(s)@.len() ==> row_lt(
                cfg,
                crate::store::rows_view(rows@)[old(s)@[p] as int],
                crate::store::rows_view(rows@)[old(s)@[q] as int],
            ),
        forall|a: int, b: int|
            0 <= a < b < rows@.len() ==> crate::store::rows_view(rows@)[a].id
                != crate::store::rows_view(rows@)[b].id,
    ensures
        final(s)@.len() == old(s)@.len() + 1,
        forall|p: int| 0 <= p < final(s)@.len() ==> (#[trigger] final(s)@[p] as int) <= j,
        forall|p: int, q: int|
            0 <= p < q < final(s)@.len() ==> row_lt(
                cfg,
                crate::store::rows_view(rows@)[final(s)@[p] as int],
                crate::store::rows_view(rows@)[final(s)@[q] as int],
            ),
        forall|x: usize| final(s)@.contains(x) <==> old(s)@.contains(x) || x == j,
{
    let ghost rv = crate::store::rows_view(rows@);
    let mut k: usize = 0;
    loop
        invariant_except_break
            0 <= k <= s@.len(),
            s@ == old(s)@,
            j < rows@.len(),
            rv == crate::store::rows_view(rows@),
            forall|p: int| 0 <= p < s@.len() ==> (#[trigger] s@[p] as int) < j,
            forall|p: int|
                0 <= p < k ==> row_lt(cfg, rv[#[trigger] s@[p] as int], rv[j as int]),
        ensures
            0 <= k <= s@.len(),
            s@ == old(s)@,
            forall|p: int|
                0 <= p < k ==> row_lt(cfg, rv[#[trigger] s@[p] as int], rv[j as int]),
            k < s@.len() ==> !row_lt(cfg, rv[s@[k as int] as int], rv[j as int]),
        decreases s.len() - k,
    {
        if k >= s.len() {
            break ;
        }
        let si = s[k];
        proof {
            assert((s@[k as int] as int) < j);
            assert(rv[si as int] == rows@[si as int]@);
            assert(rv[j as int] == rows@[j as int]@);
        }
        if !row_lt_exec(cfg, &rows[si], &rows[j]) {
            break ;
        }
        k += 1;
    }
    let ghost pre = s@;
    proof {
        if k < pre.len() {
            assert((pre[k as int] as int) < j);
            assert(rv[pre[k as int] as int].id != rv[j as int].id);
            lemma_row_lt_total(cfg, rv[pre[k as int] as int], rv[j as int]);
        }
    }
    s.insert(k, j);
    proof {
        let post = s@;
        assert(post.len() == pre.len() + 1);
        assert forall|p: int| 0 <= p < post.len() implies #[trigger] post[p] == (if p < k {
            pre[p]
        } else if p == k {
            j
        } else {
            pre[p - 1]
        }) by {}
        assert forall|p: int, q: int| 0 <= p < q < post.len() implies row_lt(
            cfg,
            rv[post[p] as int],
            rv[post[q] as int],
        ) by {
            if q < k {
            } else if p < k && q == k {
            } else if p == k {
                if q - 1 > k {
                    lemma_row_lt_trans(cfg, rv[j as int], rv[pre[k as int] as int], rv[pre[q
                        - 1] as int]);
                } else {
                }
            } else if p < k && k < q {
            } else {
            }
        }
        assert forall|x: usize| post.contains(x) <==> pre.contains(x) || x == j by {
            if post.contains(x) {
                let p = choose|p: int| 0 <= p < post.len() && post[p] == x;
                if p < k {
                    assert(pre[p] == x);
                } else if p == k {
                } else {
                    assert(pre[p - 1] == x);
                }
            }
            if pre.contains(x) {
                let p = choose|p: int| 0 <= p < pre.len() && pre[p] == x;
                if p < k {
                    assert(post[p] == x);
                } else {
                    assert(post[p + 1] == x);
                }
            }
            if x == j {
                assert(post[k as int] == x);
            }
        }
    }
}

/// Collects the indices of all rows the predicate admits, in output order.
pub fn collect_sorted(
    rows: &Vec<crate::store::StoredImage>,
    tf: &TextFilter,
    gts: &Vec<String>,
    mf: &Option<Vec<char>>,
    fams: &Vec<String>,
    inc: &Vec<Vec<char>>,
    exc: &Vec<Vec<char>>,
    cfg: SortConfig,
) -> (s: Vec<usize>)
    requires
        forall|a: int, b: int|
            0 <= a < b < rows@.len() ==> crate::store::rows_view(rows@)[a].id
                != crate::store::rows_view(rows@)[b].id,
    ensures
        forall|p: int| 0 <= p < s@.len() ==> (#[trigger] s@[p] as int) < rows@.len(),
        forall|p: int|
            0 <= p < s@.len() ==> row_pred(
                tf.model(),
                crate::store::string_views(gts@),
                opt_view(*mf),
                crate::store::string_views(fams@),
                views_of_vecs(inc@),
                views_of_vecs(exc@),
                crate::store::rows_view(rows@)[#[trigger] s@[p] as int],
            ),
        forall|p: int, q: int|
            0 <= p < q < s@.len() ==> row_lt(
                cfg,
                crate::store::rows_view(rows@)[s@[p] as int],
                crate::store::rows_view(rows@)[s@[q] as int],
            ),
        forall|j: int|
            0 <= j < rows@.len() && row_pred(
                tf.model(),
                crate::store::string_views(gts@),
                opt_view(*mf),
                crate::store::string_views(fams@),
                views_of_vecs(inc@),
                views_of_vecs(exc@),
                crate::store::rows_view(rows@)[j],
            ) ==> s@.contains(j as usize),
{
    let ghost rv = crate::store::rows_view(rows@);
    let mut s: Vec<usize> = Vec::new();
    let mut j: usize = 0;
    while j < rows.len()
        invariant
            0 <= j <= rows@.len(),
            rv == crate::store::rows_view(rows@),
            forall|a: int, b: int| 0 <= a < b < rows@.len() ==> rv[a].id != rv[b].id,
            forall|p: int| 0 <= p < s@.len() ==> (#[trigger] s@[p] as int) < j,
            forall|p: int|
                0 <= p < s@.len() ==> row_pred(
                    tf.model(),
                    crate::store::string_views(gts@),
                    opt_view(*mf),
                    crate::store::string_views(fams@),
                    views_of_vecs(inc@),
                    views_of_vecs(exc@),
                    rv[#[trigger] s@[p] as int],
                ),
            forall|p: int, q: int|
                0 <= p < q < s@.len() ==> row_lt(cfg, rv[s@[p] as int], rv[s@[q] as int]),
            forall|x: int|
                0 <= x < j && row_pred(
                    tf.model(),
                    crate::store::string_views(gts@),
                    opt_view(*mf),
                    crate::store::string_views(fams@),
                    views_of_vecs(inc@),
                    views_of_vecs(exc@),
                    rv[x],
                ) ==> s@.contains(x as usize),
        decreases rows.len() - j,
    {
        let keep = text_matches_exec(tf, &rows[j]) && base_matches_exec(
            &rows[j],
            gts,
            mf,
            fams,
            inc,
            exc,
        );
        if keep {
            let ghost pre = s@;
            insert_idx(rows, cfg, &mut s, j);
            proof {
                assert forall|p: int| 0 <= p < s@.len() implies row_pred(
                    tf.model(),
                    crate::store::string_views(gts@),
                    opt_view(*mf),
                    crate::store::string_views(fams@),
                    views_of_vecs(inc@),
                    views_of_vecs(exc@),
                    rv[#[trigger] s@[p] as int],
                ) by {
                    assert(s@.contains(s@[p]));
                    if s@[p] == j {
                    } else {
                        assert(pre.contains(s@[p]));
                        let q = choose|q: int| 0 <= q < pre.len() && pre[q] == s@[p];
                    }
                }
                assert forall|x: int|
                    0 <= x < j + 1 && row_pred(
                        tf.model(),
                        crate::store::string_views(gts@),
                        opt_view(*mf),
                        crate::store::string_views(fams@),
                        views_of_vecs(inc@),
                        views_of_vecs(exc@),
                        rv[x],
                    ) implies s@.contains(x as usize) by {
                    if x < j {
                        assert(pre.contains(x as usize));
                    }
                }
            }
        } else {
            proof {
                assert(!row_pred(
                    tf.model(),
                    crate::store::string_views(gts@),
                    opt_view(*mf),
                    crate::store::string_views(fams@),
                    views_of_vecs(inc@),
                    views_of_vecs(exc@),
                    rv[j as int],
                ));
            }
        }
        j += 1;
    }
    s
}

/// Evaluates the cursor test against a stored row.
fn after_cursor_exec(cfg: SortConfig, cur: &CursorToken, r: &crate::store::StoredImage) -> (res:
    bool)
    ensures
        res == after_cursor(cfg, cur.model(), r@),
{
    match cur {
        CursorToken::Fresh => true,
        CursorToken::ById { id } => {
            if cfg.descending {
                r.id < *id
            } else {
                r.id > *id
            }
        },
        CursorToken::ByKey { id, key } => {
            match cfg.field {
                SortField::Id => {
                    if cfg.descending {
                        r.id < *id
                    } else {
                        r.id > *id
                    }
                },
                _ => {
                    let k = sort_key_exec(cfg, r);
                    let keys_equal = seq_eq(&k, key);
                    if cfg.descending {
                        (crate::text::lex_le_exec(&k, key) && !keys_equal) || (keys_equal && r.id
                            < *id)
                    } else {
                        (crate::text::lex_le_exec(key, &k) && !keys_equal) || (keys_equal && r.id
                            > *id)
                    }
                },
            }
        },
    }
}

/// Mathematical model of a gallery row.
#[verifier::ext_equal]
pub ghost struct GalleryModel {
    pub id: int,
    pub filepath: Seq<char>,
    pub filename: Seq<char>,
    pub directory: Seq<char>,
    pub seed: Option<Seq<char>>,
    pub width: Option<u32>,
    pub height: Option<u32>,
    pub model_name: Option<Seq<char>>,
}

impl View for crate::store::GalleryImageRecord {
    type V = GalleryModel;

    open spec fn view(&self) -> GalleryModel {
        GalleryModel {
            id: self.id as int,
            filepath: self.filepath@,
            filename: self.filename@,
            directory: self.directory@,
            seed: crate::store::view_opt_string(self.seed),
            width: self.width,
            height: self.height,
            model_name: crate::store::view_opt_string(self.model_name),
        }
    }
}

/// The gallery projection of a stored row.
pub open spec fn gal_of_row(r: RowModel) -> GalleryModel {
    GalleryModel {
        id: r.id,
        filepath: r.filepath,
        filename: r.filename,
        directory: r.directory,
        seed: r.params.seed,
        width: r.params.width,
        height: r.params.height,
        model_name: r.params.model_name,
    }
}

fn gallery_of(r: &crate::store::StoredImage) -> (g: crate::store::GalleryImageRecord)
    ensures
        g@ == gal_of_row(r@),
{
    let g = crate::store::GalleryImageRecord {
        id: r.id,
        filepath: r.filepath.clone(),
        filename: r.filename.clone(),
        directory: r.directory.clone(),
        seed: match &r.params.seed {
            Some(s) => Some(s.clone()),
            None => None,
        },
        width: r.params.width,
        height: r.params.height,
        model_name: match &r.params.model_name {
            Some(s) => Some(s.clone()),
            None => None,
        },
    };
    proof {
        assert(g@ =~~= gal_of_row(r@));
    }
    g
}

pub open spec fn gallery_views(v: Seq<crate::store::GalleryImageRecord>) -> Seq<GalleryModel> {
    v.map_values(|g: crate::store::GalleryImageRecord| g@)
}

/// Walks the sorted selection in order, keeping the rows after the cursor,
/// up to the limit; returns the items with the ghost rows they project.
pub fn page_from_sorted(
    rows: &Vec<crate::store::StoredImage>,
    s: &Vec<usize>,
    cfg: SortConfig,
    cur: &CursorToken,
    limit: u32,
) -> (out: (Vec<crate::store::GalleryImageRecord>, Option<String>, Ghost<Seq<RowModel>>))
    requires
        forall|p: int| 0 <= p < s@.len() ==> (#[trigger] s@[p] as int) < rows@.len(),
        forall|p: int, q: int|
            0 <= p < q < s@.len() ==> row_lt(
                cfg,
                crate::store::rows_view(rows@)[s@[p] as int],
                crate::store::rows_view(rows@)[s@[q] as int],
            ),
    ensures
        ({
            let rv = crate::store::rows_view(rows@);
            let sel = out.2@;
            &&& gallery_views(out.0@) =~= sel.map_values(|r: RowModel| gal_of_row(r))
            &&& sel.len() <= limit
            &&& forall|i: int|
                0 <= i < sel.len() ==> sel_of(rv, s@).contains(#[trigger] sel[i]) && after_cursor(
                    cfg,
                    cur.model(),
                    sel[i],
                )
            &&& forall|i: int, j: int| 0 <= i < j < sel.len() ==> row_lt(cfg, sel[i], sel[j])
            &&& forall|p: int|
                0 <= p < s@.len() && after_cursor(
                    cfg,
                    cur.model(),
                    #[trigger] rv[s@[p] as int],
                ) ==> sel.contains(rv[s@[p] as int]) || (sel.len() == limit && (limit == 0
                    || row_lt(cfg, sel[sel.len() - 1], rv[s@[p] as int])))
            &&& out.1 matches Some(c) ==> sel.len() > 0 && c@ == cursor_of_row(
                cfg,
                sel[sel.len() - 1],
            )
            &&& out.1 is None <==> sel.len() == 0
        }),
{
    let ghost rv = crate::store::rows_view(rows@);
    let mut items: Vec<crate::store::GalleryImageRecord> = Vec::new();
    let ghost sel0: Seq<RowModel> = Seq::empty();
    let mut sel: Ghost<Seq<RowModel>> = Ghost(sel0);
    let mut last: Option<usize> = None;
    let mut p: usize = 0;
    proof {
        assert(gallery_views(items@) =~= Seq::<GalleryModel>::empty());
        assert(sel@.map_values(|r: RowModel| gal_of_row(r)) =~= Seq::<GalleryModel>::empty());
    }
    while p < s.len() && items.len() < limit as usize
        invariant
            0 <= p <= s@.len(),
            rv == crate::store::rows_view(rows@),
            items@.len() == sel@.len(),
            sel@.len() <= limit,
            forall|q: int| 0 <= q < s@.len() ==> (#[trigger] s@[q] as int) < rows@.len(),
            forall|a: int, b: int|
                0 <= a < b < s@.len() ==> row_lt(cfg, rv[s@[a] as int], rv[s@[b] as int]),
            gallery_views(items@) =~= sel@.map_values(|r: RowModel| gal_of_row(r)),
            forall|i: int|
                0 <= i < sel@.len() ==> sel_of(rv, s@).contains(#[trigger] sel@[i])
                    && after_cursor(cfg, cur.model(), sel@[i]),
            forall|i: int|
                #![trigger sel@[i]]
                0 <= i < sel@.len() ==> exists|q: int|
                    0 <= q < p && rv[#[trigger] s@[q] as int] == sel@[i],
            forall|i: int, j: int| 0 <= i < j < sel@.len() ==> row_lt(cfg, sel@[i], sel@[j]),
            forall|q: int|
                0 <= q < p && after_cursor(cfg, cur.model(), #[trigger] rv[s@[q] as int])
                    ==> sel@.contains(rv[s@[q] as int]),
            match last {
                Some(li) => sel@.len() > 0 && (li as int) < rows@.len() && rv[li as int]
                    == sel@[sel@.len() - 1],
                None => sel@.len() == 0,
            },
        decreases s.len() - p,
    {
        let si = s[p];
        if after_cursor_exec(cfg, cur, &rows[si]) {
            let ghost pre_sel = sel@;
            let ghost pre_items = gallery_views(items@);
            items.push(gallery_of(&rows[si]));
            sel = Ghost(pre_sel.push(rv[si as int]));
            last = Some(si);
            proof {
                assert(gallery_views(items@) =~~= pre_items.push(gal_of_row(rv[si as int])));
                assert(sel@.map_values(|r: RowModel| gal_of_row(r)) =~~= pre_sel.map_values(
                    |r: RowModel| gal_of_row(r),
                ).push(gal_of_row(rv[si as int])));
                assert(sel_of(rv, s@)[p as int] == rv[si as int]);
                assert(sel_of(rv, s@).contains(rv[si as int]));
                assert forall|i: int, j: int| 0 <= i < j < sel@.len() implies row_lt(
                    cfg,
                    sel@[i],
                    sel@[j],
                ) by {
                    if j == sel@.len() - 1 {
                        let q = choose|q: int| 0 <= q < p && rv[#[trigger] s@[q] as int]
                            == sel@[i];
                        assert(row_lt(cfg, rv[s@[q] as int], rv[s@[p as int] as int]));
                    }
                }
                assert forall|q: int|
                    0 <= q < p + 1 && after_cursor(cfg, cur.model(), #[trigger] rv[s@[q] as int])
                        implies sel@.contains(rv[s@[q] as int]) by {
                    if q < p {
                        assert(pre_sel.contains(rv[s@[q] as int]));
                        let w = choose|w: int| 0 <= w < pre_sel.len() && pre_sel[w] == rv[s@[q] as int];
                        assert(sel@[w] == rv[s@[q] as int]);
                    } else {
                        assert(sel@[sel@.len() - 1] == rv[s@[q] as int]);
                    }
                }
            }
        } else {
            proof {
                assert forall|q: int|
                    0 <= q < p + 1 && after_cursor(cfg, cur.model(), #[trigger] rv[s@[q] as int])
                        implies sel@.contains(rv[s@[q] as int]) by {}
            }
        }
        p += 1;
    }
    let ghost sel_final = sel@;
    proof {
        // beyond the scan point everything is ordered after the last item
        assert forall|q: int|
            0 <= q < s@.len() && after_cursor(cfg, cur.model(), #[trigger] rv[s@[q] as int])
                implies sel_final.contains(rv[s@[q] as int]) || (sel_final.len() == limit && (limit
                == 0 || row_lt(cfg, sel_final[sel_final.len() - 1], rv[s@[q] as int]))) by {
            if q < p {
            } else {
                // the loop stopped because the limit was reached
                assert(items@.len() >= limit as usize);
                assert(sel_final.len() == limit);
                if limit > 0 {
                    assert(sel_final.len() > 0);
                    assert(sel_final[sel_final.len() - 1] == sel_final[sel_final.len() - 1]);
                    assert(exists|x: int|
                        0 <= x < p && rv[#[trigger] s@[x] as int] == sel_final[sel_final.len()
                            - 1]);
                    let lq = choose|x: int|
                        0 <= x < p && rv[#[trigger] s@[x] as int] == sel_final[sel_final.len()
                            - 1];
                    assert(lq < q);
                    assert(row_lt(cfg, rv[s@[lq] as int], rv[s@[q] as int]));
                }
            }
        }
    }
    let next_cursor: Option<String> = match last {
        Some(li) => {
            proof {
                assert(rv[li as int] == rows@[li as int]@);
            }
            Some(encode_cursor(cfg, &rows[li]))
        },
        None => None,
    };
    (items, next_cursor, sel)
}

/// The row predicate of a query as a closed-over function.
pub open spec fn page_pred(
    t: TextSel,
    gts: Seq<Seq<char>>,
    mf: Option<Seq<char>>,
    fams: Seq<Seq<char>>,
    inc: Seq<Seq<char>>,
    exc: Seq<Seq<char>>,
) -> spec_fn(RowModel) -> bool {
    |r: RowModel| row_pred(t, gts, mf, fams, inc, exc, r)
}

/// No row would make it onto the page: the limit is zero or nothing
/// matches after the cursor.
pub open spec fn page_empty(
    rows: Seq<RowModel>,
    pred: spec_fn(RowModel) -> bool,
    cfg: SortConfig,
    cur: CursorModel,
    limit: int,
) -> bool {
    limit <= 0 || forall|j: int|
        0 <= j < rows.len() ==> !(#[trigger] pred(rows[j]) && after_cursor(cfg, cur, rows[j]))
}

/// Whether a stored row carries the tag.
pub fn row_has_tag(r: &crate::store::StoredImage, tag: &Vec<char>) -> (res: bool)
    ensures
        res == r@.tags.contains(tag@),
{
    let mut i: usize = 0;
    while i < r.tags.len()
        invariant
            0 <= i <= r.tags@.len(),
            forall|j: int| 0 <= j < i ==> crate::store::string_views(r.tags@)[j] != tag@,
        decreases r.tags.len() - i,
    {
        if seq_eq(&chars_vec(r.tags[i].as_str()), tag) {
            proof {
                assert(crate::store::string_views(r.tags@)[i as int] == tag@);
                assert(r@.tags.contains(tag@));
            }
            return true;
        }
        i += 1;
    }
    proof {
        if r@.tags.contains(tag@) {
            let j = choose|j: int| 0 <= j < r@.tags.len() && r@.tags[j] == tag@;
        }
    }
    false
}

} // verus!
