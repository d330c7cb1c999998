//! The storage engine: one table of image records keyed by unique
//! filepath, with tag associations, full-text search over two matching
//! disciplines, composable filters and keyset pagination.
//!
//! The engine holds its rows in memory, ordered by insertion id; every
//! operation is specified against the sequence of row models.

use crate::parser::GenerationParams;
use crate::parser::ParamsModel;
use crate::parser::infer_type_spec;
use crate::parser::infer_generation_type;
use crate::parser::view_opt_str;
use crate::text::chars_vec;
use crate::text::lower_seq;
use crate::text::seq_eq;
use crate::text::string_from_chars;
use crate::text::to_ascii_lower;
use crate::text::trim;
use crate::text::trim_seq;
use crate::text::views_of_vecs;
use crate::text::lex_le;
use vstd::prelude::*;

verus! {

/// Lightweight row used by gallery and infinite-scroll views.
pub struct GalleryImageRecord {
    pub id: i64,
    pub filepath: String,
    pub filename: String,
    pub directory: String,
    pub seed: Option<String>,
    pub width: Option<u32>,
    pub height: Option<u32>,
    pub model_name: Option<String>,
}

/// Full row used by detail and export workflows.
pub struct ImageRecord {
    pub id: i64,
    pub filepath: String,
    pub filename: String,
    pub directory: String,
    pub prompt: String,
    pub negative_prompt: String,
    pub steps: Option<String>,
    pub sampler: Option<String>,
    pub cfg_scale: Option<String>,
    pub seed: Option<String>,
    pub width: Option<u32>,
    pub height: Option<u32>,
    pub model_hash: Option<String>,
    pub model_name: Option<String>,
    pub raw_metadata: String,
}

pub struct TagCount {
    pub tag: String,
    pub count: u32,
}

/// A page of results with an opaque cursor for keyset pagination.
pub struct CursorPage {
    pub items: Vec<GalleryImageRecord>,
    pub next_cursor: Option<String>,
}

/// Directory entry with image count for grouping.
pub struct DirectoryEntry {
    pub directory: String,
    pub count: u32,
}

/// Model entry with image count for grouping.
pub struct ModelEntry {
    pub model_name: String,
    pub count: u32,
}

/// Record handed to bulk insert operations.
pub struct BulkRecord {
    pub filepath: String,
    pub filename: String,
    pub directory: String,
    pub params: GenerationParams,
    pub file_mtime: Option<i64>,
    pub file_size: Option<i64>,
    pub quick_hash: Option<String>,
    pub tags: Vec<String>,
}

/// One stored row.
pub struct StoredImage {
    pub id: i64,
    pub filepath: String,
    pub filename: String,
    pub directory: String,
    pub params: GenerationParams,
    pub file_mtime: Option<i64>,
    pub file_size: Option<i64>,
    pub quick_hash: Option<String>,
    pub favorite: bool,
    pub locked: bool,
    pub tags: Vec<String>,
}

/// Mathematical model of a stored row.
#[verifier::ext_equal]
pub ghost struct RowModel {
    pub id: int,
    pub filepath: Seq<char>,
    pub filename: Seq<char>,
    pub directory: Seq<char>,
    pub params: ParamsModel,
    pub file_mtime: Option<i64>,
    pub file_size: Option<i64>,
    pub quick_hash: Option<Seq<char>>,
    pub favorite: bool,
    pub locked: bool,
    pub tags: Seq<Seq<char>>,
}

pub open spec fn view_opt_string(o: Option<String>) -> Option<Seq<char>> {
    match o {
        Some(s) => Some(s@),
        None => None,
    }
}

pub open spec fn string_views(v: Seq<String>) -> Seq<Seq<char>> {
    v.map_values(|x: String| x@)
}

impl View for StoredImage {
    type V = RowModel;

    open spec fn view(&self) -> RowModel {
        RowModel {
            id: self.id as int,
            filepath: self.filepath@,
            filename: self.filename@,
            directory: self.directory@,
            params: self.params@,
            file_mtime: self.file_mtime,
            file_size: self.file_size,
            quick_hash: view_opt_string(self.quick_hash),
            favorite: self.favorite,
            locked: self.locked,
            tags: string_views(self.tags@),
        }
    }
}

/// The storage engine. Rows are kept in ascending id order; filepaths are
/// unique; the tag registry accumulates every tag ever attached.
pub struct Database {
    pub rows: Vec<StoredImage>,
    pub next_id: i64,
    pub tag_names: Vec<Vec<char>>,
}

pub open spec fn rows_view(rows: Seq<StoredImage>) -> Seq<RowModel> {
    rows.map_values(|r: StoredImage| r@)
}

impl View for Database {
    type V = Seq<RowModel>;

    open spec fn view(&self) -> Seq<RowModel> {
        rows_view(self.rows@)
    }
}

impl Database {
    /// Rows are strictly id-ordered with unique filepaths, ids stay below
    /// the next free id, and the tag registry is sorted and duplicate-free.
    pub open spec fn wf(&self) -> bool {
        &&& forall|i: int, j: int|
            0 <= i < j < self@.len() ==> self@[i].id < self@[j].id
        &&& forall|i: int, j: int|
            0 <= i < j < self@.len() ==> self@[i].filepath != self@[j].filepath
        &&& forall|i: int| 0 <= i < self@.len() ==> 1 <= #[trigger] self@[i].id < self.next_id
        &&& self.next_id >= 1
        &&& crate::tags::strictly_sorted(views_of_vecs(self.tag_names@))
    }

    /// An empty engine.
    pub fn new() -> (r: Database)
        ensures
            r.wf(),
            r@ =~= Seq::<RowModel>::empty(),
            r.next_id == 1,
            views_of_vecs(r.tag_names@).to_set() =~= Set::<Seq<char>>::empty(),
    {
        let r = Database { rows: Vec::new(), next_id: 1, tag_names: Vec::new() };
        proof {
            assert(rows_view(r.rows@) =~= Seq::<RowModel>::empty());
            assert(views_of_vecs(r.tag_names@) =~= Seq::<Seq<char>>::empty());
        }
        r
    }

    /// Index of the row holding the given filepath.
    pub open spec fn path_idx(&self, path: Seq<char>) -> Option<int> {
        idx_of_path(self@, path)
    }
}

/// First row index with the given filepath.
pub open spec fn idx_of_path(rows: Seq<RowModel>, path: Seq<char>) -> Option<int>
    decreases rows.len(),
{
    if rows.len() == 0 {
        None
    } else if rows[0].filepath == path {
        Some(0)
    } else {
        match idx_of_path(rows.skip(1), path) {
            Some(i) => Some(i + 1),
            None => None,
        }
    }
}

pub proof fn lemma_idx_of_path(rows: Seq<RowModel>, path: Seq<char>)
    ensures
        match idx_of_path(rows, path) {
            Some(i) => 0 <= i < rows.len() && rows[i].filepath == path && forall|j: int|
                0 <= j < i ==> rows[j].filepath != path,
            None => forall|j: int| 0 <= j < rows.len() ==> rows[j].filepath != path,
        },
    decreases rows.len(),
{
    if rows.len() > 0 && rows[0].filepath != path {
        lemma_idx_of_path(rows.skip(1), path);
        assert forall|j: int| 0 <= j < rows.len() implies rows.skip(1)[j - 1] == rows[j] || j == 0
            by {}
    }
}

/// Normalized tag list: each tag trimmed and lower-cased, empty results
/// and duplicates dropped, first occurrence order kept.
pub open spec fn norm_tags(tags: Seq<Seq<char>>, i: int, seen: Set<Seq<char>>) -> Seq<Seq<char>>
    decreases tags.len() - i,
    when 0 <= i <= tags.len()
{
    if i >= tags.len() {
        Seq::empty()
    } else {
        let t = lower_seq(trim_seq(tags[i]));
        if t.len() == 0 || seen.contains(t) {
            norm_tags(tags, i + 1, seen)
        } else {
            seq![t] + norm_tags(tags, i + 1, seen.insert(t))
        }
    }
}

pub open spec fn norm_tags_of(tags: Seq<Seq<char>>) -> Seq<Seq<char>> {
    norm_tags(tags, 0, Set::empty())
}

/// Normalizes a tag list.
pub fn normalize_tag_list(tags: &Vec<String>) -> (r: Vec<String>)
    ensures
        string_views(r@) == norm_tags_of(string_views(tags@)),
{
    let ghost tv = string_views(tags@);
    let mut out: Vec<String> = Vec::new();
    let mut i: usize = 0;
    proof {
        assert(string_views(out@) =~= Seq::<Seq<char>>::empty());
        assert(string_views(out@).to_set() =~= Set::<Seq<char>>::empty());
    }
    while i < tags.len()
        invariant
            0 <= i <= tags@.len(),
            tv == string_views(tags@),
            norm_tags_of(tv) == string_views(out@) + norm_tags(
                tv,
                i as int,
                string_views(out@).to_set(),
            ),
        decreases tags.len() - i,
    {
        proof {
            assert(tv[i as int] == tags@[i as int]@);
        }
        let t = to_ascii_lower(&trim(&chars_vec(tags[i].as_str())));
        let ghost pre = string_views(out@);
        if t.len() > 0 {
            let mut present: bool = false;
            let mut j: usize = 0;
            while j < out.len()
                invariant
                    0 <= j <= out@.len(),
                    t@ == lower_seq(trim_seq(tv[i as int])),
                    present ==> string_views(out@).to_set().contains(t@),
                    !present ==> forall|k: int| 0 <= k < j ==> string_views(out@)[k] != t@,
                decreases out.len() - j,
            {
                let ek = chars_vec(out[j].as_str());
                if seq_eq(&ek, &t) {
                    proof {
                        assert(string_views(out@)[j as int] == t@);
                        assert(string_views(out@).contains(t@));
                    }
                    present = true;
                }
                j += 1;
            }
            proof {
                if !present && string_views(out@).to_set().contains(t@) {
                    let k = choose|k: int|
                        0 <= k < string_views(out@).len() && string_views(out@)[k] == t@;
                }
            }
            if !present {
                out.push(string_from_chars(&t));
                proof {
                    assert(string_views(out@) =~~= pre + seq![lower_seq(trim_seq(tv[i as int]))]);
                    Seq::lemma_to_set_insert_commutes(pre, lower_seq(trim_seq(tv[i as int])));
                    assert((pre + seq![lower_seq(trim_seq(tv[i as int]))]) + norm_tags(
                        tv,
                        i + 1,
                        pre.to_set().insert(lower_seq(trim_seq(tv[i as int]))),
                    ) =~= pre + (seq![lower_seq(trim_seq(tv[i as int]))] + norm_tags(
                        tv,
                        i + 1,
                        pre.to_set().insert(lower_seq(trim_seq(tv[i as int]))),
                    )));
                }
            }
        }
        i += 1;
    }
    proof {
        assert(norm_tags(tv, tv.len() as int, string_views(out@).to_set())
            =~= Seq::<Seq<char>>::empty());
        assert(string_views(out@) + Seq::<Seq<char>>::empty() =~= string_views(out@));
    }
    out
}

// ─────────────────────── clone helpers ───────────────────────

fn clone_opt_string(o: &Option<String>) -> (r: Option<String>)
    ensures
        view_opt_string(r) == view_opt_string(*o),
{
    match o {
        Some(s) => Some(s.clone()),
        None => None,
    }
}

fn clone_string_vec(v: &Vec<String>) -> (r: Vec<String>)
    ensures
        string_views(r@) == string_views(v@),
{
    let mut out: Vec<String> = Vec::new();
    let mut i: usize = 0;
    while i < v.len()
        invariant
            0 <= i <= v@.len(),
            string_views(out@) == string_views(v@).take(i as int),
        decreases v.len() - i,
    {
        let ghost pre = string_views(out@);
        out.push(v[i].clone());
        proof {
            assert(string_views(out@) =~~= pre.push(v@[i as int]@));
            assert(string_views(v@).take(i + 1) =~~= string_views(v@).take(i as int).push(
                string_views(v@)[i as int],
            ));
        }
        i += 1;
    }
    proof {
        assert(string_views(v@).take(v@.len() as int) =~= string_views(v@));
    }
    out
}

fn clone_string_pairs(v: &Vec<(String, String)>) -> (r: Vec<(String, String)>)
    ensures
        crate::parser::pairs_view(r@) == crate::parser::pairs_view(v@),
{
    let mut out: Vec<(String, String)> = Vec::new();
    let mut i: usize = 0;
    while i < v.len()
        invariant
            0 <= i <= v@.len(),
            crate::parser::pairs_view(out@) == crate::parser::pairs_view(v@).take(i as int),
        decreases v.len() - i,
    {
        let ghost pre = crate::parser::pairs_view(out@);
        out.push((v[i].0.clone(), v[i].1.clone()));
        proof {
            assert(crate::parser::pairs_view(out@) =~~= pre.push(
                (v@[i as int].0@, v@[i as int].1@),
            ));
            assert(crate::parser::pairs_view(v@).take(i + 1) =~~= crate::parser::pairs_view(
                v@,
            ).take(i as int).push(crate::parser::pairs_view(v@)[i as int]));
        }
        i += 1;
    }
    proof {
        assert(crate::parser::pairs_view(v@).take(v@.len() as int) =~= crate::parser::pairs_view(
            v@,
        ));
    }
    out
}

/// Copies a parameter record.
pub fn clone_params(p: &GenerationParams) -> (r: GenerationParams)
    ensures
        r@ == p@,
{
    let r = GenerationParams {
        prompt: p.prompt.clone(),
        negative_prompt: p.negative_prompt.clone(),
        steps: clone_opt_string(&p.steps),
        sampler: clone_opt_string(&p.sampler),
        schedule_type: clone_opt_string(&p.schedule_type),
        cfg_scale: clone_opt_string(&p.cfg_scale),
        seed: clone_opt_string(&p.seed),
        width: p.width,
        height: p.height,
        model_hash: clone_opt_string(&p.model_hash),
        model_name: clone_opt_string(&p.model_name),
        generation_type: clone_opt_string(&p.generation_type),
        extra_params: clone_string_pairs(&p.extra_params),
        raw_metadata: p.raw_metadata.clone(),
    };
    proof {
        assert(r@ =~~= p@);
    }
    r
}

// ─────────────────────── upsert ───────────────────────

/// Mathematical model of a bulk record.
#[verifier::ext_equal]
pub ghost struct BulkModel {
    pub filepath: Seq<char>,
    pub filename: Seq<char>,
    pub directory: Seq<char>,
    pub params: ParamsModel,
    pub file_mtime: Option<i64>,
    pub file_size: Option<i64>,
    pub quick_hash: Option<Seq<char>>,
    pub tags: Seq<Seq<char>>,
}

impl View for BulkRecord {
    type V = BulkModel;

    open spec fn view(&self) -> BulkModel {
        BulkModel {
            filepath: self.filepath@,
            filename: self.filename@,
            directory: self.directory@,
            params: self.params@,
            file_mtime: self.file_mtime,
            file_size: self.file_size,
            quick_hash: view_opt_string(self.quick_hash),
            tags: string_views(self.tags@),
        }
    }
}

/// The stored generation type: the parsed one, or inferred from the raw
/// text when the parser left it unset.
pub open spec fn effective_gen_type(p: ParamsModel) -> Seq<char> {
    match p.generation_type {
        Some(g) => g,
        None => infer_type_spec(p.raw_metadata),
    }
}

/// The row a record produces under a given id: all fields overwritten,
/// tags normalized and deduplicated.
pub open spec fn row_from_record(b: BulkModel, id: int) -> RowModel {
    RowModel {
        id: id,
        filepath: b.filepath,
        filename: b.filename,
        directory: b.directory,
        params: ParamsModel { generation_type: Some(effective_gen_type(b.params)), ..b.params },
        file_mtime: b.file_mtime,
        file_size: b.file_size,
        quick_hash: b.quick_hash,
        favorite: false,
        locked: false,
        tags: norm_tags_of(b.tags),
    }
}

/// Upsert of one record: an existing row with the same filepath is
/// overwritten in place (id and user flags kept, tag set replaced); a new
/// filepath is appended under the next free id.
pub open spec fn upsert_rows(rows: Seq<RowModel>, next_id: int, b: BulkModel) -> (
    Seq<RowModel>,
    int,
) {
    match idx_of_path(rows, b.filepath) {
        Some(i) => (
            rows.update(
                i,
                RowModel {
                    id: rows[i].id,
                    favorite: rows[i].favorite,
                    locked: rows[i].locked,
                    ..row_from_record(b, rows[i].id)
                },
            ),
            next_id,
        ),
        None => (rows.push(row_from_record(b, next_id)), next_id + 1),
    }
}

/// Upserts folded over a batch, front to back.
pub open spec fn bulk_fold(rows: Seq<RowModel>, next_id: int, recs: Seq<BulkModel>, i: int) -> (
    Seq<RowModel>,
    int,
)
    decreases recs.len() - i,
    when 0 <= i <= recs.len()
{
    if i >= recs.len() {
        (rows, next_id)
    } else {
        let step = upsert_rows(rows, next_id, recs[i]);
        bulk_fold(step.0, step.1, recs, i + 1)
    }
}

pub open spec fn bulk_models(recs: Seq<BulkRecord>) -> Seq<BulkModel> {
    recs.map_values(|r: BulkRecord| r@)
}

impl Database {
    /// Upserts one record, keyed by unique filepath.
    fn upsert_single(&mut self, rec: &BulkRecord)
        requires
            old(self).wf(),
            old(self).next_id < i64::MAX,
        ensures
            final(self).wf(),
            (final(self)@, final(self).next_id as int) == upsert_rows(
                old(self)@,
                old(self).next_id as int,
                rec@,
            ),
            final(self).next_id >= old(self).next_id,
            forall|x: Seq<char>|
                views_of_vecs(final(self).tag_names@).to_set().contains(x)
                    <== views_of_vecs(old(self).tag_names@).to_set().contains(x),
    {
        let norm = normalize_tag_list(&rec.tags);
        let mut t: usize = 0;
        while t < norm.len()
            invariant
                0 <= t <= norm@.len(),
                crate::tags::strictly_sorted(views_of_vecs(self.tag_names@)),
                self.rows@ == old(self).rows@,
                self.next_id == old(self).next_id,
                old(self).wf(),
                old(self).next_id < i64::MAX,
                string_views(norm@) == norm_tags_of(rec@.tags),
                forall|x: Seq<char>|
                    views_of_vecs(self.tag_names@).to_set().contains(x)
                        <== views_of_vecs(old(self).tag_names@).to_set().contains(x),
            decreases norm.len() - t,
        {
            crate::tags::tag_insert(&mut self.tag_names, chars_vec(norm[t].as_str()));
            t += 1;
        }
        let gen_type: String = match &rec.params.generation_type {
            Some(g) => g.clone(),
            None => infer_generation_type(rec.params.raw_metadata.as_str()),
        };
        let mut new_params = clone_params(&rec.params);
        new_params.generation_type = Some(gen_type);
        proof {
            assert(new_params@ =~~= ParamsModel {
                generation_type: Some(effective_gen_type(rec@.params)),
                ..rec@.params
            });
        }
        let pv = chars_vec(rec.filepath.as_str());
        let mut i: usize = 0;
        let ghost rows0 = self@;
        let ghost reg1 = views_of_vecs(self.tag_names@);
        proof {
            lemma_idx_of_path(rows0, rec@.filepath);
        }
        while i < self.rows.len()
            invariant
                0 <= i <= self.rows@.len(),
                pv@ == rec@.filepath,
                rows0 == rows_view(self.rows@),
                rows0 == old(self)@,
                self.next_id == old(self).next_id,
                old(self).next_id < i64::MAX,
                views_of_vecs(self.tag_names@) == reg1,
                crate::tags::strictly_sorted(reg1),
                old(self).wf(),
                new_params@ == (ParamsModel {
                    generation_type: Some(effective_gen_type(rec@.params)),
                    ..rec@.params
                }),
                string_views(norm@) == norm_tags_of(rec@.tags),
                forall|x: Seq<char>|
                    views_of_vecs(self.tag_names@).to_set().contains(x)
                        <== views_of_vecs(old(self).tag_names@).to_set().contains(x),
                forall|j: int| 0 <= j < i ==> rows_view(self.rows@)[j].filepath != rec@.filepath,
            decreases self.rows.len() - i,
        {
            if seq_eq(&chars_vec(self.rows[i].filepath.as_str()), &pv) {
                proof {
                    assert(rows_view(self.rows@)[i as int].filepath == rec@.filepath);
                    lemma_idx_of_path(rows_view(self.rows@), rec@.filepath);
                    assert(idx_of_path(rows_view(self.rows@), rec@.filepath) == Some(i as int));
                }
                let updated = StoredImage {
                    id: self.rows[i].id,
                    filepath: rec.filepath.clone(),
                    filename: rec.filename.clone(),
                    directory: rec.directory.clone(),
                    params: new_params,
                    file_mtime: rec.file_mtime,
                    file_size: rec.file_size,
                    quick_hash: clone_opt_string(&rec.quick_hash),
                    favorite: self.rows[i].favorite,
                    locked: self.rows[i].locked,
                    tags: norm,
                };
                let ghost pre_rows = rows_view(self.rows@);
                self.rows.set(i, updated);
                proof {
                    assert(rows_view(self.rows@) =~~= pre_rows.update(
                        i as int,
                        RowModel {
                            id: pre_rows[i as int].id,
                            favorite: pre_rows[i as int].favorite,
                            locked: pre_rows[i as int].locked,
                            ..row_from_record(rec@, pre_rows[i as int].id)
                        },
                    ));
                    let post = rows_view(self.rows@);
                    assert forall|a: int, b: int| 0 <= a < b < post.len() implies post[a].id
                        < post[b].id && post[a].filepath != post[b].filepath by {
                        assert(pre_rows[a].id < pre_rows[b].id);
                        assert(pre_rows[a].filepath != pre_rows[b].filepath);
                        assert(post[a].id == pre_rows[a].id && post[b].id == pre_rows[b].id);
                        assert(post[a].filepath == pre_rows[a].filepath && post[b].filepath
                            == pre_rows[b].filepath);
                    }
                    assert forall|a: int| 0 <= a < post.len() implies 1 <= #[trigger] post[a].id
                        < self.next_id by {
                        assert(pre_rows[a] == old(self)@[a]);
                        assert(1 <= old(self)@[a].id < old(self).next_id);
                        assert(post[a].id == pre_rows[a].id);
                    }
                }
                return ;
            }
            i += 1;
        }
        proof {
            lemma_idx_of_path(rows_view(self.rows@), rec@.filepath);
            assert(idx_of_path(rows_view(self.rows@), rec@.filepath) is None);
        }
        let new_row = StoredImage {
            id: self.next_id,
            filepath: rec.filepath.clone(),
            filename: rec.filename.clone(),
            directory: rec.directory.clone(),
            params: new_params,
            file_mtime: rec.file_mtime,
            file_size: rec.file_size,
            quick_hash: clone_opt_string(&rec.quick_hash),
            favorite: false,
            locked: false,
            tags: norm,
        };
        let ghost pre_rows = rows_view(self.rows@);
        self.rows.push(new_row);
        self.next_id = self.next_id + 1;
        proof {
            assert(rows_view(self.rows@) =~~= pre_rows.push(
                row_from_record(rec@, old(self).next_id as int),
            ));
            let post = rows_view(self.rows@);
            assert forall|a: int, b: int| 0 <= a < b < post.len() implies post[a].id < post[b].id
                && post[a].filepath != post[b].filepath by {
                if b < post.len() - 1 {
                    assert(post[a] == pre_rows[a] && post[b] == pre_rows[b]);
                } else {
                    assert(post[a] == pre_rows[a]);
                    assert(post[b].id == old(self).next_id as int);
                    assert(pre_rows[a].id < old(self).next_id as int);
                    assert(pre_rows[a].filepath != rec@.filepath);
                }
            }
            assert forall|a: int| 0 <= a < post.len() implies 1 <= #[trigger] post[a].id
                < self.next_id by {
                if a < post.len() - 1 {
                    assert(post[a] == pre_rows[a]);
                    assert(pre_rows[a] == old(self)@[a]);
                    assert(1 <= old(self)@[a].id < old(self).next_id);
                } else {
                    assert(post[a].id == old(self).next_id as int);
                }
            }
        }
    }

    /// Batch upsert of records and their tags: each record is inserted or
    /// overwritten by unique filepath; returns how many were written.
    pub fn bulk_upsert_with_tags(&mut self, records: &Vec<BulkRecord>) -> (r: usize)
        requires
            old(self).wf(),
            old(self).next_id + records@.len() <= i64::MAX,
        ensures
            final(self).wf(),
            r == records@.len(),
            (final(self)@, final(self).next_id as int) == bulk_fold(
                old(self)@,
                old(self).next_id as int,
                bulk_models(records@),
                0,
            ),
    {
        let ghost recs = bulk_models(records@);
        let mut i: usize = 0;
        while i < records.len()
            invariant
                0 <= i <= records@.len(),
                recs == bulk_models(records@),
                self.wf(),
                self.next_id + (records@.len() - i) <= i64::MAX,
                bulk_fold(old(self)@, old(self).next_id as int, recs, 0) == bulk_fold(
                    self@,
                    self.next_id as int,
                    recs,
                    i as int,
                ),
            decreases records.len() - i,
        {
            proof {
                assert(recs[i as int] == records@[i as int]@);
            }
            self.upsert_single(&records[i]);
            i += 1;
        }
        i
    }
}

// ─────────────────────── paged queries ───────────────────────

/// The sort configuration a query name selects; absent names mean newest
/// first.
pub open spec fn cfg_of_opt(o: Option<&str>) -> crate::query::SortConfig {
    match o {
        Some(s) => crate::query::sort_config_of(s@),
        None => crate::query::SortConfig { field: crate::query::SortField::Id, descending: true },
    }
}

pub open spec fn cursor_of_opt(o: Option<&str>) -> crate::search::CursorModel {
    match o {
        Some(c) => crate::search::cursor_model_of(c@),
        None => crate::search::CursorModel::Fresh,
    }
}

pub open spec fn opt_str_view(o: Option<&str>) -> Option<Seq<char>> {
    match o {
        Some(s) => Some(s@),
        None => None,
    }
}

/// The canonical generation-type list of an optional filter.
pub open spec fn gts_of_opt(o: Option<&Vec<String>>) -> Seq<Seq<char>> {
    match o {
        Some(vs) => crate::query::gen_types_canon(string_views(vs@), 0, Set::empty()),
        None => Seq::empty(),
    }
}

/// The canonical family list of an optional filter.
pub open spec fn fams_of_opt(o: Option<&Vec<String>>) -> Seq<Seq<char>> {
    match o {
        Some(vs) => crate::query::families_canon(string_views(vs@), 0, Set::empty()),
        None => Seq::empty(),
    }
}

/// A page outcome together with the ghost rows it projects.
pub open spec fn page_outcome(
    rows: Seq<RowModel>,
    pred: spec_fn(RowModel) -> bool,
    cfg: crate::query::SortConfig,
    cur: crate::search::CursorModel,
    limit: int,
    page: &CursorPage,
    sel: Seq<RowModel>,
) -> bool {
    &&& crate::search::is_page(rows, pred, cfg, cur, limit, sel)
    &&& crate::search::gallery_views(page.items@) =~= sel.map_values(
        |r: RowModel| crate::search::gal_of_row(r),
    )
    &&& (page.next_cursor matches Some(c) ==> sel.len() > 0 && c@
        == crate::search::cursor_of_row(cfg, sel[sel.len() - 1]))
    &&& (page.next_cursor is None <==> sel.len() == 0)
}

impl Database {
    /// Runs one filtered, ordered, cursor-bounded page query.
    fn run_page(
        &self,
        tf: &crate::search::TextFilter,
        gts: &Vec<String>,
        mf: &Option<Vec<char>>,
        fams: &Vec<String>,
        inc: &Vec<Vec<char>>,
        exc: &Vec<Vec<char>>,
        cfg: crate::query::SortConfig,
        cur: &crate::search::CursorToken,
        limit: u32,
    ) -> (out: CursorPage)
        requires
            self.wf(),
        ensures
            exists|sel: Seq<RowModel>|
                #![trigger sel.len()]
                page_outcome(
                    self@,
                    crate::search::page_pred(
                        tf.model(),
                        string_views(gts@),
                        crate::search::opt_view(*mf),
                        string_views(fams@),
                        views_of_vecs(inc@),
                        views_of_vecs(exc@),
                    ),
                    cfg,
                    cur.model(),
                    limit as int,
                    &out,
                    sel,
                ),
    {
        let ghost rv = rows_view(self.rows@);
        let ghost pred = crate::search::page_pred(
            tf.model(),
            string_views(gts@),
            crate::search::opt_view(*mf),
            string_views(fams@),
            views_of_vecs(inc@),
            views_of_vecs(exc@),
        );
        proof {
            assert forall|a: int, b: int| 0 <= a < b < self.rows@.len() implies rv[a].id != rv[b].id
                by {
                assert(self@[a].id < self@[b].id);
            }
        }
        let s = crate::search::collect_sorted(&self.rows, tf, gts, mf, fams, inc, exc, cfg);
        let (items, next_cursor, sel) = crate::search::page_from_sorted(
            &self.rows,
            &s,
            cfg,
            cur,
            limit,
        );
        proof {
            let selv = sel@;
            assert forall|i: int| 0 <= i < selv.len() implies self@.contains(#[trigger] selv[i])
                && pred(selv[i]) by {
                assert(crate::search::sel_of(rv, s@).contains(selv[i]));
                let p = choose|p: int|
                    0 <= p < crate::search::sel_of(rv, s@).len() && crate::search::sel_of(
                        rv,
                        s@,
                    )[p] == selv[i];
                assert(crate::search::sel_of(rv, s@)[p] == rv[s@[p] as int]);
                assert(pred(rv[s@[p] as int]));
                assert(self@[s@[p] as int] == selv[i]);
            }
            assert forall|j: int|
                0 <= j < self@.len() && #[trigger] pred(self@[j]) && crate::search::after_cursor(
                    cfg,
                    cur.model(),
                    self@[j],
                ) implies selv.contains(self@[j]) || (selv.len() == limit && (limit == 0
                || crate::search::row_lt(cfg, selv[selv.len() - 1], self@[j]))) by {
                assert(self.rows@.len() == self.rows.len());
                assert(0 <= j < self.rows@.len());
                assert((j as usize) as int == j);
                assert(s@.contains(j as usize));
                let p = choose|p: int| 0 <= p < s@.len() && s@[p] == j as usize;
                assert(rv[s@[p] as int] == self@[j]);
            }
            assert(crate::search::is_page(self@, pred, cfg, cur.model(), limit as int, selv));
        }
        CursorPage { items, next_cursor }
    }

    /// Gallery page under filters and keyset pagination.
    pub fn get_images_cursor(
        &self,
        cursor: Option<&str>,
        limit: u32,
        sort_by: Option<&str>,
        generation_types: Option<&Vec<String>>,
        model_filter: Option<&str>,
        model_family_filters: Option<&Vec<String>>,
    ) -> (out: CursorPage)
        requires
            self.wf(),
        ensures
            exists|sel: Seq<RowModel>|
                #![trigger sel.len()]
                page_outcome(
                    self@,
                    crate::search::page_pred(
                        crate::search::TextSel::Everything,
                        gts_of_opt(generation_types),
                        opt_str_view(model_filter),
                        fams_of_opt(model_family_filters),
                        Seq::empty(),
                        Seq::empty(),
                    ),
                    cfg_of_opt(sort_by),
                    cursor_of_opt(cursor),
                    limit as int,
                    &out,
                    sel,
                ),
    {
        let cfg = match sort_by {
            Some(s) => crate::query::SortConfig::from_str(s),
            None => crate::query::SortConfig {
                field: crate::query::SortField::Id,
                descending: true,
            },
        };
        let gts = crate::query::normalize_generation_types(generation_types);
        let fams = crate::query::normalize_model_family_filters(model_family_filters);
        let mf: Option<Vec<char>> = match model_filter {
            Some(f) => Some(chars_vec(f)),
            None => None,
        };
        let cur = crate::search::decode_cursor(cursor);
        let inc: Vec<Vec<char>> = Vec::new();
        let exc: Vec<Vec<char>> = Vec::new();
        proof {
            assert(views_of_vecs(inc@) =~= Seq::<Seq<char>>::empty());
            assert(views_of_vecs(exc@) =~= Seq::<Seq<char>>::empty());
            assert(string_views(gts@) =~= gts_of_opt(generation_types));
            assert(string_views(fams@) =~= fams_of_opt(model_family_filters));
        }
        self.run_page(&crate::search::TextFilter::Everything, &gts, &mf, &fams, &inc, &exc, cfg, &cur, limit)
    }
}

impl Database {
    /// Empty page.
    fn empty_page(&self) -> (out: CursorPage)
        ensures
            out.items@.len() == 0,
            out.next_cursor is None,
            crate::search::gallery_views(out.items@) =~= Seq::<crate::search::GalleryModel>::empty(),
    {
        let out = CursorPage { items: Vec::new(), next_cursor: None };
        proof {
            assert(crate::search::gallery_views(out.items@)
                =~= Seq::<crate::search::GalleryModel>::empty());
        }
        out
    }

    /// Cursor-paged ranked search with substring fallback: the ranked
    /// discipline serves the page; if and only if it has no rows, the
    /// query is retried as one case-insensitive substring.
    pub fn search_cursor(
        &self,
        query: &str,
        cursor: Option<&str>,
        limit: u32,
        generation_types: Option<&Vec<String>>,
        sort_by: Option<&str>,
        model_filter: Option<&str>,
        model_family_filters: Option<&Vec<String>>,
    ) -> (out: CursorPage)
        requires
            self.wf(),
        ensures
            ({
                let parts = crate::query::sanitize_parts(crate::text::trim_seq(query@));
                let cfg = cfg_of_opt(sort_by);
                let cm = cursor_of_opt(cursor);
                let pp = crate::search::page_pred(
                    crate::search::TextSel::Ranked { parts },
                    gts_of_opt(generation_types),
                    opt_str_view(model_filter),
                    fams_of_opt(model_family_filters),
                    Seq::empty(),
                    Seq::empty(),
                );
                let tp = crate::search::page_pred(
                    crate::search::TextSel::Substring { q: query@ },
                    gts_of_opt(generation_types),
                    opt_str_view(model_filter),
                    fams_of_opt(model_family_filters),
                    Seq::empty(),
                    Seq::empty(),
                );
                let porter_empty = parts.len() == 0 || crate::search::page_empty(
                    self@,
                    pp,
                    cfg,
                    cm,
                    limit as int,
                );
                if !porter_empty {
                    exists|sel: Seq<RowModel>|
                        #![trigger sel.len()]
                        page_outcome(self@, pp, cfg, cm, limit as int, &out, sel) && sel.len() > 0
                } else if !crate::query::has_search_token(crate::text::trim_seq(query@)) {
                    out.items@.len() == 0 && out.next_cursor is None
                } else {
                    exists|sel: Seq<RowModel>|
                        #![trigger sel.len()]
                        page_outcome(self@, tp, cfg, cm, limit as int, &out, sel)
                }
            }),
    {
        let cfg = match sort_by {
            Some(s) => crate::query::SortConfig::from_str(s),
            None => crate::query::SortConfig {
                field: crate::query::SortField::Id,
                descending: true,
            },
        };
        let gts = crate::query::normalize_generation_types(generation_types);
        let fams = crate::query::normalize_model_family_filters(model_family_filters);
        let mf: Option<Vec<char>> = match model_filter {
            Some(f) => Some(chars_vec(f)),
            None => None,
        };
        let cur = crate::search::decode_cursor(cursor);
        let inc: Vec<Vec<char>> = Vec::new();
        let exc: Vec<Vec<char>> = Vec::new();
        proof {
            assert(views_of_vecs(inc@) =~= Seq::<Seq<char>>::empty());
            assert(views_of_vecs(exc@) =~= Seq::<Seq<char>>::empty());
            assert(string_views(gts@) =~= gts_of_opt(generation_types));
            assert(string_views(fams@) =~= fams_of_opt(model_family_filters));
        }
        let parts = crate::query::sanitize_query_parts(query);
        if parts.len() > 0 {
            let tf = crate::search::TextFilter::Ranked { parts };
            let porter = self.run_page(&tf, &gts, &mf, &fams, &inc, &exc, cfg, &cur, limit);
            if porter.items.len() > 0 {
                proof {
                    let ghost pp = crate::search::page_pred(
                        tf.model(),
                        string_views(gts@),
                        crate::search::opt_view(mf),
                        string_views(fams@),
                        views_of_vecs(inc@),
                        views_of_vecs(exc@),
                    );
                    let sel = choose|sel: Seq<RowModel>|
                        #![trigger sel.len()]
                        page_outcome(
                            self@,
                            pp,
                            cfg,
                            cur.model(),
                            limit as int,
                            &porter,
                            sel,
                        );
                    assert(crate::search::gallery_views(porter.items@).len() == sel.len());
                    assert(sel.len() > 0);
                    assert(self@.contains(sel[0]) && pp(sel[0]) && crate::search::after_cursor(
                        cfg,
                        cur.model(),
                        sel[0],
                    ));
                    let w = choose|w: int| 0 <= w < self@.len() && self@[w] == sel[0];
                    assert(!crate::search::page_empty(self@, pp, cfg, cur.model(), limit as int));
                }
                return porter;
            }
            proof {
                let ghost pp = crate::search::page_pred(
                    tf.model(),
                    string_views(gts@),
                    crate::search::opt_view(mf),
                    string_views(fams@),
                    views_of_vecs(inc@),
                    views_of_vecs(exc@),
                );
                let sel = choose|sel: Seq<RowModel>|
                    #![trigger sel.len()]
                    page_outcome(self@, pp, cfg, cur.model(), limit as int, &porter, sel);
                assert(crate::search::gallery_views(porter.items@).len() == sel.len());
                assert(sel.len() == 0);
                if !crate::search::page_empty(self@, pp, cfg, cur.model(), limit as int) {
                    let j = choose|j: int|
                        0 <= j < self@.len() && #[trigger] pp(self@[j])
                            && crate::search::after_cursor(cfg, cur.model(), self@[j]);
                    assert(sel.contains(self@[j]) || (sel.len() == limit && (limit == 0
                        || crate::search::row_lt(cfg, sel[sel.len() - 1], self@[j]))));
                    assert(false);
                }
            }
        }
        let qt = trim(&chars_vec(query));
        if qt.len() == 0 || !crate::query::contains_search_token(&qt) {
            proof {
                assert(qt@.len() == 0 ==> !crate::query::has_search_token(qt@));
            }
            return self.empty_page();
        }
        let tf = crate::search::TextFilter::Substring { q: chars_vec(query) };
        self.run_page(&tf, &gts, &mf, &fams, &inc, &exc, cfg, &cur, limit)
    }
}

/// Filter tags are compared trimmed and lower-cased.
pub open spec fn norm_filter_tags(vs: Seq<Seq<char>>) -> Seq<Seq<char>> {
    vs.map_values(|t: Seq<char>| lower_seq(trim_seq(t)))
}

fn normalize_filter_tags(vs: &Vec<String>) -> (r: Vec<Vec<char>>)
    ensures
        views_of_vecs(r@) == norm_filter_tags(string_views(vs@)),
{
    let mut r: Vec<Vec<char>> = Vec::new();
    let mut i: usize = 0;
    while i < vs.len()
        invariant
            0 <= i <= vs@.len(),
            views_of_vecs(r@) == norm_filter_tags(string_views(vs@)).take(i as int),
        decreases vs.len() - i,
    {
        let ghost pre = views_of_vecs(r@);
        r.push(to_ascii_lower(&trim(&chars_vec(vs[i].as_str()))));
        proof {
            assert(views_of_vecs(r@) =~~= pre.push(lower_seq(trim_seq(vs@[i as int]@))));
            assert(norm_filter_tags(string_views(vs@)).take(i + 1) =~~= norm_filter_tags(
                string_views(vs@),
            ).take(i as int).push(norm_filter_tags(string_views(vs@))[i as int]));
        }
        i += 1;
    }
    proof {
        assert(norm_filter_tags(string_views(vs@)).take(vs@.len() as int) =~= norm_filter_tags(
            string_views(vs@),
        ));
    }
    r
}

impl Database {
    /// Cursor-paged filtering by tags, generation type, model and family,
    /// with an optional text query and the same ranked-then-substring
    /// fallback as plain search.
    pub fn filter_images_cursor(
        &self,
        query: Option<&str>,
        include_tags: &Vec<String>,
        exclude_tags: &Vec<String>,
        cursor: Option<&str>,
        limit: u32,
        generation_types: Option<&Vec<String>>,
        sort_by: Option<&str>,
        model_filter: Option<&str>,
        model_family_filters: Option<&Vec<String>>,
    ) -> (out: CursorPage)
        requires
            self.wf(),
        ensures
            ({
                let cfg = cfg_of_opt(sort_by);
                let cm = cursor_of_opt(cursor);
                let inc = norm_filter_tags(string_views(include_tags@));
                let exc = norm_filter_tags(string_views(exclude_tags@));
                let tsel = match query {
                    Some(q) => crate::search::TextSel::Ranked {
                        parts: crate::query::sanitize_parts(crate::text::trim_seq(q@)),
                    },
                    None => crate::search::TextSel::Everything,
                };
                let pp = crate::search::page_pred(
                    tsel,
                    gts_of_opt(generation_types),
                    opt_str_view(model_filter),
                    fams_of_opt(model_family_filters),
                    inc,
                    exc,
                );
                let porter_viable = match query {
                    Some(q) => crate::query::sanitize_parts(crate::text::trim_seq(q@)).len() > 0,
                    None => true,
                };
                let porter_empty = !porter_viable || crate::search::page_empty(
                    self@,
                    pp,
                    cfg,
                    cm,
                    limit as int,
                );
                if !porter_empty {
                    exists|sel: Seq<RowModel>|
                        #![trigger sel.len()]
                        page_outcome(self@, pp, cfg, cm, limit as int, &out, sel) && sel.len() > 0
                } else {
                    match query {
                        None => out.items@.len() == 0 && out.next_cursor is None,
                        Some(q) => {
                            if crate::text::trim_seq(q@).len() == 0 {
                                out.items@.len() == 0 && out.next_cursor is None
                            } else if !crate::query::has_search_token(crate::text::trim_seq(q@)) {
                                out.items@.len() == 0 && out.next_cursor is None
                            } else {
                                exists|sel: Seq<RowModel>|
                                    #![trigger sel.len()]
                                    page_outcome(
                                        self@,
                                        crate::search::page_pred(
                                            crate::search::TextSel::Substring { q: q@ },
                                            gts_of_opt(generation_types),
                                            opt_str_view(model_filter),
                                            fams_of_opt(model_family_filters),
                                            inc,
                                            exc,
                                        ),
                                        cfg,
                                        cm,
                                        limit as int,
                                        &out,
                                        sel,
                                    )
                            }
                        },
                    }
                }
            }),
    {
        let cfg = match sort_by {
            Some(s) => crate::query::SortConfig::from_str(s),
            None => crate::query::SortConfig {
                field: crate::query::SortField::Id,
                descending: true,
            },
        };
        let gts = crate::query::normalize_generation_types(generation_types);
        let fams = crate::query::normalize_model_family_filters(model_family_filters);
        let mf: Option<Vec<char>> = match model_filter {
            Some(f) => Some(chars_vec(f)),
            None => None,
        };
        let cur = crate::search::decode_cursor(cursor);
        let inc = normalize_filter_tags(include_tags);
        let exc = normalize_filter_tags(exclude_tags);
        proof {
            assert(string_views(gts@) =~= gts_of_opt(generation_types));
            assert(string_views(fams@) =~= fams_of_opt(model_family_filters));
        }
        let porter_viable: bool;
        let tf: crate::search::TextFilter = match query {
            Some(q) => {
                let parts = crate::query::sanitize_query_parts(q);
                porter_viable = parts.len() > 0;
                crate::search::TextFilter::Ranked { parts }
            },
            None => {
                porter_viable = true;
                crate::search::TextFilter::Everything
            },
        };
        if porter_viable {
            let porter = self.run_page(&tf, &gts, &mf, &fams, &inc, &exc, cfg, &cur, limit);
            let ghost pp = crate::search::page_pred(
                tf.model(),
                string_views(gts@),
                crate::search::opt_view(mf),
                string_views(fams@),
                views_of_vecs(inc@),
                views_of_vecs(exc@),
            );
            if porter.items.len() > 0 {
                proof {
                    let sel = choose|sel: Seq<RowModel>|
                        #![trigger sel.len()]
                        page_outcome(self@, pp, cfg, cur.model(), limit as int, &porter, sel);
                    assert(crate::search::gallery_views(porter.items@).len() == sel.len());
                    assert(sel.len() > 0);
                    assert(self@.contains(sel[0]) && pp(sel[0]) && crate::search::after_cursor(
                        cfg,
                        cur.model(),
                        sel[0],
                    ));
                    let w = choose|w: int| 0 <= w < self@.len() && self@[w] == sel[0];
                    assert(!crate::search::page_empty(self@, pp, cfg, cur.model(), limit as int));
                }
                return porter;
            }
            proof {
                let sel = choose|sel: Seq<RowModel>|
                    #![trigger sel.len()]
                    page_outcome(self@, pp, cfg, cur.model(), limit as int, &porter, sel);
                assert(crate::search::gallery_views(porter.items@).len() == sel.len());
                assert(sel.len() == 0);
                if !crate::search::page_empty(self@, pp, cfg, cur.model(), limit as int) {
                    let j = choose|j: int|
                        0 <= j < self@.len() && #[trigger] pp(self@[j])
                            && crate::search::after_cursor(cfg, cur.model(), self@[j]);
                    assert(sel.contains(self@[j]) || (sel.len() == limit && (limit == 0
                        || crate::search::row_lt(cfg, sel[sel.len() - 1], self@[j]))));
                    assert(false);
                }
            }
            match query {
                None => {
                    return self.empty_page();
                },
                Some(_) => {},
            }
        }
        let q = match query {
            Some(q) => q,
            None => {
                return self.empty_page();
            },
        };
        let qt = trim(&chars_vec(q));
        if qt.len() == 0 || !crate::query::contains_search_token(&qt) {
            return self.empty_page();
        }
        let tf2 = crate::search::TextFilter::Substring { q: chars_vec(q) };
        self.run_page(&tf2, &gts, &mf, &fams, &inc, &exc, cfg, &cur, limit)
    }
}

/// Mathematical model of a full result row.
#[verifier::ext_equal]
pub ghost struct RecordModel {
    pub id: int,
    pub filepath: Seq<char>,
    pub filename: Seq<char>,
    pub directory: Seq<char>,
    pub prompt: Seq<char>,
    pub negative_prompt: Seq<char>,
    pub steps: Option<Seq<char>>,
    pub sampler: Option<Seq<char>>,
    pub cfg_scale: Option<Seq<char>>,
    pub seed: Option<Seq<char>>,
    pub width: Option<u32>,
    pub height: Option<u32>,
    pub model_hash: Option<Seq<char>>,
    pub model_name: Option<Seq<char>>,
    pub raw_metadata: Seq<char>,
}

impl View for ImageRecord {
    type V = RecordModel;

    open spec fn view(&self) -> RecordModel {
        RecordModel {
            id: self.id as int,
            filepath: self.filepath@,
            filename: self.filename@,
            directory: self.directory@,
            prompt: self.prompt@,
            negative_prompt: self.negative_prompt@,
            steps: view_opt_string(self.steps),
            sampler: view_opt_string(self.sampler),
            cfg_scale: view_opt_string(self.cfg_scale),
            seed: view_opt_string(self.seed),
            width: self.width,
            height: self.height,
            model_hash: view_opt_string(self.model_hash),
            model_name: view_opt_string(self.model_name),
            raw_metadata: self.raw_metadata@,
        }
    }
}

/// The full-record projection of a stored row.
pub open spec fn rec_of_row(r: RowModel) -> RecordModel {
    RecordModel {
        id: r.id,
        filepath: r.filepath,
        filename: r.filename,
        directory: r.directory,
        prompt: r.params.prompt,
        negative_prompt: r.params.negative_prompt,
        steps: r.params.steps,
        sampler: r.params.sampler,
        cfg_scale: r.params.cfg_scale,
        seed: r.params.seed,
        width: r.params.width,
        height: r.params.height,
        model_hash: r.params.model_hash,
        model_name: r.params.model_name,
        raw_metadata: r.params.raw_metadata,
    }
}

pub open spec fn record_views(v: Seq<ImageRecord>) -> Seq<RecordModel> {
    v.map_values(|r: ImageRecord| r@)
}

fn record_of(r: &StoredImage) -> (out: ImageRecord)
    ensures
        out@ == rec_of_row(r@),
{
    let out = ImageRecord {
        id: r.id,
        filepath: r.filepath.clone(),
        filename: r.filename.clone(),
        directory: r.directory.clone(),
        prompt: r.params.prompt.clone(),
        negative_prompt: r.params.negative_prompt.clone(),
        steps: match &r.params.steps {
            Some(s) => Some(s.clone()),
            None => None,
        },
        sampler: match &r.params.sampler {
            Some(s) => Some(s.clone()),
            None => None,
        },
        cfg_scale: match &r.params.cfg_scale {
            Some(s) => Some(s.clone()),
            None => None,
        },
        seed: match &r.params.seed {
            Some(s) => Some(s.clone()),
            None => None,
        },
        width: r.params.width,
        height: r.params.height,
        model_hash: match &r.params.model_hash {
            Some(s) => Some(s.clone()),
            None => None,
        },
        model_name: match &r.params.model_name {
            Some(s) => Some(s.clone()),
            None => None,
        },
        raw_metadata: r.params.raw_metadata.clone(),
    };
    proof {
        assert(out@ =~~= rec_of_row(r@));
    }
    out
}

/// `full` is all matching rows, in output order.
pub open spec fn is_ordered_matches(
    rows: Seq<RowModel>,
    pred: spec_fn(RowModel) -> bool,
    cfg: crate::query::SortConfig,
    full: Seq<RowModel>,
) -> bool {
    &&& forall|i: int| 0 <= i < full.len() ==> rows.contains(#[trigger] full[i]) && pred(full[i])
    &&& forall|i: int, j: int|
        0 <= i < j < full.len() ==> crate::search::row_lt(cfg, full[i], full[j])
    &&& forall|j: int|
        0 <= j < rows.len() && pred(#[trigger] rows[j]) ==> full.contains(rows[j])
}

/// The window `[offset, offset + limit)` of a sequence, clamped to its
/// length.
pub open spec fn window(full: Seq<RowModel>, offset: int, limit: int) -> Seq<RowModel> {
    let lo = if offset <= full.len() {
        offset
    } else {
        full.len() as int
    };
    let hi = if offset + limit <= full.len() {
        offset + limit
    } else {
        full.len() as int
    };
    full.subrange(lo, hi)
}

/// Newest-first ordering, as offset queries use.
pub open spec fn newest_cfg() -> crate::query::SortConfig {
    crate::query::SortConfig { field: crate::query::SortField::Id, descending: true }
}

impl Database {
    /// Runs one offset query: matching rows ordered newest first, one
    /// window of them returned in full.
    fn run_offset(
        &self,
        tf: &crate::search::TextFilter,
        inc: &Vec<Vec<char>>,
        exc: &Vec<Vec<char>>,
        limit: u32,
        offset: u32,
    ) -> (out: Vec<ImageRecord>)
        requires
            self.wf(),
        ensures
            exists|full: Seq<RowModel>|
                #![trigger full.len()]
                is_ordered_matches(
                    self@,
                    crate::search::page_pred(
                        tf.model(),
                        Seq::empty(),
                        None,
                        Seq::empty(),
                        views_of_vecs(inc@),
                        views_of_vecs(exc@),
                    ),
                    newest_cfg(),
                    full,
                ) && record_views(out@) =~= window(full, offset as int, limit as int).map_values(
                    |r: RowModel| rec_of_row(r),
                ),
    {
        let ghost rv = rows_view(self.rows@);
        let ghost pred = crate::search::page_pred(
            tf.model(),
            Seq::empty(),
            None,
            Seq::empty(),
            views_of_vecs(inc@),
            views_of_vecs(exc@),
        );
        let cfg = crate::query::SortConfig {
            field: crate::query::SortField::Id,
            descending: true,
        };
        let gts: Vec<String> = Vec::new();
        let fams: Vec<String> = Vec::new();
        let mf: Option<Vec<char>> = None;
        proof {
            assert(string_views(gts@) =~= Seq::<Seq<char>>::empty());
            assert(string_views(fams@) =~= Seq::<Seq<char>>::empty());
            assert forall|a: int, b: int| 0 <= a < b < self.rows@.len() implies rv[a].id != rv[b].id
                by {
                assert(self@[a].id < self@[b].id);
            }
        }
        let s = crate::search::collect_sorted(&self.rows, tf, &gts, &mf, &fams, inc, exc, cfg);
        let ghost full = crate::search::sel_of(rv, s@);
        proof {
            assert forall|i: int| 0 <= i < full.len() implies self@.contains(#[trigger] full[i])
                && pred(full[i]) by {
                assert(full[i] == rv[s@[i] as int]);
                assert((s@[i] as int) < self.rows@.len());
            }
            assert forall|j: int| 0 <= j < self@.len() && pred(#[trigger] self@[j]) implies
                full.contains(self@[j]) by {
                assert(self.rows@.len() == self.rows.len());
                assert((j as usize) as int == j);
                assert(s@.contains(j as usize));
                let p = choose|p: int| 0 <= p < s@.len() && s@[p] == j as usize;
                assert(full[p] == rv[s@[p] as int]);
            }
            assert forall|i: int, j: int| 0 <= i < j < full.len() implies crate::search::row_lt(
                cfg,
                full[i],
                full[j],
            ) by {
                assert(full[i] == rv[s@[i] as int] && full[j] == rv[s@[j] as int]);
            }
        }
        let mut out: Vec<ImageRecord> = Vec::new();
        let lo: usize = if (offset as usize) <= s.len() {
            offset as usize
        } else {
            s.len()
        };
        let hi: usize = if (offset as usize) <= s.len() && (limit as usize) <= s.len() - (
        offset as usize) {
            offset as usize + limit as usize
        } else {
            s.len()
        };
        proof {
            assert(window(full, offset as int, limit as int) =~= full.subrange(
                lo as int,
                hi as int,
            ));
        }
        let mut p: usize = lo;
        while p < hi
            invariant
                lo <= p <= hi <= s@.len(),
                rv == rows_view(self.rows@),
                forall|q: int| 0 <= q < s@.len() ==> (#[trigger] s@[q] as int) < self.rows@.len(),
                full == crate::search::sel_of(rv, s@),
                record_views(out@) =~= full.subrange(lo as int, p as int).map_values(
                    |r: RowModel| rec_of_row(r),
                ),
            decreases hi - p,
        {
            let si = s[p];
            let ghost pre = record_views(out@);
            out.push(record_of(&self.rows[si]));
            proof {
                assert(record_views(out@) =~~= pre.push(rec_of_row(rv[si as int])));
                assert(full[p as int] == rv[si as int]);
                assert(full.subrange(lo as int, p + 1) =~= full.subrange(lo as int, p as int).push(
                    full[p as int],
                ));
                assert(full.subrange(lo as int, p + 1).map_values(|r: RowModel| rec_of_row(r))
                    =~= full.subrange(lo as int, p as int).map_values(
                    |r: RowModel| rec_of_row(r),
                ).push(rec_of_row(full[p as int])));
            }
            p += 1;
        }
        out
    }

    /// Ranked search over prompt, negative prompt, raw text and model
    /// name; when the ranked page is empty, the query is retried as one
    /// case-insensitive substring.
    pub fn search(&self, query: &str, limit: u32, offset: u32) -> (out: Vec<ImageRecord>)
        requires
            self.wf(),
        ensures
            ({
                let parts = crate::query::sanitize_parts(crate::text::trim_seq(query@));
                let pp = crate::search::page_pred(
                    crate::search::TextSel::Ranked { parts },
                    Seq::empty(),
                    None,
                    Seq::empty(),
                    Seq::empty(),
                    Seq::empty(),
                );
                let ranked_outcome = exists|full: Seq<RowModel>|
                    #![trigger full.len()]
                    is_ordered_matches(self@, pp, newest_cfg(), full) && record_views(out@)
                        =~= window(full, offset as int, limit as int).map_values(
                        |r: RowModel| rec_of_row(r),
                    ) && window(full, offset as int, limit as int).len() > 0;
                if parts.len() > 0 && ranked_page_nonempty(self@, pp, offset as int, limit as int) {
                    ranked_outcome
                } else if !crate::query::has_search_token(crate::text::trim_seq(query@)) {
                    out@.len() == 0
                } else {
                    exists|full: Seq<RowModel>|
                        #![trigger full.len()]
                        is_ordered_matches(
                            self@,
                            crate::search::page_pred(
                                crate::search::TextSel::Substring { q: query@ },
                                Seq::empty(),
                                None,
                                Seq::empty(),
                                Seq::empty(),
                                Seq::empty(),
                            ),
                            newest_cfg(),
                            full,
                        ) && record_views(out@) =~= window(
                            full,
                            offset as int,
                            limit as int,
                        ).map_values(|r: RowModel| rec_of_row(r))
                }
            }),
    {
        let inc: Vec<Vec<char>> = Vec::new();
        let exc: Vec<Vec<char>> = Vec::new();
        proof {
            assert(views_of_vecs(inc@) =~= Seq::<Seq<char>>::empty());
            assert(views_of_vecs(exc@) =~= Seq::<Seq<char>>::empty());
        }
        let parts = crate::query::sanitize_query_parts(query);
        if parts.len() > 0 {
            let tf = crate::search::TextFilter::Ranked { parts };
            let ghost pp = crate::search::page_pred(
                tf.model(),
                Seq::empty(),
                None,
                Seq::empty(),
                views_of_vecs(inc@),
                views_of_vecs(exc@),
            );
            let ranked = self.run_offset(&tf, &inc, &exc, limit, offset);
            if ranked.len() > 0 {
                proof {
                    let full = choose|full: Seq<RowModel>|
                        #![trigger full.len()]
                        is_ordered_matches(self@, pp, newest_cfg(), full) && record_views(ranked@)
                            =~= window(full, offset as int, limit as int).map_values(
                            |r: RowModel| rec_of_row(r),
                        );
                    assert(window(full, offset as int, limit as int).len() == record_views(
                        ranked@,
                    ).len());
                    lemma_matches_unique(self@, pp, newest_cfg(), full);
                }
                return ranked;
            }
            proof {
                let full = choose|full: Seq<RowModel>|
                    #![trigger full.len()]
                    is_ordered_matches(self@, pp, newest_cfg(), full) && record_views(ranked@)
                        =~= window(full, offset as int, limit as int).map_values(
                        |r: RowModel| rec_of_row(r),
                    );
                assert(window(full, offset as int, limit as int).len() == record_views(
                    ranked@,
                ).len());
                lemma_matches_unique(self@, pp, newest_cfg(), full);
            }
        }
        let qt = trim(&chars_vec(query));
        if qt.len() == 0 || !crate::query::contains_search_token(&qt) {
            let out: Vec<ImageRecord> = Vec::new();
            return out;
        }
        let tf = crate::search::TextFilter::Substring { q: chars_vec(query) };
        self.run_offset(&tf, &inc, &exc, limit, offset)
    }
}

/// The requested window over the ordered matches holds at least one row.
pub open spec fn ranked_page_nonempty(
    rows: Seq<RowModel>,
    pred: spec_fn(RowModel) -> bool,
    offset: int,
    limit: int,
) -> bool {
    exists|full: Seq<RowModel>|
        #![trigger full.len()]
        is_ordered_matches(rows, pred, newest_cfg(), full) && window(full, offset, limit).len() > 0
}

/// Any two ordered-match sequences for the same predicate have equal
/// length, so the emptiness of a window is well defined.
pub proof fn lemma_matches_unique(
    rows: Seq<RowModel>,
    pred: spec_fn(RowModel) -> bool,
    cfg: crate::query::SortConfig,
    full: Seq<RowModel>,
)
    requires
        is_ordered_matches(rows, pred, cfg, full),
    ensures
        forall|other: Seq<RowModel>|
            #![trigger other.len()]
            is_ordered_matches(rows, pred, cfg, other) ==> other =~= full,
{
    assert forall|other: Seq<RowModel>|
        #![trigger other.len()]
        is_ordered_matches(rows, pred, cfg, other) implies other =~= full by {
        lemma_ordered_matches_eq(rows, pred, cfg, full, other);
    }
}

proof fn lemma_ordered_matches_eq(
    rows: Seq<RowModel>,
    pred: spec_fn(RowModel) -> bool,
    cfg: crate::query::SortConfig,
    a: Seq<RowModel>,
    b: Seq<RowModel>,
)
    requires
        is_ordered_matches(rows, pred, cfg, a),
        is_ordered_matches(rows, pred, cfg, b),
    ensures
        a =~= b,
    decreases a.len(),
{
    if a.len() == 0 {
        if b.len() > 0 {
            assert(rows.contains(b[0]) && pred(b[0]));
            let j = choose|j: int| 0 <= j < rows.len() && rows[j] == b[0];
            assert(a.contains(rows[j]));
            assert(false);
        }
    } else if b.len() == 0 {
        assert(rows.contains(a[0]) && pred(a[0]));
        let j = choose|j: int| 0 <= j < rows.len() && rows[j] == a[0];
        assert(b.contains(rows[j]));
        assert(false);
    } else {
        // both heads are the unique minimum
        assert(a[0] == b[0]) by {
            let ja = choose|j: int| 0 <= j < rows.len() && rows[j] == a[0];
            let jb = choose|j: int| 0 <= j < rows.len() && rows[j] == b[0];
            assert(b.contains(rows[ja]));
            assert(a.contains(rows[jb]));
            let pa = choose|p: int| 0 <= p < b.len() && b[p] == a[0];
            let pb = choose|p: int| 0 <= p < a.len() && a[p] == b[0];
            if pa > 0 {
                assert(crate::search::row_lt(cfg, b[0], b[pa]));
            }
            if pb > 0 {
                assert(crate::search::row_lt(cfg, a[0], a[pb]));
            }
            if a[0] != b[0] {
                assert(crate::search::row_lt(cfg, b[0], a[0]) && crate::search::row_lt(
                    cfg,
                    a[0],
                    b[0],
                ));
                crate::search::lemma_row_lt_trans(cfg, a[0], b[0], a[0]);
                lemma_row_lt_irrefl(cfg, a[0]);
            }
        }
        let a1 = a.skip(1);
        let b1 = b.skip(1);
        assert(is_ordered_matches(rows, pred_without(pred, a[0]), cfg, a1)) by {
            lemma_tail_ordered(rows, pred, cfg, a);
        }
        assert(is_ordered_matches(rows, pred_without(pred, a[0]), cfg, b1)) by {
            lemma_tail_ordered(rows, pred, cfg, b);
        }
        lemma_ordered_matches_eq(rows, pred_without(pred, a[0]), cfg, a1, b1);
        assert(a =~= seq![a[0]] + a1);
        assert(b =~= seq![b[0]] + b1);
    }
}

proof fn lemma_row_lt_irrefl(cfg: crate::query::SortConfig, a: RowModel)
    ensures
        !crate::search::row_lt(cfg, a, a),
{
}

/// The predicate with one row value excluded.
pub open spec fn pred_without(pred: spec_fn(RowModel) -> bool, x: RowModel) -> spec_fn(
    RowModel,
) -> bool {
    |r: RowModel| pred(r) && r != x
}

/// Dropping the head of an ordered-match sequence leaves the ordered
/// matches of the remaining rows.
proof fn lemma_tail_ordered(
    rows: Seq<RowModel>,
    pred: spec_fn(RowModel) -> bool,
    cfg: crate::query::SortConfig,
    a: Seq<RowModel>,
)
    requires
        is_ordered_matches(rows, pred, cfg, a),
        a.len() > 0,
    ensures
        is_ordered_matches(rows, pred_without(pred, a[0]), cfg, a.skip(1)),
{
    let a1 = a.skip(1);
    assert forall|i: int| 0 <= i < a1.len() implies rows.contains(#[trigger] a1[i]) && pred_without(pred, a[0])(a1[i]) by {
        assert(a1[i] == a[i + 1]);
        assert(crate::search::row_lt(cfg, a[0], a[i + 1]));
        if a[i + 1] == a[0] {
            lemma_row_lt_irrefl(cfg, a[0]);
        }
    }
    assert forall|i: int, j: int| 0 <= i < j < a1.len() implies crate::search::row_lt(
        cfg,
        a1[i],
        a1[j],
    ) by {
        assert(a1[i] == a[i + 1] && a1[j] == a[j + 1]);
    }
    assert forall|j: int| 0 <= j < rows.len() && pred_without(pred, a[0])(#[trigger] rows[j]) implies
        a1.contains(rows[j]) by {
        assert(pred(rows[j]));
        assert(a.contains(rows[j]));
        let p = choose|p: int| 0 <= p < a.len() && a[p] == rows[j];
        assert(p != 0);
        assert(a1[p - 1] == rows[j]);
    }
}

impl Database {
    /// Substring search alone, newest first.
    pub fn search_trigram(&self, query: &str, limit: u32, offset: u32) -> (out: Vec<ImageRecord>)
        requires
            self.wf(),
        ensures
            ({
                if !crate::query::has_search_token(crate::text::trim_seq(query@)) {
                    out@.len() == 0
                } else {
                    exists|full: Seq<RowModel>|
                        #![trigger full.len()]
                        is_ordered_matches(
                            self@,
                            crate::search::page_pred(
                                crate::search::TextSel::Substring { q: query@ },
                                Seq::empty(),
                                None,
                                Seq::empty(),
                                Seq::empty(),
                                Seq::empty(),
                            ),
                            newest_cfg(),
                            full,
                        ) && record_views(out@) =~= window(
                            full,
                            offset as int,
                            limit as int,
                        ).map_values(|r: RowModel| rec_of_row(r))
                }
            }),
    {
        let qt = trim(&chars_vec(query));
        if qt.len() == 0 || !crate::query::contains_search_token(&qt) {
            let out: Vec<ImageRecord> = Vec::new();
            return out;
        }
        let inc: Vec<Vec<char>> = Vec::new();
        let exc: Vec<Vec<char>> = Vec::new();
        proof {
            assert(views_of_vecs(inc@) =~= Seq::<Seq<char>>::empty());
            assert(views_of_vecs(exc@) =~= Seq::<Seq<char>>::empty());
        }
        let tf = crate::search::TextFilter::Substring { q: chars_vec(query) };
        self.run_offset(&tf, &inc, &exc, limit, offset)
    }

    /// Offset filtering by tag include/exclude sets with an optional text
    /// query and the ranked-then-substring fallback.
    pub fn filter_images(
        &self,
        query: Option<&str>,
        include_tags: &Vec<String>,
        exclude_tags: &Vec<String>,
        limit: u32,
        offset: u32,
    ) -> (out: Vec<ImageRecord>)
        requires
            self.wf(),
        ensures
            ({
                let inc = norm_filter_tags(string_views(include_tags@));
                let exc = norm_filter_tags(string_views(exclude_tags@));
                let tsel = match query {
                    Some(q) => crate::search::TextSel::Ranked {
                        parts: crate::query::sanitize_parts(crate::text::trim_seq(q@)),
                    },
                    None => crate::search::TextSel::Everything,
                };
                let pp = crate::search::page_pred(tsel, Seq::empty(), None, Seq::empty(), inc, exc);
                let porter_viable = match query {
                    Some(q) => crate::query::sanitize_parts(crate::text::trim_seq(q@)).len() > 0,
                    None => true,
                };
                let ranked_outcome = exists|full: Seq<RowModel>|
                    #![trigger full.len()]
                    is_ordered_matches(self@, pp, newest_cfg(), full) && record_views(out@)
                        =~= window(full, offset as int, limit as int).map_values(
                        |r: RowModel| rec_of_row(r),
                    ) && window(full, offset as int, limit as int).len() > 0;
                if porter_viable && ranked_page_nonempty(self@, pp, offset as int, limit as int) {
                    ranked_outcome
                } else {
                    match query {
                        None => out@.len() == 0,
                        Some(q) => {
                            if crate::text::trim_seq(q@).len() == 0
                                || !crate::query::has_search_token(crate::text::trim_seq(q@)) {
                                out@.len() == 0
                            } else {
                                exists|full: Seq<RowModel>|
                                    #![trigger full.len()]
                                    is_ordered_matches(
                                        self@,
                                        crate::search::page_pred(
                                            crate::search::TextSel::Substring { q: q@ },
                                            Seq::empty(),
                                            None,
                                            Seq::empty(),
                                            inc,
                                            exc,
                                        ),
                                        newest_cfg(),
                                        full,
                                    ) && record_views(out@) =~= window(
                                        full,
                                        offset as int,
                                        limit as int,
                                    ).map_values(|r: RowModel| rec_of_row(r))
                            }
                        },
                    }
                }
            }),
    {
        let inc = normalize_filter_tags(include_tags);
        let exc = normalize_filter_tags(exclude_tags);
        let porter_viable: bool;
        let tf: crate::search::TextFilter = match query {
            Some(q) => {
                let parts = crate::query::sanitize_query_parts(q);
                porter_viable = parts.len() > 0;
                crate::search::TextFilter::Ranked { parts }
            },
            None => {
                porter_viable = true;
                crate::search::TextFilter::Everything
            },
        };
        if porter_viable {
            let ghost pp = crate::search::page_pred(
                tf.model(),
                Seq::empty(),
                None,
                Seq::empty(),
                views_of_vecs(inc@),
                views_of_vecs(exc@),
            );
            let ranked = self.run_offset(&tf, &inc, &exc, limit, offset);
            proof {
                let full = choose|full: Seq<RowModel>|
                    #![trigger full.len()]
                    is_ordered_matches(self@, pp, newest_cfg(), full) && record_views(ranked@)
                        =~= window(full, offset as int, limit as int).map_values(
                        |r: RowModel| rec_of_row(r),
                    );
                assert(window(full, offset as int, limit as int).len() == record_views(
                    ranked@,
                ).len());
                lemma_matches_unique(self@, pp, newest_cfg(), full);
            }
            if ranked.len() > 0 {
                return ranked;
            }
            match query {
                None => {
                    let out: Vec<ImageRecord> = Vec::new();
                    return out;
                },
                Some(_) => {},
            }
        }
        let q = match query {
            Some(q) => q,
            None => {
                let out: Vec<ImageRecord> = Vec::new();
                return out;
            },
        };
        let qt = trim(&chars_vec(q));
        if qt.len() == 0 || !crate::query::contains_search_token(&qt) {
            let out: Vec<ImageRecord> = Vec::new();
            return out;
        }
        let tf2 = crate::search::TextFilter::Substring { q: chars_vec(q) };
        self.run_offset(&tf2, &inc, &exc, limit, offset)
    }

    /// All rows, newest first, one window.
    pub fn get_all_images(&self, limit: u32, offset: u32) -> (out: Vec<ImageRecord>)
        requires
            self.wf(),
        ensures
            exists|full: Seq<RowModel>|
                #![trigger full.len()]
                is_ordered_matches(
                    self@,
                    crate::search::page_pred(
                        crate::search::TextSel::Everything,
                        Seq::empty(),
                        None,
                        Seq::empty(),
                        Seq::empty(),
                        Seq::empty(),
                    ),
                    newest_cfg(),
                    full,
                ) && record_views(out@) =~= window(full, offset as int, limit as int).map_values(
                    |r: RowModel| rec_of_row(r),
                ),
    {
        let inc: Vec<Vec<char>> = Vec::new();
        let exc: Vec<Vec<char>> = Vec::new();
        proof {
            assert(views_of_vecs(inc@) =~= Seq::<Seq<char>>::empty());
            assert(views_of_vecs(exc@) =~= Seq::<Seq<char>>::empty());
        }
        self.run_offset(&crate::search::TextFilter::Everything, &inc, &exc, limit, offset)
    }
}


// ─────────────────────── reads ───────────────────────

pub open spec fn mtime_pair_views(v: Seq<(String, i64)>) -> Seq<(Seq<char>, i64)> {
    v.map_values(|p: (String, i64)| (p.0@, p.1))
}

impl Database {
    /// All stored mtimes in one pass, keyed by filepath.
    pub fn get_all_file_mtimes(&self) -> (r: Vec<(String, i64)>)
        ensures
            mtime_pair_views(r@) =~= self@.filter(|row: RowModel| row.file_mtime is Some)
                .map_values(|row: RowModel| (row.filepath, row.file_mtime->0)),
    {
        let ghost rv = self@;
        let mut r: Vec<(String, i64)> = Vec::new();
        let mut i: usize = 0;
        proof {
            reveal(Seq::filter);
            assert(mtime_pair_views(r@) =~= rv.take(0).filter(
                |row: RowModel| row.file_mtime is Some,
            ).map_values(|row: RowModel| (row.filepath, row.file_mtime->0)));
        }
        while i < self.rows.len()
            invariant
                0 <= i <= self.rows@.len(),
                rv == self@,
                mtime_pair_views(r@) =~= rv.take(i as int).filter(
                    |row: RowModel| row.file_mtime is Some,
                ).map_values(|row: RowModel| (row.filepath, row.file_mtime->0)),
            decreases self.rows.len() - i,
        {
            let ghost pre = mtime_pair_views(r@);
            match self.rows[i].file_mtime {
                Some(m) => {
                    r.push((self.rows[i].filepath.clone(), m));
                    proof {
                        assert(mtime_pair_views(r@) =~~= pre.push((rv[i as int].filepath, m)));
                    }
                },
                None => {},
            }
            proof {
                reveal(Seq::filter);
                assert(rv.take(i + 1).drop_last() =~= rv.take(i as int));
                assert(rv.take(i + 1).last() == rv[i as int]);
            }
            i += 1;
        }
        proof {
            assert(rv.take(rv.len() as int) =~= rv);
        }
        r
    }

    /// The stored mtime of a filepath.
    pub fn get_file_mtime(&self, filepath: &str) -> (r: Option<i64>)
        ensures
            match idx_of_path(self@, filepath@) {
                Some(i) => r == self@[i].file_mtime,
                None => r is None,
            },
    {
        let pv = chars_vec(filepath);
        let mut i: usize = 0;
        proof {
            lemma_idx_of_path(self@, filepath@);
        }
        while i < self.rows.len()
            invariant
                0 <= i <= self.rows@.len(),
                pv@ == filepath@,
                forall|j: int| 0 <= j < i ==> rows_view(self.rows@)[j].filepath != filepath@,
            decreases self.rows.len() - i,
        {
            if seq_eq(&chars_vec(self.rows[i].filepath.as_str()), &pv) {
                proof {
                    assert(rows_view(self.rows@)[i as int].filepath == filepath@);
                    lemma_idx_of_path(self@, filepath@);
                }
                return self.rows[i].file_mtime;
            }
            i += 1;
        }
        proof {
            lemma_idx_of_path(self@, filepath@);
        }
        None
    }

    /// The row id of a filepath, if stored.
    pub fn get_image_id_by_filepath(&self, filepath: &str) -> (r: Option<i64>)
        ensures
            match idx_of_path(self@, filepath@) {
                Some(i) => r matches Some(id) && id as int == self@[i].id,
                None => r is None,
            },
    {
        let pv = chars_vec(filepath);
        let mut i: usize = 0;
        proof {
            lemma_idx_of_path(self@, filepath@);
        }
        while i < self.rows.len()
            invariant
                0 <= i <= self.rows@.len(),
                pv@ == filepath@,
                forall|j: int| 0 <= j < i ==> rows_view(self.rows@)[j].filepath != filepath@,
            decreases self.rows.len() - i,
        {
            if seq_eq(&chars_vec(self.rows[i].filepath.as_str()), &pv) {
                proof {
                    assert(rows_view(self.rows@)[i as int].filepath == filepath@);
                    lemma_idx_of_path(self@, filepath@);
                }
                return Some(self.rows[i].id);
            }
            i += 1;
        }
        proof {
            lemma_idx_of_path(self@, filepath@);
        }
        None
    }

    /// Number of indexed images.
    pub fn get_total_count(&self) -> (r: u32)
        requires
            self@.len() <= u32::MAX,
        ensures
            r as int == self@.len(),
    {
        self.rows.len() as u32
    }

    /// All indexed filepaths, newest first.
    pub fn get_all_image_filepaths_desc(&self) -> (r: Vec<String>)
        ensures
            r@.len() == self@.len(),
            forall|i: int|
                0 <= i < r@.len() ==> string_views(r@)[i] == self@[self@.len() - 1 - i].filepath,
    {
        let mut r: Vec<String> = Vec::new();
        let mut i: usize = self.rows.len();
        while i > 0
            invariant
                0 <= i <= self.rows@.len(),
                r@.len() == self.rows@.len() - i,
                forall|k: int|
                    0 <= k < r@.len() ==> string_views(r@)[k] == rows_view(
                        self.rows@,
                    )[self.rows@.len() - 1 - k].filepath,
            decreases i,
        {
            i -= 1;
            let ghost pre = string_views(r@);
            r.push(self.rows[i].filepath.clone());
            proof {
                assert(string_views(r@) =~~= pre.push(rows_view(self.rows@)[i as int].filepath));
            }
        }
        r
    }

    /// One full record by id.
    pub fn get_image_by_id(&self, id: i64) -> (r: Option<ImageRecord>)
        ensures
            match r {
                Some(rec) => exists|j: int|
                    0 <= j < self@.len() && #[trigger] self@[j].id == id as int && rec@
                        == rec_of_row(self@[j]),
                None => forall|j: int| 0 <= j < self@.len() ==> #[trigger] self@[j].id != id as int,
            },
    {
        let mut i: usize = 0;
        while i < self.rows.len()
            invariant
                0 <= i <= self.rows@.len(),
                forall|j: int| 0 <= j < i ==> #[trigger] rows_view(self.rows@)[j].id != id as int,
            decreases self.rows.len() - i,
        {
            if self.rows[i].id == id {
                proof {
                    assert(rows_view(self.rows@)[i as int].id == id as int);
                }
                return Some(record_of(&self.rows[i]));
            }
            i += 1;
        }
        None
    }

    /// Full records of the given ids, newest first.
    pub fn get_images_by_ids(&self, ids: &Vec<i64>) -> (r: Vec<ImageRecord>)
        requires
            self.wf(),
        ensures
            exists|srcs: Seq<int>| by_ids_outcome(self@, ids@, srcs, record_views(r@)),
    {
        let ghost rv = self@;
        let mut r: Vec<ImageRecord> = Vec::new();
        let mut srcs: Ghost<Seq<int>> = Ghost(Seq::empty());
        let mut i: usize = self.rows.len();
        while i > 0
            invariant
                0 <= i <= self.rows@.len(),
                rv == self@,
                self.wf(),
                record_views(r@).len() == srcs@.len(),
                forall|p: int|
                    0 <= p < srcs@.len() ==> i <= #[trigger] srcs@[p] < rv.len(),
                forall|p: int|
                    0 <= p < srcs@.len() ==> record_views(r@)[p] == rec_of_row(
                        rv[#[trigger] srcs@[p]],
                    ),
                forall|p: int|
                    0 <= p < srcs@.len() ==> ids@.contains(rv[#[trigger] srcs@[p]].id as i64),
                forall|p: int, q: int| 0 <= p < q < srcs@.len() ==> srcs@[p] > srcs@[q],
                forall|j: int|
                    i <= j < rv.len() && ids@.contains(#[trigger] rv[j].id as i64)
                        ==> srcs@.contains(j),
            decreases i,
        {
            i -= 1;
            let mut found: bool = false;
            let mut k: usize = 0;
            while k < ids.len()
                invariant
                    0 <= k <= ids@.len(),
                    i < self.rows@.len(),
                    rv == self@,
                    found ==> ids@.contains(rv[i as int].id as i64),
                    !found ==> forall|q: int| 0 <= q < k ==> ids@[q] != rv[i as int].id as i64,
                decreases ids.len() - k,
            {
                if ids[k] == self.rows[i].id {
                    proof {
                        assert(ids@[k as int] == rv[i as int].id as i64);
                    }
                    found = true;
                }
                k += 1;
            }
            proof {
                if !found && ids@.contains(rv[i as int].id as i64) {
                    let q = choose|q: int| 0 <= q < ids@.len() && ids@[q] == rv[i as int].id as i64;
                }
            }
            if found {
                let ghost pre = record_views(r@);
                let ghost pre_srcs = srcs@;
                r.push(record_of(&self.rows[i]));
                srcs = Ghost(pre_srcs.push(i as int));
                proof {
                    assert(record_views(r@) =~~= pre.push(rec_of_row(rv[i as int])));
                    assert forall|j: int|
                        i <= j < rv.len() && ids@.contains(#[trigger] rv[j].id as i64) implies
                        srcs@.contains(j) by {
                        if j == i {
                            assert(srcs@[srcs@.len() - 1] == j);
                        } else {
                            assert(pre_srcs.contains(j));
                            let p = choose|p: int| 0 <= p < pre_srcs.len() && pre_srcs[p] == j;
                            assert(srcs@[p] == j);
                        }
                    }
                }
            } else {
                proof {
                    assert forall|j: int|
                        i <= j < rv.len() && ids@.contains(#[trigger] rv[j].id as i64) implies
                        srcs@.contains(j) by {
                        assert(j != i);
                    }
                }
            }
        }
        proof {
            assert(by_ids_outcome(self@, ids@, srcs@, record_views(r@)));
        }
        r
    }
}

/// The by-ids result: records drawn from strictly descending row indices
/// whose ids are requested, one for every requested row.
pub open spec fn by_ids_outcome(
    rows: Seq<RowModel>,
    ids: Seq<i64>,
    srcs: Seq<int>,
    recs: Seq<RecordModel>,
) -> bool {
    &&& recs.len() == srcs.len()
    &&& forall|p: int| 0 <= p < srcs.len() ==> 0 <= #[trigger] srcs[p] < rows.len()
    &&& forall|p: int|
        0 <= p < srcs.len() ==> recs[p] == rec_of_row(rows[#[trigger] srcs[p]])
    &&& forall|p: int| 0 <= p < srcs.len() ==> ids.contains(rows[#[trigger] srcs[p]].id as i64)
    &&& forall|p: int, q: int| 0 <= p < q < srcs.len() ==> srcs[p] > srcs[q]
    &&& forall|j: int| 0 <= j < rows.len() && ids.contains(#[trigger] rows[j].id as i64)
        ==> srcs.contains(j)
}

// ─────────────────────── row updates ───────────────────────

/// The row produced by a plain (tag-preserving) upsert.
pub open spec fn plain_row(
    old_row: RowModel,
    filepath: Seq<char>,
    filename: Seq<char>,
    directory: Seq<char>,
    p: ParamsModel,
    file_mtime: Option<i64>,
) -> RowModel {
    RowModel {
        id: old_row.id,
        filepath,
        filename,
        directory,
        params: ParamsModel { generation_type: Some(effective_gen_type(p)), ..p },
        file_mtime,
        file_size: None,
        quick_hash: None,
        favorite: old_row.favorite,
        locked: old_row.locked,
        tags: old_row.tags,
    }
}

/// A fresh row from a plain insert.
pub open spec fn plain_new_row(
    id: int,
    filepath: Seq<char>,
    filename: Seq<char>,
    directory: Seq<char>,
    p: ParamsModel,
    file_mtime: Option<i64>,
) -> RowModel {
    RowModel {
        id,
        filepath,
        filename,
        directory,
        params: ParamsModel { generation_type: Some(effective_gen_type(p)), ..p },
        file_mtime,
        file_size: None,
        quick_hash: None,
        favorite: false,
        locked: false,
        tags: Seq::empty(),
    }
}

impl Database {
    /// Inserts or overwrites one image by unique filepath, leaving its tag
    /// associations untouched; returns its stable id.
    pub fn upsert_image(
        &mut self,
        filepath: &str,
        filename: &str,
        directory: &str,
        params: &GenerationParams,
        file_mtime: Option<i64>,
    ) -> (id: i64)
        requires
            old(self).wf(),
            old(self).next_id < i64::MAX,
        ensures
            final(self).wf(),
            final(self).tag_names@ == old(self).tag_names@,
            match idx_of_path(old(self)@, filepath@) {
                Some(i) => final(self)@ == old(self)@.update(
                    i,
                    plain_row(
                        old(self)@[i],
                        filepath@,
                        filename@,
                        directory@,
                        params@,
                        file_mtime,
                    ),
                ) && id as int == old(self)@[i].id && final(self).next_id == old(self).next_id,
                None => final(self)@ == old(self)@.push(
                    plain_new_row(
                        old(self).next_id as int,
                        filepath@,
                        filename@,
                        directory@,
                        params@,
                        file_mtime,
                    ),
                ) && id == old(self).next_id && final(self).next_id == old(self).next_id + 1,
            },
    {
        let gen_type: String = match &params.generation_type {
            Some(g) => g.clone(),
            None => infer_generation_type(params.raw_metadata.as_str()),
        };
        let mut new_params = clone_params(params);
        new_params.generation_type = Some(gen_type);
        proof {
            assert(new_params@ =~~= (ParamsModel {
                generation_type: Some(effective_gen_type(params@)),
                ..params@
            }));
            lemma_idx_of_path(self@, filepath@);
        }
        let pv = chars_vec(filepath);
        let mut i: usize = 0;
        while i < self.rows.len()
            invariant
                0 <= i <= self.rows@.len(),
                pv@ == filepath@,
                self@ == old(self)@,
                self.rows@ == old(self).rows@,
                self.next_id == old(self).next_id,
                self.tag_names@ == old(self).tag_names@,
                old(self).wf(),
                old(self).next_id < i64::MAX,
                new_params@ == (ParamsModel {
                    generation_type: Some(effective_gen_type(params@)),
                    ..params@
                }),
                forall|j: int| 0 <= j < i ==> rows_view(self.rows@)[j].filepath != filepath@,
            decreases self.rows.len() - i,
        {
            if seq_eq(&chars_vec(self.rows[i].filepath.as_str()), &pv) {
                proof {
                    assert(rows_view(self.rows@)[i as int].filepath == filepath@);
                    lemma_idx_of_path(self@, filepath@);
                    assert(idx_of_path(self@, filepath@) == Some(i as int));
                }
                let id = self.rows[i].id;
                let updated = StoredImage {
                    id,
                    filepath: filepath.to_owned(),
                    filename: filename.to_owned(),
                    directory: directory.to_owned(),
                    params: new_params,
                    file_mtime,
                    file_size: None,
                    quick_hash: None,
                    favorite: self.rows[i].favorite,
                    locked: self.rows[i].locked,
                    tags: clone_string_vec(&self.rows[i].tags),
                };
                let ghost pre_rows = rows_view(self.rows@);
                self.rows.set(i, updated);
                proof {
                    assert(rows_view(self.rows@) =~~= pre_rows.update(
                        i as int,
                        plain_row(
                            pre_rows[i as int],
                            filepath@,
                            filename@,
                            directory@,
                            params@,
                            file_mtime,
                        ),
                    ));
                    let post = rows_view(self.rows@);
                    assert forall|a: int, b: int| 0 <= a < b < post.len() implies post[a].id
                        < post[b].id && post[a].filepath != post[b].filepath by {
                        assert(pre_rows[a].id < pre_rows[b].id);
                        assert(pre_rows[a].filepath != pre_rows[b].filepath);
                        assert(post[a].id == pre_rows[a].id && post[b].id == pre_rows[b].id);
                        assert(post[a].filepath == pre_rows[a].filepath && post[b].filepath
                            == pre_rows[b].filepath);
                    }
                    assert forall|a: int| 0 <= a < post.len() implies 1 <= #[trigger] post[a].id
                        < self.next_id by {
                        assert(pre_rows[a] == old(self)@[a]);
                        assert(1 <= old(self)@[a].id < old(self).next_id);
                        assert(post[a].id == pre_rows[a].id);
                    }
                }
                return id;
            }
            i += 1;
        }
        proof {
            lemma_idx_of_path(self@, filepath@);
            assert(idx_of_path(self@, filepath@) is None);
        }
        let id = self.next_id;
        let new_row = StoredImage {
            id,
            filepath: filepath.to_owned(),
            filename: filename.to_owned(),
            directory: directory.to_owned(),
            params: new_params,
            file_mtime,
            file_size: None,
            quick_hash: None,
            favorite: false,
            locked: false,
            tags: Vec::new(),
        };
        let ghost pre_rows = rows_view(self.rows@);
        self.rows.push(new_row);
        self.next_id = self.next_id + 1;
        proof {
            assert(string_views(Seq::<String>::empty()) =~= Seq::<Seq<char>>::empty());
            assert(rows_view(self.rows@) =~~= pre_rows.push(
                plain_new_row(
                    old(self).next_id as int,
                    filepath@,
                    filename@,
                    directory@,
                    params@,
                    file_mtime,
                ),
            ));
            let post = rows_view(self.rows@);
            assert forall|a: int, b: int| 0 <= a < b < post.len() implies post[a].id < post[b].id
                && post[a].filepath != post[b].filepath by {
                if b < post.len() - 1 {
                    assert(post[a] == pre_rows[a] && post[b] == pre_rows[b]);
                } else {
                    assert(post[a] == pre_rows[a]);
                    assert(post[b].id == old(self).next_id as int);
                    assert(pre_rows[a].id < old(self).next_id as int);
                    assert(pre_rows[a].filepath != filepath@);
                }
            }
            assert forall|a: int| 0 <= a < post.len() implies 1 <= #[trigger] post[a].id
                < self.next_id by {
                if a < post.len() - 1 {
                    assert(post[a] == pre_rows[a]);
                    assert(pre_rows[a] == old(self)@[a]);
                    assert(1 <= old(self)@[a].id < old(self).next_id);
                } else {
                    assert(post[a].id == old(self).next_id as int);
                }
            }
        }
        id
    }

    /// Replaces the tag set of one image with the normalized given tags.
    pub fn replace_image_tags(&mut self, image_id: i64, tags: &Vec<String>)
        requires
            old(self).wf(),
        ensures
            final(self).wf(),
            final(self).next_id == old(self).next_id,
            final(self)@.len() == old(self)@.len(),
            forall|j: int|
                0 <= j < old(self)@.len() ==> #[trigger] final(self)@[j] == (if old(
                    self,
                )@[j].id == image_id as int {
                    RowModel { tags: norm_tags_of(string_views(tags@)), ..old(self)@[j] }
                } else {
                    old(self)@[j]
                }),
    {
        let norm = normalize_tag_list(tags);
        let mut t: usize = 0;
        while t < norm.len()
            invariant
                0 <= t <= norm@.len(),
                crate::tags::strictly_sorted(views_of_vecs(self.tag_names@)),
                self.rows@ == old(self).rows@,
                self.next_id == old(self).next_id,
                old(self).wf(),
                string_views(norm@) == norm_tags_of(string_views(tags@)),
            decreases norm.len() - t,
        {
            crate::tags::tag_insert(&mut self.tag_names, chars_vec(norm[t].as_str()));
            t += 1;
        }
        let mut i: usize = 0;
        let ghost reg1 = views_of_vecs(self.tag_names@);
        while i < self.rows.len()
            invariant
                0 <= i <= self.rows@.len(),
                self.next_id == old(self).next_id,
                views_of_vecs(self.tag_names@) == reg1,
                crate::tags::strictly_sorted(reg1),
                old(self).wf(),
                string_views(norm@) == norm_tags_of(string_views(tags@)),
                rows_view(self.rows@).len() == old(self)@.len(),
                forall|j: int|
                    0 <= j < old(self)@.len() ==> #[trigger] rows_view(self.rows@)[j] == (if j
                        < i && old(self)@[j].id == image_id as int {
                        RowModel { tags: norm_tags_of(string_views(tags@)), ..old(self)@[j] }
                    } else {
                        old(self)@[j]
                    }),
            decreases self.rows.len() - i,
        {
            if self.rows[i].id == image_id {
                let ghost pre_rows = rows_view(self.rows@);
                let updated = StoredImage { tags: clone_string_vec(&norm), ..take_row(
                    &mut self.rows,
                    i,
                ) };
                self.rows.set(i, updated);
                proof {
                    assert(rows_view(self.rows@)[i as int] =~~= (RowModel {
                        tags: norm_tags_of(string_views(tags@)),
                        ..pre_rows[i as int]
                    }));
                    assert forall|j: int| 0 <= j < old(self)@.len() implies #[trigger] rows_view(
                        self.rows@,
                    )[j] == (if j < i + 1 && old(self)@[j].id == image_id as int {
                        RowModel { tags: norm_tags_of(string_views(tags@)), ..old(self)@[j] }
                    } else {
                        old(self)@[j]
                    }) by {
                        if j != i {
                            assert(rows_view(self.rows@)[j] == pre_rows[j]);
                        }
                    }
                }
            }
            i += 1;
        }
        proof {
            assert forall|a: int, b: int| 0 <= a < b < self@.len() implies self@[a].id
                < self@[b].id && self@[a].filepath != self@[b].filepath by {
                assert(old(self)@[a].id < old(self)@[b].id);
                assert(old(self)@[a].filepath != old(self)@[b].filepath);
            }
            assert forall|a: int| 0 <= a < self@.len() implies 1 <= #[trigger] self@[a].id
                < self.next_id by {
                assert(1 <= old(self)@[a].id < old(self).next_id);
            }
        }
    }

    /// The tags of one image, sorted.
    pub fn get_tags_for_image(&self, image_id: i64) -> (r: Vec<String>)
        ensures
            crate::tags::strictly_sorted(string_views(r@)),
            match first_id_idx(self@, image_id as int) {
                Some(j) => string_views(r@).to_set() =~= self@[j].tags.to_set(),
                None => r@.len() == 0,
            },
    {
        proof {
            lemma_first_id_idx(self@, image_id as int);
        }
        let mut i: usize = 0;
        while i < self.rows.len()
            invariant
                0 <= i <= self.rows@.len(),
                forall|j: int| 0 <= j < i ==> #[trigger] rows_view(self.rows@)[j].id != image_id as int,
            decreases self.rows.len() - i,
        {
            if self.rows[i].id == image_id {
                proof {
                    assert(rows_view(self.rows@)[i as int].id == image_id as int);
                    lemma_first_id_idx(self@, image_id as int);
                    assert(first_id_idx(self@, image_id as int) == Some(i as int));
                }
                let mut sorted: Vec<Vec<char>> = Vec::new();
                let tags = &self.rows[i].tags;
                let mut t: usize = 0;
                proof {
                    assert(views_of_vecs(sorted@) =~= Seq::<Seq<char>>::empty());
                    assert(views_of_vecs(sorted@).to_set() =~= self@[i as int].tags.take(
                        0,
                    ).to_set());
                }
                while t < tags.len()
                    invariant
                        0 <= t <= tags@.len(),
                        i < self.rows@.len(),
                        string_views(tags@) == self@[i as int].tags,
                        crate::tags::strictly_sorted(views_of_vecs(sorted@)),
                        views_of_vecs(sorted@).to_set() =~= self@[i as int].tags.take(
                            t as int,
                        ).to_set(),
                    decreases tags.len() - t,
                {
                    crate::tags::tag_insert(&mut sorted, chars_vec(tags[t].as_str()));
                    proof {
                        assert(self@[i as int].tags.take(t + 1) =~= self@[i as int].tags.take(
                            t as int,
                        ).push(self@[i as int].tags[t as int]));
                        Seq::lemma_to_set_insert_commutes(
                            self@[i as int].tags.take(t as int),
                            self@[i as int].tags[t as int],
                        );
                        assert(self@[i as int].tags.take(t as int).push(
                            self@[i as int].tags[t as int],
                        ) =~= self@[i as int].tags.take(t as int) + seq![
                            self@[i as int].tags[t as int],
                        ]);
                    }
                    t += 1;
                }
                proof {
                    assert(self@[i as int].tags.take(self@[i as int].tags.len() as int)
                        =~= self@[i as int].tags);
                }
                let mut out: Vec<String> = Vec::new();
                let mut k: usize = 0;
                while k < sorted.len()
                    invariant
                        0 <= k <= sorted@.len(),
                        string_views(out@) == views_of_vecs(sorted@).take(k as int),
                    decreases sorted.len() - k,
                {
                    let ghost pre = string_views(out@);
                    out.push(string_from_chars(&sorted[k]));
                    proof {
                        assert(string_views(out@) =~~= pre.push(sorted@[k as int]@));
                        assert(views_of_vecs(sorted@).take(k + 1) =~~= views_of_vecs(
                            sorted@,
                        ).take(k as int).push(views_of_vecs(sorted@)[k as int]));
                    }
                    k += 1;
                }
                proof {
                    assert(views_of_vecs(sorted@).take(sorted@.len() as int) =~= views_of_vecs(
                        sorted@,
                    ));
                }
                return out;
            }
            i += 1;
        }
        proof {
            lemma_first_id_idx(self@, image_id as int);
        }
        Vec::new()
    }
}

/// Copies one row out of the vector for rebuilding.
fn take_row(rows: &mut Vec<StoredImage>, i: usize) -> (r: StoredImage)
    requires
        i < old(rows)@.len(),
    ensures
        r@ == old(rows)@[i as int]@,
        final(rows)@ == old(rows)@,
{
    let row = &rows[i];
    let r = StoredImage {
        id: row.id,
        filepath: row.filepath.clone(),
        filename: row.filename.clone(),
        directory: row.directory.clone(),
        params: clone_params(&row.params),
        file_mtime: row.file_mtime,
        file_size: row.file_size,
        quick_hash: clone_opt_string(&row.quick_hash),
        favorite: row.favorite,
        locked: row.locked,
        tags: clone_string_vec(&row.tags),
    };
    proof {
        assert(r@ =~~= old(rows)@[i as int]@);
    }
    r
}

/// First row index with the given id.
pub open spec fn first_id_idx(rows: Seq<RowModel>, id: int) -> Option<int>
    decreases rows.len(),
{
    if rows.len() == 0 {
        None
    } else if rows[0].id == id {
        Some(0)
    } else {
        match first_id_idx(rows.skip(1), id) {
            Some(i) => Some(i + 1),
            None => None,
        }
    }
}

pub proof fn lemma_first_id_idx(rows: Seq<RowModel>, id: int)
    ensures
        match first_id_idx(rows, id) {
            Some(i) => 0 <= i < rows.len() && rows[i].id == id && forall|j: int|
                0 <= j < i ==> rows[j].id != id,
            None => forall|j: int| 0 <= j < rows.len() ==> rows[j].id != id,
        },
    decreases rows.len(),
{
    if rows.len() > 0 && rows[0].id != id {
        lemma_first_id_idx(rows.skip(1), id);
        assert forall|j: int| 0 <= j < rows.len() implies rows.skip(1)[j - 1] == rows[j] || j == 0
            by {}
    }
}

impl Database {
    /// Sets the favorite flag of one image.
    pub fn set_image_favorite(&mut self, image_id: i64, favorite: bool)
        requires
            old(self).wf(),
        ensures
            final(self).wf(),
            final(self).next_id == old(self).next_id,
            final(self)@.len() == old(self)@.len(),
            forall|j: int|
                0 <= j < old(self)@.len() ==> #[trigger] final(self)@[j] == (if old(
                    self,
                )@[j].id == image_id as int {
                    RowModel { favorite, ..old(self)@[j] }
                } else {
                    old(self)@[j]
                }),
    {
        let mut i: usize = 0;
        while i < self.rows.len()
            invariant
                0 <= i <= self.rows@.len(),
                self.next_id == old(self).next_id,
                self.tag_names@ == old(self).tag_names@,
                old(self).wf(),
                rows_view(self.rows@).len() == old(self)@.len(),
                forall|j: int|
                    0 <= j < old(self)@.len() ==> #[trigger] rows_view(self.rows@)[j] == (if j < i
                        && old(self)@[j].id == image_id as int {
                        RowModel { favorite, ..old(self)@[j] }
                    } else {
                        old(self)@[j]
                    }),
            decreases self.rows.len() - i,
        {
            if self.rows[i].id == image_id {
                let ghost pre_rows = rows_view(self.rows@);
                let updated = StoredImage { favorite, ..take_row(&mut self.rows, i) };
                self.rows.set(i, updated);
                proof {
                    assert(rows_view(self.rows@)[i as int] =~~= (RowModel {
                        favorite,
                        ..pre_rows[i as int]
                    }));
                    assert forall|j: int| 0 <= j < old(self)@.len() implies #[trigger] rows_view(
                        self.rows@,
                    )[j] == (if j < i + 1 && old(self)@[j].id == image_id as int {
                        RowModel { favorite, ..old(self)@[j] }
                    } else {
                        old(self)@[j]
                    }) by {
                        if j != i {
                            assert(rows_view(self.rows@)[j] == pre_rows[j]);
                        }
                    }
                }
            }
            i += 1;
        }
        proof {
            assert forall|a: int, b: int| 0 <= a < b < self@.len() implies self@[a].id
                < self@[b].id && self@[a].filepath != self@[b].filepath by {
                assert(old(self)@[a].id < old(self)@[b].id);
                assert(old(self)@[a].filepath != old(self)@[b].filepath);
            }
            assert forall|a: int| 0 <= a < self@.len() implies 1 <= #[trigger] self@[a].id
                < self.next_id by {
                assert(1 <= old(self)@[a].id < old(self).next_id);
            }
        }
    }

    /// Sets the locked flag of one image.
    pub fn set_image_locked(&mut self, image_id: i64, locked: bool)
        requires
            old(self).wf(),
        ensures
            final(self).wf(),
            final(self).next_id == old(self).next_id,
            final(self)@.len() == old(self)@.len(),
            forall|j: int|
                0 <= j < old(self)@.len() ==> #[trigger] final(self)@[j] == (if old(
                    self,
                )@[j].id == image_id as int {
                    RowModel { locked, ..old(self)@[j] }
                } else {
                    old(self)@[j]
                }),
    {
        let mut i: usize = 0;
        while i < self.rows.len()
            invariant
                0 <= i <= self.rows@.len(),
                self.next_id == old(self).next_id,
                self.tag_names@ == old(self).tag_names@,
                old(self).wf(),
                rows_view(self.rows@).len() == old(self)@.len(),
                forall|j: int|
                    0 <= j < old(self)@.len() ==> #[trigger] rows_view(self.rows@)[j] == (if j < i
                        && old(self)@[j].id == image_id as int {
                        RowModel { locked, ..old(self)@[j] }
                    } else {
                        old(self)@[j]
                    }),
            decreases self.rows.len() - i,
        {
            if self.rows[i].id == image_id {
                let ghost pre_rows = rows_view(self.rows@);
                let updated = StoredImage { locked, ..take_row(&mut self.rows, i) };
                self.rows.set(i, updated);
                proof {
                    assert(rows_view(self.rows@)[i as int] =~~= (RowModel {
                        locked,
                        ..pre_rows[i as int]
                    }));
                    assert forall|j: int| 0 <= j < old(self)@.len() implies #[trigger] rows_view(
                        self.rows@,
                    )[j] == (if j < i + 1 && old(self)@[j].id == image_id as int {
                        RowModel { locked, ..old(self)@[j] }
                    } else {
                        old(self)@[j]
                    }) by {
                        if j != i {
                            assert(rows_view(self.rows@)[j] == pre_rows[j]);
                        }
                    }
                }
            }
            i += 1;
        }
        proof {
            assert forall|a: int, b: int| 0 <= a < b < self@.len() implies self@[a].id
                < self@[b].id && self@[a].filepath != self@[b].filepath by {
                assert(old(self)@[a].id < old(self)@[b].id);
                assert(old(self)@[a].filepath != old(self)@[b].filepath);
            }
            assert forall|a: int| 0 <= a < self@.len() implies 1 <= #[trigger] self@[a].id
                < self.next_id by {
                assert(1 <= old(self)@[a].id < old(self).next_id);
            }
        }
    }

    /// Sets the favorite flag of many images; returns how many were named.
    pub fn set_images_favorite(&mut self, image_ids: &Vec<i64>, favorite: bool) -> (n: usize)
        requires
            old(self).wf(),
        ensures
            final(self).wf(),
            n == image_ids@.len(),
    {
        let mut k: usize = 0;
        while k < image_ids.len()
            invariant
                0 <= k <= image_ids@.len(),
                self.wf(),
            decreases image_ids.len() - k,
        {
            self.set_image_favorite(image_ids[k], favorite);
            k += 1;
        }
        k
    }

    /// Sets the locked flag of many images; returns how many were named.
    pub fn set_images_locked(&mut self, image_ids: &Vec<i64>, locked: bool) -> (n: usize)
        requires
            old(self).wf(),
        ensures
            final(self).wf(),
            n == image_ids@.len(),
    {
        let mut k: usize = 0;
        while k < image_ids.len()
            invariant
                0 <= k <= image_ids@.len(),
                self.wf(),
            decreases image_ids.len() - k,
        {
            self.set_image_locked(image_ids[k], locked);
            k += 1;
        }
        k
    }

    /// Deletes the rows with the given ids; tag associations go with the
    /// rows. Returns how many were removed.
    pub fn delete_images_by_ids(&mut self, ids: &Vec<i64>) -> (n: usize)
        requires
            old(self).wf(),
        ensures
            final(self).wf(),
            final(self)@ =~= old(self)@.filter(
                |r: RowModel| !ids@.contains(r.id as i64),
            ),
            n as int == old(self)@.len() - final(self)@.len(),
    {
        let ghost rv = self@;
        let mut kept: Vec<StoredImage> = Vec::new();
        let mut srcs: Ghost<Seq<int>> = Ghost(Seq::empty());
        let mut i: usize = 0;
        proof {
            reveal(Seq::filter);
            assert(rows_view(kept@) =~= rv.take(0).filter(
                |r: RowModel| !ids@.contains(r.id as i64),
            ));
        }
        while i < self.rows.len()
            invariant
                0 <= i <= self.rows@.len(),
                rv == self@,
                self.rows@ == old(self).rows@,
                self.next_id == old(self).next_id,
                self.tag_names@ == old(self).tag_names@,
                old(self).wf(),
                rows_view(kept@) =~= rv.take(i as int).filter(
                    |r: RowModel| !ids@.contains(r.id as i64),
                ),
                srcs@.len() == kept@.len(),
                forall|p: int| 0 <= p < srcs@.len() ==> 0 <= #[trigger] srcs@[p] < i,
                forall|p: int, q: int| 0 <= p < q < srcs@.len() ==> srcs@[p] < srcs@[q],
                forall|p: int|
                    0 <= p < srcs@.len() ==> rows_view(kept@)[p] == rv[#[trigger] srcs@[p]],
            decreases self.rows.len() - i,
        {
            let mut listed: bool = false;
            let mut k: usize = 0;
            while k < ids.len()
                invariant
                    0 <= k <= ids@.len(),
                    i < self.rows@.len(),
                    rv == rows_view(self.rows@),
                    listed ==> ids@.contains(rv[i as int].id as i64),
                    !listed ==> forall|q: int| 0 <= q < k ==> ids@[q] != rv[i as int].id as i64,
                decreases ids.len() - k,
            {
                if ids[k] == self.rows[i].id {
                    proof {
                        assert(ids@[k as int] == rv[i as int].id as i64);
                    }
                    listed = true;
                }
                k += 1;
            }
            proof {
                if !listed && ids@.contains(rv[i as int].id as i64) {
                    let q = choose|q: int| 0 <= q < ids@.len() && ids@[q] == rv[i as int].id as i64;
                }
            }
            let ghost pre = rows_view(kept@);
            let ghost pre_srcs = srcs@;
            if !listed {
                kept.push(take_row(&mut self.rows, i));
                srcs = Ghost(pre_srcs.push(i as int));
                proof {
                    assert(rows_view(kept@) =~~= pre.push(rv[i as int]));
                }
            }
            proof {
                reveal(Seq::filter);
                assert(rv.take(i + 1).drop_last() =~= rv.take(i as int));
                assert(rv.take(i + 1).last() == rv[i as int]);
            }
            i += 1;
        }
        proof {
            assert(rv.take(rv.len() as int) =~= rv);
            let kv = rows_view(kept@);
            assert forall|a: int, b: int| 0 <= a < b < kv.len() implies kv[a].id < kv[b].id
                && kv[a].filepath != kv[b].filepath by {
                assert(kv[a] == rv[srcs@[a]] && kv[b] == rv[srcs@[b]]);
                assert(old(self)@[srcs@[a]].id < old(self)@[srcs@[b]].id);
                assert(old(self)@[srcs@[a]].filepath != old(self)@[srcs@[b]].filepath);
            }
            assert forall|a: int| 0 <= a < kv.len() implies 1 <= #[trigger] kv[a].id
                < self.next_id by {
                assert(kv[a] == rv[srcs@[a]]);
                assert(1 <= old(self)@[srcs@[a]].id < old(self).next_id);
            }
        }
        let n = self.rows.len() - kept.len();
        self.rows = kept;
        proof {
            Seq::lemma_filter_len(rv, |r: RowModel| !ids@.contains(r.id as i64));
        }
        n
    }

    /// Moves one image to a new location on disk: path, name and parent
    /// directory are rewritten.
    pub fn update_image_location(
        &mut self,
        image_id: i64,
        new_filepath: &str,
        new_filename: &str,
        new_directory: &str,
    ) -> (moved: bool)
        requires
            old(self).wf(),
            forall|j: int| 0 <= j < old(self)@.len() ==> #[trigger] old(self)@[j].filepath
                != new_filepath@,
        ensures
            final(self).wf(),
            final(self)@.len() == old(self)@.len(),
            forall|j: int|
                0 <= j < old(self)@.len() ==> #[trigger] final(self)@[j] == (if old(
                    self,
                )@[j].id == image_id as int {
                    RowModel {
                        filepath: new_filepath@,
                        filename: new_filename@,
                        directory: new_directory@,
                        ..old(self)@[j]
                    }
                } else {
                    old(self)@[j]
                }),
            moved == exists|j: int|
                0 <= j < old(self)@.len() && #[trigger] old(self)@[j].id == image_id as int,
    {
        let mut i: usize = 0;
        let mut moved: bool = false;
        while i < self.rows.len()
            invariant
                0 <= i <= self.rows@.len(),
                self.next_id == old(self).next_id,
                self.tag_names@ == old(self).tag_names@,
                old(self).wf(),
                rows_view(self.rows@).len() == old(self)@.len(),
                moved == exists|j: int|
                    0 <= j < i && #[trigger] old(self)@[j].id == image_id as int,
                forall|j: int|
                    0 <= j < old(self)@.len() ==> #[trigger] rows_view(self.rows@)[j] == (if j < i
                        && old(self)@[j].id == image_id as int {
                        RowModel {
                            filepath: new_filepath@,
                            filename: new_filename@,
                            directory: new_directory@,
                            ..old(self)@[j]
                        }
                    } else {
                        old(self)@[j]
                    }),
            decreases self.rows.len() - i,
        {
            if self.rows[i].id == image_id {
                let ghost pre_rows = rows_view(self.rows@);
                let updated = StoredImage {
                    filepath: new_filepath.to_owned(),
                    filename: new_filename.to_owned(),
                    directory: new_directory.to_owned(),
                    ..take_row(&mut self.rows, i)
                };
                self.rows.set(i, updated);
                moved = true;
                proof {
                    assert(rows_view(self.rows@)[i as int] =~~= (RowModel {
                        filepath: new_filepath@,
                        filename: new_filename@,
                        directory: new_directory@,
                        ..pre_rows[i as int]
                    }));
                    assert(old(self)@[i as int].id == image_id as int);
                    assert forall|j: int| 0 <= j < old(self)@.len() implies #[trigger] rows_view(
                        self.rows@,
                    )[j] == (if j < i + 1 && old(self)@[j].id == image_id as int {
                        RowModel {
                            filepath: new_filepath@,
                            filename: new_filename@,
                            directory: new_directory@,
                            ..old(self)@[j]
                        }
                    } else {
                        old(self)@[j]
                    }) by {
                        if j != i {
                            assert(rows_view(self.rows@)[j] == pre_rows[j]);
                        }
                    }
                }
            }
            i += 1;
        }
        proof {
            assert forall|a: int, b: int| 0 <= a < b < self@.len() implies self@[a].id
                < self@[b].id && self@[a].filepath != self@[b].filepath by {
                assert(old(self)@[a].id < old(self)@[b].id);
                assert(old(self)@[a].filepath != old(self)@[b].filepath);
            }
            assert forall|a: int| 0 <= a < self@.len() implies 1 <= #[trigger] self@[a].id
                < self.next_id by {
                assert(1 <= old(self)@[a].id < old(self).next_id);
            }
        }
        moved
    }

    /// Tag names for autocomplete: the sorted registry, optionally
    /// restricted to a lower-cased prefix, first `limit` entries.
    pub fn list_tags(&self, prefix: Option<&str>, limit: u32) -> (r: Vec<String>)
        requires
            self.wf(),
        ensures
            ({
                let all = views_of_vecs(self.tag_names@);
                let wanted = match prefix {
                    Some(p) => all.filter(
                        |t: Seq<char>| crate::text::has_prefix(
                            t,
                            lower_seq(trim_seq(p@)),
                        ),
                    ),
                    None => all,
                };
                string_views(r@) =~= if wanted.len() <= limit {
                    wanted
                } else {
                    wanted.take(limit as int)
                }
            }),
    {
        let ghost all = views_of_vecs(self.tag_names@);
        let mut matched: Vec<String> = Vec::new();
        match prefix {
            Some(p) => {
                let pv = to_ascii_lower(&trim(&chars_vec(p)));
                let ghost lam = |t: Seq<char>| crate::text::has_prefix(
                    t,
                    lower_seq(trim_seq(p@)),
                );
                let mut i: usize = 0;
                proof {
                    reveal(Seq::filter);
                    assert(string_views(matched@) =~= all.take(0).filter(lam));
                }
                while i < self.tag_names.len()
                    invariant
                        0 <= i <= self.tag_names@.len(),
                        all == views_of_vecs(self.tag_names@),
                        pv@ == lower_seq(trim_seq(p@)),
                        lam == (|t: Seq<char>| crate::text::has_prefix(
                            t,
                            lower_seq(trim_seq(p@)),
                        )),
                        string_views(matched@) =~= all.take(i as int).filter(lam),
                    decreases self.tag_names.len() - i,
                {
                    let ghost pre = string_views(matched@);
                    if crate::text::has_prefix_exec(&self.tag_names[i], &pv) {
                        matched.push(string_from_chars(&self.tag_names[i]));
                        proof {
                            assert(string_views(matched@) =~~= pre.push(all[i as int]));
                        }
                    }
                    proof {
                        reveal(Seq::filter);
                        assert(all.take(i + 1).drop_last() =~= all.take(i as int));
                        assert(all.take(i + 1).last() == all[i as int]);
                    }
                    i += 1;
                }
                proof {
                    assert(all.take(all.len() as int) =~= all);
                }
            },
            None => {
                let mut i: usize = 0;
                while i < self.tag_names.len()
                    invariant
                        0 <= i <= self.tag_names@.len(),
                        all == views_of_vecs(self.tag_names@),
                        string_views(matched@) =~= all.take(i as int),
                    decreases self.tag_names.len() - i,
                {
                    let ghost pre = string_views(matched@);
                    matched.push(string_from_chars(&self.tag_names[i]));
                    proof {
                        assert(string_views(matched@) =~~= pre.push(all[i as int]));
                        assert(all.take(i + 1) =~~= all.take(i as int).push(all[i as int]));
                    }
                    i += 1;
                }
                proof {
                    assert(all.take(all.len() as int) =~= all);
                }
            },
        }
        if matched.len() <= limit as usize {
            return matched;
        }
        let mut out: Vec<String> = Vec::new();
        let mut k: usize = 0;
        while k < limit as usize
            invariant
                0 <= k <= limit,
                (limit as int) < matched@.len(),
                string_views(out@) =~= string_views(matched@).take(k as int),
            decreases limit as usize - k,
        {
            let ghost pre = string_views(out@);
            out.push(matched[k].clone());
            proof {
                assert(string_views(out@) =~~= pre.push(matched@[k as int]@));
                assert(string_views(matched@).take(k + 1) =~~= string_views(matched@).take(
                    k as int,
                ).push(string_views(matched@)[k as int]));
            }
            k += 1;
        }
        out
    }
}

// ─────────────────────── stated laws ───────────────────────

/// Bulk upsert of records with fresh, pairwise-distinct filepaths grows
/// the table by exactly the number of records; every other upsert keyed
/// by an already-stored filepath leaves the count unchanged.
pub proof fn lemma_bulk_upsert_count(rows: Seq<RowModel>, next_id: int, recs: Seq<BulkModel>, i: int)
    requires
        0 <= i <= recs.len(),
        forall|a: int, b: int| i <= a < b < recs.len() ==> #[trigger] recs[a].filepath
            != #[trigger] recs[b].filepath,
        forall|a: int, j: int|
            i <= a < recs.len() && 0 <= j < rows.len() ==> #[trigger] recs[a].filepath
                != #[trigger] rows[j].filepath,
    ensures
        bulk_fold(rows, next_id, recs, i).0.len() == rows.len() + (recs.len() - i),
    decreases recs.len() - i,
{
    if i < recs.len() {
        lemma_idx_of_path(rows, recs[i].filepath);
        match idx_of_path(rows, recs[i].filepath) {
            Some(j) => {
                assert(rows[j].filepath == recs[i].filepath);
                assert(false);
            },
            None => {
                let step = upsert_rows(rows, next_id, recs[i]);
                assert(step.0 =~= rows.push(row_from_record(recs[i], next_id)));
                assert forall|a: int, j: int|
                    i + 1 <= a < recs.len() && 0 <= j < step.0.len() implies #[trigger] recs[
                    a].filepath != #[trigger] step.0[j].filepath by {
                    if j < rows.len() {
                        assert(step.0[j] == rows[j]);
                    } else {
                        assert(step.0[j].filepath == recs[i].filepath);
                    }
                }
                lemma_bulk_upsert_count(step.0, step.1, recs, i + 1);
            },
        }
    }
}

/// Re-upserting an already-stored filepath overwrites that row in place:
/// the count, the row's id and the user flags are kept, while every other
/// field and the tag set come from the record alone.
pub proof fn lemma_upsert_existing(rows: Seq<RowModel>, next_id: int, b: BulkModel, j: int)
    requires
        0 <= j < rows.len(),
        rows[j].filepath == b.filepath,
        forall|a: int, c: int|
            0 <= a < c < rows.len() ==> #[trigger] rows[a].filepath != #[trigger] rows[c].filepath,
    ensures
        upsert_rows(rows, next_id, b).0.len() == rows.len(),
        upsert_rows(rows, next_id, b).1 == next_id,
        upsert_rows(rows, next_id, b).0[j] == (RowModel {
            id: rows[j].id,
            favorite: rows[j].favorite,
            locked: rows[j].locked,
            ..row_from_record(b, rows[j].id)
        }),
        upsert_rows(rows, next_id, b).0[j].tags == norm_tags_of(b.tags),
        forall|c: int|
            0 <= c < rows.len() && c != j ==> upsert_rows(rows, next_id, b).0[c] == rows[c],
{
    lemma_idx_of_path(rows, b.filepath);
    match idx_of_path(rows, b.filepath) {
        Some(k) => {
            if k != j {
                assert(rows[k].filepath == rows[j].filepath);
                if k < j {
                    assert(rows[k].filepath != rows[j].filepath);
                } else {
                    assert(rows[j].filepath != rows[k].filepath);
                }
            }
            assert(k == j);
        },
        None => {
            assert(false);
        },
    }
}

/// A freshly inserted record carries exactly the most recently supplied
/// tag set, normalized and deduplicated.
pub proof fn lemma_upsert_fresh_tags(rows: Seq<RowModel>, next_id: int, b: BulkModel)
    requires
        forall|j: int| 0 <= j < rows.len() ==> #[trigger] rows[j].filepath != b.filepath,
    ensures
        upsert_rows(rows, next_id, b).0.len() == rows.len() + 1,
        upsert_rows(rows, next_id, b).0[rows.len() as int].tags == norm_tags_of(b.tags),
        upsert_rows(rows, next_id, b).1 == next_id + 1,
{
    lemma_idx_of_path(rows, b.filepath);
    match idx_of_path(rows, b.filepath) {
        Some(k) => {
            assert(rows[k].filepath == b.filepath);
            assert(false);
        },
        None => {},
    }
}

/// A served page is empty exactly when nothing satisfies the predicate
/// after the cursor (or the limit is zero): the substring fallback runs
/// if and only if the ranked page is empty.
pub proof fn lemma_page_empty_iff(
    rows: Seq<RowModel>,
    pred: spec_fn(RowModel) -> bool,
    cfg: crate::query::SortConfig,
    cur: crate::search::CursorModel,
    limit: int,
    sel: Seq<RowModel>,
)
    requires
        crate::search::is_page(rows, pred, cfg, cur, limit, sel),
    ensures
        sel.len() == 0 <==> crate::search::page_empty(rows, pred, cfg, cur, limit),
{
    if sel.len() == 0 {
        if !crate::search::page_empty(rows, pred, cfg, cur, limit) {
            let j = choose|j: int|
                0 <= j < rows.len() && #[trigger] pred(rows[j]) && crate::search::after_cursor(
                    cfg,
                    cur,
                    rows[j],
                );
            assert(sel.contains(rows[j]) || (sel.len() == limit && (limit == 0
                || crate::search::row_lt(cfg, sel[sel.len() - 1], rows[j]))));
            assert(false);
        }
    } else {
        assert(rows.contains(sel[0]) && pred(sel[0]) && crate::search::after_cursor(
            cfg,
            cur,
            sel[0],
        ));
        let w = choose|w: int| 0 <= w < rows.len() && rows[w] == sel[0];
    }
}

/// Decoding the token of a page's last row lands exactly after that row
/// in the output order.
pub proof fn lemma_cursor_lands_after(cfg: crate::query::SortConfig, last: RowModel, r: RowModel)
    requires
        i64::MIN <= last.id <= i64::MAX,
    ensures
        crate::search::after_cursor(
            cfg,
            crate::search::cursor_model_of(crate::search::cursor_of_row(cfg, last)),
            r,
        ) == crate::search::row_lt(cfg, last, r),
{
    crate::search::lemma_cursor_roundtrip(cfg, last);
}

/// Keyset pagination makes progress without duplicates: every row of the
/// page requested with the previous page's token comes strictly after
/// that page's last row, and the two pages share no row.
pub proof fn lemma_cursor_pages_disjoint(
    rows: Seq<RowModel>,
    pred: spec_fn(RowModel) -> bool,
    cfg: crate::query::SortConfig,
    limit: int,
    p1: Seq<RowModel>,
    p2: Seq<RowModel>,
)
    requires
        crate::search::is_page(rows, pred, cfg, crate::search::CursorModel::Fresh, limit, p1),
        p1.len() > 0,
        i64::MIN <= p1[p1.len() - 1].id <= i64::MAX,
        crate::search::is_page(
            rows,
            pred,
            cfg,
            crate::search::cursor_model_of(
                crate::search::cursor_of_row(cfg, p1[p1.len() - 1]),
            ),
            limit,
            p2,
        ),
    ensures
        forall|j: int|
            0 <= j < p2.len() ==> crate::search::row_lt(cfg, p1[p1.len() - 1], #[trigger] p2[j]),
        forall|i: int, j: int| 0 <= i < p1.len() && 0 <= j < p2.len() ==> p1[i] != p2[j],
{
    let last = p1[p1.len() - 1];
    assert forall|j: int| 0 <= j < p2.len() implies crate::search::row_lt(
        cfg,
        last,
        #[trigger] p2[j],
    ) by {
        lemma_cursor_lands_after(cfg, last, p2[j]);
    }
    assert forall|i: int, j: int| 0 <= i < p1.len() && 0 <= j < p2.len() implies p1[i] != p2[j]
        by {
        if p1[i] == p2[j] {
            lemma_cursor_lands_after(cfg, last, p2[j]);
            assert(crate::search::row_lt(cfg, last, p1[i]));
            if i < p1.len() - 1 {
                assert(crate::search::row_lt(cfg, p1[i], last));
                crate::search::lemma_row_lt_trans(cfg, last, p1[i], last);
            }
            lemma_row_lt_irrefl(cfg, last);
            assert(false);
        }
    }
}

// ─────────────────────── group-by rankings ───────────────────────

/// Strict usage order: more uses first, names ascending on a tie.
pub open spec fn count_lt(a: (Seq<char>, u32), b: (Seq<char>, u32)) -> bool {
    a.1 > b.1 || (a.1 == b.1 && crate::search::lex_lt(a.0, b.0))
}

pub open spec fn count_pair_views(v: Seq<(Vec<char>, u32)>) -> Seq<(Seq<char>, u32)> {
    v.map_values(|p: (Vec<char>, u32)| (p.0@, p.1))
}

proof fn lemma_count_lt_total(a: (Seq<char>, u32), b: (Seq<char>, u32))
    requires
        a.0 != b.0,
    ensures
        count_lt(a, b) || count_lt(b, a),
        !(count_lt(a, b) && count_lt(b, a)),
{
    crate::text::lemma_lex_le_total(a.0, b.0);
}

/// Orders (name, count) pairs by usage; names must be pairwise distinct.
fn rank_by_count(pairs: &Vec<(Vec<char>, u32)>) -> (out: Vec<(Vec<char>, u32)>)
    requires
        forall|a: int, b: int|
            0 <= a < b < pairs@.len() ==> count_pair_views(pairs@)[a].0 != count_pair_views(
                pairs@,
            )[b].0,
    ensures
        exists|srcs: Seq<int>| ranking_of(count_pair_views(pairs@), srcs, count_pair_views(out@)),
{
    let ghost pv = count_pair_views(pairs@);
    let mut out: Vec<(Vec<char>, u32)> = Vec::new();
    let mut srcs: Ghost<Seq<int>> = Ghost(Seq::empty());
    let mut j: usize = 0;
    while j < pairs.len()
        invariant
            0 <= j <= pairs@.len(),
            pv == count_pair_views(pairs@),
            forall|a: int, b: int| 0 <= a < b < pv.len() ==> pv[a].0 != pv[b].0,
            srcs@.len() == out@.len(),
            forall|p: int| 0 <= p < srcs@.len() ==> 0 <= #[trigger] srcs@[p] < j,
            forall|p: int|
                0 <= p < srcs@.len() ==> count_pair_views(out@)[p] == pv[#[trigger] srcs@[p]],
            forall|p: int, q: int|
                0 <= p < q < srcs@.len() ==> srcs@[p] != srcs@[q],
            forall|p: int, q: int|
                0 <= p < q < out@.len() ==> count_lt(
                    count_pair_views(out@)[p],
                    count_pair_views(out@)[q],
                ),
            forall|x: int| 0 <= x < j ==> srcs@.contains(x),
        decreases pairs.len() - j,
    {
        let item = (clone_chars(&pairs[j].0), pairs[j].1);
        proof {
            assert((item.0@, item.1) == pv[j as int]);
        }
        let mut k: usize = 0;
        loop
            invariant_except_break
                0 <= k <= out@.len(),
                pv == count_pair_views(pairs@),
                item.0@ == pv[j as int].0,
                item.1 == pv[j as int].1,
                j < pairs@.len(),
                srcs@.len() == out@.len(),
                forall|p: int| 0 <= p < srcs@.len() ==> 0 <= #[trigger] srcs@[p] < j,
                forall|p: int|
                    0 <= p < srcs@.len() ==> count_pair_views(out@)[p] == pv[#[trigger] srcs@[p]],
                forall|a: int, b: int| 0 <= a < b < pv.len() ==> pv[a].0 != pv[b].0,
                forall|p: int|
                    0 <= p < k ==> count_lt(#[trigger] count_pair_views(out@)[p], pv[j as int]),
            ensures
                0 <= k <= out@.len(),
                forall|p: int|
                    0 <= p < k ==> count_lt(#[trigger] count_pair_views(out@)[p], pv[j as int]),
                k < out@.len() ==> !count_lt(count_pair_views(out@)[k as int], pv[j as int]),
            decreases out.len() - k,
        {
            if k >= out.len() {
                break ;
            }
            let before = out[k].1 > item.1 || (out[k].1 == item.1 && crate::text::lex_le_exec(
                &out[k].0,
                &item.0,
            ) && !crate::text::seq_eq(&out[k].0, &item.0));
            proof {
                assert(count_pair_views(out@)[k as int] == (out@[k as int].0@, out@[k as int].1));
            }
            if !before {
                break ;
            }
            k += 1;
        }
        let ghost pre = count_pair_views(out@);
        let ghost pre_srcs = srcs@;
        proof {
            if k < pre.len() {
                assert(pre[k as int] == pv[srcs@[k as int]]);
                assert(pv[srcs@[k as int]].0 != pv[j as int].0) by {
                    if srcs@[k as int] < j {
                    }
                }
                lemma_count_lt_total(pre[k as int], pv[j as int]);
            }
        }
        out.insert(k, item);
        srcs = Ghost(pre_srcs.insert(k as int, j as int));
        proof {
            let post = count_pair_views(out@);
            assert(post.len() == pre.len() + 1);
            assert forall|p: int| 0 <= p < post.len() implies #[trigger] post[p] == (if p < k {
                pre[p]
            } else if p == k {
                pv[j as int]
            } else {
                pre[p - 1]
            }) by {
                if p == k {
                    assert(out@[k as int] == (out@[k as int].0, out@[k as int].1));
                    assert(post[p] == (out@[k as int].0@, out@[k as int].1));
                }
            }
            assert forall|p: int| 0 <= p < srcs@.len() implies #[trigger] srcs@[p] == (if p < k {
                pre_srcs[p]
            } else if p == k {
                j as int
            } else {
                pre_srcs[p - 1]
            }) by {}
            assert forall|p: int, q: int| 0 <= p < q < post.len() implies count_lt(
                post[p],
                post[q],
            ) by {
                if q < k {
                } else if p < k && q == k {
                } else if p == k {
                    if q - 1 > k {
                        assert(!count_lt(pre[k as int], pv[j as int]));
                        assert(pre[k as int].0 == pv[pre_srcs[k as int]].0);
                        assert(pre[k as int].0 != pv[j as int].0);
                        lemma_count_lt_total(pre[k as int], pv[j as int]);
                        assert(count_lt(pv[j as int], pre[k as int]));
                        assert(count_lt(pre[k as int], pre[q - 1]));
                        lemma_count_lt_trans(pv[j as int], pre[k as int], pre[q - 1]);
                    } else {
                        assert(!count_lt(pre[k as int], pv[j as int]));
                        assert(pre[k as int].0 != pv[j as int].0);
                        lemma_count_lt_total(pre[k as int], pv[j as int]);
                    }
                } else if p < k && k < q {
                } else {
                }
            }
            assert forall|x: int| 0 <= x < j + 1 implies srcs@.contains(x) by {
                if x == j {
                    assert(srcs@[k as int] == x);
                } else {
                    assert(pre_srcs.contains(x));
                    let w = choose|w: int| 0 <= w < pre_srcs.len() && pre_srcs[w] == x;
                    if w < k {
                        assert(srcs@[w] == x);
                    } else {
                        assert(srcs@[w + 1] == x);
                    }
                }
            }
            assert forall|p: int, q: int| 0 <= p < q < srcs@.len() implies srcs@[p] != srcs@[q]
                by {
                assert(count_pair_views(out@)[p] == pv[srcs@[p]]);
                assert(count_pair_views(out@)[q] == pv[srcs@[q]]);
                assert(count_lt(count_pair_views(out@)[p], count_pair_views(out@)[q]));
            }
        }
        j += 1;
    }
    proof {
        assert(ranking_of(pv, srcs@, count_pair_views(out@)));
    }
    out
}

proof fn lemma_count_lt_trans(a: (Seq<char>, u32), b: (Seq<char>, u32), c: (Seq<char>, u32))
    requires
        count_lt(a, b),
        count_lt(b, c),
    ensures
        count_lt(a, c),
{
    if a.1 == b.1 && b.1 == c.1 {
        crate::text::lemma_lex_le_trans(a.0, b.0, c.0);
        crate::text::lemma_lex_le_total(a.0, b.0);
        crate::text::lemma_lex_le_total(b.0, c.0);
        if a.0 == c.0 {
            crate::text::lemma_lex_le_trans(b.0, c.0, a.0);
            crate::text::lemma_lex_le_total(a.0, b.0);
        }
    }
}

/// `ranked` is a reordering of `pairs` sorted by usage.
pub open spec fn ranking_of(
    pairs: Seq<(Seq<char>, u32)>,
    srcs: Seq<int>,
    ranked: Seq<(Seq<char>, u32)>,
) -> bool {
    &&& ranked.len() == srcs.len()
    &&& forall|p: int| 0 <= p < srcs.len() ==> 0 <= #[trigger] srcs[p] < pairs.len()
    &&& forall|p: int| 0 <= p < srcs.len() ==> ranked[p] == pairs[#[trigger] srcs[p]]
    &&& forall|p: int, q: int| 0 <= p < q < ranked.len() ==> count_lt(ranked[p], ranked[q])
    &&& forall|x: int| 0 <= x < pairs.len() ==> srcs.contains(x)
}

fn clone_chars(v: &Vec<char>) -> (r: Vec<char>)
    ensures
        r@ == v@,
{
    let mut r: Vec<char> = Vec::new();
    crate::text::append_vec(&mut r, v);
    r
}

/// How many rows carry the tag.
pub open spec fn tag_count(rows: Seq<RowModel>, tag: Seq<char>) -> int {
    rows.filter(|r: RowModel| r.tags.contains(tag)).len() as int
}

/// How many rows sit in the directory.
pub open spec fn dir_count(rows: Seq<RowModel>, dir: Seq<char>) -> int {
    rows.filter(|r: RowModel| r.directory == dir).len() as int
}

/// The grouping key of a row's model: its name, or a placeholder.
pub open spec fn model_key(r: RowModel) -> Seq<char> {
    match r.params.model_name {
        Some(m) => m,
        None => "Unknown"@,
    }
}

pub open spec fn model_count(rows: Seq<RowModel>, key: Seq<char>) -> int {
    rows.filter(|r: RowModel| model_key(r) == key).len() as int
}

/// A usage table: entries sorted by usage, each counted exactly, one for
/// every key the domain admits with a positive count.
pub open spec fn usage_table_ok(
    domain: Set<Seq<char>>,
    count_of: spec_fn(Seq<char>) -> int,
    table: Seq<(Seq<char>, u32)>,
) -> bool {
    &&& forall|p: int, q: int| 0 <= p < q < table.len() ==> count_lt(table[p], table[q])
    &&& forall|p: int|
        0 <= p < table.len() ==> domain.contains(#[trigger] table[p].0) && table[p].1 as int
            == count_of(table[p].0) && table[p].1 > 0
    &&& forall|t: Seq<char>|
        domain.contains(t) && count_of(t) > 0 ==> exists|p: int|
            0 <= p < table.len() && #[trigger] table[p].0 == t
}

impl Database {
    fn count_rows_with_tag(&self, tag: &Vec<char>) -> (n: u32)
        requires
            self@.len() <= u32::MAX,
        ensures
            n as int == tag_count(self@, tag@),
    {
        let ghost rv = self@;
        let ghost lam = |r: RowModel| r.tags.contains(tag@);
        let mut n: u32 = 0;
        let mut i: usize = 0;
        proof {
            reveal(Seq::filter);
            assert(rv.take(0).filter(lam).len() == 0);
        }
        while i < self.rows.len()
            invariant
                0 <= i <= self.rows@.len(),
                rv == self@,
                rv.len() <= u32::MAX,
                lam == (|r: RowModel| r.tags.contains(tag@)),
                n as int == rv.take(i as int).filter(lam).len(),
                n <= i,
            decreases self.rows.len() - i,
        {
            if crate::search::row_has_tag(&self.rows[i], tag) {
                n += 1;
            }
            proof {
                reveal(Seq::filter);
                assert(rv.take(i + 1).drop_last() =~= rv.take(i as int));
                assert(rv.take(i + 1).last() == rv[i as int]);
                Seq::lemma_filter_len(rv.take(i + 1), lam);
            }
            i += 1;
        }
        proof {
            assert(rv.take(rv.len() as int) =~= rv);
        }
        n
    }

    /// The most used tags: counted exactly, ordered by use then name,
    /// first `limit` entries.
    pub fn get_top_tags(&self, limit: u32) -> (r: Vec<TagCount>)
        requires
            self.wf(),
            self@.len() <= u32::MAX,
        ensures
            exists|table: Seq<(Seq<char>, u32)>|
                #![auto]
                usage_table_ok(
                    views_of_vecs(self.tag_names@).to_set(),
                    |t: Seq<char>| tag_count(self@, t),
                    table,
                ) && tag_count_views(r@) == (if table.len() <= limit {
                    table
                } else {
                    table.take(limit as int)
                }),
    {
        let ghost domain = views_of_vecs(self.tag_names@).to_set();
        let ghost count_of = |t: Seq<char>| tag_count(self@, t);
        let mut pairs: Vec<(Vec<char>, u32)> = Vec::new();
        let mut names_used: Ghost<Seq<int>> = Ghost(Seq::empty());
        let mut i: usize = 0;
        while i < self.tag_names.len()
            invariant
                0 <= i <= self.tag_names@.len(),
                self.wf(),
                self@.len() <= u32::MAX,
                domain == views_of_vecs(self.tag_names@).to_set(),
                count_of == (|t: Seq<char>| tag_count(self@, t)),
                names_used@.len() == pairs@.len(),
                forall|p: int| 0 <= p < names_used@.len() ==> 0 <= #[trigger] names_used@[p] < i,
                forall|p: int, q: int|
                    0 <= p < q < names_used@.len() ==> names_used@[p] < names_used@[q],
                forall|p: int|
                    0 <= p < names_used@.len() ==> count_pair_views(pairs@)[p].0 == views_of_vecs(
                        self.tag_names@,
                    )[#[trigger] names_used@[p]],
                forall|p: int|
                    0 <= p < pairs@.len() ==> count_pair_views(pairs@)[p].1 as int == count_of(
                        #[trigger] count_pair_views(pairs@)[p].0,
                    ) && count_pair_views(pairs@)[p].1 > 0,
                forall|w: int|
                    0 <= w < i && count_of(#[trigger] views_of_vecs(self.tag_names@)[w]) > 0
                        ==> names_used@.contains(w),
            decreases self.tag_names.len() - i,
        {
            let n = self.count_rows_with_tag(&self.tag_names[i]);
            let ghost pre = count_pair_views(pairs@);
            let ghost pre_used = names_used@;
            if n > 0 {
                pairs.push((clone_chars(&self.tag_names[i]), n));
                names_used = Ghost(pre_used.push(i as int));
                proof {
                    assert(count_pair_views(pairs@) =~~= pre.push(
                        (views_of_vecs(self.tag_names@)[i as int], n),
                    ));
                    assert forall|w: int|
                        0 <= w < i + 1 && count_of(
                            #[trigger] views_of_vecs(self.tag_names@)[w],
                        ) > 0 implies names_used@.contains(w) by {
                        if w == i {
                            assert(names_used@[names_used@.len() - 1] == w);
                        } else {
                            assert(pre_used.contains(w));
                            let p = choose|p: int| 0 <= p < pre_used.len() && pre_used[p] == w;
                            assert(names_used@[p] == w);
                        }
                    }
                }
            } else {
                proof {
                    assert forall|w: int|
                        0 <= w < i + 1 && count_of(
                            #[trigger] views_of_vecs(self.tag_names@)[w],
                        ) > 0 implies names_used@.contains(w) by {
                        assert(w != i);
                    }
                }
            }
            i += 1;
        }
        proof {
            assert forall|p: int|
                0 <= p < pairs@.len() implies domain.contains(
                #[trigger] count_pair_views(pairs@)[p].0,
            ) by {
                assert(count_pair_views(pairs@)[p].0 == views_of_vecs(
                    self.tag_names@,
                )[names_used@[p]]);
                assert(views_of_vecs(self.tag_names@).contains(
                    views_of_vecs(self.tag_names@)[names_used@[p]],
                ));
            }
            assert forall|a: int, b: int|
                0 <= a < b < pairs@.len() implies count_pair_views(pairs@)[a].0
                != count_pair_views(pairs@)[b].0 by {
                assert(names_used@[a] < names_used@[b]);
                assert(views_of_vecs(self.tag_names@).len() == self.tag_names@.len());
                assert(0 <= names_used@[a]);
                assert(names_used@[b] < views_of_vecs(self.tag_names@).len());
                assert(crate::tags::strictly_sorted(views_of_vecs(self.tag_names@)));
                assert(crate::text::lex_le(
                    views_of_vecs(self.tag_names@)[names_used@[a]],
                    views_of_vecs(self.tag_names@)[names_used@[b]],
                ) && views_of_vecs(self.tag_names@)[names_used@[a]] != views_of_vecs(
                    self.tag_names@,
                )[names_used@[b]]);
            }
        }
        let ranked = rank_by_count(&pairs);
        let ghost table = count_pair_views(ranked@);
        proof {
            let srcs = choose|srcs: Seq<int>|
                ranking_of(count_pair_views(pairs@), srcs, count_pair_views(ranked@));
            assert forall|t: Seq<char>|
                domain.contains(t) && count_of(t) > 0 implies exists|p: int|
                    0 <= p < table.len() && #[trigger] table[p].0 == t by {
                let w = choose|w: int|
                    0 <= w < views_of_vecs(self.tag_names@).len() && views_of_vecs(
                        self.tag_names@,
                    )[w] == t;
                assert(names_used@.contains(w));
                let x = choose|x: int| 0 <= x < names_used@.len() && names_used@[x] == w;
                assert(count_pair_views(pairs@)[x].0 == t);
                assert(srcs.contains(x));
                let p = choose|p: int| 0 <= p < srcs.len() && srcs[p] == x;
                assert(table[p].0 == t);
            }
            assert forall|p: int|
                0 <= p < table.len() implies domain.contains(#[trigger] table[p].0) && table[
            p].1 as int == count_of(table[p].0) && table[p].1 > 0 by {
                assert(table[p] == count_pair_views(pairs@)[srcs[p]]);
                assert(domain.contains(count_pair_views(pairs@)[srcs[p]].0));
                assert(count_pair_views(pairs@)[srcs[p]].1 as int == count_of(
                    count_pair_views(pairs@)[srcs[p]].0,
                ));
            }
            assert(usage_table_ok(domain, count_of, table));
        }
        let cut: usize = if ranked.len() <= limit as usize {
            ranked.len()
        } else {
            limit as usize
        };
        let mut r: Vec<TagCount> = Vec::new();
        let mut k: usize = 0;
        while k < cut
            invariant
                0 <= k <= cut <= ranked@.len(),
                table == count_pair_views(ranked@),
                tag_count_views(r@) == table.take(k as int),
            decreases cut - k,
        {
            let ghost pre = tag_count_views(r@);
            r.push(TagCount { tag: string_from_chars(&ranked[k].0), count: ranked[k].1 });
            proof {
                assert(tag_count_views(r@) =~~= pre.push(table[k as int]));
                assert(table.take(k + 1) =~= table.take(k as int).push(table[k as int]));
            }
            k += 1;
        }
        proof {
            if table.len() <= limit {
                assert(table.take(cut as int) =~= table);
            }
        }
        r
    }
}

pub open spec fn tag_count_views(v: Seq<TagCount>) -> Seq<(Seq<char>, u32)> {
    v.map_values(|t: TagCount| (t.tag@, t.count))
}

pub open spec fn dir_entry_views(v: Seq<DirectoryEntry>) -> Seq<(Seq<char>, u32)> {
    v.map_values(|d: DirectoryEntry| (d.directory@, d.count))
}

pub open spec fn model_entry_views(v: Seq<ModelEntry>) -> Seq<(Seq<char>, u32)> {
    v.map_values(|m: ModelEntry| (m.model_name@, m.count))
}

/// The distinct values of a per-row key.
pub open spec fn key_domain(rows: Seq<RowModel>, key_of: spec_fn(RowModel) -> Seq<char>) -> Set<
    Seq<char>,
> {
    rows.map_values(key_of).to_set()
}

impl Database {
    fn count_rows_where(&self, key: &Vec<char>, by_model: bool) -> (n: u32)
        requires
            self@.len() <= u32::MAX,
        ensures
            !by_model ==> n as int == dir_count(self@, key@),
            by_model ==> n as int == model_count(self@, key@),
    {
        let ghost rv = self@;
        let ghost lam = if by_model {
            |r: RowModel| model_key(r) == key@
        } else {
            |r: RowModel| r.directory == key@
        };
        let mut n: u32 = 0;
        let mut i: usize = 0;
        proof {
            reveal(Seq::filter);
            assert(rv.take(0).filter(lam).len() == 0);
        }
        while i < self.rows.len()
            invariant
                0 <= i <= self.rows@.len(),
                rv == self@,
                rv.len() <= u32::MAX,
                lam == if by_model {
                    |r: RowModel| model_key(r) == key@
                } else {
                    |r: RowModel| r.directory == key@
                },
                n as int == rv.take(i as int).filter(lam).len(),
                n <= i,
            decreases self.rows.len() - i,
        {
            let hit = if by_model {
                match &self.rows[i].params.model_name {
                    Some(m) => seq_eq(&chars_vec(m.as_str()), key),
                    None => seq_eq(&chars_vec("Unknown"), key),
                }
            } else {
                seq_eq(&chars_vec(self.rows[i].directory.as_str()), key)
            };
            if hit {
                n += 1;
            }
            proof {
                assert(hit == lam(rv[i as int]));
                reveal(Seq::filter);
                assert(rv.take(i + 1).drop_last() =~= rv.take(i as int));
                assert(rv.take(i + 1).last() == rv[i as int]);
                Seq::lemma_filter_len(rv.take(i + 1), lam);
            }
            i += 1;
        }
        proof {
            assert(rv.take(rv.len() as int) =~= rv);
        }
        n
    }

    fn collect_keys(&self, by_model: bool) -> (keys: Vec<Vec<char>>)
        ensures
            crate::tags::strictly_sorted(views_of_vecs(keys@)),
            !by_model ==> views_of_vecs(keys@).to_set() =~= key_domain(
                self@,
                |r: RowModel| r.directory,
            ),
            by_model ==> views_of_vecs(keys@).to_set() =~= key_domain(
                self@,
                |r: RowModel| model_key(r),
            ),
    {
        let ghost key_of = if by_model {
            |r: RowModel| model_key(r)
        } else {
            |r: RowModel| r.directory
        };
        let mut keys: Vec<Vec<char>> = Vec::new();
        let mut i: usize = 0;
        proof {
            assert(views_of_vecs(keys@) =~= Seq::<Seq<char>>::empty());
            assert(views_of_vecs(keys@).to_set() =~= self@.map_values(key_of).take(0).to_set());
        }
        while i < self.rows.len()
            invariant
                0 <= i <= self.rows@.len(),
                key_of == if by_model {
                    |r: RowModel| model_key(r)
                } else {
                    |r: RowModel| r.directory
                },
                crate::tags::strictly_sorted(views_of_vecs(keys@)),
                views_of_vecs(keys@).to_set() =~= self@.map_values(key_of).take(i as int).to_set(),
            decreases self.rows.len() - i,
        {
            let key = if by_model {
                match &self.rows[i].params.model_name {
                    Some(m) => chars_vec(m.as_str()),
                    None => chars_vec("Unknown"),
                }
            } else {
                chars_vec(self.rows[i].directory.as_str())
            };
            proof {
                assert(key@ == key_of(self@[i as int]));
                assert(key@ == self@.map_values(key_of)[i as int]);
            }
            crate::tags::tag_insert(&mut keys, key);
            proof {
                assert(self@.map_values(key_of).take(i + 1) =~= self@.map_values(key_of).take(
                    i as int,
                ).push(self@.map_values(key_of)[i as int]));
                Seq::lemma_to_set_insert_commutes(
                    self@.map_values(key_of).take(i as int),
                    self@.map_values(key_of)[i as int],
                );
                assert(self@.map_values(key_of).take(i as int).push(
                    self@.map_values(key_of)[i as int],
                ) =~= self@.map_values(key_of).take(i as int) + seq![
                    self@.map_values(key_of)[i as int],
                ]);
            }
            i += 1;
        }
        proof {
            assert(self@.map_values(key_of).take(self@.len() as int) =~= self@.map_values(key_of));
        }
        keys
    }

    fn ranked_key_counts(&self, by_model: bool) -> (ranked: Vec<(Vec<char>, u32)>)
        requires
            self.wf(),
            self@.len() <= u32::MAX,
        ensures
            !by_model ==> usage_table_ok(
                key_domain(self@, |r: RowModel| r.directory),
                |t: Seq<char>| dir_count(self@, t),
                count_pair_views(ranked@),
            ),
            by_model ==> usage_table_ok(
                key_domain(self@, |r: RowModel| model_key(r)),
                |t: Seq<char>| model_count(self@, t),
                count_pair_views(ranked@),
            ),
    {
        let ghost domain = if by_model {
            key_domain(self@, |r: RowModel| model_key(r))
        } else {
            key_domain(self@, |r: RowModel| r.directory)
        };
        let ghost count_of = if by_model {
            |t: Seq<char>| model_count(self@, t)
        } else {
            |t: Seq<char>| dir_count(self@, t)
        };
        let names = self.collect_keys(by_model);
        let mut pairs: Vec<(Vec<char>, u32)> = Vec::new();
        let mut names_used: Ghost<Seq<int>> = Ghost(Seq::empty());
        let mut i: usize = 0;
        while i < names.len()
            invariant
                0 <= i <= names@.len(),
                self.wf(),
                self@.len() <= u32::MAX,
                crate::tags::strictly_sorted(views_of_vecs(names@)),
                views_of_vecs(names@).to_set() =~= domain,
                domain == if by_model {
                    key_domain(self@, |r: RowModel| model_key(r))
                } else {
                    key_domain(self@, |r: RowModel| r.directory)
                },
                count_of == if by_model {
                    |t: Seq<char>| model_count(self@, t)
                } else {
                    |t: Seq<char>| dir_count(self@, t)
                },
                names_used@.len() == pairs@.len(),
                forall|p: int| 0 <= p < names_used@.len() ==> 0 <= #[trigger] names_used@[p] < i,
                forall|p: int, q: int|
                    0 <= p < q < names_used@.len() ==> names_used@[p] < names_used@[q],
                forall|p: int|
                    0 <= p < names_used@.len() ==> count_pair_views(pairs@)[p].0 == views_of_vecs(
                        names@,
                    )[#[trigger] names_used@[p]],
                forall|p: int|
                    0 <= p < pairs@.len() ==> count_pair_views(pairs@)[p].1 as int == count_of(
                        #[trigger] count_pair_views(pairs@)[p].0,
                    ) && count_pair_views(pairs@)[p].1 > 0,
                forall|w: int|
                    0 <= w < i && count_of(#[trigger] views_of_vecs(names@)[w]) > 0
                        ==> names_used@.contains(w),
            decreases names.len() - i,
        {
            let n = self.count_rows_where(&names[i], by_model);
            let ghost pre = count_pair_views(pairs@);
            let ghost pre_used = names_used@;
            if n > 0 {
                pairs.push((clone_chars(&names[i]), n));
                names_used = Ghost(pre_used.push(i as int));
                proof {
                    assert(count_pair_views(pairs@) =~~= pre.push(
                        (views_of_vecs(names@)[i as int], n),
                    ));
                    assert forall|w: int|
                        0 <= w < i + 1 && count_of(#[trigger] views_of_vecs(names@)[w]) > 0
                            implies names_used@.contains(w) by {
                        if w == i {
                            assert(names_used@[names_used@.len() - 1] == w);
                        } else {
                            assert(pre_used.contains(w));
                            let p = choose|p: int| 0 <= p < pre_used.len() && pre_used[p] == w;
                            assert(names_used@[p] == w);
                        }
                    }
                }
            } else {
                proof {
                    assert forall|w: int|
                        0 <= w < i + 1 && count_of(#[trigger] views_of_vecs(names@)[w]) > 0
                            implies names_used@.contains(w) by {
                        assert(w != i);
                    }
                }
            }
            i += 1;
        }
        proof {
            assert forall|p: int|
                0 <= p < pairs@.len() implies domain.contains(
                #[trigger] count_pair_views(pairs@)[p].0,
            ) by {
                assert(count_pair_views(pairs@)[p].0 == views_of_vecs(names@)[names_used@[p]]);
                assert(views_of_vecs(names@).contains(views_of_vecs(names@)[names_used@[p]]));
            }
            assert forall|a: int, b: int|
                0 <= a < b < pairs@.len() implies count_pair_views(pairs@)[a].0
                != count_pair_views(pairs@)[b].0 by {
                assert(names_used@[a] < names_used@[b]);
                assert(views_of_vecs(names@).len() == names@.len());
                assert(0 <= names_used@[a]);
                assert(names_used@[b] < views_of_vecs(names@).len());
                assert(crate::text::lex_le(
                    views_of_vecs(names@)[names_used@[a]],
                    views_of_vecs(names@)[names_used@[b]],
                ) && views_of_vecs(names@)[names_used@[a]] != views_of_vecs(
                    names@,
                )[names_used@[b]]);
            }
        }
        let ranked = rank_by_count(&pairs);
        let ghost table = count_pair_views(ranked@);
        proof {
            let srcs = choose|srcs: Seq<int>|
                ranking_of(count_pair_views(pairs@), srcs, count_pair_views(ranked@));
            assert forall|t: Seq<char>|
                domain.contains(t) && count_of(t) > 0 implies exists|p: int|
                    0 <= p < table.len() && #[trigger] table[p].0 == t by {
                let w = choose|w: int|
                    0 <= w < views_of_vecs(names@).len() && views_of_vecs(names@)[w] == t;
                assert(names_used@.contains(w));
                let x = choose|x: int| 0 <= x < names_used@.len() && names_used@[x] == w;
                assert(count_pair_views(pairs@)[x].0 == t);
                assert(srcs.contains(x));
                let p = choose|p: int| 0 <= p < srcs.len() && srcs[p] == x;
                assert(table[p].0 == t);
            }
            assert forall|p: int|
                0 <= p < table.len() implies domain.contains(#[trigger] table[p].0) && table[
            p].1 as int == count_of(table[p].0) && table[p].1 > 0 by {
                assert(table[p] == count_pair_views(pairs@)[srcs[p]]);
                assert(domain.contains(count_pair_views(pairs@)[srcs[p]].0));
                assert(count_pair_views(pairs@)[srcs[p]].1 as int == count_of(
                    count_pair_views(pairs@)[srcs[p]].0,
                ));
            }
            assert(usage_table_ok(domain, count_of, table));
        }
        ranked
    }

    /// Distinct directories with image counts, most used first.
    pub fn get_unique_directories(&self) -> (r: Vec<DirectoryEntry>)
        requires
            self.wf(),
            self@.len() <= u32::MAX,
        ensures
            usage_table_ok(
                key_domain(self@, |row: RowModel| row.directory),
                |t: Seq<char>| dir_count(self@, t),
                dir_entry_views(r@),
            ),
    {
        let ranked = self.ranked_key_counts(false);
        let ghost table = count_pair_views(ranked@);
        let mut r: Vec<DirectoryEntry> = Vec::new();
        let mut k: usize = 0;
        while k < ranked.len()
            invariant
                0 <= k <= ranked@.len(),
                table == count_pair_views(ranked@),
                dir_entry_views(r@) == table.take(k as int),
            decreases ranked.len() - k,
        {
            let ghost pre = dir_entry_views(r@);
            r.push(DirectoryEntry {
                directory: string_from_chars(&ranked[k].0),
                count: ranked[k].1,
            });
            proof {
                assert(dir_entry_views(r@) =~~= pre.push(table[k as int]));
                assert(table.take(k + 1) =~= table.take(k as int).push(table[k as int]));
            }
            k += 1;
        }
        proof {
            assert(table.take(table.len() as int) =~= table);
        }
        r
    }

    /// Distinct model names with image counts, most used first; unnamed
    /// models group under a placeholder.
    pub fn get_unique_models(&self) -> (r: Vec<ModelEntry>)
        requires
            self.wf(),
            self@.len() <= u32::MAX,
        ensures
            usage_table_ok(
                key_domain(self@, |row: RowModel| model_key(row)),
                |t: Seq<char>| model_count(self@, t),
                model_entry_views(r@),
            ),
    {
        let ranked = self.ranked_key_counts(true);
        let ghost table = count_pair_views(ranked@);
        let mut r: Vec<ModelEntry> = Vec::new();
        let mut k: usize = 0;
        while k < ranked.len()
            invariant
                0 <= k <= ranked@.len(),
                table == count_pair_views(ranked@),
                model_entry_views(r@) == table.take(k as int),
            decreases ranked.len() - k,
        {
            let ghost pre = model_entry_views(r@);
            r.push(ModelEntry {
                model_name: string_from_chars(&ranked[k].0),
                count: ranked[k].1,
            });
            proof {
                assert(model_entry_views(r@) =~~= pre.push(table[k as int]));
                assert(table.take(k + 1) =~= table.take(k as int).push(table[k as int]));
            }
            k += 1;
        }
        proof {
            assert(table.take(table.len() as int) =~= table);
        }
        r
    }
}

/// Pairwise-distinct filepaths.
pub open spec fn paths_unique(rows: Seq<RowModel>) -> bool {
    forall|a: int, b: int| 0 <= a < b < rows.len() ==> rows[a].filepath != rows[b].filepath
}

/// One upsert keeps filepaths pairwise distinct and leaves every row of a
/// different filepath untouched.
proof fn lemma_upsert_other_rows(rows: Seq<RowModel>, next_id: int, b: BulkModel)
    requires
        paths_unique(rows),
    ensures
        paths_unique(upsert_rows(rows, next_id, b).0),
        forall|x: int|
            0 <= x < rows.len() && #[trigger] rows[x].filepath != b.filepath ==> exists|y: int|
                0 <= y < upsert_rows(rows, next_id, b).0.len() && #[trigger] upsert_rows(
                    rows,
                    next_id,
                    b,
                ).0[y] == rows[x],
{
    lemma_idx_of_path(rows, b.filepath);
    let post = upsert_rows(rows, next_id, b).0;
    match idx_of_path(rows, b.filepath) {
        Some(j) => {
            assert(post[j].filepath == b.filepath);
            assert forall|a: int, c: int| 0 <= a < c < post.len() implies post[a].filepath
                != post[c].filepath by {
                if a != j {
                    assert(post[a] == rows[a]);
                }
                if c != j {
                    assert(post[c] == rows[c]);
                }
            }
            assert forall|x: int|
                0 <= x < rows.len() && #[trigger] rows[x].filepath != b.filepath implies exists|
                y: int,
            |
                0 <= y < post.len() && #[trigger] post[y] == rows[x] by {
                assert(x != j);
                assert(post[x] == rows[x]);
            }
        },
        None => {
            assert forall|a: int, c: int| 0 <= a < c < post.len() implies post[a].filepath
                != post[c].filepath by {
                if c < post.len() - 1 {
                    assert(post[a] == rows[a] && post[c] == rows[c]);
                } else {
                    assert(post[a] == rows[a]);
                    assert(post[c].filepath == b.filepath);
                    assert(rows[a].filepath != b.filepath);
                }
            }
            assert forall|x: int|
                0 <= x < rows.len() && #[trigger] rows[x].filepath != b.filepath implies exists|
                y: int,
            |
                0 <= y < post.len() && #[trigger] post[y] == rows[x] by {
                assert(post[x] == rows[x]);
            }
        },
    }
}

/// Folding records none of which carry the filepath leaves the row with
/// that filepath exactly as it is.
proof fn lemma_bulk_preserves_row(
    rows: Seq<RowModel>,
    next_id: int,
    recs: Seq<BulkModel>,
    i: int,
    x: int,
)
    requires
        0 <= i <= recs.len(),
        paths_unique(rows),
        0 <= x < rows.len(),
        forall|j: int| i <= j < recs.len() ==> #[trigger] recs[j].filepath != rows[x].filepath,
    ensures
        exists|y: int|
            0 <= y < bulk_fold(rows, next_id, recs, i).0.len() && #[trigger] bulk_fold(
                rows,
                next_id,
                recs,
                i,
            ).0[y] == rows[x],
    decreases recs.len() - i,
{
    if i >= recs.len() {
        assert(bulk_fold(rows, next_id, recs, i).0[x] == rows[x]);
    } else {
        let step = upsert_rows(rows, next_id, recs[i]);
        assert(bulk_fold(rows, next_id, recs, i) == bulk_fold(step.0, step.1, recs, i + 1));
        lemma_upsert_other_rows(rows, next_id, recs[i]);
        assert(rows[x].filepath != recs[i].filepath);
        let y = choose|y: int| 0 <= y < step.0.len() && #[trigger] step.0[y] == rows[x];
        lemma_bulk_preserves_row(step.0, step.1, recs, i + 1, y);
        let z = choose|z: int|
            0 <= z < bulk_fold(step.0, step.1, recs, i + 1).0.len() && #[trigger] bulk_fold(
                step.0,
                step.1,
                recs,
                i + 1,
            ).0[z] == rows[x];
        assert(bulk_fold(rows, next_id, recs, i).0[z] == rows[x]);
    }
}

/// Tag associations after a bulk upsert equal exactly the most recently
/// supplied tag set: for every record whose filepath is not repeated by a
/// later record of the batch, the folded table holds a row with that
/// filepath whose tags are the record's normalized, deduplicated tags —
/// earlier associations are replaced, none accumulate.
pub proof fn lemma_bulk_tags_last(
    rows: Seq<RowModel>,
    next_id: int,
    recs: Seq<BulkModel>,
    i: int,
    k: int,
)
    requires
        0 <= i <= k < recs.len(),
        paths_unique(rows),
        forall|j: int| k < j < recs.len() ==> #[trigger] recs[j].filepath != recs[k].filepath,
    ensures
        exists|y: int|
            0 <= y < bulk_fold(rows, next_id, recs, i).0.len() && #[trigger] bulk_fold(
                rows,
                next_id,
                recs,
                i,
            ).0[y].filepath == recs[k].filepath && bulk_fold(rows, next_id, recs, i).0[y].tags
                == norm_tags_of(recs[k].tags),
    decreases recs.len() - i,
{
    let step = upsert_rows(rows, next_id, recs[i]);
    assert(bulk_fold(rows, next_id, recs, i) == bulk_fold(step.0, step.1, recs, i + 1));
    lemma_upsert_other_rows(rows, next_id, recs[i]);
    lemma_idx_of_path(rows, recs[i].filepath);
    if i == k {
        let x: int = match idx_of_path(rows, recs[k].filepath) {
            Some(j) => j,
            None => rows.len() as int,
        };
        assert(step.0[x].filepath == recs[k].filepath);
        assert(step.0[x].tags == norm_tags_of(recs[k].tags));
        lemma_bulk_preserves_row(step.0, step.1, recs, i + 1, x);
        let y = choose|y: int|
            0 <= y < bulk_fold(step.0, step.1, recs, i + 1).0.len() && #[trigger] bulk_fold(
                step.0,
                step.1,
                recs,
                i + 1,
            ).0[y] == step.0[x];
        assert(bulk_fold(rows, next_id, recs, i).0[y] == step.0[x]);
    } else {
        lemma_bulk_tags_last(step.0, step.1, recs, i + 1, k);
        let y = choose|y: int|
            0 <= y < bulk_fold(step.0, step.1, recs, i + 1).0.len() && #[trigger] bulk_fold(
                step.0,
                step.1,
                recs,
                i + 1,
            ).0[y].filepath == recs[k].filepath && bulk_fold(step.0, step.1, recs, i + 1).0[
            y].tags == norm_tags_of(recs[k].tags);
        assert(bulk_fold(rows, next_id, recs, i).0[y].filepath == recs[k].filepath);
    }
}

} // verus!
