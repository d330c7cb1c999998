//! Scan-pass support: exact changed-file detection over stored mtimes.
//!
//! A file is reprocessed if and only if its modification time differs
//! from the stored value or no value is stored, so re-scanning an
//! unchanged directory performs no further work.

use crate::text::chars_vec;
use crate::text::seq_eq;
use vstd::prelude::*;

verus! {

/// One file found by the directory walk: its path and the identity the
/// change detector compares.
pub struct ScannedFile {
    pub path: String,
    pub file_mtime: Option<i64>,
    pub file_size: Option<i64>,
}

/// Mathematical model of a scanned file.
#[verifier::ext_equal]
pub ghost struct ScannedModel {
    pub path: Seq<char>,
    pub file_mtime: Option<i64>,
    pub file_size: Option<i64>,
}

impl View for ScannedFile {
    type V = ScannedModel;

    open spec fn view(&self) -> ScannedModel {
        ScannedModel { path: self.path@, file_mtime: self.file_mtime, file_size: self.file_size }
    }
}

pub open spec fn scanned_views(v: Seq<ScannedFile>) -> Seq<ScannedModel> {
    v.map_values(|f: ScannedFile| f@)
}

pub open spec fn mtime_views(v: Seq<(String, i64)>) -> Seq<(Seq<char>, i64)> {
    v.map_values(|p: (String, i64)| (p.0@, p.1))
}

/// The stored mtime of a path, if any pair holds it.
pub open spec fn stored_mtime(stored: Seq<(Seq<char>, i64)>, path: Seq<char>) -> Option<i64>
    decreases stored.len(),
{
    if stored.len() == 0 {
        None
    } else if stored[0].0 == path {
        Some(stored[0].1)
    } else {
        stored_mtime(stored.skip(1), path)
    }
}

/// A file must be reprocessed unless its current mtime is known and
/// equals the stored one.
pub open spec fn needs_reindex(current: Option<i64>, stored: Option<i64>) -> bool {
    !(current matches Some(c) && stored matches Some(s) && c == s)
}

fn lookup_stored(stored: &Vec<(String, i64)>, path: &Vec<char>) -> (r: Option<i64>)
    ensures
        r == stored_mtime(mtime_views(stored@), path@),
{
    let mut i: usize = 0;
    proof {
        assert(mtime_views(stored@).skip(0) =~= mtime_views(stored@));
    }
    while i < stored.len()
        invariant
            0 <= i <= stored@.len(),
            stored_mtime(mtime_views(stored@), path@) == stored_mtime(
                mtime_views(stored@).skip(i as int),
                path@,
            ),
        decreases stored.len() - i,
    {
        proof {
            assert(mtime_views(stored@).skip(i as int)[0] == mtime_views(stored@)[i as int]);
            assert(mtime_views(stored@).skip(i as int).skip(1) =~= mtime_views(stored@).skip(
                i + 1,
            ));
        }
        if seq_eq(&chars_vec(stored[i].0.as_str()), path) {
            return Some(stored[i].1);
        }
        i += 1;
    }
    None
}

/// Keeps exactly the files whose mtime differs from the stored value or
/// that have no stored value.
pub fn filter_changed(files: Vec<ScannedFile>, stored: &Vec<(String, i64)>) -> (r: Vec<
    ScannedFile,
>)
    ensures
        scanned_views(r@) =~= scanned_views(files@).filter(
            |f: ScannedModel| needs_reindex(
                f.file_mtime,
                stored_mtime(mtime_views(stored@), f.path),
            ),
        ),
{
    let ghost fv = scanned_views(files@);
    let ghost lam = |f: ScannedModel| needs_reindex(
        f.file_mtime,
        stored_mtime(mtime_views(stored@), f.path),
    );
    let mut out: Vec<ScannedFile> = Vec::new();
    let mut i: usize = 0;
    proof {
        reveal(Seq::filter);
        assert(scanned_views(out@) =~= fv.take(0).filter(lam));
    }
    for i in 0..files.len()
        invariant
            fv == scanned_views(files@),
            lam == (|f: ScannedModel| needs_reindex(
                f.file_mtime,
                stored_mtime(mtime_views(stored@), f.path),
            )),
            scanned_views(out@) =~= fv.take(i as int).filter(lam),
    {
        let ghost pre = scanned_views(out@);
        let path = chars_vec(files[i].path.as_str());
        let keep = match (files[i].file_mtime, lookup_stored(stored, &path)) {
            (Some(c), Some(s)) => c != s,
            _ => true,
        };
        if keep {
            out.push(ScannedFile {
                path: files[i].path.clone(),
                file_mtime: files[i].file_mtime,
                file_size: files[i].file_size,
            });
            proof {
                assert(scanned_views(out@) =~~= pre.push(fv[i as int]));
            }
        }
        proof {
            reveal(Seq::filter);
            assert(fv.take(i + 1).drop_last() =~= fv.take(i as int));
            assert(fv.take(i + 1).last() == fv[i as int]);
            assert(keep == lam(fv[i as int]));
        }
    }
    proof {
        assert(fv.take(fv.len() as int) =~= fv);
    }
    out
}

/// Re-scanning an unchanged set touches nothing: when every file's mtime
/// equals its stored value, the changed-file filter keeps no file, so no
/// metadata is re-parsed and no upsert is written.
pub proof fn lemma_unchanged_scan_is_empty(files: Seq<ScannedModel>, stored: Seq<(Seq<char>, i64)>)
    requires
        forall|i: int|
            0 <= i < files.len() ==> (#[trigger] files[i].file_mtime matches Some(c)
                && stored_mtime(stored, files[i].path) == Some(c)),
    ensures
        files.filter(
            |f: ScannedModel| needs_reindex(f.file_mtime, stored_mtime(stored, f.path)),
        ).len() == 0,
    decreases files.len(),
{
    reveal(Seq::filter);
    if files.len() > 0 {
        assert(forall|i: int|
            0 <= i < files.drop_last().len() ==> #[trigger] files.drop_last()[i]
                == files[i]);
        lemma_unchanged_scan_is_empty(files.drop_last(), stored);
        assert(!needs_reindex(
            files.last().file_mtime,
            stored_mtime(stored, files.last().path),
        ));
    }
}

/// Counts reported when a scan pass completes.
pub struct ScanResult {
    pub total_files: usize,
    pub indexed: usize,
    pub errors: usize,
}

/// Counts reported when an export completes.
pub struct ExportResult {
    pub exported_count: usize,
    pub output_path: String,
}

} // verus!
