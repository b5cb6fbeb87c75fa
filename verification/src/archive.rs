//! The rules of archive extraction: where each extracted file goes, which
//! entries of an archive are extracted and how, the records handed back for
//! them, their order, the progress reports, and the bookkeeping of the
//! temporary directories a session creates.
//!
//! Reading archives and writing files is done by the caller; every decision
//! about what to read, where to write and what to report is made here.

use vstd::prelude::*;
use crate::media::{
    entry_name, file_name, file_name_chars, file_name_or, file_name_or_default, file_stem_or,
    file_stem_or_default, image_word, is_image_path, is_pdf_path, is_rar_path, is_supported_archive,
    is_supported_image, is_supported_pdf, is_supported_rar, is_zip_path, join, join_path,
    is_sep, lemma_same_path_refl, paths_equal, safe_relative, safe_relative_path, same_path,
    sanitize_name, sanitized, archive_word,
};
use crate::sorting::{lemma_filter_all, lemma_same_classes_permutation, stable_sort_by_keys, stably_sorted};
use crate::text::{
    seq_le,
    append_chars, chars_of, decimal, decimal_chars, lemma_decimal_digits, lowercase_of, string_of,
    to_lowercase,
};

verus! {

// ───────────────────────── records ─────────────────────────

/// A file the viewer can open, as handed to the front end.
pub struct ExtractedFile {
    pub path: String,
    pub name: String,
    pub size: u64,
}

/// How far an extraction has come.
pub struct ExtractProgress {
    pub current: usize,
    pub total: usize,
}

/// The events of the first phase of an extraction: progress, the final list
/// of images and nested archives, or an error.
pub enum Phase1Event {
    Progress { current: usize, total: usize },
    Done { images: Vec<ExtractedFile>, nested_archives: Vec<String> },
    Error { message: String },
}

/// `f` records the file at `path`, shown as `name`, of `size` bytes.
pub open spec fn records(f: ExtractedFile, path: Seq<char>, name: Seq<char>, size: u64) -> bool {
    f.path@ == path && f.name@ == name && f.size == size
}

/// The record of an extracted file written to `out` from the archive entry
/// `rel`: its name is the entry's file name (or `image`).
pub fn extracted_file(out: &str, rel: &str, size: u64) -> (f: ExtractedFile)
    ensures
        records(f, out@, file_name_or(rel@, image_word()), size),
{
    ExtractedFile { path: out.to_owned(), name: entry_name(rel), size }
}

/// Appends the record of the extracted file `out` (entry `rel`) to `images`.
pub fn push_image(out: &str, rel: &str, size: u64, images: &mut Vec<ExtractedFile>)
    ensures
        final(images)@.len() == old(images)@.len() + 1,
        final(images)@.take(old(images)@.len() as int) == old(images)@,
        records(final(images)@.last(), out@, file_name_or(rel@, image_word()), size),
{
    let f = extracted_file(out, rel, size);
    images.push(f);
    assert(images@.take(old(images)@.len() as int) =~= old(images)@);
}

/// The key by which files are listed: the path in lower case.
pub open spec fn path_key() -> spec_fn(ExtractedFile) -> Seq<char> {
    |f: ExtractedFile| lowercase_of(f.path@)
}

/// Sorts files by their lower-cased path, keeping the order of files whose
/// lower-cased paths are equal.
pub fn sort_by_path(files: &mut Vec<ExtractedFile>)
    ensures
        stably_sorted(final(files)@, old(files)@, path_key()),
{
    let mut keys: Vec<Vec<char>> = Vec::new();
    let mut i: usize = 0;
    while i < files.len()
        invariant
            i <= files.len(),
            keys.len() == i,
            forall|j: int| 0 <= j < i ==> (#[trigger] keys@[j])@ == lowercase_of(files@[j].path@),
        decreases files.len() - i,
    {
        let lower = to_lowercase(files[i].path.as_str());
        keys.push(chars_of(lower.as_str()));
        i = i + 1;
    }
    let mut taken: Vec<ExtractedFile> = Vec::new();
    std::mem::swap(&mut taken, files);
    let sorted = stable_sort_by_keys(taken, keys, Ghost(path_key()));
    *files = sorted;
}

/// Whether the lower-case form of a path is `k`.
pub open spec fn file_with_lowercase_path(k: Seq<char>) -> spec_fn(ExtractedFile) -> bool {
    |f: ExtractedFile| lowercase_of(f.path@) == k
}

/// Law of `sort_by_path`: the files come out in the order of their whole
/// paths in lower case (not of their file names, nor of the paths as
/// written); no file is lost or added, and files whose lower-case paths are
/// equal keep their order.
pub proof fn law_sort_by_path_orders_by_lowercase_path(files: &mut Vec<ExtractedFile>)
    requires
        call_ensures(sort_by_path, (files,), ()),
    ensures
        forall|i: int, j: int|
            0 <= i < j < final(files)@.len() ==> seq_le(
                lowercase_of(#[trigger] final(files)@[i].path@),
                lowercase_of(#[trigger] final(files)@[j].path@),
            ),
        final(files)@.to_multiset() == old(files)@.to_multiset(),
        final(files)@.len() == old(files)@.len(),
        forall|k: Seq<char>|
            #[trigger] final(files)@.filter(file_with_lowercase_path(k)) == old(files)@.filter(file_with_lowercase_path(k)),
{
    lemma_same_classes_permutation(final(files)@, old(files)@, path_key());
    assert forall|k: Seq<char>|
        #[trigger] final(files)@.filter(file_with_lowercase_path(k)) == old(files)@.filter(file_with_lowercase_path(k)) by {
        assert(crate::sorting::has_key(path_key(), k) =~= file_with_lowercase_path(k));
        assert(final(files)@.filter(crate::sorting::has_key(path_key(), k)) == old(files)@.filter(
            crate::sorting::has_key(path_key(), k),
        ));
    }
    final(files)@.to_multiset_ensures();
    old(files)@.to_multiset_ensures();
}

// ───────────────────────── session directories ─────────────────────────

/// The temporary directories created during a session, in the order they
/// were created; they are deleted when the session is cleared or ends.
pub struct ExtractState {
    pub session_dirs: Vec<String>,
}

/// The directories that are not the path `dir`, in order (paths are
/// compared as `Path`s are, component by component).
pub open spec fn without_dir(dirs: Seq<String>, dir: Seq<char>) -> Seq<String> {
    dirs.filter(other_than(dir))
}

pub open spec fn other_than(dir: Seq<char>) -> spec_fn(String) -> bool {
    |d: String| !same_path(d@, dir)
}

impl ExtractState {
    pub fn new() -> (s: Self)
        ensures
            s.session_dirs@ == Seq::<String>::empty(),
    {
        ExtractState { session_dirs: Vec::new() }
    }

    /// Records a newly created directory.
    pub fn register(&mut self, dir: String)
        ensures
            final(self).session_dirs@ == old(self).session_dirs@.push(dir),
    {
        self.session_dirs.push(dir);
    }

    /// Hands back every recorded directory, in order, for deletion, and
    /// forgets them all.
    pub fn take_all(&mut self) -> (dirs: Vec<String>)
        ensures
            dirs@ == old(self).session_dirs@,
            final(self).session_dirs@ == Seq::<String>::empty(),
    {
        let mut dirs: Vec<String> = Vec::new();
        std::mem::swap(&mut dirs, &mut self.session_dirs);
        dirs
    }

    /// Forgets every record of the path `dir` (it is deleted by the caller),
    /// however it is spelled, keeping the other directories in order.
    pub fn forget(&mut self, dir: &str)
        ensures
            final(self).session_dirs@ == without_dir(old(self).session_dirs@, dir@),
    {
        let ghost before = self.session_dirs@;
        let mut kept: Vec<String> = Vec::new();
        let mut i: usize = 0;
        reveal(Seq::filter);
        assert(before.take(0) =~= Seq::<String>::empty());
        while i < self.session_dirs.len()
            invariant
                i <= self.session_dirs.len(),
                self.session_dirs@ == before,
                kept@ == without_dir(before.take(i as int), dir@),
            decreases self.session_dirs.len() - i,
        {
            assert(before.take(i + 1) =~= before.take(i as int).push(before[i as int]));
            proof {
                before.take(i as int).lemma_filter_push(before[i as int], other_than(dir@));
            }
            if !paths_equal(self.session_dirs[i].as_str(), dir) {
                kept.push(self.session_dirs[i].clone());
            }
            i = i + 1;
        }
        assert(before.take(before.len() as int) =~= before);
        self.session_dirs = kept;
    }
}

/// Registering a directory that was not recorded and then forgetting it
/// leaves the records as they were.
pub proof fn lemma_register_then_forget(dirs: Seq<String>, dir: String)
    requires
        forall|i: int| 0 <= i < dirs.len() ==> !same_path((#[trigger] dirs[i])@, dir@),
    ensures
        without_dir(dirs.push(dir), dir@) == dirs,
{
    let pred = other_than(dir@);
    lemma_same_path_refl(dir@);
    dirs.lemma_filter_push(dir, pred);
    lemma_filter_all(dirs, pred);
}

/// After forgetting `dir`, no record of that path is left, and every record
/// of another path is still there.
pub proof fn lemma_forget_exact(dirs: Seq<String>, dir: Seq<char>)
    ensures
        forall|i: int|
            0 <= i < without_dir(dirs, dir).len() ==> !same_path(
                (#[trigger] without_dir(dirs, dir)[i])@,
                dir,
            ),
        forall|i: int|
            0 <= i < dirs.len() && !same_path((#[trigger] dirs[i])@, dir) ==> without_dir(
                dirs,
                dir,
            ).contains(dirs[i]),
{
    let pred = other_than(dir);
    assert forall|i: int| 0 <= i < without_dir(dirs, dir).len() implies !same_path(
        (#[trigger] without_dir(dirs, dir)[i])@,
        dir,
    ) by {
        dirs.lemma_filter_pred(pred, i);
    }
    assert forall|i: int|
        0 <= i < dirs.len() && !same_path((#[trigger] dirs[i])@, dir) implies without_dir(dirs, dir).contains(
        dirs[i],
    ) by {
        dirs.lemma_filter_contains(pred, i);
    }
}

// ───────────────────────── directory and file names ─────────────────────────

/// Name of the directory under the system temporary directory that holds
/// everything the viewer extracts.
pub open spec fn app_dir_word() -> Seq<char> {
    seq!['v', 'i', 'e', 'w', 'e', 'r', '-', 'o', 'n', '-', 't', 'a', 'u', 'r', 'i']
}

/// The directory that holds everything the viewer extracts.
pub fn temp_root(temp_dir: &str) -> (r: String)
    ensures
        r@ == join_path(temp_dir@, app_dir_word()),
{
    let w = vec!['v', 'i', 'e', 'w', 'e', 'r', '-', 'o', 'n', '-', 't', 'a', 'u', 'r', 'i'];
    assert(w@ =~= app_dir_word());
    let name = string_of(&w);
    join(temp_dir, name.as_str())
}

/// `{timestamp}-{sanitized name}`: the name of the directory an archive is
/// extracted into.
pub open spec fn extract_dir_name_of(timestamp_ms: nat, archive_name: Seq<char>) -> Seq<char> {
    decimal(timestamp_ms) + seq!['-'] + sanitized(archive_name)
}

pub fn extract_dir_name(timestamp_ms: u128, archive_name: &str) -> (r: String)
    ensures
        r@ == extract_dir_name_of(timestamp_ms as nat, archive_name@),
{
    let mut out = decimal_chars(timestamp_ms);
    out.push('-');
    let safe = sanitize_name(archive_name);
    let safe_chars = chars_of(safe.as_str());
    append_chars(&mut out, &safe_chars);
    string_of(&out)
}

/// The directory an archive named `archive_name` is extracted into, under
/// the temporary directory `temp_dir`, at time `timestamp_ms`.
pub fn extract_dir_path(temp_dir: &str, timestamp_ms: u128, archive_name: &str) -> (r: String)
    ensures
        r@ == join_path(
            join_path(temp_dir@, app_dir_word()),
            extract_dir_name_of(timestamp_ms as nat, archive_name@),
        ),
{
    let root = temp_root(temp_dir);
    let name = extract_dir_name(timestamp_ms, archive_name);
    join(root.as_str(), name.as_str())
}

/// The two directories of an extraction to a folder: the session directory,
/// recorded for deletion, and the folder inside it named after the archive.
pub struct FolderExtraction {
    pub session_dir: String,
    pub extract_dir: String,
}

/// The directories for extracting the archive at `archive_path` into a
/// folder: `{temp}/viewer-on-tauri/{timestamp}-{sanitized file name}/{stem}`,
/// with `archive` standing for a missing file name or stem.
pub fn folder_extraction(temp_dir: &str, timestamp_ms: u128, archive_path: &str) -> (r: FolderExtraction)
    ensures
        r.session_dir@ == join_path(
            join_path(temp_dir@, app_dir_word()),
            extract_dir_name_of(timestamp_ms as nat, file_name_or(archive_path@, archive_word())),
        ),
        r.extract_dir@ == join_path(r.session_dir@, file_stem_or(archive_path@, archive_word())),
{
    let archive = vec!['a', 'r', 'c', 'h', 'i', 'v', 'e'];
    assert(archive@ =~= archive_word());
    let archive = string_of(&archive);
    let file_name = file_name_or_default(archive_path, archive.as_str());
    let stem = file_stem_or_default(archive_path, archive.as_str());
    let session_dir = extract_dir_path(temp_dir, timestamp_ms, file_name.as_str());
    let extract_dir = join(session_dir.as_str(), stem.as_str());
    FolderExtraction { session_dir, extract_dir }
}

/// The name under which an archive given by name is recorded and the
/// sub-directory its entries go to when it is opened from a path: the file
/// name and the stem of the path, `archive` standing for either when missing.
pub fn archive_names(archive_path: &str) -> (r: (String, String))
    ensures
        r.0@ == file_name_or(archive_path@, archive_word()),
        r.1@ == file_stem_or(archive_path@, archive_word()),
{
    let archive = vec!['a', 'r', 'c', 'h', 'i', 'v', 'e'];
    assert(archive@ =~= archive_word());
    let archive = string_of(&archive);
    (
        file_name_or_default(archive_path, archive.as_str()),
        file_stem_or_default(archive_path, archive.as_str()),
    )
}

pub open spec fn rar_suffix() -> Seq<char> {
    seq!['.', 'r', 'a', 'r']
}

/// Where a rar archive handed over as bytes is written before it is opened:
/// `{extract_dir}/{sanitized name}.rar`.
pub fn temp_rar_path(extract_dir: &str, archive_name: &str) -> (r: String)
    ensures
        r@ == join_path(extract_dir@, sanitized(archive_name@) + rar_suffix()),
{
    let safe = sanitize_name(archive_name);
    let mut name = chars_of(safe.as_str());
    let suffix = vec!['.', 'r', 'a', 'r'];
    assert(suffix@ =~= rar_suffix());
    append_chars(&mut name, &suffix);
    let name = string_of(&name);
    join(extract_dir, name.as_str())
}

pub open spec fn nested_word() -> Seq<char> {
    seq!['n', 'e', 's', 't', 'e', 'd']
}

/// The stem of a nested archive, or `nested`: the name of the directory its
/// images are streamed into.
pub fn nested_stem(archive_path: &str) -> (r: String)
    ensures
        r@ == file_stem_or(archive_path@, nested_word()),
{
    let w = vec!['n', 'e', 's', 't', 'e', 'd'];
    assert(w@ =~= nested_word());
    let w = string_of(&w);
    file_stem_or_default(archive_path, w.as_str())
}

// ───────────────────────── what to do with each entry ─────────────────────────

/// The relative path under which a rar entry is extracted: its safe
/// relative path when it is a file; `None` (the entry is skipped) for a
/// directory or a name without a name component.
pub fn rar_entry_rel(is_file: bool, filename: &str) -> (r: Option<String>)
    ensures
        match r {
            Some(rel) => is_file && safe_relative(filename@) == Some(rel@),
            None => !is_file || safe_relative(filename@) is None,
        },
{
    if is_file {
        safe_relative_path(filename)
    } else {
        None
    }
}

/// How extracting an entry of a rar archive during the first phase went.
pub enum RarOutcome {
    /// The entry was handled as its action said: written where it said, or
    /// passed over when it said skip.
    AsPlanned,
    /// The directory of an image could not be made, so the entry was passed
    /// over.
    Skipped,
    /// Writing the entry failed, which ends the first phase.
    Failed,
}

/// What the first phase of an extraction does with an entry.
pub enum OuterEntry {
    /// Extract the image to `out` and list it.
    Image { out: String },
    /// Extract the nested archive to `out` and list it for the second phase.
    Nested { out: String },
    /// Leave the entry alone.
    Skip,
}

/// `r` is what the first phase does with the entry at relative path `rel`,
/// extracting into `dir`: an image keeps its relative path; a nested archive
/// is put at the top under its file name; anything else is skipped.
pub open spec fn outer_action_for(r: OuterEntry, rel: Seq<char>, dir: Seq<char>) -> bool {
    &&& is_image_path(rel) ==> (r matches OuterEntry::Image { out } && out@ == join_path(dir, rel))
    &&& !is_image_path(rel) && (is_zip_path(rel) || is_rar_path(rel)) ==> (
    r matches OuterEntry::Nested { out } && out@ == join_path(dir, file_name_or(rel, image_word())))
    &&& !is_image_path(rel) && !is_zip_path(rel) && !is_rar_path(rel) ==> r is Skip
}

/// What the first phase does with the entry at relative path `rel`, extracting
/// into `extract_dir`.
pub fn outer_entry_action(rel: &str, extract_dir: &str) -> (r: OuterEntry)
    ensures
        outer_action_for(r, rel@, extract_dir@),
{
    if is_supported_image(rel) {
        OuterEntry::Image { out: join(extract_dir, rel) }
    } else if is_supported_archive(rel) || is_supported_rar(rel) {
        let name = entry_name(rel);
        OuterEntry::Nested { out: join(extract_dir, name.as_str()) }
    } else {
        OuterEntry::Skip
    }
}

/// `r` is where an entry streamed out of a nested archive is written: images
/// only, under their relative path.
pub open spec fn stream_output_for(r: Option<String>, rel: Seq<char>, dir: Seq<char>) -> bool {
    &&& is_image_path(rel) ==> (r matches Some(out) && out@ == join_path(dir, rel))
    &&& !is_image_path(rel) ==> r is None
}

/// Where an entry streamed out of a nested archive is written.
pub fn stream_entry_output(rel: &str, extract_dir: &str) -> (r: Option<String>)
    ensures
        stream_output_for(r, rel@, extract_dir@),
{
    if is_supported_image(rel) {
        Some(join(extract_dir, rel))
    } else {
        None
    }
}

/// `r` is where an entry goes when an archive is flattened into `dir`:
/// images, archives and PDFs go to the top of the folder under their file
/// name; anything else is skipped.
pub open spec fn flat_output_for(r: Option<String>, rel: Seq<char>, dir: Seq<char>) -> bool {
    &&& (is_image_path(rel) || is_zip_path(rel) || is_rar_path(rel) || is_pdf_path(rel)) ==> (
    r matches Some(out) && out@ == join_path(dir, file_name_or(rel, image_word())))
    &&& !(is_image_path(rel) || is_zip_path(rel) || is_rar_path(rel) || is_pdf_path(rel)) ==> r is None
}

/// Where an entry goes when an archive is flattened into a folder.
pub fn flat_entry_output(rel: &str, extract_dir: &str) -> (r: Option<String>)
    ensures
        flat_output_for(r, rel@, extract_dir@),
{
    if is_supported_image(rel) || is_supported_archive(rel) || is_supported_rar(rel)
        || is_supported_pdf(rel) {
        let name = entry_name(rel);
        Some(join(extract_dir, name.as_str()))
    } else {
        None
    }
}

/// What a recursive extraction does with an entry.
pub enum NestedEntry {
    /// Extract the image to `out` and list it.
    Image { out: String },
    /// Extract the nested zip archive and list its images from `sub_dir`;
    /// `temp_path` is where the archive itself may be written meanwhile.
    NestedZip { sub_dir: String, temp_path: String },
    /// Write the nested rar archive to `temp_path`, list its images from
    /// `sub_dir`, then delete `temp_path`.
    NestedRar { sub_dir: String, temp_path: String },
    Skip,
}

/// `r` is what a recursive extraction into `dir` does with the entry `rel`:
/// an image keeps its relative path; when `recurse` holds, a nested archive
/// is opened (one level deep) into the sub-directory named after its stem
/// (`archive` when it has none); anything else is skipped.
pub open spec fn nested_action_for(r: NestedEntry, rel: Seq<char>, dir: Seq<char>, recurse: bool) -> bool {
    &&& is_image_path(rel) ==> (r matches NestedEntry::Image { out } && out@ == join_path(dir, rel))
    &&& !is_image_path(rel) && recurse && is_zip_path(rel) ==> (
    r matches NestedEntry::NestedZip { sub_dir, temp_path } && sub_dir@ == join_path(
        dir,
        file_stem_or(rel, archive_word()),
    ) && temp_path@ == join_path(dir, file_name_or(rel, image_word())))
    &&& !is_image_path(rel) && recurse && is_rar_path(rel) ==> (
    r matches NestedEntry::NestedRar { sub_dir, temp_path } && sub_dir@ == join_path(
        dir,
        file_stem_or(rel, archive_word()),
    ) && temp_path@ == join_path(dir, file_name_or(rel, image_word())))
    &&& !is_image_path(rel) && !(recurse && (is_zip_path(rel) || is_rar_path(rel))) ==> r is Skip
}

/// What a recursive extraction into `extract_dir` does with the entry `rel`.
pub fn nested_entry_action(rel: &str, extract_dir: &str, recurse: bool) -> (r: NestedEntry)
    ensures
        nested_action_for(r, rel@, extract_dir@, recurse),
{
    if is_supported_image(rel) {
        return NestedEntry::Image { out: join(extract_dir, rel) };
    }
    let is_zip = is_supported_archive(rel);
    let is_rar = is_supported_rar(rel);
    if recurse && (is_zip || is_rar) {
        let archive = vec!['a', 'r', 'c', 'h', 'i', 'v', 'e'];
        assert(archive@ =~= archive_word());
        let archive = string_of(&archive);
        let stem = file_stem_or_default(rel, archive.as_str());
        let sub_dir = join(extract_dir, stem.as_str());
        let name = entry_name(rel);
        let temp_path = join(extract_dir, name.as_str());
        if is_zip {
            NestedEntry::NestedZip { sub_dir, temp_path }
        } else {
            NestedEntry::NestedRar { sub_dir, temp_path }
        }
    } else {
        NestedEntry::Skip
    }
}

// ───────────────────────── progress ─────────────────────────

/// Minimum time between two progress reports, in milliseconds.
pub const PROGRESS_INTERVAL_MS: u128 = 100;

/// Whether a progress report is due: enough time has passed since the last
/// one, or the last entry has been reached.
pub fn progress_due(elapsed_ms: u128, current: usize, total: usize) -> (b: bool)
    ensures
        b == (elapsed_ms >= 100 || current == total),
{
    elapsed_ms >= PROGRESS_INTERVAL_MS || current == total
}

/// The progress report while a rar archive is flattened into a folder. Its
/// number of entries is not known in advance, so the total is reported as 0;
/// a report is due once enough time has passed since the last one.
pub fn rar_progress(elapsed_ms: u128, current: usize) -> (r: Option<ExtractProgress>)
    ensures
        match r {
            Some(p) => elapsed_ms >= 100 && p.current == current && p.total == 0,
            None => elapsed_ms < 100,
        },
{
    if elapsed_ms >= PROGRESS_INTERVAL_MS {
        Some(ExtractProgress { current, total: 0 })
    } else {
        None
    }
}

/// The last report once a rar archive has been flattened: sent only when at
/// least one entry was handled, again with the total unknown (0).
pub fn final_rar_progress(current: usize) -> (r: Option<ExtractProgress>)
    ensures
        match r {
            Some(p) => current > 0 && p.current == current && p.total == 0,
            None => current == 0,
        },
{
    if current > 0 {
        Some(ExtractProgress { current, total: 0 })
    } else {
        None
    }
}

/// The state of the first phase of an extraction: the images and nested
/// archives found so far, and how many entries have been handled out of how
/// many.
pub struct Phase1Collector {
    pub images: Vec<ExtractedFile>,
    pub nested_archives: Vec<String>,
    pub current: usize,
    pub total: usize,
}

impl Phase1Collector {
    pub fn new(total: usize) -> (c: Self)
        ensures
            c.images@ == Seq::<ExtractedFile>::empty(),
            c.nested_archives@ == Seq::<String>::empty(),
            c.current == 0,
            c.total == total,
    {
        Phase1Collector { images: Vec::new(), nested_archives: Vec::new(), current: 0, total }
    }

    /// Lists the image extracted to `out` from the entry `rel`.
    pub fn add_image(&mut self, out: &str, rel: &str, size: u64)
        ensures
            final(self).images@.len() == old(self).images@.len() + 1,
            final(self).images@.take(old(self).images@.len() as int) == old(self).images@,
            records(final(self).images@.last(), out@, file_name_or(rel@, image_word()), size),
            final(self).nested_archives@ == old(self).nested_archives@,
            final(self).current == old(self).current,
            final(self).total == old(self).total,
    {
        push_image(out, rel, size, &mut self.images);
    }

    /// Lists the nested archive extracted to `out`.
    pub fn add_nested(&mut self, out: String)
        ensures
            final(self).nested_archives@ == old(self).nested_archives@.push(out),
            final(self).images@ == old(self).images@,
            final(self).current == old(self).current,
            final(self).total == old(self).total,
    {
        self.nested_archives.push(out);
    }

    /// Settles an entry of a rar archive handled in the first phase: the entry
    /// at `rel` of `size` bytes, given `action`, went as `outcome`. A failed
    /// write ends the phase and changes nothing (what was found so far is
    /// still reported as done); otherwise the entry is counted, and an
    /// image or nested archive written as planned is listed.
    pub fn settle_rar_entry(&mut self, rel: &str, size: u64, action: &OuterEntry, outcome: RarOutcome) -> (go_on: bool)
        requires
            old(self).current < usize::MAX,
        ensures
            go_on == !(outcome is Failed),
            !go_on ==> final(self).images@ == old(self).images@ && final(self).nested_archives@
                == old(self).nested_archives@ && final(self).current == old(self).current,
            go_on ==> final(self).current == old(self).current + 1,
            final(self).total == old(self).total,
            go_on && outcome is AsPlanned ==> match *action {
                OuterEntry::Image { out } => {
                    &&& final(self).images@.len() == old(self).images@.len() + 1
                    &&& final(self).images@.take(old(self).images@.len() as int) == old(self).images@
                    &&& records(final(self).images@.last(), out@, file_name_or(rel@, image_word()), size)
                    &&& final(self).nested_archives@ == old(self).nested_archives@
                },
                OuterEntry::Nested { out } => {
                    &&& final(self).nested_archives@ == old(self).nested_archives@.push(out)
                    &&& final(self).images@ == old(self).images@
                },
                OuterEntry::Skip => final(self).images@ == old(self).images@
                    && final(self).nested_archives@ == old(self).nested_archives@,
            },
            go_on && !(outcome is AsPlanned) ==> final(self).images@ == old(self).images@
                && final(self).nested_archives@ == old(self).nested_archives@,
    {
        match outcome {
            RarOutcome::Failed => false,
            RarOutcome::Skipped => {
                self.advance();
                true
            },
            RarOutcome::AsPlanned => {
                match action {
                    OuterEntry::Image { out } => self.add_image(out.as_str(), rel, size),
                    OuterEntry::Nested { out } => self.add_nested(out.clone()),
                    OuterEntry::Skip => {},
                }
                self.advance();
                true
            },
        }
    }

    /// Counts one more handled entry.
    pub fn advance(&mut self)
        requires
            old(self).current < usize::MAX,
        ensures
            final(self).current == old(self).current + 1,
            final(self).images@ == old(self).images@,
            final(self).nested_archives@ == old(self).nested_archives@,
            final(self).total == old(self).total,
    {
        self.current = self.current + 1;
    }

    /// The progress report for the current state.
    pub fn progress(&self) -> (e: Phase1Event)
        ensures
            e matches Phase1Event::Progress { current, total } && current == self.current && total
                == self.total,
    {
        Phase1Event::Progress { current: self.current, total: self.total }
    }

    /// The final report: the images sorted by path (stably, ignoring case) and
    /// the nested archives in the order they were found.
    pub fn finish(self) -> (e: Phase1Event)
        ensures
            e matches Phase1Event::Done { images, nested_archives } && stably_sorted(
                images@,
                self.images@,
                path_key(),
            ) && nested_archives@ == self.nested_archives@,
    {
        let mut images = self.images;
        sort_by_path(&mut images);
        Phase1Event::Done { images, nested_archives: self.nested_archives }
    }
}

// ───────────────────────── dropped files ─────────────────────────

pub open spec fn document_word() -> Seq<char> {
    seq!['d', 'o', 'c', 'u', 'm', 'e', 'n', 't']
}

/// What is done with a file dropped on the viewer.
pub enum DropAction {
    /// List the file itself under `name`.
    AddFile { name: String },
    /// Extract the zip archive; when no archive of this drop has been
    /// extracted yet, first create the directory for `dir_name`.
    ExtractZip { new_dir_name: Option<String> },
    /// Extract the rar archive, likewise.
    ExtractRar { new_dir_name: Option<String> },
    /// Ignore the file.
    Ignore,
}

/// No directory is to be created when the drop already has one; otherwise
/// one named after the file name of `path` (or `archive`).
pub open spec fn new_dir_is(new_dir_name: Option<String>, have_archive_dir: bool, path: Seq<char>) -> bool {
    if have_archive_dir {
        new_dir_name is None
    } else {
        new_dir_name matches Some(n) && n@ == file_name_or(path, archive_word())
    }
}

/// What is done with the dropped file at `path`; `have_archive_dir` tells
/// whether an earlier archive of the same drop already has its directory,
/// which later archives share. Images are listed under their file name (or
/// `image`), PDFs under theirs (or `document`); an archive's directory is
/// named after its file name (or `archive`).
pub fn drop_action(path: &str, have_archive_dir: bool) -> (r: DropAction)
    ensures
        is_image_path(path@) ==> (r matches DropAction::AddFile { name } && name@ == file_name_or(
            path@,
            image_word(),
        )),
        is_zip_path(path@) ==> (r matches DropAction::ExtractZip { new_dir_name }
            && new_dir_is(new_dir_name, have_archive_dir, path@)),
        is_rar_path(path@) ==> (r matches DropAction::ExtractRar { new_dir_name }
            && new_dir_is(new_dir_name, have_archive_dir, path@)),
        is_pdf_path(path@) ==> (r matches DropAction::AddFile { name } && name@ == file_name_or(
            path@,
            document_word(),
        )),
        !is_image_path(path@) && !is_zip_path(path@) && !is_rar_path(path@) && !is_pdf_path(path@)
            ==> r is Ignore,
{
    proof {
        crate::media::lemma_kinds_exclusive(path@);
    }
    let archive = vec!['a', 'r', 'c', 'h', 'i', 'v', 'e'];
    assert(archive@ =~= archive_word());
    let archive = string_of(&archive);
    if is_supported_image(path) {
        DropAction::AddFile { name: entry_name(path) }
    } else if is_supported_archive(path) {
        let new_dir_name = if have_archive_dir {
            None
        } else {
            Some(file_name_or_default(path, archive.as_str()))
        };
        DropAction::ExtractZip { new_dir_name }
    } else if is_supported_rar(path) {
        let new_dir_name = if have_archive_dir {
            None
        } else {
            Some(file_name_or_default(path, archive.as_str()))
        };
        DropAction::ExtractRar { new_dir_name }
    } else if is_supported_pdf(path) {
        let w = vec!['d', 'o', 'c', 'u', 'm', 'e', 'n', 't'];
        assert(w@ =~= document_word());
        let w = string_of(&w);
        DropAction::AddFile { name: file_name_or_default(path, w.as_str()) }
    } else {
        DropAction::Ignore
    }
}

/// The name of an extraction directory is a single path component, whatever
/// the archive is called: it holds no separator and is neither `.` nor `..`,
/// so the directory always lies directly in the temporary root.
pub proof fn lemma_extract_dir_name_is_component(timestamp_ms: nat, archive_name: Seq<char>)
    ensures
        extract_dir_name_of(timestamp_ms, archive_name).len() >= 3,
        forall|i: int|
            0 <= i < extract_dir_name_of(timestamp_ms, archive_name).len() ==> !is_sep(
                #[trigger] extract_dir_name_of(timestamp_ms, archive_name)[i],
            ),
{
    lemma_decimal_digits(timestamp_ms);
    crate::media::lemma_sanitized_shape(archive_name);
    let d = decimal(timestamp_ms);
    let s = sanitized(archive_name);
    let n = extract_dir_name_of(timestamp_ms, archive_name);
    assert forall|i: int| 0 <= i < n.len() implies !is_sep(#[trigger] n[i]) by {
        if i < d.len() {
            assert(n[i] == d[i]);
        } else if i == d.len() {
            assert(n[i] == '-');
        } else {
            assert(n[i] == s[i - d.len() - 1]);
            assert(crate::media::is_name_char(s[i - d.len() - 1]));
        }
    }
}

} // verus!
