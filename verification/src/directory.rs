//! Listing a folder: which files are shown, as what, and in which order.

use vstd::prelude::*;
use crate::media::{
    entry_name, file_name_or, image_word, lower_extension, is_image_path, is_pdf_path, is_rar_path,
    is_supported_archive, is_supported_image, is_supported_pdf, is_supported_rar, is_zip_path,
};
use crate::sorting::{lemma_same_classes_permutation, stable_sort_by_keys, stably_sorted};
use crate::text::{append_chars, chars_of, lowercase_of, seq_le, string_of, to_lowercase};

verus! {

/// A file of a folder that the viewer shows.
pub struct FolderEntry {
    pub path: String,
    pub name: String,
    /// `image`, `zip`, `rar` or `pdf`.
    pub entry_type: String,
    pub size: u64,
}

/// The kind under which a file is shown, or `None` for a file the viewer does
/// not show.
pub open spec fn entry_type_of(p: Seq<char>) -> Option<Seq<char>> {
    if is_image_path(p) {
        Some(seq!['i', 'm', 'a', 'g', 'e'])
    } else if is_zip_path(p) {
        Some(seq!['z', 'i', 'p'])
    } else if is_rar_path(p) {
        Some(seq!['r', 'a', 'r'])
    } else if is_pdf_path(p) {
        Some(seq!['p', 'd', 'f'])
    } else {
        None
    }
}

/// The kind under which the file at `path` is shown.
pub fn folder_entry_type(path: &str) -> (r: Option<String>)
    ensures
        match r {
            Some(t) => entry_type_of(path@) == Some(t@),
            None => entry_type_of(path@) is None,
        },
{
    let w: Vec<char> = if is_supported_image(path) {
        let w = vec!['i', 'm', 'a', 'g', 'e'];
        assert(w@ =~= seq!['i', 'm', 'a', 'g', 'e']);
        w
    } else if is_supported_archive(path) {
        let w = vec!['z', 'i', 'p'];
        assert(w@ =~= seq!['z', 'i', 'p']);
        w
    } else if is_supported_rar(path) {
        let w = vec!['r', 'a', 'r'];
        assert(w@ =~= seq!['r', 'a', 'r']);
        w
    } else if is_supported_pdf(path) {
        let w = vec!['p', 'd', 'f'];
        assert(w@ =~= seq!['p', 'd', 'f']);
        w
    } else {
        return None;
    };
    Some(string_of(&w))
}

/// The entry for the file at `path` of `size` bytes, if the viewer shows it:
/// shown under its file name (or `image`) with its kind.
pub fn folder_entry(path: &str, size: u64) -> (r: Option<FolderEntry>)
    ensures
        match r {
            Some(e) => entry_type_of(path@) == Some(e.entry_type@) && e.path@ == path@ && e.name@
                == file_name_or(path@, image_word()) && e.size == size,
            None => entry_type_of(path@) is None,
        },
{
    match folder_entry_type(path) {
        Some(t) => Some(FolderEntry { path: path.to_owned(), name: entry_name(path), entry_type: t, size }),
        None => None,
    }
}

/// The key by which folder entries are listed: the path in lower case.
pub open spec fn entry_path_key() -> spec_fn(FolderEntry) -> Seq<char> {
    |e: FolderEntry| lowercase_of(e.path@)
}

/// Sorts folder entries by their lower-cased path, keeping the order of
/// entries whose lower-cased paths are equal.
pub fn sort_folder_entries(entries: &mut Vec<FolderEntry>)
    ensures
        stably_sorted(final(entries)@, old(entries)@, entry_path_key()),
{
    let mut keys: Vec<Vec<char>> = Vec::new();
    let mut i: usize = 0;
    while i < entries.len()
        invariant
            i <= entries.len(),
            keys.len() == i,
            forall|j: int| 0 <= j < i ==> (#[trigger] keys@[j])@ == lowercase_of(entries@[j].path@),
        decreases entries.len() - i,
    {
        let lower = to_lowercase(entries[i].path.as_str());
        keys.push(chars_of(lower.as_str()));
        i = i + 1;
    }
    let mut taken: Vec<FolderEntry> = Vec::new();
    std::mem::swap(&mut taken, entries);
    let sorted = stable_sort_by_keys(taken, keys, Ghost(entry_path_key()));
    *entries = sorted;
}

/// The key of a plain path listing: the path itself.
pub open spec fn plain_key() -> spec_fn(String) -> Seq<char> {
    |s: String| s@
}

/// Sorts paths in lexicographic order (`String`'s own order).
pub fn sort_paths(paths: &mut Vec<String>)
    ensures
        stably_sorted(final(paths)@, old(paths)@, plain_key()),
{
    let mut keys: Vec<Vec<char>> = Vec::new();
    let mut i: usize = 0;
    while i < paths.len()
        invariant
            i <= paths.len(),
            keys.len() == i,
            forall|j: int| 0 <= j < i ==> (#[trigger] keys@[j])@ == paths@[j]@,
        decreases paths.len() - i,
    {
        keys.push(chars_of(paths[i].as_str()));
        i = i + 1;
    }
    let mut taken: Vec<String> = Vec::new();
    std::mem::swap(&mut taken, paths);
    let sorted = stable_sort_by_keys(taken, keys, Ghost(plain_key()));
    *paths = sorted;
}

pub open spec fn not_a_directory_prefix() -> Seq<char> {
    seq!['N', 'o', 't', ' ', 'a', ' ', 'd', 'i', 'r', 'e', 'c', 't', 'o', 'r', 'y', ':', ' ']
}

/// The error reported when the folder to scan is not a directory.
pub fn not_a_directory_message(path: &str) -> (r: String)
    ensures
        r@ == not_a_directory_prefix() + path@,
{
    let mut m = vec!['N', 'o', 't', ' ', 'a', ' ', 'd', 'i', 'r', 'e', 'c', 't', 'o', 'r', 'y', ':', ' '];
    assert(m@ =~= not_a_directory_prefix());
    let p = chars_of(path);
    append_chars(&mut m, &p);
    string_of(&m)
}

/// Whether the lower-case form of a path is `k`.
pub open spec fn entry_with_lowercase_path(k: Seq<char>) -> spec_fn(FolderEntry) -> bool {
    |f: FolderEntry| lowercase_of(f.path@) == k
}

/// Law of `sort_folder_entries`: the entries come out in the order of their
/// paths in lower case, so paths that differ only in the case of letters
/// order as their lower-case forms do; no entry is lost or added, and entries
/// whose lower-case paths are equal keep their order.
pub proof fn law_sort_folder_entries_orders_by_lowercase_path(entries: &mut Vec<FolderEntry>)
    requires
        call_ensures(sort_folder_entries, (entries,), ()),
    ensures
        forall|i: int, j: int|
            0 <= i < j < final(entries)@.len() ==> seq_le(
                lowercase_of(#[trigger] final(entries)@[i].path@),
                lowercase_of(#[trigger] final(entries)@[j].path@),
            ),
        final(entries)@.to_multiset() == old(entries)@.to_multiset(),
        final(entries)@.len() == old(entries)@.len(),
        forall|k: Seq<char>|
            #[trigger] final(entries)@.filter(entry_with_lowercase_path(k)) == old(entries)@.filter(entry_with_lowercase_path(k)),
{
    lemma_same_classes_permutation(final(entries)@, old(entries)@, entry_path_key());
    assert forall|k: Seq<char>|
        #[trigger] final(entries)@.filter(entry_with_lowercase_path(k)) == old(entries)@.filter(entry_with_lowercase_path(k)) by {
        assert(crate::sorting::has_key(entry_path_key(), k) =~= entry_with_lowercase_path(k));
        assert(final(entries)@.filter(crate::sorting::has_key(entry_path_key(), k)) == old(entries)@.filter(
            crate::sorting::has_key(entry_path_key(), k),
        ));
    }
    final(entries)@.to_multiset_ensures();
    old(entries)@.to_multiset_ensures();
}

/// Law of `folder_entry_type`: a file is shown as an image exactly when the
/// extension of its name, in ASCII lower case, is png, jpg, jpeg, webp, gif,
/// svg, bmp or avif; as `zip` for zip or cbz, `rar` for rar and `pdf` for
/// pdf; and it is not shown for any other extension or none.
pub proof fn law_folder_entry_type_by_extension(path: &str, r: Option<String>)
    requires
        call_ensures(folder_entry_type, (path,), r),
    ensures
        (r matches Some(t) && t@ == seq!['i', 'm', 'a', 'g', 'e']) <==> (lower_extension(path@) matches Some(e)
            && set![seq!['p', 'n', 'g'], seq!['j', 'p', 'g'], seq!['j', 'p', 'e', 'g'], seq!['w', 'e', 'b', 'p'], seq!['g', 'i', 'f'], seq!['s', 'v', 'g'], seq!['b', 'm', 'p'], seq!['a', 'v', 'i', 'f']].contains(e)),
        (r matches Some(t) && t@ == seq!['z', 'i', 'p']) <==> (lower_extension(path@) matches Some(e)
            && set![seq!['z', 'i', 'p'], seq!['c', 'b', 'z']].contains(e)),
        (r matches Some(t) && t@ == seq!['r', 'a', 'r']) <==> (lower_extension(path@) matches Some(e)
            && e == seq!['r', 'a', 'r']),
        (r matches Some(t) && t@ == seq!['p', 'd', 'f']) <==> (lower_extension(path@) matches Some(e)
            && e == seq!['p', 'd', 'f']),
        r is None <==> !(lower_extension(path@) matches Some(e) && (set![seq!['p', 'n', 'g'], seq!['j', 'p', 'g'], seq!['j', 'p', 'e', 'g'], seq!['w', 'e', 'b', 'p'], seq!['g', 'i', 'f'], seq!['s', 'v', 'g'], seq!['b', 'm', 'p'], seq!['a', 'v', 'i', 'f']].contains(e)
            || e == seq!['z', 'i', 'p'] || e == seq!['c', 'b', 'z'] || e == seq!['r', 'a', 'r']
            || e == seq!['p', 'd', 'f'])),
{
    crate::media::lemma_kinds_exclusive(path@);
}

} // verus!
