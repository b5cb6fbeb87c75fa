//! Zip archives held in memory: how many entries an archive has, what each
//! entry is called and how large it is, its data, and which entries each kind
//! of extraction writes where.
//!
//! Parsing and decompressing is done by the `zip` crate. What it returns is
//! named as a function of the archive's bytes; every decision on the entries
//! (which are skipped, where each one goes, where a strict extraction stops)
//! is made and proved here. The caller only writes the planned files.

use vstd::prelude::*;
use std::io::{Cursor, Read};
use zip::ZipArchive;
use crate::media::split_at_seps;
use crate::archive::{
    flat_entry_output, flat_output_for, nested_action_for, nested_entry_action,
    outer_action_for, outer_entry_action, stream_entry_output, stream_output_for, NestedEntry,
    OuterEntry,
};

verus! {

// ───────────────────────── what the zip crate returns ─────────────────────────

/// The number of entries of the zip archive `bytes`, or `None` when
/// `ZipArchive::new` refuses it.
pub uninterp spec fn zip_entry_count(bytes: Seq<u8>) -> Option<nat>;

/// The stored name and uncompressed size of entry `index` of the zip archive
/// `bytes`, or `None` when the archive or that entry cannot be read.
pub uninterp spec fn zip_entry_meta(bytes: Seq<u8>, index: nat) -> Option<(Seq<char>, u64)>;

/// The decompressed data of entry `index` of the zip archive `bytes`, or
/// `None` when it cannot be read.
pub uninterp spec fn zip_entry_data(bytes: Seq<u8>, index: nat) -> Option<Seq<u8>>;

/// The decompressed data of the entry stored under `name` in the zip archive
/// `bytes`, or `None` when there is none or it cannot be read.
pub uninterp spec fn zip_named_data(bytes: Seq<u8>, name: Seq<char>) -> Option<Seq<u8>>;

/// An entry of a zip archive as the `zip` crate describes it.
pub struct ZipEntry {
    /// The name stored in the archive.
    pub name: String,
    /// Whether the entry is a directory.
    pub is_dir: bool,
    /// The stored name when it is safe to extract under a directory (it is
    /// relative and never climbs above its start), else `None`.
    pub enclosed_name: Option<String>,
    /// The uncompressed size in bytes.
    pub size: u64,
}

/// The name ends in a separator, `/` or `\`.
pub open spec fn ends_in_separator(name: Seq<char>) -> bool {
    name.len() > 0 && (name.last() == '/' || name.last() == '\\')
}

/// The name starts with `/`.
pub open spec fn starts_with_slash(name: Seq<char>) -> bool {
    name.len() > 0 && name[0] == '/'
}

/// The name's first component is `..`.
pub open spec fn starts_above(name: Seq<char>) -> bool {
    name == seq!['.', '.'] || (name.len() >= 3 && name.take(3) == seq!['.', '.', '/'])
}

/// A name that every platform's `Path` reads as relative components that
/// never climb: no NUL, no `\`, no `:` (so no prefix), no leading `/` (so no
/// root), and no `/`-separated piece that is `..`.
pub open spec fn plainly_enclosed(name: Seq<char>) -> bool {
    &&& !name.contains('\0')
    &&& !name.contains('\\')
    &&& !name.contains(':')
    &&& !starts_with_slash(name)
    &&& forall|i: int| 0 <= i < split_at_seps(name).len() ==> #[trigger] split_at_seps(name)[i] != seq!['.', '.']
}

/// What holds of every entry the `zip` crate describes, on every platform: it
/// is a directory exactly when its name ends in a separator; its enclosed
/// name, when there is one, is its stored name, which then holds no NUL, does
/// not start at the root and does not start by climbing up; and a plainly
/// enclosed name is always enclosed.
pub open spec fn entry_facts(e: ZipEntry) -> bool {
    &&& e.is_dir == ends_in_separator(e.name@)
    &&& (e.enclosed_name matches Some(n) ==> n@ == e.name@)
    &&& (e.name@.contains('\0') || starts_with_slash(e.name@) || starts_above(e.name@))
        ==> e.enclosed_name is None
    &&& plainly_enclosed(e.name@) ==> (e.enclosed_name matches Some(n) && n@ == e.name@)
}

/// `res` is what reading entry `index` of `bytes` gave.
pub open spec fn read_as(bytes: Seq<u8>, index: int, res: Result<ZipEntry, String>) -> bool {
    match res {
        Ok(e) => zip_entry_meta(bytes, index as nat) == Some((e.name@, e.size)) && entry_facts(e),
        Err(_) => zip_entry_meta(bytes, index as nat) is None,
    }
}

/// Calls `ZipArchive::new` on the bytes and `len`: the number of entries of
/// the central directory. The error, when the archive is refused, is the
/// crate's message, of which nothing is stated.
#[verifier::external_body]
fn zip_open(bytes: &[u8]) -> (r: Result<usize, String>)
    ensures
        (r is Ok) <==> (zip_entry_count(bytes@) is Some),
        r matches Ok(n) ==> zip_entry_count(bytes@) == Some(n as nat),
{
    match ZipArchive::new(Cursor::new(bytes)) {
        Ok(archive) => Ok(archive.len()),
        Err(e) => Err(e.to_string()),
    }
}

/// Calls `ZipArchive::new` and `by_index`, then `name`, `is_dir`,
/// `enclosed_name` and `size` of the entry. The name and size are named
/// (`zip_entry_meta`). `is_dir` is true exactly when the name ends in `/` or
/// `\`. `enclosed_name` returns the name itself, or `None`: always `None` for
/// a name with NUL, a root or a leading `..`, always the name for a plainly
/// enclosed one; for names with `\` or `:`, or with a `..` further in, it
/// depends on how the platform's `Path` splits the name, so nothing more is
/// stated of those.
#[verifier::external_body]
fn zip_entry(bytes: &[u8], index: usize) -> (r: Result<ZipEntry, String>)
    ensures
        (r is Ok) <==> (zip_entry_meta(bytes@, index as nat) is Some),
        r matches Ok(e) ==> read_as(bytes@, index as int, Ok(e)),
{
    let mut archive = match ZipArchive::new(Cursor::new(bytes)) {
        Ok(a) => a,
        Err(e) => return Err(e.to_string()),
    };
    let entry = match archive.by_index(index) {
        Ok(f) => Ok(ZipEntry {
            name: f.name().to_string(),
            is_dir: f.is_dir(),
            enclosed_name: f.enclosed_name().map(|p| p.to_string_lossy().into_owned()),
            size: f.size(),
        }),
        Err(e) => Err(e.to_string()),
    };
    entry
}

/// Calls `ZipArchive::new`, `by_index` and `read_to_end` on the entry: its
/// decompressed data (checked against its CRC), named `zip_entry_data`.
#[verifier::external_body]
fn zip_entry_bytes(bytes: &[u8], index: usize) -> (r: Result<Vec<u8>, String>)
    ensures
        (r is Ok) <==> (zip_entry_data(bytes@, index as nat) is Some),
        r matches Ok(d) ==> zip_entry_data(bytes@, index as nat) == Some(d@),
{
    let mut archive = match ZipArchive::new(Cursor::new(bytes)) {
        Ok(a) => a,
        Err(e) => return Err(e.to_string()),
    };
    let mut file = match archive.by_index(index) {
        Ok(f) => f,
        Err(e) => return Err(e.to_string()),
    };
    let mut data = Vec::new();
    match file.read_to_end(&mut data) {
        Ok(_) => Ok(data),
        Err(e) => Err(e.to_string()),
    }
}

/// Calls `ZipArchive::new`, `by_name` and `read_to_end` on the entry: the
/// decompressed data of the entry stored under `name`, named `zip_named_data`.
#[verifier::external_body]
pub(crate) fn zip_named_bytes(bytes: &[u8], name: &str) -> (r: Result<Vec<u8>, String>)
    ensures
        (r is Ok) <==> (zip_named_data(bytes@, name@) is Some),
        r matches Ok(d) ==> zip_named_data(bytes@, name@) == Some(d@),
{
    let mut archive = match ZipArchive::new(Cursor::new(bytes)) {
        Ok(a) => a,
        Err(e) => return Err(e.to_string()),
    };
    let mut file = match archive.by_name(name) {
        Ok(f) => f,
        Err(e) => return Err(e.to_string()),
    };
    let mut data = Vec::new();
    match file.read_to_end(&mut data) {
        Ok(_) => Ok(data),
        Err(e) => Err(e.to_string()),
    }
}

// ───────────────────────── reading ─────────────────────────

/// The number of entries of the zip archive `bytes`; an error when the
/// archive cannot be opened.
pub fn zip_entry_total(bytes: &[u8]) -> (r: Result<usize, String>)
    ensures
        (r is Ok) <==> (zip_entry_count(bytes@) is Some),
        r matches Ok(n) ==> zip_entry_count(bytes@) == Some(n as nat),
{
    zip_open(bytes)
}

/// Every entry of the zip archive `bytes`, in index order, each as read or
/// with the error reading it gave; an error when the archive cannot be
/// opened.
pub fn read_zip_listing(bytes: &[u8]) -> (r: Result<Vec<Result<ZipEntry, String>>, String>)
    ensures
        match r {
            Ok(v) => zip_entry_count(bytes@) == Some(v.len() as nat) && forall|i: int|
                0 <= i < v.len() ==> read_as(bytes@, i, #[trigger] v@[i]),
            Err(_) => zip_entry_count(bytes@) is None,
        },
{
    let total = zip_open(bytes)?;
    let mut listing: Vec<Result<ZipEntry, String>> = Vec::new();
    let mut i: usize = 0;
    while i < total
        invariant
            i <= total,
            zip_entry_count(bytes@) == Some(total as nat),
            listing.len() == i,
            forall|j: int| 0 <= j < i ==> read_as(bytes@, j, #[trigger] listing@[j]),
        decreases total - i,
    {
        let entry = zip_entry(bytes, i);
        listing.push(entry);
        i = i + 1;
    }
    Ok(listing)
}

/// The decompressed data of entry `index` of the zip archive `bytes`.
pub fn read_zip_entry(bytes: &[u8], index: usize) -> (r: Result<Vec<u8>, String>)
    ensures
        (r is Ok) <==> (zip_entry_data(bytes@, index as nat) is Some),
        r matches Ok(d) ==> zip_entry_data(bytes@, index as nat) == Some(d@),
{
    zip_entry_bytes(bytes, index)
}

// ───────────────────────── which entries are extracted ─────────────────────────

/// An entry is extracted at all when it was read, is not a directory and
/// has an enclosed name.
pub open spec fn kept(res: Result<ZipEntry, String>) -> bool {
    res matches Ok(e) && !e.is_dir && e.enclosed_name is Some
}

/// The enclosed name of a kept entry: its path relative to the extraction
/// directory.
pub open spec fn kept_rel(res: Result<ZipEntry, String>) -> Seq<char> {
    match res {
        Ok(e) => match e.enclosed_name {
            Some(n) => n@,
            None => Seq::empty(),
        },
        Err(_) => Seq::empty(),
    }
}

pub open spec fn kept_size(res: Result<ZipEntry, String>) -> u64 {
    match res {
        Ok(e) => e.size,
        Err(_) => 0,
    }
}

/// The indices of the kept entries of `listing`, in increasing order.
pub open spec fn kept_indices(listing: Seq<Result<ZipEntry, String>>) -> Seq<int>
    decreases listing.len(),
{
    if listing.len() == 0 {
        Seq::empty()
    } else {
        let rest = kept_indices(listing.drop_last());
        if kept(listing.last()) {
            rest.push(listing.len() - 1)
        } else {
            rest
        }
    }
}

/// The kept indices are kept entries of `listing`, in increasing order.
proof fn lemma_kept_indices(listing: Seq<Result<ZipEntry, String>>)
    ensures
        forall|k: int|
            0 <= k < kept_indices(listing).len() ==> 0 <= #[trigger] kept_indices(listing)[k]
                < listing.len() && kept(listing[kept_indices(listing)[k]]),
        forall|a: int, b: int|
            0 <= a < b < kept_indices(listing).len() ==> #[trigger] kept_indices(listing)[a]
                < #[trigger] kept_indices(listing)[b],
    decreases listing.len(),
{
    if listing.len() > 0 {
        let rest = listing.drop_last();
        lemma_kept_indices(rest);
        assert forall|k: int| 0 <= k < kept_indices(rest).len() implies listing[kept_indices(rest)[k]]
            == rest[kept_indices(rest)[k]] by {}
    }
}

/// An entry of an extraction plan: the entry's index, relative path and
/// size, and what is done with it.
pub struct ZipPlanned<A> {
    pub index: usize,
    pub rel: String,
    pub size: u64,
    pub action: A,
}

/// `plan` lists, in index order, the kept entries among the first `stop`
/// entries of `listing`, with their relative paths and sizes.
pub open spec fn plans_kept<A>(plan: Seq<ZipPlanned<A>>, listing: Seq<Result<ZipEntry, String>>, stop: int) -> bool {
    let idx = kept_indices(listing.take(stop));
    &&& plan.len() == idx.len()
    &&& forall|k: int|
        0 <= k < plan.len() ==> {
            &&& (#[trigger] plan[k]).index == idx[k]
            &&& plan[k].rel@ == kept_rel(listing[idx[k]])
            &&& plan[k].size == kept_size(listing[idx[k]])
        }
}

/// Only entries with an enclosed name are extracted, once each and in index
/// order: every planned entry lies before where the plan stops, is planned
/// after the entries of lower index, carries the name and size stored for it
/// in the archive, and that name neither starts at the root, nor starts by
/// climbing up, nor holds a NUL.
pub proof fn lemma_planned_names_enclosed<A>(
    bytes: Seq<u8>,
    listing: Seq<Result<ZipEntry, String>>,
    plan: Seq<ZipPlanned<A>>,
    stop: int,
)
    requires
        0 <= stop <= listing.len(),
        forall|i: int| 0 <= i < listing.len() ==> read_as(bytes, i, #[trigger] listing[i]),
        plans_kept(plan, listing, stop),
    ensures
        forall|a: int, b: int| 0 <= a < b < plan.len() ==> (#[trigger] plan[a]).index < (
        #[trigger] plan[b]).index,
        forall|k: int|
            0 <= k < plan.len() ==> {
                &&& (#[trigger] plan[k]).index < stop
                &&& zip_entry_meta(bytes, plan[k].index as nat) == Some((plan[k].rel@, plan[k].size))
                &&& !starts_with_slash(plan[k].rel@)
                &&& !starts_above(plan[k].rel@)
                &&& !plan[k].rel@.contains('\0')
            },
{
    let l = listing.take(stop);
    lemma_kept_indices(l);
    let idx = kept_indices(l);
    assert forall|a: int, b: int| 0 <= a < b < plan.len() implies (#[trigger] plan[a]).index < (
    #[trigger] plan[b]).index by {
        assert(idx[a] < idx[b]);
    }
    assert forall|k: int| 0 <= k < plan.len() implies {
        &&& (#[trigger] plan[k]).index < stop
        &&& zip_entry_meta(bytes, plan[k].index as nat) == Some((plan[k].rel@, plan[k].size))
        &&& !starts_with_slash(plan[k].rel@)
        &&& !starts_above(plan[k].rel@)
        &&& !plan[k].rel@.contains('\0')
    } by {
        let i = idx[k];
        assert(l[i] == listing[i]);
        assert(read_as(bytes, i, listing[i]));
    }
}

/// The first entry that could not be read, with the error, or `None` when
/// every entry was read.
pub open spec fn first_failure_is(listing: Seq<Result<ZipEntry, String>>, failure: Option<(usize, String)>) -> bool {
    match failure {
        Some((i, m)) => {
            &&& i < listing.len()
            &&& listing[i as int] matches Err(x) && x@ == m@
            &&& forall|j: int| 0 <= j < i ==> (#[trigger] listing[j]) is Ok
        },
        None => forall|j: int| 0 <= j < listing.len() ==> (#[trigger] listing[j]) is Ok,
    }
}

/// Where a strict extraction stops: at the first unreadable entry.
pub open spec fn stop_of(listing: Seq<Result<ZipEntry, String>>, failure: Option<(usize, String)>) -> int {
    match failure {
        Some((i, _)) => i as int,
        None => listing.len() as int,
    }
}

/// A strict extraction: what is done with the kept entries before the first
/// unreadable one, and that entry with its error, at which the extraction
/// fails.
pub struct ZipPlan<A> {
    pub steps: Vec<ZipPlanned<A>>,
    pub failure: Option<(usize, String)>,
}

/// The index, relative path and size of the kept entries among the first
/// `stop` entries.
fn kept_entries(listing: &[Result<ZipEntry, String>], stop: usize) -> (r: Vec<ZipPlanned<()>>)
    requires
        stop <= listing.len(),
    ensures
        plans_kept(r@, listing@, stop as int),
{
    let mut r: Vec<ZipPlanned<()>> = Vec::new();
    let mut i: usize = 0;
    while i < stop
        invariant
            i <= stop <= listing.len(),
            plans_kept(r@, listing@, i as int),
        decreases stop - i,
    {
        let ghost before = r@;
        proof {
            assert(listing@.take(i + 1).drop_last() =~= listing@.take(i as int));
            assert(listing@.take(i + 1).last() == listing@[i as int]);
        }
        match &listing[i] {
            Ok(e) => {
                if !e.is_dir {
                    match &e.enclosed_name {
                        Some(n) => {
                            r.push(ZipPlanned { index: i, rel: n.clone(), size: e.size, action: () });
                            proof {
                                let idx = kept_indices(listing@.take(i + 1));
                                assert(idx == kept_indices(listing@.take(i as int)).push(i as int));
                                assert forall|k: int| 0 <= k < r@.len() implies {
                                    &&& (#[trigger] r@[k]).index == idx[k]
                                    &&& r@[k].rel@ == kept_rel(listing@[idx[k]])
                                    &&& r@[k].size == kept_size(listing@[idx[k]])
                                } by {
                                    if k < before.len() {
                                        assert(r@[k] == before[k]);
                                    }
                                }
                            }
                        },
                        None => {},
                    }
                }
            },
            Err(_) => {},
        }
        i = i + 1;
    }
    r
}

/// The first entry that could not be read, with its error.
fn first_failure(listing: &[Result<ZipEntry, String>]) -> (r: Option<(usize, String)>)
    ensures
        first_failure_is(listing@, r),
{
    let mut i: usize = 0;
    while i < listing.len()
        invariant
            i <= listing.len(),
            forall|j: int| 0 <= j < i ==> (#[trigger] listing@[j]) is Ok,
        decreases listing.len() - i,
    {
        match &listing[i] {
            Ok(_) => {},
            Err(m) => {
                return Some((i, m.clone()));
            },
        }
        i = i + 1;
    }
    None
}

// ───────────────────────── the plans ─────────────────────────

/// What the first phase of an extraction does with each entry: every kept
/// entry, in index order (unreadable entries are passed over), with the
/// action of `outer_entry_action`.
pub fn outer_zip_plan(listing: &[Result<ZipEntry, String>], extract_dir: &str) -> (plan: Vec<ZipPlanned<OuterEntry>>)
    ensures
        plans_kept(plan@, listing@, listing@.len() as int),
        forall|k: int|
            0 <= k < plan@.len() ==> outer_action_for(
                (#[trigger] plan@[k]).action,
                plan@[k].rel@,
                extract_dir@,
            ),
{
    let kept = kept_entries(listing, listing.len());
    let mut plan: Vec<ZipPlanned<OuterEntry>> = Vec::new();
    let mut k: usize = 0;
    while k < kept.len()
        invariant
            k <= kept.len(),
            plan.len() == k,
            forall|j: int|
                0 <= j < k ==> (#[trigger] plan@[j]).index == kept@[j].index && plan@[j].rel@
                    == kept@[j].rel@ && plan@[j].size == kept@[j].size && outer_action_for(
                    plan@[j].action,
                    plan@[j].rel@,
                    extract_dir@,
                ),
        decreases kept.len() - k,
    {
        let action = outer_entry_action(kept[k].rel.as_str(), extract_dir);
        plan.push(ZipPlanned { index: kept[k].index, rel: kept[k].rel.clone(), size: kept[k].size, action });
        k = k + 1;
    }
    plan
}

/// What streaming the images out of a nested archive does: the kept entries
/// before the first unreadable one, each with the output of
/// `stream_entry_output`, and that entry, at which streaming fails.
pub fn stream_zip_plan(listing: &[Result<ZipEntry, String>], extract_dir: &str) -> (plan: ZipPlan<Option<String>>)
    ensures
        first_failure_is(listing@, plan.failure),
        plans_kept(plan.steps@, listing@, stop_of(listing@, plan.failure)),
        forall|k: int|
            0 <= k < plan.steps@.len() ==> stream_output_for(
                (#[trigger] plan.steps@[k]).action,
                plan.steps@[k].rel@,
                extract_dir@,
            ),
{
    let failure = first_failure(listing);
    let stop = match &failure {
        Some((i, _)) => *i,
        None => listing.len(),
    };
    let kept = kept_entries(listing, stop);
    let mut steps: Vec<ZipPlanned<Option<String>>> = Vec::new();
    let mut k: usize = 0;
    while k < kept.len()
        invariant
            k <= kept.len(),
            steps.len() == k,
            forall|j: int|
                0 <= j < k ==> (#[trigger] steps@[j]).index == kept@[j].index && steps@[j].rel@
                    == kept@[j].rel@ && steps@[j].size == kept@[j].size && stream_output_for(
                    steps@[j].action,
                    steps@[j].rel@,
                    extract_dir@,
                ),
        decreases kept.len() - k,
    {
        let action = stream_entry_output(kept[k].rel.as_str(), extract_dir);
        steps.push(ZipPlanned { index: kept[k].index, rel: kept[k].rel.clone(), size: kept[k].size, action });
        k = k + 1;
    }
    ZipPlan { steps, failure }
}

/// What flattening an archive into a folder does: the kept entries before the
/// first unreadable one, each with the output of `flat_entry_output`, and
/// that entry, at which flattening fails.
pub fn flat_zip_plan(listing: &[Result<ZipEntry, String>], extract_dir: &str) -> (plan: ZipPlan<Option<String>>)
    ensures
        first_failure_is(listing@, plan.failure),
        plans_kept(plan.steps@, listing@, stop_of(listing@, plan.failure)),
        forall|k: int|
            0 <= k < plan.steps@.len() ==> flat_output_for(
                (#[trigger] plan.steps@[k]).action,
                plan.steps@[k].rel@,
                extract_dir@,
            ),
{
    let failure = first_failure(listing);
    let stop = match &failure {
        Some((i, _)) => *i,
        None => listing.len(),
    };
    let kept = kept_entries(listing, stop);
    let mut steps: Vec<ZipPlanned<Option<String>>> = Vec::new();
    let mut k: usize = 0;
    while k < kept.len()
        invariant
            k <= kept.len(),
            steps.len() == k,
            forall|j: int|
                0 <= j < k ==> (#[trigger] steps@[j]).index == kept@[j].index && steps@[j].rel@
                    == kept@[j].rel@ && steps@[j].size == kept@[j].size && flat_output_for(
                    steps@[j].action,
                    steps@[j].rel@,
                    extract_dir@,
                ),
        decreases kept.len() - k,
    {
        let action = flat_entry_output(kept[k].rel.as_str(), extract_dir);
        steps.push(ZipPlanned { index: kept[k].index, rel: kept[k].rel.clone(), size: kept[k].size, action });
        k = k + 1;
    }
    ZipPlan { steps, failure }
}

/// What a recursive extraction does: the kept entries before the first
/// unreadable one, each with the action of `nested_entry_action`, and that
/// entry, at which the extraction fails.
pub fn nested_zip_plan(listing: &[Result<ZipEntry, String>], extract_dir: &str, recurse: bool) -> (plan: ZipPlan<NestedEntry>)
    ensures
        first_failure_is(listing@, plan.failure),
        plans_kept(plan.steps@, listing@, stop_of(listing@, plan.failure)),
        forall|k: int|
            0 <= k < plan.steps@.len() ==> nested_action_for(
                (#[trigger] plan.steps@[k]).action,
                plan.steps@[k].rel@,
                extract_dir@,
                recurse,
            ),
{
    let failure = first_failure(listing);
    let stop = match &failure {
        Some((i, _)) => *i,
        None => listing.len(),
    };
    let kept = kept_entries(listing, stop);
    let mut steps: Vec<ZipPlanned<NestedEntry>> = Vec::new();
    let mut k: usize = 0;
    while k < kept.len()
        invariant
            k <= kept.len(),
            steps.len() == k,
            forall|j: int|
                0 <= j < k ==> (#[trigger] steps@[j]).index == kept@[j].index && steps@[j].rel@
                    == kept@[j].rel@ && steps@[j].size == kept@[j].size && nested_action_for(
                    steps@[j].action,
                    steps@[j].rel@,
                    extract_dir@,
                    recurse,
                ),
        decreases kept.len() - k,
    {
        let action = nested_entry_action(kept[k].rel.as_str(), extract_dir, recurse);
        steps.push(ZipPlanned { index: kept[k].index, rel: kept[k].rel.clone(), size: kept[k].size, action });
        k = k + 1;
    }
    ZipPlan { steps, failure }
}

} // verus!
