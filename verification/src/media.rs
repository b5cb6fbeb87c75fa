//! Names and paths of the files the viewer opens: which paths are images,
//! archives or documents, the safe relative form of a path taken from an
//! archive entry, and the name shown for an entry.
//!
//! Paths are read as `std::path` reads them on Windows, the platform the
//! viewer is built for: both `/` and `\` separate components; a leading
//! prefix (a drive `C:`, `\\server\share`, `\\?\...`, `\\.\...`) is no
//! component; empty components and `.` components are dropped (a leading `.`
//! is the current directory, which is no file name either); and `..` is the
//! parent directory. Joined paths are written with `/`, which Windows reads
//! as a separator too. Two finer points of Windows are left out: after a
//! verbatim prefix (`\\?\`) Windows splits at `\` alone, and it reads `/`
//! as `\` in the first eight characters only when it looks for a prefix;
//! here `/` is a separator everywhere.
//!
//! On Unix `std::path` treats `\` as an ordinary character; reading it as a
//! separator there as well keeps every name the library derives free of both
//! separators, whichever platform it runs on.

use vstd::prelude::*;
use crate::sorting::lemma_filter_all;
use crate::text::{
    append_chars, ascii_lower, ascii_lower_char, chars_eq, chars_of, string_of, sub_chars, to_ascii_lower,
    to_ascii_lower_char,
};

verus! {

broadcast use vstd::seq_lib::group_seq_properties;

// ───────────────────────── the path model ─────────────────────────

/// A path separator: `/` or `\`.
pub open spec fn is_sep(c: char) -> bool {
    c == '/' || c == '\\'
}

pub open spec fn is_ascii_letter(c: char) -> bool {
    ('a' <= c && c <= 'z') || ('A' <= c && c <= 'Z')
}

/// `p` starts with a drive prefix: an ASCII letter and `:`.
pub open spec fn has_drive(p: Seq<char>) -> bool {
    p.len() >= 2 && is_ascii_letter(p[0]) && p[1] == ':'
}

/// The first separator of `p` at index `from` or later, or `p.len()` when
/// there is none.
pub open spec fn sep_from(p: Seq<char>, from: int) -> int
    decreases p.len() - from,
{
    if from < 0 || from >= p.len() {
        p.len() as int
    } else if is_sep(p[from]) {
        from
    } else {
        sep_from(p, from + 1)
    }
}

/// `p` starts with two separators.
pub open spec fn starts_double_sep(p: Seq<char>) -> bool {
    p.len() >= 2 && is_sep(p[0]) && is_sep(p[1])
}

/// `p` starts with a verbatim prefix (`\\?\`).
pub open spec fn is_verbatim(p: Seq<char>) -> bool {
    starts_double_sep(p) && p.len() >= 4 && p[2] == '?' && is_sep(p[3])
}

/// `p` starts with a device prefix (`\\.\`).
pub open spec fn is_device(p: Seq<char>) -> bool {
    starts_double_sep(p) && p.len() >= 4 && p[2] == '.' && is_sep(p[3])
}

/// `p` starts with a verbatim UNC prefix (`\\?\UNC\`).
pub open spec fn is_verbatim_unc(p: Seq<char>) -> bool {
    is_verbatim(p) && p.len() >= 8 && p[4] == 'U' && p[5] == 'N' && p[6] == 'C' && is_sep(p[7])
}

/// The length of the prefix of `p`, 0 when it has none, as `Path` parses
/// prefixes on Windows:
/// - a drive, `C:`;
/// - `\\?\UNC\server\share`, the share being left out when empty;
/// - `\\?\name` and `\\.\name`, up to the next separator;
/// - `\\server\share`, when both names are non-empty.
pub open spec fn prefix_len(p: Seq<char>) -> int {
    if has_drive(p) {
        2
    } else if is_verbatim_unc(p) {
        let s = sep_from(p, 8);
        if s >= p.len() {
            p.len() as int
        } else if sep_from(p, s + 1) == s + 1 {
            s
        } else {
            sep_from(p, s + 1)
        }
    } else if is_verbatim(p) || is_device(p) {
        sep_from(p, 4)
    } else if starts_double_sep(p) {
        let s = sep_from(p, 2);
        if s == 2 || s >= p.len() || sep_from(p, s + 1) == s + 1 {
            0
        } else {
            sep_from(p, s + 1)
        }
    } else {
        0
    }
}

/// `p` without its prefix.
pub open spec fn after_prefix(p: Seq<char>) -> Seq<char> {
    p.skip(prefix_len(p))
}

/// The pieces of `p` between separators, from left to right; there is
/// always at least one (possibly empty) piece.
pub open spec fn split_at_seps(p: Seq<char>) -> Seq<Seq<char>>
    decreases p.len(),
{
    if p.len() == 0 {
        seq![Seq::<char>::empty()]
    } else {
        let s = split_at_seps(p.drop_last());
        if is_sep(p.last()) {
            s.push(Seq::<char>::empty())
        } else {
            s.update(s.len() - 1, s.last().push(p.last()))
        }
    }
}

/// A piece that is a path component (a name or `..`): neither empty nor `.`.
pub open spec fn is_part(seg: Seq<char>) -> bool {
    seg.len() > 0 && seg != seq!['.']
}

/// The parent-directory component `..`.
pub open spec fn is_parent(seg: Seq<char>) -> bool {
    seg == seq!['.', '.']
}

/// A component that names a file or directory (not `..`).
pub open spec fn is_normal(seg: Seq<char>) -> bool {
    is_part(seg) && !is_parent(seg)
}

pub open spec fn part_pred() -> spec_fn(Seq<char>) -> bool {
    |seg: Seq<char>| is_part(seg)
}

pub open spec fn normal_pred() -> spec_fn(Seq<char>) -> bool {
    |seg: Seq<char>| is_normal(seg)
}

/// The components of `p` other than the prefix, the root and the current
/// directory.
pub open spec fn path_parts(p: Seq<char>) -> Seq<Seq<char>> {
    split_at_seps(after_prefix(p)).filter(part_pred())
}

/// `Path::file_name`: the last component, unless there is none or it is `..`.
pub open spec fn file_name(p: Seq<char>) -> Option<Seq<char>> {
    let parts = path_parts(p);
    if parts.len() == 0 || is_parent(parts.last()) {
        None
    } else {
        Some(parts.last())
    }
}

/// Index of the last `.` in `f`, or -1 when there is none.
pub open spec fn last_dot(f: Seq<char>) -> int
    decreases f.len(),
{
    if f.len() == 0 {
        -1
    } else if f.last() == '.' {
        f.len() - 1
    } else {
        last_dot(f.drop_last())
    }
}

/// The extension of a file name: what follows its last `.`, provided that
/// dot is not the first character (`.png` has no extension, `a.` has an
/// empty one).
pub open spec fn name_extension(f: Seq<char>) -> Option<Seq<char>> {
    if last_dot(f) > 0 {
        Some(f.skip(last_dot(f) + 1))
    } else {
        None
    }
}

/// The stem of a file name: what precedes the dot of its extension, or the
/// whole name when it has no extension.
pub open spec fn name_stem(f: Seq<char>) -> Seq<char> {
    if last_dot(f) > 0 {
        f.take(last_dot(f))
    } else {
        f
    }
}

/// `Path::file_stem`.
pub open spec fn file_stem(p: Seq<char>) -> Option<Seq<char>> {
    match file_name(p) {
        Some(f) => Some(name_stem(f)),
        None => None,
    }
}

/// The extension of the path in ASCII lower case.
pub open spec fn lower_extension(p: Seq<char>) -> Option<Seq<char>> {
    match file_name(p) {
        Some(f) => match name_extension(f) {
            Some(e) => Some(ascii_lower(e)),
            None => None,
        },
        None => None,
    }
}

/// Image extensions the viewer shows.
pub open spec fn is_image_ext(e: Seq<char>) -> bool {
    ||| e == seq!['p', 'n', 'g']
    ||| e == seq!['j', 'p', 'g']
    ||| e == seq!['j', 'p', 'e', 'g']
    ||| e == seq!['w', 'e', 'b', 'p']
    ||| e == seq!['g', 'i', 'f']
    ||| e == seq!['s', 'v', 'g']
    ||| e == seq!['b', 'm', 'p']
    ||| e == seq!['a', 'v', 'i', 'f']
}

/// Zip archive extensions (comic book archives included).
pub open spec fn is_zip_ext(e: Seq<char>) -> bool {
    e == seq!['z', 'i', 'p'] || e == seq!['c', 'b', 'z']
}

pub open spec fn is_rar_ext(e: Seq<char>) -> bool {
    e == seq!['r', 'a', 'r']
}

pub open spec fn is_pdf_ext(e: Seq<char>) -> bool {
    e == seq!['p', 'd', 'f']
}

pub open spec fn is_image_path(p: Seq<char>) -> bool {
    lower_extension(p) matches Some(e) && is_image_ext(e)
}

pub open spec fn is_zip_path(p: Seq<char>) -> bool {
    lower_extension(p) matches Some(e) && is_zip_ext(e)
}

pub open spec fn is_rar_path(p: Seq<char>) -> bool {
    lower_extension(p) matches Some(e) && is_rar_ext(e)
}

pub open spec fn is_pdf_path(p: Seq<char>) -> bool {
    lower_extension(p) matches Some(e) && is_pdf_ext(e)
}

/// The components joined with `/` separators.
pub open spec fn join_parts(s: Seq<Seq<char>>) -> Seq<char>
    decreases s.len(),
{
    if s.len() == 0 {
        Seq::<char>::empty()
    } else if s.len() == 1 {
        s[0]
    } else {
        join_parts(s.drop_last()) + seq!['/'] + s.last()
    }
}

/// The relative path made of the name components of `p` only (root, `.`
/// and `..` dropped), or `None` when `p` has no name component.
pub open spec fn safe_relative(p: Seq<char>) -> Option<Seq<char>> {
    let names = path_parts(p).filter(normal_pred());
    if names.len() == 0 {
        None
    } else {
        Some(join_parts(names))
    }
}

/// `PathBuf::join`: a `rel` with a prefix replaces `base`; a `rel` with a
/// root but no prefix keeps only the prefix of `base`; otherwise `/` is put
/// between them unless `base` is empty, ends in a separator or is a bare
/// drive (`C:`).
pub open spec fn join_path(base: Seq<char>, rel: Seq<char>) -> Seq<char> {
    if prefix_len(rel) > 0 {
        rel
    } else if rel.len() > 0 && is_sep(rel[0]) {
        base.take(prefix_len(base)) + rel
    } else if base.len() == 0 || is_sep(base.last()) || (base.len() == 2 && has_drive(base)) {
        base + rel
    } else {
        base + seq!['/'] + rel
    }
}

/// The sanitized form of one character: kept when it is an ASCII letter, an
/// ASCII digit, `-` or `_`, replaced by `_` otherwise.
pub open spec fn is_name_char(c: char) -> bool {
    ('a' <= c && c <= 'z') || ('A' <= c && c <= 'Z') || ('0' <= c && c <= '9') || c == '-'
        || c == '_'
}

pub open spec fn sanitize_char(c: char) -> char {
    if is_name_char(c) {
        c
    } else {
        '_'
    }
}

pub open spec fn archive_word() -> Seq<char> {
    seq!['a', 'r', 'c', 'h', 'i', 'v', 'e']
}

pub open spec fn image_word() -> Seq<char> {
    seq!['i', 'm', 'a', 'g', 'e']
}

/// What `sanitize_name` returns: every character sanitized, or `archive`
/// for an empty name.
pub open spec fn sanitized(s: Seq<char>) -> Seq<char> {
    if s.len() == 0 {
        archive_word()
    } else {
        s.map_values(|c: char| sanitize_char(c))
    }
}

/// The file name of `p`, or `default` when it has none.
pub open spec fn file_name_or(p: Seq<char>, default: Seq<char>) -> Seq<char> {
    match file_name(p) {
        Some(f) => f,
        None => default,
    }
}

/// The file stem of `p`, or `default` when it has none.
pub open spec fn file_stem_or(p: Seq<char>, default: Seq<char>) -> Seq<char> {
    match file_stem(p) {
        Some(f) => f,
        None => default,
    }
}

/// Whether `p` has a separator right after its prefix.
pub open spec fn has_physical_root(p: Seq<char>) -> bool {
    after_prefix(p).len() > 0 && is_sep(after_prefix(p)[0])
}

/// Whether `p` has a root: a separator right after its prefix, or a prefix
/// other than a drive, which implies one.
pub open spec fn has_root(p: Seq<char>) -> bool {
    has_physical_root(p) || (prefix_len(p) > 0 && !has_drive(p))
}

/// Whether the components of `p` include the root directory: a separator
/// after the prefix, or a UNC or device prefix.
pub open spec fn root_component(p: Seq<char>) -> bool {
    has_physical_root(p) || (prefix_len(p) > 0 && !has_drive(p) && !is_verbatim(p))
}

/// `p` starts with a verbatim drive (`\\?\C:`).
pub open spec fn is_verbatim_disk(p: Seq<char>) -> bool {
    is_verbatim(p) && prefix_len(p) == 6 && is_ascii_letter(p[4]) && p[5] == ':'
}

/// The character at `i` of the prefix of `p` as prefixes compare: every
/// separator as `\`, and a drive letter in lower case (drives compare
/// without regard to case).
pub open spec fn key_char(p: Seq<char>, i: int) -> char {
    if is_sep(p[i]) {
        '\\'
    } else if (i == 0 && has_drive(p)) || (i == 4 && is_verbatim_disk(p)) {
        ascii_lower_char(p[i])
    } else {
        p[i]
    }
}

/// The prefix of `p` as prefixes compare.
pub open spec fn prefix_key(p: Seq<char>) -> Seq<char> {
    Seq::new(prefix_len(p) as nat, |i: int| key_char(p, i))
}

/// Whether the components of `p` begin with the current directory: a path
/// without a root whose first piece after the prefix is `.`.
pub open spec fn starts_at_cur_dir(p: Seq<char>) -> bool {
    let q = after_prefix(p);
    !has_root(p) && q.len() > 0 && q[0] == '.' && (q.len() == 1 || is_sep(q[1]))
}

/// Equality of paths as `Path`s compare: the same prefix, the same root, the
/// same leading current directory, and the same components after them (so
/// `C:\a\b\`, `c:/a//b` and `C:\a\.\b` are all `C:\a\b`).
pub open spec fn same_path(a: Seq<char>, b: Seq<char>) -> bool {
    &&& prefix_key(a) == prefix_key(b)
    &&& root_component(a) == root_component(b)
    &&& starts_at_cur_dir(a) == starts_at_cur_dir(b)
    &&& path_parts(a) == path_parts(b)
}

/// Every path is the same path as itself.
pub proof fn lemma_same_path_refl(p: Seq<char>)
    ensures
        same_path(p, p),
{
}

pub open spec fn views(v: Seq<Vec<char>>) -> Seq<Seq<char>> {
    v.map_values(|x: Vec<char>| x@)
}

// ───────────────────────── lemmas on the model ─────────────────────────

/// The first separator at or after `from` lies between `from` and the end.
pub proof fn lemma_sep_from_range(p: Seq<char>, from: int)
    requires
        0 <= from <= p.len(),
    ensures
        from <= sep_from(p, from) <= p.len(),
        sep_from(p, from) < p.len() ==> is_sep(p[sep_from(p, from)]),
    decreases p.len() - from,
{
    if from < p.len() && !is_sep(p[from]) {
        lemma_sep_from_range(p, from + 1);
    }
}

/// A prefix never runs past the end of the path.
pub proof fn lemma_prefix_len_range(p: Seq<char>)
    ensures
        0 <= prefix_len(p) <= p.len(),
{
    if p.len() >= 4 {
        lemma_sep_from_range(p, 4);
    }
    if p.len() >= 8 {
        lemma_sep_from_range(p, 8);
        let s = sep_from(p, 8);
        if s < p.len() {
            lemma_sep_from_range(p, s + 1);
        }
    }
    if p.len() >= 2 {
        lemma_sep_from_range(p, 2);
        let s = sep_from(p, 2);
        if s < p.len() {
            lemma_sep_from_range(p, s + 1);
        }
    }
}

/// A path that starts with neither a separator nor a drive has no prefix.
pub proof fn lemma_no_prefix(p: Seq<char>)
    requires
        p.len() > 0,
        !is_sep(p[0]),
        !has_drive(p),
    ensures
        prefix_len(p) == 0,
        after_prefix(p) == p,
{
    assert(p.skip(0) =~= p);
}


pub proof fn lemma_split_nonempty(p: Seq<char>)
    ensures
        split_at_seps(p).len() >= 1,
    decreases p.len(),
{
    if p.len() > 0 {
        lemma_split_nonempty(p.drop_last());
    }
}

/// No piece of `split_at_seps(p)` holds a separator.
pub proof fn lemma_split_no_sep(p: Seq<char>)
    ensures
        forall|i: int, j: int|
            0 <= i < split_at_seps(p).len() && 0 <= j < split_at_seps(p)[i].len() ==> !is_sep(
                #[trigger] split_at_seps(p)[i][j],
            ),
    decreases p.len(),
{
    if p.len() > 0 {
        lemma_split_no_sep(p.drop_last());
        lemma_split_nonempty(p.drop_last());
    }
}

/// A piece without separators splits into itself.
pub proof fn lemma_split_single(seg: Seq<char>)
    requires
        forall|j: int| 0 <= j < seg.len() ==> !is_sep(#[trigger] seg[j]),
    ensures
        split_at_seps(seg) == seq![seg],
    decreases seg.len(),
{
    if seg.len() == 0 {
    } else {
        lemma_split_single(seg.drop_last());
        assert(seg.drop_last().push(seg.last()) =~= seg);
        assert(split_at_seps(seg) =~= seq![seg]);
    }
}

/// Splitting at a separator splits both sides.
pub proof fn lemma_split_concat(a: Seq<char>, b: Seq<char>)
    ensures
        split_at_seps(a + seq!['/'] + b) == split_at_seps(a) + split_at_seps(b),
    decreases b.len(),
{
    lemma_split_nonempty(a);
    lemma_split_nonempty(b);
    if b.len() == 0 {
        assert((a + seq!['/'] + b).drop_last() =~= a);
        assert(split_at_seps(a + seq!['/'] + b) =~= split_at_seps(a) + split_at_seps(b));
    } else {
        let ab = a + seq!['/'] + b;
        assert(ab.drop_last() =~= a + seq!['/'] + b.drop_last());
        lemma_split_concat(a, b.drop_last());
        lemma_split_nonempty(b.drop_last());
        assert(ab.last() == b.last());
        assert(split_at_seps(ab) =~= split_at_seps(a) + split_at_seps(b));
    }
}

/// Joining name components and splitting again gives them back.
pub proof fn lemma_split_join(s: Seq<Seq<char>>)
    requires
        s.len() >= 1,
        forall|i: int, j: int| 0 <= i < s.len() && 0 <= j < s[i].len() ==> !is_sep(#[trigger] s[i][j]),
    ensures
        split_at_seps(join_parts(s)) == s,
    decreases s.len(),
{
    if s.len() == 1 {
        lemma_split_single(s[0]);
        assert(split_at_seps(join_parts(s)) =~= s);
    } else {
        lemma_split_join(s.drop_last());
        lemma_split_single(s.last());
        lemma_split_concat(join_parts(s.drop_last()), s.last());
        assert(split_at_seps(join_parts(s)) =~= s);
    }
}

/// Every component of `path_parts(p)` is a part without separators.
pub proof fn lemma_parts_shape(p: Seq<char>)
    ensures
        forall|i: int| 0 <= i < path_parts(p).len() ==> is_part(#[trigger] path_parts(p)[i]),
        forall|i: int, j: int|
            0 <= i < path_parts(p).len() && 0 <= j < path_parts(p)[i].len() ==> !is_sep(
                #[trigger] path_parts(p)[i][j],
            ),
{
    let sp = split_at_seps(after_prefix(p));
    lemma_split_no_sep(after_prefix(p));
    assert forall|i: int| 0 <= i < path_parts(p).len() implies is_part(
        #[trigger] path_parts(p)[i],
    ) by {
        sp.lemma_filter_pred(part_pred(), i);
    }
    assert forall|i: int, j: int|
        0 <= i < path_parts(p).len() && 0 <= j < path_parts(p)[i].len() implies !is_sep(
        #[trigger] path_parts(p)[i][j],
    ) by {
        sp.lemma_filter_pred(part_pred(), i);
        let x = path_parts(p)[i];
        sp.lemma_filter_contains_rev(part_pred(), x);
        let k = choose|k: int| 0 <= k < sp.len() && sp[k] == x;
        assert(!is_sep(sp[k][j]));
    }
}

// ───────────────────────── character tests ─────────────────────────

fn is_part_chars(seg: &Vec<char>) -> (b: bool)
    ensures
        b == is_part(seg@),
{
    if seg.len() == 0 {
        return false;
    }
    if seg.len() == 1 && seg[0] == '.' {
        assert(seg@ =~= seq!['.']);
        return false;
    }
    proof {
        if seg@ == seq!['.'] {
            assert(seg@[0] == '.');
        }
    }
    true
}

fn is_parent_chars(seg: &Vec<char>) -> (b: bool)
    ensures
        b == is_parent(seg@),
{
    if seg.len() == 2 && seg[0] == '.' && seg[1] == '.' {
        assert(seg@ =~= seq!['.', '.']);
        return true;
    }
    proof {
        if seg@ == seq!['.', '.'] {
            assert(seg@[0] == '.' && seg@[1] == '.');
        }
    }
    false
}

fn is_name_char_exec(c: char) -> (b: bool)
    ensures
        b == is_name_char(c),
{
    ('a' <= c && c <= 'z') || ('A' <= c && c <= 'Z') || ('0' <= c && c <= '9') || c == '-'
        || c == '_'
}

fn is_ascii_letter_exec(c: char) -> (b: bool)
    ensures
        b == is_ascii_letter(c),
{
    ('a' <= c && c <= 'z') || ('A' <= c && c <= 'Z')
}

fn is_sep_exec(c: char) -> (b: bool)
    ensures
        b == is_sep(c),
{
    c == '/' || c == '\\'
}

/// Whether the characters start with a drive prefix.
fn has_drive_chars(v: &Vec<char>) -> (b: bool)
    ensures
        b == has_drive(v@),
{
    v.len() >= 2 && is_ascii_letter_exec(v[0]) && v[1] == ':'
}

/// The first separator of `v` at index `from` or later, or its length.
fn sep_from_of(v: &Vec<char>, from: usize) -> (r: usize)
    requires
        from <= v.len(),
    ensures
        r == sep_from(v@, from as int),
        from <= r <= v.len(),
{
    let mut i = from;
    while i < v.len() && !is_sep_exec(v[i])
        invariant
            from <= i <= v.len(),
            sep_from(v@, from as int) == sep_from(v@, i as int),
        decreases v.len() - i,
    {
        i = i + 1;
    }
    i
}

/// The length of the prefix of `v`.
fn prefix_len_of(v: &Vec<char>) -> (r: usize)
    ensures
        r == prefix_len(v@),
        r <= v.len(),
{
    proof {
        lemma_prefix_len_range(v@);
    }
    let n = v.len();
    if has_drive_chars(v) {
        return 2;
    }
    let double = n >= 2 && is_sep_exec(v[0]) && is_sep_exec(v[1]);
    let verbatim = double && n >= 4 && v[2] == '?' && is_sep_exec(v[3]);
    let device = double && n >= 4 && v[2] == '.' && is_sep_exec(v[3]);
    if verbatim && n >= 8 && v[4] == 'U' && v[5] == 'N' && v[6] == 'C' && is_sep_exec(v[7]) {
        let s = sep_from_of(v, 8);
        if s >= n {
            n
        } else {
            let e = sep_from_of(v, s + 1);
            if e == s + 1 {
                s
            } else {
                e
            }
        }
    } else if verbatim || device {
        sep_from_of(v, 4)
    } else if double {
        let s = sep_from_of(v, 2);
        if s == 2 || s >= n {
            0
        } else {
            let e = sep_from_of(v, s + 1);
            if e == s + 1 {
                0
            } else {
                e
            }
        }
    } else {
        0
    }
}

/// The prefix of `v` as prefixes compare.
fn prefix_key_of(v: &Vec<char>) -> (r: Vec<char>)
    ensures
        r@ == prefix_key(v@),
{
    let k = prefix_len_of(v);
    let drive = has_drive_chars(v);
    let vdisk = k == 6 && v.len() >= 6 && is_sep_exec(v[0]) && is_sep_exec(v[1]) && v[2] == '?'
        && is_sep_exec(v[3]) && is_ascii_letter_exec(v[4]) && v[5] == ':';
    assert(vdisk == is_verbatim_disk(v@));
    let mut r: Vec<char> = Vec::new();
    let mut i: usize = 0;
    while i < k
        invariant
            i <= k,
            k == prefix_len(v@),
            k <= v.len(),
            drive == has_drive(v@),
            vdisk == is_verbatim_disk(v@),
            r@ =~= Seq::new(i as nat, |j: int| key_char(v@, j)),
        decreases k - i,
    {
        let c = v[i];
        let kc = if is_sep_exec(c) {
            '\\'
        } else if (i == 0 && drive) || (i == 4 && vdisk) {
            to_ascii_lower_char(c)
        } else {
            c
        };
        assert(kc == key_char(v@, i as int));
        r.push(kc);
        i = i + 1;
    }
    r
}

// ───────────────────────── path functions ─────────────────────────

/// The components of `p` other than the root and the current directory, in
/// order.
pub fn path_parts_of(p: &str) -> (r: Vec<Vec<char>>)
    ensures
        views(r@) == path_parts(p@),
{
    let all = chars_of(p);
    let k = prefix_len_of(&all);
    let chars = sub_chars(&all, k, all.len());
    let ghost q = after_prefix(p@);
    assert(chars@ =~= q);
    let mut parts: Vec<Vec<char>> = Vec::new();
    let mut cur: Vec<char> = Vec::new();
    let mut i: usize = 0;
    assert(q.take(0) =~= Seq::<char>::empty());
    while i < chars.len()
        invariant
            i <= chars.len(),
            chars@ == q,
            split_at_seps(q.take(i as int)).len() >= 1,
            cur@ == split_at_seps(q.take(i as int)).last(),
            views(parts@) == split_at_seps(q.take(i as int)).drop_last().filter(part_pred()),
        decreases chars.len() - i,
    {
        let c = chars[i];
        let ghost sp = split_at_seps(q.take(i as int));
        assert(q.take(i + 1).drop_last() =~= q.take(i as int));
        assert(q.take(i + 1).last() == c);
        if c == '/' || c == '\\' {
            let ghost old_parts = views(parts@);
            assert(split_at_seps(q.take(i + 1)) == sp.push(Seq::<char>::empty()));
            assert(sp.push(Seq::<char>::empty()).drop_last() =~= sp);
            assert(sp.drop_last().push(sp.last()) =~= sp);
            proof { sp.drop_last().lemma_filter_push(sp.last(), part_pred()); }
            let keep = is_part_chars(&cur);
            if keep {
                let mut taken: Vec<char> = Vec::new();
                std::mem::swap(&mut taken, &mut cur);
                parts.push(taken);
                assert(views(parts@) =~= old_parts.push(taken@));
            } else {
                cur = Vec::new();
            }
        } else {
            assert(split_at_seps(q.take(i + 1)) == sp.update(sp.len() - 1, sp.last().push(c)));
            assert(sp.update(sp.len() - 1, sp.last().push(c)).drop_last() =~= sp.drop_last());
            cur.push(c);
        }
        i = i + 1;
    }
    assert(q.take(chars.len() as int) =~= q);
    let ghost sp = split_at_seps(q);
    let ghost old_parts = views(parts@);
    assert(sp.drop_last().push(sp.last()) =~= sp);
    proof { sp.drop_last().lemma_filter_push(sp.last(), part_pred()); }
    if is_part_chars(&cur) {
        parts.push(cur);
        assert(views(parts@) =~= old_parts.push(sp.last()));
    }
    parts
}

/// The file name of `p` (`Path::file_name`).
pub fn file_name_chars(p: &str) -> (r: Option<Vec<char>>)
    ensures
        match r {
            Some(v) => file_name(p@) == Some(v@),
            None => file_name(p@) is None,
        },
{
    let mut parts = path_parts_of(p);
    if parts.len() == 0 {
        return None;
    }
    let ghost before = parts@;
    let last = parts.pop().unwrap();
    assert(last@ == views(before).last());
    if is_parent_chars(&last) {
        None
    } else {
        Some(last)
    }
}

/// Index of the last `.` in `f`, if any.
fn last_dot_of(f: &[char]) -> (r: Option<usize>)
    ensures
        match r {
            Some(i) => last_dot(f@) == i as int && i < f.len(),
            None => last_dot(f@) == -1,
        },
{
    let mut r: Option<usize> = None;
    let mut i: usize = 0;
    assert(f@.take(0) =~= Seq::<char>::empty());
    while i < f.len()
        invariant
            i <= f.len(),
            match r {
                Some(k) => last_dot(f@.take(i as int)) == k as int && k < i,
                None => last_dot(f@.take(i as int)) == -1,
            },
        decreases f.len() - i,
    {
        assert(f@.take(i + 1).drop_last() =~= f@.take(i as int));
        if f[i] == '.' {
            r = Some(i);
        }
        i = i + 1;
    }
    assert(f@.take(f.len() as int) =~= f@);
    r
}

/// The extension of the file name `f`, if any.
pub fn name_extension_chars(f: &[char]) -> (r: Option<Vec<char>>)
    ensures
        match r {
            Some(v) => name_extension(f@) == Some(v@),
            None => name_extension(f@) is None,
        },
{
    match last_dot_of(f) {
        Some(d) => {
            if d > 0 {
                Some(sub_chars(f, d + 1, f.len()))
            } else {
                None
            }
        },
        None => None,
    }
}

/// The stem of the file name `f`.
pub fn name_stem_chars(f: &[char]) -> (r: Vec<char>)
    ensures
        r@ == name_stem(f@),
{
    match last_dot_of(f) {
        Some(d) => {
            if d > 0 {
                sub_chars(f, 0, d)
            } else {
                sub_chars(f, 0, f.len())
            }
        },
        None => sub_chars(f, 0, f.len()),
    }
}

/// The extension of `p` in ASCII lower case, if it has one.
pub fn lower_extension_of(p: &str) -> (r: Option<Vec<char>>)
    ensures
        match r {
            Some(v) => lower_extension(p@) == Some(v@),
            None => lower_extension(p@) is None,
        },
{
    match file_name_chars(p) {
        Some(f) => match name_extension_chars(&f) {
            Some(e) => Some(to_ascii_lower(&e)),
            None => None,
        },
        None => None,
    }
}

/// The file name of `p`, or `default` when it has none.
pub fn file_name_or_default(p: &str, default: &str) -> (r: String)
    ensures
        r@ == file_name_or(p@, default@),
{
    match file_name_chars(p) {
        Some(f) => string_of(&f),
        None => default.to_owned(),
    }
}

/// The file stem of `p`, or `default` when it has none.
pub fn file_stem_or_default(p: &str, default: &str) -> (r: String)
    ensures
        r@ == file_stem_or(p@, default@),
{
    match file_name_chars(p) {
        Some(f) => string_of(&name_stem_chars(&f)),
        None => default.to_owned(),
    }
}

/// Whether `a` and `b` are the same path, compared as `Path`s are.
pub fn paths_equal(a: &str, b: &str) -> (r: bool)
    ensures
        r == same_path(a@, b@),
{
    let ca = chars_of(a);
    let cb = chars_of(b);
    let ka = prefix_key_of(&ca);
    let kb = prefix_key_of(&cb);
    if !chars_eq(ka.as_slice(), kb.as_slice()) {
        return false;
    }
    let la = prefix_len_of(&ca);
    let lb = prefix_len_of(&cb);
    let qa = sub_chars(&ca, la, ca.len());
    let qb = sub_chars(&cb, lb, cb.len());
    assert(qa@ =~= after_prefix(a@));
    assert(qb@ =~= after_prefix(b@));
    let phys_a = qa.len() > 0 && is_sep_exec(qa[0]);
    let phys_b = qb.len() > 0 && is_sep_exec(qb[0]);
    let drive_a = has_drive_chars(&ca);
    let drive_b = has_drive_chars(&cb);
    let verb_a = ca.len() >= 4 && is_sep_exec(ca[0]) && is_sep_exec(ca[1]) && ca[2] == '?' && is_sep_exec(ca[3]);
    let verb_b = cb.len() >= 4 && is_sep_exec(cb[0]) && is_sep_exec(cb[1]) && cb[2] == '?' && is_sep_exec(cb[3]);
    let root_a = phys_a || (la > 0 && !drive_a && !verb_a);
    let root_b = phys_b || (lb > 0 && !drive_b && !verb_b);
    if root_a != root_b {
        return false;
    }
    let any_root_a = phys_a || (la > 0 && !drive_a);
    let any_root_b = phys_b || (lb > 0 && !drive_b);
    let cur_a = !any_root_a && qa.len() > 0 && qa[0] == '.' && (qa.len() == 1 || is_sep_exec(qa[1]));
    let cur_b = !any_root_b && qb.len() > 0 && qb[0] == '.' && (qb.len() == 1 || is_sep_exec(qb[1]));
    if cur_a != cur_b {
        return false;
    }
    let pa = path_parts_of(a);
    let pb = path_parts_of(b);
    if pa.len() != pb.len() {
        assert(views(pa@).len() != views(pb@).len());
        return false;
    }
    let mut i: usize = 0;
    while i < pa.len()
        invariant
            pa.len() == pb.len(),
            i <= pa.len(),
            views(pa@) == path_parts(a@),
            views(pb@) == path_parts(b@),
            forall|j: int| 0 <= j < i ==> path_parts(a@)[j] == path_parts(b@)[j],
        decreases pa.len() - i,
    {
        assert(views(pa@)[i as int] == pa@[i as int]@);
        assert(views(pb@)[i as int] == pb@[i as int]@);
        if !chars_eq(pa[i].as_slice(), pb[i].as_slice()) {
            return false;
        }
        i = i + 1;
    }
    assert(path_parts(a@) =~= path_parts(b@));
    true
}

/// `base` joined with `rel` (`PathBuf::join`).
pub fn join(base: &str, rel: &str) -> (r: String)
    ensures
        r@ == join_path(base@, rel@),
{
    let b = chars_of(base);
    let q = chars_of(rel);
    if prefix_len_of(&q) > 0 {
        return string_of(&q);
    }
    if q.len() > 0 && is_sep_exec(q[0]) {
        let k = prefix_len_of(&b);
        let mut out = sub_chars(&b, 0, k);
        append_chars(&mut out, &q);
        assert(out@ =~= join_path(base@, rel@));
        return string_of(&out);
    }
    let bare_drive = b.len() == 2 && has_drive_chars(&b);
    let mut out = b;
    if out.len() > 0 && !is_sep_exec(out[out.len() - 1]) && !bare_drive {
        out.push('/');
    }
    append_chars(&mut out, &q);
    assert(out@ =~= join_path(base@, rel@));
    string_of(&out)
}

// ───────────────────────── the library's name rules ─────────────────────────

/// Sanitizes an archive name for use in a directory name: every character
/// that is not an ASCII letter, an ASCII digit, `-` or `_` becomes `_`; an
/// empty name becomes `archive`.
pub fn sanitize_name(name: &str) -> (r: String)
    ensures
        r@ == sanitized(name@),
{
    let chars = chars_of(name);
    let mut out: Vec<char> = Vec::new();
    let mut i: usize = 0;
    while i < chars.len()
        invariant
            i <= chars.len(),
            chars@ == name@,
            out@ == name@.take(i as int).map_values(|c: char| sanitize_char(c)),
        decreases chars.len() - i,
    {
        let c = chars[i];
        if is_name_char_exec(c) {
            out.push(c);
        } else {
            out.push('_');
        }
        i = i + 1;
        assert(out@ =~= name@.take(i as int).map_values(|c: char| sanitize_char(c)));
    }
    assert(name@.take(chars.len() as int) =~= name@);
    if out.len() == 0 {
        let w = vec!['a', 'r', 'c', 'h', 'i', 'v', 'e'];
        assert(w@ =~= archive_word());
        string_of(&w)
    } else {
        string_of(&out)
    }
}

fn ext_is_image(e: &Vec<char>) -> (b: bool)
    ensures
        b == is_image_ext(e@),
{
    let png = vec!['p', 'n', 'g'];
    let jpg = vec!['j', 'p', 'g'];
    let jpeg = vec!['j', 'p', 'e', 'g'];
    let webp = vec!['w', 'e', 'b', 'p'];
    let gif = vec!['g', 'i', 'f'];
    let svg = vec!['s', 'v', 'g'];
    let bmp = vec!['b', 'm', 'p'];
    let avif = vec!['a', 'v', 'i', 'f'];
    assert(png@ =~= seq!['p', 'n', 'g']);
    assert(jpg@ =~= seq!['j', 'p', 'g']);
    assert(jpeg@ =~= seq!['j', 'p', 'e', 'g']);
    assert(webp@ =~= seq!['w', 'e', 'b', 'p']);
    assert(gif@ =~= seq!['g', 'i', 'f']);
    assert(svg@ =~= seq!['s', 'v', 'g']);
    assert(bmp@ =~= seq!['b', 'm', 'p']);
    assert(avif@ =~= seq!['a', 'v', 'i', 'f']);
    chars_eq(e, &png) || chars_eq(e, &jpg) || chars_eq(e, &jpeg) || chars_eq(e, &webp)
        || chars_eq(e, &gif) || chars_eq(e, &svg) || chars_eq(e, &bmp) || chars_eq(e, &avif)
}

fn ext_is_zip(e: &Vec<char>) -> (b: bool)
    ensures
        b == is_zip_ext(e@),
{
    let zip = vec!['z', 'i', 'p'];
    let cbz = vec!['c', 'b', 'z'];
    assert(zip@ =~= seq!['z', 'i', 'p']);
    assert(cbz@ =~= seq!['c', 'b', 'z']);
    chars_eq(e, &zip) || chars_eq(e, &cbz)
}

fn ext_is_rar(e: &Vec<char>) -> (b: bool)
    ensures
        b == is_rar_ext(e@),
{
    let rar = vec!['r', 'a', 'r'];
    assert(rar@ =~= seq!['r', 'a', 'r']);
    chars_eq(e, &rar)
}

fn ext_is_pdf(e: &Vec<char>) -> (b: bool)
    ensures
        b == is_pdf_ext(e@),
{
    let pdf = vec!['p', 'd', 'f'];
    assert(pdf@ =~= seq!['p', 'd', 'f']);
    chars_eq(e, &pdf)
}

/// Whether `path` names an image the viewer shows: its extension, in any
/// ASCII case, is png, jpg, jpeg, webp, gif, svg, bmp or avif.
pub fn is_supported_image(path: &str) -> (b: bool)
    ensures
        b == is_image_path(path@),
{
    match lower_extension_of(path) {
        Some(e) => ext_is_image(&e),
        None => false,
    }
}

/// Whether `path` names a zip archive: its extension, in any ASCII case, is
/// zip or cbz.
pub fn is_supported_archive(path: &str) -> (b: bool)
    ensures
        b == is_zip_path(path@),
{
    match lower_extension_of(path) {
        Some(e) => ext_is_zip(&e),
        None => false,
    }
}

/// Whether `path` names a rar archive: its extension, in any ASCII case, is
/// rar.
pub fn is_supported_rar(path: &str) -> (b: bool)
    ensures
        b == is_rar_path(path@),
{
    match lower_extension_of(path) {
        Some(e) => ext_is_rar(&e),
        None => false,
    }
}

/// Whether `path` names a PDF document: its extension, in any ASCII case, is
/// pdf.
pub fn is_supported_pdf(path: &str) -> (b: bool)
    ensures
        b == is_pdf_path(path@),
{
    match lower_extension_of(path) {
        Some(e) => ext_is_pdf(&e),
        None => false,
    }
}

/// The relative path made of the name components of `path` alone, joined
/// with `/`; `None` when there is none.
pub fn safe_relative_path(path: &str) -> (r: Option<String>)
    ensures
        match r {
            Some(s) => safe_relative(path@) == Some(s@),
            None => safe_relative(path@) is None,
        },
{
    let parts = path_parts_of(path);
    let ghost ps = views(parts@);
    let mut out: Vec<char> = Vec::new();
    let mut count: usize = 0;
    let mut i: usize = 0;
    assert(ps.take(0) =~= Seq::<Seq<char>>::empty());
    reveal(Seq::filter);
    while i < parts.len()
        invariant
            i <= parts.len(),
            ps == views(parts@),
            count == ps.take(i as int).filter(normal_pred()).len(),
            out@ == join_parts(ps.take(i as int).filter(normal_pred())),
            count <= i,
        decreases parts.len() - i,
    {
        let ghost before = ps.take(i as int).filter(normal_pred());
        assert(ps.take(i + 1) =~= ps.take(i as int).push(ps[i as int]));
        proof { ps.take(i as int).lemma_filter_push(ps[i as int], normal_pred()); }
        let seg = &parts[i];
        assert(seg@ == ps[i as int]);
        if is_part_chars(seg) && !is_parent_chars(seg) {
            if count > 0 {
                out.push('/');
            }
            append_chars(&mut out, seg);
            count = count + 1;
            assert(before.push(seg@).drop_last() =~= before);
            assert(out@ =~= join_parts(before.push(seg@)));
        }
        i = i + 1;
    }
    assert(ps.take(parts.len() as int) =~= ps);
    if count == 0 {
        None
    } else {
        Some(string_of(&out))
    }
}

/// The name shown for an entry: the file name of `path`, or `image` when it
/// has none.
pub fn entry_name(path: &str) -> (r: String)
    ensures
        r@ == file_name_or(path@, image_word()),
{
    match file_name_chars(path) {
        Some(f) => string_of(&f),
        None => {
            let w = vec!['i', 'm', 'a', 'g', 'e'];
            assert(w@ =~= image_word());
            string_of(&w)
        },
    }
}

// ───────────────────────── laws ─────────────────────────

/// Law of `is_supported_image`: it holds exactly when the extension of the path's file
/// name, in ASCII lower case, is one of png, jpg, jpeg, webp, gif, svg, bmp, avif; any other extension, or
/// none, gives `false`.
pub proof fn law_is_supported_image_by_extension(path: &str, b: bool)
    requires
        call_ensures(is_supported_image, (path,), b),
    ensures
        b <==> (lower_extension(path@) matches Some(e) && set![seq!['p', 'n', 'g'], seq!['j', 'p', 'g'], seq!['j', 'p', 'e', 'g'], seq!['w', 'e', 'b', 'p'], seq!['g', 'i', 'f'], seq!['s', 'v', 'g'], seq!['b', 'm', 'p'], seq!['a', 'v', 'i', 'f']].contains(e)),
{
}

/// Law of `is_supported_archive`: it holds exactly when the extension of the path's file
/// name, in ASCII lower case, is one of zip, cbz; any other extension, or
/// none, gives `false`.
pub proof fn law_is_supported_archive_by_extension(path: &str, b: bool)
    requires
        call_ensures(is_supported_archive, (path,), b),
    ensures
        b <==> (lower_extension(path@) matches Some(e) && set![seq!['z', 'i', 'p'], seq!['c', 'b', 'z']].contains(e)),
{
}

/// Law of `is_supported_rar`: it holds exactly when the extension of the path's file
/// name, in ASCII lower case, is one of rar; any other extension, or
/// none, gives `false`.
pub proof fn law_is_supported_rar_by_extension(path: &str, b: bool)
    requires
        call_ensures(is_supported_rar, (path,), b),
    ensures
        b <==> (lower_extension(path@) matches Some(e) && set![seq!['r', 'a', 'r']].contains(e)),
{
}

/// Law of `is_supported_pdf`: it holds exactly when the extension of the path's file
/// name, in ASCII lower case, is one of pdf; any other extension, or
/// none, gives `false`.
pub proof fn law_is_supported_pdf_by_extension(path: &str, b: bool)
    requires
        call_ensures(is_supported_pdf, (path,), b),
    ensures
        b <==> (lower_extension(path@) matches Some(e) && set![seq!['p', 'd', 'f']].contains(e)),
{
}


/// A sanitized name is never empty and is made of ASCII letters, ASCII digits,
/// `-` and `_` only; a non-empty name keeps its length, character for
/// character.
pub proof fn lemma_sanitized_shape(s: Seq<char>)
    ensures
        sanitized(s).len() > 0,
        forall|i: int| 0 <= i < sanitized(s).len() ==> is_name_char(#[trigger] sanitized(s)[i]),
        s.len() > 0 ==> sanitized(s).len() == s.len(),
        s.len() > 0 ==> forall|i: int|
            0 <= i < s.len() ==> #[trigger] sanitized(s)[i] == sanitize_char(s[i]),
{
}

/// Sanitizing a sanitized name changes nothing.
pub proof fn lemma_sanitize_idempotent(s: Seq<char>)
    ensures
        sanitized(sanitized(s)) == sanitized(s),
{
    lemma_sanitized_shape(s);
    let t = sanitized(s);
    assert(sanitized(t) =~= t);
}

/// A path is at most one of: an image, a zip archive, a rar archive, a PDF.
pub proof fn lemma_kinds_exclusive(p: Seq<char>)
    ensures
        is_image_path(p) ==> !is_zip_path(p) && !is_rar_path(p) && !is_pdf_path(p),
        is_zip_path(p) ==> !is_rar_path(p) && !is_pdf_path(p),
        is_rar_path(p) ==> !is_pdf_path(p),
{
    if let Some(e) = lower_extension(p) {
        if e.len() == 3 {
            if e[0] == 'p' {
                assert(!is_zip_ext(e) && !is_rar_ext(e)) by {
                    if e == seq!['z', 'i', 'p'] || e == seq!['c', 'b', 'z'] || e == seq![
                        'r',
                        'a',
                        'r',
                    ] {
                        assert(e[0] != 'p');
                    }
                }
                assert(is_image_ext(e) ==> !is_pdf_ext(e)) by {
                    if is_image_ext(e) && is_pdf_ext(e) {
                        assert(e[1] == 'd');
                        assert(e[1] == 'n');
                    }
                }
            }
        }
        assert(is_image_ext(e) ==> !is_zip_ext(e) && !is_rar_ext(e) && !is_pdf_ext(e)) by {
            if is_image_ext(e) {
                if is_zip_ext(e) || is_rar_ext(e) || is_pdf_ext(e) {
                    assert(e.len() == 3);
                    let c0 = e[0];
                    let c1 = e[1];
                    assert(c0 == 'p' || c0 == 'j' || c0 == 'g' || c0 == 's' || c0 == 'b');
                    assert(c0 == 'z' || c0 == 'c' || c0 == 'r' || c0 == 'p');
                    assert(c0 == 'p');
                    assert(c1 == 'n');
                    assert(c1 == 'd');
                }
            }
        }
        assert(is_zip_ext(e) ==> !is_rar_ext(e) && !is_pdf_ext(e)) by {
            if is_zip_ext(e) && (is_rar_ext(e) || is_pdf_ext(e)) {
                let c0 = e[0];
                assert(c0 == 'z' || c0 == 'c');
                assert(c0 == 'r' || c0 == 'p');
            }
        }
        assert(is_rar_ext(e) ==> !is_pdf_ext(e)) by {
            if is_rar_ext(e) && is_pdf_ext(e) {
                assert(e[0] == 'r');
                assert(e[0] == 'p');
            }
        }
    }
}

/// The name components of a path (its components other than `..`) are
/// names without separators.
proof fn lemma_names_shape(p: Seq<char>)
    ensures
        forall|i: int|
            0 <= i < path_parts(p).filter(normal_pred()).len() ==> is_normal(
                #[trigger] path_parts(p).filter(normal_pred())[i],
            ),
        forall|i: int, j: int|
            0 <= i < path_parts(p).filter(normal_pred()).len() && 0 <= j < path_parts(p).filter(
                normal_pred(),
            )[i].len() ==> !is_sep(#[trigger] path_parts(p).filter(normal_pred())[i][j]),
{
    let names = path_parts(p).filter(normal_pred());
    lemma_parts_shape(p);
    assert forall|i: int| 0 <= i < names.len() implies is_normal(#[trigger] names[i]) by {
        path_parts(p).lemma_filter_pred(normal_pred(), i);
    }
    assert forall|i: int, j: int|
        0 <= i < names.len() && 0 <= j < names[i].len() implies !is_sep(#[trigger] names[i][j]) by {
        let x = names[i];
        path_parts(p).lemma_filter_pred(normal_pred(), i);
        path_parts(p).lemma_filter_contains_rev(normal_pred(), x);
        let k = choose|k: int| 0 <= k < path_parts(p).len() && path_parts(p)[k] == x;
        assert(!is_sep(path_parts(p)[k][j]));
    }
}

/// The safe relative form of a path is its own safe relative form: it is made
/// of name components only. This fails when the first name reads as a drive
/// (`\C:x` gives `C:x`, whose `C:` is then a prefix).
pub proof fn lemma_safe_relative_idempotent(p: Seq<char>)
    ensures
        match safe_relative(p) {
            Some(q) => !has_drive(q) ==> safe_relative(q) == Some(q),
            None => true,
        },
{
    let names = path_parts(p).filter(normal_pred());
    if names.len() > 0 && !has_drive(join_parts(names)) {
        lemma_parts_shape(p);
        lemma_names_shape(p);
        let q = join_parts(names);
        assert(is_normal(names[0]));
        lemma_join_parts_first(names);
        lemma_no_prefix(q);
        lemma_split_join(names);
        lemma_filter_all(names, part_pred());
        lemma_filter_all(names, normal_pred());
        assert(path_parts(q) == names);
    }
}

/// A file name is never empty, holds no separator and is neither `.` nor `..`;
/// so the name shown for an entry is never empty and holds no separator.
pub proof fn lemma_file_name_shape(p: Seq<char>)
    ensures
        file_name(p) matches Some(f) ==> is_normal(f) && forall|j: int|
            0 <= j < f.len() ==> !is_sep(#[trigger] f[j]),
        file_name_or(p, image_word()).len() > 0,
        forall|j: int|
            0 <= j < file_name_or(p, image_word()).len() ==> !is_sep(
                #[trigger] file_name_or(p, image_word())[j],
            ),
{
    lemma_parts_shape(p);
    let parts = path_parts(p);
    if parts.len() > 0 {
        assert(is_part(parts[parts.len() - 1]));
    }
}

proof fn lemma_join_parts_first(s: Seq<Seq<char>>)
    requires
        s.len() >= 1,
        s[0].len() > 0,
    ensures
        join_parts(s).len() > 0,
        join_parts(s)[0] == s[0][0],
    decreases s.len(),
{
    if s.len() > 1 {
        lemma_join_parts_first(s.drop_last());
    }
}

/// An archive entry's path made safe stays inside the directory it is joined
/// to: it has neither prefix nor root, is made of name components only, and
/// joining keeps the directory as a prefix. This fails when the first name
/// reads as a drive: `\C:x` gives `C:x`, which `PathBuf::join` (and so
/// `join_path`) puts in place of the directory.
pub proof fn lemma_safe_join_stays_inside(dir: Seq<char>, p: Seq<char>)
    ensures
        match safe_relative(p) {
            Some(rel) => !has_drive(rel) ==> {
            &&& rel.len() > 0
            &&& !is_sep(rel[0])
            &&& forall|i: int| 0 <= i < path_parts(rel).len() ==> is_normal(#[trigger] path_parts(rel)[i])
            &&& join_path(dir, rel).len() > dir.len()
            &&& join_path(dir, rel).subrange(0, dir.len() as int) == dir
        },
            None => true,
        },
{
    let names = path_parts(p).filter(normal_pred());
    if names.len() > 0 && !has_drive(join_parts(names)) {
        lemma_parts_shape(p);
        let rel = join_parts(names);
        lemma_names_shape(p);
        assert(is_normal(names[0]));
        assert(!is_sep(names[0][0]));
        lemma_join_parts_first(names);
        lemma_no_prefix(rel);
        // the components of `rel` are exactly the names it was joined from
        lemma_split_join_names(p);
        assert forall|i: int| 0 <= i < path_parts(rel).len() implies is_normal(
            #[trigger] path_parts(rel)[i],
        ) by {
            path_parts(p).lemma_filter_pred(normal_pred(), i);
        }
        assert(join_path(dir, rel).subrange(0, dir.len() as int) =~= dir);
    }
}

/// The components of the safe relative form of `p` are its name components.
proof fn lemma_split_join_names(p: Seq<char>)
    ensures
        path_parts(p).filter(normal_pred()).len() > 0 && !has_drive(
            join_parts(path_parts(p).filter(normal_pred())),
        ) ==> path_parts(join_parts(path_parts(p).filter(normal_pred())))
            == path_parts(p).filter(normal_pred()),
{
    let names = path_parts(p).filter(normal_pred());
    if names.len() > 0 && !has_drive(join_parts(names)) {
        lemma_parts_shape(p);
        lemma_names_shape(p);
        assert(is_normal(names[0]));
        lemma_join_parts_first(names);
        lemma_no_prefix(join_parts(names));
        lemma_split_join(names);
        lemma_filter_all(names, part_pred());
    }
}

/// The last dot lies inside the name (or is absent).
pub proof fn lemma_last_dot_range(f: Seq<char>)
    ensures
        -1 <= last_dot(f) < f.len(),
    decreases f.len(),
{
    if f.len() > 0 {
        lemma_last_dot_range(f.drop_last());
    }
}

} // verus!
