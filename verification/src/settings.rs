//! Where the settings file and the search path for the GPU runtime come from.

use vstd::prelude::*;
use crate::media::{join, join_path};
use crate::text::{append_chars, chars_of, string_of};

verus! {

/// The settings file, kept beside the executable.
pub fn settings_file_path(exe_dir: &str) -> (r: String)
    ensures
        r@ == join_path(exe_dir@, "settings.ini"@),
{
    join(exe_dir, "settings.ini")
}

/// The entries joined with `;` separators.
pub open spec fn join_with_semicolons(s: Seq<Seq<char>>) -> Seq<char>
    decreases s.len(),
{
    if s.len() == 0 {
        Seq::<char>::empty()
    } else if s.len() == 1 {
        s[0]
    } else {
        join_with_semicolons(s.drop_last()) + seq![';'] + s.last()
    }
}

pub open spec fn string_views(s: Seq<String>) -> Seq<Seq<char>> {
    s.map_values(|x: String| x@)
}

/// The `PATH` value with the directories `extra` put in front of `current`:
/// `{extra joined with ;};{current}`.
pub fn prepend_search_paths(extra: &Vec<String>, current: &str) -> (r: String)
    ensures
        r@ == join_with_semicolons(string_views(extra@)) + seq![';'] + current@,
{
    let ghost views = string_views(extra@);
    let mut out: Vec<char> = Vec::new();
    let mut i: usize = 0;
    while i < extra.len()
        invariant
            i <= extra.len(),
            views == string_views(extra@),
            out@ == join_with_semicolons(views.take(i as int)),
        decreases extra.len() - i,
    {
        let ghost before = views.take(i as int);
        if i > 0 {
            out.push(';');
        }
        let part = chars_of(extra[i].as_str());
        append_chars(&mut out, &part);
        proof {
            assert(views.take(i + 1).drop_last() =~= before);
            assert(views.take(i + 1).last() == extra@[i as int]@);
            if i == 0 {
                assert(out@ =~= join_with_semicolons(views.take(i + 1)));
            }
        }
        i = i + 1;
    }
    assert(views.take(extra.len() as int) =~= views);
    out.push(';');
    let rest = chars_of(current);
    append_chars(&mut out, &rest);
    string_of(&out)
}

/// Law of `prepend_search_paths`, with no directories or one: the current
/// value follows a `;`, which follows the one directory.
pub proof fn law_prepend_search_paths_single(extra: Vec<String>, current: &str, r: String)
    requires
        call_ensures(prepend_search_paths, (&extra, current), r),
    ensures
        extra.len() == 0 ==> r@ == seq![';'] + current@,
        extra.len() == 1 ==> r@ == extra[0]@ + seq![';'] + current@,
{
    if extra.len() == 1 {
        assert(string_views(extra@) =~= seq![extra[0]@]);
    }
}

/// Law of `prepend_search_paths`, relating two calls: putting directories
/// `a` and then `x` in front of `current` is putting `a` in front of
/// `x;current`. So every pair of consecutive directories is separated by `;`,
/// and the directories come in order, then the current value.
pub proof fn law_prepend_search_paths_one_more(
    a: Vec<String>,
    ax: Vec<String>,
    x: String,
    current: &str,
    x_then_current: &str,
    r1: String,
    r2: String,
)
    requires
        a.len() > 0,
        ax@ == a@.push(x),
        x_then_current@ == x@ + seq![';'] + current@,
        call_ensures(prepend_search_paths, (&ax, current), r1),
        call_ensures(prepend_search_paths, (&a, x_then_current), r2),
    ensures
        r1@ == r2@,
{
    assert(string_views(ax@) =~= string_views(a@).push(x@));
    assert(string_views(ax@).drop_last() =~= string_views(a@));
}

} // verus!
