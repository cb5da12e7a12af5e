//! The project root: which directories are looked at, and which one is chosen.

use crate::path::{components, same_path, within};
use crate::root::{
    ancestry, cwd_views, distinct, explicit, in_temp, law_nearest_comes_first,
    law_nearest_is_usable, listed, nearest, next_pid, tmp_path, walked, Candidate, Cwd, CwdView,
    Process, ProcessView, WalkView, MAX_ANCESTORS,
};
use vstd::prelude::*;

verus! {

/// A walk records the process that was looked up with its working directory as it was
/// observed, behind what it has, and whether that is a directory; it records nothing of a
/// process without one. The next process to look up is the parent.
pub proof fn law_walk_records_what_was_observed(
    w: WalkView,
    pid: u32,
    dir: Seq<u8>,
    is_dir: bool,
    parent: Option<u32>,
)
    ensures
        ({
            let after = walked(w, pid, Some(ProcessView { cwd: Some((dir, is_dir)), parent }));
            &&& after.cwds.len() == w.cwds.len() + 1
            &&& after.cwds.drop_last() == w.cwds
            &&& after.cwds.last().pid == pid
            &&& after.cwds.last().dir == dir
            &&& after.cwds.last().is_dir == is_dir
            &&& after.left == w.left - 1
            &&& after.pid == (if w.left > 1 && parent is Some && parent->0 > 1 && parent->0 != pid {
                parent
            } else {
                None
            })
        }),
        ({
            let after = walked(w, pid, Some(ProcessView { cwd: None, parent }));
            &&& after.cwds == w.cwds
            &&& after.left == w.left - 1
            &&& after.pid == (if w.left > 1 && parent is Some && parent->0 > 1 && parent->0 != pid {
                parent
            } else {
                None
            })
        }),
        walked(w, pid, None).cwds == w.cwds,
        walked(w, pid, None).pid is None,
        walked(w, pid, None).left == w.left,
{
    let after = walked(w, pid, Some(ProcessView { cwd: Some((dir, is_dir)), parent }));
    assert(after.cwds.drop_last() =~= w.cwds);
    assert(walked(w, pid, Some(ProcessView { cwd: None, parent })).cwds =~= w.cwds);
}

/// The parent of a process comes next, unless it is process 1, the process itself, or
/// unknown.
pub proof fn law_which_parent_comes_next(pid: u32, parent: u32)
    ensures
        parent >= 2 && parent != pid ==> next_pid(pid, Some(parent)) == Some(parent),
        parent <= 1 || parent == pid ==> next_pid(pid, Some(parent)) is None,
        next_pid(pid, None) is None,
{
}

/// Whether no directory in `temp` is `dir` or above it.
pub open spec fn outside(dir: Seq<u8>, temp: Seq<Seq<u8>>) -> bool {
    forall|k: int| 0 <= k < temp.len() ==> !within(dir, #[trigger] temp[k])
}

/// The working directory of the process itself is the root, if it is a directory outside
/// the temp dirs.
pub proof fn law_own_directory_is_the_root(
    table: spec_fn(u32) -> Option<ProcessView>,
    pid: u32,
    left: int,
    temp: Seq<Seq<u8>>,
    dir: Seq<u8>,
)
    requires
        left > 0,
        table(pid) is Some,
        table(pid)->0.cwd == Some((dir, true)),
        outside(dir, temp),
    ensures
        nearest(ancestry(table, Some(pid), left), temp) is Some,
        nearest(ancestry(table, Some(pid), left), temp)->0.pid == pid,
        nearest(ancestry(table, Some(pid), left), temp)->0.dir == dir,
{
    let found = ancestry(table, Some(pid), left);
    assert(found[0] == (CwdView { pid, dir, is_dir: true }));
}

/// Otherwise the search goes on with the parent as if it had started there, with one
/// process less to look at.
pub proof fn law_else_the_parents_directory(
    table: spec_fn(u32) -> Option<ProcessView>,
    pid: u32,
    left: int,
    temp: Seq<Seq<u8>>,
)
    requires
        left > 0,
        table(pid) is Some,
        match table(pid)->0.cwd {
            Some((dir, is_dir)) => !is_dir || !outside(dir, temp),
            None => true,
        },
    ensures
        ({
            let parent = table(pid)->0.parent;
            nearest(ancestry(table, Some(pid), left), temp) == (if parent is Some && parent->0 > 1
                && parent->0 != pid {
                nearest(ancestry(table, parent, left - 1), temp)
            } else {
                None
            })
        }),
{
    let found = ancestry(table, Some(pid), left);
    let p = table(pid)->0;
    let rest = ancestry(table, next_pid(pid, p.parent), left - 1);
    match p.cwd {
        Some((dir, is_dir)) => {
            assert(found[0] == (CwdView { pid, dir, is_dir }));
            assert(found.drop_first() =~= rest);
        },
        None => {
            assert(found =~= rest);
        },
    }
}

/// The search ends without a root where there is no process to look up, and where no more
/// may be looked at.
pub proof fn law_where_the_search_ends(
    table: spec_fn(u32) -> Option<ProcessView>,
    pid: u32,
    left: int,
    temp: Seq<Seq<u8>>,
)
    ensures
        nearest(ancestry(table, None, left), temp) is None,
        table(pid) is None ==> nearest(ancestry(table, Some(pid), left), temp) is None,
        left <= 0 ==> nearest(ancestry(table, Some(pid), left), temp) is None,
{
}

/// The root is the first of the working directories that is a directory and lies in no
/// temp dir; there is none only if each of them is no directory or lies in one.
pub proof fn law_first_usable_directory_is_chosen(
    cwds: Seq<CwdView>,
    temp: Seq<Seq<u8>>,
    k: int,
)
    ensures
        0 <= k < cwds.len() && cwds[k].is_dir && outside(cwds[k].dir, temp) && (forall|j: int|
            0 <= j < k ==> !(#[trigger] cwds[j]).is_dir || !outside(cwds[j].dir, temp)) ==> nearest(
            cwds,
            temp,
        ) == Some(cwds[k]),
        (forall|j: int|
            0 <= j < cwds.len() ==> !(#[trigger] cwds[j]).is_dir || !outside(cwds[j].dir, temp))
            ==> nearest(cwds, temp) is None,
{
    if 0 <= k < cwds.len() && cwds[k].is_dir && outside(cwds[k].dir, temp) && (forall|j: int|
        0 <= j < k ==> !(#[trigger] cwds[j]).is_dir || !outside(cwds[j].dir, temp)) {
        law_nearest_comes_first(cwds, temp, k);
    }
    if forall|j: int|
        0 <= j < cwds.len() ==> !(#[trigger] cwds[j]).is_dir || !outside(cwds[j].dir, temp) {
        law_nearest_is_usable(cwds, temp);
        if let Some(c) = nearest(cwds, temp) {
            let j = choose|j: int| 0 <= j < cwds.len() && cwds[j] == c;
            assert(!cwds[j].is_dir || !outside(cwds[j].dir, temp));
        }
    }
}

/// A path lies in a temp dir if it is one or lies below one.
pub proof fn law_what_lies_in_a_temp_dir(path: Seq<u8>, temp: Seq<Seq<u8>>)
    ensures
        in_temp(path, temp) <==> !outside(path, temp),
{
}

/// Of paths with the same components only the first is kept; all others are, in order.
pub proof fn law_which_duplicates_go(dirs: Seq<Seq<u8>>, dir: Seq<u8>)
    ensures
        distinct(Seq::<Seq<u8>>::empty()) == Seq::<Seq<u8>>::empty(),
        (exists|k: int|
            0 <= k < distinct(dirs).len() && components(#[trigger] distinct(dirs)[k]) == components(
                dir,
            )) ==> distinct(dirs.push(dir)) == distinct(dirs),
        (forall|k: int|
            0 <= k < distinct(dirs).len() ==> components(#[trigger] distinct(dirs)[k])
                != components(dir)) ==> distinct(dirs.push(dir)) == distinct(dirs).push(dir),
{
    assert(dirs.push(dir).drop_last() =~= dirs);
    let kept = distinct(dirs);
    if exists|k: int| 0 <= k < kept.len() && components(#[trigger] kept[k]) == components(dir) {
        let k = choose|k: int| 0 <= k < kept.len() && components(#[trigger] kept[k]) == components(dir);
        assert(same_path(kept[k], dir));
        assert(listed(kept, dir));
    }
}

/// The directory for temporary files that every system has, and the number of processes
/// that are looked at.
pub proof fn law_fixed_values()
    ensures
        tmp_path() == seq!['/' as u8, 't' as u8, 'm' as u8, 'p' as u8],
        MAX_ANCESTORS == 64,
{
}

/// A root named on the command line counts before one named in the environment.
pub proof fn law_command_line_counts_first(flag: Candidate, env: Option<Candidate>)
    ensures
        explicit(Some(flag), env) == Some(flag),
        explicit(None, env) == env,
{
}

/// What a working directory and a process say is what their fields say.
pub proof fn law_what_processes_say(c: Cwd, p: Process, cwds: Seq<Cwd>, k: int)
    ensures
        c@.pid == c.pid,
        c@.dir == c.dir@,
        c@.is_dir == c.is_dir,
        p@.parent == p.parent,
        match p.cwd {
            Some((dir, is_dir)) => p@.cwd == Some((dir@, is_dir)),
            None => p@.cwd is None,
        },
        cwd_views(cwds).len() == cwds.len(),
        0 <= k < cwds.len() ==> cwd_views(cwds)[k] == cwds[k]@,
{
}

} // verus!
