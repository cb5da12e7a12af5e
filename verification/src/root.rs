//! The project root: the directory that `@path` references are resolved against.
//!
//! Precedence: an explicit `--root`, then `$PROMPTLS_ROOT`, then the nearest
//! ancestor process whose working directory lies outside the temp dirs. What the
//! file system and the process table say comes in as plain values.

use crate::path::{contents, copy_bytes, is_same_path, same_path, starts_with, within};
use vstd::prelude::*;

verus! {

/// How many processes the search for a root looks at, at most. Bounded: a
/// pathological process table could otherwise cycle.
pub const MAX_ANCESTORS: u32 = 64;

/// The working directory of a process.
#[derive(Debug)]
pub struct Cwd {
    pub pid: u32,
    pub dir: Vec<u8>,
    /// Whether `dir` is a directory that exists.
    pub is_dir: bool,
}

/// What a [`Cwd`] says.
#[verifier::ext_equal]
pub struct CwdView {
    pub pid: u32,
    pub dir: Seq<u8>,
    pub is_dir: bool,
}

impl View for Cwd {
    type V = CwdView;

    open spec fn view(&self) -> CwdView {
        CwdView { pid: self.pid, dir: self.dir@, is_dir: self.is_dir }
    }
}

/// What is known of a process that was looked up.
#[derive(Debug)]
pub struct Process {
    /// Its working directory, and whether that is a directory that exists.
    pub cwd: Option<(Vec<u8>, bool)>,
    pub parent: Option<u32>,
}

/// What a [`Process`] says.
#[verifier::ext_equal]
pub struct ProcessView {
    pub cwd: Option<(Seq<u8>, bool)>,
    pub parent: Option<u32>,
}

impl View for Process {
    type V = ProcessView;

    open spec fn view(&self) -> ProcessView {
        ProcessView {
            cwd: match self.cwd {
                Some(c) => Some((c.0@, c.1)),
                None => None,
            },
            parent: self.parent,
        }
    }
}

/// An explicitly named root, as the file system knows it.
#[derive(Debug)]
pub struct Candidate {
    /// The canonical path, and whether it is a directory; `None` if nothing exists
    /// under the name.
    pub resolved: Option<(Vec<u8>, bool)>,
}

/// The root that was chosen.
#[derive(Debug)]
pub struct Root {
    pub dir: Vec<u8>,
    /// The process whose working directory it is, unless it was named explicitly.
    pub pid: Option<u32>,
}

/// Why there is no root.
#[derive(Debug)]
pub enum RootError {
    /// The explicit root does not exist.
    Missing,
    /// No ancestor process has a working directory outside the temp dirs.
    NoAncestor,
    /// The explicit root is not a directory.
    NotADirectory(Vec<u8>),
    /// The explicit root lies inside a temp dir.
    InTempDir(Vec<u8>),
}

/// The path `/tmp`.
pub open spec fn tmp_path() -> Seq<u8> {
    seq![0x2fu8, 0x74u8, 0x6du8, 0x70u8]
}

/// `dirs` without those that name the same path as an earlier one.
pub open spec fn distinct(dirs: Seq<Seq<u8>>) -> Seq<Seq<u8>>
    decreases dirs.len(),
{
    if dirs.len() == 0 {
        Seq::empty()
    } else {
        let kept = distinct(dirs.drop_last());
        if listed(kept, dirs.last()) {
            kept
        } else {
            kept.push(dirs.last())
        }
    }
}

/// Whether `dirs` holds the path of `dir`.
pub open spec fn listed(dirs: Seq<Seq<u8>>, dir: Seq<u8>) -> bool {
    exists|k: int| 0 <= k < dirs.len() && same_path(#[trigger] dirs[k], dir)
}

/// Whether `path` lies in one of the temp dirs.
pub open spec fn in_temp(path: Seq<u8>, temp: Seq<Seq<u8>>) -> bool {
    exists|k: int| 0 <= k < temp.len() && within(path, #[trigger] temp[k])
}

/// Whether a working directory can be the root.
pub open spec fn usable(c: CwdView, temp: Seq<Seq<u8>>) -> bool {
    !in_temp(c.dir, temp) && c.is_dir
}

/// The first working directory that can be the root.
pub open spec fn nearest(cwds: Seq<CwdView>, temp: Seq<Seq<u8>>) -> Option<CwdView>
    decreases cwds.len(),
{
    if cwds.len() == 0 {
        None
    } else if usable(cwds[0], temp) {
        Some(cwds[0])
    } else {
        nearest(cwds.drop_first(), temp)
    }
}

/// What a list of [`Cwd`]s says.
pub open spec fn cwd_views(cwds: Seq<Cwd>) -> Seq<CwdView> {
    cwds.map_values(|c: Cwd| c@)
}

/// The directories that count as temporary: `/tmp` and the temp dir of the
/// operating system, each as written and as resolved, in case the program that
/// started this one uses another temp dir than the one seen here.
pub fn temp_dirs(tmp_canonical: Option<Vec<u8>>, os: Vec<u8>, os_canonical: Option<Vec<u8>>) -> (dirs: Vec<
    Vec<u8>,
>)
    ensures
        contents(dirs@) == distinct(
            seq![
                tmp_path(),
                if tmp_canonical is Some {
                    tmp_canonical->0@
                } else {
                    tmp_path()
                },
                os@,
                if os_canonical is Some {
                    os_canonical->0@
                } else {
                    os@
                },
            ],
        ),
{
    let tmp: Vec<u8> = vec![0x2f, 0x74, 0x6d, 0x70];
    assert(tmp@ =~= tmp_path());
    let tmp_resolved = match tmp_canonical {
        Some(dir) => dir,
        None => copy_bytes(tmp.as_slice(), 0, tmp.len()),
    };
    let os_resolved = match os_canonical {
        Some(dir) => dir,
        None => copy_bytes(os.as_slice(), 0, os.len()),
    };
    assert(tmp_canonical is None ==> tmp_resolved@ =~= tmp_path());
    assert(os_canonical is None ==> os_resolved@ =~= os@);
    let all: Vec<Vec<u8>> = vec![tmp, tmp_resolved, os, os_resolved];
    let dirs = keep_distinct(&all);
    assert(contents(all@) =~= seq![tmp@, tmp_resolved@, os@, os_resolved@]);
    dirs
}

/// Copies of `dirs` without those that name the same path as an earlier one.
fn keep_distinct(dirs: &Vec<Vec<u8>>) -> (kept: Vec<Vec<u8>>)
    ensures
        contents(kept@) == distinct(contents(dirs@)),
{
    let ghost all = contents(dirs@);
    let mut kept: Vec<Vec<u8>> = Vec::new();
    let mut i: usize = 0;
    assert(contents(kept@) =~= distinct(all.take(0)));
    while i < dirs.len()
        invariant
            all == contents(dirs@),
            0 <= i <= dirs@.len(),
            contents(kept@) == distinct(all.take(i as int)),
        decreases dirs.len() - i,
    {
        let ghost before = kept@;
        proof {
            assert(all.take(i + 1).drop_last() =~= all.take(i as int));
            assert(all.take(i + 1).last() == dirs@[i as int]@);
        }
        if !is_listed(&kept, dirs[i].as_slice()) {
            let copy = copy_bytes(dirs[i].as_slice(), 0, dirs[i].len());
            assert(copy@ =~= dirs@[i as int]@);
            kept.push(copy);
            assert(contents(kept@) =~= contents(before).push(copy@));
        }
        i = i + 1;
    }
    assert(all.take(i as int) =~= all);
    kept
}

/// Whether `dirs` holds the path of `dir`.
fn is_listed(dirs: &Vec<Vec<u8>>, dir: &[u8]) -> (r: bool)
    ensures
        r == listed(contents(dirs@), dir@),
{
    let mut i: usize = 0;
    while i < dirs.len()
        invariant
            0 <= i <= dirs@.len(),
            forall|k: int|
                0 <= k < i ==> !same_path(#[trigger] contents(dirs@)[k], dir@),
        decreases dirs.len() - i,
    {
        assert(contents(dirs@)[i as int] == dirs@[i as int]@);
        if is_same_path(dirs[i].as_slice(), dir) {
            return true;
        }
        i = i + 1;
    }
    false
}

/// Whether `path` lies in one of the temp dirs.
pub fn is_temp(path: &[u8], temp: &[Vec<u8>]) -> (r: bool)
    ensures
        r == in_temp(path@, contents(temp@)),
{
    let mut i: usize = 0;
    while i < temp.len()
        invariant
            0 <= i <= temp@.len(),
            forall|k: int| 0 <= k < i ==> !within(path@, #[trigger] contents(temp@)[k]),
        decreases temp.len() - i,
    {
        assert(contents(temp@)[i as int] == temp@[i as int]@);
        if starts_with(path, temp[i].as_slice()) {
            return true;
        }
        i = i + 1;
    }
    false
}

/// First ancestor cwd that is a real directory outside any temp dir.
pub fn first_non_temp(cwds: &[Cwd], temp: &[Vec<u8>]) -> (r: Option<(u32, Vec<u8>)>)
    ensures
        match r {
            Some((pid, dir)) => nearest(cwd_views(cwds@), contents(temp@)) == Some(
                CwdView { pid, dir: dir@, is_dir: true },
            ),
            None => nearest(cwd_views(cwds@), contents(temp@)) is None,
        },
{
    let ghost all = cwd_views(cwds@);
    let mut i: usize = 0;
    assert(all.skip(0) =~= all);
    while i < cwds.len()
        invariant
            all == cwd_views(cwds@),
            0 <= i <= cwds@.len(),
            nearest(all.skip(i as int), contents(temp@)) == nearest(all, contents(temp@)),
        decreases cwds.len() - i,
    {
        proof {
            assert(all.skip(i as int).drop_first() =~= all.skip(i + 1));
            assert(all.skip(i as int)[0] == cwds@[i as int]@);
        }
        if !is_temp(cwds[i].dir.as_slice(), temp) && cwds[i].is_dir {
            let dir = copy_bytes(cwds[i].dir.as_slice(), 0, cwds[i].dir.len());
            assert(dir@ =~= cwds@[i as int].dir@);
            return Some((cwds[i].pid, dir));
        }
        i = i + 1;
    }
    None
}

/// The candidate that counts: the one of the command line, else the one of the
/// environment.
pub open spec fn explicit(flag: Option<Candidate>, env: Option<Candidate>) -> Option<Candidate> {
    if flag is Some {
        flag
    } else {
        env
    }
}

/// Decide the project root.
///
/// Precedence: `--root`, `$PROMPTLS_ROOT`, then the nearest ancestor process
/// whose cwd is outside a temp dir. An explicit root inside a temp dir is an
/// error: the prompt file itself lives there, and indexing /tmp is noise.
pub fn resolve_root(
    flag: Option<Candidate>,
    env: Option<Candidate>,
    cwds: &[Cwd],
    temp: &[Vec<u8>],
) -> (r: Result<Root, RootError>)
    ensures
        match explicit(flag, env) {
            Some(c) => match c.resolved {
                None => r matches Err(RootError::Missing),
                Some((dir, is_dir)) => if !is_dir {
                    r matches Err(RootError::NotADirectory(d)) && d@ == dir@
                } else if in_temp(dir@, contents(temp@)) {
                    r matches Err(RootError::InTempDir(d)) && d@ == dir@
                } else {
                    r matches Ok(root) && root.dir@ == dir@ && root.pid is None
                },
            },
            None => match nearest(cwd_views(cwds@), contents(temp@)) {
                None => r matches Err(RootError::NoAncestor),
                Some(c) => r matches Ok(root) && root.dir@ == c.dir && root.pid == Some(c.pid),
            },
        },
        r matches Ok(root) ==> !in_temp(root.dir@, contents(temp@)),
{
    proof {
        law_nearest_is_usable(cwd_views(cwds@), contents(temp@));
    }
    let named = match flag {
        Some(c) => Some(c),
        None => env,
    };
    match named {
        Some(c) => match c.resolved {
            None => Err(RootError::Missing),
            Some((dir, is_dir)) => {
                if !is_dir {
                    Err(RootError::NotADirectory(dir))
                } else if is_temp(dir.as_slice(), temp) {
                    Err(RootError::InTempDir(dir))
                } else {
                    Ok(Root { dir, pid: None })
                }
            },
        },
        None => match first_non_temp(cwds, temp) {
            None => Err(RootError::NoAncestor),
            Some((pid, dir)) => Ok(Root { dir, pid: Some(pid) }),
        },
    }
}

/// The search for working directories along the parents of a process, nearest
/// first. [`AncestorWalk::pending`] says which process to look up, and
/// [`AncestorWalk::observe`] takes what was found.
#[derive(Debug)]
pub struct AncestorWalk {
    pid: Option<u32>,
    left: u32,
    cwds: Vec<Cwd>,
}

/// What an [`AncestorWalk`] has come to.
#[verifier::ext_equal]
pub struct WalkView {
    /// The process to look up next.
    pub pid: Option<u32>,
    /// How many processes may still be looked up.
    pub left: int,
    /// The working directories found so far.
    pub cwds: Seq<CwdView>,
}

impl View for AncestorWalk {
    type V = WalkView;

    closed spec fn view(&self) -> WalkView {
        WalkView {
            pid: if self.left > 0 {
                self.pid
            } else {
                None
            },
            left: self.left as int,
            cwds: cwd_views(self.cwds@),
        }
    }
}

/// The parent to look up after process `pid`, if any. Process 1 and everything
/// above it are left out.
pub open spec fn next_pid(pid: u32, parent: Option<u32>) -> Option<u32> {
    match parent {
        Some(p) => if p > 1 && p != pid {
            Some(p)
        } else {
            None
        },
        None => None,
    }
}

/// The working directory of a process, if it is known.
pub open spec fn known_cwd(pid: u32, p: ProcessView) -> Seq<CwdView> {
    match p.cwd {
        Some((dir, is_dir)) => seq![CwdView { pid, dir, is_dir }],
        None => Seq::empty(),
    }
}

/// The working directories of a process and its ancestors in a process table, for
/// at most `left` processes.
pub open spec fn ancestry(
    table: spec_fn(u32) -> Option<ProcessView>,
    pid: Option<u32>,
    left: int,
) -> Seq<CwdView>
    decreases left,
{
    if pid is None || left <= 0 || table(pid->0) is None {
        Seq::empty()
    } else {
        let p = table(pid->0)->0;
        known_cwd(pid->0, p) + ancestry(table, next_pid(pid->0, p.parent), left - 1)
    }
}

/// The walk after process `pid` was looked up.
pub open spec fn walked(w: WalkView, pid: u32, seen: Option<ProcessView>) -> WalkView {
    match seen {
        None => WalkView { pid: None, left: w.left, cwds: w.cwds },
        Some(p) => WalkView {
            pid: if w.left > 1 {
                next_pid(pid, p.parent)
            } else {
                None
            },
            left: w.left - 1,
            cwds: w.cwds + known_cwd(pid, p),
        },
    }
}

impl AncestorWalk {
    /// A walk that starts with process `pid`.
    pub fn new(pid: u32) -> (w: AncestorWalk)
        ensures
            w@ == (WalkView { pid: Some(pid), left: MAX_ANCESTORS as int, cwds: Seq::empty() }),
    {
        let cwds: Vec<Cwd> = Vec::new();
        assert(cwd_views(cwds@) =~= Seq::empty());
        AncestorWalk { pid: Some(pid), left: MAX_ANCESTORS, cwds }
    }

    /// The process to look up next; `None` when the walk is over.
    pub fn pending(&self) -> (pid: Option<u32>)
        ensures
            pid == self@.pid,
    {
        if self.left > 0 {
            self.pid
        } else {
            None
        }
    }

    /// Takes what is known of the process to look up; `None` if it does not exist.
    pub fn observe(&mut self, seen: Option<Process>)
        ensures
            final(self)@ == (match old(self)@.pid {
                None => old(self)@,
                Some(pid) => walked(
                    old(self)@,
                    pid,
                    match seen {
                        Some(p) => Some(p@),
                        None => None,
                    },
                ),
            }),
    {
        let pid = match self.pending() {
            None => {
                return ;
            },
            Some(pid) => pid,
        };
        match seen {
            None => {
                self.pid = None;
            },
            Some(p) => {
                let next: Option<u32> = match p.parent {
                    Some(parent) if parent > 1 && parent != pid => Some(parent),
                    _ => None,
                };
                let ghost before = self.cwds@;
                if let Some((dir, is_dir)) = p.cwd {
                    self.cwds.push(Cwd { pid, dir, is_dir });
                }
                self.left = self.left - 1;
                self.pid = next;
                assert(cwd_views(self.cwds@) =~= cwd_views(before) + known_cwd(pid, p@));
            },
        }
    }

    /// The working directories that were found, nearest first.
    pub fn into_cwds(self) -> (cwds: Vec<Cwd>)
        ensures
            cwd_views(cwds@) == self@.cwds,
    {
        self.cwds
    }
}

/// Removing duplicates keeps each path once, and no path twice.
pub proof fn law_distinct_keeps_each_path_once(dirs: Seq<Seq<u8>>)
    ensures
        forall|k: int| 0 <= k < dirs.len() ==> listed(distinct(dirs), #[trigger] dirs[k]),
        forall|j: int, k: int|
            0 <= j < k < distinct(dirs).len() ==> !same_path(
                #[trigger] distinct(dirs)[j],
                #[trigger] distinct(dirs)[k],
            ),
    decreases dirs.len(),
{
    if dirs.len() > 0 {
        let init = dirs.drop_last();
        law_distinct_keeps_each_path_once(init);
        let kept = distinct(init);
        let all = distinct(dirs);
        assert forall|k: int| 0 <= k < dirs.len() implies listed(all, #[trigger] dirs[k]) by {
            if k < init.len() {
                assert(listed(kept, init[k]));
                let j = choose|j: int| 0 <= j < kept.len() && same_path(#[trigger] kept[j], dirs[k]);
                assert(all[j] == kept[j]);
            } else if !listed(kept, dirs.last()) {
                assert(all[kept.len() as int] == dirs[k]);
            }
        }
    }
}

/// A root that was chosen is an existing directory outside the temp dirs.
pub proof fn law_nearest_is_usable(cwds: Seq<CwdView>, temp: Seq<Seq<u8>>)
    ensures
        match nearest(cwds, temp) {
            Some(c) => usable(c, temp) && cwds.contains(c),
            None => forall|k: int| 0 <= k < cwds.len() ==> !usable(#[trigger] cwds[k], temp),
        },
    decreases cwds.len(),
{
    if cwds.len() > 0 && !usable(cwds[0], temp) {
        let rest = cwds.drop_first();
        law_nearest_is_usable(rest, temp);
        match nearest(cwds, temp) {
            Some(c) => {
                let k = choose|k: int| 0 <= k < rest.len() && rest[k] == c;
                assert(cwds[k + 1] == c);
            },
            None => {
                assert forall|k: int| 0 <= k < cwds.len() implies !usable(
                    #[trigger] cwds[k],
                    temp,
                ) by {
                    if k > 0 {
                        assert(rest[k - 1] == cwds[k]);
                    }
                }
            },
        }
    }
}

/// No nearer working directory than the chosen one could have been the root.
pub proof fn law_nearest_comes_first(cwds: Seq<CwdView>, temp: Seq<Seq<u8>>, k: int)
    requires
        0 <= k < cwds.len(),
        usable(cwds[k], temp),
        forall|j: int| 0 <= j < k ==> !usable(#[trigger] cwds[j], temp),
    ensures
        nearest(cwds, temp) == Some(cwds[k]),
    decreases cwds.len(),
{
    if k > 0 {
        assert(!usable(cwds[0], temp));
        let rest = cwds.drop_first();
        assert forall|j: int| 0 <= j < k - 1 implies !usable(#[trigger] rest[j], temp) by {
            assert(rest[j] == cwds[j + 1]);
        }
        law_nearest_comes_first(rest, temp, k - 1);
    }
}

/// A step of the walk keeps what it will find in the process table: what was found
/// so far, followed by what lies ahead.
pub proof fn law_walk_finds_ancestry(
    w: WalkView,
    table: spec_fn(u32) -> Option<ProcessView>,
)
    requires
        w.pid is Some,
        w.left > 0,
    ensures
        ({
            let after = walked(w, w.pid->0, table(w.pid->0));
            after.cwds + ancestry(table, after.pid, after.left) == w.cwds + ancestry(
                table,
                w.pid,
                w.left,
            )
        }),
{
    let pid = w.pid->0;
    let after = walked(w, pid, table(pid));
    match table(pid) {
        None => {
            assert(ancestry(table, after.pid, after.left) =~= Seq::empty());
        },
        Some(p) => {
            let next = next_pid(pid, p.parent);
            if w.left == 1 {
                assert(ancestry(table, next, 0) =~= Seq::empty());
                assert(ancestry(table, None, 0) =~= Seq::empty());
            }
            assert(after.cwds + ancestry(table, next, w.left - 1) =~= w.cwds + (known_cwd(pid, p)
                + ancestry(table, next, w.left - 1)));
        },
    }
}

/// The walk looks at no more than `left` processes: each step uses one up, or ends
/// the walk.
pub proof fn law_walk_ends(w: WalkView, pid: u32, seen: Option<ProcessView>)
    requires
        w.left > 0,
    ensures
        ({
            let after = walked(w, pid, seen);
            after.pid is None || (0 < after.left < w.left && after.pid != Some(pid)
                && after.pid->0 > 1)
        }),
{
}

/// The first working directory that a walk finds is that of the process itself,
/// where it is known.
pub proof fn law_walk_includes_self(
    table: spec_fn(u32) -> Option<ProcessView>,
    pid: u32,
    left: int,
)
    requires
        left > 0,
        table(pid) is Some,
        table(pid)->0.cwd is Some,
    ensures
        ancestry(table, Some(pid), left).len() > 0,
        ancestry(table, Some(pid), left)[0].pid == pid,
{
}

} // verus!
