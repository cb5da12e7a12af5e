use promptls::root::{
    first_non_temp, is_temp, resolve_root, temp_dirs, AncestorWalk, Candidate, Cwd, Process, RootError,
};
use sysinfo::{Pid, ProcessRefreshKind, ProcessesToUpdate, System, UpdateKind};

fn cwd(pid: u32, dir: &str) -> Cwd {
    Cwd { pid, dir: dir.as_bytes().to_vec(), is_dir: true }
}

fn temp() -> Vec<Vec<u8>> {
    temp_dirs(Some(b"/tmp".to_vec()), b"/tmp".to_vec(), Some(b"/tmp".to_vec()))
}

fn named(dir: &str, is_dir: bool) -> Option<Candidate> {
    Some(Candidate { resolved: Some((dir.as_bytes().to_vec(), is_dir)) })
}

#[test]
fn picks_nearest_non_temp_ancestor() {
    let cwds = vec![cwd(3, "/tmp"), cwd(2, "/tmp/x"), cwd(1, "/usr")];
    assert_eq!(first_non_temp(&cwds, &temp()), Some((1, b"/usr".to_vec())));
    assert_eq!(first_non_temp(&[cwd(3, "/tmp")], &temp()), None);
}

#[test]
fn ancestor_walk_includes_self() {
    let mut sys = System::new();
    let refresh = ProcessRefreshKind::nothing().with_cwd(UpdateKind::Always);
    let own = sysinfo::get_current_pid().unwrap().as_u32();
    let mut walk = AncestorWalk::new(own);
    while let Some(pid) = walk.pending() {
        let pid = Pid::from_u32(pid);
        sys.refresh_processes_specifics(ProcessesToUpdate::Some(&[pid]), true, refresh);
        walk.observe(sys.process(pid).map(|p| Process {
            cwd: p.cwd().map(|d| (d.as_os_str().as_encoded_bytes().to_vec(), d.is_dir())),
            parent: p.parent().map(|ppid| ppid.as_u32()),
        }));
    }
    let cwds = walk.into_cwds();
    assert_eq!(cwds.first().map(|c| c.pid), Some(own));
}

#[test]
fn temp_dirs_are_listed_once() {
    assert_eq!(temp(), vec![b"/tmp".to_vec()]);
    assert_eq!(temp_dirs(None, b"/tmp/".to_vec(), None), vec![b"/tmp".to_vec()]);
    assert_eq!(
        temp_dirs(
            Some(b"/private/tmp".to_vec()),
            b"/var/folders/x".to_vec(),
            Some(b"/private/var/folders/x".to_vec())
        ),
        vec![
            b"/tmp".to_vec(),
            b"/private/tmp".to_vec(),
            b"/var/folders/x".to_vec(),
            b"/private/var/folders/x".to_vec()
        ]
    );
    assert_eq!(
        temp_dirs(None, b"/scratch".to_vec(), None),
        vec![b"/tmp".to_vec(), b"/scratch".to_vec()]
    );
}

#[test]
fn what_counts_as_temporary() {
    assert!(is_temp(b"/tmp", &temp()));
    assert!(is_temp(b"/tmp/", &temp()));
    assert!(is_temp(b"//tmp/./a/b", &temp()));
    assert!(!is_temp(b"/tmpfiles", &temp()));
    assert!(!is_temp(b"/", &temp()));
    assert!(!is_temp(b"tmp", &temp()));
    assert!(!is_temp(b"/tmp", &[]));
}

#[test]
fn an_ancestor_must_be_a_directory() {
    let mut gone = cwd(5, "/gone");
    gone.is_dir = false;
    let cwds = vec![gone, cwd(4, "/home/p"), cwd(3, "/usr")];
    assert_eq!(first_non_temp(&cwds, &temp()), Some((4, b"/home/p".to_vec())));
    assert_eq!(first_non_temp(&[], &temp()), None);
}

#[test]
fn precedence_of_roots() {
    let cwds = vec![cwd(2, "/tmp"), cwd(1, "/from/process")];
    let root = resolve_root(named("/from/flag", true), named("/from/env", true), &cwds, &temp()).unwrap();
    assert_eq!((root.dir, root.pid), (b"/from/flag".to_vec(), None));
    let root = resolve_root(None, named("/from/env", true), &cwds, &temp()).unwrap();
    assert_eq!((root.dir, root.pid), (b"/from/env".to_vec(), None));
    let root = resolve_root(None, None, &cwds, &temp()).unwrap();
    assert_eq!((root.dir, root.pid), (b"/from/process".to_vec(), Some(1)));
}

#[test]
fn roots_that_are_refused() {
    let cwds = vec![cwd(1, "/usr")];
    let gone = Some(Candidate { resolved: None });
    assert!(matches!(resolve_root(gone, named("/ok", true), &cwds, &temp()), Err(RootError::Missing)));
    match resolve_root(named("/a/file", false), None, &cwds, &temp()) {
        Err(RootError::NotADirectory(d)) => assert_eq!(d, b"/a/file"),
        other => panic!("{other:?}"),
    }
    // A file inside a temp dir is told to be no directory.
    match resolve_root(named("/tmp/f", false), None, &cwds, &temp()) {
        Err(RootError::NotADirectory(d)) => assert_eq!(d, b"/tmp/f"),
        other => panic!("{other:?}"),
    }
    match resolve_root(None, named("/tmp/p", true), &cwds, &temp()) {
        Err(RootError::InTempDir(d)) => assert_eq!(d, b"/tmp/p"),
        other => panic!("{other:?}"),
    }
    assert!(matches!(resolve_root(None, None, &[cwd(1, "/tmp")], &temp()), Err(RootError::NoAncestor)));
}

fn process(dir: Option<&str>, parent: Option<u32>) -> Option<Process> {
    Some(Process { cwd: dir.map(|d| (d.as_bytes().to_vec(), true)), parent })
}

#[test]
fn a_walk_goes_up_to_the_first_process() {
    let mut walk = AncestorWalk::new(30);
    assert_eq!(walk.pending(), Some(30));
    walk.observe(process(Some("/a"), Some(20)));
    assert_eq!(walk.pending(), Some(20));
    walk.observe(process(None, Some(10)));
    assert_eq!(walk.pending(), Some(10));
    walk.observe(process(Some("/b"), Some(1)));
    assert_eq!(walk.pending(), None);
    walk.observe(process(Some("/ignored"), Some(5)));
    assert_eq!(walk.pending(), None);
    let cwds: Vec<(u32, Vec<u8>)> = walk.into_cwds().into_iter().map(|c| (c.pid, c.dir)).collect();
    assert_eq!(cwds, vec![(30, b"/a".to_vec()), (10, b"/b".to_vec())]);
}

#[test]
fn a_walk_ends_where_nothing_follows() {
    for parent in [None, Some(0), Some(1), Some(7)] {
        let mut walk = AncestorWalk::new(7);
        walk.observe(process(Some("/a"), parent));
        assert_eq!(walk.pending(), None);
        assert_eq!(walk.into_cwds().len(), 1);
    }
    let mut walk = AncestorWalk::new(7);
    walk.observe(None);
    assert_eq!(walk.pending(), None);
    assert!(walk.into_cwds().is_empty());
}

#[test]
fn a_walk_in_a_cycle_is_bounded() {
    let mut walk = AncestorWalk::new(2);
    let mut steps = 0;
    while let Some(pid) = walk.pending() {
        walk.observe(process(Some("/a"), Some(if pid == 2 { 3 } else { 2 })));
        steps += 1;
    }
    assert_eq!(steps, 64);
    assert_eq!(walk.into_cwds().len(), 64);
}
