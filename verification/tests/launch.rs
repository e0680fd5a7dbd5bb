use agent24_os_proto::frame::IoFault;
use agent24_os_proto::launch::{
    child_args, child_env, enter_package, fds_refusal, inherited, is_executable_file, is_in,
    join_path, mint_token, open_fd_at_or_above, resolve, trampoline_asked, which_in, Answers, Asked,
    CheckedPackage, Entry, FileSeen, LaunchError, Lines, RateLimit, Resolution, TreeWalk,
    FALLBACK_SCAN_END, LOG_LINES_PER_SECOND, MAX_LOG_LINE, MAX_PACKAGE_ENTRIES, TOKEN_BYTES,
};

const SECOND: u64 = 1_000_000_000;

fn fault() -> IoFault {
    IoFault::new("no such file", "Os { code: 2 }")
}

const RUNNABLE: Option<FileSeen> = Some(FileSeen { is_file: true, mode: 0o755 });
const READABLE: Option<FileSeen> = Some(FileSeen { is_file: true, mode: 0o644 });

/// Walks through a package of one directory and what stands in it.
fn walk_through(root: &str, entries: &[(&str, Entry)]) -> Result<CheckedPackage, LaunchError> {
    let mut walk = enter_package(root.as_bytes(), Ok(root.as_bytes().to_vec()), 7)?;
    while let Some(path) = walk.next() {
        let seen = if path == root.as_bytes() {
            Entry { is_dir: true, ..entry(0o755) }
        } else {
            entries
                .iter()
                .find(|(p, _)| p.as_bytes() == path.as_slice())
                .unwrap()
                .1
        };
        if walk.judge(Ok(seen))? {
            if path == root.as_bytes() {
                for (p, _) in entries {
                    walk.on_entry(Ok(p.as_bytes().to_vec()))?;
                }
            }
            walk.on_listed(Ok(()))?;
        }
    }
    Ok(walk.finish())
}

fn package(root: &str) -> CheckedPackage {
    walk_through(root, &[]).ok().unwrap()
}

fn followed(to: Result<&str, IoFault>) -> Answers {
    Answers { followed: Some(to.map(|p| p.as_bytes().to_vec())), seen: Vec::new() }
}

fn seen(list: &[Option<FileSeen>]) -> Answers {
    Answers { followed: None, seen: list.to_vec() }
}

fn program(r: Result<Resolution, LaunchError>) -> Vec<u8> {
    match r {
        Ok(Resolution::Program(p)) => p,
        other => panic!("{other:?}"),
    }
}

fn strings(list: &[&str]) -> Vec<String> {
    list.iter().map(|s| s.to_string()).collect()
}

#[test]
fn a_long_line_is_cut_and_the_next_one_is_whole() {
    let mut lines = Lines::default();
    let long = vec![b'x'; MAX_LOG_LINE * 3];
    let mut out = lines.push(&long);
    out.extend(lines.push(b"\nshort\npart"));
    out.extend(lines.push(b"ial\n"));
    assert_eq!(out.len(), 3, "{out:?}");
    assert_eq!(out[0].text.len(), MAX_LOG_LINE);
    assert!(out[0].cut);
    assert_eq!((out[1].text.as_slice(), out[1].cut), (&b"short"[..], false));
    assert_eq!(out[2].text, b"partial");
    let mut tail = Lines::default();
    assert!(tail.push(b"no newline").is_empty());
    assert_eq!(tail.finish().map(|l| l.text), Some(b"no newline".to_vec()));
}

#[test]
fn output_beyond_the_rate_is_counted_and_dropped() {
    let t0 = 5 * SECOND;
    let mut limit = RateLimit::new(t0);
    let admitted = (0..LOG_LINES_PER_SECOND + 50)
        .filter(|_| limit.admits())
        .count();
    assert_eq!(admitted, LOG_LINES_PER_SECOND as usize);
    assert_eq!(limit.roll(t0 + SECOND / 2), None);
    assert_eq!(limit.roll(t0 + SECOND), Some(50));
    assert!(limit.admits());
    assert_eq!(limit.flush(), None);
}

#[test]
fn a_line_of_exactly_the_limit_is_not_cut() {
    let mut lines = Lines::default();
    let mut bytes = vec![b'y'; MAX_LOG_LINE];
    bytes.push(b'\n');
    let out = lines.push(&bytes);
    assert_eq!((out[0].text.len(), out[0].cut), (MAX_LOG_LINE, false));
    assert!(lines.finish().is_none());
}

#[test]
fn how_a_stream_came_in_pieces_makes_no_difference() {
    let stream = b"one\n\ntwo\nthree".to_vec();
    let mut whole = Lines::default();
    let mut at_once = whole.push(&stream);
    at_once.extend(whole.finish());
    let mut split = Lines::default();
    let mut piecewise = Vec::new();
    for b in &stream {
        piecewise.extend(split.push(&[*b]));
    }
    piecewise.extend(split.finish());
    assert_eq!(at_once, piecewise);
    assert_eq!(at_once.len(), 4);
}

#[test]
fn a_new_second_reports_the_old_one_and_logs_the_line() {
    let mut limit = RateLimit::new(0);
    for _ in 0..LOG_LINES_PER_SECOND {
        assert_eq!(limit.log_line(1), (None, true));
    }
    assert_eq!(limit.log_line(2), (None, false));
    assert_eq!(limit.log_line(SECOND - 1), (None, false));
    assert_eq!(limit.log_line(SECOND), (Some(2), true));
    assert_eq!(limit.log_line(SECOND + 1), (None, true));
}

#[test]
fn a_bare_name_resolves_through_path_and_may_live_outside_the_package() {
    let package = package("/pkg");
    let path: Option<&[u8]> = Some(b"/usr/local/bin:/bin:/usr/bin");
    match resolve(&package, "sh", path, seen(&[])).unwrap() {
        Resolution::LookAt(p) => assert_eq!(p, b"/usr/local/bin/sh"),
        other => panic!("{other:?}"),
    }
    match resolve(&package, "sh", path, seen(&[None])).unwrap() {
        Resolution::LookAt(p) => assert_eq!(p, b"/bin/sh"),
        other => panic!("{other:?}"),
    }
    let resolved = program(resolve(&package, "sh", path, seen(&[None, RUNNABLE])));
    assert!(resolved.starts_with(b"/"));
    assert!(!is_in(b"/pkg", &resolved));
    assert_eq!(resolved, b"/bin/sh");
    // The first program wins, and what cannot be run is passed over.
    let all = seen(&[READABLE, RUNNABLE, RUNNABLE]);
    assert_eq!(program(resolve(&package, "sh", path, all)), b"/bin/sh");
    let directory = Some(FileSeen { is_file: false, mode: 0o755 });
    let all = seen(&[directory, None, RUNNABLE]);
    assert_eq!(program(resolve(&package, "sh", path, all)), b"/usr/bin/sh");
}

#[test]
fn a_bare_name_that_is_not_on_path_is_a_clear_refusal() {
    let package = package("/pkg");
    let name = "definitely-not-a-real-program-xyz";
    for (path, found) in [
        (Some(&b"/bin:/usr/bin"[..]), seen(&[None, READABLE])),
        (Some(&b"bin"[..]), seen(&[])),
        (None, seen(&[])),
    ] {
        let err = resolve(&package, name, path, found).unwrap_err();
        assert!(matches!(err, LaunchError::Unresolved(_)), "{err:?}");
        assert_eq!(
            err.to_text(),
            "spawn.command \"definitely-not-a-real-program-xyz\" was not found on PATH"
        );
    }
}

#[test]
fn a_path_is_looked_for_inside_the_package() {
    let package = package("/p");
    for (command, place) in [("bin/mod", "/p/bin/mod"), ("/bin/sh", "/bin/sh"), ("./a", "/p/./a")] {
        match resolve(&package, command, None, seen(&[])).unwrap() {
            Resolution::Follow(p) => assert_eq!(p, place.as_bytes()),
            other => panic!("{other:?}"),
        }
    }
    assert_eq!(
        enter_package(b"/gone", Err(fault()), 7).err().unwrap().to_text(),
        "the package directory /gone could not be resolved: no such file"
    );
    assert_eq!(
        resolve(&package, "bin/x", None, followed(Err(fault())))
            .unwrap_err()
            .to_text(),
        "spawn.command \"bin/x\" could not be resolved inside the package: no such file"
    );
    assert_eq!(
        program(resolve(&package, "bin/x", None, followed(Ok("/p/bin/real")))),
        b"/p/bin/real"
    );
    let escaped = resolve(&package, "bin/x", None, followed(Ok("/pq/bin/sh"))).unwrap_err();
    assert_eq!(
        escaped.to_text(),
        "the spawn command resolves to /pq/bin/sh, which is outside the package at /p"
    );
}

#[test]
fn a_symlink_inside_the_package_that_points_out_is_refused() {
    let link = Entry { is_symlink: true, ..entry(0o777) };
    let package = walk_through("/pkg", &[("/pkg/run", link)]).ok().unwrap();
    let err = resolve(&package, "./run", None, followed(Ok("/bin/sh"))).unwrap_err();
    assert!(matches!(err, LaunchError::EscapesPackage { .. }), "{err:?}");
}

#[test]
fn a_symlink_that_stays_inside_the_package_is_allowed() {
    let link = Entry { is_symlink: true, ..entry(0o777) };
    let package = walk_through("/pkg", &[("/pkg/run", link), ("/pkg/real", entry(0o700))])
        .ok()
        .unwrap();
    let resolved = program(resolve(&package, "./run", None, followed(Ok("/pkg/real"))));
    assert!(resolved.ends_with(b"real"));
}

#[test]
fn a_package_others_can_write_is_refused_whatever_the_command() {
    for bad in [0o777, 0o775, 0o757, 0o666] {
        let err = walk_through("/pkg", &[("/pkg/run", entry(0o700)), ("/pkg/lib", entry(bad))])
            .err()
            .unwrap();
        assert!(
            matches!(&err, LaunchError::UnsafeOwnership(p) if p == b"/pkg/lib"),
            "{err:?}"
        );
    }
}

#[test]
fn a_relative_path_entry_is_not_searched() {
    let package = package("/pkg");
    let err = resolve(&package, "tool", Some(b"rel/bin:./bin:"), seen(&[])).unwrap_err();
    assert!(matches!(err, LaunchError::Unresolved(_)), "{err:?}");
}

#[test]
fn an_unreadable_directory_is_an_inspection_error_not_an_ownership_one() {
    let mut walk = TreeWalk::new(b"/pkg", 7);
    walk.next().unwrap();
    assert!(walk.judge(Ok(Entry { is_dir: true, ..entry(0o700) })).unwrap());
    let err = walk.on_listed(Err(fault())).unwrap_err();
    assert!(matches!(&err, LaunchError::Inspect { path, .. } if path == b"/pkg"), "{err:?}");
}

#[test]
fn a_path_that_is_no_text_is_kept_byte_for_byte() {
    let odd = b"/pkg/\xff\xfe".to_vec();
    let package = package("/pkg");
    let answers = Answers { followed: Some(Ok(odd.clone())), seen: Vec::new() };
    assert_eq!(program(resolve(&package, "./x", None, answers)), odd);
    assert_eq!(
        LaunchError::UnsafeOwnership(odd).to_text(),
        "/pkg/\u{fffd}\u{fffd} is not owned by this user, or is writable by group or others; \
         refusing to run a module from it"
    );
    assert_eq!(join_path(b"/p", b"\xff"), b"/p/\xff");
    assert_eq!(join_path(b"/p/", b"a"), b"/p/a");
    assert_eq!(join_path(b"", b"a"), b"a");
    assert_eq!(join_path(b"/p", b"/a"), b"/a");
}

#[test]
fn a_name_that_merely_begins_alike_is_outside() {
    assert!(is_in(b"/a/b", b"/a/b"));
    assert!(is_in(b"/a/b", b"/a/b/c"));
    assert!(is_in(b"/a/b/", b"/a//b/c"));
    assert!(!is_in(b"/a/b", b"/a/bc"));
    assert!(!is_in(b"/a/b", b"/a"));
    assert!(is_in(b"/", b"/anything"));
    assert!(!is_in(b"a/b", b"/a/b"));
    assert!(!is_in(b"/a/b", b"a/b"));
    assert!(is_in(b"/a/./b", b"/a/b/."));
    assert!(!is_in(b"./a", b"a"));
    assert!(is_in(b"", b"/a"));
    assert!(is_in(b"a", b"a/b"));
}

#[test]
fn every_token_is_new() {
    let n = 64;
    let tokens: std::collections::BTreeSet<String> = (0..n)
        .map(|i| {
            let mut bytes = [0u8; TOKEN_BYTES];
            bytes[31] = i as u8;
            mint_token(Ok(bytes)).unwrap()
        })
        .collect();
    assert_eq!(tokens.len(), n);
    for t in &tokens {
        assert_eq!(t.len(), TOKEN_BYTES * 2, "{t}");
        assert!(t.chars().all(|c| c.is_ascii_hexdigit()));
    }
    let refused = mint_token(Err(fault())).unwrap_err();
    assert_eq!(
        refused.to_text(),
        "could not mint a handshake token: no such file"
    );
}

#[test]
fn only_absolute_directories_are_searched() {
    assert_eq!(
        which_in(b"sh", b"bin:/bin::/usr/bin/:../x"),
        vec![b"/bin/sh".to_vec(), b"/usr/bin/sh".to_vec()]
    );
    assert!(which_in(b"sh", b"../../tmp/bin").is_empty());
}

#[test]
fn a_program_is_a_file_that_someone_may_run() {
    assert!(is_executable_file(true, 0o100));
    assert!(is_executable_file(true, 0o755));
    assert!(!is_executable_file(true, 0o644));
    assert!(!is_executable_file(false, 0o755));
}

fn entry(mode: u32) -> Entry {
    Entry { uid: 7, mode, is_symlink: false, is_dir: false }
}

fn judged(entry: Result<Entry, IoFault>) -> Result<bool, LaunchError> {
    let mut walk = TreeWalk::new(b"/p/x", 7);
    assert_eq!(walk.next().unwrap(), b"/p/x");
    walk.judge(entry)
}

#[test]
fn what_others_can_write_is_refused() {
    for bad in [0o777, 0o775, 0o757, 0o666] {
        let err = judged(Ok(entry(bad))).unwrap_err();
        assert_eq!(
            err.to_text(),
            "/p/x is not owned by this user, or is writable by group or others; refusing to run \
             a module from it"
        );
    }
    for good in [0o700, 0o755, 0o644] {
        assert!(!judged(Ok(entry(good))).unwrap());
    }
    assert!(judged(Ok(Entry { uid: 8, ..entry(0o700) })).is_err());
    assert!(judged(Ok(Entry { uid: 8, is_symlink: true, ..entry(0o700) })).is_err());
    assert!(!judged(Ok(Entry { is_symlink: true, ..entry(0o777) })).unwrap());
    assert!(judged(Ok(Entry { is_dir: true, ..entry(0o755) })).unwrap());
    assert_eq!(
        judged(Err(fault())).unwrap_err().to_text(),
        "could not inspect /p/x: no such file"
    );
}

#[test]
fn a_walk_looks_at_everything_it_finds() {
    let directory = Entry { is_dir: true, ..entry(0o755) };
    let mut walk = TreeWalk::new(b"/p", 7);
    assert_eq!(walk.next().unwrap(), b"/p");
    assert!(walk.judge(Ok(directory)).unwrap());
    walk.on_entry(Ok(b"/p/a".to_vec())).unwrap();
    walk.on_entry(Ok(b"/p/d".to_vec())).unwrap();
    walk.on_listed(Ok(())).unwrap();
    assert_eq!(walk.next().unwrap(), b"/p/d");
    assert!(walk.judge(Ok(directory)).unwrap());
    walk.on_entry(Ok(b"/p/d/b".to_vec())).unwrap();
    walk.on_listed(Ok(())).unwrap();
    assert_eq!(walk.next().unwrap(), b"/p/d/b");
    assert!(!walk.judge(Ok(entry(0o644))).unwrap());
    assert_eq!(walk.next().unwrap(), b"/p/a");
    assert!(!walk.judge(Ok(entry(0o644))).unwrap());
    assert_eq!(walk.next(), None);
    let package = walk.finish();
    assert_eq!(
        program(resolve(&package, "d/b", None, followed(Ok("/p/d/b")))),
        b"/p/d/b"
    );
}

#[test]
fn a_package_with_too_many_entries_is_refused() {
    let mut walk = TreeWalk::new(b"/p", 7);
    assert_eq!(walk.next().as_deref(), Some(&b"/p"[..]));
    assert!(walk.judge(Ok(Entry { is_dir: true, ..entry(0o755) })).unwrap());
    for _ in 1..MAX_PACKAGE_ENTRIES {
        walk.on_entry(Ok(b"/p/x".to_vec())).unwrap();
    }
    let err = walk.on_entry(Ok(b"/p/y".to_vec())).unwrap_err();
    assert!(matches!(&err, LaunchError::TooLarge { package } if package == b"/p"));
    let mut other = TreeWalk::new(b"/q/d", 7);
    other.next().unwrap();
    assert!(other.judge(Ok(Entry { is_dir: true, ..entry(0o755) })).unwrap());
    assert!(matches!(
        other.on_entry(Err(fault())).unwrap_err(),
        LaunchError::Inspect { path, .. } if path == b"/q/d"
    ));
}

#[test]
fn the_environment_is_what_is_passed_on_and_the_kernels_five() {
    let vars = vec![
        ("PATH".to_owned(), b"/bin".to_vec()),
        ("API_KEY".to_owned(), b"k".to_vec()),
        ("LC_ALL".to_owned(), b"C".to_vec()),
        ("A24_DATA_DIR".to_owned(), b"/forged".to_vec()),
    ];
    let env = child_env(&vars, b"/run/1.sock", "token", b"/data");
    let shown: Vec<(String, String)> = env
        .into_iter()
        .map(|(k, v)| (k, String::from_utf8(v).unwrap()))
        .collect();
    let want: Vec<(String, String)> = [
        ("PATH", "/bin"),
        ("LC_ALL", "C"),
        ("A24_LISTEN_FD", "3"),
        ("A24_CALLBACK_SOCK", "/run/1.sock"),
        ("A24_HANDSHAKE_TOKEN", "token"),
        ("A24_DATA_DIR", "/data"),
        ("A24_TRAMPOLINE", "1"),
    ]
    .iter()
    .map(|(k, v)| (k.to_string(), v.to_string()))
    .collect();
    assert_eq!(shown, want);
    for name in ["PATH", "HOME", "LANG", "TZ", "TMPDIR", "USER", "LC_TIME"] {
        assert!(inherited(name), "{name}");
    }
    for name in ["LC", "lc_all", "AWS_SECRET_ACCESS_KEY", "SHELL", ""] {
        assert!(!inherited(name), "{name}");
    }
}

#[test]
fn the_arguments_follow_the_mark() {
    assert_eq!(
        child_args(&vec![b"host".to_vec()], b"/bin/\xff", &strings(&["a b", ""])),
        vec![
            b"host".to_vec(),
            b"--a24-exec-module".to_vec(),
            b"/bin/\xff".to_vec(),
            b"a b".to_vec(),
            Vec::new(),
        ]
    );
}

#[test]
fn both_marks_are_needed_to_become_a_module() {
    let args = |list: &[&str]| -> Vec<Vec<u8>> { list.iter().map(|s| s.as_bytes().to_vec()).collect() };
    let full = args(&["daemon", "x", "--a24-exec-module", "/bin/mod", "arg"]);
    assert_eq!(trampoline_asked(true, &full), Asked::Become { program: 3 });
    assert_eq!(trampoline_asked(false, &full), Asked::Nothing);
    assert_eq!(trampoline_asked(true, &args(&["daemon"])), Asked::Nothing);
    assert_eq!(
        trampoline_asked(true, &args(&["daemon", "--a24-exec-module"])),
        Asked::NoProgram
    );
}

#[test]
fn an_fd_that_a_scan_could_miss_refuses_the_start() {
    let names = strings(&["0", "3", "x", "900", "901"]);
    assert_eq!(open_fd_at_or_above(&names, 900), Some(900));
    assert_eq!(open_fd_at_or_above(&names, 902), None);
    assert_eq!(open_fd_at_or_above(&names, i32::MAX), None);
    assert_eq!(open_fd_at_or_above(&strings(&["+70000", "2147483648"]), FALLBACK_SCAN_END), Some(70000));
    assert_eq!(fds_refusal(&names, &None, "/proc/self/fd"), None);
    assert_eq!(
        fds_refusal(&strings(&["65536"]), &Some(fault()), "/proc/self/fd").unwrap(),
        "agent24: fd 65536 is open, above what can be verified as close-on-exec; refusing to \
         start a module that might inherit it"
    );
    assert_eq!(
        fds_refusal(&names, &Some(fault()), "/proc/self/fd").unwrap(),
        "agent24: cannot list this process's fds (/proc/self/fd: no such file); refusing to start \
         a module without being able to keep the daemon's fds from it"
    );
}

#[test]
fn every_launch_error_says_what_happened() {
    assert_eq!(
        LaunchError::Spawn(fault()).to_text(),
        "could not start the module process: no such file"
    );
    assert_eq!(
        LaunchError::TooLarge { package: "/p".into() }.to_text(),
        "the package at /p has more than 200000 entries; too many to check at every start"
    );
}
