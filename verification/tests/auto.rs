//! Finding libraries and wiring files up.
use std::path::PathBuf;

use formatelf::autoformatelf::{
    is_shared_object, join_rpaths, osabi_compatible, parse_args, require_paths, resolve_workers,
    roots, visit, Arch, Cache, Entry, Found, NixSupport, ParsedLib, Seen, Visit, Wave,
};
use formatelf::dlopen::parse_dlopen_json;
use formatelf::error::Error;
use formatelf::glob::glob_match;
use formatelf::paths::same_place;
use formatelf::wiring::report_missing;

#[test]
fn dlopen_json_groups_alternatives() {
    let json = r#"[{"soname":["libfoo.so.1"]},{"soname":["libbar.so","libbar.so.2"]}]"#;
    assert_eq!(
        parse_dlopen_json(json),
        vec![
            vec!["libfoo.so.1".to_string()],
            vec!["libbar.so".to_string(), "libbar.so.2".to_string()],
        ]
    );
}

#[test]
fn dlopen_json_tolerates_whitespace_and_other_keys() {
    let json = r#"[ { "feature": "x", "soname" : [ "libz.so.1" ] } ]"#;
    assert_eq!(parse_dlopen_json(json), vec![vec!["libz.so.1".to_string()]]);
}

#[test]
fn dlopen_json_empty_when_absent() {
    assert!(parse_dlopen_json("[]").is_empty());
}

#[test]
fn dlopen_json_passes_over_what_is_not_quoted() {
    assert!(parse_dlopen_json(r#"{"soname":[a, ", b"]}"#).is_empty());
    assert!(parse_dlopen_json(r#"{"soname":["#).is_empty());
    assert!(parse_dlopen_json(r#"{"soname"}"#).is_empty());
    assert_eq!(
        parse_dlopen_json(r#"{"soname":[],"soname":["",x,"y"]}"#),
        vec![vec!["".to_string(), "y".to_string()]]
    );
}

#[test]
fn globs() {
    assert!(glob_match("libfoo.so.*", "libfoo.so.1"));
    assert!(!glob_match("libfoo.so.*", "libfoo.so"));
    assert!(glob_match("*", ""));
    assert!(glob_match("*", "anything"));
    assert!(glob_match("*", "*ab"));
    assert!(glob_match("a*b*c", "aXXbYYbc"));
    assert!(!glob_match("a*b*c", "aXXbYYb"));
    assert!(glob_match("lib?.so", "libm.so"));
    assert!(!glob_match("lib?.so", "lib.so"));
    assert!(glob_match("**x", "x"));
    assert!(glob_match("", ""));
    assert!(!glob_match("", "a"));
    assert!(glob_match("exact", "exact"));
    assert!(!glob_match("exact", "exactly"));
    assert!(glob_match("l\u{e9}?", "l\u{e9}\u{e9}"));
}

#[test]
fn names_of_shared_objects() {
    for yes in ["libc.so", "libc.so.6", "a.so.b", "..so", "x.so.1.2"] {
        assert!(is_shared_object(yes.as_bytes()), "{yes}");
    }
    for no in [".so", "so", "libc.SO", "libc.so_", "libcso", "lib.a"] {
        assert!(!is_shared_object(no.as_bytes()), "{no}");
    }
    assert!(is_shared_object(b"\xff.so"));
    assert!(!is_shared_object(b"\xff.so.1"));
}

#[test]
fn the_base_abi_goes_with_all() {
    assert!(osabi_compatible(0, 9) && osabi_compatible(9, 0) && osabi_compatible(3, 3));
    assert!(!osabi_compatible(3, 9));
}

fn words(args: &[&str]) -> Vec<PathBuf> {
    std::iter::once("auto-formatelf").chain(args.iter().copied()).map(PathBuf::from).collect()
}

fn fail(args: &[&str]) -> String {
    match parse_args(words(args), &None, &None) {
        Err(Error::Cli(t)) => t,
        Err(e) => panic!("{e:?}"),
        Ok(_) => panic!("accepted"),
    }
}

fn support(linker: Result<Vec<u8>, String>) -> Option<NixSupport> {
    Some(NixSupport {
        linker_file: PathBuf::from("/nix-support/dynamic-linker"),
        linker,
        libc: Some(b"/glibc\n".to_vec()),
    })
}

#[test]
fn arguments() {
    let c = parse_args(
        words(&[
            "--paths", "a", "b", "--libs", "l", "-", "--runtime-dependencies", "--append-rpaths", "r",
            "--ignore-missing", "libx*", "y", "--no-recurse", "--keep-libc", "--ignore-existing",
            "--interpreter", "/ld.so", "--libc=/c", "-j3", "--page-size", "65536", "--extra-args",
            "--nonsense", "x",
        ]),
        &None,
        &Some("7".into()),
    )
    .unwrap();
    assert_eq!(c.paths, [PathBuf::from("a"), PathBuf::from("b")]);
    assert_eq!(c.libs, [PathBuf::from("l"), PathBuf::from("-")]);
    assert!(c.runtime_deps.is_empty());
    assert_eq!(c.append_rpaths, [PathBuf::from("r")]);
    assert_eq!(c.ignore_missing, ["libx*", "y"]);
    assert!(!c.recursive && c.keep_libc && !c.add_existing);
    assert_eq!(c.interpreter, PathBuf::from("/ld.so"));
    assert_eq!(c.libc_lib, Some(PathBuf::from("/c")));
    assert_eq!((c.jobs, c.page_size), (3, Some(65536)));
    assert!(require_paths(&c).is_ok());
}

#[test]
fn arguments_left_out() {
    let c = parse_args(words(&["--libs=x=y", "--libs"]), &support(Ok(b" /lib/ld\xff \n".to_vec())), &Some(" 5\n".into()))
        .unwrap();
    assert_eq!(c.libs, [PathBuf::from("x=y")]);
    assert!(c.recursive && !c.keep_libc && c.add_existing);
    assert_eq!(c.interpreter, PathBuf::from("/lib/ld\u{fffd}"));
    assert_eq!(c.libc_lib, Some(PathBuf::from("/glibc/lib")));
    assert_eq!((c.jobs, c.page_size), (5, None));
    match require_paths(&c) {
        Err(Error::Cli(t)) => assert_eq!(t, "auto-formatelf: no paths to patch"),
        other => panic!("{other:?}"),
    }
    for space in ["\t", "\n", "\u{b}", "\u{c}", "\r", " ", "\u{85}", "\u{a0}", "\u{1680}",
        "\u{2000}", "\u{200a}", "\u{2028}", "\u{2029}", "\u{202f}", "\u{205f}", "\u{3000}",
    ] {
        let cores = Some(format!("{space}7{space}"));
        let c = parse_args(words(&[]), &support(Ok(Vec::new())), &cores).unwrap();
        assert_eq!(c.jobs, 7);
    }
    for other in ["\0", "\u{8}", "\u{e}", "\u{1f}", "\u{7f}", "\u{180e}", "\u{200b}", "\u{feff}"] {
        let cores = Some(format!("{other}7"));
        let c = parse_args(words(&[]), &support(Ok(Vec::new())), &cores).unwrap();
        assert_eq!(c.jobs, 0);
    }
    let c = parse_args(words(&["-j", "0"]), &support(Ok(Vec::new())), &Some("all".into())).unwrap();
    assert_eq!(c.jobs, 0);
    match parse_args(words(&[]), &support(Err("denied".into())), &None) {
        Err(Error::Io { path, source }) => {
            assert_eq!(path, PathBuf::from("/nix-support/dynamic-linker"));
            assert_eq!(source, "denied");
        }
        _ => panic!("accepted"),
    }
}

#[test]
fn arguments_refused() {
    assert_eq!(fail(&[]), "auto-formatelf: no --interpreter and no $NIX_BINTOOLS");
    assert_eq!(fail(&["--nonsense"]), "auto-formatelf: unexpected Long(\"nonsense\")");
    assert_eq!(fail(&["word"]), "auto-formatelf: unexpected Value(\"word\")");
    assert_eq!(fail(&["-x"]), "auto-formatelf: unexpected Short('x')");
    assert_eq!(fail(&["--jobs"]), "auto-formatelf: missing argument for option '--jobs'");
    assert_eq!(fail(&["-j"]), "auto-formatelf: missing argument for option '-j'");
    assert_eq!(fail(&["-jx"]), "auto-formatelf: invalid --jobs");
    assert_eq!(fail(&["-j=-1"]), "auto-formatelf: invalid --jobs");
    assert_eq!(fail(&["--page-size", "x"]), "auto-formatelf: invalid --page-size");
    assert_eq!(
        fail(&["--keep-libc=1"]),
        "auto-formatelf: unexpected argument for option '--keep-libc': \"1\""
    );
}

#[test]
fn workers() {
    assert_eq!(resolve_workers(4, Some(16)), 4);
    assert_eq!(resolve_workers(0, Some(16)), 16);
    assert_eq!(resolve_workers(0, None), 1);
    assert_eq!(resolve_workers(0, Some(0)), 1);
}

#[test]
fn where_to_look() {
    let line = ["--interpreter", "i", "--paths", "p", "--libs", "l"];
    let c = parse_args(words(&line), &None, &None).unwrap();
    assert_eq!(roots(&c), [(PathBuf::from("p"), true), (PathBuf::from("l"), false)]);
    let c = parse_args(words(&[&line[..], &["--no-recurse"]].concat()), &None, &None).unwrap();
    assert_eq!(roots(&c), [(PathBuf::from("p"), false), (PathBuf::from("l"), false)]);
    let c = parse_args(words(&[&line[..], &["--ignore-existing"]].concat()), &None, &None).unwrap();
    assert_eq!(roots(&c), [(PathBuf::from("l"), false)]);
    assert_eq!(visit(Found::Symlink, true, true), Visit::Skip);
    assert_eq!(visit(Found::File, false, false), Visit::Take);
    assert_eq!(visit(Found::Directory, true, false), Visit::Descend);
    assert_eq!(visit(Found::Directory, false, true), Visit::Descend);
    assert_eq!(visit(Found::Directory, false, false), Visit::Skip);
}

fn entry(path: &str, is_dir: bool) -> Entry {
    let name = path.rsplit('/').next().unwrap().as_bytes().to_vec();
    Entry { path: PathBuf::from(path), name, is_dir }
}

#[test]
fn places_are_told_apart_by_components() {
    let paths = [
        "", ".", "./", "/", "/.", "//", "..", "../", "/..", "a", "a/", "a/.", "./a", "././a", "/a",
        "/a/", "//a", "/./a", "/a/.", "/a/..", "a/b", "a//b", "a/./b", "a/b/", "./a/b", "a/../b",
        "a.", ".a", "/a/.b", "/a/./b", "a/ b",
    ];
    for p in paths {
        for q in paths {
            let (p, q) = (PathBuf::from(p), PathBuf::from(q));
            assert_eq!(same_place(&p, &q), p == q, "{p:?} {q:?}");
        }
    }
}

#[test]
fn the_cache_of_libraries() {
    let mut cache = Cache::new();
    let mut wave = Wave::new();
    let listing = Seen::Dir(vec![
        entry("/l/sub", true),
        entry("/l/liba.so", false),
        entry("/l/readme", false),
        entry("/l/libb.so.2", false),
    ]);
    cache.expand(&mut wave, PathBuf::from("/l"), true, &listing);
    assert!(cache.is_visited(&PathBuf::from("/l")));
    assert_eq!(wave.next, [(PathBuf::from("/l/sub"), true)]);
    assert_eq!(
        wave.to_parse,
        [(PathBuf::from("/l/liba.so"), true), (PathBuf::from("/l/libb.so.2"), true)]
    );
    for again in ["/l", "/l/", "/./l", "//l/."] {
        assert!(cache.is_visited(&PathBuf::from(again)));
        cache.expand(&mut wave, PathBuf::from(again), true, &listing);
        assert_eq!(wave.to_parse.len(), 2);
    }
    assert!(!cache.is_visited(&PathBuf::from("l")));
    cache.expand(&mut wave, PathBuf::from("/f"), false, &Seen::File);
    assert_eq!(wave.to_parse[2], (PathBuf::from("/f"), false));
    cache.expand(&mut wave, PathBuf::from("/m"), false, &listing);
    assert_eq!((wave.to_parse.len(), wave.next.len()), (5, 1));
    cache.expand(&mut wave, PathBuf::from("/n"), false, &Seen::Nothing);
    assert_eq!(cache.visited.len(), 4);

    let arch = Arch { machine: 62, elf64: true };
    let lib = |osabi, rpath_dirs| ParsedLib { name: "liba.so".into(), arch, osabi, rpath_dirs };
    let mut wave = Wave::new();
    cache.absorb(&mut wave, &lib(9, vec![(PathBuf::from("/r"), true)]), PathBuf::from("/one"));
    cache.absorb(&mut wave, &lib(0, Vec::new()), PathBuf::from("/two"));
    assert_eq!(wave.next, [(PathBuf::from("/r"), true)]);
    assert_eq!(cache.find("liba.so", arch, 9), Some(&PathBuf::from("/one")));
    assert_eq!(cache.find("liba.so", arch, 3), Some(&PathBuf::from("/two")));
    assert_eq!(cache.find("libb.so", arch, 3), None);
    assert_eq!(cache.find("liba.so", Arch { machine: 62, elf64: false }, 3), None);
}

#[test]
fn run_paths_are_joined_once() {
    let p = |v: &[&str]| v.iter().map(PathBuf::from).collect::<Vec<_>>();
    assert_eq!(join_rpaths(&p(&["/b", "/a", "/b", "/c", "/a"])), Some("/b:/a:/c".to_string()));
    assert_eq!(join_rpaths(&Vec::new()), None);
}

#[test]
fn missing_libraries_are_reported() {
    let missing = vec![
        (PathBuf::from("/f"), "libx.so.1".to_string()),
        (PathBuf::from("/g"), "liby.so".to_string()),
    ];
    let r = report_missing(&missing, &vec!["libx*".to_string()]);
    assert_eq!(
        r.lines,
        [
            "auto-formatelf: ignoring missing libx.so.1 wanted by /f",
            "auto-formatelf: liby.so not found, wanted by /g"
        ]
    );
    match r.outcome {
        Err(Error::Missing(t)) => assert_eq!(
            t,
            "auto-formatelf could not satisfy all dependencies; add them to --libs or pass --ignore-missing"
        ),
        other => panic!("{other:?}"),
    }
    assert!(report_missing(&missing, &vec!["lib?.so*".to_string()]).outcome.is_ok());
    assert!(report_missing(&Vec::new(), &Vec::new()).outcome.is_ok());
}
