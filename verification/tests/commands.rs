//! Command lines.
use std::path::PathBuf;

use formatelf::cli::{parse, Args, AtFile, Operation, Parsed, HELP};
use formatelf::error::Error;
use formatelf::patch::{is_mutating, is_read_only, modifiers, require_files};
use proptest::test_runner::{Config, TestRunner};

fn os(args: &[&str]) -> Vec<PathBuf> {
    std::iter::once(PathBuf::from("formatelf"))
        .chain(args.iter().map(PathBuf::from))
        .collect()
}

fn run(args: &[&str]) -> Args {
    match parse(os(args), &Vec::new()).unwrap() {
        Parsed::Run(a) => a,
        _ => panic!("expected Run"),
    }
}

fn fail(args: &[&str]) -> String {
    match parse(os(args), &Vec::new()) {
        Err(Error::Cli(t)) => t,
        other => panic!("{other:?}"),
    }
}

#[test]
fn preserves_operation_order() {
    let a = run(&["--add-rpath", "/a", "--set-soname", "libx.so", "main"]);
    assert_eq!(
        a.ops,
        vec![
            Operation::AddRpath("/a".into()),
            Operation::SetSoname("libx.so".into()),
        ]
    );
    assert_eq!(a.files, vec![PathBuf::from("main")]);
}

#[test]
fn replace_needed_takes_two_values() {
    let a = run(&["--replace-needed", "old.so", "new.so", "main"]);
    assert_eq!(
        a.ops,
        vec![Operation::ReplaceNeeded {
            old: "old.so".into(),
            new: "new.so".into()
        }]
    );
}

#[test]
fn at_file_indirection() {
    let line = || os(&["--set-rpath", "@/tmp/formatelf_cli_test/rpath", "main"]);
    let path = match parse(line(), &Vec::new()).unwrap() {
        Parsed::Read(path) => path,
        other => panic!("{other:?}"),
    };
    assert_eq!(path, "/tmp/formatelf_cli_test/rpath");
    let files = vec![AtFile { path, contents: Ok(b"/from/file".to_vec()) }];
    match parse(line(), &files).unwrap() {
        Parsed::Run(a) => assert_eq!(a.ops, vec![Operation::SetRpath("/from/file".into())]),
        other => panic!("{other:?}"),
    }
}

#[test]
fn contents_that_are_not_text_are_replaced() {
    let files = vec![AtFile { path: "f".into(), contents: Ok(b"a\xffb".to_vec()) }];
    match parse(os(&["--set-soname", "@f", "main"]), &files).unwrap() {
        Parsed::Run(a) => assert_eq!(a.ops, vec![Operation::SetSoname("a\u{fffd}b".into())]),
        other => panic!("{other:?}"),
    }
}

#[test]
fn a_file_that_cannot_be_read_is_named() {
    let files = vec![AtFile { path: "f".into(), contents: Err("no such file".into()) }];
    match parse(os(&["--set-soname", "@f", "main"]), &files) {
        Err(Error::Io { path, source }) => {
            assert_eq!(path, PathBuf::from("f"));
            assert_eq!(source, "no such file");
        }
        other => panic!("{other:?}"),
    }
}

#[test]
fn page_size_rejects_zero() {
    assert!(parse(os(&["--page-size", "0", "main"]), &Vec::new()).is_err());
}

#[test]
fn page_size_is_a_number() {
    assert_eq!(run(&["--page-size", "65536"]).page_size, Some(65536));
    assert_eq!(run(&["--page-size=+4096"]).page_size, Some(4096));
    assert_eq!(run(&["--page-size=18446744073709551615"]).page_size, Some(u64::MAX));
    for bad in ["", "+", "-1", "4k", "0x1000", "18446744073709551616", " 1"] {
        assert_eq!(fail(&["--page-size", bad]), "invalid argument to --page-size");
    }
}

#[test]
fn help_and_version() {
    assert!(matches!(parse(os(&["--help"]), &Vec::new()).unwrap(), Parsed::Help));
    assert!(matches!(
        parse(os(&["--version"]), &Vec::new()).unwrap(),
        Parsed::Version
    ));
    assert!(matches!(parse(os(&["-h"]), &Vec::new()).unwrap(), Parsed::Help));
    assert!(HELP.starts_with("syntax: formatelf\n"));
    assert!(HELP.ends_with("  FILENAME...\n"));
}

#[test]
fn every_option_makes_its_operation() {
    let plain = [
        ("--print-interpreter", Operation::PrintInterpreter),
        ("--print-os-abi", Operation::PrintOsAbi),
        ("--print-soname", Operation::PrintSoname),
        ("--remove-rpath", Operation::RemoveRpath),
        ("--shrink-rpath", Operation::ShrinkRpath),
        ("--print-rpath", Operation::PrintRpath),
        ("--force-rpath", Operation::ForceRpath),
        ("--print-needed", Operation::PrintNeeded),
        ("--no-default-lib", Operation::NoDefaultLib),
        ("--add-debug-tag", Operation::AddDebugTag),
        ("--build-resolution-cache", Operation::BuildResolutionCache),
        ("--print-execstack", Operation::PrintExecstack),
        ("--clear-execstack", Operation::ClearExecstack),
        ("--set-execstack", Operation::SetExecstack),
    ];
    for (flag, op) in plain {
        assert_eq!(run(&[flag, "f"]).ops, vec![op]);
    }
    let text: [(&str, fn(String) -> Operation); 10] = [
        ("--set-interpreter", Operation::SetInterpreter),
        ("--interpreter", Operation::SetInterpreter),
        ("--set-os-abi", Operation::SetOsAbi),
        ("--set-soname", Operation::SetSoname),
        ("--allowed-rpath-prefixes", Operation::AllowedRpathPrefixes),
        ("--set-rpath", Operation::SetRpath),
        ("--add-rpath", Operation::AddRpath),
        ("--add-needed", Operation::AddNeeded),
        ("--remove-needed", Operation::RemoveNeeded),
        ("--clear-symbol-version", Operation::ClearSymbolVersion),
    ];
    for (flag, op) in text {
        assert_eq!(run(&[flag, "--value", "f"]).ops, vec![op("--value".into())]);
        assert_eq!(run(&[&format!("{flag}=v=w"), "f"]).ops, vec![op("v=w".into())]);
        assert_eq!(
            fail(&["f", flag]),
            format!("missing argument: missing argument for option '{flag}'")
        );
    }
    assert_eq!(
        run(&["--rename-dynamic-symbols", "map", "f"]).ops,
        vec![Operation::RenameDynamicSymbols("map".into())]
    );
}

#[test]
fn global_flags_are_no_operations() {
    let a = run(&["--no-sort", "--no-clobber-old-sections", "--output", "@out", "--debug", "a", "b"]);
    assert!(a.ops.is_empty());
    assert!(a.no_clobber_old_sections);
    assert!(a.debug);
    assert_eq!(a.output, Some(PathBuf::from("@out")));
    assert_eq!(a.files, vec![PathBuf::from("a"), PathBuf::from("b")]);
    let a = run(&["x"]);
    assert!(!a.no_clobber_old_sections && !a.debug && a.output.is_none() && a.page_size.is_none());
    assert!(require_files(&a).is_ok());
    assert!(matches!(require_files(&Args::default()), Err(Error::Cli(t)) if t == "no input files"));
}

#[test]
fn words_behind_two_dashes_are_files() {
    let a = run(&["--print-rpath", "--", "--print-needed", "-", "--"]);
    assert_eq!(a.ops, vec![Operation::PrintRpath]);
    assert_eq!(
        a.files,
        vec![PathBuf::from("--print-needed"), PathBuf::from("-"), PathBuf::from("--")]
    );
    assert_eq!(run(&["-", "--"]).files, vec![PathBuf::from("-")]);
}

#[test]
fn what_is_not_expected_is_refused() {
    assert_eq!(fail(&["--nonsense"]), "unexpected argument: Long(\"nonsense\")");
    assert_eq!(fail(&["-xh"]), "unexpected argument: Short('x')");
    assert_eq!(
        fail(&["--debug=yes", "f"]),
        "bad arguments: unexpected argument for option '--debug': \"yes\""
    );
    assert_eq!(
        fail(&["--replace-needed", "a"]),
        "missing argument: missing argument for option '--replace-needed'"
    );
}

#[test]
fn no_words_at_all_ask_for_nothing() {
    match parse(Vec::new(), &Vec::new()).unwrap() {
        Parsed::Run(a) => assert!(a.ops.is_empty() && a.files.is_empty()),
        other => panic!("{other:?}"),
    }
}

#[test]
fn the_last_prefixes_count() {
    let a = run(&[
        "--allowed-rpath-prefixes", "/a:/b", "--force-rpath", "--allowed-rpath-prefixes", ":/c::/d:", "f",
    ]);
    let mods = modifiers(&a);
    assert!(mods.force_rpath);
    assert_eq!(mods.allowed_rpath_prefixes, vec!["/c".to_string(), "/d".to_string()]);
    assert!(!mods.debug);
    let mods = modifiers(&run(&["--debug", "f"]));
    assert!(!mods.force_rpath && mods.allowed_rpath_prefixes.is_empty() && mods.debug);
}

#[test]
fn only_printing_leaves_the_file_alone() {
    assert!(is_read_only(&Operation::PrintNeeded));
    assert!(is_read_only(&Operation::PrintExecstack));
    assert!(!is_read_only(&Operation::ForceRpath));
    assert!(!is_mutating(&run(&["--print-rpath", "--print-soname", "f"]).ops));
    assert!(is_mutating(&run(&["--print-rpath", "--remove-rpath", "f"]).ops));
    assert!(!is_mutating(&Vec::new()));
}

#[test]
fn operations_keep_their_order() {
    let names = proptest::collection::vec("[a-z]{1,6}", 0..12);
    TestRunner::new(Config::with_cases(64))
        .run(&names, |names| {
            let mut words = vec![PathBuf::from("formatelf")];
            for n in &names {
                words.push(PathBuf::from("--add-needed"));
                words.push(PathBuf::from(n));
                words.push(PathBuf::from(format!("file-{n}")));
            }
            let a = match parse(words, &Vec::new()).unwrap() {
                Parsed::Run(a) => a,
                _ => panic!("expected Run"),
            };
            let want: Vec<Operation> = names.iter().cloned().map(Operation::AddNeeded).collect();
            assert_eq!(a.ops, want);
            assert_eq!(a.files.len(), names.len());
            Ok(())
        })
        .unwrap();
}
