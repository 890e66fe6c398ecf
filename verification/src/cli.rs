//! The command line.
use std::path::PathBuf;

use vstd::prelude::*;
use vstd::utf8::encode_utf8;

use crate::error::{Error, ErrorView, Outcome, Result};
use crate::lex::{
    debug_word, lex_next, lex_state, lex_take, missing_value, new_parser, next_arg, next_value,
    unexpected_value, Arg, ArgView, LexState,
};
use crate::paths::{lossy, lossy_text, path_bytes, path_list, path_of, path_opt, path_text};
use crate::seqs::{first, first_from};
use crate::text::{
    chars_of, concat, concat3, debug_char, debug_chr, debug_str, debug_text, number, parse_number,
    same_text, string_of, utf8_text,
};

verus! {

/// One requested operation. Pure data: parsing never touches an ELF file.
#[derive(Debug, Clone, PartialEq, Eq)]
pub enum Operation {
    SetInterpreter(String),
    PrintInterpreter,
    PrintOsAbi,
    SetOsAbi(String),
    PrintSoname,
    SetSoname(String),
    SetRpath(String),
    AddRpath(String),
    RemoveRpath,
    ShrinkRpath,
    AllowedRpathPrefixes(String),
    PrintRpath,
    ForceRpath,
    AddNeeded(String),
    RemoveNeeded(String),
    ReplaceNeeded { old: String, new: String },
    PrintNeeded,
    NoDefaultLib,
    ClearSymbolVersion(String),
    AddDebugTag,
    BuildResolutionCache,
    PrintExecstack,
    ClearExecstack,
    SetExecstack,
    RenameDynamicSymbols(PathBuf),
}

/// An [`Operation`] with its texts and its path as sequences.
pub enum OperationView {
    SetInterpreter(Seq<char>),
    PrintInterpreter,
    PrintOsAbi,
    SetOsAbi(Seq<char>),
    PrintSoname,
    SetSoname(Seq<char>),
    SetRpath(Seq<char>),
    AddRpath(Seq<char>),
    RemoveRpath,
    ShrinkRpath,
    AllowedRpathPrefixes(Seq<char>),
    PrintRpath,
    ForceRpath,
    AddNeeded(Seq<char>),
    RemoveNeeded(Seq<char>),
    ReplaceNeeded { before: Seq<char>, after: Seq<char> },
    PrintNeeded,
    NoDefaultLib,
    ClearSymbolVersion(Seq<char>),
    AddDebugTag,
    BuildResolutionCache,
    PrintExecstack,
    ClearExecstack,
    SetExecstack,
    RenameDynamicSymbols(Seq<u8>),
}

impl View for Operation {
    type V = OperationView;

    open spec fn view(&self) -> OperationView {
        match self {
            Operation::SetInterpreter(s) => OperationView::SetInterpreter(s@),
            Operation::PrintInterpreter => OperationView::PrintInterpreter,
            Operation::PrintOsAbi => OperationView::PrintOsAbi,
            Operation::SetOsAbi(s) => OperationView::SetOsAbi(s@),
            Operation::PrintSoname => OperationView::PrintSoname,
            Operation::SetSoname(s) => OperationView::SetSoname(s@),
            Operation::SetRpath(s) => OperationView::SetRpath(s@),
            Operation::AddRpath(s) => OperationView::AddRpath(s@),
            Operation::RemoveRpath => OperationView::RemoveRpath,
            Operation::ShrinkRpath => OperationView::ShrinkRpath,
            Operation::AllowedRpathPrefixes(s) => OperationView::AllowedRpathPrefixes(s@),
            Operation::PrintRpath => OperationView::PrintRpath,
            Operation::ForceRpath => OperationView::ForceRpath,
            Operation::AddNeeded(s) => OperationView::AddNeeded(s@),
            Operation::RemoveNeeded(s) => OperationView::RemoveNeeded(s@),
            Operation::ReplaceNeeded { old, new } => OperationView::ReplaceNeeded {
                before: old@,
                after: new@,
            },
            Operation::PrintNeeded => OperationView::PrintNeeded,
            Operation::NoDefaultLib => OperationView::NoDefaultLib,
            Operation::ClearSymbolVersion(s) => OperationView::ClearSymbolVersion(s@),
            Operation::AddDebugTag => OperationView::AddDebugTag,
            Operation::BuildResolutionCache => OperationView::BuildResolutionCache,
            Operation::PrintExecstack => OperationView::PrintExecstack,
            Operation::ClearExecstack => OperationView::ClearExecstack,
            Operation::SetExecstack => OperationView::SetExecstack,
            Operation::RenameDynamicSymbols(p) => OperationView::RenameDynamicSymbols(
                path_bytes(*p),
            ),
        }
    }
}

/// The long options.
#[derive(Debug, Clone, Copy, PartialEq, Eq, Structural)]
pub enum Flag {
    SetInterpreter,
    PageSize,
    PrintInterpreter,
    PrintOsAbi,
    SetOsAbi,
    PrintSoname,
    SetSoname,
    RemoveRpath,
    ShrinkRpath,
    AllowedRpathPrefixes,
    SetRpath,
    AddRpath,
    PrintRpath,
    ForceRpath,
    AddNeeded,
    RemoveNeeded,
    ReplaceNeeded,
    PrintNeeded,
    NoDefaultLib,
    ClearSymbolVersion,
    AddDebugTag,
    BuildResolutionCache,
    PrintExecstack,
    ClearExecstack,
    SetExecstack,
    RenameDynamicSymbols,
    NoSort,
    NoClobberOldSections,
    Output,
    Debug,
    Help,
    Version,
    Unknown,
}

/// The long option that a name stands for.
pub open spec fn flag_of(name: Seq<char>) -> Flag {
    if name == "set-interpreter"@ || name == "interpreter"@ {
        Flag::SetInterpreter
    } else if name == "page-size"@ {
        Flag::PageSize
    } else if name == "print-interpreter"@ {
        Flag::PrintInterpreter
    } else if name == "print-os-abi"@ {
        Flag::PrintOsAbi
    } else if name == "set-os-abi"@ {
        Flag::SetOsAbi
    } else if name == "print-soname"@ {
        Flag::PrintSoname
    } else if name == "set-soname"@ {
        Flag::SetSoname
    } else if name == "remove-rpath"@ {
        Flag::RemoveRpath
    } else if name == "shrink-rpath"@ {
        Flag::ShrinkRpath
    } else if name == "allowed-rpath-prefixes"@ {
        Flag::AllowedRpathPrefixes
    } else if name == "set-rpath"@ {
        Flag::SetRpath
    } else if name == "add-rpath"@ {
        Flag::AddRpath
    } else if name == "print-rpath"@ {
        Flag::PrintRpath
    } else if name == "force-rpath"@ {
        Flag::ForceRpath
    } else if name == "add-needed"@ {
        Flag::AddNeeded
    } else if name == "remove-needed"@ {
        Flag::RemoveNeeded
    } else if name == "replace-needed"@ {
        Flag::ReplaceNeeded
    } else if name == "print-needed"@ {
        Flag::PrintNeeded
    } else if name == "no-default-lib"@ {
        Flag::NoDefaultLib
    } else if name == "clear-symbol-version"@ {
        Flag::ClearSymbolVersion
    } else if name == "add-debug-tag"@ {
        Flag::AddDebugTag
    } else if name == "build-resolution-cache"@ {
        Flag::BuildResolutionCache
    } else if name == "print-execstack"@ {
        Flag::PrintExecstack
    } else if name == "clear-execstack"@ {
        Flag::ClearExecstack
    } else if name == "set-execstack"@ {
        Flag::SetExecstack
    } else if name == "rename-dynamic-symbols"@ {
        Flag::RenameDynamicSymbols
    } else if name == "no-sort"@ {
        Flag::NoSort
    } else if name == "no-clobber-old-sections"@ {
        Flag::NoClobberOldSections
    } else if name == "output"@ {
        Flag::Output
    } else if name == "debug"@ {
        Flag::Debug
    } else if name == "help"@ {
        Flag::Help
    } else if name == "version"@ {
        Flag::Version
    } else {
        Flag::Unknown
    }
}

fn find_flag(name: &str) -> (f: Flag)
    ensures
        f == flag_of(name@),
{
    if same_text(name, "set-interpreter") || same_text(name, "interpreter") {
        Flag::SetInterpreter
    } else if same_text(name, "page-size") {
        Flag::PageSize
    } else if same_text(name, "print-interpreter") {
        Flag::PrintInterpreter
    } else if same_text(name, "print-os-abi") {
        Flag::PrintOsAbi
    } else if same_text(name, "set-os-abi") {
        Flag::SetOsAbi
    } else if same_text(name, "print-soname") {
        Flag::PrintSoname
    } else if same_text(name, "set-soname") {
        Flag::SetSoname
    } else if same_text(name, "remove-rpath") {
        Flag::RemoveRpath
    } else if same_text(name, "shrink-rpath") {
        Flag::ShrinkRpath
    } else if same_text(name, "allowed-rpath-prefixes") {
        Flag::AllowedRpathPrefixes
    } else if same_text(name, "set-rpath") {
        Flag::SetRpath
    } else if same_text(name, "add-rpath") {
        Flag::AddRpath
    } else if same_text(name, "print-rpath") {
        Flag::PrintRpath
    } else if same_text(name, "force-rpath") {
        Flag::ForceRpath
    } else if same_text(name, "add-needed") {
        Flag::AddNeeded
    } else if same_text(name, "remove-needed") {
        Flag::RemoveNeeded
    } else if same_text(name, "replace-needed") {
        Flag::ReplaceNeeded
    } else if same_text(name, "print-needed") {
        Flag::PrintNeeded
    } else if same_text(name, "no-default-lib") {
        Flag::NoDefaultLib
    } else if same_text(name, "clear-symbol-version") {
        Flag::ClearSymbolVersion
    } else if same_text(name, "add-debug-tag") {
        Flag::AddDebugTag
    } else if same_text(name, "build-resolution-cache") {
        Flag::BuildResolutionCache
    } else if same_text(name, "print-execstack") {
        Flag::PrintExecstack
    } else if same_text(name, "clear-execstack") {
        Flag::ClearExecstack
    } else if same_text(name, "set-execstack") {
        Flag::SetExecstack
    } else if same_text(name, "rename-dynamic-symbols") {
        Flag::RenameDynamicSymbols
    } else if same_text(name, "no-sort") {
        Flag::NoSort
    } else if same_text(name, "no-clobber-old-sections") {
        Flag::NoClobberOldSections
    } else if same_text(name, "output") {
        Flag::Output
    } else if same_text(name, "debug") {
        Flag::Debug
    } else if same_text(name, "help") {
        Flag::Help
    } else if same_text(name, "version") {
        Flag::Version
    } else {
        Flag::Unknown
    }
}

/// The operation of an option without a value.
pub open spec fn plain_op(f: Flag) -> Option<OperationView> {
    match f {
        Flag::PrintInterpreter => Some(OperationView::PrintInterpreter),
        Flag::PrintOsAbi => Some(OperationView::PrintOsAbi),
        Flag::PrintSoname => Some(OperationView::PrintSoname),
        Flag::RemoveRpath => Some(OperationView::RemoveRpath),
        Flag::ShrinkRpath => Some(OperationView::ShrinkRpath),
        Flag::PrintRpath => Some(OperationView::PrintRpath),
        Flag::ForceRpath => Some(OperationView::ForceRpath),
        Flag::PrintNeeded => Some(OperationView::PrintNeeded),
        Flag::NoDefaultLib => Some(OperationView::NoDefaultLib),
        Flag::AddDebugTag => Some(OperationView::AddDebugTag),
        Flag::BuildResolutionCache => Some(OperationView::BuildResolutionCache),
        Flag::PrintExecstack => Some(OperationView::PrintExecstack),
        Flag::ClearExecstack => Some(OperationView::ClearExecstack),
        Flag::SetExecstack => Some(OperationView::SetExecstack),
        _ => None,
    }
}

fn plain_operation(f: Flag) -> (res: Option<Operation>)
    ensures
        match res {
            Some(op) => plain_op(f) == Some(op@),
            None => plain_op(f) is None,
        },
{
    match f {
        Flag::PrintInterpreter => Some(Operation::PrintInterpreter),
        Flag::PrintOsAbi => Some(Operation::PrintOsAbi),
        Flag::PrintSoname => Some(Operation::PrintSoname),
        Flag::RemoveRpath => Some(Operation::RemoveRpath),
        Flag::ShrinkRpath => Some(Operation::ShrinkRpath),
        Flag::PrintRpath => Some(Operation::PrintRpath),
        Flag::ForceRpath => Some(Operation::ForceRpath),
        Flag::PrintNeeded => Some(Operation::PrintNeeded),
        Flag::NoDefaultLib => Some(Operation::NoDefaultLib),
        Flag::AddDebugTag => Some(Operation::AddDebugTag),
        Flag::BuildResolutionCache => Some(Operation::BuildResolutionCache),
        Flag::PrintExecstack => Some(Operation::PrintExecstack),
        Flag::ClearExecstack => Some(Operation::ClearExecstack),
        Flag::SetExecstack => Some(Operation::SetExecstack),
        _ => None,
    }
}

/// The operation of an option with the text `t` for its value.
pub open spec fn text_op(f: Flag, t: Seq<char>) -> Option<OperationView> {
    match f {
        Flag::SetInterpreter => Some(OperationView::SetInterpreter(t)),
        Flag::SetOsAbi => Some(OperationView::SetOsAbi(t)),
        Flag::SetSoname => Some(OperationView::SetSoname(t)),
        Flag::AllowedRpathPrefixes => Some(OperationView::AllowedRpathPrefixes(t)),
        Flag::SetRpath => Some(OperationView::SetRpath(t)),
        Flag::AddRpath => Some(OperationView::AddRpath(t)),
        Flag::AddNeeded => Some(OperationView::AddNeeded(t)),
        Flag::RemoveNeeded => Some(OperationView::RemoveNeeded(t)),
        Flag::ClearSymbolVersion => Some(OperationView::ClearSymbolVersion(t)),
        _ => None,
    }
}

/// Whether an option takes one text and makes an operation of it.
pub open spec fn takes_text(f: Flag) -> bool {
    text_op(f, Seq::empty()) is Some
}

fn wants_text(f: Flag) -> (b: bool)
    ensures
        b == takes_text(f),
{
    match f {
        Flag::SetInterpreter => true,
        Flag::SetOsAbi => true,
        Flag::SetSoname => true,
        Flag::AllowedRpathPrefixes => true,
        Flag::SetRpath => true,
        Flag::AddRpath => true,
        Flag::AddNeeded => true,
        Flag::RemoveNeeded => true,
        Flag::ClearSymbolVersion => true,
        _ => false,
    }
}

fn text_operation(f: Flag, t: String) -> (res: Option<Operation>)
    ensures
        match res {
            Some(op) => text_op(f, t@) == Some(op@),
            None => text_op(f, t@) is None,
        },
{
    match f {
        Flag::SetInterpreter => Some(Operation::SetInterpreter(t)),
        Flag::SetOsAbi => Some(Operation::SetOsAbi(t)),
        Flag::SetSoname => Some(Operation::SetSoname(t)),
        Flag::AllowedRpathPrefixes => Some(Operation::AllowedRpathPrefixes(t)),
        Flag::SetRpath => Some(Operation::SetRpath(t)),
        Flag::AddRpath => Some(Operation::AddRpath(t)),
        Flag::AddNeeded => Some(Operation::AddNeeded(t)),
        Flag::RemoveNeeded => Some(Operation::RemoveNeeded(t)),
        Flag::ClearSymbolVersion => Some(Operation::ClearSymbolVersion(t)),
        _ => None,
    }
}

/// Global flags plus the operations in their order and the files to edit.
#[derive(Debug, Clone)]
pub struct Args {
    pub ops: Vec<Operation>,
    pub files: Vec<PathBuf>,
    pub page_size: Option<u64>,
    pub no_clobber_old_sections: bool,
    pub output: Option<PathBuf>,
    pub debug: bool,
}

/// [`Args`] with their texts and paths as sequences.
#[verifier::ext_equal]
pub struct ArgsView {
    pub ops: Seq<OperationView>,
    pub files: Seq<Seq<u8>>,
    pub page_size: Option<u64>,
    pub no_clobber_old_sections: bool,
    pub output: Option<Seq<u8>>,
    pub debug: bool,
}

pub open spec fn op_views(v: Seq<Operation>) -> Seq<OperationView> {
    Seq::new(v.len(), |i: int| v[i]@)
}

impl View for Args {
    type V = ArgsView;

    open spec fn view(&self) -> ArgsView {
        ArgsView {
            ops: op_views(self.ops@),
            files: path_list(self.files@),
            page_size: self.page_size,
            no_clobber_old_sections: self.no_clobber_old_sections,
            output: path_opt(self.output),
            debug: self.debug,
        }
    }
}

/// Nothing asked for.
pub open spec fn no_args() -> ArgsView {
    ArgsView {
        ops: Seq::empty(),
        files: Seq::empty(),
        page_size: None,
        no_clobber_old_sections: false,
        output: None,
        debug: false,
    }
}

impl Default for Args {
    fn default() -> (a: Args)
        ensures
            a@ == no_args(),
    {
        let a = Args {
            ops: Vec::new(),
            files: Vec::new(),
            page_size: None,
            no_clobber_old_sections: false,
            output: None,
            debug: false,
        };
        assert(a@ =~= no_args());
        a
    }
}

/// A file whose contents stand for a value given as `@path`, or why it cannot be
/// read.
#[derive(Debug)]
pub struct AtFile {
    pub path: String,
    pub contents: std::result::Result<Vec<u8>, String>,
}

/// An [`AtFile`] with its path and contents as sequences.
pub struct AtFileView {
    pub path: Seq<char>,
    pub contents: std::result::Result<Seq<u8>, Seq<char>>,
}

impl View for AtFile {
    type V = AtFileView;

    open spec fn view(&self) -> AtFileView {
        AtFileView {
            path: self.path@,
            contents: match self.contents {
                Ok(b) => Ok(b@),
                Err(e) => Err(e@),
            },
        }
    }
}

pub open spec fn at_file_views(v: Seq<AtFile>) -> Seq<AtFileView> {
    Seq::new(v.len(), |i: int| v[i]@)
}

/// Being the file at `path`.
pub open spec fn file_is(path: Seq<char>) -> spec_fn(AtFileView) -> bool {
    |f: AtFileView| f.path == path
}

/// What a command line asks for.
#[derive(Debug)]
pub enum Parsed {
    Run(Args),
    Help,
    Version,
    /// The contents of the file at this path are needed first: it was given as
    /// `@path` and is not among the files at hand.
    Read(String),
}

/// A [`Parsed`] with its contents as sequences.
pub enum ParsedView {
    Run(ArgsView),
    Help,
    Version,
    Read(Seq<char>),
}

impl View for Parsed {
    type V = ParsedView;

    open spec fn view(&self) -> ParsedView {
        match self {
            Parsed::Run(a) => ParsedView::Run(a@),
            Parsed::Help => ParsedView::Help,
            Parsed::Version => ParsedView::Version,
            Parsed::Read(p) => ParsedView::Read(p@),
        }
    }
}

/// The text value of an option.
pub enum Taken {
    Text(Seq<char>, LexState),
    /// The file at this path is needed first.
    Read(Seq<char>),
    Fail(ErrorView),
}

/// The text that a value stands for: itself, or the contents of the file that it
/// names behind `@`.
pub open spec fn resolved_text(text: Seq<char>, files: Seq<AtFileView>, s: LexState) -> Taken {
    if text.len() > 0 && text[0] == '@' {
        let path = text.skip(1);
        match first(files, file_is(path)) {
            None => Taken::Read(path),
            Some(k) => match files[k].contents {
                Ok(b) => Taken::Text(lossy(b), s),
                Err(source) => Taken::Fail(ErrorView::Io { path: encode_utf8(path), source }),
            },
        }
    } else {
        Taken::Text(text, s)
    }
}

/// What a missing value fails with.
pub open spec fn no_value(s: LexState) -> ErrorView {
    ErrorView::Cli("missing argument: "@ + missing_value(s))
}

/// The text value of the option that was read last.
pub open spec fn taken(s: LexState, files: Seq<AtFileView>) -> Taken {
    match lex_take(s) {
        None => Taken::Fail(no_value(s)),
        Some((b, t)) => match utf8_text(b) {
            None => Taken::Fail(ErrorView::Cli("argument is not valid UTF-8"@)),
            Some(text) => resolved_text(text, files, t),
        },
    }
}

/// Where parsing goes on, or how it ends.
pub enum Step {
    More(LexState, ArgsView),
    Done(Outcome<ParsedView>),
}

/// The number that a page size stands for: not zero.
pub open spec fn page_size_of(t: Seq<char>) -> Option<u64> {
    match number(t) {
        Some(n) => if 0 < n <= u64::MAX {
            Some(n as u64)
        } else {
            None
        },
        None => None,
    }
}

/// The arguments with one more operation.
pub open spec fn with_op(a: ArgsView, op: OperationView) -> ArgsView {
    ArgsView { ops: a.ops.push(op), ..a }
}

/// What an option that takes a path makes of it.
pub open spec fn path_step(s: LexState, f: Flag, a: ArgsView) -> Step {
    match lex_take(s) {
        None => Step::Done(Err(no_value(s))),
        Some((b, t)) => if f is Output {
            Step::More(t, ArgsView { output: Some(b), ..a })
        } else {
            Step::More(t, with_op(a, OperationView::RenameDynamicSymbols(b)))
        },
    }
}

/// What an option that takes one text makes of it.
pub open spec fn text_step(s: LexState, f: Flag, a: ArgsView, files: Seq<AtFileView>) -> Step {
    match taken(s, files) {
        Taken::Fail(e) => Step::Done(Err(e)),
        Taken::Read(path) => Step::Done(Ok(ParsedView::Read(path))),
        Taken::Text(t, u) => if f is PageSize {
            match page_size_of(t) {
                None => Step::Done(Err(ErrorView::Cli("invalid argument to --page-size"@))),
                Some(n) => Step::More(u, ArgsView { page_size: Some(n), ..a }),
            }
        } else {
            Step::More(u, with_op(a, text_op(f, t)->Some_0))
        },
    }
}

/// What `--replace-needed` makes of its two texts.
pub open spec fn replace_step(s: LexState, a: ArgsView, files: Seq<AtFileView>) -> Step {
    match taken(s, files) {
        Taken::Fail(e) => Step::Done(Err(e)),
        Taken::Read(path) => Step::Done(Ok(ParsedView::Read(path))),
        Taken::Text(before, t) => match taken(t, files) {
            Taken::Fail(e) => Step::Done(Err(e)),
            Taken::Read(path) => Step::Done(Ok(ParsedView::Read(path))),
            Taken::Text(after, u) => Step::More(
                u,
                with_op(a, OperationView::ReplaceNeeded { before, after }),
            ),
        },
    }
}

/// What a long option does. Headers are never sorted, so that `--no-sort` asks
/// for nothing.
pub open spec fn long_step(
    s: LexState,
    name: Seq<char>,
    a: ArgsView,
    files: Seq<AtFileView>,
) -> Step {
    let f = flag_of(name);
    if plain_op(f) is Some {
        Step::More(s, with_op(a, plain_op(f)->Some_0))
    } else if takes_text(f) || f is PageSize {
        text_step(s, f, a, files)
    } else {
        match f {
            Flag::ReplaceNeeded => replace_step(s, a, files),
            Flag::RenameDynamicSymbols => path_step(s, f, a),
            Flag::Output => path_step(s, f, a),
            Flag::NoSort => Step::More(s, a),
            Flag::NoClobberOldSections => Step::More(
                s,
                ArgsView { no_clobber_old_sections: true, ..a },
            ),
            Flag::Debug => Step::More(s, ArgsView { debug: true, ..a }),
            Flag::Help => Step::Done(Ok(ParsedView::Help)),
            Flag::Version => Step::Done(Ok(ParsedView::Version)),
            _ => Step::Done(
                Err(ErrorView::Cli("unexpected argument: Long("@ + debug_text(name) + ")"@)),
            ),
        }
    }
}

/// What the next argument does.
pub open spec fn parse_step(s: LexState, a: ArgsView, files: Seq<AtFileView>) -> Step {
    match s.attached {
        Some(v) => Step::Done(
            Err(ErrorView::Cli("bad arguments: "@ + unexpected_value(s, debug_word(v)))),
        ),
        None => match lex_next(s) {
            (None, _) => Step::Done(Ok(ParsedView::Run(a))),
            (Some(ArgView::Value(b)), t) => Step::More(t, ArgsView { files: a.files.push(b), ..a }),
            (Some(ArgView::Short(c)), _) => if c == 'h' {
                Step::Done(Ok(ParsedView::Help))
            } else {
                Step::Done(
                    Err(ErrorView::Cli("unexpected argument: Short("@ + debug_char(c) + ")"@)),
                )
            },
            (Some(ArgView::Long(name)), t) => long_step(t, name, a, files),
        },
    }
}

/// Every step reads a word.
pub proof fn lemma_parse_step(s: LexState, a: ArgsView, files: Seq<AtFileView>)
    ensures
        parse_step(s, a, files) matches Step::More(t, _) ==> t.unread.len() < s.unread.len(),
{
}

/// What a command line asks for, from where its parser is.
pub open spec fn parsed_from(
    s: LexState,
    a: ArgsView,
    files: Seq<AtFileView>,
) -> Outcome<ParsedView>
    decreases s.unread.len(),
    via parsed_from_decreases
{
    match parse_step(s, a, files) {
        Step::Done(r) => r,
        Step::More(t, b) => parsed_from(t, b, files),
    }
}

#[via_fn]
proof fn parsed_from_decreases(s: LexState, a: ArgsView, files: Seq<AtFileView>) {
    lemma_parse_step(s, a, files);
}

/// Where a parser of the words of a command line starts; the first word is the
/// name of the program.
pub open spec fn lex_start(words: Seq<Seq<u8>>) -> LexState {
    LexState {
        unread: if words.len() == 0 {
            Seq::empty()
        } else {
            words.skip(1)
        },
        attached: None,
        cluster: Seq::empty(),
        finished: false,
        last: None,
    }
}

/// What a command line asks for.
pub open spec fn parsed_line(words: Seq<Seq<u8>>, files: Seq<AtFileView>) -> Outcome<ParsedView> {
    parsed_from(lex_start(words), no_args(), files)
}

/// A text value, or the path of the file that is needed first.
enum Val {
    Text(String),
    Read(String),
}

/// The contents that stand for `@path`.
fn find_file<'a>(files: &'a Vec<AtFile>, path: &str) -> (res: Option<&'a AtFile>)
    ensures
        match res {
            Some(f) => first(at_file_views(files@), file_is(path@)) matches Some(k)
                && at_file_views(files@)[k] == f@,
            None => first(at_file_views(files@), file_is(path@)) is None,
        },
{
    let ghost views = at_file_views(files@);
    let mut i: usize = 0;
    while i < files.len()
        invariant
            views == at_file_views(files@),
            i <= files@.len(),
            first(views, file_is(path@)) == first_from(views, file_is(path@), i as int),
        decreases files@.len() - i,
    {
        assert(views[i as int] == files@[i as int]@);
        if same_text(files[i].path.as_str(), path) {
            return Some(&files[i]);
        }
        i += 1;
    }
    None
}

/// The text that a value stands for.
fn resolve(text: String, files: &Vec<AtFile>, Ghost(s): Ghost<LexState>) -> (res: Result<Val>)
    ensures
        match (res, resolved_text(text@, at_file_views(files@), s)) {
            (Ok(Val::Text(t)), Taken::Text(x, u)) => t@ == x && u == s,
            (Ok(Val::Read(p)), Taken::Read(x)) => p@ == x,
            (Err(e), Taken::Fail(x)) => e@ == x,
            _ => false,
        },
{
    let chars = chars_of(text.as_str());
    if chars.len() == 0 || chars[0] != '@' {
        return Ok(Val::Text(text));
    }
    let path = string_of(&chars, 1, chars.len());
    assert(path@ =~= text@.skip(1));
    match find_file(files, path.as_str()) {
        None => Ok(Val::Read(path)),
        Some(f) => match &f.contents {
            Ok(b) => Ok(Val::Text(lossy_text(b.as_slice()))),
            Err(source) => Err(
                Error::Io { path: path_of(path.as_str()), source: source.clone() },
            ),
        },
    }
}

/// The text value of the option that was read last.
fn val(p: &mut lexopt::Parser, files: &Vec<AtFile>) -> (res: Result<Val>)
    requires
        lex_state(*old(p)).cluster.len() == 0,
    ensures
        match (res, taken(lex_state(*old(p)), at_file_views(files@))) {
            (Ok(Val::Text(t)), Taken::Text(x, s)) => t@ == x && lex_state(*final(p)) == s
                && s.cluster.len() == 0,
            (Ok(Val::Read(p)), Taken::Read(x)) => p@ == x,
            (Err(e), Taken::Fail(x)) => e@ == x,
            _ => false,
        },
{
    let v = match next_value(p) {
        Ok(v) => v,
        Err(e) => {
            return Err(Error::Cli(concat("missing argument: ", e.as_str())));
        },
    };
    match path_text(&v) {
        Some(text) => resolve(text, files, Ghost(lex_state(*p))),
        None => Err(Error::Cli("argument is not valid UTF-8".to_owned())),
    }
}

/// A path value, which unlike a text keeps its bytes, since paths need not be
/// text.
fn path_val(p: &mut lexopt::Parser) -> (res: Result<PathBuf>)
    requires
        lex_state(*old(p)).cluster.len() == 0,
    ensures
        match (res, lex_take(lex_state(*old(p)))) {
            (Ok(v), Some((b, s))) => path_bytes(v) == b && lex_state(*final(p)) == s
                && s.cluster.len() == 0,
            (Err(e), None) => e@ == no_value(lex_state(*old(p))),
            _ => false,
        },
{
    match next_value(p) {
        Ok(v) => Ok(v),
        Err(e) => Err(Error::Cli(concat("missing argument: ", e.as_str()))),
    }
}

impl Args {
    fn push_op(&mut self, op: Operation)
        ensures
            final(self)@ == with_op(old(self)@, op@),
    {
        let ghost before = self@;
        self.ops.push(op);
        assert(op_views(self.ops@) =~= before.ops.push(op@));
    }
}

/// Whether `res` is what a step of parsing gives.
spec fn stepped(res: Result<Option<Parsed>>, p: lexopt::Parser, a: ArgsView, want: Step) -> bool {
    match (res, want) {
        (Ok(None), Step::More(s, b)) => lex_state(p) == s && s.cluster.len() == 0 && a == b,
        (Ok(Some(r)), Step::Done(Ok(x))) => r@ == x,
        (Err(e), Step::Done(Err(x))) => e@ == x,
        _ => false,
    }
}

fn do_text(
    p: &mut lexopt::Parser,
    f: Flag,
    args: &mut Args,
    files: &Vec<AtFile>,
) -> (res: Result<Option<Parsed>>)
    requires
        lex_state(*old(p)).cluster.len() == 0,
        takes_text(f) || f is PageSize,
    ensures
        stepped(
            res,
            *final(p),
            final(args)@,
            text_step(lex_state(*old(p)), f, old(args)@, at_file_views(files@)),
        ),
{
    let t = match val(p, files)? {
        Val::Read(path) => {
            return Ok(Some(Parsed::Read(path)));
        },
        Val::Text(t) => t,
    };
    if let Flag::PageSize = f {
        match parse_number(t.as_str()) {
            Some(n) => {
                if n == 0 {
                    return Err(Error::Cli("invalid argument to --page-size".to_owned()));
                }
                args.page_size = Some(n);
            },
            None => {
                return Err(Error::Cli("invalid argument to --page-size".to_owned()));
            },
        }
        return Ok(None);
    }
    match text_operation(f, t) {
        Some(op) => args.push_op(op),
        None => {},
    }
    Ok(None)
}

fn do_replace(
    p: &mut lexopt::Parser,
    args: &mut Args,
    files: &Vec<AtFile>,
) -> (res: Result<Option<Parsed>>)
    requires
        lex_state(*old(p)).cluster.len() == 0,
    ensures
        stepped(
            res,
            *final(p),
            final(args)@,
            replace_step(lex_state(*old(p)), old(args)@, at_file_views(files@)),
        ),
{
    let before = match val(p, files)? {
        Val::Read(path) => {
            return Ok(Some(Parsed::Read(path)));
        },
        Val::Text(t) => t,
    };
    let after = match val(p, files)? {
        Val::Read(path) => {
            return Ok(Some(Parsed::Read(path)));
        },
        Val::Text(t) => t,
    };
    args.push_op(Operation::ReplaceNeeded { old: before, new: after });
    Ok(None)
}

fn do_long(
    p: &mut lexopt::Parser,
    name: &str,
    args: &mut Args,
    files: &Vec<AtFile>,
) -> (res: Result<Option<Parsed>>)
    requires
        lex_state(*old(p)).cluster.len() == 0,
    ensures
        stepped(
            res,
            *final(p),
            final(args)@,
            long_step(lex_state(*old(p)), name@, old(args)@, at_file_views(files@)),
        ),
{
    let f = find_flag(name);
    if let Some(op) = plain_operation(f) {
        args.push_op(op);
        return Ok(None);
    }
    if wants_text(f) {
        return do_text(p, f, args, files);
    }
    match f {
        Flag::PageSize => do_text(p, f, args, files),
        Flag::ReplaceNeeded => do_replace(p, args, files),
        Flag::RenameDynamicSymbols => {
            let path = path_val(p)?;
            args.push_op(Operation::RenameDynamicSymbols(path));
            Ok(None)
        },
        Flag::Output => {
            let path = path_val(p)?;
            args.output = Some(path);
            Ok(None)
        },
        Flag::NoSort => Ok(None),
        Flag::NoClobberOldSections => {
            args.no_clobber_old_sections = true;
            Ok(None)
        },
        Flag::Debug => {
            args.debug = true;
            Ok(None)
        },
        Flag::Help => Ok(Some(Parsed::Help)),
        Flag::Version => Ok(Some(Parsed::Version)),
        _ => Err(
            Error::Cli(
                concat3("unexpected argument: Long(", debug_str(name).as_str(), ")"),
            ),
        ),
    }
}

/// Parse a command line.
///
/// The first word is the name of the program. `files` holds the contents of the
/// files that values given as `@path` stand for; when one is missing, the result
/// says which, and the same line can be parsed again with it.
pub fn parse(raw: Vec<PathBuf>, files: &Vec<AtFile>) -> (res: Result<Parsed>)
    ensures
        match res {
            Ok(r) => parsed_line(path_list(raw@), at_file_views(files@)) == Outcome::Ok(r@),
            Err(e) => parsed_line(path_list(raw@), at_file_views(files@)) == Outcome::<
                ParsedView,
            >::Err(e@),
        },
{
    let ghost fv = at_file_views(files@);
    let ghost want = parsed_line(path_list(raw@), fv);
    let mut args = Args::default();
    let mut p = new_parser(raw);
    loop
        invariant
            fv == at_file_views(files@),
            want == parsed_line(path_list(raw@), fv),
            lex_state(p).cluster.len() == 0,
            want == parsed_from(lex_state(p), args@, fv),
        decreases lex_state(p).unread.len(),
    {
        let ghost s = lex_state(p);
        let ghost a = args@;
        proof {
            lemma_parse_step(s, a, fv);
        }
        let arg = match next_arg(&mut p) {
            Ok(Some(arg)) => arg,
            Ok(None) => {
                return Ok(Parsed::Run(args));
            },
            Err(e) => {
                return Err(Error::Cli(concat("bad arguments: ", e.as_str())));
            },
        };
        match arg {
            Arg::Value(v) => {
                args.files.push(v);
                assert(path_list(args.files@) =~= a.files.push(path_bytes(v)));
            },
            Arg::Short(c) => {
                if c == 'h' {
                    return Ok(Parsed::Help);
                }
                return Err(
                    Error::Cli(
                        concat3("unexpected argument: Short(", debug_chr(c).as_str(), ")"),
                    ),
                );
            },
            Arg::Long(name) => {
                if let Some(r) = do_long(&mut p, name.as_str(), &mut args, files)? {
                    return Ok(r);
                }
            },
        }
    }
}

/// What the program prints when it is asked for help.
pub const HELP: &'static str = "\
syntax: formatelf
  [--set-interpreter FILENAME]
  [--page-size SIZE]
  [--print-interpreter]
  [--print-os-abi]
  [--set-os-abi ABI]
  [--print-soname]
  [--set-soname SONAME]
  [--set-rpath RPATH]
  [--add-rpath RPATH]
  [--remove-rpath]
  [--shrink-rpath]
  [--allowed-rpath-prefixes PREFIXES]
  [--print-rpath]
  [--force-rpath]
  [--add-needed LIBRARY]
  [--remove-needed LIBRARY]
  [--replace-needed LIBRARY NEW_LIBRARY]
  [--print-needed]
  [--no-default-lib]
  [--no-sort]
  [--clear-symbol-version SYMBOL]
  [--add-debug-tag]
  [--build-resolution-cache]
  [--print-execstack]
  [--clear-execstack]
  [--set-execstack]
  [--rename-dynamic-symbols NAME_MAP_FILE]
  [--no-clobber-old-sections]
  [--output FILE]
  [--debug]
  [--version]
  FILENAME...
";

} // verus!
