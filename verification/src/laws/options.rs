//! What the words of a command line ask for.
use vstd::prelude::*;

use vstd::utf8::{encode_utf8, is_ascii_chars};

use crate::cli::{
    flag_of, lex_start, no_args, parse_step, parsed_from, parsed_line, ArgsView, AtFileView, Flag,
    OperationView, ParsedView, Step,
};
use crate::lex::{is_equals, lex_next, ArgView, LexState};
use crate::paths::lossy;
use crate::seqs::{lemma_first_is, lemma_first_none};
use crate::text::{digits_value, lemma_utf8_text, number};

verus! {

/// The word that asks for the option `name`.
pub open spec fn option_word(name: Seq<char>) -> Seq<u8> {
    seq![0x2du8, 0x2du8] + encode_utf8(name)
}

/// Whether `name` can be that of an option: some letters, of which none is an equals sign.
pub open spec fn is_option_name(name: Seq<char>) -> bool {
    &&& name.len() > 0
    &&& is_ascii_chars(name)
    &&& !name.contains('=')
}

/// Whether a parser is between options, and can read one.
pub open spec fn between_options(s: LexState) -> bool {
    s.attached is None && s.cluster.len() == 0 && !s.finished
}

proof fn lemma_dashes(name: Seq<char>)
    requires
        is_option_name(name),
    ensures
        encode_utf8(seq!['-', '-'] + name) == option_word(name),
        option_word(name).len() > 2,
        forall|i: int| 0 <= i < option_word(name).len() ==> #[trigger] option_word(name)[i] != 0x3d,
{
    let full = seq!['-', '-'] + name;
    vstd::utf8::is_ascii_chars_encode_utf8(name);
    assert forall|i: int| 0 <= i < full.len() implies '\0' <= #[trigger] full[i] <= '\u{7f}' by {
        if i >= 2 {
            assert(full[i] == name[i - 2]);
        }
    }
    vstd::utf8::is_ascii_chars_encode_utf8(full);
    assert forall|i: int| 0 <= i < full.len() implies encode_utf8(full)[i] == option_word(
        name,
    )[i] by {
        if i >= 2 {
            assert(full[i] == name[i - 2]);
            assert(encode_utf8(name)[i - 2] == name[i - 2] as u8);
        }
        assert(encode_utf8(full)[i] == full[i] as u8);
    }
    assert(encode_utf8(full) =~= option_word(name));
    assert forall|i: int| 0 <= i < option_word(name).len() implies #[trigger] option_word(name)[i]
        != 0x3d by {
        if i >= 2 {
            assert(encode_utf8(name)[i - 2] == name[i - 2] as u8);
            assert(name[i - 2] != '=');
        }
    }
}

/// A word of two dashes and a name is the option of that name; what stands behind an equals
/// sign is its value.
pub proof fn law_option_is_lexed(s: LexState, name: Seq<char>, value: Seq<u8>)
    requires
        between_options(s),
        s.unread.len() > 0,
        is_option_name(name),
    ensures
        s.unread[0] == option_word(name) ==> lex_next(s) == (
            Some(ArgView::Long(name)),
            LexState {
                unread: s.unread.skip(1),
                last: Some(seq!['-', '-'] + name),
                ..s
            },
        ),
        s.unread[0] == option_word(name).push(0x3d) + value ==> lex_next(s) == (
            Some(ArgView::Long(name)),
            LexState {
                unread: s.unread.skip(1),
                attached: Some(value),
                last: Some(seq!['-', '-'] + name),
                ..s
            },
        ),
{
    let head = option_word(name);
    let full = seq!['-', '-'] + name;
    lemma_dashes(name);
    lemma_utf8_text(head, full);
    assert(lossy(head) == full);
    assert(full.skip(2) =~= name);
    let w = s.unread[0];
    if w == head {
        lemma_first_none(w, is_equals(), 0);
    }
    let v = head.push(0x3d) + value;
    if w == v {
        assert forall|j: int| 0 <= j < head.len() implies !is_equals()(#[trigger] v[j]) by {
            assert(v[j] == head[j]);
        }
        assert(v[head.len() as int] == 0x3d);
        lemma_first_is(v, is_equals(), 0, head.len() as int);
        assert(v.take(head.len() as int) =~= head);
        assert(v.skip(head.len() as int + 1) =~= value);
    }
    assert(w.len() > 2 ==> w != seq![0x2du8, 0x2du8]);
}


/// The operation that an option without a value asks for.
pub open spec fn asks_for(name: Seq<char>, op: OperationView) -> bool {
    ||| name == "print-interpreter"@ && op == OperationView::PrintInterpreter
    ||| name == "print-os-abi"@ && op == OperationView::PrintOsAbi
    ||| name == "print-soname"@ && op == OperationView::PrintSoname
    ||| name == "remove-rpath"@ && op == OperationView::RemoveRpath
    ||| name == "shrink-rpath"@ && op == OperationView::ShrinkRpath
    ||| name == "print-rpath"@ && op == OperationView::PrintRpath
    ||| name == "force-rpath"@ && op == OperationView::ForceRpath
    ||| name == "print-needed"@ && op == OperationView::PrintNeeded
    ||| name == "no-default-lib"@ && op == OperationView::NoDefaultLib
    ||| name == "add-debug-tag"@ && op == OperationView::AddDebugTag
    ||| name == "build-resolution-cache"@ && op == OperationView::BuildResolutionCache
    ||| name == "print-execstack"@ && op == OperationView::PrintExecstack
    ||| name == "clear-execstack"@ && op == OperationView::ClearExecstack
    ||| name == "set-execstack"@ && op == OperationView::SetExecstack
}

/// The operation that an option with a value asks for.
pub open spec fn asks_with(name: Seq<char>, value: Seq<char>, op: OperationView) -> bool {
    ||| name == "set-interpreter"@ && op == OperationView::SetInterpreter(value)
    ||| name == "interpreter"@ && op == OperationView::SetInterpreter(value)
    ||| name == "set-os-abi"@ && op == OperationView::SetOsAbi(value)
    ||| name == "set-soname"@ && op == OperationView::SetSoname(value)
    ||| name == "allowed-rpath-prefixes"@ && op == OperationView::AllowedRpathPrefixes(value)
    ||| name == "set-rpath"@ && op == OperationView::SetRpath(value)
    ||| name == "add-rpath"@ && op == OperationView::AddRpath(value)
    ||| name == "add-needed"@ && op == OperationView::AddNeeded(value)
    ||| name == "remove-needed"@ && op == OperationView::RemoveNeeded(value)
    ||| name == "clear-symbol-version"@ && op == OperationView::ClearSymbolVersion(value)
}

/// Whether `t` is `s` with `n` words read, and a last option.
pub open spec fn read_on(s: LexState, t: LexState, n: int) -> bool {
    t == (LexState { unread: s.unread.skip(n), last: t.last, ..s })
}


/// What each option is.
proof fn lemma_flags()
    ensures
        flag_of("print-interpreter"@) == Flag::PrintInterpreter,
        flag_of("print-os-abi"@) == Flag::PrintOsAbi,
        flag_of("print-soname"@) == Flag::PrintSoname,
        flag_of("remove-rpath"@) == Flag::RemoveRpath,
        flag_of("shrink-rpath"@) == Flag::ShrinkRpath,
        flag_of("print-rpath"@) == Flag::PrintRpath,
        flag_of("force-rpath"@) == Flag::ForceRpath,
        flag_of("print-needed"@) == Flag::PrintNeeded,
        flag_of("no-default-lib"@) == Flag::NoDefaultLib,
        flag_of("add-debug-tag"@) == Flag::AddDebugTag,
        flag_of("build-resolution-cache"@) == Flag::BuildResolutionCache,
        flag_of("print-execstack"@) == Flag::PrintExecstack,
        flag_of("clear-execstack"@) == Flag::ClearExecstack,
        flag_of("set-execstack"@) == Flag::SetExecstack,
        flag_of("set-interpreter"@) == Flag::SetInterpreter,
        flag_of("interpreter"@) == Flag::SetInterpreter,
        flag_of("set-os-abi"@) == Flag::SetOsAbi,
        flag_of("set-soname"@) == Flag::SetSoname,
        flag_of("allowed-rpath-prefixes"@) == Flag::AllowedRpathPrefixes,
        flag_of("set-rpath"@) == Flag::SetRpath,
        flag_of("add-rpath"@) == Flag::AddRpath,
        flag_of("add-needed"@) == Flag::AddNeeded,
        flag_of("remove-needed"@) == Flag::RemoveNeeded,
        flag_of("clear-symbol-version"@) == Flag::ClearSymbolVersion,
        flag_of("page-size"@) == Flag::PageSize,
        flag_of("replace-needed"@) == Flag::ReplaceNeeded,
        flag_of("rename-dynamic-symbols"@) == Flag::RenameDynamicSymbols,
        flag_of("output"@) == Flag::Output,
        flag_of("no-sort"@) == Flag::NoSort,
        flag_of("no-clobber-old-sections"@) == Flag::NoClobberOldSections,
        flag_of("debug"@) == Flag::Debug,
        flag_of("help"@) == Flag::Help,
        flag_of("version"@) == Flag::Version,
{
    reveal_strlit("print-interpreter");
    reveal_strlit("print-os-abi");
    reveal_strlit("print-soname");
    reveal_strlit("remove-rpath");
    reveal_strlit("shrink-rpath");
    reveal_strlit("print-rpath");
    reveal_strlit("force-rpath");
    reveal_strlit("print-needed");
    reveal_strlit("no-default-lib");
    reveal_strlit("add-debug-tag");
    reveal_strlit("build-resolution-cache");
    reveal_strlit("print-execstack");
    reveal_strlit("clear-execstack");
    reveal_strlit("set-execstack");
    reveal_strlit("set-interpreter");
    reveal_strlit("interpreter");
    reveal_strlit("set-os-abi");
    reveal_strlit("set-soname");
    reveal_strlit("allowed-rpath-prefixes");
    reveal_strlit("set-rpath");
    reveal_strlit("add-rpath");
    reveal_strlit("add-needed");
    reveal_strlit("remove-needed");
    reveal_strlit("clear-symbol-version");
    reveal_strlit("page-size");
    reveal_strlit("replace-needed");
    reveal_strlit("rename-dynamic-symbols");
    reveal_strlit("output");
    reveal_strlit("no-sort");
    reveal_strlit("no-clobber-old-sections");
    reveal_strlit("debug");
    reveal_strlit("help");
    reveal_strlit("version");
    assert("print-interpreter"@.len() == 17);
    assert("print-os-abi"@.len() == 12 && "print-os-abi"@[0] == 'p' && "print-os-abi"@[6] == 'o');
    assert("print-soname"@.len() == 12 && "print-soname"@[0] == 'p' && "print-soname"@[6] == 's');
    assert("remove-rpath"@.len() == 12 && "remove-rpath"@[0] == 'r');
    assert("shrink-rpath"@.len() == 12 && "shrink-rpath"@[0] == 's');
    assert("print-rpath"@.len() == 11 && "print-rpath"@[0] == 'p');
    assert("force-rpath"@.len() == 11 && "force-rpath"@[0] == 'f');
    assert("print-needed"@.len() == 12 && "print-needed"@[0] == 'p' && "print-needed"@[6] == 'n');
    assert("no-default-lib"@.len() == 14 && "no-default-lib"@[0] == 'n');
    assert("add-debug-tag"@.len() == 13 && "add-debug-tag"@[0] == 'a');
    assert("build-resolution-cache"@.len() == 22 && "build-resolution-cache"@[0] == 'b');
    assert("print-execstack"@.len() == 15 && "print-execstack"@[0] == 'p');
    assert("clear-execstack"@.len() == 15 && "clear-execstack"@[0] == 'c');
    assert("set-execstack"@.len() == 13 && "set-execstack"@[0] == 's');
    assert("set-interpreter"@.len() == 15 && "set-interpreter"@[0] == 's');
    assert("interpreter"@.len() == 11 && "interpreter"@[0] == 'i');
    assert("set-os-abi"@.len() == 10 && "set-os-abi"@[0] == 's' && "set-os-abi"@[4] == 'o');
    assert("set-soname"@.len() == 10 && "set-soname"@[0] == 's' && "set-soname"@[4] == 's');
    assert("allowed-rpath-prefixes"@.len() == 22 && "allowed-rpath-prefixes"@[0] == 'a');
    assert("set-rpath"@.len() == 9 && "set-rpath"@[0] == 's');
    assert("add-rpath"@.len() == 9 && "add-rpath"@[0] == 'a');
    assert("add-needed"@.len() == 10 && "add-needed"@[0] == 'a');
    assert("remove-needed"@.len() == 13 && "remove-needed"@[0] == 'r');
    assert("clear-symbol-version"@.len() == 20);
    assert("page-size"@.len() == 9 && "page-size"@[0] == 'p');
    assert("replace-needed"@.len() == 14 && "replace-needed"@[0] == 'r');
    assert("rename-dynamic-symbols"@.len() == 22 && "rename-dynamic-symbols"@[0] == 'r');
    assert("output"@.len() == 6);
    assert("no-sort"@.len() == 7 && "no-sort"@[0] == 'n');
    assert("no-clobber-old-sections"@.len() == 23);
    assert("debug"@.len() == 5);
    assert("help"@.len() == 4);
    assert("version"@.len() == 7 && "version"@[0] == 'v');
}

/// Every name of an option can be one.
proof fn lemma_names()
    ensures
        is_option_name("print-interpreter"@),
        is_option_name("print-os-abi"@),
        is_option_name("print-soname"@),
        is_option_name("remove-rpath"@),
        is_option_name("shrink-rpath"@),
        is_option_name("print-rpath"@),
        is_option_name("force-rpath"@),
        is_option_name("print-needed"@),
        is_option_name("no-default-lib"@),
        is_option_name("add-debug-tag"@),
        is_option_name("build-resolution-cache"@),
        is_option_name("print-execstack"@),
        is_option_name("clear-execstack"@),
        is_option_name("set-execstack"@),
        is_option_name("set-interpreter"@),
        is_option_name("interpreter"@),
        is_option_name("set-os-abi"@),
        is_option_name("set-soname"@),
        is_option_name("allowed-rpath-prefixes"@),
        is_option_name("set-rpath"@),
        is_option_name("add-rpath"@),
        is_option_name("add-needed"@),
        is_option_name("remove-needed"@),
        is_option_name("clear-symbol-version"@),
        is_option_name("page-size"@),
        is_option_name("replace-needed"@),
        is_option_name("rename-dynamic-symbols"@),
        is_option_name("output"@),
        is_option_name("no-sort"@),
        is_option_name("no-clobber-old-sections"@),
        is_option_name("debug"@),
        is_option_name("help"@),
        is_option_name("version"@),
{
    reveal_strlit("print-interpreter");
    reveal_strlit("print-os-abi");
    reveal_strlit("print-soname");
    reveal_strlit("remove-rpath");
    reveal_strlit("shrink-rpath");
    reveal_strlit("print-rpath");
    reveal_strlit("force-rpath");
    reveal_strlit("print-needed");
    reveal_strlit("no-default-lib");
    reveal_strlit("add-debug-tag");
    reveal_strlit("build-resolution-cache");
    reveal_strlit("print-execstack");
    reveal_strlit("clear-execstack");
    reveal_strlit("set-execstack");
    reveal_strlit("set-interpreter");
    reveal_strlit("interpreter");
    reveal_strlit("set-os-abi");
    reveal_strlit("set-soname");
    reveal_strlit("allowed-rpath-prefixes");
    reveal_strlit("set-rpath");
    reveal_strlit("add-rpath");
    reveal_strlit("add-needed");
    reveal_strlit("remove-needed");
    reveal_strlit("clear-symbol-version");
    reveal_strlit("page-size");
    reveal_strlit("replace-needed");
    reveal_strlit("rename-dynamic-symbols");
    reveal_strlit("output");
    reveal_strlit("no-sort");
    reveal_strlit("no-clobber-old-sections");
    reveal_strlit("debug");
    reveal_strlit("help");
    reveal_strlit("version");
    assert(!"print-interpreter"@.contains('='));
    assert(!"print-os-abi"@.contains('='));
    assert(!"print-soname"@.contains('='));
    assert(!"remove-rpath"@.contains('='));
    assert(!"shrink-rpath"@.contains('='));
    assert(!"print-rpath"@.contains('='));
    assert(!"force-rpath"@.contains('='));
    assert(!"print-needed"@.contains('='));
    assert(!"no-default-lib"@.contains('='));
    assert(!"add-debug-tag"@.contains('='));
    assert(!"build-resolution-cache"@.contains('='));
    assert(!"print-execstack"@.contains('='));
    assert(!"clear-execstack"@.contains('='));
    assert(!"set-execstack"@.contains('='));
    assert(!"set-interpreter"@.contains('='));
    assert(!"interpreter"@.contains('='));
    assert(!"set-os-abi"@.contains('='));
    assert(!"set-soname"@.contains('='));
    assert(!"allowed-rpath-prefixes"@.contains('='));
    assert(!"set-rpath"@.contains('='));
    assert(!"add-rpath"@.contains('='));
    assert(!"add-needed"@.contains('='));
    assert(!"remove-needed"@.contains('='));
    assert(!"clear-symbol-version"@.contains('='));
    assert(!"page-size"@.contains('='));
    assert(!"replace-needed"@.contains('='));
    assert(!"rename-dynamic-symbols"@.contains('='));
    assert(!"output"@.contains('='));
    assert(!"no-sort"@.contains('='));
    assert(!"no-clobber-old-sections"@.contains('='));
    assert(!"debug"@.contains('='));
    assert(!"help"@.contains('='));
    assert(!"version"@.contains('='));
}

/// An option without a value asks for its operation, behind those that were asked for.
pub proof fn law_option_asks(
    s: LexState,
    a: ArgsView,
    files: Seq<AtFileView>,
    name: Seq<char>,
    op: OperationView,
)
    requires
        between_options(s),
        s.unread.len() > 0,
        s.unread[0] == option_word(name),
        asks_for(name, op),
    ensures
        parse_step(s, a, files) matches Step::More(t, b) && read_on(s, t, 1) && b == (ArgsView {
            ops: a.ops.push(op),
            ..a
        }),
{
    lemma_flags();
    lemma_names();
    law_option_is_lexed(s, name, Seq::empty());
}

/// An option with a value asks for its operation with the value, be it the next word or what
/// stands behind an equals sign.
pub proof fn law_option_asks_with(
    s: LexState,
    a: ArgsView,
    files: Seq<AtFileView>,
    name: Seq<char>,
    value: Seq<char>,
    op: OperationView,
)
    requires
        between_options(s),
        asks_with(name, value, op),
        value.len() > 0 ==> value[0] != '@',
    ensures
        s.unread.len() > 1 && s.unread[0] == option_word(name) && s.unread[1] == encode_utf8(value)
            ==> (parse_step(s, a, files) matches Step::More(t, b) && read_on(s, t, 2) && b == (
        ArgsView { ops: a.ops.push(op), ..a })),
        s.unread.len() > 0 && s.unread[0] == option_word(name).push(0x3d) + encode_utf8(value) ==> (
        parse_step(s, a, files) matches Step::More(t, b) && read_on(s, t, 1) && b == (ArgsView {
            ops: a.ops.push(op),
            ..a
        })),
{
    lemma_flags();
    lemma_names();
    lemma_utf8_text(encode_utf8(value), value);
    if s.unread.len() > 0 {
        law_option_is_lexed(s, name, encode_utf8(value));
        if s.unread.len() > 1 {
            assert(s.unread.skip(1).skip(1) =~= s.unread.skip(2));
        }
    }
}

/// A value of an at sign and a path stands for what the file at the path holds.
pub proof fn law_value_from_file(
    s: LexState,
    a: ArgsView,
    files: Seq<AtFileView>,
    name: Seq<char>,
    path: Seq<char>,
    value: Seq<char>,
    op: OperationView,
    k: int,
)
    requires
        between_options(s),
        asks_with(name, value, op),
        s.unread.len() > 1,
        s.unread[0] == option_word(name),
        s.unread[1] == encode_utf8(seq!['@'] + path),
        0 <= k < files.len(),
        files[k].path == path,
        files[k].contents == std::result::Result::<Seq<u8>, Seq<char>>::Ok(encode_utf8(value)),
        forall|j: int| 0 <= j < k ==> (#[trigger] files[j]).path != path,
    ensures
        parse_step(s, a, files) matches Step::More(t, b) && read_on(s, t, 2) && b == (ArgsView {
            ops: a.ops.push(op),
            ..a
        }),
{
    lemma_flags();
    lemma_names();
    let text = seq!['@'] + path;
    lemma_utf8_text(encode_utf8(text), text);
    lemma_utf8_text(encode_utf8(value), value);
    law_option_is_lexed(s, name, Seq::empty());
    assert(s.unread.skip(1).skip(1) =~= s.unread.skip(2));
    assert(text.skip(1) =~= path);
    lemma_first_is(files, crate::cli::file_is(path), 0, k);
}

/// The options that set no operation: the file for the output, the size of pages, and the
/// switches. The names of two libraries, in this order, ask for a replacement.
pub proof fn law_other_options(
    s: LexState,
    a: ArgsView,
    files: Seq<AtFileView>,
    one: Seq<char>,
    two: Seq<char>,
)
    requires
        between_options(s),
        s.unread.len() > 2,
        s.unread[1] == encode_utf8(one),
        s.unread[2] == encode_utf8(two),
        one.len() > 0 ==> one[0] != '@',
        two.len() > 0 ==> two[0] != '@',
    ensures
        s.unread[0] == option_word("output"@) ==> (parse_step(s, a, files) matches Step::More(t, b)
            && read_on(s, t, 2) && b == (ArgsView { output: Some(encode_utf8(one)), ..a })),
        s.unread[0] == option_word("rename-dynamic-symbols"@) ==> (parse_step(
            s,
            a,
            files,
        ) matches Step::More(t, b) && read_on(s, t, 2) && b == (ArgsView {
            ops: a.ops.push(OperationView::RenameDynamicSymbols(encode_utf8(one))),
            ..a
        })),
        s.unread[0] == option_word("replace-needed"@) ==> (parse_step(
            s,
            a,
            files,
        ) matches Step::More(t, b) && read_on(s, t, 3) && b == (ArgsView {
            ops: a.ops.push(OperationView::ReplaceNeeded { before: one, after: two }),
            ..a
        })),
        s.unread[0] == option_word("page-size"@) ==> match parse_step(s, a, files) {
            Step::More(t, b) => read_on(s, t, 2) && (number(one) matches Some(n) && 0 < n
                <= u64::MAX && b == (ArgsView { page_size: Some(n as u64), ..a })),
            Step::Done(r) => !(number(one) matches Some(n) && 0 < n <= u64::MAX) && r is Err,
        },
        s.unread[0] == option_word("debug"@) ==> (parse_step(s, a, files) matches Step::More(t, b)
            && read_on(s, t, 1) && b == (ArgsView { debug: true, ..a })),
        s.unread[0] == option_word("no-sort"@) ==> (parse_step(s, a, files) matches Step::More(t, b)
            && read_on(s, t, 1) && b == a),
        s.unread[0] == option_word("no-clobber-old-sections"@) ==> (parse_step(
            s,
            a,
            files,
        ) matches Step::More(t, b) && read_on(s, t, 1) && b == (ArgsView {
            no_clobber_old_sections: true,
            ..a
        })),
        s.unread[0] == option_word("help"@) ==> parse_step(s, a, files) == Step::Done(
            Ok(ParsedView::Help),
        ),
        s.unread[0] == option_word("version"@) ==> parse_step(s, a, files) == Step::Done(
            Ok(ParsedView::Version),
        ),
{
    lemma_flags();
    lemma_names();
    lemma_utf8_text(encode_utf8(one), one);
    lemma_utf8_text(encode_utf8(two), two);
    assert(s.unread.skip(1).skip(1) =~= s.unread.skip(2));
    assert(s.unread.skip(2).skip(1) =~= s.unread.skip(3));
    let e = Seq::<u8>::empty();

    law_option_is_lexed(s, "page-size"@, e);
    law_option_is_lexed(s, "replace-needed"@, e);
    law_option_is_lexed(s, "rename-dynamic-symbols"@, e);
    law_option_is_lexed(s, "output"@, e);
    law_option_is_lexed(s, "no-sort"@, e);
    law_option_is_lexed(s, "no-clobber-old-sections"@, e);
    law_option_is_lexed(s, "debug"@, e);
    law_option_is_lexed(s, "help"@, e);
    law_option_is_lexed(s, "version"@, e);
}

/// A word that is no option is a file, and so is every word behind two dashes alone. At the
/// end of the words stands what they asked for.
pub proof fn law_files_are_read(s: LexState, a: ArgsView, files: Seq<AtFileView>)
    requires
        s.attached is None,
        s.cluster.len() == 0,
    ensures
        s.unread.len() > 0 && (s.finished || s.unread[0].len() < 2 || s.unread[0][0] != 0x2d) ==> (
        parse_step(s, a, files) matches Step::More(t, b) && read_on(s, t, 1) && b == (ArgsView {
            files: a.files.push(s.unread[0]),
            ..a
        })),
        s.unread.len() > 1 && !s.finished && s.unread[0] == seq![0x2du8, 0x2du8] ==> (parse_step(
            s,
            a,
            files,
        ) matches Step::More(t, b) && t == (LexState {
            unread: s.unread.skip(2),
            finished: true,
            ..s
        }) && b == (ArgsView { files: a.files.push(s.unread[1]), ..a })),
        s.unread.len() == 0 ==> parse_step(s, a, files) == Step::Done(Ok(ParsedView::Run(a))),
{
    if s.unread.len() > 1 {
        assert(s.unread.skip(1).skip(1) =~= s.unread.skip(2));
    }
}

/// A value behind an equals sign that the option did not take is refused.
pub proof fn law_stray_value(s: LexState, a: ArgsView, files: Seq<AtFileView>)
    requires
        s.attached is Some,
    ensures
        parse_step(s, a, files) matches Step::Done(r) && r is Err,
{
}

/// The words behind the name of the program are read from the first to the last, each from
/// where the one before it left off.
pub proof fn law_line_is_read(words: Seq<Seq<u8>>, files: Seq<AtFileView>)
    requires
        words.len() > 0,
    ensures
        parsed_line(words, files) == parsed_from(lex_start(words), no_args(), files),
        lex_start(words).unread == words.skip(1),
        between_options(lex_start(words)),
        no_args().ops.len() == 0 && no_args().files.len() == 0 && no_args().page_size is None
            && no_args().output is None && !no_args().debug && !no_args().no_clobber_old_sections,
        forall|s: LexState, a: ArgsView| #[trigger]
            parsed_from(s, a, files) == match parse_step(s, a, files) {
                Step::Done(r) => r,
                Step::More(t, b) => parsed_from(t, b, files),
            },
{
}

/// A number is read by its decimal digits, the first of which counts most.
pub proof fn law_number_is_decimal(t: Seq<char>, c: char)
    requires
        t.len() > 0,
    ensures
        number(seq![c]) == if '0' <= c <= '9' {
            Some(c as int - 48)
        } else {
            None
        },
        '0' <= c <= '9' && t != seq!['+'] ==> number(t.push(c)) == match number(t) {
            Some(n) => Some(10 * n + (c as int - 48)),
            None => None,
        },
        !('0' <= c <= '9') ==> number(t.push(c)) is None,
        t[0] != '+' ==> number(seq!['+'] + t) == number(t),
{
    let one = seq![c];
    assert(one.drop_last() =~= Seq::<char>::empty());
    assert(one.skip(1) =~= Seq::<char>::empty());
    assert(digits_value(one.drop_last()) == Some(0int));
    let u = t.push(c);
    assert(u.drop_last() =~= t);
    assert(u.last() == c);
    if t[0] == '+' {
        assert(u.skip(1).drop_last() =~= t.skip(1));
        assert(u.skip(1).last() == c);
        if t.len() == 1 {
            assert(t =~= seq!['+']);
        }
    }
    assert((seq!['+'] + t).skip(1) =~= t);
}

} // verus!
