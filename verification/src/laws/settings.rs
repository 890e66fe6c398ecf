//! What the words of a command line set for files that are wired up.
use vstd::prelude::*;

use vstd::utf8::encode_utf8;

use crate::autoformatelf::{
    auto_flag, configured, drafted, no_draft, target_in, AutoFlag, ConfigView, DraftView,
    SupportView,
};
use crate::cli::lex_start;
use crate::error::Outcome;
use crate::laws::options::{between_options, is_option_name, law_option_is_lexed, option_word};
use crate::lex::{is_plain, plain_run, ArgView, LexState};
use crate::parser::parsed;
use crate::text::{lemma_utf8_text, number, trim};

verus! {

/// What each option is.
proof fn lemma_auto_flags()
    ensures
        auto_flag(ArgView::Long("paths"@)) == AutoFlag::Paths,
        is_option_name("paths"@),
        auto_flag(ArgView::Long("libs"@)) == AutoFlag::Libs,
        is_option_name("libs"@),
        auto_flag(ArgView::Long("runtime-dependencies"@)) == AutoFlag::RuntimeDependencies,
        is_option_name("runtime-dependencies"@),
        auto_flag(ArgView::Long("append-rpaths"@)) == AutoFlag::AppendRpaths,
        is_option_name("append-rpaths"@),
        auto_flag(ArgView::Long("ignore-missing"@)) == AutoFlag::IgnoreMissing,
        is_option_name("ignore-missing"@),
        auto_flag(ArgView::Long("no-recurse"@)) == AutoFlag::NoRecurse,
        is_option_name("no-recurse"@),
        auto_flag(ArgView::Long("keep-libc"@)) == AutoFlag::KeepLibc,
        is_option_name("keep-libc"@),
        auto_flag(ArgView::Long("ignore-existing"@)) == AutoFlag::IgnoreExisting,
        is_option_name("ignore-existing"@),
        auto_flag(ArgView::Long("interpreter"@)) == AutoFlag::Interpreter,
        is_option_name("interpreter"@),
        auto_flag(ArgView::Long("libc"@)) == AutoFlag::Libc,
        is_option_name("libc"@),
        auto_flag(ArgView::Long("jobs"@)) == AutoFlag::Jobs,
        is_option_name("jobs"@),
        auto_flag(ArgView::Long("page-size"@)) == AutoFlag::PageSize,
        is_option_name("page-size"@),
        auto_flag(ArgView::Long("extra-args"@)) == AutoFlag::ExtraArgs,
        is_option_name("extra-args"@),
{
    reveal_strlit("paths");
    reveal_strlit("libs");
    reveal_strlit("runtime-dependencies");
    reveal_strlit("append-rpaths");
    reveal_strlit("ignore-missing");
    reveal_strlit("no-recurse");
    reveal_strlit("keep-libc");
    reveal_strlit("ignore-existing");
    reveal_strlit("interpreter");
    reveal_strlit("libc");
    reveal_strlit("jobs");
    reveal_strlit("page-size");
    reveal_strlit("extra-args");
    assert("paths"@.len() == 5);
    assert("libs"@.len() == 4 && "libs"@[0] == 'l' && "libs"@[3] == 's');
    assert("runtime-dependencies"@.len() == 20);
    assert("append-rpaths"@.len() == 13);
    assert("ignore-missing"@.len() == 14);
    assert("no-recurse"@.len() == 10 && "no-recurse"@[0] == 'n');
    assert("keep-libc"@.len() == 9 && "keep-libc"@[0] == 'k');
    assert("ignore-existing"@.len() == 15);
    assert("interpreter"@.len() == 11);
    assert("libc"@.len() == 4 && "libc"@[0] == 'l' && "libc"@[3] == 'c');
    assert("jobs"@.len() == 4 && "jobs"@[0] == 'j');
    assert("page-size"@.len() == 9 && "page-size"@[0] == 'p');
    assert("extra-args"@.len() == 10 && "extra-args"@[0] == 'e');
    assert(!"paths"@.contains('='));
    assert(!"libs"@.contains('='));
    assert(!"runtime-dependencies"@.contains('='));
    assert(!"append-rpaths"@.contains('='));
    assert(!"ignore-missing"@.contains('='));
    assert(!"no-recurse"@.contains('='));
    assert(!"keep-libc"@.contains('='));
    assert(!"ignore-existing"@.contains('='));
    assert(!"interpreter"@.contains('='));
    assert(!"libc"@.contains('='));
    assert(!"jobs"@.contains('='));
    assert(!"page-size"@.contains('='));
    assert(!"extra-args"@.contains('='));
}

/// Whether `n` words behind the next one are values: none is an option, and no value follows.
pub open spec fn values_follow(s: LexState, n: int) -> bool {
    &&& 0 <= n < s.unread.len()
    &&& forall|i: int|
        1 <= i <= n ==> (#[trigger] s.unread[i]).len() < 2 || s.unread[i][0] != 0x2d
    &&& n + 1 < s.unread.len() ==> s.unread[n + 1].len() >= 2 && s.unread[n + 1][0] == 0x2d
}

proof fn lemma_run(s: LexState, i: int, n: int)
    requires
        !s.finished,
        0 <= i <= n <= s.unread.len(),
        forall|j: int| i <= j < n ==> (#[trigger] s.unread[j]).len() < 2 || s.unread[j][0] != 0x2d,
        n < s.unread.len() ==> s.unread[n].len() >= 2 && s.unread[n][0] == 0x2d,
    ensures
        plain_run(s, i) == n - i,
    decreases n - i,
{
    if i < n {
        assert(is_plain(s, s.unread[i]));
        lemma_run(s, i + 1, n);
    } else if n < s.unread.len() {
        assert(!is_plain(s, s.unread[n]));
    }
}

/// A draft and a parser from which reading goes on alike.
pub open spec fn goes_on(s: LexState, d: DraftView, n: int, b: DraftView, last: Seq<char>) -> bool {
    drafted(s, d) == drafted(
        LexState { unread: s.unread.skip(n), last: Some(seq!['-', '-'] + last), ..s },
        b,
    )
}

/// An option with a list takes the words up to the next option, behind those that were given
/// before.
pub proof fn law_lists_are_read(s: LexState, d: DraftView, n: int)
    requires
        between_options(s),
        values_follow(s, n),
    ensures
        s.unread[0] == option_word("paths"@) ==> goes_on(
            s,
            d,
            n + 1,
            DraftView {
                cfg: ConfigView { paths: d.cfg.paths + s.unread.subrange(1, n + 1), ..d.cfg },
                ..d
            },
            "paths"@,
        ),
        s.unread[0] == option_word("libs"@) ==> goes_on(
            s,
            d,
            n + 1,
            DraftView {
                cfg: ConfigView { libs: d.cfg.libs + s.unread.subrange(1, n + 1), ..d.cfg },
                ..d
            },
            "libs"@,
        ),
        s.unread[0] == option_word("runtime-dependencies"@) ==> goes_on(
            s,
            d,
            n + 1,
            DraftView {
                cfg: ConfigView {
                    runtime_deps: d.cfg.runtime_deps + s.unread.subrange(1, n + 1),
                    ..d.cfg
                },
                ..d
            },
            "runtime-dependencies"@,
        ),
        s.unread[0] == option_word("append-rpaths"@) ==> goes_on(
            s,
            d,
            n + 1,
            DraftView {
                cfg: ConfigView {
                    append_rpaths: d.cfg.append_rpaths + s.unread.subrange(1, n + 1),
                    ..d.cfg
                },
                ..d
            },
            "append-rpaths"@,
        ),
        forall|names: Seq<Seq<char>>|
            s.unread[0] == option_word("ignore-missing"@) && #[trigger] names.len() == n && (forall|
                i: int,
            |
                0 <= i < n ==> s.unread[i + 1] == encode_utf8(#[trigger] names[i])) ==> goes_on(
                s,
                d,
                n + 1,
                DraftView {
                    cfg: ConfigView { ignore_missing: d.cfg.ignore_missing + names, ..d.cfg },
                    ..d
                },
                "ignore-missing"@,
            ),
{
    lemma_auto_flags();
    let e = Seq::<u8>::empty();
    let t = LexState { unread: s.unread.skip(1), ..s };
    assert forall|last: Option<Seq<char>>| #[trigger]
        plain_run(LexState { last, ..t }, 0) == n by {
        let u = LexState { last, ..t };
        assert forall|j: int| 0 <= j < n implies (#[trigger] u.unread[j]).len() < 2
            || u.unread[j][0] != 0x2d by {
            assert(u.unread[j] == s.unread[j + 1]);
        }
        lemma_run(u, 0, n);
    }
    assert(s.unread.skip(1).take(n) =~= s.unread.subrange(1, n + 1));
    assert(s.unread.skip(1).skip(n) =~= s.unread.skip(n + 1));
    law_option_is_lexed(s, "paths"@, e);
    law_option_is_lexed(s, "libs"@, e);
    law_option_is_lexed(s, "runtime-dependencies"@, e);
    law_option_is_lexed(s, "append-rpaths"@, e);
    law_option_is_lexed(s, "ignore-missing"@, e);
    assert forall|names: Seq<Seq<char>>|
        s.unread[0] == option_word("ignore-missing"@) && #[trigger] names.len() == n && (forall|
            i: int,
        |
            0 <= i < n ==> s.unread[i + 1] == encode_utf8(#[trigger] names[i])) implies goes_on(
        s,
        d,
        n + 1,
        DraftView {
            cfg: ConfigView { ignore_missing: d.cfg.ignore_missing + names, ..d.cfg },
            ..d
        },
        "ignore-missing"@,
    ) by {
        let v = s.unread.subrange(1, n + 1);
        let got = crate::autoformatelf::lossy_list(v);
        assert forall|i: int| 0 <= i < n implies got[i] == names[i] by {
            lemma_utf8_text(encode_utf8(names[i]), names[i]);
            assert(v[i] == s.unread[i + 1]);
        }
        assert(got =~= names);
    }
}

/// The options with one value, and the switches.
pub proof fn law_settings_are_read(s: LexState, d: DraftView, value: Seq<char>)
    requires
        between_options(s),
        s.unread.len() > 1,
        s.unread[1] == encode_utf8(value),
    ensures
        s.unread[0] == option_word("interpreter"@) ==> goes_on(
            s,
            d,
            2,
            DraftView { interpreter: Some(encode_utf8(value)), ..d },
            "interpreter"@,
        ),
        s.unread[0] == option_word("libc"@) ==> goes_on(
            s,
            d,
            2,
            DraftView { cfg: ConfigView { libc_lib: Some(encode_utf8(value)), ..d.cfg }, ..d },
            "libc"@,
        ),
        s.unread[0] == option_word("jobs"@) ==> match number(value) {
            Some(n) => if n <= usize::MAX {
                goes_on(s, d, 2, DraftView { jobs: Some(n as usize), ..d }, "jobs"@)
            } else {
                drafted(s, d) is Err
            },
            None => drafted(s, d) is Err,
        },
        s.unread[0] == option_word("page-size"@) ==> match number(value) {
            Some(n) => if n <= u64::MAX {
                goes_on(
                    s,
                    d,
                    2,
                    DraftView { cfg: ConfigView { page_size: Some(n as u64), ..d.cfg }, ..d },
                    "page-size"@,
                )
            } else {
                drafted(s, d) is Err
            },
            None => drafted(s, d) is Err,
        },
        s.unread[0] == option_word("no-recurse"@) ==> goes_on(
            s,
            d,
            1,
            DraftView { cfg: ConfigView { recursive: false, ..d.cfg }, ..d },
            "no-recurse"@,
        ),
        s.unread[0] == option_word("keep-libc"@) ==> goes_on(
            s,
            d,
            1,
            DraftView { cfg: ConfigView { keep_libc: true, ..d.cfg }, ..d },
            "keep-libc"@,
        ),
        s.unread[0] == option_word("ignore-existing"@) ==> goes_on(
            s,
            d,
            1,
            DraftView { cfg: ConfigView { add_existing: false, ..d.cfg }, ..d },
            "ignore-existing"@,
        ),
        s.unread[0] == option_word("extra-args"@) ==> drafted(s, d) == Outcome::<DraftView>::Ok(d),
{
    lemma_auto_flags();
    lemma_utf8_text(encode_utf8(value), value);
    let e = Seq::<u8>::empty();
    assert(s.unread.skip(1).skip(1) =~= s.unread.skip(2));
    law_option_is_lexed(s, "no-recurse"@, e);
    law_option_is_lexed(s, "keep-libc"@, e);
    law_option_is_lexed(s, "ignore-existing"@, e);
    law_option_is_lexed(s, "interpreter"@, e);
    law_option_is_lexed(s, "libc"@, e);
    law_option_is_lexed(s, "jobs"@, e);
    law_option_is_lexed(s, "page-size"@, e);
    law_option_is_lexed(s, "extra-args"@, e);
    if s.unread[0] == option_word("extra-args"@) {
        let t = LexState {
            unread: Seq::empty(),
            attached: None,
            cluster: Seq::empty(),
            last: Some(seq!['-', '-'] + "extra-args"@),
            ..s
        };
        assert(drafted(t, d) == Outcome::<DraftView>::Ok(d));
        assert(drafted(s, d) == drafted(t, d));
    }
}

/// What was given goes before what is known of the system, which goes before nothing at all:
/// the interpreter, the directory of the C library, and the number of jobs.
pub proof fn law_defaults(
    words: Seq<Seq<u8>>,
    support: Option<SupportView>,
    cores: Option<Seq<char>>,
    linker: Seq<char>,
    libc: Seq<char>,
)
    requires
        words.len() > 0,
    ensures
        ({
            let got = configured(words, support, cores);
            match drafted(lex_start(words), no_draft()) {
                Err(e) => got == Outcome::<ConfigView>::Err(e),
                Ok(d) => {
                    &&& got is Ok <==> d.interpreter is Some || (support matches Some(u)
                        && u.linker is Ok)
                    &&& got matches Ok(c) ==> {
                        &&& c == (ConfigView {
                            interpreter: c.interpreter,
                            libc_lib: c.libc_lib,
                            jobs: c.jobs,
                            ..d.cfg
                        })
                        &&& d.interpreter matches Some(p) ==> c.interpreter == p
                        &&& d.interpreter is None && support->Some_0.linker->Ok_0 == encode_utf8(
                            linker,
                        ) ==> c.interpreter == encode_utf8(trim(linker))
                        &&& d.cfg.libc_lib matches Some(p) ==> c.libc_lib == Some(p)
                        &&& d.cfg.libc_lib is None ==> (c.libc_lib is Some <==> (
                        support matches Some(u) && u.libc is Some))
                        &&& d.cfg.libc_lib is None && c.libc_lib is Some
                            && support->Some_0.libc->Some_0 == encode_utf8(libc) && trim(libc).len()
                            > 0 && trim(libc).last() != '/' ==> c.libc_lib == Some(
                            encode_utf8(trim(libc) + seq!['/', 'l', 'i', 'b']),
                        )
                        &&& d.jobs matches Some(n) ==> c.jobs == n
                        &&& d.jobs is None && cores is None ==> c.jobs == 0
                        &&& d.jobs is None && cores is Some ==> (number(
                            trim(cores->Some_0),
                        ) matches Some(n) ==> 0 <= n <= usize::MAX ==> c.jobs == n)
                    }
                },
            }
        }),
        no_draft().interpreter is None && no_draft().jobs is None,
        no_draft().cfg.recursive && no_draft().cfg.add_existing && !no_draft().cfg.keep_libc,
        no_draft().cfg.libc_lib is None && no_draft().cfg.page_size is None,
{
    lemma_utf8_text(encode_utf8(linker), linker);
    lemma_utf8_text(encode_utf8(libc), libc);
    reveal_strlit("lib");
    reveal_strlit("/");
    assert(trim(libc) + "/"@ + "lib"@ =~= trim(libc) + seq!['/', 'l', 'i', 'b']);
}

/// A file is wired up for the class, the machine and the OS ABI of the interpreter.
pub proof fn law_target_is_the_interpreters(path: Seq<char>, data: Seq<u8>)
    ensures
        match parsed(data) {
            Err(e) => target_in(encode_utf8(path), data) is Err,
            Ok(v) => target_in(encode_utf8(path), data) matches Ok(t) && t.interpreter == path
                && t.osabi == v.ehdr.os_abi && t.arch.machine == v.ehdr.machine && (t.arch.elf64
                <==> v.enc.class is Elf64),
        },
{
    lemma_utf8_text(encode_utf8(path), path);
}

} // verus!
