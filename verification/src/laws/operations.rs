//! What each operation does to a file, and what they do one after the other.
use vstd::prelude::*;

use crate::cli::OperationView;
use crate::error::{ErrorView, Outcome};
use crate::ir::{has_tag, EhdrView, ImageView};
use crate::laws::edits::{
    law_add_needed, law_debug_tag, law_execstack, law_interpreter, law_no_default_lib, law_os_abi,
    law_remove_needed, law_remove_run_path, law_replace_needed, law_run_path_grows,
    law_run_path_reads_back, law_run_path_tag, law_soname, needs_within, other_than, replaced,
    storable, strings_short, strings_wf,
};
use crate::laws::reading::{is_word, law_map_reads_back, map_text};
use crate::laws::shrinking::{first_with, law_shrink_loses_nothing};
use crate::ops::{
    applied, execstack_of, interpreter_of, needed_of, os_abi_text, soname_of, version_cleared,
    ModifiersView, ReportView, SurroundingsView,
};
use crate::patch::{all_applied, modifiers_of};
use crate::rpath::{run_path, run_path_entry};
use crate::seqs::first;
use crate::symbols::symbols_renamed;
use crate::text::{fields, lowered, trim};

verus! {

/// What the operations on the run path do: it is set, under the tag that is asked for; a
/// path is put behind it; it is removed. What was printed stays.
pub proof fn law_run_path_operations(
    v: ImageView,
    r: ReportView,
    path: Seq<char>,
    mods: ModifiersView,
    around: SurroundingsView,
)
    requires
        strings_short(v),
        storable(path),
    ensures
        applied(v, r, OperationView::SetRpath(path), mods, around) matches Ok((w, s)) ==> s == r
            && run_path(w) == Outcome::<Seq<char>>::Ok(path) && (run_path_entry(
            w.dynamic,
        ) matches Some(d) && d.tag == if mods.force_rpath {
            15i64
        } else {
            29
        }),
        applied(v, r, OperationView::AddRpath(path), mods, around) matches Ok((w, s)) ==> s == r && (
        run_path(v) matches Ok(cur) && run_path(w) == Outcome::<Seq<char>>::Ok(
            if cur.len() == 0 {
                path
            } else {
                cur + seq![':'] + path
            },
        )),
        applied(v, r, OperationView::RemoveRpath, mods, around) matches Ok((w, s)) && s == r && (
        w.dynamic.len() > 0 ==> run_path(w) == Outcome::<Seq<char>>::Ok(Seq::empty())),
        v.dynamic.len() > 0 ==> applied(v, r, OperationView::SetRpath(path), mods, around) is Ok
            && applied(v, r, OperationView::AddRpath(path), mods, around) is Ok,
{
    law_run_path_reads_back(v, path, mods.force_rpath);
    law_run_path_tag(v, path, mods.force_rpath);
    law_run_path_grows(v, path, mods.force_rpath);
    law_remove_run_path(v);
    reveal_strlit(":");
    assert(":"@ =~= seq![':']);
}

/// What the operations on needed libraries do: one comes first, one goes, one is replaced in
/// its place; the others stay.
pub proof fn law_needed_operations(
    v: ImageView,
    r: ReportView,
    lib: Seq<char>,
    new: Seq<char>,
    mods: ModifiersView,
    around: SurroundingsView,
)
    requires
        strings_short(v),
        storable(new),
        needs_within(v, new),
        v.dynamic.len() > 0,
    ensures
        needed_of(v) matches Ok(names) && {
            &&& applied(v, r, OperationView::AddNeeded(new), mods, around) matches Ok((w, s)) && s
                == r && needed_of(w) == Outcome::<Seq<Seq<char>>>::Ok(seq![new] + names)
            &&& applied(
                v,
                r,
                OperationView::ReplaceNeeded { before: lib, after: new },
                mods,
                around,
            ) matches Ok((w, s)) && s == r && needed_of(w) == Outcome::<Seq<Seq<char>>>::Ok(
                replaced(names, lib, new),
            )
            &&& applied(v, r, OperationView::RemoveNeeded(lib), mods, around) matches Ok((w, s)) && s
                == r && (w.dynamic.len() > 0 ==> needed_of(w) == Outcome::<Seq<Seq<char>>>::Ok(
                names.filter(other_than(lib)),
            ))
        },
{
    law_add_needed(v, new);
    law_replace_needed(v, lib, new);
    law_remove_needed(v, lib);
}

/// What the other operations do that set one thing: afterwards the file says it.
pub proof fn law_setting_operations(
    v: ImageView,
    r: ReportView,
    text: Seq<char>,
    mods: ModifiersView,
    around: SurroundingsView,
)
    requires
        v.wf(),
        v.ehdr.ident.len() == 16,
        storable(text),
    ensures
        text.len() > 0 && strings_wf(v) ==> (applied(
            v,
            r,
            OperationView::SetSoname(text),
            mods,
            around,
        ) matches Ok((w, s)) ==> s == r && soname_of(w) == if v.ehdr.e_type == 3 {
            Some(text)
        } else {
            None
        }),
        (v.find_section(".interp"@) matches Some(k) ==> v.ehdr.shstrndx != k) ==> (applied(
            v,
            r,
            OperationView::SetInterpreter(text),
            mods,
            around,
        ) matches Ok((w, s)) ==> s == r && interpreter_of(w) == Outcome::<Seq<char>>::Ok(text)),
        applied(v, r, OperationView::SetOsAbi(text), mods, around) matches Ok((w, s)) ==> s == r
            && w.ehdr.ident[7] == w.ehdr.os_abi,
        applied(v, r, OperationView::SetExecstack, mods, around) matches Ok((w, s)) && s == r
            && execstack_of(w) == 'X',
        applied(v, r, OperationView::ClearExecstack, mods, around) matches Ok((w, s)) && s == r
            && execstack_of(w) == '-',
        applied(v, r, OperationView::NoDefaultLib, mods, around) matches Ok((w, s)) ==> s == r && (
        first(w.dynamic, has_tag(0x6fff_fffb)) matches Some(k) && w.dynamic[k].val & 0x800 == 0x800),
        applied(v, r, OperationView::AddDebugTag, mods, around) matches Ok((w, s)) ==> s == r
            && first(w.dynamic, has_tag(21)) is Some,
        applied(v, r, OperationView::ForceRpath, mods, around) == Outcome::<
            (ImageView, ReportView),
        >::Ok((v, r)),
        applied(v, r, OperationView::AllowedRpathPrefixes(text), mods, around) == Outcome::<
            (ImageView, ReportView),
        >::Ok((v, r)),
{
    if text.len() > 0 && strings_wf(v) && v.ehdr.e_type == 3 {
        law_soname(v, text);
    }
    if v.find_section(".interp"@) matches Some(k) ==> v.ehdr.shstrndx != k {
        law_interpreter(v, text);
    }
    law_os_abi(v, text);
    law_execstack(v, true);
    law_execstack(v, false);
    law_no_default_lib(v);
    law_debug_tag(v);
}

/// The operation that shrinks the run path, with the prefixes that the request allows, loses
/// no library: what is found first in a directory that is searched is found first in the
/// same one. Gives its new place.
pub proof fn law_shrink_operation(
    v: ImageView,
    r: ReportView,
    mods: ModifiersView,
    around: SurroundingsView,
    j: int,
    i: int,
) -> (m: int)
    requires
        strings_short(v),
        run_path(v) is Ok,
        needed_of(v) matches Ok(libs) && 0 <= j < libs.len(),
        first_with(
            fields(run_path(v)->Ok_0, ':'),
            mods.allowed_rpath_prefixes,
            around.files,
            v.ehdr.machine,
            needed_of(v)->Ok_0[j],
            i,
        ),
    ensures
        applied(v, r, OperationView::ShrinkRpath, mods, around) matches Ok((w, s)) ==> s == r && (
        run_path(w) matches Ok(new) && {
            let left = fields(new, ':');
            &&& first_with(
                left,
                mods.allowed_rpath_prefixes,
                around.files,
                v.ehdr.machine,
                needed_of(v)->Ok_0[j],
                m,
            )
            &&& left[m] == fields(run_path(v)->Ok_0, ':')[i]
        }),
{
    law_shrink_loses_nothing(
        v,
        mods.allowed_rpath_prefixes,
        mods.force_rpath,
        around.files,
        j,
        i,
    )
}

/// What the operation that renames symbols goes by: a map that cannot be read is told with
/// the path it was asked from, and one that is written, one pair a line, renames by its
/// pairs. The version of a symbol is cleared by its name.
pub proof fn law_symbol_operations(
    v: ImageView,
    r: ReportView,
    path: Seq<u8>,
    pairs: Seq<(Seq<char>, Seq<char>)>,
    mods: ModifiersView,
    around: SurroundingsView,
)
    requires
        forall|i: int|
            0 <= i < pairs.len() ==> is_word((#[trigger] pairs[i]).0) && is_word(pairs[i].1),
    ensures
        ({
            let got = applied(v, r, OperationView::RenameDynamicSymbols(path), mods, around);
            &&& around.symbol_map matches Err(source) ==> got == Outcome::<
                (ImageView, ReportView),
            >::Err(ErrorView::Io { path, source })
            &&& around.symbol_map matches Ok(text) ==> text == map_text(pairs, pairs.len() as int)
                ==> match symbols_renamed(v, pairs) {
                Ok(w) => got == Outcome::<(ImageView, ReportView)>::Ok((w, r)),
                Err(e) => got == Outcome::<(ImageView, ReportView)>::Err(e),
            }
        }),
        forall|name: Seq<char>|
            match version_cleared(v, name) {
                Ok(w) => #[trigger] applied(
                    v,
                    r,
                    OperationView::ClearSymbolVersion(name),
                    mods,
                    around,
                ) == Outcome::<(ImageView, ReportView)>::Ok((w, r)),
                Err(e) => applied(v, r, OperationView::ClearSymbolVersion(name), mods, around)
                    == Outcome::<(ImageView, ReportView)>::Err(e),
            },
{
    law_map_reads_back(pairs);
}

/// What a name of an OS ABI stands for, white space around it and the case of its letters
/// left aside.
pub open spec fn named_abi(name: Seq<char>, abi: u8) -> bool {
    let n = lowered(trim(name));
    &&& n == "system v"@ || n == "system-v"@ || n == "sysv"@ ==> abi == 0
    &&& n == "hp-ux"@ ==> abi == 1
    &&& n == "netbsd"@ ==> abi == 2
    &&& n == "linux"@ || n == "gnu"@ ==> abi == 3
    &&& n == "gnu hurd"@ || n == "gnu-hurd"@ || n == "hurd"@ ==> abi == 4
    &&& n == "solaris"@ ==> abi == 6
    &&& n == "aix"@ ==> abi == 7
    &&& n == "irix"@ ==> abi == 8
    &&& n == "freebsd"@ ==> abi == 9
    &&& n == "tru64"@ ==> abi == 10
    &&& n == "openbsd"@ ==> abi == 12
    &&& n == "openvms"@ ==> abi == 13
}

/// The OS ABI that is set by a name is the number that the name stands for, in both places
/// that hold it, and nothing else changes. The name under which an OS ABI is printed, in
/// whatever case, sets that OS ABI.
pub proof fn law_os_abi_names(
    v: ImageView,
    r: ReportView,
    name: Seq<char>,
    mods: ModifiersView,
    around: SurroundingsView,
)
    ensures
        applied(v, r, OperationView::SetOsAbi(name), mods, around) is Ok <==> is_abi_name(
            lowered(trim(name)),
        ),
        applied(v, r, OperationView::SetOsAbi(name), mods, around) matches Ok((w, s)) ==> {
            &&& s == r
            &&& named_abi(name, w.ehdr.os_abi)
            &&& w == (ImageView {
                ehdr: EhdrView {
                    os_abi: w.ehdr.os_abi,
                    ident: v.ehdr.ident.update(7, w.ehdr.os_abi),
                    ..v.ehdr
                },
                ..v
            })
        },
        forall|abi: u8| #[trigger]
            is_named_abi(abi) && lowered(trim(name)) == lowered(os_abi_text(abi)) ==> (applied(
                v,
                r,
                OperationView::SetOsAbi(name),
                mods,
                around,
            ) matches Ok((w, _)) && w.ehdr.os_abi == abi),
{
    reveal_strlit("System V");
    reveal_strlit("HP-UX");
    reveal_strlit("NetBSD");
    reveal_strlit("Linux");
    reveal_strlit("GNU Hurd");
    reveal_strlit("Solaris");
    reveal_strlit("AIX");
    reveal_strlit("IRIX");
    reveal_strlit("FreeBSD");
    reveal_strlit("Tru64");
    reveal_strlit("OpenBSD");
    reveal_strlit("OpenVMS");
    reveal_strlit("system v");
    reveal_strlit("system-v");
    reveal_strlit("sysv");
    reveal_strlit("hp-ux");
    reveal_strlit("netbsd");
    reveal_strlit("linux");
    reveal_strlit("gnu");
    reveal_strlit("gnu hurd");
    reveal_strlit("gnu-hurd");
    reveal_strlit("hurd");
    reveal_strlit("solaris");
    reveal_strlit("aix");
    reveal_strlit("irix");
    reveal_strlit("freebsd");
    reveal_strlit("tru64");
    reveal_strlit("openbsd");
    reveal_strlit("openvms");
    assert(lowered("System V"@) =~= "system v"@);
    assert(lowered("HP-UX"@) =~= "hp-ux"@);
    assert(lowered("NetBSD"@) =~= "netbsd"@);
    assert(lowered("Linux"@) =~= "linux"@);
    assert(lowered("GNU Hurd"@) =~= "gnu hurd"@);
    assert(lowered("Solaris"@) =~= "solaris"@);
    assert(lowered("AIX"@) =~= "aix"@);
    assert(lowered("IRIX"@) =~= "irix"@);
    assert(lowered("FreeBSD"@) =~= "freebsd"@);
    assert(lowered("Tru64"@) =~= "tru64"@);
    assert(lowered("OpenBSD"@) =~= "openbsd"@);
    assert(lowered("OpenVMS"@) =~= "openvms"@);
    assert("hp-ux"@[0] == 'h' && "netbsd"@[0] == 'n' && "linux"@[0] == 'l' && "gnu hurd"@[0] == 'g'
        && "solaris"@[1] == 'o' && "aix"@[0] == 'a' && "irix"@[0] == 'i' && "freebsd"@[0] == 'f'
        && "tru64"@[0] == 't' && "openbsd"@[4] == 'b' && "openvms"@[4] == 'v' && "openbsd"@[0]
        == 'o' && "openvms"@[0] == 'o');
    assert("system v"@[1] == 'y' && "system-v"@[1] == 'y' && "sysv"@[1] == 'y' && "gnu"@[0] == 'g'
        && "gnu-hurd"@[0] == 'g' && "hurd"@[0] == 'h' && "hurd"@[1] == 'u' && "hp-ux"@[1] == 'p');
    assert("gnu hurd"@.len() == 8 && "gnu"@.len() == 3 && "system v"@.len() == 8);
}

/// Whether an OS ABI goes by the name `n`.
pub open spec fn is_abi_name(n: Seq<char>) -> bool {
    ||| n == "system v"@ || n == "system-v"@ || n == "sysv"@
    ||| n == "hp-ux"@
    ||| n == "netbsd"@
    ||| n == "linux"@ || n == "gnu"@
    ||| n == "gnu hurd"@ || n == "gnu-hurd"@ || n == "hurd"@
    ||| n == "solaris"@
    ||| n == "aix"@
    ||| n == "irix"@
    ||| n == "freebsd"@
    ||| n == "tru64"@
    ||| n == "openbsd"@
    ||| n == "openvms"@
}

/// Whether an OS ABI has a name.
pub open spec fn is_named_abi(abi: u8) -> bool {
    abi <= 13 && abi != 5 && abi != 11
}

/// The operations on the dynamic array succeed on every file that has one, with strings, and
/// on no other, but that a soname is set on shared objects alone and what has no run path to
/// remove stays.
pub proof fn law_operations_succeed(
    v: ImageView,
    r: ReportView,
    text: Seq<char>,
    mods: ModifiersView,
    around: SurroundingsView,
)
    ensures
        ({
            let has = v.dynamic.len() > 0 && v.find_section(".dynstr"@) is Some;
            &&& applied(v, r, OperationView::SetRpath(text), mods, around) is Ok <==> has
            &&& applied(v, r, OperationView::AddNeeded(text), mods, around) is Ok <==> has
            &&& applied(v, r, OperationView::RemoveNeeded(text), mods, around) is Ok <==> has
            &&& applied(
                v,
                r,
                OperationView::ReplaceNeeded { before: text, after: text },
                mods,
                around,
            ) is Ok <==> has
            &&& applied(v, r, OperationView::SetSoname(text), mods, around) is Ok <==> has
                || v.ehdr.e_type != 3
            &&& v.ehdr.e_type != 3 ==> applied(
                v,
                r,
                OperationView::SetSoname(text),
                mods,
                around,
            ) == Outcome::<(ImageView, ReportView)>::Ok((v, r))
            &&& applied(v, r, OperationView::NoDefaultLib, mods, around) is Ok <==> v.dynamic.len()
                > 0
            &&& applied(v, r, OperationView::AddDebugTag, mods, around) is Ok <==> v.dynamic.len()
                > 0
            &&& has && run_path(v) is Ok && needed_of(v) is Ok ==> applied(
                v,
                r,
                OperationView::ShrinkRpath,
                mods,
                around,
            ) is Ok && applied(v, r, OperationView::AddRpath(text), mods, around) is Ok
        }),
{
}

/// Operations are applied one after the other: to apply two lists of them is to apply the
/// second to what the first made, and a failure ends it.
pub proof fn law_operations_in_order(
    v: ImageView,
    r: ReportView,
    a: Seq<OperationView>,
    b: Seq<OperationView>,
    mods: ModifiersView,
    around: SurroundingsView,
)
    ensures
        all_applied(v, r, a + b, mods, around, (a + b).len() as int) == match all_applied(
            v,
            r,
            a,
            mods,
            around,
            a.len() as int,
        ) {
            Err(e) => Err(e),
            Ok((w, s)) => all_applied(w, s, b, mods, around, b.len() as int),
        },
        forall|op: OperationView| #[trigger]
            all_applied(v, r, seq![op], mods, around, 1) == applied(v, r, op, mods, around),
{
    lemma_prefix(v, r, a, b, mods, around, a.len() as int);
    lemma_in_order(v, r, a, b, mods, around, b.len() as int);
    assert forall|op: OperationView| #[trigger]
        all_applied(v, r, seq![op], mods, around, 1) == applied(v, r, op, mods, around) by {
        assert(all_applied(v, r, seq![op], mods, around, 0) == Outcome::<
            (ImageView, ReportView),
        >::Ok((v, r)));
    }
}

proof fn lemma_prefix(
    v: ImageView,
    r: ReportView,
    a: Seq<OperationView>,
    b: Seq<OperationView>,
    mods: ModifiersView,
    around: SurroundingsView,
    n: int,
)
    requires
        0 <= n <= a.len(),
    ensures
        all_applied(v, r, a + b, mods, around, n) == all_applied(v, r, a, mods, around, n),
    decreases n,
{
    if n > 0 {
        lemma_prefix(v, r, a, b, mods, around, n - 1);
        assert((a + b)[n - 1] == a[n - 1]);
    }
}

proof fn lemma_in_order(
    v: ImageView,
    r: ReportView,
    a: Seq<OperationView>,
    b: Seq<OperationView>,
    mods: ModifiersView,
    around: SurroundingsView,
    n: int,
)
    requires
        0 <= n <= b.len(),
    ensures
        all_applied(v, r, a + b, mods, around, a.len() + n) == match all_applied(
            v,
            r,
            a,
            mods,
            around,
            a.len() as int,
        ) {
            Err(e) => Err(e),
            Ok((w, s)) => all_applied(w, s, b, mods, around, n),
        },
    decreases n,
{
    if n > 0 {
        lemma_in_order(v, r, a, b, mods, around, n - 1);
        assert((a + b)[a.len() + n - 1] == b[n - 1]);
    } else {
        lemma_prefix(v, r, a, b, mods, around, a.len() as int);
    }
}

/// The obsolete tag is forced once any operation asks for it, and the prefixes that are
/// allowed are those of the last operation that lists any.
pub proof fn law_modifiers(ops: Seq<OperationView>, debug: bool, i: int)
    requires
        0 <= i < ops.len(),
        ops[i] is AllowedRpathPrefixes,
        forall|j: int| i < j < ops.len() ==> !((#[trigger] ops[j]) is AllowedRpathPrefixes),
    ensures
        ({
            let m = modifiers_of(ops, debug, ops.len() as int);
            &&& m.debug == debug
            &&& m.force_rpath <==> ops.contains(OperationView::ForceRpath)
            &&& m.allowed_rpath_prefixes == fields(ops[i]->AllowedRpathPrefixes_0, ':')
        }),
{
    lemma_force(ops, debug, ops.len() as int);
    lemma_prefixes(ops, debug, ops.len() as int, i);
    if ops.contains(OperationView::ForceRpath) {
        let j = choose|j: int| 0 <= j < ops.len() && ops[j] == OperationView::ForceRpath;
        assert(ops[j] is ForceRpath);
    }
}

/// Without a list of them no prefixes are asked for.
pub proof fn law_no_prefixes(ops: Seq<OperationView>, debug: bool)
    requires
        forall|j: int| 0 <= j < ops.len() ==> !((#[trigger] ops[j]) is AllowedRpathPrefixes),
    ensures
        modifiers_of(ops, debug, ops.len() as int).allowed_rpath_prefixes.len() == 0,
        modifiers_of(ops, debug, ops.len() as int).debug == debug,
        modifiers_of(ops, debug, ops.len() as int).force_rpath <==> ops.contains(
            OperationView::ForceRpath,
        ),
{
    lemma_force(ops, debug, ops.len() as int);
    lemma_no_prefixes(ops, debug, ops.len() as int);
    if ops.contains(OperationView::ForceRpath) {
        let j = choose|j: int| 0 <= j < ops.len() && ops[j] == OperationView::ForceRpath;
        assert(ops[j] is ForceRpath);
    }
}

proof fn lemma_force(ops: Seq<OperationView>, debug: bool, n: int)
    requires
        0 <= n <= ops.len(),
    ensures
        modifiers_of(ops, debug, n).debug == debug,
        modifiers_of(ops, debug, n).force_rpath <==> exists|j: int|
            0 <= j < n && (#[trigger] ops[j]) is ForceRpath,
    decreases n,
{
    if n > 0 {
        lemma_force(ops, debug, n - 1);
        if ops[n - 1] is ForceRpath {
            assert(0 <= n - 1 < n && ops[n - 1] is ForceRpath);
        }
    }
}

proof fn lemma_prefixes(ops: Seq<OperationView>, debug: bool, n: int, i: int)
    requires
        0 <= i < n <= ops.len(),
        ops[i] is AllowedRpathPrefixes,
        forall|j: int| i < j < ops.len() ==> !((#[trigger] ops[j]) is AllowedRpathPrefixes),
    ensures
        modifiers_of(ops, debug, n).allowed_rpath_prefixes == fields(
            ops[i]->AllowedRpathPrefixes_0,
            ':',
        ),
    decreases n,
{
    if i < n - 1 {
        lemma_prefixes(ops, debug, n - 1, i);
        assert(!(ops[n - 1] is AllowedRpathPrefixes));
    }
}

proof fn lemma_no_prefixes(ops: Seq<OperationView>, debug: bool, n: int)
    requires
        0 <= n <= ops.len(),
        forall|j: int| 0 <= j < ops.len() ==> !((#[trigger] ops[j]) is AllowedRpathPrefixes),
    ensures
        modifiers_of(ops, debug, n).allowed_rpath_prefixes.len() == 0,
    decreases n,
{
    if n > 0 {
        lemma_no_prefixes(ops, debug, n - 1);
        assert(!(ops[n - 1] is AllowedRpathPrefixes));
    }
}

} // verus!
