//! Apply a request to a file held in memory.
use vstd::prelude::*;

use crate::cli::{op_views, Args, Operation, OperationView};
use crate::error::{Error, ErrorView, Outcome, Result};
use crate::ir::{et, ElfImage, ImageView};
use crate::layout::{finalize, finalized};
use crate::ops::{
    applied, apply, Modifiers, ModifiersView, Report, ReportView, Surroundings, SurroundingsView,
};
use crate::parser::{parse, parsed};
use crate::text::{fields, split_fields, texts};

verus! {

/// Whether an operation only prints.
pub open spec fn read_only(op: OperationView) -> bool {
    op is PrintInterpreter || op is PrintOsAbi || op is PrintSoname || op is PrintRpath
        || op is PrintNeeded || op is PrintExecstack
}

/// Whether an operation only prints.
pub fn is_read_only(op: &Operation) -> (b: bool)
    ensures
        b == read_only(op@),
{
    match op {
        Operation::PrintInterpreter => true,
        Operation::PrintOsAbi => true,
        Operation::PrintSoname => true,
        Operation::PrintRpath => true,
        Operation::PrintNeeded => true,
        Operation::PrintExecstack => true,
        _ => false,
    }
}

/// Whether any of the operations asks for the file to be written.
pub fn is_mutating(ops: &Vec<Operation>) -> (b: bool)
    ensures
        b == exists|i: int| 0 <= i < ops@.len() && !read_only(#[trigger] op_views(ops@)[i]),
{
    let ghost views = op_views(ops@);
    let mut i: usize = 0;
    while i < ops.len()
        invariant
            views == op_views(ops@),
            i <= ops@.len(),
            forall|j: int| 0 <= j < i ==> read_only(#[trigger] views[j]),
        decreases ops@.len() - i,
    {
        assert(views[i as int] == ops@[i as int]@);
        if !is_read_only(&ops[i]) {
            return true;
        }
        i += 1;
    }
    false
}

/// The modifiers that the first `n` operations ask for: `DT_RPATH` is forced once
/// asked for, and the last list of allowed prefixes counts.
pub open spec fn modifiers_of(ops: Seq<OperationView>, debug: bool, n: int) -> ModifiersView
    decreases n,
{
    if n <= 0 {
        ModifiersView { force_rpath: false, allowed_rpath_prefixes: Seq::empty(), debug }
    } else {
        let before = modifiers_of(ops, debug, n - 1);
        match ops[n - 1] {
            OperationView::ForceRpath => ModifiersView { force_rpath: true, ..before },
            OperationView::AllowedRpathPrefixes(s) => ModifiersView {
                allowed_rpath_prefixes: fields(s, ':'),
                ..before
            },
            _ => before,
        }
    }
}

/// The modifiers that the arguments ask for.
pub fn modifiers(args: &Args) -> (mods: Modifiers)
    ensures
        mods@ == modifiers_of(args@.ops, args@.debug, args@.ops.len() as int),
{
    let mut mods = Modifiers {
        force_rpath: false,
        allowed_rpath_prefixes: Vec::new(),
        debug: args.debug,
    };
    let ghost views = args@.ops;
    let mut i: usize = 0;
    assert(texts(mods.allowed_rpath_prefixes@) =~= Seq::empty());
    while i < args.ops.len()
        invariant
            views == op_views(args.ops@),
            i <= args.ops@.len(),
            mods@ == modifiers_of(views, args.debug, i as int),
        decreases args.ops@.len() - i,
    {
        assert(views[i as int] == args.ops@[i as int]@);
        match &args.ops[i] {
            Operation::ForceRpath => {
                mods.force_rpath = true;
            },
            Operation::AllowedRpathPrefixes(s) => {
                mods.allowed_rpath_prefixes = split_fields(s.as_str(), ':');
            },
            _ => {},
        }
        i += 1;
    }
    mods
}

/// Fail unless there is a file to edit.
pub fn require_files(args: &Args) -> (res: Result<()>)
    ensures
        match res {
            Ok(_) => args@.files.len() > 0,
            Err(e) => args@.files.len() == 0 && e@ == ErrorView::Cli("no input files"@),
        },
{
    assert(args@.files.len() == args.files@.len());
    if args.files.len() == 0 {
        Err(Error::Cli("no input files".to_owned()))
    } else {
        Ok(())
    }
}

/// Fail unless the file is an executable or a shared object.
pub fn require_type(image: &ElfImage) -> (res: Result<()>)
    ensures
        match res {
            Ok(_) => image@.ehdr.e_type == et::EXEC || image@.ehdr.e_type == et::DYN,
            Err(e) => image@.ehdr.e_type != et::EXEC && image@.ehdr.e_type != et::DYN && e@
                == ErrorView::Unsupported("wrong ELF type"@),
        },
{
    if image.ehdr.e_type != et::EXEC && image.ehdr.e_type != et::DYN {
        Err(Error::Unsupported("wrong ELF type".to_owned()))
    } else {
        Ok(())
    }
}

/// What the first `n` operations make of an image and a report, one after the
/// other.
pub open spec fn all_applied(
    v: ImageView,
    r: ReportView,
    ops: Seq<OperationView>,
    mods: ModifiersView,
    around: SurroundingsView,
    n: int,
) -> Outcome<(ImageView, ReportView)>
    decreases n,
{
    if n <= 0 {
        Ok((v, r))
    } else {
        match all_applied(v, r, ops, mods, around, n - 1) {
            Err(e) => Err(e),
            Ok((w, s)) => applied(w, s, ops[n - 1], mods, around),
        }
    }
}

proof fn lemma_all_applied_err(
    v: ImageView,
    r: ReportView,
    ops: Seq<OperationView>,
    mods: ModifiersView,
    around: SurroundingsView,
    i: int,
    n: int,
)
    requires
        i <= n,
        all_applied(v, r, ops, mods, around, i) is Err,
    ensures
        all_applied(v, r, ops, mods, around, n) == all_applied(v, r, ops, mods, around, i),
    decreases n - i,
{
    if i < n {
        lemma_all_applied_err(v, r, ops, mods, around, i, n - 1);
    }
}

/// Perform the operations one after the other. One that fails leaves what those
/// before it made.
pub fn apply_all(
    image: &mut ElfImage,
    ops: &Vec<Operation>,
    mods: &Modifiers,
    around: &Surroundings,
    report: &mut Report,
) -> (res: Result<()>)
    requires
        old(image)@.wf(),
    ensures
        final(image)@.wf(),
        match res {
            Ok(_) => all_applied(
                old(image)@,
                old(report)@,
                op_views(ops@),
                mods@,
                around@,
                ops@.len() as int,
            ) == Outcome::Ok((final(image)@, final(report)@)),
            Err(e) => all_applied(
                old(image)@,
                old(report)@,
                op_views(ops@),
                mods@,
                around@,
                ops@.len() as int,
            ) == Outcome::<(ImageView, ReportView)>::Err(e@) && exists|n: int|
                0 <= n < ops@.len() && #[trigger] all_applied(
                    old(image)@,
                    old(report)@,
                    op_views(ops@),
                    mods@,
                    around@,
                    n,
                ) == Outcome::Ok((final(image)@, final(report)@)),
        },
{
    let ghost views = op_views(ops@);
    let ghost v = image@;
    let ghost r = report@;
    let mut i: usize = 0;
    while i < ops.len()
        invariant
            views == op_views(ops@),
            i <= ops@.len(),
            image@.wf(),
            v == old(image)@,
            r == old(report)@,
            all_applied(v, r, views, mods@, around@, i as int) == Outcome::Ok((image@, report@)),
        decreases ops@.len() - i,
    {
        assert(views[i as int] == ops@[i as int]@);
        match apply(image, &ops[i], mods, around, report) {
            Ok(_) => {},
            Err(e) => {
                proof {
                    lemma_all_applied_err(v, r, views, mods@, around@, i + 1, views.len() as int);
                }
                return Err(e);
            },
        }
        i += 1;
    }
    Ok(())
}

/// An empty report.
pub open spec fn no_report() -> ReportView {
    ReportView { lines: Seq::empty(), warnings: Seq::empty() }
}

/// The file `data` with the operations applied to it.
pub open spec fn patched(
    data: Seq<u8>,
    ops: Seq<OperationView>,
    mods: ModifiersView,
    around: SurroundingsView,
    page_size: Option<u64>,
) -> Outcome<Seq<u8>> {
    match parsed(data) {
        Err(e) => Err(e),
        Ok(v) => match all_applied(v, no_report(), ops, mods, around, ops.len() as int) {
            Err(e) => Err(e),
            Ok((w, _)) => finalized(w, data, page_size, false).1,
        },
    }
}

/// Apply `ops` to the file `data` and give the file that takes its place.
pub fn patch_data(
    data: &[u8],
    ops: &Vec<Operation>,
    mods: &Modifiers,
    around: &Surroundings,
    page_size: Option<u64>,
) -> (res: Result<Vec<u8>>)
    ensures
        match res {
            Ok(b) => patched(data@, op_views(ops@), mods@, around@, page_size) == Outcome::Ok(b@),
            Err(e) => patched(data@, op_views(ops@), mods@, around@, page_size) == Outcome::<
                Seq<u8>,
            >::Err(e@),
        },
{
    let mut image = parse(data)?;
    let mut report = Report { lines: Vec::new(), warnings: Vec::new() };
    assert(report@.lines =~= no_report().lines);
    assert(report@.warnings =~= no_report().warnings);
    apply_all(&mut image, ops, mods, around, &mut report)?;
    finalize(&mut image, data, page_size, false)
}

} // verus!
