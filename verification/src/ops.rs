//! Transforms of an [`ElfImage`]. They never compute offsets; the layout engine
//! does that once, afterwards.
use std::path::PathBuf;

use vstd::prelude::*;
use vstd::utf8::encode_utf8;

use crate::bytes::{u16_bytes, u32_at};
use crate::cli::{Operation, OperationView};
use crate::error::{Error, ErrorView, Outcome, Result};
use crate::ir::{
    c_text, contents, cstr, df1, dt, et, find_end, find_segment_type, find_tag, has_tag, pf, pt,
    segment_type, str_end, Class, DynEntry, EhdrView, ElfImage, ImageView, Phdr,
};
use crate::facts::{fact_views, FactView, FileFact};
use crate::ldcache::cache_built;
use crate::parser::copy_bytes;
use crate::paths::path_bytes;
use crate::rpath::{run_path, run_path_added, run_path_removed, run_path_set, run_path_shrunk};
use crate::seqs::{first, lemma_filter_take};
use crate::symbols::{parse_symbol_map, rename_dynamic_symbols, symbol_map, symbols_renamed};
use crate::text::{lower_text, lowered, same_text, texts, trim, trim_text};

verus! {

/// What the operations that print have to say.
#[derive(Debug, Default)]
pub struct Report {
    pub lines: Vec<String>,
    /// What an operation could not do, though it did not fail.
    pub warnings: Vec<String>,
}

/// Flags that affect how the run path operations behave.
#[derive(Debug, Default)]
pub struct Modifiers {
    pub force_rpath: bool,
    pub allowed_rpath_prefixes: Vec<String>,
    pub debug: bool,
}

/// What an operation that needs dynamic information fails with without it.
pub open spec fn no_dynamic() -> ErrorView {
    ErrorView::Missing("no .dynamic section"@)
}

/// What an operation that needs the section `name` fails with without it.
pub open spec fn no_section(name: Seq<char>) -> ErrorView {
    ErrorView::Missing("cannot find section "@ + name)
}

fn no_section_error(name: &str) -> (e: Error)
    ensures
        e@ == no_section(name@),
{
    Error::Missing(crate::text::concat("cannot find section ", name))
}

/// Fail unless there is a dynamic array.
pub(crate) fn require_dynamic(image: &ElfImage) -> (res: Result<()>)
    ensures
        match res {
            Ok(_) => image@.dynamic.len() > 0,
            Err(e) => image@.dynamic.len() == 0 && e@ == no_dynamic(),
        },
{
    if image.has_dynamic() {
        Ok(())
    } else {
        Err(Error::Missing("no .dynamic section".to_owned()))
    }
}

/// Position of the section `name`, or a failure that names it.
pub(crate) fn require_section(image: &ElfImage, name: &str) -> (res: Result<usize>)
    ensures
        match res {
            Ok(k) => k < image@.shdrs.len() && image@.find_section(name@) == Some(k as int)
                && image@.section_name(k as int) == Some(name@),
            Err(e) => image@.find_section(name@) is None && e@ == no_section(name@),
        },
{
    match image.find_section(name) {
        Some(k) => Ok(k),
        None => Err(no_section_error(name)),
    }
}

/// Position of the section that holds the dynamic strings.
pub(crate) fn dynstr_section(image: &ElfImage) -> (res: Result<usize>)
    ensures
        match res {
            Ok(k) => k < image@.shdrs.len() && image@.find_section(".dynstr"@) == Some(k as int)
                && image@.section_name(k as int) == Some(".dynstr"@),
            Err(e) => image@.find_section(".dynstr"@) is None && e@ == no_section(".dynstr"@),
        },
{
    require_section(image, ".dynstr")
}

/// The position in a string table that a dynamic entry names: the low 32 bits of
/// its value.
pub open spec fn string_offset(d: DynEntry) -> int {
    d.val as int % 0x1_0000_0000
}

/// The text that a dynamic entry names.
pub open spec fn entry_text(tab: Seq<u8>, d: DynEntry) -> Option<Seq<char>> {
    c_text(tab, string_offset(d))
}

/// The text that a dynamic entry names.
pub(crate) fn dyn_entry_text<'a>(tab: &'a [u8], d: &DynEntry) -> (res: Option<&'a str>)
    ensures
        res is Some <==> entry_text(tab@, *d) is Some,
        res matches Some(s) ==> s@ == entry_text(tab@, *d).unwrap(),
{
    cstr(tab, (d.val % 0x1_0000_0000) as u32)
}

/// `t`, or nothing.
pub open spec fn or_empty(t: Option<Seq<char>>) -> Seq<char> {
    match t {
        Some(s) => s,
        None => Seq::empty(),
    }
}

/// `s`, or the empty string.
pub(crate) fn owned_or_empty(s: Option<&str>) -> (t: String)
    ensures
        t@ == match s {
            Some(s) => s@,
            None => Seq::empty(),
        },
{
    match s {
        Some(s) => s.to_owned(),
        None => {
            let t = String::new();
            assert(t@ =~= Seq::empty());
            t
        },
    }
}

/// The string table with `s` and a NUL behind it.
pub open spec fn with_string(tab: Seq<u8>, s: Seq<char>) -> Seq<u8> {
    tab + encode_utf8(s) + seq![0u8]
}

/// Append `s` to a string table; gives its offset.
pub(crate) fn dynstr_append(buf: &mut Vec<u8>, s: &str) -> (off: u64)
    ensures
        off == old(buf)@.len(),
        final(buf)@ == with_string(old(buf)@, s@),
{
    let off = buf.len() as u64;
    buf.extend_from_slice(s.as_bytes());
    buf.push(0);
    assert(buf@ =~= with_string(old(buf)@, s@));
    off
}

/// Whether the string at `reuse` is at least as long as `n`.
pub open spec fn slot_fits(tab: Seq<u8>, reuse: Option<u64>, n: int) -> bool {
    reuse matches Some(o) && o < tab.len() && n <= str_end(tab, o as int) - o
}

/// A string table with `new` written over the string at `reuse`, the rest of that
/// string zeroed, where it fits; else with `new` behind it. With the place of
/// `new`.
pub open spec fn string_put(tab: Seq<u8>, reuse: Option<u64>, new: Seq<char>) -> (Seq<u8>, u64) {
    let b = encode_utf8(new);
    if slot_fits(tab, reuse, b.len() as int) {
        let o = reuse->Some_0;
        (
            Seq::new(
                tab.len(),
                |i: int|
                    if o <= i < o + b.len() {
                        b[i - o]
                    } else if o + b.len() <= i < str_end(tab, o as int) {
                        0
                    } else {
                        tab[i]
                    },
            ),
            o,
        )
    } else {
        (with_string(tab, new), tab.len() as u64)
    }
}

/// Store `new` in a string table, over the string at `reuse` where it fits; gives
/// its offset.
pub(crate) fn dynstr_set(buf: &mut Vec<u8>, reuse: Option<u64>, new: &str) -> (off: u64)
    ensures
        (final(buf)@, off) == string_put(old(buf)@, reuse, new@),
{
    let b = new.as_bytes();
    if let Some(o) = reuse {
        if o < buf.len() as u64 {
            let at: usize = o as usize;
            let end = find_end(buf.as_slice(), at);
            if b.len() <= end - at {
                let ghost tab = buf@;
                let ghost want = string_put(tab, reuse, new@).0;
                let mut i: usize = at;
                while i < end
                    invariant
                        at <= i <= end <= tab.len(),
                        b@ == encode_utf8(new@),
                        b@.len() <= end - at,
                        end == str_end(tab, at as int),
                        o == at,
                        reuse == Some(o),
                        o < tab.len(),
                        want == string_put(tab, reuse, new@).0,
                        buf@.len() == tab.len(),
                        forall|j: int| 0 <= j < i ==> #[trigger] buf@[j] == want[j],
                        forall|j: int| i <= j < tab.len() ==> #[trigger] buf@[j] == tab[j],
                    decreases end - i,
                {
                    let x: u8 = if i - at < b.len() {
                        b[i - at]
                    } else {
                        0
                    };
                    buf.set(i, x);
                    i += 1;
                }
                assert(buf@ =~= want);
                return o;
            }
        }
    }
    dynstr_append(buf, new)
}

/// The dynamic entries before the terminating one.
pub open spec fn live(dynamic: Seq<DynEntry>) -> Seq<DynEntry> {
    match first(dynamic, has_tag(dt::NULL)) {
        Some(k) => dynamic.take(k),
        None => dynamic,
    }
}

/// The names in the `DT_NEEDED` entries from `i` on, up to the terminating entry.
pub open spec fn needed_from(tab: Seq<u8>, dynamic: Seq<DynEntry>, i: int) -> Seq<Seq<char>>
    decreases dynamic.len() - i,
{
    if i < 0 || i >= dynamic.len() || dynamic[i].tag == dt::NULL {
        Seq::empty()
    } else {
        let rest = needed_from(tab, dynamic, i + 1);
        match entry_text(tab, dynamic[i]) {
            Some(t) => if dynamic[i].tag == dt::NEEDED {
                seq![t] + rest
            } else {
                rest
            },
            None => rest,
        }
    }
}

/// The libraries that the file needs.
pub open spec fn needed_of(v: ImageView) -> Outcome<Seq<Seq<char>>> {
    if v.dynamic.len() == 0 {
        Err(no_dynamic())
    } else {
        match v.dynstr() {
            Some(tab) => Ok(needed_from(tab, v.dynamic, 0)),
            None => Ok(Seq::empty()),
        }
    }
}

/// The libraries that the file needs.
pub fn needed(image: &ElfImage) -> (res: Result<Vec<String>>)
    ensures
        match res {
            Ok(v) => needed_of(image@) == Outcome::Ok(texts(v@)),
            Err(e) => needed_of(image@) == Outcome::<Seq<Seq<char>>>::Err(e@),
        },
{
    require_dynamic(image)?;
    let mut out: Vec<String> = Vec::new();
    assert(texts(out@) =~= Seq::empty());
    let tab = match image.dynstr() {
        Some(tab) => tab,
        None => {
            return Ok(out);
        },
    };
    let ghost all = needed_from(tab@, image@.dynamic, 0);
    assert(all =~= texts(out@) + all);
    let mut i: usize = 0;
    while i < image.dynamic.len() && image.dynamic[i].tag != dt::NULL
        invariant
            i <= image@.dynamic.len(),
            all == texts(out@) + needed_from(tab@, image@.dynamic, i as int),
        decreases image@.dynamic.len() - i,
    {
        let ghost before = texts(out@);
        let ghost rest = needed_from(tab@, image@.dynamic, i + 1);
        if image.dynamic[i].tag == dt::NEEDED {
            if let Some(s) = dyn_entry_text(tab, &image.dynamic[i]) {
                out.push(s.to_owned());
                assert(texts(out@) =~= before.push(s@));
                assert(before + (seq![s@] + rest) =~= texts(out@) + rest);
            }
        }
        i += 1;
    }
    assert(texts(out@) + Seq::empty() =~= texts(out@));
    Ok(out)
}

/// The text of the first dynamic entry with the tag `tag`.
pub open spec fn tag_text(v: ImageView, tag: i64) -> Option<Seq<char>> {
    match (v.dynstr(), first(v.dynamic, has_tag(tag))) {
        (Some(tab), Some(k)) => entry_text(tab, v.dynamic[k]),
        _ => None,
    }
}

/// The text of the first dynamic entry with the tag `tag`.
pub(crate) fn dyn_string<'a>(image: &'a ElfImage, tag: i64) -> (res: Option<&'a str>)
    ensures
        res is Some <==> tag_text(image@, tag) is Some,
        res matches Some(s) ==> s@ == tag_text(image@, tag).unwrap(),
{
    match (image.dynstr(), find_tag(&image.dynamic, tag)) {
        (Some(tab), Some(k)) => dyn_entry_text(tab, &image.dynamic[k]),
        _ => None,
    }
}

/// The soname of a shared object that has one.
pub open spec fn soname_of(v: ImageView) -> Option<Seq<char>> {
    if v.ehdr.e_type != et::DYN {
        None
    } else {
        match tag_text(v, dt::SONAME) {
            Some(t) => if t.len() > 0 {
                Some(t)
            } else {
                None
            },
            None => None,
        }
    }
}

/// The soname of a shared object that has one.
pub fn soname(image: &ElfImage) -> (res: Option<String>)
    ensures
        res is Some <==> soname_of(image@) is Some,
        res matches Some(s) ==> s@ == soname_of(image@).unwrap(),
{
    if image.ehdr.e_type != et::DYN {
        return None;
    }
    match dyn_string(image, dt::SONAME) {
        Some(s) => if s.is_empty() {
            None
        } else {
            Some(s.to_owned())
        },
        None => None,
    }
}

/// The path of the interpreter: from its section, or as recovered from its
/// segment when there is no such section.
pub open spec fn interpreter_of(v: ImageView) -> Outcome<Seq<char>> {
    match v.find_section(".interp"@) {
        Some(k) => Ok(or_empty(c_text(v.sections[k], 0))),
        None => match v.interp_fallback {
            Some(b) => Ok(or_empty(c_text(b, 0))),
            None => Err(no_section(".interp"@)),
        },
    }
}

/// The path of the interpreter.
pub fn interpreter(image: &ElfImage) -> (res: Result<String>)
    requires
        image@.wf(),
    ensures
        match res {
            Ok(s) => interpreter_of(image@) == Outcome::Ok(s@),
            Err(e) => interpreter_of(image@) == Outcome::<Seq<char>>::Err(e@),
        },
{
    match image.find_section(".interp") {
        Some(k) => Ok(owned_or_empty(cstr(image.section_data[k].as_slice(), 0))),
        None => match &image.interp_fallback {
            Some(b) => Ok(owned_or_empty(cstr(b.as_slice(), 0))),
            None => Err(no_section_error(".interp")),
        },
    }
}

/// Whether the stack is executable: `X`, `-`, or `?` when the file does not say.
pub open spec fn execstack_of(v: ImageView) -> char {
    match first(v.phdrs, segment_type(pt::GNU_STACK)) {
        Some(k) => if v.phdrs[k].flags & pf::X != 0 {
            'X'
        } else {
            '-'
        },
        None => '?',
    }
}

/// Whether the stack is executable: `X`, `-`, or `?` when the file does not say.
pub fn execstack(image: &ElfImage) -> (c: char)
    ensures
        c == execstack_of(image@),
{
    match find_segment_type(&image.phdrs, pt::GNU_STACK) {
        Some(k) => if image.phdrs[k].flags & pf::X != 0 {
            'X'
        } else {
            '-'
        },
        None => '?',
    }
}

/// The upper-case hexadecimal digit for `d`.
pub open spec fn upper_digit(d: int) -> char {
    if d < 10 {
        (0x30 + d) as char
    } else {
        (0x37 + d) as char
    }
}

/// The name of an OS ABI, or its number in two hexadecimal digits.
pub open spec fn os_abi_text(abi: u8) -> Seq<char> {
    match abi {
        0 => "System V"@,
        1 => "HP-UX"@,
        2 => "NetBSD"@,
        3 => "Linux"@,
        4 => "GNU Hurd"@,
        6 => "Solaris"@,
        7 => "AIX"@,
        8 => "IRIX"@,
        9 => "FreeBSD"@,
        10 => "Tru64"@,
        12 => "OpenBSD"@,
        13 => "OpenVMS"@,
        _ => "0x"@.push(upper_digit(abi as int / 16)).push(upper_digit(abi as int % 16)),
    }
}

fn to_upper_digit(d: u8) -> (c: char)
    requires
        d < 16,
    ensures
        c == upper_digit(d as int),
{
    if d < 10 {
        (0x30 + d) as char
    } else {
        (0x37 + d) as char
    }
}

/// The name of an OS ABI, or its number in two hexadecimal digits.
pub fn os_abi_name(abi: u8) -> (s: String)
    ensures
        s@ == os_abi_text(abi),
{
    let name = match abi {
        0 => "System V",
        1 => "HP-UX",
        2 => "NetBSD",
        3 => "Linux",
        4 => "GNU Hurd",
        6 => "Solaris",
        7 => "AIX",
        8 => "IRIX",
        9 => "FreeBSD",
        10 => "Tru64",
        12 => "OpenBSD",
        13 => "OpenVMS",
        _ => {
            let mut s = "0x".to_owned();
            s.push(to_upper_digit(abi / 16));
            s.push(to_upper_digit(abi % 16));
            return s;
        },
    };
    name.to_owned()
}

/// The OS ABI that a lower-case name stands for.
pub open spec fn os_abi_code(name: Seq<char>) -> Option<u8> {
    if name == "system v"@ || name == "system-v"@ || name == "sysv"@ {
        Some(0)
    } else if name == "hp-ux"@ {
        Some(1)
    } else if name == "netbsd"@ {
        Some(2)
    } else if name == "linux"@ || name == "gnu"@ {
        Some(3)
    } else if name == "gnu hurd"@ || name == "gnu-hurd"@ || name == "hurd"@ {
        Some(4)
    } else if name == "solaris"@ {
        Some(6)
    } else if name == "aix"@ {
        Some(7)
    } else if name == "irix"@ {
        Some(8)
    } else if name == "freebsd"@ {
        Some(9)
    } else if name == "tru64"@ {
        Some(10)
    } else if name == "openbsd"@ {
        Some(12)
    } else if name == "openvms"@ {
        Some(13)
    } else {
        None
    }
}

fn parse_os_abi(s: &str) -> (res: Option<u8>)
    ensures
        res == os_abi_code(s@),
{
    if same_text(s, "system v") || same_text(s, "system-v") || same_text(s, "sysv") {
        Some(0)
    } else if same_text(s, "hp-ux") {
        Some(1)
    } else if same_text(s, "netbsd") {
        Some(2)
    } else if same_text(s, "linux") || same_text(s, "gnu") {
        Some(3)
    } else if same_text(s, "gnu hurd") || same_text(s, "gnu-hurd") || same_text(s, "hurd") {
        Some(4)
    } else if same_text(s, "solaris") {
        Some(6)
    } else if same_text(s, "aix") {
        Some(7)
    } else if same_text(s, "irix") {
        Some(8)
    } else if same_text(s, "freebsd") {
        Some(9)
    } else if same_text(s, "tru64") {
        Some(10)
    } else if same_text(s, "openbsd") {
        Some(12)
    } else if same_text(s, "openvms") {
        Some(13)
    } else {
        None
    }
}

/// The image with its OS ABI set by name, whatever the case of its letters.
pub open spec fn os_abi_set(v: ImageView, name: Seq<char>) -> Outcome<ImageView> {
    match os_abi_code(lowered(trim(name))) {
        Some(abi) => Ok(
            ImageView {
                ehdr: EhdrView { os_abi: abi, ident: v.ehdr.ident.update(7, abi), ..v.ehdr },
                ..v
            },
        ),
        None => Err(ErrorView::Cli("unrecognized OS ABI"@)),
    }
}

/// Whether an operation gave `want`: the new image, or the error with the image
/// as it was.
pub open spec fn edited(
    res: Result<()>,
    before: ImageView,
    after: ImageView,
    want: Outcome<ImageView>,
) -> bool {
    match res {
        Ok(_) => want == Outcome::Ok(after),
        Err(e) => want == Outcome::<ImageView>::Err(e@) && after == before,
    }
}

/// Set the OS ABI by name.
pub fn set_os_abi(image: &mut ElfImage, name: &str) -> (res: Result<()>)
    ensures
        old(image)@.wf() ==> final(image)@.wf(),
        edited(res, old(image)@, final(image)@, os_abi_set(old(image)@, name@)),
{
    let lower = lower_text(trim_text(name).as_str());
    match parse_os_abi(lower.as_str()) {
        Some(abi) => {
            image.ehdr.ident[7] = abi;
            image.ehdr.os_abi = abi;
            assert(image@ =~= os_abi_set(old(image)@, name@)->Ok_0);
            Ok(())
        },
        None => Err(Error::Cli("unrecognized OS ABI".to_owned())),
    }
}

/// The image with the interpreter's path set.
pub open spec fn interpreter_set(v: ImageView, new: Seq<char>) -> Outcome<ImageView> {
    match v.find_section(".interp"@) {
        Some(k) => Ok(
            ImageView { sections: v.sections.update(k, with_string(Seq::empty(), new)), ..v },
        ),
        None => Err(no_section(".interp"@)),
    }
}

/// Set the interpreter's path.
pub fn set_interpreter(image: &mut ElfImage, new: &str) -> (res: Result<()>)
    requires
        old(image)@.wf(),
    ensures
        final(image)@.wf(),
        edited(res, old(image)@, final(image)@, interpreter_set(old(image)@, new@)),
{
    let ghost v = image@;
    let k = require_section(image, ".interp")?;
    let mut bytes: Vec<u8> = Vec::new();
    dynstr_append(&mut bytes, new);
    image.section_data[k] = bytes;
    assert(contents(image.section_data@) =~= v.sections.update(k as int, bytes@));
    Ok(())
}

/// The image with the soname set: its string goes behind the others, and the first
/// `DT_SONAME` names it, or a new one in front. A soname that the image has already
/// is left where it is. Only shared objects have one; any other file stays as it is.
pub open spec fn soname_set(v: ImageView, name: Seq<char>) -> Outcome<ImageView> {
    if v.ehdr.e_type != et::DYN {
        Ok(v)
    } else if v.dynamic.len() == 0 {
        Err(no_dynamic())
    } else {
        match v.find_section(".dynstr"@) {
            None => Err(no_section(".dynstr"@)),
            Some(s) => {
                let tab = v.sections[s];
                let new = DynEntry { tag: dt::SONAME, val: tab.len() as u64 };
                match first(v.dynamic, has_tag(dt::SONAME)) {
                    Some(k) => if entry_text(tab, v.dynamic[k]) == Some(name) {
                        Ok(v)
                    } else {
                        Ok(
                            ImageView {
                                sections: v.sections.update(s, with_string(tab, name)),
                                dynamic: v.dynamic.update(k, new),
                                ..v
                            },
                        )
                    },
                    None => Ok(
                        ImageView {
                            sections: v.sections.update(s, with_string(tab, name)),
                            dynamic: seq![new] + v.dynamic,
                            ..v
                        },
                    ),
                }
            },
        }
    }
}

/// Set the soname of a shared object.
pub fn set_soname(image: &mut ElfImage, name: &str) -> (res: Result<()>)
    requires
        old(image)@.wf(),
    ensures
        final(image)@.wf(),
        edited(res, old(image)@, final(image)@, soname_set(old(image)@, name@)),
{
    if image.ehdr.e_type != et::DYN {
        return Ok(());
    }
    require_dynamic(image)?;
    let s = dynstr_section(image)?;
    let ghost v = image@;
    match find_tag(&image.dynamic, dt::SONAME) {
        Some(k) => {
            proof {
                crate::seqs::lemma_first_from(v.dynamic, has_tag(dt::SONAME), 0);
            }
            if let Some(t) = dyn_entry_text(image.section_data[s].as_slice(), &image.dynamic[k]) {
                if same_text(t, name) {
                    return Ok(());
                }
            }
            let off = dynstr_append(&mut image.section_data[s], name);
            image.dynamic.set(k, DynEntry { tag: dt::SONAME, val: off });
        },
        None => {
            let off = dynstr_append(&mut image.section_data[s], name);
            dyn_insert_front(image, dt::SONAME, off);
        },
    }
    assert(image@ =~= soname_set(v, name@)->Ok_0);
    Ok(())
}

/// Put an entry at the front of the dynamic array.
fn dyn_insert_front(image: &mut ElfImage, tag: i64, val: u64)
    ensures
        final(image)@ == (ImageView {
            dynamic: seq![DynEntry { tag, val }] + old(image)@.dynamic,
            ..old(image)@
        }),
{
    image.dynamic.insert(0, DynEntry { tag, val });
    assert(image@.dynamic =~= seq![DynEntry { tag, val }] + old(image)@.dynamic);
}

/// The image with `lib` in front of the needed libraries.
pub open spec fn needed_added(v: ImageView, lib: Seq<char>) -> Outcome<ImageView> {
    if v.dynamic.len() == 0 {
        Err(no_dynamic())
    } else {
        match v.find_section(".dynstr"@) {
            None => Err(no_section(".dynstr"@)),
            Some(s) => Ok(
                ImageView {
                    sections: v.sections.update(s, with_string(v.sections[s], lib)),
                    dynamic: seq![
                        DynEntry { tag: dt::NEEDED, val: v.sections[s].len() as u64 },
                    ] + v.dynamic,
                    ..v
                },
            ),
        }
    }
}

/// Add a needed library in front of the others.
pub fn add_needed(image: &mut ElfImage, lib: &str) -> (res: Result<()>)
    requires
        old(image)@.wf(),
    ensures
        final(image)@.wf(),
        edited(res, old(image)@, final(image)@, needed_added(old(image)@, lib@)),
{
    require_dynamic(image)?;
    let s = dynstr_section(image)?;
    let ghost v = image@;
    let off = dynstr_append(&mut image.section_data[s], lib);
    dyn_insert_front(image, dt::NEEDED, off);
    assert(image@ =~= needed_added(v, lib@)->Ok_0);
    Ok(())
}

/// Whether a dynamic entry needs the library `lib`.
pub open spec fn needs(tab: Seq<u8>, lib: Seq<char>) -> spec_fn(DynEntry) -> bool {
    |d: DynEntry| d.tag == dt::NEEDED && entry_text(tab, d) == Some(lib)
}

/// Whether a dynamic entry does not need the library `lib`.
pub open spec fn spares(tab: Seq<u8>, lib: Seq<char>) -> spec_fn(DynEntry) -> bool {
    |d: DynEntry| !(d.tag == dt::NEEDED && entry_text(tab, d) == Some(lib))
}

fn entry_needs(tab: &[u8], d: &DynEntry, lib: &str) -> (b: bool)
    ensures
        b == needs(tab@, lib@)(*d),
        b == !spares(tab@, lib@)(*d),
{
    d.tag == dt::NEEDED && (match dyn_entry_text(tab, d) {
        Some(s) => same_text(s, lib),
        None => false,
    })
}

/// The image without the entries that need `lib`.
pub open spec fn needed_removed(v: ImageView, lib: Seq<char>) -> Outcome<ImageView> {
    if v.dynamic.len() == 0 {
        Err(no_dynamic())
    } else {
        match v.find_section(".dynstr"@) {
            None => Err(no_section(".dynstr"@)),
            Some(s) => Ok(
                ImageView { dynamic: v.dynamic.filter(spares(v.sections[s], lib)), ..v },
            ),
        }
    }
}

/// Remove a needed library.
pub fn remove_needed(image: &mut ElfImage, lib: &str) -> (res: Result<()>)
    requires
        old(image)@.wf(),
    ensures
        final(image)@.wf(),
        edited(res, old(image)@, final(image)@, needed_removed(old(image)@, lib@)),
{
    require_dynamic(image)?;
    let s = dynstr_section(image)?;
    let ghost v = image@;
    let ghost keep = spares(v.sections[s as int], lib@);
    let mut out: Vec<DynEntry> = Vec::new();
    let mut i: usize = 0;
    proof {
        reveal(Seq::filter);
        assert(out@ =~= v.dynamic.take(0).filter(keep));
    }
    while i < image.dynamic.len()
        invariant
            image@ == v,
            v.wf(),
            s < v.sections.len(),
            keep == spares(v.sections[s as int], lib@),
            i <= v.dynamic.len(),
            out@ == v.dynamic.take(i as int).filter(keep),
        decreases v.dynamic.len() - i,
    {
        proof {
            lemma_filter_take(v.dynamic, i as int, keep);
        }
        if !entry_needs(image.section_data[s].as_slice(), &image.dynamic[i], lib) {
            out.push(image.dynamic[i]);
        }
        i += 1;
    }
    assert(v.dynamic.take(v.dynamic.len() as int) =~= v.dynamic);
    image.dynamic = out;
    Ok(())
}

/// The image with every entry that needs `before` made to need `after`. Without
/// such an entry it stays as it is.
pub open spec fn needed_replaced(
    v: ImageView,
    before: Seq<char>,
    after: Seq<char>,
) -> Outcome<ImageView> {
    if v.dynamic.len() == 0 {
        Err(no_dynamic())
    } else {
        match v.find_section(".dynstr"@) {
            None => Err(no_section(".dynstr"@)),
            Some(s) => {
                let tab = v.sections[s];
                if first(v.dynamic, needs(tab, before)) is None {
                    Ok(v)
                } else {
                    Ok(
                        ImageView {
                            sections: v.sections.update(s, with_string(tab, after)),
                            dynamic: Seq::new(
                                v.dynamic.len(),
                                |i: int|
                                    if needs(tab, before)(v.dynamic[i]) {
                                        DynEntry { val: tab.len() as u64, ..v.dynamic[i] }
                                    } else {
                                        v.dynamic[i]
                                    },
                            ),
                            ..v
                        },
                    )
                }
            },
        }
    }
}

/// Replace a needed library by another.
pub fn replace_needed(image: &mut ElfImage, before: &str, after: &str) -> (res: Result<()>)
    requires
        old(image)@.wf(),
    ensures
        final(image)@.wf(),
        edited(res, old(image)@, final(image)@, needed_replaced(old(image)@, before@, after@)),
{
    require_dynamic(image)?;
    let s = dynstr_section(image)?;
    let ghost v = image@;
    let ghost tab = v.sections[s as int];
    let off = image.section_data[s].len() as u64;
    let mut found = false;
    let mut out: Vec<DynEntry> = Vec::new();
    let mut i: usize = 0;
    while i < image.dynamic.len()
        invariant
            image@ == v,
            v.wf(),
            s < v.sections.len(),
            tab == v.sections[s as int],
            off == tab.len(),
            i <= v.dynamic.len(),
            out@.len() == i,
            found == exists|j: int| 0 <= j < i && needs(tab, before@)(#[trigger] v.dynamic[j]),
            forall|j: int|
                0 <= j < i ==> #[trigger] out@[j] == if needs(tab, before@)(v.dynamic[j]) {
                    DynEntry { val: off, ..v.dynamic[j] }
                } else {
                    v.dynamic[j]
                },
        decreases v.dynamic.len() - i,
    {
        let d = image.dynamic[i];
        if entry_needs(image.section_data[s].as_slice(), &d, before) {
            assert(needs(tab, before@)(v.dynamic[i as int]));
            found = true;
            out.push(DynEntry { tag: d.tag, val: off });
        } else {
            out.push(d);
        }
        i += 1;
    }
    proof {
        crate::seqs::lemma_first_from(v.dynamic, needs(tab, before@), 0);
    }
    if found {
        dynstr_append(&mut image.section_data[s], after);
        image.dynamic = out;
        assert(image@ =~= needed_replaced(v, before@, after@)->Ok_0);
    }
    Ok(())
}

/// The image with the default library directories switched off.
pub open spec fn no_default_lib_set(v: ImageView) -> Outcome<ImageView> {
    if v.dynamic.len() == 0 {
        Err(no_dynamic())
    } else {
        match first(v.dynamic, has_tag(dt::FLAGS_1)) {
            Some(k) => Ok(
                ImageView {
                    dynamic: v.dynamic.update(
                        k,
                        DynEntry { val: v.dynamic[k].val | df1::NODEFLIB, ..v.dynamic[k] },
                    ),
                    ..v
                },
            ),
            None => Ok(
                ImageView {
                    dynamic: seq![DynEntry { tag: dt::FLAGS_1, val: df1::NODEFLIB }] + v.dynamic,
                    ..v
                },
            ),
        }
    }
}

/// Switch the default library directories off.
pub fn no_default_lib(image: &mut ElfImage) -> (res: Result<()>)
    ensures
        old(image)@.wf() ==> final(image)@.wf(),
        edited(res, old(image)@, final(image)@, no_default_lib_set(old(image)@)),
{
    require_dynamic(image)?;
    match find_tag(&image.dynamic, dt::FLAGS_1) {
        Some(k) => {
            let d = image.dynamic[k];
            image.dynamic.set(k, DynEntry { tag: d.tag, val: d.val | df1::NODEFLIB });
        },
        None => dyn_insert_front(image, dt::FLAGS_1, df1::NODEFLIB),
    }
    Ok(())
}

/// The image with a `DT_DEBUG` entry.
pub open spec fn debug_tag_added(v: ImageView) -> Outcome<ImageView> {
    if v.dynamic.len() == 0 {
        Err(no_dynamic())
    } else if first(v.dynamic, has_tag(dt::DEBUG)) is Some {
        Ok(v)
    } else {
        Ok(ImageView { dynamic: seq![DynEntry { tag: dt::DEBUG, val: 0 }] + v.dynamic, ..v })
    }
}

/// Add a `DT_DEBUG` entry unless there is one.
pub fn add_debug_tag(image: &mut ElfImage) -> (res: Result<()>)
    ensures
        old(image)@.wf() ==> final(image)@.wf(),
        edited(res, old(image)@, final(image)@, debug_tag_added(old(image)@)),
{
    require_dynamic(image)?;
    if find_tag(&image.dynamic, dt::DEBUG).is_none() {
        dyn_insert_front(image, dt::DEBUG, 0);
    }
    Ok(())
}

/// Segment flags with the executable one set or cleared.
pub open spec fn exec_flag(flags: u32, set: bool) -> u32 {
    if set {
        flags | pf::X
    } else {
        flags & !pf::X
    }
}

fn flip_exec(flags: u32, set: bool) -> (f: u32)
    ensures
        f == exec_flag(flags, set),
{
    if set {
        flags | pf::X
    } else {
        flags & !pf::X
    }
}

/// A stack segment, which has no contents and needs no place.
pub open spec fn stack_segment(set: bool) -> Phdr {
    Phdr {
        p_type: pt::GNU_STACK,
        flags: exec_flag(pf::R | pf::W, set),
        offset: 0,
        vaddr: 0,
        paddr: 0,
        filesz: 0,
        memsz: 0,
        align: 1,
    }
}

/// The image with the stack executable or not: in the stack segment, else in a
/// new one that takes an unused entry or goes behind the others.
pub open spec fn execstack_set(v: ImageView, set: bool) -> ImageView {
    match first(v.phdrs, segment_type(pt::GNU_STACK)) {
        Some(k) => ImageView {
            phdrs: v.phdrs.update(
                k,
                Phdr { flags: exec_flag(v.phdrs[k].flags, set), ..v.phdrs[k] },
            ),
            ..v
        },
        None => match first(v.phdrs, segment_type(pt::NULL)) {
            Some(k) => ImageView { phdrs: v.phdrs.update(k, stack_segment(set)), ..v },
            None => ImageView { phdrs: v.phdrs.push(stack_segment(set)), ..v },
        },
    }
}

/// Make the stack executable or not.
pub fn modify_execstack(image: &mut ElfImage, set: bool)
    ensures
        old(image)@.wf() ==> final(image)@.wf(),
        final(image)@ == execstack_set(old(image)@, set),
{
    if let Some(k) = find_segment_type(&image.phdrs, pt::GNU_STACK) {
        let mut p = image.phdrs[k];
        p.flags = flip_exec(p.flags, set);
        image.phdrs.set(k, p);
        return;
    }
    let new = Phdr {
        p_type: pt::GNU_STACK,
        flags: flip_exec(pf::R | pf::W, set),
        offset: 0,
        vaddr: 0,
        paddr: 0,
        filesz: 0,
        memsz: 0,
        align: 1,
    };
    match find_segment_type(&image.phdrs, pt::NULL) {
        Some(k) => image.phdrs.set(k, new),
        None => image.phdrs.push(new),
    }
}

/// Length of a symbol.
pub open spec fn sym_len(class: Class) -> int {
    match class {
        Class::Elf64 => 24,
        Class::Elf32 => 16,
    }
}

pub(crate) fn sym_size(class: Class) -> (n: usize)
    ensures
        n == sym_len(class),
{
    match class {
        Class::Elf64 => 24,
        Class::Elf32 => 16,
    }
}

/// Number of whole symbols in a symbol table.
pub open spec fn sym_count(class: Class, dynsym: Seq<u8>) -> int {
    dynsym.len() as int / sym_len(class)
}

/// Offset of the name of symbol `i`, which is the first field of a symbol.
pub open spec fn sym_name_offset(v: ImageView, dynsym: Seq<u8>, i: int) -> u32 {
    u32_at(v.enc.endian, dynsym, i * sym_len(v.enc.class))
}

/// Whether symbol `i` is named `sym`.
pub open spec fn sym_is(
    v: ImageView,
    dynsym: Seq<u8>,
    dynstr: Seq<u8>,
    sym: Seq<char>,
    i: int,
) -> bool {
    c_text(dynstr, sym_name_offset(v, dynsym, i) as int) == Some(sym)
}

/// The image with the version of every symbol named `sym` set to the global one.
pub open spec fn version_cleared(v: ImageView, sym: Seq<char>) -> Outcome<ImageView> {
    match (v.find_section(".dynsym"@), v.find_section(".dynstr"@), v.find_section(".gnu.version"@)) {
        (None, _, _) => Err(no_section(".dynsym"@)),
        (_, None, _) => Err(no_section(".dynstr"@)),
        (_, _, None) => Err(no_section(".gnu.version"@)),
        (Some(y), Some(s), Some(k)) => {
            let count = sym_count(v.enc.class, v.sections[y]);
            let old_versions = v.sections[k];
            if old_versions.len() < count * 2 {
                Err(ErrorView::Parse("versym smaller than dynsym"@))
            } else {
                let versions = Seq::new(
                    old_versions.len(),
                    |b: int|
                        if b / 2 < count && sym_is(v, v.sections[y], v.sections[s], sym, b / 2) {
                            u16_bytes(v.enc.endian, 1)[b % 2]
                        } else {
                            old_versions[b]
                        },
                );
                Ok(ImageView { sections: v.sections.update(k, versions), ..v })
            }
        },
    }
}

/// Set the version of every dynamic symbol named `sym` to the global one.
pub fn clear_symbol_version(image: &mut ElfImage, sym: &str) -> (res: Result<()>)
    requires
        old(image)@.wf(),
    ensures
        final(image)@.wf(),
        edited(res, old(image)@, final(image)@, version_cleared(old(image)@, sym@)),
{
    let y = require_section(image, ".dynsym")?;
    let s = dynstr_section(image)?;
    let k = require_section(image, ".gnu.version")?;
    let ghost v = image@;
    proof {
        reveal_strlit(".dynsym");
        reveal_strlit(".dynstr");
        reveal_strlit(".gnu.version");
        assert(".dynsym"@.len() != ".gnu.version"@.len());
        assert(".dynstr"@.len() != ".gnu.version"@.len());
    }
    let e = image.enc.endian;
    let size: usize = sym_size(image.enc.class);
    let total: usize = image.section_data[y].len();
    let count: usize = total / size;
    let ghost dynsym = v.sections[y as int];
    let ghost dynstr = v.sections[s as int];
    let ghost old_versions = v.sections[k as int];
    assert(count * size <= dynsym.len()) by (nonlinear_arith)
        requires
            count == dynsym.len() as int / size as int,
            size > 0,
    ;
    assert(count <= count * size) by (nonlinear_arith)
        requires
            size >= 1,
    ;
    if image.section_data[k].len() / 2 < count {
        return Err(Error::Parse("versym smaller than dynsym".to_owned()));
    }
    proof {
        crate::bytes::lemma_widths(e);
    }
    let mut versions = copy_bytes(image.section_data[k].as_slice());
    let mut i: usize = 0;
    while i < count
        invariant
            image@ == v,
            v.wf(),
            y < v.sections.len(),
            s < v.sections.len(),
            e == v.enc.endian,
            size == sym_len(v.enc.class),
            dynsym == v.sections[y as int],
            dynstr == v.sections[s as int],
            count * size <= total,
            total == dynsym.len(),
            count * 2 <= old_versions.len(),
            u16_bytes(e, 1).len() == 2,
            versions@.len() == old_versions.len(),
            i <= count,
            forall|b: int|
                0 <= b < old_versions.len() ==> #[trigger] versions@[b] == if b / 2 < i && sym_is(
                    v,
                    dynsym,
                    dynstr,
                    sym@,
                    b / 2,
                ) {
                    u16_bytes(e, 1)[b % 2]
                } else {
                    old_versions[b]
                },
        decreases count - i,
    {
        assert(image@.sections[y as int] == image.section_data@[y as int]@);
        assert(image@.sections[s as int] == image.section_data@[s as int]@);
        assert((i + 1) * size <= count * size) by (nonlinear_arith)
            requires
                i + 1 <= count,
        ;
        assert((i + 1) * size == i * size + size) by (nonlinear_arith);
        let name: u32 = e.read_u32(image.section_data[y].as_slice(), i * size);
        let hit = match cstr(image.section_data[s].as_slice(), name) {
            Some(t) => same_text(t, sym),
            None => false,
        };
        let ghost before = versions@;
        if hit {
            e.write_u16(&mut versions, i * 2, 1);
        }
        assert forall|b: int| 0 <= b < old_versions.len() implies #[trigger] versions@[b] == if b
            / 2 < i + 1 && sym_is(v, dynsym, dynstr, sym@, b / 2) {
            u16_bytes(e, 1)[b % 2]
        } else {
            old_versions[b]
        } by {
            assert(before[b] == before[b]);
        }
        i += 1;
    }
    assert(versions@ =~= version_cleared(v, sym@)->Ok_0.sections[k as int]);
    image.section_data[k] = versions;
    assert(image@.sections =~= version_cleared(v, sym@)->Ok_0.sections);
    Ok(())
}

/// A [`Report`] with its texts as sequences.
pub struct ReportView {
    pub lines: Seq<Seq<char>>,
    pub warnings: Seq<Seq<char>>,
}

impl View for Report {
    type V = ReportView;

    open spec fn view(&self) -> ReportView {
        ReportView { lines: texts(self.lines@), warnings: texts(self.warnings@) }
    }
}

impl ReportView {
    /// The report with one more line.
    pub open spec fn with(self, line: Seq<char>) -> ReportView {
        ReportView { lines: self.lines.push(line), ..self }
    }
}

impl Report {
    fn push(&mut self, line: String)
        ensures
            final(self)@ == old(self)@.with(line@),
    {
        let ghost before = texts(self.lines@);
        self.lines.push(line);
        assert(texts(self.lines@) =~= before.push(line@));
    }

    fn warn(&mut self, text: String)
        ensures
            final(self)@ == (ReportView {
                warnings: old(self)@.warnings.push(text@),
                ..old(self)@
            }),
    {
        let ghost before = texts(self.warnings@);
        self.warnings.push(text);
        assert(texts(self.warnings@) =~= before.push(text@));
    }
}

/// [`Modifiers`] with their texts as sequences.
pub struct ModifiersView {
    pub force_rpath: bool,
    pub allowed_rpath_prefixes: Seq<Seq<char>>,
    pub debug: bool,
}

impl View for Modifiers {
    type V = ModifiersView;

    open spec fn view(&self) -> ModifiersView {
        ModifiersView {
            force_rpath: self.force_rpath,
            allowed_rpath_prefixes: texts(self.allowed_rpath_prefixes@),
            debug: self.debug,
        }
    }
}

/// What an operation is told of the files around the edited one.
#[derive(Debug)]
pub struct Surroundings {
    /// What is at the paths that [`probes`] asks about.
    pub files: Vec<FileFact>,
    /// The text of the rename map, or why it cannot be read.
    pub symbol_map: std::result::Result<String, String>,
}

/// [`Surroundings`] with their texts as sequences.
pub struct SurroundingsView {
    pub files: Seq<FactView>,
    pub symbol_map: std::result::Result<Seq<char>, Seq<char>>,
}

impl View for Surroundings {
    type V = SurroundingsView;

    open spec fn view(&self) -> SurroundingsView {
        SurroundingsView {
            files: fact_views(self.files@),
            symbol_map: match self.symbol_map {
                Ok(t) => Ok(t@),
                Err(e) => Err(e@),
            },
        }
    }
}

/// The outcome of an operation that only says `line`.
pub open spec fn printed(
    v: ImageView,
    r: ReportView,
    line: Outcome<Seq<char>>,
) -> Outcome<(ImageView, ReportView)> {
    match line {
        Ok(t) => Ok((v, r.with(t))),
        Err(e) => Err(e),
    }
}

/// The outcome of an operation that only edits.
pub open spec fn only_edited(
    r: ReportView,
    w: Outcome<ImageView>,
) -> Outcome<(ImageView, ReportView)> {
    match w {
        Ok(w) => Ok((w, r)),
        Err(e) => Err(e),
    }
}

/// The image with its symbols renamed by the map in a file.
pub open spec fn renamed_by_file(
    v: ImageView,
    path: Seq<u8>,
    map: std::result::Result<Seq<char>, Seq<char>>,
) -> Outcome<ImageView> {
    match map {
        Err(source) => Err(ErrorView::Io { path, source }),
        Ok(text) => match symbol_map(text) {
            Err(e) => Err(e),
            Ok(pairs) => symbols_renamed(v, pairs),
        },
    }
}

/// What an operation makes of an image and a report.
pub open spec fn applied(
    v: ImageView,
    r: ReportView,
    op: OperationView,
    mods: ModifiersView,
    around: SurroundingsView,
) -> Outcome<(ImageView, ReportView)> {
    match op {
        OperationView::PrintInterpreter => printed(v, r, interpreter_of(v)),
        OperationView::PrintOsAbi => Ok((v, r.with(os_abi_text(v.ehdr.os_abi)))),
        OperationView::PrintSoname => match soname_of(v) {
            Some(s) => Ok((v, r.with(s))),
            None => Ok((v, r)),
        },
        OperationView::PrintRpath => printed(v, r, run_path(v)),
        OperationView::PrintNeeded => match needed_of(v) {
            Ok(libs) => Ok((v, ReportView { lines: r.lines + libs, ..r })),
            Err(e) => Err(e),
        },
        OperationView::PrintExecstack => Ok((v, r.with("execstack: "@.push(execstack_of(v))))),
        OperationView::RemoveRpath => Ok((run_path_removed(v), r)),
        OperationView::SetRpath(p) => only_edited(r, run_path_set(v, p, mods.force_rpath)),
        OperationView::AddRpath(p) => only_edited(r, run_path_added(v, p, mods.force_rpath)),
        OperationView::ShrinkRpath => only_edited(
            r,
            run_path_shrunk(v, mods.allowed_rpath_prefixes, mods.force_rpath, around.files),
        ),
        OperationView::ForceRpath => Ok((v, r)),
        OperationView::AllowedRpathPrefixes(_) => Ok((v, r)),
        OperationView::SetInterpreter(p) => only_edited(r, interpreter_set(v, p)),
        OperationView::SetSoname(s) => only_edited(r, soname_set(v, s)),
        OperationView::AddNeeded(l) => only_edited(r, needed_added(v, l)),
        OperationView::RemoveNeeded(l) => only_edited(r, needed_removed(v, l)),
        OperationView::ReplaceNeeded { before, after } => only_edited(
            r,
            needed_replaced(v, before, after),
        ),
        OperationView::SetOsAbi(n) => only_edited(r, os_abi_set(v, n)),
        OperationView::NoDefaultLib => only_edited(r, no_default_lib_set(v)),
        OperationView::AddDebugTag => only_edited(r, debug_tag_added(v)),
        OperationView::ClearExecstack => Ok((execstack_set(v, false), r)),
        OperationView::SetExecstack => Ok((execstack_set(v, true), r)),
        OperationView::ClearSymbolVersion(s) => only_edited(r, version_cleared(v, s)),
        OperationView::RenameDynamicSymbols(p) => only_edited(
            r,
            renamed_by_file(v, p, around.symbol_map),
        ),
        OperationView::BuildResolutionCache => match cache_built(v, around.files) {
            Err(e) => Err(e),
            Ok((w, None)) => Ok((w, r)),
            Ok((w, Some(t))) => Ok((w, ReportView { warnings: r.warnings.push(t), ..r })),
        },
    }
}

fn print_needed(image: &ElfImage, report: &mut Report) -> (res: Result<()>)
    ensures
        match res {
            Ok(_) => needed_of(image@) matches Ok(libs) && final(report)@ == (ReportView {
                lines: old(report)@.lines + libs,
                ..old(report)@
            }),
            Err(e) => needed_of(image@) == Outcome::<Seq<Seq<char>>>::Err(e@) && final(report)@
                == old(report)@,
        },
{
    let libs = needed(image)?;
    let ghost all = texts(libs@);
    let ghost start = report@;
    let mut i: usize = 0;
    assert(start.lines + all.take(0) =~= start.lines);
    while i < libs.len()
        invariant
            all == texts(libs@),
            i <= libs@.len(),
            report@ == (ReportView { lines: start.lines + all.take(i as int), ..start }),
        decreases libs@.len() - i,
    {
        let ghost before = report@;
        report.push(libs[i].clone());
        assert(report@.lines =~= start.lines + all.take(i + 1));
        i += 1;
    }
    assert(all.take(all.len() as int) =~= all);
    Ok(())
}

fn rename_by_file(
    image: &mut ElfImage,
    path: &PathBuf,
    map: &std::result::Result<String, String>,
    Ghost(view): Ghost<std::result::Result<Seq<char>, Seq<char>>>,
) -> (res: Result<()>)
    requires
        old(image)@.wf(),
        match (*map, view) {
            (Ok(t), Ok(s)) => t@ == s,
            (Err(t), Err(s)) => t@ == s,
            _ => false,
        },
    ensures
        final(image)@.wf(),
        edited(
            res,
            old(image)@,
            final(image)@,
            renamed_by_file(old(image)@, path_bytes(*path), view),
        ),
{
    match map {
        Ok(text) => {
            let pairs = parse_symbol_map(text.as_str())?;
            rename_dynamic_symbols(image, &pairs)
        },
        Err(source) => Err(Error::Io { path: path.clone(), source: source.clone() }),
    }
}

/// Perform one operation. An operation that fails changes neither the image nor
/// the report.
#[verifier::rlimit(40)]
pub fn apply(
    image: &mut ElfImage,
    op: &Operation,
    mods: &Modifiers,
    around: &Surroundings,
    report: &mut Report,
) -> (res: Result<()>)
    requires
        old(image)@.wf(),
    ensures
        final(image)@.wf(),
        match res {
            Ok(_) => applied(old(image)@, old(report)@, op@, mods@, around@) == Outcome::Ok(
                (final(image)@, final(report)@),
            ),
            Err(e) => applied(old(image)@, old(report)@, op@, mods@, around@) == Outcome::<
                (ImageView, ReportView),
            >::Err(e@) && final(image)@ == old(image)@ && final(report)@ == old(report)@,
        },
{
    match op {
        Operation::PrintInterpreter => report.push(interpreter(image)?),
        Operation::PrintOsAbi => report.push(os_abi_name(image.ehdr.os_abi)),
        Operation::PrintSoname => match soname(image) {
            Some(s) => report.push(s),
            None => {},
        },
        Operation::PrintRpath => report.push(crate::rpath::read(image)?),
        Operation::PrintNeeded => print_needed(image, report)?,
        Operation::PrintExecstack => {
            let mut line = "execstack: ".to_owned();
            line.push(execstack(image));
            report.push(line);
        },
        Operation::RemoveRpath => crate::rpath::remove(image),
        Operation::SetRpath(path) => crate::rpath::set(image, path.as_str(), mods.force_rpath)?,
        Operation::AddRpath(path) => crate::rpath::add(image, path.as_str(), mods.force_rpath)?,
        Operation::ShrinkRpath => crate::rpath::shrink(image, mods, &around.files)?,
        Operation::ForceRpath => {},
        Operation::AllowedRpathPrefixes(_) => {},
        Operation::SetInterpreter(path) => set_interpreter(image, path.as_str())?,
        Operation::SetSoname(name) => set_soname(image, name.as_str())?,
        Operation::AddNeeded(lib) => add_needed(image, lib.as_str())?,
        Operation::RemoveNeeded(lib) => remove_needed(image, lib.as_str())?,
        Operation::ReplaceNeeded { old, new } => replace_needed(
            image,
            old.as_str(),
            new.as_str(),
        )?,
        Operation::SetOsAbi(name) => set_os_abi(image, name.as_str())?,
        Operation::NoDefaultLib => no_default_lib(image)?,
        Operation::AddDebugTag => add_debug_tag(image)?,
        Operation::ClearExecstack => modify_execstack(image, false),
        Operation::SetExecstack => modify_execstack(image, true),
        Operation::ClearSymbolVersion(sym) => clear_symbol_version(image, sym.as_str())?,
        Operation::RenameDynamicSymbols(path) => rename_by_file(
            image,
            path,
            &around.symbol_map,
            Ghost(around@.symbol_map),
        )?,
        Operation::BuildResolutionCache => match crate::ldcache::build(image, &around.files)? {
            Some(text) => report.warn(text),
            None => {},
        },
    }
    Ok(())
}

} // verus!
