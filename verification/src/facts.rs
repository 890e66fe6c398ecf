//! What is known of the files around the one that is edited. The library never
//! looks at the disk: it says which paths matter and is told what is there.
use vstd::prelude::*;

use crate::bytes::u16_at;
use crate::ir::Endian;
use crate::seqs::{first, first_from};
use crate::text::{concat, concat3, same_text};

verus! {

/// What is at a path. A path of which nothing is told counts as absent.
#[derive(Debug, Clone)]
pub struct FileFact {
    pub path: String,
    /// Whether anything is there.
    pub exists: bool,
    /// Whether it can be opened for reading.
    pub opens: bool,
    /// The leading bytes, as many as could be read.
    pub head: Vec<u8>,
}

/// A [`FileFact`] with its path and bytes as sequences.
pub struct FactView {
    pub path: Seq<char>,
    pub exists: bool,
    pub opens: bool,
    pub head: Seq<u8>,
}

impl View for FileFact {
    type V = FactView;

    open spec fn view(&self) -> FactView {
        FactView { path: self.path@, exists: self.exists, opens: self.opens, head: self.head@ }
    }
}

pub open spec fn fact_views(v: Seq<FileFact>) -> Seq<FactView> {
    Seq::new(v.len(), |i: int| v[i]@)
}

/// Being about the path `path`.
pub open spec fn about(path: Seq<char>) -> spec_fn(FactView) -> bool {
    |f: FactView| f.path == path
}

/// The first fact about `path`.
pub open spec fn fact_at(facts: Seq<FactView>, path: Seq<char>) -> Option<FactView> {
    match first(facts, about(path)) {
        Some(k) => Some(facts[k]),
        None => None,
    }
}

/// Whether anything is at `path`.
pub open spec fn exists_at(facts: Seq<FactView>, path: Seq<char>) -> bool {
    fact_at(facts, path) matches Some(f) && f.exists
}

/// Whether what is at `path` can be opened.
pub open spec fn opens_at(facts: Seq<FactView>, path: Seq<char>) -> bool {
    fact_at(facts, path) matches Some(f) && f.opens
}

/// The machine that the leading bytes of an ELF file name.
pub open spec fn machine_in(head: Seq<u8>) -> Option<u16> {
    if head.len() < 20 || head[0] != 0x7f || head[1] != 0x45 || head[2] != 0x4c || head[3] != 0x46 {
        None
    } else if head[5] == 1 {
        Some(u16_at(Endian::Little, head, 18))
    } else {
        Some(u16_at(Endian::Big, head, 18))
    }
}

/// The machine of the ELF file at `path`.
pub open spec fn machine_at(facts: Seq<FactView>, path: Seq<char>) -> Option<u16> {
    match fact_at(facts, path) {
        Some(f) => machine_in(f.head),
        None => None,
    }
}

/// `name` in the directory `dir`; an absolute name stands for itself.
pub open spec fn joined(dir: Seq<char>, name: Seq<char>) -> Seq<char> {
    if name.len() > 0 && name[0] == '/' || dir.len() == 0 {
        name
    } else if dir.last() == '/' {
        dir + name
    } else {
        dir + "/"@ + name
    }
}

/// The first fact about `path`.
pub fn find_fact<'a>(facts: &'a Vec<FileFact>, path: &str) -> (res: Option<&'a FileFact>)
    ensures
        match res {
            Some(f) => fact_at(fact_views(facts@), path@) == Some(f@),
            None => fact_at(fact_views(facts@), path@) is None,
        },
{
    let mut i: usize = 0;
    let ghost views = fact_views(facts@);
    while i < facts.len()
        invariant
            views == fact_views(facts@),
            i <= facts@.len(),
            first(views, about(path@)) == first_from(views, about(path@), i as int),
        decreases facts@.len() - i,
    {
        assert(views[i as int] == facts@[i as int]@);
        if same_text(facts[i].path.as_str(), path) {
            return Some(&facts[i]);
        }
        i += 1;
    }
    None
}

/// The machine that the leading bytes of an ELF file name.
pub fn elf_machine(head: &[u8]) -> (res: Option<u16>)
    ensures
        res == machine_in(head@),
{
    if head.len() < 20 || head[0] != 0x7f || head[1] != 0x45 || head[2] != 0x4c || head[3] != 0x46 {
        return None;
    }
    if head[5] == 1 {
        Some(Endian::Little.read_u16(head, 18))
    } else {
        Some(Endian::Big.read_u16(head, 18))
    }
}

/// The machine of the ELF file at `path`.
pub fn machine_of(facts: &Vec<FileFact>, path: &str) -> (res: Option<u16>)
    ensures
        res == machine_at(fact_views(facts@), path@),
{
    match find_fact(facts, path) {
        Some(f) => elf_machine(f.head.as_slice()),
        None => None,
    }
}

/// `name` in the directory `dir`.
pub fn join_path(dir: &str, name: &str) -> (p: String)
    ensures
        p@ == joined(dir@, name@),
{
    if dir.is_empty() || starts_with_slash(name) {
        return name.to_owned();
    }
    let chars = crate::text::chars_of(dir);
    if chars[chars.len() - 1] == '/' {
        concat(dir, name)
    } else {
        concat3(dir, "/", name)
    }
}

/// Whether a path is absolute.
pub fn starts_with_slash(s: &str) -> (b: bool)
    ensures
        b == (s@.len() > 0 && s@[0] == '/'),
{
    let chars = crate::text::chars_of(s);
    chars.len() > 0 && chars[0] == '/'
}

} // verus!
