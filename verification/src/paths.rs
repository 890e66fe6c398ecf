//! Paths, which need not be text, as the bytes that they are made of.
use std::path::PathBuf;

use vstd::prelude::*;
use vstd::utf8::{decode_utf8, encode_utf8, valid_utf8};

use crate::ir::contents;
use crate::seqs::{first, lemma_first_is, lemma_first_none};
use crate::text::{same_bytes, text_of, utf8_text};

verus! {

/// `std::path::PathBuf`, carried through as it came.
#[verifier::external_type_specification]
#[verifier::external_body]
pub struct ExPathBuf(std::path::PathBuf);

/// The encoded bytes of a path. Those of a path that is text are its UTF-8.
pub uninterp spec fn path_bytes(p: PathBuf) -> Seq<u8>;

pub open spec fn path_list(v: Seq<PathBuf>) -> Seq<Seq<u8>> {
    Seq::new(v.len(), |i: int| path_bytes(v[i]))
}

pub open spec fn path_opt(p: Option<PathBuf>) -> Option<Seq<u8>> {
    match p {
        Some(p) => Some(path_bytes(p)),
        None => None,
    }
}

/// `PathBuf::from` makes a path of the text as it stands.
#[verifier::external_body]
pub(crate) fn path_of(s: &str) -> (p: PathBuf)
    ensures
        path_bytes(p) == encode_utf8(s@),
{
    PathBuf::from(s)
}

/// `PathBuf::clone` makes the same path again.
pub assume_specification[ <PathBuf as Clone>::clone ](p: &PathBuf) -> (q: PathBuf)
    ensures
        path_bytes(q) == path_bytes(*p),
;

/// `OsStr::as_encoded_bytes` gives the bytes of a path.
#[verifier::external_body]
pub(crate) fn bytes_of_path(p: &PathBuf) -> (b: Vec<u8>)
    ensures
        b@ == path_bytes(*p),
{
    p.as_os_str().as_encoded_bytes().to_vec()
}

/// The text of bytes that are not UTF-8, with replacement characters in them.
pub uninterp spec fn mended(b: Seq<u8>) -> Seq<char>;

/// The text of bytes that need not be UTF-8.
pub open spec fn lossy(b: Seq<u8>) -> Seq<char> {
    if valid_utf8(b) {
        decode_utf8(b)
    } else {
        mended(b)
    }
}

/// `String::from_utf8_lossy` gives valid UTF-8 as it is; what it makes of other
/// bytes depends on the bytes alone.
#[verifier::external_body]
pub(crate) fn lossy_text(b: &[u8]) -> (s: String)
    ensures
        s@ == if valid_utf8(b@) {
            decode_utf8(b@)
        } else {
            mended(b@)
        },
{
    String::from_utf8_lossy(b).into_owned()
}

/// The text of a path that is text.
pub fn path_text(p: &PathBuf) -> (res: Option<String>)
    ensures
        match res {
            Some(s) => utf8_text(path_bytes(*p)) == Some(s@),
            None => utf8_text(path_bytes(*p)) is None,
        },
{
    match text_of(bytes_of_path(p).as_slice()) {
        Some(s) => Some(s.to_owned()),
        None => None,
    }
}

/// The text of a path, with replacement characters for what is not text.
pub fn path_lossy(p: &PathBuf) -> (s: String)
    ensures
        s@ == lossy(path_bytes(*p)),
{
    lossy_text(bytes_of_path(p).as_slice())
}

/// Being the separator of a path.
pub open spec fn is_slash() -> spec_fn(u8) -> bool {
    |b: u8| b == 0x2f
}

/// The components of a path, or of what is left of it behind a separator. Repeated
/// and trailing separators make none, nor does a dot but at the start of the path.
pub open spec fn components(b: Seq<u8>, at_start: bool) -> Seq<Seq<u8>>
    decreases b.len(),
{
    match first(b, is_slash()) {
        None => with_component(b, at_start, Seq::empty()),
        Some(k) => if 0 <= k < b.len() {
            with_component(b.take(k), at_start, components(b.skip(k + 1), false))
        } else {
            Seq::empty()
        },
    }
}

/// `rest` with what stands before it in front, where that is a component.
pub open spec fn with_component(head: Seq<u8>, at_start: bool, rest: Seq<Seq<u8>>) -> Seq<Seq<u8>> {
    if head.len() == 0 || (head == seq![0x2eu8] && !at_start) {
        rest
    } else {
        seq![head] + rest
    }
}

/// The place that a path leads to, as far as its text tells: whether it starts at
/// the root, and its components.
pub open spec fn place_of(b: Seq<u8>) -> (bool, Seq<Seq<u8>>) {
    (b.len() > 0 && b[0] == 0x2f, components(b, true))
}

pub open spec fn place_list(v: Seq<PathBuf>) -> Seq<(bool, Seq<Seq<u8>>)> {
    Seq::new(v.len(), |i: int| place_of(path_bytes(v[i])))
}

/// The end of the component that starts at `at`.
fn component_end(b: &Vec<u8>, at: usize) -> (end: usize)
    requires
        at <= b@.len(),
    ensures
        at <= end <= b@.len(),
        first(b@.skip(at as int), is_slash()) == if end < b@.len() {
            Some(end - at)
        } else {
            None
        },
{
    let mut end: usize = at;
    while end < b.len() && b[end] != 0x2f
        invariant
            at <= end <= b@.len(),
            forall|j: int| at <= j < end ==> b@[j] != 0x2f,
        decreases b@.len() - end,
    {
        end += 1;
    }
    proof {
        let rest = b@.skip(at as int);
        assert forall|j: int| 0 <= j < end - at implies !is_slash()(#[trigger] rest[j]) by {
            assert(rest[j] == b@[at + j]);
        }
        if end < b@.len() {
            assert(rest[end - at] == b@[end as int]);
            lemma_first_is(rest, is_slash(), 0, end - at);
        } else {
            lemma_first_none(rest, is_slash(), 0);
        }
    }
    end
}

/// The components of a path.
fn components_of(b: &Vec<u8>) -> (v: Vec<Vec<u8>>)
    ensures
        contents(v@) == components(b@, true),
{
    let mut v: Vec<Vec<u8>> = Vec::new();
    let mut at: usize = 0;
    assert(b@.skip(0) =~= b@);
    assert(contents(v@) + components(b@, true) =~= components(b@, true));
    loop
        invariant_except_break
            contents(v@) + components(b@.skip(at as int), at == 0) == components(b@, true),
        invariant
            at <= b@.len(),
        ensures
            contents(v@) == components(b@, true),
        decreases b@.len() - at,
    {
        let end = component_end(b, at);
        let dot = end - at == 1 && b[at] == 0x2e;
        let ghost rest = b@.skip(at as int);
        let ghost head = b@.subrange(at as int, end as int);
        let ghost before = contents(v@);
        proof {
            assert(rest.take(end - at) =~= head);
            assert((head =~= seq![0x2eu8]) <==> dot);
        }
        if end > at && (at == 0 || !dot) {
            let mut part: Vec<u8> = Vec::new();
            part.extend_from_slice(vstd::slice::slice_subrange(b.as_slice(), at, end));
            assert(part@ =~= head);
            v.push(part);
            assert(contents(v@) =~= before + seq![head]);
        } else {
            assert(before + Seq::<Seq<u8>>::empty() =~= before);
        }
        if end == b.len() {
            proof {
                assert(rest =~= head);
                assert(seq![head] + Seq::<Seq<u8>>::empty() =~= seq![head]);
                assert(contents(v@) =~= before + components(rest, at == 0));
            }
            break;
        }
        proof {
            assert(rest.skip(end - at + 1) =~= b@.skip(end + 1));
            let more = components(b@.skip(end + 1), false);
            assert(contents(v@) + more =~= before + with_component(head, at == 0, more));
        }
        at = end + 1;
    }
    v
}

/// Whether two paths lead to the same place, as far as their text tells.
pub fn same_place(p: &PathBuf, q: &PathBuf) -> (b: bool)
    ensures
        b == (place_of(path_bytes(*p)) == place_of(path_bytes(*q))),
{
    let x = bytes_of_path(p);
    let y = bytes_of_path(q);
    let rooted = x.len() > 0 && x[0] == 0x2f;
    if rooted != (y.len() > 0 && y[0] == 0x2f) {
        return false;
    }
    let a = components_of(&x);
    let b = components_of(&y);
    if a.len() != b.len() {
        return false;
    }
    let mut i: usize = 0;
    while i < a.len()
        invariant
            i <= a@.len() == b@.len(),
            contents(a@) == components(x@, true),
            contents(b@) == components(y@, true),
            x@ == path_bytes(*p),
            y@ == path_bytes(*q),
            forall|j: int| 0 <= j < i ==> #[trigger] contents(a@)[j] == contents(b@)[j],
        decreases a@.len() - i,
    {
        if !same_bytes(a[i].as_slice(), b[i].as_slice()) {
            assert(contents(a@)[i as int] != contents(b@)[i as int]);
            return false;
        }
        i += 1;
    }
    assert(contents(a@) =~= contents(b@));
    true
}

} // verus!
