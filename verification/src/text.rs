//! Text: numbers in a radix, splitting and joining, and the few functions of
//! `std` on strings that the rest of the library calls.
use vstd::prelude::*;
use vstd::string::StringExecFns;
use vstd::utf8::{decode_utf8, encode_utf8, valid_utf8};

use crate::seqs::lemma_filter_take;

verus! {

/// `core::str::Utf8Error`, which [`core::str::from_utf8`] fails with.
#[verifier::external_type_specification]
#[verifier::external_body]
pub struct ExUtf8Error(core::str::Utf8Error);

/// `core::str::from_utf8` accepts exactly the valid UTF-8 sequences, and the
/// string that it gives has the bytes that it was given.
pub assume_specification[ core::str::from_utf8 ](v: &[u8]) -> (res: std::result::Result<
    &str,
    core::str::Utf8Error,
>)
    ensures
        res is Ok <==> valid_utf8(v@),
        res matches Ok(s) ==> encode_utf8(s@) == v@,
;

/// `String::push` appends one character.
pub assume_specification[ String::push ](s: &mut String, c: char)
    ensures
        final(s)@ == old(s)@.push(c),
;

/// The text of a list of strings.
pub open spec fn texts(v: Seq<String>) -> Seq<Seq<char>> {
    Seq::new(v.len(), |i: int| v[i]@)
}

/// The text that `b` encodes, when it is UTF-8.
pub open spec fn utf8_text(b: Seq<u8>) -> Option<Seq<char>> {
    if valid_utf8(b) {
        Some(decode_utf8(b))
    } else {
        None
    }
}

/// A byte sequence that encodes `t` decodes to `t`, and no other does.
pub proof fn lemma_utf8_text(b: Seq<u8>, t: Seq<char>)
    ensures
        utf8_text(b) == Some(t) <==> b == encode_utf8(t),
{
    vstd::utf8::encode_utf8_decode_utf8(t);
    vstd::utf8::encode_utf8_valid_utf8(t);
    if valid_utf8(b) {
        vstd::utf8::decode_utf8_encode_utf8(b);
    }
}

/// The text of a byte sequence, or nothing when it is not UTF-8.
pub fn text_of(b: &[u8]) -> (res: Option<&str>)
    ensures
        res is Some <==> utf8_text(b@) is Some,
        res matches Some(s) ==> s@ == utf8_text(b@).unwrap(),
{
    match core::str::from_utf8(b) {
        Ok(s) => {
            proof {
                lemma_utf8_text(b@, s@);
            }
            Some(s)
        },
        Err(_) => None,
    }
}

/// Whether two byte slices hold the same bytes.
pub fn same_bytes(a: &[u8], b: &[u8]) -> (r: bool)
    ensures
        r == (a@ == b@),
{
    if a.len() != b.len() {
        return false;
    }
    let mut i: usize = 0;
    while i < a.len()
        invariant
            a@.len() == b@.len(),
            i <= a@.len(),
            forall|j: int| 0 <= j < i ==> a@[j] == b@[j],
        decreases a@.len() - i,
    {
        if a[i] != b[i] {
            return false;
        }
        i += 1;
    }
    assert(a@ =~= b@);
    true
}

/// Whether two strings hold the same text.
pub fn same_text(a: &str, b: &str) -> (r: bool)
    ensures
        r == (a@ == b@),
{
    proof {
        vstd::utf8::encode_utf8_decode_utf8(a@);
        vstd::utf8::encode_utf8_decode_utf8(b@);
    }
    same_bytes(a.as_bytes(), b.as_bytes())
}

/// The digit for `d`, `0` to `9` then `a` to `f`.
pub open spec fn digit(d: int) -> char {
    if d < 10 {
        (0x30 + d) as char
    } else {
        (0x57 + d) as char
    }
}

/// `n` written in `radix` without leading zeros.
pub open spec fn radix_text(n: int, radix: int) -> Seq<char>
    decreases n,
    when 2 <= radix && 0 <= n
    via radix_text_decreases
{
    if n < radix {
        seq![digit(n)]
    } else {
        radix_text(n / radix, radix).push(digit(n % radix))
    }
}

#[via_fn]
proof fn radix_text_decreases(n: int, radix: int) {
    if n >= radix {
        assert(0 <= n / radix < n) by (nonlinear_arith)
            requires
                2 <= radix <= n,
        ;
    }
}

fn digit_char(d: u8) -> (c: char)
    requires
        d < 16,
    ensures
        c == digit(d as int),
{
    if d < 10 {
        (0x30 + d) as char
    } else {
        (0x57 + d) as char
    }
}

/// Write `n` in `radix`.
pub fn to_radix(n: u64, radix: u64) -> (s: String)
    requires
        2 <= radix <= 16,
    ensures
        s@ == radix_text(n as int, radix as int),
    decreases n,
{
    let mut s: String;
    if n < radix {
        s = String::new();
        s.push(digit_char(n as u8));
    } else {
        assert(n / radix < n) by (nonlinear_arith)
            requires
                2 <= radix <= n,
        ;
        s = to_radix(n / radix, radix);
        s.push(digit_char((n % radix) as u8));
    }
    assert(s@ =~= radix_text(n as int, radix as int));
    s
}

/// `a` followed by `b`.
pub fn concat(a: &str, b: &str) -> (s: String)
    ensures
        s@ == a@ + b@,
{
    let mut s = a.to_owned();
    s.append(b);
    s
}

/// `a`, `b` and `c` one after the other.
pub fn concat3(a: &str, b: &str, c: &str) -> (s: String)
    ensures
        s@ == a@ + b@ + c@,
{
    let mut s = concat(a, b);
    s.append(c);
    s
}

/// The pieces of `s` between the characters that satisfy `p`: one more than
/// there are such characters.
pub open spec fn pieces(s: Seq<char>, p: spec_fn(char) -> bool) -> Seq<Seq<char>>
    decreases s.len(),
{
    if s.len() == 0 {
        seq![Seq::empty()]
    } else {
        let head = pieces(s.drop_last(), p);
        if p(s.last()) {
            head.push(Seq::empty())
        } else {
            head.update(head.len() - 1, head.last().push(s.last()))
        }
    }
}

/// Being the character `c`.
pub open spec fn is_char(c: char) -> spec_fn(char) -> bool {
    |x: char| x == c
}

/// The pieces of `s` between occurrences of `sep`.
pub open spec fn split(s: Seq<char>, sep: char) -> Seq<Seq<char>> {
    pieces(s, is_char(sep))
}

/// Having any characters at all.
pub open spec fn nonempty() -> spec_fn(Seq<char>) -> bool {
    |t: Seq<char>| t.len() > 0
}

/// The nonempty pieces of `s` between occurrences of `sep`.
pub open spec fn fields(s: Seq<char>, sep: char) -> Seq<Seq<char>> {
    split(s, sep).filter(nonempty())
}

/// Whether `c` has the Unicode property `White_Space`.
pub open spec fn is_white(c: char) -> bool {
    ||| '\t' <= c <= '\r'
    ||| c == ' '
    ||| c == '\u{85}'
    ||| c == '\u{a0}'
    ||| c == '\u{1680}'
    ||| '\u{2000}' <= c <= '\u{200a}'
    ||| c == '\u{2028}'
    ||| c == '\u{2029}'
    ||| c == '\u{202f}'
    ||| c == '\u{205f}'
    ||| c == '\u{3000}'
}

/// `char::is_whitespace` tells the characters that have the Unicode property
/// `White_Space`.
pub assume_specification[ char::is_whitespace ](c: char) -> (b: bool)
    ensures
        b == is_white(c),
;

/// Being white space.
pub open spec fn white() -> spec_fn(char) -> bool {
    |c: char| is_white(c)
}

/// The words of `s`: its nonempty pieces between white space.
pub open spec fn words(s: Seq<char>) -> Seq<Seq<char>> {
    pieces(s, white()).filter(nonempty())
}

/// The characters of `s`.
pub fn chars_of(s: &str) -> (v: Vec<char>)
    ensures
        v@ == s@,
{
    let mut v: Vec<char> = Vec::new();
    for c in it: s.chars()
        invariant
            v@ == s@.take(it.index()),
            it.seq() == s@,
    {
        v.push(c);
        assert(s@.take(it.index() + 1) =~= s@.take(it.index()).push(c));
    }
    assert(s@.take(s@.len() as int) =~= s@);
    v
}

/// The string with the characters `from..to` of `v`.
pub fn string_of(v: &Vec<char>, from: usize, to: usize) -> (s: String)
    requires
        from <= to <= v@.len(),
    ensures
        s@ == v@.subrange(from as int, to as int),
{
    let mut s = String::new();
    let mut i: usize = from;
    assert(s@ =~= v@.subrange(from as int, i as int));
    while i < to
        invariant
            from <= i <= to <= v@.len(),
            s@ == v@.subrange(from as int, i as int),
        decreases to - i,
    {
        s.push(v[i]);
        assert(v@.subrange(from as int, i + 1) =~= v@.subrange(from as int, i as int).push(
            v@[i as int],
        ));
        i += 1;
    }
    s
}

/// One more character in front of which the pieces are known.
proof fn lemma_pieces_step(
    s: Seq<char>,
    p: spec_fn(char) -> bool, i: int, head: Seq<Seq<char>>, cur: Seq<char>,
)
    requires
        0 <= i < s.len(),
        pieces(s.take(i), p) == head.push(cur),
    ensures
        pieces(s.take(i + 1), p) == if p(s[i]) {
            head.push(cur).push(Seq::empty())
        } else {
            head.push(cur.push(s[i]))
        },
{
    assert(s.take(i + 1).drop_last() =~= s.take(i));
    assert(head.push(cur).update(head.len() as int, cur.push(s[i])) =~= head.push(cur.push(s[i])));
}

/// Split `s` at every `sep`.
pub fn split_text(s: &str, sep: char) -> (out: Vec<String>)
    ensures
        texts(out@) == split(s@, sep),
{
    let chars = chars_of(s);
    let mut out: Vec<String> = Vec::new();
    let mut cur = String::new();
    let mut i: usize = 0;
    assert(split(s@.take(0), sep) =~= texts(out@).push(cur@));
    while i < chars.len()
        invariant
            chars@ == s@,
            i <= chars@.len(),
            split(s@.take(i as int), sep) == texts(out@).push(cur@),
        decreases chars@.len() - i,
    {
        let c = chars[i];
        let ghost before = texts(out@);
        proof {
            lemma_pieces_step(s@, is_char(sep), i as int, before, cur@);
        }
        if c == sep {
            let ghost piece = cur@;
            out.push(cur);
            cur = String::new();
            assert(texts(out@) =~= before.push(piece));
            assert(cur@ =~= Seq::empty());
        } else {
            cur.push(c);
        }
        i += 1;
    }
    let ghost before = texts(out@);
    let ghost piece = cur@;
    out.push(cur);
    assert(s@.take(s@.len() as int) =~= s@);
    assert(texts(out@) =~= before.push(piece));
    out
}

/// Keep the nonempty ones of `v`.
fn drop_empty(v: Vec<String>) -> (out: Vec<String>)
    ensures
        texts(out@) == texts(v@).filter(nonempty()),
{
    let mut out: Vec<String> = Vec::new();
    let mut i: usize = 0;
    let ghost all = texts(v@);
    proof {
        reveal(Seq::filter);
        assert(texts(out@) =~= all.take(0).filter(nonempty()));
    }
    while i < v.len()
        invariant
            all == texts(v@),
            i <= v@.len(),
            texts(out@) == all.take(i as int).filter(nonempty()),
        decreases v@.len() - i,
    {
        proof {
            lemma_filter_take(all, i as int, nonempty());
        }
        if !v[i].as_str().is_empty() {
            let ghost before = texts(out@);
            out.push(v[i].clone());
            assert(texts(out@) =~= before.push(all[i as int]));
        }
        i += 1;
    }
    assert(all.take(all.len() as int) =~= all);
    out
}

/// Split `s` at every `sep` and keep the nonempty pieces.
pub fn split_fields(s: &str, sep: char) -> (out: Vec<String>)
    ensures
        texts(out@) == fields(s@, sep),
{
    drop_empty(split_text(s, sep))
}

/// The words of `s`.
pub fn split_words(s: &str) -> (out: Vec<String>)
    ensures
        texts(out@) == words(s@),
{
    let chars = chars_of(s);
    let mut out: Vec<String> = Vec::new();
    let mut cur = String::new();
    let mut i: usize = 0;
    assert(pieces(s@.take(0), white()) =~= texts(out@).push(cur@));
    while i < chars.len()
        invariant
            chars@ == s@,
            i <= chars@.len(),
            pieces(s@.take(i as int), white()) == texts(out@).push(cur@),
        decreases chars@.len() - i,
    {
        let c = chars[i];
        let ghost before = texts(out@);
        proof {
            lemma_pieces_step(s@, white(), i as int, before, cur@);
        }
        if c.is_whitespace() {
            let ghost piece = cur@;
            out.push(cur);
            cur = String::new();
            assert(texts(out@) =~= before.push(piece));
            assert(cur@ =~= Seq::empty());
        } else {
            cur.push(c);
        }
        i += 1;
    }
    let ghost before = texts(out@);
    let ghost piece = cur@;
    out.push(cur);
    assert(s@.take(s@.len() as int) =~= s@);
    assert(texts(out@) =~= before.push(piece));
    drop_empty(out)
}

/// `parts` one after the other with `sep` between them.
pub open spec fn join(parts: Seq<Seq<char>>, sep: Seq<char>) -> Seq<char>
    decreases parts.len(),
{
    if parts.len() == 0 {
        Seq::empty()
    } else if parts.len() == 1 {
        parts[0]
    } else {
        join(parts.drop_last(), sep) + sep + parts.last()
    }
}

/// Join `parts` with `sep`.
pub fn join_texts(parts: &Vec<String>, sep: &str) -> (s: String)
    ensures
        s@ == join(texts(parts@), sep@),
{
    let mut s = String::new();
    let mut i: usize = 0;
    let ghost all = texts(parts@);
    while i < parts.len()
        invariant
            all == texts(parts@),
            i <= parts@.len(),
            s@ == join(all.take(i as int), sep@),
        decreases parts@.len() - i,
    {
        if i > 0 {
            s.append(sep);
        }
        s.append(parts[i].as_str());
        proof {
            let next = all.take(i + 1);
            assert(next.drop_last() =~= all.take(i as int));
            assert(next.last() == parts@[i as int]@);
            if i == 0 {
                assert(s@ =~= next[0]);
            }
        }
        i += 1;
    }
    assert(all.take(all.len() as int) =~= all);
    s
}

/// `t` without the white space at its end.
pub open spec fn trim_end(t: Seq<char>) -> Seq<char>
    decreases t.len(),
{
    if t.len() > 0 && is_white(t.last()) {
        trim_end(t.drop_last())
    } else {
        t
    }
}

/// `t` without the white space at its start.
pub open spec fn trim_start(t: Seq<char>) -> Seq<char>
    decreases t.len(),
{
    if t.len() > 0 && is_white(t[0]) {
        trim_start(t.skip(1))
    } else {
        t
    }
}

/// `t` without the white space around it.
pub open spec fn trim(t: Seq<char>) -> Seq<char> {
    trim_end(trim_start(t))
}

/// `c` in lower case, if it is an ASCII letter.
pub open spec fn lower(c: char) -> char {
    if 'A' <= c <= 'Z' {
        (c as u32 + 32) as char
    } else {
        c
    }
}

/// `t` with its ASCII letters in lower case.
pub open spec fn lowered(t: Seq<char>) -> Seq<char> {
    Seq::new(t.len(), |i: int| lower(t[i]))
}

/// `s` without the white space around it.
pub fn trim_text(s: &str) -> (out: String)
    ensures
        out@ == trim(s@),
{
    let chars = chars_of(s);
    let mut from: usize = 0;
    assert(s@.skip(0) =~= s@);
    while from < chars.len() && chars[from].is_whitespace()
        invariant
            chars@ == s@,
            from <= chars@.len(),
            trim_start(s@) == trim_start(s@.skip(from as int)),
        decreases chars@.len() - from,
    {
        assert(s@.skip(from as int).skip(1) =~= s@.skip(from + 1));
        from += 1;
    }
    let ghost rest = s@.skip(from as int);
    let mut to: usize = chars.len();
    assert(rest.take(to - from) =~= rest);
    while to > from && chars[to - 1].is_whitespace()
        invariant
            chars@ == s@,
            rest == s@.skip(from as int),
            from <= to <= chars@.len(),
            trim_end(rest) == trim_end(rest.take(to - from)),
        decreases to,
    {
        assert(rest.take(to - from).drop_last() =~= rest.take(to - from - 1));
        to -= 1;
    }
    assert(s@.subrange(from as int, to as int) =~= rest.take(to - from));
    string_of(&chars, from, to)
}

/// `s` with its ASCII letters in lower case.
pub fn lower_text(s: &str) -> (out: String)
    ensures
        out@ == lowered(s@),
{
    let chars = chars_of(s);
    let mut out = String::new();
    let mut i: usize = 0;
    while i < chars.len()
        invariant
            chars@ == s@,
            i <= chars@.len(),
            out@.len() == i,
            forall|j: int| 0 <= j < i ==> out@[j] == lower(s@[j]),
        decreases chars@.len() - i,
    {
        let c = chars[i];
        if 'A' <= c && c <= 'Z' {
            out.push((c as u8 + 32) as char);
        } else {
            out.push(c);
        }
        i += 1;
    }
    assert(out@ =~= lowered(s@));
    out
}

/// Whether `t` begins with `p`.
pub open spec fn starts_with<T>(t: Seq<T>, p: Seq<T>) -> bool {
    p.len() <= t.len() && t.take(p.len() as int) == p
}

/// Whether `s` begins with `p`.
pub fn has_prefix(s: &str, p: &str) -> (b: bool)
    ensures
        b == starts_with(s@, p@),
{
    let a = chars_of(s);
    let b = chars_of(p);
    if b.len() > a.len() {
        return false;
    }
    let mut i: usize = 0;
    while i < b.len()
        invariant
            a@ == s@,
            b@ == p@,
            i <= b@.len() <= a@.len(),
            forall|j: int| 0 <= j < i ==> a@[j] == b@[j],
        decreases b@.len() - i,
    {
        if a[i] != b[i] {
            assert(s@.take(p@.len() as int)[i as int] != p@[i as int]);
            return false;
        }
        i += 1;
    }
    assert(s@.take(p@.len() as int) =~= p@);
    true
}

/// The debug form of a text, which is a function of the text alone.
pub uninterp spec fn debug_text(s: Seq<char>) -> Seq<char>;

/// `format!` with the debug form of a `str`: the text in quotes, with escapes.
#[verifier::external_body]
pub(crate) fn debug_str(s: &str) -> (t: String)
    ensures
        t@ == debug_text(s@),
{
    format!("{s:?}")
}

/// The debug form of a character, which is a function of the character alone.
pub uninterp spec fn debug_char(c: char) -> Seq<char>;

/// `format!` with the debug form of a `char`: the character in quotes, with
/// escapes.
#[verifier::external_body]
pub(crate) fn debug_chr(c: char) -> (t: String)
    ensures
        t@ == debug_char(c),
{
    format!("{c:?}")
}

/// The number that the decimal digits in `t` stand for.
pub open spec fn digits_value(t: Seq<char>) -> Option<int>
    decreases t.len(),
{
    if t.len() == 0 {
        Some(0)
    } else {
        match digits_value(t.drop_last()) {
            Some(n) => if '0' <= t.last() <= '9' {
                Some(n * 10 + (t.last() as int - '0' as int))
            } else {
                None
            },
            None => None,
        }
    }
}

/// The number that `t` stands for: at least one decimal digit, after an optional
/// plus sign.
pub open spec fn number(t: Seq<char>) -> Option<int> {
    let d = if t.len() > 0 && t[0] == '+' {
        t.skip(1)
    } else {
        t
    };
    if d.len() == 0 {
        None
    } else {
        digits_value(d)
    }
}

/// Digits with a value too large, or with none, stay so when more follow.
proof fn lemma_digits_grow(t: Seq<char>, i: int, n: int)
    requires
        0 <= i <= n <= t.len(),
    ensures
        digits_value(t.take(i)) is None ==> digits_value(t.take(n)) is None,
        digits_value(t.take(i)) matches Some(a) ==> (a >= 0 && (digits_value(t.take(n)) matches Some(
            b,
        ) ==> a <= b)),
    decreases n,
{
    if n > 0 {
        assert(t.take(n).drop_last() =~= t.take(n - 1));
        if i < n {
            lemma_digits_grow(t, i, n - 1);
        } else {
            lemma_digits_grow(t, n - 1, n - 1);
        }
    }
}

/// Parse a number, unless it takes more than 64 bits.
pub fn parse_number(s: &str) -> (res: Option<u64>)
    ensures
        match res {
            Some(n) => number(s@) == Some(n as int),
            None => number(s@) matches Some(n) ==> n > u64::MAX,
        },
{
    let chars = chars_of(s);
    let start: usize = if chars.len() > 0 && chars[0] == '+' {
        1
    } else {
        0
    };
    let ghost d = s@.skip(start as int);
    assert(s@.skip(0) =~= s@);
    if start >= chars.len() {
        return None;
    }
    let mut n: u64 = 0;
    let mut i: usize = start;
    assert(d.take(0) =~= Seq::empty());
    while i < chars.len()
        invariant
            chars@ == s@,
            start <= i <= chars@.len(),
            d == s@.skip(start as int),
            d.len() > 0,
            number(s@) == digits_value(d),
            digits_value(d.take(i - start)) == Some(n as int),
        decreases chars@.len() - i,
    {
        let c = chars[i];
        proof {
            assert(d.take(i - start + 1).drop_last() =~= d.take(i - start));
            assert(d.take(i - start + 1).last() == c);
            assert(d.take(d.len() as int) =~= d);
            lemma_digits_grow(d, i - start + 1, d.len() as int);
        }
        if c < '0' || c > '9' {
            return None;
        }
        let digit: u64 = c as u64 - '0' as u64;
        n = match n.checked_mul(10) {
            Some(m) => match m.checked_add(digit) {
                Some(m) => m,
                None => {
                    return None;
                },
            },
            None => {
                return None;
            },
        };
        i += 1;
    }
    assert(d.take(d.len() as int) =~= d);
    Some(n)
}

} // verus!
