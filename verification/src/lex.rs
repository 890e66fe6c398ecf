//! Options and values on a command line, as the `lexopt` crate finds them.
use std::path::PathBuf;

use vstd::prelude::*;
use vstd::utf8::{decode_utf8, valid_utf8};

use crate::paths::{lossy, path_bytes, path_list};
use crate::seqs::first;

verus! {

/// `lexopt::Parser`, the words of a command line that are still to be read.
#[verifier::external_type_specification]
#[verifier::external_body]
pub struct ExParser(lexopt::Parser);

/// Where a `lexopt::Parser` is.
#[verifier::ext_equal]
pub struct LexState {
    /// The words that were not read yet.
    pub unread: Seq<Seq<u8>>,
    /// The value in `--option=value` that was not asked for yet.
    pub attached: Option<Seq<u8>>,
    /// What is left of a cluster of short options.
    pub cluster: Seq<u8>,
    /// Whether `--` was read, so that all other words are values.
    pub finished: bool,
    /// The option that was read last, with its dashes.
    pub last: Option<Seq<char>>,
}

/// Where a parser is.
pub uninterp spec fn lex_state(p: lexopt::Parser) -> LexState;

/// What a command line holds next.
#[derive(Debug)]
pub enum Arg {
    Short(char),
    Long(String),
    Value(PathBuf),
}

/// An [`Arg`] with its text and its bytes as sequences.
pub enum ArgView {
    Short(char),
    Long(Seq<char>),
    Value(Seq<u8>),
}

impl View for Arg {
    type V = ArgView;

    open spec fn view(&self) -> ArgView {
        match self {
            Arg::Short(c) => ArgView::Short(*c),
            Arg::Long(s) => ArgView::Long(s@),
            Arg::Value(p) => ArgView::Value(path_bytes(*p)),
        }
    }
}

/// The debug form of a word, which is a function of its bytes alone.
pub uninterp spec fn debug_word(b: Seq<u8>) -> Seq<char>;

/// Being an equals sign.
pub open spec fn is_equals() -> spec_fn(u8) -> bool {
    |b: u8| b == 0x3d
}

/// Length of the character that `b` starts with, from `n` on; zero where it starts
/// with none.
pub open spec fn lead_len(b: Seq<u8>, n: int) -> int
    decreases 5 - n,
{
    if n < 1 || n > 4 || n > b.len() {
        0
    } else if valid_utf8(b.take(n)) {
        n
    } else {
        lead_len(b, n + 1)
    }
}

pub proof fn lemma_lead_len(b: Seq<u8>, n: int)
    ensures
        0 <= lead_len(b, n) <= 4,
    decreases 5 - n,
{
    if 1 <= n <= 4 && n <= b.len() {
        lemma_lead_len(b, n + 1);
    }
}

/// The short option that a cluster starts with.
pub open spec fn lead_char(b: Seq<u8>) -> char {
    let n = lead_len(b, 1);
    if n == 0 {
        '\u{fffd}'
    } else {
        decode_utf8(b.take(n))[0]
    }
}

/// What the word `w` is, before any `--`, and where it leaves the parser.
pub open spec fn lex_word(s: LexState, w: Seq<u8>) -> (ArgView, LexState) {
    if w.len() >= 2 && w[0] == 0x2d && w[1] == 0x2d {
        let (head, attached) = match first(w, is_equals()) {
            Some(k) => (w.take(k), Some(w.skip(k + 1))),
            None => (w, None),
        };
        (
            ArgView::Long(lossy(head).skip(2)),
            LexState { attached, last: Some(lossy(head)), ..s },
        )
    } else if w.len() >= 2 && w[0] == 0x2d {
        let rest = w.skip(1);
        (
            ArgView::Short(lead_char(rest)),
            LexState {
                cluster: rest.skip(lead_len(rest, 1)),
                last: Some("-"@.push(lead_char(rest))),
                ..s
            },
        )
    } else {
        (ArgView::Value(w), s)
    }
}

/// What is next after `--`: the words as they are.
pub open spec fn lex_value(s: LexState) -> (Option<ArgView>, LexState) {
    if s.unread.len() == 0 {
        (None, s)
    } else {
        (Some(ArgView::Value(s.unread[0])), LexState { unread: s.unread.skip(1), ..s })
    }
}

/// What is next, where no value is left over.
pub open spec fn lex_next(s: LexState) -> (Option<ArgView>, LexState) {
    if s.finished || s.unread.len() == 0 {
        lex_value(s)
    } else {
        let w = s.unread[0];
        let rest = LexState { unread: s.unread.skip(1), ..s };
        if w == seq![0x2du8, 0x2du8] {
            lex_value(LexState { finished: true, ..rest })
        } else {
            let (arg, t) = lex_word(rest, w);
            (Some(arg), t)
        }
    }
}

/// Whether the short option at `s`, if there is one, is a character.
pub open spec fn lex_sane(s: LexState) -> bool {
    lex_next(s).0 matches Some(ArgView::Short(_)) ==> lead_len(s.unread[0].skip(1), 1) > 0
}

/// What a left-over value fails with; `shown` is its debug form.
pub open spec fn unexpected_value(s: LexState, shown: Seq<char>) -> Seq<char> {
    "unexpected argument for option '"@ + (match s.last {
        Some(t) => t,
        None => Seq::empty(),
    }) + "': "@ + shown
}

/// What a missing value fails with.
pub open spec fn missing_value(s: LexState) -> Seq<char> {
    match s.last {
        Some(t) => "missing argument for option '"@ + t + "'"@,
        None => "missing argument"@,
    }
}

/// `lexopt::Parser::from_iter` takes the first word as the program's name and
/// leaves the others to be read.
#[verifier::external_body]
pub(crate) fn new_parser(words: Vec<PathBuf>) -> (p: lexopt::Parser)
    ensures
        lex_state(p) == (LexState {
            unread: if words@.len() == 0 {
                Seq::empty()
            } else {
                path_list(words@).skip(1)
            },
            attached: None,
            cluster: Seq::empty(),
            finished: false,
            last: None,
        }),
{
    lexopt::Parser::from_iter(words)
}

/// `lexopt::Parser::next`, outside a cluster of short options. A value that was
/// not asked for is an error, and is then gone. Otherwise the next word is a long
/// option, with or without a value behind an equals sign; or a cluster of short
/// options, of which the first is given; or a value. After `--` every word is a
/// value. A cluster that does not start with a character is left at some later
/// place; how many bytes are passed over is not said.
#[verifier::external_body]
pub(crate) fn next_arg(p: &mut lexopt::Parser) -> (res: std::result::Result<Option<Arg>, String>)
    requires
        lex_state(*old(p)).cluster.len() == 0,
    ensures
        match lex_state(*old(p)).attached {
            Some(value) => {
                &&& res matches Err(e) && e@ == unexpected_value(lex_state(*old(p)), debug_word(value))
                &&& lex_state(*final(p)) == (LexState { attached: None, ..lex_state(*old(p)) })
            },
            None => {
                &&& res is Ok
                &&& (match res->Ok_0 {
                    Some(arg) => Some(arg@),
                    None => None,
                }) == lex_next(lex_state(*old(p))).0
                &&& lex_sane(lex_state(*old(p))) ==> lex_state(*final(p)) == lex_next(
                    lex_state(*old(p)),
                ).1
                &&& !lex_sane(lex_state(*old(p))) ==> exists|k: int|
                    2 <= k <= lex_state(*old(p)).unread[0].len() && lex_state(*final(p)) == (
                    LexState {
                        cluster: #[trigger] lex_state(*old(p)).unread[0].skip(k),
                        ..lex_next(lex_state(*old(p))).1
                    })
            },
        },
{
    match p.next() {
        Ok(None) => Ok(None),
        Ok(Some(lexopt::Arg::Short(c))) => Ok(Some(Arg::Short(c))),
        Ok(Some(lexopt::Arg::Long(s))) => Ok(Some(Arg::Long(s.to_owned()))),
        Ok(Some(lexopt::Arg::Value(v))) => Ok(Some(Arg::Value(PathBuf::from(v)))),
        Err(e) => Err(e.to_string()),
    }
}

/// The value of the option that was read last: the one attached to it, else what
/// is left of the cluster, without an equals sign in front, else the next word.
pub open spec fn lex_take(s: LexState) -> Option<(Seq<u8>, LexState)> {
    if s.attached is Some {
        Some((s.attached->Some_0, LexState { attached: None, ..s }))
    } else if s.cluster.len() > 0 {
        Some(
            (
                if s.cluster[0] == 0x3d {
                    s.cluster.skip(1)
                } else {
                    s.cluster
                },
                LexState { cluster: Seq::empty(), ..s },
            ),
        )
    } else if s.unread.len() > 0 {
        Some((s.unread[0], LexState { unread: s.unread.skip(1), ..s }))
    } else {
        None
    }
}

/// `lexopt::Parser::value` gives the value of the option that was read last, or
/// fails where no word is left.
#[verifier::external_body]
pub(crate) fn next_value(p: &mut lexopt::Parser) -> (res: std::result::Result<PathBuf, String>)
    ensures
        match lex_take(lex_state(*old(p))) {
            Some((value, s)) => {
                &&& res matches Ok(v) && path_bytes(v) == value
                &&& lex_state(*final(p)) == s
            },
            None => {
                &&& res matches Err(e) && e@ == missing_value(lex_state(*old(p)))
                &&& lex_state(*final(p)) == lex_state(*old(p))
            },
        },
{
    p.value().map(PathBuf::from).map_err(|e| e.to_string())
}

/// Whether a word is a value and not an option: it has no dash in front, or is a
/// single dash, or stands behind `--`.
pub open spec fn is_plain(s: LexState, w: Seq<u8>) -> bool {
    s.finished || w.len() == 0 || w[0] != 0x2d || w.len() == 1
}

/// How many of the unread words from `i` on are values in a row.
pub open spec fn plain_run(s: LexState, i: int) -> int
    decreases s.unread.len() - i,
{
    if i < 0 || i >= s.unread.len() || !is_plain(s, s.unread[i]) {
        0
    } else {
        1 + plain_run(s, i + 1)
    }
}

/// The values of the option that was read last: the one attached to it, else the
/// words up to the next option.
pub open spec fn lex_take_all(s: LexState) -> (Seq<Seq<u8>>, LexState) {
    if s.attached is Some {
        (seq![s.attached->Some_0], LexState { attached: None, ..s })
    } else {
        let n = plain_run(s, 0);
        (s.unread.take(n), LexState { unread: s.unread.skip(n), ..s })
    }
}

/// `lexopt::Parser::values`, outside a cluster of short options, gives the values
/// of the option that was read last, and fails, reading nothing, where there are
/// none.
#[verifier::external_body]
pub(crate) fn next_values(p: &mut lexopt::Parser) -> (res: Option<Vec<PathBuf>>)
    requires
        lex_state(*old(p)).cluster.len() == 0,
    ensures
        res is Some <==> lex_take_all(lex_state(*old(p))).0.len() > 0,
        res matches Some(v) ==> path_list(v@) == lex_take_all(lex_state(*old(p))).0,
        lex_state(*final(p)) == lex_take_all(lex_state(*old(p))).1,
{
    p.values().ok().map(|it| it.map(PathBuf::from).collect())
}

/// `format!` with the debug form of an `OsStr`: the word in quotes, with escapes.
#[verifier::external_body]
pub(crate) fn debug_path(p: &PathBuf) -> (t: String)
    ensures
        t@ == debug_word(path_bytes(*p)),
{
    format!("{:?}", p.as_os_str())
}

} // verus!
