//! The specification of the token scanner.
//!
//! These spec functions say, for any input byte sequence and position, what
//! the scanner produces: which token or error, how many bytes it consumes,
//! how many line breaks it crosses, and what text it stores in the interner.
//! The executable state machine in the crate root is proved against
//! [`spec_llex`].
//!
//! Positions are byte offsets into the whole input; line counts are deltas
//! (newlines crossed), so the statements do not depend on the absolute line
//! number the lexer started from.

use vstd::prelude::*;

use crate::ctype::spec_is_alnum;
use crate::ctype::spec_is_alpha;
use crate::intern::PAGE_CAPACITY;
use crate::keywords::spec_keyword;
use crate::source::byte_at;
use crate::source::EOZ;
use crate::LexErrorKind;

verus! {

/// Line terminators: `\n` or `\r`.
pub open spec fn is_newline(c: i32) -> bool {
    c == crate::CHAR_NL || c == crate::CHAR_RET
}

/// Whitespace the scan loop consumes silently (newlines are handled apart,
/// for line counting): space, form feed, horizontal tab, vertical tab.
pub open spec fn is_skip_space(c: i32) -> bool {
    c == crate::CHAR_SPACE || c == crate::CHAR_FF || c == crate::CHAR_HTAB || c == crate::CHAR_VTAB
}

/// Width in bytes of the line terminator starting at `p`: a newline byte
/// followed by the complementary newline byte (`\r\n` or `\n\r`) is one
/// two-byte terminator; two identical bytes are two separate terminators.
pub open spec fn nl_width(s: Seq<u8>, p: int) -> int {
    if is_newline(byte_at(s, p + 1)) && byte_at(s, p + 1) != byte_at(s, p) {
        2
    } else {
        1
    }
}

/// Length of the run of `=` bytes starting at `p`.
pub open spec fn eq_run(s: Seq<u8>, p: int) -> int
    decreases s.len() - p,
{
    if 0 <= p < s.len() && byte_at(s, p) == crate::CHAR_EQUAL {
        1 + eq_run(s, p + 1)
    } else {
        0
    }
}

pub proof fn lemma_eq_run(s: Seq<u8>, p: int)
    requires
        0 <= p <= s.len(),
    ensures
        0 <= eq_run(s, p),
        p + eq_run(s, p) <= s.len(),
        byte_at(s, p + eq_run(s, p)) != crate::CHAR_EQUAL,
        forall|i: int| p <= i < p + eq_run(s, p) ==> byte_at(s, i) == crate::CHAR_EQUAL,
    decreases s.len() - p,
{
    if 0 <= p < s.len() && byte_at(s, p) == crate::CHAR_EQUAL {
        lemma_eq_run(s, p + 1);
    }
}

/// The documented encoding of consuming a long-bracket delimiter at `p`
/// (a `[` or `]` and the run of `=` after it): the run length when the run
/// is closed by a second copy of the same bracket byte, otherwise the
/// negative sentinel `-(run)-1` — so `-1` means an ordinary bracket with no
/// `=` after it.
pub open spec fn spec_skip_sep(s: Seq<u8>, p: int) -> int {
    let run = eq_run(s, p + 1);
    if byte_at(s, p + 1 + run) == byte_at(s, p) {
        run
    } else {
        -run - 1
    }
}

/// Position of the line terminator or end of input that ends the line
/// containing `p`: the first `q >= p` holding a newline byte, or the input
/// length.
pub open spec fn line_end(s: Seq<u8>, p: int) -> int
    decreases s.len() - p,
{
    if 0 <= p < s.len() && !is_newline(byte_at(s, p)) {
        line_end(s, p + 1)
    } else {
        p
    }
}

pub proof fn lemma_line_end(s: Seq<u8>, p: int)
    requires
        0 <= p <= s.len(),
    ensures
        p <= line_end(s, p) <= s.len(),
        line_end(s, p) < s.len() ==> is_newline(byte_at(s, line_end(s, p))),
        forall|i: int| p <= i < line_end(s, p) ==> !is_newline(byte_at(s, i)),
    decreases s.len() - p,
{
    if 0 <= p < s.len() && !is_newline(byte_at(s, p)) {
        lemma_line_end(s, p + 1);
    }
}

/// End of the maximal run of identifier characters starting at `p`: the
/// first `q >= p` whose byte is not alphanumeric.
pub open spec fn ident_end(s: Seq<u8>, p: int) -> int
    decreases s.len() - p,
{
    if 0 <= p < s.len() && spec_is_alnum(byte_at(s, p)) {
        ident_end(s, p + 1)
    } else {
        p
    }
}

pub proof fn lemma_ident_end(s: Seq<u8>, p: int)
    requires
        0 <= p <= s.len(),
    ensures
        p <= ident_end(s, p) <= s.len(),
        !spec_is_alnum(byte_at(s, ident_end(s, p))),
        forall|i: int| p <= i < ident_end(s, p) ==> spec_is_alnum(byte_at(s, i)),
    decreases s.len() - p,
{
    if 0 <= p < s.len() && spec_is_alnum(byte_at(s, p)) {
        lemma_ident_end(s, p + 1);
    }
}

/// Result of scanning the body of a long-bracket construct.
pub struct LongScan {
    /// Whether a matching closer was found before end of input.
    pub ok: bool,
    /// The material strictly between opener and closer, with every line
    /// terminator normalized to a single `\n` byte.
    pub text: Seq<u8>,
    /// Position just after the closer; the input length when `!ok`.
    pub end_p: int,
    /// Line breaks crossed while scanning the body.
    pub lines: int,
}

/// Scan the body of a long-bracket construct of level `sep` from position
/// `p` (just after the opener, and after the skipped leading newline if
/// any), up to the first closer: a `]`, exactly `sep` `=` bytes, then `]`.
pub open spec fn scan_long(s: Seq<u8>, p: int, sep: int) -> LongScan
    decreases s.len() - p,
{
    let c = byte_at(s, p);
    if c == EOZ {
        LongScan { ok: false, text: seq![], end_p: s.len() as int, lines: 0 }
    } else if c == crate::CHAR_RBRACKET {
        let run = eq_run(s, p + 1);
        let q = p + 1 + run;
        if byte_at(s, q) == crate::CHAR_RBRACKET && run == sep {
            LongScan { ok: true, text: seq![], end_p: q + 1, lines: 0 }
        } else {
            proof {
                lemma_eq_run(s, p + 1);
            }
            let rec = scan_long(s, q, sep);
            LongScan {
                ok: rec.ok,
                text: s.subrange(p, q) + rec.text,
                end_p: rec.end_p,
                lines: rec.lines,
            }
        }
    } else if is_newline(c) {
        let rec = scan_long(s, p + nl_width(s, p), sep);
        LongScan {
            ok: rec.ok,
            text: seq![crate::CHAR_NL as u8] + rec.text,
            end_p: rec.end_p,
            lines: 1 + rec.lines,
        }
    } else {
        let rec = scan_long(s, p + 1, sep);
        LongScan { ok: rec.ok, text: seq![s[p]] + rec.text, end_p: rec.end_p, lines: rec.lines }
    }
}

pub proof fn lemma_scan_long_bounds(s: Seq<u8>, p: int, sep: int)
    requires
        0 <= p <= s.len(),
        0 <= sep,
    ensures
        p <= scan_long(s, p, sep).end_p <= s.len(),
        !scan_long(s, p, sep).ok ==> scan_long(s, p, sep).end_p == s.len(),
        scan_long(s, p, sep).ok ==> p + 2 + sep <= scan_long(s, p, sep).end_p,
        0 <= scan_long(s, p, sep).lines,
    decreases s.len() - p,
{
    let c = byte_at(s, p);
    if c == EOZ {
    } else if c == crate::CHAR_RBRACKET {
        let run = eq_run(s, p + 1);
        let q = p + 1 + run;
        lemma_eq_run(s, p + 1);
        if byte_at(s, q) == crate::CHAR_RBRACKET && run == sep {
        } else {
            lemma_scan_long_bounds(s, q, sep);
        }
    } else if is_newline(c) {
        lemma_scan_long_bounds(s, p + nl_width(s, p), sep);
    } else {
        lemma_scan_long_bounds(s, p + 1, sep);
    }
}

/// The long-bracket construct from the position `p2` of its second opening
/// `[`: the body starts just after it, except that an immediate newline is
/// skipped without contributing to the text.
pub open spec fn spec_long_string(s: Seq<u8>, p2: int, sep: int) -> LongScan {
    let b = p2 + 1;
    if is_newline(byte_at(s, b)) {
        let rec = scan_long(s, b + nl_width(s, b), sep);
        LongScan { ok: rec.ok, text: rec.text, end_p: rec.end_p, lines: 1 + rec.lines }
    } else {
        scan_long(s, b, sep)
    }
}

pub proof fn lemma_long_string_bounds(s: Seq<u8>, p2: int, sep: int)
    requires
        0 <= p2 < s.len(),
        0 <= sep,
    ensures
        p2 < spec_long_string(s, p2, sep).end_p <= s.len(),
        !spec_long_string(s, p2, sep).ok ==> spec_long_string(s, p2, sep).end_p == s.len(),
        0 <= spec_long_string(s, p2, sep).lines,
{
    let b = p2 + 1;
    if is_newline(byte_at(s, b)) {
        lemma_scan_long_bounds(s, b + nl_width(s, b), sep);
    } else {
        lemma_scan_long_bounds(s, b, sep);
    }
}

/// One step of the scanner: the token or error produced at a given position,
/// together with everything the step does to the lexer's state.
pub struct ScanStep {
    /// A token was produced; otherwise the step failed with `err`.
    pub ok: bool,
    /// Token kind, when `ok`.
    pub kind: i32,
    /// Error kind, when `!ok`.
    pub err: LexErrorKind,
    /// The text the token's payload carries (identifier or string literal).
    pub text: Option<Seq<u8>>,
    /// The text interned while scanning (also set for keywords, whose token
    /// carries no payload).
    pub interned: Option<Seq<u8>>,
    /// Line breaks crossed before the token starts: the token's line is the
    /// starting line plus this delta.
    pub pre_lines: int,
    /// Position just after the consumed bytes.
    pub next_p: int,
    /// Line breaks crossed in total by this step.
    pub lines: int,
}

/// A step yielding a payload-free token on the line the step started on.
pub open spec fn step_token(kind: i32, next_p: int) -> ScanStep {
    ScanStep {
        ok: true,
        kind,
        err: LexErrorKind::InvalidCharacter,
        text: None,
        interned: None,
        pre_lines: 0,
        next_p,
        lines: 0,
    }
}

/// A failing step.
pub open spec fn step_error(err: LexErrorKind, lines: int, next_p: int) -> ScanStep {
    ScanStep {
        ok: false,
        kind: 0,
        err,
        text: None,
        interned: None,
        pre_lines: 0,
        next_p,
        lines,
    }
}

/// The same step observed from `d` line breaks earlier.
pub open spec fn step_shift(st: ScanStep, d: int) -> ScanStep {
    ScanStep { pre_lines: st.pre_lines + d, lines: st.lines + d, ..st }
}

/// What one call of the scanner produces on input `s` from position `p`:
/// whitespace, line terminators and comments are consumed silently, then the
/// first token (or error) at the resulting position is taken.
pub open spec fn spec_llex(s: Seq<u8>, p: int) -> ScanStep
    decreases s.len() - p,
{
    let c = byte_at(s, p);
    if c == EOZ {
        step_token(crate::TOK_EOS, p)
    } else if is_newline(c) {
        step_shift(spec_llex(s, p + nl_width(s, p)), 1)
    } else if is_skip_space(c) {
        spec_llex(s, p + 1)
    } else if c == crate::CHAR_HYPEN {
        if byte_at(s, p + 1) != crate::CHAR_HYPEN {
            step_token(crate::CHAR_HYPEN, p + 1)
        } else if byte_at(s, p + 2) == crate::CHAR_LBRACKET {
            let run = eq_run(s, p + 3);
            let q = p + 3 + run;
            if byte_at(s, q) == crate::CHAR_LBRACKET {
                // a long comment: its content is skipped and discarded
                let ls = spec_long_string(s, q, run);
                if ls.ok {
                    proof {
                        lemma_eq_run(s, p + 3);
                        lemma_long_string_bounds(s, q, run);
                    }
                    step_shift(spec_llex(s, ls.end_p), ls.lines)
                } else {
                    step_error(LexErrorKind::UnterminatedLongComment, ls.lines, ls.end_p)
                }
            } else {
                // not a long-bracket head after `--`: a short comment
                proof {
                    lemma_eq_run(s, p + 3);
                    lemma_line_end(s, q);
                }
                spec_llex(s, line_end(s, q))
            }
        } else {
            proof {
                lemma_line_end(s, p + 2);
            }
            spec_llex(s, line_end(s, p + 2))
        }
    } else if c == crate::CHAR_LBRACKET {
        let run = eq_run(s, p + 1);
        let q = p + 1 + run;
        if byte_at(s, q) == crate::CHAR_LBRACKET {
            let ls = spec_long_string(s, q, run);
            if !ls.ok {
                step_error(LexErrorKind::UnterminatedLongString, ls.lines, ls.end_p)
            } else if ls.text.len() > PAGE_CAPACITY {
                step_error(LexErrorKind::StringTooLargeForArena, ls.lines, ls.end_p)
            } else {
                ScanStep {
                    ok: true,
                    kind: crate::TOK_STRING,
                    err: LexErrorKind::InvalidCharacter,
                    text: Some(ls.text),
                    interned: Some(ls.text),
                    pre_lines: 0,
                    next_p: ls.end_p,
                    lines: ls.lines,
                }
            }
        } else if run == 0 {
            step_token(crate::CHAR_LBRACKET, q)
        } else {
            step_error(LexErrorKind::InvalidLongBracketDelimiter, 0, q)
        }
    } else if c == crate::CHAR_EQUAL {
        if byte_at(s, p + 1) == crate::CHAR_EQUAL {
            step_token(crate::TOK_EQ, p + 2)
        } else {
            step_token(crate::CHAR_EQUAL, p + 1)
        }
    } else if c == crate::CHAR_LT {
        if byte_at(s, p + 1) == crate::CHAR_EQUAL {
            step_token(crate::TOK_LE, p + 2)
        } else if byte_at(s, p + 1) == crate::CHAR_LT {
            step_token(crate::TOK_SHL, p + 2)
        } else {
            step_token(crate::CHAR_LT, p + 1)
        }
    } else if c == crate::CHAR_GT {
        if byte_at(s, p + 1) == crate::CHAR_EQUAL {
            step_token(crate::TOK_GE, p + 2)
        } else if byte_at(s, p + 1) == crate::CHAR_GT {
            step_token(crate::TOK_SHR, p + 2)
        } else {
            step_token(crate::CHAR_GT, p + 1)
        }
    } else if c == crate::CHAR_FSLASH {
        if byte_at(s, p + 1) == crate::CHAR_FSLASH {
            step_token(crate::TOK_IDIV, p + 2)
        } else {
            step_token(crate::CHAR_FSLASH, p + 1)
        }
    } else if c == crate::CHAR_TILDE {
        if byte_at(s, p + 1) == crate::CHAR_EQUAL {
            step_token(crate::TOK_NE, p + 2)
        } else {
            step_token(crate::CHAR_TILDE, p + 1)
        }
    } else if c == crate::CHAR_COLON {
        if byte_at(s, p + 1) == crate::CHAR_COLON {
            step_token(crate::TOK_DBCOLON, p + 2)
        } else {
            step_token(crate::CHAR_COLON, p + 1)
        }
    } else if c == crate::CHAR_DOT {
        if byte_at(s, p + 1) == crate::CHAR_DOT {
            if byte_at(s, p + 2) == crate::CHAR_DOT {
                step_token(crate::TOK_DOTS, p + 3)
            } else {
                step_token(crate::TOK_CONCAT, p + 2)
            }
        } else {
            step_token(crate::CHAR_DOT, p + 1)
        }
    } else if spec_is_alpha(c) {
        let e = ident_end(s, p);
        let text = s.subrange(p, e);
        if text.len() > PAGE_CAPACITY {
            step_error(LexErrorKind::StringTooLargeForArena, 0, e)
        } else {
            match spec_keyword(text) {
                Some(k) => ScanStep {
                    ok: true,
                    kind: k,
                    err: LexErrorKind::InvalidCharacter,
                    text: None,
                    interned: Some(text),
                    pre_lines: 0,
                    next_p: e,
                    lines: 0,
                },
                None => ScanStep {
                    ok: true,
                    kind: crate::TOK_NAME,
                    err: LexErrorKind::InvalidCharacter,
                    text: Some(text),
                    interned: Some(text),
                    pre_lines: 0,
                    next_p: e,
                    lines: 0,
                },
            }
        }
    } else {
        step_token(c, p + 1)
    }
}

/// Input that holds only whitespace and comments from position `p` on:
/// nothing that would start a token before the end of the input.
pub open spec fn trivia_only(s: Seq<u8>, p: int) -> bool
    decreases s.len() - p,
{
    let c = byte_at(s, p);
    if c == EOZ {
        true
    } else if is_newline(c) {
        trivia_only(s, p + nl_width(s, p))
    } else if is_skip_space(c) {
        trivia_only(s, p + 1)
    } else if c == crate::CHAR_HYPEN && byte_at(s, p + 1) == crate::CHAR_HYPEN {
        if byte_at(s, p + 2) == crate::CHAR_LBRACKET {
            let run = eq_run(s, p + 3);
            let q = p + 3 + run;
            if byte_at(s, q) == crate::CHAR_LBRACKET {
                let ls = spec_long_string(s, q, run);
                if ls.ok {
                    proof {
                        lemma_eq_run(s, p + 3);
                        lemma_long_string_bounds(s, q, run);
                    }
                    trivia_only(s, ls.end_p)
                } else {
                    false
                }
            } else {
                proof {
                    lemma_eq_run(s, p + 3);
                    lemma_line_end(s, q);
                }
                trivia_only(s, line_end(s, q))
            }
        } else {
            proof {
                lemma_line_end(s, p + 2);
            }
            trivia_only(s, line_end(s, p + 2))
        }
    } else {
        false
    }
}

/// Law: on input holding only whitespace and comments the scanner yields
/// exactly one end-of-stream token and no other token — its first step is
/// already the end-of-stream token, having consumed the whole input, and
/// every later step at the end of the input is the end-of-stream token
/// again.
pub proof fn lemma_trivia_scans_to_eos(s: Seq<u8>, p: int)
    requires
        0 <= p <= s.len(),
        trivia_only(s, p),
    ensures
        spec_llex(s, p).ok,
        spec_llex(s, p).kind == crate::TOK_EOS,
        spec_llex(s, p).text is None,
        spec_llex(s, p).next_p == s.len(),
        spec_llex(s, s.len() as int).ok,
        spec_llex(s, s.len() as int).kind == crate::TOK_EOS,
    decreases s.len() - p,
{
    let c = byte_at(s, p);
    if c == EOZ {
    } else if is_newline(c) {
        lemma_trivia_scans_to_eos(s, p + nl_width(s, p));
    } else if is_skip_space(c) {
        lemma_trivia_scans_to_eos(s, p + 1);
    } else if c == crate::CHAR_HYPEN && byte_at(s, p + 1) == crate::CHAR_HYPEN {
        if byte_at(s, p + 2) == crate::CHAR_LBRACKET {
            let run = eq_run(s, p + 3);
            let q = p + 3 + run;
            lemma_eq_run(s, p + 3);
            if byte_at(s, q) == crate::CHAR_LBRACKET {
                let ls = spec_long_string(s, q, run);
                lemma_long_string_bounds(s, q, run);
                lemma_trivia_scans_to_eos(s, ls.end_p);
            } else {
                lemma_line_end(s, q);
                lemma_trivia_scans_to_eos(s, line_end(s, q));
            }
        } else {
            lemma_line_end(s, p + 2);
            lemma_trivia_scans_to_eos(s, line_end(s, p + 2));
        }
    }
}

/// A closer of level `sep` starting at position `m`: a `]`, exactly `sep`
/// `=` bytes, then another `]`.
pub open spec fn closer_at(s: Seq<u8>, m: int, sep: int) -> bool {
    &&& byte_at(s, m) == crate::CHAR_RBRACKET
    &&& byte_at(s, m + 1 + sep) == crate::CHAR_RBRACKET
    &&& forall|i: int| m + 1 <= i < m + 1 + sep ==> byte_at(s, i) == crate::CHAR_EQUAL
}

/// Law: a long bracket of level `sep` closes exactly at the first closer
/// carrying exactly `sep` equals signs.  A closer with any other count of
/// `=` — fewer or more — does not end it: no position before the closing
/// one holds a level-`sep` closer.
pub proof fn lemma_long_bracket_level_match(s: Seq<u8>, p: int, sep: int)
    requires
        0 <= p <= s.len(),
        0 <= sep,
        scan_long(s, p, sep).ok,
    ensures
        scan_long(s, p, sep).end_p - 2 - sep >= p,
        closer_at(s, scan_long(s, p, sep).end_p - 2 - sep, sep),
        forall|m: int| p <= m < scan_long(s, p, sep).end_p - 2 - sep ==> !closer_at(s, m, sep),
    decreases s.len() - p,
{
    let r = scan_long(s, p, sep);
    let c = byte_at(s, p);
    lemma_scan_long_bounds(s, p, sep);
    if c == crate::CHAR_RBRACKET {
        let run = eq_run(s, p + 1);
        let q = p + 1 + run;
        lemma_eq_run(s, p + 1);
        if byte_at(s, q) == crate::CHAR_RBRACKET && run == sep {
            assert(closer_at(s, p, sep));
        } else {
            lemma_long_bracket_level_match(s, q, sep);
            assert forall|m: int| p <= m < r.end_p - 2 - sep implies !closer_at(s, m, sep) by {
                if m == p {
                    if closer_at(s, p, sep) {
                        if run < sep {
                            assert(byte_at(s, p + 1 + run) == crate::CHAR_EQUAL);
                            assert(false);
                        }
                        if run > sep {
                            assert(byte_at(s, p + 1 + sep) == crate::CHAR_EQUAL);
                            assert(false);
                        }
                        assert(false);
                    }
                } else if m < q {
                    assert(byte_at(s, m) == crate::CHAR_EQUAL);
                }
            }
        }
    } else if is_newline(c) {
        let w = nl_width(s, p);
        lemma_long_bracket_level_match(s, p + w, sep);
        assert forall|m: int| p <= m < r.end_p - 2 - sep implies !closer_at(s, m, sep) by {
            if m < p + w {
                assert(is_newline(byte_at(s, m)));
            }
        }
    } else {
        lemma_long_bracket_level_match(s, p + 1, sep);
    }
}

/// One line terminator, in any of the four conventions the scanner accepts.
#[derive(PartialEq, Eq, Structural)]
pub enum LineBreak {
    Lf,
    Cr,
    CrLf,
    LfCr,
}

pub open spec fn break_bytes(b: LineBreak) -> Seq<u8> {
    match b {
        LineBreak::Lf => seq![10u8],
        LineBreak::Cr => seq![13u8],
        LineBreak::CrLf => seq![13u8, 10u8],
        LineBreak::LfCr => seq![10u8, 13u8],
    }
}

/// The concatenation of a sequence of line terminators.
pub open spec fn breaks_bytes(bs: Seq<LineBreak>) -> Seq<u8>
    decreases bs.len(),
{
    if bs.len() == 0 {
        seq![]
    } else {
        break_bytes(bs[0]) + breaks_bytes(bs.skip(1))
    }
}

/// Whether two adjacent terminators would run together when written out: a
/// lone `\n` followed by one starting with `\r`, or a lone `\r` followed by
/// one starting with `\n`, spells a single two-byte terminator instead of
/// two.
pub open spec fn merges(a: LineBreak, b: LineBreak) -> bool {
    ||| (a == LineBreak::Lf && (b == LineBreak::Cr || b == LineBreak::CrLf))
    ||| (a == LineBreak::Cr && (b == LineBreak::Lf || b == LineBreak::LfCr))
}

pub open spec fn no_boundary_merge(bs: Seq<LineBreak>) -> bool {
    forall|i: int| 0 <= i < bs.len() - 1 ==> !merges(bs[i], #[trigger] bs[i + 1])
}

/// Law: line counting over every newline convention.  When the rest of the
/// input spells `bs.len()` line terminators drawn from `\n`, `\r`, `\r\n`
/// and `\n\r` — adjacent ones not running together into a single two-byte
/// terminator — the scanner consumes them all, counts exactly `bs.len()`
/// lines, and yields the end-of-stream token.  Two identical consecutive
/// bytes are two separate terminators, while each two-byte pair counts once.
pub proof fn lemma_line_breaks_counted(s: Seq<u8>, bs: Seq<LineBreak>, p: int)
    requires
        0 <= p <= s.len(),
        s.subrange(p, s.len() as int) == breaks_bytes(bs),
        no_boundary_merge(bs),
    ensures
        spec_llex(s, p).ok,
        spec_llex(s, p).kind == crate::TOK_EOS,
        spec_llex(s, p).next_p == s.len(),
        spec_llex(s, p).pre_lines == bs.len(),
        spec_llex(s, p).lines == bs.len(),
    decreases bs.len(),
{
    let rest = s.subrange(p, s.len() as int);
    if bs.len() == 0 {
        assert(p == s.len());
    } else {
        let b0 = bs[0];
        let w = break_bytes(b0).len() as int;
        let tail = breaks_bytes(bs.skip(1));
        assert(rest == break_bytes(b0) + tail);
        assert(rest.len() == s.len() - p);
        assert(p < s.len());
        assert(rest[0] == s[p]);
        assert(byte_at(s, p) == break_bytes(b0)[0]);
        if w == 2 {
            assert(p + 1 < s.len());
            assert(rest[1] == s[p + 1]);
            assert(byte_at(s, p + 1) == break_bytes(b0)[1]);
        }
        if bs.len() == 1 {
            assert(tail.len() == 0);
        } else {
            assert(bs.skip(1).len() > 0);
            assert(tail == break_bytes(bs[1]) + breaks_bytes(bs.skip(1).skip(1)));
            assert(!merges(bs[0], bs[1]));
            if w == 1 {
                assert(rest[1] == tail[0]);
                assert(p + 1 < s.len());
                assert(rest[1] == s[p + 1]);
                assert(byte_at(s, p + 1) == break_bytes(bs[1])[0]);
            }
        }
        assert(nl_width(s, p) == w);
        assert forall|i: int| 0 <= i < tail.len() implies tail[i] == s[p + w + i] by {
            assert(tail[i] == rest[w + i]);
            assert(rest[w + i] == s[p + w + i]);
        }
        assert(s.subrange(p + w, s.len() as int) =~= tail);
        lemma_line_breaks_counted(s, bs.skip(1), p + w);
        assert(spec_llex(s, p) == step_shift(spec_llex(s, p + w), 1));
    }
}

} // verus!
