//! Lexical analyzer for a Lua-derived source language.
//!
//! The lexer turns a raw byte buffer into a stream of tokens: single-byte
//! punctuation, multi-byte operators, keywords, identifiers and long-bracket
//! string literals, with line numbers tracked across all newline conventions
//! and one token of lookahead.  Identifier and string text is stored once in
//! a string-interning arena, so equal text always yields one handle.

use vstd::prelude::*;

pub mod ctype;
pub mod intern;
pub mod keywords;
pub mod scan;
pub mod source;

pub use intern::InternError;
pub use intern::Interner;
pub use intern::StringRef;
pub use intern::PAGE_CAPACITY;
pub use source::Source;
pub use source::EOZ;

use source::byte_at;

verus! {

/// Token kinds below this value are single-byte tokens whose kind equals the
/// raw byte value; symbolic kinds (keywords, multi-byte operators, literal
/// classes) are numbered contiguously above it.
pub const TOK_OFS: i32 = 256;

pub const TOK_AND: i32 = 257;
pub const TOK_BREAK: i32 = 258;
pub const TOK_DO: i32 = 259;
pub const TOK_ELSE: i32 = 260;
pub const TOK_ELSEIF: i32 = 261;
pub const TOK_END: i32 = 262;
pub const TOK_FALSE: i32 = 263;
pub const TOK_FOR: i32 = 264;
pub const TOK_FUNCTION: i32 = 265;
pub const TOK_GOTO: i32 = 266;
pub const TOK_IF: i32 = 267;
pub const TOK_IN: i32 = 268;
pub const TOK_LOCAL: i32 = 269;
pub const TOK_DEFER: i32 = 270;
pub const TOK_NIL: i32 = 271;
pub const TOK_NOT: i32 = 272;
pub const TOK_OR: i32 = 273;
pub const TOK_REPEAT: i32 = 274;
pub const TOK_RETURN: i32 = 275;
pub const TOK_THEN: i32 = 276;
pub const TOK_TRUE: i32 = 277;
pub const TOK_UNTIL: i32 = 278;
pub const TOK_WHILE: i32 = 279;
pub const TOK_IDIV: i32 = 280;
pub const TOK_CONCAT: i32 = 281;
pub const TOK_DOTS: i32 = 282;
pub const TOK_EQ: i32 = 283;
pub const TOK_GE: i32 = 284;
pub const TOK_LE: i32 = 285;
pub const TOK_NE: i32 = 286;
pub const TOK_SHL: i32 = 287;
pub const TOK_SHR: i32 = 288;
pub const TOK_DBCOLON: i32 = 289;
pub const TOK_TO_INTEGER: i32 = 290;
pub const TOK_TO_NUMBER: i32 = 291;
pub const TOK_TO_INTARRAY: i32 = 292;
pub const TOK_TO_NUMARRAY: i32 = 293;
pub const TOK_TO_TABLE: i32 = 294;
pub const TOK_TO_STRING: i32 = 295;
pub const TOK_TO_CLOSURE: i32 = 296;
pub const TOK_EOS: i32 = 297;
pub const TOK_FLT: i32 = 298;
pub const TOK_INT: i32 = 299;
pub const TOK_NAME: i32 = 300;
pub const TOK_STRING: i32 = 301;

/// First keyword token kind; the keyword with index `i` in the keyword table
/// has kind `FIRST_RESERVED + i`.
pub const FIRST_RESERVED: i32 = 257;
/// Number of reserved words in the keyword table.
pub const LAST_RESERVED: i32 = 23;

pub const CHAR_RET: i32 = 13;
pub const CHAR_NL: i32 = 10;
pub const CHAR_SPACE: i32 = 32;
pub const CHAR_FF: i32 = 12;
pub const CHAR_HTAB: i32 = 9;
pub const CHAR_VTAB: i32 = 11;
pub const CHAR_HYPEN: i32 = 45;
pub const CHAR_LBRACKET: i32 = 91;
pub const CHAR_RBRACKET: i32 = 93;
pub const CHAR_LBRACE: i32 = 123;
pub const CHAR_RBRACE: i32 = 125;
pub const CHAR_LPAREN: i32 = 40;
pub const CHAR_RPAREN: i32 = 41;
pub const CHAR_EQUAL: i32 = 61;
pub const CHAR_COMMA: i32 = 44;
pub const CHAR_LT: i32 = 60;
pub const CHAR_GT: i32 = 62;
pub const CHAR_FSLASH: i32 = 47;
pub const CHAR_TILDE: i32 = 126;
pub const CHAR_COLON: i32 = 58;
pub const CHAR_DOT: i32 = 46;

/// What went wrong while scanning.  Every malformed-input condition is a
/// recoverable result, never a panic.
#[derive(Debug, Clone, Copy, PartialEq, Eq, Structural)]
pub enum LexErrorKind {
    /// End of input inside a long-bracket string, before its closer.
    UnterminatedLongString,
    /// End of input inside a long-bracket comment, before its closer.
    UnterminatedLongComment,
    /// A `[` followed by one or more `=` signs without a second `[`.
    InvalidLongBracketDelimiter,
    /// Interned text (a string literal or identifier) longer than one arena
    /// page.
    StringTooLargeForArena,
    /// A byte that cannot begin any token.  Defined for completeness; the
    /// scan loop emits every unclassified byte verbatim, so it never arises.
    InvalidCharacter,
}

/// A scan failure: the error kind and the line number where it was detected.
#[derive(Debug, Clone, Copy, PartialEq, Eq, Structural)]
pub struct LexError {
    pub kind: LexErrorKind,
    pub line: usize,
}

/// The literal payload of a token: an integer literal's value, or a handle to
/// the interned text of an identifier or string literal.
#[derive(Debug, Clone, Copy, PartialEq, Eq)]
pub enum SemInfo {
    IntegerLit(i64),
    StringLit(StringRef),
}

/// A token: a kind, the line the token starts on, and the literal payload
/// carried by identifier and literal tokens.
///
/// Kinds below [`TOK_OFS`] are single-byte tokens equal to the raw byte
/// value; symbolic kinds start at [`FIRST_RESERVED`].
#[derive(Debug, Clone, Copy)]
pub struct Token {
    pub token: i32,
    pub line: usize,
    pub seminfo: Option<SemInfo>,
}

/// A payload-free token.
fn tok(t: i32, line: usize) -> (tk: Token)
    ensures
        tk == (Token { token: t, line, seminfo: None }),
{
    Token { token: t, line, seminfo: None }
}

/// The interner contents after one scan step: extended by the step's
/// interned text, if any.
pub open spec fn spec_step_interned(c: Seq<Seq<u8>>, st: scan::ScanStep) -> Seq<Seq<u8>> {
    match st.interned {
        Some(t) => intern::spec_interned(c, t),
        None => c,
    }
}

/// Whether a token payload carries exactly the text a scan step produced:
/// no payload when the step carries none, otherwise a string handle that
/// resolves to the step's text in the interner contents `c`.
pub open spec fn payload_matches(si: Option<SemInfo>, text: Option<Seq<u8>>, c: Seq<Seq<u8>>) -> bool {
    match text {
        None => si is None,
        Some(t) => si matches Some(SemInfo::StringLit(sr)) && sr.idx < c.len() && c[sr.idx as int]
            == t,
    }
}

/// The scanning state machine.  It pulls bytes from the byte cursor, skips
/// whitespace and comments, tracks line numbers, and emits tokens, interning
/// identifier and string-literal text.  At most one token of lookahead is
/// buffered at a time.
pub struct Lexer {
    current: i32,
    linenumber: usize,
    lastline: usize,
    /// The current token: what the latest [`Lexer::next_token`] produced.
    pub t: Option<Token>,
    lookahead: Option<Token>,
    source: Source,
    buff: Vec<u8>,
    interner: Interner,
}

impl Lexer {
    /// The whole input buffer.
    pub closed spec fn input(&self) -> Seq<u8> {
        self.source.input()
    }

    /// How many input bytes the scanner has consumed; the byte the scanner
    /// currently looks at is `byte_at(input(), pos())`.
    pub closed spec fn pos(&self) -> int {
        if self.current == EOZ {
            self.input().len() as int
        } else {
            self.source.pos() - 1
        }
    }

    /// The current line number: how many line breaks have been consumed.
    pub closed spec fn line(&self) -> int {
        self.linenumber as int
    }

    /// The line number captured when the current token was requested.
    pub closed spec fn last_line(&self) -> int {
        self.lastline as int
    }

    /// The interned byte sequences; token payloads index into this.
    pub closed spec fn interned(&self) -> Seq<Seq<u8>> {
        self.interner.contents()
    }

    /// The buffered lookahead token, if one has been peeked.
    pub closed spec fn lookahead_token(&self) -> Option<Token> {
        self.lookahead
    }

    /// The current token, as a spec value.
    pub closed spec fn current_token(&self) -> Option<Token> {
        self.t
    }

    spec fn buff_view(&self) -> Seq<u8> {
        self.buff@
    }

    /// Any string handle carried by a buffered token is one the interner
    /// handed out.
    spec fn token_ok(&self, ot: Option<Token>) -> bool {
        match ot {
            Some(tk) => match tk.seminfo {
                Some(SemInfo::StringLit(sr)) => sr.idx < self.interner.contents().len(),
                _ => true,
            },
            None => true,
        }
    }

    pub closed spec fn wf(&self) -> bool {
        &&& self.source.wf()
        &&& self.interner.wf()
        &&& (self.current == EOZ ==> self.source.pos() == self.input().len())
        &&& (self.current != EOZ ==> 1 <= self.source.pos() <= self.input().len()
            && self.current == self.input()[self.source.pos() - 1] as i32)
        &&& 0 <= self.line() <= self.pos()
        &&& self.token_ok(self.t)
        &&& self.token_ok(self.lookahead)
    }

    pub fn new(source: Source) -> (lx: Lexer)
        requires
            source.wf(),
        ensures
            lx.wf(),
            lx.input() == source.input(),
            lx.pos() == source.pos(),
            lx.line() == 0,
            lx.last_line() == 0,
            lx.current_token() is None,
            lx.lookahead_token() is None,
            lx.interned() == Seq::<Seq<u8>>::empty(),
    {
        let mut src = source;
        let current = src.getc();
        Lexer {
            current,
            linenumber: 0,
            lastline: 0,
            t: None,
            lookahead: None,
            source: src,
            buff: Vec::new(),
            interner: Interner::new(),
        }
    }

    /// The current line number.
    pub fn line_number(&self) -> (n: usize)
        ensures
            n == self.line(),
    {
        self.linenumber
    }

    /// Round-trip a string handle back to a copy of the interned bytes;
    /// `None` exactly when the handle is not one this lexer's interner
    /// handed out.
    pub fn text_of(&self, r: StringRef) -> (b: Option<Vec<u8>>)
        requires
            self.wf(),
        ensures
            match b {
                Some(v) => r.idx < self.interned().len() && v@ == self.interned()[r.idx as int],
                None => r.idx >= self.interned().len(),
            },
    {
        self.interner.resolve(r)
    }

    fn next_ch(&mut self)
        requires
            old(self).wf(),
        ensures
            final(self).wf(),
            final(self).input() == old(self).input(),
            final(self).pos() == if old(self).pos() < old(self).input().len() {
                old(self).pos() + 1
            } else {
                old(self).pos()
            },
            final(self).line() == old(self).line(),
            final(self).last_line() == old(self).last_line(),
            final(self).buff_view() == old(self).buff_view(),
            final(self).interned() == old(self).interned(),
            final(self).current_token() == old(self).current_token(),
            final(self).lookahead_token() == old(self).lookahead_token(),
    {
        self.current = self.source.getc();
    }

    fn save_and_next_ch(&mut self)
        requires
            old(self).wf(),
            old(self).pos() < old(self).input().len(),
        ensures
            final(self).wf(),
            final(self).input() == old(self).input(),
            final(self).pos() == old(self).pos() + 1,
            final(self).line() == old(self).line(),
            final(self).last_line() == old(self).last_line(),
            final(self).buff_view() == old(self).buff_view().push(
                old(self).input()[old(self).pos()],
            ),
            final(self).interned() == old(self).interned(),
            final(self).current_token() == old(self).current_token(),
            final(self).lookahead_token() == old(self).lookahead_token(),
    {
        self.buff.push(self.current as u8);
        self.next_ch();
    }

    fn curr_is_new_line(&self) -> (r: bool)
        requires
            self.wf(),
        ensures
            r == scan::is_newline(byte_at(self.input(), self.pos())),
    {
        self.current == CHAR_NL || self.current == CHAR_RET
    }

    /// Consume one line terminator (`\n`, `\r`, `\r\n` or `\n\r`) and count
    /// one line.
    fn inc_line_number(&mut self)
        requires
            old(self).wf(),
            scan::is_newline(byte_at(old(self).input(), old(self).pos())),
        ensures
            final(self).wf(),
            final(self).input() == old(self).input(),
            final(self).pos() == old(self).pos() + scan::nl_width(
                old(self).input(),
                old(self).pos(),
            ),
            final(self).line() == old(self).line() + 1,
            final(self).last_line() == old(self).last_line(),
            final(self).buff_view() == old(self).buff_view(),
            final(self).interned() == old(self).interned(),
            final(self).current_token() == old(self).current_token(),
            final(self).lookahead_token() == old(self).lookahead_token(),
    {
        let old_c = self.current;
        self.next_ch();
        if self.curr_is_new_line() && self.current != old_c {
            self.next_ch();
        }
        self.linenumber = self.linenumber + 1;
    }

    /// Consume a sequence `[=*` or `]=*`: the opening bracket byte and the
    /// run of `=` after it, saving the consumed bytes.  The first component
    /// tells whether the run is closed by the same bracket byte (a
    /// well-formed long-bracket delimiter); the second is the run length.
    /// This encodes what the scanner needs of the delimiter: a well-formed
    /// one of level `count`, or a malformed one (`count == 0` meaning an
    /// ordinary bracket).
    fn skip_sep(&mut self) -> (r: (bool, usize))
        requires
            old(self).wf(),
            old(self).pos() < old(self).input().len(),
            byte_at(old(self).input(), old(self).pos()) == CHAR_LBRACKET || byte_at(
                old(self).input(),
                old(self).pos(),
            ) == CHAR_RBRACKET,
        ensures
            final(self).wf(),
            final(self).input() == old(self).input(),
            r.1 == scan::eq_run(old(self).input(), old(self).pos() + 1),
            final(self).pos() == old(self).pos() + 1 + r.1,
            r.0 == (byte_at(old(self).input(), final(self).pos()) == byte_at(
                old(self).input(),
                old(self).pos(),
            )),
            scan::spec_skip_sep(old(self).input(), old(self).pos()) == (if r.0 {
                r.1 as int
            } else {
                -(r.1 as int) - 1
            }),
            final(self).line() == old(self).line(),
            final(self).last_line() == old(self).last_line(),
            final(self).buff_view() == old(self).buff_view() + old(self).input().subrange(
                old(self).pos(),
                final(self).pos(),
            ),
            final(self).interned() == old(self).interned(),
            final(self).current_token() == old(self).current_token(),
            final(self).lookahead_token() == old(self).lookahead_token(),
    {
        let ghost s = old(self).input();
        let ghost p0 = old(self).pos();
        let b = self.current;
        let mut count: usize = 0;
        self.save_and_next_ch();
        proof {
            assert(self.buff_view() =~= old(self).buff_view() + s.subrange(p0, p0 + 1));
        }
        while self.current == CHAR_EQUAL
            invariant
                self.wf(),
                self.input() == s,
                b == byte_at(s, p0),
                0 <= p0 < s.len(),
                self.pos() == p0 + 1 + count,
                self.pos() <= s.len(),
                scan::eq_run(s, p0 + 1) == count + scan::eq_run(s, self.pos()),
                self.line() == old(self).line(),
                self.last_line() == old(self).last_line(),
                self.buff_view() == old(self).buff_view() + s.subrange(p0, self.pos()),
                self.interned() == old(self).interned(),
                self.current_token() == old(self).current_token(),
                self.lookahead_token() == old(self).lookahead_token(),
            decreases s.len() - self.pos(),
        {
            let ghost pk = self.pos();
            self.save_and_next_ch();
            count = count + 1;
            proof {
                assert(self.buff_view() =~= old(self).buff_view() + s.subrange(p0, self.pos()));
                assert(scan::eq_run(s, pk) == 1 + scan::eq_run(s, pk + 1));
            }
        }
        proof {
            assert(scan::eq_run(s, self.pos()) == 0);
        }
        (self.current == b, count)
    }

    /// Scan a long-bracket construct of level `sep` from the second opening
    /// `[`, up to and including the matching closer (a `]`, exactly `sep` `=`
    /// bytes, then `]`).  With
    /// `save_seminfo` the material strictly between opener and closer is
    /// interned and returned as a string token (line terminators normalized
    /// to `\n`); without it the content is skipped and discarded (a long
    /// comment).  Fails when the input ends before the closer, or when a
    /// saved string exceeds the interner's page capacity.
    fn read_long_string(&mut self, save_seminfo: bool, sep: usize) -> (r: Result<
        Option<Token>,
        LexError,
    >)
        requires
            old(self).wf(),
            old(self).pos() < old(self).input().len(),
            byte_at(old(self).input(), old(self).pos()) == CHAR_LBRACKET,
            sep + 2 <= old(self).input().len(),
            save_seminfo ==> old(self).buff_view().len() == sep + 1,
        ensures
            final(self).wf(),
            final(self).input() == old(self).input(),
            final(self).current_token() == old(self).current_token(),
            final(self).lookahead_token() == old(self).lookahead_token(),
            final(self).last_line() == old(self).last_line(),
            ({
                let ls = scan::spec_long_string(old(self).input(), old(self).pos(), sep as int);
                &&& ((r is Ok) <==> (ls.ok && (!save_seminfo || ls.text.len()
                    <= intern::PAGE_CAPACITY)))
                &&& final(self).pos() == ls.end_p
                &&& final(self).line() == old(self).line() + ls.lines
                &&& (r matches Ok(ot) ==> (if save_seminfo {
                    &&& final(self).interned() == intern::spec_interned(
                        old(self).interned(),
                        ls.text,
                    )
                    &&& ot matches Some(tk) && tk.token == TOK_STRING && tk.line == old(
                        self,
                    ).line() && payload_matches(tk.seminfo, Some(ls.text), final(self).interned())
                } else {
                    ot is None && final(self).interned() == old(self).interned()
                }))
                &&& (r matches Err(e) ==> {
                    &&& final(self).interned() == old(self).interned()
                    &&& e.line == old(self).line() + ls.lines
                    &&& e.kind == (if !ls.ok {
                        if save_seminfo {
                            LexErrorKind::UnterminatedLongString
                        } else {
                            LexErrorKind::UnterminatedLongComment
                        }
                    } else {
                        LexErrorKind::StringTooLargeForArena
                    })
                })
            }),
    {
        let ghost s = old(self).input();
        let ghost p0 = old(self).pos();
        let ghost l0 = old(self).line();
        let line0 = self.linenumber;
        self.save_and_next_ch();  // consume the second '['
        if self.curr_is_new_line() {
            // a string starting with a newline does not contain it
            self.inc_line_number();
        }
        let ghost pb = self.pos();
        let ghost lb = self.line();
        let ghost g0 = scan::scan_long(s, pb, sep as int);
        let ghost ls = scan::spec_long_string(s, p0, sep as int);
        let ghost boff = sep + 2 as int;
        proof {
            assert(ls.ok == g0.ok && ls.end_p == g0.end_p && ls.text == g0.text && ls.lines == (lb
                - l0) + g0.lines);
            if save_seminfo {
                assert(self.buff_view().len() == boff);
                assert(g0.text =~= self.buff_view().subrange(
                    boff as int,
                    self.buff_view().len() as int,
                ) + g0.text);
            }
        }
        loop
            invariant_except_break
                self.wf(),
                self.input() == s,
                s == old(self).input(),
                p0 == old(self).pos(),
                l0 == old(self).line(),
                line0 as int == l0,
                boff == sep + 2,
                ls == scan::spec_long_string(s, p0, sep as int),
                ls.ok == g0.ok,
                ls.end_p == g0.end_p,
                ls.text == g0.text,
                ls.lines == (lb - l0) + g0.lines,
                0 <= pb <= self.pos() <= s.len(),
                lb <= self.line(),
                self.interned() == old(self).interned(),
                self.current_token() == old(self).current_token(),
                self.lookahead_token() == old(self).lookahead_token(),
                self.last_line() == old(self).last_line(),
                sep + 2 <= s.len(),
                g0.ok == scan::scan_long(s, self.pos(), sep as int).ok,
                g0.end_p == scan::scan_long(s, self.pos(), sep as int).end_p,
                g0.lines == (self.line() - lb) + scan::scan_long(s, self.pos(), sep as int).lines,
                save_seminfo ==> boff <= self.buff_view().len() && g0.text == self.buff_view()
                    .subrange(boff as int, self.buff_view().len() as int) + scan::scan_long(
                    s,
                    self.pos(),
                    sep as int,
                ).text,
            ensures
                self.wf(),
                self.input() == s,
                self.interned() == old(self).interned(),
                self.current_token() == old(self).current_token(),
                self.lookahead_token() == old(self).lookahead_token(),
                self.last_line() == old(self).last_line(),
                g0.ok,
                self.pos() == g0.end_p,
                self.line() == lb + g0.lines,
                save_seminfo ==> self.buff_view().len() == boff + g0.text.len() + sep + 2
                    && g0.text == self.buff_view().subrange(boff as int, boff + g0.text.len()),
            decreases s.len() - self.pos(),
        {
            if self.current == EOZ {
                return Err(
                    LexError {
                        kind: if save_seminfo {
                            LexErrorKind::UnterminatedLongString
                        } else {
                            LexErrorKind::UnterminatedLongComment
                        },
                        line: self.linenumber,
                    },
                );
            } else if self.current == CHAR_RBRACKET {
                let ghost p = self.pos();
                let ghost buff_a = self.buff_view();
                let ghost cur_a = scan::scan_long(s, p, sep as int);
                proof {
                    scan::lemma_eq_run(s, p + 1);
                }
                let (matched, run) = self.skip_sep();
                if matched && run == sep {
                    self.save_and_next_ch();  // consume the closer's second ']'
                    proof {
                        assert(cur_a.ok && cur_a.end_p == p + 2 + sep && cur_a.lines == 0
                            && cur_a.text == Seq::<u8>::empty());
                        if save_seminfo {
                            assert(self.buff_view().len() == buff_a.len() + sep + 2);
                            assert(g0.text =~= buff_a.subrange(boff as int, buff_a.len() as int));
                            assert(g0.text =~= self.buff_view().subrange(
                                boff as int,
                                boff + g0.text.len(),
                            ));
                        }
                    }
                    break ;
                }
                proof {
                    let q = p + 1 + run;
                    let cur_b = scan::scan_long(s, q, sep as int);
                    assert(cur_a.text == s.subrange(p, q) + cur_b.text);
                    if save_seminfo {
                        assert(self.buff_view().subrange(boff as int, self.buff_view().len() as int)
                            =~= buff_a.subrange(boff as int, buff_a.len() as int) + s.subrange(
                            p,
                            q,
                        ));
                        assert(g0.text =~= self.buff_view().subrange(
                            boff as int,
                            self.buff_view().len() as int,
                        ) + cur_b.text);
                    }
                }
            } else if self.current == CHAR_RET || self.current == CHAR_NL {
                let ghost p = self.pos();
                let ghost buff_a = self.buff_view();
                let ghost cur_a = scan::scan_long(s, p, sep as int);
                self.buff.push(CHAR_NL as u8);
                self.inc_line_number();
                if !save_seminfo {
                    self.buff.clear();  // avoid keeping discarded comment text
                }
                proof {
                    let cur_b = scan::scan_long(s, p + scan::nl_width(s, p), sep as int);
                    assert(cur_a.text == seq![CHAR_NL as u8] + cur_b.text);
                    if save_seminfo {
                        assert(self.buff_view().subrange(boff as int, self.buff_view().len() as int)
                            =~= buff_a.subrange(boff as int, buff_a.len() as int) + seq![
                            CHAR_NL as u8,
                        ]);
                        assert(g0.text =~= self.buff_view().subrange(
                            boff as int,
                            self.buff_view().len() as int,
                        ) + cur_b.text);
                    }
                }
            } else {
                let ghost p = self.pos();
                let ghost buff_a = self.buff_view();
                let ghost cur_a = scan::scan_long(s, p, sep as int);
                if save_seminfo {
                    self.save_and_next_ch();
                } else {
                    self.next_ch();
                }
                proof {
                    let cur_b = scan::scan_long(s, p + 1, sep as int);
                    assert(cur_a.text == seq![s[p]] + cur_b.text);
                    if save_seminfo {
                        assert(self.buff_view().subrange(boff as int, self.buff_view().len() as int)
                            =~= buff_a.subrange(boff as int, buff_a.len() as int) + seq![s[p]]);
                        assert(g0.text =~= self.buff_view().subrange(
                            boff as int,
                            self.buff_view().len() as int,
                        ) + cur_b.text);
                    }
                }
            }
        }
        if save_seminfo {
            let start = 2 + sep;
            let end = self.buff.len() - start;
            let content = vec_range(&self.buff, start, end);
            proof {
                assert(content@ =~= g0.text);
            }
            match self.interner.intern(&content) {
                Ok(sr) => Ok(
                    Some(
                        Token {
                            token: TOK_STRING,
                            line: line0,
                            seminfo: Some(SemInfo::StringLit(sr)),
                        },
                    ),
                ),
                Err(_) => Err(
                    LexError { kind: LexErrorKind::StringTooLargeForArena, line: self.linenumber },
                ),
            }
        } else {
            Ok(None)
        }
    }

    /// Scan and return the next token, consuming any whitespace, line
    /// terminators and comments before it.  The returned token's kind, line
    /// and payload, the bytes consumed, the lines counted and the text
    /// interned are exactly those of one step of the scanner's
    /// specification, [`scan::spec_llex`].
    #[verifier::rlimit(50)]
    fn llex(&mut self) -> (r: Result<Token, LexError>)
        requires
            old(self).wf(),
        ensures
            final(self).wf(),
            final(self).input() == old(self).input(),
            final(self).current_token() == old(self).current_token(),
            final(self).lookahead_token() == old(self).lookahead_token(),
            final(self).last_line() == old(self).last_line(),
            ({
                let st = scan::spec_llex(old(self).input(), old(self).pos());
                &&& ((r is Ok) <==> st.ok)
                &&& (r matches Ok(tk) ==> {
                    &&& tk.token == st.kind
                    &&& tk.line == old(self).line() + st.pre_lines
                    &&& final(self).pos() == st.next_p
                    &&& final(self).line() == old(self).line() + st.lines
                    &&& final(self).interned() == spec_step_interned(old(self).interned(), st)
                    &&& payload_matches(tk.seminfo, st.text, final(self).interned())
                })
                &&& (r matches Err(e) ==> {
                    &&& e.kind == st.err
                    &&& e.line == old(self).line() + st.lines
                    &&& final(self).pos() == st.next_p
                    &&& final(self).line() == old(self).line() + st.lines
                    &&& final(self).interned() == old(self).interned()
                })
            }),
    {
        self.buff.clear();
        let ghost s = old(self).input();
        let ghost st = scan::spec_llex(s, old(self).pos());
        loop
            invariant
                self.wf(),
                self.input() == s,
                s == old(self).input(),
                self.interned() == old(self).interned(),
                self.current_token() == old(self).current_token(),
                self.lookahead_token() == old(self).lookahead_token(),
                self.last_line() == old(self).last_line(),
                old(self).line() <= self.line(),
                st == scan::spec_llex(s, old(self).pos()),
                self.buff_view().len() == 0,
                ({
                    let cur = scan::spec_llex(s, self.pos());
                    let dl = self.line() - old(self).line();
                    &&& st.ok == cur.ok
                    &&& st.kind == cur.kind
                    &&& st.err == cur.err
                    &&& st.text == cur.text
                    &&& st.interned == cur.interned
                    &&& st.pre_lines == cur.pre_lines + dl
                    &&& st.next_p == cur.next_p
                    &&& st.lines == cur.lines + dl
                }),
            decreases s.len() - self.pos(),
        {
            if self.current == CHAR_RET || self.current == CHAR_NL {
                self.inc_line_number();
            } else if self.current == CHAR_SPACE || self.current == CHAR_FF || self.current
                == CHAR_HTAB || self.current == CHAR_VTAB {
                self.next_ch();
            } else if self.current == EOZ {
                return Ok(tok(TOK_EOS, self.linenumber));
            } else if self.current == CHAR_HYPEN {
                // '-', or '--' opening a comment
                let line_start = self.linenumber;
                let ghost p = self.pos();
                self.next_ch();
                if self.current != CHAR_HYPEN {
                    return Ok(tok(CHAR_HYPEN, line_start));
                }
                self.next_ch();
                if self.current == CHAR_LBRACKET {
                    let (is_open, run) = self.skip_sep();
                    self.buff.clear();  // skip_sep dirtied the buffer
                    if is_open {
                        // a long comment: skip and discard its content
                        let ghost q2 = self.pos();
                        proof {
                            scan::lemma_long_string_bounds(s, q2, run as int);
                        }
                        match self.read_long_string(false, run) {
                            Ok(_) => {},
                            Err(e) => {
                                return Err(e);
                            },
                        }
                        self.buff.clear();
                        proof {
                            let ls = scan::spec_long_string(s, q2, run as int);
                            assert(scan::spec_llex(s, p) == scan::step_shift(
                                scan::spec_llex(s, ls.end_p),
                                ls.lines,
                            ));
                        }
                    } else {
                        // malformed long-bracket head: a short comment
                        let ghost q = self.pos();
                        let ghost lc = self.line();
                        proof {
                            scan::lemma_line_end(s, q);
                        }
                        while !(self.current == CHAR_NL || self.current == CHAR_RET)
                            && self.current != EOZ
                            invariant
                                self.wf(),
                                self.input() == s,
                                self.interned() == old(self).interned(),
                                self.current_token() == old(self).current_token(),
                                self.lookahead_token() == old(self).lookahead_token(),
                                self.last_line() == old(self).last_line(),
                                self.buff_view().len() == 0,
                                self.line() == lc,
                                0 <= q <= self.pos() <= scan::line_end(s, q),
                                scan::line_end(s, q) <= s.len(),
                                forall|i: int|
                                    q <= i < scan::line_end(s, q) ==> !scan::is_newline(
                                        byte_at(s, i),
                                    ),
                                scan::line_end(s, q) < s.len() ==> scan::is_newline(
                                    byte_at(s, scan::line_end(s, q)),
                                ),
                            decreases s.len() - self.pos(),
                        {
                            self.next_ch();
                        }
                        proof {
                            if self.pos() < scan::line_end(s, q) {
                                assert(!scan::is_newline(byte_at(s, self.pos())));
                                assert(byte_at(s, self.pos()) != EOZ);
                                assert(false);
                            }
                            assert(self.pos() == scan::line_end(s, q));
                            assert(byte_at(s, p) == CHAR_HYPEN && byte_at(s, p + 1) == CHAR_HYPEN
                                && byte_at(s, p + 2) == CHAR_LBRACKET);
                            assert(scan::spec_llex(s, p) == scan::spec_llex(
                                s,
                                scan::line_end(s, q),
                            ));
                        }
                    }
                } else {
                    // a short comment: skip to the end of the line
                    let ghost q = self.pos();
                    let ghost lc = self.line();
                    proof {
                        scan::lemma_line_end(s, q);
                    }
                    while !(self.current == CHAR_NL || self.current == CHAR_RET) && self.current
                        != EOZ
                        invariant
                            self.wf(),
                            self.input() == s,
                            self.interned() == old(self).interned(),
                            self.current_token() == old(self).current_token(),
                            self.lookahead_token() == old(self).lookahead_token(),
                            self.last_line() == old(self).last_line(),
                            self.buff_view().len() == 0,
                            self.line() == lc,
                            0 <= q <= self.pos() <= scan::line_end(s, q),
                            scan::line_end(s, q) <= s.len(),
                            forall|i: int|
                                q <= i < scan::line_end(s, q) ==> !scan::is_newline(byte_at(s, i)),
                            scan::line_end(s, q) < s.len() ==> scan::is_newline(
                                byte_at(s, scan::line_end(s, q)),
                            ),
                        decreases s.len() - self.pos(),
                    {
                        self.next_ch();
                    }
                    proof {
                        if self.pos() < scan::line_end(s, q) {
                            assert(!scan::is_newline(byte_at(s, self.pos())));
                            assert(byte_at(s, self.pos()) != EOZ);
                            assert(false);
                        }
                        assert(self.pos() == scan::line_end(s, q));
                        assert(byte_at(s, p) == CHAR_HYPEN && byte_at(s, p + 1) == CHAR_HYPEN
                            && byte_at(s, p + 2) != CHAR_LBRACKET);
                        assert(scan::spec_llex(s, p) == scan::spec_llex(s, scan::line_end(s, q)));
                    }
                }
            } else if self.current == CHAR_LBRACKET {
                // a long string, an ordinary '[', or a malformed delimiter
                let line_start = self.linenumber;
                let (is_open, run) = self.skip_sep();
                if is_open {
                    match self.read_long_string(true, run) {
                        Ok(opt) => {
                            if let Some(tk) = opt {
                                return Ok(tk);
                            }
                            return vstd::pervasive::unreached();
                        },
                        Err(e) => {
                            return Err(e);
                        },
                    }
                } else if run == 0 {
                    return Ok(tok(CHAR_LBRACKET, line_start));
                } else {
                    return Err(
                        LexError {
                            kind: LexErrorKind::InvalidLongBracketDelimiter,
                            line: self.linenumber,
                        },
                    );
                }
            } else if self.current == CHAR_EQUAL {
                let line_start = self.linenumber;
                self.next_ch();
                if self.check_next1(CHAR_EQUAL) {
                    return Ok(tok(TOK_EQ, line_start));
                } else {
                    return Ok(tok(CHAR_EQUAL, line_start));
                }
            } else if self.current == CHAR_LT {
                let line_start = self.linenumber;
                self.next_ch();
                if self.check_next1(CHAR_EQUAL) {
                    return Ok(tok(TOK_LE, line_start));
                } else if self.check_next1(CHAR_LT) {
                    return Ok(tok(TOK_SHL, line_start));
                } else {
                    return Ok(tok(CHAR_LT, line_start));
                }
            } else if self.current == CHAR_GT {
                let line_start = self.linenumber;
                self.next_ch();
                if self.check_next1(CHAR_EQUAL) {
                    return Ok(tok(TOK_GE, line_start));
                } else if self.check_next1(CHAR_GT) {
                    return Ok(tok(TOK_SHR, line_start));
                } else {
                    return Ok(tok(CHAR_GT, line_start));
                }
            } else if self.current == CHAR_FSLASH {
                let line_start = self.linenumber;
                self.next_ch();
                if self.check_next1(CHAR_FSLASH) {
                    return Ok(tok(TOK_IDIV, line_start));
                } else {
                    return Ok(tok(CHAR_FSLASH, line_start));
                }
            } else if self.current == CHAR_TILDE {
                let line_start = self.linenumber;
                self.next_ch();
                if self.check_next1(CHAR_EQUAL) {
                    return Ok(tok(TOK_NE, line_start));
                } else {
                    return Ok(tok(CHAR_TILDE, line_start));
                }
            } else if self.current == CHAR_COLON {
                let line_start = self.linenumber;
                self.next_ch();
                if self.check_next1(CHAR_COLON) {
                    return Ok(tok(TOK_DBCOLON, line_start));
                } else {
                    return Ok(tok(CHAR_COLON, line_start));
                }
            } else if self.current == CHAR_DOT {
                let line_start = self.linenumber;
                self.next_ch();
                if self.check_next1(CHAR_DOT) {
                    if self.check_next1(CHAR_DOT) {
                        return Ok(tok(TOK_DOTS, line_start));
                    } else {
                        return Ok(tok(TOK_CONCAT, line_start));
                    }
                } else {
                    return Ok(tok(CHAR_DOT, line_start));
                }
            } else if ctype::lislalpha(self.current) {
                // an identifier or a reserved word: the maximal run of
                // alphanumeric bytes, interned and looked up in the keyword
                // table
                let line_start = self.linenumber;
                let ghost pid = self.pos();
                let ghost lcid = self.line();
                proof {
                    scan::lemma_ident_end(s, pid);
                    assert(self.buff_view() =~= s.subrange(pid, pid));
                }
                while ctype::lislalnum(self.current)
                    invariant
                        self.wf(),
                        self.input() == s,
                        self.interned() == old(self).interned(),
                        self.current_token() == old(self).current_token(),
                        self.lookahead_token() == old(self).lookahead_token(),
                        self.last_line() == old(self).last_line(),
                        self.line() == lcid,
                        0 <= pid <= self.pos() <= scan::ident_end(s, pid),
                        scan::ident_end(s, pid) <= s.len(),
                        self.buff_view() == s.subrange(pid, self.pos()),
                        !ctype::spec_is_alnum(byte_at(s, scan::ident_end(s, pid))),
                        forall|i: int|
                            pid <= i < scan::ident_end(s, pid) ==> ctype::spec_is_alnum(byte_at(s, i)),
                    decreases s.len() - self.pos(),
                {
                    self.save_and_next_ch();
                    proof {
                        assert(self.buff_view() =~= s.subrange(pid, self.pos()));
                    }
                }
                proof {
                    if self.pos() < scan::ident_end(s, pid) {
                        assert(ctype::spec_is_alnum(byte_at(s, self.pos())));
                        assert(false);
                    }
                    assert(self.pos() == scan::ident_end(s, pid));
                    assert(self.buff_view() == s.subrange(pid, scan::ident_end(s, pid)));
                }
                let sr = match self.interner.intern(&self.buff) {
                    Ok(sr) => sr,
                    Err(_) => {
                        return Err(
                            LexError {
                                kind: LexErrorKind::StringTooLargeForArena,
                                line: self.linenumber,
                            },
                        );
                    },
                };
                proof {
                    let text = s.subrange(pid, scan::ident_end(s, pid));
                    assert(self.interner.contents() == intern::spec_interned(
                        old(self).interned(),
                        text,
                    ));
                    assert(self.interner.contents()[sr.idx as int] == text);
                    assert(old(self).interned().len() <= self.interner.contents().len());
                    assert(self.token_ok(self.t));
                    assert(self.token_ok(self.lookahead));
                    assert(self.wf());
                }
                match self.interner.is_reserved(sr) {
                    Some(k) => {
                        return Ok(tok(k, line_start));
                    },
                    None => {
                        return Ok(
                            Token {
                                token: TOK_NAME,
                                line: line_start,
                                seminfo: Some(SemInfo::StringLit(sr)),
                            },
                        );
                    },
                }
            } else {
                // any other byte is emitted verbatim as a single-byte token
                let line_start = self.linenumber;
                let c = self.current;
                self.next_ch();
                return Ok(tok(c, line_start));
            }
        }
    }

    /// Consume and return the next token.  A buffered lookahead token is
    /// taken without touching the byte cursor; otherwise one token is
    /// scanned, exactly as [`scan::spec_llex`] describes.  The returned
    /// token also becomes the current token `t`; on an error there is none.
    pub fn advance(&mut self) -> (r: Result<Token, LexError>)
        requires
            old(self).wf(),
        ensures
            final(self).wf(),
            final(self).input() == old(self).input(),
            final(self).last_line() == old(self).line(),
            final(self).lookahead_token() is None,
            (r matches Ok(tk) ==> final(self).current_token() == Some(tk)),
            (r is Err ==> final(self).current_token() is None),
            match old(self).lookahead_token() {
                Some(tk) => r == Ok::<Token, LexError>(tk) && final(self).pos() == old(self).pos()
                    && final(self).line() == old(self).line() && final(self).interned() == old(
                    self,
                ).interned(),
                None => ({
                    let st = scan::spec_llex(old(self).input(), old(self).pos());
                    &&& ((r is Ok) <==> st.ok)
                    &&& (r matches Ok(tk) ==> {
                        &&& tk.token == st.kind
                        &&& tk.line == old(self).line() + st.pre_lines
                        &&& final(self).pos() == st.next_p
                        &&& final(self).line() == old(self).line() + st.lines
                        &&& final(self).interned() == spec_step_interned(old(self).interned(), st)
                        &&& payload_matches(tk.seminfo, st.text, final(self).interned())
                    })
                    &&& (r matches Err(e) ==> {
                        &&& e.kind == st.err
                        &&& e.line == old(self).line() + st.lines
                        &&& final(self).pos() == st.next_p
                        &&& final(self).line() == old(self).line() + st.lines
                        &&& final(self).interned() == old(self).interned()
                    })
                }),
            },
    {
        self.lastline = self.linenumber;
        match self.lookahead {
            Some(tk) => {
                self.lookahead = None;
                self.t = Some(tk);
                Ok(tk)
            },
            None => {
                match self.llex() {
                    Ok(tk) => {
                        self.t = Some(tk);
                        Ok(tk)
                    },
                    Err(e) => {
                        self.t = None;
                        Err(e)
                    },
                }
            },
        }
    }

    /// Advance the lexer to the next token, storing it as the current token
    /// `t`.
    pub fn next_token(&mut self) -> (r: Result<(), LexError>)
        requires
            old(self).wf(),
        ensures
            final(self).wf(),
            final(self).input() == old(self).input(),
            final(self).last_line() == old(self).line(),
            final(self).lookahead_token() is None,
            (r is Ok <==> final(self).current_token() is Some),
            match old(self).lookahead_token() {
                Some(tk) => r is Ok && final(self).current_token() == Some(tk) && final(self).pos()
                    == old(self).pos() && final(self).line() == old(self).line() && final(self).interned()
                    == old(self).interned(),
                None => ({
                    let st = scan::spec_llex(old(self).input(), old(self).pos());
                    &&& ((r is Ok) <==> st.ok)
                    &&& (final(self).current_token() matches Some(tk) ==> {
                        &&& tk.token == st.kind
                        &&& tk.line == old(self).line() + st.pre_lines
                        &&& final(self).pos() == st.next_p
                        &&& final(self).line() == old(self).line() + st.lines
                        &&& final(self).interned() == spec_step_interned(old(self).interned(), st)
                        &&& payload_matches(tk.seminfo, st.text, final(self).interned())
                    })
                    &&& (r matches Err(e) ==> {
                        &&& e.kind == st.err
                        &&& e.line == old(self).line() + st.lines
                        &&& final(self).pos() == st.next_p
                        &&& final(self).line() == old(self).line() + st.lines
                        &&& final(self).interned() == old(self).interned()
                    })
                }),
            },
    {
        match self.advance() {
            Ok(_) => Ok(()),
            Err(e) => Err(e),
        }
    }

    /// Look one token ahead without consuming it: the next [`Lexer::advance`]
    /// returns the same token.  At most one token is ever buffered.
    pub fn peek(&mut self) -> (r: Result<Token, LexError>)
        requires
            old(self).wf(),
        ensures
            final(self).wf(),
            final(self).input() == old(self).input(),
            final(self).current_token() == old(self).current_token(),
            final(self).last_line() == old(self).last_line(),
            (r matches Ok(tk) ==> final(self).lookahead_token() == Some(tk)),
            (r is Err ==> final(self).lookahead_token() is None),
            match old(self).lookahead_token() {
                Some(tk) => r == Ok::<Token, LexError>(tk) && final(self).pos() == old(self).pos()
                    && final(self).line() == old(self).line() && final(self).interned() == old(
                    self,
                ).interned(),
                None => ({
                    let st = scan::spec_llex(old(self).input(), old(self).pos());
                    &&& ((r is Ok) <==> st.ok)
                    &&& (r matches Ok(tk) ==> {
                        &&& tk.token == st.kind
                        &&& tk.line == old(self).line() + st.pre_lines
                        &&& final(self).pos() == st.next_p
                        &&& final(self).line() == old(self).line() + st.lines
                        &&& final(self).interned() == spec_step_interned(old(self).interned(), st)
                        &&& payload_matches(tk.seminfo, st.text, final(self).interned())
                    })
                    &&& (r matches Err(e) ==> {
                        &&& e.kind == st.err
                        &&& e.line == old(self).line() + st.lines
                        &&& final(self).pos() == st.next_p
                        &&& final(self).line() == old(self).line() + st.lines
                        &&& final(self).interned() == old(self).interned()
                    })
                }),
            },
    {
        match self.lookahead {
            Some(tk) => Ok(tk),
            None => {
                match self.llex() {
                    Ok(tk) => {
                        self.lookahead = Some(tk);
                        Ok(tk)
                    },
                    Err(e) => Err(e),
                }
            },
        }
    }

    /// Peek one byte: when the current byte equals `c`, consume it.
    fn check_next1(&mut self, c: i32) -> (r: bool)
        requires
            old(self).wf(),
            c != EOZ,
        ensures
            final(self).wf(),
            final(self).input() == old(self).input(),
            r == (byte_at(old(self).input(), old(self).pos()) == c),
            final(self).pos() == if r {
                old(self).pos() + 1
            } else {
                old(self).pos()
            },
            final(self).line() == old(self).line(),
            final(self).last_line() == old(self).last_line(),
            final(self).interned() == old(self).interned(),
            final(self).current_token() == old(self).current_token(),
            final(self).lookahead_token() == old(self).lookahead_token(),
    {
        if self.current == c {
            self.next_ch();
            true
        } else {
            false
        }
    }
}

/// A copy of `v[start..end]`.
fn vec_range(v: &Vec<u8>, start: usize, end: usize) -> (out: Vec<u8>)
    requires
        start <= end <= v@.len(),
    ensures
        out@ == v@.subrange(start as int, end as int),
{
    let mut out: Vec<u8> = Vec::new();
    let mut k: usize = start;
    while k < end
        invariant
            start <= k <= end <= v@.len(),
            out@ == v@.subrange(start as int, k as int),
        decreases end - k,
    {
        let b = v[k];
        out.push(b);
        k = k + 1;
        proof {
            assert(out@ =~= v@.subrange(start as int, k as int));
        }
    }
    out
}

} // verus!
