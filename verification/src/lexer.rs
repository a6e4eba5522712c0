use vstd::prelude::*;
use crate::position::{advance_pos, pos_wf, PosModel, Position};
use crate::token::{Token, TokenModel};
use crate::token_types::TokenTypes;
use crate::error::{ErrModel, Error, ErrorKind};

verus! {

// ---------------------------------------------------------------------------
// Byte classes. The lexer reads raw bytes; each byte is one column of text.
// ---------------------------------------------------------------------------

/// Space, tab, carriage return or line feed: consumed without a token.
pub open spec fn is_space_byte(b: u8) -> bool {
    b == 32 || b == 9 || b == 13 || b == 10
}

/// An ASCII decimal digit.
pub open spec fn is_digit_byte(b: u8) -> bool {
    48 <= b && b <= 57
}

/// An ASCII letter or underscore: starts an identifier-shaped word.
pub open spec fn is_letter_byte(b: u8) -> bool {
    (65 <= b && b <= 90) || (97 <= b && b <= 122) || b == 95
}

/// A byte that starts a numeric literal: a digit or a dot.
pub open spec fn is_num_start_byte(b: u8) -> bool {
    is_digit_byte(b) || b == 46
}

/// A byte that may continue a numeric literal: a digit, a dot, or the
/// letter `e`.
pub open spec fn is_num_cont_byte(b: u8) -> bool {
    is_digit_byte(b) || b == 46 || b == 101
}

/// A byte that may continue an identifier-shaped word: a letter, an
/// underscore, a digit, or a dot.
pub open spec fn is_ident_cont_byte(b: u8) -> bool {
    is_letter_byte(b) || is_digit_byte(b) || b == 46
}

/// The kind of the one-byte structural token a byte yields, if any.
pub open spec fn structural_kind(b: u8) -> Option<TokenTypes> {
    if b == 91 {
        Some(TokenTypes::ArrayOpen)
    } else if b == 93 {
        Some(TokenTypes::ArrayClose)
    } else if b == 123 {
        Some(TokenTypes::ObjectOpen)
    } else if b == 125 {
        Some(TokenTypes::ObjectClose)
    } else if b == 44 {
        Some(TokenTypes::Comma)
    } else if b == 58 {
        Some(TokenTypes::Colon)
    } else {
        None
    }
}

// ---------------------------------------------------------------------------
// The lexing specification: what the token sequence of a buffer is.
// ---------------------------------------------------------------------------

/// The bytes a numeric literal collects from position `p` on, the position
/// after it, and the final dot and `e` counts. Collection stops before a
/// second dot, before a second `e`, and as soon as one of each has been
/// seen; the stopping byte is counted but not collected.
pub open spec fn scan_number(s: Seq<u8>, p: PosModel, dots: int, es: int) -> (Seq<u8>, PosModel, int, int)
    decreases s.len() - p.index
    when 0 <= p.index <= s.len()
{
    if p.index == s.len() || !is_num_cont_byte(s[p.index]) {
        (Seq::empty(), p, dots, es)
    } else {
        let b = s[p.index];
        let d2 = dots + if b == 46 { 1int } else { 0int };
        let e2 = es + if b == 101 { 1int } else { 0int };
        if d2 == 2 || e2 == 2 || (d2 == 1 && e2 == 1) {
            (Seq::empty(), p, d2, e2)
        } else {
            let r = scan_number(s, advance_pos(p, b), d2, e2);
            (seq![b] + r.0, r.1, r.2, r.3)
        }
    }
}

/// The bytes an identifier-shaped word collects from position `p` on, and
/// the position after it.
pub open spec fn scan_ident(s: Seq<u8>, p: PosModel) -> (Seq<u8>, PosModel)
    decreases s.len() - p.index
    when 0 <= p.index <= s.len()
{
    if p.index == s.len() || !is_ident_cont_byte(s[p.index]) {
        (Seq::empty(), p)
    } else {
        let r = scan_ident(s, advance_pos(p, s[p.index]));
        (seq![s[p.index]] + r.0, r.1)
    }
}

/// The body of a string literal from position `p` (just past the opening
/// quote): either its raw bytes and the position after the closing quote,
/// or, when the buffer ends first, the end-of-buffer position. A backslash
/// has no special meaning.
pub open spec fn scan_string_body(s: Seq<u8>, p: PosModel) -> Result<(Seq<u8>, PosModel), PosModel>
    decreases s.len() - p.index
    when 0 <= p.index <= s.len()
{
    if p.index == s.len() {
        Err(p)
    } else if s[p.index] == 34 {
        Ok((Seq::empty(), advance_pos(p, 34)))
    } else {
        scan_glue(seq![s[p.index]], scan_string_body(s, advance_pos(p, s[p.index])))
    }
}

/// Prefixes collected bytes onto the rest of a string scan.
pub open spec fn scan_glue(pre: Seq<u8>, r: Result<(Seq<u8>, PosModel), PosModel>) -> Result<(Seq<u8>, PosModel), PosModel> {
    match r {
        Ok(tq) => Ok((pre + tq.0, tq.1)),
        Err(q) => Err(q),
    }
}

/// Prefixes already-emitted tokens onto the rest of a lex.
pub open spec fn lex_glue(pre: Seq<TokenModel>, r: Result<Seq<TokenModel>, ErrModel>) -> Result<Seq<TokenModel>, ErrModel> {
    match r {
        Ok(ts) => Ok(pre + ts),
        Err(e) => Err(e),
    }
}

pub proof fn lemma_scan_number_bounds(s: Seq<u8>, p: PosModel, dots: int, es: int)
    requires
        0 <= p.index <= s.len(),
    ensures
        ({
            let r = scan_number(s, p, dots, es);
            &&& p.index <= r.1.index <= s.len()
            &&& r.1.index == p.index + r.0.len()
            &&& (pos_wf(p) ==> pos_wf(r.1))
            &&& (p.index < s.len() && is_num_start_byte(s[p.index]) && dots == 0 && es == 0
                ==> r.1.index > p.index)
        }),
    decreases s.len() - p.index,
{
    if p.index == s.len() || !is_num_cont_byte(s[p.index]) {
    } else {
        let b = s[p.index];
        let d2 = dots + if b == 46 { 1int } else { 0int };
        let e2 = es + if b == 101 { 1int } else { 0int };
        if d2 == 2 || e2 == 2 || (d2 == 1 && e2 == 1) {
        } else {
            lemma_scan_number_bounds(s, advance_pos(p, b), d2, e2);
        }
    }
}

pub proof fn lemma_scan_ident_bounds(s: Seq<u8>, p: PosModel)
    requires
        0 <= p.index <= s.len(),
    ensures
        ({
            let r = scan_ident(s, p);
            &&& p.index <= r.1.index <= s.len()
            &&& r.1.index == p.index + r.0.len()
            &&& (pos_wf(p) ==> pos_wf(r.1))
        }),
    decreases s.len() - p.index,
{
    if p.index == s.len() || !is_ident_cont_byte(s[p.index]) {
    } else {
        lemma_scan_ident_bounds(s, advance_pos(p, s[p.index]));
    }
}

pub proof fn lemma_scan_string_bounds(s: Seq<u8>, p: PosModel)
    requires
        0 <= p.index <= s.len(),
    ensures
        ({
            let r = scan_string_body(s, p);
            &&& (r matches Ok(tq) ==> p.index < tq.1.index <= s.len()
                && tq.1.index == p.index + tq.0.len() + 1
                && (pos_wf(p) ==> pos_wf(tq.1)))
            &&& (r matches Err(q) ==> q.index == s.len() && (pos_wf(p) ==> pos_wf(q)))
        }),
    decreases s.len() - p.index,
{
    if p.index == s.len() {
    } else if s[p.index] == 34 {
    } else {
        lemma_scan_string_bounds(s, advance_pos(p, s[p.index]));
    }
}

/// The complete token sequence of the buffer `s` from position `p` on, or
/// the first failure. Rules, in priority order at each position: whitespace
/// is skipped; a digit or dot starts a numeric literal, classified `Int`
/// when it collected neither dot nor `e` and `Float` otherwise; a letter or
/// underscore starts a `Keyword` word; a double quote starts a string
/// literal, whose token spans the opening quote through the byte after the
/// closing one, and which fails as unterminated when the buffer ends first;
/// the six structural bytes yield their one-byte tokens; any other byte
/// fails as illegal. No token is emitted for the end of the buffer.
pub open spec fn lex_spec(s: Seq<u8>, p: PosModel) -> Result<Seq<TokenModel>, ErrModel>
    decreases s.len() - p.index
    when 0 <= p.index <= s.len()
    via lex_spec_dec
{
    if p.index == s.len() {
        Ok(Seq::empty())
    } else {
        let b = s[p.index];
        if is_space_byte(b) {
            lex_spec(s, advance_pos(p, b))
        } else if is_num_start_byte(b) {
            let r = scan_number(s, p, 0, 0);
            let kind = if r.2 == 0 && r.3 == 0 { TokenTypes::Int } else { TokenTypes::Float };
            lex_glue(seq![TokenModel { kind, text: r.0, start: p, end: r.1 }], lex_spec(s, r.1))
        } else if is_letter_byte(b) {
            let r = scan_ident(s, advance_pos(p, b));
            lex_glue(
                seq![TokenModel { kind: TokenTypes::Keyword, text: seq![b] + r.0, start: p, end: r.1 }],
                lex_spec(s, r.1),
            )
        } else if b == 34 {
            match scan_string_body(s, advance_pos(p, b)) {
                Ok(tq) => lex_glue(
                    seq![TokenModel { kind: TokenTypes::Str, text: tq.0, start: p, end: tq.1 }],
                    lex_spec(s, tq.1),
                ),
                Err(q) => Err(ErrModel { kind: ErrorKind::UnterminatedString, start: p, end: q }),
            }
        } else {
            match structural_kind(b) {
                Some(kind) => lex_glue(
                    seq![TokenModel { kind, text: Seq::empty(), start: p, end: advance_pos(p, b) }],
                    lex_spec(s, advance_pos(p, b)),
                ),
                None => Err(ErrModel {
                    kind: ErrorKind::IllegalCharacter(b),
                    start: p,
                    end: advance_pos(p, b),
                }),
            }
        }
    }
}

#[via_fn]
proof fn lex_spec_dec(s: Seq<u8>, p: PosModel) {
    if 0 <= p.index < s.len() {
        let b = s[p.index];
        if !is_space_byte(b) && is_num_start_byte(b) {
            lemma_scan_number_bounds(s, p, 0, 0);
        }
        if !is_space_byte(b) && !is_num_start_byte(b) && is_letter_byte(b) {
            lemma_scan_ident_bounds(s, advance_pos(p, b));
        }
        if !is_space_byte(b) && !is_num_start_byte(b) && !is_letter_byte(b) && b == 34 {
            lemma_scan_string_bounds(s, advance_pos(p, b));
        }
    }
}

// ---------------------------------------------------------------------------
// The executable lexer.
// ---------------------------------------------------------------------------

/// Byte-class tests, one per rule, usable from executable code.
pub fn byte_is_space(b: u8) -> (r: bool)
    ensures
        r == is_space_byte(b),
{
    b == 32 || b == 9 || b == 13 || b == 10
}

pub fn byte_is_digit(b: u8) -> (r: bool)
    ensures
        r == is_digit_byte(b),
{
    48 <= b && b <= 57
}

pub fn byte_is_letter(b: u8) -> (r: bool)
    ensures
        r == is_letter_byte(b),
{
    (65 <= b && b <= 90) || (97 <= b && b <= 122) || b == 95
}

pub fn byte_is_num_start(b: u8) -> (r: bool)
    ensures
        r == is_num_start_byte(b),
{
    byte_is_digit(b) || b == 46
}

pub fn byte_is_num_cont(b: u8) -> (r: bool)
    ensures
        r == is_num_cont_byte(b),
{
    byte_is_digit(b) || b == 46 || b == 101
}

pub fn byte_is_ident_cont(b: u8) -> (r: bool)
    ensures
        r == is_ident_cont_byte(b),
{
    byte_is_letter(b) || byte_is_digit(b) || b == 46
}

/// The lexer: a byte buffer, a cursor into it, and the position the cursor
/// stands at. It makes one pass and produces either every token of the
/// buffer or the first failure.
#[derive(Debug)]
pub struct Lexer {
    pub chars: Vec<u8>,
    pub current_index: usize,
    pub position: Position,
}

impl Lexer {
    /// The lexer's invariant: the cursor and the position agree and stay
    /// inside the buffer, and the buffer leaves room for one-past-the-end
    /// arithmetic.
    pub open spec fn wf(self) -> bool {
        &&& self.position@.index == self.current_index
        &&& self.current_index <= self.chars@.len()
        &&& self.chars@.len() < usize::MAX
        &&& pos_wf(self.position@)
    }

    /// A lexer at the start of the given buffer.
    pub fn new(chars: Vec<u8>) -> (l: Lexer)
        requires
            chars@.len() < usize::MAX,
        ensures
            l.wf(),
            l.chars@ == chars@,
            l.current_index == 0,
            l.position@ == (PosModel { index: 0, ln: 1, cn: 1 }),
    {
        Lexer { chars, current_index: 0, position: Position::start() }
    }

    /// Consume the byte under the cursor.
    fn advance(&mut self)
        requires
            old(self).wf(),
            old(self).current_index < old(self).chars@.len(),
        ensures
            final(self).wf(),
            final(self).chars@ == old(self).chars@,
            final(self).current_index == old(self).current_index + 1,
            final(self).position@ == advance_pos(old(self).position@, old(self).chars@[old(self).current_index as int]),
    {
        let b = self.chars[self.current_index];
        self.current_index = self.current_index + 1;
        self.position.advance(b);
    }

    /// Collect one numeric literal starting at the cursor.
    fn make_number(&mut self) -> (t: Token)
        requires
            old(self).wf(),
            old(self).current_index < old(self).chars@.len(),
            is_num_start_byte(old(self).chars@[old(self).current_index as int]),
        ensures
            final(self).wf(),
            final(self).chars@ == old(self).chars@,
            ({
                let r = scan_number(old(self).chars@, old(self).position@, 0, 0);
                &&& final(self).position@ == r.1
                &&& t@.text == r.0
                &&& t@.start == old(self).position@
                &&& t@.end == r.1
                &&& t@.kind == (if r.2 == 0 && r.3 == 0 { TokenTypes::Int } else { TokenTypes::Float })
            }),
    {
        let ghost s = self.chars@;
        let ghost p0 = self.position@;
        let pos_start = self.position.snapshot();
        let mut number: Vec<u8> = Vec::new();
        let mut dots: usize = 0;
        let mut es: usize = 0;
        loop
            invariant_except_break
                self.wf(),
                self.chars@ == s,
                dots <= 1,
                es <= 1,
                ({
                    let r0 = scan_number(s, p0, 0, 0);
                    let r = scan_number(s, self.position@, dots as int, es as int);
                    &&& r0.0 == number@ + r.0
                    &&& r0.1 == r.1
                    &&& r0.2 == r.2
                    &&& r0.3 == r.3
                }),
            ensures
                self.wf(),
                self.chars@ == s,
                ({
                    let r0 = scan_number(s, p0, 0, 0);
                    &&& r0.0 == number@
                    &&& r0.1 == self.position@
                    &&& r0.2 == dots as int
                    &&& r0.3 == es as int
                }),
            decreases s.len() - self.current_index,
        {
            let ghost rcur = scan_number(s, self.position@, dots as int, es as int);
            if !(self.current_index < self.chars.len()) {
                proof {
                    assert(scan_number(s, p0, 0, 0).0 =~= number@);
                }
                break;
            }
            let b = self.chars[self.current_index];
            if !byte_is_num_cont(b) {
                proof {
                    assert(scan_number(s, p0, 0, 0).0 =~= number@);
                }
                break;
            }
            let d2 = dots + if b == 46 { 1 } else { 0 };
            let e2 = es + if b == 101 { 1 } else { 0 };
            if d2 == 2 || e2 == 2 || (d2 == 1 && e2 == 1) {
                dots = d2;
                es = e2;
                proof {
                    assert(scan_number(s, p0, 0, 0).0 =~= number@);
                }
                break;
            }
            number.push(b);
            self.advance();
            dots = d2;
            es = e2;
            proof {
                let r = scan_number(s, self.position@, dots as int, es as int);
                assert(rcur.0 == seq![b] + r.0 && rcur.1 == r.1 && rcur.2 == r.2 && rcur.3 == r.3);
                assert(scan_number(s, p0, 0, 0).0 =~= number@ + r.0);
            }
        }
        let tok_type = if dots == 0 && es == 0 { TokenTypes::Int } else { TokenTypes::Float };
        Token { tok_type, tok_value: number, pos_start, pos_end: self.position.snapshot() }
    }

    /// Collect one identifier-shaped word starting at the cursor.
    fn make_ident(&mut self) -> (t: Token)
        requires
            old(self).wf(),
            old(self).current_index < old(self).chars@.len(),
            is_letter_byte(old(self).chars@[old(self).current_index as int]),
        ensures
            final(self).wf(),
            final(self).chars@ == old(self).chars@,
            ({
                let s = old(self).chars@;
                let p0 = old(self).position@;
                let b0 = s[p0.index];
                let r = scan_ident(s, advance_pos(p0, b0));
                &&& final(self).position@ == r.1
                &&& t@.text == seq![b0] + r.0
                &&& t@.start == p0
                &&& t@.end == r.1
                &&& t@.kind == TokenTypes::Keyword
            }),
    {
        let ghost s = self.chars@;
        let pos_start = self.position.snapshot();
        let b0 = self.chars[self.current_index];
        let mut chars: Vec<u8> = Vec::new();
        chars.push(b0);
        self.advance();
        let ghost pb = self.position@;
        loop
            invariant_except_break
                self.wf(),
                self.chars@ == s,
                0 <= pb.index <= s.len(),
                chars@.len() >= 1,
                ({
                    let r0 = scan_ident(s, pb);
                    let r = scan_ident(s, self.position@);
                    &&& seq![chars@[0]] + r0.0 == chars@ + r.0
                    &&& r0.1 == r.1
                }),
                chars@[0] == s[pb.index - 1],
            ensures
                self.wf(),
                self.chars@ == s,
                ({
                    let r0 = scan_ident(s, pb);
                    &&& seq![chars@[0]] + r0.0 == chars@
                    &&& r0.1 == self.position@
                }),
                chars@[0] == s[pb.index - 1],
            decreases s.len() - self.current_index,
        {
            let ghost rcur = scan_ident(s, self.position@);
            if !(self.current_index < self.chars.len()) {
                proof {
                    assert(seq![chars@[0]] + scan_ident(s, pb).0 =~= chars@);
                }
                break;
            }
            let b = self.chars[self.current_index];
            if !byte_is_ident_cont(b) {
                proof {
                    assert(seq![chars@[0]] + scan_ident(s, pb).0 =~= chars@);
                }
                break;
            }
            chars.push(b);
            self.advance();
            proof {
                let r = scan_ident(s, self.position@);
                assert(rcur.0 == seq![b] + r.0 && rcur.1 == r.1);
                assert(seq![chars@[0]] + scan_ident(s, pb).0 =~= chars@ + r.0);
            }
        }
        proof {
            assert(seq![chars@[0]] + scan_ident(s, pb).0 == chars@);
        }
        Token {
            tok_type: TokenTypes::Keyword,
            tok_value: chars,
            pos_start,
            pos_end: self.position.snapshot(),
        }
    }

    /// Collect one string literal starting at the cursor (which stands on
    /// the opening quote), or fail when the buffer ends before the closing
    /// quote.
    fn make_string(&mut self) -> (r: Result<Token, Error>)
        requires
            old(self).wf(),
            old(self).current_index < old(self).chars@.len(),
            old(self).chars@[old(self).current_index as int] == 34,
        ensures
            final(self).wf(),
            final(self).chars@ == old(self).chars@,
            ({
                let s = old(self).chars@;
                let p0 = old(self).position@;
                match (r, scan_string_body(s, advance_pos(p0, 34))) {
                    (Ok(t), Ok(tq)) => {
                        &&& t@.kind == TokenTypes::Str
                        &&& t@.text == tq.0
                        &&& t@.start == p0
                        &&& t@.end == tq.1
                        &&& final(self).position@ == tq.1
                    },
                    (Err(e), Err(q)) => e@ == (ErrModel {
                        kind: ErrorKind::UnterminatedString,
                        start: p0,
                        end: q,
                    }),
                    _ => false,
                }
            }),
    {
        let ghost s = self.chars@;
        let pos_start = self.position.snapshot();
        self.advance();
        let ghost pb = self.position@;
        let mut chars: Vec<u8> = Vec::new();
        loop
            invariant_except_break
                self.wf(),
                self.chars@ == s,
                0 <= pb.index <= s.len(),
                scan_string_body(s, pb) == scan_glue(chars@, scan_string_body(s, self.position@)),
            ensures
                self.wf(),
                self.chars@ == s,
                ({
                    match scan_string_body(s, pb) {
                        Ok(tq) => {
                            &&& tq.0 == chars@
                            &&& self.position@.index < s.len()
                            &&& s[self.position@.index] == 34
                            &&& tq.1 == advance_pos(self.position@, 34)
                        },
                        Err(q) => {
                            &&& self.position@.index == s.len()
                            &&& q == self.position@
                        },
                    }
                }),
            decreases s.len() - self.current_index,
        {
            let ghost rcur = scan_string_body(s, self.position@);
            if !(self.current_index < self.chars.len()) {
                proof {
                    assert(scan_string_body(s, pb) is Err);
                }
                break;
            }
            let b = self.chars[self.current_index];
            if b == 34 {
                proof {
                    assert(scan_string_body(s, pb) matches Ok(tq) && tq.0 =~= chars@);
                }
                break;
            }
            chars.push(b);
            self.advance();
            proof {
                let r = scan_string_body(s, self.position@);
                assert(rcur == scan_glue(seq![b], r));
                if r is Ok {
                    assert(scan_string_body(s, pb) matches Ok(tq) && tq.0 =~= chars@ + r->Ok_0.0);
                }
            }
        }
        if self.current_index < self.chars.len() {
            self.advance();
            Ok(Token {
                tok_type: TokenTypes::Str,
                tok_value: chars,
                pos_start,
                pos_end: self.position.snapshot(),
            })
        } else {
            Err(Error {
                kind: ErrorKind::UnterminatedString,
                pos_start,
                pos_end: self.position.snapshot(),
            })
        }
    }

    /// Emit the one-byte structural token of the given kind for the byte
    /// under the cursor.
    fn make_token(&mut self, tok: TokenTypes) -> (t: Token)
        requires
            old(self).wf(),
            old(self).current_index < old(self).chars@.len(),
        ensures
            final(self).wf(),
            final(self).chars@ == old(self).chars@,
            final(self).position@ == advance_pos(old(self).position@, old(self).chars@[old(self).current_index as int]),
            t@.kind == tok,
            t@.text == Seq::<u8>::empty(),
            t@.start == old(self).position@,
            t@.end == final(self).position@,
    {
        let pos_start = self.position.snapshot();
        self.advance();
        let t = Token {
            tok_type: tok,
            tok_value: Vec::new(),
            pos_start,
            pos_end: self.position.snapshot(),
        };
        proof {
            assert(t@.text =~= Seq::<u8>::empty());
        }
        t
    }

    /// Scan the whole buffer: every token in order, or the first failure.
    /// The result is exactly what `lex_spec` says of the buffer and the
    /// starting position.
    pub fn lex(&mut self) -> (r: Result<Vec<Token>, Error>)
        requires
            old(self).wf(),
        ensures
            final(self).wf(),
            final(self).chars@ == old(self).chars@,
            ({
                let sp = lex_spec(old(self).chars@, old(self).position@);
                match r {
                    Ok(toks) => sp == Ok::<Seq<TokenModel>, ErrModel>(
                        toks@.map_values(|t: Token| t@),
                    ),
                    Err(e) => sp == Err::<Seq<TokenModel>, ErrModel>(e@),
                }
            }),
    {
        let ghost s = self.chars@;
        let ghost p0 = self.position@;
        let mut tokens: Vec<Token> = Vec::new();
        proof {
            assert(tokens@.map_values(|t: Token| t@) =~= Seq::<TokenModel>::empty());
        }
        while self.current_index < self.chars.len()
            invariant
                self.wf(),
                self.chars@ == s,
                s == old(self).chars@,
                p0 == old(self).position@,
                0 <= p0.index <= s.len(),
                lex_spec(s, p0) == lex_glue(
                    tokens@.map_values(|t: Token| t@),
                    lex_spec(s, self.position@),
                ),
            decreases s.len() - self.current_index,
        {
            let ghost toks_old = tokens@;
            let ghost pcur = self.position@;
            let b = self.chars[self.current_index];
            if byte_is_space(b) {
                self.advance();
            } else if byte_is_num_start(b) {
                let t = self.make_number();
                tokens.push(t);
                proof {
                    lemma_scan_number_bounds(s, pcur, 0, 0);
                    lemma_push_glue(s, p0, toks_old, t, self.position@, tokens@);
                }
            } else if byte_is_letter(b) {
                let t = self.make_ident();
                tokens.push(t);
                proof {
                    lemma_scan_ident_bounds(s, advance_pos(pcur, b));
                    lemma_push_glue(s, p0, toks_old, t, self.position@, tokens@);
                }
            } else if b == 34 {
                match self.make_string() {
                    Ok(t) => {
                        tokens.push(t);
                        proof {
                            lemma_scan_string_bounds(s, advance_pos(pcur, b));
                            lemma_push_glue(s, p0, toks_old, t, self.position@, tokens@);
                        }
                    },
                    Err(e) => {
                        return Err(e);
                    },
                }
            } else if b == 91 {
                let t = self.make_token(TokenTypes::ArrayOpen);
                tokens.push(t);
                proof {
                    lemma_push_glue(s, p0, toks_old, t, self.position@, tokens@);
                }
            } else if b == 93 {
                let t = self.make_token(TokenTypes::ArrayClose);
                tokens.push(t);
                proof {
                    lemma_push_glue(s, p0, toks_old, t, self.position@, tokens@);
                }
            } else if b == 123 {
                let t = self.make_token(TokenTypes::ObjectOpen);
                tokens.push(t);
                proof {
                    lemma_push_glue(s, p0, toks_old, t, self.position@, tokens@);
                }
            } else if b == 125 {
                let t = self.make_token(TokenTypes::ObjectClose);
                tokens.push(t);
                proof {
                    lemma_push_glue(s, p0, toks_old, t, self.position@, tokens@);
                }
            } else if b == 44 {
                let t = self.make_token(TokenTypes::Comma);
                tokens.push(t);
                proof {
                    lemma_push_glue(s, p0, toks_old, t, self.position@, tokens@);
                }
            } else if b == 58 {
                let t = self.make_token(TokenTypes::Colon);
                tokens.push(t);
                proof {
                    lemma_push_glue(s, p0, toks_old, t, self.position@, tokens@);
                }
            } else {
                let pos_start = self.position.snapshot();
                self.advance();
                return Err(Error {
                    kind: ErrorKind::IllegalCharacter(b),
                    pos_start,
                    pos_end: self.position.snapshot(),
                });
            }
        }
        proof {
            let pre = tokens@.map_values(|t: Token| t@);
            assert(pre + Seq::<TokenModel>::empty() =~= pre);
        }
        Ok(tokens)
    }
}

/// After one token is emitted and pushed, the running glue equation still
/// holds: what was lexed so far plus the rest of the buffer is the whole.
proof fn lemma_push_glue(
    s: Seq<u8>,
    p0: PosModel,
    toks_old: Seq<Token>,
    tok: Token,
    pcur: PosModel,
    toks_new: Seq<Token>,
)
    requires
        toks_new == toks_old.push(tok),
        lex_spec(s, p0) == lex_glue(
            toks_old.map_values(|t: Token| t@),
            lex_glue(seq![tok@], lex_spec(s, pcur)),
        ),
    ensures
        lex_spec(s, p0) == lex_glue(toks_new.map_values(|t: Token| t@), lex_spec(s, pcur)),
{
    let pre = toks_old.map_values(|t: Token| t@);
    assert(toks_new.map_values(|t: Token| t@) =~= pre.push(tok@));
    match lex_spec(s, pcur) {
        Ok(ts) => {
            assert(pre + (seq![tok@] + ts) =~= pre.push(tok@) + ts);
        },
        Err(e) => {},
    }
}

} // verus!
