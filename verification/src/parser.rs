//! The front end: a lexer and a recursive-descent parser that turn source
//! text into a [`Design`].
//!
//! The source format is line-oriented.  A schematic is written
//!
//! ```text
//! define <name> <input>* -> <output>*
//!   <sub-name> <input-binding>* -> <output-binding>*
//!   ...
//! end
//! ```
//!
//! Comments begin with `--` and run to the end of the line; the lexer strips
//! them before tokenizing.  Spaces and tabs separate tokens within a line;
//! line breaks are significant and become tokens of their own.  Identifiers
//! consist of letters and digits alone; any other lexeme becomes an unknown
//! marker that no production accepts.

use vstd::prelude::*;

use crate::flatten::gen_name;
use crate::flatten::lemma_gen_name_reserved;
use crate::schematic::DesignV;
use crate::schematic::Design;
use crate::schematic::InstrV;
use crate::schematic::Instruction;
use crate::schematic::Schematic;
use crate::schematic::SchematicV;
use crate::schematic::instr_plain;
use crate::schematic::lemma_make_schematic_plain;
use crate::schematic::lemma_make_schematic_wf;
use crate::schematic::make_schematic;
use crate::schematic::plain_name;
use crate::schematic::schematic_plain;

verus! {

/// One token of the source language.
#[derive(Debug)]
pub enum Token {
    Define,
    End,
    Arrow,
    Ident(String),
    NewLine,
    /// A lexeme that is no keyword, no arrow and no identifier: malformed
    /// input, accepted by no production.
    Unknown(String),
}

/// Mathematical model of a [`Token`].
#[verifier::ext_equal]
pub ghost enum TokenV {
    Define,
    End,
    Arrow,
    Ident(Seq<char>),
    NewLine,
    Unknown(Seq<char>),
}

impl View for Token {
    type V = TokenV;

    open spec fn view(&self) -> TokenV {
        match self {
            Token::Define => TokenV::Define,
            Token::End => TokenV::End,
            Token::Arrow => TokenV::Arrow,
            Token::Ident(s) => TokenV::Ident(s@),
            Token::NewLine => TokenV::NewLine,
            Token::Unknown(s) => TokenV::Unknown(s@),
        }
    }
}

impl DeepView for Token {
    type V = TokenV;

    open spec fn deep_view(&self) -> TokenV {
        self.view()
    }
}

impl Clone for Token {
    fn clone(&self) -> (r: Self)
        ensures
            r@ == self@,
    {
        match self {
            Token::Define => Token::Define,
            Token::End => Token::End,
            Token::Arrow => Token::Arrow,
            Token::Ident(s) => Token::Ident(s.clone()),
            Token::NewLine => Token::NewLine,
            Token::Unknown(s) => Token::Unknown(s.clone()),
        }
    }
}

/// The characters an identifier may consist of: letters and digits.
pub open spec fn is_ident_char(c: char) -> bool {
    ||| 'a' as u32 <= c as u32 && c as u32 <= 'z' as u32
    ||| 'A' as u32 <= c as u32 && c as u32 <= 'Z' as u32
    ||| '0' as u32 <= c as u32 && c as u32 <= '9' as u32
}

/// The characters that separate tokens within a line.
pub open spec fn is_space_char(c: char) -> bool {
    c == ' ' || c == '\t' || c == '\r'
}

/// The index at which a `--` comment begins, or the line's length if the
/// line holds no comment.
pub open spec fn comment_start(line: Seq<char>) -> nat
    decreases line.len(),
{
    if line.len() < 2 {
        line.len()
    } else if line[0] == '-' && line[1] == '-' {
        0
    } else {
        1 + comment_start(line.drop_first())
    }
}

/// The comment's start never lies beyond the line's end.
pub proof fn lemma_comment_start_le(line: Seq<char>)
    ensures
        comment_start(line) <= line.len(),
    decreases line.len(),
{
    if line.len() >= 2 && !(line[0] == '-' && line[1] == '-') {
        lemma_comment_start_le(line.drop_first());
    }
}

/// The line up to its comment, if any: what the lexer tokenizes.
pub open spec fn strip_comment(line: Seq<char>) -> Seq<char> {
    line.take(comment_start(line) as int)
}

/// No `--` pair begins before the comment's start.
proof fn lemma_comment_start_first(line: Seq<char>, i: int)
    requires
        0 <= i < comment_start(line),
        i + 1 < line.len(),
    ensures
        !(line[i] == '-' && line[i + 1] == '-'),
    decreases i,
{
    if i == 0 {
    } else {
        assert(comment_start(line) == 1 + comment_start(line.drop_first()));
        assert(line.drop_first()[i - 1] == line[i]);
        assert(line.drop_first()[i] == line[i + 1]);
        lemma_comment_start_first(line.drop_first(), i - 1);
    }
}

/// Where the comment starts, a `--` pair stands.
proof fn lemma_comment_start_hit(line: Seq<char>)
    requires
        comment_start(line) < line.len(),
    ensures
        comment_start(line) + 1 < line.len(),
        line[comment_start(line) as int] == '-',
        line[comment_start(line) as int + 1] == '-',
    decreases line.len(),
{
    if line.len() < 2 {
    } else if line[0] == '-' && line[1] == '-' {
    } else {
        lemma_comment_start_hit(line.drop_first());
    }
}

/// Stripping a comment twice is stripping it once: what remains holds no
/// comment.
pub proof fn lemma_strip_comment_idempotent(line: Seq<char>)
    ensures
        strip_comment(strip_comment(line)) == strip_comment(line),
{
    lemma_comment_start_le(line);
    let s = strip_comment(line);
    lemma_comment_start_le(s);
    if comment_start(s) < s.len() {
        lemma_comment_start_hit(s);
        lemma_comment_start_first(line, comment_start(s) as int);
        assert(s[comment_start(s) as int] == line[comment_start(s) as int]);
        assert(s[comment_start(s) as int + 1] == line[comment_start(s) as int + 1]);
        assert(false);
    }
    assert(s.take(comment_start(s) as int) =~= s);
}

/// The length of the lexeme that starts at the line's first character: the
/// number of characters before the first separator.
pub open spec fn word_len(line: Seq<char>) -> nat
    decreases line.len(),
{
    if line.len() == 0 {
        0
    } else if is_space_char(line[0]) {
        0
    } else {
        1 + word_len(line.drop_first())
    }
}

/// A lexeme never runs past the line's end.
pub proof fn lemma_word_len_le(line: Seq<char>)
    ensures
        word_len(line) <= line.len(),
    decreases line.len(),
{
    if line.len() > 0 && !is_space_char(line[0]) {
        lemma_word_len_le(line.drop_first());
    }
}

/// The line's lexemes, in order: maximal runs of non-separator characters.
pub open spec fn split_lexemes(line: Seq<char>) -> Seq<Seq<char>>
    decreases line.len(),
{
    if line.len() == 0 {
        Seq::empty()
    } else if is_space_char(line[0]) {
        split_lexemes(line.drop_first())
    } else {
        proof {
            lemma_word_len_le(line);
        }
        seq![line.take(word_len(line) as int)] + split_lexemes(line.skip(word_len(line) as int))
    }
}

/// What token a lexeme stands for: a keyword, the arrow, an identifier of
/// letters and digits, or the unknown marker.
pub open spec fn token_of(lex: Seq<char>) -> TokenV {
    if lex == "define"@ {
        TokenV::Define
    } else if lex == "end"@ {
        TokenV::End
    } else if lex == "->"@ {
        TokenV::Arrow
    } else if lex.len() > 0 && (forall|k: int| 0 <= k < lex.len() ==> is_ident_char(lex[k])) {
        TokenV::Ident(lex)
    } else {
        TokenV::Unknown(lex)
    }
}

/// The tokens of one source line: its lexemes after comment stripping, then
/// the line-break token.
pub open spec fn line_tokens(line: Seq<char>) -> Seq<TokenV> {
    split_lexemes(strip_comment(line)).map_values(|l: Seq<char>| token_of(l)) + seq![
        TokenV::NewLine,
    ]
}

/// The index of the first line break, or the text's length.
pub open spec fn newline_pos(text: Seq<char>) -> nat
    decreases text.len(),
{
    if text.len() == 0 {
        0
    } else if text[0] == '\n' {
        0
    } else {
        1 + newline_pos(text.drop_first())
    }
}

/// The first line break never lies beyond the text's end.
pub proof fn lemma_newline_pos_le(text: Seq<char>)
    ensures
        newline_pos(text) <= text.len(),
    decreases text.len(),
{
    if text.len() > 0 && text[0] != '\n' {
        lemma_newline_pos_le(text.drop_first());
    }
}

/// The text's lines, without their line breaks.  A last line without a
/// closing break still counts.
pub open spec fn split_lines(text: Seq<char>) -> Seq<Seq<char>>
    decreases text.len(),
{
    if text.len() == 0 {
        Seq::empty()
    } else {
        proof {
            lemma_newline_pos_le(text);
        }
        if newline_pos(text) == text.len() {
            seq![text]
        } else {
            seq![text.take(newline_pos(text) as int)] + split_lines(
                text.skip(newline_pos(text) as int + 1),
            )
        }
    }
}

/// The whole text's token stream: each line's tokens in order, each line
/// closed by the line-break token.
pub open spec fn spec_tokenize(text: Seq<char>) -> Seq<TokenV> {
    split_lines(text).map_values(|l: Seq<char>| line_tokens(l)).flatten()
}

/// A line tokenizes the same with its comment as with the comment already
/// stripped: comments never reach the parser, so a design parses the same
/// either way.
pub proof fn lemma_comment_invariant(line: Seq<char>)
    ensures
        line_tokens(strip_comment(line)) == line_tokens(line),
{
    lemma_strip_comment_idempotent(line);
}

/// The index of the first line break in `s`, or its length.
fn scan_newline(s: &str) -> (k: usize)
    ensures
        k as nat == newline_pos(s@),
{
    let n = s.unicode_len();
    let mut i: usize = 0;
    proof {
        assert(s@.skip(0) =~= s@);
    }
    while i < n
        invariant
            i <= n,
            n == s@.len(),
            newline_pos(s@) == i + newline_pos(s@.skip(i as int)),
        decreases n - i,
    {
        let c = s.get_char(i);
        proof {
            assert(s@.skip(i as int)[0] == s@[i as int]);
            assert(s@.skip(i as int).drop_first() =~= s@.skip(i + 1));
        }
        if c == '\n' {
            return i;
        }
        i = i + 1;
    }
    proof {
        assert(s@.skip(n as int) =~= Seq::<char>::empty());
    }
    n
}

/// The text's lines, as [`split_lines`] describes them.
fn split_lines_exec(src: &str) -> (r: Vec<String>)
    ensures
        r.deep_view() == split_lines(src@),
{
    let mut acc: Vec<String> = Vec::new();
    let mut rem: &str = src;
    proof {
        assert(acc.deep_view() + split_lines(rem@) =~= split_lines(rem@));
    }
    while rem.unicode_len() > 0
        invariant
            split_lines(src@) == acc.deep_view() + split_lines(rem@),
        decreases rem@.len(),
    {
        let n = rem.unicode_len();
        let k = scan_newline(rem);
        proof {
            lemma_newline_pos_le(rem@);
        }
        let ghost prev = acc.deep_view();
        if k == n {
            acc.push(rem.to_owned());
            proof {
                assert(acc.deep_view() =~= prev.push(rem@));
                assert(split_lines(rem@) == seq![rem@]);
                assert(prev.push(rem@) + Seq::<Seq<char>>::empty() =~= prev + split_lines(rem@));
                assert(split_lines(src@) == acc.deep_view() + Seq::<Seq<char>>::empty());
            }
            rem = rem.substring_char(n, n);
            proof {
                assert(rem@ =~= Seq::<char>::empty());
                assert(split_lines(rem@) == Seq::<Seq<char>>::empty());
            }
        } else {
            let line = rem.substring_char(0, k);
            acc.push(line.to_owned());
            let tail = rem.substring_char(k + 1, n);
            proof {
                assert(line@ =~= rem@.take(k as int));
                assert(tail@ =~= rem@.skip(k as int + 1));
                assert(acc.deep_view() =~= prev.push(rem@.take(k as int)));
                assert(split_lines(rem@) == seq![rem@.take(k as int)] + split_lines(
                    rem@.skip(k as int + 1),
                ));
                assert(prev.push(rem@.take(k as int)) + split_lines(rem@.skip(k as int + 1))
                    =~= prev + split_lines(rem@));
            }
            rem = tail;
        }
    }
    proof {
        assert(rem@.len() == 0);
        assert(split_lines(rem@) == Seq::<Seq<char>>::empty());
        assert(acc.deep_view() + Seq::<Seq<char>>::empty() =~= acc.deep_view());
    }
    acc
}

/// The index at which a `--` comment begins in `s`, or its length.
fn scan_comment(s: &str) -> (k: usize)
    ensures
        k as nat == comment_start(s@),
{
    let n = s.unicode_len();
    let mut i: usize = 0;
    proof {
        assert(s@.skip(0) =~= s@);
    }
    while n - i > 1
        invariant
            i <= n,
            n == s@.len(),
            comment_start(s@) == i + comment_start(s@.skip(i as int)),
        decreases n - i,
    {
        let c0 = s.get_char(i);
        let c1 = s.get_char(i + 1);
        proof {
            assert(s@.skip(i as int)[0] == s@[i as int]);
            assert(s@.skip(i as int)[1] == s@[i as int + 1]);
            assert(s@.skip(i as int).drop_first() =~= s@.skip(i + 1));
        }
        if c0 == '-' && c1 == '-' {
            return i;
        }
        i = i + 1;
    }
    proof {
        assert(s@.skip(i as int).len() < 2);
        assert(comment_start(s@.skip(i as int)) == s@.skip(i as int).len());
    }
    n
}

/// The length of the lexeme at the start of `s`, or zero at a separator.
fn scan_word(s: &str) -> (k: usize)
    ensures
        k as nat == word_len(s@),
{
    let n = s.unicode_len();
    let mut i: usize = 0;
    proof {
        assert(s@.skip(0) =~= s@);
    }
    while i < n
        invariant
            i <= n,
            n == s@.len(),
            word_len(s@) == i + word_len(s@.skip(i as int)),
        decreases n - i,
    {
        let c = s.get_char(i);
        proof {
            assert(s@.skip(i as int)[0] == s@[i as int]);
            assert(s@.skip(i as int).drop_first() =~= s@.skip(i + 1));
        }
        if c == ' ' || c == '\t' || c == '\r' {
            return i;
        }
        i = i + 1;
    }
    proof {
        assert(s@.skip(n as int) =~= Seq::<char>::empty());
    }
    n
}

/// The line's lexemes, as [`split_lexemes`] describes them.
fn split_lexemes_exec(line: &str) -> (r: Vec<String>)
    ensures
        r.deep_view() == split_lexemes(line@),
{
    let mut acc: Vec<String> = Vec::new();
    let mut rem: &str = line;
    proof {
        assert(acc.deep_view() + split_lexemes(rem@) =~= split_lexemes(rem@));
    }
    while rem.unicode_len() > 0
        invariant
            split_lexemes(line@) == acc.deep_view() + split_lexemes(rem@),
        decreases rem@.len(),
    {
        let n = rem.unicode_len();
        let c = rem.get_char(0);
        if c == ' ' || c == '\t' || c == '\r' {
            let tail = rem.substring_char(1, n);
            proof {
                assert(tail@ =~= rem@.drop_first());
                assert(split_lexemes(rem@) == split_lexemes(rem@.drop_first()));
            }
            rem = tail;
        } else {
            let w = scan_word(rem);
            proof {
                lemma_word_len_le(rem@);
                assert(word_len(rem@) >= 1);
            }
            let lex = rem.substring_char(0, w);
            let ghost prev = acc.deep_view();
            acc.push(lex.to_owned());
            let tail = rem.substring_char(w, n);
            proof {
                assert(lex@ =~= rem@.take(w as int));
                assert(tail@ =~= rem@.skip(w as int));
                assert(acc.deep_view() =~= prev.push(rem@.take(w as int)));
                assert(split_lexemes(rem@) == seq![rem@.take(w as int)] + split_lexemes(
                    rem@.skip(w as int),
                ));
                assert(prev.push(rem@.take(w as int)) + split_lexemes(rem@.skip(w as int)) =~= prev
                    + split_lexemes(rem@));
            }
            rem = tail;
        }
    }
    proof {
        assert(rem@.len() == 0);
        assert(split_lexemes(rem@) == Seq::<Seq<char>>::empty());
        assert(acc.deep_view() + Seq::<Seq<char>>::empty() =~= acc.deep_view());
    }
    acc
}

impl Token {
    /// The token a lexeme stands for, as [`token_of`] describes it.
    pub fn from(lex: String) -> (t: Token)
    ensures
        t@ == token_of(lex@),
{
    if lex.eq(&String::from_str("define")) {
        Token::Define
    } else if lex.eq(&String::from_str("end")) {
        Token::End
    } else if lex.eq(&String::from_str("->")) {
        Token::Arrow
    } else {
        let n = lex.as_str().unicode_len();
        let mut all_ident = true;
        let mut i: usize = 0;
        while i < n
            invariant
                i <= n,
                n == lex@.len(),
                all_ident ==> forall|k: int| 0 <= k < i ==> is_ident_char(lex@[k]),
                !all_ident ==> exists|k: int| 0 <= k < i && !is_ident_char(lex@[k]),
            decreases n - i,
        {
            let c = lex.as_str().get_char(i);
            let u = c as u32;
            let ic = (97 <= u && u <= 122) || (65 <= u && u <= 90) || (48 <= u && u <= 57);
            proof {
                assert(ic == is_ident_char(lex@[i as int]));
            }
            all_ident = all_ident && ic;
            i = i + 1;
        }
        if n > 0 && all_ident {
            proof {
                assert(token_of(lex@) == TokenV::Ident(lex@));
            }
            Token::Ident(lex)
        } else {
            proof {
                assert(token_of(lex@) == TokenV::Unknown(lex@));
            }
            Token::Unknown(lex)
        }
    }
}

}

/// What a parse failure found where it expected something else.
#[derive(Debug)]
pub enum ParseErrorKind {
    /// An identifier was expected; `found` is the token seen instead, or
    /// `None` at end of input.
    ExpectedIdentifier { found: Option<Token> },
    /// A particular token was expected; `found` is the token seen instead,
    /// or `None` at end of input.
    ExpectedToken { expected: Token, found: Option<Token> },
}

/// A parse failure: what went wrong and the 1-based source line at which the
/// offending token stands.
#[derive(Debug)]
pub struct ParseError {
    pub kind: ParseErrorKind,
    pub line: usize,
}

/// Mathematical model of a [`ParseErrorKind`].
#[verifier::ext_equal]
pub ghost enum ParseErrKindV {
    ExpectedIdentifier { found: Option<TokenV> },
    ExpectedToken { expected: TokenV, found: Option<TokenV> },
}

/// Mathematical model of a [`ParseError`].
#[verifier::ext_equal]
pub ghost struct ParseErrV {
    pub kind: ParseErrKindV,
    pub line: nat,
}

impl View for ParseErrorKind {
    type V = ParseErrKindV;

    open spec fn view(&self) -> ParseErrKindV {
        match self {
            ParseErrorKind::ExpectedIdentifier { found } => {
                ParseErrKindV::ExpectedIdentifier {
                    found: match found {
                        Some(t) => Some(t@),
                        None => None,
                    },
                }
            },
            ParseErrorKind::ExpectedToken { expected, found } => {
                ParseErrKindV::ExpectedToken {
                    expected: expected@,
                    found: match found {
                        Some(t) => Some(t@),
                        None => None,
                    },
                }
            },
        }
    }
}

impl View for ParseError {
    type V = ParseErrV;

    open spec fn view(&self) -> ParseErrV {
        ParseErrV { kind: self.kind@, line: self.line as nat }
    }
}

/// The 1-based source line of the token at `pos`: one more than the number
/// of line breaks before it.
pub open spec fn line_at(toks: Seq<TokenV>, pos: int) -> nat {
    1 + toks.take(pos).filter(|t: TokenV| t is NewLine).len()
}

/// Consumes one identifier, or fails naming what stood in its place.
pub open spec fn spec_parse_identifier(toks: Seq<TokenV>, pos: int) -> Result<
    (Seq<char>, int),
    ParseErrV,
> {
    if pos < toks.len() {
        match toks[pos] {
            TokenV::Ident(n) => Ok((n, pos + 1)),
            t => Err(
                ParseErrV {
                    kind: ParseErrKindV::ExpectedIdentifier { found: Some(t) },
                    line: line_at(toks, pos),
                },
            ),
        }
    } else {
        Err(
            ParseErrV {
                kind: ParseErrKindV::ExpectedIdentifier { found: None },
                line: line_at(toks, toks.len() as int),
            },
        )
    }
}

/// Consumes identifiers as long as identifiers stand at the front.  Never
/// fails: an empty list is a list.
pub open spec fn spec_parse_identifier_list(toks: Seq<TokenV>, pos: int) -> (Seq<Seq<char>>, int)
    decreases toks.len() - pos,
        when 0 <= pos <= toks.len()
{
    if pos < toks.len() && toks[pos] is Ident {
        let (rest, p2) = spec_parse_identifier_list(toks, pos + 1);
        (seq![toks[pos]->Ident_0] + rest, p2)
    } else {
        (Seq::empty(), pos)
    }
}

/// An identifier list only moves forward, never past the end.
pub proof fn lemma_identifier_list_bounds(toks: Seq<TokenV>, pos: int)
    requires
        0 <= pos <= toks.len(),
    ensures
        pos <= spec_parse_identifier_list(toks, pos).1 <= toks.len(),
    decreases toks.len() - pos,
{
    if pos < toks.len() && toks[pos] is Ident {
        lemma_identifier_list_bounds(toks, pos + 1);
    }
}

/// Consumes the line-break tokens at the front, if any.
pub open spec fn spec_skip_newlines(toks: Seq<TokenV>, pos: int) -> int
    decreases toks.len() - pos,
        when 0 <= pos <= toks.len()
{
    if pos < toks.len() && toks[pos] is NewLine {
        spec_skip_newlines(toks, pos + 1)
    } else {
        pos
    }
}

/// Skipping line breaks only moves forward, never past the end.
pub proof fn lemma_skip_newlines_bounds(toks: Seq<TokenV>, pos: int)
    requires
        0 <= pos <= toks.len(),
    ensures
        pos <= spec_skip_newlines(toks, pos) <= toks.len(),
    decreases toks.len() - pos,
{
    if pos < toks.len() && toks[pos] is NewLine {
        lemma_skip_newlines_bounds(toks, pos + 1);
    }
}

/// Consumes exactly the expected token, or fails naming what stood there.
pub open spec fn spec_expect(toks: Seq<TokenV>, pos: int, expected: TokenV) -> Result<
    int,
    ParseErrV,
> {
    if pos < toks.len() {
        if toks[pos] == expected {
            Ok(pos + 1)
        } else {
            Err(
                ParseErrV {
                    kind: ParseErrKindV::ExpectedToken { expected, found: Some(toks[pos]) },
                    line: line_at(toks, pos),
                },
            )
        }
    } else {
        Err(
            ParseErrV {
                kind: ParseErrKindV::ExpectedToken { expected, found: None },
                line: line_at(toks, toks.len() as int),
            },
        )
    }
}

/// One body statement: the instantiated schematic's name, the actual input
/// bindings, an arrow, the actual output bindings, and the line's end.
pub open spec fn spec_parse_instruction(toks: Seq<TokenV>, pos: int) -> Result<
    (InstrV, int),
    ParseErrV,
> {
    match spec_parse_identifier(toks, pos) {
        Err(e) => Err(e),
        Ok((name, p1)) => {
            let (ins, p2) = spec_parse_identifier_list(toks, p1);
            match spec_expect(toks, p2, TokenV::Arrow) {
                Err(e) => Err(e),
                Ok(p3) => {
                    let (outs, p4) = spec_parse_identifier_list(toks, p3);
                    let p5 = spec_skip_newlines(toks, p4);
                    Ok((InstrV { name: name, bindings: ins + outs }, p5))
                },
            }
        },
    }
}

/// A successful instruction consumes at least its leading identifier and
/// never passes the end.
pub proof fn lemma_parse_instruction_bounds(toks: Seq<TokenV>, pos: int)
    requires
        0 <= pos <= toks.len(),
    ensures
        match spec_parse_instruction(toks, pos) {
            Ok((_i, p2)) => pos < p2 <= toks.len(),
            Err(_e) => true,
        },
{
    if spec_parse_instruction(toks, pos) is Ok {
        let p1 = pos + 1;
        lemma_identifier_list_bounds(toks, p1);
        let p2 = spec_parse_identifier_list(toks, p1).1;
        if spec_expect(toks, p2, TokenV::Arrow) is Ok {
            let p3 = p2 + 1;
            lemma_identifier_list_bounds(toks, p3);
            let p4 = spec_parse_identifier_list(toks, p3).1;
            lemma_skip_newlines_bounds(toks, p4);
        }
    }
}

/// The body statements, one after the other, as long as a statement's
/// leading identifier stands at the front.
pub open spec fn spec_parse_instruction_list(toks: Seq<TokenV>, pos: int) -> Result<
    (Seq<InstrV>, int),
    ParseErrV,
>
    decreases toks.len() - pos,
        when 0 <= pos <= toks.len()
{
    if pos < toks.len() && toks[pos] is Ident {
        match spec_parse_instruction(toks, pos) {
            Err(e) => Err(e),
            Ok((instr, p2)) => {
                proof {
                    lemma_parse_instruction_bounds(toks, pos);
                }
                match spec_parse_instruction_list(toks, p2) {
                    Err(e) => Err(e),
                    Ok((rest, p3)) => Ok((seq![instr] + rest, p3)),
                }
            },
        }
    } else {
        Ok((Seq::empty(), pos))
    }
}

/// A successful instruction list only moves forward, never past the end.
pub proof fn lemma_instruction_list_bounds(toks: Seq<TokenV>, pos: int)
    requires
        0 <= pos <= toks.len(),
    ensures
        match spec_parse_instruction_list(toks, pos) {
            Ok((_b, p2)) => pos <= p2 <= toks.len(),
            Err(_e) => true,
        },
    decreases toks.len() - pos,
{
    if pos < toks.len() && toks[pos] is Ident {
        lemma_parse_instruction_bounds(toks, pos);
        if spec_parse_instruction(toks, pos) is Ok {
            let p2 = spec_parse_instruction(toks, pos)->Ok_0.1;
            lemma_instruction_list_bounds(toks, p2);
        }
    }
}

/// One schematic definition: the `define` line with the name and the pin
/// interface, the body statements, and the closing `end`.
pub open spec fn spec_parse_schematic(toks: Seq<TokenV>, pos: int) -> Result<
    (SchematicV, int),
    ParseErrV,
> {
    match spec_expect(toks, pos, TokenV::Define) {
        Err(e) => Err(e),
        Ok(p1) => match spec_parse_identifier(toks, p1) {
            Err(e) => Err(e),
            Ok((name, p2)) => {
                let (ins, p3) = spec_parse_identifier_list(toks, p2);
                match spec_expect(toks, p3, TokenV::Arrow) {
                    Err(e) => Err(e),
                    Ok(p4) => {
                        let (outs, p5) = spec_parse_identifier_list(toks, p4);
                        let p6 = spec_skip_newlines(toks, p5);
                        match spec_parse_instruction_list(toks, p6) {
                            Err(e) => Err(e),
                            Ok((body, p7)) => match spec_expect(toks, p7, TokenV::End) {
                                Err(e) => Err(e),
                                Ok(p8) => Ok(
                                    (
                                        make_schematic(name, ins, outs, body),
                                        spec_skip_newlines(toks, p8),
                                    ),
                                ),
                            },
                        }
                    },
                }
            },
        },
    }
}

/// A successful schematic consumes at least its `define` and never passes
/// the end.
pub proof fn lemma_parse_schematic_bounds(toks: Seq<TokenV>, pos: int)
    requires
        0 <= pos <= toks.len(),
    ensures
        match spec_parse_schematic(toks, pos) {
            Ok((_s, p2)) => pos < p2 <= toks.len(),
            Err(_e) => true,
        },
{
    if spec_expect(toks, pos, TokenV::Define) is Ok && spec_parse_schematic(toks, pos) is Ok {
        let p1 = pos + 1;
        if spec_parse_identifier(toks, p1) is Ok {
            let p2 = p1 + 1;
            lemma_identifier_list_bounds(toks, p2);
            let p3 = spec_parse_identifier_list(toks, p2).1;
            if spec_expect(toks, p3, TokenV::Arrow) is Ok {
                let p4 = p3 + 1;
                lemma_identifier_list_bounds(toks, p4);
                let p5 = spec_parse_identifier_list(toks, p4).1;
                lemma_skip_newlines_bounds(toks, p5);
                let p6 = spec_skip_newlines(toks, p5);
                lemma_instruction_list_bounds(toks, p6);
                if spec_parse_instruction_list(toks, p6) is Ok {
                    let p7 = spec_parse_instruction_list(toks, p6)->Ok_0.1;
                    if spec_expect(toks, p7, TokenV::End) is Ok {
                        lemma_skip_newlines_bounds(toks, p7 + 1);
                    }
                }
            }
        }
    }
}

/// Schematic definitions, one after the other, until the input ends.  A
/// token where `define` should stand — trailing garbage after the last
/// definition included — fails the parse.
pub open spec fn spec_parse_design_loop(toks: Seq<TokenV>, pos: int) -> Result<
    (Seq<SchematicV>, int),
    ParseErrV,
>
    decreases toks.len() - pos,
        when 0 <= pos <= toks.len()
{
    if pos < toks.len() && toks[pos] is Define {
        match spec_parse_schematic(toks, pos) {
            Err(e) => Err(e),
            Ok((s, p2)) => {
                proof {
                    lemma_parse_schematic_bounds(toks, pos);
                }
                match spec_parse_design_loop(toks, p2) {
                    Err(e) => Err(e),
                    Ok((rest, p3)) => Ok((seq![s] + rest, p3)),
                }
            },
        }
    } else if pos >= toks.len() {
        Ok((Seq::empty(), pos))
    } else {
        Err(
            ParseErrV {
                kind: ParseErrKindV::ExpectedToken {
                    expected: TokenV::Define,
                    found: Some(toks[pos]),
                },
                line: line_at(toks, pos),
            },
        )
    }
}

/// The whole design: leading blank lines, then every schematic definition
/// the source holds, in order, consuming the entire token stream.
pub open spec fn spec_parse_design(toks: Seq<TokenV>, start: int) -> Result<DesignV, ParseErrV> {
    let p0 = spec_skip_newlines(toks, start);
    match spec_parse_design_loop(toks, p0) {
        Err(e) => Err(e),
        Ok((ss, _p)) => Ok(DesignV { schematics: ss }),
    }
}

/// A parsed identifier is one of the stream's identifier payloads.
proof fn lemma_parse_identifier_plain(toks: Seq<TokenV>, pos: int)
    requires
        idents_plain(toks),
        0 <= pos <= toks.len(),
    ensures
        match spec_parse_identifier(toks, pos) {
            Ok((n, _p)) => plain_name(n),
            Err(_e) => true,
        },
{
}

/// Every name of a parsed identifier list is plain.
proof fn lemma_identifier_list_plain(toks: Seq<TokenV>, pos: int)
    requires
        idents_plain(toks),
        0 <= pos <= toks.len(),
    ensures
        forall|j: int|
            0 <= j < spec_parse_identifier_list(toks, pos).0.len() ==> plain_name(
                #[trigger] spec_parse_identifier_list(toks, pos).0[j],
            ),
    decreases toks.len() - pos,
{
    if pos < toks.len() && toks[pos] is Ident {
        lemma_identifier_list_plain(toks, pos + 1);
        let (rest, _p) = spec_parse_identifier_list(toks, pos + 1);
        assert forall|j: int|
            0 <= j < spec_parse_identifier_list(toks, pos).0.len() implies plain_name(
            #[trigger] spec_parse_identifier_list(toks, pos).0[j],
        ) by {
            if j == 0 {
                assert(spec_parse_identifier_list(toks, pos).0[0] == toks[pos]->Ident_0);
            } else {
                assert(spec_parse_identifier_list(toks, pos).0[j] == rest[j - 1]);
            }
        }
    }
}

/// A parsed instruction carries only plain names.
proof fn lemma_parse_instruction_plain(toks: Seq<TokenV>, pos: int)
    requires
        idents_plain(toks),
        0 <= pos <= toks.len(),
    ensures
        match spec_parse_instruction(toks, pos) {
            Ok((i, _p)) => instr_plain(i),
            Err(_e) => true,
        },
{
    if spec_parse_instruction(toks, pos) is Ok {
        lemma_parse_identifier_plain(toks, pos);
        let p1 = pos + 1;
        lemma_identifier_list_plain(toks, p1);
        lemma_identifier_list_bounds(toks, p1);
        let (ins, p2) = spec_parse_identifier_list(toks, p1);
        if spec_expect(toks, p2, TokenV::Arrow) is Ok {
            let p3 = p2 + 1;
            lemma_identifier_list_plain(toks, p3);
            lemma_identifier_list_bounds(toks, p3);
            let (outs, _p4) = spec_parse_identifier_list(toks, p3);
            let i = spec_parse_instruction(toks, pos)->Ok_0.0;
            assert(i.bindings == ins + outs);
            assert forall|p: int| 0 <= p < i.bindings.len() implies plain_name(
                #[trigger] i.bindings[p],
            ) by {
                if p < ins.len() {
                    assert(i.bindings[p] == ins[p]);
                } else {
                    assert(i.bindings[p] == outs[p - ins.len()]);
                }
            }
        }
    }
}

/// Every instruction of a parsed body carries only plain names.
proof fn lemma_instruction_list_plain(toks: Seq<TokenV>, pos: int)
    requires
        idents_plain(toks),
        0 <= pos <= toks.len(),
    ensures
        match spec_parse_instruction_list(toks, pos) {
            Ok((body, _p)) => forall|k: int|
                0 <= k < body.len() ==> instr_plain(#[trigger] body[k]),
            Err(_e) => true,
        },
    decreases toks.len() - pos,
{
    if pos < toks.len() && toks[pos] is Ident && spec_parse_instruction_list(toks, pos) is Ok {
        lemma_parse_instruction_plain(toks, pos);
        lemma_parse_instruction_bounds(toks, pos);
        let (instr, p2) = spec_parse_instruction(toks, pos)->Ok_0;
        lemma_instruction_list_plain(toks, p2);
        let (rest, _p3) = spec_parse_instruction_list(toks, p2)->Ok_0;
        let body = spec_parse_instruction_list(toks, pos)->Ok_0.0;
        assert forall|k: int| 0 <= k < body.len() implies instr_plain(#[trigger] body[k]) by {
            if k == 0 {
                assert(body[0] == instr);
            } else {
                assert(body[k] == rest[k - 1]);
            }
        }
    }
}

/// A parsed schematic is well formed and carries only plain names.
proof fn lemma_parse_schematic_good(toks: Seq<TokenV>, pos: int)
    requires
        idents_plain(toks),
        0 <= pos <= toks.len(),
    ensures
        match spec_parse_schematic(toks, pos) {
            Ok((s, _p)) => s.wf() && schematic_plain(s),
            Err(_e) => true,
        },
{
    if spec_expect(toks, pos, TokenV::Define) is Ok && spec_parse_schematic(toks, pos) is Ok {
        let p1 = pos + 1;
        lemma_parse_identifier_plain(toks, p1);
        if spec_parse_identifier(toks, p1) is Ok {
            let (name, p2) = spec_parse_identifier(toks, p1)->Ok_0;
            lemma_identifier_list_plain(toks, p2);
            lemma_identifier_list_bounds(toks, p2);
            let (ins, p3) = spec_parse_identifier_list(toks, p2);
            if spec_expect(toks, p3, TokenV::Arrow) is Ok {
                let p4 = p3 + 1;
                lemma_identifier_list_plain(toks, p4);
                lemma_identifier_list_bounds(toks, p4);
                let (outs, p5) = spec_parse_identifier_list(toks, p4);
                lemma_skip_newlines_bounds(toks, p5);
                let p6 = spec_skip_newlines(toks, p5);
                lemma_instruction_list_plain(toks, p6);
                lemma_instruction_list_bounds(toks, p6);
                if spec_parse_instruction_list(toks, p6) is Ok {
                    let (body, _p7) = spec_parse_instruction_list(toks, p6)->Ok_0;
                    lemma_make_schematic_wf(name, ins, outs, body);
                    lemma_make_schematic_plain(name, ins, outs, body);
                }
            }
        }
    }
}

/// Every schematic a parse yields is well formed and carries only plain
/// names.
proof fn lemma_design_loop_good(toks: Seq<TokenV>, pos: int)
    requires
        idents_plain(toks),
        0 <= pos <= toks.len(),
    ensures
        match spec_parse_design_loop(toks, pos) {
            Ok((ss, _p)) => forall|x: int|
                0 <= x < ss.len() ==> (#[trigger] ss[x]).wf() && schematic_plain(ss[x]),
            Err(_e) => true,
        },
    decreases toks.len() - pos,
{
    if pos < toks.len() && toks[pos] is Define && spec_parse_design_loop(toks, pos) is Ok {
        lemma_parse_schematic_good(toks, pos);
        lemma_parse_schematic_bounds(toks, pos);
        let (s, p2) = spec_parse_schematic(toks, pos)->Ok_0;
        lemma_design_loop_good(toks, p2);
        let (rest, _p3) = spec_parse_design_loop(toks, p2)->Ok_0;
        let ss = spec_parse_design_loop(toks, pos)->Ok_0.0;
        assert forall|x: int| 0 <= x < ss.len() implies (#[trigger] ss[x]).wf()
            && schematic_plain(ss[x]) by {
            if x == 0 {
                assert(ss[0] == s);
            } else {
                assert(ss[x] == rest[x - 1]);
            }
        }
    }
}

/// Every schematic of a parsed design is well formed — its pin roles stand
/// in blocks and its bound names all have pins — and carries only plain
/// names.
pub proof fn lemma_parse_design_good(toks: Seq<TokenV>, start: int)
    requires
        idents_plain(toks),
        0 <= start <= toks.len(),
    ensures
        match spec_parse_design(toks, start) {
            Ok(d) => forall|x: int|
                0 <= x < d.schematics.len() ==> (#[trigger] d.schematics[x]).wf()
                    && schematic_plain(d.schematics[x]),
            Err(_e) => true,
        },
{
    lemma_skip_newlines_bounds(toks, start);
    lemma_design_loop_good(toks, spec_skip_newlines(toks, start));
}

/// No name of `s` — its own, a pin's, or one a body instruction uses — is
/// the name `n`.
pub open spec fn schematic_avoids(s: SchematicV, n: Seq<char>) -> bool {
    &&& s.name != n
    &&& forall|j: int| 0 <= j < s.pins.len() ==> (#[trigger] s.pins[j]).name != n
    &&& forall|k: int|
        0 <= k < s.body.len() ==> (#[trigger] s.body[k]).name != n && forall|p: int|
            0 <= p < s.body[k].bindings.len() ==> (#[trigger] s.body[k].bindings[p]) != n
}

/// Name freshness, end to end: no name that appears anywhere in a design
/// parsed from source text is ever a generated local name, so the fresh
/// names one flatten invocation mints can collide neither with each other —
/// see [`lemma_gen_name_injective`](crate::flatten::lemma_gen_name_injective)
/// — nor with any name of the source.
#[verifier::rlimit(50)]
pub proof fn lemma_parsed_design_avoids_generated_names(
    text: Seq<char>,
    start: int,
    d: DesignV,
    k: nat,
)
    requires
        0 <= start <= spec_tokenize(text).len(),
        spec_parse_design(spec_tokenize(text), start) == Ok::<DesignV, ParseErrV>(d),
    ensures
        forall|x: int|
            0 <= x < d.schematics.len() ==> schematic_avoids(
                #[trigger] d.schematics[x],
                gen_name(k),
            ),
{
    lemma_tokenize_idents_plain(text);
    lemma_parse_design_good(spec_tokenize(text), start);
    assert(spec_parse_design(spec_tokenize(text), start)->Ok_0 == d);
    assert(forall|x: int|
        0 <= x < d.schematics.len() ==> (#[trigger] d.schematics[x]).wf() && schematic_plain(
            d.schematics[x],
        ));
    assert forall|x: int| 0 <= x < d.schematics.len() implies schematic_avoids(
        #[trigger] d.schematics[x],
        gen_name(k),
    ) by {
        let s = d.schematics[x];
        assert(schematic_plain(d.schematics[x]));
        lemma_gen_name_reserved(k, s.name);
        assert forall|j: int| 0 <= j < s.pins.len() implies (#[trigger] s.pins[j]).name
            != gen_name(k) by {
            lemma_gen_name_reserved(k, s.pins[j].name);
        }
        assert forall|kk: int| 0 <= kk < s.body.len() implies (#[trigger] s.body[kk]).name
            != gen_name(k) && forall|p: int|
            0 <= p < s.body[kk].bindings.len() ==> (#[trigger] s.body[kk].bindings[p]) != gen_name(
                k,
            ) by {
            lemma_gen_name_reserved(k, s.body[kk].name);
            assert forall|p: int| 0 <= p < s.body[kk].bindings.len() implies (
            #[trigger] s.body[kk].bindings[p]) != gen_name(k) by {
                lemma_gen_name_reserved(k, s.body[kk].bindings[p]);
            }
        }
    }
}

/// The whole text's token stream, as [`spec_tokenize`] describes it.
pub fn tokenize(src: &str) -> (r: Vec<Token>)
    ensures
        r.deep_view() == spec_tokenize(src@),
{
    let lines = split_lines_exec(src);
    let ghost lns = split_lines(src@);
    let mut toks: Vec<Token> = Vec::new();
    let mut i: usize = 0;
    proof {
        assert(lns.take(0).map_values(|l: Seq<char>| line_tokens(l))
            =~= Seq::<Seq<TokenV>>::empty());
        assert(toks.deep_view() =~= lns.take(0).map_values(
            |l: Seq<char>| line_tokens(l),
        ).flatten());
    }
    while i < lines.len()
        invariant
            i <= lines.len(),
            lns == split_lines(src@),
            lines.deep_view() == lns,
            toks.deep_view() == lns.take(i as int).map_values(
                |l: Seq<char>| line_tokens(l),
            ).flatten(),
        decreases lines.len() - i,
    {
        let ghost ii = i as int;
        let ghost segment_start = toks.deep_view();
        let cs = scan_comment(lines[i].as_str());
        proof {
            lemma_comment_start_le(lns[ii]);
        }
        let stripped = lines[i].as_str().substring_char(0, cs);
        proof {
            assert(stripped@ =~= strip_comment(lns[ii]));
        }
        let lexs = split_lexemes_exec(stripped);
        let ghost lxv = split_lexemes(strip_comment(lns[ii]));
        let mut j: usize = 0;
        proof {
            assert(lxv.take(0).map_values(|l: Seq<char>| token_of(l)) =~= Seq::<TokenV>::empty());
            assert(segment_start + lxv.take(0).map_values(|l: Seq<char>| token_of(l))
                =~= segment_start);
        }
        while j < lexs.len()
            invariant
                j <= lexs.len(),
                lexs.deep_view() == lxv,
                toks.deep_view() == segment_start + lxv.take(j as int).map_values(
                    |l: Seq<char>| token_of(l),
                ),
            decreases lexs.len() - j,
        {
            let ghost jj = j as int;
            let t = Token::from(lexs[j].clone());
            let ghost prev = toks.deep_view();
            toks.push(t);
            proof {
                assert(toks.deep_view() =~= prev.push(token_of(lxv[jj])));
                assert(lxv.take(jj + 1).map_values(|l: Seq<char>| token_of(l)) =~= lxv.take(
                    jj,
                ).map_values(|l: Seq<char>| token_of(l)).push(token_of(lxv[jj])));
                assert(segment_start + lxv.take(jj + 1).map_values(|l: Seq<char>| token_of(l))
                    =~= prev.push(token_of(lxv[jj])));
            }
            j = j + 1;
        }
        let ghost prev = toks.deep_view();
        toks.push(Token::NewLine);
        proof {
            assert(lxv.take(lxv.len() as int) =~= lxv);
            assert(toks.deep_view() =~= prev.push(TokenV::NewLine));
            assert(toks.deep_view() =~= segment_start + line_tokens(lns[ii]));
            let m = lns.take(ii).map_values(|l: Seq<char>| line_tokens(l));
            assert(lns.take(ii + 1).map_values(|l: Seq<char>| line_tokens(l)) =~= m.push(
                line_tokens(lns[ii]),
            ));
            m.lemma_flatten_push(line_tokens(lns[ii]));
            assert(toks.deep_view() =~= lns.take(ii + 1).map_values(
                |l: Seq<char>| line_tokens(l),
            ).flatten());
        }
        i = i + 1;
    }
    proof {
        assert(lns.take(lns.len() as int) =~= lns);
    }
    toks
}

/// Every identifier token of a stream carries a plain name — one without a
/// `.` — as every stream the lexer produces does.
pub open spec fn idents_plain(toks: Seq<TokenV>) -> bool {
    forall|i: int|
        0 <= i < toks.len() ==> ((#[trigger] toks[i]) is Ident ==> plain_name(toks[i]->Ident_0))
}

/// An identifier's characters are letters and digits, so never `.`.
proof fn lemma_ident_char_not_dot(c: char)
    requires
        is_ident_char(c),
    ensures
        c != '.',
{
    assert('.' as u32 == 46);
}

/// Whatever lexeme becomes an identifier token is plain.
proof fn lemma_token_of_plain(lex: Seq<char>)
    ensures
        token_of(lex) is Ident ==> plain_name(token_of(lex)->Ident_0),
{
    if token_of(lex) is Ident {
        assert forall|k: int| 0 <= k < lex.len() implies lex[k] != '.' by {
            lemma_ident_char_not_dot(lex[k]);
        }
    }
}

/// Every identifier token of one line is plain.
proof fn lemma_line_tokens_plain(line: Seq<char>)
    ensures
        idents_plain(line_tokens(line)),
{
    let lexs = split_lexemes(strip_comment(line));
    let mapped = lexs.map_values(|l: Seq<char>| token_of(l));
    assert forall|i: int|
        0 <= i < line_tokens(line).len() && (#[trigger] line_tokens(line)[i]) is Ident implies
    plain_name(line_tokens(line)[i]->Ident_0) by {
        if i < mapped.len() {
            assert(line_tokens(line)[i] == token_of(lexs[i]));
            lemma_token_of_plain(lexs[i]);
        } else {
            assert(line_tokens(line)[i] == TokenV::NewLine);
        }
    }
}

/// A flattened token stream is plain if each of its parts is.
proof fn lemma_flatten_idents_plain(parts: Seq<Seq<TokenV>>)
    requires
        forall|j: int| 0 <= j < parts.len() ==> idents_plain(#[trigger] parts[j]),
    ensures
        idents_plain(parts.flatten()),
    decreases parts.len(),
{
    if parts.len() > 0 {
        assert(parts.flatten() == parts[0] + parts.drop_first().flatten());
        assert(forall|j: int|
            0 <= j < parts.drop_first().len() ==> #[trigger] parts.drop_first()[j] == parts[j
                + 1]);
        lemma_flatten_idents_plain(parts.drop_first());
        assert forall|i: int|
            0 <= i < parts.flatten().len() && (#[trigger] parts.flatten()[i]) is Ident implies
        plain_name(parts.flatten()[i]->Ident_0) by {
            if i < parts[0].len() {
                assert(parts.flatten()[i] == parts[0][i]);
            } else {
                assert(parts.flatten()[i] == parts.drop_first().flatten()[i - parts[0].len()]);
            }
        }
    }
}

/// Every identifier the lexer hands to the parser is plain: the reserved
/// prefix of generated names can never be written in source text.
pub proof fn lemma_tokenize_idents_plain(text: Seq<char>)
    ensures
        idents_plain(spec_tokenize(text)),
{
    let parts = split_lines(text).map_values(|l: Seq<char>| line_tokens(l));
    assert forall|j: int| 0 <= j < parts.len() implies idents_plain(#[trigger] parts[j]) by {
        lemma_line_tokens_plain(split_lines(text)[j]);
    }
    lemma_flatten_idents_plain(parts);
}

/// The number of line-break tokens among the first `pos` tokens.
pub open spec fn newlines_in(toks: Seq<TokenV>, pos: int) -> nat {
    toks.take(pos).filter(|t: TokenV| t is NewLine).len()
}

/// An empty token prefix holds no line break.
proof fn lemma_newlines_in_zero(toks: Seq<TokenV>)
    ensures
        newlines_in(toks, 0) == 0,
{
    reveal(Seq::filter);
    assert(toks.take(0) =~= Seq::<TokenV>::empty());
}

/// Extending a token prefix by one token raises the line-break count by one
/// exactly when that token is a line break.
proof fn lemma_newlines_in_step(toks: Seq<TokenV>, j: int)
    requires
        0 <= j < toks.len(),
    ensures
        newlines_in(toks, j + 1) == newlines_in(toks, j) + (if toks[j] is NewLine {
            1nat
        } else {
            0nat
        }),
        newlines_in(toks, j) <= j,
    decreases j,
{
    reveal(Seq::filter);
    assert(toks.take(j + 1).drop_last() =~= toks.take(j));
    assert(toks.take(j + 1).last() == toks[j]);
    if j > 0 {
        lemma_newlines_in_step(toks, j - 1);
    } else {
        lemma_newlines_in_zero(toks);
    }
}

/// Prepends already-parsed items to the outcome of parsing the rest of a
/// repeated production.
pub open spec fn parsed_state<T>(acc: Seq<T>, r: Result<(Seq<T>, int), ParseErrV>) -> Result<
    (Seq<T>, int),
    ParseErrV,
> {
    match r {
        Ok((items, p)) => Ok((acc + items, p)),
        Err(e) => Err(e),
    }
}

/// Prepending to an already prepended outcome is prepending the
/// concatenation.
proof fn lemma_parsed_state_assoc<T>(a: Seq<T>, b: Seq<T>, r: Result<(Seq<T>, int), ParseErrV>)
    ensures
        parsed_state(a, parsed_state(b, r)) == parsed_state(a + b, r),
{
    if let Ok((items, p)) = r {
        assert(a + (b + items) =~= (a + b) + items);
    }
}

/// Prepending nothing changes nothing.
proof fn lemma_parsed_state_empty<T>(r: Result<(Seq<T>, int), ParseErrV>)
    ensures
        parsed_state(Seq::empty(), r) == r,
{
    if let Ok((items, p)) = r {
        assert(Seq::empty() + items =~= items);
    }
}

/// The recursive-descent parser: a token stream and a cursor into it.
pub struct Parser {
    pub tokens: Vec<Token>,
    pub pos: usize,
}

impl Parser {
    /// The token stream's model.
    pub open spec fn toks(&self) -> Seq<TokenV> {
        self.tokens.deep_view()
    }

    /// The cursor never passes the end of the token stream.
    pub open spec fn wf(&self) -> bool {
        self.pos <= self.tokens.len()
    }

    /// A parser over the token stream of the given source text, at its
    /// start.
    pub fn new(source: &str) -> (r: Self)
        ensures
            r.toks() == spec_tokenize(source@),
            r.pos == 0,
            r.wf(),
    {
        Parser { tokens: tokenize(source), pos: 0 }
    }

    /// The 1-based source line of the token at the cursor.
    fn current_line(&self) -> (r: usize)
        requires
            self.wf(),
            self.tokens.len() < usize::MAX,
        ensures
            r as nat == line_at(self.toks(), self.pos as int),
    {
        let mut cnt: usize = 0;
        let mut i: usize = 0;
        proof {
            lemma_newlines_in_zero(self.toks());
        }
        while i < self.pos
            invariant
                i <= self.pos,
                self.wf(),
                self.tokens.len() < usize::MAX,
                cnt as nat == newlines_in(self.toks(), i as int),
                cnt <= i,
            decreases self.pos - i,
        {
            proof {
                lemma_newlines_in_step(self.toks(), i as int);
            }
            match &self.tokens[i] {
                Token::NewLine => {
                    cnt = cnt + 1;
                },
                _ => {
                },
            }
            i = i + 1;
        }
        cnt + 1
    }

    /// True iff an identifier stands at the cursor.
    fn peek_ident(&self) -> (r: bool)
        requires
            self.wf(),
        ensures
            r == (self.pos < self.tokens.len() && self.toks()[self.pos as int] is Ident),
    {
        if self.pos < self.tokens.len() {
            match &self.tokens[self.pos] {
                Token::Ident(_) => true,
                _ => false,
            }
        } else {
            false
        }
    }

    /// True iff a line break stands at the cursor.
    fn peek_newline(&self) -> (r: bool)
        requires
            self.wf(),
        ensures
            r == (self.pos < self.tokens.len() && self.toks()[self.pos as int] is NewLine),
    {
        if self.pos < self.tokens.len() {
            match &self.tokens[self.pos] {
                Token::NewLine => true,
                _ => false,
            }
        } else {
            false
        }
    }

    /// True iff `define` stands at the cursor.
    fn peek_define(&self) -> (r: bool)
        requires
            self.wf(),
        ensures
            r == (self.pos < self.tokens.len() && self.toks()[self.pos as int] is Define),
    {
        if self.pos < self.tokens.len() {
            match &self.tokens[self.pos] {
                Token::Define => true,
                _ => false,
            }
        } else {
            false
        }
    }

    /// Consumes one identifier, as [`spec_parse_identifier`] describes.
    fn parse_identifier(&mut self) -> (r: Result<String, ParseError>)
        requires
            old(self).wf(),
            old(self).tokens.len() < usize::MAX,
        ensures
            final(self).tokens@ == old(self).tokens@,
            final(self).wf(),
            match r {
                Ok(n) => spec_parse_identifier(old(self).toks(), old(self).pos as int) == Ok::<
                    (Seq<char>, int),
                    ParseErrV,
                >((n@, final(self).pos as int)),
                Err(e) => spec_parse_identifier(old(self).toks(), old(self).pos as int) == Err::<
                    (Seq<char>, int),
                    ParseErrV,
                >(e@) && final(self).pos == old(self).pos,
            },
    {
        if self.pos < self.tokens.len() {
            match &self.tokens[self.pos] {
                Token::Ident(s) => {
                    let n = s.clone();
                    self.pos = self.pos + 1;
                    Ok(n)
                },
                t => {
                    let found = Some(t.clone());
                    let line = self.current_line();
                    Err(ParseError { kind: ParseErrorKind::ExpectedIdentifier { found }, line })
                },
            }
        } else {
            let line = self.current_line();
            Err(ParseError { kind: ParseErrorKind::ExpectedIdentifier { found: None }, line })
        }
    }

    /// Consumes identifiers while identifiers stand at the cursor, as
    /// [`spec_parse_identifier_list`] describes.
    fn parse_identifier_list(&mut self) -> (r: Vec<String>)
        requires
            old(self).wf(),
            old(self).tokens.len() < usize::MAX,
        ensures
            final(self).tokens@ == old(self).tokens@,
            final(self).wf(),
            spec_parse_identifier_list(old(self).toks(), old(self).pos as int) == (
                r.deep_view(),
                final(self).pos as int,
            ),
    {
        let ghost toksv = self.toks();
        let ghost pos0 = self.pos as int;
        let mut acc: Vec<String> = Vec::new();
        while self.peek_ident()
            invariant
                self.wf(),
                self.tokens@ == old(self).tokens@,
                self.tokens.len() < usize::MAX,
                toksv == self.toks(),
                pos0 <= self.pos as int,
                spec_parse_identifier_list(toksv, pos0) == (
                    acc.deep_view() + spec_parse_identifier_list(toksv, self.pos as int).0,
                    spec_parse_identifier_list(toksv, self.pos as int).1,
                ),
            decreases self.tokens.len() - self.pos,
        {
            let ghost p = self.pos as int;
            let r1 = self.parse_identifier();
            match r1 {
                Ok(n) => {
                    let ghost prev = acc.deep_view();
                    let ghost namev = n@;
                    acc.push(n);
                    proof {
                        assert(acc.deep_view() =~= prev.push(namev));
                        assert(spec_parse_identifier_list(toksv, p) == (
                            seq![namev] + spec_parse_identifier_list(toksv, p + 1).0,
                            spec_parse_identifier_list(toksv, p + 1).1,
                        ));
                        assert(prev + (seq![namev] + spec_parse_identifier_list(toksv, p + 1).0)
                            =~= acc.deep_view() + spec_parse_identifier_list(toksv, p + 1).0);
                    }
                },
                Err(_e) => {
                },
            }
        }
        proof {
            assert(spec_parse_identifier_list(toksv, self.pos as int) == (
                Seq::<Seq<char>>::empty(),
                self.pos as int,
            ));
            assert(acc.deep_view() + Seq::<Seq<char>>::empty() =~= acc.deep_view());
        }
        acc
    }

    /// Consumes the line breaks at the cursor, as [`spec_skip_newlines`]
    /// describes.
    fn parse_newlines(&mut self)
        requires
            old(self).wf(),
        ensures
            final(self).tokens@ == old(self).tokens@,
            final(self).wf(),
            final(self).pos as int == spec_skip_newlines(old(self).toks(), old(self).pos as int),
            old(self).pos <= final(self).pos,
    {
        let ghost toksv = self.toks();
        while self.peek_newline()
            invariant
                self.wf(),
                self.tokens@ == old(self).tokens@,
                toksv == self.toks(),
                old(self).pos <= self.pos,
                spec_skip_newlines(toksv, old(self).pos as int) == spec_skip_newlines(
                    toksv,
                    self.pos as int,
                ),
            decreases self.tokens.len() - self.pos,
        {
            self.pos = self.pos + 1;
        }
    }

    /// Consumes one `->`, as [`spec_expect`] describes.
    fn expect_arrow(&mut self) -> (r: Result<(), ParseError>)
        requires
            old(self).wf(),
            old(self).tokens.len() < usize::MAX,
        ensures
            final(self).tokens@ == old(self).tokens@,
            final(self).wf(),
            match r {
                Ok(_) => spec_expect(old(self).toks(), old(self).pos as int, TokenV::Arrow)
                    == Ok::<int, ParseErrV>(final(self).pos as int),
                Err(e) => spec_expect(old(self).toks(), old(self).pos as int, TokenV::Arrow)
                    == Err::<int, ParseErrV>(e@) && final(self).pos == old(self).pos,
            },
    {
        if self.pos < self.tokens.len() {
            match &self.tokens[self.pos] {
                Token::Arrow => {
                    self.pos = self.pos + 1;
                    Ok(())
                },
                t => {
                    let found = Some(t.clone());
                    let line = self.current_line();
                    Err(
                        ParseError {
                            kind: ParseErrorKind::ExpectedToken { expected: Token::Arrow, found },
                            line,
                        },
                    )
                },
            }
        } else {
            let line = self.current_line();
            Err(
                ParseError {
                    kind: ParseErrorKind::ExpectedToken { expected: Token::Arrow, found: None },
                    line,
                },
            )
        }
    }

    /// Consumes one `end`, as [`spec_expect`] describes.
    fn expect_end(&mut self) -> (r: Result<(), ParseError>)
        requires
            old(self).wf(),
            old(self).tokens.len() < usize::MAX,
        ensures
            final(self).tokens@ == old(self).tokens@,
            final(self).wf(),
            match r {
                Ok(_) => spec_expect(old(self).toks(), old(self).pos as int, TokenV::End) == Ok::<
                    int,
                    ParseErrV,
                >(final(self).pos as int),
                Err(e) => spec_expect(old(self).toks(), old(self).pos as int, TokenV::End)
                    == Err::<int, ParseErrV>(e@) && final(self).pos == old(self).pos,
            },
    {
        if self.pos < self.tokens.len() {
            match &self.tokens[self.pos] {
                Token::End => {
                    self.pos = self.pos + 1;
                    Ok(())
                },
                t => {
                    let found = Some(t.clone());
                    let line = self.current_line();
                    Err(
                        ParseError {
                            kind: ParseErrorKind::ExpectedToken { expected: Token::End, found },
                            line,
                        },
                    )
                },
            }
        } else {
            let line = self.current_line();
            Err(
                ParseError {
                    kind: ParseErrorKind::ExpectedToken { expected: Token::End, found: None },
                    line,
                },
            )
        }
    }

    /// Consumes one `define`, as [`spec_expect`] describes.
    fn expect_define(&mut self) -> (r: Result<(), ParseError>)
        requires
            old(self).wf(),
            old(self).tokens.len() < usize::MAX,
        ensures
            final(self).tokens@ == old(self).tokens@,
            final(self).wf(),
            match r {
                Ok(_) => spec_expect(old(self).toks(), old(self).pos as int, TokenV::Define)
                    == Ok::<int, ParseErrV>(final(self).pos as int),
                Err(e) => spec_expect(old(self).toks(), old(self).pos as int, TokenV::Define)
                    == Err::<int, ParseErrV>(e@) && final(self).pos == old(self).pos,
            },
    {
        if self.pos < self.tokens.len() {
            match &self.tokens[self.pos] {
                Token::Define => {
                    self.pos = self.pos + 1;
                    Ok(())
                },
                t => {
                    let found = Some(t.clone());
                    let line = self.current_line();
                    Err(
                        ParseError {
                            kind: ParseErrorKind::ExpectedToken { expected: Token::Define, found },
                            line,
                        },
                    )
                },
            }
        } else {
            let line = self.current_line();
            Err(
                ParseError {
                    kind: ParseErrorKind::ExpectedToken { expected: Token::Define, found: None },
                    line,
                },
            )
        }
    }

    /// Consumes one body statement, as [`spec_parse_instruction`] describes.
    fn parse_instruction(&mut self) -> (r: Result<Instruction, ParseError>)
        requires
            old(self).wf(),
            old(self).tokens.len() < usize::MAX,
        ensures
            final(self).tokens@ == old(self).tokens@,
            final(self).wf(),
            match r {
                Ok(instr) => spec_parse_instruction(old(self).toks(), old(self).pos as int)
                    == Ok::<(InstrV, int), ParseErrV>((instr@, final(self).pos as int)),
                Err(e) => spec_parse_instruction(old(self).toks(), old(self).pos as int) == Err::<
                    (InstrV, int),
                    ParseErrV,
                >(e@),
            },
    {
        let name = match self.parse_identifier() {
            Ok(n) => n,
            Err(e) => {
                return Err(e);
            },
        };
        let inputs = self.parse_identifier_list();
        match self.expect_arrow() {
            Ok(_) => {
            },
            Err(e) => {
                return Err(e);
            },
        }
        let outputs = self.parse_identifier_list();
        self.parse_newlines();
        Ok(Instruction::new(name, inputs, outputs))
    }

    /// Consumes body statements while identifiers stand at the cursor, as
    /// [`spec_parse_instruction_list`] describes.
    fn parse_instruction_list(&mut self) -> (r: Result<Vec<Instruction>, ParseError>)
        requires
            old(self).wf(),
            old(self).tokens.len() < usize::MAX,
        ensures
            final(self).tokens@ == old(self).tokens@,
            final(self).wf(),
            match r {
                Ok(body) => spec_parse_instruction_list(old(self).toks(), old(self).pos as int)
                    == Ok::<(Seq<InstrV>, int), ParseErrV>((body.deep_view(), final(self).pos as int)),
                Err(e) => spec_parse_instruction_list(old(self).toks(), old(self).pos as int)
                    == Err::<(Seq<InstrV>, int), ParseErrV>(e@),
            },
    {
        let ghost toksv = self.toks();
        let ghost pos0 = self.pos as int;
        let mut acc: Vec<Instruction> = Vec::new();
        proof {
            lemma_parsed_state_empty(spec_parse_instruction_list(toksv, pos0));
            assert(acc.deep_view() =~= Seq::<InstrV>::empty());
        }
        while self.peek_ident()
            invariant
                self.wf(),
                self.tokens@ == old(self).tokens@,
                self.tokens.len() < usize::MAX,
                toksv == self.toks(),
                toksv == old(self).toks(),
                pos0 == old(self).pos as int,
                0 <= pos0 <= self.pos as int,
                spec_parse_instruction_list(toksv, pos0) == parsed_state(
                    acc.deep_view(),
                    spec_parse_instruction_list(toksv, self.pos as int),
                ),
            decreases self.tokens.len() - self.pos,
        {
            let ghost p = self.pos as int;
            proof {
                lemma_parse_instruction_bounds(toksv, p);
            }
            match self.parse_instruction() {
                Err(e) => {
                    return Err(e);
                },
                Ok(instr) => {
                    let ghost prev = acc.deep_view();
                    let ghost iv = instr@;
                    acc.push(instr);
                    proof {
                        assert(acc.deep_view() =~= prev.push(iv));
                        assert(prev.push(iv) =~= prev + seq![iv]);
                        assert(spec_parse_instruction_list(toksv, p) == parsed_state(
                            seq![iv],
                            spec_parse_instruction_list(toksv, self.pos as int),
                        ));
                        lemma_parsed_state_assoc(
                            prev,
                            seq![iv],
                            spec_parse_instruction_list(toksv, self.pos as int),
                        );
                    }
                },
            }
        }
        proof {
            assert(spec_parse_instruction_list(toksv, self.pos as int) == Ok::<
                (Seq<InstrV>, int),
                ParseErrV,
            >((Seq::empty(), self.pos as int)));
            assert(acc.deep_view() + Seq::<InstrV>::empty() =~= acc.deep_view());
        }
        Ok(acc)
    }

    /// Consumes one schematic definition, as [`spec_parse_schematic`]
    /// describes.
    fn parse_schematic(&mut self) -> (r: Result<Schematic, ParseError>)
        requires
            old(self).wf(),
            old(self).tokens.len() < usize::MAX,
        ensures
            final(self).tokens@ == old(self).tokens@,
            final(self).wf(),
            match r {
                Ok(s) => spec_parse_schematic(old(self).toks(), old(self).pos as int) == Ok::<
                    (SchematicV, int),
                    ParseErrV,
                >((s@, final(self).pos as int)),
                Err(e) => spec_parse_schematic(old(self).toks(), old(self).pos as int) == Err::<
                    (SchematicV, int),
                    ParseErrV,
                >(e@),
            },
    {
        match self.expect_define() {
            Ok(_) => {
            },
            Err(e) => {
                return Err(e);
            },
        }
        let name = match self.parse_identifier() {
            Ok(n) => n,
            Err(e) => {
                return Err(e);
            },
        };
        let inputs = self.parse_identifier_list();
        match self.expect_arrow() {
            Ok(_) => {
            },
            Err(e) => {
                return Err(e);
            },
        }
        let outputs = self.parse_identifier_list();
        self.parse_newlines();
        let body = match self.parse_instruction_list() {
            Ok(b) => b,
            Err(e) => {
                return Err(e);
            },
        };
        match self.expect_end() {
            Ok(_) => {
            },
            Err(e) => {
                return Err(e);
            },
        }
        self.parse_newlines();
        Ok(Schematic::new(name, (inputs, outputs), body))
    }

    /// Parses the whole token stream into a [`Design`], as
    /// [`spec_parse_design`] describes: every schematic definition the
    /// source holds, in order, or the first parse failure with its source
    /// line.
    pub fn parse(&mut self) -> (r: Result<Design, ParseError>)
        requires
            old(self).wf(),
            old(self).tokens.len() < usize::MAX,
        ensures
            final(self).tokens@ == old(self).tokens@,
            final(self).wf(),
            match r {
                Ok(d) => spec_parse_design(old(self).toks(), old(self).pos as int) == Ok::<
                    DesignV,
                    ParseErrV,
                >(d@),
                Err(e) => spec_parse_design(old(self).toks(), old(self).pos as int) == Err::<
                    DesignV,
                    ParseErrV,
                >(e@),
            },
    {
        let ghost toksv = self.toks();
        self.parse_newlines();
        let ghost p0 = self.pos as int;
        let mut schematics: Vec<Schematic> = Vec::new();
        proof {
            lemma_parsed_state_empty(spec_parse_design_loop(toksv, p0));
            assert(schematics.deep_view() =~= Seq::<SchematicV>::empty());
        }
        while self.peek_define()
            invariant
                self.wf(),
                self.tokens@ == old(self).tokens@,
                self.tokens.len() < usize::MAX,
                toksv == self.toks(),
                toksv == old(self).toks(),
                p0 == spec_skip_newlines(toksv, old(self).pos as int),
                0 <= p0 <= self.pos as int,
                spec_parse_design_loop(toksv, p0) == parsed_state(
                    schematics.deep_view(),
                    spec_parse_design_loop(toksv, self.pos as int),
                ),
            decreases self.tokens.len() - self.pos,
        {
            let ghost p = self.pos as int;
            proof {
                lemma_parse_schematic_bounds(toksv, p);
            }
            match self.parse_schematic() {
                Err(e) => {
                    return Err(e);
                },
                Ok(s) => {
                    let ghost prev = schematics.deep_view();
                    let ghost sv = s@;
                    schematics.push(s);
                    proof {
                        assert(schematics.deep_view() =~= prev.push(sv));
                        assert(prev.push(sv) =~= prev + seq![sv]);
                        assert(spec_parse_design_loop(toksv, p) == parsed_state(
                            seq![sv],
                            spec_parse_design_loop(toksv, self.pos as int),
                        ));
                        lemma_parsed_state_assoc(
                            prev,
                            seq![sv],
                            spec_parse_design_loop(toksv, self.pos as int),
                        );
                    }
                },
            }
        }
        if self.pos < self.tokens.len() {
            let found = Some(self.tokens[self.pos].clone());
            let line = self.current_line();
            return Err(
                ParseError {
                    kind: ParseErrorKind::ExpectedToken { expected: Token::Define, found },
                    line,
                },
            );
        }
        proof {
            assert(spec_parse_design_loop(toksv, self.pos as int) == Ok::<
                (Seq<SchematicV>, int),
                ParseErrV,
            >((Seq::empty(), self.pos as int)));
            assert(schematics.deep_view() + Seq::<SchematicV>::empty() =~= schematics.deep_view());
        }
        Ok(Design::new(schematics))
    }
}

} // verus!
