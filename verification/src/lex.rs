//! The tokenizer: a single-pass scanner that classifies characters pulled
//! from a [`Cursor`] into tokens, each carrying the span of input it
//! occupies.
//!
//! The behaviour of one scanning step is captured by the specification
//! function [`spec_step`]: it says, for an input sequence and a start
//! offset, exactly which token or error the next pull produces and where
//! scanning resumes. Every executable method is proved against it.
use crate::input::{line_col_of, Cursor, LineCol, Pos, Span};
use vstd::prelude::*;
use vstd::string::StringExecFns;

verus! {

/// A lexical error. Both variants carry the one-based line and column of
/// the offending input.
#[derive(Debug, Clone)]
pub enum Error {
    /// A character that belongs to no recognized class, with its position.
    InvalidChar(LineCol, char),
    /// A digit/dot run that is not a well-formed number (no digit at all,
    /// or more than one dot), with its position and raw text.
    InvalidNum(LineCol, String),
}

/// Ghost shape of an [`Error`]: positions as mathematical pairs, text as a
/// character sequence.
pub enum ErrorModel {
    InvalidChar((nat, nat), char),
    InvalidNum((nat, nat), Seq<char>),
}

impl View for Error {
    type V = ErrorModel;

    open spec fn view(&self) -> ErrorModel {
        match self {
            Error::InvalidChar(lc, c) => ErrorModel::InvalidChar(
                (lc.line as nat, lc.col as nat),
                *c,
            ),
            Error::InvalidNum(lc, text) => ErrorModel::InvalidNum(
                (lc.line as nat, lc.col as nat),
                text@,
            ),
        }
    }
}

/// One classified stretch of input.
#[derive(Debug, Clone, PartialEq)]
pub struct Token {
    pub kind: TokenKind,
    pub span: Span,
}

/// The closed set of token classes. `Num` carries the raw digit/dot text of
/// the literal; turning it into a machine number is the consumer's concern.
#[derive(Debug, Clone, PartialEq)]
pub enum TokenKind {
    Num(String),
    Symbol(String),
    OpenPar,
    ClosePar,
    Equal,
    Plus,
    Minus,
    Star,
    Slash,
    Percent,
    Comma,
    NewLine,
    Space,
    Comment(String),
}

/// Ghost shape of a [`TokenKind`]: the carried text as a character sequence.
pub enum KindModel {
    Num(Seq<char>),
    Symbol(Seq<char>),
    OpenPar,
    ClosePar,
    Equal,
    Plus,
    Minus,
    Star,
    Slash,
    Percent,
    Comma,
    NewLine,
    Space,
    Comment(Seq<char>),
}

impl View for TokenKind {
    type V = KindModel;

    open spec fn view(&self) -> KindModel {
        match self {
            TokenKind::Num(text) => KindModel::Num(text@),
            TokenKind::Symbol(text) => KindModel::Symbol(text@),
            TokenKind::OpenPar => KindModel::OpenPar,
            TokenKind::ClosePar => KindModel::ClosePar,
            TokenKind::Equal => KindModel::Equal,
            TokenKind::Plus => KindModel::Plus,
            TokenKind::Minus => KindModel::Minus,
            TokenKind::Star => KindModel::Star,
            TokenKind::Slash => KindModel::Slash,
            TokenKind::Percent => KindModel::Percent,
            TokenKind::Comma => KindModel::Comma,
            TokenKind::NewLine => KindModel::NewLine,
            TokenKind::Space => KindModel::Space,
            TokenKind::Comment(text) => KindModel::Comment(text@),
        }
    }
}

/// An ASCII decimal digit.
pub open spec fn is_digit_char(c: char) -> bool {
    '0' <= c && c <= '9'
}

/// A character that may appear in a numeric run: a digit or a dot.
pub open spec fn is_num_char(c: char) -> bool {
    is_digit_char(c) || c == '.'
}

/// A character that may start a symbol: an ASCII letter or underscore.
pub open spec fn is_sym_start_char(c: char) -> bool {
    ('a' <= c && c <= 'z') || ('A' <= c && c <= 'Z') || c == '_'
}

/// A character that may continue a symbol.
pub open spec fn is_sym_char(c: char) -> bool {
    is_sym_start_char(c) || is_digit_char(c)
}

/// ASCII whitespace other than newline, which is its own token.
pub open spec fn is_space_char(c: char) -> bool {
    c == ' ' || c == '\t' || c == '\r' || c == '\u{0c}'
}

/// A character mapped to a one-character token.
pub open spec fn is_single_char(c: char) -> bool {
    c == '(' || c == ')' || c == '=' || c == '+' || c == '-' || c == '*' || c == '/' || c == '%'
        || c == ',' || c == '\n'
}

/// A character that belongs to some recognized lexical class.
pub open spec fn is_recognized_char(c: char) -> bool {
    is_single_char(c) || c == '#' || is_num_char(c) || is_sym_start_char(c) || is_space_char(c)
}

/// The multi-character run classes the scanner consumes greedily.
pub enum RunClass {
    Num,
    Sym,
    Space,
    Comment,
}

/// Whether `c` continues a run of class `k`.
pub open spec fn class_holds(k: RunClass, c: char) -> bool {
    match k {
        RunClass::Num => is_num_char(c),
        RunClass::Sym => is_sym_char(c),
        RunClass::Space => is_space_char(c),
        RunClass::Comment => c != '\n',
    }
}

/// The first offset at or after `i` whose character does not continue a run
/// of class `k`; the run `[i, run_end)` is maximal.
pub open spec fn run_end(s: Seq<char>, i: nat, k: RunClass) -> nat
    decreases s.len() - i,
{
    if i >= s.len() {
        i
    } else if class_holds(k, s[i as int]) {
        run_end(s, (i + 1) as nat, k)
    } else {
        i
    }
}

pub proof fn lemma_run_end(s: Seq<char>, i: nat, k: RunClass)
    requires
        i <= s.len(),
    ensures
        i <= run_end(s, i, k) <= s.len(),
        forall|j: int| i <= j < run_end(s, i, k) ==> class_holds(k, s[j]),
        run_end(s, i, k) < s.len() ==> !class_holds(k, s[run_end(s, i, k) as int]),
    decreases s.len() - i,
{
    if i < s.len() && class_holds(k, s[i as int]) {
        lemma_run_end(s, (i + 1) as nat, k);
    }
}

/// How many characters of `s` are dots.
pub open spec fn dot_count(s: Seq<char>) -> nat
    decreases s.len(),
{
    if s.len() == 0 {
        0
    } else {
        dot_count(s.drop_last()) + (if s.last() == '.' {
            1 as nat
        } else {
            0 as nat
        })
    }
}

/// How many characters of `s` are digits.
pub open spec fn digit_count(s: Seq<char>) -> nat
    decreases s.len(),
{
    if s.len() == 0 {
        0
    } else {
        digit_count(s.drop_last()) + (if is_digit_char(s.last()) {
            1 as nat
        } else {
            0 as nat
        })
    }
}

/// A digit/dot run that parses as a non-negative decimal number: at least
/// one digit, at most one dot.
pub open spec fn valid_num_text(s: Seq<char>) -> bool {
    digit_count(s) >= 1 && dot_count(s) <= 1
}

pub proof fn lemma_dot_count_snoc(t: Seq<char>, c: char)
    ensures
        dot_count(t + seq![c]) == dot_count(t) + (if c == '.' {
            1 as nat
        } else {
            0 as nat
        }),
{
    assert((t + seq![c]).drop_last() =~= t);
    assert((t + seq![c]).last() == c);
}

pub proof fn lemma_digit_count_snoc(t: Seq<char>, c: char)
    ensures
        digit_count(t + seq![c]) == digit_count(t) + (if is_digit_char(c) {
            1 as nat
        } else {
            0 as nat
        }),
{
    assert((t + seq![c]).drop_last() =~= t);
    assert((t + seq![c]).last() == c);
}

/// What one scanning step yields: the end of the input, a token with its
/// half-open extent, or an error with the extent the failed step consumed.
pub enum LexStep {
    End,
    Tok(KindModel, nat, nat),
    Fail(ErrorModel, nat, nat),
}

/// The next token or error of `s` at offset `i`, and where scanning
/// resumes. Single characters map to fixed kinds; `#` opens a comment
/// running to the next newline, exclusive; a digit or dot opens a numeric
/// run, invalid runs failing with `InvalidNum` at the run's start; a letter
/// or underscore opens a symbol; whitespace other than newline collapses
/// into one `Space`; anything else fails with `InvalidChar`.
pub open spec fn spec_step(s: Seq<char>, i: nat) -> LexStep {
    if i >= s.len() {
        LexStep::End
    } else {
        let c = s[i as int];
        if c == '(' {
            LexStep::Tok(KindModel::OpenPar, i, (i + 1) as nat)
        } else if c == ')' {
            LexStep::Tok(KindModel::ClosePar, i, (i + 1) as nat)
        } else if c == '=' {
            LexStep::Tok(KindModel::Equal, i, (i + 1) as nat)
        } else if c == '+' {
            LexStep::Tok(KindModel::Plus, i, (i + 1) as nat)
        } else if c == '-' {
            LexStep::Tok(KindModel::Minus, i, (i + 1) as nat)
        } else if c == '*' {
            LexStep::Tok(KindModel::Star, i, (i + 1) as nat)
        } else if c == '/' {
            LexStep::Tok(KindModel::Slash, i, (i + 1) as nat)
        } else if c == '%' {
            LexStep::Tok(KindModel::Percent, i, (i + 1) as nat)
        } else if c == ',' {
            LexStep::Tok(KindModel::Comma, i, (i + 1) as nat)
        } else if c == '\n' {
            LexStep::Tok(KindModel::NewLine, i, (i + 1) as nat)
        } else if c == '#' {
            let e = run_end(s, (i + 1) as nat, RunClass::Comment);
            LexStep::Tok(KindModel::Comment(s.subrange(i + 1 as int, e as int)), i, e)
        } else if is_num_char(c) {
            let e = run_end(s, (i + 1) as nat, RunClass::Num);
            let text = s.subrange(i as int, e as int);
            if valid_num_text(text) {
                LexStep::Tok(KindModel::Num(text), i, e)
            } else {
                LexStep::Fail(ErrorModel::InvalidNum(line_col_of(s, i as int), text), i, e)
            }
        } else if is_sym_start_char(c) {
            let e = run_end(s, (i + 1) as nat, RunClass::Sym);
            LexStep::Tok(KindModel::Symbol(s.subrange(i as int, e as int)), i, e)
        } else if is_space_char(c) {
            let e = run_end(s, (i + 1) as nat, RunClass::Space);
            LexStep::Tok(KindModel::Space, i, e)
        } else {
            LexStep::Fail(
                ErrorModel::InvalidChar(line_col_of(s, i as int), c),
                i,
                (i + 1) as nat,
            )
        }
    }
}

/// Whatever one scanning step consumes lies strictly between its start and
/// the end of the input; the input ends exactly when a step yields `End`.
pub proof fn lemma_step_bounds(s: Seq<char>, i: nat)
    ensures
        (spec_step(s, i) matches LexStep::Tok(k, st, en) ==> st == i && i < en <= s.len()),
        (spec_step(s, i) matches LexStep::Fail(e, st, en) ==> st == i && i < en <= s.len()),
        spec_step(s, i) is End <==> i >= s.len(),
{
    if i < s.len() {
        lemma_run_end(s, (i + 1) as nat, RunClass::Comment);
        lemma_run_end(s, (i + 1) as nat, RunClass::Num);
        lemma_run_end(s, (i + 1) as nat, RunClass::Sym);
        lemma_run_end(s, (i + 1) as nat, RunClass::Space);
    }
}

/// The character standing for the decimal digit `d`.
pub open spec fn digit_char_of(d: nat) -> char {
    if d == 0 {
        '0'
    } else if d == 1 {
        '1'
    } else if d == 2 {
        '2'
    } else if d == 3 {
        '3'
    } else if d == 4 {
        '4'
    } else if d == 5 {
        '5'
    } else if d == 6 {
        '6'
    } else if d == 7 {
        '7'
    } else if d == 8 {
        '8'
    } else {
        '9'
    }
}

/// The decimal rendering of `n`, most significant digit first.
pub open spec fn dec_chars_of(n: nat) -> Seq<char>
    decreases n,
{
    if n < 10 {
        seq![digit_char_of(n)]
    } else {
        dec_chars_of(n / 10) + seq![digit_char_of(n % 10)]
    }
}

/// The diagnostic line rendered for `e`: its description followed by
/// `at <line>:<col>`.
pub open spec fn message_of(e: ErrorModel) -> Seq<char> {
    match e {
        ErrorModel::InvalidChar(lc, c) => "Invalid character '"@ + seq![c] + "' at "@
            + dec_chars_of(lc.0) + ":"@ + dec_chars_of(lc.1),
        ErrorModel::InvalidNum(lc, text) => "Invalid number '"@ + text + "' at "@
            + dec_chars_of(lc.0) + ":"@ + dec_chars_of(lc.1),
    }
}

fn digit_char(d: usize) -> (r: char)
    requires
        d < 10,
    ensures
        r == digit_char_of(d as nat),
{
    if d == 0 {
        '0'
    } else if d == 1 {
        '1'
    } else if d == 2 {
        '2'
    } else if d == 3 {
        '3'
    } else if d == 4 {
        '4'
    } else if d == 5 {
        '5'
    } else if d == 6 {
        '6'
    } else if d == 7 {
        '7'
    } else if d == 8 {
        '8'
    } else {
        '9'
    }
}

/// Appends the decimal rendering of `n` to `out`.
fn push_dec(out: &mut String, n: usize)
    ensures
        final(out)@ == old(out)@ + dec_chars_of(n as nat),
    decreases n,
{
    if n >= 10 {
        push_dec(out, n / 10);
        let d = digit_char(n % 10);
        push_char(out, d);
        proof {
            assert(old(out)@ + dec_chars_of((n / 10) as nat) + seq![digit_char_of((n % 10) as nat)]
                =~= old(out)@ + dec_chars_of(n as nat));
        }
    } else {
        let d = digit_char(n);
        push_char(out, d);
    }
}

impl Error {
    /// Renders the diagnostic as `<description> at <line>:<col>`, with
    /// one-based line and column.
    pub fn message(&self) -> (r: String)
        ensures
            r@ == message_of(self@),
    {
        let mut out = String::new();
        match self {
            Error::InvalidChar(lc, c) => {
                out.append("Invalid character '");
                push_char(&mut out, *c);
                out.append("' at ");
                push_dec(&mut out, lc.line);
                out.append(":");
                push_dec(&mut out, lc.col);
            },
            Error::InvalidNum(lc, text) => {
                out.append("Invalid number '");
                out.append(text.as_str());
                out.append("' at ");
                push_dec(&mut out, lc.line);
                out.append(":");
                push_dec(&mut out, lc.col);
            },
        }
        proof {
            assert(out@ =~= message_of(self@));
        }
        out
    }
}

/// Relies on `String::push`: it appends exactly the one character to the
/// end of the string.
#[verifier::external_body]
fn push_char(s: &mut String, c: char)
    ensures
        final(s)@ == old(s)@ + seq![c],
{
    s.push(c);
}

/// The lexical scanner: pulls characters from a cursor and yields tokens on
/// demand, one per call, until the input is exhausted.
pub struct Tokenizer {
    cursor: Cursor,
}

impl Tokenizer {
    /// The character sequence being tokenized.
    pub closed spec fn input(&self) -> Seq<char> {
        self.cursor.input()
    }

    /// The offset scanning has reached: the start of the next token.
    pub closed spec fn at(&self) -> nat {
        self.cursor.at()
    }

    pub closed spec fn wf(&self) -> bool {
        self.cursor.wf()
    }

    pub fn new(cursor: Cursor) -> (r: Tokenizer)
        ensures
            r.wf() == cursor.wf(),
            r.input() == cursor.input(),
            r.at() == cursor.at(),
    {
        Tokenizer { cursor }
    }

    /// Scans the remainder of a numeric run whose first character has been
    /// consumed, and either returns its full raw text or rejects it.
    fn parse_num(&mut self, pos: Pos, first: char) -> (r: Result<String, Error>)
        requires
            old(self).wf(),
            pos < old(self).input().len(),
            old(self).at() == pos + 1,
            old(self).input()[pos as int] == first,
            is_num_char(first),
        ensures
            final(self).wf(),
            final(self).input() == old(self).input(),
            ({
                let s = old(self).input();
                let e = run_end(s, (pos + 1) as nat, RunClass::Num);
                let text = s.subrange(pos as int, e as int);
                &&& final(self).at() == e
                &&& (valid_num_text(text) ==> (r matches Ok(t) && t@ == text))
                &&& (!valid_num_text(text) ==> (r matches Err(err) && err@
                    == ErrorModel::InvalidNum(line_col_of(s, pos as int), text)))
            }),
    {
        let ghost s = self.input();
        let mut text = String::new();
        push_char(&mut text, first);
        let mut has_digit: bool = '0' <= first && first <= '9';
        let mut seen_dot: bool = first == '.';
        let mut multi_dot: bool = false;
        proof {
            assert(text@ =~= s.subrange(pos as int, pos + 1));
            assert(text@ =~= Seq::<char>::empty() + seq![first]);
            lemma_dot_count_snoc(Seq::<char>::empty(), first);
            lemma_digit_count_snoc(Seq::<char>::empty(), first);
        }
        loop
            invariant
                self.wf(),
                self.input() == s,
                pos < s.len(),
                pos + 1 <= self.at() <= s.len(),
                run_end(s, (pos + 1) as nat, RunClass::Num) == run_end(
                    s,
                    self.at(),
                    RunClass::Num,
                ),
                text@ == s.subrange(pos as int, self.at() as int),
                has_digit == (digit_count(text@) >= 1),
                seen_dot == (dot_count(text@) >= 1),
                multi_dot == (dot_count(text@) >= 2),
            ensures
                self.wf(),
                self.input() == s,
                self.at() == run_end(s, (pos + 1) as nat, RunClass::Num),
                text@ == s.subrange(pos as int, self.at() as int),
                has_digit == (digit_count(text@) >= 1),
                multi_dot == (dot_count(text@) >= 2),
            decreases s.len() - self.at(),
        {
            let ghost j = self.at();
            let c = self.cursor.next();
            match c {
                Some(ch) => {
                    if ('0' <= ch && ch <= '9') || ch == '.' {
                        push_char(&mut text, ch);
                        proof {
                            assert(s.subrange(pos as int, j + 1 as int) =~= s.subrange(
                                pos as int,
                                j as int,
                            ) + seq![ch]);
                            lemma_dot_count_snoc(s.subrange(pos as int, j as int), ch);
                            lemma_digit_count_snoc(s.subrange(pos as int, j as int), ch);
                        }
                        if ch == '.' {
                            if seen_dot {
                                multi_dot = true;
                            } else {
                                seen_dot = true;
                            }
                        } else {
                            has_digit = true;
                        }
                    } else {
                        self.cursor.put_back(ch);
                        break;
                    }
                },
                None => {
                    break;
                },
            }
        }
        if has_digit && !multi_dot {
            Ok(text)
        } else {
            proof {
                self.cursor.lemma_wf_bounds();
            }
            let lc = self.cursor.line_col(pos);
            Err(Error::InvalidNum(lc, text))
        }
    }

    /// Classifies the next maximal stretch of input starting at `pos`, the
    /// current position: `Ok(None)` at the end of the input, otherwise the
    /// token kind or the lexical error that [`spec_step`] assigns to it.
    fn next_token_kind(&mut self, pos: Pos) -> (r: Result<Option<TokenKind>, Error>)
        requires
            old(self).wf(),
            old(self).at() == pos,
        ensures
            final(self).wf(),
            final(self).input() == old(self).input(),
            ({
                let s = old(self).input();
                match spec_step(s, pos as nat) {
                    LexStep::End => (r matches Ok(opt) && opt is None && final(self).at()
                        == pos),
                    LexStep::Tok(k, st, en) => (r matches Ok(opt) && opt matches Some(kind)
                        && kind@ == k && final(self).at() == en),
                    LexStep::Fail(e, st, en) => (r matches Err(err) && err@ == e
                        && final(self).at() == en),
                }
            }),
    {
        let ghost s = self.input();
        proof {
            self.cursor.lemma_wf_bounds();
        }
        let c = match self.cursor.next() {
            None => {
                return Ok(None);
            },
            Some(c) => c,
        };
        if c == '(' {
            return Ok(Some(TokenKind::OpenPar));
        }
        if c == ')' {
            return Ok(Some(TokenKind::ClosePar));
        }
        if c == '=' {
            return Ok(Some(TokenKind::Equal));
        }
        if c == '+' {
            return Ok(Some(TokenKind::Plus));
        }
        if c == '-' {
            return Ok(Some(TokenKind::Minus));
        }
        if c == '*' {
            return Ok(Some(TokenKind::Star));
        }
        if c == '/' {
            return Ok(Some(TokenKind::Slash));
        }
        if c == '%' {
            return Ok(Some(TokenKind::Percent));
        }
        if c == ',' {
            return Ok(Some(TokenKind::Comma));
        }
        if c == '\n' {
            return Ok(Some(TokenKind::NewLine));
        }
        if c == '#' {
            let mut text = String::new();
            proof {
                assert(text@ =~= s.subrange(pos + 1 as int, pos + 1 as int));
            }
            loop
                invariant
                    self.wf(),
                    self.input() == s,
                    pos < s.len(),
                    pos + 1 <= self.at() <= s.len(),
                    run_end(s, (pos + 1) as nat, RunClass::Comment) == run_end(
                        s,
                        self.at(),
                        RunClass::Comment,
                    ),
                    text@ == s.subrange(pos + 1 as int, self.at() as int),
                ensures
                    self.wf(),
                    self.input() == s,
                    self.at() == run_end(s, (pos + 1) as nat, RunClass::Comment),
                    text@ == s.subrange(pos + 1 as int, self.at() as int),
                decreases s.len() - self.at(),
            {
                let ghost j = self.at();
                match self.cursor.next() {
                    Some(ch) => {
                        if ch != '\n' {
                            push_char(&mut text, ch);
                            proof {
                                assert(s.subrange(pos + 1 as int, j + 1 as int)
                                    =~= s.subrange(pos + 1 as int, j as int) + seq![ch]);
                            }
                        } else {
                            self.cursor.put_back(ch);
                            break;
                        }
                    },
                    None => {
                        break;
                    },
                }
            }
            return Ok(Some(TokenKind::Comment(text)));
        }
        if ('0' <= c && c <= '9') || c == '.' {
            match self.parse_num(pos, c) {
                Ok(text) => {
                    return Ok(Some(TokenKind::Num(text)));
                },
                Err(err) => {
                    return Err(err);
                },
            }
        }
        if ('a' <= c && c <= 'z') || ('A' <= c && c <= 'Z') || c == '_' {
            let mut text = String::new();
            push_char(&mut text, c);
            proof {
                assert(text@ =~= s.subrange(pos as int, pos + 1 as int));
            }
            loop
                invariant
                    self.wf(),
                    self.input() == s,
                    pos < s.len(),
                    pos + 1 <= self.at() <= s.len(),
                    run_end(s, (pos + 1) as nat, RunClass::Sym) == run_end(
                        s,
                        self.at(),
                        RunClass::Sym,
                    ),
                    text@ == s.subrange(pos as int, self.at() as int),
                ensures
                    self.wf(),
                    self.input() == s,
                    self.at() == run_end(s, (pos + 1) as nat, RunClass::Sym),
                    text@ == s.subrange(pos as int, self.at() as int),
                decreases s.len() - self.at(),
            {
                let ghost j = self.at();
                match self.cursor.next() {
                    Some(ch) => {
                        if ('0' <= ch && ch <= '9') || ('a' <= ch && ch <= 'z') || ('A' <= ch
                            && ch <= 'Z') || ch == '_' {
                            push_char(&mut text, ch);
                            proof {
                                assert(s.subrange(pos as int, j + 1 as int) =~= s.subrange(
                                    pos as int,
                                    j as int,
                                ) + seq![ch]);
                            }
                        } else {
                            self.cursor.put_back(ch);
                            break;
                        }
                    },
                    None => {
                        break;
                    },
                }
            }
            return Ok(Some(TokenKind::Symbol(text)));
        }
        if c == ' ' || c == '\t' || c == '\r' || c == '\u{0c}' {
            loop
                invariant
                    self.wf(),
                    self.input() == s,
                    pos < s.len(),
                    pos + 1 <= self.at() <= s.len(),
                    run_end(s, (pos + 1) as nat, RunClass::Space) == run_end(
                        s,
                        self.at(),
                        RunClass::Space,
                    ),
                ensures
                    self.wf(),
                    self.input() == s,
                    self.at() == run_end(s, (pos + 1) as nat, RunClass::Space),
                decreases s.len() - self.at(),
            {
                match self.cursor.next() {
                    Some(ch) => {
                        if !(ch == ' ' || ch == '\t' || ch == '\r' || ch == '\u{0c}') {
                            self.cursor.put_back(ch);
                            break;
                        }
                    },
                    None => {
                        break;
                    },
                }
            }
            return Ok(Some(TokenKind::Space));
        }
        proof {
            self.cursor.lemma_wf_bounds();
        }
        let lc = self.cursor.line_col(pos);
        Err(Error::InvalidChar(lc, c))
    }

    /// Produces the next token of the input, or `None` once it is
    /// exhausted, or the lexical error the scanner ran into. Each token
    /// carries the half-open span of input it occupies, and scanning
    /// resumes exactly at a token's end.
    pub fn next_token(&mut self) -> (r: Option<Result<Token, Error>>)
        requires
            old(self).wf(),
        ensures
            final(self).wf(),
            final(self).input() == old(self).input(),
            ({
                let s = old(self).input();
                let i = old(self).at();
                match spec_step(s, i) {
                    LexStep::End => (r is None && final(self).at() == i),
                    LexStep::Tok(k, st, en) => (r matches Some(item) && item matches Ok(t)
                        && t.kind@ == k && t.span.start == st && t.span.end == en
                        && final(self).at() == en),
                    LexStep::Fail(e, st, en) => (r matches Some(item) && item matches Err(
                        err,
                    ) && err@ == e && final(self).at() == en),
                }
            }),
    {
        let pos = self.cursor.pos();
        let kind = match self.next_token_kind(pos) {
            Ok(Some(kind)) => kind,
            Ok(None) => {
                return None;
            },
            Err(err) => {
                return Some(Err(err));
            },
        };
        let end = self.cursor.pos();
        Some(Ok(Token { kind, span: Span { start: pos, end } }))
    }
}

} // verus!
