//! The tokenizer: splits pattern text into tokens and checks that its
//! parentheses balance.
use vstd::prelude::*;
use crate::text::{chars_of, push_range, string_of};

verus! {

/// The kind of a token.
#[derive(Clone, Copy, Debug, PartialEq, Eq, Structural)]
pub enum TokenType {
    /// A literal character: an ordinary one, or an escaped metacharacter.
    Character { value: char },
    /// `(`
    LeftParen,
    /// `)`
    RightParen,
    /// `|`, alternation
    Pipe,
    /// `?`, zero or one
    Mark,
    /// `*`, zero or more
    Star,
    /// `+`, one or more
    Plus,
    /// `.`, any single character
    Dot,
}

/// A token and the offset in the pattern at which it begins.
#[derive(Clone, Copy, Debug, PartialEq, Eq, Structural)]
pub struct Token {
    pub token_type: TokenType,
    pub position: usize,
}

/// What is wrong with a malformed pattern.
#[derive(Clone, Copy, Debug, PartialEq, Eq, Structural)]
pub enum SyntaxErrorKind {
    /// A `(` that is never closed.
    UnbalancedOpen,
    /// A `)` that closes nothing.
    UnbalancedClose,
    /// A `\` with nothing after it.
    DanglingEscape,
    /// A quantifier with nothing before it to repeat.
    NothingToRepeat,
}

/// A malformed pattern: what is wrong, and the offset where it shows.
#[derive(Clone, Copy, Debug, PartialEq, Eq, Structural)]
pub struct SyntaxError {
    pub kind: SyntaxErrorKind,
    pub position: usize,
}

/// The kinds of balanced characters; only parentheses so far.
#[derive(Clone, Copy, Debug, PartialEq, Eq, Structural)]
pub enum GroupingTag {
    GroupParentheses,
}

/// An opening character that is not closed yet, and where it stands.
#[derive(Clone, Copy, Debug, PartialEq, Eq, Structural)]
pub struct GroupingMark {
    tag: GroupingTag,
    position: usize,
}

/// The characters with a meaning of their own in a pattern.
pub open spec fn is_meta(c: char) -> bool {
    c == '(' || c == ')' || c == '|' || c == '?' || c == '*' || c == '+' || c == '.' || c == '\\'
}

/// The token that begins at offset `i < p.len()` and the offset after it.
/// A `\` before a metacharacter makes it literal; before any other
/// character it is itself literal.
pub open spec fn lex_at(p: Seq<char>, i: nat) -> Result<(TokenType, nat), SyntaxError> {
    let c = p[i as int];
    if c == '\\' {
        if i + 1 >= p.len() {
            Err(SyntaxError { kind: SyntaxErrorKind::DanglingEscape, position: i as usize })
        } else if is_meta(p[i + 1int]) {
            Ok((TokenType::Character { value: p[i + 1int] }, i + 2))
        } else {
            Ok((TokenType::Character { value: c }, i + 1))
        }
    } else {
        let tt = if c == '(' {
            TokenType::LeftParen
        } else if c == ')' {
            TokenType::RightParen
        } else if c == '|' {
            TokenType::Pipe
        } else if c == '?' {
            TokenType::Mark
        } else if c == '*' {
            TokenType::Star
        } else if c == '+' {
            TokenType::Plus
        } else if c == '.' {
            TokenType::Dot
        } else {
            TokenType::Character { value: c }
        };
        Ok((tt, i + 1))
    }
}

/// The tokens of `p` from offset `i`, where `open` holds the offsets of the
/// parentheses opened before `i` and not closed yet.
pub open spec fn scan_from(p: Seq<char>, i: nat, open: Seq<nat>) -> Result<Seq<Token>, SyntaxError>
    decreases p.len() - i,
{
    if i >= p.len() {
        if open.len() > 0 {
            Err(SyntaxError { kind: SyntaxErrorKind::UnbalancedOpen, position: open[0] as usize })
        } else {
            Ok(Seq::empty())
        }
    } else {
        match lex_at(p, i) {
            Err(e) => Err(e),
            Ok((tt, j)) => {
                if tt == TokenType::RightParen && open.len() == 0 {
                    Err(SyntaxError { kind: SyntaxErrorKind::UnbalancedClose, position: i as usize })
                } else {
                    let still_open = if tt == TokenType::LeftParen {
                        open.push(i)
                    } else if tt == TokenType::RightParen {
                        open.drop_last()
                    } else {
                        open
                    };
                    if i < j {
                        match scan_from(p, j, still_open) {
                            Ok(rest) => Ok(seq![Token { token_type: tt, position: i as usize }] + rest),
                            Err(e) => Err(e),
                        }
                    } else {
                        Ok(Seq::empty())
                    }
                }
            },
        }
    }
}

/// The tokens of the pattern `p`.
pub open spec fn scan(p: Seq<char>) -> Result<Seq<Token>, SyntaxError> {
    scan_from(p, 0, Seq::empty())
}

/// What the scan from a point on adds to the tokens found before it.
pub open spec fn after(done: Seq<Token>, rest: Result<Seq<Token>, SyntaxError>) -> Result<Seq<Token>, SyntaxError> {
    match rest {
        Ok(ts) => Ok(done + ts),
        Err(e) => Err(e),
    }
}

/// No more tokens come out than there are characters.
pub proof fn lemma_scan_len(p: Seq<char>, i: nat, open: Seq<nat>)
    requires
        i <= p.len(),
    ensures
        scan_from(p, i, open) matches Ok(ts) ==> ts.len() <= p.len() - i,
    decreases p.len() - i,
{
    if i < p.len() {
        if let Ok((tt, j)) = lex_at(p, i) {
            let still_open = if tt == TokenType::LeftParen {
                open.push(i)
            } else if tt == TokenType::RightParen {
                open.drop_last()
            } else {
                open
            };
            if j <= p.len() {
                lemma_scan_len(p, j, still_open);
            }
        }
    }
}

/// Produces the tokens of a pattern one at a time.
pub struct Scanner {
    source: Vec<char>,
    current: usize,
    groupings: Vec<GroupingMark>,
}

impl Scanner {
    pub closed spec fn source_seq(&self) -> Seq<char> {
        self.source@
    }

    pub closed spec fn position(&self) -> nat {
        self.current as nat
    }

    /// The offsets of the parentheses opened so far and not closed yet.
    pub closed spec fn open_groups(&self) -> Seq<nat> {
        self.groupings@.map_values(|g: GroupingMark| g.position as nat)
    }

    /// What is left to scan, with what it yields.
    pub open spec fn remaining(&self) -> Result<Seq<Token>, SyntaxError> {
        scan_from(self.source_seq(), self.position(), self.open_groups())
    }

    pub closed spec fn wf(&self) -> bool {
        &&& self.current <= self.source.len()
        &&& self.source.len() <= isize::MAX
        &&& forall|k: int| 0 <= k < self.groupings.len() ==> (#[trigger] self.groupings@[k]).tag == GroupingTag::GroupParentheses
    }

    /// A scanner at the start of `source`.
    pub fn new(source: &str) -> (s: Scanner)
        ensures
            s.wf(),
            s.source_seq() == source@,
            s.position() == 0,
            s.open_groups() == Seq::<nat>::empty(),
    {
        let source = chars_of(source);
        let s = Scanner { source, current: 0, groupings: Vec::new() };
        proof {
            assert(s.open_groups() =~= Seq::<nat>::empty());
        }
        s
    }

    /// The pattern text being scanned.
    pub fn get_source_string(&self) -> (r: String)
        ensures
            r@ == self.source_seq(),
    {
        string_of(self.source.as_slice())
    }

    /// The next token, `Ok(None)` at the end of a well-formed pattern, or
    /// the error that the rest of the pattern holds.
    pub fn next(&mut self) -> (r: Result<Option<Token>, SyntaxError>)
        requires
            old(self).wf(),
        ensures
            final(self).wf(),
            final(self).source_seq() == old(self).source_seq(),
            match r {
                Ok(None) => old(self).position() >= old(self).source_seq().len() && old(self).remaining()
                    == Ok::<Seq<Token>, SyntaxError>(Seq::empty()),
                Ok(Some(tok)) => {
                    &&& old(self).position() < old(self).source_seq().len()
                    &&& tok.position == old(self).position()
                    &&& lex_at(old(self).source_seq(), old(self).position()) == Ok::<(TokenType, nat), SyntaxError>(
                        (tok.token_type, final(self).position()),
                    )
                    &&& old(self).remaining() == after(seq![tok], final(self).remaining())
                },
                Err(e) => {
                    &&& old(self).remaining() == Err::<Seq<Token>, SyntaxError>(e)
                    &&& if old(self).position() >= old(self).source_seq().len() {
                        &&& old(self).open_groups().len() > 0
                        &&& e == SyntaxError {
                            kind: SyntaxErrorKind::UnbalancedOpen,
                            position: old(self).open_groups()[0] as usize,
                        }
                    } else {
                        ||| lex_at(old(self).source_seq(), old(self).position()) == Err::<(TokenType, nat), SyntaxError>(e)
                        ||| {
                            &&& lex_at(old(self).source_seq(), old(self).position()) matches Ok((tt, _))
                            &&& tt == TokenType::RightParen
                            &&& old(self).open_groups().len() == 0
                            &&& e == SyntaxError {
                                kind: SyntaxErrorKind::UnbalancedClose,
                                position: old(self).position() as usize,
                            }
                        }
                    }
                },
            },
    {
        let i = self.current;
        if i >= self.source.len() {
            if self.groupings.len() > 0 {
                return Err(
                    SyntaxError { kind: SyntaxErrorKind::UnbalancedOpen, position: self.groupings[0].position },
                );
            }
            return Ok(None);
        }
        match lex_exec(&self.source, i) {
            Err(e) => Err(e),
            Ok((tt, j)) => {
                let ghost open = self.open_groups();
                if tt == TokenType::RightParen {
                    if self.groupings.len() == 0 {
                        return Err(SyntaxError { kind: SyntaxErrorKind::UnbalancedClose, position: i });
                    }
                    self.groupings.pop();
                    proof {
                        assert(self.open_groups() =~= open.drop_last());
                    }
                } else if tt == TokenType::LeftParen {
                    self.groupings.push(GroupingMark { tag: GroupingTag::GroupParentheses, position: i });
                    proof {
                        assert(self.open_groups() =~= open.push(i as nat));
                    }
                }
                self.current = j;
                Ok(Some(Token { token_type: tt, position: i }))
            },
        }
    }
}

/// The tokens of `pattern`, or the first error in it.
pub fn tokenize(pattern: &str) -> (r: Result<Vec<Token>, SyntaxError>)
    ensures
        match r {
            Ok(ts) => scan(pattern@) == Ok::<Seq<Token>, SyntaxError>(ts@) && ts.len() <= isize::MAX,
            Err(e) => scan(pattern@) == Err::<Seq<Token>, SyntaxError>(e),
        },
{
    let mut scanner = Scanner::new(pattern);
    let mut tokens: Vec<Token> = Vec::new();
    proof {
        assert(Seq::<Token>::empty() + scan(pattern@)->Ok_0 =~= scan(pattern@)->Ok_0);
    }
    loop
        invariant
            scanner.wf(),
            scanner.source_seq() == pattern@,
            after(tokens@, scanner.remaining()) == scan(pattern@),
        decreases scanner.source_seq().len() - scanner.position(),
    {
        let ghost before = tokens@;
        let ghost rem = scanner.remaining();
        match scanner.next() {
            Err(e) => {
                return Err(e);
            },
            Ok(None) => {
                proof {
                    assert(tokens@ + Seq::<Token>::empty() =~= tokens@);
                    lemma_scan_len(pattern@, 0, Seq::empty());
                }
                return Ok(tokens);
            },
            Ok(Some(tok)) => {
                tokens.push(tok);
                proof {
                    match scanner.remaining() {
                        Ok(ts) => {
                            assert(before + (seq![tok] + ts) =~= tokens@ + ts);
                        },
                        Err(_) => {},
                    }
                }
            },
        }
    }
}

pub(crate) fn is_meta_exec(c: char) -> (r: bool)
    ensures
        r == is_meta(c),
{
    c == '(' || c == ')' || c == '|' || c == '?' || c == '*' || c == '+' || c == '.' || c == '\\'
}

fn lex_exec(p: &Vec<char>, i: usize) -> (r: Result<(TokenType, usize), SyntaxError>)
    requires
        i < p.len() < usize::MAX,
    ensures
        match r {
            Ok((tt, j)) => lex_at(p@, i as nat) == Ok::<(TokenType, nat), SyntaxError>((tt, j as nat)),
            Err(e) => lex_at(p@, i as nat) == Err::<(TokenType, nat), SyntaxError>(e),
        },
{
    let c = p[i];
    if c == '\\' {
        if i + 1 >= p.len() {
            Err(SyntaxError { kind: SyntaxErrorKind::DanglingEscape, position: i })
        } else if is_meta_exec(p[i + 1]) {
            Ok((TokenType::Character { value: p[i + 1] }, i + 2))
        } else {
            Ok((TokenType::Character { value: c }, i + 1))
        }
    } else {
        let tt = if c == '(' {
            TokenType::LeftParen
        } else if c == ')' {
            TokenType::RightParen
        } else if c == '|' {
            TokenType::Pipe
        } else if c == '?' {
            TokenType::Mark
        } else if c == '*' {
            TokenType::Star
        } else if c == '+' {
            TokenType::Plus
        } else if c == '.' {
            TokenType::Dot
        } else {
            TokenType::Character { value: c }
        };
        Ok((tt, i + 1))
    }
}

/// What a kind of error is called in messages.
pub open spec fn describe(kind: SyntaxErrorKind) -> Seq<char> {
    match kind {
        SyntaxErrorKind::UnbalancedOpen => "unbalanced (: it is never closed"@,
        SyntaxErrorKind::UnbalancedClose => "unbalanced ): it closes nothing"@,
        SyntaxErrorKind::DanglingEscape => "dangling escape: nothing follows the backslash"@,
        SyntaxErrorKind::NothingToRepeat => "nothing to repeat before the quantifier"@,
    }
}

/// The message for `e` in the pattern `p`: what is wrong, then the pattern,
/// then a caret under the offending offset.
pub open spec fn error_text(e: SyntaxError, p: Seq<char>) -> Seq<char> {
    describe(e.kind) + seq!['\n'] + p + seq!['\n'] + Seq::new(e.position as nat, |i: int| ' ') + seq!['^']
}

impl SyntaxError {
    /// The message for this error in `pattern`, with a caret under the offset.
    pub fn message(&self, pattern: &str) -> (r: String)
        ensures
            r@ == error_text(*self, pattern@),
    {
        let mut out = match self.kind {
            SyntaxErrorKind::UnbalancedOpen => chars_of("unbalanced (: it is never closed"),
            SyntaxErrorKind::UnbalancedClose => chars_of("unbalanced ): it closes nothing"),
            SyntaxErrorKind::DanglingEscape => chars_of("dangling escape: nothing follows the backslash"),
            SyntaxErrorKind::NothingToRepeat => chars_of("nothing to repeat before the quantifier"),
        };
        out.push('\n');
        let source = chars_of(pattern);
        push_range(&mut out, &source, 0, source.len());
        out.push('\n');
        let ghost head = out@;
        let mut k: usize = 0;
        while k < self.position
            invariant
                k <= self.position,
                out@ == head + Seq::new(k as nat, |i: int| ' '),
            decreases self.position - k,
        {
            out.push(' ');
            k += 1;
            proof {
                assert(out@ =~= head + Seq::new(k as nat, |i: int| ' '));
            }
        }
        out.push('^');
        proof {
            assert(source@.subrange(0, source.len() as int) == pattern@);
            assert(out@ =~= error_text(*self, pattern@));
        }
        string_of(out.as_slice())
    }
}

} // verus!
