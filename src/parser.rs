//! The tree builder: turns the tokens of a pattern into an expression tree.
//!
//! The grammar, loosest binding first:
//! a pattern is branches separated by `|`; a branch is a run of items, or
//! nothing; an item is a literal, `.` or a parenthesised pattern, followed by
//! at most one of `?`, `*`, `+`.
use vstd::prelude::*;
use crate::scanner::{scan, tokenize, SyntaxError, SyntaxErrorKind, Token, TokenType};
use crate::syntax::{
    lemma_all_well_formed, lemma_models_index, model, models, well_formed, Expr, Quantifier, Regex,
};

verus! {

/// The quantifier that a token stands for, if it stands for one.
pub open spec fn quantifier_of(tt: TokenType) -> Option<Quantifier> {
    match tt {
        TokenType::Mark => Some(Quantifier::ZeroOrOne),
        TokenType::Star => Some(Quantifier::ZeroOrMore),
        TokenType::Plus => Some(Quantifier::OneOrMore),
        _ => None,
    }
}

/// The quantifier that follows an atom ending before `k`, and the offset after it.
pub open spec fn quantifier_at(ts: Seq<Token>, k: nat) -> (Quantifier, nat) {
    if k < ts.len() && quantifier_of(ts[k as int].token_type) is Some {
        (quantifier_of(ts[k as int].token_type)->0, k + 1)
    } else {
        (Quantifier::Single, k)
    }
}

/// A branch made of `items`.
pub open spec fn branch_of(items: Seq<Regex>) -> Regex {
    if items.len() == 0 {
        Regex::Empty
    } else if items.len() == 1 {
        items[0]
    } else {
        Regex::Cat(items)
    }
}

/// A pattern made of the branches `bs`.
pub open spec fn alternation_of(bs: Seq<Regex>) -> Regex {
    if bs.len() == 1 {
        bs[0]
    } else {
        Regex::Alt(bs)
    }
}

/// The branches from token `i` on, after the branches `bs` already read:
/// the tree, and the offset of the first token not read.
pub open spec fn alt_from(ts: Seq<Token>, i: nat, bs: Seq<Regex>) -> Result<(Regex, nat), SyntaxError>
    decreases ts.len() - i, 2nat,
{
    match branch_from(ts, i, Seq::empty()) {
        Err(e) => Err(e),
        Ok((b, j)) => if i <= j < ts.len() && ts[j as int].token_type == TokenType::Pipe {
            alt_from(ts, j + 1, bs.push(b))
        } else {
            Ok((alternation_of(bs.push(b)), j))
        },
    }
}

/// The items of a branch from token `i` on, after the items `items` already read.
pub open spec fn branch_from(ts: Seq<Token>, i: nat, items: Seq<Regex>) -> Result<(Regex, nat), SyntaxError>
    decreases ts.len() - i, 1nat,
{
    if i < ts.len() && ts[i as int].token_type != TokenType::Pipe && ts[i as int].token_type
        != TokenType::RightParen {
        match item_at(ts, i) {
            Err(e) => Err(e),
            Ok((it, j)) => if i < j && j <= ts.len() {
                branch_from(ts, j, items.push(it))
            } else {
                Ok((branch_of(items.push(it)), j))
            },
        }
    } else {
        Ok((branch_of(items), i))
    }
}

/// The item that begins at token `i`, with its quantifier.
pub open spec fn item_at(ts: Seq<Token>, i: nat) -> Result<(Regex, nat), SyntaxError>
    decreases ts.len() - i, 0nat,
{
    if i >= ts.len() {
        Ok((Regex::Empty, i))
    } else {
        let tok = ts[i as int];
        match tok.token_type {
            TokenType::Character { value } => {
                let (q, k) = quantifier_at(ts, i + 1);
                Ok((Regex::Char(Some(value), q), k))
            },
            TokenType::Dot => {
                let (q, k) = quantifier_at(ts, i + 1);
                Ok((Regex::Char(None, q), k))
            },
            TokenType::LeftParen => match alt_from(ts, i + 1, Seq::empty()) {
                Err(e) => Err(e),
                Ok((inner, j)) => if i + 1 <= j < ts.len() && ts[j as int].token_type
                    == TokenType::RightParen {
                    let (q, k) = quantifier_at(ts, j + 1);
                    Ok((Regex::Group(Box::new(inner), q), k))
                } else {
                    Err(SyntaxError { kind: SyntaxErrorKind::UnbalancedOpen, position: tok.position })
                },
            },
            _ => Err(SyntaxError { kind: SyntaxErrorKind::NothingToRepeat, position: tok.position }),
        }
    }
}

/// The tree of the pattern `p`, or what is wrong with `p`.
pub open spec fn parse_spec(p: Seq<char>) -> Result<Regex, SyntaxError> {
    match scan(p) {
        Err(e) => Err(e),
        Ok(ts) => match alt_from(ts, 0, Seq::empty()) {
            Err(e) => Err(e),
            Ok((r, j)) => if j >= ts.len() {
                Ok(r)
            } else {
                Err(SyntaxError { kind: SyntaxErrorKind::UnbalancedClose, position: ts[j as int].position })
            },
        },
    }
}

/// Whether all of `rs` are well formed.
pub open spec fn all_formed(rs: Seq<Regex>) -> bool {
    forall|k: int| 0 <= k < rs.len() ==> well_formed(#[trigger] rs[k])
}

proof fn lemma_all_formed_push(rs: Seq<Regex>, r: Regex)
    requires
        all_formed(rs),
        well_formed(r),
    ensures
        all_formed(rs.push(r)),
{
    assert forall|k: int| 0 <= k < rs.push(r).len() implies well_formed(#[trigger] rs.push(r)[k]) by {
        if k < rs.len() {
            assert(rs.push(r)[k] == rs[k]);
        }
    }
}

pub proof fn lemma_alt_from_formed(ts: Seq<Token>, i: nat, bs: Seq<Regex>)
    requires
        all_formed(bs),
    ensures
        alt_from(ts, i, bs) matches Ok((r, _)) ==> well_formed(r),
    decreases ts.len() - i, 2nat,
{
    lemma_branch_from_formed(ts, i, Seq::empty());
    if let Ok((b, j)) = branch_from(ts, i, Seq::empty()) {
        lemma_all_formed_push(bs, b);
        if i <= j < ts.len() && ts[j as int].token_type == TokenType::Pipe {
            lemma_alt_from_formed(ts, j + 1, bs.push(b));
        } else {
            lemma_all_well_formed(bs.push(b), 0);
        }
    }
}

pub proof fn lemma_branch_from_formed(ts: Seq<Token>, i: nat, items: Seq<Regex>)
    requires
        all_formed(items),
    ensures
        branch_from(ts, i, items) matches Ok((r, _)) ==> well_formed(r),
    decreases ts.len() - i, 1nat,
{
    if i < ts.len() && ts[i as int].token_type != TokenType::Pipe && ts[i as int].token_type
        != TokenType::RightParen {
        lemma_item_at_formed(ts, i);
        if let Ok((it, j)) = item_at(ts, i) {
            lemma_all_formed_push(items, it);
            if i < j && j <= ts.len() {
                lemma_branch_from_formed(ts, j, items.push(it));
            } else {
                lemma_all_well_formed(items.push(it), 0);
            }
        }
    } else {
        lemma_all_well_formed(items, 0);
    }
}

pub proof fn lemma_item_at_formed(ts: Seq<Token>, i: nat)
    ensures
        item_at(ts, i) matches Ok((r, _)) ==> well_formed(r),
    decreases ts.len() - i, 0nat,
{
    if i < ts.len() && ts[i as int].token_type == TokenType::LeftParen {
        lemma_alt_from_formed(ts, i + 1, Seq::empty());
    }
}

/// Every tree that a pattern compiles to is well formed.
pub proof fn lemma_parse_formed(p: Seq<char>)
    ensures
        parse_spec(p) matches Ok(r) ==> well_formed(r),
{
    if let Ok(ts) = scan(p) {
        lemma_alt_from_formed(ts, 0, Seq::empty());
    }
}

/// A parse result with its tree as a model.
pub open spec fn read_as(r: Result<(Expr, usize), SyntaxError>) -> Result<(Regex, nat), SyntaxError> {
    match r {
        Ok((e, j)) => Ok((e@, j as nat)),
        Err(err) => Err(err),
    }
}

proof fn lemma_models_push(s: Seq<Expr>, x: Expr)
    ensures
        models(s.push(x)) == models(s).push(model(x)),
{
    assert(s.push(x).drop_last() =~= s);
}

fn quantifier_exec(ts: &Vec<Token>, k: usize) -> (r: (Quantifier, usize))
    requires
        k <= ts.len(),
    ensures
        (r.0, r.1 as nat) == quantifier_at(ts@, k as nat),
{
    if k < ts.len() {
        match ts[k].token_type {
            TokenType::Mark => return (Quantifier::ZeroOrOne, k + 1),
            TokenType::Star => return (Quantifier::ZeroOrMore, k + 1),
            TokenType::Plus => return (Quantifier::OneOrMore, k + 1),
            _ => {},
        }
    }
    (Quantifier::Single, k)
}

fn branch_exec(mut items: Vec<Expr>) -> (r: Expr)
    ensures
        r@ == branch_of(models(items@)),
{
    proof {
        lemma_models_index(items@);
    }
    if items.len() == 0 {
        Expr::Empty
    } else if items.len() == 1 {
        let ghost first = items@[0];
        match items.pop() {
            Some(e) => e,
            None => Expr::Empty,
        }
    } else {
        Expr::Concatenation { children: items }
    }
}

fn alternation_exec(mut bs: Vec<Expr>) -> (r: Expr)
    requires
        bs.len() >= 1,
    ensures
        r@ == alternation_of(models(bs@)),
{
    proof {
        lemma_models_index(bs@);
    }
    if bs.len() == 1 {
        match bs.pop() {
            Some(e) => e,
            None => Expr::Empty,
        }
    } else {
        Expr::Alternation { children: bs }
    }
}

fn parse_alt(ts: &Vec<Token>, i: usize) -> (r: Result<(Expr, usize), SyntaxError>)
    requires
        i <= ts.len() < usize::MAX,
    ensures
        read_as(r) == alt_from(ts@, i as nat, Seq::empty()),
        r matches Ok((_, j)) ==> i <= j <= ts.len(),
    decreases ts.len() - i, 2nat,
{
    let mut bs: Vec<Expr> = Vec::new();
    let mut cur = i;
    proof {
        assert(models(bs@) =~= Seq::<Regex>::empty());
    }
    loop
        invariant
            i <= cur <= ts.len() < usize::MAX,
            alt_from(ts@, cur as nat, models(bs@)) == alt_from(ts@, i as nat, Seq::empty()),
        decreases ts.len() - cur,
    {
        match parse_branch(ts, cur) {
            Err(e) => return Err(e),
            Ok((b, j)) => {
                proof {
                    lemma_models_push(bs@, b);
                }
                bs.push(b);
                if j < ts.len() && ts[j].token_type == TokenType::Pipe {
                    cur = j + 1;
                } else {
                    return Ok((alternation_exec(bs), j));
                }
            },
        }
    }
}

fn parse_branch(ts: &Vec<Token>, i: usize) -> (r: Result<(Expr, usize), SyntaxError>)
    requires
        i <= ts.len() < usize::MAX,
    ensures
        read_as(r) == branch_from(ts@, i as nat, Seq::empty()),
        r matches Ok((_, j)) ==> i <= j <= ts.len(),
    decreases ts.len() - i, 1nat,
{
    let mut items: Vec<Expr> = Vec::new();
    let mut cur = i;
    proof {
        assert(models(items@) =~= Seq::<Regex>::empty());
    }
    loop
        invariant
            i <= cur <= ts.len() < usize::MAX,
            branch_from(ts@, cur as nat, models(items@)) == branch_from(ts@, i as nat, Seq::empty()),
        decreases ts.len() - cur,
    {
        if cur < ts.len() && ts[cur].token_type != TokenType::Pipe && ts[cur].token_type
            != TokenType::RightParen {
            match parse_item(ts, cur) {
                Err(e) => return Err(e),
                Ok((it, j)) => {
                    proof {
                        lemma_models_push(items@, it);
                    }
                    items.push(it);
                    cur = j;
                },
            }
        } else {
            return Ok((branch_exec(items), cur));
        }
    }
}

fn parse_item(ts: &Vec<Token>, i: usize) -> (r: Result<(Expr, usize), SyntaxError>)
    requires
        i < ts.len() < usize::MAX,
    ensures
        read_as(r) == item_at(ts@, i as nat),
        r matches Ok((_, j)) ==> i < j <= ts.len(),
    decreases ts.len() - i, 0nat,
{
    let tok = ts[i];
    match tok.token_type {
        TokenType::Character { value } => {
            let (q, k) = quantifier_exec(ts, i + 1);
            Ok((Expr::Character { value: Some(value), quantifier: q }, k))
        },
        TokenType::Dot => {
            let (q, k) = quantifier_exec(ts, i + 1);
            Ok((Expr::Character { value: None, quantifier: q }, k))
        },
        TokenType::LeftParen => match parse_alt(ts, i + 1) {
            Err(e) => Err(e),
            Ok((inner, j)) => {
                if j < ts.len() && ts[j].token_type == TokenType::RightParen {
                    let (q, k) = quantifier_exec(ts, j + 1);
                    Ok((Expr::Group { child: Box::new(inner), quantifier: q }, k))
                } else {
                    Err(SyntaxError { kind: SyntaxErrorKind::UnbalancedOpen, position: tok.position })
                }
            },
        },
        _ => Err(SyntaxError { kind: SyntaxErrorKind::NothingToRepeat, position: tok.position }),
    }
}

/// Compiles `pattern` into an expression tree.
pub fn parse(pattern: &str) -> (r: Result<Expr, SyntaxError>)
    ensures
        match r {
            Ok(e) => parse_spec(pattern@) == Ok::<Regex, SyntaxError>(e@) && well_formed(e@),
            Err(err) => parse_spec(pattern@) == Err::<Regex, SyntaxError>(err),
        },
{
    proof {
        lemma_parse_formed(pattern@);
    }
    let ts = match tokenize(pattern) {
        Ok(ts) => ts,
        Err(e) => return Err(e),
    };
    match parse_alt(&ts, 0) {
        Err(e) => Err(e),
        Ok((e, j)) => {
            if j >= ts.len() {
                Ok(e)
            } else {
                Err(SyntaxError { kind: SyntaxErrorKind::UnbalancedClose, position: ts[j].position })
            }
        },
    }
}

} // verus!
