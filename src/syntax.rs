//! The expression tree that a pattern is compiled to, and its mathematical model.
use vstd::prelude::*;

verus! {

/// A postfix repetition operator: none, `?`, `*` or `+`.
#[derive(Clone, Copy, Debug, PartialEq, Eq, Structural)]
pub enum Quantifier {
    Single,
    ZeroOrOne,
    ZeroOrMore,
    OneOrMore,
}

/// The model of an expression tree.
pub enum Regex {
    /// Matches the empty string anywhere.
    Empty,
    /// A literal character (`Some`) or the wildcard `.` (`None`), quantified.
    Char(Option<char>, Quantifier),
    /// A parenthesised expression, quantified.
    Group(Box<Regex>, Quantifier),
    /// Alternatives tried left to right.
    Alt(Seq<Regex>),
    /// Expressions matched one after another.
    Cat(Seq<Regex>),
}

/// A node of an expression tree; a node owns its children.
#[derive(Debug)]
pub enum Expr {
    Empty,
    Character { value: Option<char>, quantifier: Quantifier },
    Group { child: Box<Expr>, quantifier: Quantifier },
    Alternation { children: Vec<Expr> },
    Concatenation { children: Vec<Expr> },
}

/// The shape of a compiled tree: every alternation and concatenation has at
/// least two children (a single child stands on its own), all well formed.
pub open spec fn well_formed(r: Regex) -> bool
    decreases r, 0nat,
{
    match r {
        Regex::Empty => true,
        Regex::Char(_, _) => true,
        Regex::Group(child, _) => well_formed(*child),
        Regex::Alt(cs) => cs.len() >= 2 && all_well_formed(cs, 0),
        Regex::Cat(cs) => cs.len() >= 2 && all_well_formed(cs, 0),
    }
}

/// Whether `cs[i..]` are all well formed.
pub open spec fn all_well_formed(cs: Seq<Regex>, i: nat) -> bool
    decreases cs, cs.len() - i,
{
    i >= cs.len() || (well_formed(cs[i as int]) && all_well_formed(cs, i + 1))
}

pub proof fn lemma_all_well_formed(cs: Seq<Regex>, i: nat)
    requires
        forall|k: int| 0 <= k < cs.len() ==> well_formed(#[trigger] cs[k]),
    ensures
        all_well_formed(cs, i),
    decreases cs.len() - i,
{
    if i < cs.len() {
        lemma_all_well_formed(cs, i + 1);
    }
}

/// The model of a tree.
pub open spec fn model(e: Expr) -> Regex
    decreases e,
{
    match e {
        Expr::Empty => Regex::Empty,
        Expr::Character { value, quantifier } => Regex::Char(value, quantifier),
        Expr::Group { child, quantifier } => Regex::Group(Box::new(model(*child)), quantifier),
        Expr::Alternation { children } => Regex::Alt(models(children@)),
        Expr::Concatenation { children } => Regex::Cat(models(children@)),
    }
}

/// The models of a list of trees.
pub open spec fn models(cs: Seq<Expr>) -> Seq<Regex>
    decreases cs,
{
    if cs.len() == 0 {
        Seq::empty()
    } else {
        models(cs.drop_last()).push(model(cs.last()))
    }
}

impl View for Expr {
    type V = Regex;

    open spec fn view(&self) -> Regex {
        model(*self)
    }
}

pub proof fn lemma_models_index(cs: Seq<Expr>)
    ensures
        models(cs).len() == cs.len(),
        forall|i: int| 0 <= i < cs.len() ==> #[trigger] models(cs)[i] == model(cs[i]),
    decreases cs.len(),
{
    if cs.len() > 0 {
        lemma_models_index(cs.drop_last());
    }
}

impl Expr {
    /// An independent copy of the tree.
    pub fn deep_copy(&self) -> (r: Expr)
        ensures
            r@ == self@,
        decreases self,
    {
        match self {
            Expr::Empty => Expr::Empty,
            Expr::Character { value, quantifier } => Expr::Character { value: *value, quantifier: *quantifier },
            Expr::Group { child, quantifier } => {
                proof {
                    assert(decreases_to!(*self => **child));
                }
                Expr::Group { child: Box::new(child.deep_copy()), quantifier: *quantifier }
            },
            Expr::Alternation { children } => {
                proof {
                    assert(decreases_to!(*self => children@));
                }
                Expr::Alternation { children: copy_all(children) }
            },
            Expr::Concatenation { children } => {
                proof {
                    assert(decreases_to!(*self => children@));
                }
                Expr::Concatenation { children: copy_all(children) }
            },
        }
    }
}

fn copy_all(cs: &Vec<Expr>) -> (r: Vec<Expr>)
    ensures
        models(r@) == models(cs@),
    decreases cs@,
{
    let mut out: Vec<Expr> = Vec::new();
    let mut i: usize = 0;
    proof {
        assert(cs@.take(0) =~= out@);
    }
    while i < cs.len()
        invariant
            i <= cs.len(),
            models(out@) == models(cs@.take(i as int)),
        decreases cs.len() - i,
    {
        proof {
            assert(decreases_to!(cs@ => cs@[i as int]));
        }
        let c = cs[i].deep_copy();
        let ghost before = out@;
        out.push(c);
        proof {
            assert(out@.drop_last() =~= before);
            assert(cs@.take(i + 1).drop_last() =~= cs@.take(i as int));
        }
        i += 1;
    }
    proof {
        assert(cs@.take(cs.len() as int) =~= cs@);
    }
    out
}

} // verus!
