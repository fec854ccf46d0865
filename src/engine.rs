//! The backtracking interpreter: walks an expression tree against a target.
//!
//! Each function here computes exactly the spec function of the same role in
//! `semantics`. The cursor and the bounds travel in arguments and results, so
//! a failed attempt leaves the cursor where it was. The tree-path of the node
//! being matched grows as the interpreter goes down the tree and shrinks as
//! it comes back up; the backtrack records of the search attempt are kept in
//! a table keyed by it.
use vstd::prelude::*;
use crate::semantics::{
    alt_match, any_backtrackable, backtrackable, cat_from, cat_try, char_accepts, char_match,
    discard_after, find_record, node_body, node_match, own_cap, run_end, star_loop,
    under_later, with_record, lemma_find_record, lemma_insert_pos, insert_pos, path_less,
    Records,
};
use crate::syntax::{lemma_models_index, model, models, Expr, Quantifier};

verus! {

/// An end offset as a natural number.
pub open spec fn opt_nat(r: Option<usize>) -> Option<nat> {
    match r {
        Some(e) => Some(e as nat),
        None => None,
    }
}

/// Whether `e` may be retried with a smaller match bound.
pub fn supports_backtracking(e: &Expr) -> (r: bool)
    ensures
        r == backtrackable(e@),
    decreases e,
{
    match e {
        Expr::Empty => false,
        Expr::Character { quantifier, .. } => *quantifier != Quantifier::Single,
        Expr::Group { child, quantifier } => *quantifier != Quantifier::Single
            || supports_backtracking(child),
        Expr::Alternation { children } => any_backtracks(children),
        Expr::Concatenation { children } => any_backtracks(children),
    }
}

fn accepts(value: Option<char>, c: char) -> (r: bool)
    ensures
        r == char_accepts(value, c),
{
    match value {
        Some(v) => v == c,
        None => true,
    }
}

/// Whether some node of `cs` may be retried with a smaller match bound.
fn any_backtracks(cs: &Vec<Expr>) -> (r: bool)
    ensures
        r == any_backtrackable(models(cs@), 0),
    decreases cs,
{
    proof {
        lemma_models_index(cs@);
    }
    let mut i: usize = 0;
    while i < cs.len()
        invariant
            0 <= i <= cs.len(),
            models(cs@).len() == cs.len(),
            forall|k: int| 0 <= k < cs.len() ==> #[trigger] models(cs@)[k] == model(cs@[k]),
            any_backtrackable(models(cs@), 0) == any_backtrackable(models(cs@), i as nat),
        decreases cs.len() - i,
    {
        proof {
            assert(decreases_to!(cs => cs[i as int]));
        }
        if supports_backtracking(&cs[i]) {
            return true;
        }
        i += 1;
    }
    false
}

fn run_end_exec(value: Option<char>, t: &Vec<char>, s: usize, cap: usize) -> (r: usize)
    requires
        cap <= t.len(),
    ensures
        r as nat == run_end(value, t@, s as nat, cap as nat),
{
    if s >= cap {
        return s;
    }
    let mut p = s;
    while p < cap && accepts(value, t[p])
        invariant
            s <= p <= cap <= t.len(),
            run_end(value, t@, p as nat, cap as nat) == run_end(value, t@, s as nat, cap as nat),
        decreases cap - p,
    {
        p += 1;
    }
    p
}

fn char_match_exec(value: Option<char>, q: Quantifier, t: &Vec<char>, s: usize, cap: usize) -> (r: Option<usize>)
    requires
        cap <= t.len(),
    ensures
        opt_nat(r) == char_match(value, q, t@, s as nat, cap as nat),
{
    match q {
        Quantifier::Single | Quantifier::ZeroOrOne => {
            if s < cap && accepts(value, t[s]) {
                Some(s + 1)
            } else if q == Quantifier::Single {
                None
            } else {
                Some(s)
            }
        },
        _ => {
            let e = run_end_exec(value, t, s, cap);
            if s < e {
                Some(e)
            } else if q == Quantifier::ZeroOrMore {
                Some(s)
            } else {
                None
            }
        },
    }
}

} // verus!

verus! {

/// A backtrack record: the tree-path of a node, and the start and end of
/// its last successful match in the current search attempt. The node has
/// backtracked to its own zero-width start when the two are equal.
pub struct BacktrackRecord {
    pub index_sequence: Vec<usize>,
    pub last_match_start: usize,
    pub last_match_end: usize,
}

/// The model of a table of records.
pub open spec fn records(v: Seq<BacktrackRecord>) -> Records {
    v.map_values(|r: BacktrackRecord| (r.index_sequence@, r.last_match_start as nat, r.last_match_end as nat))
}

fn same_path(a: &Vec<usize>, b: &Vec<usize>) -> (r: bool)
    ensures
        r == (a@ == b@),
{
    if a.len() != b.len() {
        return false;
    }
    let mut k: usize = 0;
    while k < a.len()
        invariant
            k <= a.len() == b.len(),
            forall|j: int| 0 <= j < k ==> a@[j] == b@[j],
        decreases a.len() - k,
    {
        if a[k] != b[k] {
            return false;
        }
        k += 1;
    }
    proof {
        assert(a@ =~= b@);
    }
    true
}

fn copy_path(a: &Vec<usize>) -> (r: Vec<usize>)
    ensures
        r@ == a@,
{
    let mut out: Vec<usize> = Vec::new();
    let mut k: usize = 0;
    while k < a.len()
        invariant
            k <= a.len(),
            out@ == a@.take(k as int),
        decreases a.len() - k,
    {
        out.push(a[k]);
        proof {
            assert(a@.take(k + 1) =~= a@.take(k as int).push(a@[k as int]));
        }
        k += 1;
    }
    proof {
        assert(a@.take(a.len() as int) =~= a@);
    }
    out
}

/// Whether `key` lies under a child after child `i` of the node at `path`.
fn under_later_exec(key: &Vec<usize>, path: &Vec<usize>, i: usize) -> (r: bool)
    ensures
        r == under_later(key@, path@, i as nat),
{
    if key.len() <= path.len() {
        return false;
    }
    let mut k: usize = 0;
    while k < path.len()
        invariant
            k <= path.len() < key.len(),
            forall|j: int| 0 <= j < k ==> key@[j] == path@[j],
        decreases path.len() - k,
    {
        if key[k] != path[k] {
            proof {
                assert(key@.subrange(0, path.len() as int)[k as int] != path@[k as int]);
            }
            return false;
        }
        k += 1;
    }
    proof {
        assert(key@.subrange(0, path.len() as int) =~= path@);
    }
    key[path.len()] > i
}

fn find_exec(table: &Vec<BacktrackRecord>, path: &Vec<usize>) -> (r: Option<usize>)
    ensures
        opt_nat(r) == find_record(records(table@), path@, 0),
        r matches Some(k) ==> k < table.len(),
{
    proof {
        lemma_find_record(records(table@), path@, 0);
    }
    let mut k: usize = 0;
    while k < table.len()
        invariant
            k <= table.len(),
            find_record(records(table@), path@, 0) == find_record(records(table@), path@, k as nat),
        decreases table.len() - k,
    {
        if same_path(&table[k].index_sequence, path) {
            return Some(k);
        }
        k += 1;
    }
    None
}

fn path_less_exec(a: &Vec<usize>, b: &Vec<usize>) -> (r: bool)
    ensures
        r == path_less(a@, b@),
{
    let mut k: usize = 0;
    proof {
        assert(a@.skip(0) =~= a@);
        assert(b@.skip(0) =~= b@);
    }
    loop
        invariant
            k <= a.len(),
            k <= b.len(),
            path_less(a@, b@) == path_less(a@.skip(k as int), b@.skip(k as int)),
        decreases a.len() - k,
    {
        if k == a.len() {
            return k < b.len();
        }
        if k == b.len() {
            return false;
        }
        if a[k] != b[k] {
            return a[k] < b[k];
        }
        proof {
            assert(a@.skip(k as int).drop_first() =~= a@.skip(k + 1));
            assert(b@.skip(k as int).drop_first() =~= b@.skip(k + 1));
        }
        k += 1;
    }
}

fn insert_pos_exec(table: &Vec<BacktrackRecord>, path: &Vec<usize>) -> (r: usize)
    ensures
        r as nat == insert_pos(records(table@), path@, 0),
        r <= table.len(),
{
    proof {
        lemma_insert_pos(records(table@), path@, 0);
    }
    let mut k: usize = 0;
    while k < table.len()
        invariant
            k <= table.len(),
            insert_pos(records(table@), path@, 0) == insert_pos(records(table@), path@, k as nat),
        decreases table.len() - k,
    {
        if path_less_exec(path, &table[k].index_sequence) {
            return k;
        }
        k += 1;
    }
    k
}

fn own_cap_exec(table: &Vec<BacktrackRecord>, path: &Vec<usize>, keeps: bool, cap: usize) -> (r: usize)
    ensures
        r as nat == own_cap(records(table@), path@, keeps, cap as nat),
{
    if !keeps {
        return cap;
    }
    match find_exec(table, path) {
        None => cap,
        Some(k) => {
            let e = table[k].last_match_end;
            let b = if e > 0 { e - 1 } else { 0 };
            if b < cap { b } else { cap }
        },
    }
}

fn set_record(table: &mut Vec<BacktrackRecord>, path: &Vec<usize>, s: usize, e: usize)
    ensures
        records(final(table)@) == with_record(records(old(table)@), path@, s as nat, e as nat),
{
    let entry = BacktrackRecord { index_sequence: copy_path(path), last_match_start: s, last_match_end: e };
    match find_exec(table, path) {
        Some(k) => {
            table.set(k, entry);
            proof {
                assert(records(table@) =~= records(old(table)@).update(k as int, (path@, s as nat, e as nat)));
            }
        },
        None => {
            let at = insert_pos_exec(table, path);
            table.insert(at, entry);
            proof {
                assert(records(table@) =~= records(old(table)@).insert(at as int, (path@, s as nat, e as nat)));
            }
        },
    }
}

fn discard_exec(table: &mut Vec<BacktrackRecord>, path: &Vec<usize>, i: usize)
    ensures
        records(final(table)@) == discard_after(records(old(table)@), path@, i as nat),
{
    let ghost all = records(table@);
    let mut kept: Vec<BacktrackRecord> = Vec::new();
    let mut k: usize = 0;
    proof {
        assert(all.take(0) =~= Seq::<(Seq<usize>, nat, nat)>::empty());
        assert(records(kept@) =~= Seq::<(Seq<usize>, nat, nat)>::empty());
    }
    while k < table.len()
        invariant
            k <= table.len(),
            all == records(table@),
            records(kept@) == discard_after(all.take(k as int), path@, i as nat),
        decreases table.len() - k,
    {
        let ghost before = kept@;
        proof {
            assert(all.take(k + 1).drop_last() =~= all.take(k as int));
            assert(all.take(k + 1).last() == all[k as int]);
        }
        if !under_later_exec(&table[k].index_sequence, path, i) {
            let r = BacktrackRecord {
                index_sequence: copy_path(&table[k].index_sequence),
                last_match_start: table[k].last_match_start,
                last_match_end: table[k].last_match_end,
            };
            kept.push(r);
            proof {
                assert(records(kept@) =~= records(before).push(all[k as int]));
            }
        }
        k += 1;
    }
    proof {
        assert(all.take(table.len() as int) =~= all);
    }
    *table = kept;
}

/// Matches `e` from offset `s` under the bound `cap` as the root of a
/// search attempt: with no records yet; returns the end of the match.
pub fn eval(e: &Expr, t: &Vec<char>, s: usize, cap: usize) -> (r: Option<usize>)
    requires
        cap <= t.len() < usize::MAX,
    ensures
        opt_nat(r) == node_match(e@, Seq::empty(), false, t@, s as nat, cap as nat, Seq::empty()).0,
{
    let mut path: Vec<usize> = Vec::new();
    let mut table: Vec<BacktrackRecord> = Vec::new();
    proof {
        assert(records(table@) =~= Seq::<(Seq<usize>, nat, nat)>::empty());
        assert(path@ =~= Seq::<usize>::empty());
    }
    eval_node(e, &mut path, false, t, s, cap, &mut table)
}

/// Matches the node `e` at tree-path `path`, bounding it by its own record
/// when it keeps one, and records its match when it succeeds.
fn eval_node(
    e: &Expr,
    path: &mut Vec<usize>,
    keeps: bool,
    t: &Vec<char>,
    s: usize,
    cap: usize,
    table: &mut Vec<BacktrackRecord>,
) -> (r: Option<usize>)
    requires
        cap <= t.len() < usize::MAX,
    ensures
        final(path)@ == old(path)@,
        (opt_nat(r), records(final(table)@)) == node_match(
            e@,
            old(path)@,
            keeps,
            t@,
            s as nat,
            cap as nat,
            records(old(table)@),
        ),
    decreases e, 1nat, 0nat, 0nat,
{
    let c = own_cap_exec(table, path, keeps, cap);
    match eval_body(e, path, t, s, c, table) {
        Some(end) => {
            if keeps {
                set_record(table, path, s, end);
            }
            Some(end)
        },
        None => None,
    }
}

fn eval_body(
    e: &Expr,
    path: &mut Vec<usize>,
    t: &Vec<char>,
    s: usize,
    c: usize,
    table: &mut Vec<BacktrackRecord>,
) -> (r: Option<usize>)
    requires
        c <= t.len() < usize::MAX,
    ensures
        final(path)@ == old(path)@,
        (opt_nat(r), records(final(table)@)) == node_body(
            e@,
            old(path)@,
            t@,
            s as nat,
            c as nat,
            records(old(table)@),
        ),
    decreases e, 0nat, 0nat, 0nat,
{
    match e {
        Expr::Empty => Some(s),
        Expr::Character { value, quantifier } => char_match_exec(*value, *quantifier, t, s, c),
        Expr::Group { child, quantifier } => {
            proof {
                assert(decreases_to!(*e => **child));
            }
            path.push(0);
            let r = match quantifier {
                Quantifier::Single => eval_node(child, path, false, t, s, c, table),
                Quantifier::ZeroOrOne => match eval_node(child, path, false, t, s, c, table) {
                    Some(end) => Some(end),
                    None => Some(s),
                },
                _ => {
                    let (end, matched_empty) = star_exec(child, path, t, s, c, table);
                    if end == s && !matched_empty && *quantifier == Quantifier::OneOrMore {
                        None
                    } else {
                        Some(end)
                    }
                },
            };
            let _ = path.pop();
            proof {
                assert(old(path)@.push(0).drop_last() =~= old(path)@);
            }
            r
        },
        Expr::Alternation { children } => {
            proof {
                assert(decreases_to!(*e => children@));
            }
            alt_exec(children, path, t, s, c, table)
        },
        Expr::Concatenation { children } => {
            proof {
                assert(decreases_to!(*e => children@));
            }
            cat_exec(children, path, 0, t, s, c, table)
        },
    }
}

/// Repeats a group's child, at tree-path `cp`, from `s` while it makes progress.
fn star_exec(
    child: &Expr,
    cp: &mut Vec<usize>,
    t: &Vec<char>,
    s: usize,
    c: usize,
    table: &mut Vec<BacktrackRecord>,
) -> (r: (usize, bool))
    requires
        c <= t.len() < usize::MAX,
    ensures
        final(cp)@ == old(cp)@,
        (r.0 as nat, r.1, records(final(table)@)) == star_loop(
            child@,
            old(cp)@,
            t@,
            s as nat,
            c as nat,
            records(old(table)@),
        ),
    decreases child, 2nat, 0nat, 0nat,
{
    let mut p = s;
    loop
        invariant
            c <= t.len() < usize::MAX,
            cp@ == old(cp)@,
            star_loop(child@, cp@, t@, p as nat, c as nat, records(table@)) == star_loop(
                child@,
                cp@,
                t@,
                s as nat,
                c as nat,
                records(old(table)@),
            ),
        decreases c - p,
    {
        match eval_node(child, cp, false, t, p, c, table) {
            None => return (p, false),
            Some(e) => {
                if p < e && e <= c {
                    p = e;
                } else if e == p {
                    return (p, true);
                } else {
                    return (p, false);
                }
            },
        }
    }
}

/// The first of `cs`, the children of the node at `path`, that matches from `s`.
fn alt_exec(
    cs: &Vec<Expr>,
    path: &mut Vec<usize>,
    t: &Vec<char>,
    s: usize,
    c: usize,
    table: &mut Vec<BacktrackRecord>,
) -> (r: Option<usize>)
    requires
        c <= t.len() < usize::MAX,
    ensures
        final(path)@ == old(path)@,
        (opt_nat(r), records(final(table)@)) == alt_match(
            models(cs@),
            old(path)@,
            0,
            t@,
            s as nat,
            c as nat,
            records(old(table)@),
        ),
    decreases cs@, 2nat, 0nat, 0nat,
{
    proof {
        lemma_models_index(cs@);
    }
    let mut i: usize = 0;
    while i < cs.len()
        invariant
            0 <= i <= cs.len(),
            c <= t.len() < usize::MAX,
            path@ == old(path)@,
            models(cs@).len() == cs.len(),
            forall|k: int| 0 <= k < cs.len() ==> #[trigger] models(cs@)[k] == model(cs@[k]),
            alt_match(models(cs@), path@, i as nat, t@, s as nat, c as nat, records(table@)) == alt_match(
                models(cs@),
                path@,
                0,
                t@,
                s as nat,
                c as nat,
                records(old(table)@),
            ),
        decreases cs.len() - i,
    {
        proof {
            assert(decreases_to!(cs@ => cs@[i as int]));
        }
        let retry = supports_backtracking(&cs[i]);
        path.push(i);
        let r = eval_node(&cs[i], path, retry, t, s, c, table);
        let _ = path.pop();
        proof {
            assert(old(path)@.push(i).drop_last() =~= old(path)@);
        }
        if r.is_some() {
            return r;
        }
        i += 1;
    }
    None
}

/// The concatenation of `cs[i..]`, children of the node at `path`, from `s`.
///
/// Each child is tried under the concatenation's bound, capped further by
/// its own record. When the children after it fail, a child that may give
/// back and has not come down to its own zero-width start is tried again
/// from the same start: the records under the later children are dropped
/// first, and its own record bounds it one below its last end.
fn cat_exec(
    cs: &Vec<Expr>,
    path: &mut Vec<usize>,
    i: usize,
    t: &Vec<char>,
    s: usize,
    c: usize,
    table: &mut Vec<BacktrackRecord>,
) -> (r: Option<usize>)
    requires
        c <= t.len() < usize::MAX,
        i <= cs.len(),
    ensures
        final(path)@ == old(path)@,
        (opt_nat(r), records(final(table)@)) == cat_from(
            models(cs@),
            old(path)@,
            i as nat,
            t@,
            s as nat,
            c as nat,
            records(old(table)@),
        ),
    decreases cs@, 2nat, cs.len() - i, 1nat,
{
    proof {
        lemma_models_index(cs@);
    }
    if i == cs.len() {
        return Some(s);
    }
    proof {
        assert(decreases_to!(cs@ => cs@[i as int]));
    }
    let retry = supports_backtracking(&cs[i]);
    let mut bound = c + 1;
    loop
        invariant
            c <= t.len() < usize::MAX,
            i < cs.len(),
            path@ == old(path)@,
            retry == backtrackable(models(cs@)[i as int]),
            models(cs@).len() == cs.len(),
            forall|k: int| 0 <= k < cs.len() ==> #[trigger] models(cs@)[k] == model(cs@[k]),
            cat_try(models(cs@), path@, i as nat, t@, s as nat, c as nat, records(table@), bound as nat)
                == cat_from(models(cs@), old(path)@, i as nat, t@, s as nat, c as nat, records(old(table)@)),
        decreases bound,
    {
        path.push(i);
        let r = eval_node(&cs[i], path, retry, t, s, c, table);
        let _ = path.pop();
        proof {
            assert(old(path)@.push(i).drop_last() =~= old(path)@);
        }
        match r {
            None => return None,
            Some(e) => {
                match cat_exec(cs, path, i + 1, t, e, c, table) {
                    Some(f) => return Some(f),
                    None => {
                        if retry && s < e && e < bound {
                            discard_exec(table, path, i);
                            bound = e;
                        } else {
                            return None;
                        }
                    },
                }
            },
        }
    }
}

} // verus!
