//! What a pattern matches: the backtracking semantics, stated over the model.
//!
//! Every attempt to match a node starts at an offset `s` under a match bound
//! `cap`: it consumes no character at or past `cap`. A node that may give
//! back part of what it took (a quantified node, or one with such a node
//! inside) keeps a backtrack record, keyed by its tree-path (the sibling
//! indices from the root down to it): the start and end of its last
//! successful match in the current search attempt. Whenever such a node is
//! tried again, its bound is one below its recorded end, also when it is
//! tried again because a node around it is. A concatenation that fails at a
//! child goes back to the nearest earlier child that may still give back,
//! rewinds to that child's recorded start, and drops the records kept under
//! the children after it. The sole child of a group keeps no record of its
//! own: the group's bound covers it. The records live for one search attempt.
use vstd::prelude::*;
use crate::syntax::{Quantifier, Regex};

verus! {

/// Whether the wildcard or literal `value` accepts `c`.
pub open spec fn char_accepts(value: Option<char>, c: char) -> bool {
    match value {
        Some(v) => v == c,
        None => true,
    }
}

/// The end of the longest run of characters accepted by `value` from `p`, not past `cap`.
pub open spec fn run_end(value: Option<char>, t: Seq<char>, p: nat, cap: nat) -> nat
    decreases cap - p,
{
    if p < cap && p < t.len() && char_accepts(value, t[p as int]) {
        run_end(value, t, p + 1, cap)
    } else {
        p
    }
}

/// A character or wildcard node with quantifier `q`, from `s` under `cap`.
pub open spec fn char_match(value: Option<char>, q: Quantifier, t: Seq<char>, s: nat, cap: nat) -> Option<nat> {
    match q {
        Quantifier::Single | Quantifier::ZeroOrOne => {
            if s < cap && s < t.len() && char_accepts(value, t[s as int]) {
                Some(s + 1)
            } else if q == Quantifier::Single {
                None
            } else {
                Some(s)
            }
        },
        _ => {
            let e = run_end(value, t, s, cap);
            if s < e {
                Some(e)
            } else if q == Quantifier::ZeroOrMore {
                Some(s)
            } else {
                None
            }
        },
    }
}

/// The backtrack records of a search attempt: tree-path, start, end.
pub type Records = Seq<(Seq<usize>, nat, nat)>;

/// The index of the record of the node at `path`, looking from `k` on.
pub open spec fn find_record(tbl: Records, path: Seq<usize>, k: nat) -> Option<nat>
    decreases tbl.len() - k,
{
    if k >= tbl.len() {
        None
    } else if tbl[k as int].0 == path {
        Some(k)
    } else {
        find_record(tbl, path, k + 1)
    }
}

pub proof fn lemma_find_record(tbl: Records, path: Seq<usize>, k: nat)
    ensures
        find_record(tbl, path, k) matches Some(j) ==> k <= j < tbl.len() && tbl[j as int].0 == path,
    decreases tbl.len() - k,
{
    if k < tbl.len() && tbl[k as int].0 != path {
        lemma_find_record(tbl, path, k + 1);
    }
}

/// The start and end recorded for the node at `path`, if any.
pub open spec fn record_of(tbl: Records, path: Seq<usize>) -> Option<(nat, nat)> {
    match find_record(tbl, path, 0) {
        Some(k) => Some((tbl[k as int].1, tbl[k as int].2)),
        None => None,
    }
}

/// Whether the tree-path `a` comes before `b`, sibling index by sibling index.
pub open spec fn path_less(a: Seq<usize>, b: Seq<usize>) -> bool
    decreases a.len(),
{
    if a.len() == 0 {
        b.len() > 0
    } else if b.len() == 0 {
        false
    } else if a[0] != b[0] {
        a[0] < b[0]
    } else {
        path_less(a.drop_first(), b.drop_first())
    }
}

/// Where a new record for `path` goes, looking from `k` on: before the first
/// record whose path comes after it, so that the records stay in tree-path order.
pub open spec fn insert_pos(tbl: Records, path: Seq<usize>, k: nat) -> nat
    decreases tbl.len() - k,
{
    if k >= tbl.len() {
        tbl.len()
    } else if path_less(path, tbl[k as int].0) {
        k
    } else {
        insert_pos(tbl, path, k + 1)
    }
}

pub proof fn lemma_insert_pos(tbl: Records, path: Seq<usize>, k: nat)
    requires
        k <= tbl.len(),
    ensures
        k <= insert_pos(tbl, path, k) <= tbl.len(),
    decreases tbl.len() - k,
{
    if k < tbl.len() && !path_less(path, tbl[k as int].0) {
        lemma_insert_pos(tbl, path, k + 1);
    }
}

/// The records with the node at `path` recorded as having matched `s..e`.
pub open spec fn with_record(tbl: Records, path: Seq<usize>, s: nat, e: nat) -> Records {
    match find_record(tbl, path, 0) {
        Some(k) => tbl.update(k as int, (path, s, e)),
        None => tbl.insert(insert_pos(tbl, path, 0) as int, (path, s, e)),
    }
}

/// Whether `key` is the path of child `m > i` of the node at `path`, or of a
/// node under such a child.
pub open spec fn under_later(key: Seq<usize>, path: Seq<usize>, i: nat) -> bool {
    key.len() > path.len() && key.subrange(0, path.len() as int) == path && key[path.len() as int] > i
}

/// The records without those kept under the children after child `i` of
/// the node at `path`.
pub open spec fn discard_after(tbl: Records, path: Seq<usize>, i: nat) -> Records
    decreases tbl.len(),
{
    if tbl.len() == 0 {
        Seq::empty()
    } else if under_later(tbl.last().0, path, i) {
        discard_after(tbl.drop_last(), path, i)
    } else {
        discard_after(tbl.drop_last(), path, i).push(tbl.last())
    }
}

/// The bound of a node's attempt: one below its recorded end when it keeps
/// a record and has one, and never past the bound around it.
pub open spec fn own_cap(tbl: Records, path: Seq<usize>, keeps: bool, cap: nat) -> nat {
    if keeps {
        match record_of(tbl, path) {
            Some((_, e)) => {
                let b: nat = if e > 0 { (e - 1) as nat } else { 0 };
                if b < cap { b } else { cap }
            },
            None => cap,
        }
    } else {
        cap
    }
}

/// Whether a node may be retried with a smaller bound.
pub open spec fn backtrackable(r: Regex) -> bool
    decreases r, 0nat,
{
    match r {
        Regex::Empty => false,
        Regex::Char(_, q) => q != Quantifier::Single,
        Regex::Group(child, q) => q != Quantifier::Single || backtrackable(*child),
        Regex::Alt(cs) => any_backtrackable(cs, 0),
        Regex::Cat(cs) => any_backtrackable(cs, 0),
    }
}

/// Whether some node of `cs[i..]` may be retried with a smaller bound.
pub open spec fn any_backtrackable(cs: Seq<Regex>, i: nat) -> bool
    decreases cs, cs.len() - i,
{
    if i >= cs.len() {
        false
    } else {
        backtrackable(cs[i as int]) || any_backtrackable(cs, i + 1)
    }
}

/// The match of the node `r` at tree-path `path` against `t` from `s` under
/// the bound `cap`, given the records `tbl`: the end of the match, or `None`,
/// and the records afterwards. `keeps` tells whether the node keeps a record.
pub open spec fn node_match(
    r: Regex,
    path: Seq<usize>,
    keeps: bool,
    t: Seq<char>,
    s: nat,
    cap: nat,
    tbl: Records,
) -> (Option<nat>, Records)
    decreases r, 1nat, 0nat, 0nat,
{
    let (res, after) = node_body(r, path, t, s, own_cap(tbl, path, keeps, cap), tbl);
    match res {
        Some(e) => if keeps {
            (Some(e), with_record(after, path, s, e))
        } else {
            (Some(e), after)
        },
        None => (None, after),
    }
}

/// The match of `r` itself under the bound `c`, before its own record is kept.
pub open spec fn node_body(r: Regex, path: Seq<usize>, t: Seq<char>, s: nat, c: nat, tbl: Records) -> (
    Option<nat>,
    Records,
)
    decreases r, 0nat, 0nat, 0nat,
{
    match r {
        Regex::Empty => (Some(s), tbl),
        Regex::Char(value, q) => (char_match(value, q, t, s, c), tbl),
        Regex::Group(child, q) => {
            let cp = path.push(0);
            match q {
                Quantifier::Single => node_match(*child, cp, false, t, s, c, tbl),
                Quantifier::ZeroOrOne => {
                    let (res, after) = node_match(*child, cp, false, t, s, c, tbl);
                    match res {
                        Some(e) => (Some(e), after),
                        None => (Some(s), after),
                    }
                },
                _ => {
                    let (end, matched_empty, after) = star_loop(*child, cp, t, s, c, tbl);
                    if end == s && !matched_empty && q == Quantifier::OneOrMore {
                        (None, after)
                    } else {
                        (Some(end), after)
                    }
                },
            }
        },
        Regex::Alt(cs) => alt_match(cs, path, 0, t, s, c, tbl),
        Regex::Cat(cs) => cat_from(cs, path, 0, t, s, c, tbl),
    }
}

/// Repeats the group's child from `p` while it makes progress under `c`;
/// also tells whether the repetition ended on a zero-width match.
pub open spec fn star_loop(child: Regex, cp: Seq<usize>, t: Seq<char>, p: nat, c: nat, tbl: Records) -> (
    nat,
    bool,
    Records,
)
    decreases child, 2nat, c - p, 0nat,
{
    let (res, after) = node_match(child, cp, false, t, p, c, tbl);
    match res {
        None => (p, false, after),
        Some(e) => if p < e && e <= c {
            star_loop(child, cp, t, e, c, after)
        } else if e == p {
            (p, true, after)
        } else {
            (p, false, after)
        },
    }
}

/// The first alternative among `cs[i..]` that matches from `s`.
pub open spec fn alt_match(cs: Seq<Regex>, path: Seq<usize>, i: nat, t: Seq<char>, s: nat, c: nat, tbl: Records) -> (
    Option<nat>,
    Records,
)
    decreases cs, 2nat, cs.len() - i, 0nat,
{
    if i >= cs.len() {
        (None, tbl)
    } else {
        let (res, after) = node_match(cs[i as int], path.push(i as usize), backtrackable(cs[i as int]), t, s, c, tbl);
        match res {
            Some(e) => (Some(e), after),
            None => alt_match(cs, path, i + 1, t, s, c, after),
        }
    }
}

/// The concatenation of `cs[i..]` from `s`.
pub open spec fn cat_from(cs: Seq<Regex>, path: Seq<usize>, i: nat, t: Seq<char>, s: nat, c: nat, tbl: Records) -> (
    Option<nat>,
    Records,
)
    decreases cs, 2nat, cs.len() - i, 1nat, 0nat,
{
    if i >= cs.len() {
        (Some(s), tbl)
    } else {
        cat_try(cs, path, i, t, s, c, tbl, c + 1)
    }
}

/// `cs[i]` from `s`, then the rest. When the rest fails and `cs[i]` may give
/// back (it matched more than nothing), the records under the later children
/// are dropped and `cs[i]` is tried again from `s`, its record bounding it
/// below its last end. `bound` is above that end, and must drop each time.
pub open spec fn cat_try(
    cs: Seq<Regex>,
    path: Seq<usize>,
    i: nat,
    t: Seq<char>,
    s: nat,
    c: nat,
    tbl: Records,
    bound: nat,
) -> (Option<nat>, Records)
    decreases cs, 2nat, cs.len() - i, 0nat, bound,
{
    if i >= cs.len() {
        (None, tbl)
    } else {
        let (res, after) = node_match(cs[i as int], path.push(i as usize), backtrackable(cs[i as int]), t, s, c, tbl);
        match res {
            None => (None, after),
            Some(e) => {
                let (rest, later) = cat_from(cs, path, i + 1, t, e, c, after);
                match rest {
                    Some(f) => (Some(f), later),
                    None => if backtrackable(cs[i as int]) && s < e && e < bound {
                        cat_try(cs, path, i, t, s, c, discard_after(later, path, i), e)
                    } else {
                        (None, later)
                    },
                }
            },
        }
    }
}

} // verus!

verus! {

pub proof fn lemma_run_end_bounds(value: Option<char>, t: Seq<char>, p: nat, cap: nat)
    ensures
        p <= run_end(value, t, p, cap),
        p <= cap ==> run_end(value, t, p, cap) <= cap,
        p > cap ==> run_end(value, t, p, cap) == p,
    decreases cap - p,
{
    if p < cap && p < t.len() && char_accepts(value, t[p as int]) {
        lemma_run_end_bounds(value, t, p + 1, cap);
    }
}

/// The largest of two offsets.
pub open spec fn max_of(a: nat, b: nat) -> nat {
    if a < b { b } else { a }
}

/// A match starts where it was asked to and consumes nothing at or past its bound.
pub proof fn lemma_node_match_bounds(r: Regex, path: Seq<usize>, keeps: bool, t: Seq<char>, s: nat, cap: nat, tbl: Records)
    ensures
        node_match(r, path, keeps, t, s, cap, tbl).0 matches Some(e) ==> s <= e <= max_of(s, cap),
    decreases r, 1nat, 0nat, 0nat,
{
    lemma_node_body_bounds(r, path, t, s, own_cap(tbl, path, keeps, cap), tbl);
}

pub proof fn lemma_node_body_bounds(r: Regex, path: Seq<usize>, t: Seq<char>, s: nat, c: nat, tbl: Records)
    ensures
        node_body(r, path, t, s, c, tbl).0 matches Some(e) ==> s <= e <= max_of(s, c),
    decreases r, 0nat, 0nat, 0nat,
{
    match r {
        Regex::Empty => {},
        Regex::Char(value, q) => {
            lemma_run_end_bounds(value, t, s, c);
        },
        Regex::Group(child, q) => {
            lemma_node_match_bounds(*child, path.push(0), false, t, s, c, tbl);
            lemma_star_loop_bounds(*child, path.push(0), t, s, c, tbl);
        },
        Regex::Alt(cs) => {
            lemma_alt_match_bounds(cs, path, 0, t, s, c, tbl);
        },
        Regex::Cat(cs) => {
            lemma_cat_from_bounds(cs, path, 0, t, s, c, tbl);
        },
    }
}

pub proof fn lemma_star_loop_bounds(child: Regex, cp: Seq<usize>, t: Seq<char>, p: nat, c: nat, tbl: Records)
    ensures
        p <= star_loop(child, cp, t, p, c, tbl).0 <= max_of(p, c),
    decreases child, 2nat, c - p, 0nat,
{
    lemma_node_match_bounds(child, cp, false, t, p, c, tbl);
    let (res, after) = node_match(child, cp, false, t, p, c, tbl);
    match res {
        None => {},
        Some(e) => if p < e && e <= c {
            lemma_star_loop_bounds(child, cp, t, e, c, after);
        },
    }
}

pub proof fn lemma_alt_match_bounds(cs: Seq<Regex>, path: Seq<usize>, i: nat, t: Seq<char>, s: nat, c: nat, tbl: Records)
    ensures
        alt_match(cs, path, i, t, s, c, tbl).0 matches Some(e) ==> s <= e <= max_of(s, c),
    decreases cs, 2nat, cs.len() - i, 0nat,
{
    if i < cs.len() {
        let p = path.push(i as usize);
        lemma_node_match_bounds(cs[i as int], p, backtrackable(cs[i as int]), t, s, c, tbl);
        let (res, after) = node_match(cs[i as int], p, backtrackable(cs[i as int]), t, s, c, tbl);
        lemma_alt_match_bounds(cs, path, i + 1, t, s, c, after);
    }
}

pub proof fn lemma_cat_from_bounds(cs: Seq<Regex>, path: Seq<usize>, i: nat, t: Seq<char>, s: nat, c: nat, tbl: Records)
    ensures
        cat_from(cs, path, i, t, s, c, tbl).0 matches Some(e) ==> s <= e <= max_of(s, c),
    decreases cs, 2nat, cs.len() - i, 1nat, 0nat,
{
    if i < cs.len() {
        lemma_cat_try_bounds(cs, path, i, t, s, c, tbl, c + 1);
    }
}

pub proof fn lemma_cat_try_bounds(
    cs: Seq<Regex>,
    path: Seq<usize>,
    i: nat,
    t: Seq<char>,
    s: nat,
    c: nat,
    tbl: Records,
    bound: nat,
)
    ensures
        cat_try(cs, path, i, t, s, c, tbl, bound).0 matches Some(e) ==> s <= e <= max_of(s, c),
    decreases cs, 2nat, cs.len() - i, 0nat, bound,
{
    if i < cs.len() {
        let p = path.push(i as usize);
        let bt = backtrackable(cs[i as int]);
        lemma_node_match_bounds(cs[i as int], p, bt, t, s, c, tbl);
        let (res, after) = node_match(cs[i as int], p, bt, t, s, c, tbl);
        match res {
            None => {},
            Some(e) => {
                lemma_cat_from_bounds(cs, path, i + 1, t, e, c, after);
                let (rest, later) = cat_from(cs, path, i + 1, t, e, c, after);
                if rest is None && bt && s < e && e < bound {
                    lemma_cat_try_bounds(cs, path, i, t, s, c, discard_after(later, path, i), e);
                }
            },
        }
    }
}

} // verus!

verus! {

/// The first match of `r` in `t` that starts at or after `p`, as `(start, end)`:
/// each start offset is tried in turn, with the whole target as bound.
pub open spec fn first_match(r: Regex, t: Seq<char>, p: nat) -> Option<(nat, nat)>
    decreases t.len() + 1 - p,
{
    if p > t.len() {
        None
    } else {
        match node_match(r, Seq::empty(), false, t, p, t.len(), Seq::empty()).0 {
            Some(e) => Some((p, e)),
            None => if p < t.len() {
                first_match(r, t, p + 1)
            } else {
                None
            },
        }
    }
}

/// Where the search resumes after the match `m`: at its end, or one further
/// for a zero-width match, so that no match is found twice.
pub open spec fn resume_at(m: (nat, nat)) -> nat {
    if m.0 == m.1 {
        m.1 + 1
    } else {
        m.1
    }
}

/// One step of the match sequence from cursor `p`: the match produced, if
/// any, and the cursor afterwards. Past the end of the target nothing is left.
pub open spec fn next_step(r: Regex, t: Seq<char>, p: nat) -> (Option<(nat, nat)>, nat) {
    if p > t.len() {
        (None, p)
    } else {
        match first_match(r, t, p) {
            Some(m) => (Some(m), resume_at(m)),
            None => (None, t.len() + 1),
        }
    }
}

/// Every match produced from cursor `p` on, in order.
pub open spec fn matches_from(r: Regex, t: Seq<char>, p: nat) -> Seq<(nat, nat)>
    decreases t.len() + 1 - p,
{
    if p > t.len() {
        Seq::empty()
    } else {
        match first_match(r, t, p) {
            Some(m) => if p < resume_at(m) <= t.len() + 1 {
                seq![m] + matches_from(r, t, resume_at(m))
            } else {
                Seq::empty()
            },
            None => Seq::empty(),
        }
    }
}

/// The whole match sequence of `r` over `t`.
pub open spec fn all_matches(r: Regex, t: Seq<char>) -> Seq<(nat, nat)> {
    matches_from(r, t, 0)
}

/// Whether the matches lie inside `t` at or after `p`, in order, without overlap.
pub open spec fn ordered_within(ms: Seq<(nat, nat)>, p: nat, len: nat) -> bool {
    &&& forall|i: int| 0 <= i < ms.len() ==> p <= (#[trigger] ms[i]).0 <= ms[i].1 <= len
    &&& forall|i: int| 0 <= i < ms.len() - 1 ==> (#[trigger] ms[i]).1 <= ms[i + 1].0
}

pub proof fn lemma_first_match_bounds(r: Regex, t: Seq<char>, p: nat)
    ensures
        first_match(r, t, p) matches Some(m) ==> p <= m.0 <= m.1 <= t.len() && node_match(
            r,
            Seq::empty(),
            false,
            t,
            m.0,
            t.len(),
            Seq::empty(),
        ).0 == Some(m.1),
    decreases t.len() + 1 - p,
{
    if p <= t.len() {
        lemma_node_match_bounds(r, Seq::empty(), false, t, p, t.len(), Seq::empty());
        if node_match(r, Seq::empty(), false, t, p, t.len(), Seq::empty()).0 is None && p < t.len() {
            lemma_first_match_bounds(r, t, p + 1);
        }
    }
}

/// A search that began at `from` and found its first match at `m.0` finds
/// the same match from any cursor in between.
pub proof fn lemma_first_match_from_between(r: Regex, t: Seq<char>, from: nat, p: nat)
    requires
        from <= p,
        first_match(r, t, from) matches Some(m) && p <= m.0,
    ensures
        first_match(r, t, p) == first_match(r, t, from),
    decreases p - from,
{
    if from < p {
        lemma_first_match_bounds(r, t, from);
        lemma_first_match_from_between(r, t, from + 1, p);
    }
}

/// If a search from `p` finds a match, so does every search from an earlier cursor.
pub proof fn lemma_first_match_earlier(r: Regex, t: Seq<char>, q: nat, p: nat)
    requires
        q <= p,
        first_match(r, t, p) is Some,
    ensures
        first_match(r, t, q) is Some,
    decreases p - q,
{
    if q < p {
        lemma_first_match_earlier(r, t, q + 1, p);
        lemma_first_match_bounds(r, t, p);
    }
}

/// The sequence produced from `p` is one step followed by the sequence from
/// the cursor that step leaves.
pub proof fn lemma_matches_from_unfold(r: Regex, t: Seq<char>, p: nat)
    ensures
        matches_from(r, t, p) == (match next_step(r, t, p).0 {
            Some(m) => seq![m] + matches_from(r, t, next_step(r, t, p).1),
            None => Seq::<(nat, nat)>::empty(),
        }),
{
    lemma_first_match_bounds(r, t, p);
}

/// Walking the sequence: once the first `k` matches of `all` have been
/// produced, the next step produces `all[k]`, or nothing when `all` is used up.
pub proof fn lemma_step_along(r: Regex, t: Seq<char>, all: Seq<(nat, nat)>, k: nat, p: nat)
    requires
        k <= all.len(),
        matches_from(r, t, p) == all.subrange(k as int, all.len() as int),
    ensures
        next_step(r, t, p).0 matches Some(m) ==> k < all.len() && m == all[k as int] && matches_from(
            r,
            t,
            next_step(r, t, p).1,
        ) == all.subrange(k + 1int, all.len() as int),
        next_step(r, t, p).0 is None ==> k == all.len(),
        p > t.len() ==> k == all.len(),
{
    lemma_matches_from_unfold(r, t, p);
    let tail = all.subrange(k as int, all.len() as int);
    if let Some(m) = next_step(r, t, p).0 {
        assert(tail.len() > 0);
        assert(tail[0] == all[k as int]);
        assert(all.subrange(k + 1int, all.len() as int) =~= tail.drop_first());
    } else {
        assert(tail.len() == 0);
    }
}

/// Matches lie inside the target, at or after the cursor, and never overlap.
pub proof fn lemma_matches_from_ordered(r: Regex, t: Seq<char>, p: nat)
    ensures
        ordered_within(matches_from(r, t, p), p, t.len()),
    decreases t.len() + 1 - p,
{
    lemma_first_match_bounds(r, t, p);
    if p <= t.len() {
        if let Some(m) = first_match(r, t, p) {
            let q = resume_at(m);
            lemma_matches_from_ordered(r, t, q);
            let rest = matches_from(r, t, q);
            let ms = matches_from(r, t, p);
            assert(ms == seq![m] + rest);
            assert forall|i: int| 0 <= i < ms.len() - 1 implies (#[trigger] ms[i]).1 <= ms[i + 1].0 by {
                if i > 0 {
                    assert(ms[i] == rest[i - 1]);
                    assert(ms[i + 1] == rest[i]);
                } else {
                    assert(ms[1] == rest[0]);
                }
            }
            assert forall|i: int| 0 <= i < ms.len() implies p <= (#[trigger] ms[i]).0 <= ms[i].1 <= t.len() by {
                if i > 0 {
                    assert(ms[i] == rest[i - 1]);
                }
            }
        }
    }
}

} // verus!

verus! {

/// The first `n` of `ms`, or all of them when there are fewer.
pub open spec fn first_n(ms: Seq<(nat, nat)>, n: nat) -> Seq<(nat, nat)> {
    if n < ms.len() {
        ms.take(n as int)
    } else {
        ms
    }
}

/// The pieces of `t` from `from` that lie between the matches `ms`: before
/// each match, and the remainder after the last one.
pub open spec fn segments(t: Seq<char>, ms: Seq<(nat, nat)>, from: nat) -> Seq<Seq<char>>
    decreases ms.len(),
{
    if ms.len() == 0 {
        seq![t.subrange(from as int, t.len() as int)]
    } else {
        seq![t.subrange(from as int, ms[0].0 as int)] + segments(t, ms.drop_first(), ms[0].1)
    }
}

/// The text of `t` from `from` with each of the matches `ms` replaced by `repl`.
pub open spec fn substituted(t: Seq<char>, ms: Seq<(nat, nat)>, from: nat, repl: Seq<char>) -> Seq<char>
    decreases ms.len(),
{
    if ms.len() == 0 {
        t.subrange(from as int, t.len() as int)
    } else {
        t.subrange(from as int, ms[0].0 as int) + repl + substituted(t, ms.drop_first(), ms[0].1, repl)
    }
}

/// The target split around the first `n` matches, restarting from offset 0;
/// the rest after the last match used always ends the list.
pub open spec fn split_spec(r: Regex, t: Seq<char>, n: nat) -> Seq<Seq<char>> {
    segments(t, first_n(all_matches(r, t), n), 0)
}

/// The target with its first `n` matches replaced by `repl`.
pub open spec fn substitute_spec(r: Regex, t: Seq<char>, repl: Seq<char>, n: nat) -> Seq<char> {
    substituted(t, first_n(all_matches(r, t), n), 0, repl)
}

/// What `ms` covers of `t`, match by match.
pub open spec fn matched_texts(t: Seq<char>, ms: Seq<(nat, nat)>) -> Seq<Seq<char>> {
    ms.map_values(|m: (nat, nat)| t.subrange(m.0 as int, m.1 as int))
}

/// `segs[0] + fill[0] + segs[1] + fill[1] + ... + segs[last]`.
pub open spec fn interleave(segs: Seq<Seq<char>>, fill: Seq<Seq<char>>) -> Seq<char>
    decreases segs.len(),
{
    if segs.len() == 0 {
        Seq::empty()
    } else if segs.len() == 1 {
        segs[0]
    } else {
        segs[0] + fill[0] + interleave(segs.drop_first(), fill.drop_first())
    }
}

} // verus!
