//! Properties that hold of every pattern and target.
use vstd::prelude::*;
use crate::matcher::{escaped, escaped_char};
use crate::parser::{alt_from, alternation_of, branch_from, branch_of, item_at, parse_spec, quantifier_at};
use crate::scanner::{is_meta, lex_at, scan, scan_from, SyntaxError, Token, TokenType};
use crate::semantics::{
    all_matches, backtrackable, cat_from, cat_try, Records, first_match, first_n, interleave, lemma_first_match_bounds,
    lemma_matches_from_ordered, matched_texts, matches_from, next_step,
    node_match, ordered_within, resume_at, segments, split_spec, substitute_spec, substituted,
};
use crate::syntax::{Quantifier, Regex};

verus! {

/// Two matches produced one after the other never overlap: the second
/// starts at or after the end of the first.
pub proof fn law_consecutive_matches_do_not_overlap(r: Regex, t: Seq<char>, p: nat)
    requires
        next_step(r, t, p).0 is Some,
        next_step(r, t, next_step(r, t, p).1).0 is Some,
    ensures
        (next_step(r, t, p).0->0).1 <= (next_step(r, t, next_step(r, t, p).1).0->0).0,
{
    let q = next_step(r, t, p).1;
    lemma_first_match_bounds(r, t, p);
    lemma_first_match_bounds(r, t, q);
}

/// The whole match sequence lies inside the target, in order, and no two
/// successive matches overlap.
pub proof fn law_match_sequence_ordered(r: Regex, t: Seq<char>)
    ensures
        ordered_within(all_matches(r, t), 0, t.len()),
{
    lemma_matches_from_ordered(r, t, 0);
}

proof fn lemma_empty_matches_from(t: Seq<char>, p: nat)
    requires
        p <= t.len() + 1,
    ensures
        matches_from(Regex::Empty, t, p) =~= Seq::new((t.len() + 1 - p) as nat, |i: int| ((p + i) as nat, (p + i) as nat)),
    decreases t.len() + 1 - p,
{
    if p <= t.len() {
        lemma_empty_matches_from(t, p + 1);
        let rest = matches_from(Regex::Empty, t, p + 1);
        assert(first_match(Regex::Empty, t, p) == Some((p, p)));
        assert(resume_at((p, p)) == p + 1);
    }
}

/// The empty pattern over a target of length `L` matches exactly `L + 1`
/// times, once at each offset `0..=L`, in order, each match zero-width.
pub proof fn law_empty_pattern_matches_everywhere(t: Seq<char>)
    ensures
        parse_spec(Seq::empty()) == Ok::<Regex, SyntaxError>(Regex::Empty),
        all_matches(Regex::Empty, t) =~= Seq::new(t.len() + 1, |i: int| (i as nat, i as nat)),
{
    lemma_empty_matches_from(t, 0);
    assert(scan(Seq::empty()) == Ok::<Seq<Token>, SyntaxError>(Seq::empty()));
    let ts = Seq::<Token>::empty();
    assert(branch_from(ts, 0, Seq::empty()) == Ok::<(Regex, nat), SyntaxError>(
        (Regex::Empty, 0nat),
    ));
    assert(Seq::<Regex>::empty().push(Regex::Empty).len() == 1);
    assert(alternation_of(Seq::<Regex>::empty().push(Regex::Empty)) == Regex::Empty);
    assert(alt_from(ts, 0, Seq::empty()) == Ok::<(Regex, nat), SyntaxError>(
        (Regex::Empty, 0nat),
    ));
}

proof fn lemma_segments_len(t: Seq<char>, ms: Seq<(nat, nat)>, from: nat)
    ensures
        segments(t, ms, from).len() == ms.len() + 1,
    decreases ms.len(),
{
    if ms.len() > 0 {
        lemma_segments_len(t, ms.drop_first(), ms[0].1);
    }
}

proof fn lemma_ordered_tail(ms: Seq<(nat, nat)>, from: nat, len: nat)
    requires
        ordered_within(ms, from, len),
        ms.len() > 0,
    ensures
        ordered_within(ms.drop_first(), ms[0].1, len),
{
    let rest = ms.drop_first();
    assert forall|i: int| 0 <= i < rest.len() implies ms[0].1 <= (#[trigger] rest[i]).0 <= rest[i].1 <= len by {
        assert(rest[i] == ms[i + 1]);
        if i > 0 {
            lemma_ordered_chain(ms, 0, i + 1, from, len);
        }
    }
    assert forall|i: int| 0 <= i < rest.len() - 1 implies (#[trigger] rest[i]).1 <= rest[i + 1].0 by {
        assert(rest[i] == ms[i + 1]);
        assert(rest[i + 1] == ms[i + 2]);
    }
}

proof fn lemma_ordered_chain(ms: Seq<(nat, nat)>, i: int, j: int, from: nat, len: nat)
    requires
        ordered_within(ms, from, len),
        0 <= i < j < ms.len(),
    ensures
        ms[i].1 <= ms[j].0,
    decreases j - i,
{
    if j > i + 1 {
        lemma_ordered_chain(ms, i, j - 1, from, len);
    }
}

/// Putting the matched texts back between the segments gives back the text.
proof fn lemma_interleave_segments(t: Seq<char>, ms: Seq<(nat, nat)>, from: nat)
    requires
        ordered_within(ms, from, t.len()),
        from <= t.len(),
    ensures
        interleave(segments(t, ms, from), matched_texts(t, ms)) == t.subrange(from as int, t.len() as int),
    decreases ms.len(),
{
    let segs = segments(t, ms, from);
    lemma_segments_len(t, ms, from);
    if ms.len() > 0 {
        let rest = ms.drop_first();
        lemma_ordered_tail(ms, from, t.len());
        lemma_interleave_segments(t, rest, ms[0].1);
        lemma_segments_len(t, rest, ms[0].1);
        assert(segs.drop_first() =~= segments(t, rest, ms[0].1));
        assert(matched_texts(t, ms).drop_first() =~= matched_texts(t, rest));
        assert(t.subrange(from as int, ms[0].0 as int) + t.subrange(ms[0].0 as int, ms[0].1 as int) + t.subrange(
            ms[0].1 as int,
            t.len() as int,
        ) =~= t.subrange(from as int, t.len() as int));
    }
}

/// Replacing the matches is putting the replacement between the segments.
proof fn lemma_substituted_interleaves(t: Seq<char>, ms: Seq<(nat, nat)>, from: nat, repl: Seq<char>)
    ensures
        substituted(t, ms, from, repl) == interleave(segments(t, ms, from), Seq::new(ms.len(), |i: int| repl)),
    decreases ms.len(),
{
    lemma_segments_len(t, ms, from);
    if ms.len() > 0 {
        let rest = ms.drop_first();
        lemma_substituted_interleaves(t, rest, ms[0].1, repl);
        lemma_segments_len(t, rest, ms[0].1);
        assert(segments(t, ms, from).drop_first() =~= segments(t, rest, ms[0].1));
        assert(Seq::new(ms.len(), |i: int| repl).drop_first() =~= Seq::new(rest.len(), |i: int| repl));
    }
}

proof fn lemma_first_n_ordered(ms: Seq<(nat, nat)>, n: nat, len: nat)
    requires
        ordered_within(ms, 0, len),
    ensures
        ordered_within(first_n(ms, n), 0, len),
{
    let f = first_n(ms, n);
    assert forall|i: int| 0 <= i < f.len() implies 0 <= (#[trigger] f[i]).0 <= f[i].1 <= len by {
        assert(f[i] == ms[i]);
    }
    assert forall|i: int| 0 <= i < f.len() - 1 implies (#[trigger] f[i]).1 <= f[i + 1].0 by {
        assert(f[i] == ms[i]);
        assert(f[i + 1] == ms[i + 1]);
    }
}

/// Splitting around the first `n` matches and putting each matched text
/// back between the pieces gives back the target exactly.
pub proof fn law_split_then_rejoin_is_identity(r: Regex, t: Seq<char>, n: nat)
    ensures
        interleave(split_spec(r, t, n), matched_texts(t, first_n(all_matches(r, t), n))) == t,
{
    lemma_matches_from_ordered(r, t, 0);
    lemma_first_n_ordered(all_matches(r, t), n, t.len());
    lemma_interleave_segments(t, first_n(all_matches(r, t), n), 0);
    assert(t.subrange(0, t.len() as int) =~= t);
}

/// Substituting the first `n` matches is splitting around them and joining
/// the pieces with the replacement.
pub proof fn law_substitute_is_joined_split(r: Regex, t: Seq<char>, repl: Seq<char>, n: nat)
    ensures
        substitute_spec(r, t, repl, n) == interleave(
            split_spec(r, t, n),
            Seq::new(first_n(all_matches(r, t), n).len(), |i: int| repl),
        ),
{
    lemma_substituted_interleaves(t, first_n(all_matches(r, t), n), 0, repl);
}

/// The nodes of a pattern that stands for the literal text `s`.
pub open spec fn literal_nodes(s: Seq<char>) -> Seq<Regex> {
    s.map_values(|c: char| Regex::Char(Some(c), Quantifier::Single))
}

proof fn lemma_scan_escaped(p: Seq<char>, i: nat, s: Seq<char>)
    requires
        i <= p.len(),
        p.subrange(i as int, p.len() as int) == escaped(s),
    ensures
        scan_from(p, i, Seq::empty()) matches Ok(ts) && ts.len() == s.len() && forall|k: int|
            0 <= k < s.len() ==> (#[trigger] ts[k]).token_type == (TokenType::Character { value: s[k] }),
    decreases s.len(),
{
    if s.len() == 0 {
        assert(p.subrange(i as int, p.len() as int).len() == 0);
    } else {
        let c = s[0];
        let rest = s.drop_first();
        let w = escaped_char(c).len();
        let x = p.subrange(i as int, p.len() as int);
        assert(x == escaped_char(c) + escaped(rest));
        assert(x.len() == w + escaped(rest).len());
        assert(p[i as int] == x[0]);
        if is_meta(c) {
            assert(p[i + 1int] == x[1]);
        }
        assert forall|k: int| 0 <= k < escaped(rest).len() implies p.subrange((i + w) as int, p.len() as int)[k]
            == escaped(rest)[k] by {
            assert(p.subrange((i + w) as int, p.len() as int)[k] == x[w + k]);
        }
        assert(lex_at(p, i) == Ok::<(TokenType, nat), SyntaxError>(
            (TokenType::Character { value: c }, i + w),
        ));
        assert(p.subrange((i + w) as int, p.len() as int) =~= escaped(rest));
        lemma_scan_escaped(p, i + w, rest);
        let ts = scan_from(p, i, Seq::empty())->Ok_0;
        let tail = scan_from(p, i + w, Seq::empty())->Ok_0;
        assert(ts == seq![Token { token_type: TokenType::Character { value: c }, position: i as usize }] + tail);
        assert forall|k: int| 0 <= k < s.len() implies (#[trigger] ts[k]).token_type == (TokenType::Character { value: s[k] }) by {
            if k > 0 {
                assert(ts[k] == tail[k - 1]);
                assert(s[k] == rest[k - 1]);
            }
        }
    }
}

proof fn lemma_branch_of_literal(ts: Seq<Token>, s: Seq<char>, k: nat, items: Seq<Regex>)
    requires
        ts.len() == s.len(),
        forall|j: int| 0 <= j < s.len() ==> (#[trigger] ts[j]).token_type == (TokenType::Character { value: s[j] }),
        k <= ts.len(),
    ensures
        branch_from(ts, k, items) == Ok::<(Regex, nat), SyntaxError>(
            (branch_of(items + literal_nodes(s).subrange(k as int, s.len() as int)), ts.len()),
        ),
    decreases ts.len() - k,
{
    let lits = literal_nodes(s);
    if k < ts.len() {
        assert(ts[k as int].token_type == (TokenType::Character { value: s[k as int] }));
        if k + 1 < ts.len() {
            assert(ts[k + 1int].token_type == (TokenType::Character { value: s[k + 1int] }));
        }
        assert(quantifier_at(ts, k + 1) == (Quantifier::Single, k + 1));
        assert(item_at(ts, k) == Ok::<(Regex, nat), SyntaxError>(
            (Regex::Char(Some(s[k as int]), Quantifier::Single), k + 1),
        ));
        lemma_branch_of_literal(ts, s, k + 1, items.push(lits[k as int]));
        assert(items.push(lits[k as int]) + lits.subrange(k + 1int, s.len() as int) =~= items + lits.subrange(
            k as int,
            s.len() as int,
        ));
    } else {
        assert(items + lits.subrange(k as int, s.len() as int) =~= items);
    }
}

/// An escaped text compiles to the literal nodes of the text.
proof fn lemma_parse_escaped(s: Seq<char>)
    ensures
        parse_spec(escaped(s)) == Ok::<Regex, SyntaxError>(branch_of(literal_nodes(s))),
{
    let p = escaped(s);
    assert(p.subrange(0, p.len() as int) =~= p);
    lemma_scan_escaped(p, 0, s);
    let ts = scan(p)->Ok_0;
    lemma_branch_of_literal(ts, s, 0, Seq::empty());
    assert(Seq::<Regex>::empty() + literal_nodes(s).subrange(0, s.len() as int) =~= literal_nodes(s));
    assert(seq![branch_of(literal_nodes(s))] == Seq::<Regex>::empty().push(branch_of(literal_nodes(s))));
    assert(alternation_of(seq![branch_of(literal_nodes(s))]) == branch_of(literal_nodes(s)));
}

proof fn lemma_cat_of_literal(s: Seq<char>, path: Seq<usize>, i: nat, t: Seq<char>, p: nat, cap: nat, tbl: Records)
    requires
        i <= s.len(),
        p <= cap <= t.len(),
    ensures
        cat_from(literal_nodes(s), path, i, t, p, cap, tbl).0 == (if p + (s.len() - i) <= cap && t.subrange(
            p as int,
            p + s.len() - i,
        ) == s.subrange(i as int, s.len() as int) {
            Some((p + s.len() - i) as nat)
        } else {
            None
        }),
    decreases s.len() - i,
{
    let lits = literal_nodes(s);
    let n = s.len();
    if i == n {
        assert(t.subrange(p as int, p as int) =~= s.subrange(i as int, n as int));
    } else {
        assert(lits[i as int] == Regex::Char(Some(s[i as int]), Quantifier::Single));
        assert(cat_from(lits, path, i, t, p, cap, tbl) == cat_try(lits, path, i, t, p, cap, tbl, cap + 1));
        assert(!backtrackable(lits[i as int]));
        let cp = path.push(i as usize);
        if p < cap && p < t.len() && t[p as int] == s[i as int] {
            assert(node_match(lits[i as int], cp, false, t, p, cap, tbl) == (Some((p + 1) as nat), tbl));
            lemma_cat_of_literal(s, path, i + 1, t, p + 1, cap, tbl);
            if p + (n - i) <= cap {
                if t.subrange(p as int, p + n - i) == s.subrange(i as int, n as int) {
                    assert(t.subrange(p + 1int, p + n - i) =~= t.subrange(p as int, p + n - i).drop_first());
                    assert(s.subrange(i + 1int, n as int) =~= s.subrange(i as int, n as int).drop_first());
                } else {
                    if t.subrange(p + 1int, p + n - i) == s.subrange(i + 1int, n as int) {
                        assert(t.subrange(p as int, p + n - i) =~= s.subrange(i as int, n as int)) by {
                            assert forall|k: int| 0 <= k < n - i implies t.subrange(p as int, p + n - i)[k]
                                == s.subrange(i as int, n as int)[k] by {
                                if k > 0 {
                                    assert(t.subrange(p as int, p + n - i)[k] == t.subrange(p + 1int, p + n - i)[k - 1]);
                                    assert(s.subrange(i as int, n as int)[k] == s.subrange(i + 1int, n as int)[k - 1]);
                                }
                            }
                        }
                    }
                }
            }
        } else {
            assert(node_match(lits[i as int], cp, false, t, p, cap, tbl).0 is None);
            if p + (n - i) <= cap {
                assert(t.subrange(p as int, p + n - i)[0] != s.subrange(i as int, n as int)[0]);
            }
        }
    }
}

proof fn lemma_literal_match(s: Seq<char>, t: Seq<char>)
    ensures
        node_match(branch_of(literal_nodes(s)), Seq::empty(), false, t, 0, t.len(), Seq::empty()).0 == (if s.len() <= t.len() && t.subrange(
            0,
            s.len() as int,
        ) == s {
            Some(s.len())
        } else {
            None
        }),
{
    let lits = literal_nodes(s);
    if s.len() == 0 {
        assert(t.subrange(0, 0) =~= s);
    } else if s.len() == 1 {
        assert(lits[0] == Regex::Char(Some(s[0]), Quantifier::Single));
        if 0 < t.len() && t[0] == s[0] {
            assert(t.subrange(0, 1) =~= s);
        } else if s.len() <= t.len() {
            assert(t.subrange(0, 1)[0] != s[0]);
        }
    } else {
        lemma_cat_of_literal(s, Seq::empty(), 0, t, 0, t.len(), Seq::empty());
        assert(s.subrange(0, s.len() as int) =~= s);
    }
}

/// An escaped text, used as a pattern, matches the whole of a target
/// exactly when the target is that text: never, for instance, when one
/// character has been inserted into it.
pub proof fn law_escape_round_trip(s: Seq<char>, t: Seq<char>)
    ensures
        parse_spec(escaped(s)) is Ok,
        first_match(parse_spec(escaped(s))->Ok_0, t, 0) == Some((0nat, t.len())) <==> t == s,
{
    lemma_parse_escaped(s);
    let r = branch_of(literal_nodes(s));
    lemma_literal_match(s, t);
    if node_match(r, Seq::empty(), false, t, 0, t.len(), Seq::empty()).0 is None && 0 < t.len() {
        lemma_first_match_bounds(r, t, 1);
    }
    if t == s {
        assert(t.subrange(0, s.len() as int) =~= s);
    }
    if s.len() <= t.len() && t.subrange(0, s.len() as int) == s && s.len() == t.len() {
        assert(t =~= s);
    }
}

} // verus!
