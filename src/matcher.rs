//! The matcher: a lazy, non-overlapping sequence of matches of a pattern over
//! a target, and the operations built on it.
use vstd::prelude::*;
use vstd::slice::slice_subrange;
use crate::engine::eval;
use crate::parser::{parse, parse_spec};
use crate::scanner::{error_text, is_meta, is_meta_exec, SyntaxError};
use crate::semantics::{
    all_matches, first_match, first_n, lemma_first_match_bounds, lemma_first_match_earlier,
    lemma_first_match_from_between, lemma_matches_from_ordered, lemma_step_along, matches_from,
    next_step, ordered_within, segments, split_spec, substitute_spec, substituted,
};
use crate::syntax::{well_formed, Expr, Regex};
use crate::text::{chars_of, push_range, string_of};

verus! {

/// `s` with a backslash before each metacharacter, so that it reads as the
/// literal text `s` inside a pattern.
pub open spec fn escaped(s: Seq<char>) -> Seq<char>
    decreases s.len(),
{
    if s.len() == 0 {
        Seq::empty()
    } else {
        escaped_char(s[0]) + escaped(s.drop_first())
    }
}

/// One character as it is written in a pattern to stand for itself.
pub open spec fn escaped_char(c: char) -> Seq<char> {
    if is_meta(c) {
        seq!['\\', c]
    } else {
        seq![c]
    }
}

/// Escaping text piece by piece escapes the whole.
pub proof fn lemma_escaped_append(a: Seq<char>, b: Seq<char>)
    ensures
        escaped(a + b) == escaped(a) + escaped(b),
    decreases a.len(),
{
    if a.len() == 0 {
        assert(a + b =~= b);
    } else {
        assert((a + b).drop_first() =~= a.drop_first() + b);
        lemma_escaped_append(a.drop_first(), b);
        assert(escaped(a) + escaped(b) =~= escaped_char(a[0]) + (escaped(a.drop_first()) + escaped(b)));
    }
}

/// Escapes every metacharacter of `pattern`, so that the result, used as a
/// pattern, matches exactly the text `pattern`.
pub fn escape(pattern: &str) -> (r: String)
    ensures
        r@ == escaped(pattern@),
{
    let source = chars_of(pattern);
    let mut out: Vec<char> = Vec::new();
    let mut i: usize = 0;
    proof {
        assert(source@.take(0) =~= Seq::<char>::empty());
    }
    while i < source.len()
        invariant
            i <= source.len(),
            source@ == pattern@,
            out@ == escaped(source@.take(i as int)),
        decreases source.len() - i,
    {
        let c = source[i];
        let ghost before = out@;
        if is_meta_exec(c) {
            out.push('\\');
        }
        out.push(c);
        proof {
            assert(source@.take(i + 1) =~= source@.take(i as int) + seq![c]);
            lemma_escaped_append(source@.take(i as int), seq![c]);
            assert(seq![c].drop_first() =~= Seq::<char>::empty());
            assert(escaped(Seq::<char>::empty()) == Seq::<char>::empty());
            assert(seq![c][0] == c);
            assert(escaped(seq![c]) =~= escaped_char(c));
            assert(out@ =~= before + escaped_char(c));
        }
        i += 1;
    }
    proof {
        assert(source@.take(source.len() as int) =~= source@);
    }
    string_of(out.as_slice())
}

/// A match: the half-open range `start..end` of the target; zero-width when
/// `start == end`.
#[derive(Clone, Copy, Debug, PartialEq, Eq, Structural)]
pub struct Match {
    pub start: usize,
    pub end: usize,
}

impl Match {
    /// The range as `(start, end)`.
    pub open spec fn pair(self) -> (nat, nat) {
        (self.start as nat, self.end as nat)
    }
}

/// A match, if any, as `(start, end)`.
pub open spec fn opt_pair(m: Option<Match>) -> Option<(nat, nat)> {
    match m {
        Some(m) => Some(m.pair()),
        None => None,
    }
}

/// Where the match sequence stands.
#[derive(Clone, Copy, Debug, PartialEq, Eq, Structural)]
pub enum MatchPhase {
    /// Offsets before the end of the target are still to be searched.
    Normal,
    /// Only the end of the target is left: an empty match there may still be owed.
    TrailingEmptyString,
    /// No more matches.
    Finished,
}

/// The phase of the sequence with its cursor at `pos` in a target of length `len`.
pub open spec fn phase_of(pos: nat, len: nat) -> MatchPhase {
    if pos < len {
        MatchPhase::Normal
    } else if pos == len {
        MatchPhase::TrailingEmptyString
    } else {
        MatchPhase::Finished
    }
}

fn phase_for(pos: usize, len: usize) -> (r: MatchPhase)
    ensures
        r == phase_of(pos as nat, len as nat),
{
    if pos < len {
        MatchPhase::Normal
    } else if pos == len {
        MatchPhase::TrailingEmptyString
    } else {
        MatchPhase::Finished
    }
}

/// A match already computed: the search that began at `from` found `found` first.
#[derive(Clone, Copy, Debug)]
struct CachedMatch {
    from: usize,
    found: Match,
}

/// Runs a compiled pattern over a target. The matches found so far are kept,
/// so that asking again from an earlier cursor does not search again; all
/// backtracking state lives in the interpreter's own calls and is gone when a
/// search ends.
pub struct Matcher {
    pattern: Expr,
    target: Vec<char>,
    pos: usize,
    next_match_phase: MatchPhase,
    match_cache: Vec<CachedMatch>,
}

impl Matcher {
    /// The model of the pattern.
    pub closed spec fn regex(&self) -> Regex {
        self.pattern@
    }

    /// The characters of the target.
    pub closed spec fn target_seq(&self) -> Seq<char> {
        self.target@
    }

    /// The cursor: where the next search begins.
    pub closed spec fn cursor(&self) -> nat {
        self.pos as nat
    }

    /// Where the match sequence stands.
    pub closed spec fn phase(&self) -> MatchPhase {
        self.next_match_phase
    }

    /// The invariant: the target's length leaves room for one more offset,
    /// the phase follows from the cursor, and every cached match is the one
    /// that a search from the cursor it was found from finds first.
    pub closed spec fn wf(&self) -> bool {
        &&& self.target.len() < usize::MAX
        &&& self.next_match_phase == phase_of(self.pos as nat, self.target.len() as nat)
        &&& forall|k: int|
            0 <= k < self.match_cache.len() ==> {
                let c = #[trigger] self.match_cache@[k];
                &&& c.from <= c.found.start
                &&& first_match(self.pattern@, self.target@, c.from as nat) == Some(c.found.pair())
            }
    }

    fn from_parts(pattern: Expr, target: Vec<char>) -> (m: Matcher)
        requires
            target.len() < usize::MAX,
        ensures
            m.wf(),
            m.regex() == pattern@,
            m.target_seq() == target@,
            m.cursor() == 0,
    {
        let phase = phase_for(0, target.len());
        Matcher { pattern, target, pos: 0, next_match_phase: phase, match_cache: Vec::new() }
    }

    /// A matcher of `pattern` over `target`, with its cursor at 0; the
    /// message of the syntax error when `pattern` is malformed.
    pub fn new(pattern: &str, target: &str) -> (r: Result<Matcher, String>)
        ensures
            match r {
                Ok(m) => {
                    &&& parse_spec(pattern@) == Ok::<Regex, SyntaxError>(m.regex())
                    &&& well_formed(m.regex())
                    &&& m.wf()
                    &&& m.target_seq() == target@
                    &&& m.cursor() == 0
                },
                Err(msg) => parse_spec(pattern@) is Err && msg@ == error_text(
                    parse_spec(pattern@)->Err_0,
                    pattern@,
                ),
            },
    {
        match parse(pattern) {
            Err(e) => Err(e.message(pattern)),
            Ok(expr) => Ok(Matcher::from_parts(expr, chars_of(target))),
        }
    }

    /// Replaces the target; forgets the matches found so far and moves the cursor to 0.
    pub fn assign_match_target(&mut self, target: &str)
        requires
            old(self).wf(),
        ensures
            final(self).wf(),
            final(self).regex() == old(self).regex(),
            final(self).target_seq() == target@,
            final(self).cursor() == 0,
    {
        self.target = chars_of(target);
        self.match_cache.clear();
        self.pos = 0;
        self.next_match_phase = phase_for(0, self.target.len());
    }

    /// Replaces the pattern with the one `pattern` compiles to; forgets the
    /// matches found so far and moves the cursor to 0. A malformed pattern
    /// changes nothing and gives the message of its syntax error.
    pub fn assign_pattern_string(&mut self, pattern: &str) -> (r: Result<(), String>)
        requires
            old(self).wf(),
        ensures
            final(self).wf(),
            final(self).target_seq() == old(self).target_seq(),
            match r {
                Ok(()) => {
                    &&& parse_spec(pattern@) == Ok::<Regex, SyntaxError>(final(self).regex())
                    &&& well_formed(final(self).regex())
                    &&& final(self).cursor() == 0
                },
                Err(msg) => {
                    &&& parse_spec(pattern@) is Err
                    &&& msg@ == error_text(parse_spec(pattern@)->Err_0, pattern@)
                    &&& final(self).regex() == old(self).regex()
                    &&& final(self).cursor() == old(self).cursor()
                },
            },
    {
        match parse(pattern) {
            Err(e) => Err(e.message(pattern)),
            Ok(expr) => {
                self.pattern = expr;
                self.match_cache.clear();
                self.reset();
                Ok(())
            },
        }
    }

    /// Replaces the pattern with a copy of the tree `regexp`; forgets the
    /// matches found so far and moves the cursor to 0.
    pub fn assign_pattern_regexp(&mut self, regexp: &Expr)
        requires
            old(self).wf(),
        ensures
            final(self).wf(),
            final(self).regex() == regexp@,
            final(self).target_seq() == old(self).target_seq(),
            final(self).cursor() == 0,
    {
        self.pattern = regexp.deep_copy();
        self.match_cache.clear();
        self.reset();
    }

    /// Moves the cursor to `position` and sets the phase to match.
    pub fn seek(&mut self, position: usize)
        requires
            old(self).wf(),
        ensures
            final(self).wf(),
            final(self).regex() == old(self).regex(),
            final(self).target_seq() == old(self).target_seq(),
            final(self).cursor() == position,
            final(self).phase() == phase_of(position as nat, final(self).target_seq().len()),
    {
        self.pos = position;
        self.next_match_phase = phase_for(position, self.target.len());
    }

    /// Moves the cursor back to the start of the target.
    pub fn reset(&mut self)
        requires
            old(self).wf(),
        ensures
            final(self).wf(),
            final(self).regex() == old(self).regex(),
            final(self).target_seq() == old(self).target_seq(),
            final(self).cursor() == 0,
    {
        self.seek(0);
    }

    /// The first match at or after `p`, from the cache where it holds one.
    fn find_from(&mut self, p: usize) -> (r: Option<Match>)
        requires
            old(self).wf(),
            p <= old(self).target.len(),
        ensures
            final(self).wf(),
            final(self).pattern@ == old(self).pattern@,
            final(self).target@ == old(self).target@,
            final(self).pos == old(self).pos,
            opt_pair(r) == first_match(old(self).pattern@, old(self).target@, p as nat),
    {
        let mut k: usize = 0;
        while k < self.match_cache.len()
            invariant
                self.wf(),
                p <= self.target.len(),
                self.pattern@ == old(self).pattern@,
                self.target@ == old(self).target@,
                self.pos == old(self).pos,
            decreases self.match_cache.len() - k,
        {
            let c = self.match_cache[k];
            if c.from <= p && p <= c.found.start {
                proof {
                    assert(self.match_cache@[k as int] == c);
                    lemma_first_match_from_between(self.pattern@, self.target@, c.from as nat, p as nat);
                }
                return Some(c.found);
            }
            k += 1;
        }
        let len = self.target.len();
        let mut q = p;
        loop
            invariant
                self.wf(),
                p <= q <= len == self.target.len(),
                self.pattern@ == old(self).pattern@,
                self.target@ == old(self).target@,
                self.pos == old(self).pos,
                first_match(self.pattern@, self.target@, q as nat) == first_match(
                    self.pattern@,
                    self.target@,
                    p as nat,
                ),
            decreases len - q,
        {
            match eval(&self.pattern, &self.target, q, len) {
                Some(end) => {
                    let found = Match { start: q, end };
                    proof {
                        lemma_first_match_bounds(self.pattern@, self.target@, q as nat);
                    }
                    let mut at: usize = 0;
                    while at < self.match_cache.len() && self.match_cache[at].found.start <= q
                        invariant
                            0 <= at <= self.match_cache.len(),
                        decreases self.match_cache.len() - at,
                    {
                        at += 1;
                    }
                    let entry = CachedMatch { from: p, found };
                    let ghost old_cache = self.match_cache@;
                    self.match_cache.insert(at, entry);
                    proof {
                        assert forall|k: int| 0 <= k < self.match_cache.len() implies {
                            let c = #[trigger] self.match_cache@[k];
                            &&& c.from <= c.found.start
                            &&& first_match(self.pattern@, self.target@, c.from as nat) == Some(c.found.pair())
                        } by {
                            if k < at {
                                assert(self.match_cache@[k] == old_cache[k]);
                            } else if k > at {
                                assert(self.match_cache@[k] == old_cache[k - 1]);
                            }
                        }
                    }
                    return Some(found);
                },
                None => {
                    if q == len {
                        return None;
                    }
                    q += 1;
                },
            }
        }
    }

    /// The next match of the sequence, or `None` once it is exhausted.
    pub fn next(&mut self) -> (r: Option<Match>)
        requires
            old(self).wf(),
        ensures
            final(self).wf(),
            final(self).regex() == old(self).regex(),
            final(self).target_seq() == old(self).target_seq(),
            opt_pair(r) == next_step(old(self).regex(), old(self).target_seq(), old(self).cursor()).0,
            final(self).cursor() == next_step(old(self).regex(), old(self).target_seq(), old(self).cursor()).1,
            final(self).phase() == phase_of(final(self).cursor(), final(self).target_seq().len()),
    {
        let len = self.target.len();
        if self.pos > len {
            return None;
        }
        let p = self.pos;
        match self.find_from(p) {
            None => {
                self.seek(len + 1);
                None
            },
            Some(m) => {
                proof {
                    lemma_first_match_bounds(self.pattern@, self.target@, p as nat);
                }
                if m.start == m.end {
                    self.seek(m.end + 1);
                } else {
                    self.seek(m.end);
                }
                Some(m)
            },
        }
    }
}

impl Matcher {
    /// Whether the pattern matches anywhere in the target. The sequence goes
    /// on from the cursor; when it is exhausted it starts again from 0.
    pub fn is_matching(&mut self) -> (r: bool)
        requires
            old(self).wf(),
        ensures
            final(self).wf(),
            final(self).regex() == old(self).regex(),
            final(self).target_seq() == old(self).target_seq(),
            r == first_match(old(self).regex(), old(self).target_seq(), 0) is Some,
            final(self).cursor() == (if next_step(old(self).regex(), old(self).target_seq(), old(self).cursor()).0 is Some {
                next_step(old(self).regex(), old(self).target_seq(), old(self).cursor()).1
            } else {
                next_step(old(self).regex(), old(self).target_seq(), 0).1
            }),
    {
        match self.next() {
            Some(_) => {
                proof {
                    lemma_first_match_earlier(self.pattern@, self.target@, 0, old(self).pos as nat);
                }
                true
            },
            None => {
                self.reset();
                self.next().is_some()
            },
        }
    }

    /// Whether the first match from offset 0 covers the whole target.
    pub fn fullmatch(&mut self) -> (r: bool)
        requires
            old(self).wf(),
        ensures
            final(self).wf(),
            final(self).regex() == old(self).regex(),
            final(self).target_seq() == old(self).target_seq(),
            r == (first_match(old(self).regex(), old(self).target_seq(), 0) == Some(
                (0nat, old(self).target_seq().len()),
            )),
    {
        self.reset();
        match self.next() {
            Some(m) => m.start == 0 && m.end == self.target.len(),
            None => false,
        }
    }

    /// The target split around its first `splits_count` matches, from offset 0.
    pub fn splitn(&mut self, splits_count: usize) -> (r: Vec<String>)
        requires
            old(self).wf(),
        ensures
            final(self).wf(),
            final(self).regex() == old(self).regex(),
            final(self).target_seq() == old(self).target_seq(),
            r@.map_values(|s: String| s@) == split_spec(
                old(self).regex(),
                old(self).target_seq(),
                splits_count as nat,
            ),
    {
        let mut splits: Vec<String> = Vec::new();
        self.reset();
        let ghost r = self.pattern@;
        let ghost t = self.target@;
        let ghost all = all_matches(r, t);
        let ghost ms = first_n(all, splits_count as nat);
        proof {
            lemma_matches_from_ordered(r, t, 0);
            assert(all.subrange(0, all.len() as int) == all);
            assert(ms.subrange(0, ms.len() as int) == ms);
        }
        let mut prev: usize = 0;
        let mut k: usize = 0;
        while k < splits_count
            invariant
                self.wf(),
                self.pattern@ == r,
                self.target@ == t,
                all == all_matches(r, t),
                ms == first_n(all, splits_count as nat),
                ordered_within(all, 0, t.len()),
                k <= splits_count,
                k <= ms.len(),
                ms.len() <= all.len(),
                forall|i: int| 0 <= i < ms.len() ==> ms[i] == all[i],
                matches_from(r, t, self.pos as nat) == all.subrange(k as int, all.len() as int),
                prev <= t.len(),
                k == 0 ==> prev == 0,
                k > 0 ==> prev == all[k - 1].1,
                splits@.map_values(|s: String| s@) + segments(t, ms.subrange(k as int, ms.len() as int), prev as nat)
                    == segments(t, ms, 0),
                self.pos > t.len() ==> k >= all.len(),
            ensures
                k == splits_count || self.pos > t.len(),
            decreases splits_count - k,
        {
            proof {
                lemma_step_along(r, t, all, k as nat, self.pos as nat);
            }
            let ghost rest = ms.subrange(k as int, ms.len() as int);
            match self.next() {
                None => {
                    break;
                },
                Some(m) => {
                    assert(k < ms.len());
                    let piece = slice_subrange(self.target.as_slice(), prev, m.start);
                    let seg = string_of(piece);
                    let ghost before = splits@.map_values(|s: String| s@);
                    splits.push(seg);
                    proof {
                        assert(splits@.map_values(|s: String| s@) =~= before.push(seg@));
                        assert(rest[0] == ms[k as int]);
                        assert(rest.drop_first() =~= ms.subrange(k + 1, ms.len() as int));
                        assert(segments(t, rest, prev as nat) == seq![seg@] + segments(
                            t,
                            rest.drop_first(),
                            m.end as nat,
                        ));
                        assert(before.push(seg@) + segments(t, rest.drop_first(), m.end as nat) =~= before
                            + (seq![seg@] + segments(t, rest.drop_first(), m.end as nat)));
                    }
                    prev = m.end;
                    k += 1;
                },
            }
        }
        proof {
            assert(ms.subrange(k as int, ms.len() as int).len() == 0);
        }
        let tail = string_of(slice_subrange(self.target.as_slice(), prev, self.target.len()));
        let ghost before = splits@.map_values(|s: String| s@);
        splits.push(tail);
        proof {
            assert(splits@.map_values(|s: String| s@) =~= before.push(tail@));
            assert(before + seq![tail@] =~= before.push(tail@));
        }
        splits
    }

    /// The whole target split around every match, from offset 0.
    pub fn split(&mut self) -> (r: Vec<String>)
        requires
            old(self).wf(),
        ensures
            final(self).wf(),
            final(self).regex() == old(self).regex(),
            final(self).target_seq() == old(self).target_seq(),
            r@.map_values(|s: String| s@) == split_spec(
                old(self).regex(),
                old(self).target_seq(),
                (old(self).target_seq().len() + 1) as nat,
            ),
    {
        let n = self.target.len() + 1;
        self.splitn(n)
    }

    /// The target with its first `subs_count` matches, from offset 0,
    /// replaced by `repl`.
    pub fn subn(&mut self, repl: &str, subs_count: usize) -> (r: String)
        requires
            old(self).wf(),
        ensures
            final(self).wf(),
            final(self).regex() == old(self).regex(),
            final(self).target_seq() == old(self).target_seq(),
            r@ == substitute_spec(old(self).regex(), old(self).target_seq(), repl@, subs_count as nat),
    {
        let replacement = chars_of(repl);
        self.reset();
        let ghost r = self.pattern@;
        let ghost t = self.target@;
        let ghost all = all_matches(r, t);
        let ghost ms = first_n(all, subs_count as nat);
        proof {
            lemma_matches_from_ordered(r, t, 0);
            assert(all.subrange(0, all.len() as int) == all);
            assert(ms.subrange(0, ms.len() as int) == ms);
        }
        let mut out: Vec<char> = Vec::new();
        let mut prev: usize = 0;
        let mut k: usize = 0;
        while k < subs_count
            invariant
                self.wf(),
                self.pattern@ == r,
                self.target@ == t,
                replacement@ == repl@,
                all == all_matches(r, t),
                ms == first_n(all, subs_count as nat),
                ordered_within(all, 0, t.len()),
                k <= subs_count,
                k <= ms.len(),
                ms.len() <= all.len(),
                forall|i: int| 0 <= i < ms.len() ==> ms[i] == all[i],
                matches_from(r, t, self.pos as nat) == all.subrange(k as int, all.len() as int),
                prev <= t.len(),
                k == 0 ==> prev == 0,
                k > 0 ==> prev == all[k - 1].1,
                out@ + substituted(t, ms.subrange(k as int, ms.len() as int), prev as nat, repl@)
                    == substituted(t, ms, 0, repl@),
                self.pos > t.len() ==> k >= all.len(),
            ensures
                k == subs_count || self.pos > t.len(),
            decreases subs_count - k,
        {
            proof {
                lemma_step_along(r, t, all, k as nat, self.pos as nat);
            }
            let ghost rest = ms.subrange(k as int, ms.len() as int);
            match self.next() {
                None => {
                    break;
                },
                Some(m) => {
                    let ghost before = out@;
                    push_range(&mut out, &self.target, prev, m.start);
                    push_range(&mut out, &replacement, 0, replacement.len());
                    proof {
                        assert(replacement@.subrange(0, replacement.len() as int) == repl@);
                        assert(rest[0] == ms[k as int]);
                        assert(rest.drop_first() =~= ms.subrange(k + 1, ms.len() as int));
                        let piece = t.subrange(prev as int, m.start as int);
                        let later = substituted(t, rest.drop_first(), m.end as nat, repl@);
                        assert(substituted(t, rest, prev as nat, repl@) == piece + repl@ + later);
                        assert(out@ == before + piece + repl@);
                        assert(before + (piece + repl@ + later) =~= out@ + later);
                    }
                    prev = m.end;
                    k += 1;
                },
            }
        }
        proof {
            assert(ms.subrange(k as int, ms.len() as int).len() == 0);
        }
        push_range(&mut out, &self.target, prev, self.target.len());
        string_of(out.as_slice())
    }

    /// The target with every match, from offset 0, replaced by `repl`.
    pub fn sub(&mut self, repl: &str) -> (r: String)
        requires
            old(self).wf(),
        ensures
            final(self).wf(),
            final(self).regex() == old(self).regex(),
            final(self).target_seq() == old(self).target_seq(),
            r@ == substitute_spec(
                old(self).regex(),
                old(self).target_seq(),
                repl@,
                (old(self).target_seq().len() + 1) as nat,
            ),
    {
        let n = self.target.len() + 1;
        self.subn(repl, n)
    }
}

} // verus!
