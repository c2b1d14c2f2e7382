//! Ordering-constraint resolver.
//!
//! A rule `(a, b)` demands that `a` appear before `b` in a sequence.
//! `check_manual` decides validity, `fix_manual` relocates offending items
//! until the sequence is valid, and `middle_value` extracts the element used
//! for scoring.

use vstd::prelude::*;

verus! {

use vstd::multiset::Multiset;
use vstd::pervasive::unreached;
use crate::parse::{split_by, split_chars, parses_usize, digits_value, parse_usize, chars_of};

broadcast use {
    vstd::seq_lib::group_to_multiset_ensures,
    vstd::seq_lib::to_multiset_insert,
    vstd::seq_lib::to_multiset_remove,
    vstd::multiset::group_multiset_axioms,
};

/// The ASCII whitespace characters used to delimit tokens.
pub open spec fn ws_chars() -> Seq<char> {
    seq![' ', '\t', '\n', '\u{c}', '\r']
}

fn ws_seps() -> (r: Vec<char>)
    ensures
        r@ == ws_chars(),
{
    let mut r: Vec<char> = Vec::new();
    r.push(' ');
    r.push('\t');
    r.push('\n');
    r.push('\u{c}');
    r.push('\r');
    proof {
        assert(r@ =~= ws_chars());
    }
    r
}

/// The rule a well-formed token `a|b` denotes, if any.
pub open spec fn rule_of_token(t: Seq<char>) -> Option<(usize, usize)> {
    let parts = split_by(t, seq!['|']);
    if parts.len() == 2 && parses_usize(parts[0]) && parses_usize(parts[1]) {
        Some(((digits_value(parts[0]) as usize), (digits_value(parts[1]) as usize)))
    } else {
        None
    }
}

/// The rules denoted by a sequence of tokens; malformed tokens are skipped.
pub open spec fn rules_of_tokens(ts: Seq<Seq<char>>) -> Seq<(usize, usize)>
    decreases ts.len(),
{
    if ts.len() == 0 {
        Seq::empty()
    } else {
        rules_of_tokens(ts.drop_last()) + match rule_of_token(ts.last()) {
            Some(p) => seq![p],
            None => Seq::empty(),
        }
    }
}

/// The rules denoted by a whole rules block.
pub open spec fn rules_of_text(s: Seq<char>) -> Seq<(usize, usize)> {
    rules_of_tokens(split_by(s, ws_chars()))
}

/// A sequence satisfies a rule set when no rule's two items occur in the
/// reversed order.
pub open spec fn valid_sequence(m: Seq<usize>, rules: Seq<(usize, usize)>) -> bool {
    forall|i: int, j: int|
        0 <= i < j < m.len() ==> !rules.contains((m[j as int], m[i as int]))
}

/// A pairwise ordering rule set.
pub struct RuleMap {
    rules: Vec<(usize, usize)>,
}

impl View for RuleMap {
    type V = Seq<(usize, usize)>;

    closed spec fn view(&self) -> Seq<(usize, usize)> {
        self.rules@
    }
}

impl RuleMap {
    /// Parses a whitespace-separated block of `a|b` tokens; malformed tokens
    /// are skipped silently.
    pub fn new(rule_str: &str) -> (rm: RuleMap)
        ensures
            rm@ == rules_of_text(rule_str@),
    {
        let cs = chars_of(rule_str);
        let seps = ws_seps();
        let tokens = split_chars(&cs, &seps);
        let mut rules: Vec<(usize, usize)> = Vec::new();
        let mut bar: Vec<char> = Vec::new();
        bar.push('|');
        proof {
            assert(bar@ =~= seq!['|']);
        }
        let ghost toks = tokens.deep_view();
        let mut i: usize = 0;
        while i < tokens.len()
            invariant
                toks == tokens.deep_view(),
                tokens@.len() == toks.len(),
                bar@ =~= seq!['|'],
                0 <= i <= toks.len(),
                rules@ == rules_of_tokens(toks.take(i as int)),
            decreases toks.len() - i,
        {
            let parts = split_chars(&tokens[i], &bar);
            proof {
                assert(toks[i as int] == tokens@[i as int].deep_view());
                assert(tokens@[i as int].deep_view() == tokens@[i as int]@);
                assert(parts.deep_view() == split_by(toks[i as int], seq!['|']));
            }
            if parts.len() == 2 {
                let a = parse_usize(&parts[0]);
                let b = parse_usize(&parts[1]);
                proof {
                    assert(parts.deep_view()[0] == parts@[0]@);
                    assert(parts.deep_view()[1] == parts@[1]@);
                }
                if let (Some(ia), Some(ib)) = (a, b) {
                    rules.push((ia, ib));
                }
            }
            proof {
                assert(toks.take(i + 1 as int).drop_last() =~= toks.take(i as int));
                assert(toks.take(i + 1 as int).last() == toks[i as int]);
            }
            i += 1;
        }
        proof {
            assert(toks.take(toks.len() as int) =~= toks);
        }
        RuleMap { rules }
    }

    /// True when the rule set holds the rule `(a, b)`.
    pub fn contains_rule(&self, a: usize, b: usize) -> (r: bool)
        ensures
            r == self@.contains((a, b)),
    {
        let mut k: usize = 0;
        while k < self.rules.len()
            invariant
                0 <= k <= self.rules@.len(),
                forall|j: int| 0 <= j < k ==> self.rules@[j] != (a, b),
            decreases self.rules@.len() - k,
        {
            let (x, y) = self.rules[k];
            if x == a && y == b {
                return true;
            }
            k += 1;
        }
        false
    }

    /// Number of rules held.
    pub fn len(&self) -> (n: usize)
        ensures
            n == self@.len(),
    {
        self.rules.len()
    }
}

/// Decides whether `manual` satisfies every applicable rule.
pub fn check_manual(manual: &Vec<usize>, rulemap: &RuleMap) -> (r: bool)
    ensures
        r == valid_sequence(manual@, rulemap@),
{
    let mut j: usize = 0;
    while j < manual.len()
        invariant
            0 <= j <= manual@.len(),
            forall|x: int, y: int|
                0 <= x < y < j ==> !rulemap@.contains((manual@[y as int], manual@[x as int])),
        decreases manual@.len() - j,
    {
        let mut i: usize = 0;
        while i < j
            invariant
                0 <= i <= j < manual@.len(),
                forall|x: int| 0 <= x < i ==> !rulemap@.contains((manual@[j as int], manual@[x as int])),
            decreases j - i,
        {
            if rulemap.contains_rule(manual[j], manual[i]) {
                return false;
            }
            i += 1;
        }
        j += 1;
    }
    true
}

/// The scoring element: the value at index `(len - 1) / 2`.
pub fn middle_value(manual: &Vec<usize>) -> (r: usize)
    requires
        manual@.len() > 0,
    ensures
        r == manual@[(manual@.len() - 1) as int / 2],
{
    manual[(manual.len() - 1) / 2]
}

/// An ordered container of the items being repaired.
pub struct IndexValueMap {
    values: Vec<usize>,
}

impl View for IndexValueMap {
    type V = Seq<usize>;

    closed spec fn view(&self) -> Seq<usize> {
        self.values@
    }
}

impl IndexValueMap {
    /// Wraps a sequence of items in their given order.
    pub fn new(elements: Vec<usize>) -> (r: IndexValueMap)
        ensures
            r@ == elements@,
    {
        IndexValueMap { values: elements }
    }

    /// Relocates the element at `from_idx` so that it sits at `to_idx`,
    /// shifting the elements in between.
    pub fn move_element(&mut self, from_idx: usize, to_idx: usize)
        requires
            from_idx < old(self)@.len(),
            to_idx < old(self)@.len(),
        ensures
            final(self)@ == old(self)@.remove(from_idx as int).insert(to_idx as int, old(self)@[from_idx as int]),
            final(self)@.len() == old(self)@.len(),
            final(self)@.to_multiset() == old(self)@.to_multiset(),
    {
        let v = self.values.remove(from_idx);
        self.values.insert(to_idx, v);
    }

    /// The items in their current order.
    pub fn get_elements(&self) -> (r: Vec<usize>)
        ensures
            r@ == self@,
    {
        let mut r: Vec<usize> = Vec::new();
        let mut i: usize = 0;
        while i < self.values.len()
            invariant
                0 <= i <= self.values@.len(),
                r@ == self.values@.take(i as int),
            decreases self.values@.len() - i,
        {
            r.push(self.values[i]);
            proof {
                assert(r@ =~= self.values@.take(i + 1 as int));
            }
            i += 1;
        }
        proof {
            assert(self.values@.take(self.values@.len() as int) =~= self.values@);
        }
        r
    }

    /// Index of the first occurrence of `value`, if present.
    pub fn index_of(&self, value: usize) -> (r: Option<usize>)
        ensures
            r matches Some(i) ==> i < self@.len() && self@[i as int] == value && (forall|j: int|
                0 <= j < i ==> self@[j] != value),
            r is None ==> !self@.contains(value),
    {
        let mut k: usize = 0;
        while k < self.values.len()
            invariant
                0 <= k <= self.values@.len(),
                forall|j: int| 0 <= j < k ==> self.values@[j] != value,
            decreases self.values@.len() - k,
        {
            if self.values[k] == value {
                return Some(k);
            }
            k += 1;
        }
        None
    }
}

/// One repair sweep: walks the items of `manual` and relocates each one that
/// appears after an item it must precede.  The result holds the same items;
/// a sequence that is already valid is returned unchanged.
fn repair_pass(manual: &Vec<usize>, rulemap: &RuleMap) -> (r: Vec<usize>)
    ensures
        r@.to_multiset() == manual@.to_multiset(),
        r@.len() == manual@.len(),
        valid_sequence(manual@, rulemap@) ==> r@ == manual@,
{
    let elements = {
        let mut e: Vec<usize> = Vec::new();
        let mut i: usize = 0;
        while i < manual.len()
            invariant
                0 <= i <= manual@.len(),
                e@ == manual@.take(i as int),
            decreases manual@.len() - i,
        {
            e.push(manual[i]);
            proof {
                assert(e@ =~= manual@.take(i + 1 as int));
            }
            i += 1;
        }
        proof {
            assert(manual@.take(manual@.len() as int) =~= manual@);
        }
        e
    };
    let mut indexer = IndexValueMap::new(elements);
    let nrules = rulemap.len();
    let mut jj: usize = 0;
    while jj < manual.len()
        invariant
            0 <= jj <= manual@.len(),
            nrules == rulemap@.len(),
            indexer@.to_multiset() == manual@.to_multiset(),
            indexer@.len() == manual@.len(),
            valid_sequence(manual@, rulemap@) ==> indexer@ == manual@,
        decreases manual@.len() - jj,
    {
        let p = manual[jj];
        proof {
            assert(manual@.contains(p)) by {
                assert(manual@[jj as int] == p);
            }
            assert(manual@.to_multiset().contains(p));
        }
        let mut counter = match indexer.index_of(p) {
            Some(c) => c,
            None => unreached(),
        };
        let mut k: usize = 0;
        while k < nrules
            invariant
                nrules == rulemap@.len(),
                indexer@.to_multiset() == manual@.to_multiset(),
                indexer@.len() == manual@.len(),
                counter < indexer@.len(),
                indexer@[counter as int] == p,
                manual@.to_multiset().contains(p),
                valid_sequence(manual@, rulemap@) ==> indexer@ == manual@,
            decreases rulemap@.len() - k,
        {
            let (a, b) = rule_at(rulemap, k);
            if a == p {
                if let Some(pi) = indexer.index_of(b) {
                    if counter > pi {
                        proof {
                            if valid_sequence(manual@, rulemap@) {
                                assert(rulemap@.contains((p, b))) by {
                                    assert(rulemap@[k as int] == (p, b));
                                }
                                assert(manual@[counter as int] == p);
                                assert(manual@[pi as int] == b);
                                assert(!rulemap@.contains(
                                    (manual@[counter as int], manual@[pi as int]),
                                ));
                            }
                        }
                        indexer.move_element(counter, pi);
                        proof {
                            assert(indexer@.to_multiset().contains(p));
                            assert(indexer@.contains(p));
                        }
                        counter = match indexer.index_of(p) {
                            Some(c) => c,
                            None => unreached(),
                        };
                    }
                }
            }
            k += 1;
        }
        jj += 1;
    }
    indexer.get_elements()
}

/// The rule at position `k` in the rule set's own order.
fn rule_at(rulemap: &RuleMap, k: usize) -> (r: (usize, usize))
    requires
        k < rulemap@.len(),
    ensures
        r == rulemap@[k as int],
{
    rulemap.rules[k]
}

/// A ranking that every applicable rule respects: the rule's first item
/// ranks strictly below its second.
pub open spec fn ranking_ok(
    rules: Seq<(usize, usize)>,
    items: Seq<usize>,
    rank: spec_fn(usize) -> nat,
) -> bool {
    forall|a: usize, b: usize|
        items.contains(a) && items.contains(b) && #[trigger] rules.contains((a, b)) ==> rank(a)
            < rank(b)
}

/// The rule relation restricted to the sequence's items is acyclic: some
/// ranking orders it.  For a finite relation this holds exactly when no
/// cycle runs through the items.
pub open spec fn acyclic_rules(rules: Seq<(usize, usize)>, items: Seq<usize>) -> bool {
    exists|rank: spec_fn(usize) -> nat| ranking_ok(rules, items, rank)
}

/// Some item of `rem` must precede `c`.
pub open spec fn some_predecessor(rules: Seq<(usize, usize)>, rem: Seq<usize>, c: usize) -> bool {
    exists|j: int| 0 <= j < rem.len() && rules.contains(((#[trigger] rem[j]), c))
}

/// Whether some item of `remaining` must precede `c`.
fn has_predecessor(remaining: &Vec<usize>, rulemap: &RuleMap, c: usize) -> (r: bool)
    ensures
        r == some_predecessor(rulemap@, remaining@, c),
{
    let mut j: usize = 0;
    while j < remaining.len()
        invariant
            0 <= j <= remaining@.len(),
            forall|x: int| 0 <= x < j ==> !rulemap@.contains(((#[trigger] remaining@[x]), c)),
        decreases remaining@.len() - j,
    {
        if rulemap.contains_rule(remaining[j], c) {
            return true;
        }
        j += 1;
    }
    false
}

/// An index of `s` carrying a rank-minimal item.
proof fn lemma_min_rank_index(s: Seq<usize>, rank: spec_fn(usize) -> nat) -> (k: int)
    requires
        s.len() > 0,
    ensures
        0 <= k < s.len(),
        forall|j: int| 0 <= j < s.len() ==> rank(s[k]) <= rank(#[trigger] s[j]),
    decreases s.len(),
{
    if s.len() == 1 {
        0
    } else {
        let k0 = lemma_min_rank_index(s.drop_last(), rank);
        assert(forall|j: int| 0 <= j < s.len() - 1 ==> s.drop_last()[j] == s[j]);
        if rank(s[k0]) <= rank(s.last()) {
            k0
        } else {
            s.len() - 1
        }
    }
}

/// Rebuilds the sequence by repeatedly taking an item that no remaining item
/// must precede.  Fails only when at some stage every remaining item has a
/// remaining predecessor, which cannot happen when the applicable rules are
/// acyclic.
fn topological_repair(manual: &Vec<usize>, rulemap: &RuleMap) -> (r: Option<Vec<usize>>)
    ensures
        r matches Some(v) ==> valid_sequence(v@, rulemap@)
            && v@.to_multiset() == manual@.to_multiset()
            && v@.len() == manual@.len(),
        acyclic_rules(rulemap@, manual@) ==> r is Some,
{
    let mut remaining = {
        let mut e: Vec<usize> = Vec::new();
        let mut i: usize = 0;
        while i < manual.len()
            invariant
                0 <= i <= manual@.len(),
                e@ == manual@.take(i as int),
            decreases manual@.len() - i,
        {
            e.push(manual[i]);
            proof {
                assert(e@ =~= manual@.take(i + 1 as int));
            }
            i += 1;
        }
        proof {
            assert(manual@.take(manual@.len() as int) =~= manual@);
        }
        e
    };
    let mut out: Vec<usize> = Vec::new();
    proof {
        assert(out@.to_multiset().add(remaining@.to_multiset()) =~= manual@.to_multiset());
    }
    while remaining.len() > 0
        invariant
            out@.to_multiset().add(remaining@.to_multiset()) == manual@.to_multiset(),
            out@.len() + remaining@.len() == manual@.len(),
            valid_sequence(out@, rulemap@),
            forall|bi: int, xj: int|
                0 <= bi < out@.len() && 0 <= xj < remaining@.len() ==> !rulemap@.contains(
                    ((#[trigger] remaining@[xj]), (#[trigger] out@[bi])),
                ),
        decreases remaining@.len(),
    {
        let mut ci: usize = 0;
        let mut have: bool = false;
        while ci < remaining.len()
            invariant_except_break
                !have,
            invariant
                0 <= ci <= remaining@.len(),
                forall|x: int|
                    0 <= x < ci ==> some_predecessor(
                        rulemap@,
                        remaining@,
                        (#[trigger] remaining@[x]),
                    ),
            ensures
                0 <= ci <= remaining@.len(),
                have ==> ci < remaining@.len() && !some_predecessor(
                    rulemap@,
                    remaining@,
                    remaining@[ci as int],
                ),
                !have ==> forall|x: int|
                    0 <= x < remaining@.len() ==> some_predecessor(
                        rulemap@,
                        remaining@,
                        (#[trigger] remaining@[x]),
                    ),
            decreases remaining@.len() - ci,
        {
            if !has_predecessor(&remaining, rulemap, remaining[ci]) {
                have = true;
                break;
            }
            ci += 1;
        }
        if !have {
            proof {
                if acyclic_rules(rulemap@, manual@) {
                    let rank = choose|rank: spec_fn(usize) -> nat|
                        ranking_ok(rulemap@, manual@, rank);
                    let k = lemma_min_rank_index(remaining@, rank);
                    assert(some_predecessor(rulemap@, remaining@, remaining@[k]));
                    let j = choose|j: int|
                        0 <= j < remaining@.len() && rulemap@.contains(
                            ((#[trigger] remaining@[j]), remaining@[k]),
                        );
                    assert(manual@.to_multiset().count(remaining@[j])
                        >= remaining@.to_multiset().count(remaining@[j]));
                    assert(remaining@.to_multiset().contains(remaining@[j])) by {
                        assert(remaining@.contains(remaining@[j]));
                    }
                    assert(manual@.contains(remaining@[j]));
                    assert(manual@.to_multiset().count(remaining@[k])
                        >= remaining@.to_multiset().count(remaining@[k]));
                    assert(remaining@.to_multiset().contains(remaining@[k])) by {
                        assert(remaining@.contains(remaining@[k]));
                    }
                    assert(manual@.contains(remaining@[k]));
                    assert(rank(remaining@[j]) < rank(remaining@[k]));
                    assert(rank(remaining@[k]) <= rank(remaining@[j]));
                    assert(false);
                }
            }
            return None;
        }
        let ghost rem_old = remaining@;
        let ghost out_old = out@;
        let c = remaining.remove(ci);
        out.push(c);
        proof {
            assert(out@.to_multiset().add(remaining@.to_multiset())
                =~= out_old.to_multiset().add(rem_old.to_multiset()));
            assert(valid_sequence(out@, rulemap@)) by {
                assert(forall|i: int| 0 <= i < out_old.len() ==> out@[i] == out_old[i]);
                assert(out@[out@.len() - 1] == c && c == rem_old[ci as int]);
                assert(forall|i: int|
                    0 <= i < out@.len() - 1 ==> !rulemap@.contains(((out@[out@.len() - 1]), (
                    #[trigger] out@[i]))));
            }
            assert(forall|bi: int, xj: int|
                0 <= bi < out@.len() && 0 <= xj < remaining@.len() ==> !rulemap@.contains(
                    ((#[trigger] remaining@[xj]), (#[trigger] out@[bi])),
                )) by {
                assert(forall|xj: int|
                    0 <= xj < remaining@.len() ==> (#[trigger] remaining@[xj]) == if xj < ci {
                        rem_old[xj]
                    } else {
                        rem_old[xj + 1]
                    });
                assert(!some_predecessor(rulemap@, rem_old, c));
                assert(forall|j: int|
                    0 <= j < rem_old.len() ==> !rulemap@.contains(((#[trigger] rem_old[j]), c)));
            }
        }
    }
    proof {
        assert(remaining@.to_multiset() =~= Multiset::<usize>::empty());
        assert(out@.to_multiset() =~= manual@.to_multiset());
    }
    Some(out)
}

/// Repairs `manual` by repeated sweeps until a full validity check passes.
///
/// Sweeps are capped, so the function always terminates; if the cap runs
/// out, a direct reordering takes over, so repair succeeds on every acyclic
/// rule set and `None` is reserved for contradictory ones.  A returned
/// sequence is valid and holds exactly the items of the input, and a
/// sequence that is already valid is returned unchanged.
pub fn fix_manual(manual: &Vec<usize>, rulemap: &RuleMap) -> (r: Option<Vec<usize>>)
    ensures
        r matches Some(v) ==> valid_sequence(v@, rulemap@)
            && v@.to_multiset() == manual@.to_multiset()
            && v@.len() == manual@.len(),
        valid_sequence(manual@, rulemap@) ==> (r matches Some(v) && v@ == manual@),
        acyclic_rules(rulemap@, manual@) ==> r is Some,
{
    let n = manual.len() as u64;
    let cap: u64 = match n.checked_mul(n) {
        Some(c) => match c.checked_add(1) {
            Some(c1) => c1,
            None => u64::MAX,
        },
        None => u64::MAX,
    };
    let mut cur = repair_pass(manual, rulemap);
    let mut tries: u64 = 0;
    while !check_manual(&cur, rulemap)
        invariant
            cur@.to_multiset() == manual@.to_multiset(),
            cur@.len() == manual@.len(),
            tries <= cap,
            valid_sequence(manual@, rulemap@) ==> cur@ == manual@,
        ensures
            cur@.to_multiset() == manual@.to_multiset(),
            cur@.len() == manual@.len(),
            tries <= cap,
            tries == cap || valid_sequence(cur@, rulemap@),
            valid_sequence(manual@, rulemap@) ==> cur@ == manual@,
        decreases cap - tries,
    {
        if tries == cap {
            break;
        }
        cur = repair_pass(&cur, rulemap);
        tries += 1;
    }
    if check_manual(&cur, rulemap) {
        Some(cur)
    } else {
        topological_repair(manual, rulemap)
    }
}

/// The values denoted by a comma-separated token list; malformed entries are
/// skipped.
pub open spec fn values_of_tokens(ts: Seq<Seq<char>>) -> Seq<usize>
    decreases ts.len(),
{
    if ts.len() == 0 {
        Seq::empty()
    } else {
        values_of_tokens(ts.drop_last()) + if parses_usize(ts.last()) {
            seq![digits_value(ts.last()) as usize]
        } else {
            Seq::empty()
        }
    }
}

/// The item sequence denoted by one comma-separated line.
pub open spec fn sequence_of_text(s: Seq<char>) -> Seq<usize> {
    values_of_tokens(split_by(s, seq![',']))
}

/// Parses one comma-separated line of items; malformed entries are skipped.
pub fn parse_sequence(s: &str) -> (r: Vec<usize>)
    ensures
        r@ == sequence_of_text(s@),
{
    let cs = chars_of(s);
    let mut comma: Vec<char> = Vec::new();
    comma.push(',');
    proof {
        assert(comma@ =~= seq![',']);
    }
    let tokens = split_chars(&cs, &comma);
    let ghost toks = tokens.deep_view();
    let mut r: Vec<usize> = Vec::new();
    let mut i: usize = 0;
    while i < tokens.len()
        invariant
            toks == tokens.deep_view(),
            tokens@.len() == toks.len(),
            0 <= i <= toks.len(),
            r@ == values_of_tokens(toks.take(i as int)),
        decreases toks.len() - i,
    {
        proof {
            assert(toks[i as int] == tokens@[i as int]@);
        }
        if let Some(v) = parse_usize(&tokens[i]) {
            r.push(v);
        }
        proof {
            assert(toks.take(i + 1 as int).drop_last() =~= toks.take(i as int));
            assert(toks.take(i + 1 as int).last() == toks[i as int]);
        }
        i += 1;
    }
    proof {
        assert(toks.take(toks.len() as int) =~= toks);
    }
    r
}

/// Re-running the validity check is idempotent: `check_manual` returns
/// exactly `valid_sequence`, so the results `r1` and `r2` of any two runs on
/// the same sequence and rules agree, and a sequence accepted once is
/// accepted by every later run.
pub proof fn lemma_check_idempotent(m: Seq<usize>, rules: Seq<(usize, usize)>, r1: bool, r2: bool)
    requires
        r1 == valid_sequence(m, rules),
        r2 == valid_sequence(m, rules),
    ensures
        r1 == r2,
        r1 ==> r2,
{
}

/// Sum of the middle values of the valid manuals among the first `i`.
pub open spec fn valid_middle_sum(ms: Seq<Seq<usize>>, rules: Seq<(usize, usize)>, i: int) -> nat
    decreases i,
{
    if i <= 0 {
        0
    } else {
        valid_middle_sum(ms, rules, i - 1) + if valid_sequence(ms[i - 1], rules) {
            ms[i - 1][(ms[i - 1].len() - 1) as int / 2] as nat
        } else {
            0nat
        }
    }
}

/// `fx` repairs `ms` position by position: valid manuals stay as they are,
/// invalid ones are replaced by a valid sequence of the same items.
pub open spec fn repaired_aligned(
    ms: Seq<Seq<usize>>,
    rules: Seq<(usize, usize)>,
    fx: Seq<Seq<usize>>,
) -> bool {
    &&& fx.len() == ms.len()
    &&& forall|k: int|
        0 <= k < ms.len() ==> if valid_sequence(ms[k], rules) {
            (#[trigger] fx[k]) == ms[k]
        } else {
            valid_sequence(fx[k], rules) && fx[k].to_multiset() == ms[k].to_multiset()
                && fx[k].len() == ms[k].len()
        }
}

/// Sum of the middle values that the repaired sequences contribute: one per
/// invalid manual among the first `i`.
pub open spec fn fixed_middle_sum(
    ms: Seq<Seq<usize>>,
    rules: Seq<(usize, usize)>,
    fx: Seq<Seq<usize>>,
    i: int,
) -> nat
    decreases i,
{
    if i <= 0 {
        0
    } else {
        fixed_middle_sum(ms, rules, fx, i - 1) + if !valid_sequence(ms[i - 1], rules) {
            fx[i - 1][(fx[i - 1].len() - 1) as int / 2] as nat
        } else {
            0nat
        }
    }
}

/// Prefix sums of the valid middles never exceed the full sum.
proof fn lemma_valid_sum_prefix(ms: Seq<Seq<usize>>, rules: Seq<(usize, usize)>, i: int, j: int)
    requires
        0 <= i <= j,
    ensures
        valid_middle_sum(ms, rules, i) <= valid_middle_sum(ms, rules, j),
    decreases j - i,
{
    if i < j {
        lemma_valid_sum_prefix(ms, rules, i, j - 1);
    }
}

proof fn lemma_fixed_sum_prefix(
    ms: Seq<Seq<usize>>,
    rules: Seq<(usize, usize)>,
    fx1: Seq<Seq<usize>>,
    fx2: Seq<Seq<usize>>,
    i: int,
)
    requires
        forall|k: int| 0 <= k < i ==> (#[trigger] fx1[k]) == fx2[k],
    ensures
        fixed_middle_sum(ms, rules, fx1, i) == fixed_middle_sum(ms, rules, fx2, i),
    decreases i,
{
    if i > 0 {
        lemma_fixed_sum_prefix(ms, rules, fx1, fx2, i - 1);
    }
}

/// Scores a batch of manuals: the middles of the valid ones summed, and the
/// middles of the repaired invalid ones summed.  `None` only when a sum
/// overflows or the repair of an invalid manual gives up; a batch of valid
/// manuals whose score fits is always scored.
pub fn score_manuals(manuals: &Vec<Vec<usize>>, rulemap: &RuleMap) -> (r: Option<(u64, u64)>)
    requires
        forall|k: int|
            0 <= k < manuals.deep_view().len() ==> (#[trigger] manuals.deep_view()[k]).len() > 0,
    ensures
        r matches Some(p) ==> {
            let ms = manuals.deep_view();
            &&& p.0 == valid_middle_sum(ms, rulemap@, ms.len() as int)
            &&& exists|fx: Seq<Seq<usize>>|
                #[trigger] repaired_aligned(ms, rulemap@, fx) && p.1 == fixed_middle_sum(
                    ms,
                    rulemap@,
                    fx,
                    ms.len() as int,
                )
        },
        r is None ==> {
            let ms = manuals.deep_view();
            valid_middle_sum(ms, rulemap@, ms.len() as int) > u64::MAX || exists|k: int|
                0 <= k < ms.len() && !valid_sequence(#[trigger] ms[k], rulemap@)
        },
        ({
            let ms = manuals.deep_view();
            (forall|k: int| 0 <= k < ms.len() ==> valid_sequence(#[trigger] ms[k], rulemap@))
                && valid_middle_sum(ms, rulemap@, ms.len() as int) <= u64::MAX
        }) ==> r is Some,
{
    let ghost ms = manuals.deep_view();
    let ghost mut fx: Seq<Seq<usize>> = Seq::empty();
    let mut t1: u64 = 0;
    let mut t2: u64 = 0;
    let mut i: usize = 0;
    while i < manuals.len()
        invariant
            ms == manuals.deep_view(),
            manuals@.len() == ms.len(),
            forall|k: int| 0 <= k < ms.len() ==> (#[trigger] ms[k]).len() > 0,
            0 <= i <= ms.len(),
            fx.len() == i,
            forall|k: int|
                0 <= k < i ==> if valid_sequence(ms[k], rulemap@) {
                    (#[trigger] fx[k]) == ms[k]
                } else {
                    valid_sequence(fx[k], rulemap@) && fx[k].to_multiset() == ms[k].to_multiset()
                        && fx[k].len() == ms[k].len()
                },
            t1 == valid_middle_sum(ms, rulemap@, i as int),
            t2 == fixed_middle_sum(ms, rulemap@, fx, i as int),
        decreases ms.len() - i,
    {
        proof {
            assert(ms[i as int] == manuals@[i as int]@);
        }
        let m = &manuals[i];
        let ghost fx_old = fx;
        if check_manual(m, rulemap) {
            let mid = middle_value(m);
            t1 = match t1.checked_add(mid as u64) {
                Some(v) => v,
                None => {
                    proof {
                        lemma_valid_sum_prefix(ms, rulemap@, i + 1 as int, ms.len() as int);
                    }
                    return None;
                },
            };
            proof {
                fx = fx.push(ms[i as int]);
            }
        } else {
            let fixed = match fix_manual(m, rulemap) {
                Some(v) => v,
                None => {
                    proof {
                        assert(!valid_sequence(ms[i as int], rulemap@));
                    }
                    return None;
                },
            };
            let mid = middle_value(&fixed);
            t2 = match t2.checked_add(mid as u64) {
                Some(v) => v,
                None => {
                    proof {
                        assert(!valid_sequence(ms[i as int], rulemap@));
                    }
                    return None;
                },
            };
            proof {
                fx = fx.push(fixed@);
            }
        }
        proof {
            assert(forall|k: int| 0 <= k < i ==> (#[trigger] fx_old[k]) == fx[k]);
            lemma_fixed_sum_prefix(ms, rulemap@, fx_old, fx, i as int);
        }
        i += 1;
    }
    proof {
        assert(repaired_aligned(ms, rulemap@, fx));
    }
    Some((t1, t2))
}

} // verus!
