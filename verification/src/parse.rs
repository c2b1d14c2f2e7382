//! Text-splitting and integer-parsing helpers shared by the solvers.
//!
//! Splitting is specified by a single-pass recursion over the input, so the
//! executable loops mirror the specification step for step.  Malformed numeric
//! tokens are reported as `None` and callers skip them silently.

use vstd::prelude::*;

verus! {

/// True when `c` is a decimal digit.
pub open spec fn is_digit(c: char) -> bool {
    '0' <= c && c <= '9'
}

/// Numeric value of a decimal digit.
pub open spec fn digit_val(c: char) -> nat {
    (c as nat - '0' as nat) as nat
}

/// One step of splitting: `cur` is the token being gathered, `acc` the tokens
/// finished so far.  Separator characters delimit tokens; empty segments are
/// dropped.
pub open spec fn split_step(
    s: Seq<char>,
    seps: Seq<char>,
    i: int,
    cur: Seq<char>,
    acc: Seq<Seq<char>>,
) -> Seq<Seq<char>>
    decreases s.len() - i,
{
    if i < 0 || i >= s.len() {
        if cur.len() > 0 {
            acc.push(cur)
        } else {
            acc
        }
    } else if seps.contains(s[i]) {
        if cur.len() > 0 {
            split_step(s, seps, i + 1, Seq::empty(), acc.push(cur))
        } else {
            split_step(s, seps, i + 1, Seq::empty(), acc)
        }
    } else {
        split_step(s, seps, i + 1, cur.push(s[i]), acc)
    }
}

/// The nonempty segments of `s` delimited by characters of `seps`.
pub open spec fn split_by(s: Seq<char>, seps: Seq<char>) -> Seq<Seq<char>> {
    split_step(s, seps, 0, Seq::empty(), Seq::empty())
}

/// All characters of `s` are decimal digits.
pub open spec fn all_digits(s: Seq<char>) -> bool {
    forall|i: int| 0 <= i < s.len() ==> is_digit(s[i])
}

/// Value of a digit string, most significant digit first.
pub open spec fn digits_value(s: Seq<char>) -> nat
    decreases s.len(),
{
    if s.len() == 0 {
        0
    } else {
        digits_value(s.drop_last()) * 10 + digit_val(s.last())
    }
}

/// A token is accepted as a `usize` when it is nonempty, all digits, and its
/// value fits the type.
pub open spec fn parses_usize(s: Seq<char>) -> bool {
    s.len() > 0 && all_digits(s) && digits_value(s) <= usize::MAX
}

/// Prefixes of a digit string never exceed the whole string's value.
proof fn lemma_digits_prefix_le(s: Seq<char>, i: int)
    requires
        0 <= i <= s.len(),
    ensures
        digits_value(s.take(i)) <= digits_value(s),
    decreases s.len() - i,
{
    if i < s.len() {
        assert(s.take(i + 1).drop_last() =~= s.take(i));
        assert(s.take(i + 1).last() == s[i]);
        lemma_digits_prefix_le(s, i + 1);
    } else {
        assert(s.take(i) =~= s);
    }
}

/// True when `seps` holds `c`.
fn contains_char(seps: &Vec<char>, c: char) -> (r: bool)
    ensures
        r == seps@.contains(c),
{
    let mut k: usize = 0;
    while k < seps.len()
        invariant
            0 <= k <= seps@.len(),
            forall|j: int| 0 <= j < k ==> seps@[j] != c,
        decreases seps@.len() - k,
    {
        if seps[k] == c {
            return true;
        }
        k += 1;
    }
    false
}

/// Splits `s` into its nonempty segments delimited by characters of `seps`.
pub fn split_chars(s: &Vec<char>, seps: &Vec<char>) -> (r: Vec<Vec<char>>)
    ensures
        r.deep_view() == split_by(s@, seps@),
{
    let mut acc: Vec<Vec<char>> = Vec::new();
    let mut cur: Vec<char> = Vec::new();
    proof {
        assert(acc.deep_view() =~~= Seq::<Seq<char>>::empty());
    }
    let mut i: usize = 0;
    while i < s.len()
        invariant
            0 <= i <= s@.len(),
            split_step(s@, seps@, i as int, cur@, acc.deep_view()) == split_by(s@, seps@),
        decreases s@.len() - i,
    {
        let c = s[i];
        if contains_char(seps, c) {
            if cur.len() > 0 {
                let ghost old_acc = acc.deep_view();
                let done = cur;
                cur = Vec::new();
                acc.push(done);
                proof {
                    assert(acc.deep_view() =~~= old_acc.push(done@));
                }
            } else {
                proof {
                    assert(cur@ =~= Seq::<char>::empty());
                }
            }
        } else {
            cur.push(c);
        }
        i += 1;
    }
    if cur.len() > 0 {
        let ghost old_acc = acc.deep_view();
        let done = cur;
        acc.push(done);
        proof {
            assert(acc.deep_view() =~~= old_acc.push(done@));
        }
    }
    acc
}

/// Parses a digit token as a `usize`; `None` when the token is empty, holds a
/// non-digit, or overflows.
pub fn parse_usize(t: &Vec<char>) -> (r: Option<usize>)
    ensures
        r is Some <==> parses_usize(t@),
        r matches Some(v) ==> v == digits_value(t@),
{
    if t.len() == 0 {
        return None;
    }
    let mut acc: usize = 0;
    let mut i: usize = 0;
    while i < t.len()
        invariant
            0 <= i <= t@.len(),
            all_digits(t@.take(i as int)),
            acc == digits_value(t@.take(i as int)),
        decreases t@.len() - i,
    {
        let c = t[i];
        if c < '0' || c > '9' {
            return None;
        }
        let d: usize = (c as u32 as usize) - ('0' as u32 as usize);
        proof {
            assert(t@.take(i + 1 as int).drop_last() =~= t@.take(i as int));
            assert(t@.take(i + 1 as int).last() == t@[i as int]);
        }
        acc = match acc.checked_mul(10) {
            Some(m) => match m.checked_add(d) {
                Some(v) => v,
                None => {
                    proof {
                        lemma_digits_prefix_le(t@, i + 1 as int);
                    }
                    return None;
                },
            },
            None => {
                proof {
                    lemma_digits_prefix_le(t@, i + 1 as int);
                }
                return None;
            },
        };
        i += 1;
    }
    proof {
        assert(t@.take(t@.len() as int) =~= t@);
    }
    Some(acc)
}

/// Collects the characters of a string slice.
pub fn chars_of(s: &str) -> (r: Vec<char>)
    ensures
        r@ == s@,
{
    let n = s.unicode_len();
    let mut r: Vec<char> = Vec::new();
    let mut i: usize = 0;
    while i < n
        invariant
            n == s@.len(),
            0 <= i <= n,
            r@ == s@.take(i as int),
        decreases n - i,
    {
        let c = s.get_char(i);
        r.push(c);
        proof {
            assert(r@ =~= s@.take(i + 1 as int));
        }
        i += 1;
    }
    proof {
        assert(s@.take(n as int) =~= s@);
    }
    r
}

} // verus!
