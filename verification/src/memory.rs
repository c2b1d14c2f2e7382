//! Corrupted-memory instruction scanner.
//!
//! A memory dump holds `mul(a,b)` instructions among junk, plus `do()` and
//! `don't()` toggles.  The scanner finds the instructions with a regular
//! expression and totals the products, once unconditionally and once honoring
//! the toggles.

use vstd::prelude::*;

verus! {

use crate::parse::{split_by, parses_usize, digits_value, parse_usize, chars_of};

/// What `regex::Regex::find_iter` yields for a pattern and a text: every
/// non-overlapping match, leftmost first.
pub uninterp spec fn regex_matches(pattern: Seq<char>, text: Seq<char>) -> Seq<Seq<char>>;

/// Whether `regex::Regex::new` accepts the pattern; a function of the
/// pattern alone.
pub uninterp spec fn regex_compiles(pattern: Seq<char>) -> bool;

/// Relies on regex::Regex::new and Regex::find_iter: collects every match of
/// `pattern` in `text`, leftmost first; `None` exactly when the pattern does
/// not compile.
#[verifier::external_body]
fn regex_find_all(pattern: &str, text: &str) -> (r: Option<Vec<String>>)
    ensures
        r is Some <==> regex_compiles(pattern@),
        r matches Some(v) ==> v.deep_view() == regex_matches(pattern@, text@),
{
    match regex::Regex::new(pattern) {
        Ok(re) => Some(re.find_iter(text).map(|m| m.as_str().to_string()).collect()),
        Err(_) => None,
    }
}

/// A token value accepted as a factor: all digits, fitting a 32-bit signed
/// integer.
pub open spec fn parses_factor(s: Seq<char>) -> bool {
    parses_usize(s) && digits_value(s) <= 0x7fff_ffff
}

/// The accepted factors of a comma-separated argument list, in order.
pub open spec fn factor_values(ts: Seq<Seq<char>>) -> Seq<nat>
    decreases ts.len(),
{
    if ts.len() == 0 {
        Seq::empty()
    } else {
        factor_values(ts.drop_last()) + if parses_factor(ts.last()) {
            seq![digits_value(ts.last())]
        } else {
            Seq::<nat>::empty()
        }
    }
}

/// Value of a `mul(a,b)` token: the product of its first two accepted
/// factors, a missing factor counting as zero.  Tokens shorter than the
/// frame `mul(` plus `)` count zero.
pub open spec fn mul_value(t: Seq<char>) -> nat {
    if t.len() < 5 {
        0
    } else {
        let vals = factor_values(split_by(t.subrange(4, t.len() - 1), seq![',']));
        (if vals.len() > 0 {
            vals[0]
        } else {
            0
        }) * (if vals.len() > 1 {
            vals[1]
        } else {
            0
        })
    }
}

/// Whether a token opens with the `mul(` frame.
pub open spec fn is_mul_token(t: Seq<char>) -> bool {
    t.len() >= 4 && t.subrange(0, 4) == "mul("@
}

/// The two running totals and the toggle state after the first `i` tokens:
/// every product, the products while enabled, and the enabled flag.
pub open spec fn eval_state(ts: Seq<Seq<char>>, i: int) -> (nat, nat, bool)
    decreases i,
{
    if i <= 0 {
        (0, 0, true)
    } else {
        let (t1, t2, act) = eval_state(ts, i - 1);
        let t = ts[i - 1];
        if is_mul_token(t) {
            (t1 + mul_value(t), if act {
                t2 + mul_value(t)
            } else {
                t2
            }, act)
        } else if t == "do()"@ {
            (t1, t2, true)
        } else if t == "don't()"@ {
            (t1, t2, false)
        } else {
            (t1, t2, act)
        }
    }
}

proof fn lemma_eval_le(ts: Seq<Seq<char>>, i: int, j: int)
    requires
        0 <= i <= j,
    ensures
        eval_state(ts, i).0 <= eval_state(ts, j).0,
    decreases j - i,
{
    if i < j {
        lemma_eval_le(ts, i, j - 1);
    }
}

/// Parses the value of one `mul(a,b)` token.  A factor is an unsigned run
/// of digits fitting a 32-bit signed integer, as the instruction pattern
/// produces; a token holding a sign or any other non-digit is not accepted
/// as a factor and contributes zero.
pub fn multiply_str(inp: &str) -> (r: u64)
    ensures
        r == mul_value(inp@),
{
    let cs = chars_of(inp);
    if cs.len() < 5 {
        return 0;
    }
    let mut inner: Vec<char> = Vec::new();
    let mut k: usize = 4;
    while k < cs.len() - 1
        invariant
            cs@.len() >= 5,
            4 <= k <= cs@.len() - 1,
            inner@ == cs@.subrange(4, k as int),
        decreases cs@.len() - k,
    {
        inner.push(cs[k]);
        proof {
            assert(inner@ =~= cs@.subrange(4, k + 1 as int));
        }
        k += 1;
    }
    let mut comma: Vec<char> = Vec::new();
    comma.push(',');
    proof {
        assert(comma@ =~= seq![',']);
    }
    let parts = crate::parse::split_chars(&inner, &comma);
    let ghost ps = parts.deep_view();
    let mut vals: Vec<u64> = Vec::new();
    let mut i: usize = 0;
    while i < parts.len()
        invariant
            ps == parts.deep_view(),
            parts@.len() == ps.len(),
            0 <= i <= ps.len(),
            vals@.map_values(|v: u64| v as nat) == factor_values(ps.take(i as int)),
            forall|j: int| 0 <= j < vals@.len() ==> vals@[j] <= 0x7fff_ffff,
        decreases ps.len() - i,
    {
        proof {
            assert(ps[i as int] == parts@[i as int]@);
        }
        let ghost prev = vals@.map_values(|v: u64| v as nat);
        match parse_usize(&parts[i]) {
            Some(v) => {
                if v <= 0x7fff_ffff {
                    vals.push(v as u64);
                    proof {
                        assert(vals@.map_values(|v: u64| v as nat) =~= prev.push(
                            digits_value(ps[i as int]),
                        ));
                    }
                }
            },
            None => {
            },
        }
        proof {
            assert(ps.take(i + 1 as int).drop_last() =~= ps.take(i as int));
            assert(ps.take(i + 1 as int).last() == ps[i as int]);
            if !(parses_factor(ps[i as int])) {
                assert(vals@.map_values(|v: u64| v as nat) =~= factor_values(
                    ps.take(i + 1 as int),
                ));
            }
        }
        i += 1;
    }
    proof {
        assert(ps.take(ps.len() as int) =~= ps);
    }
    let a: u64 = if vals.len() > 0 {
        vals[0]
    } else {
        0
    };
    let b: u64 = if vals.len() > 1 {
        vals[1]
    } else {
        0
    };
    proof {
        assert(vals@.len() > 0 ==> vals@.map_values(|v: u64| v as nat)[0] == vals@[0] as nat);
        assert(vals@.len() > 1 ==> vals@.map_values(|v: u64| v as nat)[1] == vals@[1] as nat);
        assert(a as int * b as int <= 0x7fff_ffff * 0x7fff_ffff) by (nonlinear_arith)
            requires
                0 <= a as int <= 0x7fff_ffff,
                0 <= b as int <= 0x7fff_ffff,
        ;
    }
    a * b
}

/// True when the two string slices hold the same characters.
fn str_eq(a: &str, b: &str) -> (r: bool)
    ensures
        r == (a@ == b@),
{
    let n = a.unicode_len();
    if n != b.unicode_len() {
        return false;
    }
    let mut i: usize = 0;
    while i < n
        invariant
            n == a@.len(),
            n == b@.len(),
            0 <= i <= n,
            forall|j: int| 0 <= j < i ==> a@[j] == b@[j],
        decreases n - i,
    {
        if a.get_char(i) != b.get_char(i) {
            return false;
        }
        i += 1;
    }
    proof {
        assert(a@ =~= b@);
    }
    true
}

/// True when the token opens with the `mul(` frame.
fn starts_mul(t: &str) -> (r: bool)
    ensures
        r == is_mul_token(t@),
{
    proof {
        reveal_strlit("mul(");
    }
    if t.unicode_len() < 4 {
        return false;
    }
    let r = t.get_char(0) == 'm' && t.get_char(1) == 'u' && t.get_char(2) == 'l' && t.get_char(3)
        == '(';
    proof {
        if r {
            assert(t@.subrange(0, 4) =~= "mul("@);
        } else {
            assert(t@.subrange(0, 4)[0] == t@[0]);
            assert(t@.subrange(0, 4)[1] == t@[1]);
            assert(t@.subrange(0, 4)[2] == t@[2]);
            assert(t@.subrange(0, 4)[3] == t@[3]);
        }
    }
    r
}

/// Totals the instructions of a token list: every product, and the products
/// while enabled.  `None` exactly when the unconditional total overflows.
pub fn evaluate_instructions(tokens: &Vec<String>) -> (r: Option<(u64, u64)>)
    ensures
        r matches Some(p) ==> p.0 == eval_state(tokens.deep_view(), tokens.deep_view().len() as int).0
            && p.1 == eval_state(tokens.deep_view(), tokens.deep_view().len() as int).1,
        r is None <==> eval_state(tokens.deep_view(), tokens.deep_view().len() as int).0
            > u64::MAX,
{
    let ghost ts = tokens.deep_view();
    let mut t1: u64 = 0;
    let mut t2: u64 = 0;
    let mut active = true;
    let mut i: usize = 0;
    while i < tokens.len()
        invariant
            ts == tokens.deep_view(),
            tokens@.len() == ts.len(),
            0 <= i <= ts.len(),
            t1 == eval_state(ts, i as int).0,
            t2 == eval_state(ts, i as int).1,
            active == eval_state(ts, i as int).2,
            t2 <= t1,
        decreases ts.len() - i,
    {
        proof {
            assert(ts[i as int] == tokens@[i as int]@);
        }
        let tok = &tokens[i];
        if starts_mul(tok.as_str()) {
            let v = multiply_str(tok.as_str());
            t1 = match t1.checked_add(v) {
                Some(s) => s,
                None => {
                    proof {
                        lemma_eval_le(ts, i + 1 as int, ts.len() as int);
                    }
                    return None;
                },
            };
            if active {
                t2 = t2 + v;
            }
        } else if str_eq(tok.as_str(), "do()") {
            active = true;
        } else if str_eq(tok.as_str(), "don't()") {
            active = false;
        }
        i += 1;
    }
    proof {
        assert(ts.take(ts.len() as int) =~= ts);
    }
    Some((t1, t2))
}

/// The pattern that finds instructions: `mul(a,b)` with digit arguments, and
/// the two toggles.
pub open spec fn instruction_pattern() -> Seq<char> {
    "mul\\(\\d+,\\d+\\)|do\\(\\)|don't\\(\\)"@
}

/// Scans a memory dump: finds every instruction and totals the products,
/// unconditionally and honoring the toggles.  `None` exactly when the
/// pattern fails to compile or the unconditional total overflows.
pub fn scan_memory(content: &str) -> (r: Option<(u64, u64)>)
    ensures
        r matches Some(p) ==> {
            let ts = regex_matches(instruction_pattern(), content@);
            p.0 == eval_state(ts, ts.len() as int).0 && p.1 == eval_state(ts, ts.len() as int).1
        },
        r is None <==> !regex_compiles(instruction_pattern()) || {
            let ts = regex_matches(instruction_pattern(), content@);
            eval_state(ts, ts.len() as int).0 > u64::MAX
        },
{
    let pattern = "mul\\(\\d+,\\d+\\)|do\\(\\)|don't\\(\\)";
    match regex_find_all(pattern, content) {
        Some(tokens) => evaluate_instructions(&tokens),
        None => None,
    }
}

} // verus!
