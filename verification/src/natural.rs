use vstd::prelude::*;

use std::cmp::Ordering;

use crate::text::{
    ascii_lower, chars_of, digit_of, digit_value, digits_value, is_ascii_digit, is_digit,
    lemma_value_prefix_le, lemma_value_step, to_ascii_lower,
};

verus! {

/// Number of leading ASCII digits of `s`.
pub open spec fn digit_run(s: Seq<char>) -> nat
    decreases s.len(),
{
    if s.len() > 0 && is_digit(s[0]) {
        1 + digit_run(s.drop_first())
    } else {
        0
    }
}

/// The value of the digit run at the front of `s`.
pub open spec fn run_value(s: Seq<char>) -> nat {
    digits_value(s.take(digit_run(s) as int))
}

/// What follows the digit run at the front of `s`.
pub open spec fn after_run(s: Seq<char>) -> Seq<char> {
    s.skip(digit_run(s) as int)
}

/// `s` from position `i` on.
pub open spec fn tail(s: Seq<char>, i: usize) -> Seq<char> {
    s.skip(i as int)
}

/// The character at position `i`.
pub open spec fn at(s: Seq<char>, i: usize) -> char {
    s[i as int]
}

/// The natural ("version") order of two names.
///
/// Both names are read from the front.  Where both continue with a digit,
/// the maximal digit runs are read as numbers and compared by value; where
/// the values are equal, comparison goes on after the two runs.  Otherwise
/// the next characters are compared after ASCII lowercasing.  A name that
/// ends first is the smaller.
pub open spec fn natural_order(a: Seq<char>, b: Seq<char>) -> Ordering
    decreases a.len() + b.len(),
{
    if a.len() == 0 && b.len() == 0 {
        Ordering::Equal
    } else if a.len() == 0 {
        Ordering::Less
    } else if b.len() == 0 {
        Ordering::Greater
    } else if is_digit(a[0]) && is_digit(b[0]) {
        let na = run_value(a);
        let nb = run_value(b);
        if na < nb {
            Ordering::Less
        } else if na > nb {
            Ordering::Greater
        } else {
            proof {
                lemma_digit_run_bound(a);
                lemma_digit_run_bound(b);
            }
            natural_order(after_run(a), after_run(b))
        }
    } else {
        let la = ascii_lower(a[0]);
        let lb = ascii_lower(b[0]);
        if la < lb {
            Ordering::Less
        } else if la > lb {
            Ordering::Greater
        } else {
            natural_order(a.drop_first(), b.drop_first())
        }
    }
}

/// Every digit run that the natural comparison of `a` and `b` reads as a
/// number fits in a `u64`.
pub open spec fn natural_fits(a: Seq<char>, b: Seq<char>) -> bool
    decreases a.len() + b.len(),
{
    if a.len() == 0 || b.len() == 0 {
        true
    } else if is_digit(a[0]) && is_digit(b[0]) {
        let na = run_value(a);
        let nb = run_value(b);
        proof {
            lemma_digit_run_bound(a);
            lemma_digit_run_bound(b);
        }
        &&& na <= u64::MAX
        &&& nb <= u64::MAX
        &&& (na == nb ==> natural_fits(after_run(a), after_run(b)))
    } else if ascii_lower(a[0]) == ascii_lower(b[0]) {
        natural_fits(a.drop_first(), b.drop_first())
    } else {
        true
    }
}

/// The reverse of an ordering.
pub open spec fn reversed(o: Ordering) -> Ordering {
    match o {
        Ordering::Less => Ordering::Greater,
        Ordering::Equal => Ordering::Equal,
        Ordering::Greater => Ordering::Less,
    }
}

pub proof fn lemma_digit_run_bound(s: Seq<char>)
    ensures
        digit_run(s) <= s.len(),
        forall|k: int| 0 <= k < digit_run(s) ==> is_digit(#[trigger] s[k]),
        digit_run(s) < s.len() ==> !is_digit(s[digit_run(s) as int]),
    decreases s.len(),
{
    if s.len() > 0 && is_digit(s[0]) {
        lemma_digit_run_bound(s.drop_first());
        assert forall|k: int| 0 <= k < digit_run(s) implies is_digit(#[trigger] s[k]) by {
            if k > 0 {
                assert(s[k] == s.drop_first()[k - 1]);
            }
        }
    }
}

/// A run of `k` digits followed by a non-digit (or the end) is the digit run.
proof fn lemma_digit_run_exact(s: Seq<char>, k: int)
    requires
        0 <= k <= s.len(),
        forall|j: int| 0 <= j < k ==> is_digit(#[trigger] s[j]),
        k < s.len() ==> !is_digit(s[k]),
    ensures
        digit_run(s) == k,
    decreases k,
{
    if k > 0 {
        assert forall|j: int| 0 <= j < k - 1 implies is_digit(#[trigger] s.drop_first()[j]) by {
            assert(s.drop_first()[j] == s[j + 1]);
        }
        if k - 1 < s.drop_first().len() {
            assert(s.drop_first()[k - 1] == s[k]);
        }
        lemma_digit_run_exact(s.drop_first(), k - 1);
    } else {
        assert(s.len() == 0 || !is_digit(s[0]));
    }
}

proof fn lemma_lower_digit(c: char)
    ensures
        is_digit(ascii_lower(c)) == is_digit(c),
        is_digit(c) ==> ascii_lower(c) == c,
{
}

/// Law: every name is naturally equal to itself.
pub proof fn lemma_natural_reflexive(a: Seq<char>)
    ensures
        natural_order(a, a) == Ordering::Equal,
    decreases a.len(),
{
    if a.len() > 0 {
        lemma_digit_run_bound(a);
        if is_digit(a[0]) {
            lemma_natural_reflexive(after_run(a));
        } else {
            lemma_natural_reflexive(a.drop_first());
        }
    }
}

/// Law: swapping the two names reverses the natural order, and the
/// names' digit runs fit or overflow alike either way round.
pub proof fn lemma_natural_antisymmetric(a: Seq<char>, b: Seq<char>)
    ensures
        natural_order(b, a) == reversed(natural_order(a, b)),
        natural_fits(b, a) == natural_fits(a, b),
    decreases a.len() + b.len(),
{
    if a.len() > 0 && b.len() > 0 {
        lemma_digit_run_bound(a);
        lemma_digit_run_bound(b);
        if is_digit(a[0]) && is_digit(b[0]) {
            lemma_natural_antisymmetric(after_run(a), after_run(b));
        } else {
            lemma_natural_antisymmetric(a.drop_first(), b.drop_first());
        }
    }
}

/// Law: the natural order is transitive (with reflexivity and
/// antisymmetry it is a total preorder, so a stable sort by it is unique).
pub proof fn lemma_natural_transitive(a: Seq<char>, b: Seq<char>, c: Seq<char>)
    requires
        natural_order(a, b) != Ordering::Greater,
        natural_order(b, c) != Ordering::Greater,
    ensures
        natural_order(a, c) != Ordering::Greater,
    decreases a.len() + b.len() + c.len(),
{
    if a.len() > 0 && b.len() > 0 && c.len() > 0 {
        lemma_digit_run_bound(a);
        lemma_digit_run_bound(b);
        lemma_digit_run_bound(c);
        lemma_lower_digit(a[0]);
        lemma_lower_digit(b[0]);
        lemma_lower_digit(c[0]);
        let da = is_digit(a[0]);
        let db = is_digit(b[0]);
        let dc = is_digit(c[0]);
        if da && db && dc {
            if run_value(a) == run_value(b) && run_value(b) == run_value(c) {
                lemma_natural_transitive(after_run(a), after_run(b), after_run(c));
            }
        } else if !da && !db && !dc {
            if ascii_lower(a[0]) == ascii_lower(b[0]) && ascii_lower(b[0]) == ascii_lower(c[0]) {
                lemma_natural_transitive(a.drop_first(), b.drop_first(), c.drop_first());
            }
        } else {
            // at least one pair of first characters is a digit against a
            // non-digit: those compare strictly, and the digits lie in one
            // contiguous block below or above every lowered non-digit
        }
    }
}

/// Reads the digit run of `s` that starts at `i`; returns its value and the
/// position just past it, or `None` where the value does not fit in a `u64`.
fn read_run(s: &Vec<char>, i: usize) -> (res: Option<(u64, usize)>)
    requires
        i < s@.len(),
    ensures
        ({
            let t = tail(s@, i);
            match res {
                Some((v, e)) => {
                    &&& run_value(t) <= u64::MAX
                    &&& v == run_value(t)
                    &&& e == i + digit_run(t)
                }
                None => run_value(t) > u64::MAX,
            }
        }),
{
    let ghost t = tail(s@, i);
    proof {
        lemma_digit_run_bound(t);
    }
    let mut acc: u64 = 0;
    let mut j: usize = i;
    while j < s.len() && is_ascii_digit(s[j])
        invariant
            i <= j <= s@.len(),
            t == tail(s@, i),
            forall|k: int| 0 <= k < j - i ==> is_digit(#[trigger] t[k]),
            acc == digits_value(t.take(j - i)),
            digit_run(t) <= t.len(),
            forall|k: int| 0 <= k < digit_run(t) ==> is_digit(#[trigger] t[k]),
            digit_run(t) < t.len() ==> !is_digit(t[digit_run(t) as int]),
        decreases s@.len() - j,
    {
        assert(t[j - i] == at(s@, j));
        let d = digit_of(s[j]);
        proof {
            lemma_value_step(t, j - i);
        }
        if acc > (u64::MAX - d) / 10 {
            proof {
                assert(acc * 10 + d > u64::MAX) by (nonlinear_arith)
                    requires
                        acc > (u64::MAX - d) / 10,
                        d < 10,
                ;
                // the run reaches at least position j - i + 1
                if digit_run(t) < j - i + 1 {
                    assert(is_digit(t[digit_run(t) as int]));
                }
                lemma_value_prefix_le(t.take(digit_run(t) as int), j - i + 1);
                assert(t.take(digit_run(t) as int).take(j - i + 1) =~= t.take(j - i + 1));
            }
            return None;
        }
        assert(acc * 10 + d <= u64::MAX) by (nonlinear_arith)
            requires
                acc <= (u64::MAX - d) / 10,
                d < 10,
        ;
        acc = acc * 10 + d;
        j = j + 1;
    }
    proof {
        if j < s@.len() {
            assert(t[j - i] == at(s@, j));
        }
        lemma_digit_run_exact(t, j - i);
    }
    Some((acc, j))
}

/// Natural comparison of two character sequences; `None` where a digit run
/// that the comparison reads as a number does not fit in a `u64`.
pub fn natural_cmp_chars(a: &Vec<char>, b: &Vec<char>) -> (res: Option<Ordering>)
    ensures
        natural_fits(a@, b@) <==> res is Some,
        res matches Some(o) ==> o == natural_order(a@, b@),
{
    let mut i: usize = 0;
    let mut j: usize = 0;
    proof {
        assert(tail(a@, 0) =~= a@);
        assert(tail(b@, 0) =~= b@);
    }
    loop
        invariant
            i <= a@.len(),
            j <= b@.len(),
            natural_order(a@, b@) == natural_order(tail(a@, i), tail(b@, j)),
            natural_fits(a@, b@) == natural_fits(tail(a@, i), tail(b@, j)),
        decreases a@.len() - i + b@.len() - j,
    {
        let ghost sa = tail(a@, i);
        let ghost sb = tail(b@, j);
        if i == a.len() && j == b.len() {
            return Some(Ordering::Equal);
        } else if i == a.len() {
            return Some(Ordering::Less);
        } else if j == b.len() {
            return Some(Ordering::Greater);
        }
        assert(sa[0] == at(a@, i));
        assert(sb[0] == at(b@, j));
        let ca = a[i];
        let cb = b[j];
        if is_ascii_digit(ca) && is_ascii_digit(cb) {
            let ra = read_run(a, i);
            let (na, ei) = match ra {
                Some(p) => p,
                None => {
                    return None;
                },
            };
            let rb = read_run(b, j);
            let (nb, ej) = match rb {
                Some(p) => p,
                None => {
                    return None;
                },
            };
            if na < nb {
                return Some(Ordering::Less);
            } else if na > nb {
                return Some(Ordering::Greater);
            }
            proof {
                lemma_digit_run_bound(sa);
                lemma_digit_run_bound(sb);
                assert(after_run(sa) =~= tail(a@, ei));
                assert(after_run(sb) =~= tail(b@, ej));
            }
            i = ei;
            j = ej;
        } else {
            let la = to_ascii_lower(ca);
            let lb = to_ascii_lower(cb);
            if la < lb {
                return Some(Ordering::Less);
            } else if la > lb {
                return Some(Ordering::Greater);
            }
            i = i + 1;
            j = j + 1;
            proof {
                assert(sa.drop_first() =~= tail(a@, i));
                assert(sb.drop_first() =~= tail(b@, j));
            }
        }
    }
}

/// Natural ("version") comparison of two names: digit runs compare by
/// numeric value, other characters compare after ASCII lowercasing.
pub fn natural_cmp(a: &str, b: &str) -> (res: Ordering)
    requires
        natural_fits(a@, b@),
    ensures
        res == natural_order(a@, b@),
{
    let va = chars_of(a);
    let vb = chars_of(b);
    match natural_cmp_chars(&va, &vb) {
        Some(o) => o,
        None => Ordering::Equal,
    }
}

/// Natural comparison that also reports overflow: `None` exactly when
/// some digit run that is read as a number does not fit in a `u64`.
pub fn natural_cmp_checked(a: &str, b: &str) -> (res: Option<Ordering>)
    ensures
        res is Some <==> natural_fits(a@, b@),
        res matches Some(o) ==> o == natural_order(a@, b@),
{
    let va = chars_of(a);
    let vb = chars_of(b);
    natural_cmp_chars(&va, &vb)
}

} // verus!
