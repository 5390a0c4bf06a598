//! Natural ("human") ordering of filenames.
//!
//! Two strings are walked in step.  Wherever both carry an ASCII digit,
//! the maximal digit runs starting there are compared by their numeric
//! value; everywhere else single characters are compared by code point.
//! `"1-456"` therefore sorts after `"1-7"`, the way a file browser
//! would list pages.  Runs are compared without ever parsing them into
//! a machine integer, so runs of any length are ordered correctly.

use core::cmp::Ordering;
use vstd::arithmetic::mul::lemma_mul_inequality;
use vstd::prelude::*;

verus! {

/// An ASCII digit, `'0'` through `'9'`.
pub open spec fn is_digit(c: char) -> bool {
    ('0' as int) <= (c as int) && (c as int) <= ('9' as int)
}

/// The numeric value of one digit.
pub open spec fn digit_val(c: char) -> int {
    (c as int) - ('0' as int)
}

/// Ten to the `n`th power.
pub open spec fn pow10(n: nat) -> int
    decreases n,
{
    if n == 0 {
        1
    } else {
        10 * pow10((n - 1) as nat)
    }
}

/// Every character of `s` is an ASCII digit.
pub open spec fn all_digits(s: Seq<char>) -> bool {
    forall|k: int| 0 <= k < s.len() ==> is_digit(s[k])
}

/// The value of a digit run read left to right as a base-10 number.
pub open spec fn run_value(s: Seq<char>) -> int
    decreases s.len(),
{
    if s.len() == 0 {
        0
    } else {
        digit_val(s[0]) * pow10((s.len() - 1) as nat) + run_value(s.skip(1))
    }
}

/// The length of the maximal digit run at the head of `s`.
pub open spec fn digit_run_len(s: Seq<char>) -> nat
    decreases s.len(),
{
    if s.len() == 0 || !is_digit(s[0]) {
        0
    } else {
        (1 + digit_run_len(s.skip(1))) as nat
    }
}

proof fn lemma_digit_run_len_le(s: Seq<char>)
    ensures
        digit_run_len(s) <= s.len(),
    decreases s.len(),
{
    if s.len() > 0 && is_digit(s[0]) {
        lemma_digit_run_len_le(s.skip(1));
    }
}

/// The natural order itself.  Digit runs at both heads are consumed
/// whole and compared numerically; a tie continues after both runs.
/// Other characters are compared by code point, an exhausted string
/// sorts first, and two simultaneously exhausted strings are equal.
pub open spec fn spec_smart_cmp(a: Seq<char>, b: Seq<char>) -> Ordering
    decreases a.len() + b.len(),
    via spec_smart_cmp_decreases
{
    if a.len() == 0 && b.len() == 0 {
        Ordering::Equal
    } else if a.len() == 0 {
        Ordering::Less
    } else if b.len() == 0 {
        Ordering::Greater
    } else if is_digit(a[0]) && is_digit(b[0]) {
        let la = digit_run_len(a) as int;
        let lb = digit_run_len(b) as int;
        let va = run_value(a.take(la));
        let vb = run_value(b.take(lb));
        if va < vb {
            Ordering::Less
        } else if va > vb {
            Ordering::Greater
        } else {
            spec_smart_cmp(a.skip(la), b.skip(lb))
        }
    } else if (a[0] as int) < (b[0] as int) {
        Ordering::Less
    } else if (a[0] as int) > (b[0] as int) {
        Ordering::Greater
    } else {
        spec_smart_cmp(a.skip(1), b.skip(1))
    }
}

#[via_fn]
proof fn spec_smart_cmp_decreases(a: Seq<char>, b: Seq<char>) {
    lemma_digit_run_len_le(a);
    lemma_digit_run_len_le(b);
}

fn is_digit_exec(c: char) -> (r: bool)
    ensures
        r == is_digit(c),
{
    let cu: u32 = c as u32;
    ('0' as u32) <= cu && cu <= ('9' as u32)
}

proof fn lemma_digit_run_len_eq(s: Seq<char>, n: int)
    requires
        0 <= n <= s.len(),
        forall|k: int| 0 <= k < n ==> is_digit(s[k]),
        n == s.len() || !is_digit(s[n]),
    ensures
        digit_run_len(s) == n,
    decreases n,
{
    if n > 0 {
        lemma_digit_run_len_eq(s.skip(1), n - 1);
    }
}

proof fn lemma_run_value_nonneg(s: Seq<char>)
    requires
        all_digits(s),
    ensures
        0 <= run_value(s),
    decreases s.len(),
{
    if s.len() > 0 {
        assert(is_digit(s[0]));
        lemma_run_value_nonneg(s.skip(1));
        lemma_pow10_pos((s.len() - 1) as nat);
        lemma_mul_inequality(0, digit_val(s[0]), pow10((s.len() - 1) as nat));
    }
}

proof fn lemma_pow10_pos(n: nat)
    ensures
        pow10(n) >= 1,
    decreases n,
{
    if n > 0 {
        lemma_pow10_pos((n - 1) as nat);
    }
}

proof fn lemma_pow10_mono(m: nat, n: nat)
    requires
        m <= n,
    ensures
        pow10(m) <= pow10(n),
    decreases n,
{
    if m < n {
        lemma_pow10_mono(m, (n - 1) as nat);
        lemma_pow10_pos((n - 1) as nat);
    }
}

proof fn lemma_run_value_upper(s: Seq<char>)
    requires
        all_digits(s),
    ensures
        run_value(s) < pow10(s.len()),
    decreases s.len(),
{
    if s.len() > 0 {
        let p = pow10((s.len() - 1) as nat);
        assert(is_digit(s[0]));
        lemma_run_value_upper(s.skip(1));
        lemma_pow10_pos((s.len() - 1) as nat);
        lemma_mul_inequality(digit_val(s[0]), 9, p);
    }
}

proof fn lemma_run_value_lower(s: Seq<char>)
    requires
        all_digits(s),
        s.len() > 0,
        s[0] != '0',
    ensures
        run_value(s) >= pow10((s.len() - 1) as nat),
    decreases s.len(),
{
    let p = pow10((s.len() - 1) as nat);
    assert(is_digit(s[0]));
    lemma_run_value_nonneg(s.skip(1));
    lemma_pow10_pos((s.len() - 1) as nat);
    lemma_mul_inequality(1, digit_val(s[0]), p);
}

proof fn lemma_run_value_strip_zeros(s: Seq<char>, z: int)
    requires
        0 <= z <= s.len(),
        forall|k: int| 0 <= k < z ==> s[k] == '0',
    ensures
        run_value(s) == run_value(s.skip(z)),
    decreases z,
{
    if z == 0 {
        assert(s.skip(0) =~= s);
    } else {
        assert(digit_val(s[0]) == 0);
        lemma_run_value_strip_zeros(s.skip(1), z - 1);
        assert(s.skip(1).skip(z - 1) =~= s.skip(z));
    }
}

proof fn lemma_run_value_lt_by_len(s: Seq<char>, t: Seq<char>)
    requires
        all_digits(s),
        all_digits(t),
        s.len() < t.len(),
        t.len() > 0,
        t[0] != '0',
    ensures
        run_value(s) < run_value(t),
{
    lemma_run_value_upper(s);
    lemma_pow10_mono(s.len(), (t.len() - 1) as nat);
    lemma_run_value_lower(t);
}

proof fn lemma_run_value_lex(s: Seq<char>, t: Seq<char>, d: int)
    requires
        all_digits(s),
        all_digits(t),
        s.len() == t.len(),
        0 <= d < s.len(),
        forall|k: int| 0 <= k < d ==> s[k] == t[k],
        digit_val(s[d]) < digit_val(t[d]),
    ensures
        run_value(s) < run_value(t),
    decreases d,
{
    let p = pow10((s.len() - 1) as nat);
    if d == 0 {
        assert(is_digit(s[0]) && is_digit(t[0]));
        lemma_run_value_upper(s.skip(1));
        lemma_run_value_nonneg(t.skip(1));
        lemma_pow10_pos((s.len() - 1) as nat);
        lemma_mul_inequality(digit_val(s[0]) + 1, digit_val(t[0]), p);
        assert((digit_val(s[0]) + 1) * p == digit_val(s[0]) * p + p) by (nonlinear_arith);
    } else {
        lemma_run_value_lex(s.skip(1), t.skip(1), d - 1);
    }
}

/// `Equal` stays `Equal`; `Less` and `Greater` swap.
pub open spec fn flip(o: Ordering) -> Ordering {
    match o {
        Ordering::Less => Ordering::Greater,
        Ordering::Equal => Ordering::Equal,
        Ordering::Greater => Ordering::Less,
    }
}

/// Comparing a string with itself yields `Equal`.
pub proof fn lemma_smart_cmp_reflexive(a: Seq<char>)
    ensures
        spec_smart_cmp(a, a) == Ordering::Equal,
    decreases a.len(),
{
    if a.len() == 0 {
    } else if is_digit(a[0]) {
        let la = digit_run_len(a) as int;
        lemma_digit_run_len_le(a);
        lemma_smart_cmp_reflexive(a.skip(la));
    } else {
        lemma_smart_cmp_reflexive(a.skip(1));
    }
}

/// Swapping the two strings swaps `Less` and `Greater` and keeps
/// `Equal`: the order is antisymmetric.
pub proof fn lemma_smart_cmp_antisymmetric(a: Seq<char>, b: Seq<char>)
    ensures
        spec_smart_cmp(b, a) == flip(spec_smart_cmp(a, b)),
    decreases a.len() + b.len(),
{
    if a.len() == 0 || b.len() == 0 {
    } else {
        lemma_digit_run_len_le(a);
        lemma_digit_run_len_le(b);
        if is_digit(a[0]) && is_digit(b[0]) {
            let la = digit_run_len(a) as int;
            let lb = digit_run_len(b) as int;
            if run_value(a.take(la)) == run_value(b.take(lb)) {
                lemma_smart_cmp_antisymmetric(a.skip(la), b.skip(lb));
            }
        } else {
            if a[0] == b[0] {
                lemma_smart_cmp_antisymmetric(a.skip(1), b.skip(1));
            }
        }
    }
}

/// The order is transitive, together with the equivalence written
/// `Equal`: `Less` composed with `Less` or with `Equal` stays `Less`,
/// and `Equal` composed with `Equal` stays `Equal`.
pub proof fn lemma_smart_cmp_transitive(a: Seq<char>, b: Seq<char>, c: Seq<char>)
    ensures
        spec_smart_cmp(a, b) == Ordering::Less && spec_smart_cmp(b, c) == Ordering::Less
            ==> spec_smart_cmp(a, c) == Ordering::Less,
        spec_smart_cmp(a, b) == Ordering::Equal && spec_smart_cmp(b, c) == Ordering::Equal
            ==> spec_smart_cmp(a, c) == Ordering::Equal,
        spec_smart_cmp(a, b) == Ordering::Equal && spec_smart_cmp(b, c) == Ordering::Less
            ==> spec_smart_cmp(a, c) == Ordering::Less,
        spec_smart_cmp(a, b) == Ordering::Less && spec_smart_cmp(b, c) == Ordering::Equal
            ==> spec_smart_cmp(a, c) == Ordering::Less,
    decreases a.len() + b.len() + c.len(),
{
    if a.len() == 0 || b.len() == 0 || c.len() == 0 {
        // decided at once by the exhaustion rules
    } else {
        lemma_digit_run_len_le(a);
        lemma_digit_run_len_le(b);
        lemma_digit_run_len_le(c);
        if is_digit(a[0]) && is_digit(b[0]) && is_digit(c[0]) {
            let la = digit_run_len(a) as int;
            let lb = digit_run_len(b) as int;
            let lc = digit_run_len(c) as int;
            if run_value(a.take(la)) == run_value(b.take(lb)) && run_value(b.take(lb))
                == run_value(c.take(lc)) {
                lemma_smart_cmp_transitive(a.skip(la), b.skip(lb), c.skip(lc));
            }
            // with distinct run values the comparison of values settles it
        } else if a[0] == b[0] && b[0] == c[0] {
            // the shared head is no digit, so all three comparisons step past it
            lemma_smart_cmp_transitive(a.skip(1), b.skip(1), c.skip(1));
        }
        // in every other case the heads decide: a digit run meets a
        // non-digit character, and since the digits are contiguous code
        // points, the non-digit lies on the same side of the whole run
    }
}

fn run_end(s: &str, start: usize, len: usize) -> (r: usize)
    requires
        len == s@.len(),
        start < len,
        is_digit(s@[start as int]),
    ensures
        start < r <= len,
        forall|k: int| start <= k < r ==> is_digit(s@[k]),
        r == len || !is_digit(s@[r as int]),
        r - start == digit_run_len(s@.skip(start as int)),
{
    let mut r: usize = start;
    loop
        invariant
            start <= r <= len,
            len == s@.len(),
            forall|k: int| start <= k < r ==> is_digit(s@[k]),
        ensures
            start <= r <= len,
            forall|k: int| start <= k < r ==> is_digit(s@[k]),
            r == len || !is_digit(s@[r as int]),
        decreases len - r,
    {
        if r == len {
            break ;
        }
        let c = s.get_char(r);
        if !is_digit_exec(c) {
            break ;
        }
        r = r + 1;
    }
    proof {
        let suffix = s@.skip(start as int);
        assert forall|k: int| 0 <= k < r - start implies is_digit(suffix[k]) by {
            assert(suffix[k] == s@[start + k]);
        }
        lemma_digit_run_len_eq(suffix, r - start);
    }
    r
}

fn skip_zeros(s: &str, start: usize, end: usize) -> (r: usize)
    requires
        end <= s@.len(),
        start <= end,
    ensures
        start <= r <= end,
        forall|k: int| start <= k < r ==> s@[k] == '0',
        r == end || s@[r as int] != '0',
{
    let mut r: usize = start;
    loop
        invariant
            start <= r <= end,
            end <= s@.len(),
            forall|k: int| start <= k < r ==> s@[k] == '0',
        ensures
            start <= r <= end,
            forall|k: int| start <= k < r ==> s@[k] == '0',
            r == end || s@[r as int] != '0',
        decreases end - r,
    {
        if r == end {
            break ;
        }
        let c = s.get_char(r);
        if c != '0' {
            break ;
        }
        r = r + 1;
    }
    r
}

fn cmp_runs(a: &str, ai: usize, ar: usize, b: &str, bi: usize, br: usize) -> (r: Ordering)
    requires
        ai <= ar <= a@.len(),
        bi <= br <= b@.len(),
        forall|k: int| ai <= k < ar ==> is_digit(a@[k]),
        forall|k: int| bi <= k < br ==> is_digit(b@[k]),
    ensures
        ({
            let va = run_value(a@.subrange(ai as int, ar as int));
            let vb = run_value(b@.subrange(bi as int, br as int));
            r == if va < vb {
                Ordering::Less
            } else if va > vb {
                Ordering::Greater
            } else {
                Ordering::Equal
            }
        }),
{
    let ghost ra = a@.subrange(ai as int, ar as int);
    let ghost rb = b@.subrange(bi as int, br as int);
    let a0 = skip_zeros(a, ai, ar);
    let b0 = skip_zeros(b, bi, br);
    let ghost sa = a@.subrange(a0 as int, ar as int);
    let ghost sb = b@.subrange(b0 as int, br as int);
    proof {
        assert forall|k: int| 0 <= k < a0 - ai implies ra[k] == '0' by {}
        lemma_run_value_strip_zeros(ra, a0 - ai);
        assert(ra.skip(a0 - ai) =~= sa);
        assert forall|k: int| 0 <= k < b0 - bi implies rb[k] == '0' by {}
        lemma_run_value_strip_zeros(rb, b0 - bi);
        assert(rb.skip(b0 - bi) =~= sb);
        assert(all_digits(sa));
        assert(all_digits(sb));
    }
    let la = ar - a0;
    let lb = br - b0;
    if la < lb {
        proof {
            lemma_run_value_lt_by_len(sa, sb);
        }
        return Ordering::Less;
    }
    if la > lb {
        proof {
            lemma_run_value_lt_by_len(sb, sa);
        }
        return Ordering::Greater;
    }
    let mut k: usize = 0;
    loop
        invariant
            k <= la,
            la == lb,
            ai <= a0 <= ar <= a@.len(),
            bi <= b0 <= br <= b@.len(),
            la == ar - a0,
            lb == br - b0,
            sa == a@.subrange(a0 as int, ar as int),
            sb == b@.subrange(b0 as int, br as int),
            forall|j: int| 0 <= j < k ==> sa[j] == sb[j],
            forall|j: int| ai <= j < ar ==> is_digit(a@[j]),
            forall|j: int| bi <= j < br ==> is_digit(b@[j]),
        ensures
            k <= la,
            forall|j: int| 0 <= j < k ==> sa[j] == sb[j],
            k == la || sa[k as int] != sb[k as int],
        decreases la - k,
    {
        if k == la {
            break ;
        }
        let ca = a.get_char(a0 + k);
        let cb = b.get_char(b0 + k);
        if ca != cb {
            break ;
        }
        k = k + 1;
    }
    if k == la {
        proof {
            assert(sa =~= sb);
        }
        Ordering::Equal
    } else {
        let ca = a.get_char(a0 + k);
        let cb = b.get_char(b0 + k);
        if (ca as u32) < (cb as u32) {
            proof {
                lemma_run_value_lex(sa, sb, k as int);
            }
            Ordering::Less
        } else {
            proof {
                lemma_run_value_lex(sb, sa, k as int);
            }
            Ordering::Greater
        }
    }
}

/// Compares two strings in natural order: digit runs by numeric value,
/// everything else by code point, the way a file browser lists pages.
pub fn smart_cmp(a: &str, b: &str) -> (r: Ordering)
    ensures
        r == spec_smart_cmp(a@, b@),
{
    let alen = a.unicode_len();
    let blen = b.unicode_len();
    let mut i: usize = 0;
    let mut j: usize = 0;
    proof {
        assert(a@.skip(0) =~= a@);
        assert(b@.skip(0) =~= b@);
    }
    loop
        invariant
            i <= alen,
            j <= blen,
            alen == a@.len(),
            blen == b@.len(),
            spec_smart_cmp(a@.skip(i as int), b@.skip(j as int)) == spec_smart_cmp(a@, b@),
        decreases alen - i + blen - j,
    {
        let ghost sa = a@.skip(i as int);
        let ghost sb = b@.skip(j as int);
        if i == alen && j == blen {
            return Ordering::Equal;
        }
        if i == alen {
            return Ordering::Less;
        }
        if j == blen {
            return Ordering::Greater;
        }
        let ca = a.get_char(i);
        let cb = b.get_char(j);
        proof {
            assert(sa[0] == a@[i as int]);
            assert(sb[0] == b@[j as int]);
        }
        if is_digit_exec(ca) && is_digit_exec(cb) {
            let ar = run_end(a, i, alen);
            let br = run_end(b, j, blen);
            proof {
                assert forall|k: int| 0 <= k < ar - i implies is_digit(sa[k]) by {
                    assert(sa[k] == a@[i + k]);
                }
                assert forall|k: int| 0 <= k < br - j implies is_digit(sb[k]) by {
                    assert(sb[k] == b@[j + k]);
                }
                lemma_digit_run_len_eq(sa, ar - i);
                lemma_digit_run_len_eq(sb, br - j);
                assert(sa.take(ar - i) =~= a@.subrange(i as int, ar as int));
                assert(sb.take(br - j) =~= b@.subrange(j as int, br as int));
            }
            let ord = cmp_runs(a, i, ar, b, j, br);
            match ord {
                Ordering::Equal => {
                    proof {
                        assert(sa.skip(ar - i) =~= a@.skip(ar as int));
                        assert(sb.skip(br - j) =~= b@.skip(br as int));
                    }
                    i = ar;
                    j = br;
                },
                _ => {
                    return ord;
                },
            }
        } else {
            if (ca as u32) < (cb as u32) {
                return Ordering::Less;
            }
            if (ca as u32) > (cb as u32) {
                return Ordering::Greater;
            }
            proof {
                assert(sa.skip(1) =~= a@.skip(i + 1));
                assert(sb.skip(1) =~= b@.skip(j + 1));
            }
            i = i + 1;
            j = j + 1;
        }
    }
}

} // verus!
