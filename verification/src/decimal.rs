//! Canonical decimal strings and their integer values.
//!
//! Keys and ciphertexts carry their integers as decimal strings, so the
//! contracts of the whole crate are stated over `dec_value`, the integer a
//! digit string denotes. This module also provides verified validation and
//! comparison of such strings, so that range checks need no big-number
//! arithmetic at all.

use vstd::prelude::*;
use vstd::arithmetic::power::{pow, lemma_pow_positive, lemma_pow_strictly_increases};

verus! {

/// `c` is one of the characters '0' through '9'.
pub open spec fn is_digit(c: char) -> bool {
    48 <= c as int && c as int <= 57
}

/// The numeric value of a digit character.
pub open spec fn digit_val(c: char) -> int {
    c as int - 48
}

/// Every character of `s` is a decimal digit.
pub open spec fn all_digits(s: Seq<char>) -> bool {
    forall|i: int| 0 <= i < s.len() ==> is_digit(#[trigger] s[i])
}

/// The integer denoted by a digit sequence, most significant digit first.
pub open spec fn dec_value(s: Seq<char>) -> int
    decreases s.len(),
{
    if s.len() == 0 {
        0
    } else {
        10 * dec_value(s.drop_last()) + digit_val(s.last())
    }
}

/// `s` is the canonical decimal representation of a nonnegative integer:
/// nonempty, digits only, and no leading zero except in "0" itself.
pub open spec fn is_dec_string(s: Seq<char>) -> bool {
    &&& s.len() >= 1
    &&& all_digits(s)
    &&& s.len() > 1 ==> s[0] != '0'
}

/// A canonical decimal string, or a minus sign before the canonical form
/// of a nonzero value: the shape of everything the big-number printer
/// emits (zero is never printed with a sign).
pub open spec fn is_signed_dec_string(s: Seq<char>) -> bool {
    is_dec_string(s) || (s.len() >= 2 && s[0] == '-' && is_dec_string(s.skip(1)) && dec_value(
        s.skip(1),
    ) > 0)
}

/// The integer a printer-shaped string denotes, sign included.
pub open spec fn signed_dec_value(s: Seq<char>) -> int {
    if s.len() >= 1 && s[0] == '-' {
        -dec_value(s.skip(1))
    } else {
        dec_value(s)
    }
}

/// Length of the run of digits at the front of `s`.
pub open spec fn digit_prefix_len(s: Seq<char>) -> int
    decreases s.len(),
{
    if s.len() == 0 || !is_digit(s[0]) {
        0
    } else {
        1 + digit_prefix_len(s.skip(1))
    }
}

/// The big-number parser accepts `s`: an optional minus sign followed by
/// at least one digit.
pub open spec fn parses_as_int(s: Seq<char>) -> bool {
    if s.len() >= 1 && s[0] == '-' {
        digit_prefix_len(s.skip(1)) > 0
    } else {
        digit_prefix_len(s) > 0
    }
}

/// The integer the big-number parser reads from `s`: the value of the
/// longest digit run at the front, negated after a minus sign.
pub open spec fn parsed_int(s: Seq<char>) -> int {
    if s.len() >= 1 && s[0] == '-' {
        -dec_value(s.skip(1).take(digit_prefix_len(s.skip(1))))
    } else {
        dec_value(s.take(digit_prefix_len(s)))
    }
}

/// A string of digits only is its own digit prefix.
pub proof fn lemma_digit_prefix_all_digits(s: Seq<char>)
    requires
        all_digits(s),
    ensures
        digit_prefix_len(s) == s.len(),
    decreases s.len(),
{
    if s.len() > 0 {
        assert(is_digit(s[0]));
        assert(all_digits(s.skip(1)));
        lemma_digit_prefix_all_digits(s.skip(1));
    }
}

/// A canonical string parses, to its own value.
pub proof fn lemma_dec_string_parses_itself(s: Seq<char>)
    requires
        is_dec_string(s),
    ensures
        parses_as_int(s),
        parsed_int(s) == dec_value(s),
        signed_dec_value(s) == dec_value(s),
{
    assert(is_digit(s[0]));
    assert(s[0] != '-');
    lemma_digit_prefix_all_digits(s);
    assert(s.take(digit_prefix_len(s)) =~= s);
}

/// A printer-shaped string denoting a nonnegative value is canonical.
pub proof fn lemma_signed_nonneg_is_canonical(s: Seq<char>)
    requires
        is_signed_dec_string(s),
        signed_dec_value(s) >= 0,
    ensures
        is_dec_string(s),
        dec_value(s) == signed_dec_value(s),
{
    if !is_dec_string(s) {
        assert(s[0] == '-');
        assert(signed_dec_value(s) == -dec_value(s.skip(1)));
        assert(false);
    }
    assert(is_digit(s[0]));
    assert(s[0] != '-');
}

/// No character of `s` is NUL, which the big-number parser cannot take.
pub open spec fn no_nul(s: Seq<char>) -> bool {
    forall|i: int| 0 <= i < s.len() ==> #[trigger] s[i] != '\0'
}

/// Printer-shaped strings contain no NUL character.
pub broadcast proof fn lemma_signed_dec_string_no_nul(s: Seq<char>)
    ensures
        is_signed_dec_string(s) ==> #[trigger] no_nul(s),
{
    if is_signed_dec_string(s) {
        assert forall|i: int| 0 <= i < s.len() implies #[trigger] s[i] != '\0' by {
            if is_dec_string(s) {
                assert(is_digit(s[i]));
            } else if i > 0 {
                assert(is_digit(s.skip(1)[i - 1]));
                assert(s.skip(1)[i - 1] == s[i]);
            }
        }
    }
}

/// The value of a one-character string is its digit's value.
pub proof fn lemma_dec_value_single(s: Seq<char>)
    requires
        s.len() == 1,
    ensures
        dec_value(s) == digit_val(s[0]),
{
    assert(s.drop_last() =~= Seq::<char>::empty());
    assert(dec_value(s.drop_last()) == 0);
    assert(s.last() == s[0]);
}

/// A digit string of length n denotes a value in [0, 10^n).
pub proof fn lemma_dec_value_bounds(s: Seq<char>)
    requires
        all_digits(s),
    ensures
        0 <= dec_value(s) < pow(10, s.len()),
    decreases s.len(),
{
    reveal(pow);
    if s.len() == 0 {
    } else {
        let t = s.drop_last();
        assert(all_digits(t));
        lemma_dec_value_bounds(t);
        assert(is_digit(s.last()));
        assert(pow(10, s.len()) == 10 * pow(10, t.len()));
    }
}

/// Splitting a digit string anywhere splits its value by a power of ten.
pub proof fn lemma_dec_value_concat(t: Seq<char>, u: Seq<char>)
    ensures
        dec_value(t + u) == dec_value(t) * pow(10, u.len()) + dec_value(u),
    decreases u.len(),
{
    reveal(pow);
    if u.len() == 0 {
        assert(t + u =~= t);
    } else {
        let u0 = u.drop_last();
        lemma_dec_value_concat(t, u0);
        assert((t + u).drop_last() =~= t + u0);
        assert((t + u).last() == u.last());
        assert(dec_value(t + u) == 10 * dec_value(t + u0) + digit_val(u.last()));
        assert(10 * (dec_value(t) * pow(10, u0.len())) == dec_value(t) * (10 * pow(
            10,
            u0.len(),
        ))) by (nonlinear_arith);
        assert(pow(10, u.len()) == 10 * pow(10, u0.len()));
    }
}

/// Peeling off the leading digit: its weight is 10^(n-1).
pub proof fn lemma_dec_value_msb(s: Seq<char>)
    requires
        s.len() >= 1,
    ensures
        dec_value(s) == digit_val(s[0]) * pow(10, (s.len() - 1) as nat) + dec_value(s.skip(1)),
{
    let head = seq![s[0]];
    assert(s =~= head + s.skip(1));
    lemma_dec_value_concat(head, s.skip(1));
    assert(dec_value(Seq::<char>::empty()) == 0);
    assert(head.drop_last() =~= Seq::<char>::empty());
    assert(head.last() == s[0]);
    assert(dec_value(head) == digit_val(s[0]));
}

/// A canonical string of two or more digits denotes at least 10^(n-1).
pub proof fn lemma_dec_value_lower(s: Seq<char>)
    requires
        all_digits(s),
        s.len() >= 1,
        s[0] != '0',
    ensures
        dec_value(s) >= pow(10, (s.len() - 1) as nat),
{
    lemma_dec_value_msb(s);
    assert(is_digit(s[0]));
    assert(digit_val(s[0]) >= 1);
    lemma_pow_positive(10, (s.len() - 1) as nat);
    assert(digit_val(s[0]) * pow(10, (s.len() - 1) as nat) >= pow(10, (s.len() - 1) as nat))
        by (nonlinear_arith)
        requires
            digit_val(s[0]) >= 1,
            pow(10, (s.len() - 1) as nat) > 0,
    ;
    assert(all_digits(s.skip(1)));
    lemma_dec_value_bounds(s.skip(1));
}

/// A shorter canonical string denotes a strictly smaller value.
pub proof fn lemma_dec_shorter_lt(a: Seq<char>, b: Seq<char>)
    requires
        is_dec_string(a),
        is_dec_string(b),
        a.len() < b.len(),
    ensures
        dec_value(a) < dec_value(b),
{
    lemma_dec_value_bounds(a);
    lemma_dec_value_lower(b);
    if a.len() < b.len() - 1 {
        lemma_pow_strictly_increases(10, a.len(), (b.len() - 1) as nat);
    }
}

/// Equal-length digit strings compare like their first differing digit.
pub proof fn lemma_dec_same_len_lt(a: Seq<char>, b: Seq<char>, k: int)
    requires
        all_digits(a),
        all_digits(b),
        a.len() == b.len(),
        0 <= k < a.len(),
        forall|i: int| 0 <= i < k ==> a[i] == b[i],
        digit_val(a[k]) < digit_val(b[k]),
    ensures
        dec_value(a) < dec_value(b),
{
    let n = a.len() as int;
    assert(a =~= a.take(k) + a.skip(k));
    assert(b =~= b.take(k) + b.skip(k));
    assert(a.take(k) =~= b.take(k));
    lemma_dec_value_concat(a.take(k), a.skip(k));
    lemma_dec_value_concat(b.take(k), b.skip(k));
    let sa = a.skip(k);
    let sb = b.skip(k);
    assert(sa.len() == n - k);
    lemma_dec_value_msb(sa);
    lemma_dec_value_msb(sb);
    assert(sa[0] == a[k]);
    assert(sb[0] == b[k]);
    assert(all_digits(sa.skip(1)));
    assert(all_digits(sb.skip(1)));
    lemma_dec_value_bounds(sa.skip(1));
    lemma_dec_value_bounds(sb.skip(1));
    assert(sa.skip(1).len() == n - k - 1);
    lemma_pow_positive(10, (n - k - 1) as nat);
    assert(dec_value(sa) < dec_value(sb)) by (nonlinear_arith)
        requires
            dec_value(sa) == digit_val(a[k]) * pow(10, (n - k - 1) as nat) + dec_value(sa.skip(1)),
            dec_value(sb) == digit_val(b[k]) * pow(10, (n - k - 1) as nat) + dec_value(sb.skip(1)),
            digit_val(a[k]) < digit_val(b[k]),
            0 <= dec_value(sa.skip(1)) < pow(10, (n - k - 1) as nat),
            0 <= dec_value(sb.skip(1)),
            pow(10, (n - k - 1) as nat) > 0,
    ;
    assert(dec_value(a) == dec_value(a.take(k)) * pow(10, sa.len()) + dec_value(sa));
    assert(dec_value(b) == dec_value(a.take(k)) * pow(10, sb.len()) + dec_value(sb));
}

/// `s` is a canonical decimal string.
pub fn dec_check(s: &str) -> (b: bool)
    ensures
        b == is_dec_string(s@),
{
    let n = s.unicode_len();
    if n == 0 {
        return false;
    }
    if n > 1 && s.get_char(0) == '0' {
        return false;
    }
    let mut i: usize = 0;
    while i < n
        invariant
            i <= n,
            n == s@.len(),
            forall|j: int| 0 <= j < i ==> is_digit(#[trigger] s@[j]),
        decreases n - i,
    {
        let c = s.get_char(i);
        let d = c as u32;
        if d < 48 || d > 57 {
            return false;
        }
        i += 1;
    }
    true
}

/// The value of `a` is strictly below the value of `b`.
pub fn dec_lt(a: &str, b: &str) -> (r: bool)
    requires
        is_dec_string(a@),
        is_dec_string(b@),
    ensures
        r == (dec_value(a@) < dec_value(b@)),
{
    let na = a.unicode_len();
    let nb = b.unicode_len();
    if na < nb {
        proof {
            lemma_dec_shorter_lt(a@, b@);
        }
        return true;
    }
    if nb < na {
        proof {
            lemma_dec_shorter_lt(b@, a@);
        }
        return false;
    }
    let mut i: usize = 0;
    while i < na
        invariant
            i <= na,
            na == a@.len(),
            na == b@.len(),
            is_dec_string(a@),
            is_dec_string(b@),
            forall|j: int| 0 <= j < i ==> a@[j] == b@[j],
        decreases na - i,
    {
        let ca = a.get_char(i) as u32;
        let cb = b.get_char(i) as u32;
        if ca < cb {
            proof {
                lemma_dec_same_len_lt(a@, b@, i as int);
            }
            return true;
        }
        if cb < ca {
            proof {
                lemma_dec_same_len_lt(b@, a@, i as int);
            }
            return false;
        }
        i += 1;
    }
    proof {
        assert(a@ =~= b@);
    }
    false
}

} // verus!

