use vstd::prelude::*;
use vstd::string::StringExecFns;

use crate::validations::{is_digit, is_digit_char};

verus! {

/// The characters of `s`, in order, as a vector.
pub fn chars_of(s: &str) -> (r: Vec<char>)
    ensures
        r@ == s@,
{
    let mut out: Vec<char> = Vec::new();
    for c in it: s.chars()
        invariant
            it.seq() == s@,
            out@ == it.seq().take(it.index() as int),
    {
        out.push(c);
    }
    assert(out@ =~= s@);
    out
}

} // verus!

verus! {

/// The value of an ASCII digit.
pub open spec fn digit_value(c: char) -> nat {
    (c as int - '0' as int) as nat
}

/// Every character of `s` is an ASCII digit.
pub open spec fn all_digits(s: Seq<char>) -> bool {
    forall|i: int| 0 <= i < s.len() ==> is_digit(#[trigger] s[i])
}

/// The number that a run of decimal digits denotes (0 for an empty run).
pub open spec fn digits_value(s: Seq<char>) -> nat
    decreases s.len(),
{
    if s.len() == 0 {
        0
    } else {
        digits_value(s.drop_last()) * 10 + digit_value(s.last())
    }
}

/// A prefix of a digit run never denotes more than the whole run.
pub proof fn lemma_digits_value_prefix(s: Seq<char>, i: int)
    requires
        0 <= i <= s.len(),
    ensures
        digits_value(s.take(i)) <= digits_value(s),
    decreases s.len() - i,
{
    if i == s.len() {
        assert(s.take(i) =~= s);
    } else {
        lemma_digits_value_prefix(s.drop_last(), i);
        assert(s.drop_last().take(i) =~= s.take(i));
    }
}

/// The number held by the digits `v[from..to]`, if they are all digits, at
/// least one, and the number fits in a `usize`.
pub fn parse_number(v: &Vec<char>, from: usize, to: usize) -> (r: Option<usize>)
    requires
        from <= to <= v.len(),
    ensures
        ({
            let d = v@.subrange(from as int, to as int);
            match r {
                Some(n) => d.len() > 0 && all_digits(d) && n == digits_value(d),
                None => !(d.len() > 0 && all_digits(d) && digits_value(d) <= usize::MAX),
            }
        }),
{
    let ghost d = v@.subrange(from as int, to as int);
    if from == to {
        return None;
    }
    let mut acc: usize = 0;
    let mut i: usize = from;
    while i < to
        invariant
            from <= i <= to <= v.len(),
            d == v@.subrange(from as int, to as int),
            all_digits(d.take(i - from)),
            acc == digits_value(d.take(i - from)),
        decreases to - i,
    {
        let c = v[i];
        let ghost pre = d.take(i - from);
        let ghost next = d.take(i + 1 - from);
        assert(next.drop_last() =~= pre);
        if !is_digit_char(c) {
            assert(d[i - from] == c);
            assert(!is_digit(d[i - from]));
            return None;
        }
        let dv: usize = (c as u32 - '0' as u32) as usize;
        match acc.checked_mul(10) {
            Some(m) => match m.checked_add(dv) {
                Some(n) => {
                    acc = n;
                },
                None => {
                    proof {
                        lemma_digits_value_prefix(d, i + 1 - from);
                    }
                    return None;
                },
            },
            None => {
                proof {
                    lemma_digits_value_prefix(d, i + 1 - from);
                }
                return None;
            },
        }
        i += 1;
        assert(all_digits(d.take(i - from)));
    }
    assert(d.take(i - from) =~= d);
    Some(acc)
}

} // verus!

verus! {

/// Ten to the power `n`.
pub open spec fn pow10(n: nat) -> nat
    decreases n,
{
    if n == 0 {
        1
    } else {
        10 * pow10((n - 1) as nat)
    }
}

pub proof fn lemma_pow10_monotone(m: nat, n: nat)
    requires
        m <= n,
    ensures
        1 <= pow10(m) <= pow10(n),
    decreases n,
{
    if n > m {
        lemma_pow10_monotone(m, (n - 1) as nat);
    } else if n > 0 {
        lemma_pow10_monotone(0, (n - 1) as nat);
    }
}

/// The value of two digit runs written one after the other.
pub proof fn lemma_digits_value_concat(x: Seq<char>, y: Seq<char>)
    ensures
        digits_value(x + y) == digits_value(x) * pow10(y.len()) + digits_value(y),
    decreases y.len(),
{
    if y.len() == 0 {
        assert(x + y =~= x);
        assert(pow10(0) == 1);
        assert(digits_value(y) == 0);
    } else {
        let y0 = y.drop_last();
        lemma_digits_value_concat(x, y0);
        assert((x + y).drop_last() =~= x + y0);
        assert((x + y).last() == y.last());
        assert(pow10(y.len()) == 10 * pow10(y0.len()));
        assert(digits_value(x + y) == digits_value(x + y0) * 10 + digit_value(y.last()));
        assert(digits_value(y) == digits_value(y0) * 10 + digit_value(y.last()));
        let a = digits_value(x) as int;
        let p = pow10(y0.len()) as int;
        let b = digits_value(y0) as int;
        let d = digit_value(y.last()) as int;
        assert((a * p + b) * 10 + d == a * (10 * p) + (b * 10 + d)) by (nonlinear_arith);
        assert(digits_value(x + y0) == a * p + b);
        assert(digits_value(x + y) == (a * p + b) * 10 + d);
        assert(digits_value(x) * pow10(y.len()) == a * (10 * p));
    }
}

/// A run of `n` digits denotes less than ten to the `n`.
pub proof fn lemma_digits_value_bound(s: Seq<char>)
    requires
        all_digits(s),
    ensures
        digits_value(s) < pow10(s.len()),
    decreases s.len(),
{
    if s.len() > 0 {
        let s0 = s.drop_last();
        assert(all_digits(s0)) by {
            assert forall|i: int| 0 <= i < s0.len() implies is_digit(#[trigger] s0[i]) by {
                assert(s0[i] == s[i]);
            }
        }
        lemma_digits_value_bound(s0);
        assert(is_digit(s[s.len() - 1]));
        let v = digits_value(s0) as int;
        let p = pow10(s0.len()) as int;
        assert(v * 10 <= (p - 1) * 10) by (nonlinear_arith)
            requires
                v <= p - 1,
        ;
    }
}

/// A digit run without leading zero denotes at least ten to the length minus one.
pub proof fn lemma_digits_value_lower(s: Seq<char>)
    requires
        s.len() > 0,
        all_digits(s),
        s[0] != '0',
    ensures
        digits_value(s) >= pow10((s.len() - 1) as nat),
{
    let h = s.take(1);
    let t = s.skip(1);
    assert(h + t =~= s);
    lemma_digits_value_concat(h, t);
    assert(h.drop_last() =~= Seq::<char>::empty());
    assert(is_digit(s[0]));
    let d = digits_value(h) as int;
    let p = pow10(t.len()) as int;
    assert(d >= 1);
    assert(d * p >= p) by (nonlinear_arith)
        requires
            d >= 1,
            p >= 0,
    ;
}

/// Leading zeros do not change what a digit run denotes.
pub proof fn lemma_digits_value_zeros(s: Seq<char>, k: int)
    requires
        0 <= k <= s.len(),
        forall|i: int| 0 <= i < k ==> s[i] == '0',
    ensures
        digits_value(s.skip(k)) == digits_value(s),
    decreases k,
{
    if k > 0 {
        let z = s.take(k);
        assert(z + s.skip(k) =~= s);
        lemma_digits_value_concat(z, s.skip(k));
        assert forall|i: int| 0 <= i < z.len() implies z[i] == '0' by {
            assert(z[i] == s[i]);
        }
        lemma_zeros_value(z);
        assert(digits_value(z) == 0);
        let p = pow10(s.skip(k).len());
        assert(0 * p == 0) by (nonlinear_arith);
    } else {
        assert(s.skip(0) =~= s);
    }
}

proof fn lemma_zeros_value(z: Seq<char>)
    requires
        forall|i: int| 0 <= i < z.len() ==> z[i] == '0',
    ensures
        digits_value(z) == 0,
    decreases z.len(),
{
    if z.len() > 0 {
        assert forall|i: int| 0 <= i < z.len() - 1 implies z.drop_last()[i] == '0' by {
            assert(z.drop_last()[i] == z[i]);
        }
        lemma_zeros_value(z.drop_last());
        assert(z.last() == '0');
    }
}

/// Of two digit runs of one length, the one with the smaller digit at the first
/// place where they differ denotes less.
pub proof fn lemma_digits_value_first_difference(x: Seq<char>, y: Seq<char>, k: int)
    requires
        x.len() == y.len(),
        all_digits(x),
        all_digits(y),
        0 <= k < x.len(),
        x.take(k) == y.take(k),
        x[k] < y[k],
    ensures
        digits_value(x) < digits_value(y),
{
    let m = (x.len() - k - 1) as nat;
    let xh = x.take(k + 1);
    let yh = y.take(k + 1);
    let xt = x.skip(k + 1);
    let yt = y.skip(k + 1);
    assert(xh + xt =~= x);
    assert(yh + yt =~= y);
    lemma_digits_value_concat(xh, xt);
    lemma_digits_value_concat(yh, yt);
    assert(xh.drop_last() =~= x.take(k));
    assert(yh.drop_last() =~= y.take(k));
    assert(all_digits(xt)) by {
        assert forall|i: int| 0 <= i < xt.len() implies is_digit(#[trigger] xt[i]) by {
            assert(xt[i] == x[i + k + 1]);
        }
    }
    lemma_digits_value_bound(xt);
    assert(is_digit(x[k]) && is_digit(y[k]));
    let pre = digits_value(x.take(k)) as int;
    let dx = digit_value(x[k]) as int;
    let dy = digit_value(y[k]) as int;
    let p = pow10(m) as int;
    let vx = digits_value(xt) as int;
    let vy = digits_value(yt) as int;
    assert(dx + 1 <= dy);
    assert((pre * 10 + dx) * p + vx < (pre * 10 + dy) * p + vy) by (nonlinear_arith)
        requires
            dx + 1 <= dy,
            vx < p,
            vy >= 0,
            p >= 1,
    ;
}

} // verus!

verus! {

/// The character of a decimal digit.
pub open spec fn digit_char(d: nat) -> char {
    seq!['0', '1', '2', '3', '4', '5', '6', '7', '8', '9'][d as int]
}

/// The decimal notation of `n`, without leading zeros.
pub open spec fn decimal(n: nat) -> Seq<char>
    decreases n,
{
    if n < 10 {
        seq![digit_char(n)]
    } else {
        decimal(n / 10).push(digit_char(n % 10))
    }
}

proof fn lemma_digit_char(d: nat)
    requires
        d < 10,
    ensures
        is_digit(digit_char(d)),
        digit_value(digit_char(d)) == d,
{
    let t = seq!['0', '1', '2', '3', '4', '5', '6', '7', '8', '9'];
    assert(t[0] == '0' && t[1] == '1' && t[2] == '2' && t[3] == '3' && t[4] == '4');
    assert(t[5] == '5' && t[6] == '6' && t[7] == '7' && t[8] == '8' && t[9] == '9');
}

/// Decimal notation is a non-empty digit run that denotes `n`.
pub proof fn lemma_decimal(n: nat)
    ensures
        decimal(n).len() > 0,
        all_digits(decimal(n)),
        digits_value(decimal(n)) == n,
    decreases n,
{
    lemma_digit_char(n % 10);
    if n < 10 {
        assert(decimal(n).drop_last() =~= Seq::<char>::empty());
        assert(n % 10 == n);
        assert(digits_value(decimal(n)) == digits_value(Seq::<char>::empty()) * 10 + digit_value(
            digit_char(n),
        ));
    } else {
        lemma_decimal(n / 10);
        let d = decimal(n);
        assert(d.drop_last() =~= decimal(n / 10));
        assert(d.last() == digit_char(n % 10));
        assert(digits_value(d) == digits_value(decimal(n / 10)) * 10 + (n % 10));
        assert((n / 10) * 10 + n % 10 == n) by (nonlinear_arith);
        assert forall|i: int| 0 <= i < d.len() implies is_digit(#[trigger] d[i]) by {
            if i < d.len() - 1 {
                assert(d[i] == decimal(n / 10)[i]);
            }
        }
    }
}

fn digit_str(d: usize) -> (r: &'static str)
    requires
        d < 10,
    ensures
        r@ == seq![digit_char(d as nat)],
{
    proof {
        reveal_strlit("0");
        reveal_strlit("1");
        reveal_strlit("2");
        reveal_strlit("3");
        reveal_strlit("4");
        reveal_strlit("5");
        reveal_strlit("6");
        reveal_strlit("7");
        reveal_strlit("8");
        reveal_strlit("9");
    }
    let r = match d {
        0 => "0",
        1 => "1",
        2 => "2",
        3 => "3",
        4 => "4",
        5 => "5",
        6 => "6",
        7 => "7",
        8 => "8",
        _ => "9",
    };
    assert(r@ =~= seq![digit_char(d as nat)]);
    r
}

/// Appends the decimal notation of `n` to `out`.
pub fn push_decimal(out: &mut String, n: usize)
    ensures
        final(out)@ == old(out)@ + decimal(n as nat),
    decreases n,
{
    if n >= 10 {
        push_decimal(out, n / 10);
    }
    out.append(digit_str(n % 10));
    assert(n >= 10 ==> decimal(n as nat) == decimal((n / 10) as nat).push(digit_char((n % 10) as nat)));
}

} // verus!
