use vstd::prelude::*;

use crate::text::{
    all_digits, digits_value, lemma_digits_value_bound, lemma_digits_value_first_difference,
    lemma_digits_value_lower, lemma_digits_value_zeros, lemma_pow10_monotone,
};
use crate::validations::{is_digit, is_digit_char, is_letter};
use crate::VersionView;

verus! {

/// Weight of a character in the non-digit part of a version: `~` lowest, then
/// the end of the part (weight 0), then letters, then everything else, by code
/// within each class.
pub open spec fn char_order(c: char) -> int {
    if c == '~' {
        -1
    } else if is_letter(c) {
        c as int
    } else {
        c as int + 256
    }
}

/// The sign of `x - y`.
pub open spec fn cmp_int(x: int, y: int) -> int {
    if x < y {
        -1
    } else if x > y {
        1
    } else {
        0
    }
}

/// Weight of position 0 of a non-digit part; 0 past its end.
pub open spec fn head_order(s: Seq<char>) -> int {
    if s.len() == 0 {
        0
    } else {
        char_order(s[0])
    }
}

/// The modified lexical order on non-digit parts: -1, 0 or 1.
pub open spec fn lex_cmp(a: Seq<char>, b: Seq<char>) -> int
    decreases a.len() + b.len(),
{
    if a.len() == 0 && b.len() == 0 {
        0
    } else if a.len() == 0 || b.len() == 0 || head_order(a) != head_order(b) {
        cmp_int(head_order(a), head_order(b))
    } else {
        lex_cmp(a.drop_first(), b.drop_first())
    }
}

/// Length of the longest prefix of `s` made of digits (`digits`) or of
/// non-digits (`!digits`).
pub open spec fn run_len(s: Seq<char>, digits: bool) -> nat
    decreases s.len(),
{
    if s.len() == 0 || is_digit(s[0]) != digits {
        0
    } else {
        1 + run_len(s.drop_first(), digits)
    }
}

/// The ordering of two upstream versions, or of two revisions: alternately a
/// non-digit part in the modified lexical order, then a digit part by value.
pub open spec fn segment_cmp(a: Seq<char>, b: Seq<char>) -> int
    decreases a.len() + b.len(),
    via segment_cmp_decreases
{
    if a.len() == 0 && b.len() == 0 {
        0
    } else {
        let pa = run_len(a, false) as int;
        let pb = run_len(b, false) as int;
        let c = lex_cmp(a.take(pa), b.take(pb));
        if c != 0 {
            c
        } else {
            let ra = a.skip(pa);
            let rb = b.skip(pb);
            let da = run_len(ra, true) as int;
            let db = run_len(rb, true) as int;
            let n = cmp_int(digits_value(ra.take(da)) as int, digits_value(rb.take(db)) as int);
            if n != 0 {
                n
            } else {
                segment_cmp(ra.skip(da), rb.skip(db))
            }
        }
    }
}

/// The run lengths: bounded by the length, and characterised by their characters.
pub proof fn lemma_run_len(s: Seq<char>, digits: bool)
    ensures
        run_len(s, digits) <= s.len(),
        forall|i: int| 0 <= i < run_len(s, digits) ==> is_digit(#[trigger] s[i]) == digits,
        run_len(s, digits) < s.len() ==> is_digit(s[run_len(s, digits) as int]) != digits,
    decreases s.len(),
{
    if s.len() > 0 && is_digit(s[0]) == digits {
        lemma_run_len(s.drop_first(), digits);
        assert forall|i: int| 0 <= i < run_len(s, digits) implies is_digit(#[trigger] s[i])
            == digits by {
            if i > 0 {
                assert(s[i] == s.drop_first()[i - 1]);
            }
        }
    }
}

/// A length with the characterising properties is the run length.
pub proof fn lemma_run_len_is(s: Seq<char>, digits: bool, n: int)
    requires
        0 <= n <= s.len(),
        forall|i: int| 0 <= i < n ==> is_digit(#[trigger] s[i]) == digits,
        n < s.len() ==> is_digit(s[n]) != digits,
    ensures
        run_len(s, digits) == n,
    decreases n,
{
    if n > 0 {
        assert forall|i: int| 0 <= i < n - 1 implies is_digit(#[trigger] s.drop_first()[i])
            == digits by {
            assert(s.drop_first()[i] == s[i + 1]);
        }
        lemma_run_len_is(s.drop_first(), digits, n - 1);
    }
}

#[via_fn]
proof fn segment_cmp_decreases(a: Seq<char>, b: Seq<char>) {
    lemma_run_len(a, false);
    lemma_run_len(b, false);
    let pa = run_len(a, false) as int;
    let pb = run_len(b, false) as int;
    lemma_run_len(a.skip(pa), true);
    lemma_run_len(b.skip(pb), true);
}

/// Maps a sign to an [`Ordering`].
pub open spec fn ordering_of(c: int) -> std::cmp::Ordering {
    if c < 0 {
        std::cmp::Ordering::Less
    } else if c > 0 {
        std::cmp::Ordering::Greater
    } else {
        std::cmp::Ordering::Equal
    }
}

} // verus!

verus! {

/// The weight of a character, as [`char_order`] gives it.
fn char_weight(c: char) -> (r: i64)
    ensures
        r == char_order(c),
{
    if c == '~' {
        -1
    } else if ('a' <= c && c <= 'z') || ('A' <= c && c <= 'Z') {
        c as u32 as i64
    } else {
        c as u32 as i64 + 256
    }
}

fn ordering_from(x: i64, y: i64) -> (r: std::cmp::Ordering)
    ensures
        r == ordering_of(cmp_int(x as int, y as int)),
{
    if x < y {
        std::cmp::Ordering::Less
    } else if x > y {
        std::cmp::Ordering::Greater
    } else {
        std::cmp::Ordering::Equal
    }
}

/// Compares the non-digit parts `a[ai..ae]` and `b[bi..be]`.
fn compare_lex(a: &Vec<char>, ai: usize, ae: usize, b: &Vec<char>, bi: usize, be: usize) -> (r:
    std::cmp::Ordering)
    requires
        ai <= ae <= a.len(),
        bi <= be <= b.len(),
    ensures
        r == ordering_of(lex_cmp(a@.subrange(ai as int, ae as int), b@.subrange(bi as int, be as int))),
{
    let ghost whole = lex_cmp(a@.subrange(ai as int, ae as int), b@.subrange(bi as int, be as int));
    let mut i: usize = ai;
    let mut j: usize = bi;
    loop
        invariant
            ai <= i <= ae <= a.len(),
            bi <= j <= be <= b.len(),
            whole == lex_cmp(a@.subrange(ai as int, ae as int), b@.subrange(bi as int, be as int)),
            whole == lex_cmp(a@.subrange(i as int, ae as int), b@.subrange(j as int, be as int)),
        decreases ae - i,
    {
        let ghost sa = a@.subrange(i as int, ae as int);
        let ghost sb = b@.subrange(j as int, be as int);
        if i == ae && j == be {
            return std::cmp::Ordering::Equal;
        }
        let x: i64 = if i < ae { char_weight(a[i]) } else { 0 };
        let y: i64 = if j < be { char_weight(b[j]) } else { 0 };
        assert(x == head_order(sa) && y == head_order(sb));
        if i == ae || j == be || x != y {
            return ordering_from(x, y);
        }
        assert(sa.drop_first() =~= a@.subrange(i + 1, ae as int));
        assert(sb.drop_first() =~= b@.subrange(j + 1, be as int));
        i += 1;
        j += 1;
    }
}

/// Compares the values of the digit runs `a[ai..ae]` and `b[bi..be]`, of any length.
fn compare_numbers(a: &Vec<char>, ai: usize, ae: usize, b: &Vec<char>, bi: usize, be: usize) -> (r:
    std::cmp::Ordering)
    requires
        ai <= ae <= a.len(),
        bi <= be <= b.len(),
        all_digits(a@.subrange(ai as int, ae as int)),
        all_digits(b@.subrange(bi as int, be as int)),
    ensures
        r == ordering_of(
            cmp_int(
                digits_value(a@.subrange(ai as int, ae as int)) as int,
                digits_value(b@.subrange(bi as int, be as int)) as int,
            ),
        ),
{
    let ghost sa = a@.subrange(ai as int, ae as int);
    let ghost sb = b@.subrange(bi as int, be as int);
    let mut i: usize = ai;
    while i < ae && a[i] == '0'
        invariant
            ai <= i <= ae <= a.len(),
            forall|k: int| ai <= k < i ==> a@[k] == '0',
        decreases ae - i,
    {
        i += 1;
    }
    let mut j: usize = bi;
    while j < be && b[j] == '0'
        invariant
            bi <= j <= be <= b.len(),
            forall|k: int| bi <= k < j ==> b@[k] == '0',
        decreases be - j,
    {
        j += 1;
    }
    let ghost ta = a@.subrange(i as int, ae as int);
    let ghost tb = b@.subrange(j as int, be as int);
    proof {
        assert(sa.skip(i - ai) =~= ta);
        assert(sb.skip(j - bi) =~= tb);
        assert forall|k: int| 0 <= k < i - ai implies sa[k] == '0' by {
            assert(sa[k] == a@[ai + k]);
        }
        assert forall|k: int| 0 <= k < j - bi implies sb[k] == '0' by {
            assert(sb[k] == b@[bi + k]);
        }
        lemma_digits_value_zeros(sa, i - ai);
        lemma_digits_value_zeros(sb, j - bi);
        assert(all_digits(ta)) by {
            assert forall|k: int| 0 <= k < ta.len() implies is_digit(#[trigger] ta[k]) by {
                assert(ta[k] == sa[k + i - ai]);
            }
        }
        assert(all_digits(tb)) by {
            assert forall|k: int| 0 <= k < tb.len() implies is_digit(#[trigger] tb[k]) by {
                assert(tb[k] == sb[k + j - bi]);
            }
        }
    }
    let la: usize = ae - i;
    let lb: usize = be - j;
    if la != lb {
        proof {
            if la > lb {
                assert(ta[0] == a@[i as int]);
                lemma_digits_value_lower(ta);
                lemma_digits_value_bound(tb);
                lemma_pow10_monotone(lb as nat, (la - 1) as nat);
            } else {
                assert(tb[0] == b@[j as int]);
                lemma_digits_value_lower(tb);
                lemma_digits_value_bound(ta);
                lemma_pow10_monotone(la as nat, (lb - 1) as nat);
            }
        }
        if la > lb {
            return std::cmp::Ordering::Greater;
        } else {
            return std::cmp::Ordering::Less;
        }
    }
    let mut k: usize = 0;
    while k < la && a[i + k] == b[j + k]
        invariant
            k <= la,
            la == lb,
            la == ae - i,
            lb == be - j,
            i <= ae <= a.len(),
            j <= be <= b.len(),
            ta == a@.subrange(i as int, ae as int),
            tb == b@.subrange(j as int, be as int),
            ta.take(k as int) == tb.take(k as int),
        decreases la - k,
    {
        proof {
            assert(ta[k as int] == a@[i + k]);
            assert(tb[k as int] == b@[j + k]);
            assert(ta.take(k + 1) =~= ta.take(k as int).push(ta[k as int]));
            assert(tb.take(k + 1) =~= tb.take(k as int).push(tb[k as int]));
        }
        k += 1;
    }
    if k == la {
        assert(ta =~= ta.take(k as int));
        assert(tb =~= tb.take(k as int));
        return std::cmp::Ordering::Equal;
    }
    proof {
        assert(ta[k as int] == a@[i + k]);
        assert(tb[k as int] == b@[j + k]);
    }
    if a[i + k] < b[j + k] {
        proof {
            lemma_digits_value_first_difference(ta, tb, k as int);
        }
        std::cmp::Ordering::Less
    } else {
        proof {
            lemma_digits_value_first_difference(tb, ta, k as int);
        }
        std::cmp::Ordering::Greater
    }
}

/// The end of the run that starts at `i` (digits if `digits`, else non-digits).
fn run_end(v: &Vec<char>, i: usize, digits: bool) -> (e: usize)
    requires
        i <= v.len(),
    ensures
        i <= e <= v.len(),
        e - i == run_len(v@.skip(i as int), digits),
        forall|k: int| i <= k < e ==> is_digit(#[trigger] v@[k]) == digits,
{
    let mut e: usize = i;
    while e < v.len() && is_digit_char(v[e]) == digits
        invariant
            i <= e <= v.len(),
            forall|k: int| i <= k < e ==> is_digit(#[trigger] v@[k]) == digits,
        decreases v.len() - e,
    {
        e += 1;
    }
    proof {
        let s = v@.skip(i as int);
        assert forall|k: int| 0 <= k < e - i implies is_digit(#[trigger] s[k]) == digits by {
            assert(s[k] == v@[i + k]);
        }
        if e < v.len() {
            assert(s[e - i] == v@[e as int]);
        }
        lemma_run_len_is(s, digits, e - i);
    }
    e
}

/// Compares two upstream versions, or two revisions, held as characters.
pub fn compare_segments(a: &Vec<char>, b: &Vec<char>) -> (r: std::cmp::Ordering)
    ensures
        r == ordering_of(segment_cmp(a@, b@)),
{
    let mut i: usize = 0;
    let mut j: usize = 0;
    assert(a@.skip(0) =~= a@);
    assert(b@.skip(0) =~= b@);
    while i < a.len() || j < b.len()
        invariant
            i <= a.len(),
            j <= b.len(),
            segment_cmp(a@, b@) == segment_cmp(a@.skip(i as int), b@.skip(j as int)),
        decreases a.len() - i + b.len() - j,
    {
        let ghost sa = a@.skip(i as int);
        let ghost sb = b@.skip(j as int);
        let ea: usize = run_end(a, i, false);
        let eb: usize = run_end(b, j, false);
        assert(sa.take(ea - i) =~= a@.subrange(i as int, ea as int));
        assert(sb.take(eb - j) =~= b@.subrange(j as int, eb as int));
        let c = compare_lex(a, i, ea, b, j, eb);
        match c {
            std::cmp::Ordering::Equal => {},
            _ => {
                return c;
            },
        }
        let ghost ra = sa.skip(ea - i);
        let ghost rb = sb.skip(eb - j);
        assert(ra =~= a@.skip(ea as int));
        assert(rb =~= b@.skip(eb as int));
        let fa: usize = run_end(a, ea, true);
        let fb: usize = run_end(b, eb, true);
        assert(ra.take(fa - ea) =~= a@.subrange(ea as int, fa as int));
        assert(rb.take(fb - eb) =~= b@.subrange(eb as int, fb as int));
        assert(ra.skip(fa - ea) =~= a@.skip(fa as int));
        assert(rb.skip(fb - eb) =~= b@.skip(fb as int));
        proof {
            let da = a@.subrange(ea as int, fa as int);
            let db = b@.subrange(eb as int, fb as int);
            assert forall|k: int| 0 <= k < da.len() implies is_digit(#[trigger] da[k]) by {
                assert(da[k] == a@[ea + k]);
            }
            assert forall|k: int| 0 <= k < db.len() implies is_digit(#[trigger] db[k]) by {
                assert(db[k] == b@[eb + k]);
            }
        }
        let n = compare_numbers(a, ea, fa, b, eb, fb);
        match n {
            std::cmp::Ordering::Equal => {},
            _ => {
                return n;
            },
        }
        proof {
            lemma_run_len(sa, false);
            lemma_run_len(sb, false);
            lemma_run_len(ra, true);
            lemma_run_len(rb, true);
        }
        i = fa;
        j = fb;
    }
    assert(a@.skip(i as int) =~= Seq::<char>::empty());
    assert(b@.skip(j as int) =~= Seq::<char>::empty());
    std::cmp::Ordering::Equal
}

} // verus!

verus! {

/// The epoch used for ordering: an absent epoch counts as 0.
pub open spec fn epoch_or_zero(e: Option<usize>) -> int {
    match e {
        Some(n) => n as int,
        None => 0,
    }
}

/// The revision used for ordering: an absent revision counts as empty.
pub open spec fn revision_or_empty(r: Option<Seq<char>>) -> Seq<char> {
    match r {
        Some(s) => s,
        None => Seq::empty(),
    }
}

/// The ordering of two versions: epoch, then upstream version, then revision.
pub open spec fn version_cmp(a: VersionView, b: VersionView) -> int {
    let e = cmp_int(epoch_or_zero(a.epoch), epoch_or_zero(b.epoch));
    if e != 0 {
        e
    } else {
        let u = segment_cmp(a.upstream, b.upstream);
        if u != 0 {
            u
        } else {
            segment_cmp(revision_or_empty(a.revision), revision_or_empty(b.revision))
        }
    }
}

} // verus!

verus! {

proof fn lemma_char_order_nonzero(c: char)
    ensures
        char_order(c) != 0,
{
}

/// The modified lexical order is antisymmetric.
pub proof fn lemma_lex_cmp_antisymmetric(a: Seq<char>, b: Seq<char>)
    ensures
        lex_cmp(a, b) == -lex_cmp(b, a),
    decreases a.len() + b.len(),
{
    if a.len() > 0 && b.len() > 0 && head_order(a) == head_order(b) {
        lemma_lex_cmp_antisymmetric(a.drop_first(), b.drop_first());
    }
}

/// The modified lexical order is reflexive.
pub proof fn lemma_lex_cmp_reflexive(a: Seq<char>)
    ensures
        lex_cmp(a, a) == 0,
    decreases a.len(),
{
    if a.len() > 0 {
        lemma_lex_cmp_reflexive(a.drop_first());
    }
}

/// The modified lexical order is transitive, and strict as soon as one step is.
pub proof fn lemma_lex_cmp_transitive(a: Seq<char>, b: Seq<char>, c: Seq<char>)
    requires
        lex_cmp(a, b) <= 0,
        lex_cmp(b, c) <= 0,
    ensures
        lex_cmp(a, c) <= 0,
        lex_cmp(a, c) == 0 ==> lex_cmp(a, b) == 0 && lex_cmp(b, c) == 0,
    decreases a.len() + b.len() + c.len(),
{
    if a.len() > 0 {
        lemma_char_order_nonzero(a[0]);
    }
    if b.len() > 0 {
        lemma_char_order_nonzero(b[0]);
    }
    if c.len() > 0 {
        lemma_char_order_nonzero(c[0]);
    }
    if a.len() > 0 && b.len() > 0 && c.len() > 0 && head_order(a) == head_order(b) && head_order(
        b,
    ) == head_order(c) {
        lemma_lex_cmp_transitive(a.drop_first(), b.drop_first(), c.drop_first());
    }
}

/// One step of the segment ordering, also for two empty strings.
proof fn lemma_segment_cmp_unfold(a: Seq<char>, b: Seq<char>)
    ensures
        ({
            let pa = run_len(a, false) as int;
            let pb = run_len(b, false) as int;
            let c = lex_cmp(a.take(pa), b.take(pb));
            let ra = a.skip(pa);
            let rb = b.skip(pb);
            let da = run_len(ra, true) as int;
            let db = run_len(rb, true) as int;
            let n = cmp_int(digits_value(ra.take(da)) as int, digits_value(rb.take(db)) as int);
            segment_cmp(a, b) == if c != 0 {
                c
            } else if n != 0 {
                n
            } else {
                segment_cmp(ra.skip(da), rb.skip(db))
            }
        }),
{
    if a.len() == 0 && b.len() == 0 {
        assert(a.take(0) =~= a);
        assert(b.take(0) =~= b);
        assert(a.skip(0) =~= a);
        assert(b.skip(0) =~= b);
        assert(a.skip(0).skip(0) =~= a);
        assert(b.skip(0).skip(0) =~= b);
    }
}

/// What remains after one step is no longer, and shorter for a non-empty string.
proof fn lemma_segment_rest(a: Seq<char>)
    ensures
        ({
            let pa = run_len(a, false) as int;
            let ra = a.skip(pa);
            let da = run_len(ra, true) as int;
            &&& 0 <= pa <= a.len()
            &&& 0 <= da <= ra.len()
            &&& a.len() > 0 ==> ra.skip(da).len() < a.len()
            &&& ra.skip(da).len() <= a.len()
        }),
{
    lemma_run_len(a, false);
    let pa = run_len(a, false) as int;
    lemma_run_len(a.skip(pa), true);
}

/// The segment ordering is antisymmetric.
pub proof fn lemma_segment_cmp_antisymmetric(a: Seq<char>, b: Seq<char>)
    ensures
        segment_cmp(a, b) == -segment_cmp(b, a),
    decreases a.len() + b.len(),
{
    if !(a.len() == 0 && b.len() == 0) {
        lemma_segment_cmp_unfold(a, b);
        lemma_segment_cmp_unfold(b, a);
        lemma_segment_rest(a);
        lemma_segment_rest(b);
        let pa = run_len(a, false) as int;
        let pb = run_len(b, false) as int;
        lemma_lex_cmp_antisymmetric(a.take(pa), b.take(pb));
        let ra = a.skip(pa);
        let rb = b.skip(pb);
        let da = run_len(ra, true) as int;
        let db = run_len(rb, true) as int;
        lemma_segment_cmp_antisymmetric(ra.skip(da), rb.skip(db));
    }
}

/// The segment ordering is reflexive.
pub proof fn lemma_segment_cmp_reflexive(a: Seq<char>)
    ensures
        segment_cmp(a, a) == 0,
    decreases a.len(),
{
    if a.len() > 0 {
        lemma_segment_cmp_unfold(a, a);
        lemma_segment_rest(a);
        let pa = run_len(a, false) as int;
        lemma_lex_cmp_reflexive(a.take(pa));
        let ra = a.skip(pa);
        let da = run_len(ra, true) as int;
        lemma_segment_cmp_reflexive(ra.skip(da));
    }
}

/// The segment ordering is transitive, and strict as soon as one step is.
pub proof fn lemma_segment_cmp_transitive(a: Seq<char>, b: Seq<char>, c: Seq<char>)
    requires
        segment_cmp(a, b) <= 0,
        segment_cmp(b, c) <= 0,
    ensures
        segment_cmp(a, c) <= 0,
        segment_cmp(a, c) == 0 ==> segment_cmp(a, b) == 0 && segment_cmp(b, c) == 0,
    decreases a.len() + b.len() + c.len(),
{
    if a.len() == 0 && b.len() == 0 && c.len() == 0 {
        return;
    }
    lemma_segment_cmp_unfold(a, b);
    lemma_segment_cmp_unfold(b, c);
    lemma_segment_cmp_unfold(a, c);
    lemma_segment_rest(a);
    lemma_segment_rest(b);
    lemma_segment_rest(c);
    let pa = run_len(a, false) as int;
    let pb = run_len(b, false) as int;
    let pc = run_len(c, false) as int;
    let la = a.take(pa);
    let lb = b.take(pb);
    let lc = c.take(pc);
    if lex_cmp(la, lb) <= 0 && lex_cmp(lb, lc) <= 0 {
        lemma_lex_cmp_transitive(la, lb, lc);
    }
    let ra = a.skip(pa);
    let rb = b.skip(pb);
    let rc = c.skip(pc);
    let da = run_len(ra, true) as int;
    let db = run_len(rb, true) as int;
    let dc = run_len(rc, true) as int;
    if lex_cmp(la, lb) == 0 && lex_cmp(lb, lc) == 0 && digits_value(ra.take(da)) == digits_value(
        rb.take(db),
    ) && digits_value(rb.take(db)) == digits_value(rc.take(dc)) {
        lemma_segment_cmp_transitive(ra.skip(da), rb.skip(db), rc.skip(dc));
    }
}

/// The version ordering is reflexive.
pub proof fn lemma_compare_reflexive(a: VersionView)
    ensures
        version_cmp(a, a) == 0,
{
    lemma_segment_cmp_reflexive(a.upstream);
    lemma_segment_cmp_reflexive(revision_or_empty(a.revision));
}

/// Swapping the arguments reverses the version ordering.
pub proof fn lemma_compare_antisymmetric(a: VersionView, b: VersionView)
    ensures
        version_cmp(a, b) == -version_cmp(b, a),
{
    lemma_segment_cmp_antisymmetric(a.upstream, b.upstream);
    lemma_segment_cmp_antisymmetric(revision_or_empty(a.revision), revision_or_empty(b.revision));
}

/// The version ordering is transitive: `a <= b <= c` gives `a <= c`, and
/// `a < c` as soon as one of the two steps is strict.
pub proof fn lemma_compare_transitive(a: VersionView, b: VersionView, c: VersionView)
    requires
        version_cmp(a, b) <= 0,
        version_cmp(b, c) <= 0,
    ensures
        version_cmp(a, c) <= 0,
        version_cmp(a, b) < 0 || version_cmp(b, c) < 0 ==> version_cmp(a, c) < 0,
{
    let (ua, ub, uc) = (a.upstream, b.upstream, c.upstream);
    if segment_cmp(ua, ub) <= 0 && segment_cmp(ub, uc) <= 0 {
        lemma_segment_cmp_transitive(ua, ub, uc);
    }
    let (ra, rb, rc) = (
        revision_or_empty(a.revision),
        revision_or_empty(b.revision),
        revision_or_empty(c.revision),
    );
    if segment_cmp(ra, rb) <= 0 && segment_cmp(rb, rc) <= 0 {
        lemma_segment_cmp_transitive(ra, rb, rc);
    }
}

/// An epoch of 1 places a version above the same upstream version and revision
/// with epoch 0 or without epoch.
pub proof fn lemma_epoch_dominance(
    upstream: Seq<char>,
    revision: Option<Seq<char>>,
    lower: Option<usize>,
)
    requires
        lower == None::<usize> || lower == Some(0usize),
    ensures
        version_cmp(
            VersionView { epoch: Some(1usize), upstream, revision },
            VersionView { epoch: lower, upstream, revision },
        ) == 1,
{
}

} // verus!
