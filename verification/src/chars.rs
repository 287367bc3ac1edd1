//! Character-level groundwork for the header grammar: optional whitespace,
//! ASCII digits, locating a separator, and trimming, each as a spec function
//! over `Seq<char>` with a verified executable counterpart on `&str`.

use vstd::prelude::*;
use vstd::string::*;

verus! {

/// Optional whitespace as the field grammar allows around list items and
/// around the `;` that introduces a weight: space or horizontal tab.
pub open spec fn is_ows(c: char) -> bool {
    c == ' ' || c == '\t'
}

/// An ASCII decimal digit.
pub open spec fn is_digit(c: char) -> bool {
    48 <= c as u32 <= 57
}

/// Numeric value of an ASCII decimal digit.
pub open spec fn digit_val(c: char) -> int {
    c as u32 - 48
}

/// Position of the first occurrence of `c` in `s`; `s.len()` when absent.
pub open spec fn find_first(s: Seq<char>, c: char) -> int
    decreases s.len(),
{
    if s.len() == 0 {
        0
    } else if s[0] == c {
        0
    } else {
        1 + find_first(s.drop_first(), c)
    }
}

/// `find_first` stays within bounds, sees no `c` before its result, and
/// lands on `c` when one occurs.
pub proof fn lemma_find_first_bounds(s: Seq<char>, c: char)
    ensures
        0 <= find_first(s, c) <= s.len(),
        forall|j: int| 0 <= j < find_first(s, c) ==> s[j] != c,
        find_first(s, c) < s.len() ==> s[find_first(s, c)] == c,
    decreases s.len(),
{
    if s.len() > 0 && s[0] != c {
        lemma_find_first_bounds(s.drop_first(), c);
        assert(forall|j: int| 1 <= j < find_first(s, c) ==> s[j] == s.drop_first()[j - 1]);
    }
}

/// An index with those same properties is exactly `find_first`.
pub proof fn lemma_find_first_is(s: Seq<char>, c: char, k: int)
    requires
        0 <= k <= s.len(),
        forall|j: int| 0 <= j < k ==> s[j] != c,
        k < s.len() ==> s[k] == c,
    ensures
        find_first(s, c) == k,
    decreases s.len(),
{
    if s.len() == 0 {
    } else if s[0] == c {
        assert(k == 0);
    } else {
        assert(forall|j: int| 0 <= j < k - 1 ==> s.drop_first()[j] == s[j + 1]);
        lemma_find_first_is(s.drop_first(), c, k - 1);
    }
}

/// `s` with its leading optional whitespace removed.
pub open spec fn trim_start(s: Seq<char>) -> Seq<char>
    decreases s.len(),
{
    if s.len() > 0 && is_ows(s[0]) {
        trim_start(s.drop_first())
    } else {
        s
    }
}

/// `s` with its trailing optional whitespace removed.
pub open spec fn trim_end(s: Seq<char>) -> Seq<char>
    decreases s.len(),
{
    if s.len() > 0 && is_ows(s.last()) {
        trim_end(s.drop_last())
    } else {
        s
    }
}

/// `s` with optional whitespace removed from both ends.
pub open spec fn trim(s: Seq<char>) -> Seq<char> {
    trim_end(trim_start(s))
}

/// Start-trimming drops exactly the leading run of optional whitespace.
pub proof fn lemma_trim_start_at(s: Seq<char>, k: int)
    requires
        0 <= k <= s.len(),
        forall|j: int| 0 <= j < k ==> is_ows(s[j]),
        k < s.len() ==> !is_ows(s[k]),
    ensures
        trim_start(s) == s.subrange(k, s.len() as int),
    decreases s.len(),
{
    if s.len() > 0 && is_ows(s[0]) {
        assert(k >= 1);
        assert(forall|j: int| 0 <= j < k - 1 ==> s.drop_first()[j] == s[j + 1]);
        lemma_trim_start_at(s.drop_first(), k - 1);
        assert(s.drop_first().subrange(k - 1, s.len() - 1) =~= s.subrange(k, s.len() as int));
    } else {
        assert(k == 0);
        assert(s.subrange(0, s.len() as int) =~= s);
    }
}

/// End-trimming drops exactly the trailing run of optional whitespace.
pub proof fn lemma_trim_end_at(s: Seq<char>, k: int)
    requires
        0 <= k <= s.len(),
        forall|j: int| k <= j < s.len() ==> is_ows(s[j]),
        k > 0 ==> !is_ows(s[k - 1]),
    ensures
        trim_end(s) == s.subrange(0, k),
    decreases s.len(),
{
    if s.len() > 0 && is_ows(s.last()) {
        assert(k < s.len());
        lemma_trim_end_at(s.drop_last(), k);
        assert(s.drop_last().subrange(0, k) =~= s.subrange(0, k));
    } else {
        assert(k == s.len());
        assert(s.subrange(0, s.len() as int) =~= s);
    }
}

/// The trimmed form of `s` is a contiguous slice of `s`: whatever character
/// is absent from `s` is absent from `trim(s)` too, and a nonempty result
/// starts and ends with a character that is not optional whitespace.
pub proof fn lemma_trim_shape(s: Seq<char>) -> (r: (int, int))
    ensures
        0 <= r.0 <= r.1 <= s.len(),
        trim(s) == s.subrange(r.0, r.1),
        trim(s).len() > 0 ==> !is_ows(trim(s)[0]),
        trim(s).len() > 0 ==> !is_ows(trim(s).last()),
{
    let a = first_non_ows(s);
    lemma_first_non_ows(s);
    lemma_trim_start_at(s, a);
    let t = s.subrange(a, s.len() as int);
    let b = last_non_ows(t);
    lemma_last_non_ows(t);
    lemma_trim_end_at(t, b);
    assert(t.subrange(0, b) =~= s.subrange(a, a + b));
    assert(trim(s) == s.subrange(a, a + b));
    if trim(s).len() > 0 {
        assert(trim(s)[0] == t[0]);
        assert(a < s.len() ==> !is_ows(s[a]));
        assert(trim(s).last() == t[b - 1]);
    }
    (a, a + b)
}

/// Index of the first character of `s` that is not optional whitespace.
pub open spec fn first_non_ows(s: Seq<char>) -> int
    decreases s.len(),
{
    if s.len() > 0 && is_ows(s[0]) {
        1 + first_non_ows(s.drop_first())
    } else {
        0
    }
}

/// `first_non_ows` marks the boundary of the leading whitespace run.
pub proof fn lemma_first_non_ows(s: Seq<char>)
    ensures
        0 <= first_non_ows(s) <= s.len(),
        forall|j: int| 0 <= j < first_non_ows(s) ==> is_ows(s[j]),
        first_non_ows(s) < s.len() ==> !is_ows(s[first_non_ows(s)]),
    decreases s.len(),
{
    if s.len() > 0 && is_ows(s[0]) {
        lemma_first_non_ows(s.drop_first());
        assert(forall|j: int| 1 <= j < first_non_ows(s) ==> s[j] == s.drop_first()[j - 1]);
    }
}

/// One past the index of the last character of `s` that is not optional
/// whitespace.
pub open spec fn last_non_ows(s: Seq<char>) -> int
    decreases s.len(),
{
    if s.len() > 0 && is_ows(s.last()) {
        last_non_ows(s.drop_last())
    } else {
        s.len() as int
    }
}

/// `last_non_ows` marks the boundary of the trailing whitespace run.
pub proof fn lemma_last_non_ows(s: Seq<char>)
    ensures
        0 <= last_non_ows(s) <= s.len(),
        forall|j: int| last_non_ows(s) <= j < s.len() ==> is_ows(s[j]),
        last_non_ows(s) > 0 ==> !is_ows(s[last_non_ows(s) - 1]),
    decreases s.len(),
{
    if s.len() > 0 && is_ows(s.last()) {
        lemma_last_non_ows(s.drop_last());
        assert(forall|j: int| 0 <= j < s.len() - 1 ==> s[j] == s.drop_last()[j]);
    }
}

/// Whether `c` occurs nowhere in `s`.
pub open spec fn no_char(s: Seq<char>, c: char) -> bool {
    forall|j: int| 0 <= j < s.len() ==> s[j] != c
}

/// Whether every character of `s` is an ASCII decimal digit.
pub open spec fn all_digits(s: Seq<char>) -> bool {
    forall|j: int| 0 <= j < s.len() ==> is_digit(s[j])
}

/// The number that the digit sequence `s` denotes in base ten; 0 when empty.
pub open spec fn digits_val(s: Seq<char>) -> int
    decreases s.len(),
{
    if s.len() == 0 {
        0
    } else {
        digits_val(s.drop_last()) * 10 + digit_val(s.last())
    }
}

/// A digit sequence denotes a nonnegative number.
pub proof fn lemma_digits_val_nonneg(s: Seq<char>)
    requires
        all_digits(s),
    ensures
        digits_val(s) >= 0,
    decreases s.len(),
{
    if s.len() > 0 {
        lemma_digits_val_nonneg(s.drop_last());
    }
}

/// The value of a digit sequence never falls below the value of any of its
/// prefixes.
pub proof fn lemma_digits_val_prefix(s: Seq<char>, k: int)
    requires
        all_digits(s),
        0 <= k <= s.len(),
    ensures
        digits_val(s.subrange(0, k)) <= digits_val(s),
    decreases s.len() - k,
{
    if k == s.len() {
        assert(s.subrange(0, k) =~= s);
    } else {
        let p = s.subrange(0, k);
        let q = s.subrange(0, k + 1);
        assert(q.drop_last() =~= p);
        assert(all_digits(p)) by {
            assert(forall|j: int| 0 <= j < p.len() ==> p[j] == s[j]);
        }
        lemma_digits_val_nonneg(p);
        assert(digits_val(q) == digits_val(p) * 10 + digit_val(s[k]));
        lemma_digits_val_prefix(s, k + 1);
    }
}

/// Ten raised to the power `n`.
pub open spec fn ten_pow(n: nat) -> int
    decreases n,
{
    if n == 0 {
        1
    } else {
        10 * ten_pow((n - 1) as nat)
    }
}

/// Powers of ten are positive.
pub proof fn lemma_ten_pow_pos(n: nat)
    ensures
        ten_pow(n) >= 1,
    decreases n,
{
    if n > 0 {
        lemma_ten_pow_pos((n - 1) as nat);
    }
}

/// A digit sequence of length `n` denotes a number below ten to the `n`.
pub proof fn lemma_digits_val_upper(s: Seq<char>)
    requires
        all_digits(s),
    ensures
        digits_val(s) < ten_pow(s.len()),
    decreases s.len(),
{
    if s.len() > 0 {
        lemma_digits_val_upper(s.drop_last());
    }
}

/// Verified character-wise equality of two string slices.
pub fn str_eq(a: &str, b: &str) -> (r: bool)
    ensures
        r == (a@ == b@),
{
    let an = a.unicode_len();
    let bn = b.unicode_len();
    if an != bn {
        return false;
    }
    let mut i: usize = 0;
    while i < an
        invariant
            an == a@.len(),
            an == b@.len(),
            0 <= i <= an,
            forall|j: int| 0 <= j < i ==> a@[j] == b@[j],
        decreases an - i,
    {
        if a.get_char(i) != b.get_char(i) {
            return false;
        }
        i = i + 1;
    }
    proof {
        assert(a@ =~= b@);
    }
    true
}

/// Position of the first occurrence of `c` in `s`; the length when absent.
pub fn find_char(s: &str, c: char) -> (r: usize)
    ensures
        r == find_first(s@, c),
        r <= s@.len(),
    decreases s@.len(),
{
    let n = s.unicode_len();
    let mut i: usize = 0;
    while i < n
        invariant
            n == s@.len(),
            0 <= i <= n,
            forall|j: int| 0 <= j < i ==> s@[j] != c,
        decreases n - i,
    {
        if s.get_char(i) == c {
            proof {
                lemma_find_first_is(s@, c, i as int);
            }
            return i;
        }
        i = i + 1;
    }
    proof {
        lemma_find_first_is(s@, c, n as int);
    }
    n
}

/// The slice of `s` with optional whitespace removed from both ends.
pub fn trim_str<'a>(s: &'a str) -> (r: &'a str)
    ensures
        r@ == trim(s@),
{
    let n = s.unicode_len();
    let mut a: usize = 0;
    while a < n && (s.get_char(a) == ' ' || s.get_char(a) == '\t')
        invariant
            n == s@.len(),
            0 <= a <= n,
            forall|j: int| 0 <= j < a ==> is_ows(s@[j]),
        decreases n - a,
    {
        a = a + 1;
    }
    let mut b: usize = n;
    while b > a && (s.get_char(b - 1) == ' ' || s.get_char(b - 1) == '\t')
        invariant
            n == s@.len(),
            0 <= a <= b <= n,
            a < n ==> !is_ows(s@[a as int]),
            forall|j: int| b <= j < n ==> is_ows(s@[j]),
        decreases b,
    {
        b = b - 1;
    }
    proof {
        lemma_trim_start_at(s@, a as int);
        let t = s@.subrange(a as int, n as int);
        assert(forall|j: int| b - a <= j < t.len() ==> is_ows(t[j]));
        assert(b - a > 0 ==> !is_ows(t[b - a - 1]));
        lemma_trim_end_at(t, b - a);
        assert(t.subrange(0, b - a) =~= s@.subrange(a as int, b as int));
    }
    s.substring_char(a, b)
}

} // verus!
