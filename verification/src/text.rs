//! Character-level text helpers: the order on strings that `String`'s `Ord`
//! uses, decimal rendering of integers, and conversions between `String`
//! and `Vec<char>`.

use vstd::prelude::*;

verus! {

/// The characters of `s`, in order (`str::chars` collected).
#[verifier::external_body]
pub(crate) fn str_chars(s: &str) -> (r: Vec<char>)
    ensures
        r@ == s@,
{
    s.chars().collect()
}

/// The string made of the characters of `v` (an iterator of chars collected).
#[verifier::external_body]
pub(crate) fn string_from_chars(v: &[char]) -> (r: String)
    ensures
        r@ == v@,
{
    v.iter().collect()
}

/// Lexicographic order on character sequences, comparing characters by code
/// point. For Rust strings this is the order of `String::cmp`, since UTF-8
/// preserves the code point order byte by byte.
pub open spec fn char_seq_less(a: Seq<char>, b: Seq<char>) -> bool
    decreases a.len(),
{
    if a.len() == 0 {
        b.len() > 0
    } else if b.len() == 0 {
        false
    } else if a[0] != b[0] {
        (a[0] as int) < (b[0] as int)
    } else {
        char_seq_less(a.drop_first(), b.drop_first())
    }
}

/// Each element is strictly smaller than every later one.
pub open spec fn strictly_sorted(s: Seq<Seq<char>>) -> bool {
    forall|i: int, j: int| 0 <= i < j < s.len() ==> char_seq_less(#[trigger] s[i], #[trigger] s[j])
}

/// The character sequences of a sequence of strings.
pub open spec fn string_views(v: Seq<String>) -> Seq<Seq<char>> {
    v.map_values(|s: String| s@)
}

pub proof fn lemma_less_irreflexive(a: Seq<char>)
    ensures
        !char_seq_less(a, a),
    decreases a.len(),
{
    if a.len() > 0 {
        lemma_less_irreflexive(a.drop_first());
    }
}

pub proof fn lemma_less_transitive(a: Seq<char>, b: Seq<char>, c: Seq<char>)
    requires
        char_seq_less(a, b),
        char_seq_less(b, c),
    ensures
        char_seq_less(a, c),
    decreases a.len(),
{
    if a.len() > 0 && b.len() > 0 && c.len() > 0 {
        if a[0] == b[0] && b[0] == c[0] {
            lemma_less_transitive(a.drop_first(), b.drop_first(), c.drop_first());
        }
    }
}

pub proof fn lemma_less_total(a: Seq<char>, b: Seq<char>)
    requires
        a != b,
    ensures
        char_seq_less(a, b) || char_seq_less(b, a),
    decreases a.len(),
{
    if a.len() > 0 && b.len() > 0 && a[0] == b[0] {
        if a.drop_first() == b.drop_first() {
            assert(a =~= seq![a[0]] + a.drop_first());
            assert(b =~= seq![b[0]] + b.drop_first());
        }
        lemma_less_total(a.drop_first(), b.drop_first());
    } else if a.len() > 0 && b.len() > 0 {
        assert((a[0] as int) != (b[0] as int));
    } else if a.len() == 0 && b.len() == 0 {
        assert(a =~= b);
    }
}

pub proof fn lemma_less_asymmetric(a: Seq<char>, b: Seq<char>)
    requires
        char_seq_less(a, b),
    ensures
        !char_seq_less(b, a),
{
    if char_seq_less(b, a) {
        lemma_less_transitive(a, b, a);
        lemma_less_irreflexive(a);
    }
}

/// Two strictly sorted sequences with the same elements are equal.
pub proof fn lemma_sorted_same_set_equal(s: Seq<Seq<char>>, t: Seq<Seq<char>>)
    requires
        strictly_sorted(s),
        strictly_sorted(t),
        s.to_set() == t.to_set(),
    ensures
        s == t,
    decreases s.len(),
{
    if s.len() == 0 || t.len() == 0 {
        if t.len() > 0 {
            assert(t.contains(t[0]));
            assert(t.to_set().contains(t[0]));
        }
        if s.len() > 0 {
            assert(s.contains(s[0]));
            assert(s.to_set().contains(s[0]));
        }
        assert(s =~= t);
    } else {
        let a = s[0];
        let b = t[0];
        assert(s.contains(a));
        assert(s.to_set().contains(a));
        assert(t.contains(b));
        assert(t.to_set().contains(b));
        let j = choose|j: int| 0 <= j < t.len() && t[j] == a;
        let i = choose|i: int| 0 <= i < s.len() && s[i] == b;
        if a != b {
            assert(j > 0 && i > 0);
            assert(char_seq_less(t[0], t[j]));
            assert(char_seq_less(s[0], s[i]));
            lemma_less_asymmetric(a, b);
        }
        let s1 = s.drop_first();
        let t1 = t.drop_first();
        assert forall|p: int, q: int| 0 <= p < q < s1.len() implies char_seq_less(#[trigger] s1[p], #[trigger] s1[q]) by {
            assert(s1[p] == s[p + 1] && s1[q] == s[q + 1]);
        }
        assert forall|p: int, q: int| 0 <= p < q < t1.len() implies char_seq_less(#[trigger] t1[p], #[trigger] t1[q]) by {
            assert(t1[p] == t[p + 1] && t1[q] == t[q + 1]);
        }
        assert forall|x: Seq<char>| s1.to_set().contains(x) <==> t1.to_set().contains(x) by {
            if s1.contains(x) {
                let p = choose|p: int| 0 <= p < s1.len() && s1[p] == x;
                assert(s[p + 1] == x);
                assert(char_seq_less(s[0], s[p + 1]));
                lemma_less_irreflexive(a);
                assert(s.contains(x));
                assert(s.to_set().contains(x));
                let q = choose|q: int| 0 <= q < t.len() && t[q] == x;
                assert(q != 0);
                assert(t1[q - 1] == x);
                assert(t1.contains(x));
            }
            if t1.contains(x) {
                let p = choose|p: int| 0 <= p < t1.len() && t1[p] == x;
                assert(t[p + 1] == x);
                assert(char_seq_less(t[0], t[p + 1]));
                lemma_less_irreflexive(b);
                assert(t.contains(x));
                assert(t.to_set().contains(x));
                let q = choose|q: int| 0 <= q < s.len() && s[q] == x;
                assert(q != 0);
                assert(s1[q - 1] == x);
                assert(s1.contains(x));
            }
        }
        assert(s1.to_set() =~= t1.to_set());
        lemma_sorted_same_set_equal(s1, t1);
        assert forall|p: int| 0 <= p < s.len() implies s[p] == t[p] by {
            if p > 0 {
                assert(s[p] == s1[p - 1]);
                assert(t[p] == t1[p - 1]);
            }
        }
        assert(s =~= t);
    }
}

proof fn lemma_less_after_common_prefix(a: Seq<char>, b: Seq<char>, i: int)
    requires
        0 <= i <= a.len(),
        i <= b.len(),
        forall|j: int| 0 <= j < i ==> a[j] == b[j],
    ensures
        char_seq_less(a, b) == char_seq_less(a.skip(i), b.skip(i)),
    decreases i,
{
    if i == 0 {
        assert(a.skip(0) =~= a);
        assert(b.skip(0) =~= b);
    } else {
        assert(a[0] == b[0]);
        lemma_less_after_common_prefix(a.drop_first(), b.drop_first(), i - 1);
        assert(a.drop_first().skip(i - 1) =~= a.skip(i));
        assert(b.drop_first().skip(i - 1) =~= b.skip(i));
    }
}

/// Three-way comparison of two strings in the order of `String::cmp`:
/// negative when `a` comes first, zero when they are equal, positive otherwise.
pub fn compare_strs(a: &str, b: &str) -> (r: i8)
    ensures
        r < 0 <==> char_seq_less(a@, b@),
        r == 0 <==> a@ == b@,
        r > 0 <==> char_seq_less(b@, a@),
{
    let x = str_chars(a);
    let y = str_chars(b);
    let mut i: usize = 0;
    while i < x.len() && i < y.len()
        invariant
            x@ == a@,
            y@ == b@,
            i <= x.len(),
            i <= y.len(),
            forall|j: int| 0 <= j < i ==> x@[j] == y@[j],
        decreases x.len() - i,
    {
        if x[i] != y[i] {
            proof {
                lemma_less_after_common_prefix(a@, b@, i as int);
                lemma_less_after_common_prefix(b@, a@, i as int);
                assert(a@.skip(i as int)[0] == a@[i as int]);
                assert(b@.skip(i as int)[0] == b@[i as int]);
            }
            if x[i] < y[i] {
                proof {
                    lemma_less_asymmetric(a@, b@);
                }
                return -1;
            } else {
                proof {
                    lemma_less_asymmetric(b@, a@);
                }
                return 1;
            }
        }
        i = i + 1;
    }
    proof {
        lemma_less_after_common_prefix(a@, b@, i as int);
        lemma_less_after_common_prefix(b@, a@, i as int);
    }
    if x.len() == y.len() {
        proof {
            assert(a@ =~= b@);
            lemma_less_irreflexive(a@);
        }
        0
    } else if x.len() < y.len() {
        proof {
            lemma_less_asymmetric(a@, b@);
        }
        -1
    } else {
        proof {
            lemma_less_asymmetric(b@, a@);
        }
        1
    }
}


/// Inserting one element into a sequence adds exactly that element to its set.
pub proof fn lemma_insert_to_set<A>(s: Seq<A>, i: int, x: A)
    requires
        0 <= i <= s.len(),
    ensures
        s.insert(i, x).to_set() == s.to_set().insert(x),
{
    let t = s.insert(i, x);
    assert forall|y: A| t.to_set().contains(y) <==> s.to_set().insert(x).contains(y) by {
        if t.contains(y) {
            let k = choose|k: int| 0 <= k < t.len() && t[k] == y;
            if k < i {
                assert(s[k] == y);
            } else if k > i {
                assert(s[k - 1] == y);
            }
        }
        if s.contains(y) {
            let k = choose|k: int| 0 <= k < s.len() && s[k] == y;
            if k < i {
                assert(t[k] == y);
            } else {
                assert(t[k + 1] == y);
            }
        }
        if y == x {
            assert(t[i] == x);
        }
    }
    assert(t.to_set() =~= s.to_set().insert(x));
}

/// Position of the first string of the sorted `v` that is not smaller than `s`.
fn lower_bound(v: &Vec<String>, s: &str) -> (i: usize)
    requires
        strictly_sorted(string_views(v@)),
    ensures
        i <= v.len(),
        forall|j: int| 0 <= j < i ==> char_seq_less(#[trigger] v@[j]@, s@),
        i < v.len() ==> !char_seq_less(v@[i as int]@, s@),
{
    let mut i: usize = 0;
    loop
        invariant
            i <= v.len(),
            forall|j: int| 0 <= j < i ==> char_seq_less(#[trigger] v@[j]@, s@),
        decreases v.len() - i,
    {
        if i == v.len() {
            return i;
        }
        let c = compare_strs(v[i].as_str(), s);
        if c >= 0 {
            return i;
        }
        i = i + 1;
    }
}

/// Adds `s` to the strictly sorted `v` at its place; leaves `v` unchanged
/// when it already holds an equal string.
pub fn insert_sorted_unique(v: &mut Vec<String>, s: String)
    requires
        strictly_sorted(string_views(old(v)@)),
    ensures
        strictly_sorted(string_views(final(v)@)),
        string_views(final(v)@).to_set() == string_views(old(v)@).to_set().insert(s@),
        final(v)@.len() <= old(v)@.len() + 1,
{
    let ghost old_views = string_views(v@);
    let i = lower_bound(v, s.as_str());
    if i < v.len() {
        let c = compare_strs(v[i].as_str(), s.as_str());
        if c == 0 {
            proof {
                assert(old_views[i as int] == s@);
                assert(old_views.to_set().insert(s@) =~= old_views.to_set());
            }
            return;
        }
    }
    let ghost sv = s@;
    v.insert(i, s);
    proof {
        let nv = string_views(v@);
        assert(nv =~= old_views.insert(i as int, sv));
        lemma_insert_to_set(old_views, i as int, sv);
        if i < old_views.len() {
            lemma_less_total(old_views[i as int], sv);
        }
        assert forall|p: int, q: int| 0 <= p < q < nv.len() implies char_seq_less(
            #[trigger] nv[p],
            #[trigger] nv[q],
        ) by {
            if q < i {
                assert(nv[p] == old_views[p] && nv[q] == old_views[q]);
            } else if q == i {
                assert(nv[p] == old_views[p]);
            } else if p == i {
                assert(nv[q] == old_views[q - 1]);
                if q - 1 > i {
                    lemma_less_transitive(sv, old_views[i as int], old_views[q - 1]);
                }
            } else if p < i {
                assert(nv[p] == old_views[p]);
                assert(nv[q] == old_views[q - 1]);
                assert(char_seq_less(old_views[p], sv));
                lemma_less_transitive(old_views[p], sv, old_views[i as int]);
                if q - 1 > i {
                    lemma_less_transitive(old_views[p], old_views[i as int], old_views[q - 1]);
                }
            } else {
                assert(nv[p] == old_views[p - 1]);
                assert(nv[q] == old_views[q - 1]);
            }
        }
    }
}

/// The strings of `v` in ascending order with repetitions removed
/// (`sort` followed by `dedup`).
pub fn sort_dedup_strings(v: Vec<String>) -> (r: Vec<String>)
    ensures
        strictly_sorted(string_views(r@)),
        string_views(r@).to_set() == string_views(v@).to_set(),
        r@.len() <= v@.len(),
{
    let mut r: Vec<String> = Vec::new();
    let mut i: usize = 0;
    while i < v.len()
        invariant
            i <= v.len(),
            strictly_sorted(string_views(r@)),
            string_views(r@).to_set() == string_views(v@.take(i as int)).to_set(),
            r@.len() <= i,
        decreases v.len() - i,
    {
        let s = v[i].clone();
        proof {
            assert(string_views(v@.take(i as int + 1)) =~= string_views(v@.take(i as int)).insert(
                i as int,
                v@[i as int]@,
            ));
            lemma_insert_to_set(string_views(v@.take(i as int)), i as int, v@[i as int]@);
        }
        insert_sorted_unique(&mut r, s);
        i = i + 1;
    }
    proof {
        assert(v@.take(v@.len() as int) =~= v@);
    }
    r
}


/// The decimal digit character for `d` in `0..10`.
pub open spec fn digit_char(d: int) -> char {
    (('0' as int) + d) as char
}

/// Decimal notation of a natural number, without leading zeros.
pub open spec fn nat_decimal(n: nat) -> Seq<char>
    decreases n,
{
    if n < 10 {
        seq![digit_char(n as int)]
    } else {
        nat_decimal(n / 10).push(digit_char((n % 10) as int))
    }
}

/// Decimal notation of an integer as `Display` writes it: a `-` before
/// negative values.
pub open spec fn int_decimal(i: int) -> Seq<char> {
    if i < 0 {
        seq!['-'] + nat_decimal((-i) as nat)
    } else {
        nat_decimal(i as nat)
    }
}

fn digit_to_char(d: u64) -> (c: char)
    requires
        d < 10,
    ensures
        c == digit_char(d as int),
{
    match d {
        0 => '0',
        1 => '1',
        2 => '2',
        3 => '3',
        4 => '4',
        5 => '5',
        6 => '6',
        7 => '7',
        8 => '8',
        _ => '9',
    }
}

/// The decimal digits of `n`.
pub fn u64_decimal_chars(n: u64) -> (r: Vec<char>)
    ensures
        r@ == nat_decimal(n as nat),
{
    let mut acc: Vec<char> = Vec::new();
    let mut m: u64 = n;
    acc.push(digit_to_char(m % 10));
    m = m / 10;
    proof {
        if n < 10 {
            assert(acc@ =~= nat_decimal(n as nat));
        } else {
            assert(nat_decimal(n as nat) =~= nat_decimal(m as nat) + acc@);
        }
    }
    while m > 0
        invariant
            m > 0 ==> nat_decimal(n as nat) =~= nat_decimal(m as nat) + acc@,
            m == 0 ==> nat_decimal(n as nat) =~= acc@,
        decreases m,
    {
        let ghost old_acc = acc@;
        let ghost old_m = m;
        acc.insert(0, digit_to_char(m % 10));
        m = m / 10;
        proof {
            if old_m < 10 {
                assert(nat_decimal(old_m as nat) =~= seq![digit_char(old_m as int)]);
                assert(acc@ =~= seq![digit_char(old_m as int)] + old_acc);
            } else {
                assert(acc@ =~= seq![digit_char((old_m % 10) as int)] + old_acc);
                assert(nat_decimal(old_m as nat) =~= nat_decimal(m as nat).push(
                    digit_char((old_m % 10) as int),
                ));
            }
        }
    }
    acc
}

/// `n.to_string()` for an unsigned integer.
pub fn u64_to_decimal(n: u64) -> (r: String)
    ensures
        r@ == nat_decimal(n as nat),
{
    let chars = u64_decimal_chars(n);
    string_from_chars(chars.as_slice())
}

/// `i.to_string()` for a signed integer.
pub fn i64_to_decimal(i: i64) -> (r: String)
    ensures
        r@ == int_decimal(i as int),
{
    if i < 0 {
        let magnitude: u64 = (0i128 - (i as i128)) as u64;
        let mut chars = u64_decimal_chars(magnitude);
        chars.insert(0, '-');
        proof {
            assert(chars@ =~= seq!['-'] + nat_decimal((-(i as int)) as nat));
        }
        string_from_chars(chars.as_slice())
    } else {
        u64_to_decimal(i as u64)
    }
}

/// `a` followed by `b`.
pub fn concat_str(a: &str, b: &str) -> (r: String)
    ensures
        r@ == a@ + b@,
{
    let mut r = a.to_owned();
    r.append(b);
    r
}


/// An ASCII decimal digit.
pub open spec fn is_digit_char(c: char) -> bool {
    '0' <= c && c <= '9'
}

/// Every character is an ASCII decimal digit.
pub open spec fn all_digits(s: Seq<char>) -> bool {
    forall|i: int| 0 <= i < s.len() ==> is_digit_char(#[trigger] s[i])
}

/// The value of a string of decimal digits.
pub open spec fn digits_value(s: Seq<char>) -> nat
    decreases s.len(),
{
    if s.len() == 0 {
        0
    } else {
        digits_value(s.drop_last()) * 10 + ((s.last() as int) - ('0' as int)) as nat
    }
}

/// What `str::parse::<i64>` accepts: an optional `+` or `-`, then one or
/// more ASCII digits whose value fits in `i64`.
pub open spec fn spec_parse_i64(s: Seq<char>) -> Option<i64> {
    let signed = s.len() > 0 && (s[0] == '-' || s[0] == '+');
    let negative = s.len() > 0 && s[0] == '-';
    let digits = if signed {
        s.drop_first()
    } else {
        s
    };
    if digits.len() == 0 || !all_digits(digits) {
        None
    } else {
        let v: int = if negative {
            -(digits_value(digits) as int)
        } else {
            digits_value(digits) as int
        };
        if i64::MIN <= v <= i64::MAX {
            Some(v as i64)
        } else {
            None
        }
    }
}

proof fn lemma_digits_value_prefix(s: Seq<char>, k: int)
    requires
        0 <= k <= s.len(),
        all_digits(s),
    ensures
        digits_value(s.take(k)) <= digits_value(s),
    decreases s.len(),
{
    if k < s.len() {
        assert(s.drop_last().take(k) =~= s.take(k));
        assert(all_digits(s.drop_last())) by {
            assert forall|i: int| 0 <= i < s.drop_last().len() implies is_digit_char(
                #[trigger] s.drop_last()[i],
            ) by {
                assert(s.drop_last()[i] == s[i]);
            }
        }
        lemma_digits_value_prefix(s.drop_last(), k);
    } else {
        assert(s.take(k) =~= s);
    }
}

/// `s.parse::<i64>().ok()`.
pub fn parse_i64(s: &str) -> (r: Option<i64>)
    ensures
        r == spec_parse_i64(s@),
{
    let cs = str_chars(s);
    let n = cs.len();
    if n == 0 {
        return None;
    }
    let negative = cs[0] == '-';
    let start: usize = if cs[0] == '-' || cs[0] == '+' {
        1
    } else {
        0
    };
    let ghost digits = s@.skip(start as int);
    proof {
        if start == 0 {
            assert(digits =~= s@);
        } else {
            assert(digits =~= s@.drop_first());
        }
    }
    if start == n {
        return None;
    }
    let mut acc: u64 = 0;
    let mut i: usize = start;
    while i < n
        invariant
            cs@ == s@,
            n == cs@.len(),
            start <= i <= n,
            digits == s@.skip(start as int),
            n > 0,
            negative == (s@[0] == '-'),
            digits == (if s@.len() > 0 && (s@[0] == '-' || s@[0] == '+') {
                s@.drop_first()
            } else {
                s@
            }),
            all_digits(digits.take(i - start)),
            acc as nat == digits_value(digits.take(i - start)),
            acc <= 9223372036854775808u64,
        decreases n - i,
    {
        let c = cs[i];
        proof {
            assert(digits[i - start] == c);
        }
        if !('0' <= c && c <= '9') {
            proof {
                assert(!is_digit_char(digits[i - start]));
            }
            return None;
        }
        let d: u64 = ((c as u32) - ('0' as u32)) as u64;
        proof {
            let t = digits.take(i - start + 1);
            assert(t.drop_last() =~= digits.take(i - start));
            assert(t.last() == c);
            assert(all_digits(t)) by {
                assert forall|k: int| 0 <= k < t.len() implies is_digit_char(#[trigger] t[k]) by {
                    if k < t.len() - 1 {
                        assert(t[k] == digits.take(i - start)[k]);
                    }
                }
            }
        }
        if acc > 922337203685477580u64 || (acc == 922337203685477580u64 && d > 8) {
            proof {
                let t = digits.take(i - start + 1);
                assert(digits_value(t) > 9223372036854775808);
                if all_digits(digits) {
                    lemma_digits_value_prefix(digits, i - start + 1);
                }
            }
            return None;
        }
        acc = acc * 10 + d;
        i = i + 1;
    }
    proof {
        assert(digits.take(n - start) =~= digits);
    }
    if negative {
        let v: i128 = 0i128 - (acc as i128);
        Some(v as i64)
    } else {
        if acc > 9223372036854775807u64 {
            None
        } else {
            Some(acc as i64)
        }
    }
}

/// `char::is_whitespace`: the characters with the Unicode `White_Space`
/// property.
pub open spec fn is_whitespace(c: char) -> bool {
    ('\u{9}' <= c && c <= '\u{d}') || c == ' ' || c == '\u{85}' || c == '\u{a0}' || c == '\u{1680}'
        || ('\u{2000}' <= c && c <= '\u{200a}') || c == '\u{2028}' || c == '\u{2029}' || c == '\u{202f}'
        || c == '\u{205f}' || c == '\u{3000}'
}

/// `char::is_ascii_whitespace`: space, tab, line feed, form feed and
/// carriage return.
pub open spec fn is_ascii_whitespace(c: char) -> bool {
    c == ' ' || c == '\t' || c == '\n' || c == '\u{c}' || c == '\r'
}

/// `c.is_whitespace()`.
pub fn char_is_whitespace(c: char) -> (r: bool)
    ensures
        r == is_whitespace(c),
{
    ('\u{9}' <= c && c <= '\u{d}') || c == ' ' || c == '\u{85}' || c == '\u{a0}' || c == '\u{1680}'
        || ('\u{2000}' <= c && c <= '\u{200a}') || c == '\u{2028}' || c == '\u{2029}' || c == '\u{202f}'
        || c == '\u{205f}' || c == '\u{3000}'
}

/// `s` without its leading whitespace.
pub open spec fn spec_trim_start(s: Seq<char>) -> Seq<char>
    decreases s.len(),
{
    if s.len() > 0 && is_whitespace(s[0]) {
        spec_trim_start(s.drop_first())
    } else {
        s
    }
}

/// `s` without its trailing whitespace.
pub open spec fn spec_trim_end(s: Seq<char>) -> Seq<char>
    decreases s.len(),
{
    if s.len() > 0 && is_whitespace(s.last()) {
        spec_trim_end(s.drop_last())
    } else {
        s
    }
}

/// `str::trim`: `s` without leading and trailing whitespace.
pub open spec fn spec_trim(s: Seq<char>) -> Seq<char> {
    spec_trim_end(spec_trim_start(s))
}

/// The characters of `v` from `start` to `end`, as a string.
fn string_of_range(v: &Vec<char>, start: usize, end: usize) -> (r: String)
    requires
        start <= end <= v@.len(),
    ensures
        r@ == v@.subrange(start as int, end as int),
{
    let mut out: Vec<char> = Vec::new();
    let mut i: usize = start;
    while i < end
        invariant
            start <= i <= end <= v@.len(),
            out@ == v@.subrange(start as int, i as int),
        decreases end - i,
    {
        out.push(v[i]);
        proof {
            assert(out@ =~= v@.subrange(start as int, i as int + 1));
        }
        i = i + 1;
    }
    string_from_chars(out.as_slice())
}

/// `s.trim()`, as an owned string.
pub fn trim_str(s: &str) -> (r: String)
    ensures
        r@ == spec_trim(s@),
{
    let cs = str_chars(s);
    let mut start: usize = 0;
    proof {
        assert(cs@.subrange(0, cs@.len() as int) =~= cs@);
    }
    while start < cs.len() && char_is_whitespace(cs[start])
        invariant
            cs@ == s@,
            start <= cs@.len(),
            spec_trim_start(s@) == spec_trim_start(cs@.subrange(start as int, cs@.len() as int)),
        decreases cs@.len() - start,
    {
        proof {
            let t = cs@.subrange(start as int, cs@.len() as int);
            assert(t.drop_first() =~= cs@.subrange(start as int + 1, cs@.len() as int));
        }
        start = start + 1;
    }
    let ghost mid = cs@.subrange(start as int, cs@.len() as int);
    proof {
        assert(spec_trim_start(mid) == mid);
        assert(cs@.subrange(start as int, cs@.len() as int) =~= mid);
    }
    let mut end: usize = cs.len();
    while end > start && char_is_whitespace(cs[end - 1])
        invariant
            cs@ == s@,
            start <= end <= cs@.len(),
            spec_trim_end(mid) == spec_trim_end(cs@.subrange(start as int, end as int)),
        decreases end - start,
    {
        proof {
            let t = cs@.subrange(start as int, end as int);
            assert(t.drop_last() =~= cs@.subrange(start as int, end as int - 1));
        }
        end = end - 1;
    }
    proof {
        let t = cs@.subrange(start as int, end as int);
        assert(spec_trim_end(t) == t);
    }
    string_of_range(&cs, start, end)
}

/// `c.to_ascii_lowercase()`.
pub open spec fn ascii_lower(c: char) -> char {
    if 'A' <= c && c <= 'Z' {
        ((c as u32) + 32) as char
    } else {
        c
    }
}

/// `s.to_ascii_lowercase()`.
pub open spec fn spec_ascii_lowercase(s: Seq<char>) -> Seq<char> {
    s.map_values(|c: char| ascii_lower(c))
}

/// `s.to_ascii_lowercase()`.
pub fn ascii_lowercase(s: &str) -> (r: String)
    ensures
        r@ == spec_ascii_lowercase(s@),
{
    let cs = str_chars(s);
    let mut out: Vec<char> = Vec::new();
    let mut i: usize = 0;
    while i < cs.len()
        invariant
            cs@ == s@,
            i <= cs@.len(),
            out@ == spec_ascii_lowercase(cs@.take(i as int)),
        decreases cs@.len() - i,
    {
        let c = cs[i];
        let l = if 'A' <= c && c <= 'Z' {
            ((c as u8) + 32) as char
        } else {
            c
        };
        out.push(l);
        proof {
            assert(spec_ascii_lowercase(cs@.take(i as int + 1)) =~= spec_ascii_lowercase(cs@.take(i as int)).push(l));
        }
        i = i + 1;
    }
    proof {
        assert(cs@.take(cs@.len() as int) =~= cs@);
    }
    string_from_chars(out.as_slice())
}

/// The parts of `s` between the occurrences of `sep`, as `str::split(sep)`
/// yields them: at least one part, empty parts included.
pub open spec fn spec_split_on(s: Seq<char>, sep: char) -> Seq<Seq<char>>
    decreases s.len(),
{
    if s.len() == 0 {
        seq![Seq::<char>::empty()]
    } else {
        let p = spec_split_on(s.drop_last(), sep);
        if s.last() == sep {
            p.push(Seq::<char>::empty())
        } else {
            p.update(p.len() - 1, p.last().push(s.last()))
        }
    }
}

pub proof fn lemma_split_on_nonempty(s: Seq<char>, sep: char)
    ensures
        spec_split_on(s, sep).len() >= 1,
    decreases s.len(),
{
    if s.len() > 0 {
        lemma_split_on_nonempty(s.drop_last(), sep);
    }
}

/// Splits `s` at every `sep`.
pub fn split_on(s: &str, sep: char) -> (parts: Vec<String>)
    ensures
        string_views(parts@) == spec_split_on(s@, sep),
{
    let cs = str_chars(s);
    let mut parts: Vec<String> = Vec::new();
    let mut cur: Vec<char> = Vec::new();
    let mut i: usize = 0;
    proof {
        assert(cs@.take(0) =~= Seq::<char>::empty());
        assert(string_views(parts@).push(cur@) =~= seq![Seq::<char>::empty()]);
    }
    while i < cs.len()
        invariant
            cs@ == s@,
            i <= cs.len(),
            string_views(parts@).push(cur@) == spec_split_on(cs@.take(i as int), sep),
        decreases cs.len() - i,
    {
        let c = cs[i];
        let ghost before = string_views(parts@);
        let ghost cur_before = cur@;
        proof {
            assert(cs@.take(i as int + 1).drop_last() =~= cs@.take(i as int));
            assert(cs@.take(i as int + 1).last() == c);
        }
        if c == sep {
            let part = string_from_chars(cur.as_slice());
            parts.push(part);
            cur = Vec::new();
            proof {
                assert(string_views(parts@) =~= before.push(cur_before));
                assert(string_views(parts@).push(cur@) =~= before.push(cur_before).push(Seq::<char>::empty()));
            }
        } else {
            cur.push(c);
            proof {
                assert(string_views(parts@) =~= before);
                assert(string_views(parts@).push(cur@) =~= before.push(cur_before).update(
                    before.len() as int,
                    cur_before.push(c),
                ));
            }
        }
        i = i + 1;
    }
    let ghost before = string_views(parts@);
    let ghost cur_before = cur@;
    let last = string_from_chars(cur.as_slice());
    parts.push(last);
    proof {
        assert(cs@.take(cs@.len() as int) =~= cs@);
        assert(string_views(parts@) =~= before.push(cur_before));
    }
    parts
}

/// `prefix` is a prefix of `s`.
pub open spec fn is_prefix_of(prefix: Seq<char>, s: Seq<char>) -> bool {
    prefix.len() <= s.len() && s.take(prefix.len() as int) == prefix
}

/// `s.strip_prefix(prefix)`, owned.
pub fn strip_prefix_str(s: &str, prefix: &str) -> (r: Option<String>)
    ensures
        match r {
            Some(rest) => is_prefix_of(prefix@, s@) && rest@ == s@.skip(prefix@.len() as int),
            None => !is_prefix_of(prefix@, s@),
        },
{
    let cs = str_chars(s);
    let ps = str_chars(prefix);
    if ps.len() > cs.len() {
        return None;
    }
    let mut i: usize = 0;
    while i < ps.len()
        invariant
            cs@ == s@,
            ps@ == prefix@,
            ps@.len() <= cs@.len(),
            i <= ps@.len(),
            forall|j: int| 0 <= j < i ==> cs@[j] == ps@[j],
        decreases ps@.len() - i,
    {
        if cs[i] != ps[i] {
            proof {
                assert(s@.take(prefix@.len() as int)[i as int] != prefix@[i as int]);
            }
            return None;
        }
        i = i + 1;
    }
    proof {
        assert(s@.take(prefix@.len() as int) =~= prefix@);
    }
    Some(string_of_range(&cs, ps.len(), cs.len()))
}

/// The number of characters of `s` (`s.chars().count()`).
pub fn char_count(s: &str) -> (n: usize)
    ensures
        n == s@.len(),
{
    let cs = str_chars(s);
    cs.len()
}

/// Whether every character of `s` is an ASCII decimal digit.
pub fn is_all_ascii_digits(s: &str) -> (r: bool)
    ensures
        r == all_digits(s@),
{
    let cs = str_chars(s);
    let mut i: usize = 0;
    while i < cs.len()
        invariant
            cs@ == s@,
            i <= cs@.len(),
            forall|j: int| 0 <= j < i ==> is_digit_char(#[trigger] cs@[j]),
        decreases cs@.len() - i,
    {
        if !('0' <= cs[i] && cs[i] <= '9') {
            return false;
        }
        i = i + 1;
    }
    true
}

} // verus!
