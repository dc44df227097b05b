//! Character-level text utilities: lexicographic ordering of sequences,
//! string equality and comparison, prefix / suffix / substring predicates,
//! decimal parsing and rendering, and sorting of path lists.
//!
//! Everything here is verified except two small wrappers: one over
//! `String::push` and one over `str::to_lowercase`.

use vstd::prelude::*;
use vstd::relations::{sorted_by, total_ordering};
use vstd::seq_lib::lemma_sorted_unique;
use vstd::string::StrSliceExecFns;

verus! {

/// Lexicographic "less than or equal" over sequences, generic in the
/// element order `le`: the shorter sequence wins on a tie, otherwise the
/// first differing element decides.
pub open spec fn lex_leq_by<A>(a: Seq<A>, b: Seq<A>, le: spec_fn(A, A) -> bool) -> bool
    decreases a.len(),
{
    if a.len() == 0 {
        true
    } else if b.len() == 0 {
        false
    } else if a[0] == b[0] {
        lex_leq_by(a.drop_first(), b.drop_first(), le)
    } else {
        le(a[0], b[0])
    }
}

/// The order on characters: by Unicode scalar value.
pub open spec fn char_leq() -> spec_fn(char, char) -> bool {
    |x: char, y: char| (x as u32) <= (y as u32)
}

/// The order on strings (as character sequences): lexicographic by
/// Unicode scalar value.
pub open spec fn lex_leq(a: Seq<char>, b: Seq<char>) -> bool {
    lex_leq_by(a, b, char_leq())
}

/// `lex_leq` as a binary relation value, for use with `sort_by`.
pub open spec fn lex_leq_fn() -> spec_fn(Seq<char>, Seq<char>) -> bool {
    |a: Seq<char>, b: Seq<char>| lex_leq(a, b)
}

proof fn lemma_lex_leq_by_reflexive<A>(a: Seq<A>, le: spec_fn(A, A) -> bool)
    ensures
        lex_leq_by(a, a, le),
    decreases a.len(),
{
    if a.len() > 0 {
        lemma_lex_leq_by_reflexive(a.drop_first(), le);
    }
}

proof fn lemma_lex_leq_by_antisymmetric<A>(a: Seq<A>, b: Seq<A>, le: spec_fn(A, A) -> bool)
    requires
        total_ordering(le),
        lex_leq_by(a, b, le),
        lex_leq_by(b, a, le),
    ensures
        a == b,
    decreases a.len(),
{
    if a.len() == 0 {
        assert(b.len() == 0);
        assert(a =~= b);
    } else {
        assert(b.len() > 0);
        if a[0] == b[0] {
            lemma_lex_leq_by_antisymmetric(a.drop_first(), b.drop_first(), le);
            assert(a =~= b) by {
                assert(forall|i: int|
                    1 <= i < a.len() ==> a[i] == a.drop_first()[i - 1] && b[i]
                        == b.drop_first()[i - 1]);
            }
        } else {
            assert(le(a[0], b[0]) && le(b[0], a[0]));
            assert(a[0] == b[0]);
        }
    }
}

proof fn lemma_lex_leq_by_transitive<A>(a: Seq<A>, b: Seq<A>, c: Seq<A>, le: spec_fn(A, A) -> bool)
    requires
        total_ordering(le),
        lex_leq_by(a, b, le),
        lex_leq_by(b, c, le),
    ensures
        lex_leq_by(a, c, le),
    decreases a.len(),
{
    if a.len() == 0 || b.len() == 0 || c.len() == 0 {
    } else {
        if a[0] == b[0] && b[0] == c[0] {
            lemma_lex_leq_by_transitive(a.drop_first(), b.drop_first(), c.drop_first(), le);
        } else if a[0] == b[0] {
            assert(le(b[0], c[0]));
        } else if b[0] == c[0] {
            assert(le(a[0], b[0]));
        } else {
            assert(le(a[0], b[0]) && le(b[0], c[0]));
            assert(le(a[0], c[0]));
            if a[0] == c[0] {
                assert(le(c[0], b[0]) && le(b[0], c[0]));
                assert(b[0] == c[0]);
            }
        }
    }
}

proof fn lemma_lex_leq_by_connected<A>(a: Seq<A>, b: Seq<A>, le: spec_fn(A, A) -> bool)
    requires
        total_ordering(le),
    ensures
        lex_leq_by(a, b, le) || lex_leq_by(b, a, le),
    decreases a.len(),
{
    if a.len() == 0 || b.len() == 0 {
    } else if a[0] == b[0] {
        lemma_lex_leq_by_connected(a.drop_first(), b.drop_first(), le);
    }
}

/// The lexicographic lift of a total element order is a total order.
pub proof fn lemma_lex_leq_by_total<A>(le: spec_fn(A, A) -> bool)
    requires
        total_ordering(le),
    ensures
        total_ordering(|a: Seq<A>, b: Seq<A>| lex_leq_by(a, b, le)),
{
    let lifted = |a: Seq<A>, b: Seq<A>| lex_leq_by(a, b, le);
    assert forall|a: Seq<A>| #[trigger] lifted(a, a) by {
        lemma_lex_leq_by_reflexive(a, le);
    }
    assert forall|a: Seq<A>, b: Seq<A>| #[trigger] lifted(a, b) && #[trigger] lifted(b, a)
        implies a == b by {
        lemma_lex_leq_by_antisymmetric(a, b, le);
    }
    assert forall|a: Seq<A>, b: Seq<A>, c: Seq<A>|
        #[trigger] lifted(a, b) && #[trigger] lifted(b, c) implies lifted(a, c) by {
        lemma_lex_leq_by_transitive(a, b, c, le);
    }
    assert forall|a: Seq<A>, b: Seq<A>| #[trigger] lifted(a, b) || #[trigger] lifted(b, a) by {
        lemma_lex_leq_by_connected(a, b, le);
    }
}

proof fn lemma_char_eq_from_u32(x: char, y: char)
    requires
        x as u32 == y as u32,
    ensures
        x == y,
{
}

/// The character order is total.
pub proof fn lemma_char_leq_total()
    ensures
        total_ordering(char_leq()),
{
    let le = char_leq();
    assert forall|x: char, y: char| #[trigger] le(x, y) && #[trigger] le(y, x) implies x == y by {
        lemma_char_eq_from_u32(x, y);
    }
}

/// The string order is total.
pub proof fn lemma_lex_leq_total()
    ensures
        total_ordering(lex_leq_fn()),
{
    lemma_char_leq_total();
    lemma_lex_leq_by_total::<char>(char_leq());
    let lifted = |a: Seq<char>, b: Seq<char>| lex_leq_by(a, b, char_leq());
    assert(lex_leq_fn() =~= lifted);
}

/// With equal prefixes of length `i`, the order is decided by the tails.
pub proof fn lemma_lex_leq_by_common_prefix<A>(
    a: Seq<A>,
    b: Seq<A>,
    le: spec_fn(A, A) -> bool,
    i: int,
)
    requires
        0 <= i <= a.len(),
        i <= b.len(),
        forall|j: int| 0 <= j < i ==> a[j] == b[j],
    ensures
        lex_leq_by(a, b, le) == lex_leq_by(
            a.subrange(i, a.len() as int),
            b.subrange(i, b.len() as int),
            le,
        ),
    decreases i,
{
    if i == 0 {
        assert(a.subrange(0, a.len() as int) =~= a);
        assert(b.subrange(0, b.len() as int) =~= b);
    } else {
        assert(a.len() > 0 && b.len() > 0 && a[0] == b[0]);
        lemma_lex_leq_by_common_prefix(a.drop_first(), b.drop_first(), le, i - 1);
        assert(a.drop_first().subrange(i - 1, a.drop_first().len() as int) =~= a.subrange(
            i,
            a.len() as int,
        ));
        assert(b.drop_first().subrange(i - 1, b.drop_first().len() as int) =~= b.subrange(
            i,
            b.len() as int,
        ));
    }
}

/// Character-for-character equality of two string slices.
pub fn str_eq(a: &str, b: &str) -> (r: bool)
    ensures
        r == (a@ == b@),
{
    let n = a.unicode_len();
    let m = b.unicode_len();
    if n != m {
        assert(a@ != b@);
        return false;
    }
    let mut i: usize = 0;
    while i < n
        invariant
            0 <= i <= n,
            n == a@.len(),
            n == b@.len(),
            forall|j: int| 0 <= j < i ==> a@[j] == b@[j],
        decreases n - i,
    {
        if a.get_char(i) != b.get_char(i) {
            assert(a@ != b@);
            return false;
        }
        i = i + 1;
    }
    assert(a@ =~= b@);
    true
}

/// Lexicographic comparison of two string slices: is `a` at most `b`?
pub fn str_leq(a: &str, b: &str) -> (r: bool)
    ensures
        r == lex_leq(a@, b@),
{
    let n = a.unicode_len();
    let m = b.unicode_len();
    let mut i: usize = 0;
    loop
        invariant
            0 <= i <= n,
            i <= m,
            n == a@.len(),
            m == b@.len(),
            forall|j: int| 0 <= j < i ==> a@[j] == b@[j],
        decreases n - i,
    {
        proof {
            lemma_lex_leq_by_common_prefix(a@, b@, char_leq(), i as int);
        }
        let ghost ta = a@.subrange(i as int, a@.len() as int);
        let ghost tb = b@.subrange(i as int, b@.len() as int);
        if i == n {
            assert(ta.len() == 0);
            return true;
        }
        if i == m {
            assert(tb.len() == 0 && ta.len() > 0);
            return false;
        }
        let ca = a.get_char(i);
        let cb = b.get_char(i);
        if ca != cb {
            assert(ta[0] == ca && tb[0] == cb);
            return (ca as u32) < (cb as u32);
        }
        i = i + 1;
    }
}

/// `p` is a prefix of `s`.
pub open spec fn is_prefix_of(p: Seq<char>, s: Seq<char>) -> bool {
    p.len() <= s.len() && s.subrange(0, p.len() as int) == p
}

/// `p` is a suffix of `s`.
pub open spec fn is_suffix_of(p: Seq<char>, s: Seq<char>) -> bool {
    p.len() <= s.len() && s.subrange(s.len() - p.len(), s.len() as int) == p
}

/// `sub` occurs contiguously somewhere inside `s`.
pub open spec fn contains_sub(s: Seq<char>, sub: Seq<char>) -> bool {
    exists|i: int|
        0 <= i <= s.len() - sub.len() && #[trigger] s.subrange(i, i + sub.len()) == sub
}

/// Does `s` start with `p`?
pub fn starts_with_str(s: &str, p: &str) -> (r: bool)
    ensures
        r == is_prefix_of(p@, s@),
{
    let n = s.unicode_len();
    let m = p.unicode_len();
    if m > n {
        return false;
    }
    let mut i: usize = 0;
    while i < m
        invariant
            0 <= i <= m,
            m <= n,
            n == s@.len(),
            m == p@.len(),
            forall|j: int| 0 <= j < i ==> s@[j] == p@[j],
        decreases m - i,
    {
        if s.get_char(i) != p.get_char(i) {
            assert(s@.subrange(0, p@.len() as int)[i as int] != p@[i as int]);
            return false;
        }
        i = i + 1;
    }
    assert(s@.subrange(0, p@.len() as int) =~= p@);
    true
}

/// Does `s` end with `p`?
pub fn ends_with_str(s: &str, p: &str) -> (r: bool)
    ensures
        r == is_suffix_of(p@, s@),
{
    let n = s.unicode_len();
    let m = p.unicode_len();
    if m > n {
        return false;
    }
    let off: usize = n - m;
    let mut i: usize = 0;
    while i < m
        invariant
            0 <= i <= m,
            m <= n,
            off == n - m,
            n == s@.len(),
            m == p@.len(),
            forall|j: int| 0 <= j < i ==> s@[off + j] == p@[j],
        decreases m - i,
    {
        if s.get_char(off + i) != p.get_char(i) {
            assert(s@.subrange(s@.len() - p@.len(), s@.len() as int)[i as int] != p@[i as int]);
            return false;
        }
        i = i + 1;
    }
    assert(s@.subrange(s@.len() - p@.len(), s@.len() as int) =~= p@);
    true
}

/// Does `s` match `sub` at offset `at`?
fn matches_at(s: &str, sub: &str, at: usize, n: usize, m: usize) -> (r: bool)
    requires
        n == s@.len(),
        m == sub@.len(),
        at + m <= n,
    ensures
        r == (s@.subrange(at as int, at + sub@.len()) == sub@),
{
    let mut i: usize = 0;
    while i < m
        invariant
            0 <= i <= m,
            at + m <= n <= usize::MAX,
            n == s@.len(),
            m == sub@.len(),
            forall|j: int| 0 <= j < i ==> s@[at + j] == sub@[j],
        decreases m - i,
    {
        if s.get_char(at + i) != sub.get_char(i) {
            assert(s@.subrange(at as int, at + sub@.len())[i as int] != sub@[i as int]);
            return false;
        }
        i = i + 1;
    }
    assert(s@.subrange(at as int, at + sub@.len()) =~= sub@);
    true
}

/// Does `s` contain `sub` anywhere?
pub fn contains_str(s: &str, sub: &str) -> (r: bool)
    ensures
        r == contains_sub(s@, sub@),
{
    let n = s.unicode_len();
    let m = sub.unicode_len();
    if m > n {
        assert(!contains_sub(s@, sub@));
        return false;
    }
    if m == 0 {
        assert(contains_sub(s@, sub@)) by {
            assert(s@.subrange(0, 0 + sub@.len() as int) =~= sub@);
        }
        return true;
    }
    let mut i: usize = 0;
    while i <= n - m
        invariant
            0 <= i <= n - m + 1,
            0 < m <= n,
            n == s@.len(),
            m == sub@.len(),
            forall|j: int| 0 <= j < i ==> #[trigger] s@.subrange(j, j + sub@.len()) != sub@,
        decreases n - i,
    {
        if matches_at(s, sub, i, n, m) {
            return true;
        }
        i = i + 1;
    }
    false
}

/// Is `c` a decimal digit?
pub open spec fn is_digit(c: char) -> bool {
    48 <= (c as u32) <= 57
}

/// The numeric value of a digit character.
pub open spec fn digit_val(c: char) -> int {
    (c as u32) - 48
}

/// Every character of `s` is a decimal digit.
pub open spec fn all_digits(s: Seq<char>) -> bool {
    forall|i: int| 0 <= i < s.len() ==> is_digit(#[trigger] s[i])
}

/// The number written in decimal by the digit sequence `s`.
pub open spec fn dec_value(s: Seq<char>) -> int
    decreases s.len(),
{
    if s.len() == 0 {
        0
    } else {
        dec_value(s.drop_last()) * 10 + digit_val(s.last())
    }
}

/// A longer digit string never names a smaller number.
proof fn lemma_dec_value_monotonic(s: Seq<char>, i: int)
    requires
        0 <= i <= s.len(),
        all_digits(s),
    ensures
        dec_value(s.take(i)) <= dec_value(s),
        dec_value(s) >= 0,
    decreases s.len() - i,
{
    if i == s.len() {
        assert(s.take(i) =~= s);
        lemma_dec_value_nonneg(s);
    } else {
        lemma_dec_value_monotonic(s, i + 1);
        let t = s.take(i + 1);
        assert(t.drop_last() =~= s.take(i));
        lemma_dec_value_nonneg(s.take(i));
        assert(dec_value(t) == dec_value(s.take(i)) * 10 + digit_val(s[i]));
        assert(dec_value(s.take(i)) * 10 >= dec_value(s.take(i)));
    }
}

proof fn lemma_dec_value_nonneg(s: Seq<char>)
    requires
        all_digits(s),
    ensures
        dec_value(s) >= 0,
    decreases s.len(),
{
    if s.len() > 0 {
        assert(all_digits(s.drop_last())) by {
            assert(forall|i: int| 0 <= i < s.len() - 1 ==> s.drop_last()[i] == s[i]);
        }
        lemma_dec_value_nonneg(s.drop_last());
    }
}

/// Parses a size field: a non-empty string of decimal digits whose value
/// fits in 64 bits.  Returns `None` on anything else.
pub fn parse_size(s: &str) -> (r: Option<u64>)
    ensures
        r is Some <==> s@.len() > 0 && all_digits(s@) && dec_value(s@) <= u64::MAX,
        r is Some ==> r->0 == dec_value(s@),
{
    let n = s.unicode_len();
    if n == 0 {
        return None;
    }
    let mut value: u64 = 0;
    let mut i: usize = 0;
    while i < n
        invariant
            0 <= i <= n,
            n == s@.len(),
            n > 0,
            all_digits(s@.take(i as int)),
            value == dec_value(s@.take(i as int)),
        decreases n - i,
    {
        let c = s.get_char(i);
        let cu = c as u32;
        if cu < 48 || cu > 57 {
            assert(!is_digit(s@[i as int]));
            return None;
        }
        let d = (cu - 48) as u64;
        if value > (u64::MAX - d) / 10 {
            proof {
                assert(all_digits(s@.take(i + 1))) by {
                    assert(forall|j: int|
                        0 <= j < i + 1 ==> s@.take(i + 1)[j] == s@.take(i as int).push(s@[i as int])[j]);
                }
                assert(s@.take(i + 1).drop_last() =~= s@.take(i as int));
                assert(dec_value(s@.take(i + 1)) == value * 10 + d);
                assert(value * 10 + d > u64::MAX) by (nonlinear_arith)
                    requires
                        value > (u64::MAX - d) / 10,
                        0 <= d <= 9,
                ;
                if all_digits(s@) {
                    lemma_dec_value_monotonic(s@, i + 1);
                }
            }
            return None;
        }
        proof {
            assert(value * 10 + d <= u64::MAX) by (nonlinear_arith)
                requires
                    value <= (u64::MAX - d) / 10,
                    0 <= d <= 9,
            ;
            assert(s@.take(i + 1).drop_last() =~= s@.take(i as int));
            assert(all_digits(s@.take(i + 1))) by {
                assert(forall|j: int| 0 <= j < i ==> s@.take(i + 1)[j] == s@.take(i as int)[j]);
            }
        }
        value = value * 10 + d;
        i = i + 1;
    }
    proof {
        assert(s@.take(n as int) =~= s@);
    }
    Some(value)
}

/// The decimal rendering of `n`, most significant digit first, no sign,
/// no leading zeros (a single `'0'` for zero).
pub open spec fn dec_digits(n: int) -> Seq<char>
    recommends
        n >= 0,
    decreases n,
{
    if n < 10 {
        seq![digit_char(n)]
    } else {
        dec_digits(n / 10).push(digit_char(n % 10))
    }
}

/// The character for one digit value.
pub open spec fn digit_char(d: int) -> char
    recommends
        0 <= d <= 9,
{
    if d == 0 {
        '0'
    } else if d == 1 {
        '1'
    } else if d == 2 {
        '2'
    } else if d == 3 {
        '3'
    } else if d == 4 {
        '4'
    } else if d == 5 {
        '5'
    } else if d == 6 {
        '6'
    } else if d == 7 {
        '7'
    } else if d == 8 {
        '8'
    } else {
        '9'
    }
}

pub(crate) fn digit_char_exec(d: u64) -> (r: char)
    requires
        d <= 9,
    ensures
        r == digit_char(d as int),
{
    if d == 0 {
        '0'
    } else if d == 1 {
        '1'
    } else if d == 2 {
        '2'
    } else if d == 3 {
        '3'
    } else if d == 4 {
        '4'
    } else if d == 5 {
        '5'
    } else if d == 6 {
        '6'
    } else if d == 7 {
        '7'
    } else if d == 8 {
        '8'
    } else {
        '9'
    }
}

/// Relies on `String::push`: appends the given character to the end of
/// the string.
#[verifier::external_body]
pub(crate) fn push_char(s: &mut String, c: char)
    ensures
        final(s)@ == old(s)@.push(c),
{
    s.push(c)
}

/// Renders a byte count in plain decimal.
pub fn format_size(len: u64) -> (r: String)
    ensures
        r@ == dec_digits(len as int),
    decreases len,
{
    if len < 10 {
        let mut s = String::new();
        push_char(&mut s, digit_char_exec(len));
        assert(s@ =~= dec_digits(len as int));
        s
    } else {
        let mut s = format_size(len / 10);
        push_char(&mut s, digit_char_exec(len % 10));
        assert(s@ =~= dec_digits(len as int));
        s
    }
}

/// Names the result of `str::to_lowercase`: a pure function of the
/// character sequence.
pub uninterp spec fn lower_of(s: Seq<char>) -> Seq<char>;

/// Relies on `str::to_lowercase`: the result depends on the characters
/// alone (Unicode lowercasing, no locale), and an empty string stays
/// empty.
#[verifier::external_body]
pub(crate) fn lowercase(s: &str) -> (r: String)
    ensures
        r@ == lower_of(s@),
        s@.len() == 0 ==> r@.len() == 0,
{
    s.to_lowercase()
}

/// The views of a sequence of owned strings.
pub open spec fn str_views(v: Seq<String>) -> Seq<Seq<char>> {
    v.map_values(|s: String| s@)
}

/// Sorts owned strings lexicographically; the result is exactly the
/// sorted permutation of the input.
pub fn sort_strings(v: &Vec<String>) -> (r: Vec<String>)
    ensures
        str_views(r@) == str_views(v@).sort_by(lex_leq_fn()),
{
    proof {
        lemma_lex_leq_total();
    }
    let mut out: Vec<String> = Vec::new();
    proof {
        assert(str_views(out@) =~= Seq::<Seq<char>>::empty());
        assert(str_views(v@.take(0)) =~= Seq::<Seq<char>>::empty());
    }
    let mut i: usize = 0;
    while i < v.len()
        invariant
            0 <= i <= v@.len(),
            sorted_by(str_views(out@), lex_leq_fn()),
            str_views(out@).to_multiset() == str_views(v@.take(i as int)).to_multiset(),
            total_ordering(lex_leq_fn()),
        decreases v@.len() - i,
    {
        let x = v[i].clone();
        insert_sorted(&mut out, x);
        proof {
            assert(str_views(v@.take(i + 1)).drop_last() =~= str_views(v@.take(i as int)));
            assert(str_views(v@.take(i + 1)) =~= str_views(v@.take(i as int)).push(v@[i as int]@));
            vstd::seq_lib::to_multiset_build(str_views(v@.take(i as int)), v@[i as int]@);
        }
        i = i + 1;
    }
    proof {
        assert(v@.take(v@.len() as int) =~= v@);
        str_views(v@).lemma_sort_by_ensures(lex_leq_fn());
        lemma_sorted_unique(
            str_views(out@),
            str_views(v@).sort_by(lex_leq_fn()),
            lex_leq_fn(),
        );
    }
    out
}

/// Inserts one string into an already sorted vector, keeping it sorted.
fn insert_sorted(out: &mut Vec<String>, x: String)
    requires
        sorted_by(str_views(old(out)@), lex_leq_fn()),
    ensures
        sorted_by(str_views(final(out)@), lex_leq_fn()),
        str_views(final(out)@).to_multiset() == str_views(old(out)@).to_multiset().insert(x@),
{
    proof {
        lemma_lex_leq_total();
    }
    let mut pos: usize = 0;
    while pos < out.len() && str_leq(out[pos].as_str(), x.as_str())
        invariant
            0 <= pos <= out@.len(),
            sorted_by(str_views(out@), lex_leq_fn()),
            out@ == old(out)@,
            forall|j: int| 0 <= j < pos ==> lex_leq(#[trigger] str_views(out@)[j], x@),
            total_ordering(lex_leq_fn()),
        decreases out@.len() - pos,
    {
        assert(lex_leq(str_views(out@)[pos as int], x@));
        pos = pos + 1;
    }
    let ghost before = out@;
    proof {
        if pos < out@.len() {
            let f = lex_leq_fn();
            let vpos = str_views(out@)[pos as int];
            assert(!lex_leq(vpos, x@));
            assert(f(vpos, x@) || f(x@, vpos));
            assert(lex_leq(x@, vpos));
        }
    }
    out.insert(pos, x);
    proof {
        let f = lex_leq_fn();
        let nv = str_views(out@);
        let ov = str_views(before);
        assert(nv =~= ov.insert(pos as int, x@));
        assert forall|i: int, j: int| 0 <= i < j < nv.len() implies f(nv[i], nv[j]) by {
            if i < pos && j == pos {
                assert(nv[i] == ov[i] && nv[j] == x@);
            } else if i == pos && j > pos {
                assert(nv[i] == x@ && nv[j] == ov[j - 1]);
                if pos < ov.len() {
                    assert(f(x@, ov[pos as int]));
                    if j - 1 > pos {
                        assert(f(ov[pos as int], ov[j - 1]));
                    }
                }
            } else if i < pos && j > pos {
                assert(nv[i] == ov[i] && nv[j] == ov[j - 1]);
                if pos < ov.len() {
                    assert(f(ov[i], x@));
                    assert(f(x@, ov[pos as int]));
                    if j - 1 == pos {
                    } else {
                        assert(f(ov[pos as int], ov[j - 1]));
                    }
                    assert(f(ov[i], ov[j - 1]));
                }
            } else {
                assert(i != pos && j != pos);
                let oi = if i < pos { i } else { i - 1 };
                let oj = if j < pos { j } else { j - 1 };
                assert(nv[i] == ov[oi] && nv[j] == ov[oj]);
                assert(0 <= oi < oj < ov.len());
            }
        }
        assert(nv.remove(pos as int) =~= ov);
        vstd::seq_lib::to_multiset_remove(nv, pos as int);
        assert(nv[pos as int] == x@);
        nv.to_multiset_ensures();
        assert(nv.to_multiset().count(x@) > 0) by {
            assert(nv.contains(x@));
        }
        assert(nv.to_multiset() =~= ov.to_multiset().insert(x@)) by {
            assert(ov.to_multiset() == nv.to_multiset().remove(x@));
        }
    }
}

} // verus!
