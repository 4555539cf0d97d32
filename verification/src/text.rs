//! Character-level text helpers shared by the pointer grammar, the query
//! lexer and the scorers: conversions between strings and character vectors,
//! ASCII case folding, substring tests, decimal parsing and rendering.

use vstd::prelude::*;

verus! {

broadcast use vstd::std_specs::vec::group_vec_axioms, vstd::seq::group_seq_axioms,
    vstd::string::group_string_axioms;

use vstd::std_specs::iter::IteratorSpec;

/// The characters of a string slice, in order.
pub fn chars_vec(s: &str) -> (r: Vec<char>)
    ensures
        r@ == s@,
{
    let mut it = s.chars();
    let mut out: Vec<char> = Vec::new();
    loop
        invariant
            it.decrease() is Some,
            out@ + it.remaining() == s@,
        ensures
            out@ == s@,
        decreases it.decrease()->0,
    {
        if let Some(c) = it.next() {
            out.push(c);
        } else {
            break;
        }
    }
    out
}

/// Relies on `FromIterator<char> for String`: collecting characters yields the
/// string with exactly those characters.
#[verifier::external_body]
pub fn string_from_chars(chars: &Vec<char>) -> (r: String)
    ensures
        r@ == chars@,
{
    chars.iter().collect()
}

/// ASCII lower-casing of one character; everything else is untouched.
pub open spec fn lower_char(c: char) -> char {
    if 65 <= c as u32 <= 90 {
        ((c as u32 + 32) as char)
    } else {
        c
    }
}

/// ASCII lower-casing of a character sequence.
pub open spec fn lower(s: Seq<char>) -> Seq<char> {
    s.map_values(|c: char| lower_char(c))
}

/// Case folding as the fuzzy scorer applies it.
pub fn to_lower_char(c: char) -> (r: char)
    ensures
        r == lower_char(c),
{
    let u = c as u32;
    if 65 <= u && u <= 90 {
        ((u + 32) as u8) as char
    } else {
        c
    }
}

/// Case folding is idempotent: folded text folds to itself.
pub proof fn lemma_lower_char_idempotent(c: char)
    ensures
        lower_char(lower_char(c)) == lower_char(c),
{
    if 65 <= c as u32 <= 90 {
        assert((((c as u32 + 32) as char) as u32) == c as u32 + 32);
    }
}

/// The characters of a string, case-folded.
pub fn lower_vec(s: &str) -> (r: Vec<char>)
    ensures
        r@ == lower(s@),
{
    let cs = chars_vec(s);
    let n = cs.len();
    let mut out: Vec<char> = Vec::new();
    let mut i: usize = 0;
    while i < n
        invariant
            cs@ == s@,
            n == s@.len(),
            i <= n,
            out@.len() == i,
            forall|j: int| 0 <= j < i ==> out@[j] == lower_char(#[trigger] s@[j]),
        decreases n - i,
    {
        out.push(to_lower_char(cs[i]));
        i = i + 1;
    }
    proof {
        assert(out@ =~= lower(s@));
    }
    out
}

/// Character-for-character string equality.
pub fn str_eq(a: &str, b: &str) -> (r: bool)
    ensures
        r == (a@ == b@),
{
    let av = chars_vec(a);
    let bv = chars_vec(b);
    if av.len() != bv.len() {
        return false;
    }
    let n = av.len();
    let mut i: usize = 0;
    while i < n
        invariant
            av@ == a@,
            bv@ == b@,
            n == av.len() == bv.len(),
            i <= n,
            forall|j: int| 0 <= j < i ==> av@[j] == bv@[j],
        decreases n - i,
    {
        if av[i] != bv[i] {
            assert(av@ == bv@ ==> av@[i as int] == bv@[i as int]);
            return false;
        }
        i = i + 1;
    }
    proof {
        assert(av@ =~= bv@);
    }
    true
}

/// `p` occurs in `t` starting at position `i`.
pub open spec fn match_at(t: Seq<char>, p: Seq<char>, i: int) -> bool {
    &&& 0 <= i
    &&& i + p.len() <= t.len()
    &&& forall|k: int| 0 <= k < p.len() ==> t[i + k] == p[k]
}

/// `p` occurs somewhere in `t`.
pub open spec fn contains_seq(t: Seq<char>, p: Seq<char>) -> bool {
    exists|i: int| match_at(t, p, i)
}

/// `t` begins with `p`.
pub open spec fn starts_with_seq(t: Seq<char>, p: Seq<char>) -> bool {
    match_at(t, p, 0)
}

/// `t` ends with `p`.
pub open spec fn ends_with_seq(t: Seq<char>, p: Seq<char>) -> bool {
    match_at(t, p, t.len() - p.len())
}

/// Whether `p` occurs in `t` at position `i`, by direct comparison.
fn chars_match_at(t: &Vec<char>, p: &Vec<char>, i: usize) -> (r: bool)
    requires
        i + p@.len() <= t@.len(),
    ensures
        r == match_at(t@, p@, i as int),
{
    let mut k: usize = 0;
    while k < p.len()
        invariant
            i + p@.len() <= t@.len(),
            k <= p@.len(),
            forall|j: int| 0 <= j < k ==> t@[i + j] == p@[j],
        decreases p@.len() - k,
    {
        proof {
            assert(t@.len() == t.len());
            assert(i + k < t@.len());
        }
        if t[i + k] != p[k] {
            assert(t@[i + k] != p@[k as int]);
            return false;
        }
        k = k + 1;
    }
    true
}

/// Substring test over character vectors.
pub fn chars_contains(t: &Vec<char>, p: &Vec<char>) -> (r: bool)
    ensures
        r == contains_seq(t@, p@),
{
    if p.len() == 0 {
        assert(match_at(t@, p@, 0));
        return true;
    }
    if p.len() > t.len() {
        assert(forall|i: int| !match_at(t@, p@, i));
        return false;
    }
    let bound = t.len() - p.len();
    proof {
        assert(t@.len() == t.len());
    }
    let mut i: usize = 0;
    loop
        invariant
            t@.len() <= usize::MAX,
            1 <= p@.len() <= t@.len(),
            bound == t@.len() - p@.len(),
            i <= bound + 1,
            forall|j: int| 0 <= j < i ==> !match_at(t@, p@, j),
        ensures
            forall|j: int| 0 <= j <= bound ==> !match_at(t@, p@, j),
        decreases bound + 1 - i,
    {
        if i > bound {
            break;
        }
        if chars_match_at(t, p, i) {
            return true;
        }
        i = i + 1;
    }
    assert(forall|j: int| match_at(t@, p@, j) ==> 0 <= j <= bound);
    false
}

/// Prefix test over character vectors.
pub fn chars_starts_with(t: &Vec<char>, p: &Vec<char>) -> (r: bool)
    ensures
        r == starts_with_seq(t@, p@),
{
    if p.len() > t.len() {
        return false;
    }
    chars_match_at(t, p, 0)
}

/// Suffix test over character vectors.
pub fn chars_ends_with(t: &Vec<char>, p: &Vec<char>) -> (r: bool)
    ensures
        r == ends_with_seq(t@, p@),
{
    if p.len() > t.len() {
        return false;
    }
    chars_match_at(t, p, t.len() - p.len())
}

/// Substring test on strings, as the scorers use it.
pub fn str_contains(t: &str, p: &str) -> (r: bool)
    ensures
        r == contains_seq(t@, p@),
{
    let tv = chars_vec(t);
    let pv = chars_vec(p);
    chars_contains(&tv, &pv)
}

/// Prefix test on strings.
pub fn str_starts_with(t: &str, p: &str) -> (r: bool)
    ensures
        r == starts_with_seq(t@, p@),
{
    let tv = chars_vec(t);
    let pv = chars_vec(p);
    chars_starts_with(&tv, &pv)
}

/// Suffix test on strings.
pub fn str_ends_with(t: &str, p: &str) -> (r: bool)
    ensures
        r == ends_with_seq(t@, p@),
{
    let tv = chars_vec(t);
    let pv = chars_vec(p);
    chars_ends_with(&tv, &pv)
}

/// A decimal digit.
pub open spec fn is_digit(c: char) -> bool {
    48 <= c as u32 <= 57
}

/// Numeric value of a decimal digit.
pub open spec fn digit_val(c: char) -> int {
    c as u32 - 48
}

/// The digit character for a value below ten.
pub open spec fn digit_char(d: int) -> char {
    if d == 0 {
        '0'
    } else if d == 1 {
        '1'
    } else if d == 2 {
        '2'
    } else if d == 3 {
        '3'
    } else if d == 4 {
        '4'
    } else if d == 5 {
        '5'
    } else if d == 6 {
        '6'
    } else if d == 7 {
        '7'
    } else if d == 8 {
        '8'
    } else if d == 9 {
        '9'
    } else {
        '0'
    }
}

/// Every character of `s` is a decimal digit.
pub open spec fn all_digits(s: Seq<char>) -> bool {
    forall|i: int| 0 <= i < s.len() ==> is_digit(s[i])
}

/// The number denoted by a digit sequence, most significant digit first.
pub open spec fn dec_val(s: Seq<char>) -> int
    decreases s.len(),
{
    if s.len() == 0 {
        0
    } else {
        dec_val(s.drop_last()) * 10 + digit_val(s.last())
    }
}

/// What `str::parse::<usize>` accepts: an optional plus sign, then at least
/// one digit, denoting a value that fits in `usize`.
pub open spec fn parse_usize_spec(s: Seq<char>) -> Option<int> {
    let body = if s.len() > 0 && s[0] == '+' {
        s.drop_first()
    } else {
        s
    };
    if body.len() > 0 && all_digits(body) && dec_val(body) <= usize::MAX {
        Some(dec_val(body))
    } else {
        None
    }
}

pub proof fn lemma_dec_val_nonneg(s: Seq<char>)
    requires
        all_digits(s),
    ensures
        dec_val(s) >= 0,
    decreases s.len(),
{
    if s.len() > 0 {
        assert(all_digits(s.drop_last())) by {
            assert(forall|i: int| 0 <= i < s.len() - 1 ==> s.drop_last()[i] == s[i]);
        }
        lemma_dec_val_nonneg(s.drop_last());
    }
}

proof fn lemma_dec_val_prefix(s: Seq<char>, k: int)
    requires
        all_digits(s),
        0 <= k <= s.len(),
    ensures
        dec_val(s.take(k)) <= dec_val(s),
    decreases s.len() - k,
{
    assert(all_digits(s.take(k))) by {
        assert(forall|i: int| 0 <= i < k ==> s.take(k)[i] == s[i]);
    }
    if k == s.len() {
        assert(s.take(k) =~= s);
    } else {
        assert(s.take(k + 1).drop_last() =~= s.take(k));
        assert(s.take(k + 1).last() == s[k]);
        lemma_dec_val_nonneg(s.take(k));
        assert(dec_val(s.take(k + 1)) == dec_val(s.take(k)) * 10 + digit_val(s[k]));
        assert(dec_val(s.take(k)) * 10 >= dec_val(s.take(k))) by {
            lemma_dec_val_nonneg(s.take(k));
        }
        assert(digit_val(s[k]) >= 0);
        lemma_dec_val_prefix(s, k + 1);
    }
}

/// A parsed index is never negative.
pub proof fn lemma_parse_usize_nonneg(s: Seq<char>)
    requires
        parse_usize_spec(s) is Some,
    ensures
        parse_usize_spec(s)->Some_0 >= 0,
{
    let body = if s.len() > 0 && s[0] == '+' {
        s.drop_first()
    } else {
        s
    };
    lemma_dec_val_nonneg(body);
}

/// Decimal parsing with the semantics of `str::parse::<usize>`.
pub fn parse_usize(s: &str) -> (r: Option<usize>)
    ensures
        match r {
            Some(n) => parse_usize_spec(s@) == Some(n as int),
            None => parse_usize_spec(s@) is None,
        },
{
    let v = chars_vec(s);
    let mut start: usize = 0;
    if v.len() > 0 && v[0] == '+' {
        start = 1;
    }
    let ghost body = if s@.len() > 0 && s@[0] == '+' {
        s@.drop_first()
    } else {
        s@
    };
    proof {
        assert(body =~= v@.subrange(start as int, v@.len() as int));
    }
    if start == v.len() {
        return None;
    }
    let mut acc: usize = 0;
    let mut i: usize = start;
    while i < v.len()
        invariant
            v@ == s@,
            start <= i <= v@.len(),
            start <= 1,
            v@.len() <= usize::MAX,
            body == v@.subrange(start as int, v@.len() as int),
            body == (if s@.len() > 0 && s@[0] == '+' { s@.drop_first() } else { s@ }),
            body.len() > 0,
            all_digits(body.take(i - start)),
            acc == dec_val(body.take(i - start)),
        decreases v@.len() - i,
    {
        let c = v[i];
        let u = c as u32;
        if u < 48 || u > 57 {
            proof {
                assert(body[i - start] == v@[i as int]);
                assert(!is_digit(body[i - start]));
                assert(!all_digits(body));
                assert(parse_usize_spec(s@) is None);
            }
            return None;
        }
        let d = (u - 48) as usize;
        proof {
            assert(body.take(i + 1 - start).drop_last() =~= body.take(i - start));
            assert(body.take(i + 1 - start).last() == v@[i as int]);
        }
        let acc10 = match acc.checked_mul(10) {
            Some(x) => x,
            None => {
                proof {
                    lemma_dec_val_nonneg(body.take(i - start));
                    assert(dec_val(body.take(i + 1 - start)) > usize::MAX);
                    if all_digits(body) {
                        lemma_dec_val_prefix(body, i + 1 - start);
                    }
                    assert(parse_usize_spec(s@) is None);
                }
                return None;
            },
        };
        acc = match acc10.checked_add(d) {
            Some(x) => x,
            None => {
                proof {
                    assert(dec_val(body.take(i + 1 - start)) > usize::MAX);
                    if all_digits(body) {
                        lemma_dec_val_prefix(body, i + 1 - start);
                    }
                    assert(parse_usize_spec(s@) is None);
                }
                return None;
            },
        };
        i = i + 1;
    }
    proof {
        assert(body.take(i - start) =~= body);
    }
    Some(acc)
}

/// The decimal rendering of a non-negative number, as `usize::to_string` and
/// friends produce it.
pub open spec fn dec_digits(n: int) -> Seq<char>
    decreases n,
{
    if n < 10 {
        seq![digit_char(if n < 0 { 0 } else { n })]
    } else {
        dec_digits(n / 10).push(digit_char(n % 10))
    }
}

fn push_dec_u64(n: u64, out: &mut Vec<char>)
    ensures
        final(out)@ == old(out)@ + dec_digits(n as int),
    decreases n,
{
    if n < 10 {
        out.push(((48 + n as u32) as u8) as char);
        proof {
            assert(out@ =~= old(out)@ + dec_digits(n as int));
        }

    } else {
        push_dec_u64(n / 10, out);
        out.push(((48 + (n % 10) as u32) as u8) as char);
        proof {
            assert(out@ =~= old(out)@ + dec_digits(n as int));
        }
    }
}

/// Decimal rendering of an index, as `usize::to_string` gives it.
pub fn usize_to_string(n: usize) -> (r: String)
    ensures
        r@ == dec_digits(n as int),
{
    let mut out: Vec<char> = Vec::new();
    push_dec_u64(n as u64, &mut out);
    string_from_chars(&out)
}

/// The decimal rendering of a possibly negative number.
pub open spec fn dec_i64(n: int) -> Seq<char> {
    if n < 0 {
        seq!['-'] + dec_digits(-n)
    } else {
        dec_digits(n)
    }
}

/// Decimal rendering of a number node, as `i64::to_string` gives it.
pub fn i64_to_string(n: i64) -> (r: String)
    ensures
        r@ == dec_i64(n as int),
{
    let mut out: Vec<char> = Vec::new();
    if n < 0 {
        out.push('-');
        let mag: u64 = ((-(n + 1)) as u64) + 1;
        proof {
            assert(mag as int == -(n as int));
        }
        push_dec_u64(mag, &mut out);
        proof {
            assert(out@ =~= dec_i64(n as int));
        }
    } else {
        push_dec_u64(n as u64, &mut out);
    }
    string_from_chars(&out)
}

/// Reading back a decimal rendering gives the number itself.
pub proof fn lemma_dec_val_digits(n: int)
    requires
        n >= 0,
    ensures
        dec_val(dec_digits(n)) == n,
        all_digits(dec_digits(n)),
        dec_digits(n).len() >= 1,
    decreases n,
{
    if n < 10 {
        assert(dec_digits(n).drop_last() =~= Seq::<char>::empty());
        assert(dec_digits(n).last() == digit_char(n));
        assert(dec_val(Seq::<char>::empty()) == 0);
        assert(dec_val(dec_digits(n)) == digit_val(digit_char(n)));
        assert(digit_val(digit_char(n)) == n);
    } else {
        lemma_dec_val_digits(n / 10);
        assert(dec_digits(n).drop_last() =~= dec_digits(n / 10));
        assert(dec_digits(n).last() == digit_char(n % 10));
        assert(dec_val(dec_digits(n)) == dec_val(dec_digits(n / 10)) * 10 + digit_val(
            digit_char(n % 10),
        ));
        assert(digit_val(digit_char(n % 10)) == n % 10);
        assert((n / 10) * 10 + n % 10 == n) by (nonlinear_arith);
        assert forall|i: int| 0 <= i < dec_digits(n).len() implies is_digit(
            #[trigger] dec_digits(n)[i],
        ) by {
            if i < dec_digits(n).len() - 1 {
                assert(dec_digits(n)[i] == dec_digits(n / 10)[i]);
                assert(is_digit(dec_digits(n / 10)[i]));
            } else {
                assert(dec_digits(n)[i] == digit_char(n % 10));
            }
        }
    }
}

/// A decimal rendering parses back to the number it renders.
pub proof fn lemma_dec_roundtrip(n: int)
    requires
        0 <= n <= usize::MAX,
    ensures
        parse_usize_spec(dec_digits(n)) == Some(n),
{
    lemma_dec_val_digits(n);
    assert(dec_digits(n)[0] != '+');
}

/// The rendering of a boolean node, as `bool::to_string` gives it.
pub open spec fn bool_chars(b: bool) -> Seq<char> {
    if b {
        seq!['t', 'r', 'u', 'e']
    } else {
        seq!['f', 'a', 'l', 's', 'e']
    }
}

/// Boolean rendering.
pub fn bool_to_string(b: bool) -> (r: String)
    ensures
        r@ == bool_chars(b),
{
    let mut out: Vec<char> = Vec::new();
    if b {
        out.push('t');
        out.push('r');
        out.push('u');
        out.push('e');
    } else {
        out.push('f');
        out.push('a');
        out.push('l');
        out.push('s');
        out.push('e');
    }
    proof {
        assert(out@ =~= bool_chars(b));
    }
    string_from_chars(&out)
}

/// How one key character appears inside a path: `/` and `~` are escaped.
pub open spec fn esc_char(c: char) -> Seq<char> {
    if c == '/' {
        seq!['~', '1']
    } else if c == '~' {
        seq!['~', '0']
    } else {
        seq![c]
    }
}

/// An object key as it appears inside a path.
pub open spec fn esc(s: Seq<char>) -> Seq<char>
    decreases s.len(),
{
    if s.len() == 0 {
        Seq::empty()
    } else {
        esc_char(s[0]) + esc(s.drop_first())
    }
}

proof fn lemma_esc_push(s: Seq<char>, c: char)
    ensures
        esc(s.push(c)) == esc(s) + esc_char(c),
    decreases s.len(),
{
    if s.len() == 0 {
        assert(s.push(c).drop_first() =~= s);
        assert(esc(s.push(c)) =~= esc(s) + esc_char(c));
    } else {
        assert(s.push(c).drop_first() =~= s.drop_first().push(c));
        lemma_esc_push(s.drop_first(), c);
        assert(esc(s.push(c)) =~= esc(s) + esc_char(c));
    }
}

/// Append the escaped form of `key` to a path under construction.
pub fn escape_into(key: &str, out: &mut Vec<char>)
    ensures
        final(out)@ == old(out)@ + esc(key@),
{
    let kv = chars_vec(key);
    let mut i: usize = 0;
    while i < kv.len()
        invariant
            kv@ == key@,
            i <= kv@.len(),
            out@ == old(out)@ + esc(key@.take(i as int)),
        decreases kv@.len() - i,
    {
        let c = kv[i];
        proof {
            assert(key@.take(i + 1).drop_last() =~= key@.take(i as int));
            assert(key@.take(i + 1) =~= key@.take(i as int).push(key@[i as int]));
            lemma_esc_push(key@.take(i as int), key@[i as int]);
        }
        if c == '/' {
            out.push('~');
            out.push('1');
        } else if c == '~' {
            out.push('~');
            out.push('0');
        } else {
            out.push(c);
        }
        proof {
            assert(out@ =~= old(out)@ + esc(key@.take(i + 1)));
        }
        i = i + 1;
    }
    proof {
        assert(key@.take(kv@.len() as int) =~= key@);
    }
}

} // verus!
