//! Verified text utilities for the line-oriented wire protocol: comma
//! splitting, whitespace trimming, substring search, decimal integer
//! parsing and formatting, and the syntax of decimal float tokens.
//!
//! The wire format is ASCII, so whitespace and digits are the ASCII ones.

use vstd::prelude::*;

verus! {

/// ASCII whitespace, the characters the protocol's numeric fields may be
/// padded with.
pub open spec fn is_space(c: char) -> bool {
    c == ' ' || c == '\t' || c == '\n' || c == '\r' || c == '\u{b}' || c == '\u{c}'
}

/// ASCII decimal digit.
pub open spec fn is_digit(c: char) -> bool {
    '0' <= c && c <= '9'
}

/// Numeric value of a digit character.
pub open spec fn digit_val(c: char) -> int {
    c as int - '0' as int
}

/// Every character of `s` is an ASCII decimal digit.
pub open spec fn all_digits(s: Seq<char>) -> bool {
    forall|i: int| 0 <= i < s.len() ==> is_digit(#[trigger] s[i])
}

/// Value of a digit string read as a base-10 number.
pub open spec fn digits_val(s: Seq<char>) -> int
    decreases s.len(),
{
    if s.len() == 0 {
        0
    } else {
        digits_val(s.drop_last()) * 10 + digit_val(s.last())
    }
}

/// The integer syntax accepted by the decoders: an optional sign followed
/// by at least one digit.
pub open spec fn is_int_syntax(s: Seq<char>) -> bool {
    if s.len() > 0 && (s[0] == '+' || s[0] == '-') {
        s.len() > 1 && all_digits(s.skip(1))
    } else {
        s.len() > 0 && all_digits(s)
    }
}

/// Signed value of a string in integer syntax.
pub open spec fn int_syntax_val(s: Seq<char>) -> int {
    if s.len() > 0 && s[0] == '-' {
        -digits_val(s.skip(1))
    } else if s.len() > 0 && s[0] == '+' {
        digits_val(s.skip(1))
    } else {
        digits_val(s)
    }
}

/// An integer token whose value fits in an `i32`.
pub open spec fn is_i32_token(s: Seq<char>) -> bool {
    is_int_syntax(s) && i32::MIN <= int_syntax_val(s) <= i32::MAX
}

/// A digit string's value is nonnegative.
pub proof fn lemma_digits_val_nonneg(s: Seq<char>)
    requires
        all_digits(s),
    ensures
        digits_val(s) >= 0,
    decreases s.len(),
{
    if s.len() > 0 {
        assert(all_digits(s.drop_last()));
        lemma_digits_val_nonneg(s.drop_last());
    }
}

/// Extending a digit string to the right can only grow its value.
pub proof fn lemma_digits_val_prefix_le(s: Seq<char>, i: int)
    requires
        all_digits(s),
        0 <= i <= s.len(),
    ensures
        digits_val(s.take(i)) <= digits_val(s),
    decreases s.len() - i,
{
    if i < s.len() {
        let t = s.take(i + 1);
        assert(all_digits(t));
        assert(t.drop_last() =~= s.take(i));
        lemma_digits_val_nonneg(s.take(i));
        assert(digits_val(t) == digits_val(s.take(i)) * 10 + digit_val(t.last()));
        assert(digits_val(s.take(i)) * 10 >= digits_val(s.take(i)));
        assert(digit_val(t.last()) >= 0);
        lemma_digits_val_prefix_le(s, i + 1);
        assert(s.take(s.len() as int) =~= s);
    } else {
        assert(s.take(i) =~= s);
    }
}

/// Exec mirror of [`is_digit`].
pub fn digit_check(c: char) -> (r: bool)
    ensures
        r == is_digit(c),
{
    '0' <= c && c <= '9'
}

/// Exec mirror of [`is_space`].
pub fn space_check(c: char) -> (r: bool)
    ensures
        r == is_space(c),
{
    c == ' ' || c == '\t' || c == '\n' || c == '\r' || c == '\u{b}' || c == '\u{c}'
}

/// Index of the first occurrence of `c` in `s`, or `s.len()` if `c` does
/// not occur.
pub open spec fn first_idx_of(s: Seq<char>, c: char) -> nat
    decreases s.len(),
{
    if s.len() == 0 {
        0
    } else if s[0] == c {
        0
    } else {
        1 + first_idx_of(s.skip(1), c)
    }
}

/// Characterization of [`first_idx_of`]: it is the unique position with no
/// occurrence before it and an occurrence (or the end) at it.
pub proof fn lemma_first_idx_of(s: Seq<char>, c: char, k: int)
    requires
        0 <= k <= s.len(),
        forall|j: int| 0 <= j < k ==> s[j] != c,
        k < s.len() ==> s[k] == c,
    ensures
        first_idx_of(s, c) == k,
    decreases s.len(),
{
    if s.len() == 0 {
    } else if s[0] == c {
        assert(k == 0);
    } else {
        assert(k >= 1);
        let t = s.skip(1);
        assert forall|j: int| 0 <= j < k - 1 implies t[j] != c by {
            assert(t[j] == s[j + 1]);
        }
        lemma_first_idx_of(t, c, k - 1);
    }
}

/// [`first_idx_of`] is at most the length, nothing before it is `c`, and
/// the character at it (if any) is `c`.
pub proof fn lemma_first_idx_of_bounds(s: Seq<char>, c: char)
    ensures
        first_idx_of(s, c) <= s.len(),
        forall|j: int| 0 <= j < first_idx_of(s, c) ==> s[j] != c,
        first_idx_of(s, c) < s.len() ==> s[first_idx_of(s, c) as int] == c,
    decreases s.len(),
{
    if s.len() == 0 {
    } else if s[0] == c {
    } else {
        let t = s.skip(1);
        lemma_first_idx_of_bounds(t, c);
        assert forall|j: int| 0 <= j < first_idx_of(s, c) implies s[j] != c by {
            if j >= 1 {
                assert(t[j - 1] == s[j]);
            }
        }
        if first_idx_of(s, c) < s.len() {
            assert(t[first_idx_of(t, c) as int] == s[1 + first_idx_of(t, c) as int]);
        }
    }
}

/// `s` split at every occurrence of `sep`: the parts, in order, without
/// the separators. Splitting the empty string yields one empty part.
pub open spec fn spec_split(s: Seq<char>, sep: char) -> Seq<Seq<char>>
    decreases s.len(),
{
    let k = first_idx_of(s, sep) as int;
    if k >= s.len() {
        seq![s]
    } else {
        seq![s.take(k)] + spec_split(s.skip(k + 1), sep)
    }
}

/// A string without the separator splits into itself alone.
pub proof fn lemma_split_no_sep(s: Seq<char>, sep: char)
    requires
        forall|j: int| 0 <= j < s.len() ==> s[j] != sep,
    ensures
        spec_split(s, sep) == seq![s],
{
    lemma_first_idx_of(s, sep, s.len() as int);
}

/// Splitting `a + sep + b` where `a` is separator-free yields `a`
/// followed by the split of `b`.
pub proof fn lemma_split_concat(a: Seq<char>, b: Seq<char>, sep: char)
    requires
        forall|j: int| 0 <= j < a.len() ==> a[j] != sep,
    ensures
        spec_split(a + seq![sep] + b, sep) == seq![a] + spec_split(b, sep),
{
    let s = a + seq![sep] + b;
    assert forall|j: int| 0 <= j < a.len() implies s[j] != sep by {
        assert(s[j] == a[j]);
    }
    assert(s[a.len() as int] == sep);
    lemma_first_idx_of(s, sep, a.len() as int);
    assert(s.take(a.len() as int) =~= a);
    assert(s.skip(a.len() + 1 as int) =~= b);
}

/// Character-wise string equality.
pub fn str_eq(a: &str, b: &str) -> (r: bool)
    ensures
        r == (a@ == b@),
{
    let la = a.unicode_len();
    let lb = b.unicode_len();
    if la != lb {
        return false;
    }
    for i in 0..la
        invariant
            la == a@.len(),
            la == b@.len(),
            forall|j: int| 0 <= j < i ==> a@[j] == b@[j],
    {
        if a.get_char(i) != b.get_char(i) {
            return false;
        }
    }
    proof {
        assert(a@ =~= b@);
    }
    true
}

/// Parses a decimal integer: an optional sign and at least one digit,
/// exactly the token shape of [`is_i32_token`]. Returns `None` on any
/// other shape and on a value outside the `i32` range.
pub fn parse_i32(s: &str) -> (r: Option<i32>)
    ensures
        r is Some <==> is_i32_token(s@),
        r is Some ==> r->0 == int_syntax_val(s@),
{
    let len = s.unicode_len();
    if len == 0 {
        return None;
    }
    let c0 = s.get_char(0);
    let neg = c0 == '-';
    let start: usize = if c0 == '-' || c0 == '+' {
        1
    } else {
        0
    };
    if start == len {
        // a bare sign has no digits
        return None;
    }
    proof {
        assert(s@.skip(0) =~= s@);
    }
    let ghost t = s@.skip(start as int);
    let mut acc: u64 = 0;
    let mut i: usize = start;
    while i < len
        invariant
            start <= i <= len,
            len == s@.len(),
            start < len,
            t == s@.skip(start as int),
            c0 == s@[0],
            neg == (c0 == '-'),
            if c0 == '-' || c0 == '+' {
                start == 1
            } else {
                start == 0 && t == s@
            },
            acc == digits_val(t.take(i - start)),
            all_digits(t.take(i - start)),
            acc <= 0x8000_0000,
        decreases len - i,
    {
        let c = s.get_char(i);
        if !digit_check(c) {
            proof {
                assert(t[i - start] == s@[i as int]);
                assert(!all_digits(t));
                if !(c0 == '-' || c0 == '+') {
                    assert(t =~= s@);
                }
            }
            return None;
        }
        let d: u64 = (c as u32 - '0' as u32) as u64;
        assert(d == digit_val(c) && d <= 9);
        acc = acc * 10 + d;
        proof {
            let p = t.take(i + 1 - start);
            assert(p.drop_last() =~= t.take(i - start));
            assert(p.last() == s@[i as int]);
        }
        i = i + 1;
        if acc > 0x8000_0000 {
            // the magnitude already exceeds every i32, and more digits
            // could only grow it
            proof {
                if is_i32_token(s@) {
                    if c0 == '-' || c0 == '+' {
                        assert(all_digits(t));
                    } else {
                        assert(t =~= s@);
                        assert(all_digits(t));
                    }
                    assert(acc == digits_val(t.take(i - start)));
                    lemma_digits_val_prefix_le(t, i - start);
                    assert(t.take(t.len() as int) =~= t);
                    assert(digits_val(t) > 0x8000_0000);
                    if c0 == '-' {
                        assert(int_syntax_val(s@) == -digits_val(t));
                    } else if c0 == '+' {
                        assert(int_syntax_val(s@) == digits_val(t));
                    } else {
                        assert(int_syntax_val(s@) == digits_val(t));
                    }
                    assert(false);
                }
            }
            return None;
        }
    }
    proof {
        assert(t.take(len - start) =~= t);
        if s@[0] == '-' || s@[0] == '+' {
            assert(is_int_syntax(s@));
        } else {
            assert(t =~= s@);
            assert(is_int_syntax(s@));
        }
    }
    if neg {
        let v: i64 = -(acc as i64);
        assert(int_syntax_val(s@) == v as int);
        Some(v as i32)
    } else {
        if acc > 0x7fff_ffff {
            assert(int_syntax_val(s@) == acc as int);
            return None;
        }
        assert(int_syntax_val(s@) == acc as int);
        Some(acc as i32)
    }
}

/// Splits `s` at every occurrence of `sep`.
pub fn split_on_char(s: &str, sep: char) -> (r: Vec<String>)
    ensures
        r@.len() == spec_split(s@, sep).len(),
        forall|k: int| 0 <= k < r@.len() ==> r@[k]@ == spec_split(s@, sep)[k],
{
    let len = s.unicode_len();
    let mut parts: Vec<String> = Vec::new();
    let ghost views: Seq<Seq<char>> = Seq::empty();
    let mut start: usize = 0;
    let mut i: usize = 0;
    proof {
        assert(s@.skip(0) =~= s@);
    }
    while i < len
        invariant
            0 <= start <= i <= len,
            len == s@.len(),
            forall|j: int| start <= j < i ==> s@[j] != sep,
            views.len() == parts@.len(),
            forall|k: int| 0 <= k < views.len() ==> views[k] == parts@[k]@,
            spec_split(s@, sep) == views + spec_split(s@.skip(start as int), sep),
        decreases len - i,
    {
        let c = s.get_char(i);
        if c == sep {
            let part = s.substring_char(start, i);
            proof {
                let t = s@.skip(start as int);
                assert forall|j: int| 0 <= j < i - start implies t[j] != sep by {
                    assert(t[j] == s@[start + j]);
                }
                assert(t[i - start] == s@[i as int]);
                lemma_first_idx_of(t, sep, i - start);
                assert(t.take(i - start) =~= s@.subrange(start as int, i as int));
                assert(t.skip(i - start + 1) =~= s@.skip(i + 1));
                assert(spec_split(t, sep) == seq![part@] + spec_split(s@.skip(i + 1), sep));
                assert(views + spec_split(t, sep) =~= (views + seq![part@]) + spec_split(
                    s@.skip(i + 1),
                    sep,
                ));
            }
            let part_string = String::from_str(part);
            parts.push(part_string);
            proof {
                views = views + seq![part@];
            }
            start = i + 1;
        }
        i = i + 1;
    }
    let part = s.substring_char(start, len);
    proof {
        let t = s@.skip(start as int);
        assert forall|j: int| 0 <= j < t.len() implies t[j] != sep by {
            assert(t[j] == s@[start + j]);
        }
        lemma_split_no_sep(t, sep);
        assert(part@ =~= t);
        assert(views + spec_split(t, sep) =~= views + seq![part@]);
    }
    let part_string = String::from_str(part);
    parts.push(part_string);
    proof {
        views = views + seq![part@];
        assert forall|k: int| 0 <= k < views.len() implies views[k] == parts@[k]@ by {}
    }
    parts
}

/// Count of whitespace characters at the start of `s`.
pub open spec fn leading_spaces(s: Seq<char>) -> nat
    decreases s.len(),
{
    if s.len() > 0 && is_space(s[0]) {
        1 + leading_spaces(s.skip(1))
    } else {
        0
    }
}

/// Count of whitespace characters at the end of `s`.
pub open spec fn trailing_spaces(s: Seq<char>) -> nat
    decreases s.len(),
{
    if s.len() > 0 && is_space(s.last()) {
        1 + trailing_spaces(s.drop_last())
    } else {
        0
    }
}

/// `s` without leading and trailing whitespace.
pub open spec fn spec_trim(s: Seq<char>) -> Seq<char> {
    let t = s.skip(leading_spaces(s) as int);
    t.take(t.len() - trailing_spaces(t))
}

/// Characterization of [`leading_spaces`].
pub proof fn lemma_leading_spaces(s: Seq<char>, k: int)
    requires
        0 <= k <= s.len(),
        forall|j: int| 0 <= j < k ==> is_space(s[j]),
        k < s.len() ==> !is_space(s[k]),
    ensures
        leading_spaces(s) == k,
    decreases s.len(),
{
    if s.len() > 0 && is_space(s[0]) {
        assert(k >= 1);
        let t = s.skip(1);
        assert forall|j: int| 0 <= j < k - 1 implies is_space(t[j]) by {
            assert(t[j] == s[j + 1]);
        }
        lemma_leading_spaces(t, k - 1);
    } else {
        assert(k == 0);
    }
}

/// Characterization of [`trailing_spaces`].
pub proof fn lemma_trailing_spaces(s: Seq<char>, k: int)
    requires
        0 <= k <= s.len(),
        forall|j: int| s.len() - k <= j < s.len() ==> is_space(s[j]),
        k < s.len() ==> !is_space(s[s.len() - k - 1]),
    ensures
        trailing_spaces(s) == k,
    decreases s.len(),
{
    if s.len() > 0 && is_space(s.last()) {
        assert(k >= 1);
        let t = s.drop_last();
        lemma_trailing_spaces(t, k - 1);
    } else {
        assert(k == 0);
    }
}

/// Removes leading and trailing ASCII whitespace.
pub fn trim_str<'a>(s: &'a str) -> (r: &'a str)
    ensures
        r@ == spec_trim(s@),
{
    let len = s.unicode_len();
    let mut a: usize = 0;
    while a < len && space_check(s.get_char(a))
        invariant
            0 <= a <= len,
            len == s@.len(),
            forall|j: int| 0 <= j < a ==> is_space(s@[j]),
        decreases len - a,
    {
        a = a + 1;
    }
    proof {
        lemma_leading_spaces(s@, a as int);
    }
    let mut b: usize = len;
    while b > a && space_check(s.get_char(b - 1))
        invariant
            a <= b <= len,
            len == s@.len(),
            forall|j: int| b <= j < len ==> is_space(s@[j]),
        decreases b,
    {
        b = b - 1;
    }
    let r = s.substring_char(a, b);
    proof {
        let t = s@.skip(a as int);
        assert forall|j: int| t.len() - (len - b) <= j < t.len() implies is_space(t[j]) by {
            assert(t[j] == s@[a + j]);
        }
        if (len - b) < t.len() {
            assert(t[t.len() - (len - b) - 1] == s@[b - 1]);
        }
        lemma_trailing_spaces(t, len - b);
        assert(r@ =~= t.take(t.len() - (len - b)));
    }
    r
}

/// Trimming removes exactly the whitespace around a core whose edges are
/// not whitespace.
pub proof fn lemma_trim_around(core: Seq<char>, pad_a: Seq<char>, pad_b: Seq<char>)
    requires
        core.len() > 0,
        !is_space(core[0]),
        !is_space(core.last()),
        forall|j: int| 0 <= j < pad_a.len() ==> is_space(#[trigger] pad_a[j]),
        forall|j: int| 0 <= j < pad_b.len() ==> is_space(#[trigger] pad_b[j]),
    ensures
        spec_trim(pad_a + core + pad_b) == core,
{
    let s = pad_a + core + pad_b;
    assert forall|j: int| 0 <= j < pad_a.len() implies is_space(s[j]) by {
        assert(s[j] == pad_a[j]);
    }
    assert(s[pad_a.len() as int] == core[0]);
    lemma_leading_spaces(s, pad_a.len() as int);
    let t = s.skip(pad_a.len() as int);
    assert(t =~= core + pad_b);
    assert forall|j: int| t.len() - pad_b.len() <= j < t.len() implies is_space(t[j]) by {
        assert(t[j] == pad_b[j - core.len()]);
    }
    assert(t[core.len() - 1] == core.last());
    lemma_trailing_spaces(t, pad_b.len() as int);
    assert(t.take(core.len() as int) =~= core);
}

/// Every character of an integer token is a sign or a digit.
pub proof fn lemma_int_token_chars(s: Seq<char>, j: int)
    requires
        is_int_syntax(s),
        0 <= j < s.len(),
    ensures
        s[j] == '+' || s[j] == '-' || is_digit(s[j]),
{
    if s[0] == '+' || s[0] == '-' {
        if j >= 1 {
            assert(s.skip(1)[j - 1] == s[j]);
            assert(is_digit(s.skip(1)[j - 1]));
        }
    } else {
        assert(is_digit(s[j]));
    }
}

/// An integer token neither starts nor ends with whitespace.
pub proof fn lemma_int_token_edges(s: Seq<char>)
    requires
        is_int_syntax(s),
    ensures
        s.len() > 0,
        !is_space(s[0]),
        !is_space(s.last()),
{
    if s[0] == '+' || s[0] == '-' {
        let t = s.skip(1);
        assert(is_digit(t[t.len() - 1]));
        assert(s.last() == t.last());
    } else {
        assert(is_digit(s[0]));
        assert(is_digit(s[s.len() - 1]));
    }
}

/// `s` without one leading `+` or `-`, if present.
pub open spec fn strip_sign(s: Seq<char>) -> Seq<char> {
    if s.len() > 0 && (s[0] == '+' || s[0] == '-') {
        s.skip(1)
    } else {
        s
    }
}

/// Index of the first exponent marker (`e` or `E`) in `s`, or `s.len()`.
pub open spec fn first_exp_idx(s: Seq<char>) -> nat
    decreases s.len(),
{
    if s.len() == 0 {
        0
    } else if s[0] == 'e' || s[0] == 'E' {
        0
    } else {
        1 + first_exp_idx(s.skip(1))
    }
}

/// Characterization of [`first_exp_idx`].
pub proof fn lemma_first_exp_idx(s: Seq<char>, k: int)
    requires
        0 <= k <= s.len(),
        forall|j: int| 0 <= j < k ==> s[j] != 'e' && s[j] != 'E',
        k < s.len() ==> s[k] == 'e' || s[k] == 'E',
    ensures
        first_exp_idx(s) == k,
    decreases s.len(),
{
    if s.len() == 0 {
    } else if s[0] == 'e' || s[0] == 'E' {
        assert(k == 0);
    } else {
        assert(k >= 1);
        let t = s.skip(1);
        assert forall|j: int| 0 <= j < k - 1 implies t[j] != 'e' && t[j] != 'E' by {
            assert(t[j] == s[j + 1]);
        }
        lemma_first_exp_idx(t, k - 1);
    }
}

/// [`first_exp_idx`] is at most the length, nothing before it is an
/// exponent marker, and the character at it (if any) is one.
pub proof fn lemma_first_exp_idx_bounds(s: Seq<char>)
    ensures
        first_exp_idx(s) <= s.len(),
        forall|j: int| 0 <= j < first_exp_idx(s) ==> s[j] != 'e' && s[j] != 'E',
        first_exp_idx(s) < s.len() ==> s[first_exp_idx(s) as int] == 'e' || s[first_exp_idx(
            s,
        ) as int] == 'E',
    decreases s.len(),
{
    if s.len() == 0 {
    } else if s[0] == 'e' || s[0] == 'E' {
    } else {
        let t = s.skip(1);
        lemma_first_exp_idx_bounds(t);
        assert forall|j: int| 0 <= j < first_exp_idx(s) implies s[j] != 'e' && s[j] != 'E' by {
            if j >= 1 {
                assert(t[j - 1] == s[j]);
            }
        }
        if first_exp_idx(s) < s.len() {
            assert(t[first_exp_idx(t) as int] == s[1 + first_exp_idx(t) as int]);
        }
    }
}

/// The mantissa of a float token: digits with at most one decimal point
/// and at least one digit.
pub open spec fn is_mantissa(s: Seq<char>) -> bool {
    let k = first_idx_of(s, '.') as int;
    if k >= s.len() {
        s.len() >= 1 && all_digits(s)
    } else {
        s.len() >= 2 && all_digits(s.take(k)) && all_digits(s.skip(k + 1))
    }
}

/// The exponent of a float token: an optional sign and at least one digit.
pub open spec fn is_exp_part(s: Seq<char>) -> bool {
    let t = strip_sign(s);
    t.len() >= 1 && all_digits(t)
}

/// The float syntax the decoders accept: an optional sign, a mantissa of
/// digits with at most one decimal point and at least one digit, and an
/// optional exponent (`e` or `E`, an optional sign, digits). This is the
/// finite-number syntax of a decimal float literal; the special keywords
/// for infinities and not-a-number are not part of the wire format and
/// are rejected.
pub open spec fn is_float_token(s: Seq<char>) -> bool {
    let t = strip_sign(s);
    let k = first_exp_idx(t) as int;
    if k >= t.len() {
        is_mantissa(t)
    } else {
        is_mantissa(t.take(k)) && is_exp_part(t.skip(k + 1))
    }
}

/// Exec mirror of the exponent-marker test.
fn exp_check(c: char) -> (r: bool)
    ensures
        r == (c == 'e' || c == 'E'),
{
    c == 'e' || c == 'E'
}

/// A mantissa neither starts nor ends with whitespace.
proof fn lemma_mantissa_edges(m: Seq<char>)
    requires
        is_mantissa(m),
    ensures
        m.len() > 0,
        !is_space(m[0]),
        !is_space(m.last()),
{
    let k = first_idx_of(m, '.') as int;
    lemma_first_idx_of_bounds(m, '.');
    if k >= m.len() {
        assert(is_digit(m[0]));
        assert(is_digit(m[m.len() - 1]));
    } else {
        if k == 0 {
            assert(m[0] == '.');
        } else {
            assert(m.take(k)[0] == m[0]);
            assert(is_digit(m.take(k)[0]));
        }
        let tail = m.skip(k + 1);
        if k == m.len() - 1 {
            assert(m.last() == '.');
        } else {
            assert(tail[tail.len() - 1] == m[m.len() - 1]);
            assert(is_digit(tail[tail.len() - 1]));
        }
    }
}

/// A float token neither starts nor ends with whitespace.
pub proof fn lemma_float_token_edges(s: Seq<char>)
    requires
        is_float_token(s),
    ensures
        s.len() > 0,
        !is_space(s[0]),
        !is_space(s.last()),
{
    let t = strip_sign(s);
    let k = first_exp_idx(t) as int;
    let m = if k >= t.len() {
        t
    } else {
        t.take(k)
    };
    lemma_mantissa_edges(m);
    // the first character: a sign, or the mantissa's first character
    if s.len() > 0 && (s[0] == '+' || s[0] == '-') {
        assert(!is_space(s[0]));
        assert(t.len() > 0 && s.len() == t.len() + 1);
    } else {
        assert(t == s);
        assert(m[0] == t[0]);
        assert(!is_space(s[0]));
    }
    // the last character: the mantissa's last, or the exponent's last digit
    if k >= t.len() {
        if t == s {
            assert(s.last() == m.last());
        } else {
            assert(s.last() == t.last());
            assert(t.last() == m.last());
        }
    } else {
        let e = t.skip(k + 1);
        let d = strip_sign(e);
        assert(d.len() >= 1 && all_digits(d));
        assert(is_digit(d[d.len() - 1]));
        if e.len() > 0 && (e[0] == '+' || e[0] == '-') {
            assert(d.last() == e.last());
        } else {
            assert(d == e);
        }
        assert(e.last() == t.last());
        if t == s {
        } else {
            assert(s.last() == t.last());
        }
    }
}

/// Whether every character of `s` in `[a, b)` is a digit.
fn all_digits_range(s: &str, a: usize, b: usize) -> (r: bool)
    requires
        a <= b <= s@.len(),
    ensures
        r == all_digits(s@.subrange(a as int, b as int)),
{
    let ghost m = s@.subrange(a as int, b as int);
    let mut j: usize = a;
    while j < b
        invariant
            a <= j <= b <= s@.len(),
            m == s@.subrange(a as int, b as int),
            forall|t: int| 0 <= t < j - a ==> is_digit(#[trigger] m[t]),
        decreases b - j,
    {
        let c = s.get_char(j);
        proof {
            assert(m[j - a] == s@[j as int]);
        }
        if !digit_check(c) {
            return false;
        }
        j = j + 1;
    }
    true
}

/// Whether `s@.subrange(a, b)` is a well-formed mantissa.
fn mantissa_range(s: &str, a: usize, b: usize) -> (r: bool)
    requires
        a <= b <= s@.len(),
    ensures
        r == is_mantissa(s@.subrange(a as int, b as int)),
{
    let ghost m = s@.subrange(a as int, b as int);
    let mut kd: usize = a;
    while kd < b && s.get_char(kd) != '.'
        invariant
            a <= kd <= b <= s@.len(),
            forall|j: int| a <= j < kd ==> s@[j] != '.',
        decreases b - kd,
    {
        kd = kd + 1;
    }
    proof {
        assert forall|j: int| 0 <= j < kd - a implies m[j] != '.' by {
            assert(m[j] == s@[a + j]);
        }
        if kd < b {
            assert(m[kd - a] == s@[kd as int]);
        }
        lemma_first_idx_of(m, '.', kd - a);
    }
    if kd >= b {
        if b - a < 1 {
            return false;
        }
        let r = all_digits_range(s, a, b);
        r
    } else {
        if b - a < 2 {
            return false;
        }
        let d1 = all_digits_range(s, a, kd);
        let d2 = all_digits_range(s, kd + 1, b);
        proof {
            assert(m.take(kd - a) =~= s@.subrange(a as int, kd as int));
            assert(m.skip(kd - a + 1) =~= s@.subrange(kd + 1 as int, b as int));
        }
        d1 && d2
    }
}

/// Syntax check for a decimal float token, exactly [`is_float_token`].
pub fn is_float_text(s: &str) -> (r: bool)
    ensures
        r == is_float_token(s@),
{
    let len = s.unicode_len();
    let mut start: usize = 0;
    if len > 0 {
        let c0 = s.get_char(0);
        if c0 == '+' || c0 == '-' {
            start = 1;
        }
    }
    let ghost t = strip_sign(s@);
    proof {
        if start == 0 {
            assert(s@.skip(0) =~= s@);
            assert(t == s@);
        }
        assert(t == s@.skip(start as int));
    }
    let mut ke: usize = start;
    while ke < len && !exp_check(s.get_char(ke))
        invariant
            start <= ke <= len,
            len == s@.len(),
            forall|j: int| start <= j < ke ==> s@[j] != 'e' && s@[j] != 'E',
        decreases len - ke,
    {
        ke = ke + 1;
    }
    proof {
        assert forall|j: int| 0 <= j < ke - start implies t[j] != 'e' && t[j] != 'E' by {
            assert(t[j] == s@[start + j]);
        }
        if ke < len {
            assert(t[ke - start] == s@[ke as int]);
        }
        lemma_first_exp_idx(t, ke - start);
    }
    if ke >= len {
        let r = mantissa_range(s, start, len);
        proof {
            assert(s@.subrange(start as int, len as int) =~= t);
        }
        r
    } else {
        let mant_ok = mantissa_range(s, start, ke);
        proof {
            assert(s@.subrange(start as int, ke as int) =~= t.take(ke - start));
        }
        if !mant_ok {
            return false;
        }
        // exponent part: [ke + 1, len)
        let ghost u = t.skip(ke - start + 1);
        proof {
            assert(u =~= s@.subrange(ke + 1 as int, len as int));
        }
        let mut es: usize = ke + 1;
        if ke + 1 < len {
            let c = s.get_char(ke + 1);
            if c == '+' || c == '-' {
                es = ke + 2;
            }
        }
        proof {
            if es == ke + 2 {
                assert(u[0] == s@[ke + 1 as int]);
                assert(strip_sign(u) =~= s@.subrange(ke + 2 as int, len as int));
            } else {
                if u.len() > 0 {
                    assert(u[0] == s@[ke + 1 as int]);
                }
                assert(strip_sign(u) == u);
                assert(strip_sign(u) =~= s@.subrange(ke + 1 as int, len as int));
            }
        }
        if es >= len {
            return false;
        }
        let r = all_digits_range(s, es, len);
        r
    }
}

/// The digit character for a value between 0 and 9.
pub open spec fn digit_char(d: int) -> char {
    if d == 0 {
        '0'
    } else if d == 1 {
        '1'
    } else if d == 2 {
        '2'
    } else if d == 3 {
        '3'
    } else if d == 4 {
        '4'
    } else if d == 5 {
        '5'
    } else if d == 6 {
        '6'
    } else if d == 7 {
        '7'
    } else if d == 8 {
        '8'
    } else {
        '9'
    }
}

/// Decimal digit string of a nonnegative number, no leading zeros.
pub open spec fn spec_nat_str(n: int) -> Seq<char>
    decreases n,
{
    if n < 10 {
        seq![digit_char(n)]
    } else {
        spec_nat_str(n / 10) + seq![digit_char(n % 10)]
    }
}

/// Decimal string of an integer, with a `-` sign when negative.
pub open spec fn spec_i32_str(v: int) -> Seq<char> {
    if v < 0 {
        seq!['-'] + spec_nat_str(-v)
    } else {
        spec_nat_str(v)
    }
}

/// One digit as a string slice.
fn digit_str(d: u32) -> (r: &'static str)
    requires
        d < 10,
    ensures
        r@ == seq![digit_char(d as int)],
{
    let r = if d == 0 {
        "0"
    } else if d == 1 {
        "1"
    } else if d == 2 {
        "2"
    } else if d == 3 {
        "3"
    } else if d == 4 {
        "4"
    } else if d == 5 {
        "5"
    } else if d == 6 {
        "6"
    } else if d == 7 {
        "7"
    } else if d == 8 {
        "8"
    } else {
        "9"
    };
    proof {
        reveal_strlit("0");
        reveal_strlit("1");
        reveal_strlit("2");
        reveal_strlit("3");
        reveal_strlit("4");
        reveal_strlit("5");
        reveal_strlit("6");
        reveal_strlit("7");
        reveal_strlit("8");
        reveal_strlit("9");
        assert(r@ =~= seq![digit_char(d as int)]);
    }
    r
}

/// Decimal formatting of a nonnegative number.
fn u32_str(n: u32) -> (r: String)
    ensures
        r@ == spec_nat_str(n as int),
    decreases n,
{
    if n < 10 {
        String::from_str(digit_str(n))
    } else {
        let mut s = u32_str(n / 10);
        s.append(digit_str(n % 10));
        s
    }
}

/// Decimal formatting of an `i32`, mirroring [`spec_i32_str`].
pub fn i32_to_string(v: i32) -> (r: String)
    ensures
        r@ == spec_i32_str(v as int),
{
    if v >= 0 {
        u32_str(v as u32)
    } else {
        let m: i64 = -(v as i64);
        let mut s = String::from_str("-");
        let digits = u32_str(m as u32);
        s.append(digits.as_str());
        proof {
            reveal_strlit("-");
            assert(("-")@ =~= seq!['-']);
        }
        s
    }
}

/// Lines joined with one newline between consecutive lines.
pub open spec fn join_lines(ls: Seq<Seq<char>>) -> Seq<char>
    decreases ls.len(),
{
    if ls.len() == 0 {
        Seq::empty()
    } else if ls.len() == 1 {
        ls[0]
    } else {
        join_lines(ls.drop_last()) + seq!['\n'] + ls.last()
    }
}

/// Joins owned lines with a newline separator.
pub fn join_with_newlines(lines: &Vec<String>) -> (r: String)
    ensures
        r@ == join_lines(Seq::new(lines@.len(), |i: int| lines@[i]@)),
{
    let ghost vs = Seq::new(lines@.len(), |i: int| lines@[i]@);
    let mut out = String::new();
    let n = lines.len();
    let mut i: usize = 0;
    while i < n
        invariant
            0 <= i <= n,
            n == lines@.len(),
            vs == Seq::new(lines@.len(), |k: int| lines@[k]@),
            out@ == join_lines(vs.take(i as int)),
        decreases n - i,
    {
        if i > 0 {
            out.append("\n");
            proof {
                reveal_strlit("\n");
                assert(("\n")@ =~= seq!['\n']);
            }
        }
        out.append(lines[i].as_str());
        proof {
            let t = vs.take(i + 1);
            assert(t.last() == vs[i as int]);
            assert(t.drop_last() =~= vs.take(i as int));
            if i == 0 {
                assert(out@ =~= t[0]);
            }
        }
        i = i + 1;
    }
    proof {
        assert(vs.take(n as int) =~= vs);
    }
    out
}

/// `n` occurs in `h` as a contiguous substring.
pub open spec fn contains_sub(h: Seq<char>, n: Seq<char>) -> bool {
    exists|i: int| 0 <= i <= h.len() - n.len() && #[trigger] h.subrange(i, i + n.len()) == n
}

/// `p` is a prefix of `h`.
pub open spec fn starts_with_sub(h: Seq<char>, p: Seq<char>) -> bool {
    p.len() <= h.len() && h.take(p.len() as int) == p
}

/// Whether `n` matches `h` at offset `i`.
fn match_at(h: &str, n: &str, i: usize) -> (r: bool)
    requires
        i + n@.len() <= h@.len(),
    ensures
        r == (h@.subrange(i as int, i + n@.len()) == n@),
{
    let nl = n.unicode_len();
    let hlen = h.unicode_len();
    let ghost sub = h@.subrange(i as int, i + n@.len());
    for j in 0..nl
        invariant
            i + nl <= h@.len(),
            hlen == h@.len(),
            nl == n@.len(),
            sub == h@.subrange(i as int, i + n@.len()),
            forall|t: int| 0 <= t < j ==> sub[t] == n@[t],
    {
        if h.get_char(i + j) != n.get_char(j) {
            proof {
                assert(sub[j as int] == h@[i + j]);
            }
            return false;
        }
        proof {
            assert(sub[j as int] == h@[i + j]);
        }
    }
    proof {
        assert(sub =~= n@);
    }
    true
}

/// Substring search: does `h` contain `n`?
pub fn str_contains(h: &str, n: &str) -> (r: bool)
    ensures
        r == contains_sub(h@, n@),
{
    let hl = h.unicode_len();
    let nl = n.unicode_len();
    if nl > hl {
        return false;
    }
    let bound = hl - nl;
    let mut i: usize = 0;
    while i <= bound
        invariant
            nl <= hl,
            hl == h@.len(),
            nl == n@.len(),
            bound == hl - nl,
            0 <= i <= bound,
            forall|k: int| 0 <= k < i ==> #[trigger] h@.subrange(k, k + n@.len()) != n@,
        decreases bound - i,
    {
        if match_at(h, n, i) {
            return true;
        }
        if i == bound {
            return false;
        }
        i = i + 1;
    }
    false
}

/// Prefix test: does `h` start with `p`?
pub fn str_starts_with(h: &str, p: &str) -> (r: bool)
    ensures
        r == starts_with_sub(h@, p@),
{
    let hl = h.unicode_len();
    let pl = p.unicode_len();
    if pl > hl {
        return false;
    }
    let r = match_at(h, p, 0);
    proof {
        assert(h@.subrange(0, p@.len() as int) == h@.take(p@.len() as int));
    }
    r
}

} // verus!
