//! Typed fields decoded from single CSV-like lines of the wire protocol,
//! and the `on`/`off` toggle the commands carry.
//!
//! Each decoder splits its line on commas and requires a minimum field
//! count for its shape (two for the integer, boolean and plain-float
//! shapes, three for the unit-tagged float); the numeric portion is
//! trimmed of surrounding whitespace before parsing. Float values are
//! validated as decimal text and carried verbatim: the driver never
//! computes with them.

use vstd::prelude::*;

use crate::error::ParseNumberError;
use crate::text::{
    is_float_token, is_i32_token, is_space, int_syntax_val, spec_split, spec_trim,
    is_float_text, parse_i32, split_on_char, trim_str,
    lemma_float_token_edges, lemma_int_token_edges, lemma_split_concat, lemma_split_no_sep,
    lemma_trim_around,
};

verus! {

/// A binary switch, serialized as the literal strings `on` / `off`.
#[derive(Clone, Copy, Debug, PartialEq, Eq, Structural)]
pub enum Toggle {
    On,
    Off,
}

impl Toggle {
    /// The wire text of the toggle.
    pub open spec fn spec_str(self) -> Seq<char> {
        match self {
            Toggle::On => "on"@,
            Toggle::Off => "off"@,
        }
    }

    /// The wire text of the toggle, as an owned string.
    pub fn to_string(&self) -> (r: String)
        ensures
            r@ == self.spec_str(),
    {
        match self {
            Toggle::On => String::from_str("on"),
            Toggle::Off => String::from_str("off"),
        }
    }
}

/// A named integer field, as in `Brush_RPM,1000`.
#[derive(Debug, Clone)]
pub struct IntField {
    pub name: String,
    pub value: i32,
}

/// A named boolean field, decoded from the literal `1` (true) or any
/// other integer (false), as in `SNSR_DUSTBIN_IS_IN,0`.
#[derive(Debug, Clone)]
pub struct BoolField {
    pub name: String,
    pub value: bool,
}

/// A named, unit-tagged float field, as in `BatteryVoltage,mV,12.4`.
/// The value is kept as validated decimal text.
#[derive(Debug, Clone)]
pub struct UnitFloatField {
    pub name: String,
    pub unit: String,
    pub value: String,
}

/// A named float field without a unit, as in `VBattV,12.4`.
/// The value is kept as validated decimal text.
#[derive(Debug, Clone)]
pub struct SimpleFloatField {
    pub name: String,
    pub value: String,
}

/// The name of a line's field: everything before the first comma.
#[verifier::opaque]
pub open spec fn line_name(line: Seq<char>) -> Seq<char> {
    spec_split(line, ',')[0]
}

/// Whether `line` decodes in the integer shape.
#[verifier::opaque]
pub open spec fn int_line_ok(line: Seq<char>) -> bool {
    let parts = spec_split(line, ',');
    parts.len() >= 2 && is_i32_token(spec_trim(parts[1]))
}

/// The integer value of a line in the integer shape.
#[verifier::opaque]
pub open spec fn int_line_val(line: Seq<char>) -> int {
    int_syntax_val(spec_trim(spec_split(line, ',')[1]))
}

/// The error an integer-shaped decode of `line` fails with.
#[verifier::opaque]
pub open spec fn int_line_err(line: Seq<char>) -> ParseNumberError {
    if spec_split(line, ',').len() < 2 {
        ParseNumberError::Shape
    } else {
        ParseNumberError::ParseInt
    }
}

/// Whether `line` decodes in the unit-tagged float shape.
#[verifier::opaque]
pub open spec fn unit_float_line_ok(line: Seq<char>) -> bool {
    let parts = spec_split(line, ',');
    parts.len() >= 3 && is_float_token(spec_trim(parts[2]))
}

/// The unit tag of a line in the unit-tagged float shape.
#[verifier::opaque]
pub open spec fn unit_float_line_unit(line: Seq<char>) -> Seq<char> {
    spec_split(line, ',')[1]
}

/// The (textual) float value of a line in the unit-tagged float shape.
#[verifier::opaque]
pub open spec fn unit_float_line_val(line: Seq<char>) -> Seq<char> {
    spec_trim(spec_split(line, ',')[2])
}

/// The error a unit-tagged-float decode of `line` fails with.
#[verifier::opaque]
pub open spec fn unit_float_line_err(line: Seq<char>) -> ParseNumberError {
    if spec_split(line, ',').len() < 3 {
        ParseNumberError::Shape
    } else {
        ParseNumberError::ParseFloat
    }
}

/// Whether `line` decodes in the plain float shape.
#[verifier::opaque]
pub open spec fn simple_float_line_ok(line: Seq<char>) -> bool {
    let parts = spec_split(line, ',');
    parts.len() >= 2 && is_float_token(spec_trim(parts[1]))
}

/// The (textual) float value of a line in the plain float shape.
#[verifier::opaque]
pub open spec fn simple_float_line_val(line: Seq<char>) -> Seq<char> {
    spec_trim(spec_split(line, ',')[1])
}

/// The error a plain-float decode of `line` fails with.
#[verifier::opaque]
pub open spec fn simple_float_line_err(line: Seq<char>) -> ParseNumberError {
    if spec_split(line, ',').len() < 2 {
        ParseNumberError::Shape
    } else {
        ParseNumberError::ParseFloat
    }
}

impl IntField {
    /// Decodes `Name,<int>`: the value is the second comma-separated
    /// part, trimmed, read as a decimal integer.
    pub fn from_str(s: &str) -> (r: Result<IntField, ParseNumberError>)
        ensures
            int_line_ok(s@) ==> r is Ok && r->Ok_0.name@ == line_name(s@)
                && r->Ok_0.value as int == int_line_val(s@),
            !int_line_ok(s@) ==> r == Err::<IntField, ParseNumberError>(int_line_err(s@)),
    {
        proof {
            reveal(line_name);
            reveal(int_line_ok);
            reveal(int_line_val);
            reveal(int_line_err);
        }
        let parts = split_on_char(s, ',');
        if parts.len() < 2 {
            return Err(ParseNumberError::Shape);
        }
        let trimmed = trim_str(parts[1].as_str());
        match parse_i32(trimmed) {
            Some(v) => Ok(IntField { name: parts[0].clone(), value: v }),
            None => Err(ParseNumberError::ParseInt),
        }
    }
}

impl BoolField {
    /// Decodes `Name,<int>` as a boolean: the wire value `1` is true and
    /// any other integer is false; a non-integer value is an error.
    pub fn from_str(s: &str) -> (r: Result<BoolField, ParseNumberError>)
        ensures
            int_line_ok(s@) ==> r is Ok && r->Ok_0.name@ == line_name(s@)
                && r->Ok_0.value == (int_line_val(s@) == 1),
            !int_line_ok(s@) ==> r == Err::<BoolField, ParseNumberError>(int_line_err(s@)),
    {
        proof {
            reveal(line_name);
            reveal(int_line_ok);
            reveal(int_line_val);
            reveal(int_line_err);
        }
        let parts = split_on_char(s, ',');
        if parts.len() < 2 {
            return Err(ParseNumberError::Shape);
        }
        let trimmed = trim_str(parts[1].as_str());
        match parse_i32(trimmed) {
            Some(v) => Ok(BoolField { name: parts[0].clone(), value: v == 1 }),
            None => Err(ParseNumberError::ParseInt),
        }
    }
}

impl UnitFloatField {
    /// Decodes `Name,unit,<float>`: the unit is the second part, the
    /// value the trimmed third part, validated as decimal float text.
    pub fn from_str(s: &str) -> (r: Result<UnitFloatField, ParseNumberError>)
        ensures
            unit_float_line_ok(s@) ==> r is Ok && r->Ok_0.name@ == line_name(s@)
                && r->Ok_0.unit@ == unit_float_line_unit(s@)
                && r->Ok_0.value@ == unit_float_line_val(s@),
            !unit_float_line_ok(s@) ==> r == Err::<UnitFloatField, ParseNumberError>(
                unit_float_line_err(s@),
            ),
    {
        proof {
            reveal(line_name);
            reveal(unit_float_line_ok);
            reveal(unit_float_line_unit);
            reveal(unit_float_line_val);
            reveal(unit_float_line_err);
        }
        let parts = split_on_char(s, ',');
        if parts.len() < 3 {
            return Err(ParseNumberError::Shape);
        }
        let trimmed = trim_str(parts[2].as_str());
        if is_float_text(trimmed) {
            Ok(UnitFloatField {
                name: parts[0].clone(),
                unit: parts[1].clone(),
                value: String::from_str(trimmed),
            })
        } else {
            Err(ParseNumberError::ParseFloat)
        }
    }
}

impl SimpleFloatField {
    /// Decodes `Name,<float>`: the value is the trimmed second part,
    /// validated as decimal float text.
    pub fn from_str(s: &str) -> (r: Result<SimpleFloatField, ParseNumberError>)
        ensures
            simple_float_line_ok(s@) ==> r is Ok && r->Ok_0.name@ == line_name(s@)
                && r->Ok_0.value@ == simple_float_line_val(s@),
            !simple_float_line_ok(s@) ==> r == Err::<SimpleFloatField, ParseNumberError>(
                simple_float_line_err(s@),
            ),
    {
        proof {
            reveal(line_name);
            reveal(simple_float_line_ok);
            reveal(simple_float_line_val);
            reveal(simple_float_line_err);
        }
        let parts = split_on_char(s, ',');
        if parts.len() < 2 {
            return Err(ParseNumberError::Shape);
        }
        let trimmed = trim_str(parts[1].as_str());
        if is_float_text(trimmed) {
            Ok(SimpleFloatField { name: parts[0].clone(), value: String::from_str(trimmed) })
        } else {
            Err(ParseNumberError::ParseFloat)
        }
    }
}

/// Every line `name , <spaces> <int> <spaces>` with a comma-free name
/// decodes in the integer shape to that name and that integer, whatever
/// whitespace surrounds the number.
pub proof fn lemma_int_field_decodes(
    name: Seq<char>,
    pad_a: Seq<char>,
    num: Seq<char>,
    pad_b: Seq<char>,
)
    requires
        forall|j: int| 0 <= j < name.len() ==> #[trigger] name[j] != ',',
        forall|j: int| 0 <= j < pad_a.len() ==> is_space(#[trigger] pad_a[j]),
        forall|j: int| 0 <= j < pad_b.len() ==> is_space(#[trigger] pad_b[j]),
        is_i32_token(num),
    ensures
        int_line_ok(name + seq![','] + (pad_a + num + pad_b)),
        line_name(name + seq![','] + (pad_a + num + pad_b)) == name,
        int_line_val(name + seq![','] + (pad_a + num + pad_b)) == int_syntax_val(num),
{
    reveal(line_name);
    reveal(int_line_ok);
    reveal(int_line_val);
    let rest = pad_a + num + pad_b;
    let line = name + seq![','] + rest;
    lemma_int_token_edges(num);
    assert forall|j: int| 0 <= j < rest.len() implies rest[j] != ',' by {
        if j < pad_a.len() {
            assert(rest[j] == pad_a[j]);
            assert(is_space(rest[j]));
        } else if j < pad_a.len() + num.len() {
            assert(rest[j] == num[j - pad_a.len()]);
            crate::text::lemma_int_token_chars(num, j - pad_a.len());
        } else {
            assert(rest[j] == pad_b[j - pad_a.len() - num.len()]);
            assert(is_space(rest[j]));
        }
    }
    lemma_split_concat(name, rest, ',');
    lemma_split_no_sep(rest, ',');
    lemma_trim_around(num, pad_a, pad_b);
    assert(spec_split(line, ',') == seq![name] + seq![rest]);
    assert(spec_split(line, ',')[1] == rest);
    assert(spec_split(line, ',')[0] == name);
}

/// Every line `name , <spaces> <int> <spaces>` decodes in the boolean
/// shape: the value is true exactly when the integer is `1`.
pub proof fn lemma_bool_field_decodes(
    name: Seq<char>,
    pad_a: Seq<char>,
    num: Seq<char>,
    pad_b: Seq<char>,
)
    requires
        forall|j: int| 0 <= j < name.len() ==> #[trigger] name[j] != ',',
        forall|j: int| 0 <= j < pad_a.len() ==> is_space(#[trigger] pad_a[j]),
        forall|j: int| 0 <= j < pad_b.len() ==> is_space(#[trigger] pad_b[j]),
        is_i32_token(num),
    ensures
        int_line_ok(name + seq![','] + (pad_a + num + pad_b)),
        line_name(name + seq![','] + (pad_a + num + pad_b)) == name,
        int_line_val(name + seq![','] + (pad_a + num + pad_b)) == 1 <==> int_syntax_val(num)
            == 1,
{
    lemma_int_field_decodes(name, pad_a, num, pad_b);
}

/// Every line `name , unit , <spaces> <float> <spaces>` with comma-free
/// name and unit decodes in the unit-tagged float shape to that name,
/// that unit, and exactly the trimmed float text.
pub proof fn lemma_unit_float_field_decodes(
    name: Seq<char>,
    unit: Seq<char>,
    pad_a: Seq<char>,
    num: Seq<char>,
    pad_b: Seq<char>,
)
    requires
        forall|j: int| 0 <= j < name.len() ==> #[trigger] name[j] != ',',
        forall|j: int| 0 <= j < unit.len() ==> #[trigger] unit[j] != ',',
        forall|j: int| 0 <= j < pad_a.len() ==> is_space(#[trigger] pad_a[j]),
        forall|j: int| 0 <= j < pad_b.len() ==> is_space(#[trigger] pad_b[j]),
        is_float_token(num),
    ensures
        unit_float_line_ok(name + seq![','] + (unit + seq![','] + (pad_a + num + pad_b))),
        line_name(name + seq![','] + (unit + seq![','] + (pad_a + num + pad_b))) == name,
        unit_float_line_unit(name + seq![','] + (unit + seq![','] + (pad_a + num + pad_b)))
            == unit,
        unit_float_line_val(name + seq![','] + (unit + seq![','] + (pad_a + num + pad_b)))
            == num,
{
    reveal(line_name);
    reveal(unit_float_line_ok);
    reveal(unit_float_line_unit);
    reveal(unit_float_line_val);
    let rest = pad_a + num + pad_b;
    let tail = unit + seq![','] + rest;
    let line = name + seq![','] + tail;
    lemma_float_token_edges(num);
    assert forall|j: int| 0 <= j < rest.len() implies rest[j] != ',' by {
        if j < pad_a.len() {
            assert(rest[j] == pad_a[j]);
            assert(is_space(rest[j]));
        } else if j < pad_a.len() + num.len() {
            assert(rest[j] == num[j - pad_a.len()]);
            assert(!is_space(num[0]));
            lemma_float_no_comma(num, j - pad_a.len());
        } else {
            assert(rest[j] == pad_b[j - pad_a.len() - num.len()]);
            assert(is_space(rest[j]));
        }
    }
    lemma_split_concat(name, tail, ',');
    lemma_split_concat(unit, rest, ',');
    lemma_split_no_sep(rest, ',');
    lemma_trim_around(num, pad_a, pad_b);
    assert(spec_split(tail, ',') == seq![unit] + seq![rest]);
    assert(spec_split(line, ',') == seq![name] + (seq![unit] + seq![rest]));
    assert(spec_split(line, ',')[0] == name);
    assert(spec_split(line, ',')[1] == unit);
    assert(spec_split(line, ',')[2] == rest);
}

/// No character of a float token is a comma.
proof fn lemma_float_no_comma(num: Seq<char>, j: int)
    requires
        is_float_token(num),
        0 <= j < num.len(),
    ensures
        num[j] != ',',
{
    lemma_float_chars(num, j);
}

/// Every character of a float token is a sign, a digit, a decimal point
/// or an exponent marker.
proof fn lemma_float_chars(num: Seq<char>, j: int)
    requires
        is_float_token(num),
        0 <= j < num.len(),
    ensures
        num[j] == '+' || num[j] == '-' || crate::text::is_digit(num[j]) || num[j] == '.'
            || num[j] == 'e' || num[j] == 'E',
{
    let t = crate::text::strip_sign(num);
    let off: int = if num.len() > 0 && (num[0] == '+' || num[0] == '-') {
        1
    } else {
        0
    };
    if j < off {
        assert(num[j] == num[0]);
    } else {
        assert(t[j - off] == num[j]);
        lemma_float_chars_unsigned(t, j - off);
    }
}

/// As [`lemma_float_chars`], for the sign-stripped token.
proof fn lemma_float_chars_unsigned(t: Seq<char>, j: int)
    requires
        ({
            let k = crate::text::first_exp_idx(t) as int;
            if k >= t.len() {
                crate::text::is_mantissa(t)
            } else {
                crate::text::is_mantissa(t.take(k)) && crate::text::is_exp_part(t.skip(k + 1))
            }
        }),
        0 <= j < t.len(),
    ensures
        t[j] == '+' || t[j] == '-' || crate::text::is_digit(t[j]) || t[j] == '.' || t[j] == 'e'
            || t[j] == 'E',
{
    let k = crate::text::first_exp_idx(t) as int;
    crate::text::lemma_first_exp_idx_bounds(t);
    if k >= t.len() {
        lemma_mantissa_chars(t, j);
    } else {
        if j < k {
            assert(t.take(k)[j] == t[j]);
            lemma_mantissa_chars(t.take(k), j);
        } else if j == k {
            assert(t[k] == 'e' || t[k] == 'E');
        } else {
            let e = t.skip(k + 1);
            assert(e[j - k - 1] == t[j]);
            let d = crate::text::strip_sign(e);
            if e.len() > 0 && (e[0] == '+' || e[0] == '-') {
                if j - k - 1 == 0 {
                } else {
                    assert(d[j - k - 2] == e[j - k - 1]);
                    assert(crate::text::is_digit(d[j - k - 2]));
                }
            } else {
                assert(d == e);
                assert(crate::text::is_digit(d[j - k - 1]));
            }
        }
    }
}

/// Every character of a mantissa is a digit or the decimal point.
proof fn lemma_mantissa_chars(m: Seq<char>, j: int)
    requires
        crate::text::is_mantissa(m),
        0 <= j < m.len(),
    ensures
        crate::text::is_digit(m[j]) || m[j] == '.',
{
    let k = crate::text::first_idx_of(m, '.') as int;
    crate::text::lemma_first_idx_of_bounds(m, '.');
    if k >= m.len() {
        assert(crate::text::is_digit(m[j]));
    } else {
        if j < k {
            assert(m.take(k)[j] == m[j]);
            assert(crate::text::is_digit(m.take(k)[j]));
        } else if j == k {
        } else {
            assert(m.skip(k + 1)[j - k - 1] == m[j]);
            assert(crate::text::is_digit(m.skip(k + 1)[j - k - 1]));
        }
    }
}

} // verus!
