//! Status records folded from blocks of decoded field lines.
//!
//! Each record has a fixed, known set of field names; a successfully
//! decoded line whose name falls outside that set is ignored (the wire
//! format may carry informational lines the driver does not map), while a
//! line that fails its decoder fails the whole fold. When one name occurs
//! more than once, the last occurrence wins; a name that never occurs
//! leaves its field at the zero value.

use vstd::prelude::*;

use crate::error::ParseNumberError;
use crate::fields::{
    int_line_err, int_line_ok, int_line_val, line_name, simple_float_line_err,
    simple_float_line_ok, simple_float_line_val, unit_float_line_err, unit_float_line_ok,
    unit_float_line_val, BoolField, IntField, SimpleFloatField, UnitFloatField,
};
use crate::text::{spec_split, split_on_char, str_eq};

verus! {

/// The views of a sequence of owned lines.
pub open spec fn views_of(lines: Seq<String>) -> Seq<Seq<char>> {
    Seq::new(lines.len(), |i: int| lines[i]@)
}

/// Every nonempty line decodes in the integer shape.
pub open spec fn int_lines_ok(lines: Seq<Seq<char>>) -> bool {
    forall|i: int| 0 <= i < lines.len() ==> (#[trigger] lines[i]).len() == 0 || int_line_ok(
        lines[i],
    )
}

/// The decoder error of the first nonempty line that fails the integer
/// shape.
pub open spec fn int_lines_err(lines: Seq<Seq<char>>) -> ParseNumberError
    decreases lines.len(),
{
    if lines.len() == 0 {
        ParseNumberError::ParseInt
    } else if lines[0].len() > 0 && !int_line_ok(lines[0]) {
        int_line_err(lines[0])
    } else {
        int_lines_err(lines.skip(1))
    }
}

/// The value of the last nonempty integer-shaped line named `name`, if
/// any.
#[verifier::opaque]
pub open spec fn last_int_value(lines: Seq<Seq<char>>, name: Seq<char>) -> Option<int>
    decreases lines.len(),
{
    if lines.len() == 0 {
        None
    } else if lines.last().len() > 0 && int_line_ok(lines.last()) && line_name(lines.last())
        == name {
        Some(int_line_val(lines.last()))
    } else {
        last_int_value(lines.drop_last(), name)
    }
}

/// The value of the last integer line named `name`, or zero.
pub open spec fn int_value_or_zero(lines: Seq<Seq<char>>, name: Seq<char>) -> int {
    match last_int_value(lines, name) {
        Some(v) => v,
        None => 0,
    }
}

/// The boolean of the last integer line named `name`, or false.
pub open spec fn bool_value_or_false(lines: Seq<Seq<char>>, name: Seq<char>) -> bool {
    match last_int_value(lines, name) {
        Some(v) => v == 1,
        None => false,
    }
}

/// One step of [`last_int_value`] over a growing prefix.
proof fn lemma_last_int_value_step(lines: Seq<Seq<char>>, name: Seq<char>, i: int)
    requires
        0 <= i < lines.len(),
    ensures
        last_int_value(lines.take(i + 1), name) == (if lines[i].len() > 0 && int_line_ok(
            lines[i],
        ) && line_name(lines[i]) == name {
            Some(int_line_val(lines[i]))
        } else {
            last_int_value(lines.take(i), name)
        }),
{
    reveal_with_fuel(last_int_value, 2);
    let t = lines.take(i + 1);
    assert(t.last() == lines[i]);
    assert(t.drop_last() =~= lines.take(i));
}

/// One step of [`last_int_value`] when one line is appended.
proof fn lemma_last_int_value_push(pre: Seq<Seq<char>>, line: Seq<char>, name: Seq<char>)
    ensures
        last_int_value(pre.push(line), name) == (if line.len() > 0 && int_line_ok(line)
            && line_name(line) == name {
            Some(int_line_val(line))
        } else {
            last_int_value(pre, name)
        }),
{
    reveal_with_fuel(last_int_value, 2);
    let t = pre.push(line);
    assert(t.last() == line);
    assert(t.drop_last() =~= pre);
}

/// Appending an empty or decoder-failing line changes no folded field.
proof fn lemma_empty_or_unmatched_keeps(st: MotorStatus, pre: Seq<Seq<char>>, line: Seq<char>)
    requires
        st.spec_matches(pre),
        line.len() == 0 || !int_line_ok(line),
    ensures
        st.spec_matches(pre.push(line)),
{
    lemma_last_int_value_push(pre, line, "Brush_RPM"@);
    lemma_last_int_value_push(pre, line, "Brush_mA"@);
    lemma_last_int_value_push(pre, line, "Vacuum_RPM"@);
    lemma_last_int_value_push(pre, line, "Vacuum_mA"@);
    lemma_last_int_value_push(pre, line, "LeftWheel_RPM"@);
    lemma_last_int_value_push(pre, line, "LeftWheel_Load%"@);
    lemma_last_int_value_push(pre, line, "LeftWheel_PositionInMM"@);
    lemma_last_int_value_push(pre, line, "LeftWheel_Speed"@);
    lemma_last_int_value_push(pre, line, "RightWheel_RPM"@);
    lemma_last_int_value_push(pre, line, "RightWheel_Load%"@);
    lemma_last_int_value_push(pre, line, "RightWheel_PositionInMM"@);
    lemma_last_int_value_push(pre, line, "RightWheel_Speed"@);
    lemma_last_int_value_push(pre, line, "SideBrush_mA"@);
}

/// The error of a fold is the error of its first failing line.
proof fn lemma_int_lines_err_at(lines: Seq<Seq<char>>, i: int)
    requires
        0 <= i < lines.len(),
        forall|j: int| 0 <= j < i ==> (#[trigger] lines[j]).len() == 0 || int_line_ok(lines[j]),
        lines[i].len() > 0,
        !int_line_ok(lines[i]),
    ensures
        int_lines_err(lines) == int_line_err(lines[i]),
    decreases i,
{
    if i == 0 {
    } else {
        let t = lines.skip(1);
        assert forall|j: int| 0 <= j < i - 1 implies (#[trigger] t[j]).len() == 0 || int_line_ok(
            t[j],
        ) by {
            assert(t[j] == lines[j + 1]);
        }
        assert(t[i - 1] == lines[i]);
        lemma_int_lines_err_at(t, i - 1);
    }
}

/// When exactly one well-formed line bears `name`, the folded field value
/// is that line's value, wherever the line stands in the block.
pub proof fn lemma_unique_name_decides_field(lines: Seq<Seq<char>>, name: Seq<char>, i: int)
    requires
        0 <= i < lines.len(),
        lines[i].len() > 0,
        int_line_ok(lines[i]),
        line_name(lines[i]) == name,
        forall|j: int|
            0 <= j < lines.len() && j != i && (#[trigger] lines[j]).len() > 0 ==> line_name(
                lines[j],
            ) != name,
    ensures
        int_value_or_zero(lines, name) == int_line_val(lines[i]),
        bool_value_or_false(lines, name) == (int_line_val(lines[i]) == 1),
    decreases lines.len(),
{
    reveal_with_fuel(last_int_value, 2);
    if i == lines.len() - 1 {
    } else {
        let t = lines.drop_last();
        assert(t[i] == lines[i]);
        assert forall|j: int|
            0 <= j < t.len() && j != i && (#[trigger] t[j]).len() > 0 implies line_name(t[j])
            != name by {
            assert(t[j] == lines[j]);
        }
        lemma_unique_name_decides_field(t, name, i);
        assert(lines.last() == lines[lines.len() - 1]);
    }
}

/// The thirteen integer motor measurements, fully overwritten on each
/// successful `getmotors` query.
#[derive(Debug, Clone, Copy, PartialEq, Eq, Structural)]
pub struct MotorStatus {
    pub brush_rpm: i32,
    pub brush_ma: i32,
    pub vacuum_rpm: i32,
    pub vacuum_ma: i32,
    pub left_wheel_rpm: i32,
    pub left_wheel_load: i32,
    pub left_wheel_position_in_mm: i32,
    pub left_wheel_speed: i32,
    pub right_wheel_rpm: i32,
    pub right_wheel_load: i32,
    pub right_wheel_position_in_mm: i32,
    pub right_wheel_speed: i32,
    pub side_brush_ma: i32,
}

impl MotorStatus {
    /// The record with every measurement zero.
    pub open spec fn spec_zero() -> MotorStatus {
        MotorStatus {
            brush_rpm: 0,
            brush_ma: 0,
            vacuum_rpm: 0,
            vacuum_ma: 0,
            left_wheel_rpm: 0,
            left_wheel_load: 0,
            left_wheel_position_in_mm: 0,
            left_wheel_speed: 0,
            right_wheel_rpm: 0,
            right_wheel_load: 0,
            right_wheel_position_in_mm: 0,
            right_wheel_speed: 0,
            side_brush_ma: 0,
        }
    }

    /// Whether `r` is the fold of `lines`: every attribute carries the
    /// value of the last line bearing its name, or zero.
    pub open spec fn spec_matches(self, lines: Seq<Seq<char>>) -> bool {
        &&& self.brush_rpm as int == int_value_or_zero(lines, "Brush_RPM"@)
        &&& self.brush_ma as int == int_value_or_zero(lines, "Brush_mA"@)
        &&& self.vacuum_rpm as int == int_value_or_zero(lines, "Vacuum_RPM"@)
        &&& self.vacuum_ma as int == int_value_or_zero(lines, "Vacuum_mA"@)
        &&& self.left_wheel_rpm as int == int_value_or_zero(lines, "LeftWheel_RPM"@)
        &&& self.left_wheel_load as int == int_value_or_zero(lines, "LeftWheel_Load%"@)
        &&& self.left_wheel_position_in_mm as int == int_value_or_zero(
            lines,
            "LeftWheel_PositionInMM"@,
        )
        &&& self.left_wheel_speed as int == int_value_or_zero(lines, "LeftWheel_Speed"@)
        &&& self.right_wheel_rpm as int == int_value_or_zero(lines, "RightWheel_RPM"@)
        &&& self.right_wheel_load as int == int_value_or_zero(lines, "RightWheel_Load%"@)
        &&& self.right_wheel_position_in_mm as int == int_value_or_zero(
            lines,
            "RightWheel_PositionInMM"@,
        )
        &&& self.right_wheel_speed as int == int_value_or_zero(lines, "RightWheel_Speed"@)
        &&& self.side_brush_ma as int == int_value_or_zero(lines, "SideBrush_mA"@)
    }

    /// Applies one decoded line to the record: the named attribute (if
    /// any) takes the line's value.
    #[verifier::rlimit(100)]
    fn apply_line(
        st: &mut MotorStatus,
        field: &IntField,
        Ghost(pre): Ghost<Seq<Seq<char>>>,
        Ghost(line): Ghost<Seq<char>>,
    )
        requires
            old(st).spec_matches(pre),
            line.len() > 0,
            int_line_ok(line),
            field.name@ == line_name(line),
            field.value as int == int_line_val(line),
        ensures
            final(st).spec_matches(pre.push(line)),
    {
        proof {
            lemma_last_int_value_push(pre, line, "Brush_RPM"@);
            lemma_last_int_value_push(pre, line, "Brush_mA"@);
            lemma_last_int_value_push(pre, line, "Vacuum_RPM"@);
            lemma_last_int_value_push(pre, line, "Vacuum_mA"@);
            lemma_last_int_value_push(pre, line, "LeftWheel_RPM"@);
            lemma_last_int_value_push(pre, line, "LeftWheel_Load%"@);
            lemma_last_int_value_push(pre, line, "LeftWheel_PositionInMM"@);
            lemma_last_int_value_push(pre, line, "LeftWheel_Speed"@);
            lemma_last_int_value_push(pre, line, "RightWheel_RPM"@);
            lemma_last_int_value_push(pre, line, "RightWheel_Load%"@);
            lemma_last_int_value_push(pre, line, "RightWheel_PositionInMM"@);
            lemma_last_int_value_push(pre, line, "RightWheel_Speed"@);
            lemma_last_int_value_push(pre, line, "SideBrush_mA"@);
        }
        let name = field.name.as_str();
        if str_eq(name, "Brush_RPM") {
            st.brush_rpm = field.value;
        }
        if str_eq(name, "Brush_mA") {
            st.brush_ma = field.value;
        }
        if str_eq(name, "Vacuum_RPM") {
            st.vacuum_rpm = field.value;
        }
        if str_eq(name, "Vacuum_mA") {
            st.vacuum_ma = field.value;
        }
        if str_eq(name, "LeftWheel_RPM") {
            st.left_wheel_rpm = field.value;
        }
        if str_eq(name, "LeftWheel_Load%") {
            st.left_wheel_load = field.value;
        }
        if str_eq(name, "LeftWheel_PositionInMM") {
            st.left_wheel_position_in_mm = field.value;
        }
        if str_eq(name, "LeftWheel_Speed") {
            st.left_wheel_speed = field.value;
        }
        if str_eq(name, "RightWheel_RPM") {
            st.right_wheel_rpm = field.value;
        }
        if str_eq(name, "RightWheel_Load%") {
            st.right_wheel_load = field.value;
        }
        if str_eq(name, "RightWheel_PositionInMM") {
            st.right_wheel_position_in_mm = field.value;
        }
        if str_eq(name, "RightWheel_Speed") {
            st.right_wheel_speed = field.value;
        }
        if str_eq(name, "SideBrush_mA") {
            st.side_brush_ma = field.value;
        }
        // any other name is a recognized but unmapped condition and
        // changes nothing
    }

    /// Folds a block of lines into a motor record. Empty lines are
    /// skipped; every other line must decode in the integer shape; names
    /// outside the known set are ignored.
    #[verifier::rlimit(100)]
    pub fn from_lines(lines: &Vec<String>) -> (r: Result<MotorStatus, ParseNumberError>)
        ensures
            r is Ok <==> int_lines_ok(views_of(lines@)),
            r is Ok ==> r->Ok_0.spec_matches(views_of(lines@)),
            r is Err ==> r->Err_0 == int_lines_err(views_of(lines@)),
    {
        let ghost lv = views_of(lines@);
        let mut st = MotorStatus {
            brush_rpm: 0,
            brush_ma: 0,
            vacuum_rpm: 0,
            vacuum_ma: 0,
            left_wheel_rpm: 0,
            left_wheel_load: 0,
            left_wheel_position_in_mm: 0,
            left_wheel_speed: 0,
            right_wheel_rpm: 0,
            right_wheel_load: 0,
            right_wheel_position_in_mm: 0,
            right_wheel_speed: 0,
            side_brush_ma: 0,
        };
        let n = lines.len();
        let mut i: usize = 0;
        proof {
            reveal_with_fuel(last_int_value, 1);
            assert(lv.take(0) =~= Seq::<Seq<char>>::empty());
        }
        while i < n
            invariant
                0 <= i <= n,
                n == lines@.len(),
                lv == views_of(lines@),
                forall|j: int| 0 <= j < i ==> (#[trigger] lv[j]).len() == 0 || int_line_ok(lv[j]),
                st.spec_matches(lv.take(i as int)),
            decreases n - i,
        {
            let line = &lines[i];
            if !line.as_str().is_empty() {
                match IntField::from_str(line.as_str()) {
                    Ok(field) => {
                        proof {
                            assert(lv[i as int] == lines@[i as int]@);
                            assert(lv.take(i + 1) =~= lv.take(i as int).push(lv[i as int]));
                        }
                        MotorStatus::apply_line(
                            &mut st,
                            &field,
                            Ghost(lv.take(i as int)),
                            Ghost(lv[i as int]),
                        );
                    },
                    Err(e) => {
                        proof {
                            assert(lv[i as int] == lines@[i as int]@);
                            lemma_int_lines_err_at(lv, i as int);
                        }
                        return Err(e);
                    },
                }
            } else {
                proof {
                    assert(lv[i as int] == lines@[i as int]@);
                    assert(lv.take(i + 1) =~= lv.take(i as int).push(lv[i as int]));
                    lemma_empty_or_unmatched_keeps(st, lv.take(i as int), lv[i as int]);
                }
            }
            i = i + 1;
        }
        proof {
            assert(lv.take(n as int) =~= lv);
        }
        Ok(st)
    }

    /// Folds the newline-joined form of a block of lines, as read back
    /// from the link in one string.
    pub fn from_str(s: &str) -> (r: Result<MotorStatus, ParseNumberError>)
        ensures
            r is Ok <==> int_lines_ok(spec_split(s@, '\n')),
            r is Ok ==> r->Ok_0.spec_matches(spec_split(s@, '\n')),
            r is Err ==> r->Err_0 == int_lines_err(spec_split(s@, '\n')),
    {
        let parts = split_on_char(s, '\n');
        let r = MotorStatus::from_lines(&parts);
        proof {
            assert(views_of(parts@) =~= spec_split(s@, '\n'));
        }
        r
    }
}

impl Default for MotorStatus {
    /// The empty record: all measurements zero.
    fn default() -> (r: MotorStatus)
        ensures
            r == MotorStatus::spec_zero(),
    {
        MotorStatus {
            brush_rpm: 0,
            brush_ma: 0,
            vacuum_rpm: 0,
            vacuum_ma: 0,
            left_wheel_rpm: 0,
            left_wheel_load: 0,
            left_wheel_position_in_mm: 0,
            left_wheel_speed: 0,
            right_wheel_rpm: 0,
            right_wheel_load: 0,
            right_wheel_position_in_mm: 0,
            right_wheel_speed: 0,
            side_brush_ma: 0,
        }
    }
}


/// Every nonempty line decodes in the unit-tagged float shape.
pub open spec fn unit_float_lines_ok(lines: Seq<Seq<char>>) -> bool {
    forall|i: int| 0 <= i < lines.len() ==> (#[trigger] lines[i]).len() == 0
        || unit_float_line_ok(lines[i])
}

/// The decoder error of the first nonempty line that fails the
/// unit-tagged float shape.
pub open spec fn unit_float_lines_err(lines: Seq<Seq<char>>) -> ParseNumberError
    decreases lines.len(),
{
    if lines.len() == 0 {
        ParseNumberError::ParseFloat
    } else if lines[0].len() > 0 && !unit_float_line_ok(lines[0]) {
        unit_float_line_err(lines[0])
    } else {
        unit_float_lines_err(lines.skip(1))
    }
}

/// The float text of the last nonempty unit-tagged line named `name`, if
/// any.
#[verifier::opaque]
pub open spec fn last_float_text(lines: Seq<Seq<char>>, name: Seq<char>) -> Option<Seq<char>>
    decreases lines.len(),
{
    if lines.len() == 0 {
        None
    } else if lines.last().len() > 0 && unit_float_line_ok(lines.last()) && line_name(
        lines.last(),
    ) == name {
        Some(unit_float_line_val(lines.last()))
    } else {
        last_float_text(lines.drop_last(), name)
    }
}

/// The float text of the last unit-tagged line named `name`, or `0`.
pub open spec fn float_text_or_zero(lines: Seq<Seq<char>>, name: Seq<char>) -> Seq<char> {
    match last_float_text(lines, name) {
        Some(v) => v,
        None => "0"@,
    }
}

/// One step of [`last_float_text`] when one line is appended.
proof fn lemma_last_float_text_push(pre: Seq<Seq<char>>, line: Seq<char>, name: Seq<char>)
    ensures
        last_float_text(pre.push(line), name) == (if line.len() > 0 && unit_float_line_ok(line)
            && line_name(line) == name {
            Some(unit_float_line_val(line))
        } else {
            last_float_text(pre, name)
        }),
{
    reveal_with_fuel(last_float_text, 2);
    let t = pre.push(line);
    assert(t.last() == line);
    assert(t.drop_last() =~= pre);
}

/// The error of a unit-tagged float fold is the error of its first
/// failing line.
proof fn lemma_unit_float_lines_err_at(lines: Seq<Seq<char>>, i: int)
    requires
        0 <= i < lines.len(),
        forall|j: int|
            0 <= j < i ==> (#[trigger] lines[j]).len() == 0 || unit_float_line_ok(lines[j]),
        lines[i].len() > 0,
        !unit_float_line_ok(lines[i]),
    ensures
        unit_float_lines_err(lines) == unit_float_line_err(lines[i]),
    decreases i,
{
    if i == 0 {
    } else {
        let t = lines.skip(1);
        assert forall|j: int|
            0 <= j < i - 1 implies (#[trigger] t[j]).len() == 0 || unit_float_line_ok(t[j]) by {
            assert(t[j] == lines[j + 1]);
        }
        assert(t[i - 1] == lines[i]);
        lemma_unit_float_lines_err_at(t, i - 1);
    }
}

/// A line accepted by the mixed charger decoding: the integer shape
/// first, the plain float shape as the fallback.
pub open spec fn charger_line_ok(line: Seq<char>) -> bool {
    int_line_ok(line) || simple_float_line_ok(line)
}

/// Every charger line decodes in the integer shape or, failing that, the
/// plain float shape. The charger fold does not skip empty lines.
pub open spec fn charger_lines_ok(lines: Seq<Seq<char>>) -> bool {
    forall|i: int| 0 <= i < lines.len() ==> charger_line_ok(#[trigger] lines[i])
}

/// The decoder error of the first line that fails both charger shapes:
/// the float fallback ran last, so its error is reported.
pub open spec fn charger_lines_err(lines: Seq<Seq<char>>) -> ParseNumberError
    decreases lines.len(),
{
    if lines.len() == 0 {
        ParseNumberError::ParseFloat
    } else if !charger_line_ok(lines[0]) {
        simple_float_line_err(lines[0])
    } else {
        charger_lines_err(lines.skip(1))
    }
}

/// The value of the last integer-shaped charger line named `name`, if
/// any. The integer decoder is tried first, so every integer-shaped line
/// lands here, never in the float fallback.
#[verifier::opaque]
pub open spec fn last_charger_int(lines: Seq<Seq<char>>, name: Seq<char>) -> Option<int>
    decreases lines.len(),
{
    if lines.len() == 0 {
        None
    } else if int_line_ok(lines.last()) && line_name(lines.last()) == name {
        Some(int_line_val(lines.last()))
    } else {
        last_charger_int(lines.drop_last(), name)
    }
}

/// The value of the last integer-shaped charger line named `name`, or
/// zero.
pub open spec fn charger_int_or_zero(lines: Seq<Seq<char>>, name: Seq<char>) -> int {
    match last_charger_int(lines, name) {
        Some(v) => v,
        None => 0,
    }
}

/// The float text of the last charger line named `name` that fails the
/// integer shape and decodes in the plain float shape, if any.
#[verifier::opaque]
pub open spec fn last_charger_float(lines: Seq<Seq<char>>, name: Seq<char>) -> Option<Seq<char>>
    decreases lines.len(),
{
    if lines.len() == 0 {
        None
    } else if !int_line_ok(lines.last()) && simple_float_line_ok(lines.last()) && line_name(
        lines.last(),
    ) == name {
        Some(simple_float_line_val(lines.last()))
    } else {
        last_charger_float(lines.drop_last(), name)
    }
}

/// The float text of the last fallback-decoded charger line named
/// `name`, or `0`.
pub open spec fn charger_float_or_zero(lines: Seq<Seq<char>>, name: Seq<char>) -> Seq<char> {
    match last_charger_float(lines, name) {
        Some(v) => v,
        None => "0"@,
    }
}

/// One step of [`last_charger_int`] when one line is appended.
proof fn lemma_last_charger_int_push(pre: Seq<Seq<char>>, line: Seq<char>, name: Seq<char>)
    ensures
        last_charger_int(pre.push(line), name) == (if int_line_ok(line) && line_name(line)
            == name {
            Some(int_line_val(line))
        } else {
            last_charger_int(pre, name)
        }),
{
    reveal_with_fuel(last_charger_int, 2);
    let t = pre.push(line);
    assert(t.last() == line);
    assert(t.drop_last() =~= pre);
}

/// One step of [`last_charger_float`] when one line is appended.
proof fn lemma_last_charger_float_push(pre: Seq<Seq<char>>, line: Seq<char>, name: Seq<char>)
    ensures
        last_charger_float(pre.push(line), name) == (if !int_line_ok(line)
            && simple_float_line_ok(line) && line_name(line) == name {
            Some(simple_float_line_val(line))
        } else {
            last_charger_float(pre, name)
        }),
{
    reveal_with_fuel(last_charger_float, 2);
    let t = pre.push(line);
    assert(t.last() == line);
    assert(t.drop_last() =~= pre);
}

/// The error of a charger fold is the float-fallback error of its first
/// failing line.
proof fn lemma_charger_lines_err_at(lines: Seq<Seq<char>>, i: int)
    requires
        0 <= i < lines.len(),
        forall|j: int| 0 <= j < i ==> charger_line_ok(#[trigger] lines[j]),
        !charger_line_ok(lines[i]),
    ensures
        charger_lines_err(lines) == simple_float_line_err(lines[i]),
    decreases i,
{
    if i == 0 {
    } else {
        let t = lines.skip(1);
        assert forall|j: int| 0 <= j < i - 1 implies charger_line_ok(#[trigger] t[j]) by {
            assert(t[j] == lines[j + 1]);
        }
        assert(t[i - 1] == lines[i]);
        lemma_charger_lines_err_at(t, i - 1);
    }
}

/// The ten digital sensor bits, fully overwritten on each successful
/// `getdigitalsensors` query.
#[derive(Debug, Clone, Copy, PartialEq, Eq, Structural)]
pub struct DigitalSensorStatus {
    pub sensor_dc_jack_is_in: bool,
    pub sensor_dustbin_is_in: bool,
    pub sensor_left_wheel_extended: bool,
    pub sensor_right_wheel_extended: bool,
    pub left_sidebit: bool,
    pub left_frontbit: bool,
    pub left_ldsbit: bool,
    pub right_sidebit: bool,
    pub right_frontbit: bool,
    pub right_ldsbit: bool,
}

/// The fourteen analog sensor readings, each carried as validated
/// decimal float text, fully overwritten on each successful
/// `getanalogsensors` query. The wire carries a unit tag for each
/// reading; it is parsed but not retained.
#[derive(Debug, Clone)]
pub struct AnalogSensorStatus {
    pub battery_voltage: String,
    pub battery_current: String,
    pub battery_temperature: String,
    pub external_voltage: String,
    pub accelerometer_x: String,
    pub accelerometer_y: String,
    pub accelerometer_z: String,
    pub vacuum_current: String,
    pub side_brush_current: String,
    pub mag_sensor_left: String,
    pub mag_sensor_right: String,
    pub wall_sensor: String,
    pub drop_sensor_left: String,
    pub drop_sensor_right: String,
}

impl DigitalSensorStatus {
    /// The record with every bit false.
    pub open spec fn spec_zero() -> DigitalSensorStatus {
        DigitalSensorStatus {
            sensor_dc_jack_is_in: false,
            sensor_dustbin_is_in: false,
            sensor_left_wheel_extended: false,
            sensor_right_wheel_extended: false,
            left_sidebit: false,
            left_frontbit: false,
            left_ldsbit: false,
            right_sidebit: false,
            right_frontbit: false,
            right_ldsbit: false,
        }
    }

    /// Whether `self` is the fold of `lines`: every bit carries the
    /// boolean of the last line bearing its name, or false.
    pub open spec fn spec_matches(self, lines: Seq<Seq<char>>) -> bool {
        &&& self.sensor_dc_jack_is_in == bool_value_or_false(lines, "SNSR_DC_JACK_IS_IN"@)
        &&& self.sensor_dustbin_is_in == bool_value_or_false(lines, "SNSR_DUSTBIN_IS_IN"@)
        &&& self.sensor_left_wheel_extended == bool_value_or_false(lines, "SNSR_LEFT_WHEEL_EXTENDED"@)
        &&& self.sensor_right_wheel_extended == bool_value_or_false(lines, "SNSR_RIGHT_WHEEL_EXTENDED"@)
        &&& self.left_sidebit == bool_value_or_false(lines, "LSIDEBIT"@)
        &&& self.left_frontbit == bool_value_or_false(lines, "LFRONTBIT"@)
        &&& self.left_ldsbit == bool_value_or_false(lines, "LLDSBIT"@)
        &&& self.right_sidebit == bool_value_or_false(lines, "RSIDEBIT"@)
        &&& self.right_frontbit == bool_value_or_false(lines, "RFRONTBIT"@)
        &&& self.right_ldsbit == bool_value_or_false(lines, "RLDSBIT"@)
    }

    /// Applies one decoded line to the record.
    #[verifier::rlimit(100)]
    fn apply_line(
        st: &mut DigitalSensorStatus,
        field: &BoolField,
        Ghost(pre): Ghost<Seq<Seq<char>>>,
        Ghost(line): Ghost<Seq<char>>,
    )
        requires
            old(st).spec_matches(pre),
            line.len() > 0,
            int_line_ok(line),
            field.name@ == line_name(line),
            field.value == (int_line_val(line) == 1),
        ensures
            final(st).spec_matches(pre.push(line)),
    {
        proof {
            lemma_last_int_value_push(pre, line, "SNSR_DC_JACK_IS_IN"@);
            lemma_last_int_value_push(pre, line, "SNSR_DUSTBIN_IS_IN"@);
            lemma_last_int_value_push(pre, line, "SNSR_LEFT_WHEEL_EXTENDED"@);
            lemma_last_int_value_push(pre, line, "SNSR_RIGHT_WHEEL_EXTENDED"@);
            lemma_last_int_value_push(pre, line, "LSIDEBIT"@);
            lemma_last_int_value_push(pre, line, "LFRONTBIT"@);
            lemma_last_int_value_push(pre, line, "LLDSBIT"@);
            lemma_last_int_value_push(pre, line, "RSIDEBIT"@);
            lemma_last_int_value_push(pre, line, "RFRONTBIT"@);
            lemma_last_int_value_push(pre, line, "RLDSBIT"@);
        }
        let name = field.name.as_str();
        if str_eq(name, "SNSR_DC_JACK_IS_IN") {
            st.sensor_dc_jack_is_in = field.value;
        }
        if str_eq(name, "SNSR_DUSTBIN_IS_IN") {
            st.sensor_dustbin_is_in = field.value;
        }
        if str_eq(name, "SNSR_LEFT_WHEEL_EXTENDED") {
            st.sensor_left_wheel_extended = field.value;
        }
        if str_eq(name, "SNSR_RIGHT_WHEEL_EXTENDED") {
            st.sensor_right_wheel_extended = field.value;
        }
        if str_eq(name, "LSIDEBIT") {
            st.left_sidebit = field.value;
        }
        if str_eq(name, "LFRONTBIT") {
            st.left_frontbit = field.value;
        }
        if str_eq(name, "LLDSBIT") {
            st.left_ldsbit = field.value;
        }
        if str_eq(name, "RSIDEBIT") {
            st.right_sidebit = field.value;
        }
        if str_eq(name, "RFRONTBIT") {
            st.right_frontbit = field.value;
        }
        if str_eq(name, "RLDSBIT") {
            st.right_ldsbit = field.value;
        }
        // any other name is a recognized but unmapped condition and
        // changes nothing
    }

    /// Folds a block of lines into a digital sensor record. Empty lines
    /// are skipped; every other line must decode in the integer shape;
    /// names outside the known set are ignored.
    #[verifier::rlimit(100)]
    pub fn from_lines(lines: &Vec<String>) -> (r: Result<
        DigitalSensorStatus,
        ParseNumberError,
    >)
        ensures
            r is Ok <==> int_lines_ok(views_of(lines@)),
            r is Ok ==> r->Ok_0.spec_matches(views_of(lines@)),
            r is Err ==> r->Err_0 == int_lines_err(views_of(lines@)),
    {
        let ghost lv = views_of(lines@);
        let mut st = DigitalSensorStatus {
            sensor_dc_jack_is_in: false,
            sensor_dustbin_is_in: false,
            sensor_left_wheel_extended: false,
            sensor_right_wheel_extended: false,
            left_sidebit: false,
            left_frontbit: false,
            left_ldsbit: false,
            right_sidebit: false,
            right_frontbit: false,
            right_ldsbit: false,
        };
        let n = lines.len();
        let mut i: usize = 0;
        proof {
            reveal_with_fuel(last_int_value, 1);
            assert(lv.take(0) =~= Seq::<Seq<char>>::empty());
        }
        while i < n
            invariant
                0 <= i <= n,
                n == lines@.len(),
                lv == views_of(lines@),
                forall|j: int| 0 <= j < i ==> (#[trigger] lv[j]).len() == 0 || int_line_ok(lv[j]),
                st.spec_matches(lv.take(i as int)),
            decreases n - i,
        {
            let line = &lines[i];
            if !line.as_str().is_empty() {
                match BoolField::from_str(line.as_str()) {
                    Ok(field) => {
                        proof {
                            assert(lv[i as int] == lines@[i as int]@);
                            assert(lv.take(i + 1) =~= lv.take(i as int).push(lv[i as int]));
                        }
                        DigitalSensorStatus::apply_line(
                            &mut st,
                            &field,
                            Ghost(lv.take(i as int)),
                            Ghost(lv[i as int]),
                        );
                    },
                    Err(e) => {
                        proof {
                            assert(lv[i as int] == lines@[i as int]@);
                            lemma_int_lines_err_at(lv, i as int);
                        }
                        return Err(e);
                    },
                }
            } else {
                proof {
                    assert(lv[i as int] == lines@[i as int]@);
                    assert(lv.take(i + 1) =~= lv.take(i as int).push(lv[i as int]));
                    lemma_digital_keeps(st, lv.take(i as int), lv[i as int]);
                }
            }
            i = i + 1;
        }
        proof {
            assert(lv.take(n as int) =~= lv);
        }
        Ok(st)
    }

    /// Folds the newline-joined form of a block of lines.
    pub fn from_str(s: &str) -> (r: Result<DigitalSensorStatus, ParseNumberError>)
        ensures
            r is Ok <==> int_lines_ok(spec_split(s@, '\n')),
            r is Ok ==> r->Ok_0.spec_matches(spec_split(s@, '\n')),
            r is Err ==> r->Err_0 == int_lines_err(spec_split(s@, '\n')),
    {
        let parts = split_on_char(s, '\n');
        let r = DigitalSensorStatus::from_lines(&parts);
        proof {
            assert(views_of(parts@) =~= spec_split(s@, '\n'));
        }
        r
    }
}

/// Appending an empty or decoder-failing line changes no digital bit.
proof fn lemma_digital_keeps(
    st: DigitalSensorStatus,
    pre: Seq<Seq<char>>,
    line: Seq<char>,
)
    requires
        st.spec_matches(pre),
        line.len() == 0 || !int_line_ok(line),
    ensures
        st.spec_matches(pre.push(line)),
{
    lemma_last_int_value_push(pre, line, "SNSR_DC_JACK_IS_IN"@);
    lemma_last_int_value_push(pre, line, "SNSR_DUSTBIN_IS_IN"@);
    lemma_last_int_value_push(pre, line, "SNSR_LEFT_WHEEL_EXTENDED"@);
    lemma_last_int_value_push(pre, line, "SNSR_RIGHT_WHEEL_EXTENDED"@);
    lemma_last_int_value_push(pre, line, "LSIDEBIT"@);
    lemma_last_int_value_push(pre, line, "LFRONTBIT"@);
    lemma_last_int_value_push(pre, line, "LLDSBIT"@);
    lemma_last_int_value_push(pre, line, "RSIDEBIT"@);
    lemma_last_int_value_push(pre, line, "RFRONTBIT"@);
    lemma_last_int_value_push(pre, line, "RLDSBIT"@);
}

impl Default for DigitalSensorStatus {
    /// The empty record: all bits false.
    fn default() -> (r: DigitalSensorStatus)
        ensures
            r == DigitalSensorStatus::spec_zero(),
    {
        DigitalSensorStatus {
            sensor_dc_jack_is_in: false,
            sensor_dustbin_is_in: false,
            sensor_left_wheel_extended: false,
            sensor_right_wheel_extended: false,
            left_sidebit: false,
            left_frontbit: false,
            left_ldsbit: false,
            right_sidebit: false,
            right_frontbit: false,
            right_ldsbit: false,
        }
    }
}

impl AnalogSensorStatus {
    /// Whether `self` is the fold of `lines`: every reading carries the
    /// float text of the last line bearing its name, or `0`.
    pub open spec fn spec_matches(self, lines: Seq<Seq<char>>) -> bool {
        &&& self.battery_voltage@ == float_text_or_zero(lines, "BatteryVoltage"@)
        &&& self.battery_current@ == float_text_or_zero(lines, "BatteryCurrent"@)
        &&& self.battery_temperature@ == float_text_or_zero(lines, "BatteryTemperature"@)
        &&& self.external_voltage@ == float_text_or_zero(lines, "ExternalVoltage"@)
        &&& self.accelerometer_x@ == float_text_or_zero(lines, "AccelerometerX"@)
        &&& self.accelerometer_y@ == float_text_or_zero(lines, "AccelerometerY"@)
        &&& self.accelerometer_z@ == float_text_or_zero(lines, "AccelerometerZ"@)
        &&& self.vacuum_current@ == float_text_or_zero(lines, "VacuumCurrent"@)
        &&& self.side_brush_current@ == float_text_or_zero(lines, "SideBrushCurrent"@)
        &&& self.mag_sensor_left@ == float_text_or_zero(lines, "MagSensorLeft"@)
        &&& self.mag_sensor_right@ == float_text_or_zero(lines, "MagSensorRight"@)
        &&& self.wall_sensor@ == float_text_or_zero(lines, "WallSensor"@)
        &&& self.drop_sensor_left@ == float_text_or_zero(lines, "DropSensorLeft"@)
        &&& self.drop_sensor_right@ == float_text_or_zero(lines, "DropSensorRight"@)
    }

    /// Applies one decoded line to the record.
    #[verifier::rlimit(100)]
    fn apply_line(
        st: &mut AnalogSensorStatus,
        field: &UnitFloatField,
        Ghost(pre): Ghost<Seq<Seq<char>>>,
        Ghost(line): Ghost<Seq<char>>,
    )
        requires
            old(st).spec_matches(pre),
            line.len() > 0,
            unit_float_line_ok(line),
            field.name@ == line_name(line),
            field.value@ == unit_float_line_val(line),
        ensures
            final(st).spec_matches(pre.push(line)),
    {
        proof {
            lemma_last_float_text_push(pre, line, "BatteryVoltage"@);
            lemma_last_float_text_push(pre, line, "BatteryCurrent"@);
            lemma_last_float_text_push(pre, line, "BatteryTemperature"@);
            lemma_last_float_text_push(pre, line, "ExternalVoltage"@);
            lemma_last_float_text_push(pre, line, "AccelerometerX"@);
            lemma_last_float_text_push(pre, line, "AccelerometerY"@);
            lemma_last_float_text_push(pre, line, "AccelerometerZ"@);
            lemma_last_float_text_push(pre, line, "VacuumCurrent"@);
            lemma_last_float_text_push(pre, line, "SideBrushCurrent"@);
            lemma_last_float_text_push(pre, line, "MagSensorLeft"@);
            lemma_last_float_text_push(pre, line, "MagSensorRight"@);
            lemma_last_float_text_push(pre, line, "WallSensor"@);
            lemma_last_float_text_push(pre, line, "DropSensorLeft"@);
            lemma_last_float_text_push(pre, line, "DropSensorRight"@);
        }
        let name = field.name.as_str();
        let updated = AnalogSensorStatus {
            battery_voltage: if str_eq(name, "BatteryVoltage") {
                field.value.clone()
            } else {
                st.battery_voltage.clone()
            },
            battery_current: if str_eq(name, "BatteryCurrent") {
                field.value.clone()
            } else {
                st.battery_current.clone()
            },
            battery_temperature: if str_eq(name, "BatteryTemperature") {
                field.value.clone()
            } else {
                st.battery_temperature.clone()
            },
            external_voltage: if str_eq(name, "ExternalVoltage") {
                field.value.clone()
            } else {
                st.external_voltage.clone()
            },
            accelerometer_x: if str_eq(name, "AccelerometerX") {
                field.value.clone()
            } else {
                st.accelerometer_x.clone()
            },
            accelerometer_y: if str_eq(name, "AccelerometerY") {
                field.value.clone()
            } else {
                st.accelerometer_y.clone()
            },
            accelerometer_z: if str_eq(name, "AccelerometerZ") {
                field.value.clone()
            } else {
                st.accelerometer_z.clone()
            },
            vacuum_current: if str_eq(name, "VacuumCurrent") {
                field.value.clone()
            } else {
                st.vacuum_current.clone()
            },
            side_brush_current: if str_eq(name, "SideBrushCurrent") {
                field.value.clone()
            } else {
                st.side_brush_current.clone()
            },
            mag_sensor_left: if str_eq(name, "MagSensorLeft") {
                field.value.clone()
            } else {
                st.mag_sensor_left.clone()
            },
            mag_sensor_right: if str_eq(name, "MagSensorRight") {
                field.value.clone()
            } else {
                st.mag_sensor_right.clone()
            },
            wall_sensor: if str_eq(name, "WallSensor") {
                field.value.clone()
            } else {
                st.wall_sensor.clone()
            },
            drop_sensor_left: if str_eq(name, "DropSensorLeft") {
                field.value.clone()
            } else {
                st.drop_sensor_left.clone()
            },
            drop_sensor_right: if str_eq(name, "DropSensorRight") {
                field.value.clone()
            } else {
                st.drop_sensor_right.clone()
            },
        };
        *st = updated;
        // any name outside the known set is a recognized but unmapped
        // condition and changes nothing
    }

    /// Folds a block of lines into an analog sensor record. Empty lines
    /// are skipped; every other line must decode in the unit-tagged
    /// float shape; names outside the known set are ignored.
    #[verifier::rlimit(100)]
    pub fn from_lines(lines: &Vec<String>) -> (r: Result<
        AnalogSensorStatus,
        ParseNumberError,
    >)
        ensures
            r is Ok <==> unit_float_lines_ok(views_of(lines@)),
            r is Ok ==> r->Ok_0.spec_matches(views_of(lines@)),
            r is Err ==> r->Err_0 == unit_float_lines_err(views_of(lines@)),
    {
        let ghost lv = views_of(lines@);
        let mut st = AnalogSensorStatus {
            battery_voltage: String::from_str("0"),
            battery_current: String::from_str("0"),
            battery_temperature: String::from_str("0"),
            external_voltage: String::from_str("0"),
            accelerometer_x: String::from_str("0"),
            accelerometer_y: String::from_str("0"),
            accelerometer_z: String::from_str("0"),
            vacuum_current: String::from_str("0"),
            side_brush_current: String::from_str("0"),
            mag_sensor_left: String::from_str("0"),
            mag_sensor_right: String::from_str("0"),
            wall_sensor: String::from_str("0"),
            drop_sensor_left: String::from_str("0"),
            drop_sensor_right: String::from_str("0"),
        };
        let n = lines.len();
        let mut i: usize = 0;
        proof {
            reveal_with_fuel(last_float_text, 1);
            assert(lv.take(0) =~= Seq::<Seq<char>>::empty());
        }
        while i < n
            invariant
                0 <= i <= n,
                n == lines@.len(),
                lv == views_of(lines@),
                forall|j: int|
                    0 <= j < i ==> (#[trigger] lv[j]).len() == 0 || unit_float_line_ok(lv[j]),
                st.spec_matches(lv.take(i as int)),
            decreases n - i,
        {
            let line = &lines[i];
            if !line.as_str().is_empty() {
                match UnitFloatField::from_str(line.as_str()) {
                    Ok(field) => {
                        proof {
                            assert(lv[i as int] == lines@[i as int]@);
                            assert(lv.take(i + 1) =~= lv.take(i as int).push(lv[i as int]));
                        }
                        AnalogSensorStatus::apply_line(
                            &mut st,
                            &field,
                            Ghost(lv.take(i as int)),
                            Ghost(lv[i as int]),
                        );
                    },
                    Err(e) => {
                        proof {
                            assert(lv[i as int] == lines@[i as int]@);
                            lemma_unit_float_lines_err_at(lv, i as int);
                        }
                        return Err(e);
                    },
                }
            } else {
                proof {
                    assert(lv[i as int] == lines@[i as int]@);
                    assert(lv.take(i + 1) =~= lv.take(i as int).push(lv[i as int]));
                    lemma_analog_keeps(st, lv.take(i as int), lv[i as int]);
                }
            }
            i = i + 1;
        }
        proof {
            assert(lv.take(n as int) =~= lv);
        }
        Ok(st)
    }

    /// Folds the newline-joined form of a block of lines.
    pub fn from_str(s: &str) -> (r: Result<AnalogSensorStatus, ParseNumberError>)
        ensures
            r is Ok <==> unit_float_lines_ok(spec_split(s@, '\n')),
            r is Ok ==> r->Ok_0.spec_matches(spec_split(s@, '\n')),
            r is Err ==> r->Err_0 == unit_float_lines_err(spec_split(s@, '\n')),
    {
        let parts = split_on_char(s, '\n');
        let r = AnalogSensorStatus::from_lines(&parts);
        proof {
            assert(views_of(parts@) =~= spec_split(s@, '\n'));
        }
        r
    }
}

/// Appending an empty or decoder-failing line changes no analog reading.
proof fn lemma_analog_keeps(
    st: AnalogSensorStatus,
    pre: Seq<Seq<char>>,
    line: Seq<char>,
)
    requires
        st.spec_matches(pre),
        line.len() == 0 || !unit_float_line_ok(line),
    ensures
        st.spec_matches(pre.push(line)),
{
    lemma_last_float_text_push(pre, line, "BatteryVoltage"@);
    lemma_last_float_text_push(pre, line, "BatteryCurrent"@);
    lemma_last_float_text_push(pre, line, "BatteryTemperature"@);
    lemma_last_float_text_push(pre, line, "ExternalVoltage"@);
    lemma_last_float_text_push(pre, line, "AccelerometerX"@);
    lemma_last_float_text_push(pre, line, "AccelerometerY"@);
    lemma_last_float_text_push(pre, line, "AccelerometerZ"@);
    lemma_last_float_text_push(pre, line, "VacuumCurrent"@);
    lemma_last_float_text_push(pre, line, "SideBrushCurrent"@);
    lemma_last_float_text_push(pre, line, "MagSensorLeft"@);
    lemma_last_float_text_push(pre, line, "MagSensorRight"@);
    lemma_last_float_text_push(pre, line, "WallSensor"@);
    lemma_last_float_text_push(pre, line, "DropSensorLeft"@);
    lemma_last_float_text_push(pre, line, "DropSensorRight"@);
}

impl Default for AnalogSensorStatus {
    /// The empty record: every reading is the text `0`.
    fn default() -> (r: AnalogSensorStatus)
        ensures
            r.battery_voltage@ == "0"@,
            r.battery_current@ == "0"@,
            r.battery_temperature@ == "0"@,
            r.external_voltage@ == "0"@,
            r.accelerometer_x@ == "0"@,
            r.accelerometer_y@ == "0"@,
            r.accelerometer_z@ == "0"@,
            r.vacuum_current@ == "0"@,
            r.side_brush_current@ == "0"@,
            r.mag_sensor_left@ == "0"@,
            r.mag_sensor_right@ == "0"@,
            r.wall_sensor@ == "0"@,
            r.drop_sensor_left@ == "0"@,
            r.drop_sensor_right@ == "0"@,
    {
        AnalogSensorStatus {
            battery_voltage: String::from_str("0"),
            battery_current: String::from_str("0"),
            battery_temperature: String::from_str("0"),
            external_voltage: String::from_str("0"),
            accelerometer_x: String::from_str("0"),
            accelerometer_y: String::from_str("0"),
            accelerometer_z: String::from_str("0"),
            vacuum_current: String::from_str("0"),
            side_brush_current: String::from_str("0"),
            mag_sensor_left: String::from_str("0"),
            mag_sensor_right: String::from_str("0"),
            wall_sensor: String::from_str("0"),
            drop_sensor_left: String::from_str("0"),
            drop_sensor_right: String::from_str("0"),
        }
    }
}

/// The fifteen charger fields: thirteen integers and two voltages that
/// arrive as plain floats, decoded by trying the integer shape first and
/// falling back to the plain float shape. Fully overwritten on each
/// successful `getcharger` query.
#[derive(Debug, Clone)]
pub struct ChargerStatus {
    pub fuel_percent: i32,
    pub battery_over_tmp: i32,
    pub charging_active: i32,
    pub charging_enabled: i32,
    pub confident_on_fuel: i32,
    pub on_reserved_fuel: i32,
    pub empty_fuel: i32,
    pub battery_failure: i32,
    pub ext_pwr_present: i32,
    pub thermistor_present: i32,
    pub batt_temp_c_avg: i32,
    pub v_batt_v_v: String,
    pub v_ext_v: String,
    pub charger_mah: i32,
    pub discharge_mah: i32,
}

impl ChargerStatus {
    /// Whether `self` is the fold of `lines` under the mixed decoding.
    pub open spec fn spec_matches(self, lines: Seq<Seq<char>>) -> bool {
        &&& self.fuel_percent as int == charger_int_or_zero(lines, "FuelPercent"@)
        &&& self.battery_over_tmp as int == charger_int_or_zero(lines, "BatteryOverTemp"@)
        &&& self.charging_active as int == charger_int_or_zero(lines, "ChargingActive"@)
        &&& self.charging_enabled as int == charger_int_or_zero(lines, "ChargingEnabled"@)
        &&& self.confident_on_fuel as int == charger_int_or_zero(lines, "ConfidentOnFuel"@)
        &&& self.on_reserved_fuel as int == charger_int_or_zero(lines, "OnReservedFuel"@)
        &&& self.empty_fuel as int == charger_int_or_zero(lines, "EmptyFuel"@)
        &&& self.battery_failure as int == charger_int_or_zero(lines, "BatteryFailure"@)
        &&& self.ext_pwr_present as int == charger_int_or_zero(lines, "ExtPwrPresent"@)
        &&& self.thermistor_present as int == charger_int_or_zero(lines, "ThermistorPresent"@)
        &&& self.batt_temp_c_avg as int == charger_int_or_zero(lines, "BattTempCAvg"@)
        &&& self.charger_mah as int == charger_int_or_zero(lines, "Charger_mAH"@)
        &&& self.discharge_mah as int == charger_int_or_zero(lines, "Discharge_mAH"@)
        &&& self.v_batt_v_v@ == charger_float_or_zero(lines, "VBattV"@)
        &&& self.v_ext_v@ == charger_float_or_zero(lines, "VExtV"@)
    }

    /// Applies one integer-decoded line to the record.
    #[verifier::rlimit(100)]
    fn apply_int_line(
        st: &mut ChargerStatus,
        field: &IntField,
        Ghost(pre): Ghost<Seq<Seq<char>>>,
        Ghost(line): Ghost<Seq<char>>,
    )
        requires
            old(st).spec_matches(pre),
            int_line_ok(line),
            field.name@ == line_name(line),
            field.value as int == int_line_val(line),
        ensures
            final(st).spec_matches(pre.push(line)),
    {
        proof {
            lemma_last_charger_int_push(pre, line, "FuelPercent"@);
            lemma_last_charger_int_push(pre, line, "BatteryOverTemp"@);
            lemma_last_charger_int_push(pre, line, "ChargingActive"@);
            lemma_last_charger_int_push(pre, line, "ChargingEnabled"@);
            lemma_last_charger_int_push(pre, line, "ConfidentOnFuel"@);
            lemma_last_charger_int_push(pre, line, "OnReservedFuel"@);
            lemma_last_charger_int_push(pre, line, "EmptyFuel"@);
            lemma_last_charger_int_push(pre, line, "BatteryFailure"@);
            lemma_last_charger_int_push(pre, line, "ExtPwrPresent"@);
            lemma_last_charger_int_push(pre, line, "ThermistorPresent"@);
            lemma_last_charger_int_push(pre, line, "BattTempCAvg"@);
            lemma_last_charger_int_push(pre, line, "Charger_mAH"@);
            lemma_last_charger_int_push(pre, line, "Discharge_mAH"@);
            lemma_last_charger_float_push(pre, line, "VBattV"@);
            lemma_last_charger_float_push(pre, line, "VExtV"@);
        }
        let name = field.name.as_str();
        if str_eq(name, "FuelPercent") {
            st.fuel_percent = field.value;
        }
        if str_eq(name, "BatteryOverTemp") {
            st.battery_over_tmp = field.value;
        }
        if str_eq(name, "ChargingActive") {
            st.charging_active = field.value;
        }
        if str_eq(name, "ChargingEnabled") {
            st.charging_enabled = field.value;
        }
        if str_eq(name, "ConfidentOnFuel") {
            st.confident_on_fuel = field.value;
        }
        if str_eq(name, "OnReservedFuel") {
            st.on_reserved_fuel = field.value;
        }
        if str_eq(name, "EmptyFuel") {
            st.empty_fuel = field.value;
        }
        if str_eq(name, "BatteryFailure") {
            st.battery_failure = field.value;
        }
        if str_eq(name, "ExtPwrPresent") {
            st.ext_pwr_present = field.value;
        }
        if str_eq(name, "ThermistorPresent") {
            st.thermistor_present = field.value;
        }
        if str_eq(name, "BattTempCAvg") {
            st.batt_temp_c_avg = field.value;
        }
        if str_eq(name, "Charger_mAH") {
            st.charger_mah = field.value;
        }
        if str_eq(name, "Discharge_mAH") {
            st.discharge_mah = field.value;
        }
        // any other name is a recognized but unmapped condition and
        // changes nothing
    }

    /// Applies one fallback-decoded line to the record.
    #[verifier::rlimit(100)]
    fn apply_float_line(
        st: &mut ChargerStatus,
        field: &SimpleFloatField,
        Ghost(pre): Ghost<Seq<Seq<char>>>,
        Ghost(line): Ghost<Seq<char>>,
    )
        requires
            old(st).spec_matches(pre),
            !int_line_ok(line),
            simple_float_line_ok(line),
            field.name@ == line_name(line),
            field.value@ == simple_float_line_val(line),
        ensures
            final(st).spec_matches(pre.push(line)),
    {
        proof {
            lemma_last_charger_int_push(pre, line, "FuelPercent"@);
            lemma_last_charger_int_push(pre, line, "BatteryOverTemp"@);
            lemma_last_charger_int_push(pre, line, "ChargingActive"@);
            lemma_last_charger_int_push(pre, line, "ChargingEnabled"@);
            lemma_last_charger_int_push(pre, line, "ConfidentOnFuel"@);
            lemma_last_charger_int_push(pre, line, "OnReservedFuel"@);
            lemma_last_charger_int_push(pre, line, "EmptyFuel"@);
            lemma_last_charger_int_push(pre, line, "BatteryFailure"@);
            lemma_last_charger_int_push(pre, line, "ExtPwrPresent"@);
            lemma_last_charger_int_push(pre, line, "ThermistorPresent"@);
            lemma_last_charger_int_push(pre, line, "BattTempCAvg"@);
            lemma_last_charger_int_push(pre, line, "Charger_mAH"@);
            lemma_last_charger_int_push(pre, line, "Discharge_mAH"@);
            lemma_last_charger_float_push(pre, line, "VBattV"@);
            lemma_last_charger_float_push(pre, line, "VExtV"@);
        }
        let name = field.name.as_str();
        if str_eq(name, "VBattV") {
            st.v_batt_v_v = field.value.clone();
        }
        if str_eq(name, "VExtV") {
            st.v_ext_v = field.value.clone();
        }
        // any other name is a recognized but unmapped condition and
        // changes nothing
    }

    /// Folds a block of lines into a charger record under the mixed
    /// decoding: the integer decoder is tried first; on its failure the
    /// same line is retried with the plain float decoder; a failure of
    /// both is fatal for the whole fold. Names outside the known set are
    /// ignored.
    #[verifier::rlimit(100)]
    pub fn from_lines(lines: &Vec<String>) -> (r: Result<ChargerStatus, ParseNumberError>)
        ensures
            r is Ok <==> charger_lines_ok(views_of(lines@)),
            r is Ok ==> r->Ok_0.spec_matches(views_of(lines@)),
            r is Err ==> r->Err_0 == charger_lines_err(views_of(lines@)),
    {
        let ghost lv = views_of(lines@);
        let mut st = ChargerStatus {
            fuel_percent: 0,
            battery_over_tmp: 0,
            charging_active: 0,
            charging_enabled: 0,
            confident_on_fuel: 0,
            on_reserved_fuel: 0,
            empty_fuel: 0,
            battery_failure: 0,
            ext_pwr_present: 0,
            thermistor_present: 0,
            batt_temp_c_avg: 0,
            v_batt_v_v: String::from_str("0"),
            v_ext_v: String::from_str("0"),
            charger_mah: 0,
            discharge_mah: 0,
        };
        let n = lines.len();
        let mut i: usize = 0;
        proof {
            reveal_with_fuel(last_charger_int, 1);
            reveal_with_fuel(last_charger_float, 1);
            assert(lv.take(0) =~= Seq::<Seq<char>>::empty());
        }
        while i < n
            invariant
                0 <= i <= n,
                n == lines@.len(),
                lv == views_of(lines@),
                forall|j: int| 0 <= j < i ==> charger_line_ok(#[trigger] lv[j]),
                st.spec_matches(lv.take(i as int)),
            decreases n - i,
        {
            let line = &lines[i];
            proof {
                assert(lv[i as int] == lines@[i as int]@);
                assert(lv.take(i + 1) =~= lv.take(i as int).push(lv[i as int]));
            }
            match IntField::from_str(line.as_str()) {
                Ok(field) => {
                    ChargerStatus::apply_int_line(
                        &mut st,
                        &field,
                        Ghost(lv.take(i as int)),
                        Ghost(lv[i as int]),
                    );
                },
                Err(_int_error) => {
                    match SimpleFloatField::from_str(line.as_str()) {
                        Ok(field) => {
                            ChargerStatus::apply_float_line(
                                &mut st,
                                &field,
                                Ghost(lv.take(i as int)),
                                Ghost(lv[i as int]),
                            );
                        },
                        Err(e) => {
                            proof {
                                lemma_charger_lines_err_at(lv, i as int);
                            }
                            return Err(e);
                        },
                    }
                },
            }
            i = i + 1;
        }
        proof {
            assert(lv.take(n as int) =~= lv);
        }
        Ok(st)
    }
}

impl Default for ChargerStatus {
    /// The empty record: integers zero, voltages the text `0`.
    fn default() -> (r: ChargerStatus)
        ensures
            r.fuel_percent == 0,
            r.battery_over_tmp == 0,
            r.charging_active == 0,
            r.charging_enabled == 0,
            r.confident_on_fuel == 0,
            r.on_reserved_fuel == 0,
            r.empty_fuel == 0,
            r.battery_failure == 0,
            r.ext_pwr_present == 0,
            r.thermistor_present == 0,
            r.batt_temp_c_avg == 0,
            r.charger_mah == 0,
            r.discharge_mah == 0,
            r.v_batt_v_v@ == "0"@,
            r.v_ext_v@ == "0"@,
    {
        ChargerStatus {
            fuel_percent: 0,
            battery_over_tmp: 0,
            charging_active: 0,
            charging_enabled: 0,
            confident_on_fuel: 0,
            on_reserved_fuel: 0,
            empty_fuel: 0,
            battery_failure: 0,
            ext_pwr_present: 0,
            thermistor_present: 0,
            batt_temp_c_avg: 0,
            v_batt_v_v: String::from_str("0"),
            v_ext_v: String::from_str("0"),
            charger_mah: 0,
            discharge_mah: 0,
        }
    }
}

impl AnalogSensorStatus {
    /// An equal copy of the record.
    pub fn duplicate(&self) -> (r: AnalogSensorStatus)
        ensures
            r == *self,
    {
        AnalogSensorStatus {
            battery_voltage: self.battery_voltage.clone(),
            battery_current: self.battery_current.clone(),
            battery_temperature: self.battery_temperature.clone(),
            external_voltage: self.external_voltage.clone(),
            accelerometer_x: self.accelerometer_x.clone(),
            accelerometer_y: self.accelerometer_y.clone(),
            accelerometer_z: self.accelerometer_z.clone(),
            vacuum_current: self.vacuum_current.clone(),
            side_brush_current: self.side_brush_current.clone(),
            mag_sensor_left: self.mag_sensor_left.clone(),
            mag_sensor_right: self.mag_sensor_right.clone(),
            wall_sensor: self.wall_sensor.clone(),
            drop_sensor_left: self.drop_sensor_left.clone(),
            drop_sensor_right: self.drop_sensor_right.clone(),
        }
    }
}

impl ChargerStatus {
    /// An equal copy of the record.
    pub fn duplicate(&self) -> (r: ChargerStatus)
        ensures
            r == *self,
    {
        ChargerStatus {
            fuel_percent: self.fuel_percent,
            battery_over_tmp: self.battery_over_tmp,
            charging_active: self.charging_active,
            charging_enabled: self.charging_enabled,
            confident_on_fuel: self.confident_on_fuel,
            on_reserved_fuel: self.on_reserved_fuel,
            empty_fuel: self.empty_fuel,
            battery_failure: self.battery_failure,
            ext_pwr_present: self.ext_pwr_present,
            thermistor_present: self.thermistor_present,
            batt_temp_c_avg: self.batt_temp_c_avg,
            v_batt_v_v: self.v_batt_v_v.clone(),
            v_ext_v: self.v_ext_v.clone(),
            charger_mah: self.charger_mah,
            discharge_mah: self.discharge_mah,
        }
    }
}

} // verus!
