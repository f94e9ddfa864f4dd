//! The robot facade: the public operation set (mode toggles, scan, motor
//! command, status queries, shutdown sequence) over a [`Link`].
//!
//! Every operation is specified against the link model: what the call
//! appends to the written transcript, how much of the pending input it
//! consumes, and exactly what it returns for each pending input.

use vstd::prelude::*;

use vstd::utf8::{decode_utf8, valid_utf8};

use crate::error::GetDataError;
use crate::link::{
    bytes_of_lines, first_nl_idx, frameable, lemma_first_nl_idx, lemma_first_nl_idx_le,
    lemma_first_nl_idx_lower, lemma_frame_scripted, line_cap, line_ready, line_rest, line_take,
    read_line_result, utf8_to_string, Link, LINE_BYTE_CAP, NEWLINE_BYTE,
};
use crate::fields::Toggle;
use crate::status::{AnalogSensorStatus, ChargerStatus, DigitalSensorStatus, MotorStatus};
use crate::text::{contains_sub, i32_to_string, is_i32_token, int_syntax_val, join_lines, join_with_newlines, parse_i32, spec_i32_str, spec_split, split_on_char, starts_with_sub, str_contains, str_starts_with};
use vstd::string::StringSliceAdditionalSpecFns;
use vstd::utf8::encode_utf8;

verus! {

/// The framing of `n` consecutive lines from the pending input: the
/// decoded lines and what remains pending, or the first read's error.
pub open spec fn frame_lines(bytes: Seq<u8>, n: nat) -> Result<
    (Seq<Seq<char>>, Seq<u8>),
    GetDataError,
>
    decreases n,
{
    if n == 0 {
        Ok((Seq::empty(), bytes))
    } else {
        match read_line_result(bytes) {
            Err(e) => Err(e),
            Ok(cs) => match frame_lines(line_rest(bytes), (n - 1) as nat) {
                Err(e) => Err(e),
                Ok((ls, rest)) => Ok((seq![cs] + ls, rest)),
            },
        }
    }
}

/// Decodes one framed line as text.
fn decode_frame(buf: Vec<u8>) -> (r: Result<String, GetDataError>)
    ensures
        valid_utf8(buf@) ==> r is Ok && (r->Ok_0)@ == decode_utf8(buf@),
        !valid_utf8(buf@) ==> r == Err::<String, GetDataError>(GetDataError::Parse),
{
    match utf8_to_string(buf) {
        Some(s) => Ok(s),
        None => Err(GetDataError::Parse),
    }
}

/// The driver for the D-series robot, generic over the byte link it
/// talks through. It holds the link for its whole lifetime and caches
/// the latest snapshot of each status record.
pub struct DSeries<L: Link> {
    pub link: L,
    pub motor_status: MotorStatus,
    pub analog_sensor_status: AnalogSensorStatus,
    pub digital_sensor_status: DigitalSensorStatus,
    pub charger_status: ChargerStatus,
}

impl<L: Link> DSeries<L> {
    /// Whether the cached status snapshots of `a` and `b` coincide.
    pub open spec fn same_cache(a: Self, b: Self) -> bool {
        &&& a.motor_status == b.motor_status
        &&& a.analog_sensor_status == b.analog_sensor_status
        &&& a.digital_sensor_status == b.digital_sensor_status
        &&& a.charger_status == b.charger_status
    }

    /// A driver over `link` with empty status snapshots.
    pub fn new(link: L) -> (r: DSeries<L>)
        ensures
            r.link == link,
            r.motor_status == MotorStatus::spec_zero(),
            r.digital_sensor_status == DigitalSensorStatus::spec_zero(),
    {
        DSeries {
            link,
            motor_status: Default::default(),
            analog_sensor_status: Default::default(),
            digital_sensor_status: Default::default(),
            charger_status: Default::default(),
        }
    }

    /// Reads one newline-terminated line: up to [`LINE_BYTE_CAP`] bytes,
    /// one at a time, until a newline (not returned) is seen; a line
    /// that reaches the cap is returned truncated, with its newline left
    /// pending. Fails with `Io` when the link gives out mid-line and
    /// with `Parse` when the bytes are not valid text.
    pub fn read_line(&mut self) -> (r: Result<String, GetDataError>)
        ensures
            final(self).link.written() == old(self).link.written(),
            final(self).link.incoming() == line_rest(old(self).link.incoming()),
            Self::same_cache(*final(self), *old(self)),
            match read_line_result(old(self).link.incoming()) {
                Ok(cs) => r is Ok && (r->Ok_0)@ == cs,
                Err(e) => r == Err::<String, GetDataError>(e),
            },
    {
        let ghost bytes0 = self.link.incoming();
        let mut buf: Vec<u8> = Vec::new();
        let mut i: usize = 0;
        proof {
            assert(buf@ =~= bytes0.take(0));
        }
        loop
            invariant
                i <= LINE_BYTE_CAP,
                i == buf@.len(),
                buf@ == bytes0.take(i as int),
                forall|j: int| 0 <= j < i ==> bytes0[j] != NEWLINE_BYTE,
                i <= bytes0.len(),
                self.link.incoming() == bytes0.skip(i as int),
                self.link.written() == old(self).link.written(),
                Self::same_cache(*self, *old(self)),
                old(self).link.incoming() == bytes0,
            decreases LINE_BYTE_CAP - i,
        {
            if i == LINE_BYTE_CAP {
                // cap reached without a newline: the truncated line
                proof {
                    lemma_first_nl_idx_lower(bytes0, i as int);
                    assert(bytes0.len() >= LINE_BYTE_CAP);
                    assert(line_ready(bytes0));
                    assert(!(first_nl_idx(bytes0) < line_cap(bytes0)));
                    assert(line_take(bytes0) =~= buf@);
                    assert(line_rest(bytes0) =~= bytes0.skip(i as int));
                }
                return decode_frame(buf);
            }
            let rb = self.link.read_byte();
            match rb {
                None => {
                    // the link gave out before a full frame
                    proof {
                        assert(bytes0.skip(i as int).len() == 0);
                        assert(bytes0.len() == i);
                        lemma_first_nl_idx(bytes0, i as int);
                        assert(!line_ready(bytes0));
                        assert(line_rest(bytes0) =~= bytes0.skip(i as int));
                    }
                    return Err(GetDataError::Io);
                },
                Some(b) => {
                    proof {
                        assert(bytes0.skip(i as int)[0] == bytes0[i as int]);
                        assert(bytes0.skip(i as int).skip(1) =~= bytes0.skip(i + 1));
                    }
                    if b == NEWLINE_BYTE {
                        // the newline closes the frame and is not returned
                        proof {
                            lemma_first_nl_idx(bytes0, i as int);
                            assert(first_nl_idx(bytes0) < line_cap(bytes0));
                            assert(line_take(bytes0) =~= buf@);
                            assert(line_rest(bytes0) =~= bytes0.skip(i + 1));
                        }
                        return decode_frame(buf);
                    }
                    buf.push(b);
                    proof {
                        assert(buf@ =~= bytes0.take(i + 1));
                    }
                    i = i + 1;
                },
            }
        }
    }

    /// Reads `n` consecutive lines.
    pub fn read_data_lines(&mut self, n: usize) -> (r: Result<Vec<String>, GetDataError>)
        ensures
            final(self).link.written() == old(self).link.written(),
            Self::same_cache(*final(self), *old(self)),
            match frame_lines(old(self).link.incoming(), n as nat) {
                Ok((ls, rest)) => r is Ok && crate::status::views_of((r->Ok_0)@) == ls
                    && final(self).link.incoming() == rest,
                Err(e) => r == Err::<Vec<String>, GetDataError>(e),
            },
    {
        let ghost bytes0 = self.link.incoming();
        let mut acc: Vec<String> = Vec::new();
        let mut i: usize = 0;
        proof {
            assert(crate::status::views_of(acc@) =~= Seq::<Seq<char>>::empty());
            if let Ok((ls, rest)) = frame_lines(bytes0, n as nat) {
                assert(crate::status::views_of(acc@) + ls =~= ls);
            }
        }
        while i < n
            invariant
                0 <= i <= n,
                self.link.written() == old(self).link.written(),
                Self::same_cache(*self, *old(self)),
                bytes0 == old(self).link.incoming(),
                frame_lines(bytes0, n as nat) == (match frame_lines(
                    self.link.incoming(),
                    (n - i) as nat,
                ) {
                    Ok((ls, rest)) => Ok::<(Seq<Seq<char>>, Seq<u8>), GetDataError>((
                        crate::status::views_of(acc@) + ls,
                        rest,
                    )),
                    Err(e) => Err(e),
                }),
            decreases n - i,
        {
            let ghost cur = self.link.incoming();
            let ghost acc0 = acc@;
            match self.read_line() {
                Ok(line) => {
                    acc.push(line);
                    proof {
                        let prev = crate::status::views_of(acc0);
                        assert(acc@ =~= acc0.push(line));
                        match frame_lines(self.link.incoming(), (n - i - 1) as nat) {
                            Ok((ls, rest)) => {
                                assert(crate::status::views_of(acc@) =~= prev + seq![line@]);
                                assert(prev + (seq![line@] + ls) =~= crate::status::views_of(acc@)
                                    + ls);
                            },
                            Err(_) => {},
                        }
                    }
                    i = i + 1;
                },
                Err(e) => {
                    return Err(e);
                },
            }
        }
        proof {
            assert(crate::status::views_of(acc@) + Seq::<Seq<char>>::empty()
                =~= crate::status::views_of(acc@));
        }
        Ok(acc)
    }
}

/// What one best-effort echo read consumes, whatever it returns.
pub open spec fn skip_echo(bytes: Seq<u8>) -> Seq<u8> {
    line_rest(bytes)
}

/// Header synchronization: lines are read and discarded until one
/// contains `header`; what remains pending follows that line. A link
/// that gives out first is an I/O error; a line that is not valid text
/// propagates its encoding error, as every other read in a query does.
pub open spec fn sync_drop(bytes: Seq<u8>, header: Seq<char>) -> Result<Seq<u8>, GetDataError>
    decreases bytes.len(),
{
    if !line_ready(bytes) {
        Err(GetDataError::Io)
    } else if !valid_utf8(line_take(bytes)) {
        Err(GetDataError::Parse)
    } else if contains_sub(decode_utf8(line_take(bytes)), header) {
        Ok(line_rest(bytes))
    } else {
        sync_drop(line_rest(bytes), header)
    }
}

/// The handshake loop of the test-mode command: lines are read and
/// discarded (lines that are not valid text included) until one contains
/// `keyword`. A link that gives out first surfaces as a synchronization
/// timeout rather than hanging forever.
pub open spec fn handshake_drop(bytes: Seq<u8>, keyword: Seq<char>) -> Result<
    Seq<u8>,
    GetDataError,
>
    decreases bytes.len(),
{
    if !line_ready(bytes) {
        Err(GetDataError::SyncTimeout)
    } else if valid_utf8(line_take(bytes)) && contains_sub(
        decode_utf8(line_take(bytes)),
        keyword,
    ) {
        Ok(line_rest(bytes))
    } else {
        handshake_drop(line_rest(bytes), keyword)
    }
}

/// One whole query response: the echo line (best effort), then
/// synchronization on `header`, then `n` data lines.
pub open spec fn query_session(bytes: Seq<u8>, header: Seq<char>, n: nat) -> Result<
    (Seq<Seq<char>>, Seq<u8>),
    GetDataError,
> {
    match sync_drop(skip_echo(bytes), header) {
        Err(e) => Err(e),
        Ok(b) => frame_lines(b, n),
    }
}

/// The wire text of the test-mode command.
pub open spec fn testmode_line(value: Toggle) -> Seq<char> {
    "testmode "@ + value.spec_str() + "\n"@
}

/// The wire text of the laser-distance-sensor rotation command.
pub open spec fn ldsrotation_line(value: Toggle) -> Seq<char> {
    "setldsrotation "@ + value.spec_str() + "\n"@
}

/// The wire text of the scan request.
pub open spec fn scan_request_line() -> Seq<char> {
    "getldsscan\n"@
}

/// The wire text of the motor command: left-wheel distance, right-wheel
/// distance and speed as space-separated integers, passed through
/// verbatim with no unit conversion.
pub open spec fn setmotor_line(left_distance: int, right_distance: int, speed: int) -> Seq<char> {
    "setmotor "@ + spec_i32_str(left_distance) + " "@ + spec_i32_str(right_distance) + " "@
        + spec_i32_str(speed) + "\n\n"@
}

/// The wire text of the motor status query.
pub open spec fn getmotors_line() -> Seq<char> {
    "getmotors\n\n"@
}

/// The wire text of the analog sensor query.
pub open spec fn getanalogsensors_line() -> Seq<char> {
    "getanalogsensors\n\n"@
}

/// The wire text of the digital sensor query.
pub open spec fn getdigitalsensors_line() -> Seq<char> {
    "getdigitalsensors\n\n"@
}

/// The wire text of the charger query.
pub open spec fn getcharger_line() -> Seq<char> {
    "getcharger\n\n"@
}

/// The wire text of the backlight command.
pub open spec fn backlight_line(value: Toggle) -> Seq<char> {
    "setled backlight"@ + value.spec_str() + "\n"@
}

/// The settle delay, in milliseconds, after toggling the rotation of the
/// laser turret: the physical spin-up time of the sensor head.
pub const LDS_SETTLE_MS: u64 = 5000;

impl<L: Link> DSeries<L> {
    /// Writes one command string to the link.
    fn write_command(&mut self, cmd: &str) -> (r: bool)
        ensures
            r,
            final(self).link.written() == old(self).link.written() + encode_utf8(cmd@),
            final(self).link.incoming() == old(self).link.incoming(),
            Self::same_cache(*final(self), *old(self)),
    {
        self.link.write_bytes(cmd.as_bytes())
    }

    /// Reads and discards one echo line, best effort: a failure here is
    /// advisory and never propagates.
    fn skip_echo_line(&mut self)
        ensures
            final(self).link.written() == old(self).link.written(),
            final(self).link.incoming() == skip_echo(old(self).link.incoming()),
            Self::same_cache(*final(self), *old(self)),
    {
        let _ = self.read_line();
    }

    /// Reads and discards lines until one contains `header`.
    fn sync_on_header(&mut self, header: &str) -> (r: Result<(), GetDataError>)
        ensures
            final(self).link.written() == old(self).link.written(),
            Self::same_cache(*final(self), *old(self)),
            match sync_drop(old(self).link.incoming(), header@) {
                Ok(rest) => r is Ok && final(self).link.incoming() == rest,
                Err(e) => r == Err::<(), GetDataError>(e),
            },
    {
        let ghost bytes0 = self.link.incoming();
        loop
            invariant
                self.link.written() == old(self).link.written(),
                Self::same_cache(*self, *old(self)),
                old(self).link.incoming() == bytes0,
                sync_drop(bytes0, header@) == sync_drop(self.link.incoming(), header@),
            decreases self.link.incoming().len(),
        {
            let ghost cur = self.link.incoming();
            proof {
                if line_ready(cur) {
                    lemma_line_rest_shorter(cur);
                }
            }
            match self.read_line() {
                Err(e) => {
                    return Err(e);
                },
                Ok(line) => {
                    if str_contains(line.as_str(), header) {
                        return Ok(());
                    }
                },
            }
        }
    }

    /// Reads and discards lines, lines that are not valid text included,
    /// until one contains `keyword`; a link that gives out first is a
    /// synchronization timeout.
    fn handshake_on_keyword(&mut self, keyword: &str) -> (r: Result<(), GetDataError>)
        ensures
            final(self).link.written() == old(self).link.written(),
            Self::same_cache(*final(self), *old(self)),
            match handshake_drop(old(self).link.incoming(), keyword@) {
                Ok(rest) => r is Ok && final(self).link.incoming() == rest,
                Err(e) => r == Err::<(), GetDataError>(e),
            },
    {
        let ghost bytes0 = self.link.incoming();
        loop
            invariant
                self.link.written() == old(self).link.written(),
                Self::same_cache(*self, *old(self)),
                old(self).link.incoming() == bytes0,
                handshake_drop(bytes0, keyword@) == handshake_drop(
                    self.link.incoming(),
                    keyword@,
                ),
            decreases self.link.incoming().len(),
        {
            let ghost cur = self.link.incoming();
            proof {
                if line_ready(cur) {
                    lemma_line_rest_shorter(cur);
                }
            }
            match self.read_line() {
                Err(GetDataError::Io) => {
                    // the link gave out: surface a timeout instead of
                    // polling forever
                    return Err(GetDataError::SyncTimeout);
                },
                Err(_) => {
                    // a line that is not valid text is just another
                    // unrelated line
                },
                Ok(line) => {
                    if str_contains(line.as_str(), keyword) {
                        return Ok(());
                    }
                },
            }
        }
    }

    /// Toggles test mode: writes the command, then polls the link until
    /// a line echoes the `testmode` keyword, then flushes.
    pub fn set_testmode(&mut self, value: Toggle) -> (r: Result<(), GetDataError>)
        ensures
            final(self).link.written() == old(self).link.written() + encode_utf8(
                testmode_line(value),
            ),
            Self::same_cache(*final(self), *old(self)),
            match handshake_drop(old(self).link.incoming(), "testmode"@) {
                Ok(rest) => r is Ok && final(self).link.incoming() == rest,
                Err(e) => r == Err::<(), GetDataError>(e),
            },
    {
        let mut cmd = String::from_str("testmode ");
        let value_text = value.to_string();
        cmd.append(value_text.as_str());
        cmd.append("\n");
        proof {
            assert(cmd@ =~= testmode_line(value));
        }
        if !self.write_command(cmd.as_str()) {
            return Err(GetDataError::Io);
        }
        match self.handshake_on_keyword("testmode") {
            Err(e) => Err(e),
            Ok(()) => {
                if !self.link.flush() {
                    return Err(GetDataError::Io);
                }
                Ok(())
            },
        }
    }

    /// Toggles the rotation of the laser distance sensor: writes the
    /// command, reads one echo line best effort, flushes, then blocks
    /// for the fixed settle delay while the turret spins up or down.
    pub fn set_ldsrotation(&mut self, value: Toggle) -> (r: Result<(), GetDataError>)
        ensures
            final(self).link.written() == old(self).link.written() + encode_utf8(
                ldsrotation_line(value),
            ),
            final(self).link.incoming() == skip_echo(old(self).link.incoming()),
            Self::same_cache(*final(self), *old(self)),
            r is Ok,
    {
        let mut cmd = String::from_str("setldsrotation ");
        let value_text = value.to_string();
        cmd.append(value_text.as_str());
        cmd.append("\n");
        proof {
            assert(cmd@ =~= ldsrotation_line(value));
        }
        if !self.write_command(cmd.as_str()) {
            return Err(GetDataError::Io);
        }
        self.skip_echo_line();
        if !self.link.flush() {
            return Err(GetDataError::Io);
        }
        self.link.settle(LDS_SETTLE_MS);
        Ok(())
    }

    /// Requests a scan: writes the command, reads one echo line best
    /// effort, flushes. The response is collected by `get_scan_ranges`.
    pub fn request_scan(&mut self) -> (r: Result<(), GetDataError>)
        ensures
            final(self).link.written() == old(self).link.written() + encode_utf8(
                scan_request_line(),
            ),
            final(self).link.incoming() == skip_echo(old(self).link.incoming()),
            Self::same_cache(*final(self), *old(self)),
            r is Ok,
    {
        if !self.write_command("getldsscan\n") {
            return Err(GetDataError::Io);
        }
        self.skip_echo_line();
        if !self.link.flush() {
            return Err(GetDataError::Io);
        }
        Ok(())
    }

    /// Commands the motors: left-wheel distance, right-wheel distance
    /// and speed, passed through verbatim (callers are responsible for
    /// correct units). Reads one echo line best effort and flushes.
    pub fn set_motors(&mut self, left_distance: i32, right_distance: i32, speed: i32) -> (r:
        Result<(), GetDataError>)
        ensures
            final(self).link.written() == old(self).link.written() + encode_utf8(
                setmotor_line(left_distance as int, right_distance as int, speed as int),
            ),
            final(self).link.incoming() == skip_echo(old(self).link.incoming()),
            Self::same_cache(*final(self), *old(self)),
            r is Ok,
    {
        let mut cmd = String::from_str("setmotor ");
        let left_text = i32_to_string(left_distance);
        cmd.append(left_text.as_str());
        cmd.append(" ");
        let right_text = i32_to_string(right_distance);
        cmd.append(right_text.as_str());
        cmd.append(" ");
        let speed_text = i32_to_string(speed);
        cmd.append(speed_text.as_str());
        cmd.append("\n\n");
        proof {
            assert(cmd@ =~= setmotor_line(
                left_distance as int,
                right_distance as int,
                speed as int,
            ));
        }
        if !self.write_command(cmd.as_str()) {
            return Err(GetDataError::Io);
        }
        self.skip_echo_line();
        if !self.link.flush() {
            return Err(GetDataError::Io);
        }
        Ok(())
    }

    /// Sets the display backlight. Fire and forget: nothing is read
    /// back.
    pub fn set_backlight(&mut self, value: Toggle) -> (r: Result<(), GetDataError>)
        ensures
            final(self).link.written() == old(self).link.written() + encode_utf8(
                backlight_line(value),
            ),
            final(self).link.incoming() == old(self).link.incoming(),
            Self::same_cache(*final(self), *old(self)),
            r is Ok,
    {
        let mut cmd = String::from_str("setled backlight");
        let value_text = value.to_string();
        cmd.append(value_text.as_str());
        cmd.append("\n");
        proof {
            assert(cmd@ =~= backlight_line(value));
        }
        if !self.write_command(cmd.as_str()) {
            return Err(GetDataError::Io);
        }
        Ok(())
    }

    /// Shuts the robot down: rotation off strictly before test mode off,
    /// since test mode gates acceptance of the rotation command. The
    /// written transcript shows the two commands in exactly that order.
    pub fn exit(&mut self) -> (r: Result<(), GetDataError>)
        ensures
            final(self).link.written() == old(self).link.written() + encode_utf8(
                ldsrotation_line(Toggle::Off),
            ) + encode_utf8(testmode_line(Toggle::Off)),
            Self::same_cache(*final(self), *old(self)),
            match handshake_drop(skip_echo(old(self).link.incoming()), "testmode"@) {
                Ok(rest) => r is Ok && final(self).link.incoming() == rest,
                Err(e) => r == Err::<(), GetDataError>(e),
            },
    {
        match self.set_ldsrotation(Toggle::Off) {
            Err(e) => {
                return Err(e);
            },
            Ok(()) => {},
        }
        self.set_testmode(Toggle::Off)
    }
}

/// Reading one frame consumes at least one byte.
proof fn lemma_line_rest_shorter(bytes: Seq<u8>)
    requires
        line_ready(bytes),
    ensures
        line_rest(bytes).len() < bytes.len(),
{
    lemma_first_nl_idx_le(bytes);
}

impl<L: Link> DSeries<L> {
    /// Queries the motor status: writes the query, skips the echo,
    /// flushes, synchronizes on the response header, reads the twelve
    /// data lines and folds them. On success the new record replaces the
    /// cached snapshot.
    pub fn get_motors(&mut self) -> (r: Result<MotorStatus, GetDataError>)
        ensures
            final(self).link.written() == old(self).link.written() + encode_utf8(
                getmotors_line(),
            ),
            final(self).analog_sensor_status == old(self).analog_sensor_status,
            final(self).digital_sensor_status == old(self).digital_sensor_status,
            final(self).charger_status == old(self).charger_status,
            match query_session(old(self).link.incoming(), "Parameter,Value"@, 12) {
                Err(e) => r == Err::<MotorStatus, GetDataError>(e) && final(self).motor_status == old(
                    self,
                ).motor_status,
                Ok((ls, rest)) => {
                    &&& final(self).link.incoming() == rest
                    &&& if crate::status::int_lines_ok(ls) {
                        &&& r is Ok
                        &&& (r->Ok_0).spec_matches(ls)
                        &&& final(self).motor_status == r->Ok_0
                    } else {
                        &&& r == Err::<MotorStatus, GetDataError>(
                            GetDataError::spec_from_parse(crate::status::int_lines_err(ls)),
                        )
                        &&& final(self).motor_status == old(self).motor_status
                    }
                },
            },
    {
        if !self.write_command("getmotors\n\n") {
            return Err(GetDataError::Io);
        }
        self.skip_echo_line();
        if !self.link.flush() {
            return Err(GetDataError::Io);
        }
        match self.sync_on_header("Parameter,Value") {
            Err(e) => Err(e),
            Ok(()) => match self.read_data_lines(12) {
                Err(e) => Err(e),
                Ok(lines) => match MotorStatus::from_lines(&lines) {
                    Ok(st) => {
                        self.motor_status = st;
                        Ok(st)
                    },
                    Err(e) => Err(GetDataError::from_parse(e)),
                },
            },
        }
    }

    /// Queries the analog sensors: as `get_motors`, with thirteen
    /// unit-tagged float lines.
    pub fn get_analog_sensors(&mut self) -> (r: Result<AnalogSensorStatus, GetDataError>)
        ensures
            final(self).link.written() == old(self).link.written() + encode_utf8(
                getanalogsensors_line(),
            ),
            final(self).motor_status == old(self).motor_status,
            final(self).digital_sensor_status == old(self).digital_sensor_status,
            final(self).charger_status == old(self).charger_status,
            match query_session(old(self).link.incoming(), "SensorName,Unit,Value"@, 13) {
                Err(e) => r == Err::<AnalogSensorStatus, GetDataError>(e) && final(self).analog_sensor_status == old(
                    self,
                ).analog_sensor_status,
                Ok((ls, rest)) => {
                    &&& final(self).link.incoming() == rest
                    &&& if crate::status::unit_float_lines_ok(ls) {
                        &&& r is Ok
                        &&& (r->Ok_0).spec_matches(ls)
                        &&& final(self).analog_sensor_status == r->Ok_0
                    } else {
                        &&& r == Err::<AnalogSensorStatus, GetDataError>(
                            GetDataError::spec_from_parse(crate::status::unit_float_lines_err(ls)),
                        )
                        &&& final(self).analog_sensor_status == old(self).analog_sensor_status
                    }
                },
            },
    {
        if !self.write_command("getanalogsensors\n\n") {
            return Err(GetDataError::Io);
        }
        self.skip_echo_line();
        if !self.link.flush() {
            return Err(GetDataError::Io);
        }
        match self.sync_on_header("SensorName,Unit,Value") {
            Err(e) => Err(e),
            Ok(()) => match self.read_data_lines(13) {
                Err(e) => Err(e),
                Ok(lines) => match AnalogSensorStatus::from_lines(&lines) {
                    Ok(st) => {
                        self.analog_sensor_status = st.duplicate();
                        Ok(st)
                    },
                    Err(e) => Err(GetDataError::from_parse(e)),
                },
            },
        }
    }

    /// Queries the digital sensors: as `get_motors`, with nine boolean
    /// lines.
    pub fn get_digital_sensors(&mut self) -> (r: Result<DigitalSensorStatus, GetDataError>)
        ensures
            final(self).link.written() == old(self).link.written() + encode_utf8(
                getdigitalsensors_line(),
            ),
            final(self).motor_status == old(self).motor_status,
            final(self).analog_sensor_status == old(self).analog_sensor_status,
            final(self).charger_status == old(self).charger_status,
            match query_session(old(self).link.incoming(), "Digital Sensor Name, Value"@, 9) {
                Err(e) => r == Err::<DigitalSensorStatus, GetDataError>(e) && final(self).digital_sensor_status == old(
                    self,
                ).digital_sensor_status,
                Ok((ls, rest)) => {
                    &&& final(self).link.incoming() == rest
                    &&& if crate::status::int_lines_ok(ls) {
                        &&& r is Ok
                        &&& (r->Ok_0).spec_matches(ls)
                        &&& final(self).digital_sensor_status == r->Ok_0
                    } else {
                        &&& r == Err::<DigitalSensorStatus, GetDataError>(
                            GetDataError::spec_from_parse(crate::status::int_lines_err(ls)),
                        )
                        &&& final(self).digital_sensor_status == old(self).digital_sensor_status
                    }
                },
            },
    {
        if !self.write_command("getdigitalsensors\n\n") {
            return Err(GetDataError::Io);
        }
        self.skip_echo_line();
        if !self.link.flush() {
            return Err(GetDataError::Io);
        }
        match self.sync_on_header("Digital Sensor Name, Value") {
            Err(e) => Err(e),
            Ok(()) => match self.read_data_lines(9) {
                Err(e) => Err(e),
                Ok(lines) => match DigitalSensorStatus::from_lines(&lines) {
                    Ok(st) => {
                        self.digital_sensor_status = st;
                        Ok(st)
                    },
                    Err(e) => Err(GetDataError::from_parse(e)),
                },
            },
        }
    }

    /// Queries the charger status: as `get_motors`, with fourteen lines
    /// under the mixed decoding (integer first, plain float fallback).
    pub fn get_charger(&mut self) -> (r: Result<ChargerStatus, GetDataError>)
        ensures
            final(self).link.written() == old(self).link.written() + encode_utf8(
                getcharger_line(),
            ),
            final(self).motor_status == old(self).motor_status,
            final(self).analog_sensor_status == old(self).analog_sensor_status,
            final(self).digital_sensor_status == old(self).digital_sensor_status,
            match query_session(old(self).link.incoming(), "Label,Value"@, 14) {
                Err(e) => r == Err::<ChargerStatus, GetDataError>(e) && final(self).charger_status == old(
                    self,
                ).charger_status,
                Ok((ls, rest)) => {
                    &&& final(self).link.incoming() == rest
                    &&& if crate::status::charger_lines_ok(ls) {
                        &&& r is Ok
                        &&& (r->Ok_0).spec_matches(ls)
                        &&& final(self).charger_status == r->Ok_0
                    } else {
                        &&& r == Err::<ChargerStatus, GetDataError>(
                            GetDataError::spec_from_parse(crate::status::charger_lines_err(ls)),
                        )
                        &&& final(self).charger_status == old(self).charger_status
                    }
                },
            },
    {
        if !self.write_command("getcharger\n\n") {
            return Err(GetDataError::Io);
        }
        self.skip_echo_line();
        if !self.link.flush() {
            return Err(GetDataError::Io);
        }
        match self.sync_on_header("Label,Value") {
            Err(e) => Err(e),
            Ok(()) => match self.read_data_lines(14) {
                Err(e) => Err(e),
                Ok(lines) => match ChargerStatus::from_lines(&lines) {
                    Ok(st) => {
                        self.charger_status = st.duplicate();
                        Ok(st)
                    },
                    Err(e) => Err(GetDataError::from_parse(e)),
                },
            },
        }
    }
}

/// A scan response line that is skipped rather than parsed: a header
/// marker, or a line with fewer than two comma-separated tokens.
pub open spec fn scan_line_skipped(l: Seq<char>) -> bool {
    starts_with_sub(l, "ROTATION"@) || starts_with_sub(l, "Angle"@) || spec_split(l, ',').len()
        < 2
}

/// Whether a non-skipped scan line carries a range: its second
/// comma-separated token (taken verbatim, not trimmed) is a decimal
/// integer.
pub open spec fn scan_line_value_ok(l: Seq<char>) -> bool {
    !scan_line_skipped(l) && is_i32_token(spec_split(l, ',')[1])
}

/// The range of a scan data line, in millimeters.
pub open spec fn scan_line_value(l: Seq<char>) -> int {
    int_syntax_val(spec_split(l, ',')[1])
}

/// The count of response lines one scan is read as: a header line, one
/// line per degree, and a trailing line.
pub const SCAN_RESPONSE_LINES: usize = 362;

/// The scan acquisition over `k` response lines: skipped lines
/// contribute nothing, data lines contribute their millimeter ranges in
/// arrival order, and a data line whose range is not an integer aborts
/// the whole scan at once.
pub open spec fn scan_session(bytes: Seq<u8>, k: nat) -> Result<(Seq<int>, Seq<u8>), GetDataError>
    decreases k,
{
    if k == 0 {
        Ok((Seq::empty(), bytes))
    } else {
        match read_line_result(bytes) {
            Err(e) => Err(e),
            Ok(l) => {
                if scan_line_skipped(l) {
                    scan_session(line_rest(bytes), (k - 1) as nat)
                } else if is_i32_token(spec_split(l, ',')[1]) {
                    match scan_session(line_rest(bytes), (k - 1) as nat) {
                        Err(e) => Err(e),
                        Ok((vs, rest)) => Ok((seq![scan_line_value(l)] + vs, rest)),
                    }
                } else {
                    Err(GetDataError::ParseIntData)
                }
            },
        }
    }
}

impl<L: Link> DSeries<L> {
    /// Reads `line_count - 1` consecutive lines and joins them with a
    /// newline between consecutive lines (the join a block-reading query
    /// hands to a record's `from_str`).
    pub fn read_lines(&mut self, line_count: i32) -> (r: Result<String, GetDataError>)
        ensures
            final(self).link.written() == old(self).link.written(),
            Self::same_cache(*final(self), *old(self)),
            match frame_lines(
                old(self).link.incoming(),
                (if line_count <= 1 {
                    0
                } else {
                    line_count - 1
                }) as nat,
            ) {
                Ok((ls, rest)) => r is Ok && (r->Ok_0)@ == join_lines(ls)
                    && final(self).link.incoming() == rest,
                Err(e) => r == Err::<String, GetDataError>(e),
            },
    {
        let n: usize = if line_count <= 1 {
            0
        } else {
            (line_count - 1) as usize
        };
        match self.read_data_lines(n) {
            Err(e) => Err(e),
            Ok(lines) => {
                let joined = join_with_newlines(&lines);
                proof {
                    assert(Seq::new(lines@.len(), |i: int| lines@[i]@) =~= crate::status::views_of(
                        lines@,
                    ));
                }
                Ok(joined)
            },
        }
    }

    /// Collects the ranges of one scan: reads the fixed count of
    /// response lines, skipping header markers and too-short lines, and
    /// parses each remaining line's second token as an integer range in
    /// millimeters, in arrival order. A non-integer range aborts the
    /// scan at once with a parse error; nothing collected is returned.
    pub fn get_scan_ranges(&mut self) -> (r: Result<Vec<i32>, GetDataError>)
        ensures
            final(self).link.written() == old(self).link.written(),
            Self::same_cache(*final(self), *old(self)),
            match scan_session(old(self).link.incoming(), SCAN_RESPONSE_LINES as nat) {
                Ok((vs, rest)) => r is Ok && (r->Ok_0)@.len() == vs.len() && (forall|i: int|
                    0 <= i < vs.len() ==> (r->Ok_0)@[i] as int == vs[i])
                    && final(self).link.incoming() == rest,
                Err(e) => r == Err::<Vec<i32>, GetDataError>(e),
            },
    {
        let ghost bytes0 = self.link.incoming();
        let mut ranges: Vec<i32> = Vec::new();
        let ghost gvs: Seq<int> = Seq::empty();
        let mut i: usize = 0;
        proof {
            if let Ok((vs, rest)) = scan_session(bytes0, SCAN_RESPONSE_LINES as nat) {
                assert(gvs + vs =~= vs);
            }
        }
        while i < SCAN_RESPONSE_LINES
            invariant
                0 <= i <= SCAN_RESPONSE_LINES,
                self.link.written() == old(self).link.written(),
                Self::same_cache(*self, *old(self)),
                bytes0 == old(self).link.incoming(),
                gvs.len() == ranges@.len(),
                forall|k: int| 0 <= k < gvs.len() ==> ranges@[k] as int == gvs[k],
                scan_session(bytes0, SCAN_RESPONSE_LINES as nat) == (match scan_session(
                    self.link.incoming(),
                    (SCAN_RESPONSE_LINES - i) as nat,
                ) {
                    Ok((vs, rest)) => Ok::<(Seq<int>, Seq<u8>), GetDataError>((gvs + vs, rest)),
                    Err(e) => Err(e),
                }),
            decreases SCAN_RESPONSE_LINES - i,
        {
            match self.read_line() {
                Err(e) => {
                    return Err(e);
                },
                Ok(line) => {
                    let is_marker = str_starts_with(line.as_str(), "ROTATION") || str_starts_with(
                        line.as_str(),
                        "Angle",
                    );
                    if !is_marker {
                        let parts = split_on_char(line.as_str(), ',');
                        if parts.len() >= 2 {
                            match parse_i32(parts[1].as_str()) {
                                Some(range_mm) => {
                                    ranges.push(range_mm);
                                    proof {
                                        let gvs0 = gvs;
                                        gvs = gvs.push(range_mm as int);
                                        if let Ok((vs, rest)) = scan_session(
                                            self.link.incoming(),
                                            (SCAN_RESPONSE_LINES - i - 1) as nat,
                                        ) {
                                            assert(gvs0 + (seq![range_mm as int] + vs) =~= gvs
                                                + vs);
                                        }
                                    }
                                },
                                None => {
                                    return Err(GetDataError::ParseIntData);
                                },
                            }
                        }
                        // a line without a second token is logged and
                        // skipped, never fatal
                    }
                    i = i + 1;
                },
            }
        }
        Ok(ranges)
    }
}

/// Header synchronization discards unrelated lines: for any block of
/// scripted lines none of which contains the header, followed by one
/// line that does, synchronization consumes exactly the block and the
/// matching line, and the stream then stands at whatever follows — the
/// first data line read afterward is the first line of `rest`.
pub proof fn lemma_sync_discards_unrelated(
    noise: Seq<Seq<char>>,
    header_line: Seq<char>,
    header: Seq<char>,
    rest: Seq<u8>,
)
    requires
        forall|i: int|
            0 <= i < noise.len() ==> frameable(#[trigger] noise[i]) && !contains_sub(
                noise[i],
                header,
            ),
        frameable(header_line),
        contains_sub(header_line, header),
    ensures
        sync_drop(bytes_of_lines(noise.push(header_line)) + rest, header) == Ok::<
            Seq<u8>,
            GetDataError,
        >(rest),
    decreases noise.len(),
{
    reveal_with_fuel(bytes_of_lines, 3);
    let ls = noise.push(header_line);
    let bytes = bytes_of_lines(ls) + rest;
    if noise.len() == 0 {
        assert(ls[0] == header_line);
        assert(ls.skip(1) =~= Seq::<Seq<char>>::empty());
        assert(bytes =~= encode_utf8(header_line) + seq![NEWLINE_BYTE] + rest);
        lemma_frame_scripted(header_line, rest);
    } else {
        let first = ls[0];
        assert(first == noise[0]);
        let tail_lines = ls.skip(1);
        assert(tail_lines =~= noise.skip(1).push(header_line));
        let tail = bytes_of_lines(tail_lines) + rest;
        assert(bytes =~= encode_utf8(first) + seq![NEWLINE_BYTE] + tail);
        lemma_frame_scripted(first, tail);
        assert forall|i: int|
            0 <= i < noise.skip(1).len() implies frameable(#[trigger] noise.skip(1)[i])
            && !contains_sub(noise.skip(1)[i], header) by {
            assert(noise.skip(1)[i] == noise[i + 1]);
        }
        lemma_sync_discards_unrelated(noise.skip(1), header_line, header, rest);
    }
}

/// The millimeter values of a block of scan lines, in arrival order.
pub open spec fn scan_values(ls: Seq<Seq<char>>) -> Seq<int>
    decreases ls.len(),
{
    if ls.len() == 0 {
        Seq::empty()
    } else if scan_line_skipped(ls[0]) {
        scan_values(ls.skip(1))
    } else {
        seq![scan_line_value(ls[0])] + scan_values(ls.skip(1))
    }
}

/// A scan over a block of scripted lines that are each skipped or
/// well-formed succeeds, consumes them all, and yields their values.
proof fn lemma_scan_session_scripted(ls: Seq<Seq<char>>)
    requires
        forall|i: int| 0 <= i < ls.len() ==> frameable(#[trigger] ls[i]),
        forall|i: int|
            0 <= i < ls.len() ==> scan_line_skipped(#[trigger] ls[i]) || scan_line_value_ok(
                ls[i],
            ),
    ensures
        scan_session(bytes_of_lines(ls), ls.len()) == Ok::<(Seq<int>, Seq<u8>), GetDataError>(
            (scan_values(ls), Seq::empty()),
        ),
    decreases ls.len(),
{
    if ls.len() == 0 {
        assert(bytes_of_lines(ls) =~= Seq::<u8>::empty());
    } else {
        let first = ls[0];
        let tail_lines = ls.skip(1);
        let tail = bytes_of_lines(tail_lines);
        assert(bytes_of_lines(ls) =~= encode_utf8(first) + seq![NEWLINE_BYTE] + tail);
        assert(encode_utf8(first) + seq![NEWLINE_BYTE] + tail
            =~= encode_utf8(first) + seq![NEWLINE_BYTE] + (tail + Seq::<u8>::empty()));
        assert(tail + Seq::<u8>::empty() =~= tail);
        lemma_frame_scripted(first, tail);
        assert forall|i: int| 0 <= i < tail_lines.len() implies frameable(#[trigger] tail_lines[i])
            && (scan_line_skipped(tail_lines[i]) || scan_line_value_ok(tail_lines[i])) by {
            assert(tail_lines[i] == ls[i + 1]);
        }
        lemma_scan_session_scripted(tail_lines);
    }
}

/// Scan parsing: a scripted response of one leading header-marker line,
/// one well-formed `angle,mm` line per degree, and one trailing marker
/// line yields exactly the per-degree millimeter values, in input order;
/// the markers contribute nothing.
pub proof fn lemma_scan_parses_block(ls: Seq<Seq<char>>)
    requires
        ls.len() == SCAN_RESPONSE_LINES,
        forall|i: int| 0 <= i < ls.len() ==> frameable(#[trigger] ls[i]),
        scan_line_skipped(ls[0]),
        scan_line_skipped(ls[ls.len() - 1]),
        forall|i: int| 1 <= i < ls.len() - 1 ==> scan_line_value_ok(#[trigger] ls[i]),
    ensures
        scan_session(bytes_of_lines(ls), SCAN_RESPONSE_LINES as nat) == Ok::<
            (Seq<int>, Seq<u8>),
            GetDataError,
        >((scan_values(ls), Seq::empty())),
        scan_values(ls).len() == SCAN_RESPONSE_LINES - 2,
        forall|i: int|
            0 <= i < scan_values(ls).len() ==> scan_values(ls)[i] == scan_line_value(ls[i + 1]),
{
    assert forall|i: int|
        0 <= i < ls.len() implies scan_line_skipped(#[trigger] ls[i]) || scan_line_value_ok(
        ls[i],
    ) by {}
    reveal_with_fuel(scan_values, 3);
    lemma_scan_session_scripted(ls);
    let mid = ls.subrange(1, ls.len() - 1);
    assert(ls.skip(1) =~= mid.push(ls[ls.len() - 1]));
    assert forall|i: int| 0 <= i < mid.len() implies scan_line_value_ok(#[trigger] mid[i]) by {
        assert(mid[i] == ls[i + 1]);
    }
    lemma_scan_values_value_prefix(mid.push(ls[ls.len() - 1]), mid.len() as int);
    assert(mid.push(ls[ls.len() - 1]).skip(mid.len() as int) =~= seq![ls[ls.len() - 1]]);
    assert(scan_values(seq![ls[ls.len() - 1]]) =~= Seq::<int>::empty()) by {
        assert(seq![ls[ls.len() - 1]].skip(1) =~= Seq::<Seq<char>>::empty());
    }
    assert(scan_values(ls) == scan_values(mid.push(ls[ls.len() - 1])));
    assert(scan_values(ls) =~= Seq::new(mid.len(), |i: int| scan_line_value(mid[i])));
    assert forall|i: int|
        0 <= i < scan_values(ls).len() implies scan_values(ls)[i] == scan_line_value(
        ls[i + 1],
    ) by {
        assert(mid[i] == ls[i + 1]);
    }
}

/// The values of a block whose first `m` lines are all well-formed data
/// lines: those lines' values, then the values of the rest.
proof fn lemma_scan_values_value_prefix(ls: Seq<Seq<char>>, m: int)
    requires
        0 <= m <= ls.len(),
        forall|i: int| 0 <= i < m ==> scan_line_value_ok(#[trigger] ls[i]),
    ensures
        scan_values(ls) == Seq::new(m as nat, |i: int| scan_line_value(ls[i])) + scan_values(
            ls.skip(m),
        ),
    decreases m,
{
    if m == 0 {
        assert(ls.skip(0) =~= ls);
        assert(Seq::new(0, |i: int| scan_line_value(ls[i])) + scan_values(ls) =~= scan_values(
            ls,
        ));
    } else {
        assert(!scan_line_skipped(ls[0]));
        let t = ls.skip(1);
        assert forall|i: int| 0 <= i < m - 1 implies scan_line_value_ok(#[trigger] t[i]) by {
            assert(t[i] == ls[i + 1]);
        }
        lemma_scan_values_value_prefix(t, m - 1);
        assert(t.skip(m - 1) =~= ls.skip(m));
        assert(seq![scan_line_value(ls[0])] + (Seq::new((m - 1) as nat, |i: int| scan_line_value(
            t[i],
        )) + scan_values(ls.skip(m))) =~= Seq::new(m as nat, |i: int| scan_line_value(ls[i]))
            + scan_values(ls.skip(m)));
    }
}

} // verus!
