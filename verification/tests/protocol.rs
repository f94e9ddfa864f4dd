use neato_driver::{DSeries, GetDataError, ReplayLink, Toggle};

fn robot_with_lines(lines: &[&str]) -> DSeries<ReplayLink> {
    let mut link = ReplayLink::new(Vec::new());
    for l in lines {
        link.script_line(l);
    }
    DSeries::new(link)
}

fn written(robot: &DSeries<ReplayLink>) -> String {
    String::from_utf8(robot.link.output.clone()).unwrap()
}

#[test]
fn read_line_returns_one_line_without_its_newline() {
    let mut robot = robot_with_lines(&["hello", "world"]);
    assert_eq!(robot.read_line().unwrap(), "hello");
    assert_eq!(robot.read_line().unwrap(), "world");
    assert_eq!(robot.read_line().unwrap_err(), GetDataError::Io);
}

#[test]
fn read_line_truncates_at_the_byte_cap() {
    let long = "a".repeat(120);
    let mut robot = robot_with_lines(&[&long, "next"]);
    // the first read stops at 99 bytes; the line's tail and newline stay
    let first = robot.read_line().unwrap();
    assert_eq!(first, "a".repeat(99));
    let second = robot.read_line().unwrap();
    assert_eq!(second, "a".repeat(21));
    assert_eq!(robot.read_line().unwrap(), "next");
}

#[test]
fn read_line_decodes_utf8_and_rejects_invalid_bytes() {
    let mut link = ReplayLink::new(Vec::new());
    link.script_line("température");
    // an invalid UTF-8 sequence, newline-terminated
    link.input.extend_from_slice(&[0xff, 0xfe, 0x0a]);
    let mut robot = DSeries::new(link);
    assert_eq!(robot.read_line().unwrap(), "température");
    assert_eq!(robot.read_line().unwrap_err(), GetDataError::Parse);
}

#[test]
fn read_lines_joins_with_newlines() {
    let mut robot = robot_with_lines(&["a", "b", "c", "d"]);
    assert_eq!(robot.read_lines(4).unwrap(), "a\nb\nc");
    assert_eq!(robot.read_lines(1).unwrap(), "");
    assert_eq!(robot.read_lines(0).unwrap(), "");
}

#[test]
fn set_testmode_polls_until_the_keyword_echoes() {
    let mut robot = robot_with_lines(&["noise", "more noise", "testmode on"]);
    robot.set_testmode(Toggle::On).unwrap();
    assert_eq!(written(&robot), "testmode on\n");
    // the three scripted lines were consumed
    assert_eq!(robot.read_line().unwrap_err(), GetDataError::Io);
}

#[test]
fn set_testmode_times_out_when_no_echo_confirms() {
    let mut robot = robot_with_lines(&["noise", "still nothing"]);
    assert_eq!(robot.set_testmode(Toggle::On).unwrap_err(), GetDataError::SyncTimeout);
}

#[test]
fn set_ldsrotation_writes_and_skips_one_echo() {
    let mut robot = robot_with_lines(&["setldsrotation on", "leftover"]);
    robot.set_ldsrotation(Toggle::On).unwrap();
    assert_eq!(written(&robot), "setldsrotation on\n");
    assert_eq!(robot.read_line().unwrap(), "leftover");
}

#[test]
fn request_scan_writes_the_request() {
    let mut robot = robot_with_lines(&["getldsscan"]);
    robot.request_scan().unwrap();
    assert_eq!(written(&robot), "getldsscan\n");
}

#[test]
fn set_motors_writes_three_integers() {
    let mut robot = robot_with_lines(&["echo"]);
    robot.set_motors(20, 20, 10).unwrap();
    assert_eq!(written(&robot), "setmotor 20 20 10\n\n");
}

#[test]
fn set_motors_passes_negative_distances_verbatim() {
    let mut robot = robot_with_lines(&["echo"]);
    robot.set_motors(-20, -20, 10).unwrap();
    assert_eq!(written(&robot), "setmotor -20 -20 10\n\n");
}

#[test]
fn set_backlight_writes_and_reads_nothing() {
    let mut robot = robot_with_lines(&["untouched"]);
    robot.set_backlight(Toggle::Off).unwrap();
    robot.set_backlight(Toggle::On).unwrap();
    assert_eq!(written(&robot), "setled backlightoff\nsetled backlighton\n");
    assert_eq!(robot.read_line().unwrap(), "untouched");
}

#[test]
fn get_motors_syncs_on_the_header_and_folds_twelve_lines() {
    let mut robot = robot_with_lines(&[
        "getmotors",
        "noise",
        "more noise",
        "Parameter,Value",
        "Brush_RPM,100",
        "Brush_mA,2",
        "Vacuum_RPM,3",
        "Vacuum_mA,4",
        "LeftWheel_RPM,5",
        "LeftWheel_Load%,6",
        "LeftWheel_PositionInMM,7",
        "LeftWheel_Speed,8",
        "RightWheel_RPM,9",
        "RightWheel_Load%,10",
        "RightWheel_PositionInMM,11",
        "RightWheel_Speed,12",
    ]);
    let st = robot.get_motors().unwrap();
    assert_eq!(written(&robot), "getmotors\n\n");
    // the two unrelated lines before the header were discarded silently
    assert_eq!(st.brush_rpm, 100);
    assert_eq!(st.right_wheel_speed, 12);
    assert_eq!(st.side_brush_ma, 0);
    // the snapshot was replaced
    assert_eq!(robot.motor_status, st);
}

#[test]
fn get_motors_fails_when_the_link_gives_out_before_the_header() {
    let mut robot = robot_with_lines(&["echo", "noise"]);
    assert_eq!(robot.get_motors().unwrap_err(), GetDataError::Io);
}

#[test]
fn get_motors_propagates_decoder_errors() {
    let mut robot = robot_with_lines(&[
        "echo",
        "Parameter,Value",
        "Brush_RPM,abc",
        "b,2",
        "c,3",
        "d,4",
        "e,5",
        "f,6",
        "g,7",
        "h,8",
        "i,9",
        "j,10",
        "k,11",
        "l,12",
    ]);
    assert_eq!(robot.get_motors().unwrap_err(), GetDataError::ParseIntData);
    let mut robot2 = robot_with_lines(&[
        "echo",
        "Parameter,Value",
        "nocomma",
        "b,2",
        "c,3",
        "d,4",
        "e,5",
        "f,6",
        "g,7",
        "h,8",
        "i,9",
        "j,10",
        "k,11",
        "l,12",
    ]);
    assert_eq!(robot2.get_motors().unwrap_err(), GetDataError::Shape);
}

#[test]
fn get_analog_sensors_folds_thirteen_lines() {
    let mut robot = robot_with_lines(&[
        "getanalogsensors",
        "SensorName,Unit,Value",
        "BatteryVoltage,mV,12.4",
        "BatteryCurrent,mA,300",
        "BatteryTemperature,mC,25.1",
        "ExternalVoltage,mV,0.5",
        "AccelerometerX,mG,1",
        "AccelerometerY,mG,2",
        "AccelerometerZ,mG,3",
        "VacuumCurrent,mA,4",
        "SideBrushCurrent,mA,5",
        "MagSensorLeft,VAL,6",
        "MagSensorRight,VAL,7",
        "WallSensor,mm,8",
        "DropSensorLeft,mm,9",
    ]);
    let st = robot.get_analog_sensors().unwrap();
    assert_eq!(written(&robot), "getanalogsensors\n\n");
    assert_eq!(st.battery_voltage, "12.4");
    assert_eq!(st.drop_sensor_left, "9");
    assert_eq!(st.drop_sensor_right, "0");
    assert_eq!(robot.analog_sensor_status.wall_sensor, "8");
}

#[test]
fn get_analog_sensors_propagates_float_errors() {
    let mut robot = robot_with_lines(&[
        "echo",
        "SensorName,Unit,Value",
        "BatteryVoltage,mV,notafloat",
        "a,b,1",
        "a,b,1",
        "a,b,1",
        "a,b,1",
        "a,b,1",
        "a,b,1",
        "a,b,1",
        "a,b,1",
        "a,b,1",
        "a,b,1",
        "a,b,1",
        "a,b,1",
    ]);
    assert_eq!(robot.get_analog_sensors().unwrap_err(), GetDataError::ParseFloatData);
}

#[test]
fn get_digital_sensors_folds_nine_lines() {
    let mut robot = robot_with_lines(&[
        "getdigitalsensors",
        "Digital Sensor Name, Value",
        "SNSR_DC_JACK_IS_IN,0",
        "SNSR_DUSTBIN_IS_IN,1",
        "SNSR_LEFT_WHEEL_EXTENDED,0",
        "SNSR_RIGHT_WHEEL_EXTENDED,0",
        "LSIDEBIT,1",
        "LFRONTBIT,0",
        "LLDSBIT,1",
        "RSIDEBIT,0",
        "RFRONTBIT,0",
    ]);
    let st = robot.get_digital_sensors().unwrap();
    assert_eq!(written(&robot), "getdigitalsensors\n\n");
    assert!(st.sensor_dustbin_is_in);
    assert!(st.left_sidebit);
    assert!(!st.right_sidebit);
    assert_eq!(robot.digital_sensor_status, st);
}

#[test]
fn get_charger_folds_fourteen_lines_with_fallback() {
    let mut robot = robot_with_lines(&[
        "getcharger",
        "Label,Value",
        "FuelPercent,93",
        "BatteryOverTemp,0",
        "ChargingActive,0",
        "ChargingEnabled,1",
        "ConfidentOnFuel,1",
        "OnReservedFuel,0",
        "EmptyFuel,0",
        "BatteryFailure,0",
        "ExtPwrPresent,1",
        "ThermistorPresent,1",
        "BattTempCAvg,24",
        "VBattV,12.4",
        "VExtV,0.9",
        "Charger_mAH,1500",
    ]);
    let st = robot.get_charger().unwrap();
    assert_eq!(written(&robot), "getcharger\n\n");
    assert_eq!(st.fuel_percent, 93);
    assert_eq!(st.batt_temp_c_avg, 24);
    assert_eq!(st.v_batt_v_v, "12.4");
    assert_eq!(st.v_ext_v, "0.9");
    assert_eq!(st.charger_mah, 1500);
    assert_eq!(robot.charger_status.fuel_percent, 93);
}

#[test]
fn exit_turns_rotation_off_strictly_before_test_mode() {
    let mut robot = robot_with_lines(&["setldsrotation off", "testmode off"]);
    robot.exit().unwrap();
    let transcript = written(&robot);
    assert_eq!(transcript, "setldsrotation off\ntestmode off\n");
    let rotation_at = transcript.find("setldsrotation off").unwrap();
    let testmode_at = transcript.find("testmode off").unwrap();
    assert!(rotation_at < testmode_at);
}

#[test]
fn exit_reports_a_timeout_when_test_mode_never_confirms() {
    let mut robot = robot_with_lines(&["echo line"]);
    assert_eq!(robot.exit().unwrap_err(), GetDataError::SyncTimeout);
    // both commands were still written, in order
    assert_eq!(written(&robot), "setldsrotation off\ntestmode off\n");
}

#[test]
fn error_descriptions_are_nonempty() {
    for e in [
        GetDataError::Io,
        GetDataError::Parse,
        GetDataError::ParseIntData,
        GetDataError::ParseFloatData,
        GetDataError::Shape,
        GetDataError::SyncTimeout,
    ] {
        assert!(!e.describe().is_empty());
    }
}
