use neato_driver::{AnalogSensorStatus, ChargerStatus, DigitalSensorStatus, MotorStatus,
    ParseNumberError};

fn motor_lines() -> Vec<String> {
    vec![
        "Brush_RPM,1".to_owned(),
        "Brush_mA,2".to_owned(),
        "Vacuum_RPM,3".to_owned(),
        "Vacuum_mA,4".to_owned(),
        "LeftWheel_RPM,5".to_owned(),
        "LeftWheel_Load%,6".to_owned(),
        "LeftWheel_PositionInMM,7".to_owned(),
        "LeftWheel_Speed,8".to_owned(),
        "RightWheel_RPM,9".to_owned(),
        "RightWheel_Load%,10".to_owned(),
        "RightWheel_PositionInMM,11".to_owned(),
        "RightWheel_Speed,12".to_owned(),
    ]
}

fn check_motor_fields(st: &MotorStatus) {
    assert_eq!(st.brush_rpm, 1);
    assert_eq!(st.brush_ma, 2);
    assert_eq!(st.vacuum_rpm, 3);
    assert_eq!(st.vacuum_ma, 4);
    assert_eq!(st.left_wheel_rpm, 5);
    assert_eq!(st.left_wheel_load, 6);
    assert_eq!(st.left_wheel_position_in_mm, 7);
    assert_eq!(st.left_wheel_speed, 8);
    assert_eq!(st.right_wheel_rpm, 9);
    assert_eq!(st.right_wheel_load, 10);
    assert_eq!(st.right_wheel_position_in_mm, 11);
    assert_eq!(st.right_wheel_speed, 12);
    // no line bears this name, so it keeps the zero value
    assert_eq!(st.side_brush_ma, 0);
}

#[test]
fn motor_status_folds_the_twelve_documented_lines() {
    let st = MotorStatus::from_lines(&motor_lines()).unwrap();
    check_motor_fields(&st);
}

#[test]
fn motor_status_is_order_independent() {
    let mut lines = motor_lines();
    lines.reverse();
    let st = MotorStatus::from_lines(&lines).unwrap();
    check_motor_fields(&st);
}

#[test]
fn motor_status_ignores_unknown_names() {
    let mut lines = motor_lines();
    lines.insert(4, "SomethingElse,999".to_owned());
    let st = MotorStatus::from_lines(&lines).unwrap();
    check_motor_fields(&st);
}

#[test]
fn motor_status_from_str_splits_on_newlines() {
    let joined = motor_lines().join("\n");
    let st = MotorStatus::from_str(&joined).unwrap();
    check_motor_fields(&st);
    // empty segments (as a trailing newline leaves) are skipped
    let st2 = MotorStatus::from_str(&format!("{}\n", joined)).unwrap();
    check_motor_fields(&st2);
}

#[test]
fn motor_status_last_occurrence_wins() {
    let mut lines = motor_lines();
    lines.push("Brush_RPM,77".to_owned());
    let st = MotorStatus::from_lines(&lines).unwrap();
    assert_eq!(st.brush_rpm, 77);
}

#[test]
fn motor_status_bad_line_is_fatal() {
    let mut lines = motor_lines();
    lines[3] = "Vacuum_mA,abc".to_owned();
    assert_eq!(MotorStatus::from_lines(&lines).unwrap_err(), ParseNumberError::ParseInt);
    lines[3] = "nocomma".to_owned();
    assert_eq!(MotorStatus::from_lines(&lines).unwrap_err(), ParseNumberError::Shape);
}

#[test]
fn digital_status_folds_bits() {
    let lines: Vec<String> = vec![
        "SNSR_DC_JACK_IS_IN,0".to_owned(),
        "SNSR_DUSTBIN_IS_IN,1".to_owned(),
        "SNSR_LEFT_WHEEL_EXTENDED,0".to_owned(),
        "SNSR_RIGHT_WHEEL_EXTENDED,0".to_owned(),
        "LSIDEBIT,1".to_owned(),
        "LFRONTBIT,0".to_owned(),
        "LLDSBIT,2".to_owned(),
        "RSIDEBIT,0".to_owned(),
        "RFRONTBIT,1".to_owned(),
    ];
    let st = DigitalSensorStatus::from_lines(&lines).unwrap();
    assert!(!st.sensor_dc_jack_is_in);
    assert!(st.sensor_dustbin_is_in);
    assert!(!st.sensor_left_wheel_extended);
    assert!(!st.sensor_right_wheel_extended);
    assert!(st.left_sidebit);
    assert!(!st.left_frontbit);
    // the wire value 2 decodes to false, not an error
    assert!(!st.left_ldsbit);
    assert!(!st.right_sidebit);
    assert!(st.right_frontbit);
    // never mentioned: stays false
    assert!(!st.right_ldsbit);
}

#[test]
fn analog_status_keeps_value_text_and_drops_units() {
    let lines: Vec<String> = vec![
        "BatteryVoltage,mV, 12.4".to_owned(),
        "BatteryTemperature,mC,23.5".to_owned(),
        "AccelerometerX,mG,-3".to_owned(),
    ];
    let st = AnalogSensorStatus::from_lines(&lines).unwrap();
    assert_eq!(st.battery_voltage, "12.4");
    assert_eq!(st.battery_voltage.parse::<f32>().unwrap(), 12.4f32);
    assert_eq!(st.battery_temperature, "23.5");
    assert_eq!(st.accelerometer_x, "-3");
    // untouched fields keep the zero text
    assert_eq!(st.battery_current, "0");
}

#[test]
fn analog_status_bad_float_is_fatal() {
    let lines: Vec<String> = vec!["BatteryVoltage,mV,oops".to_owned()];
    assert_eq!(
        AnalogSensorStatus::from_lines(&lines).unwrap_err(),
        ParseNumberError::ParseFloat
    );
}

#[test]
fn charger_status_mixes_integers_and_float_fallback() {
    let lines: Vec<String> = vec![
        "FuelPercent,93".to_owned(),
        "BatteryOverTemp,0".to_owned(),
        "VBattV,12.4".to_owned(),
        "VExtV,0.9".to_owned(),
        "Charger_mAH,1500".to_owned(),
    ];
    let st = ChargerStatus::from_lines(&lines).unwrap();
    assert_eq!(st.fuel_percent, 93);
    assert_eq!(st.battery_over_tmp, 0);
    assert_eq!(st.v_batt_v_v, "12.4");
    assert_eq!(st.v_ext_v, "0.9");
    assert_eq!(st.charger_mah, 1500);
    assert_eq!(st.discharge_mah, 0);
}

#[test]
fn charger_integer_valued_float_name_is_ignored_by_the_int_decoder() {
    // "VBattV,12" decodes as an integer, whose name table has no VBattV:
    // the line is a recognized but unmapped condition
    let lines: Vec<String> = vec!["VBattV,12".to_owned()];
    let st = ChargerStatus::from_lines(&lines).unwrap();
    assert_eq!(st.v_batt_v_v, "0");
}

#[test]
fn charger_line_failing_both_decoders_is_fatal() {
    let lines: Vec<String> = vec!["FuelPercent,93".to_owned(), "VBattV,garbage".to_owned()];
    assert_eq!(ChargerStatus::from_lines(&lines).unwrap_err(), ParseNumberError::ParseFloat);
    let lines2: Vec<String> = vec!["nocomma".to_owned()];
    assert_eq!(ChargerStatus::from_lines(&lines2).unwrap_err(), ParseNumberError::Shape);
}

#[test]
fn statuses_start_empty() {
    let m = MotorStatus::default();
    assert_eq!(m.brush_rpm, 0);
    assert_eq!(m.side_brush_ma, 0);
    let d = DigitalSensorStatus::default();
    assert!(!d.left_sidebit);
    let a = AnalogSensorStatus::default();
    assert_eq!(a.wall_sensor, "0");
    let c = ChargerStatus::default();
    assert_eq!(c.fuel_percent, 0);
    assert_eq!(c.v_ext_v, "0");
}
