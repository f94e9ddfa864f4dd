use neato_driver::{DSeries, GetDataError, ReplayLink};

fn robot_with_lines(lines: &[String]) -> DSeries<ReplayLink> {
    let mut link = ReplayLink::new(Vec::new());
    for l in lines {
        link.script_line(l);
    }
    DSeries::new(link)
}

fn scan_block() -> Vec<String> {
    let mut lines = vec!["AngleInDegrees,DistInMM,Intensity,ErrorCodeHEX".to_owned()];
    for angle in 0..360 {
        lines.push(format!("{},{}", angle, 1000 + angle));
    }
    lines.push("ROTATION_SPEED,5.0".to_owned());
    lines
}

#[test]
fn scan_yields_360_ranges_in_order() {
    let mut robot = robot_with_lines(&scan_block());
    let ranges = robot.get_scan_ranges().unwrap();
    assert_eq!(ranges.len(), 360);
    for (i, mm) in ranges.iter().enumerate() {
        assert_eq!(*mm, 1000 + i as i32);
    }
    // millimeters convert to meters outside the driver
    assert_eq!(ranges[0] as f32 / 1000.0, 1.0f32);
    assert_eq!(ranges[359] as f32 / 1000.0, 1.359f32);
}

#[test]
fn scan_skips_markers_anywhere_and_short_lines() {
    let mut lines = scan_block();
    // replace a data line with a short one: logged and skipped, not fatal
    lines[5] = "noseparator".to_owned();
    let mut robot = robot_with_lines(&lines);
    let ranges = robot.get_scan_ranges().unwrap();
    assert_eq!(ranges.len(), 359);
    assert_eq!(ranges[0], 1000);
    // the line for angle 4 was replaced; angle 5 follows angle 3
    assert_eq!(ranges[4], 1005);
}

#[test]
fn scan_aborts_on_a_non_integer_range() {
    let mut lines = scan_block();
    lines[10] = "9,notanumber".to_owned();
    let mut robot = robot_with_lines(&lines);
    assert_eq!(robot.get_scan_ranges().unwrap_err(), GetDataError::ParseIntData);
}

#[test]
fn scan_range_tokens_are_not_trimmed() {
    // the scan parser takes the second token verbatim: a padded number
    // is not an integer there
    let mut lines = scan_block();
    lines[10] = "9, 1009".to_owned();
    let mut robot = robot_with_lines(&lines);
    assert_eq!(robot.get_scan_ranges().unwrap_err(), GetDataError::ParseIntData);
}

#[test]
fn scan_fails_when_lines_run_out() {
    let mut lines = scan_block();
    lines.truncate(100);
    let mut robot = robot_with_lines(&lines);
    assert_eq!(robot.get_scan_ranges().unwrap_err(), GetDataError::Io);
}
