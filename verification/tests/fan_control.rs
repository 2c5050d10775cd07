use nvidia_curves::curves::CurvePoint;
use nvidia_curves::fan_control::{FanCommand, FanControl};

fn curve(points: &[(u32, u32)]) -> Vec<CurvePoint> {
    points
        .iter()
        .map(|&(t, s)| CurvePoint::new(t, s).expect("test curve points are valid"))
        .collect()
}

#[test]
fn select_speed_takes_the_last_qualifying_point() {
    let c = curve(&[(50, 35), (60, 40), (65, 45), (70, 50)]);
    assert_eq!(FanControl::select_speed(c.as_slice(), 62), Some(40));
    assert_eq!(FanControl::select_speed(c.as_slice(), 49), None);
    assert_eq!(FanControl::select_speed(c.as_slice(), 100), Some(50));
}

#[test]
fn select_speed_on_boundaries_and_unsorted_curves() {
    let c = curve(&[(50, 35), (60, 40)]);
    assert_eq!(FanControl::select_speed(c.as_slice(), 50), Some(35));
    assert_eq!(FanControl::select_speed(c.as_slice(), 60), Some(40));
    assert_eq!(FanControl::select_speed(&[], 90), None);
    // order-dependent, not threshold-sorted: the later point wins
    let unsorted = curve(&[(70, 50), (50, 35)]);
    assert_eq!(FanControl::select_speed(unsorted.as_slice(), 80), Some(35));
}

#[test]
fn applying_the_same_speed_twice_writes_once() {
    let mut control = FanControl::new();
    let first = control.set_control_speed(Some(65), 2);
    assert_eq!(first, vec![FanCommand::SetSpeed(0, 65), FanCommand::SetSpeed(1, 65)]);
    let second = control.set_control_speed(Some(65), 2);
    assert_eq!(second, vec![]);
}

#[test]
fn auto_to_auto_issues_no_commands() {
    let mut control = FanControl::new();
    let cmds = control.set_control_speed(None, 3);
    assert_eq!(cmds, vec![]);
}

#[test]
fn pinned_to_auto_resets_every_fan() {
    let mut control = FanControl::new();
    let _ = control.set_control_speed(Some(40), 2);
    let cmds = control.set_control_speed(None, 2);
    assert_eq!(cmds, vec![FanCommand::ResetSpeed(0), FanCommand::ResetSpeed(1)]);
}

#[test]
fn changing_pinned_speed_rewrites_without_reset() {
    let mut control = FanControl::new();
    let _ = control.set_control_speed(Some(40), 1);
    let cmds = control.set_control_speed(Some(55), 1);
    assert_eq!(cmds, vec![FanCommand::SetSpeed(0, 55)]);
}

#[test]
fn tick_sequence_issues_one_set_and_one_reset() {
    let c = curve(&[
        (50, 35),
        (60, 40),
        (65, 45),
        (70, 50),
        (75, 55),
        (80, 65),
        (85, 75),
        (90, 90),
    ]);
    let mut control = FanControl::new();
    let mut sets = 0;
    let mut resets = 0;
    for temp in [80, 80, 20] {
        let cmds = control.update_fan_speed(c.as_slice(), temp, 1);
        for cmd in cmds {
            match cmd {
                FanCommand::SetSpeed(fan, speed) => {
                    assert_eq!((fan, speed), (0, 65));
                    sets += 1;
                }
                FanCommand::ResetSpeed(fan) => {
                    assert_eq!(fan, 0);
                    resets += 1;
                }
            }
        }
    }
    assert_eq!(sets, 1);
    assert_eq!(resets, 1);
}
