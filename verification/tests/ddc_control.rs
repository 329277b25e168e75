use snaprs::pipeline::{sample_budget, take_samples, DdcCmd, DdcControl, RecvCmd, DEFAULT_LO_CH};

#[test]
fn first_tuning_command_sets_channel() {
    assert_eq!(DdcControl::from_first_cmd(DdcCmd::LoCh(-7)).lo_ch, -7);
}

#[test]
fn first_stop_gives_default_channel() {
    assert_eq!(DEFAULT_LO_CH, 1024);
    assert_eq!(DdcControl::from_first_cmd(DdcCmd::Destroy).lo_ch, DEFAULT_LO_CH);
}

#[test]
fn last_tuning_wins() {
    let mut c = DdcControl::from_first_cmd(DdcCmd::LoCh(1));
    assert!(c.handle(DdcCmd::LoCh(300)));
    assert!(c.handle(DdcCmd::LoCh(512)));
    assert_eq!(c.lo_ch, 512);
}

#[test]
fn stop_keeps_channel() {
    let mut c = DdcControl::from_first_cmd(DdcCmd::LoCh(33));
    assert!(!c.handle(DdcCmd::Destroy));
    assert_eq!(c.lo_ch, 33);
}

#[test]
fn recv_cmd_compares() {
    assert_eq!(RecvCmd::Destroy, RecvCmd::Destroy);
}

#[test]
fn sample_budget_in_samples() {
    assert_eq!(sample_budget(Some(3)), Some(3_000_000));
    assert_eq!(sample_budget(None), None);
}

#[test]
fn take_samples_within_budget() {
    assert_eq!(take_samples(None, 512), (512, None));
    assert_eq!(take_samples(Some(1000), 512), (512, Some(488)));
    assert_eq!(take_samples(Some(100), 512), (100, Some(0)));
    assert_eq!(take_samples(Some(0), 512), (0, Some(0)));
}

#[test]
fn capture_stops_at_budget() {
    let mut budget = Some(1300usize);
    let mut written = 0;
    loop {
        let (n, rest) = take_samples(budget, 512);
        if n == 0 {
            break;
        }
        written += n;
        budget = rest;
    }
    assert_eq!(written, 1300);
    assert_eq!(budget, Some(0));
}
