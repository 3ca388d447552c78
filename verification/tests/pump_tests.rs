use pty_core::pump::{pump_run, OutputPump, PumpEvent, ReadOutcome};

fn outputs(events: &[PumpEvent]) -> Vec<String> {
    let mut r = Vec::new();
    for e in events {
        if let PumpEvent::Output(t) = e {
            r.push(t.clone());
        }
    }
    r
}

fn exit_count(events: &[PumpEvent]) -> usize {
    events.iter().filter(|e| matches!(e, PumpEvent::Exit)).count()
}

#[test]
fn two_writes_observed_in_order() {
    let reads = vec![
        ReadOutcome::Data(b"A".to_vec()),
        ReadOutcome::Data(b"B".to_vec()),
        ReadOutcome::Eof,
    ];
    let events = pump_run(&reads);
    assert_eq!(outputs(&events), vec!["A".to_string(), "B".to_string()]);
    assert_eq!(exit_count(&events), 1);
    assert!(matches!(events.last().unwrap(), PumpEvent::Exit));
}

#[test]
fn exactly_one_exit_on_eof() {
    let events = pump_run(&vec![ReadOutcome::Data(b"hi".to_vec()), ReadOutcome::Eof]);
    assert_eq!(exit_count(&events), 1);
    assert!(matches!(events.last().unwrap(), PumpEvent::Exit));
}

#[test]
fn exactly_one_exit_on_read_error() {
    let events = pump_run(&vec![ReadOutcome::Data(b"hi".to_vec()), ReadOutcome::Failed]);
    assert_eq!(outputs(&events), vec!["hi".to_string()]);
    assert_eq!(exit_count(&events), 1);
}

#[test]
fn exactly_one_exit_when_stream_just_stops() {
    let events = pump_run(&vec![ReadOutcome::Data(b"hi".to_vec())]);
    assert_eq!(outputs(&events), vec!["hi".to_string()]);
    assert_eq!(exit_count(&events), 1);
    let events = pump_run(&Vec::new());
    assert_eq!(events.len(), 1);
    assert!(matches!(events[0], PumpEvent::Exit));
}

#[test]
fn split_char_is_one_event() {
    let reads = vec![
        ReadOutcome::Data(vec![0xE2, 0x82]),
        ReadOutcome::Data(vec![0xAC]),
        ReadOutcome::Eof,
    ];
    let events = pump_run(&reads);
    assert_eq!(outputs(&events), vec!["€".to_string()]);
    assert_eq!(exit_count(&events), 1);
}

#[test]
fn invalid_byte_then_ascii_is_one_event() {
    let reads = vec![ReadOutcome::Data(vec![0xFF, b'h', b'i']), ReadOutcome::Eof];
    let events = pump_run(&reads);
    assert_eq!(outputs(&events), vec!["\u{FFFD}hi".to_string()]);
}

#[test]
fn dangling_tail_flushed_before_exit() {
    let reads = vec![ReadOutcome::Data(vec![0xE2, 0x82]), ReadOutcome::Eof];
    let events = pump_run(&reads);
    assert_eq!(outputs(&events), vec!["\u{FFFD}".to_string()]);
    assert_eq!(exit_count(&events), 1);
}

#[test]
fn on_read_steps_match_run() {
    let mut pump = OutputPump::new();
    let step = pump.on_read(&ReadOutcome::Data(vec![0xE2, 0x82]));
    assert!(step.text.is_none());
    assert!(!step.exit);
    let step = pump.on_read(&ReadOutcome::Data(vec![0xAC, b'!']));
    assert_eq!(step.text.unwrap(), "€!");
    assert!(!step.exit);
    let step = pump.on_read(&ReadOutcome::Eof);
    assert!(step.text.is_none());
    assert!(step.exit);
}
