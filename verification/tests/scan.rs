use portcall::link::{after_forward, after_read, ReadOutcome, ReaderAction};
use portcall::scan::{
    opening_rate, BaudScan, ScanAction, ScanEvent, Window, BAUD_CANDIDATES, DETECT_MAX_BYTES,
};

/// 100 bytes with a line end, `text` of them text-like.
fn sample(text: usize) -> Vec<u8> {
    let mut out = vec![b'x'; text];
    if text > 0 {
        out[0] = b'\n';
    }
    out.resize(100, 0xFF);
    out
}

/// Runs a scan over what each candidate hears; `None` where the port does not take the rate.
fn run(heard: &[Option<Vec<u8>>]) -> (Vec<(u32, u32)>, Option<u32>) {
    let mut scan = BaudScan::new();
    let mut reports = Vec::new();
    let mut step = scan.step(&ScanEvent::Opened);
    for (i, sample) in heard.iter().enumerate() {
        assert!(matches!(step.action, ScanAction::TryRate(rate) if rate == BAUD_CANDIDATES[i]));
        step = match sample {
            Some(bytes) => scan.step(&ScanEvent::Heard(bytes.clone())),
            None => scan.step(&ScanEvent::RateRejected),
        };
        assert_eq!(step.report.is_some(), sample.is_some());
        if let Some(update) = &step.report {
            reports.push((update.rate, update.score.hundredths()));
        }
    }
    match step.action {
        ScanAction::Finish(found) => (reports, found),
        ScanAction::TryRate(_) => panic!("not finished"),
    }
}

#[test]
fn candidates() {
    assert_eq!(
        BAUD_CANDIDATES,
        [9600, 19200, 38400, 57600, 115200, 230400, 460800, 921600]
    );
    assert_eq!(opening_rate(), 9600);
}

#[test]
fn best_match_wins() {
    let heard: Vec<Option<Vec<u8>>> =
        [10, 86, 95, 20, 99, 90, 0, 84].iter().map(|&n| Some(sample(n))).collect();
    let (reports, found) = run(&heard);
    assert_eq!(found, Some(115200));
    assert_eq!(reports.len(), 8);
    assert_eq!(reports[1], (19200, 86));
    assert_eq!(reports[4], (115200, 99));
}

#[test]
fn slowest_of_equal_matches_wins() {
    let heard: Vec<Option<Vec<u8>>> =
        [0, 90, 90, 90, 0, 0, 0, 90].iter().map(|&n| Some(sample(n))).collect();
    assert_eq!(run(&heard).1, Some(19200));
}

#[test]
fn threshold_itself_is_a_match() {
    let mut heard: Vec<Option<Vec<u8>>> = vec![Some(sample(84)); 8];
    assert_eq!(run(&heard).1, None);
    heard[6] = Some(sample(85));
    assert_eq!(run(&heard).1, Some(460800));
}

#[test]
fn rejected_rates_are_passed_over() {
    let mut heard: Vec<Option<Vec<u8>>> = vec![None; 8];
    assert_eq!(run(&heard), (vec![], None));
    heard[7] = Some(sample(100));
    assert_eq!(run(&heard), (vec![(921600, 100)], Some(921600)));
}

#[test]
fn scan_without_a_port_finds_nothing() {
    let mut scan = BaudScan::new();
    let step = scan.step(&ScanEvent::OpenFailed);
    assert!(step.report.is_none());
    assert!(matches!(step.action, ScanAction::Finish(None)));
}

#[test]
fn events_after_the_end_change_nothing() {
    let mut scan = BaudScan::new();
    for _ in 0..8 {
        scan.step(&ScanEvent::RateRejected);
    }
    let step = scan.step(&ScanEvent::Heard(sample(100)));
    assert!(step.report.is_none());
    assert!(matches!(step.action, ScanAction::Finish(None)));
    let step = scan.step(&ScanEvent::RateRejected);
    assert!(matches!(step.action, ScanAction::Finish(None)));
}

#[test]
fn window_collects_reads() {
    let window = Window::new();
    assert!(window.wants_more(true));
    assert!(!window.wants_more(false));
    assert_eq!(window.next_read(), 256);
    let (window, open) = window.on_read(&ReadOutcome::Bytes(b"ab".to_vec()));
    assert!(open);
    let (window, open) = window.on_read(&ReadOutcome::TimedOut);
    assert!(open);
    let (window, open) = window.on_read(&ReadOutcome::Bytes(b"c".to_vec()));
    assert!(open);
    let (window, open) = window.on_read(&ReadOutcome::Bytes(Vec::new()));
    assert!(!open);
    let (window, open) = window.on_read(&ReadOutcome::Failed);
    assert!(!open);
    assert_eq!(window.into_bytes(), b"abc".to_vec());
}

#[test]
fn window_is_capped() {
    let mut window = Window::new();
    for _ in 0..15 {
        window = window.on_read(&ReadOutcome::Bytes(vec![1; 256])).0;
    }
    window = window.on_read(&ReadOutcome::Bytes(vec![1; 200])).0;
    assert!(window.wants_more(true));
    assert_eq!(window.next_read(), 56);
    let (window, open) = window.on_read(&ReadOutcome::Bytes(vec![2; 256]));
    assert!(open);
    assert!(!window.wants_more(true));
    assert_eq!(window.next_read(), 0);
    let bytes = window.into_bytes();
    assert_eq!(bytes.len(), DETECT_MAX_BYTES);
    assert_eq!(bytes.iter().filter(|&&b| b == 2).count(), 56);
}

#[test]
fn reader_decisions() {
    assert!(matches!(
        after_read(ReadOutcome::Bytes(vec![7, 8])),
        ReaderAction::Forward(chunk) if chunk == vec![7, 8]
    ));
    assert!(matches!(after_read(ReadOutcome::Bytes(vec![])), ReaderAction::Stop));
    assert!(matches!(after_read(ReadOutcome::TimedOut), ReaderAction::ReadAgain));
    assert!(matches!(after_read(ReadOutcome::Failed), ReaderAction::ReportAndStop));
    assert!(matches!(after_forward(true), ReaderAction::ReadAgain));
    assert!(matches!(after_forward(false), ReaderAction::Stop));
}
