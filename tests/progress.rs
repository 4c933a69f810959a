use peermaps_ingest::progress::{hms, Info, Progress, Stage};

#[test]
fn info_state_machine() {
    let mut i = Info::new("scan");
    assert_eq!(i.label, "scan");
    i.add(5);
    assert_eq!(i.count, 0);
    i.tick(10);
    assert!(i.samples.is_empty());
    i.start(100);
    i.add(5);
    i.tick(1100);
    assert_eq!(i.samples, vec![(1000, 5)]);
    i.end(2000);
    i.add(5);
    assert_eq!(i.count, 5);
    i.tick(3000);
    assert_eq!(i.samples.len(), 1);
    assert_eq!(i.end, Some(2000));
}

#[test]
fn samples_are_bounded() {
    let mut i = Info::new("ingest");
    i.start(0);
    for t in 0..30u64 {
        i.add(1);
        i.tick(t);
    }
    assert_eq!(i.samples.len(), 20);
    assert_eq!(i.samples[0], (29, 30));
}

#[test]
fn errors_are_bounded() {
    let mut i = Info::new("ingest");
    for n in 0..12 {
        i.push_err(format!("e{}", n));
    }
    assert_eq!(i.errors.len(), 10);
    assert_eq!(i.errors[0], "e11");
}

#[test]
fn progress_by_label() {
    let mut p = Progress::new(&["scan", "ingest"]);
    p.start("ingest", 5);
    p.add("ingest", 3);
    p.add("scan", 3);
    p.add("nothing", 3);
    assert_eq!(p.info[1].count, 3);
    assert_eq!(p.info[0].count, 0);
    p.end("ingest", 9);
    assert_eq!(p.info[1].current_stage(), Stage::Ended);
    assert_eq!(p.info[0].current_stage(), Stage::Uninitialized);
}

#[test]
fn hms_format() {
    assert_eq!(hms(Some(3723)), "01:02:03");
    assert_eq!(hms(Some(0)), "00:00:00");
    assert_eq!(hms(Some(360_000)), "100:00:00");
    assert_eq!(hms(None), "--:--:--");
}

#[test]
fn progress_errors_and_ticks() {
    let mut p = Progress::new(&["scan", "ingest"]);
    p.push_err("ingest", "bad tag".to_string());
    p.push_err("nothing", "lost".to_string());
    assert_eq!(p.info[1].errors, vec!["bad tag".to_string()]);
    assert!(p.info[0].errors.is_empty());
    p.start("scan", 0);
    p.add("scan", 4);
    p.tick(500);
    assert_eq!(p.info[0].samples, vec![(500, 4)]);
    assert!(p.info[1].samples.is_empty());
}

#[test]
fn rate_per_second() {
    let mut i = Info::new("ingest");
    assert_eq!(i.rate(100), None);
    i.start(1000);
    i.add(50);
    i.tick(2000);
    assert_eq!(i.rate(3000), Some(25));
    i.add(100);
    i.tick(4000);
    assert_eq!(i.rate(4000), Some(50));
    i.end(6000);
    assert_eq!(i.rate(9999), Some(30));
}

#[test]
fn end_before_start_is_clamped() {
    let mut i = Info::new("scan");
    i.start(500);
    i.end(100);
    assert_eq!(i.end, Some(500));
    assert_eq!(i.rate(600), None);
}
