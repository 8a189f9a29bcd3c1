use braincut_blur::cancel::new_cancel_flag;
use braincut_blur::jobs::{job_mode, JobBatch, JobOutcome};
use braincut_blur::status::{JobStatus, StatusLog};
use braincut_blur::tracking::BlurMode;

#[test]
fn one_job_at_a_time() {
    let mut s = JobStatus::new();
    assert_eq!(s.state, "idle");
    assert!(s.try_admit().is_ok());
    assert_eq!(s.state, "queued");
    assert_eq!(s.try_admit(), Err("queued".to_string()));
    s.state = "blur".to_string();
    assert_eq!(s.try_admit(), Err("blur".to_string()));
    s.set_idle();
    assert!(s.try_admit().is_ok());
}

#[test]
fn log_keeps_the_last_200_lines() {
    let mut log = StatusLog::new();
    for i in 0..250 {
        log.push(format!("line {i}"));
    }
    assert_eq!(log.len(), 200);
    assert_eq!(log.line(0), "line 50");
    assert_eq!(log.line(199), "line 249");
}

#[test]
fn job_modes() {
    assert_eq!(job_mode(true, true), Some(BlurMode::Both));
    assert_eq!(job_mode(true, false), Some(BlurMode::Faces));
    assert_eq!(job_mode(false, true), Some(BlurMode::Plates));
    assert_eq!(job_mode(false, false), None);
}

#[test]
fn batch_records_failures_and_stops_on_cancel() {
    let mut b = JobBatch::new(3);
    b.record_path_error("/x", "Pfad außerhalb von /data: /x");
    assert_eq!(b.record_run("/data/a.mp4", Ok(())), JobOutcome::Done);
    let long = "e".repeat(600);
    assert_eq!(b.record_run("/data/b.mp4", Err(&long)), JobOutcome::Failed);
    assert_eq!(b.errors[1].error.len(), 500);
    assert_eq!(b.final_error(), "Pfad außerhalb von /data: /x");
    assert_eq!(b.completion_status(), "done");
    assert_eq!(b.record_run("/data/c.mp4", Err("cancelled")), JobOutcome::Cancelled);
    assert_eq!(b.errors[2].error, "Abgebrochen");
    assert_eq!(b.errors[2].input, "/data/c.mp4");
    assert_eq!(b.final_error(), "Abgebrochen");
    assert_eq!(b.completion_status(), "cancelled");
}

#[test]
fn final_error_is_cut_to_200_characters() {
    let mut b = JobBatch::new(1);
    let long = "ü".repeat(250);
    b.record_run("/in", Err(&long));
    assert_eq!(b.final_error().chars().count(), 200);
}

#[test]
fn cancel_flag_starts_lowered() {
    let f = new_cancel_flag();
    assert!(!f.load(std::sync::atomic::Ordering::Relaxed));
}

#[test]
fn batch_of_path_errors_ends_idle_with_its_counters() {
    let mut s = JobStatus::new();
    assert!(s.try_admit().is_ok());
    s.begin_blur_batch(2, "2024-01-01T00:00:00".to_string());
    let mut b = JobBatch::new(2);
    b.record_path_error("/x/a", "Pfad außerhalb von /data: /x/a");
    b.record_path_error("/x/b", "Pfad außerhalb von /data: /x/b");
    s.finish_batch(b.final_error());
    assert_eq!(s.state, "idle");
    assert_eq!(s.total, 2);
    assert_eq!(s.current, 0);
    assert_eq!(s.error, "Pfad außerhalb von /data: /x/a");
    assert_eq!(s.sub_state, "");
    assert_eq!(b.completion_status(), "done");
}
