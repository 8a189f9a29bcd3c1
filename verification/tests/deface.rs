use braincut_blur::deface::{
    blur_frame, clamp_tiles, detection_input_size, display_matrix_rotation, face_is_blurred, frame_supported, oriented_size, work_paths,
    DefaceError, DefaceRun,
};
use braincut_blur::image_ops::{gaussian_blur_roi, pixelate_roi};
use braincut_blur::pipeline::{build_dec_args, build_enc_args};
use braincut_blur::tracking::{grid_key, process_detection_frame, BBox, BlurMode, Track, TrackBuffer};

fn bb(x: usize, y: usize, x2: usize, y2: usize) -> BBox {
    BBox { x, y, x2, y2 }
}

#[test]
fn detection_runs_every_interval_frames() {
    let mut run = DefaceRun::new(BlurMode::Both, 4, 20, 8, 8);
    let flags: Vec<bool> = (0..9).map(|_| run.begin_frame()).collect();
    assert_eq!(flags, vec![true, false, false, false, true, false, false, false, true]);
    assert_eq!(run.frame_idx, 9);
}

#[test]
fn tracks_age_and_expire() {
    let mut faces = TrackBuffer::new();
    let mut plates = TrackBuffer::new();
    let f = [bb(30, 30, 90, 90)];
    let p = [bb(100, 100, 190, 130)];
    let n = process_detection_frame(BlurMode::Both, true, &mut faces, &mut plates, &f, &p, 20);
    assert_eq!(n, (1, 1));
    assert_eq!(faces.tracks()[0].ttl, 60);
    assert_eq!(faces.tracks()[0].key, (1, 1, 3, 3));
    assert_eq!(plates.tracks()[0].ttl, 200);
    assert_eq!(plates.tracks()[0].key, (5, 5, 9, 6));
    for _ in 0..59 {
        let n = process_detection_frame(BlurMode::Both, false, &mut faces, &mut plates, &f, &p, 20);
        assert_eq!(n, (0, 0));
    }
    assert_eq!(faces.len(), 1);
    assert_eq!(faces.tracks()[0].ttl, 1);
    process_detection_frame(BlurMode::Both, false, &mut faces, &mut plates, &[], &[], 20);
    assert_eq!(faces.len(), 0);
    assert_eq!(plates.tracks()[0].ttl, 140);
}

#[test]
fn same_cell_replaces_the_track() {
    let mut faces = TrackBuffer::new();
    let mut plates = TrackBuffer::new();
    process_detection_frame(BlurMode::Faces, true, &mut faces, &mut plates, &[bb(30, 30, 90, 90)], &[bb(1, 1, 2, 2)], 20);
    process_detection_frame(BlurMode::Faces, false, &mut faces, &mut plates, &[], &[], 20);
    process_detection_frame(BlurMode::Faces, true, &mut faces, &mut plates, &[bb(31, 32, 91, 90), bb(300, 300, 400, 400)], &[], 20);
    assert_eq!(faces.len(), 2);
    assert_eq!(faces.tracks()[0].bbox, bb(31, 32, 91, 90));
    assert_eq!(faces.tracks()[0].ttl, 60);
    assert_eq!(faces.tracks()[1].bbox, bb(300, 300, 400, 400));
    // Plates are not tracked in a faces-only job.
    assert_eq!(plates.len(), 0);
}

#[test]
fn insert_keeps_keys_unique() {
    let mut b = TrackBuffer::new();
    let t = |k: usize, ttl: u32| Track { key: (k, 0, 0, 0), bbox: bb(k, 0, k + 1, 1), ttl };
    b.insert(t(1, 5));
    b.insert(t(2, 5));
    b.insert(t(1, 9));
    assert_eq!(b.len(), 2);
    assert_eq!(b.tracks()[0].ttl, 9);
    b.decay();
    assert_eq!(b.tracks()[0].ttl, 8);
    assert_eq!(b.tracks()[1].ttl, 4);
    assert_eq!(grid_key(&bb(59, 60, 61, 119), 30), (1, 2, 2, 3));
}

#[test]
fn faces_are_blurred_only_within_size_limits() {
    assert!(face_is_blurred(&bb(0, 0, 50, 50), 1920, 1080));
    assert!(!face_is_blurred(&bb(0, 0, 49, 50), 1920, 1080));
    assert!(face_is_blurred(&bb(0, 0, 384, 216), 1920, 1080));
    assert!(!face_is_blurred(&bb(0, 0, 385, 100), 1920, 1080));
    assert!(!face_is_blurred(&bb(0, 0, 100, 217), 1920, 1080));
}

#[test]
fn frame_blur_applies_the_tracks_in_order() {
    let (w, h) = (320usize, 320usize);
    let before: Vec<u8> = (0..w * h * 3).map(|i| ((i * 7) % 253) as u8).collect();
    let mut faces = TrackBuffer::new();
    let mut plates = TrackBuffer::new();
    let face = bb(10, 10, 60, 60);
    let small_face = bb(100, 100, 120, 120);
    let plate = bb(40, 40, 200, 100);
    process_detection_frame(BlurMode::Both, true, &mut faces, &mut plates, &[face, small_face], &[plate], 20);
    let mut frame = before.clone();
    blur_frame(&mut frame, w, h, &faces, &plates);
    let mut expected = before.clone();
    gaussian_blur_roi(&mut expected, w, face.x, face.y, face.x2, face.y2);
    pixelate_roi(&mut expected, w, plate.x, plate.y, plate.x2, plate.y2);
    assert_eq!(frame, expected);
    assert_ne!(frame, before);
}

#[test]
fn run_progress_and_outcome() {
    let mut run = DefaceRun::new(BlurMode::Faces, 1, 20, 4, 4);
    for _ in 0..9 {
        run.begin_frame();
    }
    assert_eq!(run.progress(100), (9, None));
    run.begin_frame();
    assert_eq!(run.progress(100), (10, Some(10)));
    assert_eq!(run.progress(100), (10, None));
    assert_eq!(run.progress(0), (0, None));
    assert_eq!(run.progress(5), (100, Some(100)));
    assert!(run.faces_missing());
    run.track(true, &[bb(0, 0, 1, 1)], &[]);
    assert_eq!(run.total_faces, 1);
    assert!(!run.faces_missing());
    assert_eq!(run.outcome(true, 5000), Err(DefaceError::Cancelled));
    assert_eq!(run.outcome(false, 1023), Err(DefaceError::EncoderOutputMissing));
    assert_eq!(run.outcome(false, 1024), Ok(()));
    assert_eq!(DefaceError::Cancelled.message("x"), "cancelled");
    assert_eq!(
        DefaceError::EncoderOutputMissing.message("/o.enc.tmp.mp4"),
        "Encoder fehlgeschlagen: Ausgabedatei fehlt oder leer (/o.enc.tmp.mp4)"
    );
}

#[test]
fn run_settings() {
    assert_eq!(detection_input_size("1080p", 3840, 2160), (1080, 1920));
    assert_eq!(detection_input_size("native", 3840, 2160), (2160, 3840));
    assert_eq!(detection_input_size("720p", 3840, 2160), (720, 1280));
    assert_eq!(detection_input_size("x", 3840, 2160), (720, 1280));
    assert_eq!(oriented_size(1920, 1080, 90), (1080, 1920, 90));
    assert_eq!(oriented_size(1920, 1080, 270), (1080, 1920, 270));
    assert_eq!(oriented_size(1920, 1080, 180), (1920, 1080, 180));
    assert_eq!(oriented_size(1920, 1080, 45), (1920, 1080, 0));
    assert_eq!(oriented_size(1920, 1080, -90), (1920, 1080, -90));
    assert_eq!(clamp_tiles(0), 1);
    assert_eq!(clamp_tiles(3), 3);
    assert_eq!(clamp_tiles(9), 4);
    assert!(frame_supported(1920, 1080));
    assert!(!frame_supported(0, 1080));
    assert!(!frame_supported(usize::MAX, 2));
    let (a, b, c) = work_paths("/data/o.mp4");
    assert_eq!((a.as_str(), b.as_str(), c.as_str()), ("/data/o.mp4.enc.tmp.mp4", "/data/o.mp4.final.tmp.mp4", "/data/o.mp4.detections.csv"));
}

#[test]
fn ffmpeg_command_lines() {
    let (args, cuvid) = build_dec_args("/data/in.mp4", "hevc");
    assert_eq!(cuvid, "hevc_cuvid");
    assert_eq!(
        args,
        vec!["-loglevel", "error", "-hwaccel", "cuda", "-c:v", "hevc_cuvid", "-i", "/data/in.mp4", "-f", "rawvideo",
            "-pix_fmt", "bgr24", "pipe:1"]
    );
    let (args, cuvid) = build_dec_args("/data/in.mp4", "mpeg4");
    assert_eq!(cuvid, "");
    assert_eq!(args.len(), 11);
    let enc = build_enc_args("/o.mp4", 1920, 1080, "30000/1001", true);
    assert_eq!(
        enc,
        vec!["-loglevel", "error", "-y", "-f", "rawvideo", "-pix_fmt", "bgr24", "-s", "1920x1080", "-r", "30000/1001",
            "-i", "pipe:0", "-c:v", "h264_nvenc", "-preset", "p4", "-cq", "18", "-pix_fmt", "yuv420p", "-an", "/o.mp4"]
    );
    let enc = build_enc_args("/o.mp4", 640, 480, "25/1", false);
    assert_eq!(&enc[13..19], &["-c:v", "libx264", "-crf", "18", "-preset", "fast"]);
}

#[test]
fn display_matrix_turns_the_other_way() {
    assert_eq!(display_matrix_rotation(-90), 90);
    assert_eq!(display_matrix_rotation(90), 270);
    assert_eq!(display_matrix_rotation(0), 0);
    assert_eq!(display_matrix_rotation(180), 180);
    assert_eq!(display_matrix_rotation(-180), 180);
    assert_eq!(display_matrix_rotation(450), 270);
    assert_eq!(display_matrix_rotation(-360), 0);
}
