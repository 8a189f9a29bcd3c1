use braincut_blur::render::{
    ffmpeg_error, format_bytes, render_args, render_outcome, render_precheck, stamped_name, unique_sources, uses_music,
};

#[test]
fn bytes_formatierung_wie_python() {
    assert_eq!(format_bytes(512 * 1024), "512 KB");
    assert_eq!(format_bytes(5 * 1_048_576 + 1), "5.0 MB");
    assert_eq!(format_bytes(3 * 1_073_741_824 + 1), "3.00 GB");
}

fn float_reference(b: u64) -> String {
    if b > 1_073_741_824 {
        format!("{:.2} GB", b as f64 / 1_073_741_824.0)
    } else if b > 1_048_576 {
        format!("{:.1} MB", b as f64 / 1_048_576.0)
    } else {
        format!("{:.0} KB", b as f64 / 1024.0)
    }
}

#[test]
fn byte_sizes_round_like_floats() {
    let samples: [u64; 16] = [
        0,
        511,
        512,
        1536,
        2560,
        1_048_576,
        1_048_577,
        1_100_000,
        1_572_864,
        1_073_741_824,
        1_073_741_825,
        1_078_984_704,
        5_000_000_000,
        (1u64 << 53) + 3,
        u64::MAX - 1,
        u64::MAX,
    ];
    for b in samples {
        assert_eq!(format_bytes(b), float_reference(b), "for {b}");
    }
    let mut x: u64 = 1;
    for _ in 0..2000 {
        x = x.wrapping_mul(6364136223846793005).wrapping_add(1442695040888963407);
        for b in [x, x >> 20, x >> 33, x >> 40] {
            assert_eq!(format_bytes(b), float_reference(b), "for {b}");
        }
    }
}

#[test]
fn render_command_line() {
    let inputs = vec!["/data/a.mp4".to_string(), "/data/b.mp4".to_string()];
    let args = render_args(&inputs, Some("/data/m.mp3"), true, false, "G", "[aout]", "/data/out.mp4");
    let expected: Vec<&str> = vec![
        "-hide_banner", "-nostats", "-loglevel", "error", "-n", "-i", "/data/a.mp4", "-i", "/data/b.mp4",
        "-stream_loop", "-1", "-i", "/data/m.mp3", "-filter_complex", "G", "-map", "[vout]", "-map", "[aout]",
        "-c:v", "libx264", "-crf", "22", "-preset", "fast", "-c:a", "aac", "-b:a", "192k", "-shortest",
        "-movflags", "+faststart", "/data/out.mp4",
    ];
    assert_eq!(args, expected);
    let args = render_args(&inputs[..1], None, true, true, "G", "[aorig]", "o");
    assert_eq!(&args[..7], &["-hide_banner", "-nostats", "-loglevel", "error", "-y", "-i", "/data/a.mp4"]);
    assert_eq!(args[7], "-filter_complex");
}

#[test]
fn music_is_used_only_when_asked_for() {
    assert!(uses_music("mix_music", "/m.mp3"));
    assert!(uses_music("replace_with_music", "/m.mp3"));
    assert!(!uses_music("mix_music", ""));
    assert!(!uses_music("original", "/m.mp3"));
}

#[test]
fn ffmpeg_errors() {
    assert_eq!(ffmpeg_error(""), "FFmpeg fehlgeschlagen");
    let long: String = "x".repeat(900) + "END";
    let e = ffmpeg_error(&long);
    assert_eq!(e.chars().count(), 800);
    assert!(e.ends_with("END"));
}

#[test]
fn render_prechecks() {
    assert_eq!(render_precheck(0, true, false, "o.mp4"), Err("Keine Clips im Render-Auftrag.".to_string()));
    assert_eq!(render_precheck(2, false, true, "o.mp4"), Err("Ausgabedatei existiert bereits: o.mp4".to_string()));
    assert_eq!(render_precheck(2, true, true, "o.mp4"), Ok(()));
    assert_eq!(render_precheck(2, false, false, "o.mp4"), Ok(()));
}

#[test]
fn render_outcomes() {
    assert_eq!(render_outcome(None), (None, String::new()));
    assert_eq!(
        render_outcome(Some("cancelled")),
        (Some("cancelled".to_string()), "Render abgebrochen".to_string())
    );
    let long = "é".repeat(1000);
    let (a, s) = render_outcome(Some(&long));
    assert_eq!(a.unwrap().chars().count(), 800);
    assert_eq!(s.chars().count(), 200);
}

#[test]
fn sources_are_moved_once() {
    let s: Vec<String> = ["a", "b", "a", "c", "b"].iter().map(|x| x.to_string()).collect();
    assert_eq!(unique_sources(&s), vec!["a".to_string(), "b".to_string(), "c".to_string()]);
}

#[test]
fn moved_names_get_a_stamp() {
    assert_eq!(stamped_name("clip.mp4", "20240101_120000"), "clip_20240101_120000.mp4");
    assert_eq!(stamped_name("a.tar.gz", "T"), "a.tar_T.gz");
    assert_eq!(stamped_name(".hidden", "T"), ".hidden_T");
    assert_eq!(stamped_name("noext", "T"), "noext_T");
    assert_eq!(stamped_name("name.", "T"), "name_T.");
}
