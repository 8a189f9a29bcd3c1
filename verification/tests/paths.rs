use braincut_blur::paths::{
    completion_webhook_for, file_name, fix_status_url, path_starts_with, remap, validate_data_path, Config,
};
use braincut_blur::text::{tail, head, decimal_string};

fn cfg(ip: &str) -> Config {
    Config {
        n8n_ip: ip.to_string(),
        n8n_port: 5678,
        completion_webhook: String::new(),
        media_host_path: "/mnt/user/n8n_automation/BrainCut".to_string(),
        container_root: "/data".to_string(),
        models_path: "/app/.cache/models".to_string(),
        centerface_model: "/app/deface_cache/centerface.onnx".to_string(),
        detection_interval: 4,
        plate_grid: 20,
        frame_buffer: 32,
    }
}

#[test]
fn host_paths_map_into_the_container() {
    let c = cfg("");
    assert_eq!(remap("/mnt/user/n8n_automation/BrainCut/01_upload/v.mp4", &c), "/data/01_upload/v.mp4");
    assert_eq!(remap("/other/v.mp4", &c), "/other/v.mp4");
    assert_eq!(remap("/data/x", &c), "/data/x");
}

#[test]
fn local_status_urls_go_to_n8n() {
    let c = cfg("192.168.1.100");
    assert_eq!(fix_status_url("http://localhost:5678/webhook/s", &c), "http://192.168.1.100:5678/webhook/s");
    assert_eq!(fix_status_url("http://127.0.0.1:5678/x", &c), "http://192.168.1.100:5678/x");
    assert_eq!(fix_status_url("http://n8n:5678/x", &c), "http://n8n:5678/x");
    assert_eq!(fix_status_url("", &c), "");
    assert_eq!(fix_status_url("http://localhost/x", &cfg("")), "http://localhost/x");
}

#[test]
fn webhook_address() {
    assert_eq!(completion_webhook_for("10.0.0.2", 5678), "http://10.0.0.2:5678/webhook/blur-done");
    assert_eq!(completion_webhook_for("", 5678), "");
}

#[test]
fn paths_compare_by_component() {
    assert!(path_starts_with("/data/a/b.mp4", "/data"));
    assert!(path_starts_with("/data", "/data/"));
    assert!(path_starts_with("/data//a/./b", "/data/a"));
    assert!(!path_starts_with("/database/x", "/data"));
    assert!(!path_starts_with("data/x", "/data"));
    assert!(path_starts_with("./a/b", "."));
}

#[test]
fn only_paths_under_the_root_are_accepted() {
    let c = cfg("");
    assert_eq!(validate_data_path("/data/x.mp4", "/data/x.mp4", "/data", &c), Ok("/data/x.mp4".to_string()));
    assert_eq!(validate_data_path("/data/../etc/passwd", "/etc/passwd", "/data", &c), Ok("/data/../etc/passwd".to_string()));
    assert_eq!(
        validate_data_path("/etc/passwd", "/etc/passwd", "/data", &c),
        Err("Pfad außerhalb von /data: /etc/passwd".to_string())
    );
    assert_eq!(validate_data_path("/link/x", "/data/x", "/data", &c), Ok("/link/x".to_string()));
}

#[test]
fn file_names_like_std() {
    for p in ["/data/a/b.mp4", "b.mp4", "/data/a/", "/", ".", "..", "a/..", "a/.", "", "//x//", "./y"] {
        let expected = std::path::Path::new(p).file_name().map(|n| n.to_string_lossy().into_owned()).unwrap_or_default();
        assert_eq!(file_name(p), expected, "for {p:?}");
    }
    for (a, b) in [("/data/a", "/data"), ("/data", "/data/a"), ("a/./b", "a"), ("./a", "a"), ("a", "./a"), ("/", "/"), ("", "")] {
        assert_eq!(path_starts_with(a, b), std::path::Path::new(a).starts_with(b), "for {a:?} {b:?}");
    }
}

#[test]
fn text_helpers() {
    assert_eq!(tail("abcdef", 2), "ef");
    assert_eq!(tail("ab", 5), "ab");
    assert_eq!(head("abcdef", 2), "ab");
    assert_eq!(decimal_string(0), "0");
    assert_eq!(decimal_string(18446744073709551615), "18446744073709551615");
}
