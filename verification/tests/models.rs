use braincut_blur::models::{
    check_activation, check_deletion, check_download, check_download_size, check_install_request, check_installed_size,
    choose_onnx, install_paths, join_path, model_file, resolve_models, truncate_bytes, url_is_zip, validate_model_id,
    ModelKind, ModelSelection, ResolveError,
};
use braincut_blur::tracking::BlurMode;

#[test]
fn aus_buffalo_wird_der_detektor_gewaehlt() {
    let names: Vec<String> = ["genderage.onnx", "2d106det.onnx", "det_10g.onnx", "1k3d68.onnx", "w600k_r50.onnx"]
        .iter().map(|s| s.to_string()).collect();
    assert_eq!(choose_onnx(&names).as_deref(), Some("det_10g.onnx"));
    let sc: Vec<String> = ["buffalo_sc/w600k_mbf.onnx", "buffalo_sc/det_500m.onnx"].iter().map(|s| s.to_string()).collect();
    assert_eq!(choose_onnx(&sc).as_deref(), Some("buffalo_sc/det_500m.onnx"));
}

#[test]
fn ohne_detektor_die_erste_onnx() {
    let names: Vec<String> = ["readme.txt", "__MACOSX/x.onnx", "plates.onnx"].iter().map(|s| s.to_string()).collect();
    assert_eq!(choose_onnx(&names).as_deref(), Some("plates.onnx"));
    assert_eq!(choose_onnx(&["a.txt".to_string()]), None);
}

#[test]
fn detector_name_is_read_after_the_last_slash() {
    let names: Vec<String> = ["det_dir/model.onnx", "x/det_1.onnx"].iter().map(|s| s.to_string()).collect();
    assert_eq!(choose_onnx(&names).as_deref(), Some("x/det_1.onnx"));
    let macos: Vec<String> = ["__MACOSX/det_1.onnx", "a.onnx"].iter().map(|s| s.to_string()).collect();
    assert_eq!(choose_onnx(&macos).as_deref(), Some("a.onnx"));
}

#[test]
fn model_ids() {
    assert!(validate_model_id("yolov8s-plates-eu"));
    assert!(validate_model_id("scrfd_10g.v2"));
    assert!(validate_model_id("modèle"));
    assert!(!validate_model_id(""));
    assert!(!validate_model_id("../etc/passwd"));
    assert!(!validate_model_id("../x"));
    assert!(!validate_model_id("a\\b"));
    assert!(!validate_model_id("a b"));
    assert!(validate_model_id(&"a".repeat(80)));
    assert!(!validate_model_id(&"a".repeat(81)));
    // 41 two-byte characters are 82 bytes.
    assert!(!validate_model_id(&"é".repeat(41)));
    assert!(validate_model_id(&"é".repeat(40)));
}

#[test]
fn model_files_live_in_the_model_directory() {
    assert_eq!(model_file("/app/.cache/models", "scrfd-10g"), "/app/.cache/models/scrfd-10g.onnx");
    assert_eq!(model_file("/models/", "x"), "/models/x.onnx");
    assert_eq!(join_path("", "a.onnx"), "a.onnx");
    assert_eq!(join_path("/m", "/abs"), "/abs");
    let (t, tt, zt) = install_paths("/m", "id1");
    assert_eq!((t.as_str(), tt.as_str(), zt.as_str()), ("/m/id1.onnx", "/m/id1.onnx.tmp", "/m/id1.zip.tmp"));
}

#[test]
fn plates_only_job_needs_a_plate_model() {
    match resolve_models(None, None, BlurMode::Plates, "/m", false, false) {
        Err(e) => assert_eq!(e.message(), "Kennzeichen-Blur angefordert, aber kein Kennzeichen-Modell aktiv."),
        Ok(_) => panic!("expected an error"),
    }
    match resolve_models(None, Some("p1"), BlurMode::Plates, "/m", false, false) {
        Err(ResolveError::PlateModelMissing(id)) => assert_eq!(id, "p1"),
        _ => panic!("expected a missing plate model"),
    }
    match resolve_models(None, Some("p1"), BlurMode::Plates, "/m", false, false) {
        Err(e) => assert_eq!(e.message(), "Kennzeichen-Modell 'p1' nicht gefunden."),
        Ok(_) => panic!("expected an error"),
    }
}

#[test]
fn both_mode_falls_back_without_plate_model() {
    let (m, logs) = resolve_models(None, None, BlurMode::Both, "/m", false, false).unwrap();
    assert!(m.use_centerface);
    assert_eq!(m.plate_model_path, None);
    assert_eq!(m.face_model_name, "builtin-centerface");
    assert_eq!(logs, vec!["Kein Kennzeichen-Modell aktiv – nur Gesichter.".to_string()]);
}

#[test]
fn scrfd_and_yolo_face_models_are_told_apart() {
    let (m, _) = resolve_models(Some("scrfd-10g"), Some("plates"), BlurMode::Both, "/m", true, true).unwrap();
    assert_eq!(m.face_scrfd_path.as_deref(), Some("/m/scrfd-10g.onnx"));
    assert_eq!(m.face_yolo_path, None);
    assert_eq!(m.plate_model_path.as_deref(), Some("/m/plates.onnx"));
    assert!(!m.use_centerface);
    let (m, _) = resolve_models(Some("yolov8n-face"), None, BlurMode::Faces, "/m", true, false).unwrap();
    assert_eq!(m.face_yolo_path.as_deref(), Some("/m/yolov8n-face.onnx"));
    assert_eq!(m.plate_model_path, None);
    let (m, logs) = resolve_models(Some("yolov8n-face"), None, BlurMode::Faces, "/m", false, false).unwrap();
    assert!(m.use_centerface);
    assert_eq!(logs, vec!["WARNUNG: Gesichts-Modell 'yolov8n-face' nicht gefunden – Fallback auf CenterFace".to_string()]);
    let (m, _) = resolve_models(Some("yolov8n-face"), Some("p"), BlurMode::Plates, "/m", true, true).unwrap_or_else(|_| panic!());
    assert!(!m.use_centerface);
    assert_eq!(m.face_yolo_path, None);
}

#[test]
fn selection_activate_and_forget() {
    let mut s = ModelSelection::new();
    assert_eq!(s.face_model, "builtin-centerface");
    s.activate(ModelKind::Face, Some("scrfd-10g".to_string()));
    s.activate(ModelKind::Plate, Some("plates-eu".to_string()));
    assert_eq!(s.face_model, "scrfd-10g");
    assert_eq!(s.plate_model.as_deref(), Some("plates-eu"));
    assert!(s.forget("scrfd-10g"));
    assert_eq!(s.face_model, "builtin-centerface");
    assert_eq!(s.plate_model.as_deref(), Some("plates-eu"));
    assert!(!s.forget("other"));
    assert!(s.forget("plates-eu"));
    assert_eq!(s.plate_model, None);
    s.activate(ModelKind::Face, None);
    assert_eq!(s.face_model, "builtin-centerface");
}

#[test]
fn activation_requests() {
    assert_eq!(check_activation("face", Some("x"), true).unwrap(), ModelKind::Face);
    assert_eq!(check_activation("plate", None, false).unwrap(), ModelKind::Plate);
    assert_eq!(check_activation("face", Some("builtin-centerface"), false).unwrap(), ModelKind::Face);
    let e = check_activation("car", Some("x"), true).unwrap_err();
    assert!(!e.not_found);
    assert_eq!(e.message, "type muss 'face' oder 'plate' sein");
    let e = check_activation("plate", Some("x"), false).unwrap_err();
    assert!(e.not_found);
    assert_eq!(e.message, "Modell 'x' nicht installiert – zuerst herunterladen");
}

#[test]
fn deletion_requests() {
    assert!(check_deletion("x", true).is_ok());
    let e = check_deletion("a/b", true).unwrap_err();
    assert_eq!(e.message, "Ungültige model_id");
    let e = check_deletion("builtin-centerface", true).unwrap_err();
    assert_eq!(e.message, "Integriertes Modell kann nicht gelöscht werden");
    let e = check_deletion("x", false).unwrap_err();
    assert!(e.not_found);
    assert_eq!(e.message, "Modell nicht gefunden");
}

#[test]
fn install_requests() {
    assert!(check_install_request("x", "http://h/x.onnx").is_ok());
    assert_eq!(check_install_request("", "u").unwrap_err().message, "id und url erforderlich");
    assert_eq!(check_install_request("x", "").unwrap_err().message, "id und url erforderlich");
    assert_eq!(check_install_request("x y", "u").unwrap_err().message, "Ungültige model_id");
}

#[test]
fn download_checks() {
    assert_eq!(check_download("http://h/m.zip", "application/octet-stream", 0), Ok(true));
    assert_eq!(check_download("http://h/m.onnx", "application/zip", 10), Ok(true));
    assert_eq!(check_download("http://h/m.onnx", "application/octet-stream", 10), Ok(false));
    assert_eq!(
        check_download("http://h/m.onnx", "text/html; charset=utf-8", 10),
        Err("Unerwarteter Content-Type: text/html; charset=utf-8 – kein Modell?".to_string())
    );
    assert_eq!(
        check_download("http://h/m.onnx", "application/octet-stream", 600 * 1_048_576),
        Err("Modell zu groß: 600 MB (Limit: 500 MB)".to_string())
    );
    assert!(check_download_size(524_288_000).is_ok());
    assert_eq!(check_download_size(524_288_001), Err("Modell überschreitet 500 MB – Download abgebrochen".to_string()));
    assert!(url_is_zip("a.zip") && !url_is_zip("a.zip?x=1"));
}

#[test]
fn tiny_downloads_are_lfs_pointers() {
    assert!(check_installed_size(524_288).is_ok());
    assert_eq!(
        check_installed_size(2048),
        Err("Heruntergeladene Datei zu klein (2 KB) – wahrscheinlich ein LFS-Pointer statt echtem Modell. Bitte direkte Download-URL verwenden.".to_string())
    );
}

#[test]
fn truncation_keeps_whole_characters() {
    assert_eq!(truncate_bytes("abcdef", 3), "abc");
    assert_eq!(truncate_bytes("ab", 3), "ab");
    assert_eq!(truncate_bytes("äb", 2), "ä");
}
