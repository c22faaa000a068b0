use valkey_faces::face::Face;
use valkey_faces::report::{
    check_min_face, connecting, enroll_report, face_report, forget_report, list_report,
    missing_model, model_paths, no_face, Nearest,
};

const FACE: Face = Face { x: 12, y: 34, w: 80, h: 81, score: 0 };

fn nearest(similar: bool) -> Option<Nearest> {
    Some(Nearest { name: "Barack Obama".to_string(), similarity: "0.7342".to_string(), similar })
}

#[test]
fn smallest_face() {
    assert!(check_min_face(20).is_ok());
    assert!(check_min_face(u32::MAX).is_ok());
    assert_eq!(
        check_min_face(19),
        Err("--min-face must be >= 20 (the detector's window size)".to_string())
    );
}

#[test]
fn models() {
    let (detection, embedding) = model_paths("models");
    assert_eq!(detection, "models/seeta_fd_frontal_v1.0.bin");
    assert_eq!(embedding, "models/w600k_mbf.onnx");
    assert_eq!(missing_model(&embedding), "missing models/w600k_mbf.onnx; run ./fetch-models.sh");
}

#[test]
fn complaints() {
    assert_eq!(
        connecting("redis://127.0.0.1:6379"),
        "connecting to valkey at redis://127.0.0.1:6379 (docker run -d --rm -p 6379:6379 valkey/valkey-bundle)"
    );
    assert_eq!(no_face("a.jpg"), "no face detected in a.jpg");
}

#[test]
fn who_is_enrolled() {
    assert_eq!(
        list_report(&vec![]),
        ["nobody enrolled yet: valkey-faces enroll <image> <name>"]
    );
    assert_eq!(
        list_report(&vec![("Ann".to_string(), 1), ("Zoë".to_string(), 12)]),
        ["Ann  (1 entry)", "Zoë  (12 entries)"]
    );
}

#[test]
fn who_was_forgotten() {
    assert_eq!(forget_report(0, "Ann"), "removed 0 entries for Ann");
    assert_eq!(forget_report(1, "Ann"), "removed 1 entry for Ann");
}

#[test]
fn who_was_added() {
    assert_eq!(
        enroll_report("Ann", &FACE, "face:ann:0"),
        "enrolled Ann (80x81 face) -> face:ann:0"
    );
}

#[test]
fn who_a_face_is() {
    assert_eq!(
        face_report(0, &FACE, &nearest(true)),
        "face#0 80x81 @(12,34): Barack Obama (sim 0.7342)"
    );
    assert_eq!(
        face_report(1, &FACE, &nearest(false)),
        "face#1 80x81 @(12,34): stranger (nearest Barack Obama at sim 0.7342)"
    );
    assert_eq!(
        face_report(2, &Face { x: -3, y: -40, ..FACE }, &nearest(true)),
        "face#2 80x81 @(-3,-40): Barack Obama (sim 0.7342)"
    );
    assert_eq!(face_report(2, &FACE, &None), "face#2: index is empty; enroll someone first");
}
