use valkey_faces::watch::{
    banner, default_camera, ffmpeg_args, Action, Event, Frame, Mtime, Sighting, WatchOpts, Watcher,
};

fn opts(demo: bool, duration: u32) -> WatchOpts {
    WatchOpts {
        demo,
        camera: "/dev/video1".to_string(),
        fps: 2,
        duration,
        threshold: 0.3f32.to_bits(),
        min_face: 20,
    }
}

fn seen(names: &[(&str, bool)]) -> Event {
    Event::FrameSeen(Frame {
        nearest: names
            .iter()
            .map(|(name, similar)| Some(Sighting { name: name.to_string(), similar: *similar }))
            .collect(),
        millis: 54,
    })
}

fn lines(action: Action) -> Vec<String> {
    match action {
        Action::Print(lines) => lines,
        _ => panic!("a frame is answered with lines"),
    }
}

fn written(w: &mut Watcher, secs: i64) {
    assert!(matches!(w.step(Event::TapWritten(Mtime { secs, nanos: 0 })), Action::Look));
}

#[test]
fn default_cameras() {
    assert_eq!(default_camera(true), "0");
    assert_eq!(default_camera(false), "/dev/video0");
}

#[test]
fn tap_of_a_camera() {
    assert_eq!(
        ffmpeg_args(&opts(false, 0), "demo-faces", false).join(" "),
        "-y -hide_banner -loglevel error -f v4l2 -framerate 30 -i /dev/video1 -vf fps=2,scale=512:-2 \
         -q:v 4 -f image2 -update 1 -atomic_writing 1"
    );
    assert_eq!(ffmpeg_args(&opts(false, 0), "demo-faces", true)[5], "avfoundation");
}

#[test]
fn the_demo_stream_has_the_rate_that_was_asked_for() {
    let rate = |fps: u32| {
        let args = ffmpeg_args(&WatchOpts { fps, ..opts(true, 0) }, "demo-faces", false);
        args[22].split("[vo];[vo]").nth(1).unwrap().to_string()
    };
    assert_eq!(rate(5), "fps=5,scale=512:-2[out]");
    assert_eq!(rate(0), "fps=0,scale=512:-2[out]");
    assert_eq!(rate(25), "fps=25,scale=512:-2[out]");
}

#[test]
fn tap_of_the_demo_stream() {
    assert_eq!(
        ffmpeg_args(&opts(true, 30), "demo-faces", false),
        [
            "-y",
            "-hide_banner",
            "-loglevel",
            "error",
            "-re",
            "-f",
            "lavfi",
            "-i",
            "testsrc2=size=640x480:rate=15",
            "-loop",
            "1",
            "-framerate",
            "5",
            "-i",
            "demo-faces/Barack_Obama.jpg",
            "-loop",
            "1",
            "-framerate",
            "5",
            "-i",
            "demo-faces/Rose_Leslie.jpg",
            "-filter_complex",
            "[1:v]scale=200:-1[a];[2:v]scale=200:-1[b];\
             [0:v][a]overlay=x=30:y=100:enable='lt(mod(t,7),4)'[v1];\
             [v1][b]overlay=x=380:y=100:enable='lt(mod(t,11),3)'[vo];\
             [vo]fps=2,scale=512:-2[out]",
            "-map",
            "[out]",
            "-t",
            "30",
            "-q:v",
            "4",
            "-f",
            "image2",
            "-update",
            "1",
            "-atomic_writing",
            "1"
        ]
    );
}

#[test]
fn the_limit_stands_behind_every_input() {
    for demo in [false, true] {
        let args = ffmpeg_args(&opts(demo, 7), "d", false);
        let limit = args.iter().position(|a| a == "-t").unwrap();
        let input = args.iter().rposition(|a| a == "-i").unwrap();
        assert!(input < limit);
        assert_eq!(args[limit + 1], "7");
    }
}

#[test]
fn banners() {
    assert_eq!(banner(&opts(true, 0), "0.30"), "watching demo stream (threshold 0.30); ctrl-c to stop");
    assert_eq!(
        banner(&opts(false, 0), "0.45"),
        "watching camera /dev/video1 (threshold 0.45); ctrl-c to stop"
    );
}

#[test]
fn waiting_for_frames() {
    let mut w = Watcher::new(2);
    assert!(matches!(w.step(Event::TapMissing), Action::Sleep(200)));
    written(&mut w, 1);
    assert!(matches!(w.step(Event::TapWritten(Mtime { secs: 1, nanos: 0 })), Action::Sleep(250)));
    assert!(matches!(w.step(Event::TapWritten(Mtime { secs: 1, nanos: 1 })), Action::Look));
    assert_eq!(w.frames, 2);
    let mut w = Watcher::new(0);
    written(&mut w, 1);
    assert!(matches!(w.step(Event::TapWritten(Mtime { secs: 1, nanos: 0 })), Action::Sleep(500)));
    let mut w = Watcher::new(u32::MAX);
    written(&mut w, 1);
    assert!(matches!(w.step(Event::TapWritten(Mtime { secs: 1, nanos: 0 })), Action::Sleep(0)));
}

#[test]
fn people_enter_and_leave() {
    let mut w = Watcher::new(2);
    written(&mut w, 1);
    assert_eq!(
        lines(w.step(seen(&[("Rose Leslie", true), ("Barack Obama", true), ("Zoë", false)]))),
        [
            "+ Barack Obama entered",
            "+ Rose Leslie entered",
            "  frame 1: 3 face(s), 2 known [Barack Obama, Rose Leslie] (54 ms)"
        ]
    );
    written(&mut w, 2);
    assert!(lines(w.step(seen(&[("Barack Obama", true), ("Rose Leslie", true)]))).is_empty());
    written(&mut w, 3);
    assert!(matches!(w.step(Event::FrameUnreadable), Action::Nothing));
    written(&mut w, 4);
    assert_eq!(
        lines(w.step(seen(&[("Ann", true), ("Rose Leslie", true), ("Rose Leslie", true)]))),
        [
            "+ Ann entered",
            "- Barack Obama left",
            "  frame 4: 3 face(s), 2 known [Ann, Rose Leslie] (54 ms)"
        ]
    );
    written(&mut w, 5);
    assert_eq!(
        lines(w.step(seen(&[]))),
        ["- Ann left", "- Rose Leslie left", "  frame 5: 0 face(s), 0 known [] (54 ms)"]
    );
}

#[test]
fn every_tenth_frame_is_told() {
    let mut w = Watcher::new(2);
    let mut told = Vec::new();
    for secs in 1..=32 {
        written(&mut w, secs);
        if !lines(w.step(seen(&[]))).is_empty() {
            told.push(secs);
        }
    }
    assert_eq!(told, [1, 11, 21, 31]);
}

#[test]
fn a_face_that_nobody_is_near_counts_as_a_face() {
    let mut w = Watcher::new(2);
    written(&mut w, 1);
    let frame = Frame { nearest: vec![None, None], millis: 7 };
    assert_eq!(
        lines(w.step(Event::FrameSeen(frame))),
        ["  frame 1: 2 face(s), 0 known [] (7 ms)"]
    );
}

#[test]
fn the_end_of_the_stream() {
    let mut w = Watcher::new(2);
    written(&mut w, 1);
    match w.step(Event::Ended("exit status: 0".to_string())) {
        Action::Stop(line) => assert_eq!(line, "stream ended (exit status: 0); 1 frames analyzed"),
        _ => panic!("the watcher stops"),
    }
}

#[test]
fn the_lines_tell_who_is_present() {
    let people = ["Ann", "Barack", "Rose", "Zoë"];
    let mut w = Watcher::new(2);
    let mut told: Vec<String> = Vec::new();
    for secs in 0..200i64 {
        written(&mut w, secs);
        let here: Vec<(&str, bool)> = people
            .iter()
            .enumerate()
            .filter(|(i, _)| (secs * secs + 3 * secs) >> i & 1 == 1)
            .map(|(_, name)| (*name, true))
            .collect();
        for line in lines(w.step(seen(&here))) {
            if let Some(name) = line.strip_prefix("+ ").and_then(|l| l.strip_suffix(" entered")) {
                assert!(!told.iter().any(|n| n == name));
                told.push(name.to_string());
            }
            if let Some(name) = line.strip_prefix("- ").and_then(|l| l.strip_suffix(" left")) {
                assert!(told.iter().any(|n| n == name));
                told.retain(|n| n != name);
            }
        }
        told.sort();
        let names: Vec<&str> = here.iter().map(|(name, _)| *name).collect();
        assert_eq!(told, names);
    }
}

#[test]
fn an_unchanged_frame_is_waited_for_whatever_was_counted() {
    let mut w = Watcher::new(2);
    written(&mut w, 7);
    w.frames = u64::MAX;
    assert!(matches!(w.step(Event::TapWritten(Mtime { secs: 7, nanos: 0 })), Action::Sleep(250)));
    assert_eq!(w.frames, u64::MAX);
}
