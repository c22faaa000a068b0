//! Live watch: the frame tap's command line, and who enters and leaves.

use crate::names::{
    ascending, law_ascending_is_settled_by_members, missing, precedes, texts, NameSet,
};
use crate::text::{decimal, decimal_text, framed, joined, lemma_decimal_digits};
use vstd::prelude::*;

verus! {

/// What to watch, and how.
pub struct WatchOpts {
    pub demo: bool,
    pub camera: String,
    pub fps: u32,
    /// Seconds; 0 = until ffmpeg exits / ctrl-c.
    pub duration: u32,
    /// The IEEE-754 bits of the similarity threshold in single precision.
    pub threshold: u32,
    pub min_face: u32,
}

// ---------- The frame tap ----------

/// Two demo faces over a test pattern on co-prime cycles, so the watcher sees people come and go;
/// up to where the frame rate is set.
pub const DEMO_FILTER: &'static str =
    "[1:v]scale=200:-1[a];[2:v]scale=200:-1[b];[0:v][a]overlay=x=30:y=100:enable='lt(mod(t,7),4)'[v1];[v1][b]overlay=x=380:y=100:enable='lt(mod(t,11),3)'[vo];[vo]";

/// The camera that is watched by default: an avfoundation index on macOS, a v4l2 device elsewhere.
pub fn default_camera(macos: bool) -> (r: String)
    ensures
        r@ == if macos {
            "0"@
        } else {
            "/dev/video0"@
        },
{
    if macos {
        "0".to_owned()
    } else {
        "/dev/video0".to_owned()
    }
}

/// How ffmpeg is asked to behave.
pub open spec fn quiet_args() -> Seq<Seq<char>> {
    seq!["-y"@, "-hide_banner"@, "-loglevel"@, "error"@]
}

/// The demo stream, at so many frames a second: a synthetic camera with two demo faces.
pub open spec fn demo_args(demo_dir: Seq<char>, fps: nat) -> Seq<Seq<char>> {
    seq![
        "-re"@,
        "-f"@,
        "lavfi"@,
        "-i"@,
        "testsrc2=size=640x480:rate=15"@,
        "-loop"@,
        "1"@,
        "-framerate"@,
        "5"@,
        "-i"@,
        demo_dir + "/Barack_Obama.jpg"@,
        "-loop"@,
        "1"@,
        "-framerate"@,
        "5"@,
        "-i"@,
        demo_dir + "/Rose_Leslie.jpg"@,
        "-filter_complex"@,
        DEMO_FILTER@ + "fps="@ + decimal(fps) + ",scale=512:-2[out]"@,
        "-map"@,
        "[out]"@,
    ]
}

/// A camera, at so many frames a second.
pub open spec fn camera_args(camera: Seq<char>, fps: nat, macos: bool) -> Seq<Seq<char>> {
    seq![
        "-f"@,
        if macos {
            "avfoundation"@
        } else {
            "v4l2"@
        },
        "-framerate"@,
        "30"@,
        "-i"@,
        camera,
        "-vf"@,
        "fps="@ + decimal(fps) + ",scale=512:-2"@,
    ]
}

/// A limit on the duration of the output, where there is one. It stands behind every input: with
/// looped images in the graph, a limit on an input never ends the process.
pub open spec fn limit_args(duration: nat) -> Seq<Seq<char>> {
    if duration > 0 {
        seq!["-t"@, decimal(duration)]
    } else {
        seq![]
    }
}

/// One JPEG, rewritten atomically with each frame.
pub open spec fn output_args() -> Seq<Seq<char>> {
    seq![
        "-q:v"@,
        "4"@,
        "-f"@,
        "image2"@,
        "-update"@,
        "1"@,
        "-atomic_writing"@,
        "1"@,
    ]
}

/// The command line of the frame tap, up to the file that it writes.
pub open spec fn tap_args(o: WatchOpts, demo_dir: Seq<char>, macos: bool) -> Seq<Seq<char>> {
    quiet_args() + (if o.demo {
        demo_args(demo_dir, o.fps as nat)
    } else {
        camera_args(o.camera@, o.fps as nat, macos)
    }) + limit_args(o.duration as nat) + output_args()
}

/// The arguments of ffmpeg that tap frames from the demo stream or a camera, but for the last one:
/// the file to write.
pub fn ffmpeg_args(o: &WatchOpts, demo_dir: &str, macos: bool) -> (r: Vec<String>)
    ensures
        texts(r@) == tap_args(*o, demo_dir@, macos),
{
    let mut r: Vec<String> = vec![
        "-y".to_owned(),
        "-hide_banner".to_owned(),
        "-loglevel".to_owned(),
        "error".to_owned(),
    ];
    assert(texts(r@) == quiet_args());
    let rate = decimal_text(o.fps as u128);
    let mut source: Vec<String> = if o.demo {
        let filter = framed(DEMO_FILTER, "fps=", rate.as_str());
        let demo = vec![
            "-re".to_owned(),
            "-f".to_owned(),
            "lavfi".to_owned(),
            "-i".to_owned(),
            "testsrc2=size=640x480:rate=15".to_owned(),
            "-loop".to_owned(),
            "1".to_owned(),
            "-framerate".to_owned(),
            "5".to_owned(),
            "-i".to_owned(),
            joined(demo_dir, "/Barack_Obama.jpg"),
            "-loop".to_owned(),
            "1".to_owned(),
            "-framerate".to_owned(),
            "5".to_owned(),
            "-i".to_owned(),
            joined(demo_dir, "/Rose_Leslie.jpg"),
            "-filter_complex".to_owned(),
            joined(filter.as_str(), ",scale=512:-2[out]"),
            "-map".to_owned(),
            "[out]".to_owned(),
        ];
        assert(texts(demo@) == demo_args(demo_dir@, o.fps as nat));
        demo
    } else {
        let fps = joined("fps=", rate.as_str());
        let camera = vec![
            "-f".to_owned(),
            if macos {
                "avfoundation".to_owned()
            } else {
                "v4l2".to_owned()
            },
            "-framerate".to_owned(),
            "30".to_owned(),
            "-i".to_owned(),
            o.camera.clone(),
            "-vf".to_owned(),
            joined(fps.as_str(), ",scale=512:-2"),
        ];
        assert(texts(camera@) == camera_args(o.camera@, o.fps as nat, macos));
        camera
    };
    let ghost source_texts = texts(source@);
    r.append(&mut source);
    let mut limit: Vec<String> = Vec::new();
    if o.duration > 0 {
        limit.push("-t".to_owned());
        limit.push(decimal_text(o.duration as u128));
    }
    assert(texts(limit@) == limit_args(o.duration as nat));
    r.append(&mut limit);
    let mut output: Vec<String> = vec![
        "-q:v".to_owned(),
        "4".to_owned(),
        "-f".to_owned(),
        "image2".to_owned(),
        "-update".to_owned(),
        "1".to_owned(),
        "-atomic_writing".to_owned(),
        "1".to_owned(),
    ];
    assert(texts(output@) == output_args());
    r.append(&mut output);
    assert(texts(r@) == tap_args(*o, demo_dir@, macos));
    r
}

/// The line that announces what is watched, given the threshold with two decimals.
pub fn banner(o: &WatchOpts, threshold: &str) -> (r: String)
    ensures
        r@ == "watching "@ + (if o.demo {
            "demo stream"@
        } else {
            "camera "@ + o.camera@
        }) + " (threshold "@ + threshold@ + "); ctrl-c to stop"@,
{
    let mut r: String = "watching ".to_owned();
    if o.demo {
        r.append("demo stream");
    } else {
        let camera = joined("camera ", o.camera.as_str());
        r.append(camera.as_str());
    }
    r.append(" (threshold ");
    r.append(threshold);
    r.append("); ctrl-c to stop");
    r
}

/// A limit on the duration is a limit on the output: no input stands behind it.
pub proof fn law_limit_is_on_the_output(o: WatchOpts, demo_dir: Seq<char>, macos: bool)
    requires
        o.duration > 0,
    ensures
        exists|at: int|
            {
                &&& 0 <= at < tap_args(o, demo_dir, macos).len() - 1
                &&& #[trigger] tap_args(o, demo_dir, macos)[at] == "-t"@
                &&& tap_args(o, demo_dir, macos)[at + 1] == decimal(o.duration as nat)
                &&& forall|i: int|
                    at < i < tap_args(o, demo_dir, macos).len() ==> #[trigger] tap_args(
                        o,
                        demo_dir,
                        macos,
                    )[i] != "-i"@
            },
{
    let args = tap_args(o, demo_dir, macos);
    let at = 4 + if o.demo { 21int } else { 8int };
    reveal_strlit("-i");
    reveal_strlit("-q:v");
    reveal_strlit("4");
    reveal_strlit("-f");
    reveal_strlit("image2");
    reveal_strlit("-update");
    reveal_strlit("1");
    reveal_strlit("-atomic_writing");
    lemma_decimal_digits(o.duration as nat);
    assert(args[at] == "-t"@);
    assert(args[at + 1] == decimal(o.duration as nat));
    assert forall|i: int| at < i < args.len() implies #[trigger] args[i] != "-i"@ by {
        if i == at + 1 {
            assert(decimal(o.duration as nat)[0] != "-i"@[0]);
        } else {
            assert(args[i] == output_args()[i - at - 2]);
            assert("-f"@[1] != "-i"@[1]);
        }
    }
}

// ---------- Watching ----------

/// When a file was last written: seconds since the epoch and nanoseconds.
#[derive(Clone, Copy, Debug, PartialEq, Eq, Structural)]
pub struct Mtime {
    pub secs: i64,
    pub nanos: u32,
}

/// The enrolled person nearest to a face, and whether the similarity reaches the threshold.
pub struct Sighting {
    pub name: String,
    pub similar: bool,
}

/// A frame that was looked at: for each face the nearest enrolled person, if anybody is enrolled,
/// and how long it took, in milliseconds.
pub struct Frame {
    pub nearest: Vec<Option<Sighting>>,
    pub millis: u128,
}

/// What the watcher learns.
pub enum Event {
    /// The stream ended, with this status.
    Ended(String),
    /// No frame was tapped yet.
    TapMissing,
    /// The tapped frame was written at this time.
    TapWritten(Mtime),
    /// The tapped frame could not be read.
    FrameUnreadable,
    /// The faces of the tapped frame were looked up.
    FrameSeen(Frame),
}

/// What the watcher does next. But for `Stop` and `Look` it then asks about the stream again.
pub enum Action {
    /// Print a line and stop.
    Stop(String),
    /// Sleep for so many milliseconds.
    Sleep(u64),
    /// Look at the tapped frame.
    Look,
    /// Nothing.
    Nothing,
    /// Print some lines.
    Print(Vec<String>),
}

/// The watcher: when the last frame was written, who is present, and how many frames there were.
pub struct Watcher {
    pub fps: u32,
    pub last: Option<Mtime>,
    pub present: NameSet,
    pub frames: u64,
}

/// The watcher, its names taken as characters.
pub struct WatcherView {
    pub fps: u32,
    pub last: Option<Mtime>,
    pub present: Seq<Seq<char>>,
    pub frames: u64,
}

impl View for Watcher {
    type V = WatcherView;

    open spec fn view(&self) -> WatcherView {
        WatcherView {
            fps: self.fps,
            last: self.last,
            present: self.present@,
            frames: self.frames,
        }
    }
}

/// Somebody of this name is recognized in a frame.
pub open spec fn recognized(nearest: Seq<Option<Sighting>>, name: Seq<char>) -> bool {
    exists|k: int|
        0 <= k < nearest.len() && (#[trigger] nearest[k] matches Some(s) && s.similar && s.name@
            == name)
}

/// The names that are recognized in a frame, in order.
pub open spec fn is_now(now: Seq<Seq<char>>, nearest: Seq<Option<Sighting>>) -> bool {
    &&& ascending(now)
    &&& forall|n: Seq<char>| #[trigger] now.contains(n) <==> recognized(nearest, n)
}

/// The names with a comma between each two of them.
pub open spec fn comma_separated(names: Seq<Seq<char>>) -> Seq<char>
    decreases names.len(),
{
    if names.len() == 0 {
        Seq::empty()
    } else if names.len() == 1 {
        names[0]
    } else {
        comma_separated(names.drop_last()) + ", "@ + names.last()
    }
}

/// The line that tells of a frame.
pub open spec fn frame_line(frames: nat, faces: nat, now: Seq<Seq<char>>, millis: nat) -> Seq<
    char,
> {
    "  frame "@ + decimal(frames) + ": "@ + decimal(faces) + " face(s), "@ + decimal(now.len())
        + " known ["@ + comma_separated(now) + "] ("@ + decimal(millis) + " ms)"@
}

/// The lines that tell of people who entered.
pub open spec fn entered_lines(names: Seq<Seq<char>>) -> Seq<Seq<char>> {
    names.map_values(|n: Seq<char>| "+ "@ + n + " entered"@)
}

/// The lines that tell of people who left.
pub open spec fn left_lines(names: Seq<Seq<char>>) -> Seq<Seq<char>> {
    names.map_values(|n: Seq<char>| "- "@ + n + " left"@)
}

/// The lines for a frame in which `now` are recognized where `present` were before: who entered,
/// who left, and, with every tenth frame and with every change, a line on the frame.
pub open spec fn frame_lines(
    present: Seq<Seq<char>>,
    now: Seq<Seq<char>>,
    frames: nat,
    faces: nat,
    millis: nat,
) -> Seq<Seq<char>> {
    entered_lines(missing(now, present)) + left_lines(missing(present, now)) + (if frames % 10 == 1
        || now != present {
        seq![frame_line(frames, faces, now, millis)]
    } else {
        seq![]
    })
}

/// How long to wait for the next frame, in milliseconds: half the time between two frames.
pub open spec fn pause(fps: u32) -> u64 {
    if fps == 0 {
        500
    } else {
        (1000int / (2 * fps as int)) as u64
    }
}

fn pause_millis(fps: u32) -> (r: u64)
    ensures
        r == pause(fps),
{
    let rate: u64 = if fps == 0 { 1 } else { fps as u64 };
    let span: u64 = 2 * rate;
    assert(0 <= 1000int / (span as int) <= 1000) by (nonlinear_arith)
        requires
            span >= 1,
    ;
    1000 / span
}

/// What a watcher does and becomes with an event.
pub open spec fn stepped(w: WatcherView, event: Event, action: Action, after: WatcherView) -> bool {
    match event {
        Event::Ended(status) => {
            &&& after == w
            &&& action matches Action::Stop(line) && line@ == "stream ended ("@ + status@ + "); "@
                + decimal(w.frames as nat) + " frames analyzed"@
        },
        Event::TapMissing => after == w && action == Action::Sleep(200),
        Event::TapWritten(at) => if w.last == Some(at) {
            after == w && action == Action::Sleep(pause(w.fps))
        } else {
            &&& after == (WatcherView { last: Some(at), frames: (w.frames + 1) as u64, ..w })
            &&& action == Action::Look
        },
        Event::FrameUnreadable => after == w && action == Action::Nothing,
        Event::FrameSeen(frame) => {
            &&& is_now(after.present, frame.nearest@)
            &&& after == (WatcherView { present: after.present, ..w })
            &&& action matches Action::Print(lines) && texts(lines@) == frame_lines(
                w.present,
                after.present,
                w.frames as nat,
                frame.nearest@.len(),
                frame.millis as nat,
            )
        },
    }
}

fn recognized_names(nearest: &Vec<Option<Sighting>>) -> (r: NameSet)
    ensures
        r.wf(),
        is_now(r@, nearest@),
{
    let mut now = NameSet::new();
    let mut i: usize = 0;
    while i < nearest.len()
        invariant
            i <= nearest@.len(),
            now.wf(),
            forall|n: Seq<char>| #[trigger]
                now@.contains(n) <==> recognized(nearest@.take(i as int), n),
        decreases nearest@.len() - i,
    {
        let ghost known = now@;
        match &nearest[i] {
            Some(s) => {
                if s.similar {
                    now.insert(s.name.clone());
                }
            },
            None => {},
        }
        proof {
            let before = nearest@.take(i as int);
            let next = nearest@.take(i + 1);
            assert forall|n: Seq<char>| #[trigger] now@.contains(n) <==> recognized(next, n) by {
                if recognized(before, n) {
                    let k = choose|k: int|
                        0 <= k < before.len() && (#[trigger] before[k] matches Some(s) && s.similar
                            && s.name@ == n);
                    assert(next[k] == before[k]);
                }
                if recognized(next, n) {
                    let k = choose|k: int|
                        0 <= k < next.len() && (#[trigger] next[k] matches Some(s) && s.similar
                            && s.name@ == n);
                    if k < i {
                        assert(before[k] == next[k]);
                    }
                }
                assert(next[i as int] == nearest@[i as int]);
                assert(known.contains(n) <==> recognized(before, n));
            }
        }
        i = i + 1;
    }
    assert(nearest@.take(i as int) == nearest@);
    now
}

fn comma_joined(names: &Vec<String>) -> (r: String)
    ensures
        r@ == comma_separated(texts(names@)),
{
    let mut r = String::new();
    let mut i: usize = 0;
    while i < names.len()
        invariant
            i <= names@.len(),
            r@ == comma_separated(texts(names@).take(i as int)),
        decreases names@.len() - i,
    {
        if i > 0 {
            r.append(", ");
        }
        r.append(names[i].as_str());
        proof {
            let next = texts(names@).take(i + 1);
            assert(next.drop_last() == texts(names@).take(i as int));
            assert(next.last() == names@[i as int]@);
            if i == 0 {
                assert(r@ == names@[0]@);
            }
        }
        i = i + 1;
    }
    assert(texts(names@).take(i as int) == texts(names@));
    r
}

fn status_line(frames: u64, faces: usize, now: &NameSet, millis: u128) -> (r: String)
    ensures
        r@ == frame_line(frames as nat, faces as nat, now@, millis as nat),
{
    let mut r: String = "  frame ".to_owned();
    let number = decimal_text(frames as u128);
    r.append(number.as_str());
    r.append(": ");
    let seen = decimal_text(faces as u128);
    r.append(seen.as_str());
    r.append(" face(s), ");
    let known = decimal_text(now.names.len() as u128);
    r.append(known.as_str());
    r.append(" known [");
    let names = comma_joined(&now.names);
    r.append(names.as_str());
    r.append("] (");
    let time = decimal_text(millis);
    r.append(time.as_str());
    r.append(" ms)");
    r
}

fn lines_around(start: &str, names: &Vec<String>, end: &str) -> (r: Vec<String>)
    ensures
        texts(r@) == texts(names@).map_values(|n: Seq<char>| start@ + n + end@),
{
    let mut r: Vec<String> = Vec::new();
    let mut i: usize = 0;
    while i < names.len()
        invariant
            i <= names@.len(),
            r@.len() == i,
            forall|k: int| 0 <= k < i ==> (#[trigger] r@[k])@ == start@ + names@[k]@ + end@,
        decreases names@.len() - i,
    {
        r.push(framed(start, names[i].as_str(), end));
        i = i + 1;
    }
    assert(texts(r@) == texts(names@).map_values(|n: Seq<char>| start@ + n + end@));
    r
}

impl Watcher {
    /// The names of those who are present are in order.
    pub open spec fn wf(&self) -> bool {
        self.present.wf()
    }

    /// A watcher that has seen nothing yet.
    pub fn new(fps: u32) -> (r: Watcher)
        ensures
            r.wf(),
            r@ == (WatcherView { fps, last: None, present: Seq::empty(), frames: 0 }),
    {
        Watcher { fps, last: None, present: NameSet::new(), frames: 0 }
    }

    fn see(&mut self, frame: Frame) -> (r: Vec<String>)
        requires
            old(self).wf(),
        ensures
            final(self).wf(),
            is_now(final(self)@.present, frame.nearest@),
            final(self)@ == (WatcherView { present: final(self)@.present, ..old(self)@ }),
            texts(r@) == frame_lines(
                old(self)@.present,
                final(self)@.present,
                old(self)@.frames as nat,
                frame.nearest@.len(),
                frame.millis as nat,
            ),
    {
        let now = recognized_names(&frame.nearest);
        let entered = now.difference(&self.present);
        let left = self.present.difference(&now);
        let mut lines = lines_around("+ ", &entered, " entered");
        let mut left_part = lines_around("- ", &left, " left");
        assert(texts(lines@) == entered_lines(missing(now@, self.present@)));
        assert(texts(left_part@) == left_lines(missing(self.present@, now@)));
        let ghost entered_part = lines@;
        let ghost left_seq = left_part@;
        lines.append(&mut left_part);
        assert(texts(lines@) == texts(entered_part) + texts(left_seq));
        if self.frames % 10 == 1 || !now.same(&self.present) {
            let ghost before = texts(lines@);
            let line = status_line(self.frames, frame.nearest.len(), &now, frame.millis);
            let ghost text = line@;
            lines.push(line);
            assert(texts(lines@) == before + seq![text]);
        }
        self.present = now;
        lines
    }

    /// Takes an event and says what to do next.
    pub fn step(&mut self, event: Event) -> (r: Action)
        requires
            old(self).wf(),
            event is TapWritten && old(self)@.last != Some(event->TapWritten_0) ==> old(self).frames
                < u64::MAX,
        ensures
            final(self).wf(),
            stepped(old(self)@, event, r, final(self)@),
    {
        match event {
            Event::Ended(status) => {
                let mut line: String = "stream ended (".to_owned();
                line.append(status.as_str());
                line.append("); ");
                let frames = decimal_text(self.frames as u128);
                line.append(frames.as_str());
                line.append(" frames analyzed");
                assert(line@ == "stream ended ("@ + status@ + "); "@ + decimal(self.frames as nat)
                    + " frames analyzed"@);
                Action::Stop(line)
            },
            Event::TapMissing => Action::Sleep(200),
            Event::TapWritten(at) => {
                let same = match self.last {
                    Some(last) => last == at,
                    None => false,
                };
                if same {
                    Action::Sleep(pause_millis(self.fps))
                } else {
                    self.last = Some(at);
                    self.frames = self.frames + 1;
                    Action::Look
                }
            },
            Event::FrameUnreadable => Action::Nothing,
            Event::FrameSeen(frame) => Action::Print(self.see(frame)),
        }
    }
}

proof fn lemma_missing_contains(from: Seq<Seq<char>>, other: Seq<Seq<char>>, name: Seq<char>)
    ensures
        missing(from, other).contains(name) <==> from.contains(name) && !other.contains(name),
    decreases from.len(),
{
    reveal(Seq::filter);
    if from.len() > 0 {
        let rest = from.drop_last();
        lemma_missing_contains(rest, other, name);
        assert(from == rest.push(from.last()));
        lemma_push_contains(rest, from.last(), name);
        if !other.contains(from.last()) {
            lemma_push_contains(missing(rest, other), from.last(), name);
        }
    }
}

proof fn lemma_push_contains(s: Seq<Seq<char>>, last: Seq<char>, name: Seq<char>)
    ensures
        s.push(last).contains(name) <==> s.contains(name) || last == name,
{
    let t = s.push(last);
    if s.contains(name) {
        let k = choose|k: int| 0 <= k < s.len() && s[k] == name;
        assert(t[k] == name);
    }
    if last == name {
        assert(t[s.len() as int] == name);
    }
    if t.contains(name) && last != name {
        let k = choose|k: int| 0 <= k < t.len() && t[k] == name;
        assert(s[k] == name);
    }
}

/// Who enters was not present, who leaves was, nobody does both, and those who were present, with
/// those who entered and without those who left, are those who are present now.
pub proof fn law_transitions_account_for_the_change(
    present: Seq<Seq<char>>,
    now: Seq<Seq<char>>,
    name: Seq<char>,
)
    ensures
        missing(now, present).contains(name) ==> !present.contains(name) && !missing(
            present,
            now,
        ).contains(name),
        missing(present, now).contains(name) ==> present.contains(name),
        now.contains(name) <==> present.contains(name) && !missing(present, now).contains(name)
            || missing(now, present).contains(name),
{
    lemma_missing_contains(now, present, name);
    lemma_missing_contains(present, now, name);
}

/// Nobody enters and nobody leaves exactly where the same people are present as before.
pub proof fn law_no_transition_without_change(present: Seq<Seq<char>>, now: Seq<Seq<char>>)
    requires
        ascending(present),
        ascending(now),
    ensures
        missing(now, present).len() == 0 && missing(present, now).len() == 0 <==> now == present,
{
    let entered = missing(now, present);
    let left = missing(present, now);
    assert forall|n: Seq<char>| entered.len() == 0 && left.len() == 0 implies (#[trigger] now.contains(
        n,
    ) <==> present.contains(n)) by {
        law_transitions_account_for_the_change(present, now, n);
    }
    if entered.len() == 0 && left.len() == 0 {
        law_ascending_is_settled_by_members(now, present);
    }
    if now == present {
        if entered.len() > 0 {
            assert(entered.contains(entered[0]));
            lemma_missing_contains(now, present, entered[0]);
        }
        if left.len() > 0 {
            assert(left.contains(left[0]));
            lemma_missing_contains(present, now, left[0]);
        }
    }
}

/// Who is present for one who has only read the lines on people entering and leaving, after frames
/// in which `nows` were recognized one after the other; nobody is present at first.
pub open spec fn announced(nows: Seq<Seq<Seq<char>>>, name: Seq<char>) -> bool
    decreases nows.len(),
{
    if nows.len() == 0 {
        false
    } else {
        let before: Seq<Seq<char>> = if nows.len() == 1 {
            Seq::empty()
        } else {
            nows[nows.len() - 2]
        };
        let now = nows.last();
        if missing(now, before).contains(name) {
            true
        } else if missing(before, now).contains(name) {
            false
        } else {
            announced(nows.drop_last(), name)
        }
    }
}

/// The lines on people entering and leaving tell who is present: after any frames, whoever was
/// recognized in the last one and nobody else.
pub proof fn law_announcements_track_presence(nows: Seq<Seq<Seq<char>>>, name: Seq<char>)
    ensures
        announced(nows, name) <==> nows.len() > 0 && nows.last().contains(name),
    decreases nows.len(),
{
    if nows.len() > 0 {
        let before: Seq<Seq<char>> = if nows.len() == 1 {
            Seq::empty()
        } else {
            nows[nows.len() - 2]
        };
        law_announcements_track_presence(nows.drop_last(), name);
        law_transitions_account_for_the_change(before, nows.last(), name);
    }
}

/// Only a frame that was looked at changes who is present, and only a newly written frame counts.
pub proof fn law_other_events_leave_presence(
    w: WatcherView,
    event: Event,
    action: Action,
    after: WatcherView,
)
    requires
        stepped(w, event, action, after),
        w.frames < u64::MAX,
    ensures
        !(event is FrameSeen) ==> after.present == w.present,
        after.frames == w.frames + (if action is Look {
            1int
        } else {
            0int
        }),
        action is Look <==> event is TapWritten && w.last != Some(event->TapWritten_0),
        action is Stop <==> event is Ended,
{
}

/// What follows a frame is settled: the names that are recognized in it have one order only.
pub proof fn law_recognized_names_are_settled(
    now1: Seq<Seq<char>>,
    now2: Seq<Seq<char>>,
    nearest: Seq<Option<Sighting>>,
)
    requires
        is_now(now1, nearest),
        is_now(now2, nearest),
    ensures
        now1 == now2,
{
    law_ascending_is_settled_by_members(now1, now2);
}

// ---------- What a watch shows ----------

/// A face of a frame is similar to the person of this name: the nearest person is them, and near
/// enough.
pub open spec fn is_sighting_of(seen: Option<Sighting>, name: Seq<char>) -> bool {
    seen is Some && seen->0.similar && seen->0.name@ == name
}

/// Everybody to whom some face of a frame is similar is present after it, whatever the other faces
/// are, and nobody else is; each once and in order.
pub proof fn law_every_similar_face_is_present(
    w: WatcherView,
    frame: Frame,
    action: Action,
    after: WatcherView,
)
    requires
        stepped(w, Event::FrameSeen(frame), action, after),
    ensures
        forall|k: int|
            0 <= k < frame.nearest@.len() && (#[trigger] frame.nearest@[k] matches Some(s)
                && s.similar) ==> after.present.contains(frame.nearest@[k]->0.name@),
        forall|n: Seq<char>| #[trigger]
            after.present.contains(n) ==> exists|k: int|
                0 <= k < frame.nearest@.len() && is_sighting_of(#[trigger] frame.nearest@[k], n),
        forall|i: int, j: int|
            0 <= i < j < after.present.len() ==> precedes(
                #[trigger] after.present[i],
                #[trigger] after.present[j],
            ),
{
    let nearest = frame.nearest@;
    assert forall|k: int|
        0 <= k < nearest.len() && (#[trigger] nearest[k] matches Some(s) && s.similar) implies after.present.contains(
        nearest[k]->0.name@,
    ) by {
        assert(recognized(nearest, nearest[k]->0.name@));
    }
    assert forall|n: Seq<char>| #[trigger] after.present.contains(n) implies exists|k: int|
        0 <= k < nearest.len() && is_sighting_of(#[trigger] nearest[k], n) by {
        let k = choose|k: int|
            0 <= k < nearest.len() && (#[trigger] nearest[k] matches Some(s) && s.similar && s.name@
                == n);
        assert(is_sighting_of(nearest[k], n));
    }
}

/// The names recognized in a frame are those of all its similar faces, and no others.
pub proof fn law_every_similar_face_is_recognized(
    now: Seq<Seq<char>>,
    nearest: Seq<Option<Sighting>>,
    name: Seq<char>,
)
    requires
        is_now(now, nearest),
    ensures
        now.contains(name) <==> exists|k: int|
            0 <= k < nearest.len() && is_sighting_of(#[trigger] nearest[k], name),
{
    if exists|k: int| 0 <= k < nearest.len() && is_sighting_of(#[trigger] nearest[k], name) {
        let k = choose|k: int| 0 <= k < nearest.len() && is_sighting_of(#[trigger] nearest[k], name);
        assert(recognized(nearest, name));
    }
    if recognized(nearest, name) {
        let k = choose|k: int|
            0 <= k < nearest.len() && (#[trigger] nearest[k] matches Some(s) && s.similar && s.name@
                == name);
        assert(is_sighting_of(nearest[k], name));
    }
}

/// Who is present after a frame depends on who is sighted in it alone: frames in which the same
/// people are sighted leave the same people present, in whatever order and among whatever strangers
/// they are, and whoever was present before.
pub proof fn law_presence_depends_on_who_is_sighted(
    w1: WatcherView,
    frame1: Frame,
    action1: Action,
    after1: WatcherView,
    w2: WatcherView,
    frame2: Frame,
    action2: Action,
    after2: WatcherView,
)
    requires
        stepped(w1, Event::FrameSeen(frame1), action1, after1),
        stepped(w2, Event::FrameSeen(frame2), action2, after2),
        forall|k: int|
            0 <= k < frame1.nearest@.len() && (#[trigger] frame1.nearest@[k] matches Some(s)
                && s.similar) ==> exists|j: int|
                0 <= j < frame2.nearest@.len() && is_sighting_of(
                    #[trigger] frame2.nearest@[j],
                    frame1.nearest@[k]->0.name@,
                ),
        forall|k: int|
            0 <= k < frame2.nearest@.len() && (#[trigger] frame2.nearest@[k] matches Some(s)
                && s.similar) ==> exists|j: int|
                0 <= j < frame1.nearest@.len() && is_sighting_of(
                    #[trigger] frame1.nearest@[j],
                    frame2.nearest@[k]->0.name@,
                ),
    ensures
        after1.present == after2.present,
{
    assert forall|n: Seq<char>| #[trigger] after1.present.contains(n) <==> after2.present.contains(
        n,
    ) by {
        if recognized(frame1.nearest@, n) {
            let k = choose|k: int|
                0 <= k < frame1.nearest@.len() && (#[trigger] frame1.nearest@[k] matches Some(s)
                    && s.similar && s.name@ == n);
            let j = choose|j: int|
                0 <= j < frame2.nearest@.len() && is_sighting_of(
                    #[trigger] frame2.nearest@[j],
                    frame1.nearest@[k]->0.name@,
                );
            assert(recognized(frame2.nearest@, n)) by {
                assert(frame2.nearest@[j] matches Some(s) && s.similar && s.name@ == n);
            }
        }
        if recognized(frame2.nearest@, n) {
            let k = choose|k: int|
                0 <= k < frame2.nearest@.len() && (#[trigger] frame2.nearest@[k] matches Some(s)
                    && s.similar && s.name@ == n);
            let j = choose|j: int|
                0 <= j < frame1.nearest@.len() && is_sighting_of(
                    #[trigger] frame1.nearest@[j],
                    frame2.nearest@[k]->0.name@,
                );
            assert(recognized(frame1.nearest@, n)) by {
                assert(frame1.nearest@[j] matches Some(s) && s.similar && s.name@ == n);
            }
        }
    }
    law_ascending_is_settled_by_members(after1.present, after2.present);
}

/// A stranger in a frame makes no difference: without a face that is similar to nobody, the same
/// people are present.
pub proof fn law_strangers_make_no_difference(
    w: WatcherView,
    frame: Frame,
    action: Action,
    after: WatcherView,
    without: Frame,
    action_without: Action,
    after_without: WatcherView,
    at: int,
)
    requires
        stepped(w, Event::FrameSeen(frame), action, after),
        stepped(w, Event::FrameSeen(without), action_without, after_without),
        0 <= at < frame.nearest@.len(),
        !(frame.nearest@[at] matches Some(s) && s.similar),
        without.nearest@ == frame.nearest@.remove(at),
    ensures
        after.present == after_without.present,
{
    let some = frame.nearest@;
    let fewer = without.nearest@;
    assert forall|k: int|
        0 <= k < some.len() && (#[trigger] some[k] matches Some(s) && s.similar) implies exists|
        j: int,
    |
        0 <= j < fewer.len() && is_sighting_of(#[trigger] fewer[j], some[k]->0.name@) by {
        let j = if k < at { k } else { k - 1 };
        assert(fewer[j] == some[k]);
        assert(is_sighting_of(fewer[j], some[k]->0.name@));
    }
    assert forall|k: int|
        0 <= k < fewer.len() && (#[trigger] fewer[k] matches Some(s) && s.similar) implies exists|
        j: int,
    |
        0 <= j < some.len() && is_sighting_of(#[trigger] some[j], fewer[k]->0.name@) by {
        let j = if k < at { k } else { k + 1 };
        assert(fewer[k] == some[j]);
        assert(is_sighting_of(some[j], fewer[k]->0.name@));
    }
    law_presence_depends_on_who_is_sighted(
        w,
        frame,
        action,
        after,
        w,
        without,
        action_without,
        after_without,
    );
}

/// Where the name `k` of a list starts, with two characters between each two names.
pub open spec fn name_offset(names: Seq<Seq<char>>, k: nat) -> nat
    decreases k,
{
    if k == 0 {
        0
    } else {
        name_offset(names, (k - 1) as nat) + names[k - 1].len() + 2
    }
}

/// The text is the names, all of them whole and in order, with a comma and a space between each two.
pub open spec fn is_comma_list(text: Seq<char>, names: Seq<Seq<char>>) -> bool {
    if names.len() == 0 {
        text.len() == 0
    } else {
        &&& text.len() + 2 == name_offset(names, names.len())
        &&& forall|k: nat, i: int|
            k < names.len() && 0 <= i < names[k as int].len() ==> text[name_offset(names, k) + i]
                == #[trigger] names[k as int][i]
        &&& forall|k: nat|
            0 < k < names.len() ==> text[#[trigger] name_offset(names, k) - 2] == ','
                && text[name_offset(names, k) - 1] == ' '
    }
}

proof fn lemma_comma_list(names: Seq<Seq<char>>)
    ensures
        is_comma_list(comma_separated(names), names),
    decreases names.len(),
{
    reveal_strlit(", ");
    let text = comma_separated(names);
    if names.len() == 1 {
        assert(name_offset(names, 1) == name_offset(names, 0) + names[0].len() + 2);
        assert forall|k: nat, i: int| k < names.len() && 0 <= i < names[k as int].len() implies text[
        name_offset(names, k) + i] == #[trigger] names[k as int][i] by {
            assert(k == 0);
        }
    } else if names.len() > 1 {
        let rest = names.drop_last();
        let start = comma_separated(rest);
        lemma_comma_list(rest);
        let m = rest.len();
        assert forall|k: nat| k <= m implies #[trigger] name_offset(names, k) == name_offset(
            rest,
            k,
        ) by {
            lemma_offset_of_rest(names, k);
        }
        assert(name_offset(names, m + 1) == name_offset(names, m) + names[m as int].len() + 2);
        assert(start.len() + 2 == name_offset(names, m));
        assert forall|k: nat, i: int| k < names.len() && 0 <= i < names[k as int].len() implies text[
        name_offset(names, k) + i] == #[trigger] names[k as int][i] by {
            if k < m {
                assert(rest[k as int][i] == names[k as int][i]);
                lemma_offsets_grow(rest, k + 1, m);
                assert(name_offset(rest, k + 1) == name_offset(rest, k) + rest[k as int].len() + 2);
                assert(text[name_offset(names, k) + i] == start[name_offset(rest, k) + i]);
            } else {
                assert(k == m);
                assert(text[start.len() + 2 + i] == names.last()[i]);
            }
        }
        assert forall|k: nat| 0 < k < names.len() implies text[#[trigger] name_offset(names, k) - 2]
            == ',' && text[name_offset(names, k) - 1] == ' ' by {
            assert(name_offset(names, k) == name_offset(names, (k - 1) as nat) + names[k
                - 1].len() + 2);
            if k < m {
                lemma_offsets_grow(rest, k + 1, m);
                assert(name_offset(rest, k + 1) == name_offset(rest, k) + rest[k as int].len() + 2);
                assert(start[name_offset(rest, k) - 2] == ',');
                assert(start[name_offset(rest, k) - 1] == ' ');
            } else {
                assert(k == m);
                assert(text[start.len() as int] == ", "@[0]);
                assert(text[start.len() as int + 1] == ", "@[1]);
            }
        }
    }
}

proof fn lemma_offset_of_rest(names: Seq<Seq<char>>, k: nat)
    requires
        k < names.len(),
    ensures
        name_offset(names, k) == name_offset(names.drop_last(), k),
    decreases k,
{
    if k > 0 {
        lemma_offset_of_rest(names, (k - 1) as nat);
    }
}

proof fn lemma_offsets_grow(names: Seq<Seq<char>>, j: nat, k: nat)
    requires
        j <= k,
    ensures
        name_offset(names, j) <= name_offset(names, k),
    decreases k,
{
    if j < k {
        lemma_offsets_grow(names, j, (k - 1) as nat);
    }
}

/// The lines are the report of a frame: one for each of `entered`, one for each of `left`, and, where
/// there is more to tell, one on the frame, its numbers and everybody present.
pub open spec fn is_frame_report(
    lines: Seq<String>,
    entered: Seq<Seq<char>>,
    left: Seq<Seq<char>>,
    frames: nat,
    faces: nat,
    present: Seq<Seq<char>>,
    millis: nat,
    more: bool,
) -> bool {
    &&& lines.len() == entered.len() + left.len() + if more {
        1nat
    } else {
        0nat
    }
    &&& forall|k: int|
        0 <= k < entered.len() ==> (#[trigger] lines[k])@ == "+ "@ + entered[k] + " entered"@
    &&& forall|k: int|
        entered.len() <= k < entered.len() + left.len() ==> (#[trigger] lines[k])@ == "- "@ + left[k
            - entered.len()] + " left"@
    &&& more ==> exists|names: Seq<char>| #[trigger]
        is_comma_list(names, present) && lines.last()@ == "  frame "@ + decimal(frames) + ": "@
            + decimal(faces) + " face(s), "@ + decimal(present.len()) + " known ["@ + names + "] ("@
            + decimal(millis) + " ms)"@
}

/// `entered` are those who are present now and were not before, `left` those who were and are not,
/// each in order.
pub open spec fn came_and_went(
    before: Seq<Seq<char>>,
    now: Seq<Seq<char>>,
    entered: Seq<Seq<char>>,
    left: Seq<Seq<char>>,
) -> bool {
    &&& ascending(entered)
    &&& ascending(left)
    &&& forall|n: Seq<char>| #[trigger]
        entered.contains(n) <==> now.contains(n) && !before.contains(n)
    &&& forall|n: Seq<char>| #[trigger] left.contains(n) <==> before.contains(n) && !now.contains(n)
}

/// After a frame, a line tells of each one who is present now and was not before, then one of each
/// who was and is not, each in the order of names; and a line on the frame follows with every tenth
/// frame, counted from the first, and whenever somebody came or went.
pub proof fn law_lines_tell_who_came_and_went(
    w: WatcherView,
    frame: Frame,
    action: Action,
    after: WatcherView,
)
    requires
        stepped(w, Event::FrameSeen(frame), action, after),
        ascending(w.present),
    ensures
        action is Print,
        exists|entered: Seq<Seq<char>>, left: Seq<Seq<char>>| #[trigger]
            came_and_went(w.present, after.present, entered, left) && is_frame_report(
                action->Print_0@,
                entered,
                left,
                w.frames as nat,
                frame.nearest@.len(),
                after.present,
                frame.millis as nat,
                w.frames % 10 == 1 || after.present != w.present,
            ),
{
    let now = after.present;
    let entered = missing(now, w.present);
    let left = missing(w.present, now);
    let lines = action->Print_0@;
    let more = w.frames % 10 == 1 || now != w.present;
    assert forall|n: Seq<char>| #[trigger] entered.contains(n) <==> now.contains(n)
        && !w.present.contains(n) by {
        lemma_missing_contains(now, w.present, n);
    }
    assert forall|n: Seq<char>| #[trigger] left.contains(n) <==> w.present.contains(n)
        && !now.contains(n) by {
        lemma_missing_contains(w.present, now, n);
    }
    crate::names::lemma_missing_ascends(now, w.present);
    crate::names::lemma_missing_ascends(w.present, now);
    lemma_comma_list(now);
    let all = texts(lines);
    assert(all.len() == lines.len());
    assert forall|k: int| 0 <= k < entered.len() implies (#[trigger] lines[k])@ == "+ "@ + entered[k]
        + " entered"@ by {
        assert(all[k] == lines[k]@);
        assert(entered_lines(entered)[k] == "+ "@ + entered[k] + " entered"@);
    }
    assert forall|k: int| entered.len() <= k < entered.len() + left.len() implies (
    #[trigger] lines[k])@ == "- "@ + left[k - entered.len()] + " left"@ by {
        assert(all[k] == lines[k]@);
        assert(left_lines(left)[k - entered.len()] == "- "@ + left[k - entered.len()] + " left"@);
    }
    if more {
        let k = entered.len() + left.len();
        assert(all[k as int] == lines[k as int]@);
        assert(lines.last() == lines[k as int]);
        assert(all[k as int] == frame_line(
            w.frames as nat,
            frame.nearest@.len(),
            now,
            frame.millis as nat,
        ));
    }
    assert(came_and_went(w.present, now, entered, left));
    assert(is_frame_report(
        lines,
        entered,
        left,
        w.frames as nat,
        frame.nearest@.len(),
        now,
        frame.millis as nat,
        more,
    ));
}

/// A frame changes who is present and nothing else; a newly written frame is counted and looked at;
/// no other event changes anything. The end is told with its status and the count.
pub proof fn law_events_change_no_more_than_they_should(
    w: WatcherView,
    event: Event,
    action: Action,
    after: WatcherView,
)
    requires
        stepped(w, event, action, after),
        event is TapWritten && w.last != Some(event->TapWritten_0) ==> w.frames < u64::MAX,
    ensures
        after.fps == w.fps,
        match event {
            Event::Ended(status) => after.last == w.last && after.frames == w.frames
                && after.present == w.present && action is Stop && action->Stop_0@
                == "stream ended ("@ + status@ + "); "@ + decimal(w.frames as nat)
                + " frames analyzed"@,
            Event::TapMissing => after.last == w.last && after.frames == w.frames && after.present
                == w.present && action == Action::Sleep(200),
            Event::FrameUnreadable => after.last == w.last && after.frames == w.frames
                && after.present == w.present && action is Nothing,
            Event::TapWritten(at) => after.present == w.present && after.last == Some(at) && if w.last
                == Some(at) {
                after.frames == w.frames && action is Sleep
            } else {
                after.frames == w.frames + 1 && action is Look
            },
            Event::FrameSeen(_) => after.last == w.last && after.frames == w.frames,
        },
{
}

/// The wait for the next frame is half the time between two frames, in whole milliseconds; a rate of
/// none counts as one frame a second.
pub proof fn law_wait_is_half_a_frame(
    w: WatcherView,
    at: Mtime,
    action: Action,
    after: WatcherView,
)
    requires
        stepped(w, Event::TapWritten(at), action, after),
        w.last == Some(at),
    ensures
        action is Sleep,
        w.fps > 0 ==> 2 * w.fps * action->Sleep_0 <= 1000 < 2 * w.fps * (action->Sleep_0 + 1),
        w.fps == 0 ==> action->Sleep_0 == 500,
{
    if w.fps > 0 {
        let span = 2 * w.fps as int;
        let q = 1000int / span;
        assert(0 <= q <= 1000 && span * q <= 1000 < span * (q + 1)) by (nonlinear_arith)
            requires
                span >= 1,
                q == 1000int / span,
        ;
        assert(action->Sleep_0 == q);
        assert(2 * w.fps * q == span * q) by (nonlinear_arith)
            requires
                span == 2 * w.fps,
        ;
        assert(2 * w.fps * (q + 1) == span * (q + 1)) by (nonlinear_arith)
            requires
                span == 2 * w.fps,
        ;
    }
}

/// A watcher starts with nobody present, no frame counted and none seen, at the rate that it is
/// given; and what is said of a watcher is said of its fields as they are.
pub proof fn law_watcher_starts_empty(fps: u32, r: Watcher, w: Watcher)
    requires
        call_ensures(Watcher::new, (fps,), r),
    ensures
        r.fps == fps,
        r.last is None,
        r.frames == 0,
        r.present.names@.len() == 0,
        w@.fps == w.fps,
        w@.last == w.last,
        w@.frames == w.frames,
        w@.present.len() == w.present.names@.len(),
        forall|i: int|
            0 <= i < w.present.names@.len() ==> #[trigger] w@.present[i] == w.present.names@[i]@,
{
    assert(r@.present == r.present@);
    assert(r.present@.len() == r.present.names@.len());
}

/// A tap of a camera reads that camera at that rate, and ends after the duration, if there is one.
pub proof fn law_camera_tap_follows_the_options(
    o: &WatchOpts,
    demo_dir: &str,
    macos: bool,
    r: Vec<String>,
)
    requires
        call_ensures(ffmpeg_args, (o, demo_dir, macos), r),
        !o.demo,
    ensures
        r@.len() == if o.duration > 0 {
            22nat
        } else {
            20nat
        },
        r@[5]@ == if macos {
            "avfoundation"@
        } else {
            "v4l2"@
        },
        r@[8]@ == "-i"@,
        r@[9]@ == o.camera@,
        r@[10]@ == "-vf"@,
        r@[11]@ == "fps="@ + decimal(o.fps as nat) + ",scale=512:-2"@,
        o.duration > 0 ==> r@[12]@ == "-t"@ && r@[13]@ == decimal(o.duration as nat),
{
    let all = texts(r@);
    assert(all.len() == r@.len());
    assert(all[5] == r@[5]@);
    assert(all[8] == r@[8]@ && all[9] == r@[9]@ && all[10] == r@[10]@ && all[11] == r@[11]@);
    if o.duration > 0 {
        assert(all[12] == r@[12]@ && all[13] == r@[13]@);
    }
}

/// A tap of the demo stream reads the two photos of the directory at the rate that was asked for, and
/// ends after the duration, if there is one.
pub proof fn law_demo_tap_follows_the_options(
    o: &WatchOpts,
    demo_dir: &str,
    macos: bool,
    r: Vec<String>,
)
    requires
        call_ensures(ffmpeg_args, (o, demo_dir, macos), r),
        o.demo,
    ensures
        r@.len() == if o.duration > 0 {
            35nat
        } else {
            33nat
        },
        r@[14]@ == demo_dir@ + "/Barack_Obama.jpg"@,
        r@[20]@ == demo_dir@ + "/Rose_Leslie.jpg"@,
        r@[21]@ == "-filter_complex"@,
        r@[22]@ == DEMO_FILTER@ + "fps="@ + decimal(o.fps as nat) + ",scale=512:-2[out]"@,
        o.duration > 0 ==> r@[25]@ == "-t"@ && r@[26]@ == decimal(o.duration as nat),
{
    let all = texts(r@);
    assert(all.len() == r@.len());
    assert(all[14] == r@[14]@ && all[20] == r@[20]@ && all[21] == r@[21]@ && all[22] == r@[22]@);
    if o.duration > 0 {
        assert(all[25] == r@[25]@ && all[26] == r@[26]@);
    }
}

/// Nothing else of a tap varies with the options: two taps of the same kind of source agree in every
/// word but the source's, the rate's and the limit's. The system only decides how a camera is read.
pub proof fn law_taps_differ_as_the_options_do(
    o1: &WatchOpts,
    dir1: &str,
    macos1: bool,
    r1: Vec<String>,
    o2: &WatchOpts,
    dir2: &str,
    macos2: bool,
    r2: Vec<String>,
    i: int,
)
    requires
        call_ensures(ffmpeg_args, (o1, dir1, macos1), r1),
        call_ensures(ffmpeg_args, (o2, dir2, macos2), r2),
        o1.demo == o2.demo,
        0 <= i,
    ensures
        !o1.demo && i < 12 && i != 9 && i != 11 && (i != 5 || macos1 == macos2) ==> r1@[i]@
            == r2@[i]@,
        o1.demo && i < 25 && i != 14 && i != 20 && i != 22 ==> r1@[i]@ == r2@[i]@,
        i < 8 ==> r1@[r1@.len() - 8 + i]@ == r2@[r2@.len() - 8 + i]@,
{
    let all1 = texts(r1@);
    let all2 = texts(r2@);
    assert(all1.len() == r1@.len());
    assert(all2.len() == r2@.len());
    if i < (if o1.demo {
        25int
    } else {
        12int
    }) {
        assert(all1[i] == r1@[i]@);
        assert(all2[i] == r2@[i]@);
        if i >= 4 {
            if o1.demo {
                assert(all1[i] == demo_args(dir1@, o1.fps as nat)[i - 4]);
                assert(all2[i] == demo_args(dir2@, o2.fps as nat)[i - 4]);
            } else {
                assert(all1[i] == camera_args(o1.camera@, o1.fps as nat, macos1)[i - 4]);
                assert(all2[i] == camera_args(o2.camera@, o2.fps as nat, macos2)[i - 4]);
            }
        }
    }
    if i < 8 {
        assert(all1[all1.len() - 8 + i] == output_args()[i]);
        assert(all2[all2.len() - 8 + i] == output_args()[i]);
        assert(all1[all1.len() - 8 + i] == r1@[r1@.len() - 8 + i]@);
        assert(all2[all2.len() - 8 + i] == r2@[r2@.len() - 8 + i]@);
    }
}

/// The announcement names the camera, where it is one that is watched, and the threshold, both whole.
pub proof fn law_banner_names_the_source(o: &WatchOpts, threshold: &str, r: String)
    requires
        call_ensures(banner, (o, threshold), r),
    ensures
        !o.demo ==> r@ == "watching camera "@ + o.camera@ + " (threshold "@ + threshold@
            + "); ctrl-c to stop"@,
        o.demo ==> r@ == "watching demo stream (threshold "@ + threshold@ + "); ctrl-c to stop"@,
{
    reveal_strlit("watching ");
    reveal_strlit("camera ");
    reveal_strlit("watching camera ");
    reveal_strlit("demo stream");
    reveal_strlit(" (threshold ");
    reveal_strlit("watching demo stream (threshold ");
    if o.demo {
        assert("watching "@ + "demo stream"@ + " (threshold "@
            == "watching demo stream (threshold "@);
    } else {
        assert("watching "@ + ("camera "@ + o.camera@) == "watching camera "@ + o.camera@);
    }
}

/// The camera that is watched by default.
pub proof fn law_default_camera(macos: bool, r: String)
    requires
        call_ensures(default_camera, (macos,), r),
    ensures
        macos ==> r@ == "0"@,
        !macos ==> r@ == "/dev/video0"@,
{
}

} // verus!
