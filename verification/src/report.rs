//! The lines that the commands print, and what they refuse.

use crate::face::Face;
use crate::names::{rows, texts};
use crate::text::{
    decimal, decimal_text, framed, joined, signed_decimal, signed_decimal_text,
};
use vstd::prelude::*;

verus! {

/// The smallest face that the detector's window can find, in pixels.
pub const MIN_FACE: u32 = 20;

/// Refuses faces smaller than the detector's window.
pub fn check_min_face(min_face: u32) -> (r: Result<(), String>)
    ensures
        match r {
            Ok(()) => min_face >= MIN_FACE,
            Err(e) => min_face < MIN_FACE && e@
                == "--min-face must be >= 20 (the detector's window size)"@,
        },
{
    if min_face < MIN_FACE {
        Err("--min-face must be >= 20 (the detector's window size)".to_owned())
    } else {
        Ok(())
    }
}

/// Where the detection model and the embedding model lie in a directory.
pub fn model_paths(dir: &str) -> (r: (String, String))
    ensures
        r.0@ == dir@ + "/seeta_fd_frontal_v1.0.bin"@,
        r.1@ == dir@ + "/w600k_mbf.onnx"@,
{
    (joined(dir, "/seeta_fd_frontal_v1.0.bin"), joined(dir, "/w600k_mbf.onnx"))
}

/// The complaint about a model that could not be read.
pub fn missing_model(path: &str) -> (r: String)
    ensures
        r@ == "missing "@ + path@ + "; run ./fetch-models.sh"@,
{
    framed("missing ", path, "; run ./fetch-models.sh")
}

/// What went on when the store could not be reached.
pub fn connecting(url: &str) -> (r: String)
    ensures
        r@ == "connecting to valkey at "@ + url@
            + " (docker run -d --rm -p 6379:6379 valkey/valkey-bundle)"@,
{
    framed(
        "connecting to valkey at ",
        url,
        " (docker run -d --rm -p 6379:6379 valkey/valkey-bundle)",
    )
}

/// The complaint about an image without a face.
pub fn no_face(image: &str) -> (r: String)
    ensures
        r@ == "no face detected in "@ + image@,
{
    joined("no face detected in ", image)
}

/// A number of entries in words.
pub open spec fn entries(n: nat) -> Seq<char> {
    decimal(n) + " entr"@ + if n == 1 {
        "y"@
    } else {
        "ies"@
    }
}

fn entries_text(n: usize) -> (r: String)
    ensures
        r@ == entries(n as nat),
{
    let number = decimal_text(n as u128);
    framed(
        number.as_str(),
        " entr",
        if n == 1 {
            "y"
        } else {
            "ies"
        },
    )
}

/// The line on one enrolled person.
pub open spec fn person_line(p: (Seq<char>, nat)) -> Seq<char> {
    p.0 + "  ("@ + entries(p.1) + ")"@
}

/// The lines on who is enrolled, each with the number of entries.
pub open spec fn people_lines(people: Seq<(Seq<char>, nat)>) -> Seq<Seq<char>> {
    if people.len() == 0 {
        seq!["nobody enrolled yet: valkey-faces enroll <image> <name>"@]
    } else {
        people.map_values(|p: (Seq<char>, nat)| person_line(p))
    }
}

/// Tells who is enrolled.
pub fn list_report(people: &Vec<(String, usize)>) -> (r: Vec<String>)
    ensures
        texts(r@) == people_lines(rows(people@)),
{
    let mut r: Vec<String> = Vec::new();
    if people.len() == 0 {
        r.push("nobody enrolled yet: valkey-faces enroll <image> <name>".to_owned());
        assert(texts(r@) == people_lines(rows(people@)));
        return r;
    }
    let mut i: usize = 0;
    while i < people.len()
        invariant
            i <= people@.len(),
            r@.len() == i,
            forall|k: int| 0 <= k < i ==> (#[trigger] r@[k])@ == person_line(rows(people@)[k]),
        decreases people@.len() - i,
    {
        let count = entries_text(people[i].1);
        let mut line = framed(people[i].0.as_str(), "  (", count.as_str());
        line.append(")");
        r.push(line);
        i = i + 1;
    }
    assert(texts(r@) == people_lines(rows(people@)));
    r
}

/// Tells how many entries of a person were removed.
pub fn forget_report(n: usize, name: &str) -> (r: String)
    ensures
        r@ == "removed "@ + entries(n as nat) + " for "@ + name@,
{
    let count = entries_text(n);
    let mut r = framed("removed ", count.as_str(), " for ");
    r.append(name);
    r
}

/// The size of a face's box.
pub open spec fn box_size(f: Face) -> Seq<char> {
    decimal(f.w as nat) + "x"@ + decimal(f.h as nat)
}

fn box_size_text(f: &Face) -> (r: String)
    ensures
        r@ == box_size(*f),
{
    let w = decimal_text(f.w as u128);
    let h = decimal_text(f.h as u128);
    framed(w.as_str(), "x", h.as_str())
}

/// Tells who was enrolled, from which face, under which key.
pub fn enroll_report(name: &str, face: &Face, key: &str) -> (r: String)
    ensures
        r@ == "enrolled "@ + name@ + " ("@ + box_size(*face) + " face) -> "@ + key@,
{
    let shape = box_size_text(face);
    let mut r = framed("enrolled ", name, " (");
    r.append(shape.as_str());
    r.append(" face) -> ");
    r.append(key);
    r
}

/// The enrolled person nearest to a face: the similarity with four decimals, and whether it
/// reaches the threshold.
pub struct Nearest {
    pub name: String,
    pub similarity: String,
    pub similar: bool,
}

/// Where a face is and how large.
pub open spec fn face_head(i: nat, f: Face) -> Seq<char> {
    "face#"@ + decimal(i) + " "@ + box_size(f) + " @("@ + signed_decimal(f.x as int) + ","@
        + signed_decimal(f.y as int) + "): "@
}

/// The line on one face: who it is, or a stranger and who comes nearest, or that there is nobody
/// to compare it with.
pub open spec fn face_line(i: nat, f: Face, nearest: Option<Nearest>) -> Seq<char> {
    match nearest {
        Some(n) => if n.similar {
            face_head(i, f) + n.name@ + " (sim "@ + n.similarity@ + ")"@
        } else {
            face_head(i, f) + "stranger (nearest "@ + n.name@ + " at sim "@ + n.similarity@ + ")"@
        },
        None => "face#"@ + decimal(i) + ": index is empty; enroll someone first"@,
    }
}

/// Tells who a face is.
pub fn face_report(i: usize, face: &Face, nearest: &Option<Nearest>) -> (r: String)
    ensures
        r@ == face_line(i as nat, *face, *nearest),
{
    let number = decimal_text(i as u128);
    match nearest {
        Some(n) => {
            let shape = box_size_text(face);
            let x = signed_decimal_text(face.x as i64);
            let y = signed_decimal_text(face.y as i64);
            let mut r = framed("face#", number.as_str(), " ");
            r.append(shape.as_str());
            r.append(" @(");
            r.append(x.as_str());
            r.append(",");
            r.append(y.as_str());
            r.append("): ");
            if n.similar {
                r.append(n.name.as_str());
                r.append(" (sim ");
            } else {
                r.append("stranger (nearest ");
                r.append(n.name.as_str());
                r.append(" at sim ");
            }
            r.append(n.similarity.as_str());
            r.append(")");
            r
        },
        None => framed("face#", number.as_str(), ": index is empty; enroll someone first"),
    }
}

// ---------- What the lines say ----------

proof fn lemma_entries(n: nat)
    ensures
        entries(n) == decimal(n) + if n == 1 {
            " entry"@
        } else {
            " entries"@
        },
{
    reveal_strlit(" entr");
    reveal_strlit("y");
    reveal_strlit("ies");
    reveal_strlit(" entry");
    reveal_strlit(" entries");
    assert(" entr"@ + "y"@ == " entry"@);
    assert(" entr"@ + "ies"@ == " entries"@);
    assert(entries(n) == decimal(n) + if n == 1 {
        " entry"@
    } else {
        " entries"@
    });
}

/// The list has a line for each person, in order, with the whole name and the number of entries, one
/// in the singular; where nobody is enrolled it says so.
pub proof fn law_list_has_a_line_for_each_person(people: &Vec<(String, usize)>, r: Vec<String>)
    requires
        call_ensures(list_report, (people,), r),
    ensures
        people@.len() == 0 ==> r@.len() == 1 && r@[0]@
            == "nobody enrolled yet: valkey-faces enroll <image> <name>"@,
        people@.len() > 0 ==> r@.len() == people@.len() && forall|k: int|
            0 <= k < people@.len() ==> (#[trigger] r@[k])@ == people@[k].0@ + "  ("@ + decimal(
                people@[k].1 as nat,
            ) + (if people@[k].1 == 1 {
                " entry"@
            } else {
                " entries"@
            }) + ")"@,
{
    let all = texts(r@);
    assert(all.len() == r@.len());
    if people@.len() == 0 {
        assert(rows(people@).len() == 0);
        assert(all[0] == r@[0]@);
    } else {
        assert(rows(people@).len() == people@.len());
        assert forall|k: int| 0 <= k < people@.len() implies (#[trigger] r@[k])@ == people@[k].0@
            + "  ("@ + decimal(people@[k].1 as nat) + (if people@[k].1 == 1 {
            " entry"@
        } else {
            " entries"@
        }) + ")"@ by {
            assert(all[k] == r@[k]@);
            assert(rows(people@)[k] == (people@[k].0@, people@[k].1 as nat));
            lemma_entries(people@[k].1 as nat);
        }
    }
}

/// The line on forgetting holds the number that was removed and the whole name.
pub proof fn law_forget_line_holds_number_and_name(n: usize, name: &str, r: String)
    requires
        call_ensures(forget_report, (n, name), r),
    ensures
        r@ == "removed "@ + decimal(n as nat) + (if n == 1 {
            " entry"@
        } else {
            " entries"@
        }) + " for "@ + name@,
{
    lemma_entries(n as nat);
}

/// The line on enrolling holds the whole name, the width and the height of the face, and the key.
pub proof fn law_enroll_line_holds_name_size_and_key(
    name: &str,
    face: &Face,
    key: &str,
    r: String,
)
    requires
        call_ensures(enroll_report, (name, face, key), r),
    ensures
        r@ == "enrolled "@ + name@ + " ("@ + decimal(face.w as nat) + "x"@ + decimal(face.h as nat)
            + " face) -> "@ + key@,
{
}

/// The line on a face says which one it is, how large and where, and then the whole name of whom it
/// is similar to, or of whom it is nearest to without being similar, with the similarity.
pub proof fn law_face_line_holds_what_is_known(
    i: usize,
    face: &Face,
    nearest: &Option<Nearest>,
    r: String,
)
    requires
        call_ensures(face_report, (i, face, nearest), r),
    ensures
        nearest is None ==> r@ == "face#"@ + decimal(i as nat)
            + ": index is empty; enroll someone first"@,
        nearest is Some ==> ({
            let where_it_is = "face#"@ + decimal(i as nat) + " "@ + decimal(face.w as nat) + "x"@
                + decimal(face.h as nat) + " @("@ + signed_decimal(face.x as int) + ","@
                + signed_decimal(face.y as int) + "): "@;
            let n = nearest->0;
            r@ == where_it_is + if n.similar {
                n.name@ + " (sim "@ + n.similarity@ + ")"@
            } else {
                "stranger (nearest "@ + n.name@ + " at sim "@ + n.similarity@ + ")"@
            }
        }),
{
}

/// Faces below 20 pixels are refused, and no others.
pub proof fn law_small_faces_are_refused(min_face: u32, r: Result<(), String>)
    requires
        call_ensures(check_min_face, (min_face,), r),
    ensures
        r is Ok <==> min_face >= 20,
        r is Err ==> r->Err_0@ == "--min-face must be >= 20 (the detector's window size)"@,
{
}

/// Paths and complaints hold what they are about, whole.
pub proof fn law_messages_hold_their_subject(
    subject: &str,
    paths: (String, String),
    missing: String,
    connect: String,
    none: String,
)
    requires
        call_ensures(model_paths, (subject,), paths),
        call_ensures(missing_model, (subject,), missing),
        call_ensures(connecting, (subject,), connect),
        call_ensures(no_face, (subject,), none),
    ensures
        paths.0@.take(subject@.len() as int) == subject@,
        paths.0@.skip(subject@.len() as int) == "/seeta_fd_frontal_v1.0.bin"@,
        paths.1@.take(subject@.len() as int) == subject@,
        paths.1@.skip(subject@.len() as int) == "/w600k_mbf.onnx"@,
        missing@ == "missing "@ + subject@ + "; run ./fetch-models.sh"@,
        connect@ == "connecting to valkey at "@ + subject@
            + " (docker run -d --rm -p 6379:6379 valkey/valkey-bundle)"@,
        none@ == "no face detected in "@ + subject@,
{
}

} // verus!
