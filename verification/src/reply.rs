//! Replies of the vector store, and the hits in them.

use crate::text::{signed_decimal, signed_decimal_text};
use vstd::prelude::*;

verus! {

/// What `String::from_utf8_lossy` makes of some bytes.
pub uninterp spec fn utf8_lossy(bytes: Seq<u8>) -> Seq<char>;

/// `String::from_utf8_lossy`: the text depends on the bytes alone, and bytes that are UTF-8 stand
/// for the text that they encode. Where the replacement characters go in other bytes is not
/// spelled out here.
#[verifier::external_body]
fn from_utf8_lossy(bytes: &[u8]) -> (r: String)
    ensures
        r@ == utf8_lossy(bytes@),
        vstd::utf8::valid_utf8(bytes@) ==> r@ == vstd::utf8::decode_utf8(bytes@),
{
    String::from_utf8_lossy(bytes).into_owned()
}

/// The text that some bytes stand for.
pub open spec fn bytes_text(bytes: Seq<u8>) -> Seq<char> {
    if vstd::utf8::valid_utf8(bytes) {
        vstd::utf8::decode_utf8(bytes)
    } else {
        utf8_lossy(bytes)
    }
}

/// A reply of the server.
pub enum Reply {
    Int(i64),
    BulkString(Vec<u8>),
    Array(Vec<Reply>),
    SimpleString(String),
    /// A floating point number: its IEEE-754 bits in double precision, and its decimal text.
    Double { bits: u64, text: String },
    /// Any other kind of reply, in words.
    Other(String),
}

/// A cosine distance as the server gave it.
pub enum Dist {
    /// The IEEE-754 bits of a number in double precision.
    Double(u64),
    Int(i64),
    /// A number in decimal text, or a text that is no number.
    Text(String),
    /// No distance at all.
    Missing,
}

/// A person near the query vector, and how far away.
pub struct KnnHit {
    pub name: String,
    pub dist: Dist,
}

/// A distance, its text taken as characters.
pub enum DistView {
    Double(u64),
    Int(i64),
    Text(Seq<char>),
    Missing,
}

/// A hit, its texts taken as characters.
pub struct HitView {
    pub name: Seq<char>,
    pub dist: DistView,
}

impl View for Dist {
    type V = DistView;

    open spec fn view(&self) -> DistView {
        match *self {
            Dist::Double(bits) => DistView::Double(bits),
            Dist::Int(n) => DistView::Int(n),
            Dist::Text(s) => DistView::Text(s@),
            Dist::Missing => DistView::Missing,
        }
    }
}

impl View for KnnHit {
    type V = HitView;

    open spec fn view(&self) -> HitView {
        HitView { name: self.name@, dist: self.dist@ }
    }
}

/// Why a search reply could not be read.
pub enum SearchError {
    /// The reply is not an array.
    UnexpectedReply(Reply),
    /// The fields of a hit are not an array.
    UnexpectedFields(Reply),
}

/// A reply as text. Replies that are neither text nor number have none.
pub open spec fn reply_text(v: Reply) -> Seq<char> {
    match v {
        Reply::BulkString(b) => bytes_text(b@),
        Reply::SimpleString(s) => s@,
        Reply::Int(n) => signed_decimal(n as int),
        Reply::Double { text, .. } => text@,
        _ => Seq::empty(),
    }
}

/// A reply as a distance.
pub open spec fn reply_dist(v: Reply) -> DistView {
    match v {
        Reply::Double { bits, .. } => DistView::Double(bits),
        Reply::Int(n) => DistView::Int(n),
        Reply::BulkString(b) => DistView::Text(bytes_text(b@)),
        _ => DistView::Missing,
    }
}

/// The value of a field among the first `n` pairs of field name and value: the last pair of that
/// name counts.
pub open spec fn field_value(fields: Seq<Reply>, name: Seq<char>, n: nat) -> Option<Reply>
    decreases n,
{
    if n == 0 {
        None
    } else if reply_text(fields[2 * n - 2]) == name {
        Some(fields[2 * n - 1])
    } else {
        field_value(fields, name, (n - 1) as nat)
    }
}

/// The hit that the first `n` pairs of field name and value describe.
pub open spec fn hit_of(fields: Seq<Reply>, n: nat) -> HitView {
    HitView {
        name: match field_value(fields, "name"@, n) {
            Some(v) => reply_text(v),
            None => Seq::empty(),
        },
        dist: match field_value(fields, "dist"@, n) {
            Some(v) => reply_dist(v),
            None => DistView::Missing,
        },
    }
}

/// The hits in the first `n` entries of a search reply. The reply starts with a count; then each
/// entry is a key and an array of fields. An entry without a name is passed over. The first entry
/// whose fields are no array is the error.
pub open spec fn hits_of(reply: Seq<Reply>, n: nat) -> Result<Seq<HitView>, Reply>
    decreases n,
{
    if n == 0 {
        Ok(Seq::empty())
    } else {
        match hits_of(reply, (n - 1) as nat) {
            Err(bad) => Err(bad),
            Ok(hits) => match reply[2 * n as int] {
                Reply::Array(fields) => {
                    let hit = hit_of(fields@, fields@.len() / 2);
                    if hit.name.len() == 0 {
                        Ok(hits)
                    } else {
                        Ok(hits.push(hit))
                    }
                },
                bad => Err(bad),
            },
        }
    }
}

/// How many entries a search reply has: a key without fields at its end is none.
pub open spec fn entry_count(reply: Seq<Reply>) -> nat {
    if reply.len() == 0 {
        0
    } else {
        ((reply.len() - 1) / 2) as nat
    }
}

/// The hits, each taken as a view.
pub open spec fn hit_views(hits: Seq<KnnHit>) -> Seq<HitView> {
    hits.map_values(|h: KnnHit| h@)
}

/// The text of a reply.
pub fn as_string(v: &Reply) -> (r: String)
    ensures
        r@ == reply_text(*v),
{
    match v {
        Reply::BulkString(b) => from_utf8_lossy(b.as_slice()),
        Reply::SimpleString(s) => s.clone(),
        Reply::Int(n) => signed_decimal_text(*n),
        Reply::Double { text, .. } => text.clone(),
        _ => String::new(),
    }
}

fn as_dist(v: &Reply) -> (r: Dist)
    ensures
        r@ == reply_dist(*v),
{
    match v {
        Reply::Double { bits, .. } => Dist::Double(*bits),
        Reply::Int(n) => Dist::Int(*n),
        Reply::BulkString(b) => Dist::Text(from_utf8_lossy(b.as_slice())),
        _ => Dist::Missing,
    }
}

fn read_hit(fields: &Vec<Reply>) -> (r: KnnHit)
    ensures
        r@ == hit_of(fields@, fields@.len() / 2),
{
    let mut name = String::new();
    let mut dist = Dist::Missing;
    let name_field: String = "name".to_owned();
    let dist_field: String = "dist".to_owned();
    let mut j: usize = 0;
    while fields.len() - j > 1
        invariant
            j <= fields@.len(),
            j % 2 == 0,
            name_field@ == "name"@,
            dist_field@ == "dist"@,
            name@ == hit_of(fields@, (j / 2) as nat).name,
            dist@ == hit_of(fields@, (j / 2) as nat).dist,
        decreases fields@.len() - j,
    {
        let field = as_string(&fields[j]);
        proof {
            reveal_strlit("name");
            reveal_strlit("dist");
            assert("name"@[0] != "dist"@[0]);
        }
        if field == name_field {
            name = as_string(&fields[j + 1]);
        } else if field == dist_field {
            dist = as_dist(&fields[j + 1]);
        }
        j = j + 2;
    }
    KnnHit { name, dist }
}

/// Reads the reply of a nearest-neighbour search: an array of a count, and for each hit a key and
/// an array of field names and values.
pub fn parse_search(v: Reply) -> (r: Result<Vec<KnnHit>, SearchError>)
    ensures
        match v {
            Reply::Array(reply) => match hits_of(reply@, entry_count(reply@)) {
                Ok(hits) => r matches Ok(found) && hit_views(found@) == hits,
                Err(bad) => r == Err::<Vec<KnnHit>, SearchError>(
                    SearchError::UnexpectedFields(bad),
                ),
            },
            _ => r == Err::<Vec<KnnHit>, SearchError>(SearchError::UnexpectedReply(v)),
        },
{
    let mut reply = match v {
        Reply::Array(a) => a,
        other => {
            return Err(SearchError::UnexpectedReply(other));
        },
    };
    let ghost whole = reply@;
    let mut hits: Vec<KnnHit> = Vec::new();
    if reply.len() == 0 {
        assert(hit_views(hits@) == Seq::<HitView>::empty());
        return Ok(hits);
    }
    let mut i: usize = 1;
    assert(hit_views(hits@) == Seq::<HitView>::empty());
    while reply.len() - i > 1
        invariant
            1 <= i <= reply@.len(),
            reply@ == whole,
            v matches Reply::Array(a) && a@ == whole,
            i % 2 == 1,
            hits_of(reply@, (i / 2) as nat) == Ok::<Seq<HitView>, Reply>(hit_views(hits@)),
        decreases reply@.len() - i,
    {
        let ghost n = (i / 2) as nat;
        assert(2 * (n + 1) == i + 1);
        let hit = match &reply[i + 1] {
            Reply::Array(fields) => Some(read_hit(fields)),
            _ => None,
        };
        match hit {
            None => {
                proof {
                    lemma_first_error_stays(reply@, n + 1, entry_count(reply@));
                }
                let bad = reply.remove(i + 1);
                return Err(SearchError::UnexpectedFields(bad));
            },
            Some(hit) => {
                if !hit.name.as_str().is_empty() {
                    let ghost before = hit_views(hits@);
                    let ghost view = hit@;
                    hits.push(hit);
                    assert(hit_views(hits@) == before.push(view));
                }
            },
        }
        i = i + 2;
    }
    Ok(hits)
}

proof fn lemma_first_error_stays(reply: Seq<Reply>, n: nat, m: nat)
    requires
        n <= m,
        hits_of(reply, n) is Err,
    ensures
        hits_of(reply, m) == hits_of(reply, n),
    decreases m,
{
    if n < m {
        lemma_first_error_stays(reply, n, (m - 1) as nat);
    }
}

/// Every hit has a name, and there are no more hits than entries.
pub proof fn law_hits_are_named(reply: Seq<Reply>, n: nat)
    ensures
        hits_of(reply, n) matches Ok(hits) ==> hits.len() <= n && forall|k: int|
            0 <= k < hits.len() ==> (#[trigger] hits[k]).name.len() > 0,
    decreases n,
{
    if n > 0 {
        law_hits_are_named(reply, (n - 1) as nat);
    }
}

/// A reply is refused exactly where the fields of one of its entries are no array.
pub proof fn law_refused_for_bad_fields_only(reply: Seq<Reply>, n: nat)
    ensures
        hits_of(reply, n) is Err <==> exists|k: int|
            1 <= k <= n && !((#[trigger] reply[2 * k]) is Array),
    decreases n,
{
    if n > 0 {
        law_refused_for_bad_fields_only(reply, (n - 1) as nat);
        if !(reply[2 * n as int] is Array) {
            assert(1 <= n as int <= n && !(reply[2 * (n as int)] is Array));
        }
        if exists|k: int| 1 <= k <= n && !((#[trigger] reply[2 * k]) is Array) {
            let k = choose|k: int| 1 <= k <= n && !((#[trigger] reply[2 * k]) is Array);
            if k < n {
                assert(1 <= k <= n - 1 && !(reply[2 * k] is Array));
            }
        }
    }
}

/// A name that was written in UTF-8 is read back as it was.
pub proof fn law_name_is_read_back(name: Seq<char>)
    ensures
        bytes_text(vstd::utf8::encode_utf8(name)) == name,
{
    vstd::utf8::encode_utf8_valid_utf8(name);
    vstd::utf8::encode_utf8_decode_utf8(name);
}

// ---------- What a reply tells ----------

/// The reply is a bulk string of the text in UTF-8.
pub open spec fn spells(v: Reply, text: Seq<char>) -> bool {
    v matches Reply::BulkString(b) && b@ == vstd::utf8::encode_utf8(text)
}

/// The reply reads as this text: it spells it, or its bytes are no UTF-8 and are made legible as it,
/// or it is a simple string or a number whose text it is, or it is none of these and has no text.
pub open spec fn reads_as(v: Reply, text: Seq<char>) -> bool {
    match v {
        Reply::BulkString(b) => spells(v, text) || !vstd::utf8::valid_utf8(b@) && text
            == utf8_lossy(b@),
        Reply::SimpleString(s) => text == s@,
        Reply::Double { text: t, .. } => text == t@,
        Reply::Int(n) => text == signed_decimal(n as int),
        Reply::Array(_) => text.len() == 0,
        Reply::Other(_) => text.len() == 0,
    }
}

/// The reply reads as some text other than this one.
pub open spec fn reads_otherwise(v: Reply, text: Seq<char>) -> bool {
    exists|other: Seq<char>| #[trigger] reads_as(v, other) && other != text
}

/// The pair `j` of field names and values gives a field this value, and no later pair is one of that
/// field.
pub open spec fn gives_field(fields: Seq<Reply>, j: int, field: Seq<char>, value: Reply) -> bool {
    &&& 0 <= j
    &&& 2 * j + 1 < fields.len()
    &&& reads_as(fields[2 * j], field)
    &&& fields[2 * j + 1] == value
    &&& forall|i: int|
        j < i && 2 * i + 1 < fields.len() ==> reads_otherwise(#[trigger] fields[2 * i], field)
}

/// No pair of field names and values is one of this field.
pub open spec fn lacks_field(fields: Seq<Reply>, field: Seq<char>) -> bool {
    forall|i: int|
        0 <= i && 2 * i + 1 < fields.len() ==> reads_otherwise(#[trigger] fields[2 * i], field)
}

/// The fields tell a name, or none where it is empty, and a distance, if there is one.
pub open spec fn tells(fields: Seq<Reply>, name: Seq<char>, dist: Option<Reply>) -> bool {
    &&& (exists|j: int, value: Reply| #[trigger]
        gives_field(fields, j, "name"@, value) && reads_as(value, name)) || lacks_field(
        fields,
        "name"@,
    ) && name.len() == 0
    &&& match dist {
        Some(value) => exists|j: int| #[trigger] gives_field(fields, j, "dist"@, value),
        None => lacks_field(fields, "dist"@),
    }
}

/// An entry is an array of fields that tell a name and a distance.
pub open spec fn entry_tells(entry: Reply, told: (Seq<char>, Option<Reply>)) -> bool {
    entry matches Reply::Array(fields) && tells(fields@, told.0, told.1)
}

/// The distance is the one that a reply gave: a number as it is, a text character by character, and
/// none where there is neither.
pub open spec fn is_given_distance(given: Option<Reply>, dist: Dist) -> bool {
    match given {
        Some(Reply::Double { bits, .. }) => dist == Dist::Double(bits),
        Some(Reply::Int(n)) => dist == Dist::Int(n),
        Some(Reply::BulkString(b)) => {
            &&& dist is Text
            &&& forall|text: Seq<char>|
                b@ == #[trigger] vstd::utf8::encode_utf8(text) ==> dist->Text_0@ == text
            &&& !vstd::utf8::valid_utf8(b@) ==> dist->Text_0@ == utf8_lossy(b@)
        },
        _ => dist is Missing,
    }
}

/// What was enrolled is what is recognized: where each entry of a reply tells a name and a distance,
/// in fields of any order and beside any others, the hits are the entries that tell a name, in the
/// order of the reply, each with exactly that name and exactly that distance.
pub proof fn law_hits_are_what_the_entries_tell(
    v: Reply,
    reply: Seq<Reply>,
    told: Seq<(Seq<char>, Option<Reply>)>,
    r: Result<Vec<KnnHit>, SearchError>,
)
    requires
        call_ensures(parse_search, (v,), r),
        v matches Reply::Array(a) && a@ == reply,
        2 * told.len() + 1 <= reply.len() <= 2 * told.len() + 2,
        forall|i: int|
            0 <= i < told.len() ==> entry_tells(reply[2 * i + 2], #[trigger] told[i]),
    ensures
        r is Ok,
        ({
            let hits = r->Ok_0@;
            let named = told.filter(|t: (Seq<char>, Option<Reply>)| t.0.len() > 0);
            &&& hits.len() == named.len()
            &&& forall|k: int|
                0 <= k < hits.len() ==> (#[trigger] hits[k]).name@ == named[k].0
                    && is_given_distance(named[k].1, hits[k].dist)
        }),
{
    assert(entry_count(reply) == told.len());
    lemma_hits_of_told(reply, told, told.len());
    assert(told.take(told.len() as int) == told);
    let hits = r->Ok_0@;
    let named = told.filter(|t: (Seq<char>, Option<Reply>)| t.0.len() > 0);
    let views = hit_views(hits);
    assert forall|k: int| 0 <= k < hits.len() implies (#[trigger] hits[k]).name@ == named[k].0
        && is_given_distance(named[k].1, hits[k].dist) by {
        assert(views[k] == hits[k]@);
        if let Some(Reply::BulkString(b)) = named[k].1 {
            assert forall|text: Seq<char>|
                b@ == #[trigger] vstd::utf8::encode_utf8(text) implies hits[k].dist->Text_0@
                == text by {
                law_name_is_read_back(text);
            }
        }
    }
}

proof fn lemma_hits_of_told(
    reply: Seq<Reply>,
    told: Seq<(Seq<char>, Option<Reply>)>,
    n: nat,
)
    requires
        n <= told.len(),
        forall|i: int|
            0 <= i < told.len() ==> entry_tells(reply[2 * i + 2], #[trigger] told[i]),
    ensures
        ({
            let named = told.take(n as int).filter(
                |t: (Seq<char>, Option<Reply>)| t.0.len() > 0,
            );
            &&& hits_of(reply, n) matches Ok(hits)
            &&& hits.len() == named.len()
            &&& forall|k: int|
                0 <= k < hits.len() ==> (#[trigger] hits[k]).name == named[k].0 && hits[k].dist
                    == match named[k].1 {
                    Some(value) => reply_dist(value),
                    None => DistView::Missing,
                }
        }),
    decreases n,
{
    reveal(Seq::filter);
    if n > 0 {
        lemma_hits_of_told(reply, told, (n - 1) as nat);
        assert(told.take(n as int).drop_last() == told.take(n - 1));
        assert(told.take(n as int).last() == told[n - 1]);
        let i = n - 1;
        assert(2 * i + 2 == 2 * n);
        assert(entry_tells(reply[2 * i + 2], told[i]));
        let fields = reply[2 * i + 2]->Array_0@;
        let m = fields.len() / 2;
        let (name, dist) = told[i];
        if exists|j: int, value: Reply| #[trigger]
            gives_field(fields, j, "name"@, value) && reads_as(value, name) {
            let (j, value) = choose|j: int, value: Reply| #[trigger]
                gives_field(fields, j, "name"@, value) && reads_as(value, name);
            lemma_given_field(fields, j, "name"@, value, m);
            lemma_reads_as(value, name);
        } else {
            lemma_lacking_field(fields, "name"@, m);
        }
        match dist {
            Some(value) => {
                let j = choose|j: int| #[trigger] gives_field(fields, j, "dist"@, value);
                lemma_given_field(fields, j, "dist"@, value, m);
            },
            None => {
                lemma_lacking_field(fields, "dist"@, m);
            },
        }
        assert(hit_of(fields, m).name == name);
    }
}

proof fn lemma_reads_otherwise(v: Reply, text: Seq<char>)
    requires
        reads_otherwise(v, text),
    ensures
        reply_text(v) != text,
{
    let other = choose|other: Seq<char>| #[trigger] reads_as(v, other) && other != text;
    lemma_reads_as(v, other);
}

proof fn lemma_reads_as(v: Reply, text: Seq<char>)
    requires
        reads_as(v, text),
    ensures
        reply_text(v) == text,
{
    law_name_is_read_back(text);
}

proof fn lemma_given_field(
    fields: Seq<Reply>,
    j: int,
    field: Seq<char>,
    value: Reply,
    n: nat,
)
    requires
        gives_field(fields, j, field, value),
        j < n <= fields.len() / 2,
    ensures
        field_value(fields, field, n) == Some(value),
    decreases n,
{
    if n == j + 1 {
        assert(2 * n - 2 == 2 * j);
        lemma_reads_as(fields[2 * j], field);
    } else {
        let i = n - 1;
        assert(2 * i == 2 * n - 2);
        assert(reads_otherwise(fields[2 * i], field));
        lemma_reads_otherwise(fields[2 * i], field);
        lemma_given_field(fields, j, field, value, (n - 1) as nat);
    }
}

proof fn lemma_lacking_field(fields: Seq<Reply>, field: Seq<char>, n: nat)
    requires
        lacks_field(fields, field),
        n <= fields.len() / 2,
    ensures
        field_value(fields, field, n) is None,
    decreases n,
{
    if n > 0 {
        let i = n - 1;
        assert(2 * i == 2 * n - 2);
        assert(reads_otherwise(fields[2 * i], field));
        lemma_reads_otherwise(fields[2 * i], field);
        lemma_lacking_field(fields, field, (n - 1) as nat);
    }
}

/// A reply that is no array is refused with that reply, and one in which the fields of an entry are
/// no array with the first such fields; every other reply is read.
pub proof fn law_refusals_name_what_is_wrong(
    v: Reply,
    r: Result<Vec<KnnHit>, SearchError>,
    k: int,
)
    requires
        call_ensures(parse_search, (v,), r),
    ensures
        !(v is Array) ==> r == Err::<Vec<KnnHit>, SearchError>(SearchError::UnexpectedReply(v)),
        v is Array && 1 <= k && 2 * k < v->Array_0@.len() && !(v->Array_0@[2 * k] is Array) && (
        forall|i: int| 1 <= i < k ==> (#[trigger] v->Array_0@[2 * i]) is Array) ==> r == Err::<
            Vec<KnnHit>,
            SearchError,
        >(SearchError::UnexpectedFields(v->Array_0@[2 * k])),
        v is Array && (forall|i: int|
            1 <= i && 2 * i < v->Array_0@.len() ==> (#[trigger] v->Array_0@[2 * i]) is Array)
            ==> r is Ok,
{
    if v is Array {
        let reply = v->Array_0@;
        let n = entry_count(reply);
        if 1 <= k && 2 * k < reply.len() && !(reply[2 * k] is Array) && forall|i: int|
            1 <= i < k ==> (#[trigger] reply[2 * i]) is Array {
            law_refused_for_bad_fields_only(reply, (k - 1) as nat);
            assert(hits_of(reply, k as nat) == Err::<Seq<HitView>, Reply>(reply[2 * k]));
            lemma_first_error_stays(reply, k as nat, n);
        }
        law_refused_for_bad_fields_only(reply, n);
    }
}

/// A reply as text: a bulk string as the text that it encodes, a simple string and the text of a
/// number in floating point as they are, an integer in decimal, and nothing for the rest.
pub proof fn law_text_of_a_reply(v: &Reply, text: Seq<char>, r: String)
    requires
        call_ensures(as_string, (v,), r),
    ensures
        spells(*v, text) ==> r@ == text,
        *v matches Reply::BulkString(b) ==> (!vstd::utf8::valid_utf8(b@) ==> r@ == utf8_lossy(b@)),
        *v matches Reply::SimpleString(s) ==> r@ == s@,
        *v matches Reply::Double { text: t, .. } ==> r@ == t@,
        *v matches Reply::Int(n) ==> (n >= 0 ==> crate::text::value(r@) == n && r@[0] != '-') && (n
            < 0 ==> r@[0] == '-' && crate::text::value(r@.skip(1)) == -n),
        *v is Array || *v is Other ==> r@.len() == 0,
{
    if spells(*v, text) {
        law_name_is_read_back(text);
    }
    if let Reply::Int(n) = *v {
        crate::text::law_signed_numeral_stands_for_its_number(n as int);
    }
}

/// A reply of at most a count and a key holds no hit.
pub proof fn law_reply_without_entries_has_no_hits(v: Reply, r: Result<Vec<KnnHit>, SearchError>)
    requires
        call_ensures(parse_search, (v,), r),
        v is Array,
        v->Array_0@.len() <= 2,
    ensures
        r is Ok,
        r->Ok_0@.len() == 0,
{
    assert(hits_of(v->Array_0@, 0) == Ok::<Seq<HitView>, Reply>(Seq::empty()));
    assert(hit_views(r->Ok_0@).len() == r->Ok_0@.len());
}

} // verus!
