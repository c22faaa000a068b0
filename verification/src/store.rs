//! The store: the keys of people, and the commands that enroll, find, list and forget them.

use crate::face::EMBED_DIM;
use crate::names::{
    bearing, bearing_any, is_tally, law_counts_add_up, law_one_tally, lemma_bearing_any_of_one,
    lemma_filter_rows, lemma_rows_are_settled_by_members, lemma_tally_rows, rows_where, total,
};
use crate::slug::{law_slug_shape, slug, slug_of};
use crate::text::{decimal, decimal_text, framed, joined, law_decimal_injective};
use crate::vector::{pack_f32le, packed};
use vstd::prelude::*;

verus! {

/// The name of the index.
pub const INDEX: &'static str = "faces";

/// What every key of the index starts with.
pub const PREFIX: &'static str = "face:";

// ---------- Commands ----------

/// One word of a command.
pub enum Arg {
    Text(String),
    Bytes(Vec<u8>),
}

/// One word of a command, its text taken as characters.
pub enum ArgView {
    Text(Seq<char>),
    Bytes(Seq<u8>),
}

impl View for Arg {
    type V = ArgView;

    open spec fn view(&self) -> ArgView {
        match *self {
            Arg::Text(s) => ArgView::Text(s@),
            Arg::Bytes(b) => ArgView::Bytes(b@),
        }
    }
}

/// The words of a command.
pub open spec fn words(args: Seq<Arg>) -> Seq<ArgView> {
    args.map_values(|a: Arg| a@)
}

fn word(s: &str) -> (r: Arg)
    ensures
        r@ == ArgView::Text(s@),
{
    Arg::Text(s.to_owned())
}

/// The command that tells about the index; it fails where there is no index.
pub fn index_exists() -> (r: Vec<Arg>)
    ensures
        words(r@) == seq![ArgView::Text("FT.INFO"@), ArgView::Text(INDEX@)],
{
    let r = vec![word("FT.INFO"), word(INDEX)];
    assert(words(r@) == seq![ArgView::Text("FT.INFO"@), ArgView::Text(INDEX@)]);
    r
}

/// A command, and whether a failure of it is passed over.
pub struct Step {
    pub command: Vec<Arg>,
    pub may_fail: bool,
}

/// The command that drops the index.
pub open spec fn drop_index_words() -> Seq<ArgView> {
    seq![ArgView::Text("FT.DROPINDEX"@), ArgView::Text(INDEX@)]
}

/// The command that creates the index: every hash under the prefix, by the cosine distance of the
/// vector in its field `v`.
pub open spec fn create_index_words() -> Seq<ArgView> {
    seq![
        ArgView::Text("FT.CREATE"@),
        ArgView::Text(INDEX@),
        ArgView::Text("ON"@),
        ArgView::Text("HASH"@),
        ArgView::Text("PREFIX"@),
        ArgView::Text("1"@),
        ArgView::Text(PREFIX@),
        ArgView::Text("SCHEMA"@),
        ArgView::Text("v"@),
        ArgView::Text("VECTOR"@),
        ArgView::Text("HNSW"@),
        ArgView::Text("6"@),
        ArgView::Text("TYPE"@),
        ArgView::Text("FLOAT32"@),
        ArgView::Text("DIM"@),
        ArgView::Text(decimal(EMBED_DIM as nat)),
        ArgView::Text("DISTANCE_METRIC"@),
        ArgView::Text("COSINE"@),
    ]
}

/// Drop (ignore errors) then create the HNSW cosine index.
pub fn create_index() -> (r: Vec<Step>)
    ensures
        r@.len() == 2,
        words(r@[0].command@) == drop_index_words(),
        r@[0].may_fail,
        words(r@[1].command@) == create_index_words(),
        !r@[1].may_fail,
{
    let drop = vec![word("FT.DROPINDEX"), word(INDEX)];
    let create = vec![
        word("FT.CREATE"),
        word(INDEX),
        word("ON"),
        word("HASH"),
        word("PREFIX"),
        word("1"),
        word(PREFIX),
        word("SCHEMA"),
        word("v"),
        word("VECTOR"),
        word("HNSW"),
        word("6"),
        word("TYPE"),
        word("FLOAT32"),
        word("DIM"),
        Arg::Text(decimal_text(EMBED_DIM as u128)),
        word("DISTANCE_METRIC"),
        word("COSINE"),
    ];
    assert(words(drop@) == drop_index_words());
    assert(words(create@) == create_index_words());
    vec![Step { command: drop, may_fail: true }, Step { command: create, may_fail: false }]
}

/// The query for the `k` entries nearest to the vector `q`.
pub open spec fn knn_query(k: nat) -> Seq<char> {
    "*=>[KNN "@ + decimal(k) + " @v $q AS dist]"@
}

/// The command that searches for the `k` entries nearest to a vector.
pub open spec fn knn_search_words(query: Seq<u32>, k: nat) -> Seq<ArgView> {
    seq![
        ArgView::Text("FT.SEARCH"@),
        ArgView::Text(INDEX@),
        ArgView::Text(knn_query(k)),
        ArgView::Text("PARAMS"@),
        ArgView::Text("2"@),
        ArgView::Text("q"@),
        ArgView::Bytes(packed(query)),
        ArgView::Text("RETURN"@),
        ArgView::Text("2"@),
        ArgView::Text("name"@),
        ArgView::Text("dist"@),
        ArgView::Text("DIALECT"@),
        ArgView::Text("2"@),
    ]
}

/// KNN search: the command for query vector -> nearest k hits (name + cosine distance). The
/// numbers of the vector are given by their IEEE-754 bits in single precision. Its reply is read
/// by `parse_search`.
pub fn knn_search(query: &[u32], k: usize) -> (r: Vec<Arg>)
    ensures
        words(r@) == knn_search_words(query@, k as nat),
{
    let count = decimal_text(k as u128);
    let search = framed("*=>[KNN ", count.as_str(), " @v $q AS dist]");
    let r = vec![
        word("FT.SEARCH"),
        word(INDEX),
        Arg::Text(search),
        word("PARAMS"),
        word("2"),
        word("q"),
        Arg::Bytes(pack_f32le(query)),
        word("RETURN"),
        word("2"),
        word("name"),
        word("dist"),
        word("DIALECT"),
        word("2"),
    ];
    assert(words(r@) == knn_search_words(query@, k as nat));
    r
}

// ---------- Keys ----------

/// What the keys of a person's entries start with.
pub open spec fn person_prefix(slug: Seq<char>) -> Seq<char> {
    PREFIX@ + slug + ":"@
}

/// The key of the entry with number `n` of a person.
pub open spec fn key_of(slug: Seq<char>, n: nat) -> Seq<char> {
    person_prefix(slug) + decimal(n)
}

fn person_key_start(slug: &str) -> (r: String)
    ensures
        r@ == person_prefix(slug@),
{
    framed(PREFIX, slug, ":")
}

/// The pattern that selects every key under the prefix.
pub open spec fn list_pattern() -> Seq<char> {
    PREFIX@ + "*"@
}

/// The pattern that selects the keys of a person's entries.
pub open spec fn forget_pattern(name: Seq<char>) -> Seq<char> {
    person_prefix(slug_of(name)) + "*"@
}

/// List enrolled people: the command for the keys of all entries. `tally` counts the names that
/// stand under those keys.
pub fn list() -> (r: Vec<Arg>)
    ensures
        words(r@) == seq![ArgView::Text("KEYS"@), ArgView::Text(list_pattern())],
{
    let r = vec![word("KEYS"), Arg::Text(joined(PREFIX, "*"))];
    assert(words(r@) == seq![ArgView::Text("KEYS"@), ArgView::Text(list_pattern())]);
    r
}

/// Remove every entry for a person: the command for the keys that are to be deleted.
pub fn forget(name: &str) -> (r: Vec<Arg>)
    ensures
        words(r@) == seq![ArgView::Text("KEYS"@), ArgView::Text(forget_pattern(name@))],
{
    let s = slug(name);
    let start = person_key_start(s.as_str());
    let r = vec![word("KEYS"), Arg::Text(joined(start.as_str(), "*"))];
    assert(words(r@) == seq![ArgView::Text("KEYS"@), ArgView::Text(forget_pattern(name@))]);
    r
}

/// A character that stands for itself in a pattern of keys.
pub open spec fn is_literal(c: char) -> bool {
    c != '*' && c != '?' && c != '[' && c != '\\'
}

/// A pattern of literal characters and one star at the end selects the keys that start with what
/// stands before the star.
pub open spec fn selects(pattern: Seq<char>, key: Seq<char>) -> bool {
    &&& pattern.len() > 0
    &&& pattern.last() == '*'
    &&& forall|i: int| 0 <= i < pattern.len() - 1 ==> is_literal(#[trigger] pattern[i])
    &&& pattern.drop_last().is_prefix_of(key)
}

/// The keys of all entries of everyone are listed.
pub proof fn law_list_selects_every_entry(name: Seq<char>, n: nat)
    ensures
        selects(list_pattern(), key_of(slug_of(name), n)),
{
    reveal_strlit("face:");
    reveal_strlit("*");
    assert(list_pattern().drop_last() == PREFIX@);
    assert(key_of(slug_of(name), n).take(5) == PREFIX@);
    assert(PREFIX@.is_prefix_of(key_of(slug_of(name), n)));
}

/// Every entry of everyone joins the index: its key starts with the index's prefix.
pub proof fn law_entries_join_the_index(name: Seq<char>, n: nat)
    ensures
        PREFIX@.is_prefix_of(key_of(slug_of(name), n)),
        create_index_words()[6] == ArgView::Text(PREFIX@),
{
    assert(key_of(slug_of(name), n).take(PREFIX@.len() as int) == PREFIX@);
}

/// Forgetting a name selects all entries under its slug and no entry under another one.
pub proof fn law_forget_selects_the_person(name: Seq<char>, other: Seq<char>, n: nat)
    ensures
        selects(forget_pattern(name), key_of(slug_of(other), n)) <==> slug_of(name) == slug_of(
            other,
        ),
{
    let pattern = forget_pattern(name);
    let start = person_prefix(slug_of(name));
    let key = key_of(slug_of(other), n);
    reveal_strlit("face:");
    reveal_strlit(":");
    reveal_strlit("*");
    law_slug_shape(name);
    law_slug_shape(other);
    assert(pattern.drop_last() == start);
    assert forall|i: int| 0 <= i < pattern.len() - 1 implies is_literal(#[trigger] pattern[i]) by {
        if 5 <= i < 5 + slug_of(name).len() {
            assert(pattern[i] == slug_of(name)[i - 5]);
        }
    }
    if slug_of(name) == slug_of(other) {
        assert(key.take(start.len() as int) == start);
    }
    if start.is_prefix_of(key) {
        lemma_prefix_settles_slug(slug_of(name), slug_of(other), n);
    }
}

proof fn lemma_prefix_settles_slug(a: Seq<char>, b: Seq<char>, n: nat)
    requires
        person_prefix(a).is_prefix_of(key_of(b, n)),
        forall|i: int| 0 <= i < a.len() ==> #[trigger] a[i] != ':',
        forall|i: int| 0 <= i < b.len() ==> #[trigger] b[i] != ':',
    ensures
        a == b,
{
    reveal_strlit("face:");
    reveal_strlit(":");
    let start = person_prefix(a);
    let key = key_of(b, n);
    assert forall|i: int| 0 <= i < start.len() implies start[i] == key[i] by {
        assert(key.take(start.len() as int)[i] == key[i]);
    }
    if a.len() < b.len() {
        assert(start[5 + a.len() as int] == ':');
        assert(key[5 + a.len() as int] == b[a.len() as int]);
    } else if a.len() > b.len() {
        assert(start[5 + b.len() as int] == a[b.len() as int]);
        assert(key[5 + b.len() as int] == ':');
    } else {
        assert forall|i: int| 0 <= i < a.len() implies a[i] == b[i] by {
            assert(start[5 + i] == a[i]);
            assert(key[5 + i] == b[i]);
        }
        assert(a == b);
    }
}

/// No two entries share a key: it tells the slug and the number of the entry.
pub proof fn law_keys_are_distinct(name: Seq<char>, n: nat, other: Seq<char>, m: nat)
    requires
        key_of(slug_of(name), n) == key_of(slug_of(other), m),
    ensures
        slug_of(name) == slug_of(other),
        n == m,
{
    law_slug_shape(name);
    law_slug_shape(other);
    let start = person_prefix(slug_of(name));
    let key = key_of(slug_of(name), n);
    assert(key.take(start.len() as int) == start);
    lemma_prefix_settles_slug(slug_of(name), slug_of(other), m);
    assert(key.skip(start.len() as int) == decimal(n));
    assert(key_of(slug_of(other), m).skip(start.len() as int) == decimal(m));
    law_decimal_injective(n, m);
}

// ---------- Enrolling ----------

/// An enrollment that looks for a free key.
pub struct Enrollment {
    pub name: String,
    pub slug: String,
    pub vector: Vec<u8>,
    /// The number that is tried next.
    pub n: i32,
}

/// What is written for an entry: under its key the field `v` with the packed vector and the field
/// `name` with the name in UTF-8.
pub struct Entry {
    pub key: String,
    pub v: Vec<u8>,
    pub name: Vec<u8>,
}

/// An enrollment, its texts taken as characters.
pub struct EnrollmentView {
    pub name: Seq<char>,
    pub vector: Seq<u8>,
    pub n: int,
}

/// An entry, its key taken as characters.
pub struct EntryView {
    pub key: Seq<char>,
    pub v: Seq<u8>,
    pub name: Seq<u8>,
}

impl View for Enrollment {
    type V = EnrollmentView;

    open spec fn view(&self) -> EnrollmentView {
        EnrollmentView { name: self.name@, vector: self.vector@, n: self.n as int }
    }
}

impl View for Entry {
    type V = EntryView;

    open spec fn view(&self) -> EntryView {
        EntryView { key: self.key@, v: self.v@, name: self.name@ }
    }
}

impl EnrollmentView {
    /// The key that is asked about.
    pub open spec fn key(self) -> Seq<char> {
        key_of(slug_of(self.name), self.n as nat)
    }

    /// The entry that is written where that key is free.
    pub open spec fn entry(self) -> EntryView {
        EntryView {
            key: self.key(),
            v: self.vector,
            name: vstd::utf8::encode_utf8(self.name),
        }
    }

    /// The enrollment after its key turned out to be taken.
    pub open spec fn next(self) -> EnrollmentView {
        EnrollmentView { n: self.n + 1, ..self }
    }
}

/// The enrollment of a name with a vector, before any key was asked about.
pub open spec fn enrollment_of(name: Seq<char>, e: Seq<u32>) -> EnrollmentView {
    EnrollmentView { name, vector: packed(e), n: 0 }
}

/// What follows from the answer whether a key exists.
pub enum EnrollStep {
    /// The key is taken: ask about the next one.
    Ask(Enrollment),
    /// The key is free: write the entry.
    Write(Entry),
}

impl Enrollment {
    /// The slug is the name's, and no number is below zero.
    pub open spec fn wf(&self) -> bool {
        self.slug@ == slug_of(self.name@) && self.n >= 0
    }

    /// The key to ask about.
    pub fn key(&self) -> (r: String)
        requires
            self.wf(),
        ensures
            r@ == self@.key(),
    {
        let start = person_key_start(self.slug.as_str());
        let number = decimal_text(self.n as u128);
        joined(start.as_str(), number.as_str())
    }

    /// Takes the answer whether the key exists.
    pub fn answer(self, exists: bool) -> (r: EnrollStep)
        requires
            self.wf(),
            exists ==> self.n < i32::MAX,
        ensures
            match r {
                EnrollStep::Ask(e) => exists && e.wf() && e@ == self@.next(),
                EnrollStep::Write(entry) => !exists && entry@ == self@.entry(),
            },
    {
        if exists {
            let n: i32 = self.n + 1;
            EnrollStep::Ask(
                Enrollment { name: self.name, slug: self.slug, vector: self.vector, n },
            )
        } else {
            let key = self.key();
            let name = self.name.as_str().as_bytes_vec();
            EnrollStep::Write(Entry { key, v: self.vector, name })
        }
    }
}

/// Enroll one embedding under face:<slug>:<n>. Finds the next free n for that slug. The numbers of
/// the embedding are given by their IEEE-754 bits in single precision.
pub fn enroll(name: &str, e: &[u32]) -> (r: Enrollment)
    ensures
        r.wf(),
        r@ == enrollment_of(name@, e@),
{
    Enrollment { name: name.to_owned(), slug: slug(name), vector: pack_f32le(e), n: 0 }
}

/// What an enrollment writes where `taken` are the keys that exist, if `asks` questions suffice.
pub open spec fn written(
    e: EnrollmentView,
    taken: Set<Seq<char>>,
    asks: nat,
) -> Option<EntryView>
    decreases asks,
{
    if asks == 0 {
        None
    } else if taken.contains(e.key()) {
        written(e.next(), taken, (asks - 1) as nat)
    } else {
        Some(e.entry())
    }
}

/// An enrollment takes the first free number of the slug, and overwrites nothing. One question for
/// each number up to that one suffices.
pub proof fn law_enroll_takes_first_free_number(
    name: Seq<char>,
    e: Seq<u32>,
    taken: Set<Seq<char>>,
    free: nat,
    asks: nat,
)
    requires
        asks > free,
        !taken.contains(key_of(slug_of(name), free)),
        forall|m: nat| m < free ==> taken.contains(#[trigger] key_of(slug_of(name), m)),
    ensures
        written(enrollment_of(name, e), taken, asks) == Some(
            EntryView {
                key: key_of(slug_of(name), free),
                v: packed(e),
                name: vstd::utf8::encode_utf8(name),
            },
        ),
{
    lemma_written(enrollment_of(name, e), taken, free, asks);
}

proof fn lemma_written(e: EnrollmentView, taken: Set<Seq<char>>, free: nat, asks: nat)
    requires
        asks > free - e.n,
        0 <= e.n <= free,
        !taken.contains(key_of(slug_of(e.name), free)),
        forall|m: nat| m < free ==> taken.contains(#[trigger] key_of(slug_of(e.name), m)),
    ensures
        written(e, taken, asks) == Some(
            EnrollmentView { n: free as int, ..e }.entry(),
        ),
    decreases free - e.n,
{
    if e.n < free {
        lemma_written(e.next(), taken, free, (asks - 1) as nat);
    }
}

/// Enrolling somebody again adds an entry beside the ones that are there: after entries with the
/// numbers below `n`, the next one has the number `n`.
pub proof fn law_photos_are_numbered_in_turn(name: Seq<char>, e: Seq<u32>, n: nat)
    ensures
        written(
            enrollment_of(name, e),
            Set::new(|k: Seq<char>| exists|m: nat| m < n && k == key_of(slug_of(name), m)),
            n + 1,
        ) matches Some(entry) && entry.key == key_of(slug_of(name), n),
{
    let taken = Set::new(|k: Seq<char>| exists|m: nat| m < n && k == key_of(slug_of(name), m));
    if taken.contains(key_of(slug_of(name), n)) {
        let m = choose|m: nat| m < n && key_of(slug_of(name), n) == key_of(slug_of(name), m);
        law_keys_are_distinct(name, n, name, m);
    }
    law_enroll_takes_first_free_number(name, e, taken, n, n + 1);
}

/// The name and the vector of an entry are read back as they were enrolled.
pub proof fn law_entry_is_read_back(name: Seq<char>, e: Seq<u32>)
    ensures
        crate::reply::bytes_text(enrollment_of(name, e).entry().name) == name,
        crate::vector::unpacked(enrollment_of(name, e).entry().v) == e,
        e.len() == EMBED_DIM ==> enrollment_of(name, e).entry().v.len() == 2048,
{
    crate::reply::law_name_is_read_back(name);
    crate::vector::law_unpack_undoes_pack(e);
}

// ---------- What the store holds ----------

/// The store after an enrollment that wrote an entry.
pub open spec fn enrolled(
    store: Map<Seq<char>, EntryView>,
    entry: EntryView,
) -> Map<Seq<char>, EntryView> {
    store.insert(entry.key, entry)
}

/// The store after a name was forgotten.
pub open spec fn forgotten(
    store: Map<Seq<char>, EntryView>,
    name: Seq<char>,
) -> Map<Seq<char>, EntryView> {
    store.remove_keys(Set::new(|k: Seq<char>| selects(forget_pattern(name), k)))
}

/// Enrolling keeps every entry that is in the store, and adds one.
pub proof fn law_enroll_keeps_all_entries(
    store: Map<Seq<char>, EntryView>,
    e: EnrollmentView,
    asks: nat,
    key: Seq<char>,
)
    requires
        written(e, store.dom(), asks) is Some,
    ensures
        ({
            let entry = written(e, store.dom(), asks)->0;
            &&& !store.contains_key(entry.key)
            &&& enrolled(store, entry).contains_key(key) <==> store.contains_key(key) || key
                == entry.key
            &&& store.contains_key(key) ==> enrolled(store, entry)[key] == store[key]
            &&& enrolled(store, entry)[entry.key] == entry
        }),
    decreases asks,
{
    if store.dom().contains(e.key()) {
        law_enroll_keeps_all_entries(store, e.next(), (asks - 1) as nat, key);
    }
}

/// Forgetting a name removes every entry under its slug and keeps every other one.
pub proof fn law_forget_removes_the_person_only(
    store: Map<Seq<char>, EntryView>,
    name: Seq<char>,
    other: Seq<char>,
    n: nat,
)
    ensures
        ({
            let key = key_of(slug_of(other), n);
            &&& forgotten(store, name).contains_key(key) <==> store.contains_key(key) && slug_of(
                name,
            ) != slug_of(other)
            &&& forgotten(store, name).contains_key(key) ==> forgotten(store, name)[key]
                == store[key]
        }),
{
    law_forget_selects_the_person(name, other, n);
}

/// Forgetting undoes enrolling: the store of one who had no entries is again as it was.
pub proof fn law_forget_undoes_enroll(
    store: Map<Seq<char>, EntryView>,
    name: Seq<char>,
    e: Seq<u32>,
)
    requires
        forall|k: Seq<char>| #[trigger] store.contains_key(k) ==> !selects(forget_pattern(name), k),
    ensures
        written(enrollment_of(name, e), store.dom(), 1) matches Some(entry) && forgotten(
            enrolled(store, entry),
            name,
        ) == store,
{
    let key = key_of(slug_of(name), 0);
    law_forget_selects_the_person(name, name, 0);
    assert(!store.contains_key(key));
    law_enroll_takes_first_free_number(name, e, store.dom(), 0, 1);
    let entry = written(enrollment_of(name, e), store.dom(), 1)->0;
    assert(forgotten(enrolled(store, entry), name) == store);
}

/// The store after enrollments one after the other, each of a name with a vector. One for which
/// `asks` questions do not suffice writes nothing.
pub open spec fn enrolled_all(
    store: Map<Seq<char>, EntryView>,
    photos: Seq<(Seq<char>, Seq<u32>)>,
    asks: nat,
) -> Map<Seq<char>, EntryView>
    decreases photos.len(),
{
    if photos.len() == 0 {
        store
    } else {
        let before = enrolled_all(store, photos.drop_last(), asks);
        match written(enrollment_of(photos.last().0, photos.last().1), before.dom(), asks) {
            Some(entry) => enrolled(before, entry),
            None => before,
        }
    }
}

/// Forgetting undoes any number of enrollments under a slug: what is left is what forgetting would
/// have left without them, and the store of one who had no entries is again as it was.
pub proof fn law_forget_undoes_all_enrolls(
    store: Map<Seq<char>, EntryView>,
    name: Seq<char>,
    photos: Seq<(Seq<char>, Seq<u32>)>,
    asks: nat,
)
    requires
        forall|i: int| 0 <= i < photos.len() ==> slug_of((#[trigger] photos[i]).0) == slug_of(name),
    ensures
        forgotten(enrolled_all(store, photos, asks), name) == forgotten(store, name),
        (forall|k: Seq<char>| #[trigger]
            store.contains_key(k) ==> !selects(forget_pattern(name), k)) ==> forgotten(
            enrolled_all(store, photos, asks),
            name,
        ) == store,
    decreases photos.len(),
{
    if photos.len() > 0 {
        let rest = photos.drop_last();
        let last = photos[photos.len() - 1];
        let before = enrolled_all(store, rest, asks);
        assert forall|i: int| 0 <= i < rest.len() implies slug_of((#[trigger] rest[i]).0)
            == slug_of(name) by {
            assert(photos[i] == rest[i]);
        }
        law_forget_undoes_all_enrolls(store, name, rest, asks);
        let e = enrollment_of(last.0, last.1);
        if let Some(entry) = written(e, before.dom(), asks) {
            let n = lemma_written_key(e, before.dom(), asks);
            law_forget_selects_the_person(name, last.0, n);
            assert(forgotten(enrolled(before, entry), name) == forgotten(before, name));
        }
    }
    if forall|k: Seq<char>| #[trigger]
        store.contains_key(k) ==> !selects(forget_pattern(name), k) {
        assert(forgotten(store, name) == store);
    }
}

proof fn lemma_written_key(e: EnrollmentView, taken: Set<Seq<char>>, asks: nat) -> (n: nat)
    requires
        e.n >= 0,
        written(e, taken, asks) is Some,
    ensures
        written(e, taken, asks)->0 == (EnrollmentView { n: n as int, ..e }).entry(),
    decreases asks,
{
    if taken.contains(e.key()) {
        lemma_written_key(e.next(), taken, (asks - 1) as nat)
    } else {
        e.n as nat
    }
}

/// Each of several enrollments of one who had no entries is written, the first under the number 0
/// and each other under the next one, if there are as many questions as enrollments.
pub proof fn law_all_enrolls_are_written(
    store: Map<Seq<char>, EntryView>,
    name: Seq<char>,
    photos: Seq<(Seq<char>, Seq<u32>)>,
    asks: nat,
)
    requires
        forall|i: int| 0 <= i < photos.len() ==> slug_of((#[trigger] photos[i]).0) == slug_of(name),
        forall|k: Seq<char>| #[trigger] store.contains_key(k) ==> !selects(forget_pattern(name), k),
        asks >= photos.len(),
    ensures
        forall|k: Seq<char>| #[trigger]
            enrolled_all(store, photos, asks).contains_key(k) <==> store.contains_key(k) || exists|
                i: nat,
            |
                i < photos.len() && k == #[trigger] key_of(slug_of(name), i),
        forall|i: nat|
            i < photos.len() ==> enrolled_all(store, photos, asks)[#[trigger] key_of(
                slug_of(name),
                i,
            )] == (EnrollmentView {
                n: i as int,
                ..enrollment_of(photos[i as int].0, photos[i as int].1)
            }).entry(),
    decreases photos.len(),
{
    if photos.len() > 0 {
        let rest = photos.drop_last();
        let last = photos[photos.len() - 1];
        let before = enrolled_all(store, rest, asks);
        let free = rest.len();
        assert forall|i: int| 0 <= i < rest.len() implies slug_of((#[trigger] rest[i]).0)
            == slug_of(name) by {
            assert(photos[i] == rest[i]);
        }
        law_all_enrolls_are_written(store, name, rest, asks);
        let key = key_of(slug_of(name), free);
        law_forget_selects_the_person(name, name, free);
        if before.contains_key(key) {
            let i = choose|i: nat| i < free && key == #[trigger] key_of(slug_of(name), i);
            law_keys_are_distinct(name, free, name, i);
        }
        law_enroll_takes_first_free_number(last.0, last.1, before.dom(), free, asks);
        let after = enrolled_all(store, photos, asks);
        assert(after == before.insert(key, after[key]));
        assert forall|i: nat| i < photos.len() implies after[#[trigger] key_of(slug_of(name), i)]
            == (EnrollmentView {
            n: i as int,
            ..enrollment_of(photos[i as int].0, photos[i as int].1)
        }).entry() by {
            if i < free {
                assert(photos[i as int] == rest[i as int]);
                if key_of(slug_of(name), i) == key {
                    law_keys_are_distinct(name, free, name, i);
                }
            }
        }
    }
}

// ---------- Listing ----------

/// The name that stands in the entry under a key.
pub open spec fn name_at(store: Map<Seq<char>, EntryView>, key: Seq<char>) -> Seq<char> {
    crate::reply::bytes_text(store[key].name)
}

/// Every entry stands under a key of the name in it.
pub open spec fn keys_fit_names(store: Map<Seq<char>, EntryView>) -> bool {
    forall|k: Seq<char>| #[trigger]
        store.contains_key(k) ==> exists|n: nat| k == #[trigger] key_of(
            slug_of(name_at(store, k)),
            n,
        )
}

/// Every entry stands under a key of the name in it, whatever is enrolled and forgotten.
pub proof fn law_keys_always_fit_names(
    store: Map<Seq<char>, EntryView>,
    name: Seq<char>,
    e: Seq<u32>,
    asks: nat,
)
    ensures
        keys_fit_names(Map::empty()),
        keys_fit_names(store) ==> keys_fit_names(forgotten(store, name)),
        keys_fit_names(store) ==> (written(enrollment_of(name, e), store.dom(), asks) matches Some(
            entry,
        ) ==> keys_fit_names(enrolled(store, entry))),
{
    if keys_fit_names(store) {
        let left = forgotten(store, name);
        assert forall|k: Seq<char>| #[trigger] left.contains_key(k) implies exists|n: nat|
            k == #[trigger] key_of(slug_of(name_at(left, k)), n) by {
            assert(store.contains_key(k));
            let n = choose|n: nat| k == #[trigger] key_of(slug_of(name_at(store, k)), n);
            assert(k == key_of(slug_of(name_at(left, k)), n));
        }
        if let Some(entry) = written(enrollment_of(name, e), store.dom(), asks) {
            let m = lemma_written_key(enrollment_of(name, e), store.dom(), asks);
            crate::reply::law_name_is_read_back(name);
            let after = enrolled(store, entry);
            assert forall|k: Seq<char>| #[trigger] after.contains_key(k) implies exists|n: nat|
                k == #[trigger] key_of(slug_of(name_at(after, k)), n) by {
                if k == entry.key {
                    assert(k == key_of(slug_of(name_at(after, k)), m));
                } else {
                    assert(store.contains_key(k));
                    let n = choose|n: nat| k == #[trigger] key_of(slug_of(name_at(store, k)), n);
                    assert(k == key_of(slug_of(name_at(after, k)), n));
                }
            }
        }
    }
}

/// The keys that the store answers to a pattern: those that it selects, each once.
pub open spec fn answers(
    keys: Seq<Seq<char>>,
    store: Map<Seq<char>, EntryView>,
    pattern: Seq<char>,
) -> bool {
    &&& keys.no_duplicates()
    &&& forall|k: Seq<char>| #[trigger]
        keys.contains(k) <==> store.contains_key(k) && selects(pattern, k)
}

/// The names that stand under keys, as they are counted for the list.
pub open spec fn names_under(
    store: Map<Seq<char>, EntryView>,
    keys: Seq<Seq<char>>,
) -> Seq<Option<Seq<char>>> {
    keys.map_values(|k: Seq<char>| Some(name_at(store, k)))
}

/// After a name was forgotten, the list is the one from before without the names of its slug; and
/// as many entries were removed as those names had together.
pub proof fn law_list_after_forget(
    store: Map<Seq<char>, EntryView>,
    name: Seq<char>,
    keys: Seq<Seq<char>>,
    people: Seq<(Seq<char>, nat)>,
    removed: Seq<Seq<char>>,
    keys_after: Seq<Seq<char>>,
    people_after: Seq<(Seq<char>, nat)>,
)
    requires
        keys_fit_names(store),
        answers(keys, store, list_pattern()),
        is_tally(people, names_under(store, keys)),
        answers(removed, store, forget_pattern(name)),
        answers(keys_after, forgotten(store, name), list_pattern()),
        is_tally(people_after, names_under(forgotten(store, name), keys_after)),
    ensures
        people_after == rows_where(people, |n: Seq<char>| slug_of(n) != slug_of(name)),
        removed.len() == total(rows_where(people, |n: Seq<char>| slug_of(n) == slug_of(name))),
{
    let left = forgotten(store, name);
    let entries = names_under(store, keys);
    let entries_after = names_under(left, keys_after);
    let stays = |n: Seq<char>| slug_of(n) != slug_of(name);
    let goes = |n: Seq<char>| slug_of(n) == slug_of(name);
    assert forall|k: Seq<char>| store.contains_key(k) implies keys.contains(k) && (
    #[trigger] removed.contains(k) <==> goes(name_at(store, k))) by {
        lemma_selected_by_slug(store, name, k);
    }
    assert(removed.len() == total(rows_where(people, goes))) by {
        law_counts_add_up(people, entries, goes);
        lemma_bearing_any_counts_keys(store, keys, goes);
        removed.unique_seq_to_set();
        assert(removed.to_set() == keys_bearing(store, keys, goes));
    }
    assert forall|n: Seq<char>| #[trigger]
        bearing(entries_after, n) == if stays(n) {
            bearing(entries, n)
        } else {
            0
        } by {
        let one = |m: Seq<char>| m == n;
        lemma_bearing_any_of_one(entries, n, one);
        lemma_bearing_any_of_one(entries_after, n, one);
        lemma_bearing_any_counts_keys(store, keys, one);
        lemma_bearing_any_counts_keys(left, keys_after, one);
        let now = keys_bearing(left, keys_after, one);
        assert forall|k: Seq<char>| #[trigger] now.contains(k) <==> stays(n) && keys_bearing(
            store,
            keys,
            one,
        ).contains(k) by {
            if store.contains_key(k) {
                lemma_selected_by_slug(store, name, k);
            }
        }
        if stays(n) {
            assert(now == keys_bearing(store, keys, one));
        } else {
            assert(now == Set::<Seq<char>>::empty());
        }
    }
    let kept = rows_where(people, stays);
    lemma_filter_rows(people, stays);
    assert(is_tally(kept, entries_after)) by {
        assert forall|k: int| 0 <= k < kept.len() implies (#[trigger] kept[k]).1 == bearing(
            entries_after,
            kept[k].0,
        ) && kept[k].1 > 0 by {
            assert(kept.contains(kept[k]));
            let j = choose|j: int| 0 <= j < people.len() && people[j] == kept[k];
            assert(people[j].1 == bearing(entries, people[j].0));
        }
        let names = people.map_values(|row: (Seq<char>, nat)| row.0);
        let kept_names = kept.map_values(|row: (Seq<char>, nat)| row.0);
        assert forall|n: Seq<char>| #[trigger] bearing(entries_after, n) > 0 implies kept_names.contains(
            n,
        ) by {
            assert(bearing(entries, n) > 0);
            assert(names.contains(n));
            let j = choose|j: int| 0 <= j < names.len() && names[j] == n;
            assert(people.contains(people[j]));
            assert(kept.contains(people[j]));
            let k = choose|k: int| 0 <= k < kept.len() && kept[k] == people[j];
            assert(kept_names[k] == n);
        }
    }
    law_one_tally(people_after, kept, entries_after);
}

/// After an enrollment wrote an entry, the list shows one entry more of that name, listed with one
/// where it was not listed before, and the rows of all other names are as they were.
pub proof fn law_list_after_enroll(
    store: Map<Seq<char>, EntryView>,
    name: Seq<char>,
    e: Seq<u32>,
    asks: nat,
    keys: Seq<Seq<char>>,
    people: Seq<(Seq<char>, nat)>,
    keys_after: Seq<Seq<char>>,
    people_after: Seq<(Seq<char>, nat)>,
)
    requires
        keys_fit_names(store),
        written(enrollment_of(name, e), store.dom(), asks) is Some,
        answers(keys, store, list_pattern()),
        is_tally(people, names_under(store, keys)),
        answers(
            keys_after,
            enrolled(store, written(enrollment_of(name, e), store.dom(), asks)->0),
            list_pattern(),
        ),
        is_tally(
            people_after,
            names_under(
                enrolled(store, written(enrollment_of(name, e), store.dom(), asks)->0),
                keys_after,
            ),
        ),
    ensures
        people_after.contains(
            (name, total(rows_where(people, |n: Seq<char>| n == name)) + 1),
        ),
        rows_where(people_after, |n: Seq<char>| n != name) == rows_where(
            people,
            |n: Seq<char>| n != name,
        ),
        total(people_after) == total(people) + 1,
{
    let entry = written(enrollment_of(name, e), store.dom(), asks)->0;
    let after = enrolled(store, entry);
    let entries = names_under(store, keys);
    let entries_after = names_under(after, keys_after);
    let is_name = |n: Seq<char>| n == name;
    let others = |n: Seq<char>| n != name;
    law_enroll_keeps_all_entries(store, enrollment_of(name, e), asks, entry.key);
    law_keys_always_fit_names(store, name, e, asks);
    let number = lemma_written_key(enrollment_of(name, e), store.dom(), asks);
    crate::reply::law_name_is_read_back(name);
    assert(name_at(after, entry.key) == name);
    assert forall|p: spec_fn(Seq<char>) -> bool| #[trigger]
        bearing_any(entries_after, p) == bearing_any(entries, p) + (if p(name) {
            1nat
        } else {
            0nat
        }) by {
        lemma_bearing_any_counts_keys(store, keys, p);
        lemma_bearing_any_counts_keys(after, keys_after, p);
        let before = keys_bearing(store, keys, p);
        let now = keys_bearing(after, keys_after, p);
        assert forall|k: Seq<char>| #[trigger] now.contains(k) <==> before.contains(k) || p(name)
            && k == entry.key by {
            if after.contains_key(k) {
                lemma_selected_by_slug(after, name, k);
            }
            if store.contains_key(k) {
                lemma_selected_by_slug(store, name, k);
            }
        }
        assert(!before.contains(entry.key));
        if p(name) {
            assert(now == before.insert(entry.key));
        } else {
            assert(now == before);
        }
    }
    assert forall|n: Seq<char>| #[trigger]
        bearing(entries_after, n) == bearing(entries, n) + (if n == name {
            1nat
        } else {
            0nat
        }) by {
        let one = |m: Seq<char>| m == n;
        lemma_bearing_any_of_one(entries, n, one);
        lemma_bearing_any_of_one(entries_after, n, one);
    }
    law_counts_add_up(people, entries, is_name);
    lemma_bearing_any_of_one(entries, name, is_name);
    lemma_tally_rows(people_after, entries_after, (name, bearing(entries, name) + 1));
    let kept = rows_where(people, others);
    let kept_after = rows_where(people_after, others);
    lemma_filter_rows(people, others);
    lemma_filter_rows(people_after, others);
    assert forall|row: (Seq<char>, nat)| #[trigger] kept_after.contains(row) <==> kept.contains(
        row,
    ) by {
        lemma_tally_rows(people, entries, row);
        lemma_tally_rows(people_after, entries_after, row);
    }
    lemma_rows_are_settled_by_members(kept_after, kept);
    let all = |n: Seq<char>| true;
    law_counts_add_up(people, entries, all);
    law_counts_add_up(people_after, entries_after, all);
    lemma_all_rows(people, all);
    lemma_all_rows(people_after, all);
}

proof fn lemma_all_rows(people: Seq<(Seq<char>, nat)>, all: spec_fn(Seq<char>) -> bool)
    requires
        forall|n: Seq<char>| #[trigger] all(n),
    ensures
        rows_where(people, all) == people,
    decreases people.len(),
{
    reveal(Seq::filter);
    if people.len() > 0 {
        lemma_all_rows(people.drop_last(), all);
        assert(people == people.drop_last().push(people.last()));
    }
}

proof fn lemma_selected_by_slug(
    store: Map<Seq<char>, EntryView>,
    name: Seq<char>,
    key: Seq<char>,
)
    requires
        keys_fit_names(store),
        store.contains_key(key),
    ensures
        selects(list_pattern(), key),
        selects(forget_pattern(name), key) <==> slug_of(name_at(store, key)) == slug_of(name),
{
    let n = choose|n: nat| key == #[trigger] key_of(slug_of(name_at(store, key)), n);
    law_list_selects_every_entry(name_at(store, key), n);
    law_forget_selects_the_person(name, name_at(store, key), n);
}

spec fn keys_bearing(
    store: Map<Seq<char>, EntryView>,
    keys: Seq<Seq<char>>,
    p: spec_fn(Seq<char>) -> bool,
) -> Set<Seq<char>> {
    Set::new(|k: Seq<char>| keys.contains(k) && p(name_at(store, k)))
}

proof fn lemma_bearing_any_counts_keys(
    store: Map<Seq<char>, EntryView>,
    keys: Seq<Seq<char>>,
    p: spec_fn(Seq<char>) -> bool,
)
    requires
        keys.no_duplicates(),
    ensures
        keys_bearing(store, keys, p).finite(),
        bearing_any(names_under(store, keys), p) == keys_bearing(store, keys, p).len(),
    decreases keys.len(),
{
    reveal(Seq::filter);
    let found = keys_bearing(store, keys, p);
    if keys.len() == 0 {
        assert(found == Set::<Seq<char>>::empty());
    } else {
        let rest = keys.drop_last();
        let last = keys.last();
        lemma_bearing_any_counts_keys(store, rest, p);
        let before = keys_bearing(store, rest, p);
        assert(names_under(store, keys).drop_last() == names_under(store, rest));
        assert forall|k: Seq<char>| #[trigger] keys.contains(k) <==> rest.contains(k) || k
            == last by {
            if rest.contains(k) {
                let i = choose|i: int| 0 <= i < rest.len() && rest[i] == k;
                assert(keys[i] == k);
            }
            if k == last {
                assert(keys[keys.len() - 1] == k);
            }
            if keys.contains(k) && k != last {
                let i = choose|i: int| 0 <= i < keys.len() && keys[i] == k;
                assert(rest[i] == k);
            }
        }
        assert(!rest.contains(last));
        if p(name_at(store, last)) {
            assert(found == before.insert(last));
        } else {
            assert(found == before);
        }
    }
}

// ---------- What the commands ask for ----------

/// The word is this text.
pub open spec fn is_word_of(arg: Arg, text: Seq<char>) -> bool {
    arg matches Arg::Text(s) && s@ == text
}

/// A command has a word for each argument: a text character by character, bytes byte by byte.
pub proof fn law_words_are_the_arguments(args: Seq<Arg>)
    ensures
        words(args).len() == args.len(),
        forall|i: int|
            0 <= i < args.len() ==> match #[trigger] args[i] {
                Arg::Text(s) => words(args)[i] == ArgView::Text(s@),
                Arg::Bytes(b) => words(args)[i] == ArgView::Bytes(b@),
            },
        forall|i: int| 0 <= i < args.len() ==> #[trigger] words(args)[i] == args[i]@,
{
}

/// The vector that a search sends is the one that was asked for: one word of the command is bytes, it
/// follows the word `q`, and its bytes, the lowest of each number first, weigh the numbers of the
/// vector. So many entries are asked for as were to be found.
pub proof fn law_search_sends_the_vector(query: &[u32], k: usize, r: Vec<Arg>)
    requires
        call_ensures(knn_search, (query, k), r),
    ensures
        r@.len() == 13,
        forall|i: int| 0 <= i < r@.len() ==> (#[trigger] r@[i] is Bytes <==> i == 6),
        is_word_of(r@[5], "q"@),
        r@[6]->Bytes_0@.len() == 4 * query@.len(),
        crate::vector::unpacked(r@[6]->Bytes_0@) == query@,
        forall|i: int|
            0 <= i < query@.len() ==> ({
                let b = r@[6]->Bytes_0@;
                b[4 * i] + 256 * b[4 * i + 1] + 65536 * b[4 * i + 2] + 16777216 * b[4 * i + 3]
            }) == #[trigger] query@[i],
        is_word_of(r@[2], "*=>[KNN "@ + decimal(k as nat) + " @v $q AS dist]"@),
        crate::text::value(decimal(k as nat)) == k,
{
    let all = words(r@);
    assert(all.len() == r@.len());
    assert forall|i: int| 0 <= i < r@.len() implies (#[trigger] r@[i] is Bytes <==> i == 6) by {
        assert(all[i] == r@[i]@);
    }
    assert(all[2] == r@[2]@);
    assert(all[5] == r@[5]@);
    assert(all[6] == r@[6]@);
    crate::vector::law_unpack_undoes_pack(query@);
    assert forall|i: int| 0 <= i < query@.len() implies ({
        let b = r@[6]->Bytes_0@;
        b[4 * i] + 256 * b[4 * i + 1] + 65536 * b[4 * i + 2] + 16777216 * b[4 * i + 3]
    }) == #[trigger] query@[i] by {
        crate::vector::lemma_packed_bytes(query@, i);
    }
    crate::text::law_numeral_stands_for_its_number(k as nat);
}

/// Two searches differ in the number of entries and in the vector only.
pub proof fn law_searches_differ_in_number_and_vector_only(
    query1: &[u32],
    k1: usize,
    r1: Vec<Arg>,
    query2: &[u32],
    k2: usize,
    r2: Vec<Arg>,
    i: int,
)
    requires
        call_ensures(knn_search, (query1, k1), r1),
        call_ensures(knn_search, (query2, k2), r2),
        0 <= i < 13,
        i != 2,
        i != 6,
    ensures
        r1@.len() == 13,
        r2@.len() == 13,
        r1@[i] is Text,
        is_word_of(r2@[i], r1@[i]->Text_0@),
{
    assert(words(r1@).len() == r1@.len());
    assert(words(r2@).len() == r2@.len());
    assert(words(r1@)[i] == r1@[i]@);
    assert(words(r2@)[i] == r2@[i]@);
}

/// An enrollment starts with the name and the vector that it is given, at number 0, under the name's
/// slug; and it stores of a vector the bytes that a search for that vector sends.
pub proof fn law_enrollment_is_of_name_and_vector(
    name: &str,
    e: &[u32],
    r: Enrollment,
    s: String,
    k: usize,
    search: Vec<Arg>,
)
    requires
        call_ensures(enroll, (name, e), r),
        call_ensures(slug, (name,), s),
        call_ensures(knn_search, (e, k), search),
    ensures
        r.name@ == name@,
        r.slug@ == s@,
        r.n == 0,
        crate::vector::unpacked(r.vector@) == e@,
        r.vector@.len() == 4 * e@.len(),
        search@[6] is Bytes,
        r.vector@ == search@[6]->Bytes_0@,
{
    crate::vector::law_unpack_undoes_pack(e@);
    assert(r@.name == name@);
    assert(r@.vector == packed(e@));
    law_words_are_the_arguments(search@);
    assert(words(search@)[6] == search@[6]@);
}

/// The key to ask about is made of the prefix, the slug and the number, with a colon before each of
/// the last two, all of them whole.
pub proof fn law_key_holds_slug_and_number(e: &Enrollment, r: String)
    requires
        e.wf(),
        call_ensures(Enrollment::key, (e,), r),
    ensures
        r@ == "face:"@ + e.slug@ + ":"@ + decimal(e.n as nat),
        crate::text::value(r@.skip(e.slug@.len() as int + 6)) == e.n,
{
    reveal_strlit("face:");
    reveal_strlit(":");
    assert(r@ == "face:"@ + e.slug@ + ":"@ + decimal(e.n as nat));
    assert(r@.skip(e.slug@.len() as int + 6) == decimal(e.n as nat));
    crate::text::law_numeral_stands_for_its_number(e.n as nat);
}

/// Where the key is taken, the same person with the same vector is tried under the next number; where
/// it is free, the entry is written under the key that was asked about, with the vector's bytes as
/// they are and with the name, which is read back as it was.
pub proof fn law_answer_tries_on_or_writes(
    e: Enrollment,
    exists: bool,
    r: EnrollStep,
    key: String,
)
    requires
        e.wf(),
        call_ensures(Enrollment::answer, (e, exists), r),
        call_ensures(Enrollment::key, (&e,), key),
    ensures
        exists ==> (r matches EnrollStep::Ask(next) && next.n == e.n + 1 && next.name@ == e.name@
            && next.slug@ == e.slug@ && next.vector@ == e.vector@),
        !exists ==> (r matches EnrollStep::Write(entry) && entry.key@ == key@ && entry.v@
            == e.vector@ && entry.name@ == vstd::utf8::encode_utf8(e.name@)
            && vstd::utf8::decode_utf8(entry.name@) == e.name@),
{
    vstd::utf8::encode_utf8_decode_utf8(e.name@);
    match r {
        EnrollStep::Ask(next) => {
            assert(next@ == e@.next());
            assert(next@.name == next.name@ && next@.vector == next.vector@ && next@.n == next.n);
        },
        EnrollStep::Write(entry) => {
            assert(entry@ == e@.entry());
            assert(entry@.key == entry.key@ && entry@.v == entry.v@ && entry@.name == entry.name@);
        },
    }
}

/// Whoever was enrolled is recognized under the name of the enrollment: a reply of one entry that
/// holds the name as it was written, and a distance, in either order, is read as one hit with exactly
/// that name and exactly that distance.
pub proof fn law_enrolled_name_is_recognized(
    e: Enrollment,
    entry: Entry,
    distance: Seq<char>,
    fields: Seq<crate::reply::Reply>,
    v: crate::reply::Reply,
    r: Result<Vec<crate::reply::KnnHit>, crate::reply::SearchError>,
)
    requires
        e.wf(),
        e.name@.len() > 0,
        call_ensures(Enrollment::answer, (e, false), EnrollStep::Write(entry)),
        fields.len() == 4,
        ({
            let n = if crate::reply::spells(fields[0], "name"@) {
                0int
            } else {
                2int
            };
            &&& crate::reply::spells(fields[n], "name"@)
            &&& fields[n + 1] matches crate::reply::Reply::BulkString(b) && b@ == entry.name@
            &&& crate::reply::spells(fields[2 - n], "dist"@)
            &&& crate::reply::spells(fields[3 - n], distance)
        }),
        v matches crate::reply::Reply::Array(a) && a@.len() == 3 && (a@[2] matches crate::reply::Reply::Array(
            f,
        ) && f@ == fields),
        call_ensures(crate::reply::parse_search, (v,), r),
    ensures
        r is Ok,
        r->Ok_0@.len() == 1,
        r->Ok_0@[0].name@ == e.name@,
        r->Ok_0@[0].dist is Text,
        r->Ok_0@[0].dist->Text_0@ == distance,
{
    reveal(Seq::filter);
    reveal_strlit("name");
    reveal_strlit("dist");
    assert("name"@[0] != "dist"@[0]);
    let n = if crate::reply::spells(fields[0], "name"@) {
        0int
    } else {
        2int
    };
    let p = n / 2;
    let q = 1 - p;
    assert(entry@ == e@.entry());
    assert(entry@.name == entry.name@);
    assert(crate::reply::reads_as(fields[2 * p], "name"@));
    assert(crate::reply::reads_as(fields[2 * q], "dist"@));
    assert(crate::reply::reads_otherwise(fields[2 * q], "name"@));
    assert(crate::reply::reads_otherwise(fields[2 * p], "dist"@));
    assert(crate::reply::reads_as(fields[2 * p + 1], e.name@));
    assert(crate::reply::gives_field(fields, p, "name"@, fields[2 * p + 1]));
    assert(crate::reply::gives_field(fields, q, "dist"@, fields[2 * q + 1]));
    let told = seq![(e.name@, Some(fields[2 * q + 1]))];
    let reply = v->Array_0@;
    assert(crate::reply::tells(fields, told[0].0, told[0].1));
    assert(crate::reply::entry_tells(reply[2], told[0]));
    crate::reply::law_hits_are_what_the_entries_tell(v, reply, told, r);
    let keep = |t: (Seq<char>, Option<crate::reply::Reply>)| t.0.len() > 0;
    assert(told.drop_last() == Seq::<(Seq<char>, Option<crate::reply::Reply>)>::empty());
    assert(told.drop_last().filter(keep).len() == 0);
    assert(told.filter(keep) == seq![told[0]]);
    let hit = r->Ok_0@[0];
    assert(hit.name@ == told[0].0);
    assert(fields[2 * q + 1]->BulkString_0@ == vstd::utf8::encode_utf8(distance));
}

/// Forgetting asks for the keys that start with the prefix, the slug of the name and a colon, and
/// listing for all keys that start with the prefix.
pub proof fn law_patterns_end_in_a_star(
    name: &str,
    s: String,
    r: Vec<Arg>,
    all: Vec<Arg>,
)
    requires
        call_ensures(forget, (name,), r),
        call_ensures(slug, (name,), s),
        call_ensures(list, (), all),
    ensures
        r@.len() == 2,
        is_word_of(r@[0], "KEYS"@),
        is_word_of(r@[1], "face:"@ + s@ + ":*"@),
        all@.len() == 2,
        is_word_of(all@[0], "KEYS"@),
        is_word_of(all@[1], "face:*"@),
{
    reveal_strlit("face:");
    reveal_strlit(":");
    reveal_strlit("*");
    reveal_strlit(":*");
    reveal_strlit("face:*");
    assert(words(r@).len() == r@.len());
    assert(words(all@).len() == all@.len());
    assert(words(r@)[0] == r@[0]@);
    assert(words(r@)[1] == r@[1]@);
    assert(words(all@)[0] == all@[0]@);
    assert(words(all@)[1] == all@[1]@);
    assert(forget_pattern(name@) == "face:"@ + s@ + ":*"@);
    assert(list_pattern() == "face:*"@);
}

/// One index is created, asked about and searched: it holds the keys that enrolling makes, and
/// vectors of as many numbers as an embedding has.
pub proof fn law_one_index_holds_the_entries(
    info: Vec<Arg>,
    steps: Vec<Step>,
    query: &[u32],
    k: usize,
    search: Vec<Arg>,
    e: &Enrollment,
    key: String,
)
    requires
        call_ensures(index_exists, (), info),
        call_ensures(create_index, (), steps),
        call_ensures(knn_search, (query, k), search),
        e.wf(),
        call_ensures(Enrollment::key, (e,), key),
    ensures
        steps@.len() == 2,
        steps@[0].may_fail,
        !steps@[1].may_fail,
        ({
            let index = info@[1]->Text_0@;
            let create = steps@[1].command@;
            &&& info@[1] is Text
            &&& is_word_of(steps@[0].command@[1], index)
            &&& is_word_of(create[1], index)
            &&& is_word_of(search@[1], index)
            &&& create[6] is Text
            &&& create[6]->Text_0@.is_prefix_of(key@)
            &&& create[15] is Text
            &&& crate::text::value(create[15]->Text_0@) == 512
        }),
{
    let create = steps@[1].command@;
    law_words_are_the_arguments(info@);
    law_words_are_the_arguments(steps@[0].command@);
    law_words_are_the_arguments(create);
    law_words_are_the_arguments(search@);
    assert(words(info@)[1] == info@[1]@);
    assert(words(steps@[0].command@)[1] == steps@[0].command@[1]@);
    assert(words(create)[1] == create[1]@);
    assert(words(create)[6] == create[6]@);
    assert(words(create)[15] == create[15]@);
    assert(words(search@)[1] == search@[1]@);
    law_key_holds_slug_and_number(e, key);
    reveal_strlit("face:");
    assert(key@.take(5) == "face:"@);
    crate::text::law_numeral_stands_for_its_number(512);
}

} // verus!
