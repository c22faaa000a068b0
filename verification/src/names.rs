//! Names of people: their order, sets of them, and how often each occurs.

use crate::text::chars_of;
use vstd::prelude::*;

verus! {

// ---------- The order of names ----------

/// The order of strings: by the code points of their characters, the first difference decides,
/// and a string comes after its proper prefixes.
pub open spec fn precedes(a: Seq<char>, b: Seq<char>) -> bool
    decreases a.len(),
{
    if b.len() == 0 {
        false
    } else if a.len() == 0 {
        true
    } else if a[0] != b[0] {
        a[0] < b[0]
    } else {
        precedes(a.drop_first(), b.drop_first())
    }
}

/// No string precedes itself.
pub proof fn law_precedes_irreflexive(a: Seq<char>)
    ensures
        !precedes(a, a),
    decreases a.len(),
{
    if a.len() > 0 {
        law_precedes_irreflexive(a.drop_first());
    }
}

/// What precedes a string precedes whatever that string precedes.
pub proof fn law_precedes_transitive(a: Seq<char>, b: Seq<char>, c: Seq<char>)
    requires
        precedes(a, b),
        precedes(b, c),
    ensures
        precedes(a, c),
    decreases a.len(),
{
    if a.len() > 0 && a[0] == b[0] && b[0] == c[0] {
        law_precedes_transitive(a.drop_first(), b.drop_first(), c.drop_first());
    }
}

/// Of two different strings one precedes the other.
pub proof fn law_precedes_total(a: Seq<char>, b: Seq<char>)
    ensures
        a == b || precedes(a, b) || precedes(b, a),
    decreases a.len(),
{
    if a.len() == 0 || b.len() == 0 {
        if a.len() == 0 && b.len() == 0 {
            assert(a == b);
        }
    } else if a[0] == b[0] {
        law_precedes_total(a.drop_first(), b.drop_first());
        if a.drop_first() == b.drop_first() {
            assert(a == seq![a[0]] + a.drop_first());
            assert(b == seq![b[0]] + b.drop_first());
        }
    }
}

/// Tells whether a string comes before another.
pub fn comes_before(a: &str, b: &str) -> (r: bool)
    ensures
        r == precedes(a@, b@),
{
    let a_chars = chars_of(a);
    let b_chars = chars_of(b);
    let mut i: usize = 0;
    assert(a@.skip(0) == a@);
    assert(b@.skip(0) == b@);
    while i < a_chars.len() && i < b_chars.len()
        invariant
            i <= a_chars.len(),
            i <= b_chars.len(),
            a_chars@ == a@,
            b_chars@ == b@,
            precedes(a@, b@) == precedes(a@.skip(i as int), b@.skip(i as int)),
        decreases a_chars.len() - i,
    {
        if a_chars[i] != b_chars[i] {
            return a_chars[i] < b_chars[i];
        }
        assert(a@.skip(i as int).drop_first() == a@.skip(i + 1));
        assert(b@.skip(i as int).drop_first() == b@.skip(i + 1));
        i = i + 1;
    }
    i < b_chars.len()
}

// ---------- Ascending sequences ----------

/// The names are in order and none occurs twice.
pub open spec fn ascending(names: Seq<Seq<char>>) -> bool {
    forall|i: int, j: int| 0 <= i < j < names.len() ==> precedes(#[trigger] names[i], #[trigger] names[j])
}

/// Two sequences of names in order, none of them twice, are the same where they hold the same
/// names.
pub proof fn law_ascending_is_settled_by_members(a: Seq<Seq<char>>, b: Seq<Seq<char>>)
    requires
        ascending(a),
        ascending(b),
        forall|n: Seq<char>| #[trigger] a.contains(n) <==> b.contains(n),
    ensures
        a == b,
{
    lemma_ascending_prefix(a, b, a.len());
    lemma_ascending_prefix(b, a, b.len());
    assert(a == b);
}

proof fn lemma_ascending_prefix(a: Seq<Seq<char>>, b: Seq<Seq<char>>, n: nat)
    requires
        ascending(a),
        ascending(b),
        forall|m: Seq<char>| #[trigger] a.contains(m) <==> b.contains(m),
        n <= a.len(),
    ensures
        n <= b.len(),
        forall|k: int| 0 <= k < n ==> a[k] == b[k],
    decreases n,
{
    if n > 0 {
        let k = n - 1;
        lemma_ascending_prefix(a, b, k as nat);
        assert(a.contains(a[k]));
        let m = choose|m: int| 0 <= m < b.len() && b[m] == a[k];
        if m < k {
            assert(a[m] == b[m]);
            law_precedes_irreflexive(a[k]);
        }
        assert(k < b.len());
        assert(b.contains(b[k]));
        assert(a.contains(b[k]));
        let l = choose|l: int| 0 <= l < a.len() && a[l] == b[k];
        if l < k {
            assert(b[l] == a[l]);
            law_precedes_irreflexive(b[k]);
        }
        if m > k && l > k {
            law_precedes_transitive(a[k], a[l], a[k]);
            law_precedes_irreflexive(a[k]);
        }
    }
}

// ---------- Sets of names ----------

/// The characters of each of some strings.
pub open spec fn texts(strings: Seq<String>) -> Seq<Seq<char>> {
    strings.map_values(|s: String| s@)
}

/// A set of names, kept in order.
pub struct NameSet {
    pub names: Vec<String>,
}

impl View for NameSet {
    type V = Seq<Seq<char>>;

    open spec fn view(&self) -> Seq<Seq<char>> {
        texts(self.names@)
    }
}

impl NameSet {
    /// The names are in order and none occurs twice.
    pub open spec fn wf(&self) -> bool {
        ascending(self@)
    }

    /// The set without names.
    pub fn new() -> (r: NameSet)
        ensures
            r.wf(),
            r@ == Seq::<Seq<char>>::empty(),
    {
        let r = NameSet { names: Vec::new() };
        assert(r@ == Seq::<Seq<char>>::empty());
        r
    }

    /// Where a name stands or would stand: the names before it come before that place.
    fn place(&self, name: &str) -> (r: usize)
        requires
            self.wf(),
        ensures
            r <= self@.len(),
            forall|i: int| 0 <= i < r ==> precedes(#[trigger] self@[i], name@),
            forall|i: int| r <= i < self@.len() ==> !precedes(#[trigger] self@[i], name@),
    {
        let mut i: usize = 0;
        while i < self.names.len() && comes_before(self.names[i].as_str(), name)
            invariant
                i <= self.names.len(),
                forall|k: int| 0 <= k < i ==> precedes(#[trigger] self@[k], name@),
            decreases self.names.len() - i,
        {
            i = i + 1;
        }
        assert forall|k: int| i <= k < self@.len() implies !precedes(
            #[trigger] self@[k],
            name@,
        ) by {
            if k > i && precedes(self@[k], name@) {
                law_precedes_transitive(self@[i as int], self@[k], name@);
            }
        }
        i
    }

    /// Where a name stands, if it is in the set.
    fn position(&self, name: &str) -> (r: Option<usize>)
        requires
            self.wf(),
        ensures
            match r {
                Some(at) => at < self@.len() && self@[at as int] == name@,
                None => !self@.contains(name@),
            },
    {
        let at = self.place(name);
        if at < self.names.len() && !comes_before(name, self.names[at].as_str()) {
            proof {
                law_precedes_total(self@[at as int], name@);
            }
            Some(at)
        } else {
            proof {
                law_precedes_irreflexive(name@);
                if self@.contains(name@) {
                    let k = choose|k: int| 0 <= k < self@.len() && self@[k] == name@;
                    if k > at {
                        assert(precedes(self@[at as int], self@[k]));
                    }
                }
            }
            None
        }
    }

    /// Puts a name that is not in the set where it belongs, and says where that is.
    fn insert_new(&mut self, name: String) -> (at: usize)
        requires
            old(self).wf(),
            !old(self)@.contains(name@),
        ensures
            final(self).wf(),
            at <= old(self)@.len(),
            final(self)@ == old(self)@.insert(at as int, name@),
    {
        let at = self.place(name.as_str());
        let ghost before = self@;
        let ghost text = name@;
        self.names.insert(at, name);
        proof {
            let after = before.insert(at as int, text);
            assert(self@ == after);
            assert forall|i: int, j: int| 0 <= i < j < after.len() implies precedes(
                #[trigger] after[i],
                #[trigger] after[j],
            ) by {
                if j == at {
                    assert(precedes(before[i], text));
                } else if i == at {
                    law_precedes_total(before[j - 1], text);
                    assert(!precedes(before[j - 1], text));
                    assert(before.contains(before[j - 1]));
                } else {
                    let i0 = if i < at { i } else { i - 1 };
                    let j0 = if j < at { j } else { j - 1 };
                    assert(precedes(before[i0], before[j0]));
                }
            }
        }
        at
    }

    /// Tells whether a name is in the set.
    pub fn contains(&self, name: &str) -> (r: bool)
        requires
            self.wf(),
        ensures
            r == self@.contains(name@),
    {
        self.position(name).is_some()
    }

    /// Puts a name into the set.
    pub fn insert(&mut self, name: String)
        requires
            old(self).wf(),
        ensures
            final(self).wf(),
            forall|n: Seq<char>| #[trigger]
                final(self)@.contains(n) <==> old(self)@.contains(n) || n == name@,
    {
        if !self.contains(name.as_str()) {
            let ghost text = name@;
            let at = self.insert_new(name);
            proof {
                lemma_insert_contains(old(self)@, at as int, text);
            }
        }
    }

    /// The names of this set that another one lacks, in order.
    pub fn difference(&self, other: &NameSet) -> (r: Vec<String>)
        requires
            other.wf(),
        ensures
            texts(r@) == missing(self@, other@),
    {
        let mut r: Vec<String> = Vec::new();
        let mut i: usize = 0;
        assert(self@.take(0) == Seq::<Seq<char>>::empty());
        assert(texts(r@) == missing(self@.take(0), other@)) by {
            reveal(Seq::filter);
        }
        while i < self.names.len()
            invariant
                i <= self.names.len(),
                other.wf(),
                texts(r@) == missing(self@.take(i as int), other@),
            decreases self.names.len() - i,
        {
            let lacks = !other.contains(self.names[i].as_str());
            proof {
                let next = self@.take(i + 1);
                assert(next.drop_last() == self@.take(i as int));
                assert(next.last() == self.names@[i as int]@);
                reveal(Seq::filter);
            }
            if lacks {
                let ghost before = texts(r@);
                r.push(self.names[i].clone());
                assert(texts(r@) == before.push(self.names@[i as int]@));
            }
            i = i + 1;
        }
        assert(self@.take(i as int) == self@);
        r
    }

    /// Tells whether two sets hold the same names.
    pub fn same(&self, other: &NameSet) -> (r: bool)
        ensures
            r == (self@ == other@),
    {
        if self.names.len() != other.names.len() {
            assert(self@.len() != other@.len());
            return false;
        }
        let mut i: usize = 0;
        while i < self.names.len()
            invariant
                i <= self.names.len(),
                self.names.len() == other.names.len(),
                forall|k: int| 0 <= k < i ==> #[trigger] self@[k] == other@[k],
            decreases self.names.len() - i,
        {
            if self.names[i] != other.names[i] {
                assert(self@[i as int] != other@[i as int]);
                return false;
            }
            i = i + 1;
        }
        assert(self@ == other@);
        true
    }
}

/// The names that `from` has and `other` has not, in the order of `from`.
pub open spec fn missing(from: Seq<Seq<char>>, other: Seq<Seq<char>>) -> Seq<Seq<char>> {
    from.filter(|n: Seq<char>| !other.contains(n))
}

proof fn lemma_insert_contains(names: Seq<Seq<char>>, at: int, name: Seq<char>)
    requires
        0 <= at <= names.len(),
    ensures
        forall|n: Seq<char>| #[trigger]
            names.insert(at, name).contains(n) <==> names.contains(n) || n == name,
{
    let after = names.insert(at, name);
    assert forall|n: Seq<char>| #[trigger] after.contains(n) <==> names.contains(n) || n
        == name by {
        if names.contains(n) {
            let k = choose|k: int| 0 <= k < names.len() && names[k] == n;
            assert(after[if k < at { k } else { k + 1 }] == n);
        }
        if n == name {
            assert(after[at] == n);
        }
        if after.contains(n) && n != name {
            let k = choose|k: int| 0 <= k < after.len() && after[k] == n;
            assert(names[if k < at { k } else { k - 1 }] == n);
        }
    }
}

// ---------- Counting ----------

/// The name on each entry, where it has one.
pub open spec fn labels(found: Seq<Option<String>>) -> Seq<Option<Seq<char>>> {
    found.map_values(
        |e: Option<String>|
            match e {
                Some(s) => Some(s@),
                None => None,
            },
    )
}

/// How many entries bear a name.
pub open spec fn bearing(entries: Seq<Option<Seq<char>>>, name: Seq<char>) -> nat {
    entries.filter(|e: Option<Seq<char>>| e == Some(name)).len()
}

/// The names and their numbers, one after the other.
pub open spec fn rows(people: Seq<(String, usize)>) -> Seq<(Seq<char>, nat)> {
    people.map_values(|p: (String, usize)| (p.0@, p.1 as nat))
}

/// `people` lists the names that some entry bears, in order and each once, with the number of
/// entries that bear it.
pub open spec fn is_tally(people: Seq<(Seq<char>, nat)>, entries: Seq<Option<Seq<char>>>) -> bool {
    &&& ascending(people.map_values(|p: (Seq<char>, nat)| p.0))
    &&& forall|k: int|
        0 <= k < people.len() ==> (#[trigger] people[k]).1 == bearing(entries, people[k].0)
            && people[k].1 > 0
    &&& forall|n: Seq<char>| #[trigger]
        bearing(entries, n) > 0 ==> people.map_values(|p: (Seq<char>, nat)| p.0).contains(n)
}

proof fn lemma_bearing_step(entries: Seq<Option<Seq<char>>>, i: int, name: Seq<char>)
    requires
        0 <= i < entries.len(),
    ensures
        bearing(entries.take(i + 1), name) == bearing(entries.take(i), name) + (if entries[i]
            == Some(name) {
            1nat
        } else {
            0nat
        }),
{
    assert(entries.take(i + 1).drop_last() == entries.take(i));
    reveal(Seq::filter);
}

proof fn lemma_bearing_some(entries: Seq<Option<Seq<char>>>, name: Seq<char>)
    ensures
        bearing(entries, name) > 0 <==> entries.contains(Some(name)),
    decreases entries.len(),
{
    reveal(Seq::filter);
    if entries.len() > 0 {
        lemma_bearing_some(entries.drop_last(), name);
        if entries.drop_last().contains(Some(name)) {
            let k = choose|k: int|
                0 <= k < entries.drop_last().len() && entries.drop_last()[k] == Some(name);
            assert(entries[k] == Some(name));
        }
        if entries.contains(Some(name)) && entries.last() != Some(name) {
            let k = choose|k: int| 0 <= k < entries.len() && entries[k] == Some(name);
            assert(entries.drop_last()[k] == Some(name));
        }
        if entries.last() == Some(name) {
            assert(entries.contains(entries[entries.len() - 1]));
        }
    }
}

/// Counts the entries by name: who is enrolled, in order, with how many entries.
pub fn tally(found: Vec<Option<String>>) -> (r: Vec<(String, usize)>)
    ensures
        is_tally(rows(r@), labels(found@)),
{
    let ghost entries = labels(found@);
    let mut names = NameSet::new();
    let mut counts: Vec<usize> = Vec::new();
    let mut i: usize = 0;
    assert forall|n: Seq<char>| #[trigger] bearing(entries.take(0), n) == 0 by {
        reveal(Seq::filter);
    }
    while i < found.len()
        invariant
            i <= found.len(),
            entries == labels(found@),
            names.wf(),
            counts@.len() == names@.len(),
            forall|k: int|
                0 <= k < counts@.len() ==> 0 < #[trigger] counts@[k] <= i && counts@[k] == bearing(
                    entries.take(i as int),
                    names@[k],
                ),
            forall|n: Seq<char>| #[trigger]
                bearing(entries.take(i as int), n) > 0 ==> names@.contains(n),
        decreases found.len() - i,
    {
        let ghost names0 = names@;
        let ghost counts0 = counts@;
        assert forall|n: Seq<char>| #[trigger]
            bearing(entries.take(i + 1), n) == bearing(entries.take(i as int), n) + (if entries[
                i as int] == Some(n) {
                1nat
            } else {
                0nat
            }) by {
            lemma_bearing_step(entries, i as int, n);
        }
        match &found[i] {
            Some(name) => {
                match names.position(name.as_str()) {
                    Some(at) => {
                        let count: usize = counts[at];
                        counts.set(at, count + 1);
                        assert forall|k: int| 0 <= k < counts@.len() implies 0 < #[trigger] counts@[k]
                            <= i + 1 && counts@[k] == bearing(entries.take(i + 1), names@[k]) by {
                            assert(counts0[k] == bearing(entries.take(i as int), names0[k]));
                            if k < at {
                                assert(precedes(names@[k], names@[at as int]));
                                law_precedes_irreflexive(name@);
                            }
                            if k > at {
                                assert(precedes(names@[at as int], names@[k]));
                                law_precedes_irreflexive(name@);
                            }
                        }
                        assert(names@.contains(names@[at as int]));
                    },
                    None => {
                        let at = names.insert_new(name.clone());
                        counts.insert(at, 1);
                        proof {
                            lemma_insert_contains(names0, at as int, name@);
                        }
                        assert(bearing(entries.take(i as int), name@) == 0);
                        assert forall|k: int| 0 <= k < counts@.len() implies 0 < #[trigger] counts@[k]
                            <= i + 1 && counts@[k] == bearing(entries.take(i + 1), names@[k]) by {
                            if k != at {
                                let k0 = if k < at { k } else { k - 1 };
                                assert(counts0[k0] == bearing(entries.take(i as int), names0[k0]));
                                assert(names0.contains(names0[k0]));
                            }
                        }
                    },
                }
            },
            None => {},
        }
        i = i + 1;
    }
    assert(entries.take(i as int) == entries);
    let mut r: Vec<(String, usize)> = Vec::new();
    let mut k: usize = 0;
    while k < counts.len()
        invariant
            k <= counts.len(),
            counts@.len() == names.names@.len(),
            r@.len() == k,
            forall|j: int|
                0 <= j < k ==> (#[trigger] r@[j]).0@ == names@[j] && r@[j].1 == counts@[j],
        decreases counts.len() - k,
    {
        r.push((names.names[k].clone(), counts[k]));
        k = k + 1;
    }
    assert(rows(r@).map_values(|p: (Seq<char>, nat)| p.0) == names@);
    r
}

/// Who has an entry is listed, and nobody else is.
pub proof fn law_tally_lists_exactly_the_enrolled(
    people: Seq<(Seq<char>, nat)>,
    entries: Seq<Option<Seq<char>>>,
    name: Seq<char>,
)
    requires
        is_tally(people, entries),
    ensures
        people.map_values(|p: (Seq<char>, nat)| p.0).contains(name) <==> entries.contains(
            Some(name),
        ),
{
    let listed = people.map_values(|p: (Seq<char>, nat)| p.0);
    lemma_bearing_some(entries, name);
    if listed.contains(name) {
        let k = choose|k: int| 0 <= k < listed.len() && listed[k] == name;
        assert(people[k].1 == bearing(entries, name));
    }
}

/// The entries settle the list: there is one tally of them only.
pub proof fn law_one_tally(
    people1: Seq<(Seq<char>, nat)>,
    people2: Seq<(Seq<char>, nat)>,
    entries: Seq<Option<Seq<char>>>,
)
    requires
        is_tally(people1, entries),
        is_tally(people2, entries),
    ensures
        people1 == people2,
{
    let names1 = people1.map_values(|p: (Seq<char>, nat)| p.0);
    let names2 = people2.map_values(|p: (Seq<char>, nat)| p.0);
    assert forall|n: Seq<char>| #[trigger] names1.contains(n) <==> names2.contains(n) by {
        law_tally_lists_exactly_the_enrolled(people1, entries, n);
        law_tally_lists_exactly_the_enrolled(people2, entries, n);
    }
    law_ascending_is_settled_by_members(names1, names2);
    assert forall|k: int| 0 <= k < people1.len() implies people1[k] == people2[k] by {
        assert(names1[k] == names2[k]);
        assert(people1[k].1 == bearing(entries, names1[k]));
        assert(people2[k].1 == bearing(entries, names2[k]));
    }
    assert(people1.len() == names1.len() && people2.len() == names2.len());
    assert(people1 == people2);
}

/// One more entry counts once, and for its own name only.
pub proof fn law_one_more_entry_counts_once(
    entries: Seq<Option<Seq<char>>>,
    name: Seq<char>,
    other: Seq<char>,
)
    ensures
        bearing(entries.push(Some(name)), other) == bearing(entries, other) + (if other == name {
            1nat
        } else {
            0nat
        }),
{
    let more = entries.push(Some(name));
    lemma_bearing_step(more, entries.len() as int, other);
    assert(more.take(entries.len() as int) == entries);
    assert(more.take(entries.len() as int + 1) == more);
}

/// How many entries bear a name of which `p` holds.
pub open spec fn bearing_any(
    entries: Seq<Option<Seq<char>>>,
    p: spec_fn(Seq<char>) -> bool,
) -> nat {
    entries.filter(|e: Option<Seq<char>>| e is Some && p(e->0)).len()
}

/// The sum of the numbers in a list of names.
pub open spec fn total(people: Seq<(Seq<char>, nat)>) -> nat
    decreases people.len(),
{
    if people.len() == 0 {
        0
    } else {
        total(people.drop_last()) + people.last().1
    }
}

/// The rows of the names of which `p` holds.
pub open spec fn rows_where(
    people: Seq<(Seq<char>, nat)>,
    p: spec_fn(Seq<char>) -> bool,
) -> Seq<(Seq<char>, nat)> {
    people.filter(|row: (Seq<char>, nat)| p(row.0))
}

/// The numbers add up: the rows of the names of which `p` holds sum to the number of entries that
/// bear such a name.
pub proof fn law_counts_add_up(
    people: Seq<(Seq<char>, nat)>,
    entries: Seq<Option<Seq<char>>>,
    p: spec_fn(Seq<char>) -> bool,
)
    requires
        is_tally(people, entries),
    ensures
        total(rows_where(people, p)) == bearing_any(entries, p),
{
    let listed = |n: Seq<char>| p(n) && listed_before(people, people.len() as int, n);
    lemma_total_of_rows(people, entries, p, people.len());
    assert(people.take(people.len() as int) == people);
    assert forall|i: int| 0 <= i < entries.len() && #[trigger] entries[i] is Some implies listed(
        entries[i]->0,
    ) == p(entries[i]->0) by {
        let name = entries[i]->0;
        let names = people.map_values(|row: (Seq<char>, nat)| row.0);
        lemma_bearing_some(entries, name);
        assert(entries[i] == Some(name));
        assert(names.contains(name));
        let k = choose|k: int| 0 <= k < names.len() && names[k] == name;
        assert(people[k].0 == name);
    }
    lemma_bearing_any_same(entries, listed, p);
}

spec fn listed_before(people: Seq<(Seq<char>, nat)>, m: int, name: Seq<char>) -> bool {
    exists|k: int| 0 <= k < m && (#[trigger] people[k]).0 == name
}

proof fn lemma_total_of_rows(
    people: Seq<(Seq<char>, nat)>,
    entries: Seq<Option<Seq<char>>>,
    p: spec_fn(Seq<char>) -> bool,
    m: nat,
)
    requires
        is_tally(people, entries),
        m <= people.len(),
    ensures
        total(rows_where(people.take(m as int), p)) == bearing_any(
            entries,
            |n: Seq<char>| p(n) && listed_before(people, m as int, n),
        ),
    decreases m,
{
    reveal(Seq::filter);
    let now = |n: Seq<char>| p(n) && listed_before(people, m as int, n);
    if m == 0 {
        lemma_bearing_any_none(entries, now);
    } else {
        let before = |n: Seq<char>| p(n) && listed_before(people, m - 1, n);
        let last = people[m - 1];
        let rest = people.take(m - 1);
        lemma_total_of_rows(people, entries, p, (m - 1) as nat);
        assert(people.take(m as int).drop_last() == rest);
        assert forall|n: Seq<char>| #[trigger] now(n) <==> before(n) || p(last.0) && n == last.0 by {
            if n == last.0 {
                assert(people[m - 1].0 == n);
            }
        }
        if p(last.0) {
            let names = people.map_values(|row: (Seq<char>, nat)| row.0);
            assert forall|k: int| 0 <= k < m - 1 implies (#[trigger] people[k]).0 != last.0 by {
                assert(precedes(names[k], names[m - 1]));
                law_precedes_irreflexive(last.0);
            }
            lemma_bearing_any_split(entries, now, before, last.0);
            assert(rows_where(rest, p).push(last).drop_last() == rows_where(rest, p));
        } else {
            lemma_bearing_any_same(entries, now, before);
        }
    }
}

proof fn lemma_bearing_any_none(
    entries: Seq<Option<Seq<char>>>,
    p: spec_fn(Seq<char>) -> bool,
)
    requires
        forall|n: Seq<char>| !#[trigger] p(n),
    ensures
        bearing_any(entries, p) == 0,
    decreases entries.len(),
{
    reveal(Seq::filter);
    if entries.len() > 0 {
        lemma_bearing_any_none(entries.drop_last(), p);
    }
}

proof fn lemma_bearing_any_same(
    entries: Seq<Option<Seq<char>>>,
    p: spec_fn(Seq<char>) -> bool,
    q: spec_fn(Seq<char>) -> bool,
)
    requires
        forall|i: int|
            0 <= i < entries.len() && #[trigger] entries[i] is Some ==> p(entries[i]->0) == q(
                entries[i]->0,
            ),
    ensures
        bearing_any(entries, p) == bearing_any(entries, q),
    decreases entries.len(),
{
    reveal(Seq::filter);
    if entries.len() > 0 {
        let rest = entries.drop_last();
        assert forall|i: int| 0 <= i < rest.len() && #[trigger] rest[i] is Some implies p(
            rest[i]->0,
        ) == q(rest[i]->0) by {
            assert(entries[i] == rest[i]);
        }
        lemma_bearing_any_same(rest, p, q);
        assert(entries.last() == entries[entries.len() - 1]);
    }
}

proof fn lemma_bearing_any_split(
    entries: Seq<Option<Seq<char>>>,
    now: spec_fn(Seq<char>) -> bool,
    before: spec_fn(Seq<char>) -> bool,
    name: Seq<char>,
)
    requires
        forall|n: Seq<char>| #[trigger] now(n) <==> before(n) || n == name,
        !before(name),
    ensures
        bearing_any(entries, now) == bearing_any(entries, before) + bearing(entries, name),
    decreases entries.len(),
{
    reveal(Seq::filter);
    if entries.len() > 0 {
        lemma_bearing_any_split(entries.drop_last(), now, before, name);
        if entries.last() is Some {
            assert(now(entries.last()->0) <==> before(entries.last()->0) || entries.last()->0
                == name);
        }
    }
}

pub(crate) proof fn lemma_bearing_any_of_one(
    entries: Seq<Option<Seq<char>>>,
    name: Seq<char>,
    one: spec_fn(Seq<char>) -> bool,
)
    requires
        forall|n: Seq<char>| #[trigger] one(n) <==> n == name,
    ensures
        bearing(entries, name) == bearing_any(entries, one),
{
    let none = |n: Seq<char>| false;
    lemma_bearing_any_none(entries, none);
    lemma_bearing_any_split(entries, one, none, name);
}

pub(crate) proof fn lemma_filter_rows(people: Seq<(Seq<char>, nat)>, p: spec_fn(Seq<char>) -> bool)
    requires
        ascending(people.map_values(|row: (Seq<char>, nat)| row.0)),
    ensures
        ascending(rows_where(people, p).map_values(|row: (Seq<char>, nat)| row.0)),
        forall|row: (Seq<char>, nat)| #[trigger]
            rows_where(people, p).contains(row) <==> people.contains(row) && p(row.0),
    decreases people.len(),
{
    reveal(Seq::filter);
    let kept = rows_where(people, p);
    if people.len() > 0 {
        let rest = people.drop_last();
        let last = people.last();
        let names = people.map_values(|row: (Seq<char>, nat)| row.0);
        let rest_names = rest.map_values(|row: (Seq<char>, nat)| row.0);
        assert forall|i: int, j: int| 0 <= i < j < rest_names.len() implies precedes(
            #[trigger] rest_names[i],
            #[trigger] rest_names[j],
        ) by {
            assert(precedes(names[i], names[j]));
        }
        lemma_filter_rows(rest, p);
        let rest_kept = rows_where(rest, p);
        assert forall|row: (Seq<char>, nat)| #[trigger] people.contains(row) <==> rest.contains(row)
            || row == last by {
            if rest.contains(row) {
                let k = choose|k: int| 0 <= k < rest.len() && rest[k] == row;
                assert(people[k] == row);
            }
            if people.contains(row) && row != last {
                let k = choose|k: int| 0 <= k < people.len() && people[k] == row;
                assert(rest[k] == row);
            }
            if row == last {
                assert(people[people.len() - 1] == row);
            }
        }
        if p(last.0) {
            assert(kept == rest_kept.push(last));
            assert forall|row: (Seq<char>, nat)| #[trigger] kept.contains(row) <==> rest_kept.contains(
                row,
            ) || row == last by {
                if rest_kept.contains(row) {
                    let k = choose|k: int| 0 <= k < rest_kept.len() && rest_kept[k] == row;
                    assert(kept[k] == row);
                }
                if row == last {
                    assert(kept[rest_kept.len() as int] == row);
                }
                if kept.contains(row) && row != last {
                    let k = choose|k: int| 0 <= k < kept.len() && kept[k] == row;
                    assert(rest_kept[k] == row);
                }
            }
            let kept_names = kept.map_values(|row: (Seq<char>, nat)| row.0);
            let rest_kept_names = rest_kept.map_values(|row: (Seq<char>, nat)| row.0);
            assert forall|i: int, j: int| 0 <= i < j < kept_names.len() implies precedes(
                #[trigger] kept_names[i],
                #[trigger] kept_names[j],
            ) by {
                if j < rest_kept.len() {
                    assert(precedes(rest_kept_names[i], rest_kept_names[j]));
                } else {
                    assert(rest_kept.contains(rest_kept[i]));
                    let k = choose|k: int| 0 <= k < rest.len() && rest[k] == rest_kept[i];
                    assert(precedes(names[k], names[people.len() - 1]));
                }
            }
        }
    }
}

pub(crate) proof fn lemma_tally_rows(
    people: Seq<(Seq<char>, nat)>,
    entries: Seq<Option<Seq<char>>>,
    row: (Seq<char>, nat),
)
    requires
        is_tally(people, entries),
    ensures
        people.contains(row) <==> row.1 > 0 && row.1 == bearing(entries, row.0),
{
    if people.contains(row) {
        let k = choose|k: int| 0 <= k < people.len() && people[k] == row;
        assert(people[k].1 == bearing(entries, people[k].0));
    }
    if row.1 > 0 && row.1 == bearing(entries, row.0) {
        let names = people.map_values(|p: (Seq<char>, nat)| p.0);
        assert(names.contains(row.0));
        let k = choose|k: int| 0 <= k < names.len() && names[k] == row.0;
        assert(people[k].1 == bearing(entries, row.0));
        assert(people[k] == row);
    }
}

pub(crate) proof fn lemma_rows_are_settled_by_members(
    a: Seq<(Seq<char>, nat)>,
    b: Seq<(Seq<char>, nat)>,
)
    requires
        ascending(a.map_values(|row: (Seq<char>, nat)| row.0)),
        ascending(b.map_values(|row: (Seq<char>, nat)| row.0)),
        forall|row: (Seq<char>, nat)| #[trigger] a.contains(row) <==> b.contains(row),
    ensures
        a == b,
{
    let names_a = a.map_values(|row: (Seq<char>, nat)| row.0);
    let names_b = b.map_values(|row: (Seq<char>, nat)| row.0);
    assert forall|n: Seq<char>| #[trigger] names_a.contains(n) <==> names_b.contains(n) by {
        if names_a.contains(n) {
            let k = choose|k: int| 0 <= k < names_a.len() && names_a[k] == n;
            assert(a.contains(a[k]));
            let j = choose|j: int| 0 <= j < b.len() && b[j] == a[k];
            assert(names_b[j] == n);
        }
        if names_b.contains(n) {
            let k = choose|k: int| 0 <= k < names_b.len() && names_b[k] == n;
            assert(b.contains(b[k]));
            assert(a.contains(b[k]));
            let j = choose|j: int| 0 <= j < a.len() && a[j] == b[k];
            assert(names_a[j] == n);
        }
    }
    law_ascending_is_settled_by_members(names_a, names_b);
    assert(a.len() == names_a.len() && b.len() == names_b.len());
    assert forall|k: int| 0 <= k < a.len() implies a[k] == b[k] by {
        assert(a.contains(a[k]));
        let j = choose|j: int| 0 <= j < b.len() && b[j] == a[k];
        assert(names_b[j] == names_a[k]);
        assert(names_b[k] == names_a[k]);
        law_precedes_irreflexive(names_a[k]);
        if j < k {
            assert(precedes(names_b[j], names_b[k]));
        } else if k < j {
            assert(precedes(names_b[k], names_b[j]));
        }
    }
}

// ---------- What the operations on names do ----------

/// From `k` on two strings are told apart, the first as the lesser: they agree before, and there the
/// first one ends or has the lesser character.
pub open spec fn lesser_from(a: Seq<char>, b: Seq<char>, k: int) -> bool {
    &&& 0 <= k <= a.len()
    &&& k < b.len()
    &&& forall|i: int| 0 <= i < k ==> #[trigger] a[i] == b[i]
    &&& k < a.len() ==> a[k] < b[k]
}

/// A string comes before another exactly where it is the lesser at the first difference.
pub proof fn law_first_difference_decides(a: &str, b: &str, r: bool)
    requires
        call_ensures(comes_before, (a, b), r),
    ensures
        r <==> exists|k: int| #[trigger] lesser_from(a@, b@, k),
{
    law_precedes_is_the_first_difference(a@, b@);
}

/// The order of names goes by the first difference.
pub proof fn law_precedes_is_the_first_difference(a: Seq<char>, b: Seq<char>)
    ensures
        precedes(a, b) <==> exists|k: int| #[trigger] lesser_from(a, b, k),
    decreases a.len(),
{
    if b.len() > 0 && a.len() > 0 && a[0] == b[0] {
        let c = a.drop_first();
        let d = b.drop_first();
        law_precedes_is_the_first_difference(c, d);
        if exists|k: int| #[trigger] lesser_from(c, d, k) {
            let k = choose|k: int| #[trigger] lesser_from(c, d, k);
            assert forall|i: int| 0 <= i < k + 1 implies #[trigger] a[i] == b[i] by {
                if i > 0 {
                    assert(c[i - 1] == d[i - 1]);
                }
            }
            assert(lesser_from(a, b, k + 1));
        }
        if exists|k: int| #[trigger] lesser_from(a, b, k) {
            let k = choose|k: int| #[trigger] lesser_from(a, b, k);
            assert forall|i: int| 0 <= i < k - 1 implies #[trigger] c[i] == d[i] by {
                assert(a[i + 1] == b[i + 1]);
            }
            assert(lesser_from(c, d, k - 1));
        }
    } else if precedes(a, b) {
        assert(lesser_from(a, b, 0));
    } else if exists|k: int| #[trigger] lesser_from(a, b, k) {
        let k = choose|k: int| #[trigger] lesser_from(a, b, k);
        if k > 0 {
            assert(a[0] == b[0]);
        }
    }
}

/// The places of the entries that bear a name.
pub open spec fn places(found: Seq<Option<String>>, name: Seq<char>) -> Set<int> {
    Set::new(|i: int| 0 <= i < found.len() && found[i] is Some && found[i]->0@ == name)
}

/// The list of a tally has a row for the name of every entry, each name once and in order, with the
/// number of the places where the name stands.
pub proof fn law_tally_counts_the_places(found: Vec<Option<String>>, r: Vec<(String, usize)>)
    requires
        call_ensures(tally, (found,), r),
    ensures
        forall|k: int|
            0 <= k < r@.len() ==> (#[trigger] r@[k]).1 == places(found@, r@[k].0@).len() && r@[k].1
                > 0,
        forall|j: int, k: int|
            0 <= j < k < r@.len() ==> precedes((#[trigger] r@[j]).0@, (#[trigger] r@[k]).0@),
        forall|i: int|
            0 <= i < found@.len() && #[trigger] found@[i] is Some ==> exists|k: int|
                0 <= k < r@.len() && (#[trigger] r@[k]).0@ == found@[i]->0@,
{
    let entries = labels(found@);
    let people = rows(r@);
    let names = people.map_values(|p: (Seq<char>, nat)| p.0);
    assert forall|k: int| 0 <= k < r@.len() implies (#[trigger] r@[k]).1 == places(
        found@,
        r@[k].0@,
    ).len() && r@[k].1 > 0 by {
        assert(people[k] == (r@[k].0@, r@[k].1 as nat));
        lemma_bearing_counts_places(found@, r@[k].0@);
    }
    assert forall|j: int, k: int| 0 <= j < k < r@.len() implies precedes(
        (#[trigger] r@[j]).0@,
        (#[trigger] r@[k]).0@,
    ) by {
        assert(precedes(names[j], names[k]));
    }
    assert forall|i: int| 0 <= i < found@.len() && #[trigger] found@[i] is Some implies exists|k: int|
        0 <= k < r@.len() && (#[trigger] r@[k]).0@ == found@[i]->0@ by {
        let name = found@[i]->0@;
        assert(entries[i] == Some(name));
        lemma_bearing_some(entries, name);
        assert(names.contains(name));
        let k = choose|k: int| 0 <= k < names.len() && names[k] == name;
        assert(r@[k].0@ == name);
    }
}

proof fn lemma_bearing_counts_places(found: Seq<Option<String>>, name: Seq<char>)
    ensures
        places(found, name).finite(),
        places(found, name).len() == bearing(labels(found), name),
    decreases found.len(),
{
    reveal(Seq::filter);
    let at = places(found, name);
    if found.len() == 0 {
        assert(at == Set::<int>::empty());
    } else {
        let rest = found.drop_last();
        lemma_bearing_counts_places(rest, name);
        let before = places(rest, name);
        assert(labels(found).drop_last() == labels(rest));
        let last = found.len() - 1;
        assert forall|i: int| #[trigger] at.contains(i) <==> before.contains(i) || i == last
            && found[last] is Some && found[last]->0@ == name by {
            if 0 <= i < last {
                assert(rest[i] == found[i]);
            }
        }
        assert(!before.contains(last));
        if found[last] is Some && found[last]->0@ == name {
            assert(at == before.insert(last));
        } else {
            assert(at == before);
        }
    }
}

/// A set holds the strings in it, each one whole, and nothing else.
pub proof fn law_set_holds_its_strings(set: NameSet, strings: Seq<String>)
    ensures
        texts(strings).len() == strings.len(),
        forall|i: int| 0 <= i < strings.len() ==> #[trigger] texts(strings)[i] == strings[i]@,
        set@.len() == set.names@.len(),
        forall|i: int| 0 <= i < set.names@.len() ==> #[trigger] set@[i] == set.names@[i]@,
        set.wf() <==> forall|i: int, j: int|
            0 <= i < j < set.names@.len() ==> precedes(
                (#[trigger] set.names@[i])@,
                (#[trigger] set.names@[j])@,
            ),
{
    if set.wf() {
        assert forall|i: int, j: int| 0 <= i < j < set.names@.len() implies precedes(
            (#[trigger] set.names@[i])@,
            (#[trigger] set.names@[j])@,
        ) by {
            assert(precedes(set@[i], set@[j]));
        }
    }
}

/// A name is found in a set exactly where one of the set's strings spells it.
pub proof fn law_contains_looks_at_every_string(set: &NameSet, name: &str, r: bool)
    requires
        call_ensures(NameSet::contains, (set, name), r),
    ensures
        r <==> exists|i: int| 0 <= i < set.names@.len() && (#[trigger] set.names@[i])@ == name@,
{
    if r {
        let i = choose|i: int| 0 <= i < set@.len() && set@[i] == name@;
        assert(set.names@[i]@ == name@);
    }
    if exists|i: int| 0 <= i < set.names@.len() && (#[trigger] set.names@[i])@ == name@ {
        let i = choose|i: int| 0 <= i < set.names@.len() && (#[trigger] set.names@[i])@ == name@;
        assert(set@[i] == name@);
    }
}

/// Two sets are the same exactly where they hold the same strings in the same places.
pub proof fn law_same_compares_every_string(a: &NameSet, b: &NameSet, r: bool)
    requires
        call_ensures(NameSet::same, (a, b), r),
    ensures
        r <==> a.names@.len() == b.names@.len() && forall|i: int|
            0 <= i < a.names@.len() ==> (#[trigger] a.names@[i])@ == b.names@[i]@,
{
    assert(a@.len() == a.names@.len() && b@.len() == b.names@.len());
    if r {
        assert forall|i: int| 0 <= i < a.names@.len() implies (#[trigger] a.names@[i])@
            == b.names@[i]@ by {
            assert(a@[i] == a.names@[i]@);
            assert(b@[i] == b.names@[i]@);
        }
    }
    if a.names@.len() == b.names@.len() && forall|i: int|
        0 <= i < a.names@.len() ==> (#[trigger] a.names@[i])@ == b.names@[i]@ {
        assert(a@ == b@);
    }
}

/// The difference of two sets: every string of the first that the second lacks, no other, in the
/// order of the first.
pub proof fn law_difference_is_what_the_other_lacks(
    a: &NameSet,
    b: &NameSet,
    r: Vec<String>,
    name: Seq<char>,
)
    requires
        call_ensures(NameSet::difference, (a, b), r),
    ensures
        (exists|k: int| 0 <= k < r@.len() && (#[trigger] r@[k])@ == name) <==> (exists|i: int|
            0 <= i < a.names@.len() && (#[trigger] a.names@[i])@ == name) && !(exists|i: int|
            0 <= i < b.names@.len() && (#[trigger] b.names@[i])@ == name),
        a.wf() ==> forall|j: int, k: int|
            0 <= j < k < r@.len() ==> precedes((#[trigger] r@[j])@, (#[trigger] r@[k])@),
{
    lemma_missing_members(a@, b@, name);
    lemma_texts_contain(r@, name);
    lemma_texts_contain(a.names@, name);
    lemma_texts_contain(b.names@, name);
    if a.wf() {
        lemma_missing_ascends(a@, b@);
        assert forall|j: int, k: int| 0 <= j < k < r@.len() implies precedes(
            (#[trigger] r@[j])@,
            (#[trigger] r@[k])@,
        ) by {
            assert(precedes(texts(r@)[j], texts(r@)[k]));
        }
    }
}

pub(crate) proof fn lemma_texts_contain(strings: Seq<String>, name: Seq<char>)
    ensures
        texts(strings).contains(name) <==> exists|k: int|
            0 <= k < strings.len() && (#[trigger] strings[k])@ == name,
{
    if texts(strings).contains(name) {
        let k = choose|k: int| 0 <= k < texts(strings).len() && texts(strings)[k] == name;
        assert(strings[k]@ == name);
    }
    if exists|k: int| 0 <= k < strings.len() && (#[trigger] strings[k])@ == name {
        let k = choose|k: int| 0 <= k < strings.len() && (#[trigger] strings[k])@ == name;
        assert(texts(strings)[k] == name);
    }
}

pub(crate) proof fn lemma_missing_members(
    from: Seq<Seq<char>>,
    other: Seq<Seq<char>>,
    name: Seq<char>,
)
    ensures
        missing(from, other).contains(name) <==> from.contains(name) && !other.contains(name),
    decreases from.len(),
{
    reveal(Seq::filter);
    if from.len() > 0 {
        let rest = from.drop_last();
        let last = from.last();
        lemma_missing_members(rest, other, name);
        assert(from.contains(name) <==> rest.contains(name) || name == last) by {
            if rest.contains(name) {
                let k = choose|k: int| 0 <= k < rest.len() && rest[k] == name;
                assert(from[k] == name);
            }
            if name == last {
                assert(from[from.len() - 1] == name);
            }
            if from.contains(name) && name != last {
                let k = choose|k: int| 0 <= k < from.len() && from[k] == name;
                assert(rest[k] == name);
            }
        }
        if !other.contains(last) {
            let kept = missing(rest, other);
            assert(missing(from, other) == kept.push(last));
            if kept.contains(name) {
                let k = choose|k: int| 0 <= k < kept.len() && kept[k] == name;
                assert(kept.push(last)[k] == name);
            }
            if name == last {
                assert(kept.push(last)[kept.len() as int] == name);
            }
            if kept.push(last).contains(name) && name != last {
                let k = choose|k: int| 0 <= k < kept.push(last).len() && kept.push(last)[k] == name;
                assert(kept[k] == name);
            }
        }
    }
}

pub(crate) proof fn lemma_missing_ascends(from: Seq<Seq<char>>, other: Seq<Seq<char>>)
    requires
        ascending(from),
    ensures
        ascending(missing(from, other)),
    decreases from.len(),
{
    reveal(Seq::filter);
    if from.len() > 0 {
        let rest = from.drop_last();
        let last = from.last();
        assert forall|i: int, j: int| 0 <= i < j < rest.len() implies precedes(
            #[trigger] rest[i],
            #[trigger] rest[j],
        ) by {
            assert(precedes(from[i], from[j]));
        }
        lemma_missing_ascends(rest, other);
        let kept = missing(rest, other);
        if !other.contains(last) {
            let all = kept.push(last);
            assert(missing(from, other) == all);
            assert forall|i: int, j: int| 0 <= i < j < all.len() implies precedes(
                #[trigger] all[i],
                #[trigger] all[j],
            ) by {
                if j < kept.len() {
                    assert(precedes(kept[i], kept[j]));
                } else {
                    assert(kept.contains(kept[i]));
                    lemma_missing_members(rest, other, kept[i]);
                    let k = choose|k: int| 0 <= k < rest.len() && rest[k] == kept[i];
                    assert(precedes(from[k], from[from.len() - 1]));
                }
            }
        }
    }
}

} // verus!
