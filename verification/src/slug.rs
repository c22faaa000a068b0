//! Slugs: the part of a key that stands for a person's name.

use crate::text::chars_of;
use vstd::prelude::*;

verus! {

/// What `str::to_lowercase` makes of the characters of a string.
pub uninterp spec fn lowercase(s: Seq<char>) -> Seq<char>;

/// What `char::is_alphanumeric` says of a character.
pub uninterp spec fn alphanumeric(c: char) -> bool;

/// The string holds ASCII characters only.
pub open spec fn all_ascii(s: Seq<char>) -> bool {
    forall|i: int| 0 <= i < s.len() ==> (#[trigger] s[i] as u32) < 128
}

/// An ASCII capital.
pub open spec fn is_capital(c: char) -> bool {
    'A' <= c <= 'Z'
}

/// The small letter of an ASCII capital; any other character as it is.
pub open spec fn ascii_lower(c: char) -> char {
    if is_capital(c) {
        (c as u32 + 32) as char
    } else {
        c
    }
}

/// `str::to_lowercase`: the result depends on the characters of the string alone. It holds no ASCII
/// capital, and of a string of ASCII characters only it is the string with small letters for
/// capitals. Which characters others become is Unicode's to say and is not spelled out here; nor is
/// that lowercasing again changes nothing.
#[verifier::external_body]
fn to_lowercase(s: &str) -> (r: String)
    ensures
        r@ == lowercase(s@),
        all_ascii(s@) ==> r@ == s@.map_values(|c: char| ascii_lower(c)),
        forall|i: int| 0 <= i < r@.len() ==> !is_capital(#[trigger] r@[i]),
{
    s.to_lowercase()
}

/// The string in lowercase.
pub open spec fn lowered(s: Seq<char>) -> Seq<char> {
    if all_ascii(s) {
        s.map_values(|c: char| ascii_lower(c))
    } else {
        lowercase(s)
    }
}

/// `char::is_alphanumeric`: the answer depends on the character alone. Which characters are
/// letters and numbers is Unicode's to say and is not spelled out here.
#[verifier::external_body]
fn is_alphanumeric(c: char) -> (r: bool)
    ensures
        r == alphanumeric(c),
{
    c.is_alphanumeric()
}

/// A character that a slug keeps: a letter or a digit.
pub open spec fn is_word(c: char) -> bool {
    if (c as u32) < 128 {
        ||| 'a' <= c <= 'z'
        ||| 'A' <= c <= 'Z'
        ||| '0' <= c <= '9'
    } else {
        alphanumeric(c)
    }
}

/// Every character but letters and digits becomes a dash.
pub open spec fn dashed(s: Seq<char>) -> Seq<char> {
    s.map_values(|c: char| if is_word(c) { c } else { '-' })
}

/// The string without its leading dashes.
pub open spec fn trim_start(s: Seq<char>) -> Seq<char>
    decreases s.len(),
{
    if s.len() > 0 && s.first() == '-' {
        trim_start(s.drop_first())
    } else {
        s
    }
}

/// The string without its trailing dashes.
pub open spec fn trim_end(s: Seq<char>) -> Seq<char>
    decreases s.len(),
{
    if s.len() > 0 && s.last() == '-' {
        trim_end(s.drop_last())
    } else {
        s
    }
}

/// What a slug keeps of a name in lowercase: a dash for whatever is neither letter nor digit, no
/// dash at either end.
pub open spec fn slug_of_lowered(lower: Seq<char>) -> Seq<char> {
    trim_end(trim_start(dashed(lower)))
}

/// The slug of a name: lowercase, a dash for whatever is neither letter nor digit, no dash at
/// either end.
pub open spec fn slug_of(name: Seq<char>) -> Seq<char> {
    slug_of_lowered(lowered(name))
}

fn keep_in_slug(c: char) -> (r: bool)
    ensures
        r == is_word(c),
{
    if (c as u32) < 128 {
        ('a' <= c && c <= 'z') || ('A' <= c && c <= 'Z') || ('0' <= c && c <= '9')
    } else {
        is_alphanumeric(c)
    }
}

/// The slug of a name that is in lowercase: non-alnum -> '-', and no '-' at either end.
pub fn slug_of_lowercase(lower: &str) -> (r: String)
    ensures
        r@ == slug_of_lowered(lower@),
{
    let chars = chars_of(lower);
    let mut marked: Vec<char> = Vec::new();
    let mut i: usize = 0;
    while i < chars.len()
        invariant
            i <= chars.len(),
            marked@ == dashed(chars@.take(i as int)),
        decreases chars.len() - i,
    {
        marked.push(if keep_in_slug(chars[i]) { chars[i] } else { '-' });
        i = i + 1;
        assert(marked@ == dashed(chars@.take(i as int)));
    }
    assert(chars@.take(i as int) == chars@);
    let mut start: usize = 0;
    assert(marked@.skip(0) == marked@);
    while start < marked.len() && marked[start] == '-'
        invariant
            start <= marked.len(),
            trim_start(marked@) == trim_start(marked@.skip(start as int)),
        decreases marked.len() - start,
    {
        assert(marked@.skip(start as int).drop_first() == marked@.skip(start + 1));
        start = start + 1;
    }
    let mut end: usize = marked.len();
    assert(marked@.subrange(start as int, end as int) == marked@.skip(start as int));
    while start < end && marked[end - 1] == '-'
        invariant
            start <= end <= marked.len(),
            trim_end(trim_start(marked@)) == trim_end(marked@.subrange(start as int, end as int)),
        decreases end - start,
    {
        assert(marked@.subrange(start as int, end as int).drop_last() == marked@.subrange(
            start as int,
            end - 1,
        ));
        end = end - 1;
    }
    let mut r = String::new();
    let mut k: usize = start;
    while k < end
        invariant
            start <= k <= end <= marked.len(),
            r@ == marked@.subrange(start as int, k as int),
        decreases end - k,
    {
        r.push(marked[k]);
        k = k + 1;
        assert(r@ == marked@.subrange(start as int, k as int));
    }
    r
}

/// Slugify a name for use in keys: lowercase, non-alnum -> '-'. No ASCII capital is left.
pub fn slug(name: &str) -> (r: String)
    ensures
        r@ == slug_of(name@),
        forall|i: int| 0 <= i < r@.len() ==> !is_capital(#[trigger] r@[i]),
{
    let lower = to_lowercase(name);
    proof {
        lemma_slug_keeps(lower@);
    }
    slug_of_lowercase(lower.as_str())
}

/// A slug consists of letters, digits and dashes, and has no dash at either end. So it holds neither
/// the colon that parts a key nor a character with a meaning of its own in a pattern of keys.
pub proof fn law_slug_shape(name: Seq<char>)
    ensures
        forall|i: int|
            0 <= i < slug_of(name).len() ==> is_word(#[trigger] slug_of(name)[i]) || slug_of(name)[i]
                == '-',
        slug_of(name).len() > 0 ==> slug_of(name).first() != '-' && slug_of(name).last() != '-',
        forall|i: int|
            0 <= i < slug_of(name).len() ==> !seq![':', '*', '?', '[', '\\'].contains(
                #[trigger] slug_of(name)[i],
            ),
{
    lemma_slug_keeps(lowered(name));
}

/// The slug of a slug is the slug, and the slug of a name in lowercase is the slug of the name, where
/// lowercasing leaves as it is what is in lowercase. Of ASCII names it does, and no ASCII capital is
/// left in their slugs.
pub proof fn law_slug_of_a_slug(name: Seq<char>)
    ensures
        lowered(slug_of(name)) == slug_of(name) ==> slug_of(slug_of(name)) == slug_of(name),
        lowered(lowered(name)) == lowered(name) ==> slug_of(lowered(name)) == slug_of(name),
        all_ascii(name) ==> slug_of(slug_of(name)) == slug_of(name),
        all_ascii(name) ==> slug_of(lowered(name)) == slug_of(name),
        all_ascii(name) ==> forall|i: int|
            0 <= i < slug_of(name).len() ==> !is_capital(#[trigger] slug_of(name)[i]),
{
    let slug = slug_of(name);
    let lower = lowered(name);
    lemma_slug_keeps(lower);
    assert(dashed(slug) == slug);
    if all_ascii(name) {
        assert(all_ascii(lower));
        assert(lowered(lower) == lower);
        assert(all_ascii(slug));
        assert(lowered(slug) == slug);
    }
}

proof fn lemma_slug_keeps(lower: Seq<char>)
    ensures
        forall|i: int|
            0 <= i < slug_of_lowered(lower).len() ==> {
                ||| slug_of_lowered(lower)[i] == '-'
                ||| is_word(slug_of_lowered(lower)[i]) && lower.contains(
                    #[trigger] slug_of_lowered(lower)[i],
                )
            },
        slug_of_lowered(lower).len() > 0 ==> slug_of_lowered(lower).first() != '-'
            && slug_of_lowered(lower).last() != '-',
{
    let marked = dashed(lower);
    let slug = slug_of_lowered(lower);
    lemma_trim_start(marked);
    lemma_trim_end(trim_start(marked));
    assert forall|i: int| 0 <= i < slug.len() && slug[i] != '-' implies is_word(slug[i])
        && lower.contains(#[trigger] slug[i]) by {
        assert(slug[i] == trim_start(marked)[i]);
        let k = choose|k: int| 0 <= k < marked.len() && marked[k] == slug[i];
        assert(lower[k] == slug[i]);
    }
}

proof fn lemma_trim_start(s: Seq<char>)
    ensures
        forall|i: int| 0 <= i < trim_start(s).len() ==> s.contains(#[trigger] trim_start(s)[i]),
        trim_start(s).len() > 0 ==> trim_start(s).first() != '-',
    decreases s.len(),
{
    if s.len() > 0 && s.first() == '-' {
        let rest = s.drop_first();
        lemma_trim_start(rest);
        assert forall|i: int| 0 <= i < trim_start(s).len() implies s.contains(
            #[trigger] trim_start(s)[i],
        ) by {
            assert(rest.contains(trim_start(rest)[i]));
            let k = choose|k: int| 0 <= k < rest.len() && rest[k] == trim_start(rest)[i];
            assert(s[k + 1] == trim_start(s)[i]);
        }
    }
}

proof fn lemma_trim_end(s: Seq<char>)
    ensures
        trim_end(s).len() <= s.len(),
        trim_end(s) == s.take(trim_end(s).len() as int),
        trim_end(s).len() > 0 ==> trim_end(s).last() != '-',
    decreases s.len(),
{
    if s.len() > 0 && s.last() == '-' {
        lemma_trim_end(s.drop_last());
        assert(s.drop_last().take(trim_end(s).len() as int) == s.take(trim_end(s).len() as int));
    } else {
        assert(s == s.take(s.len() as int));
    }
}

/// `r` is the stretch of `lower` from `start` to `end` with a dash for each character that is neither
/// letter nor digit, and there is no letter and no digit outside the stretch.
pub open spec fn is_dashed_stretch(
    r: Seq<char>,
    lower: Seq<char>,
    start: int,
    end: int,
) -> bool {
    &&& 0 <= start <= end <= lower.len()
    &&& r.len() == end - start
    &&& forall|i: int|
        start <= i < end ==> r[i - start] == if 'a' <= #[trigger] lower[i] <= 'z' || 'A' <= lower[i]
            <= 'Z' || '0' <= lower[i] <= '9' || (lower[i] as u32 >= 128 && alphanumeric(lower[i])) {
            lower[i]
        } else {
            '-'
        }
    &&& forall|i: int|
        0 <= i < lower.len() && !(start <= i < end) ==> !('a' <= #[trigger] lower[i] <= 'z' || 'A'
            <= lower[i] <= 'Z' || '0' <= lower[i] <= '9' || (lower[i] as u32 >= 128 && alphanumeric(
            lower[i],
        )))
}

/// Every letter and every digit of a name in lowercase stands in its slug, in its place, with a dash
/// for each other character between them and nothing before the first or behind the last of them.
pub proof fn law_slug_keeps_letters_and_digits(lower: &str, r: String)
    requires
        call_ensures(slug_of_lowercase, (lower,), r),
    ensures
        exists|start: int, end: int| #[trigger] is_dashed_stretch(r@, lower@, start, end),
        r@.len() > 0 ==> r@.first() != '-' && r@.last() != '-',
{
    lemma_slug_keeps(lower@);
    lemma_slug_is_a_stretch(lower@);
}

/// The slug of a name is that of the name in lowercase: with ASCII small letters for ASCII capitals
/// where the name is ASCII, and else as the standard library lowercases it.
pub proof fn law_slug_is_that_of_the_lowercase_name(
    name: &str,
    lower: &str,
    r: String,
    of_lower: String,
)
    requires
        call_ensures(slug, (name,), r),
        call_ensures(slug_of_lowercase, (lower,), of_lower),
        if forall|i: int| 0 <= i < name@.len() ==> (#[trigger] name@[i] as u32) < 128 {
            &&& lower@.len() == name@.len()
            &&& forall|i: int|
                0 <= i < name@.len() ==> #[trigger] lower@[i] as int == if 'A' <= name@[i] <= 'Z' {
                    name@[i] as int + 32
                } else {
                    name@[i] as int
                }
        } else {
            lower@ == lowercase(name@)
        },
    ensures
        r@ == of_lower@,
{
    if all_ascii(name@) {
        assert forall|i: int| 0 <= i < name@.len() implies lowered(name@)[i] == #[trigger] lower@[i] by {
            let c = name@[i];
            if is_capital(c) {
                assert(ascii_lower(c) as int == c as int + 32);
            }
        }
        assert(lowered(name@) == lower@);
    }
}

proof fn lemma_slug_is_a_stretch(lower: Seq<char>)
    ensures
        exists|start: int, end: int| #[trigger]
            is_dashed_stretch(slug_of_lowered(lower), lower, start, end),
{
    let marked = dashed(lower);
    let start = lemma_trim_start_is_a_rest(marked);
    let rest = trim_start(marked);
    lemma_trim_end(rest);
    lemma_trim_end_drops_dashes(rest);
    let end = start + trim_end(rest).len();
    let r = trim_end(rest);
    assert forall|i: int| start <= i < end implies r[i - start] == marked[i] by {
        assert(r[i - start] == rest[i - start]);
    }
    assert forall|i: int| 0 <= i < lower.len() && !(start <= i < end) implies #[trigger] marked[i]
        == '-' by {
        if i >= end {
            assert(rest[i - start] == marked[i]);
        }
    }
    assert forall|i: int| 0 <= i < lower.len() implies (marked[i] == if is_word(
        #[trigger] lower[i],
    ) {
        lower[i]
    } else {
        '-'
    }) && (!(start <= i < end) ==> !is_word(lower[i])) by {
        if !(start <= i < end) {
            assert(marked[i] == '-');
        }
    }
    assert(is_dashed_stretch(r, lower, start, end));
    assert(is_dashed_stretch(slug_of_lowered(lower), lower, start, end));
}

proof fn lemma_trim_start_is_a_rest(s: Seq<char>) -> (start: int)
    ensures
        0 <= start <= s.len(),
        trim_start(s) == s.skip(start),
        forall|i: int| 0 <= i < start ==> #[trigger] s[i] == '-',
    decreases s.len(),
{
    if s.len() > 0 && s.first() == '-' {
        let rest = s.drop_first();
        let n = lemma_trim_start_is_a_rest(rest);
        assert(rest.skip(n) == s.skip(n + 1));
        assert forall|i: int| 0 <= i < n + 1 implies #[trigger] s[i] == '-' by {
            if i > 0 {
                assert(rest[i - 1] == '-');
            }
        }
        n + 1
    } else {
        assert(s.skip(0) == s);
        0
    }
}

proof fn lemma_trim_end_drops_dashes(s: Seq<char>)
    ensures
        forall|i: int| trim_end(s).len() <= i < s.len() ==> #[trigger] s[i] == '-',
    decreases s.len(),
{
    if s.len() > 0 && s.last() == '-' {
        let rest = s.drop_last();
        lemma_trim_end_drops_dashes(rest);
        assert forall|i: int| trim_end(s).len() <= i < s.len() implies #[trigger] s[i] == '-' by {
            if i < rest.len() {
                assert(rest[i] == '-');
            }
        }
    }
}

} // verus!
