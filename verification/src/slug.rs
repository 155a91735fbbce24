use vstd::prelude::*;

verus! {

use deunicode::AsciiChars;
use vstd::string::StrSliceExecFns;
use vstd::utf8::is_ascii_chars;
use crate::text::{chars_to_string, str_eq, string_push};

/// The ASCII transliteration of a character sequence, as deunicode computes
/// it: each character becomes its closest ASCII equivalent (possibly several
/// characters, possibly none).
pub uninterp spec fn translit_of(s: Seq<char>) -> Seq<char>;

/// Relies on deunicode's `AsciiChars::ascii_chars` iterator: the
/// transliteration depends on the input characters alone; its output is
/// ASCII; every ASCII character is mapped to itself, so ASCII input passes
/// through unchanged; characters with no known transliteration are dropped.
#[verifier::external_body]
fn transliterate(s: &str) -> (r: String)
    ensures
        r@ == translit_of(s@),
        is_ascii_chars(r@),
        is_ascii_chars(s@) ==> r@ == s@,
{
    s.ascii_chars().flatten().collect()
}

// ---------------------------------------------------------------------------
// Lax slugs.
// ---------------------------------------------------------------------------
/// The characters a lax slug may contain: ASCII letters (either case),
/// digits, plus, dot, underscore and dash.
pub open spec fn lax_keep(c: char) -> bool {
    ||| ('a' <= c && c <= 'z')
    ||| ('A' <= c && c <= 'Z')
    ||| ('0' <= c && c <= '9')
    ||| c == '+'
    ||| c == '.'
    ||| c == '_'
}

/// One character of a lax slug: kept if allowed, a dash otherwise.
pub open spec fn lax_char(c: char) -> char {
    if lax_keep(c) {
        c
    } else {
        '-'
    }
}

/// The lax slug of an (already transliterated) character sequence.
pub open spec fn lax_of(s: Seq<char>) -> Seq<char> {
    Seq::new(s.len(), |i: int| lax_char(s[i]))
}

/// Append one ASCII character to a slug under the lax rules: characters from
/// the allowed set are kept, anything else becomes a dash.
pub fn push_ascii_char(slug: &mut String, x: u8)
    ensures
        final(slug)@ == old(slug)@.push(lax_char(x as char)),
{
    let c: char = if (0x61 <= x && x <= 0x7a) || (0x41 <= x && x <= 0x5a) || (0x30 <= x && x
        <= 0x39) || x == 0x2b || x == 0x2e || x == 0x5f {
        x as char
    } else {
        '-'
    };
    string_push(slug, c);
}

/// Convert any text to a lax slug: the text is transliterated to ASCII, and
/// every character outside the allowed set is replaced with a single dash.
pub fn lax_slugify(s: &str) -> (r: String)
    ensures
        r@ == lax_of(translit_of(s@)),
{
    let t = transliterate(s);
    let ts = t.as_str();
    let n = ts.unicode_len();
    let mut slug = String::new();
    let mut i: usize = 0;
    while i < n
        invariant
            0 <= i <= t@.len(),
            n == t@.len(),
            ts@ == t@,
            is_ascii_chars(t@),
            slug@ =~= lax_of(t@).subrange(0, i as int),
        decreases t@.len() - i,
    {
        let b = ts.get_ascii(i);
        proof {
            assert(t@[i as int] <= '\u{7f}');
            assert((b as char) == t@[i as int]);
        }
        push_ascii_char(&mut slug, b);
        proof {
            assert(slug@ =~= lax_of(t@).subrange(0, i as int + 1));
        }
        i = i + 1;
    }
    proof {
        assert(lax_of(t@).subrange(0, n as int) =~= lax_of(t@));
    }
    slug
}

/// A laxer slug generated from arbitrary text: any combination of ASCII
/// letters, digits, `+`, `.`, `_` and `-`.
#[derive(Clone, Debug)]
pub struct LaxSlug {
    inner: String,
}

impl View for LaxSlug {
    type V = Seq<char>;

    closed spec fn view(&self) -> Seq<char> {
        self.inner@
    }
}

impl LaxSlug {
    /// Slugifies the input and creates a new slug.
    pub fn new(input: &str) -> (r: LaxSlug)
        ensures
            r@ == lax_of(translit_of(input@)),
    {
        LaxSlug { inner: lax_slugify(input) }
    }

    /// Creates a new slug without first slugifying the input. The caller is
    /// responsible for handing in text that `validate` accepts.
    pub fn new_unchecked(input: &str) -> (r: LaxSlug)
        ensures
            r@ == input@,
    {
        LaxSlug { inner: input.to_owned() }
    }

    /// Validates that a string slice is already slugified.
    pub fn validate(input: &str) -> (r: bool)
        ensures
            r == (lax_of(translit_of(input@)) == input@),
    {
        let slug = lax_slugify(input);
        str_eq(slug.as_str(), input)
    }

    /// Returns a reference to the slug contents.
    pub fn as_str(&self) -> (r: &str)
        ensures
            r@ == self@,
    {
        self.inner.as_str()
    }
}

impl PartialEq for LaxSlug {
    fn eq(&self, other: &LaxSlug) -> (r: bool) {
        str_eq(self.inner.as_str(), other.inner.as_str())
    }
}

impl Eq for LaxSlug {

}

impl vstd::std_specs::cmp::PartialEqSpecImpl for LaxSlug {
    open spec fn obeys_eq_spec() -> bool {
        true
    }

    open spec fn eq_spec(&self, other: &LaxSlug) -> bool {
        self@ == other@
    }
}

// ---------------------------------------------------------------------------
// Strict slugs.
// ---------------------------------------------------------------------------
/// An ASCII uppercase letter lowered; anything else kept.
pub open spec fn strict_lower(c: char) -> char {
    if 'A' <= c && c <= 'Z' {
        (((c as u8) + 32) as char)
    } else {
        c
    }
}

/// The characters a strict slug keeps: ASCII lowercase letters and digits
/// (uppercase input is kept in lowered form).
pub open spec fn strict_keep(c: char) -> bool {
    ('a' <= c && c <= 'z') || ('0' <= c && c <= '9')
}

/// The strict fold over an (already transliterated) sequence: kept
/// characters are appended in lowercase; any run of other characters becomes
/// a single dash, and no dash is emitted at the start.
pub open spec fn strict_fold(s: Seq<char>, acc: Seq<char>) -> Seq<char>
    decreases s.len(),
{
    if s.len() == 0 {
        acc
    } else {
        let c = strict_lower(s[0]);
        let acc2 = if strict_keep(c) {
            acc.push(c)
        } else if acc.len() > 0 && acc.last() != '-' {
            acc.push('-')
        } else {
            acc
        };
        strict_fold(s.drop_first(), acc2)
    }
}

/// The strict slug of an (already transliterated) sequence: the fold, with a
/// trailing dash removed.
pub open spec fn strict_of(s: Seq<char>) -> Seq<char> {
    let f = strict_fold(s, Seq::empty());
    if f.len() > 0 && f.last() == '-' {
        f.drop_last()
    } else {
        f
    }
}

/// Convert any text to a strict slug: transliterate to ASCII, lowercase,
/// replace every run of other characters with one dash, and drop leading and
/// trailing dashes.
pub fn strict_slugify(s: &str) -> (r: String)
    ensures
        r@ == strict_of(translit_of(s@)),
{
    let t = transliterate(s);
    let ts = t.as_str();
    let n = ts.unicode_len();
    let mut acc: Vec<char> = Vec::new();
    let mut i: usize = 0;
    proof {
        assert(t@.skip(0) =~= t@);
    }
    while i < n
        invariant
            0 <= i <= t@.len(),
            n == t@.len(),
            ts@ == t@,
            is_ascii_chars(t@),
            strict_fold(t@, Seq::empty()) == strict_fold(t@.skip(i as int), acc@),
        decreases t@.len() - i,
    {
        let b = ts.get_ascii(i);
        proof {
            assert(t@[i as int] <= '\u{7f}');
            assert((b as char) == t@[i as int]);
            assert(t@.skip(i as int)[0] == t@[i as int]);
            assert(t@.skip(i as int).drop_first() =~= t@.skip(i as int + 1));
        }
        let c: char = if 0x41 <= b && b <= 0x5a {
            ((b + 32) as char)
        } else {
            (b as char)
        };
        proof {
            assert(c == strict_lower(t@[i as int]));
        }
        if ('a' <= c && c <= 'z') || ('0' <= c && c <= '9') {
            acc.push(c);
        } else {
            if acc.len() > 0 && acc[acc.len() - 1] != '-' {
                acc.push('-');
            }
        }
        i = i + 1;
    }
    proof {
        assert(t@.skip(n as int) =~= Seq::<char>::empty());
    }
    if acc.len() > 0 && acc[acc.len() - 1] == '-' {
        let _ = acc.pop();
    }
    chars_to_string(&acc)
}

/// A URL-safe slug generated from arbitrary text: lowercase ASCII letters
/// and digits, with single dashes between words and none at either end.
#[derive(Clone, Debug)]
pub struct Slug {
    inner: String,
}

impl View for Slug {
    type V = Seq<char>;

    closed spec fn view(&self) -> Seq<char> {
        self.inner@
    }
}

impl Slug {
    /// Slugifies the input and creates a new slug.
    pub fn new(input: &str) -> (r: Slug)
        ensures
            r@ == strict_of(translit_of(input@)),
    {
        Slug { inner: strict_slugify(input) }
    }

    /// Creates a new slug without first slugifying the input. The caller is
    /// responsible for handing in text that `validate` accepts.
    pub fn new_unchecked(input: &str) -> (r: Slug)
        ensures
            r@ == input@,
    {
        Slug { inner: input.to_owned() }
    }

    /// Validates that a string slice is already slugified.
    pub fn validate(input: &str) -> (r: bool)
        ensures
            r == (strict_of(translit_of(input@)) == input@),
    {
        let slug = strict_slugify(input);
        str_eq(slug.as_str(), input)
    }

    /// Returns a reference to the slug contents.
    pub fn as_str(&self) -> (r: &str)
        ensures
            r@ == self@,
    {
        self.inner.as_str()
    }
}

impl PartialEq for Slug {
    fn eq(&self, other: &Slug) -> (r: bool) {
        str_eq(self.inner.as_str(), other.inner.as_str())
    }
}

impl Eq for Slug {

}

impl vstd::std_specs::cmp::PartialEqSpecImpl for Slug {
    open spec fn obeys_eq_spec() -> bool {
        true
    }

    open spec fn eq_spec(&self, other: &Slug) -> bool {
        self@ == other@
    }
}

} // verus!
