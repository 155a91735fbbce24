use vstd::prelude::*;

verus! {

use vstd::string::StrSliceExecFns;

/// Relies on `String::push`: appends one character to the end of the string.
#[verifier::external_body]
pub(crate) fn string_push(s: &mut String, c: char)
    ensures
        final(s)@ == old(s)@.push(c),
{
    s.push(c);
}

/// Relies on `str`'s `PartialEq`: two string slices are equal exactly when
/// their character sequences are equal.
#[verifier::external_body]
pub(crate) fn str_eq(a: &str, b: &str) -> (r: bool)
    ensures
        r == (a@ == b@),
{
    a == b
}

/// Build a `String` out of a vector of characters.
pub(crate) fn chars_to_string(v: &Vec<char>) -> (r: String)
    ensures
        r@ == v@,
{
    let mut out = String::new();
    let mut i: usize = 0;
    while i < v.len()
        invariant
            0 <= i <= v@.len(),
            out@ == v@.subrange(0, i as int),
        decreases v@.len() - i,
    {
        string_push(&mut out, v[i]);
        proof {
            assert(v@.subrange(0, i as int + 1) =~= v@.subrange(0, i as int).push(v@[i as int]));
        }
        i = i + 1;
    }
    proof {
        assert(v@.subrange(0, v@.len() as int) =~= v@);
    }
    out
}

/// An ASCII lowercase letter turned into its uppercase form; any other
/// character is left alone.
pub open spec fn ascii_upper(c: char) -> char {
    if 'a' <= c && c <= 'z' {
        ((c as u8) - 32) as char
    } else {
        c
    }
}

/// The pascal-case text of `s` read from position 0 onwards: underscores are
/// dropped, and the character after each run of underscores (as well as the
/// very first character) is uppercased.
pub open spec fn pascal_rec(s: Seq<char>, at_start: bool) -> Seq<char>
    decreases s.len(),
{
    if s.len() == 0 {
        Seq::empty()
    } else if s[0] == '_' {
        pascal_rec(s.drop_first(), true)
    } else if at_start {
        seq![ascii_upper(s[0])] + pascal_rec(s.drop_first(), false)
    } else {
        seq![s[0]] + pascal_rec(s.drop_first(), false)
    }
}

/// The pascal-case form of a snake-case name.
pub open spec fn pascal_of(s: Seq<char>) -> Seq<char> {
    pascal_rec(s, true)
}

/// Convert a snake-case name (such as an index name) to the pascal-case
/// spelling used for its selector: underscores are dropped and each word's
/// first ASCII letter is uppercased.
pub fn to_pascal_case(s: &str) -> (r: String)
    ensures
        r@ == pascal_of(s@),
{
    let mut out: Vec<char> = Vec::new();
    let mut at_start: bool = true;
    let n = s.unicode_len();
    let mut i: usize = 0;
    proof {
        assert(s@.skip(0) =~= s@);
        assert(Seq::<char>::empty() + pascal_rec(s@, true) =~= pascal_rec(s@, true));
    }
    while i < n
        invariant
            0 <= i <= s@.len(),
            n == s@.len(),
            pascal_of(s@) == out@ + pascal_rec(s@.skip(i as int), at_start),
        decreases s@.len() - i,
    {
        let c = s.get_char(i);
        proof {
            assert(s@.skip(i as int)[0] == s@[i as int]);
            assert(s@.skip(i as int).drop_first() =~= s@.skip(i as int + 1));
        }
        if c == '_' {
            at_start = true;
        } else if at_start {
            let u: char = if 'a' <= c && c <= 'z' {
                (((c as u8) - 32) as char)
            } else {
                c
            };
            proof {
                assert(u == ascii_upper(s@[i as int]));
                assert(out@.push(u) + pascal_rec(s@.skip(i as int + 1), false) =~= out@ + (seq![u]
                    + pascal_rec(s@.skip(i as int + 1), false)));
            }
            out.push(u);
            at_start = false;
        } else {
            proof {
                assert(out@.push(c) + pascal_rec(s@.skip(i as int + 1), false) =~= out@ + (seq![c]
                    + pascal_rec(s@.skip(i as int + 1), false)));
            }
            out.push(c);
            at_start = false;
        }
        i = i + 1;
    }
    proof {
        assert(s@.skip(s@.len() as int) =~= Seq::<char>::empty());
        assert(out@ + Seq::<char>::empty() =~= out@);
    }
    chars_to_string(&out)
}

} // verus!
