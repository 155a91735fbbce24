use vstd::prelude::*;

verus! {

use vstd::string::StrSliceExecFns;
use crate::text::chars_to_string;

/// The delimiter that joins the segments of a composite key. Sanitization at
/// construction time guarantees it cannot appear inside any segment, which
/// makes the joined string an unambiguous, order-sensitive encoding.
pub open spec fn key_delimiter() -> char {
    ':'
}

/// A character as it appears after sanitization: the delimiter is replaced
/// with a dash, everything else is kept.
pub open spec fn sanitize_char(c: char) -> char {
    if c == key_delimiter() {
        '-'
    } else {
        c
    }
}

/// A whole segment after sanitization.
pub open spec fn sanitize_of(s: Seq<char>) -> Seq<char> {
    Seq::new(s.len(), |i: int| sanitize_char(s[i]))
}

/// True when a segment is free of the delimiter character.
pub open spec fn segment_ok(s: Seq<char>) -> bool {
    forall|i: int| 0 <= i < s.len() ==> s[i] != key_delimiter()
}

/// The canonical encoded form of a sequence of segments: the segments joined
/// by the delimiter.
pub open spec fn encode_of(v: Seq<Seq<char>>) -> Seq<char>
    decreases v.len(),
{
    if v.len() == 0 {
        Seq::empty()
    } else if v.len() == 1 {
        v[0]
    } else {
        v[0] + seq![key_delimiter()] + encode_of(v.drop_first())
    }
}

/// An index value: an ordered, non-empty sequence of string segments,
/// extracted from a model instance by an index definition. Two index values
/// are equal exactly when their segment sequences are equal element-wise and
/// in the same order.
#[derive(Debug)]
pub struct IndexValue {
    segments: Vec<String>,
}

impl View for IndexValue {
    type V = Seq<Seq<char>>;

    closed spec fn view(&self) -> Seq<Seq<char>> {
        self.segments.deep_view()
    }
}

impl IndexValue {
    /// Well-formedness: at least one segment, and no segment contains the
    /// delimiter. Constructors establish this by sanitizing their input.
    pub open spec fn wf(&self) -> bool {
        &&& self@.len() > 0
        &&& forall|i: int| 0 <= i < self@.len() ==> segment_ok(#[trigger] self@[i])
    }

    /// Creates a new index value from a non-empty list of segments,
    /// sanitizing each segment.
    pub fn new(input: Vec<String>) -> (r: IndexValue)
        requires
            input@.len() > 0,
        ensures
            r@.len() == input@.len(),
            forall|i: int| 0 <= i < input@.len() ==> r@[i] == sanitize_of(
                #[trigger] input@[i]@,
            ),
            r.wf(),
    {
        let mut segments: Vec<String> = Vec::new();
        let mut i: usize = 0;
        while i < input.len()
            invariant
                0 <= i <= input@.len(),
                segments@.len() == i,
                forall|j: int| 0 <= j < i ==> segments@[j]@ == sanitize_of(
                    #[trigger] input@[j]@,
                ),
            decreases input@.len() - i,
        {
            segments.push(sanitize_segment(input[i].as_str()));
            i = i + 1;
        }
        let r = IndexValue { segments };
        proof {
            assert forall|k: int| 0 <= k < r@.len() implies segment_ok(#[trigger] r@[k]) by {
                assert(r@[k] == sanitize_of(input@[k]@));
                lemma_sanitize_segment_ok(input@[k]@);
            }
        }
        r
    }

    /// Creates a new index value from a single segment, sanitizing it.
    pub fn new_single(input: &str) -> (r: IndexValue)
        ensures
            r@ =~= seq![sanitize_of(input@)],
            r.wf(),
    {
        let mut segments: Vec<String> = Vec::new();
        segments.push(sanitize_segment(input));
        let r = IndexValue { segments };
        proof {
            lemma_sanitize_segment_ok(input@);
            assert(r@ =~= seq![sanitize_of(input@)]);
        }
        r
    }

    /// The segments of this index value.
    pub fn segments(&self) -> (r: &Vec<String>)
        ensures
            r.deep_view() == self@,
    {
        &self.segments
    }

    /// The canonical composite-key form: the segments joined with the
    /// delimiter. On well-formed index values this encoding is injective
    /// (see [`lemma_encode_injective`]).
    pub fn encode(&self) -> (r: String)
        ensures
            r@ == encode_of(self@),
    {
        let mut out: Vec<char> = Vec::new();
        let mut i: usize = 0;
        proof {
            assert(self@.skip(0) =~= self@);
            assert(Seq::<char>::empty() + encode_of(self@) =~= encode_of(self@));
        }
        while i < self.segments.len()
            invariant
                0 <= i <= self@.len(),
                self@.len() == self.segments@.len(),
                encode_of(self@) == out@ + encode_of(self@.skip(i as int)),
            decreases self@.len() - i,
        {
            proof {
                lemma_encode_unfold(self@, i as int);
                assert(out@ + (self@[i as int] + tail_encode(self@, i as int)) =~= (out@
                    + self@[i as int]) + tail_encode(self@, i as int));
            }
            let seg: &String = &self.segments[i];
            let ghost base = out@;
            proof {
                assert(base + seg@.subrange(0, 0) =~= base);
            }
            let m = seg.as_str().unicode_len();
            let mut j: usize = 0;
            while j < m
                invariant
                    0 <= j <= seg@.len(),
                    m == seg@.len(),
                    seg@ == self@[i as int],
                    0 <= i < self@.len(),
                    self@.len() == self.segments@.len(),
                    out@ == base + seg@.subrange(0, j as int),
                    encode_of(self@) == (base + seg@) + tail_encode(self@, i as int),
                decreases seg@.len() - j,
            {
                out.push(seg.as_str().get_char(j));
                proof {
                    assert(out@ =~= base + seg@.subrange(0, j as int + 1));
                }
                j = j + 1;
            }
            proof {
                assert(seg@.subrange(0, seg@.len() as int) =~= seg@);
                assert(out@ == base + seg@);
            }
            if i + 1 < self.segments.len() {
                proof {
                    assert((base + seg@) + tail_encode(self@, i as int) =~= ((base + seg@) + seq![
                        key_delimiter(),
                    ]) + encode_of(self@.skip(i as int + 1)));
                    assert(out@.push(key_delimiter()) =~= (base + seg@) + seq![key_delimiter()]);
                }
                out.push(':');
            } else {
                proof {
                    assert(tail_encode(self@, i as int) =~= Seq::<char>::empty());
                    assert((base + seg@) + Seq::<char>::empty() =~= base + seg@);
                    assert(self@.skip(i as int + 1) =~= Seq::<Seq<char>>::empty());
                    assert((base + seg@) + encode_of(self@.skip(i as int + 1)) =~= base + seg@);
                }
            }
            i = i + 1;
        }
        proof {
            assert(self@.skip(self@.len() as int) =~= Seq::<Seq<char>>::empty());
            assert(out@ + encode_of(Seq::<Seq<char>>::empty()) =~= out@);
        }
        chars_to_string(&out)
    }
}

/// The encoding of everything after segment `i` of `v`, including the
/// delimiter that precedes it (empty when `i` is the last segment).
pub open spec fn tail_encode(v: Seq<Seq<char>>, i: int) -> Seq<char> {
    if i + 1 < v.len() {
        seq![key_delimiter()] + encode_of(v.skip(i + 1))
    } else {
        Seq::empty()
    }
}

/// Unfolding fact: the encoding of the suffix starting at segment `i` is the
/// segment itself followed by its tail encoding.
proof fn lemma_encode_unfold(v: Seq<Seq<char>>, i: int)
    requires
        0 <= i < v.len(),
    ensures
        encode_of(v.skip(i)) == v[i] + tail_encode(v, i),
{
    let s = v.skip(i);
    if i + 1 < v.len() {
        assert(s.len() > 1);
        assert(s[0] == v[i]);
        assert(s.drop_first() =~= v.skip(i + 1));
        assert(encode_of(s) == s[0] + seq![key_delimiter()] + encode_of(s.drop_first()));
        assert(v[i] + seq![key_delimiter()] + encode_of(v.skip(i + 1)) =~= v[i] + (seq![
            key_delimiter(),
        ] + encode_of(v.skip(i + 1))));
    } else {
        assert(s.len() == 1);
        assert(s[0] == v[i]);
        assert(v[i] + Seq::<char>::empty() =~= v[i]);
    }
}

/// Sanitize one segment: every occurrence of the delimiter is replaced with
/// a dash.
pub fn sanitize_segment(input: &str) -> (r: String)
    ensures
        r@ == sanitize_of(input@),
{
    let mut out: Vec<char> = Vec::new();
    let n = input.unicode_len();
    let mut i: usize = 0;
    while i < n
        invariant
            0 <= i <= input@.len(),
            n == input@.len(),
            out@ =~= sanitize_of(input@).subrange(0, i as int),
        decreases input@.len() - i,
    {
        let c = input.get_char(i);
        if c == ':' {
            out.push('-');
        } else {
            out.push(c);
        }
        proof {
            assert(out@ =~= sanitize_of(input@).subrange(0, i as int + 1));
        }
        i = i + 1;
    }
    proof {
        assert(sanitize_of(input@).subrange(0, n as int) =~= sanitize_of(input@));
    }
    chars_to_string(&out)
}

/// Sanitized segments never contain the delimiter.
pub proof fn lemma_sanitize_segment_ok(s: Seq<char>)
    ensures
        segment_ok(sanitize_of(s)),
{
    assert forall|j: int| 0 <= j < sanitize_of(s).len() implies sanitize_of(s)[j]
        != key_delimiter() by {
        assert(sanitize_of(s)[j] == sanitize_char(s[j]));
    }
}

impl PartialEq for IndexValue {
    /// Two index values are equal exactly when their segment sequences are
    /// equal element-wise and in the same order.
    fn eq(&self, other: &IndexValue) -> (r: bool) {
        if self.segments.len() != other.segments.len() {
            return false;
        }
        let mut i: usize = 0;
        while i < self.segments.len()
            invariant
                0 <= i <= self@.len(),
                self@.len() == self.segments@.len(),
                other@.len() == other.segments@.len(),
                self@.len() == other@.len(),
                forall|j: int| 0 <= j < i ==> self@[j] == other@[j],
            decreases self@.len() - i,
        {
            if !self.segments[i].eq(&other.segments[i]) {
                proof {
                    assert(self@[i as int] != other@[i as int]);
                }
                return false;
            }
            i = i + 1;
        }
        proof {
            assert(self@ =~= other@);
        }
        true
    }
}

impl Eq for IndexValue {

}

impl vstd::std_specs::cmp::PartialEqSpecImpl for IndexValue {
    open spec fn obeys_eq_spec() -> bool {
        true
    }

    open spec fn eq_spec(&self, other: &IndexValue) -> bool {
        self@ == other@
    }
}

/// On well-formed index values the canonical encoding is injective: equal
/// encodings mean equal segment sequences. This is what makes the joined
/// string an unambiguous, order-sensitive form of the composite key.
pub proof fn lemma_encode_injective(a: Seq<Seq<char>>, b: Seq<Seq<char>>)
    requires
        a.len() > 0,
        b.len() > 0,
        forall|i: int| 0 <= i < a.len() ==> segment_ok(#[trigger] a[i]),
        forall|i: int| 0 <= i < b.len() ==> segment_ok(#[trigger] b[i]),
        encode_of(a) == encode_of(b),
    ensures
        a == b,
    decreases a.len(),
{
    if a.len() == 1 && b.len() == 1 {
        assert(a[0] == b[0]);
        assert(a =~= b);
    } else if a.len() == 1 {
        // encode_of(b) has a delimiter at position b[0].len(), but
        // encode_of(a) is a single delimiter-free segment.
        assert(encode_of(b) == b[0] + seq![key_delimiter()] + encode_of(b.drop_first()));
        assert(encode_of(b)[b[0].len() as int] == key_delimiter());
        assert(a[0][b[0].len() as int] == key_delimiter());
        assert(false);
    } else if b.len() == 1 {
        assert(encode_of(a) == a[0] + seq![key_delimiter()] + encode_of(a.drop_first()));
        assert(encode_of(a)[a[0].len() as int] == key_delimiter());
        assert(b[0][a[0].len() as int] == key_delimiter());
        assert(false);
    } else {
        let ea = encode_of(a.drop_first());
        let eb = encode_of(b.drop_first());
        assert(encode_of(a) == a[0] + seq![key_delimiter()] + ea);
        assert(encode_of(b) == b[0] + seq![key_delimiter()] + eb);
        // The two head segments must have the same length: otherwise the
        // shorter one's terminating delimiter would sit inside the longer,
        // delimiter-free head segment.
        if a[0].len() < b[0].len() {
            assert(encode_of(a)[a[0].len() as int] == key_delimiter());
            assert(b[0][a[0].len() as int] == key_delimiter());
            assert(false);
        }
        if b[0].len() < a[0].len() {
            assert(encode_of(b)[b[0].len() as int] == key_delimiter());
            assert(a[0][b[0].len() as int] == key_delimiter());
            assert(false);
        }
        assert(a[0].len() == b[0].len());
        assert forall|i: int| 0 <= i < a[0].len() implies a[0][i] == b[0][i] by {
            assert(encode_of(a)[i] == a[0][i]);
            assert(encode_of(b)[i] == b[0][i]);
        }
        assert(a[0] =~= b[0]);
        let off = a[0].len() + 1;
        assert(ea.len() == eb.len());
        assert forall|i: int| 0 <= i < ea.len() implies ea[i] == eb[i] by {
            assert(encode_of(a)[i + off] == ea[i]);
            assert(encode_of(b)[i + off] == eb[i]);
        }
        assert(ea =~= eb);
        assert(forall|i: int| 0 <= i < a.drop_first().len() ==> segment_ok(
            #[trigger] a.drop_first()[i],
        ));
        assert(forall|i: int| 0 <= i < b.drop_first().len() ==> segment_ok(
            #[trigger] b.drop_first()[i],
        ));
        lemma_encode_injective(a.drop_first(), b.drop_first());
        assert(a =~= b) by {
            assert(forall|i: int| 1 <= i < a.len() ==> a[i] == a.drop_first()[i - 1] && b[i]
                == b.drop_first()[i - 1]);
        }
    }
}

} // verus!
