use vstd::prelude::*;
use vstd::string::StringSliceAdditionalSpecFns;
use vstd::utf8::{decode_utf8, encode_utf8, is_char_boundary, valid_utf8};

verus! {

broadcast use {
    vstd::utf8::encode_utf8_decode_utf8,
    vstd::utf8::encode_utf8_valid_utf8,
    vstd::utf8::decode_utf8_encode_utf8,
};

// ---------------------------------------------------------------------------
// Character classes, named after the standard library's definitions.
// ---------------------------------------------------------------------------

/// What `char::is_alphanumeric` answers for a character (Unicode Alphabetic or Numeric).
pub uninterp spec fn is_alnum(c: char) -> bool;

/// What `char::is_uppercase` answers for a character (Unicode Uppercase property).
pub uninterp spec fn is_upper(c: char) -> bool;

/// What `char::is_lowercase` answers for a character (Unicode Lowercase property).
pub uninterp spec fn is_lower(c: char) -> bool;

/// What `char::is_whitespace` answers for a character (Unicode White_Space property).
pub uninterp spec fn is_space(c: char) -> bool;

/// The characters that `char::to_lowercase` yields for a character.
pub uninterp spec fn lower_of(c: char) -> Seq<char>;

/// What `str::to_lowercase` returns for a string.
pub uninterp spec fn str_lower(s: Seq<char>) -> Seq<char>;

/// Calls `char::is_alphanumeric`; the result is named `is_alnum`.
#[verifier::external_body]
pub(crate) fn char_is_alphanumeric(c: char) -> (r: bool)
    ensures
        r == is_alnum(c),
{
    c.is_alphanumeric()
}

/// Calls `char::is_uppercase`; the result is named `is_upper`.
#[verifier::external_body]
pub(crate) fn char_is_uppercase(c: char) -> (r: bool)
    ensures
        r == is_upper(c),
{
    c.is_uppercase()
}

/// Calls `char::is_lowercase`; the result is named `is_lower`.
#[verifier::external_body]
pub(crate) fn char_is_lowercase(c: char) -> (r: bool)
    ensures
        r == is_lower(c),
{
    c.is_lowercase()
}

/// Calls `char::is_whitespace`; the result is named `is_space`.
#[verifier::external_body]
pub(crate) fn char_is_whitespace(c: char) -> (r: bool)
    ensures
        r == is_space(c),
{
    c.is_whitespace()
}

/// Calls `char::to_lowercase` and collects the characters it yields; named `lower_of`.
#[verifier::external_body]
pub(crate) fn char_to_lowercase(c: char) -> (r: Vec<char>)
    ensures
        r@ == lower_of(c),
{
    c.to_lowercase().collect()
}

/// Calls `str::to_lowercase`; the result is named `str_lower`.
#[verifier::external_body]
pub(crate) fn string_to_lowercase(s: &str) -> (r: String)
    ensures
        r@ == str_lower(s@),
{
    s.to_lowercase()
}

/// Calls `String::push`, which appends one character to the end of the string.
#[verifier::external_body]
pub(crate) fn push_char(s: &mut String, c: char)
    ensures
        final(s)@ == old(s)@.push(c),
{
    s.push(c)
}

// ---------------------------------------------------------------------------
// Plain string helpers, proved here.
// ---------------------------------------------------------------------------

/// Whether two strings hold the same characters; compared by their UTF-8 bytes.
pub fn str_eq(a: &str, b: &str) -> (res: bool)
    ensures
        res == (a@ == b@),
{
    let ab = a.as_bytes();
    let bb = b.as_bytes();
    if ab.len() != bb.len() {
        return false;
    }
    let mut i: usize = 0;
    while i < ab.len()
        invariant
            ab@ == a.spec_bytes(),
            bb@ == b.spec_bytes(),
            ab@.len() == bb@.len(),
            0 <= i <= ab@.len(),
            forall|j: int| 0 <= j < i ==> ab@[j] == bb@[j],
        decreases ab@.len() - i,
    {
        if ab[i] != bb[i] {
            return false;
        }
        i = i + 1;
    }
    assert(ab@ =~= bb@);
    assert(a@ == decode_utf8(a.spec_bytes()));
    true
}

/// The characters of a string, in order.
pub fn to_chars(s: &str) -> (v: Vec<char>)
    ensures
        v@ == s@,
{
    let mut v: Vec<char> = Vec::new();
    for c in it: s.chars()
        invariant
            v@ == it.seq().take(it.index()),
    {
        v.push(c);
    }
    proof {
        broadcast use vstd::string::axiom_spec_iter;
    }
    v
}

/// A string holding the given characters.
pub fn string_of_chars(v: &Vec<char>) -> (s: String)
    ensures
        s@ == v@,
{
    let mut s = String::new();
    let mut i: usize = 0;
    while i < v.len()
        invariant
            0 <= i <= v@.len(),
            s@ == v@.take(i as int),
        decreases v@.len() - i,
    {
        push_char(&mut s, v[i]);
        assert(v@.take(i + 1) =~= v@.take(i as int).push(v@[i as int]));
        i = i + 1;
    }
    assert(v@.take(v@.len() as int) =~= v@);
    s
}

/// `needle` occurs as a contiguous run of characters in `hay`.
pub open spec fn has_sub(hay: Seq<char>, needle: Seq<char>) -> bool {
    exists|i: int| 0 <= i <= hay.len() - needle.len() && #[trigger] hay.subrange(i, i + needle.len()) == needle
}

/// Whether `needle` occurs in `hay` at position `i`.
fn occurs_at(hay: &Vec<char>, needle: &Vec<char>, i: usize) -> (res: bool)
    requires
        i + needle@.len() <= hay@.len(),
    ensures
        res == (hay@.subrange(i as int, i + needle@.len()) == needle@),
{
    let mut k: usize = 0;
    while k < needle.len()
        invariant
            i + needle@.len() <= hay.len(),
            0 <= k <= needle@.len(),
            forall|j: int| 0 <= j < k ==> hay@[i + j] == needle@[j],
        decreases needle@.len() - k,
    {
        if hay[i + k] != needle[k] {
            assert(hay@.subrange(i as int, i + needle@.len())[k as int] != needle@[k as int]);
            return false;
        }
        k = k + 1;
    }
    assert(hay@.subrange(i as int, i + needle@.len()) =~= needle@);
    true
}

/// Whether `needle` occurs as a contiguous run in `hay` (what `str::contains` answers).
pub fn contains_chars(hay: &Vec<char>, needle: &Vec<char>) -> (res: bool)
    ensures
        res == has_sub(hay@, needle@),
{
    if needle.len() > hay.len() {
        return false;
    }
    let last = hay.len() - needle.len();
    let mut i: usize = 0;
    while i < last
        invariant
            last == hay@.len() - needle@.len(),
            0 <= i <= last,
            forall|j: int| 0 <= j < i ==> #[trigger] hay@.subrange(j, j + needle@.len()) != needle@,
        decreases last - i,
    {
        if occurs_at(hay, needle, i) {
            return true;
        }
        i = i + 1;
    }
    occurs_at(hay, needle, last)
}

/// Whether `needle` occurs in `hay`, both given as strings.
pub fn str_contains(hay: &str, needle: &str) -> (res: bool)
    ensures
        res == has_sub(hay@, needle@),
{
    let h = to_chars(hay);
    let n = to_chars(needle);
    contains_chars(&h, &n)
}

/// At most the first `n` characters of a string (what `chars().take(n).collect()` gives).
pub fn take_chars(s: &str, n: usize) -> (res: String)
    ensures
        res@ == (if s@.len() <= n { s@ } else { s@.take(n as int) }),
{
    let cs = to_chars(s);
    let mut out = String::new();
    let mut i: usize = 0;
    while i < cs.len() && i < n
        invariant
            cs@ == s@,
            0 <= i <= cs@.len(),
            i <= n,
            out@ == cs@.take(i as int),
        decreases cs@.len() - i,
    {
        push_char(&mut out, cs[i]);
        assert(cs@.take(i + 1) =~= cs@.take(i as int).push(cs@[i as int]));
        i = i + 1;
    }
    assert(s@.len() <= n ==> cs@.take(i as int) =~= s@);
    out
}

/// Every occurrence of `from` in `s` replaced by `to`.
pub open spec fn replace_char(s: Seq<char>, from: char, to: char) -> Seq<char> {
    s.map_values(|c: char| if c == from { to } else { c })
}

/// A copy of `s` in which each `from` character is `to` (what `str::replace` with
/// single characters gives).
pub fn replace_chars(s: &str, from: char, to: char) -> (res: String)
    ensures
        res@ == replace_char(s@, from, to),
{
    let cs = to_chars(s);
    let mut out = String::new();
    let mut i: usize = 0;
    while i < cs.len()
        invariant
            cs@ == s@,
            0 <= i <= cs@.len(),
            out@ == replace_char(cs@.take(i as int), from, to),
        decreases cs@.len() - i,
    {
        let c = cs[i];
        push_char(&mut out, if c == from { to } else { c });
        assert(replace_char(cs@.take(i + 1), from, to) =~= replace_char(cs@.take(i as int), from, to).push(
            if c == from { to } else { c },
        ));
        i = i + 1;
    }
    assert(cs@.take(cs@.len() as int) =~= cs@);
    out
}

// ---------------------------------------------------------------------------
// Decimal numerals.
// ---------------------------------------------------------------------------

/// The character of a decimal digit.
pub open spec fn digit_char(d: nat) -> char {
    ((d + 48) as u8) as char
}

/// The decimal numeral of a natural number, without leading zeros.
pub open spec fn decimal(n: nat) -> Seq<char>
    decreases n,
{
    if n < 10 {
        seq![digit_char(n)]
    } else {
        decimal(n / 10).push(digit_char(n % 10))
    }
}

/// The decimal numeral of `n` (what `n.to_string()` gives).
pub fn decimal_string(n: usize) -> (res: String)
    ensures
        res@ == decimal(n as nat),
    decreases n,
{
    let d = (n % 10) as u8;
    let c = (d + 48) as char;
    if n < 10 {
        let mut s = String::new();
        push_char(&mut s, c);
        assert(s@ =~= seq![digit_char(n as nat)]);
        s
    } else {
        let mut s = decimal_string(n / 10);
        push_char(&mut s, c);
        s
    }
}

// ---------------------------------------------------------------------------
// Byte-wise order of strings (the order of `String`'s `Ord`).
// ---------------------------------------------------------------------------

/// Lexicographic order of byte sequences.
pub open spec fn bytes_lt(x: Seq<u8>, y: Seq<u8>) -> bool
    decreases x.len(),
{
    if x.len() == 0 {
        y.len() > 0
    } else if y.len() == 0 {
        false
    } else if x[0] != y[0] {
        x[0] < y[0]
    } else {
        bytes_lt(x.drop_first(), y.drop_first())
    }
}

/// The order in which `String` sorts: byte-wise on the UTF-8 encodings.
pub open spec fn str_lt(a: Seq<char>, b: Seq<char>) -> bool {
    bytes_lt(encode_utf8(a), encode_utf8(b))
}

/// The byte order is irreflexive.
pub proof fn lemma_bytes_lt_irreflexive(x: Seq<u8>)
    ensures
        !bytes_lt(x, x),
    decreases x.len(),
{
    if x.len() > 0 {
        lemma_bytes_lt_irreflexive(x.drop_first());
    }
}

/// The byte order is transitive.
pub proof fn lemma_bytes_lt_transitive(x: Seq<u8>, y: Seq<u8>, z: Seq<u8>)
    requires
        bytes_lt(x, y),
        bytes_lt(y, z),
    ensures
        bytes_lt(x, z),
    decreases x.len(),
{
    if x.len() > 0 && y.len() > 0 && z.len() > 0 && x[0] == y[0] && y[0] == z[0] {
        lemma_bytes_lt_transitive(x.drop_first(), y.drop_first(), z.drop_first());
    }
}

/// Two distinct byte sequences are ordered one way or the other.
pub proof fn lemma_bytes_lt_total(x: Seq<u8>, y: Seq<u8>)
    requires
        x != y,
    ensures
        bytes_lt(x, y) || bytes_lt(y, x),
    decreases x.len(),
{
    if x.len() > 0 && y.len() > 0 && x[0] == y[0] {
        if x.drop_first() == y.drop_first() {
            assert(x =~= seq![x[0]] + x.drop_first());
            assert(y =~= seq![y[0]] + y.drop_first());
        }
        lemma_bytes_lt_total(x.drop_first(), y.drop_first());
    } else if x.len() == 0 && y.len() == 0 {
        assert(x =~= y);
    }
}

/// The string order is a strict total order.
pub proof fn lemma_str_lt_order(a: Seq<char>, b: Seq<char>, c: Seq<char>)
    ensures
        !str_lt(a, a),
        str_lt(a, b) && str_lt(b, c) ==> str_lt(a, c),
        a != b ==> str_lt(a, b) || str_lt(b, a),
{
    lemma_bytes_lt_irreflexive(encode_utf8(a));
    if str_lt(a, b) && str_lt(b, c) {
        lemma_bytes_lt_transitive(encode_utf8(a), encode_utf8(b), encode_utf8(c));
    }
    if a != b {
        assert(decode_utf8(encode_utf8(a)) == a);
        assert(decode_utf8(encode_utf8(b)) == b);
        lemma_bytes_lt_total(encode_utf8(a), encode_utf8(b));
    }
}

/// Whether `a` sorts before `b` as `String`s do.
pub fn str_less(a: &str, b: &str) -> (res: bool)
    ensures
        res == str_lt(a@, b@),
{
    let ab = a.as_bytes();
    let bb = b.as_bytes();
    let mut i: usize = 0;
    assert(ab@.skip(0) =~= ab@);
    assert(bb@.skip(0) =~= bb@);
    while i < ab.len() && i < bb.len()
        invariant
            0 <= i <= ab@.len(),
            i <= bb@.len(),
            ab@ == a.spec_bytes(),
            bb@ == b.spec_bytes(),
            bytes_lt(ab@, bb@) == bytes_lt(ab@.skip(i as int), bb@.skip(i as int)),
        decreases ab@.len() - i,
    {
        if ab[i] != bb[i] {
            return ab[i] < bb[i];
        }
        assert(ab@.skip(i as int).drop_first() =~= ab@.skip(i + 1));
        assert(bb@.skip(i as int).drop_first() =~= bb@.skip(i + 1));
        i = i + 1;
    }
    i < bb.len()
}

// ---------------------------------------------------------------------------
// Slicing a string by byte offsets.
// ---------------------------------------------------------------------------

/// The characters that the bytes `start..end` of `code` encode.
pub open spec fn byte_text(code: Seq<char>, start: int, end: int) -> Seq<char> {
    decode_utf8(encode_utf8(code).subrange(start, end))
}

/// A byte offset is a character boundary that a slice of `code` may start or end at.
pub open spec fn is_boundary(code: Seq<char>, i: int) -> bool {
    is_char_boundary(encode_utf8(code), i)
}

/// The text of `code` between two byte offsets that fall on character boundaries.
pub fn slice_text(code: &str, start: usize, end: usize) -> (res: String)
    requires
        start <= end <= code.spec_bytes().len(),
        is_boundary(code@, start as int),
        is_boundary(code@, end as int),
    ensures
        res@ == byte_text(code@, start as int, end as int),
{
    let ghost bytes = code.spec_bytes();
    let (_, rest) = code.split_at(start);
    proof {
        vstd::utf8::valid_utf8_split(bytes, start as int);
        assert(rest.spec_bytes() =~= bytes.subrange(start as int, bytes.len() as int));
        // A boundary of the whole text is a boundary of the part after `start`.
        if end > start && end < bytes.len() {
            vstd::utf8::is_char_boundary_iff_not_is_continuation_byte(bytes, end as int);
            vstd::utf8::is_char_boundary_iff_not_is_continuation_byte(rest.spec_bytes(), end - start);
        } else {
            vstd::utf8::is_char_boundary_start_end_of_seq(rest.spec_bytes());
        }
    }
    let (mid, _) = rest.split_at(end - start);
    proof {
        assert(mid.spec_bytes() =~= bytes.subrange(start as int, end as int));
        assert(mid@ == decode_utf8(mid.spec_bytes()));
    }
    mid.to_owned()
}

} // verus!
