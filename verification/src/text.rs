//! Text and byte-string helpers shared by the task model, the wire format and
//! the configuration code.
//!
//! Strings are reasoned about through their character view (`s@`) and through
//! their UTF-8 encoding (`encode_utf8(s@)`, which is what `as_bytes` yields).
use vstd::prelude::*;
use vstd::utf8::*;


verus! {

broadcast use vstd::utf8::encode_utf8_decode_utf8, vstd::utf8::encode_utf8_valid_utf8;

// ---------------------------------------------------------------------------
// Byte sequences
// ---------------------------------------------------------------------------

/// ASCII lowercasing of one byte: `A`..=`Z` become `a`..=`z`, every other byte
/// (including the bytes of multi-byte UTF-8 sequences) is left alone.
pub open spec fn ascii_lower(b: u8) -> u8 {
    if 65 <= b && b <= 90 {
        (b + 32) as u8
    } else {
        b
    }
}

/// Bytewise ASCII lowercasing, as `str::to_ascii_lowercase` does on the UTF-8
/// encoding of a string.
pub open spec fn lower_bytes(s: Seq<u8>) -> Seq<u8> {
    Seq::new(s.len(), |i: int| ascii_lower(s[i]))
}

/// `needle` occurs in `hay` starting at position `i`.
pub open spec fn occurs_at(hay: Seq<u8>, needle: Seq<u8>, i: int) -> bool {
    0 <= i && i + needle.len() <= hay.len() && hay.subrange(i, i + needle.len()) == needle
}

/// `needle` is a contiguous part of `hay` (the empty needle is part of every hay).
pub open spec fn contains_bytes(hay: Seq<u8>, needle: Seq<u8>) -> bool {
    exists|i: int| occurs_at(hay, needle, i)
}

/// Compares two byte slices.
pub fn bytes_eq(x: &[u8], y: &[u8]) -> (r: bool)
    ensures
        r == (x@ == y@),
{
    if x.len() != y.len() {
        return false;
    }
    let mut i: usize = 0;
    while i < x.len()
        invariant
            x@.len() == y@.len(),
            i <= x.len(),
            forall|j: int| 0 <= j < i ==> x@[j] == y@[j],
        decreases x.len() - i,
    {
        if x[i] != y[i] {
            return false;
        }
        i = i + 1;
    }
    assert(x@ =~= y@);
    true
}

/// Tells whether `needle` occurs in `hay`.
pub fn bytes_contain(hay: &[u8], needle: &[u8]) -> (r: bool)
    ensures
        r == contains_bytes(hay@, needle@),
{
    if needle.len() > hay.len() {
        return false;
    }
    let hay_len = hay.len();
    let last = hay_len - needle.len();
    let mut start: usize = 0;
    loop
        invariant
            needle@.len() <= hay@.len(),
            hay_len == hay@.len(),
            last == hay@.len() - needle@.len(),
            start <= last,
            forall|i: int| 0 <= i < start ==> !occurs_at(hay@, needle@, i),
        decreases last - start,
    {
        let mut k: usize = 0;
        let mut matched = true;
        while k < needle.len()
            invariant
                needle@.len() <= hay@.len(),
                hay_len == hay@.len(),
                last == hay@.len() - needle@.len(),
                start <= last,
                k <= needle@.len(),
                matched ==> forall|j: int| 0 <= j < k ==> hay@[start + j] == needle@[j],
                !matched ==> !occurs_at(hay@, needle@, start as int),
            decreases needle.len() - k,
        {
            assert(start + k < hay@.len());
            if matched && hay[start + k] != needle[k] {
                assert(hay@.subrange(start as int, start + needle@.len())[k as int] != needle@[k as int]);
                matched = false;
            }
            k = k + 1;
        }
        if matched {
            assert(hay@.subrange(start as int, start + needle@.len()) =~= needle@);
            assert(occurs_at(hay@, needle@, start as int));
            return true;
        }
        if start == last {
            assert forall|i: int| !occurs_at(hay@, needle@, i) by {
                if 0 <= i && i + needle@.len() <= hay@.len() {
                    assert(i <= start);
                }
            }
            return false;
        }
        start = start + 1;
    }
}

/// ASCII-lowercases a byte string.
pub fn ascii_lowercase(bytes: &[u8]) -> (r: Vec<u8>)
    ensures
        r@ == lower_bytes(bytes@),
{
    let mut out: Vec<u8> = Vec::with_capacity(bytes.len());
    let mut i: usize = 0;
    while i < bytes.len()
        invariant
            i <= bytes.len(),
            out@.len() == i,
            forall|j: int| 0 <= j < i ==> out@[j] == ascii_lower(bytes@[j]),
        decreases bytes.len() - i,
    {
        let b = bytes[i];
        let lowered: u8 = if 65 <= b && b <= 90 {
            b + 32
        } else {
            b
        };
        out.push(lowered);
        i = i + 1;
    }
    assert(out@ =~= lower_bytes(bytes@));
    out
}

/// Appends `bytes` to the end of `out`.
pub fn append_bytes(out: &mut Vec<u8>, bytes: &[u8])
    ensures
        final(out)@ == old(out)@ + bytes@,
{
    let mut i: usize = 0;
    while i < bytes.len()
        invariant
            i <= bytes.len(),
            out@ == old(out)@ + bytes@.take(i as int),
        decreases bytes.len() - i,
    {
        out.push(bytes[i]);
        assert(bytes@.take(i + 1) =~= bytes@.take(i as int).push(bytes@[i as int]));
        i = i + 1;
    }
    assert(bytes@.take(i as int) =~= bytes@);
}

// ---------------------------------------------------------------------------
// Strings
// ---------------------------------------------------------------------------

/// Compares two strings by their characters.
pub fn text_eq(a: &str, b: &str) -> (r: bool)
    ensures
        r == (a@ == b@),
{
    let r = bytes_eq(a.as_bytes(), b.as_bytes());
    proof {
        assert(decode_utf8(encode_utf8(a@)) == a@);
        assert(decode_utf8(encode_utf8(b@)) == b@);
    }
    r
}

/// Tells whether the ASCII-lowercased UTF-8 encoding of `text` contains
/// `needle`'s encoding.
pub open spec fn lower_contains(text: Seq<char>, needle: Seq<char>) -> bool {
    contains_bytes(lower_bytes(encode_utf8(text)), encode_utf8(needle))
}

/// Characters with the Unicode `White_Space` property, the ones that
/// `char::is_whitespace` accepts and `str::trim` removes.
pub open spec fn is_unicode_whitespace(c: char) -> bool {
    let u = c as u32;
    (0x9 <= u && u <= 0xd) || u == 0x20 || u == 0x85 || u == 0xa0 || u == 0x1680 || (0x2000 <= u
        && u <= 0x200a) || u == 0x2028 || u == 0x2029 || u == 0x202f || u == 0x205f || u == 0x3000
}

/// `s` without its leading whitespace.
pub open spec fn trim_start_chars(s: Seq<char>) -> Seq<char>
    decreases s.len(),
{
    if s.len() > 0 && is_unicode_whitespace(s[0]) {
        trim_start_chars(s.drop_first())
    } else {
        s
    }
}

/// `s` without its trailing whitespace.
pub open spec fn trim_end_chars(s: Seq<char>) -> Seq<char>
    decreases s.len(),
{
    if s.len() > 0 && is_unicode_whitespace(s.last()) {
        trim_end_chars(s.drop_last())
    } else {
        s
    }
}

/// `s` without leading and trailing whitespace.
pub open spec fn trim_chars(s: Seq<char>) -> Seq<char> {
    trim_end_chars(trim_start_chars(s))
}

/// Calls `str::trim`. Its documentation says that it returns the string with
/// leading and trailing `White_Space` characters removed; the contract claims
/// exactly that, with the property list written out in `is_unicode_whitespace`.
#[verifier::external_body]
pub fn trim_text(s: &str) -> (r: &str)
    ensures
        r@ == trim_chars(s@),
{
    s.trim()
}

/// The characters of `s` up to its first line ending: `\n`, or `\r\n`.
pub open spec fn first_line_chars(s: Seq<char>) -> Seq<char>
    decreases s.len(),
{
    if s.len() == 0 || s[0] == '\n' || (s.len() >= 2 && s[0] == '\r' && s[1] == '\n') {
        Seq::empty()
    } else {
        seq![s[0]] + first_line_chars(s.drop_first())
    }
}

/// What `s.lines().next()` yields: nothing for the empty string, otherwise the
/// first line without its line ending.
pub open spec fn first_line_spec(s: Seq<char>) -> Option<Seq<char>> {
    if s.len() == 0 {
        None
    } else {
        Some(first_line_chars(s))
    }
}

/// Calls `str::lines` and takes the first item. Its documentation says that
/// lines end with `\n` or `\r\n`, that the line ending is not part of the line
/// and that an empty string has no lines; the contract claims exactly that.
#[verifier::external_body]
pub fn first_line(s: &str) -> (r: Option<&str>)
    ensures
        r matches Some(line) ==> first_line_spec(s@) == Some(line@),
        r is None ==> first_line_spec(s@) is None,
{
    s.lines().next()
}

/// The characters of `s` after its last `/` (all of `s` if it has none).
pub open spec fn last_segment(s: Seq<char>) -> Seq<char>
    decreases s.len(),
{
    if s.len() == 0 || s.last() == '/' {
        Seq::empty()
    } else {
        last_segment(s.drop_last()).push(s.last())
    }
}

/// The final component of the Unix path `s`, as `Path::file_name` defines it:
/// trailing `/` and `.` components are skipped, a final `..` or an empty path,
/// a root or a lone `.` have none.
pub open spec fn file_name_spec(s: Seq<char>) -> Option<Seq<char>>
    decreases s.len(),
{
    if s.len() == 0 {
        None
    } else if s.last() == '/' {
        file_name_spec(s.drop_last())
    } else if last_segment(s) == seq!['.'] {
        file_name_spec(s.drop_last())
    } else if last_segment(s) == seq!['.', '.'] {
        None
    } else {
        Some(last_segment(s))
    }
}

/// Calls `Path::file_name` on `path` read as a Unix path and converts the
/// component back to `&str` (always possible, since it is part of `path`).
/// The documentation of `Path::file_name` and `Path::components` says that the
/// final normal component is returned, that repeated and trailing separators
/// and `.` components are ignored, and that a path ending in `..`, a root or an
/// empty path has no file name; the contract claims that, as `file_name_spec`.
#[verifier::external_body]
pub fn path_file_name(path: &str) -> (r: Option<&str>)
    ensures
        r matches Some(name) ==> file_name_spec(path@) == Some(name@),
        r is None ==> file_name_spec(path@) is None,
{
    match std::path::Path::new(path).file_name() {
        Some(name) => name.to_str(),
        None => None,
    }
}

/// `s` with each `'` replaced by the four characters `'\''`.
pub open spec fn escape_single_quotes_spec(s: Seq<char>) -> Seq<char>
    decreases s.len(),
{
    if s.len() == 0 {
        Seq::empty()
    } else {
        (if s[0] == '\'' {
            seq!['\'', '\\', '\'', '\'']
        } else {
            seq![s[0]]
        }) + escape_single_quotes_spec(s.drop_first())
    }
}

/// The UTF-8 encoding of two texts one after the other is the encoding of
/// the first followed by that of the second.
pub proof fn lemma_encode_utf8_concat(a: Seq<char>, b: Seq<char>)
    ensures
        encode_utf8(a + b) == encode_utf8(a) + encode_utf8(b),
    decreases a.len(),
{
    if a.len() > 0 {
        lemma_encode_utf8_concat(a.drop_first(), b);
        assert((a + b).drop_first() =~= a.drop_first() + b);
        assert((a + b)[0] == a[0]);
        assert(encode_utf8(a + b) =~= encode_scalar(a[0] as u32) + encode_utf8(a.drop_first() + b));
    } else {
        assert(a + b =~= b);
    }
}

/// Escaping two texts one after the other escapes each of them.
pub proof fn lemma_escape_concat(a: Seq<char>, b: Seq<char>)
    ensures
        escape_single_quotes_spec(a + b) == escape_single_quotes_spec(a)
            + escape_single_quotes_spec(b),
    decreases a.len(),
{
    if a.len() > 0 {
        lemma_escape_concat(a.drop_first(), b);
        assert((a + b).drop_first() =~= a.drop_first() + b);
        assert((a + b)[0] == a[0]);
    } else {
        assert(a + b =~= b);
    }
}

/// A text without `'` is left alone by escaping.
pub proof fn lemma_escape_without_quotes(s: Seq<char>)
    requires
        forall|i: int| 0 <= i < s.len() ==> s[i] != '\'',
    ensures
        escape_single_quotes_spec(s) == s,
    decreases s.len(),
{
    if s.len() > 0 {
        lemma_escape_without_quotes(s.drop_first());
        assert(s =~= seq![s[0]] + s.drop_first());
    }
}

/// Calls `str::replace` to replace each `'` of `s` by `'\''`. Its documentation
/// says that every match of the pattern is replaced; the contract claims that.
#[verifier::external_body]
pub fn escape_single_quotes(s: &str) -> (r: String)
    ensures
        r@ == escape_single_quotes_spec(s@),
{
    s.replace('\'', "'\\''")
}

} // verus!
