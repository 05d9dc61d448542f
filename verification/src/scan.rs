//! Scanning primitives over bytes: runs of a byte class, fixed texts, and
//! the search for the end of a block comment.

use vstd::prelude::*;
use vstd::string::StringSliceAdditionalSpecFns;

verus! {

/// The byte classes the grammar scans runs of.
#[derive(Clone, Copy, Debug)]
pub enum ByteClass {
    /// Space, tab, carriage return, line feed.
    Space,
    /// The space character alone.
    Blank,
    /// ASCII letters and digits, and `#`, `@`, `_`, `:`.
    Word,
    /// ASCII decimal digits.
    Digit,
    /// Everything but `/`, `#` and `@`.
    Code,
    /// Everything but line feed and carriage return.
    Line,
}

impl ByteClass {
    /// Whether byte `b` belongs to the class.
    pub open spec fn has(self, b: u8) -> bool {
        match self {
            ByteClass::Space => b == ' ' as u8 || b == '\t' as u8 || b == '\r' as u8 || b == '\n' as u8,
            ByteClass::Blank => b == ' ' as u8,
            ByteClass::Word => ('a' as u8 <= b && b <= 'z' as u8) || ('A' as u8 <= b && b <= 'Z' as u8)
                || ('0' as u8 <= b && b <= '9' as u8) || b == '#' as u8 || b == '@' as u8 || b
                == '_' as u8 || b == ':' as u8,
            ByteClass::Digit => '0' as u8 <= b && b <= '9' as u8,
            ByteClass::Code => !(b == '/' as u8 || b == '#' as u8 || b == '@' as u8),
            ByteClass::Line => !(b == '\n' as u8 || b == '\r' as u8),
        }
    }

    /// Tests whether byte `b` belongs to the class.
    pub fn contains(self, b: u8) -> (r: bool)
        ensures
            r == self.has(b),
    {
        match self {
            ByteClass::Space => b == ' ' as u8 || b == '\t' as u8 || b == '\r' as u8 || b == '\n' as u8,
            ByteClass::Blank => b == ' ' as u8,
            ByteClass::Word => ('a' as u8 <= b && b <= 'z' as u8) || ('A' as u8 <= b && b <= 'Z' as u8)
                || ('0' as u8 <= b && b <= '9' as u8) || b == '#' as u8 || b == '@' as u8 || b
                == '_' as u8 || b == ':' as u8,
            ByteClass::Digit => '0' as u8 <= b && b <= '9' as u8,
            ByteClass::Code => !(b == '/' as u8 || b == '#' as u8 || b == '@' as u8),
            ByteClass::Line => !(b == '\n' as u8 || b == '\r' as u8),
        }
    }
}

/// The bytes of a text.
pub open spec fn text(t: &str) -> Seq<u8> {
    t.spec_bytes()
}

/// The end of the longest run of bytes of `class` that starts at `pos`.
pub open spec fn run_end(s: Seq<u8>, pos: int, class: ByteClass) -> int
    decreases s.len() - pos,
{
    if 0 <= pos < s.len() && class.has(s[pos]) {
        run_end(s, pos + 1, class)
    } else {
        pos
    }
}

/// Whether `lit` stands in `s` at `pos`.
pub open spec fn has_at(s: Seq<u8>, pos: int, lit: Seq<u8>) -> bool {
    0 <= pos && pos + lit.len() <= s.len() && s.subrange(pos, pos + lit.len()) == lit
}

/// The first position at or after `pos` where `lit` stands in `s`.
pub open spec fn find_from(s: Seq<u8>, pos: int, lit: Seq<u8>) -> Option<int>
    decreases s.len() - pos,
{
    if has_at(s, pos, lit) {
        Some(pos)
    } else if 0 <= pos < s.len() {
        find_from(s, pos + 1, lit)
    } else {
        None
    }
}

/// A text has as many bytes as it has characters.
pub proof fn lemma_text_len(t: &str)
    ensures
        text(t).len() >= t@.len(),
        vstd::string::is_ascii(t) ==> text(t).len() == t@.len(),
{
    lemma_encoded_len(t@);
    if vstd::string::is_ascii(t) {
        vstd::utf8::is_ascii_chars_encode_utf8(t@);
    }
}

proof fn lemma_encoded_len(chars: Seq<char>)
    ensures
        vstd::utf8::encode_utf8(chars).len() >= chars.len(),
    decreases chars.len(),
{
    if chars.len() > 0 {
        lemma_encoded_len(chars.drop_first());
    }
}

/// A run ends at or after its start and within the input, holds only bytes
/// of the class, and cannot be extended.
pub proof fn lemma_run_end(s: Seq<u8>, pos: int, class: ByteClass)
    requires
        0 <= pos <= s.len(),
    ensures
        pos <= run_end(s, pos, class) <= s.len(),
        forall|i: int| pos <= i < run_end(s, pos, class) ==> class.has(#[trigger] s[i]),
        run_end(s, pos, class) < s.len() ==> !class.has(s[run_end(s, pos, class)]),
    decreases s.len() - pos,
{
    if pos < s.len() && class.has(s[pos]) {
        lemma_run_end(s, pos + 1, class);
    }
}

/// What `find_from` returns is the first occurrence, and `None` means that
/// there is none.
pub proof fn lemma_find_from(s: Seq<u8>, pos: int, lit: Seq<u8>)
    requires
        0 <= pos,
    ensures
        match find_from(s, pos, lit) {
            Some(q) => pos <= q && has_at(s, q, lit) && forall|i: int|
                pos <= i < q ==> !has_at(s, i, lit),
            None => forall|i: int| pos <= i ==> !has_at(s, i, lit),
        },
    decreases s.len() - pos,
{
    if !has_at(s, pos, lit) && pos < s.len() {
        lemma_find_from(s, pos + 1, lit);
    }
}

/// Scans the longest run of bytes of `class` from `pos` and returns its end.
pub fn scan_run(input: &[u8], pos: usize, class: ByteClass) -> (end: usize)
    requires
        pos <= input@.len(),
    ensures
        end == run_end(input@, pos as int, class),
        pos <= end <= input@.len(),
{
    let mut i: usize = pos;
    while i < input.len() && class.contains(input[i])
        invariant
            pos <= i <= input@.len(),
            run_end(input@, pos as int, class) == run_end(input@, i as int, class),
        decreases input@.len() - i,
    {
        i = i + 1;
    }
    i
}

/// Tests whether the bytes `lit` stand in `input` at `pos`.
pub fn starts_with_at(input: &[u8], pos: usize, lit: &[u8]) -> (r: bool)
    requires
        pos <= input@.len(),
    ensures
        r == has_at(input@, pos as int, lit@),
        r ==> pos + lit@.len() <= usize::MAX,
{
    if lit.len() > input.len() - pos {
        return false;
    }
    let mut i: usize = 0;
    while i < lit.len()
        invariant
            pos + lit@.len() <= input@.len() <= usize::MAX,
            i <= lit@.len(),
            forall|k: int| 0 <= k < i ==> input@[pos + k] == lit@[k],
        decreases lit@.len() - i,
    {
        if input[pos + i] != lit[i] {
            proof {
                let sub = input@.subrange(pos as int, pos + lit@.len());
                assert(sub[i as int] == input@[pos + i]);
            }
            return false;
        }
        i = i + 1;
    }
    assert(input@.subrange(pos as int, pos + lit@.len()) =~= lit@);
    true
}

/// Tests whether the bytes of `input` from `from` to `to` are exactly `lit`.
pub fn slice_is(input: &[u8], from: usize, to: usize, lit: &[u8]) -> (r: bool)
    requires
        from <= to <= input@.len(),
    ensures
        r == (input@.subrange(from as int, to as int) == lit@),
{
    if to - from != lit.len() {
        return false;
    }
    starts_with_at(input, from, lit)
}

/// Finds the first position at or after `pos` where `lit` stands in `input`.
pub fn find(input: &[u8], pos: usize, lit: &[u8]) -> (r: Option<usize>)
    requires
        pos <= input@.len(),
    ensures
        match r {
            Some(q) => find_from(input@, pos as int, lit@) == Some(q as int) && pos <= q
                <= input@.len() - lit@.len(),
            None => find_from(input@, pos as int, lit@) is None,
        },
{
    let mut i: usize = pos;
    loop
        invariant
            pos <= i <= input@.len(),
            find_from(input@, pos as int, lit@) == find_from(input@, i as int, lit@),
        decreases input@.len() - i,
    {
        if starts_with_at(input, i, lit) {
            return Some(i);
        }
        if i >= input.len() {
            return None;
        }
        i = i + 1;
    }
}

/// Copies the bytes of `input` from `from` to `to`.
pub fn copy_range(input: &[u8], from: usize, to: usize) -> (r: Vec<u8>)
    requires
        from <= to <= input@.len(),
    ensures
        r@ == input@.subrange(from as int, to as int),
{
    let mut out: Vec<u8> = Vec::new();
    let mut i: usize = from;
    while i < to
        invariant
            from <= i <= to <= input@.len(),
            out@ == input@.subrange(from as int, i as int),
        decreases to - i,
    {
        out.push(input[i]);
        assert(out@ =~= input@.subrange(from as int, i + 1));
        i = i + 1;
    }
    out
}

} // verus!
