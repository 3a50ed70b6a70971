//! Byte-level helpers shared by the markup parser and the attribute grammar.
//!
//! Markup is handled as UTF-8 bytes. Every byte with a syntactic meaning is
//! ASCII, so multi-byte characters pass through names and values untouched.

use vstd::prelude::*;
use vstd::slice::slice_subrange;
use vstd::slice::slice_to_vec;
use vstd::string::StringSliceAdditionalSpecFns;

verus! {

/// `<`, which opens a tag.
pub const LESS_THAN: u8 = 0x3c;

/// `>`, which closes a tag.
pub const GREATER_THAN: u8 = 0x3e;

/// `/`, which marks a closing or a self-closing tag.
pub const SLASH: u8 = 0x2f;

/// `=`, between the key and the value of an attribute.
pub const EQUALS_SIGN: u8 = 0x3d;

/// `"`, around the value of an attribute.
pub const QUOTE: u8 = 0x22;

/// The space.
pub const SPACE: u8 = 0x20;

/// The UTF-8 bytes of a piece of text.
pub open spec fn lit(text: &str) -> Seq<u8> {
    text.spec_bytes()
}

/// The bytes of a piece of ASCII text are its characters, one byte each.
pub proof fn lemma_lit(text: &str)
    requires
        vstd::string::is_ascii(text),
    ensures
        lit(text) == Seq::new(text@.len(), |i: int| text@[i] as u8),
{
    vstd::string::is_ascii_spec_bytes(text);
}

/// Space, tab, line feed and carriage return separate tokens.
pub open spec fn is_space(b: u8) -> bool {
    b == SPACE || b == 0x09 || b == 0x0a || b == 0x0d
}

pub open spec fn is_digit(b: u8) -> bool {
    0x30 <= b <= 0x39
}

/// Names of elements and attributes are made of ASCII letters, digits,
/// `-` and `_`.
pub open spec fn is_name_byte(b: u8) -> bool {
    (0x41 <= b <= 0x5a) || (0x61 <= b <= 0x7a) || is_digit(b) || b == 0x2d || b == 0x5f
}

/// The classes of bytes that the scanner can run over.
#[derive(Clone, Copy, Debug, PartialEq, Eq, Structural)]
pub enum ByteClass {
    /// Whitespace.
    Space,
    /// Bytes of a name.
    Name,
    /// Decimal digits.
    Digit,
    /// Everything but `<`.
    NotAngle,
    /// Everything but `"`.
    NotQuote,
}

impl ByteClass {
    pub open spec fn holds(self, b: u8) -> bool {
        match self {
            ByteClass::Space => is_space(b),
            ByteClass::Name => is_name_byte(b),
            ByteClass::Digit => is_digit(b),
            ByteClass::NotAngle => b != LESS_THAN,
            ByteClass::NotQuote => b != QUOTE,
        }
    }

    pub fn test(self, b: u8) -> (r: bool)
        ensures
            r == self.holds(b),
    {
        match self {
            ByteClass::Space => b == SPACE || b == 0x09 || b == 0x0a || b == 0x0d,
            ByteClass::Name => (0x41 <= b && b <= 0x5a) || (0x61 <= b && b <= 0x7a) || (0x30 <= b
                && b <= 0x39) || b == 0x2d || b == 0x5f,
            ByteClass::Digit => 0x30 <= b && b <= 0x39,
            ByteClass::NotAngle => b != LESS_THAN,
            ByteClass::NotQuote => b != QUOTE,
        }
    }
}

/// How many bytes of `class` stand in a row in `s`, starting at `from`.
pub open spec fn run_length(s: Seq<u8>, from: int, class: ByteClass) -> nat
    decreases s.len() - from,
{
    if 0 <= from < s.len() && class.holds(s[from]) {
        1 + run_length(s, from + 1, class)
    } else {
        0
    }
}

/// The first position at or after `from` whose byte is not of `class`, or the
/// end of `s`.
pub open spec fn run_end(s: Seq<u8>, from: int, class: ByteClass) -> int {
    from + run_length(s, from, class)
}

/// What `run_end` returns, said without recursion: everything before it is of
/// the class, and it stands on the first byte that is not, or at the end.
pub proof fn lemma_run_end(s: Seq<u8>, from: int, class: ByteClass)
    requires
        0 <= from <= s.len(),
    ensures
        from <= run_end(s, from, class) <= s.len(),
        forall|k: int| from <= k < run_end(s, from, class) ==> class.holds(#[trigger] s[k]),
        run_end(s, from, class) < s.len() ==> !class.holds(s[run_end(s, from, class)]),
    decreases s.len() - from,
{
    if from < s.len() && class.holds(s[from]) {
        lemma_run_end(s, from + 1, class);
    }
}

/// The position just after the last byte of `s[from..to]` that is not
/// whitespace, or `from` where there is none.
pub open spec fn trimmed_end(s: Seq<u8>, from: int, to: int) -> int
    decreases to - from,
{
    if from < to <= s.len() && is_space(s[to - 1]) {
        trimmed_end(s, from, to - 1)
    } else {
        to
    }
}

pub proof fn lemma_trimmed_end(s: Seq<u8>, from: int, to: int)
    requires
        0 <= from <= to <= s.len(),
    ensures
        from <= trimmed_end(s, from, to) <= to,
        forall|k: int| trimmed_end(s, from, to) <= k < to ==> is_space(#[trigger] s[k]),
        from < trimmed_end(s, from, to) ==> !is_space(s[trimmed_end(s, from, to) - 1]),
    decreases to - from,
{
    if from < to && is_space(s[to - 1]) {
        lemma_trimmed_end(s, from, to - 1);
    }
}

/// Runs over the bytes of `class` that start at `from`.
pub fn scan(s: &[u8], from: usize, class: ByteClass) -> (end: usize)
    requires
        from <= s.len(),
    ensures
        end == run_end(s@, from as int, class),
        from <= end <= s.len(),
{
    let mut end: usize = from;
    while end < s.len() && class.test(s[end])
        invariant
            from <= end <= s.len(),
            run_end(s@, from as int, class) == run_end(s@, end as int, class),
        decreases s.len() - end,
    {
        end += 1;
    }
    end
}

/// Drops the whitespace at the end of `s[from..to]`.
pub fn scan_back(s: &[u8], from: usize, to: usize) -> (end: usize)
    requires
        from <= to <= s.len(),
    ensures
        end == trimmed_end(s@, from as int, to as int),
        from <= end <= to,
{
    let mut end: usize = to;
    while end > from && ByteClass::Space.test(s[end - 1])
        invariant
            from <= end <= to,
            to <= s.len(),
            trimmed_end(s@, from as int, to as int) == trimmed_end(s@, from as int, end as int),
        decreases end - from,
    {
        end -= 1;
    }
    end
}

/// Whether two byte strings are the same.
pub fn same_bytes(a: &[u8], b: &[u8]) -> (r: bool)
    ensures
        r == (a@ == b@),
{
    if a.len() != b.len() {
        return false;
    }
    let mut i: usize = 0;
    while i < a.len()
        invariant
            i <= a.len(),
            a.len() == b.len(),
            forall|j: int| 0 <= j < i ==> a@[j] == b@[j],
        decreases a.len() - i,
    {
        if a[i] != b[i] {
            return false;
        }
        i += 1;
    }
    assert(a@ =~= b@);
    true
}

/// Whether `bytes` spells `text`.
pub fn spells(bytes: &[u8], text: &str) -> (r: bool)
    ensures
        r == (bytes@ == lit(text)),
{
    same_bytes(bytes, text.as_bytes())
}

/// The bytes of `text`, owned.
pub fn bytes_of(text: &str) -> (r: Vec<u8>)
    ensures
        r@ == lit(text),
{
    slice_to_vec(text.as_bytes())
}

/// An owned copy of `s[from..to]`.
pub fn copy_range(s: &[u8], from: usize, to: usize) -> (r: Vec<u8>)
    requires
        from <= to <= s.len(),
    ensures
        r@ == s@.subrange(from as int, to as int),
{
    slice_to_vec(slice_subrange(s, from, to))
}

/// An owned copy of `s`.
pub fn copy_bytes(s: &[u8]) -> (r: Vec<u8>)
    ensures
        r@ == s@,
{
    slice_to_vec(s)
}

} // verus!
