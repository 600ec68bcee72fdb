//! Classes of bytes, and the scans over the input that the lexers share.
use vstd::prelude::*;

verus! {

/// ASCII whitespace: space, tab, line feed, form feed, carriage return.
pub open spec fn is_whitespace(b: u8) -> bool {
    b == 0x20 || b == 0x09 || b == 0x0a || b == 0x0c || b == 0x0d
}

/// An ASCII letter.
pub open spec fn is_alphabetic(b: u8) -> bool {
    (0x41 <= b <= 0x5a) || (0x61 <= b <= 0x7a)
}

/// An ASCII upper case letter.
pub open spec fn is_uppercase(b: u8) -> bool {
    0x41 <= b <= 0x5a
}

/// An ASCII decimal digit.
pub open spec fn is_digit(b: u8) -> bool {
    0x30 <= b <= 0x39
}

/// ASCII punctuation: every printable ASCII byte that is no letter, digit or space.
pub open spec fn is_punctuation(b: u8) -> bool {
    (0x21 <= b <= 0x2f) || (0x3a <= b <= 0x40) || (0x5b <= b <= 0x60) || (0x7b <= b <= 0x7e)
}

/// An ASCII control byte.
pub open spec fn is_control(b: u8) -> bool {
    b <= 0x1f || b == 0x7f
}

/// A byte that can be part of an identifier: a letter, a digit or `_`.
pub open spec fn is_identifier(b: u8) -> bool {
    is_alphabetic(b) || is_digit(b) || b == 0x5f
}

/// A byte that ends a run of punctuation: a quote, a bracket or `;`.
pub open spec fn ends_punctuation(b: u8) -> bool {
    b == 0x27 || b == 0x22 || b == 0x28 || b == 0x29 || b == 0x7b || b == 0x7d || b == 0x5b
        || b == 0x5d || b == 0x3b
}

/// A byte that ends an identifier of the annotation language: one of `,;:?-()`.
pub open spec fn ends_annotation_ident(b: u8) -> bool {
    b == 0x2c || b == 0x3b || b == 0x3a || b == 0x3f || b == 0x2d || b == 0x28 || b == 0x29
}

/// The lower case form of an ASCII byte; other bytes stay as they are.
pub open spec fn lowercase(b: u8) -> u8 {
    if is_uppercase(b) {
        (b + 0x20) as u8
    } else {
        b
    }
}

/// Whether a byte is ASCII whitespace.
pub fn is_ascii_whitespace(b: u8) -> (r: bool)
    ensures
        r == is_whitespace(b),
{
    b == 0x20 || b == 0x09 || b == 0x0a || b == 0x0c || b == 0x0d
}

/// Whether a byte is an ASCII letter.
pub fn is_ascii_alphabetic(b: u8) -> (r: bool)
    ensures
        r == is_alphabetic(b),
{
    (0x41 <= b && b <= 0x5a) || (0x61 <= b && b <= 0x7a)
}

/// Whether a byte is an ASCII upper case letter.
pub fn is_ascii_uppercase(b: u8) -> (r: bool)
    ensures
        r == is_uppercase(b),
{
    0x41 <= b && b <= 0x5a
}

/// Whether a byte is an ASCII digit.
pub fn is_ascii_digit(b: u8) -> (r: bool)
    ensures
        r == is_digit(b),
{
    0x30 <= b && b <= 0x39
}

/// Whether a byte is ASCII punctuation.
pub fn is_ascii_punctuation(b: u8) -> (r: bool)
    ensures
        r == is_punctuation(b),
{
    (0x21 <= b && b <= 0x2f) || (0x3a <= b && b <= 0x40) || (0x5b <= b && b <= 0x60) || (0x7b <= b
        && b <= 0x7e)
}

/// Whether a byte is an ASCII control byte.
pub fn is_ascii_control(b: u8) -> (r: bool)
    ensures
        r == is_control(b),
{
    b <= 0x1f || b == 0x7f
}

/// Check if a byte is part of an identifier.
///
/// This returns true also for digits, even though identifiers should not start
/// with a digit.
pub fn is_ascii_identifier(ch: u8) -> (r: bool)
    ensures
        r == is_identifier(ch),
{
    is_ascii_alphabetic(ch) || is_ascii_digit(ch) || ch == 0x5f
}

/// The lower case form of an ASCII byte.
pub fn to_ascii_lowercase(b: u8) -> (r: u8)
    ensures
        r == lowercase(b),
{
    if is_ascii_uppercase(b) {
        b + 0x20
    } else {
        b
    }
}

/// The sets of bytes that a scan can run over.
#[derive(Copy, Clone, Debug, PartialEq, Eq, Structural)]
pub enum ByteClass {
    /// ASCII whitespace.
    Whitespace,
    /// Letters, digits and `_`.
    Identifier,
    /// Punctuation that is no quote, bracket or `;`.
    Punctuation,
    /// Everything but a line feed.
    NotNewline,
    /// ASCII control bytes.
    Control,
    /// Bytes above 127.
    NonAscii,
    /// Every byte.
    Any,
    /// Everything but whitespace and the punctuation of the annotation language.
    AnnotationIdent,
}

impl ByteClass {
    /// Whether the byte is of the class.
    pub open spec fn has(self, b: u8) -> bool {
        match self {
            ByteClass::Whitespace => is_whitespace(b),
            ByteClass::Identifier => is_identifier(b),
            ByteClass::Punctuation => is_punctuation(b) && !ends_punctuation(b),
            ByteClass::NotNewline => b != 0x0a,
            ByteClass::Control => is_control(b),
            ByteClass::NonAscii => b > 127,
            ByteClass::Any => true,
            ByteClass::AnnotationIdent => !is_whitespace(b) && !ends_annotation_ident(b),
        }
    }

    /// Test whether the byte is of the class.
    pub fn contains(self, b: u8) -> (r: bool)
        ensures
            r == self.has(b),
    {
        match self {
            ByteClass::Whitespace => is_ascii_whitespace(b),
            ByteClass::Identifier => is_ascii_identifier(b),
            ByteClass::Punctuation => is_ascii_punctuation(b) && !(b == 0x27 || b == 0x22 || b
                == 0x28 || b == 0x29 || b == 0x7b || b == 0x7d || b == 0x5b || b == 0x5d || b
                == 0x3b),
            ByteClass::NotNewline => b != 0x0a,
            ByteClass::Control => is_ascii_control(b),
            ByteClass::NonAscii => b > 127,
            ByteClass::Any => true,
            ByteClass::AnnotationIdent => !is_ascii_whitespace(b) && !(b == 0x2c || b == 0x3b || b
                == 0x3a || b == 0x3f || b == 0x2d || b == 0x28 || b == 0x29),
        }
    }
}

/// The end of the longest run of bytes of `class` that starts at `from` and
/// stays below `limit`: the first position from `from` on that holds another
/// byte, or `limit`.
pub open spec fn run_end(bytes: Seq<u8>, from: int, limit: int, class: ByteClass) -> int
    decreases limit - from,
{
    if from < 0 || from >= limit || limit > bytes.len() || !class.has(bytes[from]) {
        from
    } else {
        run_end(bytes, from + 1, limit, class)
    }
}

/// How many bytes of `class` the input holds from `from` on.
pub open spec fn count_from(bytes: Seq<u8>, from: int, class: ByteClass) -> nat
    decreases bytes.len() - from,
{
    if from < 0 || from >= bytes.len() {
        0
    } else if class.has(bytes[from]) {
        1 + count_from(bytes, from + 1, class)
    } else {
        count_from(bytes, from + 1, class)
    }
}

/// The first position from `from` on where `needle` stands, if there is one.
pub open spec fn find_byte(bytes: Seq<u8>, from: int, limit: int, needle: u8) -> Option<int>
    decreases limit - from,
{
    if from < 0 || from >= limit || limit > bytes.len() {
        None
    } else if bytes[from] == needle {
        Some(from)
    } else {
        find_byte(bytes, from + 1, limit, needle)
    }
}

/// Whether `word` stands in `bytes` at `at`.
pub open spec fn has_at(bytes: Seq<u8>, at: int, word: Seq<u8>) -> bool {
    &&& 0 <= at
    &&& at + word.len() <= bytes.len()
    &&& bytes.subrange(at, at + word.len()) == word
}

/// A run ends between its start and its limit, holds bytes of its class
/// only, and stops at the limit or before a byte of another class.
pub proof fn lemma_run_end_bounds(bytes: Seq<u8>, from: int, limit: int, class: ByteClass)
    requires
        0 <= from <= limit <= bytes.len(),
    ensures
        from <= run_end(bytes, from, limit, class) <= limit,
        forall|i: int| from <= i < run_end(bytes, from, limit, class) ==> class.has(#[trigger] bytes[i]),
        run_end(bytes, from, limit, class) < limit ==> !class.has(
            bytes[run_end(bytes, from, limit, class)],
        ),
    decreases limit - from,
{
    if from < limit && class.has(bytes[from]) {
        lemma_run_end_bounds(bytes, from + 1, limit, class);
    }
}

/// There are no more bytes of a class than there are bytes.
pub proof fn lemma_count_from_bounds(bytes: Seq<u8>, from: int, class: ByteClass)
    requires
        0 <= from <= bytes.len(),
    ensures
        count_from(bytes, from, class) <= bytes.len() - from,
    decreases bytes.len() - from,
{
    if from < bytes.len() {
        lemma_count_from_bounds(bytes, from + 1, class);
    }
}

/// Scan forward over the bytes of `class`, from `from` and below `limit`.
pub fn scan_run(input: &[u8], from: usize, limit: usize, class: ByteClass) -> (end: usize)
    requires
        from <= limit <= input@.len(),
    ensures
        end == run_end(input@, from as int, limit as int, class),
        from <= end <= limit,
{
    let mut i: usize = from;
    while i < limit && class.contains(input[i])
        invariant
            from <= i <= limit <= input@.len(),
            run_end(input@, from as int, limit as int, class) == run_end(
                input@,
                i as int,
                limit as int,
                class,
            ),
        decreases limit - i,
    {
        i += 1;
    }
    i
}

/// Count the bytes of `class` from `from` on.
pub fn count_bytes(input: &[u8], from: usize, class: ByteClass) -> (n: usize)
    requires
        from <= input@.len(),
    ensures
        n == count_from(input@, from as int, class),
        from + n <= input@.len(),
{
    let mut i: usize = from;
    let mut n: usize = 0;
    while i < input.len()
        invariant
            from <= i <= input@.len(),
            n <= i - from,
            count_from(input@, from as int, class) == n + count_from(input@, i as int, class),
        decreases input@.len() - i,
    {
        if class.contains(input[i]) {
            n += 1;
        }
        i += 1;
    }
    n
}

/// Find the first `needle` from `from` on and below `limit`.
pub fn find_first(input: &[u8], from: usize, limit: usize, needle: u8) -> (r: Option<usize>)
    requires
        from <= limit <= input@.len(),
    ensures
        match r {
            Some(i) => find_byte(input@, from as int, limit as int, needle) == Some(i as int)
                && from <= i < limit && input@[i as int] == needle,
            None => find_byte(input@, from as int, limit as int, needle) is None,
        },
{
    let mut i: usize = from;
    while i < limit
        invariant
            from <= i <= limit <= input@.len(),
            find_byte(input@, from as int, limit as int, needle) == find_byte(
                input@,
                i as int,
                limit as int,
                needle,
            ),
        decreases limit - i,
    {
        if input[i] == needle {
            return Some(i);
        }
        i += 1;
    }
    None
}

/// Test whether `word` stands in the input at `at`.
pub fn starts_with_at(input: &[u8], at: usize, word: &[u8]) -> (r: bool)
    requires
        at <= input@.len(),
    ensures
        r == has_at(input@, at as int, word@),
{
    if word.len() > input.len() - at {
        return false;
    }
    let mut i: usize = 0;
    while i < word.len()
        invariant
            at + word@.len() <= input@.len() <= usize::MAX,
            i <= word@.len(),
            input@.subrange(at as int, at + i) == word@.subrange(0, i as int),
        decreases word@.len() - i,
    {
        if input[at + i] != word[i] {
            proof {
                assert(input@.subrange(at as int, at + word@.len())[i as int] == input@[at + i]);
            }
            return false;
        }
        proof {
            assert(input@.subrange(at as int, at + i + 1) =~= input@.subrange(at as int, at + i).push(
                input@[at + i],
            ));
            assert(word@.subrange(0, i + 1) =~= word@.subrange(0, i as int).push(word@[i as int]));
        }
        i += 1;
    }
    proof {
        assert(word@.subrange(0, word@.len() as int) =~= word@);
    }
    true
}

} // verus!

verus! {

/// The bytes of `word`, each in lower case.
pub open spec fn lower(word: Seq<u8>) -> Seq<u8> {
    word.map_values(|b: u8| lowercase(b))
}

/// Compare two byte strings.
pub fn bytes_equal(a: &[u8], b: &[u8]) -> (r: bool)
    ensures
        r == (a@ == b@),
{
    if a.len() != b.len() {
        return false;
    }
    let r = starts_with_at(a, 0, b);
    proof {
        assert(a@.subrange(0, a@.len() as int) =~= a@);
    }
    r
}

/// Compare the lower case form of `a` with `b`.
pub fn equals_lowercased(a: &[u8], b: &[u8]) -> (r: bool)
    ensures
        r == (lower(a@) == b@),
{
    if a.len() != b.len() {
        return false;
    }
    let mut i: usize = 0;
    while i < a.len()
        invariant
            a@.len() == b@.len(),
            i <= a@.len(),
            forall|k: int| 0 <= k < i ==> lowercase(#[trigger] a@[k]) == b@[k],
        decreases a@.len() - i,
    {
        if to_ascii_lowercase(a[i]) != b[i] {
            proof {
                assert(lower(a@)[i as int] == lowercase(a@[i as int]));
            }
            return false;
        }
        i += 1;
    }
    proof {
        assert(lower(a@) =~= b@);
    }
    true
}

} // verus!

verus! {

/// How often `needle` stands in the input from `from` on and below `limit`.
pub open spec fn count_byte(bytes: Seq<u8>, from: int, limit: int, needle: u8) -> nat
    decreases limit - from,
{
    if from < 0 || from >= limit || limit > bytes.len() {
        0
    } else if bytes[from] == needle {
        1 + count_byte(bytes, from + 1, limit, needle)
    } else {
        count_byte(bytes, from + 1, limit, needle)
    }
}

/// Count how often `needle` stands between `from` and `limit`.
pub fn count_occurrences(input: &[u8], from: usize, limit: usize, needle: u8) -> (n: usize)
    requires
        from <= limit <= input@.len(),
    ensures
        n == count_byte(input@, from as int, limit as int, needle),
        n <= limit - from,
{
    let mut i: usize = from;
    let mut n: usize = 0;
    while i < limit
        invariant
            from <= i <= limit <= input@.len(),
            n <= i - from,
            count_byte(input@, from as int, limit as int, needle) == n + count_byte(
                input@,
                i as int,
                limit as int,
                needle,
            ),
        decreases limit - i,
    {
        if input[i] == needle {
            n += 1;
        }
        i += 1;
    }
    n
}

/// A byte that stands in a range is found by a search of that range.
pub proof fn lemma_find_byte_finds(bytes: Seq<u8>, from: int, limit: int, needle: u8, at: int)
    requires
        0 <= from <= at < limit <= bytes.len(),
        bytes[at] == needle,
    ensures
        find_byte(bytes, from, limit, needle) is Some,
    decreases at - from,
{
    if bytes[from] != needle {
        lemma_find_byte_finds(bytes, from + 1, limit, needle, at);
    }
}

/// Whether position `p` of the input lies next to an ASCII byte, or at one
/// of the ends of the input.
pub open spec fn ascii_edge(bytes: Seq<u8>, p: int) -> bool {
    ||| p == 0
    ||| p == bytes.len()
    ||| 0 < p < bytes.len() && (bytes[p] < 0x80 || bytes[p - 1] < 0x80)
}

/// In valid UTF-8 a new character starts behind every ASCII byte.
proof fn lemma_boundary_behind_ascii(bytes: Seq<u8>, p: int)
    requires
        vstd::utf8::valid_utf8(bytes),
        0 <= p < bytes.len(),
        vstd::utf8::is_char_boundary(bytes, p),
        bytes[p] < 0x80,
    ensures
        vstd::utf8::is_char_boundary(bytes, p + 1),
    decreases p,
{
    let first = vstd::utf8::length_of_first_scalar(bytes);
    let rest = vstd::utf8::pop_first_scalar(bytes);
    if p == 0 {
        assert(first == 1);
        assert(vstd::utf8::is_char_boundary(rest, 0));
    } else {
        assert(vstd::utf8::is_char_boundary(rest, p - first));
        assert(p - first >= 0);
        assert(rest[p - first] == bytes[p]);
        lemma_boundary_behind_ascii(rest, p - first);
    }
}

/// In valid UTF-8, every position next to an ASCII byte is between two
/// characters, and so are the two ends.
pub proof fn lemma_ascii_edge_is_boundary(bytes: Seq<u8>, p: int)
    requires
        vstd::utf8::valid_utf8(bytes),
        ascii_edge(bytes, p),
    ensures
        vstd::utf8::is_char_boundary(bytes, p),
{
    vstd::utf8::is_char_boundary_start_end_of_seq(bytes);
    if 0 < p < bytes.len() {
        if bytes[p] < 0x80 {
            vstd::utf8::is_char_boundary_iff_not_is_continuation_byte(bytes, p);
        } else {
            vstd::utf8::is_char_boundary_iff_not_is_continuation_byte(bytes, p - 1);
            lemma_boundary_behind_ascii(bytes, p - 1);
        }
    }
}

} // verus!
