//! Text as sequences of characters: case folding, trimming, splitting,
//! searching and ordering.
use vstd::prelude::*;

verus! {

/// `String::push`: appends one character.
pub assume_specification[ String::push ](s: &mut String, c: char)
    ensures
        final(s)@ == old(s)@.push(c),
;

/// `String::push_str`: appends a text.
pub assume_specification[ String::push_str ](s: &mut String, tail: &str)
    ensures
        final(s)@ == old(s)@ + tail@,
;

/// `String::from_utf8`: succeeds exactly on well-formed UTF-8 and then holds the
/// characters that the bytes encode.
#[verifier::external_body]
pub(crate) fn text_from_utf8(bytes: Vec<u8>) -> (r: Option<String>)
    ensures
        r is Some <==> vstd::utf8::valid_utf8(bytes@),
        r matches Some(s) ==> s@ == vstd::utf8::decode_utf8(bytes@),
{
    String::from_utf8(bytes).ok()
}

/// What `String::from_utf8_lossy` makes of a byte sequence.
pub uninterp spec fn utf8_lossy(bytes: Seq<u8>) -> Seq<char>;

/// `String::from_utf8_lossy`: a function of the bytes alone, which on
/// well-formed UTF-8 is the text that the bytes encode.
#[verifier::external_body]
pub(crate) fn text_from_utf8_lossy(bytes: &[u8]) -> (r: String)
    ensures
        r@ == utf8_lossy(bytes@),
        vstd::utf8::valid_utf8(bytes@) ==> r@ == vstd::utf8::decode_utf8(bytes@),
{
    String::from_utf8_lossy(bytes).into_owned()
}

/// The characters of a text.
pub fn chars_of(s: &str) -> (r: Vec<char>)
    ensures
        r@ == s@,
{
    let mut r: Vec<char> = Vec::new();
    for c in it: s.chars()
        invariant
            it.seq() == s@,
            r@ == s@.take(it.index() as int),
    {
        assert(s@.take(it.index() + 1) =~= s@.take(it.index() as int).push(c));
        r.push(c);
    }
    assert(s@.take(s@.len() as int) =~= s@);
    r
}

/// The text that a run of characters spells.
pub fn text_of(cs: &[char]) -> (r: String)
    ensures
        r@ == cs@,
{
    let mut r = String::new();
    let mut i: usize = 0;
    while i < cs.len()
        invariant
            i <= cs@.len(),
            r@ == cs@.take(i as int),
        decreases cs@.len() - i,
    {
        assert(cs@.take(i + 1) =~= cs@.take(i as int).push(cs@[i as int]));
        r.push(cs[i]);
        i += 1;
    }
    assert(cs@.take(i as int) =~= cs@);
    r
}

/// The text views of a list of texts.
pub open spec fn views(v: Seq<String>) -> Seq<Seq<char>> {
    Seq::new(v.len(), |i: int| v[i]@)
}

/// A copy of a text.
pub fn copy_text(s: &str) -> (r: String)
    ensures
        r@ == s@,
{
    s.to_owned()
}

/// Whether two texts are the same.
pub fn text_eq(a: &str, b: &str) -> (r: bool)
    ensures
        r == (a@ == b@),
{
    let x = chars_of(a);
    let y = chars_of(b);
    chars_eq(x.as_slice(), y.as_slice())
}

/// Whether two runs of characters are the same.
pub fn chars_eq(x: &[char], y: &[char]) -> (r: bool)
    ensures
        r == (x@ == y@),
{
    if x.len() != y.len() {
        return false;
    }
    let mut i: usize = 0;
    while i < x.len()
        invariant
            i <= x@.len(),
            x@.len() == y@.len(),
            forall|j: int| 0 <= j < i ==> x@[j] == y@[j],
        decreases x@.len() - i,
    {
        if x[i] != y[i] {
            return false;
        }
        i += 1;
    }
    assert(x@ =~= y@);
    true
}

/// A text followed by another.
pub fn concat(a: &str, b: &str) -> (r: String)
    ensures
        r@ == a@ + b@,
{
    let mut r = copy_text(a);
    r.push_str(b);
    r
}

/// The lower-case form of an ASCII letter; other characters are left alone.
pub open spec fn lower_char(c: char) -> char {
    if 'A' <= c <= 'Z' {
        ((c as u32) + 32) as char
    } else {
        c
    }
}

/// The upper-case form of an ASCII letter; other characters are left alone.
pub open spec fn upper_char(c: char) -> char {
    if 'a' <= c <= 'z' {
        ((c as u32) - 32) as char
    } else {
        c
    }
}

/// A text with its ASCII letters in lower case.
pub open spec fn lowered(s: Seq<char>) -> Seq<char> {
    Seq::new(s.len(), |i: int| lower_char(s[i]))
}

/// A text with its ASCII letters in upper case.
pub open spec fn uppered(s: Seq<char>) -> Seq<char> {
    Seq::new(s.len(), |i: int| upper_char(s[i]))
}

fn to_lower_char(c: char) -> (r: char)
    ensures
        r == lower_char(c),
{
    if 'A' <= c && c <= 'Z' {
        ((c as u32 + 32) as u8) as char
    } else {
        c
    }
}

fn to_upper_char(c: char) -> (r: char)
    ensures
        r == upper_char(c),
{
    if 'a' <= c && c <= 'z' {
        ((c as u32 - 32) as u8) as char
    } else {
        c
    }
}

/// The text with its ASCII letters in lower case.
pub fn to_ascii_lowercase(s: &str) -> (r: String)
    ensures
        r@ == lowered(s@),
{
    let cs = chars_of(s);
    let mut r = String::new();
    let mut i: usize = 0;
    while i < cs.len()
        invariant
            i <= cs@.len(),
            r@ == lowered(cs@).take(i as int),
        decreases cs@.len() - i,
    {
        r.push(to_lower_char(cs[i]));
        assert(lowered(cs@).take(i + 1) =~= lowered(cs@).take(i as int).push(lower_char(cs@[i as int])));
        i += 1;
    }
    assert(lowered(cs@).take(i as int) =~= lowered(cs@));
    r
}

/// The text with its ASCII letters in upper case.
pub fn to_ascii_uppercase(s: &str) -> (r: String)
    ensures
        r@ == uppered(s@),
{
    let cs = chars_of(s);
    let mut r = String::new();
    let mut i: usize = 0;
    while i < cs.len()
        invariant
            i <= cs@.len(),
            r@ == uppered(cs@).take(i as int),
        decreases cs@.len() - i,
    {
        r.push(to_upper_char(cs[i]));
        assert(uppered(cs@).take(i + 1) =~= uppered(cs@).take(i as int).push(upper_char(cs@[i as int])));
        i += 1;
    }
    assert(uppered(cs@).take(i as int) =~= uppered(cs@));
    r
}

/// Whether two texts differ at most in the case of ASCII letters.
pub fn eq_ignore_ascii_case(a: &str, b: &str) -> (r: bool)
    ensures
        r == (lowered(a@) == lowered(b@)),
{
    let x = to_ascii_lowercase(a);
    let y = to_ascii_lowercase(b);
    x == y
}

/// Whether the needle stands in the text at the place.
pub open spec fn stands_at(s: Seq<char>, needle: Seq<char>, i: int) -> bool {
    0 <= i && i + needle.len() <= s.len() && s.subrange(i, i + needle.len()) == needle
}

/// Whether the text holds the needle.
pub open spec fn holds_text(s: Seq<char>, needle: Seq<char>) -> bool {
    exists|i: int| stands_at(s, needle, i)
}

fn at_place(s: &[char], needle: &[char], i: usize) -> (r: bool)
    ensures
        r == stands_at(s@, needle@, i as int),
{
    if needle.len() > s.len() || i > s.len() - needle.len() {
        return false;
    }
    let mut k: usize = 0;
    while k < needle.len()
        invariant
            k <= needle@.len(),
            i + needle@.len() <= s@.len() <= usize::MAX,
            forall|j: int| 0 <= j < k ==> s@[i + j] == needle@[j],
        decreases needle@.len() - k,
    {
        if s[i + k] != needle[k] {
            assert(s@.subrange(i as int, i + needle@.len())[k as int] != needle@[k as int]);
            return false;
        }
        k += 1;
    }
    assert(s@.subrange(i as int, i + needle@.len()) =~= needle@);
    true
}

/// Whether the text holds the needle.
pub fn contains_text(s: &str, needle: &str) -> (r: bool)
    ensures
        r == holds_text(s@, needle@),
{
    let a = chars_of(s);
    let b = chars_of(needle);
    if b.len() > a.len() {
        return false;
    }
    let mut i: usize = 0;
    while i <= a.len() - b.len()
        invariant
            i <= a@.len() - b@.len() + 1,
            b@.len() <= a@.len(),
            a@ == s@,
            b@ == needle@,
            forall|j: int| 0 <= j < i ==> !stands_at(s@, needle@, j),
        decreases a@.len() - b@.len() + 1 - i,
    {
        if at_place(a.as_slice(), b.as_slice(), i) {
            return true;
        }
        if i == a.len() - b.len() {
            return false;
        }
        i += 1;
    }
    false
}

/// Whether the text starts with the prefix.
pub fn starts_with(s: &str, prefix: &str) -> (r: bool)
    ensures
        r == stands_at(s@, prefix@, 0),
{
    at_place(chars_of(s).as_slice(), chars_of(prefix).as_slice(), 0)
}

/// What follows the prefix.
pub fn strip_prefix(s: &str, prefix: &str) -> (r: Option<String>)
    ensures
        r is Some <==> stands_at(s@, prefix@, 0),
        r matches Some(t) ==> t@ == s@.skip(prefix@.len() as int),
{
    let a = chars_of(s);
    let b = chars_of(prefix);
    if at_place(a.as_slice(), b.as_slice(), 0) {
        Some(text_range(a.as_slice(), b.len(), a.len()))
    } else {
        None
    }
}

/// The text between two places.
pub fn text_range(cs: &[char], from: usize, to: usize) -> (r: String)
    requires
        from <= to <= cs@.len(),
    ensures
        r@ == cs@.subrange(from as int, to as int),
        from == 0 ==> r@ == cs@.take(to as int),
        to == cs@.len() ==> r@ == cs@.skip(from as int),
{
    let mut r = String::new();
    let mut i: usize = from;
    while i < to
        invariant
            from <= i <= to <= cs@.len(),
            r@ == cs@.subrange(from as int, i as int),
        decreases to - i,
    {
        assert(cs@.subrange(from as int, i + 1) =~= cs@.subrange(from as int, i as int).push(
            cs@[i as int],
        ));
        r.push(cs[i]);
        i += 1;
    }
    assert(from == 0 ==> r@ =~= cs@.take(to as int));
    assert(to == cs@.len() ==> r@ =~= cs@.skip(from as int));
    r
}

/// Whether a character is white space.
pub open spec fn is_white(c: char) -> bool {
    let n = c as u32;
    9 <= n <= 13 || n == 32 || n == 0x85 || n == 0xA0 || n == 0x1680 || 0x2000 <= n <= 0x200A || n
        == 0x2028 || n == 0x2029 || n == 0x202F || n == 0x205F || n == 0x3000
}

fn white(c: char) -> (r: bool)
    ensures
        r == is_white(c),
{
    let n: u32 = c as u32;
    (9 <= n && n <= 13) || n == 32 || n == 0x85 || n == 0xA0 || n == 0x1680 || (0x2000 <= n && n
        <= 0x200A) || n == 0x2028 || n == 0x2029 || n == 0x202F || n == 0x205F || n == 0x3000
}

/// The text from its first character that is not white space.
pub open spec fn skip_white(s: Seq<char>) -> Seq<char>
    decreases s.len(),
{
    if s.len() > 0 && is_white(s[0]) {
        skip_white(s.drop_first())
    } else {
        s
    }
}

/// The text up to its last character that is not white space.
pub open spec fn drop_white(s: Seq<char>) -> Seq<char>
    decreases s.len(),
{
    if s.len() > 0 && is_white(s.last()) {
        drop_white(s.drop_last())
    } else {
        s
    }
}

/// The text without white space at either end.
pub open spec fn trimmed(s: Seq<char>) -> Seq<char> {
    drop_white(skip_white(s))
}

fn first_solid(cs: &[char], from: usize) -> (r: usize)
    requires
        from <= cs@.len(),
    ensures
        from <= r <= cs@.len(),
        r < cs@.len() ==> !is_white(cs@[r as int]),
        skip_white(cs@.skip(from as int)) == cs@.skip(r as int),
{
    let mut i: usize = from;
    while i < cs.len() && white(cs[i])
        invariant
            from <= i <= cs@.len(),
            skip_white(cs@.skip(from as int)) == skip_white(cs@.skip(i as int)),
        decreases cs@.len() - i,
    {
        assert(cs@.skip(i as int).drop_first() =~= cs@.skip(i + 1));
        i += 1;
    }
    i
}

/// The text without white space at either end.
pub fn trim(s: &str) -> (r: String)
    ensures
        r@ == trimmed(s@),
{
    let cs = chars_of(s);
    assert(cs@.skip(0) =~= cs@);
    let from: usize = first_solid(cs.as_slice(), 0);
    let mut to: usize = cs.len();
    assert(cs@.subrange(from as int, to as int) =~= cs@.skip(from as int));
    while to > from && white(cs[to - 1])
        invariant
            from <= to <= cs@.len(),
            drop_white(cs@.skip(from as int)) == drop_white(cs@.subrange(from as int, to as int)),
        decreases to,
    {
        assert(cs@.subrange(from as int, to as int).drop_last() =~= cs@.subrange(
            from as int,
            to - 1,
        ));
        to -= 1;
    }
    text_range(cs.as_slice(), from, to)
}

/// The first place of the character, or the length where it does not occur.
pub open spec fn find_char(s: Seq<char>, c: char) -> int
    decreases s.len(),
{
    if s.len() == 0 || s[0] == c {
        0
    } else {
        1 + find_char(s.drop_first(), c)
    }
}

pub proof fn lemma_find_char(s: Seq<char>, c: char, i: int)
    requires
        0 <= i <= s.len(),
        forall|j: int| 0 <= j < i ==> s[j] != c,
        i == s.len() || s[i] == c,
    ensures
        find_char(s, c) == i,
    decreases s.len(),
{
    if i > 0 {
        let t = s.drop_first();
        assert(forall|j: int| 0 <= j < i - 1 ==> t[j] == s[j + 1]);
        lemma_find_char(t, c, i - 1);
    }
}

/// The place of the character at or behind a place, or the length.
fn find_from(cs: &[char], c: char, from: usize) -> (r: usize)
    requires
        from <= cs@.len(),
    ensures
        from <= r <= cs@.len(),
        r - from == find_char(cs@.skip(from as int), c),
        r < cs@.len() ==> cs@[r as int] == c,
        forall|j: int| from <= j < r ==> cs@[j] != c,
{
    let mut i: usize = from;
    while i < cs.len() && cs[i] != c
        invariant
            from <= i <= cs@.len(),
            forall|j: int| from <= j < i ==> cs@[j] != c,
        decreases cs@.len() - i,
    {
        i += 1;
    }
    proof {
        lemma_find_char(cs@.skip(from as int), c, i - from);
    }
    i
}

/// What stands before and behind the first place of the character.
pub open spec fn cut(s: Seq<char>, c: char) -> Option<(Seq<char>, Seq<char>)> {
    let i = find_char(s, c);
    if i < s.len() {
        Some((s.take(i), s.skip(i + 1)))
    } else {
        None
    }
}

/// What stands before and behind the first place of the character.
pub fn split_once(s: &str, c: char) -> (r: Option<(String, String)>)
    ensures
        match r {
            Some((a, b)) => cut(s@, c) == Some((a@, b@)),
            None => cut(s@, c) is None,
        },
{
    let cs = chars_of(s);
    assert(cs@.skip(0) =~= cs@);
    let i: usize = find_from(cs.as_slice(), c, 0);
    if i < cs.len() {
        Some((text_range(cs.as_slice(), 0, i), text_range(cs.as_slice(), i + 1, cs.len())))
    } else {
        None
    }
}

/// The pieces of a text between the places of a character.
pub open spec fn pieces(s: Seq<char>, c: char) -> Seq<Seq<char>>
    decreases s.len(),
{
    let i = find_char(s, c);
    if 0 <= i < s.len() {
        seq![s.take(i)] + pieces(s.skip(i + 1), c)
    } else {
        seq![s]
    }
}

/// The pieces of a text between the places of a character.
pub fn split(s: &str, c: char) -> (r: Vec<String>)
    ensures
        views(r@) == pieces(s@, c),
{
    let cs = chars_of(s);
    let mut r: Vec<String> = Vec::new();
    let mut from: usize = 0;
    assert(cs@.skip(0) =~= cs@);
    assert(views(r@) + pieces(cs@, c) =~= pieces(cs@, c));
    loop
        invariant
            from <= cs@.len(),
            cs@ == s@,
            pieces(s@, c) == views(r@) + pieces(cs@.skip(from as int), c),
        decreases cs@.len() - from,
    {
        let i: usize = find_from(cs.as_slice(), c, from);
        let ghost tail = cs@.skip(from as int);
        let ghost before = views(r@);
        let piece = text_range(cs.as_slice(), from, i);
        assert(piece@ =~= tail.take(i - from));
        r.push(piece);
        assert(views(r@) =~= before.push(piece@));
        if i == cs.len() {
            assert(tail.take(i - from) =~= tail);
            assert(before + seq![tail] =~= before.push(tail));
            return r;
        }
        assert(tail.skip(i - from + 1) =~= cs@.skip(i + 1));
        assert(before + (seq![piece@] + pieces(cs@.skip(i + 1), c)) =~= before.push(piece@) + pieces(
            cs@.skip(i + 1),
            c,
        ));
        from = i + 1;
    }
}

/// A line without the carriage return before its end.
pub open spec fn chomped(s: Seq<char>) -> Seq<char> {
    if s.len() > 0 && s.last() == '\r' {
        s.drop_last()
    } else {
        s
    }
}

/// The lines of a text. A line feed ends a line, and a carriage return before it
/// goes with it.
pub open spec fn line_seq(s: Seq<char>) -> Seq<Seq<char>>
    decreases s.len(),
{
    let i = find_char(s, '\n');
    if s.len() == 0 {
        Seq::empty()
    } else if 0 <= i < s.len() {
        seq![chomped(s.take(i))] + line_seq(s.skip(i + 1))
    } else {
        seq![s]
    }
}

/// The lines of a text.
pub fn lines(s: &str) -> (r: Vec<String>)
    ensures
        views(r@) == line_seq(s@),
{
    let cs = chars_of(s);
    let mut r: Vec<String> = Vec::new();
    let mut from: usize = 0;
    assert(cs@.skip(0) =~= cs@);
    assert(views(r@) + line_seq(cs@) =~= line_seq(cs@));
    while from < cs.len()
        invariant
            from <= cs@.len(),
            cs@ == s@,
            line_seq(s@) == views(r@) + line_seq(cs@.skip(from as int)),
        decreases cs@.len() - from,
    {
        let i: usize = find_from(cs.as_slice(), '\n', from);
        let ghost tail = cs@.skip(from as int);
        let ghost before = views(r@);
        if i == cs.len() {
            let piece = text_range(cs.as_slice(), from, i);
            r.push(piece);
            assert(views(r@) =~= before.push(tail));
            assert(before + seq![tail] =~= before.push(tail));
            return r;
        }
        let end: usize = if i > from && cs[i - 1] == '\r' {
            i - 1
        } else {
            i
        };
        let piece = text_range(cs.as_slice(), from, end);
        assert(piece@ =~= chomped(tail.take(i - from)));
        r.push(piece);
        assert(views(r@) =~= before.push(piece@));
        assert(tail.skip(i - from + 1) =~= cs@.skip(i + 1));
        assert(before + (seq![piece@] + line_seq(cs@.skip(i + 1))) =~= before.push(piece@)
            + line_seq(cs@.skip(i + 1)));
        from = i + 1;
    }
    assert(cs@.skip(from as int).len() == 0);
    assert(views(r@) + Seq::<Seq<char>>::empty() =~= views(r@));
    r
}

/// The first place of white space, or the length.
pub open spec fn find_white(s: Seq<char>) -> int
    decreases s.len(),
{
    if s.len() == 0 || is_white(s[0]) {
        0
    } else {
        1 + find_white(s.drop_first())
    }
}

pub(crate) proof fn lemma_find_white(s: Seq<char>, i: int)
    requires
        0 <= i <= s.len(),
        forall|j: int| 0 <= j < i ==> !is_white(s[j]),
        i == s.len() || is_white(s[i]),
    ensures
        find_white(s) == i,
    decreases s.len(),
{
    if i > 0 {
        let t = s.drop_first();
        assert(forall|j: int| 0 <= j < i - 1 ==> t[j] == s[j + 1]);
        lemma_find_white(t, i - 1);
    }
}

proof fn lemma_skip_white_len(s: Seq<char>)
    ensures
        skip_white(s).len() <= s.len(),
    decreases s.len(),
{
    if s.len() > 0 && is_white(s[0]) {
        lemma_skip_white_len(s.drop_first());
    }
}

/// The words of a text between white space.
pub open spec fn word_seq(s: Seq<char>) -> Seq<Seq<char>>
    decreases s.len(),
    via word_seq_shrinks
{
    let t = skip_white(s);
    let i = find_white(t);
    if t.len() == 0 || i <= 0 || i > t.len() {
        Seq::empty()
    } else {
        seq![t.take(i)] + word_seq(t.skip(i))
    }
}

#[via_fn]
proof fn word_seq_shrinks(s: Seq<char>) {
    lemma_skip_white_len(s);
}

/// The words of a text between white space.
pub fn split_whitespace(s: &str) -> (r: Vec<String>)
    ensures
        views(r@) == word_seq(s@),
{
    let cs = chars_of(s);
    let mut r: Vec<String> = Vec::new();
    let mut from: usize = 0;
    assert(cs@.skip(0) =~= cs@);
    assert(views(r@) + word_seq(cs@) =~= word_seq(cs@));
    loop
        invariant
            from <= cs@.len(),
            cs@ == s@,
            word_seq(s@) == views(r@) + word_seq(cs@.skip(from as int)),
        decreases cs@.len() - from,
    {
        let start: usize = first_solid(cs.as_slice(), from);
        if start == cs.len() {
            assert(cs@.skip(start as int).len() == 0);
            assert(word_seq(cs@.skip(from as int)) =~= Seq::<Seq<char>>::empty());
            assert(views(r@) + Seq::<Seq<char>>::empty() =~= views(r@));
            return r;
        }
        let mut end: usize = start;
        while end < cs.len() && !white(cs[end])
            invariant
                start <= end <= cs@.len(),
                start < cs@.len(),
                end == start ==> !is_white(cs@[start as int]),
                forall|j: int| start <= j < end ==> !is_white(cs@[j]),
            decreases cs@.len() - end,
        {
            end += 1;
        }
        let ghost t = cs@.skip(start as int);
        proof {
            lemma_find_white(t, end - start);
        }
        let ghost before = views(r@);
        let piece = text_range(cs.as_slice(), start, end);
        assert(piece@ =~= t.take(end - start));
        r.push(piece);
        assert(views(r@) =~= before.push(piece@));
        assert(t.skip(end - start) =~= cs@.skip(end as int));
        assert(before + (seq![piece@] + word_seq(cs@.skip(end as int))) =~= before.push(piece@)
            + word_seq(cs@.skip(end as int)));
        from = end;
    }
}

/// The texts one after the other, with a separator between them.
pub open spec fn joined(parts: Seq<Seq<char>>, sep: Seq<char>) -> Seq<char>
    decreases parts.len(),
{
    if parts.len() == 0 {
        Seq::empty()
    } else if parts.len() == 1 {
        parts[0]
    } else {
        joined(parts.drop_last(), sep) + sep + parts.last()
    }
}

/// The texts one after the other, with a separator between them.
pub fn join(parts: &Vec<String>, sep: &str) -> (r: String)
    ensures
        r@ == joined(views(parts@), sep@),
{
    let mut r = String::new();
    let mut i: usize = 0;
    while i < parts.len()
        invariant
            i <= parts@.len(),
            r@ == joined(views(parts@).take(i as int), sep@),
        decreases parts@.len() - i,
    {
        let ghost v = views(parts@);
        assert(v.take(i + 1).drop_last() =~= v.take(i as int));
        assert(v.take(i + 1).last() == parts@[i as int]@);
        if i > 0 {
            r.push_str(sep);
        } else {
            assert(v.take(1)[0] == parts@[0]@);
        }
        let ghost with_sep = r@;
        r.push_str(parts[i].as_str());
        assert(i == 0 ==> with_sep =~= Seq::<char>::empty());
        assert(i == 0 ==> r@ =~= parts@[0]@);
        i += 1;
    }
    assert(views(parts@).take(i as int) =~= views(parts@));
    r
}

/// Whether one text comes before another, by their characters.
pub open spec fn text_less(a: Seq<char>, b: Seq<char>) -> bool
    decreases a.len(),
{
    if b.len() == 0 {
        false
    } else if a.len() == 0 {
        true
    } else if a[0] != b[0] {
        a[0] < b[0]
    } else {
        text_less(a.drop_first(), b.drop_first())
    }
}

/// Of two different texts one comes before the other, and not both.
pub proof fn lemma_text_less_total(a: Seq<char>, b: Seq<char>)
    ensures
        !(text_less(a, b) && text_less(b, a)),
        a == b ==> !text_less(a, b),
        !text_less(a, b) && !text_less(b, a) ==> a == b,
    decreases a.len(),
{
    if a.len() > 0 && b.len() > 0 {
        lemma_text_less_total(a.drop_first(), b.drop_first());
        if a[0] == b[0] && a.drop_first() == b.drop_first() {
            assert(a =~= seq![a[0]] + a.drop_first());
            assert(b =~= seq![b[0]] + b.drop_first());
        }
    } else if a.len() == 0 && b.len() == 0 {
        assert(a =~= b);
    }
}

pub proof fn lemma_text_less_transitive(a: Seq<char>, b: Seq<char>, c: Seq<char>)
    requires
        text_less(a, b),
        text_less(b, c),
    ensures
        text_less(a, c),
    decreases a.len(),
{
    if a.len() > 0 && b.len() > 0 && c.len() > 0 && a[0] == b[0] && b[0] == c[0] {
        lemma_text_less_transitive(a.drop_first(), b.drop_first(), c.drop_first());
    }
}

/// Whether one text comes before another.
pub fn less(a: &str, b: &str) -> (r: bool)
    ensures
        r == text_less(a@, b@),
{
    let x = chars_of(a);
    let y = chars_of(b);
    let mut i: usize = 0;
    assert(x@.skip(0) =~= x@);
    assert(y@.skip(0) =~= y@);
    while i < x.len() && i < y.len() && x[i] == y[i]
        invariant
            i <= x@.len(),
            i <= y@.len(),
            x@ == a@,
            y@ == b@,
            text_less(a@, b@) == text_less(x@.skip(i as int), y@.skip(i as int)),
        decreases x@.len() - i,
    {
        assert(x@.skip(i as int).drop_first() =~= x@.skip(i + 1));
        assert(y@.skip(i as int).drop_first() =~= y@.skip(i + 1));
        i += 1;
    }
    if i == y.len() {
        false
    } else if i == x.len() {
        true
    } else {
        x[i] < y[i]
    }
}

} // verus!
