//! Text as sequences of characters: classes of characters, trimming, splitting,
//! matching, ordering, and decimal numbers.
//!
//! The executable functions work on `&[char]`; [`chars_of`] and [`text_of`] convert
//! from and to strings.

use vstd::prelude::*;
use vstd::utf8::encode_utf8;

verus! {

/// `String::push`: appends one character to the end of the string.
pub assume_specification[ String::push ](s: &mut String, c: char)
    ensures
        final(s)@ == old(s)@.push(c),
;

/// The views of a sequence of strings.
pub open spec fn views(s: Seq<String>) -> Seq<Seq<char>> {
    s.map_values(|t: String| t@)
}

/// The views of a sequence of character vectors.
pub open spec fn char_views(s: Seq<Vec<char>>) -> Seq<Seq<char>> {
    s.map_values(|t: Vec<char>| t@)
}

/// The view of an optional string.
pub open spec fn opt_view(s: Option<String>) -> Option<Seq<char>> {
    match s {
        Some(t) => Some(t@),
        None => None,
    }
}

/// The number of bytes that a text takes in UTF-8.
pub open spec fn byte_len(s: Seq<char>) -> nat {
    encode_utf8(s).len()
}

// ---------------------------------------------------------------------------
// Classes of characters
// ---------------------------------------------------------------------------

/// Unicode's White_Space property.
pub open spec fn is_whitespace(c: char) -> bool {
    let n = c as int;
    ||| 0x09 <= n <= 0x0d
    ||| n == 0x20
    ||| n == 0x85
    ||| n == 0xa0
    ||| n == 0x1680
    ||| 0x2000 <= n <= 0x200a
    ||| n == 0x2028
    ||| n == 0x2029
    ||| n == 0x202f
    ||| n == 0x205f
    ||| n == 0x3000
}

/// Unicode's general category Cc.
pub open spec fn is_control(c: char) -> bool {
    let n = c as int;
    n <= 0x1f || 0x7f <= n <= 0x9f
}

pub open spec fn is_digit(c: char) -> bool {
    '0' <= c <= '9'
}

pub open spec fn is_alphanumeric(c: char) -> bool {
    is_digit(c) || 'a' <= c <= 'z' || 'A' <= c <= 'Z'
}

/// The code point of a character.
pub fn code_point(c: char) -> (r: u32)
    ensures
        r == c as int,
{
    c as u32
}

/// Whether `c` is a Unicode white space character.
pub fn char_is_whitespace(c: char) -> (r: bool)
    ensures
        r == is_whitespace(c),
{
    let n: u32 = c as u32;
    (0x09 <= n && n <= 0x0d) || n == 0x20 || n == 0x85 || n == 0xa0 || n == 0x1680 || (0x2000 <= n
        && n <= 0x200a) || n == 0x2028 || n == 0x2029 || n == 0x202f || n == 0x205f || n == 0x3000
}

/// Whether `c` is a control character.
pub fn char_is_control(c: char) -> (r: bool)
    ensures
        r == is_control(c),
{
    let n: u32 = c as u32;
    n <= 0x1f || (0x7f <= n && n <= 0x9f)
}

/// Whether `c` is an ASCII digit.
pub fn char_is_digit(c: char) -> (r: bool)
    ensures
        r == is_digit(c),
{
    let n: u32 = c as u32;
    0x30 <= n && n <= 0x39
}

/// Whether `c` is an ASCII letter or digit.
pub fn char_is_alphanumeric(c: char) -> (r: bool)
    ensures
        r == is_alphanumeric(c),
{
    let n: u32 = c as u32;
    (0x30 <= n && n <= 0x39) || (0x61 <= n && n <= 0x7a) || (0x41 <= n && n <= 0x5a)
}

/// A set of characters to trim, to split at or to search for.
#[derive(Clone, Copy)]
pub enum CharSet {
    Whitespace,
    One(char),
    Either(char, char),
    /// Comma, line feed, carriage return, tab.
    ListSeparators,
}

impl CharSet {
    pub open spec fn has(self, c: char) -> bool {
        match self {
            CharSet::Whitespace => is_whitespace(c),
            CharSet::One(a) => c == a,
            CharSet::Either(a, b) => c == a || c == b,
            CharSet::ListSeparators => c == ',' || c == '\n' || c == '\r' || c == '\t',
        }
    }

    /// Whether `c` is in the set.
    pub fn test(self, c: char) -> (r: bool)
        ensures
            r == self.has(c),
    {
        match self {
            CharSet::Whitespace => char_is_whitespace(c),
            CharSet::One(a) => c == a,
            CharSet::Either(a, b) => c == a || c == b,
            CharSet::ListSeparators => c == ',' || c == '\n' || c == '\r' || c == '\t',
        }
    }
}

// ---------------------------------------------------------------------------
// Conversions
// ---------------------------------------------------------------------------

/// The characters of a string.
pub fn chars_of(s: &str) -> (r: Vec<char>)
    ensures
        r@ == s@,
{
    let mut out: Vec<char> = Vec::new();
    for c in it: s.chars()
        invariant
            it.seq() == s@,
            out@ == s@.take(it.index()),
    {
        out.push(c);
    }
    assert(s@.take(s@.len() as int) == s@);
    out
}

/// The string of a slice of characters.
pub fn text_of(s: &[char]) -> (r: String)
    ensures
        r@ == s@,
{
    let mut out = String::new();
    for i in 0..s.len()
        invariant
            out@ == s@.take(i as int),
    {
        out.push(s[i]);
        assert(s@.take(i as int + 1) == s@.take(i as int).push(s@[i as int]));
    }
    assert(s@.take(s@.len() as int) == s@);
    out
}

/// Whether two strings hold the same text.
pub fn same_text(a: &str, b: &str) -> (r: bool)
    ensures
        r == (a@ == b@),
{
    let x = chars_of(a);
    let y = chars_of(b);
    same_chars(x.as_slice(), y.as_slice())
}

/// Whether two slices hold the same characters.
pub fn same_chars(a: &[char], b: &[char]) -> (r: bool)
    ensures
        r == (a@ == b@),
{
    if a.len() != b.len() {
        return false;
    }
    for i in 0..a.len()
        invariant
            a@.len() == b@.len(),
            forall|j: int| 0 <= j < i ==> a@[j] == b@[j],
    {
        if a[i] != b[i] {
            return false;
        }
    }
    assert(a@ =~= b@);
    true
}

/// Whether `list` holds the text `s`.
pub fn list_has(list: &Vec<String>, s: &str) -> (r: bool)
    ensures
        r == views(list@).contains(s@),
{
    for i in 0..list.len()
        invariant
            forall|j: int| 0 <= j < i ==> list@[j]@ != s@,
    {
        if same_text(list[i].as_str(), s) {
            assert(views(list@)[i as int] == s@);
            return true;
        }
    }
    assert forall|j: int| 0 <= j < views(list@).len() implies views(list@)[j] != s@ by {
        assert(views(list@)[j] == list@[j]@);
    }
    false
}

/// The characters from index `from` up to index `to`.
pub fn part(s: &[char], from: usize, to: usize) -> (r: &[char])
    requires
        from <= to <= s@.len(),
    ensures
        r@ == s@.subrange(from as int, to as int),
{
    vstd::slice::slice_subrange(s, from, to)
}

/// The number of bytes that `s` takes in UTF-8.
pub fn utf8_len(s: &str) -> (r: usize)
    ensures
        r == byte_len(s@),
{
    s.as_bytes().len()
}

// ---------------------------------------------------------------------------
// Trimming
// ---------------------------------------------------------------------------

/// `s` without the longest run of leading characters in `set`.
pub open spec fn drop_leading(s: Seq<char>, set: CharSet) -> Seq<char>
    decreases s.len(),
{
    if s.len() > 0 && set.has(s[0]) {
        drop_leading(s.skip(1), set)
    } else {
        s
    }
}

/// `s` without the longest run of trailing characters in `set`.
pub open spec fn drop_trailing(s: Seq<char>, set: CharSet) -> Seq<char>
    decreases s.len(),
{
    if s.len() > 0 && set.has(s.last()) {
        drop_trailing(s.drop_last(), set)
    } else {
        s
    }
}

/// `s` without leading and trailing white space.
pub open spec fn trim(s: Seq<char>) -> Seq<char> {
    drop_trailing(drop_leading(s, CharSet::Whitespace), CharSet::Whitespace)
}

/// `s` after every leading repetition of `prefix` is taken away.
pub open spec fn drop_prefixes(s: Seq<char>, prefix: Seq<char>) -> Seq<char>
    decreases s.len(),
{
    if prefix.len() > 0 && starts_with(s, prefix) {
        drop_prefixes(s.skip(prefix.len() as int), prefix)
    } else {
        s
    }
}

/// `s` without its leading characters in `set`.
pub fn without_leading(s: &[char], set: CharSet) -> (r: &[char])
    ensures
        r@ == drop_leading(s@, set),
{
    let mut k: usize = 0;
    assert(s@.skip(0) == s@);
    while k < s.len() && set.test(s[k])
        invariant
            k <= s@.len(),
            drop_leading(s@, set) == drop_leading(s@.skip(k as int), set),
        decreases s@.len() - k,
    {
        assert(s@.skip(k as int).skip(1) == s@.skip(k as int + 1));
        k = k + 1;
    }
    assert(s@.subrange(k as int, s@.len() as int) == s@.skip(k as int));
    part(s, k, s.len())
}

/// `s` without its trailing characters in `set`.
pub fn without_trailing(s: &[char], set: CharSet) -> (r: &[char])
    ensures
        r@ == drop_trailing(s@, set),
{
    let mut k: usize = s.len();
    assert(s@.take(k as int) == s@);
    while k > 0 && set.test(s[k - 1])
        invariant
            k <= s@.len(),
            drop_trailing(s@, set) == drop_trailing(s@.take(k as int), set),
        decreases k,
    {
        assert(s@.take(k as int).drop_last() == s@.take(k as int - 1));
        k = k - 1;
    }
    assert(s@.subrange(0, k as int) == s@.take(k as int));
    part(s, 0, k)
}

/// `s` without leading and trailing white space.
pub fn trimmed(s: &[char]) -> (r: &[char])
    ensures
        r@ == trim(s@),
{
    without_trailing(without_leading(s, CharSet::Whitespace), CharSet::Whitespace)
}

/// Whether the string holds nothing but white space.
pub fn is_blank(s: &str) -> (r: bool)
    ensures
        r == (trim(s@).len() == 0),
{
    let v = chars_of(s);
    trimmed(v.as_slice()).len() == 0
}

/// `s` after every leading repetition of `prefix` is taken away.
pub fn without_prefixes<'a>(s: &'a [char], prefix: &[char]) -> (r: &'a [char])
    ensures
        r@ == drop_prefixes(s@, prefix@),
{
    let mut k: usize = 0;
    assert(s@.skip(0) == s@);
    if prefix.len() > 0 {
        while begins_with(part(s, k, s.len()), prefix)
            invariant
                k <= s@.len(),
                prefix@.len() > 0,
                drop_prefixes(s@, prefix@) == drop_prefixes(s@.skip(k as int), prefix@),
            decreases s@.len() - k,
        {
            assert(s@.subrange(k as int, s@.len() as int) == s@.skip(k as int));
            assert(s@.skip(k as int).skip(prefix@.len() as int) == s@.skip(
                k as int + prefix@.len() as int,
            ));
            k = k + prefix.len();
        }
    }
    assert(s@.subrange(k as int, s@.len() as int) == s@.skip(k as int));
    part(s, k, s.len())
}

/// `s` after every leading repetition of the literal `prefix` is taken away.
pub fn without_text_prefixes<'a>(s: &'a [char], prefix: &str) -> (r: &'a [char])
    ensures
        r@ == drop_prefixes(s@, prefix@),
{
    let p = chars_of(prefix);
    without_prefixes(s, p.as_slice())
}

// ---------------------------------------------------------------------------
// Matching
// ---------------------------------------------------------------------------

pub open spec fn starts_with(s: Seq<char>, prefix: Seq<char>) -> bool {
    prefix.len() <= s.len() && s.take(prefix.len() as int) == prefix
}

pub open spec fn ends_with(s: Seq<char>, suffix: Seq<char>) -> bool {
    suffix.len() <= s.len() && s.skip(s.len() - suffix.len()) == suffix
}

/// `piece` stands in `s` at index `i`.
pub open spec fn has_at(s: Seq<char>, piece: Seq<char>, i: int) -> bool {
    0 <= i && i + piece.len() <= s.len() && s.subrange(i, i + piece.len()) == piece
}

pub open spec fn has_piece(s: Seq<char>, piece: Seq<char>) -> bool {
    exists|i: int| #[trigger] has_at(s, piece, i)
}

/// Whether `s` begins with `prefix`.
pub fn begins_with(s: &[char], prefix: &[char]) -> (r: bool)
    ensures
        r == starts_with(s@, prefix@),
{
    if prefix.len() > s.len() {
        return false;
    }
    assert(s@.subrange(0, prefix@.len() as int) == s@.take(prefix@.len() as int));
    same_chars(part(s, 0, prefix.len()), prefix)
}

/// Whether `s` finishes with `suffix`.
pub fn finishes_with(s: &[char], suffix: &[char]) -> (r: bool)
    ensures
        r == ends_with(s@, suffix@),
{
    if suffix.len() > s.len() {
        return false;
    }
    let from: usize = s.len() - suffix.len();
    assert(s@.subrange(from as int, s@.len() as int) == s@.skip(from as int));
    same_chars(part(s, from, s.len()), suffix)
}

/// Whether `s` begins with the literal `prefix`.
pub fn begins_with_text(s: &[char], prefix: &str) -> (r: bool)
    ensures
        r == starts_with(s@, prefix@),
{
    let p = chars_of(prefix);
    begins_with(s, p.as_slice())
}

/// Whether `s` holds `piece` anywhere.
pub fn holds_piece(s: &[char], piece: &[char]) -> (r: bool)
    ensures
        r == has_piece(s@, piece@),
{
    if piece.len() > s.len() {
        return false;
    }
    let n: usize = s.len();
    let mut i: usize = 0;
    while i < n - piece.len()
        invariant
            i <= n - piece@.len(),
            n == s@.len(),
            forall|j: int| 0 <= j < i ==> !has_at(s@, piece@, j),
        decreases n - i,
    {
        if same_chars(part(s, i, i + piece.len()), piece) {
            assert(has_at(s@, piece@, i as int));
            return true;
        }
        i = i + 1;
    }
    let r = same_chars(part(s, i, n), piece);
    assert(r == has_at(s@, piece@, i as int));
    r
}

// ---------------------------------------------------------------------------
// Splitting
// ---------------------------------------------------------------------------

/// The pieces of `s` between the characters in `set`, in order. There is one piece more
/// than there are such characters; pieces may be empty.
pub open spec fn split(s: Seq<char>, set: CharSet) -> Seq<Seq<char>>
    decreases s.len(),
{
    if s.len() == 0 {
        seq![Seq::empty()]
    } else {
        let before = split(s.drop_last(), set);
        if set.has(s.last()) {
            before.push(Seq::empty())
        } else {
            before.drop_last().push(before.last().push(s.last()))
        }
    }
}

/// The pieces that are not empty, in order.
pub open spec fn non_empty(pieces: Seq<Seq<char>>) -> Seq<Seq<char>> {
    pieces.filter(|p: Seq<char>| p.len() > 0)
}

/// The words of `s`: the runs of characters that are not white space.
pub open spec fn words(s: Seq<char>) -> Seq<Seq<char>> {
    non_empty(split(s, CharSet::Whitespace))
}

/// One line without the carriage return that may end it.
pub open spec fn strip_return(s: Seq<char>) -> Seq<char> {
    if s.len() > 0 && s.last() == '\r' {
        s.drop_last()
    } else {
        s
    }
}

/// The lines of `s`. A line feed ends a line, the last one may go without; a carriage return
/// directly before a line feed is no part of the line.
pub open spec fn lines(s: Seq<char>) -> Seq<Seq<char>> {
    let pieces = split(s, CharSet::One('\n'));
    let closed = pieces.drop_last().map_values(|p: Seq<char>| strip_return(p));
    if pieces.last().len() == 0 {
        closed
    } else {
        closed.push(pieces.last())
    }
}

pub proof fn lemma_split_len(s: Seq<char>, set: CharSet)
    ensures
        split(s, set).len() >= 1,
    decreases s.len(),
{
    if s.len() > 0 {
        lemma_split_len(s.drop_last(), set);
    }
}

/// No piece of a split holds a character of the set.
pub proof fn lemma_split_free(s: Seq<char>, set: CharSet)
    ensures
        forall|i: int, j: int|
            0 <= i < split(s, set).len() && 0 <= j < (#[trigger] split(s, set)[i]).len()
                ==> !set.has(#[trigger] split(s, set)[i][j]),
    decreases s.len(),
{
    if s.len() > 0 {
        lemma_split_len(s.drop_last(), set);
        lemma_split_free(s.drop_last(), set);
        let before = split(s.drop_last(), set);
        let after = split(s, set);
        assert forall|i: int, j: int|
            0 <= i < after.len() && 0 <= j < (#[trigger] after[i]).len() implies !set.has(
            #[trigger] after[i][j],
        ) by {
            if i < before.len() - 1 {
                assert(after[i] == before[i]);
                assert(!set.has(before[i][j]));
            } else if !set.has(s.last()) {
                let b = before.last();
                if j < b.len() {
                    assert(after[i][j] == before[before.len() - 1][j]);
                }
            } else if i == before.len() - 1 {
                assert(after[i] == before[i]);
                assert(!set.has(before[i][j]));
            }
        }
    }
}

/// A text without a character of the set is one piece.
pub proof fn lemma_split_whole(s: Seq<char>, set: CharSet)
    requires
        forall|i: int| 0 <= i < s.len() ==> !set.has(#[trigger] s[i]),
    ensures
        split(s, set) == seq![s],
    decreases s.len(),
{
    if s.len() > 0 {
        lemma_split_whole(s.drop_last(), set);
        let before = split(s.drop_last(), set);
        assert(!set.has(s[s.len() - 1]));
        assert(before.last().push(s.last()) =~= s);
        assert(before.drop_last().push(s) =~= seq![s]);
    } else {
        assert(s =~= Seq::<char>::empty());
    }
}

/// The first piece is the text up to the first character of the set.
pub proof fn lemma_split_first(s: Seq<char>, set: CharSet, k: int)
    requires
        0 <= k < s.len(),
        set.has(s[k]),
        forall|i: int| 0 <= i < k ==> !set.has(#[trigger] s[i]),
    ensures
        split(s, set).len() > 1,
        split(s, set)[0] == s.take(k),
    decreases s.len(),
{
    if k == s.len() - 1 {
        lemma_split_whole(s.drop_last(), set);
        assert(s.drop_last() =~= s.take(k));
    } else {
        lemma_split_first(s.drop_last(), set, k);
        assert(s.drop_last().take(k) =~= s.take(k));
    }
}

/// What stands after a character of the set, and holds none itself, is one more piece.
pub proof fn lemma_split_append(s: Seq<char>, c: char, piece: Seq<char>, set: CharSet)
    requires
        set.has(c),
        forall|i: int| 0 <= i < piece.len() ==> !set.has(#[trigger] piece[i]),
    ensures
        split(s.push(c) + piece, set) == split(s, set).push(piece),
    decreases piece.len(),
{
    let whole = s.push(c) + piece;
    if piece.len() == 0 {
        assert(whole =~= s.push(c));
        assert(whole.drop_last() =~= s);
        assert(piece =~= Seq::<char>::empty());
    } else {
        let before = piece.drop_last();
        assert(whole.drop_last() =~= s.push(c) + before);
        assert(!set.has(piece[piece.len() - 1]));
        lemma_split_append(s, c, before, set);
        let pieces = split(s, set).push(before);
        assert(pieces.drop_last() =~= split(s, set));
        assert(before.push(piece.last()) =~= piece);
    }
}

/// The pieces of a text hold only characters of the text.
pub proof fn lemma_split_chars(s: Seq<char>, set: CharSet, i: int, j: int)
    requires
        0 <= i < split(s, set).len(),
        0 <= j < split(s, set)[i].len(),
    ensures
        s.contains(split(s, set)[i][j]),
    decreases s.len(),
{
    if s.len() > 0 {
        let shorter = s.drop_last();
        let before = split(shorter, set);
        let after = split(s, set);
        lemma_split_len(shorter, set);
        if !set.has(s.last()) && i == before.len() - 1 && j == before.last().len() {
            assert(after[i][j] == s[s.len() - 1]);
        } else if i < before.len() {
            assert(after[i][j] == before[i][j]);
            lemma_split_chars(shorter, set, i, j);
            let k = choose|k: int| 0 <= k < shorter.len() && shorter[k] == before[i][j];
            assert(s[k] == after[i][j]);
        }
    }
}

/// A text that is trimmed does not begin with white space.
pub proof fn lemma_trim_first(s: Seq<char>)
    requires
        trim(s) == s,
        s.len() > 0,
    ensures
        !is_whitespace(s[0]),
{
    if is_whitespace(s[0]) {
        lemma_drop_leading_len(s.skip(1), CharSet::Whitespace);
        lemma_drop_trailing_len(drop_leading(s, CharSet::Whitespace), CharSet::Whitespace);
    }
}

proof fn lemma_drop_leading_len(s: Seq<char>, set: CharSet)
    ensures
        drop_leading(s, set).len() <= s.len(),
    decreases s.len(),
{
    if s.len() > 0 && set.has(s[0]) {
        lemma_drop_leading_len(s.skip(1), set);
    }
}

proof fn lemma_drop_trailing_len(s: Seq<char>, set: CharSet)
    ensures
        drop_trailing(s, set).len() <= s.len(),
    decreases s.len(),
{
    if s.len() > 0 && set.has(s.last()) {
        lemma_drop_trailing_len(s.drop_last(), set);
    }
}

/// The texts one after the other, with a blank between each and the next.
pub open spec fn joined(parts: Seq<Seq<char>>) -> Seq<char>
    decreases parts.len(),
{
    if parts.len() == 0 {
        Seq::empty()
    } else if parts.len() == 1 {
        parts[0]
    } else {
        joined(parts.drop_last()).push(' ') + parts.last()
    }
}

/// The text is one word: it is not empty and holds no white space.
pub open spec fn is_word(s: Seq<char>) -> bool {
    s.len() > 0 && forall|i: int| 0 <= i < s.len() ==> !is_whitespace(#[trigger] s[i])
}

/// Words that are joined are the words of the whole.
pub proof fn joined_words_are_read_back(parts: Seq<Seq<char>>)
    requires
        forall|i: int| 0 <= i < parts.len() ==> is_word(#[trigger] parts[i]),
    ensures
        words(joined(parts)) == parts,
{
    let set = CharSet::Whitespace;
    if parts.len() == 0 {
        let none = seq![Seq::<char>::empty()];
        assert(joined(parts) =~= Seq::<char>::empty());
        assert(none.drop_last() =~= Seq::<Seq<char>>::empty());
        reveal_with_fuel(Seq::filter, 2);
        assert(non_empty(none) =~= parts);
    } else {
        lemma_split_joined(parts);
        lemma_all_kept(parts);
    }
}

proof fn lemma_split_joined(parts: Seq<Seq<char>>)
    requires
        parts.len() > 0,
        forall|i: int| 0 <= i < parts.len() ==> is_word(#[trigger] parts[i]),
    ensures
        split(joined(parts), CharSet::Whitespace) == parts,
    decreases parts.len(),
{
    let set = CharSet::Whitespace;
    let last = parts[parts.len() - 1];
    assert(is_word(last));
    if parts.len() == 1 {
        lemma_split_whole(last, set);
        assert(seq![last] =~= parts);
    } else {
        let before = parts.drop_last();
        assert forall|i: int| 0 <= i < before.len() implies is_word(#[trigger] before[i]) by {
            assert(before[i] == parts[i]);
        }
        lemma_split_joined(before);
        lemma_split_append(joined(before), ' ', last, set);
        assert(before.push(last) =~= parts);
    }
}

proof fn lemma_all_kept(pieces: Seq<Seq<char>>)
    requires
        forall|i: int| 0 <= i < pieces.len() ==> is_word(#[trigger] pieces[i]),
    ensures
        non_empty(pieces) == pieces,
    decreases pieces.len(),
{
    reveal(Seq::filter);
    if pieces.len() > 0 {
        let before = pieces.drop_last();
        assert forall|i: int| 0 <= i < before.len() implies is_word(#[trigger] before[i]) by {
            assert(before[i] == pieces[i]);
        }
        lemma_all_kept(before);
        assert(is_word(pieces[pieces.len() - 1]));
        assert(before.push(pieces.last()) =~= pieces);
    } else {
        assert(non_empty(pieces) =~= pieces);
    }
}

/// The words of a text are words, and hold only characters of the text.
pub proof fn lemma_words(s: Seq<char>, i: int)
    requires
        0 <= i < words(s).len(),
    ensures
        is_word(words(s)[i]),
        forall|j: int| 0 <= j < words(s)[i].len() ==> s.contains(#[trigger] words(s)[i][j]),
{
    let set = CharSet::Whitespace;
    let pieces = split(s, set);
    lemma_kept_is_piece(pieces, i);
    lemma_split_free(s, set);
    let k = choose|k: int| 0 <= k < pieces.len() && pieces[k] == words(s)[i];
    assert forall|j: int| 0 <= j < words(s)[i].len() implies s.contains(
        #[trigger] words(s)[i][j],
    ) && !is_whitespace(words(s)[i][j]) by {
        lemma_split_chars(s, set, k, j);
        assert(!set.has(pieces[k][j]));
    }
}

proof fn lemma_kept_is_piece(pieces: Seq<Seq<char>>, i: int)
    requires
        0 <= i < non_empty(pieces).len(),
    ensures
        pieces.contains(non_empty(pieces)[i]),
        non_empty(pieces)[i].len() > 0,
    decreases pieces.len(),
{
    reveal(Seq::filter);
    if pieces.len() > 0 {
        let before = pieces.drop_last();
        let kept = non_empty(before);
        if i < kept.len() {
            lemma_kept_is_piece(before, i);
            let k = choose|k: int| 0 <= k < before.len() && before[k] == kept[i];
            assert(pieces[k] == kept[i]);
            assert(non_empty(pieces)[i] == kept[i]);
        } else {
            assert(pieces[pieces.len() - 1] == non_empty(pieces)[i]);
        }
    }
}

/// The pieces of `s` between the characters in `set`.
pub fn split_at_set(s: &[char], set: CharSet) -> (r: Vec<Vec<char>>)
    ensures
        char_views(r@) == split(s@, set),
{
    let mut out: Vec<Vec<char>> = Vec::new();
    let mut piece: Vec<char> = Vec::new();
    assert(char_views(out@).push(piece@) =~= split(s@.take(0), set));
    for i in 0..s.len()
        invariant
            char_views(out@).push(piece@) == split(s@.take(i as int), set),
    {
        let c = s[i];
        let ghost before = s@.take(i as int);
        let ghost after = s@.take(i as int + 1);
        assert(after.drop_last() == before);
        assert(after.last() == c);
        let ghost pieces = split(before, set);
        assert(pieces.drop_last() =~= char_views(out@));
        if set.test(c) {
            let ghost done = out@;
            let ghost last = piece@;
            out.push(piece);
            assert(char_views(out@) =~= char_views(done).push(last));
            piece = Vec::new();
        } else {
            piece.push(c);
        }
        assert(char_views(out@).push(piece@) =~= split(after, set));
    }
    assert(s@.take(s@.len() as int) == s@);
    let ghost done = out@;
    let ghost last = piece@;
    out.push(piece);
    assert(char_views(out@) =~= char_views(done).push(last));
    out
}

/// The first piece of a split.
pub fn first_piece(s: &[char], set: CharSet) -> (r: Vec<char>)
    ensures
        r@ == split(s@, set).first(),
{
    let pieces = split_at_set(s, set);
    proof {
        lemma_split_len(s@, set);
        assert(char_views(pieces@)[0] == pieces@[0]@);
    }
    copied(pieces[0].as_slice())
}

/// The last piece of a split.
pub fn last_piece(s: &[char], set: CharSet) -> (r: Vec<char>)
    ensures
        r@ == split(s@, set).last(),
{
    let pieces = split_at_set(s, set);
    proof {
        lemma_split_len(s@, set);
        assert(char_views(pieces@).last() == pieces@.last()@);
    }
    copied(pieces[pieces.len() - 1].as_slice())
}

/// The words of `s`.
pub fn words_of(s: &[char]) -> (r: Vec<Vec<char>>)
    ensures
        char_views(r@) == words(s@),
{
    let pieces = split_at_set(s, CharSet::Whitespace);
    keep_non_empty(pieces)
}

/// The pieces that are not empty.
pub fn keep_non_empty(pieces: Vec<Vec<char>>) -> (r: Vec<Vec<char>>)
    ensures
        char_views(r@) == non_empty(char_views(pieces@)),
{
    let ghost all = char_views(pieces@);
    let ghost keep = |p: Seq<char>| p.len() > 0;
    let mut out: Vec<Vec<char>> = Vec::new();
    assert(all.take(0).filter(keep) =~= Seq::<Seq<char>>::empty()) by {
        reveal(Seq::filter);
    }
    assert(char_views(out@) =~= all.take(0).filter(keep));
    for i in 0..pieces.len()
        invariant
            all == char_views(pieces@),
            keep == (|p: Seq<char>| p.len() > 0),
            char_views(out@) == all.take(i as int).filter(keep),
    {
        let piece = &pieces[i];
        let ghost before = out@;
        assert(all[i as int] == piece@);
        assert(all.take(i as int + 1).drop_last() =~= all.take(i as int));
        assert(all.take(i as int + 1).last() == piece@);
        if piece.len() > 0 {
            let copy = copied(piece.as_slice());
            out.push(copy);
            assert(char_views(out@) =~= char_views(before).push(piece@));
        }
        reveal(Seq::filter);
    }
    assert(all.take(all.len() as int) == all);
    out
}

/// A vector that holds the same characters.
pub fn copied(s: &[char]) -> (r: Vec<char>)
    ensures
        r@ == s@,
{
    let mut out: Vec<char> = Vec::new();
    for i in 0..s.len()
        invariant
            out@ == s@.take(i as int),
    {
        out.push(s[i]);
        assert(s@.take(i as int + 1) == s@.take(i as int).push(s@[i as int]));
    }
    assert(s@.take(s@.len() as int) == s@);
    out
}

/// The lines of `s`.
pub fn lines_of(s: &[char]) -> (r: Vec<Vec<char>>)
    ensures
        char_views(r@) == lines(s@),
{
    let pieces = split_at_set(s, CharSet::One('\n'));
    proof {
        lemma_split_len(s@, CharSet::One('\n'));
    }
    let ghost all = char_views(pieces@);
    let ghost closed = all.drop_last().map_values(|p: Seq<char>| strip_return(p));
    let mut out: Vec<Vec<char>> = Vec::new();
    let n: usize = pieces.len() - 1;
    assert(char_views(out@) =~= closed.take(0));
    for i in 0..n
        invariant
            n == pieces@.len() - 1,
            all == char_views(pieces@),
            closed == all.drop_last().map_values(|p: Seq<char>| strip_return(p)),
            char_views(out@) == closed.take(i as int),
    {
        let piece = pieces[i].as_slice();
        assert(all[i as int] == piece@);
        let k: usize = if piece.len() > 0 && piece[piece.len() - 1] == '\r' {
            piece.len() - 1
        } else {
            piece.len()
        };
        let line = copied(part(piece, 0, k));
        assert(line@ =~= strip_return(piece@));
        let ghost before = out@;
        out.push(line);
        assert(char_views(out@) =~= char_views(before).push(line@));
        assert(closed.take(i as int + 1) =~= closed.take(i as int).push(closed[i as int]));
    }
    assert(closed.take(n as int) =~= closed);
    let last = &pieces[n];
    assert(all.last() == last@);
    if last.len() > 0 {
        let line = copied(last.as_slice());
        let ghost before = out@;
        out.push(line);
        assert(char_views(out@) =~= char_views(before).push(line@));
    }
    out
}

// ---------------------------------------------------------------------------
// Case
// ---------------------------------------------------------------------------

pub open spec fn is_ascii(s: Seq<char>) -> bool {
    forall|i: int| 0 <= i < s.len() ==> (#[trigger] s[i] as int) < 128
}

pub open spec fn lower_char(c: char) -> char {
    if 'A' <= c <= 'Z' {
        (c as int + 32) as char
    } else {
        c
    }
}

/// `s` with the ASCII letters in lower case.
pub open spec fn ascii_lower(s: Seq<char>) -> Seq<char> {
    s.map_values(|c: char| lower_char(c))
}

/// `s` with the ASCII letters in lower case.
pub fn to_ascii_lower(s: &[char]) -> (r: Vec<char>)
    ensures
        r@ == ascii_lower(s@),
{
    let mut out: Vec<char> = Vec::new();
    for i in 0..s.len()
        invariant
            out@ == ascii_lower(s@).take(i as int),
    {
        let c = s[i];
        let n: u32 = c as u32;
        let d: char = if 0x41 <= n && n <= 0x5a {
            let low: u8 = n as u8;
            (low + 32) as char
        } else {
            c
        };
        out.push(d);
        assert(d == ascii_lower(s@)[i as int]);
        assert(ascii_lower(s@).take(i as int + 1) =~= ascii_lower(s@).take(i as int).push(d));
    }
    assert(ascii_lower(s@).take(s@.len() as int) =~= ascii_lower(s@));
    out
}

/// Whether every character is ASCII.
pub fn all_ascii(s: &[char]) -> (r: bool)
    ensures
        r == is_ascii(s@),
{
    for i in 0..s.len()
        invariant
            forall|j: int| 0 <= j < i ==> (#[trigger] s@[j] as int) < 128,
    {
        let c = s[i];
        if code_point(c) >= 128 {
            assert(!((s@[i as int] as int) < 128));
            return false;
        }
    }
    true
}

// ---------------------------------------------------------------------------
// Order
// ---------------------------------------------------------------------------

/// The order of strings: by the first character that differs, and a proper prefix comes first.
pub open spec fn text_before(a: Seq<char>, b: Seq<char>) -> bool
    decreases a.len(),
{
    if b.len() == 0 {
        false
    } else if a.len() == 0 {
        true
    } else if a[0] != b[0] {
        a[0] < b[0]
    } else {
        text_before(a.skip(1), b.skip(1))
    }
}

pub proof fn lemma_text_before_irreflexive(a: Seq<char>)
    ensures
        !text_before(a, a),
    decreases a.len(),
{
    if a.len() > 0 {
        lemma_text_before_irreflexive(a.skip(1));
    }
}

pub proof fn lemma_text_before_transitive(a: Seq<char>, b: Seq<char>, c: Seq<char>)
    requires
        text_before(a, b),
        text_before(b, c),
    ensures
        text_before(a, c),
    decreases a.len(),
{
    if a.len() > 0 && a[0] == b[0] && b[0] == c[0] {
        lemma_text_before_transitive(a.skip(1), b.skip(1), c.skip(1));
    }
}

pub proof fn lemma_text_before_total(a: Seq<char>, b: Seq<char>)
    ensures
        a == b || text_before(a, b) || text_before(b, a),
    decreases a.len(),
{
    if a.len() > 0 && b.len() > 0 && a[0] == b[0] {
        lemma_text_before_total(a.skip(1), b.skip(1));
        if a.skip(1) == b.skip(1) {
            assert(a =~= seq![a[0]] + a.skip(1));
            assert(b =~= seq![b[0]] + b.skip(1));
        }
    } else if a.len() == 0 && b.len() == 0 {
        assert(a =~= b);
    }
}

/// Whether `a` comes before `b` in the order of strings.
pub fn comes_before(a: &str, b: &str) -> (r: bool)
    ensures
        r == text_before(a@, b@),
{
    let x = chars_of(a);
    let y = chars_of(b);
    let mut i: usize = 0;
    assert(x@.skip(0) == x@ && y@.skip(0) == y@);
    while i < x.len() && i < y.len() && x[i] == y[i]
        invariant
            i <= x@.len(),
            i <= y@.len(),
            text_before(x@, y@) == text_before(x@.skip(i as int), y@.skip(i as int)),
        decreases x@.len() - i,
    {
        assert(x@.skip(i as int).skip(1) == x@.skip(i as int + 1));
        assert(y@.skip(i as int).skip(1) == y@.skip(i as int + 1));
        i = i + 1;
    }
    if i >= y.len() {
        false
    } else if i >= x.len() {
        true
    } else {
        let c = x[i];
        let d = y[i];
        code_point(c) < code_point(d)
    }
}

// ---------------------------------------------------------------------------
// Decimal numbers
// ---------------------------------------------------------------------------

pub open spec fn digit_char(d: int) -> char {
    (48 + d) as char
}

/// The decimal digits of a number, without leading zeros.
pub open spec fn decimal(n: nat) -> Seq<char>
    decreases n,
{
    if n < 10 {
        seq![digit_char(n as int)]
    } else {
        decimal(n / 10).push(digit_char((n % 10) as int))
    }
}

/// The number that a sequence of digits writes.
pub open spec fn digits_value(s: Seq<char>) -> nat
    decreases s.len(),
{
    if s.len() == 0 {
        0
    } else {
        10 * digits_value(s.drop_last()) + (s.last() as nat - 48) as nat
    }
}

pub open spec fn all_digits(s: Seq<char>) -> bool {
    forall|i: int| 0 <= i < s.len() ==> is_digit(#[trigger] s[i])
}

/// The number in a text of one or more digits, after an optional plus sign.
pub open spec fn unsigned_in(s: Seq<char>) -> Option<int> {
    let digits = if s.len() > 0 && s[0] == '+' {
        s.skip(1)
    } else {
        s
    };
    if digits.len() > 0 && all_digits(digits) {
        Some(digits_value(digits) as int)
    } else {
        None
    }
}

/// The number in a text of one or more digits, after an optional sign.
pub open spec fn signed_in(s: Seq<char>) -> Option<int> {
    if s.len() > 0 && s[0] == '-' {
        let digits = s.skip(1);
        if digits.len() > 0 && all_digits(digits) {
            Some(-(digits_value(digits) as int))
        } else {
            None
        }
    } else {
        unsigned_in(s)
    }
}

/// The value if it is one of `i64`.
pub open spec fn as_i64(v: Option<int>) -> Option<i64> {
    match v {
        Some(n) => if i64::MIN <= n <= i64::MAX {
            Some(n as i64)
        } else {
            None
        },
        None => None,
    }
}

/// The value if it is one of `u16`.
pub open spec fn as_u16(v: Option<int>) -> Option<u16> {
    match v {
        Some(n) => if 0 <= n <= u16::MAX {
            Some(n as u16)
        } else {
            None
        },
        None => None,
    }
}

/// The value if it is one of `u64`.
pub open spec fn as_u64(v: Option<int>) -> Option<u64> {
    match v {
        Some(n) => if 0 <= n <= u64::MAX {
            Some(n as u64)
        } else {
            None
        },
        None => None,
    }
}

proof fn lemma_digits_value_grows(s: Seq<char>, k: int)
    requires
        0 <= k <= s.len(),
    ensures
        digits_value(s.take(k)) <= digits_value(s),
    decreases s.len(),
{
    if k == s.len() {
        assert(s.take(k) == s);
    } else {
        lemma_digits_value_grows(s.drop_last(), k);
        assert(s.drop_last().take(k) == s.take(k));
    }
}

/// The number that the digits write, if there is at least one digit, there are only digits, and
/// the number is at most `limit`.
fn digits_up_to(s: &[char], limit: u64) -> (r: Option<u64>)
    ensures
        match r {
            Some(v) => s@.len() > 0 && all_digits(s@) && v == digits_value(s@) && v <= limit,
            None => !(s@.len() > 0 && all_digits(s@) && digits_value(s@) <= limit),
        },
{
    if s.len() == 0 {
        return None;
    }
    let mut v: u64 = 0;
    for i in 0..s.len()
        invariant
            v == digits_value(s@.take(i as int)),
            v <= limit,
            forall|j: int| 0 <= j < i ==> is_digit(#[trigger] s@[j]),
    {
        let c = s[i];
        if !char_is_digit(c) {
            assert(!is_digit(s@[i as int]));
            return None;
        }
        let d: u64 = (c as u32 - 48) as u64;
        let next: u128 = v as u128 * 10 + d as u128;
        proof {
            let after = s@.take(i as int + 1);
            assert(after.drop_last() == s@.take(i as int));
            assert(after.last() == c);
            assert(digits_value(after) == next);
            lemma_digits_value_grows(s@, i as int + 1);
        }
        if next > limit as u128 {
            return None;
        }
        v = next as u64;
    }
    assert(s@.take(s@.len() as int) == s@);
    Some(v)
}

/// Reads a text as `i64` does: an optional sign and decimal digits.
pub fn parse_i64(s: &[char]) -> (r: Option<i64>)
    ensures
        r == as_i64(signed_in(s@)),
{
    if s.len() > 0 && s[0] == '-' {
        let digits = part(s, 1, s.len());
        assert(digits@ == s@.skip(1));
        match digits_up_to(digits, 0x8000_0000_0000_0000) {
            Some(v) => if v == 0x8000_0000_0000_0000 {
                Some(i64::MIN)
            } else {
                Some(-(v as i64))
            },
            None => None,
        }
    } else {
        let from: usize = if s.len() > 0 && s[0] == '+' {
            1
        } else {
            0
        };
        let digits = part(s, from, s.len());
        assert(from == 1 ==> digits@ == s@.skip(1));
        assert(from == 0 ==> digits@ == s@);
        match digits_up_to(digits, 0x7fff_ffff_ffff_ffff) {
            Some(v) => Some(v as i64),
            None => None,
        }
    }
}

/// Reads a text as `u64` does: an optional plus sign and decimal digits.
pub fn parse_u64(s: &[char]) -> (r: Option<u64>)
    ensures
        r == as_u64(unsigned_in(s@)),
{
    let from: usize = if s.len() > 0 && s[0] == '+' {
        1
    } else {
        0
    };
    let digits = part(s, from, s.len());
    assert(from == 1 ==> digits@ == s@.skip(1));
    assert(from == 0 ==> digits@ == s@);
    digits_up_to(digits, u64::MAX)
}

/// Reads a text as `u16` does: an optional plus sign and decimal digits.
pub fn parse_u16(s: &[char]) -> (r: Option<u16>)
    ensures
        r == as_u16(unsigned_in(s@)),
{
    let from: usize = if s.len() > 0 && s[0] == '+' {
        1
    } else {
        0
    };
    let digits = part(s, from, s.len());
    assert(from == 1 ==> digits@ == s@.skip(1));
    assert(from == 0 ==> digits@ == s@);
    match digits_up_to(digits, 0xffff) {
        Some(v) => Some(v as u16),
        None => None,
    }
}

/// The decimal digits of a number.
pub fn decimal_text(n: u128) -> (r: String)
    ensures
        r@ == decimal(n as nat),
    decreases n,
{
    let mut out = if n < 10 {
        String::new()
    } else {
        decimal_text(n / 10)
    };
    let d: u8 = (n % 10) as u8;
    out.push((48 + d) as char);
    assert(n < 10 ==> out@ =~= seq![digit_char(n as int)]);
    out
}

// ---------------------------------------------------------------------------
// What holds of all texts
// ---------------------------------------------------------------------------

/// What is left after leading characters are dropped is the end of the text, from the first character
/// on that is not of the set.
pub proof fn leading_run_is_dropped(s: Seq<char>, set: CharSet) -> (k: int)
    ensures
        0 <= k <= s.len(),
        drop_leading(s, set) == s.skip(k),
        forall|i: int| 0 <= i < k ==> set.has(#[trigger] s[i]),
        k < s.len() ==> !set.has(s[k]),
    decreases s.len(),
{
    if s.len() > 0 && set.has(s[0]) {
        let rest = s.skip(1);
        let k = leading_run_is_dropped(rest, set);
        assert(rest.skip(k) =~= s.skip(k + 1));
        assert forall|i: int| 0 <= i < k + 1 implies set.has(#[trigger] s[i]) by {
            if i > 0 {
                assert(rest[i - 1] == s[i]);
            }
        }
        if k < rest.len() {
            assert(rest[k] == s[k + 1]);
        }
        k + 1
    } else {
        assert(s.skip(0) =~= s);
        0
    }
}

/// What is left after trailing characters are dropped is the beginning of the text, up to the last
/// character that is not of the set.
pub proof fn trailing_run_is_dropped(s: Seq<char>, set: CharSet) -> (k: int)
    ensures
        0 <= k <= s.len(),
        drop_trailing(s, set) == s.take(k),
        forall|i: int| k <= i < s.len() ==> set.has(#[trigger] s[i]),
        k > 0 ==> !set.has(s[k - 1]),
    decreases s.len(),
{
    if s.len() > 0 && set.has(s.last()) {
        let rest = s.drop_last();
        let k = trailing_run_is_dropped(rest, set);
        assert(rest.take(k) =~= s.take(k));
        assert forall|i: int| k <= i < s.len() implies set.has(#[trigger] s[i]) by {
            if i < rest.len() {
                assert(rest[i] == s[i]);
            }
        }
        k
    } else {
        assert(s.take(s.len() as int) =~= s);
        s.len() as int
    }
}

/// A text that is trimmed is what stands between its first and its last character that are not white
/// space; nothing is left of one that has no such character.
pub proof fn white_space_is_trimmed(s: Seq<char>) -> (r: (int, int))
    ensures
        0 <= r.0 <= r.1 <= s.len(),
        trim(s) == s.subrange(r.0, r.1),
        forall|i: int| 0 <= i < r.0 || r.1 <= i < s.len() ==> is_whitespace(#[trigger] s[i]),
        r.0 < r.1 ==> !is_whitespace(s[r.0]) && !is_whitespace(s[r.1 - 1]),
{
    let set = CharSet::Whitespace;
    let a = leading_run_is_dropped(s, set);
    let rest = s.skip(a);
    let k = trailing_run_is_dropped(rest, set);
    assert(rest.take(k) =~= s.subrange(a, a + k));
    assert forall|i: int| 0 <= i < a || a + k <= i < s.len() implies is_whitespace(#[trigger] s[i]) by {
        if i >= a + k {
            assert(rest[i - a] == s[i]);
        }
    }
    if k > 0 {
        assert(rest[k - 1] == s[a + k - 1]);
    }
    (a, a + k)
}

/// What is left after a prefix is dropped does not begin with it, and is the end of the text; a text
/// that does not begin with the prefix stays.
pub proof fn every_prefix_is_dropped(s: Seq<char>, prefix: Seq<char>)
    requires
        prefix.len() > 0,
    ensures
        !starts_with(drop_prefixes(s, prefix), prefix),
        ends_with(s, drop_prefixes(s, prefix)),
        drop_prefixes(prefix + s, prefix) == drop_prefixes(s, prefix),
        !starts_with(s, prefix) ==> drop_prefixes(s, prefix) == s,
    decreases s.len(),
{
    let whole = prefix + s;
    assert(whole.take(prefix.len() as int) =~= prefix);
    assert(whole.skip(prefix.len() as int) =~= s);
    if starts_with(s, prefix) {
        let rest = s.skip(prefix.len() as int);
        every_prefix_is_dropped(rest, prefix);
        let left = drop_prefixes(rest, prefix);
        assert(rest.skip(rest.len() - left.len()) =~= s.skip(s.len() - left.len()));
    } else {
        assert(s.skip(0) =~= s);
    }
}

/// A line feed ends a line: after a text of whole lines comes one more, without the carriage return
/// before the line feed. What stands after the last line feed is a line too, where there is
/// something.
pub proof fn one_more_line(s: Seq<char>, line: Seq<char>)
    requires
        s.len() == 0 || s.last() == '\n',
        forall|i: int| 0 <= i < line.len() ==> #[trigger] line[i] != '\n',
    ensures
        lines(Seq::empty()).len() == 0,
        lines(s + line.push('\n')) == lines(s).push(
            if line.len() > 0 && line.last() == '\r' {
                line.drop_last()
            } else {
                line
            },
        ),
        line.len() > 0 ==> lines(s + line) == lines(s).push(line),
{
    let set = CharSet::One('\n');
    let none = Seq::<char>::empty();
    assert(split(none, set) =~= seq![none]);
    let strip = |p: Seq<char>| strip_return(p);
    assert(seq![none].drop_last().map_values(strip) =~= Seq::<Seq<char>>::empty());
    lemma_split_len(s, set);
    let before = split(s, set);
    if s.len() == 0 {
        assert(s =~= none);
        lemma_split_whole(line, set);
        assert(s + line =~= line);
    } else {
        let head = s.drop_last();
        assert(head.push('\n') =~= s);
        lemma_split_append(head, '\n', line, set);
        lemma_split_append(head, '\n', none, set);
        assert(head.push('\n') + line =~= s + line);
        assert(head.push('\n') + none =~= s);
        assert(before =~= split(head, set).push(none));
    }
    let pieces = split(s + line, set);
    assert(before.last() == none);
    assert(pieces =~= before.drop_last().push(line));
    lemma_split_append(s + line, '\n', none, set);
    assert((s + line).push('\n') + none =~= s + line.push('\n'));
    let more = split(s + line.push('\n'), set);
    assert(more =~= pieces.push(none));
    assert(more.drop_last() =~= pieces);
    assert(pieces.map_values(strip) =~= before.drop_last().map_values(strip).push(
        strip_return(line),
    ));
    assert(pieces.drop_last() =~= before.drop_last());
    assert(lines(s) == before.drop_last().map_values(strip));
}

/// Capital ASCII letters become the small ones at the same place in the alphabet; every other
/// character stays, and so does the number of characters.
pub proof fn only_capitals_are_lowered(s: Seq<char>, i: int)
    requires
        0 <= i < s.len(),
    ensures
        ascii_lower(s).len() == s.len(),
        'A' <= s[i] <= 'Z' ==> 'a' <= ascii_lower(s)[i] <= 'z' && ascii_lower(s)[i] as int
            - 'a' as int == s[i] as int - 'A' as int,
        !('A' <= s[i] <= 'Z') ==> ascii_lower(s)[i] == s[i],
{
}

/// The first character that differs decides the order of two texts, and the beginning of a text comes
/// before the text.
pub proof fn first_difference_decides(a: Seq<char>, b: Seq<char>, k: int)
    requires
        0 <= k < b.len(),
        k <= a.len(),
        forall|i: int| 0 <= i < k ==> #[trigger] a[i] == b[i],
    ensures
        k == a.len() ==> text_before(a, b) && !text_before(b, a),
        k < a.len() && a[k] != b[k] ==> (text_before(a, b) <==> (a[k] as int) < b[k] as int),
    decreases k,
{
    if k > 0 {
        let x = a.skip(1);
        let y = b.skip(1);
        assert(a[0] == b[0]);
        assert forall|i: int| 0 <= i < k - 1 implies #[trigger] x[i] == y[i] by {
            assert(a[i + 1] == b[i + 1]);
        }
        first_difference_decides(x, y, k - 1);
    }
}

/// A number that is written in decimal digits reads back, with and without a sign.
pub proof fn written_numbers_read_back(n: nat)
    ensures
        decimal(n).len() > 0,
        all_digits(decimal(n)),
        n > 0 ==> decimal(n)[0] != '0',
        digits_value(decimal(n)) == n,
        unsigned_in(decimal(n)) == Some(n as int),
        unsigned_in(seq!['+'] + decimal(n)) == Some(n as int),
        signed_in(decimal(n)) == Some(n as int),
        signed_in(seq!['-'] + decimal(n)) == Some(-(n as int)),
        unsigned_in(seq!['-'] + decimal(n)) is None,
    decreases n,
{
    let d = decimal(n);
    if n < 10 {
        assert(d.len() == 1 && d[0] == digit_char(n as int));
        assert(d.drop_last() =~= Seq::<char>::empty());
        assert(digits_value(Seq::<char>::empty()) == 0);
    } else {
        written_numbers_read_back(n / 10);
        assert(d.drop_last() =~= decimal(n / 10));
        assert(n == 10 * (n / 10) + n % 10);
        assert(d[0] == decimal(n / 10)[0]);
    }
    assert((seq!['+'] + d).skip(1) =~= d);
    assert((seq!['-'] + d).skip(1) =~= d);
    assert(is_digit(d[0]));
    assert(!is_digit('-'));
    assert((seq!['-'] + d)[0] == '-');
}

/// A text with a character that is neither a digit nor a sign at its beginning is no number, nor is
/// one without a digit.
pub proof fn other_texts_are_no_numbers(s: Seq<char>, i: int)
    requires
        s.len() == 0 || (0 <= i < s.len() && !is_digit(s[i]) && (i > 0 || (s[0] != '+' && s[0]
            != '-'))),
    ensures
        unsigned_in(s) is None,
        signed_in(s) is None,
{
    if s.len() > 0 && i > 0 {
        assert(s.skip(1)[i - 1] == s[i]);
    }
}

/// A number is taken as it is where it lies within the limits of its type, and not at all where it
/// does not.
pub proof fn numbers_are_kept_within_limits(n: int)
    ensures
        as_i64(Some(n)) is Some <==> -0x8000_0000_0000_0000 <= n < 0x8000_0000_0000_0000,
        as_i64(Some(n)) is Some ==> as_i64(Some(n))->0 as int == n,
        as_u16(Some(n)) is Some <==> 0 <= n < 0x1_0000,
        as_u16(Some(n)) is Some ==> as_u16(Some(n))->0 as int == n,
        as_u64(Some(n)) is Some <==> 0 <= n < 0x1_0000_0000_0000_0000,
        as_u64(Some(n)) is Some ==> as_u64(Some(n))->0 as int == n,
        as_i64(None) is None,
        as_u16(None) is None,
        as_u64(None) is None,
{
}

/// Of the ASCII characters the blank and those from the tab to the carriage return are white space,
/// those below the blank and the last one are control characters, and letters and digits are what
/// they are.
pub proof fn ascii_characters_have_their_class(c: char)
    requires
        (c as int) < 128,
    ensures
        is_whitespace(c) <==> c == ' ' || '\t' <= c <= '\r',
        is_control(c) <==> c < ' ' || c > '~',
        is_digit(c) <==> '0' <= c <= '9',
        is_alphanumeric(c) <==> '0' <= c <= '9' || 'a' <= c <= 'z' || 'A' <= c <= 'Z',
{
}

/// A piece stands in a text exactly where the text is something, then the piece, then something.
pub proof fn pieces_stand_in_their_text(a: Seq<char>, piece: Seq<char>, b: Seq<char>, s: Seq<char>)
    ensures
        has_piece(a + piece + b, piece),
        has_piece(s, piece) ==> exists|i: int|
            0 <= i && i + piece.len() <= s.len() && s == #[trigger] s.take(i) + piece + s.skip(
                i + piece.len(),
            ),
        starts_with(piece + b, piece),
        ends_with(a + piece, piece),
{
    let whole = a + piece + b;
    let n = a.len() as int;
    assert(whole.subrange(n, n + piece.len()) =~= piece);
    assert(has_at(whole, piece, n));
    assert((piece + b).take(piece.len() as int) =~= piece);
    assert((a + piece).skip(n) =~= piece);
    if has_piece(s, piece) {
        let i = choose|i: int| #[trigger] has_at(s, piece, i);
        assert(s =~= s.take(i) + piece + s.skip(i + piece.len()));
    }
}

} // verus!
