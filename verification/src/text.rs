//! Shared, immutable byte text. Names and messages are carried from record to
//! record without being copied, and compared by their bytes.

use std::sync::Arc;
use vstd::prelude::*;
use vstd::string::StringSliceAdditionalSpecFns;

verus! {

/// `Arc::clone` makes another handle on the same allocation, so the clone holds
/// the value that the original holds.
#[verifier::external_body]
pub(crate) fn share<T>(handle: &Arc<T>) -> (r: Arc<T>)
    ensures
        r == *handle,
{
    Arc::clone(handle)
}

/// An immutable byte string that is cheap to hand on.
#[derive(Debug, Hash)]
pub struct Text {
    pub bytes: Arc<Vec<u8>>,
}

impl View for Text {
    type V = Seq<u8>;

    open spec fn view(&self) -> Seq<u8> {
        self.bytes@
    }
}

impl Clone for Text {
    fn clone(&self) -> (r: Self)
        ensures
            r == *self,
    {
        Text { bytes: share(&self.bytes) }
    }
}

impl PartialEq for Text {
    fn eq(&self, other: &Self) -> (r: bool) {
        same_bytes(self.as_bytes(), other.as_bytes())
    }
}

impl vstd::std_specs::cmp::PartialEqSpecImpl for Text {
    open spec fn obeys_eq_spec() -> bool {
        true
    }

    open spec fn eq_spec(&self, other: &Self) -> bool {
        self@ == other@
    }
}

impl Eq for Text {

}

impl Text {
    /// Text that holds these bytes.
    pub fn from_vec(bytes: Vec<u8>) -> (r: Self)
        ensures
            r@ == bytes@,
    {
        Text { bytes: Arc::new(bytes) }
    }

    /// Text that holds a copy of these bytes.
    pub fn from_bytes(bytes: &[u8]) -> (r: Self)
        ensures
            r@ == bytes@,
    {
        Text::from_vec(copy_bytes(bytes))
    }

    /// Text that holds the UTF-8 bytes of a string.
    pub fn new(value: &str) -> (r: Self)
        ensures
            r@ == value.spec_bytes(),
    {
        Text::from_bytes(value.as_bytes())
    }

    /// The bytes.
    pub fn as_bytes(&self) -> (r: &[u8])
        ensures
            r@ == self@,
    {
        self.bytes.as_slice()
    }

    /// The number of bytes.
    pub fn len(&self) -> (r: usize)
        ensures
            r == self@.len(),
    {
        self.bytes.len()
    }

    /// Whether there are no bytes.
    pub fn is_empty(&self) -> (r: bool)
        ensures
            r == (self@.len() == 0),
    {
        self.bytes.len() == 0
    }
}

/// The bytes of a text that may be absent.
pub open spec fn optional_bytes(text: Option<Text>) -> Option<Seq<u8>> {
    match text {
        None => None,
        Some(value) => Some(value@),
    }
}

/// The bytes of a text that may be absent.
pub fn optional_slice(text: &Option<Text>) -> (r: Option<&[u8]>)
    ensures
        match r {
            None => optional_bytes(*text) is None,
            Some(bytes) => optional_bytes(*text) == Some(bytes@),
        },
{
    match text {
        None => None,
        Some(value) => Some(value.as_bytes()),
    }
}

/// Whether two byte strings are equal.
pub fn same_bytes(a: &[u8], b: &[u8]) -> (r: bool)
    ensures
        r == (a@ == b@),
{
    if a.len() != b.len() {
        return false;
    }
    let mut i: usize = 0;
    while i < a.len()
        invariant
            i <= a@.len(),
            a@.len() == b@.len(),
            forall|k: int| 0 <= k < i ==> a@[k] == b@[k],
        decreases a@.len() - i,
    {
        if a[i] != b[i] {
            assert(a@[i as int] != b@[i as int]);
            return false;
        }
        i += 1;
    }
    assert(a@ =~= b@);
    true
}

/// A copy of a byte string.
pub fn copy_bytes(bytes: &[u8]) -> (r: Vec<u8>)
    ensures
        r@ == bytes@,
{
    let mut copy: Vec<u8> = Vec::new();
    append_bytes(&mut copy, bytes);
    assert(copy@ =~= bytes@);
    copy
}

/// Add bytes at the end.
pub fn append_bytes(buffer: &mut Vec<u8>, bytes: &[u8])
    ensures
        final(buffer)@ == old(buffer)@ + bytes@,
{
    let ghost before = buffer@;
    let mut i: usize = 0;
    while i < bytes.len()
        invariant
            i <= bytes@.len(),
            buffer@ == before + bytes@.take(i as int),
        decreases bytes@.len() - i,
    {
        buffer.push(bytes[i]);
        assert(bytes@.take(i + 1) =~= bytes@.take(i as int).push(bytes@[i as int]));
        i += 1;
    }
    assert(bytes@.take(i as int) =~= bytes@);
}

/// The number of bytes of the white space at a place in UTF-8 text; zero where there
/// is none.
pub open spec fn space_at(bytes: Seq<u8>, at: int) -> int {
    if !(0 <= at < bytes.len()) {
        0
    } else if (9 <= bytes[at] && bytes[at] <= 13) || bytes[at] == 32 {
        1
    } else if at + 1 < bytes.len() && bytes[at] == 0xC2 && (bytes[at + 1] == 0x85 || bytes[at + 1]
        == 0xA0) {
        2
    } else if at + 2 < bytes.len() && ((bytes[at] == 0xE1 && bytes[at + 1] == 0x9A && bytes[at + 2]
        == 0x80) || (bytes[at] == 0xE2 && bytes[at + 1] == 0x80 && ((0x80 <= bytes[at + 2] && bytes[at
        + 2] <= 0x8A) || bytes[at + 2] == 0xA8 || bytes[at + 2] == 0xA9 || bytes[at + 2] == 0xAF))
        || (bytes[at] == 0xE2 && bytes[at + 1] == 0x81 && bytes[at + 2] == 0x9F) || (bytes[at] == 0xE3
        && bytes[at + 1] == 0x80 && bytes[at + 2] == 0x80)) {
        3
    } else {
        0
    }
}

/// The number of bytes of the white space at a place.
pub fn space_len(bytes: &[u8], at: usize) -> (r: usize)
    ensures
        r == space_at(bytes@, at as int),
{
    if at >= bytes.len() {
        return 0;
    }
    let first = bytes[at];
    if (9 <= first && first <= 13) || first == 32 {
        return 1;
    }
    let left: usize = bytes.len() - at;
    if left > 1 && first == 0xC2 && (bytes[at + 1] == 0x85 || bytes[at + 1] == 0xA0) {
        return 2;
    }
    if left > 2 {
        let second = bytes[at + 1];
        let third = bytes[at + 2];
        if (first == 0xE1 && second == 0x9A && third == 0x80) || (first == 0xE2 && second == 0x80
            && ((0x80 <= third && third <= 0x8A) || third == 0xA8 || third == 0xA9 || third
            == 0xAF)) || (first == 0xE2 && second == 0x81 && third == 0x9F) || (first == 0xE3
            && second == 0x80 && third == 0x80) {
            return 3;
        }
    }
    0
}

/// The first place from one on that is not white space.
pub open spec fn word_start(bytes: Seq<u8>, at: int) -> int
    decreases bytes.len() - at,
{
    if space_at(bytes, at) > 0 {
        word_start(bytes, at + space_at(bytes, at))
    } else {
        at
    }
}

/// The first place from one on that is white space or the end.
pub open spec fn word_end(bytes: Seq<u8>, at: int) -> int
    decreases bytes.len() - at,
{
    if 0 <= at < bytes.len() && space_at(bytes, at) == 0 {
        word_end(bytes, at + 1)
    } else {
        at
    }
}

proof fn lemma_word_start(bytes: Seq<u8>, at: int)
    requires
        0 <= at <= bytes.len(),
    ensures
        at <= word_start(bytes, at) <= bytes.len(),
        space_at(bytes, word_start(bytes, at)) == 0,
    decreases bytes.len() - at,
{
    if space_at(bytes, at) > 0 {
        lemma_word_start(bytes, at + space_at(bytes, at));
    }
}

proof fn lemma_word_end(bytes: Seq<u8>, at: int)
    requires
        0 <= at <= bytes.len(),
    ensures
        at <= word_end(bytes, at) <= bytes.len(),
        at < bytes.len() && space_at(bytes, at) == 0 ==> at < word_end(bytes, at),
    decreases bytes.len() - at,
{
    if at < bytes.len() && space_at(bytes, at) == 0 {
        lemma_word_end(bytes, at + 1);
    }
}

/// The words of UTF-8 text from a place on: what white space separates.
pub open spec fn words_from(bytes: Seq<u8>, at: int) -> Seq<Seq<u8>>
    decreases bytes.len() - at,
    via words_from_decreases
{
    let start = word_start(bytes, at);
    if !(0 <= at <= start < bytes.len()) {
        Seq::empty()
    } else {
        let end = word_end(bytes, start);
        seq![bytes.subrange(start, end)] + words_from(bytes, end)
    }
}

#[via_fn]
proof fn words_from_decreases(bytes: Seq<u8>, at: int) {
    if 0 <= at <= bytes.len() {
        lemma_word_start(bytes, at);
        lemma_word_end(bytes, word_start(bytes, at));
    }
}

/// The words of UTF-8 text.
pub open spec fn words_of(bytes: Seq<u8>) -> Seq<Seq<u8>> {
    words_from(bytes, 0)
}

/// Byte strings, by value.
pub open spec fn byte_views(items: Seq<Vec<u8>>) -> Seq<Seq<u8>> {
    items.map_values(|item: Vec<u8>| item@)
}

pub proof fn lemma_push_bytes(items: Seq<Vec<u8>>, item: Vec<u8>)
    ensures
        byte_views(items.push(item)) == byte_views(items).push(item@),
{
    assert(byte_views(items.push(item)) =~= byte_views(items).push(item@));
}

/// The words of UTF-8 text.
pub fn split_words(bytes: &[u8]) -> (r: Vec<Vec<u8>>)
    ensures
        byte_views(r@) == words_of(bytes@),
{
    let mut words: Vec<Vec<u8>> = Vec::new();
    let mut at: usize = 0;
    assert(byte_views(words@) + words_from(bytes@, 0) =~= words_of(bytes@));
    loop
        invariant_except_break
            at <= bytes@.len(),
            byte_views(words@) + words_from(bytes@, at as int) == words_of(bytes@),
        ensures
            byte_views(words@) == words_of(bytes@),
        decreases bytes@.len() - at,
    {
        let start = skip_space(bytes, at);
        if start >= bytes.len() {
            assert(byte_views(words@) + Seq::<Seq<u8>>::empty() =~= byte_views(words@));
            break;
        }
        let end = find_space(bytes, start);
        let word = copy_bytes(&bytes[start..end]);
        let ghost before = words@;
        words.push(word);
        proof {
            lemma_push_bytes(before, word);
            assert(byte_views(before) + (seq![word@] + words_from(bytes@, end as int))
                =~= byte_views(before).push(word@) + words_from(bytes@, end as int));
        }
        at = end;
    }
    words
}

/// The first place from one on that is not white space.
pub fn skip_space(bytes: &[u8], at: usize) -> (r: usize)
    requires
        at <= bytes@.len(),
    ensures
        r == word_start(bytes@, at as int),
        at <= r <= bytes@.len(),
        space_at(bytes@, r as int) == 0,
{
    let count: usize = bytes.len();
    let mut i: usize = at;
    let mut step: usize = space_len(bytes, i);
    while step > 0
        invariant
            count == bytes@.len(),
            i + step <= count,
            at <= i <= bytes@.len(),
            step == space_at(bytes@, i as int),
            word_start(bytes@, at as int) == word_start(bytes@, i as int),
        decreases bytes@.len() - i,
    {
        i += step;
        step = space_len(bytes, i);
    }
    i
}

/// The first place from one on that is white space or the end.
pub fn find_space(bytes: &[u8], at: usize) -> (r: usize)
    requires
        at <= bytes@.len(),
    ensures
        r == word_end(bytes@, at as int),
        at <= r <= bytes@.len(),
        at < bytes@.len() && space_at(bytes@, at as int) == 0 ==> at < r,
{
    let mut i: usize = at;
    while i < bytes.len() && space_len(bytes, i) == 0
        invariant
            at <= i <= bytes@.len(),
            word_end(bytes@, at as int) == word_end(bytes@, i as int),
            i == at || space_at(bytes@, at as int) == 0,
        decreases bytes@.len() - i,
    {
        i += 1;
    }
    i
}

/// Byte strings one after the other with a separator between them.
pub open spec fn joined(items: Seq<Seq<u8>>, separator: Seq<u8>) -> Seq<u8>
    decreases items.len(),
{
    if items.len() == 0 {
        Seq::empty()
    } else if items.len() == 1 {
        items[0]
    } else {
        joined(items.drop_last(), separator) + separator + items.last()
    }
}

/// Byte strings one after the other with a separator between them.
pub fn join(items: &[Vec<u8>], separator: &[u8]) -> (r: Vec<u8>)
    ensures
        r@ == joined(byte_views(items@), separator@),
{
    let ghost views = byte_views(items@);
    let mut buffer: Vec<u8> = Vec::new();
    let mut i: usize = 0;
    assert(buffer@ =~= joined(views.take(0), separator@));
    while i < items.len()
        invariant
            i <= items@.len(),
            views == byte_views(items@),
            buffer@ == joined(views.take(i as int), separator@),
        decreases items@.len() - i,
    {
        assert(views.take(i + 1).drop_last() =~= views.take(i as int));
        assert(views[i as int] == items@[i as int]@);
        if i > 0 {
            append_bytes(&mut buffer, separator);
        }
        append_bytes(&mut buffer, items[i].as_slice());
        assert(i == 0 ==> buffer@ =~= views[0]);
        i += 1;
    }
    assert(views.take(i as int) =~= views);
    buffer
}

/// A number in decimal digits.
pub open spec fn decimal(n: nat) -> Seq<u8>
    decreases n,
{
    if n < 10 {
        seq![(48 + n) as u8]
    } else {
        decimal(n / 10).push((48 + n % 10) as u8)
    }
}

/// A number in decimal digits.
pub fn decimal_digits(n: u32) -> (r: Vec<u8>)
    ensures
        r@ == decimal(n as nat),
    decreases n,
{
    if n < 10 {
        let mut digits: Vec<u8> = Vec::new();
        digits.push(48 + n as u8);
        assert(digits@ =~= seq![(48 + n) as u8]);
        digits
    } else {
        let mut digits = decimal_digits(n / 10);
        digits.push(48 + (n % 10) as u8);
        digits
    }
}

/// Whether UTF-8 text is one word, but for white space around it.
pub open spec fn is_word(bytes: Seq<u8>, word: Seq<u8>) -> bool {
    words_of(bytes) == seq![word]
}

/// Whether UTF-8 text is one word, but for white space around it.
pub fn is_only_word(bytes: &[u8], word: &[u8]) -> (r: bool)
    ensures
        r == is_word(bytes@, word@),
{
    let words = split_words(bytes);
    let r = words.len() == 1 && same_bytes(words[0].as_slice(), word);
    proof {
        let all = byte_views(words@);
        if r {
            assert(all =~= seq![word@]);
        }
        if all == seq![word@] {
            assert(all.len() == 1);
            assert(all[0] == words@[0]@);
        }
    }
    r
}

/// Where the last word from a place on ends; another place where there is no word.
pub open spec fn last_word_end(bytes: Seq<u8>, at: int, end: int) -> int
    decreases bytes.len() - at,
    via last_word_end_decreases
{
    let start = word_start(bytes, at);
    if !(0 <= at <= start < bytes.len()) {
        end
    } else {
        last_word_end(bytes, word_end(bytes, start), word_end(bytes, start))
    }
}

#[via_fn]
proof fn last_word_end_decreases(bytes: Seq<u8>, at: int, end: int) {
    if 0 <= at <= bytes.len() {
        lemma_word_start(bytes, at);
        lemma_word_end(bytes, word_start(bytes, at));
    }
}

/// UTF-8 text without white space around it.
pub open spec fn trimmed(bytes: Seq<u8>) -> Seq<u8> {
    let start = word_start(bytes, 0);
    bytes.subrange(start, last_word_end(bytes, start, start))
}

/// UTF-8 text without white space around it.
pub fn trim(bytes: &[u8]) -> (r: &[u8])
    ensures
        r@ == trimmed(bytes@),
        r@.len() <= bytes@.len(),
{
    let start: usize = skip_space(bytes, 0);
    let mut end: usize = start;
    proof {
        lemma_word_start(bytes@, 0);
    }
    loop
        invariant
            start <= end <= bytes@.len(),
            start == word_start(bytes@, 0),
            last_word_end(bytes@, start as int, start as int) == last_word_end(
                bytes@,
                end as int,
                end as int,
            ),
        decreases bytes@.len() - end,
    {
        proof {
            lemma_word_start(bytes@, end as int);
            lemma_word_end(bytes@, word_start(bytes@, end as int));
        }
        let next: usize = skip_space(bytes, end);
        if next >= bytes.len() {
            let part = &bytes[start..end];
            assert(part@ =~= trimmed(bytes@));
            return part;
        }
        end = find_space(bytes, next);
    }
}

} // verus!
