//! The text framing of a block: a header line of ASCII words, and the
//! decimal numbers among them.

use vstd::prelude::*;
use crate::decode;
use crate::decode::{eof, Expected, Failure, Found, FoundView, Parsed};
use crate::encode::decimal;

verus! {

/// Whether `b` separates words: a space, or one of the control characters
/// from tab to carriage return.
pub open spec fn is_space(b: u8) -> bool {
    b == 0x20 || (0x09 <= b <= 0x0d)
}

/// Whether `b` separates words.
pub fn is_space_byte(b: u8) -> (r: bool)
    ensures
        r == is_space(b),
{
    b == 0x20 || (0x09 <= b && b <= 0x0d)
}

/// The first position from `pos` on that holds `\n` or a byte outside
/// ASCII; the length of `s` if there is none.
pub open spec fn line_end(s: Seq<u8>, pos: int) -> int
    decreases s.len() - pos,
{
    if pos < 0 || pos >= s.len() {
        s.len() as int
    } else if s[pos] == 0x0a || s[pos] >= 0x80 {
        pos
    } else {
        line_end(s, pos + 1)
    }
}

/// The line that starts at `pos`, without the `\n` that ends it. A byte
/// outside ASCII before the `\n` fails the line, and so does the end of the
/// input.
pub open spec fn parse_line(s: Seq<u8>, pos: int, ex: Expected) -> Parsed<Seq<u8>> {
    let end = line_end(s, pos);
    if pos < 0 || end >= s.len() {
        Err(eof(s, ex))
    } else if s[end] == 0x0a {
        Ok((s.subrange(pos, end), end + 1))
    } else {
        Err(Failure { idx: end + 1, ex, got: FoundView::NonAscii(s[end]) })
    }
}

/// The end of the run of bytes other than separators that starts at
/// `from`.
pub open spec fn word_end(line: Seq<u8>, from: int) -> int
    decreases line.len() - from,
{
    if from < 0 || from >= line.len() || is_space(line[from]) {
        from
    } else {
        word_end(line, from + 1)
    }
}

/// A word ends no earlier than it starts, and within the line.
pub proof fn lemma_word_end(line: Seq<u8>, from: int)
    requires
        0 <= from <= line.len(),
    ensures
        from <= word_end(line, from) <= line.len(),
        from < line.len() && !is_space(line[from]) ==> from < word_end(line, from),
    decreases line.len() - from,
{
    if from < line.len() && !is_space(line[from]) {
        lemma_word_end(line, from + 1);
    }
}

/// The words of `line` from `from` on: its maximal runs of bytes other
/// than separators, in order.
pub open spec fn words_from(line: Seq<u8>, from: int) -> Seq<Seq<u8>>
    decreases line.len() - from,
{
    if from < 0 || from >= line.len() {
        Seq::empty()
    } else if is_space(line[from]) {
        words_from(line, from + 1)
    } else {
        proof {
            lemma_word_end(line, from);
        }
        let end = word_end(line, from);
        seq![line.subrange(from, end)] + words_from(line, end)
    }
}

/// The words of `line`.
pub open spec fn words(line: Seq<u8>) -> Seq<Seq<u8>> {
    words_from(line, 0)
}

/// The characters that the ASCII bytes stand for.
pub open spec fn ascii_chars(bytes: Seq<u8>) -> Seq<char> {
    Seq::new(bytes.len(), |i: int| bytes[i] as char)
}

/// The characters of each word.
pub open spec fn ascii_words(ws: Seq<Seq<u8>>) -> Seq<Seq<char>> {
    Seq::new(ws.len(), |i: int| ascii_chars(ws[i]))
}

/// The contents of a sequence of byte vectors, one by one.
pub open spec fn byte_views(v: Seq<Vec<u8>>) -> Seq<Seq<u8>> {
    Seq::new(v.len(), |i: int| v[i]@)
}

/// The contents of a sequence of strings, one by one.
pub open spec fn string_views(v: Seq<String>) -> Seq<Seq<char>> {
    Seq::new(v.len(), |i: int| v[i]@)
}

/// The words of the header line that starts at `pos`.
pub open spec fn parse_header(s: Seq<u8>, pos: int, ex: Expected) -> Parsed<Seq<Seq<u8>>> {
    match parse_line(s, pos, ex) {
        Ok((line, next)) => Ok((words(line), next)),
        Err(e) => Err(e),
    }
}

/// Whether `b` is a decimal digit.
pub open spec fn is_digit(b: u8) -> bool {
    0x30 <= b <= 0x39
}

/// The number that the decimal digits `d` spell.
pub open spec fn digits_value(d: Seq<u8>) -> nat
    decreases d.len(),
{
    if d.len() == 0 {
        0
    } else {
        digits_value(d.drop_last()) * 10 + (d.last() - 0x30) as nat
    }
}

/// The digits of a word that may start with a plus sign.
pub open spec fn unsigned_digits(word: Seq<u8>) -> Seq<u8> {
    if word.len() > 0 && word[0] == 0x2b {
        word.skip(1)
    } else {
        word
    }
}

/// The number no greater than `max` that `word` spells: one or more
/// decimal digits, after a plus sign or none.
pub open spec fn parse_decimal(word: Seq<u8>, max: nat) -> Option<nat> {
    let d = unsigned_digits(word);
    if d.len() > 0 && (forall|i: int| 0 <= i < d.len() ==> is_digit(#[trigger] d[i]))
        && digits_value(d) <= max {
        Some(digits_value(d))
    } else {
        None
    }
}

/// More digits spell no smaller a number.
proof fn lemma_digits_monotone(d: Seq<u8>, k: int)
    requires
        0 <= k <= d.len(),
        forall|i: int| 0 <= i < d.len() ==> is_digit(#[trigger] d[i]),
    ensures
        digits_value(d.take(k)) <= digits_value(d),
    decreases d.len() - k,
{
    if k < d.len() {
        lemma_digits_monotone(d, k + 1);
        assert(d.take(k + 1).drop_last() =~= d.take(k));
    } else {
        assert(d.take(k) =~= d);
    }
}

/// The number no greater than `max` that `word` spells in decimal.
pub fn parse_number(word: &[u8], max: u32) -> (r: Option<u32>)
    ensures
        r matches Some(n) ==> parse_decimal(word@, max as nat) == Some(n as nat),
        r.is_none() ==> parse_decimal(word@, max as nat).is_none(),
{
    let start: usize = if word.len() > 0 && word[0] == 0x2b {
        1
    } else {
        0
    };
    let ghost d = unsigned_digits(word@);
    assert(d =~= word@.skip(start as int));
    if start >= word.len() {
        return None;
    }
    let mut acc: u64 = 0;
    let mut i: usize = start;
    while i < word.len()
        invariant
            start <= i <= word.len(),
            d == unsigned_digits(word@),
            d == word@.skip(start as int),
            forall|j: int| 0 <= j < i - start ==> is_digit(#[trigger] d[j]),
            acc == digits_value(d.take(i - start)),
            acc <= max,
        decreases word.len() - i,
    {
        let b = word[i];
        if b < 0x30 || b > 0x39 {
            assert(!is_digit(d[i - start]));
            return None;
        }
        let ghost longer = d.take(i - start + 1);
        assert(longer.drop_last() =~= d.take(i - start));
        assert(longer.last() == b);
        let next: u64 = acc * 10 + (b - 0x30) as u64;
        if next > max as u64 {
            proof {
                if forall|j: int| 0 <= j < d.len() ==> is_digit(#[trigger] d[j]) {
                    lemma_digits_monotone(d, i - start + 1);
                }
            }
            return None;
        }
        acc = next;
        i = i + 1;
    }
    assert(d.take(i - start) =~= d);
    Some(acc as u32)
}

/// `String::from_utf8` of std on ASCII bytes, which are valid UTF-8 (no
/// other input is admitted): the string holds one character for each
/// byte, the one with the byte's code.
#[verifier::external_body]
fn string_from_ascii(bytes: Vec<u8>) -> (s: String)
    requires
        forall|i: int| 0 <= i < bytes.len() ==> bytes[i] < 0x80,
    ensures
        s@ == ascii_chars(bytes@),
{
    match String::from_utf8(bytes) {
        Ok(s) => s,
        Err(_) => String::new(),
    }
}

/// Whether two runs of bytes are the same.
pub fn bytes_eq(a: &[u8], b: &[u8]) -> (r: bool)
    ensures
        r == (a@ == b@),
{
    if a.len() != b.len() {
        return false;
    }
    let mut i: usize = 0;
    while i < a.len()
        invariant
            i <= a.len(),
            a.len() == b.len(),
            forall|j: int| 0 <= j < i ==> a@[j] == b@[j],
        decreases a.len() - i,
    {
        if a[i] != b[i] {
            return false;
        }
        i = i + 1;
    }
    assert(a@ =~= b@);
    true
}

/// Takes the word `i` out of a header line, where it leaves an empty word,
/// and makes a string of it.
pub fn take_word(header: &mut Vec<Vec<u8>>, i: usize) -> (word: String)
    requires
        i < old(header).len(),
        is_word(old(header)[i as int]@),
    ensures
        word@ == ascii_chars(old(header)[i as int]@),
        final(header).len() == old(header).len(),
        final(header)[i as int]@.len() == 0,
        forall|j: int|
            0 <= j < old(header).len() && j != i ==> (#[trigger] final(header)[j]) == old(
                header,
            )[j],
{
    let mut word: Vec<u8> = Vec::new();
    std::mem::swap(&mut word, &mut header[i]);
    string_from_ascii(word)
}

/// The words of `line`.
pub fn split_words(line: &[u8]) -> (out: Vec<Vec<u8>>)
    ensures
        byte_views(out@) == words(line@),
{
    let mut out: Vec<Vec<u8>> = Vec::new();
    let mut i: usize = 0;
    assert(byte_views(out@) =~= Seq::<Seq<u8>>::empty());
    while i < line.len()
        invariant
            i <= line.len(),
            words(line@) == byte_views(out@) + words_from(line@, i as int),
        decreases line.len() - i,
    {
        if is_space_byte(line[i]) {
            i = i + 1;
        } else {
            let start = i;
            let mut word: Vec<u8> = Vec::new();
            while i < line.len() && !is_space_byte(line[i])
                invariant
                    start <= i <= line.len(),
                    word_end(line@, start as int) == word_end(line@, i as int),
                    word@ == line@.subrange(start as int, i as int),
                decreases line.len() - i,
            {
                word.push(line[i]);
                i = i + 1;
            }
            proof {
                let ghost rest = words_from(line@, i as int);
                assert(words_from(line@, start as int) == seq![word@] + rest);
                assert(byte_views(out@.push(word)) =~= byte_views(out@) + seq![word@]);
                assert(byte_views(out@) + (seq![word@] + rest) =~= byte_views(out@) + seq![
                    word@,
                ] + rest);
            }
            out.push(word);
        }
    }
    assert(byte_views(out@) + Seq::<Seq<u8>>::empty() =~= byte_views(out@));
    out
}

/// A line ends no earlier than it starts, and within the input.
pub proof fn lemma_line_end(s: Seq<u8>, pos: int)
    requires
        0 <= pos <= s.len(),
    ensures
        pos <= line_end(s, pos) <= s.len(),
    decreases s.len() - pos,
{
    if pos < s.len() && !(s[pos] == 0x0a || s[pos] >= 0x80) {
        lemma_line_end(s, pos + 1);
    }
}

/// A line holds ASCII bytes only, and none of them is `\n`.
pub proof fn lemma_line_is_ascii(s: Seq<u8>, pos: int, k: int)
    requires
        0 <= pos <= k < line_end(s, pos),
    ensures
        k < s.len(),
        s[k] < 0x80,
        s[k] != 0x0a,
    decreases k - pos,
{
    if pos < s.len() {
        lemma_line_end(s, pos);
        if pos < k {
            lemma_line_is_ascii(s, pos + 1, k);
        }
    }
}

/// Whether `word` is made of one or more ASCII bytes, none of them a
/// separator.
pub open spec fn is_word(word: Seq<u8>) -> bool {
    word.len() > 0 && forall|k: int|
        0 <= k < word.len() ==> (#[trigger] word[k]) < 0x80 && !is_space(word[k])
}

/// Whether each of `ws` is a word.
pub open spec fn are_words(ws: Seq<Seq<u8>>) -> bool {
    forall|w: int| 0 <= w < ws.len() ==> is_word(#[trigger] ws[w])
}

/// The words of a header line hold ASCII bytes only, none of them a
/// separator, and at least one each.
pub proof fn lemma_header_words(s: Seq<u8>, pos: int, ex: Expected)
    ensures
        parse_header(s, pos, ex) matches Ok((ws, next)) ==> 0 <= pos < next <= s.len()
            && are_words(ws),
{
    if let Ok((line, next)) = parse_line(s, pos, ex) {
        lemma_line_end(s, pos);
        assert forall|k: int| 0 <= k < line.len() implies line[k] < 0x80 by {
            lemma_line_is_ascii(s, pos, pos + k);
        }
        let ws = words(line);
        assert forall|w: int| 0 <= w < ws.len() implies is_word(#[trigger] ws[w]) by {
            lemma_words_are_ascii(line, 0, w);
        }
    }
}

/// A word of a line of ASCII bytes holds ASCII bytes only, none of them a
/// separator, and at least one.
pub proof fn lemma_words_are_ascii(line: Seq<u8>, from: int, w: int)
    requires
        0 <= from,
        forall|k: int| 0 <= k < line.len() ==> line[k] < 0x80,
        0 <= w < words_from(line, from).len(),
    ensures
        words_from(line, from)[w].len() > 0,
        forall|k: int|
            0 <= k < words_from(line, from)[w].len() ==> {
                &&& (#[trigger] words_from(line, from)[w][k]) < 0x80
                &&& !is_space(words_from(line, from)[w][k])
            },
    decreases line.len() - from,
{
    if from < line.len() {
        if is_space(line[from]) {
            lemma_words_are_ascii(line, from + 1, w);
        } else {
            lemma_word_end(line, from);
            let end = word_end(line, from);
            if w == 0 {
                assert forall|k: int| from <= k < end implies !is_space(line[k]) by {
                    lemma_word_run(line, from, k);
                }
            } else {
                lemma_words_are_ascii(line, end, w - 1);
            }
        }
    }
}

/// Within a word no byte is a separator.
proof fn lemma_word_run(line: Seq<u8>, from: int, k: int)
    requires
        0 <= from <= k < word_end(line, from),
    ensures
        k < line.len(),
        !is_space(line[k]),
    decreases k - from,
{
    if from < k {
        lemma_word_run(line, from + 1, k);
    }
}

impl<'a> decode::State<'a> {
    /// Consumes a line and hands back its bytes, without the `\n` that
    /// ends it.
    pub fn decode_line(&mut self, ex: Expected) -> (r: Result<Vec<u8>, decode::Error>)
        ensures
            final(self).input() == old(self).input(),
            r matches Ok(line) ==> parse_line(old(self).input(), old(self).pos(), ex) == Ok::<
                _,
                Failure,
            >((line@, final(self).pos())),
            r matches Err(e) ==> final(self).pos() == e@.idx,
            r matches Err(e) ==> parse_line(old(self).input(), old(self).pos(), ex) == Err::<
                (Seq<u8>, int),
                _,
            >(e@),
    {
        let start = self.position();
        let mut line: Vec<u8> = Vec::new();
        loop
            invariant
                self.input() == old(self).input(),
                start == old(self).pos(),
                start <= self.pos() <= self.input().len(),
                line_end(self.input(), start as int) == line_end(self.input(), self.pos()),
                line@ == self.input().subrange(start as int, self.pos()),
            decreases self.input().len() - self.pos(),
        {
            let byte = self.next(ex)?;
            if byte == 0x0a {
                return Ok(line);
            } else if byte < 0x80 {
                line.push(byte);
                assert(line@ =~= self.input().subrange(start as int, self.pos()));
            } else {
                return Err(self.err_unexpected(ex, Found::NonAscii(byte)));
            }
        }
    }

    /// Consumes a header line and hands back its words as bytes.
    pub fn decode_header_words(&mut self, ex: Expected) -> (r: Result<Vec<Vec<u8>>, decode::Error>)
        ensures
            final(self).input() == old(self).input(),
            r matches Ok(ws) ==> parse_header(old(self).input(), old(self).pos(), ex) == Ok::<
                _,
                Failure,
            >((byte_views(ws@), final(self).pos())),
            r matches Err(e) ==> final(self).pos() == e@.idx,
            r matches Err(e) ==> parse_header(old(self).input(), old(self).pos(), ex) == Err::<
                (Seq<Seq<u8>>, int),
                _,
            >(e@),
    {
        let line = self.decode_line(ex)?;
        Ok(split_words(line.as_slice()))
    }

    /// Consumes a header line and hands back its words.
    pub fn decode_header_line(&mut self, ex: Expected) -> (r: Result<Vec<String>, decode::Error>)
        ensures
            final(self).input() == old(self).input(),
            r matches Ok(ws) ==> match parse_header(old(self).input(), old(self).pos(), ex) {
                Ok((words, next)) => string_views(ws@) == ascii_words(words)
                    && final(self).pos() == next,
                Err(_) => false,
            },
            r matches Err(e) ==> final(self).pos() == e@.idx,
            r matches Err(e) ==> parse_header(old(self).input(), old(self).pos(), ex) == Err::<
                (Seq<Seq<u8>>, int),
                _,
            >(e@),
    {
        let ghost s = self.input();
        let ghost pos = self.pos();
        let mut words = self.decode_header_words(ex)?;
        let ghost found = byte_views(words@);
        proof {
            lemma_header_words(s, pos, ex);
        }
        let mut out: Vec<String> = Vec::new();
        let n = words.len();
        let mut i: usize = 0;
        while i < n
            invariant
                i <= n,
                n == words.len(),
                n == found.len(),
                are_words(found),
                forall|j: int| i <= j < n ==> (#[trigger] words[j])@ == found[j],
                out.len() == i,
                forall|j: int| 0 <= j < i ==> (#[trigger] out[j])@ == ascii_chars(found[j]),
            decreases n - i,
        {
            assert(is_word(found[i as int]));
            let word = take_word(&mut words, i);
            out.push(word);
            i = i + 1;
        }
        assert(string_views(out@) =~= ascii_words(found));
        Ok(out)
    }
}

/// The decimal digits of a number are digits, at least one, and spell the
/// number.
pub proof fn lemma_decimal(n: nat)
    ensures
        decimal(n).len() > 0,
        forall|i: int| 0 <= i < decimal(n).len() ==> is_digit(#[trigger] decimal(n)[i]),
        digits_value(decimal(n)) == n,
        is_word(decimal(n)),
    decreases n,
{
    if n < 10 {
        let d = decimal(n);
        assert(d.drop_last() =~= Seq::<u8>::empty());
        assert(digits_value(d.drop_last()) == 0);
    } else {
        lemma_decimal(n / 10);
        let d = decimal(n);
        let front = decimal(n / 10);
        assert(d.drop_last() =~= front);
        assert(d.last() == (0x30 + n % 10) as u8);
        assert forall|i: int| 0 <= i < d.len() implies is_digit(#[trigger] d[i]) by {
            if i < front.len() {
                assert(d[i] == front[i]);
            }
        }
    }
    assert forall|k: int| 0 <= k < decimal(n).len() implies (#[trigger] decimal(n)[k]) < 0x80
        && !is_space(decimal(n)[k]) by {
        assert(is_digit(decimal(n)[k]));
    }
}

/// Reading back the decimal digits of a number gives the number.
pub proof fn lemma_parse_decimal(n: nat, max: nat)
    requires
        n <= max,
    ensures
        parse_decimal(decimal(n), max) == Some(n),
{
    lemma_decimal(n);
    assert(is_digit(decimal(n)[0]));
}

/// The words `ws` up to the `n`th, with a space between each two.
pub open spec fn joined(ws: Seq<Seq<u8>>, n: int) -> Seq<u8>
    decreases n,
{
    if n <= 0 || n > ws.len() {
        Seq::empty()
    } else if n == 1 {
        ws[0]
    } else {
        joined(ws, n - 1) + seq![0x20u8] + ws[n - 1]
    }
}

/// A run of bytes other than separators ends where the bytes end or a
/// separator stands, whatever follows.
proof fn lemma_word_end_within(a: Seq<u8>, rest: Seq<u8>, from: int)
    requires
        0 <= from <= a.len(),
        rest.len() > 0 ==> is_space(rest[0]),
    ensures
        word_end(a + rest, from) == word_end(a, from),
    decreases a.len() - from,
{
    if from < a.len() {
        assert((a + rest)[from] == a[from]);
        if !is_space(a[from]) {
            lemma_word_end_within(a, rest, from + 1);
        }
    } else if rest.len() > 0 {
        assert((a + rest)[from] == rest[0]);
    }
}

/// The words behind a prefix are the words of what follows the prefix.
proof fn lemma_words_shift_at(a: Seq<u8>, rest: Seq<u8>, k: int)
    requires
        0 <= k <= rest.len(),
    ensures
        words_from(a + rest, a.len() + k) == words_from(rest, k),
    decreases rest.len() - k, 0nat,
{
    let whole = a + rest;
    if k < rest.len() {
        assert(whole[a.len() + k] == rest[k]);
        if is_space(rest[k]) {
            lemma_words_shift_at(a, rest, k + 1);
        } else {
            lemma_word_end(rest, k);
            let end = word_end(rest, k);
            lemma_word_end_shift(a, rest, k);
            lemma_words_shift_at(a, rest, end);
            assert(whole.subrange(a.len() + k, a.len() + end) =~= rest.subrange(k, end));
        }
    }
}

proof fn lemma_word_end_shift(a: Seq<u8>, rest: Seq<u8>, k: int)
    requires
        0 <= k <= rest.len(),
    ensures
        word_end(a + rest, a.len() + k) == a.len() + word_end(rest, k),
    decreases rest.len() - k,
{
    if k < rest.len() {
        assert((a + rest)[a.len() + k] == rest[k]);
        if !is_space(rest[k]) {
            lemma_word_end_shift(a, rest, k + 1);
        }
    }
}

/// The words of a line and of what follows it behind a separator are the
/// words of the line and then those of what follows.
proof fn lemma_words_append(a: Seq<u8>, rest: Seq<u8>, from: int)
    requires
        0 <= from <= a.len(),
        rest.len() > 0 ==> is_space(rest[0]),
    ensures
        words_from(a + rest, from) == words_from(a, from) + words_from(rest, 0),
    decreases a.len() - from,
{
    let whole = a + rest;
    if from < a.len() {
        assert(whole[from] == a[from]);
        if is_space(a[from]) {
            lemma_words_append(a, rest, from + 1);
        } else {
            lemma_word_end(a, from);
            lemma_word_end_within(a, rest, from);
            let end = word_end(a, from);
            lemma_words_append(a, rest, end);
            assert(whole.subrange(from, end) =~= a.subrange(from, end));
            assert(seq![a.subrange(from, end)] + (words_from(a, end) + words_from(rest, 0))
                =~= (seq![a.subrange(from, end)] + words_from(a, end)) + words_from(rest, 0));
        }
    } else {
        lemma_words_shift_at(a, rest, 0);
        assert(words_from(a, from) + words_from(rest, 0) =~= words_from(rest, 0));
    }
}

/// A word is the one word of itself.
proof fn lemma_one_word(w: Seq<u8>, from: int)
    requires
        is_word(w),
        0 <= from <= w.len(),
    ensures
        word_end(w, from) == w.len(),
        from == 0 ==> words_from(w, 0) == seq![w],
    decreases w.len() - from,
{
    if from < w.len() {
        lemma_one_word(w, from + 1);
    }
    if from == 0 {
        assert(w.subrange(0, w.len() as int) =~= w);
        assert(words_from(w, w.len() as int) == Seq::<Seq<u8>>::empty());
        assert(!is_space(w[0]));
        assert(seq![w] + Seq::<Seq<u8>>::empty() =~= seq![w]);
    }
}

/// The words of words that are joined by spaces are those words.
pub proof fn lemma_words_of_joined(ws: Seq<Seq<u8>>, n: int)
    requires
        1 <= n <= ws.len(),
        are_words(ws),
    ensures
        words(joined(ws, n)) == ws.take(n),
        joined(ws, n).len() > 0,
        forall|k: int|
            0 <= k < joined(ws, n).len() ==> (#[trigger] joined(ws, n)[k]) < 0x80 && joined(
                ws,
                n,
            )[k] != 0x0a,
    decreases n,
{
    assert(is_word(ws[n - 1]));
    if n == 1 {
        lemma_one_word(ws[0], 0);
        assert(ws.take(1) =~= seq![ws[0]]);
    } else {
        lemma_words_of_joined(ws, n - 1);
        let front = joined(ws, n - 1);
        let last = ws[n - 1];
        let tail = seq![0x20u8] + last;
        assert(joined(ws, n) =~= front + tail);
        lemma_words_append(front, tail, 0);
        lemma_words_shift_at(seq![0x20u8], last, 0);
        lemma_one_word(last, 0);
        assert(words_from(tail, 0) == words_from(tail, 1));
        assert(words_from(tail, 0) == seq![last]);
        assert(ws.take(n - 1) + seq![last] =~= ws.take(n));
        assert forall|k: int| 0 <= k < joined(ws, n).len() implies (#[trigger] joined(ws, n)[k])
            < 0x80 && joined(ws, n)[k] != 0x0a by {
            if k < front.len() {
                assert(joined(ws, n)[k] == front[k]);
            } else if k > front.len() {
                assert(joined(ws, n)[k] == last[k - front.len() - 1]);
            }
        }
    }
}

/// A line of ASCII bytes ends at the newline behind it.
proof fn lemma_line_end_at(s: Seq<u8>, pos: int, end: int)
    requires
        0 <= pos <= end < s.len(),
        forall|k: int| pos <= k < end ==> (#[trigger] s[k]) < 0x80 && s[k] != 0x0a,
        s[end] == 0x0a,
    ensures
        line_end(s, pos) == end,
    decreases end - pos,
{
    if pos < end {
        lemma_line_end_at(s, pos + 1, end);
    }
}

/// Decoding undoes encoding, for a header line: where words joined by
/// spaces stand in the input with a newline behind them, the decoder finds
/// those words and stops behind the newline.
pub proof fn lemma_parse_encoded_header(s: Seq<u8>, pos: int, ws: Seq<Seq<u8>>, ex: Expected)
    requires
        ws.len() >= 1,
        are_words(ws),
        0 <= pos,
        pos + joined(ws, ws.len() as int).len() < s.len(),
        s.subrange(pos, pos + joined(ws, ws.len() as int).len()) == joined(ws, ws.len() as int),
        s[pos + joined(ws, ws.len() as int).len()] == 0x0a,
    ensures
        parse_header(s, pos, ex) == Ok::<_, Failure>(
            (ws, pos + joined(ws, ws.len() as int).len() + 1),
        ),
{
    let line = joined(ws, ws.len() as int);
    let end = pos + line.len();
    lemma_words_of_joined(ws, ws.len() as int);
    assert forall|k: int| pos <= k < end implies (#[trigger] s[k]) < 0x80 && s[k] != 0x0a by {
        assert(s[k] == s.subrange(pos, end)[k - pos]);
        assert(line[k - pos] < 0x80);
    }
    lemma_line_end_at(s, pos, end);
    assert(ws.take(ws.len() as int) =~= ws);
}

/// Whether `name` can stand in a header line: whether it is made of one
/// or more ASCII characters, none of them a separator.
pub open spec fn is_name(name: Seq<char>) -> bool {
    &&& name.len() > 0
    &&& vstd::utf8::is_ascii_chars(name)
    &&& forall|i: int| 0 <= i < name.len() ==> !is_space(#[trigger] name[i] as u8)
}

/// The bytes of a name are a word, and the word spells the name.
pub proof fn lemma_name_bytes(name: Seq<char>)
    requires
        is_name(name),
    ensures
        is_word(vstd::utf8::encode_utf8(name)),
        ascii_chars(vstd::utf8::encode_utf8(name)) == name,
{
    let bytes = vstd::utf8::encode_utf8(name);
    vstd::utf8::is_ascii_chars_encode_utf8(name);
    assert forall|k: int| 0 <= k < bytes.len() implies (#[trigger] bytes[k]) < 0x80 && !is_space(
        bytes[k],
    ) by {
        assert(name[k] as u8 == bytes[k]);
    }
    assert forall|k: int| 0 <= k < name.len() implies ascii_chars(bytes)[k] == name[k] by {
        assert(name[k] as u8 == bytes[k]);
    }
    assert(ascii_chars(bytes) =~= name);
}

/// Joining the first words depends on those words only.
pub proof fn lemma_joined_prefix(a: Seq<Seq<u8>>, b: Seq<Seq<u8>>, n: int)
    requires
        0 <= n <= a.len(),
        n <= b.len(),
        forall|i: int| 0 <= i < n ==> a[i] == b[i],
    ensures
        joined(a, n) == joined(b, n),
    decreases n,
{
    if n > 1 {
        lemma_joined_prefix(a, b, n - 1);
    }
}

} // verus!
