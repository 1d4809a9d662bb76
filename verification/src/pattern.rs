//! Byte patterns with wildcards: how they are written, and how they are
//! found in a buffer.
use vstd::prelude::*;
use crate::number::{radix16, parse_radix16};
use crate::text::{words, word_bounds, pieces, bounds_ok, to_chars};

verus! {

/// The number of bytes that `c` takes in UTF-8.
pub open spec fn utf8_len(c: char) -> nat {
    if (c as u32) < 0x80 {
        1
    } else if (c as u32) < 0x800 {
        2
    } else if (c as u32) < 0x10000 {
        3
    } else {
        4
    }
}

/// The number of bytes that `t` takes in UTF-8 (what `str::len` gives).
pub open spec fn byte_len(t: Seq<char>) -> nat
    decreases t.len(),
{
    if t.len() == 0 {
        0
    } else {
        byte_len(t.drop_last()) + utf8_len(t.last())
    }
}

/// What one word of a pattern stands for: the byte to compare with and the
/// mask of the bits that take part. `??` and `?` match any byte, `?X` only
/// the low half, `X?` only the high half; other words are read by
/// `u8::from_str_radix(.., 16)`. A word longer than two bytes is refused.
pub open spec fn token_value(t: Seq<char>) -> Option<(u8, u8)> {
    let any_wild = t.contains('?');
    if byte_len(t) > 2 {
        None
    } else if t == seq!['?', '?'] || (any_wild && byte_len(t) == 1) {
        Some((0u8, 0u8))
    } else if !any_wild {
        match radix16(t, 255) {
            Some(v) => Some((v as u8, 0xFFu8)),
            None => None,
        }
    } else if t[0] == '?' {
        match radix16(t.update(0, '0'), 255) {
            Some(v) => Some((v as u8, 0x0Fu8)),
            None => None,
        }
    } else {
        match radix16(t.update(1, '0'), 255) {
            Some(v) => Some((v as u8, 0xF0u8)),
            None => None,
        }
    }
}

/// The bytes and masks of a sequence of words, or `None` where a word is refused.
pub open spec fn tokens_value(ws: Seq<Seq<char>>) -> Option<(Seq<u8>, Seq<u8>)>
    decreases ws.len(),
{
    if ws.len() == 0 {
        Some((seq![], seq![]))
    } else {
        match (tokens_value(ws.drop_last()), token_value(ws.last())) {
            (Some((b, m)), Some((x, y))) => Some((b.push(x), m.push(y))),
            _ => None,
        }
    }
}

/// The bytes and masks that the pattern text `s` describes: one per word,
/// or `None` where `s` has no word or a word is refused.
pub open spec fn parse_pattern(s: Seq<char>) -> Option<(Seq<u8>, Seq<u8>)> {
    if words(s).len() == 0 {
        None
    } else {
        tokens_value(words(s))
    }
}

/// A text's UTF-8 length is at least its number of characters, and at least
/// that of any of its prefixes.
proof fn lemma_byte_len_prefix(t: Seq<char>, k: int)
    requires
        0 <= k <= t.len(),
    ensures
        byte_len(t.take(k)) <= byte_len(t),
        byte_len(t) >= t.len(),
    decreases t.len(),
{
    if t.len() > 0 {
        if k < t.len() {
            lemma_byte_len_prefix(t.drop_last(), k);
            assert(t.drop_last().take(k) == t.take(k));
        } else {
            lemma_byte_len_prefix(t.drop_last(), k - 1);
            assert(t.take(k) == t);
        }
    } else {
        assert(t.take(k) == t);
    }
}

/// Reads the word `s[lo..hi]` of a pattern.
fn parse_token(s: &Vec<char>, lo: usize, hi: usize) -> (r: Option<(u8, u8)>)
    requires
        lo < hi <= s.len(),
    ensures
        r == token_value(s@.subrange(lo as int, hi as int)),
{
    let ghost t = s@.subrange(lo as int, hi as int);
    // the UTF-8 length, counted only as far as 3
    let mut n: usize = 0;
    let mut i: usize = lo;
    assert(t.take(0) == Seq::<char>::empty());
    while i < hi
        invariant
            lo <= i <= hi <= s.len(),
            t == s@.subrange(lo as int, hi as int),
            n as nat == byte_len(t.take(i - lo)),
            n <= 2,
        decreases hi - i,
    {
        let u = s[i] as u32;
        let w: usize = if u < 0x80 { 1 } else if u < 0x800 { 2 } else if u < 0x10000 { 3 } else { 4 };
        let ghost k = i - lo;
        assert(t.take(k + 1).drop_last() == t.take(k));
        assert(t.take(k + 1).last() == s@[i as int]);
        if n + w > 2 {
            proof {
                lemma_byte_len_prefix(t, k + 1);
            }
            return None;
        }
        n = n + w;
        i = i + 1;
    }
    assert(t.take(hi - lo) == t);
    proof {
        lemma_byte_len_prefix(t, 0);
    }
    let len = hi - lo;
    let c0 = s[lo];
    let any_wild = c0 == '?' || (len == 2 && s[lo + 1] == '?');
    assert(any_wild == t.contains('?')) by {
        if t.contains('?') {
            let j = choose|j: int| 0 <= j < t.len() && t[j] == '?';
            assert(j == 0 || j == 1);
        }
        if c0 == '?' {
            assert(t[0] == '?');
        }
        if len == 2 && s[lo + 1] == '?' {
            assert(t[1] == '?');
        }
    }
    let full_wild = (len == 2 && c0 == '?' && s[lo + 1] == '?') || (any_wild && n == 1);
    assert(full_wild == (t == seq!['?', '?'] || (any_wild && byte_len(t) == 1))) by {
        if len == 2 && c0 == '?' && s[lo + 1] == '?' {
            assert(t == seq!['?', '?']);
        }
        if t == seq!['?', '?'] {
            assert(t[0] == '?' && t[1] == '?');
        }
    }
    if full_wild {
        return Some((0u8, 0u8));
    }
    if !any_wild {
        return match parse_radix16(s, lo, hi, 255) {
            Some(v) => Some((v as u8, 0xFFu8)),
            None => None,
        };
    }
    // one half is a wildcard: read the word with `0` in its place
    if len < 2 {
        // a lone `?` is a full wildcard
        assert(byte_len(t) == 1) by {
            assert(t.drop_last() == Seq::<char>::empty());
            assert(t.last() == '?');
        }
        return None;
    }
    let mut digits: Vec<char> = Vec::new();
    if c0 == '?' {
        digits.push('0');
        digits.push(s[lo + 1]);
        assert(digits@.subrange(0, 2) == t.update(0, '0'));
        match parse_radix16(&digits, 0, 2, 255) {
            Some(v) => Some((v as u8, 0x0Fu8)),
            None => None,
        }
    } else {
        digits.push(c0);
        digits.push('0');
        assert(digits@.subrange(0, 2) == t.update(1, '0'));
        match parse_radix16(&digits, 0, 2, 255) {
            Some(v) => Some((v as u8, 0xF0u8)),
            None => None,
        }
    }
}

/// Reads a pattern text: the bytes and masks that it describes.
pub(crate) fn parse_pattern_text(pattern: &str) -> (r: Option<(Vec<u8>, Vec<u8>)>)
    ensures
        match r {
            Some((b, m)) => parse_pattern(pattern@) == Some((b@, m@)),
            None => parse_pattern(pattern@) is None,
        },
{
    let chars = to_chars(pattern);
    let bounds = word_bounds(&chars);
    let ghost ws = words(chars@);
    if bounds.len() == 0 {
        return None;
    }
    let mut bytes: Vec<u8> = Vec::new();
    let mut mask: Vec<u8> = Vec::new();
    let mut k: usize = 0;
    assert(ws.take(0) == Seq::<Seq<char>>::empty());
    while k < bounds.len()
        invariant
            chars@ == pattern@,
            ws == words(chars@),
            bounds_ok(chars@, bounds@),
            pieces(chars@, bounds@) == ws,
            0 <= k <= bounds.len(),
            tokens_value(ws.take(k as int)) == Some((bytes@, mask@)),
        decreases bounds.len() - k,
    {
        let (lo, hi) = bounds[k];
        assert(ws[k as int] == chars@.subrange(lo as int, hi as int));
        assert(ws.take(k + 1).drop_last() == ws.take(k as int));
        assert(ws.take(k + 1).last() == ws[k as int]);
        assert(lo <= hi) by {
            assert(bounds_ok(chars@, bounds@));
            assert(bounds@[k as int].0 <= bounds@[k as int].1);
        }
        if lo == hi {
            // words are never empty
            proof {
                lemma_words_nonempty(chars@, seq![], k as int);
            }
        }
        match parse_token(&chars, lo, hi) {
            None => {
                proof {
                    lemma_tokens_value_prefix_none(ws, k + 1);
                }
                return None;
            },
            Some((x, y)) => {
                bytes.push(x);
                mask.push(y);
            },
        }
        k = k + 1;
    }
    assert(ws.take(k as int) == ws);
    Some((bytes, mask))
}

/// Once a prefix of the words is refused, so is the whole.
proof fn lemma_tokens_value_prefix_none(ws: Seq<Seq<char>>, k: int)
    requires
        0 <= k <= ws.len(),
        tokens_value(ws.take(k)) is None,
    ensures
        tokens_value(ws) is None,
    decreases ws.len() - k,
{
    if k < ws.len() {
        assert(ws.take(k + 1).drop_last() == ws.take(k));
        lemma_tokens_value_prefix_none(ws, k + 1);
    } else {
        assert(ws.take(k) == ws);
    }
}

/// No word is empty.
proof fn lemma_words_nonempty(s: Seq<char>, cur: Seq<char>, k: int)
    requires
        0 <= k < crate::text::words_from(s, cur).len(),
    ensures
        crate::text::words_from(s, cur)[k].len() > 0,
    decreases s.len(),
{
    if s.len() > 0 {
        if crate::text::is_ws(s[0]) {
            let head: Seq<Seq<char>> = if cur.len() > 0 { seq![cur] } else { seq![] };
            if k >= head.len() {
                lemma_words_nonempty(s.drop_first(), seq![], k - head.len());
            }
        } else {
            lemma_words_nonempty(s.drop_first(), cur.push(s[0]), k);
        }
    }
}

} // verus!

verus! {

/// A pattern of bytes to look for: `bytes[i]` is compared with the bits of
/// `mask[i]`.
pub struct Pattern {
    pub bytes: Vec<u8>,
    pub mask: Vec<u8>,
}

/// The bits of the pattern's byte `i` that take part in a comparison.
pub open spec fn key(bytes: Seq<u8>, mask: Seq<u8>, i: int) -> u8 {
    bytes[i] & mask[i]
}

/// The pattern matches `buf` at `pos`: it fits there, and every byte agrees
/// with it on the bits of its mask.
pub open spec fn matches_at(bytes: Seq<u8>, mask: Seq<u8>, buf: Seq<u8>, pos: int) -> bool {
    &&& 0 <= pos
    &&& pos + bytes.len() <= buf.len()
    &&& forall|i: int| 0 <= i < bytes.len() ==> #[trigger] (buf[pos + i] & mask[i]) == key(bytes, mask, i)
}

/// Every offset at or after `pos` where the pattern matches, in increasing
/// order.
pub open spec fn all_matches(bytes: Seq<u8>, mask: Seq<u8>, buf: Seq<u8>, pos: int) -> Seq<usize>
    decreases buf.len() - pos,
{
    if bytes.len() == 0 || pos < 0 || pos + bytes.len() > buf.len() {
        seq![]
    } else {
        (if matches_at(bytes, mask, buf, pos) { seq![pos as usize] } else { seq![] })
            + all_matches(bytes, mask, buf, pos + 1)
    }
}

/// The first element of `s`, if any.
pub open spec fn first_of(s: Seq<usize>) -> Seq<usize> {
    if s.len() == 0 { seq![] } else { seq![s[0]] }
}

/// The largest `i < k` whose key is `c`, or -1.
pub open spec fn last_key_index(bytes: Seq<u8>, mask: Seq<u8>, c: u8, k: int) -> int
    decreases k,
{
    if k <= 0 {
        -1
    } else if key(bytes, mask, k - 1) == c {
        k - 1
    } else {
        last_key_index(bytes, mask, c, k - 1)
    }
}

/// The largest `i < k` whose mask differs from that of the last position,
/// or -1.
pub open spec fn last_other_mask(bytes: Seq<u8>, mask: Seq<u8>, k: int) -> int
    decreases k,
{
    if k <= 0 {
        -1
    } else if mask[k - 1] != mask[bytes.len() - 1] {
        k - 1
    } else {
        last_other_mask(bytes, mask, k - 1)
    }
}

/// How far the search may move on when the byte under the pattern's last
/// position, read through the last mask, is `c` and differs from the last
/// key: up to the nearest earlier position whose key is `c`, and never past
/// a position whose mask differs from the last one.
pub open spec fn skip_for(bytes: Seq<u8>, mask: Seq<u8>, c: u8) -> int {
    let m = bytes.len() as int;
    let a = last_key_index(bytes, mask, c, m - 1);
    let b = last_other_mask(bytes, mask, m - 1);
    m - 1 - (if a >= b { a } else { b })
}

/// `last_key_index` lies below `k` and is at least -1; no key between it and
/// `k` is `c`.
pub proof fn lemma_last_key_index(bytes: Seq<u8>, mask: Seq<u8>, c: u8, k: int)
    ensures
        -1 <= last_key_index(bytes, mask, c, k) < (if k > 0 { k } else { 0 }),
        forall|j: int|
            last_key_index(bytes, mask, c, k) < j < k ==> key(bytes, mask, j) != c,
    decreases k,
{
    if k > 0 {
        lemma_last_key_index(bytes, mask, c, k - 1);
    }
}

/// `last_other_mask` lies below `k` and is at least -1; every mask between
/// it and `k` is that of the last position.
pub proof fn lemma_last_other_mask(bytes: Seq<u8>, mask: Seq<u8>, k: int)
    ensures
        -1 <= last_other_mask(bytes, mask, k) < (if k > 0 { k } else { 0 }),
        forall|j: int|
            last_other_mask(bytes, mask, k) < j < k ==> #[trigger] mask[j] == mask[bytes.len() - 1],
    decreases k,
{
    if k > 0 {
        lemma_last_other_mask(bytes, mask, k - 1);
    }
}

/// The search moves on by at least one and at most the pattern's length,
/// and passes over no match.
proof fn lemma_skip_safe(bytes: Seq<u8>, mask: Seq<u8>, buf: Seq<u8>, pos: int)
    requires
        bytes.len() >= 1,
        0 <= pos,
        pos + bytes.len() <= buf.len(),
        (buf[pos + bytes.len() - 1] & mask[bytes.len() - 1]) != key(bytes, mask, bytes.len() - 1),
    ensures
        ({
            let s = skip_for(bytes, mask, buf[pos + bytes.len() - 1] & mask[bytes.len() - 1]);
            &&& 1 <= s <= bytes.len()
            &&& forall|x: int| pos <= x < pos + s ==> !#[trigger] matches_at(bytes, mask, buf, x)
        }),
{
    let m = bytes.len() as int;
    let c = buf[pos + m - 1] & mask[m - 1];
    lemma_last_key_index(bytes, mask, c, m - 1);
    lemma_last_other_mask(bytes, mask, m - 1);
    let a = last_key_index(bytes, mask, c, m - 1);
    let b = last_other_mask(bytes, mask, m - 1);
    let s = skip_for(bytes, mask, c);
    assert forall|x: int| pos <= x < pos + s implies !#[trigger] matches_at(bytes, mask, buf, x) by {
        if matches_at(bytes, mask, buf, x) {
            let d = x - pos;
            let j = m - 1 - d;
            if d == 0 {
                assert((buf[x + (m - 1)] & mask[m - 1]) == key(bytes, mask, m - 1));
            } else {
                assert(a < j && b < j && j < m - 1);
                assert(x + j == pos + m - 1);
                assert((buf[x + j] & mask[j]) == key(bytes, mask, j));
                assert(mask[j] == mask[m - 1]);
            }
        }
    }
}

/// With no match in `[pos, q)`, the matches from `pos` on are those from `q` on.
proof fn lemma_all_matches_skip(bytes: Seq<u8>, mask: Seq<u8>, buf: Seq<u8>, pos: int, q: int)
    requires
        0 <= pos <= q,
        forall|x: int| pos <= x < q ==> !#[trigger] matches_at(bytes, mask, buf, x),
        bytes.len() > 0,
        q <= buf.len(),
    ensures
        all_matches(bytes, mask, buf, pos) == all_matches(bytes, mask, buf, q),
    decreases q - pos,
{
    if pos < q {
        lemma_all_matches_skip(bytes, mask, buf, pos + 1, q);
        if pos + bytes.len() > buf.len() {
            assert(all_matches(bytes, mask, buf, pos + 1) == Seq::<usize>::empty());
        } else {
            assert(!matches_at(bytes, mask, buf, pos));
            assert(all_matches(bytes, mask, buf, pos) == Seq::<usize>::empty() + all_matches(bytes, mask, buf, pos + 1));
        }
    }
}

impl Pattern {
    /// Reads a pattern text: words separated by whitespace, each a
    /// hexadecimal byte (`48`, `f`), a full wildcard (`??`, `?`) or a byte
    /// with one wildcard half (`?5`, `8?`).
    ///
    /// # Example
    /// ```
    /// Pattern::new("00 FF 0? F? ?? ?").unwrap();
    /// ```
    pub fn new(pattern: &str) -> (res: Option<Self>)
        ensures
            match res {
                Some(p) => parse_pattern(pattern@) == Some((p.bytes@, p.mask@)),
                None => parse_pattern(pattern@) is None,
            },
    {
        match parse_pattern_text(pattern) {
            Some((bytes, mask)) => Some(Pattern { bytes, mask }),
            None => None,
        }
    }

    /// For each masked byte value, how far the search moves on.
    fn build_shift_table(&self) -> (shift: Vec<usize>)
        requires
            self.bytes@.len() >= 1,
            self.mask@.len() >= self.bytes@.len(),
        ensures
            shift@.len() == 256,
            forall|c: u8| #[trigger] shift@[c as int] == skip_for(self.bytes@, self.mask@, c),
    {
        let m = self.bytes.len();
        let ghost bytes = self.bytes@;
        let ghost mask = self.mask@;
        // one past the last position (before the last) whose mask differs
        // from the last one
        let mut start: usize = 0;
        let mut i: usize = 0;
        while i < m - 1
            invariant
                m == bytes.len(),
                bytes == self.bytes@,
                mask == self.mask@,
                mask.len() >= m >= 1,
                i <= m - 1,
                start <= i,
                start as int - 1 == last_other_mask(bytes, mask, i as int),
            decreases m - 1 - i,
        {
            if self.mask[i] != self.mask[m - 1] {
                start = i + 1;
            }
            i = i + 1;
        }
        let mut shift: Vec<usize> = Vec::new();
        let mut c: usize = 0;
        while c < 256
            invariant
                c <= 256,
                start < m,
                shift@.len() == c,
                forall|j: int| 0 <= j < c ==> shift@[j] == m - start,
            decreases 256 - c,
        {
            shift.push(m - start);
            c = c + 1;
        }
        let mut i: usize = start;
        assert forall|c: u8| #[trigger] shift@[c as int] == m - 1 - (if last_key_index(bytes, mask, c, i as int)
            >= start as int - 1 { last_key_index(bytes, mask, c, i as int) } else { start as int - 1 }) by {
            lemma_last_key_index(bytes, mask, c, i as int);
            assert(shift@[c as int] == m - start);
        }
        while i < m - 1
            invariant
                m == bytes.len(),
                bytes == self.bytes@,
                mask == self.mask@,
                mask.len() >= m >= 1,
                start <= i <= m - 1,
                start as int - 1 == last_other_mask(bytes, mask, m - 1),
                shift@.len() == 256,
                forall|c: u8| #[trigger] shift@[c as int] == m - 1 - (if last_key_index(bytes, mask, c, i as int)
                    >= start as int - 1 { last_key_index(bytes, mask, c, i as int) } else { start as int - 1 }),
            decreases m - 1 - i,
        {
            let b = self.bytes[i] & self.mask[i];
            shift.set(b as usize, m - 1 - i);
            i = i + 1;
        }
        shift
    }

    /// Every offset in `buf` at which the pattern matches, in increasing
    /// order; with `first_only`, only the first of them.
    pub fn scan(&self, buf: &[u8], first_only: bool) -> (res: Vec<usize>)
        requires
            self.bytes@.len() == 0 || buf@.len() < self.bytes@.len()
                || self.mask@.len() >= self.bytes@.len(),
        ensures
            res@ == if first_only {
                first_of(all_matches(self.bytes@, self.mask@, buf@, 0))
            } else {
                all_matches(self.bytes@, self.mask@, buf@, 0)
            },
    {
        let m = self.bytes.len();
        let n = buf.len();
        if m == 0 || n < m {
            return Vec::new();
        }
        let shift = self.build_shift_table();
        let mut result: Vec<usize> = Vec::new();
        let mut pos: usize = 0;
        let ghost bytes = self.bytes@;
        let ghost mask = self.mask@;
        let ghost all = all_matches(bytes, mask, buf@, 0);
        while pos <= n - m
            invariant
                bytes == self.bytes@,
                mask == self.mask@,
                all == all_matches(bytes, mask, buf@, 0),
                m == bytes.len(),
                n == buf@.len(),
                1 <= m <= n,
                mask.len() >= m,
                pos <= n,
                shift@.len() == 256,
                forall|c: u8| #[trigger] shift@[c as int] == skip_for(bytes, mask, c),
                first_only ==> result@.len() == 0 && all_matches(bytes, mask, buf@, pos as int) == all,
                !first_only ==> result@ + all_matches(bytes, mask, buf@, pos as int) == all,
            decreases n - pos,
        {
            let last_buf = buf[pos + m - 1] & self.mask[m - 1];
            let last_pat = self.bytes[m - 1] & self.mask[m - 1];
            if last_buf == last_pat {
                let mut matched = true;
                let mut i: usize = 0;
                while i < m - 1
                    invariant_except_break
                        matched,
                        forall|j: int| 0 <= j < i ==> #[trigger] (buf@[pos + j] & mask[j]) == key(bytes, mask, j),
                    invariant
                        bytes == self.bytes@,
                        mask == self.mask@,
                        m == bytes.len(),
                        n == buf@.len(),
                        mask.len() >= m >= 1,
                        pos + m <= n,
                        i <= m - 1,
                    ensures
                        matched == forall|j: int|
                            0 <= j < m - 1 ==> #[trigger] (buf@[pos + j] & mask[j]) == key(bytes, mask, j),
                    decreases m - 1 - i,
                {
                    if (buf[pos + i] & self.mask[i]) != (self.bytes[i] & self.mask[i]) {
                        matched = false;
                        assert((buf@[pos + i] & mask[i as int]) != key(bytes, mask, i as int));
                        break;
                    }
                    i = i + 1;
                }
                assert(matched == matches_at(bytes, mask, buf@, pos as int)) by {
                    if matched {
                        assert forall|j: int| 0 <= j < m implies #[trigger] (buf@[pos + j] & mask[j])
                            == key(bytes, mask, j) by {
                            if j == m - 1 {
                                assert(buf@[pos + j] == buf@[pos + m - 1]);
                            }
                        }
                    }
                }
                let ghost rest = all_matches(bytes, mask, buf@, pos + 1);
                if matched {
                    assert(all_matches(bytes, mask, buf@, pos as int) == seq![pos as usize] + rest);
                    if first_only {
                        result.push(pos);
                        assert(result@ == first_of(all));
                        return result;
                    }
                    let ghost old_result = result@;
                    result.push(pos);
                    assert(result@ + rest == old_result + (seq![pos as usize] + rest));
                } else {
                    assert(all_matches(bytes, mask, buf@, pos as int) == Seq::<usize>::empty() + rest);
                    assert(Seq::<usize>::empty() + rest == rest);
                }
                pos = pos + 1;
            } else {
                proof {
                    lemma_skip_safe(bytes, mask, buf@, pos as int);
                    lemma_all_matches_skip(bytes, mask, buf@, pos as int, pos + skip_for(bytes, mask, last_buf));
                }
                pos = pos + shift[last_buf as usize];
            }
        }
        assert(all_matches(bytes, mask, buf@, pos as int) == Seq::<usize>::empty());
        if first_only {
            assert(all == Seq::<usize>::empty());
        } else {
            assert(result@ + Seq::<usize>::empty() == result@);
        }
        result
    }
}

} // verus!

verus! {

/// The matches from `pos` on are exactly the offsets at or after `pos` where
/// the pattern matches, each once, in strictly increasing order.
pub proof fn law_all_matches_exact(bytes: Seq<u8>, mask: Seq<u8>, buf: Seq<u8>, pos: int)
    requires
        buf.len() <= usize::MAX,
        pos >= 0,
    ensures
        forall|k: int|
            0 <= k < all_matches(bytes, mask, buf, pos).len() ==> {
                let q = #[trigger] all_matches(bytes, mask, buf, pos)[k];
                &&& matches_at(bytes, mask, buf, q as int)
                &&& pos <= q
            },
        forall|k1: int, k2: int|
            0 <= k1 < k2 < all_matches(bytes, mask, buf, pos).len() ==>
                #[trigger] all_matches(bytes, mask, buf, pos)[k1]
                    < #[trigger] all_matches(bytes, mask, buf, pos)[k2],
        forall|q: int|
            pos <= q && bytes.len() > 0 && #[trigger] matches_at(bytes, mask, buf, q)
                ==> all_matches(bytes, mask, buf, pos).contains(q as usize),
    decreases buf.len() - pos,
{
    let m = bytes.len();
    if m == 0 || pos + m > buf.len() {
    } else {
        law_all_matches_exact(bytes, mask, buf, pos + 1);
        let w = all_matches(bytes, mask, buf, pos);
        let r = all_matches(bytes, mask, buf, pos + 1);
        if matches_at(bytes, mask, buf, pos) {
            assert(w == seq![pos as usize] + r);
            assert(w[0] as int == pos);
            assert forall|k: int| 1 <= k < w.len() implies w[k] == r[k - 1] && pos < #[trigger] w[k] by {
                assert(w[k] == r[k - 1]);
            }
            assert forall|k1: int, k2: int| 0 <= k1 < k2 < w.len() implies #[trigger] w[k1] < #[trigger] w[k2] by {
                assert(w[k2] == r[k2 - 1]);
                if k1 > 0 {
                    assert(w[k1] == r[k1 - 1]);
                }
            }
            assert forall|q: int| pos <= q && #[trigger] matches_at(bytes, mask, buf, q) implies w.contains(q as usize) by {
                if q == pos {
                    assert(w[0] == q as usize);
                } else {
                    let k = choose|k: int| 0 <= k < r.len() && r[k] == q as usize;
                    assert(w[k + 1] == r[k]);
                }
            }
        } else {
            assert(w == Seq::<usize>::empty() + r);
            assert(w == r);
            assert forall|q: int| pos <= q && #[trigger] matches_at(bytes, mask, buf, q) implies w.contains(q as usize) by {
                assert(q != pos);
            }
        }
    }
}

/// Asked for the first match only, the search gives the lowest offset where
/// the pattern matches, and nothing where it matches nowhere.
pub proof fn law_first_only_is_lowest(bytes: Seq<u8>, mask: Seq<u8>, buf: Seq<u8>)
    requires
        buf.len() <= usize::MAX,
        bytes.len() > 0,
    ensures
        first_of(all_matches(bytes, mask, buf, 0)).len() == 0
            <==> forall|q: int| !#[trigger] matches_at(bytes, mask, buf, q),
        first_of(all_matches(bytes, mask, buf, 0)).len() == 1 ==> {
            let q = first_of(all_matches(bytes, mask, buf, 0))[0] as int;
            &&& matches_at(bytes, mask, buf, q)
            &&& forall|x: int| 0 <= x < q ==> !#[trigger] matches_at(bytes, mask, buf, x)
        },
{
    law_all_matches_exact(bytes, mask, buf, 0);
    let all = all_matches(bytes, mask, buf, 0);
    if all.len() == 0 {
        assert forall|q: int| !#[trigger] matches_at(bytes, mask, buf, q) by {
            if matches_at(bytes, mask, buf, q) {
                assert(all.contains(q as usize));
            }
        }
    } else {
        assert(matches_at(bytes, mask, buf, all[0] as int));
        assert forall|x: int| 0 <= x < all[0] as int implies !#[trigger] matches_at(bytes, mask, buf, x) by {
            if matches_at(bytes, mask, buf, x) {
                assert(all.contains(x as usize));
                let k = choose|k: int| 0 <= k < all.len() && all[k] == x as usize;
                if k > 0 {
                    assert(all[0] < all[k]);
                }
            }
        }
    }
}

} // verus!

verus! {

/// A byte that a word of a pattern stands for has no bits outside its mask,
/// and the mask is one of `00`, `0F`, `F0`, `FF`.
pub open spec fn well_masked(x: u8, y: u8) -> bool {
    &&& (y == 0x00u8 || y == 0x0Fu8 || y == 0xF0u8 || y == 0xFFu8)
    &&& x & y == x
}

proof fn lemma_token_shape(t: Seq<char>)
    ensures
        token_value(t) matches Some((x, y)) ==> well_masked(x, y),
        !t.contains('?') ==> (token_value(t) matches Some((x, y)) ==> y == 0xFFu8),
{
    reveal_with_fuel(crate::number::numeral_value, 3);
    if let Some((x, y)) = token_value(t) {
        lemma_byte_len_prefix(t, 0);
        let any_wild = t.contains('?');
        assert(0u8 & 0u8 == 0u8) by (bit_vector);
        if byte_len(t) <= 2 && !(t == seq!['?', '?'] || (any_wild && byte_len(t) == 1)) {
            if !any_wild {
                assert(x & 0xFFu8 == x) by (bit_vector);
            } else {
                if t.len() == 1 {
                    assert(t.drop_last() == Seq::<char>::empty());
                    let j = choose|j: int| 0 <= j < t.len() && t[j] == '?';
                    assert(t[0] == '?');
                    assert(byte_len(t) == 1);
                }
                assert(t.len() == 2);
                if t[0] == '?' {
                    let d = t.update(0, '0');
                    assert(d.drop_last() == seq!['0']);
                    assert(seq!['0'].drop_last() == Seq::<char>::empty());
                    assert(x < 16);
                    assert(x < 16 ==> x & 0x0Fu8 == x) by (bit_vector);
                } else {
                    let d = t.update(1, '0');
                    if d[0] == '+' {
                        assert(d.drop_first() == seq!['0']);
                        assert(seq!['0'].drop_last() == Seq::<char>::empty());
                        assert(x == 0);
                    } else {
                        assert(d.drop_last() == seq![d[0]]);
                        assert(seq![d[0]].drop_last() == Seq::<char>::empty());
                        assert(x % 16 == 0);
                    }
                    assert(x % 16 == 0 ==> x & 0xF0u8 == x) by (bit_vector);
                }
            }
        }
    }
}

proof fn lemma_tokens_shape(ws: Seq<Seq<char>>)
    ensures
        tokens_value(ws) matches Some((b, m)) ==> {
            &&& b.len() == ws.len()
            &&& m.len() == ws.len()
            &&& forall|i: int| 0 <= i < ws.len() ==> #[trigger] well_masked(b[i], m[i])
            &&& (forall|i: int| 0 <= i < ws.len() ==> !(#[trigger] ws[i]).contains('?'))
                ==> forall|i: int| 0 <= i < ws.len() ==> #[trigger] m[i] == 0xFFu8
        },
    decreases ws.len(),
{
    if ws.len() > 0 {
        lemma_tokens_shape(ws.drop_last());
        lemma_token_shape(ws.last());
        if let Some((b, m)) = tokens_value(ws) {
            let (b0, m0) = tokens_value(ws.drop_last()).unwrap();
            assert forall|i: int| 0 <= i < ws.len() implies #[trigger] well_masked(b[i], m[i]) by {
                if i < ws.len() - 1 {
                    assert(b[i] == b0[i] && m[i] == m0[i]);
                }
            }
            if forall|i: int| 0 <= i < ws.len() ==> !(#[trigger] ws[i]).contains('?') {
                assert forall|i: int| 0 <= i < ws.len() - 1 implies !(#[trigger] ws.drop_last()[i]).contains('?') by {
                    assert(ws.drop_last()[i] == ws[i]);
                }
                assert(!ws[ws.len() - 1].contains('?'));
                assert forall|i: int| 0 <= i < ws.len() implies #[trigger] m[i] == 0xFFu8 by {
                    if i < ws.len() - 1 {
                        assert(m[i] == m0[i]);
                    }
                }
            }
        }
    }
}

/// Every character of a word comes from the text (or the partial word).
proof fn lemma_words_chars(s: Seq<char>, cur: Seq<char>, c: char)
    requires
        !s.contains(c),
        !cur.contains(c),
    ensures
        forall|k: int| 0 <= k < crate::text::words_from(s, cur).len()
            ==> !(#[trigger] crate::text::words_from(s, cur)[k]).contains(c),
    decreases s.len(),
{
    if s.len() == 0 {
        if cur.len() > 0 {
            assert(crate::text::words_from(s, cur) == seq![cur]);
            assert(seq![cur][0] == cur);
        }
    }
    if s.len() > 0 {
        assert forall|i: int| 0 <= i < s.drop_first().len() implies s.drop_first()[i] != c by {
            assert(s.drop_first()[i] == s[i + 1]);
        }
        if crate::text::is_ws(s[0]) {
            lemma_words_chars(s.drop_first(), seq![], c);
            let head: Seq<Seq<char>> = if cur.len() > 0 { seq![cur] } else { seq![] };
            let rest = crate::text::words_from(s.drop_first(), seq![]);
            assert(crate::text::words_from(s, cur) == head + rest);
            assert forall|k: int| 0 <= k < (head + rest).len() implies !(#[trigger] (head + rest)[k]).contains(c) by {
                if k >= head.len() {
                    assert((head + rest)[k] == rest[k - head.len()]);
                } else {
                    assert((head + rest)[k] == cur);
                }
            }
        } else {
            assert(s[0] != c);
            assert forall|i: int| 0 <= i < cur.push(s[0]).len() implies cur.push(s[0])[i] != c by {
                if i < cur.len() {
                    assert(cur.push(s[0])[i] == cur[i]);
                }
            }
            lemma_words_chars(s.drop_first(), cur.push(s[0]), c);
            assert(crate::text::words_from(s, cur) == crate::text::words_from(s.drop_first(), cur.push(s[0])));
        }
    }
}

/// A pattern has one byte and one mask per word of its text; each byte has
/// no bits outside its mask, and each mask is `00`, `0F`, `F0` or `FF`.
pub proof fn law_pattern_shape(s: Seq<char>)
    ensures
        parse_pattern(s) matches Some((b, m)) ==> {
            &&& b.len() == words(s).len()
            &&& m.len() == words(s).len()
            &&& b.len() > 0
            &&& forall|i: int| 0 <= i < b.len() ==> #[trigger] well_masked(b[i], m[i])
        },
{
    lemma_tokens_shape(words(s));
}

/// A pattern written without `?` compares every bit of every byte.
pub proof fn law_plain_pattern_full_mask(s: Seq<char>)
    requires
        !s.contains('?'),
    ensures
        parse_pattern(s) matches Some((b, m)) ==> forall|i: int| 0 <= i < m.len() ==> #[trigger] m[i] == 0xFFu8,
{
    lemma_tokens_shape(words(s));
    lemma_words_chars(s, seq![], '?');
}

} // verus!

verus! {

proof fn lemma_words_empty(s: Seq<char>, cur: Seq<char>)
    ensures
        crate::text::words_from(s, cur).len() == 0 <==> (cur.len() == 0 && forall|i: int|
            0 <= i < s.len() ==> crate::text::is_ws(#[trigger] s[i])),
    decreases s.len(),
{
    if s.len() > 0 {
        if crate::text::is_ws(s[0]) {
            lemma_words_empty(s.drop_first(), seq![]);
        } else {
            lemma_words_empty(s.drop_first(), cur.push(s[0]));
        }
        assert forall|i: int| 0 <= i < s.drop_first().len() implies s.drop_first()[i] == s[i + 1] by {}
        if forall|i: int| 0 <= i < s.drop_first().len() ==> crate::text::is_ws(#[trigger] s.drop_first()[i]) {
            if crate::text::is_ws(s[0]) {
                assert forall|i: int| 0 <= i < s.len() implies crate::text::is_ws(#[trigger] s[i]) by {
                    if i > 0 {
                        assert(s[i] == s.drop_first()[i - 1]);
                    }
                }
            }
        }
    }
}

proof fn lemma_trim_start_empty(s: Seq<char>)
    ensures
        crate::text::trim_start(s).len() == 0 <==> forall|i: int|
            0 <= i < s.len() ==> crate::text::is_ws(#[trigger] s[i]),
    decreases s.len(),
{
    if s.len() > 0 && crate::text::is_ws(s[0]) {
        lemma_trim_start_empty(s.drop_first());
        assert forall|i: int| 0 <= i < s.drop_first().len() implies s.drop_first()[i] == s[i + 1] by {}
        if forall|i: int| 0 <= i < s.drop_first().len() ==> crate::text::is_ws(#[trigger] s.drop_first()[i]) {
            assert forall|i: int| 0 <= i < s.len() implies crate::text::is_ws(#[trigger] s[i]) by {
                if i > 0 {
                    assert(s[i] == s.drop_first()[i - 1]);
                }
            }
        }
    }
}

/// A pattern text has no word exactly when it trims to nothing (as
/// `str::trim` trims); such a text is refused.
pub proof fn law_blank_pattern_refused(s: Seq<char>)
    ensures
        words(s).len() == 0 <==> crate::text::trim(s).len() == 0,
        crate::text::trim(s).len() == 0 ==> parse_pattern(s) is None,
{
    lemma_words_empty(s, seq![]);
    lemma_trim_start_empty(s);
    let t = crate::text::trim_start(s);
    if t.len() > 0 {
        assert(!crate::text::is_ws(t[0])) by {
            lemma_trim_start_shape(s);
        }
        lemma_trim_end_keeps_nonblank(t);
    }
}

proof fn lemma_trim_start_shape(s: Seq<char>)
    ensures
        crate::text::trim_start(s).len() > 0 ==> !crate::text::is_ws(crate::text::trim_start(s)[0]),
    decreases s.len(),
{
    if s.len() > 0 && crate::text::is_ws(s[0]) {
        lemma_trim_start_shape(s.drop_first());
    }
}

proof fn lemma_trim_end_keeps_nonblank(t: Seq<char>)
    requires
        t.len() > 0,
        !crate::text::is_ws(t[0]),
    ensures
        crate::text::trim_end(t).len() > 0,
    decreases t.len(),
{
    if t.len() > 1 && crate::text::is_ws(t.last()) {
        assert(t.drop_last()[0] == t[0]);
        lemma_trim_end_keeps_nonblank(t.drop_last());
    }
}

} // verus!

verus! {

proof fn lemma_tokens_each(ws: Seq<Seq<char>>)
    requires
        forall|i: int| 0 <= i < ws.len() ==> #[trigger] token_value(ws[i]) is Some,
    ensures
        tokens_value(ws) matches Some((b, m)) && b.len() == ws.len() && m.len() == ws.len()
            && forall|i: int| 0 <= i < ws.len() ==> #[trigger] token_value(ws[i]) == Some((b[i], m[i])),
    decreases ws.len(),
{
    if ws.len() > 0 {
        let init = ws.drop_last();
        assert forall|i: int| 0 <= i < init.len() implies #[trigger] token_value(init[i]) is Some by {
            assert(init[i] == ws[i]);
            assert(token_value(ws[i]) is Some);
        }
        lemma_tokens_each(init);
        assert(token_value(ws[ws.len() - 1]) is Some);
        let (b, m) = tokens_value(ws).unwrap();
        let (b0, m0) = tokens_value(init).unwrap();
        assert forall|i: int| 0 <= i < ws.len() implies #[trigger] token_value(ws[i]) == Some((b[i], m[i])) by {
            if i < init.len() {
                assert(init[i] == ws[i]);
                assert(token_value(init[i]) == Some((b0[i], m0[i])));
            }
        }
    }
}

proof fn lemma_tokens_concat(a: Seq<Seq<char>>, c: Seq<Seq<char>>)
    ensures
        tokens_value(a + c) == match (tokens_value(a), tokens_value(c)) {
            (Some((b1, m1)), Some((b2, m2))) => Some((b1 + b2, m1 + m2)),
            _ => None,
        },
    decreases c.len(),
{
    if c.len() == 0 {
        assert(a + c == a);
        if let Some((b1, m1)) = tokens_value(a) {
            assert(b1 + seq![] == b1);
            assert(m1 + seq![] == m1);
        }
    } else {
        assert((a + c).drop_last() == a + c.drop_last());
        assert((a + c).last() == c.last());
        lemma_tokens_concat(a, c.drop_last());
        if let (Some((b1, m1)), Some((b2, m2)), Some((x, y))) = (tokens_value(a), tokens_value(c.drop_last()), token_value(c.last())) {
            assert(b1 + b2.push(x) == (b1 + b2).push(x));
            assert(m1 + m2.push(y) == (m1 + m2).push(y));
        }
    }
}

proof fn lemma_words_concat(s: Seq<char>, t: Seq<char>, cur: Seq<char>)
    ensures
        crate::text::words_from(s.push(' ') + t, cur) == crate::text::words_from(s, cur) + words(t),
    decreases s.len(),
{
    let head: Seq<Seq<char>> = if cur.len() > 0 { seq![cur] } else { seq![] };
    if s.len() == 0 {
        assert(s.push(' ') + t == seq![' '] + t);
        assert((seq![' '] + t).drop_first() == t);
        assert(crate::text::is_ws(' '));
        assert(crate::text::words_from(s, cur) == head);
    } else {
        assert((s.push(' ') + t).drop_first() == s.drop_first().push(' ') + t);
        assert((s.push(' ') + t)[0] == s[0]);
        if crate::text::is_ws(s[0]) {
            lemma_words_concat(s.drop_first(), t, seq![]);
            assert(head + (crate::text::words_from(s.drop_first(), seq![]) + words(t))
                == head + crate::text::words_from(s.drop_first(), seq![]) + words(t));
        } else {
            lemma_words_concat(s.drop_first(), t, cur.push(s[0]));
        }
    }
}

/// A pattern text whose words are each a byte word (a hexadecimal byte,
/// `??`, `?`, `?X` or `X?`) is read whole, however many words it has: one
/// byte and one mask per word, each that of its word.
pub proof fn law_pattern_words(s: Seq<char>)
    requires
        words(s).len() > 0,
        forall|i: int| 0 <= i < words(s).len() ==> #[trigger] token_value(words(s)[i]) is Some,
    ensures
        parse_pattern(s) matches Some((b, m)) && b.len() == words(s).len() && m.len() == words(s).len()
            && forall|i: int| 0 <= i < words(s).len() ==> #[trigger] token_value(words(s)[i]) == Some((b[i], m[i])),
{
    lemma_tokens_each(words(s));
}

/// Two pattern texts written one after the other, with a space between,
/// read as the first pattern followed by the second.
pub proof fn law_pattern_concat(s: Seq<char>, t: Seq<char>)
    requires
        parse_pattern(s) is Some,
        parse_pattern(t) is Some,
    ensures
        parse_pattern(s) matches Some((b1, m1)) && parse_pattern(t) matches Some((b2, m2))
            && parse_pattern(s.push(' ') + t) == Some((b1 + b2, m1 + m2)),
{
    lemma_words_concat(s, t, seq![]);
    lemma_tokens_concat(words(s), words(t));
}

} // verus!

verus! {

/// The value of the hexadecimal digit `c`: `0`-`9`, then `a`-`f` or `A`-`F`
/// for 10 to 15; `None` for any other character.
pub open spec fn nibble(c: char) -> Option<nat> {
    let u = c as u32;
    if 0x30 <= u <= 0x39 {
        Some((u - 0x30) as nat)
    } else if 0x61 <= u <= 0x66 {
        Some((u - 0x61 + 10) as nat)
    } else if 0x41 <= u <= 0x46 {
        Some((u - 0x41 + 10) as nat)
    } else {
        None
    }
}

/// What each byte word of a pattern stands for: two hexadecimal digits `HL`
/// (or one, `L`) the byte `0xHL` with every bit compared; `??` and `?` any
/// byte; `?L` the low half `L` only; `H?` the high half `H` only.
pub proof fn law_byte_words(h: char, l: char)
    requires
        nibble(h) is Some,
        nibble(l) is Some,
    ensures
        token_value(seq![h, l]) == Some(((16 * nibble(h)->0 + nibble(l)->0) as u8, 0xFFu8)),
        token_value(seq![l]) == Some((nibble(l)->0 as u8, 0xFFu8)),
        token_value(seq!['?', l]) == Some((nibble(l)->0 as u8, 0x0Fu8)),
        token_value(seq![h, '?']) == Some(((16 * nibble(h)->0) as u8, 0xF0u8)),
        token_value(seq!['?', '?']) == Some((0u8, 0u8)),
        token_value(seq!['?']) == Some((0u8, 0u8)),
{
    reveal_with_fuel(crate::number::numeral_value, 3);
    reveal_with_fuel(byte_len, 3);
    let hl = seq![h, l];
    assert(hl.drop_last() == seq![h]);
    assert(seq![h].drop_last() == Seq::<char>::empty());
    assert(seq![l].drop_last() == Seq::<char>::empty());
    assert(!hl.contains('?')) by {
        if hl.contains('?') {
            let i = choose|i: int| 0 <= i < hl.len() && hl[i] == '?';
            assert(hl[i] == h || hl[i] == l);
        }
    }
    assert(!seq![l].contains('?')) by {
        if seq![l].contains('?') {
            let i = choose|i: int| 0 <= i < 1 && seq![l][i] == '?';
            assert(seq![l][i] == l);
        }
    }
    let ql = seq!['?', l];
    assert(ql.contains('?')) by { assert(ql[0] == '?'); }
    assert(ql.update(0, '0') == seq!['0', l]);
    assert(seq!['0', l].drop_last() == seq!['0']);
    assert(seq!['0'].drop_last() == Seq::<char>::empty());
    let hq = seq![h, '?'];
    assert(hq.contains('?')) by { assert(hq[1] == '?'); }
    assert(hq.update(1, '0') == seq![h, '0']);
    assert(seq![h, '0'].drop_last() == seq![h]);
    assert(ql.drop_last() == seq!['?']);
    assert(hq.drop_last() == seq![h]);
    assert(seq!['?'].drop_last() == Seq::<char>::empty());
    assert(seq!['?'].contains('?')) by { assert(seq!['?'][0] == '?'); }
    assert(seq!['?', '?'].drop_last() == seq!['?']);
    assert forall|i: int| 0 <= i < hl.len() implies #[trigger] crate::number::is_digit(hl[i], 16) by {
        assert(hl[i] == h || hl[i] == l);
    }
    let sl = seq![l];
    let zl = seq!['0', l];
    let hz = seq![h, '0'];
    assert forall|i: int| 0 <= i < sl.len() implies #[trigger] crate::number::is_digit(sl[i], 16) by {
        assert(sl[i] == l);
    }
    assert forall|i: int| 0 <= i < zl.len() implies #[trigger] crate::number::is_digit(zl[i], 16) by {
        assert(zl[i] == '0' || zl[i] == l);
    }
    assert forall|i: int| 0 <= i < hz.len() implies #[trigger] crate::number::is_digit(hz[i], 16) by {
        assert(hz[i] == '0' || hz[i] == h);
    }
}

} // verus!
