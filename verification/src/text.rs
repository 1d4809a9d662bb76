//! Character-level reading of text: whitespace, words, trimming and
//! splitting, each stated over the text's characters.
use vstd::prelude::*;

verus! {

/// The characters that `char::is_whitespace` accepts: those with the
/// Unicode `White_Space` property.
pub open spec fn is_ws(c: char) -> bool {
    let u = c as u32;
    ||| 0x09 <= u <= 0x0D
    ||| u == 0x20
    ||| u == 0x85
    ||| u == 0xA0
    ||| u == 0x1680
    ||| 0x2000 <= u <= 0x200A
    ||| u == 0x2028
    ||| u == 0x2029
    ||| u == 0x202F
    ||| u == 0x205F
    ||| u == 0x3000
}

/// Whether `c` is Unicode whitespace.
pub fn is_whitespace(c: char) -> (b: bool)
    ensures
        b == is_ws(c),
{
    let u = c as u32;
    (0x09 <= u && u <= 0x0D) || u == 0x20 || u == 0x85 || u == 0xA0 || u == 0x1680
        || (0x2000 <= u && u <= 0x200A) || u == 0x2028 || u == 0x2029 || u == 0x202F
        || u == 0x205F || u == 0x3000
}

/// The characters of `s`, in order.
pub fn to_chars(s: &str) -> (v: Vec<char>)
    ensures
        v@ == s@,
{
    let mut v: Vec<char> = Vec::new();
    for c in it: s.chars()
        invariant
            v@ == it.seq().take(it.index() as int),
            it.seq() == s@,
    {
        v.push(c);
    }
    v
}

} // verus!

verus! {

/// Pieces of `s`, each given by its bounds.
pub open spec fn pieces(s: Seq<char>, r: Seq<(usize, usize)>) -> Seq<Seq<char>> {
    r.map_values(|p: (usize, usize)| s.subrange(p.0 as int, p.1 as int))
}

/// The bounds all lie within `s` and are ordered.
pub open spec fn bounds_ok(s: Seq<char>, r: Seq<(usize, usize)>) -> bool {
    forall|k: int| 0 <= k < r.len() ==> #[trigger] r[k].0 <= r[k].1 && r[k].1 <= s.len()
}

/// The words of `s` that follow the partial word `cur`: the maximal runs of
/// characters that are not whitespace, in order.
pub open spec fn words_from(s: Seq<char>, cur: Seq<char>) -> Seq<Seq<char>>
    decreases s.len(),
{
    if s.len() == 0 {
        if cur.len() > 0 { seq![cur] } else { seq![] }
    } else if is_ws(s[0]) {
        (if cur.len() > 0 { seq![cur] } else { seq![] }) + words_from(s.drop_first(), seq![])
    } else {
        words_from(s.drop_first(), cur.push(s[0]))
    }
}

/// The words of `s`, as `str::split_whitespace` yields them.
pub open spec fn words(s: Seq<char>) -> Seq<Seq<char>> {
    words_from(s, seq![])
}

/// The bounds of the words of `s`.
pub fn word_bounds(s: &Vec<char>) -> (r: Vec<(usize, usize)>)
    ensures
        bounds_ok(s@, r@),
        pieces(s@, r@) == words(s@),
{
    let mut r: Vec<(usize, usize)> = Vec::new();
    let mut start: usize = 0;
    let mut i: usize = 0;
    assert(s@.skip(0) == s@);
    assert(s@.subrange(0, 0) == Seq::<char>::empty());
    assert(pieces(s@, r@) == Seq::<Seq<char>>::empty());
    while i < s.len()
        invariant
            start <= i <= s.len(),
            bounds_ok(s@, r@),
            pieces(s@, r@) + words_from(s@.skip(i as int), s@.subrange(start as int, i as int))
                == words(s@),
        decreases s.len() - i,
    {
        let ghost rest = s@.skip(i as int);
        assert(rest[0] == s@[i as int]);
        assert(rest.drop_first() == s@.skip(i + 1));
        if is_whitespace(s[i]) {
            if start < i {
                let ghost old_r = r@;
                r.push((start, i));
                assert(pieces(s@, r@) == pieces(s@, old_r).push(s@.subrange(start as int, i as int)));
            }
            i = i + 1;
            start = i;
            assert(s@.subrange(start as int, i as int) == Seq::<char>::empty());
        } else {
            assert(s@.subrange(start as int, i + 1) == s@.subrange(start as int, i as int).push(s@[i as int]));
            i = i + 1;
        }
    }
    if start < i {
        let ghost old_r = r@;
        r.push((start, i));
        assert(pieces(s@, r@) == pieces(s@, old_r).push(s@.subrange(start as int, i as int)));
    }
    assert(s@.skip(i as int) == Seq::<char>::empty());
    r
}

} // verus!

verus! {

/// The pieces of `s` that follow the partial piece `cur`, split at `c` into
/// at most `n` pieces, the last holding the rest.
pub open spec fn splitn_from(s: Seq<char>, c: char, n: nat, cur: Seq<char>) -> Seq<Seq<char>>
    decreases s.len(),
{
    if n <= 1 {
        seq![cur + s]
    } else if s.len() == 0 {
        seq![cur]
    } else if s[0] == c {
        seq![cur] + splitn_from(s.drop_first(), c, (n - 1) as nat, seq![])
    } else {
        splitn_from(s.drop_first(), c, n, cur.push(s[0]))
    }
}

/// `s` split at `c` into at most `n` pieces, as `str::splitn` gives them.
pub open spec fn splitn(s: Seq<char>, c: char, n: nat) -> Seq<Seq<char>> {
    if n == 0 { seq![] } else { splitn_from(s, c, n, seq![]) }
}

/// The pieces of `s` that follow the partial piece `cur`, split at every `c`.
pub open spec fn split_from(s: Seq<char>, c: char, cur: Seq<char>) -> Seq<Seq<char>>
    decreases s.len(),
{
    if s.len() == 0 {
        seq![cur]
    } else if s[0] == c {
        seq![cur] + split_from(s.drop_first(), c, seq![])
    } else {
        split_from(s.drop_first(), c, cur.push(s[0]))
    }
}

/// `s` split at every `c`, as `str::split` gives it.
pub open spec fn split(s: Seq<char>, c: char) -> Seq<Seq<char>> {
    split_from(s, c, seq![])
}

/// `s` without its leading whitespace.
pub open spec fn trim_start(s: Seq<char>) -> Seq<char>
    decreases s.len(),
{
    if s.len() > 0 && is_ws(s[0]) { trim_start(s.drop_first()) } else { s }
}

/// `s` without its trailing whitespace (`str::trim_end`).
pub open spec fn trim_end(s: Seq<char>) -> Seq<char>
    decreases s.len(),
{
    if s.len() > 0 && is_ws(s.last()) { trim_end(s.drop_last()) } else { s }
}

/// `s` without leading and trailing whitespace (`str::trim`).
pub open spec fn trim(s: Seq<char>) -> Seq<char> {
    trim_end(trim_start(s))
}

proof fn lemma_pieces_push(s: Seq<char>, r: Seq<(usize, usize)>, p: (usize, usize))
    ensures
        pieces(s, r.push(p)) == pieces(s, r).push(s.subrange(p.0 as int, p.1 as int)),
{
    assert(pieces(s, r.push(p)) =~= pieces(s, r).push(s.subrange(p.0 as int, p.1 as int)));
}

/// The bounds of the pieces of `s[lo..hi]` split at `c` into at most `n`
/// pieces.
pub fn splitn_bounds(s: &Vec<char>, lo: usize, hi: usize, c: char, n: usize) -> (r: Vec<(usize, usize)>)
    requires
        lo <= hi <= s.len(),
    ensures
        bounds_ok(s@, r@),
        pieces(s@, r@) == splitn(s@.subrange(lo as int, hi as int), c, n as nat),
{
    let ghost t = s@.subrange(lo as int, hi as int);
    let mut r: Vec<(usize, usize)> = Vec::new();
    if n == 0 {
        assert(pieces(s@, r@) =~= Seq::<Seq<char>>::empty());
        return r;
    }
    let mut left: usize = n;
    let mut start: usize = lo;
    let mut i: usize = lo;
    assert(t.skip(0) == t);
    assert(s@.subrange(lo as int, lo as int) == Seq::<char>::empty());
    assert(pieces(s@, r@) =~= Seq::<Seq<char>>::empty());
    while i < hi && left > 1
        invariant
            lo <= start <= i <= hi <= s.len(),
            t == s@.subrange(lo as int, hi as int),
            left >= 1,
            bounds_ok(s@, r@),
            pieces(s@, r@) + splitn_from(t.skip(i - lo), c, left as nat, s@.subrange(start as int, i as int))
                == splitn(t, c, n as nat),
        decreases hi - i,
    {
        let ghost rest = t.skip(i - lo);
        assert(rest[0] == s@[i as int]);
        assert(rest.drop_first() == t.skip(i + 1 - lo));
        if s[i] == c {
            proof {
                lemma_pieces_push(s@, r@, (start, i));
            }
            r.push((start, i));
            left = left - 1;
            i = i + 1;
            start = i;
            assert(s@.subrange(start as int, i as int) == Seq::<char>::empty());
        } else {
            assert(s@.subrange(start as int, i + 1) == s@.subrange(start as int, i as int).push(s@[i as int]));
            i = i + 1;
        }
    }
    assert(s@.subrange(start as int, i as int) + t.skip(i - lo) == s@.subrange(start as int, hi as int));
    proof {
        lemma_pieces_push(s@, r@, (start, hi));
        if i == hi {
            assert(t.skip(i - lo) == Seq::<char>::empty());
        }
    }
    r.push((start, hi));
    r
}

/// The bounds of the pieces of `s[lo..hi]` split at every `c`.
pub fn split_bounds(s: &Vec<char>, lo: usize, hi: usize, c: char) -> (r: Vec<(usize, usize)>)
    requires
        lo <= hi <= s.len(),
    ensures
        bounds_ok(s@, r@),
        pieces(s@, r@) == split(s@.subrange(lo as int, hi as int), c),
{
    let ghost t = s@.subrange(lo as int, hi as int);
    let mut r: Vec<(usize, usize)> = Vec::new();
    let mut start: usize = lo;
    let mut i: usize = lo;
    assert(t.skip(0) == t);
    assert(s@.subrange(lo as int, lo as int) == Seq::<char>::empty());
    assert(pieces(s@, r@) =~= Seq::<Seq<char>>::empty());
    while i < hi
        invariant
            lo <= start <= i <= hi <= s.len(),
            t == s@.subrange(lo as int, hi as int),
            bounds_ok(s@, r@),
            pieces(s@, r@) + split_from(t.skip(i - lo), c, s@.subrange(start as int, i as int))
                == split(t, c),
        decreases hi - i,
    {
        let ghost rest = t.skip(i - lo);
        assert(rest[0] == s@[i as int]);
        assert(rest.drop_first() == t.skip(i + 1 - lo));
        if s[i] == c {
            proof {
                lemma_pieces_push(s@, r@, (start, i));
            }
            r.push((start, i));
            i = i + 1;
            start = i;
            assert(s@.subrange(start as int, i as int) == Seq::<char>::empty());
        } else {
            assert(s@.subrange(start as int, i + 1) == s@.subrange(start as int, i as int).push(s@[i as int]));
            i = i + 1;
        }
    }
    assert(t.skip(i - lo) == Seq::<char>::empty());
    proof {
        lemma_pieces_push(s@, r@, (start, hi));
    }
    r.push((start, hi));
    r
}

/// The bounds of `s[lo..hi]` without its leading and trailing whitespace.
pub fn trim_bounds(s: &Vec<char>, lo: usize, hi: usize) -> (r: (usize, usize))
    requires
        lo <= hi <= s.len(),
    ensures
        lo <= r.0 <= r.1 <= hi,
        s@.subrange(r.0 as int, r.1 as int) == trim(s@.subrange(lo as int, hi as int)),
{
    let ghost t = s@.subrange(lo as int, hi as int);
    let mut a: usize = lo;
    while a < hi && is_whitespace(s[a])
        invariant
            lo <= a <= hi <= s.len(),
            t == s@.subrange(lo as int, hi as int),
            trim_start(t) == trim_start(s@.subrange(a as int, hi as int)),
        decreases hi - a,
    {
        assert(s@.subrange(a as int, hi as int).drop_first() == s@.subrange(a + 1, hi as int));
        a = a + 1;
    }
    let ghost u = s@.subrange(a as int, hi as int);
    assert(trim_start(u) == u);
    let mut b: usize = hi;
    while b > a && is_whitespace(s[b - 1])
        invariant
            lo <= a <= b <= hi <= s.len(),
            u == s@.subrange(a as int, hi as int),
            trim_end(u) == trim_end(s@.subrange(a as int, b as int)),
        decreases b - a,
    {
        assert(s@.subrange(a as int, b as int).drop_last() == s@.subrange(a as int, b - 1));
        b = b - 1;
    }
    (a, b)
}

/// The end of `s[lo..hi]` without its trailing whitespace.
pub fn trim_end_bound(s: &Vec<char>, lo: usize, hi: usize) -> (b: usize)
    requires
        lo <= hi <= s.len(),
    ensures
        lo <= b <= hi,
        s@.subrange(lo as int, b as int) == trim_end(s@.subrange(lo as int, hi as int)),
{
    let ghost t = s@.subrange(lo as int, hi as int);
    let mut b: usize = hi;
    while b > lo && is_whitespace(s[b - 1])
        invariant
            lo <= b <= hi <= s.len(),
            t == s@.subrange(lo as int, hi as int),
            trim_end(t) == trim_end(s@.subrange(lo as int, b as int)),
        decreases b - lo,
    {
        assert(s@.subrange(lo as int, b as int).drop_last() == s@.subrange(lo as int, b - 1));
        b = b - 1;
    }
    b
}

/// Whether `s[lo..hi]` and `t` hold the same characters.
pub fn range_eq(s: &Vec<char>, lo: usize, hi: usize, t: &Vec<char>) -> (b: bool)
    requires
        lo <= hi <= s.len(),
    ensures
        b == (s@.subrange(lo as int, hi as int) == t@),
{
    if hi - lo != t.len() {
        return false;
    }
    let mut i: usize = 0;
    while i < t.len()
        invariant
            lo <= hi <= s.len(),
            hi - lo == t@.len(),
            i <= t@.len(),
            forall|j: int| 0 <= j < i ==> s@[lo + j] == t@[j],
        decreases t.len() - i,
    {
        if s[lo + i] != t[i] {
            assert(s@.subrange(lo as int, hi as int)[i as int] != t@[i as int]);
            return false;
        }
        i = i + 1;
    }
    assert(s@.subrange(lo as int, hi as int) =~= t@);
    true
}

} // verus!
