//! Reading the lines of `/proc/<pid>/maps` and of the other files that
//! describe a process.
use vstd::prelude::*;
use crate::{ModuleInfo, ModuleView};
use crate::number::{unsigned_parse, parse_unsigned};
use crate::text::{splitn, split, trim, trim_end, bounds_ok, splitn_bounds, split_bounds, trim_bounds,
    trim_end_bound, range_eq, to_chars};

verus! {

/// The index of the last `c` in `s`.
pub open spec fn find_last(s: Seq<char>, c: char) -> Option<int>
    decreases s.len(),
{
    if s.len() == 0 {
        None
    } else if s.last() == c {
        Some(s.len() - 1)
    } else {
        find_last(s.drop_last(), c)
    }
}

/// The last component of the path `p`, as `Path::file_name` gives it on
/// Unix: trailing `/` and `.` components are passed over; a path that ends
/// in `..`, or has no component, has none.
pub open spec fn file_name(p: Seq<char>) -> Option<Seq<char>>
    decreases p.len(),
{
    let (rest, seg) = match find_last(p, '/') {
        Some(i) => (Some(p.take(i)), p.skip(i + 1)),
        None => (None, p),
    };
    if seg.len() == 0 || seg == seq!['.'] {
        match rest {
            Some(r) => if r.len() < p.len() { file_name(r) } else { None },
            None => None,
        }
    } else if seg == seq!['.', '.'] {
        None
    } else {
        Some(seg)
    }
}

/// `t` reads as the number 0 with `i32::from_str`: an optional sign, then
/// only the digit `0`, at least once.
pub open spec fn reads_as_zero(t: Seq<char>) -> bool {
    &&& unsigned_digits(t).len() > 0
    &&& forall|i: int| 0 <= i < unsigned_digits(t).len() ==> #[trigger] unsigned_digits(t)[i] == '0'
}

/// `t` without a leading sign.
pub open spec fn unsigned_digits(t: Seq<char>) -> Seq<char> {
    if t.len() > 0 && (t[0] == '+' || t[0] == '-') { t.drop_first() } else { t }
}

/// `p` holds `.so`.
pub open spec fn has_so(p: Seq<char>) -> bool {
    exists|i: int| 0 <= i && i + 3 <= p.len() && #[trigger] p[i] == '.' && p[i + 1] == 's' && p[i + 2] == 'o'
}

/// The mapped file is one that the library lists: the heap, the stack, a
/// shared object given by its full path, or the process's executable `exe`.
pub open spec fn is_module_path(p: Seq<char>, exe: Seq<char>) -> bool {
    ||| p == seq!['[', 'h', 'e', 'a', 'p', ']']
    ||| p == seq!['[', 's', 't', 'a', 'c', 'k', ']']
    ||| (p.len() > 0 && p[0] == '/' && has_so(p))
    ||| (p.len() > 0 && p == exe)
}

/// The start and end address in a `start-end` field of hexadecimal numbers.
pub open spec fn address_range(a: Seq<char>) -> Option<(nat, nat)> {
    let parts = split(a, '-');
    if parts.len() < 2 {
        None
    } else {
        match (unsigned_parse(parts[0], 16, usize::MAX as nat), unsigned_parse(parts[1], 16, usize::MAX as nat)) {
            (Some(s), Some(e)) => Some((s, e)),
            _ => None,
        }
    }
}

/// The address field, the permissions and the path of a maps line with six
/// fields (split at single spaces, the path being the trimmed rest) and an
/// offset of zero.
pub open spec fn maps_fields(line: Seq<char>) -> Option<(Seq<char>, Seq<char>, Seq<char>)> {
    let parts = splitn(line, ' ', 6);
    if parts.len() == 6 && reads_as_zero(parts[2]) {
        Some((parts[0], parts[1], trim(parts[5])))
    } else {
        None
    }
}

/// The name under which a module of path `p` is listed: its file name,
/// or the whole path where it has none.
pub open spec fn display_name(p: Seq<char>) -> Seq<char> {
    match file_name(p) {
        Some(n) => n,
        None => p,
    }
}

/// The name, start, end and permissions of the module that a maps line of
/// the process running `exe` describes, or `None` where it describes none
/// that the library lists.
pub open spec fn segment(line: Seq<char>, exe: Seq<char>) -> Option<(Seq<char>, nat, nat, Seq<char>)> {
    match maps_fields(line) {
        Some((addr, perms, path)) => if is_module_path(path, exe) {
            match address_range(addr) {
                Some((s, e)) => Some((display_name(path), s, e, perms)),
                None => None,
            }
        } else {
            None
        },
        None => None,
    }
}

/// A maps line whose module ends before it starts (the size would not be a
/// number).
pub open spec fn segment_reversed(line: Seq<char>, exe: Seq<char>) -> bool {
    segment(line, exe) matches Some((_, s, e, _)) && e < s
}

/// The bounds of the file name of the path `s[lo..hi]`, where it has one.
fn file_name_bounds(s: &Vec<char>, lo: usize, hi: usize) -> (r: Option<(usize, usize)>)
    requires
        lo <= hi <= s.len(),
    ensures
        match r {
            Some((a, b)) => lo <= a <= b <= hi && file_name(s@.subrange(lo as int, hi as int))
                == Some(s@.subrange(a as int, b as int)),
            None => file_name(s@.subrange(lo as int, hi as int)) is None,
        },
{
    let mut end: usize = hi;
    loop
        invariant
            lo <= end <= hi <= s.len(),
            file_name(s@.subrange(lo as int, hi as int)) == file_name(s@.subrange(lo as int, end as int)),
        decreases end - lo,
    {
        let ghost p = s@.subrange(lo as int, end as int);
        // the last `/` before `end`
        let mut j: usize = end;
        while j > lo && s[j - 1] != '/'
            invariant
                lo <= j <= end,
                end <= s.len(),
                p == s@.subrange(lo as int, end as int),
                find_last(p, '/') == find_last(s@.subrange(lo as int, j as int), '/'),
            decreases j - lo,
        {
            assert(s@.subrange(lo as int, j as int).drop_last() == s@.subrange(lo as int, j - 1));
            j = j - 1;
        }
        let seg_lo = j;
        let len = end - seg_lo;
        let ghost seg = s@.subrange(seg_lo as int, end as int);
        proof {
            if j > lo {
                assert(find_last(s@.subrange(lo as int, j as int), '/') == Some(j - 1 - lo));
                assert(p.skip(j - lo) == seg);
                assert(p.take(j - 1 - lo) == s@.subrange(lo as int, j - 1));
            } else {
                assert(s@.subrange(lo as int, j as int) == Seq::<char>::empty());
                assert(p == seg);
            }
        }
        let dot = len == 1 && s[seg_lo] == '.';
        let dotdot = len == 2 && s[seg_lo] == '.' && s[seg_lo + 1] == '.';
        assert(dot == (seg == seq!['.'])) by {
            if seg == seq!['.'] {
                assert(seg[0] == '.');
            }
            if dot {
                assert(seg =~= seq!['.']);
            }
        }
        assert(dotdot == (seg == seq!['.', '.'])) by {
            if seg == seq!['.', '.'] {
                assert(seg[0] == '.' && seg[1] == '.');
            }
            if dotdot {
                assert(seg =~= seq!['.', '.']);
            }
        }
        if len == 0 || dot {
            if j > lo {
                end = j - 1;
            } else {
                return None;
            }
        } else if dotdot {
            return None;
        } else {
            return Some((seg_lo, end));
        }
    }
}

/// Whether `s[lo..hi]` reads as the number 0 with `i32::from_str`.
fn is_zero_numeral(s: &Vec<char>, lo: usize, hi: usize) -> (b: bool)
    requires
        lo <= hi <= s.len(),
    ensures
        b == reads_as_zero(s@.subrange(lo as int, hi as int)),
{
    let ghost t = s@.subrange(lo as int, hi as int);
    let start = if lo < hi && (s[lo] == '+' || s[lo] == '-') { lo + 1 } else { lo };
    let ghost d = s@.subrange(start as int, hi as int);
    assert(d == unsigned_digits(t));
    if start == hi {
        return false;
    }
    let mut i: usize = start;
    while i < hi
        invariant
            start <= i <= hi <= s.len(),
            d == s@.subrange(start as int, hi as int),
            t == s@.subrange(lo as int, hi as int),
            d == unsigned_digits(t),
            forall|k: int| 0 <= k < i - start ==> d[k] == '0',
        decreases hi - i,
    {
        if s[i] != '0' {
            assert(d[i - start] != '0');
            return false;
        }
        i = i + 1;
    }
    true
}

/// Whether `s[lo..hi]` holds `.so`.
pub(crate) fn has_so_range(s: &Vec<char>, lo: usize, hi: usize) -> (b: bool)
    requires
        lo <= hi <= s.len(),
    ensures
        b == has_so(s@.subrange(lo as int, hi as int)),
{
    let ghost p = s@.subrange(lo as int, hi as int);
    let mut i: usize = lo;
    while hi - i >= 3
        invariant
            lo <= i <= hi <= s.len(),
            p == s@.subrange(lo as int, hi as int),
            forall|k: int| 0 <= k < i - lo && k + 3 <= p.len() ==> !(#[trigger] p[k] == '.' && p[k + 1] == 's' && p[k + 2] == 'o'),
        decreases hi - i,
    {
        if s[i] == '.' && s[i + 1] == 's' && s[i + 2] == 'o' {
            assert(p[i - lo] == '.' && p[i - lo + 1] == 's' && p[i - lo + 2] == 'o');
            return true;
        }
        i = i + 1;
    }
    false
}

/// Whether `s[lo..hi]` is a path of a module that the library lists, in a
/// process running `exe`.
fn is_module_path_range(s: &Vec<char>, lo: usize, hi: usize, exe: &Vec<char>) -> (b: bool)
    requires
        lo <= hi <= s.len(),
    ensures
        b == is_module_path(s@.subrange(lo as int, hi as int), exe@),
{
    let heap: Vec<char> = vec!['[', 'h', 'e', 'a', 'p', ']'];
    let stack: Vec<char> = vec!['[', 's', 't', 'a', 'c', 'k', ']'];
    assert(heap@ == seq!['[', 'h', 'e', 'a', 'p', ']']);
    assert(stack@ == seq!['[', 's', 't', 'a', 'c', 'k', ']']);
    range_eq(s, lo, hi, &heap) || range_eq(s, lo, hi, &stack)
        || (lo < hi && s[lo] == '/' && has_so_range(s, lo, hi))
        || (lo < hi && range_eq(s, lo, hi, exe))
}

/// `m` is the module `seg` (name, start, end, permissions) describes.
pub open spec fn describes(m: ModuleView, seg: (Seq<char>, nat, nat, Seq<char>)) -> bool {
    &&& m.name == seg.0
    &&& m.address == seg.1
    &&& m.size == seg.2 - seg.1
    &&& m.perms == seg.3
}

/// Reads one line of `/proc/<pid>/maps` of the process running `exe`: the
/// module that it describes, if the library lists it (the heap, the stack,
/// a shared object or the executable, mapped from offset 0). A line whose
/// module would end before it starts is left out, for its size could not be
/// computed.
pub fn parse_segment(line: String, exe: &str) -> (res: Option<ModuleInfo>)
    requires
        !segment_reversed(line@, exe@),
    ensures
        match res {
            Some(m) => segment(line@, exe@) matches Some(seg) && describes(m@, seg),
            None => segment(line@, exe@) is None,
        },
{
    let text = line.as_str();
    let chars = to_chars(text);
    let exe_chars = to_chars(exe);
    let ((a_lo, a_hi), (m_lo, m_hi), (lo, hi)) = match maps_line_fields(&chars) {
        Some(f) => f,
        None => return None,
    };
    let ghost path = chars@.subrange(lo as int, hi as int);
    if !is_module_path_range(&chars, lo, hi, &exe_chars) {
        return None;
    }
    let (start, end) = match address_bounds(&chars, a_lo, a_hi) {
        Some(r) => r,
        None => return None,
    };
    let (n_lo, n_hi) = match file_name_bounds(&chars, lo, hi) {
        Some(r) => r,
        None => (lo, hi),
    };
    assert(chars@.subrange(n_lo as int, n_hi as int) == display_name(path));
    let name = text.substring_char(n_lo, n_hi).to_owned();
    let perms = text.substring_char(m_lo, m_hi).to_owned();
    Some(ModuleInfo::from_parts(name, start, end - start, perms))
}

/// Whether the maps line `line` of the process running `exe` describes a
/// listed module that would end before it starts: the lines that
/// `parse_segment` cannot take.
pub fn segment_is_reversed(line: &str, exe: &str) -> (b: bool)
    ensures
        b == segment_reversed(line@, exe@),
{
    let chars = to_chars(line);
    let exe_chars = to_chars(exe);
    let ((a_lo, a_hi), (_m_lo, _m_hi), (lo, hi)) = match maps_line_fields(&chars) {
        Some(f) => f,
        None => return false,
    };
    if !is_module_path_range(&chars, lo, hi, &exe_chars) {
        return false;
    }
    match address_bounds(&chars, a_lo, a_hi) {
        Some((start, end)) => end < start,
        None => false,
    }
}

/// The bounds of the address field, the permissions and the trimmed path of
/// the maps line `s`, where `maps_fields` finds them.
pub(crate) fn maps_line_fields(s: &Vec<char>) -> (r: Option<((usize, usize), (usize, usize), (usize, usize))>)
    ensures
        match r {
            Some((a, m, p)) => {
                &&& a.0 <= a.1 <= s@.len()
                &&& m.0 <= m.1 <= s@.len()
                &&& p.0 <= p.1 <= s@.len()
                &&& maps_fields(s@) == Some((
                    s@.subrange(a.0 as int, a.1 as int),
                    s@.subrange(m.0 as int, m.1 as int),
                    s@.subrange(p.0 as int, p.1 as int),
                ))
            },
            None => maps_fields(s@) is None,
        },
{
    let len = s.len();
    assert(s@.subrange(0, len as int) == s@);
    let parts = splitn_bounds(s, 0, len, ' ', 6);
    let ghost ps = splitn(s@, ' ', 6);
    if parts.len() != 6 {
        return None;
    }
    assert(bounds_ok(s@, parts@));
    let (a_lo, a_hi) = parts[0];
    let (m_lo, m_hi) = parts[1];
    let (o_lo, o_hi) = parts[2];
    let (p_lo, p_hi) = parts[5];
    assert(a_lo <= a_hi && m_lo <= m_hi && o_lo <= o_hi && p_lo <= p_hi) by {
        assert(parts@[0].0 <= parts@[0].1);
        assert(parts@[1].0 <= parts@[1].1);
        assert(parts@[2].0 <= parts@[2].1);
        assert(parts@[5].0 <= parts@[5].1);
    }
    assert(ps[0] == s@.subrange(a_lo as int, a_hi as int));
    assert(ps[1] == s@.subrange(m_lo as int, m_hi as int));
    assert(ps[2] == s@.subrange(o_lo as int, o_hi as int));
    assert(ps[5] == s@.subrange(p_lo as int, p_hi as int));
    if !is_zero_numeral(s, o_lo, o_hi) {
        return None;
    }
    let (lo, hi) = trim_bounds(s, p_lo, p_hi);
    Some(((a_lo, a_hi), (m_lo, m_hi), (lo, hi)))
}

/// The start and end address written in `s[lo..hi]`, where `address_range`
/// finds them.
pub(crate) fn address_bounds(s: &Vec<char>, lo: usize, hi: usize) -> (r: Option<(usize, usize)>)
    requires
        lo <= hi <= s.len(),
    ensures
        match r {
            Some((a, b)) => address_range(s@.subrange(lo as int, hi as int)) == Some((a as nat, b as nat)),
            None => address_range(s@.subrange(lo as int, hi as int)) is None,
        },
{
    let halves = split_bounds(s, lo, hi, '-');
    let ghost hs = split(s@.subrange(lo as int, hi as int), '-');
    if halves.len() < 2 {
        return None;
    }
    let (s_lo, s_hi) = halves[0];
    let (e_lo, e_hi) = halves[1];
    assert(s_lo <= s_hi && e_lo <= e_hi) by {
        assert(halves@[0].0 <= halves@[0].1);
        assert(halves@[1].0 <= halves@[1].1);
    }
    assert(hs[0] == s@.subrange(s_lo as int, s_hi as int));
    assert(hs[1] == s@.subrange(e_lo as int, e_hi as int));
    let start = match parse_unsigned(s, s_lo, s_hi, 16, usize::MAX) {
        Some(v) => v,
        None => return None,
    };
    let end = match parse_unsigned(s, e_lo, e_hi, 16, usize::MAX) {
        Some(v) => v,
        None => return None,
    };
    Some((start, end))
}

/// The modules that the lines of a maps file of the process running `exe`
/// describe, in order; each line is read without its trailing whitespace.
pub open spec fn maps_modules(lines: Seq<Seq<char>>, exe: Seq<char>) -> Seq<(Seq<char>, nat, nat, Seq<char>)>
    decreases lines.len(),
{
    if lines.len() == 0 {
        seq![]
    } else {
        maps_modules(lines.drop_last(), exe) + match segment(trim_end(lines.last()), exe) {
            Some(seg) => seq![seg],
            None => seq![],
        }
    }
}

/// The text of each line.
pub open spec fn line_texts(lines: Seq<String>) -> Seq<Seq<char>> {
    lines.map_values(|l: String| l@)
}

/// The modules that the lines of `/proc/<pid>/maps` of the process running
/// `exe` describe, in order.
pub fn modules_from_maps(lines: &Vec<String>, exe: &str) -> (res: Vec<ModuleInfo>)
    requires
        forall|i: int| 0 <= i < lines@.len() ==> !segment_reversed(trim_end(#[trigger] lines@[i]@), exe@),
    ensures
        res@.len() == maps_modules(line_texts(lines@), exe@).len(),
        forall|i: int| 0 <= i < res@.len() ==> describes(#[trigger] res@[i]@, maps_modules(line_texts(lines@), exe@)[i]),
{
    let mut res: Vec<ModuleInfo> = Vec::new();
    let mut k: usize = 0;
    let ghost all = line_texts(lines@);
    while k < lines.len()
        invariant
            k <= lines@.len(),
            all == line_texts(lines@),
            forall|i: int| 0 <= i < lines@.len() ==> !segment_reversed(trim_end(#[trigger] lines@[i]@), exe@),
            res@.len() == maps_modules(all.take(k as int), exe@).len(),
            forall|i: int| 0 <= i < res@.len() ==> describes(#[trigger] res@[i]@, maps_modules(all.take(k as int), exe@)[i]),
        decreases lines.len() - k,
    {
        let text = lines[k].as_str();
        let chars = to_chars(text);
        let end = trim_end_bound(&chars, 0, chars.len());
        assert(chars@.subrange(0, chars@.len() as int) == lines@[k as int]@);
        let trimmed = text.substring_char(0, end).to_owned();
        assert(all.take(k + 1).drop_last() == all.take(k as int));
        assert(all.take(k + 1).last() == lines@[k as int]@);
        let ghost before = maps_modules(all.take(k as int), exe@);
        match parse_segment(trimmed, exe) {
            Some(m) => {
                res.push(m);
                assert forall|i: int| 0 <= i < res@.len() implies describes(#[trigger] res@[i]@, maps_modules(all.take(k + 1), exe@)[i]) by {
                    if i < before.len() {
                        assert(maps_modules(all.take(k + 1), exe@)[i] == before[i]);
                    }
                }
            },
            None => {
                assert(maps_modules(all.take(k + 1), exe@) == before);
            },
        }
        k = k + 1;
    }
    assert(all.take(k as int) == all);
    res
}

/// Reads a `/proc` entry name as a process id, as `str::parse::<u32>` does.
pub fn parse_pid(entry: &str) -> (r: Option<u32>)
    ensures
        match r {
            Some(v) => unsigned_parse(entry@, 10, u32::MAX as nat) == Some(v as nat),
            None => unsigned_parse(entry@, 10, u32::MAX as nat) is None,
        },
{
    let chars = to_chars(entry);
    assert(chars@.subrange(0, chars@.len() as int) == entry@);
    match parse_unsigned(&chars, 0, chars.len(), 10, 0xFFFF_FFFFusize) {
        Some(v) => Some(v as u32),
        None => None,
    }
}

/// Whether the contents of a process's `comm` file, without trailing
/// whitespace, are `name`.
pub fn comm_matches(comm: &str, name: &str) -> (b: bool)
    ensures
        b == (trim_end(comm@) == name@),
{
    let chars = to_chars(comm);
    let end = trim_end_bound(&chars, 0, chars.len());
    assert(chars@.subrange(0, chars@.len() as int) == comm@);
    let want = to_chars(name);
    range_eq(&chars, 0, end, &want)
}

/// An entry of `/proc`: its name, and the contents of its `comm` file where
/// that file could be read.
pub struct ProcEntry {
    pub name: String,
    pub comm: Option<String>,
}

/// The process id that the entry `e` gives to a listing of the processes
/// named `name`: its name read as a `u32`, where its `comm` file was read and
/// holds `name` (trailing whitespace aside).
pub open spec fn entry_selected(e: ProcEntry, name: Seq<char>) -> Option<u32> {
    match unsigned_parse(e.name@, 10, u32::MAX as nat) {
        Some(p) => match e.comm {
            Some(c) => if trim_end(c@) == name { Some(p as u32) } else { None },
            None => None,
        },
        None => None,
    }
}

/// The ids that the entries select for `name`, in the entries' order.
pub open spec fn selected_pids(entries: Seq<ProcEntry>, name: Seq<char>) -> Seq<u32>
    decreases entries.len(),
{
    if entries.len() == 0 {
        seq![]
    } else {
        selected_pids(entries.drop_last(), name) + match entry_selected(entries.last(), name) {
            Some(p) => seq![p],
            None => seq![],
        }
    }
}

/// The ids of the processes named `name` in a listing of `/proc`, in the
/// listing's order: entries whose name is not a process id are passed over,
/// and so are those whose `comm` file could not be read.
pub fn select_processes(name: &str, entries: &Vec<ProcEntry>) -> (r: Vec<u32>)
    ensures
        r@ == selected_pids(entries@, name@),
{
    let mut r: Vec<u32> = Vec::new();
    let mut k: usize = 0;
    while k < entries.len()
        invariant
            k <= entries@.len(),
            r@ == selected_pids(entries@.take(k as int), name@),
        decreases entries.len() - k,
    {
        let ghost e = entries@[k as int];
        assert(entries@.take(k + 1).drop_last() == entries@.take(k as int));
        assert(entries@.take(k + 1).last() == e);
        let picked = match parse_pid(entries[k].name.as_str()) {
            Some(pid) => match &entries[k].comm {
                Some(c) => if comm_matches(c.as_str(), name) { Some(pid) } else { None },
                None => None,
            },
            None => None,
        };
        assert(picked == entry_selected(e, name@));
        match picked {
            Some(pid) => r.push(pid),
            None => {},
        }
        k = k + 1;
    }
    assert(entries@.take(k as int) == entries@);
    r
}

/// An offset field of `0` digits after an optional sign reads as 0.
pub proof fn lemma_zero_offset(offset: Seq<char>)
    requires
        offset.len() > 0,
        exists|i: int| 0 <= i < offset.len() && #[trigger] offset[i] == '0',
        forall|i: int| 0 <= i < offset.len() ==> #[trigger] offset[i] == '0'
            || (i == 0 && (offset[i] == '+' || offset[i] == '-')),
    ensures
        reads_as_zero(offset),
{
    let d = unsigned_digits(offset);
    let w = choose|i: int| 0 <= i < offset.len() && #[trigger] offset[i] == '0';
    if offset[0] == '+' || offset[0] == '-' {
        assert(w > 0);
        assert(d[w - 1] == '0');
        assert forall|i: int| 0 <= i < d.len() implies #[trigger] d[i] == '0' by {
            assert(d[i] == offset[i + 1]);
        }
    } else {
        assert forall|i: int| 0 <= i < d.len() implies #[trigger] d[i] == '0' by {
            assert(d[i] == offset[i]);
        }
    }
}

/// A maps line of the process running `exe` gives a module only where it has
/// six fields (split at single spaces), its offset field is 0 (one or more
/// `0` digits, after an optional sign), and its path (the trimmed sixth
/// field) is exactly `[heap]`, exactly `[stack]`, an absolute path holding
/// `.so`, or the executable's path; the module then has the line's
/// permissions and the two hexadecimal addresses of its first field. Any
/// other mapping (`[vdso]`, `[vvar]`, an anonymous one, a data file) gives
/// none.
pub proof fn law_module_lines(line: Seq<char>, exe: Seq<char>)
    ensures
        segment(line, exe) matches Some((_, start, end, perms)) ==> {
            let parts = splitn(line, ' ', 6);
            let offset = parts[2];
            let path = trim(parts[5]);
            let addrs = split(parts[0], '-');
            &&& parts.len() == 6
            &&& offset.len() > 0
            &&& exists|i: int| 0 <= i < offset.len() && #[trigger] offset[i] == '0'
            &&& forall|i: int| 0 <= i < offset.len() ==> #[trigger] offset[i] == '0'
                || (i == 0 && (offset[i] == '+' || offset[i] == '-'))
            &&& {
                ||| path == seq!['[', 'h', 'e', 'a', 'p', ']']
                ||| path == seq!['[', 's', 't', 'a', 'c', 'k', ']']
                ||| path.len() > 0 && path[0] == '/' && exists|i: int| 0 <= i && i + 3 <= path.len()
                    && #[trigger] path[i] == '.' && path[i + 1] == 's' && path[i + 2] == 'o'
                ||| path.len() > 0 && path == exe
            }
            &&& perms == parts[1]
            &&& addrs.len() >= 2
            &&& unsigned_parse(addrs[0], 16, usize::MAX as nat) == Some(start)
            &&& unsigned_parse(addrs[1], 16, usize::MAX as nat) == Some(end)
        },
{
    if let Some(_) = segment(line, exe) {
        let parts = splitn(line, ' ', 6);
        let offset = parts[2];
        let d = unsigned_digits(offset);
        assert(d.len() > 0 && d[0] == '0');
        if offset.len() > 0 && (offset[0] == '+' || offset[0] == '-') {
            assert(offset[1] == d[0]);
        } else {
            assert(offset[0] == d[0]);
        }
        assert forall|i: int| 0 <= i < offset.len() implies #[trigger] offset[i] == '0'
            || (i == 0 && (offset[i] == '+' || offset[i] == '-')) by {
            if offset.len() > 0 && (offset[0] == '+' || offset[0] == '-') {
                if i > 0 {
                    assert(offset[i] == d[i - 1]);
                }
            } else {
                assert(offset[i] == d[i]);
            }
        }
    }
}

/// Conversely, a line with six fields, an offset field of `0` digits (after
/// an optional sign), two hexadecimal addresses and a path that is `[heap]`,
/// `[stack]`, an absolute path holding `.so` or the executable's path gives
/// the module of that path, under its display name.
pub proof fn law_module_line_listed(line: Seq<char>, exe: Seq<char>)
    requires
        ({
            let parts = splitn(line, ' ', 6);
            let offset = parts[2];
            let path = trim(parts[5]);
            let addrs = split(parts[0], '-');
            &&& parts.len() == 6
            &&& offset.len() > 0
            &&& exists|i: int| 0 <= i < offset.len() && #[trigger] offset[i] == '0'
            &&& forall|i: int| 0 <= i < offset.len() ==> #[trigger] offset[i] == '0'
                || (i == 0 && (offset[i] == '+' || offset[i] == '-'))
            &&& {
                ||| path == seq!['[', 'h', 'e', 'a', 'p', ']']
                ||| path == seq!['[', 's', 't', 'a', 'c', 'k', ']']
                ||| path.len() > 0 && path[0] == '/' && exists|i: int| 0 <= i && i + 3 <= path.len()
                    && #[trigger] path[i] == '.' && path[i + 1] == 's' && path[i + 2] == 'o'
                ||| path.len() > 0 && path == exe
            }
            &&& addrs.len() >= 2
            &&& unsigned_parse(addrs[0], 16, usize::MAX as nat) is Some
            &&& unsigned_parse(addrs[1], 16, usize::MAX as nat) is Some
        }),
    ensures
        ({
            let parts = splitn(line, ' ', 6);
            let addrs = split(parts[0], '-');
            segment(line, exe) == Some((
                display_name(trim(parts[5])),
                unsigned_parse(addrs[0], 16, usize::MAX as nat)->0,
                unsigned_parse(addrs[1], 16, usize::MAX as nat)->0,
                parts[1],
            ))
        }),
{
    lemma_zero_offset(splitn(line, ' ', 6)[2]);
}

/// An entry named by a process id is selected for `name` exactly when its
/// `comm` file was read and holds `name` character for character, trailing
/// whitespace aside (what `comm_matches` tells); it then gives that id.
pub proof fn law_entry_selected_by_exact_name(e: ProcEntry, name: Seq<char>, p: u32)
    ensures
        entry_selected(e, name) == Some(p) <==> is_process_named(e, name, p as nat),
        entry_selected(e, name) is None <==> forall|q: nat| !#[trigger] is_process_named(e, name, q),
{
    if entry_selected(e, name) is Some {
        let q = unsigned_parse(e.name@, 10, u32::MAX as nat)->0;
        assert(is_process_named(e, name, q));
    }
}

/// Selecting from two listings one after the other gives the ids selected
/// from each, in the same order.
pub proof fn law_selection_concat(a: Seq<ProcEntry>, b: Seq<ProcEntry>, name: Seq<char>)
    ensures
        selected_pids(a + b, name) == selected_pids(a, name) + selected_pids(b, name),
    decreases b.len(),
{
    if b.len() == 0 {
        assert(a + b == a);
        assert(selected_pids(b, name) == Seq::<u32>::empty());
        assert(selected_pids(a, name) + selected_pids(b, name) == selected_pids(a, name));
    } else {
        assert((a + b).drop_last() == a + b.drop_last());
        assert((a + b).last() == b.last());
        law_selection_concat(a, b.drop_last(), name);
        let tail: Seq<u32> = match entry_selected(b.last(), name) {
            Some(p) => seq![p],
            None => seq![],
        };
        assert(selected_pids(a, name) + selected_pids(b.drop_last(), name) + tail
            == selected_pids(a, name) + (selected_pids(b.drop_last(), name) + tail));
    }
}

/// The entry `e` is the process `p` whose `comm` file was read and holds
/// `name` character for character, trailing whitespace aside.
pub open spec fn is_process_named(e: ProcEntry, name: Seq<char>, p: nat) -> bool {
    &&& unsigned_parse(e.name@, 10, u32::MAX as nat) == Some(p)
    &&& e.comm is Some
    &&& trim_end(e.comm->0@) == name
}

/// Some entry of `entries` is the process `p` named `name`.
pub open spec fn has_process_named(entries: Seq<ProcEntry>, name: Seq<char>, p: nat) -> bool {
    exists|j: int| 0 <= j < entries.len() && #[trigger] is_process_named(entries[j], name, p)
}

/// Every id selected for `name` is that of an entry whose `comm` file holds
/// `name` exactly (trailing whitespace aside), and the id of every such
/// entry is selected.
pub proof fn law_selection_by_exact_name(entries: Seq<ProcEntry>, name: Seq<char>)
    ensures
        forall|k: int| 0 <= k < selected_pids(entries, name).len()
            ==> has_process_named(entries, name, #[trigger] selected_pids(entries, name)[k] as nat),
        forall|j: int, p: nat| 0 <= j < entries.len() && #[trigger] is_process_named(entries[j], name, p)
            ==> selected_pids(entries, name).contains(p as u32),
    decreases entries.len(),
{
    if entries.len() > 0 {
        let init = entries.drop_last();
        let e = entries.last();
        law_selection_by_exact_name(init, name);
        let before = selected_pids(init, name);
        let all = selected_pids(entries, name);
        assert(all == before + match entry_selected(e, name) {
            Some(p) => seq![p],
            None => seq![],
        });
        assert forall|k: int| 0 <= k < all.len() implies has_process_named(entries, name, #[trigger] all[k] as nat) by {
            if k < before.len() {
                assert(all[k] == before[k]);
                assert(has_process_named(init, name, before[k] as nat));
                let j = choose|j: int| 0 <= j < init.len() && #[trigger] is_process_named(init[j], name, before[k] as nat);
                assert(entries[j] == init[j]);
                assert(is_process_named(entries[j], name, all[k] as nat));
            } else {
                let j = entries.len() - 1;
                assert(entries[j] == e);
                assert(is_process_named(entries[j], name, all[k] as nat));
            }
        }
        assert forall|j: int, p: nat| 0 <= j < entries.len() && #[trigger] is_process_named(entries[j], name, p)
            implies all.contains(p as u32) by {
            if j < init.len() {
                assert(entries[j] == init[j]);
                let i = choose|i: int| 0 <= i < before.len() && before[i] == p as u32;
                assert(all[i] == p as u32);
            } else {
                assert(entries[j] == e);
                assert(all[all.len() - 1] == p as u32);
            }
        }
    }
}

/// Reading two runs of maps lines one after the other gives the modules of
/// the first run followed by those of the second, and a single line gives
/// at most the one it describes (read without trailing whitespace).
pub proof fn law_modules_concat(a: Seq<Seq<char>>, b: Seq<Seq<char>>, exe: Seq<char>, line: Seq<char>)
    ensures
        maps_modules(a + b, exe) == maps_modules(a, exe) + maps_modules(b, exe),
        maps_modules(seq![line], exe) == match segment(trim_end(line), exe) {
            Some(seg) => seq![seg],
            None => seq![],
        },
    decreases b.len(),
{
    assert(seq![line].drop_last() == Seq::<Seq<char>>::empty());
    assert(seq![line].last() == line);
    let one = match segment(trim_end(line), exe) {
        Some(seg) => seq![seg],
        None => seq![],
    };
    assert(maps_modules(Seq::<Seq<char>>::empty(), exe).len() == 0);
    assert(maps_modules(Seq::<Seq<char>>::empty(), exe) + one == one);
    if b.len() == 0 {
        assert(a + b == a);
        assert(maps_modules(a, exe) + maps_modules(b, exe) == maps_modules(a, exe));
    } else {
        assert((a + b).drop_last() == a + b.drop_last());
        assert((a + b).last() == b.last());
        law_modules_concat(a, b.drop_last(), exe, line);
        let tail = match segment(trim_end(b.last()), exe) {
            Some(seg) => seq![seg],
            None => seq![],
        };
        assert(maps_modules(a, exe) + maps_modules(b.drop_last(), exe) + tail
            == maps_modules(a, exe) + (maps_modules(b.drop_last(), exe) + tail));
    }
}

/// The name under which a listed module is given is the file name of the
/// mapped path, or the whole path where it has none (as
/// `Path::file_name` gives it): so is the name of every module that
/// `parse_segment` returns for the line.
pub proof fn law_module_name_is_file_name(line: Seq<char>, exe: Seq<char>, m: ModuleView)
    ensures
        segment(line, exe) matches Some(seg) ==> {
            &&& maps_fields(line) matches Some((_, _, path))
            &&& seg.0 == match file_name(path) {
                Some(n) => n,
                None => path,
            }
            &&& describes(m, seg) ==> m.name == seg.0
        },
{
}

} // verus!
