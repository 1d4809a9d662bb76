//! The process and library listing with command lines: processes found by
//! name, and the shared libraries mapped into them.
use vstd::prelude::*;
use crate::maps::{maps_fields, address_range, has_so, maps_line_fields, address_bounds, has_so_range, line_texts};
use crate::text::{trim_end, to_chars, trim_end_bound};

verus! {

/// A running process: its id, name, command line and executable.
#[derive(Debug)]
pub struct ProcessInfo {
    pid: u32,
    name: String,
    cmd: String,
    exe: String,
}

/// What a `ProcessInfo` holds.
pub struct ProcessView {
    pub pid: u32,
    pub name: Seq<char>,
    pub cmd: Seq<char>,
    pub exe: Seq<char>,
}

impl Clone for ProcessInfo {
    /// A copy holding the same values.
    fn clone(&self) -> (r: Self)
        ensures
            r@ == self@,
    {
        ProcessInfo { pid: self.pid, name: self.name.clone(), cmd: self.cmd.clone(), exe: self.exe.clone() }
    }
}

impl View for ProcessInfo {
    type V = ProcessView;

    closed spec fn view(&self) -> ProcessView {
        ProcessView { pid: self.pid, name: self.name@, cmd: self.cmd@, exe: self.exe@ }
    }
}

impl ProcessInfo {
    /// The process `pid`, named by the contents of its `comm` file (trailing
    /// whitespace removed), started with the command line `cmd` (as its
    /// `cmdline` file holds it), running the executable `exe`.
    pub fn from_parts(pid: u32, comm: &str, cmd: String, exe: String) -> (p: Self)
        ensures
            p@ == (ProcessView { pid, name: trim_end(comm@), cmd: cmd@, exe: exe@ }),
    {
        let chars = to_chars(comm);
        let end = trim_end_bound(&chars, 0, chars.len());
        assert(chars@.subrange(0, chars@.len() as int) == comm@);
        let name = comm.substring_char(0, end).to_owned();
        ProcessInfo { pid, name, cmd, exe }
    }

    /// The process id.
    pub fn get_pid(&self) -> (r: u32)
        ensures
            r == self@.pid,
    {
        self.pid
    }

    /// The process name.
    pub fn get_name(&self) -> (r: String)
        ensures
            r@ == self@.name,
    {
        self.name.clone()
    }

    /// The path of the process's executable.
    pub fn get_executable(&self) -> (r: String)
        ensures
            r@ == self@.exe,
    {
        self.exe.clone()
    }

    /// The command line, as the process's `cmdline` file holds it.
    pub fn get_cmd(&self) -> (r: String)
        ensures
            r@ == self@.cmd,
    {
        self.cmd.clone()
    }
}

/// A shared library mapped into a process: its path, where it starts, its
/// size and its permissions (e.g. `r-xp`).
#[derive(Debug)]
pub struct LibraryInfo {
    bin: String,
    address: usize,
    size: usize,
    perms: String,
}

/// What a `LibraryInfo` holds.
pub struct LibraryView {
    pub bin: Seq<char>,
    pub address: usize,
    pub size: usize,
    pub perms: Seq<char>,
}

impl Clone for LibraryInfo {
    /// A copy holding the same values.
    fn clone(&self) -> (r: Self)
        ensures
            r@ == self@,
    {
        LibraryInfo { bin: self.bin.clone(), address: self.address, size: self.size, perms: self.perms.clone() }
    }
}

impl View for LibraryInfo {
    type V = LibraryView;

    closed spec fn view(&self) -> LibraryView {
        LibraryView { bin: self.bin@, address: self.address, size: self.size, perms: self.perms@ }
    }
}

impl LibraryInfo {
    /// The path of the library.
    pub fn get_bin(&self) -> (r: String)
        ensures
            r@ == self@.bin,
    {
        self.bin.clone()
    }

    /// Where the library starts.
    pub fn get_address(&self) -> (r: usize)
        ensures
            r == self@.address,
    {
        self.address
    }

    /// The library's size in bytes.
    pub fn get_size(&self) -> (r: usize)
        ensures
            r == self@.size,
    {
        self.size
    }

    /// Whether the library may be read: its permissions start with `r`.
    /// The permissions must start with an ASCII character.
    pub fn can_read(&self) -> (r: bool)
        requires
            self@.perms.len() >= 1,
            (self@.perms[0] as u32) < 0x80,
        ensures
            r == (self@.perms[0] == 'r'),
    {
        self.perms.as_str().get_char(0) == 'r'
    }

    /// Whether the library may be written: the second character of its
    /// permissions is `w`. The first two characters must be ASCII.
    pub fn can_write(&self) -> (r: bool)
        requires
            self@.perms.len() >= 2,
            (self@.perms[0] as u32) < 0x80,
            (self@.perms[1] as u32) < 0x80,
        ensures
            r == (self@.perms[1] == 'w'),
    {
        self.perms.as_str().get_char(1) == 'w'
    }
}

/// Memory access through system calls.
pub struct SystemMem {}

impl SystemMem {
    /// A new accessor.
    pub fn new() -> (m: Self)
        ensures
            m == (SystemMem {}),
    {
        SystemMem {}
    }
}

/// The path, start, end and permissions of the shared library that a maps
/// line describes: a path that starts with `/` and holds `.so`, mapped from
/// offset 0.
pub open spec fn library_segment(line: Seq<char>) -> Option<(Seq<char>, nat, nat, Seq<char>)> {
    match maps_fields(line) {
        Some((addr, perms, path)) => if path.len() > 0 && path[0] == '/' && has_so(path) {
            match address_range(addr) {
                Some((s, e)) => Some((path, s, e, perms)),
                None => None,
            }
        } else {
            None
        },
        None => None,
    }
}

/// A maps line whose library would end before it starts.
pub open spec fn library_reversed(line: Seq<char>) -> bool {
    library_segment(line) matches Some((_, s, e, _)) && e < s
}

/// `l` is the library that `seg` (path, start, end, permissions) describes.
pub open spec fn describes(l: LibraryView, seg: (Seq<char>, nat, nat, Seq<char>)) -> bool {
    &&& l.bin == seg.0
    &&& l.address == seg.1
    &&& l.size == seg.2 - seg.1
    &&& l.perms == seg.3
}

/// Reads one line of `/proc/<pid>/maps`: the shared library that it
/// describes, if any. A line whose library would end before it starts is
/// left out, for its size could not be computed.
pub fn parse_segment(line: String) -> (res: Option<LibraryInfo>)
    requires
        !library_reversed(line@),
    ensures
        match res {
            Some(l) => library_segment(line@) matches Some(seg) && describes(l@, seg),
            None => library_segment(line@) is None,
        },
{
    let text = line.as_str();
    let chars = to_chars(text);
    let ((a_lo, a_hi), (m_lo, m_hi), (lo, hi)) = match maps_line_fields(&chars) {
        Some(f) => f,
        None => return None,
    };
    if !(lo < hi && chars[lo] == '/' && has_so_range(&chars, lo, hi)) {
        return None;
    }
    let (start, end) = match address_bounds(&chars, a_lo, a_hi) {
        Some(r) => r,
        None => return None,
    };
    let bin = text.substring_char(lo, hi).to_owned();
    let perms = text.substring_char(m_lo, m_hi).to_owned();
    Some(LibraryInfo { bin, address: start, size: end - start, perms })
}

/// Whether the maps line `line` describes a shared library that would end
/// before it starts: the lines that `parse_segment` cannot take.
pub fn library_is_reversed(line: &str) -> (b: bool)
    ensures
        b == library_reversed(line@),
{
    let chars = to_chars(line);
    let ((a_lo, a_hi), (_m_lo, _m_hi), (lo, hi)) = match maps_line_fields(&chars) {
        Some(f) => f,
        None => return false,
    };
    if !(lo < hi && chars[lo] == '/' && has_so_range(&chars, lo, hi)) {
        return false;
    }
    match address_bounds(&chars, a_lo, a_hi) {
        Some((start, end)) => end < start,
        None => false,
    }
}

/// A maps line gives a library only where it has six fields (split at single
/// spaces), its offset field is 0 (one or more `0` digits, after an optional
/// sign), and its path (the trimmed sixth field) is absolute and holds
/// `.so`; the library is then that path, with the line's permissions and
/// the two hexadecimal addresses of its first field. Every line with another
/// offset, or whose path is not absolute or holds no `.so`, gives none.
pub proof fn law_library_lines(line: Seq<char>)
    ensures
        library_segment(line) matches Some((path, start, end, perms)) ==> {
            let parts = crate::text::splitn(line, ' ', 6);
            let offset = parts[2];
            let addrs = crate::text::split(parts[0], '-');
            &&& parts.len() == 6
            &&& offset.len() > 0
            &&& exists|i: int| 0 <= i < offset.len() && #[trigger] offset[i] == '0'
            &&& forall|i: int| 0 <= i < offset.len() ==> #[trigger] offset[i] == '0'
                || (i == 0 && (offset[i] == '+' || offset[i] == '-'))
            &&& path == crate::text::trim(parts[5])
            &&& path.len() > 0 && path[0] == '/'
            &&& exists|i: int| 0 <= i && i + 3 <= path.len() && #[trigger] path[i] == '.'
                && path[i + 1] == 's' && path[i + 2] == 'o'
            &&& perms == parts[1]
            &&& addrs.len() >= 2
            &&& crate::number::unsigned_parse(addrs[0], 16, usize::MAX as nat) == Some(start)
            &&& crate::number::unsigned_parse(addrs[1], 16, usize::MAX as nat) == Some(end)
        },
{
    if let Some((path, start, end, perms)) = library_segment(line) {
        let parts = crate::text::splitn(line, ' ', 6);
        let offset = parts[2];
        let d = crate::maps::unsigned_digits(offset);
        assert(d.len() > 0 && d[0] == '0');
        if offset.len() > 0 && (offset[0] == '+' || offset[0] == '-') {
            assert(offset[1] == d[0]);
        } else {
            assert(offset[0] == d[0]);
        }
        assert forall|i: int| 0 <= i < offset.len() implies #[trigger] offset[i] == '0'
            || (i == 0 && (offset[i] == '+' || offset[i] == '-')) by {
            if offset.len() > 0 && (offset[0] == '+' || offset[0] == '-') {
                if i > 0 {
                    assert(offset[i] == d[i - 1]);
                }
            } else {
                assert(offset[i] == d[i]);
            }
        }
    }
}

/// Conversely, a line with six fields, an offset field of `0` digits (after
/// an optional sign), an absolute path holding `.so` and two hexadecimal
/// addresses gives the library at that path.
pub proof fn law_library_line_listed(line: Seq<char>)
    requires
        ({
            let parts = crate::text::splitn(line, ' ', 6);
            let offset = parts[2];
            let path = crate::text::trim(parts[5]);
            let addrs = crate::text::split(parts[0], '-');
            &&& parts.len() == 6
            &&& offset.len() > 0
            &&& exists|i: int| 0 <= i < offset.len() && #[trigger] offset[i] == '0'
            &&& forall|i: int| 0 <= i < offset.len() ==> #[trigger] offset[i] == '0'
                || (i == 0 && (offset[i] == '+' || offset[i] == '-'))
            &&& path.len() > 0 && path[0] == '/'
            &&& exists|i: int| 0 <= i && i + 3 <= path.len() && #[trigger] path[i] == '.'
                && path[i + 1] == 's' && path[i + 2] == 'o'
            &&& addrs.len() >= 2
            &&& crate::number::unsigned_parse(addrs[0], 16, usize::MAX as nat) is Some
            &&& crate::number::unsigned_parse(addrs[1], 16, usize::MAX as nat) is Some
        }),
    ensures
        ({
            let parts = crate::text::splitn(line, ' ', 6);
            let addrs = crate::text::split(parts[0], '-');
            library_segment(line) == Some((
                crate::text::trim(parts[5]),
                crate::number::unsigned_parse(addrs[0], 16, usize::MAX as nat)->0,
                crate::number::unsigned_parse(addrs[1], 16, usize::MAX as nat)->0,
                parts[1],
            ))
        }),
{
    let parts = crate::text::splitn(line, ' ', 6);
    let offset = parts[2];
    crate::maps::lemma_zero_offset(offset);
}

/// The libraries that the lines of a maps file describe, in order; each
/// line is read without its trailing whitespace.
pub open spec fn maps_libraries(lines: Seq<Seq<char>>) -> Seq<(Seq<char>, nat, nat, Seq<char>)>
    decreases lines.len(),
{
    if lines.len() == 0 {
        seq![]
    } else {
        maps_libraries(lines.drop_last()) + match library_segment(trim_end(lines.last())) {
            Some(seg) => seq![seg],
            None => seq![],
        }
    }
}

/// Reading two runs of maps lines one after the other gives the libraries of
/// the first run followed by those of the second, and a single line gives
/// at most the one it describes (read without trailing whitespace).
pub proof fn law_libraries_concat(a: Seq<Seq<char>>, b: Seq<Seq<char>>, line: Seq<char>)
    ensures
        maps_libraries(a + b) == maps_libraries(a) + maps_libraries(b),
        maps_libraries(seq![line]) == match library_segment(trim_end(line)) {
            Some(seg) => seq![seg],
            None => seq![],
        },
    decreases b.len(),
{
    assert(seq![line].drop_last() == Seq::<Seq<char>>::empty());
    assert(seq![line].last() == line);
    let one = match library_segment(trim_end(line)) {
        Some(seg) => seq![seg],
        None => seq![],
    };
    assert(maps_libraries(Seq::<Seq<char>>::empty()).len() == 0);
    assert(maps_libraries(Seq::<Seq<char>>::empty()) + one == one);
    if b.len() == 0 {
        assert(a + b == a);
        assert(maps_libraries(a) + maps_libraries(b) == maps_libraries(a));
    } else {
        assert((a + b).drop_last() == a + b.drop_last());
        assert((a + b).last() == b.last());
        law_libraries_concat(a, b.drop_last(), line);
        let tail = match library_segment(trim_end(b.last())) {
            Some(seg) => seq![seg],
            None => seq![],
        };
        assert(maps_libraries(a) + maps_libraries(b.drop_last()) + tail
            == maps_libraries(a) + (maps_libraries(b.drop_last()) + tail));
    }
}

/// The shared libraries that the lines of `/proc/<pid>/maps` describe, in order.
pub fn libraries_from_maps(lines: &Vec<String>) -> (res: Vec<LibraryInfo>)
    requires
        forall|i: int| 0 <= i < lines@.len() ==> !library_reversed(trim_end(#[trigger] lines@[i]@)),
    ensures
        res@.len() == maps_libraries(line_texts(lines@)).len(),
        forall|i: int| 0 <= i < res@.len() ==> describes(#[trigger] res@[i]@, maps_libraries(line_texts(lines@))[i]),
{
    let mut res: Vec<LibraryInfo> = Vec::new();
    let mut k: usize = 0;
    let ghost all = line_texts(lines@);
    while k < lines.len()
        invariant
            k <= lines@.len(),
            all == line_texts(lines@),
            forall|i: int| 0 <= i < lines@.len() ==> !library_reversed(trim_end(#[trigger] lines@[i]@)),
            res@.len() == maps_libraries(all.take(k as int)).len(),
            forall|i: int| 0 <= i < res@.len() ==> describes(#[trigger] res@[i]@, maps_libraries(all.take(k as int))[i]),
        decreases lines.len() - k,
    {
        let text = lines[k].as_str();
        let chars = to_chars(text);
        let end = trim_end_bound(&chars, 0, chars.len());
        assert(chars@.subrange(0, chars@.len() as int) == lines@[k as int]@);
        let trimmed = text.substring_char(0, end).to_owned();
        assert(all.take(k + 1).drop_last() == all.take(k as int));
        assert(all.take(k + 1).last() == lines@[k as int]@);
        let ghost before = maps_libraries(all.take(k as int));
        match parse_segment(trimmed) {
            Some(l) => {
                res.push(l);
                assert forall|i: int| 0 <= i < res@.len() implies describes(#[trigger] res@[i]@, maps_libraries(all.take(k + 1))[i]) by {
                    if i < before.len() {
                        assert(maps_libraries(all.take(k + 1))[i] == before[i]);
                    }
                }
            },
            None => {
                assert(maps_libraries(all.take(k + 1)) == before);
            },
        }
        k = k + 1;
    }
    assert(all.take(k as int) == all);
    res
}

} // verus!
