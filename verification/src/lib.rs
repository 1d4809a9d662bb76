//! Reading and writing the memory of other processes: the processes and
//! their mapped modules, byte patterns with wildcards and the search for
//! them, and the decoding of what is read.
pub mod error;
pub mod text;
pub mod number;
pub mod pattern;
pub mod maps;
pub mod patern_scanner;
pub mod procinfo;

pub use crate::pattern::Pattern;
pub use crate::maps::{parse_segment, modules_from_maps, parse_pid, comm_matches, segment_is_reversed, select_processes, ProcEntry};


use vstd::prelude::*;
use crate::error::{Error, Result};

verus! {

/// The bytes of `b` before its first zero byte (all of `b` if it has none).
pub open spec fn until_nul(b: Seq<u8>) -> Seq<u8>
    decreases b.len(),
{
    if b.len() == 0 {
        b
    } else if b[0] == 0 {
        seq![]
    } else {
        seq![b[0]] + until_nul(b.drop_first())
    }
}

/// What `String::from_utf8_lossy` makes of `b`: its UTF-8 text, with each
/// invalid sequence replaced by U+FFFD.
pub uninterp spec fn utf8_lossy(b: Seq<u8>) -> Seq<char>;

/// Wraps `String::from_utf8_lossy(..).into_owned()`. Its result is named
/// `utf8_lossy`; where `b` is valid UTF-8 it is the decoded text, as the
/// function's documentation says. U+0000 is written only by the byte 0 (every
/// other sequence decodes to another character or to U+FFFD), so bytes with
/// no zero give text with no NUL. How invalid bytes are replaced is not
/// stated.
#[verifier::external_body]
fn from_utf8_lossy(b: &[u8]) -> (s: String)
    ensures
        s@ == utf8_lossy(b@),
        vstd::utf8::valid_utf8(b@) ==> s@ == vstd::utf8::decode_utf8(b@),
        !b@.contains(0u8) ==> !s@.contains('\0'),
{
    String::from_utf8_lossy(b).into_owned()
}

/// The value of the bytes `b0..b3` read as a little-endian `i32`.
pub open spec fn i32_le(b0: u8, b1: u8, b2: u8, b3: u8) -> int {
    let u = b0 as int + 256 * b1 as int + 65536 * b2 as int + 16777216 * b3 as int;
    if u >= 0x8000_0000 { u - 0x1_0000_0000 } else { u }
}

/// The value of the bytes `b0..b3` read as an `i32` in the byte order of
/// the machine the library runs on (`vstd::endian::endianness`).
pub open spec fn i32_ne(b0: u8, b1: u8, b2: u8, b3: u8) -> int {
    match vstd::endian::endianness() {
        vstd::endian::Endian::Little => i32_le(b0, b1, b2, b3),
        vstd::endian::Endian::Big => i32_le(b3, b2, b1, b0),
    }
}

/// Wraps `i32::from_ne_bytes`: the bytes read in the machine's own byte
/// order, little- or big-endian as the machine is.
#[verifier::external_body]
fn i32_from_ne_bytes(b0: u8, b1: u8, b2: u8, b3: u8) -> (r: i32)
    ensures
        r == i32_ne(b0, b1, b2, b3),
{
    i32::from_ne_bytes([b0, b1, b2, b3])
}

/// A buffer of `n` zero bytes.
pub open spec fn zeros(n: nat) -> Seq<u8> {
    Seq::new(n, |_i: int| 0u8)
}

/// Access to the memory of a process.
pub trait MemoryAccessor {
    /// Reading at `addr` into a buffer that held `before` may leave `after`
    /// in it. An implementation may say more; by default any bytes may be
    /// read, for what memory holds, and when, is up to the process being read.
    closed spec fn reads(&self, addr: usize, before: Seq<u8>, after: Seq<u8>) -> bool {
        true
    }

    /// Reads `buf.len()` bytes at `addr` into `buf`. What is promised of an
    /// implementation is that the slice keeps its length (which its type
    /// already holds it to) and that what it leaves is a read at `addr` of
    /// what the buffer held.
    fn read_buffer(&self, buf: &mut [u8], addr: usize)
        ensures
            final(buf)@.len() == old(buf)@.len(),
            self.reads(addr, old(buf)@, final(buf)@),
    ;

    /// Writes the bytes of `buf` at `addr`.
    fn write_buffer(&self, buf: &[u8], addr: usize);

    /// Reads at most `max_len` bytes at `addr`, up to the first zero byte,
    /// as text (invalid UTF-8 replaced by U+FFFD): one read at `addr` into
    /// `max_len` zero bytes.
    fn read_string(&self, addr: usize, max_len: usize) -> (s: String)
        ensures
            exists|b: Seq<u8>| {
                &&& b.len() == max_len
                &&& #[trigger] self.reads(addr, zeros(max_len as nat), b)
                &&& s@ == utf8_lossy(until_nul(b))
                &&& vstd::utf8::valid_utf8(until_nul(b)) ==> s@ == vstd::utf8::decode_utf8(until_nul(b))
                &&& !s@.contains('\0')
            },
    {
        let mut buf: Vec<u8> = vec![0u8; max_len];
        assert(buf@ == zeros(max_len as nat));
        self.read_buffer(buf.as_mut_slice(), addr);
        let s = c_string_lossy(buf.as_slice());
        assert(self.reads(addr, zeros(max_len as nat), buf@));
        s
    }
}

/// The text of `b` up to its first zero byte, as `MemoryAccessor::read_string`
/// makes it of the bytes it read.
pub fn c_string_lossy(b: &[u8]) -> (s: String)
    ensures
        s@ == utf8_lossy(until_nul(b@)),
        vstd::utf8::valid_utf8(until_nul(b@)) ==> s@ == vstd::utf8::decode_utf8(until_nul(b@)),
        !s@.contains('\0'),
{
    let mut n: usize = 0;
    while n < b.len() && b[n] != 0
        invariant
            n <= b@.len(),
            forall|j: int| 0 <= j < n ==> b@[j] != 0,
        decreases b.len() - n,
    {
        n = n + 1;
    }
    proof {
        lemma_until_nul(b@, n as int);
        assert forall|j: int| 0 <= j < b@.subrange(0, n as int).len() implies b@.subrange(0, n as int)[j] != 0u8 by {
            assert(b@.subrange(0, n as int)[j] == b@[j]);
        }
    }
    from_utf8_lossy(vstd::slice::slice_subrange(b, 0, n))
}

/// `until_nul` stops at the first zero byte.
proof fn lemma_until_nul(b: Seq<u8>, n: int)
    requires
        0 <= n <= b.len(),
        forall|j: int| 0 <= j < n ==> b[j] != 0,
        n == b.len() || b[n] == 0,
    ensures
        until_nul(b) == b.subrange(0, n),
    decreases b.len(),
{
    if b.len() > 0 && n > 0 {
        assert forall|j: int| 0 <= j < n - 1 implies b.drop_first()[j] != 0 by {
            assert(b.drop_first()[j] == b[j + 1]);
        }
        lemma_until_nul(b.drop_first(), n - 1);
        assert(seq![b[0]] + b.drop_first().subrange(0, n - 1) == b.subrange(0, n));
    } else if b.len() > 0 {
        assert(b.subrange(0, 0) == Seq::<u8>::empty());
    }
}

/// The address that an instruction at `pattern_addr`, `inst_length` bytes
/// long, refers to with the 32-bit displacement `rip_rel` (wrapping around
/// the address space).
pub open spec fn rip_target(pattern_addr: usize, inst_length: usize, rip_rel: int) -> int {
    (pattern_addr as int + inst_length as int + rip_rel) % (usize::MAX as int + 1)
}

/// The address that an instruction at `pattern_addr`, `inst_length` bytes
/// long, refers to with the displacement `rip_rel`.
pub fn rip_relative_target(pattern_addr: usize, inst_length: usize, rip_rel: i32) -> (r: usize)
    ensures
        r as int == rip_target(pattern_addr, inst_length, rip_rel as int),
{
    let ghost m = usize::MAX as int + 1;
    let base = pattern_addr.wrapping_add(inst_length);
    let ghost k1: int = if (pattern_addr as int) + (inst_length as int) > (usize::MAX as int) { 1 } else { 0 };
    assert(base as int == pattern_addr as int + inst_length as int - k1 * m);
    let r = if rip_rel >= 0 {
        let d = rip_rel as usize;
        base.wrapping_add(d)
    } else {
        let d = (-(rip_rel as i64)) as usize;
        base.wrapping_sub(d)
    };
    proof {
        let t = pattern_addr as int + inst_length as int + rip_rel as int;
        let k: int = if rip_rel >= 0 {
            if (base as int) + (rip_rel as int) > (usize::MAX as int) { k1 + 1 } else { k1 }
        } else {
            if (base as int) + (rip_rel as int) < 0 { k1 - 1 } else { k1 }
        };
        assert(r as int == t - k * m);
        vstd::arithmetic::div_mod::lemma_mod_multiples_vanish(k, r as int, m);
        vstd::arithmetic::div_mod::lemma_small_mod(r as nat, m as nat);
        assert(m * k + r as int == t);
    }
    r
}

/// The address that an instruction at `pattern_addr`, `inst_length` bytes
/// long, refers to with the displacement held in the bytes `b0..b3`, read in
/// the machine's byte order.
pub fn rip_target_of_bytes(pattern_addr: usize, inst_length: usize, b0: u8, b1: u8, b2: u8, b3: u8) -> (r: usize)
    ensures
        r as int == rip_target(pattern_addr, inst_length, i32_ne(b0, b1, b2, b3)),
{
    let rip_rel = i32_from_ne_bytes(b0, b1, b2, b3);
    rip_relative_target(pattern_addr, inst_length, rip_rel)
}

/// Reads the 32-bit displacement at `pattern_addr + offset` (one read of four
/// zero bytes there) and gives the address that the instruction at
/// `pattern_addr`, `inst_length` bytes long, refers to with it.
pub fn relative_address(mem: &impl MemoryAccessor, pattern_addr: usize, offset: usize, inst_length: usize) -> (r: usize)
    requires
        pattern_addr + offset <= usize::MAX,
    ensures
        exists|b: Seq<u8>| {
            &&& b.len() == 4
            &&& #[trigger] mem.reads((pattern_addr + offset) as usize, zeros(4), b)
            &&& r as int == rip_target(pattern_addr, inst_length, i32_ne(b[0], b[1], b[2], b[3]))
        },
{
    let mut buf: Vec<u8> = vec![0u8; 4];
    assert(buf@ == zeros(4));
    mem.read_buffer(buf.as_mut_slice(), pattern_addr + offset);
    let r = rip_target_of_bytes(pattern_addr, inst_length, buf[0], buf[1], buf[2], buf[3]);
    assert(mem.reads((pattern_addr + offset) as usize, zeros(4), buf@));
    r
}

/// A running process: its id, its name and its executable.
#[derive(Debug)]
pub struct ProcessInfo {
    pid: u32,
    name: String,
    exe: String,
}

/// What a `ProcessInfo` holds.
pub struct ProcessView {
    pub pid: u32,
    pub name: Seq<char>,
    pub exe: Seq<char>,
}

/// The process `pid` whose `comm` file holds `comm`, running `exe`: named
/// by `comm` without trailing whitespace.
pub open spec fn process_from_comm(pid: u32, comm: Seq<char>, exe: Seq<char>) -> ProcessView {
    ProcessView { pid, name: crate::text::trim_end(comm), exe }
}

/// A process that a listing for `name` selects by its `comm` file (as
/// `comm_matches` does) and builds from that same file (as
/// `ProcessInfo::from_comm` does) is named `name` and keeps its id.
pub proof fn law_selected_process_is_named(pid: u32, comm: Seq<char>, name: Seq<char>, exe: Seq<char>)
    requires
        crate::text::trim_end(comm) == name,
    ensures
        process_from_comm(pid, comm, exe).name == name,
        process_from_comm(pid, comm, exe).pid == pid,
{
}

impl Clone for ProcessInfo {
    /// A copy holding the same values.
    fn clone(&self) -> (r: Self)
        ensures
            r@ == self@,
    {
        ProcessInfo { pid: self.pid, name: self.name.clone(), exe: self.exe.clone() }
    }
}

impl View for ProcessInfo {
    type V = ProcessView;

    closed spec fn view(&self) -> ProcessView {
        ProcessView { pid: self.pid, name: self.name@, exe: self.exe@ }
    }
}

impl ProcessInfo {
    /// The process `pid`, named by the contents of its `comm` file (trailing
    /// whitespace removed), running the executable `exe`.
    pub fn from_comm(pid: u32, comm: &str, exe: String) -> (p: Self)
        ensures
            p@ == process_from_comm(pid, comm@, exe@),
    {
        let chars = crate::text::to_chars(comm);
        let end = crate::text::trim_end_bound(&chars, 0, chars.len());
        assert(chars@.subrange(0, chars@.len() as int) == comm@);
        let name = comm.substring_char(0, end).to_owned();
        ProcessInfo { pid, name, exe }
    }

    /// The process `pid`, named `name`, running the executable `exe`.
    pub fn from_parts(pid: u32, name: String, exe: String) -> (p: Self)
        ensures
            p@ == (ProcessView { pid, name: name@, exe: exe@ }),
    {
        ProcessInfo { pid, name, exe }
    }

    /// The process id.
    pub fn pid(&self) -> (r: u32)
        ensures
            r == self@.pid,
    {
        self.pid
    }

    /// The process name.
    pub fn name(&self) -> (r: String)
        ensures
            r@ == self@.name,
    {
        self.name.clone()
    }

    /// The path of the process's executable.
    pub fn exe(&self) -> (r: String)
        ensures
            r@ == self@.exe,
    {
        self.exe.clone()
    }
}

/// A module mapped into a process: its name, where it starts, its size and
/// its permissions (as `/proc/<pid>/maps` writes them, e.g. `r-xp`).
#[derive(Debug)]
pub struct ModuleInfo {
    name: String,
    address: usize,
    size: usize,
    perms: String,
}

/// What a `ModuleInfo` holds.
pub struct ModuleView {
    pub name: Seq<char>,
    pub address: usize,
    pub size: usize,
    pub perms: Seq<char>,
}

impl Clone for ModuleInfo {
    /// A copy holding the same values.
    fn clone(&self) -> (r: Self)
        ensures
            r@ == self@,
    {
        ModuleInfo { name: self.name.clone(), address: self.address, size: self.size, perms: self.perms.clone() }
    }
}

impl View for ModuleInfo {
    type V = ModuleView;

    closed spec fn view(&self) -> ModuleView {
        ModuleView { name: self.name@, address: self.address, size: self.size, perms: self.perms@ }
    }
}

impl ModuleInfo {
    /// The module `name`, `size` bytes long from `address`, with the
    /// permissions `perms`.
    pub fn from_parts(name: String, address: usize, size: usize, perms: String) -> (m: Self)
        ensures
            m@ == (ModuleView { name: name@, address, size, perms: perms@ }),
    {
        ModuleInfo { name, address, size, perms }
    }

    /// The module's name.
    pub fn name(&self) -> (r: String)
        ensures
            r@ == self@.name,
    {
        self.name.clone()
    }

    /// Where the module starts.
    pub fn address(&self) -> (r: usize)
        ensures
            r == self@.address,
    {
        self.address
    }

    /// The module's size in bytes.
    pub fn size(&self) -> (r: usize)
        ensures
            r == self@.size,
    {
        self.size
    }

    /// The module's permissions.
    pub fn perms(&self) -> (r: String)
        ensures
            r@ == self@.perms,
    {
        self.perms.clone()
    }

    /// Whether the module may be read: its permissions start with `r`.
    /// The permissions must start with an ASCII character.
    pub fn can_read(&self) -> (r: bool)
        requires
            self@.perms.len() >= 1,
            (self@.perms[0] as u32) < 0x80,
        ensures
            r == (self@.perms[0] == 'r'),
    {
        self.perms.as_str().get_char(0) == 'r'
    }

    /// Whether the module may be written: the second character of its
    /// permissions is `w`. The first two characters must be ASCII.
    pub fn can_write(&self) -> (r: bool)
        requires
            self@.perms.len() >= 2,
            (self@.perms[0] as u32) < 0x80,
            (self@.perms[1] as u32) < 0x80,
        ensures
            r == (self@.perms[1] == 'w'),
    {
        self.perms.as_str().get_char(1) == 'w'
    }
}

/// Access to the memory of a running process, through system calls.
pub struct SysMem {
    pid: i32,
}

impl SysMem {
    /// The process whose memory this is.
    pub closed spec fn process(&self) -> i32 {
        self.pid
    }

    /// The memory of the process `pid`; `alive` tells whether that process
    /// is running. A process that is not running gives an error.
    pub fn new(pid: u32, alive: bool) -> (res: Result<Self>)
        ensures
            alive <==> res is Ok,
            res matches Ok(m) ==> m.process() == pid as i32,
            res matches Err(e) ==> e.is_other("Process is inactive"@),
    {
        if !alive {
            return Err(Error::other("Process is inactive"));
        }
        Ok(SysMem { pid: pid as i32 })
    }

    /// The process whose memory this is.
    pub fn pid(&self) -> (r: i32)
        ensures
            r == self.process(),
    {
        self.pid
    }
}

} // verus!
