use exbase::{c_string_lossy, relative_address, rip_relative_target, MemoryAccessor, SysMem};
use std::cell::RefCell;

/// Memory held in a buffer, starting at address `base`.
struct BufferMem {
    base: usize,
    bytes: RefCell<Vec<u8>>,
}

impl MemoryAccessor for BufferMem {
    fn read_buffer(&self, buf: &mut [u8], addr: usize) {
        let bytes = self.bytes.borrow();
        for (i, b) in buf.iter_mut().enumerate() {
            *b = bytes.get(addr - self.base + i).copied().unwrap_or(0);
        }
    }

    fn write_buffer(&self, buf: &[u8], addr: usize) {
        let mut bytes = self.bytes.borrow_mut();
        for (i, b) in buf.iter().enumerate() {
            bytes[addr - self.base + i] = *b;
        }
    }
}

#[test]
fn relative_address_positive_displacement() {
    let disp: i32 = 0x2a51;
    let mut bytes = vec![0x48, 0x8b, 0x05];
    bytes.extend_from_slice(&disp.to_ne_bytes());
    let mem = BufferMem { base: 0x1000, bytes: RefCell::new(bytes) };
    assert_eq!(relative_address(&mem, 0x1000, 3, 7), 0x1000 + 7 + 0x2a51);
}

#[test]
fn relative_address_negative_displacement() {
    let disp: i32 = -0x20;
    let mut bytes = vec![0x48, 0x8d, 0x0d];
    bytes.extend_from_slice(&disp.to_ne_bytes());
    let mem = BufferMem { base: 0x4000, bytes: RefCell::new(bytes) };
    assert_eq!(relative_address(&mem, 0x4000, 3, 7), 0x4000 + 7 - 0x20);
}

#[test]
fn rip_target_wraps_around() {
    assert_eq!(rip_relative_target(usize::MAX, 1, 0), 0);
    assert_eq!(rip_relative_target(0, 2, -3), usize::MAX);
    assert_eq!(rip_relative_target(0x1000, 7, i32::MIN), 0x1007usize.wrapping_sub(0x8000_0000));
    assert_eq!(rip_relative_target(0x10, 0, i32::MAX), 0x10 + 0x7fff_ffff);
}

#[test]
fn read_string_stops_at_nul() {
    let mem = BufferMem { base: 0, bytes: RefCell::new(b"hello\0world".to_vec()) };
    assert_eq!(mem.read_string(0, 64), "hello");
    assert_eq!(mem.read_string(6, 3), "wor");
    assert_eq!(mem.read_string(6, 0), "");
}

#[test]
fn write_then_read_string() {
    let mem = BufferMem { base: 0x100, bytes: RefCell::new(vec![b'x'; 8]) };
    mem.write_buffer(b":p\0", 0x100);
    assert_eq!(mem.read_string(0x100, 8), ":p");
}

#[test]
fn c_string_lossy_replaces_invalid_utf8() {
    assert_eq!(c_string_lossy(b"ab\xffc\0d"), "ab\u{FFFD}c");
    assert_eq!(c_string_lossy("héllo".as_bytes()), "héllo");
    assert_eq!(c_string_lossy(b""), "");
}

#[test]
fn sys_mem_needs_a_running_process() {
    let err = SysMem::new(42, false).err().unwrap();
    match err {
        exbase::error::Error::Other { message } => assert_eq!(message, "Process is inactive"),
        _ => panic!("wrong error"),
    }
    let mem = SysMem::new(42, true).unwrap();
    assert_eq!(mem.pid(), 42);
}
