use exbase::{comm_matches, modules_from_maps, parse_pid, parse_segment, ProcessInfo};

const LIBC: &str = "7f1c2a400000-7f1c2a428000 r--p 00000000 08:01 1234                       /usr/lib/x86_64-linux-gnu/libc.so.6";
const HEAP: &str = "55d0c0a00000-55d0c0a21000 rw-p 00000000 00:00 0                          [heap]";
const EXE: &str = "/usr/bin/bash";
const STACK: &str = "7ffd1e000000-7ffd1e021000 rw-p 00000000 00:00 0                          [stack]";

#[test]
fn segment_of_shared_object() {
    let m = parse_segment(LIBC.to_string(), EXE).unwrap();
    assert_eq!(m.name(), "libc.so.6");
    assert_eq!(m.address(), 0x7f1c2a400000);
    assert_eq!(m.size(), 0x28000);
    assert!(m.can_read());
    assert!(!m.can_write());
}

#[test]
fn segment_of_heap_and_stack() {
    let h = parse_segment(HEAP.to_string(), EXE).unwrap();
    assert_eq!(h.name(), "[heap]");
    assert_eq!(h.size(), 0x21000);
    assert!(h.can_read() && h.can_write());
    let s = parse_segment(STACK.to_string(), EXE).unwrap();
    assert_eq!(s.name(), "[stack]");
    assert_eq!(s.address(), 0x7ffd1e000000);
}

#[test]
fn segment_left_out() {
    // offset not zero
    assert!(parse_segment("7f1c2a428000-7f1c2a5bd000 r-xp 00028000 08:01 1234 /usr/lib/libc.so.6".to_string(), EXE).is_none());
    // neither a shared object nor the executable
    assert!(parse_segment("55d0bf000000-55d0bf030000 r--p 00000000 08:01 99 /usr/bin/bash".to_string(), "/usr/bin/zsh").is_none());
    assert!(parse_segment("55d0bf000000-55d0bf030000 r--p 00000000 08:01 99 /usr/share/locale".to_string(), EXE).is_none());
    // anonymous mapping: five fields
    assert!(parse_segment("7f1c2a600000-7f1c2a610000 rw-p 00000000 00:00 0".to_string(), EXE).is_none());
    // relative path
    assert!(parse_segment("1000-2000 r--p 00000000 00:00 0 lib.so".to_string(), EXE).is_none());
    // bad address
    assert!(parse_segment("zz-2000 r--p 00000000 00:00 0 /a.so".to_string(), EXE).is_none());
    assert!(parse_segment("1000 r--p 00000000 00:00 0 /a.so".to_string(), EXE).is_none());
}

#[test]
fn segment_offset_read_as_decimal_zero() {
    assert!(parse_segment("1000-2000 r--p -0 00:00 0 /a.so".to_string(), EXE).is_some());
    assert!(parse_segment("1000-2000 r--p +000 00:00 0 /a.so".to_string(), EXE).is_some());
    assert!(parse_segment("1000-2000 r--p 0x0 00:00 0 /a.so".to_string(), EXE).is_none());
}

#[test]
fn segment_name_is_file_name() {
    let m = parse_segment("1000-3000 r--p 00000000 00:00 0 /opt/x/libfoo.so/.".to_string(), EXE).unwrap();
    assert_eq!(m.name(), "libfoo.so");
    let m = parse_segment("1000-3000 r--p 00000000 00:00 0 /opt/libfoo.so/..".to_string(), EXE).unwrap();
    assert_eq!(m.name(), "/opt/libfoo.so/..");
    assert_eq!(m.size(), 0x2000);
}

#[test]
fn modules_of_maps_file() {
    let lines = vec![
        "55d0bf000000-55d0bf030000 r--p 00000000 08:01 99 /usr/bin/bash".to_string(),
        format!("{HEAP}  \r"),
        LIBC.to_string(),
        "7f1c2a428000-7f1c2a5bd000 r-xp 00028000 08:01 1234 /usr/lib/libc.so.6".to_string(),
        STACK.to_string(),
    ];
    let mods = modules_from_maps(&lines, EXE);
    let names: Vec<String> = mods.iter().map(|m| m.name()).collect();
    assert_eq!(names, vec!["bash", "[heap]", "libc.so.6", "[stack]"]);
}

#[test]
fn pid_from_entry_name() {
    assert_eq!(parse_pid("123"), Some(123));
    assert_eq!(parse_pid("+7"), Some(7));
    assert_eq!(parse_pid("4294967295"), Some(u32::MAX));
    assert_eq!(parse_pid("4294967296"), None);
    assert_eq!(parse_pid("self"), None);
    assert_eq!(parse_pid(""), None);
    assert_eq!(parse_pid("-1"), None);
}

#[test]
fn comm_compared_without_trailing_whitespace() {
    assert!(comm_matches("bash\n", "bash"));
    assert!(!comm_matches(" bash\n", "bash"));
    assert!(!comm_matches("bash2\n", "bash"));
}

#[test]
fn process_info_from_comm() {
    let p = ProcessInfo::from_comm(77, "ABC123\n", "/path/to/ABC123".to_string());
    assert_eq!(p.pid(), 77);
    assert_eq!(p.name(), "ABC123");
    assert_eq!(p.exe(), "/path/to/ABC123");
}

#[test]
fn executable_listed_by_its_name() {
    let line = "00400000-00401000 r-xp 00000000 00:23 1730705                            /path/to/ABC123";
    let m = parse_segment(line.to_string(), "/path/to/ABC123").unwrap();
    assert_eq!(m.name(), "ABC123");
    assert_eq!(m.address(), 0x400000);
    assert_eq!(m.size(), 0x1000);
    // a later mapping of the executable is not from offset 0
    let data = "00403000-00404000 rw-p 00002000 00:23 1730705                            /path/to/ABC123";
    assert!(parse_segment(data.to_string(), "/path/to/ABC123").is_none());
}

#[test]
fn process_clone_keeps_values() {
    let p = ProcessInfo::from_comm(9, "x\n", "/x".to_string());
    let q = p.clone();
    assert_eq!((q.pid(), q.name(), q.exe()), (9, "x".to_string(), "/x".to_string()));
}
