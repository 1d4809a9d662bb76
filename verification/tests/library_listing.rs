use exbase::procinfo::{libraries_from_maps, parse_segment, ProcessInfo, SystemMem};
use exbase::error::Error;
use exbase::patern_scanner::{Pattern, PatternScanner, ScanType};

#[test]
fn library_keeps_full_path() {
    let l = parse_segment("7f1c2a400000-7f1c2a428000 r-xp 00000000 08:01 1234 /usr/lib/libc.so.6".to_string()).unwrap();
    assert_eq!(l.get_bin(), "/usr/lib/libc.so.6");
    assert_eq!(l.get_address(), 0x7f1c2a400000);
    assert_eq!(l.get_size(), 0x28000);
    assert!(l.can_read());
    assert!(!l.can_write());
}

#[test]
fn library_leaves_out_heap() {
    assert!(parse_segment("55d0c0a00000-55d0c0a21000 rw-p 00000000 00:00 0 [heap]".to_string()).is_none());
}

#[test]
fn libraries_of_maps_file() {
    let lines = vec![
        "55d0c0a00000-55d0c0a21000 rw-p 00000000 00:00 0 [heap]".to_string(),
        "7f00-7f10 rw-p 00000000 00:00 0 /lib/ld.so ".to_string(),
    ];
    let libs = libraries_from_maps(&lines);
    assert_eq!(libs.len(), 1);
    assert_eq!(libs[0].get_bin(), "/lib/ld.so");
    assert!(libs[0].can_write());
}

#[test]
fn process_info_parts() {
    let p = ProcessInfo::from_parts(5, "ABC123\n", "./ABC123\0--x\0".to_string(), "/bin/ABC123".to_string());
    assert_eq!(p.get_pid(), 5);
    assert_eq!(p.get_name(), "ABC123");
    assert_eq!(p.get_cmd(), "./ABC123\0--x\0");
    assert_eq!(p.get_executable(), "/bin/ABC123");
}

#[test]
fn system_mem_new() {
    let _m = SystemMem::new();
}

#[test]
fn errors_carry_what_failed() {
    match Error::os("OpenProcess") {
        Error::Os { syscall, .. } => assert_eq!(syscall, "OpenProcess"),
        _ => panic!("wrong error"),
    }
    let e = Error::io(std::io::Error::other("denied"), "/proc/1/maps".to_string());
    match e {
        Error::Io { path, source } => {
            assert_eq!(path, "/proc/1/maps");
            assert_eq!(source.to_string(), "denied");
        }
        _ => panic!("wrong error"),
    }
    match Error::other("Process is inactive") {
        Error::Other { message } => assert_eq!(message, "Process is inactive"),
        _ => panic!("wrong error"),
    }
}

fn on_match(_slice_out: &[u8]) {}

#[test]
fn scanner_patterns() {
    let p: Option<Pattern<fn(&[u8])>> = Pattern::new("48 8b 05 ? ? ? ?", ScanType::All, on_match);
    assert!(p.is_some());
    assert!(Pattern::new("zz", ScanType::First, on_match as fn(&[u8])).is_none());
    let mut scanner: PatternScanner<fn(&[u8])> = PatternScanner::new(0x1000..0x2000);
    scanner.add_pattern("ptr".to_string(), p.unwrap());
    scanner.add_pattern("ptr".to_string(), Pattern::new("8b ?", ScanType::First, on_match as fn(&[u8])).unwrap());
}
