use exbase::{modules_from_maps, parse_pid, select_processes, ModuleInfo, ProcEntry, ProcessInfo};

const PROCESS_MAME: &str = "bash";

/// A listing of `/proc` as a shell's process would see it: each entry's
/// name, the contents of its `comm` file and the target of its `exe` link.
fn proc_listing() -> Vec<(&'static str, &'static str, &'static str)> {
    vec![
        ("1", "systemd\n", "/usr/lib/systemd/systemd"),
        ("self", "", ""),
        ("412", "bash\n", "/usr/bin/bash"),
        ("413", "bashful\n", "/usr/bin/bashful"),
        ("cpuinfo", "", ""),
        ("977", "bash\n", "/usr/bin/bash"),
    ]
}

/// The maps file of a running bash.
fn bash_maps() -> Vec<String> {
    [
        "5581c3a00000-5581c3a30000 r--p 00000000 08:01 1311 /usr/bin/bash",
        "5581c3a30000-5581c3b0f000 r-xp 00030000 08:01 1311 /usr/bin/bash",
        "5581c4e1a000-5581c4fa8000 rw-p 00000000 00:00 0                          [heap]",
        "7f27e1a00000-7f27e1a28000 r--p 00000000 08:01 2201 /usr/lib/x86_64-linux-gnu/libc.so.6",
        "7ffc52d5d000-7ffc52d7e000 rw-p 00000000 00:00 0                          [stack]",
    ]
    .iter()
    .map(|l| l.to_string())
    .collect()
}

/// The processes named `name` in the recorded listing, selected and built
/// with the library's functions.
fn listed_processes_named(name: &str) -> Vec<ProcessInfo> {
    let listing = proc_listing();
    let entries: Vec<ProcEntry> = listing
        .iter()
        .map(|(entry, comm, _)| ProcEntry { name: entry.to_string(), comm: Some(comm.to_string()) })
        .collect();
    let mut result = Vec::new();
    for pid in select_processes(name, &entries) {
        let (_, comm, exe) = listing
            .iter()
            .find(|(entry, _, _)| parse_pid(entry) == Some(pid))
            .unwrap();
        result.push(ProcessInfo::from_comm(pid, comm, exe.to_string()));
    }
    result
}

/// The modules of a bash process, read from its recorded maps file.
fn recorded_modules(proc_info: &ProcessInfo) -> Vec<ModuleInfo> {
    modules_from_maps(&bash_maps(), &proc_info.exe())
}

#[test]
fn test1() {
    let proc_info;
    proc_info = listed_processes_named(PROCESS_MAME)
        .into_iter()
        .next()
        .unwrap();

    recorded_modules(&proc_info)
        .into_iter()
        .next()
        .unwrap();
}

#[test]
fn listing_selects_by_name() {
    let found = listed_processes_named(PROCESS_MAME);
    let pids: Vec<u32> = found.iter().map(|p| p.pid()).collect();
    assert_eq!(pids, vec![412, 977]);
    assert_eq!(found[0].name(), "bash");
    let mods = recorded_modules(&found[0]);
    assert_eq!(mods[0].name(), "bash");
    assert_eq!(mods[1].name(), "[heap]");
    assert_eq!(mods[2].name(), "libc.so.6");
}

fn entry(name: &str, comm: Option<&str>) -> ProcEntry {
    ProcEntry { name: name.to_string(), comm: comm.map(|c| c.to_string()) }
}

#[test]
fn selection_passes_over_non_pids_and_unread_comm_files() {
    let entries = vec![
        entry("977", Some("bash\n")),
        entry("self", Some("bash\n")),
        entry("12", None),
        entry("-4", Some("bash")),
        entry("4294967296", Some("bash")),
        entry("013", Some("bash \t\n")),
        entry("14", Some("bashful\n")),
        entry("15", Some(" bash\n")),
        entry("4294967295", Some("bash")),
    ];
    assert_eq!(select_processes("bash", &entries), vec![977, 13, 4294967295]);
    assert_eq!(select_processes("bashful", &entries), vec![14]);
    assert_eq!(select_processes("zsh", &entries), Vec::<u32>::new());
    assert_eq!(select_processes("bash", &Vec::new()), Vec::<u32>::new());
}
