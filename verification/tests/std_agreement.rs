use exbase::{comm_matches, parse_pid, parse_segment, Pattern};

/// Deterministic pseudo-random strings over `alphabet`.
fn strings(alphabet: &[char], count: usize, max_len: usize, seed: u64) -> Vec<String> {
    let mut state = seed;
    let mut next = move || {
        state = state.wrapping_mul(6364136223846793005).wrapping_add(1442695040888963407);
        (state >> 33) as usize
    };
    (0..count)
        .map(|_| {
            let len = next() % (max_len + 1);
            (0..len).map(|_| alphabet[next() % alphabet.len()]).collect()
        })
        .collect()
}

#[test]
fn pid_reading_agrees_with_str_parse() {
    let alphabet = ['0', '1', '9', '+', '-', 'a', ' ', '4'];
    let mut inputs = strings(&alphabet, 3000, 12, 7);
    inputs.extend(["4294967295", "4294967296", "0000000000004", "+", "", "99999999999"].iter().map(|s| s.to_string()));
    for s in inputs {
        assert_eq!(parse_pid(&s), s.parse::<u32>().ok(), "{s:?}");
    }
}

/// A pattern read with the standard library's splitting and number reading.
fn pattern_by_std(pattern: &str) -> Option<(Vec<u8>, Vec<u8>)> {
    if pattern.trim().is_empty() {
        return None;
    }
    let mut bytes = Vec::new();
    let mut mask = Vec::new();
    for word in pattern.split_whitespace() {
        if word.len() > 2 {
            return None;
        }
        let any_wild = word.contains('?');
        if word == "??" || (any_wild && word.len() == 1) {
            bytes.push(0);
            mask.push(0);
        } else if !any_wild {
            bytes.push(u8::from_str_radix(word, 16).ok()?);
            mask.push(0xFF);
        } else {
            let mut chars: Vec<char> = word.chars().collect();
            let m = if chars[0] == '?' {
                chars[0] = '0';
                0x0F
            } else {
                chars[1] = '0';
                0xF0
            };
            bytes.push(u8::from_str_radix(&chars.iter().collect::<String>(), 16).ok()?);
            mask.push(m);
        }
    }
    Some((bytes, mask))
}

#[test]
fn pattern_reading_agrees_with_std() {
    let alphabet = ['0', 'f', 'A', '?', ' ', '\t', '+', '-', 'g', 'é', '\u{2003}', '9'];
    for s in strings(&alphabet, 5000, 10, 11) {
        let ours = Pattern::new(&s).map(|p| (p.bytes, p.mask));
        assert_eq!(ours, pattern_by_std(&s), "{s:?}");
    }
}

#[test]
fn module_names_agree_with_path_file_name() {
    let alphabet = ['/', '.', 's', 'o', 'a', ' '];
    for tail in strings(&alphabet, 3000, 10, 3) {
        let path = format!("/x.so{tail}");
        let line = format!("1000-2000 r--p 00000000 00:00 0 {path}");
        let trimmed = path.trim();
        let expected = std::path::Path::new(trimmed).file_name().and_then(|s| s.to_str()).unwrap_or(trimmed);
        let m = parse_segment(line.clone(), "").unwrap();
        assert_eq!(m.name(), expected, "{line:?}");
    }
}

#[test]
fn offsets_agree_with_i32_parse() {
    let alphabet = ['0', '1', '+', '-', 'x'];
    for off in strings(&alphabet, 2000, 6, 5) {
        if off.is_empty() {
            continue;
        }
        let line = format!("1000-2000 r--p {off} 00:00 0 /a.so");
        let expected = off.parse::<i32>().ok() == Some(0);
        assert_eq!(parse_segment(line, "").is_some(), expected, "{off:?}");
    }
}

#[test]
fn addresses_agree_with_from_str_radix() {
    let alphabet = ['0', 'f', 'F', '+', '-', 'z', '1'];
    for a in strings(&alphabet, 2000, 20, 9) {
        let line = format!("{a} r--p 0 00:00 0 /a.so");
        let parts: Vec<&str> = a.split('-').collect();
        let start = usize::from_str_radix(parts[0], 16).ok();
        let end = parts.get(1).and_then(|e| usize::from_str_radix(e, 16).ok());
        match (start, end) {
            (Some(s), Some(e)) if s <= e => {
                let m = parse_segment(line, "").unwrap();
                assert_eq!((m.address(), m.size()), (s, e - s), "{a:?}");
            }
            (Some(_), Some(_)) => {}
            _ => assert!(parse_segment(line, "").is_none(), "{a:?}"),
        }
    }
}

#[test]
fn comm_matching_agrees_with_trim_end() {
    let alphabet = ['b', 'a', ' ', '\n', '\u{a0}'];
    for comm in strings(&alphabet, 2000, 6, 13) {
        for name in ["b", "ba", "b a", ""] {
            assert_eq!(comm_matches(&comm, name), comm.trim_end() == name, "{comm:?}");
        }
    }
}

/// Every offset where the pattern matches, found by trying each one.
fn matches_by_trying(bytes: &[u8], mask: &[u8], buf: &[u8]) -> Vec<usize> {
    let m = bytes.len();
    if m == 0 || buf.len() < m {
        return Vec::new();
    }
    (0..=buf.len() - m)
        .filter(|&k| (0..m).all(|i| buf[k + i] & mask[i] == bytes[i] & mask[i]))
        .collect()
}

#[test]
fn scan_agrees_with_trying_every_offset() {
    let words = ["12", "?2", "1?", "??", "21", "?1", "3?"];
    let mut state: u64 = 17;
    let mut next = move || {
        state = state.wrapping_mul(6364136223846793005).wrapping_add(1442695040888963407);
        (state >> 33) as usize
    };
    for _ in 0..3000 {
        let len = 1 + next() % 4;
        let text: Vec<&str> = (0..len).map(|_| words[next() % words.len()]).collect();
        let p = Pattern::new(&text.join(" ")).unwrap();
        let buf: Vec<u8> = (0..next() % 12).map(|_| [0x12u8, 0x21, 0x31, 0x22, 0x11][next() % 5]).collect();
        let all = matches_by_trying(&p.bytes, &p.mask, &buf);
        assert_eq!(p.scan(&buf, false), all, "{text:?} {buf:?}");
        assert_eq!(p.scan(&buf, true), all.into_iter().take(1).collect::<Vec<_>>(), "{text:?} {buf:?}");
    }
}
