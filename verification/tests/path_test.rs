//! Paths of Windows, read and written component by component.
use procpulse::path::{backup_file_name, backup_path_in, final_name, PathStyle};

const W: PathStyle = PathStyle::Windows;

#[test]
fn backups_of_literal_paths() {
    let backup = |base: &str| backup_path_in(W, base, 2);
    assert_eq!(backup(r"\\?\C:\logs\m.csv"), r"\\?\C:\logs\m.2.csv");
    assert_eq!(backup(r"\\?\C:\m.csv"), r"\\?\C:\m.2.csv");
    assert_eq!(backup(r"\\?\C:/m.csv"), r"\\?\C:\m.2.csv");
    assert_eq!(backup(r"\\?\C:\a\\b\m.csv\"), r"\\?\C:\a\b\m.2.csv");
    assert_eq!(backup(r"\\?\C:\a\.\m.csv"), r"\\?\C:\a\.\m.2.csv");
    assert_eq!(backup(r"\\?\C:\a\..\m.csv"), r"\\?\C:\a\..\m.2.csv");
    assert_eq!(backup(r"\\?\volume\m"), r"\\?\volume\m.2");
    assert_eq!(backup(r"\\?\UNC\server\share\d\m.csv"), r"\\?\UNC\server\share\d\m.2.csv");
    assert_eq!(backup(r"\\?\UNC\server\share"), r"\\?\UNC\server\share");
    assert_eq!(backup(r"\\?\C:\a\."), r"\\?\C:\a\.");
    assert_eq!(backup(r"\\?\C:\a\.."), r"\\?\C:\a\..");
    assert_eq!(backup(r"\\?\C:\"), r"\\?\C:\");
    assert_eq!(backup(r"\\?\m.csv"), r"\\?\m.csv");
}

#[test]
fn slashes_in_literal_names() {
    let backup = |base: &str| backup_path_in(W, base, 2);
    assert_eq!(backup(r"\\?\C:\d\a/b.csv"), r"\\?\C:\d\a\b.2.csv");
    assert_eq!(backup(r"\\?\C:\d\../b.csv"), r"\\?\C:\b.2.csv");
    assert_eq!(backup(r"\\?\C:\d\./b.csv"), r"\\?\C:\d\b.2.csv");
    assert_eq!(backup(r"\\?\C:\d\/b.csv"), r"\\?\C:\b.2.csv");
    assert_eq!(backup(r"\\?\C:\d\x.y/z"), r"\\?\C:\d\x.2.y\z");
    assert_eq!(backup(r"\\?\C:\d\x:y"), "x:y.2");
    assert_eq!(backup(r"\\?\C:\d\//server/share/b.csv"), "//server/share/b.2.csv");
}

#[test]
fn backups_of_device_and_share_paths() {
    let backup = |base: &str| backup_path_in(W, base, 2);
    assert_eq!(backup(r"\\.\COM42"), r"\\.\COM42");
    assert_eq!(backup(r"\\.\disk\m.csv"), r"\\.\disk\m.2.csv");
    assert_eq!(backup("//./disk/m.csv"), "//./disk/m.2.csv");
    assert_eq!(backup(r"\\server\share"), r"\\server\share");
    assert_eq!(backup(r"\\server\share\a\.\m.csv"), r"\\server\share\a\m.2.csv");
    assert_eq!(backup("//?/share/m.csv"), "//?/share/m.2.csv");
    assert_eq!(backup(r"\\server"), r"\server.2");
    assert_eq!(backup(r"\\server\"), r"\server.2");
    assert_eq!(backup(r"\\server\\m"), r"\\server\m.2");
    assert_eq!(backup(r"\\\m"), r"\m.2");
}

#[test]
fn names_of_literal_and_device_paths() {
    let name = |path: &str| final_name(W, path);
    assert_eq!(name(r"\\?\C:\logs\svc.exe"), Some("svc.exe".to_string()));
    assert_eq!(name(r"\\?\C:\logs\a/b"), Some("a/b".to_string()));
    assert_eq!(name(r"\\?\UNC\server\share\x"), Some("x".to_string()));
    assert_eq!(name(r"\\?\C:\logs\."), None);
    assert_eq!(name(r"\\?\C:"), None);
    assert_eq!(name(r"\\.\pipe\x"), Some("x".to_string()));
    assert_eq!(name(r"\\.\pipe"), None);
    assert_eq!(name(r"\\server\share"), None);
    assert_eq!(name(r"\\server"), Some("server".to_string()));
    assert_eq!(final_name(PathStyle::Slash, r"\\?\C:\x"), Some(r"\\?\C:\x".to_string()));
}

/// What a path begins with.
#[derive(Clone, Copy, PartialEq)]
enum Begin {
    Nothing,
    Drive,
    Elsewhere,
    Literal,
}

#[derive(Clone, PartialEq)]
enum Part {
    Prefix(String),
    Root,
    Here,
    Up,
    Normal(String),
}

fn is_sep(c: char) -> bool {
    c == '/' || c == '\\'
}

fn until(s: &str, sep: fn(char) -> bool) -> (&str, &str) {
    match s.find(sep) {
        Some(k) => (&s[..k], &s[k + 1..]),
        None => (s, ""),
    }
}

fn has_drive(s: &str) -> bool {
    let b = s.as_bytes();
    b.len() >= 2 && b[0].is_ascii_alphabetic() && b[1] == b':'
}

/// Tells what a path begins with, and how long that is.
fn begin(path: &str) -> (Begin, usize) {
    let only_backslash: fn(char) -> bool = |c| c == '\\';
    if let Some(rest) = path.strip_prefix(r"\\?\") {
        let share = rest.strip_prefix("UNC").and_then(|r| r.strip_prefix(is_sep));
        return (Begin::Literal, match share {
            Some(share) => {
                let (server, more) = until(share, only_backslash);
                let (name, _) = until(more, only_backslash);
                8 + server.len() + if name.is_empty() { 0 } else { 1 + name.len() }
            }
            None if has_drive(rest) && (rest.len() == 2 || is_sep(rest.as_bytes()[2] as char)) => 6,
            None => 4 + until(rest, only_backslash).0.len(),
        });
    }
    let twice = path.strip_prefix(is_sep).and_then(|r| r.strip_prefix(is_sep));
    if let Some(rest) = twice {
        if let Some(device) = rest.strip_prefix('.').and_then(|r| r.strip_prefix(is_sep)) {
            return (Begin::Elsewhere, 4 + until(device, is_sep).0.len());
        }
        let (server, more) = until(rest, is_sep);
        let (share, _) = until(more, is_sep);
        if !server.is_empty() && !share.is_empty() {
            return (Begin::Elsewhere, 3 + server.len() + share.len());
        }
        return (Begin::Nothing, 0);
    }
    if has_drive(path) {
        (Begin::Drive, 2)
    } else {
        (Begin::Nothing, 0)
    }
}

/// Lists the components of a path.
fn parts(path: &str) -> Vec<Part> {
    let (kind, n) = begin(path);
    let mut list = Vec::new();
    let mut body = &path[n..];
    if n > 0 {
        list.push(Part::Prefix(path[..n].to_string()));
    }
    if let Some(rest) = body.strip_prefix(is_sep) {
        list.push(Part::Root);
        body = rest;
    }
    let literal = kind == Begin::Literal;
    let relative = !list.contains(&Part::Root) && (kind == Begin::Nothing || kind == Begin::Drive);
    for (i, piece) in body.split(|c: char| c == '\\' || (c == '/' && !literal)).enumerate() {
        match piece {
            "" => {}
            "." if literal || (relative && i == 0) => list.push(Part::Here),
            "." => {}
            ".." => list.push(Part::Up),
            _ => list.push(Part::Normal(piece.to_string())),
        }
    }
    list
}

/// The path without its last component and what stands before that and means nothing.
fn without_last(path: &str) -> String {
    let all = parts(path);
    let kept = &all[..all.len() - 1];
    (0..path.len())
        .filter(|k| path.is_char_boundary(*k))
        .map(|k| &path[..k])
        .find(|shorter| parts(shorter) == kept)
        .unwrap()
        .to_string()
}

/// Puts a relative path behind a directory.
fn pushed(dir: &str, name: &str) -> String {
    let (kind, n) = begin(dir);
    if begin(name).0 != Begin::Nothing || dir.is_empty() {
        return name.to_string();
    }
    if kind == Begin::Literal {
        let mut list = parts(dir);
        for part in parts(name) {
            match part {
                Part::Root => {
                    list.truncate(1);
                    list.push(Part::Root);
                }
                Part::Here => {}
                Part::Up => {
                    if let Some(Part::Normal(_)) = list.last() {
                        list.pop();
                    }
                }
                other => list.push(other),
            }
        }
        let mut text = String::new();
        let mut glue = false;
        for part in list {
            if glue && part != Part::Root {
                text.push('\\');
            }
            glue = part != Part::Root;
            match part {
                Part::Prefix(p) | Part::Normal(p) => text.push_str(&p),
                Part::Root => text.push('\\'),
                Part::Here => text.push('.'),
                Part::Up => text.push_str(".."),
            }
        }
        return text;
    }
    let bare_drive = kind == Begin::Drive && n == dir.len();
    let glue = if dir.ends_with(is_sep) || bare_drive { "" } else { "\\" };
    format!("{dir}{glue}{name}")
}

fn tails(length: usize) -> Vec<String> {
    let mut list = vec![String::new()];
    let mut done = 0;
    for _ in 0..length {
        let end = list.len();
        for i in done..end {
            for c in ['a', '.', '/', '\\', ':'] {
                let longer = format!("{}{}", list[i], c);
                list.push(longer);
            }
        }
        done = end;
    }
    list
}

const BEGINNINGS: [&str; 16] = [
    "", "C:", r"\\s", r"\\s\h", "//s/h", r"\\.", r"\\.\d", "//./d", r"\\?", "//?/x", r"\\?\",
    r"\\?\C:", r"\\?\v", r"\\?\UNC\s", r"\\?\UNC\s\h", r"\\?\UNC/",
];

#[test]
fn windows_paths_agree_with_their_components() {
    let tails = tails(5);
    for beginning in BEGINNINGS {
        for tail in &tails {
            let base = format!("{beginning}{tail}");
            let name = match parts(&base).pop() {
                Some(Part::Normal(name)) => Some(name),
                _ => None,
            };
            assert_eq!(final_name(W, &base), name, "{base}");
            let backup = match name {
                Some(name) => pushed(&without_last(&base), &backup_file_name(&name, 12)),
                None => base.clone(),
            };
            assert_eq!(backup_path_in(W, &base, 12), backup, "{base}");
        }
    }
}

#[test]
fn backups_differ_in_every_style() {
    let tails = tails(4);
    for beginning in BEGINNINGS {
        for tail in &tails {
            let base = format!("{beginning}{tail}");
            let mut seen: Vec<(u32, String)> = Vec::new();
            for style in [PathStyle::Slash, W] {
                if final_name(style, &base).is_none() {
                    assert_eq!(backup_path_in(style, &base, 1), base);
                    continue;
                }
                for index in [1u32, 2, 11] {
                    let path = backup_path_in(style, &base, index);
                    assert_ne!(path, base);
                    for (other, earlier) in &seen {
                        assert!(*other == index || path != *earlier, "{base}");
                    }
                    seen.push((index, path));
                }
            }
        }
    }
}

#[test]
fn backups_keep_directory_and_extension() {
    for (base, backup) in [
        ("x:x:y.csv", "x:y.7.csv"),
        (r"\\?\C:\/y.csv", r"\\?\C:\y.7.csv"),
        (r"\\?\C:\d\./y.csv", r"\\?\C:\d\y.7.csv"),
        (r"\\?\C:\d\e/../y.csv", r"\\?\C:\d\y.7.csv"),
        (r"C:\d\y.csv", r"C:\d\y.7.csv"),
    ] {
        assert_eq!(backup_path_in(W, base, 7), backup);
        assert!(parts(&without_last(backup)) == parts(&without_last(base)));
        assert!(final_name(W, backup).unwrap().ends_with(".csv"));
    }
    assert_eq!(backup_path_in(W, "x:X:y.csv", 7), "X:y.7.csv");
}

#[test]
fn backups_stand_beside_their_files() {
    for base in [
        r"C:\logs\m.csv", r"d\m", r"\\s\h\d\\m.csv", r"\\?\C:\a\\b\m.csv", r"\\?\UNC\s\h\m.csv",
        r"\\.\d\m.csv", r"\\s\\d\m",
    ] {
        let backup = backup_path_in(W, base, 7);
        let name = final_name(W, base).unwrap();
        assert_eq!(final_name(W, &backup), Some(backup_file_name(&name, 7)));
        assert!(parts(&without_last(&backup)) == parts(&without_last(base)));
    }
}
