use xray_oxide_core::{
    archive_payload, decode_legacy, ignore_name, parse_fs_ltx, ArchivePayload, CodePage, FSPath, Filesystem,
    FilesystemError, FilesystemFSPathError, ReadSource, ScanAction, StrExt, VirtualFile,
};

fn record(ty: u32, payload: &[u8]) -> Vec<u8> {
    let mut v = ty.to_le_bytes().to_vec();
    v.extend((payload.len() as u32).to_le_bytes());
    v.extend_from_slice(payload);
    v
}

fn entry(size_real: u32, size_compressed: u32, name: &[u8], ptr: u32) -> Vec<u8> {
    let mut body = size_real.to_le_bytes().to_vec();
    body.extend(size_compressed.to_le_bytes());
    body.extend(0u32.to_le_bytes());
    body.extend_from_slice(name);
    body.extend(ptr.to_le_bytes());
    let mut v = (body.len() as u16).to_le_bytes().to_vec();
    v.extend(body);
    v
}

/// An archive with the given header text and file table, padded to 0x400
/// bytes.
fn archive_bytes(header: &str, table: &[u8]) -> Vec<u8> {
    let mut data = record(666, header.as_bytes());
    data.extend(record(1, table));
    data.resize(0x400, 0);
    data
}

fn game_data_fs() -> Filesystem {
    let mut fs = Filesystem::with_root("/tmp/x".to_string());
    let p = fs.resolve_alias("$fs_root$", Some("data".to_string()), None, None, true, false);
    fs.insert_path("$game_data$".to_string(), p);
    fs
}

fn describe(f: &VirtualFile) -> (Option<usize>, usize, usize, usize) {
    (f.archive(), f.size_real(), f.size_compressed(), f.ptr())
}

#[test]
fn config_parse_fs_root() {
    let entries = parse_fs_ltx("$game_data$ = true | false | $fs_root$ | data\n", "fs.ltx").unwrap();
    assert_eq!(entries.len(), 1);
    let e = &entries[0];
    assert_eq!(e.line, 1);
    assert_eq!(e.id, "$game_data$");
    assert!(e.recurse);
    assert!(!e.notify);
    assert_eq!(e.root, "$fs_root$");
    assert_eq!(e.add, Some("data".to_string()));
    assert_eq!(e.def_ext, None);

    let mut fs = Filesystem::with_root("/tmp/x".to_string());
    let p = fs.resolve_alias(&e.root, e.add.clone(), e.def_ext.clone(), e.filter_caption.clone(), e.recurse, e.notify);
    assert_eq!(p.path(), "/tmp/x/data");
    assert_eq!(p.root(), "/tmp/x");
    assert!(p.recurse());
    assert!(!p.notify());
    assert_eq!(fs.get_path("$fs_root$").unwrap().path(), "/tmp/x");
    fs.insert_path(e.id.clone(), p);
    assert_eq!(fs.append_path("$game_data$", "textures"), Some("/tmp/x/data/textures".to_string()));
    assert_eq!(fs.append_path("$nope$", "textures"), None);
}

#[test]
fn config_all_fields_and_comments() {
    let text = "; comment\n$a$ = on | yes | /abs/root | sub | *.dds | Textures\r\n$b$=0|1|$a$\n";
    let entries = parse_fs_ltx(text, "fs.ltx").unwrap();
    assert_eq!(entries.len(), 2);
    assert_eq!(entries[0].line, 2);
    assert!(entries[0].recurse && entries[0].notify);
    assert_eq!(entries[0].root, "/abs/root");
    assert_eq!(entries[0].add, Some("sub".to_string()));
    assert_eq!(entries[0].def_ext, Some("*.dds".to_string()));
    assert_eq!(entries[0].filter_caption, Some("Textures".to_string()));
    assert_eq!(entries[1].line, 3);
    assert!(!entries[1].recurse);
    assert!(entries[1].notify);
    assert_eq!(entries[1].root, "$a$");
    assert_eq!(entries[1].add, None);

    let mut fs = Filesystem::with_root("/r".to_string());
    let a = fs.resolve_alias(&entries[0].root, entries[0].add.clone(), None, None, true, true);
    assert_eq!(a.path(), "/abs/root/sub");
    fs.insert_path("$a$".to_string(), a);
    let b = fs.resolve_alias(&entries[1].root, entries[1].add.clone(), None, None, false, true);
    assert_eq!(b.path(), "/abs/root/sub");
    assert!(fs.get_path("$fs_root$").is_none());
}

#[test]
fn config_missing_field() {
    let r = parse_fs_ltx("; c\n$a$ = true | false\n", "fsgame.ltx");
    assert_eq!(r.err(), Some(FilesystemError::InvalidFsLtxSyntax { file_name: "fsgame.ltx".to_string(), line: 2 }));
}

#[test]
fn config_line_without_equals() {
    let r = parse_fs_ltx("$a$ = 1 | 1 | /x\n\n", "f.ltx");
    assert_eq!(r.err(), Some(FilesystemError::InvalidFsLtxSyntax { file_name: "f.ltx".to_string(), line: 2 }));
}

#[test]
fn config_empty_text() {
    assert_eq!(parse_fs_ltx("", "f.ltx").unwrap().len(), 0);
}

#[test]
fn truthy_strings() {
    for s in ["on", "yes", "true", "1"] {
        assert!(s.is_bool_true(), "{}", s);
    }
    for s in ["On", "TRUE", "0", "", "no", " on"] {
        assert!(!s.is_bool_true(), "{}", s);
    }
}

#[test]
fn ignored_names() {
    assert!(ignore_name("Thumbs.db"));
    assert!(ignore_name(".svn"));
    assert!(!ignore_name("thumbs.db"));
    assert!(!ignore_name("a.svn"));
}

#[test]
fn fs_path_join() {
    let p = FSPath::new("/a/b".to_string(), Some("c".to_string()), None, None, false, true);
    assert_eq!(p.path(), "/a/b/c");
    assert_eq!(p.appended("d/e"), "/a/b/c/d/e");
    assert_eq!(p.appended("/abs"), "/abs");
    let q = FSPath::new("/a/".to_string(), None, None, None, true, false);
    assert_eq!(q.path(), "/a/");
    assert_eq!(q.appended("x"), "/a/x");
    let d = FSPath::default();
    assert_eq!(d.path(), "");
    assert_eq!(d.appended("x"), "x");
    assert!(!d.recurse());
}

#[test]
fn archive_entry_resolution() {
    let mut fs = game_data_fs();
    let data = archive_bytes(
        "[header]\nauto_load = on\nentry_point = $game_data$\\textures\n",
        &entry(10, 5, b"sky.tga", 0x200),
    );
    fs.process_archive("/tmp/x/data/a.db".to_string(), &data, CodePage::Windows1252).unwrap();
    assert_eq!(fs.archive_count(), 1);
    assert_eq!(fs.archive(0).unwrap().index(), 0);
    assert_eq!(fs.archive(0).unwrap().size(), 0x400);
    let f = fs.file("/tmp/x/data/textures/sky.tga").unwrap();
    assert_eq!(f.name(), "/tmp/x/data/textures/sky.tga");
    assert_eq!(describe(f), (Some(0), 10, 5, 0x200));
    // The directory that holds the file carries the archive; those above do not.
    assert_eq!(describe(fs.file("/tmp/x/data/textures").unwrap()), (Some(0), 0, 0, 0));
    assert_eq!(describe(fs.file("/tmp/x/data").unwrap()), (None, 0, 0, 0));
    assert!(fs.file("/").is_some());
}

#[test]
fn archive_names_use_backslashes() {
    let mut fs = game_data_fs();
    let data = archive_bytes(
        "[header]\nauto_load = true\nentry_point = $game_data$\\shaders\\r3\n",
        &entry(4, 4, b"sub\\stub_default.ps", 0x10),
    );
    fs.process_archive("/arc/b.xdb0".to_string(), &data, CodePage::Windows1252).unwrap();
    assert!(fs.file("/tmp/x/data/shaders/r3/sub/stub_default.ps").is_some());
    assert!(fs.file("/tmp/x/data/shaders/r3").is_some());
}

#[test]
fn archive_shadowing() {
    let mut fs = game_data_fs();
    let header = "[header]\nauto_load = 1\nentry_point = $game_data$\\shaders\n";
    let first = archive_bytes(header, &entry(8, 8, b"r3\\stub_default.ps", 0x40));
    let second = archive_bytes(header, &entry(9, 6, b"r3\\stub_default.ps", 0x80));
    fs.process_archive("/arc/first.db".to_string(), &first, CodePage::Windows1252).unwrap();
    fs.process_archive("/arc/second.db".to_string(), &second, CodePage::Windows1252).unwrap();
    assert_eq!(fs.archive_count(), 2);
    let f = fs.file("/tmp/x/data/shaders/r3/stub_default.ps").unwrap();
    assert_eq!(describe(f), (Some(0), 8, 8, 0x40));
}

#[test]
fn archive_processed_twice() {
    let mut fs = game_data_fs();
    let data = archive_bytes(
        "[header]\nauto_load = on\nentry_point = $game_data$\\t\n",
        &entry(1, 1, b"a", 0),
    );
    fs.process_archive("/arc/a.db".to_string(), &data, CodePage::Windows1252).unwrap();
    let files = fs.file_count();
    fs.process_archive("/arc/a.db".to_string(), &data, CodePage::Windows1252).unwrap();
    assert_eq!(fs.archive_count(), 1);
    assert_eq!(fs.file_count(), files);
    assert!(fs.has_archive("/arc/a.db"));
    assert!(!fs.has_archive("/arc/b.db"));
}

#[test]
fn archive_without_auto_load() {
    let mut fs = game_data_fs();
    let data = archive_bytes("[header]\nentry_point = $game_data$\\t\n", &entry(1, 1, b"a", 0));
    fs.process_archive("/arc/a.db".to_string(), &data, CodePage::Windows1252).unwrap();
    assert_eq!(fs.archive_count(), 1);
    assert_eq!(fs.file_count(), 0);
    assert!(fs.archive(0).unwrap().header().is_some());
}

#[test]
fn archive_unknown_alias() {
    let mut fs = Filesystem::with_root("/r".to_string());
    let data = archive_bytes("[header]\nauto_load = on\nentry_point = $nope$\\t\n", &entry(1, 1, b"a", 0));
    fs.process_archive("/arc/a.db".to_string(), &data, CodePage::Windows1252).unwrap();
    assert!(fs.file("t/a").is_some());
    assert!(fs.file("t").is_some());
}

#[test]
fn archive_errors() {
    let table = entry(1, 1, b"a", 0);
    let cases: Vec<(Vec<u8>, FilesystemError)> = vec![
        (record(1, &table), FilesystemError::UnsupportedArchive),
        (archive_bytes("[header]\nauto_load = on\nentry_point = gamedata\n", &table), FilesystemError::UnsupportedArchive),
        (archive_bytes("[header]\nauto_load = on\nentry_point = nothing\n", &table), FilesystemError::UnsupportedArchive),
        (archive_bytes("[header]\nauto_load = on\n", &table), FilesystemError::UnsupportedArchive),
        (record(666, &[0xFF, 0xFE]), FilesystemError::Encoding),
        (record(666, b"[header\nauto_load = on\n"), FilesystemError::InvalidHeader),
        (vec![1, 2, 3], FilesystemError::Truncated),
        (vec![], FilesystemError::UnsupportedArchive),
        (record(5, &[1, 2]), FilesystemError::UnsupportedArchive),
        (record(666 | 0x8000_0000, &[1]), FilesystemError::Compression),
        (record(666, b"[header]\nauto_load = on\nentry_point = $a$\\t\n"), FilesystemError::MissingFileTable),
        (archive_bytes("[header]\nauto_load = on\nentry_point = $a$\\t\n", &[3, 0, 1, 2, 3]), FilesystemError::MalformedFileTable),
        (archive_bytes("[header]\nauto_load = on\nentry_point = $a$\\t\n", &entry(10, 10, b"a", 0x3FF)), FilesystemError::EntryOutOfRange),
    ];
    for (i, (data, err)) in cases.into_iter().enumerate() {
        let mut fs = Filesystem::with_root("/r".to_string());
        assert_eq!(fs.process_archive(format!("/arc/{}.db", i), &data, CodePage::Windows1252), Err(err), "case {}", i);
        assert_eq!(fs.archive_count(), 1, "case {}", i);
        assert_eq!(fs.file_count(), 0, "case {}", i);
    }
}

#[test]
fn archive_undefined_1252_bytes() {
    let mut fs = Filesystem::with_root("/r".to_string());
    let data = archive_bytes("[header]\nauto_load = on\nentry_point = $a$\\t\n", &entry(1, 1, &[b'a', 0x81], 0));
    fs.process_archive("/arc/a.db".to_string(), &data, CodePage::Windows1252).unwrap();
    assert!(fs.file("t/a\u{81}").is_some());
}

#[test]
fn archive_names_in_machine_code_page() {
    let mut fs = Filesystem::with_root("/r".to_string());
    let data = archive_bytes("[header]\nauto_load = on\nentry_point = $a$\\t\n", &entry(1, 1, &[0xFF, 0xC0], 0));
    // Outside Windows the ANSI code page is UTF-8, which these bytes are not.
    assert_eq!(fs.process_archive("/arc/a.db".to_string(), &data, CodePage::Ansi), Err(FilesystemError::Encoding));
    let mut fs = Filesystem::with_root("/r".to_string());
    let data = archive_bytes("[header]\nauto_load = on\nentry_point = $a$\\t\n", &entry(1, 1, b"ok.txt", 0));
    fs.process_archive("/arc/a.db".to_string(), &data, CodePage::Ansi).unwrap();
    assert!(fs.file("t/ok.txt").is_some());
}

#[test]
fn archive_names_in_windows_1252() {
    let mut fs = game_data_fs();
    let data = archive_bytes(
        "[header]\nauto_load = on\nentry_point = $game_data$\\t\n",
        &entry(1, 1, b"caf\xe9 \x80\x9f.txt", 0),
    );
    fs.process_archive("/arc/a.db".to_string(), &data, CodePage::Windows1252).unwrap();
    assert!(fs.file("/tmp/x/data/t/caf\u{e9} \u{20ac}\u{178}.txt").is_some());
}

#[test]
fn legacy_decoding() {
    assert_eq!(decode_legacy(b"abc", CodePage::Windows1252), Some("abc".to_string()));
    assert_eq!(decode_legacy(&[0x80, 0xA0, 0xFF], CodePage::Windows1252), Some("\u{20ac}\u{a0}\u{ff}".to_string()));
    for b in [0x81u8, 0x8D, 0x8F, 0x90, 0x9D] {
        assert_eq!(decode_legacy(&[b], CodePage::Windows1252), Some(char::from(b).to_string()));
    }
    assert_eq!(decode_legacy(&[0x93, 0x94, 0x96], CodePage::Windows1252), Some("\u{201c}\u{201d}\u{2013}".to_string()));
    assert_eq!(decode_legacy("\u{e9}".as_bytes(), CodePage::Ansi), Some("\u{e9}".to_string()));
}

#[test]
fn register_first_write_wins() {
    let mut fs = Filesystem::with_root("/".to_string());
    fs.register("/a/b.txt".to_string(), None, 5, 5, 0);
    fs.register("/a/b.txt".to_string(), None, 9, 9, 0);
    assert_eq!(describe(fs.file("/a/b.txt").unwrap()), (None, 5, 5, 0));
}

#[test]
fn register_covers_ancestors() {
    let mut fs = Filesystem::with_root("/".to_string());
    fs.register("/a/b/c/d.txt".to_string(), None, 1, 1, 0);
    for p in ["/a/b/c/d.txt", "/a/b/c", "/a/b", "/a", "/"] {
        assert!(fs.file(p).is_some(), "{}", p);
    }
    assert_eq!(fs.file_count(), 5);
    fs.register("rel/x".to_string(), None, 0, 0, 0);
    assert!(fs.file("rel").is_some());
    assert!(fs.file("").is_some());
    assert_eq!(fs.file_count(), 8);
}

#[test]
fn resolve_disk_and_archive() {
    let mut fs = game_data_fs();
    let data = archive_bytes(
        "[header]\nauto_load = on\nentry_point = $game_data$\\textures\n",
        &entry(10, 5, b"sky.tga", 0x200),
    );
    fs.process_archive("/tmp/x/data/a.db".to_string(), &data, CodePage::Windows1252).unwrap();
    fs.register("/tmp/x/data/readme.txt".to_string(), None, 3, 3, 0);
    assert_eq!(fs.resolve("/tmp/x/data/readme.txt"), Ok(ReadSource::Disk("/tmp/x/data/readme.txt".to_string())));
    assert_eq!(
        fs.resolve("/tmp/x/data/textures/sky.tga"),
        Ok(ReadSource::Archive { path: "/tmp/x/data/a.db".to_string(), ptr: 0x200, size_compressed: 5, size_real: 10 })
    );
    assert_eq!(
        fs.resolve("/tmp/x/data/missing"),
        Err(FilesystemFSPathError::NotFound { path: "/tmp/x/data/missing".to_string() })
    );
}

#[test]
fn scan_entries() {
    let mut fs = Filesystem::with_root("/g".to_string());
    assert_eq!(fs.process_single("/g", "Thumbs.db", false, false, 3, true), ScanAction::Skip);
    assert_eq!(fs.process_single("/g", "h.txt", false, true, 3, true), ScanAction::Skip);
    assert_eq!(fs.process_single("/g", "sub", true, false, 0, false), ScanAction::Skip);
    assert_eq!(fs.process_single("/g", "..", true, false, 0, true), ScanAction::Skip);
    assert_eq!(fs.file_count(), 0);
    assert_eq!(fs.process_single("/g", "sub", true, false, 0, true), ScanAction::Descend("/g/sub".to_string()));
    assert!(fs.file("/g/sub").is_some());
    assert_eq!(fs.process_single("/g", "gamedata.db0", false, false, 9, true), ScanAction::Archive("/g/gamedata.db0".to_string()));
    assert_eq!(fs.process_single("/g", "x.xdb_a", false, false, 9, true), ScanAction::Archive("/g/x.xdb_a".to_string()));
    assert!(fs.file("/g/gamedata.db0").is_none());
    assert_eq!(fs.process_single("/g", ".db", false, false, 2, true), ScanAction::Registered);
    assert_eq!(fs.process_single("/g", "level.ltx", false, false, 42, true), ScanAction::Registered);
    assert_eq!(describe(fs.file("/g/level.ltx").unwrap()), (None, 42, 42, 0));
}

#[test]
fn payload_of_region() {
    assert_eq!(archive_payload(&[1, 2, 3], 3, 3), Some(ArchivePayload::Stored(vec![1, 2, 3])));
    assert_eq!(
        archive_payload(&[1, 2, 3], 3, 8),
        Some(ArchivePayload::Lzo1x { compressed: vec![1, 2, 3], size_real: 8 })
    );
    assert_eq!(archive_payload(&[1, 2], 3, 3), None);
}

#[test]
fn virtual_file_accessors() {
    let f = VirtualFile::new("/a".to_string(), Some(2), 10, 4, 99);
    assert_eq!(f.name(), "/a");
    assert_eq!(describe(&f), (Some(2), 10, 4, 99));
    let g = VirtualFile::only_name("/b".to_string());
    assert_eq!(describe(&g), (None, 0, 0, 0));
}
