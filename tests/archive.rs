use etfs::{to_archive_path, to_normal_path, ArchiveError, EtFile, EtFileSystem, OpenMode};

fn le32(b: &[u8], at: usize) -> u32 {
    u32::from_le_bytes([b[at], b[at + 1], b[at + 2], b[at + 3]])
}

fn build(entries: &[(&[u8], &str)]) -> Vec<u8> {
    let mut fs = EtFileSystem::write("test.pak");
    for (data, path) in entries {
        fs.add_file(data, path).expect("add");
    }
    fs.close_file_system().expect("close");
    fs.image().clone()
}

#[test]
fn test_to_normal_path() {
    let path = to_normal_path("\\resource\\uistring\\uistring.xml").unwrap();

    assert_eq!(path, "resource/uistring/uistring.xml");
}

#[test]
fn test_get_decompressed_data() {
    let etfile = EtFile::from_source(b"Version 7", "/version.cfg").expect("Cannot create a new EtFile");

    let decompressed = String::from_utf8(etfile.get_decompressed_data().unwrap()).unwrap();

    assert_eq!("Version 7", decompressed);
}

#[test]
fn normal_path_of_empty_is_invalid() {
    assert_eq!(to_normal_path(""), Err(ArchiveError::InvalidFormat));
}

#[test]
fn normal_path_strips_only_first_separator() {
    assert_eq!(to_normal_path("\\\\a\\b").unwrap(), "/a/b");
    assert_eq!(to_normal_path("\\").unwrap(), "");
}

#[test]
fn archive_path_adds_separator_and_backslashes() {
    assert_eq!(to_archive_path("resource/ui/x.xml"), "\\resource\\ui\\x.xml");
    assert_eq!(to_archive_path(""), "\\");
}

#[test]
fn archive_and_normal_paths_invert() {
    let stored = to_archive_path("a/b/c.txt");
    assert_eq!(to_normal_path(&stored).unwrap(), "a/b/c.txt");
}

#[test]
fn entry_from_source_sizes() {
    let e = EtFile::from_source(b"hello hello hello", "\\h.txt").unwrap();
    assert_eq!(e.file_size, 17);
    assert_eq!(e.comp_size as usize, e.comp_data.len());
    assert_eq!(e.alloc_size, e.comp_size);
    assert_eq!(e.data_offset, 0);
    assert_eq!(e.path, "\\h.txt");
    assert_ne!(e.get_compressed_data().as_slice(), b"hello hello hello");
    assert!(!e.is_deleted());
}

#[test]
fn entry_rejects_long_path() {
    let long = format!("\\{}", "a".repeat(255));
    assert_eq!(EtFile::from_source(b"x", &long).err(), Some(ArchiveError::InvalidFormat));
    let fits = format!("\\{}", "a".repeat(254));
    assert!(EtFile::from_source(b"x", &fits).is_ok());
}

#[test]
fn empty_meta_is_deleted() {
    let e = EtFile::empty_meta("\\gone.txt");
    assert!(e.is_deleted());
    assert_eq!(e.path, "\\gone.txt");
    assert!(e.comp_data.is_empty());
}

#[test]
fn compression_round_trip() {
    for input in [&b""[..], &b"a"[..], &b"Version 7"[..], &[0u8; 5000][..]] {
        let e = EtFile::from_source(input, "\\f").unwrap();
        assert_eq!(e.get_decompressed_data().unwrap(), input.to_vec());
    }
}

#[test]
fn corrupt_payload_is_reported() {
    let mut e = EtFile::empty_meta("\\bad");
    e.comp_data = vec![1, 2, 3, 4, 5];
    assert_eq!(e.get_decompressed_data(), Err(ArchiveError::CorruptData));
}

#[test]
fn file_info_layout() {
    let mut e = EtFile::from_source(b"abc", "\\x.txt").unwrap();
    e.data_offset = 1024;
    let rec = e.get_file_info().unwrap();
    assert_eq!(rec.len(), 316);
    assert_eq!(&rec[..6], b"\\x.txt");
    assert!(rec[6..256].iter().all(|b| *b == 0));
    assert_eq!(le32(&rec, 256), e.comp_size);
    assert_eq!(le32(&rec, 260), 3);
    assert_eq!(le32(&rec, 264), e.comp_size);
    assert_eq!(le32(&rec, 268), 1024);
    assert!(rec[272..].iter().all(|b| *b == 0));
}

#[test]
fn file_info_rejects_long_path() {
    let mut e = EtFile::empty_meta("\\x");
    e.path = "b".repeat(256);
    assert_eq!(e.get_file_info(), Err(ArchiveError::InvalidFormat));
}

#[test]
fn new_writer_has_provisional_header() {
    let fs = EtFileSystem::new("x.pak".to_string());
    let img = fs.image();
    assert_eq!(img.len(), 1024);
    assert_eq!(&img[..32], b"EyedentityGames Packing File 0.1");
    assert_eq!(le32(img, 256), 11);
    assert_eq!(le32(img, 260), 0);
    assert_eq!(le32(img, 264), 0);
    assert_eq!(fs.mode(), OpenMode::Write);
    assert_eq!(fs.file_name(), "x.pak");
}

#[test]
fn minimal_archive() {
    let image = build(&[(b"Version 7", "\\version.cfg")]);
    let fs = EtFileSystem::read("version.pak", &image).unwrap();
    let files = fs.get_files();
    assert_eq!(files.len(), 1);
    assert_eq!(to_normal_path(&files[0].path).unwrap(), "version.cfg");
    assert_eq!(files[0].get_decompressed_data().unwrap(), b"Version 7".to_vec());
}

#[test]
fn header_consistency() {
    let mut fs = EtFileSystem::write("h.pak");
    fs.add_file(b"one", "\\1.txt").unwrap();
    fs.add_file(b"two two", "\\2.txt").unwrap();
    fs.close_file_system().unwrap();
    let files = fs.get_files();
    let payload: usize = files.iter().map(|f| f.comp_data.len()).sum();
    let img = fs.image();
    assert_eq!(le32(img, 260), 2);
    let table = le32(img, 264) as usize;
    assert_eq!(table, 1024 + payload);
    assert_eq!(fs.file_count(), 2);
    assert_eq!(fs.offset() as usize, table);
    assert_eq!(img.len(), table + 2 * 316);
    assert_eq!(files[0].data_offset, 1024);
    assert_eq!(files[1].data_offset as usize, 1024 + files[0].comp_data.len());
    assert_eq!(&img[table..table + 6], b"\\1.txt");
    assert_eq!(&img[table + 316..table + 322], b"\\2.txt");
    assert_eq!(fs.mode(), OpenMode::Finalized);
}

#[test]
fn empty_archive() {
    let image = build(&[]);
    assert_eq!(image.len(), 1024);
    assert_eq!(le32(&image, 260), 0);
    assert_eq!(le32(&image, 264), 1024);
    let fs = EtFileSystem::read("e.pak", &image).unwrap();
    assert!(fs.get_files().is_empty());
}

#[test]
fn round_trip_many() {
    let entries: Vec<(Vec<u8>, String)> = (0..5)
        .map(|i| (format!("content {}", i).repeat(i + 1).into_bytes(), format!("\\dir{}\\f{}.bin", i % 2, i)))
        .collect();
    let mut fs = EtFileSystem::write("r.pak");
    for (d, p) in &entries {
        fs.add_file(d, p).unwrap();
    }
    fs.add_file(b"", "\\empty.txt").unwrap();
    fs.close_file_system().unwrap();
    let back = EtFileSystem::read("r.pak", fs.image()).unwrap();
    let files = back.get_files();
    assert_eq!(files.len(), 6);
    for (i, (d, p)) in entries.iter().enumerate() {
        assert_eq!(&files[i].path, p);
        assert_eq!(&files[i].get_decompressed_data().unwrap(), d);
        assert_eq!(to_normal_path(p).unwrap(), format!("dir{}/f{}.bin", i % 2, i));
    }
    assert_eq!(files[5].path, "\\empty.txt");
    assert!(files[5].get_decompressed_data().unwrap().is_empty());
}

#[test]
fn tombstone_skip() {
    let mut image = build(&[(b"first", "\\a.txt"), (b"second", "\\b.txt"), (b"third", "\\c.txt")]);
    let table = le32(&image, 264) as usize;
    let third_offset = le32(&image, table + 2 * 316 + 268);
    // Zero both sizes of the middle record.
    for b in &mut image[table + 316 + 256..table + 316 + 264] {
        *b = 0;
    }
    let fs = EtFileSystem::read("t.pak", &image).unwrap();
    let files = fs.get_files();
    assert_eq!(files.len(), 2);
    assert_eq!(files[0].path, "\\a.txt");
    assert_eq!(files[1].path, "\\c.txt");
    assert_eq!(files[1].data_offset, third_offset);
    assert_eq!(files[1].get_decompressed_data().unwrap(), b"third".to_vec());
    assert_eq!(fs.file_count(), 3);
}

#[test]
fn substring_search() {
    let image = build(&[(b"x", "\\a\\x.txt"), (b"y", "\\b\\y.txt")]);
    let fs = EtFileSystem::read("s.pak", &image).unwrap();
    let found = fs.find_files("x.txt");
    assert_eq!(found.len(), 1);
    assert_eq!(found[0].path, "\\a\\x.txt");
    assert_eq!(fs.find_files(".txt").len(), 2);
    assert_eq!(fs.find_files("X.TXT").len(), 0);
    assert_eq!(fs.find_files("").len(), 2);
}

#[test]
fn add_after_close_is_refused() {
    let mut fs = EtFileSystem::write("c.pak");
    fs.add_file(b"a", "\\a").unwrap();
    fs.close_file_system().unwrap();
    assert_eq!(fs.add_file(b"b", "\\b"), Err(ArchiveError::InvalidInput));
    assert_eq!(fs.close_file_system(), Err(ArchiveError::InvalidInput));
    assert_eq!(fs.get_files().len(), 1);
}

#[test]
fn failed_add_leaves_entries() {
    let mut fs = EtFileSystem::write("f.pak");
    fs.add_file(b"a", "\\a").unwrap();
    let long = "z".repeat(300);
    assert_eq!(fs.add_file(b"b", &long), Err(ArchiveError::InvalidFormat));
    assert_eq!(fs.get_files().len(), 1);
    assert_eq!(fs.get_files()[0].path, "\\a");
}

#[test]
fn bad_magic_is_invalid() {
    let mut image = build(&[(b"a", "\\a")]);
    image[0] = b'X';
    assert_eq!(EtFileSystem::read("m.pak", &image).err(), Some(ArchiveError::InvalidFormat));
}

#[test]
fn short_header_is_invalid() {
    let image = build(&[]);
    assert_eq!(EtFileSystem::read("s.pak", &image[..1000]).err(), Some(ArchiveError::InvalidFormat));
}

#[test]
fn truncated_table_is_invalid() {
    let image = build(&[(b"a", "\\a")]);
    let cut = &image[..image.len() - 1];
    assert_eq!(EtFileSystem::read("t.pak", cut).err(), Some(ArchiveError::InvalidFormat));
}

#[test]
fn unterminated_path_is_invalid() {
    let mut image = build(&[(b"a", "\\a")]);
    let table = le32(&image, 264) as usize;
    for b in &mut image[table..table + 256] {
        *b = b'q';
    }
    assert_eq!(EtFileSystem::read("u.pak", &image).err(), Some(ArchiveError::InvalidFormat));
}

#[test]
fn payload_past_end_is_io_failure() {
    let mut image = build(&[(b"a", "\\a")]);
    let table = le32(&image, 264) as usize;
    image[table + 268..table + 272].copy_from_slice(&0x00ff_0000u32.to_le_bytes());
    assert_eq!(EtFileSystem::read("p.pak", &image).err(), Some(ArchiveError::IOFailure));
}

#[test]
fn lossy_path_and_slack_allocation() {
    let mut image = build(&[(b"payload", "\\p")]);
    let table = le32(&image, 264) as usize;
    // An invalid UTF-8 byte in the path, and a larger allocated size.
    image[table + 1] = 0xff;
    let comp = le32(&image, table + 256);
    image[table + 264..table + 268].copy_from_slice(&(comp + 4).to_le_bytes());
    let fs = EtFileSystem::read("l.pak", &image).unwrap();
    let files = fs.get_files();
    assert_eq!(files[0].path, "\\\u{FFFD}");
    assert_eq!(files[0].comp_data.len() as u32, comp + 4);
    assert_eq!(files[0].get_decompressed_data().unwrap(), b"payload".to_vec());
}

#[test]
fn entry_from_compressed_keeps_payload() {
    let e = EtFile::from_compressed(42, vec![9, 8, 7], "\\c.bin").unwrap();
    assert_eq!(e.comp_data, vec![9, 8, 7]);
    assert_eq!(e.file_size, 42);
    assert_eq!(e.comp_size, 3);
    assert_eq!(e.alloc_size, 3);
    assert_eq!(e.data_offset, 0);
    let long = "p".repeat(256);
    assert_eq!(EtFile::from_compressed(1, vec![1], &long).err(), Some(ArchiveError::InvalidFormat));
}

#[test]
fn add_file_puts_location_in_stored_form() {
    let mut fs = EtFileSystem::write("s.pak");
    fs.add_file(b"1", "a/b.txt").unwrap();
    fs.add_file(b"2", "\\x\\y.txt").unwrap();
    fs.add_file(b"3", "plain.txt").unwrap();
    let files = fs.get_files();
    assert_eq!(files[0].path, "\\a\\b.txt");
    assert_eq!(files[1].path, "\\x\\y.txt");
    assert_eq!(files[2].path, "\\plain.txt");
    assert_eq!(to_normal_path(&files[2].path).unwrap(), "plain.txt");
}

#[test]
fn add_file_appends_for_a_writer() {
    let mut fs = EtFileSystem::write("w.pak");
    assert_eq!(fs.add_file(b"abc", "\\a"), Ok(()));
    assert_eq!(fs.add_file(b"defg", "\\b"), Ok(()));
    let files = fs.get_files();
    assert_eq!(files.len(), 2);
    assert_eq!(files[0].file_size, 3);
    assert_eq!(files[1].file_size, 4);
    assert_eq!(files[1].get_decompressed_data().unwrap(), b"defg".to_vec());
    assert_eq!(fs.image().len(), 1024);
}

#[test]
fn empty_source_is_live() {
    let e = EtFile::from_source(b"", "\\empty").unwrap();
    assert_eq!(e.file_size, 0);
    assert!(e.comp_size > 0);
    assert_eq!(e.comp_size as usize, e.comp_data.len());
    assert!(!e.is_deleted());
    assert!(e.get_decompressed_data().unwrap().is_empty());
}

#[test]
fn unterminated_path_in_tombstone_is_invalid() {
    let mut image = build(&[(b"a", "\\a"), (b"b", "\\b")]);
    let table = le32(&image, 264) as usize;
    for b in &mut image[table..table + 256] {
        *b = b'q';
    }
    for b in &mut image[table + 256..table + 264] {
        *b = 0;
    }
    assert_eq!(EtFileSystem::read("u.pak", &image).err(), Some(ArchiveError::InvalidFormat));
}
