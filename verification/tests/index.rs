use qem::index::{
    build_index_file, build_or_open_index, encode_index_header, parse_index_header, DiskLineIndex,
    FileHeader, IndexError, IndexMetadata, ReadyDiskLineIndex,
};

fn metadata(len: usize) -> IndexMetadata {
    IndexMetadata { source_len: len as u64, source_mtime_ns: 77, source_fingerprint: 99 }
}

#[test]
fn disk_line_index_builds_and_resolves_checkpoints() {
    let text = "aa\n".repeat(20_000);
    let meta = metadata(text.len());
    let file = build_index_file(text.as_bytes(), meta);
    let ready = ReadyDiskLineIndex::open_existing(file, meta).unwrap();

    assert_eq!(ready.total_lines(), 20_001);
    assert!(ready.page_count() >= 1);

    let checkpoint = ready.checkpoint_for_line(16_384).unwrap();
    assert!(checkpoint.line0 <= 16_384);
    assert!(checkpoint.byte0 <= text.len() as u64);
}

#[test]
fn index_header_round_trips() {
    let header = FileHeader {
        root_page: 7,
        page_count: 9,
        total_lines: 123,
        total_bytes: 456,
        source_len: 456,
        source_mtime_ns: 789,
    };
    let parsed = parse_index_header(&encode_index_header(header)).unwrap();
    assert_eq!(parsed.root_page, header.root_page);
    assert_eq!(parsed.page_count, header.page_count);
    assert_eq!(parsed.total_lines, header.total_lines);
    assert_eq!(parsed.total_bytes, header.total_bytes);
    assert_eq!(parsed.source_len, header.source_len);
    assert_eq!(parsed.source_mtime_ns, header.source_mtime_ns);
}

#[test]
fn checkpoints_lie_at_line_starts() {
    let text = "aa\n".repeat(20_000);
    let meta = metadata(text.len());
    let ready = ReadyDiskLineIndex::open_existing(build_index_file(text.as_bytes(), meta), meta)
        .unwrap();
    for line0 in [0u64, 1, 4_095, 4_096, 10_000, 20_000, 900_000] {
        let checkpoint = ready.checkpoint_for_line(line0).unwrap();
        assert!(checkpoint.line0 <= line0);
        assert_eq!(checkpoint.byte0, checkpoint.line0 * 3);
    }
}

#[test]
fn pages_are_filled_before_the_next_one_is_begun() {
    for (lines, pages) in [(8_191, 1), (8_192 * 169, 1), (8_192 * 170, 3), (8_192 * 340, 4)] {
        let text = "\n".repeat(lines);
        let meta = metadata(text.len());
        let file = build_index_file(text.as_bytes(), meta);
        assert_eq!(file.len(), 64 + pages * 4096 + 8);
        let ready = ReadyDiskLineIndex::open_existing(file, meta).unwrap();
        assert_eq!(ready.page_count(), pages as u64);
        assert_eq!(ready.total_lines(), lines as u64 + 1);
    }
}

#[test]
fn stale_and_damaged_indexes_are_refused() {
    let text = b"one\ntwo\n";
    let meta = metadata(text.len());
    let file = build_index_file(text, meta);

    let stale = IndexMetadata { source_mtime_ns: 78, ..meta };
    assert_eq!(
        ReadyDiskLineIndex::open_existing(file.clone(), stale).err(),
        Some(IndexError::StaleMetadata)
    );

    let changed = IndexMetadata { source_fingerprint: 98, ..meta };
    let error = ReadyDiskLineIndex::open_existing(file.clone(), changed).err().unwrap();
    assert_eq!(error, IndexError::StaleMetadata);
    assert_eq!(error.message(), "stale line index metadata");

    let mut magic = file.clone();
    magic[0] ^= 1;
    let error = ReadyDiskLineIndex::open_existing(magic, meta).err().unwrap();
    assert_eq!(error, IndexError::InvalidMagic);
    assert_eq!(error.message(), "invalid qem line index magic");
    assert!(!error.is_eof());

    let error = ReadyDiskLineIndex::open_existing(file[..10].to_vec(), meta).err().unwrap();
    assert_eq!(error, IndexError::UnexpectedEof);
    assert!(error.is_eof());
}

#[test]
fn a_fitting_index_is_reused_and_another_is_rebuilt() {
    let text = b"one\ntwo\nthree";
    let meta = metadata(text.len());
    let (ready, written) = build_or_open_index(None, text, meta);
    assert_eq!(ready.total_lines(), 3);
    let file = written.unwrap();

    let (again, written) = build_or_open_index(Some(file.clone()), text, meta);
    assert_eq!(again.total_lines(), 3);
    assert!(written.is_none());

    let (rebuilt, written) = build_or_open_index(Some(vec![1, 2, 3]), text, meta);
    assert_eq!(rebuilt.total_lines(), 3);
    assert_eq!(written, Some(file));
}

#[test]
fn small_sources_get_no_index() {
    assert!(DiskLineIndex::open_or_build(100, None, metadata(100)).is_none());

    let len = 64 * 1024 * 1024;
    let mut index = DiskLineIndex::open_or_build(len, None, metadata(len)).unwrap();
    assert!(index.is_building());
    assert_eq!(index.total_lines(), None);
    assert_eq!(index.checkpoint_for_line(3), None);

    let text = b"a\nb\n";
    let meta = metadata(text.len());
    let ready = ReadyDiskLineIndex::open_existing(build_index_file(text, meta), meta).unwrap();
    index.finish_build(Some(ready));
    assert!(!index.is_building());
    assert_eq!(index.total_lines(), Some(3));
    assert_eq!(index.checkpoint_for_line(2).map(|found| found.line0), Some(0));

    index.finish_build(None);
    assert!(!index.is_building());
    assert_eq!(index.total_lines(), None);
}
