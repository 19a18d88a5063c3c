use qem::bytes::{push_le, read_le};
use qem::editlog::{
    add_page_capacity, history_page_capacity, parse_page, serialize_add_page,
    serialize_history_page, serialize_page, validate_page_crc, ChildRef, EditLogError,
    EditLogErrorKind, Piece, PiecePage, PieceSource, RootEntry, EDITLOG_PAGE_SIZE,
};
use qem::page_store::PageCache;
use qem::session_log::{
    encode_editlog_header, parse_editlog_header, read_add_bytes, read_history_entries,
    EditLogHeader,
};

fn leaf() -> PiecePage {
    PiecePage::Leaf {
        pieces: vec![
            Piece { src: PieceSource::Original, start: 1, len: 2, line_breaks: 1 },
            Piece { src: PieceSource::Add, start: 0, len: 9, line_breaks: 0 },
        ],
    }
}

#[test]
fn numbers_are_stored_with_the_lowest_byte_first() {
    let mut buf = vec![7];
    push_le(&mut buf, 0x0102_0304, 8);
    assert_eq!(buf, vec![7, 4, 3, 2, 1, 0, 0, 0, 0]);
    assert_eq!(read_le(&buf, 1, 8), 0x0102_0304);
}

#[test]
fn pages_survive_storage() {
    for page in [
        leaf(),
        PiecePage::Internal {
            children: vec![ChildRef { page_id: 5, total_bytes: 6, total_line_breaks: 7 }],
        },
    ] {
        let bytes = serialize_page(&page).unwrap();
        assert_eq!(bytes.len(), EDITLOG_PAGE_SIZE);
        assert_eq!(validate_page_crc(&bytes), Ok(()));
        assert_eq!(parse_page(&bytes), Ok(page));
    }
}

#[test]
fn damaged_pages_are_noticed() {
    let mut bytes = serialize_page(&leaf()).unwrap();
    bytes[40] ^= 1;
    assert_eq!(parse_page(&bytes), Err(EditLogError::ChecksumMismatch));
    assert_eq!(
        EditLogError::ChecksumMismatch.message(),
        "qem editlog page checksum mismatch"
    );
    assert_eq!(EditLogError::ChecksumMismatch.kind(), EditLogErrorKind::InvalidData);
    let add = serialize_add_page(b"abc").unwrap();
    assert_eq!(parse_page(&add), Err(EditLogError::NotAPiecePage));
}

#[test]
fn pages_have_a_fixed_capacity() {
    assert_eq!(history_page_capacity(), 127);
    assert_eq!(add_page_capacity(), 4072);
    assert_eq!(
        serialize_add_page(&vec![0; 4073]),
        Err(EditLogError::AddPageTooLarge)
    );
    assert_eq!(
        serialize_history_page(&vec![RootEntry { root: None }; 128]),
        Err(EditLogError::HistoryPageTooLarge)
    );
    let piece = Piece { src: PieceSource::Add, start: 0, len: 1, line_breaks: 0 };
    assert_eq!(
        serialize_page(&PiecePage::Leaf { pieces: vec![piece; 128] }),
        Err(EditLogError::PageTooLarge)
    );
    assert_eq!(EditLogError::PageTooLarge.kind(), EditLogErrorKind::InvalidInput);
}

#[test]
fn headers_survive_storage() {
    let header = EditLogHeader {
        page_count: 3,
        source_len: 4,
        source_mtime_ns: 5,
        source_fingerprint: 6,
        history_first_page_id: 1,
        history_page_count: 1,
        history_len: 2,
        history_index: 1,
        add_first_page_id: 2,
        add_page_count: 1,
        add_len: 9,
        known_byte_len: 8,
        flags: 1,
    };
    let mut log = encode_editlog_header(header, 42);
    assert_eq!(parse_editlog_header(&log), Ok(header));

    let root = ChildRef { page_id: 5, total_bytes: 6, total_line_breaks: 7 };
    let entries = vec![RootEntry { root: None }, RootEntry { root: Some(root) }];
    log.extend(serialize_history_page(&entries).unwrap());
    log.extend(serialize_add_page(b"added text").unwrap());
    assert_eq!(read_history_entries(&log, 1, 1, 2), Ok(entries));
    assert_eq!(read_add_bytes(&log, 2, 1, 10), Ok(b"added text".to_vec()));
    assert_eq!(read_add_bytes(&log, 9, 1, 10), Err(EditLogError::UnexpectedEof));

    log[0] ^= 1;
    assert_eq!(parse_editlog_header(&log), Err(EditLogError::InvalidMagic));
}

#[test]
fn history_pages_have_room_for_an_empty_state_behind_the_last() {
    let root = ChildRef { page_id: 5, total_bytes: 6, total_line_breaks: 7 };
    let states = vec![RootEntry { root: Some(root) }; history_page_capacity()];
    assert_eq!(states.len(), 127);
    let read = |count: u8, last_field: u8| {
        let mut page = serialize_history_page(&states).unwrap();
        page[8] = count;
        page[EDITLOG_PAGE_SIZE - 8] = last_field;
        let crc = crc32fast::hash(&page[4..]);
        page[..4].copy_from_slice(&crc.to_le_bytes());
        let mut log = vec![0; 128];
        log.extend(page);
        read_history_entries(&log, 1, 1, 200)
    };
    assert_eq!(read(127, 0), Ok(states.clone()));
    let mut longer = states.clone();
    longer.push(RootEntry { root: None });
    assert_eq!(read(128, 0), Ok(longer));
    assert_eq!(read(128, 1), Err(EditLogError::HistoryPageOverfull));
    assert_eq!(read(129, 0), Err(EditLogError::HistoryPageOverfull));
}

#[test]
fn caches_forget_what_was_not_used_for_long() {
    let mut cache = PageCache::new();
    for id in 0..1024u64 {
        cache.insert(id, leaf());
    }
    assert_eq!(cache.get(0), Some(leaf()));
    cache.insert(5000, leaf());
    assert_eq!(cache.peek(1), None);
    assert_eq!(cache.peek(0), Some(leaf()));
    assert_eq!(cache.peek(5000), Some(leaf()));
}
