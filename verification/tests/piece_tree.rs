use qem::editlog::{EditLogError, Piece, PieceSource};
use qem::page_store::{DiskPageStore, SessionMeta, SourceMetadata};
use qem::piece_tree::PieceTree;

fn piece(src: PieceSource, start: usize, len: usize, line_breaks: usize) -> Piece {
    Piece { src, start, len, line_breaks }
}

fn collect(tree: &PieceTree) -> Vec<(PieceSource, usize, usize, usize)> {
    tree.to_vec()
        .into_iter()
        .map(|piece| (piece.src, piece.start, piece.len, piece.line_breaks))
        .collect()
}

fn split(whole: Piece, left_len: usize) -> (Option<Piece>, Option<Piece>) {
    let left = piece(whole.src, whole.start, left_len, 0);
    let right = piece(
        whole.src,
        whole.start + left_len,
        whole.len - left_len,
        whole.line_breaks,
    );
    (Some(left), Some(right))
}

fn trim(whole: Piece, local_start: usize, local_end: usize) -> (Option<Piece>, Option<Piece>) {
    let left_len = local_start.min(whole.len);
    let right_len = whole.len.saturating_sub(local_end.min(whole.len));
    let left = (left_len > 0).then_some(piece(
        whole.src,
        whole.start,
        left_len,
        usize::from(whole.line_breaks > 0 && left_len == whole.len),
    ));
    let right = (right_len > 0).then_some(piece(
        whole.src,
        whole.start + (whole.len - right_len),
        right_len,
        0,
    ));
    (left, right)
}

fn source(fingerprint: u64) -> SourceMetadata {
    SourceMetadata { len: 7, mtime_ns: 11, fingerprint }
}

#[test]
fn insert_at_head_is_logical_and_coalesces_adjacent_add_pieces() {
    let mut tree = PieceTree::from_pieces(vec![piece(PieceSource::Original, 0, 10, 1)]);

    tree.insert(0, piece(PieceSource::Add, 0, 3, 1), &split);
    tree.insert(3, piece(PieceSource::Add, 3, 2, 0), &split);

    assert_eq!(
        collect(&tree),
        vec![(PieceSource::Add, 0, 5, 1), (PieceSource::Original, 0, 10, 1)]
    );
    assert_eq!(tree.total_len(), 15);
    assert_eq!(tree.total_line_breaks(), 2);
}

#[test]
fn delete_range_splices_across_piece_boundaries() {
    let mut tree = PieceTree::from_pieces(vec![
        piece(PieceSource::Original, 0, 4, 1),
        piece(PieceSource::Add, 0, 3, 1),
        piece(PieceSource::Original, 4, 5, 0),
    ]);

    tree.delete_range(2, 6, &trim);

    assert_eq!(
        collect(&tree),
        vec![(PieceSource::Original, 0, 2, 0), (PieceSource::Original, 5, 4, 0)]
    );
    assert_eq!(tree.total_len(), 6);
}

#[test]
fn visit_range_only_emits_overlapping_piece_segments() {
    let tree = PieceTree::from_pieces(vec![
        piece(PieceSource::Original, 0, 4, 1),
        piece(PieceSource::Add, 10, 4, 0),
    ]);

    let seen: Vec<(PieceSource, usize, usize)> = tree
        .visit_range(2, 6)
        .into_iter()
        .map(|(piece, local_start, local_end)| {
            (piece.src, piece.start + local_start, local_end - local_start)
        })
        .collect();

    assert_eq!(
        seen,
        vec![(PieceSource::Original, 2, 2), (PieceSource::Add, 10, 2)]
    );
}

#[test]
fn find_line_start_uses_weighted_breaks() {
    let tree = PieceTree::from_pieces(vec![
        piece(PieceSource::Original, 0, 4, 1),
        piece(PieceSource::Original, 4, 5, 1),
    ]);

    let found = tree.find_line_start(2, &|piece: Piece, local_break: usize| {
        if piece.start == 4 && local_break == 0 {
            Some(3)
        } else {
            None
        }
    });

    assert_eq!(found, Some(7));
}

#[test]
fn disk_backed_tree_round_trips_through_editlog() {
    let tree = PieceTree::from_pieces_disk(
        source(5),
        vec![
            piece(PieceSource::Original, 0, 4, 1),
            piece(PieceSource::Add, 2, 3, 0),
        ],
        0,
    )
    .unwrap();
    assert_eq!(tree.total_len(), 7);
    let log = tree.log_bytes().unwrap().to_vec();
    drop(tree);

    let (reopened, _, _) = PieceTree::try_open_disk_session(log, source(5)).unwrap().unwrap();
    assert!(reopened.is_consistent());
    assert_eq!(
        collect(&reopened),
        vec![(PieceSource::Original, 0, 4, 1), (PieceSource::Add, 2, 3, 0)]
    );
}

#[test]
fn disk_backed_tree_persists_latest_root_after_edit() {
    let mut tree =
        PieceTree::from_pieces_disk(source(5), vec![piece(PieceSource::Original, 0, 6, 1)], 0)
            .unwrap();

    tree.insert(3, piece(PieceSource::Add, 10, 2, 1), &split);
    tree.flush_session(b"ignored-by-test", SessionMeta::default(), 0).unwrap();
    let log = tree.log_bytes().unwrap().to_vec();
    drop(tree);

    let (reopened, add, meta) =
        PieceTree::try_open_disk_session(log, source(5)).unwrap().unwrap();
    assert_eq!(
        collect(&reopened),
        vec![
            (PieceSource::Original, 0, 3, 0),
            (PieceSource::Add, 10, 2, 1),
            (PieceSource::Original, 3, 3, 1),
        ]
    );
    assert_eq!(add, b"ignored-by-test".to_vec());
    assert_eq!(meta, SessionMeta::default());
}

#[test]
fn disk_open_rejects_stale_content_fingerprint_even_with_matching_file_metadata() {
    let tree =
        PieceTree::from_pieces_disk(source(5), vec![piece(PieceSource::Original, 0, 7, 1)], 0)
            .unwrap();
    let log = tree.log_bytes().unwrap().to_vec();

    let reopened = DiskPageStore::open(log, source(5 ^ 1)).unwrap();
    assert!(reopened.is_none());
}

#[test]
fn undo_and_redo_walk_through_the_states() {
    let mut tree = PieceTree::from_pieces(vec![piece(PieceSource::Original, 0, 10, 0)]);
    let first = collect(&tree);
    tree.insert(4, piece(PieceSource::Add, 0, 2, 0), &split);
    let second = collect(&tree);

    assert!(!tree.redo());
    assert!(tree.undo());
    assert_eq!(collect(&tree), first);
    assert!(!tree.undo());
    assert!(tree.redo());
    assert_eq!(collect(&tree), second);

    assert!(tree.undo());
    tree.delete_range(0, 5, &trim);
    assert!(!tree.redo());
}

#[test]
fn a_batch_of_edits_is_one_state() {
    let mut tree = PieceTree::from_pieces(vec![piece(PieceSource::Original, 0, 10, 0)]);
    let first = collect(&tree);
    tree.begin_batch_edit();
    tree.insert(0, piece(PieceSource::Add, 0, 2, 0), &split);
    tree.insert(12, piece(PieceSource::Add, 7, 2, 0), &split);
    tree.end_batch_edit();
    assert_eq!(tree.total_len(), 14);

    assert!(tree.undo());
    assert_eq!(collect(&tree), first);
}

#[test]
fn recovered_sessions_keep_their_history() {
    let mut tree =
        PieceTree::from_pieces_disk(source(9), vec![piece(PieceSource::Original, 0, 6, 1)], 1)
            .unwrap();
    let first = collect(&tree);
    tree.insert(0, piece(PieceSource::Add, 0, 3, 0), &split);
    tree.insert(9, piece(PieceSource::Add, 3, 3, 0), &split);
    let third = collect(&tree);
    assert!(tree.undo());
    let second = collect(&tree);
    let meta = SessionMeta { known_byte_len: 6, full_index: true };
    assert_eq!(tree.log_bytes().unwrap()[120..128], 1u64.to_le_bytes());
    tree.flush_session(b"abcdef", meta, 0x0102_0304).unwrap();
    let log = tree.log_bytes().unwrap().to_vec();
    assert_eq!(log[120..128], [4, 3, 2, 1, 0, 0, 0, 0]);

    let (mut reopened, add, stored) =
        PieceTree::try_open_disk_session(log, source(9)).unwrap().unwrap();
    assert_eq!(add, b"abcdef".to_vec());
    assert_eq!(stored, meta);
    assert_eq!(collect(&reopened), second);
    assert!(reopened.redo());
    assert_eq!(collect(&reopened), third);
    assert!(reopened.undo());
    assert!(reopened.undo());
    assert_eq!(collect(&reopened), first);
}

#[test]
fn large_trees_keep_their_pieces_in_order() {
    let mut pieces = Vec::new();
    for i in 0..1000usize {
        let src = if i % 2 == 0 { PieceSource::Original } else { PieceSource::Add };
        pieces.push(piece(src, i * 10, 3, i % 3));
    }
    let mut tree = PieceTree::from_pieces(pieces.clone());
    assert_eq!(tree.total_len(), 3000);
    assert_eq!(tree.to_vec(), pieces);

    tree.delete_range(3, 2994, &trim);
    assert_eq!(tree.total_len(), 6);
    assert_eq!(tree.to_vec().len(), 2);
}

#[test]
fn a_detached_tree_writes_no_log() {
    let mut tree =
        PieceTree::from_pieces_disk(source(5), vec![piece(PieceSource::Original, 0, 7, 1)], 0)
            .unwrap();
    tree.detach_persistence();
    assert!(tree.log_bytes().is_none());
    assert_eq!(tree.flush_session(b"", SessionMeta::default(), 0), Ok(()));
    assert_eq!(collect(&tree), vec![(PieceSource::Original, 0, 7, 1)]);
}

#[test]
fn damaged_logs_are_refused() {
    let tree =
        PieceTree::from_pieces_disk(source(5), vec![piece(PieceSource::Original, 0, 7, 1)], 0)
            .unwrap();
    let log = tree.log_bytes().unwrap().to_vec();

    let mut magic = log.clone();
    magic[0] ^= 1;
    assert!(matches!(
        PieceTree::try_open_disk_session(magic, source(5)),
        Err(EditLogError::InvalidMagic)
    ));

    let short = log[..100].to_vec();
    assert!(matches!(
        PieceTree::try_open_disk_session(short, source(5)),
        Err(EditLogError::UnexpectedEof)
    ));

    let last = log.len() - 1;
    let mut page = log.clone();
    page[last] ^= 1;
    assert!(PieceTree::try_open_disk_session(page, source(5)).is_err());
}
