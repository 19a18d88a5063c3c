//! The page format of the edit log, the sidecar that makes an editing session recoverable.
//!
//! A log is a header followed by pages of one size. A page starts with the checksum of
//! everything behind it, then its kind, an entry count and the entries, padded with zeros.

use crate::bytes::{
    le_digits, le_value, lemma_le_digits_len, lemma_le_round_trip, lemma_weights, push_le, read_le,
};
use vstd::prelude::*;

verus! {

pub const EDITLOG_VERSION: u32 = 2;

pub const EDITLOG_PAGE_SIZE: usize = 4096;

pub const EDITLOG_HEADER_BYTES: usize = 128;

pub const EDITLOG_PAGE_HEADER_BYTES: usize = 24;

pub const LEAF_ENTRY_BYTES: usize = 32;

pub const INTERNAL_ENTRY_BYTES: usize = 24;

pub const HISTORY_ENTRY_BYTES: usize = 32;

/// How many pieces fit in a leaf page.
pub const LEAF_PAGE_CAPACITY: usize = 127;

/// How many children fit in an internal page.
pub const INTERNAL_PAGE_CAPACITY: usize = 169;

/// Which buffer a piece points into.
#[derive(Clone, Copy, Debug, PartialEq, Eq, Structural)]
pub enum PieceSource {
    Original,
    Add,
}

/// A run of bytes of one buffer, with the number of line breaks in it.
#[derive(Clone, Copy, Debug, PartialEq, Eq, Structural)]
pub struct Piece {
    pub src: PieceSource,
    pub start: usize,
    pub len: usize,
    pub line_breaks: usize,
}

/// A reference to a page, with the totals of the pieces below it.
#[derive(Clone, Copy, Debug, PartialEq, Eq, Structural)]
pub struct ChildRef {
    pub page_id: u64,
    pub total_bytes: usize,
    pub total_line_breaks: usize,
}

/// A node of the piece tree.
#[derive(Debug, PartialEq, Eq)]
pub enum PiecePage {
    Internal { children: Vec<ChildRef> },
    Leaf { pieces: Vec<Piece> },
}

/// What a piece page holds.
pub enum PageView {
    Internal(Seq<ChildRef>),
    Leaf(Seq<Piece>),
}

impl View for PiecePage {
    type V = PageView;

    open spec fn view(&self) -> PageView {
        match self {
            PiecePage::Internal { children } => PageView::Internal(children@),
            PiecePage::Leaf { pieces } => PageView::Leaf(pieces@),
        }
    }
}

/// One state of the undo history.
#[derive(Clone, Copy, Debug, PartialEq, Eq, Structural)]
pub struct RootEntry {
    pub root: Option<ChildRef>,
}

/// What a page is used for.
#[derive(Clone, Copy, Debug, PartialEq, Eq, Structural)]
pub enum PageKind {
    Internal,
    Leaf,
    History,
    Add,
}

/// The broad class of an edit log error.
#[derive(Clone, Copy, Debug, PartialEq, Eq, Structural)]
pub enum EditLogErrorKind {
    InvalidData,
    InvalidInput,
    UnexpectedEof,
    Other,
}

/// Why an edit log could not be read or written.
#[derive(Clone, Copy, Debug, PartialEq, Eq, Structural)]
pub enum EditLogError {
    InvalidMagic,
    UnsupportedFormat,
    InvalidPageSize,
    ChecksumMismatch,
    InvalidPageKind,
    InternalPageOverfull,
    LeafPageOverfull,
    HistoryPageOverfull,
    InvalidPieceSource,
    NotAPiecePage,
    UnexpectedPageKind,
    PageTooLarge,
    HistoryPageTooLarge,
    AddPageTooLarge,
    AppendOrder,
    UnexpectedEof,
    MissingHandle,
    PersistenceUnavailable,
}

impl EditLogError {
    /// The class of the error.
    pub open spec fn spec_kind(self) -> EditLogErrorKind {
        match self {
            EditLogError::PageTooLarge
            | EditLogError::HistoryPageTooLarge
            | EditLogError::AddPageTooLarge => EditLogErrorKind::InvalidInput,
            EditLogError::UnexpectedEof => EditLogErrorKind::UnexpectedEof,
            EditLogError::MissingHandle
            | EditLogError::PersistenceUnavailable => EditLogErrorKind::Other,
            _ => EditLogErrorKind::InvalidData,
        }
    }

    pub fn kind(self) -> (kind: EditLogErrorKind)
        ensures
            kind == self.spec_kind(),
    {
        match self {
            EditLogError::PageTooLarge
            | EditLogError::HistoryPageTooLarge
            | EditLogError::AddPageTooLarge => EditLogErrorKind::InvalidInput,
            EditLogError::UnexpectedEof => EditLogErrorKind::UnexpectedEof,
            EditLogError::MissingHandle
            | EditLogError::PersistenceUnavailable => EditLogErrorKind::Other,
            _ => EditLogErrorKind::InvalidData,
        }
    }

    /// The text that is shown for the error.
    pub open spec fn spec_message(self) -> &'static str {
        match self {
            EditLogError::InvalidMagic => "invalid qem editlog magic",
            EditLogError::UnsupportedFormat => "unsupported qem editlog format",
            EditLogError::InvalidPageSize => "invalid editlog page size",
            EditLogError::ChecksumMismatch => "qem editlog page checksum mismatch",
            EditLogError::InvalidPageKind => "invalid qem editlog page kind",
            EditLogError::InternalPageOverfull => "internal editlog page is overfull",
            EditLogError::LeafPageOverfull => "leaf editlog page is overfull",
            EditLogError::HistoryPageOverfull => "history editlog page is overfull",
            EditLogError::InvalidPieceSource => "invalid piece source in editlog page",
            EditLogError::NotAPiecePage => "non-piece editlog page used as piece page",
            EditLogError::UnexpectedPageKind => "unexpected qem editlog page kind",
            EditLogError::PageTooLarge => "page exceeds fixed editlog capacity",
            EditLogError::HistoryPageTooLarge => "history page exceeds fixed editlog capacity",
            EditLogError::AddPageTooLarge => "add-data page exceeds fixed editlog capacity",
            EditLogError::AppendOrder => "editlog page append order became inconsistent",
            EditLogError::UnexpectedEof => "failed to fill whole buffer",
            EditLogError::MissingHandle => "missing editlog handle",
            EditLogError::PersistenceUnavailable => "editlog persistence is unavailable",
        }
    }

    pub fn message(self) -> (message: &'static str)
        ensures
            message@ == self.spec_message()@,
    {
        match self {
            EditLogError::InvalidMagic => "invalid qem editlog magic",
            EditLogError::UnsupportedFormat => "unsupported qem editlog format",
            EditLogError::InvalidPageSize => "invalid editlog page size",
            EditLogError::ChecksumMismatch => "qem editlog page checksum mismatch",
            EditLogError::InvalidPageKind => "invalid qem editlog page kind",
            EditLogError::InternalPageOverfull => "internal editlog page is overfull",
            EditLogError::LeafPageOverfull => "leaf editlog page is overfull",
            EditLogError::HistoryPageOverfull => "history editlog page is overfull",
            EditLogError::InvalidPieceSource => "invalid piece source in editlog page",
            EditLogError::NotAPiecePage => "non-piece editlog page used as piece page",
            EditLogError::UnexpectedPageKind => "unexpected qem editlog page kind",
            EditLogError::PageTooLarge => "page exceeds fixed editlog capacity",
            EditLogError::HistoryPageTooLarge => "history page exceeds fixed editlog capacity",
            EditLogError::AddPageTooLarge => "add-data page exceeds fixed editlog capacity",
            EditLogError::AppendOrder => "editlog page append order became inconsistent",
            EditLogError::UnexpectedEof => "failed to fill whole buffer",
            EditLogError::MissingHandle => "missing editlog handle",
            EditLogError::PersistenceUnavailable => "editlog persistence is unavailable",
        }
    }
}

/// The CRC-32 checksum of `bytes`.
pub uninterp spec fn crc32(bytes: Seq<u8>) -> u32;

/// `crc32fast::Hasher`: a fresh hasher, one `update` with `bytes`, then `finalize`. The
/// result depends on the bytes alone.
#[verifier::external_body]
fn checksum(bytes: &[u8]) -> (crc: u32)
    ensures
        crc == crc32(bytes@),
{
    let mut hasher = crc32fast::Hasher::new();
    hasher.update(bytes);
    hasher.finalize()
}

impl PageKind {
    /// The byte that stands for the kind.
    pub open spec fn spec_code(self) -> u8 {
        match self {
            PageKind::Internal => 1,
            PageKind::Leaf => 2,
            PageKind::History => 3,
            PageKind::Add => 4,
        }
    }

    fn code(self) -> (code: u8)
        ensures
            code == self.spec_code(),
    {
        match self {
            PageKind::Internal => 1,
            PageKind::Leaf => 2,
            PageKind::History => 3,
            PageKind::Add => 4,
        }
    }

    /// The kind that `code` stands for.
    pub open spec fn spec_from_code(code: u8) -> Option<PageKind> {
        if code == 1 {
            Some(PageKind::Internal)
        } else if code == 2 {
            Some(PageKind::Leaf)
        } else if code == 3 {
            Some(PageKind::History)
        } else if code == 4 {
            Some(PageKind::Add)
        } else {
            None
        }
    }

    fn from_code(code: u8) -> (kind: Option<PageKind>)
        ensures
            kind == Self::spec_from_code(code),
    {
        match code {
            1 => Some(PageKind::Internal),
            2 => Some(PageKind::Leaf),
            3 => Some(PageKind::History),
            4 => Some(PageKind::Add),
            _ => None,
        }
    }
}

impl PieceSource {
    /// The byte that stands for the source.
    pub open spec fn spec_code(self) -> u8 {
        match self {
            PieceSource::Original => 0,
            PieceSource::Add => 1,
        }
    }
}

/// `n` zero bytes.
pub open spec fn zeros(n: nat) -> Seq<u8> {
    Seq::new(n, |i: int| 0u8)
}

/// The encodings of all of `items`, one behind the other.
pub open spec fn encode_all<T>(items: Seq<T>, encode: spec_fn(T) -> Seq<u8>) -> Seq<u8>
    decreases items.len(),
{
    if items.len() == 0 {
        Seq::empty()
    } else {
        encode_all(items.drop_last(), encode) + encode(items.last())
    }
}

/// A piece in a leaf page.
pub open spec fn piece_bytes(piece: Piece) -> Seq<u8> {
    seq![piece.src.spec_code()] + zeros(7) + le_digits(piece.start as nat, 8) + le_digits(
        piece.len as nat,
        8,
    ) + le_digits(piece.line_breaks as nat, 8)
}

/// A child in an internal page.
pub open spec fn child_bytes(child: ChildRef) -> Seq<u8> {
    le_digits(child.page_id as nat, 8) + le_digits(child.total_bytes as nat, 8) + le_digits(
        child.total_line_breaks as nat,
        8,
    )
}

/// A history state in a history page.
pub open spec fn root_bytes(entry: RootEntry) -> Seq<u8> {
    match entry.root {
        Some(root) => le_digits(1, 8) + child_bytes(root),
        None => le_digits(0, 8) + le_digits(0, 8) + le_digits(0, 8) + le_digits(0, 8),
    }
}

/// Everything of a page but its checksum.
pub open spec fn page_body(kind: PageKind, count: nat, payload: Seq<u8>) -> Seq<u8> {
    seq![kind.spec_code(), 0u8, 0u8, 0u8] + le_digits(count, 8) + zeros(8) + payload + zeros(
        (EDITLOG_PAGE_SIZE - EDITLOG_PAGE_HEADER_BYTES - payload.len()) as nat,
    )
}

/// A page: the checksum of its body, then the body.
pub open spec fn sealed_page(kind: PageKind, count: nat, payload: Seq<u8>) -> Seq<u8> {
    le_digits(crc32(page_body(kind, count, payload)) as nat, 4) + page_body(kind, count, payload)
}

/// The page that stores `page`.
pub open spec fn piece_page_bytes(page: PageView) -> Seq<u8> {
    match page {
        PageView::Internal(children) => sealed_page(
            PageKind::Internal,
            children.len(),
            encode_all(children, |c: ChildRef| child_bytes(c)),
        ),
        PageView::Leaf(pieces) => sealed_page(
            PageKind::Leaf,
            pieces.len(),
            encode_all(pieces, |p: Piece| piece_bytes(p)),
        ),
    }
}

/// `true` where the entries of `page` fit in one page.
pub open spec fn page_fits(page: PageView) -> bool {
    match page {
        PageView::Internal(children) => children.len() <= INTERNAL_PAGE_CAPACITY,
        PageView::Leaf(pieces) => pieces.len() <= LEAF_PAGE_CAPACITY,
    }
}

/// The page that stores the history states `entries`.
pub open spec fn history_page_bytes(entries: Seq<RootEntry>) -> Seq<u8> {
    sealed_page(
        PageKind::History,
        entries.len(),
        encode_all(entries, |e: RootEntry| root_bytes(e)),
    )
}

/// The page that stores `chunk` of the add buffer.
pub open spec fn add_page_bytes(chunk: Seq<u8>) -> Seq<u8> {
    sealed_page(PageKind::Add, chunk.len(), chunk)
}

/// The little-endian `u64` at `at`.
pub open spec fn u64_at(buf: Seq<u8>, at: int) -> u64 {
    le_value(buf.subrange(at, at + 8)) as u64
}

/// The little-endian `u64` at `at`, as a size of this machine.
pub open spec fn usize_at(buf: Seq<u8>, at: int) -> usize {
    u64_at(buf, at) as usize
}

/// The child that the bytes at `at` stand for.
pub open spec fn child_at(buf: Seq<u8>, at: int) -> ChildRef {
    ChildRef {
        page_id: u64_at(buf, at),
        total_bytes: usize_at(buf, at + 8),
        total_line_breaks: usize_at(buf, at + 16),
    }
}

/// The piece that the bytes at `at` stand for, given a valid source byte.
pub open spec fn piece_at(buf: Seq<u8>, at: int) -> Piece {
    Piece {
        src: if buf[at] == 0 {
            PieceSource::Original
        } else {
            PieceSource::Add
        },
        start: usize_at(buf, at + 8),
        len: usize_at(buf, at + 16),
        line_breaks: usize_at(buf, at + 24),
    }
}

/// The history state that the bytes at `at` stand for.
pub open spec fn root_at(buf: Seq<u8>, at: int) -> RootEntry {
    RootEntry {
        root: if u64_at(buf, at) == 0 {
            None
        } else {
            Some(child_at(buf, at + 8))
        },
    }
}

/// Whether `buf` is a page with a matching checksum.
pub open spec fn checked_page(buf: Seq<u8>) -> Result<(), EditLogError> {
    if buf.len() != EDITLOG_PAGE_SIZE {
        Err(EditLogError::InvalidPageSize)
    } else if crc32(buf.skip(4)) != le_value(buf.subrange(0, 4)) {
        Err(EditLogError::ChecksumMismatch)
    } else {
        Ok(())
    }
}

/// The entry count of a page of the given kind.
pub open spec fn page_header(buf: Seq<u8>, kind: PageKind) -> Result<usize, EditLogError> {
    match checked_page(buf) {
        Err(err) => Err(err),
        Ok(()) => match PageKind::spec_from_code(buf[4]) {
            None => Err(EditLogError::InvalidPageKind),
            Some(found) => if found != kind {
                Err(EditLogError::UnexpectedPageKind)
            } else {
                Ok(usize_at(buf, 8))
            },
        },
    }
}

/// `true` where each of the first `count` pieces of a leaf page has a valid source.
pub open spec fn valid_sources(buf: Seq<u8>, count: int) -> bool {
    forall|i: int|
        0 <= i < count ==> (#[trigger] buf[EDITLOG_PAGE_HEADER_BYTES + LEAF_ENTRY_BYTES * i]) <= 1
}

/// The piece page that `buf` stores.
pub open spec fn parsed_page(buf: Seq<u8>) -> Result<PageView, EditLogError> {
    let count = usize_at(buf, 8);
    match checked_page(buf) {
        Err(err) => Err(err),
        Ok(()) => match PageKind::spec_from_code(buf[4]) {
            None => Err(EditLogError::InvalidPageKind),
            Some(PageKind::Internal) => if count > INTERNAL_PAGE_CAPACITY {
                Err(EditLogError::InternalPageOverfull)
            } else {
                Ok(
                    PageView::Internal(
                        Seq::new(
                            count as nat,
                            |i: int|
                                child_at(buf, EDITLOG_PAGE_HEADER_BYTES + INTERNAL_ENTRY_BYTES * i),
                        ),
                    ),
                )
            },
            Some(PageKind::Leaf) => if count > LEAF_PAGE_CAPACITY {
                Err(EditLogError::LeafPageOverfull)
            } else if !valid_sources(buf, count as int) {
                Err(EditLogError::InvalidPieceSource)
            } else {
                Ok(
                    PageView::Leaf(
                        Seq::new(
                            count as nat,
                            |i: int|
                                piece_at(buf, EDITLOG_PAGE_HEADER_BYTES + LEAF_ENTRY_BYTES * i),
                        ),
                    ),
                )
            },
            Some(_) => Err(EditLogError::NotAPiecePage),
        },
    }
}

/// Equal-width encodings take a multiple of the width.
pub proof fn lemma_encode_all_len<T>(items: Seq<T>, encode: spec_fn(T) -> Seq<u8>, width: nat)
    requires
        forall|t: T| #[trigger] encode(t).len() == width,
    ensures
        encode_all(items, encode).len() == width * items.len(),
    decreases items.len(),
{
    if items.len() > 0 {
        lemma_encode_all_len(items.drop_last(), encode, width);
        let n = items.len();
        assert(encode(items.last()).len() == width);
        assert(items.drop_last().len() == (n - 1) as nat);
        assert(width * n == width * ((n - 1) as nat) + width) by (nonlinear_arith)
            requires
                n > 0,
        ;
    } else {
        assert(width * items.len() == 0) by (nonlinear_arith)
            requires
                items.len() == 0,
        ;
    }
}

/// Equal-width encodings lie at multiples of the width.
pub proof fn lemma_encode_all<T>(
    items: Seq<T>,
    encode: spec_fn(T) -> Seq<u8>,
    width: nat,
    i: int,
)
    requires
        forall|t: T| #[trigger] encode(t).len() == width,
        0 <= i < items.len(),
    ensures
        0 <= width * i <= width * i + width <= encode_all(items, encode).len(),
        encode_all(items, encode).subrange(width * i, width * i + width) == encode(items[i]),
    decreases items.len(),
{
    let front = items.drop_last();
    let n = items.len() as int;
    lemma_encode_all_len(items, encode, width);
    lemma_encode_all_len(front, encode, width);
    let all = encode_all(items, encode);
    assert(0 <= width * i && width * i + width <= width * n) by (nonlinear_arith)
        requires
            0 <= i < n,
            width >= 0,
    ;
    assert(all == encode_all(front, encode) + encode(items.last()));
    if i < n - 1 {
        lemma_encode_all(front, encode, width, i);
        assert(all.subrange(width * i, width * i + width) =~= encode_all(front, encode).subrange(
            width * i,
            width * i + width,
        ));
        assert(front[i] == items[i]);
    } else {
        assert(encode_all(front, encode).len() == width * i);
        assert(all.subrange(width * i, width * i + width) =~= encode(items[i]));
    }
}

proof fn lemma_entry_widths()
    ensures
        forall|p: Piece| #[trigger] piece_bytes(p).len() == LEAF_ENTRY_BYTES,
        forall|c: ChildRef| #[trigger] child_bytes(c).len() == INTERNAL_ENTRY_BYTES,
        forall|e: RootEntry| #[trigger] root_bytes(e).len() == HISTORY_ENTRY_BYTES,
{
    assert forall|v: nat| #[trigger] le_digits(v, 8).len() == 8 by {
        lemma_le_digits_len(v, 8);
    }
}

/// A field written at `at` reads back.
proof fn lemma_field(buf: Seq<u8>, at: int, value: u64)
    requires
        0 <= at,
        at + 8 <= buf.len(),
        buf.subrange(at, at + 8) == le_digits(value as nat, 8),
    ensures
        u64_at(buf, at) == value,
{
    lemma_weights();
    lemma_le_round_trip(value as nat, 8);
}

proof fn lemma_child_at(buf: Seq<u8>, at: int, child: ChildRef)
    requires
        0 <= at,
        at + 24 <= buf.len(),
        buf.subrange(at, at + 24) == child_bytes(child),
    ensures
        child_at(buf, at) == child,
{
    lemma_le_digits_len(child.page_id as nat, 8);
    lemma_le_digits_len(child.total_bytes as nat, 8);
    lemma_le_digits_len(child.total_line_breaks as nat, 8);
    let w = buf.subrange(at, at + 24);
    assert(buf.subrange(at, at + 8) =~= w.subrange(0, 8));
    assert(w.subrange(0, 8) =~= le_digits(child.page_id as nat, 8));
    assert(buf.subrange(at + 8, at + 16) =~= w.subrange(8, 16));
    assert(w.subrange(8, 16) =~= le_digits(child.total_bytes as nat, 8));
    assert(buf.subrange(at + 16, at + 24) =~= w.subrange(16, 24));
    assert(w.subrange(16, 24) =~= le_digits(child.total_line_breaks as nat, 8));
    lemma_field(buf, at, child.page_id);
    lemma_field(buf, at + 8, child.total_bytes as u64);
    lemma_field(buf, at + 16, child.total_line_breaks as u64);
}

proof fn lemma_piece_at(buf: Seq<u8>, at: int, piece: Piece)
    requires
        0 <= at,
        at + 32 <= buf.len(),
        buf.subrange(at, at + 32) == piece_bytes(piece),
    ensures
        piece_at(buf, at) == piece,
        buf[at] <= 1,
{
    lemma_le_digits_len(piece.start as nat, 8);
    lemma_le_digits_len(piece.len as nat, 8);
    lemma_le_digits_len(piece.line_breaks as nat, 8);
    let w = buf.subrange(at, at + 32);
    assert(buf[at] == w[0]);
    assert(buf.subrange(at + 8, at + 16) =~= w.subrange(8, 16));
    assert(w.subrange(8, 16) =~= le_digits(piece.start as nat, 8));
    assert(buf.subrange(at + 16, at + 24) =~= w.subrange(16, 24));
    assert(w.subrange(16, 24) =~= le_digits(piece.len as nat, 8));
    assert(buf.subrange(at + 24, at + 32) =~= w.subrange(24, 32));
    assert(w.subrange(24, 32) =~= le_digits(piece.line_breaks as nat, 8));
    lemma_field(buf, at + 8, piece.start as u64);
    lemma_field(buf, at + 16, piece.len as u64);
    lemma_field(buf, at + 24, piece.line_breaks as u64);
}

proof fn lemma_root_at(buf: Seq<u8>, at: int, entry: RootEntry)
    requires
        0 <= at,
        at + 32 <= buf.len(),
        buf.subrange(at, at + 32) == root_bytes(entry),
    ensures
        root_at(buf, at) == entry,
{
    lemma_entry_widths();
    lemma_le_digits_len(0, 8);
    lemma_le_digits_len(1, 8);
    let w = buf.subrange(at, at + 32);
    assert(buf.subrange(at, at + 8) =~= w.subrange(0, 8));
    match entry.root {
        Some(root) => {
            assert(w.subrange(0, 8) =~= le_digits(1, 8));
            lemma_field(buf, at, 1);
            assert(buf.subrange(at + 8, at + 8 + 24) =~= w.subrange(8, 32));
            assert(w.subrange(8, 32) =~= child_bytes(root));
            lemma_child_at(buf, at + 8, root);
        },
        None => {
            assert(w.subrange(0, 8) =~= le_digits(0, 8));
            lemma_field(buf, at, 0);
        },
    }
}

/// A sealed page passes its checks, and shows its kind, count and payload.
proof fn lemma_sealed_page(kind: PageKind, count: u64, payload: Seq<u8>)
    requires
        payload.len() <= EDITLOG_PAGE_SIZE - EDITLOG_PAGE_HEADER_BYTES,
    ensures
        ({
            let buf = sealed_page(kind, count as nat, payload);
            &&& buf.len() == EDITLOG_PAGE_SIZE
            &&& checked_page(buf) == Ok::<(), EditLogError>(())
            &&& buf[4] == kind.spec_code()
            &&& u64_at(buf, 8) == count
            &&& buf.subrange(
                EDITLOG_PAGE_HEADER_BYTES as int,
                EDITLOG_PAGE_HEADER_BYTES + payload.len(),
            ) == payload
        }),
{
    let buf = sealed_page(kind, count as nat, payload);
    let body = page_body(kind, count as nat, payload);
    lemma_le_digits_len(count as nat, 8);
    lemma_le_digits_len(crc32(body) as nat, 4);
    assert(buf.skip(4) =~= body);
    assert(buf.subrange(0, 4) =~= le_digits(crc32(body) as nat, 4));
    lemma_weights();
    lemma_le_round_trip(crc32(body) as nat, 4);
    assert(buf.subrange(8, 16) =~= le_digits(count as nat, 8));
    lemma_field(buf, 8, count);
    assert(buf.subrange(24, (24 + payload.len()) as int) =~= payload);
}

/// Nothing is read from a page that is not a whole page with the checksum of what it holds, and
/// nothing but pieces and children from a page of the tree.
pub proof fn law_pages_are_checked(buf: Seq<u8>, kind: PageKind)
    ensures
        parsed_page(buf) is Ok ==> {
            &&& buf.len() == 4096
            &&& crc32(buf.skip(4)) == le_value(buf.subrange(0, 4))
            &&& buf[4] == 1 || buf[4] == 2
        },
        page_header(buf, kind) is Ok ==> {
            &&& buf.len() == 4096
            &&& crc32(buf.skip(4)) == le_value(buf.subrange(0, 4))
            &&& buf[4] == kind.spec_code()
        },
{
}

/// What a page stores has its place: of a piece where it comes from, where it starts, how long it
/// is and how many lines end in it; of a child its number and its sums; of a history state
/// whether it has a root, and the root.
pub proof fn law_record_layout(piece: Piece, child: ChildRef, root: RootEntry)
    ensures
        piece_bytes(piece).len() == 32,
        piece_bytes(piece)[0] == (if piece.src == PieceSource::Original {
            0u8
        } else {
            1u8
        }),
        piece_bytes(piece).subrange(8, 16) == le_digits(piece.start as nat, 8),
        piece_bytes(piece).subrange(16, 24) == le_digits(piece.len as nat, 8),
        piece_bytes(piece).subrange(24, 32) == le_digits(piece.line_breaks as nat, 8),
        child_bytes(child).len() == 24,
        child_bytes(child).subrange(0, 8) == le_digits(child.page_id as nat, 8),
        child_bytes(child).subrange(8, 16) == le_digits(child.total_bytes as nat, 8),
        child_bytes(child).subrange(16, 24) == le_digits(child.total_line_breaks as nat, 8),
        root_bytes(root).len() == 32,
        root.root is Some ==> root_bytes(root).subrange(0, 8) == le_digits(1, 8)
            && root_bytes(root).skip(8) == child_bytes(root.root->Some_0),
        root.root is None ==> root_bytes(root).subrange(0, 8) == le_digits(0, 8),
{
    lemma_le_digits_len(piece.start as nat, 8);
    lemma_le_digits_len(piece.len as nat, 8);
    lemma_le_digits_len(piece.line_breaks as nat, 8);
    lemma_le_digits_len(child.page_id as nat, 8);
    lemma_le_digits_len(child.total_bytes as nat, 8);
    lemma_le_digits_len(child.total_line_breaks as nat, 8);
    lemma_le_digits_len(0, 8);
    lemma_le_digits_len(1, 8);
    assert(piece_bytes(piece).subrange(8, 16) =~= le_digits(piece.start as nat, 8));
    assert(piece_bytes(piece).subrange(16, 24) =~= le_digits(piece.len as nat, 8));
    assert(piece_bytes(piece).subrange(24, 32) =~= le_digits(piece.line_breaks as nat, 8));
    assert(child_bytes(child).subrange(0, 8) =~= le_digits(child.page_id as nat, 8));
    assert(child_bytes(child).subrange(8, 16) =~= le_digits(child.total_bytes as nat, 8));
    assert(child_bytes(child).subrange(16, 24) =~= le_digits(child.total_line_breaks as nat, 8));
    if root.root is Some {
        let own = root.root->Some_0;
        lemma_le_digits_len(own.page_id as nat, 8);
        lemma_le_digits_len(own.total_bytes as nat, 8);
        lemma_le_digits_len(own.total_line_breaks as nat, 8);
        assert(root_bytes(root).skip(8) =~= child_bytes(own));
        assert(root_bytes(root).subrange(0, 8) =~= le_digits(1, 8));
    } else {
        assert(root_bytes(root).subrange(0, 8) =~= le_digits(0, 8));
    }
}

/// Storing a piece page and parsing it gives the page back.
pub proof fn law_piece_page_round_trip(page: PageView)
    requires
        page_fits(page),
    ensures
        piece_page_bytes(page).len() == EDITLOG_PAGE_SIZE,
        parsed_page(piece_page_bytes(page)) == Ok::<PageView, EditLogError>(page),
{
    lemma_entry_widths();
    let buf = piece_page_bytes(page);
    match page {
        PageView::Internal(children) => {
            let encode = |c: ChildRef| child_bytes(c);
            let payload = encode_all(children, encode);
            lemma_encode_all_len(children, encode, 24);
            lemma_sealed_page(PageKind::Internal, children.len() as u64, payload);
            assert forall|i: int| 0 <= i < children.len() implies #[trigger] child_at(
                buf,
                24 + 24 * i,
            ) == children[i] by {
                lemma_encode_all(children, encode, 24, i);
                assert(buf.subrange(24 + 24 * i, 24 + 24 * i + 24) =~= payload.subrange(
                    24 * i,
                    24 * i + 24,
                )) by {
                    assert(buf.subrange(24, (24 + payload.len()) as int) == payload);
                }
                lemma_child_at(buf, 24 + 24 * i, children[i]);
            }
            assert(Seq::new(
                usize_at(buf, 8) as nat,
                |i: int| child_at(buf, EDITLOG_PAGE_HEADER_BYTES + INTERNAL_ENTRY_BYTES * i),
            ) =~= children);
        },
        PageView::Leaf(pieces) => {
            let encode = |p: Piece| piece_bytes(p);
            let payload = encode_all(pieces, encode);
            lemma_encode_all_len(pieces, encode, 32);
            lemma_sealed_page(PageKind::Leaf, pieces.len() as u64, payload);
            assert forall|i: int| 0 <= i < pieces.len() implies #[trigger] piece_at(
                buf,
                24 + 32 * i,
            ) == pieces[i] && buf[24 + 32 * i] <= 1 by {
                lemma_encode_all(pieces, encode, 32, i);
                assert(buf.subrange(24 + 32 * i, 24 + 32 * i + 32) =~= payload.subrange(
                    32 * i,
                    32 * i + 32,
                )) by {
                    assert(buf.subrange(24, (24 + payload.len()) as int) == payload);
                }
                lemma_piece_at(buf, 24 + 32 * i, pieces[i]);
            }
            assert forall|i: int| 0 <= i < pieces.len() implies (
            #[trigger] buf[EDITLOG_PAGE_HEADER_BYTES + LEAF_ENTRY_BYTES * i]) <= 1 by {
                assert(piece_at(buf, 24 + 32 * i) == pieces[i]);
            }
            assert(Seq::new(
                usize_at(buf, 8) as nat,
                |i: int| piece_at(buf, EDITLOG_PAGE_HEADER_BYTES + LEAF_ENTRY_BYTES * i),
            ) =~= pieces);
        },
    }
}

/// A page of history states shows the states it was made of.
pub proof fn law_history_page_round_trip(entries: Seq<RootEntry>)
    requires
        entries.len() <= 127,
    ensures
        ({
            let buf = history_page_bytes(entries);
            &&& buf.len() == EDITLOG_PAGE_SIZE
            &&& checked_page(buf) == Ok::<(), EditLogError>(())
            &&& page_header(buf, PageKind::History) == Ok::<usize, EditLogError>(
                entries.len() as usize,
            )
            &&& forall|i: int|
                0 <= i < entries.len() ==> #[trigger] root_at(
                    buf,
                    EDITLOG_PAGE_HEADER_BYTES + HISTORY_ENTRY_BYTES * i,
                ) == entries[i]
        }),
{
    lemma_entry_widths();
    let buf = history_page_bytes(entries);
    let encode = |e: RootEntry| root_bytes(e);
    let payload = encode_all(entries, encode);
    lemma_encode_all_len(entries, encode, 32);
    lemma_sealed_page(PageKind::History, entries.len() as u64, payload);
    assert forall|i: int| 0 <= i < entries.len() implies #[trigger] root_at(
        buf,
        EDITLOG_PAGE_HEADER_BYTES + HISTORY_ENTRY_BYTES * i,
    ) == entries[i] by {
        lemma_encode_all(entries, encode, 32, i);
        assert(buf.subrange(24 + 32 * i, 24 + 32 * i + 32) =~= payload.subrange(
            32 * i,
            32 * i + 32,
        )) by {
            assert(buf.subrange(24, (24 + payload.len()) as int) == payload);
        }
        lemma_root_at(buf, 24 + 32 * i, entries[i]);
    }
}

/// A page of the add buffer shows the bytes it was made of.
pub proof fn law_add_page_round_trip(chunk: Seq<u8>)
    requires
        chunk.len() <= 4072,
    ensures
        ({
            let buf = add_page_bytes(chunk);
            &&& buf.len() == EDITLOG_PAGE_SIZE
            &&& checked_page(buf) == Ok::<(), EditLogError>(())
            &&& page_header(buf, PageKind::Add) == Ok::<usize, EditLogError>(chunk.len() as usize)
            &&& buf.subrange(
                EDITLOG_PAGE_HEADER_BYTES as int,
                EDITLOG_PAGE_HEADER_BYTES + chunk.len(),
            ) == chunk
        }),
{
    lemma_sealed_page(PageKind::Add, chunk.len() as u64, chunk);
}

pub(crate) fn push_zeros(buf: &mut Vec<u8>, n: usize)
    ensures
        final(buf)@ == old(buf)@ + zeros(n as nat),
{
    let mut i: usize = 0;
    assert(buf@ =~= old(buf)@ + zeros(0));
    while i < n
        invariant
            i <= n,
            buf@ == old(buf)@ + zeros(i as nat),
        decreases n - i,
    {
        buf.push(0);
        i = i + 1;
        assert(buf@ =~= old(buf)@ + zeros(i as nat));
    }
}

pub(crate) fn push_bytes(buf: &mut Vec<u8>, bytes: &[u8])
    ensures
        final(buf)@ == old(buf)@ + bytes@,
{
    let mut i: usize = 0;
    assert(buf@ =~= old(buf)@ + bytes@.take(0));
    while i < bytes.len()
        invariant
            i <= bytes@.len(),
            buf@ == old(buf)@ + bytes@.take(i as int),
        decreases bytes@.len() - i,
    {
        buf.push(bytes[i]);
        i = i + 1;
        assert(buf@ =~= old(buf)@ + bytes@.take(i as int));
    }
    assert(bytes@.take(i as int) =~= bytes@);
}

/// Pads, numbers and seals a payload.
fn seal_page(kind: PageKind, count: usize, payload: &[u8]) -> (page: Vec<u8>)
    requires
        payload@.len() <= EDITLOG_PAGE_SIZE - EDITLOG_PAGE_HEADER_BYTES,
    ensures
        page@ == sealed_page(kind, count as nat, payload@),
{
    let mut body: Vec<u8> = Vec::new();
    body.push(kind.code());
    push_zeros(&mut body, 3);
    assert(body@ =~= seq![kind.spec_code(), 0u8, 0u8, 0u8]);
    push_le(&mut body, count as u64, 8);
    push_zeros(&mut body, 8);
    push_bytes(&mut body, payload);
    push_zeros(&mut body, EDITLOG_PAGE_SIZE - EDITLOG_PAGE_HEADER_BYTES - payload.len());
    let crc: u32 = checksum(body.as_slice());
    let mut page: Vec<u8> = Vec::new();
    push_le(&mut page, crc as u64, 4);
    push_bytes(&mut page, body.as_slice());
    assert(page@ =~= sealed_page(kind, count as nat, payload@));
    page
}

fn push_child(buf: &mut Vec<u8>, child: ChildRef)
    ensures
        final(buf)@ == old(buf)@ + child_bytes(child),
{
    push_le(buf, child.page_id, 8);
    push_le(buf, child.total_bytes as u64, 8);
    push_le(buf, child.total_line_breaks as u64, 8);
    assert(buf@ =~= old(buf)@ + child_bytes(child));
}

fn push_piece(buf: &mut Vec<u8>, piece: Piece)
    ensures
        final(buf)@ == old(buf)@ + piece_bytes(piece),
{
    let code: u8 = match piece.src {
        PieceSource::Original => 0,
        PieceSource::Add => 1,
    };
    buf.push(code);
    push_zeros(buf, 7);
    push_le(buf, piece.start as u64, 8);
    push_le(buf, piece.len as u64, 8);
    push_le(buf, piece.line_breaks as u64, 8);
    assert(buf@ =~= old(buf)@ + piece_bytes(piece));
}

fn push_root(buf: &mut Vec<u8>, entry: RootEntry)
    ensures
        final(buf)@ == old(buf)@ + root_bytes(entry),
{
    match entry.root {
        Some(root) => {
            push_le(buf, 1, 8);
            push_child(buf, root);
        },
        None => {
            push_le(buf, 0, 8);
            push_le(buf, 0, 8);
            push_le(buf, 0, 8);
            push_le(buf, 0, 8);
        },
    }
    assert(buf@ =~= old(buf)@ + root_bytes(entry));
}

/// Encodes a piece page.
pub fn serialize_page(page: &PiecePage) -> (result: Result<Vec<u8>, EditLogError>)
    ensures
        page_fits(page@) ==> result is Ok && result->Ok_0@ == piece_page_bytes(page@),
        !page_fits(page@) ==> result == Err::<Vec<u8>, EditLogError>(EditLogError::PageTooLarge),
{
    proof {
        lemma_entry_widths();
    }
    let mut payload: Vec<u8> = Vec::new();
    match page {
        PiecePage::Internal { children } => {
            if children.len() > INTERNAL_PAGE_CAPACITY {
                return Err(EditLogError::PageTooLarge);
            }
            let ghost encode = |c: ChildRef| child_bytes(c);
            let mut i: usize = 0;
            assert(children@.take(0) =~= Seq::empty());
            while i < children.len()
                invariant
                    i <= children@.len(),
                    encode == (|c: ChildRef| child_bytes(c)),
                    payload@ == encode_all(children@.take(i as int), encode),
                decreases children@.len() - i,
            {
                push_child(&mut payload, children[i]);
                assert(children@.take(i + 1).drop_last() =~= children@.take(i as int));
                i = i + 1;
            }
            assert(children@.take(i as int) =~= children@);
            proof {
                lemma_encode_all_len(children@, encode, 24);
            }
            Ok(seal_page(PageKind::Internal, children.len(), payload.as_slice()))
        },
        PiecePage::Leaf { pieces } => {
            if pieces.len() > LEAF_PAGE_CAPACITY {
                return Err(EditLogError::PageTooLarge);
            }
            let ghost encode = |p: Piece| piece_bytes(p);
            let mut i: usize = 0;
            assert(pieces@.take(0) =~= Seq::empty());
            while i < pieces.len()
                invariant
                    i <= pieces@.len(),
                    encode == (|p: Piece| piece_bytes(p)),
                    payload@ == encode_all(pieces@.take(i as int), encode),
                decreases pieces@.len() - i,
            {
                push_piece(&mut payload, pieces[i]);
                assert(pieces@.take(i + 1).drop_last() =~= pieces@.take(i as int));
                i = i + 1;
            }
            assert(pieces@.take(i as int) =~= pieces@);
            proof {
                lemma_encode_all_len(pieces@, encode, 32);
            }
            Ok(seal_page(PageKind::Leaf, pieces.len(), payload.as_slice()))
        },
    }
}

/// How many history states fit in a page.
pub fn history_page_capacity() -> (capacity: usize)
    ensures
        capacity == 127,
{
    (EDITLOG_PAGE_SIZE - EDITLOG_PAGE_HEADER_BYTES) / HISTORY_ENTRY_BYTES
}

/// How many bytes of the add buffer fit in a page.
pub fn add_page_capacity() -> (capacity: usize)
    ensures
        capacity == 4072,
{
    EDITLOG_PAGE_SIZE - EDITLOG_PAGE_HEADER_BYTES
}

/// Encodes history states as one page.
pub fn serialize_history_page(entries: &[RootEntry]) -> (result: Result<Vec<u8>, EditLogError>)
    ensures
        entries@.len() <= 127 ==> result is Ok && result->Ok_0@ == history_page_bytes(entries@),
        entries@.len() > 127 ==> result == Err::<Vec<u8>, EditLogError>(
            EditLogError::HistoryPageTooLarge,
        ),
{
    if entries.len() > history_page_capacity() {
        return Err(EditLogError::HistoryPageTooLarge);
    }
    let mut payload: Vec<u8> = Vec::new();
    let ghost encode = |e: RootEntry| root_bytes(e);
    let mut i: usize = 0;
    assert(entries@.take(0) =~= Seq::empty());
    while i < entries.len()
        invariant
            i <= entries@.len(),
            encode == (|e: RootEntry| root_bytes(e)),
            payload@ == encode_all(entries@.take(i as int), encode),
        decreases entries@.len() - i,
    {
        push_root(&mut payload, entries[i]);
        assert(entries@.take(i + 1).drop_last() =~= entries@.take(i as int));
        i = i + 1;
    }
    assert(entries@.take(i as int) =~= entries@);
    proof {
        lemma_entry_widths();
        lemma_encode_all_len(entries@, encode, 32);
    }
    Ok(seal_page(PageKind::History, entries.len(), payload.as_slice()))
}

/// Encodes a chunk of the add buffer as one page.
pub fn serialize_add_page(chunk: &[u8]) -> (result: Result<Vec<u8>, EditLogError>)
    ensures
        chunk@.len() <= 4072 ==> result is Ok && result->Ok_0@ == add_page_bytes(chunk@),
        chunk@.len() > 4072 ==> result == Err::<Vec<u8>, EditLogError>(
            EditLogError::AddPageTooLarge,
        ),
{
    if chunk.len() > add_page_capacity() {
        return Err(EditLogError::AddPageTooLarge);
    }
    Ok(seal_page(PageKind::Add, chunk.len(), chunk))
}

/// Checks the size and the checksum of a page.
pub fn validate_page_crc(buf: &[u8]) -> (result: Result<(), EditLogError>)
    ensures
        result == checked_page(buf@),
{
    if buf.len() != EDITLOG_PAGE_SIZE {
        return Err(EditLogError::InvalidPageSize);
    }
    let expected: u64 = read_le(buf, 0, 4);
    let body = vstd::slice::slice_subrange(buf, 4, buf.len());
    assert(body@ =~= buf@.skip(4));
    if checksum(body) as u64 != expected {
        return Err(EditLogError::ChecksumMismatch);
    }
    Ok(())
}

pub(crate) fn read_u64(buf: &[u8], at: usize) -> (value: u64)
    requires
        at + 8 <= buf@.len(),
    ensures
        value == u64_at(buf@, at as int),
{
    read_le(buf, at, 8)
}

fn read_usize(buf: &[u8], at: usize) -> (value: usize)
    requires
        at + 8 <= buf@.len(),
    ensures
        value == usize_at(buf@, at as int),
{
    read_le(buf, at, 8) as usize
}

/// Checks a page and its kind, and reads its entry count.
pub fn parse_page_header(buf: &[u8], expected_kind: PageKind) -> (result: Result<
    usize,
    EditLogError,
>)
    ensures
        result == page_header(buf@, expected_kind),
{
    match validate_page_crc(buf) {
        Err(err) => return Err(err),
        Ok(()) => {},
    }
    match PageKind::from_code(buf[4]) {
        None => Err(EditLogError::InvalidPageKind),
        Some(kind) => {
            if kind != expected_kind {
                Err(EditLogError::UnexpectedPageKind)
            } else {
                Ok(read_usize(buf, 8))
            }
        },
    }
}

fn read_child(buf: &[u8], at: usize) -> (child: ChildRef)
    requires
        at + 24 <= buf@.len(),
    ensures
        child == child_at(buf@, at as int),
{
    assert(buf.len() <= usize::MAX);
    ChildRef {
        page_id: read_u64(buf, at),
        total_bytes: read_usize(buf, at + 8),
        total_line_breaks: read_usize(buf, at + 16),
    }
}

pub(crate) fn read_root(buf: &[u8], at: usize) -> (entry: RootEntry)
    requires
        at + 8 <= buf@.len(),
        at + 32 <= buf@.len() || u64_at(buf@, at as int) == 0,
    ensures
        entry == root_at(buf@, at as int),
{
    assert(buf.len() <= usize::MAX);
    let root = if read_u64(buf, at) == 0 {
        None
    } else {
        Some(read_child(buf, at + 8))
    };
    RootEntry { root }
}

/// Decodes a piece page.
pub fn parse_page(buf: &[u8]) -> (result: Result<PiecePage, EditLogError>)
    ensures
        match parsed_page(buf@) {
            Ok(page) => result is Ok && result->Ok_0@ == page,
            Err(err) => result is Err && result->Err_0 == err,
        },
{
    match validate_page_crc(buf) {
        Err(err) => return Err(err),
        Ok(()) => {},
    }
    let kind = match PageKind::from_code(buf[4]) {
        None => return Err(EditLogError::InvalidPageKind),
        Some(kind) => kind,
    };
    let count: usize = read_usize(buf, 8);
    match kind {
        PageKind::Internal => {
            if count > INTERNAL_PAGE_CAPACITY {
                return Err(EditLogError::InternalPageOverfull);
            }
            let mut children: Vec<ChildRef> = Vec::new();
            let mut i: usize = 0;
            while i < count
                invariant
                    buf@.len() == EDITLOG_PAGE_SIZE,
                    i <= count <= INTERNAL_PAGE_CAPACITY,
                    children@ == Seq::new(
                        i as nat,
                        |k: int| child_at(buf@, EDITLOG_PAGE_HEADER_BYTES + INTERNAL_ENTRY_BYTES * k),
                    ),
                decreases count - i,
            {
                let child = read_child(buf, EDITLOG_PAGE_HEADER_BYTES + INTERNAL_ENTRY_BYTES * i);
                children.push(child);
                i = i + 1;
                assert(children@ =~= Seq::new(
                    i as nat,
                    |k: int| child_at(buf@, EDITLOG_PAGE_HEADER_BYTES + INTERNAL_ENTRY_BYTES * k),
                ));
            }
            Ok(PiecePage::Internal { children })
        },
        PageKind::Leaf => {
            if count > LEAF_PAGE_CAPACITY {
                return Err(EditLogError::LeafPageOverfull);
            }
            let mut pieces: Vec<Piece> = Vec::new();
            let mut i: usize = 0;
            while i < count
                invariant
                    buf@.len() == EDITLOG_PAGE_SIZE,
                    checked_page(buf@) == Ok::<(), EditLogError>(()),
                    PageKind::spec_from_code(buf@[4]) == Some(PageKind::Leaf),
                    count == usize_at(buf@, 8),
                    i <= count <= LEAF_PAGE_CAPACITY,
                    forall|k: int|
                        0 <= k < i ==> (#[trigger] buf@[EDITLOG_PAGE_HEADER_BYTES
                            + LEAF_ENTRY_BYTES * k]) <= 1,
                    pieces@ == Seq::new(
                        i as nat,
                        |k: int| piece_at(buf@, EDITLOG_PAGE_HEADER_BYTES + LEAF_ENTRY_BYTES * k),
                    ),
                decreases count - i,
            {
                let at: usize = EDITLOG_PAGE_HEADER_BYTES + LEAF_ENTRY_BYTES * i;
                let src = match buf[at] {
                    0 => PieceSource::Original,
                    1 => PieceSource::Add,
                    _ => {
                        assert(!valid_sources(buf@, count as int)) by {
                            assert(buf@[EDITLOG_PAGE_HEADER_BYTES + LEAF_ENTRY_BYTES * (i as int)]
                                > 1);
                        }
                        return Err(EditLogError::InvalidPieceSource);
                    },
                };
                let piece = Piece {
                    src,
                    start: read_usize(buf, at + 8),
                    len: read_usize(buf, at + 16),
                    line_breaks: read_usize(buf, at + 24),
                };
                pieces.push(piece);
                i = i + 1;
                assert(pieces@ =~= Seq::new(
                    i as nat,
                    |k: int| piece_at(buf@, EDITLOG_PAGE_HEADER_BYTES + LEAF_ENTRY_BYTES * k),
                ));
            }
            Ok(PiecePage::Leaf { pieces })
        },
        _ => Err(EditLogError::NotAPiecePage),
    }
}

} // verus!
