//! A sparse line index: line starts at regular distances, in a page tree of its own file.

use crate::bytes::{
    le_digits, le_value, lemma_le_digits_len, lemma_le_round_trip, lemma_weights, push_le, read_le,
};
use crate::editlog::{
    encode_all, lemma_encode_all, lemma_encode_all_len, push_bytes, push_zeros, read_u64, u64_at,
    zeros,
};
use crate::scan::{ends_line, is_either, CR, LF};
use crate::tree_model::min_int;
use vstd::prelude::*;

verus! {

pub const INDEX_VERSION: u32 = 1;

pub const INDEX_PAGE_SIZE: usize = 4096;

pub const INDEX_HEADER_BYTES: usize = 64;

/// The fingerprint of the source stands behind the last page.
pub const INDEX_TRAILER_BYTES: usize = 8;

pub const INDEX_PAGE_HEADER_BYTES: usize = 16;

pub const INDEX_ENTRY_BYTES: usize = 24;

/// How many entries fit in a page.
pub const INDEX_PAGE_CAPACITY: usize = 170;

/// Smaller sources get no index.
pub const INDEX_BUILD_MIN_FILE_BYTES: usize = 67_108_864;

/// A checkpoint is due after this many lines.
pub const INDEX_CHECKPOINT_STRIDE_LINES: u64 = 8_192;

/// A checkpoint is due after this many bytes.
pub const INDEX_CHECKPOINT_STRIDE_BYTES: u64 = 1_048_576;

/// The start of a line.
#[derive(Clone, Copy, Debug, PartialEq, Eq, Structural)]
pub struct LineCheckpoint {
    pub line0: usize,
    pub byte0: usize,
}

#[derive(Clone, Copy, Debug, PartialEq, Eq, Structural)]
pub enum PageKind {
    Internal,
    Leaf,
}

/// A line start, with the page that covers the lines from there on in an internal page.
#[derive(Clone, Copy, Debug, PartialEq, Eq, Structural)]
pub struct PageEntry {
    pub line0: u64,
    pub byte0: u64,
    pub child_page: u64,
}

#[derive(Debug)]
pub struct Page {
    pub kind: PageKind,
    pub entries: Vec<PageEntry>,
}

/// The state of the source that an index was built for.
#[derive(Clone, Copy, Debug, PartialEq, Eq, Structural)]
pub struct IndexMetadata {
    pub source_len: u64,
    pub source_mtime_ns: u64,
    pub source_fingerprint: u64,
}

#[derive(Clone, Copy, Debug, PartialEq, Eq, Structural)]
pub struct FileHeader {
    pub root_page: u64,
    pub page_count: u64,
    pub total_lines: u64,
    pub total_bytes: u64,
    pub source_len: u64,
    pub source_mtime_ns: u64,
}

/// Why an index could not be used.
#[derive(Clone, Copy, Debug, PartialEq, Eq, Structural)]
pub enum IndexError {
    InvalidMagic,
    UnsupportedVersion,
    StaleMetadata,
    InvalidPageKind,
    TruncatedPage,
    UnexpectedEof,
    CyclicPages,
}

impl IndexError {
    /// The text that is shown for the error.
    pub open spec fn spec_message(self) -> &'static str {
        match self {
            IndexError::InvalidMagic => "invalid qem line index magic",
            IndexError::UnsupportedVersion => "unsupported qem line index version",
            IndexError::StaleMetadata => "stale line index metadata",
            IndexError::InvalidPageKind => "invalid qem line index page kind",
            IndexError::TruncatedPage => "truncated qem line index page",
            IndexError::UnexpectedEof => "failed to fill whole buffer",
            IndexError::CyclicPages => "cyclic qem line index pages",
        }
    }

    pub fn message(self) -> (text: &'static str)
        ensures
            text@ == self.spec_message()@,
    {
        match self {
            IndexError::InvalidMagic => "invalid qem line index magic",
            IndexError::UnsupportedVersion => "unsupported qem line index version",
            IndexError::StaleMetadata => "stale line index metadata",
            IndexError::InvalidPageKind => "invalid qem line index page kind",
            IndexError::TruncatedPage => "truncated qem line index page",
            IndexError::UnexpectedEof => "failed to fill whole buffer",
            IndexError::CyclicPages => "cyclic qem line index pages",
        }
    }

    /// `true` where the file is shorter than it should be, and not otherwise wrong.
    pub fn is_eof(self) -> (eof: bool)
        ensures
            eof == (self is TruncatedPage || self is UnexpectedEof),
    {
        match self {
            IndexError::TruncatedPage | IndexError::UnexpectedEof => true,
            _ => false,
        }
    }
}

pub open spec fn sat64(x: int) -> u64 {
    if x > u64::MAX {
        u64::MAX
    } else {
        x as u64
    }
}

/// What is known after some bytes of a source were scanned.
pub struct IndexScan {
    pub total_lines: u64,
    pub next_line: u64,
    pub next_byte: u64,
    pub entries: Seq<PageEntry>,
}

/// The scan of the first `n` bytes. The first line is a checkpoint, and then every line that
/// is far enough behind the last checkpoint, by lines or by bytes.
pub open spec fn scan_lines(bytes: Seq<u8>, n: nat) -> IndexScan
    decreases n,
{
    if n == 0 {
        IndexScan {
            total_lines: 1,
            next_line: INDEX_CHECKPOINT_STRIDE_LINES,
            next_byte: INDEX_CHECKPOINT_STRIDE_BYTES,
            entries: seq![PageEntry { line0: 0, byte0: 0, child_page: 0 }],
        }
    } else {
        let before = scan_lines(bytes, (n - 1) as nat);
        if !ends_line(bytes, n - 1) {
            before
        } else {
            next_line_scan(before, n as int)
        }
    }
}

/// The scan with one more line, which starts at byte `start`.
pub open spec fn next_line_scan(before: IndexScan, start: int) -> IndexScan {
    let line0 = before.total_lines;
    if line0 < before.next_line && start < before.next_byte {
        IndexScan { total_lines: sat64(line0 + 1), ..before }
    } else {
        IndexScan {
            total_lines: sat64(line0 + 1),
            next_line: sat64(line0 + INDEX_CHECKPOINT_STRIDE_LINES),
            next_byte: sat64(start + INDEX_CHECKPOINT_STRIDE_BYTES),
            entries: before.entries.push(
                PageEntry { line0, byte0: sat64(start), child_page: 0 },
            ),
        }
    }
}

/// The checkpoints of a source.
pub open spec fn checkpoints(bytes: Seq<u8>) -> Seq<PageEntry> {
    scan_lines(bytes, bytes.len()).entries
}

/// How many of the first entries are not behind line `target`.
pub open spec fn entries_up_to(entries: Seq<PageEntry>, target: u64) -> nat
    decreases entries.len(),
{
    if entries.len() == 0 || entries[0].line0 > target {
        0
    } else {
        1 + entries_up_to(entries.skip(1), target)
    }
}

/// The last entry that is not behind line `target`, or the first one where all are.
pub open spec fn entry_for(entries: Seq<PageEntry>, target: u64) -> PageEntry {
    let n = entries_up_to(entries, target);
    entries[if n == 0 {
        0
    } else {
        n - 1
    }]
}

pub open spec fn index_magic() -> Seq<u8> {
    seq![0x51u8, 0x45u8, 0x4du8, 0x49u8, 0x44u8, 0x58u8, 0x31u8, 0u8]
}

pub open spec fn index_header_fields(header: FileHeader) -> Seq<u64> {
    seq![
        header.root_page,
        header.page_count,
        header.total_lines,
        header.total_bytes,
        header.source_len,
        header.source_mtime_ns,
    ]
}

pub open spec fn index_header_bytes(header: FileHeader) -> Seq<u8> {
    index_magic() + le_digits(INDEX_VERSION as nat, 4) + le_digits(INDEX_PAGE_SIZE as nat, 4)
        + encode_all(index_header_fields(header), |v: u64| le_digits(v as nat, 8))
}

pub open spec fn parsed_index_header(file: Seq<u8>) -> Result<FileHeader, IndexError> {
    if file.len() < INDEX_HEADER_BYTES {
        Err(IndexError::UnexpectedEof)
    } else if file.subrange(0, 8) != index_magic() {
        Err(IndexError::InvalidMagic)
    } else if le_value(file.subrange(8, 12)) != INDEX_VERSION || le_value(file.subrange(12, 16))
        != INDEX_PAGE_SIZE {
        Err(IndexError::UnsupportedVersion)
    } else {
        Ok(
            FileHeader {
                root_page: u64_at(file, 16),
                page_count: u64_at(file, 24),
                total_lines: u64_at(file, 32),
                total_bytes: u64_at(file, 40),
                source_len: u64_at(file, 48),
                source_mtime_ns: u64_at(file, 56),
            },
        )
    }
}

pub open spec fn entry_bytes(entry: PageEntry) -> Seq<u8> {
    le_digits(entry.line0 as nat, 8) + le_digits(entry.byte0 as nat, 8) + le_digits(
        entry.child_page as nat,
        8,
    )
}

pub open spec fn entry_at(buf: Seq<u8>, at: int) -> PageEntry {
    PageEntry { line0: u64_at(buf, at), byte0: u64_at(buf, at + 8), child_page: u64_at(buf, at + 16) }
}

pub open spec fn kind_code(kind: PageKind) -> u8 {
    match kind {
        PageKind::Internal => 1,
        PageKind::Leaf => 2,
    }
}

/// A stored page.
pub open spec fn index_page_bytes(kind: PageKind, entries: Seq<PageEntry>) -> Seq<u8> {
    let payload = encode_all(entries, |e: PageEntry| entry_bytes(e));
    seq![kind_code(kind)] + zeros(7) + le_digits(entries.len(), 8) + payload + zeros(
        (INDEX_PAGE_SIZE - INDEX_PAGE_HEADER_BYTES - payload.len()) as nat,
    )
}

/// What a page holds.
pub struct IndexPageView {
    pub kind: PageKind,
    pub entries: Seq<PageEntry>,
}

/// The page that `buf` stores.
pub open spec fn parsed_index_page(buf: Seq<u8>) -> Result<IndexPageView, IndexError> {
    let count = u64_at(buf, 8) as usize;
    if buf.len() == 0 || (buf[0] != 1 && buf[0] != 2) {
        Err(IndexError::InvalidPageKind)
    } else if INDEX_PAGE_HEADER_BYTES + INDEX_ENTRY_BYTES * count > buf.len() {
        Err(IndexError::TruncatedPage)
    } else {
        Ok(
            IndexPageView {
                kind: if buf[0] == 1 {
                    PageKind::Internal
                } else {
                    PageKind::Leaf
                },
                entries: Seq::new(
                    count as nat,
                    |i: int| entry_at(buf, INDEX_PAGE_HEADER_BYTES + INDEX_ENTRY_BYTES * i),
                ),
            },
        )
    }
}

/// Where the page with number `page_id` starts; pages count from one.
pub open spec fn index_page_offset(page_id: u64) -> int {
    INDEX_HEADER_BYTES + (if page_id == 0 {
        0
    } else {
        page_id - 1
    }) * INDEX_PAGE_SIZE
}

/// The page with number `page_id`.
pub open spec fn index_page(file: Seq<u8>, page_id: u64) -> Result<IndexPageView, IndexError> {
    let at = index_page_offset(page_id);
    if at + INDEX_PAGE_SIZE <= file.len() {
        parsed_index_page(file.subrange(at, at + INDEX_PAGE_SIZE))
    } else {
        Err(IndexError::UnexpectedEof)
    }
}

pub open spec fn no_entry() -> PageEntry {
    PageEntry { line0: 0, byte0: 0, child_page: 0 }
}

/// The checkpoint for a line, looked up from `page_id` down through at most `steps` pages.
pub open spec fn descend(file: Seq<u8>, page_id: u64, line0: u64, steps: nat) -> Result<
    PageEntry,
    IndexError,
>
    decreases steps,
{
    if steps == 0 {
        Err(IndexError::CyclicPages)
    } else {
        match index_page(file, page_id) {
            Err(err) => Err(err),
            Ok(page) => if page.entries.len() == 0 {
                Ok(no_entry())
            } else {
                let entry = entry_for(page.entries, line0);
                if page.kind == PageKind::Leaf {
                    Ok(entry)
                } else {
                    descend(file, entry.child_page, line0, (steps - 1) as nat)
                }
            },
        }
    }
}

/// How many pages a file holds, and one more: a longer way down leads through a page twice.
pub open spec fn step_limit(file: Seq<u8>) -> nat {
    if file.len() < INDEX_HEADER_BYTES {
        1
    } else {
        ((file.len() - INDEX_HEADER_BYTES) / INDEX_PAGE_SIZE as int + 1) as nat
    }
}

/// The checkpoints below a page of height `height`, in order.
pub open spec fn entries_below(file: Seq<u8>, page_id: u64, height: nat) -> Seq<PageEntry>
    decreases height, 1nat, 0nat,
{
    match index_page(file, page_id) {
        Err(_) => Seq::empty(),
        Ok(page) => if height == 0 {
            page.entries
        } else {
            entries_under(file, page.entries, (height - 1) as nat)
        },
    }
}

/// The checkpoints below all of `children`.
pub open spec fn entries_under(file: Seq<u8>, children: Seq<PageEntry>, height: nat) -> Seq<
    PageEntry,
>
    decreases height, 2nat, children.len(),
{
    if children.len() == 0 {
        Seq::empty()
    } else {
        entries_under(file, children.drop_last(), height) + entries_below(
            file,
            children.last().child_page,
            height,
        )
    }
}

/// `true` where `page_id` is the root of a sound page tree of the given height.
pub open spec fn index_tree_ok(file: Seq<u8>, page_id: u64, height: nat) -> bool
    decreases height, 0nat,
{
    match index_page(file, page_id) {
        Err(_) => false,
        Ok(page) => {
            &&& page.entries.len() > 0
            &&& (page.kind == PageKind::Leaf) == (height == 0)
            &&& height > 0 ==> forall|i: int|
                0 <= i < page.entries.len() ==> covers(
                    file,
                    #[trigger] page.entries[i],
                    (height - 1) as nat,
                )
        },
    }
}

/// `true` where `entry` leads to a sound page tree whose first checkpoint it repeats.
pub open spec fn covers(file: Seq<u8>, entry: PageEntry, height: nat) -> bool
    decreases height, 1nat,
{
    &&& index_tree_ok(file, entry.child_page, height)
    &&& entries_below(file, entry.child_page, height).len() > 0
    &&& entry.line0 == entries_below(file, entry.child_page, height)[0].line0
    &&& entry.byte0 == entries_below(file, entry.child_page, height)[0].byte0
}

/// Line numbers grow from entry to entry.
pub open spec fn ascending(entries: Seq<PageEntry>) -> bool {
    forall|i: int, j: int| 0 <= i < j < entries.len() ==> entries[i].line0 < entries[j].line0
}

/// In ascending entries the first ones that are not behind a line are all that are not.
proof fn lemma_entries_up_to(entries: Seq<PageEntry>, target: u64)
    requires
        ascending(entries),
    ensures
        entries_up_to(entries, target) <= entries.len(),
        forall|i: int|
            0 <= i < entries_up_to(entries, target) ==> (#[trigger] entries[i]).line0 <= target,
        forall|i: int|
            entries_up_to(entries, target) <= i < entries.len() ==> (#[trigger] entries[i]).line0
                > target,
    decreases entries.len(),
{
    if entries.len() > 0 && entries[0].line0 <= target {
        let rest = entries.skip(1);
        assert forall|i: int, j: int| 0 <= i < j < rest.len() implies rest[i].line0
            < rest[j].line0 by {
            assert(rest[i] == entries[i + 1] && rest[j] == entries[j + 1]);
        }
        lemma_entries_up_to(rest, target);
        let n = entries_up_to(entries, target);
        assert forall|i: int| 0 <= i < n implies (#[trigger] entries[i]).line0 <= target by {
            if i > 0 {
                assert(entries[i] == rest[i - 1]);
            }
        }
        assert forall|i: int| n <= i < entries.len() implies (#[trigger] entries[i]).line0
            > target by {
            assert(entries[i] == rest[i - 1]);
        }
    }
}

/// Where the first entries that are not behind a line end.
proof fn lemma_up_to_edge(entries: Seq<PageEntry>, target: u64)
    ensures
        entries_up_to(entries, target) <= entries.len(),
        entries_up_to(entries, target) > 0 ==> entries[entries_up_to(entries, target) - 1].line0
            <= target,
        entries_up_to(entries, target) < entries.len() ==> entries[entries_up_to(
            entries,
            target,
        ) as int].line0 > target,
    decreases entries.len(),
{
    if entries.len() > 0 && entries[0].line0 <= target {
        lemma_up_to_edge(entries.skip(1), target);
    }
}

/// In ascending entries there is only one such edge.
proof fn lemma_up_to_is(entries: Seq<PageEntry>, target: u64, n: nat)
    requires
        ascending(entries),
        n <= entries.len(),
        n > 0 ==> entries[n - 1].line0 <= target,
        n < entries.len() ==> entries[n as int].line0 > target,
    ensures
        entries_up_to(entries, target) == n,
{
    lemma_up_to_edge(entries, target);
    let k = entries_up_to(entries, target);
    if k < n {
        assert(entries[k as int].line0 <= entries[n - 1].line0) by {
            if k < n - 1 {
                assert(entries[k as int].line0 < entries[n - 1].line0);
            }
        }
    } else if k > n {
        assert(entries[n as int].line0 <= entries[k - 1].line0) by {
            if n < k - 1 {
                assert(entries[n as int].line0 < entries[k - 1].line0);
            }
        }
    }
}

/// The entry for a line lies in the part whose first entry is the last not behind it.
proof fn lemma_entry_for_part(
    a: Seq<PageEntry>,
    m: Seq<PageEntry>,
    b: Seq<PageEntry>,
    target: u64,
)
    requires
        ascending(a + m + b),
        m.len() > 0,
        a.len() == 0 || m[0].line0 <= target,
        b.len() == 0 || b[0].line0 > target,
    ensures
        entry_for(a + m + b, target) == entry_for(m, target),
{
    let all = a + m + b;
    lemma_up_to_edge(m, target);
    let k = entries_up_to(m, target);
    if k > 0 {
        let n = a.len() + k;
        assert(all[n - 1] == m[k - 1]);
        if k < m.len() {
            assert(all[n as int] == m[k as int]);
        } else if b.len() > 0 {
            assert(all[n as int] == b[0]);
        }
        lemma_up_to_is(all, target, n);
    } else {
        assert(a.len() == 0);
        assert(all[0] == m[0]);
        lemma_up_to_is(all, target, 0);
    }
}

/// The entries below children in front of, at and behind place `c`.
proof fn lemma_entries_under_split(file: Seq<u8>, children: Seq<PageEntry>, height: nat, c: int)
    requires
        0 <= c < children.len(),
    ensures
        entries_under(file, children, height) == entries_under(file, children.take(c), height)
            + entries_below(file, children[c].child_page, height) + entries_under(
            file,
            children.skip(c + 1),
            height,
        ),
{
    let one = seq![children[c]];
    assert(children =~= children.take(c) + one + children.skip(c + 1));
    lemma_entries_under_concat(file, children.take(c) + one, children.skip(c + 1), height);
    lemma_entries_under_concat(file, children.take(c), one, height);
    lemma_entries_under_one(file, children[c], height);
}

proof fn lemma_entries_under_one(file: Seq<u8>, child: PageEntry, height: nat)
    ensures
        entries_under(file, seq![child], height) == entries_below(file, child.child_page, height),
{
    assert(seq![child].drop_last() =~= Seq::empty());
    assert(entries_under(file, seq![child].drop_last(), height) =~= Seq::empty());
    assert(entries_under(file, seq![child], height) =~= entries_below(
        file,
        child.child_page,
        height,
    ));
}

proof fn lemma_entries_under_concat(
    file: Seq<u8>,
    a: Seq<PageEntry>,
    b: Seq<PageEntry>,
    height: nat,
)
    ensures
        entries_under(file, a + b, height) == entries_under(file, a, height) + entries_under(
            file,
            b,
            height,
        ),
    decreases b.len(),
{
    if b.len() == 0 {
        assert(a + b =~= a);
        assert(entries_under(file, a, height) + entries_under(file, b, height) =~= entries_under(
            file,
            a,
            height,
        ));
    } else {
        lemma_entries_under_concat(file, a, b.drop_last(), height);
        assert((a + b).drop_last() =~= a + b.drop_last());
        let tail = entries_below(file, b.last().child_page, height);
        assert((entries_under(file, a, height) + entries_under(file, b.drop_last(), height)) + tail
            =~= entries_under(file, a, height) + (entries_under(file, b.drop_last(), height)
            + tail));
    }
}

/// Going down a sound page tree leads to the checkpoint for the line.
pub proof fn lemma_descend(file: Seq<u8>, page_id: u64, height: nat, line0: u64, steps: nat)
    requires
        index_tree_ok(file, page_id, height),
        ascending(entries_below(file, page_id, height)),
        steps > height,
    ensures
        descend(file, page_id, line0, steps) == Ok::<PageEntry, IndexError>(
            entry_for(entries_below(file, page_id, height), line0),
        ),
    decreases height,
{
    let page = index_page(file, page_id)->Ok_0;
    if height > 0 {
        let below = (height - 1) as nat;
        let children = page.entries;
        let all = entries_under(file, children, below);
        assert forall|i: int, j: int| 0 <= i < j < children.len() implies children[i].line0
            < children[j].line0 by {
            lemma_child_order(file, children, below, i, j);
        }
        lemma_entries_up_to(children, line0);
        let n = entries_up_to(children, line0);
        let c: int = if n == 0 {
            0
        } else {
            n - 1
        };
        assert(covers(file, children[c], below));
        lemma_entries_under_split(file, children, below, c);
        let a = entries_under(file, children.take(c), below);
        let m = entries_below(file, children[c].child_page, below);
        let b = entries_under(file, children.skip(c + 1), below);
        assert(all == a + m + b);
        if c == 0 {
            assert(children.take(0) =~= Seq::empty());
        }
        if c + 1 < children.len() {
            let rest = children.skip(c + 1);
            assert(rest[0] == children[c + 1]);
            assert(covers(file, children[c + 1], below));
            lemma_entries_under_split(file, rest, below, 0);
            assert(rest.take(0) =~= Seq::empty());
            assert(b[0] == entries_below(file, rest[0].child_page, below)[0]);
        } else {
            assert(children.skip(c + 1) =~= Seq::empty());
        }
        lemma_entry_for_part(a, m, b, line0);
        assert forall|i: int, j: int| 0 <= i < j < m.len() implies m[i].line0 < m[j].line0 by {
            assert(all[a.len() + i] == m[i] && all[a.len() + j] == m[j]);
        }
        lemma_descend(file, children[c].child_page, below, line0, (steps - 1) as nat);
    }
}

proof fn lemma_child_order(
    file: Seq<u8>,
    children: Seq<PageEntry>,
    height: nat,
    i: int,
    j: int,
)
    requires
        0 <= i < j < children.len(),
        forall|k: int| 0 <= k < children.len() ==> covers(file, #[trigger] children[k], height),
        ascending(entries_under(file, children, height)),
    ensures
        children[i].line0 < children[j].line0,
{
    let all = entries_under(file, children, height);
    let front = children.take(j);
    lemma_entries_under_split(file, children, height, j);
    lemma_entries_under_split(file, front, height, i);
    assert(covers(file, children[i], height));
    assert(covers(file, children[j], height));
    let a = entries_under(file, front.take(i), height);
    assert(front[i] == children[i]);
    assert(all[a.len() as int] == entries_below(file, children[i].child_page, height)[0]);
    assert(all[entries_under(file, front, height).len() as int] == entries_below(
        file,
        children[j].child_page,
        height,
    )[0]);
}

/// A page tree stays as it is when the file grows or its header changes.
proof fn lemma_tree_stays(file: Seq<u8>, longer: Seq<u8>, page_id: u64, height: nat)
    requires
        same_pages(file, longer),
        index_tree_ok(file, page_id, height),
    ensures
        index_tree_ok(longer, page_id, height),
        entries_below(longer, page_id, height) == entries_below(file, page_id, height),
    decreases height, 1nat, 0nat,
{
    assert(index_page(longer, page_id) == index_page(file, page_id));
    if height > 0 {
        let below = (height - 1) as nat;
        let children = index_page(file, page_id)->Ok_0.entries;
        lemma_list_stays(file, longer, children, below);
    }
}

proof fn lemma_list_stays(file: Seq<u8>, longer: Seq<u8>, children: Seq<PageEntry>, height: nat)
    requires
        same_pages(file, longer),
        forall|i: int| 0 <= i < children.len() ==> covers(file, #[trigger] children[i], height),
    ensures
        forall|i: int| 0 <= i < children.len() ==> covers(longer, #[trigger] children[i], height),
        entries_under(longer, children, height) == entries_under(file, children, height),
    decreases height, 2nat, children.len(),
{
    if children.len() > 0 {
        let front = children.drop_last();
        let last = children[children.len() - 1];
        assert forall|i: int| 0 <= i < front.len() implies covers(
            file,
            #[trigger] front[i],
            height,
        ) by {
            assert(front[i] == children[i]);
        }
        lemma_list_stays(file, longer, front, height);
        assert(covers(file, last, height));
        lemma_tree_stays(file, longer, last.child_page, height);
        assert forall|i: int| 0 <= i < children.len() implies covers(
            longer,
            #[trigger] children[i],
            height,
        ) by {
            if i < front.len() {
                assert(front[i] == children[i]);
            }
        }
    }
}

/// Every page that one file holds, the other one holds too.
pub open spec fn same_pages(file: Seq<u8>, longer: Seq<u8>) -> bool {
    forall|id: u64|
        index_page_offset(id) + INDEX_PAGE_SIZE <= file.len() ==> #[trigger] index_page(longer, id)
            == index_page(file, id)
}

/// A page reads back as it was written.
proof fn lemma_index_page_round_trip(kind: PageKind, entries: Seq<PageEntry>)
    requires
        entries.len() <= INDEX_PAGE_CAPACITY,
    ensures
        index_page_bytes(kind, entries).len() == INDEX_PAGE_SIZE,
        parsed_index_page(index_page_bytes(kind, entries)) == Ok::<IndexPageView, IndexError>(
            IndexPageView { kind, entries },
        ),
{
    let buf = index_page_bytes(kind, entries);
    let encode = |e: PageEntry| entry_bytes(e);
    let payload = encode_all(entries, encode);
    assert forall|e: PageEntry| #[trigger] encode(e).len() == 24 by {
        lemma_le_digits_len(e.line0 as nat, 8);
        lemma_le_digits_len(e.byte0 as nat, 8);
        lemma_le_digits_len(e.child_page as nat, 8);
    }
    lemma_encode_all_len(entries, encode, 24);
    lemma_le_digits_len(entries.len(), 8);
    lemma_weights();
    lemma_le_round_trip(entries.len(), 8);
    assert(buf.subrange(8, 16) =~= le_digits(entries.len(), 8));
    assert forall|i: int| 0 <= i < entries.len() implies #[trigger] entry_at(
        buf,
        INDEX_PAGE_HEADER_BYTES + INDEX_ENTRY_BYTES * i,
    ) == entries[i] by {
        lemma_encode_all(entries, encode, 24, i);
        let at = 16 + 24 * i;
        let e = entries[i];
        let w = payload.subrange(24 * i, 24 * i + 24);
        lemma_le_digits_len(e.line0 as nat, 8);
        lemma_le_digits_len(e.byte0 as nat, 8);
        lemma_le_digits_len(e.child_page as nat, 8);
        assert(buf.subrange(at, at + 8) =~= w.subrange(0, 8));
        assert(w.subrange(0, 8) =~= le_digits(e.line0 as nat, 8));
        assert(buf.subrange(at + 8, at + 16) =~= w.subrange(8, 16));
        assert(w.subrange(8, 16) =~= le_digits(e.byte0 as nat, 8));
        assert(buf.subrange(at + 16, at + 24) =~= w.subrange(16, 24));
        assert(w.subrange(16, 24) =~= le_digits(e.child_page as nat, 8));
        lemma_le_round_trip(e.line0 as nat, 8);
        lemma_le_round_trip(e.byte0 as nat, 8);
        lemma_le_round_trip(e.child_page as nat, 8);
    }
    assert(Seq::new(
        entries.len(),
        |i: int| entry_at(buf, INDEX_PAGE_HEADER_BYTES + INDEX_ENTRY_BYTES * i),
    ) =~= entries);
}

/// An index header reads back as it was written, whatever pages follow it, and each of its fields
/// has its place.
pub proof fn law_index_header_round_trip(header: FileHeader, rest: Seq<u8>)
    ensures
        index_header_bytes(header).len() == INDEX_HEADER_BYTES,
        parsed_index_header(index_header_bytes(header) + rest) == Ok::<FileHeader, IndexError>(
            header,
        ),
        ({
            let file = index_header_bytes(header) + rest;
            &&& file.subrange(0, 8) == seq![81u8, 69u8, 77u8, 73u8, 68u8, 88u8, 49u8, 0u8]
            &&& le_value(file.subrange(8, 12)) == 1
            &&& le_value(file.subrange(12, 16)) == 4096
            &&& u64_at(file, 16) == header.root_page
            &&& u64_at(file, 24) == header.page_count
            &&& u64_at(file, 32) == header.total_lines
            &&& u64_at(file, 40) == header.total_bytes
            &&& u64_at(file, 48) == header.source_len
            &&& u64_at(file, 56) == header.source_mtime_ns
        }),
{
    let file = index_header_bytes(header) + rest;
    let fields = index_header_fields(header);
    let encode = |v: u64| le_digits(v as nat, 8);
    let tail = encode_all(fields, encode);
    assert forall|v: u64| #[trigger] encode(v).len() == 8 by {
        lemma_le_digits_len(v as nat, 8);
    }
    lemma_encode_all_len(fields, encode, 8);
    lemma_le_digits_len(INDEX_VERSION as nat, 4);
    lemma_le_digits_len(INDEX_PAGE_SIZE as nat, 4);
    lemma_weights();
    lemma_le_round_trip(INDEX_VERSION as nat, 4);
    lemma_le_round_trip(INDEX_PAGE_SIZE as nat, 4);
    assert(file.subrange(0, 8) =~= index_magic());
    assert(file.subrange(8, 12) =~= le_digits(INDEX_VERSION as nat, 4));
    assert(file.subrange(12, 16) =~= le_digits(INDEX_PAGE_SIZE as nat, 4));
    assert forall|k: int| 0 <= k < 6 implies #[trigger] fields[k] == u64_at(file, 16 + 8 * k) by {
        lemma_encode_all(fields, encode, 8, k);
        assert(file.subrange(16 + 8 * k, 16 + 8 * k + 8) =~= tail.subrange(8 * k, 8 * k + 8));
        lemma_le_round_trip(fields[k] as nat, 8);
    }
    assert(fields[0] == u64_at(file, 16));
    assert(fields[1] == u64_at(file, 24));
    assert(fields[2] == u64_at(file, 32));
    assert(fields[3] == u64_at(file, 40));
    assert(fields[4] == u64_at(file, 48));
    assert(fields[5] == u64_at(file, 56));
}

/// What a scan keeps: line numbers grow, each checkpoint is the start of its line, and the
/// last one is near.
pub open spec fn scan_sound(bytes: Seq<u8>, n: nat) -> bool {
    let scan = scan_lines(bytes, n);
    let last = scan.entries.last();
    &&& scan.entries.len() > 0
    &&& scan.entries[0] == no_entry()
    &&& ascending(scan.entries)
    &&& scan.total_lines == 1 + crate::scan::line_ends(bytes, n as int)
    &&& last.line0 < scan.total_lines <= last.line0 + INDEX_CHECKPOINT_STRIDE_LINES
    &&& scan.next_line == sat64(last.line0 + INDEX_CHECKPOINT_STRIDE_LINES)
    &&& scan.next_byte == sat64(last.byte0 + INDEX_CHECKPOINT_STRIDE_BYTES)
    &&& forall|i: int| 0 <= i < scan.entries.len() ==> #[trigger] is_line_start(bytes, n as int, scan.entries[i])
}

/// `entry` is where its line starts, in the first `n` bytes.
pub open spec fn is_line_start(bytes: Seq<u8>, n: int, entry: PageEntry) -> bool {
    &&& 0 <= entry.byte0 <= n
    &&& entry.byte0 == 0 || ends_line(bytes, entry.byte0 - 1)
    &&& entry.line0 == crate::scan::line_ends(bytes, entry.byte0 as int)
    &&& entry.child_page == 0
}

pub proof fn lemma_scan_sound(bytes: Seq<u8>, n: nat)
    requires
        n <= bytes.len() < u64::MAX,
    ensures
        scan_sound(bytes, n),
    decreases n,
{
    if n > 0 {
        let m = (n - 1) as nat;
        lemma_scan_sound(bytes, m);
        let before = scan_lines(bytes, m);
        let scan = scan_lines(bytes, n);
        crate::scan::lemma_line_ends_monotone(bytes, 0, m as int);
        assert forall|i: int| 0 <= i < before.entries.len() implies is_line_start(
            bytes,
            n as int,
            #[trigger] before.entries[i],
        ) by {
            assert(is_line_start(bytes, m as int, before.entries[i]));
        }
        if ends_line(bytes, n - 1) && !(before.total_lines < before.next_line && n
            < before.next_byte) {
            assert forall|i: int, j: int| 0 <= i < j < scan.entries.len() implies scan.entries[i].line0
                < scan.entries[j].line0 by {
                assert(scan.entries[i] == before.entries[i]);
                if j < before.entries.len() {
                    assert(scan.entries[j] == before.entries[j]);
                } else if i < before.entries.len() - 1 {
                    assert(before.entries[i].line0 < before.entries.last().line0);
                }
            }
            assert(scan.entries[0] == before.entries[0]);
            assert forall|i: int| 0 <= i < scan.entries.len() implies is_line_start(
                bytes,
                n as int,
                #[trigger] scan.entries[i],
            ) by {
                if i < before.entries.len() {
                    assert(scan.entries[i] == before.entries[i]);
                }
            }
        }
    } else {
        assert(crate::scan::line_ends(bytes, 0) == 0);
    }
}

/// Encodes an index header.
pub fn encode_index_header(header: FileHeader) -> (buf: Vec<u8>)
    ensures
        buf@ == index_header_bytes(header),
{
    let mut buf: Vec<u8> = vec![0x51u8, 0x45u8, 0x4du8, 0x49u8, 0x44u8, 0x58u8, 0x31u8, 0u8];
    assert(buf@ =~= index_magic());
    push_le(&mut buf, INDEX_VERSION as u64, 4);
    push_le(&mut buf, INDEX_PAGE_SIZE as u64, 4);
    let ghost head = buf@;
    let fields: [u64; 6] = [
        header.root_page,
        header.page_count,
        header.total_lines,
        header.total_bytes,
        header.source_len,
        header.source_mtime_ns,
    ];
    let ghost all = index_header_fields(header);
    let ghost encode = |v: u64| le_digits(v as nat, 8);
    assert(fields@ =~= all);
    assert(buf@ =~= head + encode_all(all.take(0), encode));
    let mut i: usize = 0;
    while i < 6
        invariant
            i <= 6,
            fields@ == all,
            all.len() == 6,
            encode == (|v: u64| le_digits(v as nat, 8)),
            buf@ == head + encode_all(all.take(i as int), encode),
        decreases 6 - i,
    {
        push_le(&mut buf, fields[i], 8);
        assert(all.take(i + 1).drop_last() =~= all.take(i as int));
        i = i + 1;
        assert(buf@ =~= head + encode_all(all.take(i as int), encode));
    }
    assert(all.take(6) =~= all);
    buf
}

fn starts_with_index_magic(file: &[u8]) -> (found: bool)
    requires
        file@.len() >= 8,
    ensures
        found == (file@.subrange(0, 8) == index_magic()),
{
    let found = file[0] == 0x51u8 && file[1] == 0x45u8 && file[2] == 0x4du8 && file[3] == 0x49u8
        && file[4] == 0x44u8 && file[5] == 0x58u8 && file[6] == 0x31u8 && file[7] == 0u8;
    proof {
        let head = file@.subrange(0, 8);
        let magic = index_magic();
        if found {
            assert(head =~= magic);
        } else if head == magic {
            assert(head[0] == magic[0] && head[1] == magic[1] && head[2] == magic[2] && head[3]
                == magic[3] && head[4] == magic[4] && head[5] == magic[5] && head[6] == magic[6]
                && head[7] == magic[7]);
        }
    }
    found
}

/// Decodes the header of an index file.
pub fn parse_index_header(file: &[u8]) -> (result: Result<FileHeader, IndexError>)
    ensures
        result == parsed_index_header(file@),
{
    if file.len() < INDEX_HEADER_BYTES {
        return Err(IndexError::UnexpectedEof);
    }
    if !starts_with_index_magic(file) {
        return Err(IndexError::InvalidMagic);
    }
    let version: u64 = read_le(file, 8, 4);
    let page_size: u64 = read_le(file, 12, 4);
    if version != INDEX_VERSION as u64 || page_size != INDEX_PAGE_SIZE as u64 {
        return Err(IndexError::UnsupportedVersion);
    }
    Ok(
        FileHeader {
            root_page: read_u64(file, 16),
            page_count: read_u64(file, 24),
            total_lines: read_u64(file, 32),
            total_bytes: read_u64(file, 40),
            source_len: read_u64(file, 48),
            source_mtime_ns: read_u64(file, 56),
        },
    )
}

/// Decodes a page.
pub fn parse_page(buf: &[u8]) -> (result: Result<Page, IndexError>)
    requires
        buf@.len() >= INDEX_PAGE_HEADER_BYTES,
    ensures
        match parsed_index_page(buf@) {
            Ok(page) => result is Ok && result->Ok_0.kind == page.kind && result->Ok_0.entries@
                == page.entries,
            Err(err) => result is Err && result->Err_0 == err,
        },
{
    let kind = match buf[0] {
        1 => PageKind::Internal,
        2 => PageKind::Leaf,
        _ => return Err(IndexError::InvalidPageKind),
    };
    let count: usize = read_u64(buf, 8) as usize;
    if count > (buf.len() - INDEX_PAGE_HEADER_BYTES) / INDEX_ENTRY_BYTES {
        return Err(IndexError::TruncatedPage);
    }
    let mut entries: Vec<PageEntry> = Vec::new();
    let mut i: usize = 0;
    while i < count
        invariant
            i <= count,
            INDEX_PAGE_HEADER_BYTES + INDEX_ENTRY_BYTES * count <= buf@.len() <= usize::MAX,
            entries@ == Seq::new(
                i as nat,
                |k: int| entry_at(buf@, INDEX_PAGE_HEADER_BYTES + INDEX_ENTRY_BYTES * k),
            ),
        decreases count - i,
    {
        let at: usize = INDEX_PAGE_HEADER_BYTES + INDEX_ENTRY_BYTES * i;
        entries.push(
            PageEntry {
                line0: read_u64(buf, at),
                byte0: read_u64(buf, at + 8),
                child_page: read_u64(buf, at + 16),
            },
        );
        i = i + 1;
        assert(entries@ =~= Seq::new(
            i as nat,
            |k: int| entry_at(buf@, INDEX_PAGE_HEADER_BYTES + INDEX_ENTRY_BYTES * k),
        ));
    }
    Ok(Page { kind, entries })
}

/// The last entry that is not behind a line, or the first one where all are.
pub fn lookup_entry(entries: &[PageEntry], target_line0: u64) -> (found: Option<PageEntry>)
    ensures
        entries@.len() == 0 ==> found is None,
        entries@.len() > 0 ==> found == Some(entry_for(entries@, target_line0)),
{
    if entries.len() == 0 {
        return None;
    }
    let mut n: usize = 0;
    assert(entries@.skip(0) =~= entries@);
    while n < entries.len() && entries[n].line0 <= target_line0
        invariant
            n <= entries@.len(),
            entries_up_to(entries@, target_line0) == n + entries_up_to(
                entries@.skip(n as int),
                target_line0,
            ),
        decreases entries@.len() - n,
    {
        assert(entries@.skip(n as int).skip(1) =~= entries@.skip(n + 1));
        n = n + 1;
    }
    Some(entries[n.saturating_sub(1)])
}

/// Appends a page, and returns its number.
fn write_page(file: &mut Vec<u8>, kind: PageKind, entries: &[PageEntry], page_count: &mut u64) -> (page_id:
    u64)
    requires
        entries@.len() <= INDEX_PAGE_CAPACITY,
        old(file)@.len() == INDEX_HEADER_BYTES + *old(page_count) * INDEX_PAGE_SIZE,
    ensures
        page_id == *old(page_count) + 1,
        *final(page_count) == page_id,
        final(file)@.len() == INDEX_HEADER_BYTES + *final(page_count) * INDEX_PAGE_SIZE,
        same_pages(old(file)@, final(file)@),
        index_page(final(file)@, page_id) == Ok::<IndexPageView, IndexError>(
            IndexPageView { kind, entries: entries@ },
        ),
{
    let held: usize = file.len();
    let page_id: u64 = page_count.saturating_add(1);
    let code: u8 = match kind {
        PageKind::Internal => 1,
        PageKind::Leaf => 2,
    };
    let ghost before = file@;
    let mut page: Vec<u8> = Vec::new();
    page.push(code);
    push_zeros(&mut page, 7);
    assert(page@ =~= seq![kind_code(kind)] + zeros(7));
    push_le(&mut page, entries.len() as u64, 8);
    let ghost head = page@;
    let ghost encode = |e: PageEntry| entry_bytes(e);
    let mut i: usize = 0;
    assert(page@ =~= head + encode_all(entries@.take(0), encode));
    while i < entries.len()
        invariant
            i <= entries@.len(),
            encode == (|e: PageEntry| entry_bytes(e)),
            page@ == head + encode_all(entries@.take(i as int), encode),
        decreases entries@.len() - i,
    {
        let ghost now = page@;
        push_le(&mut page, entries[i].line0, 8);
        push_le(&mut page, entries[i].byte0, 8);
        push_le(&mut page, entries[i].child_page, 8);
        assert(page@ =~= now + entry_bytes(entries@[i as int]));
        assert(entries@.take(i + 1).drop_last() =~= entries@.take(i as int));
        i = i + 1;
        assert(page@ =~= head + encode_all(entries@.take(i as int), encode));
    }
    assert(entries@.take(i as int) =~= entries@);
    proof {
        assert forall|e: PageEntry| #[trigger] encode(e).len() == 24 by {
            lemma_le_digits_len(e.line0 as nat, 8);
            lemma_le_digits_len(e.byte0 as nat, 8);
            lemma_le_digits_len(e.child_page as nat, 8);
        }
        lemma_encode_all_len(entries@, encode, 24);
        lemma_le_digits_len(entries@.len(), 8);
        lemma_index_page_round_trip(kind, entries@);
    }
    let missing: usize = INDEX_PAGE_SIZE - page.len();
    push_zeros(&mut page, missing);
    assert(page@ =~= index_page_bytes(kind, entries@));
    push_bytes(file, page.as_slice());
    *page_count = page_id;
    proof {
        lemma_same_pages(before, file@);
        let at = index_page_offset(page_id);
        assert(file@.subrange(at, at + INDEX_PAGE_SIZE) =~= page@);
    }
    page_id
}

proof fn lemma_same_pages(file: Seq<u8>, longer: Seq<u8>)
    requires
        INDEX_HEADER_BYTES <= file.len() <= longer.len(),
        file.skip(INDEX_HEADER_BYTES as int) =~= longer.subrange(
            INDEX_HEADER_BYTES as int,
            file.len() as int,
        ),
    ensures
        same_pages(file, longer),
{
    assert forall|id: u64|
        index_page_offset(id) + INDEX_PAGE_SIZE <= file.len() implies #[trigger] index_page(
        longer,
        id,
    ) == index_page(file, id) by {
        let at = index_page_offset(id);
        assert(file.subrange(at, at + INDEX_PAGE_SIZE) =~= longer.subrange(
            at,
            at + INDEX_PAGE_SIZE,
        )) by {
            assert forall|k: int| at <= k < at + INDEX_PAGE_SIZE implies file[k] == longer[k] by {
                assert(file.skip(INDEX_HEADER_BYTES as int)[k - INDEX_HEADER_BYTES] == file[k]);
                assert(longer.subrange(INDEX_HEADER_BYTES as int, file.len() as int)[k
                    - INDEX_HEADER_BYTES] == longer[k]);
            }
        }
    }
}

/// A page over sound page trees is the root of a sound page tree.
proof fn lemma_new_root(
    file: Seq<u8>,
    page_id: u64,
    children: Seq<PageEntry>,
    height: nat,
    entry: PageEntry,
)
    requires
        index_page(file, page_id) == Ok::<IndexPageView, IndexError>(
            IndexPageView { kind: PageKind::Internal, entries: children },
        ),
        children.len() > 0,
        forall|i: int| 0 <= i < children.len() ==> covers(file, #[trigger] children[i], height),
        entry.line0 == children[0].line0,
        entry.byte0 == children[0].byte0,
        entry.child_page == page_id,
    ensures
        covers(file, entry, height + 1),
        entries_below(file, page_id, height + 1) == entries_under(file, children, height),
{
    assert(covers(file, children[0], height));
    lemma_entries_under_split(file, children, height, 0);
    assert(children.take(0) =~= Seq::empty());
    assert(entries_under(file, children.take(0), height) =~= Seq::empty());
    let first = entries_below(file, children[0].child_page, height);
    assert(entries_under(file, children, height)[0] == first[0]);
}

/// How many pages `n` entries take.
pub open spec fn chunk_count(n: nat) -> nat {
    ((n + INDEX_PAGE_CAPACITY - 1) / (INDEX_PAGE_CAPACITY as int)) as nat
}

/// The entries of the page after `k` full ones.
pub open spec fn page_chunk(entries: Seq<PageEntry>, k: int) -> Seq<PageEntry> {
    entries.subrange(
        k * INDEX_PAGE_CAPACITY,
        min_int((k + 1) * INDEX_PAGE_CAPACITY, entries.len() as int),
    )
}

/// The number of the page after `k` pages from `first` on.
pub open spec fn page_at(first: int, k: int) -> u64 {
    (first + k) as u64
}

/// The pages from `first` on hold `entries`; each of them is full but for the last.
#[verifier::opaque]
pub open spec fn fills_pages(
    file: Seq<u8>,
    kind: PageKind,
    entries: Seq<PageEntry>,
    first: int,
) -> bool {
    forall|k: int|
        0 <= k < chunk_count(entries.len()) ==> index_page(file, #[trigger] page_at(first, k))
            == Ok::<IndexPageView, IndexError>(
            IndexPageView { kind, entries: page_chunk(entries, k) },
        )
}

/// The entries that lead to the pages from `first` on, which hold `entries`.
pub open spec fn summaries_of(entries: Seq<PageEntry>, first: int) -> Seq<PageEntry> {
    Seq::new(
        chunk_count(entries.len()),
        |k: int|
            PageEntry {
                line0: entries[k * INDEX_PAGE_CAPACITY].line0,
                byte0: entries[k * INDEX_PAGE_CAPACITY].byte0,
                child_page: page_at(first, k),
            },
    )
}

/// The pages from `first` on are the internal pages over `entries`, one level after another.
pub open spec fn fills_levels(file: Seq<u8>, entries: Seq<PageEntry>, first: int) -> bool
    decreases entries.len(),
{
    if entries.len() <= 1 {
        true
    } else {
        &&& fills_pages(file, PageKind::Internal, entries, first)
        &&& fills_levels(
            file,
            summaries_of(entries, first),
            first + chunk_count(entries.len()),
        )
    }
}

/// How many internal pages there are over `n` entries.
pub open spec fn pages_above(n: nat) -> nat
    decreases n,
{
    if n <= 1 {
        0
    } else {
        chunk_count(n) + pages_above(chunk_count(n))
    }
}

/// One more page for entries of which all pages were full.
proof fn lemma_fill_one(
    file: Seq<u8>,
    longer: Seq<u8>,
    kind: PageKind,
    entries: Seq<PageEntry>,
    more: Seq<PageEntry>,
    first: int,
    page_id: u64,
)
    requires
        entries.len() % INDEX_PAGE_CAPACITY as nat == 0,
        0 < more.len() <= INDEX_PAGE_CAPACITY,
        0 <= first,
        page_id == first + chunk_count(entries.len()),
        fills_pages(file, kind, entries, first),
        same_pages(file, longer),
        index_page(longer, page_id) == Ok::<IndexPageView, IndexError>(
            IndexPageView { kind, entries: more },
        ),
    ensures
        chunk_count((entries + more).len()) == chunk_count(entries.len()) + 1,
        fills_pages(longer, kind, entries + more, first),
        summaries_of(entries + more, first) == summaries_of(entries, first).push(
            PageEntry { line0: more[0].line0, byte0: more[0].byte0, child_page: page_id },
        ),
{
    reveal(fills_pages);
    let all = entries + more;
    let n = chunk_count(entries.len()) as int;
    assert(entries.len() == n * INDEX_PAGE_CAPACITY);
    assert(chunk_count(all.len()) == n + 1);
    assert forall|k: int| 0 <= k < n + 1 implies index_page(longer, #[trigger] page_at(first, k))
        == Ok::<IndexPageView, IndexError>(
        IndexPageView { kind, entries: page_chunk(all, k) },
    ) by {
        if k < n {
            assert(index_page(file, page_at(first, k)) is Ok);
            assert((k + 1) * INDEX_PAGE_CAPACITY <= n * INDEX_PAGE_CAPACITY);
            assert(page_chunk(all, k) =~= page_chunk(entries, k));
        } else {
            assert(page_chunk(all, k) =~= more);
        }
    }
    assert forall|k: int| 0 <= k < n implies #[trigger] summaries_of(all, first)[k]
        == summaries_of(entries, first)[k] by {
        assert(k * INDEX_PAGE_CAPACITY < n * INDEX_PAGE_CAPACITY);
        assert(all[k * INDEX_PAGE_CAPACITY] == entries[k * INDEX_PAGE_CAPACITY]);
    }
    assert(all[n * INDEX_PAGE_CAPACITY] == more[0]);
    assert(summaries_of(all, first) =~= summaries_of(entries, first).push(
        PageEntry { line0: more[0].line0, byte0: more[0].byte0, child_page: page_id },
    ));
}

/// Filled pages stay as they are.
proof fn lemma_fills_stay(
    file: Seq<u8>,
    longer: Seq<u8>,
    kind: PageKind,
    entries: Seq<PageEntry>,
    first: int,
)
    requires
        fills_pages(file, kind, entries, first),
        same_pages(file, longer),
    ensures
        fills_pages(longer, kind, entries, first),
{
    reveal(fills_pages);
    assert forall|k: int| 0 <= k < chunk_count(entries.len()) implies index_page(
        longer,
        #[trigger] page_at(first, k),
    ) == Ok::<IndexPageView, IndexError>(
        IndexPageView { kind, entries: page_chunk(entries, k) },
    ) by {
        assert(index_page(file, page_at(first, k)) is Ok);
    }
}

proof fn lemma_levels_stay(file: Seq<u8>, longer: Seq<u8>, entries: Seq<PageEntry>, first: int)
    requires
        fills_levels(file, entries, first),
        same_pages(file, longer),
    ensures
        fills_levels(longer, entries, first),
    decreases entries.len(),
{
    if entries.len() > 1 {
        lemma_fills_stay(file, longer, PageKind::Internal, entries, first);
        lemma_levels_stay(
            file,
            longer,
            summaries_of(entries, first),
            first + chunk_count(entries.len()),
        );
    }
}

proof fn lemma_same_pages_on(file: Seq<u8>, longer: Seq<u8>, longest: Seq<u8>)
    requires
        file.len() <= longer.len(),
        same_pages(file, longer),
        same_pages(longer, longest),
    ensures
        same_pages(file, longest),
{
    assert forall|id: u64|
        index_page_offset(id) + INDEX_PAGE_SIZE <= file.len() implies #[trigger] index_page(
        longest,
        id,
    ) == index_page(file, id) by {
        assert(index_page(longer, id) == index_page(file, id));
    }
}

/// The first `at` entries of a level have got their pages from `first` on, which `next` lists.
/// What was in the file is as it was.
#[verifier::opaque]
spec fn covered_so_far(
    start: Seq<u8>,
    file: Seq<u8>,
    level: Seq<PageEntry>,
    at: int,
    height: nat,
    first: int,
    next: Seq<PageEntry>,
) -> bool {
    &&& start.len() <= file.len()
    &&& same_pages(start, file)
    &&& forall|i: int| 0 <= i < level.len() ==> covers(file, #[trigger] level[i], height)
    &&& forall|i: int| 0 <= i < next.len() ==> covers(file, #[trigger] next[i], height + 1)
    &&& entries_under(file, level, height) == entries_under(start, level, height)
    &&& entries_under(file, next, height + 1) == entries_under(file, level.take(at), height)
    &&& next == summaries_of(level.take(at), first)
    &&& fills_pages(file, PageKind::Internal, level.take(at), first)
}

proof fn lemma_none_covered(file: Seq<u8>, level: Seq<PageEntry>, height: nat, first: int)
    requires
        forall|i: int| 0 <= i < level.len() ==> covers(file, #[trigger] level[i], height),
    ensures
        covered_so_far(file, file, level, 0, height, first, Seq::empty()),
{
    reveal(covered_so_far);
    reveal(fills_pages);
    assert(level.take(0) =~= Seq::empty());
    assert(entries_under(file, level.take(0), height) =~= Seq::empty());
    assert(entries_under(file, Seq::empty(), height + 1) =~= Seq::empty());
    assert(summaries_of(level.take(0), first) =~= Seq::empty());
}

/// One more page for the entries of a level.
proof fn lemma_cover_one(
    start: Seq<u8>,
    before: Seq<u8>,
    file: Seq<u8>,
    level: Seq<PageEntry>,
    at: int,
    end: int,
    height: nat,
    first: int,
    next: Seq<PageEntry>,
    page_id: u64,
)
    requires
        covered_so_far(start, before, level, at, height, first, next),
        0 <= at < end <= level.len(),
        end <= at + INDEX_PAGE_CAPACITY,
        at as nat % INDEX_PAGE_CAPACITY as nat == 0,
        0 <= first,
        page_id == first + chunk_count(at as nat),
        before.len() <= file.len(),
        same_pages(before, file),
        index_page(file, page_id) == Ok::<IndexPageView, IndexError>(
            IndexPageView { kind: PageKind::Internal, entries: level.subrange(at, end) },
        ),
    ensures
        chunk_count(end as nat) == chunk_count(at as nat) + 1,
        covered_so_far(
            start,
            file,
            level,
            end,
            height,
            first,
            next.push(
                PageEntry { line0: level[at].line0, byte0: level[at].byte0, child_page: page_id },
            ),
        ),
{
    reveal(covered_so_far);
    let chunk = level.subrange(at, end);
    let done = level.take(at);
    let entry = PageEntry { line0: level[at].line0, byte0: level[at].byte0, child_page: page_id };
    assert(level.take(end) =~= done + chunk);
    lemma_fill_one(before, file, PageKind::Internal, done, chunk, first, page_id);
    lemma_same_pages_on(start, before, file);
    lemma_list_stays(before, file, level, height);
    lemma_list_stays(before, file, next, height + 1);
    assert forall|i: int| 0 <= i < chunk.len() implies covers(
        file,
        #[trigger] chunk[i],
        height,
    ) by {
        assert(chunk[i] == level[at + i]);
    }
    assert forall|i: int| 0 <= i < done.len() implies covers(
        before,
        #[trigger] done[i],
        height,
    ) by {
        assert(done[i] == level[i]);
    }
    lemma_list_stays(before, file, done, height);
    lemma_new_root(file, page_id, chunk, height, entry);
    lemma_entries_under_concat(file, next, seq![entry], height + 1);
    lemma_entries_under_one(file, entry, height + 1);
    lemma_entries_under_concat(file, done, chunk, height);
    assert(next.push(entry) =~= next + seq![entry]);
    assert forall|i: int| 0 <= i < next.push(entry).len() implies covers(
        file,
        #[trigger] next.push(entry)[i],
        height + 1,
    ) by {
        if i < next.len() {
            assert(next.push(entry)[i] == next[i]);
        }
    }
}

/// Appends the internal pages over one level, and lists them.
fn build_level(
    file: &mut Vec<u8>,
    page_count: &mut u64,
    level: &Vec<PageEntry>,
    Ghost(height): Ghost<nat>,
) -> (next: Vec<PageEntry>)
    requires
        level@.len() > 1,
        old(file)@.len() == INDEX_HEADER_BYTES + *old(page_count) * INDEX_PAGE_SIZE,
        forall|i: int|
            0 <= i < level@.len() ==> covers(old(file)@, #[trigger] level@[i], height),
    ensures
        final(file)@.len() == INDEX_HEADER_BYTES + *final(page_count) * INDEX_PAGE_SIZE,
        *final(page_count) == *old(page_count) + chunk_count(level@.len()),
        covered_so_far(
            old(file)@,
            final(file)@,
            level@,
            level@.len() as int,
            height,
            *old(page_count) + 1,
            next@,
        ),
{
    let mut next: Vec<PageEntry> = Vec::new();
    let mut at: usize = 0;
    let ghost first = *page_count + 1;
    proof {
        lemma_none_covered(file@, level@, height, first);
        assert(next@ =~= Seq::empty());
    }
    while at < level.len()
        invariant
            at <= level@.len(),
            at % INDEX_PAGE_CAPACITY == 0 || at == level@.len(),
            first == *old(page_count) + 1,
            *page_count == *old(page_count) + chunk_count(at as nat),
            file@.len() == INDEX_HEADER_BYTES + *page_count * INDEX_PAGE_SIZE,
            covered_so_far(old(file)@, file@, level@, at as int, height, first, next@),
        decreases level@.len() - at,
    {
        let end: usize = if level.len() - at > INDEX_PAGE_CAPACITY {
            at + INDEX_PAGE_CAPACITY
        } else {
            level.len()
        };
        let chunk = vstd::slice::slice_subrange(level.as_slice(), at, end);
        let head = level[at];
        let ghost before = file@;
        let page_id: u64 = write_page(file, PageKind::Internal, chunk, page_count);
        proof {
            lemma_cover_one(
                old(file)@,
                before,
                file@,
                level@,
                at as int,
                end as int,
                height,
                first,
                next@,
                page_id,
            );
        }
        next.push(PageEntry { line0: head.line0, byte0: head.byte0, child_page: page_id });
        at = end;
    }
    next
}

/// Appends internal pages over `summaries` until one page covers all of them.
fn build_internal_levels(
    file: &mut Vec<u8>,
    page_count: &mut u64,
    summaries: Vec<PageEntry>,
) -> (result: (u64, Ghost<nat>))
    requires
        summaries@.len() > 0,
        old(file)@.len() == INDEX_HEADER_BYTES + *old(page_count) * INDEX_PAGE_SIZE,
        forall|i: int|
            0 <= i < summaries@.len() ==> covers(old(file)@, #[trigger] summaries@[i], 0),
    ensures
        final(file)@.len() == INDEX_HEADER_BYTES + *final(page_count) * INDEX_PAGE_SIZE,
        *final(page_count) >= *old(page_count) + result.1@,
        *final(page_count) == *old(page_count) + pages_above(summaries@.len()),
        same_pages(old(file)@, final(file)@),
        fills_levels(final(file)@, summaries@, *old(page_count) + 1),
        index_tree_ok(final(file)@, result.0, result.1@),
        entries_below(final(file)@, result.0, result.1@) == entries_under(
            old(file)@,
            summaries@,
            0,
        ),
{
    let mut level: Vec<PageEntry> = summaries;
    let ghost goal = entries_under(file@, summaries@, 0);
    let ghost mut height: nat = 0;
    while level.len() > 1
        invariant
            level@.len() > 0,
            file@.len() == INDEX_HEADER_BYTES + *page_count * INDEX_PAGE_SIZE,
            file@.len() >= old(file)@.len(),
            same_pages(old(file)@, file@),
            *page_count >= *old(page_count) + height,
            *page_count + pages_above(level@.len()) == *old(page_count) + pages_above(
                summaries@.len(),
            ),
            forall|longer: Seq<u8>| #[trigger]
                same_pages(file@, longer) && fills_levels(longer, level@, *page_count + 1)
                    ==> fills_levels(longer, summaries@, *old(page_count) + 1),
            forall|i: int|
                0 <= i < level@.len() ==> covers(file@, #[trigger] level@[i], height),
            entries_under(file@, level@, height) == goal,
        decreases level@.len(),
    {
        let ghost start = file@;
        let ghost first = *page_count + 1;
        let next = build_level(file, page_count, &level, Ghost(height));
        proof {
            reveal(covered_so_far);
            assert(level@.take(level@.len() as int) =~= level@);
            lemma_same_pages_on(old(file)@, start, file@);
            assert forall|longer: Seq<u8>| #[trigger]
                same_pages(file@, longer) && fills_levels(longer, next@, *page_count + 1)
                    implies fills_levels(longer, summaries@, *old(page_count) + 1) by {
                lemma_same_pages_on(start, file@, longer);
                lemma_fills_stay(file@, longer, PageKind::Internal, level@, first);
                assert(fills_levels(longer, level@, first));
            }
            height = height + 1;
        }
        level = next;
    }
    let root = level[0];
    proof {
        assert(same_pages(file@, file@));
        assert(level@ =~= seq![root]);
        assert(covers(file@, level@[0], height));
        lemma_entries_under_one(file@, root, height);
    }
    (root.child_page, Ghost(height))
}

/// The fingerprint that an index file names.
pub open spec fn stored_fingerprint(file: Seq<u8>) -> Option<u64> {
    if file.len() < INDEX_HEADER_BYTES + INDEX_TRAILER_BYTES {
        None
    } else {
        Some(u64_at(file, file.len() - INDEX_TRAILER_BYTES))
    }
}

/// An index file that was built for this state of the source: the length, the modification
/// time and the fingerprint are the same.
pub open spec fn fits_source(file: Seq<u8>, metadata: IndexMetadata) -> bool {
    let header = parsed_index_header(file)->Ok_0;
    &&& parsed_index_header(file) is Ok
    &&& header.source_len == metadata.source_len
    &&& header.source_mtime_ns == metadata.source_mtime_ns
    &&& stored_fingerprint(file) == Some(metadata.source_fingerprint)
}

/// An index file is used only for the very state of the source that it was built for: the same
/// length, the same time of its last change and the same content.
pub proof fn law_index_belongs_to_source(
    file: Seq<u8>,
    bytes: Seq<u8>,
    built_for: IndexMetadata,
    now: IndexMetadata,
)
    requires
        is_index_of(file, bytes, built_for),
    ensures
        fits_source(file, now) <==> now.source_len == built_for.source_len && now.source_mtime_ns
            == built_for.source_mtime_ns && now.source_fingerprint == built_for.source_fingerprint,
{
}

/// The leaf pages come first, then the internal pages level by level; of each level all pages
/// are full but the last.
pub open spec fn is_packed(file: Seq<u8>, entries: Seq<PageEntry>, page_count: u64) -> bool {
    let leaves = chunk_count(entries.len());
    &&& page_count == leaves + pages_above(leaves)
    &&& fills_pages(file, PageKind::Leaf, entries, 1)
    &&& fills_levels(file, summaries_of(entries, 1), leaves + 1int)
}

/// The file of an index over `bytes`, with the header that belongs to it.
pub open spec fn is_index_of(file: Seq<u8>, bytes: Seq<u8>, metadata: IndexMetadata) -> bool {
    let header = parsed_index_header(file)->Ok_0;
    &&& fits_source(file, metadata)
    &&& header.total_bytes == bytes.len()
    &&& header.total_lines == scan_lines(bytes, bytes.len()).total_lines
    &&& header.page_count >= 1
    &&& is_packed(file, checkpoints(bytes), header.page_count)
    &&& file.len() == INDEX_HEADER_BYTES + header.page_count * INDEX_PAGE_SIZE
        + INDEX_TRAILER_BYTES
    &&& exists|height: nat|
        {
            &&& #[trigger] index_tree_ok(file, header.root_page, height)
            &&& entries_below(file, header.root_page, height) == checkpoints(bytes)
            &&& height < header.page_count
        }
}

proof fn lemma_scan_skips(bytes: Seq<u8>, a: nat, b: nat)
    requires
        a <= b <= bytes.len(),
        forall|i: int| a <= i < b ==> !is_either(#[trigger] bytes[i], LF, CR),
    ensures
        scan_lines(bytes, b) == scan_lines(bytes, a),
    decreases b,
{
    if a < b {
        assert(!is_either(bytes[b - 1], LF, CR));
        lemma_scan_skips(bytes, a, (b - 1) as nat);
    }
}

/// An index file under construction: full leaf pages, and the entries of the next one.
struct IndexBuilder {
    file: Vec<u8>,
    page_count: u64,
    summaries: Vec<PageEntry>,
    leaf_entries: Vec<PageEntry>,
    total_lines: u64,
    next_line: u64,
    next_byte: u64,
}

impl IndexBuilder {
    spec fn wf(self) -> bool {
        &&& self.file@.len() == INDEX_HEADER_BYTES + self.page_count * INDEX_PAGE_SIZE
        &&& self.leaf_entries@.len() < INDEX_PAGE_CAPACITY
        &&& self.placed().len() % INDEX_PAGE_CAPACITY as nat == 0
        &&& self.filled()
        &&& forall|i: int|
            0 <= i < self.summaries@.len() ==> covers(self.file@, #[trigger] self.summaries@[i], 0)
    }

    /// The checkpoints in the pages.
    spec fn placed(self) -> Seq<PageEntry> {
        entries_under(self.file@, self.summaries@, 0)
    }

    /// The pages hold their checkpoints without a gap.
    spec fn filled(self) -> bool {
        &&& self.page_count == chunk_count(self.placed().len())
        &&& self.summaries@ == summaries_of(self.placed(), 1)
        &&& fills_pages(self.file@, PageKind::Leaf, self.placed(), 1)
    }

    /// The checkpoints in the pages and those that wait for a page.
    spec fn entries(self) -> Seq<PageEntry> {
        entries_under(self.file@, self.summaries@, 0) + self.leaf_entries@
    }

    spec fn scan(self) -> IndexScan {
        IndexScan {
            total_lines: self.total_lines,
            next_line: self.next_line,
            next_byte: self.next_byte,
            entries: self.entries(),
        }
    }

    fn new() -> (builder: IndexBuilder)
        ensures
            builder.wf(),
            builder.scan() == scan_lines(Seq::empty(), 0),
    {
        let mut file: Vec<u8> = Vec::new();
        push_zeros(&mut file, INDEX_HEADER_BYTES);
        let mut leaf_entries: Vec<PageEntry> = Vec::new();
        leaf_entries.push(PageEntry { line0: 0, byte0: 0, child_page: 0 });
        let builder = IndexBuilder {
            file,
            page_count: 0,
            summaries: Vec::new(),
            leaf_entries,
            total_lines: 1,
            next_line: INDEX_CHECKPOINT_STRIDE_LINES,
            next_byte: INDEX_CHECKPOINT_STRIDE_BYTES,
        };
        proof {
            reveal(fills_pages);
            assert(builder.placed() =~= Seq::empty());
            assert(summaries_of(builder.placed(), 1) =~= Seq::empty());
            assert(builder.entries() =~= seq![PageEntry { line0: 0, byte0: 0, child_page: 0 }]);
        }
        builder
    }

    /// Counts a line that starts at byte `line_start`, and makes it a checkpoint where one
    /// is due.
    fn note_line(&mut self, line_start: u64)
        requires
            old(self).wf(),
        ensures
            final(self).wf(),
            final(self).scan() == next_line_scan(old(self).scan(), line_start as int),
    {
        let line0: u64 = self.total_lines;
        self.total_lines = self.total_lines.saturating_add(1);
        if line0 < self.next_line && line_start < self.next_byte {
            return;
        }
        let entry = PageEntry { line0, byte0: line_start, child_page: 0 };
        let ghost before = self.entries();
        self.leaf_entries.push(entry);
        self.next_line = line0.saturating_add(INDEX_CHECKPOINT_STRIDE_LINES);
        self.next_byte = line_start.saturating_add(INDEX_CHECKPOINT_STRIDE_BYTES);
        assert(self.entries() =~= before.push(entry));
        if self.leaf_entries.len() >= INDEX_PAGE_CAPACITY {
            self.flush_leaf();
        }
    }

    /// Moves the entries that wait into a leaf page.
    fn flush_leaf(&mut self)
        requires
            old(self).file@.len() == INDEX_HEADER_BYTES + old(self).page_count * INDEX_PAGE_SIZE,
            0 < old(self).leaf_entries@.len() <= INDEX_PAGE_CAPACITY,
            old(self).placed().len() % INDEX_PAGE_CAPACITY as nat == 0,
            old(self).filled(),
            forall|i: int|
                0 <= i < old(self).summaries@.len() ==> covers(
                    old(self).file@,
                    #[trigger] old(self).summaries@[i],
                    0,
                ),
        ensures
            final(self).file@.len() == INDEX_HEADER_BYTES + final(self).page_count
                * INDEX_PAGE_SIZE,
            forall|i: int|
                0 <= i < final(self).summaries@.len() ==> covers(
                    final(self).file@,
                    #[trigger] final(self).summaries@[i],
                    0,
                ),
            final(self).filled(),
            final(self).placed() == old(self).entries(),
            final(self).leaf_entries@.len() == 0,
            final(self).summaries@.len() > 0,
            final(self).scan() == old(self).scan(),
    {
        let ghost before = self.file@;
        let ghost listed = self.summaries@;
        let ghost waiting = self.leaf_entries@;
        let first = self.leaf_entries[0];
        let page_id: u64 = write_page(
            &mut self.file,
            PageKind::Leaf,
            self.leaf_entries.as_slice(),
            &mut self.page_count,
        );
        let entry = PageEntry { line0: first.line0, byte0: first.byte0, child_page: page_id };
        self.summaries.push(entry);
        self.leaf_entries.clear();
        proof {
            lemma_list_stays(before, self.file@, listed, 0);
            assert(entries_below(self.file@, page_id, 0) == waiting);
            assert(covers(self.file@, entry, 0));
            assert(self.summaries@ =~= listed + seq![entry]);
            lemma_entries_under_concat(self.file@, listed, seq![entry], 0);
            lemma_entries_under_one(self.file@, entry, 0);
            lemma_fill_one(
                before,
                self.file@,
                PageKind::Leaf,
                entries_under(before, listed, 0),
                waiting,
                1,
                page_id,
            );
            assert(self.leaf_entries@ =~= Seq::empty());
            let under = entries_under(self.file@, self.summaries@, 0);
            assert(under + self.leaf_entries@ =~= under);
            assert forall|i: int| 0 <= i < self.summaries@.len() implies covers(
                self.file@,
                #[trigger] self.summaries@[i],
                0,
            ) by {
                if i < listed.len() {
                    assert(self.summaries@[i] == listed[i]);
                }
            }
        }
    }

    /// Counts all lines of `bytes`.
    fn note_lines(&mut self, bytes: &[u8])
        requires
            old(self).wf(),
            old(self).scan() == scan_lines(bytes@, 0),
        ensures
            final(self).wf(),
            final(self).scan() == scan_lines(bytes@, bytes@.len()),
    {
        let len: usize = bytes.len();
        let mut at: usize = 0;
        while at < len
            invariant
                at <= len == bytes@.len(),
                self.wf(),
                self.scan() == scan_lines(bytes@, at as nat),
            decreases len - at,
        {
            let rest = vstd::slice::slice_subrange(bytes, at, len);
            match memchr::memchr2(LF, CR, rest) {
                None => {
                    proof {
                        assert forall|i: int| at <= i < bytes@.len() implies !is_either(
                            #[trigger] bytes@[i],
                            LF,
                            CR,
                        ) by {
                            assert(rest@[i - at] == bytes@[i]);
                        }
                        lemma_scan_skips(bytes@, at as nat, bytes@.len());
                    }
                    at = len;
                },
                Some(rel) => {
                    let pos: usize = at + rel;
                    proof {
                        assert forall|i: int| at <= i < pos implies !is_either(
                            #[trigger] bytes@[i],
                            LF,
                            CR,
                        ) by {
                            assert(rest@[i - at] == bytes@[i]);
                        }
                        lemma_scan_skips(bytes@, at as nat, pos as nat);
                        assert(rest@[rel as int] == bytes@[pos as int]);
                    }
                    if bytes[pos] == CR && pos + 1 < len && bytes[pos + 1] == LF {
                        assert(!ends_line(bytes@, pos as int));
                    } else {
                        assert(ends_line(bytes@, pos as int));
                        self.note_line((pos + 1) as u64);
                    }
                    at = pos + 1;
                },
            }
        }
    }
}

/// A header in front of the pages and a fingerprint behind them read back.
proof fn lemma_index_frame(
    body: Seq<u8>,
    file: Seq<u8>,
    metadata: IndexMetadata,
    header: FileHeader,
)
    requires
        body.len() >= INDEX_HEADER_BYTES,
        file == index_header_bytes(header) + body.skip(INDEX_HEADER_BYTES as int) + le_digits(
            metadata.source_fingerprint as nat,
            8,
        ),
        header.source_len == metadata.source_len,
        header.source_mtime_ns == metadata.source_mtime_ns,
    ensures
        parsed_index_header(file) == Ok::<FileHeader, IndexError>(header),
        fits_source(file, metadata),
        file.len() == body.len() + INDEX_TRAILER_BYTES,
        same_pages(body, file),
{
    let trailer = le_digits(metadata.source_fingerprint as nat, 8);
    let pages = body.skip(INDEX_HEADER_BYTES as int);
    lemma_le_digits_len(metadata.source_fingerprint as nat, 8);
    lemma_weights();
    lemma_le_round_trip(metadata.source_fingerprint as nat, 8);
    law_index_header_round_trip(header, pages + trailer);
    assert(file =~= index_header_bytes(header) + (pages + trailer));
    assert(file.subrange(file.len() - 8, file.len() as int) =~= trailer);
    assert(pages =~= file.subrange(INDEX_HEADER_BYTES as int, body.len() as int));
    lemma_same_pages(body, file);
}

/// Pages with a sound tree over all checkpoints, between a header and a trailer that belong to
/// them, are an index file.
proof fn lemma_index_file(
    leaves: Seq<u8>,
    body: Seq<u8>,
    file: Seq<u8>,
    bytes: Seq<u8>,
    metadata: IndexMetadata,
    header: FileHeader,
    height: nat,
)
    requires
        body.len() == INDEX_HEADER_BYTES + header.page_count * INDEX_PAGE_SIZE,
        file == index_header_bytes(header) + body.skip(INDEX_HEADER_BYTES as int) + le_digits(
            metadata.source_fingerprint as nat,
            8,
        ),
        header.source_len == metadata.source_len,
        header.source_mtime_ns == metadata.source_mtime_ns,
        header.total_bytes == bytes.len(),
        header.total_lines == scan_lines(bytes, bytes.len()).total_lines,
        checkpoints(bytes).len() > 0,
        header.page_count == chunk_count(checkpoints(bytes).len()) + pages_above(
            chunk_count(checkpoints(bytes).len()),
        ),
        height < header.page_count,
        same_pages(leaves, body),
        fills_pages(leaves, PageKind::Leaf, checkpoints(bytes), 1),
        fills_levels(
            body,
            summaries_of(checkpoints(bytes), 1),
            chunk_count(checkpoints(bytes).len()) + 1int,
        ),
        index_tree_ok(body, header.root_page, height),
        entries_below(body, header.root_page, height) == checkpoints(bytes),
    ensures
        is_index_of(file, bytes, metadata),
{
    lemma_index_frame(body, file, metadata, header);
    lemma_tree_stays(body, file, header.root_page, height);
    lemma_fills_stay(leaves, body, PageKind::Leaf, checkpoints(bytes), 1);
    lemma_fills_stay(body, file, PageKind::Leaf, checkpoints(bytes), 1);
    lemma_levels_stay(
        body,
        file,
        summaries_of(checkpoints(bytes), 1),
        chunk_count(checkpoints(bytes).len()) + 1int,
    );
    assert(index_tree_ok(file, header.root_page, height));
}

/// Builds the index file of `bytes`.
pub fn build_index_file(bytes: &[u8], metadata: IndexMetadata) -> (file: Vec<u8>)
    ensures
        is_index_of(file@, bytes@, metadata),
{
    let mut builder = IndexBuilder::new();
    proof {
        reveal_with_fuel(scan_lines, 1);
        assert(scan_lines(bytes@, 0) == scan_lines(Seq::empty(), 0));
    }
    builder.note_lines(bytes);
    if builder.leaf_entries.len() > 0 {
        builder.flush_leaf();
    }
    let IndexBuilder { mut file, mut page_count, summaries, leaf_entries, total_lines, .. } =
        builder;
    proof {
        let under = entries_under(file@, summaries@, 0);
        assert(leaf_entries@ =~= Seq::empty());
        assert(under + leaf_entries@ =~= under);
        lemma_scan_nonempty(bytes@, bytes@.len());
    }
    let ghost leaves = file@;
    let (root_page, height) = build_internal_levels(&mut file, &mut page_count, summaries);
    let header = FileHeader {
        root_page,
        page_count,
        total_lines,
        total_bytes: bytes.len() as u64,
        source_len: metadata.source_len,
        source_mtime_ns: metadata.source_mtime_ns,
    };
    let mut out = encode_index_header(header);
    let pages = vstd::slice::slice_subrange(file.as_slice(), INDEX_HEADER_BYTES, file.len());
    push_bytes(&mut out, pages);
    push_le(&mut out, metadata.source_fingerprint, 8);
    proof {
        assert(pages@ =~= file@.skip(INDEX_HEADER_BYTES as int));
        lemma_index_file(leaves, file@, out@, bytes@, metadata, header, height@);
    }
    out
}

/// The first line is always a checkpoint.
proof fn lemma_scan_nonempty(bytes: Seq<u8>, n: nat)
    ensures
        scan_lines(bytes, n).entries.len() > 0,
    decreases n,
{
    if n > 0 {
        lemma_scan_nonempty(bytes, (n - 1) as nat);
    }
}

/// The checkpoint for a line in an index file.
pub open spec fn file_checkpoint(file: Seq<u8>, header: FileHeader, line0: u64) -> Result<
    PageEntry,
    IndexError,
> {
    if header.page_count == 0 {
        Ok(no_entry())
    } else {
        descend(file, header.root_page, line0, step_limit(file))
    }
}

/// In an index that was built over a source, a line leads to the last checkpoint in front of
/// it: the start of a line that is not behind it and, by lines, at most a stride away.
pub proof fn law_index_lookup(file: Seq<u8>, bytes: Seq<u8>, metadata: IndexMetadata, line0: u64)
    requires
        is_index_of(file, bytes, metadata),
        bytes.len() < u64::MAX,
    ensures
        ({
            let entry = entry_for(checkpoints(bytes), line0);
            &&& file_checkpoint(file, parsed_index_header(file)->Ok_0, line0) == Ok::<
                PageEntry,
                IndexError,
            >(entry)
            &&& is_line_start(bytes, bytes.len() as int, entry)
            &&& entry.line0 <= line0
            &&& line0 <= crate::scan::line_ends(bytes, bytes.len() as int) ==> line0 - entry.line0
                < INDEX_CHECKPOINT_STRIDE_LINES
        }),
{
    let header = parsed_index_header(file)->Ok_0;
    let height = choose|height: nat|
        {
            &&& #[trigger] index_tree_ok(file, header.root_page, height)
            &&& entries_below(file, header.root_page, height) == checkpoints(bytes)
            &&& height < header.page_count
        };
    lemma_scan_sound(bytes, bytes.len());
    lemma_descend(file, header.root_page, height, line0, step_limit(file));
    let entries = checkpoints(bytes);
    lemma_entries_up_to(entries, line0);
    let n = entries_up_to(entries, line0);
    assert(n > 0) by {
        if n == 0 {
            assert(entries[0].line0 > line0);
        }
    }
    assert(is_line_start(bytes, bytes.len() as int, entries[n - 1]));
    if n < entries.len() {
        lemma_scan_gaps(bytes, bytes.len(), n as int);
        assert(entries[n as int].line0 > line0);
    }
}

/// Two checkpoints in a row are at most a stride of lines apart.
proof fn lemma_scan_gaps(bytes: Seq<u8>, n: nat, i: int)
    requires
        n <= bytes.len() < u64::MAX,
        0 < i < scan_lines(bytes, n).entries.len(),
    ensures
        scan_lines(bytes, n).entries[i].line0 <= scan_lines(bytes, n).entries[i - 1].line0
            + INDEX_CHECKPOINT_STRIDE_LINES,
    decreases n,
{
    if n > 0 {
        let m = (n - 1) as nat;
        lemma_scan_sound(bytes, m);
        let before = scan_lines(bytes, m);
        let scan = scan_lines(bytes, n);
        if i < before.entries.len() {
            lemma_scan_gaps(bytes, m, i);
            assert(scan.entries[i] == before.entries[i]);
            assert(scan.entries[i - 1] == before.entries[i - 1]);
        } else {
            assert(scan.entries[i - 1] == before.entries.last());
        }
    }
}

/// A line that is no checkpoint starts less than a stride of bytes behind the checkpoint in front
/// of it.
proof fn lemma_scan_byte_gaps(bytes: Seq<u8>, n: nat, i: int, start: int)
    requires
        n <= bytes.len() < u64::MAX,
        0 <= i < scan_lines(bytes, n).entries.len(),
        scan_lines(bytes, n).entries[i].byte0 < start <= n,
        i + 1 < scan_lines(bytes, n).entries.len() ==> start < scan_lines(bytes, n).entries[i
            + 1].byte0,
        ends_line(bytes, start - 1),
    ensures
        start < scan_lines(bytes, n).entries[i].byte0 + INDEX_CHECKPOINT_STRIDE_BYTES,
    decreases n,
{
    if n > 0 {
        let m = (n - 1) as nat;
        lemma_scan_sound(bytes, m);
        lemma_scan_sound(bytes, n);
        let before = scan_lines(bytes, m);
        let scan = scan_lines(bytes, n);
        if i < before.entries.len() {
            assert(scan.entries[i] == before.entries[i]);
            if i + 1 < before.entries.len() {
                assert(scan.entries[i + 1] == before.entries[i + 1]);
                assert(is_line_start(bytes, m as int, before.entries[i + 1]));
                lemma_scan_byte_gaps(bytes, m, i, start);
            } else if start < n {
                lemma_scan_byte_gaps(bytes, m, i, start);
            } else {
                assert(start == n);
                assert(before.entries[i] == before.entries.last());
                if scan.entries.len() > before.entries.len() {
                    assert(scan.entries[i + 1].byte0 == n);
                }
            }
        } else {
            assert(scan.entries[i].byte0 == n);
        }
    }
}

/// The line that a lookup is for starts less than a stride of bytes behind the checkpoint that
/// is found, unless it is the line of the checkpoint.
pub proof fn law_index_lookup_bytes(
    file: Seq<u8>,
    bytes: Seq<u8>,
    metadata: IndexMetadata,
    line0: u64,
    start: int,
)
    requires
        is_index_of(file, bytes, metadata),
        bytes.len() < u64::MAX,
        0 < start <= bytes.len(),
        ends_line(bytes, start - 1),
        line0 == crate::scan::line_ends(bytes, start),
    ensures
        ({
            let found = file_checkpoint(file, parsed_index_header(file)->Ok_0, line0);
            &&& found is Ok
            &&& found->Ok_0.byte0 <= start < found->Ok_0.byte0 + 1_048_576
        }),
{
    law_index_lookup(file, bytes, metadata, line0);
    let entries = checkpoints(bytes);
    lemma_scan_sound(bytes, bytes.len());
    lemma_entries_up_to(entries, line0);
    let n = entries_up_to(entries, line0);
    assert(n > 0) by {
        if n == 0 {
            assert(entries[0].line0 > line0);
        }
    }
    let entry = entries[n - 1];
    assert(is_line_start(bytes, bytes.len() as int, entry));
    if entry.byte0 > start {
        crate::scan::lemma_line_ends_monotone(bytes, start, entry.byte0 - 1);
        assert(crate::scan::line_ends(bytes, entry.byte0 as int) == crate::scan::line_ends(
            bytes,
            entry.byte0 - 1,
        ) + 1);
    }
    if entry.byte0 < start {
        if n < entries.len() {
            let next = entries[n as int];
            assert(next.line0 > line0);
            assert(is_line_start(bytes, bytes.len() as int, next));
            if next.byte0 <= start {
                crate::scan::lemma_line_ends_monotone(bytes, next.byte0 as int, start);
            }
        }
        lemma_scan_byte_gaps(bytes, bytes.len(), n - 1, start);
    }
}

/// An index that can be asked.
#[derive(Debug)]
pub struct ReadyDiskLineIndex {
    file: Vec<u8>,
    header: FileHeader,
}

impl ReadyDiskLineIndex {
    pub closed spec fn file(self) -> Seq<u8> {
        self.file@
    }

    pub closed spec fn header(self) -> FileHeader {
        self.header
    }

    /// Opens an index file, unless it was built for another state of the source.
    pub fn open_existing(file: Vec<u8>, metadata: IndexMetadata) -> (result: Result<
        ReadyDiskLineIndex,
        IndexError,
    >)
        ensures
            match parsed_index_header(file@) {
                Err(err) => result is Err && result->Err_0 == err,
                Ok(header) => if fits_source(file@, metadata) {
                    result is Ok && result->Ok_0.file() == file@ && result->Ok_0.header() == header
                } else {
                    result is Err && result->Err_0 == IndexError::StaleMetadata
                },
            },
    {
        let header = match parse_index_header(file.as_slice()) {
            Err(err) => return Err(err),
            Ok(header) => header,
        };
        if header.source_len != metadata.source_len || header.source_mtime_ns
            != metadata.source_mtime_ns {
            return Err(IndexError::StaleMetadata);
        }
        let len: usize = file.len();
        if len < INDEX_HEADER_BYTES + INDEX_TRAILER_BYTES || read_u64(
            file.as_slice(),
            len - INDEX_TRAILER_BYTES,
        ) != metadata.source_fingerprint {
            return Err(IndexError::StaleMetadata);
        }
        Ok(ReadyDiskLineIndex { file, header })
    }

    pub fn total_lines(&self) -> (lines: u64)
        ensures
            lines == self.header().total_lines,
    {
        self.header.total_lines
    }

    pub fn page_count(&self) -> (pages: u64)
        ensures
            pages == self.header().page_count,
    {
        self.header.page_count
    }

    /// The last checkpoint that is not behind a line.
    pub fn checkpoint_for_line(&self, line0: u64) -> (result: Result<PageEntry, IndexError>)
        ensures
            result == file_checkpoint(self.file(), self.header(), line0),
    {
        if self.header.page_count == 0 {
            return Ok(PageEntry { line0: 0, byte0: 0, child_page: 0 });
        }
        let mut steps: usize = if self.file.len() < INDEX_HEADER_BYTES {
            1
        } else {
            (self.file.len() - INDEX_HEADER_BYTES) / INDEX_PAGE_SIZE + 1
        };
        let mut current: u64 = self.header.root_page;
        let ghost goal = file_checkpoint(self.file(), self.header(), line0);
        while steps > 0
            invariant
                goal == file_checkpoint(self.file(), self.header(), line0),
                goal == descend(self.file(), current, line0, steps as nat),
            decreases steps,
        {
            let page = match self.read_page(current) {
                Err(err) => return Err(err),
                Ok(page) => page,
            };
            let entry = match lookup_entry(page.entries.as_slice(), line0) {
                None => return Ok(PageEntry { line0: 0, byte0: 0, child_page: 0 }),
                Some(entry) => entry,
            };
            if page.kind == PageKind::Leaf {
                return Ok(entry);
            }
            current = entry.child_page;
            steps = steps - 1;
        }
        Err(IndexError::CyclicPages)
    }

    fn read_page(&self, page_id: u64) -> (result: Result<Page, IndexError>)
        ensures
            match index_page(self.file(), page_id) {
                Ok(page) => result is Ok && result->Ok_0.kind == page.kind
                    && result->Ok_0.entries@ == page.entries,
                Err(err) => result is Err && result->Err_0 == err,
            },
    {
        if self.file.len() < INDEX_HEADER_BYTES {
            return Err(IndexError::UnexpectedEof);
        }
        let index: u64 = page_id.saturating_sub(1);
        let held: usize = (self.file.len() - INDEX_HEADER_BYTES) / INDEX_PAGE_SIZE;
        if index < held as u64 {
            let at: usize = INDEX_HEADER_BYTES + index as usize * INDEX_PAGE_SIZE;
            parse_page(
                vstd::slice::slice_subrange(self.file.as_slice(), at, at + INDEX_PAGE_SIZE),
            )
        } else {
            Err(IndexError::UnexpectedEof)
        }
    }
}

/// Opens the index in a sidecar file, or builds it where there is no fitting one. The second
/// value is the file to store, where one was built.
pub fn build_or_open_index(
    sidecar: Option<Vec<u8>>,
    bytes: &[u8],
    metadata: IndexMetadata,
) -> (result: (ReadyDiskLineIndex, Option<Vec<u8>>))
    ensures
        ({
            let fits = sidecar is Some && fits_source(sidecar->Some_0@, metadata);
            &&& parsed_index_header(result.0.file()) == Ok::<FileHeader, IndexError>(
                result.0.header(),
            )
            &&& fits ==> result.0.file() == sidecar->Some_0@ && result.1 is None
            &&& !fits ==> is_index_of(result.0.file(), bytes@, metadata) && result.1 is Some
                && result.1->Some_0@ == result.0.file()
        }),
{
    match sidecar {
        Some(file) => {
            match ReadyDiskLineIndex::open_existing(file, metadata) {
                Ok(ready) => return (ready, None),
                Err(_) => {},
            }
        },
        None => {},
    }
    let file = build_index_file(bytes, metadata);
    let mut stored: Vec<u8> = Vec::new();
    push_bytes(&mut stored, file.as_slice());
    assert(stored@ =~= file@);
    let header = FileHeader {
        root_page: read_u64(file.as_slice(), 16),
        page_count: read_u64(file.as_slice(), 24),
        total_lines: read_u64(file.as_slice(), 32),
        total_bytes: read_u64(file.as_slice(), 40),
        source_len: read_u64(file.as_slice(), 48),
        source_mtime_ns: read_u64(file.as_slice(), 56),
    };
    (ReadyDiskLineIndex { file, header }, Some(stored))
}

/// A small source has no index. A large one uses the index in its sidecar file exactly where
/// that was built for the state that the source is in now, and else waits for one to be built.
pub proof fn law_index_is_opened(
    source_len: usize,
    sidecar: Option<Seq<u8>>,
    metadata: IndexMetadata,
    index: Option<DiskLineIndex>,
)
    requires
        DiskLineIndex::opens_to(source_len, sidecar, metadata, index),
    ensures
        index is None <==> source_len < 67_108_864,
        index is Some ==> index->Some_0 is Building || index->Some_0 is Ready,
        index is Some && index->Some_0 is Ready ==> {
            let ready = index->Some_0->Ready_0;
            &&& sidecar == Some(ready.file())
            &&& ready.header() == parsed_index_header(ready.file())->Ok_0
            &&& ready.header().source_len == metadata.source_len
            &&& ready.header().source_mtime_ns == metadata.source_mtime_ns
            &&& stored_fingerprint(ready.file()) == Some(metadata.source_fingerprint)
            &&& index->Some_0.spec_total_lines() is Some ==> index->Some_0.spec_total_lines()->Some_0
                == ready.header().total_lines
        },
        index is Some && index->Some_0 is Building ==> sidecar is None || !fits_source(
            sidecar->Some_0,
            metadata,
        ),
{
}

/// The index of a document, which may still be under construction elsewhere.
#[derive(Debug)]
pub enum DiskLineIndex {
    Building,
    Ready(ReadyDiskLineIndex),
    Failed,
}

impl DiskLineIndex {
    /// What opening the index of a source of `source_len` bytes comes to, given what its sidecar
    /// file holds.
    pub open spec fn opens_to(
        source_len: usize,
        sidecar: Option<Seq<u8>>,
        metadata: IndexMetadata,
        index: Option<DiskLineIndex>,
    ) -> bool {
        if source_len < INDEX_BUILD_MIN_FILE_BYTES {
            index is None
        } else {
            let fits = sidecar is Some && fits_source(sidecar->Some_0, metadata);
            &&& index is Some
            &&& !fits ==> index->Some_0 is Building
            &&& fits ==> index->Some_0 is Ready && index->Some_0->Ready_0.file()
                == sidecar->Some_0 && index->Some_0->Ready_0.header() == parsed_index_header(
                sidecar->Some_0,
            )->Ok_0
        }
    }

    /// The index of a source of `source_len` bytes: none for a small one, the one in the
    /// sidecar file where it fits, and else one that is still to be built.
    pub fn open_or_build(source_len: usize, sidecar: Option<Vec<u8>>, metadata: IndexMetadata) -> (index:
        Option<DiskLineIndex>)
        ensures
            DiskLineIndex::opens_to(
                source_len,
                match sidecar {
                    Some(file) => Some(file@),
                    None => None,
                },
                metadata,
                index,
            ),
    {
        if source_len < INDEX_BUILD_MIN_FILE_BYTES {
            return None;
        }
        match sidecar {
            Some(file) => match ReadyDiskLineIndex::open_existing(file, metadata) {
                Ok(ready) => Some(DiskLineIndex::Ready(ready)),
                Err(_) => Some(DiskLineIndex::Building),
            },
            None => Some(DiskLineIndex::Building),
        }
    }

    /// Takes over what a build came to.
    pub fn finish_build(&mut self, built: Option<ReadyDiskLineIndex>)
        ensures
            match built {
                Some(ready) => *final(self) == DiskLineIndex::Ready(ready),
                None => *final(self) == DiskLineIndex::Failed,
            },
    {
        *self = match built {
            Some(ready) => DiskLineIndex::Ready(ready),
            None => DiskLineIndex::Failed,
        };
    }

    /// `true` while the index is under construction.
    pub fn is_building(&self) -> (building: bool)
        ensures
            building == (self is Building),
    {
        match self {
            DiskLineIndex::Building => true,
            _ => false,
        }
    }

    /// The checkpoint that an index gives for a line, if it can be asked.
    pub open spec fn spec_checkpoint(self, line0: usize) -> Option<LineCheckpoint> {
        match self {
            DiskLineIndex::Ready(ready) => match file_checkpoint(
                ready.file(),
                ready.header(),
                line0 as u64,
            ) {
                Ok(entry) => Some(
                    LineCheckpoint { line0: entry.line0 as usize, byte0: entry.byte0 as usize },
                ),
                Err(_) => None,
            },
            _ => None,
        }
    }

    pub fn checkpoint_for_line(&self, line0: usize) -> (checkpoint: Option<LineCheckpoint>)
        ensures
            checkpoint == self.spec_checkpoint(line0),
    {
        match self.ready() {
            None => None,
            Some(ready) => match ready.checkpoint_for_line(line0 as u64) {
                Err(_) => None,
                Ok(entry) => Some(
                    LineCheckpoint { line0: entry.line0 as usize, byte0: entry.byte0 as usize },
                ),
            },
        }
    }

    /// The exact number of lines, where it is known and can be counted on this machine.
    pub open spec fn spec_total_lines(self) -> Option<usize> {
        match self {
            DiskLineIndex::Ready(ready) => if ready.header().total_lines <= usize::MAX {
                Some(ready.header().total_lines as usize)
            } else {
                None
            },
            _ => None,
        }
    }

    pub fn total_lines(&self) -> (lines: Option<usize>)
        ensures
            lines == self.spec_total_lines(),
    {
        match self.ready() {
            None => None,
            Some(ready) => {
                let lines: u64 = ready.total_lines();
                if lines <= usize::MAX as u64 {
                    Some(lines as usize)
                } else {
                    None
                }
            },
        }
    }

    fn ready(&self) -> (ready: Option<&ReadyDiskLineIndex>)
        ensures
            match self {
                DiskLineIndex::Ready(index) => ready == Some(index),
                _ => ready is None,
            },
    {
        match self {
            DiskLineIndex::Ready(index) => Some(index),
            _ => None,
        }
    }
}

} // verus!
