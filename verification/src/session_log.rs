//! Reading an edit log as a whole: its header, the undo history and the add buffer.

use crate::bytes::{
    le_digits, le_value, lemma_le_digits_len, lemma_le_round_trip, lemma_weights, push_le, read_le,
};
use crate::editlog::{
    add_page_bytes, checked_page, encode_all, history_page_bytes, law_history_page_round_trip,
    law_add_page_round_trip, lemma_encode_all, lemma_encode_all_len, page_header, parse_page,
    parse_page_header, parsed_page, read_root, read_u64, root_at, u64_at, validate_page_crc,
    EditLogError, PageKind, PageView, PiecePage, RootEntry, EDITLOG_HEADER_BYTES,
    EDITLOG_PAGE_HEADER_BYTES, EDITLOG_PAGE_SIZE, EDITLOG_VERSION, HISTORY_ENTRY_BYTES,
};
use vstd::prelude::*;

verus! {

/// The header of an edit log.
#[derive(Clone, Copy, Debug, PartialEq, Eq, Structural)]
pub struct EditLogHeader {
    pub page_count: u64,
    pub source_len: u64,
    pub source_mtime_ns: u64,
    pub source_fingerprint: u64,
    pub history_first_page_id: u64,
    pub history_page_count: u64,
    pub history_len: u64,
    pub history_index: u64,
    pub add_first_page_id: u64,
    pub add_page_count: u64,
    pub add_len: u64,
    pub known_byte_len: u64,
    pub flags: u64,
}

impl Default for EditLogHeader {
    fn default() -> (header: EditLogHeader)
        ensures
            header == (EditLogHeader {
                page_count: 0,
                source_len: 0,
                source_mtime_ns: 0,
                source_fingerprint: 0,
                history_first_page_id: 0,
                history_page_count: 0,
                history_len: 0,
                history_index: 0,
                add_first_page_id: 0,
                add_page_count: 0,
                add_len: 0,
                known_byte_len: 0,
                flags: 0,
            }),
    {
        EditLogHeader {
            page_count: 0,
            source_len: 0,
            source_mtime_ns: 0,
            source_fingerprint: 0,
            history_first_page_id: 0,
            history_page_count: 0,
            history_len: 0,
            history_index: 0,
            add_first_page_id: 0,
            add_page_count: 0,
            add_len: 0,
            known_byte_len: 0,
            flags: 0,
        }
    }
}

/// The eight bytes that every edit log starts with: `QEMEDT1` and a zero.
pub open spec fn magic() -> Seq<u8> {
    seq![0x51u8, 0x45u8, 0x4du8, 0x45u8, 0x44u8, 0x54u8, 0x31u8, 0u8]
}

/// The fields of a header in the order in which they are stored, the commit time last.
pub open spec fn header_fields(header: EditLogHeader, committed_at_ns: u64) -> Seq<u64> {
    seq![
        header.page_count,
        header.source_len,
        header.source_mtime_ns,
        header.source_fingerprint,
        header.history_first_page_id,
        header.history_page_count,
        header.history_len,
        header.history_index,
        header.add_first_page_id,
        header.add_page_count,
        header.add_len,
        header.known_byte_len,
        header.flags,
        committed_at_ns,
    ]
}

/// The stored header.
pub open spec fn header_bytes(header: EditLogHeader, committed_at_ns: u64) -> Seq<u8> {
    magic() + le_digits(EDITLOG_VERSION as nat, 4) + le_digits(EDITLOG_PAGE_SIZE as nat, 4)
        + encode_all(header_fields(header, committed_at_ns), |v: u64| le_digits(v as nat, 8))
}

/// The last field of the header of `log` is the time of the commit.
pub open spec fn committed_at(log: Seq<u8>, committed_at_ns: u64) -> bool {
    log.subrange(120, 128) == le_digits(committed_at_ns as nat, 8)
}

/// The header that `log` starts with.
pub open spec fn parsed_header(log: Seq<u8>) -> Result<EditLogHeader, EditLogError> {
    if log.len() < EDITLOG_HEADER_BYTES {
        Err(EditLogError::UnexpectedEof)
    } else if log.subrange(0, 8) != magic() {
        Err(EditLogError::InvalidMagic)
    } else if le_value(log.subrange(8, 12)) != EDITLOG_VERSION || le_value(log.subrange(12, 16))
        != EDITLOG_PAGE_SIZE {
        Err(EditLogError::UnsupportedFormat)
    } else {
        Ok(
            EditLogHeader {
                page_count: u64_at(log, 16),
                source_len: u64_at(log, 24),
                source_mtime_ns: u64_at(log, 32),
                source_fingerprint: u64_at(log, 40),
                history_first_page_id: u64_at(log, 48),
                history_page_count: u64_at(log, 56),
                history_len: u64_at(log, 64),
                history_index: u64_at(log, 72),
                add_first_page_id: u64_at(log, 80),
                add_page_count: u64_at(log, 88),
                add_len: u64_at(log, 96),
                known_byte_len: u64_at(log, 104),
                flags: u64_at(log, 112),
            },
        )
    }
}

/// Where the page with number `page_id` starts; pages count from one.
pub open spec fn page_offset(page_id: u64) -> int {
    EDITLOG_HEADER_BYTES + (if page_id == 0 {
        0
    } else {
        page_id - 1
    }) * EDITLOG_PAGE_SIZE
}

/// The bytes of a page, where the log is long enough to hold it.
pub open spec fn log_page(log: Seq<u8>, page_id: u64) -> Option<Seq<u8>> {
    let at = page_offset(page_id);
    if at + EDITLOG_PAGE_SIZE <= log.len() {
        Some(log.subrange(at, at + EDITLOG_PAGE_SIZE))
    } else {
        None
    }
}

/// The bytes of a page with a matching checksum.
pub open spec fn raw_page(log: Seq<u8>, page_id: u64) -> Result<Seq<u8>, EditLogError> {
    match log_page(log, page_id) {
        None => Err(EditLogError::UnexpectedEof),
        Some(buf) => match checked_page(buf) {
            Err(err) => Err(err),
            Ok(()) => Ok(buf),
        },
    }
}

/// The piece page with number `page_id`.
pub open spec fn piece_page(log: Seq<u8>, page_id: u64) -> Result<PageView, EditLogError> {
    match log_page(log, page_id) {
        None => Err(EditLogError::UnexpectedEof),
        Some(buf) => parsed_page(buf),
    }
}

/// The number of the page `rel` pages behind `first`.
pub open spec fn nth_page_id(first: u64, rel: nat) -> u64 {
    if first + rel > u64::MAX {
        u64::MAX
    } else {
        (first + rel) as u64
    }
}

pub open spec fn min_nat(a: nat, b: nat) -> nat {
    if a <= b {
        a
    } else {
        b
    }
}

/// `out` with the states of one more history page, up to `limit` states in all. Behind the
/// states that fit, a page has room for one more that is empty.
pub open spec fn history_step(
    log: Seq<u8>,
    page_id: u64,
    limit: nat,
    out: Seq<RootEntry>,
) -> Result<Seq<RootEntry>, EditLogError> {
    match raw_page(log, page_id) {
        Err(err) => Err(err),
        Ok(buf) => match page_header(buf, PageKind::History) {
            Err(err) => Err(err),
            Ok(count) => {
                let wanted = min_nat(
                    count as nat,
                    if limit > out.len() {
                        (limit - out.len()) as nat
                    } else {
                        0
                    },
                );
                if wanted > 128 || (wanted == 128 && u64_at(
                    buf,
                    EDITLOG_PAGE_HEADER_BYTES + HISTORY_ENTRY_BYTES * 127,
                ) != 0) {
                    Err(EditLogError::HistoryPageOverfull)
                } else {
                    Ok(
                        out + Seq::new(
                            wanted,
                            |i: int|
                                root_at(buf, EDITLOG_PAGE_HEADER_BYTES + HISTORY_ENTRY_BYTES * i),
                        ),
                    )
                }
            },
        },
    }
}

/// The states of the first `pages` history pages, up to `limit` states.
pub open spec fn history_prefix(log: Seq<u8>, first: u64, pages: nat, limit: nat) -> Result<
    Seq<RootEntry>,
    EditLogError,
>
    decreases pages,
{
    if pages == 0 {
        Ok(Seq::empty())
    } else {
        match history_prefix(log, first, (pages - 1) as nat, limit) {
            Err(err) => Err(err),
            Ok(out) => history_step(log, nth_page_id(first, (pages - 1) as nat), limit, out),
        }
    }
}

/// The undo history that a log stores.
pub open spec fn history_entries(log: Seq<u8>, first: u64, pages: nat, limit: nat) -> Result<
    Seq<RootEntry>,
    EditLogError,
> {
    if first == 0 || pages == 0 || limit == 0 {
        Ok(Seq::empty())
    } else {
        history_prefix(log, first, pages, limit)
    }
}

/// `out` with the bytes of one more add page.
pub open spec fn add_step(log: Seq<u8>, page_id: u64, out: Seq<u8>) -> Result<
    Seq<u8>,
    EditLogError,
> {
    match raw_page(log, page_id) {
        Err(err) => Err(err),
        Ok(buf) => match page_header(buf, PageKind::Add) {
            Err(err) => Err(err),
            Ok(len) => Ok(
                out + buf.subrange(
                    EDITLOG_PAGE_HEADER_BYTES as int,
                    min_nat(EDITLOG_PAGE_HEADER_BYTES as nat + len as nat, EDITLOG_PAGE_SIZE as nat) as int,
                ),
            ),
        },
    }
}

/// The bytes of the first `pages` add pages; pages behind the first `limit` bytes are not read.
pub open spec fn add_prefix(log: Seq<u8>, first: u64, pages: nat, limit: nat) -> Result<
    Seq<u8>,
    EditLogError,
>
    decreases pages,
{
    if pages == 0 {
        Ok(Seq::empty())
    } else {
        match add_prefix(log, first, (pages - 1) as nat, limit) {
            Err(err) => Err(err),
            Ok(out) => if out.len() >= limit {
                Ok(out)
            } else {
                add_step(log, nth_page_id(first, (pages - 1) as nat), out)
            },
        }
    }
}

/// The add buffer that a log stores.
pub open spec fn add_bytes(log: Seq<u8>, first: u64, pages: nat, limit: nat) -> Result<
    Seq<u8>,
    EditLogError,
> {
    if first == 0 || pages == 0 || limit == 0 {
        Ok(Seq::empty())
    } else {
        match add_prefix(log, first, pages, limit) {
            Err(err) => Err(err),
            Ok(out) => Ok(out.take(min_nat(limit, out.len()) as int)),
        }
    }
}

/// The states that go into history page `k`.
pub open spec fn history_chunk(entries: Seq<RootEntry>, k: nat) -> Seq<RootEntry> {
    entries.subrange((127 * k) as int, min_nat(127 * k + 127, entries.len()) as int)
}

/// How many history pages `len` states take.
pub open spec fn history_chunks(len: nat) -> nat {
    (len + 126) / 127
}

/// The bytes that go into add page `k`.
pub open spec fn add_chunk(bytes: Seq<u8>, k: nat) -> Seq<u8> {
    bytes.subrange((4072 * k) as int, min_nat(4072 * k + 4072, bytes.len()) as int)
}

/// How many add pages `len` bytes take.
pub open spec fn add_chunks(len: nat) -> nat {
    (len + 4071) / 4072
}

/// `true` where pages `first..` of the log store `entries`.
pub open spec fn stores_history(log: Seq<u8>, first: u64, entries: Seq<RootEntry>) -> bool {
    forall|k: nat|
        k < history_chunks(entries.len()) ==> #[trigger] log_page(log, nth_page_id(first, k))
            == Some(history_page_bytes(history_chunk(entries, k)))
}

/// `true` where pages `first..` of the log store `bytes`.
pub open spec fn stores_add(log: Seq<u8>, first: u64, bytes: Seq<u8>) -> bool {
    forall|k: nat|
        k < add_chunks(bytes.len()) ==> #[trigger] log_page(log, nth_page_id(first, k)) == Some(
            add_page_bytes(add_chunk(bytes, k)),
        )
}

/// A header reads back as it was written, with the time of the commit, whatever pages follow
/// it.
pub proof fn law_header_round_trip(header: EditLogHeader, committed_at_ns: u64, rest: Seq<u8>)
    ensures
        header_bytes(header, committed_at_ns).len() == EDITLOG_HEADER_BYTES,
        parsed_header(header_bytes(header, committed_at_ns) + rest) == Ok::<
            EditLogHeader,
            EditLogError,
        >(header),
        committed_at(header_bytes(header, committed_at_ns) + rest, committed_at_ns),
        ({
            let log = header_bytes(header, committed_at_ns) + rest;
            &&& log.subrange(0, 8) == seq![81u8, 69u8, 77u8, 69u8, 68u8, 84u8, 49u8, 0u8]
            &&& u64_at(log, 16) == header.page_count
            &&& u64_at(log, 24) == header.source_len
            &&& u64_at(log, 32) == header.source_mtime_ns
            &&& u64_at(log, 40) == header.source_fingerprint
            &&& u64_at(log, 48) == header.history_first_page_id
            &&& u64_at(log, 56) == header.history_page_count
            &&& u64_at(log, 64) == header.history_len
            &&& u64_at(log, 72) == header.history_index
            &&& u64_at(log, 80) == header.add_first_page_id
            &&& u64_at(log, 88) == header.add_page_count
            &&& u64_at(log, 96) == header.add_len
            &&& u64_at(log, 104) == header.known_byte_len
            &&& u64_at(log, 112) == header.flags
        }),
{
    let log = header_bytes(header, committed_at_ns) + rest;
    let fields = header_fields(header, committed_at_ns);
    let encode = |v: u64| le_digits(v as nat, 8);
    let tail = encode_all(fields, encode);
    assert forall|v: u64| #[trigger] encode(v).len() == 8 by {
        lemma_le_digits_len(v as nat, 8);
    }
    lemma_encode_all_len(fields, encode, 8);
    lemma_le_digits_len(EDITLOG_VERSION as nat, 4);
    lemma_le_digits_len(EDITLOG_PAGE_SIZE as nat, 4);
    lemma_weights();
    lemma_le_round_trip(EDITLOG_VERSION as nat, 4);
    lemma_le_round_trip(EDITLOG_PAGE_SIZE as nat, 4);
    assert(log.subrange(0, 8) =~= magic());
    assert(log.subrange(8, 12) =~= le_digits(EDITLOG_VERSION as nat, 4));
    assert(log.subrange(12, 16) =~= le_digits(EDITLOG_PAGE_SIZE as nat, 4));
    assert forall|k: int| 0 <= k < 14 implies #[trigger] fields[k] == u64_at(log, 16 + 8 * k) by {
        lemma_encode_all(fields, encode, 8, k);
        assert(log.subrange(16 + 8 * k, 16 + 8 * k + 8) =~= tail.subrange(8 * k, 8 * k + 8));
        lemma_le_round_trip(fields[k] as nat, 8);
    }
    assert(fields[0] == u64_at(log, 16));
    assert(fields[1] == u64_at(log, 24));
    assert(fields[2] == u64_at(log, 32));
    assert(fields[3] == u64_at(log, 40));
    assert(fields[4] == u64_at(log, 48));
    assert(fields[5] == u64_at(log, 56));
    assert(fields[6] == u64_at(log, 64));
    assert(fields[7] == u64_at(log, 72));
    assert(fields[8] == u64_at(log, 80));
    assert(fields[9] == u64_at(log, 88));
    assert(fields[10] == u64_at(log, 96));
    assert(fields[11] == u64_at(log, 104));
    assert(fields[12] == u64_at(log, 112));
    lemma_encode_all(fields, encode, 8, 13);
    assert(log.subrange(120, 128) =~= tail.subrange(104, 112));
}

/// A stored history reads back state for state.
pub proof fn law_history_round_trip(log: Seq<u8>, first: u64, entries: Seq<RootEntry>)
    requires
        first > 0,
        first + history_chunks(entries.len()) <= u64::MAX + 1,
        stores_history(log, first, entries),
    ensures
        history_entries(log, first, history_chunks(entries.len()), entries.len()) == Ok::<
            Seq<RootEntry>,
            EditLogError,
        >(entries),
{
    let n = history_chunks(entries.len());
    if entries.len() > 0 {
        lemma_history_prefix(log, first, entries, n);
        assert(entries.take(entries.len() as int) =~= entries);
    } else {
        assert(entries =~= Seq::empty());
    }
}

proof fn lemma_history_prefix(log: Seq<u8>, first: u64, entries: Seq<RootEntry>, k: nat)
    requires
        first > 0,
        k <= history_chunks(entries.len()),
        first + history_chunks(entries.len()) <= u64::MAX + 1,
        stores_history(log, first, entries),
    ensures
        history_prefix(log, first, k, entries.len()) == Ok::<Seq<RootEntry>, EditLogError>(
            entries.take(min_nat(127 * k, entries.len()) as int),
        ),
    decreases k,
{
    if k == 0 {
        assert(entries.take(0) =~= Seq::empty());
    } else {
        let j = (k - 1) as nat;
        lemma_history_prefix(log, first, entries, j);
        let chunk = history_chunk(entries, j);
        let buf = history_page_bytes(chunk);
        assert(log_page(log, nth_page_id(first, j)) == Some(buf));
        law_history_page_round_trip(chunk);
        let out = entries.take(min_nat(127 * j, entries.len()) as int);
        assert(out + Seq::new(
            chunk.len(),
            |i: int| root_at(buf, EDITLOG_PAGE_HEADER_BYTES + HISTORY_ENTRY_BYTES * i),
        ) =~= entries.take(min_nat(127 * k, entries.len()) as int)) by {
            assert forall|i: int| 0 <= i < chunk.len() implies #[trigger] root_at(
                buf,
                EDITLOG_PAGE_HEADER_BYTES + HISTORY_ENTRY_BYTES * i,
            ) == entries[127 * j + i] by {
                assert(chunk[i] == entries[127 * j + i]);
            }
        }
    }
}

/// A stored add buffer reads back byte for byte.
pub proof fn law_add_round_trip(log: Seq<u8>, first: u64, bytes: Seq<u8>)
    requires
        first > 0,
        first + add_chunks(bytes.len()) <= u64::MAX + 1,
        stores_add(log, first, bytes),
    ensures
        add_bytes(log, first, add_chunks(bytes.len()), bytes.len()) == Ok::<
            Seq<u8>,
            EditLogError,
        >(bytes),
{
    if bytes.len() > 0 {
        lemma_add_prefix(log, first, bytes, add_chunks(bytes.len()));
        assert(bytes.take(bytes.len() as int) =~= bytes);
    } else {
        assert(bytes =~= Seq::empty());
    }
}

proof fn lemma_add_prefix(log: Seq<u8>, first: u64, bytes: Seq<u8>, k: nat)
    requires
        first > 0,
        k <= add_chunks(bytes.len()),
        first + add_chunks(bytes.len()) <= u64::MAX + 1,
        stores_add(log, first, bytes),
    ensures
        add_prefix(log, first, k, bytes.len()) == Ok::<Seq<u8>, EditLogError>(
            bytes.take(min_nat(4072 * k, bytes.len()) as int),
        ),
    decreases k,
{
    if k == 0 {
        assert(bytes.take(0) =~= Seq::empty());
    } else {
        let j = (k - 1) as nat;
        lemma_add_prefix(log, first, bytes, j);
        let chunk = add_chunk(bytes, j);
        let buf = add_page_bytes(chunk);
        assert(log_page(log, nth_page_id(first, j)) == Some(buf));
        law_add_page_round_trip(chunk);
        let out = bytes.take(min_nat(4072 * j, bytes.len()) as int);
        assert(out + chunk =~= bytes.take(min_nat(4072 * k, bytes.len()) as int));
    }
}

/// Encodes a header.
pub fn encode_editlog_header(header: EditLogHeader, committed_at_ns: u64) -> (buf: Vec<u8>)
    ensures
        buf@ == header_bytes(header, committed_at_ns),
{
    let mut buf: Vec<u8> = vec![0x51u8, 0x45u8, 0x4du8, 0x45u8, 0x44u8, 0x54u8, 0x31u8, 0u8];
    assert(buf@ =~= magic());
    push_le(&mut buf, EDITLOG_VERSION as u64, 4);
    push_le(&mut buf, EDITLOG_PAGE_SIZE as u64, 4);
    let ghost head = buf@;
    let fields: [u64; 14] = [
        header.page_count,
        header.source_len,
        header.source_mtime_ns,
        header.source_fingerprint,
        header.history_first_page_id,
        header.history_page_count,
        header.history_len,
        header.history_index,
        header.add_first_page_id,
        header.add_page_count,
        header.add_len,
        header.known_byte_len,
        header.flags,
        committed_at_ns,
    ];
    let ghost all = header_fields(header, committed_at_ns);
    let ghost encode = |v: u64| le_digits(v as nat, 8);
    assert(fields@ =~= all);
    assert(buf@ =~= head + encode_all(all.take(0), encode));
    let mut i: usize = 0;
    while i < 14
        invariant
            i <= 14,
            fields@ == all,
            all.len() == 14,
            encode == (|v: u64| le_digits(v as nat, 8)),
            buf@ == head + encode_all(all.take(i as int), encode),
        decreases 14 - i,
    {
        push_le(&mut buf, fields[i], 8);
        assert(all.take(i + 1).drop_last() =~= all.take(i as int));
        i = i + 1;
        assert(buf@ =~= head + encode_all(all.take(i as int), encode));
    }
    assert(all.take(14) =~= all);
    buf
}

fn starts_with_magic(log: &[u8]) -> (found: bool)
    requires
        log@.len() >= 8,
    ensures
        found == (log@.subrange(0, 8) == magic()),
{
    let found = log[0] == 0x51u8 && log[1] == 0x45u8 && log[2] == 0x4du8 && log[3] == 0x45u8
        && log[4] == 0x44u8 && log[5] == 0x54u8 && log[6] == 0x31u8 && log[7] == 0u8;
    proof {
        let head = log@.subrange(0, 8);
        if found {
            assert(head =~= magic());
        } else if head == magic() {
            assert(head[0] == magic()[0] && head[1] == magic()[1] && head[2] == magic()[2]
                && head[3] == magic()[3] && head[4] == magic()[4] && head[5] == magic()[5]
                && head[6] == magic()[6] && head[7] == magic()[7]);
        }
    }
    found
}

/// Decodes the header that `log` starts with.
pub fn parse_editlog_header(log: &[u8]) -> (result: Result<EditLogHeader, EditLogError>)
    ensures
        result == parsed_header(log@),
{
    if log.len() < EDITLOG_HEADER_BYTES {
        return Err(EditLogError::UnexpectedEof);
    }
    if !starts_with_magic(log) {
        return Err(EditLogError::InvalidMagic);
    }
    let version: u64 = read_le(log, 8, 4);
    let page_size: u64 = read_le(log, 12, 4);
    if version != EDITLOG_VERSION as u64 || page_size != EDITLOG_PAGE_SIZE as u64 {
        return Err(EditLogError::UnsupportedFormat);
    }
    Ok(
        EditLogHeader {
            page_count: read_u64(log, 16),
            source_len: read_u64(log, 24),
            source_mtime_ns: read_u64(log, 32),
            source_fingerprint: read_u64(log, 40),
            history_first_page_id: read_u64(log, 48),
            history_page_count: read_u64(log, 56),
            history_len: read_u64(log, 64),
            history_index: read_u64(log, 72),
            add_first_page_id: read_u64(log, 80),
            add_page_count: read_u64(log, 88),
            add_len: read_u64(log, 96),
            known_byte_len: read_u64(log, 104),
            flags: read_u64(log, 112),
        },
    )
}

/// The bytes of a page, where the log is long enough to hold it.
pub fn log_page_bytes<'a>(log: &'a [u8], page_id: u64) -> (page: Option<&'a [u8]>)
    ensures
        match log_page(log@, page_id) {
            Some(buf) => page is Some && page->Some_0@ == buf,
            None => page is None,
        },
{
    if log.len() < EDITLOG_HEADER_BYTES {
        return None;
    }
    let index: u64 = if page_id == 0 {
        0
    } else {
        page_id - 1
    };
    let held: usize = (log.len() - EDITLOG_HEADER_BYTES) / EDITLOG_PAGE_SIZE;
    if index < held as u64 {
        let at: usize = EDITLOG_HEADER_BYTES + index as usize * EDITLOG_PAGE_SIZE;
        Some(vstd::slice::slice_subrange(log, at, at + EDITLOG_PAGE_SIZE))
    } else {
        None
    }
}

/// Reads the piece page with number `page_id`.
pub fn read_piece_page(log: &[u8], page_id: u64) -> (result: Result<PiecePage, EditLogError>)
    ensures
        match piece_page(log@, page_id) {
            Ok(page) => result is Ok && result->Ok_0@ == page,
            Err(err) => result is Err && result->Err_0 == err,
        },
{
    match log_page_bytes(log, page_id) {
        None => Err(EditLogError::UnexpectedEof),
        Some(buf) => parse_page(buf),
    }
}

fn read_raw_page<'a>(log: &'a [u8], page_id: u64) -> (result: Result<&'a [u8], EditLogError>)
    ensures
        match raw_page(log@, page_id) {
            Ok(buf) => result is Ok && result->Ok_0@ == buf,
            Err(err) => result is Err && result->Err_0 == err,
        },
{
    match log_page_bytes(log, page_id) {
        None => Err(EditLogError::UnexpectedEof),
        Some(buf) => match validate_page_crc(buf) {
            Err(err) => Err(err),
            Ok(()) => Ok(buf),
        },
    }
}

fn page_id_behind(first: u64, rel: usize) -> (page_id: u64)
    ensures
        page_id == nth_page_id(first, rel as nat),
{
    first.saturating_add(rel as u64)
}

/// Reads the undo history of a log.
pub fn read_history_entries(
    log: &[u8],
    first_page_id: u64,
    page_count: usize,
    history_len: usize,
) -> (result: Result<Vec<RootEntry>, EditLogError>)
    ensures
        match history_entries(log@, first_page_id, page_count as nat, history_len as nat) {
            Ok(entries) => result is Ok && result->Ok_0@ == entries,
            Err(err) => result is Err && result->Err_0 == err,
        },
{
    let mut out: Vec<RootEntry> = Vec::new();
    if first_page_id == 0 || page_count == 0 || history_len == 0 {
        return Ok(out);
    }
    let mut rel: usize = 0;
    while rel < page_count
        invariant
            rel <= page_count,
            first_page_id > 0,
            page_count > 0,
            history_len > 0,
            history_prefix(log@, first_page_id, rel as nat, history_len as nat) == Ok::<
                Seq<RootEntry>,
                EditLogError,
            >(out@),
        decreases page_count - rel,
    {
        let page_id: u64 = page_id_behind(first_page_id, rel);
        let ghost before = out@;
        let ghost step = history_step(log@, page_id, history_len as nat, before);
        proof {
            assert(history_prefix(log@, first_page_id, (rel + 1) as nat, history_len as nat)
                == step);
            if step is Err {
                lemma_history_error(
                    log@,
                    first_page_id,
                    (rel + 1) as nat,
                    page_count as nat,
                    history_len as nat,
                );
            }
        }
        let buf = match read_raw_page(log, page_id) {
            Err(err) => return Err(err),
            Ok(buf) => buf,
        };
        let count: usize = match parse_page_header(buf, PageKind::History) {
            Err(err) => return Err(err),
            Ok(count) => count,
        };
        let room: usize = history_len.saturating_sub(out.len());
        let wanted: usize = if count <= room {
            count
        } else {
            room
        };
        if wanted > 128 || (wanted == 128 && read_u64(
            buf,
            EDITLOG_PAGE_HEADER_BYTES + HISTORY_ENTRY_BYTES * 127,
        ) != 0) {
            return Err(EditLogError::HistoryPageOverfull);
        }
        let mut i: usize = 0;
        assert(out@ =~= before + Seq::new(
            0,
            |k: int| root_at(buf@, EDITLOG_PAGE_HEADER_BYTES + HISTORY_ENTRY_BYTES * k),
        ));
        while i < wanted
            invariant
                i <= wanted <= 128,
                wanted == 128 ==> u64_at(
                    buf@,
                    EDITLOG_PAGE_HEADER_BYTES + HISTORY_ENTRY_BYTES * 127,
                ) == 0,
                buf@.len() == EDITLOG_PAGE_SIZE,
                out@ == before + Seq::new(
                    i as nat,
                    |k: int| root_at(buf@, EDITLOG_PAGE_HEADER_BYTES + HISTORY_ENTRY_BYTES * k),
                ),
            decreases wanted - i,
        {
            out.push(read_root(buf, EDITLOG_PAGE_HEADER_BYTES + HISTORY_ENTRY_BYTES * i));
            i = i + 1;
            assert(out@ =~= before + Seq::new(
                i as nat,
                |k: int| root_at(buf@, EDITLOG_PAGE_HEADER_BYTES + HISTORY_ENTRY_BYTES * k),
            ));
        }
        rel = rel + 1;
    }
    Ok(out)
}

/// An error at one history page is the error of the whole.
proof fn lemma_history_error(log: Seq<u8>, first: u64, at: nat, pages: nat, limit: nat)
    requires
        at <= pages,
        history_prefix(log, first, at, limit) is Err,
    ensures
        history_prefix(log, first, pages, limit) == history_prefix(log, first, at, limit),
    decreases pages,
{
    if at < pages {
        lemma_history_error(log, first, at, (pages - 1) as nat, limit);
    }
}

/// An error at one add page is the error of the whole, and nothing is read behind the limit.
proof fn lemma_add_settled(log: Seq<u8>, first: u64, at: nat, pages: nat, limit: nat)
    requires
        at <= pages,
        match add_prefix(log, first, at, limit) {
            Err(_) => true,
            Ok(out) => out.len() >= limit,
        },
    ensures
        add_prefix(log, first, pages, limit) == add_prefix(log, first, at, limit),
    decreases pages,
{
    if at < pages {
        lemma_add_settled(log, first, at, (pages - 1) as nat, limit);
    }
}

/// Reads the add buffer of a log.
pub fn read_add_bytes(log: &[u8], first_page_id: u64, page_count: usize, add_len: usize) -> (result:
    Result<Vec<u8>, EditLogError>)
    ensures
        match add_bytes(log@, first_page_id, page_count as nat, add_len as nat) {
            Ok(bytes) => result is Ok && result->Ok_0@ == bytes,
            Err(err) => result is Err && result->Err_0 == err,
        },
{
    let mut out: Vec<u8> = Vec::new();
    if first_page_id == 0 || page_count == 0 || add_len == 0 {
        return Ok(out);
    }
    let mut rel: usize = 0;
    while rel < page_count && out.len() < add_len
        invariant
            rel <= page_count,
            first_page_id > 0,
            page_count > 0,
            add_len > 0,
            add_prefix(log@, first_page_id, rel as nat, add_len as nat) == Ok::<
                Seq<u8>,
                EditLogError,
            >(out@),
        decreases page_count - rel,
    {
        let page_id: u64 = page_id_behind(first_page_id, rel);
        proof {
            let next = add_prefix(log@, first_page_id, (rel + 1) as nat, add_len as nat);
            assert(next == add_step(log@, page_id, out@));
            if next is Err {
                lemma_add_settled(
                    log@,
                    first_page_id,
                    (rel + 1) as nat,
                    page_count as nat,
                    add_len as nat,
                );
            }
        }
        let buf = match read_raw_page(log, page_id) {
            Err(err) => return Err(err),
            Ok(buf) => buf,
        };
        let payload_len: usize = match parse_page_header(buf, PageKind::Add) {
            Err(err) => return Err(err),
            Ok(len) => len,
        };
        let wanted: usize = EDITLOG_PAGE_HEADER_BYTES.saturating_add(payload_len);
        let end: usize = if wanted <= EDITLOG_PAGE_SIZE {
            wanted
        } else {
            EDITLOG_PAGE_SIZE
        };
        let chunk = vstd::slice::slice_subrange(buf, EDITLOG_PAGE_HEADER_BYTES, end);
        crate::editlog::push_bytes(&mut out, chunk);
        rel = rel + 1;
    }
    proof {
        if rel < page_count {
            lemma_add_settled(
                log@,
                first_page_id,
                rel as nat,
                page_count as nat,
                add_len as nat,
            );
        }
    }
    if out.len() > add_len {
        out.truncate(add_len);
    }
    assert(out@ =~= out@.take(out@.len() as int));
    Ok(out)
}

} // verus!
