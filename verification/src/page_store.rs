//! Where the pages of a piece tree live: in memory, or in an edit log with a page cache.

use crate::editlog::{
    add_page_bytes, add_page_capacity, history_page_bytes, history_page_capacity,
    law_add_page_round_trip, law_history_page_round_trip, law_piece_page_round_trip, page_fits,
    piece_page_bytes, push_bytes, serialize_add_page, serialize_history_page, serialize_page,
    ChildRef, EditLogError, PageView, Piece, PiecePage, RootEntry, EDITLOG_HEADER_BYTES,
    EDITLOG_PAGE_SIZE,
};
use crate::session_log::{
    add_bytes, add_chunk, add_chunks, committed_at, encode_editlog_header, header_bytes,
    history_chunk, history_chunks, history_entries, law_add_round_trip, law_header_round_trip,
    law_history_round_trip, log_page, nth_page_id, page_offset, parse_editlog_header,
    parsed_header, piece_page, read_add_bytes, read_history_entries, read_piece_page, stores_add,
    stores_history, EditLogHeader,
};
use std::collections::{HashMap, VecDeque};
use vstd::prelude::*;

verus! {

broadcast use vstd::std_specs::hash::group_hash_axioms;

/// How many pages of an edit log are kept decoded.
pub const EDITLOG_CACHE_PAGES: usize = 1024;

impl PiecePage {
    /// A page that holds the same entries.
    pub fn copy(&self) -> (page: PiecePage)
        ensures
            page@ == self@,
    {
        match self {
            PiecePage::Internal { children } => {
                let mut out: Vec<ChildRef> = Vec::new();
                let mut i: usize = 0;
                while i < children.len()
                    invariant
                        i <= children@.len(),
                        out@ == children@.take(i as int),
                    decreases children@.len() - i,
                {
                    out.push(children[i]);
                    i = i + 1;
                    assert(out@ =~= children@.take(i as int));
                }
                assert(out@ =~= children@);
                PiecePage::Internal { children: out }
            },
            PiecePage::Leaf { pieces } => {
                let mut out: Vec<Piece> = Vec::new();
                let mut i: usize = 0;
                while i < pieces.len()
                    invariant
                        i <= pieces@.len(),
                        out@ == pieces@.take(i as int),
                    decreases pieces@.len() - i,
                {
                    out.push(pieces[i]);
                    i = i + 1;
                    assert(out@ =~= pieces@.take(i as int));
                }
                assert(out@ =~= pieces@);
                PiecePage::Leaf { pieces: out }
            },
        }
    }
}

/// What the pages of a map hold.
pub open spec fn page_views(pages: Map<u64, PiecePage>) -> Map<u64, PageView> {
    Map::new(|id: u64| pages.contains_key(id), |id: u64| pages[id]@)
}

/// `order` without the first occurrence of `id`.
pub open spec fn drop_id(order: Seq<u64>, id: u64) -> Seq<u64>
    decreases order.len(),
{
    if order.len() == 0 {
        order
    } else if order[0] == id {
        order.skip(1)
    } else {
        seq![order[0]] + drop_id(order.skip(1), id)
    }
}

proof fn lemma_drop_id_at(order: Seq<u64>, id: u64, at: int)
    requires
        0 <= at < order.len(),
        order[at] == id,
        forall|j: int| 0 <= j < at ==> order[j] != id,
    ensures
        drop_id(order, id) == order.remove(at),
    decreases order.len(),
{
    if at == 0 {
        assert(order.remove(0) =~= order.skip(1));
    } else {
        let rest = order.skip(1);
        assert forall|j: int| 0 <= j < at - 1 implies rest[j] != id by {
            assert(rest[j] == order[j + 1]);
        }
        lemma_drop_id_at(rest, id, at - 1);
        assert(seq![order[0]] + rest.remove(at - 1) =~= order.remove(at));
    }
}

proof fn lemma_drop_id_absent(order: Seq<u64>, id: u64)
    requires
        !order.contains(id),
    ensures
        drop_id(order, id) == order,
    decreases order.len(),
{
    if order.len() > 0 {
        assert(order[0] != id);
        let rest = order.skip(1);
        assert(!rest.contains(id)) by {
            if rest.contains(id) {
                let j = choose|j: int| 0 <= j < rest.len() && rest[j] == id;
                assert(order[j + 1] == id);
            }
        }
        lemma_drop_id_absent(rest, id);
        assert(seq![order[0]] + rest =~= order);
    }
}

proof fn lemma_drop_id_members(order: Seq<u64>, id: u64)
    requires
        order.no_duplicates(),
    ensures
        drop_id(order, id).no_duplicates(),
        forall|x: u64| #[trigger]
            drop_id(order, id).contains(x) <==> order.contains(x) && x != id,
        drop_id(order, id).len() <= order.len(),
    decreases order.len(),
{
    if order.contains(id) {
        let at = choose|j: int| 0 <= j < order.len() && order[j] == id;
        assert forall|j: int| 0 <= j < at implies order[j] != id by {}
        lemma_drop_id_at(order, id, at);
        let out = order.remove(at);
        assert forall|x: u64| #[trigger] out.contains(x) <==> order.contains(x) && x != id by {
            if out.contains(x) {
                let j = choose|j: int| 0 <= j < out.len() && out[j] == x;
                if j < at {
                    assert(order[j] == x);
                } else {
                    assert(order[j + 1] == x);
                }
            }
            if order.contains(x) && x != id {
                let j = choose|j: int| 0 <= j < order.len() && order[j] == x;
                if j < at {
                    assert(out[j] == x);
                } else {
                    assert(out[j - 1] == x);
                }
            }
        }
    } else {
        lemma_drop_id_absent(order, id);
    }
}

/// A bounded cache of decoded pages that drops the page used longest ago.
#[derive(Debug)]
pub struct PageCache {
    pages: HashMap<u64, PiecePage>,
    order: VecDeque<u64>,
}

impl PageCache {
    /// The cached pages.
    pub closed spec fn contents(self) -> Map<u64, PageView> {
        page_views(self.pages@)
    }

    /// The numbers of the cached pages, the one used last first.
    pub closed spec fn recency(self) -> Seq<u64> {
        self.order@
    }

    /// The cached pages are those listed by recency, each once, and not too many.
    pub open spec fn wf(self) -> bool {
        &&& self.recency().no_duplicates()
        &&& self.recency().len() <= EDITLOG_CACHE_PAGES
        &&& forall|id: u64| #[trigger]
            self.contents().contains_key(id) <==> self.recency().contains(id)
    }

    /// An empty cache.
    pub fn new() -> (cache: PageCache)
        ensures
            cache.wf(),
            cache.contents() == Map::<u64, PageView>::empty(),
            cache.recency() == Seq::<u64>::empty(),
    {
        let cache = PageCache { pages: HashMap::new(), order: VecDeque::new() };
        assert(cache.contents() =~= Map::<u64, PageView>::empty());
        assert(cache.recency() =~= Seq::<u64>::empty());
        cache
    }

    /// A cached page, without counting as a use.
    pub fn peek(&self, page_id: u64) -> (page: Option<PiecePage>)
        ensures
            match page {
                Some(found) => self.contents().contains_key(page_id)
                    && self.contents()[page_id] == found@,
                None => !self.contents().contains_key(page_id),
            },
    {
        match self.pages.get(&page_id) {
            Some(page) => Some(page.copy()),
            None => None,
        }
    }

    /// A cached page, which becomes the one used last.
    pub fn get(&mut self, page_id: u64) -> (page: Option<PiecePage>)
        requires
            old(self).wf(),
        ensures
            final(self).wf(),
            final(self).contents() == old(self).contents(),
            match page {
                Some(found) => {
                    &&& old(self).contents().contains_key(page_id)
                    &&& old(self).contents()[page_id] == found@
                    &&& final(self).recency() == seq![page_id] + drop_id(
                        old(self).recency(),
                        page_id,
                    )
                },
                None => {
                    &&& !old(self).contents().contains_key(page_id)
                    &&& final(self).recency() == old(self).recency()
                },
            },
    {
        let page = self.peek(page_id);
        if page.is_some() {
            proof {
                lemma_touched(self.order@, page_id);
            }
            self.touch(page_id);
            proof {
                let listed = seq![page_id] + drop_id(old(self).recency(), page_id);
                lemma_same_members_same_len(old(self).recency(), listed);
            }
        }
        page
    }

    /// Caches a page as the one used last, and drops the one used longest ago where there
    /// are too many.
    pub fn insert(&mut self, page_id: u64, page: PiecePage)
        requires
            old(self).wf(),
        ensures
            final(self).wf(),
            ({
                let listed = seq![page_id] + drop_id(old(self).recency(), page_id);
                let held = old(self).contents().insert(page_id, page@);
                if listed.len() <= EDITLOG_CACHE_PAGES {
                    final(self).recency() == listed && final(self).contents() == held
                } else {
                    final(self).recency() == listed.drop_last() && final(self).contents()
                        == held.remove(listed.last())
                }
            }),
    {
        let ghost listed = seq![page_id] + drop_id(self.order@, page_id);
        let ghost held = self.contents().insert(page_id, page@);
        proof {
            lemma_touched(self.order@, page_id);
        }
        self.pages.insert(page_id, page);
        self.touch(page_id);
        assert(self.contents() =~= held);
        if self.order.len() > EDITLOG_CACHE_PAGES {
            match self.order.pop_back() {
                Some(evicted) => {
                    let _ = self.pages.remove(&evicted);
                    proof {
                        assert(self.order@ =~= listed.drop_last());
                        assert(self.contents() =~= held.remove(listed.last()));
                        assert forall|id: u64| #[trigger]
                            self.contents().contains_key(id) <==> self.order@.contains(id) by {
                            if listed.contains(id) && id != listed.last() {
                                let j = choose|j: int| 0 <= j < listed.len() && listed[j] == id;
                                assert(self.order@[j] == id);
                            }
                            if self.order@.contains(id) {
                                let j = choose|j: int|
                                    0 <= j < self.order@.len() && self.order@[j] == id;
                                assert(listed[j] == id);
                                assert(listed[listed.len() - 1] != id);
                            }
                        }
                    }
                },
                None => {},
            }
        }
    }

    fn touch(&mut self, page_id: u64)
        ensures
            final(self).order@ == seq![page_id] + drop_id(old(self).order@, page_id),
            final(self).pages == old(self).pages,
    {
        let mut idx: usize = 0;
        let len: usize = self.order.len();
        while idx < len && self.order[idx] != page_id
            invariant
                idx <= len == self.order@.len(),
                self.order == old(self).order,
                self.pages == old(self).pages,
                forall|j: int| 0 <= j < idx ==> self.order@[j] != page_id,
            decreases len - idx,
        {
            idx = idx + 1;
        }
        if idx < len {
            proof {
                lemma_drop_id_at(self.order@, page_id, idx as int);
            }
            let _ = self.order.remove(idx);
        } else {
            proof {
                lemma_drop_id_absent(self.order@, page_id);
            }
        }
        self.order.push_front(page_id);
    }
}

/// Moving a number to the front keeps the others.
proof fn lemma_touched(order: Seq<u64>, id: u64)
    requires
        order.no_duplicates(),
    ensures
        ({
            let listed = seq![id] + drop_id(order, id);
            &&& listed.no_duplicates()
            &&& forall|x: u64| #[trigger] listed.contains(x) <==> order.contains(x) || x == id
            &&& listed.len() <= order.len() + 1
        }),
{
    lemma_drop_id_members(order, id);
    let rest = drop_id(order, id);
    let listed = seq![id] + rest;
    assert(!rest.contains(id));
    assert forall|i: int, j: int| 0 <= i < j < listed.len() implies listed[i] != listed[j] by {
        assert(listed[j] == rest[j - 1]);
        assert(rest.contains(rest[j - 1]));
        if i > 0 {
            assert(listed[i] == rest[i - 1]);
        }
    }
    assert forall|x: u64| #[trigger] listed.contains(x) <==> order.contains(x) || x == id by {
        if listed.contains(x) {
            let j = choose|j: int| 0 <= j < listed.len() && listed[j] == x;
            if j > 0 {
                assert(rest[j - 1] == x);
                assert(rest.contains(x));
            }
        }
        if x == id {
            assert(listed[0] == id);
        } else if order.contains(x) {
            assert(rest.contains(x));
            let j = choose|j: int| 0 <= j < rest.len() && rest[j] == x;
            assert(listed[j + 1] == x);
        }
    }
}

/// Two lists without repeats that hold the same numbers are equally long.
proof fn lemma_same_members_same_len(a: Seq<u64>, b: Seq<u64>)
    requires
        a.no_duplicates(),
        b.no_duplicates(),
        forall|x: u64| #[trigger] a.contains(x) <==> b.contains(x),
    ensures
        a.len() == b.len(),
{
    a.unique_seq_to_set();
    b.unique_seq_to_set();
    assert(a.to_set() =~= b.to_set()) by {
        assert forall|x: u64| a.to_set().contains(x) == b.to_set().contains(x) by {
            assert(a.contains(x) == b.contains(x));
        }
    }
}

/// What a source file looked like when an edit log was tied to it.
#[derive(Clone, Copy, Debug, PartialEq, Eq, Structural)]
pub struct SourceMetadata {
    pub len: u64,
    pub mtime_ns: u64,
    pub fingerprint: u64,
}

/// What a session knew of its text when it was stored.
#[derive(Clone, Copy, Debug, PartialEq, Eq, Structural)]
pub struct SessionMeta {
    pub known_byte_len: usize,
    pub full_index: bool,
}

impl Default for SessionMeta {
    fn default() -> (meta: SessionMeta)
        ensures
            meta == (SessionMeta { known_byte_len: 0, full_index: false }),
    {
        SessionMeta { known_byte_len: 0, full_index: false }
    }
}

/// Pages that are only held in memory.
#[derive(Debug)]
pub struct InMemoryPageStore {
    pages: HashMap<u64, PiecePage>,
    next_page_id: u64,
}

impl InMemoryPageStore {
    pub closed spec fn pages(self) -> Map<u64, PageView> {
        page_views(self.pages@)
    }

    /// The number of the page allocated last.
    pub closed spec fn last_page_id(self) -> u64 {
        self.next_page_id
    }

    /// Pages are numbered from one.
    pub open spec fn wf(self) -> bool {
        forall|id: u64| #[trigger]
            self.pages().contains_key(id) ==> 1 <= id <= self.last_page_id()
    }

    pub fn new() -> (store: InMemoryPageStore)
        ensures
            store.wf(),
            store.pages() == Map::<u64, PageView>::empty(),
            store.last_page_id() == 0,
    {
        let store = InMemoryPageStore { pages: HashMap::new(), next_page_id: 0 };
        assert(store.pages() =~= Map::<u64, PageView>::empty());
        store
    }

    fn get_page(&self, page_id: u64) -> (page: Option<PiecePage>)
        ensures
            match page {
                Some(found) => self.pages().contains_key(page_id) && self.pages()[page_id]
                    == found@,
                None => !self.pages().contains_key(page_id),
            },
    {
        match self.pages.get(&page_id) {
            Some(page) => Some(page.copy()),
            None => None,
        }
    }

    fn alloc_page(&mut self, page: PiecePage, total_bytes: usize, total_line_breaks: usize) -> (child:
        ChildRef)
        requires
            old(self).wf(),
            old(self).last_page_id() < u64::MAX,
        ensures
            final(self).wf(),
            final(self).last_page_id() == old(self).last_page_id() + 1,
            child == (ChildRef {
                page_id: final(self).last_page_id(),
                total_bytes,
                total_line_breaks,
            }),
            final(self).pages() == old(self).pages().insert(child.page_id, page@),
    {
        self.next_page_id = self.next_page_id.saturating_add(1);
        let page_id: u64 = self.next_page_id;
        let ghost view = page@;
        self.pages.insert(page_id, page);
        assert(self.pages() =~= old(self).pages().insert(page_id, view));
        ChildRef { page_id, total_bytes, total_line_breaks }
    }
}

/// The session that a log stores for a source: the undo history, the current place in it,
/// the add buffer and what was known of the text.
pub struct StoredSession {
    pub history: Seq<RootEntry>,
    pub history_index: nat,
    pub add: Seq<u8>,
    pub meta: SessionMeta,
}

/// `true` where the log was written for exactly this state of the source.
pub open spec fn header_matches(header: EditLogHeader, source: SourceMetadata) -> bool {
    header.source_len == source.len && header.source_mtime_ns == source.mtime_ns
        && header.source_fingerprint == source.fingerprint
}

/// What opening `log` for `source` yields. A log of another state of the source and a log
/// without history yield nothing.
pub open spec fn opened_session(log: Seq<u8>, source: SourceMetadata) -> Result<
    Option<StoredSession>,
    EditLogError,
> {
    match parsed_header(log) {
        Err(err) => Err(err),
        Ok(header) => if !header_matches(header, source) {
            Ok(None)
        } else {
            match history_entries(
                log,
                header.history_first_page_id,
                (header.history_page_count as usize) as nat,
                (header.history_len as usize) as nat,
            ) {
                Err(err) => Err(err),
                Ok(history) => if history.len() == 0 {
                    Ok(None)
                } else {
                    match add_bytes(
                        log,
                        header.add_first_page_id,
                        (header.add_page_count as usize) as nat,
                        (header.add_len as usize) as nat,
                    ) {
                        Err(err) => Err(err),
                        Ok(add) => Ok(
                            Some(
                                StoredSession {
                                    history,
                                    history_index: if (header.history_index as usize)
                                        < history.len() {
                                        (header.history_index as usize) as nat
                                    } else {
                                        (history.len() - 1) as nat
                                    },
                                    add,
                                    meta: SessionMeta {
                                        known_byte_len: header.known_byte_len as usize,
                                        full_index: header.flags % 2 == 1,
                                    },
                                },
                            ),
                        ),
                    }
                },
            }
        },
    }
}

/// A log is taken up only for the very state of the source that it was written for: the same
/// length, the same time of its last change and the same content. What is taken up has a
/// current state.
pub proof fn law_log_belongs_to_source(log: Seq<u8>, source: SourceMetadata)
    requires
        parsed_header(log) is Ok,
    ensures
        ({
            let header = parsed_header(log)->Ok_0;
            let opened = opened_session(log, source);
            &&& header.source_len != source.len || header.source_mtime_ns != source.mtime_ns
                || header.source_fingerprint != source.fingerprint ==> opened == Ok::<
                Option<StoredSession>,
                EditLogError,
            >(None)
            &&& opened is Ok && opened->Ok_0 is Some ==> {
                let session = opened->Ok_0->Some_0;
                &&& session.history_index < session.history.len()
                &&& header.history_index < session.history.len() && header.history_index
                    <= usize::MAX ==> session.history_index == header.history_index
                &&& header.known_byte_len <= usize::MAX ==> session.meta.known_byte_len
                    == header.known_byte_len
            }
        }),
{
}

/// Pages that are appended to an edit log. `log` holds what the log file holds; whoever owns
/// the file writes appended bytes behind the ones it wrote before, and the header over the
/// old one. Pages that could not be appended stay resident.
#[derive(Debug)]
pub struct DiskPageStore {
    source: SourceMetadata,
    log: Vec<u8>,
    writable: bool,
    cache: PageCache,
    resident_pages: HashMap<u64, PiecePage>,
    next_page_id: u64,
    persistence_failed: bool,
}

/// `log` with its first bytes replaced by `head`.
pub open spec fn with_header(log: Seq<u8>, head: Seq<u8>) -> Seq<u8> {
    head + log.skip(EDITLOG_HEADER_BYTES as int)
}

impl DiskPageStore {
    pub closed spec fn log(self) -> Seq<u8> {
        self.log@
    }

    pub closed spec fn source(self) -> SourceMetadata {
        self.source
    }

    /// `true` where the log file can be written.
    pub closed spec fn writable(self) -> bool {
        self.writable
    }

    pub closed spec fn failed(self) -> bool {
        self.persistence_failed
    }

    /// The pages that could not be appended.
    pub closed spec fn resident(self) -> Map<u64, PageView> {
        page_views(self.resident_pages@)
    }

    pub closed spec fn last_page_id(self) -> u64 {
        self.next_page_id
    }

    /// The page that a number leads to.
    pub open spec fn found(self, page_id: u64) -> Option<PageView> {
        if self.resident().contains_key(page_id) {
            Some(self.resident()[page_id])
        } else {
            match piece_page(self.log(), page_id) {
                Ok(page) => Some(page),
                Err(_) => None,
            }
        }
    }

    pub open spec fn pages(self) -> Map<u64, PageView> {
        Map::new(
            |id: u64| 1 <= id <= self.last_page_id() && self.found(id) is Some,
            |id: u64| self.found(id)->Some_0,
        )
    }

    /// `true` where the next page that is appended gets the offset of its number.
    pub open spec fn aligned(self) -> bool {
        self.log().len() == EDITLOG_HEADER_BYTES + self.last_page_id() * EDITLOG_PAGE_SIZE
    }

    /// The cache agrees with the log.
    pub closed spec fn wf(self) -> bool {
        &&& self.cache.wf()
        &&& self.log@.len() >= EDITLOG_HEADER_BYTES
        &&& forall|id: u64| #[trigger]
            self.cache.contents().contains_key(id) ==> 1 <= id <= self.next_page_id && self.found(
                id,
            ) == Some(self.cache.contents()[id])
        &&& forall|id: u64| #[trigger]
            self.resident().contains_key(id) ==> 1 <= id <= self.next_page_id
    }

    /// A store over a fresh log for `source`.
    pub fn create(source: SourceMetadata, committed_at_ns: u64) -> (store: DiskPageStore)
        ensures
            store.wf(),
            store.source() == source,
            store.writable(),
            !store.failed(),
            store.resident() == Map::<u64, PageView>::empty(),
            store.last_page_id() == 0,
            store.aligned(),
            store.pages() == Map::<u64, PageView>::empty(),
            store.log() == header_bytes(
                EditLogHeader {
                    page_count: 0,
                    source_len: 0,
                    source_mtime_ns: 0,
                    source_fingerprint: 0,
                    history_first_page_id: 0,
                    history_page_count: 0,
                    history_len: 0,
                    history_index: 0,
                    add_first_page_id: 0,
                    add_page_count: 0,
                    add_len: 0,
                    known_byte_len: 0,
                    flags: 0,
                },
                committed_at_ns,
            ),
    {
        let header = EditLogHeader::default();
        let log = encode_editlog_header(header, committed_at_ns);
        proof {
            law_header_round_trip(header, committed_at_ns, Seq::empty());
        }
        let store = DiskPageStore {
            source,
            log,
            writable: true,
            cache: PageCache::new(),
            resident_pages: HashMap::new(),
            next_page_id: 0,
            persistence_failed: false,
        };
        assert(store.resident() =~= Map::<u64, PageView>::empty());
        assert(store.pages() =~= Map::<u64, PageView>::empty());
        store
    }

    /// Opens the session that `log` stores for `source`.
    pub fn open(log: Vec<u8>, source: SourceMetadata) -> (result: Result<
        Option<(DiskPageStore, Vec<RootEntry>, usize, Vec<u8>, SessionMeta)>,
        EditLogError,
    >)
        ensures
            match opened_session(log@, source) {
                Err(err) => result is Err && result->Err_0 == err,
                Ok(None) => result is Ok && result->Ok_0 is None,
                Ok(Some(session)) => {
                    &&& result is Ok && result->Ok_0 is Some
                    &&& ({
                        let (store, history, history_index, add, meta) = result->Ok_0->Some_0;
                        &&& store.wf()
                        &&& store.source() == source
                        &&& store.log() == log@
                        &&& store.writable()
                        &&& !store.failed()
                        &&& store.resident() == Map::<u64, PageView>::empty()
                        &&& store.last_page_id() == parsed_header(log@)->Ok_0.page_count
                        &&& history@ == session.history
                        &&& history_index == session.history_index
                        &&& add@ == session.add
                        &&& meta == session.meta
                    })
                },
            },
    {
        let header = match parse_editlog_header(log.as_slice()) {
            Err(err) => return Err(err),
            Ok(header) => header,
        };
        if header.source_len != source.len || header.source_mtime_ns != source.mtime_ns
            || header.source_fingerprint != source.fingerprint {
            return Ok(None);
        }
        let history = match read_history_entries(
            log.as_slice(),
            header.history_first_page_id,
            header.history_page_count as usize,
            header.history_len as usize,
        ) {
            Err(err) => return Err(err),
            Ok(history) => history,
        };
        if history.len() == 0 {
            return Ok(None);
        }
        let wanted: usize = header.history_index as usize;
        let history_index: usize = if wanted < history.len() {
            wanted
        } else {
            history.len() - 1
        };
        let add = match read_add_bytes(
            log.as_slice(),
            header.add_first_page_id,
            header.add_page_count as usize,
            header.add_len as usize,
        ) {
            Err(err) => return Err(err),
            Ok(add) => add,
        };
        let meta = SessionMeta {
            known_byte_len: header.known_byte_len as usize,
            full_index: header.flags % 2 != 0,
        };
        let store = DiskPageStore {
            source,
            log,
            writable: true,
            cache: PageCache::new(),
            resident_pages: HashMap::new(),
            next_page_id: header.page_count,
            persistence_failed: false,
        };
        assert(store.resident() =~= Map::<u64, PageView>::empty());
        Ok(Some((store, history, history_index, add, meta)))
    }

    /// What the log file has to hold.
    pub fn log_bytes(&self) -> (log: &[u8])
        ensures
            log@ == self.log(),
    {
        self.log.as_slice()
    }

    /// Gives up writing the log file: nothing is appended from here on.
    pub fn close_log(&mut self)
        requires
            old(self).wf(),
        ensures
            final(self).wf(),
            !final(self).writable(),
            final(self).log() == old(self).log(),
            final(self).source() == old(self).source(),
            final(self).failed() == old(self).failed(),
            final(self).resident() == old(self).resident(),
            final(self).last_page_id() == old(self).last_page_id(),
            final(self).pages() == old(self).pages(),
    {
        self.writable = false;
        assert forall|id: u64| self.found(id) == old(self).found(id) by {}
        assert(self.pages() =~= old(self).pages());
    }

    /// The page with number `page_id`.
    pub fn get_page(&self, page_id: u64) -> (page: Option<PiecePage>)
        requires
            self.wf(),
        ensures
            match page {
                Some(found) => self.found(page_id) == Some(found@),
                None => self.found(page_id) is None,
            },
    {
        match self.resident_pages.get(&page_id) {
            Some(page) => return Some(page.copy()),
            None => {},
        }
        match self.cache.peek(page_id) {
            Some(page) => return Some(page),
            None => {},
        }
        match read_piece_page(self.log.as_slice(), page_id) {
            Ok(page) => Some(page),
            Err(_) => None,
        }
    }

    /// The page with number `page_id`, kept in the cache as the one used last.
    fn load_page(&mut self, page_id: u64) -> (page: Option<PiecePage>)
        requires
            old(self).wf(),
            1 <= page_id <= old(self).last_page_id(),
        ensures
            final(self).wf(),
            final(self).same_log(*old(self)),
            match page {
                Some(found) => old(self).found(page_id) == Some(found@),
                None => old(self).found(page_id) is None,
            },
    {
        match self.resident_pages.get(&page_id) {
            Some(page) => return Some(page.copy()),
            None => {},
        }
        match self.cache.get(page_id) {
            Some(page) => {
                assert forall|id: u64| self.found(id) == old(self).found(id) by {}
                return Some(page);
            },
            None => {},
        }
        let page = match read_piece_page(self.log.as_slice(), page_id) {
            Ok(page) => page,
            Err(_) => return None,
        };
        self.cache.insert(page_id, page.copy());
        assert forall|id: u64| self.found(id) == old(self).found(id) by {}
        Some(page)
    }

    /// All but the cache is the same.
    pub closed spec fn same_log(self, other: DiskPageStore) -> bool {
        &&& self.source == other.source
        &&& self.log == other.log
        &&& self.writable == other.writable
        &&& self.resident_pages == other.resident_pages
        &&& self.next_page_id == other.next_page_id
        &&& self.persistence_failed == other.persistence_failed
    }

    /// Appends raw bytes behind the log, and tells whether they got the offset of `page_id`.
    fn append(&mut self, page_id: u64, bytes: &[u8]) -> (placed: bool)
        requires
            old(self).log@.len() >= EDITLOG_HEADER_BYTES,
            page_id >= 1,
        ensures
            placed == (old(self).log@.len() == page_offset(page_id)),
            final(self).log@ == old(self).log@ + bytes@,
            final(self).source == old(self).source,
            final(self).writable == old(self).writable,
            final(self).cache == old(self).cache,
            final(self).resident_pages == old(self).resident_pages,
            final(self).next_page_id == old(self).next_page_id,
            final(self).persistence_failed == old(self).persistence_failed,
    {
        let behind: usize = self.log.len() - EDITLOG_HEADER_BYTES;
        let placed = behind % EDITLOG_PAGE_SIZE == 0 && (behind / EDITLOG_PAGE_SIZE) as u64
            == page_id - 1;
        push_bytes(&mut self.log, bytes);
        placed
    }

    fn write_page(&mut self, page_id: u64, page: &PiecePage) -> (result: Result<(), EditLogError>)
        requires
            old(self).log@.len() >= EDITLOG_HEADER_BYTES,
            page_id >= 1,
        ensures
            result == (if !old(self).writable {
                Err::<(), EditLogError>(EditLogError::MissingHandle)
            } else if !page_fits(page@) {
                Err::<(), EditLogError>(EditLogError::PageTooLarge)
            } else if old(self).log@.len() != page_offset(page_id) {
                Err::<(), EditLogError>(EditLogError::AppendOrder)
            } else {
                Ok::<(), EditLogError>(())
            }),
            final(self).log@ == old(self).log@ + (if old(self).writable && page_fits(page@) {
                piece_page_bytes(page@)
            } else {
                Seq::empty()
            }),
            final(self).source == old(self).source,
            final(self).writable == old(self).writable,
            final(self).cache == old(self).cache,
            final(self).resident_pages == old(self).resident_pages,
            final(self).next_page_id == old(self).next_page_id,
            final(self).persistence_failed == old(self).persistence_failed,
    {
        assert(self.log@ + Seq::<u8>::empty() =~= self.log@);
        if !self.writable {
            return Err(EditLogError::MissingHandle);
        }
        let bytes = match serialize_page(page) {
            Err(err) => return Err(err),
            Ok(bytes) => bytes,
        };
        if self.append(page_id, bytes.as_slice()) {
            Ok(())
        } else {
            Err(EditLogError::AppendOrder)
        }
    }

    /// Adds a page under the next number. A page that cannot be appended at its place stays
    /// resident, and ends persistence.
    fn alloc_page(&mut self, page: PiecePage, total_bytes: usize, total_line_breaks: usize) -> (child:
        ChildRef)
        requires
            old(self).wf(),
            old(self).last_page_id() < u64::MAX,
        ensures
            final(self).wf(),
            final(self).source() == old(self).source(),
            final(self).writable() == old(self).writable(),
            final(self).last_page_id() == old(self).last_page_id() + 1,
            child == (ChildRef {
                page_id: final(self).last_page_id(),
                total_bytes,
                total_line_breaks,
            }),
            old(self).pages().submap_of(final(self).pages()),
            final(self).pages().contains_key(child.page_id),
            final(self).pages()[child.page_id] == page@,
            ({
                let kept = !old(self).failed() && old(self).writable() && page_fits(page@)
                    && old(self).aligned();
                &&& final(self).failed() == !kept
                &&& kept ==> final(self).log() == old(self).log() + piece_page_bytes(page@)
                    && final(self).resident() == old(self).resident() && final(self).aligned()
                &&& !kept ==> final(self).resident() == old(self).resident().insert(
                    child.page_id,
                    page@,
                )
            }),
    {
        self.next_page_id = self.next_page_id.saturating_add(1);
        let page_id: u64 = self.next_page_id;
        let ghost start = *old(self);
        let written = if self.persistence_failed {
            false
        } else {
            match self.write_page(page_id, &page) {
                Ok(()) => true,
                Err(_) => false,
            }
        };
        let ghost log_after = self.log@;
        if !written {
            self.persistence_failed = true;
            self.resident_pages.insert(page_id, page.copy());
        }
        proof {
            law_if_fits(page@);
            assert(start.log@ == log_after.take(start.log@.len() as int)) by {
                assert(start.log@ =~= log_after.take(start.log@.len() as int));
            }
            assert forall|id: u64| start.pages().contains_key(id) implies self.found(id)
                == start.found(id) by {
                assert(id != page_id);
                lemma_log_grows(start.log@, log_after, id);
                assert(self.resident().contains_key(id) == start.resident().contains_key(id));
            }
            if written {
                assert(log_page(log_after, page_id) == Some(piece_page_bytes(page@))) by {
                    let at = page_offset(page_id);
                    assert(log_after.subrange(at, at + EDITLOG_PAGE_SIZE) =~= piece_page_bytes(
                        page@,
                    ));
                }
                assert(!self.resident().contains_key(page_id));
            }
            assert(self.found(page_id) == Some(page@));
            assert(written ==> self.resident() =~= start.resident());
            assert(!written ==> self.resident() =~= start.resident().insert(page_id, page@));
            assert forall|id: u64| #[trigger]
                self.cache.contents().contains_key(id) implies self.found(id) == Some(
                self.cache.contents()[id],
            ) && 1 <= id <= self.next_page_id by {
                assert(start.cache.contents().contains_key(id));
                assert(start.pages().contains_key(id));
            }
        }
        let ghost mid = *self;
        let ghost view = page@;
        self.cache.insert(page_id, page);
        proof {
            assert forall|id: u64| self.found(id) == mid.found(id) by {}
            assert forall|id: u64| start.pages().contains_key(id) implies self.pages().contains_key(
                id,
            ) && self.pages()[id] == start.pages()[id] by {
                assert(mid.found(id) == start.found(id));
            }
            assert forall|id: u64| #[trigger]
                self.cache.contents().contains_key(id) implies self.found(id) == Some(
                self.cache.contents()[id],
            ) && 1 <= id <= self.next_page_id by {
                if id != page_id {
                    assert(mid.cache.contents().contains_key(id));
                }
            }
        }
        ChildRef { page_id, total_bytes, total_line_breaks }
    }
}

proof fn law_if_fits(page: PageView)
    ensures
        page_fits(page) ==> piece_page_bytes(page).len() == EDITLOG_PAGE_SIZE
            && crate::editlog::parsed_page(piece_page_bytes(page)) == Ok::<PageView, EditLogError>(
            page,
        ),
{
    if page_fits(page) {
        law_piece_page_round_trip(page);
    }
}

/// A page that a log holds is still there when the log has grown.
proof fn lemma_log_grows(log: Seq<u8>, longer: Seq<u8>, page_id: u64)
    requires
        log.len() <= longer.len(),
        log == longer.take(log.len() as int),
    ensures
        log_page(log, page_id) is Some ==> log_page(longer, page_id) == log_page(log, page_id),
        piece_page(log, page_id) is Ok ==> piece_page(longer, page_id) == piece_page(log, page_id),
{
    let at = page_offset(page_id);
    if log_page(log, page_id) is Some {
        assert(log.subrange(at, at + EDITLOG_PAGE_SIZE) =~= longer.subrange(
            at,
            at + EDITLOG_PAGE_SIZE,
        ));
    }
}

/// The first `n` history pages are in the log.
#[verifier::opaque]
spec fn history_stored_up_to(log: Seq<u8>, first: u64, content: Seq<RootEntry>, n: nat) -> bool {
    forall|k: nat|
        k < n ==> #[trigger] log_page(log, nth_page_id(first, k)) == Some(
            history_page_bytes(history_chunk(content, k)),
        )
}

proof fn lemma_history_stored(
    before: DiskPageStore,
    after: DiskPageStore,
    first: u64,
    content: Seq<RootEntry>,
    n: nat,
)
    requires
        before.wf(),
        after.grown_from(before),
        history_stored_up_to(before.log(), first, content, n),
        log_page(after.log(), nth_page_id(first, n)) == Some(
            history_page_bytes(history_chunk(content, n)),
        ),
    ensures
        history_stored_up_to(after.log(), first, content, n + 1),
{
    reveal(history_stored_up_to);
    after.lemma_grown(before);
    assert forall|k: nat| k < n + 1 implies #[trigger] log_page(after.log(), nth_page_id(first, k))
        == Some(history_page_bytes(history_chunk(content, k))) by {
        if k < n {
            assert(log_page(before.log(), nth_page_id(first, k)) is Some);
        }
    }
}

/// The first `n` add pages are in the log.
#[verifier::opaque]
spec fn add_stored_up_to(log: Seq<u8>, first: u64, content: Seq<u8>, n: nat) -> bool {
    forall|k: nat|
        k < n ==> #[trigger] log_page(log, nth_page_id(first, k)) == Some(
            add_page_bytes(add_chunk(content, k)),
        )
}

proof fn lemma_add_stored(
    before: DiskPageStore,
    after: DiskPageStore,
    first: u64,
    content: Seq<u8>,
    n: nat,
)
    requires
        before.wf(),
        after.grown_from(before),
        add_stored_up_to(before.log(), first, content, n),
        log_page(after.log(), nth_page_id(first, n)) == Some(
            add_page_bytes(add_chunk(content, n)),
        ),
    ensures
        add_stored_up_to(after.log(), first, content, n + 1),
{
    reveal(add_stored_up_to);
    after.lemma_grown(before);
    assert forall|k: nat| k < n + 1 implies #[trigger] log_page(after.log(), nth_page_id(first, k))
        == Some(add_page_bytes(add_chunk(content, k))) by {
        if k < n {
            assert(log_page(before.log(), nth_page_id(first, k)) is Some);
        }
    }
}

/// What has grown twice has grown.
proof fn lemma_grown_twice(a: DiskPageStore, b: DiskPageStore, c: DiskPageStore)
    requires
        b.grown_from(a),
        c.grown_from(b),
    ensures
        c.grown_from(a),
{
    assert(a.log@ =~= c.log@.take(a.log@.len() as int));
}

impl DiskPageStore {
    /// All but the length of the log and the page count is the same, and nothing of the log
    /// is lost.
    pub closed spec fn grown_from(self, other: DiskPageStore) -> bool {
        &&& self.source == other.source
        &&& self.writable == other.writable
        &&& self.cache == other.cache
        &&& self.resident_pages == other.resident_pages
        &&& self.persistence_failed == other.persistence_failed
        &&& self.next_page_id >= other.next_page_id
        &&& self.log@.len() >= other.log@.len()
        &&& other.log@ == self.log@.take(other.log@.len() as int)
    }

    /// A grown log still leads to every page, so the store stays sound.
    proof fn lemma_grown(self, other: DiskPageStore)
        requires
            other.wf(),
            self.grown_from(other),
        ensures
            self.wf(),
            other.pages().submap_of(self.pages()),
            forall|id: u64|
                log_page(other.log@, id) is Some ==> #[trigger] log_page(self.log@, id) == log_page(
                    other.log@,
                    id,
                ),
    {
        assert forall|id: u64| other.found(id) is Some implies self.found(id) == other.found(
            id,
        ) by {
            lemma_log_grows(other.log@, self.log@, id);
        }
        assert forall|id: u64|
            log_page(other.log@, id) is Some implies #[trigger] log_page(self.log@, id) == log_page(
            other.log@,
            id,
        ) by {
            lemma_log_grows(other.log@, self.log@, id);
        }
        assert forall|id: u64| other.pages().contains_key(id) implies self.pages().contains_key(id)
            && self.pages()[id] == other.pages()[id] by {
            assert(self.found(id) == other.found(id));
        }
    }

    fn write_raw_page(&mut self, bytes: &[u8]) -> (result: Result<u64, EditLogError>)
        requires
            old(self).wf(),
            old(self).last_page_id() < u64::MAX,
            bytes@.len() == EDITLOG_PAGE_SIZE,
        ensures
            final(self).wf(),
            final(self).grown_from(*old(self)),
            !old(self).writable() ==> {
                &&& result == Err::<u64, EditLogError>(EditLogError::MissingHandle)
                &&& final(self).last_page_id() == old(self).last_page_id()
                &&& final(self).log() == old(self).log()
            },
            old(self).writable() ==> {
                &&& final(self).last_page_id() == old(self).last_page_id() + 1
                &&& final(self).log() == old(self).log() + bytes@
                &&& result == (if old(self).aligned() {
                    Ok::<u64, EditLogError>(final(self).last_page_id())
                } else {
                    Err::<u64, EditLogError>(EditLogError::AppendOrder)
                })
                &&& final(self).aligned() == old(self).aligned()
                &&& old(self).aligned() ==> log_page(final(self).log(), final(self).last_page_id())
                    == Some(bytes@)
            },
    {
        assert(self.log@.take(self.log@.len() as int) =~= self.log@);
        if !self.writable {
            proof {
                self.lemma_grown(*old(self));
            }
            return Err(EditLogError::MissingHandle);
        }
        self.next_page_id = self.next_page_id.saturating_add(1);
        let page_id: u64 = self.next_page_id;
        let placed = self.append(page_id, bytes);
        proof {
            assert(self.log@.take(old(self).log@.len() as int) =~= old(self).log@);
            self.lemma_grown(*old(self));
            if placed {
                let at = page_offset(page_id);
                assert(self.log@.subrange(at, at + EDITLOG_PAGE_SIZE) =~= bytes@);
            }
        }
        if placed {
            Ok(page_id)
        } else {
            Err(EditLogError::AppendOrder)
        }
    }

    fn write_history_pages(&mut self, history: &[RootEntry]) -> (result: Result<
        (u64, usize),
        EditLogError,
    >)
        requires
            old(self).wf(),
            old(self).last_page_id() + history_chunks(history@.len()) <= u64::MAX,
        ensures
            final(self).wf(),
            final(self).grown_from(*old(self)),
            final(self).last_page_id() <= old(self).last_page_id() + history_chunks(history@.len()),
            history@.len() == 0 ==> result == Ok::<(u64, usize), EditLogError>((0, 0))
                && *final(self) == *old(self),
            history@.len() > 0 && !old(self).writable() ==> result == Err::<
                (u64, usize),
                EditLogError,
            >(EditLogError::MissingHandle),
            history@.len() > 0 && old(self).writable() && !old(self).aligned() ==> result == Err::<
                (u64, usize),
                EditLogError,
            >(EditLogError::AppendOrder),
            history@.len() > 0 && old(self).writable() && old(self).aligned() ==> {
                &&& result is Ok
                &&& result->Ok_0.0 == old(self).last_page_id() + 1
                &&& result->Ok_0.1 == history_chunks(history@.len())
                &&& final(self).last_page_id() == old(self).last_page_id() + result->Ok_0.1
                &&& final(self).aligned()
                &&& stores_history(final(self).log(), result->Ok_0.0, history@)
            },
    {
        assert(self.log@.take(self.log@.len() as int) =~= self.log@);
        if history.len() == 0 {
            proof {
                self.lemma_grown(*old(self));
            }
            return Ok((0, 0));
        }
        let first_page_id: u64 = self.next_page_id.saturating_add(1);
        let mut written: usize = 0;
        let mut at: usize = 0;
        let ghost start = *old(self);
        proof {
            reveal(history_stored_up_to);
        }
        while at < history.len()
            invariant
                start.wf(),
                self.wf(),
                self.grown_from(start),
                at <= history@.len(),
                at < history@.len() ==> at == 127 * written,
                at == history@.len() ==> written == history_chunks(history@.len()),
                history@.len() > 0,
                start.last_page_id() + history_chunks(history@.len()) <= u64::MAX,
                first_page_id == start.last_page_id() + 1,
                self.last_page_id() == start.last_page_id() + written,
                written > 0 ==> start.writable() && start.aligned(),
                self.aligned() == start.aligned(),
                start == *old(self),
                history_stored_up_to(self.log(), first_page_id, history@, written as nat),
            decreases history@.len() - at,
        {
            let rest: usize = history.len() - at;
            let end: usize = if rest > history_page_capacity() {
                at + history_page_capacity()
            } else {
                history.len()
            };
            let chunk = vstd::slice::slice_subrange(history, at, end);
            proof {
                assert(chunk@ == history_chunk(history@, written as nat));
                law_history_page_round_trip(chunk@);
            }
            let bytes = match serialize_history_page(chunk) {
                Err(err) => return Err(err),
                Ok(bytes) => bytes,
            };
            let ghost before = *self;
            let outcome = self.write_raw_page(bytes.as_slice());
            proof {
                lemma_grown_twice(start, before, *self);
            }
            match outcome {
                Err(err) => return Err(err),
                Ok(page_id) => {
                    proof {
                        assert(nth_page_id(first_page_id, written as nat) == page_id);
                        lemma_history_stored(before, *self, first_page_id, history@, written as nat);
                    }
                },
            }
            written = written + 1;
            at = end;
        }
        proof {
            reveal(history_stored_up_to);
        }
        Ok((first_page_id, written))
    }

    fn write_add_pages(&mut self, bytes: &[u8]) -> (result: Result<(u64, usize), EditLogError>)
        requires
            old(self).wf(),
            old(self).last_page_id() + add_chunks(bytes@.len()) <= u64::MAX,
        ensures
            final(self).wf(),
            final(self).grown_from(*old(self)),
            final(self).last_page_id() <= old(self).last_page_id() + add_chunks(bytes@.len()),
            bytes@.len() == 0 ==> result == Ok::<(u64, usize), EditLogError>((0, 0))
                && *final(self) == *old(self),
            bytes@.len() > 0 && !old(self).writable() ==> result == Err::<
                (u64, usize),
                EditLogError,
            >(EditLogError::MissingHandle),
            bytes@.len() > 0 && old(self).writable() && !old(self).aligned() ==> result == Err::<
                (u64, usize),
                EditLogError,
            >(EditLogError::AppendOrder),
            bytes@.len() > 0 && old(self).writable() && old(self).aligned() ==> {
                &&& result is Ok
                &&& result->Ok_0.0 == old(self).last_page_id() + 1
                &&& result->Ok_0.1 == add_chunks(bytes@.len())
                &&& final(self).last_page_id() == old(self).last_page_id() + result->Ok_0.1
                &&& final(self).aligned()
                &&& stores_add(final(self).log(), result->Ok_0.0, bytes@)
            },
    {
        assert(self.log@.take(self.log@.len() as int) =~= self.log@);
        if bytes.len() == 0 {
            proof {
                self.lemma_grown(*old(self));
            }
            return Ok((0, 0));
        }
        let first_page_id: u64 = self.next_page_id.saturating_add(1);
        let mut written: usize = 0;
        let mut at: usize = 0;
        let ghost start = *old(self);
        proof {
            reveal(add_stored_up_to);
        }
        while at < bytes.len()
            invariant
                start.wf(),
                self.wf(),
                self.grown_from(start),
                at <= bytes@.len(),
                at < bytes@.len() ==> at == 4072 * written,
                at == bytes@.len() ==> written == add_chunks(bytes@.len()),
                bytes@.len() > 0,
                start.last_page_id() + add_chunks(bytes@.len()) <= u64::MAX,
                first_page_id == start.last_page_id() + 1,
                self.last_page_id() == start.last_page_id() + written,
                written > 0 ==> start.writable() && start.aligned(),
                self.aligned() == start.aligned(),
                start == *old(self),
                add_stored_up_to(self.log(), first_page_id, bytes@, written as nat),
            decreases bytes@.len() - at,
        {
            let rest: usize = bytes.len() - at;
            let end: usize = if rest > add_page_capacity() {
                at + add_page_capacity()
            } else {
                bytes.len()
            };
            let chunk = vstd::slice::slice_subrange(bytes, at, end);
            proof {
                assert(chunk@ == add_chunk(bytes@, written as nat));
                law_add_page_round_trip(chunk@);
            }
            let page = match serialize_add_page(chunk) {
                Err(err) => return Err(err),
                Ok(page) => page,
            };
            let ghost before = *self;
            let outcome = self.write_raw_page(page.as_slice());
            proof {
                lemma_grown_twice(start, before, *self);
            }
            match outcome {
                Err(err) => return Err(err),
                Ok(page_id) => {
                    proof {
                        assert(nth_page_id(first_page_id, written as nat) == page_id);
                        lemma_add_stored(before, *self, first_page_id, bytes@, written as nat);
                    }
                },
            }
            written = written + 1;
            at = end;
        }
        proof {
            reveal(add_stored_up_to);
        }
        Ok((first_page_id, written))
    }

    fn write_header(&mut self, header: EditLogHeader, committed_at_ns: u64)
        requires
            old(self).wf(),
        ensures
            final(self).wf(),
            final(self).log() == with_header(old(self).log(), header_bytes(header, committed_at_ns)),
            final(self).pages() == old(self).pages(),
            final(self).source() == old(self).source(),
            final(self).writable() == old(self).writable(),
            final(self).failed() == old(self).failed(),
            final(self).resident() == old(self).resident(),
            final(self).last_page_id() == old(self).last_page_id(),
    {
        let head = encode_editlog_header(header, committed_at_ns);
        proof {
            law_header_round_trip(header, committed_at_ns, Seq::empty());
        }
        let mut i: usize = 0;
        let ghost start = *self;
        assert(self.log@ =~= head@.take(0) + start.log@.skip(0));
        while i < EDITLOG_HEADER_BYTES
            invariant
                i <= EDITLOG_HEADER_BYTES == head@.len(),
                start.log@.len() >= EDITLOG_HEADER_BYTES,
                self.log@ == head@.take(i as int) + start.log@.skip(i as int),
                self.source == start.source,
                self.writable == start.writable,
                self.cache == start.cache,
                self.resident_pages == start.resident_pages,
                self.next_page_id == start.next_page_id,
                self.persistence_failed == start.persistence_failed,
            decreases EDITLOG_HEADER_BYTES - i,
        {
            self.log[i] = head[i];
            i = i + 1;
            assert(self.log@ =~= head@.take(i as int) + start.log@.skip(i as int));
        }
        proof {
            assert(head@.take(i as int) =~= head@);
            assert forall|id: u64| log_page(self.log@, id) == log_page(start.log@, id) by {
                lemma_header_apart(start.log@, head@, id);
            }
            assert forall|id: u64| self.found(id) == start.found(id) by {
                lemma_header_apart(start.log@, head@, id);
            }
            assert(self.pages() =~= start.pages());
        }
    }

    /// Stores the session: the history, the add buffer, then a header that leads to them.
    pub fn flush_session(
        &mut self,
        history: &[RootEntry],
        history_index: usize,
        add: &[u8],
        meta: SessionMeta,
        committed_at_ns: u64,
    ) -> (result: Result<(), EditLogError>)
        requires
            old(self).wf(),
            history_index < history@.len(),
            old(self).last_page_id() + history_chunks(history@.len()) + add_chunks(add@.len())
                <= u64::MAX,
        ensures
            final(self).wf(),
            result == (if old(self).failed() || old(self).resident().len() > 0 {
                Err::<(), EditLogError>(EditLogError::PersistenceUnavailable)
            } else if !old(self).writable() {
                Err::<(), EditLogError>(EditLogError::MissingHandle)
            } else if !old(self).aligned() {
                Err::<(), EditLogError>(EditLogError::AppendOrder)
            } else {
                Ok::<(), EditLogError>(())
            }),
            final(self).failed() == (old(self).failed() || old(self).resident().len() > 0),
            final(self).source() == old(self).source(),
            final(self).writable() == old(self).writable(),
            final(self).resident() == old(self).resident(),
            final(self).last_page_id() <= old(self).last_page_id() + history_chunks(history@.len())
                + add_chunks(add@.len()),
            old(self).pages().submap_of(final(self).pages()),
            result is Ok ==> {
                &&& final(self).aligned()
                &&& parsed_header(final(self).log()) is Ok
                &&& parsed_header(final(self).log())->Ok_0.page_count
                    == final(self).last_page_id()
                &&& committed_at(final(self).log(), committed_at_ns)
                &&& opened_session(final(self).log(), final(self).source()) == Ok::<
                    Option<StoredSession>,
                    EditLogError,
                >(
                    Some(
                        StoredSession {
                            history: history@,
                            history_index: history_index as nat,
                            add: add@,
                            meta,
                        },
                    ),
                )
            },
    {
        let ghost start = *self;
        proof {
            assert(self.resident().dom() =~= self.resident_pages@.dom());
            assert(self.resident().len() == self.resident_pages@.len());
        }
        if self.persistence_failed || self.resident_pages.len() > 0 {
            self.persistence_failed = true;
            assert forall|id: u64| self.found(id) == start.found(id) by {}
            assert(self.pages() =~= start.pages());
            return Err(EditLogError::PersistenceUnavailable);
        }
        let (history_first_page_id, history_page_count) = match self.write_history_pages(history) {
            Err(err) => {
                proof {
                    self.lemma_grown(start);
                }
                return Err(err);
            },
            Ok(placed) => placed,
        };
        let ghost mid = *self;
        proof {
            self.lemma_grown(start);
        }
        let (add_first_page_id, add_page_count) = match self.write_add_pages(add) {
            Err(err) => return Err(err),
            Ok(placed) => placed,
        };
        proof {
            self.lemma_grown(mid);
            assert(start.pages().submap_of(self.pages()));
            assert(stores_history(self.log(), history_first_page_id, history@)) by {
                assert forall|k: nat| k < history_chunks(history@.len()) implies #[trigger] log_page(
                    self.log(),
                    nth_page_id(history_first_page_id, k),
                ) == Some(history_page_bytes(history_chunk(history@, k))) by {
                    assert(log_page(mid.log(), nth_page_id(history_first_page_id, k)) is Some);
                }
            }
        }
        let header = EditLogHeader {
            page_count: self.next_page_id,
            source_len: self.source.len,
            source_mtime_ns: self.source.mtime_ns,
            source_fingerprint: self.source.fingerprint,
            history_first_page_id,
            history_page_count: history_page_count as u64,
            history_len: history.len() as u64,
            history_index: history_index as u64,
            add_first_page_id,
            add_page_count: add_page_count as u64,
            add_len: add.len() as u64,
            known_byte_len: meta.known_byte_len as u64,
            flags: if meta.full_index {
                1
            } else {
                0
            },
        };
        let ghost before = *self;
        self.write_header(header, committed_at_ns);
        proof {
            let head = header_bytes(header, committed_at_ns);
            law_header_round_trip(
                header,
                committed_at_ns,
                before.log().skip(EDITLOG_HEADER_BYTES as int),
            );
            assert forall|id: u64| #[trigger]
                log_page(self.log(), id) == log_page(before.log(), id) by {
                lemma_header_apart(before.log(), head, id);
            }
            assert(stores_history(self.log(), history_first_page_id, history@));
            law_history_round_trip(self.log(), history_first_page_id, history@);
            if add@.len() > 0 {
                assert(stores_add(self.log(), add_first_page_id, add@));
                law_add_round_trip(self.log(), add_first_page_id, add@);
            } else {
                assert(add@ =~= Seq::empty());
            }
        }
        Ok(())
    }
}

/// The header lies in front of every page.
proof fn lemma_header_apart(log: Seq<u8>, head: Seq<u8>, page_id: u64)
    requires
        log.len() >= EDITLOG_HEADER_BYTES,
        head.len() == EDITLOG_HEADER_BYTES,
    ensures
        log_page(with_header(log, head), page_id) == log_page(log, page_id),
        piece_page(with_header(log, head), page_id) == piece_page(log, page_id),
{
    let at = page_offset(page_id);
    assert(with_header(log, head).len() == log.len());
    if at + EDITLOG_PAGE_SIZE <= log.len() {
        assert(with_header(log, head).subrange(at, at + EDITLOG_PAGE_SIZE) =~= log.subrange(
            at,
            at + EDITLOG_PAGE_SIZE,
        ));
    }
}

/// The pages of a piece tree.
#[derive(Debug)]
pub enum PageStore {
    InMemory(InMemoryPageStore),
    Disk(DiskPageStore),
}

impl PageStore {
    pub open spec fn pages(self) -> Map<u64, PageView> {
        match self {
            PageStore::InMemory(store) => store.pages(),
            PageStore::Disk(store) => store.pages(),
        }
    }

    /// The number of the page allocated last.
    pub open spec fn last_page_id(self) -> u64 {
        match self {
            PageStore::InMemory(store) => store.last_page_id(),
            PageStore::Disk(store) => store.last_page_id(),
        }
    }

    pub open spec fn wf(self) -> bool {
        match self {
            PageStore::InMemory(store) => store.wf(),
            PageStore::Disk(store) => store.wf(),
        }
    }

    /// `true` where every page is in a log that can be written further.
    pub open spec fn recoverable(self) -> bool {
        match self {
            PageStore::InMemory(_) => false,
            PageStore::Disk(store) => !store.failed() && store.writable() && store.aligned()
                && store.resident() == Map::<u64, PageView>::empty(),
        }
    }

    /// Pages were added, and nothing else changed but the cache.
    pub open spec fn extends(self, other: PageStore) -> bool {
        &&& self.wf()
        &&& other.pages().submap_of(self.pages())
        &&& other.last_page_id() <= self.last_page_id()
        &&& (self is InMemory) == (other is InMemory)
        &&& other.recoverable() ==> self.recoverable()
        &&& self is Disk ==> self->Disk_0.source() == other->Disk_0.source()
            && self->Disk_0.writable() == other->Disk_0.writable()
    }

    /// Adding pages in two steps is adding pages.
    pub proof fn lemma_extends(self, mid: PageStore, first: PageStore)
        requires
            self.extends(mid),
            mid.extends(first),
        ensures
            self.extends(first),
    {
        assert(first.pages().submap_of(self.pages())) by {
            assert forall|id: u64| #[trigger]
                first.pages().dom().contains(id) implies self.pages().dom().contains(id)
                && self.pages()[id] == first.pages()[id] by {
                assert(mid.pages().dom().contains(id));
                assert(mid.pages()[id] == first.pages()[id]);
                assert(self.pages().dom().contains(id));
            }
        }
    }

    pub proof fn lemma_page_ids(self)
        requires
            self.wf(),
        ensures
            forall|id: u64| #[trigger]
                self.pages().contains_key(id) ==> 1 <= id <= self.last_page_id(),
    {
    }

    /// The page with number `page_id`.
    pub fn get_page(&self, page_id: u64) -> (page: Option<PiecePage>)
        requires
            self.wf(),
        ensures
            self.pages().contains_key(page_id) ==> page is Some && page->Some_0@
                == self.pages()[page_id],
            !self.pages().contains_key(page_id) && 1 <= page_id <= self.last_page_id() ==> page
                is None,
    {
        match self {
            PageStore::InMemory(store) => store.get_page(page_id),
            PageStore::Disk(store) => store.get_page(page_id),
        }
    }

    /// The number of the page allocated last.
    pub fn last_id(&self) -> (id: u64)
        ensures
            id == self.last_page_id(),
    {
        match self {
            PageStore::InMemory(store) => store.next_page_id,
            PageStore::Disk(store) => store.next_page_id,
        }
    }

    /// The page with number `page_id`, which counts as used.
    pub fn load_page(&mut self, page_id: u64) -> (page: Option<PiecePage>)
        requires
            old(self).wf(),
            old(self).pages().contains_key(page_id),
        ensures
            final(self).extends(*old(self)),
            final(self).pages() == old(self).pages(),
            final(self).last_page_id() == old(self).last_page_id(),
            page is Some,
            page->Some_0@ == old(self).pages()[page_id],
    {
        match self {
            PageStore::InMemory(store) => store.get_page(page_id),
            PageStore::Disk(store) => {
                let ghost before = *store;
                let page = store.load_page(page_id);
                proof {
                    assert forall|id: u64| store.found(id) == before.found(id) by {}
                    assert(store.pages() =~= before.pages());
                }
                page
            },
        }
    }

    /// Adds a page under the next number.
    pub fn alloc_page(&mut self, page: PiecePage, total_bytes: usize, total_line_breaks: usize) -> (child:
        ChildRef)
        requires
            old(self).wf(),
            old(self).last_page_id() < u64::MAX,
            page_fits(page@),
        ensures
            final(self).extends(*old(self)),
            final(self).last_page_id() == old(self).last_page_id() + 1,
            child == (ChildRef {
                page_id: final(self).last_page_id(),
                total_bytes,
                total_line_breaks,
            }),
            final(self).pages().contains_key(child.page_id),
            final(self).pages()[child.page_id] == page@,
    {
        match self {
            PageStore::InMemory(store) => {
                let ghost before = store.pages();
                let child = store.alloc_page(page, total_bytes, total_line_breaks);
                assert(before.submap_of(store.pages())) by {
                    assert(!before.contains_key(child.page_id));
                }
                child
            },
            PageStore::Disk(store) => store.alloc_page(page, total_bytes, total_line_breaks),
        }
    }
}

} // verus!
