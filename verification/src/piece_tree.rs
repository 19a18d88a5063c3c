//! A persistent B-tree of pieces with an undo history.

use crate::editlog::{ChildRef, EditLogError, PageView, Piece, PiecePage, RootEntry};
use crate::page_store::{
    opened_session, DiskPageStore, InMemoryPageStore, PageStore, SessionMeta, SourceMetadata,
    StoredSession,
};
use crate::session_log::{add_chunks, committed_at, history_chunks, parsed_header};
use crate::tree_model::{
    children_breaks, children_len, chunks, coalesced, cut_in_leaf, cut_in_leaves, deleted_in_leaf,
    deleted_in_leaves, flat, inserted_in_leaf, inserted_in_leaves, joined, leaves_below, leaves_of,
    leaves_ok, lemma_below_bound, lemma_below_concat, lemma_below_one, lemma_children_concat,
    lemma_chunks, lemma_coalesced, lemma_delete_clamp, lemma_delete_concat, lemma_delete_outside,
    lemma_flat_concat, lemma_flat_one, lemma_insert_split, lemma_pieces_ok_sums, lemma_ref_extend,
    lemma_ref_totals, lemma_refs_extend, lemma_refs_totals, lemma_sum_len_concat,
    lemma_sum_len_first, max_int, min_int, nodes_below, nodes_of, opt, outcomes_in_leaf,
    outcomes_in_leaves, outside, piece_ok, pieces_ok, ref_ok, refs_ok, root_leaves, root_nodes,
    root_ok, sat_add, sum_breaks, sum_len, trimmed, Halves, MAX_INTERNAL_CHILDREN, MAX_LEAF_PIECES,
};
use vstd::prelude::*;

verus! {

/// The pieces that are not empty.
pub open spec fn nonempty(pieces: Seq<Piece>) -> Seq<Piece>
    decreases pieces.len(),
{
    if pieces.len() == 0 {
        pieces
    } else if pieces.last().len > 0 {
        nonempty(pieces.drop_last()).push(pieces.last())
    } else {
        nonempty(pieces.drop_last())
    }
}

/// Drops the empty pieces.
pub fn filter_zero_len(pieces: Vec<Piece>) -> (kept: Vec<Piece>)
    ensures
        kept@ == nonempty(pieces@),
{
    let mut kept: Vec<Piece> = Vec::new();
    let mut i: usize = 0;
    assert(pieces@.take(0) =~= Seq::empty());
    while i < pieces.len()
        invariant
            i <= pieces@.len(),
            kept@ == nonempty(pieces@.take(i as int)),
        decreases pieces@.len() - i,
    {
        assert(pieces@.take(i + 1).drop_last() =~= pieces@.take(i as int));
        if pieces[i].len > 0 {
            kept.push(pieces[i]);
        }
        i = i + 1;
    }
    assert(pieces@.take(i as int) =~= pieces@);
    kept
}

/// `true` where `index` is the first child that ends behind `offset`, or the last one.
/// Sums stop at the largest `usize`.
pub open spec fn child_for_offset(
    children: Seq<ChildRef>,
    offset: usize,
    index: int,
    start: usize,
) -> bool {
    &&& 0 <= index < children.len()
    &&& start == min_int(children_len(children.take(index)) as int, usize::MAX as int)
    &&& index + 1 == children.len() || offset < min_int(
        children_len(children.take(index + 1)) as int,
        usize::MAX as int,
    )
    &&& forall|j: int|
        0 < j <= index ==> offset >= min_int(
            children_len(#[trigger] children.take(j)) as int,
            usize::MAX as int,
        )
}

/// The child that holds the byte at `offset`, or the last child, and where it starts.
pub fn child_index_for_offset(children: &[ChildRef], offset: usize) -> (found: (usize, usize))
    ensures
        children@.len() == 0 ==> found == (0usize, 0usize),
        children@.len() > 0 ==> child_for_offset(children@, offset, found.0 as int, found.1),
{
    if children.len() == 0 {
        return (0, 0);
    }
    let mut child_start: usize = 0;
    let mut index: usize = 0;
    assert(children@.take(0) =~= Seq::empty());
    loop
        invariant
            index < children@.len(),
            child_start == min_int(
                children_len(children@.take(index as int)) as int,
                usize::MAX as int,
            ),
            forall|j: int|
                0 < j <= index ==> offset >= min_int(
                    children_len(#[trigger] children@.take(j)) as int,
                    usize::MAX as int,
                ),
        decreases children@.len() - index,
    {
        let child_end: usize = child_start.saturating_add(children[index].total_bytes);
        assert(children@.take(index + 1).drop_last() =~= children@.take(index as int));
        if offset < child_end || index + 1 == children.len() {
            return (index, child_start);
        }
        child_start = child_end;
        index = index + 1;
    }
}

/// Inserts `piece` at `offset` of a leaf, cutting the piece there where it has to.
fn insert_piece_into_leaf<F: Fn(Piece, usize) -> Halves>(
    pieces: &Vec<Piece>,
    offset: usize,
    piece: Piece,
    split_piece: &F,
) -> (result: (Vec<Piece>, Ghost<Halves>))
    requires
        cut_in_leaf(pieces@, offset as int) is Some ==> call_requires(
            *split_piece,
            cut_in_leaf(pieces@, offset as int)->Some_0,
        ),
    ensures
        cut_in_leaf(pieces@, offset as int) is Some ==> call_ensures(
            *split_piece,
            cut_in_leaf(pieces@, offset as int)->Some_0,
            result.1@,
        ),
        result.0@ == inserted_in_leaf(pieces@, offset as int, piece, result.1@),
{
    let mut out: Vec<Piece> = Vec::new();
    let mut halves: Halves = (None, None);
    let mut rest: usize = offset;
    let mut index: usize = 0;
    let ghost goal_cut = cut_in_leaf(pieces@, offset as int);
    assert(pieces@.skip(0) =~= pieces@);
    assert(forall|h: Halves|
        inserted_in_leaf(pieces@, offset as int, piece, h) =~= out@ + #[trigger] inserted_in_leaf(
            pieces@.skip(0),
            rest as int,
            piece,
            h,
        ));
    while index < pieces.len() && rest > pieces[index].len
        invariant
            index <= pieces@.len(),
            goal_cut == cut_in_leaf(pieces@.skip(index as int), rest as int),
            out@ == pieces@.take(index as int),
            forall|h: Halves|
                inserted_in_leaf(pieces@, offset as int, piece, h) == out@ + #[trigger] inserted_in_leaf(
                    pieces@.skip(index as int),
                    rest as int,
                    piece,
                    h,
                ),
        decreases pieces@.len() - index,
    {
        let ghost before = out@;
        let ghost here = pieces@.skip(index as int);
        assert(here.skip(1) =~= pieces@.skip(index + 1));
        out.push(pieces[index]);
        rest = rest - pieces[index].len;
        index = index + 1;
        assert(out@ =~= pieces@.take(index as int));
        assert forall|h: Halves|
            inserted_in_leaf(pieces@, offset as int, piece, h) == out@ + #[trigger] inserted_in_leaf(
                pieces@.skip(index as int),
                rest as int,
                piece,
                h,
            ) by {
            assert(inserted_in_leaf(pieces@, offset as int, piece, h) == before
                + inserted_in_leaf(here, (rest + here[0].len) as int, piece, h));
            assert(before + (seq![here[0]] + inserted_in_leaf(here.skip(1), rest as int, piece, h))
                =~= out@ + inserted_in_leaf(here.skip(1), rest as int, piece, h));
        }
    }
    let ghost here = pieces@.skip(index as int);
    let ghost before = out@;
    if index == pieces.len() {
        out.push(piece);
        assert(out@ =~= before + seq![piece]);
        assert(inserted_in_leaf(here, rest as int, piece, halves) == seq![piece]);
    } else {
        let cur = pieces[index];
        assert(here[0] == cur);
        if rest == 0 {
            out.push(piece);
            out.push(cur);
            assert(out@ =~= before + (seq![piece] + here.take(1)));
        } else if rest >= cur.len {
            out.push(cur);
            out.push(piece);
            assert(out@ =~= before + seq![cur, piece]);
        } else {
            halves = split_piece(cur, rest);
            match halves.0 {
                Some(left) => out.push(left),
                None => {},
            }
            out.push(piece);
            match halves.1 {
                Some(right) => out.push(right),
                None => {},
            }
            assert(out@ =~= before + (opt(halves.0) + seq![piece] + opt(halves.1)));
        }
        let ghost head = out@;
        let mut i: usize = index + 1;
        assert(pieces@.subrange(index + 1, index + 1) =~= Seq::empty());
        assert(out@ =~= head + pieces@.subrange(index + 1, i as int));
        while i < pieces.len()
            invariant
                index + 1 <= i <= pieces@.len(),
                out@ == head + pieces@.subrange(index + 1, i as int),
            decreases pieces@.len() - i,
        {
            out.push(pieces[i]);
            i = i + 1;
            assert(out@ =~= head + pieces@.subrange(index + 1, i as int));
        }
        assert(here.skip(1) =~= pieces@.subrange(index + 1, i as int));
        assert(here.take(1) + here.skip(1) =~= here);
        assert(out@ =~= before + inserted_in_leaf(here, rest as int, piece, halves));
    }
    (out, Ghost(halves))
}

/// Removes `start..end` from a leaf.
fn delete_range_from_leaf<F: Fn(Piece, usize, usize) -> Halves>(
    pieces: &Vec<Piece>,
    start: usize,
    end: usize,
    trim_piece: &F,
) -> (result: (Vec<Piece>, Ghost<Seq<Halves>>))
    requires
        sum_len(pieces@) <= usize::MAX,
        pieces_ok(pieces@),
        start < end,
        forall|i: int, lo: usize, hi: usize|
            0 <= i < pieces@.len() && lo < hi <= pieces@[i].len ==> #[trigger] call_requires(
                *trim_piece,
                (pieces@[i], lo, hi),
            ),
    ensures
        outcomes_in_leaf(*trim_piece, pieces@, start as int, end as int, result.1@),
        result.0@ == deleted_in_leaf(pieces@, start as int, end as int, result.1@),
{
    let mut out: Vec<Piece> = Vec::new();
    let ghost mut outs: Seq<Halves> = Seq::empty();
    let mut acc: usize = 0;
    let mut i: usize = 0;
    assert(pieces@.take(0) =~= Seq::empty());
    while i < pieces.len()
        invariant
            i <= pieces@.len(),
            sum_len(pieces@) <= usize::MAX,
            pieces_ok(pieces@),
            start < end,
            acc == sum_len(pieces@.take(i as int)),
            forall|i: int, lo: usize, hi: usize|
                0 <= i < pieces@.len() && lo < hi <= pieces@[i].len ==> #[trigger] call_requires(
                    *trim_piece,
                    (pieces@[i], lo, hi),
                ),
            outcomes_in_leaf(*trim_piece, pieces@.take(i as int), start as int, end as int, outs),
            out@ == deleted_in_leaf(pieces@.take(i as int), start as int, end as int, outs),
        decreases pieces@.len() - i,
    {
        let piece = pieces[i];
        let ghost before = out@;
        let ghost outs_before = outs;
        proof {
            assert(pieces@.take(i + 1).drop_last() =~= pieces@.take(i as int));
            lemma_sum_len_concat(pieces@.take(i + 1), pieces@.skip(i + 1));
            assert(pieces@.take(i + 1) + pieces@.skip(i + 1) =~= pieces@);
        }
        let piece_end: usize = acc + piece.len;
        if piece_end <= start || acc >= end {
            out.push(piece);
            proof {
                outs = outs.push((None, None));
                assert(out@ =~= before + seq![piece]);
            }
        } else {
            let local_start: usize = start.saturating_sub(acc);
            let local_end: usize = if end <= piece_end {
                end - acc
            } else {
                piece.len
            };
            assert(piece_ok(pieces@[i as int]));
            assert(call_requires(*trim_piece, (pieces@[i as int], local_start, local_end)));
            let (left, right) = trim_piece(piece, local_start, local_end);
            match left {
                Some(left) => out.push(left),
                None => {},
            }
            match right {
                Some(right) => out.push(right),
                None => {},
            }
            proof {
                outs = outs.push((left, right));
                assert(out@ =~= before + (opt(left) + opt(right)));
            }
        }
        proof {
            assert(outs.drop_last() =~= outs_before);
        }
        acc = piece_end;
        i = i + 1;
    }
    assert(pieces@.take(i as int) =~= pieces@);
    (out, Ghost(outs))
}

/// Joins neighbours that continue one another.
pub fn coalesce_adjacent(pieces: &mut Vec<Piece>)
    ensures
        final(pieces)@ == coalesced(old(pieces)@),
{
    if pieces.len() < 2 {
        proof {
            reveal_with_fuel(coalesced, 2);
            assert(pieces@ =~= coalesced(pieces@));
        }
        return;
    }
    let mut out: Vec<Piece> = Vec::new();
    let mut i: usize = 0;
    assert(pieces@.take(0) =~= Seq::empty());
    while i < pieces.len()
        invariant
            i <= pieces@.len(),
            out@ == coalesced(pieces@.take(i as int)),
        decreases pieces@.len() - i,
    {
        let piece = pieces[i];
        assert(pieces@.take(i + 1).drop_last() =~= pieces@.take(i as int));
        let mut merged = false;
        if out.len() > 0 {
            let at: usize = out.len() - 1;
            let last = out[at];
            if last.src == piece.src && piece.start >= last.len && last.start == piece.start
                - last.len {
                let ghost before = out@;
                out[at] = Piece {
                    src: last.src,
                    start: last.start,
                    len: last.len.saturating_add(piece.len),
                    line_breaks: last.line_breaks.saturating_add(piece.line_breaks),
                };
                merged = true;
                assert(out@ =~= before.drop_last().push(joined(last, piece)));
            }
        }
        if !merged {
            out.push(piece);
        }
        i = i + 1;
    }
    assert(pieces@.take(i as int) =~= pieces@);
    *pieces = out;
}

/// What a cut may leave of `piece`: sound pieces with no more bytes than it had.
pub open spec fn halves_ok(piece: Piece, halves: Halves) -> bool {
    &&& pieces_ok(opt(halves.0) + opt(halves.1))
    &&& sum_len(opt(halves.0) + opt(halves.1)) <= piece.len
}

/// `true` where `split` can cut each of `pieces` anywhere inside, and leaves sound pieces.
pub open spec fn splits<F: Fn(Piece, usize) -> Halves>(split: F, pieces: Seq<Piece>) -> bool {
    &&& forall|p: Piece, n: usize|
        #![trigger call_requires(split, (p, n))]
        pieces.contains(p) && 0 < n < p.len ==> call_requires(split, (p, n))
    &&& forall|p: Piece, n: usize, h: Halves|
        #![trigger call_ensures(split, (p, n), h)]
        pieces.contains(p) && 0 < n < p.len && call_ensures(split, (p, n), h) ==> halves_ok(p, h)
}

/// `true` where `trim` can cut any range out of each of `pieces`, and leaves sound pieces.
pub open spec fn trims<F: Fn(Piece, usize, usize) -> Halves>(trim: F, pieces: Seq<Piece>) -> bool {
    &&& forall|p: Piece, lo: usize, hi: usize|
        #![trigger call_requires(trim, (p, lo, hi))]
        pieces.contains(p) && lo < hi <= p.len ==> call_requires(trim, (p, lo, hi))
    &&& forall|p: Piece, lo: usize, hi: usize, h: Halves|
        #![trigger call_ensures(trim, (p, lo, hi), h)]
        pieces.contains(p) && lo < hi <= p.len && call_ensures(trim, (p, lo, hi), h) ==> halves_ok(
            p,
            h,
        )
}

proof fn lemma_contains_part(a: Seq<Piece>, b: Seq<Piece>, c: Seq<Piece>)
    ensures
        forall|p: Piece| #[trigger] b.contains(p) ==> (a + b + c).contains(p),
{
    assert forall|p: Piece| #[trigger] b.contains(p) implies (a + b + c).contains(p) by {
        let j = choose|j: int| 0 <= j < b.len() && b[j] == p;
        assert((a + b + c)[a.len() + j] == p);
    }
}

/// The piece that an insertion cuts is one of the leaf, and is cut inside.
proof fn lemma_cut_in_leaf(pieces: Seq<Piece>, offset: int)
    requires
        offset <= usize::MAX,
    ensures
        cut_in_leaf(pieces, offset) is Some ==> {
            let (p, n) = cut_in_leaf(pieces, offset)->Some_0;
            pieces.contains(p) && 0 < n < p.len
        },
    decreases pieces.len(),
{
    if pieces.len() > 0 {
        assert(pieces[0] == pieces.first());
        if offset > pieces[0].len {
            lemma_cut_in_leaf(pieces.skip(1), offset - pieces[0].len);
            lemma_contains_part(pieces.take(1), pieces.skip(1), Seq::empty());
            assert(pieces.take(1) + pieces.skip(1) + Seq::<Piece>::empty() =~= pieces);
        } else {
            assert(pieces.contains(pieces[0]));
        }
    }
}

proof fn lemma_pieces_ok_concat(a: Seq<Piece>, b: Seq<Piece>)
    ensures
        pieces_ok(a + b) <==> pieces_ok(a) && pieces_ok(b),
{
    if pieces_ok(a + b) {
        assert forall|i: int| 0 <= i < a.len() implies piece_ok(#[trigger] a[i]) by {
            assert((a + b)[i] == a[i]);
        }
        assert forall|i: int| 0 <= i < b.len() implies piece_ok(#[trigger] b[i]) by {
            assert((a + b)[a.len() + i] == b[i]);
        }
    }
}

proof fn lemma_opt_len(halves: Halves)
    ensures
        (opt(halves.0) + opt(halves.1)).len() <= 2,
{
}

/// An insertion into a leaf keeps it sound and adds at most the bytes of the piece.
pub proof fn lemma_inserted_in_leaf(pieces: Seq<Piece>, offset: int, piece: Piece, halves: Halves)
    requires
        pieces_ok(pieces),
        piece_ok(piece),
        cut_in_leaf(pieces, offset) is Some ==> halves_ok(
            cut_in_leaf(pieces, offset)->Some_0.0,
            halves,
        ),
    ensures
        ({
            let out = inserted_in_leaf(pieces, offset, piece, halves);
            &&& pieces_ok(out)
            &&& sum_len(out) <= sum_len(pieces) + piece.len
            &&& 0 < out.len() <= pieces.len() + 2
        }),
    decreases pieces.len(),
{
    let out = inserted_in_leaf(pieces, offset, piece, halves);
    reveal_with_fuel(sum_len, 2);
    if pieces.len() > 0 {
        let rest = pieces.skip(1);
        lemma_sum_len_first(pieces);
        lemma_pieces_ok_concat(pieces.take(1), rest);
        assert(pieces.take(1) + rest =~= pieces);
        assert(piece_ok(pieces[0]));
        if offset <= pieces[0].len {
            if offset <= 0 {
                lemma_pieces_ok_concat(seq![piece], pieces);
                lemma_sum_len_concat(seq![piece], pieces);
            } else if offset >= pieces[0].len {
                lemma_pieces_ok_concat(seq![pieces[0], piece], rest);
                lemma_sum_len_concat(seq![pieces[0], piece], rest);
                lemma_sum_len_concat(seq![pieces[0]], seq![piece]);
                assert(seq![pieces[0]] + seq![piece] =~= seq![pieces[0], piece]);
            } else {
                let (l, r) = (opt(halves.0), opt(halves.1));
                lemma_pieces_ok_concat(l, r);
                lemma_pieces_ok_concat(l, seq![piece]);
                lemma_pieces_ok_concat(l + seq![piece], r);
                lemma_pieces_ok_concat(l + seq![piece] + r, rest);
                lemma_sum_len_concat(l, r);
                lemma_sum_len_concat(l, seq![piece]);
                lemma_sum_len_concat(l + seq![piece], r);
                lemma_sum_len_concat(l + seq![piece] + r, rest);
            }
        } else {
            lemma_inserted_in_leaf(rest, offset - pieces[0].len, piece, halves);
            let tail = inserted_in_leaf(rest, offset - pieces[0].len, piece, halves);
            lemma_pieces_ok_concat(seq![pieces[0]], tail);
            lemma_sum_len_concat(seq![pieces[0]], tail);
        }
    }
}

/// A deletion from a leaf keeps it sound and adds no bytes.
proof fn lemma_deleted_in_leaf<F: Fn(Piece, usize, usize) -> Halves>(
    trim: F,
    pieces: Seq<Piece>,
    start: int,
    end: int,
    outs: Seq<Halves>,
)
    requires
        pieces_ok(pieces),
        sum_len(pieces) <= usize::MAX,
        trims(trim, pieces),
        outcomes_in_leaf(trim, pieces, start, end, outs),
        0 <= start < end,
    ensures
        ({
            let out = deleted_in_leaf(pieces, start, end, outs);
            &&& pieces_ok(out)
            &&& sum_len(out) <= sum_len(pieces)
            &&& out.len() <= 2 * pieces.len()
        }),
    decreases pieces.len(),
{
    if pieces.len() > 0 {
        let front = pieces.drop_last();
        let piece = pieces.last();
        assert(front + seq![piece] =~= pieces);
        lemma_pieces_ok_concat(front, seq![piece]);
        assert(pieces[pieces.len() - 1] == piece);
        assert(pieces.contains(piece));
        assert(trims(trim, front)) by {
            lemma_contains_part(Seq::empty(), front, seq![piece]);
            assert(Seq::<Piece>::empty() + front + seq![piece] =~= pieces);
        }
        lemma_deleted_in_leaf(trim, front, start, end, outs.drop_last());
        let base = sum_len(front) as int;
        let head = deleted_in_leaf(front, start, end, outs.drop_last());
        let tail = trimmed(piece, base, start, end, outs.last());
        reveal_with_fuel(sum_len, 2);
        if !outside(base, piece.len as int, start, end) {
            let lo = max_int(start - base, 0) as usize;
            let hi = (min_int(end, base + piece.len) - base) as usize;
            assert(call_ensures(trim, (piece, lo, hi), outs.last()));
            assert(halves_ok(piece, outs.last()));
            lemma_opt_len(outs.last());
        }
        lemma_pieces_ok_concat(head, tail);
        lemma_sum_len_concat(head, tail);
    }
}

proof fn lemma_leaves_ok_flat(leaves: Seq<Seq<Piece>>)
    requires
        leaves_ok(leaves),
    ensures
        pieces_ok(flat(leaves)),
    decreases leaves.len(),
{
    if leaves.len() > 0 {
        let front = leaves.drop_last();
        assert forall|i: int| 0 <= i < front.len() implies 0 < (#[trigger] front[i]).len()
            <= MAX_LEAF_PIECES && pieces_ok(front[i]) by {
            assert(front[i] == leaves[i]);
        }
        lemma_leaves_ok_flat(front);
        assert(pieces_ok(leaves[leaves.len() - 1]));
        lemma_pieces_ok_concat(flat(front), leaves.last());
    }
}

/// Totals of sound references, with the line breaks bounded by the bytes.
proof fn lemma_list_totals(pages: Map<u64, PageView>, children: Seq<ChildRef>, bound: u64)
    requires
        refs_ok(pages, children, bound),
    ensures
        children_len(children) == sum_len(flat(leaves_below(pages, children, bound))),
        children_breaks(children) == sum_breaks(flat(leaves_below(pages, children, bound))),
        children_breaks(children) <= children_len(children),
        leaves_ok(leaves_below(pages, children, bound)),
{
    lemma_refs_totals(pages, children, bound);
    lemma_leaves_ok_flat(leaves_below(pages, children, bound));
    lemma_pieces_ok_sums(flat(leaves_below(pages, children, bound)));
}

proof fn lemma_refs_concat(
    pages: Map<u64, PageView>,
    a: Seq<ChildRef>,
    b: Seq<ChildRef>,
    bound: u64,
)
    ensures
        refs_ok(pages, a + b, bound) <==> refs_ok(pages, a, bound) && refs_ok(pages, b, bound),
{
    if refs_ok(pages, a + b, bound) {
        assert forall|i: int| 0 <= i < a.len() implies (#[trigger] a[i]).page_id < bound && ref_ok(
            pages,
            a[i],
        ) by {
            assert((a + b)[i] == a[i]);
        }
        assert forall|i: int| 0 <= i < b.len() implies (#[trigger] b[i]).page_id < bound && ref_ok(
            pages,
            b[i],
        ) by {
            assert((a + b)[a.len() + i] == b[i]);
        }
    }
}

fn pieces_len(pieces: &Vec<Piece>) -> (total: usize)
    requires
        sum_len(pieces@) <= usize::MAX,
    ensures
        total == sum_len(pieces@),
{
    let mut total: usize = 0;
    let mut i: usize = 0;
    assert(pieces@.take(0) =~= Seq::empty());
    while i < pieces.len()
        invariant
            i <= pieces@.len(),
            sum_len(pieces@) <= usize::MAX,
            total == sum_len(pieces@.take(i as int)),
        decreases pieces@.len() - i,
    {
        proof {
            assert(pieces@.take(i + 1).drop_last() =~= pieces@.take(i as int));
            lemma_sum_len_concat(pieces@.take(i + 1), pieces@.skip(i + 1));
            assert(pieces@.take(i + 1) + pieces@.skip(i + 1) =~= pieces@);
        }
        total = total + pieces[i].len;
        i = i + 1;
    }
    assert(pieces@.take(i as int) =~= pieces@);
    total
}

fn pieces_breaks(pieces: &Vec<Piece>) -> (total: usize)
    requires
        sum_breaks(pieces@) <= usize::MAX,
    ensures
        total == sum_breaks(pieces@),
{
    let mut total: usize = 0;
    let mut i: usize = 0;
    assert(pieces@.take(0) =~= Seq::empty());
    while i < pieces.len()
        invariant
            i <= pieces@.len(),
            sum_breaks(pieces@) <= usize::MAX,
            total == sum_breaks(pieces@.take(i as int)),
        decreases pieces@.len() - i,
    {
        proof {
            assert(pieces@.take(i + 1).drop_last() =~= pieces@.take(i as int));
            lemma_sum_len_concat(pieces@.take(i + 1), pieces@.skip(i + 1));
            assert(pieces@.take(i + 1) + pieces@.skip(i + 1) =~= pieces@);
        }
        total = total + pieces[i].line_breaks;
        i = i + 1;
    }
    assert(pieces@.take(i as int) =~= pieces@);
    total
}

fn refs_len(children: &Vec<ChildRef>) -> (total: usize)
    requires
        children_len(children@) <= usize::MAX,
    ensures
        total == children_len(children@),
{
    let mut total: usize = 0;
    let mut i: usize = 0;
    assert(children@.take(0) =~= Seq::empty());
    while i < children.len()
        invariant
            i <= children@.len(),
            children_len(children@) <= usize::MAX,
            total == children_len(children@.take(i as int)),
        decreases children@.len() - i,
    {
        proof {
            assert(children@.take(i + 1).drop_last() =~= children@.take(i as int));
            lemma_children_concat(children@.take(i + 1), children@.skip(i + 1));
            assert(children@.take(i + 1) + children@.skip(i + 1) =~= children@);
        }
        total = total + children[i].total_bytes;
        i = i + 1;
    }
    assert(children@.take(i as int) =~= children@);
    total
}

fn refs_breaks(children: &Vec<ChildRef>) -> (total: usize)
    requires
        children_breaks(children@) <= usize::MAX,
    ensures
        total == children_breaks(children@),
{
    let mut total: usize = 0;
    let mut i: usize = 0;
    assert(children@.take(0) =~= Seq::empty());
    while i < children.len()
        invariant
            i <= children@.len(),
            children_breaks(children@) <= usize::MAX,
            total == children_breaks(children@.take(i as int)),
        decreases children@.len() - i,
    {
        proof {
            assert(children@.take(i + 1).drop_last() =~= children@.take(i as int));
            lemma_children_concat(children@.take(i + 1), children@.skip(i + 1));
            assert(children@.take(i + 1) + children@.skip(i + 1) =~= children@);
        }
        total = total + children[i].total_line_breaks;
        i = i + 1;
    }
    assert(children@.take(i as int) =~= children@);
    total
}

fn append_range<T: Copy>(out: &mut Vec<T>, items: &Vec<T>, from: usize, to: usize)
    requires
        from <= to <= items@.len(),
    ensures
        final(out)@ == old(out)@ + items@.subrange(from as int, to as int),
{
    let mut i: usize = from;
    assert(out@ =~= old(out)@ + items@.subrange(from as int, from as int));
    while i < to
        invariant
            from <= i <= to <= items@.len(),
            out@ == old(out)@ + items@.subrange(from as int, i as int),
        decreases to - i,
    {
        out.push(items[i]);
        i = i + 1;
        assert(out@ =~= old(out)@ + items@.subrange(from as int, i as int));
    }
}

/// The parts of an internal node around child `index`.
proof fn lemma_node_parts(
    pages: Map<u64, PageView>,
    children: Seq<ChildRef>,
    index: int,
    bound: u64,
)
    requires
        refs_ok(pages, children, bound),
        0 <= index < children.len(),
    ensures
        ({
            let before = children.take(index);
            let behind = children.skip(index + 1);
            let target = children[index];
            let a = leaves_below(pages, before, bound);
            let t = leaves_of(pages, target.page_id);
            let b = leaves_below(pages, behind, bound);
            &&& refs_ok(pages, before, bound)
            &&& refs_ok(pages, behind, bound)
            &&& ref_ok(pages, target)
            &&& leaves_below(pages, children, bound) == a + t + b
            &&& nodes_below(pages, children, bound) == nodes_below(pages, before, bound)
                + nodes_of(pages, target.page_id) + nodes_below(pages, behind, bound)
            &&& children_len(children) == children_len(before) + target.total_bytes + children_len(
                behind,
            )
            &&& children_len(before) == sum_len(flat(a))
            &&& children_len(behind) == sum_len(flat(b))
            &&& flat(a + t + b) == flat(a) + flat(t) + flat(b)
            &&& children_len(children.take(index + 1)) == children_len(before) + target.total_bytes
            &&& (a.len() == 0) == (before.len() == 0)
            &&& (b.len() == 0) == (behind.len() == 0)
            &&& behind.len() > 0 ==> children_len(behind) > 0
        }),
{
    let before = children.take(index);
    let behind = children.skip(index + 1);
    let target = children[index];
    let one = seq![target];
    assert(before + one + behind =~= children);
    assert(children.take(index + 1) =~= before + one);
    lemma_below_concat(pages, before + one, behind, bound);
    lemma_below_concat(pages, before, one, bound);
    lemma_below_one(pages, target, bound);
    lemma_children_concat(before + one, behind);
    lemma_children_concat(before, one);
    lemma_refs_concat(pages, before + one, behind, bound);
    lemma_refs_concat(pages, before, one, bound);
    lemma_refs_totals(pages, before, bound);
    lemma_refs_totals(pages, behind, bound);
    let a = leaves_below(pages, before, bound);
    let t = leaves_of(pages, target.page_id);
    let b = leaves_below(pages, behind, bound);
    lemma_flat_concat(a + t, b);
    lemma_flat_concat(a, t);
}

/// The child that an insertion goes to satisfies what it asks for.
proof fn lemma_insert_target(
    pages: Map<u64, PageView>,
    child: ChildRef,
    children: Seq<ChildRef>,
    offset: usize,
    index: int,
)
    requires
        ref_ok(pages, child),
        pages[child.page_id] == PageView::Internal(children),
        offset <= child.total_bytes,
        child_for_offset(
            children,
            offset,
            index,
            min_int(children_len(children.take(index)) as int, usize::MAX as int) as usize,
        ),
    ensures
        ({
            let target = children[index];
            let start = children_len(children.take(index));
            &&& ref_ok(pages, target)
            &&& target.page_id < child.page_id
            &&& start <= offset <= start + target.total_bytes
            &&& index + 1 < children.len() ==> offset < start + target.total_bytes
            &&& start + target.total_bytes <= child.total_bytes
            &&& nodes_of(pages, child.page_id) >= 1 + nodes_of(pages, target.page_id)
            &&& forall|p: Piece| #[trigger]
                flat(leaves_of(pages, target.page_id)).contains(p) ==> flat(
                    leaves_of(pages, child.page_id),
                ).contains(p)
        }),
{
    lemma_node_parts(pages, children, index, child.page_id);
    let target = children[index];
    let before = children.take(index);
    let behind = children.skip(index + 1);
    lemma_contains_part(
        flat(leaves_below(pages, before, child.page_id)),
        flat(leaves_of(pages, target.page_id)),
        flat(leaves_below(pages, behind, child.page_id)),
    );
    if index > 0 {
        assert(children.take(index) == before);
    } else {
        assert(before =~= Seq::empty());
    }
    if index + 1 == children.len() {
        assert(behind =~= Seq::empty());
    }
}

/// What takes the place of an internal node's children around an insertion.
proof fn lemma_insert_spliced(
    pages: Map<u64, PageView>,
    more: Map<u64, PageView>,
    child: ChildRef,
    children: Seq<ChildRef>,
    offset: usize,
    index: int,
    inserted: Seq<ChildRef>,
    piece: Piece,
    halves: Halves,
)
    requires
        ref_ok(pages, child),
        pages[child.page_id] == PageView::Internal(children),
        pages.submap_of(more),
        0 <= index < children.len(),
        children_len(children.take(index)) <= offset,
        index + 1 == children.len() || offset < children_len(children.take(index + 1)),
        refs_ok(more, inserted, u64::MAX),
        leaves_below(more, inserted, u64::MAX) == inserted_in_leaves(
            leaves_of(pages, children[index].page_id),
            offset - children_len(children.take(index)),
            piece,
            halves,
        ),
    ensures
        ({
            let next = children.take(index) + inserted + children.skip(index + 1);
            let leaves = leaves_of(pages, child.page_id);
            &&& refs_ok(more, next, u64::MAX)
            &&& leaves_below(more, next, u64::MAX) == inserted_in_leaves(
                leaves,
                offset as int,
                piece,
                halves,
            )
            &&& cut_in_leaves(leaves, offset as int) == cut_in_leaves(
                leaves_of(pages, children[index].page_id),
                offset - children_len(children.take(index)),
            )
            &&& nodes_below(more, next, u64::MAX) + nodes_of(pages, children[index].page_id) + 1
                == nodes_of(pages, child.page_id) + nodes_below(more, inserted, u64::MAX)
            &&& children_len(next) + children[index].total_bytes == child.total_bytes
                + children_len(inserted)
        }),
{
    let before = children.take(index);
    let behind = children.skip(index + 1);
    let target = children[index];
    let local = offset - children_len(before);
    let leaves = leaves_of(pages, child.page_id);
    lemma_node_parts(pages, children, index, child.page_id);
    lemma_ref_totals(pages, target);
    lemma_raise_bound(pages, more, before, child.page_id);
    lemma_raise_bound(pages, more, behind, child.page_id);
    lemma_refs_concat(more, before + inserted, behind, u64::MAX);
    lemma_refs_concat(more, before, inserted, u64::MAX);
    lemma_below_concat(more, before + inserted, behind, u64::MAX);
    lemma_below_concat(more, before, inserted, u64::MAX);
    lemma_children_concat(before + inserted, behind);
    lemma_children_concat(before, inserted);
    let a = leaves_below(pages, before, child.page_id);
    let t = leaves_of(pages, target.page_id);
    let b = leaves_below(pages, behind, child.page_id);
    let out = inserted_in_leaves(t, local, piece, halves);
    lemma_insert_split(t, b, local, piece, halves);
    assert(a + (t + b) =~= leaves);
    if a.len() > 0 {
        lemma_insert_split(a, t + b, offset as int, piece, halves);
    } else {
        assert(before.len() == 0);
        assert(t + b =~= leaves);
    }
    assert(a + out + b =~= a + (out + b));
}

/// The same leaves in a larger store, under the largest bound.
proof fn lemma_raise_bound(
    pages: Map<u64, PageView>,
    more: Map<u64, PageView>,
    children: Seq<ChildRef>,
    bound: u64,
)
    requires
        refs_ok(pages, children, bound),
        pages.submap_of(more),
    ensures
        refs_ok(more, children, u64::MAX),
        leaves_below(more, children, u64::MAX) == leaves_below(pages, children, bound),
        nodes_below(more, children, u64::MAX) == nodes_below(pages, children, bound),
{
    assert forall|i: int| 0 <= i < children.len() implies (#[trigger] children[i]).page_id
        < u64::MAX && ref_ok(pages, children[i]) by {
        assert(children[i].page_id < bound);
    }
    lemma_below_bound(pages, children, bound, u64::MAX);
    lemma_refs_extend(pages, more, children, u64::MAX);
}

impl PageStore {
    /// Stores `pieces` in new leaves.
    fn leaf_refs_from_pieces(&mut self, pieces: &Vec<Piece>) -> (refs: Vec<ChildRef>)
        requires
            old(self).wf(),
            pieces_ok(pieces@),
            sum_len(pieces@) <= usize::MAX,
            old(self).last_page_id() + (pieces@.len() + 63) / 64 < u64::MAX,
        ensures
            final(self).extends(*old(self)),
            refs_ok(final(self).pages(), refs@, u64::MAX),
            leaves_below(final(self).pages(), refs@, u64::MAX) == chunks(pieces@),
            refs@.len() == (pieces@.len() + 63) / 64,
            nodes_below(final(self).pages(), refs@, u64::MAX) == refs@.len(),
            final(self).last_page_id() == old(self).last_page_id() + refs@.len(),
            children_len(refs@) == sum_len(pieces@),
    {
        let mut refs: Vec<ChildRef> = Vec::new();
        let mut at: usize = 0;
        assert(pieces@.skip(0) =~= pieces@);
        assert(leaves_below(self.pages(), refs@, u64::MAX) + chunks(pieces@.skip(0)) =~= chunks(
            pieces@,
        ));
        proof {
            lemma_chunks(pieces@);
        }
        while at < pieces.len()
            invariant
                self.extends(*old(self)),
                at <= pieces@.len(),
                pieces_ok(pieces@),
                sum_len(pieces@) <= usize::MAX,
                old(self).last_page_id() + (pieces@.len() + 63) / 64 < u64::MAX,
                self.last_page_id() == old(self).last_page_id() + refs@.len(),
                at < pieces@.len() ==> at == 64 * refs@.len(),
                at == pieces@.len() ==> refs@.len() == (pieces@.len() + 63) / 64,
                refs_ok(self.pages(), refs@, u64::MAX),
                nodes_below(self.pages(), refs@, u64::MAX) == refs@.len(),
                leaves_below(self.pages(), refs@, u64::MAX) + chunks(pieces@.skip(at as int))
                    == chunks(pieces@),
            decreases pieces@.len() - at,
        {
            let end: usize = if pieces.len() - at > MAX_LEAF_PIECES {
                at + MAX_LEAF_PIECES
            } else {
                pieces.len()
            };
            let mut chunk: Vec<Piece> = Vec::new();
            append_range(&mut chunk, pieces, at, end);
            let ghost leaf = pieces@.subrange(at as int, end as int);
            assert(chunk@ =~= leaf);
            proof {
                let (a, c) = (pieces@.take(at as int), pieces@.skip(end as int));
                assert(a + leaf + c =~= pieces@);
                lemma_pieces_ok_concat(a + leaf, c);
                lemma_pieces_ok_concat(a, leaf);
                lemma_sum_len_concat(a + leaf, c);
                lemma_sum_len_concat(a, leaf);
                lemma_pieces_ok_sums(leaf);
                let here = pieces@.skip(at as int);
                if end < pieces@.len() {
                    assert(here.take(64) =~= leaf);
                    assert(here.skip(64) =~= c);
                } else {
                    assert(here =~= leaf);
                    assert(c =~= Seq::empty());
                    assert(seq![leaf] + chunks(c) =~= seq![leaf]);
                }
                assert(chunks(here) == seq![leaf] + chunks(c));
            }
            let total_bytes: usize = pieces_len(&chunk);
            let total_line_breaks: usize = pieces_breaks(&chunk);
            let ghost before = *self;
            let child = self.alloc_page(
                PiecePage::Leaf { pieces: chunk },
                total_bytes,
                total_line_breaks,
            );
            proof {
                self.lemma_extends(before, *old(self));
                lemma_refs_extend(before.pages(), self.pages(), refs@, u64::MAX);
                assert(ref_ok(self.pages(), child));
                lemma_refs_concat(self.pages(), refs@, seq![child], u64::MAX);
                lemma_below_concat(self.pages(), refs@, seq![child], u64::MAX);
                lemma_below_one(self.pages(), child, u64::MAX);
                assert(refs@.push(child) =~= refs@ + seq![child]);
                let done = leaves_below(self.pages(), refs@, u64::MAX);
                assert((done + seq![leaf]) + chunks(pieces@.skip(end as int)) =~= done + (
                seq![leaf] + chunks(pieces@.skip(end as int))));
            }
            refs.push(child);
            at = end;
        }
        proof {
            assert(pieces@.skip(at as int) =~= Seq::empty());
            assert(leaves_below(self.pages(), refs@, u64::MAX) + chunks(Seq::<Piece>::empty())
                =~= leaves_below(self.pages(), refs@, u64::MAX));
            lemma_list_totals(self.pages(), refs@, u64::MAX);
        }
        refs
    }

    /// Stores `children` in new internal nodes.
    fn internal_refs_from_children(&mut self, children: &Vec<ChildRef>) -> (refs: Vec<ChildRef>)
        requires
            old(self).wf(),
            refs_ok(old(self).pages(), children@, u64::MAX),
            children_len(children@) <= usize::MAX,
            old(self).last_page_id() + (children@.len() + 63) / 64 < u64::MAX,
        ensures
            final(self).extends(*old(self)),
            refs_ok(final(self).pages(), refs@, u64::MAX),
            leaves_below(final(self).pages(), refs@, u64::MAX) == leaves_below(
                old(self).pages(),
                children@,
                u64::MAX,
            ),
            refs@.len() == (children@.len() + 63) / 64,
            nodes_below(final(self).pages(), refs@, u64::MAX) == nodes_below(
                old(self).pages(),
                children@,
                u64::MAX,
            ) + refs@.len(),
            final(self).last_page_id() == old(self).last_page_id() + refs@.len(),
            children_len(refs@) == children_len(children@),
    {
        let mut refs: Vec<ChildRef> = Vec::new();
        let mut at: usize = 0;
        let ghost start = old(self).pages();
        assert(children@.take(0) =~= Seq::empty());
        while at < children.len()
            invariant
                start == old(self).pages(),
                self.extends(*old(self)),
                at <= children@.len(),
                refs_ok(start, children@, u64::MAX),
                children_len(children@) <= usize::MAX,
                old(self).last_page_id() + (children@.len() + 63) / 64 < u64::MAX,
                self.last_page_id() == old(self).last_page_id() + refs@.len(),
                at < children@.len() ==> at == 64 * refs@.len(),
                at == children@.len() ==> refs@.len() == (children@.len() + 63) / 64,
                refs_ok(self.pages(), refs@, u64::MAX),
                leaves_below(self.pages(), refs@, u64::MAX) == leaves_below(
                    start,
                    children@.take(at as int),
                    u64::MAX,
                ),
                nodes_below(self.pages(), refs@, u64::MAX) == nodes_below(
                    start,
                    children@.take(at as int),
                    u64::MAX,
                ) + refs@.len(),
                children_len(refs@) == children_len(children@.take(at as int)),
            decreases children@.len() - at,
        {
            let end: usize = if children.len() - at > MAX_INTERNAL_CHILDREN {
                at + MAX_INTERNAL_CHILDREN
            } else {
                children.len()
            };
            let mut chunk: Vec<ChildRef> = Vec::new();
            append_range(&mut chunk, children, at, end);
            let ghost part = children@.subrange(at as int, end as int);
            let ghost done = children@.take(at as int);
            assert(chunk@ =~= part);
            proof {
                let c = children@.skip(end as int);
                assert(done + part + c =~= children@);
                assert(children@.take(end as int) =~= done + part);
                lemma_refs_concat(start, done + part, c, u64::MAX);
                lemma_refs_concat(start, done, part, u64::MAX);
                lemma_children_concat(done + part, c);
                lemma_children_concat(done, part);
                lemma_below_concat(start, done, part, u64::MAX);
                lemma_list_totals(start, part, u64::MAX);
            }
            let total_bytes: usize = refs_len(&chunk);
            let total_line_breaks: usize = refs_breaks(&chunk);
            let ghost before = *self;
            proof {
                lemma_refs_extend(start, before.pages(), part, u64::MAX);
                before.lemma_page_ids();
            }
            let child = self.alloc_page(
                PiecePage::Internal { children: chunk },
                total_bytes,
                total_line_breaks,
            );
            proof {
                self.lemma_extends(before, *old(self));
                lemma_refs_extend(before.pages(), self.pages(), refs@, u64::MAX);
                lemma_refs_extend(before.pages(), self.pages(), part, u64::MAX);
                assert forall|i: int| 0 <= i < part.len() implies (#[trigger] part[i]).page_id
                    < child.page_id && ref_ok(self.pages(), part[i]) by {
                    assert(ref_ok(before.pages(), part[i]));
                    assert(before.pages().contains_key(part[i].page_id));
                }
                assert(ref_ok(self.pages(), child));
                lemma_below_bound(self.pages(), part, child.page_id, u64::MAX);
                lemma_refs_concat(self.pages(), refs@, seq![child], u64::MAX);
                lemma_below_concat(self.pages(), refs@, seq![child], u64::MAX);
                lemma_below_one(self.pages(), child, u64::MAX);
                lemma_children_concat(refs@, seq![child]);
                assert(refs@.push(child) =~= refs@ + seq![child]);
            }
            refs.push(child);
            at = end;
        }
        assert(children@.take(at as int) =~= children@);
        refs
    }

    /// Stacks internal nodes on `children` until one root is left.
    fn build_tree_from_child_refs(&mut self, children: Vec<ChildRef>) -> (root: Option<ChildRef>)
        requires
            old(self).wf(),
            refs_ok(old(self).pages(), children@, u64::MAX),
            children_len(children@) <= usize::MAX,
            old(self).last_page_id() + children@.len() < u64::MAX,
        ensures
            final(self).extends(*old(self)),
            final(self).last_page_id() <= old(self).last_page_id() + children@.len(),
            root_ok(final(self).pages(), root),
            root is None <==> children@.len() == 0,
            root_leaves(final(self).pages(), root) == leaves_below(
                old(self).pages(),
                children@,
                u64::MAX,
            ),
            root_nodes(final(self).pages(), root) <= nodes_below(
                old(self).pages(),
                children@,
                u64::MAX,
            ) + children@.len(),
            root is Some ==> root->Some_0.page_id <= final(self).last_page_id(),
    {
        if children.len() == 0 {
            assert(leaves_below(self.pages(), children@, u64::MAX) =~= Seq::empty());
            return None;
        }
        let mut level: Vec<ChildRef> = children;
        let ghost n = children@.len();
        let ghost goal = leaves_below(self.pages(), children@, u64::MAX);
        let ghost weight = nodes_below(self.pages(), children@, u64::MAX);
        while level.len() > 1
            invariant
                self.extends(*old(self)),
                level@.len() > 0,
                refs_ok(self.pages(), level@, u64::MAX),
                children_len(level@) <= usize::MAX,
                old(self).last_page_id() + n < u64::MAX,
                self.last_page_id() + level@.len() <= old(self).last_page_id() + n,
                leaves_below(self.pages(), level@, u64::MAX) == goal,
                nodes_below(self.pages(), level@, u64::MAX) + level@.len() <= weight + n,
            decreases level@.len(),
        {
            let ghost before = *self;
            level = self.internal_refs_from_children(&level);
            proof {
                self.lemma_extends(before, *old(self));
            }
        }
        let root = level[0];
        proof {
            assert(level@ =~= seq![root]);
            lemma_below_one(self.pages(), root, u64::MAX);
            assert(ref_ok(self.pages(), level@[0]));
            self.lemma_page_ids();
            assert(self.pages().contains_key(root.page_id));
        }
        Some(root)
    }

    /// Inserts `piece` at `offset` below `child`, and returns what takes its place.
    fn insert_at<F: Fn(Piece, usize) -> Halves>(
        &mut self,
        child: ChildRef,
        offset: usize,
        piece: Piece,
        split_piece: &F,
    ) -> (result: (Vec<ChildRef>, Ghost<Halves>))
        requires
            old(self).wf(),
            ref_ok(old(self).pages(), child),
            offset <= child.total_bytes,
            child.total_bytes + piece.len <= usize::MAX,
            piece_ok(piece),
            splits(*split_piece, flat(leaves_of(old(self).pages(), child.page_id))),
            old(self).last_page_id() + 2 * nodes_of(old(self).pages(), child.page_id) < u64::MAX,
        ensures
            final(self).extends(*old(self)),
            final(self).last_page_id() <= old(self).last_page_id() + 2 * nodes_of(
                old(self).pages(),
                child.page_id,
            ),
            ({
                let leaves = leaves_of(old(self).pages(), child.page_id);
                let refs = result.0@;
                &&& 1 <= refs.len() <= 2
                &&& refs_ok(final(self).pages(), refs, u64::MAX)
                &&& cut_in_leaves(leaves, offset as int) is Some ==> call_ensures(
                    *split_piece,
                    cut_in_leaves(leaves, offset as int)->Some_0,
                    result.1@,
                )
                &&& leaves_below(final(self).pages(), refs, u64::MAX) == inserted_in_leaves(
                    leaves,
                    offset as int,
                    piece,
                    result.1@,
                )
                &&& nodes_below(final(self).pages(), refs, u64::MAX) <= 2 * nodes_of(
                    old(self).pages(),
                    child.page_id,
                )
                &&& children_len(refs) <= child.total_bytes + piece.len
            }),
        decreases child.page_id,
    {
        let ghost start = self.pages();
        let page = match self.load_page(child.page_id) {
            Some(page) => page,
            None => return (Vec::new(), Ghost((None, None))),
        };
        let ghost leaves = leaves_of(start, child.page_id);
        match page {
            PiecePage::Leaf { pieces } => {
                proof {
                    assert(leaves =~= seq![pieces@]);
                    lemma_flat_one(pieces@);
                    lemma_cut_in_leaf(pieces@, offset as int);
                }
                let (mut next, halves) = insert_piece_into_leaf(
                    &pieces,
                    offset,
                    piece,
                    split_piece,
                );
                proof {
                    lemma_inserted_in_leaf(pieces@, offset as int, piece, halves@);
                    lemma_coalesced(next@);
                }
                coalesce_adjacent(&mut next);
                let ghost mid = *self;
                let refs = self.leaf_refs_from_pieces(&next);
                proof {
                    self.lemma_extends(mid, *old(self));
                    assert(leaves.skip(1) =~= Seq::empty());
                    assert(chunks(next@) + leaves.skip(1) =~= chunks(next@));
                }
                (refs, halves)
            },
            PiecePage::Internal { children } => {
                let (index, child_start) = child_index_for_offset(children.as_slice(), offset);
                let target = children[index];
                proof {
                    lemma_insert_target(start, child, children@, offset, index as int);
                }
                let local_offset: usize = offset - child_start;
                let ghost loaded = *self;
                let (inserted, halves) = self.insert_at(target, local_offset, piece, split_piece);
                let mut next: Vec<ChildRef> = Vec::new();
                append_range(&mut next, &children, 0, index);
                append_range(&mut next, &inserted, 0, inserted.len());
                append_range(&mut next, &children, index + 1, children.len());
                proof {
                    assert(children@.subrange(0, index as int) =~= children@.take(index as int));
                    assert(inserted@.subrange(0, inserted@.len() as int) =~= inserted@);
                    assert(children@.subrange(index + 1, children@.len() as int) =~= children@.skip(
                        index + 1,
                    ));
                    lemma_insert_spliced(
                        start,
                        self.pages(),
                        child,
                        children@,
                        offset,
                        index as int,
                        inserted@,
                        piece,
                        halves@,
                    );
                }
                let ghost mid = *self;
                let refs = self.internal_refs_from_children(&next);
                proof {
                    mid.lemma_extends(loaded, *old(self));
                    self.lemma_extends(mid, *old(self));
                }
                (refs, halves)
            },
        }
    }
}

/// One child of an internal node taken into a deletion.
proof fn lemma_delete_step<F: Fn(Piece, usize, usize) -> Halves>(
    trim: F,
    pages: Map<u64, PageView>,
    children: Seq<ChildRef>,
    i: int,
    bound: u64,
    start: int,
    end: int,
    outs: Seq<Seq<Halves>>,
    more_outs: Seq<Seq<Halves>>,
)
    requires
        refs_ok(pages, children, bound),
        0 <= i < children.len(),
        outcomes_in_leaves(
            trim,
            leaves_below(pages, children.take(i), bound),
            start,
            end,
            outs,
        ),
        outcomes_in_leaves(
            trim,
            leaves_of(pages, children[i].page_id),
            start - children_len(children.take(i)),
            end - children_len(children.take(i)),
            more_outs,
        ),
    ensures
        outcomes_in_leaves(
            trim,
            leaves_below(pages, children.take(i + 1), bound),
            start,
            end,
            outs + more_outs,
        ),
        deleted_in_leaves(
            leaves_below(pages, children.take(i + 1), bound),
            start,
            end,
            outs + more_outs,
        ) == deleted_in_leaves(
            leaves_below(pages, children.take(i), bound),
            start,
            end,
            outs,
        ) + deleted_in_leaves(
            leaves_of(pages, children[i].page_id),
            start - children_len(children.take(i)),
            end - children_len(children.take(i)),
            more_outs,
        ),
{
    let done = children.take(i);
    let a = leaves_below(pages, done, bound);
    let b = leaves_of(pages, children[i].page_id);
    assert(children.take(i + 1).drop_last() =~= done);
    lemma_node_parts(pages, children, i, bound);
    assert(leaves_below(pages, children.take(i + 1), bound) == a + b);
    lemma_delete_concat(trim, a, b, start, end, outs, more_outs);
}

impl PageStore {
    /// Removes `start..end` below `child`, and returns what takes its place.
    fn delete_at<F: Fn(Piece, usize, usize) -> Halves>(
        &mut self,
        child: ChildRef,
        start: usize,
        end: usize,
        trim_piece: &F,
    ) -> (result: (Vec<ChildRef>, Ghost<Seq<Seq<Halves>>>))
        requires
            old(self).wf(),
            ref_ok(old(self).pages(), child),
            start < end <= child.total_bytes,
            trims(*trim_piece, flat(leaves_of(old(self).pages(), child.page_id))),
            old(self).last_page_id() + 2 * nodes_of(old(self).pages(), child.page_id) < u64::MAX,
        ensures
            final(self).extends(*old(self)),
            final(self).last_page_id() <= old(self).last_page_id() + 2 * nodes_of(
                old(self).pages(),
                child.page_id,
            ),
            ({
                let leaves = leaves_of(old(self).pages(), child.page_id);
                let refs = result.0@;
                &&& refs.len() <= 2
                &&& refs_ok(final(self).pages(), refs, u64::MAX)
                &&& outcomes_in_leaves(
                    *trim_piece,
                    leaves,
                    start as int,
                    end as int,
                    result.1@,
                )
                &&& leaves_below(final(self).pages(), refs, u64::MAX) == deleted_in_leaves(
                    leaves,
                    start as int,
                    end as int,
                    result.1@,
                )
                &&& nodes_below(final(self).pages(), refs, u64::MAX) <= 2 * nodes_of(
                    old(self).pages(),
                    child.page_id,
                )
                &&& children_len(refs) <= child.total_bytes
            }),
        decreases child.page_id,
    {
        let ghost first = self.pages();
        let page = match self.load_page(child.page_id) {
            Some(page) => page,
            None => return (Vec::new(), Ghost(Seq::empty())),
        };
        let ghost leaves = leaves_of(first, child.page_id);
        match page {
            PiecePage::Leaf { pieces } => {
                proof {
                    assert(leaves =~= seq![pieces@]);
                    lemma_flat_one(pieces@);
                    assert forall|i: int, lo: usize, hi: usize|
                        0 <= i < pieces@.len() && lo < hi
                            <= pieces@[i].len implies #[trigger] call_requires(
                        *trim_piece,
                        (pieces@[i], lo, hi),
                    ) by {
                        assert(pieces@.contains(pieces@[i]));
                    }
                }
                let (mut next, outs) = delete_range_from_leaf(&pieces, start, end, trim_piece);
                proof {
                    lemma_deleted_in_leaf(
                        *trim_piece,
                        pieces@,
                        start as int,
                        end as int,
                        outs@,
                    );
                    lemma_coalesced(next@);
                    lemma_pieces_ok_sums(next@);
                }
                coalesce_adjacent(&mut next);
                let ghost mid = *self;
                let refs = self.leaf_refs_from_pieces(&next);
                proof {
                    self.lemma_extends(mid, *old(self));
                    let all = seq![outs@];
                    assert(leaves.drop_last() =~= Seq::empty());
                    assert(all.drop_last() =~= Seq::empty());
                    assert(flat(leaves.drop_last()) =~= Seq::empty());
                    assert(deleted_in_leaves(
                        leaves.drop_last(),
                        start as int,
                        end as int,
                        all.drop_last(),
                    ) =~= Seq::empty());
                    assert(deleted_in_leaves(leaves, start as int, end as int, all) =~= chunks(
                        next@,
                    ));
                    assert(outcomes_in_leaves(
                        *trim_piece,
                        leaves.drop_last(),
                        start as int,
                        end as int,
                        all.drop_last(),
                    ));
                }
                let ghost all = seq![outs@];
                (refs, Ghost(all))
            },
            PiecePage::Internal { children } => {
                let ghost id = child.page_id;
                let mut next: Vec<ChildRef> = Vec::new();
                let ghost mut outs: Seq<Seq<Halves>> = Seq::empty();
                let mut child_base: usize = 0;
                let mut i: usize = 0;
                proof {
                    assert(children@.take(0) =~= Seq::empty());
                    assert(leaves_below(first, children@.take(0), id) =~= Seq::empty());
                    assert(deleted_in_leaves(
                        leaves_below(first, children@.take(0), id),
                        start as int,
                        end as int,
                        outs,
                    ) =~= Seq::empty());
                    assert(leaves_below(self.pages(), next@, u64::MAX) =~= Seq::empty());
                }
                while i < children.len()
                    invariant
                        first == old(self).pages(),
                        id == child.page_id,
                        self.extends(*old(self)),
                        i <= children@.len() <= 64,
                        refs_ok(first, children@, id),
                        children_len(children@) == child.total_bytes,
                        leaves_below(first, children@, id) == leaves_of(first, id),
                        nodes_of(first, id) == 1 + nodes_below(first, children@, id),
                        trims(*trim_piece, flat(leaves_of(first, id))),
                        start < end <= child.total_bytes,
                        old(self).last_page_id() + 2 * nodes_of(first, id) < u64::MAX,
                        child_base == children_len(children@.take(i as int)),
                        refs_ok(self.pages(), next@, u64::MAX),
                        next@.len() <= 2 * i,
                        children_len(next@) <= child_base,
                        nodes_below(self.pages(), next@, u64::MAX) <= 2 * nodes_below(
                            first,
                            children@.take(i as int),
                            id,
                        ),
                        self.last_page_id() <= old(self).last_page_id() + 2 * nodes_below(
                            first,
                            children@.take(i as int),
                            id,
                        ),
                        outcomes_in_leaves(
                            *trim_piece,
                            leaves_below(first, children@.take(i as int), id),
                            start as int,
                            end as int,
                            outs,
                        ),
                        leaves_below(self.pages(), next@, u64::MAX) == deleted_in_leaves(
                            leaves_below(first, children@.take(i as int), id),
                            start as int,
                            end as int,
                            outs,
                        ),
                    decreases children@.len() - i,
                {
                    let target = children[i];
                    let ghost t = leaves_of(first, target.page_id);
                    let ghost before = *self;
                    proof {
                        lemma_node_parts(first, children@, i as int, id);
                        lemma_ref_totals(first, target);
                        lemma_ref_extend(first, self.pages(), target);
                        assert(children@.take(i + 1).drop_last() =~= children@.take(i as int));
                        assert(children@[i as int].page_id < id);
                        lemma_contains_part(
                            flat(leaves_below(first, children@.take(i as int), id)),
                            flat(t),
                            flat(leaves_below(first, children@.skip(i + 1), id)),
                        );
                    }
                    let child_end: usize = child_base + target.total_bytes;
                    if child_end <= start || child_base >= end {
                        proof {
                            let more = Seq::new(t.len(), |k: int| Seq::<Halves>::empty());
                            lemma_delete_outside(
                                *trim_piece,
                                t,
                                start - child_base,
                                end - child_base,
                                more,
                            );
                            lemma_delete_step(
                                *trim_piece,
                                first,
                                children@,
                                i as int,
                                id,
                                start as int,
                                end as int,
                                outs,
                                more,
                            );
                            outs = outs + more;
                            lemma_refs_concat(self.pages(), next@, seq![target], u64::MAX);
                            lemma_below_concat(self.pages(), next@, seq![target], u64::MAX);
                            lemma_below_one(self.pages(), target, u64::MAX);
                            lemma_children_concat(next@, seq![target]);
                            assert(next@.push(target) =~= next@ + seq![target]);
                        }
                        next.push(target);
                    } else {
                        let local_start: usize = start.saturating_sub(child_base);
                        let local_end: usize = if end <= child_end {
                            end - child_base
                        } else {
                            target.total_bytes
                        };
                        let (left, cut) = self.delete_at(
                            target,
                            local_start,
                            local_end,
                            trim_piece,
                        );
                        proof {
                            self.lemma_extends(before, *old(self));
                            lemma_refs_extend(before.pages(), self.pages(), next@, u64::MAX);
                            lemma_delete_clamp(
                                *trim_piece,
                                t,
                                local_start as int,
                                local_end as int,
                                start - child_base,
                                end - child_base,
                                cut@,
                            );
                            lemma_delete_step(
                                *trim_piece,
                                first,
                                children@,
                                i as int,
                                id,
                                start as int,
                                end as int,
                                outs,
                                cut@,
                            );
                            outs = outs + cut@;
                            lemma_refs_concat(self.pages(), next@, left@, u64::MAX);
                            lemma_below_concat(self.pages(), next@, left@, u64::MAX);
                            lemma_children_concat(next@, left@);
                            assert(left@.subrange(0, left@.len() as int) =~= left@);
                        }
                        append_range(&mut next, &left, 0, left.len());
                    }
                    child_base = child_end;
                    i = i + 1;
                }
                assert(children@.take(i as int) =~= children@);
                let ghost mid = *self;
                let refs = self.internal_refs_from_children(&next);
                proof {
                    self.lemma_extends(mid, *old(self));
                }
                (refs, Ghost(outs))
            },
        }
    }
}

/// The parts of `pieces` that lie in `start..end`: each piece with a range inside it.
pub open spec fn visited(pieces: Seq<Piece>, start: int, end: int) -> Seq<(Piece, usize, usize)>
    decreases pieces.len(),
{
    if pieces.len() == 0 {
        Seq::empty()
    } else {
        let base = sum_len(pieces.drop_last()) as int;
        let piece = pieces.last();
        let front = visited(pieces.drop_last(), start, end);
        let lo = max_int(start - base, 0);
        let hi = min_int(end, base + piece.len) - base;
        if lo < hi {
            front.push((piece, lo as usize, hi as usize))
        } else {
            front
        }
    }
}

proof fn lemma_visited_concat(a: Seq<Piece>, b: Seq<Piece>, start: int, end: int)
    ensures
        visited(a + b, start, end) == visited(a, start, end) + visited(
            b,
            start - sum_len(a),
            end - sum_len(a),
        ),
    decreases b.len(),
{
    if b.len() == 0 {
        assert(a + b =~= a);
        assert(visited(a, start, end) + visited(b, start - sum_len(a), end - sum_len(a))
            =~= visited(a, start, end));
    } else {
        lemma_visited_concat(a, b.drop_last(), start, end);
        assert((a + b).drop_last() =~= a + b.drop_last());
        lemma_sum_len_concat(a, b.drop_last());
        assert(visited(a + b, start, end) =~= visited(a, start, end) + visited(
            b,
            start - sum_len(a),
            end - sum_len(a),
        ));
    }
}

proof fn lemma_visited_outside(pieces: Seq<Piece>, start: int, end: int)
    requires
        outside(0, sum_len(pieces) as int, start, end),
    ensures
        visited(pieces, start, end) == Seq::<(Piece, usize, usize)>::empty(),
    decreases pieces.len(),
{
    if pieces.len() > 0 {
        lemma_visited_outside(pieces.drop_last(), start, end);
    }
}

/// The piece that holds line break number `target`, the number of the break in it, and
/// where the piece starts.
pub open spec fn break_place(pieces: Seq<Piece>, target: int) -> Option<(Piece, usize, int)>
    decreases pieces.len(),
{
    if pieces.len() == 0 {
        None
    } else if target < pieces[0].line_breaks {
        Some((pieces[0], target as usize, 0))
    } else {
        match break_place(pieces.skip(1), target - pieces[0].line_breaks) {
            Some((piece, local, base)) => Some((piece, local, base + pieces[0].len)),
            None => None,
        }
    }
}

proof fn lemma_break_concat(a: Seq<Piece>, b: Seq<Piece>, target: int)
    requires
        target >= 0,
    ensures
        break_place(a + b, target) == (if target < sum_breaks(a) {
            break_place(a, target)
        } else {
            match break_place(b, target - sum_breaks(a)) {
                Some((piece, local, base)) => Some((piece, local, base + sum_len(a))),
                None => None,
            }
        }),
        target < sum_breaks(a) ==> break_place(a, target) is Some,
    decreases a.len(),
{
    if a.len() == 0 {
        assert(a + b =~= b);
    } else {
        lemma_sum_len_first(a);
        assert((a + b)[0] == a[0]);
        assert((a + b).skip(1) =~= a.skip(1) + b);
        if target >= a[0].line_breaks {
            lemma_break_concat(a.skip(1), b, target - a[0].line_breaks);
        }
    }
}

/// The outcomes that looking up break number `target` may have, given what `locate` finds
/// in a piece.
pub open spec fn line_start_found<F: Fn(Piece, usize) -> Option<usize>>(
    locate: F,
    pieces: Seq<Piece>,
    target: int,
    found: Option<usize>,
) -> bool {
    match break_place(pieces, target) {
        None => found is None,
        Some((piece, local, base)) => exists|in_piece: Option<usize>| #[trigger]
            call_ensures(locate, (piece, local), in_piece) && found == (match in_piece {
                Some(at) => Some(sat_add(base, at as int)),
                None => None,
            }),
    }
}

/// `true` where `locate` can be asked for every line break of `pieces`.
pub open spec fn locates<F: Fn(Piece, usize) -> Option<usize>>(
    locate: F,
    pieces: Seq<Piece>,
) -> bool {
    forall|p: Piece, n: usize|
        #![trigger call_requires(locate, (p, n))]
        pieces.contains(p) && n < p.line_breaks ==> call_requires(locate, (p, n))
}

impl PageStore {
    fn collect_pieces(&self, child: ChildRef, out: &mut Vec<Piece>)
        requires
            self.wf(),
            ref_ok(self.pages(), child),
        ensures
            final(out)@ == old(out)@ + flat(leaves_of(self.pages(), child.page_id)),
        decreases child.page_id,
    {
        let page = match self.get_page(child.page_id) {
            Some(page) => page,
            None => return,
        };
        match page {
            PiecePage::Leaf { pieces } => {
                append_range(out, &pieces, 0, pieces.len());
                proof {
                    lemma_flat_one(pieces@);
                    assert(pieces@.subrange(0, pieces@.len() as int) =~= pieces@);
                }
            },
            PiecePage::Internal { children } => {
                let mut i: usize = 0;
                let ghost id = child.page_id;
                proof {
                    assert(children@.take(0) =~= Seq::empty());
                    assert(leaves_below(self.pages(), children@.take(0), id) =~= Seq::empty());
                    assert(flat(Seq::<Seq<Piece>>::empty()) =~= Seq::empty());
                    assert(out@ =~= old(out)@ + Seq::<Piece>::empty());
                }
                while i < children.len()
                    invariant
                        self.wf(),
                        id == child.page_id,
                        i <= children@.len(),
                        refs_ok(self.pages(), children@, id),
                        out@ == old(out)@ + flat(
                            leaves_below(self.pages(), children@.take(i as int), id),
                        ),
                    decreases children@.len() - i,
                {
                    let ghost before = out@;
                    assert(children@[i as int].page_id < id);
                    self.collect_pieces(children[i], out);
                    proof {
                        let done = leaves_below(self.pages(), children@.take(i as int), id);
                        let t = leaves_of(self.pages(), children@[i as int].page_id);
                        assert(children@.take(i + 1).drop_last() =~= children@.take(i as int));
                        lemma_flat_concat(done, t);
                        assert((old(out)@ + flat(done)) + flat(t) =~= old(out)@ + (flat(done)
                            + flat(t)));
                    }
                    i = i + 1;
                }
                assert(children@.take(i as int) =~= children@);
            },
        }
    }

    fn visit_range_ref(
        &self,
        child: ChildRef,
        start: usize,
        end: usize,
        base: usize,
        out: &mut Vec<(Piece, usize, usize)>,
    )
        requires
            self.wf(),
            ref_ok(self.pages(), child),
            base + child.total_bytes <= usize::MAX,
        ensures
            final(out)@ == old(out)@ + visited(
                flat(leaves_of(self.pages(), child.page_id)),
                start - base,
                end - base,
            ),
        decreases child.page_id,
    {
        let page = match self.get_page(child.page_id) {
            Some(page) => page,
            None => return,
        };
        match page {
            PiecePage::Leaf { pieces } => {
                let mut piece_base: usize = base;
                let mut i: usize = 0;
                proof {
                    lemma_flat_one(pieces@);
                    assert(pieces@.take(0) =~= Seq::empty());
                    assert(out@ =~= old(out)@ + Seq::<(Piece, usize, usize)>::empty());
                }
                while i < pieces.len() && piece_base < end
                    invariant
                        i <= pieces@.len(),
                        base + sum_len(pieces@) <= usize::MAX,
                        piece_base == base + sum_len(pieces@.take(i as int)),
                        out@ == old(out)@ + visited(
                            pieces@.take(i as int),
                            start - base,
                            end - base,
                        ),
                    decreases pieces@.len() - i,
                {
                    let piece = pieces[i];
                    proof {
                        assert(pieces@.take(i + 1).drop_last() =~= pieces@.take(i as int));
                        lemma_sum_len_concat(pieces@.take(i + 1), pieces@.skip(i + 1));
                        assert(pieces@.take(i + 1) + pieces@.skip(i + 1) =~= pieces@);
                    }
                    let ghost before = out@;
                    let piece_end: usize = piece_base + piece.len;
                    let overlap_start: usize = start.saturating_sub(piece_base);
                    let overlap_end: usize = if end <= piece_end {
                        end - piece_base
                    } else {
                        piece.len
                    };
                    if overlap_start < overlap_end {
                        out.push((piece, overlap_start, overlap_end));
                        assert(out@ =~= old(out)@ + visited(
                            pieces@.take(i + 1),
                            start - base,
                            end - base,
                        ));
                    }
                    piece_base = piece_end;
                    i = i + 1;
                }
                proof {
                    let (a, b) = (pieces@.take(i as int), pieces@.skip(i as int));
                    assert(a + b =~= pieces@);
                    lemma_visited_concat(a, b, start - base, end - base);
                    if b.len() > 0 {
                        lemma_visited_outside(
                            b,
                            start - base - sum_len(a),
                            end - base - sum_len(a),
                        );
                    } else {
                        assert(b =~= Seq::empty());
                    }
                    assert(out@ =~= old(out)@ + visited(pieces@, start - base, end - base));
                }
            },
            PiecePage::Internal { children } => {
                let mut child_base: usize = base;
                let mut i: usize = 0;
                let ghost id = child.page_id;
                proof {
                    assert(children@.take(0) =~= Seq::empty());
                    assert(leaves_below(self.pages(), children@.take(0), id) =~= Seq::empty());
                    assert(flat(Seq::<Seq<Piece>>::empty()) =~= Seq::empty());
                    assert(out@ =~= old(out)@ + Seq::<(Piece, usize, usize)>::empty());
                }
                while i < children.len() && child_base < end
                    invariant
                        self.wf(),
                        id == child.page_id,
                        i <= children@.len(),
                        refs_ok(self.pages(), children@, id),
                        children_len(children@) == child.total_bytes,
                        base + child.total_bytes <= usize::MAX,
                        child_base == base + children_len(children@.take(i as int)),
                        out@ == old(out)@ + visited(
                            flat(leaves_below(self.pages(), children@.take(i as int), id)),
                            start - base,
                            end - base,
                        ),
                    decreases children@.len() - i,
                {
                    let target = children[i];
                    let ghost a = flat(leaves_below(self.pages(), children@.take(i as int), id));
                    let ghost t = flat(leaves_of(self.pages(), target.page_id));
                    proof {
                        lemma_node_parts(self.pages(), children@, i as int, id);
                        lemma_ref_totals(self.pages(), target);
                        assert(children@.take(i + 1).drop_last() =~= children@.take(i as int));
                        assert(children@[i as int].page_id < id);
                        lemma_flat_concat(
                            leaves_below(self.pages(), children@.take(i as int), id),
                            leaves_of(self.pages(), target.page_id),
                        );
                        lemma_visited_concat(a, t, start - base, end - base);
                    }
                    let child_end: usize = child_base + target.total_bytes;
                    if child_end <= start {
                        proof {
                            lemma_visited_outside(t, start - child_base, end - child_base);
                        }
                    } else {
                        self.visit_range_ref(target, start, end, child_base, out);
                    }
                    assert(out@ =~= old(out)@ + visited(a + t, start - base, end - base));
                    child_base = child_end;
                    i = i + 1;
                }
                proof {
                    let (l, r) = (children@.take(i as int), children@.skip(i as int));
                    assert(l + r =~= children@);
                    lemma_below_concat(self.pages(), l, r, id);
                    lemma_refs_concat(self.pages(), l, r, id);
                    lemma_refs_totals(self.pages(), l, id);
                    let a = leaves_below(self.pages(), l, id);
                    let b = leaves_below(self.pages(), r, id);
                    lemma_flat_concat(a, b);
                    lemma_visited_concat(flat(a), flat(b), start - base, end - base);
                    if r.len() > 0 {
                        lemma_visited_outside(
                            flat(b),
                            start - base - sum_len(flat(a)),
                            end - base - sum_len(flat(a)),
                        );
                    } else {
                        assert(b =~= Seq::empty());
                        assert(flat(b) =~= Seq::empty());
                    }
                    assert(out@ =~= old(out)@ + visited(
                        flat(leaves_of(self.pages(), child.page_id)),
                        start - base,
                        end - base,
                    ));
                }
            },
        }
    }

    fn find_line_start_ref<F: Fn(Piece, usize) -> Option<usize>>(
        &self,
        child: ChildRef,
        target_break: usize,
        base: usize,
        locate_break: &F,
    ) -> (result: (Option<usize>, Ghost<Option<usize>>))
        requires
            self.wf(),
            ref_ok(self.pages(), child),
            target_break < child.total_line_breaks,
            base + child.total_bytes <= usize::MAX,
            locates(*locate_break, flat(leaves_of(self.pages(), child.page_id))),
        ensures
            ({
                let place = break_place(
                    flat(leaves_of(self.pages(), child.page_id)),
                    target_break as int,
                );
                &&& place is Some
                &&& call_ensures(*locate_break, (place->Some_0.0, place->Some_0.1), result.1@)
                &&& result.0 == (match result.1@ {
                    Some(at) => Some(sat_add(base + place->Some_0.2, at as int)),
                    None => None::<usize>,
                })
            }),
        decreases child.page_id,
    {
        let page = match self.get_page(child.page_id) {
            Some(page) => page,
            None => return (None, Ghost(None)),
        };
        let ghost all = flat(leaves_of(self.pages(), child.page_id));
        match page {
            PiecePage::Leaf { pieces } => {
                let mut piece_base: usize = base;
                let mut target: usize = target_break;
                let mut i: usize = 0;
                proof {
                    lemma_flat_one(pieces@);
                    assert(pieces@.take(0) =~= Seq::empty());
                }
                while i < pieces.len()
                    invariant
                        all == pieces@,
                        all == flat(leaves_of(self.pages(), child.page_id)),
                        i <= pieces@.len(),
                        base + sum_len(pieces@) <= usize::MAX,
                        target_break < sum_breaks(pieces@),
                        piece_base == base + sum_len(pieces@.take(i as int)),
                        target + sum_breaks(pieces@.take(i as int)) == target_break,
                        locates(*locate_break, pieces@),
                    decreases pieces@.len() - i,
                {
                    let piece = pieces[i];
                    proof {
                        assert(pieces@.take(i + 1).drop_last() =~= pieces@.take(i as int));
                        lemma_sum_len_concat(pieces@.take(i + 1), pieces@.skip(i + 1));
                        assert(pieces@.take(i + 1) + pieces@.skip(i + 1) =~= pieces@);
                    }
                    if target < piece.line_breaks {
                        proof {
                            let (a, b) = (pieces@.take(i as int), pieces@.skip(i as int));
                            assert(a + b =~= pieces@);
                            lemma_break_concat(a, b, target_break as int);
                            assert(b[0] == piece);
                            assert(pieces@.contains(pieces@[i as int]));
                        }
                        let local = locate_break(piece, target);
                        let found = match local {
                            Some(at) => Some(piece_base.saturating_add(at)),
                            None => None,
                        };
                        return (found, Ghost(local));
                    }
                    target = target - piece.line_breaks;
                    piece_base = piece_base + piece.len;
                    i = i + 1;
                }
                assert(pieces@.take(i as int) =~= pieces@);
                (None, Ghost(None))
            },
            PiecePage::Internal { children } => {
                let mut child_base: usize = base;
                let mut target: usize = target_break;
                let mut i: usize = 0;
                let ghost id = child.page_id;
                assert(children@.take(0) =~= Seq::empty());
                while i < children.len()
                    invariant
                        self.wf(),
                        id == child.page_id,
                        all == flat(leaves_below(self.pages(), children@, id)),
                        all == flat(leaves_of(self.pages(), id)),
                        i <= children@.len(),
                        refs_ok(self.pages(), children@, id),
                        children_len(children@) == child.total_bytes,
                        children_breaks(children@) == child.total_line_breaks,
                        base + child.total_bytes <= usize::MAX,
                        target_break < child.total_line_breaks,
                        child_base == base + children_len(children@.take(i as int)),
                        target + children_breaks(children@.take(i as int)) == target_break,
                        locates(*locate_break, all),
                    decreases children@.len() - i,
                {
                    let next = children[i];
                    let ghost done = children@.take(i as int);
                    let ghost a = leaves_below(self.pages(), done, id);
                    let ghost t = leaves_of(self.pages(), next.page_id);
                    let ghost b = leaves_below(self.pages(), children@.skip(i + 1), id);
                    proof {
                        lemma_node_parts(self.pages(), children@, i as int, id);
                        lemma_ref_totals(self.pages(), next);
                        lemma_refs_totals(self.pages(), done, id);
                        assert(children@.take(i + 1).drop_last() =~= done);
                        assert(children@[i as int].page_id < id);
                    }
                    if target < next.total_line_breaks {
                        proof {
                            lemma_contains_part(flat(a), flat(t), flat(b));
                            lemma_break_concat(flat(a) + flat(t), flat(b), target_break as int);
                            lemma_break_concat(flat(a), flat(t), target_break as int);
                            lemma_sum_len_concat(flat(a), flat(t));
                        }
                        return self.find_line_start_ref(next, target, child_base, locate_break);
                    }
                    target = target - next.total_line_breaks;
                    child_base = child_base + next.total_bytes;
                    i = i + 1;
                }
                assert(children@.take(i as int) =~= children@);
                (None, Ghost(None))
            },
        }
    }
}

/// A text as a sequence of pieces, held in pages that are never changed, so that earlier
/// states stay reachable.
#[derive(Debug)]
pub struct PieceTree {
    store: PageStore,
    root: Option<ChildRef>,
    history: Vec<RootEntry>,
    history_index: usize,
    history_batch_depth: usize,
    history_batch_dirty: bool,
}

impl PieceTree {
    pub closed spec fn store(self) -> PageStore {
        self.store
    }

    pub closed spec fn root(self) -> Option<ChildRef> {
        self.root
    }

    /// The states that undo and redo move through.
    pub closed spec fn history(self) -> Seq<RootEntry> {
        self.history@
    }

    /// The current state's place in the history.
    pub closed spec fn position(self) -> nat {
        self.history_index as nat
    }

    /// How many batches are open.
    pub closed spec fn batch_depth(self) -> nat {
        self.history_batch_depth as nat
    }

    /// `true` where an open batch has changed the text.
    pub closed spec fn batch_dirty(self) -> bool {
        self.history_batch_dirty
    }

    pub open spec fn pages(self) -> Map<u64, PageView> {
        self.store().pages()
    }

    /// The leaves of the current state.
    pub open spec fn leaves(self) -> Seq<Seq<Piece>> {
        root_leaves(self.pages(), self.root())
    }

    /// The pieces of the current state.
    pub open spec fn pieces(self) -> Seq<Piece> {
        flat(self.leaves())
    }

    /// How many pages the current state takes.
    pub open spec fn nodes(self) -> nat {
        root_nodes(self.pages(), self.root())
    }

    /// The leaves of state `i` of the history.
    pub open spec fn state(self, i: int) -> Seq<Seq<Piece>> {
        root_leaves(self.pages(), self.history()[i].root)
    }

    pub open spec fn wf(self) -> bool {
        &&& self.store().wf()
        &&& root_ok(self.pages(), self.root())
        &&& forall|i: int|
            0 <= i < self.history().len() ==> root_ok(
                self.pages(),
                (#[trigger] self.history()[i]).root,
            )
        &&& self.position() < self.history().len()
        &&& self.batch_depth() == 0 ==> !self.batch_dirty()
        &&& !self.batch_dirty() ==> self.root() == self.history()[self.position() as int].root
    }

    /// `true` where one more edit cannot run out of page numbers.
    pub open spec fn room(self) -> bool {
        self.store().last_page_id() + 2 * self.nodes() + 4 < u64::MAX
    }

    /// All states of the history that both have are the same.
    pub open spec fn keeps_states(self, before: PieceTree) -> bool {
        forall|i: int|
            0 <= i < before.history().len() && i < self.history().len() && self.history()[i]
                == before.history()[i] ==> #[trigger] self.state(i) == before.state(i)
    }

    /// State `i` of the history became the current one, and nothing else changed.
    pub open spec fn moved_to(self, before: PieceTree, i: int) -> bool {
        &&& self.store() == before.store()
        &&& self.history() == before.history()
        &&& self.batch_depth() == before.batch_depth()
        &&& self.batch_dirty() == before.batch_dirty()
        &&& self.position() == i
        &&& self.root() == before.history()[i].root
    }

    /// An edit was noted: in a batch as a change of the batch, else as the next state, which
    /// drops the states that could be redone.
    pub open spec fn notes_edit(self, before: PieceTree) -> bool {
        &&& self.batch_depth() == before.batch_depth()
        &&& if before.batch_depth() > 0 {
            &&& self.batch_dirty()
            &&& self.history() == before.history()
            &&& self.position() == before.position()
        } else {
            &&& !self.batch_dirty()
            &&& self.pushes_root(before)
        }
    }

    /// The current root became the next state, unless it is the state already.
    pub open spec fn pushes_root(self, before: PieceTree) -> bool {
        let entry = RootEntry { root: self.root() };
        if before.history()[before.position() as int] == entry {
            &&& self.history() == before.history()
            &&& self.position() == before.position()
        } else {
            &&& self.history() == before.history().take((before.position() + 1) as int).push(entry)
            &&& self.position() == before.position() + 1
        }
    }

    pub fn new() -> (tree: PieceTree)
        ensures
            tree.wf(),
            tree.room(),
            tree.store() is InMemory,
            tree.store().last_page_id() == 0,
            tree.root() is None,
            tree.leaves() == Seq::<Seq<Piece>>::empty(),
            tree.history() == seq![RootEntry { root: None }],
            tree.position() == 0,
            tree.batch_depth() == 0,
    {
        let mut history: Vec<RootEntry> = Vec::new();
        history.push(RootEntry { root: None });
        assert(history@ =~= seq![RootEntry { root: None }]);
        PieceTree {
            store: PageStore::InMemory(InMemoryPageStore::new()),
            root: None,
            history,
            history_index: 0,
            history_batch_depth: 0,
            history_batch_dirty: false,
        }
    }

    /// A tree of `pieces` without the empty ones.
    pub fn from_pieces(pieces: Vec<Piece>) -> (tree: PieceTree)
        requires
            pieces_ok(nonempty(pieces@)),
            sum_len(nonempty(pieces@)) <= usize::MAX,
        ensures
            tree.wf(),
            tree.room(),
            tree.store() is InMemory,
            tree.leaves() == chunks(nonempty(pieces@)),
            tree.pieces() == nonempty(pieces@),
            tree.history() == seq![RootEntry { root: tree.root() }],
            tree.position() == 0,
            tree.batch_depth() == 0,
            tree.store().last_page_id() <= 2 * tree.leaves().len(),
            tree.nodes() <= 2 * tree.leaves().len(),
    {
        let mut this = PieceTree::new();
        let kept = filter_zero_len(pieces);
        this.plant(&kept);
        this
    }

    /// Makes `pieces` the only state of a tree that has no pages yet.
    fn plant(&mut self, pieces: &Vec<Piece>)
        requires
            old(self).store().wf(),
            old(self).store().last_page_id() == 0,
            old(self).batch_depth() == 0,
            !old(self).batch_dirty(),
            pieces_ok(pieces@),
            sum_len(pieces@) <= usize::MAX,
        ensures
            final(self).wf(),
            final(self).room(),
            final(self).store().extends(old(self).store()),
            final(self).leaves() == chunks(pieces@),
            final(self).pieces() == pieces@,
            final(self).history() == seq![RootEntry { root: final(self).root() }],
            final(self).position() == 0,
            final(self).batch_depth() == 0,
            final(self).store().last_page_id() <= 2 * final(self).leaves().len(),
            final(self).nodes() <= 2 * final(self).leaves().len(),
    {
        proof {
            lemma_pieces_ok_sums(pieces@);
            lemma_chunks(pieces@);
        }
        let leaves = self.store.leaf_refs_from_pieces(pieces);
        let ghost mid = self.store;
        self.root = self.store.build_tree_from_child_refs(leaves);
        proof {
            self.store.lemma_extends(mid, old(self).store);
        }
        let mut history: Vec<RootEntry> = Vec::new();
        history.push(RootEntry { root: self.root });
        assert(history@ =~= seq![RootEntry { root: self.root }]);
        self.history = history;
        self.history_index = 0;
    }

    /// The bytes of the text.
    pub fn total_len(&self) -> (len: usize)
        requires
            self.wf(),
        ensures
            len == sum_len(self.pieces()),
    {
        match self.root {
            Some(root) => {
                proof {
                    lemma_ref_totals(self.pages(), root);
                }
                root.total_bytes
            },
            None => {
                assert(self.pieces() =~= Seq::empty());
                0
            },
        }
    }

    /// The line breaks of the text.
    pub fn total_line_breaks(&self) -> (breaks: usize)
        requires
            self.wf(),
        ensures
            breaks == sum_breaks(self.pieces()),
    {
        match self.root {
            Some(root) => {
                proof {
                    lemma_ref_totals(self.pages(), root);
                }
                root.total_line_breaks
            },
            None => {
                assert(self.pieces() =~= Seq::empty());
                0
            },
        }
    }

    /// The pieces of the text in order.
    pub fn to_vec(&self) -> (pieces: Vec<Piece>)
        requires
            self.wf(),
        ensures
            pieces@ == self.pieces(),
    {
        let mut out: Vec<Piece> = Vec::new();
        match self.root {
            Some(root) => self.store.collect_pieces(root, &mut out),
            None => {},
        }
        assert(out@ =~= self.pieces());
        out
    }

    /// The parts of pieces that lie in `start..end`, in order.
    pub fn visit_range(&self, start: usize, end: usize) -> (parts: Vec<(Piece, usize, usize)>)
        requires
            self.wf(),
        ensures
            parts@ == visited(self.pieces(), start as int, end as int),
    {
        let mut out: Vec<(Piece, usize, usize)> = Vec::new();
        match self.root {
            Some(root) => {
                let total: usize = root.total_bytes;
                proof {
                    lemma_ref_totals(self.pages(), root);
                    if outside(0, total as int, start as int, end as int) || start >= end {
                        lemma_visited_none(self.pieces(), start as int, end as int);
                    }
                }
                if start >= total || start >= end {
                    assert(out@ =~= visited(self.pieces(), start as int, end as int));
                    return out;
                }
                self.store.visit_range_ref(root, start, end, 0, &mut out);
                assert(out@ =~= visited(self.pieces(), start as int, end as int));
            },
            None => {
                assert(self.pieces() =~= Seq::empty());
                assert(out@ =~= visited(self.pieces(), start as int, end as int));
            },
        }
        out
    }

    /// Where line `line0` starts. `locate_break` finds a numbered line break in a piece and
    /// returns the offset behind it.
    pub fn find_line_start<F: Fn(Piece, usize) -> Option<usize>>(
        &self,
        line0: usize,
        locate_break: &F,
    ) -> (found: Option<usize>)
        requires
            self.wf(),
            locates(*locate_break, self.pieces()),
        ensures
            line0 == 0 ==> found == Some(0usize),
            line0 > 0 ==> line_start_found(*locate_break, self.pieces(), line0 - 1, found),
    {
        if line0 == 0 {
            return Some(0);
        }
        let root = match self.root {
            Some(root) => root,
            None => {
                assert(self.pieces() =~= Seq::empty());
                return None;
            },
        };
        let target_break: usize = line0 - 1;
        proof {
            lemma_ref_totals(self.pages(), root);
            lemma_break_concat(self.pieces(), Seq::empty(), target_break as int);
            assert(self.pieces() + Seq::<Piece>::empty() =~= self.pieces());
        }
        if target_break >= root.total_line_breaks {
            return None;
        }
        let (found, in_piece) = self.store.find_line_start_ref(root, target_break, 0, locate_break);
        proof {
            let place = break_place(self.pieces(), target_break as int)->Some_0;
            assert(call_ensures(*locate_break, (place.0, place.1), in_piece@));
        }
        found
    }

    /// Inserts `piece` at `offset`, or behind the last byte where there is no such offset.
    pub fn insert<F: Fn(Piece, usize) -> Halves>(
        &mut self,
        offset: usize,
        piece: Piece,
        split_piece: &F,
    )
        requires
            old(self).wf(),
            old(self).room(),
            piece.len > 0 ==> piece_ok(piece) && sum_len(old(self).pieces()) + piece.len
                <= usize::MAX,
            splits(*split_piece, old(self).pieces()),
        ensures
            final(self).wf(),
            final(self).store().extends(old(self).store()),
            final(self).keeps_states(*old(self)),
            piece.len == 0 ==> *final(self) == *old(self),
            piece.len > 0 ==> {
                let at = min_int(offset as int, sum_len(old(self).pieces()) as int);
                let cut = cut_in_leaves(old(self).leaves(), at);
                &&& exists|halves: Halves|
                    {
                        &&& #[trigger] inserted_in_leaves(old(self).leaves(), at, piece, halves)
                            == final(self).leaves()
                        &&& cut is Some ==> call_ensures(*split_piece, cut->Some_0, halves)
                    }
                &&& final(self).notes_edit(*old(self))
            },
            final(self).store().last_page_id() <= old(self).store().last_page_id() + 2 * old(self).nodes() + 3,
            final(self).nodes() <= 2 * old(self).nodes() + 3,
    {
        if piece.len == 0 {
            return;
        }
        let ghost start = *self;
        let ghost mut outcome: Halves = (None, None);
        let total: usize = self.total_len();
        let at: usize = if offset <= total {
            offset
        } else {
            total
        };
        match self.root {
            None => {
                let mut one: Vec<Piece> = Vec::new();
                one.push(piece);
                proof {
                    assert(one@ =~= seq![piece]);
                    reveal_with_fuel(sum_len, 2);
                }
                let leaves = self.store.leaf_refs_from_pieces(&one);
                let ghost mid = self.store;
                self.root = self.store.build_tree_from_child_refs(leaves);
                proof {
                    self.store.lemma_extends(mid, start.store);
                    assert(chunks(one@) =~= seq![seq![piece]]);
                }
            },
            Some(root) => {
                proof {
                    lemma_ref_totals(self.pages(), root);
                }
                let (children, halves) = self.store.insert_at(root, at, piece, split_piece);
                let ghost mid = self.store;
                self.root = self.store.build_tree_from_child_refs(children);
                proof {
                    self.store.lemma_extends(mid, start.store);
                    outcome = halves@;
                }
            },
        }
        assert(inserted_in_leaves(start.leaves(), at as int, piece, outcome) == self.leaves());
        let ghost cut = cut_in_leaves(start.leaves(), at as int);
        assert(cut is Some ==> call_ensures(*split_piece, cut->Some_0, outcome));
        proof {
            self.lemma_extended(start);
        }
        let ghost edited = *self;
        self.record_history_root();
        proof {
            self.lemma_noted(edited, start);
            assert(self.leaves() == edited.leaves());
            assert(at as int == min_int(offset as int, sum_len(start.pieces()) as int));
            assert(self.notes_edit(start));
            assert(inserted_in_leaves(start.leaves(), at as int, piece, outcome) == self.leaves());
        }
    }

    /// Removes `len` bytes from `start` on, as far as there are any.
    pub fn delete_range<F: Fn(Piece, usize, usize) -> Halves>(
        &mut self,
        start: usize,
        len: usize,
        trim_piece: &F,
    )
        requires
            old(self).wf(),
            old(self).room(),
            trims(*trim_piece, old(self).pieces()),
        ensures
            final(self).wf(),
            final(self).store().extends(old(self).store()),
            final(self).keeps_states(*old(self)),
            ({
                let total = sum_len(old(self).pieces()) as int;
                let end = min_int(start + len, total);
                if start >= end {
                    *final(self) == *old(self)
                } else {
                    &&& exists|outs: Seq<Seq<Halves>>|
                        {
                            &&& #[trigger] deleted_in_leaves(
                                old(self).leaves(),
                                start as int,
                                end,
                                outs,
                            ) == final(self).leaves()
                            &&& outcomes_in_leaves(
                                *trim_piece,
                                old(self).leaves(),
                                start as int,
                                end,
                                outs,
                            )
                        }
                    &&& final(self).notes_edit(*old(self))
                }
            }),
            final(self).store().last_page_id() <= old(self).store().last_page_id() + 2 * old(self).nodes() + 3,
            final(self).nodes() <= 2 * old(self).nodes() + 3,
    {
        if len == 0 {
            return;
        }
        let ghost before = *self;
        let root = match self.root {
            Some(root) => root,
            None => {
                assert(self.pieces() =~= Seq::empty());
                return;
            },
        };
        proof {
            lemma_ref_totals(self.pages(), root);
        }
        let total: usize = root.total_bytes;
        if start >= total {
            return;
        }
        let end: usize = if len <= total - start {
            start + len
        } else {
            total
        };
        let (children, outs) = self.store.delete_at(root, start, end, trim_piece);
        let ghost mid = self.store;
        self.root = self.store.build_tree_from_child_refs(children);
        proof {
            self.store.lemma_extends(mid, before.store);
            assert(deleted_in_leaves(before.leaves(), start as int, end as int, outs@)
                == self.leaves());
            self.lemma_extended(before);
        }
        let ghost edited = *self;
        self.record_history_root();
        proof {
            self.lemma_noted(edited, before);
            assert(self.leaves() == edited.leaves());
        }
    }

    /// Every state of the history is as it was when pages were only added.
    proof fn lemma_extended(self, before: PieceTree)
        requires
            before.wf(),
            self.store().extends(before.store()),
            self.history() == before.history(),
        ensures
            forall|i: int|
                0 <= i < self.history().len() ==> root_ok(
                    self.pages(),
                    (#[trigger] self.history()[i]).root,
                ),
            self.keeps_states(before),
    {
        assert forall|i: int| 0 <= i < self.history().len() implies root_ok(
            self.pages(),
            (#[trigger] self.history()[i]).root,
        ) && self.state(i) == before.state(i) by {
            match self.history()[i].root {
                Some(child) => {
                    lemma_ref_extend(before.pages(), self.pages(), child);
                },
                None => {},
            }
        }
    }

    /// Noting an edit keeps the states.
    proof fn lemma_noted(self, edited: PieceTree, before: PieceTree)
        requires
            edited.keeps_states(before),
            edited.history() == before.history(),
            self.store() == edited.store(),
        ensures
            self.keeps_states(before),
    {
        assert forall|i: int|
            0 <= i < before.history().len() && i < self.history().len() && self.history()[i]
                == before.history()[i] implies #[trigger] self.state(i) == before.state(i) by {
            assert(edited.state(i) == before.state(i));
        }
    }

    /// Goes back one state.
    pub fn undo(&mut self) -> (moved: bool)
        requires
            old(self).wf(),
        ensures
            final(self).wf(),
            moved == (old(self).position() > 0),
            moved ==> final(self).moved_to(*old(self), old(self).position() - 1),
            !moved ==> *final(self) == *old(self),
    {
        if self.history_index == 0 {
            return false;
        }
        self.history_index = self.history_index - 1;
        self.root = self.history[self.history_index].root;
        true
    }

    /// Goes forward one state.
    pub fn redo(&mut self) -> (moved: bool)
        requires
            old(self).wf(),
        ensures
            final(self).wf(),
            moved == (old(self).position() + 1 < old(self).history().len()),
            moved ==> final(self).moved_to(*old(self), (old(self).position() + 1) as int),
            !moved ==> *final(self) == *old(self),
    {
        let len: usize = self.history.len();
        if self.history_index >= len - 1 {
            return false;
        }
        self.history_index = self.history_index + 1;
        self.root = self.history[self.history_index].root;
        true
    }

    /// Opens a batch: edits until it is closed become one state.
    pub fn begin_batch_edit(&mut self)
        requires
            old(self).wf(),
        ensures
            final(self).wf(),
            final(self).batch_depth() == sat_add(old(self).batch_depth() as int, 1),
            final(self).batch_dirty() == old(self).batch_dirty(),
            final(self).store() == old(self).store(),
            final(self).root() == old(self).root(),
            final(self).history() == old(self).history(),
            final(self).position() == old(self).position(),
    {
        self.history_batch_depth = self.history_batch_depth.saturating_add(1);
    }

    /// Closes a batch. The outermost one becomes a state where the text changed in it.
    pub fn end_batch_edit(&mut self)
        requires
            old(self).wf(),
        ensures
            final(self).wf(),
            final(self).store() == old(self).store(),
            final(self).root() == old(self).root(),
            old(self).batch_depth() == 0 ==> *final(self) == *old(self),
            old(self).batch_depth() > 0 ==> final(self).batch_depth() == old(self).batch_depth()
                - 1,
            old(self).batch_depth() == 1 && old(self).batch_dirty() ==> !final(self).batch_dirty()
                && final(self).pushes_root(*old(self)),
            !(old(self).batch_depth() == 1 && old(self).batch_dirty()) ==> final(self).batch_dirty()
                == old(self).batch_dirty() && final(self).history() == old(self).history() && final(self).position() == old(self).position(),
    {
        if self.history_batch_depth == 0 {
            return;
        }
        self.history_batch_depth = self.history_batch_depth - 1;
        if self.history_batch_depth == 0 && self.history_batch_dirty {
            self.history_batch_dirty = false;
            self.push_history_root();
        }
    }

    fn record_history_root(&mut self)
        requires
            old(self).store().wf(),
            root_ok(old(self).pages(), old(self).root()),
            forall|i: int|
                0 <= i < old(self).history().len() ==> root_ok(
                    old(self).pages(),
                    (#[trigger] old(self).history()[i]).root,
                ),
            old(self).position() < old(self).history().len(),
            old(self).batch_depth() == 0 ==> !old(self).batch_dirty(),
        ensures
            final(self).wf(),
            final(self).store() == old(self).store(),
            final(self).root() == old(self).root(),
            final(self).notes_edit(*old(self)),
    {
        if self.history_batch_depth > 0 {
            self.history_batch_dirty = true;
            return;
        }
        self.push_history_root();
    }

    fn push_history_root(&mut self)
        requires
            old(self).store().wf(),
            root_ok(old(self).pages(), old(self).root()),
            forall|i: int|
                0 <= i < old(self).history().len() ==> root_ok(
                    old(self).pages(),
                    (#[trigger] old(self).history()[i]).root,
                ),
            old(self).position() < old(self).history().len(),
            !old(self).batch_dirty(),
        ensures
            final(self).wf(),
            final(self).store() == old(self).store(),
            final(self).root() == old(self).root(),
            final(self).batch_depth() == old(self).batch_depth(),
            !final(self).batch_dirty(),
            final(self).pushes_root(*old(self)),
    {
        let next = RootEntry { root: self.root };
        if self.history[self.history_index] == next {
            return;
        }
        let len: usize = self.history.len();
        assert(self.history_index < len);
        let keep: usize = self.history_index + 1;
        self.history.truncate(keep);
        self.history.push(next);
        self.history_index = keep;
        assert(self.history@ =~= old(self).history@.take(old(self).history_index + 1).push(next));
    }
}

proof fn lemma_visited_none(pieces: Seq<Piece>, start: int, end: int)
    requires
        outside(0, sum_len(pieces) as int, start, end) || start >= end,
    ensures
        visited(pieces, start, end) == Seq::<(Piece, usize, usize)>::empty(),
    decreases pieces.len(),
{
    if pieces.len() > 0 {
        lemma_visited_none(pieces.drop_last(), start, end);
    }
}

/// An edit outside of a batch is taken back by undo, and comes back with redo.
pub proof fn law_undo_redo(
    before: PieceTree,
    edited: PieceTree,
    undone: PieceTree,
    redone: PieceTree,
)
    requires
        before.wf(),
        edited.wf(),
        before.batch_depth() == 0,
        edited.notes_edit(before),
        edited.keeps_states(before),
        edited.history() != before.history() || edited.position() != before.position(),
        undone.moved_to(edited, edited.position() - 1),
        redone.moved_to(undone, (undone.position() + 1) as int),
    ensures
        edited.position() > 0,
        undone.leaves() == before.leaves(),
        undone.position() + 1 < undone.history().len(),
        redone.leaves() == edited.leaves(),
{
    let i = before.position() as int;
    assert(edited.history()[i] == before.history()[i]);
    assert(edited.state(i) == before.state(i));
}

/// Going back and forward again leads to the same text, from every state of the history and
/// in either order; and moving through the history loses no state.
pub proof fn law_history_walk(tree: PieceTree, back: PieceTree, forth: PieceTree)
    requires
        tree.wf(),
        tree.batch_depth() == 0,
        tree.position() > 0,
        back.moved_to(tree, tree.position() - 1),
        forth.moved_to(back, (back.position() + 1) as int),
    ensures
        forth.position() == tree.position(),
        forth.leaves() == tree.state(tree.position() as int),
        back.leaves() == tree.state(tree.position() - 1),
        forth.history() == tree.history(),
        back.history() == tree.history(),
        forall|i: int| 0 <= i < tree.history().len() ==> #[trigger] forth.state(i) == tree.state(i),
{
}

/// The edits of a batch become one state: taking it back leads to the text in front of the
/// batch.
pub proof fn law_batch_is_one_state(
    before: PieceTree,
    edited: PieceTree,
    ended: PieceTree,
    undone: PieceTree,
)
    requires
        before.wf(),
        ended.wf(),
        edited.keeps_states(before),
        edited.history() == before.history(),
        edited.position() == before.position(),
        ended.pushes_root(edited),
        ended.root() == edited.root(),
        ended.store() == edited.store(),
        ended.position() != edited.position(),
        undone.moved_to(ended, ended.position() - 1),
    ensures
        ended.position() == before.position() + 1,
        ended.history().len() == before.position() + 2,
        ended.state(ended.position() as int) == edited.leaves(),
        undone.leaves() == before.state(before.position() as int),
{
    let i = before.position() as int;
    assert(ended.history()[i] == before.history()[i]);
    assert(edited.state(i) == before.state(i));
}

/// What a tree looks like that was opened from the log that another one has stored.
pub open spec fn reopened_from(opened: PieceTree, stored: PieceTree) -> bool {
    &&& stored.store() is Disk
    &&& opened.store() is Disk
    &&& ({
        let (a, b) = (stored.store()->Disk_0, opened.store()->Disk_0);
        &&& b.wf()
        &&& a.log() == b.log()
        &&& a.resident() == Map::<u64, PageView>::empty()
        &&& b.resident() == Map::<u64, PageView>::empty()
        &&& a.last_page_id() == b.last_page_id()
    })
    &&& opened.history() == stored.history()
    &&& opened.position() == stored.position()
    &&& opened.root() == stored.history()[stored.position() as int].root
    &&& opened.batch_depth() == 0
    &&& !opened.batch_dirty()
}

/// A session that was stored and opened again has every state it had, with the same one
/// current.
pub proof fn law_recovery(opened: PieceTree, stored: PieceTree)
    requires
        stored.wf(),
        reopened_from(opened, stored),
    ensures
        opened.wf(),
        opened.leaves() == stored.state(stored.position() as int),
        forall|i: int|
            0 <= i < stored.history().len() ==> #[trigger] opened.state(i) == stored.state(i),
{
    let (a, b) = (stored.store()->Disk_0, opened.store()->Disk_0);
    assert forall|id: u64| a.found(id) == b.found(id) by {}
    assert(a.pages() =~= b.pages());
}

impl PieceTree {
    /// A tree of `pieces` in a fresh log for `source`, which is stored at once.
    pub fn from_pieces_disk(
        source: SourceMetadata,
        pieces: Vec<Piece>,
        committed_at_ns: u64,
    ) -> (result: Result<PieceTree, EditLogError>)
        requires
            pieces_ok(nonempty(pieces@)),
            sum_len(nonempty(pieces@)) <= usize::MAX,
        ensures
            result is Ok,
            ({
                let tree = result->Ok_0;
                &&& tree.wf()
                &&& tree.room()
                &&& tree.store().recoverable()
                &&& tree.store()->Disk_0.source() == source
                &&& tree.leaves() == chunks(nonempty(pieces@))
                &&& tree.pieces() == nonempty(pieces@)
                &&& tree.history() == seq![RootEntry { root: tree.root() }]
                &&& tree.position() == 0
                &&& tree.batch_depth() == 0
                &&& tree.stored_as(
                    Seq::empty(),
                    SessionMeta { known_byte_len: 0, full_index: false },
                )
                &&& committed_at(tree.store()->Disk_0.log(), committed_at_ns)
                &&& tree.store().last_page_id() <= 2 * tree.leaves().len() + 1
                &&& tree.nodes() <= 2 * tree.leaves().len()
            }),
    {
        let store = DiskPageStore::create(source, committed_at_ns);
        let mut this = PieceTree {
            store: PageStore::Disk(store),
            root: None,
            history: Vec::new(),
            history_index: 0,
            history_batch_depth: 0,
            history_batch_dirty: false,
        };
        let kept = filter_zero_len(pieces);
        proof {
            lemma_pieces_ok_sums(kept@);
            lemma_chunks(kept@);
        }
        this.plant(&kept);
        let none: Vec<u8> = Vec::new();
        assert(none@ =~= Seq::empty());
        assert(this.store().recoverable());
        match this.flush_session(none.as_slice(), SessionMeta::default(), committed_at_ns) {
            Err(err) => Err(err),
            Ok(()) => Ok(this),
        }
    }

    /// The log holds this tree's history, with `add` and `meta`.
    pub open spec fn stored_as(self, add: Seq<u8>, meta: SessionMeta) -> bool {
        &&& self.store() is Disk
        &&& parsed_header(self.store()->Disk_0.log()) is Ok
        &&& parsed_header(self.store()->Disk_0.log())->Ok_0.page_count
            == self.store().last_page_id()
        &&& opened_session(self.store()->Disk_0.log(), self.store()->Disk_0.source()) == Ok::<
            Option<StoredSession>,
            EditLogError,
        >(
            Some(
                StoredSession {
                    history: self.history(),
                    history_index: self.position(),
                    add,
                    meta,
                },
            ),
        )
    }

    /// Stores the session in the log: the history, the add buffer and what is known of the
    /// text. A tree in memory has nothing to store.
    pub fn flush_session(&mut self, add: &[u8], meta: SessionMeta, committed_at_ns: u64) -> (result:
        Result<(), EditLogError>)
        requires
            old(self).wf(),
            old(self).store().last_page_id() + history_chunks(old(self).history().len())
                + add_chunks(add@.len()) <= u64::MAX,
        ensures
            final(self).wf(),
            final(self).root() == old(self).root(),
            final(self).history() == old(self).history(),
            final(self).position() == old(self).position(),
            final(self).batch_depth() == old(self).batch_depth(),
            final(self).batch_dirty() == old(self).batch_dirty(),
            final(self).leaves() == old(self).leaves(),
            final(self).nodes() == old(self).nodes(),
            final(self).keeps_states(*old(self)),
            old(self).store() is InMemory ==> result is Ok && *final(self) == *old(self),
            old(self).store() is Disk ==> {
                let disk = old(self).store()->Disk_0;
                &&& final(self).store() is Disk
                &&& final(self).store()->Disk_0.source() == disk.source()
                &&& final(self).store()->Disk_0.writable() == disk.writable()
                &&& final(self).store()->Disk_0.resident() == disk.resident()
                &&& final(self).store()->Disk_0.failed() == (disk.failed() || disk.resident().len()
                    > 0)
                &&& final(self).store().last_page_id() <= old(self).store().last_page_id()
                    + history_chunks(old(self).history().len()) + add_chunks(add@.len())
                &&& result == (if disk.failed() || disk.resident().len() > 0 {
                    Err::<(), EditLogError>(EditLogError::PersistenceUnavailable)
                } else if !disk.writable() {
                    Err::<(), EditLogError>(EditLogError::MissingHandle)
                } else if !disk.aligned() {
                    Err::<(), EditLogError>(EditLogError::AppendOrder)
                } else {
                    Ok::<(), EditLogError>(())
                })
                &&& result is Ok ==> final(self).stored_as(add@, meta)
                    && committed_at(final(self).store()->Disk_0.log(), committed_at_ns)
            },
            old(self).store().recoverable() ==> result is Ok && final(self).store().recoverable(),
    {
        let ghost before = *self;
        match &mut self.store {
            PageStore::InMemory(_) => Ok(()),
            PageStore::Disk(store) => {
                let result = store.flush_session(
                    self.history.as_slice(),
                    self.history_index,
                    add,
                    meta,
                    committed_at_ns,
                );
                proof {
                    self.lemma_pages_grew(before);
                }
                result
            },
        }
    }

    /// More pages change no state.
    proof fn lemma_pages_grew(self, before: PieceTree)
        requires
            before.wf(),
            before.pages().submap_of(self.pages()),
            self.history() == before.history(),
            self.root() == before.root(),
        ensures
            root_ok(self.pages(), self.root()),
            self.leaves() == before.leaves(),
            self.nodes() == before.nodes(),
            self.keeps_states(before),
            forall|i: int|
                0 <= i < self.history().len() ==> root_ok(
                    self.pages(),
                    (#[trigger] self.history()[i]).root,
                ),
    {
        match self.root() {
            Some(child) => {
                lemma_ref_extend(before.pages(), self.pages(), child);
            },
            None => {},
        }
        assert forall|i: int| 0 <= i < self.history().len() implies root_ok(
            self.pages(),
            (#[trigger] self.history()[i]).root,
        ) && self.state(i) == before.state(i) by {
            match self.history()[i].root {
                Some(child) => {
                    lemma_ref_extend(before.pages(), self.pages(), child);
                },
                None => {},
            }
        }
    }

    /// Opens the session that `log` stores for `source`: the tree, the add buffer and what
    /// was known of the text. A tree from a log of unknown origin has to be checked with
    /// `is_consistent` before it is used.
    pub fn try_open_disk_session(log: Vec<u8>, source: SourceMetadata) -> (result: Result<
        Option<(PieceTree, Vec<u8>, SessionMeta)>,
        EditLogError,
    >)
        ensures
            match opened_session(log@, source) {
                Err(err) => result is Err && result->Err_0 == err,
                Ok(None) => result is Ok && result->Ok_0 is None,
                Ok(Some(session)) => {
                    &&& result is Ok && result->Ok_0 is Some
                    &&& ({
                        let (tree, add, meta) = result->Ok_0->Some_0;
                        &&& tree.opened()
                        &&& tree.store()->Disk_0.source() == source
                        &&& tree.store()->Disk_0.log() == log@
                        &&& tree.store()->Disk_0.writable()
                        &&& !tree.store()->Disk_0.failed()
                        &&& tree.store()->Disk_0.resident() == Map::<u64, PageView>::empty()
                        &&& tree.store().last_page_id() == parsed_header(log@)->Ok_0.page_count
                        &&& tree.history() == session.history
                        &&& tree.position() == session.history_index
                        &&& add@ == session.add
                        &&& meta == session.meta
                        &&& forall|stored: PieceTree|
                            #![trigger stored.stored_as(session.add, session.meta)]
                            stored.wf() && stored.store() is Disk && stored.store()->Disk_0.log()
                                == log@ && stored.store()->Disk_0.resident() == Map::<
                                u64,
                                PageView,
                            >::empty() && stored.store()->Disk_0.source() == source
                                && stored.stored_as(session.add, session.meta) ==> reopened_from(
                                tree,
                                stored,
                            )
                    })
                },
            },
    {
        match DiskPageStore::open(log, source) {
            Err(err) => Err(err),
            Ok(None) => Ok(None),
            Ok(Some((store, history, history_index, add, meta))) => {
                let root = history[history_index].root;
                let tree = PieceTree {
                    store: PageStore::Disk(store),
                    root,
                    history,
                    history_index,
                    history_batch_depth: 0,
                    history_batch_dirty: false,
                };
                Ok(Some((tree, add, meta)))
            },
        }
    }

    /// What holds of a tree that was opened from any log.
    pub open spec fn opened(self) -> bool {
        &&& self.store() is Disk
        &&& self.store().wf()
        &&& self.position() < self.history().len()
        &&& self.root() == self.history()[self.position() as int].root
        &&& self.batch_depth() == 0
        &&& !self.batch_dirty()
    }

    /// Tells whether every state of an opened tree is sound.
    pub fn is_consistent(&self) -> (consistent: bool)
        requires
            self.opened(),
        ensures
            consistent == self.wf(),
    {
        let mut i: usize = 0;
        while i < self.history.len()
            invariant
                self.opened(),
                i <= self.history@.len(),
                forall|j: int|
                    0 <= j < i ==> root_ok(self.pages(), (#[trigger] self.history()[j]).root),
            decreases self.history@.len() - i,
        {
            match self.history[i].root {
                Some(child) => {
                    if !self.store.check_ref(child) {
                        assert(!root_ok(self.pages(), self.history()[i as int].root));
                        return false;
                    }
                },
                None => {},
            }
            i = i + 1;
        }
        assert(root_ok(self.pages(), self.history()[self.position() as int].root));
        true
    }

    /// Moves the text into memory, as a single state.
    pub fn detach_persistence(&mut self)
        requires
            old(self).wf(),
        ensures
            final(self).wf(),
            old(self).store() is InMemory ==> *final(self) == *old(self),
            old(self).store() is Disk ==> {
                &&& final(self).room()
                &&& final(self).store() is InMemory
                &&& final(self).pieces() == old(self).pieces()
                &&& final(self).leaves() == chunks(old(self).pieces())
                &&& final(self).history() == seq![RootEntry { root: final(self).root() }]
                &&& final(self).position() == 0
                &&& final(self).batch_depth() == 0
            },
    {
        match self.store {
            PageStore::InMemory(_) => return ,
            PageStore::Disk(_) => {},
        }
        let pieces = self.to_vec();
        proof {
            self.lemma_pieces_sound();
            lemma_nonempty(pieces@);
        }
        *self = PieceTree::from_pieces(pieces);
    }

    /// The pieces of a sound tree are sound, and their bytes can be counted.
    pub proof fn lemma_pieces_sound(self)
        requires
            self.wf(),
        ensures
            leaves_ok(self.leaves()),
            pieces_ok(self.pieces()),
            sum_len(self.pieces()) <= usize::MAX,
    {
        match self.root() {
            Some(child) => {
                lemma_ref_totals(self.pages(), child);
            },
            None => {
                assert(self.pieces() =~= Seq::empty());
            },
        }
        lemma_leaves_ok_flat(self.leaves());
    }

    /// What the log file of a tree with a log has to hold.
    pub fn log_bytes(&self) -> (log: Option<&[u8]>)
        ensures
            match self.store() {
                PageStore::InMemory(_) => log is None,
                PageStore::Disk(store) => log is Some && log->Some_0@ == store.log(),
            },
    {
        match &self.store {
            PageStore::InMemory(_) => None,
            PageStore::Disk(store) => Some(store.log_bytes()),
        }
    }

    /// Gives up writing the log file: what is stored stays, and nothing is added to it.
    pub fn close_log(&mut self)
        requires
            old(self).wf(),
        ensures
            final(self).wf(),
            final(self).root() == old(self).root(),
            final(self).history() == old(self).history(),
            final(self).position() == old(self).position(),
            final(self).batch_depth() == old(self).batch_depth(),
            final(self).batch_dirty() == old(self).batch_dirty(),
            final(self).pages() == old(self).pages(),
            old(self).store() is InMemory ==> final(self).store() == old(self).store(),
            old(self).store() is Disk ==> {
                &&& final(self).store() is Disk
                &&& !final(self).store()->Disk_0.writable()
                &&& final(self).store()->Disk_0.log() == old(self).store()->Disk_0.log()
            },
    {
        match &mut self.store {
            PageStore::InMemory(_) => {},
            PageStore::Disk(store) => store.close_log(),
        }
    }
}

proof fn lemma_nonempty(pieces: Seq<Piece>)
    requires
        pieces_ok(pieces),
    ensures
        nonempty(pieces) == pieces,
    decreases pieces.len(),
{
    if pieces.len() > 0 {
        assert(piece_ok(pieces[pieces.len() - 1]));
        assert(pieces_ok(pieces.drop_last())) by {
            assert forall|i: int| 0 <= i < pieces.drop_last().len() implies piece_ok(
                #[trigger] pieces.drop_last()[i],
            ) by {
                assert(pieces.drop_last()[i] == pieces[i]);
            }
        }
        lemma_nonempty(pieces.drop_last());
        assert(pieces.drop_last().push(pieces.last()) =~= pieces);
    }
}

impl PageStore {
    /// Tells whether `child` refers to a sound tree.
    fn check_ref(&self, child: ChildRef) -> (sound: bool)
        requires
            self.wf(),
        ensures
            sound == ref_ok(self.pages(), child),
        decreases child.page_id,
    {
        proof {
            self.lemma_page_ids();
        }
        if child.page_id == 0 || child.page_id > self.last_id() {
            return false;
        }
        let page = match self.get_page(child.page_id) {
            Some(page) => page,
            None => return false,
        };
        match page {
            PiecePage::Leaf { pieces } => {
                if pieces.len() == 0 || pieces.len() > MAX_LEAF_PIECES {
                    return false;
                }
                let mut bytes: usize = 0;
                let mut breaks: usize = 0;
                let mut i: usize = 0;
                assert(pieces@.take(0) =~= Seq::empty());
                while i < pieces.len()
                    invariant
                        i <= pieces@.len(),
                        self.pages().contains_key(child.page_id),
                        self.pages()[child.page_id] == PageView::Leaf(pieces@),
                        bytes == sum_len(pieces@.take(i as int)),
                        breaks == sum_breaks(pieces@.take(i as int)),
                        breaks <= bytes,
                        forall|j: int| 0 <= j < i ==> piece_ok(#[trigger] pieces@[j]),
                    decreases pieces@.len() - i,
                {
                    let piece = pieces[i];
                    proof {
                        assert(pieces@.take(i + 1).drop_last() =~= pieces@.take(i as int));
                        lemma_sum_len_concat(pieces@.take(i + 1), pieces@.skip(i + 1));
                        assert(pieces@.take(i + 1) + pieces@.skip(i + 1) =~= pieces@);
                    }
                    if piece.len == 0 || piece.line_breaks > piece.len {
                        assert(!piece_ok(pieces@[i as int]));
                        return false;
                    }
                    if piece.len > child.total_bytes || bytes > child.total_bytes - piece.len {
                        return false;
                    }
                    bytes = bytes + piece.len;
                    breaks = breaks + piece.line_breaks;
                    i = i + 1;
                }
                assert(pieces@.take(i as int) =~= pieces@);
                bytes == child.total_bytes && breaks == child.total_line_breaks
            },
            PiecePage::Internal { children } => {
                if children.len() == 0 || children.len() > MAX_INTERNAL_CHILDREN {
                    return false;
                }
                let mut bytes: usize = 0;
                let mut breaks: usize = 0;
                let mut i: usize = 0;
                assert(children@.take(0) =~= Seq::empty());
                while i < children.len()
                    invariant
                        self.wf(),
                        i <= children@.len(),
                        self.pages().contains_key(child.page_id),
                        self.pages()[child.page_id] == PageView::Internal(children@),
                        bytes == children_len(children@.take(i as int)),
                        breaks == children_breaks(children@.take(i as int)),
                        forall|j: int|
                            0 <= j < i ==> (#[trigger] children@[j]).page_id < child.page_id
                                && ref_ok(self.pages(), children@[j]),
                    decreases children@.len() - i,
                {
                    let next = children[i];
                    proof {
                        assert(children@.take(i + 1).drop_last() =~= children@.take(i as int));
                        lemma_children_concat(children@.take(i + 1), children@.skip(i + 1));
                        assert(children@.take(i + 1) + children@.skip(i + 1) =~= children@);
                    }
                    if next.page_id >= child.page_id || !self.check_ref(next) {
                        assert(!(children@[i as int].page_id < child.page_id && ref_ok(
                            self.pages(),
                            children@[i as int],
                        )));
                        return false;
                    }
                    if next.total_bytes > child.total_bytes || bytes > child.total_bytes
                        - next.total_bytes || next.total_line_breaks > child.total_line_breaks
                        || breaks > child.total_line_breaks - next.total_line_breaks {
                        return false;
                    }
                    bytes = bytes + next.total_bytes;
                    breaks = breaks + next.total_line_breaks;
                    i = i + 1;
                }
                assert(children@.take(i as int) =~= children@);
                bytes == child.total_bytes && breaks == child.total_line_breaks
            },
        }
    }
}

} // verus!
