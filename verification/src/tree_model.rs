//! What the pages of a piece tree mean, and how an edit changes it.
//!
//! Pages refer to pages with smaller numbers only. A tree stands for the sequence of its
//! leaves, a leaf for the sequence of its pieces.

use crate::editlog::{ChildRef, PageView, Piece};
use vstd::prelude::*;

verus! {

/// The largest number of pieces in a leaf of a tree.
pub const MAX_LEAF_PIECES: usize = 64;

/// The largest number of children of an internal node of a tree.
pub const MAX_INTERNAL_CHILDREN: usize = 64;

/// The two parts that are left of a piece that was cut.
pub type Halves = (Option<Piece>, Option<Piece>);

/// A piece of a tree is not empty and has no more line breaks than bytes.
pub open spec fn piece_ok(piece: Piece) -> bool {
    0 < piece.len && piece.line_breaks <= piece.len
}

pub open spec fn pieces_ok(pieces: Seq<Piece>) -> bool {
    forall|i: int| 0 <= i < pieces.len() ==> piece_ok(#[trigger] pieces[i])
}

/// The bytes of all of `pieces`.
pub open spec fn sum_len(pieces: Seq<Piece>) -> nat
    decreases pieces.len(),
{
    if pieces.len() == 0 {
        0
    } else {
        sum_len(pieces.drop_last()) + pieces.last().len as nat
    }
}

/// The line breaks of all of `pieces`.
pub open spec fn sum_breaks(pieces: Seq<Piece>) -> nat
    decreases pieces.len(),
{
    if pieces.len() == 0 {
        0
    } else {
        sum_breaks(pieces.drop_last()) + pieces.last().line_breaks as nat
    }
}

/// The bytes below all of `children`.
pub open spec fn children_len(children: Seq<ChildRef>) -> nat
    decreases children.len(),
{
    if children.len() == 0 {
        0
    } else {
        children_len(children.drop_last()) + children.last().total_bytes as nat
    }
}

/// The line breaks below all of `children`.
pub open spec fn children_breaks(children: Seq<ChildRef>) -> nat
    decreases children.len(),
{
    if children.len() == 0 {
        0
    } else {
        children_breaks(children.drop_last()) + children.last().total_line_breaks as nat
    }
}

/// The pieces of all of `leaves` in order.
pub open spec fn flat(leaves: Seq<Seq<Piece>>) -> Seq<Piece>
    decreases leaves.len(),
{
    if leaves.len() == 0 {
        Seq::empty()
    } else {
        flat(leaves.drop_last()) + leaves.last()
    }
}

/// The leaves below the page `page_id`.
pub open spec fn leaves_of(pages: Map<u64, PageView>, page_id: u64) -> Seq<Seq<Piece>>
    decreases page_id, 1nat, 0nat,
{
    match pages[page_id] {
        PageView::Leaf(pieces) => seq![pieces],
        PageView::Internal(children) => leaves_below(pages, children, page_id),
    }
}

/// The leaves below `children`, whose page numbers are below `bound`.
pub open spec fn leaves_below(
    pages: Map<u64, PageView>,
    children: Seq<ChildRef>,
    bound: u64,
) -> Seq<Seq<Piece>>
    decreases bound, 0nat, children.len(),
{
    if children.len() == 0 {
        Seq::empty()
    } else {
        leaves_below(pages, children.drop_last(), bound) + (if children.last().page_id < bound {
            leaves_of(pages, children.last().page_id)
        } else {
            Seq::empty()
        })
    }
}

/// How many pages the tree below `page_id` takes.
pub open spec fn nodes_of(pages: Map<u64, PageView>, page_id: u64) -> nat
    decreases page_id, 1nat, 0nat,
{
    match pages[page_id] {
        PageView::Leaf(pieces) => 1,
        PageView::Internal(children) => 1 + nodes_below(pages, children, page_id),
    }
}

/// How many pages the trees below `children` take.
pub open spec fn nodes_below(pages: Map<u64, PageView>, children: Seq<ChildRef>, bound: u64) -> nat
    decreases bound, 0nat, children.len(),
{
    if children.len() == 0 {
        0
    } else {
        nodes_below(pages, children.drop_last(), bound) + (if children.last().page_id < bound {
            nodes_of(pages, children.last().page_id)
        } else {
            0
        })
    }
}

/// `true` where `child` refers to a sound tree whose totals it gives.
pub open spec fn ref_ok(pages: Map<u64, PageView>, child: ChildRef) -> bool
    decreases child.page_id,
{
    &&& pages.contains_key(child.page_id)
    &&& match pages[child.page_id] {
        PageView::Leaf(pieces) => {
            &&& 0 < pieces.len() <= MAX_LEAF_PIECES
            &&& pieces_ok(pieces)
            &&& child.total_bytes == sum_len(pieces)
            &&& child.total_line_breaks == sum_breaks(pieces)
        },
        PageView::Internal(children) => {
            &&& 0 < children.len() <= MAX_INTERNAL_CHILDREN
            &&& forall|i: int|
                0 <= i < children.len() ==> (#[trigger] children[i]).page_id < child.page_id
                    && ref_ok(pages, children[i])
            &&& child.total_bytes == children_len(children)
            &&& child.total_line_breaks == children_breaks(children)
        },
    }
}

pub open spec fn refs_ok(pages: Map<u64, PageView>, children: Seq<ChildRef>, bound: u64) -> bool {
    forall|i: int|
        0 <= i < children.len() ==> (#[trigger] children[i]).page_id < bound && ref_ok(
            pages,
            children[i],
        )
}

/// The leaves of the tree below `root`.
pub open spec fn root_leaves(pages: Map<u64, PageView>, root: Option<ChildRef>) -> Seq<
    Seq<Piece>,
> {
    match root {
        Some(child) => leaves_of(pages, child.page_id),
        None => Seq::empty(),
    }
}

/// How many pages the tree below `root` takes.
pub open spec fn root_nodes(pages: Map<u64, PageView>, root: Option<ChildRef>) -> nat {
    match root {
        Some(child) => nodes_of(pages, child.page_id),
        None => 0,
    }
}

pub open spec fn root_ok(pages: Map<u64, PageView>, root: Option<ChildRef>) -> bool {
    match root {
        Some(child) => ref_ok(pages, child),
        None => true,
    }
}

/// `pieces` in leaves of the largest size.
pub open spec fn chunks(pieces: Seq<Piece>) -> Seq<Seq<Piece>>
    decreases pieces.len(),
{
    if pieces.len() == 0 {
        Seq::empty()
    } else if pieces.len() <= MAX_LEAF_PIECES {
        seq![pieces]
    } else {
        seq![pieces.take(MAX_LEAF_PIECES as int)] + chunks(pieces.skip(MAX_LEAF_PIECES as int))
    }
}

/// An optional piece as a sequence.
pub open spec fn opt(piece: Option<Piece>) -> Seq<Piece> {
    match piece {
        Some(p) => seq![p],
        None => Seq::empty(),
    }
}

/// `a + b`, or the largest `usize` where that is too large.
pub open spec fn sat_add(a: int, b: int) -> usize {
    if a + b > usize::MAX {
        usize::MAX
    } else {
        (a + b) as usize
    }
}

/// `true` where `next` continues `last` in the same buffer.
pub open spec fn continues(last: Piece, next: Piece) -> bool {
    last.src == next.src && last.start + last.len == next.start
}

pub open spec fn joined(last: Piece, next: Piece) -> Piece {
    Piece {
        src: last.src,
        start: last.start,
        len: sat_add(last.len as int, next.len as int),
        line_breaks: sat_add(last.line_breaks as int, next.line_breaks as int),
    }
}

/// `pieces` with each run of pieces that continue one another joined.
pub open spec fn coalesced(pieces: Seq<Piece>) -> Seq<Piece>
    decreases pieces.len(),
{
    if pieces.len() == 0 {
        pieces
    } else {
        let out = coalesced(pieces.drop_last());
        let piece = pieces.last();
        if out.len() > 0 && continues(out.last(), piece) {
            out.drop_last().push(joined(out.last(), piece))
        } else {
            out.push(piece)
        }
    }
}

/// The piece of a leaf that has to be cut to insert at `offset`, and where.
pub open spec fn cut_in_leaf(pieces: Seq<Piece>, offset: int) -> Option<(Piece, usize)>
    decreases pieces.len(),
{
    if pieces.len() == 0 {
        None
    } else if offset <= pieces[0].len {
        if 0 < offset < pieces[0].len {
            Some((pieces[0], offset as usize))
        } else {
            None
        }
    } else {
        cut_in_leaf(pieces.skip(1), offset - pieces[0].len)
    }
}

/// A leaf with `piece` inserted at `offset`; `halves` replace the piece that is cut.
pub open spec fn inserted_in_leaf(
    pieces: Seq<Piece>,
    offset: int,
    piece: Piece,
    halves: Halves,
) -> Seq<Piece>
    decreases pieces.len(),
{
    if pieces.len() == 0 {
        seq![piece]
    } else if offset <= pieces[0].len {
        if offset <= 0 {
            seq![piece] + pieces
        } else if offset >= pieces[0].len {
            seq![pieces[0], piece] + pieces.skip(1)
        } else {
            opt(halves.0) + seq![piece] + opt(halves.1) + pieces.skip(1)
        }
    } else {
        seq![pieces[0]] + inserted_in_leaf(
            pieces.skip(1),
            offset - pieces[0].len,
            piece,
            halves,
        )
    }
}

/// The piece that has to be cut to insert at `offset`, and where.
pub open spec fn cut_in_leaves(leaves: Seq<Seq<Piece>>, offset: int) -> Option<(Piece, usize)>
    decreases leaves.len(),
{
    if leaves.len() == 0 {
        None
    } else if leaves.len() == 1 || offset < sum_len(leaves[0]) {
        cut_in_leaf(leaves[0], offset)
    } else {
        cut_in_leaves(leaves.skip(1), offset - sum_len(leaves[0]))
    }
}

/// The leaves of a tree with `piece` inserted at `offset`. The leaf that holds the byte at
/// `offset` is rewritten, or the last leaf where none does.
pub open spec fn inserted_in_leaves(
    leaves: Seq<Seq<Piece>>,
    offset: int,
    piece: Piece,
    halves: Halves,
) -> Seq<Seq<Piece>>
    decreases leaves.len(),
{
    if leaves.len() == 0 {
        seq![seq![piece]]
    } else if leaves.len() == 1 || offset < sum_len(leaves[0]) {
        chunks(coalesced(inserted_in_leaf(leaves[0], offset, piece, halves))) + leaves.skip(1)
    } else {
        seq![leaves[0]] + inserted_in_leaves(
            leaves.skip(1),
            offset - sum_len(leaves[0]),
            piece,
            halves,
        )
    }
}

pub proof fn lemma_sum_len_concat(a: Seq<Piece>, b: Seq<Piece>)
    ensures
        sum_len(a + b) == sum_len(a) + sum_len(b),
        sum_breaks(a + b) == sum_breaks(a) + sum_breaks(b),
    decreases b.len(),
{
    if b.len() == 0 {
        assert(a + b =~= a);
    } else {
        lemma_sum_len_concat(a, b.drop_last());
        assert((a + b).drop_last() =~= a + b.drop_last());
    }
}

/// The first piece counted apart.
pub proof fn lemma_sum_len_first(pieces: Seq<Piece>)
    requires
        pieces.len() > 0,
    ensures
        sum_len(pieces) == pieces[0].len + sum_len(pieces.skip(1)),
        sum_breaks(pieces) == pieces[0].line_breaks + sum_breaks(pieces.skip(1)),
{
    lemma_sum_len_concat(seq![pieces[0]], pieces.skip(1));
    assert(seq![pieces[0]] + pieces.skip(1) =~= pieces);
    reveal_with_fuel(sum_len, 2);
    reveal_with_fuel(sum_breaks, 2);
    assert(sum_len(seq![pieces[0]]) == pieces[0].len);
    assert(sum_breaks(seq![pieces[0]]) == pieces[0].line_breaks);
}

/// No leaf has more line breaks than bytes, and every leaf but an empty one has bytes.
pub proof fn lemma_pieces_ok_sums(pieces: Seq<Piece>)
    requires
        pieces_ok(pieces),
    ensures
        sum_breaks(pieces) <= sum_len(pieces),
        pieces.len() > 0 ==> sum_len(pieces) > 0,
        pieces.len() <= sum_len(pieces),
    decreases pieces.len(),
{
    if pieces.len() > 0 {
        lemma_pieces_ok_sums(pieces.drop_last());
        assert(piece_ok(pieces.last()));
    }
}

pub proof fn lemma_flat_concat(a: Seq<Seq<Piece>>, b: Seq<Seq<Piece>>)
    ensures
        flat(a + b) == flat(a) + flat(b),
    decreases b.len(),
{
    if b.len() == 0 {
        assert(a + b =~= a);
        assert(flat(a) + flat(b) =~= flat(a));
    } else {
        lemma_flat_concat(a, b.drop_last());
        assert((a + b).drop_last() =~= a + b.drop_last());
        assert(flat(a) + (flat(b.drop_last()) + b.last()) =~= (flat(a) + flat(b.drop_last()))
            + b.last());
    }
}

pub proof fn lemma_flat_one(leaf: Seq<Piece>)
    ensures
        flat(seq![leaf]) == leaf,
{
    reveal_with_fuel(flat, 2);
    assert(flat(seq![leaf]) =~= leaf);
}

/// The first leaf taken apart.
pub proof fn lemma_flat_first(leaves: Seq<Seq<Piece>>)
    requires
        leaves.len() > 0,
    ensures
        flat(leaves) == leaves[0] + flat(leaves.skip(1)),
{
    assert(seq![leaves[0]] + leaves.skip(1) =~= leaves);
    lemma_flat_concat(seq![leaves[0]], leaves.skip(1));
    lemma_flat_one(leaves[0]);
}

pub proof fn lemma_children_concat(a: Seq<ChildRef>, b: Seq<ChildRef>)
    ensures
        children_len(a + b) == children_len(a) + children_len(b),
        children_breaks(a + b) == children_breaks(a) + children_breaks(b),
    decreases b.len(),
{
    if b.len() == 0 {
        assert(a + b =~= a);
    } else {
        lemma_children_concat(a, b.drop_last());
        assert((a + b).drop_last() =~= a + b.drop_last());
    }
}

pub proof fn lemma_below_concat(
    pages: Map<u64, PageView>,
    a: Seq<ChildRef>,
    b: Seq<ChildRef>,
    bound: u64,
)
    ensures
        leaves_below(pages, a + b, bound) == leaves_below(pages, a, bound) + leaves_below(
            pages,
            b,
            bound,
        ),
        nodes_below(pages, a + b, bound) == nodes_below(pages, a, bound) + nodes_below(
            pages,
            b,
            bound,
        ),
    decreases b.len(),
{
    if b.len() == 0 {
        assert(a + b =~= a);
        assert(leaves_below(pages, a, bound) + leaves_below(pages, b, bound) =~= leaves_below(
            pages,
            a,
            bound,
        ));
    } else {
        lemma_below_concat(pages, a, b.drop_last(), bound);
        assert((a + b).drop_last() =~= a + b.drop_last());
        let tail = if b.last().page_id < bound {
            leaves_of(pages, b.last().page_id)
        } else {
            Seq::empty()
        };
        assert((leaves_below(pages, a, bound) + leaves_below(pages, b.drop_last(), bound)) + tail
            =~= leaves_below(pages, a, bound) + (leaves_below(pages, b.drop_last(), bound)
            + tail));
    }
}

pub proof fn lemma_below_one(pages: Map<u64, PageView>, child: ChildRef, bound: u64)
    requires
        child.page_id < bound,
    ensures
        leaves_below(pages, seq![child], bound) == leaves_of(pages, child.page_id),
        nodes_below(pages, seq![child], bound) == nodes_of(pages, child.page_id),
        children_len(seq![child]) == child.total_bytes,
        children_breaks(seq![child]) == child.total_line_breaks,
{
    assert(seq![child].drop_last() =~= Seq::empty());
    assert(leaves_below(pages, seq![child].drop_last(), bound) =~= Seq::empty());
    assert(leaves_below(pages, seq![child], bound) =~= leaves_of(pages, child.page_id));
    assert(children_len(seq![child].drop_last()) == 0);
    assert(children_breaks(seq![child].drop_last()) == 0);
    assert(nodes_below(pages, seq![child].drop_last(), bound) == 0);
}

/// The bound does not matter where all children lie below it.
pub proof fn lemma_below_bound(
    pages: Map<u64, PageView>,
    children: Seq<ChildRef>,
    a: u64,
    b: u64,
)
    requires
        refs_ok(pages, children, a),
        refs_ok(pages, children, b),
    ensures
        leaves_below(pages, children, a) == leaves_below(pages, children, b),
        nodes_below(pages, children, a) == nodes_below(pages, children, b),
    decreases children.len(),
{
    if children.len() > 0 {
        assert(children.last() == children[children.len() - 1]);
        assert forall|i: int| 0 <= i < children.drop_last().len() implies (
        #[trigger] children.drop_last()[i]).page_id < a && children.drop_last()[i].page_id < b
            && ref_ok(pages, children.drop_last()[i]) by {
            assert(children.drop_last()[i] == children[i]);
        }
        lemma_below_bound(pages, children.drop_last(), a, b);
    }
}

/// Adding pages leaves a sound tree as it is.
pub proof fn lemma_ref_extend(
    pages: Map<u64, PageView>,
    more: Map<u64, PageView>,
    child: ChildRef,
)
    requires
        ref_ok(pages, child),
        pages.submap_of(more),
    ensures
        ref_ok(more, child),
        leaves_of(more, child.page_id) == leaves_of(pages, child.page_id),
        nodes_of(more, child.page_id) == nodes_of(pages, child.page_id),
    decreases child.page_id, 1nat, 0nat,
{
    assert(more.contains_key(child.page_id) && more[child.page_id] == pages[child.page_id]) by {
        assert(pages.dom().contains(child.page_id));
    }
    match pages[child.page_id] {
        PageView::Leaf(pieces) => {},
        PageView::Internal(children) => {
            lemma_refs_extend(pages, more, children, child.page_id);
        },
    }
}

pub proof fn lemma_refs_extend(
    pages: Map<u64, PageView>,
    more: Map<u64, PageView>,
    children: Seq<ChildRef>,
    bound: u64,
)
    requires
        refs_ok(pages, children, bound),
        pages.submap_of(more),
    ensures
        refs_ok(more, children, bound),
        leaves_below(more, children, bound) == leaves_below(pages, children, bound),
        nodes_below(more, children, bound) == nodes_below(pages, children, bound),
    decreases bound, 0nat, children.len(),
{
    if children.len() > 0 {
        let front = children.drop_last();
        assert forall|i: int| 0 <= i < front.len() implies (#[trigger] front[i]).page_id < bound
            && ref_ok(pages, front[i]) by {
            assert(front[i] == children[i]);
        }
        lemma_refs_extend(pages, more, front, bound);
        let last = children[children.len() - 1];
        lemma_ref_extend(pages, more, last);
        assert forall|i: int| 0 <= i < children.len() implies (#[trigger] children[i]).page_id
            < bound && ref_ok(more, children[i]) by {
            if i < front.len() {
                assert(front[i] == children[i]);
            }
        }
    }
}

/// The totals of a sound reference are those of its leaves, which are sound.
pub proof fn lemma_ref_totals(pages: Map<u64, PageView>, child: ChildRef)
    requires
        ref_ok(pages, child),
    ensures
        child.total_bytes == sum_len(flat(leaves_of(pages, child.page_id))),
        child.total_line_breaks == sum_breaks(flat(leaves_of(pages, child.page_id))),
        leaves_ok(leaves_of(pages, child.page_id)),
        leaves_of(pages, child.page_id).len() > 0,
        nodes_of(pages, child.page_id) > 0,
        child.total_bytes > 0,
    decreases child.page_id, 1nat, 0nat,
{
    match pages[child.page_id] {
        PageView::Leaf(pieces) => {
            lemma_flat_one(pieces);
            lemma_pieces_ok_sums(pieces);
        },
        PageView::Internal(children) => {
            lemma_refs_totals(pages, children, child.page_id);
        },
    }
}

/// Every leaf is sound and of a size that a page holds.
pub open spec fn leaves_ok(leaves: Seq<Seq<Piece>>) -> bool {
    forall|i: int|
        0 <= i < leaves.len() ==> 0 < (#[trigger] leaves[i]).len() <= MAX_LEAF_PIECES && pieces_ok(
            leaves[i],
        )
}

pub proof fn lemma_refs_totals(pages: Map<u64, PageView>, children: Seq<ChildRef>, bound: u64)
    requires
        refs_ok(pages, children, bound),
    ensures
        children_len(children) == sum_len(flat(leaves_below(pages, children, bound))),
        children_breaks(children) == sum_breaks(flat(leaves_below(pages, children, bound))),
        leaves_ok(leaves_below(pages, children, bound)),
        children.len() <= nodes_below(pages, children, bound),
        children.len() > 0 ==> leaves_below(pages, children, bound).len() > 0 && children_len(
            children,
        ) > 0,
    decreases bound, 0nat, children.len(),
{
    if children.len() > 0 {
        let front = children.drop_last();
        assert forall|i: int| 0 <= i < front.len() implies (#[trigger] front[i]).page_id < bound
            && ref_ok(pages, front[i]) by {
            assert(front[i] == children[i]);
        }
        lemma_refs_totals(pages, front, bound);
        let last = children[children.len() - 1];
        lemma_ref_totals(pages, last);
        let a = leaves_below(pages, front, bound);
        let b = leaves_of(pages, last.page_id);
        lemma_flat_concat(a, b);
        lemma_sum_len_concat(flat(a), flat(b));
        assert forall|i: int| 0 <= i < (a + b).len() implies 0 < (#[trigger] (a + b)[i]).len()
            <= MAX_LEAF_PIECES && pieces_ok((a + b)[i]) by {
            if i < a.len() {
                assert((a + b)[i] == a[i]);
            } else {
                assert((a + b)[i] == b[i - a.len()]);
            }
        }
    }
}

/// An insertion reaches only the part that holds the offset.
pub proof fn lemma_insert_split(
    a: Seq<Seq<Piece>>,
    b: Seq<Seq<Piece>>,
    offset: int,
    piece: Piece,
    halves: Halves,
)
    requires
        a.len() > 0,
        0 <= offset,
    ensures
        b.len() == 0 || offset < sum_len(flat(a)) ==> {
            &&& inserted_in_leaves(a + b, offset, piece, halves) == inserted_in_leaves(
                a,
                offset,
                piece,
                halves,
            ) + b
            &&& cut_in_leaves(a + b, offset) == cut_in_leaves(a, offset)
        },
        b.len() > 0 && offset >= sum_len(flat(a)) ==> {
            &&& inserted_in_leaves(a + b, offset, piece, halves) == a + inserted_in_leaves(
                b,
                offset - sum_len(flat(a)),
                piece,
                halves,
            )
            &&& cut_in_leaves(a + b, offset) == cut_in_leaves(b, offset - sum_len(flat(a)))
        },
    decreases a.len(),
{
    lemma_flat_first(a);
    lemma_sum_len_concat(a[0], flat(a.skip(1)));
    if b.len() == 0 {
        assert(a + b =~= a);
        assert(inserted_in_leaves(a, offset, piece, halves) + b =~= inserted_in_leaves(
            a,
            offset,
            piece,
            halves,
        ));
    } else {
        let all = a + b;
        assert(all[0] == a[0]);
        assert(all.skip(1) =~= a.skip(1) + b);
        let head = chunks(coalesced(inserted_in_leaf(a[0], offset, piece, halves)));
        if a.len() == 1 {
            assert(a.skip(1) =~= Seq::empty());
            assert(a.skip(1) + b =~= b);
            assert(flat(a.skip(1)) =~= Seq::empty());
            assert((head + a.skip(1)) + b =~= head + b);
            assert(seq![a[0]] =~= a);
        } else {
            if offset >= sum_len(a[0]) {
                lemma_insert_split(a.skip(1), b, offset - sum_len(a[0]), piece, halves);
            }
            if offset < sum_len(a[0]) {
                assert((head + a.skip(1)) + b =~= head + (a.skip(1) + b));
            } else if offset < sum_len(flat(a)) {
                let rest = inserted_in_leaves(a.skip(1), offset - sum_len(a[0]), piece, halves);
                assert((seq![a[0]] + rest) + b =~= seq![a[0]] + (rest + b));
            } else {
                let rest = inserted_in_leaves(
                    b,
                    offset - sum_len(flat(a)),
                    piece,
                    halves,
                );
                assert(seq![a[0]] + (a.skip(1) + rest) =~= a + rest);
            }
        }
    }
}

pub open spec fn max_int(a: int, b: int) -> int {
    if a >= b {
        a
    } else {
        b
    }
}

pub open spec fn min_int(a: int, b: int) -> int {
    if a <= b {
        a
    } else {
        b
    }
}

/// `true` where no byte of `base..base + len` lies in `start..end`.
pub open spec fn outside(base: int, len: int, start: int, end: int) -> bool {
    base + len <= start || base >= end
}

/// What stands for `piece`, which starts at `base`, once `start..end` is deleted.
pub open spec fn trimmed(piece: Piece, base: int, start: int, end: int, halves: Halves) -> Seq<
    Piece,
> {
    if outside(base, piece.len as int, start, end) {
        seq![piece]
    } else {
        opt(halves.0) + opt(halves.1)
    }
}

/// A leaf without `start..end`; `outs` holds what is left of each piece that is cut.
pub open spec fn deleted_in_leaf(
    pieces: Seq<Piece>,
    start: int,
    end: int,
    outs: Seq<Halves>,
) -> Seq<Piece>
    decreases pieces.len(),
{
    if pieces.len() == 0 {
        Seq::empty()
    } else {
        let base = sum_len(pieces.drop_last());
        deleted_in_leaf(pieces.drop_last(), start, end, outs.drop_last()) + trimmed(
            pieces.last(),
            base as int,
            start,
            end,
            outs.last(),
        )
    }
}

/// `true` where `outs` holds an outcome of `trim` for each piece of a leaf that is cut.
pub open spec fn outcomes_in_leaf<F: Fn(Piece, usize, usize) -> Halves>(
    trim: F,
    pieces: Seq<Piece>,
    start: int,
    end: int,
    outs: Seq<Halves>,
) -> bool
    decreases pieces.len(),
{
    &&& outs.len() == pieces.len()
    &&& pieces.len() > 0 ==> {
        let base = sum_len(pieces.drop_last()) as int;
        let piece = pieces.last();
        &&& outcomes_in_leaf(trim, pieces.drop_last(), start, end, outs.drop_last())
        &&& outside(base, piece.len as int, start, end) || call_ensures(
            trim,
            (
                piece,
                max_int(start - base, 0) as usize,
                (min_int(end, base + piece.len) - base) as usize,
            ),
            outs.last(),
        )
    }
}

/// What stands for a leaf, which starts at `base`, once `start..end` is deleted.
pub open spec fn rewritten(
    leaf: Seq<Piece>,
    base: int,
    start: int,
    end: int,
    outs: Seq<Halves>,
) -> Seq<Seq<Piece>> {
    let len = sum_len(leaf) as int;
    if outside(base, len, start, end) {
        seq![leaf]
    } else {
        chunks(
            coalesced(
                deleted_in_leaf(
                    leaf,
                    max_int(start - base, 0),
                    min_int(end - base, len),
                    outs,
                ),
            ),
        )
    }
}

/// The leaves of a tree without `start..end`.
pub open spec fn deleted_in_leaves(
    leaves: Seq<Seq<Piece>>,
    start: int,
    end: int,
    outs: Seq<Seq<Halves>>,
) -> Seq<Seq<Piece>>
    decreases leaves.len(),
{
    if leaves.len() == 0 {
        Seq::empty()
    } else {
        let base = sum_len(flat(leaves.drop_last())) as int;
        deleted_in_leaves(leaves.drop_last(), start, end, outs.drop_last()) + rewritten(
            leaves.last(),
            base,
            start,
            end,
            outs.last(),
        )
    }
}

/// `true` where `outs` holds an outcome of `trim` for each piece that is cut.
pub open spec fn outcomes_in_leaves<F: Fn(Piece, usize, usize) -> Halves>(
    trim: F,
    leaves: Seq<Seq<Piece>>,
    start: int,
    end: int,
    outs: Seq<Seq<Halves>>,
) -> bool
    decreases leaves.len(),
{
    &&& outs.len() == leaves.len()
    &&& leaves.len() > 0 ==> {
        let base = sum_len(flat(leaves.drop_last())) as int;
        let leaf = leaves.last();
        let len = sum_len(leaf) as int;
        &&& outcomes_in_leaves(trim, leaves.drop_last(), start, end, outs.drop_last())
        &&& outside(base, len, start, end) || outcomes_in_leaf(
            trim,
            leaf,
            max_int(start - base, 0),
            min_int(end - base, len),
            outs.last(),
        )
    }
}

/// Deleting from a concatenation is deleting from both parts.
pub proof fn lemma_delete_concat<F: Fn(Piece, usize, usize) -> Halves>(
    trim: F,
    a: Seq<Seq<Piece>>,
    b: Seq<Seq<Piece>>,
    start: int,
    end: int,
    outs_a: Seq<Seq<Halves>>,
    outs_b: Seq<Seq<Halves>>,
)
    requires
        outs_a.len() == a.len(),
        outs_b.len() == b.len(),
    ensures
        ({
            let skipped = sum_len(flat(a)) as int;
            &&& deleted_in_leaves(a + b, start, end, outs_a + outs_b) == deleted_in_leaves(
                a,
                start,
                end,
                outs_a,
            ) + deleted_in_leaves(b, start - skipped, end - skipped, outs_b)
            &&& outcomes_in_leaves(trim, a, start, end, outs_a) && outcomes_in_leaves(
                trim,
                b,
                start - skipped,
                end - skipped,
                outs_b,
            ) ==> outcomes_in_leaves(trim, a + b, start, end, outs_a + outs_b)
        }),
    decreases b.len(),
{
    let skipped = sum_len(flat(a)) as int;
    if b.len() == 0 {
        assert(a + b =~= a);
        assert(outs_a + outs_b =~= outs_a);
        assert(deleted_in_leaves(b, start - skipped, end - skipped, outs_b) =~= Seq::empty());
        assert(deleted_in_leaves(a, start, end, outs_a) + Seq::empty() =~= deleted_in_leaves(
            a,
            start,
            end,
            outs_a,
        ));
    } else {
        lemma_delete_concat(trim, a, b.drop_last(), start, end, outs_a, outs_b.drop_last());
        assert((a + b).drop_last() =~= a + b.drop_last());
        assert((outs_a + outs_b).drop_last() =~= outs_a + outs_b.drop_last());
        lemma_flat_concat(a, b.drop_last());
        lemma_sum_len_concat(flat(a), flat(b.drop_last()));
        let base = sum_len(flat(b.drop_last())) as int;
        let tail = rewritten(b.last(), base, start - skipped, end - skipped, outs_b.last());
        assert(rewritten(b.last(), skipped + base, start, end, outs_b.last()) == tail);
        let left = deleted_in_leaves(a, start, end, outs_a);
        let right = deleted_in_leaves(
            b.drop_last(),
            start - skipped,
            end - skipped,
            outs_b.drop_last(),
        );
        assert((left + right) + tail =~= left + (right + tail));
    }
}

/// Only the part of the range that lies in the leaves counts.
pub proof fn lemma_delete_clamp<F: Fn(Piece, usize, usize) -> Halves>(
    trim: F,
    leaves: Seq<Seq<Piece>>,
    start: int,
    end: int,
    start2: int,
    end2: int,
    outs: Seq<Seq<Halves>>,
)
    requires
        leaves_ok(leaves),
        outs.len() == leaves.len(),
        max_int(start, 0) == max_int(start2, 0),
        min_int(end, sum_len(flat(leaves)) as int) == min_int(end2, sum_len(flat(leaves)) as int),
    ensures
        deleted_in_leaves(leaves, start, end, outs) == deleted_in_leaves(
            leaves,
            start2,
            end2,
            outs,
        ),
        outcomes_in_leaves(trim, leaves, start, end, outs) == outcomes_in_leaves(
            trim,
            leaves,
            start2,
            end2,
            outs,
        ),
    decreases leaves.len(),
{
    if leaves.len() > 0 {
        let front = leaves.drop_last();
        let last = leaves[leaves.len() - 1];
        lemma_sum_len_concat(flat(front), last);
        lemma_pieces_ok_sums(last);
        assert forall|i: int| 0 <= i < front.len() implies 0 < (#[trigger] front[i]).len()
            <= MAX_LEAF_PIECES && pieces_ok(front[i]) by {
            assert(front[i] == leaves[i]);
        }
        lemma_delete_clamp(trim, front, start, end, start2, end2, outs.drop_last());
    }
}

/// Deleting outside of the leaves changes nothing.
pub proof fn lemma_delete_outside<F: Fn(Piece, usize, usize) -> Halves>(
    trim: F,
    leaves: Seq<Seq<Piece>>,
    start: int,
    end: int,
    outs: Seq<Seq<Halves>>,
)
    requires
        outs.len() == leaves.len(),
        outside(0, sum_len(flat(leaves)) as int, start, end),
    ensures
        deleted_in_leaves(leaves, start, end, outs) == leaves,
        outcomes_in_leaves(trim, leaves, start, end, outs),
    decreases leaves.len(),
{
    if leaves.len() > 0 {
        let front = leaves.drop_last();
        lemma_sum_len_concat(flat(front), leaves.last());
        lemma_delete_outside(trim, front, start, end, outs.drop_last());
        assert(front + seq![leaves.last()] =~= leaves);
    } else {
        assert(deleted_in_leaves(leaves, start, end, outs) =~= leaves);
    }
}

/// A byte of a buffer.
pub type Place = (crate::editlog::PieceSource, int);

/// The bytes that `pieces` stand for.
pub open spec fn places(pieces: Seq<Piece>) -> Seq<Place>
    decreases pieces.len(),
{
    if pieces.len() == 0 {
        Seq::empty()
    } else {
        places(pieces.drop_last()) + piece_places(pieces.last())
    }
}

/// The bytes that one piece stands for.
pub open spec fn piece_places(piece: Piece) -> Seq<Place> {
    Seq::new(piece.len as nat, |i: int| (piece.src, piece.start + i))
}

pub proof fn lemma_places_concat(a: Seq<Piece>, b: Seq<Piece>)
    ensures
        places(a + b) == places(a) + places(b),
    decreases b.len(),
{
    if b.len() == 0 {
        assert(a + b =~= a);
        assert(places(a) + places(b) =~= places(a));
    } else {
        lemma_places_concat(a, b.drop_last());
        assert((a + b).drop_last() =~= a + b.drop_last());
        assert((places(a) + places(b.drop_last())) + piece_places(b.last()) =~= places(a) + (places(
            b.drop_last(),
        ) + piece_places(b.last())));
    }
}

pub proof fn lemma_places_one(piece: Piece)
    ensures
        places(seq![piece]) == piece_places(piece),
{
    reveal_with_fuel(places, 2);
    assert(places(seq![piece]) =~= piece_places(piece));
}

pub proof fn lemma_places_len(pieces: Seq<Piece>)
    ensures
        places(pieces).len() == sum_len(pieces),
    decreases pieces.len(),
{
    if pieces.len() > 0 {
        lemma_places_len(pieces.drop_last());
    }
}

/// Joining pieces keeps the bytes, the totals and the soundness.
pub proof fn lemma_coalesced(pieces: Seq<Piece>)
    requires
        pieces_ok(pieces),
        sum_len(pieces) <= usize::MAX,
    ensures
        places(coalesced(pieces)) == places(pieces),
        sum_len(coalesced(pieces)) == sum_len(pieces),
        sum_breaks(coalesced(pieces)) == sum_breaks(pieces),
        pieces_ok(coalesced(pieces)),
        coalesced(pieces).len() <= pieces.len(),
        pieces.len() > 0 ==> coalesced(pieces).len() > 0,
    decreases pieces.len(),
{
    if pieces.len() > 0 {
        let front = pieces.drop_last();
        let piece = pieces.last();
        assert(pieces_ok(front)) by {
            assert forall|i: int| 0 <= i < front.len() implies piece_ok(#[trigger] front[i]) by {
                assert(front[i] == pieces[i]);
            }
        }
        assert(piece_ok(piece));
        lemma_coalesced(front);
        lemma_pieces_ok_sums(front);
        let out = coalesced(front);
        let all = coalesced(pieces);
        if out.len() > 0 && continues(out.last(), piece) {
            let merged = joined(out.last(), piece);
            lemma_pieces_ok_sums(out.drop_last());
            assert(piece_ok(out.last()));
            assert(sum_len(out) == sum_len(out.drop_last()) + out.last().len);
            assert(sum_breaks(out) == sum_breaks(out.drop_last()) + out.last().line_breaks);
            assert(all.drop_last() =~= out.drop_last());
            assert(places(all) == places(out.drop_last()) + piece_places(merged));
            assert(piece_places(merged) =~= piece_places(out.last()) + piece_places(piece));
            assert(places(out.drop_last()) + (piece_places(out.last()) + piece_places(piece))
                =~= (places(out.drop_last()) + piece_places(out.last())) + piece_places(piece));
            assert forall|i: int| 0 <= i < all.len() implies piece_ok(#[trigger] all[i]) by {
                if i < all.len() - 1 {
                    assert(all[i] == out[i]);
                }
            }
        } else {
            assert(all.drop_last() =~= out);
            assert forall|i: int| 0 <= i < all.len() implies piece_ok(#[trigger] all[i]) by {
                if i < all.len() - 1 {
                    assert(all[i] == out[i]);
                }
            }
        }
    }
}

/// Cutting into leaves keeps the pieces in order, in leaves that a page holds.
pub proof fn lemma_chunks(pieces: Seq<Piece>)
    ensures
        flat(chunks(pieces)) == pieces,
        pieces_ok(pieces) ==> leaves_ok(chunks(pieces)),
        chunks(pieces).len() == (pieces.len() + 63) / 64,
    decreases pieces.len(),
{
    if pieces.len() == 0 {
        assert(flat(chunks(pieces)) =~= pieces);
    } else if pieces.len() <= MAX_LEAF_PIECES {
        lemma_flat_one(pieces);
    } else {
        let head = pieces.take(MAX_LEAF_PIECES as int);
        let rest = pieces.skip(MAX_LEAF_PIECES as int);
        lemma_chunks(rest);
        lemma_flat_concat(seq![head], chunks(rest));
        lemma_flat_one(head);
        assert(head + rest =~= pieces);
        if pieces_ok(pieces) {
            assert(pieces_ok(rest)) by {
                assert forall|i: int| 0 <= i < rest.len() implies piece_ok(#[trigger] rest[i]) by {
                    assert(rest[i] == pieces[i + MAX_LEAF_PIECES]);
                }
            }
            let all = chunks(pieces);
            assert forall|i: int| 0 <= i < all.len() implies 0 < (#[trigger] all[i]).len()
                <= MAX_LEAF_PIECES && pieces_ok(all[i]) by {
                if i == 0 {
                    assert(all[0] == head);
                } else {
                    assert(all[i] == chunks(rest)[i - 1]);
                }
            }
        }
    }
}

} // verus!
