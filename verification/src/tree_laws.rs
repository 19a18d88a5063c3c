//! What edits of a piece tree do to the bytes it stands for.

use crate::editlog::Piece;
use crate::piece_tree::{break_place, halves_ok};
use crate::tree_model::{
    chunks, coalesced, cut_in_leaf, cut_in_leaves, deleted_in_leaf, deleted_in_leaves, flat,
    inserted_in_leaf, inserted_in_leaves, leaves_ok, lemma_chunks, lemma_coalesced,
    lemma_flat_concat, lemma_flat_first, lemma_places_concat, lemma_places_len, lemma_places_one,
    lemma_sum_len_concat, lemma_sum_len_first, max_int, min_int, opt, outcomes_in_leaf,
    outcomes_in_leaves, outside, piece_ok, piece_places, pieces_ok, places, rewritten, sum_breaks,
    sum_len, trimmed, Halves, Place, MAX_LEAF_PIECES,
};
use vstd::prelude::*;

verus! {

/// `halves` are the parts of `piece` in front of and behind byte `at`.
pub open spec fn splits_at(piece: Piece, at: int, halves: Halves) -> bool {
    &&& halves_ok(piece, halves)
    &&& places(opt(halves.0)) == piece_places(piece).take(at)
    &&& places(opt(halves.1)) == piece_places(piece).skip(at)
}

/// `halves` are what is left of `piece` without the bytes `lo..hi`.
pub open spec fn cuts_out(piece: Piece, lo: int, hi: int, halves: Halves) -> bool {
    &&& halves_ok(piece, halves)
    &&& places(opt(halves.0) + opt(halves.1)) == piece_places(piece).take(lo) + piece_places(
        piece,
    ).skip(hi)
}

/// `s` with `part` put in at `at`.
pub open spec fn spliced(s: Seq<Place>, at: int, part: Seq<Place>) -> Seq<Place> {
    s.take(at) + part + s.skip(at)
}

/// `s` without the part of it that lies in `start..end`.
pub open spec fn without(s: Seq<Place>, start: int, end: int) -> Seq<Place> {
    let lo = min_int(max_int(start, 0), s.len() as int);
    let hi = min_int(max_int(end, 0), s.len() as int);
    s.take(lo) + s.skip(hi)
}

proof fn lemma_spliced_left(a: Seq<Place>, b: Seq<Place>, at: int, part: Seq<Place>)
    requires
        0 <= at <= a.len(),
    ensures
        spliced(a + b, at, part) == spliced(a, at, part) + b,
{
    assert((a + b).take(at) =~= a.take(at));
    assert((a + b).skip(at) =~= a.skip(at) + b);
    assert(a.take(at) + part + (a.skip(at) + b) =~= a.take(at) + part + a.skip(at) + b);
}

proof fn lemma_spliced_right(a: Seq<Place>, b: Seq<Place>, at: int, part: Seq<Place>)
    requires
        a.len() <= at <= a.len() + b.len(),
    ensures
        spliced(a + b, at, part) == a + spliced(b, at - a.len(), part),
{
    let local = at - a.len();
    assert((a + b).take(at) =~= a + b.take(local));
    assert((a + b).skip(at) =~= b.skip(local));
    assert((a + b.take(local)) + part + b.skip(local) =~= a + (b.take(local) + part + b.skip(
        local,
    )));
}

proof fn lemma_insert_places_leaf(pieces: Seq<Piece>, offset: int, piece: Piece, halves: Halves)
    requires
        pieces_ok(pieces),
        piece_ok(piece),
        0 <= offset <= sum_len(pieces),
        cut_in_leaf(pieces, offset) is Some ==> splits_at(
            cut_in_leaf(pieces, offset)->Some_0.0,
            cut_in_leaf(pieces, offset)->Some_0.1 as int,
            halves,
        ),
        offset <= usize::MAX,
    ensures
        places(inserted_in_leaf(pieces, offset, piece, halves)) == spliced(
            places(pieces),
            offset,
            piece_places(piece),
        ),
    decreases pieces.len(),
{
    let part = piece_places(piece);
    lemma_places_one(piece);
    if pieces.len() == 0 {
        assert(spliced(places(pieces), offset, part) =~= part);
    } else {
        let head = pieces[0];
        let rest = pieces.skip(1);
        let own = piece_places(head);
        lemma_sum_len_first(pieces);
        lemma_places_concat(seq![head], rest);
        lemma_places_one(head);
        assert(seq![head] + rest =~= pieces);
        lemma_places_len(rest);
        if offset <= head.len {
            lemma_spliced_left(own, places(rest), offset, part);
            if offset <= 0 {
                lemma_places_concat(seq![piece], pieces);
                assert(spliced(own, 0, part) =~= part + own);
                assert(part + own + places(rest) =~= part + (own + places(rest)));
            } else if offset >= head.len {
                lemma_places_concat(seq![head, piece], rest);
                lemma_places_concat(seq![head], seq![piece]);
                assert(seq![head] + seq![piece] =~= seq![head, piece]);
                assert(spliced(own, own.len() as int, part) =~= own + part);
            } else {
                let (l, r) = (opt(halves.0), opt(halves.1));
                assert(cut_in_leaf(pieces, offset) == Some((head, offset as usize)));
                lemma_places_concat(l + seq![piece] + r, rest);
                lemma_places_concat(l + seq![piece], r);
                lemma_places_concat(l, seq![piece]);
            }
        } else {
            assert(pieces_ok(rest)) by {
                assert forall|i: int| 0 <= i < rest.len() implies piece_ok(#[trigger] rest[i]) by {
                    assert(rest[i] == pieces[i + 1]);
                }
            }
            lemma_insert_places_leaf(rest, offset - head.len, piece, halves);
            let tail = inserted_in_leaf(rest, offset - head.len, piece, halves);
            lemma_places_concat(seq![head], tail);
            lemma_spliced_right(own, places(rest), offset, part);
        }
    }
}

proof fn lemma_leaf_after_insert(pieces: Seq<Piece>, offset: int, piece: Piece, halves: Halves)
    requires
        pieces_ok(pieces),
        piece_ok(piece),
        cut_in_leaf(pieces, offset) is Some ==> halves_ok(
            cut_in_leaf(pieces, offset)->Some_0.0,
            halves,
        ),
    ensures
        pieces_ok(inserted_in_leaf(pieces, offset, piece, halves)),
        sum_len(inserted_in_leaf(pieces, offset, piece, halves)) <= sum_len(pieces) + piece.len,
{
    crate::piece_tree::lemma_inserted_in_leaf(pieces, offset, piece, halves);
}

/// An insertion puts the bytes of the piece at the offset and moves nothing else.
pub proof fn law_insert_places(
    leaves: Seq<Seq<Piece>>,
    offset: int,
    piece: Piece,
    halves: Halves,
)
    requires
        leaves_ok(leaves),
        piece_ok(piece),
        0 <= offset <= sum_len(flat(leaves)),
        sum_len(flat(leaves)) + piece.len <= usize::MAX,
        cut_in_leaves(leaves, offset) is Some ==> splits_at(
            cut_in_leaves(leaves, offset)->Some_0.0,
            cut_in_leaves(leaves, offset)->Some_0.1 as int,
            halves,
        ),
    ensures
        places(flat(inserted_in_leaves(leaves, offset, piece, halves))) == spliced(
            places(flat(leaves)),
            offset,
            piece_places(piece),
        ),
    decreases leaves.len(),
{
    let part = piece_places(piece);
    let all = flat(leaves);
    lemma_places_len(all);
    if leaves.len() == 0 {
        crate::tree_model::lemma_flat_one(seq![piece]);
        lemma_places_one(piece);
        assert(all =~= Seq::empty());
        assert(spliced(places(all), offset, part) =~= part);
    } else {
        let head = leaves[0];
        let rest = leaves.skip(1);
        lemma_flat_first(leaves);
        lemma_sum_len_concat(head, flat(rest));
        lemma_places_concat(head, flat(rest));
        lemma_places_len(head);
        lemma_places_len(flat(rest));
        assert(pieces_ok(leaves[0]));
        if leaves.len() == 1 || offset < sum_len(head) {
            let out = inserted_in_leaf(head, offset, piece, halves);
            lemma_leaf_after_insert(head, offset, piece, halves);
            lemma_coalesced(out);
            lemma_chunks(coalesced(out));
            lemma_flat_concat(chunks(coalesced(out)), rest);
            lemma_places_concat(coalesced(out), flat(rest));
            if leaves.len() == 1 {
                assert(rest =~= Seq::empty());
                assert(flat(rest) =~= Seq::empty());
            }
            lemma_insert_places_leaf(head, offset, piece, halves);
            lemma_spliced_left(places(head), places(flat(rest)), offset, part);
        } else {
            assert(leaves_ok(rest)) by {
                assert forall|i: int| 0 <= i < rest.len() implies 0 < (#[trigger] rest[i]).len()
                    <= MAX_LEAF_PIECES && pieces_ok(rest[i]) by {
                    assert(rest[i] == leaves[i + 1]);
                }
            }
            let local = offset - sum_len(head);
            law_insert_places(rest, local, piece, halves);
            let tail = inserted_in_leaves(rest, local, piece, halves);
            lemma_flat_concat(seq![head], tail);
            crate::tree_model::lemma_flat_one(head);
            lemma_places_concat(head, flat(tail));
            lemma_spliced_right(places(head), places(flat(rest)), offset, part);
        }
    }
}

proof fn lemma_without_concat(a: Seq<Place>, b: Seq<Place>, start: int, end: int)
    requires
        start <= end,
    ensures
        without(a + b, start, end) == without(a, start, end) + without(
            b,
            start - a.len(),
            end - a.len(),
        ),
{
    assert(without(a + b, start, end) =~= without(a, start, end) + without(
        b,
        start - a.len(),
        end - a.len(),
    ));
}

/// `true` where `trim` leaves of each of `pieces` exactly what lies outside of the range.
pub open spec fn trims_exactly<F: Fn(Piece, usize, usize) -> Halves>(
    trim: F,
    pieces: Seq<Piece>,
) -> bool {
    forall|p: Piece, lo: usize, hi: usize, h: Halves|
        #![trigger call_ensures(trim, (p, lo, hi), h)]
        pieces.contains(p) && lo < hi <= p.len && call_ensures(trim, (p, lo, hi), h) ==> cuts_out(
            p,
            lo as int,
            hi as int,
            h,
        )
}

proof fn lemma_trims_part<F: Fn(Piece, usize, usize) -> Halves>(
    trim: F,
    part: Seq<Piece>,
    whole: Seq<Piece>,
)
    requires
        trims_exactly(trim, whole),
        forall|i: int| 0 <= i < part.len() ==> whole.contains(#[trigger] part[i]),
    ensures
        trims_exactly(trim, part),
{
}

proof fn lemma_delete_places_leaf<F: Fn(Piece, usize, usize) -> Halves>(
    trim: F,
    pieces: Seq<Piece>,
    start: int,
    end: int,
    outs: Seq<Halves>,
)
    requires
        pieces_ok(pieces),
        trims_exactly(trim, pieces),
        outcomes_in_leaf(trim, pieces, start, end, outs),
        0 <= start < end,
        sum_len(pieces) <= usize::MAX,
    ensures
        places(deleted_in_leaf(pieces, start, end, outs)) == without(places(pieces), start, end),
        pieces_ok(deleted_in_leaf(pieces, start, end, outs)),
        sum_len(deleted_in_leaf(pieces, start, end, outs)) <= sum_len(pieces),
    decreases pieces.len(),
{
    if pieces.len() == 0 {
        assert(places(deleted_in_leaf(pieces, start, end, outs)) =~= without(
            places(pieces),
            start,
            end,
        ));
    } else {
        let front = pieces.drop_last();
        let piece = pieces.last();
        let base = sum_len(front) as int;
        assert forall|i: int| 0 <= i < front.len() implies piece_ok(#[trigger] front[i])
            && pieces.contains(front[i]) by {
            assert(front[i] == pieces[i]);
        }
        assert(pieces[pieces.len() - 1] == piece);
        assert(pieces.contains(piece));
        lemma_trims_part(trim, front, pieces);
        lemma_delete_places_leaf(trim, front, start, end, outs.drop_last());
        lemma_places_len(front);
        lemma_without_concat(places(front), piece_places(piece), start, end);
        let head = deleted_in_leaf(front, start, end, outs.drop_last());
        let tail = trimmed(piece, base, start, end, outs.last());
        lemma_places_concat(head, tail);
        lemma_sum_len_concat(head, tail);
        let own = piece_places(piece);
        reveal_with_fuel(sum_len, 2);
        if outside(base, piece.len as int, start, end) {
            lemma_places_one(piece);
            assert(without(own, start - base, end - base) =~= own);
        } else {
            let lo = max_int(start - base, 0) as usize;
            let hi = (min_int(end, base + piece.len) - base) as usize;
            assert(call_ensures(trim, (piece, lo, hi), outs.last()));
            assert(cuts_out(piece, lo as int, hi as int, outs.last()));
            assert(without(own, start - base, end - base) =~= own.take(lo as int) + own.skip(
                hi as int,
            ));
        }
        assert forall|i: int| 0 <= i < (head + tail).len() implies piece_ok(
            #[trigger] (head + tail)[i],
        ) by {
            if i < head.len() {
                assert((head + tail)[i] == head[i]);
            } else {
                assert((head + tail)[i] == tail[i - head.len()]);
            }
        }
    }
}

/// A deletion takes the bytes of the range out and moves nothing else.
pub proof fn law_delete_places<F: Fn(Piece, usize, usize) -> Halves>(
    trim: F,
    leaves: Seq<Seq<Piece>>,
    start: int,
    end: int,
    outs: Seq<Seq<Halves>>,
)
    requires
        leaves_ok(leaves),
        trims_exactly(trim, flat(leaves)),
        outcomes_in_leaves(trim, leaves, start, end, outs),
        0 <= start < end,
        sum_len(flat(leaves)) <= usize::MAX,
    ensures
        places(flat(deleted_in_leaves(leaves, start, end, outs))) == without(
            places(flat(leaves)),
            start,
            end,
        ),
    decreases leaves.len(),
{
    if leaves.len() == 0 {
        assert(flat(deleted_in_leaves(leaves, start, end, outs)) =~= Seq::empty());
        assert(without(places(flat(leaves)), start, end) =~= Seq::empty());
    } else {
        let front = leaves.drop_last();
        let leaf = leaves[leaves.len() - 1];
        let base = sum_len(flat(front)) as int;
        let len = sum_len(leaf) as int;
        lemma_sum_len_concat(flat(front), leaf);
        lemma_places_concat(flat(front), leaf);
        lemma_places_len(flat(front));
        lemma_places_len(leaf);
        assert(flat(leaves) == flat(front) + leaf);
        assert forall|i: int| 0 <= i < front.len() implies 0 < (#[trigger] front[i]).len()
            <= MAX_LEAF_PIECES && pieces_ok(front[i]) by {
            assert(front[i] == leaves[i]);
        }
        assert forall|i: int| 0 <= i < flat(front).len() implies flat(leaves).contains(
            #[trigger] flat(front)[i],
        ) by {
            assert(flat(leaves)[i] == flat(front)[i]);
        }
        assert forall|i: int| 0 <= i < leaf.len() implies flat(leaves).contains(
            #[trigger] leaf[i],
        ) by {
            assert(flat(leaves)[flat(front).len() + i] == leaf[i]);
        }
        lemma_trims_part(trim, flat(front), flat(leaves));
        lemma_trims_part(trim, leaf, flat(leaves));
        law_delete_places(trim, front, start, end, outs.drop_last());
        lemma_without_concat(places(flat(front)), places(leaf), start, end);
        let head = deleted_in_leaves(front, start, end, outs.drop_last());
        let tail = rewritten(leaf, base, start, end, outs.last());
        lemma_flat_concat(head, tail);
        lemma_places_concat(flat(head), flat(tail));
        if outside(base, len, start, end) {
            crate::tree_model::lemma_flat_one(leaf);
            assert(without(places(leaf), start - base, end - base) =~= places(leaf));
        } else {
            let lo = max_int(start - base, 0);
            let hi = min_int(end - base, len);
            lemma_delete_places_leaf(trim, leaf, lo, hi, outs.last());
            let out = deleted_in_leaf(leaf, lo, hi, outs.last());
            lemma_coalesced(out);
            lemma_chunks(coalesced(out));
            assert(without(places(leaf), lo, hi) =~= without(
                places(leaf),
                start - base,
                end - base,
            ));
        }
    }
}

/// A line break of a text lies in the piece in which its number is reached: so many breaks and
/// so many bytes stand in front of the piece. There is none behind the last.
pub proof fn law_break_place(pieces: Seq<Piece>, target: int)
    requires
        target >= 0,
    ensures
        break_place(pieces, target) is Some <==> target < sum_breaks(pieces),
        break_place(pieces, target) is Some ==> exists|k: int| {
            let (piece, local, base) = break_place(pieces, target)->Some_0;
            &&& 0 <= k < pieces.len()
            &&& piece == pieces[k]
            &&& base == sum_len(#[trigger] pieces.take(k))
            &&& sum_breaks(pieces.take(k)) + local == target
            &&& local < piece.line_breaks
        },
    decreases pieces.len(),
{
    if pieces.len() > 0 {
        let rest = pieces.skip(1);
        lemma_sum_len_first(pieces);
        if target < pieces[0].line_breaks {
            assert(pieces.take(0) =~= Seq::empty());
            assert(sum_len(pieces.take(0)) == 0);
        } else {
            law_break_place(rest, target - pieces[0].line_breaks);
            if break_place(pieces, target) is Some {
                let (piece, local, base) = break_place(pieces, target)->Some_0;
                let k = choose|k: int| {
                    let (piece, local, base) = break_place(
                        rest,
                        target - pieces[0].line_breaks,
                    )->Some_0;
                    &&& 0 <= k < rest.len()
                    &&& piece == rest[k]
                    &&& base == sum_len(#[trigger] rest.take(k))
                    &&& sum_breaks(rest.take(k)) + local == target - pieces[0].line_breaks
                    &&& local < piece.line_breaks
                };
                let head = pieces.take(k + 1);
                lemma_sum_len_first(head);
                assert(head.skip(1) =~= rest.take(k));
                assert(head[0] == pieces[0]);
                assert(pieces[k + 1] == rest[k]);
            }
        }
    }
}

} // verus!
