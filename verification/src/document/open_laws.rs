//! What is known of a file when it is opened: its line ending, its lines, and where they lie.

use crate::document::estimate::{
    first_break, last_break, lemma_last_break, lemma_line_start_beyond, lemma_next_line,
    range_around, APPROX_LINE_BACKTRACK_BYTES, APPROX_LINE_FORWARD_BYTES,
};
use crate::document::positions::{last_line, lemma_line_start_at};
use crate::document::state::{
    lemma_detect_skip, offsets_ok, spec_detect_line_ending, Document,
};
use crate::document::text::{lemma_line_start_is, line_start, line_start_from};
use crate::document::types::LineEnding;
use crate::index::{
    is_index_of, law_index_lookup, lemma_scan_sound, parsed_index_header, DiskLineIndex,
    IndexMetadata,
};
use crate::scan::{ends_line, is_either, lemma_line_ends_monotone, line_ends, CR, LF};
use crate::tree_model::{max_int, min_int};
use vstd::prelude::*;

verus! {

/// The line ending of a file is the one that stands behind its first line. A file of one line
/// gets a line feed.
pub proof fn law_detected_line_ending(bytes: Seq<u8>, at: int)
    requires
        0 <= at <= bytes.len(),
        forall|i: int| 0 <= i < at ==> #[trigger] bytes[i] != 10 && bytes[i] != 13,
        at < bytes.len() ==> bytes[at] == 10 || bytes[at] == 13,
    ensures
        ({
            let ending = spec_detect_line_ending(bytes);
            let own = ending.spec_as_str()@;
            &&& at == bytes.len() ==> ending == LineEnding::Lf
            &&& at < bytes.len() ==> {
                &&& ending is Lf <==> bytes[at] == 10
                &&& ending is Crlf <==> bytes[at] == 13 && at + 1 < bytes.len() && bytes[at + 1]
                    == 10
                &&& at + own.len() <= bytes.len()
                &&& forall|k: int|
                    0 <= k < own.len() ==> #[trigger] own[k] as u32 == bytes[at + k] as u32
            }
        }),
{
    reveal_strlit("\n");
    reveal_strlit("\r\n");
    reveal_strlit("\r");
    assert forall|i: int| 0 <= i < at implies !is_either(#[trigger] bytes[i], LF, CR) by {}
    lemma_detect_skip(bytes, at);
    let rest = bytes.skip(at);
    if at < bytes.len() {
        assert(rest[0] == bytes[at]);
        if at + 1 < bytes.len() {
            assert(rest[1] == bytes[at + 1]);
        }
    }
}

/// A file that is opened is read as it is: its text are its bytes, its lines are those of the
/// bytes, it has the line ending of its first line, it is unchanged, and it can be saved in its
/// encoding, whether it is valid or not. It is known whether it is.
pub proof fn law_opened_file(doc: Document, bytes: Seq<u8>, at: int, line0: int)
    requires
        doc.wf(),
        doc.is_opened_from(bytes),
        bytes.len() < usize::MAX,
        0 <= at < bytes.len(),
        forall|i: int| 0 <= i < at ==> #[trigger] bytes[i] != 10 && bytes[i] != 13,
        bytes[at] == 10 || bytes[at] == 13,
        0 <= line0 <= last_line(bytes),
    ensures
        doc.text() == bytes,
        !doc.dirty,
        doc.spec_file_len() == bytes.len(),
        doc.disk_index is None ==> doc.spec_exact_line_count() == Some(
            (last_line(bytes) + 1) as usize,
        ),
        doc.line_offsets@.len() == last_line(bytes) + 1,
        doc.line_offsets@[line0] == line_start(bytes, line0 as nat),
        doc.line_ending is Lf <==> bytes[at] == 10,
        doc.line_ending is Crlf <==> bytes[at] == 13 && at + 1 < bytes.len() && bytes[at + 1] == 10,
        doc.decoding_had_errors <==> !vstd::utf8::valid_utf8(bytes),
        doc.spec_preserve_error() is Nothing,
{
    law_detected_line_ending(bytes, at);
    assert(doc.file_text() == bytes);
    law_line_offsets(doc.line_offsets@, bytes, line0);
    assert(line_ends(bytes, 0) == 0);
    lemma_line_ends_monotone(bytes, 0, bytes.len() as int);
}

/// The known line starts of a file are the starts of its first lines.
pub proof fn law_line_offsets(offsets: Seq<usize>, text: Seq<u8>, k: int)
    requires
        offsets_ok(offsets, text),
        0 <= k < offsets.len(),
    ensures
        k <= last_line(text),
        offsets[k] == line_start(text, k as nat),
{
    let start = offsets[k] as int;
    assert(line_ends(text, 0) == 0);
    lemma_line_ends_monotone(text, start, text.len() as int);
    if start > 0 {
        lemma_line_start_is(text, 0, start);
    }
}

/// While a file is being indexed, the number of lines is estimated: there are as many as the
/// whole file has at the average length of a line, or as many as have been seen, if those are
/// more.
pub proof fn law_estimated_line_count(doc: Document)
    requires
        doc.wf(),
        doc.spec_line_count() is Estimated,
    ensures
        ({
            let lines = doc.spec_line_count()->Estimated_0 as int;
            let avg = if doc.avg_line_len == 0 {
                1int
            } else {
                doc.avg_line_len as int
            };
            let seen = doc.line_offsets@.len() as usize;
            let in_table = match doc.piece_table {
                Some(table) => table.known_line_count as int,
                None => 0,
            };
            &&& lines >= 1
            &&& lines * avg >= doc.spec_file_len()
            &&& lines >= seen
            &&& lines >= in_table
            &&& lines == 1 || lines == seen || lines == in_table || (lines - 1) * avg
                < doc.spec_file_len()
            &&& doc.spec_line_count().spec_display_rows() == lines
        }),
{
    let avg = doc.spec_avg_line_len() as int;
    let len = doc.spec_file_len() as int;
    let lines = doc.spec_line_count()->Estimated_0 as int;
    vstd::arithmetic::div_mod::lemma_fundamental_div_mod(len, avg);
    vstd::arithmetic::div_mod::lemma_mod_bound(len, avg);
    vstd::arithmetic::div_mod::lemma_div_pos_is_pos(len, avg);
    let q = len / avg;
    assert(avg * q == q * avg) by (nonlinear_arith);
    assert((q + 1) * avg == q * avg + avg) by (nonlinear_arith);
    assert((q - 1) * avg == q * avg - avg) by (nonlinear_arith);
    assert(q <= len) by (nonlinear_arith)
        requires
            avg >= 1,
            q >= 0,
            q * avg <= len,
    ;
    assert(q == len ==> avg == 1 || len == 0) by (nonlinear_arith)
        requires
            avg >= 1,
            q >= 0,
            q * avg <= len,
    ;
    let guess = if len % avg == 0 {
        q
    } else {
        q + 1
    };
    assert(lines >= guess);
    assert(lines * avg >= guess * avg) by (nonlinear_arith)
        requires
            lines >= guess,
            avg >= 1,
    ;
}

/// The number of lines that an index names is the number of lines of the source that it was
/// built over.
pub proof fn law_index_counts_lines(index: DiskLineIndex, bytes: Seq<u8>, metadata: IndexMetadata)
    requires
        index is Ready,
        is_index_of(index->Ready_0.file(), bytes, metadata),
        index->Ready_0.header() == parsed_index_header(index->Ready_0.file())->Ok_0,
        bytes.len() < usize::MAX,
        bytes.len() < u64::MAX,
    ensures
        index.spec_total_lines() == Some((last_line(bytes) + 1) as usize),
{
    lemma_scan_sound(bytes, bytes.len());
    assert(line_ends(bytes, 0) == 0);
    lemma_line_ends_monotone(bytes, 0, bytes.len() as int);
}

/// The checkpoint that an index gives for a line of the source that it was built over is the
/// start of a line, at most a stride in front of the line that was asked for.
pub proof fn law_checkpoint(
    index: DiskLineIndex,
    bytes: Seq<u8>,
    metadata: IndexMetadata,
    line0: usize,
)
    requires
        index is Ready,
        is_index_of(index->Ready_0.file(), bytes, metadata),
        index->Ready_0.header() == parsed_index_header(index->Ready_0.file())->Ok_0,
        bytes.len() < usize::MAX,
        bytes.len() < u64::MAX,
        line0 <= u64::MAX,
    ensures
        ({
            let checkpoint = index.spec_checkpoint(line0)->Some_0;
            &&& index.spec_checkpoint(line0) is Some
            &&& checkpoint.line0 <= line0
            &&& checkpoint.line0 <= last_line(bytes)
            &&& checkpoint.byte0 == line_start(bytes, checkpoint.line0 as nat)
            &&& line0 <= last_line(bytes) ==> line0 - checkpoint.line0
                < 8_192
        }),
{
    let file = index->Ready_0.file();
    law_index_lookup(file, bytes, metadata, line0 as u64);
    let entry = crate::index::entry_for(crate::index::checkpoints(bytes), line0 as u64);
    let start = entry.byte0 as int;
    assert(line_ends(bytes, 0) == 0);
    lemma_line_ends_monotone(bytes, 0, start);
    lemma_line_ends_monotone(bytes, start, bytes.len() as int);
    if start > 0 {
        lemma_line_start_is(bytes, 0, start);
    }
}

/// The checkpoint for a line lies in front of the line, or where it starts.
pub proof fn law_checkpoint_in_front(
    index: DiskLineIndex,
    bytes: Seq<u8>,
    metadata: IndexMetadata,
    line0: usize,
)
    requires
        index is Ready,
        is_index_of(index->Ready_0.file(), bytes, metadata),
        index->Ready_0.header() == parsed_index_header(index->Ready_0.file())->Ok_0,
        bytes.len() < usize::MAX,
        bytes.len() < u64::MAX,
        line0 <= u64::MAX,
    ensures
        ({
            let checkpoint = index.spec_checkpoint(line0)->Some_0;
            line_start(bytes, checkpoint.line0 as nat) <= line_start(
                bytes,
                min_int(line0 as int, last_line(bytes) as int) as nat,
            )
        }),
{
    law_checkpoint(index, bytes, metadata, line0);
    let checkpoint = index.spec_checkpoint(line0)->Some_0;
    let line = min_int(line0 as int, last_line(bytes) as int) as nat;
    assert(line_ends(bytes, 0) == 0);
    lemma_line_start_at(bytes, 0, checkpoint.line0 as nat);
    lemma_line_start_at(bytes, 0, line);
    let a = line_start(bytes, checkpoint.line0 as nat);
    let b = line_start(bytes, line);
    if b < a {
        lemma_line_ends_monotone(bytes, b, a - 1);
        assert(line_ends(bytes, a) == line_ends(bytes, a - 1) + (if ends_line(bytes, a - 1) {
            1nat
        } else {
            0
        }));
    }
}

/// A line that the index of a file does not have is not looked for; nor is any line of an empty
/// file. Every other line is.
pub proof fn law_missing_lines(
    doc: Document,
    index: DiskLineIndex,
    metadata: IndexMetadata,
    line0: usize,
)
    requires
        doc.disk_index == Some(index),
        !doc.spec_has_edit_buffer(),
        index is Ready,
        is_index_of(index->Ready_0.file(), doc.file_text(), metadata),
        index->Ready_0.header() == parsed_index_header(index->Ready_0.file())->Ok_0,
        doc.file_text().len() < usize::MAX,
        doc.file_text().len() < u64::MAX,
    ensures
        doc.spec_estimated_range(line0) is Some <==> doc.file_text().len() > 0 && line0
            <= last_line(doc.file_text()),
{
    law_index_counts_lines(index, doc.file_text(), metadata);
    assert(line_ends(doc.file_text(), 0) == 0);
    lemma_line_ends_monotone(doc.file_text(), 0, doc.file_text().len() as int);
}

/// What is found for a line is at most one line of the file. It starts where a line starts and
/// ends where one ends, unless the line is longer than what is looked at.
pub proof fn law_estimated_range_is_a_line(doc: Document, line0: usize)
    requires
        doc.spec_estimated_range(line0) is Some,
        doc.spec_approx_offset(line0) >= 0,
    ensures
        ({
            let text = doc.file_text();
            let (start, end) = doc.spec_estimated_range(line0)->Some_0;
            &&& 0 <= start <= end <= text.len()
            &&& start == 0 || ends_line(text, start - 1) || start == doc.spec_approx_offset(line0)
                - APPROX_LINE_BACKTRACK_BYTES
            &&& end == text.len() || ends_line(text, end - 1) || end == doc.spec_approx_offset(
                line0,
            ) + APPROX_LINE_FORWARD_BYTES
            &&& forall|i: int| start <= i < end - 1 ==> !#[trigger] ends_line(text, i)
        }),
{
    let text = doc.file_text();
    let approx = doc.spec_approx_offset(line0);
    let back = max_int(approx - APPROX_LINE_BACKTRACK_BYTES, 0);
    let limit = min_int(approx + APPROX_LINE_FORWARD_BYTES, text.len() as int);
    lemma_break_places(text, back, approx);
    let (start, end) = doc.spec_estimated_range(line0)->Some_0;
    lemma_break_places(text, start, limit);
    assert forall|i: int| start <= i < end - 1 implies !#[trigger] ends_line(text, i) by {
        match first_break(text, start, limit) {
            Some(at) => {
                if i < at {
                    assert(!is_either(text[i], LF, CR));
                }
            },
            None => {
                assert(!is_either(text[i], LF, CR));
            },
        }
    }
}

proof fn lemma_break_places(text: Seq<u8>, lo: int, hi: int)
    requires
        0 <= lo,
        hi <= text.len(),
    ensures
        match first_break(text, lo, hi) {
            Some(at) => lo <= at < hi && is_either(text[at], LF, CR) && forall|i: int|
                lo <= i < at ==> !is_either(#[trigger] text[i], LF, CR),
            None => forall|i: int| lo <= i < hi ==> !is_either(#[trigger] text[i], LF, CR),
        },
        match last_break(text, lo, hi) {
            Some(at) => lo <= at < hi && is_either(text[at], LF, CR),
            None => true,
        },
    decreases hi - lo,
{
    if lo < hi {
        lemma_break_places(text, lo + 1, hi);
        lemma_last_place(text, lo, hi);
    }
}

proof fn lemma_last_place(text: Seq<u8>, lo: int, hi: int)
    requires
        0 <= lo <= hi <= text.len(),
    ensures
        match last_break(text, lo, hi) {
            Some(at) => lo <= at < hi && is_either(text[at], LF, CR),
            None => true,
        },
    decreases hi - lo,
{
    if lo < hi {
        lemma_last_place(text, lo, hi - 1);
    }
}

/// The line that starts at the place where a line is looked for is found, unless it is longer
/// than what is looked at, or is the empty line at the end of the file.
proof fn lemma_range_at_line(text: Seq<u8>, start: int)
    requires
        0 <= start < text.len(),
        start == 0 || ends_line(text, start - 1),
        line_start_from(text, start, 1) <= start + APPROX_LINE_FORWARD_BYTES,
    ensures
        range_around(text, start) == (
            start,
            line_start_from(text, start, 1),
        ),
{
    let limit = min_int(start + APPROX_LINE_FORWARD_BYTES, text.len() as int);
    let back = max_int(start - APPROX_LINE_BACKTRACK_BYTES, 0);
    if start > 0 {
        lemma_last_break(text, back, start, start - 1);
    }
    lemma_line_start_beyond(text, start, 1);
    lemma_next_line(text, start, limit);
}

/// A line of a large file is found through the index of the file, without looking at the lines
/// in front: where the lines from the checkpoint on have the average length, the range is that
/// of the line.
pub proof fn law_line_through_index(
    doc: Document,
    index: DiskLineIndex,
    metadata: IndexMetadata,
    line0: usize,
)
    requires
        doc.disk_index == Some(index),
        !doc.spec_has_edit_buffer(),
        index is Ready,
        is_index_of(index->Ready_0.file(), doc.file_text(), metadata),
        index->Ready_0.header() == parsed_index_header(index->Ready_0.file())->Ok_0,
        doc.file_text().len() < usize::MAX,
        doc.file_text().len() < u64::MAX,
        doc.line_offsets@.len() <= line0 <= last_line(doc.file_text()),
        ({
            let text = doc.file_text();
            let start = line_start(text, line0 as nat);
            let checkpoint = index.spec_checkpoint(line0)->Some_0;
            &&& start < text.len()
            &&& line_start_from(text, start, 1) <= start + 65_536
            &&& start == line_start(text, checkpoint.line0 as nat) + (line0 - checkpoint.line0)
                * doc.spec_avg_line_len()
        }),
    ensures
        doc.spec_estimated_range(line0) == Some(
            (
                line_start(doc.file_text(), line0 as nat),
                line_start_from(
                    doc.file_text(),
                    line_start(doc.file_text(), line0 as nat),
                    1,
                ),
            ),
        ),
{
    let text = doc.file_text();
    let start = line_start(text, line0 as nat);
    assert(line_ends(text, 0) == 0);
    lemma_line_ends_monotone(text, 0, text.len() as int);
    law_index_counts_lines(index, text, metadata);
    law_checkpoint(index, text, metadata, line0);
    let checkpoint = index.spec_checkpoint(line0)->Some_0;
    let lines = line0 - checkpoint.line0;
    assert(0 <= lines * doc.spec_avg_line_len()) by (nonlinear_arith)
        requires
            lines >= 0,
            doc.spec_avg_line_len() >= 0,
    ;
    lemma_line_start_at(text, 0, checkpoint.line0 as nat);
    lemma_line_start_at(text, 0, line0 as nat);
    lemma_range_at_line(text, start);
}

/// A line behind the known ones is looked for as far behind the last known line as the lines
/// between would take at the average length: where they have it, the range is that of the
/// line.
pub proof fn law_line_behind_known(doc: Document, line0: usize)
    requires
        doc.disk_index is None,
        offsets_ok(doc.line_offsets@, doc.file_text()),
        0 < doc.line_offsets@.len() <= line0 <= last_line(doc.file_text()),
        doc.file_text().len() < usize::MAX,
        ({
            let text = doc.file_text();
            let start = line_start(text, line0 as nat);
            let known = (doc.line_offsets@.len() - 1) as nat;
            &&& start < text.len()
            &&& line_start_from(text, start, 1) <= start + 65_536
            &&& start == line_start(text, known) + (line0 - known) * doc.spec_avg_line_len()
        }),
    ensures
        doc.spec_estimated_range(line0) == Some(
            (
                line_start(doc.file_text(), line0 as nat),
                line_start_from(
                    doc.file_text(),
                    line_start(doc.file_text(), line0 as nat),
                    1,
                ),
            ),
        ),
{
    let text = doc.file_text();
    let start = line_start(text, line0 as nat);
    let known = doc.line_offsets@.len() - 1;
    assert(line_ends(text, 0) == 0);
    law_line_offsets(doc.line_offsets@, text, known);
    lemma_line_start_at(text, 0, line0 as nat);
    lemma_range_at_line(text, start);
}

} // verus!
