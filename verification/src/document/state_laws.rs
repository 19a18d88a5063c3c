//! What a document says of itself.

use crate::document::piece_table::SMALL_PIECE_THRESHOLD_BYTES;
use crate::document::state::{Document, LineCountWait};
use crate::document::status::{DocumentStatus, ErrorView, MaintenanceAction};
use crate::document::types::{
    DocumentBacking, DocumentEncoding, DocumentEncodingOrigin, DocumentOpenOptions, EditCapability,
    LineCount, LineEnding, OpenEncodingPolicy, TextPosition, ViewportRow,
};
use vstd::prelude::*;
use vstd::utf8::{encode_utf8, valid_utf8};

verus! {

/// The text of a document in UTF-8 is handed out as it is, whatever holds it.
pub proof fn law_whole_text(doc: Document, text: Seq<char>)
    requires
        doc.wf(),
        doc.is_whole_text(text),
        !doc.spec_has_edit_buffer() ==> doc.file_len == doc.stored().len(),
        valid_utf8(doc.text()),
    ensures
        encode_utf8(text) == doc.text(),
{
    if !doc.spec_has_edit_buffer() {
        assert(doc.file_text() =~= doc.stored());
    }
}

/// A new document is empty, has one line and no file, is not changed, and can be saved.
pub proof fn law_new_document(doc: Document)
    requires
        doc.is_new(),
    ensures
        doc.text() == Seq::<u8>::empty(),
        doc.spec_file_len() == 0,
        doc.spec_line_count() == LineCount::Exact(1),
        !doc.spec_line_count_pending(),
        doc.spec_indexing_state() is None,
        doc.path is None,
        !doc.dirty,
        doc.line_ending == LineEnding::Lf,
        doc.encoding@ == ("UTF-8"@, "UTF-8"@),
        doc.encoding_origin == DocumentEncodingOrigin::NewDocument,
        !doc.decoding_had_errors,
        doc.spec_preserve_error() is Nothing,
        doc.spec_backing() == DocumentBacking::Mmap,
        doc.spec_fragmentation(0) is None,
{
    assert(doc.text() =~= Seq::empty());
}

/// A number of lines that is known is not waited for. One that is not known is waited for only
/// as long as something may still find it out, and only until the time is over.
pub proof fn law_wait_for_line_count(doc: Document, time_is_over: bool)
    ensures
        ({
            let exact = doc.spec_exact_line_count();
            let step = doc.spec_line_count_wait(time_is_over);
            let working = (doc.indexing && doc.rope is None && doc.piece_table is None) || (
            doc.disk_index is Some && doc.disk_index->Some_0 is Building);
            &&& exact is Some ==> step == LineCountWait::Done(exact) && !doc.spec_line_count_pending()
            &&& time_is_over ==> step == LineCountWait::Done(exact)
            &&& step is Sleep <==> exact is None && working && !time_is_over
            &&& doc.spec_line_count_pending() <==> exact is None && working
            &&& doc.spec_line_count() is Exact <==> exact is Some
            &&& exact is Some ==> doc.spec_line_count().spec_exact() == exact
            &&& exact is None ==> doc.spec_line_count().spec_exact() is None
            &&& exact is Some && exact->Some_0 > 0 ==> doc.spec_line_count().spec_display_rows()
                == exact->Some_0
        }),
{
}

/// What is shown of a document is what the document is.
pub proof fn law_status(doc: Document, status: DocumentStatus)
    requires
        doc.wf(),
        doc.is_status(status),
    ensures
        status.path is Some <==> doc.path is Some,
        status.path is Some ==> status.path->Some_0@ == doc.path->Some_0@,
        status.dirty <==> doc.dirty,
        status.line_count.spec_exact() == doc.spec_exact_line_count(),
        status.exact_line_count_pending ==> status.line_count is Estimated,
        status.line_ending == doc.line_ending,
        status.encoding == doc.encoding,
        status.encoding_origin == doc.encoding_origin,
        status.decoding_had_errors <==> doc.decoding_had_errors,
        status.preserve_save_error is None <==> doc.spec_preserve_error() is Nothing,
        status.backing == DocumentBacking::Rope <==> doc.rope is Some,
        status.backing == DocumentBacking::PieceTable <==> doc.piece_table is Some,
        status.indexing is Some <==> doc.indexing && doc.rope is None && doc.piece_table is None,
        status.indexing is Some ==> status.indexing->Some_0.completed_bytes == doc.indexed_bytes
            && status.indexing->Some_0.total_bytes == doc.file_len,
        !doc.spec_has_edit_buffer() ==> status.file_len == doc.file_len,
{
}

/// How small pieces are told by default.
pub proof fn law_default_threshold(doc: Document)
    requires
        doc.piece_table is Some,
    ensures
        doc.spec_fragmentation(SMALL_PIECE_THRESHOLD_BYTES) is Some,
        doc.spec_fragmentation(
            SMALL_PIECE_THRESHOLD_BYTES,
        )->Some_0.small_piece_threshold_bytes == 1024,
{
}

/// Places are ordered by their lines, and in a line by their columns: any two can be compared,
/// and the order is that of the text.
pub proof fn law_place_order(a: TextPosition, b: TextPosition, c: TextPosition)
    ensures
        a.spec_le(b) || b.spec_le(a),
        a.spec_le(b) && b.spec_le(a) <==> a == b,
        a.spec_le(b) && b.spec_le(c) ==> a.spec_le(c),
        a.line0 < b.line0 ==> a.spec_le(b) && a != b,
        a.line0 == b.line0 && a.col0 < b.col0 ==> a.spec_le(b) && a != b,
{
}

/// Text that has to be moved before it is edited can be edited all the same, and it is told
/// where it goes; text that cannot be edited goes nowhere.
pub proof fn law_edit_capability(
    backing: DocumentBacking,
    to: DocumentBacking,
    reason: &'static str,
)
    ensures
        ({
            let now = EditCapability::Editable { backing };
            let moved = EditCapability::RequiresPromotion { from: backing, to };
            let never = EditCapability::Unsupported { backing, reason };
            &&& now.spec_is_editable() && moved.spec_is_editable() && !never.spec_is_editable()
            &&& now.spec_target_backing() is None
            &&& moved.spec_target_backing() == Some(to)
            &&& never.spec_target_backing() is None
            &&& now.spec_current_backing() == backing
            &&& moved.spec_current_backing() == backing
            &&& never.spec_current_backing() == backing
        }),
{
}

/// An encoding was found in the file, named by the caller, or both, or neither.
pub proof fn law_encoding_origin(origin: DocumentEncodingOrigin, encoding: DocumentEncoding)
    ensures
        origin is AutoDetected || origin is AutoDetectFallbackUtf8
            ==> origin.spec_used_auto_detection() && !origin.spec_is_explicit(),
        origin is AutoDetectFallbackOverride ==> origin.spec_used_auto_detection()
            && origin.spec_is_explicit(),
        origin is ExplicitReinterpretation || origin is SaveConversion ==> origin.spec_is_explicit()
            && !origin.spec_used_auto_detection(),
        origin is NewDocument || origin is Utf8FastPath ==> !origin.spec_is_explicit()
            && !origin.spec_used_auto_detection(),
        (DocumentOpenOptions {
            encoding_policy: OpenEncodingPolicy::Reinterpret(encoding),
        }).spec_encoding_override() == Some(encoding),
        (DocumentOpenOptions {
            encoding_policy: OpenEncodingPolicy::AutoDetectOrReinterpret(encoding),
        }).spec_encoding_override() == Some(encoding),
        (DocumentOpenOptions {
            encoding_policy: OpenEncodingPolicy::AutoDetect,
        }).spec_encoding_override() is None,
        (DocumentOpenOptions {
            encoding_policy: OpenEncodingPolicy::Utf8FastPath,
        }).spec_encoding_override() is None,
{
}

/// What is shown of an error names the file and ends with what went wrong.
pub proof fn law_error_message(path: Seq<char>, source: Seq<char>, error: ErrorView)
    requires
        error == (ErrorView::Open { path, source }) || error == (ErrorView::Write { path, source })
            || error == (ErrorView::Mmap { path, source }),
    ensures
        ({
            let text = error.message();
            let head: int = if error is Write {
                7
            } else {
                6
            };
            &&& text.len() == head + path.len() + 3 + source.len()
            &&& text.subrange(head, head + path.len()) == path
            &&& text.skip(head + path.len() + 3) == source
            &&& text[0] == (if error is Open {
                'o'
            } else if error is Write {
                'w'
            } else {
                'm'
            })
        }),
{
    reveal_strlit("open `");
    reveal_strlit("write `");
    reveal_strlit("mmap `");
    reveal_strlit("`: ");
    let text = error.message();
    let head: int = if error is Write {
        7
    } else {
        6
    };
    assert(text.subrange(head, head + path.len()) =~= path);
    assert(text.skip(head + path.len() + 3) =~= source);
}

/// The first row of a text has the number one, and rows in a row have numbers in a row.
pub proof fn law_row_numbers(row: ViewportRow, next: ViewportRow)
    requires
        row.line0 < usize::MAX - 1,
        next.line0 == row.line0 + 1,
    ensures
        row.line0 == 0 ==> row.spec_line_number() == 1,
        next.spec_line_number() == row.spec_line_number() + 1,
        row.spec_line_number() > row.line0,
{
}

/// Different things have different names.
pub proof fn law_names_differ(
    a: DocumentEncodingOrigin,
    b: DocumentEncodingOrigin,
    c: DocumentBacking,
    d: DocumentBacking,
    e: MaintenanceAction,
    f: MaintenanceAction,
    g: LineEnding,
    h: LineEnding,
)
    ensures
        a != b ==> a.spec_as_str()@ != b.spec_as_str()@,
        c != d ==> c.spec_as_str()@ != d.spec_as_str()@,
        e != f ==> e.spec_as_str()@ != f.spec_as_str()@,
        g != h ==> g.spec_as_str()@ != h.spec_as_str()@,
{
    reveal_strlit("new-document");
    reveal_strlit("utf8-fast-path");
    reveal_strlit("auto-detected");
    reveal_strlit("auto-detect-fallback-utf8");
    reveal_strlit("auto-detect-fallback-override");
    reveal_strlit("explicit-reinterpretation");
    reveal_strlit("save-conversion");
    reveal_strlit("mmap");
    reveal_strlit("piece-table");
    reveal_strlit("rope");
    reveal_strlit("none");
    reveal_strlit("idle-compaction");
    reveal_strlit("explicit-compaction");
    reveal_strlit("\n");
    reveal_strlit("\r\n");
    reveal_strlit("\r");
    assert("new-document"@.len() == 12);
    assert("utf8-fast-path"@.len() == 14);
    assert("auto-detected"@.len() == 13);
    assert("auto-detect-fallback-utf8"@.len() == 25);
    assert("auto-detect-fallback-override"@.len() == 29);
    assert("explicit-reinterpretation"@.len() == 25);
    assert("save-conversion"@.len() == 15);
    assert("piece-table"@.len() == 11);
    assert("none"@.len() == 4);
    assert("idle-compaction"@.len() == 15);
    assert("explicit-compaction"@.len() == 19);
    assert("\n"@.len() == 1 && "\r\n"@.len() == 2 && "\r"@.len() == 1);
    assert("mmap"@[0] == 'm' && "rope"@[0] == 'r');
    assert("\n"@[0] == '\n' && "\r"@[0] == '\r');
    assert("auto-detect-fallback-utf8"@[0] == 'a' && "explicit-reinterpretation"@[0] == 'e');
}

} // verus!
