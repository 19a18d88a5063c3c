//! What saves promise: what is written, what is refused, and why.

use crate::document::encode::{encode_outcome, encode_result, EncodeFailure};
use crate::document::piece_table::{fragmentation, small_count, small_sum};
use crate::document::state::{preserve_error_is, Document};
use crate::document::status::DocumentEncodingErrorKind;
use crate::document::types::{DocumentEncoding, DocumentSaveOptions, SaveEncodingPolicy};
use crate::editlog::Piece;
use crate::tree_model::sum_len;
use vstd::prelude::*;
use vstd::utf8::encode_utf8;

verus! {

/// What is written in an encoding is what the encoder made of the whole text, in that very
/// encoding, with no character replaced by another. UTF-8 holds every text. Everything else is
/// refused, with the reason for it.
pub proof fn law_nothing_is_lost(
    text: Seq<char>,
    encoding: (Seq<char>, Seq<char>),
    made: Option<(Seq<u8>, (Seq<char>, Seq<char>), bool)>,
)
    ensures
        ({
            let outcome = encode_outcome(text, encoding, made);
            let utf8 = encoding.0 == "UTF-8"@;
            let usable = encoding.0 == encoding.1 && made is Some;
            let same = usable && made->Some_0.1.0 == encoding.0;
            &&& utf8 ==> outcome == Ok::<Seq<u8>, EncodeFailure>(encode_utf8(text))
            &&& !utf8 && outcome is Ok ==> {
                &&& same
                &&& !made->Some_0.2
                &&& outcome->Ok_0 == made->Some_0.0
            }
            &&& !utf8 && same && !made->Some_0.2 ==> outcome is Ok
            &&& !utf8 && same && made->Some_0.2 ==> outcome == Err::<Seq<u8>, EncodeFailure>(
                EncodeFailure::Unrepresentable,
            )
            &&& !utf8 && usable && !same ==> outcome == Err::<Seq<u8>, EncodeFailure>(
                EncodeFailure::Redirected(made->Some_0.1),
            )
            &&& !utf8 && !usable ==> outcome == Err::<Seq<u8>, EncodeFailure>(
                EncodeFailure::Unsupported,
            )
        }),
{
}

/// A save in another encoding is possible exactly where the text can be written in it and, if
/// the file has to be read again afterwards, is not too large for that. The options of a save
/// decide between that and a save in the same encoding.
pub proof fn law_conversion(
    doc: Document,
    encoding: DocumentEncoding,
    error: Option<DocumentEncodingErrorKind>,
)
    requires
        doc.wf(),
        preserve_error_is(doc.spec_encoding_error(encoding@), error),
    ensures
        ({
            let written = encode_result(doc.spec_rendered(), encoding@);
            let too_large = written is Ok && doc.rope is None && encoding@.0 != "UTF-8"@
                && written->Ok_0.len() > 134_217_728;
            let convert = DocumentSaveOptions {
                encoding_policy: SaveEncodingPolicy::Convert(encoding),
            };
            let preserve = DocumentSaveOptions { encoding_policy: SaveEncodingPolicy::Preserve };
            &&& error is None <==> written is Ok && !too_large
            &&& too_large ==> error == Some(
                DocumentEncodingErrorKind::SaveReopenTooLarge { max_bytes: 134_217_728 },
            )
            &&& written is Err && written->Err_0 is Unrepresentable ==> error == Some(
                DocumentEncodingErrorKind::UnrepresentableText,
            )
            &&& written is Err && written->Err_0 is Unsupported ==> error == Some(
                DocumentEncodingErrorKind::UnsupportedSaveTarget,
            )
            &&& written is Err && written->Err_0 is Redirected ==> error is Some
                && error->Some_0 is RedirectedSaveTarget
            &&& doc.spec_save_error(convert) == doc.spec_encoding_error(encoding@)
            &&& doc.spec_save_error(preserve) == doc.spec_preserve_error()
            &&& doc.spec_encoding_error(encoding@) is Nothing <==> error is None
        }),
{
}

/// Why a save in the same encoding is refused: the encoding cannot be written, what would be
/// written was repaired when it was read, or the text does not fit the encoding. The last is
/// what a conversion to the same encoding is refused for.
pub proof fn law_preserve_reasons(doc: Document, error: Option<DocumentEncodingErrorKind>)
    requires
        doc.wf(),
        preserve_error_is(doc.spec_preserve_error(), error),
    ensures
        error == Some(DocumentEncodingErrorKind::PreserveSaveUnsupported) <==> doc.encoding@.0
            != doc.encoding@.1,
        error == Some(DocumentEncodingErrorKind::LossyDecodedPreserve) <==> doc.encoding@.0
            == doc.encoding@.1 && doc.decoding_had_errors && (doc.rope is Some || doc.encoding@.0
            != "UTF-8"@),
        doc.encoding@.0 == doc.encoding@.1 && !doc.decoding_had_errors
            ==> doc.spec_preserve_error() == doc.spec_encoding_error(doc.encoding@),
{
}

/// The length that is shown for a document is the length of what a save in its encoding writes;
/// of a text that cannot be written in it, the length in UTF-8.
pub proof fn law_file_len(doc: Document)
    requires
        doc.wf(),
        doc.rope is Some ==> encode_utf8(doc.spec_rendered()).len() <= usize::MAX,
    ensures
        doc.piece_table is Some ==> doc.spec_file_len() == doc.text().len(),
        !doc.spec_has_edit_buffer() ==> doc.spec_file_len() == doc.file_len,
        doc.rope is Some ==> ({
            let written = encode_result(doc.spec_rendered(), doc.encoding@);
            &&& written is Ok && written->Ok_0.len() <= usize::MAX ==> doc.spec_file_len()
                == written->Ok_0.len()
            &&& written is Err ==> doc.spec_file_len() == encode_utf8(doc.spec_rendered()).len()
        }),
{
    if doc.piece_table is Some {
        doc.piece_table->Some_0.lemma_len();
    }
}

/// The figures of a piece table add up over its pieces: a piece counts as small where it is not
/// longer than the threshold.
pub proof fn law_fragmentation(a: Seq<Piece>, b: Seq<Piece>, piece: Piece, threshold: usize)
    ensures
        small_count(a + b, threshold) == small_count(a, threshold) + small_count(b, threshold),
        small_sum(a + b, threshold) == small_sum(a, threshold) + small_sum(b, threshold),
        small_count(seq![piece], threshold) == (if piece.len <= threshold {
            1nat
        } else {
            0
        }),
        small_sum(seq![piece], threshold) == (if piece.len <= threshold {
            piece.len as nat
        } else {
            0
        }),
        small_count(a, threshold) <= a.len(),
        small_sum(a, threshold) <= sum_len(a),
        ({
            let stats = fragmentation(a, threshold);
            &&& a.len() <= usize::MAX ==> stats.piece_count == a.len() && stats.small_piece_count
                == small_count(a, threshold)
            &&& sum_len(a) <= usize::MAX ==> stats.total_bytes == sum_len(a)
                && stats.small_piece_bytes == small_sum(a, threshold)
            &&& stats.small_piece_threshold_bytes == threshold
        }),
    decreases a.len() + b.len(),
{
    let one = seq![piece];
    assert(one.drop_last() =~= Seq::empty());
    assert(one.last() == piece);
    reveal_with_fuel(small_count, 2);
    reveal_with_fuel(small_sum, 2);
    lemma_small_bounds(a, threshold);
    if b.len() == 0 {
        assert(a + b =~= a);
    } else {
        assert((a + b).drop_last() =~= a + b.drop_last());
        law_fragmentation(a, b.drop_last(), piece, threshold);
    }
}

proof fn lemma_small_bounds(a: Seq<Piece>, threshold: usize)
    ensures
        small_count(a, threshold) <= a.len(),
        small_sum(a, threshold) <= sum_len(a),
    decreases a.len(),
{
    if a.len() > 0 {
        lemma_small_bounds(a.drop_last(), threshold);
    }
}

} // verus!
