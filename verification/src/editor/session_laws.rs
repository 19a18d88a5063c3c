//! What sessions promise.

use crate::document::state::{preserve_error_is, Document};
use crate::document::status::{DocumentError, ErrorView};
use crate::editor::session_core::{phase_of, JobPoll, SaveCompletion, SessionCore};
use crate::editor::types::{issue_of, BackgroundActivity, BackgroundIssueKind, LoadPhase};
use vstd::prelude::*;

verus! {

/// The first job wins: while a job is running, no file is opened, no save is started and no
/// edit is made; and when none is running, each of them is let through.
pub proof fn law_first_job_wins(core: SessionCore, path: Seq<char>, reason: Seq<char>)
    ensures
        core.spec_busy() == core.spec_open_refusal(path, reason) is Some,
        core.spec_busy() == core.spec_save_refusal(path) is Some,
        core.spec_busy() == core.spec_edit_refusal() is Some,
{
}

/// A change while a job is running makes the result of the job outdated: whatever the job comes
/// to, the changed document stays, it is not closed, and the job ends with an error.
pub proof fn law_change_discards_result(
    core: SessionCore,
    doc: Document,
    load: JobPoll<Document>,
    save: JobPoll<SaveCompletion>,
    after: SessionCore,
    result: Option<Result<(), DocumentError>>,
)
    requires
        core.wf(),
        core.spec_busy(),
    ensures
        ({
            let changed = SessionCore { doc, ..core.with_change_noted() };
            &&& !changed.close_after_job
            &&& core.load_job is Some && !(load is Pending) && changed.loads_to(load, after, result)
                ==> result is Some && result->Some_0 is Err && after.doc == doc
                && after.generation == core.generation && !after.spec_busy()
                && after.last_background_issue is Some && (load is Done && load->Done_0 is Ok
                ==> after.last_background_issue->Some_0@.kind == BackgroundIssueKind::LoadDiscarded
                && after.last_background_issue->Some_0@.path == core.load_job->Some_0.path@)
            &&& !changed.must_finish(save)
            &&& core.save_job is Some && !(save is Pending) && changed.saves_to(save, after, result)
                ==> result is Some && result->Some_0 is Err && after.doc == doc
                && after.generation == core.generation && !after.spec_busy()
                && after.last_background_issue is Some && (save is Done && save->Done_0 is Ok
                ==> after.last_background_issue->Some_0@.kind == BackgroundIssueKind::SaveDiscarded
                && after.last_background_issue->Some_0@.path == save->Done_0->Ok_0.path@)
        }),
{
}

/// A close that waits for a load is made when the load is done, whether it has succeeded or
/// not, and not before.
pub proof fn law_close_after_load(
    core: SessionCore,
    event: JobPoll<Document>,
    after: SessionCore,
    result: Option<Result<(), DocumentError>>,
)
    requires
        core.wf(),
        core.load_job is Some,
        core.close_after_job,
        !core.discard_load_result,
        core.loads_to(event, after, result),
    ensures
        event is Pending ==> after == core,
        !(event is Pending) ==> core.closes_to(after),
{
}

/// A close that waits for a save is made when the save has succeeded. A save that fails leaves
/// the document open and takes the close back.
pub proof fn law_close_after_save(
    core: SessionCore,
    event: JobPoll<SaveCompletion>,
    outcome: Result<Document, DocumentError>,
    after: SessionCore,
    result: Option<Result<(), DocumentError>>,
)
    requires
        core.wf(),
        core.save_job is Some,
        core.close_after_job,
        core.must_finish(event) ==> core.finishes_to(outcome, after, result),
        !core.must_finish(event) ==> core.saves_to(event, after, result),
    ensures
        event is Pending ==> after == core,
        core.must_finish(event) && outcome is Ok ==> core.closes_to(after),
        !(event is Pending) && !(core.must_finish(event) && outcome is Ok) ==> after.doc == core.doc
            && !after.close_after_job && !after.spec_busy() && result is Some
            && result->Some_0 is Err,
{
}

/// A save that reports success has handed the document to the writer, and the session goes on
/// with what the writer gave back; unless the document is unchanged and its file still holds
/// it. A save that reports an error changes nothing.
pub proof fn law_save_writes<F: FnOnce(&Document, &String) -> Result<Document, DocumentError>>(
    core: SessionCore,
    path: String,
    live_matches: bool,
    save_to: F,
    after: SessionCore,
    result: Result<(), DocumentError>,
)
    requires
        core.wf(),
        !core.spec_busy(),
        core.writes_to(path, live_matches, save_to, after, result),
    ensures
        result is Err ==> after == core,
        result is Ok && (core.doc.dirty || !live_matches || core.doc.path is None
            || core.doc.path->Some_0@ != path@) ==> exists|doc: Document| {
            &&& #[trigger] call_ensures(
                save_to,
                (&core.doc, &path),
                Ok::<Document, DocumentError>(doc),
            )
            &&& after.doc == doc
            &&& after.generation == (if core.generation == u64::MAX {
                0
            } else {
                core.generation + 1
            })
            &&& after.last_background_issue is None
            &&& after.load_job is None && after.save_job is None
            &&& after.clear_dirty_after_open == core.clear_dirty_after_open
            &&& after.close_after_job == core.close_after_job
        },
        !core.doc.dirty && live_matches && core.doc.path is Some && core.doc.path->Some_0@ == path@
            ==> result is Ok && after == core,
        result is Err ==> {
            ||| exists|error: DocumentError|
                #[trigger] call_ensures(
                    save_to,
                    (&core.doc, &path),
                    Err::<Document, DocumentError>(error),
                ) && result->Err_0 == error
            ||| !(core.doc.spec_preserve_error() is Nothing) && result->Err_0@ is Encoding
                && result->Err_0@->Encoding_path == path@
                && result->Err_0@->Encoding_encoding == core.doc.encoding && preserve_error_is(
                core.doc.spec_preserve_error(),
                Some(result->Err_0@->Encoding_reason),
            )
        },
        core.doc.dirty && !(core.doc.spec_preserve_error() is Nothing) ==> result is Err,
{
    if result is Ok && (core.doc.dirty || !live_matches || core.doc.path is None
        || core.doc.path->Some_0@ != path@) {
        let outcome = choose|outcome: Result<Document, DocumentError>| {
            &&& #[trigger] call_ensures(save_to, (&core.doc, &path), outcome)
            &&& match outcome {
                Ok(doc) => result is Ok && after == core.with_saved(doc),
                Err(error) => result == Err::<(), DocumentError>(error) && after == core,
            }
        };
        assert(outcome == Ok::<Document, DocumentError>(outcome->Ok_0));
        assert(call_ensures(
            save_to,
            (&core.doc, &path),
            Ok::<Document, DocumentError>(outcome->Ok_0),
        ));
    }
    if result is Err && core.doc.spec_preserve_error() is Nothing {
        let outcome = choose|outcome: Result<Document, DocumentError>| {
            &&& #[trigger] call_ensures(save_to, (&core.doc, &path), outcome)
            &&& match outcome {
                Ok(doc) => result is Ok && after == core.with_saved(doc),
                Err(error) => result == Err::<(), DocumentError>(error) && after == core,
            }
        };
        assert(outcome == Err::<Document, DocumentError>(outcome->Err_0));
        assert(call_ensures(
            save_to,
            (&core.doc, &path),
            Err::<Document, DocumentError>(outcome->Err_0),
        ));
    }
}

/// A save in the background is started for every change, for the file that was named, and the
/// document stays as it is until the save is done. Where nothing is started, nothing changes.
pub proof fn law_save_starts<F: FnOnce(&Document, &String) -> Result<u64, DocumentError>>(
    core: SessionCore,
    path: String,
    live_matches: bool,
    prepare: F,
    after: SessionCore,
    result: Result<bool, DocumentError>,
)
    requires
        core.wf(),
        !core.spec_busy(),
        core.starts_to(path, live_matches, prepare, after, result),
    ensures
        !(result == Ok::<bool, DocumentError>(true)) ==> after == core,
        result is Ok && core.doc.dirty ==> result->Ok_0,
        result == Ok::<bool, DocumentError>(false) ==> live_matches && core.doc.path is Some
            && core.doc.path->Some_0@ == path@,
        result == Ok::<bool, DocumentError>(true) ==> {
            &&& after.doc == core.doc
            &&& after.generation == core.generation
            &&& after.save_job is Some
            &&& after.save_job->Some_0.path == path
            &&& call_ensures(
                prepare,
                (&core.doc, &path),
                Ok::<u64, DocumentError>(after.save_job->Some_0.total_bytes),
            )
            &&& after.load_job is None
            &&& after.last_background_issue is None
            &&& after.spec_save_state() is Some
            &&& after.spec_save_state()->Some_0.path == path@
            &&& after.spec_save_state()->Some_0.completed_bytes == 0
        },
        core.doc.dirty && !(core.doc.spec_preserve_error() is Nothing) ==> result is Err,
{
}

/// A save that has been written in the background is taken over: the session goes on with the
/// document as it is after the save, as the next generation. One that fails keeps the document
/// and leaves a note of what went wrong and for which file.
pub proof fn law_save_finishes(
    core: SessionCore,
    outcome: Result<Document, DocumentError>,
    after: SessionCore,
    result: Option<Result<(), DocumentError>>,
)
    requires
        core.wf(),
        core.save_job is Some,
        core.finishes_to(outcome, after, result),
    ensures
        result is Some,
        after.load_job is None && after.save_job is None,
        !after.close_after_job && !after.discard_save_result && !after.discard_load_result,
        outcome is Ok ==> result->Some_0 is Ok && after.last_background_issue is None
            && after.generation == (if core.generation == u64::MAX {
            0
        } else {
            core.generation + 1
        }),
        outcome is Ok && !core.close_after_job ==> after.doc == outcome->Ok_0,
        outcome is Ok && core.close_after_job ==> after.doc.is_new(),
        outcome is Err ==> {
            &&& result->Some_0 is Err
            &&& result->Some_0->Err_0@ == outcome->Err_0@
            &&& after.doc == core.doc
            &&& after.generation == core.generation
            &&& after.last_background_issue is Some
            &&& after.last_background_issue->Some_0@.kind == BackgroundIssueKind::SaveFailed
        },
{
}

/// Opening a file takes its document over, as the next generation. A file that cannot be opened
/// changes nothing; neither does one while a job is running.
pub proof fn law_open_takes_over<F: FnOnce(&String) -> Result<Document, DocumentError>>(
    core: SessionCore,
    path: String,
    open: F,
    after: SessionCore,
    result: Result<(), DocumentError>,
)
    requires
        core.wf(),
        core.opens_to(path, open, after, result),
    ensures
        result is Err ==> after == core,
        core.spec_busy() ==> result is Err,
        result is Ok ==> {
            &&& call_ensures(open, (&path,), Ok::<Document, DocumentError>(after.doc))
            &&& after.generation == (if core.generation == u64::MAX {
                0
            } else {
                core.generation + 1
            })
            &&& after.last_background_issue is None
            &&& after.clear_dirty_after_open == !after.doc.dirty
            &&& !after.spec_busy()
            &&& !after.close_after_job
        },
        result is Err && !core.spec_busy() ==> call_ensures(
            open,
            (&path,),
            Err::<Document, DocumentError>(result->Err_0),
        ),
{
    if !core.spec_busy() {
        let outcome = choose|outcome: Result<Document, DocumentError>| {
            &&& #[trigger] call_ensures(open, (&path,), outcome)
            &&& match outcome {
                Ok(doc) => result is Ok && after == core.with_opened(doc),
                Err(error) => result == Err::<(), DocumentError>(error) && after == core,
            }
        };
        match outcome {
            Ok(doc) => {
                assert(outcome == Ok::<Document, DocumentError>(after.doc));
            },
            Err(error) => {
                assert(outcome == Err::<Document, DocumentError>(result->Err_0));
            },
        }
    }
}

/// A file that is opened in the background keeps the document as it is until it has been read.
/// Then the document that was read is taken over, as the next generation; or the old one stays,
/// with a note of what went wrong and for which file.
pub proof fn law_load_takes_over(
    core: SessionCore,
    path: String,
    total_bytes: u64,
    loaded_bytes: u64,
    phase: u8,
    event: JobPoll<Document>,
    after: SessionCore,
    result: Option<Result<(), DocumentError>>,
)
    requires
        core.wf(),
        !core.spec_busy(),
        core.with_load_started(path, total_bytes).with_load_progress(
            loaded_bytes,
            phase,
        ).loads_to(event, after, result),
    ensures
        ({
            let started = core.with_load_started(path, total_bytes);
            let moved = started.with_load_progress(loaded_bytes, phase);
            &&& started.doc == core.doc && moved.doc == core.doc
            &&& started.generation == core.generation && moved.generation == core.generation
            &&& started.wf() && moved.wf()
            &&& moved.load_job is Some && moved.save_job is None
            &&& started.spec_loading_state() is Some
            &&& started.spec_loading_state()->Some_0.path == path@
            &&& started.spec_loading_state()->Some_0.completed_bytes == 0
            &&& started.spec_loading_state()->Some_0.total_bytes == total_bytes
            &&& moved.spec_loading_state()->Some_0.path == path@
            &&& moved.spec_loading_state()->Some_0.completed_bytes <= total_bytes
            &&& loaded_bytes <= total_bytes
                ==> moved.spec_loading_state()->Some_0.completed_bytes == loaded_bytes
            &&& event is Pending ==> result is None && after == moved
            &&& !(event is Pending) ==> result is Some && !after.spec_busy()
                && !after.close_after_job
            &&& event is Done && event->Done_0 is Ok ==> {
                &&& result->Some_0 is Ok
                &&& after.doc == event->Done_0->Ok_0
                &&& after.generation == (if core.generation == u64::MAX {
                    0
                } else {
                    core.generation + 1
                })
                &&& after.last_background_issue is None
                &&& after.clear_dirty_after_open == !after.doc.dirty
            }
            &&& event is Disconnected || (event is Done && event->Done_0 is Err) ==> {
                &&& result->Some_0 is Err
                &&& after.doc == core.doc
                &&& after.generation == core.generation
                &&& after.last_background_issue is Some
                &&& after.last_background_issue->Some_0@.kind == BackgroundIssueKind::LoadFailed
            }
            &&& event is Disconnected ==> after.last_background_issue->Some_0@.path == path@
        }),
{
}

/// Closing at once leaves a new document. While a job is running the close waits: the document
/// is as it was until the job is done, and is then closed.
pub proof fn law_close(
    core: SessionCore,
    load: JobPoll<Document>,
    closed: SessionCore,
    after: SessionCore,
    result: Option<Result<(), DocumentError>>,
)
    requires
        core.wf(),
    ensures
        core.closes_to(closed) ==> {
            &&& closed.doc.is_new()
            &&& !closed.doc.dirty && closed.doc.path is None
            &&& closed.generation == (if core.generation == u64::MAX {
                0
            } else {
                core.generation + 1
            })
            &&& !closed.spec_busy() && !closed.close_after_job
            &&& closed.last_background_issue is None
        },
        core.spec_busy() ==> {
            let waiting = core.with_close_noted();
            &&& waiting.wf()
            &&& waiting.doc == core.doc
            &&& waiting.generation == core.generation
            &&& waiting.load_job == core.load_job && waiting.save_job == core.save_job
            &&& waiting.close_after_job
            &&& core.load_job is Some && !core.discard_load_result && !(load is Pending)
                && waiting.loads_to(load, after, result) ==> core.closes_to(after)
        },
{
}

/// An edit that is made takes the document of the edit over, and the session stays as it is
/// otherwise; one that is refused changes nothing.
pub proof fn law_edit_takes_over<T>(
    core: SessionCore,
    outcome: Result<(Document, T), DocumentError>,
    after: SessionCore,
    result: Result<T, DocumentError>,
)
    requires
        core.edited(outcome, after, result),
    ensures
        result is Ok == outcome is Ok,
        outcome is Err ==> after == core && result->Err_0 == outcome->Err_0,
        outcome is Ok ==> {
            &&& result->Ok_0 == outcome->Ok_0.1
            &&& after.doc == outcome->Ok_0.0
            &&& !after.clear_dirty_after_open
            &&& after.generation == core.generation
            &&& after.load_job == core.load_job && after.save_job == core.save_job
            &&& after.last_background_issue == core.last_background_issue
            &&& after.with_frame_drawn() == after
        },
{
}

/// Showing a document changes nothing of it but that a document which was opened clean is
/// clean; and showing it again changes nothing at all.
pub proof fn law_frame(core: SessionCore)
    requires
        core.wf(),
    ensures
        ({
            let shown = core.with_frame_drawn();
            &&& shown.wf()
            &&& shown.doc.text() == core.doc.text()
            &&& shown.doc.path == core.doc.path
            &&& shown.generation == core.generation
            &&& core.clear_dirty_after_open ==> !shown.doc.dirty
            &&& !core.clear_dirty_after_open ==> shown == core
            &&& shown.with_frame_drawn() == shown
        }),
{
}

/// What a session says that it does in the background is the job that is running.
pub proof fn law_activity(core: SessionCore, activity: BackgroundActivity, written: u64)
    requires
        core.wf(),
        core.is_activity(activity),
    ensures
        activity is Idle <==> !core.spec_busy(),
        activity is Loading <==> core.load_job is Some,
        activity is Saving <==> core.save_job is Some,
        core.load_job is Some ==> activity->Loading_0@.path == core.load_job->Some_0.path@
            && activity->Loading_0@.total_bytes == core.load_job->Some_0.total_bytes
            && activity->Loading_0@.completed_bytes <= activity->Loading_0@.total_bytes,
        core.save_job is Some ==> activity->Saving_0@.path == core.save_job->Some_0.path@
            && activity->Saving_0@.total_bytes == core.save_job->Some_0.total_bytes
            && activity->Saving_0@.completed_bytes <= activity->Saving_0@.total_bytes,
        core.save_job is Some && written <= core.save_job->Some_0.total_bytes
            ==> core.with_save_progress(written).spec_save_state()->Some_0.completed_bytes
            == written,
        core.with_save_progress(written).doc == core.doc,
        core.with_save_progress(written).wf(),
{
}

/// What is kept of an error names the file and says what went wrong, and what was being done.
pub proof fn law_issue_says_why(kind: BackgroundIssueKind, error: ErrorView)
    ensures
        issue_of(kind, error).kind == kind,
        match error {
            ErrorView::Open { path, source } => issue_of(kind, error).path == path && issue_of(
                kind,
                error,
            ).message == source,
            ErrorView::Mmap { path, source } => issue_of(kind, error).path == path && issue_of(
                kind,
                error,
            ).message == source,
            ErrorView::Write { path, source } => issue_of(kind, error).path == path && issue_of(
                kind,
                error,
            ).message == source,
            ErrorView::Encoding { path, operation, encoding, reason } => issue_of(kind, error).path
                == path && issue_of(kind, error).message == reason.spec_message(),
            ErrorView::EditUnsupported { path, reason } => issue_of(kind, error).message == reason
                && (path is Some ==> issue_of(kind, error).path == path->Some_0),
        },
        kind.spec_is_load() <==> kind == BackgroundIssueKind::LoadFailed || kind
            == BackgroundIssueKind::LoadDiscarded,
        kind.spec_is_discarded() <==> kind == BackgroundIssueKind::SaveDiscarded || kind
            == BackgroundIssueKind::LoadDiscarded,
{
}

/// What is refused while a job is running is refused for the file that was named.
pub proof fn law_refusals_name_the_file(core: SessionCore, path: Seq<char>, reason: Seq<char>)
    requires
        core.wf(),
    ensures
        core.save_job is Some ==> core.spec_open_refusal(path, reason) is Some
            && core.spec_open_refusal(path, reason)->Some_0 is Write && core.spec_open_refusal(
            path,
            reason,
        )->Some_0->Write_path == path,
        core.load_job is Some ==> core.spec_open_refusal(path, reason) == Some(
            ErrorView::Open { path, source: reason },
        ),
        core.spec_busy() ==> core.spec_save_refusal(path) is Some && core.spec_save_refusal(
            path,
        )->Some_0 is Write && core.spec_save_refusal(path)->Some_0->Write_path == path,
        core.spec_busy() ==> core.spec_edit_refusal()->Some_0 is EditUnsupported
            && core.spec_edit_refusal()->Some_0->EditUnsupported_path == (match core.doc.path {
            Some(own) => Some(own@),
            None => None,
        }),
        core.load_job is Some ==> core.spec_report_path() == core.load_job->Some_0.path@,
        core.load_job is None && core.doc.path is Some ==> core.spec_report_path()
            == core.doc.path->Some_0@,
{
}

/// A phase of a load is read back from the number that stands for it, and a number that stands
/// for none counts as the first phase.
pub proof fn law_phases(phase: LoadPhase, raw: u8)
    ensures
        phase_of(phase.spec_raw()) == phase,
        phase.spec_raw() <= 4,
        raw <= 4 ==> phase_of(raw).spec_raw() == raw,
        raw > 4 ==> phase_of(raw) == LoadPhase::Opening,
{
}

/// An unchanged document without a file and without text is empty, as a new one is; one with a
/// file, with changes or with text is not.
pub proof fn law_empty_document(core: SessionCore)
    requires
        core.wf(),
    ensures
        core.doc.is_new() ==> core.spec_empty_document(),
        core.doc.path is Some || core.doc.dirty ==> !core.spec_empty_document(),
        core.doc.piece_table is Some && core.doc.text().len() > 0 ==> !core.spec_empty_document(),
{
    if core.doc.piece_table is Some {
        core.doc.piece_table->Some_0.lemma_len();
    }
}

} // verus!
