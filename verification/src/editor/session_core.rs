//! A document and its background jobs.

use crate::document::state::{preserve_error_is, Document};
use crate::document::status::{DocumentError, ErrorView};
use crate::document::types::{same_text, ByteProgress};
use crate::editor::types::{
    background_issue_from_error, issue_of, BackgroundActivity, BackgroundIssue,
    BackgroundIssueKind, DocumentSessionStatus, FileProgress, LoadPhase, ProgressView, SaveError,
};
use vstd::prelude::*;
use vstd::string::*;

verus! {

/// What a background job has to say when it is asked.
pub enum JobPoll<T> {
    Pending,
    /// The worker is gone without a result.
    Disconnected,
    Done(Result<T, DocumentError>),
}

/// What a save that has been written leaves to do.
#[derive(Debug)]
pub struct SaveCompletion {
    pub path: String,
    pub reload_after_save: bool,
}

/// A save that is running.
#[derive(Debug)]
pub struct SaveJob {
    pub path: String,
    pub total_bytes: u64,
    pub written_bytes: u64,
}

/// A load that is running.
#[derive(Debug)]
pub struct LoadJob {
    pub path: String,
    pub total_bytes: u64,
    pub loaded_bytes: u64,
    pub phase: u8,
}

/// A document and its background jobs, of which at most one is running.
#[derive(Debug)]
pub struct SessionCore {
    pub doc: Document,
    pub generation: u64,
    pub load_job: Option<LoadJob>,
    pub save_job: Option<SaveJob>,
    /// The document was clean when it was opened, and is to be marked clean after the next
    /// frame.
    pub clear_dirty_after_open: bool,
    /// The document is to be closed when the running job is done.
    pub close_after_job: bool,
    /// The session has changed since the load was started.
    pub discard_load_result: bool,
    /// The session has changed since the save was started.
    pub discard_save_result: bool,
    pub last_background_issue: Option<BackgroundIssue>,
}

/// The next generation.
pub open spec fn next_generation(generation: u64) -> u64 {
    if generation == u64::MAX {
        0
    } else {
        (generation + 1) as u64
    }
}

fn following(generation: u64) -> (next: u64)
    ensures
        next == next_generation(generation),
{
    if generation == u64::MAX {
        0
    } else {
        generation + 1
    }
}

/// What is kept of a problem.
pub open spec fn is_issue(
    issue: Option<BackgroundIssue>,
    kind: BackgroundIssueKind,
    error: ErrorView,
) -> bool {
    issue is Some && issue->Some_0@ == issue_of(kind, error)
}

impl SessionCore {
    /// At most one job is running, and what is noted for the end of a job belongs to one that
    /// is running.
    pub open spec fn wf(self) -> bool {
        &&& self.doc.wf()
        &&& !(self.load_job is Some && self.save_job is Some)
        &&& self.discard_load_result ==> self.load_job is Some
        &&& self.discard_save_result ==> self.save_job is Some
        &&& self.close_after_job ==> self.spec_busy()
    }

    pub open spec fn spec_busy(self) -> bool {
        self.load_job is Some || self.save_job is Some
    }

    /// `after` is this session with a new document in place of its own, and nothing running.
    pub open spec fn closes_to(self, after: SessionCore) -> bool {
        &&& after.doc.is_new()
        &&& after.generation == next_generation(self.generation)
        &&& after.load_job is None
        &&& after.save_job is None
        &&& !after.clear_dirty_after_open
        &&& !after.close_after_job
        &&& !after.discard_load_result
        &&& !after.discard_save_result
        &&& after.last_background_issue is None
    }

    /// This session with `doc` opened in it.
    pub open spec fn with_opened(self, doc: Document) -> SessionCore {
        SessionCore {
            doc,
            generation: next_generation(self.generation),
            clear_dirty_after_open: !doc.dirty,
            last_background_issue: None,
            ..self
        }
    }

    /// This session with its document as it is after a save.
    pub open spec fn with_saved(self, doc: Document) -> SessionCore {
        SessionCore {
            doc,
            generation: next_generation(self.generation),
            last_background_issue: None,
            ..self
        }
    }

    /// This session after a change that makes the result of a running job outdated.
    pub open spec fn with_change_noted(self) -> SessionCore {
        SessionCore {
            discard_load_result: self.discard_load_result || self.load_job is Some,
            discard_save_result: self.discard_save_result || self.save_job is Some,
            close_after_job: self.close_after_job && !self.spec_busy(),
            ..self
        }
    }

    /// This session with a file of `total_bytes` being opened in the background.
    pub open spec fn with_load_started(self, path: String, total_bytes: u64) -> SessionCore {
        SessionCore {
            load_job: Some(LoadJob { path, total_bytes, loaded_bytes: 0, phase: 0 }),
            clear_dirty_after_open: false,
            last_background_issue: None,
            ..self
        }
    }

    /// This session, to be closed when the running job is done.
    pub open spec fn with_close_noted(self) -> SessionCore {
        SessionCore { clear_dirty_after_open: false, close_after_job: true, ..self }
    }

    /// This session after the document has been shown. One that was opened clean is clean.
    pub open spec fn with_frame_drawn(self) -> SessionCore {
        if self.clear_dirty_after_open {
            SessionCore {
                doc: Document { dirty: false, ..self.doc },
                clear_dirty_after_open: false,
                ..self
            }
        } else {
            self
        }
    }

    /// This session with the running load as far as it has come.
    pub open spec fn with_load_progress(self, loaded_bytes: u64, phase: u8) -> SessionCore {
        match self.load_job {
            Some(job) => SessionCore {
                load_job: Some(LoadJob { loaded_bytes, phase, ..job }),
                ..self
            },
            None => self,
        }
    }

    /// This session with the running save as far as it has come.
    pub open spec fn with_save_progress(self, written_bytes: u64) -> SessionCore {
        match self.save_job {
            Some(job) => SessionCore { save_job: Some(SaveJob { written_bytes, ..job }), ..self },
            None => self,
        }
    }

    /// This session without its jobs and without what was noted for their end.
    pub open spec fn without_jobs(self) -> SessionCore {
        SessionCore {
            load_job: None,
            save_job: None,
            close_after_job: false,
            discard_load_result: false,
            discard_save_result: false,
            ..self
        }
    }

    pub fn new() -> (core: SessionCore)
        ensures
            core.wf(),
            core.doc.is_new(),
            core.generation == 0,
            !core.spec_busy(),
            !core.clear_dirty_after_open,
            !core.close_after_job,
            core.last_background_issue is None,
    {
        SessionCore {
            doc: Document::new(),
            generation: 0,
            load_job: None,
            save_job: None,
            clear_dirty_after_open: false,
            close_after_job: false,
            discard_load_result: false,
            discard_save_result: false,
            last_background_issue: None,
        }
    }

    pub fn generation(&self) -> (generation: u64)
        ensures
            generation == self.generation,
    {
        self.generation
    }

    pub fn is_saving(&self) -> (saving: bool)
        ensures
            saving == (self.save_job is Some),
    {
        self.save_job.is_some()
    }

    pub fn is_loading(&self) -> (loading: bool)
        ensures
            loading == (self.load_job is Some),
    {
        self.load_job.is_some()
    }

    pub fn is_busy(&self) -> (busy: bool)
        ensures
            busy == self.spec_busy(),
    {
        self.is_loading() || self.is_saving()
    }

    pub fn indexing_progress(&self) -> (progress: Option<(usize, usize)>)
        ensures
            progress == (match self.doc.spec_indexing_state() {
                Some(state) => Some((state.completed_bytes, state.total_bytes)),
                None => None,
            }),
    {
        match self.doc.indexing_state() {
            Some(progress) => Some((progress.completed_bytes(), progress.total_bytes())),
            None => None,
        }
    }

    pub fn indexing_state(&self) -> (progress: Option<ByteProgress>)
        ensures
            progress == self.doc.spec_indexing_state(),
    {
        self.doc.indexing_state()
    }

    /// Takes over how far the running load has come.
    pub fn note_load_progress(&mut self, loaded_bytes: u64, phase: u8)
        ensures
            old(self).wf() ==> final(self).wf(),
            *final(self) == old(self).with_load_progress(loaded_bytes, phase),
    {
        if let Some(job) = &mut self.load_job {
            job.loaded_bytes = loaded_bytes;
            job.phase = phase;
        }
    }

    /// Takes over how far the running save has come.
    pub fn note_save_progress(&mut self, written_bytes: u64)
        ensures
            old(self).wf() ==> final(self).wf(),
            *final(self) == old(self).with_save_progress(written_bytes),
    {
        if let Some(job) = &mut self.save_job {
            job.written_bytes = written_bytes;
        }
    }

    /// The progress of the running load, which is never reported past its end.
    pub open spec fn spec_loading_state(self) -> Option<ProgressView> {
        match self.load_job {
            Some(job) => Some(
                ProgressView {
                    path: job.path@,
                    completed_bytes: at_most(job.loaded_bytes, job.total_bytes),
                    total_bytes: job.total_bytes,
                    load_phase: Some(phase_of(job.phase)),
                },
            ),
            None => None,
        }
    }

    pub fn loading_state(&self) -> (progress: Option<FileProgress>)
        ensures
            match self.spec_loading_state() {
                Some(view) => progress is Some && progress->Some_0@ == view,
                None => progress is None,
            },
    {
        match &self.load_job {
            Some(job) => Some(
                FileProgress::loading(
                    job.path.clone(),
                    capped(job.loaded_bytes, job.total_bytes),
                    job.total_bytes,
                    LoadPhase::from_raw(job.phase),
                ),
            ),
            None => None,
        }
    }

    pub fn loading_phase(&self) -> (phase: Option<LoadPhase>)
        ensures
            phase == (match self.load_job {
                Some(job) => Some(phase_of(job.phase)),
                None => None,
            }),
    {
        match self.loading_state() {
            Some(progress) => progress.load_phase(),
            None => None,
        }
    }

    pub fn loading_progress(&self) -> (progress: Option<(u64, u64, String)>)
        ensures
            match self.spec_loading_state() {
                Some(view) => progress is Some && progress->Some_0.0 == view.completed_bytes
                    && progress->Some_0.1 == view.total_bytes && progress->Some_0.2@ == view.path,
                None => progress is None,
            },
    {
        match self.loading_state() {
            Some(progress) => Some(
                (progress.completed_bytes(), progress.total_bytes(), progress.path),
            ),
            None => None,
        }
    }

    /// The progress of the running save, which is never reported past its end.
    pub open spec fn spec_save_state(self) -> Option<ProgressView> {
        match self.save_job {
            Some(job) => Some(
                ProgressView {
                    path: job.path@,
                    completed_bytes: at_most(job.written_bytes, job.total_bytes),
                    total_bytes: job.total_bytes,
                    load_phase: None,
                },
            ),
            None => None,
        }
    }

    pub fn save_state(&self) -> (progress: Option<FileProgress>)
        ensures
            match self.spec_save_state() {
                Some(view) => progress is Some && progress->Some_0@ == view,
                None => progress is None,
            },
    {
        match &self.save_job {
            Some(job) => Some(
                FileProgress::new(
                    job.path.clone(),
                    capped(job.written_bytes, job.total_bytes),
                    job.total_bytes,
                ),
            ),
            None => None,
        }
    }

    pub fn save_progress(&self) -> (progress: Option<(u64, u64, String)>)
        ensures
            match self.spec_save_state() {
                Some(view) => progress is Some && progress->Some_0.0 == view.completed_bytes
                    && progress->Some_0.1 == view.total_bytes && progress->Some_0.2@ == view.path,
                None => progress is None,
            },
    {
        match self.save_state() {
            Some(progress) => Some(
                (progress.completed_bytes(), progress.total_bytes(), progress.path),
            ),
            None => None,
        }
    }

    fn finish_open(&mut self, doc: Document)
        ensures
            *final(self) == (SessionCore {
                doc,
                generation: next_generation(old(self).generation),
                clear_dirty_after_open: !doc.dirty,
                ..*old(self)
            }),
    {
        self.clear_dirty_after_open = !doc.is_dirty();
        self.doc = doc;
        self.generation = following(self.generation);
    }

    fn finish_close(&mut self)
        ensures
            old(self).closes_to(*final(self)),
            final(self).wf(),
    {
        self.load_job = None;
        self.save_job = None;
        self.close_after_job = false;
        self.discard_load_result = false;
        self.discard_save_result = false;
        self.last_background_issue = None;
        self.doc = Document::new();
        self.generation = following(self.generation);
        self.clear_dirty_after_open = false;
    }

    /// What the running load comes to, given what its worker says.
    pub open spec fn loads_to(
        self,
        event: JobPoll<Document>,
        after: SessionCore,
        result: Option<Result<(), DocumentError>>,
    ) -> bool {
        match (self.load_job, event) {
            (None, _) => result is None && after == self,
            (Some(_), JobPoll::Pending) => result is None && after == self,
            (Some(job), JobPoll::Disconnected) => {
                let error = ErrorView::Open {
                    path: job.path@,
                    source: "load worker disconnected unexpectedly"@,
                };
                self.load_fails(error, after, result)
            },
            (Some(_), JobPoll::Done(Err(error))) => self.load_fails(error@, after, result),
            (Some(job), JobPoll::Done(Ok(doc))) => if self.discard_load_result {
                let error = ErrorView::Open {
                    path: job.path@,
                    source:
                        "background load result discarded after current session state changed"@,
                };
                &&& failed_with(result, error)
                &&& is_issue(
                    after.last_background_issue,
                    BackgroundIssueKind::LoadDiscarded,
                    error,
                )
                &&& after == (SessionCore {
                    last_background_issue: after.last_background_issue,
                    ..self.without_jobs()
                })
            } else if self.close_after_job {
                result == Some(Ok::<(), DocumentError>(())) && self.closes_to(after)
            } else {
                result == Some(Ok::<(), DocumentError>(())) && after
                    == self.without_jobs().with_opened(doc)
            },
        }
    }

    /// The running load fails: the document stays, unless it was to be closed after the load
    /// and has not changed since.
    pub open spec fn load_fails(
        self,
        error: ErrorView,
        after: SessionCore,
        result: Option<Result<(), DocumentError>>,
    ) -> bool {
        &&& failed_with(result, error)
        &&& if self.close_after_job && !self.discard_load_result {
            self.closes_to(after)
        } else {
            &&& is_issue(after.last_background_issue, BackgroundIssueKind::LoadFailed, error)
            &&& after == (SessionCore {
                last_background_issue: after.last_background_issue,
                ..self.without_jobs()
            })
        }
    }

    fn fail_load(&mut self, error: DocumentError) -> (result: Result<(), DocumentError>)
        requires
            old(self).wf(),
            old(self).load_job is Some,
        ensures
            old(self).load_fails(error@, *final(self), Some(result)),
            final(self).wf(),
    {
        let close_after_job = self.close_after_job;
        let discard_load_result = self.discard_load_result;
        self.load_job = None;
        self.close_after_job = false;
        self.discard_load_result = false;
        self.last_background_issue = Some(
            background_issue_from_error(BackgroundIssueKind::LoadFailed, &error),
        );
        if close_after_job && !discard_load_result {
            self.finish_close();
        }
        Err(error)
    }

    /// Takes over what the worker of the running load says.
    pub fn poll_load_job(&mut self, event: JobPoll<Document>) -> (result: Option<
        Result<(), DocumentError>,
    >)
        requires
            old(self).wf(),
            event is Done && event->Done_0 is Ok ==> event->Done_0->Ok_0.wf(),
        ensures
            old(self).loads_to(event, *final(self), result),
            final(self).wf(),
    {
        let path = match &self.load_job {
            None => return None,
            Some(job) => job.path.clone(),
        };
        let state = match event {
            JobPoll::Pending => return None,
            JobPoll::Disconnected => Err(
                DocumentError::Open {
                    path: path.clone(),
                    source: String::from_str("load worker disconnected unexpectedly"),
                },
            ),
            JobPoll::Done(state) => state,
        };
        match state {
            Err(error) => Some(self.fail_load(error)),
            Ok(doc) => {
                let close_after_job = self.close_after_job;
                let discard_load_result = self.discard_load_result;
                self.load_job = None;
                self.close_after_job = false;
                self.discard_load_result = false;
                if discard_load_result {
                    let error = DocumentError::Open {
                        path,
                        source: String::from_str(
                            "background load result discarded after current session state changed",
                        ),
                    };
                    self.last_background_issue = Some(
                        background_issue_from_error(BackgroundIssueKind::LoadDiscarded, &error),
                    );
                    Some(Err(error))
                } else if close_after_job {
                    self.last_background_issue = None;
                    self.finish_close();
                    Some(Ok(()))
                } else {
                    self.last_background_issue = None;
                    self.finish_open(doc);
                    Some(Ok(()))
                }
            },
        }
    }

    /// The running save fails: the document stays as it is, and is not closed.
    pub open spec fn save_fails(
        self,
        kind: BackgroundIssueKind,
        error: ErrorView,
        after: SessionCore,
        result: Option<Result<(), DocumentError>>,
    ) -> bool {
        &&& failed_with(result, error)
        &&& is_issue(after.last_background_issue, kind, error)
        &&& after == (SessionCore {
            last_background_issue: after.last_background_issue,
            ..self.without_jobs()
        })
    }

    /// What the running save comes to where it does not have to be finished: no save is
    /// running, its worker has nothing to say, it has failed, or its result is outdated.
    pub open spec fn saves_to(
        self,
        event: JobPoll<SaveCompletion>,
        after: SessionCore,
        result: Option<Result<(), DocumentError>>,
    ) -> bool {
        match (self.save_job, event) {
            (None, _) => result is None && after == self,
            (Some(_), JobPoll::Pending) => result is None && after == self,
            (Some(job), JobPoll::Disconnected) => self.save_fails(
                BackgroundIssueKind::SaveFailed,
                ErrorView::Write {
                    path: job.path@,
                    source: "save worker disconnected unexpectedly"@,
                },
                after,
                result,
            ),
            (Some(_), JobPoll::Done(Err(error))) => self.save_fails(
                BackgroundIssueKind::SaveFailed,
                error@,
                after,
                result,
            ),
            (Some(_), JobPoll::Done(Ok(completion))) => self.save_fails(
                BackgroundIssueKind::SaveDiscarded,
                ErrorView::Write {
                    path: completion.path@,
                    source:
                        "background save result discarded after current session state changed"@,
                },
                after,
                result,
            ),
        }
    }

    /// What the running save comes to when it is finished with `outcome`: the document is
    /// replaced, and closed if that was asked for; or the save has failed after all.
    pub open spec fn finishes_to(
        self,
        outcome: Result<Document, DocumentError>,
        after: SessionCore,
        result: Option<Result<(), DocumentError>>,
    ) -> bool {
        match outcome {
            Ok(doc) => {
                &&& result == Some(Ok::<(), DocumentError>(()))
                &&& if self.close_after_job {
                    self.closes_to(after)
                } else {
                    after == self.without_jobs().with_saved(doc)
                }
            },
            Err(error) => self.save_fails(
                BackgroundIssueKind::SaveFailed,
                error@,
                after,
                result,
            ),
        }
    }

    /// The save has been written and its result is not outdated.
    pub open spec fn must_finish(self, event: JobPoll<SaveCompletion>) -> bool {
        self.save_job is Some && event is Done && event->Done_0 is Ok && !self.discard_save_result
    }

    fn fail_save(&mut self, kind: BackgroundIssueKind, error: DocumentError) -> (result: Result<
        (),
        DocumentError,
    >)
        requires
            old(self).wf(),
            old(self).save_job is Some,
        ensures
            old(self).save_fails(kind, error@, *final(self), Some(result)),
            final(self).wf(),
    {
        self.save_job = None;
        self.close_after_job = false;
        self.discard_save_result = false;
        self.last_background_issue = Some(background_issue_from_error(kind, &error));
        Err(error)
    }

    /// Takes over what the worker of the running save says. `finish_save` gives the document
    /// as it is after the save.
    pub fn poll_save_job<F: FnOnce(&Document, &SaveCompletion) -> Result<Document, DocumentError>>(
        &mut self,
        event: JobPoll<SaveCompletion>,
        finish_save: F,
    ) -> (result: Option<Result<(), DocumentError>>)
        requires
            old(self).wf(),
            old(self).must_finish(event) ==> call_requires(
                finish_save,
                (&old(self).doc, &event->Done_0->Ok_0),
            ),
            old(self).must_finish(event) ==> forall|doc: Document|
                #[trigger] call_ensures(
                    finish_save,
                    (&old(self).doc, &event->Done_0->Ok_0),
                    Ok::<Document, DocumentError>(doc),
                ) ==> doc.wf(),
        ensures
            final(self).wf(),
            !old(self).must_finish(event) ==> old(self).saves_to(event, *final(self), result),
            old(self).must_finish(event) ==> exists|outcome: Result<Document, DocumentError>|
                #[trigger] call_ensures(
                    finish_save,
                    (&old(self).doc, &event->Done_0->Ok_0),
                    outcome,
                ) && old(self).finishes_to(outcome, *final(self), result),
    {
        let path = match &self.save_job {
            None => return None,
            Some(job) => job.path.clone(),
        };
        let state = match event {
            JobPoll::Pending => return None,
            JobPoll::Disconnected => Err(
                DocumentError::Write {
                    path,
                    source: String::from_str("save worker disconnected unexpectedly"),
                },
            ),
            JobPoll::Done(state) => state,
        };
        match state {
            Err(error) => Some(self.fail_save(BackgroundIssueKind::SaveFailed, error)),
            Ok(completion) => {
                if self.discard_save_result {
                    let error = DocumentError::Write {
                        path: completion.path,
                        source: String::from_str(
                            "background save result discarded after current session state changed",
                        ),
                    };
                    return Some(self.fail_save(BackgroundIssueKind::SaveDiscarded, error));
                }
                match finish_save(&self.doc, &completion) {
                    Err(error) => Some(self.fail_save(BackgroundIssueKind::SaveFailed, error)),
                    Ok(doc) => {
                        let close_after_job = self.close_after_job;
                        self.save_job = None;
                        self.close_after_job = false;
                        self.last_background_issue = None;
                        self.doc = doc;
                        if close_after_job {
                            self.finish_close();
                        } else {
                            self.generation = following(self.generation);
                        }
                        Some(Ok(()))
                    },
                }
            },
        }
    }

    /// Takes over what the worker of the running job says, whichever it is.
    pub fn poll_background_job<
        F: FnOnce(&Document, &SaveCompletion) -> Result<Document, DocumentError>,
    >(
        &mut self,
        load_event: JobPoll<Document>,
        save_event: JobPoll<SaveCompletion>,
        finish_save: F,
    ) -> (result: Option<Result<(), DocumentError>>)
        requires
            old(self).wf(),
            load_event is Done && load_event->Done_0 is Ok ==> load_event->Done_0->Ok_0.wf(),
            old(self).must_finish(save_event) ==> call_requires(
                finish_save,
                (&old(self).doc, &save_event->Done_0->Ok_0),
            ),
            old(self).must_finish(save_event) ==> forall|doc: Document|
                #[trigger] call_ensures(
                    finish_save,
                    (&old(self).doc, &save_event->Done_0->Ok_0),
                    Ok::<Document, DocumentError>(doc),
                ) ==> doc.wf(),
        ensures
            final(self).wf(),
            old(self).load_job is Some ==> old(self).loads_to(load_event, *final(self), result),
            old(self).load_job is None && !old(self).must_finish(save_event) ==> old(
                self,
            ).saves_to(save_event, *final(self), result),
            old(self).must_finish(save_event) ==> exists|outcome: Result<Document, DocumentError>|
                #[trigger] call_ensures(
                    finish_save,
                    (&old(self).doc, &save_event->Done_0->Ok_0),
                    outcome,
                ) && old(self).finishes_to(outcome, *final(self), result),
    {
        if self.is_loading() {
            return self.poll_load_job(load_event);
        }
        self.poll_save_job(save_event, finish_save)
    }

    /// Refuses an edit while a job is running.
    pub open spec fn spec_edit_refusal(self) -> Option<ErrorView> {
        let path = match self.doc.path {
            Some(path) => Some(path@),
            None => None,
        };
        if self.load_job is Some {
            Some(
                ErrorView::EditUnsupported {
                    path,
                    reason: "cannot edit while background load is in progress"@,
                },
            )
        } else if self.save_job is Some {
            Some(
                ErrorView::EditUnsupported {
                    path,
                    reason: "cannot edit while background save is in progress"@,
                },
            )
        } else {
            None
        }
    }

    pub fn ensure_idle_for_edit(&self) -> (result: Result<(), DocumentError>)
        ensures
            match self.spec_edit_refusal() {
                Some(error) => result is Err && result->Err_0@ == error,
                None => result is Ok,
            },
            result is Ok == !self.spec_busy(),
    {
        let path = match &self.doc.path {
            Some(path) => Some(path.clone()),
            None => None,
        };
        if self.is_loading() {
            return Err(
                DocumentError::EditUnsupported {
                    path,
                    reason: "cannot edit while background load is in progress",
                },
            );
        }
        if self.is_saving() {
            return Err(
                DocumentError::EditUnsupported {
                    path,
                    reason: "cannot edit while background save is in progress",
                },
            );
        }
        Ok(())
    }

    pub fn document(&self) -> (doc: &Document)
        ensures
            *doc == self.doc,
    {
        &self.doc
    }

    fn note_session_state_change(&mut self)
        ensures
            *final(self) == old(self).with_change_noted(),
    {
        let mut changed_while_busy = false;
        if self.is_loading() {
            self.discard_load_result = true;
            changed_while_busy = true;
        }
        if self.is_saving() {
            self.discard_save_result = true;
            changed_while_busy = true;
        }
        if changed_while_busy {
            self.close_after_job = false;
        }
    }

    /// The document, to be changed. The result of a running job is outdated from then on, and
    /// a close that waits for it is given up.
    pub fn document_mut(&mut self) -> (doc: &mut Document)
        ensures
            *doc == old(self).doc,
            *final(self) == (SessionCore {
                doc: *final(doc),
                ..old(self).with_change_noted()
            }),
    {
        self.note_session_state_change();
        &mut self.doc
    }

    /// Puts another document in place of the own one.
    pub(crate) fn replace_document(&mut self, doc: Document)
        requires
            old(self).wf(),
            doc.wf(),
        ensures
            final(self).wf(),
            *final(self) == (SessionCore { doc, ..*old(self) }),
    {
        self.doc = doc;
    }

    /// Takes over what an edit came to. A document that was opened clean is then no longer to
    /// be marked clean.
    pub fn apply_edit<T>(&mut self, outcome: Result<(Document, T), DocumentError>) -> (result: Result<
        T,
        DocumentError,
    >)
        requires
            old(self).wf(),
            outcome is Ok ==> outcome->Ok_0.0.wf(),
        ensures
            final(self).wf(),
            old(self).edited(outcome, *final(self), result),
    {
        match outcome {
            Err(error) => Err(error),
            Ok((doc, value)) => {
                self.doc = doc;
                self.clear_dirty_after_open = false;
                Ok(value)
            },
        }
    }

    /// What an edit comes to.
    pub open spec fn edited<T>(
        self,
        outcome: Result<(Document, T), DocumentError>,
        after: SessionCore,
        result: Result<T, DocumentError>,
    ) -> bool {
        match outcome {
            Ok((doc, value)) => result == Ok::<T, DocumentError>(value) && after == (SessionCore {
                doc,
                clear_dirty_after_open: false,
                ..self
            }),
            Err(error) => result == Err::<T, DocumentError>(error) && after == self,
        }
    }

    /// Where a problem with a load is reported.
    pub open spec fn spec_report_path(self) -> Seq<char> {
        match self.load_job {
            Some(job) => job.path@,
            None => match self.doc.path {
                Some(path) => path@,
                None => Seq::empty(),
            },
        }
    }

    fn load_report_path(&self) -> (path: String)
        ensures
            path@ == self.spec_report_path(),
    {
        if let Some(job) = &self.load_job {
            return job.path.clone();
        }
        match &self.doc.path {
            Some(path) => path.clone(),
            None => String::new(),
        }
    }

    pub fn current_path(&self) -> (path: Option<&str>)
        ensures
            match self.doc.path {
                Some(own) => path is Some && path->Some_0@ == own@,
                None => path is None,
            },
    {
        self.doc.path()
    }

    pub fn background_issue(&self) -> (issue: Option<&BackgroundIssue>)
        ensures
            match self.last_background_issue {
                Some(own) => issue is Some && *issue->Some_0 == own,
                None => issue is None,
            },
    {
        match &self.last_background_issue {
            Some(issue) => Some(issue),
            None => None,
        }
    }

    /// Hands out the last problem and forgets it.
    pub fn take_background_issue(&mut self) -> (issue: Option<BackgroundIssue>)
        ensures
            old(self).wf() ==> final(self).wf(),
            issue == old(self).last_background_issue,
            *final(self) == (SessionCore { last_background_issue: None, ..*old(self) }),
    {
        self.last_background_issue.take()
    }

    pub fn is_dirty(&self) -> (dirty: bool)
        ensures
            dirty == self.doc.dirty,
    {
        self.doc.is_dirty()
    }

    /// Why a file cannot be opened now.
    pub open spec fn spec_open_refusal(self, path: Seq<char>, while_loading: Seq<char>) -> Option<
        ErrorView,
    > {
        if self.save_job is Some {
            Some(
                ErrorView::Write { path, source: "cannot open while save is in progress"@ },
            )
        } else if self.load_job is Some {
            Some(ErrorView::Open { path, source: while_loading })
        } else {
            None
        }
    }

    fn refuse_open(&self, path: &String, while_loading: &'static str) -> (refusal: Option<
        DocumentError,
    >)
        ensures
            match self.spec_open_refusal(path@, while_loading@) {
                Some(error) => refusal is Some && refusal->Some_0@ == error,
                None => refusal is None,
            },
    {
        if self.is_saving() {
            return Some(
                DocumentError::Write {
                    path: path.clone(),
                    source: String::from_str("cannot open while save is in progress"),
                },
            );
        }
        if self.is_loading() {
            return Some(
                DocumentError::Open {
                    path: path.clone(),
                    source: String::from_str(while_loading),
                },
            );
        }
        None
    }

    /// Opens a file in place of the document, if nothing is running. `open` reads it.
    pub fn open_file<F: FnOnce(&String) -> Result<Document, DocumentError>>(
        &mut self,
        path: String,
        open: F,
    ) -> (result: Result<(), DocumentError>)
        requires
            old(self).wf(),
            !old(self).spec_busy() ==> call_requires(open, (&path,)),
            forall|doc: Document|
                #[trigger] call_ensures(open, (&path,), Ok::<Document, DocumentError>(doc))
                    ==> doc.wf(),
        ensures
            final(self).wf(),
            old(self).opens_to(path, open, *final(self), result),
    {
        if let Some(error) = self.refuse_open(
            &path,
            "cannot open while another load is in progress",
        ) {
            return Err(error);
        }
        match open(&path) {
            Err(error) => Err(error),
            Ok(doc) => {
                self.last_background_issue = None;
                self.finish_open(doc);
                Ok(())
            },
        }
    }

    /// What opening a file comes to.
    pub open spec fn opens_to<F: FnOnce(&String) -> Result<Document, DocumentError>>(
        self,
        path: String,
        open: F,
        after: SessionCore,
        result: Result<(), DocumentError>,
    ) -> bool {
        match self.spec_open_refusal(path@, "cannot open while another load is in progress"@) {
            Some(error) => result is Err && result->Err_0@ == error && after == self,
            None => exists|outcome: Result<Document, DocumentError>| {
                &&& #[trigger] call_ensures(open, (&path,), outcome)
                &&& match outcome {
                    Ok(doc) => result is Ok && after == self.with_opened(doc),
                    Err(error) => result == Err::<(), DocumentError>(error) && after == self,
                }
            },
        }
    }

    /// Notes that a file of `total_bytes` is being opened in the background, if nothing else
    /// is running.
    pub fn open_file_async(&mut self, path: String, total_bytes: u64) -> (result: Result<
        (),
        DocumentError,
    >)
        requires
            old(self).wf(),
        ensures
            final(self).wf(),
            match old(self).spec_open_refusal(path@, "load already in progress"@) {
                Some(error) => result is Err && result->Err_0@ == error && *final(self) == *old(
                    self,
                ),
                None => result is Ok && *final(self) == old(self).with_load_started(
                    path,
                    total_bytes,
                ),
            },
    {
        if let Some(error) = self.refuse_open(&path, "load already in progress") {
            return Err(error);
        }
        self.load_job = Some(
            LoadJob { path, total_bytes, loaded_bytes: 0, phase: LoadPhase::Opening.as_raw() },
        );
        self.clear_dirty_after_open = false;
        self.last_background_issue = None;
        Ok(())
    }

    /// Closes the document, or notes that it is to be closed when the running job is done.
    pub fn close_file(&mut self) -> (closed: bool)
        requires
            old(self).wf(),
        ensures
            final(self).wf(),
            closed == !old(self).spec_busy(),
            closed ==> old(self).closes_to(*final(self)),
            !closed ==> *final(self) == old(self).with_close_noted(),
    {
        self.clear_dirty_after_open = false;
        if self.is_busy() {
            self.close_after_job = true;
            return false;
        }
        self.finish_close();
        true
    }

    /// `true` where the document will be closed when the running job is done.
    pub fn close_pending(&self) -> (pending: bool)
        ensures
            pending == self.close_after_job,
    {
        self.close_after_job
    }

    pub open spec fn spec_empty_document(self) -> bool {
        self.doc.path is None && self.doc.spec_file_len() == 0 && !self.doc.dirty
    }

    /// `true` for an unchanged empty document without a file.
    pub fn is_empty_document(&self) -> (empty: bool)
        requires
            self.wf(),
        ensures
            empty == self.spec_empty_document(),
    {
        self.doc.path.is_none() && self.doc.file_len() == 0 && !self.doc.is_dirty()
    }

    /// Marks a document clean that was clean when it was opened.
    pub fn after_document_frame(&mut self)
        requires
            old(self).wf(),
        ensures
            final(self).wf(),
            *final(self) == old(self).with_frame_drawn(),
    {
        if !self.clear_dirty_after_open {
            return;
        }
        self.doc.mark_clean();
        self.clear_dirty_after_open = false;
    }

    pub fn cancel_clear_dirty_after_open(&mut self)
        ensures
            old(self).wf() ==> final(self).wf(),
            *final(self) == (SessionCore { clear_dirty_after_open: false, ..*old(self) }),
    {
        self.clear_dirty_after_open = false;
    }

    /// Gives the document another file. The result of a running job is outdated from then on,
    /// and a close that waits for it is given up.
    pub fn set_path(&mut self, path: String)
        ensures
            old(self).wf() ==> final(self).wf(),
            *final(self) == (SessionCore {
                doc: Document { path: Some(path), ..old(self).doc },
                ..old(self).with_change_noted()
            }),
    {
        self.note_session_state_change();
        self.doc.set_path(path);
    }

    /// Why the document cannot be saved to `path` now.
    pub open spec fn spec_save_refusal(self, path: Seq<char>) -> Option<ErrorView> {
        if self.save_job is Some {
            Some(ErrorView::Write { path, source: "save already in progress"@ })
        } else if self.load_job is Some {
            Some(ErrorView::Write { path, source: "cannot save while load is in progress"@ })
        } else {
            None
        }
    }

    fn refuse_save(&self, path: &String) -> (refusal: Option<DocumentError>)
        ensures
            match self.spec_save_refusal(path@) {
                Some(error) => refusal is Some && refusal->Some_0@ == error,
                None => refusal is None,
            },
    {
        if self.is_saving() {
            return Some(
                DocumentError::Write {
                    path: path.clone(),
                    source: String::from_str("save already in progress"),
                },
            );
        }
        if self.is_loading() {
            return Some(
                DocumentError::Write {
                    path: path.clone(),
                    source: String::from_str("cannot save while load is in progress"),
                },
            );
        }
        None
    }

    /// There is nothing to save: the document is unchanged, `path` is its file, and the file
    /// still holds what was read or written last.
    pub open spec fn spec_nothing_to_save(self, path: Seq<char>, live_matches: bool) -> bool {
        !self.doc.dirty && live_matches && self.doc.path is Some && self.doc.path->Some_0@ == path
    }

    fn nothing_to_save(&self, path: &String, live_matches: bool) -> (nothing: bool)
        ensures
            nothing == self.spec_nothing_to_save(path@, live_matches),
    {
        if self.doc.is_dirty() || !live_matches {
            return false;
        }
        match &self.doc.path {
            Some(own) => same_text(own.as_str(), path.as_str()),
            None => false,
        }
    }

    /// `error` says that the text cannot be saved in its encoding.
    pub open spec fn is_encoding_refusal(self, path: Seq<char>, error: ErrorView) -> bool {
        &&& error is Encoding
        &&& error->Encoding_path == path
        &&& error->Encoding_operation == "save"@
        &&& error->Encoding_encoding == self.doc.encoding
        &&& preserve_error_is(self.doc.spec_preserve_error(), Some(error->Encoding_reason))
    }

    fn refuse_encoding(&self, path: &String) -> (refusal: Option<DocumentError>)
        requires
            self.wf(),
        ensures
            refusal is Some == !(self.doc.spec_preserve_error() is Nothing),
            refusal is Some ==> self.is_encoding_refusal(path@, refusal->Some_0@),
    {
        match self.doc.preserve_save_error() {
            Some(reason) => Some(
                DocumentError::Encoding {
                    path: path.clone(),
                    operation: "save",
                    encoding: self.doc.encoding(),
                    reason,
                },
            ),
            None => None,
        }
    }

    /// What writing the document to `path` comes to. A text that cannot be saved in its
    /// encoding is refused before anything is written.
    pub open spec fn writes_to<F: FnOnce(&Document, &String) -> Result<Document, DocumentError>>(
        self,
        path: String,
        live_matches: bool,
        save_to: F,
        after: SessionCore,
        result: Result<(), DocumentError>,
    ) -> bool {
        if self.spec_nothing_to_save(path@, live_matches) {
            result is Ok && after == self
        } else if !(self.doc.spec_preserve_error() is Nothing) {
            result is Err && self.is_encoding_refusal(path@, result->Err_0@) && after == self
        } else {
            exists|outcome: Result<Document, DocumentError>| {
                &&& #[trigger] call_ensures(save_to, (&self.doc, &path), outcome)
                &&& match outcome {
                    Ok(doc) => result is Ok && after == self.with_saved(doc),
                    Err(error) => result == Err::<(), DocumentError>(error) && after == self,
                }
            }
        }
    }

    fn write<F: FnOnce(&Document, &String) -> Result<Document, DocumentError>>(
        &mut self,
        path: &String,
        live_matches: bool,
        save_to: F,
    ) -> (result: Result<(), DocumentError>)
        requires
            old(self).wf(),
            call_requires(save_to, (&old(self).doc, path)),
            forall|doc: Document|
                #[trigger] call_ensures(
                    save_to,
                    (&old(self).doc, path),
                    Ok::<Document, DocumentError>(doc),
                ) ==> doc.wf(),
        ensures
            final(self).wf(),
            old(self).writes_to(*path, live_matches, save_to, *final(self), result),
    {
        if self.nothing_to_save(path, live_matches) {
            return Ok(());
        }
        if let Some(error) = self.refuse_encoding(path) {
            return Err(error);
        }
        match save_to(&self.doc, path) {
            Err(error) => Err(error),
            Ok(doc) => {
                self.doc = doc;
                self.last_background_issue = None;
                self.generation = following(self.generation);
                Ok(())
            },
        }
    }

    /// Saves the document to its file. `save_to` writes it, and gives the document as it is
    /// after the save; `live_matches` tells whether the file still holds what was read or
    /// written last.
    pub fn save<F: FnOnce(&Document, &String) -> Result<Document, DocumentError>>(
        &mut self,
        live_matches: bool,
        save_to: F,
    ) -> (result: Result<(), SaveError>)
        requires
            old(self).wf(),
            old(self).doc.path is Some && !old(self).spec_busy() ==> call_requires(
                save_to,
                (&old(self).doc, &old(self).doc.path->Some_0),
            ),
            forall|path: String, doc: Document|
                #[trigger] call_ensures(
                    save_to,
                    (&old(self).doc, &path),
                    Ok::<Document, DocumentError>(doc),
                ) ==> doc.wf(),
        ensures
            final(self).wf(),
            old(self).save_job is Some ==> result is Err && result->Err_0 is InProgress
                && *final(self) == *old(self),
            old(self).load_job is Some ==> result is Err && result->Err_0 is Io
                && result->Err_0->Io_0@ == (ErrorView::Write {
                path: old(self).spec_report_path(),
                source: "cannot save while load is in progress"@,
            }) && *final(self) == *old(self),
            !old(self).spec_busy() && old(self).doc.path is None ==> result is Err
                && result->Err_0 is NoPath && *final(self) == *old(self),
            !old(self).spec_busy() && old(self).doc.path is Some ==> old(self).writes_to(
                old(self).doc.path->Some_0,
                live_matches,
                save_to,
                *final(self),
                plain_result(result),
            ) && (result is Err ==> result->Err_0 is Io),
    {
        if self.is_saving() {
            return Err(SaveError::InProgress);
        }
        if self.is_loading() {
            let path = self.load_report_path();
            return Err(
                SaveError::Io(
                    DocumentError::Write {
                        path,
                        source: String::from_str("cannot save while load is in progress"),
                    },
                ),
            );
        }
        let path = match &self.doc.path {
            Some(path) => path.clone(),
            None => return Err(SaveError::NoPath),
        };
        match self.write(&path, live_matches, save_to) {
            Ok(()) => Ok(()),
            Err(error) => Err(SaveError::Io(error)),
        }
    }

    /// Saves the document to another file.
    pub fn save_as<F: FnOnce(&Document, &String) -> Result<Document, DocumentError>>(
        &mut self,
        path: String,
        live_matches: bool,
        save_to: F,
    ) -> (result: Result<(), DocumentError>)
        requires
            old(self).wf(),
            !old(self).spec_busy() ==> call_requires(save_to, (&old(self).doc, &path)),
            forall|doc: Document|
                #[trigger] call_ensures(
                    save_to,
                    (&old(self).doc, &path),
                    Ok::<Document, DocumentError>(doc),
                ) ==> doc.wf(),
        ensures
            final(self).wf(),
            match old(self).spec_save_refusal(path@) {
                Some(error) => result is Err && result->Err_0@ == error && *final(self) == *old(
                    self,
                ),
                None => old(self).writes_to(path, live_matches, save_to, *final(self), result),
            },
    {
        if let Some(error) = self.refuse_save(&path) {
            return Err(error);
        }
        self.write(&path, live_matches, save_to)
    }

    /// What starting a save to `path` in the background comes to. A text that cannot be saved
    /// in its encoding is refused before anything is prepared.
    pub open spec fn starts_to<F: FnOnce(&Document, &String) -> Result<u64, DocumentError>>(
        self,
        path: String,
        live_matches: bool,
        prepare: F,
        after: SessionCore,
        result: Result<bool, DocumentError>,
    ) -> bool {
        if self.spec_nothing_to_save(path@, live_matches) {
            result == Ok::<bool, DocumentError>(false) && after == self
        } else if !(self.doc.spec_preserve_error() is Nothing) {
            result is Err && self.is_encoding_refusal(path@, result->Err_0@) && after == self
        } else {
            exists|outcome: Result<u64, DocumentError>| {
                &&& #[trigger] call_ensures(prepare, (&self.doc, &path), outcome)
                &&& match outcome {
                    Ok(total_bytes) => {
                        &&& result == Ok::<bool, DocumentError>(true)
                        &&& after == (SessionCore {
                            save_job: Some(SaveJob { path, total_bytes, written_bytes: 0 }),
                            last_background_issue: None,
                            ..self
                        })
                    },
                    Err(error) => result == Err::<bool, DocumentError>(error) && after == self,
                }
            }
        }
    }

    /// Notes that the document is being saved to `path` in the background, if there is
    /// anything to save and nothing else is running. `prepare` takes a snapshot of the
    /// document and tells how many bytes it has.
    pub fn save_to_async<F: FnOnce(&Document, &String) -> Result<u64, DocumentError>>(
        &mut self,
        path: String,
        live_matches: bool,
        prepare: F,
    ) -> (result: Result<bool, DocumentError>)
        requires
            old(self).wf(),
            !old(self).spec_busy() ==> call_requires(prepare, (&old(self).doc, &path)),
        ensures
            final(self).wf(),
            match old(self).spec_save_refusal(path@) {
                Some(error) => result is Err && result->Err_0@ == error && *final(self) == *old(
                    self,
                ),
                None => old(self).starts_to(path, live_matches, prepare, *final(self), result),
            },
    {
        if let Some(error) = self.refuse_save(&path) {
            return Err(error);
        }
        if self.nothing_to_save(&path, live_matches) {
            return Ok(false);
        }
        if let Some(error) = self.refuse_encoding(&path) {
            return Err(error);
        }
        match prepare(&self.doc, &path) {
            Err(error) => Err(error),
            Ok(total_bytes) => {
                self.save_job = Some(SaveJob { path, total_bytes, written_bytes: 0 });
                self.last_background_issue = None;
                Ok(true)
            },
        }
    }

    /// Starts a save to another file in the background.
    pub fn save_as_async<F: FnOnce(&Document, &String) -> Result<u64, DocumentError>>(
        &mut self,
        path: String,
        live_matches: bool,
        prepare: F,
    ) -> (result: Result<bool, DocumentError>)
        requires
            old(self).wf(),
            !old(self).spec_busy() ==> call_requires(prepare, (&old(self).doc, &path)),
        ensures
            final(self).wf(),
            match old(self).spec_save_refusal(path@) {
                Some(error) => result is Err && result->Err_0@ == error && *final(self) == *old(
                    self,
                ),
                None => old(self).starts_to(path, live_matches, prepare, *final(self), result),
            },
    {
        self.save_to_async(path, live_matches, prepare)
    }

    /// Starts a save to the file of the document in the background.
    pub fn save_async<F: FnOnce(&Document, &String) -> Result<u64, DocumentError>>(
        &mut self,
        live_matches: bool,
        prepare: F,
    ) -> (result: Result<bool, SaveError>)
        requires
            old(self).wf(),
            old(self).doc.path is Some && !old(self).spec_busy() ==> call_requires(
                prepare,
                (&old(self).doc, &old(self).doc.path->Some_0),
            ),
        ensures
            final(self).wf(),
            old(self).save_job is Some ==> result is Err && result->Err_0 is InProgress
                && *final(self) == *old(self),
            old(self).load_job is Some ==> result is Err && result->Err_0 is Io
                && result->Err_0->Io_0@ == (ErrorView::Write {
                path: old(self).spec_report_path(),
                source: "cannot save while load is in progress"@,
            }) && *final(self) == *old(self),
            !old(self).spec_busy() && old(self).doc.path is None ==> result is Err
                && result->Err_0 is NoPath && *final(self) == *old(self),
            !old(self).spec_busy() && old(self).doc.path is Some ==> old(self).starts_to(
                old(self).doc.path->Some_0,
                live_matches,
                prepare,
                *final(self),
                plain_result(result),
            ) && (result is Err ==> result->Err_0 is Io),
    {
        if self.is_saving() {
            return Err(SaveError::InProgress);
        }
        if self.is_loading() {
            let path = self.load_report_path();
            return Err(
                SaveError::Io(
                    DocumentError::Write {
                        path,
                        source: String::from_str("cannot save while load is in progress"),
                    },
                ),
            );
        }
        let path = match &self.doc.path {
            Some(path) => path.clone(),
            None => return Err(SaveError::NoPath),
        };
        match self.save_to_async(path, live_matches, prepare) {
            Ok(started) => Ok(started),
            Err(error) => Err(SaveError::Io(error)),
        }
    }

    /// What the session does in the background.
    pub open spec fn is_activity(self, activity: BackgroundActivity) -> bool {
        match self.spec_loading_state() {
            Some(view) => activity is Loading && activity->Loading_0@ == view,
            None => match self.spec_save_state() {
                Some(view) => activity is Saving && activity->Saving_0@ == view,
                None => activity is Idle,
            },
        }
    }

    pub fn background_activity(&self) -> (activity: BackgroundActivity)
        ensures
            self.is_activity(activity),
    {
        if let Some(progress) = self.loading_state() {
            BackgroundActivity::Loading(progress)
        } else if let Some(progress) = self.save_state() {
            BackgroundActivity::Saving(progress)
        } else {
            BackgroundActivity::Idle
        }
    }

    /// `status` is what a front end is shown of this session.
    pub open spec fn is_status(self, status: DocumentSessionStatus) -> bool {
        &&& status.generation == self.generation
        &&& self.doc.is_status(status.document)
        &&& self.is_activity(status.background_activity)
        &&& match self.last_background_issue {
            Some(issue) => status.background_issue is Some && status.background_issue->Some_0@
                == issue@,
            None => status.background_issue is None,
        }
        &&& status.close_pending == self.close_after_job
    }

    pub fn status(&self) -> (status: DocumentSessionStatus)
        requires
            self.wf(),
        ensures
            self.is_status(status),
    {
        let issue = match &self.last_background_issue {
            Some(issue) => Some(issue.copy()),
            None => None,
        };
        DocumentSessionStatus::new(
            self.generation(),
            self.doc.status(),
            self.background_activity(),
            issue,
            self.close_pending(),
        )
    }
}

pub open spec fn at_most(a: u64, b: u64) -> u64 {
    if a <= b {
        a
    } else {
        b
    }
}

fn capped(a: u64, b: u64) -> (c: u64)
    ensures
        c == at_most(a, b),
{
    if a <= b {
        a
    } else {
        b
    }
}

/// The phase that a number stands for.
pub open spec fn phase_of(raw: u8) -> LoadPhase {
    if raw == 1 {
        LoadPhase::InspectingSource
    } else if raw == 2 {
        LoadPhase::PreparingIndex
    } else if raw == 3 {
        LoadPhase::RecoveringSession
    } else if raw == 4 {
        LoadPhase::Ready
    } else {
        LoadPhase::Opening
    }
}

/// The result of a save without the reasons that are found before it starts.
pub open spec fn plain_result<T>(result: Result<T, SaveError>) -> Result<T, DocumentError> {
    match result {
        Ok(value) => Ok(value),
        Err(error) => Err(error->Io_0),
    }
}

/// A job is done, and has failed with `error`.
pub open spec fn failed_with(result: Option<Result<(), DocumentError>>, error: ErrorView) -> bool {
    result is Some && result->Some_0 is Err && result->Some_0->Err_0@ == error
}

} // verus!
