//! A batch of blur jobs: which blur each job asks for, how failures are
//! recorded, when the batch stops, and what is reported at its end.
use vstd::prelude::*;
use vstd::string::StringExecFns;
use vstd::string::StringSliceAdditionalSpecFns;
use vstd::utf8::{encode_utf8, is_char_boundary};
use crate::models::truncate_bytes;
use crate::text::{chars_of, contains_chars, contains_spec, head, head_spec};
use crate::tracking::BlurMode;

verus! {

/// The blur a job asks for; `None` when it asks for none (the file is copied).
pub open spec fn job_mode_spec(blur_faces: bool, blur_plates: bool) -> Option<BlurMode> {
    if blur_faces && blur_plates {
        Some(BlurMode::Both)
    } else if blur_faces {
        Some(BlurMode::Faces)
    } else if blur_plates {
        Some(BlurMode::Plates)
    } else {
        None
    }
}

/// The blur a job asks for.
pub fn job_mode(blur_faces: bool, blur_plates: bool) -> (m: Option<BlurMode>)
    ensures
        m == job_mode_spec(blur_faces, blur_plates),
{
    match (blur_faces, blur_plates) {
        (true, true) => Some(BlurMode::Both),
        (true, false) => Some(BlurMode::Faces),
        (false, true) => Some(BlurMode::Plates),
        _ => None,
    }
}

/// A failed job: its input and the error.
#[derive(Debug)]
pub struct JobError {
    pub input: String,
    pub error: String,
}

/// How a run of one job ended, as far as the batch is concerned.
#[derive(Debug, PartialEq, Eq, Structural)]
pub enum JobOutcome {
    /// The job finished.
    Done,
    /// The job failed; the batch goes on.
    Failed,
    /// The job was cancelled; the batch stops.
    Cancelled,
}

/// The text of an error, cut to its first `n` bytes (`n` on a character boundary).
pub open spec fn cut_bytes(msg: Seq<char>, n: int) -> Seq<u8> {
    if encode_utf8(msg).len() <= n {
        encode_utf8(msg)
    } else {
        encode_utf8(msg).subrange(0, n)
    }
}

/// A failure whose text mentions "cancelled" is a cancellation.
pub open spec fn is_cancellation(msg: Seq<char>) -> bool {
    contains_spec(msg, "cancelled"@)
}

/// The errors of a batch and whether it was cancelled.
pub struct JobBatch {
    pub total: usize,
    pub errors: Vec<JobError>,
    pub was_cancelled: bool,
}

/// The error texts of `errors`.
pub open spec fn error_texts(errors: Seq<JobError>) -> Seq<Seq<char>> {
    errors.map_values(|e: JobError| e.error@)
}

/// The inputs of `errors`.
pub open spec fn error_inputs(errors: Seq<JobError>) -> Seq<Seq<char>> {
    errors.map_values(|e: JobError| e.input@)
}

impl JobBatch {
    /// A batch of `total` jobs with nothing recorded.
    pub fn new(total: usize) -> (b: Self)
        ensures
            b.total == total,
            b.errors@.len() == 0,
            !b.was_cancelled,
    {
        JobBatch { total, errors: Vec::new(), was_cancelled: false }
    }

    /// Records a job whose input or output path was refused.
    pub fn record_path_error(&mut self, input: &str, msg: &str)
        ensures
            error_inputs(final(self).errors@) == error_inputs(old(self).errors@).push(input@),
            error_texts(final(self).errors@) == error_texts(old(self).errors@).push(msg@),
            final(self).was_cancelled == old(self).was_cancelled,
            final(self).total == old(self).total,
    {
        let ghost e0 = self.errors@;
        self.errors.push(JobError { input: String::from_str(input), error: String::from_str(msg) });
        proof {
            assert(error_inputs(self.errors@) =~= error_inputs(e0).push(input@));
            assert(error_texts(self.errors@) =~= error_texts(e0).push(msg@));
        }
    }

    /// Records how the run of a job on `input` ended (`Err` with its error
    /// text). A cancellation is recorded as "Abgebrochen" and marks the
    /// batch cancelled; another failure is recorded with the first 500 bytes
    /// of its text.
    pub fn record_run(&mut self, input: &str, result: Result<(), &str>) -> (o: JobOutcome)
        requires
            result matches Err(m) ==> is_cancellation(m@) || m.spec_bytes().len() <= 500 || is_char_boundary(
                m.spec_bytes(),
                500,
            ),
        ensures
            final(self).total == old(self).total,
            match result {
                Ok(()) => o == JobOutcome::Done && error_texts(final(self).errors@) == error_texts(old(self).errors@)
                    && error_inputs(final(self).errors@) == error_inputs(old(self).errors@)
                    && final(self).was_cancelled == old(self).was_cancelled,
                Err(m) => error_inputs(final(self).errors@) == error_inputs(old(self).errors@).push(input@)
                    && final(self).errors@.len() == old(self).errors@.len() + 1 && if is_cancellation(m@) {
                    &&& o == JobOutcome::Cancelled
                    &&& final(self).was_cancelled
                    &&& error_texts(final(self).errors@) == error_texts(old(self).errors@).push("Abgebrochen"@)
                } else {
                    &&& o == JobOutcome::Failed
                    &&& final(self).was_cancelled == old(self).was_cancelled
                    &&& error_texts(final(self).errors@).drop_last() == error_texts(old(self).errors@)
                    &&& encode_utf8(error_texts(final(self).errors@).last()) == cut_bytes(m@, 500)
                },
            },
    {
        let ghost e0 = self.errors@;
        match result {
            Ok(()) => JobOutcome::Done,
            Err(m) => {
                let mv = chars_of(m);
                let pat = chars_of("cancelled");
                if contains_chars(mv.as_slice(), pat.as_slice()) {
                    self.errors.push(
                        JobError { input: String::from_str(input), error: String::from_str("Abgebrochen") },
                    );
                    self.was_cancelled = true;
                    proof {
                        assert(error_inputs(self.errors@) =~= error_inputs(e0).push(input@));
                        assert(error_texts(self.errors@) =~= error_texts(e0).push("Abgebrochen"@));
                    }
                    JobOutcome::Cancelled
                } else {
                    let cut = truncate_bytes(m, 500);
                    let ghost cv = cut@;
                    self.errors.push(JobError { input: String::from_str(input), error: cut });
                    proof {
                        assert(error_inputs(self.errors@) =~= error_inputs(e0).push(input@));
                        assert(error_texts(self.errors@) =~= error_texts(e0).push(cv));
                        assert(error_texts(self.errors@).drop_last() =~= error_texts(e0));
                    }
                    JobOutcome::Failed
                }
            },
        }
    }

    /// The error the status shows after the batch: "Abgebrochen" when it was
    /// cancelled, else the first 200 characters of the first error ("" for none).
    pub fn final_error(&self) -> (e: String)
        ensures
            e@ == (if self.was_cancelled {
                "Abgebrochen"@
            } else if self.errors@.len() > 0 {
                head_spec(self.errors@[0].error@, 200)
            } else {
                Seq::empty()
            }),
    {
        if self.was_cancelled {
            String::from_str("Abgebrochen")
        } else if self.errors.len() > 0 {
            head(self.errors[0].error.as_str(), 200)
        } else {
            String::new()
        }
    }

    /// The status sent to the completion webhook.
    pub fn completion_status(&self) -> (s: &'static str)
        ensures
            s@ == (if self.was_cancelled {
                "cancelled"@
            } else {
                "done"@
            }),
    {
        if self.was_cancelled {
            "cancelled"
        } else {
            "done"
        }
    }
}

} // verus!
