//! The service status: what runs now, its progress, and the recent log.
//! Only one job runs at a time: a new blur or render request is admitted
//! only while the service is idle.
use vstd::prelude::*;
use vstd::string::StringExecFns;
use std::collections::VecDeque;
use crate::text::str_eq;

verus! {

/// Number of log lines kept.
pub const LOG_CAPACITY: usize = 200;

/// The last `n` elements of `s` (all of `s` if it is shorter).
pub open spec fn last_n<T>(s: Seq<T>, n: int) -> Seq<T> {
    if s.len() <= n {
        s
    } else {
        s.subrange(s.len() - n, s.len() as int)
    }
}

/// The most recent log lines, at most `LOG_CAPACITY` of them, oldest first.
pub struct StatusLog {
    lines: VecDeque<String>,
}

impl View for StatusLog {
    type V = Seq<String>;

    closed spec fn view(&self) -> Seq<String> {
        self.lines@
    }
}

impl StatusLog {
    /// An empty log.
    pub fn new() -> (r: Self)
        ensures
            r@ == Seq::<String>::empty(),
    {
        StatusLog { lines: VecDeque::new() }
    }

    /// Appends `line`, dropping the oldest line beyond the capacity.
    pub fn push(&mut self, line: String)
        requires
            old(self)@.len() <= LOG_CAPACITY,
        ensures
            final(self)@ == last_n(old(self)@.push(line), LOG_CAPACITY as int),
            final(self)@.len() <= LOG_CAPACITY,
    {
        self.lines.push_back(line);
        if self.lines.len() > LOG_CAPACITY {
            let _ = self.lines.pop_front();
        }
    }

    /// Number of lines.
    pub fn len(&self) -> (n: usize)
        ensures
            n == self@.len(),
    {
        self.lines.len()
    }

    /// Line `i`, oldest first.
    pub fn line(&self, i: usize) -> (l: &String)
        requires
            i < self@.len(),
        ensures
            *l == self@[i as int],
    {
        &self.lines[i]
    }
}

/// What the service reports about itself.
pub struct JobStatus {
    pub state: String,
    pub current: u32,
    pub total: u32,
    pub name: String,
    pub error: String,
    pub frame_current: u64,
    pub frame_total: u64,
    pub frame_pct: u8,
    pub eta_seconds: u64,
    pub face_count: u64,
    pub plate_count: u64,
    pub hw_nvdec: bool,
    pub hw_nvenc: bool,
    pub hw_trt: bool,
    pub sub_state: String,
    pub out_name: String,
    pub started_at: String,
    pub log: StatusLog,
}

/// The outcome of a request to start a job.
pub open spec fn admitted(state: Seq<char>) -> bool {
    state == "idle"@
}

impl JobStatus {
    /// `self` and `other` agree in everything but the state.
    pub open spec fn same_but_state(&self, other: &Self) -> bool {
        &&& self.current == other.current
        &&& self.total == other.total
        &&& self.name@ == other.name@
        &&& self.error@ == other.error@
        &&& self.frame_current == other.frame_current
        &&& self.frame_total == other.frame_total
        &&& self.frame_pct == other.frame_pct
        &&& self.eta_seconds == other.eta_seconds
        &&& self.face_count == other.face_count
        &&& self.plate_count == other.plate_count
        &&& self.hw_nvdec == other.hw_nvdec
        &&& self.hw_nvenc == other.hw_nvenc
        &&& self.hw_trt == other.hw_trt
        &&& self.sub_state@ == other.sub_state@
        &&& self.out_name@ == other.out_name@
        &&& self.started_at@ == other.started_at@
        &&& self.log@ == other.log@
    }

    /// `self` and `other` agree in everything but the log.
    pub open spec fn same_but_log(&self, other: &Self) -> bool {
        &&& self.state@ == other.state@
        &&& self.current == other.current
        &&& self.total == other.total
        &&& self.name@ == other.name@
        &&& self.error@ == other.error@
        &&& self.frame_current == other.frame_current
        &&& self.frame_total == other.frame_total
        &&& self.frame_pct == other.frame_pct
        &&& self.eta_seconds == other.eta_seconds
        &&& self.face_count == other.face_count
        &&& self.plate_count == other.plate_count
        &&& self.hw_nvdec == other.hw_nvdec
        &&& self.hw_nvenc == other.hw_nvenc
        &&& self.hw_trt == other.hw_trt
        &&& self.sub_state@ == other.sub_state@
        &&& self.out_name@ == other.out_name@
        &&& self.started_at@ == other.started_at@
    }

    /// The log holds at most `LOG_CAPACITY` lines.
    pub open spec fn wf(&self) -> bool {
        self.log@.len() <= LOG_CAPACITY
    }

    /// An idle service with nothing done yet.
    pub fn new() -> (r: Self)
        ensures
            r.wf(),
            r.state@ == "idle"@,
            r.name@.len() == 0,
            r.error@.len() == 0,
            r.sub_state@.len() == 0,
            r.out_name@.len() == 0,
            r.started_at@.len() == 0,
            r.current == 0 && r.total == 0,
            r.frame_current == 0 && r.frame_total == 0 && r.frame_pct == 0 && r.eta_seconds == 0,
            r.face_count == 0 && r.plate_count == 0,
            !r.hw_nvdec && !r.hw_nvenc && !r.hw_trt,
            r.log@.len() == 0,
    {
        JobStatus {
            state: String::from_str("idle"),
            current: 0,
            total: 0,
            name: String::new(),
            error: String::new(),
            frame_current: 0,
            frame_total: 0,
            frame_pct: 0,
            eta_seconds: 0,
            face_count: 0,
            plate_count: 0,
            hw_nvdec: false,
            hw_nvenc: false,
            hw_trt: false,
            sub_state: String::new(),
            out_name: String::new(),
            started_at: String::new(),
            log: StatusLog::new(),
        }
    }

    /// A request to start a job: while the service is idle it is admitted and
    /// the state becomes "queued"; otherwise it is refused with the current
    /// state, and nothing changes.
    pub fn try_admit(&mut self) -> (r: Result<(), String>)
        ensures
            admitted(old(self).state@) ==> r is Ok && final(self).state@ == "queued"@ && final(self).log@
                == old(self).log@ && final(self).same_but_state(old(self)),
            !admitted(old(self).state@) ==> (r matches Err(s) && s@ == old(self).state@) && *final(self)
                == *old(self),
            final(self).wf() == old(self).wf(),
    {
        if str_eq(self.state.as_str(), "idle") {
            self.state = String::from_str("queued");
            Ok(())
        } else {
            Err(self.state.clone())
        }
    }

    /// Back to idle after a job: no name and no frame progress.
    pub fn set_idle(&mut self)
        ensures
            final(self).state@ == "idle"@,
            final(self).name@.len() == 0,
            final(self).frame_current == 0,
            final(self).frame_total == 0,
            final(self).frame_pct == 0,
            final(self).eta_seconds == 0,
            final(self).log@ == old(self).log@,
            final(self).error@ == old(self).error@,
            final(self).current == old(self).current,
            final(self).total == old(self).total,
            final(self).face_count == old(self).face_count,
            final(self).plate_count == old(self).plate_count,
            final(self).hw_nvdec == old(self).hw_nvdec,
            final(self).hw_nvenc == old(self).hw_nvenc,
            final(self).hw_trt == old(self).hw_trt,
            final(self).sub_state@ == old(self).sub_state@,
            final(self).out_name@ == old(self).out_name@,
            final(self).started_at@ == old(self).started_at@,
    {
        self.state = String::from_str("idle");
        self.name = String::new();
        self.frame_current = 0;
        self.frame_total = 0;
        self.frame_pct = 0;
        self.eta_seconds = 0;
    }

    /// A blur batch of `total` videos starts: no error and no frame progress yet.
    pub fn begin_blur_batch(&mut self, total: u32, started_at: String)
        ensures
            final(self).state@ == "blur"@,
            final(self).current == 0,
            final(self).total == total,
            final(self).error@.len() == 0,
            final(self).frame_current == 0 && final(self).frame_total == 0,
            final(self).frame_pct == 0 && final(self).eta_seconds == 0,
            final(self).started_at@ == started_at@,
            final(self).name@ == old(self).name@,
            final(self).face_count == old(self).face_count,
            final(self).plate_count == old(self).plate_count,
            final(self).hw_nvdec == old(self).hw_nvdec,
            final(self).hw_nvenc == old(self).hw_nvenc,
            final(self).hw_trt == old(self).hw_trt,
            final(self).sub_state@ == old(self).sub_state@,
            final(self).out_name@ == old(self).out_name@,
            final(self).log@ == old(self).log@,
    {
        self.state = String::from_str("blur");
        self.current = 0;
        self.total = total;
        self.error = String::new();
        self.frame_current = 0;
        self.frame_total = 0;
        self.frame_pct = 0;
        self.eta_seconds = 0;
        self.started_at = started_at;
    }

    /// Video `idx` of the batch, named `name`, starts.
    pub fn begin_job(&mut self, idx: u32, name: String)
        ensures
            final(self).current == idx,
            final(self).name@ == name@,
            final(self).frame_current == 0 && final(self).frame_total == 0 && final(self).frame_pct == 0,
            final(self).state@ == old(self).state@,
            final(self).total == old(self).total,
            final(self).error@ == old(self).error@,
            final(self).eta_seconds == old(self).eta_seconds,
            final(self).face_count == old(self).face_count,
            final(self).plate_count == old(self).plate_count,
            final(self).hw_nvdec == old(self).hw_nvdec,
            final(self).hw_nvenc == old(self).hw_nvenc,
            final(self).hw_trt == old(self).hw_trt,
            final(self).sub_state@ == old(self).sub_state@,
            final(self).out_name@ == old(self).out_name@,
            final(self).started_at@ == old(self).started_at@,
            final(self).log@ == old(self).log@,
    {
        self.current = idx;
        self.name = name;
        self.frame_current = 0;
        self.frame_total = 0;
        self.frame_pct = 0;
    }

    /// Progress of the running video.
    pub fn report_frames(&mut self, current: u64, total: u64, pct: u8, eta: u64, faces: u64, plates: u64)
        ensures
            final(self).frame_current == current,
            final(self).frame_total == total,
            final(self).frame_pct == pct,
            final(self).eta_seconds == eta,
            final(self).face_count == faces,
            final(self).plate_count == plates,
            final(self).state@ == old(self).state@,
            final(self).current == old(self).current,
            final(self).total == old(self).total,
            final(self).name@ == old(self).name@,
            final(self).error@ == old(self).error@,
            final(self).hw_nvdec == old(self).hw_nvdec,
            final(self).hw_nvenc == old(self).hw_nvenc,
            final(self).hw_trt == old(self).hw_trt,
            final(self).sub_state@ == old(self).sub_state@,
            final(self).out_name@ == old(self).out_name@,
            final(self).started_at@ == old(self).started_at@,
            final(self).log@ == old(self).log@,
    {
        self.frame_current = current;
        self.frame_total = total;
        self.frame_pct = pct;
        self.eta_seconds = eta;
        self.face_count = faces;
        self.plate_count = plates;
    }

    /// The batch is over: idle again, showing `error` ("" for none).
    pub fn finish_batch(&mut self, error: String)
        ensures
            final(self).state@ == "idle"@,
            final(self).sub_state@.len() == 0,
            final(self).error@ == error@,
            final(self).frame_current == 0 && final(self).frame_total == 0,
            final(self).frame_pct == 0 && final(self).eta_seconds == 0,
            final(self).current == old(self).current,
            final(self).total == old(self).total,
            final(self).name@ == old(self).name@,
            final(self).face_count == old(self).face_count,
            final(self).plate_count == old(self).plate_count,
            final(self).hw_nvdec == old(self).hw_nvdec,
            final(self).hw_nvenc == old(self).hw_nvenc,
            final(self).hw_trt == old(self).hw_trt,
            final(self).out_name@ == old(self).out_name@,
            final(self).started_at@ == old(self).started_at@,
            final(self).log@ == old(self).log@,
    {
        self.state = String::from_str("idle");
        self.sub_state = String::new();
        self.error = error;
        self.frame_current = 0;
        self.frame_total = 0;
        self.frame_pct = 0;
        self.eta_seconds = 0;
    }

    /// A render into `out_name` starts.
    pub fn begin_render(&mut self, out_name: String, started_at: String)
        ensures
            final(self).state@ == "render"@,
            final(self).name@ == out_name@,
            final(self).out_name@ == out_name@,
            final(self).error@.len() == 0,
            final(self).started_at@ == started_at@,
            final(self).current == old(self).current,
            final(self).total == old(self).total,
            final(self).frame_current == old(self).frame_current,
            final(self).frame_total == old(self).frame_total,
            final(self).frame_pct == old(self).frame_pct,
            final(self).eta_seconds == old(self).eta_seconds,
            final(self).face_count == old(self).face_count,
            final(self).plate_count == old(self).plate_count,
            final(self).hw_nvdec == old(self).hw_nvdec,
            final(self).hw_nvenc == old(self).hw_nvenc,
            final(self).hw_trt == old(self).hw_trt,
            final(self).sub_state@ == old(self).sub_state@,
            final(self).log@ == old(self).log@,
    {
        self.state = String::from_str("render");
        self.name = out_name.clone();
        self.out_name = out_name;
        self.error = String::new();
        self.started_at = started_at;
    }

    /// The render is over: idle again, without a name, showing `error`.
    pub fn finish_render(&mut self, error: String)
        ensures
            final(self).state@ == "idle"@,
            final(self).sub_state@.len() == 0,
            final(self).name@.len() == 0,
            final(self).error@ == error@,
            final(self).current == old(self).current,
            final(self).total == old(self).total,
            final(self).frame_current == old(self).frame_current,
            final(self).frame_total == old(self).frame_total,
            final(self).frame_pct == old(self).frame_pct,
            final(self).eta_seconds == old(self).eta_seconds,
            final(self).face_count == old(self).face_count,
            final(self).plate_count == old(self).plate_count,
            final(self).hw_nvdec == old(self).hw_nvdec,
            final(self).hw_nvenc == old(self).hw_nvenc,
            final(self).hw_trt == old(self).hw_trt,
            final(self).out_name@ == old(self).out_name@,
            final(self).started_at@ == old(self).started_at@,
            final(self).log@ == old(self).log@,
    {
        self.state = String::from_str("idle");
        self.sub_state = String::new();
        self.name = String::new();
        self.error = error;
    }

    /// Appends a line to the log.
    pub fn log_line(&mut self, line: String)
        requires
            old(self).wf(),
        ensures
            final(self).wf(),
            final(self).log@ == last_n(old(self).log@.push(line), LOG_CAPACITY as int),
            final(self).state@ == old(self).state@,
            final(self).same_but_log(old(self)),
    {
        self.log.push(line);
    }
}

/// Only one job runs at a time: a request admitted while the service was idle
/// leaves it "queued", and in that state every further request is refused
/// (the refusal changes nothing, see `try_admit`) until the job ends and the
/// state is "idle" again.
pub proof fn law_one_job_at_a_time(before: Seq<char>, after: Seq<char>)
    requires
        admitted(before),
        after == "queued"@,
    ensures
        !admitted(after),
        admitted("idle"@),
{
    reveal_strlit("queued");
    reveal_strlit("idle");
    assert(after[0] != "idle"@[0]);
}

/// The log keeps at most `LOG_CAPACITY` lines, the newest last, and drops
/// only the oldest lines.
pub proof fn law_log_keeps_newest(log: Seq<String>, line: String)
    requires
        log.len() <= LOG_CAPACITY,
    ensures
        last_n(log.push(line), LOG_CAPACITY as int).len() <= LOG_CAPACITY,
        last_n(log.push(line), LOG_CAPACITY as int).last() == line,
        log.len() < LOG_CAPACITY ==> last_n(log.push(line), LOG_CAPACITY as int) == log.push(line),
        log.len() == LOG_CAPACITY ==> last_n(log.push(line), LOG_CAPACITY as int) == log.drop_first().push(line),
{
    if log.len() == LOG_CAPACITY {
        assert(log.push(line).subrange(1, log.len() as int + 1) =~= log.drop_first().push(line));
    }
}

} // verus!
