//! What a running scan tells, when, and in which words.
use vstd::prelude::*;
use crate::scan::{Event, Progress, ProgressView, Report, ReportView, FOLDER_ENGINE};
use crate::text::join2;

verus! {

/// The first preview is not shown before this many nanoseconds.
pub const FIRST_PREVIEW: u64 = 250_000_000;

/// Progress is told at most once in this many nanoseconds.
pub const PROGRESS_INTERVAL: u64 = 100_000_000;

/// Previews are at least this many nanoseconds apart.
pub const PREVIEW_INTERVAL: u64 = 1_000_000_000;

/// Previews are at least this many times their own cost apart.
pub const PREVIEW_COST_FACTOR: u64 = 20;

/// What is to be told now.
#[derive(Clone, Copy, Debug, PartialEq, Eq, Structural)]
pub enum Due {
    Preview,
    Progress,
    Nothing,
}

/// When something was told last, in nanoseconds of a clock that never goes back.
#[derive(Clone, Copy, Debug)]
pub struct Updates {
    pub progress_at: u64,
    pub preview_at: u64,
}

/// A sum of times that stops at the end of the clock.
pub open spec fn time_sum(a: int, b: int) -> u64 {
    if a + b > u64::MAX {
        u64::MAX
    } else {
        (a + b) as u64
    }
}

/// How long the next preview waits after one that took from `started` to `finished`.
pub open spec fn pause_after(started: u64, finished: u64) -> int {
    if started <= finished && (finished - started) * PREVIEW_COST_FACTOR > PREVIEW_INTERVAL {
        (finished - started) * PREVIEW_COST_FACTOR
    } else {
        PREVIEW_INTERVAL as int
    }
}

impl Updates {
    /// Nothing has been told yet.
    pub open spec fn starting(now: u64, first_preview: u64) -> Updates {
        Updates { progress_at: now, preview_at: time_sum(now as int, first_preview as int) }
    }

    /// What is to be told at `now`.
    pub open spec fn due_at(self, now: u64, bytes: u64) -> Due {
        if now >= self.preview_at && bytes > 0 {
            Due::Preview
        } else if now >= self.progress_at + PROGRESS_INTERVAL {
            Due::Progress
        } else {
            Due::Nothing
        }
    }

    /// After a preview that took from `started` to `finished`.
    pub open spec fn after_preview(self, started: u64, finished: u64) -> Updates {
        Updates {
            progress_at: finished,
            preview_at: time_sum(finished as int, pause_after(started, finished)),
        }
    }

    /// After the progress was told.
    pub open spec fn after_progress(self, now: u64) -> Updates {
        Updates { progress_at: now, ..self }
    }

    /// Nothing has been told yet; the first preview waits for `first_preview`.
    pub fn new(now: u64, first_preview: u64) -> (r: Updates)
        ensures
            r == Updates::starting(now, first_preview),
    {
        Updates { progress_at: now, preview_at: now.saturating_add(first_preview) }
    }

    /// What is to be told at `now`: a preview, once it is due and there is
    /// something to show, else the progress, once that is due.
    pub fn due(&self, now: u64, bytes: u64) -> (r: Due)
        ensures
            r == self.due_at(now, bytes),
    {
        if now >= self.preview_at && bytes > 0 {
            Due::Preview
        } else if now >= PROGRESS_INTERVAL && now - PROGRESS_INTERVAL >= self.progress_at {
            Due::Progress
        } else {
            Due::Nothing
        }
    }

    /// Notes that a preview was made between `started` and `finished`. The next
    /// one waits a second, or twenty times as long as this one took.
    pub fn previewed(&mut self, started: u64, finished: u64)
        ensures
            *final(self) == old(self).after_preview(started, finished),
    {
        let cost: u64 = finished.saturating_sub(started);
        let pause: u64 = match cost.checked_mul(PREVIEW_COST_FACTOR) {
            None => u64::MAX,
            Some(n) => n,
        };
        let pause: u64 = if pause > PREVIEW_INTERVAL {
            pause
        } else {
            PREVIEW_INTERVAL
        };
        self.preview_at = finished.saturating_add(pause);
        self.progress_at = finished;
    }

    /// Notes that the progress was told.
    pub fn told(&mut self, now: u64)
        ensures
            *final(self) == old(self).after_progress(now),
    {
        self.progress_at = now;
    }
}

/// One moment of a scan: when it asks what to tell, how many bytes it has found,
/// and when what was due has been told.
pub struct Moment {
    pub now: u64,
    pub bytes: u64,
    pub finished: u64,
}

impl Updates {
    /// After a moment at which whatever was due was told.
    pub open spec fn after(self, moment: Moment) -> Updates {
        match self.due_at(moment.now, moment.bytes) {
            Due::Preview => self.after_preview(moment.now, moment.finished),
            Due::Progress => self.after_progress(moment.finished),
            Due::Nothing => self,
        }
    }

    /// After the first `n` moments.
    pub open spec fn after_all(self, moments: Seq<Moment>, n: int) -> Updates
        decreases n,
    {
        if n <= 0 {
            self
        } else {
            self.after_all(moments, n - 1).after(moments[n - 1])
        }
    }

    /// What is told at moment `i`.
    pub open spec fn told_at(self, moments: Seq<Moment>, i: int) -> Due {
        self.after_all(moments, i).due_at(moments[i].now, moments[i].bytes)
    }
}

proof fn nothing_moves_the_preview(start: Updates, moments: Seq<Moment>, m: int, n: int)
    requires
        0 <= m <= n <= moments.len(),
        forall|k: int| m <= k < n ==> start.told_at(moments, k) != Due::Preview,
    ensures
        start.after_all(moments, n).preview_at == start.after_all(moments, m).preview_at,
    decreases n,
{
    if m < n {
        nothing_moves_the_preview(start, moments, m, n - 1);
        assert(start.told_at(moments, n - 1) != Due::Preview);
    }
}

proof fn nothing_moves_the_progress(start: Updates, moments: Seq<Moment>, m: int, n: int)
    requires
        0 <= m <= n <= moments.len(),
        forall|k: int| m <= k < n ==> start.told_at(moments, k) == Due::Nothing,
    ensures
        start.after_all(moments, n) == start.after_all(moments, m),
    decreases n,
{
    if m < n {
        nothing_moves_the_progress(start, moments, m, n - 1);
        assert(start.told_at(moments, n - 1) == Due::Nothing);
    }
}

/// Over a whole scan: before the first preview, one is shown exactly once the
/// first wait is over and there is something to show.
pub proof fn the_first_preview_waits(
    created: u64,
    first_preview: u64,
    moments: Seq<Moment>,
    i: int,
)
    requires
        0 <= i < moments.len(),
        forall|k: int|
            0 <= k < i ==> Updates::starting(created, first_preview).told_at(moments, k)
                != Due::Preview,
    ensures
        (Updates::starting(created, first_preview).told_at(moments, i) == Due::Preview) <==> (
        moments[i].bytes > 0 && moments[i].now >= time_sum(created as int, first_preview as int)),
{
    nothing_moves_the_preview(Updates::starting(created, first_preview), moments, 0, i);
}

/// Over a whole scan: after a preview the next one is shown exactly once there
/// is something to show and a second has passed, or twenty times as long as the
/// last one took.
pub proof fn previews_are_apart(start: Updates, moments: Seq<Moment>, last: int, i: int)
    requires
        0 <= last < i < moments.len(),
        start.told_at(moments, last) == Due::Preview,
        forall|k: int| last < k < i ==> start.told_at(moments, k) != Due::Preview,
    ensures
        (start.told_at(moments, i) == Due::Preview) <==> (moments[i].bytes > 0 && moments[i].now
            >= time_sum(
            moments[last].finished as int,
            pause_after(moments[last].now, moments[last].finished),
        )),
        pause_after(moments[last].now, moments[last].finished) >= PREVIEW_INTERVAL,
        pause_after(moments[last].now, moments[last].finished) >= PREVIEW_COST_FACTOR * (
        moments[last].finished - moments[last].now),
{
    nothing_moves_the_preview(start, moments, last + 1, i);
}

/// Over a whole scan: where no preview is shown, the progress is told exactly
/// once a tenth of a second has passed since anything was told.
pub proof fn progress_is_apart(start: Updates, moments: Seq<Moment>, last: int, i: int)
    requires
        0 <= last < i < moments.len(),
        start.told_at(moments, last) != Due::Nothing,
        forall|k: int| last < k < i ==> start.told_at(moments, k) == Due::Nothing,
        start.told_at(moments, i) != Due::Preview,
    ensures
        (start.told_at(moments, i) == Due::Progress) <==> (moments[i].now
            >= moments[last].finished + PROGRESS_INTERVAL),
{
    nothing_moves_the_progress(start, moments, last + 1, i);
}

/// The note of a scan that lists folders because the volume could not be read directly.
pub fn fallback_note(error: &str) -> (r: String)
    ensures
        r@ == "MFT를 사용할 수 없어 폴더 열거로 전환: "@ + error@,
{
    join2("MFT를 사용할 수 없어 폴더 열거로 전환: ", error)
}

/// The note of a scan that lists folders because its path is no volume.
pub fn folder_note() -> (r: String)
    ensures
        r@ == "폴더 경로는 기존 방식으로 스캔합니다. MFT는 로컬 드라이브 루트에서 사용합니다."@,
{
    "폴더 경로는 기존 방식으로 스캔합니다. MFT는 로컬 드라이브 루트에서 사용합니다.".to_string()
}

/// What follows an attempt to read a volume: its map is shown, or the folders
/// are listed, with a note and, after an attempt that failed, a new start.
pub enum Next {
    Show(Report),
    List(String, Option<Progress>),
}

/// What follows an attempt to read a volume; `None` where the path is none.
pub fn after_volume(outcome: Option<Result<Report, String>>) -> (r: Next)
    ensures
        match outcome {
            Some(Ok(report)) => r == Next::Show(report),
            Some(Err(error)) => r matches Next::List(note, Some(p)) && note@
                == "MFT를 사용할 수 없어 폴더 열거로 전환: "@ + error@ && p@
                == ProgressView::starting(FOLDER_ENGINE@, note@),
            None => r matches Next::List(note, None) && note@
                == "폴더 경로는 기존 방식으로 스캔합니다. MFT는 로컬 드라이브 루트에서 사용합니다."@,
        },
{
    match outcome {
        Some(Ok(report)) => Next::Show(report),
        Some(Err(error)) => {
            let note = fallback_note(error.as_str());
            let progress = restart(note.as_str());
            Next::List(note, Some(progress))
        },
        None => Next::List(folder_note(), None),
    }
}

/// The progress of a scan that starts over by listing folders.
pub fn restart(note: &str) -> (r: Progress)
    ensures
        r@ == ProgressView::starting(FOLDER_ENGINE@, note@),
{
    Progress { engine: FOLDER_ENGINE, note: note.to_string(), ..Default::default() }
}

impl ProgressView {
    /// The progress with another note.
    pub open spec fn noted(self, note: Seq<char>) -> ProgressView {
        ProgressView { note, ..self }
    }
}

impl ReportView {
    /// The report with another note.
    pub open spec fn noted(self, note: Seq<char>) -> ReportView {
        ReportView { progress: self.progress.noted(note), ..self }
    }
}

/// The event with a note, wherever it carries one.
pub fn with_note(event: Event, note: &str) -> (r: Event)
    ensures
        match event {
            Event::Restart(p) => r matches Event::Restart(q) && q@ == p@.noted(note@),
            Event::Progress(p) => r matches Event::Progress(q) && q@ == p@.noted(note@),
            Event::Preview(p) => r matches Event::Preview(q) && q@ == p@.noted(note@),
            Event::Finished(p) => r matches Event::Finished(q) && q@ == p@.noted(note@),
            Event::Failed(e) => r matches Event::Failed(f) && f@ == e@,
        },
{
    match event {
        Event::Restart(p) => Event::Restart(Progress { note: note.to_string(), ..p }),
        Event::Progress(p) => Event::Progress(Progress { note: note.to_string(), ..p }),
        Event::Preview(r) => Event::Preview(note_report(r, note)),
        Event::Finished(r) => Event::Finished(note_report(r, note)),
        Event::Failed(e) => Event::Failed(e),
    }
}

/// The report with a note.
pub fn note_report(report: Report, note: &str) -> (r: Report)
    ensures
        r@ == report@.noted(note@),
{
    let mut r = report;
    r.progress.note = note.to_string();
    r
}

/// The finished report with its note. A refresh with problems says that
/// unreadable parts keep their earlier totals.
pub fn conclude(report: Report, note: String, refreshing: bool) -> (r: Report)
    ensures
        r@ == report@.noted(
            if refreshing && report@.progress.errors > 0 {
                note@ + " · 읽기 실패한 부분은 이전 집계를 유지했습니다."@
            } else {
                note@
            },
        ),
{
    let mut note = note;
    if refreshing && report.progress.errors > 0 {
        note.push_str(" · 읽기 실패한 부분은 이전 집계를 유지했습니다.");
    }
    note_report(report, note.as_str())
}

} // verus!
