//! How the window changes.
use std::sync::Arc;
use vstd::prelude::*;
use crate::app::{candidate_ids, is_candidate, is_large_and_old, is_save, AppView, DiskApp};
use crate::below::shows_sum;
use crate::cache::restore::CachedView;
use crate::cache::snapshot::Request;
use crate::i18n::Language;
use crate::rank::ranking_orders_by_size;
use crate::scan::{Report, ReportView};
use crate::time::Timestamp;
use crate::tree::NodeView;

verus! {

/// Whether what the user set is the same: the language, the drives, and which
/// folders are looked for.
pub open spec fn same_settings(a: AppView, b: AppView) -> bool {
    &&& a.language == b.language
    &&& a.drives == b.drives
    &&& a.access == b.access
    &&& a.days == b.days
    &&& a.min_mb == b.min_mb
    &&& a.depth == b.depth
    &&& a.query == b.query
}

/// Whether what is known of saving is the same.
pub open spec fn same_saving(a: AppView, b: AppView) -> bool {
    &&& a.cache == b.cache
    &&& a.cache_generation == b.cache_generation
    &&& a.cache_saves == b.cache_saves
    &&& a.closing == b.closing
}

/// Whether the listed subfolders are those of the open folder, larger ones first.
pub open spec fn lists_open_folder(app: AppView) -> bool {
    let tree = app.report->0.nodes;
    let inside = tree[app.focus as int].children;
    &&& app.children.len() == inside.len()
    &&& forall|id: usize| #[trigger] app.children.contains(id) <==> inside.contains(id)
    &&& forall|i: int, j: int|
        0 <= i <= j < app.children.len() ==> tree[#[trigger] app.children[i] as int].bytes
            >= tree[#[trigger] app.children[j] as int].bytes
}

/// Opening a folder shows its subfolders, larger ones first, and gives the selection
/// up; nothing else changes.
pub proof fn opening_lists_the_subfolders(app: AppView, id: usize)
    requires
        app.report is Some,
    ensures
        ({
            let after = app.navigated(id);
            &&& after.focus == id
            &&& after.selected_path is None
            &&& lists_open_folder(after)
            &&& after == AppView {
                focus: after.focus,
                selected_path: after.selected_path,
                children: after.children,
                ..app
            }
        }),
{
    ranking_orders_by_size(app.report->0.nodes, app.report->0.nodes[id as int].children);
}

/// A scan begins without a map, a selection, an error or candidates, and with a new
/// generation of saved maps; what the user set, and saving that goes on, stay.
pub proof fn scans_begin_anew(app: AppView)
    ensures
        ({
            let after = app.scan_begun();
            &&& after.scanning
            &&& after.report is None
            &&& after.focus == 0
            &&& after.selected_path is None
            &&& after.children.len() == 0
            &&& after.candidates.len() == 0
            &&& after.candidate_count == 0
            &&& after.error is None
            &&& after.cached_at is None
            &&& !after.cache_loading
            &&& shows_sum(after.cache_generation, app.cache_generation + 1)
            &&& after.progress.files == 0 && after.progress.bytes == 0 && after.progress.errors == 0
            &&& !app.cache ==> after.cache_status == app.cache_status
            &&& same_settings(after, app)
            &&& after.path == app.path
            &&& after.refreshing == app.refreshing
            &&& after.cache == app.cache
            &&& after.cache_saves == app.cache_saves
            &&& after.closing == app.closing
            &&& after.now == app.now
        }),
{
}

proof fn the_same_candidates(a: AppView, b: AppView, tree: Seq<NodeView>, n: int)
    requires
        a.access == b.access,
        a.days == b.days,
        a.min_mb == b.min_mb,
        a.query == b.query,
        a.now == b.now,
    ensures
        candidate_ids(a, tree, n) == candidate_ids(b, tree, n),
    decreases n,
{
    if n > 0 {
        the_same_candidates(a, b, tree, n - 1);
        assert(is_large_and_old(a, tree[n - 1]) == is_large_and_old(b, tree[n - 1]));
        assert(is_candidate(a, tree[n - 1]) == is_candidate(b, tree[n - 1]));
    }
}

/// Whether the candidates that are listed are those of the map and the settings.
pub open spec fn lists_candidates(app: AppView) -> bool {
    app.candidates == app.with_candidates().candidates && app.candidate_count
        == app.with_candidates().candidate_count
}

proof fn candidates_are_found_once(app: AppView, after: AppView)
    requires
        after.report == app.report,
        after.access == app.access,
        after.days == app.days,
        after.min_mb == app.min_mb,
        after.query == app.query,
        after.now == app.now,
        after.candidates == app.with_candidates().candidates,
        after.candidate_count == app.with_candidates().candidate_count,
    ensures
        lists_candidates(after),
{
    if let Some(r) = app.report {
        the_same_candidates(app, after, r.nodes, r.nodes.len() as int);
    }
}

/// A finished scan shows its map with the candidates of now; the scan is over, and
/// nothing else that the user set changes.
pub proof fn finished_scans_are_shown(app: AppView, report: ReportView, now: Timestamp)
    ensures
        ({
            let after = app.scan_finished(report, now);
            &&& after.report == Some(report)
            &&& !after.scanning
            &&& after.refreshing == app.refreshing
            &&& after.progress == report.progress
            &&& after.now == now
            &&& after.selected_path is None
            &&& after.focus == app.with_report(report).focus
            &&& lists_open_folder(after)
            &&& lists_candidates(after)
            &&& same_settings(after, app)
            &&& same_saving(after, app)
            &&& after.path == app.path
            &&& after.error == app.error
            &&& after.cached_at == app.cached_at
            &&& after.cache_loading == app.cache_loading
            &&& after.cache_status == app.cache_status
        }),
{
    let start = AppView { progress: report.progress, ..app };
    let shown = start.with_report(report);
    let open = AppView { scanning: false, now, ..shown }.navigated(shown.focus);
    opening_lists_the_subfolders(AppView { scanning: false, now, ..shown }, shown.focus);
    candidates_are_found_once(open, open.with_candidates());
}

/// A refreshed map takes the place of the old one, with the candidates of now. It is
/// no saved map, the refresh is over, and the selection stays where its folder does.
pub proof fn refreshed_maps_are_shown(app: AppView, report: ReportView, now: Timestamp)
    ensures
        ({
            let after = app.refresh_finished(report, now);
            &&& after.report == Some(report)
            &&& !after.refreshing
            &&& after.scanning == app.scanning
            &&& after.progress == report.progress
            &&& after.now == now
            &&& after.cached_at is None
            &&& after.selected_path == app.with_report(report).selected_path
            &&& after.focus == app.with_report(report).focus
            &&& lists_open_folder(after)
            &&& lists_candidates(after)
            &&& same_settings(after, app)
            &&& same_saving(after, app)
            &&& after.path == app.path
            &&& after.error == app.error
            &&& after.cache_loading == app.cache_loading
        }),
{
    let start = AppView { refreshing: false, progress: report.progress, ..app };
    let shown = start.with_report(report);
    opening_lists_the_subfolders(
        AppView { report: Some(report), ..start },
        app.with_report(report).focus,
    );
    let open = AppView { cached_at: None, now, ..shown };
    candidates_are_found_once(open, app.refresh_finished(report, now));
}

/// A saved map is shown under the path of its root, with the date it was saved and the
/// candidates of now; it is no longer waited for.
pub proof fn saved_maps_are_opened(app: AppView, cached: CachedView, now: Timestamp)
    ensures
        ({
            let after = app.map_opened(cached, now);
            &&& after.report == Some(cached.report)
            &&& after.cached_at == Some(cached.saved_at)
            &&& after.path == cached.report.nodes[0].path.text()
            &&& after.progress == cached.report.progress
            &&& !after.cache_loading
            &&& after.now == now
            &&& after.selected_path == app.with_report(cached.report).selected_path
            &&& after.focus == app.with_report(cached.report).focus
            &&& lists_open_folder(after)
            &&& lists_candidates(after)
            &&& same_settings(after, app)
            &&& same_saving(after, app)
            &&& after.scanning == app.scanning
            &&& after.refreshing == app.refreshing
            &&& after.error == app.error
        }),
{
    let start = AppView {
        cache_loading: false,
        path: cached.report.nodes[0].path.text(),
        progress: cached.report.progress,
        ..app
    };
    let shown = start.with_report(cached.report);
    opening_lists_the_subfolders(
        AppView { report: Some(cached.report), ..start },
        app.with_report(cached.report).focus,
    );
    let open = AppView { cached_at: Some(cached.saved_at), now, ..shown };
    candidates_are_found_once(open, app.map_opened(cached, now));
}

/// A failed refresh tells why, and shows the counts of the map that stays.
pub proof fn failed_refreshes_are_told(app: AppView, message: Seq<char>)
    ensures
        ({
            let after = app.refresh_failed(message);
            &&& !after.refreshing
            &&& after.error == Some(message)
            &&& after.report == app.report
            &&& app.report matches Some(r) ==> after.progress == r.progress
            &&& app.report is None ==> after.progress == app.progress
            &&& after == AppView {
                refreshing: after.refreshing,
                error: after.error,
                progress: after.progress,
                cache_status: after.cache_status,
                ..app
            }
        }),
{
}

/// An answer to a wish to save takes one from those that are waited for. An error is
/// told, and keeps the window from closing; the status changes only where no newer work
/// has begun since.
pub proof fn answers_to_saving_are_counted(
    app: AppView,
    generation: u64,
    saved: Result<Seq<char>, Seq<char>>,
)
    ensures
        ({
            let after = app.save_answered(generation, saved);
            &&& app.cache_saves > 0 ==> after.cache_saves == app.cache_saves - 1
            &&& app.cache_saves == 0 ==> after.cache_saves == 0
            &&& saved is Ok ==> after.error == app.error && after.closing == app.closing
            &&& saved is Err ==> after.error is Some && !after.closing
            &&& generation != app.cache_generation ==> after.cache_status == app.cache_status
            &&& after == AppView {
                cache_saves: after.cache_saves,
                error: after.error,
                closing: after.closing,
                cache_status: after.cache_status,
                ..app
            }
        }),
{
}

/// Only a finished map is saved, and only where saved maps are kept: as it is shown,
/// under the generation of now. Before a stopped one is not saved that is said, and
/// nothing else changes.
pub proof fn only_finished_maps_are_saved(
    app: AppView,
    request: Option<Request>,
    shown: Option<Arc<Report>>,
    now: Timestamp,
)
    ensures
        app.saves() <==> app.cache && app.report is Some && !app.report->0.cancelled
            && !app.report->0.scanning,
        is_save(request, app, shown, now) && !(app.cache && app.report is Some
            && !app.report->0.cancelled && !app.report->0.scanning) ==> request is None,
        is_save(request, app, shown, now) && app.cache && app.report is Some
            && !app.report->0.cancelled && !app.report->0.scanning ==> request is Some
            && request->0 is Save && request->0->Save_generation == app.cache_generation && Some(
            request->0->report,
        ) == shown && request->0->saved_at == now,
        app.before_saving() == (AppView { cache_status: app.before_saving().cache_status, ..app }),
        app.saves() || !app.cache || app.report is None ==> app.before_saving() == app,
{
}

/// A map may be refreshed where nothing runs and it is a finished one, but not the demo,
/// which took no time.
pub proof fn idle_windows_refresh_finished_maps(app: AppView)
    ensures
        DiskApp::refreshable(app) <==> !app.scanning && !app.refreshing && app.report is Some
            && !app.report->0.scanning && (app.report->0.elapsed.seconds > 0
            || app.report->0.elapsed.nanos > 0),
{
}

/// What is said about the map: that a folder is refreshed, that it is a saved map, that
/// it is a preview, that it was stopped, or that it is complete; in that order, and in
/// the language of the window.
pub proof fn the_status_tells_what_is_shown(app: DiskApp)
    ensures
        ({
            let said = app.map_status();
            let korean = app.language == Language::Korean;
            let view = app@;
            &&& view.report is None ==> said is None
            &&& view.report is Some && view.refreshing ==> said == Some(
                if korean {
                    "현재 폴더 재스캔 중 · 지도는 이전 결과"@
                } else {
                    "Refreshing folder · Showing previous map"@
                },
            )
            &&& view.report is Some && !view.refreshing && view.cached_at is Some ==> said == Some(
                if korean {
                    "저장된 결과"@
                } else {
                    "Saved map"@
                },
            )
            &&& view.report is Some && !view.refreshing && view.cached_at is None
                && view.report->0.scanning ==> said == Some(
                if korean {
                    "스캔 중 · 잠정 지도"@
                } else {
                    "Scanning · Preview map"@
                },
            )
            &&& view.report is Some && !view.refreshing && view.cached_at is None
                && !view.report->0.scanning && view.report->0.cancelled ==> said == Some(
                if korean {
                    "중지된 부분 결과"@
                } else {
                    "Stopped · Partial results"@
                },
            )
            &&& view.report is Some && !view.refreshing && view.cached_at is None
                && !view.report->0.scanning && !view.report->0.cancelled ==> said == Some(
                if korean {
                    "스캔 완료"@
                } else {
                    "Scan complete"@
                },
            )
        }),
{
}


/// A refresh begins with the map, the open folder, the selection and the candidates as
/// they are; an earlier error is forgotten, and no saved map that was asked for before
/// is waited for.
pub proof fn refreshes_begin_with_the_map(app: AppView, target: int)
    ensures
        ({
            let after = app.refresh_begun(target);
            &&& after.refreshing
            &&& after.error is None
            &&& !after.cache_loading
            &&& shows_sum(after.cache_generation, app.cache_generation + 1)
            &&& after.report == app.report
            &&& after.focus == app.focus
            &&& after.children == app.children
            &&& after.selected_path == app.selected_path
            &&& after.candidates == app.candidates
            &&& after.candidate_count == app.candidate_count
            &&& after.cached_at == app.cached_at
            &&& after.progress == app.progress
            &&& after.scanning == app.scanning
            &&& after.path == app.path
            &&& after.cache == app.cache
            &&& after.cache_saves == app.cache_saves
            &&& after.closing == app.closing
            &&& after.now == app.now
            &&& same_settings(after, app)
        }),
{
}

/// To ask for a saved map begins a new generation and changes nothing else, so that an
/// answer to an earlier question is known as such.
pub proof fn questions_have_their_own_generation(app: AppView)
    ensures
        shows_sum(app.map_asked().cache_generation, app.cache_generation + 1),
        app.map_asked() == (AppView {
            cache_generation: app.map_asked().cache_generation,
            ..app
        }),
{
}

/// The window does not close while something is still to be saved: a wish to close
/// then waits, and is met once nothing is. Wishes to save are counted one by one.
pub proof fn the_window_closes_once_all_is_saved(app: AppView, requested: bool)
    ensures
        app.close_wish(requested).0 <==> requested && app.cache_saves > 0,
        app.close_wish(requested).1 ==> app.cache_saves == 0,
        app.cache_saves == 0 && app.closing ==> app.close_wish(requested).1,
        app.cache_saves == 0 && !app.closing ==> !app.close_wish(requested).1,
        app.cache_saves < usize::MAX ==> app.one_more_save() == app.cache_saves + 1,
        app.cache_saves == usize::MAX ==> app.one_more_save() == usize::MAX,
{
}

} // verus!
