//! What holds of the application as a whole: of several operations together, or
//! of every state it can be in.

use crate::annotate::{
    columns_of, cursor_after, cursor_step, first_after, note_under, note_with_id, occurrences, on_line,
    retold, CommitModel, CursorCommand,
};
use crate::annotation::{base_cells, base_start, gutter};
use crate::app::{
    is_hidden, mark_at, mark_below, mark_for_line, place_of, shown_paths, AppModel, CursorState, DiffMode,
    FileListMode, Focus, QUIT_WINDOW, SubjectModel,
};
use crate::events::{EffectModel, Key, MouseKind};
use crate::external::in_root;
use crate::git::StatusModel;
use crate::hunks::{marks_of, MarkModel};
use crate::keys::keys_go_to_what_is_shown;
use crate::motion::{
    in_file, indent, line_motions_stay_in_file, motions_count_from_one, motions_in_an_empty_file, next_word,
    paragraph_end, paragraph_start, previous_word, section_above, section_below, word_last,
    word_motions_end_on_a_line, word_motions_keep_direction,
};
use crate::notebook::{is_orderly, on_shelf, performed, saved, saving_replaces_one_page, Shelf};
use crate::notes::{covered_text, precedes, selected_text, NoteModel, Position, SelKind};
use crate::screen::{greatest, left_of};
use crate::style::SpanModel;
use crate::text::{
    first_occurrence, lemma_first_occurrence, lemma_run_before, lemma_trimmed_start_len, lowercase,
    occurs_at, pieces, run_before, trimmed,
};
use vstd::prelude::*;

verus! {

// ---- Leaving -----------------------------------------------------------------

/// Ctrl+D leaves the program, in whatever state it is.
pub proof fn ctrl_d_leaves(m: AppModel, now: u64, id: u64, created_at: Seq<char>)
    ensures
        m.key_pressed(Key::Char('d'), true, now, id, created_at).0.quit,
{
}

/// Ctrl+C leaves the program when it is pressed twice within the window.
pub proof fn second_ctrl_c_leaves(m: AppModel, t1: u64, t2: u64, id: u64, created_at: Seq<char>)
    requires
        t1 <= t2,
        t2 - t1 < QUIT_WINDOW,
    ensures
        ({
            let c = Key::Char('c');
            let once = m.key_pressed(c, true, t1, id, created_at).0;
            once.key_pressed(c, true, t2, id, created_at).0.quit
        }),
{
}

/// Pressed once, or again only after the window has passed, Ctrl+C does not leave
/// the program.
pub proof fn slow_ctrl_c_stays(m: AppModel, t1: u64, t2: u64, id: u64, created_at: Seq<char>)
    requires
        !m.quit,
        m.pending_quit is None,
        t1 + QUIT_WINDOW <= t2,
    ensures
        ({
            let c = Key::Char('c');
            let once = m.key_pressed(c, true, t1, id, created_at).0;
            !once.quit && !once.key_pressed(c, true, t2, id, created_at).0.quit
        }),
{
}

/// The window of Ctrl+C is two seconds, by a clock that counts nanoseconds.
pub proof fn quitting_takes_two_in_two_seconds(m: AppModel, t1: u64, t2: u64, id: u64, created_at: Seq<char>)
    requires
        !m.quit,
        m.pending_quit is None,
        t1 <= t2,
    ensures
        ({
            let c = Key::Char('c');
            let once = m.key_pressed(c, true, t1, id, created_at).0;
            let twice = once.key_pressed(c, true, t2, id, created_at).0;
            !once.quit && (twice.quit <==> t2 - t1 < 2_000_000_000)
        }),
{
}

/// Whether two states agree on leaving.
spec fn same_leaving(a: AppModel, b: AppModel) -> bool {
    a.quit == b.quit && a.pending_quit == b.pending_quit
}

proof fn lemma_bound_does_not_leave(m: AppModel, key: Key)
    ensures
        same_leaving(m.bound_key(key).0, m),
{
    reveal(AppModel::bound_key);
    reveal(AppModel::asking_key);
    reveal(AppModel::moving_key);
    reveal(AppModel::switching_key);
}

proof fn lemma_steps_do_not_leave(m: AppModel, s: AppModel)
    requires
        same_leaving(s, m),
    ensures
        same_leaving(s.not_annotating(), m),
        same_leaving(s.yanked(), m),
        same_leaving(s.note_deleted().0.following_cursor().stale(), m),
        same_leaving(s.note_begun().following_cursor().stale(), m),
        same_leaving(
            (AppModel { find: Some(Seq::empty()), ..s }).saying(Seq::empty()).following_cursor().stale(),
            m,
        ),
        same_leaving(s.following_cursor().stale(), m),
{
    reveal(AppModel::note_begun);
    reveal(AppModel::note_deleted);
    reveal(AppModel::yanked);
}

proof fn lemma_cursor_does_not_leave(m: AppModel, key: Key)
    ensures
        same_leaving(m.cursor_key(key).0, m),
{
    reveal(AppModel::cursor_key);
    if let Some(c) = m.cursor {
        lemma_steps_do_not_leave(m, m.with_cursor(cursor_after(c, key, m.annotate_lines)));
    }
}

proof fn lemma_file_key_does_not_leave(m: AppModel, key: Key)
    ensures
        same_leaving(m.file_key(key).0, m),
{
    reveal(AppModel::file_key);
    lemma_bound_does_not_leave(m, key);
    lemma_cursor_does_not_leave(m, key);
    lemma_cursor_does_not_leave(m.focusing(Focus::Right), key);
}

proof fn lemma_typing_does_not_leave(m: AppModel, key: Key, ctrl: bool, id: u64, created_at: Seq<char>)
    ensures
        same_leaving(m.find_key(key, ctrl), m),
        same_leaving(m.input_key(key, ctrl, id, created_at).0, m),
{
    reveal(AppModel::find_key);
    reveal(AppModel::input_key);
    reveal(AppModel::found);
    reveal(AppModel::note_committed);
}

/// What leaves the program: Ctrl+D does; Ctrl+C does exactly when one came less than
/// the window before it, and else is pending from then on; Ctrl+Z changes nothing;
/// and no other key leaves it, or lets a Ctrl+C pend.
pub proof fn what_leaves(m: AppModel, key: Key, ctrl: bool, now: u64, id: u64, created_at: Seq<char>)
    requires
        !m.quit,
    ensures
        ({
            let after = m.key_pressed(key, ctrl, now, id, created_at).0;
            if ctrl && (key == Key::Char('d') || key == Key::Char('D')) {
                after.quit
            } else if ctrl && (key == Key::Char('c') || key == Key::Char('C')) {
                let soon = m.pending_quit matches Some(t) && left_of(now as int, t as int) < QUIT_WINDOW;
                after.quit == soon && (!soon ==> after.pending_quit == Some(now))
            } else if ctrl && (key == Key::Char('z') || key == Key::Char('Z')) {
                after == m
            } else {
                !after.quit && after.pending_quit is None
            }
        }),
{
    let s = m.settled();
    lemma_typing_does_not_leave(s, key, ctrl, id, created_at);
    lemma_bound_does_not_leave(s, key);
    lemma_file_key_does_not_leave(s, key);
}

/// Two Ctrl+C with another key between them do not leave the program.
pub proof fn key_between_cancels_ctrl_c(
    m: AppModel,
    key: Key,
    ctrl: bool,
    t1: u64,
    t2: u64,
    t3: u64,
    id: u64,
    created_at: Seq<char>,
)
    requires
        !m.quit,
        m.pending_quit is None,
        !(ctrl && (key == Key::Char('c') || key == Key::Char('C') || key == Key::Char('d') || key
            == Key::Char('D') || key == Key::Char('z') || key == Key::Char('Z'))),
    ensures
        ({
            let c = Key::Char('c');
            let once = m.key_pressed(c, true, t1, id, created_at).0;
            let other = once.key_pressed(key, ctrl, t2, id, created_at).0;
            !other.key_pressed(c, true, t3, id, created_at).0.quit
        }),
{
    let c = Key::Char('c');
    let once = m.key_pressed(c, true, t1, id, created_at).0;
    what_leaves(m, c, true, t1, id, created_at);
    what_leaves(once, key, ctrl, t2, id, created_at);
    what_leaves(once.key_pressed(key, ctrl, t2, id, created_at).0, c, true, t3, id, created_at);
}

// ---- The list ----------------------------------------------------------------

proof fn lemma_place(paths: Seq<Seq<char>>, path: Seq<char>, from: int)
    requires
        0 <= from,
        exists|i: int| from <= i < paths.len() && paths[i] == path,
    ensures
        place_of(paths, path, from) matches Some(i) && from <= i < paths.len() && paths[i] == path,
    decreases paths.len() - from,
{
    if paths[from] != path {
        lemma_place(paths, path, from + 1);
    }
}

/// The file that is selected stays selected when the list changes (another mode,
/// hidden files, a reload), as long as it is still in the list.
pub proof fn selection_is_kept(m: AppModel, path: Seq<char>)
    requires
        m.visible().contains(path),
        m.visible().len() < usize::MAX,
    ensures
        m.selecting_path(Some(path)).selected_file() == Some(path),
{
    lemma_place(m.visible(), path, 0);
    let s = m.selecting_path(Some(path));
    assert(s.visible() == m.visible());
}

/// A file that is opened is the one that is viewed, and the one that is selected
/// if it is in the list.
pub proof fn opened_file_is_viewed(m: AppModel, path: Seq<char>, line: Option<usize>)
    requires
        m.visible().len() < usize::MAX,
    ensures
        m.opening(path, line).view == SubjectModel::File(path, line),
        m.visible().contains(path) ==> m.opening(path, line).selected_file() == Some(path),
        !m.visible().contains(path) ==> m.opening(path, line).selected is None,
{
    let s = m.opening(path, line);
    assert(s.visible() == m.visible());
    if m.visible().contains(path) {
        lemma_place(m.visible(), path, 0);
    } else {
        lemma_no_place(m.visible(), path, 0);
    }
}

proof fn lemma_no_place(paths: Seq<Seq<char>>, path: Seq<char>, from: int)
    requires
        0 <= from,
        !paths.contains(path),
    ensures
        place_of(paths, path, from) is None,
    decreases paths.len() - from,
{
    if from < paths.len() {
        lemma_no_place(paths, path, from + 1);
    }
}

/// A file with notes opens in the annotate view, every other in the diff view.
pub proof fn annotated_files_open_annotated(m: AppModel, path: Seq<char>, line: Option<usize>)
    ensures
        m.opening(path, line).annotate == (m.notes_of(path).len() > 0),
{
}

/// Whether a component of a path starts with a dot: a dot stands at its start or
/// behind a slash.
pub open spec fn is_dotted(path: Seq<char>) -> bool {
    exists|i: int| 0 <= i < path.len() && #[trigger] path[i] == '.' && (i == 0 || path[i - 1] == '/')
}

proof fn lemma_dotted(path: Seq<char>)
    ensures
        is_hidden(path) <==> is_dotted(path),
    decreases path.len(),
{
    let n = run_before(path, '/') as int;
    lemma_run_before(path, '/');
    let all = pieces(path, '/');
    if n < path.len() {
        let (first, rest) = (path.take(n), path.skip(n + 1));
        lemma_dotted(rest);
        let tail = pieces(rest, '/');
        assert(all == seq![first] + tail);
        if is_hidden(path) {
            let i = choose|i: int| 0 <= i < all.len() && (#[trigger] all[i]).len() > 0 && all[i][0] == '.';
            if i == 0 {
                assert(path[0] == '.');
            } else {
                assert(tail[i - 1] == all[i]);
                assert(is_hidden(rest));
                let k = choose|k: int|
                    0 <= k < rest.len() && #[trigger] rest[k] == '.' && (k == 0 || rest[k - 1] == '/');
                assert(path[n + 1 + k] == '.');
                if k > 0 {
                    assert(path[n + k] == rest[k - 1]);
                }
            }
        }
        if is_dotted(path) {
            let i = choose|i: int| 0 <= i < path.len() && #[trigger] path[i] == '.' && (i == 0 || path[i - 1] == '/');
            if i < n {
                if i > 0 {
                    assert(path[i - 1] != '/');
                }
                assert(all[0] == first);
                assert(first[0] == '.');
            } else {
                assert(i > n);
                assert(rest[i - n - 1] == '.');
                if i - n - 1 > 0 {
                    assert(rest[i - n - 2] == path[i - 1]);
                }
                assert(is_dotted(rest));
                let k = choose|k: int| 0 <= k < tail.len() && (#[trigger] tail[k]).len() > 0 && tail[k][0] == '.';
                assert(all[k + 1] == tail[k]);
            }
        }
    } else {
        assert(all == seq![path]);
        if is_hidden(path) {
            let i = choose|i: int| 0 <= i < all.len() && (#[trigger] all[i]).len() > 0 && all[i][0] == '.';
            assert(path[0] == '.');
        }
        if is_dotted(path) {
            let i = choose|i: int| 0 <= i < path.len() && #[trigger] path[i] == '.' && (i == 0 || path[i - 1] == '/');
            if i > 0 {
                assert(path[i - 1] != '/');
            }
            assert(all[0] == path);
        }
    }
}

proof fn lemma_shown(paths: Seq<Seq<char>>, show_hidden: bool)
    ensures
        shown_paths(paths, show_hidden) == paths.filter(|p: Seq<char>| show_hidden || !is_dotted(p)),
    decreases paths.len(),
{
    reveal(Seq::filter);
    if paths.len() > 0 {
        lemma_shown(paths.drop_last(), show_hidden);
        lemma_dotted(paths.last());
    }
}

/// The list has the files of the repository, or those that have changed, in their
/// order: all of them, or without those in which a component starts with a dot.
pub proof fn list_shows_the_files(m: AppModel)
    ensures
        m.file_list_mode == FileListMode::All ==> m.visible() == m.all_files.filter(
            |p: Seq<char>| m.show_hidden || !is_dotted(p),
        ),
        m.file_list_mode == FileListMode::Changes ==> m.visible() == m.files.map_values(
            |f: StatusModel| f.path,
        ).filter(|p: Seq<char>| m.show_hidden || !is_dotted(p)),
{
    lemma_shown(m.all_files, m.show_hidden);
    lemma_shown(m.files.map_values(|f: StatusModel| f.path), m.show_hidden);
}

/// A file is looked up at the first place where it stands.
pub proof fn files_are_found_at_their_first_place(m: AppModel, path: Seq<char>, i: int)
    requires
        m.visible().len() < usize::MAX,
        0 <= i < m.visible().len(),
        m.visible()[i] == path,
        forall|j: int| 0 <= j < i ==> #[trigger] m.visible()[j] != path,
    ensures
        m.selecting_path(Some(path)).selected == Some((i + 1) as usize),
        m.opening(path, None).selected == Some((i + 1) as usize),
{
    lemma_first_place(m.visible(), path, 0, i);
}

proof fn lemma_first_place(paths: Seq<Seq<char>>, path: Seq<char>, from: int, i: int)
    requires
        0 <= from <= i < paths.len(),
        paths[i] == path,
        forall|j: int| 0 <= j < i ==> #[trigger] paths[j] != path,
    ensures
        place_of(paths, path, from) == Some(i),
    decreases i - from,
{
    if from < i {
        lemma_first_place(paths, path, from + 1, i);
    }
}

/// The rows of the list are the project and its files, and `j` and `k` go through them
/// one by one: from row `i` to the one below it and back, and no further than to the
/// ends. What is selected is what is viewed, from its top.
#[verifier::rlimit(40)]
pub proof fn list_is_walked_row_by_row(m: AppModel, i: int, now: u64, id: u64, created_at: Seq<char>)
    requires
        m.input is None,
        m.find is None,
        !m.show_help,
        m.focus == Focus::Left,
        m.show_left,
        m.selected == Some(i as usize),
        0 <= i <= m.visible().len() < usize::MAX,
    ensures
        ({
            let n = m.visible().len() as int;
            let down = m.key_pressed(Key::Char('j'), false, now, id, created_at).0;
            let up = m.key_pressed(Key::Char('k'), false, now, id, created_at).0;
            let top = m.key_pressed(Key::Char('g'), false, now, id, created_at).0;
            let end = m.key_pressed(Key::Char('G'), false, now, id, created_at).0;
            &&& down.selected == Some((if i < n { i + 1 } else { n }) as usize)
            &&& up.selected == Some((if i > 0 { i - 1 } else { 0 }) as usize)
            &&& top.selected == Some(0usize)
            &&& end.selected == Some(n as usize)
            &&& i < n ==> down.view == SubjectModel::File(m.visible()[i], None) && down.scroll == 0
            &&& i > 1 ==> up.view == SubjectModel::File(m.visible()[i - 2], None) && up.scroll == 0
            &&& i == 1 ==> up.view is Home
            &&& n > 0 ==> end.view == SubjectModel::File(m.visible()[n - 1], None)
            &&& top.view is Home && top.scroll == 0
            &&& down.visible() == m.visible() && up.visible() == m.visible()
        }),
{
    keys_go_to_what_is_shown(m, Key::Char('j'), now, id, created_at);
    keys_go_to_what_is_shown(m, Key::Char('k'), now, id, created_at);
    keys_go_to_what_is_shown(m, Key::Char('g'), now, id, created_at);
    keys_go_to_what_is_shown(m, Key::Char('G'), now, id, created_at);
    let s = m.settled();
    assert(s.visible() == m.visible());
    lemma_list_keys(s, i);
    lemma_at_row(s, if i < m.visible().len() { i + 1 } else { i });
    lemma_at_row(s, if i > 0 { i - 1 } else { 0 });
    lemma_at_row(s, 0);
    lemma_at_row(s, m.visible().len() as int);
}

#[verifier::rlimit(40)]
proof fn lemma_list_keys(s: AppModel, i: int)
    requires
        s.focus == Focus::Left,
        s.show_left,
        s.selected == Some(i as usize),
        0 <= i <= s.visible().len() < usize::MAX,
    ensures
        s.bound_key(Key::Char('j')).0 == s.at_row(if i < s.visible().len() { i + 1 } else { i }),
        s.bound_key(Key::Char('k')).0 == s.at_row(if i > 0 { i - 1 } else { 0 }),
        s.bound_key(Key::Char('g')).0 == s.at_row(0),
        s.bound_key(Key::Char('G')).0 == s.at_row(s.visible().len() as int),
{
    reveal(AppModel::bound_key);
    reveal(AppModel::moving_key);
}

/// A row that is selected is the one that is shown.
proof fn lemma_at_row(s: AppModel, i: int)
    requires
        0 <= i <= s.visible().len() < usize::MAX,
    ensures
        s.at_row(i).selected == Some(i as usize),
        s.at_row(i).visible() == s.visible(),
        s.at_row(i).scroll == 0,
        i == 0 ==> s.at_row(i).view is Home,
        i > 0 ==> s.at_row(i).view == SubjectModel::File(s.visible()[i - 1], None),
{
    assert(s.selecting(Some(i as usize)).visible() == s.visible());
}

// ---- The preview -------------------------------------------------------------

/// However the preview is scrolled, it shows no rows past its last screenful, as
/// long as its rows can be counted.
pub proof fn scrolling_stays_in_range(m: AppModel, delta: int, row: u16)
    requires
        m.preview.len() < 0x1_0000,
    ensures
        m.scrolled_by(delta).scroll <= left_of(
            m.preview.len() as int,
            greatest(m.preview_height as int, 1),
        ),
        m.scrolled_to(row).scroll <= left_of(
            m.preview.len() as int,
            greatest(m.preview_height as int, 1),
        ),
{
}

proof fn lemma_mark_below(m: AppModel, k: int)
    requires
        0 <= k <= m.hunks.len(),
    ensures
        mark_below(m.hunks.skip(k), m.scroll as int) matches Some(h) ==> h.offset > m.scroll,
    decreases m.hunks.len() - k,
{
    if k < m.hunks.len() {
        lemma_mark_below(m, k + 1);
        assert(m.hunks.skip(k).skip(1) =~= m.hunks.skip(k + 1));
    }
}

proof fn lemma_mark_at(m: AppModel, k: int, row: int)
    requires
        0 <= k <= m.hunks.len(),
    ensures
        mark_at(m.hunks.take(k), row) matches Some(h) ==> h.offset <= row,
    decreases k,
{
    if k > 0 {
        lemma_mark_at(m, k - 1, row);
        assert(m.hunks.take(k).drop_last() =~= m.hunks.take(k - 1));
    }
}

/// The next hunk is never above the top of the preview, and the previous one is
/// never below it.
pub proof fn hunks_are_jumped_to_in_order(m: AppModel)
    requires
        m.hunks.len() > 0,
        m.clamped().scroll == m.scroll,
    ensures
        m.jumped(true).scroll >= m.scroll,
        m.jumped(false).scroll <= m.scroll,
{
    lemma_mark_below(m, 0);
    assert(m.hunks.skip(0) =~= m.hunks);
    lemma_mark_at(m, m.hunks.len() as int, m.scroll - 1);
    assert(m.hunks.take(m.hunks.len() as int) =~= m.hunks);
}

/// The file that is selected stays selected, and is shown, when hidden files or other
/// files are listed, as long as it is still in the list; else the project is.
#[verifier::rlimit(40)]
pub proof fn switching_lists_keeps_the_file(m: AppModel, path: Seq<char>)
    requires
        m.selected_file() == Some(path),
        m.hidden_toggled().visible().len() < usize::MAX,
        m.mode_toggled().visible().len() < usize::MAX,
    ensures
        ({
            let (h, o) = (m.hidden_toggled(), m.mode_toggled());
            &&& h.visible().contains(path) ==> h.selected_file() == Some(path) && h.view == SubjectModel::File(path, None)
            &&& !h.visible().contains(path) ==> h.selected == Some(0usize) && h.view is Home
            &&& o.visible().contains(path) ==> o.selected_file() == Some(path) && o.view == SubjectModel::File(path, None)
            &&& !o.visible().contains(path) ==> o.selected == Some(0usize) && o.view is Home
        }),
{
    let a = AppModel { show_hidden: !m.show_hidden, ..m };
    let b = AppModel { file_list_mode: m.file_list_mode.other(), ..m };
    let (s, t) = (
        a.selecting_path(Some(path)).viewing_selected(),
        b.selecting_path(Some(path)).viewing_selected(),
    );
    lemma_saying(s, m.hidden_toggled().message);
    lemma_saying(t, m.mode_toggled().message);
    assert(m.hidden_toggled() == s.saying(m.hidden_toggled().message));
    assert(m.mode_toggled() == t.saying(m.mode_toggled().message));
    lemma_reselected_visible(a, path);
    lemma_reselected_visible(b, path);
    lemma_reselected(a, path);
    lemma_reselected(b, path);
}

proof fn lemma_saying(s: AppModel, message: Seq<char>)
    ensures
        s.saying(message).visible() == s.visible(),
        s.saying(message).selected_file() == s.selected_file(),
        s.saying(message).selected == s.selected,
        s.saying(message).view == s.view,
{
}

proof fn lemma_reselected_visible(a: AppModel, path: Seq<char>)
    ensures
        a.selecting_path(Some(path)).viewing_selected().visible() == a.visible(),
{
}

#[verifier::rlimit(40)]
proof fn lemma_reselected(a: AppModel, path: Seq<char>)
    requires
        a.visible().len() < usize::MAX,
    ensures
        ({
            let s = a.selecting_path(Some(path));
            let t = s.viewing_selected();
            &&& s.visible() == a.visible() && t.visible() == a.visible()
            &&& t.selected == s.selected
            &&& a.visible().contains(path) ==> t.selected_file() == Some(path) && t.view == SubjectModel::File(path, None)
            &&& !a.visible().contains(path) ==> t.selected == Some(0usize) && t.view is Home
        }),
{
    let s = a.selecting_path(Some(path));
    assert(s.visible() == a.visible());
    if a.visible().contains(path) {
        lemma_place(a.visible(), path, 0);
    } else {
        lemma_no_place(a.visible(), path, 0);
    }
}

/// In the view of a file the editor opens that file, at the line of the hunk at the top
/// if it has hunks.
pub proof fn editor_opens_the_shown_file(m: AppModel, path: Seq<char>, line: Option<usize>, h: int)
    requires
        m.view == SubjectModel::File(path, line),
        m.hunks.len() > 0 ==> 0 <= h < m.hunks.len() && (m.hunks[h].offset <= m.scroll || h == 0) && forall|j: int|
            h < j < m.hunks.len() ==> (#[trigger] m.hunks[j]).offset > m.scroll,
    ensures
        m.editing().1 == Some(
            EffectModel::Edit(in_root(m.root, path), if m.hunks.len() > 0 { Some(m.hunks[h].line) } else { None }),
        ),
{
    let i = lemma_at_is_last(m.hunks, m.scroll as int);
    if m.hunks.len() > 0 && mark_at(m.hunks, m.scroll as int) is Some {
        assert(m.hunks[i].offset <= m.scroll);
        if i < h {
            assert(m.hunks[h].offset > m.scroll);
        }
    }
}

/// Diffs are laid out as the mode says; the automatic one takes two columns from 120
/// cells on.
pub proof fn layout_goes_by_mode_and_width(m: AppModel)
    ensures
        m.diff_mode == DiffMode::SideBySide ==> m.is_side_by_side(),
        m.diff_mode == DiffMode::Stacked ==> !m.is_side_by_side(),
        m.diff_mode == DiffMode::Auto ==> (m.is_side_by_side() <==> m.preview_width >= 120),
{
}

/// The last row that the preview can be scrolled to.
pub open spec fn last_scroll(m: AppModel) -> int {
    let height = if m.preview_height > 1 { m.preview_height as int } else { 1int };
    if m.preview.len() > height { m.preview.len() - height } else { 0 }
}

/// In the preview `j` and `k` scroll by a row, the page keys by a screenful, and `g` and
/// `G` go to its ends.
#[verifier::rlimit(40)]
pub proof fn preview_is_scrolled_by_keys(m: AppModel, now: u64, id: u64, created_at: Seq<char>)
    requires
        m.input is None,
        m.find is None,
        !m.show_help,
        m.view is Home || !m.annotate,
        m.focus == Focus::Right || !m.show_left,
        m.preview.len() < 0x1_0000,
        m.scroll + m.preview_height + 1 < 0x1_0000,
    ensures
        ({
            let last = last_scroll(m);
            let (at, height) = (m.scroll as int, m.preview_height as int);
            let to = |n: int| if n < 0 { 0 } else if n > last { last } else { n };
            &&& m.key_pressed(Key::Char('j'), false, now, id, created_at).0.scroll == to(at + 1)
            &&& m.key_pressed(Key::Char('k'), false, now, id, created_at).0.scroll == to(at - 1)
            &&& m.key_pressed(Key::PageDown, false, now, id, created_at).0.scroll == to(at + height)
            &&& m.key_pressed(Key::Char(' '), false, now, id, created_at).0.scroll == to(at + height)
            &&& m.key_pressed(Key::PageUp, false, now, id, created_at).0.scroll == to(at - height)
            &&& m.key_pressed(Key::Char('g'), false, now, id, created_at).0.scroll == 0
            &&& m.key_pressed(Key::Char('G'), false, now, id, created_at).0.scroll == last
        }),
{
    let s = m.settled();
    keys_go_to_what_is_shown(m, Key::Char('j'), now, id, created_at);
    keys_go_to_what_is_shown(m, Key::Char('k'), now, id, created_at);
    keys_go_to_what_is_shown(m, Key::PageDown, now, id, created_at);
    keys_go_to_what_is_shown(m, Key::Char(' '), now, id, created_at);
    keys_go_to_what_is_shown(m, Key::PageUp, now, id, created_at);
    keys_go_to_what_is_shown(m, Key::Char('g'), now, id, created_at);
    keys_go_to_what_is_shown(m, Key::Char('G'), now, id, created_at);
    lemma_scroll_keys(s);
    scrolling_goes_as_told(s, 1, 0);
    scrolling_goes_as_told(s, -1, 0);
    scrolling_goes_as_told(s, m.preview_height as int, 0);
    scrolling_goes_as_told(s, -m.preview_height, m.preview.len() as u16);
}

#[verifier::rlimit(40)]
proof fn lemma_scroll_keys(s: AppModel)
    requires
        s.focus == Focus::Right || !s.show_left,
        s.preview.len() < 0x1_0000,
    ensures
        s.bound_key(Key::Char('j')).0 == s.scrolled_by(1),
        s.bound_key(Key::Char('k')).0 == s.scrolled_by(-1),
        s.bound_key(Key::PageDown).0 == s.scrolled_by(s.preview_height as int),
        s.bound_key(Key::Char(' ')).0 == s.scrolled_by(s.preview_height as int),
        s.bound_key(Key::PageUp).0 == s.scrolled_by(-s.preview_height),
        s.bound_key(Key::Char('g')).0.scroll == 0,
        s.bound_key(Key::Char('G')).0 == s.scrolled_to(s.preview.len() as u16),
{
    reveal(AppModel::bound_key);
    reveal(AppModel::moving_key);
}

/// Scrolling goes as far as it is told, up to the first row and down to the last
/// screenful.
pub proof fn scrolling_goes_as_told(m: AppModel, delta: int, row: u16)
    requires
        m.preview.len() < 0x1_0000,
        m.scroll + delta < 0x1_0000,
    ensures
        ({
            let (to, last) = (m.scroll + delta, last_scroll(m));
            m.scrolled_by(delta).scroll == (if to < 0 { 0 } else if to > last { last } else { to })
        }),
        m.scrolled_to(row).scroll == (if row > last_scroll(m) { last_scroll(m) } else { row as int }),
        m.scrolled_by(delta).preview == m.preview,
{
}

proof fn lemma_below_is_first(marks: Seq<MarkModel>, row: int) -> (i: int)
    ensures
        match mark_below(marks, row) {
            Some(h) => 0 <= i < marks.len() && h == marks[i] && marks[i].offset > row && forall|j: int|
                0 <= j < i ==> (#[trigger] marks[j]).offset <= row,
            None => forall|j: int| 0 <= j < marks.len() ==> (#[trigger] marks[j]).offset <= row,
        },
    decreases marks.len(),
{
    if marks.len() == 0 || marks[0].offset > row {
        0
    } else {
        let rest = marks.skip(1);
        let i = lemma_below_is_first(rest, row);
        assert forall|j: int| 1 <= j < marks.len() implies #[trigger] marks[j] == rest[j - 1] by {}
        i + 1
    }
}

proof fn lemma_at_is_last(marks: Seq<MarkModel>, row: int) -> (i: int)
    ensures
        match mark_at(marks, row) {
            Some(h) => 0 <= i < marks.len() && h == marks[i] && marks[i].offset <= row && forall|j: int|
                i < j < marks.len() ==> (#[trigger] marks[j]).offset > row,
            None => forall|j: int| 0 <= j < marks.len() ==> (#[trigger] marks[j]).offset > row,
        },
    decreases marks.len(),
{
    if marks.len() == 0 {
        0
    } else if marks.last().offset <= row {
        marks.len() - 1
    } else {
        let init = marks.drop_last();
        let i = lemma_at_is_last(init, row);
        assert forall|j: int| 0 <= j < marks.len() - 1 implies #[trigger] marks[j] == init[j] by {}
        i
    }
}

#[verifier::rlimit(40)]
proof fn lemma_hunk_keys(s: AppModel)
    ensures
        s.bound_key(Key::Char(']')) == (s.jumped(true), None::<EffectModel>),
        s.bound_key(Key::Char('[')) == (s.jumped(false), None::<EffectModel>),
        s.bound_key(Key::Enter) == (s.hunk_opened(), None::<EffectModel>),
        s.bound_key(Key::Char('e')) == s.editing(),
{
    reveal(AppModel::bound_key);
    reveal(AppModel::moving_key);
    reveal(AppModel::switching_key);
    reveal(AppModel::asking_key);
}

#[verifier::rlimit(40)]
proof fn lemma_jumps(m: AppModel, h: int)
    requires
        m.preview.len() < 0x1_0000,
        forall|i: int, j: int| 0 <= i < j < m.hunks.len() ==> (#[trigger] m.hunks[i]).offset <= (
        #[trigger] m.hunks[j]).offset,
        0 <= h < m.hunks.len(),
    ensures
        ({
            let (next, last) = (m.jumped(true).scroll, m.jumped(false).scroll);
            let at = m.hunks[h].offset;
            let to = if at > last_scroll(m) { last_scroll(m) } else { at as int };
            &&& at > m.scroll && (forall|j: int|
                0 <= j < m.hunks.len() && (#[trigger] m.hunks[j]).offset > m.scroll ==> at <= m.hunks[j].offset)
                ==> next == to
            &&& at < m.scroll && (forall|j: int|
                0 <= j < m.hunks.len() && (#[trigger] m.hunks[j]).offset < m.scroll ==> at >= m.hunks[j].offset)
                ==> last == to
            &&& (forall|j: int| 0 <= j < m.hunks.len() ==> (#[trigger] m.hunks[j]).offset <= m.scroll) ==> next == m.scroll
            &&& (forall|j: int| 0 <= j < m.hunks.len() ==> (#[trigger] m.hunks[j]).offset >= m.scroll) ==> last == m.scroll
        }),
{
    let i = lemma_below_is_first(m.hunks, m.scroll as int);
    let k = lemma_at_is_last(m.hunks, m.scroll - 1);
    let next = mark_below(m.hunks, m.scroll as int);
    let last = mark_at(m.hunks, m.scroll - 1);
    if next is Some {
        assert(m.hunks[i].offset > m.scroll);
        if h < i {
            assert(m.hunks[h].offset <= m.scroll);
        }
    }
    if last is Some {
        assert(m.hunks[k].offset < m.scroll);
        if k < h {
            assert(m.hunks[h].offset > m.scroll - 1);
        }
    }
}

/// `]` goes to the next hunk and `[` to the previous one: no hunk lies between, and
/// where there is none in that direction the preview stays. They go no further than to
/// the last screenful.
#[verifier::rlimit(40)]
pub proof fn hunk_keys_go_to_the_nearest(m: AppModel, h: int, now: u64, id: u64, created_at: Seq<char>)
    requires
        m.input is None,
        m.find is None,
        !m.show_help,
        !m.annotate,
        m.preview.len() < 0x1_0000,
        forall|i: int, j: int| 0 <= i < j < m.hunks.len() ==> (#[trigger] m.hunks[i]).offset <= (
        #[trigger] m.hunks[j]).offset,
        0 <= h < m.hunks.len(),
    ensures
        ({
            let next = m.key_pressed(Key::Char(']'), false, now, id, created_at).0.scroll;
            let last = m.key_pressed(Key::Char('['), false, now, id, created_at).0.scroll;
            let at = m.hunks[h].offset;
            let to = if at > last_scroll(m) { last_scroll(m) } else { at as int };
            &&& at > m.scroll && (forall|j: int|
                0 <= j < m.hunks.len() && (#[trigger] m.hunks[j]).offset > m.scroll ==> at <= m.hunks[j].offset)
                ==> next == to
            &&& at < m.scroll && (forall|j: int|
                0 <= j < m.hunks.len() && (#[trigger] m.hunks[j]).offset < m.scroll ==> at >= m.hunks[j].offset)
                ==> last == to
            &&& (forall|j: int| 0 <= j < m.hunks.len() ==> (#[trigger] m.hunks[j]).offset <= m.scroll) ==> next == m.scroll
            &&& (forall|j: int| 0 <= j < m.hunks.len() ==> (#[trigger] m.hunks[j]).offset >= m.scroll) ==> last == m.scroll
        }),
{
    keys_go_to_what_is_shown(m, Key::Char(']'), now, id, created_at);
    keys_go_to_what_is_shown(m, Key::Char('['), now, id, created_at);
    lemma_hunk_keys(m.settled());
    lemma_jumps(m.settled(), h);
}

/// Enter opens the file of the hunk at the top of the preview at the line of the hunk:
/// of the last hunk that starts at or above the top row, or of the first one if all
/// start below.
#[verifier::rlimit(40)]
pub proof fn enter_opens_the_hunk(
    m: AppModel,
    h: int,
    path: Seq<char>,
    now: u64,
    id: u64,
    created_at: Seq<char>,
)
    requires
        m.input is None,
        m.find is None,
        !m.show_help,
        m.view is Home,
        0 <= h < m.hunks.len(),
        m.hunks[h].path == Some(path),
        m.hunks[h].offset <= m.scroll || h == 0,
        forall|j: int| h < j < m.hunks.len() ==> (#[trigger] m.hunks[j]).offset > m.scroll,
    ensures
        m.key_pressed(Key::Enter, false, now, id, created_at).0.view == SubjectModel::File(
            path,
            Some(m.hunks[h].line),
        ),
        m.key_pressed(Key::Char('e'), false, now, id, created_at).1 == Some(
            EffectModel::Edit(in_root(m.root, path), Some(m.hunks[h].line)),
        ),
{
    keys_go_to_what_is_shown(m, Key::Enter, now, id, created_at);
    keys_go_to_what_is_shown(m, Key::Char('e'), now, id, created_at);
    lemma_hunk_keys(m.settled());
    let i = lemma_at_is_last(m.hunks, m.scroll as int);
    let s = m.settled();
    assert(s.hunks == m.hunks);
    if mark_at(m.hunks, m.scroll as int) is Some {
        assert(m.hunks[i].offset <= m.scroll);
        if i < h {
            assert(m.hunks[h].offset > m.scroll);
        }
    }
}

proof fn lemma_for_line_is_last(marks: Seq<MarkModel>, l: usize) -> (i: int)
    ensures
        match mark_for_line(marks, l) {
            Some(h) => 0 <= i < marks.len() && h == marks[i] && marks[i].line <= l && forall|j: int|
                i < j < marks.len() ==> (#[trigger] marks[j]).line > l,
            None => forall|j: int| 0 <= j < marks.len() ==> (#[trigger] marks[j]).line > l,
        },
    decreases marks.len(),
{
    if marks.len() == 0 {
        0
    } else if marks.last().line <= l {
        marks.len() - 1
    } else {
        let init = marks.drop_last();
        let i = lemma_for_line_is_last(init, l);
        assert forall|j: int| 0 <= j < marks.len() - 1 implies #[trigger] marks[j] == init[j] by {}
        i
    }
}

/// A file that is opened at a line is shown from that line on: its content from the row
/// of the line, its diff from the last hunk that starts at the line or before it.
#[verifier::rlimit(40)]
pub proof fn opened_line_is_shown(m: AppModel, path: Seq<char>, l: usize, lines: Seq<Seq<SpanModel>>, h: int)
    requires
        m.view == SubjectModel::File(path, Some(l)),
        l >= 1,
        lines.len() < 0x1_0000,
    ensures
        ({
            let s = m.previewing(lines, false);
            s.scroll == (if l - 1 > last_scroll(s) { last_scroll(s) } else { l - 1 }) && s.preview == lines
        }),
        ({
            let s = m.previewing(lines, true);
            let marks = marks_of(lines);
            &&& s.hunks == marks
            &&& 0 <= h < marks.len() && (marks[h].line <= l || h == 0) && (forall|j: int|
                h < j < marks.len() ==> (#[trigger] marks[j]).line > l) ==> s.scroll == (if marks[h].offset
                > last_scroll(s) {
                last_scroll(s)
            } else {
                marks[h].offset as int
            })
        }),
{
    let content = AppModel { preview: lines, hunks: Seq::empty(), ..m };
    let diff = AppModel { preview: lines, hunks: marks_of(lines), ..m };
    lemma_row_of_line(content, l, h);
    lemma_row_of_line(diff, l, h);
    lemma_previewing(m, path, l, lines);
    scrolling_goes_to(content, content.row_of_line(l));
    scrolling_goes_to(diff, diff.row_of_line(l));
}

/// A preview that is scrolled to a row is there, or at its last screenful.
proof fn scrolling_goes_to(m: AppModel, row: u16)
    requires
        m.preview.len() < 0x1_0000,
    ensures
        m.scrolled_to(row).scroll == (if row > last_scroll(m) { last_scroll(m) } else { row as int }),
        m.scrolled_to(row).preview == m.preview,
        m.scrolled_to(row).hunks == m.hunks,
        last_scroll(m.scrolled_to(row)) == last_scroll(m),
        0 <= last_scroll(m) < 0x1_0000,
{
}

proof fn lemma_previewing(m: AppModel, path: Seq<char>, l: usize, lines: Seq<Seq<SpanModel>>)
    requires
        m.view == SubjectModel::File(path, Some(l)),
    ensures
        ({
            let content = AppModel { preview: lines, hunks: Seq::empty(), ..m };
            let diff = AppModel { preview: lines, hunks: marks_of(lines), ..m };
            &&& m.previewing(lines, false) == content.scrolled_to(content.row_of_line(l))
            &&& m.previewing(lines, true) == diff.scrolled_to(diff.row_of_line(l))
        }),
{
}

proof fn lemma_row_of_line(m: AppModel, l: usize, h: int)
    requires
        l >= 1,
    ensures
        m.hunks.len() == 0 ==> m.row_of_line(l) == (if l - 1 > u16::MAX { u16::MAX as int } else { l - 1 }),
        0 <= h < m.hunks.len() && (m.hunks[h].line <= l || h == 0) && (forall|j: int|
            h < j < m.hunks.len() ==> (#[trigger] m.hunks[j]).line > l) ==> m.row_of_line(l) == m.hunks[h].offset,
{
    let i = lemma_for_line_is_last(m.hunks, l);
    if 0 <= h < m.hunks.len() && mark_for_line(m.hunks, l) is Some {
        assert(m.hunks[i].line <= l);
        if i < h {
            assert(m.hunks[h].line > l);
        }
    }
}

// ---- The annotate view -------------------------------------------------------

/// The cursor's line is on the screen after every move, as long as a row of the
/// preview can count it.
pub proof fn cursor_is_on_screen(m: AppModel)
    requires
        m.cursor is Some,
        1 <= m.cursor.unwrap().line <= 0x1_0000,
    ensures
        ({
            let row = m.cursor.unwrap().line - 1;
            let s = m.following_cursor();
            s.scroll <= row < s.scroll + greatest(m.preview_height as int, 1)
        }),
{
}

/// The preview follows the cursor no further than it has to: a cursor that is on the
/// screen leaves it where it is, one above becomes the first row, one below the last.
pub proof fn preview_follows_the_cursor(m: AppModel, c: CursorState)
    requires
        m.cursor == Some(c),
        1 <= c.line <= 0x1_0000,
    ensures
        ({
            let row = c.line - 1;
            let height = if m.preview_height > 1 { m.preview_height as int } else { 1int };
            let s = m.following_cursor();
            &&& m.scroll <= row < m.scroll + height ==> s == m
            &&& row < m.scroll ==> s.scroll == row
            &&& row >= m.scroll + height ==> s.scroll + height - 1 == row
            &&& s.cursor == m.cursor
        }),
{
}

/// A file with notes that is opened at a line has the cursor there, at its start, and
/// nothing is selected.
pub proof fn opened_line_has_the_cursor(m: AppModel, path: Seq<char>, l: usize)
    requires
        l >= 1,
    ensures
        m.notes_of(path).len() > 0 ==> m.opening(path, Some(l)).cursor == Some(
            CursorState { line: l, col: 0, anchor: None, kind: SelKind::Char },
        ),
        m.notes_of(path).len() > 0 ==> m.opening(path, None).cursor == Some(
            CursorState { line: 1, col: 0, anchor: None, kind: SelKind::Char },
        ),
        m.notes_of(path).len() == 0 ==> m.opening(path, Some(l)).cursor is None,
        m.opening(path, Some(l)).scroll == 0,
        m.opening(path, Some(l)).needs_render,
{
}

/// A click beyond the end of a line leads to its end, one in the gutter to its start,
/// and one outside of the text, or on a border, to nothing.
pub proof fn click_comes_to_the_text(m: AppModel, line: usize, col: u16, row: u16)
    requires
        m.annotate,
        m.preview_area.width >= 2,
        m.preview_area.height >= 2,
        1 <= line <= m.annotate_lines.len(),
        m.annotate_lines[line - 1].len() <= usize::MAX,
        m.scroll <= line - 1,
        row == m.preview_area.y + 1 + (line - 1 - m.scroll),
    ensures
        ({
            let a = m.preview_area;
            let inside = a.x < col < a.x + a.width - 1 && row < a.y + a.height - 1;
            let from = col - a.x - 1 - m.annotate_gutter;
            let len = m.annotate_lines[line - 1].len() as int;
            &&& !inside ==> m.cell_at(col, row) is None
            &&& inside && from < 0 ==> m.cell_at(col, row) == Some((line, 0usize))
            &&& inside && 0 <= from <= len ==> m.cell_at(col, row) == Some((line, from as usize))
            &&& inside && from > len ==> m.cell_at(col, row) == Some((line, len as usize))
        }),
        (AppModel { annotate: false, ..m }).cell_at(col, row) is None,
{
}

/// A key that means something to the cursor leaves it on a line of the file, at a
/// character or just past the last one, from whatever column; in an empty file, at
/// the start of its first line.
pub proof fn cursor_stays_in_file(c: CursorState, key: Key, lines: Seq<Seq<char>>)
    requires
        lines.len() <= usize::MAX,
        forall|i: int| 0 <= i < lines.len() ==> (#[trigger] lines[i]).len() <= usize::MAX,
        1 <= c.line <= greatest(lines.len() as int, 1),
    ensures
        cursor_step(c, key, lines).1 != CursorCommand::Pass ==> ({
            let p = cursor_after(c, key, lines).position();
            if lines.len() > 0 { in_file(lines, p) } else { p == (1usize, 0usize) }
        }),
        cursor_step(c, key, lines).1 == CursorCommand::Pass ==> cursor_after(c, key, lines) == c,
{
    let (d, command) = cursor_step(c, key, lines);
    motions_count_from_one(lines, c.position());
    if lines.len() > 0 {
        word_motions_end_on_a_line(lines, c.position());
        line_motions_stay_in_file(lines, c.line as int);
        if command != CursorCommand::Pass {
            assert(1 <= d.line <= lines.len());
            assert(lines[d.line - 1].len() <= usize::MAX);
        }
    } else {
        motions_in_an_empty_file(lines, c.position());
    }
}

/// The keys that move the cursor by characters and lines do so, and no further than
/// to the ends of the line and of the file; a column that a line does not have becomes
/// its end.
pub proof fn cursor_keys_move(c: CursorState, lines: Seq<Seq<char>>)
    requires
        1 <= c.line <= lines.len() <= usize::MAX,
        forall|i: int| 0 <= i < lines.len() ==> (#[trigger] lines[i]).len() < usize::MAX,
        c.col <= lines[c.line - 1].len(),
    ensures
        ({
            let (l, col, n) = (c.line as int, c.col as int, lines.len() as int);
            let len = lines[l - 1].len() as int;
            let left = cursor_after(c, Key::Char('h'), lines);
            let right = cursor_after(c, Key::Char('l'), lines);
            let down = cursor_after(c, Key::Char('j'), lines);
            let up = cursor_after(c, Key::Char('k'), lines);
            &&& left.line == l && left.col == (if col > 0 { col - 1 } else { 0 })
            &&& right.line == l && right.col == (if col < len { col + 1 } else { len })
            &&& down.line == (if l < n { l + 1 } else { l })
            &&& up.line == (if l > 1 { l - 1 } else { l })
            &&& down.col == (if col < lines[down.line - 1].len() { col } else { lines[down.line - 1].len() as int })
            &&& up.col == (if col < lines[up.line - 1].len() { col } else { lines[up.line - 1].len() as int })
            &&& cursor_after(c, Key::Char('0'), lines) == (CursorState { col: 0, ..c })
            &&& cursor_after(c, Key::Char('$'), lines) == (CursorState { col: len as usize, ..c })
            &&& cursor_after(c, Key::Char('g'), lines) == (CursorState { line: 1, col: 0, ..c })
            &&& cursor_after(c, Key::Char('G'), lines) == (CursorState { line: n as usize, col: 0, ..c })
            &&& cursor_after(c, Key::Left, lines) == left && cursor_after(c, Key::Right, lines) == right
            &&& cursor_after(c, Key::Down, lines) == down && cursor_after(c, Key::Up, lines) == up
            &&& left.anchor == c.anchor && right.anchor == c.anchor && down.anchor == c.anchor && up.anchor == c.anchor
        }),
{
    assert(lines[c.line - 1].len() < usize::MAX);
    let down = cursor_step(c, Key::Char('j'), lines).0;
    let up = cursor_step(c, Key::Char('k'), lines).0;
    assert(lines[down.line - 1].len() < usize::MAX);
    assert(lines[up.line - 1].len() < usize::MAX);
}

/// `v` and `V` start a selection at the cursor and end it again; the other of the two
/// changes what is selected, and starts anew at the cursor. Esc ends a selection, and
/// leaves the view if there is none.
pub proof fn selecting_starts_and_ends(c: CursorState, lines: Seq<Seq<char>>)
    requires
        1 <= c.line <= lines.len() <= usize::MAX,
        c.col <= lines[c.line - 1].len(),
    ensures
        ({
            let chars = cursor_after(c, Key::Char('v'), lines);
            let rows = cursor_after(c, Key::Char('V'), lines);
            &&& c.anchor is None ==> chars == (CursorState { anchor: Some((c.line, c.col)), kind: SelKind::Char, ..c })
            &&& c.anchor is None ==> rows == (CursorState { anchor: Some((c.line, c.col)), kind: SelKind::Line, ..c })
            &&& c.anchor is Some && c.kind == SelKind::Char ==> chars == (CursorState { anchor: None, ..c }) && rows == (
            CursorState { anchor: Some((c.line, c.col)), kind: SelKind::Line, ..c })
            &&& c.anchor is Some && c.kind == SelKind::Line ==> rows == (CursorState { anchor: None, ..c }) && chars == (
            CursorState { anchor: Some((c.line, c.col)), kind: SelKind::Char, ..c })
            &&& c.anchor is Some ==> cursor_after(c, Key::Esc, lines) == (CursorState { anchor: None, ..c })
                && cursor_step(c, Key::Esc, lines).1 == CursorCommand::Move
            &&& c.anchor is None ==> cursor_step(c, Key::Esc, lines).1 == CursorCommand::Exit
            &&& cursor_step(c, Key::Char('n'), lines).1 == CursorCommand::Exit
        }),
{
}

/// The keys of the motions move the cursor to where the motions lead, in a column that
/// the line has, and keep the selection.
pub proof fn motion_keys_lead_there(c: CursorState, lines: Seq<Seq<char>>)
    requires
        1 <= c.line <= lines.len() <= usize::MAX,
        forall|i: int| 0 <= i < lines.len() ==> (#[trigger] lines[i]).len() < usize::MAX,
        c.col <= lines[c.line - 1].len(),
    ensures
        ({
            let p = (c.line, c.col);
            let at = |d: CursorState| (d.line, d.col);
            &&& at(cursor_after(c, Key::Char('w'), lines)) == next_word(lines, p)
            &&& at(cursor_after(c, Key::Char('b'), lines)) == previous_word(lines, p)
            &&& at(cursor_after(c, Key::Char('e'), lines)) == word_last(lines, p)
            &&& cursor_after(c, Key::Char('{'), lines).line == paragraph_start(lines, c.line as int)
            &&& cursor_after(c, Key::Char('}'), lines).line == paragraph_end(lines, c.line as int)
            &&& cursor_after(c, Key::Char('['), lines).line == section_above(lines, c.line - 1)
            &&& cursor_after(c, Key::Char(']'), lines).line == section_below(lines, c.line + 1)
            &&& cursor_after(c, Key::Char('{'), lines).col == 0 && cursor_after(c, Key::Char('}'), lines).col == 0
            &&& cursor_after(c, Key::Char('['), lines).col == 0 && cursor_after(c, Key::Char(']'), lines).col == 0
            &&& cursor_after(c, Key::Char('^'), lines).line == c.line
            &&& cursor_after(c, Key::Char('^'), lines).col == indent(lines[c.line - 1])
            &&& cursor_after(c, Key::Char('w'), lines).anchor == c.anchor
            &&& cursor_after(c, Key::Char('b'), lines).anchor == c.anchor
            &&& cursor_after(c, Key::Char('e'), lines).anchor == c.anchor
        }),
{
    let p = c.position();
    word_motions_keep_direction(lines, p);
    line_motions_stay_in_file(lines, c.line as int);
    lemma_trimmed_start_len(lines[c.line - 1]);
    assert(lines[c.line - 1].len() < usize::MAX);
}

/// There is one row for each line of the file.
pub proof fn one_row_per_line(m: AppModel, notes: Seq<NoteModel>, highlighted: Seq<Seq<SpanModel>>)
    requires
        m.annotate_lines.len() > 0,
    ensures
        m.annotated_rows(notes, highlighted).len() == m.annotate_lines.len(),
{
}

/// Each character of a line has one cell of its own, after the gutter: in a view
/// that is not highlighted, column `col` is drawn in the cell `start + col`.
pub proof fn columns_map_to_cells(line: Seq<char>, lineno: usize, width: nat, col: int)
    requires
        0 <= col < line.len(),
    ensures
        base_cells(line, lineno, width, None)[base_start(lineno, width, None) + col].0 == line[col],
{
}

/// A click on the cell that shows a position leads to that position.
pub proof fn click_hits_the_position(m: AppModel, p: Position, col: u16, row: u16)
    requires
        m.annotate,
        in_file(m.annotate_lines, p),
        m.scroll <= p.0 - 1,
        row == m.preview_area.y + 1 + (p.0 - 1 - m.scroll),
        row < m.preview_area.y + left_of(m.preview_area.height as int, 1),
        col == m.preview_area.x + 1 + m.annotate_gutter + p.1,
        col < m.preview_area.x + left_of(m.preview_area.width as int, 1),
    ensures
        m.cell_at(col, row) == Some(p),
{
}

// ---- Searching in the file ---------------------------------------------------

proof fn lemma_columns(hay: Seq<char>, needle: Seq<char>, from: int)
    requires
        0 <= from,
    ensures
        forall|k: int|
            0 <= k < columns_of(hay, needle, from).len() ==> occurs_at(
                hay,
                needle,
                #[trigger] columns_of(hay, needle, from)[k],
            ) && from <= columns_of(hay, needle, from)[k] <= hay.len(),
    decreases hay.len() + 1 - from,
{
    lemma_first_occurrence(hay, needle, from);
    if let Some(i) = first_occurrence(hay, needle, from) {
        if needle.len() > 0 && i >= from && i + needle.len() <= hay.len() {
            let next = (i + needle.len()) as int;
            lemma_columns(hay, needle, next);
            let (rest, all) = (columns_of(hay, needle, next), columns_of(hay, needle, from));
            assert forall|k: int| 0 <= k < all.len() implies occurs_at(hay, needle, #[trigger] all[k])
                && from <= all[k] <= hay.len() by {
                if k > 0 {
                    assert(all[k] == rest[k - 1]);
                }
            }
        }
    }
}

/// Whether `needle` occurs at a position, whatever the case of the line.
pub open spec fn is_found_at(lines: Seq<Seq<char>>, needle: Seq<char>, p: Position) -> bool {
    1 <= p.0 <= lines.len() && occurs_at(lowercase(lines[p.0 - 1]), needle, p.1 as int)
}

proof fn lemma_occurrences(lines: Seq<Seq<char>>, needle: Seq<char>)
    requires
        lines.len() <= usize::MAX,
        forall|i: int| 0 <= i < lines.len() ==> lowercase(#[trigger] lines[i]).len() <= usize::MAX,
    ensures
        forall|k: int|
            0 <= k < occurrences(lines, needle).len() ==> is_found_at(
                lines,
                needle,
                #[trigger] occurrences(lines, needle)[k],
            ),
    decreases lines.len(),
{
    if lines.len() > 0 {
        let init = lines.drop_last();
        assert forall|i: int| 0 <= i < init.len() implies lowercase(#[trigger] init[i]).len() <= usize::MAX by {
            assert(init[i] == lines[i]);
        }
        lemma_occurrences(init, needle);
        lemma_columns(lowercase(lines.last()), needle, 0);
        let (a, all) = (occurrences(init, needle), occurrences(lines, needle));
        let columns = columns_of(lowercase(lines.last()), needle, 0);
        assert forall|k: int| 0 <= k < all.len() implies is_found_at(lines, needle, #[trigger] all[k]) by {
            if k < a.len() {
                assert(is_found_at(init, needle, a[k]));
                assert(init[a[k].0 - 1] == lines[a[k].0 - 1]);
            } else {
                let c = columns[k - a.len()];
                assert(lowercase(lines[lines.len() - 1]).len() <= usize::MAX);
                assert(all[k] == on_line(lines.len() as usize, columns)[k - a.len()]);
                assert(all[k] == (lines.len() as usize, c as usize));
            }
        }
    }
}

proof fn lemma_first_after(positions: Seq<Position>, p: Position)
    ensures
        first_after(positions, p) matches Some(q) ==> positions.contains(q) && precedes(p, q),
    decreases positions.len(),
{
    if positions.len() > 0 && !precedes(p, positions[0]) {
        lemma_first_after(positions.skip(1), p);
        if let Some(q) = first_after(positions.skip(1), p) {
            let k = choose|k: int| 0 <= k < positions.skip(1).len() && positions.skip(1)[k] == q;
            assert(positions[k + 1] == q);
        }
    } else if positions.len() > 0 {
        assert(positions[0] == first_after(positions, p).unwrap());
    }
}

/// A search that finds something puts the cursor on an occurrence, whatever the
/// case; one that finds nothing leaves it where it is.
pub proof fn search_lands_on_an_occurrence(m: AppModel, query: Seq<char>)
    requires
        m.cursor is Some,
        m.annotate_lines.len() <= usize::MAX,
        forall|i: int|
            0 <= i < m.annotate_lines.len() ==> lowercase(#[trigger] m.annotate_lines[i]).len() <= usize::MAX,
    ensures
        ({
            let c = m.found(query).cursor.unwrap();
            if occurrences(m.annotate_lines, lowercase(query)).len() > 0 {
                is_found_at(m.annotate_lines, lowercase(query), c.position())
            } else {
                c == m.cursor.unwrap()
            }
        }),
{
    reveal(AppModel::found);
    let needle = lowercase(query);
    let all = occurrences(m.annotate_lines, needle);
    lemma_occurrences(m.annotate_lines, needle);
    let p = m.cursor.unwrap().position();
    lemma_first_after(all, p);
    if let Some(q) = first_after(all, p) {
        let k = choose|k: int| 0 <= k < all.len() && all[k] == q;
        assert(is_found_at(m.annotate_lines, needle, all[k]));
    } else if all.len() > 0 {
        assert(is_found_at(m.annotate_lines, needle, all[0]));
    }
}

/// How far the occurrences of `needle` reach that a search counts and that start
/// before index `i` of a text: it goes from left to right, and passes over those
/// that overlap one that was counted.
pub open spec fn counted_reach(hay: Seq<char>, needle: Seq<char>, i: int) -> int
    decreases i,
{
    if i <= 0 {
        0
    } else {
        let reach = counted_reach(hay, needle, i - 1);
        if reach <= i - 1 && i - 1 + needle.len() <= hay.len() && hay.subrange(i - 1, i - 1 + needle.len())
            == needle {
            i - 1 + needle.len()
        } else {
            reach
        }
    }
}

/// Whether a search counts the occurrence of `needle` at index `i` of a text: the
/// needle stands there and does not overlap one that was counted before.
pub open spec fn is_counted(hay: Seq<char>, needle: Seq<char>, i: int) -> bool {
    &&& 0 <= i
    &&& i + needle.len() <= hay.len()
    &&& hay.subrange(i, i + needle.len()) == needle
    &&& counted_reach(hay, needle, i) <= i
}

proof fn lemma_reach(hay: Seq<char>, needle: Seq<char>, i: int)
    requires
        needle.len() > 0,
    ensures
        counted_reach(hay, needle, i) == 0 || exists|j: int| #[trigger]
            is_counted(hay, needle, j) && j < i && counted_reach(hay, needle, i) == j + needle.len(),
        forall|j: int| j < i && #[trigger] is_counted(hay, needle, j) ==> j + needle.len() <= counted_reach(
            hay,
            needle,
            i,
        ),
    decreases i,
{
    if i > 0 {
        lemma_reach(hay, needle, i - 1);
        let (was, now) = (counted_reach(hay, needle, i - 1), counted_reach(hay, needle, i));
        if now != was || is_counted(hay, needle, i - 1) {
            assert(is_counted(hay, needle, i - 1));
        }
    }
}

/// Every occurrence of a needle is counted or overlaps one that starts before it and
/// is counted, and of those that are counted no two overlap.
pub proof fn occurrences_are_counted(hay: Seq<char>, needle: Seq<char>, i: int)
    requires
        needle.len() > 0,
        0 <= i,
        i + needle.len() <= hay.len(),
        hay.subrange(i, i + needle.len()) == needle,
    ensures
        exists|j: int| #[trigger] is_counted(hay, needle, j) && j <= i < j + needle.len(),
        is_counted(hay, needle, i) ==> forall|j: int| #[trigger]
            is_counted(hay, needle, j) && j < i ==> j + needle.len() <= i,
{
    lemma_reach(hay, needle, i);
    if counted_reach(hay, needle, i) <= i {
        assert(is_counted(hay, needle, i));
    }
}

/// Where the needle does not stand, nothing more is reached.
proof fn lemma_reach_same(hay: Seq<char>, needle: Seq<char>, from: int, i: int)
    requires
        0 <= from <= i,
        forall|j: int| from <= j < i ==> !occurs_at(hay, needle, j) || counted_reach(hay, needle, from) > j,
    ensures
        counted_reach(hay, needle, i) == counted_reach(hay, needle, from),
    decreases i,
{
    if from < i {
        lemma_reach_same(hay, needle, from, i - 1);
        assert(!occurs_at(hay, needle, i - 1) || counted_reach(hay, needle, from) > i - 1);
    }
}

/// Whether a search for `needle` counts an occurrence at a position of a file,
/// whatever the case of its line.
pub open spec fn is_hit(lines: Seq<Seq<char>>, needle: Seq<char>, p: Position) -> bool {
    1 <= p.0 <= lines.len() && is_counted(lowercase(lines[p.0 - 1]), needle, p.1 as int)
}

/// Whether `a` stands before `b` in a file.
pub open spec fn is_above(a: Position, b: Position) -> bool {
    a.0 < b.0 || (a.0 == b.0 && a.1 < b.1)
}

/// The columns of a line are those where an occurrence is counted, in order, from
/// `from` on, as long as none counted before reaches past `from`.
proof fn lemma_columns_counted(hay: Seq<char>, needle: Seq<char>, from: int)
    requires
        0 <= from,
        needle.len() > 0,
        counted_reach(hay, needle, from) <= from,
    ensures
        ({
            let all = columns_of(hay, needle, from);
            &&& forall|k: int| 0 <= k < all.len() ==> from <= #[trigger] all[k] && is_counted(hay, needle, all[k])
            &&& forall|k: int, l: int| 0 <= k < l < all.len() ==> #[trigger] all[k] < #[trigger] all[l]
            &&& forall|i: int| from <= i && #[trigger] is_counted(hay, needle, i) ==> all.contains(i)
        }),
    decreases hay.len() + 1 - from,
{
    lemma_first_occurrence(hay, needle, from);
    let all = columns_of(hay, needle, from);
    match first_occurrence(hay, needle, from) {
        Some(i) => {
            let next = (i + needle.len()) as int;
            assert(occurs_at(hay, needle, i));
            lemma_reach_same(hay, needle, from, i);
            assert(is_counted(hay, needle, i));
            assert(counted_reach(hay, needle, i + 1) == next);
            lemma_reach_same(hay, needle, i + 1, next);
            lemma_columns_counted(hay, needle, next);
            let rest = columns_of(hay, needle, next);
            assert(all == seq![i] + rest);
            assert forall|k: int| 0 <= k < all.len() implies from <= #[trigger] all[k] && is_counted(
                hay,
                needle,
                all[k],
            ) by {
                if k > 0 {
                    assert(all[k] == rest[k - 1]);
                }
            }
            assert forall|k: int, l: int| 0 <= k < l < all.len() implies #[trigger] all[k] < #[trigger] all[l] by {
                assert(all[l] == rest[l - 1]);
                if k > 0 {
                    assert(all[k] == rest[k - 1]);
                }
            }
            assert forall|c: int| from <= c && #[trigger] is_counted(hay, needle, c) implies all.contains(c) by {
                if c < i {
                    assert(!occurs_at(hay, needle, c));
                } else if c == i {
                    assert(all[0] == c);
                } else if c < next {
                    lemma_reach_same(hay, needle, i + 1, c);
                } else {
                    let k = choose|k: int| 0 <= k < rest.len() && rest[k] == c;
                    assert(all[k + 1] == c);
                }
            }
        },
        None => {
            assert forall|c: int| from <= c && #[trigger] is_counted(hay, needle, c) implies all.contains(c) by {
                assert(!occurs_at(hay, needle, c));
            }
        },
    }
}

/// The positions of a search are its hits, in order.
proof fn lemma_hits(lines: Seq<Seq<char>>, needle: Seq<char>)
    requires
        needle.len() > 0,
        lines.len() <= usize::MAX,
        forall|i: int| 0 <= i < lines.len() ==> lowercase(#[trigger] lines[i]).len() <= usize::MAX,
    ensures
        ({
            let all = occurrences(lines, needle);
            &&& forall|k: int| 0 <= k < all.len() ==> is_hit(lines, needle, #[trigger] all[k])
            &&& forall|k: int, l: int| 0 <= k < l < all.len() ==> is_above(#[trigger] all[k], #[trigger] all[l])
            &&& forall|p: Position| #[trigger] is_hit(lines, needle, p) ==> all.contains(p)
        }),
    decreases lines.len(),
{
    if lines.len() > 0 {
        let init = lines.drop_last();
        let n = lines.len() as usize;
        assert forall|i: int| 0 <= i < init.len() implies lowercase(#[trigger] init[i]).len() <= usize::MAX by {
            assert(init[i] == lines[i]);
        }
        lemma_hits(init, needle);
        let hay = lowercase(lines.last());
        assert(lowercase(lines[lines.len() - 1]).len() <= usize::MAX);
        lemma_columns_counted(hay, needle, 0);
        let columns = columns_of(hay, needle, 0);
        let here = on_line(n, columns);
        let (a, all) = (occurrences(init, needle), occurrences(lines, needle));
        assert forall|k: int| 0 <= k < here.len() implies #[trigger] here[k] == (n, columns[k] as usize)
            && columns[k] as usize == columns[k] && is_hit(lines, needle, here[k]) by {
            assert(is_counted(hay, needle, columns[k]));
        }
        assert forall|k: int| 0 <= k < all.len() implies is_hit(lines, needle, #[trigger] all[k]) by {
            if k < a.len() {
                assert(all[k] == a[k]);
                assert(is_hit(init, needle, a[k]));
                assert(init[a[k].0 - 1] == lines[a[k].0 - 1]);
            } else {
                assert(all[k] == here[k - a.len()]);
            }
        }
        assert forall|k: int, l: int| 0 <= k < l < all.len() implies is_above(#[trigger] all[k], #[trigger] all[l]) by {
            if l < a.len() {
                assert(all[k] == a[k] && all[l] == a[l]);
            } else {
                assert(all[l] == here[l - a.len()]);
                if k < a.len() {
                    assert(all[k] == a[k]);
                    assert(is_hit(init, needle, a[k]));
                } else {
                    assert(all[k] == here[k - a.len()]);
                    assert(columns[k - a.len()] < columns[l - a.len()]);
                }
            }
        }
        assert forall|p: Position| #[trigger] is_hit(lines, needle, p) implies all.contains(p) by {
            if p.0 < n {
                assert(init[p.0 - 1] == lines[p.0 - 1]);
                assert(is_hit(init, needle, p));
                let k = choose|k: int| 0 <= k < a.len() && a[k] == p;
                assert(all[k] == p);
            } else {
                assert(columns.contains(p.1 as int));
                let k = choose|k: int| 0 <= k < columns.len() && columns[k] == p.1;
                assert(here[k] == p);
                assert(all[a.len() + k] == p);
            }
        }
    }
}

proof fn lemma_first_below(positions: Seq<Position>, p: Position)
    requires
        forall|k: int, l: int|
            0 <= k < l < positions.len() ==> is_above(#[trigger] positions[k], #[trigger] positions[l]),
    ensures
        ({
            match first_after(positions, p) {
                Some(q) => positions.contains(q) && is_above(p, q) && forall|k: int|
                    0 <= k < positions.len() && is_above(p, #[trigger] positions[k]) ==> positions[k] == q || is_above(
                        q,
                        positions[k],
                    ),
                None => forall|k: int| 0 <= k < positions.len() ==> !is_above(p, #[trigger] positions[k]),
            }
        }),
    decreases positions.len(),
{
    if positions.len() > 0 {
        let rest = positions.skip(1);
        assert forall|k: int, l: int| 0 <= k < l < rest.len() implies is_above(
            #[trigger] rest[k],
            #[trigger] rest[l],
        ) by {
            assert(rest[k] == positions[k + 1] && rest[l] == positions[l + 1]);
        }
        lemma_first_below(rest, p);
        assert forall|k: int| 1 <= k < positions.len() implies #[trigger] positions[k] == rest[k - 1] by {}
        if first_after(positions, p) != Some(positions[0]) {
            if let Some(q) = first_after(rest, p) {
                let k = choose|k: int| 0 <= k < rest.len() && rest[k] == q;
                assert(positions[k + 1] == q);
            }
        } else {
            assert(positions[0] == positions[0]);
        }
    }
}

/// A search goes to the next hit after the cursor: none is passed over. Where there
/// is none after the cursor, it goes to the first hit of the file; where there is
/// none at all, the cursor stays.
#[verifier::rlimit(40)]
pub proof fn search_goes_to_the_next_hit(m: AppModel, query: Seq<char>)
    requires
        m.cursor is Some,
        lowercase(query).len() > 0,
        m.annotate_lines.len() <= usize::MAX,
        forall|i: int|
            0 <= i < m.annotate_lines.len() ==> lowercase(#[trigger] m.annotate_lines[i]).len() <= usize::MAX,
    ensures
        ({
            let (lines, needle) = (m.annotate_lines, lowercase(query));
            let p = (m.cursor.unwrap().line, m.cursor.unwrap().col);
            let c = m.found(query).cursor.unwrap();
            let q = (c.line, c.col);
            if exists|h: Position| #[trigger] is_hit(lines, needle, h) {
                &&& is_hit(lines, needle, q)
                &&& is_above(p, q) ==> forall|h: Position| #[trigger]
                    is_hit(lines, needle, h) && is_above(p, h) ==> !is_above(h, q)
                &&& !is_above(p, q) ==> forall|h: Position| #[trigger]
                    is_hit(lines, needle, h) ==> !is_above(p, h) && !is_above(h, q)
            } else {
                c == m.cursor.unwrap()
            }
        }),
{
    reveal(AppModel::found);
    let (lines, needle) = (m.annotate_lines, lowercase(query));
    let all = occurrences(lines, needle);
    let p = m.cursor.unwrap().position();
    lemma_hits(lines, needle);
    lemma_first_below(all, p);
    let q = m.found(query).cursor.unwrap().position();
    if exists|h: Position| #[trigger] is_hit(lines, needle, h) {
        let h = choose|h: Position| #[trigger] is_hit(lines, needle, h);
        assert(all.contains(h));
        assert forall|h: Position| #[trigger] is_hit(lines, needle, h) && is_above(p, q) && is_above(
            p,
            h,
        ) implies !is_above(h, q) by {
            let k = choose|k: int| 0 <= k < all.len() && all[k] == h;
            assert(is_above(p, all[k]));
        }
        assert forall|h: Position| #[trigger] is_hit(lines, needle, h) && !is_above(p, q) implies !is_above(p, h)
            && !is_above(h, q) by {
            let k = choose|k: int| 0 <= k < all.len() && all[k] == h;
            assert(first_after(all, p) is None);
            assert(!is_above(p, all[k]));
            if k > 0 {
                assert(is_above(all[0], all[k]));
            }
        }
        if first_after(all, p) is None {
            assert(is_hit(lines, needle, all[0]));
            assert(!is_above(p, all[0]));
        }
    } else if all.len() > 0 {
        assert(is_hit(lines, needle, all[0]));
    }
}

// ---- Notes -------------------------------------------------------------------

/// A new note is put after the notes that its file has, covers the text it was
/// taken over, and says what was typed in.
pub proof fn new_note_covers_its_text(m: AppModel, id: u64, created_at: Seq<char>)
    requires
        m.input is Some,
        m.input.unwrap().editing is None,
        m.commitment(id, created_at) is Stored,
    ensures
        ({
            let rel = m.view->0;
            let after = m.note_committed(id, created_at).0;
            let note = after.notes_of(rel).last();
            &&& m.view is File
            &&& after.notes_of(rel) == m.notes_of(rel).push(note)
            &&& note.in_place(m.annotate_lines)
            &&& note.text == trimmed(m.input.unwrap().buffer)
            &&& note.id == id && note.created_at == created_at
        }),
{
    reveal(AppModel::note_committed);
    let rel = m.view->0;
    let before = m.notes_of(rel);
    let after = m.note_committed(id, created_at).0.notes_of(rel);
    assert(after.drop_last() =~= before);
    assert(after =~= before.push(after.last()));
}

proof fn lemma_note_with_id(notes: Seq<NoteModel>, id: u64, from: int)
    requires
        0 <= from,
    ensures
        note_with_id(notes, id, from) matches Some(i) ==> from <= i < notes.len() && notes[i].id == id,
    decreases notes.len() - from,
{
    if from < notes.len() && notes[from].id != id {
        lemma_note_with_id(notes, id, from + 1);
    }
}

/// An edit changes the text of one note at most: every note keeps its place, its
/// snippet and its id.
pub proof fn edit_keeps_the_anchor(notes: Seq<NoteModel>, id: u64, text: Seq<char>, i: int)
    requires
        0 <= i < notes.len(),
    ensures
        retold(notes, id, text).len() == notes.len(),
        retold(notes, id, text)[i] == (NoteModel { text: retold(notes, id, text)[i].text, ..notes[i] }),
        notes[i].id != id ==> retold(notes, id, text)[i] == notes[i],
{
    lemma_note_with_id(notes, id, 0);
}

proof fn lemma_note_under(notes: Seq<NoteModel>, line: usize, col: usize, from: int)
    requires
        0 <= from,
    ensures
        note_under(notes, line, col, from) matches Some(i) ==> from <= i < notes.len() && notes[i].covers(
            line,
            col,
        ),
        note_under(notes, line, col, from) is None ==> forall|i: int|
            from <= i < notes.len() ==> !(#[trigger] notes[i]).covers(line, col),
    decreases notes.len() - from,
{
    if from < notes.len() && !notes[from].covers(line, col) {
        lemma_note_under(notes, line, col, from + 1);
    }
}

/// A deletion takes out one note, which covers the cursor, or none where no note
/// does. The notes of other files stay.
pub proof fn deletion_takes_one_note(m: AppModel, c: CursorState, rel: Seq<char>, line: Option<usize>)
    requires
        m.cursor == Some(c),
        m.view == SubjectModel::File(rel, line),
    ensures
        ({
            let (ns, after) = (m.notes_of(rel), m.note_deleted().0);
            &&& match note_under(ns, c.line, c.col, 0) {
                Some(i) => 0 <= i < ns.len() && ns[i].covers(c.line, c.col) && after.notes_of(rel) == ns.remove(i),
                None => after.notes == m.notes && forall|i: int|
                    0 <= i < ns.len() ==> !(#[trigger] ns[i]).covers(c.line, c.col),
            }
            &&& forall|other: Seq<char>| other != rel ==> #[trigger] after.notes_of(other) == m.notes_of(other)
        }),
{
    reveal(AppModel::note_deleted);
    let ns = m.notes_of(rel);
    lemma_note_under(ns, c.line, c.col, 0);
    if let Some(i) = note_under(ns, c.line, c.col, 0) {
        if ns.remove(i).len() == 0 {
            assert(ns.remove(i) =~= Seq::empty());
        }
    }
}

/// What is stored keeps up with the notes in memory: if the files held them before
/// a note was saved or deleted, they hold them after, once what was asked for has
/// been done.
pub proof fn storage_keeps_up(m: AppModel, shelf: Shelf, id: u64, created_at: Seq<char>)
    requires
        is_orderly(m.root, shelf),
        on_shelf(m.root, shelf) == m.notes,
    ensures
        m.note_committed(id, created_at).1 matches Some(EffectModel::Commit(action, _))
            ==> on_shelf(m.root, performed(shelf, action)) == m.note_committed(id, created_at).0.notes,
        m.note_committed(id, created_at).1 is None ==> m.note_committed(id, created_at).0.notes == m.notes,
        m.note_deleted().1 matches Some(EffectModel::Save(action)) ==> on_shelf(
            m.root,
            performed(shelf, action),
        ) == m.note_deleted().0.notes,
        m.note_deleted().1 is None ==> m.note_deleted().0.notes == m.notes,
{
    reveal(AppModel::note_committed);
    reveal(AppModel::note_deleted);
    if let CommitModel::Stored(rel, ns, updated) = m.commitment(id, created_at) {
        saving_replaces_one_page(m.root, shelf, rel, ns);
        if updated {
            edit_keeps_count(m.notes[rel], m.input.unwrap().editing.unwrap(), trimmed(m.input.unwrap().buffer));
            assert(on_shelf(m.root, shelf).contains_key(rel));
        }
        assert(ns.len() > 0);
    }
    if let Some((rel, Some(rest))) = m.deletion() {
        saving_replaces_one_page(m.root, shelf, rel, rest);
    }
}

proof fn edit_keeps_count(notes: Seq<NoteModel>, id: u64, text: Seq<char>)
    ensures
        retold(notes, id, text).len() == notes.len(),
{
    lemma_note_with_id(notes, id, 0);
}

/// An edit gives the note the new text: the first with the id.
pub proof fn edit_sets_the_text(notes: Seq<NoteModel>, id: u64, text: Seq<char>, i: int)
    requires
        0 <= i < notes.len(),
        notes[i].id == id,
        forall|j: int| 0 <= j < i ==> (#[trigger] notes[j]).id != id,
    ensures
        retold(notes, id, text) == notes.update(i, NoteModel { text, ..notes[i] }),
{
    lemma_first_id(notes, id, 0, i);
}

proof fn lemma_first_id(notes: Seq<NoteModel>, id: u64, from: int, i: int)
    requires
        0 <= from <= i < notes.len(),
        notes[i].id == id,
        forall|j: int| 0 <= j < i ==> (#[trigger] notes[j]).id != id,
    ensures
        note_with_id(notes, id, from) == Some(i),
    decreases i - from,
{
    if from < i {
        assert(notes[from].id != id);
        lemma_first_id(notes, id, from + 1, i);
    }
}

proof fn lemma_first_under(notes: Seq<NoteModel>, line: usize, col: usize, from: int, i: int)
    requires
        0 <= from <= i < notes.len(),
        notes[i].covers(line, col),
        forall|j: int| 0 <= j < i ==> !(#[trigger] notes[j]).covers(line, col),
    ensures
        note_under(notes, line, col, from) == Some(i),
    decreases i - from,
{
    if from < i {
        assert(!notes[from].covers(line, col));
        lemma_first_under(notes, line, col, from + 1, i);
    }
}

/// A state in which the keys go to the cursor of an annotated file.
pub open spec fn is_annotating(m: AppModel, c: CursorState, rel: Seq<char>) -> bool {
    &&& m.input is None
    &&& m.find is None
    &&& !m.show_help
    &&& m.annotate
    &&& m.focus == Focus::Right
    &&& m.view is File
    &&& m.view->0 == rel
    &&& m.cursor == Some(c)
    &&& 1 <= c.line <= m.annotate_lines.len() <= usize::MAX
    &&& c.col <= m.annotate_lines[c.line - 1].len()
}

/// In such a state a key that means something to the cursor goes there.
#[verifier::rlimit(40)]
proof fn lemma_cursor_dispatch(
    m: AppModel,
    c: CursorState,
    rel: Seq<char>,
    key: Key,
    now: u64,
    id: u64,
    created_at: Seq<char>,
)
    requires
        is_annotating(m, c, rel),
        key != Key::Char('?'),
        cursor_step(c, key, m.annotate_lines).1 != CursorCommand::Pass,
    ensures
        ({
            let (s, _, effect) = m.settled().cursor_key(key);
            m.key_pressed(key, false, now, id, created_at) == (s, effect)
        }),
{
    reveal(AppModel::file_key);
    reveal(AppModel::cursor_key);
}

/// What is selected is copied as the selection grows, with each key that moves the
/// cursor.
pub proof fn growing_selection_is_copied(
    m: AppModel,
    c: CursorState,
    a: Position,
    rel: Seq<char>,
    key: Key,
    now: u64,
    id: u64,
    created_at: Seq<char>,
)
    requires
        is_annotating(m, c, rel),
        c.anchor == Some(a),
        key == Key::Char('h') || key == Key::Char('j') || key == Key::Char('k') || key == Key::Char('l') || key
            == Key::Char('w') || key == Key::Char('b') || key == Key::Char('e'),
    ensures
        ({
            let (after, effect) = m.key_pressed(key, false, now, id, created_at);
            let d = cursor_after(c, key, m.annotate_lines);
            &&& after.cursor == Some(d)
            &&& effect == (match selected_text(c.kind, a, (d.line, d.col), m.annotate_lines) {
                Some(t) => Some(EffectModel::Copy(t)),
                None => None,
            })
        }),
{
    lemma_cursor_dispatch(m, c, rel, key, now, id, created_at);
    lemma_moved(m.settled(), c, a, key);
}

#[verifier::rlimit(40)]
proof fn lemma_moved(s: AppModel, c: CursorState, a: Position, key: Key)
    requires
        s.cursor == Some(c),
        c.anchor == Some(a),
        cursor_step(c, key, s.annotate_lines).1 == CursorCommand::Move,
        cursor_after(c, key, s.annotate_lines).anchor == Some(a),
        cursor_after(c, key, s.annotate_lines).kind == c.kind,
    ensures
        ({
            let d = cursor_after(c, key, s.annotate_lines);
            let (t, _, effect) = s.cursor_key(key);
            &&& t.cursor == Some(d)
            &&& effect == (match selected_text(c.kind, a, (d.line, d.col), s.annotate_lines) {
                Some(t) => Some(EffectModel::Copy(t)),
                None => None,
            })
        }),
{
    reveal(AppModel::cursor_key);
}

/// What a key does that leaves the cursor where it is.
#[verifier::rlimit(40)]
proof fn lemma_cursor_command(s: AppModel, c: CursorState, key: Key)
    requires
        s.cursor == Some(c),
        cursor_after(c, key, s.annotate_lines) == c,
    ensures
        match cursor_step(c, key, s.annotate_lines).1 {
            CursorCommand::Delete => s.cursor_key(key) == (
                s.note_deleted().0.following_cursor().stale(),
                true,
                s.note_deleted().1,
            ),
            CursorCommand::Comment => s.cursor_key(key) == (
                s.note_begun().following_cursor().stale(),
                true,
                None::<EffectModel>,
            ),
            CursorCommand::Yank => s.cursor_key(key) == (s.yanked(), true, s.copying()),
            CursorCommand::Exit => s.cursor_key(key) == (s.not_annotating(), true, None::<EffectModel>),
            CursorCommand::Find => s.cursor_key(key).0.find == Some(Seq::<char>::empty()),
            _ => true,
        },
{
    reveal(AppModel::cursor_key);
    assert(s.with_cursor(c) == s);
}

proof fn lemma_still_keys(c: CursorState, lines: Seq<Seq<char>>)
    requires
        1 <= c.line <= lines.len(),
        c.col <= lines[c.line - 1].len(),
    ensures
        cursor_after(c, Key::Char('d'), lines) == c,
        cursor_after(c, Key::Char('c'), lines) == c,
        cursor_after(c, Key::Char('y'), lines) == c,
        cursor_after(c, Key::Char('n'), lines) == c,
        cursor_after(c, Key::Char('/'), lines) == c,
        cursor_step(c, Key::Char('d'), lines).1 == CursorCommand::Delete,
        cursor_step(c, Key::Char('c'), lines).1 == CursorCommand::Comment,
        cursor_step(c, Key::Char('y'), lines).1 == CursorCommand::Yank,
        cursor_step(c, Key::Char('n'), lines).1 == CursorCommand::Exit,
        cursor_step(c, Key::Char('/'), lines).1 == CursorCommand::Find,
{
}

/// What the keys do that leave the cursor where it is.
proof fn lemma_cursor_commands(s: AppModel, c: CursorState)
    requires
        s.cursor == Some(c),
        1 <= c.line <= s.annotate_lines.len(),
        c.col <= s.annotate_lines[c.line - 1].len(),
    ensures
        s.cursor_key(Key::Char('d')) == (s.note_deleted().0.following_cursor().stale(), true, s.note_deleted().1),
        s.cursor_key(Key::Char('c')) == (s.note_begun().following_cursor().stale(), true, None::<EffectModel>),
        s.cursor_key(Key::Char('y')) == (s.yanked(), true, s.copying()),
        s.cursor_key(Key::Char('n')) == (s.not_annotating(), true, None::<EffectModel>),
        s.cursor_key(Key::Char('/')).0.find == Some(Seq::<char>::empty()),
{
    lemma_still_keys(c, s.annotate_lines);
    lemma_cursor_command(s, c, Key::Char('d'));
    lemma_cursor_command(s, c, Key::Char('c'));
    lemma_cursor_command(s, c, Key::Char('y'));
    lemma_cursor_command(s, c, Key::Char('n'));
    lemma_cursor_command(s, c, Key::Char('/'));
}

/// `d` deletes the first note that covers the cursor, and stores the rest; the other
/// notes stay, in their order. Where no note covers the cursor nothing changes.
#[verifier::rlimit(40)]
pub proof fn delete_key_deletes_the_note(
    m: AppModel,
    c: CursorState,
    rel: Seq<char>,
    i: int,
    now: u64,
    id: u64,
    created_at: Seq<char>,
)
    requires
        is_annotating(m, c, rel),
        0 <= i <= m.notes_of(rel).len(),
        forall|j: int| 0 <= j < i ==> !(#[trigger] m.notes_of(rel)[j]).covers(c.line, c.col),
        i < m.notes_of(rel).len() ==> m.notes_of(rel)[i].covers(c.line, c.col),
    ensures
        ({
            let ns = m.notes_of(rel);
            let (after, effect) = m.key_pressed(Key::Char('d'), false, now, id, created_at);
            if i < ns.len() {
                &&& after.notes_of(rel) == ns.take(i) + ns.skip(i + 1)
                &&& effect == Some(EffectModel::Save(saved(m.root, rel, ns.take(i) + ns.skip(i + 1))))
                &&& forall|other: Seq<char>| other != rel ==> #[trigger] after.notes_of(other) == m.notes_of(other)
            } else {
                after.notes == m.notes && effect is None
            }
        }),
{
    let ns = m.notes_of(rel);
    let s = m.settled();
    lemma_cursor_dispatch(m, c, rel, Key::Char('d'), now, id, created_at);
    lemma_cursor_commands(s, c);
    lemma_deleted(s, c, rel);
    assert(s.notes_of(rel) == ns);
    if i < ns.len() {
        lemma_first_under(ns, c.line, c.col, 0, i);
        assert(ns.remove(i) =~= ns.take(i) + ns.skip(i + 1));
        assert forall|other: Seq<char>| other != rel implies #[trigger] m.key_pressed(
            Key::Char('d'),
            false,
            now,
            id,
            created_at,
        ).0.notes_of(other) == m.notes_of(other) by {
            assert(s.note_deleted().0.notes_of(other) == s.notes_of(other));
        }
    } else {
        lemma_note_under(ns, c.line, c.col, 0);
    }
}

proof fn lemma_deleted(s: AppModel, c: CursorState, rel: Seq<char>)
    requires
        s.cursor == Some(c),
        s.view is File,
        s.view->0 == rel,
    ensures
        ({
            let ns = s.notes_of(rel);
            let (after, effect) = s.note_deleted();
            match note_under(ns, c.line, c.col, 0) {
                Some(i) => {
                    &&& after.notes_of(rel) == ns.remove(i)
                    &&& effect == Some(EffectModel::Save(saved(s.root, rel, ns.remove(i))))
                    &&& forall|other: Seq<char>| other != rel ==> #[trigger] after.notes_of(other) == s.notes_of(other)
                },
                None => after.notes == s.notes && effect is None,
            }
        }),
{
    reveal(AppModel::note_deleted);
    if let Some(i) = note_under(s.notes_of(rel), c.line, c.col, 0) {
        if s.notes_of(rel).remove(i).len() == 0 {
            assert(s.notes_of(rel).remove(i) =~= Seq::empty());
        }
    }
}

/// `c` opens the first note that covers the cursor to be edited, with its text and the
/// insertion point behind it. Where no note covers the cursor it opens a new one over
/// the line, and with a selection a new one over the selection.
#[verifier::rlimit(40)]
pub proof fn comment_key_opens_the_note(
    m: AppModel,
    c: CursorState,
    rel: Seq<char>,
    i: int,
    now: u64,
    id: u64,
    created_at: Seq<char>,
)
    requires
        is_annotating(m, c, rel),
        0 <= i <= m.notes_of(rel).len(),
        forall|j: int| 0 <= j < i ==> !(#[trigger] m.notes_of(rel)[j]).covers(c.line, c.col),
        i < m.notes_of(rel).len() ==> m.notes_of(rel)[i].covers(c.line, c.col),
    ensures
        ({
            let ns = m.notes_of(rel);
            let input = m.key_pressed(Key::Char('c'), false, now, id, created_at).0.input;
            &&& input is Some
            &&& c.anchor is None && i < ns.len() ==> {
                &&& input.unwrap().buffer == ns[i].text
                &&& input.unwrap().cursor == ns[i].text.len()
                &&& input.unwrap().editing == Some(ns[i].id)
            }
            &&& c.anchor is None && i == ns.len() ==> {
                &&& input.unwrap().buffer.len() == 0 && input.unwrap().cursor == 0
                &&& input.unwrap().editing is None
                &&& input.unwrap().kind == SelKind::Line
                &&& input.unwrap().start.0 == c.line && input.unwrap().end.0 == c.line
            }
            &&& c.anchor matches Some(a) ==> {
                let (line_a, line_c) = (m.annotate_lines[a.0 - 1], m.annotate_lines[c.line - 1]);
                &&& input.unwrap().buffer.len() == 0 && input.unwrap().cursor == 0
                &&& input.unwrap().editing is None
                &&& input.unwrap().kind == c.kind
                &&& input.unwrap().start.0 == a.0 && input.unwrap().end.0 == c.line
                &&& c.kind == SelKind::Char && 1 <= a.0 <= m.annotate_lines.len() && a.1 < line_a.len() && c.col
                    < line_c.len() ==> input.unwrap().start == a && input.unwrap().end == (c.line, c.col)
            }
        }),
{
    let ns = m.notes_of(rel);
    let s = m.settled();
    lemma_cursor_dispatch(m, c, rel, Key::Char('c'), now, id, created_at);
    lemma_cursor_commands(s, c);
    lemma_begun(s);
    assert(s.notes_of(rel) == ns);
    assert(s.new_input() == m.new_input());
    if i < ns.len() {
        lemma_first_under(ns, c.line, c.col, 0, i);
    } else {
        lemma_note_under(ns, c.line, c.col, 0);
    }
}

proof fn lemma_begun(s: AppModel)
    requires
        s.input is None,
    ensures
        s.note_begun().following_cursor().stale().input == s.new_input(),
{
    reveal(AppModel::note_begun);
}

/// Ctrl+S saves a new note that says something over some text: it comes after the
/// others of its file, over what was selected, with the text that was typed without
/// the white space around it. It is stored, and the box is closed.
#[verifier::rlimit(40)]
pub proof fn new_note_is_saved(
    m: AppModel,
    rel: Seq<char>,
    snippet: Seq<Seq<char>>,
    now: u64,
    id: u64,
    created_at: Seq<char>,
)
    requires
        m.input is Some,
        m.view is File,
        m.view->0 == rel,
        m.input.unwrap().editing is None,
        trimmed(m.input.unwrap().buffer).len() > 0,
        ({
            let (a, b) = (m.input.unwrap().start, m.input.unwrap().end);
            let (s, e) = if is_above(b, a) { (b, a) } else { (a, b) };
            covered_text(m.input.unwrap().kind, m.annotate_lines, s, e) == Some(snippet)
        }),
    ensures
        ({
            let input = m.input.unwrap();
            let (after, effect) = m.key_pressed(Key::Char('s'), true, now, id, created_at);
            let note = NoteModel {
                id,
                kind: input.kind,
                start: if is_above(input.end, input.start) { input.end } else { input.start },
                end: if is_above(input.end, input.start) { input.start } else { input.end },
                text: trimmed(input.buffer),
                snippet,
                created_at,
            };
            &&& after.notes_of(rel) == m.notes_of(rel).push(note)
            &&& after.input is None
            &&& effect == Some(EffectModel::Commit(saved(m.root, rel, m.notes_of(rel).push(note)), false))
            &&& forall|other: Seq<char>| other != rel ==> #[trigger] after.notes_of(other) == m.notes_of(other)
        }),
{
    reveal(AppModel::input_key);
    reveal(AppModel::note_committed);
    let s = m.settled();
    assert(s.notes_of(rel) == m.notes_of(rel));
}

/// A new note that is over no text is not saved: the notes stay as they are, and nothing
/// is stored.
#[verifier::rlimit(40)]
pub proof fn note_over_nothing_is_not_saved(
    m: AppModel,
    rel: Seq<char>,
    now: u64,
    id: u64,
    created_at: Seq<char>,
)
    requires
        m.input is Some,
        m.view is File,
        m.view->0 == rel,
        m.input.unwrap().editing is None,
        ({
            let (a, b) = (m.input.unwrap().start, m.input.unwrap().end);
            let (s, e) = if is_above(b, a) { (b, a) } else { (a, b) };
            covered_text(m.input.unwrap().kind, m.annotate_lines, s, e) is None
        }),
    ensures
        ({
            let (after, effect) = m.key_pressed(Key::Char('s'), true, now, id, created_at);
            after.notes == m.notes && after.input is None && effect is None
        }),
{
    reveal(AppModel::input_key);
    reveal(AppModel::note_committed);
}

/// Ctrl+S saves an edited note: it has the new text, and all else stays.
#[verifier::rlimit(40)]
pub proof fn edited_note_is_saved(
    m: AppModel,
    rel: Seq<char>,
    i: int,
    now: u64,
    id: u64,
    created_at: Seq<char>,
)
    requires
        m.input is Some,
        m.view is File,
        m.view->0 == rel,
        0 <= i < m.notes_of(rel).len(),
        m.input.unwrap().editing == Some(m.notes_of(rel)[i].id),
        forall|j: int| 0 <= j < i ==> (#[trigger] m.notes_of(rel)[j]).id != m.notes_of(rel)[i].id,
        trimmed(m.input.unwrap().buffer).len() > 0,
    ensures
        ({
            let ns = m.notes_of(rel);
            let told = ns.update(i, NoteModel { text: trimmed(m.input.unwrap().buffer), ..ns[i] });
            let (after, effect) = m.key_pressed(Key::Char('s'), true, now, id, created_at);
            &&& after.notes_of(rel) == told
            &&& after.input is None
            &&& effect == Some(EffectModel::Commit(saved(m.root, rel, told), true))
        }),
{
    reveal(AppModel::input_key);
    reveal(AppModel::note_committed);
    let ns = m.notes_of(rel);
    edit_sets_the_text(ns, ns[i].id, trimmed(m.input.unwrap().buffer), i);
}

/// Esc drops what is typed in, and so does saving white space: the notes stay as they
/// are, and nothing is stored.
#[verifier::rlimit(40)]
pub proof fn discarded_note_leaves_no_trace(m: AppModel, now: u64, id: u64, created_at: Seq<char>)
    requires
        m.input is Some,
    ensures
        ({
            let (after, effect) = m.key_pressed(Key::Esc, false, now, id, created_at);
            after.input is None && after.notes == m.notes && effect is None
        }),
        trimmed(m.input.unwrap().buffer).len() == 0 ==> {
            let (after, effect) = m.key_pressed(Key::Char('s'), true, now, id, created_at);
            after.input is None && after.notes == m.notes && effect is None
        },
{
    reveal(AppModel::input_key);
    reveal(AppModel::note_committed);
}

/// What is typed goes into the note, character by character and with Enter for a new
/// row; Backspace and Delete take out, and the arrows move in it.
#[verifier::rlimit(40)]
pub proof fn typing_goes_into_the_note(m: AppModel, c: char, now: u64, id: u64, created_at: Seq<char>)
    requires
        m.input is Some,
    ensures
        ({
            let i = m.input.unwrap();
            let at = i.cursor;
            let typed = m.key_pressed(Key::Char(c), false, now, id, created_at).0.input;
            let entered = m.key_pressed(Key::Enter, false, now, id, created_at).0.input;
            &&& typed is Some && typed.unwrap().buffer == i.buffer.insert(at, c) && typed.unwrap().cursor == at + 1
            &&& entered is Some && entered.unwrap().buffer == i.buffer.insert(at, '\n') && entered.unwrap().cursor == at + 1
            &&& m.key_pressed(Key::Backspace, false, now, id, created_at).0.input == Some(i.backspaced())
            &&& m.key_pressed(Key::Delete, false, now, id, created_at).0.input == Some(i.deleted())
            &&& m.key_pressed(Key::Left, false, now, id, created_at).0.input == Some(i.moved_left())
            &&& m.key_pressed(Key::Right, false, now, id, created_at).0.input == Some(i.moved_right())
            &&& m.key_pressed(Key::Up, false, now, id, created_at).0.input == Some(i.moved_up())
            &&& m.key_pressed(Key::Down, false, now, id, created_at).0.input == Some(i.moved_down())
            &&& m.key_pressed(Key::Home, false, now, id, created_at).0.input == Some(i.moved_home())
            &&& m.key_pressed(Key::End, false, now, id, created_at).0.input == Some(i.moved_end())
            &&& c != 's' && c != 'c' && c != 'C' && c != 'd' && c != 'D' && c != 'z' && c != 'Z' ==> m.key_pressed(
                Key::Char(c),
                true,
                now,
                id,
                created_at,
            ).0.input == Some(i)
        }),
{
    reveal(AppModel::input_key);
}

/// The search prompt takes what is typed, one character after the other; Enter
/// searches for it, or for what was searched last if nothing was typed; Esc closes
/// the prompt and leaves the cursor.
#[verifier::rlimit(40)]
pub proof fn search_prompt_takes_the_query(m: AppModel, c: char, now: u64, id: u64, created_at: Seq<char>)
    requires
        m.input is None,
        m.find is Some,
    ensures
        ({
            let q = m.find.unwrap();
            let typed = m.key_pressed(Key::Char(c), false, now, id, created_at).0;
            let entered = m.key_pressed(Key::Enter, false, now, id, created_at).0;
            let left = m.key_pressed(Key::Esc, false, now, id, created_at).0;
            let back = m.key_pressed(Key::Backspace, false, now, id, created_at).0;
            &&& typed.find == Some(q.push(c)) && typed.cursor == m.cursor
            &&& q.len() > 0 ==> back.find == Some(q.drop_last())
            &&& left.find is None && left.cursor == m.cursor
            &&& entered.find is None
            &&& q.len() > 0 ==> entered.last_find == Some(q) && entered.cursor == m.found(q).cursor
            &&& q.len() == 0 && m.last_find is Some && m.last_find.unwrap().len() > 0 ==> entered.cursor == m.found(
                m.last_find.unwrap(),
            ).cursor && entered.last_find == m.last_find
            &&& q.len() == 0 && m.last_find is None ==> entered.cursor == m.cursor
        }),
{
    reveal(AppModel::find_key);
    reveal(AppModel::found);
}

proof fn lemma_yanked(s: AppModel)
    ensures
        s.yanked().notes == s.notes,
        s.selection() is Some && s.cursor is Some ==> s.yanked().cursor is Some && s.yanked().cursor.unwrap().anchor is None,
{
    reveal(AppModel::yanked);
}

/// `y` copies what is selected, as its lines with newlines between, and ends the
/// selection; `/` opens the prompt; `n` leaves the view.
#[verifier::rlimit(40)]
pub proof fn other_cursor_keys(
    m: AppModel,
    c: CursorState,
    rel: Seq<char>,
    now: u64,
    id: u64,
    created_at: Seq<char>,
)
    requires
        is_annotating(m, c, rel),
    ensures
        ({
            let (yanked, copy) = m.key_pressed(Key::Char('y'), false, now, id, created_at);
            let found = m.key_pressed(Key::Char('/'), false, now, id, created_at).0;
            let left = m.key_pressed(Key::Char('n'), false, now, id, created_at).0;
            &&& c.anchor is None ==> copy is None
            &&& c.anchor matches Some(a) ==> copy == (match selected_text(c.kind, a, (c.line, c.col), m.annotate_lines) {
                Some(t) => Some(EffectModel::Copy(t)),
                None => None,
            })
            &&& found.find == Some(Seq::<char>::empty())
            &&& !left.annotate && left.cursor is None && left.view == m.view
            &&& yanked.notes == m.notes
            &&& copy is Some ==> yanked.cursor is Some && yanked.cursor.unwrap().anchor is None
        }),
{
    let s = m.settled();
    lemma_cursor_dispatch(m, c, rel, Key::Char('y'), now, id, created_at);
    lemma_cursor_dispatch(m, c, rel, Key::Char('/'), now, id, created_at);
    lemma_cursor_dispatch(m, c, rel, Key::Char('n'), now, id, created_at);
    lemma_cursor_commands(s, c);
    lemma_yanked(s);
}

// ---- What keys and mouse leave alone -----------------------------------------

/// Whether two states are of the same repository, with the same files and notes.
pub open spec fn same_data(a: AppModel, b: AppModel) -> bool {
    a.root == b.root && a.files == b.files && a.all_files == b.all_files && a.notes == b.notes
}

proof fn lemma_moving_keeps_data(m: AppModel, key: Key)
    ensures
        m.moving_key(key) matches Some(s) ==> same_data(s, m),
{
    reveal(AppModel::moving_key);
}

proof fn lemma_switching_keeps_data(m: AppModel, key: Key)
    ensures
        m.switching_key(key) matches Some(s) ==> same_data(s, m),
{
    reveal(AppModel::switching_key);
}

proof fn lemma_bound_keeps_data(m: AppModel, key: Key)
    ensures
        same_data(m.bound_key(key).0, m),
{
    reveal(AppModel::bound_key);
    reveal(AppModel::asking_key);
    lemma_moving_keeps_data(m, key);
    lemma_switching_keeps_data(m, key);
}

proof fn lemma_steps_keep_data(m: AppModel, s: AppModel)
    requires
        same_data(s, m),
    ensures
        same_data(s.not_annotating(), m),
        same_data(s.yanked(), m),
        same_data(s.note_begun().following_cursor().stale(), m),
        same_data(
            (AppModel { find: Some(Seq::empty()), ..s }).saying(Seq::empty()).following_cursor().stale(),
            m,
        ),
        same_data(s.following_cursor().stale(), m),
{
    reveal(AppModel::note_begun);
    reveal(AppModel::yanked);
}

proof fn lemma_only_d_deletes(c: CursorState, key: Key, lines: Seq<Seq<char>>)
    ensures
        cursor_step(c, key, lines).1 == CursorCommand::Delete ==> key == Key::Char('d'),
{
}

proof fn lemma_cursor_keeps_data(m: AppModel, key: Key)
    requires
        key != Key::Char('d'),
    ensures
        same_data(m.cursor_key(key).0, m),
{
    reveal(AppModel::cursor_key);
    if let Some(c) = m.cursor {
        let d = cursor_after(c, key, m.annotate_lines);
        let command = cursor_step(c, key, m.annotate_lines).1;
        lemma_only_d_deletes(c, key, m.annotate_lines);
        lemma_steps_keep_data(m, m.with_cursor(d));
        assert(command != CursorCommand::Delete);
    }
}

proof fn lemma_file_key_keeps_data(m: AppModel, key: Key)
    requires
        key != Key::Char('d') || !m.annotate,
    ensures
        same_data(m.file_key(key).0, m),
{
    reveal(AppModel::file_key);
    lemma_bound_keeps_data(m, key);
    if m.annotate {
        lemma_cursor_keeps_data(m, key);
        lemma_cursor_keeps_data(m.focusing(Focus::Right), key);
    }
}

proof fn lemma_typing_keeps_data(m: AppModel, key: Key, ctrl: bool, id: u64, created_at: Seq<char>)
    ensures
        same_data(m.find_key(key, ctrl), m),
        !(key == Key::Char('s') && ctrl) ==> same_data(m.input_key(key, ctrl, id, created_at).0, m),
{
    reveal(AppModel::find_key);
    reveal(AppModel::input_key);
    reveal(AppModel::found);
}

/// A key changes notes only where it saves the note that is typed in, or deletes
/// one in the annotate view. No key changes what is known of the repository.
pub proof fn only_saving_and_deleting_change_notes(
    m: AppModel,
    key: Key,
    ctrl: bool,
    now: u64,
    id: u64,
    created_at: Seq<char>,
)
    requires
        !(m.input is Some && key == Key::Char('s') && ctrl),
        !(m.input is None && m.annotate && key == Key::Char('d')),
    ensures
        same_data(m.key_pressed(key, ctrl, now, id, created_at).0, m),
{
    let s = m.settled();
    lemma_typing_keeps_data(s, key, ctrl, id, created_at);
    lemma_bound_keeps_data(s, key);
    if key != Key::Char('d') || !s.annotate {
        lemma_file_key_keeps_data(s, key);
    }
}

/// The mouse changes no notes, nor what is known of the repository.
pub proof fn mouse_changes_no_notes(m: AppModel, kind: MouseKind, col: u16, row: u16)
    ensures
        same_data(m.moused(kind, col, row).0, m),
{
}

}
