//! The state of the terminal interface.

use vstd::prelude::*;
use vstd::utf8::{decode_utf8, encode_utf8, valid_utf8};
use crate::engine::model::Filters;
use crate::engine::query::QueryError;
use crate::engine::registry::{Repository, RepositoryView, by_id};
use crate::engine::searcher::{
    SearchMode, SearchOutcome, SearchRequest, SearchResult, SearchResultView,
};
use crate::engine::text::views;

verus! {

/// Which view the interface shows.
#[derive(Clone, Copy, PartialEq, Eq, Structural, Debug)]
pub enum AppMode {
    Search,
    Repos,
    Help,
}

/// How grave a status message is.
#[derive(Clone, Copy, PartialEq, Eq, Structural, Debug)]
pub enum StatusLevel {
    Info,
    Success,
    Warning,
    Error,
}

/// A search result as the result list shows it.
#[derive(Debug)]
pub struct ResultRow {
    pub repo_name: String,
    pub file_path: String,
    pub snippet: String,
}

/// A `ResultRow` as contracts see it.
pub struct ResultRowView {
    pub repo_name: Seq<char>,
    pub file_path: Seq<char>,
    pub snippet: Seq<char>,
}

impl View for ResultRow {
    type V = ResultRowView;

    open spec fn view(&self) -> ResultRowView {
        ResultRowView {
            repo_name: self.repo_name@,
            file_path: self.file_path@,
            snippet: self.snippet@,
        }
    }
}

/// The state of the interface.
#[derive(Debug)]
pub struct App {
    pub mode: AppMode,
    pub status_message: Option<(String, StatusLevel)>,
    pub search_input: String,
    pub search_results: Vec<ResultRow>,
    pub search_selected: usize,
    pub first_run: bool,
}

/// An `App` as contracts see it.
pub struct AppView {
    pub mode: AppMode,
    pub status: Option<(Seq<char>, StatusLevel)>,
    pub search_input: Seq<char>,
    pub search_results: Seq<ResultRowView>,
    pub search_selected: usize,
    pub first_run: bool,
}

impl View for App {
    type V = AppView;

    open spec fn view(&self) -> AppView {
        AppView {
            mode: self.mode,
            status: match self.status_message {
                Some(m) => Some((m.0@, m.1)),
                None => None,
            },
            search_input: self.search_input@,
            search_results: views(self.search_results@),
            search_selected: self.search_selected,
            first_run: self.first_run,
        }
    }
}

/// A key as the interface tells keys apart.
#[derive(Clone, Copy, PartialEq, Eq, Structural, Debug)]
pub enum Key {
    Escape,
    /// The question mark.
    Help,
    Tab,
    Up,
    Down,
    /// The letter q.
    Quit,
    /// Any other key.
    Other,
}

/// What a key does.
#[derive(Clone, Copy, PartialEq, Eq, Structural, Debug)]
pub enum Action {
    /// The interface ends.
    Quit,
    /// The interface shows another view.
    Show(AppMode),
    /// The selection moves up.
    SelectPrevious,
    /// The selection moves down.
    SelectNext,
    /// The key is for the input line, or for nothing.
    Pass,
}

/// What a key does in a mode. The question mark opens and closes the
/// help. Escape closes the help, and ends the interface elsewhere. Tab
/// goes from the search to the repositories and back. In the search the
/// arrows move the selection and the letter q is typed like any letter;
/// in the repositories it ends the interface.
pub open spec fn action_for(mode: AppMode, key: Key) -> Action {
    match key {
        Key::Help => if mode == AppMode::Help {
            Action::Show(AppMode::Search)
        } else {
            Action::Show(AppMode::Help)
        },
        Key::Escape => if mode == AppMode::Help {
            Action::Show(AppMode::Search)
        } else {
            Action::Quit
        },
        Key::Tab => match mode {
            AppMode::Search => Action::Show(AppMode::Repos),
            AppMode::Repos => Action::Show(AppMode::Search),
            AppMode::Help => Action::Pass,
        },
        Key::Up => if mode == AppMode::Search {
            Action::SelectPrevious
        } else {
            Action::Pass
        },
        Key::Down => if mode == AppMode::Search {
            Action::SelectNext
        } else {
            Action::Pass
        },
        Key::Quit => if mode == AppMode::Repos {
            Action::Quit
        } else {
            Action::Pass
        },
        Key::Other => Action::Pass,
    }
}

/// The selection after an action: one up, not above the first result, or
/// one down, not below the last.
pub open spec fn selection_after(selected: usize, count: usize, action: Action) -> usize {
    match action {
        Action::SelectPrevious => if selected > 0 {
            (selected - 1) as usize
        } else {
            0
        },
        Action::SelectNext => if selected + 1 < count {
            (selected + 1) as usize
        } else {
            selected
        },
        _ => selected,
    }
}

impl App {
    /// Takes in a key: the mode and the selection follow it, and the
    /// action says what is left for the caller to do.
    pub fn on_key(&mut self, key: Key) -> (action: Action)
        ensures
            action == action_for(old(self).mode, key),
            final(self).mode == match action {
                Action::Show(mode) => mode,
                _ => old(self).mode,
            },
            final(self).search_selected == selection_after(
                old(self).search_selected,
                old(self).search_results.len(),
                action,
            ),
            final(self).status_message == old(self).status_message,
            final(self).search_input == old(self).search_input,
            final(self).search_results == old(self).search_results,
            final(self).first_run == old(self).first_run,
    {
        let mode = self.mode;
        let action = match key {
            Key::Help => if mode == AppMode::Help {
                Action::Show(AppMode::Search)
            } else {
                Action::Show(AppMode::Help)
            },
            Key::Escape => if mode == AppMode::Help {
                Action::Show(AppMode::Search)
            } else {
                Action::Quit
            },
            Key::Tab => match mode {
                AppMode::Search => Action::Show(AppMode::Repos),
                AppMode::Repos => Action::Show(AppMode::Search),
                AppMode::Help => Action::Pass,
            },
            Key::Up => if mode == AppMode::Search {
                Action::SelectPrevious
            } else {
                Action::Pass
            },
            Key::Down => if mode == AppMode::Search {
                Action::SelectNext
            } else {
                Action::Pass
            },
            Key::Quit => if mode == AppMode::Repos {
                Action::Quit
            } else {
                Action::Pass
            },
            Key::Other => Action::Pass,
        };
        match action {
            Action::Show(next) => {
                self.mode = next;
            },
            Action::SelectPrevious => {
                if self.search_selected > 0 {
                    self.search_selected = self.search_selected - 1;
                }
            },
            Action::SelectNext => {
                if self.search_selected < usize::MAX && self.search_selected + 1
                    < self.search_results.len() {
                    self.search_selected = self.search_selected + 1;
                }
            },
            _ => {},
        }
        action
    }
}

/// A change of the input line.
#[derive(Clone, Copy, PartialEq, Eq, Structural, Debug)]
pub enum Edit {
    /// A character is typed at the end.
    Type(char),
    /// The last character is taken away.
    Erase,
}

/// The input line after a change: with the character at its end, or
/// without its last character where it has one.
pub open spec fn edited(input: Seq<char>, edit: Edit) -> Seq<char> {
    match edit {
        Edit::Type(c) => input.push(c),
        Edit::Erase => if input.len() > 0 {
            input.drop_last()
        } else {
            input
        },
    }
}

/// The most results that the interface asks for.
pub const RESULT_LIMIT: usize = 50;

/// The text that bytes are shown as: the text that they encode where they
/// are UTF-8, and else that text with a replacement character for each
/// run of bytes that encodes nothing.
pub uninterp spec fn lossy_text(bytes: Seq<u8>) -> Seq<char>;

/// The text that bytes are shown as. This is `String::from_utf8_lossy` of
/// the standard library, which is taken to be a function of the bytes
/// and, as its documentation says, to give the text that the bytes
/// encode where they are valid UTF-8.
#[verifier::external_body]
fn lossy(bytes: &[u8]) -> (text: String)
    ensures
        text@ == lossy_text(bytes@),
        valid_utf8(bytes@) ==> text@ == decode_utf8(bytes@),
{
    String::from_utf8_lossy(bytes).into_owned()
}

/// The row of a search result: the name of its repository, which is
/// empty where the repository is not among `repos`, the path of its file
/// and its snippet, each as text.
pub open spec fn row_of(result: SearchResultView, repos: Seq<RepositoryView>) -> ResultRowView {
    let i = by_id(repos, result.meta.repo_id, 0);
    ResultRowView {
        repo_name: if i < repos.len() {
            lossy_text(repos[i].display_name)
        } else {
            Seq::empty()
        },
        file_path: lossy_text(result.meta.path),
        snippet: lossy_text(result.snippet),
    }
}

/// The rows of search results: one for each, in the results' order.
pub open spec fn rows_of(results: Seq<SearchResultView>, repos: Seq<RepositoryView>) -> Seq<
    ResultRowView,
> {
    Seq::new(results.len(), |i: int| row_of(results[i], repos))
}

/// The message that a query with a quote left open gets.
pub open spec fn bad_query_message() -> Seq<char> {
    "Unbalanced quotes"@
}

/// The rows of search results.
pub fn result_rows(results: &Vec<SearchResult>, repos: &Vec<Repository>) -> (rows: Vec<ResultRow>)
    ensures
        views(rows@) == rows_of(views(results@), views(repos@)),
{
    let ghost rs = views(repos@);
    let mut rows: Vec<ResultRow> = Vec::new();
    let mut n: usize = 0;
    while n < results.len()
        invariant
            n <= results.len(),
            rs == views(repos@),
            rows.len() == n,
            forall|k: int|
                0 <= k < n ==> (#[trigger] rows[k])@ == row_of(views(results@)[k], rs),
        decreases results.len() - n,
    {
        let result = &results[n];
        assert(views(results@)[n as int] == result@);
        let mut i: usize = 0;
        while i < repos.len() && repos[i].id != result.meta.repo_id
            invariant
                i <= repos.len(),
                rs == views(repos@),
                by_id(rs, result.meta.repo_id, i as int) == by_id(rs, result.meta.repo_id, 0),
            decreases repos.len() - i,
        {
            assert(rs[i as int] == repos[i as int]@);
            i += 1;
        }
        proof {
            if i < repos.len() {
                assert(rs[i as int] == repos[i as int]@);
            }
        }
        let repo_name = if i < repos.len() {
            lossy(repos[i].display_name.as_slice())
        } else {
            String::new()
        };
        rows.push(
            ResultRow {
                repo_name,
                file_path: lossy(result.meta.path.as_slice()),
                snippet: lossy(result.snippet.as_slice()),
            },
        );
        n += 1;
    }
    assert(views(rows@) =~= rows_of(views(results@), rs));
    rows
}

impl App {
    /// Changes the input line.
    pub fn edit(&mut self, edit: Edit)
        ensures
            final(self).search_input@ == edited(old(self).search_input@, edit),
            final(self).mode == old(self).mode,
            final(self).status_message == old(self).status_message,
            final(self).search_results == old(self).search_results,
            final(self).search_selected == old(self).search_selected,
            final(self).first_run == old(self).first_run,
    {
        match edit {
            Edit::Type(c) => {
                crate::tui::views::search::push_char(&mut self.search_input, c);
            },
            Edit::Erase => {
                let chars = crate::tui::views::search::chars_of(self.search_input.as_str());
                if chars.len() > 0 {
                    let mut shorter = String::new();
                    let mut i: usize = 0;
                    while i < chars.len() - 1
                        invariant
                            chars.len() > 0,
                            i <= chars.len() - 1,
                            shorter@ == chars@.take(i as int),
                        decreases chars.len() - i,
                    {
                        crate::tui::views::search::push_char(&mut shorter, chars[i]);
                        assert(chars@.take(i + 1) =~= chars@.take(i as int).push(chars@[i as int]));
                        i += 1;
                    }
                    assert(chars@.take(chars.len() - 1) =~= chars@.drop_last());
                    self.search_input = shorter;
                }
            },
        }
    }

    /// The search that the input line asks for: the input as query, in
    /// the lexical mode, over all repositories and kinds, for at most
    /// `RESULT_LIMIT` results in one list.
    pub fn request(&self) -> (r: SearchRequest)
        ensures
            r.query@ == encode_utf8(self.search_input@),
            r.mode == SearchMode::Lexical,
            r.filters.repo_id is None && r.filters.kind is None,
            r.limit == RESULT_LIMIT,
            !r.group_by_repo,
    {
        SearchRequest {
            query: self.search_input.as_str().as_bytes_vec(),
            mode: SearchMode::Lexical,
            filters: Filters::none(),
            limit: RESULT_LIMIT,
            group_by_repo: false,
        }
    }

    /// Takes in what the search for the input gave: the rows of its
    /// results with the first one selected and no status message, or
    /// no rows and a warning where the query has a quote left open.
    pub fn show(&mut self, outcome: Result<SearchOutcome, QueryError>, repos: &Vec<Repository>)
        ensures
            final(self).mode == old(self).mode,
            final(self).search_input == old(self).search_input,
            final(self).first_run == old(self).first_run,
            final(self).search_selected == 0,
            match outcome {
                Ok(o) => final(self)@.search_results == rows_of(views(o.results@), views(repos@))
                    && final(self)@.status is None,
                Err(e) => final(self)@.search_results.len() == 0 && final(self)@.status == Some(
                    (bad_query_message(), StatusLevel::Warning),
                ),
            },
    {
        self.search_selected = 0;
        match outcome {
            Ok(o) => {
                self.search_results = result_rows(&o.results, repos);
                self.status_message = None;
            },
            Err(_) => {
                self.search_results = Vec::new();
                self.status_message = Some(
                    (String::from_str("Unbalanced quotes"), StatusLevel::Warning),
                );
                assert(views(self.search_results@) =~= Seq::<ResultRowView>::empty());
            },
        }
    }

    /// Takes in that the input line is empty: no rows, no status message,
    /// and the selection at the top.
    pub fn clear(&mut self)
        ensures
            final(self).mode == old(self).mode,
            final(self).search_input == old(self).search_input,
            final(self).first_run == old(self).first_run,
            final(self).search_selected == 0,
            final(self)@.search_results.len() == 0,
            final(self)@.status is None,
    {
        self.search_selected = 0;
        self.search_results = Vec::new();
        self.status_message = None;
        assert(views(self.search_results@) =~= Seq::<ResultRowView>::empty());
    }
}

} // verus!
