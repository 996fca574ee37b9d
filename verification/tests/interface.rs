use knowledge_index::cli::args::{parse_kind, Args, Commands, Entry};
use knowledge_index::engine::model::FileKind;
use knowledge_index::engine::searcher::SearchMode;
use knowledge_index::engine::model::file_kind;
use knowledge_index::tui::app::{Action, App, AppMode, Edit, Key, ResultRow, StatusLevel};
use knowledge_index::tui::text::{Borders, TextLine};
use knowledge_index::tui::layout::Area;
use knowledge_index::tui::ui::{render, Content, Screen, Tone};
use knowledge_index::tui::layout::Row;
use knowledge_index::tui::ui::{assemble, render_status_bar, screen_rows};
use knowledge_index::tui::views::search::{
    compose, render_empty_state, render_no_results, render_results, search_rows, truncate_snippet,
    Item, Pane,
};

fn app(mode: AppMode) -> App {
    App {
        mode,
        status_message: None,
        search_input: String::new(),
        search_results: Vec::new(),
        search_selected: 0,
        first_run: false,
    }
}

fn texts(lines: &[TextLine]) -> Vec<String> {
    lines.iter().map(|l| l.pieces.iter().map(|p| p.text.as_str()).collect()).collect()
}

fn pane_texts(pane: &Pane) -> Vec<String> {
    match pane {
        Pane::Text { lines, .. } => texts(lines),
        Pane::Results { .. } => panic!("a pane of text is drawn"),
    }
}

fn is_welcome(pane: &Pane) -> bool {
    pane_texts(pane).get(1).map(String::as_str) == Some("Welcome to knowledge-index!")
}

fn is_prompt(pane: &Pane) -> bool {
    pane_texts(pane).get(1).map(String::as_str) == Some("Start typing to search...")
}

fn heading(item: &Item) -> String {
    item.heading.iter().map(|p| p.text.as_str()).collect()
}

fn row(snippet: &str) -> ResultRow {
    ResultRow { repo_name: "repo".to_string(), file_path: "a.rs".to_string(), snippet: snippet.to_string() }
}

fn search(flags: (bool, bool, bool)) -> Commands {
    Commands::Search {
        query: "q".to_string(),
        repo: None,
        file_type: None,
        limit: 20,
        group_by_repo: false,
        lexical: flags.0,
        semantic: flags.1,
        hybrid: flags.2,
    }
}

#[test]
fn snippet_is_cleaned() {
    assert_eq!(truncate_snippet(">>>foo<<< bar\nbaz  ", 80), "foo bar baz");
    assert_eq!(truncate_snippet("  \u{a0}\t x \u{3000}\n", 80), "x");
    assert_eq!(truncate_snippet(">>>>a<<<<", 80), ">a<");
    assert_eq!(truncate_snippet("<<>>><a", 80), "a");
    assert_eq!(truncate_snippet(" \n ", 80), "");
}

#[test]
fn long_snippet_ends_in_dots() {
    assert_eq!(truncate_snippet("abcdefghij", 10), "abcdefghij");
    assert_eq!(truncate_snippet("abcdefghij", 9), "abcdef...");
    assert_eq!(truncate_snippet("abcdefghij", 3), "...");
    assert_eq!(truncate_snippet("abcdefghij", 0), "...");
}

#[test]
fn snippet_is_cut_between_characters() {
    assert_eq!(truncate_snippet("\u{e9}\u{e9}\u{e9}\u{e9}\u{e9}", 10), "\u{e9}\u{e9}\u{e9}\u{e9}\u{e9}");
    assert_eq!(truncate_snippet("\u{e9}\u{e9}\u{e9}\u{e9}\u{e9}", 9), "\u{e9}\u{e9}\u{e9}...");
    assert_eq!(truncate_snippet("\u{e9}\u{e9}\u{e9}\u{e9}\u{e9}", 8), "\u{e9}\u{e9}...");
    assert_eq!(truncate_snippet("a\u{1f600}bcdef", 7), "a...");
}

#[test]
fn small_terminal_gets_the_warning() {
    for (w, h) in [(59, 24), (80, 14), (0, 0)] {
        match render(Area { x: 0, y: 0, width: w, height: h }, &app(AppMode::Search)) {
            Screen::TooSmall { width, height, lines, tone, block } => {
                assert_eq!((width, height), (w, h));
                assert_eq!(
                    texts(&lines),
                    vec![
                        "Terminal too small!".to_string(),
                        String::new(),
                        format!("Current: {}x{}", w, h),
                        "Required: 60x15".to_string(),
                        String::new(),
                        "Please resize your terminal.".to_string(),
                    ]
                );
                assert!(lines.iter().all(|l| !l.bold && l.pieces[0].tone.is_none()));
                assert_eq!(tone, Tone::Red);
                assert_eq!((block.title.as_str(), block.borders, block.tone), ("", Borders::All, None));
            }
            _ => panic!("a terminal of {}x{} is too small", w, h),
        }
    }
}

#[test]
fn screen_has_header_view_and_status_bar() {
    let mut state = app(AppMode::Search);
    state.first_run = true;
    match render(Area { x: 0, y: 0, width: 80, height: 24 }, &state) {
        Screen::Main { header, content, status } => {
            assert_eq!(header.area, Area { x: 0, y: 0, width: 80, height: 3 });
            assert_eq!(texts(std::slice::from_ref(&header.title)), vec!["knowledge-index"]);
            assert!(header.title.bold);
            assert_eq!(header.title.pieces[0].tone, Some(Tone::Cyan));
            let tabs: Vec<(&str, bool)> =
                header.tabs.iter().map(|t| (t.label.as_str(), t.lit)).collect();
            assert_eq!(tabs, vec![(" Search ", true), (" Repos ", false)]);
            assert_eq!(header.block.borders, Borders::Bottom);
            assert_eq!(status.area, Area { x: 0, y: 23, width: 80, height: 1 });
            assert!(!status.shows_message);
            assert_eq!(status.tone, Tone::DarkGray);
            assert!(status.text.starts_with("Type to search \u{2502} \u{2191}\u{2193} navigate"));
            match content {
                Content::Search(view) => {
                    assert_eq!(view.input_area, Area { x: 0, y: 3, width: 80, height: 3 });
                    assert_eq!(view.results_area, Area { x: 0, y: 6, width: 80, height: 17 });
                    assert!(is_welcome(&view.pane));
                    assert_eq!(view.input_block.title, " Search ");
                    assert_eq!(view.input_block.tone, Some(Tone::Blue));
                    assert_eq!(view.input_tone, Tone::Yellow);
                }
                _ => panic!("the search mode shows the search view"),
            }
        }
        _ => panic!("a terminal of 80x24 is large enough"),
    }
}

#[test]
fn mode_selects_the_view() {
    let size = Area { x: 0, y: 0, width: 60, height: 15 };
    match render(size, &app(AppMode::Repos)) {
        Screen::Main { header, content: Content::Repos(area), .. } => {
            let lit: Vec<bool> = header.tabs.iter().map(|t| t.lit).collect();
            assert_eq!(lit, vec![false, true]);
            assert_eq!(area, Area { x: 0, y: 3, width: 60, height: 11 });
        }
        _ => panic!("the repos mode shows the repository list"),
    }
    match render(size, &app(AppMode::Help)) {
        Screen::Main { header, content: Content::Help(view), .. } => {
            assert!(is_prompt(&view.pane));
            assert!(header.tabs.iter().all(|t| !t.lit));
        }
        _ => panic!("the help mode shows the help over the search view"),
    }
}

#[test]
fn status_message_has_the_colour_of_its_level() {
    let size = Area { x: 0, y: 0, width: 80, height: 24 };
    let levels = [
        (StatusLevel::Info, Tone::Blue),
        (StatusLevel::Success, Tone::Green),
        (StatusLevel::Warning, Tone::Yellow),
        (StatusLevel::Error, Tone::Red),
    ];
    for (level, tone) in levels {
        let mut state = app(AppMode::Search);
        state.status_message = Some(("indexed".to_string(), level));
        match render(size, &state) {
            Screen::Main { status, .. } => {
                assert!(status.shows_message);
                assert_eq!(status.tone, tone);
                assert_eq!(status.text, "indexed");
            }
            _ => panic!("a terminal of 80x24 is large enough"),
        }
    }
}

#[test]
fn results_pane_follows_input_and_results() {
    let area = Area { x: 0, y: 0, width: 14, height: 10 };
    let mut state = app(AppMode::Search);
    state.first_run = true;
    assert!(is_welcome(&compose(&state, area, area, area).pane));
    state.first_run = false;
    assert!(is_prompt(&compose(&state, area, area, area).pane));
    state.search_input = "query".to_string();
    match compose(&state, area, area, area).pane {
        Pane::Text { lines, tone, .. } => {
            assert_eq!(texts(&lines)[1], "No results for \"query\"");
            assert_eq!(tone, Some(Tone::Yellow));
        }
        _ => panic!("a query without results gets the note"),
    }
    state.search_results = vec![row("short"), row(">>>a much<<< longer snippet")];
    state.search_selected = 1;
    match compose(&state, area, area, area).pane {
        Pane::Results { block, items } => {
            assert_eq!(block.title, " Results (2) ");
            assert_eq!(heading(&items[0]), "repo:a.rs");
            assert_eq!(items.len(), 2);
            assert_eq!((items[0].selected, items[0].snippet.as_str()), (false, "short"));
            assert_eq!((items[1].selected, items[1].snippet.as_str()), (true, "a much ..."));
        }
        _ => panic!("results are listed"),
    }
}

#[test]
fn file_kinds_have_names() {
    assert_eq!(parse_kind(b"code"), Some(FileKind::Code));
    assert_eq!(parse_kind(b"markdown"), Some(FileKind::Markdown));
    assert_eq!(parse_kind(b"config"), Some(FileKind::Config));
    assert_eq!(parse_kind(b"Code"), None);
    assert_eq!(parse_kind(b""), None);
}

#[test]
fn search_command_selects_its_mode() {
    assert_eq!(search((false, false, false)).search_mode(), Some(Some(SearchMode::Hybrid)));
    assert_eq!(search((true, false, false)).search_mode(), Some(Some(SearchMode::Lexical)));
    assert_eq!(search((false, true, false)).search_mode(), Some(Some(SearchMode::Semantic)));
    assert_eq!(search((true, false, true)).search_mode(), Some(None));
    assert_eq!(Commands::List {}.search_mode(), None);
}

#[test]
fn run_without_command_is_interactive() {
    let mut args =
        Args { command: None, json: false, quiet: true, no_color: false, verbose: false, debug: false };
    assert_eq!(args.entry(), Entry::Interactive);
    assert!(!args.reports());
    args.command = Some(Commands::Mcp {});
    args.quiet = false;
    assert_eq!(args.entry(), Entry::Command);
    assert!(args.reports());
}

#[test]
fn file_kind_follows_the_extension() {
    assert_eq!(file_kind(b"notes/today.md"), FileKind::Markdown);
    assert_eq!(file_kind(b"README.markdown"), FileKind::Markdown);
    assert_eq!(file_kind(b"page.mdx"), FileKind::Markdown);
    assert_eq!(file_kind(b"Cargo.toml"), FileKind::Config);
    assert_eq!(file_kind(b"a/b/settings.conf"), FileKind::Config);
    assert_eq!(file_kind(b"ci.yml"), FileKind::Config);
    assert_eq!(file_kind(b"src/main.rs"), FileKind::Code);
    assert_eq!(file_kind(b"Makefile"), FileKind::Code);
    assert_eq!(file_kind(b"dir.md/script"), FileKind::Code);
    assert_eq!(file_kind(b"archive.tar.json"), FileKind::Config);
    assert_eq!(file_kind(b"upper.MD"), FileKind::Code);
    assert_eq!(file_kind(b""), FileKind::Code);
}

#[test]
fn keys_move_between_views() {
    let mut state = app(AppMode::Search);
    assert_eq!(state.on_key(Key::Tab), Action::Show(AppMode::Repos));
    assert_eq!(state.mode, AppMode::Repos);
    assert_eq!(state.on_key(Key::Help), Action::Show(AppMode::Help));
    assert_eq!(state.on_key(Key::Tab), Action::Pass);
    assert_eq!(state.on_key(Key::Escape), Action::Show(AppMode::Search));
    assert_eq!(state.mode, AppMode::Search);
    assert_eq!(state.on_key(Key::Quit), Action::Pass);
    assert_eq!(state.on_key(Key::Escape), Action::Quit);
    state.mode = AppMode::Repos;
    assert_eq!(state.on_key(Key::Quit), Action::Quit);
    assert_eq!(state.on_key(Key::Up), Action::Pass);
}

#[test]
fn arrows_move_the_selection_within_the_results() {
    let mut state = app(AppMode::Search);
    state.search_results = vec![row("a"), row("b"), row("c")];
    assert_eq!(state.on_key(Key::Up), Action::SelectPrevious);
    assert_eq!(state.search_selected, 0);
    assert_eq!(state.on_key(Key::Down), Action::SelectNext);
    assert_eq!(state.on_key(Key::Down), Action::SelectNext);
    assert_eq!(state.on_key(Key::Down), Action::SelectNext);
    assert_eq!(state.search_selected, 2);
    assert_eq!(state.on_key(Key::Up), Action::SelectPrevious);
    assert_eq!(state.search_selected, 1);
}

#[test]
fn status_bar_shows_the_hints_of_the_mode() {
    let area = Area { x: 0, y: 9, width: 80, height: 1 };
    let search = render_status_bar(&app(AppMode::Search), area);
    assert_eq!(
        search.text,
        "Type to search │ ↑↓ navigate │ Enter open │ Tab repos │ ? help │ q quit"
    );
    let repos = render_status_bar(&app(AppMode::Repos), area);
    assert_eq!(repos.text, "↑↓ navigate │ d delete │ r refresh │ Tab search │ ? help │ q quit");
    let help = render_status_bar(&app(AppMode::Help), area);
    assert_eq!(help.text, "Press ? or Esc to close");
    assert_eq!((help.area, help.tone, help.shows_message), (area, Tone::DarkGray, false));
}

#[test]
fn layout_rows_are_header_view_and_status_bar() {
    assert_eq!(screen_rows(), vec![Row::Length(3), Row::Min(0), Row::Length(1)]);
    assert_eq!(search_rows(), vec![Row::Length(3), Row::Min(0)]);
}

#[test]
fn screen_parts_take_the_areas_they_are_given() {
    let top = Area { x: 1, y: 2, width: 70, height: 3 };
    let middle = Area { x: 1, y: 5, width: 70, height: 9 };
    let bottom = Area { x: 1, y: 14, width: 70, height: 1 };
    match assemble(&app(AppMode::Repos), top, middle, bottom) {
        Screen::Main { header, content: Content::Repos(area), status } => {
            assert_eq!((header.area, area, status.area), (top, middle, bottom));
        }
        _ => panic!("the repos mode shows the repository list"),
    }
    match assemble(&app(AppMode::Search), top, middle, bottom) {
        Screen::Main { header, content: Content::Search(view), status } => {
            assert_eq!((header.area, view.area, status.area), (top, middle, bottom));
            assert_eq!(view.input_area, Area { x: 1, y: 5, width: 70, height: 3 });
            assert_eq!(view.results_area, Area { x: 1, y: 8, width: 70, height: 6 });
            assert_eq!(view.input, "› ");
        }
        _ => panic!("the search mode shows the search view"),
    }
}

#[test]
fn narrow_area_shows_every_pane_but_the_list() {
    let narrow = Area { x: 0, y: 0, width: 3, height: 8 };
    let mut state = app(AppMode::Search);
    let view = knowledge_index::tui::views::search::render(&state, narrow);
    assert!(is_prompt(&view.pane));
    assert_eq!((view.input_area.width, view.results_area.width), (3, 3));
    assert!(view.input_area.y + view.input_area.height <= view.results_area.y);
    state.search_input = "foo".to_string();
    let view = knowledge_index::tui::views::search::render(&state, narrow);
    assert_eq!(pane_texts(&view.pane)[1], "No results for \"foo\"");
    assert_eq!(view.input, "› foo");
    state.search_input = String::new();
    state.search_results = vec![row("x")];
    let view = knowledge_index::tui::views::search::render(&state, narrow);
    assert!(is_prompt(&view.pane));
    state.search_results = Vec::new();
    match render_results(&state, 2) {
        Pane::Results { block, items } => {
            assert_eq!(block.title, " Results (0) ");
            assert!(items.is_empty());
        }
        _ => panic!("the list is drawn"),
    }
}

#[test]
fn result_list_has_a_heading_for_each_result() {
    let mut state = app(AppMode::Search);
    state.search_input = "q".to_string();
    state.search_results = (0..12)
        .map(|i| ResultRow {
            repo_name: format!("repo{i}"),
            file_path: format!("dir/file{i}.rs"),
            snippet: format!("snippet {i}"),
        })
        .collect();
    state.search_selected = 11;
    match render_results(&state, 80) {
        Pane::Results { block, items } => {
            assert_eq!(block.title, " Results (12) ");
            assert_eq!((block.borders, block.tone), (Borders::All, None));
            assert_eq!(items.len(), 12);
            for (i, item) in items.iter().enumerate() {
                assert_eq!(heading(item), format!("repo{i}:dir/file{i}.rs"));
                assert_eq!(item.snippet, format!("snippet {i}"));
                assert_eq!(item.selected, i == 11);
                assert_eq!(item.heading.len(), 3);
                assert_eq!(item.heading[0].tone, Some(Tone::Blue));
                assert_eq!((item.heading[1].text.as_str(), item.heading[1].tone), (":", None));
                assert_eq!(item.heading[2].tone, Some(Tone::Cyan));
            }
        }
        _ => panic!("results are listed"),
    }
}

#[test]
fn no_results_line_names_the_query() {
    match render_no_results("async \"fn\"") {
        Pane::Text { block, lines, tone } => {
            assert_eq!(
                texts(&lines),
                vec![
                    "",
                    "No results for \"async \"fn\"\"",
                    "",
                    "Suggestions:",
                    "  • Check spelling",
                    "  • Try broader search terms",
                    "  • Use prefix matching: func*",
                ]
            );
            assert_eq!(lines[1].pieces[0].tone, None);
            assert!(lines[3..].iter().all(|l| l.pieces[0].tone == Some(Tone::DarkGray)));
            assert_eq!(tone, Some(Tone::Yellow));
            assert_eq!((block.title.as_str(), block.borders), (" Results ", Borders::All));
        }
        _ => panic!("the note is drawn"),
    }
    assert_eq!(pane_texts(&render_no_results(""))[1], "No results for \"\"");
}

#[test]
fn welcome_and_prompt_have_their_lines() {
    let mut state = app(AppMode::Search);
    state.first_run = true;
    match render_empty_state(&state) {
        Pane::Text { block, lines, tone } => {
            assert_eq!(
                texts(&lines),
                vec![
                    "",
                    "Welcome to knowledge-index!",
                    "",
                    "Get started:",
                    "  1. Press Tab to view repositories",
                    "  2. Or run: knowledge-index index /path/to/project",
                    "",
                    "Press ? for help",
                ]
            );
            assert!(lines[1].bold);
            assert_eq!(lines[1].pieces[0].tone, Some(Tone::Cyan));
            assert_eq!(lines[7].pieces[0].tone, Some(Tone::DarkGray));
            assert_eq!(tone, None);
            assert_eq!((block.title.as_str(), block.borders), (" Results ", Borders::All));
        }
        _ => panic!("the welcome is text"),
    }
    state.first_run = false;
    match render_empty_state(&state) {
        Pane::Text { block, lines, tone } => {
            assert_eq!(
                texts(&lines),
                vec![
                    "",
                    "Start typing to search...",
                    "",
                    "Examples:",
                    "  async fn          - search for text",
                    "  \"exact phrase\"    - match exactly",
                    "  func*             - prefix matching",
                ]
            );
            assert!(lines.iter().all(|l| !l.bold));
            assert_eq!(tone, None);
            assert_eq!(block.title, " Results ");
        }
        _ => panic!("the prompt is text"),
    }
}

#[test]
fn input_line_is_edited_at_its_end() {
    let mut state = app(AppMode::Search);
    state.edit(Edit::Erase);
    assert_eq!(state.search_input, "");
    state.edit(Edit::Type('f'));
    state.edit(Edit::Type('\u{e9}'));
    state.edit(Edit::Type('o'));
    assert_eq!(state.search_input, "f\u{e9}o");
    state.edit(Edit::Erase);
    state.edit(Edit::Erase);
    assert_eq!(state.search_input, "f");
    let request = state.request();
    assert_eq!(request.query, b"f".to_vec());
    assert_eq!((request.limit, request.group_by_repo), (50, false));
}

#[test]
fn rows_settle_where_there_is_room() {
    let state = app(AppMode::Search);
    let tight = Area { x: 5, y: 7, width: 10, height: 3 };
    let view = knowledge_index::tui::views::search::render(&state, tight);
    assert_eq!(view.input_area, Area { x: 5, y: 7, width: 10, height: 3 });
    assert_eq!(view.results_area, Area { x: 5, y: 10, width: 10, height: 0 });
    match render(Area { x: 2, y: 1, width: 60, height: 15 }, &state) {
        Screen::Main { header, content: Content::Search(view), status } => {
            assert_eq!(header.area, Area { x: 2, y: 1, width: 60, height: 3 });
            assert_eq!(view.area, Area { x: 2, y: 4, width: 60, height: 11 });
            assert_eq!(status.area, Area { x: 2, y: 15, width: 60, height: 1 });
            assert_eq!(view.input_area, Area { x: 2, y: 4, width: 60, height: 3 });
            assert_eq!(view.results_area, Area { x: 2, y: 7, width: 60, height: 8 });
        }
        _ => panic!("a terminal of 60x15 is large enough"),
    }
}

#[test]
fn rows_stay_inside_and_in_order_without_room() {
    let state = app(AppMode::Search);
    for area in [
        Area { x: 0, y: 0, width: 9, height: 2 },
        Area { x: 0, y: 0, width: 9, height: 0 },
        Area { x: 3, y: 65530, width: 9, height: 40 },
    ] {
        let view = knowledge_index::tui::views::search::render(&state, area);
        for part in [view.input_area, view.results_area] {
            assert_eq!((part.x, part.width), (area.x, area.width));
            assert!(part.y >= area.y);
            assert!(part.y as u32 + part.height as u32 <= area.y as u32 + area.height as u32);
        }
        assert!(view.input_area.y as u32 + view.input_area.height as u32 <= view.results_area.y as u32);
    }
}
