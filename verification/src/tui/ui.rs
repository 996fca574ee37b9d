//! The screen as a whole: the warning where the terminal is too small,
//! else the header, the view of the current mode and the status bar.

use vstd::prelude::*;
use crate::engine::text::views;
use crate::tui::app::{App, AppMode, AppView, StatusLevel};
use crate::tui::layout::{Area, Row, divided, settled, settles, split_rows};
use crate::tui::text::{
    Block, BlockView, Borders, TextLine, TextLineView, boxed, boxed_under, line_of, plain,
    plain_line, strong,
};
use crate::tui::views::search::{SearchView, decimal, lists_results, push_decimal, shows};

pub use crate::tui::text::Tone;

verus! {

/// The least width of a terminal that the interface is drawn in.
pub const MIN_WIDTH: u16 = 60;

/// The least height of a terminal that the interface is drawn in.
pub const MIN_HEIGHT: u16 = 15;

/// A tab of the header: its label, and whether it is lit.
#[derive(Debug)]
pub struct Tab {
    pub label: String,
    pub lit: bool,
}

impl View for Tab {
    type V = (Seq<char>, bool);

    open spec fn view(&self) -> (Seq<char>, bool) {
        (self.label@, self.lit)
    }
}

/// The header: the title line, the tabs from left to right, and the
/// block around the two.
#[derive(Debug)]
pub struct Header {
    pub area: Area,
    pub title: TextLine,
    pub tabs: Vec<Tab>,
    pub block: Block,
}

/// A `Header` as contracts see it.
pub struct HeaderView {
    pub area: Area,
    pub title: TextLineView,
    pub tabs: Seq<(Seq<char>, bool)>,
    pub block: BlockView,
}

impl View for Header {
    type V = HeaderView;

    open spec fn view(&self) -> HeaderView {
        HeaderView {
            area: self.area,
            title: self.title@,
            tabs: views(self.tabs@),
            block: self.block@,
        }
    }
}

/// The status bar: its text, which is the status message of the
/// interface where it has one and else the key hints of the current
/// mode, and the colour of the text.
#[derive(Debug)]
pub struct StatusBar {
    pub area: Area,
    pub text: String,
    pub shows_message: bool,
    pub tone: Tone,
}

/// A `StatusBar` as contracts see it.
pub struct StatusBarView {
    pub area: Area,
    pub text: Seq<char>,
    pub shows_message: bool,
    pub tone: Tone,
}

impl View for StatusBar {
    type V = StatusBarView;

    open spec fn view(&self) -> StatusBarView {
        StatusBarView {
            area: self.area,
            text: self.text@,
            shows_message: self.shows_message,
            tone: self.tone,
        }
    }
}

/// What stands between header and status bar.
#[derive(Debug)]
pub enum Content {
    Search(SearchView),
    Repos(Area),
    /// The help, drawn over the search view.
    Help(SearchView),
}

impl Content {
    /// The area that the content stands in.
    pub open spec fn area(self) -> Area {
        match self {
            Content::Search(v) => v.area,
            Content::Repos(a) => a,
            Content::Help(v) => v.area,
        }
    }
}

/// The screen as it is to be drawn.
#[derive(Debug)]
pub enum Screen {
    /// The terminal has `width` columns and `height` rows and is too
    /// small: the lines of the warning, their colour and their block.
    TooSmall { width: u16, height: u16, lines: Vec<TextLine>, tone: Tone, block: Block },
    Main { header: Header, content: Content, status: StatusBar },
}

/// The colour of a status message.
pub open spec fn tone_of(level: StatusLevel) -> Tone {
    match level {
        StatusLevel::Info => Tone::Blue,
        StatusLevel::Success => Tone::Green,
        StatusLevel::Warning => Tone::Yellow,
        StatusLevel::Error => Tone::Red,
    }
}

/// The key hints of a mode.
pub open spec fn hints_of(mode: AppMode) -> Seq<char> {
    match mode {
        AppMode::Search =>
            "Type to search \u{2502} \u{2191}\u{2193} navigate \u{2502} Enter open \u{2502} Tab repos \u{2502} ? help \u{2502} q quit"@,
        AppMode::Repos =>
            "\u{2191}\u{2193} navigate \u{2502} d delete \u{2502} r refresh \u{2502} Tab search \u{2502} ? help \u{2502} q quit"@,
        AppMode::Help => "Press ? or Esc to close"@,
    }
}

/// The status bar in `area`: a status message in the colour of its level,
/// else the key hints of the current mode in dark gray.
pub open spec fn status_of(app: AppView, area: Area) -> StatusBarView {
    match app.status {
        Some(m) => StatusBarView { area, text: m.0, shows_message: true, tone: tone_of(m.1) },
        None => StatusBarView {
            area,
            text: hints_of(app.mode),
            shows_message: false,
            tone: Tone::DarkGray,
        },
    }
}

/// The header in `area`: the title in bold cyan, the tab of the search
/// and the tab of the repositories, of which the one of the current mode
/// is lit and none in the help, and a border below.
pub open spec fn header_of(app: AppView, area: Area) -> HeaderView {
    HeaderView {
        area,
        title: strong("knowledge-index"@, Tone::Cyan),
        tabs: seq![
            (" Search "@, app.mode == AppMode::Search),
            (" Repos "@, app.mode == AppMode::Repos),
        ],
        block: BlockView { title: Seq::empty(), borders: Borders::Bottom, tone: None },
    }
}

/// The line of the warning that names the size of the terminal.
pub open spec fn current_line(width: u16, height: u16) -> Seq<char> {
    "Current: "@ + decimal(width as nat) + "x"@ + decimal(height as nat)
}

/// The line of the warning that names the least size.
pub open spec fn required_line() -> Seq<char> {
    "Required: "@ + decimal(MIN_WIDTH as nat) + "x"@ + decimal(MIN_HEIGHT as nat)
}

/// The six lines of the warning for a terminal of `width` columns and
/// `height` rows.
pub open spec fn warning_lines(width: u16, height: u16) -> Seq<TextLineView> {
    seq![
        plain("Terminal too small!"@),
        plain(""@),
        plain(current_line(width, height)),
        plain(required_line()),
        plain(""@),
        plain("Please resize your terminal."@),
    ]
}

/// Whether `screen` is the warning for a terminal of the size `size`:
/// its six lines in red, in a block with borders on all sides and no
/// title.
pub open spec fn warns(screen: Screen, size: Area) -> bool {
    screen matches Screen::TooSmall { width, height, lines, tone, block } && width == size.width
        && height == size.height && views(lines@) == warning_lines(size.width, size.height)
        && tone == Tone::Red && block@ == boxed(Seq::empty())
}

/// Whether a terminal of the size `size` is too small.
pub open spec fn too_small(size: Area) -> bool {
    size.width < MIN_WIDTH || size.height < MIN_HEIGHT
}

/// Whether `content` is the view of the mode of `app` in `area`: the
/// search view for the search, the list of repositories in all of the
/// area for the repositories, and the help over the search view for the
/// help.
pub open spec fn showing(content: Content, app: AppView, area: Area) -> bool {
    match app.mode {
        AppMode::Search => content matches Content::Search(v) && shows(v, app, area),
        AppMode::Repos => content matches Content::Repos(a) && a == area,
        AppMode::Help => content matches Content::Help(v) && shows(v, app, area),
    }
}

/// Whether `screen` is the screen of `app` with the header in
/// `header_area`, the view of the current mode in `view_area` and the
/// status bar in `status_area`.
pub open spec fn composed(
    screen: Screen,
    app: AppView,
    header_area: Area,
    view_area: Area,
    status_area: Area,
) -> bool {
    screen matches Screen::Main { header, content, status } && header@ == header_of(
        app,
        header_area,
    ) && showing(content, app, view_area) && status@ == status_of(app, status_area)
}

/// The top three rows of a terminal.
pub open spec fn header_rows(size: Area) -> Area {
    Area { x: size.x, y: size.y, width: size.width, height: 3 }
}

/// The rows of a terminal between its top three and its last.
pub open spec fn view_rows(size: Area) -> Area {
    Area {
        x: size.x,
        y: (size.y + 3) as u16,
        width: size.width,
        height: (size.height - 4) as u16,
    }
}

/// The last row of a terminal.
pub open spec fn status_row(size: Area) -> Area {
    Area {
        x: size.x,
        y: (size.y + size.height - 1) as u16,
        width: size.width,
        height: 1,
    }
}

/// Whether a terminal has room for header and status bar: it is four
/// cells high at least and ends within the range of the coordinates.
pub open spec fn fits(size: Area) -> bool {
    size.height >= 4 && size.y + size.height <= u16::MAX
}

/// Whether the parts of `screen` stand where they belong in a terminal
/// of the size `size`: the header on the top three rows, the status bar
/// on the last, and the view on the rows between.
pub open spec fn placed(screen: Screen, size: Area) -> bool {
    screen matches Screen::Main { header, content, status } ==> header.area == header_rows(size)
        && content.area() == view_rows(size) && status.area == status_row(size)
}

/// The key hints of a mode.
pub fn hints(mode: AppMode) -> (text: String)
    ensures
        text@ == hints_of(mode),
{
    match mode {
        AppMode::Search => String::from_str(
            "Type to search \u{2502} \u{2191}\u{2193} navigate \u{2502} Enter open \u{2502} Tab repos \u{2502} ? help \u{2502} q quit",
        ),
        AppMode::Repos => String::from_str(
            "\u{2191}\u{2193} navigate \u{2502} d delete \u{2502} r refresh \u{2502} Tab search \u{2502} ? help \u{2502} q quit",
        ),
        AppMode::Help => String::from_str("Press ? or Esc to close"),
    }
}

/// The status bar.
pub fn render_status_bar(app: &App, area: Area) -> (bar: StatusBar)
    ensures
        bar@ == status_of(app@, area),
{
    match &app.status_message {
        Some(m) => {
            let tone = match m.1 {
                StatusLevel::Info => Tone::Blue,
                StatusLevel::Success => Tone::Green,
                StatusLevel::Warning => Tone::Yellow,
                StatusLevel::Error => Tone::Red,
            };
            StatusBar { area, text: m.0.clone(), shows_message: true, tone }
        },
        None => StatusBar { area, text: hints(app.mode), shows_message: false, tone: Tone::DarkGray },
    }
}

/// The header.
pub fn render_header(app: &App, area: Area) -> (header: Header)
    ensures
        header@ == header_of(app@, area),
{
    let title = line_of(String::from_str("knowledge-index"), Some(Tone::Cyan), true);
    let mut tabs: Vec<Tab> = Vec::new();
    tabs.push(Tab { label: String::from_str(" Search "), lit: app.mode == AppMode::Search });
    tabs.push(Tab { label: String::from_str(" Repos "), lit: app.mode == AppMode::Repos });
    assert(views(tabs@) =~= seq![
        (" Search "@, app.mode == AppMode::Search),
        (" Repos "@, app.mode == AppMode::Repos),
    ]);
    let block = Block { title: String::new(), borders: Borders::Bottom, tone: None };
    Header { area, title, tabs, block }
}

/// The warning for a terminal that is too small.
pub fn render_size_warning(size: Area) -> (screen: Screen)
    ensures
        warns(screen, size),
{
    let mut current = String::from_str("Current: ");
    push_decimal(&mut current, size.width as usize);
    current.append("x");
    push_decimal(&mut current, size.height as usize);
    assert(current@ =~= current_line(size.width, size.height));
    let mut required = String::from_str("Required: ");
    push_decimal(&mut required, MIN_WIDTH as usize);
    required.append("x");
    push_decimal(&mut required, MIN_HEIGHT as usize);
    assert(required@ =~= required_line());
    let mut lines: Vec<TextLine> = Vec::new();
    lines.push(plain_line("Terminal too small!"));
    lines.push(plain_line(""));
    lines.push(line_of(current, None, false));
    lines.push(line_of(required, None, false));
    lines.push(plain_line(""));
    lines.push(plain_line("Please resize your terminal."));
    assert(views(lines@) =~= warning_lines(size.width, size.height));
    Screen::TooSmall {
        width: size.width,
        height: size.height,
        lines,
        tone: Tone::Red,
        block: boxed_under(String::new()),
    }
}

/// The rows of the screen: a header of three cells' height, the view in
/// what is left, and a status bar of one cell's height.
pub fn screen_rows() -> (rows: Vec<Row>)
    ensures
        rows@ == seq![Row::Length(3), Row::Min(0), Row::Length(1)],
{
    let mut rows: Vec<Row> = Vec::new();
    rows.push(Row::Length(3));
    rows.push(Row::Min(0));
    rows.push(Row::Length(1));
    assert(rows@ =~= seq![Row::Length(3), Row::Min(0), Row::Length(1)]);
    rows
}

/// The screen of `app` with the header in `header_area`, the view of the
/// current mode in `view_area` and the status bar in `status_area`. The
/// view's area must be four cells wide at least where results are listed.
pub fn assemble(app: &App, header_area: Area, view_area: Area, status_area: Area) -> (screen:
    Screen)
    requires
        app.mode == AppMode::Repos || view_area.width >= 4 || !lists_results(app@),
    ensures
        composed(screen, app@, header_area, view_area, status_area),
{
    let header = render_header(app, header_area);
    let content = match app.mode {
        AppMode::Search => Content::Search(crate::tui::views::search::render(app, view_area)),
        AppMode::Repos => Content::Repos(view_area),
        AppMode::Help => Content::Help(crate::tui::views::search::render(app, view_area)),
    };
    let status = render_status_bar(app, status_area);
    Screen::Main { header, content, status }
}

/// In a terminal with room for them the rows of the screen settle:
/// three rows at the top, one at the bottom, and the rest between.
pub proof fn lemma_screen_rows_settle(size: Area, out: Seq<Area>)
    requires
        fits(size),
        out.len() == 3,
        divided(size, out),
    ensures
        settles(size, seq![Row::Length(3), Row::Min(0), Row::Length(1)]),
        settled(size, seq![Row::Length(3), Row::Min(0), Row::Length(1)], out) ==> out[0]
            == header_rows(size) && out[1] == view_rows(size) && out[2] == status_row(size),
{
    let rows = seq![Row::Length(3), Row::Min(0), Row::Length(1)];
    reveal_with_fuel(crate::tui::layout::asked_upto, 5);
    reveal_with_fuel(crate::tui::layout::lengths_upto, 5);
    reveal_with_fuel(crate::tui::layout::mins_upto, 5);
    reveal_with_fuel(crate::tui::layout::top_in, 5);
    if settled(size, rows, out) {
        assert(out[0].y == crate::tui::layout::top_in(size, rows, 0));
        assert(out[1].y == crate::tui::layout::top_in(size, rows, 1));
        assert(out[2].y == crate::tui::layout::top_in(size, rows, 2));
        assert(crate::tui::layout::spans(size, out[0]));
        assert(crate::tui::layout::spans(size, out[1]));
        assert(crate::tui::layout::spans(size, out[2]));
    }
}

/// The screen for a terminal of the size `size`: the warning where it is
/// too small; else the header in the first of the rows that the terminal
/// is divided into, the view of the current mode in the second and the
/// status bar in the third. The header takes the top three rows, the
/// status bar the last, and the view the rows between.
pub fn render(size: Area, app: &App) -> (screen: Screen)
    ensures
        too_small(size) <==> screen is TooSmall,
        screen is TooSmall ==> warns(screen, size),
        screen matches Screen::Main { header, content, status } ==> composed(
            screen,
            app@,
            header.area,
            content.area(),
            status.area,
        ) && divided(size, seq![header.area, content.area(), status.area]),
        size.y + size.height <= u16::MAX ==> placed(screen, size),
{
    if size.width < MIN_WIDTH || size.height < MIN_HEIGHT {
        return render_size_warning(size);
    }
    let rows = screen_rows();
    let chunks = split_rows(size, &rows);
    let screen = assemble(app, chunks[0], chunks[1], chunks[2]);
    proof {
        assert(seq![chunks[0], chunks[1], chunks[2]] =~= chunks@);
        if size.y + size.height <= u16::MAX {
            lemma_screen_rows_settle(size, chunks@);
        }
    }
    screen
}

} // verus!
