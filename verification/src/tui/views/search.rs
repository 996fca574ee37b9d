//! The search view: the input line and, below it, a welcome, a prompt, a
//! note that nothing was found, or the list of results with their
//! snippets, which are shown without highlight marks, on one line, and cut
//! to the width of the list.

use vstd::prelude::*;
use crate::engine::text::views;
use crate::tui::app::{App, AppView, ResultRowView};
use crate::tui::layout::{Area, Row, divided, settled, settles, split_rows};
use crate::tui::text::{
    Block, BlockView, Borders, Piece, TextLine, TextLineView, Tone, boxed, boxed_under, line_of,
    plain, plain_line, strong, toned, toned_line,
};

verus! {

/// Whether a character is white space as `str::trim` sees it: a character
/// with the Unicode property White_Space.
pub open spec fn is_space(c: char) -> bool {
    let u = c as u32;
    (0x09 <= u && u <= 0x0d) || u == 0x20 || u == 0x85 || u == 0xa0 || u == 0x1680 || (0x2000 <= u
        && u <= 0x200a) || u == 0x2028 || u == 0x2029 || u == 0x202f || u == 0x205f || u == 0x3000
}

/// The number of bytes that a character takes in UTF-8.
pub open spec fn width_of(c: char) -> int {
    let u = c as u32;
    if u < 0x80 {
        1
    } else if u < 0x800 {
        2
    } else if u < 0x10000 {
        3
    } else {
        4
    }
}

/// The number of bytes that the first `n` characters take in UTF-8.
pub open spec fn bytes_upto(s: Seq<char>, n: int) -> int
    decreases n,
{
    if n <= 0 {
        0
    } else {
        bytes_upto(s, n - 1) + width_of(s[n - 1])
    }
}

/// The characters of a string.
pub fn chars_of(s: &str) -> (out: Vec<char>)
    ensures
        out@ == s@,
{
    let mut out: Vec<char> = Vec::new();
    for c in it: s.chars()
        invariant
            it.seq() == s@,
            out@ == s@.take(it.index() as int),
    {
        out.push(c);
        assert(s@.take(it.index() + 1) =~= s@.take(it.index() as int).push(c));
    }
    assert(s@.take(s@.len() as int) =~= s@);
    out
}

/// A text without the occurrences of `pat`, found from the left, each
/// behind the one before.
pub open spec fn without(s: Seq<char>, pat: Seq<char>) -> Seq<char>
    decreases s.len(),
{
    if pat.len() == 0 || s.len() < pat.len() {
        s
    } else if s.take(pat.len() as int) == pat {
        without(s.skip(pat.len() as int), pat)
    } else {
        seq![s[0]] + without(s.skip(1), pat)
    }
}

/// A character on one line: a line feed is a space.
pub open spec fn flat_of(c: char) -> char {
    if c == '\n' {
        ' '
    } else {
        c
    }
}

/// A text on one line: each line feed is a space.
pub open spec fn on_one_line(s: Seq<char>) -> Seq<char> {
    Seq::new(s.len(), |i: int| flat_of(s[i]))
}

/// A character on one line.
pub fn flat(c: char) -> (r: char)
    ensures
        r == flat_of(c),
{
    if c == '\n' {
        ' '
    } else {
        c
    }
}

/// The first position from `i` on that holds no white space.
pub open spec fn lead(s: Seq<char>, i: int) -> int
    decreases s.len() - i,
{
    if 0 <= i < s.len() && is_space(s[i]) {
        lead(s, i + 1)
    } else {
        i
    }
}

/// The end of the text in front of `j` without the white space at its end.
pub open spec fn trail(s: Seq<char>, j: int) -> int
    decreases j,
{
    if 0 < j <= s.len() && is_space(s[j - 1]) {
        trail(s, j - 1)
    } else {
        j
    }
}

/// A text without the white space at its start and at its end.
pub open spec fn trimmed(s: Seq<char>) -> Seq<char> {
    let a = lead(s, 0);
    let b = trail(s, s.len() as int);
    if a < b {
        s.subrange(a, b)
    } else {
        Seq::empty()
    }
}

/// The opening highlight mark.
pub open spec fn open_mark() -> Seq<char> {
    seq!['>', '>', '>']
}

/// The closing highlight mark.
pub open spec fn close_mark() -> Seq<char> {
    seq!['<', '<', '<']
}

/// A snippet as it is shown: without the highlight marks, on one line,
/// without white space around it.
pub open spec fn cleaned(s: Seq<char>) -> Seq<char> {
    trimmed(on_one_line(without(without(s, open_mark()), close_mark())))
}

/// The number of characters from `n` on, counted with the first `n`, that
/// fit into `budget` bytes of UTF-8.
pub open spec fn fitting(s: Seq<char>, budget: int, n: int) -> int
    decreases s.len() - n,
{
    if 0 <= n < s.len() && bytes_upto(s, n + 1) <= budget {
        fitting(s, budget, n + 1)
    } else {
        n
    }
}

/// The bytes that are kept of a snippet that is too long for `max_len`
/// bytes: three less, for the dots.
pub open spec fn kept(max_len: usize) -> int {
    if max_len >= 3 {
        max_len - 3
    } else {
        0
    }
}

/// The snippet as a list of `max_len` bytes' width shows it: the cleaned
/// snippet where that takes no more than `max_len` bytes, else as many of
/// its characters as fit into three bytes less, and three dots.
pub open spec fn truncated(s: Seq<char>, max_len: usize) -> Seq<char> {
    let c = cleaned(s);
    if bytes_upto(c, c.len() as int) > max_len {
        c.take(fitting(c, kept(max_len), 0)) + seq!['.', '.', '.']
    } else {
        c
    }
}

/// Decides whether a character is white space.
pub fn space(c: char) -> (r: bool)
    ensures
        r == is_space(c),
{
    let u = c as u32;
    (0x09 <= u && u <= 0x0d) || u == 0x20 || u == 0x85 || u == 0xa0 || u == 0x1680 || (0x2000 <= u
        && u <= 0x200a) || u == 0x2028 || u == 0x2029 || u == 0x202f || u == 0x205f || u == 0x3000
}

/// The number of bytes that a character takes in UTF-8.
pub fn width(c: char) -> (w: u128)
    ensures
        w == width_of(c),
{
    let u = c as u32;
    if u < 0x80 {
        1
    } else if u < 0x800 {
        2
    } else if u < 0x10000 {
        3
    } else {
        4
    }
}

/// Whether `pat` stands in `v` from position `i` on.
fn stands(v: &Vec<char>, i: usize, pat: &Vec<char>) -> (r: bool)
    requires
        i <= v.len(),
    ensures
        r == (v@.skip(i as int).len() >= pat.len() && v@.skip(i as int).take(pat.len() as int)
            == pat@),
{
    if pat.len() > v.len() - i {
        return false;
    }
    let mut j: usize = 0;
    while j < pat.len()
        invariant
            j <= pat.len(),
            i + pat.len() <= v.len(),
            forall|m: int| 0 <= m < j ==> v@[i + m] == pat@[m],
        decreases pat.len() - j,
    {
        if v[i + j] != pat[j] {
            assert(v@.skip(i as int).take(pat.len() as int)[j as int] != pat@[j as int]);
            return false;
        }
        j += 1;
    }
    assert(v@.skip(i as int).take(pat.len() as int) =~= pat@);
    true
}

/// Removes the occurrences of `pat` from `v`.
pub fn strip(v: &Vec<char>, pat: &Vec<char>) -> (out: Vec<char>)
    ensures
        out@ == without(v@, pat@),
{
    let mut out: Vec<char> = Vec::new();
    let mut i: usize = 0;
    assert(v@.skip(0) =~= v@);
    assert(out@ + without(v@, pat@) =~= without(v@, pat@));
    while i < v.len()
        invariant
            i <= v.len(),
            out@ + without(v@.skip(i as int), pat@) == without(v@, pat@),
        decreases v.len() - i,
    {
        let ghost rest = v@.skip(i as int);
        let ghost before = out@;
        if pat.len() > 0 && stands(v, i, pat) {
            assert(rest.skip(pat.len() as int) =~= v@.skip(i + pat.len()));
            i += pat.len();
        } else {
            out.push(v[i]);
            assert(rest.skip(1) =~= v@.skip(i + 1));
            assert(rest[0] == v@[i as int]);
            assert(out@ + without(v@.skip(i + 1), pat@) =~= before + (seq![rest[0]] + without(
                rest.skip(1),
                pat@,
            )));
            i += 1;
        }
    }
    assert(out@ + Seq::<char>::empty() =~= out@);
    out
}

/// Cleans a snippet for showing.
pub fn clean(snippet: &str) -> (out: Vec<char>)
    ensures
        out@ == cleaned(snippet@),
{
    let all = chars_of(snippet);
    let open = vec!['>', '>', '>'];
    let close = vec!['<', '<', '<'];
    assert(open@ =~= open_mark());
    assert(close@ =~= close_mark());
    let first = strip(&all, &open);
    let marked = strip(&first, &close);
    let ghost line = on_one_line(marked@);
    let n = marked.len();
    let mut a: usize = 0;
    while a < n && space(flat(marked[a]))
        invariant
            a <= n,
            n == marked.len(),
            line == on_one_line(marked@),
            lead(line, a as int) == lead(line, 0),
        decreases n - a,
    {
        a += 1;
    }
    let mut b: usize = n;
    while b > 0 && space(flat(marked[b - 1]))
        invariant
            b <= n,
            n == marked.len(),
            line == on_one_line(marked@),
            trail(line, b as int) == trail(line, n as int),
        decreases b,
    {
        b -= 1;
    }
    let mut out: Vec<char> = Vec::new();
    if a < b {
        let mut i: usize = a;
        while i < b
            invariant
                a <= i <= b,
                b <= n,
                n == marked.len(),
                line == on_one_line(marked@),
                out@ == line.subrange(a as int, i as int),
            decreases b - i,
        {
            out.push(flat(marked[i]));
            assert(line.subrange(a as int, i + 1) =~= line.subrange(a as int, i as int).push(
                line[i as int],
            ));
            i += 1;
        }
    }
    out
}

/// Appends a character to a string. This is `String::push` of the
/// standard library, which is taken to do what its documentation says:
/// the string afterwards is the string before with the character at its
/// end.
#[verifier::external_body]
pub(crate) fn push_char(s: &mut String, c: char)
    ensures
        final(s)@ == old(s)@.push(c),
{
    s.push(c);
}

/// Cleans a snippet and cuts it to `max_len` bytes: a snippet that is
/// longer ends in three dots.
pub fn truncate_snippet(snippet: &str, max_len: usize) -> (r: String)
    ensures
        r@ == truncated(snippet@, max_len),
{
    let c = clean(snippet);
    let mut total: u128 = 0;
    let mut i: usize = 0;
    while i < c.len()
        invariant
            i <= c.len(),
            total == bytes_upto(c@, i as int),
            total <= 4 * i,
        decreases c.len() - i,
    {
        total = total + width(c[i]);
        i += 1;
    }
    let mut r = String::new();
    if total > max_len as u128 {
        let budget: u128 = if max_len >= 3 {
            (max_len - 3) as u128
        } else {
            0
        };
        let mut used: u128 = 0;
        let mut n: usize = 0;
        while n < c.len() && used + width(c[n]) <= budget
            invariant
                n <= c.len(),
                used == bytes_upto(c@, n as int),
                used <= 4 * n,
                budget == kept(max_len),
                fitting(c@, budget as int, n as int) == fitting(c@, budget as int, 0),
                r@ == c@.take(n as int),
            decreases c.len() - n,
        {
            used = used + width(c[n]);
            push_char(&mut r, c[n]);
            assert(c@.take(n + 1) =~= c@.take(n as int).push(c@[n as int]));
            n += 1;
        }
        push_char(&mut r, '.');
        push_char(&mut r, '.');
        push_char(&mut r, '.');
        assert(r@ =~= c@.take(n as int) + seq!['.', '.', '.']);
    } else {
        let mut k: usize = 0;
        while k < c.len()
            invariant
                k <= c.len(),
                r@ == c@.take(k as int),
            decreases c.len() - k,
        {
            push_char(&mut r, c[k]);
            assert(c@.take(k + 1) =~= c@.take(k as int).push(c@[k as int]));
            k += 1;
        }
        assert(c@.take(c.len() as int) =~= c@);
    }
    r
}

/// One item of the result list: whether it is the selected one, the
/// pieces of its heading, and its snippet as it is shown.
#[derive(Debug)]
pub struct Item {
    pub selected: bool,
    pub heading: Vec<Piece>,
    pub snippet: String,
}

/// An `Item` as contracts see it.
pub struct ItemView {
    pub selected: bool,
    pub heading: Seq<(Seq<char>, Option<Tone>)>,
    pub snippet: Seq<char>,
}

impl View for Item {
    type V = ItemView;

    open spec fn view(&self) -> ItemView {
        ItemView {
            selected: self.selected,
            heading: views(self.heading@),
            snippet: self.snippet@,
        }
    }
}

/// What stands below the input line, in its block.
#[derive(Debug)]
pub enum Pane {
    /// Lines of text in the colour `tone`, or in the terminal's own
    /// where there is none: the welcome, the prompt, or the note that
    /// the query found nothing.
    Text { block: Block, lines: Vec<TextLine>, tone: Option<Tone> },
    /// The results, one item for each, in their order.
    Results { block: Block, items: Vec<Item> },
}

/// A `Pane` as contracts see it.
pub enum PaneView {
    Text { block: BlockView, lines: Seq<TextLineView>, tone: Option<Tone> },
    Results { block: BlockView, items: Seq<ItemView> },
}

impl View for Pane {
    type V = PaneView;

    open spec fn view(&self) -> PaneView {
        match self {
            Pane::Text { block, lines, tone } => PaneView::Text {
                block: block@,
                lines: views(lines@),
                tone: *tone,
            },
            Pane::Results { block, items } => PaneView::Results {
                block: block@,
                items: views(items@),
            },
        }
    }
}

/// The search view as it is to be drawn: in `area`, the input line with
/// its text, colour and block in `input_area`, and the pane in
/// `results_area`.
#[derive(Debug)]
pub struct SearchView {
    pub area: Area,
    pub input_area: Area,
    pub results_area: Area,
    pub input: String,
    pub input_tone: Tone,
    pub input_block: Block,
    pub pane: Pane,
}

/// The bytes that a snippet may take in a list that is `width` cells wide:
/// four less, for the border and the indent.
pub open spec fn snippet_room(width: u16) -> usize {
    (width - 4) as usize
}

/// The heading of a result: the name of its repository, a colon, and the
/// path of its file.
pub open spec fn heading_of(r: ResultRowView) -> Seq<char> {
    r.repo_name + seq![':'] + r.file_path
}

/// The pieces of the heading of a result: the name of its repository in
/// blue, the colon, and the path of its file in cyan.
pub open spec fn heading_pieces(r: ResultRowView) -> Seq<(Seq<char>, Option<Tone>)> {
    seq![(r.repo_name, Some(Tone::Blue)), (seq![':'], None), (r.file_path, Some(Tone::Cyan))]
}

/// The text of a line: the texts of its first `n` pieces, one behind the
/// other.
pub open spec fn text_of(pieces: Seq<(Seq<char>, Option<Tone>)>, n: int) -> Seq<char>
    decreases n,
{
    if n <= 0 {
        Seq::empty()
    } else {
        text_of(pieces, n - 1) + pieces[n - 1].0
    }
}

/// The heading of a result reads as the name of its repository, a colon,
/// and the path of its file.
pub proof fn lemma_heading_text(r: ResultRowView)
    ensures
        text_of(heading_pieces(r), 3) == heading_of(r),
{
    let p = heading_pieces(r);
    assert(text_of(p, 0) =~= Seq::<char>::empty());
    assert(text_of(p, 1) =~= r.repo_name);
    assert(text_of(p, 2) =~= r.repo_name + seq![':']);
    assert(text_of(p, 3) =~= heading_of(r));
}

/// The decimal digit of a number below ten.
pub open spec fn digit_of(d: int) -> char {
    if d == 0 {
        '0'
    } else if d == 1 {
        '1'
    } else if d == 2 {
        '2'
    } else if d == 3 {
        '3'
    } else if d == 4 {
        '4'
    } else if d == 5 {
        '5'
    } else if d == 6 {
        '6'
    } else if d == 7 {
        '7'
    } else if d == 8 {
        '8'
    } else {
        '9'
    }
}

/// A number in decimal digits, without leading zeros.
pub open spec fn decimal(n: nat) -> Seq<char>
    decreases n,
{
    if n < 10 {
        seq![digit_of(n as int)]
    } else {
        decimal(n / 10).push(digit_of((n % 10) as int))
    }
}

/// The title of a list of `n` results.
pub open spec fn results_title(n: nat) -> Seq<char> {
    " Results ("@ + decimal(n) + ") "@
}

/// The line that says that `query` found nothing.
pub open spec fn no_results_text(query: Seq<char>) -> Seq<char> {
    "No results for \""@ + query + "\""@
}

/// The text of the input line: the query behind its mark.
pub open spec fn input_text(query: Seq<char>) -> Seq<char> {
    "\u{203a} "@ + query
}

/// The block of the input line: blue borders on all sides under its
/// title.
pub open spec fn input_block() -> BlockView {
    BlockView { title: " Search "@, borders: Borders::All, tone: Some(Tone::Blue) }
}

/// The lines of the welcome.
pub open spec fn welcome_lines() -> Seq<TextLineView> {
    seq![
        plain(""@),
        strong("Welcome to knowledge-index!"@, Tone::Cyan),
        plain(""@),
        plain("Get started:"@),
        plain("  1. Press Tab to view repositories"@),
        plain("  2. Or run: knowledge-index index /path/to/project"@),
        plain(""@),
        toned("Press ? for help"@, Tone::DarkGray),
    ]
}

/// The lines of the prompt to type a query.
pub open spec fn prompt_lines() -> Seq<TextLineView> {
    seq![
        plain(""@),
        toned("Start typing to search..."@, Tone::DarkGray),
        plain(""@),
        toned("Examples:"@, Tone::DarkGray),
        toned("  async fn          - search for text"@, Tone::DarkGray),
        toned("  \"exact phrase\"    - match exactly"@, Tone::DarkGray),
        toned("  func*             - prefix matching"@, Tone::DarkGray),
    ]
}

/// The lines of the note that `query` found nothing: the line that names
/// the query, and suggestions.
pub open spec fn no_results_lines(query: Seq<char>) -> Seq<TextLineView> {
    seq![
        plain(""@),
        plain(no_results_text(query)),
        plain(""@),
        toned("Suggestions:"@, Tone::DarkGray),
        toned("  \u{2022} Check spelling"@, Tone::DarkGray),
        toned("  \u{2022} Try broader search terms"@, Tone::DarkGray),
        toned("  \u{2022} Use prefix matching: func*"@, Tone::DarkGray),
    ]
}

/// The pane where no query is typed: the welcome on a first run, the
/// prompt later, under the title of the results.
pub open spec fn empty_pane(first_run: bool) -> PaneView {
    PaneView::Text {
        block: boxed(" Results "@),
        lines: if first_run {
            welcome_lines()
        } else {
            prompt_lines()
        },
        tone: None,
    }
}

/// The pane where `query` found nothing: the note in yellow, under the
/// title of the results.
pub open spec fn no_results_pane(query: Seq<char>) -> PaneView {
    PaneView::Text {
        block: boxed(" Results "@),
        lines: no_results_lines(query),
        tone: Some(Tone::Yellow),
    }
}

/// Item `i` of the result list in a list that is `width` cells wide:
/// result `i` under its heading, with its snippet as it is shown, marked
/// where it is the selected one.
pub open spec fn item_of(app: AppView, i: int, width: u16) -> ItemView {
    ItemView {
        selected: i == app.search_selected,
        heading: heading_pieces(app.search_results[i]),
        snippet: truncated(app.search_results[i].snippet, snippet_room(width)),
    }
}

/// The items of the result list: one for each result, in the results'
/// order.
pub open spec fn items_of(app: AppView, width: u16) -> Seq<ItemView> {
    Seq::new(app.search_results.len(), |i: int| item_of(app, i, width))
}

/// The list of the results of `app` in a list that is `width` cells
/// wide, under the title with their number.
pub open spec fn results_pane(app: AppView, width: u16) -> PaneView {
    PaneView::Results {
        block: boxed(results_title(app.search_results.len())),
        items: items_of(app, width),
    }
}

/// Whether the pane of `app` needs room for snippets: a query is typed
/// and it has results.
pub open spec fn lists_results(app: AppView) -> bool {
    app.search_input.len() > 0 && app.search_results.len() > 0
}

/// The pane below the input line, in a list that is `width` cells wide:
/// without a query the welcome on a first run and the prompt later; with
/// a query and no results the note that names the query; else the
/// results.
pub open spec fn pane_of(app: AppView, width: u16) -> PaneView {
    if app.search_input.len() == 0 {
        empty_pane(app.first_run)
    } else if app.search_results.len() == 0 {
        no_results_pane(app.search_input)
    } else {
        results_pane(app, width)
    }
}

/// The decimal digit of a number below ten.
pub fn digit(d: usize) -> (c: char)
    requires
        d < 10,
    ensures
        c == digit_of(d as int),
{
    if d == 0 {
        '0'
    } else if d == 1 {
        '1'
    } else if d == 2 {
        '2'
    } else if d == 3 {
        '3'
    } else if d == 4 {
        '4'
    } else if d == 5 {
        '5'
    } else if d == 6 {
        '6'
    } else if d == 7 {
        '7'
    } else if d == 8 {
        '8'
    } else {
        '9'
    }
}

/// Appends a number in decimal digits.
pub fn push_decimal(out: &mut String, n: usize)
    ensures
        final(out)@ == old(out)@ + decimal(n as nat),
    decreases n,
{
    let ghost start = out@;
    if n >= 10 {
        push_decimal(out, n / 10);
    }
    push_char(out, digit(n % 10));
    proof {
        if n >= 10 {
            assert(out@ =~= start + decimal((n / 10) as nat).push(digit_of((n % 10) as int)));
        } else {
            assert(out@ =~= start + seq![digit_of(n as int)]);
        }
    }
}

/// The list of the results in a list that is `width` cells wide. The
/// list must be four cells wide at least where there are results.
pub fn render_results(app: &App, width: u16) -> (pane: Pane)
    requires
        width >= 4 || app.search_results.len() == 0,
    ensures
        pane@ == results_pane(app@, width),
{
    let room: usize = if width >= 4 {
        (width - 4) as usize
    } else {
        0
    };
    let mut items: Vec<Item> = Vec::new();
    let mut i: usize = 0;
    while i < app.search_results.len()
        invariant
            i <= app.search_results.len(),
            width >= 4 || app.search_results.len() == 0,
            width >= 4 ==> room == snippet_room(width),
            items.len() == i,
            forall|k: int| 0 <= k < i ==> (#[trigger] items[k])@ == item_of(app@, k, width),
        decreases app.search_results.len() - i,
    {
        let row = &app.search_results[i];
        assert(app@.search_results[i as int] == row@);
        let mut heading: Vec<Piece> = Vec::new();
        heading.push(Piece { text: row.repo_name.clone(), tone: Some(Tone::Blue) });
        heading.push(Piece { text: String::from_str(":"), tone: None });
        heading.push(Piece { text: row.file_path.clone(), tone: Some(Tone::Cyan) });
        proof {
            reveal_strlit(":");
            assert(":"@ =~= seq![':']);
            assert(views(heading@) =~= heading_pieces(row@));
        }
        let snippet = truncate_snippet(row.snippet.as_str(), room);
        items.push(Item { selected: i == app.search_selected, heading, snippet });
        i += 1;
    }
    assert(views(items@) =~= items_of(app@, width));
    let mut title = String::from_str(" Results (");
    push_decimal(&mut title, app.search_results.len());
    title.append(") ");
    assert(title@ =~= results_title(app@.search_results.len()));
    Pane::Results { block: boxed_under(title), items }
}

/// The pane where no query is typed: the welcome on a first run, the
/// prompt later.
pub fn render_empty_state(app: &App) -> (pane: Pane)
    ensures
        pane@ == empty_pane(app.first_run),
{
    let mut lines: Vec<TextLine> = Vec::new();
    if app.first_run {
        lines.push(plain_line(""));
        lines.push(line_of(String::from_str("Welcome to knowledge-index!"), Some(Tone::Cyan), true));
        lines.push(plain_line(""));
        lines.push(plain_line("Get started:"));
        lines.push(plain_line("  1. Press Tab to view repositories"));
        lines.push(plain_line("  2. Or run: knowledge-index index /path/to/project"));
        lines.push(plain_line(""));
        lines.push(toned_line("Press ? for help", Tone::DarkGray));
        assert(views(lines@) =~= welcome_lines());
    } else {
        lines.push(plain_line(""));
        lines.push(toned_line("Start typing to search...", Tone::DarkGray));
        lines.push(plain_line(""));
        lines.push(toned_line("Examples:", Tone::DarkGray));
        lines.push(toned_line("  async fn          - search for text", Tone::DarkGray));
        lines.push(toned_line("  \"exact phrase\"    - match exactly", Tone::DarkGray));
        lines.push(toned_line("  func*             - prefix matching", Tone::DarkGray));
        assert(views(lines@) =~= prompt_lines());
    }
    Pane::Text { block: boxed_under(String::from_str(" Results ")), lines, tone: None }
}

/// The pane where the query found nothing: the line that names the
/// query, verbatim, and suggestions.
pub fn render_no_results(query: &str) -> (pane: Pane)
    ensures
        pane@ == no_results_pane(query@),
{
    let mut line = String::from_str("No results for \"");
    line.append(query);
    line.append("\"");
    assert(line@ =~= no_results_text(query@));
    let mut lines: Vec<TextLine> = Vec::new();
    lines.push(plain_line(""));
    lines.push(line_of(line, None, false));
    lines.push(plain_line(""));
    lines.push(toned_line("Suggestions:", Tone::DarkGray));
    lines.push(toned_line("  \u{2022} Check spelling", Tone::DarkGray));
    lines.push(toned_line("  \u{2022} Try broader search terms", Tone::DarkGray));
    lines.push(toned_line("  \u{2022} Use prefix matching: func*", Tone::DarkGray));
    assert(views(lines@) =~= no_results_lines(query@));
    Pane::Text {
        block: boxed_under(String::from_str(" Results ")),
        lines,
        tone: Some(Tone::Yellow),
    }
}

/// The rows of the search view: an input line of three cells' height, and
/// the pane in what is left.
pub fn search_rows() -> (rows: Vec<Row>)
    ensures
        rows@ == seq![Row::Length(3), Row::Min(0)],
{
    let mut rows: Vec<Row> = Vec::new();
    rows.push(Row::Length(3));
    rows.push(Row::Min(0));
    assert(rows@ =~= seq![Row::Length(3), Row::Min(0)]);
    rows
}

/// The search view of `app` in `area`, with its input line in
/// `input_area` and its pane in `results_area`. The results area must be
/// four cells wide at least where results are listed.
pub fn compose(app: &App, area: Area, input_area: Area, results_area: Area) -> (v: SearchView)
    requires
        results_area.width >= 4 || !lists_results(app@),
    ensures
        v.area == area,
        v.input_area == input_area,
        v.results_area == results_area,
        v.input@ == input_text(app@.search_input),
        v.input_tone == Tone::Yellow,
        v.input_block@ == input_block(),
        v.pane@ == pane_of(app@, results_area.width),
{
    let pane = if app.search_input.as_str().is_empty() {
        render_empty_state(app)
    } else if app.search_results.len() == 0 {
        render_no_results(app.search_input.as_str())
    } else {
        render_results(app, results_area.width)
    };
    let mut input = String::from_str("\u{203a} ");
    input.append(app.search_input.as_str());
    assert(input@ =~= input_text(app@.search_input));
    let input_block = Block {
        title: String::from_str(" Search "),
        borders: Borders::All,
        tone: Some(Tone::Blue),
    };
    SearchView {
        area,
        input_area,
        results_area,
        input,
        input_tone: Tone::Yellow,
        input_block,
        pane,
    }
}

/// Whether an area has room for the input line: it is three cells high
/// at least and ends within the range of the coordinates.
pub open spec fn roomy(area: Area) -> bool {
    area.height >= 3 && area.y + area.height <= u16::MAX
}

/// The top three rows of an area.
pub open spec fn input_rows(area: Area) -> Area {
    Area { x: area.x, y: area.y, width: area.width, height: 3 }
}

/// The rows of an area below its top three.
pub open spec fn pane_rows(area: Area) -> Area {
    Area {
        x: area.x,
        y: (area.y + 3) as u16,
        width: area.width,
        height: (area.height - 3) as u16,
    }
}

/// Whether `v` is the search view of `app` in `area`: the input line
/// first and the pane below it, both across the width of the area and
/// inside it, with the text of the input line and the pane of `app`. In
/// an area with room for it the input line takes the top three rows and
/// the pane the rows below.
pub open spec fn shows(v: SearchView, app: AppView, area: Area) -> bool {
    &&& v.area == area
    &&& divided(area, seq![v.input_area, v.results_area])
    &&& roomy(area) ==> v.input_area == input_rows(area) && v.results_area == pane_rows(area)
    &&& v.input@ == input_text(app.search_input)
    &&& v.input_tone == Tone::Yellow
    &&& v.input_block@ == input_block()
    &&& v.pane@ == pane_of(app, area.width)
}

/// The search view of `app` in `area`: the input line in the first of
/// the rows that `area` is divided into, and the pane in the second. The
/// area must be four cells wide at least where results are listed.
pub fn render(app: &App, area: Area) -> (v: SearchView)
    requires
        area.width >= 4 || !lists_results(app@),
    ensures
        shows(v, app@, area),
{
    let rows = search_rows();
    let chunks = split_rows(area, &rows);
    let v = compose(app, area, chunks[0], chunks[1]);
    proof {
        assert(seq![v.input_area, v.results_area] =~= chunks@);
        if roomy(area) {
            lemma_search_rows_settle(area, chunks@);
        }
    }
    v
}

/// In an area with room for the input line the rows of the search view
/// settle: three rows at the top, and the rest below.
pub proof fn lemma_search_rows_settle(area: Area, out: Seq<Area>)
    requires
        roomy(area),
        out.len() == 2,
        divided(area, out),
    ensures
        settles(area, seq![Row::Length(3), Row::Min(0)]),
        settled(area, seq![Row::Length(3), Row::Min(0)], out) ==> out[0] == input_rows(area)
            && out[1] == pane_rows(area),
{
    let rows = seq![Row::Length(3), Row::Min(0)];
    reveal_with_fuel(crate::tui::layout::asked_upto, 4);
    reveal_with_fuel(crate::tui::layout::lengths_upto, 4);
    reveal_with_fuel(crate::tui::layout::mins_upto, 4);
    reveal_with_fuel(crate::tui::layout::top_in, 4);
    if settled(area, rows, out) {
        assert(out[0].y == crate::tui::layout::top_in(area, rows, 0));
        assert(out[1].y == crate::tui::layout::top_in(area, rows, 1));
        assert(crate::tui::layout::spans(area, out[0]));
        assert(crate::tui::layout::spans(area, out[1]));
    }
}

} // verus!
