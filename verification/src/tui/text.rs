//! Text as the interface draws it: lines of coloured pieces, and the
//! block that stands around a widget.

use vstd::prelude::*;
use crate::engine::text::views;

verus! {

/// The colour of a piece of text or of a border.
#[derive(Clone, Copy, PartialEq, Eq, Structural, Debug)]
pub enum Tone {
    Blue,
    Cyan,
    Green,
    Yellow,
    Red,
    DarkGray,
}

/// The sides of a widget that have a border.
#[derive(Clone, Copy, PartialEq, Eq, Structural, Debug)]
pub enum Borders {
    Bottom,
    All,
}

/// A piece of a line: its text, and its colour where it has one of its
/// own.
#[derive(Debug)]
pub struct Piece {
    pub text: String,
    pub tone: Option<Tone>,
}

impl View for Piece {
    type V = (Seq<char>, Option<Tone>);

    open spec fn view(&self) -> (Seq<char>, Option<Tone>) {
        (self.text@, self.tone)
    }
}

/// A line of text: its pieces from left to right, and whether they are
/// set in bold.
#[derive(Debug)]
pub struct TextLine {
    pub pieces: Vec<Piece>,
    pub bold: bool,
}

/// A `TextLine` as contracts see it.
pub struct TextLineView {
    pub pieces: Seq<(Seq<char>, Option<Tone>)>,
    pub bold: bool,
}

impl View for TextLine {
    type V = TextLineView;

    open spec fn view(&self) -> TextLineView {
        TextLineView { pieces: views(self.pieces@), bold: self.bold }
    }
}

/// The block around a widget: its title, which is empty where it has
/// none, the sides that have a border, and the border's colour where it
/// has one of its own.
#[derive(Debug)]
pub struct Block {
    pub title: String,
    pub borders: Borders,
    pub tone: Option<Tone>,
}

/// A `Block` as contracts see it.
pub struct BlockView {
    pub title: Seq<char>,
    pub borders: Borders,
    pub tone: Option<Tone>,
}

impl View for Block {
    type V = BlockView;

    open spec fn view(&self) -> BlockView {
        BlockView { title: self.title@, borders: self.borders, tone: self.tone }
    }
}

/// A line of one piece.
pub open spec fn single(text: Seq<char>, tone: Option<Tone>, bold: bool) -> TextLineView {
    TextLineView { pieces: seq![(text, tone)], bold }
}

/// A line of text in the colour of its widget.
pub open spec fn plain(text: Seq<char>) -> TextLineView {
    single(text, None, false)
}

/// A line of text in a colour of its own.
pub open spec fn toned(text: Seq<char>, tone: Tone) -> TextLineView {
    single(text, Some(tone), false)
}

/// A line of text in bold, in a colour of its own.
pub open spec fn strong(text: Seq<char>, tone: Tone) -> TextLineView {
    single(text, Some(tone), true)
}

/// A block with a border on all sides under the title `title`.
pub open spec fn boxed(title: Seq<char>) -> BlockView {
    BlockView { title, borders: Borders::All, tone: None }
}

/// A line of one piece.
pub fn line_of(text: String, tone: Option<Tone>, bold: bool) -> (line: TextLine)
    ensures
        line@ == single(text@, tone, bold),
{
    let mut pieces: Vec<Piece> = Vec::new();
    pieces.push(Piece { text, tone });
    assert(views(pieces@) =~= seq![(text@, tone)]);
    TextLine { pieces, bold }
}

/// A line of text in the colour of its widget.
pub fn plain_line(text: &str) -> (line: TextLine)
    ensures
        line@ == plain(text@),
{
    line_of(String::from_str(text), None, false)
}

/// A line of text in a colour of its own.
pub fn toned_line(text: &str, tone: Tone) -> (line: TextLine)
    ensures
        line@ == toned(text@, tone),
{
    line_of(String::from_str(text), Some(tone), false)
}

/// A block with a border on all sides under a title.
pub fn boxed_under(title: String) -> (block: Block)
    ensures
        block@ == boxed(title@),
{
    Block { title, borders: Borders::All, tone: None }
}

} // verus!
