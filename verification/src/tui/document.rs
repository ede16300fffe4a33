//! Styled text: what is shown, independent of the terminal.
use vstd::prelude::*;

verus! {

/// The colours of the interface.
#[derive(Clone, Copy, Debug, PartialEq, Eq, Structural)]
pub enum Paint {
    Plain,
    Primary,
    PrimaryContainer,
    Secondary,
    BorderWarm,
    Text,
    Muted,
    Dim,
    Red,
}

/// How a piece of text looks.
#[derive(Clone, Copy, Debug, PartialEq, Eq, Structural)]
pub struct Style {
    pub paint: Paint,
    pub bold: bool,
    pub reversed: bool,
}

/// Ordinary text of that colour.
pub open spec fn plain(paint: Paint) -> Style {
    Style { paint, bold: false, reversed: false }
}

/// Bold text of that colour.
pub open spec fn bold(paint: Paint) -> Style {
    Style { paint, bold: true, reversed: false }
}

impl Style {
    /// Ordinary text of that colour.
    pub fn plain(paint: Paint) -> (s: Style)
        ensures
            s == plain(paint),
    {
        Style { paint, bold: false, reversed: false }
    }

    /// Bold text of that colour.
    pub fn bold(paint: Paint) -> (s: Style)
        ensures
            s == bold(paint),
    {
        Style { paint, bold: true, reversed: false }
    }
}

/// A piece of text in one style.
#[derive(Debug)]
pub struct Span {
    pub text: String,
    pub style: Style,
}

/// A line of text.
#[derive(Debug)]
pub struct Line {
    pub spans: Vec<Span>,
}

/// A block of lines.
#[derive(Debug)]
pub struct Item {
    pub lines: Vec<Line>,
}

/// A piece of text by its characters.
#[verifier::ext_equal]
pub struct Piece {
    pub text: Seq<char>,
    pub style: Style,
}

/// The pieces of a line.
pub open spec fn pieces(l: Line) -> Seq<Piece> {
    Seq::new(l.spans@.len(), |i: int| Piece { text: l.spans@[i].text@, style: l.spans@[i].style })
}

/// The lines of a block.
pub open spec fn rows(item: Item) -> Seq<Seq<Piece>> {
    Seq::new(item.lines@.len(), |i: int| pieces(item.lines@[i]))
}

/// The blocks of a view.
pub open spec fn blocks(items: Seq<Item>) -> Seq<Seq<Seq<Piece>>> {
    Seq::new(items.len(), |i: int| rows(items[i]))
}

impl Line {
    /// An empty line.
    pub fn new() -> (l: Self)
        ensures
            pieces(l) == Seq::<Piece>::empty(),
    {
        let l = Line { spans: Vec::new() };
        assert(pieces(l) =~= Seq::empty());
        l
    }

    /// Add a piece of text.
    pub fn add(&mut self, text: &str, style: Style)
        ensures
            pieces(*final(self)) == pieces(*old(self)).push(Piece { text: text@, style }),
    {
        self.spans.push(Span { text: text.to_string(), style });
        assert(pieces(*self) =~= pieces(*old(self)).push(Piece { text: text@, style }));
    }
}

impl Item {
    /// A block without lines.
    pub fn new() -> (item: Self)
        ensures
            rows(item) == Seq::<Seq<Piece>>::empty(),
    {
        let item = Item { lines: Vec::new() };
        assert(rows(item) =~= Seq::empty());
        item
    }

    /// Add a line.
    pub fn add(&mut self, line: Line)
        ensures
            rows(*final(self)) == rows(*old(self)).push(pieces(line)),
    {
        self.lines.push(line);
        assert(rows(*self) =~= rows(*old(self)).push(pieces(line)));
    }

    /// Add an empty line.
    pub fn blank(&mut self)
        ensures
            rows(*final(self)) == rows(*old(self)).push(Seq::empty()),
    {
        self.add(Line::new());
    }
}

/// Add a block to a view.
pub fn add_item(items: &mut Vec<Item>, item: Item)
    ensures
        blocks(final(items)@) == blocks(old(items)@).push(rows(item)),
{
    items.push(item);
    assert(blocks(items@) =~= blocks(old(items)@).push(rows(item)));
}

/// A line of one piece.
pub fn line1(text: &str, style: Style) -> (l: Line)
    ensures
        pieces(l) == seq![Piece { text: text@, style }],
{
    let mut l = Line::new();
    l.add(text, style);
    assert(pieces(l) =~= seq![Piece { text: text@, style }]);
    l
}

/// A line of two pieces.
pub fn line2(a: &str, sa: Style, b: &str, sb: Style) -> (l: Line)
    ensures
        pieces(l) == seq![Piece { text: a@, style: sa }, Piece { text: b@, style: sb }],
{
    let mut l = Line::new();
    l.add(a, sa);
    l.add(b, sb);
    assert(pieces(l) =~= seq![Piece { text: a@, style: sa }, Piece { text: b@, style: sb }]);
    l
}

/// A line of three pieces.
pub fn line3(a: &str, sa: Style, b: &str, sb: Style, c: &str, sc: Style) -> (l: Line)
    ensures
        pieces(l) == seq![
            Piece { text: a@, style: sa },
            Piece { text: b@, style: sb },
            Piece { text: c@, style: sc },
        ],
{
    let mut l = Line::new();
    l.add(a, sa);
    l.add(b, sb);
    l.add(c, sc);
    assert(pieces(l) =~= seq![
        Piece { text: a@, style: sa },
        Piece { text: b@, style: sb },
        Piece { text: c@, style: sc },
    ]);
    l
}

} // verus!
