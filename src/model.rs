use vstd::prelude::*;
use vstd::utf8::*;
use crate::node::Tree;

verus! {

/// An open region: its category name and what it holds on the current line.
pub ghost struct FrameV {
    pub name: Seq<char>,
    pub children: Seq<Tree>,
}

/// The forest built so far, and the regions still open, outermost first.
pub ghost struct State {
    pub root: Seq<Tree>,
    pub stack: Seq<FrameV>,
}

/// One event of the highlighter's stream.
#[derive(Clone, Copy, Debug, PartialEq, Eq)]
pub enum Event {
    /// The source bytes `start..end`.
    Source { start: usize, end: usize },
    /// Opens a region whose category is the name at this index.
    Start(usize),
    /// Closes the innermost open region.
    End,
}

/// Why an event stream could not be turned into a forest.
#[derive(Clone, Copy, Debug, PartialEq, Eq)]
pub enum StreamError {
    /// An `End` came while no region was open.
    UnbalancedEnd,
    /// A `Start` named an index past the end of the name table.
    UnknownCategory,
    /// A `Source` range lies outside the text or splits a character.
    BadRange,
    /// The stream ended with a region still open.
    Unclosed,
}

pub open spec fn empty_state() -> State {
    State { root: Seq::empty(), stack: Seq::empty() }
}

/// Appends a node to the innermost open region, or to the forest when none is open.
pub open spec fn append(st: State, t: Tree) -> State {
    if st.stack.len() == 0 {
        State { root: st.root.push(t), stack: st.stack }
    } else {
        let top = st.stack.last();
        State {
            root: st.root,
            stack: st.stack.drop_last().push(FrameV { name: top.name, children: top.children.push(t) }),
        }
    }
}

pub open spec fn open(st: State, name: Seq<char>) -> State {
    State { root: st.root, stack: st.stack.push(FrameV { name, children: Seq::empty() }) }
}

/// Closes the innermost open region into a span of its parent.
pub open spec fn close(st: State) -> State {
    let top = st.stack.last();
    append(State { root: st.root, stack: st.stack.drop_last() }, Tree::Span(top.name, top.children))
}

/// The span that closing every one of `frames`, innermost first, yields.
pub open spec fn collapse(frames: Seq<FrameV>) -> Tree
    decreases frames.len(),
{
    if frames.len() <= 1 {
        Tree::Span(frames[0].name, frames[0].children)
    } else {
        Tree::Span(frames[0].name, frames[0].children.push(collapse(frames.drop_first())))
    }
}

/// The same regions, each opened afresh with nothing in it.
pub open spec fn reopened(frames: Seq<FrameV>) -> Seq<FrameV> {
    frames.map_values(|f: FrameV| FrameV { name: f.name, children: Seq::empty() })
}

/// A line cut: close every open region, end the line, open the regions again.
pub open spec fn cut(st: State) -> State {
    let closed = if st.stack.len() == 0 { st.root } else { st.root.push(collapse(st.stack)) };
    State { root: closed.push(Tree::LineBreak), stack: reopened(st.stack) }
}

/// Appends a text fragment; an empty one adds nothing.
pub open spec fn add_text(st: State, s: Seq<char>) -> State {
    if s.len() == 0 { st } else { append(st, Tree::Text(s)) }
}

/// `s` without the carriage returns at its end.
pub open spec fn trim_cr(s: Seq<char>) -> Seq<char>
    decreases s.len(),
{
    if s.len() > 0 && s.last() == '\r' { trim_cr(s.drop_last()) } else { s }
}

/// The index of the first newline of `s`, or its length when it has none.
pub open spec fn line_end(s: Seq<char>) -> nat
    decreases s.len(),
{
    if s.len() == 0 || s[0] == '\n' { 0 } else { 1 + line_end(s.drop_first()) }
}

/// Feeds a piece of source text: each line that ends in it is appended and cut.
pub open spec fn feed(st: State, text: Seq<char>) -> State
    decreases text.len(),
{
    let i = line_end(text);
    if i >= text.len() {
        add_text(st, text)
    } else {
        feed(
            cut(add_text(st, trim_cr(text.subrange(0, i as int)))),
            text.subrange((i + 1) as int, text.len() as int),
        )
    }
}

/// Whether `start..end` is a range of whole characters of the text whose bytes are `bytes`.
pub open spec fn valid_range(bytes: Seq<u8>, start: usize, end: usize) -> bool {
    &&& start <= end <= bytes.len()
    &&& is_char_boundary(bytes, start as int)
    &&& is_char_boundary(bytes, end as int)
}

/// The characters of the bytes `start..end`.
pub open spec fn range_text(bytes: Seq<u8>, start: usize, end: usize) -> Seq<char> {
    decode_utf8(bytes.subrange(start as int, end as int))
}

/// Runs the rest of an event stream from a state.
pub open spec fn run(bytes: Seq<u8>, events: Seq<Event>, names: Seq<Seq<char>>, st: State) -> Result<State, StreamError>
    decreases events.len(),
{
    if events.len() == 0 {
        if st.stack.len() == 0 { Ok(st) } else { Err(StreamError::Unclosed) }
    } else {
        let rest = events.drop_first();
        match events[0] {
            Event::Source { start, end } => if valid_range(bytes, start, end) {
                run(bytes, rest, names, feed(st, range_text(bytes, start, end)))
            } else {
                Err(StreamError::BadRange)
            },
            Event::Start(i) => if i < names.len() {
                run(bytes, rest, names, open(st, names[i as int]))
            } else {
                Err(StreamError::UnknownCategory)
            },
            Event::End => if st.stack.len() > 0 {
                run(bytes, rest, names, close(st))
            } else {
                Err(StreamError::UnbalancedEnd)
            },
        }
    }
}

} // verus!
