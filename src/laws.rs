use vstd::prelude::*;
use vstd::utf8::*;
use crate::model::{
    FrameV, State, Event, empty_state, append, open, close, collapse, reopened, cut, add_text,
    trim_cr, line_end, feed, valid_range, range_text, run,
};
use crate::node::Tree;

verus! {

/// Whether a text holds no newline.
pub open spec fn one_line(s: Seq<char>) -> bool {
    forall|k: int| 0 <= k < s.len() ==> #[trigger] s[k] != '\n'
}

/// Whether a node holds no line break anywhere inside it, nor a newline in its text.
pub open spec fn no_break(t: Tree) -> bool
    decreases t,
{
    match t {
        Tree::Text(s) => one_line(s),
        Tree::LineBreak => false,
        Tree::Span(_, c) => all_no_break(c),
    }
}

/// Whether no node of a sequence holds a line break or a newline.
pub open spec fn all_no_break(c: Seq<Tree>) -> bool
    decreases c,
{
    if c.len() == 0 {
        true
    } else {
        all_no_break(c.drop_last()) && no_break(c.last())
    }
}

proof fn lemma_all_no_break(c: Seq<Tree>)
    ensures
        all_no_break(c) <==> forall|i: int| 0 <= i < c.len() ==> #[trigger] no_break(c[i]),
    decreases c.len(),
{
    if c.len() > 0 {
        let d = c.drop_last();
        lemma_all_no_break(d);
        if forall|i: int| 0 <= i < c.len() ==> #[trigger] no_break(c[i]) {
            assert forall|i: int| 0 <= i < d.len() implies #[trigger] no_break(d[i]) by {
                assert(d[i] == c[i]);
            }
            assert(no_break(c[c.len() - 1]));
        }
        if all_no_break(c) {
            assert forall|i: int| 0 <= i < c.len() implies #[trigger] no_break(c[i]) by {
                if i < d.len() {
                    assert(d[i] == c[i]);
                }
            }
        }
    }
}

/// Line breaks stand only at the top of the forest, never inside a span or an open region.
pub open spec fn breaks_on_top(st: State) -> bool {
    &&& forall|i: int| 0 <= i < st.root.len() ==> (#[trigger] st.root[i] is LineBreak || no_break(st.root[i]))
    &&& forall|j: int, i: int| 0 <= j < st.stack.len() && 0 <= i < st.stack[j].children.len()
        ==> no_break(#[trigger] st.stack[j].children[i])
}

proof fn lemma_append_breaks(st: State, t: Tree)
    requires
        breaks_on_top(st),
        no_break(t),
    ensures
        breaks_on_top(append(st, t)),
{
    let s2 = append(st, t);
    if st.stack.len() > 0 {
        assert forall|j: int, i: int| 0 <= j < s2.stack.len() && 0 <= i < s2.stack[j].children.len()
            implies no_break(#[trigger] s2.stack[j].children[i]) by {
            if j < st.stack.len() - 1 {
                assert(s2.stack[j] == st.stack[j]);
            } else if i < st.stack[j].children.len() {
                assert(s2.stack[j].children[i] == st.stack[j].children[i]);
            }
        }
    }
}

proof fn lemma_collapse_breaks(f: Seq<FrameV>)
    requires
        f.len() >= 1,
        forall|j: int, i: int| 0 <= j < f.len() && 0 <= i < f[j].children.len()
            ==> no_break(#[trigger] f[j].children[i]),
    ensures
        no_break(collapse(f)),
    decreases f.len(),
{
    if f.len() > 1 {
        let rest = f.drop_first();
        assert forall|j: int, i: int| 0 <= j < rest.len() && 0 <= i < rest[j].children.len()
            implies no_break(#[trigger] rest[j].children[i]) by {
            assert(rest[j] == f[j + 1]);
        }
        lemma_collapse_breaks(rest);
        let c = f[0].children.push(collapse(rest));
        assert forall|i: int| 0 <= i < c.len() implies #[trigger] no_break(c[i]) by {
            if i < f[0].children.len() {
                assert(c[i] == f[0].children[i]);
            }
        }
        lemma_all_no_break(c);
    } else {
        let c = f[0].children;
        assert forall|i: int| 0 <= i < c.len() implies #[trigger] no_break(c[i]) by {
            assert(no_break(f[0].children[i]));
        }
        lemma_all_no_break(c);
    }
}

proof fn lemma_cut_breaks(st: State)
    requires
        breaks_on_top(st),
    ensures
        breaks_on_top(cut(st)),
{
    if st.stack.len() > 0 {
        lemma_collapse_breaks(st.stack);
    }
    let s2 = cut(st);
    assert forall|i: int| 0 <= i < s2.root.len() implies (#[trigger] s2.root[i] is LineBreak || no_break(s2.root[i])) by {
        if i < st.root.len() {
            assert(s2.root[i] == st.root[i]);
        }
    }
}

proof fn lemma_line_end_before(s: Seq<char>)
    ensures
        forall|k: int| 0 <= k < line_end(s) && k < s.len() ==> #[trigger] s[k] != '\n',
    decreases s.len(),
{
    if s.len() > 0 && s[0] != '\n' {
        lemma_line_end_before(s.drop_first());
        assert forall|k: int| 0 <= k < line_end(s) && k < s.len() implies #[trigger] s[k] != '\n' by {
            if k > 0 {
                assert(s[k] == s.drop_first()[k - 1]);
            }
        }
    }
}

proof fn lemma_trim_cr_prefix(s: Seq<char>)
    ensures
        trim_cr(s).len() <= s.len(),
        trim_cr(s) =~= s.subrange(0, trim_cr(s).len() as int),
    decreases s.len(),
{
    if s.len() > 0 && s.last() == '\r' {
        lemma_trim_cr_prefix(s.drop_last());
    }
}

proof fn lemma_feed_breaks(st: State, text: Seq<char>)
    requires
        breaks_on_top(st),
    ensures
        breaks_on_top(feed(st, text)),
    decreases text.len(),
{
    let i = line_end(text);
    lemma_line_end_before(text);
    if i >= text.len() {
        if text.len() > 0 {
            lemma_append_breaks(st, Tree::Text(text));
        }
    } else {
        let seg = trim_cr(text.subrange(0, i as int));
        lemma_trim_cr_prefix(text.subrange(0, i as int));
        assert forall|k: int| 0 <= k < seg.len() implies #[trigger] seg[k] != '\n' by {
            assert(seg[k] == text[k]);
        }
        if seg.len() > 0 {
            lemma_append_breaks(st, Tree::Text(seg));
        }
        let s1 = add_text(st, seg);
        lemma_cut_breaks(s1);
        lemma_feed_breaks(cut(s1), text.subrange(i + 1 as int, text.len() as int));
    }
}

proof fn lemma_run_breaks(bytes: Seq<u8>, events: Seq<Event>, names: Seq<Seq<char>>, st: State)
    requires
        breaks_on_top(st),
    ensures
        run(bytes, events, names, st) is Ok ==> breaks_on_top(run(bytes, events, names, st)->Ok_0),
    decreases events.len(),
{
    if events.len() > 0 {
        let rest = events.drop_first();
        match events[0] {
            Event::Source { start, end } => {
                if valid_range(bytes, start, end) {
                    let t = range_text(bytes, start, end);
                    lemma_feed_breaks(st, t);
                    lemma_run_breaks(bytes, rest, names, feed(st, t));
                }
            },
            Event::Start(k) => {
                if k < names.len() {
                    lemma_run_breaks(bytes, rest, names, open(st, names[k as int]));
                }
            },
            Event::End => {
                if st.stack.len() > 0 {
                    let top = st.stack.last();
                    let below = State { root: st.root, stack: st.stack.drop_last() };
                    assert forall|i: int| 0 <= i < top.children.len() implies #[trigger] no_break(top.children[i]) by {
                        assert(no_break(st.stack[st.stack.len() - 1].children[i]));
                    }
                    lemma_all_no_break(top.children);
                    lemma_append_breaks(below, Tree::Span(top.name, top.children));
                    lemma_run_breaks(bytes, rest, names, close(st));
                }
            },
        }
    }
}

/// No span of a built forest holds a line break: each line closes every span
/// that it opens.
pub proof fn spans_never_straddle_lines(bytes: Seq<u8>, events: Seq<Event>, names: Seq<Seq<char>>)
    requires
        run(bytes, events, names, empty_state()) is Ok,
    ensures
        ({
            let forest = run(bytes, events, names, empty_state())->Ok_0.root;
            forall|i: int| 0 <= i < forest.len() && #[trigger] forest[i] is Span ==> no_break(forest[i])
        }),
{
    lemma_run_breaks(bytes, events, names, empty_state());
}

proof fn lemma_run_closes(bytes: Seq<u8>, events: Seq<Event>, names: Seq<Seq<char>>, st: State)
    ensures
        run(bytes, events, names, st) is Ok ==> run(bytes, events, names, st)->Ok_0.stack.len() == 0,
    decreases events.len(),
{
    if events.len() > 0 {
        let rest = events.drop_first();
        match events[0] {
            Event::Source { start, end } => {
                lemma_run_closes(bytes, rest, names, feed(st, range_text(bytes, start, end)));
            },
            Event::Start(k) => {
                if k < names.len() {
                    lemma_run_closes(bytes, rest, names, open(st, names[k as int]));
                }
            },
            Event::End => {
                lemma_run_closes(bytes, rest, names, close(st));
            },
        }
    }
}

/// Building starts with no open region, and every stream that builds a forest
/// leaves none open at its end.
pub proof fn regions_balance(bytes: Seq<u8>, events: Seq<Event>, names: Seq<Seq<char>>)
    ensures
        empty_state().stack.len() == 0,
        run(bytes, events, names, empty_state()) is Ok
            ==> run(bytes, events, names, empty_state())->Ok_0.stack.len() == 0,
{
    lemma_run_closes(bytes, events, names, empty_state());
}

/// The text of a node, with a newline for each line break.
pub open spec fn flat(t: Tree) -> Seq<char>
    decreases t,
{
    match t {
        Tree::Text(s) => s,
        Tree::LineBreak => seq!['\n'],
        Tree::Span(_, c) => flat_all(c),
    }
}

/// The text of a sequence of nodes, in order.
pub open spec fn flat_all(s: Seq<Tree>) -> Seq<char>
    decreases s,
{
    if s.len() == 0 {
        Seq::empty()
    } else {
        flat_all(s.drop_last()) + flat(s.last())
    }
}

/// The text held by open regions, outermost first.
pub open spec fn frames_text(f: Seq<FrameV>) -> Seq<char>
    decreases f.len(),
{
    if f.len() == 0 {
        Seq::empty()
    } else {
        flat_all(f[0].children) + frames_text(f.drop_first())
    }
}

/// All the text that a state holds, in order.
pub open spec fn state_text(st: State) -> Seq<char> {
    flat_all(st.root) + frames_text(st.stack)
}

/// No carriage return stands right before a newline.
pub open spec fn no_crlf(s: Seq<char>) -> bool {
    forall|i: int| 0 <= i < s.len() - 1 && #[trigger] s[i] == '\r' ==> s[i + 1] != '\n'
}

/// The text of the `Source` events of a stream, in order.
pub open spec fn stream_text(bytes: Seq<u8>, events: Seq<Event>) -> Seq<char>
    decreases events.len(),
{
    if events.len() == 0 {
        Seq::empty()
    } else {
        match events[0] {
            Event::Source { start, end } => range_text(bytes, start, end) + stream_text(bytes, events.drop_first()),
            _ => stream_text(bytes, events.drop_first()),
        }
    }
}

/// Whether the `Source` ranges of a stream follow each other from `pos` up to `end`.
pub open spec fn covers(events: Seq<Event>, pos: int, end: int) -> bool
    decreases events.len(),
{
    if events.len() == 0 {
        pos == end
    } else {
        match events[0] {
            Event::Source { start, end: e } => start == pos && covers(events.drop_first(), e as int, end),
            _ => covers(events.drop_first(), pos, end),
        }
    }
}

/// Whether no `Source` piece of a stream has a carriage return right before a newline.
pub open spec fn pieces_no_crlf(bytes: Seq<u8>, events: Seq<Event>) -> bool
    decreases events.len(),
{
    if events.len() == 0 {
        true
    } else {
        match events[0] {
            Event::Source { start, end } => no_crlf(range_text(bytes, start, end))
                && pieces_no_crlf(bytes, events.drop_first()),
            _ => pieces_no_crlf(bytes, events.drop_first()),
        }
    }
}

proof fn lemma_flat_all_push(s: Seq<Tree>, t: Tree)
    ensures
        flat_all(s.push(t)) == flat_all(s) + flat(t),
{
    assert(s.push(t).drop_last() =~= s);
}

proof fn lemma_frames_text_push(f: Seq<FrameV>, x: FrameV)
    ensures
        frames_text(f.push(x)) == frames_text(f) + flat_all(x.children),
    decreases f.len(),
{
    if f.len() == 0 {
        assert(f.push(x).drop_first() =~= Seq::<FrameV>::empty());
        assert(frames_text(Seq::<FrameV>::empty()) == Seq::<char>::empty());
        assert(f.push(x)[0] == x);
        assert(frames_text(f.push(x)) == flat_all(x.children) + Seq::<char>::empty());
        assert(frames_text(f.push(x)) =~= frames_text(f) + flat_all(x.children));
    } else {
        assert(f.push(x).drop_first() =~= f.drop_first().push(x));
        lemma_frames_text_push(f.drop_first(), x);
        assert(frames_text(f.push(x)) =~= frames_text(f) + flat_all(x.children));
    }
}

proof fn lemma_append_text(st: State, t: Tree)
    ensures
        state_text(append(st, t)) == state_text(st) + flat(t),
{
    if st.stack.len() == 0 {
        lemma_flat_all_push(st.root, t);
        assert(state_text(append(st, t)) =~= state_text(st) + flat(t));
    } else {
        let d = st.stack.drop_last();
        let top = st.stack.last();
        assert(st.stack =~= d.push(top));
        lemma_frames_text_push(d, top);
        let top2 = FrameV { name: top.name, children: top.children.push(t) };
        lemma_frames_text_push(d, top2);
        lemma_flat_all_push(top.children, t);
        assert(state_text(append(st, t)) =~= state_text(st) + flat(t));
    }
}

proof fn lemma_collapse_text(f: Seq<FrameV>)
    requires
        f.len() >= 1,
    ensures
        flat(collapse(f)) == frames_text(f),
    decreases f.len(),
{
    if f.len() > 1 {
        lemma_collapse_text(f.drop_first());
        lemma_flat_all_push(f[0].children, collapse(f.drop_first()));
    } else {
        assert(f.drop_first() =~= Seq::<FrameV>::empty());
        assert(frames_text(Seq::<FrameV>::empty()) == Seq::<char>::empty());
        assert(frames_text(f) == flat_all(f[0].children) + Seq::<char>::empty());
        assert(frames_text(f) =~= flat_all(f[0].children));
    }
}

proof fn lemma_reopened_text(f: Seq<FrameV>)
    ensures
        frames_text(reopened(f)) == Seq::<char>::empty(),
    decreases f.len(),
{
    if f.len() > 0 {
        assert(reopened(f).drop_first() =~= reopened(f.drop_first()));
        lemma_reopened_text(f.drop_first());
        assert(reopened(f)[0].children =~= Seq::<Tree>::empty());
        assert(frames_text(reopened(f)) =~= Seq::<char>::empty());
    } else {
        assert(reopened(f).len() == 0);
    }
}

proof fn lemma_cut_text(st: State)
    ensures
        state_text(cut(st)) == state_text(st) + seq!['\n'],
{
    lemma_reopened_text(st.stack);
    if st.stack.len() == 0 {
        lemma_flat_all_push(st.root, Tree::LineBreak);
        assert(state_text(cut(st)) =~= state_text(st) + seq!['\n']);
    } else {
        let c = collapse(st.stack);
        lemma_collapse_text(st.stack);
        lemma_flat_all_push(st.root, c);
        lemma_flat_all_push(st.root.push(c), Tree::LineBreak);
        assert(state_text(cut(st)) =~= state_text(st) + seq!['\n']);
    }
}

proof fn lemma_close_text(st: State)
    requires
        st.stack.len() > 0,
    ensures
        state_text(close(st)) == state_text(st),
{
    let d = st.stack.drop_last();
    let top = st.stack.last();
    let below = State { root: st.root, stack: d };
    assert(st.stack =~= d.push(top));
    lemma_frames_text_push(d, top);
    lemma_append_text(below, Tree::Span(top.name, top.children));
    assert(state_text(close(st)) =~= state_text(st));
}

proof fn lemma_open_text(st: State, name: Seq<char>)
    ensures
        state_text(open(st, name)) == state_text(st),
{
    let x = FrameV { name, children: Seq::empty() };
    lemma_frames_text_push(st.stack, x);
    assert(flat_all(x.children) == Seq::<char>::empty());
    assert(state_text(open(st, name)) =~= state_text(st));
}

proof fn lemma_line_end_newline(s: Seq<char>)
    ensures
        line_end(s) <= s.len(),
        line_end(s) < s.len() ==> s[line_end(s) as int] == '\n',
    decreases s.len(),
{
    if s.len() > 0 && s[0] != '\n' {
        lemma_line_end_newline(s.drop_first());
    }
}

proof fn lemma_feed_text(st: State, text: Seq<char>)
    requires
        no_crlf(text),
    ensures
        state_text(feed(st, text)) == state_text(st) + text,
    decreases text.len(),
{
    let i = line_end(text);
    lemma_line_end_newline(text);
    if i >= text.len() {
        if text.len() > 0 {
            lemma_append_text(st, Tree::Text(text));
        } else {
            assert(state_text(st) + text =~= state_text(st));
        }
    } else {
        let seg = text.subrange(0, i as int);
        if i > 0 {
            assert(text[i - 1] != '\r');
            assert(seg.last() == text[i - 1]);
        }
        assert(trim_cr(seg) == seg);
        let s1 = add_text(st, seg);
        if seg.len() > 0 {
            lemma_append_text(st, Tree::Text(seg));
        } else {
            assert(state_text(st) + seg =~= state_text(st));
        }
        lemma_cut_text(s1);
        let rest = text.subrange(i + 1 as int, text.len() as int);
        assert forall|k: int| 0 <= k < rest.len() - 1 && #[trigger] rest[k] == '\r' implies rest[k + 1] != '\n' by {
            assert(rest[k] == text[i + 1 + k]);
            assert(rest[k + 1] == text[i + 1 + k + 1]);
        }
        lemma_feed_text(cut(s1), rest);
        assert(text =~= seg + seq!['\n'] + rest);
        assert(state_text(feed(st, text)) =~= state_text(st) + text);
    }
}

proof fn lemma_run_text(bytes: Seq<u8>, events: Seq<Event>, names: Seq<Seq<char>>, st: State)
    requires
        pieces_no_crlf(bytes, events),
    ensures
        run(bytes, events, names, st) is Ok ==> flat_all(run(bytes, events, names, st)->Ok_0.root)
            == state_text(st) + stream_text(bytes, events),
    decreases events.len(),
{
    if events.len() == 0 {
        if st.stack.len() == 0 {
            assert(state_text(st) + stream_text(bytes, events) =~= flat_all(st.root));
        }
    } else {
        let rest = events.drop_first();
        match events[0] {
            Event::Source { start, end } => {
                let t = range_text(bytes, start, end);
                lemma_feed_text(st, t);
                lemma_run_text(bytes, rest, names, feed(st, t));
                assert(state_text(st) + t + stream_text(bytes, rest) =~= state_text(st) + stream_text(bytes, events));
            },
            Event::Start(k) => {
                if k < names.len() {
                    lemma_open_text(st, names[k as int]);
                    lemma_run_text(bytes, rest, names, open(st, names[k as int]));
                }
            },
            Event::End => {
                if st.stack.len() > 0 {
                    lemma_close_text(st);
                    lemma_run_text(bytes, rest, names, close(st));
                }
            },
        }
    }
}

proof fn lemma_covers_text(bytes: Seq<u8>, events: Seq<Event>, names: Seq<Seq<char>>, st: State, pos: int)
    requires
        valid_utf8(bytes),
        0 <= pos <= bytes.len(),
        is_char_boundary(bytes, pos),
        covers(events, pos, bytes.len() as int),
        run(bytes, events, names, st) is Ok,
    ensures
        stream_text(bytes, events) == decode_utf8(bytes.subrange(pos, bytes.len() as int)),
    decreases events.len(),
{
    let len = bytes.len() as int;
    if events.len() == 0 {
        assert(bytes.subrange(pos, len) =~= Seq::<u8>::empty());
    } else {
        let rest = events.drop_first();
        match events[0] {
            Event::Source { start, end } => {
                let e = end as int;
                let t = range_text(bytes, start, end);
                lemma_covers_text(bytes, rest, names, feed(st, t), e);
                let sub = bytes.subrange(pos, len);
                valid_utf8_split(bytes, pos);
                if e == len {
                    is_char_boundary_start_end_of_seq(sub);
                } else if e > pos {
                    is_char_boundary_iff_not_is_continuation_byte(bytes, e);
                    is_char_boundary_iff_not_is_continuation_byte(sub, e - pos);
                }
                decode_utf8_split(sub, e - pos);
                assert(sub.subrange(0, e - pos) =~= bytes.subrange(pos, e));
                assert(sub.subrange(e - pos, sub.len() as int) =~= bytes.subrange(e, len));
            },
            Event::Start(k) => {
                lemma_covers_text(bytes, rest, names, open(st, names[k as int]), pos);
            },
            Event::End => {
                lemma_covers_text(bytes, rest, names, close(st), pos);
            },
        }
    }
}

proof fn lemma_no_crlf_split(a: Seq<char>, b: Seq<char>)
    requires
        no_crlf(a + b),
    ensures
        no_crlf(a),
        no_crlf(b),
{
    assert forall|i: int| 0 <= i < a.len() - 1 && #[trigger] a[i] == '\r' implies a[i + 1] != '\n' by {
        assert((a + b)[i] == a[i]);
        assert((a + b)[i + 1] == a[i + 1]);
    }
    assert forall|i: int| 0 <= i < b.len() - 1 && #[trigger] b[i] == '\r' implies b[i + 1] != '\n' by {
        assert((a + b)[a.len() + i] == b[i]);
        assert((a + b)[a.len() + i + 1] == b[i + 1]);
    }
}

proof fn lemma_pieces_no_crlf(bytes: Seq<u8>, events: Seq<Event>)
    requires
        no_crlf(stream_text(bytes, events)),
    ensures
        pieces_no_crlf(bytes, events),
    decreases events.len(),
{
    if events.len() > 0 {
        let rest = events.drop_first();
        match events[0] {
            Event::Source { start, end } => {
                lemma_no_crlf_split(range_text(bytes, start, end), stream_text(bytes, rest));
                lemma_pieces_no_crlf(bytes, rest);
            },
            _ => {
                lemma_pieces_no_crlf(bytes, rest);
            },
        }
    }
}

/// Flattening a built forest, with a newline for each line break, gives the
/// text of the stream's `Source` pieces in order, when no piece has a carriage
/// return right before a newline.
pub proof fn flattening_restores_pieces(bytes: Seq<u8>, events: Seq<Event>, names: Seq<Seq<char>>)
    requires
        run(bytes, events, names, empty_state()) is Ok,
        pieces_no_crlf(bytes, events),
    ensures
        flat_all(run(bytes, events, names, empty_state())->Ok_0.root) == stream_text(bytes, events),
{
    lemma_run_text(bytes, events, names, empty_state());
    assert(state_text(empty_state()) =~= Seq::<char>::empty());
    assert(Seq::<char>::empty() + stream_text(bytes, events) =~= stream_text(bytes, events));
}

/// Flattening a built forest back to text, with a newline for each line
/// break, gives the source text again, when the stream's ranges cover the
/// source in order and no carriage return stands right before a newline.
pub proof fn flattening_restores_source(text: Seq<char>, events: Seq<Event>, names: Seq<Seq<char>>)
    requires
        run(encode_utf8(text), events, names, empty_state()) is Ok,
        covers(events, 0, encode_utf8(text).len() as int),
        no_crlf(text),
    ensures
        flat_all(run(encode_utf8(text), events, names, empty_state())->Ok_0.root) == text,
{
    let bytes = encode_utf8(text);
    encode_utf8_valid_utf8(text);
    is_char_boundary_start_end_of_seq(bytes);
    lemma_covers_text(bytes, events, names, empty_state(), 0);
    assert(bytes.subrange(0, bytes.len() as int) =~= bytes);
    encode_utf8_decode_utf8(text);
    lemma_pieces_no_crlf(bytes, events);
    lemma_run_text(bytes, events, names, empty_state());
    assert(state_text(empty_state()) =~= Seq::<char>::empty());
    assert(Seq::<char>::empty() + text =~= text);
}

/// The lines of a text, each without its newline; a text ending in a newline
/// ends with an empty line.
pub open spec fn lines(s: Seq<char>) -> Seq<Seq<char>>
    decreases s.len(),
{
    if s.len() == 0 {
        seq![Seq::empty()]
    } else if s.last() == '\n' {
        lines(s.drop_last()).push(Seq::empty())
    } else {
        let l = lines(s.drop_last());
        l.update(l.len() - 1, l.last().push(s.last()))
    }
}

/// The text of each line of a forest: what stands between two line breaks,
/// or before the first or after the last.
pub open spec fn line_texts(ts: Seq<Tree>) -> Seq<Seq<char>>
    decreases ts.len(),
{
    if ts.len() == 0 {
        seq![Seq::empty()]
    } else if ts.last() is LineBreak {
        line_texts(ts.drop_last()).push(Seq::empty())
    } else {
        let l = line_texts(ts.drop_last());
        l.update(l.len() - 1, l.last() + flat(ts.last()))
    }
}

proof fn lemma_lines_len(s: Seq<char>)
    ensures
        lines(s).len() >= 1,
    decreases s.len(),
{
    if s.len() > 0 {
        lemma_lines_len(s.drop_last());
    }
}

proof fn lemma_line_texts_len(ts: Seq<Tree>)
    ensures
        line_texts(ts).len() >= 1,
    decreases ts.len(),
{
    if ts.len() > 0 {
        lemma_line_texts_len(ts.drop_last());
    }
}

proof fn lemma_lines_extend(x: Seq<char>, y: Seq<char>)
    requires
        one_line(y),
    ensures
        ({
            let l = lines(x);
            lines(x + y) == l.update(l.len() - 1, l.last() + y)
        }),
    decreases y.len(),
{
    lemma_lines_len(x);
    let l = lines(x);
    if y.len() == 0 {
        assert(x + y =~= x);
        assert(l.update(l.len() - 1, l.last() + y) =~= l);
    } else {
        let y2 = y.drop_last();
        assert forall|k: int| 0 <= k < y2.len() implies #[trigger] y2[k] != '\n' by {
            assert(y2[k] == y[k]);
        }
        lemma_lines_extend(x, y2);
        assert((x + y).drop_last() =~= x + y2);
        assert((x + y).last() == y.last());
        assert(y[y.len() - 1] != '\n');
        assert((l.last() + y2).push(y.last()) =~= l.last() + y);
        assert(lines(x + y) =~= l.update(l.len() - 1, l.last() + y));
    }
}

proof fn lemma_span_children(n: Seq<char>, c: Seq<Tree>)
    requires
        no_break(Tree::Span(n, c)),
    ensures
        forall|i: int| 0 <= i < c.len() ==> #[trigger] no_break(c[i]),
{
    lemma_all_no_break(c);
}

proof fn lemma_flat_one_line(t: Tree)
    requires
        no_break(t),
    ensures
        one_line(flat(t)),
    decreases t,
{
    if let Tree::Span(n, c) = t {
        lemma_span_children(n, c);
        lemma_flat_all_one_line(c);
    }
}

proof fn lemma_flat_all_one_line(c: Seq<Tree>)
    requires
        forall|i: int| 0 <= i < c.len() ==> #[trigger] no_break(c[i]),
    ensures
        one_line(flat_all(c)),
    decreases c,
{
    if c.len() > 0 {
        let d = c.drop_last();
        assert forall|i: int| 0 <= i < d.len() implies #[trigger] no_break(d[i]) by {
            assert(d[i] == c[i]);
        }
        lemma_flat_all_one_line(d);
        lemma_flat_one_line(c.last());
        let a = flat_all(d);
        let b = flat(c.last());
        assert forall|k: int| 0 <= k < (a + b).len() implies #[trigger] (a + b)[k] != '\n' by {
            if k < a.len() {
                assert((a + b)[k] == a[k]);
            } else {
                assert((a + b)[k] == b[k - a.len()]);
            }
        }
    }
}

proof fn lemma_line_texts_flat(ts: Seq<Tree>)
    requires
        forall|i: int| 0 <= i < ts.len() ==> (#[trigger] ts[i] is LineBreak || no_break(ts[i])),
    ensures
        line_texts(ts) == lines(flat_all(ts)),
    decreases ts.len(),
{
    if ts.len() > 0 {
        let d = ts.drop_last();
        let t = ts.last();
        assert forall|i: int| 0 <= i < d.len() implies (#[trigger] d[i] is LineBreak || no_break(d[i])) by {
            assert(d[i] == ts[i]);
        }
        lemma_line_texts_flat(d);
        assert(ts =~= d.push(t));
        lemma_flat_all_push(d, t);
        if t is LineBreak {
            let x = flat_all(d) + seq!['\n'];
            assert(x.drop_last() =~= flat_all(d));
        } else {
            lemma_flat_one_line(t);
            lemma_lines_extend(flat_all(d), flat(t));
        }
    }
}

/// Each line of a built forest, read as text, is one line of the source
/// without its terminator, when the stream's ranges cover the source in order
/// and no carriage return stands right before a newline.
pub proof fn lines_match_source(text: Seq<char>, events: Seq<Event>, names: Seq<Seq<char>>)
    requires
        run(encode_utf8(text), events, names, empty_state()) is Ok,
        covers(events, 0, encode_utf8(text).len() as int),
        no_crlf(text),
    ensures
        line_texts(run(encode_utf8(text), events, names, empty_state())->Ok_0.root) == lines(text),
{
    let bytes = encode_utf8(text);
    flattening_restores_source(text, events, names);
    lemma_run_breaks(bytes, events, names, empty_state());
    lemma_line_texts_flat(run(bytes, events, names, empty_state())->Ok_0.root);
}

/// Whether `t` is a span named `names[0]` whose first child is a span named
/// `names[1]`, and so on down the list.
pub open spec fn nests(t: Tree, names: Seq<Seq<char>>) -> bool
    decreases names.len(),
{
    if names.len() == 0 {
        true
    } else {
        &&& t is Span
        &&& t->Span_0 == names[0]
        &&& names.len() == 1 || (t->Span_1.len() > 0 && nests(t->Span_1[0], names.drop_first()))
    }
}

/// The category names of a stack of regions, outermost first.
pub open spec fn stack_names(f: Seq<FrameV>) -> Seq<Seq<char>> {
    f.map_values(|x: FrameV| x.name)
}

/// After a cut, regions `0..m` of `xs` are still open at the bottom of the
/// stack; those below the `m`-th are empty, and the `m`-th begins with the
/// regions of `xs` that have closed since, nested in order.
spec fn waiting(s: State, xs: Seq<Seq<char>>, m: int) -> bool {
    &&& 1 <= m <= xs.len()
    &&& m <= s.stack.len()
    &&& forall|j: int| 0 <= j < m ==> #[trigger] s.stack[j].name == xs[j]
    &&& forall|j: int| 0 <= j < m - 1 ==> (#[trigger] s.stack[j]).children.len() == 0
    &&& m < xs.len() ==> s.stack[m - 1].children.len() > 0
        && nests(s.stack[m - 1].children[0], xs.subrange(m, xs.len() as int))
}

/// The line that starts at root index `at` begins, or will begin once its
/// regions close, with the regions `xs` nested in order.
spec fn line_opens_with(s: State, at: int, xs: Seq<Seq<char>>) -> bool {
    ||| 0 <= at < s.root.len() && nests(s.root[at], xs)
    ||| 0 <= at == s.root.len() && exists|m: int| waiting(s, xs, m)
}

proof fn lemma_collapse_nests(f: Seq<FrameV>, xs: Seq<Seq<char>>, m: int)
    requires
        waiting(State { root: Seq::empty(), stack: f }, xs, m),
    ensures
        nests(collapse(f), xs),
    decreases m,
{
    let c = collapse(f);
    if m == 1 {
        if xs.len() > 1 {
            assert(xs.drop_first() =~= xs.subrange(1, xs.len() as int));
            if f.len() > 1 {
                assert(c->Span_1[0] == f[0].children[0]);
            }
        }
    } else {
        let rest = f.drop_first();
        let ys = xs.drop_first();
        assert forall|j: int| 0 <= j < m - 1 implies #[trigger] rest[j].name == ys[j] by {
            assert(rest[j] == f[j + 1]);
            assert(f[j + 1].name == xs[j + 1]);
        }
        assert forall|j: int| 0 <= j < m - 2 implies (#[trigger] rest[j]).children.len() == 0 by {
            assert(rest[j] == f[j + 1]);
            assert(f[j + 1].children.len() == 0);
        }
        assert(ys.subrange(m - 1, ys.len() as int) =~= xs.subrange(m, xs.len() as int));
        assert(rest[m - 2] == f[m - 1]);
        lemma_collapse_nests(rest, ys, m - 1);
        assert(f[0].children.len() == 0);
        assert(f[0].name == xs[0]);
        assert(c->Span_1 =~= seq![collapse(rest)]);
    }
}

proof fn lemma_append_opens(s: State, at: int, xs: Seq<Seq<char>>, t: Tree)
    requires
        line_opens_with(s, at, xs),
        s.root.len() == at ==> s.stack.len() > 0,
    ensures
        line_opens_with(append(s, t), at, xs),
{
    let s2 = append(s, t);
    if 0 <= at < s.root.len() && nests(s.root[at], xs) {
        assert(s2.root[at] == s.root[at]);
    } else {
        let m = choose|m: int| waiting(s, xs, m);
        let top = s.stack.len() - 1;
        assert forall|j: int| 0 <= j < top implies #[trigger] s2.stack[j] == s.stack[j] by {}
        if top == m - 1 && m < xs.len() {
            assert(s2.stack[m - 1].children[0] == s.stack[m - 1].children[0]);
        }
        assert(waiting(s2, xs, m));
    }
}

proof fn lemma_cut_opens(s: State, at: int, xs: Seq<Seq<char>>)
    requires
        line_opens_with(s, at, xs),
    ensures
        line_opens_with(cut(s), at, xs),
{
    let s2 = cut(s);
    if 0 <= at < s.root.len() && nests(s.root[at], xs) {
        assert(s2.root[at] == s.root[at]);
    } else {
        let m = choose|m: int| waiting(s, xs, m);
        assert(waiting(State { root: Seq::empty(), stack: s.stack }, xs, m));
        lemma_collapse_nests(s.stack, xs, m);
        assert(s2.root[at] == collapse(s.stack));
    }
}

proof fn lemma_close_opens(s: State, at: int, xs: Seq<Seq<char>>)
    requires
        line_opens_with(s, at, xs),
        s.stack.len() > 0,
    ensures
        line_opens_with(close(s), at, xs),
{
    let top = s.stack.last();
    let below = State { root: s.root, stack: s.stack.drop_last() };
    let sp = Tree::Span(top.name, top.children);
    if 0 <= at < s.root.len() && nests(s.root[at], xs) {
        lemma_append_opens(below, at, xs, sp);
    } else {
        let m = choose|m: int| waiting(s, xs, m);
        if s.stack.len() > m {
            assert forall|j: int| 0 <= j < m implies #[trigger] below.stack[j] == s.stack[j] by {}
            assert(waiting(below, xs, m));
            lemma_append_opens(below, at, xs, sp);
        } else {
            let n = xs.len() as int;
            assert(top == s.stack[m - 1]);
            assert(nests(sp, xs.subrange(m - 1, n))) by {
                let zs = xs.subrange(m - 1, n);
                assert(zs[0] == xs[m - 1]);
                if zs.len() > 1 {
                    assert(zs.drop_first() =~= xs.subrange(m, n));
                }
            }
            let s2 = close(s);
            if m == 1 {
                assert(xs.subrange(0, n) =~= xs);
                assert(s2.root[at] == sp);
            } else {
                assert forall|j: int| 0 <= j < m - 1 implies #[trigger] s2.stack[j].name == xs[j] by {
                    if j < m - 2 {
                        assert(s2.stack[j] == s.stack[j]);
                    }
                }
                assert forall|j: int| 0 <= j < m - 2 implies (#[trigger] s2.stack[j]).children.len() == 0 by {
                    assert(s2.stack[j] == s.stack[j]);
                }
                assert(s.stack[m - 2].children.len() == 0);
                assert(s2.stack[m - 2].children =~= seq![sp]);
                assert(waiting(s2, xs, m - 1));
            }
        }
    }
}

proof fn lemma_feed_opens(s: State, at: int, xs: Seq<Seq<char>>, text: Seq<char>)
    requires
        line_opens_with(s, at, xs),
    ensures
        line_opens_with(feed(s, text), at, xs),
    decreases text.len(),
{
    let i = line_end(text);
    if i >= text.len() {
        if text.len() > 0 {
            lemma_append_opens(s, at, xs, Tree::Text(text));
        }
    } else {
        let seg = trim_cr(text.subrange(0, i as int));
        if seg.len() > 0 {
            lemma_append_opens(s, at, xs, Tree::Text(seg));
        }
        let s1 = add_text(s, seg);
        lemma_cut_opens(s1, at, xs);
        lemma_feed_opens(cut(s1), at, xs, text.subrange(i + 1 as int, text.len() as int));
    }
}

proof fn lemma_run_opens(bytes: Seq<u8>, events: Seq<Event>, names: Seq<Seq<char>>, s: State, at: int, xs: Seq<Seq<char>>)
    requires
        line_opens_with(s, at, xs),
    ensures
        run(bytes, events, names, s) is Ok ==> line_opens_with(run(bytes, events, names, s)->Ok_0, at, xs),
    decreases events.len(),
{
    if events.len() > 0 {
        let rest = events.drop_first();
        match events[0] {
            Event::Source { start, end } => {
                let t = range_text(bytes, start, end);
                lemma_feed_opens(s, at, xs, t);
                lemma_run_opens(bytes, rest, names, feed(s, t), at, xs);
            },
            Event::Start(k) => {
                if k < names.len() {
                    let s2 = open(s, names[k as int]);
                    if s.root.len() == at {
                        let m = choose|m: int| waiting(s, xs, m);
                        assert forall|j: int| 0 <= j < s.stack.len() implies #[trigger] s2.stack[j] == s.stack[j] by {}
                        assert(waiting(s2, xs, m));
                    }
                    lemma_run_opens(bytes, rest, names, s2, at, xs);
                }
            },
            Event::End => {
                if s.stack.len() > 0 {
                    lemma_close_opens(s, at, xs);
                    lemma_run_opens(bytes, rest, names, close(s), at, xs);
                }
            },
        }
    }
}

/// When regions are open at a line cut, the next line of the forest that the
/// rest of the stream builds begins with a span of the outermost of them,
/// whose first child is a span of the next one, and so on in the nesting
/// order of the cut.
pub proof fn next_line_reopens_regions(
    bytes: Seq<u8>,
    st: State,
    events: Seq<Event>,
    names: Seq<Seq<char>>,
)
    requires
        st.stack.len() > 0,
        run(bytes, events, names, cut(st)) is Ok,
    ensures
        ({
            let forest = run(bytes, events, names, cut(st))->Ok_0.root;
            let at = st.root.len() + 2int;
            &&& forest[at - 1] is LineBreak
            &&& forest.len() > at
            &&& nests(forest[at], stack_names(st.stack))
        }),
{
    let xs = stack_names(st.stack);
    let at = st.root.len() + 2int;
    let c = cut(st);
    let n = xs.len() as int;
    assert forall|j: int| 0 <= j < n implies #[trigger] c.stack[j].name == xs[j] by {}
    assert forall|j: int| 0 <= j < n - 1 implies (#[trigger] c.stack[j]).children.len() == 0 by {}
    assert(waiting(c, xs, n));
    lemma_run_opens(bytes, events, names, c, at, xs);
    lemma_run_closes(bytes, events, names, c);
    lemma_run_keeps_prefix(bytes, events, names, c);
}

proof fn lemma_feed_keeps_prefix(s: State, text: Seq<char>)
    ensures
        feed(s, text).root.len() >= s.root.len(),
        forall|i: int| 0 <= i < s.root.len() ==> #[trigger] feed(s, text).root[i] == s.root[i],
    decreases text.len(),
{
    let i = line_end(text);
    if i < text.len() {
        let seg = trim_cr(text.subrange(0, i as int));
        let s1 = add_text(s, seg);
        lemma_feed_keeps_prefix(cut(s1), text.subrange(i + 1 as int, text.len() as int));
        let c = cut(s1);
        assert forall|k: int| 0 <= k < s.root.len() implies #[trigger] c.root[k] == s.root[k] by {
            assert(s1.root[k] == s.root[k]);
        }
    }
}

proof fn lemma_run_keeps_prefix(bytes: Seq<u8>, events: Seq<Event>, names: Seq<Seq<char>>, s: State)
    ensures
        run(bytes, events, names, s) is Ok ==> {
            let fin = run(bytes, events, names, s)->Ok_0;
            fin.root.len() >= s.root.len()
                && forall|i: int| 0 <= i < s.root.len() ==> #[trigger] fin.root[i] == s.root[i]
        },
    decreases events.len(),
{
    if events.len() > 0 {
        let rest = events.drop_first();
        match events[0] {
            Event::Source { start, end } => {
                let t = range_text(bytes, start, end);
                lemma_feed_keeps_prefix(s, t);
                lemma_run_keeps_prefix(bytes, rest, names, feed(s, t));
            },
            Event::Start(k) => {
                if k < names.len() {
                    lemma_run_keeps_prefix(bytes, rest, names, open(s, names[k as int]));
                }
            },
            Event::End => {
                if s.stack.len() > 0 {
                    lemma_run_keeps_prefix(bytes, rest, names, close(s));
                }
            },
        }
    }
}

} // verus!
