use vstd::prelude::*;
use vstd::utf8::*;
use vstd::std_specs::iter::IteratorSpec;
use vstd::string::StringSliceAdditionalSpecFns;
use crate::model::{
    FrameV, State, StreamError, Event, empty_state, append, open, close, collapse, reopened, cut,
    add_text, trim_cr, line_end, feed, valid_range, range_text, run,
};
use crate::node::{Node, Tree, tree_of, trees_of};

verus! {

broadcast use vstd::string::axiom_spec_iter, vstd::string::next_postcondition;

/// Relies on `String::push`: appends one character.
#[verifier::external_body]
fn push_char(s: &mut String, c: char)
    ensures
        final(s)@ == old(s)@.push(c),
{
    s.push(c)
}

/// Relies on `String::pop`: removes and returns the last character, if any.
#[verifier::external_body]
fn pop_char(s: &mut String) -> (r: Option<char>)
    ensures
        old(s)@.len() == 0 ==> r is None && final(s)@ == old(s)@,
        old(s)@.len() > 0 ==> r == Some(old(s)@.last()) && final(s)@ == old(s)@.drop_last(),
{
    s.pop()
}

proof fn lemma_trees_push(s: Seq<Node>, n: Node)
    ensures
        trees_of(s.push(n)) == trees_of(s).push(tree_of(n)),
{
    assert(s.push(n).drop_last() =~= s);
}

/// Removes the carriage returns at the end of `s`.
fn trim_returns(s: &mut String)
    ensures
        final(s)@ == trim_cr(old(s)@),
{
    loop
        invariant
            trim_cr(s@) == trim_cr(old(s)@),
        ensures
            s@ == trim_cr(old(s)@),
        decreases s@.len(),
    {
        let ghost before = s@;
        match pop_char(s) {
            None => {
                return;
            },
            Some(c) => {
                if c != '\r' {
                    push_char(s, c);
                    assert(s@ =~= before);
                    return;
                }
            },
        }
    }
}

proof fn lemma_line_end_concat(a: Seq<char>, b: Seq<char>)
    requires
        line_end(a) == a.len(),
    ensures
        line_end(a + b) == a.len() + line_end(b),
    decreases a.len(),
{
    if a.len() == 0 {
        assert(a + b =~= b);
    } else {
        assert((a + b).drop_first() =~= a.drop_first() + b);
        lemma_line_end_concat(a.drop_first(), b);
    }
}

/// A region that is open: its category name and its nodes on the current line.
pub struct Frame {
    pub name: String,
    pub children: Vec<Node>,
}

impl View for Frame {
    type V = FrameV;

    open spec fn view(&self) -> FrameV {
        FrameV { name: self.name@, children: trees_of(self.children@) }
    }
}

pub open spec fn frames_of(s: Seq<Frame>) -> Seq<FrameV> {
    s.map_values(|f: Frame| f@)
}

/// Builds the line-partitioned forest one event at a time.
pub struct ForestBuilder {
    pub root: Vec<Node>,
    pub stack: Vec<Frame>,
}

impl View for ForestBuilder {
    type V = State;

    open spec fn view(&self) -> State {
        State { root: trees_of(self.root@), stack: frames_of(self.stack@) }
    }
}

impl ForestBuilder {
    /// A builder with an empty forest and no open region.
    pub fn new() -> (r: ForestBuilder)
        ensures
            r@ == empty_state(),
            r@.stack.len() == 0,
    {
        let r = ForestBuilder { root: Vec::new(), stack: Vec::new() };
        assert(r@.stack =~= Seq::<FrameV>::empty());
        r
    }

    /// Appends a node to the innermost open region, or to the forest.
    fn push_node(&mut self, n: Node)
        ensures
            final(self)@ == append(old(self)@, n@),
    {
        if self.stack.len() == 0 {
            proof { lemma_trees_push(self.root@, n); }
            self.root.push(n);
        } else {
            let ghost old_stack = self.stack@;
            let mut top = self.stack.pop().unwrap();
            proof { lemma_trees_push(top.children@, n); }
            top.children.push(n);
            self.stack.push(top);
            assert(frames_of(self.stack@) =~= frames_of(old_stack).drop_last().push(top@));
        }
    }

    /// Opens a region of the given category.
    pub fn open(&mut self, name: String)
        ensures
            final(self)@ == open(old(self)@, name@),
    {
        let ghost old_stack = self.stack@;
        self.stack.push(Frame { name, children: Vec::new() });
        assert(trees_of(Seq::<Node>::empty()) =~= Seq::<Tree>::empty());
        assert(frames_of(self.stack@) =~= frames_of(old_stack).push(
            FrameV { name: name@, children: Seq::empty() },
        ));
    }

    /// Closes the innermost open region; fails when none is open.
    pub fn close(&mut self) -> (r: Result<(), StreamError>)
        ensures
            old(self)@.stack.len() == 0 ==> r == Err::<(), StreamError>(StreamError::UnbalancedEnd)
                && final(self)@ == old(self)@,
            old(self)@.stack.len() > 0 ==> r is Ok && final(self)@ == close(old(self)@),
    {
        match self.stack.pop() {
            None => Err(StreamError::UnbalancedEnd),
            Some(top) => {
                let ghost st = old(self)@;
                assert(frames_of(self.stack@) =~= st.stack.drop_last());
                self.push_node(Node::Span { name: top.name, children: top.children });
                Ok(())
            },
        }
    }

    /// Cuts the line: closes every open region, ends the line, and opens
    /// the same regions again, each with nothing in it.
    pub fn line_cut(&mut self)
        ensures
            final(self)@ == cut(old(self)@),
    {
        let ghost st = self@;
        let ghost n = self.stack@.len();
        let mut names: Vec<String> = Vec::new();
        let mut closed: Option<Node> = None;
        while self.stack.len() > 0
            invariant
                self@.root == st.root,
                st.stack.len() == n,
                self.stack@.len() <= n,
                frames_of(self.stack@) == st.stack.subrange(0, self.stack@.len() as int),
                names@.len() == n - self.stack@.len(),
                forall|j: int| 0 <= j < names@.len() ==> #[trigger] names@[j]@ == st.stack[n - 1 - j].name,
                closed is None <==> self.stack@.len() == n,
                closed is Some ==> closed->0@ == collapse(st.stack.subrange(self.stack@.len() as int, n as int)),
            decreases self.stack@.len(),
        {
            let ghost m = self.stack@.len() as int;
            let ghost before = self.stack@;
            let f = self.stack.pop().unwrap();
            assert(f == before[m - 1]);
            assert(frames_of(before)[m - 1] == st.stack[m - 1]);
            assert forall|i: int| 0 <= i < m - 1 implies frames_of(self.stack@)[i] == st.stack[i] by {
                assert(self.stack@[i] == before[i]);
                assert(frames_of(before)[i] == st.stack[i]);
            }
            assert(frames_of(self.stack@) =~= st.stack.subrange(0, m - 1));
            assert(f@ == st.stack[m - 1]);
            let mut children = f.children;
            let ghost inner = st.stack.subrange(m - 1, n as int);
            match closed {
                Some(c) => {
                    proof { lemma_trees_push(children@, c); }
                    children.push(c);
                    assert(inner.drop_first() =~= st.stack.subrange(m as int, n as int));
                },
                None => {},
            }
            let name = f.name.clone();
            names.push(f.name);
            closed = Some(Node::Span { name, children });
        }
        match closed {
            Some(c) => {
                assert(st.stack.subrange(0, n as int) =~= st.stack);
                proof { lemma_trees_push(self.root@, c); }
                self.root.push(c);
            },
            None => {},
        }
        proof { lemma_trees_push(self.root@, Node::LineBreak); }
        self.root.push(Node::LineBreak);
        let ghost root_done = self@.root;
        assert(root_done == cut(st).root);
        while names.len() > 0
            invariant
                self@.root == root_done,
                st.stack.len() == n,
                names@.len() + self.stack@.len() == n,
                forall|j: int| 0 <= j < names@.len() ==> #[trigger] names@[j]@ == st.stack[n - 1 - j].name,
                frames_of(self.stack@) == reopened(st.stack).subrange(0, self.stack@.len() as int),
            decreases names@.len(),
        {
            let ghost k = self.stack@.len() as int;
            let ghost old_names = names@;
            let name = names.pop().unwrap();
            assert(name == old_names[old_names.len() - 1]);
            assert(name@ == st.stack[k].name);
            let ghost old_stack = self.stack@;
            self.stack.push(Frame { name, children: Vec::new() });
            assert(trees_of(Seq::<Node>::empty()) =~= Seq::<Tree>::empty());
            assert forall|i: int| 0 <= i < k implies frames_of(self.stack@)[i] == reopened(st.stack)[i] by {
                assert(self.stack@[i] == old_stack[i]);
                assert(frames_of(old_stack)[i] == reopened(st.stack).subrange(0, k)[i]);
            }
            assert(frames_of(self.stack@) =~= reopened(st.stack).subrange(0, k + 1 as int));
        }
        assert(reopened(st.stack).subrange(0, n as int) =~= reopened(st.stack));
    }

    /// Appends a fragment of text; an empty one adds nothing.
    fn push_text(&mut self, frag: String)
        ensures
            final(self)@ == add_text(old(self)@, frag@),
    {
        if !frag.as_str().is_empty() {
            self.push_node(Node::Text(frag));
        }
    }

    /// Feeds a piece of source text: every line that ends in it is appended
    /// without its terminator and then cut; what follows the last newline
    /// stays in the open regions.
    pub fn feed(&mut self, text: &str)
        ensures
            final(self)@ == feed(old(self)@, text@),
    {
        let ghost goal = feed(self@, text@);
        let mut frag = String::new();
        let mut it = text.chars();
        assert(frag@ + it.remaining() =~= text@);
        loop
            invariant
                goal == feed(old(self)@, text@),
                feed(self@, frag@ + it.remaining()) == goal,
                line_end(frag@) == frag@.len(),
                it.decrease() is Some,
            decreases it.decrease()->0,
        {
            let ghost rem = it.remaining();
            match it.next() {
                None => {
                    assert(rem.len() == 0);
                    assert(frag@ + rem =~= frag@);
                    assert(feed(self@, frag@) == add_text(self@, frag@));
                    self.push_text(frag);
                    return;
                },
                Some(c) => {
                    proof { lemma_line_end_concat(frag@, rem); }
                    if c == '\n' {
                        let ghost t = frag@ + rem;
                        assert(t.subrange(0, frag@.len() as int) =~= frag@);
                        assert(t.subrange(frag@.len() + 1 as int, t.len() as int) =~= it.remaining());
                        trim_returns(&mut frag);
                        self.push_text(frag);
                        self.line_cut();
                        frag = String::new();
                        assert(frag@ + it.remaining() =~= it.remaining());
                        assert(line_end(frag@) == 0);
                    } else {
                        let ghost before = frag@;
                        push_char(&mut frag, c);
                        assert(frag@ + it.remaining() =~= before + rem);
                        proof {
                            lemma_line_end_concat(before, seq![c]);
                            assert(seq![c].drop_first() =~= Seq::<char>::empty());
                            assert(line_end(Seq::<char>::empty()) == 0);
                            assert(line_end(seq![c]) == 1);
                            assert(before + seq![c] =~= frag@);
                        }
                    }
                },
            }
        }
    }

    /// Ends the build: the forest, when every region has been closed.
    pub fn finish(self) -> (r: Result<Vec<Node>, StreamError>)
        ensures
            self@.stack.len() == 0 ==> r is Ok && trees_of(r->Ok_0@) == self@.root,
            self@.stack.len() > 0 ==> r == Err::<Vec<Node>, StreamError>(StreamError::Unclosed),
    {
        if self.stack.len() == 0 {
            Ok(self.root)
        } else {
            Err(StreamError::Unclosed)
        }
    }
}

} // verus!

verus! {

/// The names of a table, as character sequences.
pub open spec fn names_view(names: Seq<String>) -> Seq<Seq<char>> {
    names.map_values(|n: String| n@)
}

/// The text of the bytes `start..end` of `source`, when they are whole characters.
pub fn slice_of(source: &str, start: usize, end: usize) -> (r: Option<&str>)
    ensures
        r is Some <==> valid_range(source.spec_bytes(), start, end),
        r is Some ==> r->0@ == range_text(source.spec_bytes(), start, end),
{
    let ghost bytes = source.spec_bytes();
    proof {
        encode_utf8_valid_utf8(source@);
    }
    if start <= end && source.is_char_boundary(start) && source.is_char_boundary(end) {
        proof {
            reveal_with_fuel(is_char_boundary, 1);
            assert(end <= bytes.len());
        }
        let (head, _) = source.split_at(end);
        proof {
            let hb = bytes.subrange(0, end as int);
            assert(head.spec_bytes() == hb);
            valid_utf8_split(bytes, end as int);
            if start == end {
                is_char_boundary_start_end_of_seq(hb);
            } else if start > 0 {
                is_char_boundary_iff_not_is_continuation_byte(bytes, start as int);
                is_char_boundary_iff_not_is_continuation_byte(hb, start as int);
            }
        }
        let (_, mid) = head.split_at(start);
        proof {
            assert(mid.spec_bytes() =~= bytes.subrange(start as int, end as int));
            encode_utf8_decode_utf8(mid@);
        }
        Some(mid)
    } else {
        None
    }
}

/// Turns a whole event stream over `source` into the line-partitioned forest.
/// Regions are named through `names`; the stream must close every region it
/// opens, and its ranges must be whole characters of `source`.
pub fn build_forest(source: &str, events: &Vec<Event>, names: &Vec<String>) -> (r: Result<Vec<Node>, StreamError>)
    ensures
        match run(source.spec_bytes(), events@, names_view(names@), empty_state()) {
            Ok(st) => r is Ok && trees_of(r->Ok_0@) == st.root,
            Err(e) => r == Err::<Vec<Node>, StreamError>(e),
        },
{
    let ghost bytes = source.spec_bytes();
    let ghost nv = names_view(names@);
    let ghost goal = run(bytes, events@, nv, empty_state());
    let mut b = ForestBuilder::new();
    let mut i: usize = 0;
    assert(events@.subrange(0, events@.len() as int) =~= events@);
    while i < events.len()
        invariant
            i <= events@.len(),
            bytes == source.spec_bytes(),
            nv == names_view(names@),
            goal == run(source.spec_bytes(), events@, names_view(names@), empty_state()),
            run(bytes, events@.subrange(i as int, events@.len() as int), nv, b@) == goal,
        decreases events@.len() - i,
    {
        let ghost rest = events@.subrange(i as int, events@.len() as int);
        assert(rest.drop_first() =~= events@.subrange(i + 1, events@.len() as int));
        assert(rest[0] == events@[i as int]);
        let ev = events[i];
        match ev {
            Event::Source { start, end } => {
                match slice_of(source, start, end) {
                    Some(text) => b.feed(text),
                    None => return Err(StreamError::BadRange),
                }
            },
            Event::Start(k) => {
                if k < names.len() {
                    b.open(names[k].clone());
                } else {
                    return Err(StreamError::UnknownCategory);
                }
            },
            Event::End => {
                match b.close() {
                    Ok(()) => {},
                    Err(e) => return Err(e),
                }
            },
        }
        i = i + 1;
    }
    assert(events@.subrange(i as int, events@.len() as int) =~= Seq::<Event>::empty());
    b.finish()
}

} // verus!
