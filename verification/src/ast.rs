//! The syntax tree: a closed set of node variants, each carrying a
//! half-open byte-offset span `[pos, end)`.

use vstd::prelude::*;
use crate::position::Pos;
use crate::token::Token;

verus! {

/// One tree node.
#[derive(Debug)]
pub enum Node {
    Program(Program),
    IncPtr(IncPtr),
    DecPtr(DecPtr),
    IncByte(IncByte),
    DecByte(DecByte),
    OutputByte(OutputByte),
    InputByte(InputByte),
    Loop(Loop),
    Body(Body),
    BadNode(BadNode),
}

/// Pointer increment: `>`.
#[derive(Debug)]
pub struct IncPtr {
    pub pos: Pos,
}

/// Pointer decrement: `<`.
#[derive(Debug)]
pub struct DecPtr {
    pub pos: Pos,
}

/// Byte increment: `+`.
#[derive(Debug)]
pub struct IncByte {
    pub pos: Pos,
}

/// Byte decrement: `-`.
#[derive(Debug)]
pub struct DecByte {
    pub pos: Pos,
}

/// Byte output: `.`.
#[derive(Debug)]
pub struct OutputByte {
    pub pos: Pos,
}

/// Byte input: `,`.
#[derive(Debug)]
pub struct InputByte {
    pub pos: Pos,
}

/// The synthetic root: owns one `Body` and reports a fixed zero span.
#[derive(Debug)]
pub struct Program {
    pub body: Box<Node>,
}

/// A loop `[ ... ]`: its span starts at the `[` and ends with its body.
#[derive(Debug)]
pub struct Loop {
    pub pos: Pos,
    pub body: Box<Node>,
}

/// An ordered run of sibling nodes.
#[derive(Debug)]
pub struct Body {
    pub pos: Pos,
    pub list: Vec<Node>,
}

/// The range `[from, to)` consumed while recovering from malformed
/// input; the only variant that is not a recognized instruction.
#[derive(Debug)]
pub struct BadNode {
    pub from: Pos,
    pub to: Pos,
}

/// The inclusive start offset of a node's span.
pub open spec fn spec_pos(n: Node) -> int {
    match n {
        Node::Program(_) => 0,
        Node::IncPtr(x) => x.pos.0 as int,
        Node::DecPtr(x) => x.pos.0 as int,
        Node::IncByte(x) => x.pos.0 as int,
        Node::DecByte(x) => x.pos.0 as int,
        Node::OutputByte(x) => x.pos.0 as int,
        Node::InputByte(x) => x.pos.0 as int,
        Node::Loop(x) => x.pos.0 as int,
        Node::Body(x) => x.pos.0 as int,
        Node::BadNode(x) => x.from.0 as int,
    }
}

/// The exclusive end offset of a node's span.
pub open spec fn spec_end(n: Node) -> int
    decreases n,
{
    match n {
        Node::Program(_) => 0,
        Node::IncPtr(x) => x.pos.0 + 1,
        Node::DecPtr(x) => x.pos.0 + 1,
        Node::IncByte(x) => x.pos.0 + 1,
        Node::DecByte(x) => x.pos.0 + 1,
        Node::OutputByte(x) => x.pos.0 + 1,
        Node::InputByte(x) => x.pos.0 + 1,
        Node::Loop(x) => if (*x.body) is Body {
            spec_end(*x.body)
        } else {
            x.pos.0 + 1
        },
        Node::Body(x) => if x.list.len() > 0 {
            spec_end(x.list@.last())
        } else {
            x.pos.0 + 1
        },
        Node::BadNode(x) => x.to.0 as int,
    }
}

/// The bounds that keep span arithmetic inside `usize`; exactly the
/// recursion that `end` takes.
pub open spec fn spans_ok(n: Node) -> bool
    decreases n,
{
    match n {
        Node::Program(_) => true,
        Node::IncPtr(x) => x.pos.0 < usize::MAX,
        Node::DecPtr(x) => x.pos.0 < usize::MAX,
        Node::IncByte(x) => x.pos.0 < usize::MAX,
        Node::DecByte(x) => x.pos.0 < usize::MAX,
        Node::OutputByte(x) => x.pos.0 < usize::MAX,
        Node::InputByte(x) => x.pos.0 < usize::MAX,
        Node::Loop(x) => if (*x.body) is Body {
            spans_ok(*x.body)
        } else {
            x.pos.0 < usize::MAX
        },
        Node::Body(x) => if x.list.len() > 0 {
            spans_ok(x.list@.last())
        } else {
            x.pos.0 < usize::MAX
        },
        Node::BadNode(_) => true,
    }
}

/// Structural well-formedness of a tree: spans bounded, every `Loop` and
/// `Program` child a `Body`, and body children in source order with
/// non-overlapping spans.
pub open spec fn wf_node(n: Node) -> bool
    decreases n,
{
    match n {
        Node::Program(p) => (*p.body) is Body && wf_node(*p.body),
        Node::IncPtr(x) => x.pos.0 < usize::MAX,
        Node::DecPtr(x) => x.pos.0 < usize::MAX,
        Node::IncByte(x) => x.pos.0 < usize::MAX,
        Node::DecByte(x) => x.pos.0 < usize::MAX,
        Node::OutputByte(x) => x.pos.0 < usize::MAX,
        Node::InputByte(x) => x.pos.0 < usize::MAX,
        Node::Loop(x) => (*x.body) is Body && wf_node(*x.body) && x.pos.0 < spec_pos(*x.body),
        Node::Body(b) => {
            &&& b.pos.0 < usize::MAX
            &&& forall|i: int| 0 <= i < b.list.len() ==> wf_node(#[trigger] b.list@[i])
            &&& forall|i: int|
                0 <= i < b.list.len() - 1 ==> spec_end(#[trigger] b.list@[i]) <= spec_pos(
                    b.list@[i + 1],
                )
            &&& b.list.len() > 0 ==> b.pos.0 <= spec_pos(b.list@[0])
        },
        Node::BadNode(x) => x.from.0 <= x.to.0,
    }
}


/// Ghost form of a parsed node, spans included: a leaf operator at its
/// offset, a loop with its own and its body's start offsets and its
/// children, or a recovery placeholder with its consumed range. This is
/// what contracts use to pin a whole returned tree.
pub enum NodeV {
    Leaf(Token, int),
    Loop(int, int, Seq<NodeV>),
    Bad(int, int),
}

/// The ghost form of one node. Bare `Body` and `Program` nodes never
/// stand as children of a parsed run; they map to an empty placeholder.
pub open spec fn node_view(n: Node) -> NodeV
    decreases n, 0int,
{
    match n {
        Node::IncPtr(x) => NodeV::Leaf(Token::IncPtr, x.pos.0 as int),
        Node::DecPtr(x) => NodeV::Leaf(Token::DecPtr, x.pos.0 as int),
        Node::IncByte(x) => NodeV::Leaf(Token::IncByte, x.pos.0 as int),
        Node::DecByte(x) => NodeV::Leaf(Token::DecByte, x.pos.0 as int),
        Node::OutputByte(x) => NodeV::Leaf(Token::OutputByte, x.pos.0 as int),
        Node::InputByte(x) => NodeV::Leaf(Token::InputByte, x.pos.0 as int),
        Node::Loop(l) => match *l.body {
            Node::Body(b) => NodeV::Loop(l.pos.0 as int, b.pos.0 as int, node_views(b.list@)),
            _ => NodeV::Bad(0, 0),
        },
        Node::BadNode(x) => NodeV::Bad(x.from.0 as int, x.to.0 as int),
        Node::Program(_) => NodeV::Bad(0, 0),
        Node::Body(_) => NodeV::Bad(0, 0),
    }
}

/// Ghost forms of a run of siblings, in order.
pub open spec fn node_views(l: Seq<Node>) -> Seq<NodeV>
    decreases l, 1int,
{
    if l.len() == 0 {
        Seq::empty()
    } else {
        seq![node_view(l[0])] + node_views(l.drop_first())
    }
}

/// A run's ghost form has one entry per sibling, in place.
pub proof fn lemma_views_len(l: Seq<Node>)
    ensures
        node_views(l).len() == l.len(),
        forall|i: int| 0 <= i < l.len() ==> node_views(l)[i] == node_view(#[trigger] l[i]),
    decreases l.len(),
{
    if l.len() > 0 {
        lemma_views_len(l.drop_first());
        assert forall|i: int| 0 <= i < l.len() implies node_views(l)[i] == node_view(
            #[trigger] l[i],
        ) by {
            if i > 0 {
                assert(l.drop_first()[i - 1] == l[i]);
                assert(node_views(l)[i] == node_views(l.drop_first())[i - 1]);
            }
        }
    }
}

/// Ghost forms distribute over appending one sibling.
pub proof fn lemma_views_push(l: Seq<Node>, n: Node)
    ensures
        node_views(l.push(n)) == node_views(l).push(node_view(n)),
    decreases l.len(),
{
    if l.len() == 0 {
        assert(l.push(n)[0] == n);
        assert(l.push(n).drop_first() =~= Seq::<Node>::empty());
        assert(l.push(n).len() == 1);
        assert(node_views(l.push(n)) == seq![node_view(n)] + node_views(Seq::<Node>::empty()));
        assert(node_views(Seq::<Node>::empty()) == Seq::<NodeV>::empty());
        assert(node_views(l) == Seq::<NodeV>::empty());
        assert(seq![node_view(n)] + Seq::<NodeV>::empty() =~= seq![node_view(n)]);
        assert(Seq::<NodeV>::empty().push(node_view(n)) =~= seq![node_view(n)]);
    } else {
        assert(l.push(n).drop_first() =~= l.drop_first().push(n));
        assert(l.push(n)[0] == l[0]);
        lemma_views_push(l.drop_first(), n);
        assert(seq![node_view(l[0])] + node_views(l.drop_first()).push(node_view(n)) =~= (seq![
            node_view(l[0]),
        ] + node_views(l.drop_first())).push(node_view(n)));
    }
}

/// A well-formed tree keeps its span arithmetic inside `usize`.
pub proof fn lemma_wf_spans_ok(n: Node)
    requires
        wf_node(n),
    ensures
        spans_ok(n),
    decreases n,
{
    match n {
        Node::Loop(x) => {
            lemma_wf_spans_ok(*x.body);
        },
        Node::Body(b) => {
            if b.list.len() > 0 {
                assert(wf_node(b.list@.last()));
                lemma_wf_spans_ok(b.list@.last());
            }
        },
        _ => {},
    }
}

/// Every well-formed node's span end is at least its start.
pub proof fn lemma_wf_span_order(n: Node)
    requires
        wf_node(n),
    ensures
        spec_pos(n) <= spec_end(n),
    decreases n, 1int, 0int,
{
    match n {
        Node::Loop(x) => {
            lemma_wf_span_order(*x.body);
        },
        Node::Body(b) => {
            if b.list.len() > 0 {
                assert(wf_node(b.list@.last()));
                lemma_wf_span_order(b.list@.last());
                lemma_body_pos_le(b, b.list.len() - 1);
            }
        },
        _ => {},
    }
}

/// In a well-formed body, every child starts at or after the body's own
/// start offset.
pub proof fn lemma_body_pos_le(b: Body, k: int)
    requires
        wf_node(Node::Body(b)),
        0 <= k < b.list.len(),
    ensures
        b.pos.0 <= spec_pos(b.list@[k]),
    decreases Node::Body(b), 0int, k,
{
    if k > 0 {
        lemma_body_pos_le(b, k - 1);
        assert(wf_node(b.list@[k - 1]));
        lemma_wf_span_order(b.list@[k - 1]);
        assert(spec_end(b.list@[k - 1]) <= spec_pos(b.list@[k]));
    }
}

impl Node {
    /// The inclusive start offset of this node's span.
    pub fn pos(&self) -> (r: Pos)
        ensures
            r.0 == spec_pos(*self),
    {
        match self {
            Node::Program(n) => n.pos(),
            Node::IncPtr(n) => n.pos(),
            Node::DecPtr(n) => n.pos(),
            Node::IncByte(n) => n.pos(),
            Node::DecByte(n) => n.pos(),
            Node::OutputByte(n) => n.pos(),
            Node::InputByte(n) => n.pos(),
            Node::Loop(n) => n.pos(),
            Node::Body(n) => n.pos(),
            Node::BadNode(n) => n.pos(),
        }
    }

    /// The exclusive end offset of this node's span.
    pub fn end(&self) -> (r: Pos)
        requires
            spans_ok(*self),
        ensures
            r.0 == spec_end(*self),
        decreases *self,
    {
        match self {
            Node::Program(n) => n.end(),
            Node::IncPtr(n) => n.end(),
            Node::DecPtr(n) => n.end(),
            Node::IncByte(n) => n.end(),
            Node::DecByte(n) => n.end(),
            Node::OutputByte(n) => n.end(),
            Node::InputByte(n) => n.end(),
            Node::Loop(n) => n.end(),
            Node::Body(n) => n.end(),
            Node::BadNode(n) => n.end(),
        }
    }
}

impl Program {
    /// The synthetic root reports offset 0.
    pub fn pos(&self) -> (r: Pos)
        ensures
            r.0 == 0,
    {
        Pos(0)
    }

    /// The synthetic root reports offset 0.
    pub fn end(&self) -> (r: Pos)
        ensures
            r.0 == 0,
    {
        Pos(0)
    }
}

impl IncPtr {
    /// Span start.
    pub fn pos(&self) -> (r: Pos)
        ensures
            r == self.pos,
    {
        self.pos
    }

    /// Span end: one past the operator.
    pub fn end(&self) -> (r: Pos)
        requires
            self.pos.0 < usize::MAX,
        ensures
            r.0 == self.pos.0 + 1,
    {
        Pos(self.pos.0 + 1)
    }
}

impl DecPtr {
    /// Span start.
    pub fn pos(&self) -> (r: Pos)
        ensures
            r == self.pos,
    {
        self.pos
    }

    /// Span end: one past the operator.
    pub fn end(&self) -> (r: Pos)
        requires
            self.pos.0 < usize::MAX,
        ensures
            r.0 == self.pos.0 + 1,
    {
        Pos(self.pos.0 + 1)
    }
}

impl IncByte {
    /// Span start.
    pub fn pos(&self) -> (r: Pos)
        ensures
            r == self.pos,
    {
        self.pos
    }

    /// Span end: one past the operator.
    pub fn end(&self) -> (r: Pos)
        requires
            self.pos.0 < usize::MAX,
        ensures
            r.0 == self.pos.0 + 1,
    {
        Pos(self.pos.0 + 1)
    }
}

impl DecByte {
    /// Span start.
    pub fn pos(&self) -> (r: Pos)
        ensures
            r == self.pos,
    {
        self.pos
    }

    /// Span end: one past the operator.
    pub fn end(&self) -> (r: Pos)
        requires
            self.pos.0 < usize::MAX,
        ensures
            r.0 == self.pos.0 + 1,
    {
        Pos(self.pos.0 + 1)
    }
}

impl OutputByte {
    /// Span start.
    pub fn pos(&self) -> (r: Pos)
        ensures
            r == self.pos,
    {
        self.pos
    }

    /// Span end: one past the operator.
    pub fn end(&self) -> (r: Pos)
        requires
            self.pos.0 < usize::MAX,
        ensures
            r.0 == self.pos.0 + 1,
    {
        Pos(self.pos.0 + 1)
    }
}

impl InputByte {
    /// Span start.
    pub fn pos(&self) -> (r: Pos)
        ensures
            r == self.pos,
    {
        self.pos
    }

    /// Span end: one past the operator.
    pub fn end(&self) -> (r: Pos)
        requires
            self.pos.0 < usize::MAX,
        ensures
            r.0 == self.pos.0 + 1,
    {
        Pos(self.pos.0 + 1)
    }
}

impl Loop {
    /// Span start: the `[`.
    pub fn pos(&self) -> (r: Pos)
        ensures
            r == self.pos,
    {
        self.pos
    }

    /// Span end: the body's end, or one past the `[` when the body is
    /// absent (a defensive fallback that parsing never produces).
    pub fn end(&self) -> (r: Pos)
        requires
            spans_ok(Node::Loop(*self)),
        ensures
            r.0 == spec_end(Node::Loop(*self)),
        decreases *self,
    {
        if let Node::Body(_) = &*self.body {
            self.body.end()
        } else {
            Pos(self.pos.0 + 1)
        }
    }
}

impl Body {
    /// Span start: where the run begins.
    pub fn pos(&self) -> (r: Pos)
        ensures
            r == self.pos,
    {
        self.pos
    }

    /// Span end: the last child's end, or one past the start when empty.
    pub fn end(&self) -> (r: Pos)
        requires
            spans_ok(Node::Body(*self)),
        ensures
            r.0 == spec_end(Node::Body(*self)),
        decreases *self,
    {
        let n = self.list.len();
        if n > 0 {
            self.list[n - 1].end()
        } else {
            Pos(self.pos.0 + 1)
        }
    }
}

impl BadNode {
    /// Span start: where the bad run began.
    pub fn pos(&self) -> (r: Pos)
        ensures
            r == self.from,
    {
        self.from
    }

    /// Span end: where recovery stopped.
    pub fn end(&self) -> (r: Pos)
        ensures
            r == self.to,
    {
        self.to
    }
}

} // verus!
