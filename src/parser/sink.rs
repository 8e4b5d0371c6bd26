use crate::parser::event::{complete, lemma_replay_prefix, replay, tree_of, Event, GreenTree};
use rowan::{Checkpoint, GreenNode, GreenNodeBuilder, SyntaxKind as RawKind};
use vstd::prelude::*;

verus! {

#[verifier::external_type_specification]
#[verifier::external_body]
pub struct ExGreenNodeBuilder<'cache>(GreenNodeBuilder<'cache>);

#[verifier::external_type_specification]
#[verifier::external_body]
pub struct ExGreenNode(GreenNode);

#[verifier::external_type_specification]
pub struct ExRawKind(RawKind);

#[verifier::external_type_specification]
#[verifier::external_body]
pub struct ExCheckpoint(Checkpoint);

/// The longest text, in characters, that a green tree can hold: rowan
/// measures text in `u32` bytes, and a character takes at most four.
pub const MAX_TEXT: usize = 0x3fff_ffff;

/// For each node that a builder holds open, the index of its first child.
pub uninterp spec fn open_frames(b: GreenNodeBuilder) -> Seq<nat>;

/// For each node that a builder holds open, its raw kind.
pub uninterp spec fn open_kinds(b: GreenNodeBuilder) -> Seq<u16>;

/// The children that a builder holds but has not yet put in a node.
pub uninterp spec fn pending_children(b: GreenNodeBuilder) -> Seq<GreenTree>;

/// The text of all tokens that a builder holds, in order.
pub uninterp spec fn pending_text(b: GreenNodeBuilder) -> Seq<char>;

/// The number of pending children that a checkpoint was taken at.
pub uninterp spec fn checkpoint_at(c: Checkpoint) -> nat;

/// The text of a green tree: the text of its tokens in order.
pub uninterp spec fn tree_text(n: GreenNode) -> Seq<char>;

/// A green tree's kinds, children and token texts, as a value.
pub uninterp spec fn green_tree(n: GreenNode) -> GreenTree;

/// Relies on `GreenNodeBuilder::new`: a builder that holds nothing.
#[verifier::external_body]
fn new_builder() -> (b: GreenNodeBuilder<'static>)
    ensures
        open_frames(b) == Seq::<nat>::empty(),
        open_kinds(b) == Seq::<u16>::empty(),
        pending_children(b) == Seq::<GreenTree>::empty(),
        pending_text(b) == Seq::<char>::empty(),
{
    GreenNodeBuilder::new()
}

/// Relies on `GreenNodeBuilder::token`: pushes one token child. Its text
/// length must fit rowan's `u32` sizes.
#[verifier::external_body]
fn add_token(b: &mut GreenNodeBuilder<'static>, kind: u16, text: &str)
    requires
        (pending_text(*old(b)) + text@).len() <= MAX_TEXT,
    ensures
        open_frames(*final(b)) == open_frames(*old(b)),
        open_kinds(*final(b)) == open_kinds(*old(b)),
        pending_children(*final(b)) == pending_children(*old(b)).push(
            GreenTree::Token { kind, text: text@ },
        ),
        pending_text(*final(b)) == pending_text(*old(b)) + text@,
{
    b.token(RawKind(kind), text)
}

/// Relies on `GreenNodeBuilder::start_node`: opens a node whose first child
/// will be the next one pushed.
#[verifier::external_body]
fn open_node(b: &mut GreenNodeBuilder<'static>, kind: u16)
    ensures
        open_frames(*final(b)) == open_frames(*old(b)).push(pending_children(*old(b)).len()),
        open_kinds(*final(b)) == open_kinds(*old(b)).push(kind),
        pending_children(*final(b)) == pending_children(*old(b)),
        pending_text(*final(b)) == pending_text(*old(b)),
{
    b.start_node(RawKind(kind))
}

/// Relies on `GreenNodeBuilder::finish_node`: the children from the innermost
/// open node's first child on become the children of one node child, of that
/// node's kind. It panics with no node open, and when the node's text
/// overflows rowan's `u32` sizes.
#[verifier::external_body]
fn close_node(b: &mut GreenNodeBuilder<'static>)
    requires
        open_frames(*old(b)).len() > 0,
        open_frames(*old(b)).last() <= pending_children(*old(b)).len(),
        pending_text(*old(b)).len() <= MAX_TEXT,
    ensures
        open_frames(*final(b)) == open_frames(*old(b)).drop_last(),
        open_kinds(*final(b)) == open_kinds(*old(b)).drop_last(),
        pending_children(*final(b)) == pending_children(*old(b)).take(
            open_frames(*old(b)).last() as int,
        ).push(
            GreenTree::Node {
                kind: open_kinds(*old(b)).last(),
                children: pending_children(*old(b)).skip(open_frames(*old(b)).last() as int),
            },
        ),
        pending_text(*final(b)) == pending_text(*old(b)),
{
    b.finish_node()
}

/// Relies on `GreenNodeBuilder::checkpoint`: it records the number of
/// pending children.
#[verifier::external_body]
fn take_checkpoint(b: &GreenNodeBuilder<'static>) -> (c: Checkpoint)
    ensures
        checkpoint_at(c) == pending_children(*b).len(),
{
    b.checkpoint()
}

/// Relies on `GreenNodeBuilder::start_node_at`: opens a node whose first
/// child is the one at the checkpoint. It panics on a checkpoint past the
/// pending children or before the innermost open node's first child.
#[verifier::external_body]
fn open_node_at(b: &mut GreenNodeBuilder<'static>, c: Checkpoint, kind: u16)
    requires
        checkpoint_at(c) <= pending_children(*old(b)).len(),
        open_frames(*old(b)).len() > 0 ==> open_frames(*old(b)).last() <= checkpoint_at(c),
    ensures
        open_frames(*final(b)) == open_frames(*old(b)).push(checkpoint_at(c)),
        open_kinds(*final(b)) == open_kinds(*old(b)).push(kind),
        pending_children(*final(b)) == pending_children(*old(b)),
        pending_text(*final(b)) == pending_text(*old(b)),
{
    b.start_node_at(c, RawKind(kind))
}

/// Relies on `GreenNodeBuilder::finish`: hands out the single pending child,
/// which must be a node.
#[verifier::external_body]
fn finish_tree(b: GreenNodeBuilder<'static>) -> (n: GreenNode)
    requires
        open_frames(b).len() == 0,
        pending_children(b).len() == 1,
        pending_children(b)[0] is Node,
    ensures
        tree_text(n) == pending_text(b),
        green_tree(n) == pending_children(b)[0],
{
    b.finish()
}

/// Relies on `Display` of `GreenNode`: it writes the text of each child in
/// order.
#[verifier::external_body]
pub(crate) fn text_of(n: &GreenNode) -> (s: String)
    ensures
        s@ == tree_text(*n),
{
    n.to_string()
}

/// Replays a complete event log, in order and once, into the green tree that
/// it describes, whose text is the text of the log's tokens.
pub fn build_tree(events: Vec<Event>) -> (n: GreenNode)
    requires
        complete(events@),
        replay(events@)->Some_0.text.len() <= MAX_TEXT,
    ensures
        tree_text(n) == replay(events@)->Some_0.text,
        green_tree(n) == tree_of(events@),
{
    let mut b = new_builder();
    let mut marks: Vec<Checkpoint> = Vec::new();
    let mut i: usize = 0;
    while i < events.len()
        invariant
            i <= events@.len(),
            complete(events@),
            replay(events@)->Some_0.text.len() <= MAX_TEXT,
            replay(events@.take(i as int)) is Some,
            ({
                let st = replay(events@.take(i as int))->Some_0;
                &&& open_frames(b) == st.parents
                &&& open_kinds(b) == st.labels
                &&& pending_children(b) == st.children
                &&& pending_text(b) == st.text
                &&& marks@.len() == i
                &&& st.marks.len() == i
                &&& forall|k: int| 0 <= k < i ==> checkpoint_at(#[trigger] marks@[k]) == st.marks[k]
            }),
        decreases events@.len() - i,
    {
        let ghost st = replay(events@.take(i as int))->Some_0;
        proof {
            assert(events@.take(i + 1).drop_last() =~= events@.take(i as int));
            lemma_replay_prefix(events@, i + 1);
        }
        let ghost next = replay(events@.take(i + 1))->Some_0;
        let c = take_checkpoint(&b);
        marks.push(c);
        match &events[i] {
            Event::StartNode { kind } => {
                open_node(&mut b, kind.to_raw());
            },
            Event::StartNodeAt { kind, checkpoint } => {
                let at = marks[*checkpoint];
                open_node_at(&mut b, at, kind.to_raw());
            },
            Event::AddToken { kind, text } => {
                add_token(&mut b, kind.to_raw(), text.as_str());
            },
            Event::FinishNode => {
                close_node(&mut b);
            },
        }
        i = i + 1;
        proof {
            assert(next.marks =~= st.marks.push(st.children.len()));
        }
    }
    proof {
        assert(events@.take(i as int) =~= events@);
    }
    finish_tree(b)
}

} // verus!
