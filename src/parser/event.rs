use crate::lexer::{raw_of, SyntaxKind};
use vstd::prelude::*;

verus! {

/// One structural instruction of the event log.
pub enum Event {
    StartNode { kind: SyntaxKind },
    StartNodeAt { kind: SyntaxKind, checkpoint: usize },
    AddToken { kind: SyntaxKind, text: String },
    FinishNode,
}

/// A green tree as a value: a node with its raw kind and children, or a
/// token with its raw kind and text.
pub enum GreenTree {
    Node { kind: u16, children: Seq<GreenTree> },
    Token { kind: u16, text: Seq<char> },
}

/// The state of a tree builder while it replays a log.
///
/// `parents` holds, for each open node, the index of its first pending
/// child, and `labels` its raw kind; `children` are the finished subtrees
/// not yet put in a node; `text` is the text of all leaves so far; `marks[i]`
/// is the number of pending children just before event `i` was replayed.
pub struct BuildState {
    pub parents: Seq<nat>,
    pub labels: Seq<u16>,
    pub children: Seq<GreenTree>,
    pub text: Seq<char>,
    pub marks: Seq<nat>,
}

pub open spec fn empty_state() -> BuildState {
    BuildState {
        parents: Seq::empty(),
        labels: Seq::empty(),
        children: Seq::empty(),
        text: Seq::empty(),
        marks: Seq::empty(),
    }
}

/// Replays one event; `None` where the event would close a node that is not
/// open, or wrap children outside the innermost open node.
pub open spec fn step(st: BuildState, e: Event) -> Option<BuildState> {
    let n = st.children.len();
    let marks = st.marks.push(n);
    match e {
        Event::StartNode { kind } => Some(
            BuildState {
                parents: st.parents.push(n),
                labels: st.labels.push(raw_of(kind)),
                children: st.children,
                text: st.text,
                marks,
            },
        ),
        Event::StartNodeAt { kind, checkpoint } => {
            let c = checkpoint as int;
            if c < marks.len() && marks[c] <= n && (st.parents.len() == 0 || st.parents.last()
                <= marks[c]) {
                Some(
                    BuildState {
                        parents: st.parents.push(marks[c]),
                        labels: st.labels.push(raw_of(kind)),
                        children: st.children,
                        text: st.text,
                        marks,
                    },
                )
            } else {
                None
            }
        },
        Event::AddToken { kind, text } => Some(
            BuildState {
                parents: st.parents,
                labels: st.labels,
                children: st.children.push(GreenTree::Token { kind: raw_of(kind), text: text@ }),
                text: st.text + text@,
                marks,
            },
        ),
        Event::FinishNode => {
            if st.parents.len() > 0 && st.parents.last() <= n && st.labels.len() > 0 {
                let first = st.parents.last() as int;
                Some(
                    BuildState {
                        parents: st.parents.drop_last(),
                        labels: st.labels.drop_last(),
                        children: st.children.take(first).push(
                            GreenTree::Node {
                                kind: st.labels.last(),
                                children: st.children.skip(first),
                            },
                        ),
                        text: st.text,
                        marks,
                    },
                )
            } else {
                None
            }
        },
    }
}

/// The builder state after replaying a whole log, if every step is valid.
pub open spec fn replay(es: Seq<Event>) -> Option<BuildState>
    decreases es.len(),
{
    if es.len() == 0 {
        Some(empty_state())
    } else {
        match replay(es.drop_last()) {
            Some(st) => step(st, es.last()),
            None => None,
        }
    }
}

/// A log that replays to exactly one finished node, with nothing left open.
pub open spec fn complete(es: Seq<Event>) -> bool {
    &&& replay(es) is Some
    &&& replay(es)->Some_0.parents.len() == 0
    &&& replay(es)->Some_0.children.len() == 1
    &&& replay(es)->Some_0.children[0] is Node
}

/// The tree that a complete log describes.
pub open spec fn tree_of(es: Seq<Event>) -> GreenTree {
    replay(es)->Some_0.children[0]
}

pub open spec fn is_open(e: Event) -> bool {
    e is StartNode || e is StartNodeAt
}

/// Number of node-opening events.
pub open spec fn opens(es: Seq<Event>) -> nat
    decreases es.len(),
{
    if es.len() == 0 {
        0
    } else {
        opens(es.drop_last()) + if is_open(es.last()) {
            1nat
        } else {
            0nat
        }
    }
}

/// Number of `FinishNode` events.
pub open spec fn finishes(es: Seq<Event>) -> nat
    decreases es.len(),
{
    if es.len() == 0 {
        0
    } else {
        finishes(es.drop_last()) + if es.last() is FinishNode {
            1nat
        } else {
            0nat
        }
    }
}

/// Open frames are ordered and lie within the pending children.
pub open spec fn frames_ok(st: BuildState) -> bool {
    &&& st.labels.len() == st.parents.len()
    &&& forall|j: int, k: int|
        0 <= j <= k < st.parents.len() ==> #[trigger] st.parents[j] <= #[trigger] st.parents[k]
    &&& forall|k: int| 0 <= k < st.parents.len() ==> #[trigger] st.parents[k] <= st.children.len()
}

/// `b` was reached from `a` by replaying at least one more event.
pub open spec fn extends(a: BuildState, b: BuildState) -> bool {
    &&& b.marks.len() > a.marks.len()
    &&& forall|k: int| 0 <= k < a.marks.len() ==> #[trigger] b.marks[k] == a.marks[k]
    &&& b.marks[a.marks.len() as int] == a.children.len()
    &&& a.text.is_prefix_of(b.text)
}

/// `b` is `a`, or was reached from `a` by events that left `a`'s open nodes
/// open and closed every node they opened.
pub open spec fn grows(a: BuildState, b: BuildState) -> bool {
    ||| b == a
    ||| {
        &&& extends(a, b)
        &&& b.parents == a.parents
        &&& b.children.len() >= a.children.len()
    }
}

pub proof fn lemma_replay_push(es: Seq<Event>, e: Event)
    ensures
        replay(es.push(e)) == match replay(es) {
            Some(st) => step(st, e),
            None => None,
        },
{
    assert(es.push(e).drop_last() =~= es);
}

pub proof fn lemma_step_frames(st: BuildState, e: Event)
    requires
        frames_ok(st),
        step(st, e) is Some,
    ensures
        frames_ok(step(st, e)->Some_0),
        step(st, e)->Some_0.marks == st.marks.push(st.children.len()),
        extends(st, step(st, e)->Some_0),
{
    let s2 = step(st, e)->Some_0;
    assert(st.text.is_prefix_of(s2.text)) by {
        if let Event::AddToken { text, .. } = e {
            assert((st.text + text@).take(st.text.len() as int) =~= st.text);
        } else {
            assert(s2.text.take(st.text.len() as int) =~= st.text);
        }
    }
}

pub proof fn lemma_extends_trans(a: BuildState, b: BuildState, c: BuildState)
    requires
        extends(a, b),
        extends(b, c),
    ensures
        extends(a, c),
{
    assert(c.marks[a.marks.len() as int] == b.marks[a.marks.len() as int]);
    assert(c.text.take(a.text.len() as int) =~= c.text.take(b.text.len() as int).take(
        a.text.len() as int,
    ));
}

pub proof fn lemma_grows_extends(a: BuildState, b: BuildState, c: BuildState)
    requires
        grows(a, b) && extends(b, c) || extends(a, b) && grows(b, c),
    ensures
        extends(a, c),
{
    if b != a && c != b {
        lemma_extends_trans(a, b, c);
    }
}

pub proof fn lemma_grows_trans(a: BuildState, b: BuildState, c: BuildState)
    requires
        grows(a, b),
        grows(b, c),
    ensures
        grows(a, c),
{
    if b != a && c != b {
        lemma_extends_trans(a, b, c);
    }
}

/// Replaying a prefix of a valid log is valid, and its text is a prefix.
pub proof fn lemma_replay_prefix(es: Seq<Event>, i: int)
    requires
        replay(es) is Some,
        0 <= i <= es.len(),
    ensures
        replay(es.take(i)) is Some,
        replay(es.take(i))->Some_0.text.len() <= replay(es)->Some_0.text.len(),
        replay(es.take(i))->Some_0.marks.len() == i,
    decreases es.len(),
{
    if i == es.len() {
        assert(es.take(i) =~= es);
        lemma_replay_marks(es);
    } else {
        let d = es.drop_last();
        assert(d.take(i) =~= es.take(i));
        lemma_replay_prefix(d, i);
        let st = replay(d)->Some_0;
        match es.last() {
            Event::AddToken { text, .. } => {},
            _ => {},
        }
    }
}

pub proof fn lemma_replay_marks(es: Seq<Event>)
    requires
        replay(es) is Some,
    ensures
        replay(es)->Some_0.marks.len() == es.len(),
    decreases es.len(),
{
    if es.len() > 0 {
        lemma_replay_marks(es.drop_last());
    }
}

/// Replaying a log keeps one open frame for each node-opening event that no
/// `FinishNode` has closed yet.
pub proof fn lemma_open_frames(es: Seq<Event>)
    requires
        replay(es) is Some,
    ensures
        replay(es)->Some_0.parents.len() + finishes(es) == opens(es),
    decreases es.len(),
{
    if es.len() > 0 {
        lemma_open_frames(es.drop_last());
    }
}

/// A log that replays completely opens exactly as many nodes as it finishes,
/// and never finishes a node that is not open.
pub proof fn lemma_balanced(es: Seq<Event>)
    requires
        complete(es),
    ensures
        opens(es) == finishes(es),
        forall|i: int| 0 <= i <= es.len() ==> #[trigger] replay(es.take(i)) is Some,
{
    lemma_open_frames(es);
    assert forall|i: int| 0 <= i <= es.len() implies #[trigger] replay(es.take(i)) is Some by {
        lemma_replay_prefix(es, i);
    }
}

} // verus!
