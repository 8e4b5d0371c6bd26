use crate::lexer::{joined, lex, tokenizes, trivia, Lexeme, SyntaxKind};
use crate::parser::event::{
    complete, extends, frames_ok, grows, lemma_balanced, lemma_extends_trans, lemma_grows_extends, lemma_grows_trans,
    lemma_replay_push, lemma_step_frames, opens, finishes, replay, step, tree_of, BuildState, Event, GreenTree,
};
use crate::parser::sink::{build_tree, green_tree, text_of, tree_text, MAX_TEXT};
use crate::syntax::FrostLanguage;
use rowan::GreenNode;
use vstd::prelude::*;

pub mod event;
pub mod sink;

verus! {

/// Index of the first lexeme at or after `i` that is not trivia.
pub open spec fn next_significant(ls: Seq<Lexeme>, i: int) -> int
    decreases ls.len() - i,
{
    if 0 <= i < ls.len() && trivia(ls[i].kind) {
        next_significant(ls, i + 1)
    } else {
        i
    }
}

proof fn lemma_next_significant(ls: Seq<Lexeme>, i: int)
    requires
        0 <= i <= ls.len(),
    ensures
        i <= next_significant(ls, i) <= ls.len(),
        next_significant(ls, i) < ls.len() ==> !trivia(ls[next_significant(ls, i)].kind),
    decreases ls.len() - i,
{
    if i < ls.len() && trivia(ls[i].kind) {
        lemma_next_significant(ls, i + 1);
    }
}

/// Binding powers of a binary operator, left then right; the right one is
/// one more than the left, which makes every operator left-associative.
pub open spec fn infix_power(kind: SyntaxKind) -> Option<(u8, u8)> {
    match kind {
        SyntaxKind::Plus | SyntaxKind::Minus => Some((1, 2)),
        SyntaxKind::Star | SyntaxKind::Slash => Some((3, 4)),
        _ => None,
    }
}

/// Binding power of the operand of a unary minus: tighter than any binary
/// operator.
pub const PREFIX_POWER: u8 = 5;

fn binding_power(kind: SyntaxKind) -> (r: Option<(u8, u8)>)
    ensures
        r == infix_power(kind),
{
    match kind {
        SyntaxKind::Plus | SyntaxKind::Minus => Some((1, 2)),
        SyntaxKind::Star | SyntaxKind::Slash => Some((3, 4)),
        _ => None,
    }
}

/// The event that adds lexeme `k` to the tree as a token.
pub open spec fn token_event(ls: Seq<Lexeme>, k: int) -> Event {
    Event::AddToken { kind: ls[k].kind, text: ls[k].text }
}

/// Token events for the lexemes from `i` up to `j`.
pub open spec fn tokens_from(ls: Seq<Lexeme>, i: int, j: int) -> Seq<Event>
    decreases j - i,
{
    if i < j {
        tokens_from(ls, i, j - 1).push(token_event(ls, j - 1))
    } else {
        Seq::empty()
    }
}

/// The events of one expression that starts at lexeme `i`, whose operators
/// bind at least as strongly as `min_bp`, when `base` events precede it;
/// with the position after it. Leading trivia comes first, then the
/// checkpoint that binary nodes over this expression start at.
pub open spec fn expr_events(ls: Seq<Lexeme>, i: int, min_bp: u8, base: int) -> (Seq<Event>, int)
    decreases ls.len() - i, 2int,
{
    let j = next_significant(ls, i);
    if 0 <= i <= j <= ls.len() {
        let pre = tokens_from(ls, i, j);
        let cp = base + pre.len();
        let (operand, k) = primary_events(ls, j, cp);
        if j <= k <= ls.len() {
            let (ops, m) = operator_events(ls, k, min_bp, cp, cp + operand.len());
            (pre + operand + ops, m)
        } else {
            (pre + operand, k)
        }
    } else {
        (Seq::empty(), i)
    }
}

/// The events of one operand at lexeme `j`, when `base` events precede it.
pub open spec fn primary_events(ls: Seq<Lexeme>, j: int, base: int) -> (Seq<Event>, int)
    decreases ls.len() - j, 1int,
{
    if j < 0 || j >= ls.len() {
        (seq![Event::StartNode { kind: SyntaxKind::Error }, Event::FinishNode], j)
    } else {
        match ls[j].kind {
            SyntaxKind::Number | SyntaxKind::Ident => (seq![token_event(ls, j)], j + 1),
            SyntaxKind::Minus => {
                let (inner, k) = expr_events(ls, j + 1, PREFIX_POWER, base + 2);
                (
                    seq![Event::StartNode { kind: SyntaxKind::PrefixExpr }, token_event(ls, j)]
                        + inner + seq![Event::FinishNode],
                    k,
                )
            },
            SyntaxKind::LParen => {
                let (inner, k) = expr_events(ls, j + 1, 0, base + 1);
                let n = next_significant(ls, k);
                if 0 <= k <= n < ls.len() && ls[n].kind == SyntaxKind::RParen {
                    (
                        seq![token_event(ls, j)] + inner + tokens_from(ls, k, n) + seq![
                            token_event(ls, n),
                        ],
                        n + 1,
                    )
                } else {
                    (seq![token_event(ls, j)] + inner, k)
                }
            },
            _ => (
                seq![
                    Event::StartNode { kind: SyntaxKind::Error },
                    token_event(ls, j),
                    Event::FinishNode,
                ],
                j + 1,
            ),
        }
    }
}

/// The events of the binary operators that follow an operand ending at
/// lexeme `k`: each operator binding at least as strongly as `min_bp` takes
/// its right operand, then wraps everything since checkpoint `cp` in a
/// binary node.
pub open spec fn operator_events(
    ls: Seq<Lexeme>,
    k: int,
    min_bp: u8,
    cp: int,
    base: int,
) -> (Seq<Event>, int)
    decreases ls.len() - k, 0int,
{
    let n = next_significant(ls, k);
    if 0 <= k <= n < ls.len() && infix_power(ls[n].kind) is Some && infix_power(
        ls[n].kind,
    )->Some_0.0 >= min_bp {
        let right = infix_power(ls[n].kind)->Some_0.1;
        let lead = tokens_from(ls, k, n).push(token_event(ls, n));
        let (rhs, m) = expr_events(ls, n + 1, right, base + lead.len());
        let wrap = lead + rhs + seq![
            Event::StartNodeAt { kind: SyntaxKind::BinaryExpr, checkpoint: cp as usize },
            Event::FinishNode,
        ];
        if k < m <= ls.len() {
            let (rest, e) = operator_events(ls, m, min_bp, cp, base + wrap.len());
            (wrap + rest, e)
        } else {
            (wrap, m)
        }
    } else {
        (Seq::empty(), k)
    }
}

/// The events of the expressions, and trivia between them, from lexeme `i`
/// to the end, when `base` events precede them.
pub open spec fn root_events(ls: Seq<Lexeme>, i: int, base: int) -> Seq<Event>
    decreases ls.len() - i,
{
    let j = next_significant(ls, i);
    if 0 <= i <= j < ls.len() {
        let pre = tokens_from(ls, i, j);
        let (e, k) = expr_events(ls, j, 0, base + pre.len());
        if j < k <= ls.len() {
            pre + e + root_events(ls, k, base + pre.len() + e.len())
        } else {
            pre + e
        }
    } else {
        tokens_from(ls, i, j)
    }
}

/// The event log of a whole parse: one `Root` node around everything.
pub open spec fn parse_events(ls: Seq<Lexeme>) -> Seq<Event> {
    seq![Event::StartNode { kind: SyntaxKind::Root }] + root_events(ls, 0, 1) + seq![
        Event::FinishNode,
    ]
}

/// Reads lexemes front to back and records the tree's shape as events.
pub struct Parser<'l> {
    cursor: usize,
    events: Vec<Event>,
    lexemes: &'l [Lexeme],
}

impl<'l> Parser<'l> {
    pub closed spec fn input(&self) -> Seq<Lexeme> {
        self.lexemes@
    }

    pub closed spec fn position(&self) -> int {
        self.cursor as int
    }

    pub closed spec fn log(&self) -> Seq<Event> {
        self.events@
    }

    pub closed spec fn state(&self) -> BuildState {
        replay(self.events@)->Some_0
    }

    /// The log replays, and its tokens are exactly the lexemes consumed.
    pub closed spec fn wf(&self) -> bool {
        &&& self.cursor <= self.lexemes@.len()
        &&& replay(self.events@) is Some
        &&& frames_ok(self.state())
        &&& self.state().marks.len() == self.events@.len()
        &&& self.state().text == joined(self.lexemes@.take(self.cursor as int))
    }

    pub fn new(lexemes: &'l [Lexeme]) -> (r: Parser<'l>)
        ensures
            r.wf(),
            r.input() == lexemes@,
            r.position() == 0,
            r.log() == Seq::<Event>::empty(),
    {
        let r = Parser { cursor: 0, events: Vec::new(), lexemes };
        assert(r.lexemes@.take(0) =~= Seq::<Lexeme>::empty());
        r
    }

    /// Parses the whole input below one `Root` node.
    pub fn parse(self) -> (r: Vec<Event>)
        requires
            self.wf(),
            self.position() == 0,
            self.log() == Seq::<Event>::empty(),
        ensures
            r@ == parse_events(self.input()),
            complete(r@),
            opens(r@) == finishes(r@),
            replay(r@)->Some_0.text == joined(self.input()),
    {
        let ghost input = self.input();
        let mut p = self;
        p.start_node(SyntaxKind::Root);
        assert(p.state().parents == seq![0nat]);
        let ghost opened = p.log();
        let ghost all = root_events(input, 0, 1);
        assert(opened + all =~= p.log() + root_events(input, p.position(), p.log().len() as int));
        loop
            invariant
                p.wf(),
                p.input() == input,
                p.state().parents == seq![0nat],
                opened + all == p.log() + root_events(input, p.position(), p.log().len() as int),
            ensures
                p.wf(),
                p.input() == input,
                p.state().parents == seq![0nat],
                p.cursor == p.lexemes@.len(),
                p.log() == opened + all,
            decreases p.input().len() - p.position(),
        {
            let ghost pos0 = p.position();
            let ghost ev = p.log();
            p.skip_trivia();
            proof {
                lemma_next_significant(p.input(), pos0);
            }
            if p.cursor == p.lexemes.len() {
                assert(p.log() =~= opened + all);
                break;
            }
            let ghost ev1 = p.log();
            expr(&mut p);
            proof {
                let rest = root_events(input, p.position(), p.log().len() as int);
                assert(ev + (tokens_from(input, pos0, next_significant(input, pos0)) + expr_events(
                    input,
                    next_significant(input, pos0),
                    0,
                    ev1.len() as int,
                ).0 + rest) =~= p.log() + rest);
            }
        }
        p.finish_node();
        proof {
            assert(p.state().children.len() == 1);
            assert(p.lexemes@.take(p.cursor as int) =~= p.lexemes@);
            lemma_balanced(p.events@);
        }
        p.events
    }

    fn push_event(&mut self, e: Event)
        ensures
            final(self).events@ == old(self).events@.push(e),
            final(self).cursor == old(self).cursor,
            final(self).lexemes == old(self).lexemes,
            replay(final(self).events@) == match replay(old(self).events@) {
                Some(st) => step(st, e),
                None => None,
            },
    {
        proof {
            lemma_replay_push(self.events@, e);
        }
        self.events.push(e);
    }

    fn start_node(&mut self, kind: SyntaxKind)
        requires
            old(self).wf(),
        ensures
            final(self).wf(),
            final(self).cursor == old(self).cursor,
            final(self).lexemes == old(self).lexemes,
            final(self).state() == step(old(self).state(), Event::StartNode { kind })->Some_0,
            final(self).events@ == old(self).events@.push(Event::StartNode { kind }),
    {
        proof {
            lemma_step_frames(self.state(), Event::StartNode { kind });
        }
        self.push_event(Event::StartNode { kind });
    }

    fn start_node_at(&mut self, checkpoint: usize, kind: SyntaxKind)
        requires
            old(self).wf(),
            step(old(self).state(), Event::StartNodeAt { kind, checkpoint }) is Some,
        ensures
            final(self).wf(),
            final(self).cursor == old(self).cursor,
            final(self).lexemes == old(self).lexemes,
            final(self).state() == step(old(self).state(), Event::StartNodeAt { kind, checkpoint })->Some_0,
            final(self).events@ == old(self).events@.push(Event::StartNodeAt { kind, checkpoint }),
    {
        proof {
            lemma_step_frames(self.state(), Event::StartNodeAt { kind, checkpoint });
        }
        self.push_event(Event::StartNodeAt { kind, checkpoint });
    }

    fn finish_node(&mut self)
        requires
            old(self).wf(),
            old(self).state().parents.len() > 0,
        ensures
            final(self).wf(),
            final(self).cursor == old(self).cursor,
            final(self).lexemes == old(self).lexemes,
            final(self).state() == step(old(self).state(), Event::FinishNode)->Some_0,
            final(self).events@ == old(self).events@.push(Event::FinishNode),
    {
        proof {
            let st = self.state();
            assert(st.parents[st.parents.len() - 1] <= st.children.len());
            lemma_step_frames(st, Event::FinishNode);
        }
        self.push_event(Event::FinishNode);
    }

    /// Adds the next lexeme, trivia or not, to the log as a token.
    fn bump(&mut self)
        requires
            old(self).wf(),
            old(self).cursor < old(self).lexemes@.len(),
        ensures
            final(self).wf(),
            final(self).cursor == old(self).cursor + 1,
            final(self).lexemes == old(self).lexemes,
            extends(old(self).state(), final(self).state()),
            final(self).state().parents == old(self).state().parents,
            final(self).state().children.len() == old(self).state().children.len() + 1,
            final(self).events@ == old(self).events@.push(
                token_event(old(self).lexemes@, old(self).cursor as int),
            ),
    {
        let kind = self.lexemes[self.cursor].kind;
        let text = self.lexemes[self.cursor].text.clone();
        let ghost i = self.cursor as int;
        let ghost e = Event::AddToken { kind, text };
        proof {
            lemma_step_frames(self.state(), e);
        }
        self.push_event(Event::AddToken { kind, text });
        self.cursor = self.cursor + 1;
        proof {
            assert(self.lexemes@.take(i + 1).drop_last() =~= self.lexemes@.take(i));
        }
    }

    /// Kind of the next lexeme that is not trivia, without consuming it.
    fn peek(&self) -> (r: Option<SyntaxKind>)
        requires
            self.wf(),
        ensures
            ({
                let j = next_significant(self.input(), self.position());
                r == if j < self.input().len() {
                    Some(self.input()[j].kind)
                } else {
                    None::<SyntaxKind>
                }
            }),
    {
        let mut j = self.cursor;
        while j < self.lexemes.len() && self.lexemes[j].kind.is_trivia()
            invariant
                self.cursor <= j <= self.lexemes@.len(),
                next_significant(self.lexemes@, self.cursor as int) == next_significant(
                    self.lexemes@,
                    j as int,
                ),
            decreases self.lexemes@.len() - j,
        {
            j = j + 1;
        }
        if j < self.lexemes.len() {
            Some(self.lexemes[j].kind)
        } else {
            None
        }
    }

    /// Adds the trivia in front of the next significant lexeme to the log.
    fn skip_trivia(&mut self)
        requires
            old(self).wf(),
        ensures
            final(self).wf(),
            final(self).lexemes == old(self).lexemes,
            final(self).position() == next_significant(old(self).input(), old(self).position()),
            grows(old(self).state(), final(self).state()),
            final(self).events@ == old(self).events@ + tokens_from(
                old(self).input(),
                old(self).position(),
                final(self).position(),
            ),
    {
        assert(old(self).events@ =~= old(self).events@ + tokens_from(
            self.lexemes@,
            self.cursor as int,
            self.cursor as int,
        ));
        while self.cursor < self.lexemes.len() && self.lexemes[self.cursor].kind.is_trivia()
            invariant
                self.wf(),
                self.lexemes == old(self).lexemes,
                next_significant(self.lexemes@, old(self).cursor as int) == next_significant(
                    self.lexemes@,
                    self.cursor as int,
                ),
                grows(old(self).state(), self.state()),
                old(self).cursor <= self.cursor,
                self.events@ == old(self).events@ + tokens_from(
                    self.lexemes@,
                    old(self).cursor as int,
                    self.cursor as int,
                ),
            decreases self.lexemes@.len() - self.cursor,
        {
            let ghost before = self.state();
            let ghost ev = self.events@;
            self.bump();
            proof {
                lemma_grows_extends(old(self).state(), before, self.state());
                assert(self.events@ =~= old(self).events@ + tokens_from(
                    self.lexemes@,
                    old(self).cursor as int,
                    self.cursor as int,
                ));
            }
        }
    }

    fn checkpoint(&self) -> (r: usize)
        ensures
            r == self.events@.len(),
    {
        self.events.len()
    }
}

/// What one grammar rule promises: it only adds to the log, leaves every
/// open node open, and closes every node it opens.
pub open spec fn rule_post(before: Parser, after: Parser) -> bool {
    &&& after.wf()
    &&& after.input() == before.input()
    &&& after.position() >= before.position()
    &&& before.position() < before.input().len() ==> after.position() > before.position()
    &&& grows(before.state(), after.state())
}

/// Parses one expression whose operators all bind at least as strongly as
/// `min_bp`.
#[verifier::rlimit(80)]
fn expr_bp(p: &mut Parser, min_bp: u8)
    requires
        old(p).wf(),
        old(p).state().parents.len() > 0,
    ensures
        rule_post(*old(p), *final(p)),
        ({
            let r = expr_events(old(p).input(), old(p).position(), min_bp, old(p).log().len() as int);
            final(p).log() == old(p).log() + r.0 && final(p).position() == r.1
        }),
    decreases old(p).input().len() - old(p).position(), 1int,
{
    p.skip_trivia();
    proof {
        lemma_next_significant(p.input(), old(p).position());
    }
    let ghost s0 = p.state();
    let cp = p.checkpoint();
    let ghost j = p.position();
    primary(p);
    let ghost ls = p.input();
    let ghost e_prim = p.log();
    let ghost k = p.position();
    let ghost total = operator_events(ls, k, min_bp, cp as int, e_prim.len() as int);
    proof {
        assert(e_prim + total.0 =~= p.log() + operator_events(ls, k, min_bp, cp as int, p.log().len() as int).0);
    }
    loop
        invariant
            p.wf(),
            p.input() == old(p).input(),
            p.position() > old(p).position() || (p.position() == old(p).position()
                && old(p).position() == p.input().len()),
            grows(old(p).state(), s0),
            grows(s0, p.state()),
            cp == s0.marks.len(),
            frames_ok(s0),
            s0.parents.len() > 0,
            ls == p.input(),
            k <= p.position() <= ls.len(),
            e_prim + total.0 == p.log() + operator_events(ls, p.position(), min_bp, cp as int, p.log().len() as int).0,
            total.1 == operator_events(ls, p.position(), min_bp, cp as int, p.log().len() as int).1,
        ensures
            p.wf(),
            p.input() == old(p).input(),
            grows(old(p).state(), s0),
            grows(s0, p.state()),
            p.position() > old(p).position() || (p.position() == old(p).position()
                && old(p).position() == p.input().len()),
            p.log() == e_prim + total.0,
            p.position() == total.1,
        decreases p.input().len() - p.position(),
    {
        let ghost pos = p.position();
        let ghost ev = p.log();
        proof {
            lemma_next_significant(ls, pos);
        }
        let ghost stop = operator_events(ls, pos, min_bp, cp as int, ev.len() as int);
        let op = match p.peek() {
            Some(k) => k,
            None => {
                assert(p.log() + stop.0 =~= p.log());
                break;
            },
        };
        let (left, right) = match binding_power(op) {
            Some(bp) => bp,
            None => {
                assert(p.log() + stop.0 =~= p.log());
                break;
            },
        };
        if left < min_bp {
            assert(p.log() + stop.0 =~= p.log());
            break;
        }
        let ghost s1 = p.state();
        let ghost pos1 = p.position();
        p.skip_trivia();
        proof {
            lemma_next_significant(p.input(), pos1);
        }
        let ghost s2 = p.state();
        p.bump();
        proof {
            lemma_grows_extends(s1, s2, p.state());
        }
        let ghost s3 = p.state();
        expr_bp(p, right);
        let ghost s4 = p.state();
        proof {
            lemma_grows_extends(s0, s1, s3);
            lemma_grows_extends(s0, s3, s4);
            assert(s4.marks.push(s4.children.len())[cp as int] == s0.children.len());
            assert(s0.parents[s0.parents.len() - 1] <= s0.children.len());
        }
        p.start_node_at(cp, SyntaxKind::BinaryExpr);
        let ghost s5 = p.state();
        p.finish_node();
        proof {
            let s6 = p.state();
            let n = next_significant(ls, pos);
            let lead = tokens_from(ls, pos, n).push(token_event(ls, n));
            let rhs = expr_events(ls, n + 1, right, (ev.len() + lead.len()) as int);
            let wrap = lead + rhs.0 + seq![
                Event::StartNodeAt { kind: SyntaxKind::BinaryExpr, checkpoint: cp },
                Event::FinishNode,
            ];
            assert(p.log() =~= ev + wrap);
            let rest = operator_events(ls, p.position(), min_bp, cp as int, p.log().len() as int);
            assert(ev + (wrap + rest.0) =~= p.log() + rest.0);
            lemma_step_frames(s4, Event::StartNodeAt { kind: SyntaxKind::BinaryExpr, checkpoint: cp });
            lemma_step_frames(s5, Event::FinishNode);
            lemma_grows_extends(s0, s4, s5);
            lemma_extends_trans(s0, s5, s6);
            assert(s6.parents =~= s0.parents);
        }
    }
    proof {
        lemma_grows_trans(old(p).state(), s0, p.state());
        assert(p.log() =~= e_prim + total.0);
        assert(p.log() =~= old(p).log() + expr_events(ls, old(p).position(), min_bp, old(p).log().len() as int).0);
    }
}

/// Parses one operand: a literal, a unary minus, a parenthesised
/// expression, or else an error node around one lexeme.
#[verifier::rlimit(80)]
fn primary(p: &mut Parser)
    requires
        old(p).wf(),
        old(p).state().parents.len() > 0,
    ensures
        rule_post(*old(p), *final(p)),
        final(p).state() != old(p).state(),
        ({
            let r = primary_events(old(p).input(), old(p).position(), old(p).log().len() as int);
            final(p).log() == old(p).log() + r.0 && final(p).position() == r.1
        }),
    decreases old(p).input().len() - old(p).position(), 0int,
{
    let ghost s0 = p.state();
    if p.cursor == p.lexemes.len() {
        p.start_node(SyntaxKind::Error);
        let ghost s1 = p.state();
        p.finish_node();
        proof {
            lemma_step_frames(s0, Event::StartNode { kind: SyntaxKind::Error });
            lemma_step_frames(s1, Event::FinishNode);
            lemma_extends_trans(s0, s1, p.state());
            assert(p.state().parents =~= s0.parents);
        }
        return;
    }
    let kind = p.lexemes[p.cursor].kind;
    match kind {
        SyntaxKind::Number | SyntaxKind::Ident => {
            p.bump();
        },
        SyntaxKind::Minus => {
            p.start_node(SyntaxKind::PrefixExpr);
            let ghost s1 = p.state();
            p.bump();
            let ghost s2 = p.state();
            expr_bp(p, PREFIX_POWER);
            let ghost s3 = p.state();
            p.finish_node();
            proof {
                lemma_step_frames(s0, Event::StartNode { kind: SyntaxKind::PrefixExpr });
                lemma_step_frames(s3, Event::FinishNode);
                lemma_grows_extends(s1, s2, s3);
                lemma_extends_trans(s0, s1, s3);
                lemma_extends_trans(s0, s3, p.state());
                assert(p.state().parents =~= s0.parents);
            }
        },
        SyntaxKind::LParen => {
            p.bump();
            let ghost s1 = p.state();
            expr_bp(p, 0);
            let ghost s2 = p.state();
            proof {
                lemma_grows_extends(s0, s1, s2);
            }
            if p.peek() == Some(SyntaxKind::RParen) {
                let ghost pos2 = p.position();
                p.skip_trivia();
                let ghost s3 = p.state();
                proof {
                    lemma_next_significant(p.input(), pos2);
                    lemma_grows_extends(s0, s2, s3);
                }
                p.bump();
                proof {
                    lemma_extends_trans(s0, s3, p.state());
                }
            }
        },
        _ => {
            p.start_node(SyntaxKind::Error);
            let ghost s1 = p.state();
            p.bump();
            let ghost s2 = p.state();
            p.finish_node();
            proof {
                lemma_step_frames(s0, Event::StartNode { kind: SyntaxKind::Error });
                lemma_step_frames(s2, Event::FinishNode);
                lemma_extends_trans(s0, s1, s2);
                lemma_extends_trans(s0, s2, p.state());
                assert(p.state().parents =~= s0.parents);
            }
        },
    }
}

/// Parses one expression.
fn expr(p: &mut Parser)
    requires
        old(p).wf(),
        old(p).state().parents.len() > 0,
    ensures
        rule_post(*old(p), *final(p)),
        ({
            let r = expr_events(old(p).input(), old(p).position(), 0, old(p).log().len() as int);
            final(p).log() == old(p).log() + r.0 && final(p).position() == r.1
        }),
{
    expr_bp(p, 0)
}

/// A finished parse: an immutable, structurally shared green tree.
pub struct Parse {
    green_node: GreenNode,
}

impl Parse {
    /// The tree's kinds, children and token texts.
    pub closed spec fn tree(&self) -> GreenTree {
        green_tree(self.green_node)
    }

    /// The text of the tree's tokens, in order.
    pub closed spec fn text_view(&self) -> Seq<char> {
        tree_text(self.green_node)
    }

    /// The text of the tree's tokens, in order.
    pub fn text(&self) -> (r: String)
        ensures
            r@ == self.text_view(),
    {
        text_of(&self.green_node)
    }

    /// Relies on rowan's alternate `Debug` of `SyntaxNode`: one line per node
    /// or token, indented by depth, with its kind and byte range, and a
    /// token's text.
    #[verifier::external_body]
    pub fn debug_tree(&self) -> String {
        let node = rowan::SyntaxNode::<FrostLanguage>::new_root(self.green_node.clone());
        format!("{:#?}", node)
    }
}

/// Parses `input` into a lossless tree: its tokens, in order, spell `input`,
/// and its shape is the one that the event log of the input's lexemes gives.
pub fn parse(input: &str) -> (r: Parse)
    requires
        input@.len() <= MAX_TEXT,
    ensures
        r.text_view() == input@,
        exists|ls: Seq<Lexeme>| #[trigger]
            tokenizes(input@, ls) && r.tree() == tree_of(parse_events(ls)),
{
    let lexemes = lex(input);
    let parser = Parser::new(lexemes.as_slice());
    let events = parser.parse();
    let green_node = build_tree(events);
    let r = Parse { green_node };
    assert(tokenizes(input@, lexemes@) && r.tree() == tree_of(parse_events(lexemes@)));
    r
}

} // verus!
