use vstd::prelude::*;
use vstd::string::StrSliceExecFns;

verus! {

/// Every kind of token and node in the syntax tree.
#[derive(Clone, Copy, Debug, PartialEq, Eq, PartialOrd, Ord, Hash, Structural)]
pub enum SyntaxKind {
    BinaryExpr,
    Comment,
    Equals,
    Error,
    FnKw,
    Ident,
    LBrace,
    LParen,
    LetKw,
    Minus,
    Number,
    Plus,
    PrefixExpr,
    RBrace,
    RParen,
    Root,
    Slash,
    Star,
    Whitespace,
}

/// The raw tag of each kind: its position in the declaration.
pub open spec fn raw_of(kind: SyntaxKind) -> u16 {
    match kind {
        SyntaxKind::BinaryExpr => 0,
        SyntaxKind::Comment => 1,
        SyntaxKind::Equals => 2,
        SyntaxKind::Error => 3,
        SyntaxKind::FnKw => 4,
        SyntaxKind::Ident => 5,
        SyntaxKind::LBrace => 6,
        SyntaxKind::LParen => 7,
        SyntaxKind::LetKw => 8,
        SyntaxKind::Minus => 9,
        SyntaxKind::Number => 10,
        SyntaxKind::Plus => 11,
        SyntaxKind::PrefixExpr => 12,
        SyntaxKind::RBrace => 13,
        SyntaxKind::RParen => 14,
        SyntaxKind::Root => 15,
        SyntaxKind::Slash => 16,
        SyntaxKind::Star => 17,
        SyntaxKind::Whitespace => 18,
    }
}

/// Whitespace and comments carry no grammatical meaning.
pub open spec fn trivia(kind: SyntaxKind) -> bool {
    kind == SyntaxKind::Whitespace || kind == SyntaxKind::Comment
}

impl SyntaxKind {
    pub fn is_trivia(self) -> (r: bool)
        ensures
            r == trivia(self),
    {
        matches!(self, SyntaxKind::Whitespace | SyntaxKind::Comment)
    }

    pub fn to_raw(self) -> (r: u16)
        ensures
            r == raw_of(self),
    {
        match self {
            SyntaxKind::BinaryExpr => 0,
            SyntaxKind::Comment => 1,
            SyntaxKind::Equals => 2,
            SyntaxKind::Error => 3,
            SyntaxKind::FnKw => 4,
            SyntaxKind::Ident => 5,
            SyntaxKind::LBrace => 6,
            SyntaxKind::LParen => 7,
            SyntaxKind::LetKw => 8,
            SyntaxKind::Minus => 9,
            SyntaxKind::Number => 10,
            SyntaxKind::Plus => 11,
            SyntaxKind::PrefixExpr => 12,
            SyntaxKind::RBrace => 13,
            SyntaxKind::RParen => 14,
            SyntaxKind::Root => 15,
            SyntaxKind::Slash => 16,
            SyntaxKind::Star => 17,
            SyntaxKind::Whitespace => 18,
        }
    }

    pub fn from_raw(raw: u16) -> (r: Option<SyntaxKind>)
        ensures
            match r {
                Some(k) => raw_of(k) == raw,
                None => raw > 18,
            },
    {
        match raw {
            0 => Some(SyntaxKind::BinaryExpr),
            1 => Some(SyntaxKind::Comment),
            2 => Some(SyntaxKind::Equals),
            3 => Some(SyntaxKind::Error),
            4 => Some(SyntaxKind::FnKw),
            5 => Some(SyntaxKind::Ident),
            6 => Some(SyntaxKind::LBrace),
            7 => Some(SyntaxKind::LParen),
            8 => Some(SyntaxKind::LetKw),
            9 => Some(SyntaxKind::Minus),
            10 => Some(SyntaxKind::Number),
            11 => Some(SyntaxKind::Plus),
            12 => Some(SyntaxKind::PrefixExpr),
            13 => Some(SyntaxKind::RBrace),
            14 => Some(SyntaxKind::RParen),
            15 => Some(SyntaxKind::Root),
            16 => Some(SyntaxKind::Slash),
            17 => Some(SyntaxKind::Star),
            18 => Some(SyntaxKind::Whitespace),
            _ => None,
        }
    }
}

/// The character classes that multi-character tokens are made of.
#[derive(Clone, Copy)]
pub enum CharClass {
    Digit,
    Alnum,
    Space,
    NotNewline,
}

pub open spec fn is_digit(c: char) -> bool {
    '0' <= c <= '9'
}

pub open spec fn is_alpha(c: char) -> bool {
    ('a' <= c <= 'z') || ('A' <= c <= 'Z')
}

pub open spec fn is_space(c: char) -> bool {
    c == ' ' || c == '\n'
}

pub open spec fn in_class(c: char, class: CharClass) -> bool {
    match class {
        CharClass::Digit => is_digit(c),
        CharClass::Alnum => is_digit(c) || is_alpha(c),
        CharClass::Space => is_space(c),
        CharClass::NotNewline => c != '\n',
    }
}

/// The end of the run of `class` characters in `s` that starts at `i`.
pub open spec fn run_end(s: Seq<char>, i: int, class: CharClass) -> int
    decreases s.len() - i,
{
    if 0 <= i < s.len() && in_class(s[i], class) {
        run_end(s, i + 1, class)
    } else {
        i
    }
}

/// The kind of token that a single character forms on its own.
pub open spec fn single_kind(c: char) -> SyntaxKind {
    if c == '=' {
        SyntaxKind::Equals
    } else if c == '{' {
        SyntaxKind::LBrace
    } else if c == '}' {
        SyntaxKind::RBrace
    } else if c == '(' {
        SyntaxKind::LParen
    } else if c == ')' {
        SyntaxKind::RParen
    } else if c == '+' {
        SyntaxKind::Plus
    } else if c == '-' {
        SyntaxKind::Minus
    } else if c == '*' {
        SyntaxKind::Star
    } else if c == '/' {
        SyntaxKind::Slash
    } else {
        SyntaxKind::Error
    }
}

/// The kind of a word: a keyword where it spells one, else an identifier.
pub open spec fn word_kind(w: Seq<char>) -> SyntaxKind {
    if w == seq!['f', 'n'] {
        SyntaxKind::FnKw
    } else if w == seq!['l', 'e', 't'] {
        SyntaxKind::LetKw
    } else {
        SyntaxKind::Ident
    }
}

/// End of the longest token that starts at `i` (which is inside `s`).
pub open spec fn token_end(s: Seq<char>, i: int) -> int {
    let c = s[i];
    if c == '#' {
        run_end(s, i + 1, CharClass::NotNewline)
    } else if is_digit(c) {
        run_end(s, i, CharClass::Digit)
    } else if is_alpha(c) {
        run_end(s, i, CharClass::Alnum)
    } else if is_space(c) {
        run_end(s, i, CharClass::Space)
    } else {
        i + 1
    }
}

/// Kind of the longest token that starts at `i`; keywords win over identifiers.
pub open spec fn token_kind(s: Seq<char>, i: int) -> SyntaxKind {
    let c = s[i];
    if c == '#' {
        SyntaxKind::Comment
    } else if is_digit(c) {
        SyntaxKind::Number
    } else if is_alpha(c) {
        word_kind(s.subrange(i, token_end(s, i)))
    } else if is_space(c) {
        SyntaxKind::Whitespace
    } else {
        single_kind(c)
    }
}

proof fn lemma_run_end_bounds(s: Seq<char>, i: int, class: CharClass)
    requires
        0 <= i <= s.len(),
    ensures
        i <= run_end(s, i, class) <= s.len(),
    decreases s.len() - i,
{
    if i < s.len() && in_class(s[i], class) {
        lemma_run_end_bounds(s, i + 1, class);
    }
}

proof fn lemma_token_end_bounds(s: Seq<char>, i: int)
    requires
        0 <= i < s.len(),
    ensures
        i < token_end(s, i) <= s.len(),
{
    let c = s[i];
    if c == '#' {
        lemma_run_end_bounds(s, i + 1, CharClass::NotNewline);
    } else if is_digit(c) {
        lemma_run_end_bounds(s, i + 1, CharClass::Digit);
        assert(run_end(s, i, CharClass::Digit) == run_end(s, i + 1, CharClass::Digit));
    } else if is_alpha(c) {
        lemma_run_end_bounds(s, i + 1, CharClass::Alnum);
        assert(run_end(s, i, CharClass::Alnum) == run_end(s, i + 1, CharClass::Alnum));
    } else if is_space(c) {
        lemma_run_end_bounds(s, i + 1, CharClass::Space);
        assert(run_end(s, i, CharClass::Space) == run_end(s, i + 1, CharClass::Space));
    }
}

/// A classified slice of the source text.
#[derive(Debug, PartialEq)]
pub struct Lexeme {
    pub kind: SyntaxKind,
    pub text: String,
}

/// The text of a run of lexemes, joined in order.
pub open spec fn joined(ls: Seq<Lexeme>) -> Seq<char>
    decreases ls.len(),
{
    if ls.len() == 0 {
        Seq::empty()
    } else {
        joined(ls.drop_last()) + ls.last().text@
    }
}

/// The `i`-th lexeme is the longest token at the offset where it starts.
pub open spec fn longest_at(s: Seq<char>, ls: Seq<Lexeme>, i: int) -> bool {
    let start = joined(ls.take(i)).len() as int;
    &&& start < s.len()
    &&& ls[i].kind == token_kind(s, start)
    &&& ls[i].text@ == s.subrange(start, token_end(s, start))
}

/// `ls` is the tokenization of `s`: lossless, and longest match at each step.
pub open spec fn tokenizes(s: Seq<char>, ls: Seq<Lexeme>) -> bool {
    &&& joined(ls) == s
    &&& forall|i: int| 0 <= i < ls.len() ==> #[trigger] longest_at(s, ls, i)
}

/// A forward-only tokenizer over one input text.
pub struct Lexer {
    source: String,
    chars: Vec<char>,
    pos: usize,
}

impl Lexer {
    pub closed spec fn input(&self) -> Seq<char> {
        self.chars@
    }

    pub closed spec fn position(&self) -> int {
        self.pos as int
    }

    pub closed spec fn wf(&self) -> bool {
        &&& self.source@ == self.chars@
        &&& self.pos <= self.chars@.len()
    }

    pub fn new(input: &str) -> (r: Lexer)
        ensures
            r.wf(),
            r.input() == input@,
            r.position() == 0,
    {
        let n = input.unicode_len();
        let mut chars: Vec<char> = Vec::new();
        let mut i: usize = 0;
        while i < n
            invariant
                n == input@.len(),
                i <= n,
                chars@ == input@.take(i as int),
            decreases n - i,
        {
            chars.push(input.get_char(i));
            i = i + 1;
            assert(chars@ =~= input@.take(i as int));
        }
        assert(chars@ =~= input@);
        Lexer { source: input.to_owned(), chars, pos: 0 }
    }

    fn scan_run(&self, start: usize, class: CharClass) -> (end: usize)
        requires
            start <= self.chars@.len(),
        ensures
            end == run_end(self.chars@, start as int, class),
    {
        let mut j = start;
        while j < self.chars.len() && self.class_has(j, class)
            invariant
                start <= j <= self.chars@.len(),
                run_end(self.chars@, start as int, class) == run_end(self.chars@, j as int, class),
            decreases self.chars@.len() - j,
        {
            j = j + 1;
        }
        j
    }

    fn class_has(&self, j: usize, class: CharClass) -> (r: bool)
        requires
            j < self.chars@.len(),
        ensures
            r == in_class(self.chars@[j as int], class),
    {
        let c = self.chars[j];
        match class {
            CharClass::Digit => '0' <= c && c <= '9',
            CharClass::Alnum => ('0' <= c && c <= '9') || ('a' <= c && c <= 'z') || ('A' <= c
                && c <= 'Z'),
            CharClass::Space => c == ' ' || c == '\n',
            CharClass::NotNewline => c != '\n',
        }
    }

    fn keyword_kind(&self, i: usize, end: usize) -> (r: SyntaxKind)
        requires
            i <= end <= self.chars@.len(),
        ensures
            r == word_kind(self.chars@.subrange(i as int, end as int)),
    {
        let w = Ghost(self.chars@.subrange(i as int, end as int));
        if end - i == 2 && self.chars[i] == 'f' && self.chars[i + 1] == 'n' {
            assert(w@ =~= seq!['f', 'n']);
            SyntaxKind::FnKw
        } else if end - i == 3 && self.chars[i] == 'l' && self.chars[i + 1] == 'e'
            && self.chars[i + 2] == 't' {
            assert(w@ =~= seq!['l', 'e', 't']);
            SyntaxKind::LetKw
        } else {
            proof {
                if w@ =~= seq!['f', 'n'] {
                    assert(w@[0] == 'f' && w@[1] == 'n' && w@.len() == 2);
                }
                if w@ =~= seq!['l', 'e', 't'] {
                    assert(w@[0] == 'l' && w@[1] == 'e' && w@[2] == 't' && w@.len() == 3);
                }
            }
            SyntaxKind::Ident
        }
    }

    fn single_kind_of(c: char) -> (r: SyntaxKind)
        ensures
            r == single_kind(c),
    {
        if c == '=' {
            SyntaxKind::Equals
        } else if c == '{' {
            SyntaxKind::LBrace
        } else if c == '}' {
            SyntaxKind::RBrace
        } else if c == '(' {
            SyntaxKind::LParen
        } else if c == ')' {
            SyntaxKind::RParen
        } else if c == '+' {
            SyntaxKind::Plus
        } else if c == '-' {
            SyntaxKind::Minus
        } else if c == '*' {
            SyntaxKind::Star
        } else if c == '/' {
            SyntaxKind::Slash
        } else {
            SyntaxKind::Error
        }
    }

    /// Consumes and returns the longest token at the current position, or
    /// `None` once the whole input has been consumed.
    pub fn next(&mut self) -> (r: Option<Lexeme>)
        requires
            old(self).wf(),
        ensures
            final(self).wf(),
            final(self).input() == old(self).input(),
            old(self).position() == old(self).input().len() ==> r is None && final(self).position()
                == old(self).position(),
            old(self).position() < old(self).input().len() ==> ({
                let s = old(self).input();
                let p = old(self).position();
                &&& r is Some
                &&& r->Some_0.kind == token_kind(s, p)
                &&& r->Some_0.text@ == s.subrange(p, token_end(s, p))
                &&& final(self).position() == token_end(s, p)
            }),
    {
        if self.pos == self.chars.len() {
            return None;
        }
        let i = self.pos;
        proof {
            lemma_token_end_bounds(self.chars@, i as int);
        }
        let c = self.chars[i];
        let kind: SyntaxKind;
        let end: usize;
        if c == '#' {
            end = self.scan_run(i + 1, CharClass::NotNewline);
            kind = SyntaxKind::Comment;
        } else if '0' <= c && c <= '9' {
            end = self.scan_run(i, CharClass::Digit);
            kind = SyntaxKind::Number;
        } else if ('a' <= c && c <= 'z') || ('A' <= c && c <= 'Z') {
            end = self.scan_run(i, CharClass::Alnum);
            kind = self.keyword_kind(i, end);
        } else if c == ' ' || c == '\n' {
            end = self.scan_run(i, CharClass::Space);
            kind = SyntaxKind::Whitespace;
        } else {
            end = i + 1;
            kind = Lexer::single_kind_of(c);
        }
        let text = self.source.as_str().substring_char(i, end).to_owned();
        self.pos = end;
        Some(Lexeme { kind, text })
    }
}

/// Splits `input` into lexemes that cover it end to end, each the longest
/// token at its position.
pub fn lex(input: &str) -> (r: Vec<Lexeme>)
    ensures
        tokenizes(input@, r@),
{
    let mut lexer = Lexer::new(input);
    let mut out: Vec<Lexeme> = Vec::new();
    loop
        invariant
            lexer.wf(),
            lexer.input() == input@,
            joined(out@) == input@.take(lexer.position()),
            forall|i: int| 0 <= i < out@.len() ==> #[trigger] longest_at(input@, out@, i),
        decreases input@.len() - lexer.position(),
    {
        let ghost before = out@;
        let ghost p = lexer.position();
        match lexer.next() {
            None => {
                assert(input@.take(p) =~= input@);
                return out;
            },
            Some(l) => {
                out.push(l);
                proof {
                    lemma_token_end_bounds(input@, p);
                    assert(out@.drop_last() =~= before);
                    assert(out@.take(before.len() as int) =~= before);
                    assert forall|i: int| 0 <= i < out@.len() implies #[trigger] longest_at(
                        input@,
                        out@,
                        i,
                    ) by {
                        if i < before.len() {
                            assert(out@.take(i) =~= before.take(i));
                            assert(longest_at(input@, before, i));
                        }
                    }
                    assert(input@.take(lexer.position()) =~= input@.take(p) + input@.subrange(
                        p,
                        lexer.position(),
                    ));
                }
            },
        }
    }
}

} // verus!
