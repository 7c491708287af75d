//! The tokens of a content stream, and how they are written back.
use vstd::prelude::*;

use crate::bytes;
use crate::content::number;
use crate::content::number::canonical_number;

verus! {

pub open spec fn whitespace(b: u8) -> bool {
    b == 0 || b == 9 || b == 10 || b == 12 || b == 13 || b == 32
}

pub open spec fn delimiter(b: u8) -> bool {
    b == '(' as u8 || b == ')' as u8 || b == '<' as u8 || b == '>' as u8 || b == '[' as u8 || b
        == ']' as u8 || b == '{' as u8 || b == '}' as u8 || b == '/' as u8 || b == '%' as u8
}

pub open spec fn regular(b: u8) -> bool {
    !whitespace(b) && !delimiter(b)
}

fn is_whitespace(b: u8) -> (r: bool)
    ensures
        r == whitespace(b),
{
    b == 0 || b == 9 || b == 10 || b == 12 || b == 13 || b == 32
}

fn is_delimiter(b: u8) -> (r: bool)
    ensures
        r == delimiter(b),
{
    b == ('(' as u8) || b == (')' as u8) || b == ('<' as u8) || b == ('>' as u8) || b == ('[' as u8) || b == (']' as u8) || b == ('{' as u8) || b
        == ('}' as u8) || b == ('/' as u8) || b == ('%' as u8)
}

fn is_regular(b: u8) -> (r: bool)
    ensures
        r == regular(b),
{
    !is_whitespace(b) && !is_delimiter(b)
}

/// A token of a content stream.
pub enum Token {
    /// A string, a bracket or a brace: it ends itself.
    Closed(Seq<u8>),
    /// A name, slash included: it ends where regular characters end.
    Name(Seq<u8>),
    /// A number or an operator.
    Word(Seq<u8>),
}

/// What stands at a position: a malformed token, something that is dropped
/// (whitespace, a comment), or a token; and where the next one starts.
pub enum Lexed {
    Malformed,
    Dropped(int),
    Found(Token, int),
}

/// The first position at or after `from` that holds no regular character.
pub open spec fn word_end(src: Seq<u8>, from: int) -> int
    decreases src.len() - from,
{
    if 0 <= from < src.len() && regular(src[from]) {
        word_end(src, from + 1)
    } else {
        from
    }
}

/// The first position at or after `from` that ends a line, or the length.
pub open spec fn comment_end(src: Seq<u8>, from: int) -> int
    decreases src.len() - from,
{
    if 0 <= from < src.len() && src[from] != 10 && src[from] != 13 {
        comment_end(src, from + 1)
    } else {
        from
    }
}

/// Where a literal string ends, read from `from` with `depth` parentheses
/// open: after the parenthesis that closes the first one. A backslash takes
/// the byte after it along.
pub open spec fn string_end(src: Seq<u8>, from: int, depth: nat) -> Option<int>
    decreases src.len() - from,
{
    if from < 0 || from >= src.len() {
        None
    } else if src[from] == '\\' as u8 {
        if from + 2 > src.len() {
            None
        } else {
            string_end(src, from + 2, depth)
        }
    } else if src[from] == '(' as u8 {
        string_end(src, from + 1, depth + 1)
    } else if src[from] == ')' as u8 {
        if depth <= 1 {
            Some(from + 1)
        } else {
            string_end(src, from + 1, (depth - 1) as nat)
        }
    } else {
        string_end(src, from + 1, depth)
    }
}

/// Where the `>` at or after `from` stands.
pub open spec fn angle_end(src: Seq<u8>, from: int) -> Option<int>
    decreases src.len() - from,
{
    if from < 0 || from >= src.len() {
        None
    } else if src[from] == '>' as u8 {
        Some(from)
    } else {
        angle_end(src, from + 1)
    }
}

/// `s` without its whitespace.
pub open spec fn solid(s: Seq<u8>) -> Seq<u8>
    decreases s.len(),
{
    if s.len() == 0 {
        s
    } else if whitespace(s.last()) {
        solid(s.drop_last())
    } else {
        solid(s.drop_last()).push(s.last())
    }
}

/// What stands at `pos` of `src`.
pub open spec fn lex_at(src: Seq<u8>, pos: int) -> Lexed {
    let b = src[pos];
    let doubled = pos + 1 < src.len() && src[pos + 1] == b;
    if whitespace(b) {
        Lexed::Dropped(pos + 1)
    } else if b == '%' as u8 {
        Lexed::Dropped(comment_end(src, pos))
    } else if b == '(' as u8 {
        match string_end(src, pos, 0) {
            None => Lexed::Malformed,
            Some(end) => Lexed::Found(Token::Closed(src.subrange(pos, end)), end),
        }
    } else if b == '<' as u8 {
        if doubled {
            Lexed::Found(Token::Closed(src.subrange(pos, pos + 2)), pos + 2)
        } else {
            match angle_end(src, pos + 1) {
                None => Lexed::Malformed,
                Some(end) => Lexed::Found(
                    Token::Closed(
                        seq!['<' as u8] + solid(src.subrange(pos + 1, end)) + seq!['>' as u8],
                    ),
                    end + 1,
                ),
            }
        }
    } else if b == '/' as u8 {
        let end = word_end(src, pos + 1);
        Lexed::Found(Token::Name(src.subrange(pos, end)), end)
    } else if b == '[' as u8 || b == ']' as u8 || b == '{' as u8 || b == '}' as u8 {
        Lexed::Found(Token::Closed(seq![b]), pos + 1)
    } else if b == '>' as u8 && doubled {
        Lexed::Found(Token::Closed(src.subrange(pos, pos + 2)), pos + 2)
    } else if delimiter(b) {
        Lexed::Malformed
    } else {
        let end = word_end(src, pos);
        Lexed::Found(Token::Word(src.subrange(pos, end)), end)
    }
}

/// The tokens from `pos` on, or `None` where one of them is malformed.
pub open spec fn lex(src: Seq<u8>, pos: int) -> Option<Seq<Token>>
    decreases src.len() - pos,
{
    if pos < 0 || pos >= src.len() {
        Some(Seq::empty())
    } else {
        match lex_at(src, pos) {
            Lexed::Malformed => None,
            Lexed::Dropped(next) => if next <= pos || next > src.len() {
                None
            } else {
                lex(src, next)
            },
            Lexed::Found(token, next) => if next <= pos || next > src.len() {
                None
            } else {
                match lex(src, next) {
                    None => None,
                    Some(rest) => Some(seq![token] + rest),
                }
            },
        }
    }
}

/// A token as it is written.
pub open spec fn token_text(token: Token) -> Seq<u8> {
    match token {
        Token::Closed(text) => text,
        Token::Name(text) => text,
        Token::Word(text) => number::rewritten_word(text),
    }
}

/// Whether a regular character right after the token would become part of it.
pub open spec fn leaves_open(token: Token) -> bool {
    !(token is Closed)
}

/// Whether a space has to part the token from what precedes it.
pub open spec fn needs_space(open: bool, token: Token) -> bool {
    open && token is Word
}

/// Tokens written out with the least separation the syntax needs; `open`
/// says whether what precedes them leaves a token open.
pub open spec fn render(tokens: Seq<Token>, open: bool) -> Seq<u8>
    decreases tokens.len(),
{
    if tokens.len() == 0 {
        Seq::empty()
    } else {
        (if needs_space(open, tokens[0]) {
            seq![32u8]
        } else {
            Seq::empty()
        }) + token_text(tokens[0]) + render(tokens.skip(1), leaves_open(tokens[0]))
    }
}

/// Whether the last of `tokens` leaves a token open.
pub open spec fn ends_open(tokens: Seq<Token>, open: bool) -> bool {
    if tokens.len() == 0 {
        open
    } else {
        leaves_open(tokens.last())
    }
}

proof fn lemma_word_end(src: Seq<u8>, from: int)
    requires
        0 <= from <= src.len(),
    ensures
        from <= word_end(src, from) <= src.len(),
        forall|k: int| from <= k < word_end(src, from) ==> regular(#[trigger] src[k]),
        word_end(src, from) < src.len() ==> !regular(src[word_end(src, from)]),
    decreases src.len() - from,
{
    if from < src.len() && regular(src[from]) {
        lemma_word_end(src, from + 1);
    }
}

proof fn lemma_comment_end(src: Seq<u8>, from: int)
    requires
        0 <= from <= src.len(),
    ensures
        from <= comment_end(src, from) <= src.len(),
    decreases src.len() - from,
{
    if from < src.len() && src[from] != 10 && src[from] != 13 {
        lemma_comment_end(src, from + 1);
    }
}

proof fn lemma_string_end(src: Seq<u8>, from: int, depth: nat)
    requires
        0 <= from,
    ensures
        match string_end(src, from, depth) {
            Some(end) => from < end <= src.len(),
            None => true,
        },
    decreases src.len() - from,
{
    if from < src.len() {
        if src[from] == '\\' as u8 {
            if from + 2 <= src.len() {
                lemma_string_end(src, from + 2, depth);
            }
        } else if src[from] == '(' as u8 {
            lemma_string_end(src, from + 1, depth + 1);
        } else if src[from] == ')' as u8 {
            if depth > 1 {
                lemma_string_end(src, from + 1, (depth - 1) as nat);
            }
        } else {
            lemma_string_end(src, from + 1, depth);
        }
    }
}

proof fn lemma_angle_end(src: Seq<u8>, from: int)
    requires
        0 <= from,
    ensures
        match angle_end(src, from) {
            Some(end) => from <= end < src.len() && src[end] == '>' as u8 && forall|k: int|
                from <= k < end ==> src[k] != '>' as u8,
            None => true,
        },
    decreases src.len() - from,
{
    if from < src.len() && src[from] != '>' as u8 {
        lemma_angle_end(src, from + 1);
    }
}

/// What `lex_at` reports always ends further on, inside the source.
proof fn lemma_lex_at(src: Seq<u8>, pos: int)
    requires
        0 <= pos < src.len(),
    ensures
        match lex_at(src, pos) {
            Lexed::Malformed => true,
            Lexed::Dropped(next) => pos < next <= src.len(),
            Lexed::Found(_, next) => pos < next <= src.len(),
        },
{
    lemma_word_end(src, pos);
    lemma_word_end(src, pos + 1);
    lemma_comment_end(src, pos + 1);
    lemma_string_end(src, pos, 0);
    lemma_angle_end(src, pos + 1);
}

proof fn lemma_render_push(tokens: Seq<Token>, token: Token, open: bool)
    ensures
        render(tokens.push(token), open) == render(tokens, open) + (if needs_space(
            ends_open(tokens, open),
            token,
        ) {
            seq![32u8]
        } else {
            Seq::empty()
        }) + token_text(token),
    decreases tokens.len(),
{
    if tokens.len() == 0 {
        assert(tokens.push(token).skip(1) =~= Seq::empty());
        assert(render(tokens.push(token).skip(1), leaves_open(token)) =~= Seq::empty());
    } else {
        assert(tokens.push(token).skip(1) =~= tokens.skip(1).push(token));
        lemma_render_push(tokens.skip(1), token, leaves_open(tokens[0]));
        assert(ends_open(tokens.skip(1), leaves_open(tokens[0])) == ends_open(tokens, open));
    }
    assert(render(tokens.push(token), open) =~= render(tokens, open) + (if needs_space(
        ends_open(tokens, open),
        token,
    ) {
        seq![32u8]
    } else {
        Seq::empty()
    }) + token_text(token));
}

/// A lexer over content-stream bytes that writes tokens back out with the
/// least separation the syntax needs.
struct Tokens<'a> {
    src: &'a [u8],
    pos: usize,
    out: Vec<u8>,
    /// The previous token ended with a regular character, so a following
    /// regular token needs a space.
    open: bool,
}

impl<'a> Tokens<'a> {
    /// The output is the rendering of `done`, and `done` with the tokens that
    /// are still ahead are the tokens of the source.
    spec fn holds(self, done: Seq<Token>) -> bool {
        &&& self.pos <= self.src.len()
        &&& self.out@ == render(done, false)
        &&& self.open == ends_open(done, false)
        &&& lex(self.src@, 0) == match lex(self.src@, self.pos as int) {
            None => None,
            Some(ahead) => Some(done + ahead),
        }
    }

    fn new(src: &'a [u8]) -> (r: Self)
        ensures
            r.src == src,
            r.pos == 0,
            r.holds(Seq::empty()),
    {
        let r = Tokens { src, pos: 0, out: Vec::with_capacity(src.len()), open: false };
        proof {
            match lex(src@, 0) {
                None => {},
                Some(ahead) => {
                    assert(Seq::<Token>::empty() + ahead =~= ahead);
                },
            }
            assert(r.out@ =~= render(Seq::empty(), false));
        }
        r
    }

    #[verifier::loop_isolation(false)]
    fn canonical(self) -> (r: Option<Vec<u8>>)
        requires
            self.holds(Seq::empty()),
            self.pos == 0,
        ensures
            match r {
                Some(out) => lex(self.src@, 0) is Some && out@ == render(
                    lex(self.src@, 0)->0,
                    false,
                ),
                None => lex(self.src@, 0) is None,
            },
    {
        let mut this = self;
        let ghost mut done: Seq<Token> = Seq::empty();
        let ghost src = self.src@;
        while this.pos < this.src.len()
            invariant
                this.holds(done),
                this.src@ == src,
            decreases this.src.len() - this.pos,
        {
            let ghost before = done;
            proof {
                lemma_lex_at(src, this.pos as int);
                done = match lex_at(src, this.pos as int) {
                    Lexed::Found(token, _) => done.push(token),
                    _ => done,
                };
                match lex_at(src, this.pos as int) {
                    Lexed::Found(token, next) => {
                        lemma_render_push(before, token, false);
                        match lex(src, next) {
                            None => {},
                            Some(ahead) => {
                                assert(before + (seq![token] + ahead) =~= before.push(token)
                                    + ahead);
                            },
                        }
                    },
                    _ => {},
                }
            }
            match this.step() {
                Some(()) => {},
                None => {
                    return None;
                },
            }
        }
        proof {
            assert(done + Seq::<Token>::empty() =~= done);
        }
        Some(this.out)
    }

    /// Consumes one token (or whitespace, or a comment).
    fn step(&mut self) -> (r: Option<()>)
        requires
            old(self).pos < old(self).src.len(),
        ensures
            final(self).src == old(self).src,
            match lex_at(old(self).src@, old(self).pos as int) {
                Lexed::Malformed => r is None,
                Lexed::Dropped(next) => r is Some && final(self).pos == next && final(self).out
                    == old(self).out && final(self).open == old(self).open,
                Lexed::Found(token, next) => r is Some && final(self).pos == next
                    && final(self).out@ == old(self).out@ + (if needs_space(
                    old(self).open,
                    token,
                ) {
                    seq![32u8]
                } else {
                    Seq::empty()
                }) + token_text(token) && final(self).open == leaves_open(token),
            },
    {
        let b = self.src[self.pos];
        if is_whitespace(b) {
            self.pos += 1;
            Some(())
        } else if b == ('%' as u8) {
            self.skip_comment();
            Some(())
        } else if b == ('(' as u8) {
            self.literal_string()
        } else if b == ('<' as u8) {
            self.angle()
        } else if b == ('/' as u8) {
            self.name();
            Some(())
        } else if is_delimiter(b) {
            self.bracket(b)
        } else {
            self.regular();
            Some(())
        }
    }

    /// Writes a token; `regular` says whether it starts and ends with regular
    /// characters.
    fn emit(&mut self, token: &[u8], regular: bool)
        ensures
            final(self).src == old(self).src,
            final(self).pos == old(self).pos,
            final(self).out@ == old(self).out@ + (if regular && old(self).open {
                seq![32u8]
            } else {
                Seq::empty()
            }) + token@,
            final(self).open == regular,
    {
        let ghost start = self.out@;
        if regular && self.open {
            self.out.push(32);
        }
        assert(self.out@ =~= start + (if regular && old(self).open {
            seq![32u8]
        } else {
            Seq::empty()
        }));
        bytes::append(&mut self.out, token);
        self.open = regular;
    }

    fn skip_comment(&mut self)
        requires
            old(self).pos < old(self).src.len(),
        ensures
            final(self).src == old(self).src,
            final(self).out == old(self).out,
            final(self).open == old(self).open,
            final(self).pos == comment_end(old(self).src@, old(self).pos as int),
    {
        while self.pos < self.src.len() && self.src[self.pos] != 10 && self.src[self.pos] != 13
            invariant
                self.pos <= self.src.len(),
                self.src == old(self).src,
                self.out == old(self).out,
                self.open == old(self).open,
                comment_end(self.src@, self.pos as int) == comment_end(
                    old(self).src@,
                    old(self).pos as int,
                ),
            decreases self.src.len() - self.pos,
        {
            self.pos += 1;
        }
    }

    /// `(...)` with nested parentheses and backslash escapes, verbatim.
    #[verifier::loop_isolation(false)]
    fn literal_string(&mut self) -> (r: Option<()>)
        requires
            old(self).pos < old(self).src.len(),
            old(self).src@[old(self).pos as int] == '(' as u8,
        ensures
            final(self).src == old(self).src,
            match string_end(old(self).src@, old(self).pos as int, 0) {
                None => r is None,
                Some(end) => r is Some && final(self).pos == end && final(self).out@ == old(
                    self,
                ).out@ + old(self).src@.subrange(old(self).pos as int, end) && !final(self).open,
            },
    {
        let src = self.src;
        let start = self.pos;
        let mut depth: usize = 0;
        let mut i: usize = start;
        let ghost goal = string_end(src@, start as int, 0);
        loop
            invariant
                start <= i,
                start < src.len(),
                src@[start as int] == '(' as u8,
                self.src == src,
                self.pos == start,
                self.out == old(self).out,
                goal == string_end(src@, start as int, 0),
                depth <= i - start,
                i > start ==> depth >= 1,
                string_end(src@, i as int, depth as nat) == goal,
            decreases src.len() - i,
        {
            if i >= src.len() {
                return None;
            }
            let b = src[i];
            if b == ('\\' as u8) {
                if src.len() - i < 2 {
                    return None;
                }
                i += 2;
            } else if b == ('(' as u8) {
                depth += 1;
                i += 1;
            } else if b == (')' as u8) {
                depth -= 1;
                i += 1;
                if depth == 0 {
                    assert(goal == Some(i as int));
                    self.pos = i;
                    let token = bytes::copy_range(src, start, i);
                    self.emit(&token, false);
                    assert(self.out@ =~= old(self).out@ + src@.subrange(start as int, i as int));
                    return Some(());
                }
            } else {
                i += 1;
            }
        }
    }

    /// `<<`, or a hex string `<...>` with its whitespace removed.
    #[verifier::loop_isolation(false)]
    fn angle(&mut self) -> (r: Option<()>)
        requires
            old(self).pos < old(self).src.len(),
            old(self).src@[old(self).pos as int] == '<' as u8,
        ensures
            final(self).src == old(self).src,
            match lex_at(old(self).src@, old(self).pos as int) {
                Lexed::Malformed => r is None,
                Lexed::Dropped(_) => false,
                Lexed::Found(token, next) => r is Some && final(self).pos == next
                    && final(self).out@ == old(self).out@ + token_text(token)
                    && final(self).open == leaves_open(token),
            },
    {
        let src = self.src;
        let start = self.pos;
        if src.len() - start > 1 && src[start + 1] == ('<' as u8) {
            self.pos = start + 2;
            let token = bytes::copy_range(src, start, start + 2);
            self.emit(&token, false);
            assert(self.out@ =~= old(self).out@ + src@.subrange(start as int, start + 2));
            return Some(());
        }
        let mut token: Vec<u8> = Vec::new();
        token.push('<' as u8);
        let mut i: usize = start + 1;
        assert(src@.subrange(start + 1, start + 1) =~= Seq::empty());
        assert(token@ =~= seq!['<' as u8] + solid(src@.subrange(start + 1, i as int)));
        loop
            invariant
                start < i <= src.len(),
                self.src == src,
                self.pos == start,
                self.out == old(self).out,
                token@ == seq!['<' as u8] + solid(src@.subrange(start + 1, i as int)),
                angle_end(src@, i as int) == angle_end(src@, start + 1),
                lex_at(src@, start as int) == match angle_end(src@, start + 1) {
                    None => Lexed::Malformed,
                    Some(end) => Lexed::Found(
                        Token::Closed(
                            seq!['<' as u8] + solid(src@.subrange(start + 1, end))
                                + seq!['>' as u8],
                        ),
                        end + 1,
                    ),
                },
            decreases src.len() - i,
        {
            if i >= src.len() {
                return None;
            }
            let b = src[i];
            if b == ('>' as u8) {
                token.push('>' as u8);
                assert(token@ =~= seq!['<' as u8] + solid(src@.subrange(start + 1, i as int))
                    + seq!['>' as u8]);
                self.pos = i + 1;
                self.emit(&token, false);
                assert(self.out@ =~= old(self).out@ + token@);
                return Some(());
            }
            let ghost inner = src@.subrange(start + 1, i + 1);
            assert(inner.drop_last() =~= src@.subrange(start + 1, i as int));
            assert(inner.last() == b);
            if !is_whitespace(b) {
                token.push(b);
            }
            assert(token@ =~= seq!['<' as u8] + solid(inner));
            i += 1;
        }
    }

    fn name(&mut self)
        requires
            old(self).pos < old(self).src.len(),
        ensures
            final(self).src == old(self).src,
            final(self).pos == word_end(old(self).src@, old(self).pos + 1),
            final(self).out@ == old(self).out@ + old(self).src@.subrange(
                old(self).pos as int,
                word_end(old(self).src@, old(self).pos + 1),
            ),
            final(self).open,
    {
        let start = self.pos;
        self.pos = start + 1;
        self.skip_regular();
        proof {
            lemma_word_end(self.src@, start + 1);
        }
        let token = bytes::copy_range(self.src, start, self.pos);
        self.emit(&token, false);
        assert(self.out@ =~= old(self).out@ + token@);
        // A name starts with a delimiter but ends with regular characters.
        self.open = true;
    }

    fn skip_regular(&mut self)
        requires
            old(self).pos <= old(self).src.len(),
        ensures
            final(self).src == old(self).src,
            final(self).out == old(self).out,
            final(self).open == old(self).open,
            final(self).pos == word_end(old(self).src@, old(self).pos as int),
    {
        while self.pos < self.src.len() && is_regular(self.src[self.pos])
            invariant
                self.pos <= self.src.len(),
                self.src == old(self).src,
                self.out == old(self).out,
                self.open == old(self).open,
                word_end(self.src@, self.pos as int) == word_end(
                    old(self).src@,
                    old(self).pos as int,
                ),
            decreases self.src.len() - self.pos,
        {
            self.pos += 1;
        }
    }

    /// A bracket, a brace or `>>`.
    fn bracket(&mut self, b: u8) -> (r: Option<()>)
        requires
            old(self).pos < old(self).src.len(),
            old(self).src@[old(self).pos as int] == b,
            delimiter(b),
            b != '%' as u8,
            b != '(' as u8,
            b != '<' as u8,
            b != '/' as u8,
        ensures
            final(self).src == old(self).src,
            match lex_at(old(self).src@, old(self).pos as int) {
                Lexed::Malformed => r is None,
                Lexed::Dropped(_) => false,
                Lexed::Found(token, next) => r is Some && final(self).pos == next
                    && final(self).out@ == old(self).out@ + token_text(token)
                    && final(self).open == leaves_open(token),
            },
    {
        let start = self.pos;
        let width: usize = if b == ('[' as u8) || b == (']' as u8) || b == ('{' as u8) || b == (
        '}' as u8) {
            1
        } else if b == ('>' as u8) && self.src.len() - start > 1 && self.src[start + 1] == ('>'
            as u8) {
            2
        } else {
            return None;
        };
        self.pos = start + width;
        let token = bytes::copy_range(self.src, start, start + width);
        self.emit(&token, false);
        proof {
            if width == 1 {
                assert(token@ =~= seq![b]);
            }
            assert(self.out@ =~= old(self).out@ + token@);
        }
        Some(())
    }

    /// A number or an operator.
    fn regular(&mut self)
        requires
            old(self).pos < old(self).src.len(),
        ensures
            final(self).src == old(self).src,
            final(self).pos == word_end(old(self).src@, old(self).pos as int),
            final(self).out@ == old(self).out@ + (if old(self).open {
                seq![32u8]
            } else {
                Seq::empty()
            }) + number::rewritten_word(
                old(self).src@.subrange(
                    old(self).pos as int,
                    word_end(old(self).src@, old(self).pos as int),
                ),
            ),
            final(self).open,
    {
        let start = self.pos;
        self.skip_regular();
        proof {
            lemma_word_end(self.src@, start as int);
        }
        let token = bytes::copy_range(self.src, start, self.pos);
        let text = match canonical_number(&token) {
            Some(text) => text,
            None => token,
        };
        self.emit(&text, true);
    }
}

/// The tokens of `content` written with the least separation the syntax
/// needs, or `None` where a token is malformed.
pub fn canonical_tokens(content: &[u8]) -> (r: Option<Vec<u8>>)
    ensures
        match r {
            Some(out) => lex(content@, 0) is Some && out@ == render(lex(content@, 0)->0, false),
            None => lex(content@, 0) is None,
        },
{
    Tokens::new(content).canonical()
}


/// The tokens hold no `<` right after the bracket that opens a hex string.
pub open spec fn plain_hex(tokens: Seq<Token>) -> bool {
    forall|i: int|
        0 <= i < tokens.len() ==> match #[trigger] tokens[i] {
            Token::Closed(text) => text.len() > 2 && text[0] == '<' as u8 ==> text[1] != '<' as u8,
            _ => true,
        }
}

proof fn lemma_solid_len(s: Seq<u8>)
    ensures
        solid(s).len() <= s.len(),
    decreases s.len(),
{
    if s.len() > 0 {
        lemma_solid_len(s.drop_last());
    }
}

proof fn lemma_render_len(src: Seq<u8>, pos: int, open: bool)
    requires
        0 <= pos <= src.len(),
        lex(src, pos) is Some,
    ensures
        render(lex(src, pos)->0, open).len() <= src.len() - pos + (if open && pos < src.len()
            && regular(src[pos]) {
            1int
        } else {
            0
        }),
    decreases src.len() - pos,
{
    if pos < src.len() {
        lemma_lex_at(src, pos);
        match lex_at(src, pos) {
            Lexed::Malformed => {},
            Lexed::Dropped(next) => {
                lemma_render_len(src, next, open);
            },
            Lexed::Found(token, next) => {
                let rest = lex(src, next)->0;
                assert((seq![token] + rest).skip(1) =~= rest);
                assert((seq![token] + rest)[0] == token);
                lemma_render_len(src, next, leaves_open(token));
                lemma_word_end(src, pos);
                lemma_word_end(src, pos + 1);
                lemma_string_end(src, pos, 0);
                lemma_angle_end(src, pos + 1);
                match token {
                    Token::Word(text) => {
                        number::lemma_word_never_grows(text);
                    },
                    Token::Closed(text) => {
                        if src[pos] == '<' as u8 {
                            if let Some(end) = angle_end(src, pos + 1) {
                                lemma_solid_len(src.subrange(pos + 1, end));
                            }
                        }
                    },
                    Token::Name(text) => {},
                }
            },
        }
    }
}

/// The canonical form of a stream is never longer than the stream.
pub proof fn canonical_form_never_grows(src: Seq<u8>)
    requires
        lex(src, 0) is Some,
    ensures
        render(lex(src, 0)->0, false).len() <= src.len(),
{
    lemma_render_len(src, 0, false);
}

/// Every byte is a regular character.
pub open spec fn regular_only(s: Seq<u8>) -> bool {
    forall|i: int| 0 <= i < s.len() ==> regular(#[trigger] s[i])
}

/// The shapes that a token which closes itself can have.
spec fn closed_shape(t: Seq<u8>) -> bool {
    ||| t.len() > 0 && t[0] == '(' as u8 && string_end(t, 0, 0) == Some(t.len() as int)
    ||| t =~= seq!['<' as u8, '<' as u8]
    ||| t =~= seq!['>' as u8, '>' as u8]
    ||| t.len() == 1 && (t[0] == '[' as u8 || t[0] == ']' as u8 || t[0] == '{' as u8 || t[0]
        == '}' as u8)
    ||| hex_shape(t)
}

spec fn hex_shape(t: Seq<u8>) -> bool {
    &&& t.len() >= 2
    &&& t[0] == '<' as u8
    &&& t[1] != '<' as u8
    &&& t.last() == '>' as u8
    &&& forall|i: int|
        1 <= i < t.len() - 1 ==> #[trigger] t[i] != '>' as u8 && !whitespace(t[i])
}

spec fn token_shape(token: Token) -> bool {
    match token {
        Token::Closed(t) => closed_shape(t),
        Token::Name(t) => t.len() > 0 && t[0] == '/' as u8 && regular_only(t.skip(1)),
        Token::Word(t) => t.len() > 0 && regular_only(t),
    }
}

spec fn token_shapes(tokens: Seq<Token>) -> bool {
    forall|i: int| 0 <= i < tokens.len() ==> token_shape(#[trigger] tokens[i])
}

/// The tokens of the canonical form: numbers in their shortest spelling.
pub open spec fn settled(tokens: Seq<Token>) -> Seq<Token> {
    tokens.map_values(|t: Token| settled_token(t))
}

pub open spec fn settled_token(token: Token) -> Token {
    match token {
        Token::Word(t) => Token::Word(number::rewritten_word(t)),
        other => other,
    }
}

proof fn lemma_solid(s: Seq<u8>)
    ensures
        forall|i: int| 0 <= i < solid(s).len() ==> !whitespace(#[trigger] solid(s)[i]),
        (forall|i: int| 0 <= i < s.len() ==> s[i] != '>' as u8) ==> forall|i: int|
            0 <= i < solid(s).len() ==> #[trigger] solid(s)[i] != '>' as u8,
    decreases s.len(),
{
    if s.len() > 0 {
        let front = s.drop_last();
        lemma_solid(front);
        let clean = forall|i: int| 0 <= i < s.len() ==> s[i] != '>' as u8;
        if clean {
            assert forall|i: int| 0 <= i < front.len() implies front[i] != '>' as u8 by {
                assert(front[i] == s[i]);
            }
        }
        assert forall|i: int| 0 <= i < solid(s).len() implies !whitespace(#[trigger] solid(s)[i])
            && (clean ==> solid(s)[i] != '>' as u8) by {
            if i < solid(front).len() {
                assert(solid(s)[i] == solid(front)[i]);
            } else {
                assert(solid(s)[i] == s.last());
            }
        }
    }
}

proof fn lemma_string_end_cut(src: Seq<u8>, pos: int, at: int, depth: nat, end: int)
    requires
        0 <= pos <= at,
        string_end(src, at, depth) == Some(end),
    ensures
        string_end(src.subrange(pos, end), at - pos, depth) == Some(end - pos),
        at < end <= src.len(),
    decreases src.len() - at,
{
    lemma_string_end(src, at, depth);
    let t = src.subrange(pos, end);
    assert(t[at - pos] == src[at]);
    if src[at] == '\\' as u8 {
        lemma_string_end_cut(src, pos, at + 2, depth, end);
    } else if src[at] == '(' as u8 {
        lemma_string_end_cut(src, pos, at + 1, depth + 1, end);
    } else if src[at] == ')' as u8 {
        if depth > 1 {
            lemma_string_end_cut(src, pos, at + 1, (depth - 1) as nat, end);
        }
    } else {
        lemma_string_end_cut(src, pos, at + 1, depth, end);
    }
}

proof fn lemma_string_end_within(src: Seq<u8>, pos: int, t: Seq<u8>, at: int, depth: nat)
    requires
        0 <= pos,
        pos + t.len() <= src.len(),
        t == src.subrange(pos, pos + t.len()),
        0 <= at,
        string_end(t, at, depth) == Some(t.len() as int),
    ensures
        string_end(src, pos + at, depth) == Some(pos + t.len()),
    decreases t.len() - at,
{
    lemma_string_end(t, at, depth);
    assert(t[at] == src[pos + at]);
    if t[at] == '\\' as u8 {
        lemma_string_end_within(src, pos, t, at + 2, depth);
    } else if t[at] == '(' as u8 {
        lemma_string_end_within(src, pos, t, at + 1, depth + 1);
    } else if t[at] == ')' as u8 {
        if depth > 1 {
            lemma_string_end_within(src, pos, t, at + 1, (depth - 1) as nat);
        }
    } else {
        lemma_string_end_within(src, pos, t, at + 1, depth);
    }
}

proof fn lemma_word_end_at(src: Seq<u8>, from: int, end: int)
    requires
        0 <= from <= end <= src.len(),
        forall|k: int| from <= k < end ==> regular(#[trigger] src[k]),
        end < src.len() ==> !regular(src[end]),
    ensures
        word_end(src, from) == end,
    decreases end - from,
{
    if from < end {
        lemma_word_end_at(src, from + 1, end);
    }
}

proof fn lemma_angle_end_at(src: Seq<u8>, from: int, end: int)
    requires
        0 <= from <= end < src.len(),
        forall|k: int| from <= k < end ==> #[trigger] src[k] != '>' as u8,
        src[end] == '>' as u8,
    ensures
        angle_end(src, from) == Some(end),
    decreases end - from,
{
    if from < end {
        lemma_angle_end_at(src, from + 1, end);
    }
}

proof fn lemma_solid_of_solid(s: Seq<u8>)
    requires
        forall|i: int| 0 <= i < s.len() ==> !whitespace(#[trigger] s[i]),
    ensures
        solid(s) == s,
    decreases s.len(),
{
    if s.len() > 0 {
        lemma_solid_of_solid(s.drop_last());
        assert(s.drop_last().push(s.last()) =~= s);
    }
}

/// What the lexer finds has one of the shapes.
proof fn lemma_found_shape(src: Seq<u8>, pos: int)
    requires
        0 <= pos < src.len(),
        lex_at(src, pos) is Found,
        plain_hex(seq![lex_at(src, pos)->Found_0]),
    ensures
        token_shape(lex_at(src, pos)->Found_0),
{
    let token = lex_at(src, pos)->Found_0;
    let b = src[pos];
    assert(seq![token][0] == token);
    lemma_word_end(src, pos);
    lemma_word_end(src, pos + 1);
    lemma_angle_end(src, pos + 1);
    lemma_string_end(src, pos, 0);
    match token {
        Token::Word(t) => {
            assert(regular_only(t));
        },
        Token::Name(t) => {
            assert(regular_only(t.skip(1)));
        },
        Token::Closed(t) => {
            if b == '(' as u8 {
                let end = string_end(src, pos, 0)->0;
                lemma_string_end_cut(src, pos, pos, 0, end);
                assert(t[0] == b);
            } else if b == '<' as u8 && !(pos + 1 < src.len() && src[pos + 1] == b) {
                let end = angle_end(src, pos + 1)->0;
                let inner = src.subrange(pos + 1, end);
                lemma_solid(inner);
                assert forall|i: int| 1 <= i < t.len() - 1 implies #[trigger] t[i] != '>' as u8
                    && !whitespace(t[i]) by {
                    assert(t[i] == solid(inner)[i - 1]);
                }
                assert(hex_shape(t));
            }
        },
    }
}

proof fn lemma_lexed_shapes(src: Seq<u8>, pos: int)
    requires
        0 <= pos,
        lex(src, pos) is Some,
        plain_hex(lex(src, pos)->0),
    ensures
        token_shapes(lex(src, pos)->0),
    decreases src.len() - pos,
{
    if pos < src.len() {
        lemma_lex_at(src, pos);
        match lex_at(src, pos) {
            Lexed::Malformed => {},
            Lexed::Dropped(next) => {
                lemma_lexed_shapes(src, next);
            },
            Lexed::Found(token, next) => {
                let rest = lex(src, next)->0;
                let all = seq![token] + rest;
                assert(all[0] == token);
                assert forall|i: int| 0 <= i < rest.len() implies match #[trigger] rest[i] {
                    Token::Closed(text) => text.len() > 2 && text[0] == '<' as u8 ==> text[1]
                        != '<' as u8,
                    _ => true,
                } by {
                    assert(all[i + 1] == rest[i]);
                }
                lemma_lexed_shapes(src, next);
                lemma_found_shape(src, pos);
            },
        }
    }
}

proof fn lemma_rewritten_regular(t: Seq<u8>)
    requires
        t.len() > 0,
        regular_only(t),
    ensures
        number::rewritten_word(t).len() > 0,
        regular_only(number::rewritten_word(t)),
{
    if let Some(d) = number::parse_number(t) {
        number::lemma_skip_zeros_len(d.whole);
        number::lemma_trim_zeros_len(d.fraction);
        let out = number::shortest(d);
        let whole = number::skip_zeros(d.whole);
        let fraction = number::trim_zeros(d.fraction);
        assert forall|i: int| 0 <= i < out.len() implies regular(#[trigger] out[i]) by {
            if !(whole.len() == 0 && fraction.len() == 0) {
                let sign: int = if d.negative {
                    1
                } else {
                    0
                };
                if sign <= i < sign + whole.len() {
                    assert(out[i] == whole[i - sign]);
                } else if i > sign + whole.len() {
                    assert(out[i] == fraction[i - sign - whole.len() - 1]);
                }
            }
        }
    }
}

/// A written token is found again where it stands.
proof fn lemma_found_again(src: Seq<u8>, pos: int, token: Token)
    requires
        token_shape(token),
        0 <= pos,
        pos + token_text(token).len() <= src.len(),
        src.subrange(pos, pos + token_text(token).len()) == token_text(token),
        leaves_open(token) && pos + token_text(token).len() < src.len() ==> !regular(
            src[pos + token_text(token).len()],
        ),
    ensures
        token_text(token).len() > 0,
        lex_at(src, pos) == Lexed::Found(settled_token(token), pos + token_text(token).len()),
{
    let t = token_text(token);
    let end = pos + t.len();
    assert forall|i: int| 0 <= i < t.len() implies src[pos + i] == #[trigger] t[i] by {
        assert(src.subrange(pos, end)[i] == src[pos + i]);
    }
    match token {
        Token::Word(w) => {
            lemma_rewritten_regular(w);
            assert(src[pos] == t[0]);
            assert forall|k: int| pos <= k < end implies regular(#[trigger] src[k]) by {
                assert(src[k] == t[k - pos]);
            }
            lemma_word_end_at(src, pos, end);
        },
        Token::Name(w) => {
            assert(src[pos] == t[0]);
            assert forall|k: int| pos + 1 <= k < end implies regular(#[trigger] src[k]) by {
                assert(src[k] == t[k - pos]);
                assert(t.skip(1)[k - pos - 1] == t[k - pos]);
            }
            lemma_word_end_at(src, pos + 1, end);
        },
        Token::Closed(w) => {
            assert(src[pos] == t[0]);
            if t[0] == '(' as u8 {
                lemma_string_end_within(src, pos, t, 0, 0);
            } else if hex_shape(t) {
                assert(src[pos + 1] == t[1]);
                assert(src[end - 1] == t[t.len() - 1]);
                assert forall|k: int| pos + 1 <= k < end - 1 implies #[trigger] src[k] != '>'
                    as u8 by {
                    assert(src[k] == t[k - pos]);
                }
                lemma_angle_end_at(src, pos + 1, end - 1);
                let inner = src.subrange(pos + 1, end - 1);
                assert forall|i: int| 0 <= i < inner.len() implies !whitespace(
                    #[trigger] inner[i],
                ) by {
                    assert(inner[i] == t[i + 1]);
                }
                lemma_solid_of_solid(inner);
                assert(seq!['<' as u8] + inner + seq!['>' as u8] =~= t);
            } else if t.len() == 2 {
                assert(src[pos + 1] == t[1]);
            } else {
                assert(t =~= seq![t[0]]);
            }
        },
    }
}

proof fn lemma_render_start(tokens: Seq<Token>)
    requires
        token_shapes(tokens),
        tokens.len() > 0,
    ensures
        render(tokens, true).len() > 0,
        !regular(render(tokens, true)[0]),
{
    let token = tokens[0];
    assert(token_shape(token));
    match token {
        Token::Word(_) => {},
        Token::Name(t) => {
            assert(render(tokens, true)[0] == t[0]);
        },
        Token::Closed(t) => {
            assert(t.len() > 0) by {
                if t.len() == 0 {
                    assert(seq!['<' as u8, '<' as u8].len() == 2);
                }
            }
            assert(render(tokens, true)[0] == t[0]);
        },
    }
}

proof fn lemma_lex_rendered(src: Seq<u8>, pos: int, tokens: Seq<Token>, open: bool)
    requires
        token_shapes(tokens),
        0 <= pos <= src.len(),
        src.skip(pos) == render(tokens, open),
    ensures
        lex(src, pos) == Some(settled(tokens)),
    decreases tokens.len(),
{
    if tokens.len() == 0 {
        assert(src.skip(pos).len() == 0);
        assert(settled(tokens) =~= Seq::empty());
    } else {
        let token = tokens[0];
        assert(token_shape(token));
        let rest = tokens.skip(1);
        assert forall|i: int| 0 <= i < rest.len() implies token_shape(#[trigger] rest[i]) by {
            assert(rest[i] == tokens[i + 1]);
        }
        let text = token_text(token);
        let tail = render(rest, leaves_open(token));
        let space: int = if needs_space(open, token) {
            1
        } else {
            0
        };
        let at = pos + space;
        let all = render(tokens, open);
        assert(all.len() == space + text.len() + tail.len());
        assert forall|k: int| pos <= k < src.len() implies src[k] == all[k - pos] by {
            assert(src.skip(pos)[k - pos] == src[k]);
        }
        assert(src.subrange(at, at + text.len()) =~= text);
        if leaves_open(token) && at + text.len() < src.len() {
            assert(tail.len() > 0);
            lemma_render_start(rest);
            assert(src[at + text.len()] == tail[0]);
        }
        lemma_found_again(src, at, token);
        if space == 1 {
            assert(src[pos] == 32);
            assert(lex(src, pos) == lex(src, at));
        }
        assert(src.skip(at + text.len()) =~= tail);
        lemma_lex_rendered(src, at + text.len(), rest, leaves_open(token));
        assert(seq![settled_token(token)] + settled(rest) =~= settled(tokens));
    }
}

proof fn lemma_render_settled(tokens: Seq<Token>, open: bool)
    ensures
        render(settled(tokens), open) == render(tokens, open),
    decreases tokens.len(),
{
    if tokens.len() > 0 {
        lemma_render_settled(tokens.skip(1), leaves_open(tokens[0]));
        assert(settled(tokens).skip(1) =~= settled(tokens.skip(1)));
        assert(settled(tokens)[0] == settled_token(tokens[0]));
        if let Token::Word(t) = tokens[0] {
            if number::parse_number(t) is Some {
                number::number_keeps_its_value(t);
            }
        }
    }
}

/// Reading the canonical form gives the tokens back, numbers in their
/// shortest spelling, and writing those gives the canonical form again. A
/// hex string whose first digit is a `<` is the exception: the form would
/// open a dictionary there.
pub proof fn canonical_form_reads_back(src: Seq<u8>)
    requires
        lex(src, 0) is Some,
        plain_hex(lex(src, 0)->0),
    ensures
        ({
            let tokens = lex(src, 0)->0;
            let out = render(tokens, false);
            &&& lex(out, 0) == Some(settled(tokens))
            &&& render(settled(tokens), false) == out
        }),
{
    let tokens = lex(src, 0)->0;
    let out = render(tokens, false);
    lemma_lexed_shapes(src, 0);
    assert(out.skip(0) =~= out);
    lemma_lex_rendered(out, 0, tokens, false);
    lemma_render_settled(tokens, false);
}

/// Whether a token is a literal string, which is kept as it is.
pub open spec fn is_literal(token: Token) -> bool {
    match token {
        Token::Closed(t) => t.len() > 0 && t[0] == '(' as u8,
        _ => false,
    }
}

/// Whether a token is a string in hex digits.
pub open spec fn is_hex(token: Token) -> bool {
    match token {
        Token::Closed(t) => t.len() >= 2 && t[0] == '<' as u8 && t.last() == '>' as u8,
        _ => false,
    }
}

/// Whether a token is a literal string or holds no whitespace, and is a string
/// of either form or holds no sign that starts a comment.
pub open spec fn literal_or_solid(token: Token) -> bool {
    !is_literal(token) ==> forall|i: int|
        0 <= i < token_text(token).len() ==> !whitespace(#[trigger] token_text(token)[i]) && (
        is_hex(token) || token_text(token)[i] != '%' as u8)
}

proof fn lemma_found_solid(src: Seq<u8>, pos: int)
    requires
        0 <= pos < src.len(),
        lex_at(src, pos) is Found,
    ensures
        literal_or_solid(lex_at(src, pos)->Found_0),
{
    let token = lex_at(src, pos)->Found_0;
    let text = token_text(token);
    let b = src[pos];
    lemma_word_end(src, pos);
    lemma_word_end(src, pos + 1);
    lemma_angle_end(src, pos + 1);
    lemma_string_end(src, pos, 0);
    match token {
        Token::Word(w) => {
            assert(regular_only(w));
            lemma_rewritten_regular(w);
        },
        Token::Name(t) => {
            assert forall|i: int| 0 <= i < t.len() implies !whitespace(#[trigger] t[i]) && t[i]
                != '%' as u8 by {
                assert(t[i] == src[pos + i]);
            }
        },
        Token::Closed(t) => {
            if b == '(' as u8 {
                assert(t[0] == b);
            } else if b == '<' as u8 && !(pos + 1 < src.len() && src[pos + 1] == b) {
                let inner = src.subrange(pos + 1, angle_end(src, pos + 1)->0);
                lemma_solid(inner);
                assert(t.last() == '>' as u8);
                assert forall|i: int| 0 <= i < t.len() implies !whitespace(#[trigger] t[i]) by {
                    if 1 <= i < t.len() - 1 {
                        assert(t[i] == solid(inner)[i - 1]);
                    }
                }
            }
        },
    }
}

proof fn lemma_lexed_solid(src: Seq<u8>, pos: int)
    requires
        0 <= pos,
        lex(src, pos) is Some,
    ensures
        forall|i: int| 0 <= i < lex(src, pos)->0.len() ==> literal_or_solid(
            #[trigger] lex(src, pos)->0[i],
        ),
    decreases src.len() - pos,
{
    if pos < src.len() {
        lemma_lex_at(src, pos);
        match lex_at(src, pos) {
            Lexed::Malformed => {},
            Lexed::Dropped(next) => {
                lemma_lexed_solid(src, next);
            },
            Lexed::Found(token, next) => {
                lemma_lexed_solid(src, next);
                lemma_found_solid(src, pos);
                let rest = lex(src, next)->0;
                let all = lex(src, pos)->0;
                assert forall|i: int| 0 <= i < all.len() implies literal_or_solid(
                    #[trigger] all[i],
                ) by {
                    if i > 0 {
                        assert(all[i] == rest[i - 1]);
                    }
                }
            },
        }
    }
}

/// Where the text of the token `i` starts among the tokens written out.
pub open spec fn start_of(tokens: Seq<Token>, open: bool, i: int) -> int
    decreases i,
{
    let space: int = if needs_space(open, tokens[0]) {
        1
    } else {
        0
    };
    if i <= 0 {
        space
    } else {
        space + token_text(tokens[0]).len() + start_of(
            tokens.skip(1),
            leaves_open(tokens[0]),
            i - 1,
        )
    }
}

/// Where the text of the token `i` ends.
pub open spec fn end_of(tokens: Seq<Token>, open: bool, i: int) -> int {
    start_of(tokens, open, i) + token_text(tokens[i]).len()
}

proof fn lemma_places(tokens: Seq<Token>, open: bool, i: int)
    requires
        0 <= i < tokens.len(),
    ensures
        0 <= start_of(tokens, open, i) <= end_of(tokens, open, i) <= render(tokens, open).len(),
        render(tokens, open).subrange(start_of(tokens, open, i), end_of(tokens, open, i))
            == token_text(tokens[i]),
        i + 1 == tokens.len() ==> end_of(tokens, open, i) == render(tokens, open).len(),
        i + 1 < tokens.len() ==> {
            let gap = start_of(tokens, open, i + 1) - end_of(tokens, open, i);
            gap == 0 || gap == 1 && render(tokens, open)[end_of(tokens, open, i)] == 32
        },
    decreases tokens.len(),
{
    let all = render(tokens, open);
    let text = token_text(tokens[0]);
    let rest = tokens.skip(1);
    let tail = render(rest, leaves_open(tokens[0]));
    let space: int = if needs_space(open, tokens[0]) {
        1
    } else {
        0
    };
    let shift = space + text.len();
    if i == 0 {
        assert(all.subrange(space, shift) =~= text);
        if tokens.len() > 1 {
            assert(start_of(tokens, open, 1) == shift + start_of(rest, leaves_open(tokens[0]), 0));
            lemma_places(rest, leaves_open(tokens[0]), 0);
            if needs_space(leaves_open(tokens[0]), rest[0]) {
                assert(all[shift] == tail[0]);
            }
        }
    } else {
        lemma_places(rest, leaves_open(tokens[0]), i - 1);
        assert(rest[i - 1] == tokens[i]);
        let start = start_of(rest, leaves_open(tokens[0]), i - 1);
        let end = end_of(rest, leaves_open(tokens[0]), i - 1);
        assert(all.subrange(shift + start, shift + end) =~= tail.subrange(start, end));
        if i + 1 < tokens.len() {
            lemma_places(rest, leaves_open(tokens[0]), i);
            if start_of(rest, leaves_open(tokens[0]), i) == end + 1 {
                assert(all[shift + end] == tail[end]);
            }
        }
    }
}

/// The canonical form is the texts of the tokens one after the other, from the
/// first byte to the last, with nothing or one space between two of them;
/// outside literal strings no text holds whitespace, and outside strings none
/// holds the sign that starts a comment.
pub proof fn spaces_are_single(src: Seq<u8>, i: int)
    requires
        lex(src, 0) is Some,
        0 <= i < lex(src, 0)->0.len(),
    ensures
        ({
            let tokens = lex(src, 0)->0;
            let out = render(tokens, false);
            let start = start_of(tokens, false, i);
            let end = end_of(tokens, false, i);
            let next = start_of(tokens, false, i + 1);
            &&& 0 <= start <= end <= out.len()
            &&& out.subrange(start, end) == token_text(tokens[i])
            &&& literal_or_solid(tokens[i])
            &&& i == 0 ==> start == 0
            &&& i + 1 == tokens.len() ==> end == out.len()
            &&& i + 1 < tokens.len() ==> next == end || next == end + 1 && out[end] == 32
        }),
{
    lemma_lexed_solid(src, 0);
    lemma_places(lex(src, 0)->0, false, i);
}

} // verus!
