//! Tokenizer: turns raw document text into lowercase, letters-only words.
//!
//! The text is first normalised: a hyphen directly followed by a line break
//! is removed (re-joining a word wrapped across lines), and every other line
//! break becomes a space. The buffer is then cut into chunks at single
//! spaces. Each chunk keeps its letters only, lowercased; a chunk with no
//! letter (an empty one between two spaces, or one of digits and
//! punctuation) yields no token, and the sequence goes on. Whitespace is never
//! a letter, so whitespace around chunks never reaches a token.
use vstd::prelude::*;
use crate::text::{chars_of, is_letter, letter, lowercase_of, push_char, to_lowercase};

verus! {

/// The text with hyphen-wrapped line breaks removed and other line breaks turned into spaces.
pub open spec fn join_lines(s: Seq<char>) -> Seq<char>
    decreases s.len(),
{
    if s.len() == 0 {
        s
    } else if s.len() >= 2 && s[0] == '-' && s[1] == '\n' {
        join_lines(s.subrange(2, s.len() as int))
    } else if s[0] == '\n' {
        seq![' '] + join_lines(s.drop_first())
    } else {
        seq![s[0]] + join_lines(s.drop_first())
    }
}

/// The token a chunk with letters `word` yields: none when it has no letter.
pub open spec fn emit(word: Seq<char>) -> Seq<Seq<char>> {
    if word.len() == 0 {
        seq![]
    } else {
        seq![lowercase_of(word)]
    }
}

/// The tokens of the normalised buffer `s`, read inside a chunk whose letters so far are `word`.
pub open spec fn scan(s: Seq<char>, word: Seq<char>) -> Seq<Seq<char>>
    decreases s.len(),
{
    if s.len() == 0 {
        emit(word)
    } else if s[0] == ' ' {
        emit(word) + scan(s.drop_first(), seq![])
    } else {
        scan(s.drop_first(), if is_letter(s[0]) { word.push(s[0]) } else { word })
    }
}

/// The tokens of a raw text: the normalised text is cut at each space, and
/// every chunk that holds a letter gives one token, its letters lowercased.
pub open spec fn tokens_of(text: Seq<char>) -> Seq<Seq<char>> {
    scan(join_lines(text), seq![])
}

/// The views of a vector of strings.
pub open spec fn views(v: Seq<String>) -> Seq<Seq<char>> {
    v.map_values(|s: String| s@)
}

/// A lazy sequence of the tokens of one text.
pub struct Lexer {
    text: Vec<char>,
    pos: usize,
}

impl View for Lexer {
    type V = Seq<Seq<char>>;

    /// The tokens still to come.
    closed spec fn view(&self) -> Seq<Seq<char>> {
        scan(self.text@.subrange(self.pos as int, self.text@.len() as int), seq![])
    }
}

fn normalise(s: &Vec<char>) -> (r: Vec<char>)
    ensures
        r@ == join_lines(s@),
{
    let n = s.len();
    let mut out: Vec<char> = Vec::new();
    let mut i: usize = 0;
    assert(s@.subrange(0, n as int) =~= s@);
    assert(out@ + join_lines(s@) =~= join_lines(s@));
    while i < n
        invariant
            n == s@.len(),
            i <= n,
            out@ + join_lines(s@.subrange(i as int, n as int)) == join_lines(s@),
        decreases n - i,
    {
        let ghost rest = s@.subrange(i as int, n as int);
        if i + 1 < n && s[i] == '-' && s[i + 1] == '\n' {
            assert(rest.subrange(2, rest.len() as int) =~= s@.subrange(i + 2, n as int));
            i = i + 2;
        } else {
            assert(rest.drop_first() =~= s@.subrange(i + 1, n as int));
            if s[i] == '\n' {
                out.push(' ');
            } else {
                out.push(s[i]);
            }
            proof {
                assert(out@ + join_lines(s@.subrange(i + 1, n as int)) =~= out@.drop_last() + (
                seq![out@.last()] + join_lines(rest.drop_first())));
            }
            i = i + 1;
        }
    }
    assert(s@.subrange(n as int, n as int) =~= Seq::<char>::empty());
    assert(out@ =~= out@ + join_lines(Seq::<char>::empty()));
    out
}

impl Lexer {
    /// Whether the position lies within the text.
    pub closed spec fn wf(&self) -> bool {
        self.pos <= self.text@.len()
    }

    /// A lexer over the tokens of `input`.
    pub fn new(input: &str) -> (r: Lexer)
        ensures
            r.wf(),
            r@ == tokens_of(input@),
    {
        let raw = chars_of(input);
        let text = normalise(&raw);
        let r = Lexer { text, pos: 0 };
        assert(r.text@.subrange(0, r.text@.len() as int) =~= r.text@);
        r
    }

    /// The next token, if any is left.
    pub fn next(&mut self) -> (r: Option<String>)
        requires
            old(self).wf(),
        ensures
            final(self).wf(),
            old(self)@.len() == 0 ==> r is None && final(self)@ == old(self)@,
            old(self)@.len() > 0 ==> r is Some && r->0@ == old(self)@[0] && final(self)@
                == old(self)@.drop_first(),
    {
        let n = self.text.len();
        let mut word = String::new();
        let mut has_letter = false;
        let ghost start = self@;
        assert(start == old(self)@);
        while self.pos < n
            invariant
                n == self.text@.len(),
                self.pos <= n,
                start == old(self)@,
                has_letter == (word@.len() > 0),
                start == scan(self.text@.subrange(self.pos as int, n as int), word@),
            decreases n - self.pos,
        {
            let c = self.text[self.pos];
            let ghost rest = self.text@.subrange(self.pos as int, n as int);
            let ghost w0 = word@;
            assert(rest.drop_first() =~= self.text@.subrange(self.pos + 1, n as int));
            assert(rest[0] == c);
            self.pos = self.pos + 1;
            if c == ' ' {
                assert(start == emit(w0) + self@);
                if has_letter {
                    let t = to_lowercase(&word);
                    assert(emit(word@) + self@ =~= seq![t@] + self@);
                    assert(start.drop_first() =~= self@);
                    return Some(t);
                }
                assert(emit(word@) + self@ =~= self@);
                word = String::new();
            } else if letter(c) {
                push_char(&mut word, c);
                has_letter = true;
            }
        }
        assert(self.text@.subrange(self.pos as int, n as int) =~= Seq::<char>::empty());
        if has_letter {
            let t = to_lowercase(&word);
            return Some(t);
        }
        None
    }

    /// All the tokens still to come, in order.
    pub fn tokens(self) -> (r: Vec<String>)
        requires
            self.wf(),
        ensures
            views(r@) == self@,
    {
        let mut lexer = self;
        let mut out: Vec<String> = Vec::new();
        loop
            invariant
                lexer.wf(),
                views(out@) + lexer@ == self@,
            decreases lexer@.len(),
        {
            let next = lexer.next();
            match next {
                Some(t) => {
                    out.push(t);
                    assert(views(out@) =~= views(out@.drop_last()).push(out@.last()@));
                    assert(views(out@) + lexer@ =~= views(out@.drop_last()) + (seq![out@.last()@] + lexer@));
                },
                None => {
                    assert(views(out@) + lexer@ =~= views(out@));
                    return out;
                },
            }
        }
    }
}

/// The tokens of `text`, in order.
pub fn tokenize(text: &str) -> (r: Vec<String>)
    ensures
        views(r@) == tokens_of(text@),
{
    Lexer::new(text).tokens()
}

/// Words joined by single spaces.
pub open spec fn join_words(ws: Seq<Seq<char>>) -> Seq<char>
    decreases ws.len(),
{
    if ws.len() == 0 {
        seq![]
    } else if ws.len() == 1 {
        ws[0]
    } else {
        ws[0] + seq![' '] + join_words(ws.drop_first())
    }
}

/// A word as tokens are: made of letters, and its own lowercase form.
pub open spec fn is_plain_word(w: Seq<char>) -> bool {
    &&& w.len() > 0
    &&& forall|k: int| 0 <= k < w.len() ==> is_letter(#[trigger] w[k])
    &&& lowercase_of(w) == w
}

proof fn lemma_join_lines_no_break(s: Seq<char>)
    requires
        forall|k: int| 0 <= k < s.len() ==> s[k] != '\n',
    ensures
        join_lines(s) == s,
    decreases s.len(),
{
    if s.len() > 0 {
        lemma_join_lines_no_break(s.drop_first());
        assert(s =~= seq![s[0]] + s.drop_first());
    }
}

proof fn lemma_join_words_no_break(ws: Seq<Seq<char>>)
    requires
        forall|i: int| 0 <= i < ws.len() ==> is_plain_word(#[trigger] ws[i]),
    ensures
        forall|k: int| 0 <= k < join_words(ws).len() ==> join_words(ws)[k] != '\n',
    decreases ws.len(),
{
    if ws.len() == 1 {
        assert forall|k: int| 0 <= k < ws[0].len() implies ws[0][k] != '\n' by {
            assert(is_letter(ws[0][k]));
        }
    } else if ws.len() > 1 {
        let w = ws[0];
        assert(is_plain_word(ws[0]));
        lemma_join_words_no_break(ws.drop_first());
        let j = join_words(ws.drop_first());
        assert forall|k: int| 0 <= k < join_words(ws).len() implies join_words(ws)[k] != '\n' by {
            if k < w.len() {
                assert(join_words(ws)[k] == w[k]);
                assert(is_letter(w[k]));
            } else if k > w.len() {
                assert(join_words(ws)[k] == j[k - w.len() - 1]);
            }
        }
    }
}

proof fn lemma_scan_letters(u: Seq<char>, tail: Seq<char>, acc: Seq<char>)
    requires
        forall|k: int| 0 <= k < u.len() ==> is_letter(#[trigger] u[k]),
    ensures
        scan(u + tail, acc) == scan(tail, acc + u),
    decreases u.len(),
{
    if u.len() == 0 {
        assert(u + tail =~= tail);
        assert(acc + u =~= acc);
    } else {
        assert(is_letter(u[0]));
        assert((u + tail)[0] == u[0]);
        assert((u + tail).drop_first() =~= u.drop_first() + tail);
        lemma_scan_letters(u.drop_first(), tail, acc.push(u[0]));
        assert(acc.push(u[0]) + u.drop_first() =~= acc + u);
    }
}

proof fn lemma_scan_words(ws: Seq<Seq<char>>)
    requires
        forall|i: int| 0 <= i < ws.len() ==> is_plain_word(#[trigger] ws[i]),
    ensures
        scan(join_words(ws), seq![]) == ws,
    decreases ws.len(),
{
    if ws.len() == 0 {
        assert(emit(seq![]) =~= Seq::<Seq<char>>::empty());
    } else {
        let w = ws[0];
        assert(is_plain_word(w));
        let tail: Seq<char> = if ws.len() == 1 {
            seq![]
        } else {
            seq![' '] + join_words(ws.drop_first())
        };
        assert(join_words(ws) =~= w + tail);
        lemma_scan_letters(w, tail, seq![]);
        assert(Seq::<char>::empty() + w =~= w);
        if ws.len() == 1 {
            assert(ws =~= seq![w]);
        } else {
            assert(tail.drop_first() =~= join_words(ws.drop_first()));
            lemma_scan_words(ws.drop_first());
            assert(ws =~= seq![w] + ws.drop_first());
        }
    }
}

/// Tokenizing text that is already made of tokens gives them back unchanged:
/// lowercase, letters-only words joined by single spaces tokenize to the same words.
pub proof fn lemma_tokenize_idempotent(ws: Seq<Seq<char>>)
    requires
        forall|i: int| 0 <= i < ws.len() ==> is_plain_word(#[trigger] ws[i]),
    ensures
        tokens_of(join_words(ws)) == ws,
{
    lemma_join_words_no_break(ws);
    lemma_join_lines_no_break(join_words(ws));
    lemma_scan_words(ws);
}

} // verus!
