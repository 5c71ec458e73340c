//! Splitting a command line into words and operator tokens.

use vstd::prelude::*;
use crate::text::{char_lists, chars_of, is_ascii_digit, is_digit, is_white_space, is_whitespace, strings_of, texts};

verus! {

/// The lexer's state between two characters of the input.
pub struct LexState {
    /// The tokens emitted so far.
    pub tokens: Seq<Seq<char>>,
    /// The word being read.
    pub cur: Seq<char>,
    /// Inside a single-quoted section.
    pub single: bool,
    /// Inside a double-quoted section.
    pub double: bool,
    /// The previous character was an unconsumed backslash.
    pub escaped: bool,
    /// A word has been started (possibly an empty quoted one).
    pub active: bool,
}

/// The state before the first character.
pub open spec fn lex_start() -> LexState {
    LexState {
        tokens: Seq::empty(),
        cur: Seq::empty(),
        single: false,
        double: false,
        escaped: false,
        active: false,
    }
}

/// Ends the current word, if one was started.
pub open spec fn flush(st: LexState) -> LexState {
    if st.active {
        LexState { tokens: st.tokens.push(st.cur), cur: Seq::empty(), active: false, ..st }
    } else {
        st
    }
}

/// The operator that starts with the `<` or `>` at `i`, and the index after it:
/// a doubled operator (`<<`, `>>`, with `<<-` for the tab-stripping
/// here-document), a duplication (`>&`, optionally followed by one digit), or
/// the single character.
pub open spec fn redirect_operator(s: Seq<char>, i: int) -> (int, Seq<char>) {
    let c = s[i];
    if i + 1 < s.len() && s[i + 1] == c {
        if c == '<' && i + 2 < s.len() && s[i + 2] == '-' {
            (i + 3, seq![c, c, '-'])
        } else {
            (i + 2, seq![c, c])
        }
    } else if i + 1 < s.len() && s[i + 1] == '&' {
        if i + 2 < s.len() && is_digit(s[i + 2]) {
            (i + 3, seq![c, '&', s[i + 2]])
        } else {
            (i + 2, seq![c, '&'])
        }
    } else {
        (i + 1, seq![c])
    }
}

/// The operator that starts with the digit at `i`, which is followed by `<`
/// or `>`: optionally extended by `>` (as in `2>>`) or by `&` and one digit
/// (as in `2>&1`).
pub open spec fn fd_operator(s: Seq<char>, i: int) -> (int, Seq<char>) {
    let op = seq![s[i], s[i + 1]];
    if i + 2 < s.len() && s[i + 2] == '>' {
        (i + 3, op.push('>'))
    } else if i + 2 < s.len() && s[i + 2] == '&' {
        if i + 3 < s.len() && is_digit(s[i + 3]) {
            (i + 4, op.push('&').push(s[i + 3]))
        } else {
            (i + 3, op.push('&'))
        }
    } else {
        (i + 2, op)
    }
}

/// Whether the digit at `i` opens a redirection operator such as `2>`.
pub open spec fn starts_fd_operator(s: Seq<char>, i: int, st: LexState) -> bool {
    &&& is_digit(s[i])
    &&& st.cur.len() == 0
    &&& i + 1 < s.len()
    &&& (s[i + 1] == '<' || s[i + 1] == '>')
}

/// Reads the character at `i` (and, for operators, the ones after it): the
/// index of the next unread character and the new state.
pub open spec fn lex_step(s: Seq<char>, i: int, st: LexState) -> (int, LexState) {
    let c = s[i];
    if st.escaped {
        (i + 1, LexState { cur: st.cur.push(c), active: true, escaped: false, ..st })
    } else if st.single {
        if c == '\'' {
            (i + 1, LexState { single: false, ..st })
        } else {
            (i + 1, LexState { cur: st.cur.push(c), ..st })
        }
    } else if st.double {
        if c == '"' {
            (i + 1, LexState { double: false, ..st })
        } else if c == '\\' {
            (i + 1, LexState { escaped: true, ..st })
        } else {
            (i + 1, LexState { cur: st.cur.push(c), ..st })
        }
    } else if c == '\\' {
        (i + 1, LexState { escaped: true, active: true, ..st })
    } else if c == '\'' {
        (i + 1, LexState { single: true, active: true, ..st })
    } else if c == '"' {
        (i + 1, LexState { double: true, active: true, ..st })
    } else if c == '<' || c == '>' {
        let f = flush(st);
        let (j, op) = redirect_operator(s, i);
        (j, LexState { tokens: f.tokens.push(op), ..f })
    } else if c == '|' {
        let f = flush(st);
        (i + 1, LexState { tokens: f.tokens.push(seq!['|']), ..f })
    } else if is_white_space(c) {
        (i + 1, flush(st))
    } else if starts_fd_operator(s, i, st) {
        let (j, op) = fd_operator(s, i);
        (j, LexState { tokens: st.tokens.push(op), active: false, ..st })
    } else {
        (i + 1, LexState { cur: st.cur.push(c), active: true, ..st })
    }
}

/// The state after reading `s` from index `i` on, starting in `st`.
pub open spec fn lex_run(s: Seq<char>, i: int, st: LexState) -> LexState
    decreases s.len() - i,
{
    if i < 0 || i >= s.len() {
        st
    } else {
        let (j, next) = lex_step(s, i, st);
        if j <= i || j > s.len() {
            next
        } else {
            lex_run(s, j, next)
        }
    }
}

/// The tokens of a command line, or the message of the error that ends it: a
/// backslash with nothing after it, or a quote that is never closed.
pub open spec fn tokenize_spec(s: Seq<char>) -> Result<Seq<Seq<char>>, Seq<char>> {
    let st = lex_run(s, 0, lex_start());
    if st.escaped {
        Err("ERR trailing Backslashes"@)
    } else if st.single || st.double {
        Err("ERR unterminated quote"@)
    } else if st.active {
        Ok(st.tokens.push(st.cur))
    } else {
        Ok(st.tokens)
    }
}

/// The executable lexer state.
struct Lexer {
    tokens: Vec<Vec<char>>,
    cur: Vec<char>,
    single: bool,
    double: bool,
    escaped: bool,
    active: bool,
}

impl Lexer {
    spec fn state(&self) -> LexState {
        LexState {
            tokens: char_lists(self.tokens@),
            cur: self.cur@,
            single: self.single,
            double: self.double,
            escaped: self.escaped,
            active: self.active,
        }
    }

    fn emit(&mut self, t: Vec<char>)
        ensures
            final(self).state() == (LexState { tokens: old(self).state().tokens.push(t@), ..old(self).state() }),
    {
        let ghost old_tokens = self.tokens@;
        assert(char_lists(old_tokens).len() == old_tokens.len());
        self.tokens.push(t);
        assert(char_lists(self.tokens@) =~= char_lists(old_tokens).push(t@));
    }

    fn flush(&mut self)
        ensures
            final(self).state() == flush(old(self).state()),
    {
        if self.active {
            let mut word: Vec<char> = Vec::new();
            std::mem::swap(&mut word, &mut self.cur);
            self.emit(word);
            self.active = false;
        }
    }

    /// Reads the operator that starts with the `<` or `>` at `i`.
    fn redirect_operator(s: &Vec<char>, i: usize) -> (r: (usize, Vec<char>))
        requires
            i < s.len(),
        ensures
            r.0 as int == redirect_operator(s@, i as int).0,
            r.1@ == redirect_operator(s@, i as int).1,
            i < r.0 <= s.len(),
    {
        let c = s[i];
        let mut op: Vec<char> = Vec::new();
        op.push(c);
        if i + 1 < s.len() && s[i + 1] == c {
            op.push(c);
            if c == '<' && i + 2 < s.len() && s[i + 2] == '-' {
                op.push('-');
                assert(op@ == seq![c, c, '-']);
                (i + 3, op)
            } else {
                assert(op@ == seq![c, c]);
                (i + 2, op)
            }
        } else if i + 1 < s.len() && s[i + 1] == '&' {
            op.push('&');
            if i + 2 < s.len() && is_ascii_digit(s[i + 2]) {
                op.push(s[i + 2]);
                assert(op@ == seq![c, '&', s@[i + 2]]);
                (i + 3, op)
            } else {
                assert(op@ == seq![c, '&']);
                (i + 2, op)
            }
        } else {
            assert(op@ == seq![c]);
            (i + 1, op)
        }
    }

    /// Reads the operator that starts with a digit followed by `<` or `>`.
    fn fd_operator(s: &Vec<char>, i: usize) -> (r: (usize, Vec<char>))
        requires
            i + 1 < s.len(),
        ensures
            r.0 as int == fd_operator(s@, i as int).0,
            r.1@ == fd_operator(s@, i as int).1,
            i < r.0 <= s.len(),
    {
        let mut op: Vec<char> = Vec::new();
        op.push(s[i]);
        op.push(s[i + 1]);
        assert(op@ == seq![s@[i as int], s@[i + 1]]);
        if i + 2 < s.len() && s[i + 2] == '>' {
            op.push('>');
            (i + 3, op)
        } else if i + 2 < s.len() && s[i + 2] == '&' {
            op.push('&');
            if i + 3 < s.len() && is_ascii_digit(s[i + 3]) {
                op.push(s[i + 3]);
                (i + 4, op)
            } else {
                (i + 3, op)
            }
        } else {
            (i + 2, op)
        }
    }

    /// Reads the character at `i` and those of an operator that it starts.
    fn step(&mut self, s: &Vec<char>, i: usize) -> (j: usize)
        requires
            i < s.len(),
        ensures
            (j as int, final(self).state()) == lex_step(s@, i as int, old(self).state()),
            i < j <= s.len(),
    {
        let c = s[i];
        if self.escaped {
            self.cur.push(c);
            self.active = true;
            self.escaped = false;
            i + 1
        } else if self.single {
            if c == '\'' {
                self.single = false;
            } else {
                self.cur.push(c);
            }
            i + 1
        } else if self.double {
            if c == '"' {
                self.double = false;
            } else if c == '\\' {
                self.escaped = true;
            } else {
                self.cur.push(c);
            }
            i + 1
        } else if c == '\\' {
            self.escaped = true;
            self.active = true;
            i + 1
        } else if c == '\'' {
            self.single = true;
            self.active = true;
            i + 1
        } else if c == '"' {
            self.double = true;
            self.active = true;
            i + 1
        } else if c == '<' || c == '>' {
            self.flush();
            let (j, op) = Lexer::redirect_operator(s, i);
            self.emit(op);
            j
        } else if c == '|' {
            self.flush();
            let mut op: Vec<char> = Vec::new();
            op.push('|');
            assert(op@ == seq!['|']);
            self.emit(op);
            i + 1
        } else if is_whitespace(c) {
            self.flush();
            i + 1
        } else if is_ascii_digit(c) && self.cur.len() == 0 && i + 1 < s.len() && (s[i + 1] == '<'
            || s[i + 1] == '>') {
            let (j, op) = Lexer::fd_operator(s, i);
            self.emit(op);
            self.active = false;
            j
        } else {
            self.cur.push(c);
            self.active = true;
            i + 1
        }
    }
}

/// Splits a command line into tokens.
///
/// Whitespace separates words; single quotes keep their content literally;
/// double quotes keep it too, except that a backslash takes the next character
/// literally; outside quotes a backslash does the same. `|` is a token of its
/// own, and so are the redirection operators `<`, `>`, `<<`, `>>`, `<<-`,
/// `>&`, `>&N`, `N>`, `N<`, `N>>`, `N>&` and `N>&M` (N, M one digit), which
/// also end the word before them. A backslash at the very end, or a quote
/// that is never closed, is an error.
pub fn tokenize(input: &str) -> (r: Result<Vec<String>, &'static str>)
    ensures
        match r {
            Ok(tokens) => tokenize_spec(input@) == Ok::<Seq<Seq<char>>, Seq<char>>(texts(tokens@)),
            Err(e) => tokenize_spec(input@) == Err::<Seq<Seq<char>>, Seq<char>>(e@),
        },
{
    let s = chars_of(input);
    let mut lx = Lexer {
        tokens: Vec::new(),
        cur: Vec::new(),
        single: false,
        double: false,
        escaped: false,
        active: false,
    };
    assert(lx.state() == lex_start()) by {
        assert(char_lists(lx.tokens@) =~= Seq::<Seq<char>>::empty());
    }
    let mut i: usize = 0;
    while i < s.len()
        invariant
            i <= s.len(),
            lex_run(s@, i as int, lx.state()) == lex_run(s@, 0, lex_start()),
        decreases s.len() - i,
    {
        i = lx.step(&s, i);
    }
    if lx.escaped {
        return Err("ERR trailing Backslashes");
    }
    if lx.single || lx.double {
        return Err("ERR unterminated quote");
    }
    if lx.active {
        let mut word: Vec<char> = Vec::new();
        std::mem::swap(&mut word, &mut lx.cur);
        lx.emit(word);
    }
    Ok(strings_of(&lx.tokens))
}

/// A character that neither quotes nor escapes.
pub open spec fn is_quoting_char(c: char) -> bool {
    c == '\\' || c == '\'' || c == '"'
}

/// A character that stands for itself in an unquoted word.
pub open spec fn is_word_char(c: char) -> bool {
    &&& !is_quoting_char(c)
    &&& !is_white_space(c)
    &&& c != '<'
    &&& c != '>'
    &&& c != '|'
}

proof fn lemma_run_unquoted(s: Seq<char>, i: int, st: LexState)
    requires
        0 <= i <= s.len(),
        forall|k: int| i <= k < s.len() ==> !is_quoting_char(#[trigger] s[k]),
        !st.escaped && !st.single && !st.double,
    ensures
        ({
            let r = lex_run(s, i, st);
            !r.escaped && !r.single && !r.double
        }),
    decreases s.len() - i,
{
    if i < s.len() {
        let (j, next) = lex_step(s, i, st);
        assert(!is_quoting_char(s[i]));
        if j > i && j <= s.len() {
            lemma_run_unquoted(s, j, next);
        }
    }
}

/// A line without backslashes and quotes always splits into tokens: the two
/// errors of `tokenize` come only from escaping and quoting.
pub proof fn law_unquoted_line_tokenizes(s: Seq<char>)
    requires
        forall|k: int| 0 <= k < s.len() ==> !is_quoting_char(#[trigger] s[k]),
    ensures
        tokenize_spec(s) is Ok,
{
    lemma_run_unquoted(s, 0, lex_start());
}

proof fn lemma_run_in_single_quotes(s: Seq<char>, i: int, k: int, st: LexState)
    requires
        0 <= i <= k < s.len(),
        s[k] == '\'',
        forall|m: int| i <= m < k ==> #[trigger] s[m] != '\'',
        st.single && !st.escaped,
    ensures
        lex_run(s, i, st) == lex_run(
            s,
            k + 1,
            LexState { cur: st.cur + s.subrange(i, k), single: false, ..st },
        ),
    decreases k - i,
{
    if i == k {
        assert(st.cur + s.subrange(i, k) =~= st.cur);
    } else {
        let next = LexState { cur: st.cur.push(s[i]), ..st };
        lemma_run_in_single_quotes(s, i + 1, k, next);
        assert(next.cur + s.subrange(i + 1, k) =~= st.cur + s.subrange(i, k));
    }
}

/// Single quotes keep what they enclose literally: a single-quoted text
/// without a single quote inside is one token, that text.
pub proof fn law_single_quotes_are_literal(w: Seq<char>)
    requires
        forall|k: int| 0 <= k < w.len() ==> #[trigger] w[k] != '\'',
    ensures
        tokenize_spec(seq!['\''] + w + seq!['\'']) == Ok::<Seq<Seq<char>>, Seq<char>>(seq![w]),
{
    let s = seq!['\''] + w + seq!['\''];
    let st1 = LexState { single: true, active: true, ..lex_start() };
    assert(lex_step(s, 0, lex_start()) == (1int, st1));
    assert(lex_run(s, 0, lex_start()) == lex_run(s, 1, st1));
    assert forall|m: int| 1 <= m < s.len() - 1 implies #[trigger] s[m] != '\'' by {
        assert(s[m] == w[m - 1]);
    }
    lemma_run_in_single_quotes(s, 1, s.len() - 1, st1);
    assert(s.subrange(1, s.len() - 1) =~= w);
    assert(Seq::<char>::empty() + w =~= w);
}

proof fn lemma_run_word(s: Seq<char>, i: int, st: LexState)
    requires
        0 <= i <= s.len(),
        forall|k: int| i <= k < s.len() ==> is_word_char(#[trigger] s[k]),
        !st.escaped && !st.single && !st.double,
    ensures
        lex_run(s, i, st) == (if i < s.len() {
            LexState { cur: st.cur + s.skip(i), active: true, ..st }
        } else {
            st
        }),
    decreases s.len() - i,
{
    if i < s.len() {
        assert(is_word_char(s[i]));
        let next = LexState { cur: st.cur.push(s[i]), active: true, ..st };
        assert(lex_step(s, i, st) == (i + 1, next));
        lemma_run_word(s, i + 1, next);
        assert(next.cur + s.skip(i + 1) =~= st.cur + s.skip(i));
    }
}

/// A nonempty run of characters that are neither blanks, quotes, backslashes
/// nor operator characters is a single token, itself.
pub proof fn law_plain_word_is_one_token(w: Seq<char>)
    requires
        w.len() > 0,
        forall|k: int| 0 <= k < w.len() ==> is_word_char(#[trigger] w[k]),
    ensures
        tokenize_spec(w) == Ok::<Seq<Seq<char>>, Seq<char>>(seq![w]),
{
    lemma_run_word(w, 0, lex_start());
    assert(Seq::<char>::empty() + w.skip(0) =~= w);
    assert(Seq::<Seq<char>>::empty().push(w) =~= seq![w]);
}

proof fn lemma_run_in_double_quotes(s: Seq<char>, i: int, k: int, st: LexState)
    requires
        0 <= i <= k < s.len(),
        s[k] == '"',
        forall|m: int| i <= m < k ==> #[trigger] s[m] != '"' && s[m] != '\\',
        st.double && !st.single && !st.escaped,
    ensures
        lex_run(s, i, st) == lex_run(
            s,
            k + 1,
            LexState { cur: st.cur + s.subrange(i, k), double: false, ..st },
        ),
    decreases k - i,
{
    if i == k {
        assert(st.cur + s.subrange(i, k) =~= st.cur);
    } else {
        assert(s[i] != '"' && s[i] != '\\');
        let next = LexState { cur: st.cur.push(s[i]), ..st };
        assert(lex_step(s, i, st) == (i + 1, next));
        lemma_run_in_double_quotes(s, i + 1, k, next);
        assert(next.cur + s.subrange(i + 1, k) =~= st.cur + s.subrange(i, k));
    }
}

/// Double quotes keep what they enclose literally, apart from `"` and `\`:
/// a double-quoted text without those is one token, that text (single
/// quotes, blanks and operator characters inside it included).
pub proof fn law_double_quotes_are_literal(w: Seq<char>)
    requires
        forall|k: int| 0 <= k < w.len() ==> #[trigger] w[k] != '"' && w[k] != '\\',
    ensures
        tokenize_spec(seq!['"'] + w + seq!['"']) == Ok::<Seq<Seq<char>>, Seq<char>>(seq![w]),
{
    let s = seq!['"'] + w + seq!['"'];
    let st1 = LexState { double: true, active: true, ..lex_start() };
    assert(lex_step(s, 0, lex_start()) == (1int, st1));
    assert(lex_run(s, 0, lex_start()) == lex_run(s, 1, st1));
    assert forall|m: int| 1 <= m < s.len() - 1 implies #[trigger] s[m] != '"' && s[m] != '\\' by {
        assert(s[m] == w[m - 1]);
    }
    lemma_run_in_double_quotes(s, 1, s.len() - 1, st1);
    assert(s.subrange(1, s.len() - 1) =~= w);
    assert(Seq::<char>::empty() + w =~= w);
}

} // verus!
