//! Pipelines, redirections and here-documents built from tokens.

use vstd::prelude::*;
use crate::lexer::{tokenize, tokenize_spec};
use crate::text::{
    lemma_split_flatten, lemma_split_nonempty, lemma_split_prefix, split_on,
    char_lists, chars_lit, chars_of, is_text, join, join_chars, owned, same_chars, string_of, texts, trim,
    trim_start_char, trim_start_matches, trim_ws,
};

verus! {

/// One redirection of a command: the file descriptor, the operator and its
/// target.
#[derive(Debug, PartialEq, Eq)]
pub struct Redirection {
    pub fd: i32,
    pub operand: String,
    pub target: String,
}

impl View for Redirection {
    type V = (i32, Seq<char>, Seq<char>);

    open spec fn view(&self) -> (i32, Seq<char>, Seq<char>) {
        (self.fd, self.operand@, self.target@)
    }
}

/// A simple command: its quoted arguments and its redirections, in order.
#[derive(Debug, PartialEq, Eq)]
pub struct Command {
    pub argv: Vec<String>,
    pub redirections: Vec<Redirection>,
}

/// The views of a sequence of redirections.
pub open spec fn redirection_views(v: Seq<Redirection>) -> Seq<(i32, Seq<char>, Seq<char>)> {
    v.map_values(|r: Redirection| r@)
}

impl View for Command {
    type V = (Seq<Seq<char>>, Seq<(i32, Seq<char>, Seq<char>)>);

    open spec fn view(&self) -> (Seq<Seq<char>>, Seq<(i32, Seq<char>, Seq<char>)>) {
        (texts(self.argv@), redirection_views(self.redirections@))
    }
}

/// The redirection operators that take part in `parse_redirections`.
pub open spec fn is_redirection(t: Seq<char>) -> bool {
    ||| t == "<"@
    ||| t == "<<"@
    ||| t == ">"@
    ||| t == ">>"@
    ||| t == "2>"@
    ||| t == "2>>"@
    ||| t == "2>&1"@
    ||| t == "1>&2"@
    ||| t == "&>"@
    ||| t == "1>"@
}

/// Whether `token` is one of the redirection operators `<`, `<<`, `>`, `>>`,
/// `2>`, `2>>`, `2>&1`, `1>&2`, `&>`, `1>`.
pub fn is_redirection_token(token: &str) -> (r: bool)
    ensures
        r == is_redirection(token@),
{
    let t = chars_of(token);
    is_text(&t, "<") || is_text(&t, "<<") || is_text(&t, ">") || is_text(&t, ">>") || is_text(
        &t,
        "2>",
    ) || is_text(&t, "2>>") || is_text(&t, "2>&1") || is_text(&t, "1>&2") || is_text(&t, "&>")
        || is_text(&t, "1>")
}

/// The file descriptor and operator of a redirection token.
pub open spec fn fd_with_op(t: Seq<char>) -> (i32, Seq<char>) {
    if t == "<"@ {
        (0, "<"@)
    } else if t == "<<"@ {
        (0, "<<"@)
    } else if t == ">"@ {
        (1, ">"@)
    } else if t == ">>"@ {
        (1, ">>"@)
    } else if t == "1>"@ {
        (1, ">"@)
    } else if t == "2>"@ {
        (2, ">"@)
    } else if t == "2>>"@ {
        (2, "2>>"@)
    } else if t == "2>&1"@ {
        (2, ">"@)
    } else {
        (2, t)
    }
}

/// The file descriptor that a redirection token names, and its operator.
pub fn parse_fd_with_op(token: &str) -> (r: (i32, String))
    ensures
        (r.0, r.1@) == fd_with_op(token@),
{
    let t = chars_of(token);
    if is_text(&t, "<") {
        (0, owned("<"))
    } else if is_text(&t, "<<") {
        (0, owned("<<"))
    } else if is_text(&t, ">") {
        (1, owned(">"))
    } else if is_text(&t, ">>") {
        (1, owned(">>"))
    } else if is_text(&t, "1>") {
        (1, owned(">"))
    } else if is_text(&t, "2>") {
        (2, owned(">"))
    } else if is_text(&t, "2>>") {
        (2, owned("2>>"))
    } else if is_text(&t, "2>&1") {
        (2, owned(">"))
    } else {
        (2, owned(token))
    }
}

/// Whether the last token is a pipe.
pub fn token_ended_with_pipe(tokens: &[String]) -> (r: bool)
    ensures
        r == (tokens@.len() > 0 && tokens@.last()@ == "|"@),
{
    if tokens.len() == 0 {
        false
    } else {
        let t = chars_of(tokens[tokens.len() - 1].as_str());
        is_text(&t, "|")
    }
}

/// Whether the text is a here-document operator.
pub open spec fn is_heredoc_operator(t: Seq<char>) -> bool {
    t == "<<"@ || t == "<<-"@
}

/// The first here-document operator at index `i` or later: its index, and
/// whether it is `<<-`, which strips leading tabs from the body.
pub open spec fn heredoc_operator_from(t: Seq<Seq<char>>, i: int) -> Option<(int, bool)>
    decreases t.len() - i,
{
    if i < 0 || i >= t.len() {
        None
    } else if t[i] == "<<"@ {
        Some((i, false))
    } else if t[i] == "<<-"@ {
        Some((i, true))
    } else {
        heredoc_operator_from(t, i + 1)
    }
}

/// The first here-document operator of a line's tokens: its index, and
/// whether it is `<<-`.
pub fn find_heredoc_operator(tokens: &[String]) -> (r: Option<(usize, bool)>)
    ensures
        match r {
            Some((k, strip)) => {
                &&& k < tokens@.len()
                &&& is_heredoc_operator(tokens@[k as int]@)
                &&& strip == (tokens@[k as int]@ == "<<-"@)
                &&& forall|j: int| 0 <= j < k ==> !is_heredoc_operator(#[trigger] tokens@[j]@)
                &&& heredoc_operator_from(texts(tokens@), 0) == Some((k as int, strip))
            },
            None => {
                &&& forall|j: int| 0 <= j < tokens@.len() ==> !is_heredoc_operator(#[trigger] tokens@[j]@)
                &&& heredoc_operator_from(texts(tokens@), 0) is None
            },
        },
{
    let mut i: usize = 0;
    while i < tokens.len()
        invariant
            i <= tokens.len(),
            forall|j: int| 0 <= j < i ==> !is_heredoc_operator(#[trigger] tokens@[j]@),
            heredoc_operator_from(texts(tokens@), 0) == heredoc_operator_from(texts(tokens@), i as int),
        decreases tokens.len() - i,
    {
        let t = chars_of(tokens[i].as_str());
        assert(texts(tokens@)[i as int] == tokens@[i as int]@);
        if is_text(&t, "<<") {
            proof {
                reveal_strlit("<<");
                reveal_strlit("<<-");
            }
            return Some((i, false));
        } else if is_text(&t, "<<-") {
            return Some((i, true));
        }
        i = i + 1;
    }
    None
}

/// The commands of a pipeline: the token runs between pipes. A pipe with no
/// command before or after it is an error; no tokens at all is no command.
pub open spec fn pipelines_spec(t: Seq<Seq<char>>) -> Result<Seq<Seq<Seq<char>>>, Seq<char>> {
    let segs = split_on(t, "|"@);
    if segs.len() > 1 && exists|k: int| 0 <= k < segs.len() && (#[trigger] segs[k]).len() == 0 {
        Err("ERR syntax error: empty command in pipeline"@)
    } else if segs.len() == 1 && segs[0].len() == 0 {
        Ok(Seq::empty())
    } else {
        Ok(segs)
    }
}

/// The texts of a list of commands.
pub open spec fn command_texts(v: Seq<Vec<String>>) -> Seq<Seq<Seq<char>>> {
    v.map_values(|c: Vec<String>| texts(c@))
}

/// Splits tokens into the commands of a pipeline at each `|`.
pub fn parse_pipelines(tokens: &[String]) -> (r: Result<Vec<Vec<String>>, &'static str>)
    ensures
        match r {
            Ok(cmds) => pipelines_spec(texts(tokens@)) == Ok::<Seq<Seq<Seq<char>>>, Seq<char>>(
                command_texts(cmds@),
            ),
            Err(e) => pipelines_spec(texts(tokens@)) == Err::<Seq<Seq<Seq<char>>>, Seq<char>>(e@),
        },
{
    let ghost t = texts(tokens@);
    let ghost pipe = "|"@;
    let mut list: Vec<Vec<String>> = Vec::new();
    let mut current: Vec<String> = Vec::new();
    let mut i: usize = 0;
    assert(t.take(0) =~= Seq::<Seq<char>>::empty());
    assert(command_texts(list@) =~= split_on(t.take(0), pipe).drop_last());
    while i < tokens.len()
        invariant
            i <= tokens.len(),
            t == texts(tokens@),
            pipe == "|"@,
            command_texts(list@) == split_on(t.take(i as int), pipe).drop_last(),
            texts(current@) == split_on(t.take(i as int), pipe).last(),
            forall|k: int|
                0 <= k < split_on(t.take(i as int), pipe).len() - 1 ==> (#[trigger] split_on(
                    t.take(i as int),
                    pipe,
                )[k]).len() > 0,
        decreases tokens.len() - i,
    {
        let ghost p = split_on(t.take(i as int), pipe);
        proof {
            lemma_split_nonempty(t.take(i as int), pipe);
            assert(t.take(i + 1).drop_last() =~= t.take(i as int));
            assert(t[i as int] == tokens@[i as int]@);
        }
        let tok = chars_of(tokens[i].as_str());
        if is_text(&tok, "|") {
            if current.len() == 0 {
                proof {
                    lemma_split_prefix(t, i as int, pipe);
                    let q = split_on(t, pipe);
                    assert(q[p.len() - 1].len() == 0);
                }
                return Err("ERR syntax error: empty command in pipeline");
            }
            let mut done: Vec<String> = Vec::new();
            std::mem::swap(&mut done, &mut current);
            let ghost old_list = list@;
            assert(command_texts(list@).len() == list@.len());
            list.push(done);
            assert(command_texts(list@) =~= command_texts(old_list).push(p.last()));
            assert(t.take(i + 1).last() == pipe);
            assert(split_on(t.take(i + 1), pipe) == p.push(Seq::empty()));
            assert(p.drop_last().push(p.last()) =~= p);
            assert(command_texts(list@) =~= split_on(t.take(i + 1), pipe).drop_last());
            assert(texts(current@) =~= Seq::<Seq<char>>::empty());
        } else {
            let ghost old_current = current@;
            current.push(tokens[i].clone());
            assert(texts(current@) =~= texts(old_current).push(t[i as int]));
            assert(split_on(t.take(i + 1), pipe).drop_last() =~= p.drop_last());
        }
        i = i + 1;
    }
    assert(t.take(tokens.len() as int) =~= t);
    proof {
        lemma_split_nonempty(t, pipe);
    }
    if token_ended_with_pipe(tokens) && current.len() == 0 {
        proof {
            assert(t.last() == tokens@.last()@);
        }
        return Err("ERR syntax error: empty command in pipeline");
    }
    if current.len() != 0 {
        let ghost old_list = list@;
        let ghost cur = texts(current@);
        assert(command_texts(list@).len() == list@.len());
        list.push(current);
        assert(command_texts(list@) =~= command_texts(old_list).push(cur));
        assert(split_on(t, pipe).drop_last().push(split_on(t, pipe).last()) =~= split_on(t, pipe));
        assert(command_texts(list@) =~= split_on(t, pipe));
    } else {
        proof {
            if t.len() > 0 {
                assert(t.last() == tokens@.last()@);
            }
        }
        assert(command_texts(list@) =~= Seq::<Seq<Seq<char>>>::empty());
    }
    Ok(list)
}

/// The commands of a valid pipeline hold every token that is not a pipe, in
/// order, and nothing else: none of them is empty or holds a pipe.
pub proof fn law_pipeline_partitions_tokens(t: Seq<Seq<char>>)
    requires
        pipelines_spec(t) is Ok,
    ensures
        ({
            let cmds = pipelines_spec(t)->Ok_0;
            &&& cmds.flatten() == t.filter(|x: Seq<char>| x != "|"@)
            &&& forall|k: int|
                0 <= k < cmds.len() ==> (#[trigger] cmds[k]).len() > 0 && !cmds[k].contains("|"@)
        }),
{
    let segs = split_on(t, "|"@);
    lemma_split_flatten(t, "|"@);
    lemma_split_nonempty(t, "|"@);
    let cmds = pipelines_spec(t)->Ok_0;
    cmds.lemma_flatten_and_flatten_alt_are_equivalent();
    if segs.len() == 1 && segs[0].len() == 0 {
        assert(segs.drop_last() =~= Seq::<Seq<Seq<char>>>::empty());
        assert(segs.flatten_alt() =~= Seq::<Seq<char>>::empty());
    }
}

/// An argument as `parse_redirections` keeps it: between single quotes.
pub open spec fn quoted(t: Seq<char>) -> Seq<char> {
    seq!['\''] + t + seq!['\'']
}

/// What `parse_redirections` yields for a command.
pub type CommandView = (Seq<Seq<char>>, Seq<(i32, Seq<char>, Seq<char>)>);

/// Puts the given arguments and redirections before those of a result.
pub open spec fn with_prefix(
    argv: Seq<Seq<char>>,
    redirs: Seq<(i32, Seq<char>, Seq<char>)>,
    rest: Result<CommandView, Seq<char>>,
) -> Result<CommandView, Seq<char>> {
    match rest {
        Ok((a, r)) => Ok((argv + a, redirs + r)),
        Err(e) => Err(e),
    }
}

/// The arguments and redirections of the tokens from index `i` on. A
/// redirection token takes the next token as its target, except `2>&1` and
/// `1>&2`, which carry theirs; a redirection token with no token after it is
/// an error.
pub open spec fn redirections_from(t: Seq<Seq<char>>, i: int) -> Result<CommandView, Seq<char>>
    decreases t.len() - i,
{
    if i < 0 || i >= t.len() {
        Ok((Seq::empty(), Seq::empty()))
    } else if is_redirection(t[i]) {
        if t[i] == "2>&1"@ {
            with_prefix(Seq::empty(), seq![(2i32, ">"@, "&1"@)], redirections_from(t, i + 1))
        } else if t[i] == "1>&2"@ {
            with_prefix(Seq::empty(), seq![(1i32, ">"@, "&2"@)], redirections_from(t, i + 1))
        } else if i + 1 < t.len() {
            let (fd, op) = fd_with_op(t[i]);
            with_prefix(Seq::empty(), seq![(fd, op, t[i + 1])], redirections_from(t, i + 2))
        } else {
            Err("ERR missing redirect target"@)
        }
    } else {
        with_prefix(seq![quoted(t[i])], Seq::empty(), redirections_from(t, i + 1))
    }
}

proof fn lemma_with_prefix_assoc(
    a1: Seq<Seq<char>>,
    r1: Seq<(i32, Seq<char>, Seq<char>)>,
    a2: Seq<Seq<char>>,
    r2: Seq<(i32, Seq<char>, Seq<char>)>,
    rest: Result<CommandView, Seq<char>>,
)
    ensures
        with_prefix(a1, r1, with_prefix(a2, r2, rest)) == with_prefix(a1 + a2, r1 + r2, rest),
{
    if let Ok((a, r)) = rest {
        assert(a1 + (a2 + a) =~= (a1 + a2) + a);
        assert(r1 + (r2 + r) =~= (r1 + r2) + r);
    }
}

/// Separates the arguments of a command from its redirections.
pub fn parse_redirections(tokens: &[String]) -> (r: Result<Command, &'static str>)
    ensures
        match r {
            Ok(cmd) => redirections_from(texts(tokens@), 0) == Ok::<CommandView, Seq<char>>(cmd@),
            Err(e) => redirections_from(texts(tokens@), 0) == Err::<CommandView, Seq<char>>(e@),
        },
{
    let ghost t = texts(tokens@);
    let mut argv: Vec<String> = Vec::new();
    let mut redirections: Vec<Redirection> = Vec::new();
    let mut i: usize = 0;
    assert(with_prefix(Seq::empty(), Seq::empty(), redirections_from(t, 0)) == redirections_from(t, 0)) by {
        if let Ok((a, r)) = redirections_from(t, 0) {
            assert(Seq::<Seq<char>>::empty() + a =~= a);
            assert(Seq::<(i32, Seq<char>, Seq<char>)>::empty() + r =~= r);
        }
    }
    while i < tokens.len()
        invariant
            i <= tokens.len(),
            t == texts(tokens@),
            redirections_from(t, 0) == with_prefix(
                texts(argv@),
                redirection_views(redirections@),
                redirections_from(t, i as int),
            ),
        decreases tokens.len() - i,
    {
        let ghost a0 = texts(argv@);
        let ghost r0 = redirection_views(redirections@);
        assert(t[i as int] == tokens@[i as int]@);
        if is_redirection_token(tokens[i].as_str()) {
            let tok = chars_of(tokens[i].as_str());
            let (fd, operand, target, next) = if is_text(&tok, "2>&1") {
                (2i32, owned(">"), owned("&1"), i + 1)
            } else if is_text(&tok, "1>&2") {
                (1i32, owned(">"), owned("&2"), i + 1)
            } else {
                let (fd, operand) = parse_fd_with_op(tokens[i].as_str());
                if i + 1 >= tokens.len() {
                    return Err("ERR missing redirect target");
                }
                assert(t[i + 1] == tokens@[i + 1]@);
                (fd, operand, tokens[i + 1].clone(), i + 2)
            };
            let red = Redirection { fd, operand, target };
            let ghost rv = red@;
            assert(redirection_views(redirections@).len() == redirections@.len());
            redirections.push(red);
            assert(redirection_views(redirections@) =~= r0 + seq![rv]);
            proof {
                lemma_with_prefix_assoc(a0, r0, Seq::empty(), seq![rv], redirections_from(t, next as int));
                assert(a0 + Seq::<Seq<char>>::empty() =~= a0);
            }
            i = next;
        } else {
            let body = chars_of(tokens[i].as_str());
            let mut w = chars_lit("'");
            crate::text::append_chars(&mut w, &body);
            crate::text::append_chars(&mut w, &chars_lit("'"));
            proof {
                reveal_strlit("'");
                assert(w@ =~= quoted(t[i as int]));
            }
            let ws = string_of(&w);
            assert(texts(argv@).len() == argv@.len());
            argv.push(ws);
            assert(texts(argv@) =~= a0 + seq![quoted(t[i as int])]);
            proof {
                lemma_with_prefix_assoc(a0, r0, seq![quoted(t[i as int])], Seq::empty(), redirections_from(t, i + 1));
                assert(r0 + Seq::<(i32, Seq<char>, Seq<char>)>::empty() =~= r0);
            }
            i = i + 1;
        }
    }
    assert(redirections_from(t, i as int) == Ok::<CommandView, Seq<char>>((Seq::empty(), Seq::empty())));
    assert(texts(argv@) + Seq::<Seq<char>>::empty() =~= texts(argv@));
    assert(redirection_views(redirections@) + Seq::<(i32, Seq<char>, Seq<char>)>::empty() =~= redirection_views(redirections@));
    Ok(Command { argv, redirections })
}

/// A command line read together with the body of its here-document, if it
/// has one.
#[derive(Debug, PartialEq, Eq)]
pub struct HereDocuments {
    pub command: String,
    pub body: Option<String>,
}

/// A command line and its here-document body, as texts.
pub type HereDocView = (Seq<char>, Option<Seq<char>>);

impl View for HereDocuments {
    type V = HereDocView;

    open spec fn view(&self) -> HereDocView {
        (
            self.command@,
            match self.body {
                Some(b) => Some(b@),
                None => None,
            },
        )
    }
}

/// The views of a sequence of here-document entries.
pub open spec fn here_doc_views(v: Seq<HereDocuments>) -> Seq<HereDocView> {
    v.map_values(|d: HereDocuments| d@)
}

/// A body line as it is kept and compared with the end marker: without its
/// leading tabs when the operator was `<<-`.
pub open spec fn body_line(l: Seq<char>, strip: bool) -> Seq<char> {
    if strip {
        trim_start_char(l, '\t')
    } else {
        l
    }
}

/// The index of the first line from `j` on that ends a here-document body.
pub open spec fn end_marker_from(lines: Seq<Seq<char>>, j: int, end: Seq<char>, strip: bool) -> Option<int>
    decreases lines.len() - j,
{
    if j < 0 || j >= lines.len() {
        None
    } else if body_line(lines[j], strip) == end {
        Some(j)
    } else {
        end_marker_from(lines, j + 1, end, strip)
    }
}

/// The end marker line, when there is one, lies at or after the line where
/// the search starts.
pub proof fn lemma_end_marker_bounds(lines: Seq<Seq<char>>, j: int, end: Seq<char>, strip: bool)
    ensures
        end_marker_from(lines, j, end, strip) matches Some(e) ==> j <= e < lines.len(),
    decreases lines.len() - j,
{
    if 0 <= j < lines.len() {
        lemma_end_marker_bounds(lines, j + 1, end, strip);
    }
}

/// The body between the operator line and the end marker line: its lines
/// joined by newlines, or nothing when it has no line.
pub open spec fn here_body(lines: Seq<Seq<char>>, start: int, end: int, strip: bool) -> Option<Seq<char>> {
    let b = lines.subrange(start, end).map_values(|l: Seq<char>| body_line(l, strip));
    if b.len() == 0 {
        None
    } else {
        Some(join(b, "\n"@))
    }
}

/// Puts entries before those of a result.
pub open spec fn docs_with_prefix(
    done: Seq<HereDocView>,
    rest: Result<Seq<HereDocView>, Seq<char>>,
) -> Result<Seq<HereDocView>, Seq<char>> {
    match rest {
        Ok(r) => Ok(done + r),
        Err(e) => Err(e),
    }
}

/// The entries of the lines from index `i` on. A line that has no tokens is
/// skipped; a line with a here-document operator takes the following lines
/// up to its end marker as its body; a tokenizer error, an operator without
/// an end marker token, or a body without its end marker line is an error.
pub open spec fn here_documents_from(lines: Seq<Seq<char>>, i: int) -> Result<Seq<HereDocView>, Seq<char>>
    decreases lines.len() - i,
{
    if i < 0 || i >= lines.len() {
        Ok(Seq::empty())
    } else {
        match tokenize_spec(lines[i]) {
            Err(e) => Err(e),
            Ok(toks) => if toks.len() == 0 {
                here_documents_from(lines, i + 1)
            } else {
                match heredoc_operator_from(toks, 0) {
                    None => docs_with_prefix(
                        seq![(trim_ws(lines[i]), None::<Seq<char>>)],
                        here_documents_from(lines, i + 1),
                    ),
                    Some((k, strip)) => if k + 1 >= toks.len() {
                        Err("ERR missing heredoc end token"@)
                    } else {
                        match end_marker_from(lines, i + 1, toks[k + 1], strip) {
                            None => Err("ERR unterminated heredoc boddy"@),
                            Some(e) => {
                                proof {
                                    lemma_end_marker_bounds(lines, i + 1, toks[k + 1], strip);
                                }
                                docs_with_prefix(
                                    seq![(trim_ws(lines[i]), here_body(lines, i + 1, e, strip))],
                                    here_documents_from(lines, e + 1),
                                )
                            },
                        }
                    },
                }
            },
        }
    }
}

/// Reads a here-document body from line `from` on, up to its end marker.
fn read_body(lines: &[String], from: usize, end: &Vec<char>, strip: bool) -> (r: Option<(usize, Vec<Vec<char>>)>)
    requires
        from <= lines.len(),
    ensures
        match r {
            Some((e, body)) => {
                &&& end_marker_from(texts(lines@), from as int, end@, strip) == Some(e as int)
                &&& from <= e < lines.len()
                &&& char_lists(body@) == texts(lines@).subrange(from as int, e as int).map_values(
                    |l: Seq<char>| body_line(l, strip),
                )
            },
            None => end_marker_from(texts(lines@), from as int, end@, strip) is None,
        },
{
    let ghost t = texts(lines@);
    let mut body: Vec<Vec<char>> = Vec::new();
    let mut j: usize = from;
    while j < lines.len()
        invariant
            from <= j <= lines.len(),
            t == texts(lines@),
            end_marker_from(t, from as int, end@, strip) == end_marker_from(t, j as int, end@, strip),
            char_lists(body@) == t.subrange(from as int, j as int).map_values(
                |l: Seq<char>| body_line(l, strip),
            ),
        decreases lines.len() - j,
    {
        let l = chars_of(lines[j].as_str());
        assert(t[j as int] == lines@[j as int]@);
        let check = if strip {
            trim_start_matches(&l, '\t')
        } else {
            l
        };
        if same_chars(&check, end) {
            return Some((j, body));
        }
        let ghost before = body@;
        assert(char_lists(body@).len() == body@.len());
        body.push(check);
        assert(char_lists(body@) =~= char_lists(before).push(body_line(t[j as int], strip)));
        assert(t.subrange(from as int, j + 1).map_values(|l: Seq<char>| body_line(l, strip))
            =~= t.subrange(from as int, j as int).map_values(|l: Seq<char>| body_line(l, strip)).push(
            body_line(t[j as int], strip),
        ));
        j = j + 1;
    }
    None
}

/// Reads command lines and collects, for each, the body of its
/// here-document (`<<END` or `<<-END`, the latter stripping leading tabs
/// from the body lines) up to the line that holds only the end marker.
pub fn parse_here_documents(lines: &[String]) -> (r: Result<Vec<HereDocuments>, &'static str>)
    ensures
        match r {
            Ok(docs) => here_documents_from(texts(lines@), 0) == Ok::<Seq<HereDocView>, Seq<char>>(
                here_doc_views(docs@),
            ),
            Err(e) => here_documents_from(texts(lines@), 0) == Err::<Seq<HereDocView>, Seq<char>>(e@),
        },
{
    let ghost t = texts(lines@);
    let mut results: Vec<HereDocuments> = Vec::new();
    let mut i: usize = 0;
    assert(docs_with_prefix(Seq::empty(), here_documents_from(t, 0)) == here_documents_from(t, 0)) by {
        if let Ok(r) = here_documents_from(t, 0) {
            assert(Seq::<HereDocView>::empty() + r =~= r);
        }
    }
    while i < lines.len()
        invariant
            i <= lines.len(),
            t == texts(lines@),
            here_documents_from(t, 0) == docs_with_prefix(
                here_doc_views(results@),
                here_documents_from(t, i as int),
            ),
        decreases lines.len() - i,
    {
        let ghost done = here_doc_views(results@);
        assert(t[i as int] == lines@[i as int]@);
        let tokens = match tokenize(lines[i].as_str()) {
            Ok(tokens) => tokens,
            Err(e) => {
                return Err(e);
            },
        };
        if tokens.len() == 0 {
            i = i + 1;
        } else {
            let line = chars_of(lines[i].as_str());
            let command = string_of(&trim(&line));
            match find_heredoc_operator(&tokens) {
                Some((k, strip)) => {
                    if k + 1 >= tokens.len() {
                        return Err("ERR missing heredoc end token");
                    }
                    let end = chars_of(tokens[k + 1].as_str());
                    assert(texts(tokens@)[k + 1] == tokens@[k + 1]@);
                    match read_body(lines, i + 1, &end, strip) {
                        None => {
                            return Err("ERR unterminated heredoc boddy");
                        },
                        Some((e, body)) => {
                            let text = if body.len() > 0 {
                                let nl = chars_lit("\n");
                                Some(string_of(&join_chars(&body, &nl)))
                            } else {
                                None
                            };
                            let doc = HereDocuments { command, body: text };
                            let ghost dv = doc@;
                            assert(dv == (trim_ws(t[i as int]), here_body(t, i + 1, e as int, strip)));
                            assert(here_doc_views(results@).len() == results@.len());
                            results.push(doc);
                            assert(here_doc_views(results@) =~= done + seq![dv]);
                            assert(docs_with_prefix(done, docs_with_prefix(seq![dv], here_documents_from(t, e + 1)))
                                == docs_with_prefix(done + seq![dv], here_documents_from(t, e + 1))) by {
                                if let Ok(r) = here_documents_from(t, e + 1) {
                                    assert(done + (seq![dv] + r) =~= (done + seq![dv]) + r);
                                }
                            }
                            i = e + 1;
                        },
                    }
                },
                None => {
                    let doc = HereDocuments { command, body: None };
                    let ghost dv = doc@;
                    assert(here_doc_views(results@).len() == results@.len());
                    results.push(doc);
                    assert(here_doc_views(results@) =~= done + seq![dv]);
                    assert(docs_with_prefix(done, docs_with_prefix(seq![dv], here_documents_from(t, i + 1)))
                        == docs_with_prefix(done + seq![dv], here_documents_from(t, i + 1))) by {
                        if let Ok(r) = here_documents_from(t, i + 1) {
                            assert(done + (seq![dv] + r) =~= (done + seq![dv]) + r);
                        }
                    }
                    i = i + 1;
                },
            }
        }
    }
    assert(here_doc_views(results@) + Seq::<HereDocView>::empty() =~= here_doc_views(results@));
    Ok(results)
}

/// Whether a line has at least one token.
pub open spec fn has_tokens(l: Seq<char>) -> bool {
    tokenize_spec(l) matches Ok(t) && t.len() > 0
}

/// The entries of lines that hold no here-document: each line with tokens,
/// trimmed, without a body.
pub open spec fn plain_entries(lines: Seq<Seq<char>>) -> Seq<HereDocView> {
    lines.filter(|l: Seq<char>| has_tokens(l)).map_values(|l: Seq<char>| (trim_ws(l), None::<Seq<char>>))
}

proof fn lemma_plain_from(lines: Seq<Seq<char>>, i: int)
    requires
        0 <= i <= lines.len(),
        forall|k: int|
            0 <= k < lines.len() ==> #[trigger] tokenize_spec(lines[k]) is Ok && heredoc_operator_from(
                tokenize_spec(lines[k])->Ok_0,
                0,
            ) is None,
    ensures
        here_documents_from(lines, i) == Ok::<Seq<HereDocView>, Seq<char>>(plain_entries(lines.skip(i))),
    decreases lines.len() - i,
{
    let p = |l: Seq<char>| has_tokens(l);
    let f = |l: Seq<char>| (trim_ws(l), None::<Seq<char>>);
    if i == lines.len() {
        reveal(Seq::filter);
        assert(lines.skip(i) =~= Seq::<Seq<char>>::empty());
        assert(plain_entries(lines.skip(i)) =~= Seq::<HereDocView>::empty());
    } else {
        lemma_plain_from(lines, i + 1);
        let l = lines[i];
        let rest = lines.skip(i + 1);
        assert(lines.skip(i) =~= seq![l] + rest);
        rest.lemma_filter_prepend(l, p);
        assert(tokenize_spec(l) is Ok);
        if p(l) {
            assert((seq![l] + rest.filter(p)).map_values(f) =~= seq![f(l)] + rest.filter(p).map_values(f));
            assert(Seq::<Seq<char>>::empty() + rest.filter(p) =~= rest.filter(p));
        } else {
            assert(Seq::<Seq<char>>::empty() + rest.filter(p) =~= rest.filter(p));
        }
    }
}

/// Lines without here-document operators give one entry per line that has
/// tokens: the line trimmed, without a body; lines without tokens are
/// skipped.
pub proof fn law_lines_without_here_documents(lines: Seq<Seq<char>>)
    requires
        forall|k: int|
            0 <= k < lines.len() ==> #[trigger] tokenize_spec(lines[k]) is Ok && heredoc_operator_from(
                tokenize_spec(lines[k])->Ok_0,
                0,
            ) is None,
    ensures
        here_documents_from(lines, 0) == Ok::<Seq<HereDocView>, Seq<char>>(plain_entries(lines)),
{
    lemma_plain_from(lines, 0);
    assert(lines.skip(0) =~= lines);
}

proof fn lemma_operator_first(t: Seq<Seq<char>>, i: int, k: int)
    requires
        0 <= i <= k < t.len(),
        forall|j: int| 0 <= j < k ==> !is_heredoc_operator(#[trigger] t[j]),
        t[k] == "<<"@,
    ensures
        heredoc_operator_from(t, i) == Some((k, false)),
    decreases k - i,
{
    if i < k {
        assert(!is_heredoc_operator(t[i]));
        lemma_operator_first(t, i + 1, k);
    }
}

proof fn lemma_end_marker_plain(lines: Seq<Seq<char>>, j: int, e: int, end: Seq<char>)
    requires
        0 <= j <= e < lines.len(),
        lines[e] == end,
        forall|m: int| j <= m < e ==> #[trigger] lines[m] != end,
    ensures
        end_marker_from(lines, j, end, false) == Some(e),
    decreases e - j,
{
    if j < e {
        assert(lines[j] != end);
        lemma_end_marker_plain(lines, j + 1, e, end);
    }
}

/// With `<<` (not `<<-`) the body lines are kept as they are, leading tabs
/// included: the line with the operator, trimmed, is followed by the lines up
/// to the first one that equals the end marker, joined by newlines.
pub proof fn law_plain_heredoc_keeps_body_lines(
    lines: Seq<Seq<char>>,
    i: int,
    k: int,
    e: int,
)
    requires
        0 <= i < e < lines.len(),
        e > i + 1,
        tokenize_spec(lines[i]) is Ok,
        ({
            let t = tokenize_spec(lines[i])->Ok_0;
            &&& 0 <= k && k + 1 < t.len()
            &&& t[k] == "<<"@
            &&& forall|j: int| 0 <= j < k ==> !is_heredoc_operator(#[trigger] t[j])
            &&& lines[e] == t[k + 1]
            &&& forall|m: int| i < m < e ==> #[trigger] lines[m] != t[k + 1]
        }),
    ensures
        here_documents_from(lines, i) == docs_with_prefix(
            seq![(trim_ws(lines[i]), Some(join(lines.subrange(i + 1, e), "\n"@)))],
            here_documents_from(lines, e + 1),
        ),
{
    let t = tokenize_spec(lines[i])->Ok_0;
    lemma_operator_first(t, 0, k);
    lemma_end_marker_plain(lines, i + 1, e, t[k + 1]);
    let b = lines.subrange(i + 1, e).map_values(|l: Seq<char>| body_line(l, false));
    assert(b =~= lines.subrange(i + 1, e));
    assert(here_body(lines, i + 1, e, false) == Some(join(lines.subrange(i + 1, e), "\n"@)));
}

} // verus!
