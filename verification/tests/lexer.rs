use lib::lexer::tokenize;

fn toks(v: &[&str]) -> Vec<String> {
    v.iter().map(|s| s.to_string()).collect()
}

#[test]
fn splits_words_on_whitespace() {
    assert_eq!(tokenize("echo hello world"), Ok(toks(&["echo", "hello", "world"])));
    assert_eq!(tokenize("  a \t b\n"), Ok(toks(&["a", "b"])));
    assert_eq!(tokenize("a\u{a0}b"), Ok(toks(&["a", "b"])));
}

#[test]
fn blank_line_has_no_tokens() {
    assert_eq!(tokenize(""), Ok(vec![]));
    assert_eq!(tokenize("   \t "), Ok(vec![]));
}

#[test]
fn pipe_and_redirections_are_tokens() {
    assert_eq!(
        tokenize("ls -l|grep foo > out.txt"),
        Ok(toks(&["ls", "-l", "|", "grep", "foo", ">", "out.txt"]))
    );
    assert_eq!(tokenize("sort<in>>out"), Ok(toks(&["sort", "<", "in", ">>", "out"])));
}

#[test]
fn here_document_operators() {
    assert_eq!(tokenize("cat<<EOF"), Ok(toks(&["cat", "<<", "EOF"])));
    assert_eq!(tokenize("cat <<-END"), Ok(toks(&["cat", "<<-", "END"])));
    assert_eq!(tokenize("cat >>-x"), Ok(toks(&["cat", ">>", "-x"])));
}

#[test]
fn descriptor_redirections() {
    assert_eq!(tokenize("cmd 2>err.txt"), Ok(toks(&["cmd", "2>", "err.txt"])));
    assert_eq!(tokenize("cmd 2>&1"), Ok(toks(&["cmd", "2>&1"])));
    assert_eq!(tokenize("cmd 2>>log"), Ok(toks(&["cmd", "2>>", "log"])));
    assert_eq!(tokenize("cmd 2>&"), Ok(toks(&["cmd", "2>&"])));
    assert_eq!(tokenize("cmd 0<in"), Ok(toks(&["cmd", "0<", "in"])));
    assert_eq!(tokenize("cmd >&2"), Ok(toks(&["cmd", ">&2"])));
    assert_eq!(tokenize("cmd >&x"), Ok(toks(&["cmd", ">&", "x"])));
}

#[test]
fn digits_inside_words_stay_in_the_word() {
    assert_eq!(tokenize("a2>b"), Ok(toks(&["a2", ">", "b"])));
    assert_eq!(tokenize("12>x"), Ok(toks(&["12", ">", "x"])));
    assert_eq!(tokenize("echo 42"), Ok(toks(&["echo", "42"])));
}

#[test]
fn quotes_keep_their_content() {
    assert_eq!(tokenize("echo 'a b' \"c d\""), Ok(toks(&["echo", "a b", "c d"])));
    assert_eq!(tokenize("echo 'a|b>c'"), Ok(toks(&["echo", "a|b>c"])));
    assert_eq!(tokenize("x'y'\"z\""), Ok(toks(&["xyz"])));
    assert_eq!(tokenize("echo ''"), Ok(toks(&["echo", ""])));
}

#[test]
fn backslashes_escape() {
    assert_eq!(tokenize("echo a\\ b"), Ok(toks(&["echo", "a b"])));
    assert_eq!(tokenize("echo \"a\\\"b\""), Ok(toks(&["echo", "a\"b"])));
    assert_eq!(tokenize("echo 'a\\b'"), Ok(toks(&["echo", "a\\b"])));
}

#[test]
fn trailing_backslash_is_an_error() {
    assert_eq!(tokenize("echo \\"), Err("ERR trailing Backslashes"));
    assert_eq!(tokenize("echo \"abc\\"), Err("ERR trailing Backslashes"));
}

#[test]
fn unterminated_quote_is_an_error() {
    assert_eq!(tokenize("echo 'abc"), Err("ERR unterminated quote"));
    assert_eq!(tokenize("echo \"abc"), Err("ERR unterminated quote"));
}

#[test]
fn law_single_quotes_literal_example() {
    assert_eq!(tokenize("' a | b > c '"), Ok(toks(&[" a | b > c "])));
}

#[test]
fn law_plain_word_example() {
    assert_eq!(tokenize("hello-world_42"), Ok(toks(&["hello-world_42"])));
}

#[test]
fn law_unquoted_line_tokenizes_example() {
    assert!(tokenize("a | b > c << d 2>&1 &").is_ok());
}
