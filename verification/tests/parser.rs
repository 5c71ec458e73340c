use lib::parser::{
    find_heredoc_operator, is_redirection_token, parse_fd_with_op, parse_here_documents,
    parse_pipelines, parse_redirections, token_ended_with_pipe, Command, HereDocuments, Redirection,
};

fn toks(v: &[&str]) -> Vec<String> {
    v.iter().map(|s| s.to_string()).collect()
}

#[test]
fn pipelines_split_at_pipes() {
    assert_eq!(
        parse_pipelines(&toks(&["ls", "-l", "|", "wc"])),
        Ok(vec![toks(&["ls", "-l"]), toks(&["wc"])])
    );
    assert_eq!(parse_pipelines(&toks(&["a", "b"])), Ok(vec![toks(&["a", "b"])]));
    assert_eq!(parse_pipelines(&toks(&[])), Ok(vec![]));
}

#[test]
fn empty_commands_in_pipelines_are_errors() {
    let e = Err("ERR syntax error: empty command in pipeline");
    assert_eq!(parse_pipelines(&toks(&["|", "ls"])), e);
    assert_eq!(parse_pipelines(&toks(&["ls", "|"])), e);
    assert_eq!(parse_pipelines(&toks(&["a", "|", "|", "b"])), e);
    assert_eq!(parse_pipelines(&toks(&["|"])), e);
}

#[test]
fn law_pipeline_partition_example() {
    let t = toks(&["a", "b", "|", "c", "|", "d", "e"]);
    let cmds = parse_pipelines(&t).unwrap();
    let flat: Vec<String> = cmds.concat();
    assert_eq!(flat, toks(&["a", "b", "c", "d", "e"]));
    assert!(cmds.iter().all(|c| !c.is_empty() && !c.contains(&"|".to_string())));
}

#[test]
fn redirections_are_separated_from_arguments() {
    let cmd = parse_redirections(&toks(&["cat", "<", "in.txt", "-n", ">", "out.txt"])).unwrap();
    assert_eq!(
        cmd,
        Command {
            argv: toks(&["'cat'", "'-n'"]),
            redirections: vec![
                Redirection { fd: 0, operand: "<".to_string(), target: "in.txt".to_string() },
                Redirection { fd: 1, operand: ">".to_string(), target: "out.txt".to_string() },
            ],
        }
    );
}

#[test]
fn duplication_redirections_carry_their_target() {
    let cmd = parse_redirections(&toks(&["cmd", "2>&1", "1>&2", "x"])).unwrap();
    assert_eq!(cmd.argv, toks(&["'cmd'", "'x'"]));
    assert_eq!(
        cmd.redirections,
        vec![
            Redirection { fd: 2, operand: ">".to_string(), target: "&1".to_string() },
            Redirection { fd: 1, operand: ">".to_string(), target: "&2".to_string() },
        ]
    );
}

#[test]
fn other_redirection_operators() {
    let cmd = parse_redirections(&toks(&["x", "2>>", "log", "&>", "all", "1>", "o", "<<", "EOF", ">>", "a"])).unwrap();
    let r: Vec<(i32, String, String)> =
        cmd.redirections.into_iter().map(|r| (r.fd, r.operand, r.target)).collect();
    assert_eq!(
        r,
        vec![
            (2, "2>>".to_string(), "log".to_string()),
            (2, "&>".to_string(), "all".to_string()),
            (1, ">".to_string(), "o".to_string()),
            (0, "<<".to_string(), "EOF".to_string()),
            (1, ">>".to_string(), "a".to_string()),
        ]
    );
}

#[test]
fn redirection_without_target_is_an_error() {
    assert_eq!(parse_redirections(&toks(&["cmd", ">"])), Err("ERR missing redirect target"));
}

#[test]
fn empty_command_has_no_arguments() {
    assert_eq!(parse_redirections(&toks(&[])), Ok(Command { argv: vec![], redirections: vec![] }));
}

#[test]
fn descriptor_and_operator_table() {
    assert_eq!(parse_fd_with_op("<"), (0, "<".to_string()));
    assert_eq!(parse_fd_with_op("<<"), (0, "<<".to_string()));
    assert_eq!(parse_fd_with_op(">"), (1, ">".to_string()));
    assert_eq!(parse_fd_with_op(">>"), (1, ">>".to_string()));
    assert_eq!(parse_fd_with_op("1>"), (1, ">".to_string()));
    assert_eq!(parse_fd_with_op("2>"), (2, ">".to_string()));
    assert_eq!(parse_fd_with_op("2>>"), (2, "2>>".to_string()));
    assert_eq!(parse_fd_with_op("2>&1"), (2, ">".to_string()));
    assert_eq!(parse_fd_with_op("&>"), (2, "&>".to_string()));
}

#[test]
fn redirection_token_list() {
    for t in ["<", "<<", ">", ">>", "2>", "2>>", "2>&1", "1>&2", "&>", "1>"] {
        assert!(is_redirection_token(t), "{}", t);
    }
    for t in ["|", "<<-", "2>&", ">&2", "cat", ""] {
        assert!(!is_redirection_token(t), "{}", t);
    }
}

#[test]
fn heredoc_operator_search() {
    assert_eq!(find_heredoc_operator(&toks(&["cat", "<<", "EOF"])), Some((1, false)));
    assert_eq!(find_heredoc_operator(&toks(&["cat", "<<-", "EOF"])), Some((1, true)));
    assert_eq!(find_heredoc_operator(&toks(&["a", "<<-", "b", "<<", "c"])), Some((1, true)));
    assert_eq!(find_heredoc_operator(&toks(&["ls", ">"])), None);
}

#[test]
fn pipe_at_the_end() {
    assert!(token_ended_with_pipe(&toks(&["a", "|"])));
    assert!(!token_ended_with_pipe(&toks(&["a", "|", "b"])));
    assert!(!token_ended_with_pipe(&toks(&[])));
}

#[test]
fn here_document_bodies() {
    let lines = toks(&["cat <<EOF", "hello", "world", "EOF", "  ls -l  "]);
    assert_eq!(
        parse_here_documents(&lines),
        Ok(vec![
            HereDocuments { command: "cat <<EOF".to_string(), body: Some("hello\nworld".to_string()) },
            HereDocuments { command: "ls -l".to_string(), body: None },
        ])
    );
}

#[test]
fn tab_stripping_here_documents() {
    let lines = toks(&["cat <<-END", "\tindented", "\t\tmore", "\tEND"]);
    assert_eq!(
        parse_here_documents(&lines),
        Ok(vec![HereDocuments {
            command: "cat <<-END".to_string(),
            body: Some("indented\nmore".to_string()),
        }])
    );
}

#[test]
fn here_document_without_body_lines() {
    let lines = toks(&["cat <<EOF", "EOF", "", "   "]);
    assert_eq!(
        parse_here_documents(&lines),
        Ok(vec![HereDocuments { command: "cat <<EOF".to_string(), body: None }])
    );
}

#[test]
fn here_document_errors() {
    assert_eq!(parse_here_documents(&toks(&["cat <<"])), Err("ERR missing heredoc end token"));
    assert_eq!(parse_here_documents(&toks(&["cat <<EOF", "a"])), Err("ERR unterminated heredoc boddy"));
    assert_eq!(parse_here_documents(&toks(&["echo 'x"])), Err("ERR unterminated quote"));
}

#[test]
fn law_lines_without_here_documents_example() {
    let lines = toks(&["  echo a ", "", "ls | wc", "\t"]);
    assert_eq!(
        parse_here_documents(&lines),
        Ok(vec![
            HereDocuments { command: "echo a".to_string(), body: None },
            HereDocuments { command: "ls | wc".to_string(), body: None },
        ])
    );
}
