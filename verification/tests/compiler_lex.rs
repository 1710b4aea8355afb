use skillet::compiler::lex::{Lexer, Token, TokenKind};

fn slice<'a>(src: &'a str, token: &Token) -> &'a str {
    &src[token.range.start as usize..token.range.end as usize]
}

#[test]
fn tokenizes_simple_ref_and_fragment_sequence() {
    let s = "`ref::foo/bar.md` some text {> footer <}";
    let mut l = Lexer::new(s);

    let tokens = l.tokenize();

    assert_eq!(tokens.len(), 9);
}

#[test]
fn tokenizes_fragment_tokens() {
    let s = "{> footer <}";
    let mut l = Lexer::new(s);
    let tokens = l.tokenize();

    assert_eq!(tokens.len(), 3);
    assert_eq!(tokens[0].kind, TokenKind::FragmentOpen);
    assert_eq!(slice(s, &tokens[0]), "{>");
    assert_eq!(tokens[1].kind, TokenKind::RefValue);
    assert_eq!(slice(s, &tokens[1]), " footer ");
    assert_eq!(tokens[2].kind, TokenKind::FragmentClose);
    assert_eq!(slice(s, &tokens[2]), "<}");
}

#[test]
fn tokenizes_fragment_with_surrounding_body_text() {
    let s = "prefix {>frag-id<} suffix";
    let mut l = Lexer::new(s);
    let tokens = l.tokenize();

    assert_eq!(tokens.len(), 5);
    assert_eq!(tokens[0].kind, TokenKind::BodyText);
    assert_eq!(slice(s, &tokens[0]), "prefix ");
    assert_eq!(tokens[1].kind, TokenKind::FragmentOpen);
    assert_eq!(slice(s, &tokens[1]), "{>");
    assert_eq!(tokens[2].kind, TokenKind::RefValue);
    assert_eq!(slice(s, &tokens[2]), "frag-id");
    assert_eq!(tokens[3].kind, TokenKind::FragmentClose);
    assert_eq!(slice(s, &tokens[3]), "<}");
    assert_eq!(tokens[4].kind, TokenKind::BodyText);
    assert_eq!(slice(s, &tokens[4]), " suffix");
}

#[test]
fn tick_range_is_one_byte() {
    let s = "`";
    let mut l = Lexer::new(s);
    let tokens = l.tokenize();
    assert_eq!(tokens.len(), 1);
    assert_eq!(tokens[0].kind, TokenKind::Tick);
    assert_eq!(tokens[0].range, 0..1);
}

#[test]
fn code_fence_is_single_body_text() {
    let s = "```rust\nlet x = 1;\n```";
    let mut l = Lexer::new(s);
    let tokens = l.tokenize();
    assert_eq!(tokens.len(), 1);
    assert_eq!(tokens[0].kind, TokenKind::BodyText);
    assert_eq!(slice(s, &tokens[0]), s);
}

#[test]
fn ref_without_ticks_is_body_text() {
    let s = "skill::my-agent";
    let mut l = Lexer::new(s);
    let tokens = l.tokenize();
    assert_eq!(tokens[0].kind, TokenKind::BodyText);
    assert_eq!(slice(s, &tokens[0]), "skill::my-agent");
}

#[test]
fn escaped_ref_is_body_text() {
    let s = "``skill::my-agent``";
    let mut l = Lexer::new(s);
    let tokens = l.tokenize();
    assert_eq!(tokens[0].kind, TokenKind::TickDouble);
    assert_eq!(tokens[1].kind, TokenKind::BodyText);
    assert_eq!(slice(s, &tokens[1]), "skill::my-agent");
    assert_eq!(tokens[2].kind, TokenKind::TickDouble);
}

#[test]
fn tokenizes_skill_ref() {
    let s = "`skill::my-agent`";
    let mut l = Lexer::new(s);
    let tokens = l.tokenize();
    assert_eq!(tokens[0].kind, TokenKind::Tick);
    assert_eq!(tokens[1].kind, TokenKind::RefSkill);
    assert_eq!(slice(s, &tokens[1]), "skill");
    assert_eq!(tokens[2].kind, TokenKind::DoubleColon);
    assert_eq!(tokens[3].kind, TokenKind::RefValue);
    assert_eq!(slice(s, &tokens[3]), "my-agent");
    assert_eq!(tokens[4].kind, TokenKind::Tick);
}

#[test]
fn tokenizes_agent_ref() {
    let s = "`agent::my-agent`";
    let mut l = Lexer::new(s);
    let tokens = l.tokenize();
    assert_eq!(tokens[0].kind, TokenKind::Tick);
    assert_eq!(tokens[1].kind, TokenKind::RefAgent);
    assert_eq!(slice(s, &tokens[1]), "agent");
    assert_eq!(tokens[2].kind, TokenKind::DoubleColon);
    assert_eq!(tokens[3].kind, TokenKind::RefValue);
    assert_eq!(slice(s, &tokens[3]), "my-agent");
    assert_eq!(tokens[4].kind, TokenKind::Tick);
}

#[test]
fn tokenizes_cmd_ref() {
    let s = "`cmd::git push`";
    let mut l = Lexer::new(s);
    let tokens = l.tokenize();
    assert_eq!(tokens[0].kind, TokenKind::Tick);
    assert_eq!(tokens[1].kind, TokenKind::RefCmd);
    assert_eq!(slice(s, &tokens[1]), "cmd");
    assert_eq!(tokens[2].kind, TokenKind::DoubleColon);
    assert_eq!(tokens[3].kind, TokenKind::RefValue);
    assert_eq!(slice(s, &tokens[3]), "git push");
    assert_eq!(tokens[4].kind, TokenKind::Tick);
}

#[test]
fn tokenizes_reference_ref() {
    let s = "`ref::./references/test.md`";
    let mut l = Lexer::new(s);
    let tokens = l.tokenize();
    assert_eq!(tokens[0].kind, TokenKind::Tick);
    assert_eq!(tokens[1].kind, TokenKind::RefReference);
    assert_eq!(slice(s, &tokens[1]), "ref");
    assert_eq!(tokens[2].kind, TokenKind::DoubleColon);
    assert_eq!(tokens[3].kind, TokenKind::RefValue);
    assert_eq!(slice(s, &tokens[3]), "./references/test.md");
    assert_eq!(tokens[4].kind, TokenKind::Tick);
}

#[test]
fn unknown_keyword_is_body_text() {
    let s = "foo::bar";
    let mut l = Lexer::new(s);
    let tokens = l.tokenize();
    assert_eq!(tokens.len(), 1);
    assert_eq!(tokens[0].kind, TokenKind::BodyText);
}

#[test]
fn tokenizes_path_ref() {
    let s = "`path::some/file.md`";
    let mut l = Lexer::new(s);
    let tokens = l.tokenize();
    assert_eq!(tokens[0].kind, TokenKind::Tick);
    assert_eq!(tokens[1].kind, TokenKind::RefPath);
    assert_eq!(slice(s, &tokens[1]), "path");
    assert_eq!(tokens[2].kind, TokenKind::DoubleColon);
    assert_eq!(tokens[3].kind, TokenKind::RefValue);
    assert_eq!(slice(s, &tokens[3]), "some/file.md");
    assert_eq!(tokens[4].kind, TokenKind::Tick);
}

#[test]
fn tokenizes_url_ref() {
    let s = "`url::https://example.com`";
    let mut l = Lexer::new(s);
    let tokens = l.tokenize();
    assert_eq!(tokens[0].kind, TokenKind::Tick);
    assert_eq!(tokens[1].kind, TokenKind::RefUrl);
    assert_eq!(slice(s, &tokens[1]), "url");
    assert_eq!(tokens[2].kind, TokenKind::DoubleColon);
    assert_eq!(tokens[3].kind, TokenKind::RefValue);
    assert_eq!(slice(s, &tokens[3]), "https://example.com");
    assert_eq!(tokens[4].kind, TokenKind::Tick);
}

#[test]
fn empty_input_produces_no_tokens() {
    let s = "";
    let mut l = Lexer::new(s);
    let tokens = l.tokenize();
    assert_eq!(tokens.len(), 0);
}


#[test]
fn bytes_outside_every_token_are_lone_angle_brackets() {
    let s = "a < b `ref::x` {> frag <} c<d :: e";
    let mut l = Lexer::new(s);
    let tokens = l.tokenize();
    for w in tokens.windows(2) {
        assert!(w[0].range.end <= w[1].range.start);
    }
    for (i, byte) in s.bytes().enumerate() {
        let covered = tokens.iter().any(|t| (t.range.start as usize) <= i && i < t.range.end as usize);
        assert!(covered || byte == b'<', "byte {i} is not covered");
    }
    assert!(tokens.iter().all(|t| (t.range.end as usize) <= s.len()));
}
