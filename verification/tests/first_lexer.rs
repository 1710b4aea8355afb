use skillet::skillet_compiler::lex::{Lexer, Token, TokenKind};

fn slice<'a>(src: &'a str, token: &Token) -> &'a str {
   &src[token.range.start as usize..token.range.end as usize]
}

#[test]
fn test_simple() {
    let s = "`ref::foo/bar.md` some text {> footer <}";
    let mut  l = Lexer::new(s);

    let tokens = l.tokenize();

    assert_eq!(tokens.len(), 9);
}

#[test]
fn test_fragment_tokens() {
    let s = "{> footer <}";
    let mut l = Lexer::new(s);
    let tokens = l.tokenize();

    assert_eq!(tokens.len(), 3);
    assert_eq!(tokens[0].kind, TokenKind::FragmentOpen);
    assert_eq!(slice(s, &tokens[0]), "{>");
    assert_eq!(tokens[1].kind, TokenKind::RefValue);
    assert_eq!(slice(s, &tokens[1]), " footer ");
    assert_eq!(tokens[2].kind, TokenKind::FragmentClose);
    assert_eq!(slice(s, &tokens[2]), "<}");
}

#[test]
fn test_fragment_with_surrounding_body_text() {
    let s = "prefix {>frag-id<} suffix";
    let mut l = Lexer::new(s);
    let tokens = l.tokenize();

    assert_eq!(tokens.len(), 5);
    assert_eq!(tokens[0].kind, TokenKind::BodyText);
    assert_eq!(slice(s, &tokens[0]), "prefix ");
    assert_eq!(tokens[1].kind, TokenKind::FragmentOpen);
    assert_eq!(slice(s, &tokens[1]), "{>");
    assert_eq!(tokens[2].kind, TokenKind::RefValue);
    assert_eq!(slice(s, &tokens[2]), "frag-id");
    assert_eq!(tokens[3].kind, TokenKind::FragmentClose);
    assert_eq!(slice(s, &tokens[3]), "<}");
    assert_eq!(tokens[4].kind, TokenKind::BodyText);
    assert_eq!(slice(s, &tokens[4]), " suffix");
}

#[test]
   fn test_tick_range_is_one_byte() {
   // A single backtick should have a range of length 1, not 0
   let s = "`";
   let mut l = Lexer::new(s);
   let tokens = l.tokenize();
   assert_eq!(tokens.len(), 1);
   assert_eq!(tokens[0].kind, TokenKind::Tick);
   assert_eq!(tokens[0].range, 0..1);
   }

   #[test]
   fn test_code_fence_is_single_body_text() {
   // Triple backtick fence including delimiters becomes one BodyText
   let s = "```rust\nlet x = 1;\n```";
   let mut l = Lexer::new(s);
   let tokens = l.tokenize();
   assert_eq!(tokens.len(), 1);
   assert_eq!(tokens[0].kind, TokenKind::BodyText);
   assert_eq!(slice(s, &tokens[0]), s); // full source, delimiters included
   }

#[test]
   fn test_ref_without_ticks_is_body_text() {
   let s = "skill::my-agent";
   let mut l = Lexer::new(s);
   let tokens = l.tokenize();
   assert_eq!(tokens[0].kind, TokenKind::BodyText);
   assert_eq!(slice(s, &tokens[0]), "skill::my-agent");
   }


#[test]
   fn test_escaped_ref_is_body_text() {
   let s = "``skill::my-agent``";
   let mut l = Lexer::new(s);
   let tokens = l.tokenize();
   assert_eq!(tokens[0].kind, TokenKind::TickDouble);
   assert_eq!(tokens[1].kind, TokenKind::BodyText);
   assert_eq!(slice(s, &tokens[1]), "skill::my-agent");
   assert_eq!(tokens[2].kind, TokenKind::TickDouble);
   }

   #[test]
   fn test_skill_ref() {
   let s = "`skill::my-agent`";
   let mut l = Lexer::new(s);
   let tokens = l.tokenize();
   assert_eq!(tokens[0].kind, TokenKind::Tick);
   assert_eq!(tokens[1].kind, TokenKind::RefSKill);
   assert_eq!(slice(s, &tokens[1]), "skill");
   assert_eq!(tokens[2].kind, TokenKind::DoubleColon);
   assert_eq!(tokens[3].kind, TokenKind::RefValue);
   assert_eq!(slice(s, &tokens[3]), "my-agent");
   assert_eq!(tokens[4].kind, TokenKind::Tick);
   }

   #[test]
   fn test_agent_ref() {
   let s = "`agent::my-agent`";
   let mut l = Lexer::new(s);
   let tokens = l.tokenize();
   assert_eq!(tokens[0].kind, TokenKind::Tick);
   assert_eq!(tokens[1].kind, TokenKind::RefAgent);
   assert_eq!(slice(s, &tokens[1]), "agent");
   assert_eq!(tokens[2].kind, TokenKind::DoubleColon);
   assert_eq!(tokens[3].kind, TokenKind::RefValue);
   assert_eq!(slice(s, &tokens[3]), "my-agent");
   assert_eq!(tokens[4].kind, TokenKind::Tick);
   }

   #[test]
   fn test_cmd_ref() {
   let s = "`cmd::git push`";
   let mut l = Lexer::new(s);
   let tokens = l.tokenize();
   assert_eq!(tokens[0].kind, TokenKind::Tick);
   assert_eq!(tokens[1].kind, TokenKind::RefCmd);
   assert_eq!(slice(s, &tokens[1]), "cmd");
   assert_eq!(tokens[2].kind, TokenKind::DoubleColon);
   assert_eq!(tokens[3].kind, TokenKind::RefValue);
   assert_eq!(slice(s, &tokens[3]), "git push");
   assert_eq!(tokens[4].kind, TokenKind::Tick);
   }

   #[test]
   fn test_reference_ref() {
   let s = "`ref::./references/test.md`";
   let mut l = Lexer::new(s);
   let tokens = l.tokenize();
   assert_eq!(tokens[0].kind, TokenKind::Tick);
   assert_eq!(tokens[1].kind, TokenKind::RefReference);
   assert_eq!(slice(s, &tokens[1]), "ref");
   assert_eq!(tokens[2].kind, TokenKind::DoubleColon);
   assert_eq!(tokens[3].kind, TokenKind::RefValue);
   assert_eq!(slice(s, &tokens[3]), "./references/test.md");
   assert_eq!(tokens[4].kind, TokenKind::Tick);
   }

   #[test]
   fn test_unknown_keyword_is_body_text() {
   // "foo::bar" is not a known ref type — entire thing is BodyText
   let s = "foo::bar";
   let mut l = Lexer::new(s);
   let tokens = l.tokenize();
   assert_eq!(tokens.len(), 1);
   assert_eq!(tokens[0].kind, TokenKind::BodyText);
   }

   #[test]
   fn test_empty_input() {
   let s = "";
   let mut l = Lexer::new(s);
   let tokens = l.tokenize();
   assert_eq!(tokens.len(), 0);
   }

