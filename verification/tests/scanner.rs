use bf_interp::scanner::{lexer, token_for, Token};

fn scan_text(text: &str) -> Vec<Token> {
    let mut tokens = Vec::new();
    lexer(text.to_string(), &mut tokens);
    tokens
}

#[test]
fn every_instruction_character_has_its_token() {
    assert_eq!(
        scan_text("><+-.,[]"),
        vec![
            Token::MoveRight,
            Token::MoveLeft,
            Token::Add,
            Token::Sub,
            Token::Print,
            Token::Input,
            Token::StartLoop,
            Token::EndLoop,
        ]
    );
}

#[test]
fn empty_text_gives_no_token() {
    assert_eq!(scan_text(""), Vec::<Token>::new());
}

#[test]
fn unknown_characters_are_kept_as_noop() {
    assert_eq!(
        scan_text("a+ b"),
        vec![Token::Noop, Token::Add, Token::Noop, Token::Noop]
    );
}

#[test]
fn scanning_stops_at_the_first_line_feed() {
    assert_eq!(scan_text("+-\n>>"), vec![Token::Add, Token::Sub]);
    assert_eq!(scan_text("\n+"), Vec::<Token>::new());
    assert_eq!(scan_text("+\n-\n>"), vec![Token::Add]);
}

#[test]
fn carriage_return_is_an_ordinary_character() {
    assert_eq!(scan_text("+\r\n-"), vec![Token::Add, Token::Noop]);
}

#[test]
fn a_character_of_several_bytes_gives_one_token() {
    assert_eq!(
        scan_text("+\u{e9}\u{4e16}\u{1f600}-"),
        vec![Token::Add, Token::Noop, Token::Noop, Token::Noop, Token::Sub]
    );
}

#[test]
fn lexer_appends_to_what_is_there() {
    let mut tokens = vec![Token::Print];
    lexer("+".to_string(), &mut tokens);
    lexer(",\n.".to_string(), &mut tokens);
    assert_eq!(tokens, vec![Token::Print, Token::Add, Token::Input]);
}

#[test]
fn one_token_per_character_of_the_line() {
    let text = "+[a>b<c]-\nrest";
    assert_eq!(scan_text(text).len(), 9);
}

#[test]
fn token_for_single_characters() {
    assert_eq!(token_for('>'), Token::MoveRight);
    assert_eq!(token_for('<'), Token::MoveLeft);
    assert_eq!(token_for('+'), Token::Add);
    assert_eq!(token_for('-'), Token::Sub);
    assert_eq!(token_for('.'), Token::Print);
    assert_eq!(token_for(','), Token::Input);
    assert_eq!(token_for('['), Token::StartLoop);
    assert_eq!(token_for(']'), Token::EndLoop);
    assert_eq!(token_for('\n'), Token::Noop);
    assert_eq!(token_for(' '), Token::Noop);
    assert_eq!(token_for('x'), Token::Noop);
}
