use bf_interp::instruction::Instruction;
use bf_interp::scanner::{lexer, Token};
use bf_interp::structurer::{atom_for, parser, tokens_between, ParseError};

fn parse_text(text: &str) -> Result<Vec<Instruction>, ParseError> {
    let mut tokens = Vec::new();
    lexer(text.to_string(), &mut tokens);
    parser(tokens)
}

fn count_loops(instructions: &Vec<Instruction>) -> usize {
    let mut count = 0;
    for instruction in instructions {
        if let Instruction::Loop(body) = instruction {
            count += 1 + count_loops(body);
        }
    }
    count
}

fn write_out(instructions: &Vec<Instruction>, text: &mut String) {
    for instruction in instructions {
        match instruction {
            Instruction::MoveRight => text.push('>'),
            Instruction::MoveLeft => text.push('<'),
            Instruction::Add => text.push('+'),
            Instruction::Sub => text.push('-'),
            Instruction::Input => text.push(','),
            Instruction::Print => text.push('.'),
            Instruction::Loop(body) => {
                text.push('[');
                write_out(body, text);
                text.push(']');
            }
            Instruction::Noop => text.push('?'),
        }
    }
}

#[test]
fn no_tokens_give_no_instructions() {
    assert_eq!(parser(Vec::new()), Ok(Vec::new()));
}

#[test]
fn tokens_outside_loops_give_their_instructions_in_order() {
    assert_eq!(
        parse_text("><+-,."),
        Ok(vec![
            Instruction::MoveRight,
            Instruction::MoveLeft,
            Instruction::Add,
            Instruction::Sub,
            Instruction::Input,
            Instruction::Print,
        ])
    );
}

#[test]
fn noop_tokens_give_nothing() {
    assert_eq!(
        parse_text("a+b c-"),
        Ok(vec![Instruction::Add, Instruction::Sub])
    );
    assert_eq!(parser(vec![Token::Noop, Token::Noop]), Ok(Vec::new()));
}

#[test]
fn a_bracket_pair_becomes_one_loop() {
    assert_eq!(
        parse_text("+++[.-]"),
        Ok(vec![
            Instruction::Add,
            Instruction::Add,
            Instruction::Add,
            Instruction::Loop(vec![Instruction::Print, Instruction::Sub]),
        ])
    );
}

#[test]
fn an_empty_pair_becomes_an_empty_loop() {
    assert_eq!(parse_text("[]"), Ok(vec![Instruction::Loop(Vec::new())]));
}

#[test]
fn nested_pairs_become_nested_loops() {
    assert_eq!(
        parse_text("+[>[-]<[[+]]]."),
        Ok(vec![
            Instruction::Add,
            Instruction::Loop(vec![
                Instruction::MoveRight,
                Instruction::Loop(vec![Instruction::Sub]),
                Instruction::MoveLeft,
                Instruction::Loop(vec![Instruction::Loop(vec![Instruction::Add])]),
            ]),
            Instruction::Print,
        ])
    );
}

#[test]
fn loops_side_by_side_stay_apart() {
    assert_eq!(
        parse_text("[+][-]"),
        Ok(vec![
            Instruction::Loop(vec![Instruction::Add]),
            Instruction::Loop(vec![Instruction::Sub]),
        ])
    );
}

#[test]
fn noop_tokens_inside_a_loop_give_nothing() {
    assert_eq!(
        parse_text("[ + x [ - ] ]"),
        Ok(vec![Instruction::Loop(vec![
            Instruction::Add,
            Instruction::Loop(vec![Instruction::Sub]),
        ])])
    );
}

#[test]
fn a_closing_bracket_with_nothing_to_close_is_refused() {
    assert_eq!(parse_text("]"), Err(ParseError::UnmatchedEndLoop { index: 0 }));
    assert_eq!(parse_text("+]"), Err(ParseError::UnmatchedEndLoop { index: 1 }));
    assert_eq!(parse_text("[]]"), Err(ParseError::UnmatchedEndLoop { index: 2 }));
    assert_eq!(parse_text("[+]-]+["), Err(ParseError::UnmatchedEndLoop { index: 4 }));
    assert_eq!(parse_text("]["), Err(ParseError::UnmatchedEndLoop { index: 0 }));
}

#[test]
fn an_opening_bracket_that_is_never_closed_is_refused() {
    assert_eq!(parse_text("["), Err(ParseError::UnmatchedStartLoop { index: 0 }));
    assert_eq!(parse_text("+[-"), Err(ParseError::UnmatchedStartLoop { index: 1 }));
    assert_eq!(parse_text("[[]"), Err(ParseError::UnmatchedStartLoop { index: 0 }));
    assert_eq!(parse_text("[]+["), Err(ParseError::UnmatchedStartLoop { index: 3 }));
    assert_eq!(parse_text("[][[]"), Err(ParseError::UnmatchedStartLoop { index: 2 }));
    assert_eq!(parse_text("[+][[-][+]"), Err(ParseError::UnmatchedStartLoop { index: 3 }));
}

#[test]
fn the_first_fault_is_the_one_reported() {
    assert_eq!(parse_text("[[]+]]["), Err(ParseError::UnmatchedEndLoop { index: 5 }));
}

#[test]
fn as_many_loops_as_bracket_pairs() {
    let text = "+[>[-]<[[+]]][][.[,]]";
    let opening = text.chars().filter(|c| *c == '[').count();
    let closing = text.chars().filter(|c| *c == ']').count();
    let tree = parse_text(text).unwrap();
    assert_eq!(count_loops(&tree), 7);
    assert_eq!(count_loops(&tree), opening);
    assert_eq!(count_loops(&tree), closing);
}

#[test]
fn opening_brackets_are_outer_loops_and_inner_closers() {
    let text = "+[>[-]<[[+]]][][.[,]]";
    let opening = text.chars().filter(|c| *c == '[').count();
    let mut depth = 0;
    let mut inner_closers = 0;
    for c in text.chars() {
        if c == '[' {
            depth += 1;
        } else if c == ']' {
            if depth > 1 {
                inner_closers += 1;
            }
            depth -= 1;
        }
    }
    let tree = parse_text(text).unwrap();
    let outer_loops = tree
        .iter()
        .filter(|instruction| matches!(instruction, Instruction::Loop(_)))
        .count();
    assert_eq!(outer_loops, 3);
    assert_eq!(inner_closers, 4);
    assert_eq!(opening, outer_loops + inner_closers);
}

#[test]
fn writing_the_tree_out_gives_the_text_back() {
    let text = "+[>[-]<[[+]]][][.[,]]-";
    let tree = parse_text(text).unwrap();
    let mut written = String::new();
    write_out(&tree, &mut written);
    assert_eq!(written, text);

    let noisy = "a+[ >[-] <[[+] ]]\t[][.[,]x]-";
    let tree = parse_text(noisy).unwrap();
    let mut written = String::new();
    write_out(&tree, &mut written);
    assert_eq!(written, text);
}

#[test]
fn the_result_holds_no_noop() {
    let tree = parse_text("a[b[c]d]e+").unwrap();
    let mut written = String::new();
    write_out(&tree, &mut written);
    assert!(!written.contains('?'));
    assert_eq!(written, "[[]]+");
}

#[test]
fn nesting_deeper_than_a_byte_counts() {
    let depth = 300;
    let mut text = String::new();
    for _ in 0..depth {
        text.push('[');
    }
    text.push('+');
    for _ in 0..depth {
        text.push(']');
    }
    let tree = parse_text(&text).unwrap();
    assert_eq!(count_loops(&tree), depth);
    assert_eq!(tree.len(), 1);

    text.pop();
    assert_eq!(parse_text(&text), Err(ParseError::UnmatchedStartLoop { index: 0 }));
}

#[test]
fn a_loop_far_into_a_long_program_is_found() {
    let mut text = String::new();
    for _ in 0..200 {
        text.push('+');
    }
    text.push_str("[-]");
    let tree = parse_text(&text).unwrap();
    assert_eq!(tree.len(), 201);
    assert_eq!(tree[200], Instruction::Loop(vec![Instruction::Sub]));

    text.push(']');
    assert_eq!(parse_text(&text), Err(ParseError::UnmatchedEndLoop { index: 203 }));
}

#[test]
fn tokens_between_copies_a_range() {
    let tokens = vec![Token::Add, Token::StartLoop, Token::Sub, Token::EndLoop, Token::Print];
    assert_eq!(tokens_between(&tokens, 2, 3), vec![Token::Sub]);
    assert_eq!(tokens_between(&tokens, 1, 4), vec![Token::StartLoop, Token::Sub, Token::EndLoop]);
    assert_eq!(tokens_between(&tokens, 3, 3), Vec::<Token>::new());
    assert_eq!(tokens_between(&tokens, 0, 5), tokens);
}

#[test]
fn atom_for_each_token() {
    assert_eq!(atom_for(Token::MoveRight), Instruction::MoveRight);
    assert_eq!(atom_for(Token::MoveLeft), Instruction::MoveLeft);
    assert_eq!(atom_for(Token::Add), Instruction::Add);
    assert_eq!(atom_for(Token::Sub), Instruction::Sub);
    assert_eq!(atom_for(Token::Input), Instruction::Input);
    assert_eq!(atom_for(Token::Print), Instruction::Print);
    assert_eq!(atom_for(Token::Noop), Instruction::Noop);
    assert_eq!(atom_for(Token::StartLoop), Instruction::Noop);
    assert_eq!(atom_for(Token::EndLoop), Instruction::Noop);
}
