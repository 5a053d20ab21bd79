use bf::parse::{tokenize, ExprKind, Nod, Node, ParseError, Token};
use bf::token::Instruction;

#[test]
fn test_token_from_char() {
    fn helper(c: char, assert_token: Option<Token>) {
        let token = Token::from_char(c);
        assert_eq!(token, assert_token);
    }

    helper('>', Some(Token::Greater));
    helper('<', Some(Token::Less));
    helper('+', Some(Token::Plus));
    helper('-', Some(Token::Minus));
    helper('.', Some(Token::Period));
    helper(',', Some(Token::Comma));
    helper('[', Some(Token::LeftBracket));
    helper(']', Some(Token::RightBracket));

    helper('a', None);
    helper('1', None);
}

#[test]
fn test_node_from_token() {
    fn helper(source: &str, assert_node: Node) {
        let root_node = Node::from_source(source).unwrap();
        assert_eq!(root_node, assert_node);
    }

    helper(
        "+++",
        Node(vec![ExprKind::Instructions(vec![Instruction::Add(1); 3])]),
    );
    helper(
        "+++[]",
        Node(vec![
            ExprKind::Instructions(vec![Instruction::Add(1); 3]),
            ExprKind::While(Node(vec![])),
        ]),
    );
    helper(
        "+++[---]",
        Node(vec![
            ExprKind::Instructions(vec![Instruction::Add(1); 3]),
            ExprKind::While(Node(vec![ExprKind::Instructions(vec![Instruction::Sub(1); 3])])),
        ]),
    );
    helper(
        "+++[---]+++",
        Node(vec![
            ExprKind::Instructions(vec![Instruction::Add(1); 3]),
            ExprKind::While(Node(vec![ExprKind::Instructions(vec![Instruction::Sub(1); 3])])),
            ExprKind::Instructions(vec![Instruction::Add(1); 3]),
        ]),
    );
    helper(
        "+++[--[]]>>><<<",
        Node(vec![
            ExprKind::Instructions(vec![Instruction::Add(1); 3]),
            ExprKind::While(Node(vec![
                ExprKind::Instructions(vec![Instruction::Sub(1); 2]),
                ExprKind::While(Node(vec![])),
            ])),
            ExprKind::Instructions(vec![
                Instruction::PtrIncrement(1),
                Instruction::PtrIncrement(1),
                Instruction::PtrIncrement(1),
                Instruction::PtrDecrement(1),
                Instruction::PtrDecrement(1),
                Instruction::PtrDecrement(1),
            ]),
        ]),
    );
    helper(
        "+++[--[]]>>><<<[.,]",
        Node(vec![
            ExprKind::Instructions(vec![Instruction::Add(1); 3]),
            ExprKind::While(Node(vec![
                ExprKind::Instructions(vec![Instruction::Sub(1); 2]),
                ExprKind::While(Node(vec![])),
            ])),
            ExprKind::Instructions(vec![
                Instruction::PtrIncrement(1),
                Instruction::PtrIncrement(1),
                Instruction::PtrIncrement(1),
                Instruction::PtrDecrement(1),
                Instruction::PtrDecrement(1),
                Instruction::PtrDecrement(1),
            ]),
            ExprKind::While(Node(vec![ExprKind::Instructions(vec![
                Instruction::Output(1),
                Instruction::Input(1),
            ])])),
        ]),
    );
}

#[test]
fn unbalanced_brackets_are_rejected() {
    assert_eq!(Node::from_source("]"), Err(ParseError::InvalidBracket));
    assert_eq!(Node::from_source("[]]"), Err(ParseError::InvalidBracket));
    assert_eq!(Node::from_source("[[]"), Err(ParseError::InvalidBracket));
    assert_eq!(Nod::from_tokens(tokenize("][")), Err(ParseError::InvalidBracket));
    assert_eq!(Nod::from_tokens(tokenize("[")), Err(ParseError::InvalidBracket));
}

#[test]
fn char_round_trip() {
    for t in [
        Token::Greater,
        Token::Less,
        Token::Plus,
        Token::Minus,
        Token::Period,
        Token::Comma,
        Token::LeftBracket,
        Token::RightBracket,
    ] {
        assert_eq!(Token::from_char(t.as_char()), Some(t));
    }
}

#[test]
fn tokenize_skips_other_characters() {
    assert_eq!(
        tokenize("a+b[-]c."),
        vec![
            Token::Plus,
            Token::LeftBracket,
            Token::Minus,
            Token::RightBracket,
            Token::Period
        ]
    );
}
