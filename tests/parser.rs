use rtok::ebnf::{EBNFAst, TokenType};
use rtok::parser::{token_on_top, wrap_through, ParseError, ParseValue, Parser};
use rtok::postproc::{BasicPostProcessor, PostProcessor, PostprocErr};
use rtok::tokenizer::{MatcherPriority, Token, Tokenizer};

#[derive(Debug, PartialEq)]
enum TestTokenValue {
    Int(i32),
    Float(f32),
    Op(char),
    Whitespace,
}

#[derive(Debug, PartialEq)]
enum TestAst {
    Int(i32),
    Float(f32),
    Add(Box<TestAst>, Box<TestAst>),
    Sub(Box<TestAst>, Box<TestAst>),
}

type Value = ParseValue<TestTokenValue, TestAst>;
type Check = fn(&Vec<Value>) -> bool;
type Reduce = fn(&mut Vec<Value>) -> Result<Value, ParseError>;
type TestParser = Parser<TestTokenValue, TestAst, Check, Reduce>;

fn get_token_part<'a>(t: &'a Token, i: usize) -> Result<&'a str, PostprocErr> {
    if let Some(Some(part)) = t.parts.get(i) {
        Ok(part)
    } else {
        PostprocErr::make(t.typ, format!("Failed to get token part: {}", i))
    }
}

fn tokenize_str(s: &str) -> Vec<TestTokenValue> {
    let tokenizer = Tokenizer::make(
        MatcherPriority::Longest,
        vec![(r"^(\s+)", 0), (r"^(\d+)", 1), (r"^(\d+\.\d+)", 2), (r"([+\-*/])", 3)],
    )
    .unwrap();

    let startstr = String::from(s);

    let tokens = tokenizer.tokenize(&startstr);

    let mut postproc: BasicPostProcessor<
        Result<TestTokenValue, PostprocErr>,
        fn(Token) -> Result<TestTokenValue, PostprocErr>,
    > = BasicPostProcessor::new();

    postproc.add_postprocfn(0, |_| Ok(TestTokenValue::Whitespace));

    postproc.add_postprocfn(1, |t| {
        let tokenstr = get_token_part(&t, 1)?;
        tokenstr
            .parse()
            .map(|i| TestTokenValue::Int(i))
            .or(PostprocErr::make(t.typ, "Failed to parse token as int".to_string()))
    });

    postproc.add_postprocfn(2, |t| {
        let tokenstr = get_token_part(&t, 1)?;

        tokenstr
            .parse()
            .map(|i| TestTokenValue::Float(i))
            .or(PostprocErr::make(t.typ, "Failed to parse token as float".to_string()))
    });
    postproc.add_postprocfn(3, |t| {
        let tokenstr = get_token_part(&t, 1)?;

        tokenstr
            .chars()
            .nth(0)
            .map(|i| TestTokenValue::Op(i))
            .ok_or(PostprocErr::new(t.typ, "Failed to get operator from token".to_string()))
    });

    let mut tokenvals = Vec::new();
    for t in tokens {
        let v: Result<TestTokenValue, PostprocErr> = postproc.run_on(t);
        if let Ok(v) = v {
            if v != TestTokenValue::Whitespace {
                tokenvals.push(v);
            }
        }
    }
    tokenvals
}

fn top_is_float(stack: &Vec<Value>) -> bool {
    matches!(stack.last(), Some(ParseValue::Token(TestTokenValue::Float(_))))
}

fn wrap_float(stack: &mut Vec<Value>) -> Result<Value, ParseError> {
    if let ParseValue::Token(TestTokenValue::Float(i)) = stack.pop().ok_or(ParseError::EOF)? {
        return Ok(ParseValue::Reduced(TestAst::Float(i)));
    }
    Err(ParseError::InvalidToken)
}

fn top_is_int(stack: &Vec<Value>) -> bool {
    matches!(stack.last(), Some(ParseValue::Token(TestTokenValue::Int(_))))
}

fn wrap_int(stack: &mut Vec<Value>) -> Result<Value, ParseError> {
    if let ParseValue::Token(TestTokenValue::Int(i)) = stack.pop().ok_or(ParseError::EOF)? {
        return Ok(ParseValue::Reduced(TestAst::Int(i)));
    }
    Err(ParseError::InvalidToken)
}

fn is_operand(v: Option<&Value>) -> bool {
    matches!(
        v,
        Some(ParseValue::Reduced(TestAst::Int(_)))
            | Some(ParseValue::Reduced(TestAst::Float(_)))
            | Some(ParseValue::Reduced(TestAst::Add(..)))
    )
}

fn binary_on(stack: &Vec<Value>, op: char) -> bool {
    let mut itr = stack.iter().rev();
    let top = matches!(itr.next(), Some(ParseValue::Token(TestTokenValue::Op(c))) if *c == op);
    top && is_operand(itr.next()) && is_operand(itr.next())
}

fn is_add(stack: &Vec<Value>) -> bool {
    binary_on(stack, '+')
}

fn is_sub(stack: &Vec<Value>) -> bool {
    binary_on(stack, '-')
}

fn pop_operands(stack: &mut Vec<Value>) -> Result<(TestAst, TestAst), ParseError> {
    if let ParseValue::Token(TestTokenValue::Op(_)) = stack.pop().ok_or(ParseError::EOF)? {
        if let ParseValue::Reduced(left) = stack.pop().ok_or(ParseError::EOF)? {
            if let ParseValue::Reduced(right) = stack.pop().ok_or(ParseError::EOF)? {
                return Ok((left, right));
            }
        }
    }
    Err(ParseError::InvalidToken)
}

fn reduce_add(stack: &mut Vec<Value>) -> Result<Value, ParseError> {
    let (left, right) = pop_operands(stack)?;
    Ok(ParseValue::Reduced(TestAst::Add(Box::new(left), Box::new(right))))
}

fn reduce_sub(stack: &mut Vec<Value>) -> Result<Value, ParseError> {
    let (left, right) = pop_operands(stack)?;
    Ok(ParseValue::Reduced(TestAst::Sub(Box::new(left), Box::new(right))))
}

/// Pops the operator, then the right operand (pushed last), then the left.
fn reduce_add_in_order(stack: &mut Vec<Value>) -> Result<Value, ParseError> {
    let (right, left) = pop_operands(stack)?;
    Ok(ParseValue::Reduced(TestAst::Add(Box::new(left), Box::new(right))))
}

fn run(parser: &mut TestParser) -> Result<(), ParseError> {
    loop {
        match parser.step() {
            Ok(true) => {},
            Ok(false) => return Ok(()),
            Err(e) => return Err(e),
        }
    }
}

#[test]
fn test_parser() {
    let tokenvals = tokenize_str("1 2 + 3 -");

    assert_eq!(tokenvals.get(2), Some(&TestTokenValue::Op('+')));

    let mut parser: TestParser = Parser::new(tokenvals.into_iter().rev().collect());

    parser.add_rule(top_is_float, wrap_float);
    parser.add_rule(top_is_int, wrap_int);
    parser.add_rule(is_add, reduce_add);
    parser.add_rule(is_sub, reduce_sub);

    loop {
        match parser.step() {
            Ok(true) => {},
            _ => break,
        }
    }

    match parser.output.last() {
        Some(&TestAst::Sub(..)) => assert!(true),
        _ => assert!(false),
    }
}

#[test]
fn add_of_two_ints() {
    let input = vec![TestTokenValue::Op('+'), TestTokenValue::Int(2), TestTokenValue::Int(1)];
    let mut parser: TestParser = Parser::new(input);
    parser.add_rule(top_is_int, wrap_int);
    parser.add_rule(top_is_float, wrap_float);
    parser.add_rule(is_add, reduce_add_in_order);
    assert!(run(&mut parser).is_ok());
    assert_eq!(
        parser.output,
        vec![TestAst::Add(Box::new(TestAst::Int(1)), Box::new(TestAst::Int(2)))]
    );
}

#[test]
fn output_is_stable_after_stop() {
    let mut parser: TestParser = Parser::new(vec![TestTokenValue::Op('*'), TestTokenValue::Int(4)]);
    parser.add_rule(top_is_int, wrap_int);
    assert!(run(&mut parser).is_ok());
    assert_eq!(parser.output, vec![TestAst::Int(4)]);
    for _ in 0..3 {
        assert!(matches!(parser.step(), Ok(false)));
        assert_eq!(parser.output, vec![TestAst::Int(4)]);
    }
}

#[test]
fn stop_keeps_reduced_entries_in_stack_order() {
    let input = vec![TestTokenValue::Float(2.5), TestTokenValue::Op('/'), TestTokenValue::Int(7)];
    let mut parser: TestParser = Parser::new(input);
    parser.add_rule(top_is_int, wrap_int);
    parser.add_rule(top_is_float, wrap_float);
    assert!(run(&mut parser).is_ok());
    assert_eq!(parser.output, vec![TestAst::Int(7), TestAst::Float(2.5)]);
}

fn top_is_int_to_float(stack: &mut Vec<Value>) -> Result<Value, ParseError> {
    if let ParseValue::Token(TestTokenValue::Int(i)) = stack.pop().ok_or(ParseError::EOF)? {
        return Ok(ParseValue::Reduced(TestAst::Float(i as f32)));
    }
    Err(ParseError::InvalidToken)
}

fn top_is_int_doubled(stack: &mut Vec<Value>) -> Result<Value, ParseError> {
    if let ParseValue::Token(TestTokenValue::Int(i)) = stack.pop().ok_or(ParseError::EOF)? {
        return Ok(ParseValue::Reduced(TestAst::Int(2 * i)));
    }
    Err(ParseError::InvalidToken)
}

#[test]
fn first_registered_rule_wins_in_every_order() {
    let rules: Vec<(Check, Reduce, TestAst)> = vec![
        (top_is_int, wrap_int, TestAst::Int(5)),
        (top_is_int, top_is_int_to_float, TestAst::Float(5.0)),
        (top_is_int, top_is_int_doubled, TestAst::Int(10)),
    ];
    let orders = [[0, 1, 2], [0, 2, 1], [1, 0, 2], [1, 2, 0], [2, 0, 1], [2, 1, 0]];
    for order in orders.iter() {
        let mut parser: TestParser = Parser::new(vec![TestTokenValue::Int(5)]);
        for &k in order.iter() {
            parser.add_rule(rules[k].0, rules[k].1);
        }
        assert!(run(&mut parser).is_ok());
        assert_eq!(parser.output.len(), 1);
        assert_eq!(parser.output[0], rules[order[0]].2);
    }
}

fn always(_: &Vec<Value>) -> bool {
    true
}

fn pop_three(stack: &mut Vec<Value>) -> Result<Value, ParseError> {
    stack.pop().ok_or(ParseError::EOF)?;
    stack.pop().ok_or(ParseError::EOF)?;
    stack.pop().ok_or(ParseError::EOF)?;
    Ok(ParseValue::Reduced(TestAst::Int(0)))
}

#[test]
fn reduction_past_the_stack_is_eof() {
    let mut parser: TestParser = Parser::new(vec![]);
    parser.add_rule(always, pop_three);
    assert!(matches!(parser.step(), Err(ParseError::EOF)));
}

#[test]
fn reducer_mismatch_is_invalid_token() {
    let mut parser: TestParser = Parser::new(vec![TestTokenValue::Float(1.0)]);
    parser.add_rule(top_is_float, wrap_int);
    assert!(matches!(parser.step(), Ok(true)));
    assert!(matches!(parser.step(), Err(ParseError::InvalidToken)));
}

#[test]
fn unreduced_tokens_are_dropped_at_stop() {
    let mut parser: TestParser = Parser::new(vec![TestTokenValue::Op('+'), TestTokenValue::Int(3)]);
    assert!(run(&mut parser).is_ok());
    assert!(parser.output.is_empty());
}

#[test]
fn pushed_input_follows_what_is_left() {
    let mut parser: TestParser = Parser::new(vec![TestTokenValue::Int(2)]);
    parser.add_rule(top_is_int, wrap_int);
    parser.push_input(vec![TestTokenValue::Int(3)]);
    assert!(run(&mut parser).is_ok());
    assert_eq!(parser.output, vec![TestAst::Int(2), TestAst::Int(3)]);
    parser.push_input(vec![TestTokenValue::Int(4)]);
    assert!(run(&mut parser).is_ok());
    assert_eq!(parser.output, vec![TestAst::Int(4)]);
}

#[test]
fn each_stop_replaces_output() {
    let mut parser: TestParser = Parser::new(vec![TestTokenValue::Int(1)]);
    parser.add_rule(top_is_int, wrap_int);
    assert!(run(&mut parser).is_ok());
    assert_eq!(parser.output, vec![TestAst::Int(1)]);
    assert!(matches!(parser.step(), Ok(false)));
    assert_eq!(parser.output, vec![TestAst::Int(1)]);
    parser.push_input(vec![TestTokenValue::Float(2.0), TestTokenValue::Int(5)]);
    assert!(run(&mut parser).is_ok());
    assert_eq!(parser.output, vec![TestAst::Int(5)]);
    parser.push_input(vec![]);
    assert!(matches!(parser.step(), Ok(false)));
    assert!(parser.output.is_empty());
}

#[test]
fn token_becomes_leaf_of_same_name() {
    let leaf: EBNFAst = TokenType::Ident("expr".to_string()).into();
    assert!(matches!(leaf, EBNFAst::Ident(ref s) if s == "expr"));
    let leaf: EBNFAst = TokenType::Literal("a".to_string()).into();
    assert!(matches!(leaf, EBNFAst::Literal(ref s) if s == "a"));
    assert!(matches!(EBNFAst::from(TokenType::Star), EBNFAst::Star));
    assert!(matches!(EBNFAst::from(TokenType::Assign), EBNFAst::Assign));
    assert!(matches!(EBNFAst::from(TokenType::LeftPar), EBNFAst::LeftPar));
    assert!(matches!(EBNFAst::from(TokenType::RightPar), EBNFAst::RightPar));
}

type EbnfValue = ParseValue<TokenType, EBNFAst>;
type EbnfParser = Parser<
    TokenType,
    EBNFAst,
    fn(&Vec<EbnfValue>) -> bool,
    fn(&mut Vec<EbnfValue>) -> Result<EbnfValue, ParseError>,
>;

#[test]
fn wrap_through_turns_tokens_into_leaves() {
    let input = vec![TokenType::Star, TokenType::Ident("rule".to_string())];
    let mut parser: EbnfParser = Parser::new(input);
    parser.add_rule(token_on_top, wrap_through);
    let mut steps = 0;
    while let Ok(true) = parser.step() {
        steps += 1;
    }
    assert_eq!(steps, 4);
    assert_eq!(parser.output.len(), 2);
    assert!(matches!(parser.output[0], EBNFAst::Ident(ref s) if s == "rule"));
    assert!(matches!(parser.output[1], EBNFAst::Star));
}

#[test]
fn wrap_through_refuses_reduced_and_empty() {
    let mut stack: Vec<EbnfValue> = vec![ParseValue::Reduced(EBNFAst::Assign)];
    assert!(!token_on_top(&stack));
    assert!(matches!(wrap_through(&mut stack), Err(ParseError::InvalidToken)));
    assert!(stack.is_empty());
    assert!(matches!(wrap_through(&mut stack), Err(ParseError::EOF)));
    stack.push(ParseValue::Token(TokenType::LeftPar));
    assert!(token_on_top(&stack));
    assert!(matches!(wrap_through(&mut stack), Ok(ParseValue::Reduced(EBNFAst::LeftPar))));
}
