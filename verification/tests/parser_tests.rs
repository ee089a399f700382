use brainfuck::parser::{format_error_message, parse, BFCommand, ParseError, ParseErrors};

const UNOPENED: &str = "Found a closing ']' without an opening '['";
const UNCLOSED: &str = "Found an opening '[' without a closing ']'";

fn messages(code: &str) -> Vec<String> {
    parse(String::from(code))
        .unwrap_err()
        .errors
        .into_iter()
        .map(|error| error.message)
        .collect()
}

#[test]
fn parser_test_parse_single_characters() {
    assert_eq!(parse(String::from("+")).unwrap(), vec![BFCommand::Increment]);
    assert_eq!(parse(String::from("-")).unwrap(), vec![BFCommand::Decrement]);
    assert_eq!(parse(String::from(">")).unwrap(), vec![BFCommand::DataPtrIncrement]);
    assert_eq!(parse(String::from("<")).unwrap(), vec![BFCommand::DataPtrDecrement]);
    assert_eq!(parse(String::from(".")).unwrap(), vec![BFCommand::OutputByte]);
    assert_eq!(parse(String::from(",")).unwrap(), vec![BFCommand::InputByte]);
}

#[test]
fn parser_test_err_empty_input() {
    assert_eq!(
        parse(String::from("")).unwrap_err().errors.pop().unwrap().message,
        "Empty input"
    );
}

#[test]
fn test_unmatch_closing_parens1() {
    let mut val = parse(String::from("++.,<<>>]")).unwrap_err();
    println!("{}", val.errors.pop().unwrap().message);
    let message = parse(String::from("]")).unwrap_err().errors.pop().unwrap().message;
    assert_ne!(message, "Empty input");
    assert_eq!(
        message,
        "Line 1: ]\n--------^ Error here\n\nFound a closing ']' without an opening '['"
    );
}

#[test]
fn parser_test_unmatch_closing_parens() {
    let mut val = parse(String::from("]")).unwrap_err();
    println!("{}", val.errors.pop().unwrap().message);
    let message = parse(String::from("]")).unwrap_err().errors.pop().unwrap().message;
    assert_ne!(message, "Empty input");
    assert_eq!(
        message,
        "Line 1: ]\n--------^ Error here\n\nFound a closing ']' without an opening '['"
    );
}

#[test]
fn parse_test_parse_single_characters() {
    assert_eq!(
        parse(String::from("+")).unwrap(),
        vec![BFCommand::Increment]
    );
    assert_eq!(
        parse(String::from("-")).unwrap(),
        vec![BFCommand::Decrement]
    );
    assert_eq!(
        parse(String::from(">")).unwrap(),
        vec![BFCommand::DataPtrIncrement]
    );
    assert_eq!(
        parse(String::from("<")).unwrap(),
        vec![BFCommand::DataPtrDecrement]
    );
    assert_eq!(
        parse(String::from(".")).unwrap(),
        vec![BFCommand::OutputByte]
    );
    assert_eq!(
        parse(String::from(",")).unwrap(),
        vec![BFCommand::InputByte]
    );
}

#[test]
fn parse_test_err_empty_input() {
    assert_eq!(
        parse(String::from(""))
            .unwrap_err()
            .errors
            .pop()
            .unwrap()
            .message,
        "Empty input"
    );
}

#[test]
fn parse_test_unmatch_closing_parens() {
    assert_eq!(
        parse(String::from("++.,<<>>]")).unwrap_err().errors.pop().unwrap().message,
        "Line 1: ++.,<<>>]\n----------------^ Error here\n\nFound a closing ']' without an opening '['"
    );
}

#[test]
fn test_unmatch_closing_leading_parens() {
    assert_eq!(
        parse(String::from("]"))
            .unwrap_err()
            .errors
            .pop()
            .unwrap()
            .message,
        "Line 1: ]\n--------^ Error here\n\nFound a closing ']' without an opening '['"
    );
}

#[test]
fn test_unmatch_opening_parens() {
    assert_eq!(
        parse(String::from("["))
            .unwrap_err()
            .errors
            .pop()
            .unwrap()
            .message,
        "Line 1: [\n--------^ Error here\n\nFound an opening '[' without a closing ']'"
    );
}

#[test]
fn test_paren_matching() {
    assert_eq!(
        parse(String::from("[]")).unwrap(),
        vec![BFCommand::ForwardGoto(1), BFCommand::BackwardGoto(0),]
    );
}

#[test]
fn test_nested_paren_matching() {
    assert_eq!(
        parse(String::from("[+>[>]]")).unwrap(),
        vec![
            BFCommand::ForwardGoto(6),
            BFCommand::Increment,
            BFCommand::DataPtrIncrement,
            BFCommand::ForwardGoto(5),
            BFCommand::DataPtrIncrement,
            BFCommand::BackwardGoto(3),
            BFCommand::BackwardGoto(0),
        ]
    );
}

#[test]
fn empty_input_is_the_only_error_of_an_empty_text() {
    assert_eq!(messages(""), vec![String::from("Empty input")]);
}

#[test]
fn single_unmatched_bracket_gives_one_error() {
    assert_eq!(messages("]").len(), 1);
    assert_eq!(messages("[").len(), 1);
}

#[test]
fn compiling_twice_gives_the_same_commands() {
    let code = "++[>+[-]<-]>.,[[]]";
    let first = parse(String::from(code)).unwrap();
    let second = parse(String::from(code)).unwrap();
    assert_eq!(first, second);
    assert_eq!(messages("][\n]["), messages("][\n]["));
}

#[test]
fn other_characters_are_skipped() {
    assert_eq!(
        parse(String::from("a +\tb\n- \u{e9}.")).unwrap(),
        vec![BFCommand::Increment, BFCommand::Decrement, BFCommand::OutputByte]
    );
}

#[test]
fn text_without_commands_compiles_to_nothing() {
    assert_eq!(parse(String::from(" \nhello\n")).unwrap(), vec![]);
}

#[test]
fn targets_count_commands_not_characters() {
    assert_eq!(
        parse(String::from("x[ y\n+ ]z")).unwrap(),
        vec![
            BFCommand::ForwardGoto(2),
            BFCommand::Increment,
            BFCommand::BackwardGoto(0),
        ]
    );
}

#[test]
fn sibling_loops_are_paired_separately() {
    assert_eq!(
        parse(String::from("[][-]")).unwrap(),
        vec![
            BFCommand::ForwardGoto(1),
            BFCommand::BackwardGoto(0),
            BFCommand::ForwardGoto(4),
            BFCommand::Decrement,
            BFCommand::BackwardGoto(2),
        ]
    );
}

#[test]
fn every_jump_names_its_partner() {
    let code = "++++++++[>++++[>++>+++>+++>+<<<<-]>+>+>->>+[<]<-]>>.[[[]][]]";
    let commands = parse(String::from(code)).unwrap();
    let mut jumps = 0;
    for (index, command) in commands.iter().enumerate() {
        match command {
            BFCommand::ForwardGoto(target) => {
                assert!(index < *target && *target < commands.len());
                assert_eq!(commands[*target], BFCommand::BackwardGoto(index));
                jumps += 1;
            }
            BFCommand::BackwardGoto(target) => {
                assert!(*target < index);
                assert_eq!(commands[*target], BFCommand::ForwardGoto(index));
                jumps += 1;
            }
            _ => {}
        }
    }
    assert_eq!(jumps, 14);
}

#[test]
fn every_unmatched_closing_bracket_is_reported_in_order() {
    assert_eq!(
        messages("]+]"),
        vec![
            format!("Line 1: ]+]\n--------^ Error here\n\n{}", UNOPENED),
            format!("Line 1: ]+]\n----------^ Error here\n\n{}", UNOPENED),
        ]
    );
}

#[test]
fn unmatched_opening_brackets_are_reported_innermost_first() {
    assert_eq!(
        messages("[+["),
        vec![
            format!("Line 1: [+[\n----------^ Error here\n\n{}", UNCLOSED),
            format!("Line 1: [+[\n--------^ Error here\n\n{}", UNCLOSED),
        ]
    );
}

#[test]
fn closing_errors_come_before_opening_errors() {
    assert_eq!(
        messages("[]]\n[[]"),
        vec![
            format!("Line 1: []]\n----------^ Error here\n\n{}", UNOPENED),
            format!("Line 2: [[]\n--------^ Error here\n\n{}", UNCLOSED),
        ]
    );
}

#[test]
fn an_unmatched_opening_bracket_is_located_on_its_own_line() {
    assert_eq!(
        messages("+\n  [\n\n+++"),
        vec![format!("Line 2:   [\n----------^ Error here\n\n{}", UNCLOSED)]
    );
}

#[test]
fn the_column_restarts_on_each_line() {
    assert_eq!(
        messages("++++\n+]"),
        vec![format!("Line 2: +]\n---------^ Error here\n\n{}", UNOPENED)]
    );
}

#[test]
fn a_matched_pair_between_errors_is_not_reported() {
    assert_eq!(
        messages("[[]"),
        vec![format!("Line 1: [[]\n--------^ Error here\n\n{}", UNCLOSED)]
    );
    assert_eq!(
        messages("[]]"),
        vec![format!("Line 1: []]\n----------^ Error here\n\n{}", UNOPENED)]
    );
}

#[test]
fn line_numbers_of_several_digits() {
    let mut code = String::new();
    for _ in 0..120 {
        code.push('\n');
    }
    code.push_str(" ]");
    assert_eq!(
        messages(&code),
        vec![format!("Line 121:  ]\n---------^ Error here\n\n{}", UNOPENED)]
    );
    let mut code = String::new();
    for _ in 0..9 {
        code.push_str("+\n");
    }
    code.push(']');
    assert_eq!(
        messages(&code),
        vec![format!("Line 10: ]\n--------^ Error here\n\n{}", UNOPENED)]
    );
}

#[test]
fn a_carriage_return_before_a_line_feed_is_not_part_of_the_line() {
    assert_eq!(
        messages("+]\r\n+"),
        vec![format!("Line 1: +]\n---------^ Error here\n\n{}", UNOPENED)]
    );
    assert_eq!(
        messages("+]\r"),
        vec![format!("Line 1: +]\r\n---------^ Error here\n\n{}", UNOPENED)]
    );
    assert_eq!(
        messages("\r\n]"),
        vec![format!("Line 2: ]\n--------^ Error here\n\n{}", UNOPENED)]
    );
}

#[test]
fn characters_of_several_bytes_count_as_one_column() {
    assert_eq!(
        messages("\u{e9}\u{1F600}]"),
        vec![format!(
            "Line 1: \u{e9}\u{1F600}]\n----------^ Error here\n\n{}",
            UNOPENED
        )]
    );
}

#[test]
fn format_error_message_lays_out_line_caret_and_text() {
    assert_eq!(
        format_error_message("ab\ncde\nf", 2, 5, "wrong"),
        "Line 2: cde\n----------^ Error here\n\nwrong"
    );
    assert_eq!(
        format_error_message("ab\ncde\nf", 3, 7, ""),
        "Line 3: f\n--------^ Error here\n\n"
    );
}

#[test]
fn format_error_message_takes_line_and_position_as_given() {
    assert_eq!(
        format_error_message("ab\ncde", 1, 4, "x"),
        "Line 1: ab\n---------^ Error here\n\nx"
    );
}

#[test]
fn format_error_message_of_a_line_that_is_not_there() {
    assert_eq!(
        format_error_message("ab\n", 2, 1, "x"),
        "Line 2: \n---------^ Error here\n\nx"
    );
    assert_eq!(
        format_error_message("ab", 7, 0, "x"),
        "Line 7: \n--------^ Error here\n\nx"
    );
    assert_eq!(
        format_error_message("ab", 0, 0, "x"),
        "Line 0: \n--------^ Error here\n\nx"
    );
    assert_eq!(
        format_error_message("", 1, 0, "x"),
        "Line 1: \n--------^ Error here\n\nx"
    );
}

#[test]
fn format_error_message_of_a_position_beyond_the_text() {
    assert_eq!(
        format_error_message("ab\ncd", 2, 99, "x"),
        "Line 2: cd\n----------^ Error here\n\nx"
    );
    assert_eq!(
        format_error_message("ab\n", 1, 99, "x"),
        "Line 1: ab\n--------^ Error here\n\nx"
    );
}

#[test]
fn format_error_message_of_empty_lines() {
    assert_eq!(
        format_error_message("a\n\nb", 2, 2, "x"),
        "Line 2: \n--------^ Error here\n\nx"
    );
    assert_eq!(
        format_error_message("a\n\nb", 3, 3, "x"),
        "Line 3: b\n--------^ Error here\n\nx"
    );
}

#[test]
fn parse_error_new_keeps_the_message() {
    assert_eq!(ParseError::new("some text").message, "some text");
    assert_eq!(ParseError::new("").message, "");
}

#[test]
fn parse_errors_new_is_empty() {
    assert!(ParseErrors::new().errors.is_empty());
}
