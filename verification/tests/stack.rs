use data_structures::stack::{
    check_parenthesis, max_stack_answers, maximum_sliding_window, pushed_word, MaxCachedStack,
    StackCommand,
};
use std::collections::HashMap;

#[test]
fn test_check_parenthesis_examples() {
    let tokens: HashMap<char, char> = [('[', ']'), ('(', ')'), ('{', '}')]
        .iter()
        .cloned()
        .collect();
    assert_eq!(check_parenthesis("[]", &tokens), Ok(()));
    assert_eq!(check_parenthesis("[", &tokens), Err(1));
    assert_eq!(check_parenthesis("{[}", &tokens), Err(3));
    assert_eq!(check_parenthesis("foo(bar)", &tokens), Ok(()));
    assert_eq!(check_parenthesis("foo(bar[i)", &tokens), Err(10));
}

#[test]
fn test_max_cached_stack_examples() {
    let commands = [
        StackCommand::Push(2usize),
        StackCommand::Push(1),
        StackCommand::Max,
        StackCommand::Pop,
        StackCommand::Max,
    ];
    assert_eq!(max_stack_answers(&commands), vec![Some(2), Some(2)]);
}

#[test]
fn test_max_sliding_window_example() {
    let elements = [2, 7, 3, 1, 5, 2, 6, 2];
    let expect = vec![7, 7, 5, 6, 6];
    assert_eq!(maximum_sliding_window(4, &elements), expect);
}

fn brackets() -> HashMap<char, char> {
    let mut tokens = HashMap::new();
    tokens.insert('[', ']');
    tokens.insert('(', ')');
    tokens.insert('{', '}');
    tokens
}

#[test]
fn text_without_brackets_is_fine() {
    assert_eq!(check_parenthesis("", &brackets()), Ok(()));
    assert_eq!(check_parenthesis("plain text", &brackets()), Ok(()));
    assert_eq!(check_parenthesis("([{}])[]", &HashMap::new()), Ok(()));
}

#[test]
fn closing_without_opening_is_the_fault() {
    assert_eq!(check_parenthesis("]", &brackets()), Err(1));
    assert_eq!(check_parenthesis("()]", &brackets()), Err(3));
    assert_eq!(check_parenthesis("a(b)c)d(", &brackets()), Err(6));
}

#[test]
fn innermost_open_bracket_is_reported_at_the_end() {
    assert_eq!(check_parenthesis("(([]", &brackets()), Err(2));
    assert_eq!(check_parenthesis("x{y[z", &brackets()), Err(4));
}

#[test]
fn positions_count_characters_not_bytes() {
    assert_eq!(check_parenthesis("äö(ü]", &brackets()), Err(5));
    assert_eq!(check_parenthesis("äö(ü", &brackets()), Err(3));
}

#[test]
fn a_token_that_opens_and_closes_counts_as_opening() {
    let mut tokens = HashMap::new();
    tokens.insert('|', '|');
    assert_eq!(check_parenthesis("||", &tokens), Err(2));
}

#[test]
fn only_the_tokens_given_are_brackets() {
    let mut tokens = HashMap::new();
    tokens.insert('<', '>');
    assert_eq!(check_parenthesis("(<>]", &tokens), Ok(()));
    assert_eq!(check_parenthesis("<(>", &tokens), Ok(()));
    assert_eq!(check_parenthesis("<<>", &tokens), Err(1));
}

#[test]
fn stack_knows_its_maximum() {
    let mut stack: MaxCachedStack<(usize, usize)> = MaxCachedStack::new();
    assert_eq!(stack.max(), None);
    assert_eq!(stack.pop(), None);
    stack.push(3);
    assert_eq!(stack.max(), Some(3));
    stack.push(7);
    assert_eq!(stack.max(), Some(7));
    stack.push(5);
    assert_eq!(stack.max(), Some(7));
    stack.push(7);
    assert_eq!(stack.max(), Some(7));
    assert_eq!(stack.pop(), Some(7));
    assert_eq!(stack.max(), Some(7));
    assert_eq!(stack.pop(), Some(5));
    assert_eq!(stack.pop(), Some(7));
    assert_eq!(stack.max(), Some(3));
    assert_eq!(stack.pop(), Some(3));
    assert_eq!(stack.max(), None);
    assert_eq!(stack.pop(), None);
}

#[test]
fn stack_with_capacity_starts_empty() {
    let mut stack: MaxCachedStack<(i64, i64)> = MaxCachedStack::with_capacity(16);
    assert_eq!(stack.max(), None);
    stack.push(-4);
    stack.push(-9);
    assert_eq!(stack.max(), Some(-4));
}

#[test]
fn commands_are_read_from_words() {
    assert!(matches!(
        StackCommand::<usize>::from_str(&["push", "3"]),
        Some(StackCommand::Push(3))
    ));
    assert!(matches!(
        StackCommand::<i32>::from_str(&["push", "-12"]),
        Some(StackCommand::Push(-12))
    ));
    assert!(matches!(
        StackCommand::<usize>::from_str(&["pop"]),
        Some(StackCommand::Pop)
    ));
    assert!(matches!(
        StackCommand::<usize>::from_str(&["max"]),
        Some(StackCommand::Max)
    ));
}

#[test]
fn words_that_are_no_command_give_none() {
    assert!(StackCommand::<usize>::from_str(&[]).is_none());
    assert!(StackCommand::<usize>::from_str(&["push"]).is_none());
    assert!(StackCommand::<usize>::from_str(&["push", "x"]).is_none());
    assert!(StackCommand::<usize>::from_str(&["push", "-1"]).is_none());
    assert!(StackCommand::<usize>::from_str(&["push", "1", "2"]).is_none());
    assert!(StackCommand::<usize>::from_str(&["pop", "1"]).is_none());
    assert!(StackCommand::<usize>::from_str(&["max", "1"]).is_none());
    assert!(StackCommand::<usize>::from_str(&["Pop"]).is_none());
    assert!(StackCommand::<usize>::from_str(&["maxi"]).is_none());
    assert!(StackCommand::<usize>::from_str(&["3", "push"]).is_none());
}

#[test]
fn command_from_parts_takes_the_parsed_value() {
    assert!(matches!(
        StackCommand::<usize>::from_parts(&["push", "whatever"], Some(8)),
        Some(StackCommand::Push(8))
    ));
    assert!(StackCommand::<usize>::from_parts(&["push", "8"], None).is_none());
    assert!(matches!(
        StackCommand::<usize>::from_parts(&["pop"], Some(8)),
        Some(StackCommand::Pop)
    ));
    assert!(StackCommand::<usize>::from_parts(&["drop"], Some(8)).is_none());
}

#[test]
fn query_on_an_empty_stack_answers_none() {
    let commands = [
        StackCommand::Max,
        StackCommand::Pop,
        StackCommand::Push(4usize),
        StackCommand::Max,
        StackCommand::Pop,
        StackCommand::Max,
    ];
    assert_eq!(max_stack_answers(&commands), vec![None, Some(4), None]);
    let none: [StackCommand<usize>; 0] = [];
    assert_eq!(max_stack_answers(&none), Vec::<Option<usize>>::new());
}

#[test]
fn window_wider_than_the_input_gives_the_overall_maximum() {
    assert_eq!(maximum_sliding_window(10, &[3, 9, 4]), vec![9]);
    assert_eq!(maximum_sliding_window(3, &[3, 9, 4]), vec![9]);
    assert_eq!(maximum_sliding_window(1, &[6]), vec![6]);
}

#[test]
fn window_of_one_gives_the_input() {
    assert_eq!(maximum_sliding_window(1, &[3, 9, 4, 4, 0]), vec![3, 9, 4, 4, 0]);
}

#[test]
fn window_maxima_on_runs_and_ties() {
    assert_eq!(maximum_sliding_window(2, &[5, 4, 3, 2, 1]), vec![5, 4, 3, 2]);
    assert_eq!(maximum_sliding_window(2, &[1, 2, 3, 4, 5]), vec![2, 3, 4, 5]);
    assert_eq!(maximum_sliding_window(3, &[7, 7, 7, 7]), vec![7, 7]);
    assert_eq!(maximum_sliding_window(3, &[9, 1, 1, 1, 8]), vec![9, 1, 8]);
}

#[test]
fn the_second_word_of_a_push_goes_to_the_parser() {
    assert_eq!(pushed_word(&["push", "3"]), Some("3"));
    assert_eq!(pushed_word(&["push", "push"]), Some("push"));
    assert_eq!(pushed_word(&["push", ""]), Some(""));
    assert_eq!(pushed_word(&["3", "push"]), None);
    assert_eq!(pushed_word(&["push"]), None);
    assert_eq!(pushed_word(&["push", "1", "2"]), None);
    assert_eq!(pushed_word(&["pop"]), None);
    assert_eq!(pushed_word(&[]), None);
    assert!(matches!(
        StackCommand::<usize>::from_str(&["push", "17"]),
        Some(StackCommand::Push(17))
    ));
    assert!(StackCommand::<usize>::from_str(&["17", "push"]).is_none());
}
