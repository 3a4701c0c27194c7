use scope_eval::demos::{
    add, add_one, apply_operation, calculate, calculate_length, change, divide_with_remainder,
    early_return, explicit_return, first_word, get_operation, gives_ownership, implicit_return,
    letter_grade, modify_string, multiply, parse_number, safe_divide, Operation,
};

#[test]
fn gives_ownership_returns_string() {
    assert_eq!(gives_ownership(), "返回的字符串");
}

#[test]
fn calculate_length_counts_bytes() {
    assert_eq!(calculate_length(&"hello".to_string()), 5);
    assert_eq!(calculate_length(&"中".to_string()), 3);
    assert_eq!(calculate_length(&String::new()), 0);
}

#[test]
fn change_appends_world() {
    let mut s = "hello".to_string();
    change(&mut s);
    assert_eq!(s, "hello, world");
}

#[test]
fn modify_string_appends_world_bang() {
    let mut s = "hello".to_string();
    modify_string(&mut s);
    assert_eq!(s, "hello, world!");
}

#[test]
fn first_word_cases() {
    assert_eq!(first_word(&"hello world".to_string()), "hello");
    assert_eq!(first_word(&"hello".to_string()), "hello");
    assert_eq!(first_word(&"".to_string()), "");
    assert_eq!(first_word(&" lead".to_string()), "");
    assert_eq!(first_word(&"你好 世界".to_string()), "你好");
}

#[test]
fn small_arithmetic() {
    assert_eq!(add_one(5), 6);
    assert_eq!(add(5, 3), 8);
    assert_eq!(multiply(4, 7), 28);
    assert_eq!(implicit_return(5), 10);
    assert_eq!(explicit_return(10), 30);
    assert_eq!(early_return(-5), 0);
    assert_eq!(early_return(4), 8);
}

#[test]
fn calculate_each_operator() {
    assert_eq!(calculate(10, 5, '+'), 15);
    assert_eq!(calculate(10, 5, '-'), 5);
    assert_eq!(calculate(10, 5, '*'), 50);
    assert_eq!(calculate(10, 5, '/'), 2);
    assert_eq!(calculate(-7, 2, '/'), -3);
    assert_eq!(calculate(10, 5, '%'), 0);
}

#[test]
fn division_rounds_toward_zero() {
    assert_eq!(divide_with_remainder(17, 5), (3, 2));
    assert_eq!(divide_with_remainder(-17, 5), (-3, -2));
    assert_eq!(divide_with_remainder(17, -5), (-3, 2));
    assert_eq!(divide_with_remainder(-17, -5), (3, -2));
    assert_eq!(safe_divide(10, 2), Some(5));
    assert_eq!(safe_divide(10, 0), None);
    assert_eq!(safe_divide(i32::MIN, 2), Some(-1073741824));
}

#[test]
fn parse_number_cases() {
    assert_eq!(parse_number("42"), Ok(42));
    assert_eq!(parse_number("-17"), Ok(-17));
    assert_eq!(parse_number("+8"), Ok(8));
    assert_eq!(parse_number("2147483647"), Ok(i32::MAX));
    assert_eq!(parse_number("2147483648"), Err("无法解析为数字"));
    assert_eq!(parse_number("abc"), Err("无法解析为数字"));
    assert_eq!(parse_number(""), Err("无法解析为数字"));
    assert_eq!(parse_number(" 1"), Err("无法解析为数字"));
}

#[test]
fn operations_as_values() {
    assert_eq!(apply_operation(5, 3, add), 8);
    assert_eq!(apply_operation(5, 3, multiply), 15);
    assert_eq!(apply_operation(10, 2, |a, b| a - b), 8);
    assert_eq!(get_operation('+'), Operation::Add);
    assert_eq!(get_operation('*'), Operation::Multiply);
    assert_eq!(get_operation('?'), Operation::Add);
    assert_eq!(get_operation('+').apply(8, 3), 11);
    assert_eq!(get_operation('*').apply(8, 3), 24);
}

#[test]
fn letter_grades() {
    assert_eq!(letter_grade(85), "B");
    assert_eq!(letter_grade(100), "A");
    assert_eq!(letter_grade(90), "A");
    assert_eq!(letter_grade(79), "C");
    assert_eq!(letter_grade(60), "D");
    assert_eq!(letter_grade(59), "F");
    assert_eq!(letter_grade(101), "F");
}
