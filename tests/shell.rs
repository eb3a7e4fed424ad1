use urmsim::machine::Machine;
use urmsim::parser::UrmParser;
use urmsim::shell::{apply_register_args, command_of, Command};
use urmsim::text::parse_usize_text;

fn load(text: &str) -> Machine {
    UrmParser::new(text.to_string()).parse().unwrap()
}

fn words(args: &[&str]) -> Vec<String> {
    args.iter().map(|a| a.to_string()).collect()
}

#[test]
fn command_words_and_short_forms() {
    assert_eq!(command_of("exit"), Some(Command::Exit));
    assert_eq!(command_of("help"), Some(Command::Help));
    assert_eq!(command_of("h"), Some(Command::Help));
    assert_eq!(command_of("list"), Some(Command::List));
    assert_eq!(command_of("l"), Some(Command::List));
    assert_eq!(command_of("pc"), Some(Command::Pc));
    assert_eq!(command_of("registers"), Some(Command::Registers));
    assert_eq!(command_of("reg"), Some(Command::Registers));
    assert_eq!(command_of("run"), Some(Command::Run));
    assert_eq!(command_of("r"), Some(Command::Run));
    assert_eq!(command_of("step"), Some(Command::Step));
    assert_eq!(command_of("s"), Some(Command::Step));
    assert_eq!(command_of("Step"), None);
    assert_eq!(command_of(""), None);
    assert_eq!(command_of("regs"), None);
}

#[test]
fn positional_register_values() {
    let mut m = load("S(1)");
    assert!(apply_register_args(&mut m, &words(&["4", "-2", "7"])));
    assert_eq!(m.get_register(1), 4);
    assert_eq!(m.get_register(2), -2);
    assert_eq!(m.get_register(3), 7);
    assert_eq!(m.register_count(), 3);
}

#[test]
fn named_register_values() {
    let mut m = load("S(1)");
    assert!(apply_register_args(&mut m, &words(&["5=9", "2=+3", "0=8"])));
    assert_eq!(m.get_register(5), 9);
    assert_eq!(m.get_register(2), 3);
    assert_eq!(m.get_register(1), 0);
    assert_eq!(m.register_count(), 5);
}

#[test]
fn positional_index_counts_named_arguments() {
    let mut m = load("S(1)");
    assert!(apply_register_args(&mut m, &words(&["4=1", "6"])));
    assert_eq!(m.get_register(4), 1);
    assert_eq!(m.get_register(2), 6);
}

#[test]
fn bad_positional_value_stops_and_shows() {
    let mut m = load("S(1)");
    assert!(apply_register_args(&mut m, &words(&["1", "x", "3"])));
    assert_eq!(m.get_register(1), 1);
    assert_eq!(m.get_register(3), 0);
    assert!(apply_register_args(&mut m, &words(&[""])));
}

#[test]
fn bad_named_value_stops_without_showing() {
    let mut m = load("S(1)");
    assert!(!apply_register_args(&mut m, &words(&["2=5", "x=1", "3=3"])));
    assert_eq!(m.get_register(2), 5);
    assert_eq!(m.get_register(3), 0);
    assert!(!apply_register_args(&mut m, &words(&["-1=4"])));
    assert!(!apply_register_args(&mut m, &words(&["1=y"])));
    assert_eq!(m.get_register(1), 0);
}

#[test]
fn second_equals_sign_ends_the_value() {
    let mut m = load("S(1)");
    assert!(apply_register_args(&mut m, &words(&["1=2=3"])));
    assert_eq!(m.get_register(1), 2);
}

#[test]
fn no_arguments_just_shows() {
    let mut m = load("S(1)");
    assert!(apply_register_args(&mut m, &Vec::new()));
    assert_eq!(m.register_count(), 0);
}

#[test]
fn unsigned_numbers() {
    assert_eq!(parse_usize_text("0"), Some(0));
    assert_eq!(parse_usize_text("42"), Some(42));
    assert_eq!(parse_usize_text("+7"), Some(7));
    assert_eq!(parse_usize_text("-1"), None);
    assert_eq!(parse_usize_text("+"), None);
    assert_eq!(parse_usize_text(""), None);
    assert_eq!(parse_usize_text("1a"), None);
    assert_eq!(parse_usize_text(&usize::MAX.to_string()), Some(usize::MAX));
    assert_eq!(parse_usize_text("99999999999999999999999"), None);
}
