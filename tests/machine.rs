use urmsim::machine::{InstructionType, Machine, StepOutcome};
use urmsim::parser::UrmParser;

fn load(text: &str) -> Machine {
    UrmParser::new(text.to_string()).parse().expect("program should load")
}

#[test]
fn registers_start_at_zero() {
    let m = load("S(1)");
    for r in 0..20 {
        assert_eq!(m.get_register(r), 0);
    }
    assert_eq!(m.register_count(), 0);
}

#[test]
fn unwritten_register_stays_zero_after_other_writes() {
    let mut m = load("S(1)");
    m.set_register(5, 9);
    m.set_register(2, -4);
    assert_eq!(m.get_register(1), 0);
    assert_eq!(m.get_register(3), 0);
    assert_eq!(m.get_register(4), 0);
    assert_eq!(m.get_register(6), 0);
    assert_eq!(m.get_register(100), 0);
}

#[test]
fn set_then_get_register() {
    let mut m = load("S(1)");
    m.set_register(3, 42);
    assert_eq!(m.get_register(3), 42);
    assert_eq!(m.register_count(), 3);
    m.set_register(1, -7);
    assert_eq!(m.get_register(1), -7);
    assert_eq!(m.get_register(2), 0);
    assert_eq!(m.get_register(3), 42);
    assert_eq!(m.register_count(), 3);
    m.set_register(3, i32::MIN);
    assert_eq!(m.get_register(3), i32::MIN);
}

#[test]
fn set_program_counter_in_range() {
    let mut m = load("S(1)\nS(2)\nS(3)");
    assert_eq!(m.get_program_counter(), 1);
    assert_eq!(m.set_program_counter(3), Ok(3));
    assert_eq!(m.get_program_counter(), 3);
    assert_eq!(m.set_program_counter(1), Ok(1));
    assert_eq!(m.get_program_counter(), 1);
}

#[test]
fn set_program_counter_out_of_range() {
    let mut m = load("S(1)\nS(2)\nS(3)");
    m.set_program_counter(2).unwrap();
    assert!(m.set_program_counter(0).is_err());
    assert_eq!(m.get_program_counter(), 2);
    let count = m.get_instruction_count();
    assert!(m.set_program_counter(count + 1).is_err());
    assert_eq!(m.get_program_counter(), 2);
}

#[test]
fn set_program_counter_on_empty_program() {
    let mut m = load("; nothing here\n\n");
    assert_eq!(m.get_instruction_count(), 0);
    assert!(m.set_program_counter(1).is_err());
    assert_eq!(m.get_program_counter(), 1);
}

#[test]
fn reset_twice_is_reset_once() {
    let mut m = load("S(1)\nS(1)\nS(2)");
    m.set_register(4, 8);
    m.run();
    m.reset();
    assert_eq!(m.register_count(), 0);
    assert_eq!(m.get_program_counter(), 1);
    m.reset();
    assert_eq!(m.register_count(), 0);
    assert_eq!(m.get_program_counter(), 1);
    assert_eq!(m.get_register(4), 0);
    assert_eq!(m.get_instruction_count(), 3);
}

#[test]
fn scenario_single_successor() {
    let mut m = load("S(1)");
    match m.step(false) {
        StepOutcome::Executed(None) => {}
        other => panic!("unexpected outcome {:?}", other),
    }
    assert_eq!(m.get_register(1), 1);
    assert_eq!(m.get_program_counter(), 2);
    match m.step(false) {
        StepOutcome::NoInstructionsLeft => {}
        other => panic!("unexpected outcome {:?}", other),
    }
    let mut fresh = load("S(1)");
    assert_eq!(fresh.run(), 1);
    assert_eq!(fresh.get_register(1), 1);
}

#[test]
fn scenario_jump_falls_through() {
    let mut m = load("J(1,2,3)\nS(1)\nT(1,2)");
    m.set_register(1, 0);
    m.set_register(2, 5);
    assert_eq!(m.run(), 3);
    assert_eq!(m.get_register(1), 1);
    assert_eq!(m.get_register(2), 1);
    assert_eq!(m.get_program_counter(), 4);
}

#[test]
fn scenario_jump_falls_through_by_steps() {
    let mut m = load("J(1,2,3)\nS(1)\nT(1,2)");
    m.set_register(1, 0);
    m.set_register(2, 5);
    m.step(false);
    assert_eq!(m.get_program_counter(), 2);
    m.step(false);
    assert_eq!(m.get_register(1), 1);
    assert_eq!(m.get_program_counter(), 3);
    assert_eq!(m.run(), 1);
    assert_eq!(m.get_register(2), 1);
    assert_eq!(m.get_program_counter(), 4);
}

#[test]
fn scenario_bad_program_counters() {
    let mut m = load("J(1,2,3)\nS(1)\nT(1,2)");
    let before = m.get_program_counter();
    assert!(m.set_program_counter(0).is_err());
    assert_eq!(m.get_program_counter(), before);
    let past = m.get_instruction_count() + 1;
    assert!(m.set_program_counter(past).is_err());
    assert_eq!(m.get_program_counter(), before);
}

#[test]
fn scenario_self_jump_never_ends() {
    let mut m = load("J(1,1,1)");
    for _ in 0..1000 {
        match m.step(false) {
            StepOutcome::Executed(_) => {}
            StepOutcome::NoInstructionsLeft => panic!("the program should not end"),
        }
        assert_eq!(m.get_program_counter(), 1);
    }
    assert_eq!(m.run_with_limit(5000), 5000);
    assert_eq!(m.get_program_counter(), 1);
}

#[test]
fn jump_taken_when_equal() {
    let mut m = load("J(1,2,3)\nS(1)\nS(2)");
    assert_eq!(m.run(), 2);
    assert_eq!(m.get_register(1), 0);
    assert_eq!(m.get_register(2), 1);
}

#[test]
fn jump_past_end_terminates() {
    let mut m = load("J(1,1,9)\nS(1)");
    assert_eq!(m.run(), 1);
    assert_eq!(m.get_program_counter(), 9);
    assert_eq!(m.get_register(1), 0);
    match m.step(false) {
        StepOutcome::NoInstructionsLeft => {}
        other => panic!("unexpected outcome {:?}", other),
    }
}

#[test]
fn zero_and_transfer() {
    let mut m = load("Z(1)\nT(2,3)");
    m.set_register(1, 11);
    m.set_register(2, 22);
    assert_eq!(m.run(), 2);
    assert_eq!(m.get_register(1), 0);
    assert_eq!(m.get_register(2), 22);
    assert_eq!(m.get_register(3), 22);
}

#[test]
fn successor_wraps_at_largest_value() {
    let mut m = load("S(1)");
    m.set_register(1, i32::MAX);
    m.run();
    assert_eq!(m.get_register(1), i32::MIN);
}

#[test]
fn step_reports_instruction_text() {
    let mut m = load("j(1, 2, 3)\nS(1)\nT(1,2)");
    match m.step(true) {
        StepOutcome::Executed(Some(text)) => assert_eq!(text, "J(1,2,3)"),
        other => panic!("unexpected outcome {:?}", other),
    }
}

#[test]
fn run_with_limit_stops_early() {
    let mut m = load("S(1)\nS(1)\nS(1)\nS(1)");
    assert_eq!(m.run_with_limit(2), 2);
    assert_eq!(m.get_register(1), 2);
    assert_eq!(m.get_program_counter(), 3);
    assert_eq!(m.run_with_limit(10), 2);
    assert_eq!(m.get_register(1), 4);
    assert_eq!(m.run_with_limit(10), 0);
}

#[test]
fn counting_loop() {
    // Adds register 2 to register 1, counting with register 3.
    let mut m = load("J(2,3,5)\nS(1)\nS(3)\nJ(1,1,1)");
    m.set_register(1, 4);
    m.set_register(2, 3);
    let steps = m.run();
    assert_eq!(m.get_register(1), 7);
    assert_eq!(m.get_register(3), 3);
    assert_eq!(steps, 13);
    assert_eq!(m.get_program_counter(), 5);
}

#[test]
fn machine_new_starts_at_first_instruction() {
    let m = Machine::new(vec![3, 4], Vec::new());
    assert_eq!(m.get_register(1), 3);
    assert_eq!(m.get_register(2), 4);
    assert_eq!(m.get_register(3), 0);
    assert_eq!(m.get_program_counter(), 1);
    assert_eq!(m.get_instruction_count(), 0);
}

#[test]
fn instruction_kind_codes() {
    assert_eq!(InstructionType::from_str("J"), Ok(InstructionType::Jump));
    assert_eq!(InstructionType::from_str("S"), Ok(InstructionType::Successor));
    assert_eq!(InstructionType::from_str("T"), Ok(InstructionType::Transfer));
    assert_eq!(InstructionType::from_str("Z"), Ok(InstructionType::Zero));
    assert_eq!(InstructionType::from_str("X"), Err(()));
    assert_eq!(InstructionType::from_str("JS"), Err(()));
    assert_eq!(InstructionType::from_str(""), Err(()));
    assert_eq!(InstructionType::Transfer.to_string(), "T");
    assert_eq!(InstructionType::from_code('Z'), Some(InstructionType::Zero));
    assert_eq!(InstructionType::from_code('z'), None);
}
