use std::collections::HashMap;

use lib::ast::{Abstain, Expr, Program, Stmt, StmtBody, StmtProps, VType, Var};
use lib::err::{ErrCode, RtError};
use lib::eval::{Action, Eval, Event, Phase, Val};

fn stmt(body: StmtBody, line: usize) -> Stmt {
    Stmt {
        body,
        props: StmtProps { srcline: line, onthewayto: line + 1, chance: 100, disabled: false },
        comefrom: None,
    }
}

fn num(v: u32) -> Expr {
    Expr::Num(VType::I16, v)
}

fn spot(n: usize) -> Expr {
    Expr::Var(Var::I16(n))
}

fn program(stmts: Vec<Stmt>, kinds: Vec<Abstain>, labels: Vec<(u16, u16)>, vars: (usize, usize, usize, usize)) -> Program {
    let mut map = HashMap::new();
    for (l, i) in labels {
        map.insert(l, i);
    }
    Program { stmts, labels: map, stmt_types: kinds, var_info: vars }
}

struct Outcome {
    numbers: Vec<String>,
    text: String,
    bytes: Vec<u8>,
    result: Result<usize, RtError>,
}

fn run(p: &Program, seed: u32, mut lines: Vec<&str>, mut input: Vec<u16>) -> Outcome {
    let mut e = Eval::new(p, seed, false);
    let mut out = Outcome { numbers: vec![], text: String::new(), bytes: vec![], result: Ok(0) };
    lines.reverse();
    let mut ev = Event::Nothing;
    for _ in 0..10000 {
        match e.step(ev) {
            Action::Continue => ev = Event::Nothing,
            Action::WriteNumber(s) => {
                out.numbers.push(s);
                ev = Event::Nothing;
            }
            Action::WriteText(s) => {
                out.text.push_str(&s);
                ev = Event::Nothing;
            }
            Action::WriteBytes(b) => {
                out.bytes.extend(b);
                ev = Event::Written(true);
            }
            Action::ReadLine => {
                ev = match lines.pop() {
                    Some(l) => Event::Line(l.to_string(), l.len()),
                    None => Event::ReadFailed,
                };
            }
            Action::ReadBytes(n) => {
                let mut got = vec![];
                for _ in 0..n {
                    got.push(if input.is_empty() { 256 } else { input.remove(0) });
                }
                ev = Event::Bytes(got);
            }
            Action::Finished(r) => {
                out.result = r;
                return out;
            }
            Action::Crash => panic!("interpreter crashed"),
            Action::Trace => ev = Event::Nothing,
        }
    }
    panic!("program did not finish")
}

#[test]
fn val_conversions() {
    assert_eq!(Val::from_u32(5), Val::I16(5));
    assert_eq!(Val::from_u32(0xffff), Val::I16(0xffff));
    assert_eq!(Val::from_u32(0x10000), Val::I32(0x10000));
    assert_eq!(Val::from_u32(70000).as_u32(), 70000);
    assert_eq!(Val::I16(9).as_usize(), 9);
    assert_eq!(Val::I32(0xffff).as_u16().unwrap(), 0xffff);
    assert_eq!(Val::I32(0x10000).as_u16().unwrap_err().code, ErrCode::IE275);
}

#[test]
fn assign_and_read_out() {
    let p = program(
        vec![
            stmt(StmtBody::Calc(Var::I16(0), num(5)), 1),
            stmt(StmtBody::ReadOut(vec![spot(0), num(4)]), 2),
            stmt(StmtBody::GiveUp, 3),
        ],
        vec![Abstain::Calc, Abstain::ReadOut, Abstain::Label(0)],
        vec![],
        (1, 0, 0, 0),
    );
    let o = run(&p, 0, vec![], vec![]);
    assert_eq!(o.numbers, vec![" \nV\n".to_string(), "  \nIV\n".to_string()]);
    assert_eq!(o.result.unwrap(), 3);
}

#[test]
fn falling_off_the_end_is_ie633() {
    let p = program(
        vec![stmt(StmtBody::Calc(Var::I16(0), num(1)), 1)],
        vec![Abstain::Calc],
        vec![],
        (1, 0, 0, 0),
    );
    let e = run(&p, 0, vec![], vec![]).result.unwrap_err();
    assert_eq!(e.code, ErrCode::IE633);
}

#[test]
fn try_again_restarts_and_may_fall_off() {
    let p = program(
        vec![
            stmt(StmtBody::ReadOut(vec![num(1)]), 1),
            stmt(StmtBody::Abstain(None, vec![Abstain::TryAgain]), 2),
            stmt(StmtBody::TryAgain, 3),
        ],
        vec![Abstain::ReadOut, Abstain::Abstain, Abstain::TryAgain],
        vec![],
        (0, 0, 0, 0),
    );
    let o = run(&p, 0, vec![], vec![]);
    assert_eq!(o.numbers.len(), 1);
    assert_eq!(o.result.unwrap(), 3);
}

#[test]
fn next_and_resume() {
    let p = program(
        vec![
            stmt(StmtBody::DoNext(10), 1),
            stmt(StmtBody::ReadOut(vec![num(1)]), 2),
            stmt(StmtBody::GiveUp, 3),
            stmt(StmtBody::ReadOut(vec![num(2)]), 4),
            stmt(StmtBody::Resume(num(1)), 5),
        ],
        vec![Abstain::Next, Abstain::ReadOut, Abstain::Label(0), Abstain::ReadOut, Abstain::Resume],
        vec![(10, 3)],
        (0, 0, 0, 0),
    );
    let o = run(&p, 0, vec![], vec![]);
    assert_eq!(o.numbers, vec!["  \nII\n".to_string(), " \nI\n".to_string()]);
    assert_eq!(o.result.unwrap(), 5);
}

#[test]
fn next_to_missing_label_is_ie129() {
    let p = program(
        vec![stmt(StmtBody::DoNext(77), 4), stmt(StmtBody::GiveUp, 5)],
        vec![Abstain::Next, Abstain::Label(0)],
        vec![],
        (0, 0, 0, 0),
    );
    let e = run(&p, 0, vec![], vec![]).result.unwrap_err();
    assert_eq!(e.code, ErrCode::IE129);
    assert_eq!(e.line, 5);
}

#[test]
fn resume_with_empty_stack_is_ie632() {
    let p = program(
        vec![stmt(StmtBody::Resume(num(1)), 1), stmt(StmtBody::GiveUp, 2)],
        vec![Abstain::Resume, Abstain::Label(0)],
        vec![],
        (0, 0, 0, 0),
    );
    let e = run(&p, 0, vec![], vec![]).result.unwrap_err();
    assert_eq!(e.code, ErrCode::IE632);
    assert_eq!(e.line, 2);
}

#[test]
fn stash_retrieve_restores() {
    let p = program(
        vec![
            stmt(StmtBody::Calc(Var::I16(0), num(1)), 1),
            stmt(StmtBody::Stash(vec![Var::I16(0)]), 2),
            stmt(StmtBody::Calc(Var::I16(0), num(2)), 3),
            stmt(StmtBody::Retrieve(vec![Var::I16(0)]), 4),
            stmt(StmtBody::ReadOut(vec![spot(0)]), 5),
            stmt(StmtBody::GiveUp, 6),
        ],
        vec![Abstain::Calc, Abstain::Stash, Abstain::Calc, Abstain::Retrieve, Abstain::ReadOut, Abstain::Label(0)],
        vec![],
        (1, 0, 0, 0),
    );
    let o = run(&p, 0, vec![], vec![]);
    assert_eq!(o.numbers, vec![" \nI\n".to_string()]);
}

#[test]
fn retrieve_without_stash_is_ie436() {
    let p = program(
        vec![stmt(StmtBody::Retrieve(vec![Var::I16(0)]), 1), stmt(StmtBody::GiveUp, 2)],
        vec![Abstain::Retrieve, Abstain::Label(0)],
        vec![],
        (1, 0, 0, 0),
    );
    assert_eq!(run(&p, 0, vec![], vec![]).result.unwrap_err().code, ErrCode::IE436);
}

#[test]
fn ignore_and_remember() {
    let p = program(
        vec![
            stmt(StmtBody::Calc(Var::I16(0), num(1)), 1),
            stmt(StmtBody::Ignore(vec![Var::I16(0)]), 2),
            stmt(StmtBody::Calc(Var::I16(0), num(2)), 3),
            stmt(StmtBody::ReadOut(vec![spot(0)]), 4),
            stmt(StmtBody::Remember(vec![Var::I16(0)]), 5),
            stmt(StmtBody::Calc(Var::I16(0), num(3)), 6),
            stmt(StmtBody::ReadOut(vec![spot(0)]), 7),
            stmt(StmtBody::GiveUp, 8),
        ],
        vec![
            Abstain::Calc,
            Abstain::Ignore,
            Abstain::Calc,
            Abstain::ReadOut,
            Abstain::Remember,
            Abstain::Calc,
            Abstain::ReadOut,
            Abstain::Label(0),
        ],
        vec![],
        (1, 0, 0, 0),
    );
    let o = run(&p, 0, vec![], vec![]);
    assert_eq!(o.numbers, vec![" \nI\n".to_string(), "   \nIII\n".to_string()]);
}

#[test]
fn abstain_and_reinstate_by_gerund_and_label() {
    let p = program(
        vec![
            stmt(StmtBody::Abstain(None, vec![Abstain::ReadOut]), 1),
            stmt(StmtBody::ReadOut(vec![num(1)]), 2),
            stmt(StmtBody::Reinstate(vec![Abstain::Label(5)]), 3),
            stmt(StmtBody::ReadOut(vec![num(2)]), 4),
            stmt(StmtBody::GiveUp, 5),
        ],
        vec![Abstain::Abstain, Abstain::ReadOut, Abstain::Reinstate, Abstain::ReadOut, Abstain::Label(0)],
        vec![(5, 3)],
        (0, 0, 0, 0),
    );
    let o = run(&p, 0, vec![], vec![]);
    assert_eq!(o.numbers, vec!["  \nII\n".to_string()]);
}

#[test]
fn initially_disabled_statement_is_skipped() {
    let mut skipped = stmt(StmtBody::ReadOut(vec![num(1)]), 1);
    skipped.props.disabled = true;
    let p = program(
        vec![skipped, stmt(StmtBody::GiveUp, 2)],
        vec![Abstain::ReadOut, Abstain::Label(0)],
        vec![],
        (0, 0, 0, 0),
    );
    let o = run(&p, 0, vec![], vec![]);
    assert!(o.numbers.is_empty());
    assert_eq!(o.result.unwrap(), 2);
}

#[test]
fn come_from_redirects() {
    let mut first = stmt(StmtBody::ReadOut(vec![num(1)]), 1);
    first.comefrom = Some(2);
    let p = program(
        vec![
            first,
            stmt(StmtBody::ReadOut(vec![num(2)]), 2),
            stmt(StmtBody::ComeFrom(0), 3),
            stmt(StmtBody::GiveUp, 4),
        ],
        vec![Abstain::ReadOut, Abstain::ReadOut, Abstain::ComeFrom, Abstain::Label(0)],
        vec![],
        (0, 0, 0, 0),
    );
    let o = run(&p, 0, vec![], vec![]);
    assert_eq!(o.numbers, vec![" \nI\n".to_string()]);
    assert_eq!(o.result.unwrap(), 3);
}

#[test]
fn write_in_number() {
    let p = program(
        vec![
            stmt(StmtBody::WriteIn(vec![Var::I16(0)]), 1),
            stmt(StmtBody::ReadOut(vec![spot(0)]), 2),
            stmt(StmtBody::GiveUp, 3),
        ],
        vec![Abstain::WriteIn, Abstain::ReadOut, Abstain::Label(0)],
        vec![],
        (1, 0, 0, 0),
    );
    let o = run(&p, 0, vec!["ONE TWO\n"], vec![]);
    assert_eq!(o.numbers, vec!["   \nXII\n".to_string()]);
}

#[test]
fn write_in_errors() {
    let p = program(
        vec![stmt(StmtBody::WriteIn(vec![Var::I16(0)]), 1), stmt(StmtBody::GiveUp, 2)],
        vec![Abstain::WriteIn, Abstain::Label(0)],
        vec![],
        (1, 0, 0, 0),
    );
    let e = run(&p, 0, vec![], vec![]).result.unwrap_err();
    assert_eq!(e.code, ErrCode::IE562);
    assert_eq!(e.line, 2);
    let e = run(&p, 0, vec!["\n"], vec![]).result.unwrap_err();
    assert_eq!(e.code, ErrCode::IE562);
    let e = run(&p, 0, vec!["BANANA\n"], vec![]).result.unwrap_err();
    assert_eq!(e.code, ErrCode::IE579);
    assert_eq!(e.word, Some("BANANA".to_string()));
    let e = run(&p, 0, vec!["SEVEN ZERO ZERO ZERO ZERO\n"], vec![]).result.unwrap_err();
    assert_eq!(e.code, ErrCode::IE275);
}

#[test]
fn character_io_through_arrays() {
    let p = program(
        vec![
            stmt(StmtBody::Dim(Var::A16(0, vec![]), vec![num(2)]), 1),
            stmt(StmtBody::Calc(Var::A16(0, vec![num(1)]), num(238)), 2),
            stmt(StmtBody::Calc(Var::A16(0, vec![num(2)]), num(124)), 3),
            stmt(StmtBody::ReadOut(vec![Expr::Var(Var::A16(0, vec![]))]), 4),
            stmt(StmtBody::WriteIn(vec![Var::A16(0, vec![])]), 5),
            stmt(StmtBody::Calc(Var::I16(0), Expr::Var(Var::A16(0, vec![num(2)]))), 6),
            stmt(StmtBody::ReadOut(vec![spot(0)]), 7),
            stmt(StmtBody::GiveUp, 8),
        ],
        vec![
            Abstain::Calc,
            Abstain::Calc,
            Abstain::Calc,
            Abstain::ReadOut,
            Abstain::WriteIn,
            Abstain::Calc,
            Abstain::ReadOut,
            Abstain::Label(0),
        ],
        vec![],
        (1, 0, 1, 0),
    );
    let o = run(&p, 0, vec![], vec![72, 105]);
    assert_eq!(o.bytes, b"Hi".to_vec());
    assert_eq!(o.numbers, vec!["      \nXXXIII\n".to_string()]);
}

#[test]
fn print_writes_text() {
    let p = program(
        vec![stmt(StmtBody::Print("Hello".to_string()), 1), stmt(StmtBody::GiveUp, 2)],
        vec![Abstain::Label(0), Abstain::Label(0)],
        vec![],
        (0, 0, 0, 0),
    );
    assert_eq!(run(&p, 0, vec![], vec![]).text, "Hello");
}

#[test]
fn expressions_are_evaluated() {
    let mingled = Expr::Mingle(Box::new(num(0xffff)), Box::new(num(0)));
    let selected = Expr::Select(VType::I16, Box::new(Expr::Num(VType::I32, 0x1234_5678)), Box::new(num(0xff)));
    let p = program(
        vec![
            stmt(StmtBody::Calc(Var::I32(0), mingled), 1),
            stmt(StmtBody::Calc(Var::I16(0), selected), 2),
            stmt(StmtBody::Calc(Var::I16(1), Expr::Xor(VType::I16, Box::new(num(1)))), 3),
            stmt(
                StmtBody::ReadOut(vec![Expr::Var(Var::I32(0)), spot(0), spot(1)]),
                4,
            ),
            stmt(StmtBody::GiveUp, 5),
        ],
        vec![Abstain::Calc, Abstain::Calc, Abstain::Calc, Abstain::ReadOut, Abstain::Label(0)],
        vec![],
        (2, 1, 0, 0),
    );
    let o = run(&p, 0, vec![], vec![]);
    assert_eq!(o.numbers[0], lib::numerals::to_roman(0xaaaa_aaaa));
    assert_eq!(o.numbers[1], lib::numerals::to_roman(0x78));
    assert_eq!(o.numbers[2], lib::numerals::to_roman(0x8001));
}

#[test]
fn assigning_a_large_value_to_a_spot_is_ie275() {
    let p = program(
        vec![
            stmt(StmtBody::Calc(Var::I16(0), Expr::Num(VType::I32, 0x10000)), 1),
            stmt(StmtBody::GiveUp, 2),
        ],
        vec![Abstain::Calc, Abstain::Label(0)],
        vec![],
        (1, 0, 0, 0),
    );
    assert_eq!(run(&p, 0, vec![], vec![]).result.unwrap_err().code, ErrCode::IE275);
}

#[test]
fn mingle_of_large_value_is_ie533() {
    let m = Expr::Mingle(Box::new(Expr::Num(VType::I32, 0x10000)), Box::new(num(0)));
    let p = program(
        vec![stmt(StmtBody::Calc(Var::I32(0), m), 1), stmt(StmtBody::GiveUp, 2)],
        vec![Abstain::Calc, Abstain::Label(0)],
        vec![],
        (0, 1, 0, 0),
    );
    assert_eq!(run(&p, 0, vec![], vec![]).result.unwrap_err().code, ErrCode::IE533);
}

#[test]
fn error_statement_reports_its_error() {
    let p = program(
        vec![stmt(StmtBody::Error(RtError { code: ErrCode::IE000, word: Some("GARBAGE".to_string()), line: 0 }), 1)],
        vec![Abstain::Label(0)],
        vec![],
        (0, 0, 0, 0),
    );
    let e = run(&p, 0, vec![], vec![]).result.unwrap_err();
    assert_eq!(e.code, ErrCode::IE000);
    assert_eq!(e.word, Some("GARBAGE".to_string()));
    assert_eq!(e.line, 2);
}

#[test]
fn step_after_finish_crashes_and_phase_is_done() {
    let p = program(vec![stmt(StmtBody::GiveUp, 1)], vec![Abstain::Label(0)], vec![], (0, 0, 0, 0));
    let mut e = Eval::new(&p, 0, false);
    assert!(matches!(e.step(Event::Nothing), Action::Finished(Ok(1))));
    assert_eq!(e.phase, Phase::Done);
    assert!(matches!(e.step(Event::Nothing), Action::Crash));
}

#[test]
fn zero_chance_statement_never_runs() {
    let mut never = stmt(StmtBody::ReadOut(vec![num(1)]), 1);
    never.props.chance = 0;
    let p = program(vec![never, stmt(StmtBody::GiveUp, 2)], vec![Abstain::ReadOut, Abstain::Label(0)], vec![], (0, 0, 0, 0));
    let o = run(&p, 99, vec![], vec![]);
    assert!(o.numbers.is_empty());
}

fn abstain_times_then_reinstate(times: u32, reinstates: usize) -> usize {
    let mut stmts = vec![stmt(StmtBody::Abstain(Some(num(times)), vec![Abstain::ReadOut]), 1)];
    let mut kinds = vec![Abstain::Abstain];
    for i in 0..reinstates {
        stmts.push(stmt(StmtBody::Reinstate(vec![Abstain::ReadOut]), 2 + i));
        kinds.push(Abstain::Reinstate);
    }
    stmts.push(stmt(StmtBody::ReadOut(vec![num(1)]), 10));
    kinds.push(Abstain::ReadOut);
    stmts.push(stmt(StmtBody::GiveUp, 11));
    kinds.push(Abstain::Label(0));
    let p = program(stmts, kinds, vec![], (0, 0, 0, 0));
    run(&p, 0, vec![], vec![]).numbers.len()
}

#[test]
fn abstain_n_times_needs_n_reinstates() {
    assert_eq!(abstain_times_then_reinstate(3, 3), 1);
    assert_eq!(abstain_times_then_reinstate(3, 2), 0);
    assert_eq!(abstain_times_then_reinstate(0, 0), 1);
    assert_eq!(abstain_times_then_reinstate(1, 4), 1);
}

#[test]
fn stash_retrieve_of_ignored_variable_restores_everything() {
    let p = program(
        vec![
            stmt(StmtBody::Calc(Var::I16(0), num(8)), 1),
            stmt(StmtBody::Ignore(vec![Var::I16(0)]), 2),
            stmt(StmtBody::Stash(vec![Var::I16(0)]), 3),
            stmt(StmtBody::Retrieve(vec![Var::I16(0)]), 4),
            stmt(StmtBody::Calc(Var::I16(0), num(9)), 5),
            stmt(StmtBody::ReadOut(vec![spot(0)]), 6),
            stmt(StmtBody::GiveUp, 7),
        ],
        vec![
            Abstain::Calc,
            Abstain::Ignore,
            Abstain::Stash,
            Abstain::Retrieve,
            Abstain::Calc,
            Abstain::ReadOut,
            Abstain::Label(0),
        ],
        vec![],
        (1, 0, 0, 0),
    );
    let o = run(&p, 0, vec![], vec![]);
    assert_eq!(o.numbers, vec!["    \nVIII\n".to_string()]);
}

#[test]
fn too_many_nexts_is_ie123() {
    let p = program(
        vec![stmt(StmtBody::DoNext(1), 1), stmt(StmtBody::GiveUp, 2)],
        vec![Abstain::Next, Abstain::Label(0)],
        vec![(1, 0)],
        (0, 0, 0, 0),
    );
    let e = run(&p, 0, vec![], vec![]).result.unwrap_err();
    assert_eq!(e.code, ErrCode::IE123);
    // an error in a NEXT is reported at the line of the statement it jumps to
    assert_eq!(e.line, 1);
}

#[test]
fn resume_zero_is_ie621() {
    let p = program(
        vec![stmt(StmtBody::Resume(num(0)), 1), stmt(StmtBody::GiveUp, 2)],
        vec![Abstain::Resume, Abstain::Label(0)],
        vec![],
        (0, 0, 0, 0),
    );
    assert_eq!(run(&p, 0, vec![], vec![]).result.unwrap_err().code, ErrCode::IE621);
}

#[test]
fn forget_more_than_stacked_is_fine() {
    let p = program(
        vec![stmt(StmtBody::Forget(num(5)), 1), stmt(StmtBody::GiveUp, 2)],
        vec![Abstain::Forget, Abstain::Label(0)],
        vec![],
        (0, 0, 0, 0),
    );
    assert_eq!(run(&p, 0, vec![], vec![]).result.unwrap(), 2);
}

#[test]
fn failed_byte_write_is_ie252() {
    let p = program(
        vec![
            stmt(StmtBody::Dim(Var::A16(0, vec![]), vec![num(1)]), 1),
            stmt(StmtBody::ReadOut(vec![Expr::Var(Var::A16(0, vec![]))]), 2),
            stmt(StmtBody::GiveUp, 3),
        ],
        vec![Abstain::Calc, Abstain::ReadOut, Abstain::Label(0)],
        vec![],
        (0, 0, 1, 0),
    );
    let mut e = Eval::new(&p, 0, false);
    let mut ev = Event::Nothing;
    let result = loop {
        ev = match e.step(ev) {
            Action::WriteBytes(_) => Event::Written(false),
            Action::Finished(r) => break r,
            Action::Crash => panic!("crashed"),
            _ => Event::Nothing,
        };
    };
    let err = result.unwrap_err();
    assert_eq!(err.code, ErrCode::IE252);
    assert_eq!(err.line, 3);
}

#[test]
fn readout_of_undimensioned_array_is_ie241() {
    let p = program(
        vec![
            stmt(StmtBody::ReadOut(vec![Expr::Var(Var::A32(0, vec![]))]), 1),
            stmt(StmtBody::GiveUp, 2),
        ],
        vec![Abstain::ReadOut, Abstain::Label(0)],
        vec![],
        (0, 0, 0, 1),
    );
    assert_eq!(run(&p, 0, vec![], vec![]).result.unwrap_err().code, ErrCode::IE241);
}

#[test]
fn dimension_with_zero_in_program_is_ie240() {
    let p = program(
        vec![
            stmt(StmtBody::Dim(Var::A32(0, vec![]), vec![num(2), num(0)]), 1),
            stmt(StmtBody::GiveUp, 2),
        ],
        vec![Abstain::Calc, Abstain::Label(0)],
        vec![],
        (0, 0, 0, 1),
    );
    let e = run(&p, 0, vec![], vec![]).result.unwrap_err();
    assert_eq!(e.code, ErrCode::IE240);
    assert_eq!(e.line, 2);
}

#[test]
fn element_of_undimensioned_array_cannot_be_read() {
    let p = program(
        vec![
            stmt(StmtBody::Calc(Var::I16(0), Expr::Var(Var::A16(0, vec![num(1)]))), 1),
            stmt(StmtBody::GiveUp, 2),
        ],
        vec![Abstain::Calc, Abstain::Label(0)],
        vec![],
        (1, 0, 1, 0),
    );
    assert_eq!(run(&p, 0, vec![], vec![]).result.unwrap_err().code, ErrCode::IE241);
}

#[test]
fn programs_with_bare_array_names_are_well_formed() {
    let p = program(
        vec![
            stmt(StmtBody::Dim(Var::A32(0, vec![]), vec![num(3)]), 1),
            stmt(StmtBody::WriteIn(vec![Var::A32(0, vec![])]), 2),
            stmt(StmtBody::ReadOut(vec![Expr::Var(Var::A32(0, vec![]))]), 3),
            stmt(StmtBody::GiveUp, 4),
        ],
        vec![Abstain::Calc, Abstain::WriteIn, Abstain::ReadOut, Abstain::Label(0)],
        vec![],
        (0, 0, 0, 1),
    );
    let o = run(&p, 0, vec![], vec![b'a' as u16, b'b' as u16]);
    assert_eq!(o.bytes.len(), 3);
    assert!(o.result.is_ok());
}

#[test]
fn program_with_unreached_bad_statement_runs() {
    let p = program(
        vec![stmt(StmtBody::GiveUp, 1), stmt(StmtBody::Calc(Var::I16(0), num(1)), 2)],
        vec![Abstain::Label(0), Abstain::Calc],
        vec![],
        (0, 0, 0, 0),
    );
    assert_eq!(run(&p, 0, vec![], vec![]).result.unwrap(), 1);
}

fn crashes(p: &Program) -> bool {
    let mut e = Eval::new(p, 0, false);
    let mut ev = Event::Nothing;
    for _ in 0..1000 {
        ev = match e.step(ev) {
            Action::Crash => return true,
            Action::Finished(_) => return false,
            Action::WriteBytes(_) => Event::Written(true),
            Action::ReadLine => Event::Line("ONE\n".to_string(), 4),
            Action::ReadBytes(n) => Event::Bytes(vec![256; n]),
            _ => Event::Nothing,
        };
    }
    false
}

#[test]
fn reaching_a_missing_variable_crashes() {
    let assign = program(
        vec![stmt(StmtBody::Calc(Var::I16(0), num(1)), 1), stmt(StmtBody::GiveUp, 2)],
        vec![Abstain::Calc, Abstain::Label(0)],
        vec![],
        (0, 0, 0, 0),
    );
    assert!(crashes(&assign));
    let read = program(
        vec![stmt(StmtBody::ReadOut(vec![Expr::Var(Var::I32(3))]), 1), stmt(StmtBody::GiveUp, 2)],
        vec![Abstain::ReadOut, Abstain::Label(0)],
        vec![],
        (0, 1, 0, 0),
    );
    assert!(crashes(&read));
    let stash = program(
        vec![stmt(StmtBody::Stash(vec![Var::A16(0, vec![])]), 1), stmt(StmtBody::GiveUp, 2)],
        vec![Abstain::Stash, Abstain::Label(0)],
        vec![],
        (0, 0, 0, 0),
    );
    assert!(crashes(&stash));
    let dim = program(
        vec![stmt(StmtBody::Dim(Var::I16(0), vec![num(2)]), 1), stmt(StmtBody::GiveUp, 2)],
        vec![Abstain::Calc, Abstain::Label(0)],
        vec![],
        (1, 0, 0, 0),
    );
    assert!(crashes(&dim));
}

#[test]
fn retrieve_error_comes_before_a_missing_variable() {
    let p = program(
        vec![stmt(StmtBody::Retrieve(vec![Var::I16(0), Var::I16(5)]), 1), stmt(StmtBody::GiveUp, 2)],
        vec![Abstain::Retrieve, Abstain::Label(0)],
        vec![],
        (1, 0, 0, 0),
    );
    assert_eq!(run(&p, 0, vec![], vec![]).result.unwrap_err().code, ErrCode::IE436);
}

#[test]
fn bad_labels_and_come_from_crash_when_reached() {
    let reinstate = program(
        vec![stmt(StmtBody::Reinstate(vec![Abstain::Label(4)]), 1), stmt(StmtBody::GiveUp, 2)],
        vec![Abstain::Reinstate, Abstain::Label(0)],
        vec![],
        (0, 0, 0, 0),
    );
    assert!(crashes(&reinstate));
    let mut first = stmt(StmtBody::ComeFrom(0), 1);
    first.comefrom = Some(9);
    let come_from = program(vec![first, stmt(StmtBody::GiveUp, 2)], vec![Abstain::ComeFrom, Abstain::Label(0)], vec![], (0, 0, 0, 0));
    assert!(crashes(&come_from));
    let readout_expr = program(
        vec![stmt(StmtBody::ReadOut(vec![Expr::RsNot(Box::new(num(1)))]), 1), stmt(StmtBody::GiveUp, 2)],
        vec![Abstain::ReadOut, Abstain::Label(0)],
        vec![],
        (0, 0, 0, 0),
    );
    assert!(crashes(&readout_expr));
    let empty = program(vec![], vec![], vec![], (0, 0, 0, 0));
    assert!(crashes(&empty));
}

#[test]
fn next_to_label_past_the_end_falls_off() {
    let p = program(
        vec![stmt(StmtBody::DoNext(7), 1), stmt(StmtBody::GiveUp, 2)],
        vec![Abstain::Next, Abstain::Label(0)],
        vec![(7, 40)],
        (0, 0, 0, 0),
    );
    assert_eq!(run(&p, 0, vec![], vec![]).result.unwrap_err().code, ErrCode::IE633);
}

#[test]
fn debug_mode_traces_each_statement_that_runs() {
    let mut skipped = stmt(StmtBody::ReadOut(vec![num(1)]), 2);
    skipped.props.disabled = true;
    let p = program(
        vec![stmt(StmtBody::Calc(Var::I16(0), num(3)), 1), skipped, stmt(StmtBody::GiveUp, 3)],
        vec![Abstain::Calc, Abstain::ReadOut, Abstain::Label(0)],
        vec![],
        (1, 0, 0, 0),
    );
    let mut e = Eval::new(&p, 0, true);
    let mut traced = vec![];
    let mut ev = Event::Nothing;
    let result = loop {
        ev = match e.step(ev) {
            Action::Trace => {
                traced.push((e.pctr, e.stmt_ctr, e.spot[0].val));
                Event::Nothing
            }
            Action::Finished(r) => break r,
            Action::Crash => panic!("crashed"),
            _ => Event::Nothing,
        };
    };
    assert_eq!(traced, vec![(0, 1, 0), (2, 3, 3)]);
    assert_eq!(result.unwrap(), 3);
}

#[test]
fn zero_subscript_in_program_is_ie241() {
    let p = program(
        vec![
            stmt(StmtBody::Dim(Var::A16(0, vec![]), vec![num(2)]), 1),
            stmt(StmtBody::Calc(Var::A16(0, vec![num(0)]), num(4)), 2),
            stmt(StmtBody::GiveUp, 3),
        ],
        vec![Abstain::Calc, Abstain::Calc, Abstain::Label(0)],
        vec![],
        (0, 0, 1, 0),
    );
    let e = run(&p, 0, vec![], vec![]).result.unwrap_err();
    assert_eq!(e.code, ErrCode::IE241);
    assert_eq!(e.line, 3);
}

#[test]
fn write_in_of_a_long_number_is_ie533() {
    let p = program(
        vec![stmt(StmtBody::WriteIn(vec![Var::I32(0)]), 1), stmt(StmtBody::GiveUp, 2)],
        vec![Abstain::WriteIn, Abstain::Label(0)],
        vec![],
        (0, 1, 0, 0),
    );
    let line = "NINE ".repeat(30) + "\n";
    assert_eq!(run(&p, 0, vec![&line], vec![]).result.unwrap_err().code, ErrCode::IE533);
}
