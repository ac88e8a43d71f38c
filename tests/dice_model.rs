use diro::{Dice, DiroError, Verb};

#[test]
fn constructors_reject_zero_dice() {
    assert_eq!(Dice::d100(0, 0), Err(DiroError::NoDice));
    assert_eq!(Dice::dice(0, 6, 0), Err(DiroError::NoDice));
    assert_eq!(Dice::adice(0, 10, 8, 11), Err(DiroError::NoDice));
    assert_eq!(Dice::cdice(0, 10, 11), Err(DiroError::NoDice));
    assert_eq!(Dice::fdice(0), Err(DiroError::NoDice));
    assert_eq!(Dice::new(0, 6, 0, 9), Err(DiroError::NoDice));
}

#[test]
fn keep_drop_bounded_by_count() {
    assert_eq!(Dice::dice(2, 6, 3), Err(DiroError::KQTooBig));
    assert_eq!(Dice::dice(2, 6, -3), Err(DiroError::KQTooBig));
    assert_eq!(Dice::dice(2, 6, 2), Ok(Dice::Dice { count: 2, face: 6, kq: 2 }));
    assert_eq!(Dice::dice(2, 6, -2), Ok(Dice::Dice { count: 2, face: 6, kq: -2 }));
}

#[test]
fn percentile_disambiguation() {
    assert_eq!(Dice::new(2, 100, 0, 0), Ok(Dice::D100 { count: 2, bp: 0 }));
    assert_eq!(Dice::new(2, 6, 1, 0), Ok(Dice::D100 { count: 2, bp: 1 }));
    assert_eq!(Dice::new(2, 6, 0, 1), Ok(Dice::Dice { count: 2, face: 6, kq: 1 }));
    assert_eq!(Dice::default(), Dice::D100 { count: 1, bp: 0 });
}

#[test]
fn dice_notation() {
    assert_eq!(Dice::D100 { count: 1, bp: 0 }.expr(), "D100");
    assert_eq!(Dice::D100 { count: 2, bp: -1 }.expr(), "2D100P1");
    assert_eq!(Dice::D100 { count: 1, bp: 3 }.expr(), "D100B3");
    assert_eq!(Dice::Dice { count: 3, face: 6, kq: -2 }.expr(), "3D6Q2");
    assert_eq!(Dice::Dice { count: 3, face: 6, kq: 1 }.expr(), "3D6K1");
    assert_eq!(Dice::ADice { count: 5, face: 10, add_line: 6, success_line: 8 }.expr(), "5A6");
    assert_eq!(Dice::ADice { count: 2, face: 12, add_line: 11, success_line: 9 }.expr(), "2A11K9D12");
    assert_eq!(Dice::CDice { count: 3, face: 10, count_line: 6 }.expr(), "3C6M10");
    assert_eq!(Dice::FDice(4).expr(), "4F");
}

#[test]
fn verb_rendering() {
    assert_eq!(Verb::Plus.expr(), "+");
    assert_eq!(Verb::Minus.expr(), "-");
    assert_eq!(Verb::Times.expr(), "*");
    assert_eq!(Verb::Divide.expr(), "/");
    assert_eq!(Verb::Modulo.expr(), "%");
    assert_eq!(Verb::Power.expr(), "^");
    assert_eq!(Verb::Plus.priority(), 1);
    assert_eq!(Verb::Modulo.priority(), 2);
    assert_eq!(Verb::Power.priority(), 3);
}

#[test]
fn error_messages() {
    assert_eq!(DiroError::ZeroDivision.message(), "division by zero");
    assert_eq!(DiroError::SyntaxError(12).message(), "syntax error at position 12");
    assert_eq!(DiroError::NoDice.message(), "At least one dice must be present");
    assert_eq!(DiroError::KQTooBig.message(), "KQ number can't be bigger than the amount of dices");
    assert_eq!(DiroError::DiceNotRolled.message(), "Dice should roll before calculate");
    assert_eq!(DiroError::Overflow.message(), "integer overflow");
    assert_eq!(DiroError::IntParseError.message(), "number too large for its field");
}

#[test]
fn rollability() {
    assert!(Dice::Dice { count: 2, face: 6, kq: 0 }.is_rollable());
    assert!(!Dice::Dice { count: 2, face: 0, kq: 0 }.is_rollable());
    assert!(!Dice::FDice(0).is_rollable());
    assert!(diro::parse("2d6+3").unwrap().is_rollable());
    assert!(!diro::parse("2d0+3").unwrap().is_rollable());
    let rolled = diro::DiroAst::Dice(
        Dice::Dice { count: 2, face: 0, kq: 0 },
        Some(diro::RollResult::Dice { kq: 0, result: vec![1, 1] }),
    );
    assert!(rolled.is_rollable());
}

#[test]
fn extreme_modifiers_read_back() {
    let d = Dice::d100(1, -128).unwrap();
    assert_eq!(d.expr(), "D100P128");
    assert_eq!(diro::parse(&d.expr()), Ok(diro::DiroAst::Dice(d, None)));
    let d = Dice::dice(200, 6, -128).unwrap();
    assert_eq!(d.expr(), "200D6Q128");
    assert_eq!(diro::parse(&d.expr()), Ok(diro::DiroAst::Dice(d, None)));
    assert_eq!(diro::parse("d100b128"), Err(DiroError::IntParseError));
    assert_eq!(diro::parse("200d6k128"), Err(DiroError::IntParseError));
}
