use diro::{parse, Dice, DiroAst, DiroError, RollResult, Verb};

fn value_of(source: &str) -> Result<i32, DiroError> {
    parse(source).unwrap().calc()
}

fn without_groups(t: DiroAst) -> DiroAst {
    match t {
        DiroAst::Closed(inner) => without_groups(*inner),
        DiroAst::DyadicOP { verb, lhs, rhs } => DiroAst::DyadicOP {
            verb,
            lhs: Box::new(without_groups(*lhs)),
            rhs: Box::new(without_groups(*rhs)),
        },
        other => other,
    }
}

#[test]
fn precedence_and_grouping() {
    assert_eq!(value_of("10-3-2"), Ok(5));
    assert_eq!(value_of("2+3x4"), Ok(14));
    assert_eq!(value_of("(2+3)x4"), Ok(20));
    assert_eq!(value_of("2x3+4"), Ok(10));
    assert_eq!(value_of("100/10/5"), Ok(2));
    assert_eq!(value_of("2^3^2"), Ok(64));
    assert_eq!(value_of("2+3*4-1"), Ok(13));
    assert_eq!(value_of("10-2-3-4"), Ok(1));
    assert_eq!(value_of("2 X 3 * 4"), Ok(24));
    assert_eq!(value_of("-11 + 2 x ((2 + 2) - 1) / 3"), Ok(-9));
}

#[test]
fn division_by_zero_anywhere() {
    assert_eq!(value_of("1/0"), Err(DiroError::ZeroDivision));
    assert_eq!(value_of("5/((1-1)*3)+2"), Err(DiroError::ZeroDivision));
    assert_eq!(value_of("7%0"), Err(DiroError::ZeroDivision));
}

#[test]
fn integer_arithmetic() {
    assert_eq!(value_of("-7/2"), Ok(-3));
    assert_eq!(value_of("-7%2"), Ok(-1));
    assert_eq!(value_of("7%-2"), Ok(1));
    assert_eq!(value_of("0^0"), Ok(1));
    assert_eq!(value_of("1^-1"), Ok(1));
    assert_eq!(value_of("-1^3"), Ok(-1));
    assert_eq!(value_of("-2^31"), Ok(i32::MIN));
    assert_eq!(value_of("-2147483648"), Ok(i32::MIN));
}

#[test]
fn arithmetic_overflow() {
    assert_eq!(value_of("2147483647+1"), Err(DiroError::Overflow));
    assert_eq!(value_of("2^31"), Err(DiroError::Overflow));
    assert_eq!(value_of("2^-1"), Err(DiroError::Overflow));
    assert_eq!(value_of("-2147483648/-1"), Err(DiroError::Overflow));
}

#[test]
fn parse_errors() {
    assert_eq!(parse("3d6+").unwrap_err(), DiroError::SyntaxError(4));
    assert_eq!(parse("(1+2").unwrap_err(), DiroError::SyntaxError(4));
    assert_eq!(parse("3e6").unwrap_err(), DiroError::SyntaxError(0));
    assert_eq!(parse("1 2").unwrap_err(), DiroError::SyntaxError(2));
    assert_eq!(parse("300d6").unwrap_err(), DiroError::IntParseError);
    assert_eq!(parse("2147483648").unwrap_err(), DiroError::IntParseError);
    assert_eq!(parse("1d100b200").unwrap_err(), DiroError::IntParseError);
    assert_eq!(parse("0d6").unwrap_err(), DiroError::NoDice);
    assert_eq!(parse("0f").unwrap_err(), DiroError::NoDice);
    assert_eq!(parse("2d6k3").unwrap_err(), DiroError::KQTooBig);
}

#[test]
fn blank_input_is_one_percentile_die() {
    let expected = DiroAst::Dice(Dice::D100 { count: 1, bp: 0 }, None);
    assert_eq!(parse(""), Ok(expected));
    let expected = DiroAst::Dice(Dice::D100 { count: 1, bp: 0 }, None);
    assert_eq!(parse("   "), Ok(expected));
}

#[test]
fn dice_words() {
    let t = parse("2A7K9D12").unwrap();
    assert_eq!(
        t,
        DiroAst::Dice(Dice::ADice { count: 2, face: 12, add_line: 7, success_line: 9 }, None)
    );
    let t = parse("c").unwrap();
    assert_eq!(t, DiroAst::Dice(Dice::CDice { count: 1, face: 10, count_line: 11 }, None));
    let t = parse("4c7m6").unwrap();
    assert_eq!(t, DiroAst::Dice(Dice::CDice { count: 4, face: 6, count_line: 7 }, None));
    let t = parse("3d6q").unwrap();
    assert_eq!(t, DiroAst::Dice(Dice::Dice { count: 3, face: 6, kq: -1 }, None));
    let t = parse("2D100P2").unwrap();
    assert_eq!(t, DiroAst::Dice(Dice::D100 { count: 2, bp: -2 }, None));
}

#[test]
fn calc_before_roll_fails() {
    let t = parse("d").unwrap();
    assert_eq!(t.calc(), Err(DiroError::DiceNotRolled));
    assert_eq!(t.detail_expr(), Err(DiroError::DiceNotRolled));
    let t = parse("1+3d6").unwrap();
    assert_eq!(t.calc(), Err(DiroError::DiceNotRolled));
}

#[test]
fn roll_then_calc_and_roll_again() {
    let mut t = parse("2d6+3a5+4f+1c6+2d100b1").unwrap();
    t.roll();
    let first = t.calc();
    assert!(first.is_ok());
    let before = format!("{:?}", t);
    t.roll();
    assert_eq!(format!("{:?}", t), before);
    assert_eq!(t.calc(), first);
    assert_eq!(t.eval(), first);
}

#[test]
fn fixed_outcome_calc() {
    let mut t = parse("3d6+1").unwrap();
    if let DiroAst::DyadicOP { lhs, .. } = &mut t {
        if let DiroAst::Dice(_, slot) = lhs.as_mut() {
            *slot = Some(RollResult::Dice { kq: 0, result: vec![2, 5, 6] });
        }
    }
    assert_eq!(t.calc(), Ok(14));
    assert_eq!(t.detail_expr(), Ok("13+1".to_string()));
    assert_eq!(t.eval(), Ok(14));
}

#[test]
fn lone_dice_detail() {
    let mut t = parse("3d6").unwrap();
    if let DiroAst::Dice(_, slot) = &mut t {
        *slot = Some(RollResult::Dice { kq: 0, result: vec![2, 5, 6] });
    }
    assert_eq!(t.detail_expr(), Ok("2+5+6".to_string()));
}

#[test]
fn renderings() {
    let t = parse("-11 + 2 x ((2 + 2) - 1) / 3").unwrap();
    assert_eq!(t.expr(), "-11+2*(2+2-1)/3");
    assert_eq!(t.s_expr(), "(+ -11 (/ (* 2 (- (+ 2 2) 1)) 3))");
    let t = parse("2-(3-4)").unwrap();
    assert_eq!(t.expr(), "2-(3-4)");
    let t = parse("(2-3)-4").unwrap();
    assert_eq!(t.expr(), "2-3-4");
    let t = parse("3d6k2 + 1").unwrap();
    assert_eq!(t.expr(), "3D6K2+1");
}

#[test]
fn notation_reads_back() {
    let sources = [
        "d", "3d6+1", "1d100b2", "5a6k7", "3c10m8", "4f", "10-3-2", "2+3x4", "(2+3)x4",
        "2-(3-4)", "2^(1+1)^3", "-11 + 2 x ((2 + 2) - 1) / 3", "2d6q1 % 3", "2--3",
        "2A11K9D12", "d100p3*2",
    ];
    for source in sources.iter() {
        let t = parse(source).unwrap();
        let again = parse(&t.expr()).unwrap();
        assert_eq!(without_groups(again), without_groups(parse(source).unwrap()), "{}", source);
        assert_eq!(parse(&t.expr()).unwrap().expr(), t.expr());
    }
}

#[test]
fn reassociation() {
    let four = DiroAst::Int(4);
    let rhs = DiroAst::dyadic_with_priority(Verb::Minus, DiroAst::Int(3), DiroAst::Int(2));
    let t = DiroAst::dyadic_with_priority(Verb::Minus, DiroAst::Int(10), rhs);
    assert_eq!(t.calc(), Ok(5));
    let rhs = DiroAst::dyadic_with_priority(Verb::Plus, DiroAst::Int(3), four);
    let t = DiroAst::dyadic_with_priority(Verb::Times, DiroAst::Int(2), rhs);
    assert_eq!(t.calc(), Ok(10));
}

#[test]
fn unrolled_dice_come_first() {
    let t = parse("65536x65536+d6").unwrap();
    assert_eq!(t.calc(), Err(DiroError::DiceNotRolled));
    let t = parse("1/0+d").unwrap();
    assert_eq!(t.calc(), Err(DiroError::DiceNotRolled));
    assert_eq!(t.detail_expr(), Err(DiroError::DiceNotRolled));
}

#[test]
fn nested_score_renders_in_full() {
    let mut t = parse("2d6+1").unwrap();
    if let DiroAst::DyadicOP { lhs, .. } = &mut t {
        if let DiroAst::Dice(_, slot) = lhs.as_mut() {
            *slot = Some(RollResult::Dice { kq: 0, result: vec![2147483647, 2147483647] });
        }
    }
    assert_eq!(t.detail_expr(), Ok("4294967294+1".to_string()));
    assert_eq!(t.calc(), Err(DiroError::Overflow));
}

#[test]
fn trees_clone() {
    let mut t = parse("(2+3d6)x4").unwrap();
    t.roll();
    let c = t.clone();
    assert_eq!(c, t);
    assert_eq!(c.calc(), t.calc());
}
