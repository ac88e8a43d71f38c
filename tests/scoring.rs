use diro::{Dice, DiroError, RollResult};

#[test]
fn standard_keep_and_drop() {
    let values = vec![1, 4, 2, 6];
    let keep_high = RollResult::Dice { kq: 2, result: values.clone() };
    let keep_low = RollResult::Dice { kq: -2, result: values.clone() };
    let keep_all = RollResult::Dice { kq: 0, result: values.clone() };
    assert_eq!(keep_high.result(), Ok(10));
    assert_eq!(keep_low.result(), Ok(3));
    assert_eq!(keep_all.result(), Ok(13));
}

#[test]
fn standard_keep_more_than_rolled() {
    let r = RollResult::Dice { kq: 9, result: vec![3, 5] };
    assert_eq!(r.result(), Ok(8));
    let r = RollResult::Dice { kq: -9, result: vec![3, 5] };
    assert_eq!(r.result(), Ok(8));
}

#[test]
fn percentile_double_zero_is_hundred() {
    let r = RollResult::D100(vec![([0, 0], false, vec![])]);
    assert_eq!(r.result(), Ok(100));
    let r = RollResult::D100(vec![([0, 0], true, vec![])]);
    assert_eq!(r.result(), Ok(100));
}

#[test]
fn percentile_bonus_and_penalty() {
    let bonus = RollResult::D100(vec![([3, 4], true, vec![1, 7])]);
    assert_eq!(bonus.result(), Ok(14));
    assert_eq!(bonus.detail(), "34B1B7");
    let penalty = RollResult::D100(vec![([3, 4], false, vec![1, 7])]);
    assert_eq!(penalty.result(), Ok(74));
    assert_eq!(penalty.detail(), "34P1P7");
    let two = RollResult::D100(vec![([2, 5], false, vec![]), ([0, 9], false, vec![])]);
    assert_eq!(two.result(), Ok(34));
    assert_eq!(two.detail(), "25+09");
}

#[test]
fn accumulating_counts_successes() {
    let r = RollResult::ADice { result: vec![vec![7, 3, 9], vec![9]], add_line: 7, success_line: 8 };
    assert_eq!(r.result(), Ok(2));
    assert_eq!(r.detail(), "[1]:7 3 9 [2]:9");
}

#[test]
fn counting_adds_final_maximum() {
    let r = RollResult::CDice { result: vec![vec![9, 2, 8], vec![10, 8], vec![1]], count_line: 8 };
    assert_eq!(r.result(), Ok(36));
    assert_eq!(r.detail(), "[1]:9 2 8 [2]:10 8 [3]:1");
}

#[test]
fn fudge_sums_draws() {
    let r = RollResult::FDice(vec![1, 0, -1, 1]);
    assert_eq!(r.result(), Ok(1));
    assert_eq!(r.detail(), "+0-+");
}

#[test]
fn standard_detail() {
    let r = RollResult::Dice { kq: 0, result: vec![2, 5, 6] };
    assert_eq!(r.detail(), "2+5+6");
}

#[test]
fn counting_overflow() {
    let r = RollResult::CDice { result: vec![vec![2147483647], vec![5]], count_line: 1 };
    assert_eq!(r.result(), Err(DiroError::Overflow));
}

#[test]
fn fudge_roll_stays_in_range() {
    let dice = Dice::fdice(5).unwrap();
    for _ in 0..200 {
        let r = dice.roll();
        match &r {
            RollResult::FDice(f) => {
                assert_eq!(f.len(), 5);
                assert!(f.iter().all(|v| *v >= -1 && *v <= 1));
            }
            _ => panic!("wrong outcome kind"),
        }
        let score = r.result().unwrap();
        assert!((-5..=5).contains(&score));
    }
}

#[test]
fn standard_roll_stays_on_faces() {
    let dice = Dice::dice(6, 4, 2).unwrap();
    for _ in 0..200 {
        match dice.roll() {
            RollResult::Dice { kq, result } => {
                assert_eq!(kq, 2);
                assert_eq!(result.len(), 6);
                assert!(result.iter().all(|v| *v >= 1 && *v <= 4));
            }
            _ => panic!("wrong outcome kind"),
        }
    }
}

#[test]
fn percentile_roll_digits() {
    let dice = Dice::d100(3, -2).unwrap();
    for _ in 0..200 {
        match dice.roll() {
            RollResult::D100(rolls) => {
                assert_eq!(rolls.len(), 3);
                for (digits, bonus, extras) in rolls.iter() {
                    assert!(digits[0] <= 8);
                    assert!(digits[1] >= 1 && digits[1] <= 9);
                    assert!(!bonus);
                    assert_eq!(extras.len(), 2);
                    assert!(extras.iter().all(|d| *d <= 8));
                }
            }
            _ => panic!("wrong outcome kind"),
        }
    }
}

#[test]
fn exploding_roll_rounds() {
    let dice = Dice::adice(4, 6, 5, 4).unwrap();
    for _ in 0..100 {
        let r = dice.roll();
        let detail = r.detail();
        match &r {
            RollResult::ADice { result, add_line, success_line } => {
                assert_eq!(*add_line, 4);
                assert_eq!(*success_line, 5);
                assert_eq!(result[0].len(), 4);
                for k in 0..result.len() {
                    assert!(!result[k].is_empty());
                    let spawned = result[k].iter().filter(|v| **v >= 4).count();
                    if k + 1 < result.len() {
                        assert_eq!(result[k + 1].len(), spawned);
                    } else {
                        assert_eq!(spawned, 0);
                    }
                }
                assert_eq!(detail.matches('[').count(), result.len());
            }
            _ => panic!("wrong outcome kind"),
        }
    }
}

#[test]
fn counting_roll_rounds() {
    let dice = Dice::cdice(3, 6, 5).unwrap();
    for _ in 0..100 {
        match dice.roll() {
            RollResult::CDice { result, count_line } => {
                assert_eq!(count_line, 5);
                let last = result.last().unwrap();
                assert_eq!(last.iter().filter(|v| **v >= 5).count(), 0);
            }
            _ => panic!("wrong outcome kind"),
        }
    }
}
