use vstd::prelude::*;

use rand::rngs::ThreadRng;

use crate::error::{DiroError, DiroResult};
use crate::random::draw;
use crate::text::{digit_char, int_text, nat_text, push_char, push_int, push_nat};

verus! {

/// A description of dice to roll; it holds no outcome.
#[derive(Debug, Clone, PartialEq, Eq, Structural)]
pub enum Dice {
    /// Percentile rolls; `bp > 0` adds bonus dice, `bp < 0` penalty dice.
    D100 { count: u8, bp: i8 },
    /// `count` dice of `face` faces; `kq > 0` keeps the highest `kq`,
    /// `kq < 0` the lowest `-kq`, `kq == 0` keeps all.
    Dice { count: u8, face: u16, kq: i8 },
    /// Exploding dice: a die of at least `add_line` spawns another one,
    /// the score counts dice of at least `success_line`.
    ADice { count: u8, face: u16, add_line: u16, success_line: u16 },
    /// Exploding dice that add up the dice of at least `count_line`.
    CDice { count: u8, face: u16, count_line: u16 },
    /// Fudge dice, each giving -1, 0 or +1.
    FDice(u8),
}

/// One percentile roll: tens and units digits, whether the extra digits
/// are bonus dice, and the extra tens digits.
pub type PercentileRoll = ([u8; 2], bool, Vec<u8>);

/// The outcome of rolling one `Dice`.
#[derive(Debug, Clone, PartialEq, Eq)]
pub enum RollResult {
    D100(Vec<PercentileRoll>),
    Dice { kq: i8, result: Vec<i32> },
    ADice { result: Vec<Vec<i32>>, add_line: u16, success_line: u16 },
    CDice { result: Vec<Vec<i32>>, count_line: u16 },
    FDice(Vec<i8>),
}

pub open spec fn ints(s: Seq<i32>) -> Seq<int> {
    s.map_values(|v: i32| v as int)
}

pub open spec fn sum(s: Seq<int>) -> int
    decreases s.len(),
{
    if s.len() == 0 {
        0
    } else {
        sum(s.drop_last()) + s.last()
    }
}

/// The tens digit after the extra digits had their say: a bonus digit
/// replaces it when smaller, a penalty digit when larger.
pub open spec fn high_digit(tens: int, bonus: bool, extras: Seq<u8>) -> int
    decreases extras.len(),
{
    if extras.len() == 0 {
        tens
    } else {
        let h = high_digit(tens, bonus, extras.drop_last());
        let e = extras.last() as int;
        if bonus && e < h {
            e
        } else if !bonus && e > h {
            e
        } else {
            h
        }
    }
}

/// Score of one percentile roll; `00` stands for 100.
pub open spec fn percentile_score(r: PercentileRoll) -> int {
    let h = high_digit(r.0@[0] as int, r.1, r.2@);
    let u = r.0@[1] as int;
    if h == 0 && u == 0 {
        100
    } else {
        h * 10 + u
    }
}

pub open spec fn percentile_total(rolls: Seq<PercentileRoll>) -> int
    decreases rolls.len(),
{
    if rolls.len() == 0 {
        0
    } else {
        percentile_total(rolls.drop_last()) + percentile_score(rolls.last())
    }
}

pub open spec fn min_int(a: int, b: int) -> int {
    if a <= b {
        a
    } else {
        b
    }
}

/// Sum of the `kq` highest values (`kq > 0`), the `-kq` lowest (`kq < 0`),
/// or of all of them (`kq == 0`).
pub open spec fn kept_sum(kq: int, values: Seq<int>) -> int {
    let sorted = values.sort();
    let n = values.len() as int;
    if kq == 0 {
        sum(values)
    } else if kq > 0 {
        sum(sorted.subrange(n - min_int(kq, n), n))
    } else {
        sum(sorted.subrange(0, min_int(-kq, n)))
    }
}

/// How many values reach `line`.
pub open spec fn count_reaching(s: Seq<i32>, line: int) -> int
    decreases s.len(),
{
    if s.len() == 0 {
        0
    } else {
        count_reaching(s.drop_last(), line) + if s.last() >= line {
            1int
        } else {
            0int
        }
    }
}

/// The sum of the values that reach `line`.
pub open spec fn sum_reaching(s: Seq<i32>, line: int) -> int
    decreases s.len(),
{
    if s.len() == 0 {
        0
    } else {
        sum_reaching(s.drop_last(), line) + if s.last() >= line {
            s.last() as int
        } else {
            0int
        }
    }
}

pub open spec fn rounds_count_reaching(rounds: Seq<Vec<i32>>, line: int) -> int
    decreases rounds.len(),
{
    if rounds.len() == 0 {
        0
    } else {
        rounds_count_reaching(rounds.drop_last(), line) + count_reaching(rounds.last()@, line)
    }
}

pub open spec fn rounds_sum_reaching(rounds: Seq<Vec<i32>>, line: int) -> int
    decreases rounds.len(),
{
    if rounds.len() == 0 {
        0
    } else {
        rounds_sum_reaching(rounds.drop_last(), line) + sum_reaching(rounds.last()@, line)
    }
}

pub open spec fn fudge_ints(s: Seq<i8>) -> Seq<int> {
    s.map_values(|v: i8| v as int)
}

pub open spec fn fits_i32(v: int) -> bool {
    i32::MIN <= v <= i32::MAX
}

/// The most rounds that exploding dice roll; memory runs out long before.
pub const MAX_ROUNDS: usize = 4294967295;

/// At most `MAX_ROUNDS` rounds of at most 255 dice.
pub open spec fn rounds_fit(rounds: Seq<Vec<i32>>) -> bool {
    &&& rounds.len() <= MAX_ROUNDS
    &&& forall|i: int| 0 <= i < rounds.len() ==> #[trigger] rounds[i]@.len() <= 255
}

impl RollResult {
    /// What a roll can produce: as many dice in a roll or a round as a `u8`
    /// count allows, at most `MAX_ROUNDS` rounds, and for counting dice at
    /// least one round, the last one not empty.
    pub open spec fn wf(&self) -> bool {
        match self {
            RollResult::D100(rolls) => rolls@.len() <= 255,
            RollResult::Dice { result, .. } => result@.len() <= 255,
            RollResult::ADice { result, .. } => rounds_fit(result@),
            RollResult::CDice { result, .. } => {
                &&& rounds_fit(result@)
                &&& result@.len() > 0
                &&& result@.last()@.len() > 0
            },
            RollResult::FDice(f) => f@.len() <= 255,
        }
    }

    /// The score of the outcome.
    pub open spec fn score(&self) -> int {
        match self {
            RollResult::D100(rolls) => percentile_total(rolls@),
            RollResult::Dice { kq, result } => kept_sum(*kq as int, ints(result@)),
            RollResult::ADice { result, success_line, .. } => rounds_count_reaching(
                result@,
                *success_line as int,
            ),
            RollResult::CDice { result, count_line } => rounds_sum_reaching(
                result@,
                *count_line as int,
            ) + ints(result@.last()@).max(),
            RollResult::FDice(f) => sum(fudge_ints(f@)),
        }
    }
}

fn high_digit_of(tens: u8, bonus: bool, extras: &Vec<u8>) -> (h: u8)
    ensures
        h as int == high_digit(tens as int, bonus, extras@),
{
    let mut h = tens;
    let mut i: usize = 0;
    while i < extras.len()
        invariant
            i <= extras@.len(),
            h as int == high_digit(tens as int, bonus, extras@.take(i as int)),
        decreases extras@.len() - i,
    {
        let e = extras[i];
        if bonus && e < h {
            h = e;
        } else if !bonus && e > h {
            h = e;
        }
        assert(extras@.take(i as int + 1).drop_last() =~= extras@.take(i as int));
        i += 1;
    }
    assert(extras@.take(i as int) =~= extras@);
    h
}

fn percentile_total_of(rolls: &Vec<PercentileRoll>) -> (t: i32)
    requires
        rolls@.len() <= 255,
    ensures
        t as int == percentile_total(rolls@),
{
    let mut t: i32 = 0;
    let mut i: usize = 0;
    while i < rolls.len()
        invariant
            i <= rolls@.len() <= 255,
            t as int == percentile_total(rolls@.take(i as int)),
            0 <= t <= i * 2805,
        decreases rolls@.len() - i,
    {
        let r = &rolls[i];
        let h = high_digit_of(r.0[0], r.1, &r.2);
        let u = r.0[1];
        let s: i32 = if h == 0 && u == 0 {
            100
        } else {
            h as i32 * 10 + u as i32
        };
        assert(s as int == percentile_score(rolls@[i as int]));
        assert(rolls@.take(i as int + 1).drop_last() =~= rolls@.take(i as int));
        t = t + s;
        i += 1;
    }
    assert(rolls@.take(i as int) =~= rolls@);
    t
}

/// Relies on `slice::sort_unstable`: the values come out in ascending
/// order, with the same values as went in.
#[verifier::external_body]
fn sort_values(v: &mut Vec<i32>)
    ensures
        ints(final(v)@) == ints(old(v)@).sort(),
        final(v)@.len() == old(v)@.len(),
{
    v.sort_unstable()
}

/// Sum of `v[lo..hi]`.
fn sum_range(v: &Vec<i32>, lo: usize, hi: usize) -> (s: i64)
    requires
        lo <= hi <= v@.len() <= 255,
    ensures
        s as int == sum(ints(v@).subrange(lo as int, hi as int)),
{
    let mut s: i64 = 0;
    let mut i: usize = lo;
    while i < hi
        invariant
            lo <= i <= hi <= v@.len() <= 255,
            s as int == sum(ints(v@).subrange(lo as int, i as int)),
            -(i - lo) * 2147483648 <= s <= (i - lo) * 2147483648,
        decreases hi - i,
    {
        assert(ints(v@).subrange(lo as int, i as int + 1).drop_last() =~= ints(v@).subrange(
            lo as int,
            i as int,
        ));
        s = s + v[i] as i64;
        i += 1;
    }
    s
}

fn kept_sum_of(kq: i8, values: &Vec<i32>) -> (s: i64)
    requires
        values@.len() <= 255,
    ensures
        s as int == kept_sum(kq as int, ints(values@)),
{
    let n = values.len();
    if kq == 0 {
        let s = sum_range(values, 0, n);
        assert(ints(values@).subrange(0, n as int) =~= ints(values@));
        s
    } else {
        let mut sorted = values.clone();
        assert(sorted@ == values@);
        sort_values(&mut sorted);
        if kq > 0 {
            let k: usize = if (kq as usize) < n {
                kq as usize
            } else {
                n
            };
            sum_range(&sorted, n - k, n)
        } else {
            let m: i16 = -(kq as i16);
            let k: usize = if (m as usize) < n {
                m as usize
            } else {
                n
            };
            sum_range(&sorted, 0, k)
        }
    }
}

/// How many values of all rounds reach `line`.
fn count_reaching_of(rounds: &Vec<Vec<i32>>, line: u16) -> (r: i128)
    requires
        rounds_fit(rounds@),
    ensures
        r as int == rounds_count_reaching(rounds@, line as int),
{
    let mut c: i128 = 0;
    let mut i: usize = 0;
    while i < rounds.len()
        invariant
            i <= rounds@.len() <= MAX_ROUNDS,
            rounds_fit(rounds@),
            c as int == rounds_count_reaching(rounds@.take(i as int), line as int),
            0 <= c <= i * 255,
        decreases rounds@.len() - i,
    {
        let round = &rounds[i];
        assert(round@.len() <= 255);
        let mut j: usize = 0;
        while j < round.len()
            invariant
                i < rounds@.len() <= MAX_ROUNDS,
                round@ == rounds@[i as int]@,
                j <= round@.len() <= 255,
                c as int == rounds_count_reaching(rounds@.take(i as int), line as int)
                    + count_reaching(round@.take(j as int), line as int),
                0 <= c <= i * 255 + j,
            decreases round@.len() - j,
        {
            assert(round@.take(j as int + 1).drop_last() =~= round@.take(j as int));
            if round[j] >= line as i32 {
                c = c + 1;
            }
            j += 1;
        }
        assert(round@.take(j as int) =~= round@);
        assert(rounds@.take(i as int + 1).drop_last() =~= rounds@.take(i as int));
        i += 1;
    }
    assert(rounds@.take(i as int) =~= rounds@);
    c
}

/// The sum of the values of all rounds that reach `line`.
fn sum_reaching_of(rounds: &Vec<Vec<i32>>, line: u16) -> (r: i128)
    requires
        rounds_fit(rounds@),
    ensures
        r as int == rounds_sum_reaching(rounds@, line as int),
        0 <= r <= MAX_ROUNDS * 255 * 2147483647,
{
    let mut c: i128 = 0;
    let mut i: usize = 0;
    while i < rounds.len()
        invariant
            i <= rounds@.len() <= MAX_ROUNDS,
            rounds_fit(rounds@),
            c as int == rounds_sum_reaching(rounds@.take(i as int), line as int),
            0 <= c <= i * 255 * 2147483647,
        decreases rounds@.len() - i,
    {
        let round = &rounds[i];
        assert(round@.len() <= 255);
        let mut j: usize = 0;
        while j < round.len()
            invariant
                i < rounds@.len() <= MAX_ROUNDS,
                round@ == rounds@[i as int]@,
                j <= round@.len() <= 255,
                c as int == rounds_sum_reaching(rounds@.take(i as int), line as int)
                    + sum_reaching(round@.take(j as int), line as int),
                0 <= c <= (i * 255 + j) * 2147483647,
            decreases round@.len() - j,
        {
            assert(round@.take(j as int + 1).drop_last() =~= round@.take(j as int));
            let v = round[j];
            if v >= line as i32 {
                c = c + v as i128;
            }
            j += 1;
        }
        assert(round@.take(j as int) =~= round@);
        assert(rounds@.take(i as int + 1).drop_last() =~= rounds@.take(i as int));
        i += 1;
    }
    assert(rounds@.take(i as int) =~= rounds@);
    c
}

/// The largest value of a non-empty sequence.
fn max_of(v: &Vec<i32>) -> (m: i32)
    requires
        v@.len() > 0,
    ensures
        m as int == ints(v@).max(),
{
    let n = v.len();
    let mut m = v[n - 1];
    let mut i: usize = n - 1;
    assert(ints(v@).subrange(i as int, n as int).len() == 1);
    while i > 0
        invariant
            0 <= i < n == v@.len(),
            m as int == ints(v@).subrange(i as int, n as int).max(),
        decreases i,
    {
        i -= 1;
        assert(ints(v@).subrange(i as int, n as int).drop_first() =~= ints(v@).subrange(
            i as int + 1,
            n as int,
        ));
        if v[i] >= m {
            m = v[i];
        }
    }
    assert(ints(v@).subrange(0, n as int) =~= ints(v@));
    m
}

fn fudge_sum_of(f: &Vec<i8>) -> (s: i32)
    requires
        f@.len() <= 255,
    ensures
        s as int == sum(fudge_ints(f@)),
{
    let mut s: i32 = 0;
    let mut i: usize = 0;
    while i < f.len()
        invariant
            i <= f@.len() <= 255,
            s as int == sum(fudge_ints(f@).take(i as int)),
            -(i * 128) <= s <= i * 128,
        decreases f@.len() - i,
    {
        assert(fudge_ints(f@).take(i as int + 1).drop_last() =~= fudge_ints(f@).take(i as int));
        s = s + f[i] as i32;
        i += 1;
    }
    assert(fudge_ints(f@).take(i as int) =~= fudge_ints(f@));
    s
}

fn checked_i32(v: i128) -> (r: DiroResult<i32>)
    ensures
        fits_i32(v as int) ==> r == Ok::<i32, DiroError>(v as i32),
        !fits_i32(v as int) ==> r == Err::<i32, DiroError>(DiroError::Overflow),
{
    if v < i32::MIN as i128 || v > i32::MAX as i128 {
        Err(DiroError::Overflow)
    } else {
        Ok(v as i32)
    }
}

impl RollResult {
    /// The exact score, in a type wide enough for every well-formed outcome.
    pub(crate) fn score_wide(&self) -> (r: i128)
        requires
            self.wf(),
        ensures
            r as int == self.score(),
    {
        match self {
            RollResult::D100(rolls) => percentile_total_of(rolls) as i128,
            RollResult::Dice { kq, result } => kept_sum_of(*kq, result) as i128,
            RollResult::ADice { result, success_line, .. } => count_reaching_of(
                result,
                *success_line,
            ),
            RollResult::CDice { result, count_line } => {
                let s = sum_reaching_of(result, *count_line);
                let m = max_of(&result[result.len() - 1]);
                s + m as i128
            },
            RollResult::FDice(f) => fudge_sum_of(f) as i128,
        }
    }

    /// The score of the outcome, or `Overflow` where it leaves `i32`.
    pub fn result(&self) -> (r: DiroResult<i32>)
        requires
            self.wf(),
        ensures
            fits_i32(self.score()) ==> r == Ok::<i32, DiroError>(self.score() as i32),
            !fits_i32(self.score()) ==> r == Err::<i32, DiroError>(DiroError::Overflow),
    {
        checked_i32(self.score_wide())
    }
}

impl Dice {
    /// What the constructors build: every variant has at least one die;
    /// keep/drop asks for no more dice than there are; dice of 100 faces are
    /// percentile dice, never standard ones.
    pub open spec fn wf(&self) -> bool {
        match self {
            Dice::D100 { count, .. } => *count >= 1,
            Dice::Dice { count, face, kq } => *count >= 1 && *face != 100 && (if *kq >= 0 {
                *kq as int
            } else {
                -(*kq as int)
            }) <= *count as int,
            Dice::ADice { count, .. } => *count >= 1,
            Dice::CDice { count, .. } => *count >= 1,
            Dice::FDice(count) => *count >= 1,
        }
    }

    /// What `new` builds: percentile dice where there are bonus or penalty
    /// dice or the face is 100, else standard dice.
    pub open spec fn from_fields(count: u8, face: u16, bp: i8, kq: i8) -> DiroResult<Dice> {
        let k = if kq >= 0 {
            kq as int
        } else {
            -(kq as int)
        };
        if count == 0 {
            Err(DiroError::NoDice)
        } else if bp != 0 || face == 100 {
            Ok(Dice::D100 { count, bp })
        } else if k <= count as int {
            Ok(Dice::Dice { count, face, kq })
        } else {
            Err(DiroError::KQTooBig)
        }
    }

    /// Percentile or standard dice, as `from_fields` says.
    pub fn new(count: u8, face: u16, bp: i8, kq: i8) -> (r: DiroResult<Dice>)
        ensures
            r == Self::from_fields(count, face, bp, kq),
            r matches Ok(d) ==> d.wf(),
    {
        if count == 0 {
            Err(DiroError::NoDice)
        } else if bp != 0 || face == 100 {
            Ok(Dice::D100 { count, bp })
        } else {
            let k: i16 = if kq >= 0 {
                kq as i16
            } else {
                -(kq as i16)
            };
            if k <= count as i16 {
                Ok(Dice::Dice { count, face, kq })
            } else {
                Err(DiroError::KQTooBig)
            }
        }
    }

    /// `count` percentile rolls with `bp` bonus (or `-bp` penalty) dice.
    pub fn d100(count: u8, bp: i8) -> (r: DiroResult<Dice>)
        ensures
            r == Self::from_fields(count, 100, bp, 0),
            count == 0 ==> r == Err::<Dice, DiroError>(DiroError::NoDice),
            count >= 1 ==> r == Ok::<Dice, DiroError>(Dice::D100 { count, bp }),
    {
        Self::new(count, 100, bp, 0)
    }

    /// `count` dice of `face` faces keeping `kq` of them; a face of 100
    /// makes percentile dice.
    pub fn dice(count: u8, face: u16, kq: i8) -> (r: DiroResult<Dice>)
        ensures
            r == Self::from_fields(count, face, 0, kq),
            r matches Ok(d) ==> d.wf(),
    {
        Self::new(count, face, 0, kq)
    }

    /// Exploding dice counting successes.
    pub fn adice(count: u8, face: u16, success_line: u16, add_line: u16) -> (r: DiroResult<Dice>)
        ensures
            count == 0 ==> r == Err::<Dice, DiroError>(DiroError::NoDice),
            count >= 1 ==> r == Ok::<Dice, DiroError>(
                Dice::ADice { count, face, add_line, success_line },
            ),
    {
        if count == 0 {
            Err(DiroError::NoDice)
        } else {
            Ok(Dice::ADice { count, face, add_line, success_line })
        }
    }

    /// Exploding dice adding up what reaches `count_line`.
    pub fn cdice(count: u8, face: u16, count_line: u16) -> (r: DiroResult<Dice>)
        ensures
            count == 0 ==> r == Err::<Dice, DiroError>(DiroError::NoDice),
            count >= 1 ==> r == Ok::<Dice, DiroError>(Dice::CDice { count, face, count_line }),
    {
        if count == 0 {
            Err(DiroError::NoDice)
        } else {
            Ok(Dice::CDice { count, face, count_line })
        }
    }

    /// `count` fudge dice.
    pub fn fdice(count: u8) -> (r: DiroResult<Dice>)
        ensures
            count == 0 ==> r == Err::<Dice, DiroError>(DiroError::NoDice),
            count >= 1 ==> r == Ok::<Dice, DiroError>(Dice::FDice(count)),
    {
        if count == 0 {
            Err(DiroError::NoDice)
        } else {
            Ok(Dice::FDice(count))
        }
    }
}

impl Default for Dice {
    /// One plain percentile roll.
    fn default() -> (r: Dice)
        ensures
            r == (Dice::D100 { count: 1, bp: 0 }),
    {
        Dice::D100 { count: 1, bp: 0 }
    }
}

/// The rounds of an exploding roll: `count` dice first, then as many dice
/// in each round as the round before had dice reaching `line`, until a
/// round has none (or `MAX_ROUNDS` rounds were rolled). No round is empty and
/// every value is a face.
pub open spec fn exploded(rounds: Seq<Vec<i32>>, count: int, face: int, line: int) -> bool {
    &&& 1 <= rounds.len() <= MAX_ROUNDS
    &&& rounds[0]@.len() == count
    &&& forall|i: int| 0 <= i < rounds.len() ==> 0 < #[trigger] rounds[i]@.len() <= 255
    &&& forall|i: int, j: int|
        0 <= i < rounds.len() && 0 <= j < rounds[i]@.len() ==> 1 <= #[trigger] rounds[i]@[j] <= face
    &&& forall|i: int|
        0 <= i < rounds.len() - 1 ==> #[trigger] rounds[i + 1]@.len() == count_reaching(
            rounds[i]@,
            line,
        )
    &&& (count_reaching(rounds.last()@, line) == 0 || rounds.len() == MAX_ROUNDS)
}

impl Dice {
    /// Dice that can be rolled: at least one die, of at least one face.
    pub open spec fn rollable(&self) -> bool {
        match self {
            Dice::D100 { count, .. } => *count >= 1,
            Dice::Dice { count, face, .. } => *count >= 1 && *face >= 1,
            Dice::ADice { count, face, .. } => *count >= 1 && *face >= 1,
            Dice::CDice { count, face, .. } => *count >= 1 && *face >= 1,
            Dice::FDice(count) => *count >= 1,
        }
    }

    /// An outcome that a roll gives is well formed.
    pub proof fn lemma_rolled_wf(&self, r: RollResult)
        requires
            self.rollable(),
            self.rolled_from(r),
        ensures
            r.wf(),
    {
        if let RollResult::CDice { result, .. } = r {
            assert(result@[result@.len() - 1]@.len() > 0);
        }
    }

    /// Whether the dice can be rolled, as `roll` asks.
    pub fn is_rollable(&self) -> (r: bool)
        ensures
            r == self.rollable(),
    {
        match self {
            Dice::D100 { count, .. } => *count >= 1,
            Dice::Dice { count, face, .. } => *count >= 1 && *face >= 1,
            Dice::ADice { count, face, .. } => *count >= 1 && *face >= 1,
            Dice::CDice { count, face, .. } => *count >= 1 && *face >= 1,
            Dice::FDice(count) => *count >= 1,
        }
    }

    /// `r` is an outcome that rolling `self` can give.
    pub open spec fn rolled_from(&self, r: RollResult) -> bool {
        match self {
            Dice::D100 { count, bp } => {
                &&& r matches RollResult::D100(rolls)
                &&& rolls@.len() == *count as int
                &&& forall|i: int|
                    0 <= i < rolls@.len() ==> {
                        let p = #[trigger] rolls@[i];
                        &&& p.0@[0] <= 8
                        &&& 1 <= p.0@[1] <= 9
                        &&& p.1 == (*bp > 0)
                        &&& p.2@.len() == (if *bp >= 0 {
                            *bp as int
                        } else {
                            -(*bp as int)
                        })
                        &&& forall|j: int| 0 <= j < p.2@.len() ==> #[trigger] p.2@[j] <= 8
                    }
            },
            Dice::Dice { count, face, kq } => {
                &&& r matches RollResult::Dice { kq: k, result }
                &&& k == *kq
                &&& result@.len() == *count as int
                &&& forall|i: int| 0 <= i < result@.len() ==> 1 <= #[trigger] result@[i] <= *face
            },
            Dice::ADice { count, face, add_line, success_line } => {
                &&& r matches RollResult::ADice { result, add_line: a, success_line: s }
                &&& a == *add_line
                &&& s == *success_line
                &&& exploded(result@, *count as int, *face as int, *add_line as int)
            },
            Dice::CDice { count, face, count_line } => {
                &&& r matches RollResult::CDice { result, count_line: c }
                &&& c == *count_line
                &&& exploded(result@, *count as int, *face as int, *count_line as int)
            },
            Dice::FDice(count) => {
                &&& r matches RollResult::FDice(f)
                &&& f@.len() == *count as int
                &&& forall|i: int| 0 <= i < f@.len() ==> -1 <= #[trigger] f@[i] <= 1
            },
        }
    }
}

/// Draws `n` dice of `face` faces and counts those reaching `line`.
fn roll_round(rng: &mut ThreadRng, n: u8, face: u16, line: u16) -> (r: (Vec<i32>, u8))
    requires
        face >= 1,
    ensures
        r.0@.len() == n as int,
        forall|j: int| 0 <= j < r.0@.len() ==> 1 <= #[trigger] r.0@[j] <= face,
        r.1 as int == count_reaching(r.0@, line as int),
{
    let mut v: Vec<i32> = Vec::new();
    let mut next: u8 = 0;
    let mut i: u8 = 0;
    while i < n
        invariant
            face >= 1,
            i <= n,
            v@.len() == i as int,
            forall|j: int| 0 <= j < v@.len() ==> 1 <= #[trigger] v@[j] <= face,
            next as int == count_reaching(v@, line as int),
            next <= i,
        decreases n - i,
    {
        let t = draw(rng, 1, face as i32);
        let ghost old_v = v@;
        v.push(t);
        assert(v@.drop_last() =~= old_v);
        if t >= line as i32 {
            next = next + 1;
        }
        i = i + 1;
    }
    (v, next)
}

/// Rolls exploding dice round after round.
fn roll_rounds(rng: &mut ThreadRng, count: u8, face: u16, line: u16) -> (rounds: Vec<Vec<i32>>)
    requires
        count >= 1,
        face >= 1,
    ensures
        exploded(rounds@, count as int, face as int, line as int),
{
    let mut rounds: Vec<Vec<i32>> = Vec::new();
    let mut add: u8 = count;
    let mut done = false;
    while !done
        invariant
            face >= 1,
            !done ==> add >= 1 && rounds@.len() < MAX_ROUNDS,
            rounds@.len() <= MAX_ROUNDS,
            !done && rounds@.len() == 0 ==> add == count,
            !done && rounds@.len() > 0 ==> add as int == count_reaching(
                rounds@.last()@,
                line as int,
            ),
            done ==> rounds@.len() >= 1 && (count_reaching(rounds@.last()@, line as int) == 0
                || rounds@.len() == MAX_ROUNDS),
            rounds@.len() > 0 ==> rounds@[0]@.len() == count as int,
            forall|i: int| 0 <= i < rounds@.len() ==> 0 < #[trigger] rounds@[i]@.len() <= 255,
            forall|i: int, j: int|
                0 <= i < rounds@.len() && 0 <= j < rounds@[i]@.len() ==> 1 <= #[trigger] rounds@[i]@[j]
                    <= face,
            forall|i: int|
                0 <= i < rounds@.len() - 1 ==> #[trigger] rounds@[i + 1]@.len() == count_reaching(
                    rounds@[i]@,
                    line as int,
                ),
        decreases MAX_ROUNDS - rounds@.len(),
    {
        let (v, next) = roll_round(rng, add, face, line);
        rounds.push(v);
        if next == 0 || rounds.len() == MAX_ROUNDS {
            done = true;
        } else {
            add = next;
        }
    }
    rounds
}

impl Dice {
    /// Rolls the dice; the description itself is left as it is.
    pub fn roll(&self) -> (r: RollResult)
        requires
            self.rollable(),
        ensures
            self.rolled_from(r),
    {
        let mut rng = rand::thread_rng();
        match self {
            Dice::D100 { count, bp } => {
                let extra: u8 = if *bp >= 0 {
                    *bp as u8
                } else {
                    (-(*bp as i16)) as u8
                };
                let mut rolls: Vec<PercentileRoll> = Vec::new();
                let mut i: u8 = 0;
                while i < *count
                    invariant
                        i <= *count,
                        rolls@.len() == i as int,
                        extra as int == (if *bp >= 0 {
                            *bp as int
                        } else {
                            -(*bp as int)
                        }),
                        forall|k: int|
                            0 <= k < rolls@.len() ==> {
                                let p = #[trigger] rolls@[k];
                                &&& p.0@[0] <= 8
                                &&& 1 <= p.0@[1] <= 9
                                &&& p.1 == (*bp > 0)
                                &&& p.2@.len() == extra as int
                                &&& forall|j: int| 0 <= j < p.2@.len() ==> #[trigger] p.2@[j] <= 8
                            },
                    decreases *count - i,
                {
                    let tens = draw(&mut rng, 0, 8) as u8;
                    let units = (draw(&mut rng, 0, 8) + 1) as u8;
                    let mut extras: Vec<u8> = Vec::new();
                    let mut j: u8 = 0;
                    while j < extra
                        invariant
                            j <= extra,
                            extras@.len() == j as int,
                            forall|m: int| 0 <= m < extras@.len() ==> #[trigger] extras@[m] <= 8,
                        decreases extra - j,
                    {
                        let d = draw(&mut rng, 0, 8) as u8;
                        extras.push(d);
                        j = j + 1;
                    }
                    let digits: [u8; 2] = [tens, units];
                    assert(digits@[0] == tens && digits@[1] == units);
                    rolls.push((digits, *bp > 0, extras));
                    i = i + 1;
                }
                RollResult::D100(rolls)
            },
            Dice::Dice { count, face, kq } => {
                let mut result: Vec<i32> = Vec::new();
                let mut i: u8 = 0;
                while i < *count
                    invariant
                        i <= *count,
                        *face >= 1,
                        result@.len() == i as int,
                        forall|k: int| 0 <= k < result@.len() ==> 1 <= #[trigger] result@[k] <= *face,
                    decreases *count - i,
                {
                    let t = draw(&mut rng, 1, *face as i32);
                    result.push(t);
                    i = i + 1;
                }
                RollResult::Dice { kq: *kq, result }
            },
            Dice::ADice { count, face, add_line, success_line } => {
                let result = roll_rounds(&mut rng, *count, *face, *add_line);
                RollResult::ADice { result, add_line: *add_line, success_line: *success_line }
            },
            Dice::CDice { count, face, count_line } => {
                let result = roll_rounds(&mut rng, *count, *face, *count_line);
                RollResult::CDice { result, count_line: *count_line }
            },
            Dice::FDice(count) => {
                let mut f: Vec<i8> = Vec::new();
                let mut i: u8 = 0;
                while i < *count
                    invariant
                        i <= *count,
                        f@.len() == i as int,
                        forall|k: int| 0 <= k < f@.len() ==> -1 <= #[trigger] f@[k] <= 1,
                    decreases *count - i,
                {
                    let t = draw(&mut rng, -1, 1) as i8;
                    f.push(t);
                    i = i + 1;
                }
                RollResult::FDice(f)
            },
        }
    }
}

/// `tag` followed by the decimal text of `n`.
pub open spec fn tagged(tag: char, n: int) -> Seq<char> {
    seq![tag] + nat_text(n as nat)
}

impl Dice {
    /// The notation that reads back as this description.
    pub open spec fn notation(&self) -> Seq<char> {
        match self {
            Dice::D100 { count, bp } => (if *count > 1 {
                nat_text(*count as nat)
            } else {
                Seq::<char>::empty()
            }) + seq!['D', '1', '0', '0'] + (if *bp > 0 {
                tagged('B', *bp as int)
            } else if *bp < 0 {
                tagged('P', -(*bp as int))
            } else {
                Seq::<char>::empty()
            }),
            Dice::Dice { count, face, kq } => nat_text(*count as nat) + tagged('D', *face as int) + (
            if *kq > 0 {
                tagged('K', *kq as int)
            } else if *kq < 0 {
                tagged('Q', -(*kq as int))
            } else {
                Seq::<char>::empty()
            }),
            Dice::ADice { count, face, add_line, success_line } => nat_text(*count as nat) + tagged(
                'A',
                *add_line as int,
            ) + (if *success_line != 8 {
                tagged('K', *success_line as int)
            } else {
                Seq::<char>::empty()
            }) + (if *face != 10 {
                tagged('D', *face as int)
            } else {
                Seq::<char>::empty()
            }),
            Dice::CDice { count, face, count_line } => nat_text(*count as nat) + tagged(
                'C',
                *count_line as int,
            ) + tagged('M', *face as int),
            Dice::FDice(count) => nat_text(*count as nat) + seq!['F'],
        }
    }
}

fn push_tagged(s: &mut String, tag: char, n: u128)
    ensures
        final(s)@ == old(s)@ + tagged(tag, n as int),
{
    push_char(s, tag);
    push_nat(s, n);
    assert(final(s)@ =~= old(s)@ + tagged(tag, n as int));
}

impl Dice {
    /// The notation of the dice.
    pub fn expr(&self) -> (r: String)
        ensures
            r@ == self.notation(),
    {
        let mut s = String::new();
        match self {
            Dice::D100 { count, bp } => {
                if *count > 1 {
                    push_nat(&mut s, *count as u128);
                }
                push_char(&mut s, 'D');
                push_char(&mut s, '1');
                push_char(&mut s, '0');
                push_char(&mut s, '0');
                if *bp > 0 {
                    push_tagged(&mut s, 'B', *bp as u128);
                } else if *bp < 0 {
                    push_tagged(&mut s, 'P', (-(*bp as i16)) as u128);
                }
            },
            Dice::Dice { count, face, kq } => {
                push_nat(&mut s, *count as u128);
                push_tagged(&mut s, 'D', *face as u128);
                if *kq > 0 {
                    push_tagged(&mut s, 'K', *kq as u128);
                } else if *kq < 0 {
                    push_tagged(&mut s, 'Q', (-(*kq as i16)) as u128);
                }
            },
            Dice::ADice { count, face, add_line, success_line } => {
                push_nat(&mut s, *count as u128);
                push_tagged(&mut s, 'A', *add_line as u128);
                if *success_line != 8 {
                    push_tagged(&mut s, 'K', *success_line as u128);
                }
                if *face != 10 {
                    push_tagged(&mut s, 'D', *face as u128);
                }
            },
            Dice::CDice { count, face, count_line } => {
                push_nat(&mut s, *count as u128);
                push_tagged(&mut s, 'C', *count_line as u128);
                push_tagged(&mut s, 'M', *face as u128);
            },
            Dice::FDice(count) => {
                push_nat(&mut s, *count as u128);
                push_char(&mut s, 'F');
            },
        }
        assert(s@ =~= self.notation());
        s
    }
}

/// The extra digits of a percentile roll, each after `B` (bonus) or `P`
/// (penalty).
pub open spec fn extras_text(bonus: bool, extras: Seq<u8>) -> Seq<char>
    decreases extras.len(),
{
    if extras.len() == 0 {
        Seq::empty()
    } else {
        extras_text(bonus, extras.drop_last()) + tagged(
            if bonus {
                'B'
            } else {
                'P'
            },
            extras.last() as int,
        )
    }
}

pub open spec fn percentile_text(p: PercentileRoll) -> Seq<char> {
    nat_text(p.0@[0] as nat) + nat_text(p.0@[1] as nat) + extras_text(p.1, p.2@)
}

/// The rolls' texts joined by `+`.
pub open spec fn percentile_detail(rolls: Seq<PercentileRoll>) -> Seq<char>
    decreases rolls.len(),
{
    if rolls.len() == 0 {
        Seq::empty()
    } else if rolls.len() == 1 {
        percentile_text(rolls[0])
    } else {
        percentile_detail(rolls.drop_last()) + seq!['+'] + percentile_text(rolls.last())
    }
}

/// The values in decimal, joined by `sep`.
pub open spec fn joined_ints(s: Seq<i32>, sep: char) -> Seq<char>
    decreases s.len(),
{
    if s.len() == 0 {
        Seq::empty()
    } else if s.len() == 1 {
        int_text(s[0] as int)
    } else {
        joined_ints(s.drop_last(), sep) + seq![sep] + int_text(s.last() as int)
    }
}

/// Round `k` (counted from 0) as `[k+1]:` and its values joined by spaces.
pub open spec fn round_text(k: int, values: Seq<i32>) -> Seq<char> {
    seq!['['] + nat_text((k + 1) as nat) + seq![']', ':'] + joined_ints(values, ' ')
}

/// The rounds' texts joined by spaces.
pub open spec fn rounds_detail(rounds: Seq<Vec<i32>>) -> Seq<char>
    decreases rounds.len(),
{
    if rounds.len() == 0 {
        Seq::empty()
    } else if rounds.len() == 1 {
        round_text(0, rounds[0]@)
    } else {
        rounds_detail(rounds.drop_last()) + seq![' '] + round_text(
            rounds.len() - 1,
            rounds.last()@,
        )
    }
}

pub open spec fn fudge_char(v: i8) -> char {
    if v > 0 {
        '+'
    } else if v == 0 {
        '0'
    } else {
        '-'
    }
}

pub open spec fn fudge_detail(f: Seq<i8>) -> Seq<char>
    decreases f.len(),
{
    if f.len() == 0 {
        Seq::empty()
    } else {
        fudge_detail(f.drop_last()).push(fudge_char(f.last()))
    }
}

fn push_percentile(s: &mut String, p: &PercentileRoll)
    ensures
        final(s)@ == old(s)@ + percentile_text(*p),
{
    push_nat(s, p.0[0] as u128);
    push_nat(s, p.0[1] as u128);
    let ghost mid = s@;
    let mut j: usize = 0;
    while j < p.2.len()
        invariant
            j <= p.2@.len(),
            s@ == mid + extras_text(p.1, p.2@.take(j as int)),
        decreases p.2@.len() - j,
    {
        assert(p.2@.take(j as int + 1).drop_last() =~= p.2@.take(j as int));
        let tag = if p.1 {
            'B'
        } else {
            'P'
        };
        push_tagged(s, tag, p.2[j] as u128);
        j += 1;
    }
    assert(p.2@.take(j as int) =~= p.2@);
    assert(final(s)@ =~= old(s)@ + percentile_text(*p));
}

fn push_joined_ints(s: &mut String, v: &Vec<i32>, sep: char)
    ensures
        final(s)@ == old(s)@ + joined_ints(v@, sep),
{
    let ghost start = s@;
    let mut i: usize = 0;
    while i < v.len()
        invariant
            i <= v@.len(),
            s@ == start + joined_ints(v@.take(i as int), sep),
        decreases v@.len() - i,
    {
        assert(v@.take(i as int + 1).drop_last() =~= v@.take(i as int));
        if i > 0 {
            push_char(s, sep);
        }
        push_int(s, v[i] as i128);
        assert(s@ =~= start + joined_ints(v@.take(i as int + 1), sep));
        i += 1;
    }
    assert(v@.take(i as int) =~= v@);
}

fn push_rounds(s: &mut String, rounds: &Vec<Vec<i32>>)
    ensures
        final(s)@ == old(s)@ + rounds_detail(rounds@),
{
    let ghost start = s@;
    let mut i: usize = 0;
    while i < rounds.len()
        invariant
            i <= rounds@.len(),
            s@ == start + rounds_detail(rounds@.take(i as int)),
        decreases rounds@.len() - i,
    {
        assert(rounds@.take(i as int + 1).drop_last() =~= rounds@.take(i as int));
        if i > 0 {
            push_char(s, ' ');
        }
        push_char(s, '[');
        push_nat(s, i as u128 + 1);
        push_char(s, ']');
        push_char(s, ':');
        push_joined_ints(s, &rounds[i], ' ');
        assert(s@ =~= start + rounds_detail(rounds@.take(i as int + 1)));
        i += 1;
    }
    assert(rounds@.take(i as int) =~= rounds@);
}

impl RollResult {
    /// How the outcome was drawn, as text.
    pub open spec fn detail_text(&self) -> Seq<char> {
        match self {
            RollResult::D100(rolls) => percentile_detail(rolls@),
            RollResult::Dice { result, .. } => joined_ints(result@, '+'),
            RollResult::ADice { result, .. } => rounds_detail(result@),
            RollResult::CDice { result, .. } => rounds_detail(result@),
            RollResult::FDice(f) => fudge_detail(f@),
        }
    }

    /// How the outcome was drawn, as text.
    pub fn detail(&self) -> (r: String)
        ensures
            r@ == self.detail_text(),
    {
        let mut s = String::new();
        match self {
            RollResult::D100(rolls) => {
                let mut i: usize = 0;
                while i < rolls.len()
                    invariant
                        i <= rolls@.len(),
                        s@ == percentile_detail(rolls@.take(i as int)),
                    decreases rolls@.len() - i,
                {
                    assert(rolls@.take(i as int + 1).drop_last() =~= rolls@.take(i as int));
                    if i > 0 {
                        push_char(&mut s, '+');
                    }
                    push_percentile(&mut s, &rolls[i]);
                    assert(s@ =~= percentile_detail(rolls@.take(i as int + 1)));
                    i += 1;
                }
                assert(rolls@.take(i as int) =~= rolls@);
            },
            RollResult::Dice { result, .. } => {
                push_joined_ints(&mut s, result, '+');
            },
            RollResult::ADice { result, .. } => {
                push_rounds(&mut s, result);
            },
            RollResult::CDice { result, .. } => {
                push_rounds(&mut s, result);
            },
            RollResult::FDice(f) => {
                let mut i: usize = 0;
                while i < f.len()
                    invariant
                        i <= f@.len(),
                        s@ == fudge_detail(f@.take(i as int)),
                    decreases f@.len() - i,
                {
                    assert(f@.take(i as int + 1).drop_last() =~= f@.take(i as int));
                    let c = if f[i] > 0 {
                        '+'
                    } else if f[i] == 0 {
                        '0'
                    } else {
                        '-'
                    };
                    push_char(&mut s, c);
                    i += 1;
                }
                assert(f@.take(i as int) =~= f@);
            },
        }
        assert(s@ =~= self.detail_text());
        s
    }
}

proof fn lemma_fudge_sum_bounded(f: Seq<i8>)
    requires
        forall|i: int| 0 <= i < f.len() ==> -1 <= #[trigger] f[i] <= 1,
    ensures
        -(f.len() as int) <= sum(fudge_ints(f)) <= f.len() as int,
    decreases f.len(),
{
    if f.len() > 0 {
        assert(fudge_ints(f).drop_last() =~= fudge_ints(f.drop_last()));
        lemma_fudge_sum_bounded(f.drop_last());
    }
}

/// A roll of `n` fudge dice scores between `-n` and `n`.
pub proof fn lemma_fudge_score_range(n: u8, r: RollResult)
    requires
        Dice::FDice(n).rolled_from(r),
    ensures
        -(n as int) <= r.score() <= n as int,
{
    if let RollResult::FDice(f) = r {
        lemma_fudge_sum_bounded(f@);
    }
}

/// How many times `c` occurs in `s`.
pub open spec fn occurrences(s: Seq<char>, c: char) -> nat
    decreases s.len(),
{
    if s.len() == 0 {
        0
    } else {
        occurrences(s.drop_last(), c) + if s.last() == c {
            1nat
        } else {
            0nat
        }
    }
}

proof fn lemma_occurrences_concat(a: Seq<char>, b: Seq<char>, c: char)
    ensures
        occurrences(a + b, c) == occurrences(a, c) + occurrences(b, c),
    decreases b.len(),
{
    if b.len() == 0 {
        assert(a + b =~= a);
    } else {
        assert((a + b).drop_last() =~= a + b.drop_last());
        lemma_occurrences_concat(a, b.drop_last(), c);
    }
}

proof fn lemma_occurrences_absent(s: Seq<char>, c: char)
    requires
        forall|i: int| 0 <= i < s.len() ==> #[trigger] s[i] != c,
    ensures
        occurrences(s, c) == 0,
    decreases s.len(),
{
    if s.len() > 0 {
        lemma_occurrences_absent(s.drop_last(), c);
    }
}

proof fn lemma_single_occurrence(x: char, c: char)
    ensures
        occurrences(seq![x], c) == (if x == c {
            1nat
        } else {
            0nat
        }),
{
    assert(seq![x].drop_last() =~= Seq::<char>::empty());
    assert(occurrences(Seq::<char>::empty(), c) == 0);
}

proof fn lemma_nat_text_plain(n: nat)
    ensures
        forall|i: int| 0 <= i < nat_text(n).len() ==> #[trigger] nat_text(n)[i] != '[',
    decreases n,
{
    let t = nat_text(n);
    if n >= 10 {
        lemma_nat_text_plain(n / 10);
        assert forall|i: int| 0 <= i < t.len() implies #[trigger] t[i] != '[' by {
            if i < t.len() - 1 {
                assert(t[i] == nat_text(n / 10)[i]);
            }
        }
    } else {
        assert(t[0] == digit_char(n as int));
    }
}

proof fn lemma_int_text_plain(v: int)
    ensures
        occurrences(int_text(v), '[') == 0,
{
    if v < 0 {
        lemma_nat_text_plain((-v) as nat);
        lemma_occurrences_absent(nat_text((-v) as nat), '[');
        lemma_occurrences_concat(seq!['-'], nat_text((-v) as nat), '[');
        lemma_single_occurrence('-', '[');
    } else {
        lemma_nat_text_plain(v as nat);
        lemma_occurrences_absent(nat_text(v as nat), '[');
    }
}

proof fn lemma_joined_plain(s: Seq<i32>)
    ensures
        occurrences(joined_ints(s, ' '), '[') == 0,
    decreases s.len(),
{
    if s.len() == 1 {
        lemma_int_text_plain(s[0] as int);
    } else if s.len() > 1 {
        lemma_joined_plain(s.drop_last());
        lemma_int_text_plain(s.last() as int);
        let a = joined_ints(s.drop_last(), ' ');
        lemma_occurrences_concat(a, seq![' '], '[');
        lemma_occurrences_concat(a + seq![' '], int_text(s.last() as int), '[');
        lemma_single_occurrence(' ', '[');
    }
}

proof fn lemma_round_text_one(k: int, values: Seq<i32>)
    requires
        k >= 0,
    ensures
        occurrences(round_text(k, values), '[') == 1,
{
    let n = nat_text((k + 1) as nat);
    lemma_nat_text_plain((k + 1) as nat);
    lemma_occurrences_absent(n, '[');
    lemma_joined_plain(values);
    lemma_occurrences_concat(seq!['['], n, '[');
    lemma_occurrences_concat(seq!['['] + n, seq![']', ':'], '[');
    lemma_occurrences_concat(seq!['['] + n + seq![']', ':'], joined_ints(values, ' '), '[');
    lemma_single_occurrence('[', '[');
    assert(occurrences(seq![']', ':'], '[') == 0) by {
        lemma_occurrences_absent(seq![']', ':'], '[');
    }
}

/// The detail of exploding rounds holds one `[k]:` segment per round:
/// exactly as many `[` as there are rounds.
pub proof fn lemma_rounds_detail_segments(rounds: Seq<Vec<i32>>)
    ensures
        occurrences(rounds_detail(rounds), '[') == rounds.len(),
    decreases rounds.len(),
{
    if rounds.len() == 1 {
        lemma_round_text_one(0, rounds[0]@);
    } else if rounds.len() > 1 {
        lemma_rounds_detail_segments(rounds.drop_last());
        lemma_round_text_one(rounds.len() - 1, rounds.last()@);
        let a = rounds_detail(rounds.drop_last());
        lemma_occurrences_concat(a, seq![' '], '[');
        lemma_occurrences_concat(a + seq![' '], round_text(rounds.len() - 1, rounds.last()@), '[');
        lemma_single_occurrence(' ', '[');
    }
}

proof fn lemma_sum_bounds(s: Seq<int>)
    requires
        forall|i: int| 0 <= i < s.len() ==> 1 <= #[trigger] s[i] <= 65535,
    ensures
        0 <= sum(s) <= s.len() * 65535,
    decreases s.len(),
{
    if s.len() > 0 {
        lemma_sum_bounds(s.drop_last());
    }
}

/// The kept sum of up to 255 values between 1 and 65535, as standard dice
/// roll them, lies between 0 and 255 * 65535: it always fits `i32`, so
/// `result` returns it.
pub proof fn lemma_kept_sum_fits(kq: int, values: Seq<i32>)
    requires
        values.len() <= 255,
        forall|i: int| 0 <= i < values.len() ==> 1 <= #[trigger] values[i] <= 65535,
    ensures
        0 <= kept_sum(kq, ints(values)) <= 255 * 65535,
{
    broadcast use vstd::seq_lib::group_to_multiset_ensures;

    let v = ints(values);
    let sorted = v.sort();
    v.lemma_sort_ensures();
    assert forall|k: int| 0 <= k < sorted.len() implies 1 <= #[trigger] sorted[k] <= 65535 by {
        assert(sorted.to_multiset().count(sorted[k]) > 0);
        assert(v.contains(sorted[k]));
        let i = choose|i: int| 0 <= i < v.len() && v[i] == sorted[k];
        assert(v[i] == values[i] as int);
    }
    assert(sorted.len() == v.len()) by {
        assert(sorted.to_multiset().len() == v.to_multiset().len());
    }
    let n = v.len() as int;
    if kq == 0 {
        lemma_sum_bounds(v);
    } else if kq > 0 {
        let part = sorted.subrange(n - min_int(kq, n), n);
        lemma_sum_bounds(part);
    } else {
        let part = sorted.subrange(0, min_int(-kq, n));
        lemma_sum_bounds(part);
    }
}

/// Standard dice score the kept sum of their roll, with no overflow.
pub proof fn lemma_standard_roll_score(d: Dice, r: RollResult)
    requires
        d is Dice,
        d.rolled_from(r),
    ensures
        r.wf(),
        fits_i32(r.score()),
        r matches RollResult::Dice { kq, result } && r.score() == kept_sum(kq as int, ints(result@)),
{
    if let RollResult::Dice { kq, result } = r {
        lemma_kept_sum_fits(kq as int, result@);
    }
}

} // verus!
