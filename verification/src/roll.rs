//! Rolling a parsed expression and the engine's single entry point.

use crate::expr::{lemma_parse_ok_valid, parse_expression, spec_parse, DiceError, DiceExpression, Limits};
use crate::rng::{new_rng, roll_die};
use vstd::prelude::*;

verus! {

/// The outcome of one roll request: the individual dice in draw order and
/// their sum.
#[derive(Debug)]
pub struct RollResult {
    /// One value per die, in the order drawn.
    pub rolls: Vec<u32>,
    /// Sum of `rolls`; derived, never set independently.
    pub total: u64,
}

/// Sum of a sequence of rolled values.
pub open spec fn sum_rolls(s: Seq<u32>) -> int
    decreases s.len(),
{
    if s.len() == 0 {
        0
    } else {
        sum_rolls(s.drop_last()) + s.last()
    }
}

impl RollResult {
    /// What a result owes to the expression it came from: one roll per die,
    /// each within `[1, sides]`, and a total equal to their sum.
    pub open spec fn valid_for(self, e: DiceExpression) -> bool {
        &&& self.rolls@.len() == e.count
        &&& forall|i: int| 0 <= i < self.rolls@.len() ==> 1 <= #[trigger] self.rolls@[i] <= e.sides
        &&& self.total == sum_rolls(self.rolls@)
    }
}

/// Rolls `e.count` independent dice of `e.sides` sides each.
///
/// Every element of the result is proved to lie in `[1, e.sides]`, the
/// result has exactly `e.count` elements in draw order, and `total` is their
/// sum; the sum cannot overflow because it is bounded by `count * sides`.
pub fn roll_expression(e: &DiceExpression) -> (r: RollResult)
    requires
        e.valid(),
    ensures
        r.valid_for(*e),
{
    let mut rng = new_rng();
    let mut rolls: Vec<u32> = Vec::new();
    let mut total: u64 = 0;
    let mut i: u32 = 0;
    while i < e.count
        invariant
            i <= e.count,
            e.sides >= 1,
            rolls@.len() == i as int,
            forall|j: int| 0 <= j < rolls@.len() ==> 1 <= #[trigger] rolls@[j] <= e.sides,
            total == sum_rolls(rolls@),
            total <= (i as int) * (e.sides as int),
        decreases e.count - i,
    {
        let v = roll_die(&mut rng, e.sides);
        proof {
            assert((i as int) * (e.sides as int) + (e.sides as int) == (i as int + 1) * (
            e.sides as int)) by (nonlinear_arith);
            assert((i as int + 1) * (e.sides as int) <= (e.count as int) * (e.sides as int))
                by (nonlinear_arith)
                requires
                    i as int + 1 <= e.count as int,
                    e.sides as int >= 0,
            ;
            assert((e.count as int) * (e.sides as int) <= 0xffff_ffff * 0xffff_ffff)
                by (nonlinear_arith)
                requires
                    0 <= e.count as int <= 0xffff_ffff,
                    0 <= e.sides as int <= 0xffff_ffff,
            ;
        }
        let ghost prev = rolls@;
        total = total + v as u64;
        rolls.push(v);
        proof {
            assert(rolls@.drop_last() =~= prev);
            assert(rolls@.last() == v);
        }
        i = i + 1;
    }
    RollResult { rolls, total }
}

/// Parses `text` against `limits` and, on success, rolls the dice.
///
/// Success and failure mirror [`spec_parse`] exactly: an input is rejected
/// with precisely the error that `spec_parse` assigns it, and an accepted
/// input yields a result valid for the parsed expression.
pub fn roll(text: &str, limits: &Limits) -> (r: Result<RollResult, DiceError>)
    ensures
        ({
            let p = spec_parse(text@, *limits);
            match r {
                Ok(res) => p is Ok && res.valid_for(p->Ok_0),
                Err(err) => p == Err::<DiceExpression, DiceError>(err),
            }
        }),
{
    match parse_expression(text, limits) {
        Ok(e) => {
            proof {
                lemma_parse_ok_valid(text@, *limits);
            }
            Ok(roll_expression(&e))
        },
        Err(err) => Err(err),
    }
}

} // verus!
