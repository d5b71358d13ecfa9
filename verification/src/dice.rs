//! The two canonical roll sets: the full 21-roll distribution of an ordered
//! pair of dice (doubles weigh 1, mixed rolls 2, weights summing to 36), and
//! the 15 mixed rolls that seed the opening ply, each weighing 1.

use vstd::prelude::*;

verus! {

/// A dice roll with its multiplicity in 36 two-die throws.
pub struct Roll {
    pub d1: u8,
    pub d2: u8,
    pub weight: u8,
}

/// Every die in the set shows a face from 1 to 6.
pub open spec fn rolls_valid(s: Seq<Roll>) -> bool {
    forall|i: int| 0 <= i < s.len() ==> 1 <= (#[trigger] s[i]).d1 <= 6 && 1 <= s[i].d2 <= 6
}

/// The face pairs of a roll set.
pub open spec fn rolls_pairs(s: Seq<Roll>) -> Seq<(int, int)> {
    s.map_values(|r: Roll| (r.d1 as int, r.d2 as int))
}

pub open spec fn roll_ok(r: Roll) -> bool {
    &&& 1 <= r.d1 <= r.d2 <= 6
    &&& r.weight == (if r.d1 == r.d2 {
        1int
    } else {
        2int
    })
}

/// The full 21-roll set in a fixed order: for each low die, the double
/// first, then the mixed rolls with each higher die.
pub open spec fn all_rolls_spec() -> Seq<(int, int)> {
    seq![
        (1, 1), (1, 2), (1, 3), (1, 4), (1, 5), (1, 6),
        (2, 2), (2, 3), (2, 4), (2, 5), (2, 6),
        (3, 3), (3, 4), (3, 5), (3, 6),
        (4, 4), (4, 5), (4, 6),
        (5, 5), (5, 6),
        (6, 6),
    ]
}

/// The 15 mixed rolls that seed the opening ply, in the same order.
pub open spec fn opening_rolls_spec() -> Seq<(int, int)> {
    seq![
        (1, 2), (1, 3), (1, 4), (1, 5), (1, 6),
        (2, 3), (2, 4), (2, 5), (2, 6),
        (3, 4), (3, 5), (3, 6),
        (4, 5), (4, 6),
        (5, 6),
    ]
}

/// The complete two-die roll distribution.
pub fn all_rolls() -> (r: Vec<Roll>)
    ensures
        r@.len() == 21,
        forall|i: int| 0 <= i < 21 ==> roll_ok(#[trigger] r@[i]),
        forall|i: int|
            0 <= i < 21 ==> (#[trigger] r@[i].d1 as int, r@[i].d2 as int) == all_rolls_spec()[i],
{
    let mut r: Vec<Roll> = Vec::new();
    let mut a: u8 = 1;
    while a <= 6
        invariant
            1 <= a <= 7,
            r@.len() == spec_count_from(a as int),
            forall|i: int| 0 <= i < r@.len() ==> roll_ok(#[trigger] r@[i]),
            forall|i: int|
                0 <= i < r@.len() ==> (#[trigger] r@[i].d1 as int, r@[i].d2 as int)
                    == all_rolls_spec()[i],
        decreases 7 - a
    {
        let mut b: u8 = a;
        while b <= 6
            invariant
                1 <= a <= 6,
                a <= b <= 7,
                r@.len() == spec_count_from(a as int) + (b - a),
                forall|i: int| 0 <= i < r@.len() ==> roll_ok(#[trigger] r@[i]),
                forall|i: int|
                    0 <= i < r@.len() ==> (#[trigger] r@[i].d1 as int, r@[i].d2 as int)
                        == all_rolls_spec()[i],
            decreases 7 - b
        {
            let w: u8 = if a == b {
                1
            } else {
                2
            };
            r.push(Roll { d1: a, d2: b, weight: w });
            b = b + 1;
        }
        a = a + 1;
    }
    r
}

/// How many rolls precede low-die `a` in the fixed order.
pub open spec fn spec_count_from(a: int) -> int {
    if a <= 1 {
        0
    } else if a == 2 {
        6
    } else if a == 3 {
        11
    } else if a == 4 {
        15
    } else if a == 5 {
        18
    } else if a == 6 {
        20
    } else {
        21
    }
}

/// The opening-ply roll set: every mixed roll once.
pub fn opening_rolls() -> (r: Vec<Roll>)
    ensures
        r@.len() == 15,
        forall|i: int|
            0 <= i < 15 ==> 1 <= (#[trigger] r@[i]).d1 < r@[i].d2 <= 6 && r@[i].weight == 1,
        forall|i: int|
            0 <= i < 15 ==> (#[trigger] r@[i].d1 as int, r@[i].d2 as int)
                == opening_rolls_spec()[i],
{
    let mut r: Vec<Roll> = Vec::new();
    let mut a: u8 = 1;
    while a <= 5
        invariant
            1 <= a <= 6,
            r@.len() == spec_mixed_count_from(a as int),
            forall|i: int|
                0 <= i < r@.len() ==> 1 <= (#[trigger] r@[i]).d1 < r@[i].d2 <= 6
                    && r@[i].weight == 1,
            forall|i: int|
                0 <= i < r@.len() ==> (#[trigger] r@[i].d1 as int, r@[i].d2 as int)
                    == opening_rolls_spec()[i],
        decreases 6 - a
    {
        let mut b: u8 = a + 1;
        while b <= 6
            invariant
                1 <= a <= 5,
                a + 1 <= b <= 7,
                r@.len() == spec_mixed_count_from(a as int) + (b - a - 1),
                forall|i: int|
                    0 <= i < r@.len() ==> 1 <= (#[trigger] r@[i]).d1 < r@[i].d2 <= 6
                        && r@[i].weight == 1,
                forall|i: int|
                    0 <= i < r@.len() ==> (#[trigger] r@[i].d1 as int, r@[i].d2 as int)
                        == opening_rolls_spec()[i],
            decreases 7 - b
        {
            r.push(Roll { d1: a, d2: b, weight: 1 });
            b = b + 1;
        }
        a = a + 1;
    }
    r
}

/// How many mixed rolls precede low-die `a` in the fixed order.
pub open spec fn spec_mixed_count_from(a: int) -> int {
    if a <= 1 {
        0
    } else if a == 2 {
        5
    } else if a == 3 {
        9
    } else if a == 4 {
        12
    } else if a == 5 {
        14
    } else {
        15
    }
}

/// Mixed rolls weigh 2, doubles weigh 1: the weights of the 21-roll set sum
/// to 36, the number of ordered two-die throws.
pub proof fn lemma_roll_weights_sum(rolls: Seq<Roll>)
    requires
        rolls.len() == 21,
        forall|i: int| 0 <= i < 21 ==> roll_ok(#[trigger] rolls[i]),
        forall|i: int|
            0 <= i < 21 ==> (#[trigger] rolls[i].d1 as int, rolls[i].d2 as int)
                == all_rolls_spec()[i],
    ensures
        crate::position::seq_sum(rolls.map_values(|r: Roll| r.weight as int)) == 36,
{
    let ws = rolls.map_values(|r: Roll| r.weight as int);
    assert forall|i: int| 0 <= i < 21 implies #[trigger] ws[i] == (if all_rolls_spec()[i].0
        == all_rolls_spec()[i].1 {
        1int
    } else {
        2int
    }) by {
        assert(roll_ok(rolls[i]));
    }
    lemma_sum_21(ws, 21);
    assert(spec_weight_prefix(0) == 0);
    assert(spec_weight_prefix(1) == 1);
    assert(spec_weight_prefix(2) == 3);
    assert(spec_weight_prefix(3) == 5);
    assert(spec_weight_prefix(4) == 7);
    assert(spec_weight_prefix(5) == 9);
    assert(spec_weight_prefix(6) == 11);
    assert(spec_weight_prefix(7) == 12);
    assert(spec_weight_prefix(8) == 14);
    assert(spec_weight_prefix(9) == 16);
    assert(spec_weight_prefix(10) == 18);
    assert(spec_weight_prefix(11) == 20);
    assert(spec_weight_prefix(12) == 21);
    assert(spec_weight_prefix(13) == 23);
    assert(spec_weight_prefix(14) == 25);
    assert(spec_weight_prefix(15) == 27);
    assert(spec_weight_prefix(16) == 28);
    assert(spec_weight_prefix(17) == 30);
    assert(spec_weight_prefix(18) == 32);
    assert(spec_weight_prefix(19) == 33);
    assert(spec_weight_prefix(20) == 35);
    assert(spec_weight_prefix(21) == 36);
}

proof fn lemma_sum_21(ws: Seq<int>, i: int)
    requires
        0 <= i <= 21,
        ws.len() == 21,
        forall|j: int| 0 <= j < 21 ==> #[trigger] ws[j] == (if all_rolls_spec()[j].0
            == all_rolls_spec()[j].1 {
            1int
        } else {
            2int
        }),
    ensures
        crate::position::sum_prefix(ws, i) == spec_weight_prefix(i),
    decreases i
{
    if i > 0 {
        lemma_sum_21(ws, i - 1);
    }
}

/// Running weight total of the fixed 21-roll order.
pub open spec fn spec_weight_prefix(i: int) -> int
    decreases i
{
    if i <= 0 {
        0
    } else {
        spec_weight_prefix(i - 1) + (if all_rolls_spec()[i - 1].0 == all_rolls_spec()[i - 1].1 {
            1int
        } else {
            2int
        })
    }
}

} // verus!
