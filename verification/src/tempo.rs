//! One audio tempo as a chain of `atempo` stages.
//!
//! `atempo` refuses factors below 0.5 and errors rather than clamping, so the slow end is a chain
//! of 0.5 stages. The fast end chains 2.0 stages too: one big stage widens the filter's window in
//! proportion and smears transients.

use vstd::prelude::*;
use vstd::string::*;

use crate::number;
use crate::number::{fmt_ratio, ONE};
use crate::text;

verus! {

broadcast use crate::text::texts_push;

/// How often `n / scale` has to be halved to come down to 2, a billionth of slack allowed.
pub open spec fn doublings(n: int, scale: int) -> nat
    decreases n - scale,
{
    if scale > 0 && n > 2_000_000_001 * scale {
        1 + doublings(n, 2 * scale)
    } else {
        0
    }
}

/// How often `n` has to be doubled to come up to 0.5, a billionth of slack allowed.
pub open spec fn halvings(n: int) -> nat
    decreases 1_000_000_000 - n,
{
    if 0 < n < 499_999_999 {
        1 + halvings(2 * n)
    } else {
        0
    }
}

/// Two to the power `k`.
pub open spec fn two_to(k: nat) -> int
    decreases k,
{
    if k == 0 {
        1
    } else {
        2 * two_to((k - 1) as nat)
    }
}

/// What is left of a speed once its 2.0 or 0.5 stages are taken off, as a fraction.
pub open spec fn remainder(speed: int) -> (int, int) {
    if speed > 2_000_000_001 {
        (speed, ONE * two_to(doublings(speed, 1)))
    } else {
        (speed * two_to(halvings(speed)), ONE as int)
    }
}

/// The stage for what is left, which is none where nothing is, a billionth of slack allowed (just
/// over one above 1, just under one below it, as for any factor): a stage at 1 would still force
/// a resample.
pub open spec fn last_stage(n: int, d: int) -> Seq<Seq<char>> {
    if n * ONE >= 1_000_000_001 * d || n * ONE < 999_999_999 * d {
        seq!["atempo="@ + number::ratio_text(n, d)]
    } else {
        Seq::empty()
    }
}

/// The stages that play sound at `speed`.
pub open spec fn chain(speed: int) -> Seq<Seq<char>> {
    let (n, d) = remainder(speed);
    if speed <= 0 {
        Seq::empty()
    } else if speed > 2_000_000_001 {
        Seq::new(doublings(speed, 1), |i: int| "atempo=2.0"@) + last_stage(n, d)
    } else {
        Seq::new(halvings(speed), |i: int| "atempo=0.5"@) + last_stage(n, d)
    }
}

/// Whatever the speed, what is left for the last stage lies where one stage can carry it, and the
/// stages multiply back to the speed.
pub proof fn law_stages_make_the_speed(speed: int)
    requires
        speed > 0,
    ensures
        ({
            let (n, d) = remainder(speed);
            &&& d > 0
            &&& 499_999_999 * d <= n * ONE <= 2_000_000_001 * d
            &&& speed > 2_000_000_001 ==> n * ONE * two_to(doublings(speed, 1)) == speed * d
            &&& speed <= 2_000_000_001 ==> n * ONE == speed * d * two_to(halvings(speed))
        }),
{
    if speed > 2_000_000_001 {
        lemma_doublings(speed, 1);
        let p = two_to(doublings(speed, 1));
        assert(speed * ONE <= 2_000_000_001 * (ONE * p)) by (nonlinear_arith)
            requires
                speed <= 2_000_000_001 * (1 * p),
                ONE == 1_000_000_000,
        ;
        assert(499_999_999 * (ONE * p) <= speed * ONE) by (nonlinear_arith)
            requires
                2 * speed > 2_000_000_001 * (1 * p),
                ONE == 1_000_000_000,
                p > 0,
        ;
        assert(speed * ONE * p == speed * (ONE * p)) by (nonlinear_arith);
    } else {
        lemma_halvings(speed);
        let p = two_to(halvings(speed));
        assert(speed * p * ONE == speed * ONE * p) by (nonlinear_arith);
    }
}

pub proof fn lemma_doublings(n: int, scale: int)
    requires
        n > 0,
        scale > 0,
    ensures
        two_to(doublings(n, scale)) > 0,
        n <= 2_000_000_001 * (scale * two_to(doublings(n, scale))),
        doublings(n, scale) > 0 ==> 2 * n > 2_000_000_001 * (scale * two_to(doublings(n, scale))),
    decreases n - scale,
{
    if n > 2_000_000_001 * scale {
        lemma_doublings(n, 2 * scale);
        let p = two_to(doublings(n, 2 * scale));
        assert(scale * (2 * p) == (2 * scale) * p) by (nonlinear_arith);
        if doublings(n, 2 * scale) == 0 {
            assert(p == 1);
            assert((2 * scale) * 1 == 2 * scale);
        }
    } else {
        assert(scale * 1 == scale);
    }
}

pub proof fn lemma_halvings(n: int)
    requires
        0 < n <= 2_000_000_001,
    ensures
        499_999_999 <= n * two_to(halvings(n)) <= 2_000_000_001,
    decreases 1_000_000_000 - n,
{
    if n < 499_999_999 {
        lemma_halvings(2 * n);
        let p = two_to(halvings(2 * n));
        assert(n * (2 * p) == (2 * n) * p) by (nonlinear_arith);
    } else {
        assert(n * 1 == n);
    }
}

fn push_last(parts: &mut Vec<String>, n: i128, d: i128)
    requires
        0 <= n <= 0x1_0000_0000_0000_0000,
        0 < d <= 0x100_0000_0000_0000_0000,
    ensures
        text::texts(final(parts)@) == text::texts(old(parts)@) + last_stage(n as int, d as int),
{
    if n * 1_000_000_000 >= 1_000_000_001 * d || n * 1_000_000_000 < 999_999_999 * d {
        let mut stage = "atempo=".to_string();
        stage.append(fmt_ratio(n, d).as_str());
        parts.push(stage);
    }
    proof {
        assert(text::texts(parts@) =~= text::texts(old(parts)@) + last_stage(n as int, d as int));
    }
}

/// The stages that play sound at `speed`; none at 1.
pub fn atempo_chain(speed: i64) -> (r: Vec<String>)
    ensures
        text::texts(r@) == chain(speed as int),
{
    let mut parts: Vec<String> = Vec::new();
    if speed <= 0 {
        proof {
            assert(text::texts(parts@) =~= chain(speed as int));
        }
        return parts;
    }
    let mut n: i128 = speed as i128;
    let mut scale: i128 = 1;
    if speed > 2_000_000_001 {
        proof {
            assert(text::texts(parts@) =~= Seq::new(0, |i: int| "atempo=2.0"@));
            assert(doublings(n as int, 1) == parts.len() + doublings(n as int, scale as int));
            assert(scale == two_to(parts.len() as nat));
        }
        while n > 2_000_000_001 * scale
            invariant
                n == speed,
                speed > 0,
                0 < scale <= n,
                scale == 1 || ONE * scale <= n,
                scale == two_to(parts.len() as nat),
                doublings(speed as int, 1) == parts.len() + doublings(speed as int, scale as int),
                text::texts(parts@) == Seq::new(parts.len() as nat, |i: int| "atempo=2.0"@),
            decreases n - scale,
        {
            parts.push("atempo=2.0".to_string());
            scale = 2 * scale;
            proof {
                assert(text::texts(parts@) =~= Seq::new(parts.len() as nat, |i: int| "atempo=2.0"@));
            }
        }
        push_last(&mut parts, n, ONE as i128 * scale);
    } else {
        proof {
            assert(text::texts(parts@) =~= Seq::new(0, |i: int| "atempo=0.5"@));
            assert(n == speed * two_to(parts.len() as nat)) by (nonlinear_arith)
                requires
                    n == speed,
                    two_to(parts.len() as nat) == 1,
            ;
        }
        while n < 499_999_999
            invariant
                0 < n <= 2_000_000_001,
                n == speed * two_to(parts.len() as nat),
                halvings(speed as int) == parts.len() + halvings(n as int),
                text::texts(parts@) == Seq::new(parts.len() as nat, |i: int| "atempo=0.5"@),
            decreases 1_000_000_000 - n,
        {
            let ghost before = two_to(parts.len() as nat);
            parts.push("atempo=0.5".to_string());
            proof {
                assert(2 * (speed * before) == speed * (2 * before)) by (nonlinear_arith);
                assert(text::texts(parts@) =~= Seq::new(parts.len() as nat, |i: int| "atempo=0.5"@));
            }
            n = 2 * n;
        }
        push_last(&mut parts, n, ONE as i128);
    }
    parts
}

} // verus!
