//! Queueing: what `POST /queue` does with a request.

use crate::clock::Nanos;
use crate::ids::{fresh_id, is_random_uuid};
use crate::metrics::Metrics;
use crate::model::{Player, QueueRequest, QueueResponse};
use crate::number::{law_order_is_by_value, Real, INFINITY_BITS, NEG_INFINITY_BITS};
use crate::pool::{stamped, PlayerPool};
use vstd::arithmetic::power2::pow2;
use vstd::prelude::*;

verus! {

/// The least skill: the bits of 0.0.
pub const MIN_SKILL: u32 = 0x0000_0000;

/// The greatest skill: the bits of 100.0.
pub const MAX_SKILL: u32 = 0x42c8_0000;

/// The requested skill, brought into 0.0-100.0.
pub open spec fn admitted_skill(skill: Real) -> Real {
    skill.clamp_spec((Real { bits: MIN_SKILL }), (Real { bits: MAX_SKILL }))
}

/// The player that a request asks to queue under `id`.
pub open spec fn admitted(req: QueueRequest, id: u128) -> Player {
    Player { id, skill: admitted_skill(req.skill), region: req.region, queued_at: None }
}

/// Accept a player into the pool at `now`, under the requested id or else under
/// `fallback`.
pub fn enqueue_at(
    pool: &mut PlayerPool,
    metrics: &mut Metrics,
    req: QueueRequest,
    fallback: u128,
    now: Nanos,
) -> (r: QueueResponse)
    requires
        old(pool).wf(),
    ensures
        final(pool).wf(),
        r.player_id == (match req.player_id {
            Some(id) => id,
            None => fallback,
        }),
        final(pool)@ == old(pool)@.insert(
            r.player_id,
            stamped(admitted(req, r.player_id), now),
        ),
        final(pool).clock() == old(pool).clock(),
        final(pool)@[r.player_id].id == r.player_id,
        final(pool)@[r.player_id].region@ == req.region@,
        final(pool)@[r.player_id].queued_at == Some(now),
        (Real { bits: MIN_SKILL }).order() <= req.skill.order() <= (Real {
            bits: MAX_SKILL,
        }).order() ==> final(pool)@[r.player_id].skill == req.skill,
        req.skill.order() < (Real { bits: MIN_SKILL }).order()
            ==> final(pool)@[r.player_id].skill.bits == MIN_SKILL,
        req.skill.order() > (Real { bits: MAX_SKILL }).order() && !req.skill.is_nan_spec()
            ==> final(pool)@[r.player_id].skill.bits == MAX_SKILL,
        *final(metrics) == old(metrics).with_enqueue(),
        r.queue_depth == final(metrics).queue_depth,
{
    let id: u128 = match req.player_id {
        Some(id) => id,
        None => fallback,
    };
    let player = Player {
        id,
        skill: req.skill.clamp(Real { bits: MIN_SKILL }, Real { bits: MAX_SKILL }),
        region: req.region,
        queued_at: None,
    };
    metrics.record_enqueue();
    pool.insert_at(player, now);
    QueueResponse { player_id: id, queue_depth: metrics.queue_depth }
}

/// Accept a player into the pool at the present moment, under the requested id
/// or else under a fresh one. The moment is the clock's next reading.
pub fn enqueue(pool: &mut PlayerPool, metrics: &mut Metrics, req: QueueRequest) -> (r:
    QueueResponse)
    requires
        old(pool).wf(),
    ensures
        final(pool).wf(),
        match req.player_id {
            Some(id) => r.player_id == id,
            None => is_random_uuid(r.player_id),
        },
        final(pool)@ == old(pool)@.insert(
            r.player_id,
            stamped(admitted(req, r.player_id), final(pool).clock().latest()),
        ),
        final(pool).clock().latest() >= old(pool).clock().latest(),
        final(pool).clock().started() == old(pool).clock().started(),
        old(pool).clock().read_once(final(pool).clock()),
        *final(metrics) == old(metrics).with_enqueue(),
        r.queue_depth == final(metrics).queue_depth,
{
    let id: u128 = match req.player_id {
        Some(id) => id,
        None => fresh_id(),
    };
    let now: Nanos = pool.now();
    enqueue_at(pool, metrics, req, id, now)
}

/// A requested skill between 0 and 100 is queued as it is; a smaller number as 0
/// and a larger one as 100. Values are in units of 2^-149.
pub proof fn law_skill_in_range_is_kept(skill: Real)
    requires
        skill.is_finite(),
    ensures
        0 <= skill.units() <= 100 * pow2(149) ==> admitted_skill(skill).bits == skill.bits,
        skill.units() < 0 ==> admitted_skill(skill).units() == 0,
        skill.units() > 100 * pow2(149) ==> admitted_skill(skill).units() == 100 * pow2(149),
{
    let least = Real { bits: MIN_SKILL };
    let greatest = Real { bits: MAX_SKILL };
    assert(least.units() == 0);
    assert(greatest.magnitude() == 0x42c8_0000);
    assert(0x42c8_0000int / 0x80_0000 == 133 && 0x42c8_0000int % 0x80_0000 == 0x48_0000);
    assert(greatest.units() == 0xc8_0000 * pow2(132));
    assert(greatest.units() == 100 * pow2(149)) by {
        vstd::arithmetic::power2::lemma_pow2_adds(17, 132);
        vstd::arithmetic::power2::lemma2_to64();
        assert(100 * (0x2_0000 * pow2(132)) == 0xc8_0000 * pow2(132)) by (nonlinear_arith);
    }
    law_order_is_by_value(skill, least);
    law_order_is_by_value(skill, greatest);
}

/// What is not a finite number: infinities are queued as 100 and as 0, and a NaN
/// as it is.
pub proof fn law_other_skills_are_bounded(skill: Real)
    requires
        !skill.is_finite(),
    ensures
        skill.bits == INFINITY_BITS ==> admitted_skill(skill).bits == MAX_SKILL,
        skill.bits == NEG_INFINITY_BITS ==> admitted_skill(skill).bits == MIN_SKILL,
        skill.bits != INFINITY_BITS && skill.bits != NEG_INFINITY_BITS ==> admitted_skill(
            skill,
        ).bits == skill.bits,
{
}

/// The player who is queued is the one who asked: the id that was assigned, the
/// region that was named, the skill that is admitted, and no wait clock yet.
pub proof fn law_admitted_is_who_asked(req: QueueRequest, id: u128)
    ensures
        admitted(req, id).id == id,
        admitted(req, id).region@ == req.region@,
        admitted(req, id).skill.bits == admitted_skill(req.skill).bits,
        admitted(req, id).queued_at is None,
{
}

/// Whatever number is asked for, the skill that is queued lies in 0.0-100.0.
pub proof fn law_admitted_skill_is_normal(skill: Real)
    requires
        !skill.is_nan_spec(),
    ensures
        admitted_skill(skill).at_least_spec((Real { bits: MIN_SKILL })),
        (Real { bits: MAX_SKILL }).at_least_spec(admitted_skill(skill)),
        admitted_skill(admitted_skill(skill)) == admitted_skill(skill),
{
}

} // verus!
