//! Quality adaptation driven by how full the outgoing buffer is.
//!
//! The scale is kept in hundredths: 100 stands for the configured quality. It
//! is cut quickly under congestion and regained slowly, so a link that hovers
//! around the watermark trends down instead of oscillating.

use vstd::prelude::*;

verus! {

/// Quality never drops below this many hundredths of the configured value.
pub const MIN_SCALE: u32 = 30;

/// The scale of an uncongested link.
pub const FULL_SCALE: u32 = 100;

/// With more bytes than this waiting, the link cannot keep up.
pub const HIGH_WATERMARK: usize = 262144;

/// With fewer bytes than this waiting, the link drains as fast as it is filled.
pub const LOW_WATERMARK: usize = 32768;

/// What one congested sample takes away.
pub const BACKOFF_STEP: u32 = 15;

/// What one recovery gives back.
pub const RECOVER_STEP: u32 = 5;

/// How many clear samples in a row make one recovery.
pub const RECOVER_AFTER: u32 = 3;

/// What a controller knows: the scale, and how many clear samples came last.
pub struct LinkState {
    pub scale: int,
    pub clear_streak: int,
}

impl LinkState {
    /// Whether the scale is between its bounds and no recovery is overdue.
    pub open spec fn in_bounds(self) -> bool {
        &&& MIN_SCALE <= self.scale <= FULL_SCALE
        &&& 0 <= self.clear_streak < RECOVER_AFTER
    }
}

/// The state of a link that nothing was sent over yet.
pub open spec fn fresh_link() -> LinkState {
    LinkState { scale: FULL_SCALE as int, clear_streak: 0 }
}

/// What one sample of the buffered bytes makes of a state.
pub open spec fn sampled(state: LinkState, buffered: int) -> LinkState {
    if buffered > HIGH_WATERMARK {
        let cut = state.scale - BACKOFF_STEP;
        LinkState { scale: if cut < MIN_SCALE { MIN_SCALE as int } else { cut }, clear_streak: 0 }
    } else if buffered >= LOW_WATERMARK {
        LinkState { scale: state.scale, clear_streak: 0 }
    } else if state.clear_streak + 1 < RECOVER_AFTER {
        LinkState { scale: state.scale, clear_streak: state.clear_streak + 1 }
    } else {
        let regained = state.scale + RECOVER_STEP;
        LinkState {
            scale: if regained > FULL_SCALE { FULL_SCALE as int } else { regained },
            clear_streak: 0,
        }
    }
}

/// What a run of samples makes of a state.
pub open spec fn sampled_all(state: LinkState, samples: Seq<int>) -> LinkState
    decreases samples.len(),
{
    if samples.len() == 0 {
        state
    } else {
        sampled(sampled_all(state, samples.drop_last()), samples.last())
    }
}

/// Tracks the congestion of one channel.
pub struct BandwidthController {
    scale: u32,
    clear_streak: u32,
}

impl View for BandwidthController {
    type V = LinkState;

    closed spec fn view(&self) -> LinkState {
        LinkState { scale: self.scale as int, clear_streak: self.clear_streak as int }
    }
}

impl Default for BandwidthController {
    fn default() -> (c: Self)
        ensures
            c@ == fresh_link(),
    {
        BandwidthController { scale: FULL_SCALE, clear_streak: 0 }
    }
}

impl BandwidthController {
    #[verifier::type_invariant]
    spec fn bounded(self) -> bool {
        &&& MIN_SCALE <= self.scale <= FULL_SCALE
        &&& self.clear_streak < RECOVER_AFTER
    }

    /// A controller of a link that starts at full quality.
    pub fn new() -> (c: Self)
        ensures
            c@ == fresh_link(),
    {
        Self::default()
    }

    /// Takes in how many bytes are waiting to be sent, and gives the new scale.
    pub fn sample(&mut self, buffered_amount: usize) -> (scale: u32)
        ensures
            old(self)@.in_bounds(),
            final(self)@ == sampled(old(self)@, buffered_amount as int),
            scale == final(self)@.scale,
    {
        proof {
            use_type_invariant(&*self);
        }
        if buffered_amount > HIGH_WATERMARK {
            let cut: u32 = if self.scale < MIN_SCALE + BACKOFF_STEP {
                MIN_SCALE
            } else {
                self.scale - BACKOFF_STEP
            };
            *self = BandwidthController { scale: cut, clear_streak: 0 };
        } else if buffered_amount < LOW_WATERMARK {
            if self.clear_streak + 1 < RECOVER_AFTER {
                *self = BandwidthController { scale: self.scale, clear_streak: self.clear_streak + 1 };
            } else {
                let regained: u32 = if self.scale + RECOVER_STEP > FULL_SCALE {
                    FULL_SCALE
                } else {
                    self.scale + RECOVER_STEP
                };
                *self = BandwidthController { scale: regained, clear_streak: 0 };
            }
        } else {
            // Neither congested nor clearly draining: the streak starts over.
            *self = BandwidthController { scale: self.scale, clear_streak: 0 };
        }
        self.scale
    }

    /// The scale, in hundredths.
    pub fn scale(&self) -> (scale: u32)
        ensures
            scale == self@.scale,
            self@.in_bounds(),
    {
        proof {
            use_type_invariant(self);
        }
        self.scale
    }
}

/// Whatever is sampled, the scale stays between its bounds.
pub proof fn law_scale_stays_in_bounds(state: LinkState, samples: Seq<int>)
    requires
        state.in_bounds(),
    ensures
        sampled_all(state, samples).in_bounds(),
    decreases samples.len(),
{
    if samples.len() > 0 {
        law_scale_stays_in_bounds(state, samples.drop_last());
    }
}

/// A congested sample cuts the scale at once, unless it is at its floor.
pub proof fn law_congestion_cuts_at_once(state: LinkState, buffered: int)
    requires
        state.in_bounds(),
        buffered > HIGH_WATERMARK,
    ensures
        sampled(state, buffered).scale < state.scale || state.scale == MIN_SCALE,
        sampled(state, buffered).clear_streak == 0,
{
}

/// The scale only rises with a sample that ends a run of clear ones.
pub proof fn law_recovery_needs_a_clear_streak(state: LinkState, samples: Seq<int>)
    requires
        state.in_bounds(),
        samples.len() >= 1,
        sampled_all(state, samples).scale > sampled_all(state, samples.drop_last()).scale,
    ensures
        forall|k: int|
            samples.len() - RECOVER_AFTER <= k < samples.len() && 0 <= k ==> samples[k]
                < LOW_WATERMARK,
        state.clear_streak + samples.len() >= RECOVER_AFTER,
{
    let n = samples.len() as int;
    let one = samples.drop_last();
    law_scale_stays_in_bounds(state, one);
    assert(samples.last() == samples[n - 1]);
    if n >= 2 {
        let two = one.drop_last();
        law_scale_stays_in_bounds(state, two);
        assert(one.last() == samples[n - 2]);
        if n >= 3 {
            assert(two.last() == samples[n - 3]);
            law_scale_stays_in_bounds(state, two.drop_last());
        }
    }
}

/// A link that alternates between congested and clear never gains: after each
/// such pair the scale is no higher than before, and lower unless it was at
/// its floor.
pub proof fn law_oscillation_trends_down(state: LinkState, congested: int, clear: int)
    requires
        state.in_bounds(),
        congested > HIGH_WATERMARK,
        clear < LOW_WATERMARK,
    ensures
        sampled(sampled(state, congested), clear).scale < state.scale || state.scale == MIN_SCALE,
        sampled(sampled(state, congested), clear).scale <= state.scale,
{
}

/// Congested samples in a row take fifteen hundredths each, down to thirty.
pub proof fn law_congestion_costs_fifteen_each(state: LinkState, samples: Seq<int>)
    requires
        state.in_bounds(),
        forall|k: int| 0 <= k < samples.len() ==> #[trigger] samples[k] > 262_144,
    ensures
        ({
            let left = state.scale - 15 * samples.len();
            sampled_all(state, samples).scale == if left < 30 {
                30
            } else {
                left
            }
        }),
        samples.len() > 0 ==> sampled_all(state, samples).clear_streak == 0,
    decreases samples.len(),
{
    if samples.len() > 0 {
        law_congestion_costs_fifteen_each(state, samples.drop_last());
    }
}

/// Clear samples in a row give five hundredths back for every three of them, up to a
/// hundred; those that came just before count.
pub proof fn law_three_clear_samples_regain_five(state: LinkState, samples: Seq<int>)
    requires
        state.in_bounds(),
        forall|k: int| 0 <= k < samples.len() ==> #[trigger] samples[k] < 32_768,
    ensures
        ({
            let clear = state.clear_streak + samples.len();
            let gained = state.scale + 5 * (clear / 3);
            &&& sampled_all(state, samples).scale == if gained > 100 {
                100
            } else {
                gained
            }
            &&& sampled_all(state, samples).clear_streak == clear % 3
        }),
    decreases samples.len(),
{
    if samples.len() > 0 {
        law_three_clear_samples_regain_five(state, samples.drop_last());
    }
}

/// Samples between the watermarks leave the scale alone and end a run of clear ones.
pub proof fn law_middling_samples_change_nothing(state: LinkState, samples: Seq<int>)
    requires
        forall|k: int| 0 <= k < samples.len() ==> 32_768 <= #[trigger] samples[k] <= 262_144,
    ensures
        sampled_all(state, samples).scale == state.scale,
        samples.len() > 0 ==> sampled_all(state, samples).clear_streak == 0,
    decreases samples.len(),
{
    if samples.len() > 0 {
        law_middling_samples_change_nothing(state, samples.drop_last());
    }
}

/// Samples taken in two goes make the same of a link as samples taken in one.
pub proof fn law_samples_add_up(state: LinkState, first: Seq<int>, then_more: Seq<int>)
    ensures
        sampled_all(state, first + then_more) == sampled_all(sampled_all(state, first), then_more),
        fresh_link().scale == 100,
        fresh_link().clear_streak == 0,
    decreases then_more.len(),
{
    if then_more.len() > 0 {
        law_samples_add_up(state, first, then_more.drop_last());
        assert((first + then_more).drop_last() =~= first + then_more.drop_last());
    } else {
        assert(first + then_more =~= first);
    }
}

} // verus!
