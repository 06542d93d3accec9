//! One column of the board: two decks of beads and the digit value they show.

use vstd::prelude::*;

verus! {

/// The new active-bead count of a deck after a click on the bead at 1-based
/// position `p`, counted from the reckoning bar: the clicked bead and every
/// bead between it and the bar become active, unless exactly those beads were
/// active already, in which case the clicked bead itself retracts.
pub open spec fn click_toggle(active: int, p: int) -> int {
    if active != p {
        p
    } else {
        p - 1
    }
}

/// One vertical bead track, split by the reckoning bar into an upper
/// (weighted) deck and a lower (unit) deck.
///
/// Each active lower bead contributes 1 to the column's value; the upper deck
/// contributes `upper_bead_weight` while it is active. Activation of the
/// upper deck is the parity of `active_upper_count`, so a click anywhere in
/// the upper deck toggles the contribution on or off.
#[derive(Clone, Copy, Debug)]
pub struct Column {
    /// Number of beads in the lower (unit) deck.
    pub lower_bead_count: u64,
    /// Number of beads in the upper (weighted) deck; 0 when the deck is absent.
    pub upper_bead_count: u64,
    /// Value the upper deck contributes while it is active.
    pub upper_bead_weight: u64,
    /// Lower beads currently pushed away from the bar; the rest are active.
    pub inactive_lower_count: u64,
    /// Upper beads currently pushed toward the bar.
    pub active_upper_count: u64,
}

impl Column {
    /// Well-formedness: bead positions stay within their decks, and the
    /// largest value the column can show fits in a machine word.
    pub open spec fn wf(self) -> bool {
        &&& self.inactive_lower_count <= self.lower_bead_count
        &&& self.active_upper_count <= self.upper_bead_count
        &&& self.max_value_spec() <= u64::MAX
    }

    /// Whether the upper deck currently contributes its weight.
    pub open spec fn upper_active(self) -> bool {
        self.active_upper_count % 2 == 1
    }

    /// Lower beads currently pushed toward the bar.
    pub open spec fn active_lower_count(self) -> int {
        self.lower_bead_count - self.inactive_lower_count
    }

    /// The digit value the bead arrangement shows.
    pub open spec fn value_spec(self) -> int {
        self.active_lower_count() + if self.upper_active() {
            self.upper_bead_weight as int
        } else {
            0
        }
    }

    /// The largest value this column can show.
    pub open spec fn max_value_spec(self) -> int {
        self.lower_bead_count + if self.upper_bead_count > 0 {
            self.upper_bead_weight as int
        } else {
            0
        }
    }

    /// Whether two columns have the same deck configuration.
    pub open spec fn same_config(self, other: Column) -> bool {
        &&& self.lower_bead_count == other.lower_bead_count
        &&& self.upper_bead_count == other.upper_bead_count
        &&& self.upper_bead_weight == other.upper_bead_weight
    }

    /// A column with the given deck configuration and every bead inactive.
    pub open spec fn fresh_spec(lower: u64, upper: u64, weight: u64) -> Column {
        Column {
            lower_bead_count: lower,
            upper_bead_count: upper,
            upper_bead_weight: weight,
            inactive_lower_count: lower,
            active_upper_count: 0,
        }
    }

    /// The bead arrangement after encoding a target digit `t >= 0`: the
    /// target is clamped to the column's range, the upper deck takes its
    /// weight out of the target first, and the lower deck shows what is left.
    pub open spec fn encode_spec(self, t: int) -> Column {
        let clamped = if t <= self.max_value_spec() {
            t
        } else {
            self.max_value_spec()
        };
        let active: u64 = if self.upper_bead_count > 0 && clamped >= self.upper_bead_weight {
            1u64
        } else {
            0u64
        };
        let rem0 = if active == 1 {
            clamped - self.upper_bead_weight
        } else {
            clamped
        };
        let rem = if rem0 <= self.lower_bead_count {
            rem0
        } else {
            self.lower_bead_count as int
        };
        Column {
            inactive_lower_count: (self.lower_bead_count - rem) as u64,
            active_upper_count: active,
            ..self
        }
    }

    /// The column after a click on the lower-deck bead at 1-based position
    /// `p`, counted from the bar.
    pub open spec fn click_lower_spec(self, p: int) -> Column {
        Column {
            inactive_lower_count: (self.lower_bead_count - click_toggle(
                self.active_lower_count(),
                p,
            )) as u64,
            ..self
        }
    }

    /// The column after a click on the upper-deck bead at 1-based position
    /// `p`, counted from the bar.
    pub open spec fn click_upper_spec(self, p: int) -> Column {
        Column { active_upper_count: click_toggle(self.active_upper_count as int, p) as u64, ..self }
    }

    /// The largest value this column can show.
    pub fn max_value(&self) -> (r: u64)
        requires
            self.wf(),
        ensures
            r == self.max_value_spec(),
    {
        if self.upper_bead_count > 0 {
            self.lower_bead_count + self.upper_bead_weight
        } else {
            self.lower_bead_count
        }
    }

    /// Decodes the bead arrangement into the digit value it shows.
    pub fn value(&self) -> (r: u64)
        requires
            self.wf(),
        ensures
            r == self.value_spec(),
            0 <= self.value_spec() <= self.max_value_spec(),
    {
        let lower = self.lower_bead_count - self.inactive_lower_count;
        if self.active_upper_count % 2 == 1 {
            lower + self.upper_bead_weight
        } else {
            lower
        }
    }

    /// Moves the beads to show `min(target, max_value())` as far as the decks
    /// allow, and returns that clamped target.
    pub fn encode(&mut self, target: u64) -> (r: u64)
        requires
            old(self).wf(),
        ensures
            *final(self) == old(self).encode_spec(target as int),
            final(self).wf(),
            final(self).same_config(*old(self)),
            r == if target as int <= old(self).max_value_spec() {
                target as int
            } else {
                old(self).max_value_spec()
            },
    {
        let max = self.max_value();
        let clamped = if target <= max {
            target
        } else {
            max
        };
        let rem0 = if self.upper_bead_count > 0 && clamped >= self.upper_bead_weight {
            self.active_upper_count = 1;
            clamped - self.upper_bead_weight
        } else {
            self.active_upper_count = 0;
            clamped
        };
        let rem = if rem0 <= self.lower_bead_count {
            rem0
        } else {
            self.lower_bead_count
        };
        self.inactive_lower_count = self.lower_bead_count - rem;
        clamped
    }

    /// A click on the lower-deck bead at 1-based position `position`,
    /// counted from the bar.
    pub fn click_lower_bead(&mut self, position: u64)
        requires
            old(self).wf(),
            1 <= position <= old(self).lower_bead_count,
        ensures
            *final(self) == old(self).click_lower_spec(position as int),
            final(self).wf(),
            final(self).same_config(*old(self)),
            final(self).active_upper_count == old(self).active_upper_count,
            final(self).active_lower_count() == click_toggle(
                old(self).active_lower_count(),
                position as int,
            ),
    {
        let active = self.lower_bead_count - self.inactive_lower_count;
        let new_active = if active != position {
            position
        } else {
            position - 1
        };
        self.inactive_lower_count = self.lower_bead_count - new_active;
    }

    /// A click on the upper-deck bead at 1-based position `position`,
    /// counted from the bar.
    pub fn click_upper_bead(&mut self, position: u64)
        requires
            old(self).wf(),
            1 <= position <= old(self).upper_bead_count,
        ensures
            *final(self) == old(self).click_upper_spec(position as int),
            final(self).wf(),
            final(self).same_config(*old(self)),
            final(self).inactive_lower_count == old(self).inactive_lower_count,
            final(self).active_upper_count as int == click_toggle(
                old(self).active_upper_count as int,
                position as int,
            ),
    {
        if self.active_upper_count != position {
            self.active_upper_count = position;
        } else {
            self.active_upper_count = position - 1;
        }
    }
}

/// Encoding keeps the column well formed, keeps its configuration, and
/// never shows more than the target or the column's ceiling.
pub proof fn lemma_encode_wf(c: Column, t: int)
    requires
        c.wf(),
        0 <= t,
    ensures
        c.encode_spec(t).wf(),
        c.encode_spec(t).same_config(c),
        0 <= c.encode_spec(t).value_spec(),
        c.encode_spec(t).value_spec() <= t,
        c.encode_spec(t).value_spec() <= c.max_value_spec(),
{
}

/// Re-encoding the value a column already shows moves nothing: every bead
/// arrangement an encode produces is a fixed point of encoding.
pub proof fn lemma_encode_fixpoint(c: Column, t: int)
    requires
        c.wf(),
        0 <= t,
    ensures
        c.encode_spec(t).encode_spec(c.encode_spec(t).value_spec()) == c.encode_spec(t),
{
}

} // verus!
