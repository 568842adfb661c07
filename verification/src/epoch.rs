//! Lifecycle of a map's allocation: why it was last rebuilt, and how often.

use vstd::prelude::*;

verus! {

/// Bits of the generation counter.
const GENERATION_MASK: u64 = 0xffff_ffff;

/// First bit of the recovery counter.
const RECOVERY_SHIFT: u64 = 32;

/// Bits of the recovery counter.
const RECOVERY_MASK: u64 = 0x0fff_ffff_0000_0000;

/// Largest recovery count that the counter holds.
pub const RECOVERY_LIMIT: u32 = 0x0fff_ffff;

/// First bit of the transition code.
const TRANSITION_SHIFT: u64 = 60;

/// Bits of the transition code.
const TRANSITION_MASK: u64 = 0x7000_0000_0000_0000;

/// Bit that records a delete.
const HAD_DELETE_MASK: u64 = 0x8000_0000_0000_0000;

/// Cause of the current allocation epoch.
#[derive(Clone, Copy, Debug, Eq, Hash, PartialEq, Structural)]
pub enum EpochTransition {
    /// Initial construction.
    Initial,
    /// Automatic growth after an absent insertion exceeded live capacity.
    Growth,
    /// Same-size rebuild that removed tombstones.
    TombstoneCleanup,
    /// Explicit reserve, shrink, or backend resize.
    ExplicitResize,
    /// `clear` or a draining operation reset the retained allocation.
    Clear,
    /// A placement failure below live capacity forced exceptional recovery.
    PlacementRecovery,
}

/// Snapshot of the current allocation epoch.
#[derive(Clone, Copy, Debug, Eq, Hash, PartialEq, Structural)]
pub struct EpochSnapshot {
    /// Monotonic epoch number; initial construction is generation zero.
    pub generation: u64,
    /// Distinct insertions represented in this epoch, including survivors
    /// reinserted at its boundary. Deletes do not decrement this count.
    pub distinct_insertions: usize,
    /// Whether this epoch has observed a delete since its last boundary.
    pub had_delete: bool,
    /// Cumulative exceptional placement recoveries across the map's lifetime.
    pub placement_recoveries: u64,
    /// Cause of the current epoch.
    pub transition: EpochTransition,
}

/// What an [`EpochState`] records.
pub ghost struct EpochModel {
    /// Epochs started so far, saturating.
    pub generation: u32,
    /// Recoveries so far, saturating.
    pub recoveries: u32,
    /// Cause of the current epoch.
    pub transition: EpochTransition,
    /// Whether the current epoch saw a delete.
    pub had_delete: bool,
    /// Deletes of the current epoch, saturating.
    pub deletions: usize,
}

/// One more, up to a limit.
pub open spec fn bump(count: u32, limit: u32) -> u32 {
    if count < limit {
        (count + 1) as u32
    } else {
        count
    }
}

impl EpochModel {
    /// The model of a fresh map.
    pub open spec fn fresh() -> EpochModel {
        EpochModel {
            generation: 0,
            recoveries: 0,
            transition: EpochTransition::Initial,
            had_delete: false,
            deletions: 0,
        }
    }

    /// The model after an epoch boundary.
    pub open spec fn started(self, transition: EpochTransition) -> EpochModel {
        EpochModel {
            generation: bump(self.generation, u32::MAX),
            recoveries: self.recoveries,
            transition,
            had_delete: false,
            deletions: 0,
        }
    }

    /// The model after an epoch boundary that recovered from a failed placement.
    pub open spec fn recovered(self, transition: EpochTransition) -> EpochModel {
        EpochModel {
            recoveries: bump(self.recoveries, RECOVERY_LIMIT),
            ..self
        }.started(transition)
    }

    /// The model after a delete.
    pub open spec fn deleted(self) -> EpochModel {
        EpochModel {
            had_delete: true,
            deletions: if self.deletions < usize::MAX {
                (self.deletions + 1) as usize
            } else {
                self.deletions
            },
            ..self
        }
    }

    /// The model after a number of deletes.
    pub open spec fn deleted_times(self, count: nat) -> EpochModel {
        EpochModel {
            had_delete: self.had_delete || count > 0,
            deletions: if self.deletions + count <= usize::MAX {
                (self.deletions + count) as usize
            } else {
                usize::MAX
            },
            ..self
        }
    }

    /// The snapshot of this model for a map with `live` entries.
    pub open spec fn snapshot(self, live: nat) -> EpochSnapshot {
        EpochSnapshot {
            generation: self.generation as u64,
            distinct_insertions: if live + self.deletions <= usize::MAX {
                (live + self.deletions) as usize
            } else {
                usize::MAX
            },
            had_delete: self.had_delete,
            placement_recoveries: self.recoveries as u64,
            transition: self.transition,
        }
    }
}

/// The code under which a transition is packed.
pub open spec fn transition_code(transition: EpochTransition) -> u64 {
    match transition {
        EpochTransition::Initial => 0,
        EpochTransition::Growth => 1,
        EpochTransition::TombstoneCleanup => 2,
        EpochTransition::ExplicitResize => 3,
        EpochTransition::Clear => 4,
        EpochTransition::PlacementRecovery => 5,
    }
}

/// The transition packed under a code.
pub open spec fn transition_of_code(code: u64) -> EpochTransition {
    if code == 1 {
        EpochTransition::Growth
    } else if code == 2 {
        EpochTransition::TombstoneCleanup
    } else if code == 3 {
        EpochTransition::ExplicitResize
    } else if code == 4 {
        EpochTransition::Clear
    } else if code == 5 {
        EpochTransition::PlacementRecovery
    } else {
        EpochTransition::Initial
    }
}

/// Unpacking a packed transition gives the transition back.
pub proof fn law_transition_code_round_trip(transition: EpochTransition)
    ensures
        transition_of_code(transition_code(transition)) == transition,
        transition_code(transition) <= 5,
{
}

fn transition_bits(transition: EpochTransition) -> (result: u64)
    ensures
        result == transition_code(transition),
        result <= 5,
{
    match transition {
        EpochTransition::Initial => 0,
        EpochTransition::Growth => 1,
        EpochTransition::TombstoneCleanup => 2,
        EpochTransition::ExplicitResize => 3,
        EpochTransition::Clear => 4,
        EpochTransition::PlacementRecovery => 5,
    }
}

fn transition_from_bits(bits: u64) -> (result: EpochTransition)
    ensures
        result == transition_of_code(bits),
{
    match bits {
        1 => EpochTransition::Growth,
        2 => EpochTransition::TombstoneCleanup,
        3 => EpochTransition::ExplicitResize,
        4 => EpochTransition::Clear,
        5 => EpochTransition::PlacementRecovery,
        _ => EpochTransition::Initial,
    }
}

/// Compact lifecycle state kept off the lookup path.
///
/// Distinct insertions are derived as `live entries + deletions` so successful
/// inserts add no epoch-specific write to the mutation hot path.
#[derive(Clone, Copy, Debug)]
pub struct EpochState {
    deletions: usize,
    lifecycle: u64,
}

impl View for EpochState {
    type V = EpochModel;

    closed spec fn view(&self) -> EpochModel {
        EpochModel {
            generation: (self.lifecycle & GENERATION_MASK) as u32,
            recoveries: ((self.lifecycle & RECOVERY_MASK) >> RECOVERY_SHIFT) as u32,
            transition: transition_of_code(
                (self.lifecycle & TRANSITION_MASK) >> TRANSITION_SHIFT,
            ),
            had_delete: self.lifecycle & HAD_DELETE_MASK != 0,
            deletions: self.deletions,
        }
    }
}

/// The fields of a word assembled from its parts.
proof fn lemma_assembled_fields(recoveries: u64, generation: u64, code: u64)
    by (bit_vector)
    requires
        recoveries & !0x0fff_ffff_0000_0000 == 0,
        generation <= 0xffff_ffff,
        code <= 7,
    ensures
        (recoveries | generation | (code << 60)) & 0xffff_ffff == generation,
        (recoveries | generation | (code << 60)) & 0x0fff_ffff_0000_0000 == recoveries,
        ((recoveries | generation | (code << 60)) & 0x7000_0000_0000_0000) >> 60 == code,
        (recoveries | generation | (code << 60)) & 0x8000_0000_0000_0000 == 0,
{
}

impl EpochState {
    /// The state of a fresh map.
    pub fn initial() -> (result: Self)
        ensures
            result@ == EpochModel::fresh(),
    {
        proof {
            assert(0u64 & 0xffff_ffff == 0 && (0u64 & 0x0fff_ffff_0000_0000) >> 32 == 0 && (0u64
                & 0x7000_0000_0000_0000) >> 60 == 0 && 0u64 & 0x8000_0000_0000_0000 == 0)
                by (bit_vector);
        }
        EpochState { deletions: 0, lifecycle: 0 }
    }

    /// Records a delete.
    #[inline]
    pub fn note_delete(&mut self)
        ensures
            final(self)@ == old(self)@.deleted(),
    {
        let word: u64 = self.lifecycle;
        self.deletions = self.deletions.saturating_add(1);
        self.lifecycle = word | HAD_DELETE_MASK;
        proof {
            let marked = word | 0x8000_0000_0000_0000;
            assert(marked & 0xffff_ffff == word & 0xffff_ffff && marked & 0x0fff_ffff_0000_0000
                == word & 0x0fff_ffff_0000_0000 && marked & 0x7000_0000_0000_0000 == word
                & 0x7000_0000_0000_0000 && marked & 0x8000_0000_0000_0000 != 0) by (bit_vector)
                requires
                    marked == word | 0x8000_0000_0000_0000,
            ;
        }
    }

    /// Starts an epoch: one generation more, no deletes yet.
    pub fn start(&mut self, transition: EpochTransition)
        ensures
            final(self)@ == old(self)@.started(transition),
    {
        let generation: u32 = self.generation().saturating_add(1);
        let kept: u64 = self.lifecycle & RECOVERY_MASK;
        let code: u64 = transition_bits(transition);
        proof {
            let word = self.lifecycle;
            assert((word & 0x0fff_ffff_0000_0000) & !0x0fff_ffff_0000_0000 == 0) by (bit_vector);
            lemma_assembled_fields(kept, generation as u64, code);
            law_transition_code_round_trip(transition);
        }
        self.lifecycle = kept | (generation as u64) | (code << TRANSITION_SHIFT);
        self.deletions = 0;
    }

    /// Starts the epoch of a placement failure that nothing else caused.
    pub fn start_placement_recovery(&mut self)
        ensures
            final(self)@ == old(self)@.recovered(EpochTransition::PlacementRecovery),
    {
        self.start_with_placement_recovery(EpochTransition::PlacementRecovery);
    }

    /// Starts an epoch that also recovered from a failed placement.
    pub fn start_with_placement_recovery(&mut self, transition: EpochTransition)
        ensures
            final(self)@ == old(self)@.recovered(transition),
    {
        let word: u64 = self.lifecycle;
        let count: u32 = self.placement_recoveries();
        let recoveries: u32 = if count < RECOVERY_LIMIT {
            count + 1
        } else {
            count
        };
        let wide: u64 = recoveries as u64;
        self.lifecycle = (word & !RECOVERY_MASK) | (wide << RECOVERY_SHIFT);
        proof {
            let next = (word & !0x0fff_ffff_0000_0000) | (wide << 32);
            assert(next & 0xffff_ffff == word & 0xffff_ffff && (next & 0x0fff_ffff_0000_0000) >> 32
                == wide) by (bit_vector)
                requires
                    next == (word & !0x0fff_ffff_0000_0000) | (wide << 32),
                    wide <= 0x0fff_ffff,
            ;
        }
        self.start(transition);
    }

    /// The snapshot of this state for a map with `live_entries` entries.
    pub fn snapshot(self, live_entries: usize) -> (result: EpochSnapshot)
        ensures
            result == self@.snapshot(live_entries as nat),
    {
        EpochSnapshot {
            generation: self.generation() as u64,
            distinct_insertions: live_entries.saturating_add(self.deletions),
            had_delete: self.lifecycle & HAD_DELETE_MASK != 0,
            placement_recoveries: self.placement_recoveries() as u64,
            transition: transition_from_bits(
                (self.lifecycle & TRANSITION_MASK) >> TRANSITION_SHIFT,
            ),
        }
    }

    /// The epochs started so far.
    pub fn generation(self) -> (result: u32)
        ensures
            result == self@.generation,
    {
        (self.lifecycle & GENERATION_MASK) as u32
    }

    /// The recoveries so far.
    pub fn placement_recoveries(self) -> (result: u32)
        ensures
            result == self@.recoveries,
            result <= RECOVERY_LIMIT,
    {
        let word: u64 = self.lifecycle;
        assert((word & 0x0fff_ffff_0000_0000) >> 32 <= 0x0fff_ffff) by (bit_vector);
        ((word & RECOVERY_MASK) >> RECOVERY_SHIFT) as u32
    }
}

/// Generation and recovery counts never go down over an epoch boundary, and a
/// boundary forgets the deletes of the epoch before it.
pub proof fn law_epoch_counts_are_monotone(model: EpochModel, transition: EpochTransition)
    ensures
        model.started(transition).generation >= model.generation,
        model.started(transition).recoveries == model.recoveries,
        model.recovered(transition).generation >= model.generation,
        model.recovered(transition).recoveries >= model.recoveries,
        model.started(transition).deletions == 0 && !model.started(transition).had_delete,
        model.deleted().had_delete && model.deleted().generation == model.generation,
{
}

/// A delete takes one live entry and leaves the epoch's distinct insertions as
/// they were.
pub proof fn law_delete_keeps_distinct_insertions(model: EpochModel, live: nat)
    requires
        live > 0,
        live + model.deletions <= usize::MAX,
    ensures
        model.deleted().snapshot((live - 1) as nat).distinct_insertions == model.snapshot(
            live,
        ).distinct_insertions,
{
}

/// Every boundary raises the generation by one and names its cause, and every recovery is
/// counted, until the counters are full; a boundary forgets the deletes before it.
pub proof fn law_boundaries_are_numbered(model: EpochModel, transition: EpochTransition)
    ensures
        model.started(transition).transition == transition,
        model.generation < u32::MAX ==> model.started(transition).generation == model.generation
            + 1,
        model.started(transition).recoveries == model.recoveries,
        !model.started(transition).had_delete,
        model.started(transition).deletions == 0,
        model.recovered(transition).transition == transition,
        model.generation < u32::MAX ==> model.recovered(transition).generation == model.generation
            + 1,
        model.recoveries < 0x0fff_ffff ==> model.recovered(transition).recoveries
            == model.recoveries + 1,
        !model.recovered(transition).had_delete,
        model.recovered(transition).deletions == 0,
{
}

/// A delete is recorded and counted, and is no boundary; so many in a row are as many
/// deletes one by one.
pub proof fn law_deletes_add_up(model: EpochModel, count: nat)
    requires
        model.deletions + count < usize::MAX,
    ensures
        model.deleted().had_delete,
        model.deleted().deletions == model.deletions + 1,
        model.deleted().generation == model.generation,
        model.deleted().recoveries == model.recoveries,
        model.deleted().transition == model.transition,
        model.deleted_times(0) == model,
        model.deleted_times(count + 1) == model.deleted_times(count).deleted(),
{
}

/// A snapshot shows the counters as they are, and as distinct insertions the live entries
/// and the deleted ones together.
pub proof fn law_snapshots_show_the_counters(model: EpochModel, live: nat)
    requires
        live + model.deletions <= usize::MAX,
    ensures
        model.snapshot(live).generation == model.generation,
        model.snapshot(live).placement_recoveries == model.recoveries,
        model.snapshot(live).transition == model.transition,
        model.snapshot(live).had_delete == model.had_delete,
        model.snapshot(live).distinct_insertions == live + model.deletions,
{
}

/// A counter that is full stays full: no boundary, delete or snapshot makes it start again.
pub proof fn law_full_counters_stay_full(
    model: EpochModel,
    transition: EpochTransition,
    live: nat,
    count: nat,
)
    ensures
        model.generation == u32::MAX ==> {
            &&& model.started(transition).generation == u32::MAX
            &&& model.recovered(transition).generation == u32::MAX
        },
        model.recoveries >= 0x0fff_ffff ==> model.recovered(transition).recoveries
            == model.recoveries,
        model.deletions == usize::MAX ==> model.deleted().deletions == usize::MAX,
        model.deletions + count >= usize::MAX ==> model.deleted_times(count).deletions
            == usize::MAX,
        model.deleted_times(count).had_delete == (model.had_delete || count > 0),
        model.deleted_times(count).generation == model.generation,
        model.deleted_times(count).recoveries == model.recoveries,
        model.deleted_times(count).transition == model.transition,
        live + model.deletions >= usize::MAX ==> model.snapshot(live).distinct_insertions
            == usize::MAX,
{
}

} // verus!
