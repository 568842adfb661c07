//! What holds of how many slots a table has: growth at least doubles it, shrinking and
//! building leave no smaller table that would do.

use vstd::arithmetic::power2::*;
use vstd::prelude::*;

use crate::arith;
use crate::capacity;
use crate::elastic::{self, ElasticTable};
use crate::elastic_filter::ElasticMetadataWord;
use crate::epoch::EpochTransition;
use crate::funnel::{self, FunnelTable};
use crate::funnel_shape;
use crate::hashing::HashBuilder;
use crate::layout;
use crate::membership;
use crate::placement;
use crate::reserve::ReserveFraction;
use crate::slots::SlotEntry;
use crate::table::{TableBackend, TableFacts, TableModel};

verus! {

/// The larger of two counts.
pub open spec fn larger(left: nat, right: nat) -> nat {
    if left >= right {
        left
    } else {
        right
    }
}

/// A full table that stores one more entry has grown to at least twice its insertion
/// limit, but for a rounding of one.
pub proof fn law_insertion_into_a_full_table_doubles_it<K: Eq, V, P: TableBackend<K, V>>(
    before: P,
    after: P,
    key: K,
    value: V,
)
    requires
        before.wf(),
        before.entries().len() >= before.limit(),
        before.has_room(),
        2 * before.slot_count() <= usize::MAX,
        after.placed_from(&before, key, value),
    ensures
        after.limit() + 1 >= 2 * before.limit(),
        after.limit() > before.limit(),
        after.limit() > before.entries().len(),
{
    before.lemma_wf();
    P::lemma_enlarged(before.slot_count(), before.fraction());
    let grown = choose|grown: P| #[trigger]
        grown.rebuilt_from(
            &before,
            before.slots_for_one_more(),
            EpochTransition::Growth,
        ) && after.settled_from(&grown, key, value);
    placement::lemma_settled_frame::<K, V, P>(grown, after, key, value);
}

/// An Elastic table that must grow for more entries at least doubles its slots, has room
/// for them, and takes fewer than twice as many: no smaller doubling would do. It is
/// refused only where no doubling that a machine word holds would do.
pub proof fn law_elastic_growth_doubles<K: Eq, V, S: HashBuilder<K>>(
    slots: nat,
    needed: nat,
    reserve: ReserveFraction,
)
    requires
        reserve.wf(),
        needed > capacity::insertion_limit(slots, reserve),
    ensures
        match <ElasticTable<K, V, S> as TableModel<K, V>>::growth(slots, needed, reserve) {
            Some(grown) => {
                &&& capacity::insertion_limit(grown, reserve) >= needed
                &&& slots >= 16 ==> grown >= 2 * slots
                &&& slots >= 16 ==> capacity::insertion_limit(grown, reserve) + 1 >= 2
                    * capacity::insertion_limit(slots, reserve)
                &&& grown > 16 ==> capacity::insertion_limit(grown, reserve) < 2 * needed
            },
            None => forall|doublings: nat|
                larger(slots, 16) * #[trigger] pow2(doublings) <= usize::MAX
                    ==> capacity::insertion_limit(larger(slots, 16) * pow2(doublings), reserve)
                    < needed,
        },
{
    let start = larger(slots, 16);
    capacity::law_doubling_stops_at_the_first_fit(start, needed, reserve);
    lemma2_to64();
    if let Some(grown) = <ElasticTable<K, V, S> as TableModel<K, V>>::growth(
        slots,
        needed,
        reserve,
    ) {
        let k = choose|doublings: nat| grown == start * #[trigger] pow2(doublings);
        if slots >= 16 {
            if k == 0 {
                assert(start * pow2(0) == start) by (nonlinear_arith)
                    requires
                        pow2(0) == 1,
                ;
            }
            assert(k > 0);
            arith::lemma_pow2_monotone(1, k);
            assert(grown >= 2 * slots) by (nonlinear_arith)
                requires
                    grown == slots * pow2(k),
                    pow2(k) >= 2,
            ;
            capacity::law_limit_of_twice_the_slots(slots, reserve);
            capacity::law_limit_grows_with_the_slots(2 * slots, grown, reserve);
        }
    }
}

/// A full Elastic table grows to twice its slots, or from none to sixteen, and to
/// nothing larger. It cannot grow where twice its slots would take no more entries.
pub proof fn law_elastic_enlargement_is_twofold<K: Eq, V, S: HashBuilder<K>>(
    slots: nat,
    reserve: ReserveFraction,
)
    requires
        reserve.wf(),
        2 * slots <= usize::MAX,
    ensures
        match <ElasticTable<K, V, S> as TableModel<K, V>>::enlarged(slots, reserve) {
            Some(grown) => {
                &&& slots == 0 ==> grown == 16
                &&& slots > 0 ==> grown == 2 * slots
                &&& capacity::insertion_limit(grown, reserve) > capacity::insertion_limit(
                    slots,
                    reserve,
                )
            },
            None => capacity::insertion_limit(2 * slots, reserve) <= capacity::insertion_limit(
                slots,
                reserve,
            ),
        },
{
    <ElasticTable<K, V, S> as TableBackend<K, V>>::lemma_enlarged(slots, reserve);
    if <ElasticTable<K, V, S> as TableModel<K, V>>::enlarged(slots, reserve) is None {
        lemma2_to64();
        vstd::arithmetic::div_mod::lemma_basic_div(1, 2);
    }
}

/// A Funnel table that grows at least doubles its insertion limit and has room for what
/// is needed, in the smallest layout that has. It is refused only where no layout has.
pub proof fn law_funnel_growth_doubles<K: Eq, V, S: HashBuilder<K>>(
    slots: nat,
    needed: nat,
    reserve: ReserveFraction,
)
    requires
        reserve.wf(),
        reserve.d() < usize::BITS,
        needed > 0,
        2 * capacity::insertion_limit(slots, reserve) <= usize::MAX,
    ensures
        ({
            let wanted = larger(needed, (2 * capacity::insertion_limit(slots, reserve)) as nat);
            match <FunnelTable<K, V, S> as TableModel<K, V>>::growth(slots, needed, reserve) {
                Some(grown) => {
                    &&& capacity::insertion_limit(grown, reserve) >= needed
                    &&& capacity::insertion_limit(grown, reserve) >= 2 * capacity::insertion_limit(
                        slots,
                        reserve,
                    )
                    &&& funnel_shape::has_layout(grown, reserve)
                    &&& forall|fewer: nat|
                        fewer < grown && #[trigger] funnel_shape::has_layout(fewer, reserve)
                            ==> capacity::insertion_limit(fewer, reserve) < wanted
                },
                None => needed >= isize::MAX || forall|other: nat| #[trigger]
                    funnel_shape::has_layout(other, reserve) ==> capacity::insertion_limit(
                        other,
                        reserve,
                    ) < wanted,
            }
        }),
{
    capacity::law_insertion_limit_bounds(slots, reserve);
    let doubled = (2 * capacity::insertion_limit(slots, reserve)) as nat;
    law_funnel_budget_is_least(larger(needed, doubled), reserve);
}

/// The slots of a Funnel table for so many entries are those of the smallest layout that
/// takes them, and none for none. There are none only where no layout takes them.
pub proof fn law_funnel_budget_is_least(requested: nat, reserve: ReserveFraction)
    requires
        reserve.wf(),
        reserve.d() < usize::BITS,
    ensures
        match funnel::budget_slots(requested, reserve) {
            Some(slots) => {
                &&& slots == 0 <==> requested == 0
                &&& slots <= usize::MAX
                &&& capacity::insertion_limit(slots, reserve) >= requested
                &&& slots > 0 ==> funnel_shape::has_layout(slots, reserve)
                &&& forall|fewer: nat|
                    fewer < slots && #[trigger] funnel_shape::has_layout(fewer, reserve)
                        ==> capacity::insertion_limit(fewer, reserve) < requested
            },
            None => requested > 0 && forall|other: nat| #[trigger]
                funnel_shape::has_layout(other, reserve) ==> capacity::insertion_limit(
                    other,
                    reserve,
                ) < requested,
        },
{
    capacity::law_insertion_limit_bounds(0, reserve);
    match funnel::budget_slots(requested, reserve) {
        Some(slots) => {
            if requested > 0 {
                assert(funnel_shape::is_least_serving(slots, requested, reserve));
                assert(funnel_shape::serves(slots, requested, reserve));
                assert forall|fewer: nat|
                    fewer < slots && #[trigger] funnel_shape::has_layout(
                        fewer,
                        reserve,
                    ) implies capacity::insertion_limit(fewer, reserve) < requested by {
                    assert(!funnel_shape::serves(fewer, requested, reserve));
                }
            }
        },
        None => {
            assert forall|other: nat| #[trigger]
                funnel_shape::has_layout(other, reserve) implies capacity::insertion_limit(
                other,
                reserve,
            ) < requested by {
                if capacity::insertion_limit(other, reserve) >= requested {
                    assert(funnel_shape::serves(other, requested, reserve));
                    lemma_least_serving_exists(other, requested, reserve);
                }
            }
        },
    }
}

/// Where some layout takes so many entries, there is a smallest one.
proof fn lemma_least_serving_exists(n: nat, requested: nat, reserve: ReserveFraction)
    requires
        funnel_shape::serves(n, requested, reserve),
    ensures
        exists|least: nat| #[trigger] funnel_shape::is_least_serving(least, requested, reserve),
    decreases n,
{
    if exists|fewer: nat| fewer < n && #[trigger] funnel_shape::serves(fewer, requested, reserve) {
        let fewer = choose|fewer: nat|
            fewer < n && #[trigger] funnel_shape::serves(fewer, requested, reserve);
        lemma_least_serving_exists(fewer, requested, reserve);
    } else {
        assert(funnel_shape::is_least_serving(n, requested, reserve));
    }
}

/// The slots of a Funnel table for so many entries are at most those of whole units that
/// take them: a unit of `480 d 2^(d + 1)` slots takes all but `960 d` of them.
pub proof fn law_funnel_budget_is_bounded(requested: nat, reserve: ReserveFraction, units: nat)
    requires
        reserve.wf(),
        3 <= reserve.d() < usize::BITS,
        units >= 1,
        480 * reserve.d() * pow2(reserve.d() as nat + 1) * units <= usize::MAX,
        requested <= 480 * reserve.d() * (pow2(reserve.d() as nat + 1) - 2) * units,
    ensures
        funnel::budget_slots(requested, reserve) matches Some(slots) && slots <= 480 * reserve.d()
            * pow2(reserve.d() as nat + 1) * units,
{
    let n = funnel_shape::layout_unit(reserve) * units;
    assert(funnel_shape::layout_unit(reserve) == 480 * reserve.d() * pow2(
        reserve.d() as nat + 1,
    )) by (nonlinear_arith)
        requires
            funnel_shape::layout_unit(reserve) == 240 * (2 * reserve.d() as nat) * pow2(
                reserve.d() as nat + 1,
            ),
    ;
    assert(funnel_shape::unit_target(reserve) == 480 * reserve.d() * (pow2(
        reserve.d() as nat + 1,
    ) - 2)) by {
        lemma2_to64();
        arith::lemma_pow2_monotone(4, reserve.d() as nat + 1);
        assert(240 * (2 * reserve.d() as nat) * (pow2(reserve.d() as nat + 1) - 2) == 480
            * reserve.d() * (pow2(reserve.d() as nat + 1) - 2) && 240 * (2 * reserve.d() as nat)
            * (pow2(reserve.d() as nat + 1) - 2) >= 0) by (nonlinear_arith)
            requires
                pow2(reserve.d() as nat + 1) >= 16,
        ;
    }
    funnel_shape::law_unit_layouts(units, reserve);
    assert(funnel_shape::serves(n, requested, reserve));
    if requested > 0 {
        law_funnel_budget_is_least(requested, reserve);
    }
}

/// Shrinking an Elastic table leaves it the smallest doubling of sixteen slots that takes
/// its entries, the entries asked for and sixteen: no smaller one would do, and the
/// insertion limit is less than twice what is asked for. An empty table that nothing is
/// asked of gives up all slots, and no table gets more than it had.
pub proof fn law_elastic_shrinking_leaves_no_smaller_table<K: Eq, V, S: HashBuilder<K>>(
    before: ElasticTable<K, V, S>,
    after: ElasticTable<K, V, S>,
    min_capacity: nat,
)
    requires
        before.wf(),
        after.fraction() == before.fraction(),
        after.entries() == before.entries(),
        Some(after.slot_count()) == before.slots_after_shrinking(min_capacity),
    ensures
        after.slot_count() <= before.slot_count(),
        ({
            let wanted = larger(before.entries().len(), min_capacity);
            let floor = larger(wanted, 16);
            if wanted == 0 {
                after.slot_count() == 0
            } else {
                &&& after.slot_count() == before.slot_count() || after.limit() >= floor
                &&& forall|doublings: nat|
                    16 * #[trigger] pow2(doublings) < after.slot_count()
                        ==> capacity::insertion_limit(16 * pow2(doublings), before.fraction())
                        < floor
                &&& 16 < after.slot_count() < before.slot_count() ==> after.limit() < 2 * floor
                &&& after.slot_count() > 16 && (exists|doublings: nat|
                    before.slot_count() == 16 * #[trigger] pow2(doublings)) ==> after.limit() < 2
                    * floor
            }
        }),
{
    before.lemma_wf();
    let reserve = before.fraction();
    let wanted = larger(before.entries().len(), min_capacity);
    let floor = larger(wanted, 16);
    if wanted > 0 {
        capacity::law_doubling_stops_at_the_first_fit(16, floor, reserve);
        let fit = <ElasticTable<K, V, S> as TableModel<K, V>>::shrunk(wanted, reserve)->0;
        assert forall|doublings: nat|
            16 * #[trigger] pow2(doublings) < after.slot_count() implies capacity::insertion_limit(
            16 * pow2(doublings),
            reserve,
        ) < floor by {
            assert(16 * pow2(doublings) < fit);
        }
        if after.slot_count() > 16 && (exists|doublings: nat|
            before.slot_count() == 16 * #[trigger] pow2(doublings)) {
            let k = choose|doublings: nat| before.slot_count() == 16 * #[trigger] pow2(doublings);
            if after.slot_count() == before.slot_count() {
                lemma2_to64();
                assert(k > 0);
                lemma_pow2_unfold(k);
                let half = 16 * pow2((k - 1) as nat);
                assert(half < after.slot_count());
                capacity::law_limit_of_twice_the_slots(half, reserve);
            }
        }
    }
}

/// Shrinking a Funnel table leaves it the smallest layout that takes its entries and the
/// entries asked for, and no slots if there are none. No table gets more than it had.
pub proof fn law_funnel_shrinking_leaves_no_smaller_table<K: Eq, V, S: HashBuilder<K>>(
    before: FunnelTable<K, V, S>,
    after: FunnelTable<K, V, S>,
    min_capacity: nat,
)
    requires
        before.wf(),
        before.fraction().d() < usize::BITS,
        after.fraction() == before.fraction(),
        after.entries() == before.entries(),
        Some(after.slot_count()) == before.slots_after_shrinking(min_capacity),
    ensures
        after.slot_count() <= before.slot_count(),
        ({
            let wanted = larger(before.entries().len(), min_capacity);
            &&& wanted == 0 ==> after.slot_count() == 0
            &&& after.slot_count() == before.slot_count() || after.limit() >= wanted
            &&& forall|fewer: nat|
                fewer < after.slot_count() && #[trigger] funnel_shape::has_layout(
                    fewer,
                    before.fraction(),
                ) ==> capacity::insertion_limit(fewer, before.fraction()) < wanted
        }),
{
    before.lemma_wf();
    law_funnel_budget_is_least(larger(before.entries().len(), min_capacity), before.fraction());
}

/// An Elastic table built for so many entries has the smallest doubling of sixteen slots
/// that takes them, and none for none; beyond sixteen slots it takes fewer than twice as
/// many.
pub proof fn law_elastic_building_leaves_no_smaller_table<K: Eq, V, S: HashBuilder<K>>(
    capacity: nat,
    reserve: ReserveFraction,
)
    requires
        reserve.wf(),
    ensures
        <ElasticTable<K, V, S> as TableModel<K, V>>::build_slots(capacity, reserve) matches Ok(
            slots,
        ) ==> {
            &&& slots == 0 <==> capacity == 0
            &&& capacity::insertion_limit(slots, reserve) >= capacity
            &&& slots > 0 ==> exists|doublings: nat| slots == 16 * #[trigger] pow2(doublings)
            &&& slots > 16 ==> capacity::insertion_limit(slots, reserve) < 2 * capacity
            &&& forall|doublings: nat|
                16 * #[trigger] pow2(doublings) < slots ==> capacity::insertion_limit(
                    16 * pow2(doublings),
                    reserve,
                ) < capacity
        },
{
    capacity::law_insertion_limit_bounds(0, reserve);
    capacity::law_doubling_stops_at_the_first_fit(16, capacity, reserve);
}

/// A Funnel table built for so many entries has the smallest layout that takes them, and
/// none for none.
pub proof fn law_funnel_building_leaves_no_smaller_table<K: Eq, V, S: HashBuilder<K>>(
    capacity: nat,
    reserve: ReserveFraction,
)
    requires
        reserve.wf(),
        reserve.d() < usize::BITS,
    ensures
        <FunnelTable<K, V, S> as TableModel<K, V>>::build_slots(capacity, reserve) matches Ok(
            slots,
        ) ==> {
            &&& reserve.d() >= 3
            &&& slots == 0 <==> capacity == 0
            &&& capacity::insertion_limit(slots, reserve) >= capacity
            &&& forall|fewer: nat|
                fewer < slots && #[trigger] funnel_shape::has_layout(fewer, reserve)
                    ==> capacity::insertion_limit(fewer, reserve) < capacity
        },
{
    law_funnel_budget_is_least(capacity, reserve);
}

/// The bytes that so many slots of an Elastic table take at most: control bytes, entries,
/// filter words, and the padding between them.
pub open spec fn elastic_bytes<K, V>(slots: nat) -> nat {
    slots + slots * vstd::layout::size_of::<SlotEntry<K, V>>() + (slots / 10 + 1)
        * vstd::layout::size_of::<ElasticMetadataWord>() + 4 * (64 + vstd::layout::align_of::<
        SlotEntry<K, V>,
    >() + vstd::layout::align_of::<ElasticMetadataWord>())
}

/// More slots take no fewer bytes.
proof fn lemma_elastic_bytes<K, V>(fewer: nat, more: nat)
    requires
        fewer <= more,
    ensures
        elastic_bytes::<K, V>(fewer) <= elastic_bytes::<K, V>(more),
{
    let size = vstd::layout::size_of::<SlotEntry<K, V>>();
    let word = vstd::layout::size_of::<ElasticMetadataWord>();
    assert(fewer * size <= more * size) by (nonlinear_arith)
        requires
            fewer <= more,
            size >= 0,
    ;
    assert((fewer / 10 + 1) * word <= (more / 10 + 1) * word) by (nonlinear_arith)
        requires
            fewer / 10 <= more / 10,
            word >= 0,
    ;
}

/// An Elastic table whose bytes can be addressed, by offsets of 32 bits, is never refused.
pub proof fn law_addressable_elastic_tables_are_granted<K: Eq, V, S: HashBuilder<K>>(
    slots: nat,
    reserve: ReserveFraction,
)
    requires
        0 < slots,
        vstd::layout::align_of::<SlotEntry<K, V>>() > 0,
        vstd::layout::align_of::<ElasticMetadataWord>() > 0,
        elastic_bytes::<K, V>(slots) <= isize::MAX,
        elastic_bytes::<K, V>(slots) <= u32::MAX,
    ensures
        <ElasticTable<K, V, S> as TableModel<K, V>>::refusal(slots, reserve) is None,
{
    let size = vstd::layout::size_of::<SlotEntry<K, V>>();
    let align = vstd::layout::align_of::<SlotEntry<K, V>>();
    let word = vstd::layout::size_of::<ElasticMetadataWord>();
    let word_align = vstd::layout::align_of::<ElasticMetadataWord>();
    let words = membership::words_for(slots);
    membership::law_ten_slots_share_a_word(slots);
    assert(slots * size >= 0 && words * word <= (slots / 10 + 1) * word && size <= slots * size
        && words * word >= 0) by (nonlinear_arith)
        requires
            words <= slots / 10 + 1,
            slots >= 1,
            size >= 0,
            word >= 0,
            words >= 0,
    ;
    layout::law_small_blocks_fit(slots, slots, size, align);
    layout::lemma_rounded_up(slots, align);
    let outer = layout::wider(64, align);
    let inner = layout::rounded_up(slots, align) + slots * size;
    layout::lemma_rounded_up(inner, outer);
    let block = elastic::entries_block::<K, V>(slots);
    assert(block.size == layout::rounded_up(inner, outer));
    layout::lemma_rounded_up(block.size as nat, word_align);
}

/// An Elastic table can be built for so many entries if some doubling of sixteen slots
/// takes them and its bytes can be addressed by offsets of 32 bits.
pub proof fn law_elastic_building_succeeds<K: Eq, V, S: HashBuilder<K>>(
    capacity: nat,
    reserve: ReserveFraction,
    doublings: nat,
)
    requires
        reserve.wf(),
        capacity > 0,
        capacity::insertion_limit(16 * pow2(doublings), reserve) >= capacity,
        vstd::layout::align_of::<SlotEntry<K, V>>() > 0,
        vstd::layout::align_of::<ElasticMetadataWord>() > 0,
        elastic_bytes::<K, V>(16 * pow2(doublings)) <= isize::MAX,
        elastic_bytes::<K, V>(16 * pow2(doublings)) <= u32::MAX,
    ensures
        <ElasticTable<K, V, S> as TableModel<K, V>>::build_slots(capacity, reserve) matches Ok(
            slots,
        ) && slots <= 16 * pow2(doublings),
{
    let size = vstd::layout::size_of::<SlotEntry<K, V>>();
    let most = 16 * pow2(doublings);
    capacity::law_doubling_stops_at_the_first_fit(16, capacity, reserve);
    assert(most * size >= 0) by (nonlinear_arith);
    assert((most / 10 + 1) * vstd::layout::size_of::<ElasticMetadataWord>() >= 0)
        by (nonlinear_arith);
    assert(most <= elastic_bytes::<K, V>(most));
    let found = capacity::doubled_capacity(16, capacity, reserve)->0;
    assert(capacity::doubled_capacity(16, capacity, reserve) is Some);
    assert(found <= most);
    lemma_elastic_bytes::<K, V>(found, most);
    law_addressable_elastic_tables_are_granted::<K, V, S>(found, reserve);
}

/// A Funnel table of a slot count that has a layout and whose bytes can be addressed is
/// never refused.
pub proof fn law_addressable_funnel_tables_are_granted<K: Eq, V, S: HashBuilder<K>>(
    slots: nat,
    reserve: ReserveFraction,
)
    requires
        funnel_shape::has_layout(slots, reserve),
        vstd::layout::align_of::<SlotEntry<K, V>>() > 0,
        slots + 15 + slots * vstd::layout::size_of::<SlotEntry<K, V>>() + 2 * (64
            + vstd::layout::align_of::<SlotEntry<K, V>>()) <= isize::MAX,
    ensures
        <FunnelTable<K, V, S> as TableModel<K, V>>::refusal(slots, reserve) is None,
{
    let size = vstd::layout::size_of::<SlotEntry<K, V>>();
    assert(slots * size >= 0) by (nonlinear_arith);
    layout::law_small_blocks_fit(
        slots + 15,
        slots,
        size,
        vstd::layout::align_of::<SlotEntry<K, V>>(),
    );
}

/// A Funnel table can be built for so many entries if some layout takes them and its bytes
/// can be addressed.
pub proof fn law_funnel_building_succeeds<K: Eq, V, S: HashBuilder<K>>(
    capacity: nat,
    reserve: ReserveFraction,
    slots: nat,
)
    requires
        reserve.wf(),
        3 <= reserve.d() < usize::BITS,
        capacity > 0,
        funnel_shape::has_layout(slots, reserve),
        capacity::insertion_limit(slots, reserve) >= capacity,
        vstd::layout::align_of::<SlotEntry<K, V>>() > 0,
        slots + 15 + slots * vstd::layout::size_of::<SlotEntry<K, V>>() + 2 * (64
            + vstd::layout::align_of::<SlotEntry<K, V>>()) <= isize::MAX,
    ensures
        <FunnelTable<K, V, S> as TableModel<K, V>>::build_slots(capacity, reserve) matches Ok(
            built,
        ) && built <= slots,
{
    law_funnel_budget_is_least(capacity, reserve);
    let size = vstd::layout::size_of::<SlotEntry<K, V>>();
    let found = funnel::budget_slots(capacity, reserve)->0;
    assert(funnel::budget_slots(capacity, reserve) is Some);
    assert(found <= slots);
    assert(found * size <= slots * size) by (nonlinear_arith)
        requires
            found <= slots,
            size >= 0,
    ;
    law_addressable_funnel_tables_are_granted::<K, V, S>(found, reserve);
}

/// Making room for more entries makes it, keeps the entries, and changes nothing where
/// there is room already. Else the table is rebuilt in one new epoch.
pub proof fn law_reserving_makes_room<K: Eq, V, P: TableBackend<K, V>>(
    before: P,
    after: P,
    additional: nat,
)
    requires
        before.entries().len() + additional <= usize::MAX,
        after.reserved_from(&before, additional),
    ensures
        after.limit() >= before.entries().len() + additional,
        after.entries() == before.entries(),
        after.fraction() == before.fraction(),
        before.entries().len() + additional <= before.limit() ==> after == before,
        before.entries().len() + additional > before.limit() ==> {
            &&& after.lifecycle().transition == EpochTransition::ExplicitResize
            &&& before.lifecycle().generation < u32::MAX ==> after.lifecycle().generation
                == before.lifecycle().generation + 1
            &&& P::growth(
                before.slot_count(),
                before.entries().len() + additional,
                before.fraction(),
            ) == Some(after.slot_count())
        },
{
}

/// The capacity of a table leaves the share `2^-d` of its slots free, rounded down.
pub proof fn law_capacity_leaves_the_reserve_free<K: Eq, V, P: TableBackend<K, V>>(table: P)
    requires
        table.wf(),
    ensures
        ({
            let held_back = table.slot_count() - table.limit();
            &&& held_back >= 0
            &&& held_back * pow2(table.fraction().d() as nat) <= table.slot_count()
            &&& table.slot_count() < (held_back + 1) * pow2(table.fraction().d() as nat)
        }),
        table.entries().len() <= table.limit(),
{
    table.lemma_wf();
    capacity::law_reserve_is_the_share_rounded_down(table.slot_count(), table.fraction());
}

/// An Elastic table has room for one more entry if the table of twice its slots, or of
/// sixteen, can be addressed, but for one slot with half in reserve.
pub proof fn law_elastic_tables_that_can_double_have_room<K: Eq, V, S: HashBuilder<K>>(
    table: ElasticTable<K, V, S>,
)
    requires
        table.wf(),
        !(table.slot_count() == 1 && table.fraction().d() == 1),
        vstd::layout::align_of::<SlotEntry<K, V>>() > 0,
        vstd::layout::align_of::<ElasticMetadataWord>() > 0,
        elastic_bytes::<K, V>(larger(2 * table.slot_count(), 16)) <= isize::MAX,
        elastic_bytes::<K, V>(larger(2 * table.slot_count(), 16)) <= u32::MAX,
    ensures
        table.has_room(),
{
    let most = larger(2 * table.slot_count(), 16);
    let size = vstd::layout::size_of::<SlotEntry<K, V>>();
    table.lemma_wf();
    assert(most * size >= 0) by (nonlinear_arith);
    assert((most / 10 + 1) * vstd::layout::size_of::<ElasticMetadataWord>() >= 0)
        by (nonlinear_arith);
    assert(most <= elastic_bytes::<K, V>(most));
    law_elastic_enlargement_is_twofold::<K, V, S>(table.slot_count(), table.fraction());
    let grown = <ElasticTable<K, V, S> as TableModel<K, V>>::enlarged(
        table.slot_count(),
        table.fraction(),
    )->0;
    lemma_elastic_bytes::<K, V>(grown, most);
    law_addressable_elastic_tables_are_granted::<K, V, S>(grown, table.fraction());
}

/// A Funnel table has room for one more entry if some layout for twice its limit, and for
/// one entry more, can be addressed.
pub proof fn law_funnel_tables_that_can_grow_have_room<K: Eq, V, S: HashBuilder<K>>(
    table: FunnelTable<K, V, S>,
    slots: nat,
)
    requires
        table.wf(),
        table.fraction().d() < usize::BITS,
        table.limit() + 1 < isize::MAX,
        funnel_shape::has_layout(slots, table.fraction()),
        capacity::insertion_limit(slots, table.fraction()) > table.limit(),
        capacity::insertion_limit(slots, table.fraction()) >= 2 * table.limit(),
        vstd::layout::align_of::<SlotEntry<K, V>>() > 0,
        slots + 15 + slots * vstd::layout::size_of::<SlotEntry<K, V>>() + 2 * (64
            + vstd::layout::align_of::<SlotEntry<K, V>>()) <= isize::MAX,
    ensures
        table.has_room(),
{
    table.lemma_wf();
    let reserve = table.fraction();
    let needed = (table.limit() + 1) as nat;
    capacity::law_insertion_limit_bounds(slots, reserve);
    let size = vstd::layout::size_of::<SlotEntry<K, V>>();
    assert(slots * size >= 0) by (nonlinear_arith);
    law_funnel_growth_doubles::<K, V, S>(table.slot_count(), needed, reserve);
    let grown = <FunnelTable<K, V, S> as TableModel<K, V>>::enlarged(
        table.slot_count(),
        reserve,
    )->0;
    assert(<FunnelTable<K, V, S> as TableModel<K, V>>::enlarged(table.slot_count(), reserve)
        is Some);
    assert(grown <= slots);
    assert(grown * size <= slots * size) by (nonlinear_arith)
        requires
            grown <= slots,
            size >= 0,
    ;
    law_addressable_funnel_tables_are_granted::<K, V, S>(grown, reserve);
}

/// Room can be made for more entries if it is there, or if the table can grow to the slots
/// that they need.
pub proof fn law_room_can_be_made<K: Eq, V, P: TableBackend<K, V>>(table: P, additional: nat)
    requires
        table.entries().len() + additional <= usize::MAX,
        table.entries().len() + additional <= table.limit() || (P::growth(
            table.slot_count(),
            table.entries().len() + additional,
            table.fraction(),
        ) matches Some(slots) && P::refusal(slots, table.fraction()) is None),
    ensures
        table.can_reserve(additional),
{
}

/// An Elastic table can be shrunk toward what some doubling of sixteen slots takes.
pub proof fn law_elastic_shrinking_is_possible<K: Eq, V, S: HashBuilder<K>>(
    table: ElasticTable<K, V, S>,
    min_capacity: nat,
    doublings: nat,
)
    requires
        table.wf(),
        16 * pow2(doublings) <= usize::MAX,
        capacity::insertion_limit(16 * pow2(doublings), table.fraction()) >= larger(
            larger(table.entries().len(), min_capacity),
            16,
        ),
    ensures
        table.slots_after_shrinking(min_capacity) is Some,
{
    capacity::law_doubling_stops_at_the_first_fit(
        16,
        larger(larger(table.entries().len(), min_capacity), 16),
        table.fraction(),
    );
}

} // verus!
