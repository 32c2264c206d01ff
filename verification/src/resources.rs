//! Deterministic placement of natural resource deposits, their daily renewal, and the
//! texture that carries them to the renderer.
use vstd::prelude::*;
use crate::world::{
    spec_resource_code, Grid, RenewableResource, ResourceDeposit, ResourceKind, Terrain, Tile,
};

verus! {

pub const RESOURCE_SEED_SALT: u64 = 0x7265_736f_7572_6365;
pub const INDEX_MIX: u64 = 0x9e37_79b9_7f4a_7c15;
pub const REGENERATION_DIVISOR: u16 = 100;

/// SplitMix64 finaliser.
pub open spec fn spec_mix64(value: u64) -> u64 {
    let a = value ^ (value >> 30u64);
    let b = a.wrapping_mul(0xbf58_476d_1ce4_e5b9);
    let c = b ^ (b >> 27u64);
    let d = c.wrapping_mul(0x94d0_49bb_1331_11eb);
    d ^ (d >> 31u64)
}

pub fn mix64(value: u64) -> (r: u64)
    ensures
        r == spec_mix64(value),
{
    let mut value = value;
    value = value ^ (value >> 30u64);
    value = value.wrapping_mul(0xbf58_476d_1ce4_e5b9);
    value = value ^ (value >> 27u64);
    value = value.wrapping_mul(0x94d0_49bb_1331_11eb);
    value ^ (value >> 31u64)
}

/// Scales a 16-bit sample into `minimum..=maximum`.
pub open spec fn spec_amount_in_range(minimum: u16, maximum: u16, sample: u16) -> int {
    minimum + sample * (maximum - minimum + 1) / 0x1_0000
}

pub fn amount_in_range(minimum: u16, maximum: u16, sample: u16) -> (r: u16)
    requires
        minimum <= maximum,
    ensures
        r == spec_amount_in_range(minimum, maximum, sample),
        minimum <= r <= maximum,
{
    let span: u32 = (maximum - minimum) as u32 + 1;
    assert(sample * span <= 0xffff * 0x1_0000) by (nonlinear_arith)
        requires sample <= 0xffff, span <= 0x1_0000;
    let scaled: u32 = sample as u32 * span / 0x1_0000;
    assert(scaled < span) by (nonlinear_arith)
        requires scaled == sample * span / 0x1_0000, sample < 0x1_0000, span >= 1;
    minimum + scaled as u16
}

/// The deposit table: for a terrain and a 16-bit roll, the kind and amount range, in
/// the order the rows are tried. Each threshold is the row's probability scaled to the
/// 16-bit range.
pub open spec fn spec_deposit_rule(terrain: Terrain, roll: u16) -> Option<(ResourceKind, u16, u16)> {
    match terrain {
        Terrain::Forest => if roll < 31456 { Some((ResourceKind::Timber, 280u16, 820u16)) } else { None },
        Terrain::DenseForest => if roll < 44563 { Some((ResourceKind::Timber, 420u16, 1100u16)) } else { None },
        Terrain::Plains => if roll < 15728 { Some((ResourceKind::Food, 120u16, 520u16)) } else { None },
        Terrain::Grassland => if roll < 24903 { Some((ResourceKind::Food, 180u16, 720u16)) } else { None },
        Terrain::Hills => if roll < 6553 {
            Some((ResourceKind::Iron, 25u16, 150u16))
        } else if roll < 26214 {
            Some((ResourceKind::Stone, 160u16, 620u16))
        } else {
            None
        },
        Terrain::Mountain => if roll < 14417 {
            Some((ResourceKind::Iron, 40u16, 220u16))
        } else if roll < 47185 {
            Some((ResourceKind::Stone, 260u16, 900u16))
        } else {
            None
        },
        Terrain::Desert => if roll < 3276 { Some((ResourceKind::Stone, 80u16, 300u16)) } else { None },
        Terrain::Swamp => if roll < 13107 { Some((ResourceKind::Food, 90u16, 360u16)) } else { None },
        Terrain::Tundra => if roll < 5242 { Some((ResourceKind::Food, 60u16, 220u16)) } else { None },
        _ => None,
    }
}

pub open spec fn spec_deposit_for(terrain: Terrain, sample: u64) -> Option<ResourceDeposit> {
    let roll = (sample >> 48u64) as u16;
    let amount_roll = sample as u16;
    match spec_deposit_rule(terrain, roll) {
        None => None,
        Some((kind, minimum, maximum)) => Some(
            ResourceDeposit { kind, amount: spec_amount_in_range(minimum, maximum, amount_roll) as u16 },
        ),
    }
}

/// Which terrain can hold a deposit of which kind: food on plains, grassland, swamp
/// and tundra; timber in forests; stone in hills, mountains and desert; iron in hills
/// and mountains; nothing on water, beaches or snow.
pub open spec fn terrain_holds(terrain: Terrain, kind: ResourceKind) -> bool {
    match kind {
        ResourceKind::Food => terrain == Terrain::Plains || terrain == Terrain::Grassland || terrain
            == Terrain::Swamp || terrain == Terrain::Tundra,
        ResourceKind::Timber => terrain == Terrain::Forest || terrain == Terrain::DenseForest,
        ResourceKind::Stone => terrain == Terrain::Hills || terrain == Terrain::Mountain || terrain
            == Terrain::Desert,
        ResourceKind::Iron => terrain == Terrain::Hills || terrain == Terrain::Mountain,
    }
}

/// The amounts a deposit of each kind starts with.
pub open spec fn starting_amount_fits(kind: ResourceKind, amount: u16) -> bool {
    match kind {
        ResourceKind::Food => 60 <= amount <= 720,
        ResourceKind::Timber => 280 <= amount <= 1100,
        ResourceKind::Stone => 80 <= amount <= 900,
        ResourceKind::Iron => 25 <= amount <= 220,
    }
}

/// Every deposit a tile can receive is of a kind its terrain holds, with an amount in
/// that kind's starting range;
/// and on every terrain that holds only one kind, the lowest roll always places a
/// deposit of that kind, so food lands on plains, grassland, swamp and tundra and
/// timber in forests.
pub proof fn lemma_deposits_follow_terrain(terrain: Terrain, sample: u64)
    ensures
        spec_deposit_for(terrain, sample) matches Some(d) ==> terrain_holds(terrain, d.kind) && d.amount > 0
            && starting_amount_fits(d.kind, d.amount),
        (terrain == Terrain::Plains || terrain == Terrain::Grassland || terrain == Terrain::Swamp || terrain
            == Terrain::Tundra) ==> (spec_deposit_for(terrain, 0) matches Some(d) && d.kind == ResourceKind::Food),
        (terrain == Terrain::Forest || terrain == Terrain::DenseForest) ==> (spec_deposit_for(terrain, 0) matches Some(
            d,
        ) && d.kind == ResourceKind::Timber),
        terrain == Terrain::Desert ==> (spec_deposit_for(terrain, 0) matches Some(d) && d.kind == ResourceKind::Stone),
{
    let roll = (sample >> 48u64) as u16;
    let amount_roll = sample as u16;
    if let Some((kind, minimum, maximum)) = spec_deposit_rule(terrain, roll) {
        assert(minimum <= maximum);
        assert(amount_roll * (maximum - minimum + 1) / 0x1_0000 >= 0) by (nonlinear_arith)
            requires maximum >= minimum, amount_roll >= 0;
        assert(amount_roll * (maximum - minimum + 1) / 0x1_0000 <= maximum - minimum) by (nonlinear_arith)
            requires maximum >= minimum, amount_roll < 0x1_0000;
    }
    assert((0u64 >> 48u64) == 0u64) by (bit_vector);
}

fn deposit_rule(terrain: Terrain, roll: u16) -> (r: Option<(ResourceKind, u16, u16)>)
    ensures
        r == spec_deposit_rule(terrain, roll),
{
    match terrain {
        Terrain::Forest => if roll < 31456 { Some((ResourceKind::Timber, 280u16, 820u16)) } else { None },
        Terrain::DenseForest => if roll < 44563 { Some((ResourceKind::Timber, 420u16, 1100u16)) } else { None },
        Terrain::Plains => if roll < 15728 { Some((ResourceKind::Food, 120u16, 520u16)) } else { None },
        Terrain::Grassland => if roll < 24903 { Some((ResourceKind::Food, 180u16, 720u16)) } else { None },
        Terrain::Hills => if roll < 6553 {
            Some((ResourceKind::Iron, 25u16, 150u16))
        } else if roll < 26214 {
            Some((ResourceKind::Stone, 160u16, 620u16))
        } else {
            None
        },
        Terrain::Mountain => if roll < 14417 {
            Some((ResourceKind::Iron, 40u16, 220u16))
        } else if roll < 47185 {
            Some((ResourceKind::Stone, 260u16, 900u16))
        } else {
            None
        },
        Terrain::Desert => if roll < 3276 { Some((ResourceKind::Stone, 80u16, 300u16)) } else { None },
        Terrain::Swamp => if roll < 13107 { Some((ResourceKind::Food, 90u16, 360u16)) } else { None },
        Terrain::Tundra => if roll < 5242 { Some((ResourceKind::Food, 60u16, 220u16)) } else { None },
        _ => None,
    }
}

/// The deposit, if any, that a tile of `terrain` receives for a 64-bit sample: the top
/// 16 bits choose the row, the low 16 bits the amount.
pub fn deposit_for(terrain: Terrain, sample: u64) -> (r: Option<ResourceDeposit>)
    ensures
        r == spec_deposit_for(terrain, sample),
{
    let roll = (sample >> 48u64) as u16;
    let amount_roll = sample as u16;
    match deposit_rule(terrain, roll) {
        None => None,
        Some((kind, minimum, maximum)) => Some(
            ResourceDeposit { kind, amount: amount_in_range(minimum, maximum, amount_roll) },
        ),
    }
}

pub open spec fn spec_resource_seed(world_seed: u32) -> u64 {
    spec_mix64((world_seed as u64) ^ RESOURCE_SEED_SALT)
}

/// The sample that decides the deposit of tile `index`.
pub open spec fn spec_tile_sample(resource_seed: u64, index: int) -> u64 {
    spec_mix64(resource_seed ^ (index as u64).wrapping_mul(INDEX_MIX))
}

/// Places one deposit (or none) on every tile, decided by the world seed, the tile's
/// index and its terrain alone.
pub fn generate_resources(world_seed: u32, grid: &mut Grid)
    ensures
        final(grid).width == old(grid).width,
        final(grid).height == old(grid).height,
        final(grid).tiles@ == old(grid).tiles@,
        final(grid).region_ids@ == old(grid).region_ids@,
        final(grid).regions@ == old(grid).regions@,
        final(grid).renewable_resources@ == old(grid).renewable_resources@,
        final(grid).resources@.len() == old(grid).tiles@.len(),
        forall|i: int| 0 <= i < final(grid).resources@.len() ==> #[trigger] final(grid).resources@[i]
            == spec_deposit_for(
            old(grid).tiles@[i].terrain,
            spec_tile_sample(spec_resource_seed(world_seed), i),
        ),
{
    let resource_seed = mix64(world_seed as u64 ^ RESOURCE_SEED_SALT);
    let mut resources: Vec<Option<ResourceDeposit>> = Vec::new();
    let mut index: usize = 0;
    while index < grid.tiles.len()
        invariant
            0 <= index <= grid.tiles@.len(),
            resources@.len() == index,
            resource_seed == spec_resource_seed(world_seed),
            forall|i: int| 0 <= i < index ==> #[trigger] resources@[i] == spec_deposit_for(
                grid.tiles@[i].terrain,
                spec_tile_sample(resource_seed, i),
            ),
        decreases grid.tiles@.len() - index,
    {
        let sample = mix64(resource_seed ^ (index as u64).wrapping_mul(INDEX_MIX));
        resources.push(deposit_for(grid.tiles[index].terrain, sample));
        index += 1;
    }
    grid.resources = resources;
}

/// Four bytes per tile: resource code, amount low byte, amount high byte, and 255; all
/// zero where there is no deposit.
pub open spec fn spec_resource_texel(deposit: Option<ResourceDeposit>) -> Seq<u8> {
    match deposit {
        Some(d) => seq![spec_resource_code(d.kind), (d.amount % 256) as u8, (d.amount / 256) as u8, 255u8],
        None => seq![0u8, 0u8, 0u8, 0u8],
    }
}

pub fn encode_resource_texture(grid: &Grid) -> (r: Vec<u8>)
    requires
        grid.resources@.len() * 4 <= usize::MAX,
    ensures
        r@.len() == 4 * grid.resources@.len(),
        forall|i: int| 0 <= i < grid.resources@.len() ==> #[trigger] r@.subrange(4 * i, 4 * i + 4)
            == spec_resource_texel(grid.resources@[i]),
{
    let mut data: Vec<u8> = Vec::new();
    let mut i: usize = 0;
    while i < grid.resources.len()
        invariant
            0 <= i <= grid.resources@.len(),
            grid.resources@.len() * 4 <= usize::MAX,
            data@.len() == 4 * i,
            forall|j: int| 0 <= j < i ==> #[trigger] data@.subrange(4 * j, 4 * j + 4)
                == spec_resource_texel(grid.resources@[j]),
        decreases grid.resources@.len() - i,
    {
        let ghost before = data@;
        match grid.resources[i] {
            Some(deposit) => {
                data.push(deposit.kind.code());
                data.push((deposit.amount % 256) as u8);
                data.push((deposit.amount / 256) as u8);
                data.push(255);
            },
            None => {
                data.push(0);
                data.push(0);
                data.push(0);
                data.push(0);
            },
        }
        proof {
            assert(data@.subrange(4 * i as int, 4 * i as int + 4) =~= spec_resource_texel(grid.resources@[i as int]));
            assert forall|j: int| 0 <= j < i + 1 implies #[trigger] data@.subrange(4 * j, 4 * j + 4)
                == spec_resource_texel(grid.resources@[j]) by {
                if j < i {
                    assert(data@.subrange(4 * j, 4 * j + 4) =~= before.subrange(4 * j, 4 * j + 4));
                }
            }
        }
        i += 1;
    }
    data
}

/// Whether a renewable deposit grows today: the slot is empty or holds the deposit's
/// kind below capacity.
pub open spec fn spec_grows(renewable: RenewableResource, slot: Option<ResourceDeposit>) -> bool {
    match slot {
        Some(d) => d.kind == renewable.kind && d.amount < renewable.capacity,
        None => 0 < renewable.capacity,
    }
}

/// The slot after one day: grown by a hundredth of capacity (rounded up), never past
/// capacity; unchanged when it does not grow.
pub open spec fn spec_renewed(renewable: RenewableResource, slot: Option<ResourceDeposit>) -> Option<
    ResourceDeposit,
> {
    if !spec_grows(renewable, slot) {
        slot
    } else {
        let current: int = match slot {
            Some(d) => d.amount as int,
            None => 0,
        };
        let growth = (renewable.capacity + 99) / 100;
        let grown = if current + growth > renewable.capacity {
            renewable.capacity as int
        } else {
            current + growth
        };
        Some(ResourceDeposit { kind: renewable.kind, amount: grown as u16 })
    }
}

pub open spec fn spec_renew_one(resources: Seq<Option<ResourceDeposit>>, renewable: RenewableResource) -> Seq<
    Option<ResourceDeposit>,
> {
    if renewable.index < resources.len() {
        resources.update(renewable.index as int, spec_renewed(renewable, resources[renewable.index as int]))
    } else {
        resources
    }
}

/// The deposits after the renewables, taken in order, have each grown once.
pub open spec fn spec_renew_all(
    resources: Seq<Option<ResourceDeposit>>,
    renewables: Seq<RenewableResource>,
) -> Seq<Option<ResourceDeposit>>
    decreases renewables.len(),
{
    if renewables.len() == 0 {
        resources
    } else {
        spec_renew_one(spec_renew_all(resources, renewables.drop_last()), renewables.last())
    }
}

/// Whether some renewable, taken in order, grew.
pub open spec fn spec_any_growth(
    resources: Seq<Option<ResourceDeposit>>,
    renewables: Seq<RenewableResource>,
) -> bool
    decreases renewables.len(),
{
    if renewables.len() == 0 {
        false
    } else {
        let before = spec_renew_all(resources, renewables.drop_last());
        let r = renewables.last();
        spec_any_growth(resources, renewables.drop_last()) || (r.index < before.len() && spec_grows(
            r,
            before[r.index as int],
        ))
    }
}

/// The amount a slot holds; nothing counts as zero.
pub open spec fn slot_amount(slot: Option<ResourceDeposit>) -> int {
    match slot {
        Some(d) => d.amount as int,
        None => 0,
    }
}

/// A day of renewal never touches a deposit of another kind or one at capacity; when it
/// changes a slot, the slot then holds the renewable's kind with more than before, at
/// most capacity, grown by no more than a hundredth of capacity rounded up; and an empty
/// slot or a deposit of the kind below a positive capacity always grows.
pub proof fn lemma_renewal_grows_toward_capacity(renewable: RenewableResource, slot: Option<ResourceDeposit>)
    ensures
        (slot matches Some(d) && (d.kind != renewable.kind || d.amount >= renewable.capacity)) ==> spec_renewed(
            renewable,
            slot,
        ) == slot,
        spec_renewed(renewable, slot) != slot ==> (spec_renewed(renewable, slot) matches Some(n) && n.kind
            == renewable.kind && slot_amount(slot) < n.amount <= renewable.capacity && n.amount - slot_amount(slot)
            <= (renewable.capacity + 99) / 100),
        (match slot {
            Some(d) => d.kind == renewable.kind && d.amount < renewable.capacity,
            None => renewable.capacity > 0,
        }) ==> spec_renewed(renewable, slot) != slot,
{
}

/// A day of renewal leaves the number of slots alone, and every slot that no renewable
/// names keeps its deposit.
pub proof fn lemma_renewal_touches_only_renewables(
    resources: Seq<Option<ResourceDeposit>>,
    renewables: Seq<RenewableResource>,
    i: int,
)
    ensures
        spec_renew_all(resources, renewables).len() == resources.len(),
        0 <= i < resources.len() && (forall|k: int| 0 <= k < renewables.len() ==> #[trigger] renewables[k].index != i)
            ==> spec_renew_all(resources, renewables)[i] == resources[i],
    decreases renewables.len(),
{
    if renewables.len() > 0 {
        lemma_renewal_touches_only_renewables(resources, renewables.drop_last(), i);
        if 0 <= i < resources.len() && (forall|k: int| 0 <= k < renewables.len() ==> #[trigger] renewables[k].index != i) {
            assert forall|k: int| 0 <= k < renewables.drop_last().len() implies #[trigger] renewables.drop_last()[k].index != i by {
                assert(renewables.drop_last()[k] == renewables[k]);
            }
            assert(renewables.last() == renewables[renewables.len() - 1]);
        }
    }
}

/// Grows every renewable deposit by one day, in order; a slot taken by another kind of
/// deposit, or an index past the end, is left alone. Reports whether anything grew.
pub fn regenerate(world: &mut Grid) -> (changed: bool)
    ensures
        final(world).width == old(world).width,
        final(world).height == old(world).height,
        final(world).tiles@ == old(world).tiles@,
        final(world).region_ids@ == old(world).region_ids@,
        final(world).regions@ == old(world).regions@,
        final(world).renewable_resources@ == old(world).renewable_resources@,
        final(world).resources@ == spec_renew_all(old(world).resources@, old(world).renewable_resources@),
        changed == spec_any_growth(old(world).resources@, old(world).renewable_resources@),
{
    let mut changed = false;
    let mut k: usize = 0;
    let ghost original = world.resources@;
    let ghost renewables = world.renewable_resources@;
    while k < world.renewable_resources.len()
        invariant
            0 <= k <= renewables.len(),
            world.width == old(world).width,
            world.height == old(world).height,
            world.tiles@ == old(world).tiles@,
            world.region_ids@ == old(world).region_ids@,
            world.regions@ == old(world).regions@,
            world.renewable_resources@ == old(world).renewable_resources@,
            renewables == world.renewable_resources@,
            original == old(world).resources@,
            world.resources@ == spec_renew_all(original, renewables.subrange(0, k as int)),
            changed == spec_any_growth(original, renewables.subrange(0, k as int)),
        decreases renewables.len() - k,
    {
        let renewable = world.renewable_resources[k];
        proof {
            assert(renewables.subrange(0, k + 1).drop_last() =~= renewables.subrange(0, k as int));
            assert(renewables.subrange(0, k + 1).last() == renewable);
        }
        if renewable.index < world.resources.len() {
            let slot = world.resources[renewable.index];
            let grows = match slot {
                Some(deposit) => deposit.kind == renewable.kind && deposit.amount < renewable.capacity,
                None => 0 < renewable.capacity,
            };
            if grows {
                let current: u16 = match slot {
                    Some(deposit) => deposit.amount,
                    None => 0,
                };
                let daily_growth = renewable.capacity / REGENERATION_DIVISOR + if renewable.capacity
                    % REGENERATION_DIVISOR == 0 {
                    0
                } else {
                    1
                };
                assert(daily_growth == (renewable.capacity + 99) / 100);
                let grown = current.saturating_add(daily_growth);
                let amount = if grown < renewable.capacity { grown } else { renewable.capacity };
                world.resources.set(renewable.index, Some(ResourceDeposit { kind: renewable.kind, amount }));
                changed = true;
            }
        }
        k += 1;
    }
    proof {
        assert(renewables.subrange(0, renewables.len() as int) =~= renewables);
    }
    changed
}

} // verus!
