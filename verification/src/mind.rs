//! An individual's goals, plans and memory: remembered resources, remembered
//! acquaintances with their affinities, explored chunks and failed explorations.
use vstd::prelude::*;
use crate::time::TICKS_PER_DAY;
use crate::world::{Grid, ResourceKind};

verus! {

pub const DEFAULT_PERCEPTION_RADIUS: u32 = 6;
pub const FAILED_TARGET_RETRY_TICKS: u64 = 120;
pub const KNOWLEDGE_CHUNK_SIZE: u32 = 8;
pub const FAILED_EXPLORATION_RETRY_TICKS: u64 = 240;
pub const GATHER_DURATION_TICKS: u32 = 10;
pub const GATHER_AMOUNT: u16 = 10;

pub const MIN_AFFINITY: i16 = -1_000;
pub const NEUTRAL_AFFINITY: i16 = 0;
pub const MAX_AFFINITY: i16 = 1_000;
pub const FAILED_SOCIAL_SEEK_RETRY_TICKS: u64 = 50;
/// A relationship begins cooling toward neutral after thirty days without interaction.
pub const RELATIONSHIP_DECAY_START_TICKS: u64 = 720;
/// Affinity moved toward zero per daily decay pass.
pub const RELATIONSHIP_DECAY_PER_DAY: i16 = 1;

#[derive(Clone, Copy, Debug, PartialEq, Eq, Structural)]
pub enum Goal {
    Eat,
    AcquireResource,
    Explore,
    Follow,
    MigrateHousehold,
    ProtectDependent,
    Rest,
    Socialize,
    ShareFood,
}

pub open spec fn spec_goal_label(goal: Goal) -> Seq<char> {
    match goal {
        Goal::Eat => "Eat"@,
        Goal::AcquireResource => "Acquire Resource"@,
        Goal::Explore => "Explore"@,
        Goal::Follow => "Follow"@,
        Goal::MigrateHousehold => "Migrate Household"@,
        Goal::ProtectDependent => "Protect Dependent"@,
        Goal::Rest => "Rest"@,
        Goal::Socialize => "Socialize"@,
        Goal::ShareFood => "Share Food"@,
    }
}

impl Goal {
    pub fn label(self) -> (r: &'static str)
        ensures
            r@ == spec_goal_label(self),
    {
        match self {
            Goal::Eat => "Eat",
            Goal::AcquireResource => "Acquire Resource",
            Goal::Explore => "Explore",
            Goal::Follow => "Follow",
            Goal::MigrateHousehold => "Migrate Household",
            Goal::ProtectDependent => "Protect Dependent",
            Goal::Rest => "Rest",
            Goal::Socialize => "Socialize",
            Goal::ShareFood => "Share Food",
        }
    }
}

#[derive(Clone, Copy, Debug, PartialEq, Eq, Structural)]
pub enum Action {
    MoveTo(u32, u32),
    Gather(ResourceKind),
    Consume(ResourceKind),
    ExploreArea(u32, u32),
    Wait,
    ApproachEntity(u32),
    Interact(u32),
    ShareFood(u32),
    DepositHouseholdFood(u16),
    WithdrawHouseholdFood(u16),
}

pub open spec fn spec_action_label(action: Action) -> Seq<char> {
    match action {
        Action::MoveTo(_, _) => "Move to target"@,
        Action::Gather(_) => "Gather resource"@,
        Action::Consume(_) => "Consume resource"@,
        Action::ExploreArea(_, _) => "Explore area"@,
        Action::Wait => "Wait"@,
        Action::ApproachEntity(_) => "Approach entity"@,
        Action::Interact(_) => "Interact"@,
        Action::ShareFood(_) => "Share food"@,
        Action::DepositHouseholdFood(_) => "Deposit household food"@,
        Action::WithdrawHouseholdFood(_) => "Withdraw household food"@,
    }
}

impl Action {
    pub fn label(self) -> (r: &'static str)
        ensures
            r@ == spec_action_label(self),
    {
        match self {
            Action::MoveTo(_, _) => "Move to target",
            Action::Gather(_) => "Gather resource",
            Action::Consume(_) => "Consume resource",
            Action::ExploreArea(_, _) => "Explore area",
            Action::Wait => "Wait",
            Action::ApproachEntity(_) => "Approach entity",
            Action::Interact(_) => "Interact",
            Action::ShareFood(_) => "Share food",
            Action::DepositHouseholdFood(_) => "Deposit household food",
            Action::WithdrawHouseholdFood(_) => "Withdraw household food",
        }
    }

    /// The tile that a movement action heads for.
    pub fn destination(self) -> (r: Option<(u32, u32)>)
        ensures
            r == (match self {
                Action::MoveTo(x, y) => Some((x, y)),
                Action::ExploreArea(x, y) => Some((x, y)),
                _ => None,
            }),
    {
        match self {
            Action::MoveTo(x, y) | Action::ExploreArea(x, y) => Some((x, y)),
            _ => None,
        }
    }

    /// The individual that a social action is directed at.
    pub fn target_entity_id(self) -> (r: Option<u32>)
        ensures
            r == (match self {
                Action::ApproachEntity(id) => Some(id),
                Action::Interact(id) => Some(id),
                Action::ShareFood(id) => Some(id),
                _ => None,
            }),
    {
        match self {
            Action::ApproachEntity(id) | Action::Interact(id) | Action::ShareFood(id) => Some(id),
            _ => None,
        }
    }
}

#[derive(Clone, Copy, Debug, PartialEq, Eq, Structural)]
pub enum AffinityBand {
    Hostile,
    Ordinary,
    Bonded,
}

pub open spec fn spec_affinity_band(affinity: i16) -> AffinityBand {
    if affinity < -200 {
        AffinityBand::Hostile
    } else if affinity < 100 {
        AffinityBand::Ordinary
    } else {
        AffinityBand::Bonded
    }
}

pub fn affinity_band(affinity: i16) -> (r: AffinityBand)
    ensures
        r == spec_affinity_band(affinity),
{
    if affinity < -200 {
        AffinityBand::Hostile
    } else if affinity < 100 {
        AffinityBand::Ordinary
    } else {
        AffinityBand::Bonded
    }
}

#[derive(Clone, Copy, Debug, PartialEq, Eq, Structural)]
pub struct AffinityChangeRecord {
    pub target_id: u32,
    pub previous_affinity: i16,
    pub new_affinity: i16,
    pub delta: i16,
}

#[derive(Clone, Copy, Debug, PartialEq, Eq, Structural)]
pub struct KnownResource {
    pub x: u32,
    pub y: u32,
    pub kind: ResourceKind,
    pub last_seen_tick: u64,
    pub estimated_amount: u16,
    pub failed_attempts: u16,
    pub avoid_until_tick: u64,
}

#[derive(Clone, Copy, Debug, PartialEq, Eq, Structural)]
pub struct KnownEntity {
    pub id: u32,
    pub first_seen_tick: u64,
    pub last_seen_tick: u64,
    pub last_seen_x: u32,
    pub last_seen_y: u32,
    pub observed_ticks: u32,
    pub affinity: i16,
    pub last_interaction_tick: u64,
    pub interaction_count: u32,
    pub seek_retry_after_tick: Option<u64>,
}

pub open spec fn sat_add_u64(a: u64, b: u64) -> u64 {
    if a + b > u64::MAX { u64::MAX } else { (a + b) as u64 }
}

impl KnownEntity {
    pub fn mark_failed_seek(&mut self, tick: u64)
        ensures
            *final(self) == (KnownEntity {
                seek_retry_after_tick: Some(sat_add_u64(tick, FAILED_SOCIAL_SEEK_RETRY_TICKS)),
                ..*old(self)
            }),
    {
        self.seek_retry_after_tick = Some(tick.saturating_add(FAILED_SOCIAL_SEEK_RETRY_TICKS));
    }

    pub fn clear_seek_cooldown(&mut self)
        ensures
            *final(self) == (KnownEntity { seek_retry_after_tick: None, ..*old(self) }),
    {
        self.seek_retry_after_tick = None;
    }

    pub fn seek_on_cooldown(self, tick: u64) -> (r: bool)
        ensures
            r == (self.seek_retry_after_tick matches Some(retry) && tick < retry),
    {
        match self.seek_retry_after_tick {
            Some(retry_after_tick) => tick < retry_after_tick,
            None => false,
        }
    }
}

#[derive(Clone, Copy, Debug, PartialEq, Eq, Structural)]
pub struct FailedExploration {
    pub chunk_index: u32,
    pub retry_after_tick: u64,
}

/// `a + b` held inside `i16`.
pub open spec fn spec_sat_add_i16(a: i16, b: i16) -> i16 {
    let v = a + b;
    if v > i16::MAX { i16::MAX } else if v < i16::MIN { i16::MIN } else { v as i16 }
}

fn sat_add_i16(a: i16, b: i16) -> (r: i16)
    ensures
        r == spec_sat_add_i16(a, b),
{
    let v: i32 = a as i32 + b as i32;
    if v > i16::MAX as i32 {
        i16::MAX
    } else if v < i16::MIN as i32 {
        i16::MIN
    } else {
        v as i16
    }
}

fn sat_sub_i16(a: i16, b: i16) -> (r: i16)
    ensures
        r == spec_affinity_delta(b, a),
{
    let v: i32 = a as i32 - b as i32;
    if v > i16::MAX as i32 {
        i16::MAX
    } else if v < i16::MIN as i32 {
        i16::MIN
    } else {
        v as i16
    }
}

/// Moves an affinity toward zero by at most `amount`, never crossing zero.
pub open spec fn spec_move_toward_zero(value: i16, amount: i16) -> i16 {
    if value > 0 {
        let v = spec_affinity_delta(amount, value);
        if v < 0 { 0 } else { v }
    } else if value < 0 {
        let v = spec_sat_add_i16(value, amount);
        if v > 0 { 0 } else { v }
    } else {
        0
    }
}

pub fn move_toward_zero(value: i16, amount: i16) -> (r: i16)
    ensures
        r == spec_move_toward_zero(value, amount),
{
    if value > 0 {
        let v = sat_sub_i16(value, amount);
        if v < 0 { 0 } else { v }
    } else if value < 0 {
        let v = sat_add_i16(value, amount);
        if v > 0 { 0 } else { v }
    } else {
        0
    }
}

/// `value + delta`, held inside the affinity range.
pub open spec fn spec_clamped_affinity(value: i16, delta: i16) -> i16 {
    let v = value + delta;
    if v < MIN_AFFINITY { MIN_AFFINITY } else if v > MAX_AFFINITY { MAX_AFFINITY } else { v as i16 }
}

fn clamped_affinity(value: i16, delta: i16) -> (r: i16)
    ensures
        r == spec_clamped_affinity(value, delta),
{
    let v = sat_add_i16(value, delta);
    if v < MIN_AFFINITY {
        MIN_AFFINITY
    } else if v > MAX_AFFINITY {
        MAX_AFFINITY
    } else {
        v
    }
}

/// `new - previous`, saturating in `i16`.
pub open spec fn spec_affinity_delta(previous: i16, new: i16) -> i16 {
    let d = new - previous;
    if d > i16::MAX { i16::MAX } else if d < i16::MIN { i16::MIN } else { d as i16 }
}

/// Acquaintances listed in strictly increasing id order.
pub open spec fn ids_sorted(known: Seq<KnownEntity>) -> bool {
    forall|i: int, j: int| 0 <= i < j < known.len() ==> known[i].id < known[j].id
}

/// Finds the acquaintance `entity_id` by binary search over the id-sorted list.
pub fn find_known(known: &Vec<KnownEntity>, entity_id: u32) -> (r: Option<usize>)
    ensures
        r matches Some(i) ==> i < known@.len() && known@[i as int].id == entity_id,
        ids_sorted(known@) && (exists|j: int| 0 <= j < known@.len() && known@[j].id == entity_id)
            ==> r is Some,
{
    let mut lo: usize = 0;
    let mut hi: usize = known.len();
    while lo < hi
        invariant
            0 <= lo <= hi <= known@.len(),
            ids_sorted(known@) ==> forall|j: int| 0 <= j < lo ==> known@[j].id < entity_id,
            ids_sorted(known@) ==> forall|j: int| hi <= j < known@.len() ==> known@[j].id > entity_id,
        decreases hi - lo,
    {
        let mid = lo + (hi - lo) / 2;
        let id = known[mid].id;
        if id == entity_id {
            return Some(mid);
        } else if id < entity_id {
            lo = mid + 1;
        } else {
            hi = mid;
        }
    }
    None
}

/// Whether a remembered deposit lies at `position` (and is of `kind`, when one is given).
pub open spec fn resource_matches(k: KnownResource, position: (u32, u32), kind: Option<ResourceKind>) -> bool {
    k.x == position.0 && k.y == position.1 && match kind {
        Some(kind) => k.kind == kind,
        None => true,
    }
}

/// The remembered deposits left after forgetting those of `kind` at `position`.
pub open spec fn spec_forget(known: Seq<KnownResource>, position: (u32, u32), kind: ResourceKind) -> Seq<
    KnownResource,
> {
    known.filter(|k: KnownResource| !(k.x == position.0 && k.y == position.1 && k.kind == kind))
}

/// `k` is the first index of `known` whose deposit matches.
pub open spec fn first_resource_at(
    known: Seq<KnownResource>,
    position: (u32, u32),
    kind: Option<ResourceKind>,
    k: int,
) -> bool {
    &&& 0 <= k < known.len()
    &&& resource_matches(known[k], position, kind)
    &&& forall|j: int| 0 <= j < k ==> !#[trigger] resource_matches(known[j], position, kind)
}

/// `k` is the first index of `failures` recording chunk `chunk`.
pub open spec fn first_failure_of(failures: Seq<FailedExploration>, chunk: u32, k: int) -> bool {
    &&& 0 <= k < failures.len()
    &&& failures[k].chunk_index == chunk
    &&& forall|j: int| 0 <= j < k ==> #[trigger] failures[j].chunk_index != chunk
}

/// Whether a failed exploration of `chunk` still blocks retries at `tick`.
pub open spec fn spec_on_cooldown(failures: Seq<FailedExploration>, chunk: u32, tick: u64) -> bool {
    exists|i: int| 0 <= i < failures.len() && #[trigger] failures[i].chunk_index == chunk && tick
        < failures[i].retry_after_tick
}

/// What an individual remembers.
#[derive(Clone, Debug)]
pub struct Memory {
    pub known_resources: Vec<KnownResource>,
    /// Indices of the knowledge chunks seen, in increasing order.
    pub known_chunks: Vec<u32>,
    pub failed_exploration: Vec<FailedExploration>,
    pub known_entities: Vec<KnownEntity>,
}

/// An acquaintance after one daily decay pass at `tick`.
pub open spec fn spec_decayed(known: KnownEntity, tick: u64) -> KnownEntity {
    if known.affinity != 0 && tick - known.last_interaction_tick >= RELATIONSHIP_DECAY_START_TICKS {
        KnownEntity { affinity: spec_move_toward_zero(known.affinity, RELATIONSHIP_DECAY_PER_DAY), ..known }
    } else {
        known
    }
}

/// The band crossings that a decay pass reports, in list order.
pub open spec fn spec_decay_changes(known: Seq<KnownEntity>, tick: u64) -> Seq<AffinityChangeRecord>
    decreases known.len(),
{
    if known.len() == 0 {
        Seq::empty()
    } else {
        let k = known.last();
        let d = spec_decayed(k, tick);
        let rest = spec_decay_changes(known.drop_last(), tick);
        if spec_affinity_band(k.affinity) != spec_affinity_band(d.affinity) {
            rest.push(
                AffinityChangeRecord {
                    target_id: k.id,
                    previous_affinity: k.affinity,
                    new_affinity: d.affinity,
                    delta: spec_affinity_delta(k.affinity, d.affinity),
                },
            )
        } else {
            rest
        }
    }
}

/// The acquaintance after an interaction at `tick` with affinity change `delta`.
pub open spec fn spec_after_interaction(known: KnownEntity, tick: u64, delta: i16) -> KnownEntity {
    KnownEntity {
        affinity: spec_clamped_affinity(known.affinity, delta),
        last_interaction_tick: tick,
        interaction_count: if known.interaction_count == u32::MAX {
            u32::MAX
        } else {
            (known.interaction_count + 1) as u32
        },
        seek_retry_after_tick: None,
        ..known
    }
}

pub open spec fn chunks_sorted(chunks: Seq<u32>) -> bool {
    forall|i: int, j: int| 0 <= i < j < chunks.len() ==> chunks[i] < chunks[j]
}

/// Index of the knowledge chunk holding tile `(x, y)`.
pub open spec fn spec_chunk_index(width: u32, x: u32, y: u32) -> int {
    let size = KNOWLEDGE_CHUNK_SIZE as int;
    let chunks_wide = (width + size - 1) / size;
    (y as int / size) * chunks_wide + x as int / size
}

/// Chunk index of tile `(x, y)`, when the grid's chunk indices fit in `u32`.
pub fn chunk_index(world: &Grid, x: u32, y: u32) -> (r: u32)
    requires
        world.in_bounds(x as int, y as int),
        world.wf(),
    ensures
        r == spec_chunk_index(world.width, x, y),
{
    let chunks_wide = world.width / KNOWLEDGE_CHUNK_SIZE + if world.width % KNOWLEDGE_CHUNK_SIZE
        == 0 {
        0
    } else {
        1
    };
    assert(chunks_wide == (world.width + KNOWLEDGE_CHUNK_SIZE - 1) / KNOWLEDGE_CHUNK_SIZE as int);
    let row = y / KNOWLEDGE_CHUNK_SIZE;
    assert(row * chunks_wide <= y * world.width) by (nonlinear_arith)
        requires
            row == y / 8,
            chunks_wide == (world.width + 7) / 8,
            x < world.width,
            y >= 0,
    ;
    assert(y * world.width + x < world.width * world.height) by (nonlinear_arith)
        requires
            y < world.height,
            x < world.width,
    ;
    row * chunks_wide + x / KNOWLEDGE_CHUNK_SIZE
}

pub open spec fn spec_manhattan(left: (u32, u32), right: (u32, u32)) -> int {
    (if left.0 >= right.0 { left.0 - right.0 } else { right.0 - left.0 }) + (if left.1 >= right.1 {
        left.1 - right.1
    } else {
        right.1 - left.1
    })
}

/// Manhattan distance; requires the sum to fit, which holds inside any grid.
pub fn manhattan(left: (u32, u32), right: (u32, u32)) -> (r: u32)
    requires
        spec_manhattan(left, right) <= u32::MAX,
    ensures
        r == spec_manhattan(left, right),
{
    let dx = if left.0 >= right.0 { left.0 - right.0 } else { right.0 - left.0 };
    let dy = if left.1 >= right.1 { left.1 - right.1 } else { right.1 - left.1 };
    dx + dy
}

/// A remembered target: distance, age of the sighting, and position.
pub type RememberedTarget = (u64, u64, (u32, u32));

/// Lexicographic order on remembered targets: nearer first, then fresher, then by
/// position.
pub open spec fn target_le(a: RememberedTarget, b: RememberedTarget) -> bool {
    a.0 < b.0 || (a.0 == b.0 && (a.1 < b.1 || (a.1 == b.1 && (a.2.0 < b.2.0 || (a.2.0 == b.2.0
        && a.2.1 <= b.2.1)))))
}

pub open spec fn targets_sorted(s: Seq<RememberedTarget>) -> bool {
    forall|i: int, j: int| 0 <= i < j < s.len() ==> target_le(s[i], s[j])
}

/// The targets that a memory offers for `kind` at `tick` seen from `origin`: every
/// remembered deposit of that kind with a positive estimate and no active avoidance, in
/// memory order.
pub open spec fn spec_targets(
    known: Seq<KnownResource>,
    origin: (u32, u32),
    tick: u64,
    kind: ResourceKind,
) -> Seq<RememberedTarget>
    decreases known.len(),
{
    if known.len() == 0 {
        Seq::empty()
    } else {
        let k = known.last();
        let rest = spec_targets(known.drop_last(), origin, tick, kind);
        if k.kind == kind && k.estimated_amount > 0 && tick >= k.avoid_until_tick {
            rest.push(
                (
                    spec_manhattan(origin, (k.x, k.y)) as u64,
                    (if tick >= k.last_seen_tick { tick - k.last_seen_tick } else { 0 }) as u64,
                    (k.x, k.y),
                ),
            )
        } else {
            rest
        }
    }
}

fn target_le_exec(a: RememberedTarget, b: RememberedTarget) -> (r: bool)
    ensures
        r == target_le(a, b),
{
    a.0 < b.0 || (a.0 == b.0 && (a.1 < b.1 || (a.1 == b.1 && (a.2.0 < b.2.0 || (a.2.0 == b.2.0
        && a.2.1 <= b.2.1)))))
}

/// Inserts `t` into an already sorted list, after every entry that orders at or before it.
fn insert_sorted(list: &mut Vec<RememberedTarget>, t: RememberedTarget)
    requires
        targets_sorted(old(list)@),
    ensures
        targets_sorted(final(list)@),
        final(list)@.to_multiset() == old(list)@.to_multiset().insert(t),
{
    let mut i: usize = 0;
    while i < list.len() && target_le_exec(list[i], t)
        invariant
            0 <= i <= list@.len(),
            forall|j: int| 0 <= j < i ==> target_le(list@[j], t),
        decreases list@.len() - i,
    {
        i += 1;
    }
    let ghost before = list@;
    list.insert(i, t);
    proof {
        vstd::seq_lib::to_multiset_insert(before, i as int, t);
        assert forall|a: int, b: int| 0 <= a < b < list@.len() implies target_le(list@[a], list@[b]) by {
            if b < i {
                assert(list@[a] == before[a] && list@[b] == before[b]);
            } else if b == i {
                assert(list@[a] == before[a]);
            } else if a == i {
                assert(list@[b] == before[b - 1]);
                if i < before.len() {
                    assert(!target_le(before[i as int], t));
                    if b - 1 > i {
                        assert(target_le(before[i as int], before[b - 1]));
                    }
                }
            } else if a < i {
                assert(list@[a] == before[a] && list@[b] == before[b - 1]);
            } else {
                assert(list@[a] == before[a - 1] && list@[b] == before[b - 1]);
            }
        }
    }
}

impl Memory {
    pub fn new() -> (r: Self)
        ensures
            r.known_resources@.len() == 0,
            r.known_entities@.len() == 0,
            r.spec_known_chunks() == Seq::<u32>::empty(),
            r.spec_failed_exploration() == Seq::<FailedExploration>::empty(),
            r.wf(),
    {
        Memory {
            known_resources: Vec::new(),
            known_chunks: Vec::new(),
            failed_exploration: Vec::new(),
            known_entities: Vec::new(),
        }
    }

    /// The explored chunks are kept in strictly increasing order.
    pub open spec fn wf(&self) -> bool {
        chunks_sorted(self.known_chunks@)
    }

    pub open spec fn spec_known_chunks(&self) -> Seq<u32> {
        self.known_chunks@
    }

    pub open spec fn spec_failed_exploration(&self) -> Seq<FailedExploration> {
        self.failed_exploration@
    }

    /// Decays every relationship whose last interaction lies at least
    /// `RELATIONSHIP_DECAY_START_TICKS` back, and reports the band crossings.
    pub fn decay_relationships(&mut self, tick: u64) -> (changes: Vec<AffinityChangeRecord>)
        ensures
            final(self).known_resources@ == old(self).known_resources@,
            final(self).spec_known_chunks() == old(self).spec_known_chunks(),
            final(self).spec_failed_exploration() == old(self).spec_failed_exploration(),
            final(self).known_entities@.len() == old(self).known_entities@.len(),
            forall|i: int| 0 <= i < old(self).known_entities@.len() ==> #[trigger] final(self).known_entities@[i]
                == spec_decayed(old(self).known_entities@[i], tick),
            changes@ == spec_decay_changes(old(self).known_entities@, tick),
    {
        let ghost original = self.known_entities@;
        let mut changes: Vec<AffinityChangeRecord> = Vec::new();
        let mut i: usize = 0;
        while i < self.known_entities.len()
            invariant
                0 <= i <= original.len(),
                self.known_entities@.len() == original.len(),
                self.known_resources@ == old(self).known_resources@,
                self.known_chunks@ == old(self).known_chunks@,
                self.failed_exploration@ == old(self).failed_exploration@,
                forall|j: int| 0 <= j < i ==> #[trigger] self.known_entities@[j] == spec_decayed(original[j], tick),
                forall|j: int| i <= j < original.len() ==> #[trigger] self.known_entities@[j] == original[j],
                changes@ == spec_decay_changes(original.subrange(0, i as int), tick),
            decreases original.len() - i,
        {
            let known = self.known_entities[i];
            proof {
                assert(original.subrange(0, i + 1).drop_last() =~= original.subrange(0, i as int));
                assert(original.subrange(0, i + 1).last() == known);
            }
            if known.affinity != 0 {
                let since = tick.saturating_sub(known.last_interaction_tick);
                if since >= RELATIONSHIP_DECAY_START_TICKS {
                    let previous_affinity = known.affinity;
                    let new_affinity = move_toward_zero(known.affinity, RELATIONSHIP_DECAY_PER_DAY);
                    let mut updated = known;
                    updated.affinity = new_affinity;
                    self.known_entities.set(i, updated);
                    if affinity_band(previous_affinity) != affinity_band(new_affinity) {
                        changes.push(
                            AffinityChangeRecord {
                                target_id: known.id,
                                previous_affinity,
                                new_affinity,
                                delta: sat_sub_i16(new_affinity, previous_affinity),
                            },
                        );
                    }
                }
            }
            i += 1;
        }
        proof {
            assert(original.subrange(0, original.len() as int) =~= original);
        }
        changes
    }

    pub fn known_chunk_count(&self) -> (r: usize)
        ensures
            r == self.spec_known_chunks().len(),
    {
        self.known_chunks.len()
    }

    fn chunk_position(&self, chunk: u32) -> (r: Result<usize, usize>)
        requires
            self.wf(),
        ensures
            r matches Ok(i) ==> i < self.known_chunks@.len() && self.known_chunks@[i as int] == chunk,
            r matches Err(i) ==> i <= self.known_chunks@.len() && !self.known_chunks@.contains(chunk)
                && (forall|j: int| 0 <= j < i ==> self.known_chunks@[j] < chunk) && (forall|j: int|
                i <= j < self.known_chunks@.len() ==> self.known_chunks@[j] > chunk),
    {
        let mut lo: usize = 0;
        let mut hi: usize = self.known_chunks.len();
        while lo < hi
            invariant
                chunks_sorted(self.known_chunks@),
                0 <= lo <= hi <= self.known_chunks@.len(),
                forall|j: int| 0 <= j < lo ==> self.known_chunks@[j] < chunk,
                forall|j: int| hi <= j < self.known_chunks@.len() ==> self.known_chunks@[j] > chunk,
            decreases hi - lo,
        {
            let mid = lo + (hi - lo) / 2;
            let v = self.known_chunks[mid];
            if v == chunk {
                return Ok(mid);
            } else if v < chunk {
                lo = mid + 1;
            } else {
                hi = mid;
            }
        }
        Err(lo)
    }

    /// Whether chunk `chunk` has been seen.
    pub fn knows_chunk(&self, chunk: u32) -> (r: bool)
        requires
            self.wf(),
        ensures
            r == self.spec_known_chunks().contains(chunk),
    {
        match self.chunk_position(chunk) {
            Ok(_) => true,
            Err(_) => false,
        }
    }

    /// Records chunk `chunk` as seen; reports whether it was new.
    pub fn remember_chunk(&mut self, chunk: u32) -> (inserted: bool)
        requires
            old(self).wf(),
        ensures
            final(self).wf(),
            inserted == !old(self).spec_known_chunks().contains(chunk),
            final(self).spec_known_chunks().to_set() == old(self).spec_known_chunks().to_set().insert(chunk),
            final(self).known_resources@ == old(self).known_resources@,
            final(self).known_entities@ == old(self).known_entities@,
            final(self).spec_failed_exploration() == old(self).spec_failed_exploration(),
    {
        match self.chunk_position(chunk) {
            Ok(_) => {
                assert(self.known_chunks@.to_set() =~= self.known_chunks@.to_set().insert(chunk));
                false
            },
            Err(i) => {
                let ghost before = self.known_chunks@;
                self.known_chunks.insert(i, chunk);
                proof {
                    assert forall|a: int, b: int| 0 <= a < b < self.known_chunks@.len() implies self.known_chunks@[a]
                        < self.known_chunks@[b] by {
                        if b < i {
                            assert(self.known_chunks@[a] == before[a]);
                        } else if a < i && b == i {
                            assert(self.known_chunks@[a] == before[a]);
                        } else if a < i {
                            assert(self.known_chunks@[a] == before[a]);
                            assert(self.known_chunks@[b] == before[b - 1]);
                        } else if a == i {
                            assert(self.known_chunks@[b] == before[b - 1]);
                        } else {
                            assert(self.known_chunks@[a] == before[a - 1]);
                            assert(self.known_chunks@[b] == before[b - 1]);
                        }
                    }
                    assert(self.known_chunks@.to_set() =~= before.to_set().insert(chunk)) by {
                        assert forall|v: u32| self.known_chunks@.to_set().contains(v) <==> before.to_set().insert(chunk).contains(v) by {
                            if self.known_chunks@.contains(v) {
                                let k = choose|k: int| 0 <= k < self.known_chunks@.len() && self.known_chunks@[k] == v;
                                if k < i {
                                    assert(before[k] == v);
                                } else if k > i {
                                    assert(before[k - 1] == v);
                                }
                            }
                            if before.contains(v) {
                                let k = choose|k: int| 0 <= k < before.len() && before[k] == v;
                                if k < i {
                                    assert(self.known_chunks@[k] == v);
                                } else {
                                    assert(self.known_chunks@[k + 1] == v);
                                }
                            }
                            if v == chunk {
                                assert(self.known_chunks@[i as int] == v);
                            }
                        }
                    }
                }
                true
            },
        }
    }

    /// Whether the chunk of tile `(x, y)` has been seen.
    pub fn remembers_chunk(&self, world: &Grid, x: u32, y: u32) -> (r: bool)
        requires
            spec_chunk_index(world.width, x, y) <= u32::MAX,
        ensures
            r == self.spec_known_chunks().contains(spec_chunk_index(world.width, x, y) as u32),
    {
        let wide: u64 = (world.width as u64 + 7) / 8;
        let row: u64 = y as u64 / 8;
        assert(row * wide <= 0x2000_0000u64 * 0x2000_0000u64) by (nonlinear_arith)
            requires
                row <= 0x2000_0000,
                wide <= 0x2000_0000,
        ;
        assert(wide == (world.width + KNOWLEDGE_CHUNK_SIZE - 1) / KNOWLEDGE_CHUNK_SIZE as int);
        assert(row * wide + x as u64 / 8 == spec_chunk_index(world.width, x, y));
        let chunk = (row * wide + x as u64 / 8) as u32;
        assert(chunk == spec_chunk_index(world.width, x, y) as u32);
        let mut i: usize = 0;
        while i < self.known_chunks.len()
            invariant
                i <= self.known_chunks@.len(),
                chunk == spec_chunk_index(world.width, x, y) as u32,
                forall|j: int| 0 <= j < i ==> self.known_chunks@[j] != chunk,
            decreases self.known_chunks@.len() - i,
        {
            if self.known_chunks[i] == chunk {
                assert(self.spec_known_chunks()[i as int] == chunk);
                return true;
            }
            i += 1;
        }
        false
    }

    /// Whether an exploration of `chunk_index` failed and may not be retried before
    /// `tick`.
    pub fn exploration_on_cooldown(&self, chunk_index: u32, tick: u64) -> (r: bool)
        ensures
            r == spec_on_cooldown(self.failed_exploration@, chunk_index, tick),
    {
        let mut i: usize = 0;
        while i < self.failed_exploration.len()
            invariant
                0 <= i <= self.failed_exploration@.len(),
                forall|j: int| 0 <= j < i ==> !(#[trigger] self.failed_exploration@[j].chunk_index == chunk_index
                    && tick < self.failed_exploration@[j].retry_after_tick),
            decreases self.failed_exploration@.len() - i,
        {
            let failure = self.failed_exploration[i];
            if failure.chunk_index == chunk_index && tick < failure.retry_after_tick {
                assert(self.failed_exploration@[i as int].chunk_index == chunk_index);
                return true;
            }
            i += 1;
        }
        false
    }

    /// Blocks retries of `chunk_index` until `FAILED_EXPLORATION_RETRY_TICKS` after `tick`,
    /// updating the first existing record or adding one.
    pub fn mark_exploration_failed(&mut self, chunk_index: u32, tick: u64)
        ensures
            final(self).known_resources@ == old(self).known_resources@,
            final(self).known_entities@ == old(self).known_entities@,
            final(self).known_chunks@ == old(self).known_chunks@,
            forall|k: int| #[trigger] first_failure_of(old(self).failed_exploration@, chunk_index, k)
                ==> final(self).failed_exploration@ == old(self).failed_exploration@.update(
                k,
                FailedExploration {
                    chunk_index,
                    retry_after_tick: sat_add_u64(tick, FAILED_EXPLORATION_RETRY_TICKS),
                },
            ),
            (forall|i: int| 0 <= i < old(self).failed_exploration@.len()
                ==> #[trigger] old(self).failed_exploration@[i].chunk_index != chunk_index)
                ==> final(self).failed_exploration@ == old(self).failed_exploration@.push(
                FailedExploration {
                    chunk_index,
                    retry_after_tick: sat_add_u64(tick, FAILED_EXPLORATION_RETRY_TICKS),
                },
            ),
    {
        let retry_after_tick = tick.saturating_add(FAILED_EXPLORATION_RETRY_TICKS);
        let ghost old_f = self.failed_exploration@;
        let mut i: usize = 0;
        while i < self.failed_exploration.len()
            invariant
                old_f == self.failed_exploration@,
                self.known_resources@ == old(self).known_resources@,
                self.known_entities@ == old(self).known_entities@,
                self.known_chunks@ == old(self).known_chunks@,
                old_f == old(self).failed_exploration@,
                retry_after_tick == sat_add_u64(tick, FAILED_EXPLORATION_RETRY_TICKS),
                0 <= i <= old_f.len(),
                forall|j: int| 0 <= j < i ==> #[trigger] old_f[j].chunk_index != chunk_index,
            decreases old_f.len() - i,
        {
            if self.failed_exploration[i].chunk_index == chunk_index {
                proof {
                    assert forall|k: int| #[trigger] first_failure_of(old_f, chunk_index, k) implies k == i by {
                        if k < i {
                            assert(old_f[k].chunk_index != chunk_index);
                        } else if k > i {
                            assert(old_f[i as int].chunk_index == chunk_index);
                        }
                    }
                }
                self.failed_exploration.set(i, FailedExploration { chunk_index, retry_after_tick });
                assert(self.failed_exploration@ == old_f.update(
                    i as int,
                    FailedExploration { chunk_index, retry_after_tick },
                ));
                return;
            }
            i += 1;
        }
        proof {
            assert forall|k: int| !#[trigger] first_failure_of(old_f, chunk_index, k) by {
                if 0 <= k < old_f.len() {
                    assert(old_f[k].chunk_index != chunk_index);
                }
            }
        }
        self.failed_exploration.push(FailedExploration { chunk_index, retry_after_tick });
    }

    /// Forgets the failed explorations whose cooldown has ended by `tick`.
    pub fn prune_exploration_failures(&mut self, tick: u64)
        ensures
            final(self).known_resources@ == old(self).known_resources@,
            final(self).known_entities@ == old(self).known_entities@,
            final(self).spec_known_chunks() == old(self).spec_known_chunks(),
            final(self).spec_failed_exploration() == old(self).spec_failed_exploration().filter(
                |f: FailedExploration| tick < f.retry_after_tick,
            ),
    {
        let ghost old_f = self.failed_exploration@;
        let mut kept: Vec<FailedExploration> = Vec::new();
        let mut i: usize = 0;
        while i < self.failed_exploration.len()
            invariant
                old_f == self.failed_exploration@,
                0 <= i <= old_f.len(),
                kept@ == old_f.subrange(0, i as int).filter(|f: FailedExploration| tick < f.retry_after_tick),
            decreases old_f.len() - i,
        {
            let failure = self.failed_exploration[i];
            proof {
                assert(old_f.subrange(0, i + 1).drop_last() =~= old_f.subrange(0, i as int));
                reveal_with_fuel(Seq::<_>::filter, 1);
            }
            if tick < failure.retry_after_tick {
                kept.push(failure);
            }
            i += 1;
        }
        proof {
            assert(old_f.subrange(0, old_f.len() as int) =~= old_f);
        }
        self.failed_exploration = kept;
    }

    pub fn failed_exploration_count(&self) -> (r: usize)
        ensures
            r == self.spec_failed_exploration().len(),
    {
        self.failed_exploration.len()
    }

    /// Affinity toward the acquaintance `entity_id`, if known.
    pub fn affinity_to(&self, entity_id: u32) -> (r: Option<i16>)
        ensures
            r matches Some(a) ==> exists|i: int| 0 <= i < self.known_entities@.len()
                && self.known_entities@[i].id == entity_id && self.known_entities@[i].affinity == a,
            ids_sorted(self.known_entities@) ==> (r is Some <==> exists|i: int| 0 <= i < self.known_entities@.len()
                && self.known_entities@[i].id == entity_id),
    {
        match find_known(&self.known_entities, entity_id) {
            Some(index) => Some(self.known_entities[index].affinity),
            None => None,
        }
    }

    /// Shifts the affinity toward a known acquaintance by `delta`, held in range; false
    /// when the acquaintance is unknown.
    pub fn adjust_affinity(&mut self, entity_id: u32, delta: i16) -> (found: bool)
        ensures
            final(self).known_resources@ == old(self).known_resources@,
            final(self).spec_known_chunks() == old(self).spec_known_chunks(),
            final(self).spec_failed_exploration() == old(self).spec_failed_exploration(),
            found ==> exists|i: int| 0 <= i < old(self).known_entities@.len() && old(self).known_entities@[i].id
                == entity_id && final(self).known_entities@ == old(self).known_entities@.update(
                i,
                KnownEntity {
                    affinity: spec_clamped_affinity(old(self).known_entities@[i].affinity, delta),
                    ..old(self).known_entities@[i]
                },
            ),
            !found ==> final(self).known_entities@ == old(self).known_entities@,
            ids_sorted(old(self).known_entities@) ==> (found <==> exists|i: int| 0 <= i < old(self).known_entities@.len()
                && old(self).known_entities@[i].id == entity_id),
    {
        match find_known(&self.known_entities, entity_id) {
            Some(index) => {
                let mut known = self.known_entities[index];
                known.affinity = clamped_affinity(known.affinity, delta);
                self.known_entities.set(index, known);
                true
            },
            None => false,
        }
    }

    /// Records an interaction with a known acquaintance: shifts affinity, stamps the
    /// time, counts it and clears any seek cooldown. `None` when unknown; otherwise the
    /// band crossing it caused, if any.
    pub fn record_interaction(&mut self, entity_id: u32, tick: u64, affinity_delta: i16) -> (r: Option<
        Option<AffinityChangeRecord>,
    >)
        ensures
            final(self).known_resources@ == old(self).known_resources@,
            final(self).spec_known_chunks() == old(self).spec_known_chunks(),
            final(self).spec_failed_exploration() == old(self).spec_failed_exploration(),
            r is None ==> final(self).known_entities@ == old(self).known_entities@,
            r matches Some(change) ==> exists|i: int| #![trigger old(self).known_entities@[i]] 0 <= i < old(self).known_entities@.len() && {
                let before = old(self).known_entities@[i];
                let after = spec_after_interaction(before, tick, affinity_delta);
                &&& before.id == entity_id
                &&& final(self).known_entities@ == old(self).known_entities@.update(i, after)
                &&& change == if spec_affinity_band(before.affinity) != spec_affinity_band(after.affinity) {
                    Some(
                        AffinityChangeRecord {
                            target_id: entity_id,
                            previous_affinity: before.affinity,
                            new_affinity: after.affinity,
                            delta: spec_affinity_delta(before.affinity, after.affinity),
                        },
                    )
                } else {
                    None
                }
            },
            ids_sorted(old(self).known_entities@) ==> (r is Some <==> exists|i: int| 0 <= i < old(self).known_entities@.len()
                && old(self).known_entities@[i].id == entity_id),
    {
        let index = match find_known(&self.known_entities, entity_id) {
            Some(index) => index,
            None => { return None; },
        };
        let mut known = self.known_entities[index];
        let previous_affinity = known.affinity;
        known.affinity = clamped_affinity(known.affinity, affinity_delta);
        let new_affinity = known.affinity;
        known.last_interaction_tick = tick;
        known.interaction_count = if known.interaction_count < u32::MAX {
            known.interaction_count + 1
        } else {
            known.interaction_count
        };
        known.clear_seek_cooldown();
        self.known_entities.set(index, known);
        if affinity_band(previous_affinity) != affinity_band(new_affinity) {
            Some(
                Some(
                    AffinityChangeRecord {
                        target_id: entity_id,
                        previous_affinity,
                        new_affinity,
                        delta: sat_sub_i16(new_affinity, previous_affinity),
                    },
                ),
            )
        } else {
            Some(None)
        }
    }

    /// Puts a seek cooldown on a known acquaintance; false when unknown.
    pub fn mark_failed_social_seek(&mut self, entity_id: u32, tick: u64) -> (found: bool)
        ensures
            final(self).known_resources@ == old(self).known_resources@,
            final(self).spec_known_chunks() == old(self).spec_known_chunks(),
            final(self).spec_failed_exploration() == old(self).spec_failed_exploration(),
            found ==> exists|i: int| 0 <= i < old(self).known_entities@.len() && old(self).known_entities@[i].id
                == entity_id && final(self).known_entities@ == old(self).known_entities@.update(
                i,
                KnownEntity {
                    seek_retry_after_tick: Some(sat_add_u64(tick, FAILED_SOCIAL_SEEK_RETRY_TICKS)),
                    ..old(self).known_entities@[i]
                },
            ),
            !found ==> final(self).known_entities@ == old(self).known_entities@,
            ids_sorted(old(self).known_entities@) ==> (found <==> exists|i: int| 0 <= i < old(self).known_entities@.len()
                && old(self).known_entities@[i].id == entity_id),
    {
        match find_known(&self.known_entities, entity_id) {
            Some(index) => {
                let mut known = self.known_entities[index];
                known.mark_failed_seek(tick);
                self.known_entities.set(index, known);
                true
            },
            None => false,
        }
    }

    /// Forgets every remembered deposit of `kind` at `position`.
    pub fn forget_resource(&mut self, position: (u32, u32), kind: ResourceKind)
        ensures
            final(self).known_resources@ == spec_forget(old(self).known_resources@, position, kind),
            final(self).known_entities@ == old(self).known_entities@,
            final(self).spec_known_chunks() == old(self).spec_known_chunks(),
            final(self).spec_failed_exploration() == old(self).spec_failed_exploration(),
    {
        let ghost old_r = self.known_resources@;
        let mut kept: Vec<KnownResource> = Vec::new();
        let mut i: usize = 0;
        while i < self.known_resources.len()
            invariant
                old_r == self.known_resources@,
                0 <= i <= old_r.len(),
                kept@ == spec_forget(old_r.subrange(0, i as int), position, kind),
            decreases old_r.len() - i,
        {
            let known = self.known_resources[i];
            proof {
                assert(old_r.subrange(0, i + 1).drop_last() =~= old_r.subrange(0, i as int));
                reveal_with_fuel(Seq::<_>::filter, 1);
            }
            if !(known.x == position.0 && known.y == position.1 && known.kind == kind) {
                kept.push(known);
            }
            i += 1;
        }
        proof {
            assert(old_r.subrange(0, old_r.len() as int) =~= old_r);
        }
        self.known_resources = kept;
    }

    /// Counts a failed attempt on the first remembered deposit at `position` and avoids
    /// it for `FAILED_TARGET_RETRY_TICKS`.
    pub fn mark_unreachable(&mut self, position: (u32, u32), tick: u64)
        ensures
            final(self).known_entities@ == old(self).known_entities@,
            final(self).known_chunks@ == old(self).known_chunks@,
            final(self).failed_exploration@ == old(self).failed_exploration@,
            forall|k: int| #[trigger] first_resource_at(old(self).known_resources@, position, None, k)
                ==> final(self).known_resources@ == old(self).known_resources@.update(
                k,
                KnownResource {
                    failed_attempts: if old(self).known_resources@[k].failed_attempts == u16::MAX {
                        u16::MAX
                    } else {
                        (old(self).known_resources@[k].failed_attempts + 1) as u16
                    },
                    avoid_until_tick: sat_add_u64(tick, FAILED_TARGET_RETRY_TICKS),
                    ..old(self).known_resources@[k]
                },
            ),
            (forall|i: int| 0 <= i < old(self).known_resources@.len()
                ==> !#[trigger] resource_matches(old(self).known_resources@[i], position, None))
                ==> final(self).known_resources@ == old(self).known_resources@,
    {
        let ghost old_r = self.known_resources@;
        let mut i: usize = 0;
        while i < self.known_resources.len()
            invariant
                old_r == self.known_resources@,
                old_r == old(self).known_resources@,
                self.known_entities@ == old(self).known_entities@,
                self.known_chunks@ == old(self).known_chunks@,
                self.failed_exploration@ == old(self).failed_exploration@,
                0 <= i <= old_r.len(),
                forall|j: int| 0 <= j < i ==> !#[trigger] resource_matches(old_r[j], position, None),
            decreases old_r.len() - i,
        {
            let known = self.known_resources[i];
            if known.x == position.0 && known.y == position.1 {
                proof {
                    assert(resource_matches(old_r[i as int], position, None));
                    assert forall|k: int| #[trigger] first_resource_at(old_r, position, None, k) implies k == i by {
                        if k < i {
                            assert(!resource_matches(old_r[k], position, None));
                        }
                    }
                }
                let mut updated = known;
                updated.failed_attempts = updated.failed_attempts.saturating_add(1);
                updated.avoid_until_tick = tick.saturating_add(FAILED_TARGET_RETRY_TICKS);
                self.known_resources.set(i, updated);
                return;
            }
            i += 1;
        }
    }

    /// Refreshes the first remembered deposit of `kind` at `position` with a new sighting
    /// of `amount`; a zero amount forgets it instead.
    pub fn update_known_amount(&mut self, position: (u32, u32), kind: ResourceKind, amount: u16, tick: u64)
        ensures
            final(self).known_entities@ == old(self).known_entities@,
            final(self).known_chunks@ == old(self).known_chunks@,
            final(self).failed_exploration@ == old(self).failed_exploration@,
            amount == 0 ==> final(self).known_resources@ == spec_forget(old(self).known_resources@, position, kind),
            amount != 0 ==> forall|k: int| #[trigger] first_resource_at(old(self).known_resources@, position, Some(kind), k)
                ==> final(self).known_resources@ == old(self).known_resources@.update(
                k,
                KnownResource {
                    estimated_amount: amount,
                    last_seen_tick: tick,
                    failed_attempts: 0,
                    avoid_until_tick: 0,
                    ..old(self).known_resources@[k]
                },
            ),
            amount != 0 && (forall|i: int| 0 <= i < old(self).known_resources@.len()
                ==> !#[trigger] resource_matches(old(self).known_resources@[i], position, Some(kind)))
                ==> final(self).known_resources@ == old(self).known_resources@,
    {
        if amount == 0 {
            self.forget_resource(position, kind);
            return;
        }
        let ghost old_r = self.known_resources@;
        let mut i: usize = 0;
        while i < self.known_resources.len()
            invariant
                old_r == self.known_resources@,
                old_r == old(self).known_resources@,
                self.known_entities@ == old(self).known_entities@,
                self.known_chunks@ == old(self).known_chunks@,
                self.failed_exploration@ == old(self).failed_exploration@,
                0 <= i <= old_r.len(),
                forall|j: int| 0 <= j < i ==> !#[trigger] resource_matches(old_r[j], position, Some(kind)),
                amount != 0,
            decreases old_r.len() - i,
        {
            let known = self.known_resources[i];
            if known.x == position.0 && known.y == position.1 && known.kind == kind {
                proof {
                    assert(resource_matches(old_r[i as int], position, Some(kind)));
                    assert forall|k: int| #[trigger] first_resource_at(old_r, position, Some(kind), k) implies k == i by {
                        if k < i {
                            assert(!resource_matches(old_r[k], position, Some(kind)));
                        }
                    }
                }
                let mut updated = known;
                updated.estimated_amount = amount;
                updated.last_seen_tick = tick;
                updated.failed_attempts = 0;
                updated.avoid_until_tick = 0;
                self.known_resources.set(i, updated);
                return;
            }
            i += 1;
        }
    }

    /// The remembered deposits of `kind` worth heading for, nearest first, then freshest.
    pub fn remembered_targets(&self, origin: (u32, u32), tick: u64, kind: ResourceKind) -> (r: Vec<
        RememberedTarget,
    >)
        ensures
            targets_sorted(r@),
            r@.to_multiset() == spec_targets(self.known_resources@, origin, tick, kind).to_multiset(),
    {
        let mut targets: Vec<RememberedTarget> = Vec::new();
        let ghost known = self.known_resources@;
        let mut i: usize = 0;
        while i < self.known_resources.len()
            invariant
                known == self.known_resources@,
                0 <= i <= known.len(),
                targets_sorted(targets@),
                targets@.to_multiset() == spec_targets(known.subrange(0, i as int), origin, tick, kind).to_multiset(),
            decreases known.len() - i,
        {
            let k = self.known_resources[i];
            proof {
                assert(known.subrange(0, i + 1).drop_last() =~= known.subrange(0, i as int));
                assert(known.subrange(0, i + 1).last() == k);
            }
            if k.kind == kind && k.estimated_amount > 0 && tick >= k.avoid_until_tick {
                let dx: u64 = if origin.0 >= k.x { (origin.0 - k.x) as u64 } else { (k.x - origin.0) as u64 };
                let dy: u64 = if origin.1 >= k.y { (origin.1 - k.y) as u64 } else { (k.y - origin.1) as u64 };
                let t: RememberedTarget = (dx + dy, tick.saturating_sub(k.last_seen_tick), (k.x, k.y));
                proof {
                    vstd::seq_lib::to_multiset_build(
                        spec_targets(known.subrange(0, i as int), origin, tick, kind),
                        t,
                    );
                }
                insert_sorted(&mut targets, t);
            }
            i += 1;
        }
        proof {
            assert(known.subrange(0, known.len() as int) =~= known);
        }
        targets
    }
}

impl Default for Memory {
    fn default() -> (r: Self)
        ensures
            r.known_resources@.len() == 0,
            r.known_entities@.len() == 0,
            r.known_chunks@.len() == 0,
            r.failed_exploration@.len() == 0,
    {
        Memory::new()
    }
}

/// An individual's current intent and what it remembers.
#[derive(Clone, Debug)]
pub struct Mind {
    pub perception_radius: u32,
    pub memory: Memory,
    pub current_goal: Option<Goal>,
    pub current_plan: Vec<Action>,
    pub plan_index: usize,
    pub goal_since_tick: u64,
    pub visible_entities: Vec<u32>,
}

impl Mind {
    pub fn new() -> (r: Self)
        ensures
            r.perception_radius == DEFAULT_PERCEPTION_RADIUS,
            r.memory.known_resources@.len() == 0,
            r.memory.known_entities@.len() == 0,
            r.memory.known_chunks@.len() == 0,
            r.memory.failed_exploration@.len() == 0,
            r.current_goal is None,
            r.current_plan@.len() == 0,
            r.plan_index == 0,
            r.goal_since_tick == 0,
            r.visible_entities@.len() == 0,
    {
        Mind {
            perception_radius: DEFAULT_PERCEPTION_RADIUS,
            memory: Memory::new(),
            current_goal: None,
            current_plan: Vec::new(),
            plan_index: 0,
            goal_since_tick: 0,
            visible_entities: Vec::new(),
        }
    }

    pub fn current_action(&self) -> (r: Option<Action>)
        ensures
            r == if self.plan_index < self.current_plan@.len() {
                Some(self.current_plan@[self.plan_index as int])
            } else {
                None
            },
    {
        if self.plan_index < self.current_plan.len() {
            Some(self.current_plan[self.plan_index])
        } else {
            None
        }
    }

    pub fn advance_action(&mut self)
        ensures
            final(self).plan_index == if old(self).plan_index == usize::MAX {
                usize::MAX
            } else {
                (old(self).plan_index + 1) as usize
            },
            final(self).current_plan@ == old(self).current_plan@,
            final(self).current_goal == old(self).current_goal,
            final(self).goal_since_tick == old(self).goal_since_tick,
            same_outlook(*old(self), *final(self)),
    {
        self.plan_index = self.plan_index.saturating_add(1);
    }

    pub fn clear_goal(&mut self)
        ensures
            final(self).current_goal is None,
            final(self).current_plan@.len() == 0,
            final(self).plan_index == 0,
            final(self).goal_since_tick == old(self).goal_since_tick,
            same_outlook(*old(self), *final(self)),
    {
        self.current_goal = None;
        self.current_plan.clear();
        self.plan_index = 0;
    }

    /// Adopts `goal` with `actions`; the goal's start tick moves only when the goal changes.
    pub fn set_plan(&mut self, goal: Goal, actions: Vec<Action>, tick: u64)
        ensures
            final(self).current_goal == Some(goal),
            final(self).current_plan@ == actions@,
            final(self).plan_index == 0,
            final(self).goal_since_tick == if old(self).current_goal == Some(goal) {
                old(self).goal_since_tick
            } else {
                tick
            },
            same_outlook(*old(self), *final(self)),
    {
        let goal_changed = match self.current_goal {
            Some(current) => current != goal,
            None => true,
        };
        self.current_goal = Some(goal);
        self.current_plan = actions;
        self.plan_index = 0;
        if goal_changed {
            self.goal_since_tick = tick;
        }
    }

    /// Remembered food worth heading for, nearest first, then freshest.
    pub fn remembered_food_targets(&self, origin: (u32, u32), tick: u64) -> (r: Vec<RememberedTarget>)
        ensures
            targets_sorted(r@),
            r@.to_multiset() == spec_targets(self.memory.known_resources@, origin, tick, ResourceKind::Food).to_multiset(),
    {
        self.memory.remembered_targets(origin, tick, ResourceKind::Food)
    }

    /// Remembered deposits of `kind` worth heading for, nearest first, then freshest.
    pub fn remembered_resource_targets(&self, origin: (u32, u32), tick: u64, kind: ResourceKind) -> (r: Vec<
        RememberedTarget,
    >)
        ensures
            targets_sorted(r@),
            r@.to_multiset() == spec_targets(self.memory.known_resources@, origin, tick, kind).to_multiset(),
    {
        self.memory.remembered_targets(origin, tick, kind)
    }
}

/// What a change of plan leaves alone: the memory, the perception radius and what is in
/// view.
pub open spec fn same_outlook(before: Mind, after: Mind) -> bool {
    &&& after.memory.known_resources@ == before.memory.known_resources@
    &&& after.memory.known_chunks@ == before.memory.known_chunks@
    &&& after.memory.failed_exploration@ == before.memory.failed_exploration@
    &&& after.memory.known_entities@ == before.memory.known_entities@
    &&& after.perception_radius == before.perception_radius
    &&& after.visible_entities@ == before.visible_entities@
}

impl Default for Mind {
    fn default() -> (r: Self)
        ensures
            r.perception_radius == DEFAULT_PERCEPTION_RADIUS,
            r.memory.known_resources@.len() == 0,
            r.memory.known_entities@.len() == 0,
            r.memory.known_chunks@.len() == 0,
            r.memory.failed_exploration@.len() == 0,
            r.current_goal is None,
            r.current_plan@.len() == 0,
            r.plan_index == 0,
            r.goal_since_tick == 0,
            r.visible_entities@.len() == 0,
    {
        Mind::new()
    }
}

#[derive(Clone, Copy, Debug, PartialEq, Eq, Structural)]
pub enum DecisionReason {
    HighestUtility,
    GoalPersistence,
    DependentNeedsFood,
    DependentFollowsCaregiver,
    DependentProvisioning,
    DependentProtection,
    HouseholdMigration,
}

impl DecisionReason {
    pub fn label(self) -> (r: &'static str)
        ensures
            r@ == (match self {
                DecisionReason::HighestUtility => "highest_utility"@,
                DecisionReason::GoalPersistence => "goal_persistence"@,
                DecisionReason::DependentNeedsFood => "dependent_needs_food"@,
                DecisionReason::DependentFollowsCaregiver => "dependent_follows_caregiver"@,
                DecisionReason::DependentProvisioning => "dependent_provisioning"@,
                DecisionReason::DependentProtection => "dependent_protection"@,
                DecisionReason::HouseholdMigration => "household_migration"@,
            }),
    {
        match self {
            DecisionReason::HighestUtility => "highest_utility",
            DecisionReason::GoalPersistence => "goal_persistence",
            DecisionReason::DependentNeedsFood => "dependent_needs_food",
            DecisionReason::DependentFollowsCaregiver => "dependent_follows_caregiver",
            DecisionReason::DependentProvisioning => "dependent_provisioning",
            DecisionReason::DependentProtection => "dependent_protection",
            DecisionReason::HouseholdMigration => "household_migration",
        }
    }
}

/// A daily decay pass moves an affinity one step toward neutral once thirty days have
/// passed since the last interaction, never past neutral, and changes nothing else; a
/// more recent acquaintance is left as it is.
pub proof fn lemma_decay_toward_neutral(known: KnownEntity, tick: u64)
    ensures
        known.affinity >= 0 ==> 0 <= spec_decayed(known, tick).affinity <= known.affinity,
        known.affinity <= 0 ==> known.affinity <= spec_decayed(known, tick).affinity <= 0,
        tick - known.last_interaction_tick >= RELATIONSHIP_DECAY_START_TICKS && known.affinity > 0
            ==> spec_decayed(known, tick).affinity == known.affinity - 1,
        tick - known.last_interaction_tick >= RELATIONSHIP_DECAY_START_TICKS && known.affinity < 0
            ==> spec_decayed(known, tick).affinity == known.affinity + 1,
        tick - known.last_interaction_tick < RELATIONSHIP_DECAY_START_TICKS ==> spec_decayed(known, tick) == known,
        spec_decayed(known, tick) == (KnownEntity { affinity: spec_decayed(known, tick).affinity, ..known }),
{
}

/// An interaction leaves the affinity inside the affinity range and restarts the decay
/// clock: a decay pass less than thirty days later changes nothing.
pub proof fn lemma_interaction_resets_decay(known: KnownEntity, tick: u64, delta: i16, later: u64)
    requires
        tick <= later,
        later - tick < RELATIONSHIP_DECAY_START_TICKS,
    ensures
        MIN_AFFINITY <= spec_after_interaction(known, tick, delta).affinity <= MAX_AFFINITY,
        spec_decayed(spec_after_interaction(known, tick, delta), later) == spec_after_interaction(known, tick, delta),
{
}

/// The relationship decay threshold is thirty days.
pub proof fn lemma_decay_start_is_thirty_days()
    ensures
        RELATIONSHIP_DECAY_START_TICKS == 30 * TICKS_PER_DAY,
{
}

} // verus!
