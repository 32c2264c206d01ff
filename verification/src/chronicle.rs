//! Reading the recent history back: newest first, optionally about one individual,
//! with labels and a relative time for each event.
use vstd::prelude::*;
use vstd::string::StringExecFns;
use crate::events::{
    decimal_text, involves, u64_to_string, RecentEventHistory, SimulationEvent, SimulationEventCause,
    SimulationEventKind,
};

verus! {

/// How long ago `event_tick` was at `current_tick`: "just now", hours below a day,
/// days below a year, else years.
pub open spec fn spec_relative_time(current_tick: u64, event_tick: u64) -> Seq<char> {
    let elapsed = if current_tick >= event_tick { (current_tick - event_tick) as u64 } else { 0u64 };
    if elapsed == 0 {
        "just now"@
    } else if elapsed < 24 {
        decimal_text(elapsed) + "h ago"@
    } else if elapsed / 24 < 365 {
        decimal_text((elapsed / 24) as u64) + "d ago"@
    } else {
        decimal_text((elapsed / 24 / 365) as u64) + "y ago"@
    }
}

/// The relative time of an event, as shown next to it.
pub fn relative_event_time(current_tick: u64, event_tick: u64) -> (r: String)
    ensures
        r@ == spec_relative_time(current_tick, event_tick),
{
    let elapsed = current_tick.saturating_sub(event_tick);
    if elapsed == 0 {
        String::from_str("just now")
    } else if elapsed < 24 {
        u64_to_string(elapsed).concat("h ago")
    } else {
        let days = elapsed / 24;
        if days < 365 {
            u64_to_string(days).concat("d ago")
        } else {
            u64_to_string(days / 365).concat("y ago")
        }
    }
}

/// The label of an event kind.
pub open spec fn spec_kind_label(kind: SimulationEventKind) -> Seq<char> {
    match kind {
        SimulationEventKind::Interaction => "interaction"@,
        SimulationEventKind::Birth => "birth"@,
        SimulationEventKind::Death => "death"@,
        SimulationEventKind::Consumption => "consumption"@,
        SimulationEventKind::Discovery => "discovery"@,
        SimulationEventKind::Encounter => "encounter"@,
        SimulationEventKind::AffinityChange => "affinity_change"@,
        SimulationEventKind::FoodShared | SimulationEventKind::FoodShareRefused => "food_shared"@,
        SimulationEventKind::PartnershipFormed => "partnership_formed"@,
        SimulationEventKind::PartnershipDissolved => "partnership_dissolved"@,
    }
}

pub fn kind_label(kind: SimulationEventKind) -> (r: &'static str)
    ensures
        r@ == spec_kind_label(kind),
{
    match kind {
        SimulationEventKind::Interaction => "interaction",
        SimulationEventKind::Birth => "birth",
        SimulationEventKind::Death => "death",
        SimulationEventKind::Consumption => "consumption",
        SimulationEventKind::Discovery => "discovery",
        SimulationEventKind::Encounter => "encounter",
        SimulationEventKind::AffinityChange => "affinity_change",
        SimulationEventKind::FoodShared | SimulationEventKind::FoodShareRefused => "food_shared",
        SimulationEventKind::PartnershipFormed => "partnership_formed",
        SimulationEventKind::PartnershipDissolved => "partnership_dissolved",
    }
}

/// The label of an event cause.
pub open spec fn spec_cause_label(cause: SimulationEventCause) -> Seq<char> {
    match cause {
        SimulationEventCause::MutualSocialContact => "mutual_social_contact"@,
        SimulationEventCause::Born => "born"@,
        SimulationEventCause::Starvation => "starvation"@,
        SimulationEventCause::NaturalDeath => "natural_death"@,
        SimulationEventCause::AteFood => "ate_food"@,
        SimulationEventCause::ResourceFound => "resource_found"@,
        SimulationEventCause::FirstEncounter => "first_encounter"@,
        SimulationEventCause::RelationshipDecay => "relationship_decay"@,
        SimulationEventCause::FoodShared => "food_shared"@,
        SimulationEventCause::FoodShareRefused => "food_share_refused"@,
        SimulationEventCause::MutualCommitment => "mutual_commitment"@,
    }
}

pub fn cause_label(cause: SimulationEventCause) -> (r: &'static str)
    ensures
        r@ == spec_cause_label(cause),
{
    match cause {
        SimulationEventCause::MutualSocialContact => "mutual_social_contact",
        SimulationEventCause::Born => "born",
        SimulationEventCause::Starvation => "starvation",
        SimulationEventCause::NaturalDeath => "natural_death",
        SimulationEventCause::AteFood => "ate_food",
        SimulationEventCause::ResourceFound => "resource_found",
        SimulationEventCause::FirstEncounter => "first_encounter",
        SimulationEventCause::RelationshipDecay => "relationship_decay",
        SimulationEventCause::FoodShared => "food_shared",
        SimulationEventCause::FoodShareRefused => "food_share_refused",
        SimulationEventCause::MutualCommitment => "mutual_commitment",
    }
}

/// One event as listed: where it sits in the history (oldest first), how long ago it
/// happened, and its labels.
pub struct EventListing {
    pub index: usize,
    pub relative_time: String,
    pub kind: &'static str,
    pub cause: &'static str,
}

/// The event is shown for the filter: every event without one, else those involving the
/// individual.
pub open spec fn shown(event: SimulationEvent, entity: Option<u32>) -> bool {
    match entity {
        Some(id) => involves(event, id),
        None => true,
    }
}

/// The kept events shown for `entity`, newest first, each with its relative time at
/// `current_tick` and its labels.
pub fn event_listing(history: &RecentEventHistory, current_tick: u64, entity: Option<u32>) -> (r: Vec<EventListing>)
    ensures
        forall|k: int, l: int| 0 <= k < l < r@.len() ==> r@[k].index > r@[l].index,
        forall|k: int|
            #![trigger r@[k]]
            0 <= k < r@.len() ==> {
                let e = history.spec_events()[r@[k].index as int];
                &&& r@[k].index < history.spec_events().len()
                &&& shown(e, entity)
                &&& r@[k].relative_time@ == spec_relative_time(current_tick, e.tick)
                &&& r@[k].kind@ == spec_kind_label(e.kind)
                &&& r@[k].cause@ == spec_cause_label(e.cause)
            },
        forall|i: int|
            0 <= i < history.spec_events().len() && shown(#[trigger] history.spec_events()[i], entity) ==> exists|k: int|
                0 <= k < r@.len() && r@[k].index == i,
{
    let mut listing: Vec<EventListing> = Vec::new();
    let n = history.len();
    let mut i: usize = n;
    while i > 0
        invariant
            i <= n == history.spec_events().len(),
            forall|k: int, l: int| 0 <= k < l < listing@.len() ==> listing@[k].index > listing@[l].index,
            forall|k: int| 0 <= k < listing@.len() ==> listing@[k].index >= i,
            forall|k: int|
                #![trigger listing@[k]]
                0 <= k < listing@.len() ==> {
                    let e = history.spec_events()[listing@[k].index as int];
                    &&& listing@[k].index < n
                    &&& shown(e, entity)
                    &&& listing@[k].relative_time@ == spec_relative_time(current_tick, e.tick)
                    &&& listing@[k].kind@ == spec_kind_label(e.kind)
                    &&& listing@[k].cause@ == spec_cause_label(e.cause)
                },
            forall|j: int|
                i <= j < n && shown(#[trigger] history.spec_events()[j], entity) ==> exists|k: int|
                    0 <= k < listing@.len() && listing@[k].index == j,
        decreases i,
    {
        i -= 1;
        let event = history.get(i);
        let wanted = match entity {
            Some(id) => involves_id(event, id),
            None => true,
        };
        let ghost before = listing@;
        if wanted {
            listing.push(
                EventListing {
                    index: i,
                    relative_time: relative_event_time(current_tick, event.tick),
                    kind: kind_label(event.kind),
                    cause: cause_label(event.cause),
                },
            );
        }
        proof {
            assert forall|j: int|
                i <= j < n && shown(#[trigger] history.spec_events()[j], entity) implies exists|k: int|
                    0 <= k < listing@.len() && listing@[k].index == j by {
                if j == i {
                    assert(listing@[listing@.len() - 1].index == i);
                } else {
                    let k = choose|k: int| 0 <= k < before.len() && before[k].index == j;
                    assert(listing@[k] == before[k]);
                }
            }
        }
    }
    listing
}

fn involves_id(event: &SimulationEvent, id: u32) -> (r: bool)
    ensures
        r == involves(*event, id),
{
    if event.actor_id == id {
        return true;
    }
    if let Some(target) = event.target_id {
        if target == id {
            return true;
        }
    }
    let mut j: usize = 0;
    while j < event.related_entity_ids.len()
        invariant
            j <= event.related_entity_ids@.len(),
            event.actor_id != id,
            event.target_id != Some(id),
            forall|m: int| 0 <= m < j ==> event.related_entity_ids@[m] != id,
        decreases event.related_entity_ids@.len() - j,
    {
        if event.related_entity_ids[j] == id {
            return true;
        }
        j += 1;
    }
    false
}

} // verus!
