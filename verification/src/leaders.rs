//! Who leads which slot, asked over RPC rather than deduced from the wire.
//!
//! A shred names its slot but never its author, and the signature it carries
//! cannot be resolved back to a pubkey without already knowing the candidate.
//! So the schedule comes from a validator's RPC, fetched in windows large
//! enough that one request covers minutes of slots.
//!
//! It is used for two things. It is republished as a gauge keyed by the
//! sniper's *own* notion of the current slot, to lay delivery quality over who
//! was producing what we were receiving. And it is the candidate the signature
//! above needs: knowing who should have produced a slot is what turns the
//! signature every shred carries from an unreadable 64 bytes into the only
//! thing on the wire that distinguishes a leader from anyone who knows our
//! address.

use crate::addresses::{address_text, write_address};
use crate::clock::{between, passed, MILLISECOND};
use crate::text::{alike, ascending, enlist, told};
use vstd::prelude::*;

verus! {

/// Slots fetched per request — minutes of schedule on a 400 ms slot. Clamped
/// to one epoch at fetch time because only the current and the next epoch have
/// a schedule at all.
pub const WINDOW_SLOTS: u64 = 512;

/// A cluster gets through a slot no faster than this. Half of what a slot is
/// meant to take, so that a window gone stale behind a dead RPC errs towards
/// believing what the wire says.
pub const FASTEST_SLOT: u64 = 200 * MILLISECOND;

/// How far outside the window a slot may lie before it is taken for a lie:
/// behind it, stragglers of slots already left, and ahead of it, whatever the
/// sniper's own notion of the current slot was out by when it asked.
pub const SLACK_SLOTS: u64 = WINDOW_SLOTS;

/// A run of slots and who leads them.
pub struct Window {
    pub start: u64,
    pub leaders: Vec<[u8; 32]>,
    /// The distinct leaders of the window by name and in order of their names,
    /// kept so every tick can push an explicit zero to whoever is not leading.
    pub roster: Vec<String>,
    /// When the window was asked for.
    pub fetched: u64,
}

/// The schedule as the packet path sees it: one lookup, no RPC. `None` from
/// [`Self::leader`] means the schedule cannot answer for that slot — the window
/// has not arrived, or has moved past it — which is a different thing from the
/// slot having no leader, and the caller has to treat it as such.
pub struct Schedule {
    pub window: Option<Window>,
}

/// Whether someone leads the current slot.
pub struct Standing {
    pub leader: String,
    pub leading: bool,
}

/// What addresses display themselves as.
pub open spec fn names(leaders: Seq<[u8; 32]>) -> Seq<Seq<char>> {
    leaders.map_values(|leader: [u8; 32]| address_text(leader@))
}

impl Default for Schedule {
    fn default() -> (schedule: Schedule)
        ensures
            schedule.window is None,
    {
        Schedule { window: None }
    }
}

impl Window {
    /// Who leads a slot, as far as the window reaches.
    pub open spec fn leader_of(self, slot: int) -> Option<[u8; 32]> {
        if self.start <= slot < self.start + self.leaders@.len() {
            Some(self.leaders@[slot - self.start])
        } else {
            None
        }
    }

    /// Whether no slot the cluster can be at is this one: it lies before the
    /// window, or further past it than slots can have gone by since, with slack
    /// either way.
    pub open spec fn out_of_reach(self, slot: int, now: u64) -> bool {
        ||| slot + SLACK_SLOTS < self.start
        ||| slot >= self.start + self.leaders@.len() + passed(self.fetched, now) / FASTEST_SLOT
            + SLACK_SLOTS
    }

    /// Slots of the window that are still to come at `slot`.
    pub open spec fn left_at(self, slot: int) -> int {
        if self.start + self.leaders@.len() >= slot {
            self.start + self.leaders@.len() - slot
        } else {
            0
        }
    }

    pub fn leader(&self, slot: u64) -> (leader: Option<&[u8; 32]>)
        ensures
            leader is Some <==> self.leader_of(slot as int) is Some,
            leader matches Some(leader) ==> self.leader_of(slot as int) == Some(*leader),
    {
        if slot < self.start || slot - self.start >= self.leaders.len() as u64 {
            return None;
        }
        Some(&self.leaders[(slot - self.start) as usize])
    }

    /// A refresh is due before the window actually runs out, so one failed
    /// fetch costs a retry rather than a blind stretch of slots.
    pub fn refresh_due(&self, slot: u64) -> (due: bool)
        ensures
            due == (slot < self.start || self.left_at(slot as int) <= self.leaders@.len() / 4),
    {
        let len: u64 = self.leaders.len() as u64;
        slot < self.start || len.saturating_sub(slot - self.start) <= len / 4
    }

    /// The window fetched at `fetched` with `leaders` beginning at `start`.
    pub fn new(start: u64, leaders: Vec<[u8; 32]>, fetched: u64) -> (window: Window)
        ensures
            window.start == start,
            window.leaders == leaders,
            window.fetched == fetched,
            ascending(told(window.roster@)),
            told(window.roster@).to_set() == names(leaders@).to_set(),
    {
        let mut roster: Vec<String> = Vec::new();
        let mut i: usize = 0;
        assert(told(roster@).to_set() =~= names(leaders@.take(0)).to_set());
        while i < leaders.len()
            invariant
                i <= leaders@.len(),
                ascending(told(roster@)),
                told(roster@).to_set() == names(leaders@.take(i as int)).to_set(),
            decreases leaders@.len() - i,
        {
            let name = write_address(&leaders[i]);
            proof {
                let seen = names(leaders@.take(i as int));
                assert(names(leaders@.take(i + 1)) =~= seen.push(name@));
                crate::maps::lemma_push_contains(seen, name@);
                assert(seen.push(name@).to_set() =~= seen.to_set().insert(name@));
            }
            enlist(&mut roster, name);
            i = i + 1;
        }
        assert(leaders@.take(i as int) =~= leaders@);
        Window { start, leaders, roster, fetched }
    }

    /// Who of the window's leaders leads `slot` and who does not, to be
    /// published. Nothing where the window does not reach the slot.
    pub fn standings(&self, slot: u64) -> (standings: Vec<Standing>)
        ensures
            self.leader_of(slot as int) is None ==> standings@.len() == 0,
            self.leader_of(slot as int) matches Some(current) ==> {
                &&& standings@.len() == self.roster@.len()
                &&& forall|i: int|
                    0 <= i < standings@.len() ==> (#[trigger] standings@[i]).leader@
                        == self.roster@[i]@ && standings@[i].leading == (self.roster@[i]@
                        == address_text(current@))
            },
    {
        let mut standings: Vec<Standing> = Vec::new();
        let current = match self.leader(slot) {
            Some(current) => write_address(current),
            None => {
                return standings;
            },
        };
        let mut i: usize = 0;
        while i < self.roster.len()
            invariant
                i <= self.roster@.len(),
                standings@.len() == i,
                forall|j: int|
                    0 <= j < i ==> (#[trigger] standings@[j]).leader@ == self.roster@[j]@
                        && standings@[j].leading == (self.roster@[j]@ == current@),
            decreases self.roster@.len() - i,
        {
            let leader = self.roster[i].clone();
            let leading = alike(leader.as_str(), current.as_str());
            standings.push(Standing { leader, leading });
            i = i + 1;
        }
        standings
    }
}

/// How many slots of schedule to ask for. Capping the window at one epoch means
/// that, starting anywhere in the current epoch, it can never reach past the end
/// of the next — the last one the RPC has a schedule for.
pub fn window_len(slots_in_epoch: u64) -> (len: u64)
    ensures
        len == if slots_in_epoch <= WINDOW_SLOTS {
            slots_in_epoch
        } else {
            WINDOW_SLOTS
        },
{
    if slots_in_epoch <= WINDOW_SLOTS {
        slots_in_epoch
    } else {
        WINDOW_SLOTS
    }
}

impl Schedule {
    /// Who leads a slot, where the schedule can answer for it.
    pub open spec fn leader_of(self, slot: int) -> Option<[u8; 32]> {
        match self.window {
            Some(window) => window.leader_of(slot),
            None => None,
        }
    }

    /// Whether a slot the schedule cannot answer for is one the cluster cannot
    /// be at either. Without a window nothing is.
    pub open spec fn out_of_reach(self, slot: int, now: u64) -> bool {
        self.window matches Some(window) && window.out_of_reach(slot, now)
    }

    /// Whether there is a window to be fetched for `slot`. Zero means the
    /// pipeline has not anchored on a slot yet; there is nothing to look up a
    /// leader for.
    pub fn fetch_due(&self, slot: u64) -> (due: bool)
        ensures
            due == (slot != 0 && match self.window {
                Some(window) => slot < window.start || window.left_at(slot as int)
                    <= window.leaders@.len() / 4,
                None => true,
            }),
    {
        slot != 0 && match &self.window {
            Some(window) => window.refresh_due(slot),
            None => true,
        }
    }

    pub fn leader(&self, slot: u64) -> (leader: Option<[u8; 32]>)
        ensures
            leader == self.leader_of(slot as int),
    {
        match &self.window {
            Some(window) => match window.leader(slot) {
                Some(leader) => Some(*leader),
                None => None,
            },
            None => None,
        }
    }

    /// Whether a shred that claims this slot is false for that reason alone.
    ///
    /// The window's edges are read as a claim of their own: a slot further from
    /// it than the cluster can have got to in the time since it was fetched is
    /// one nobody is leading. What lies nearer than that may be true, and a
    /// schedule that was never fetched says nothing about any slot.
    pub fn implausible(&self, slot: u64, now: u64) -> (implausible: bool)
        ensures
            implausible == self.out_of_reach(slot as int, now),
    {
        match &self.window {
            Some(window) => {
                let slot: u128 = slot as u128;
                let start: u128 = window.start as u128;
                let since: u128 = (between(window.fetched, now) / FASTEST_SLOT) as u128;
                let reach: u128 = start + window.leaders.len() as u128 + since + SLACK_SLOTS as u128;
                slot + (SLACK_SLOTS as u128) < start || slot >= reach
            },
            None => false,
        }
    }

    /// A schedule that answers for one stretch of slots, as of the moment the
    /// clock was started. Nobody is on its roster, so it has nothing to publish.
    pub fn fixed(start: u64, leaders: Vec<[u8; 32]>) -> (schedule: Schedule)
        ensures
            schedule.window matches Some(window) && window.start == start && window.leaders
                == leaders && window.roster@.len() == 0 && window.fetched == 0,
    {
        Schedule { window: Some(Window { start, leaders, roster: Vec::new(), fetched: 0 }) }
    }
}

/// A slot the window answers for is never taken for a lie.
pub proof fn an_answerable_slot_is_within_reach(schedule: Schedule, slot: int, now: u64)
    requires
        schedule.leader_of(slot) is Some,
    ensures
        !schedule.out_of_reach(slot, now),
{
}

/// As time goes by the cluster can only have got further: a slot that could have
/// been reached stays one.
pub proof fn reach_only_grows(schedule: Schedule, slot: int, now: u64, later: u64)
    requires
        now <= later,
        !schedule.out_of_reach(slot, now),
    ensures
        !schedule.out_of_reach(slot, later),
{
}

/// A window answers for the slots it was fetched for and for no others, each with
/// whoever it says leads it.
pub proof fn a_window_answers_for_its_own_slots(window: Window, slot: u64, i: int)
    ensures
        0 <= i < window.leaders@.len() && slot == window.start + i ==> window.leader_of(slot as int)
            == Some(window.leaders@[i]),
        slot < window.start || slot >= window.start + window.leaders@.len() ==> window.leader_of(
            slot as int,
        ) is None,
{
}

/// A window is due for a refresh once three quarters of it have gone by, and for a
/// slot before it.
pub proof fn a_window_is_due_in_its_last_quarter(window: Window, slot: u64, due: bool)
    requires
        call_ensures(Window::refresh_due, (&window, slot), due),
    ensures
        due <==> slot < window.start || 4 * (window.start + window.leaders@.len() - slot)
            <= window.leaders@.len(),
{
}

/// No more is asked for than an epoch, nor than 512 slots, and no less than both
/// allow.
pub proof fn a_request_stays_within_an_epoch(slots_in_epoch: u64, len: u64)
    requires
        call_ensures(window_len, (slots_in_epoch,), len),
    ensures
        len <= slots_in_epoch,
        len <= 512,
        len == slots_in_epoch || len == 512,
{
}

/// A window is fetched once there is a slot to fetch it for: where there is none yet,
/// and where the one there is has run to its last quarter.
pub proof fn a_window_is_fetched_when_it_is_needed(schedule: Schedule, slot: u64, due: bool)
    requires
        call_ensures(Schedule::fetch_due, (&schedule, slot), due),
    ensures
        slot == 0 ==> !due,
        slot != 0 && schedule.window is None ==> due,
        slot != 0 && schedule.window is Some ==> (due <==> slot < schedule.window->0.start || 4 * (
        schedule.window->0.start + schedule.window->0.leaders@.len() - slot)
            <= schedule.window->0.leaders@.len()),
{
}

/// Everyone on the roster of a window is published for each slot it reaches, once
/// each and by name, and exactly whoever leads the slot as leading it.
pub proof fn one_of_the_roster_leads(
    window: Window,
    start: u64,
    leaders: Vec<[u8; 32]>,
    fetched: u64,
    slot: u64,
    standings: Vec<Standing>,
)
    requires
        call_ensures(Window::new, (start, leaders, fetched), window),
        call_ensures(Window::standings, (&window, slot), standings),
        start <= slot < start + leaders@.len(),
    ensures
        ({
            let name = address_text(leaders@[slot - start]@);
            &&& exists|i: int|
                0 <= i < standings@.len() && (#[trigger] standings@[i]).leader@ == name
            &&& forall|i: int|
                0 <= i < standings@.len() ==> ((#[trigger] standings@[i]).leading
                    <==> standings@[i].leader@ == name)
            &&& forall|i: int, j: int|
                0 <= i < j < standings@.len() ==> (#[trigger] standings@[i]).leader@ != (
                #[trigger] standings@[j]).leader@
            &&& forall|at: int|
                0 <= at < leaders@.len() ==> exists|i: int|
                    0 <= i < standings@.len() && (#[trigger] standings@[i]).leader@
                        == address_text((#[trigger] leaders@[at])@)
        }),
{
    let roster = told(window.roster@);
    assert forall|at: int| 0 <= at < leaders@.len() implies exists|i: int|
        0 <= i < standings@.len() && (#[trigger] standings@[i]).leader@ == address_text(
            (#[trigger] leaders@[at])@,
        ) by {
        let name = address_text(leaders@[at]@);
        assert(names(leaders@)[at] == name);
        assert(names(leaders@).to_set().contains(name));
        assert(roster.to_set().contains(name));
        let i = choose|i: int| 0 <= i < roster.len() && roster[i] == name;
        assert(standings@[i].leader@ == window.roster@[i]@);
    }
    assert(leaders@[slot - start] == leaders@[slot - start]);
    assert forall|i: int, j: int| 0 <= i < j < standings@.len() implies (
    #[trigger] standings@[i]).leader@ != (#[trigger] standings@[j]).leader@ by {
        assert(crate::text::precedes(roster[i], roster[j]));
        crate::text::texts_are_in_order(roster[i], roster[j]);
    }
}

/// A slot is out of reach just where it lies more than 512 before the window, or 512
/// and as many more behind it as slots of 200 milliseconds have gone by since the
/// window was fetched. Without a window none is.
pub proof fn reach_grows_with_every_slot_gone_by(
    schedule: Schedule,
    slot: u64,
    now: u64,
    implausible: bool,
)
    requires
        call_ensures(Schedule::implausible, (&schedule, slot, now), implausible),
        schedule.window matches Some(window) ==> window.fetched <= now,
    ensures
        schedule.window is None ==> !implausible,
        schedule.window matches Some(window) ==> {
            let beyond = slot - (window.start + window.leaders@.len() + 512);
            implausible <==> slot < window.start - 512 || (beyond >= 0 && now - window.fetched < (
            beyond + 1) * 200_000_000)
        },
{
    if let Some(window) = schedule.window {
        let since = now - window.fetched;
        let beyond = slot - (window.start + window.leaders@.len() + 512);
        assert(since / 200_000_000 <= beyond <==> since < (beyond + 1) * 200_000_000);
    }
}

} // verus!
