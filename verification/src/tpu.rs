//! Sending straight to the leader's TPU, skipping the RPC forwarder.
//!
//! An RPC's `sendTransaction` is already a leader-directed QUIC send — just
//! somebody else's, one hop away, on their schedule. This module is the same
//! thing done locally: the leader schedule says whose slot a transaction is
//! aimed at, and gossip's cluster listing says where that leader's TPU lives.
//! Both are asked for ahead of time, so that the fire path never waits on
//! either, and what is held here is what the answers came to.

use crate::addresses::Ip;
use crate::clock::{between, passed, SECOND};
use crate::text::{alike, write_number};
use vstd::prelude::*;

verus! {

/// Slots of schedule per request, clamped to one epoch where that much is
/// refused: only the current and the next epoch have a schedule at all.
pub const WINDOW_SLOTS: u64 = 512;

/// TPU addresses move only when a validator restarts, so this is about noticing
/// that eventually, not about tracking it closely.
pub const NODES_REFRESH: u64 = 30 * SECOND;

/// How many slots ahead connections are kept warm. Deep enough to cover the
/// current leader's remaining slots and the whole of the next leader's four.
pub const WARM_SLOTS: u64 = 8;

/// A socket address.
#[derive(Clone, Copy, Debug, PartialEq, Eq, Structural)]
pub struct Endpoint {
    pub ip: Ip,
    pub port: u16,
    pub flowinfo: u32,
    pub scope_id: u32,
}

/// One node of the cluster listing. A node without an endpoint has not published
/// a TPU and cannot be sent to.
pub struct Node {
    pub pubkey: String,
    pub tpu_quic: Option<Endpoint>,
}

/// Leaders of a run of slots, keyed the way the cluster listing names nodes.
pub struct Window {
    pub start: u64,
    pub leaders: Vec<String>,
}

impl Window {
    /// Who leads a slot, where the window reaches it.
    pub open spec fn leader_of(self, slot: int) -> Option<Seq<char>> {
        if self.start <= slot < self.start + self.leaders@.len() {
            Some(self.leaders@[slot - self.start]@)
        } else {
            None
        }
    }

    /// Whether the window is running out at a slot.
    pub open spec fn due_at(self, slot: int) -> bool {
        let len = self.leaders@.len();
        let enough = if len / 4 >= WARM_SLOTS {
            len / 4
        } else {
            WARM_SLOTS as nat
        };
        slot < self.start || self.start + len - slot <= enough
    }

    pub fn leader(&self, slot: u64) -> (leader: Option<&str>)
        ensures
            match leader {
                Some(leader) => self.leader_of(slot as int) == Some(leader@),
                None => self.leader_of(slot as int) is None,
            },
    {
        if slot < self.start || slot - self.start >= self.leaders.len() as u64 {
            None
        } else {
            Some(self.leaders[(slot - self.start) as usize].as_str())
        }
    }

    /// A refresh is due before the window actually runs out, so one failed
    /// fetch costs a retry rather than a blind stretch of slots. The floor is
    /// what covers a window clamped short by an epoch boundary: a quarter of
    /// three slots is none, and a window is worth nothing once it no longer
    /// reaches the leaders being warmed and fired at.
    pub fn refresh_due(&self, slot: u64) -> (due: bool)
        ensures
            due == self.due_at(slot as int),
    {
        if slot < self.start {
            return true;
        }
        let len: u64 = self.leaders.len() as u64;
        let remaining: u64 = len.saturating_sub(slot - self.start);
        let enough: u64 = if len / 4 >= WARM_SLOTS {
            len / 4
        } else {
            WARM_SLOTS
        };
        remaining <= enough
    }
}

/// Where a node can be sent to: what the last line of the listing that says so
/// about it says.
pub open spec fn whereabouts(nodes: Seq<Node>, pubkey: Seq<char>) -> Option<Endpoint>
    decreases nodes.len(),
{
    if nodes.len() == 0 {
        None
    } else if nodes.last().pubkey@ == pubkey && nodes.last().tpu_quic is Some {
        nodes.last().tpu_quic
    } else {
        whereabouts(nodes.drop_last(), pubkey)
    }
}

/// How loudly to report a failure.
#[derive(Clone, Copy, Debug, PartialEq, Eq, Structural)]
pub enum Severity {
    Warning,
    Detail,
}

/// The first failure is worth a warning; a dead RPC repeating it every poll is
/// not.
pub fn report(errored: &mut bool) -> (severity: Severity)
    ensures
        severity == if *old(errored) {
            Severity::Detail
        } else {
            Severity::Warning
        },
        *final(errored),
{
    if *errored {
        Severity::Detail
    } else {
        *errored = true;
        Severity::Warning
    }
}

/// One send: where to, and what went wrong if something did.
pub struct Attempt {
    pub endpoint: Endpoint,
    pub error: Option<String>,
}

/// How far into a tick the refresher is.
#[derive(Clone, Copy, Debug, PartialEq, Eq, Structural)]
pub enum Stage {
    Nodes,
    Leaders,
    Warm,
}

/// What the refresher does next.
pub enum Step {
    /// Nothing before the next tick.
    Wait,
    /// Ask for the cluster listing.
    FetchNodes,
    /// Ask for a window of leaders.
    FetchLeaders,
    /// Open, or keep open, connections to these.
    Warm(Vec<Endpoint>),
}

/// Where the leaders of the next slots take transactions.
pub struct LeaderTpus {
    pub window: Option<Window>,
    pub nodes: Vec<Node>,
    pub nodes_fetched: Option<u64>,
    /// Whether the last answer was a failure, and has been reported as one.
    pub errored: bool,
}

impl LeaderTpus {
    pub fn new() -> (tpus: LeaderTpus)
        ensures
            tpus.window is None,
            tpus.nodes@.len() == 0,
            tpus.nodes_fetched is None,
            !tpus.errored,
    {
        LeaderTpus { window: None, nodes: Vec::new(), nodes_fetched: None, errored: false }
    }

    /// Where the leader of a slot can be sent to, as far as is known.
    pub open spec fn target(self, slot: int) -> Option<Endpoint> {
        match self.window {
            Some(window) => match window.leader_of(slot) {
                Some(leader) => whereabouts(self.nodes@, leader),
                None => None,
            },
            None => None,
        }
    }

    /// Where the leaders of `count` slots from `slot` on can be sent to, each
    /// place once, in the order of the first of the slots it is for.
    pub open spec fn targets(self, slot: int, count: nat) -> Seq<Endpoint>
        decreases count,
    {
        if count == 0 {
            Seq::empty()
        } else {
            let before = self.targets(slot, (count - 1) as nat);
            match self.target(slot + count - 1) {
                Some(endpoint) => if before.contains(endpoint) {
                    before
                } else {
                    before.push(endpoint)
                },
                None => before,
            }
        }
    }

    /// The slots there are of `fanout` slots from `slot` on.
    pub open spec fn reach(slot: u64, fanout: u64) -> nat {
        if slot + fanout <= u64::MAX {
            fanout as nat
        } else {
            (u64::MAX - slot) as nat
        }
    }

    fn find(&self, pubkey: &str) -> (endpoint: Option<Endpoint>)
        ensures
            endpoint == whereabouts(self.nodes@, pubkey@),
    {
        let mut i: usize = self.nodes.len();
        assert(self.nodes@.take(i as int) =~= self.nodes@);
        while i > 0
            invariant
                i <= self.nodes@.len(),
                whereabouts(self.nodes@.take(i as int), pubkey@) == whereabouts(
                    self.nodes@,
                    pubkey@,
                ),
            decreases i,
        {
            i = i - 1;
            assert(self.nodes@.take(i + 1).drop_last() =~= self.nodes@.take(i as int));
            let node = &self.nodes[i];
            if node.tpu_quic.is_some() && alike(node.pubkey.as_str(), pubkey) {
                return node.tpu_quic;
            }
        }
        None
    }

    /// TPU addresses of the leaders of `slot..slot + fanout`, deduplicated:
    /// leaders hold four consecutive slots, so neighbouring slots usually name
    /// the same node.
    pub fn addresses(&self, slot: u64, fanout: u64) -> (addresses: Vec<Endpoint>)
        ensures
            addresses@ == self.targets(slot as int, Self::reach(slot, fanout)),
    {
        let mut addresses: Vec<Endpoint> = Vec::new();
        let window = match &self.window {
            Some(window) => window,
            None => {
                proof {
                    self.lemma_nothing_known(slot as int, Self::reach(slot, fanout));
                }
                return addresses;
            },
        };
        let end: u64 = slot.saturating_add(fanout);
        let mut target: u64 = slot;
        while target < end
            invariant
                slot <= target <= end,
                self.window == Some(*window),
                addresses@ == self.targets(slot as int, (target - slot) as nat),
            decreases end - target,
        {
            if let Some(leader) = window.leader(target) {
                if let Some(endpoint) = self.find(leader) {
                    let mut known = false;
                    let mut i: usize = 0;
                    while i < addresses.len()
                        invariant
                            i <= addresses@.len(),
                            known == addresses@.take(i as int).contains(endpoint),
                        decreases addresses@.len() - i,
                    {
                        proof {
                            assert(addresses@.take(i + 1) =~= addresses@.take(i as int).push(
                                addresses@[i as int],
                            ));
                            crate::maps::lemma_push_contains(
                                addresses@.take(i as int),
                                addresses@[i as int],
                            );
                        }
                        if addresses[i] == endpoint {
                            known = true;
                        }
                        i = i + 1;
                    }
                    assert(addresses@.take(i as int) =~= addresses@);
                    if !known {
                        addresses.push(endpoint);
                    }
                }
            }
            target = target + 1;
        }
        addresses
    }

    proof fn lemma_nothing_known(self, slot: int, count: nat)
        requires
            self.window is None,
        ensures
            self.targets(slot, count) == Seq::<Endpoint>::empty(),
        decreases count,
    {
        if count > 0 {
            self.lemma_nothing_known(slot, (count - 1) as nat);
        }
    }

    /// Where a transaction for `slot` is to be sent: to the leaders of
    /// `slot..slot + fanout`, or nowhere, and why.
    pub fn aim(&self, slot: u64, fanout: u64) -> (addresses: Result<Vec<Endpoint>, String>)
        ensures
            ({
                let targets = self.targets(slot as int, Self::reach(slot, fanout));
                match addresses {
                    Ok(addresses) => targets.len() > 0 && addresses@ == targets,
                    Err(reason) => targets.len() == 0 && reason@
                        == "no TPU address known for slot "@ + crate::text::decimal(slot as nat),
                }
            }),
    {
        let addresses = self.addresses(slot, fanout);
        if addresses.len() == 0 {
            let mut reason = "no TPU address known for slot ".to_owned();
            reason.append(write_number(slot).as_str());
            return Err(reason);
        }
        Ok(addresses)
    }

    /// Whether the cluster listing is old enough to be asked for again.
    pub open spec fn nodes_stale(self, now: u64) -> bool {
        match self.nodes_fetched {
            Some(fetched) => passed(fetched, now) > NODES_REFRESH,
            None => true,
        }
    }

    pub open spec fn window_stale(self, slot: u64) -> bool {
        match self.window {
            Some(window) => window.due_at(slot as int),
            None => true,
        }
    }

    /// What the refresher does from `stage` on. Zero for the current slot means
    /// the pipeline has not anchored on one yet; there is nothing to look up
    /// leaders for.
    pub fn step(&self, stage: Stage, slot: u64, now: u64) -> (step: Step)
        ensures
            if slot == 0 {
                step is Wait
            } else if stage is Nodes && self.nodes_stale(now) {
                step is FetchNodes
            } else if !(stage is Warm) && self.window_stale(slot) {
                step is FetchLeaders
            } else {
                step matches Step::Warm(addresses) && addresses@ == self.targets(
                    slot as int,
                    Self::reach(slot, WARM_SLOTS),
                )
            },
    {
        if slot == 0 {
            return Step::Wait;
        }
        if let Stage::Nodes = stage {
            let stale = match self.nodes_fetched {
                Some(fetched) => between(fetched, now) > NODES_REFRESH,
                None => true,
            };
            if stale {
                return Step::FetchNodes;
            }
        }
        let warming = match stage {
            Stage::Warm => true,
            _ => false,
        };
        if !warming {
            let due = match &self.window {
                Some(window) => window.refresh_due(slot),
                None => true,
            };
            if due {
                return Step::FetchLeaders;
            }
        }
        Step::Warm(self.addresses(slot, WARM_SLOTS))
    }

    /// Takes in the cluster listing, or that there was none to be had.
    pub fn nodes_answered(&mut self, listing: Option<Vec<Node>>, now: u64) -> (severity: Option<
        Severity,
    >)
        ensures
            final(self).window == old(self).window,
            match listing {
                Some(nodes) => {
                    &&& final(self).nodes == nodes
                    &&& final(self).nodes_fetched == Some(now)
                    &&& !final(self).errored
                    &&& severity is None
                },
                None => {
                    &&& final(self).nodes == old(self).nodes
                    &&& final(self).nodes_fetched == old(self).nodes_fetched
                    &&& final(self).errored
                    &&& severity == Some(
                        if old(self).errored {
                            Severity::Detail
                        } else {
                            Severity::Warning
                        },
                    )
                },
            },
    {
        match listing {
            Some(nodes) => {
                self.nodes = nodes;
                self.nodes_fetched = Some(now);
                self.errored = false;
                None
            },
            None => Some(report(&mut self.errored)),
        }
    }

    /// Takes in the leaders of the slots from `slot` on, or that there were none
    /// to be had.
    pub fn leaders_answered(&mut self, slot: u64, leaders: Option<Vec<String>>) -> (severity:
        Option<Severity>)
        ensures
            final(self).nodes == old(self).nodes,
            final(self).nodes_fetched == old(self).nodes_fetched,
            match leaders {
                Some(leaders) => {
                    &&& final(self).window == Some(Window { start: slot, leaders })
                    &&& !final(self).errored
                    &&& severity is None
                },
                None => {
                    &&& final(self).window == old(self).window
                    &&& final(self).errored
                    &&& severity == Some(
                        if old(self).errored {
                            Severity::Detail
                        } else {
                            Severity::Warning
                        },
                    )
                },
            },
    {
        match leaders {
            Some(leaders) => {
                self.window = Some(Window { start: slot, leaders });
                self.errored = false;
                None
            },
            None => Some(report(&mut self.errored)),
        }
    }
}

/// Where attempts got through to, in order.
pub open spec fn reached(attempts: Seq<Attempt>) -> Seq<Endpoint>
    decreases attempts.len(),
{
    if attempts.len() == 0 {
        Seq::empty()
    } else {
        let before = reached(attempts.drop_last());
        if attempts.last().error is None {
            before.push(attempts.last().endpoint)
        } else {
            before
        }
    }
}

/// What a round of sends came to. Delivery to any one leader is success: the
/// others are insurance against firing right at a rotation boundary. Otherwise
/// the last thing that went wrong is the reason.
pub fn delivery(attempts: &Vec<Attempt>) -> (delivered: Result<Vec<Endpoint>, String>)
    ensures
        match delivered {
            Ok(delivered) => {
                &&& delivered@ == reached(attempts@)
                &&& attempts@.len() == 0 || reached(attempts@).len() > 0
            },
            Err(reason) => {
                &&& attempts@.len() > 0
                &&& reached(attempts@).len() == 0
                &&& attempts@.last().error matches Some(error)
                &&& reason@ == error@
            },
        },
{
    let mut delivered: Vec<Endpoint> = Vec::new();
    let mut i: usize = 0;
    while i < attempts.len()
        invariant
            i <= attempts@.len(),
            delivered@ == reached(attempts@.take(i as int)),
            i > 0 && delivered@.len() == 0 ==> attempts@[i - 1].error is Some,
        decreases attempts@.len() - i,
    {
        assert(attempts@.take(i + 1).drop_last() =~= attempts@.take(i as int));
        if attempts[i].error.is_none() {
            delivered.push(attempts[i].endpoint);
        }
        i = i + 1;
    }
    assert(attempts@.take(i as int) =~= attempts@);
    if delivered.len() == 0 && attempts.len() > 0 {
        if let Some(error) = &attempts[attempts.len() - 1].error {
            return Err(error.clone());
        }
    }
    Ok(delivered)
}

/// How many slots to ask for once the full window has been refused, given where
/// the RPC says it is in its epoch: what is left of the epoch, a range that
/// always exists.
///
/// The RPC's notion of the current slot is not ours, so the epoch's end is
/// derived from where the RPC says it is inside it. Still ahead of the RPC by a
/// slot or two at a boundary, the horizon is asked for and the RPC left to say
/// whether it has that schedule, rather than deciding here that there is nothing
/// to ask for.
pub fn clamped(slot: u64, absolute_slot: u64, slot_index: u64, slots_in_epoch: u64) -> (count: u64)
    ensures
        ({
            let begins = if slot_index <= absolute_slot {
                absolute_slot - slot_index
            } else {
                0
            };
            let ends = if begins + slots_in_epoch <= u64::MAX {
                begins + slots_in_epoch
            } else {
                u64::MAX as int
            };
            count == if ends <= slot {
                WARM_SLOTS as int
            } else if ends - slot <= WINDOW_SLOTS {
                ends - slot
            } else {
                WINDOW_SLOTS as int
            }
        }),
{
    let ends: u64 = absolute_slot.saturating_sub(slot_index).saturating_add(slots_in_epoch);
    let remaining: u64 = ends.saturating_sub(slot);
    if remaining == 0 {
        WARM_SLOTS
    } else if remaining <= WINDOW_SLOTS {
        remaining
    } else {
        WINDOW_SLOTS
    }
}

/// No one is sent the same transaction twice, and whoever is sent it leads one of
/// the slots asked about.
pub proof fn targets_are_distinct_leaders(tpus: LeaderTpus, slot: int, count: nat)
    ensures
        tpus.targets(slot, count).no_duplicates(),
        forall|endpoint: Endpoint| #[trigger]
            tpus.targets(slot, count).contains(endpoint) <==> exists|at: int|
                slot <= at < slot + count && #[trigger] tpus.target(at) == Some(endpoint),
    decreases count,
{
    if count > 0 {
        let fewer = (count - 1) as nat;
        let last = slot + count - 1;
        targets_are_distinct_leaders(tpus, slot, fewer);
        let before = tpus.targets(slot, fewer);
        if let Some(endpoint) = tpus.target(last) {
            crate::maps::lemma_push_contains(before, endpoint);
        }
        assert forall|endpoint: Endpoint| #[trigger]
            tpus.targets(slot, count).contains(endpoint) <==> exists|at: int|
                slot <= at < slot + count && #[trigger] tpus.target(at) == Some(endpoint) by {
            if tpus.targets(slot, count).contains(endpoint) {
                if before.contains(endpoint) {
                    let at = choose|at: int|
                        slot <= at < slot + fewer && #[trigger] tpus.target(at) == Some(endpoint);
                    assert(tpus.target(at) == Some(endpoint));
                } else {
                    assert(tpus.target(last) == Some(endpoint));
                }
            }
            if exists|at: int|
                slot <= at < slot + count && #[trigger] tpus.target(at) == Some(endpoint) {
                let at = choose|at: int|
                    slot <= at < slot + count && #[trigger] tpus.target(at) == Some(endpoint);
                if at < last {
                    assert(before.contains(endpoint));
                }
            }
        }
    }
}

/// A window that is not due for a refresh still covers everything that is kept
/// warm: there is a leader to aim at for every one of those slots.
pub proof fn a_window_not_due_covers_the_horizon(window: Window, slot: int, ahead: int)
    requires
        !window.due_at(slot),
        0 <= ahead < WARM_SLOTS,
    ensures
        window.leader_of(slot + ahead) is Some,
{
}

/// A window no longer than the horizon is due from the moment it is fetched.
pub proof fn a_short_window_is_always_due(window: Window, slot: int)
    requires
        window.leaders@.len() <= WARM_SLOTS,
    ensures
        window.due_at(slot),
{
}

/// Where a node can be sent to is what the listing says of it, and what it says last
/// where it says so more than once; of a node it gives no address for there is no
/// telling.
pub proof fn the_listing_says_where_a_node_is(nodes: Seq<Node>, pubkey: Seq<char>, at: int)
    ensures
        0 <= at < nodes.len() && nodes[at].pubkey@ == pubkey && nodes[at].tpu_quic is Some && (
        forall|later: int|
            at < later < nodes.len() ==> !((#[trigger] nodes[later]).pubkey@ == pubkey
                && nodes[later].tpu_quic is Some)) ==> whereabouts(nodes, pubkey)
            == nodes[at].tpu_quic,
        (forall|i: int|
            0 <= i < nodes.len() ==> !((#[trigger] nodes[i]).pubkey@ == pubkey
                && nodes[i].tpu_quic is Some)) ==> whereabouts(nodes, pubkey) is None,
    decreases nodes.len(),
{
    if nodes.len() > 0 {
        let fewer = nodes.drop_last();
        the_listing_says_where_a_node_is(fewer, pubkey, at);
        assert(forall|i: int| 0 <= i < fewer.len() ==> #[trigger] fewer[i] == nodes[i]);
    }
}

/// The leader of a slot is aimed at where the listing says it is.
pub proof fn a_slot_is_aimed_at_its_leader(tpus: LeaderTpus, window: Window, slot: int)
    requires
        tpus.window == Some(window),
    ensures
        window.start <= slot < window.start + window.leaders@.len() ==> tpus.target(slot)
            == whereabouts(tpus.nodes@, window.leaders@[slot - window.start]@),
        slot < window.start || slot >= window.start + window.leaders@.len() ==> tpus.target(
            slot,
        ) is None,
{
}

/// Leaders come in the order of their slots: looking further ahead only adds to who
/// is aimed at, behind those that lead sooner.
pub proof fn sooner_leaders_come_first(tpus: LeaderTpus, slot: int, count: nat, more: nat)
    requires
        count <= more,
    ensures
        tpus.targets(slot, count).len() <= tpus.targets(slot, more).len(),
        tpus.targets(slot, more).take(tpus.targets(slot, count).len() as int) == tpus.targets(
            slot,
            count,
        ),
    decreases more,
{
    let front = tpus.targets(slot, count);
    if count < more {
        sooner_leaders_come_first(tpus, slot, count, (more - 1) as nat);
        let before = tpus.targets(slot, (more - 1) as nat);
        let all = tpus.targets(slot, more);
        assert(all.take(front.len() as int) =~= before.take(front.len() as int));
    } else {
        assert(front.take(front.len() as int) =~= front);
    }
}

/// A window is due once a quarter of it is left, or no more than the eight slots
/// that are kept warm, and for a slot before it.
pub proof fn a_window_is_due_before_it_runs_out(window: Window, slot: int)
    ensures
        window.due_at(slot) <==> slot < window.start || 4 * (window.start + window.leaders@.len()
            - slot) <= window.leaders@.len() || window.start + window.leaders@.len() - slot <= 8,
{
}

/// What the refresher does, tick by tick: nothing before there is a slot to do it
/// for; the listing first, where it was never had or is more than thirty seconds
/// old; then the leaders, where there are none or too few; and then it keeps the
/// leaders of the next eight slots warm.
pub proof fn the_refresher_asks_for_what_is_missing(
    tpus: LeaderTpus,
    stage: Stage,
    slot: u64,
    now: u64,
    step: Step,
)
    requires
        call_ensures(LeaderTpus::step, (&tpus, stage, slot, now), step),
    ensures
        step is Wait <==> slot == 0,
        step is FetchNodes <==> slot != 0 && stage is Nodes && (tpus.nodes_fetched is None || (
        tpus.nodes_fetched->0 <= now && now - tpus.nodes_fetched->0 > 30_000_000_000)),
        step is FetchLeaders ==> tpus.window is None || tpus.window->0.due_at(slot as int),
        slot != 0 && stage is Leaders && tpus.window is None ==> step is FetchLeaders,
        slot != 0 && stage is Warm ==> step is Warm,
        step matches Step::Warm(addresses) ==> slot <= u64::MAX - 8 ==> addresses@ == tpus.targets(
            slot as int,
            8,
        ),
{
}

/// A round of sends succeeds where any of them got through, with all of those it got
/// through to, and else gives the last reason; a round of none is no failure.
pub proof fn one_delivery_is_enough(attempts: Vec<Attempt>, delivered: Result<Vec<Endpoint>, String>)
    requires
        call_ensures(delivery, (&attempts,), delivered),
    ensures
        delivered is Ok <==> attempts@.len() == 0 || exists|i: int|
            0 <= i < attempts@.len() && (#[trigger] attempts@[i]).error is None,
        delivered matches Ok(reached) ==> forall|endpoint: Endpoint| #[trigger]
            reached@.contains(endpoint) <==> exists|i: int|
                0 <= i < attempts@.len() && (#[trigger] attempts@[i]).error is None
                    && attempts@[i].endpoint == endpoint,
        delivered matches Err(reason) ==> attempts@.last().error matches Some(error) && reason@
            == error@,
{
    lemma_reached(attempts@);
    if reached(attempts@).len() > 0 {
        assert(reached(attempts@).contains(reached(attempts@)[0]));
    }
    if exists|i: int| 0 <= i < attempts@.len() && (#[trigger] attempts@[i]).error is None {
        let i = choose|i: int| 0 <= i < attempts@.len() && (#[trigger] attempts@[i]).error is None;
        assert(reached(attempts@).contains(attempts@[i].endpoint));
    }
}

proof fn lemma_reached(attempts: Seq<Attempt>)
    ensures
        forall|endpoint: Endpoint| #[trigger]
            reached(attempts).contains(endpoint) <==> exists|i: int|
                0 <= i < attempts.len() && (#[trigger] attempts[i]).error is None
                    && attempts[i].endpoint == endpoint,
    decreases attempts.len(),
{
    if attempts.len() > 0 {
        let fewer = attempts.drop_last();
        lemma_reached(fewer);
        let before = reached(fewer);
        crate::maps::lemma_push_contains(before, attempts.last().endpoint);
        assert forall|endpoint: Endpoint| #[trigger]
            reached(attempts).contains(endpoint) <==> exists|i: int|
                0 <= i < attempts.len() && (#[trigger] attempts[i]).error is None
                    && attempts[i].endpoint == endpoint by {
            if reached(attempts).contains(endpoint) {
                if before.contains(endpoint) {
                    let i = choose|i: int|
                        0 <= i < fewer.len() && (#[trigger] fewer[i]).error is None
                            && fewer[i].endpoint == endpoint;
                    assert(attempts[i].error is None);
                } else {
                    assert(attempts[attempts.len() - 1].error is None);
                }
            }
            if exists|i: int|
                0 <= i < attempts.len() && (#[trigger] attempts[i]).error is None
                    && attempts[i].endpoint == endpoint {
                let i = choose|i: int|
                    0 <= i < attempts.len() && (#[trigger] attempts[i]).error is None
                        && attempts[i].endpoint == endpoint;
                if i < fewer.len() {
                    assert(fewer[i].error is None);
                }
            }
        }
    }
}

/// What is asked for once the full window was refused ends with the epoch, and is no
/// more than the window and no less than one slot; past the end of the epoch it is
/// what is kept warm.
pub proof fn a_clamped_request_ends_with_the_epoch(
    slot: u64,
    absolute_slot: u64,
    slot_index: u64,
    slots_in_epoch: u64,
    count: u64,
)
    requires
        call_ensures(clamped, (slot, absolute_slot, slot_index, slots_in_epoch), count),
        slot_index <= absolute_slot,
        absolute_slot - slot_index + slots_in_epoch <= u64::MAX,
    ensures
        ({
            let ends = absolute_slot - slot_index + slots_in_epoch;
            &&& 0 < count <= 512
            &&& slot < ends ==> slot + count <= ends && (slot + count == ends || count == 512)
            &&& slot >= ends ==> count == 8
        }),
{
}

/// A failure to learn something is warned of once, and mentioned in passing for as long
/// as nothing is learned; what was known stays known.
pub proof fn a_failure_is_warned_of_once(
    first: &mut LeaderTpus,
    second: &mut LeaderTpus,
    slot: u64,
    now: u64,
    warned: Option<Severity>,
    mentioned: Option<Severity>,
)
    requires
        call_ensures(LeaderTpus::nodes_answered, (first, None::<Vec<Node>>, now), warned),
        call_ensures(LeaderTpus::leaders_answered, (second, slot, None::<Vec<String>>), mentioned),
        !old(first).errored,
        *old(second) == *final(first),
    ensures
        warned == Some(Severity::Warning),
        mentioned == Some(Severity::Detail),
        final(second).nodes == old(first).nodes,
        final(second).nodes_fetched == old(first).nodes_fetched,
        final(second).window == old(first).window,
{
}

/// What was learned is what is gone by from then on, and the next failure is warned of
/// again.
pub proof fn what_is_learned_is_gone_by(
    first: &mut LeaderTpus,
    second: &mut LeaderTpus,
    nodes: Vec<Node>,
    leaders: Vec<String>,
    slot: u64,
    now: u64,
    answers: (Option<Severity>, Option<Severity>),
    at: int,
)
    requires
        call_ensures(LeaderTpus::nodes_answered, (first, Some(nodes), now), answers.0),
        call_ensures(LeaderTpus::leaders_answered, (second, slot, Some(leaders)), answers.1),
        *old(second) == *final(first),
    ensures
        answers.0 is None && answers.1 is None,
        !final(second).errored,
        final(second).nodes_fetched == Some(now),
        slot <= at < slot + leaders@.len() ==> final(second).target(at) == whereabouts(
            nodes@,
            leaders@[at - slot]@,
        ),
{
    if slot <= at < slot + leaders@.len() {
        a_slot_is_aimed_at_its_leader(*final(second), final(second).window->0, at);
    }
}

/// Aiming at a slot gives the leaders from there on, sooner ones first and each once,
/// and is refused just where none of them can be found.
pub proof fn aiming_finds_the_leaders_ahead(
    tpus: LeaderTpus,
    slot: u64,
    fanout: u64,
    aimed: Result<Vec<Endpoint>, String>,
)
    requires
        call_ensures(LeaderTpus::aim, (&tpus, slot, fanout), aimed),
        slot + fanout <= u64::MAX,
    ensures
        aimed is Ok <==> exists|at: int|
            slot <= at < slot + fanout && #[trigger] tpus.target(at) is Some,
        aimed matches Ok(addresses) ==> {
            &&& addresses@.no_duplicates()
            &&& forall|endpoint: Endpoint| #[trigger]
                addresses@.contains(endpoint) <==> exists|at: int|
                    slot <= at < slot + fanout && #[trigger] tpus.target(at) == Some(endpoint)
            &&& fanout > 0 ==> (tpus.target(slot as int) matches Some(endpoint) ==> addresses@[0]
                == endpoint)
        },
{
    let targets = tpus.targets(slot as int, fanout as nat);
    targets_are_distinct_leaders(tpus, slot as int, fanout as nat);
    if targets.len() > 0 {
        assert(targets.contains(targets[0]));
    }
    if exists|at: int| slot <= at < slot + fanout && #[trigger] tpus.target(at) is Some {
        let at = choose|at: int| slot <= at < slot + fanout && #[trigger] tpus.target(at) is Some;
        assert(targets.contains(tpus.target(at)->0));
    }
    if fanout > 0 && tpus.target(slot as int) is Some {
        sooner_leaders_come_first(tpus, slot as int, 1, fanout as nat);
        targets_are_distinct_leaders(tpus, slot as int, 1);
        let first = tpus.targets(slot as int, 1);
        assert(first.contains(tpus.target(slot as int)->0));
        let i = choose|i: int| 0 <= i < first.len() && first[i] == tpus.target(slot as int)->0;
        assert(first.contains(first[0]));
        assert(targets.take(first.len() as int)[0] == targets[0]);
    }
}

} // verus!
