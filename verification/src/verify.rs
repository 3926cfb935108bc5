//! Whether a shred came from the validator whose slot it claims to be.
//!
//! Everything else in this crate treats the wire as hostile by bounding what it
//! can cost — indices, buffers, bytes. This is the one part that can tell
//! hostile from honest outright: a shred carries the leader's signature over
//! the Merkle root of its erasure batch, and the schedule says who that leader
//! should have been. Without the check, anyone who knows our address can hand
//! us a transaction of their own writing and watch the sniper answer it.
//!
//! Every shred is checked, and the cache is what makes that affordable. The
//! root is rebuilt from each shred's own bytes — a kilobyte of sha256, cheap —
//! and only the ed25519 verification behind it is skipped, and only for a root
//! already verified for that slot. Siblings in an erasure batch hash to the
//! same root, so a batch costs one signature check; a forged shred hashes to a
//! different root, misses the cache, and is checked in full. Keying the cache
//! on the batch index instead would be faster and useless: a forgery need only
//! claim a batch already seen.
//!
//! A slot the schedule cannot answer for is the hole this check would otherwise
//! have. Verifying a signature needs a leader to verify it against, so a slot
//! outside the window cannot be judged on its signature at all — and the slot is
//! a field the sender fills in. Left at that, a forgery need only name a distant
//! slot to be waved through as unproven, and the whole check is decoration. So
//! the window's edges are read as a claim of their own: past where the cluster
//! can have got to, a slot is false rather than unknown. See
//! [`Schedule::implausible`].
//!
//! What is still *not* refused is a slot that is plausible but unanswerable —
//! no window fetched yet, or one gone stale behind a dead RPC — and a shred
//! version that never parsed: the first because going blind whenever an RPC is
//! a second late costs more than the forgery it would catch, the second because
//! it is already gone. Both are counted, and the count is what says how much of
//! the wire the check is really covering.

use crate::aged::{fresh, is_capped, Aged, AgedMap};
use crate::clock::Clock;
use crate::leaders::Schedule;
use crate::metrics::Event;
use crate::shred::{merkle_root, parsed, signed, SIGNATURE};
use vstd::prelude::*;

verus! {

broadcast use {vstd::std_specs::btree::group_btree_axioms, vstd::laws_cmp::group_laws_cmp};

/// Merkle roots whose signature has already been checked. One entry per erasure
/// batch of a slot, so a retention window's worth of slots is thousands rather
/// than the hundreds of thousands their shreds would be.
pub const MAX_VERIFIED_ROOTS: usize = 16_384;

#[derive(Clone, Copy, Debug, PartialEq, Eq, Structural)]
pub enum Verdict {
    /// The leader signed it, or a sibling of it in the same erasure batch.
    Signed,
    /// No leader to check against. Taken on trust, and counted.
    Unknown,
    /// A signature that does not fit the root the shred hashes to, or does not
    /// fit the leader the slot belonged to. Nothing else in this crate can say
    /// this much about a packet.
    Forged,
}

/// A root of a slot, as the two halves of the number its bytes spell.
pub type SeenRoot = (u64, u128, u128);

pub struct Verifier {
    pub schedule: Schedule,
    pub verified: AgedMap<SeenRoot, ()>,
    /// What there is to say about the packets checked so far, until somebody
    /// takes it.
    pub events: Vec<Event>,
    pub clock: Clock,
}

/// The number that bytes spell, most significant first.
pub open spec fn big_endian(bytes: Seq<u8>) -> nat
    decreases bytes.len(),
{
    if bytes.len() == 0 {
        0
    } else {
        256 * big_endian(bytes.drop_last()) + bytes.last() as nat
    }
}

/// What a root of a slot is remembered as.
pub open spec fn remembered(slot: u64, root: Seq<u8>) -> SeenRoot {
    (slot, big_endian(root.take(16)) as u128, big_endian(root.skip(16)) as u128)
}

proof fn lemma_big_endian_bound(bytes: Seq<u8>)
    ensures
        bytes.len() <= 16 ==> big_endian(bytes) <= u128::MAX,
        bytes.len() <= 15 ==> 256 * big_endian(bytes) + 255 <= u128::MAX,
    decreases bytes.len(),
{
    reveal_with_fuel(vstd::arithmetic::power::pow, 20);
    lemma_big_endian_below(bytes);
    if bytes.len() <= 16 {
        lemma_power_fits(bytes.len());
    }
}

proof fn lemma_big_endian_below(bytes: Seq<u8>)
    ensures
        big_endian(bytes) < vstd::arithmetic::power::pow(256, bytes.len()),
    decreases bytes.len(),
{
    vstd::arithmetic::power::lemma_pow0(256);
    if bytes.len() > 0 {
        lemma_big_endian_below(bytes.drop_last());
        assert(vstd::arithmetic::power::pow(256, bytes.len()) == 256
            * vstd::arithmetic::power::pow(256, (bytes.len() - 1) as nat)) by {
            reveal(vstd::arithmetic::power::pow);
        }
    }
}

proof fn lemma_power_fits(len: nat)
    requires
        len <= 16,
    ensures
        vstd::arithmetic::power::pow(256, len) <= u128::MAX + 1,
        len <= 15 ==> 256 * vstd::arithmetic::power::pow(256, len) <= u128::MAX + 1,
{
    reveal(vstd::arithmetic::power::pow);
    reveal_with_fuel(vstd::arithmetic::power::pow, 18);
}

/// Bytes of one length that spell the same number are the same bytes.
proof fn lemma_big_endian_distinct(left: Seq<u8>, right: Seq<u8>)
    requires
        left.len() == right.len(),
        big_endian(left) == big_endian(right),
    ensures
        left == right,
    decreases left.len(),
{
    if left.len() > 0 {
        lemma_big_endian_distinct(left.drop_last(), right.drop_last());
        assert(left =~= left.drop_last().push(left.last()));
        assert(right =~= right.drop_last().push(right.last()));
    } else {
        assert(left =~= right);
    }
}

/// Two roots of a slot are remembered apart unless they are the same root.
pub proof fn roots_are_remembered_apart(slot: u64, root: Seq<u8>, other: Seq<u8>)
    requires
        root.len() == 32,
        other.len() == 32,
        remembered(slot, root) == remembered(slot, other),
    ensures
        root == other,
{
    lemma_big_endian_bound(root.take(16));
    lemma_big_endian_bound(root.skip(16));
    lemma_big_endian_bound(other.take(16));
    lemma_big_endian_bound(other.skip(16));
    lemma_big_endian_distinct(root.take(16), other.take(16));
    lemma_big_endian_distinct(root.skip(16), other.skip(16));
    assert(root =~= root.take(16) + root.skip(16));
    assert(other =~= other.take(16) + other.skip(16));
}

/// The number that sixteen bytes of a root spell.
fn spell(root: &[u8; 32], from: usize) -> (number: u128)
    requires
        from <= 16,
    ensures
        number == big_endian(root@.subrange(from as int, from + 16)),
{
    let mut number: u128 = 0;
    let mut i: usize = 0;
    assert(big_endian(root@.subrange(from as int, from as int)) == 0);
    while i < 16
        invariant
            i <= 16,
            from <= 16,
            number == big_endian(root@.subrange(from as int, from + i)),
        decreases 16 - i,
    {
        proof {
            let so_far = root@.subrange(from as int, from + i);
            let next = root@.subrange(from as int, from + i + 1);
            assert(next.drop_last() =~= so_far);
            assert(next.last() == root@[from + i]);
            lemma_big_endian_bound(so_far);
        }
        number = 256 * number + root[from + i] as u128;
        i = i + 1;
    }
    number
}

fn remember(slot: u64, root: &[u8; 32]) -> (seen: SeenRoot)
    ensures
        seen == remembered(slot, root@),
{
    let high: u128 = spell(root, 0);
    let low: u128 = spell(root, 16);
    proof {
        assert(root@.subrange(0, 16) =~= root@.take(16));
        assert(root@.subrange(16, 32) =~= root@.skip(16));
    }
    (slot, high, low)
}

/// Whether ed25519 accepts `signature` as made by `key` over `message`.
pub uninterp spec fn signature_fits(signature: Seq<u8>, key: Seq<u8>, message: Seq<u8>) -> bool;

/// Calls `Signature::try_from` and, where the bytes are as many as a signature
/// has, `Signature::verify`.
#[verifier::external_body]
fn fits(signature: &[u8], key: &[u8; 32], message: &[u8; 32]) -> (fits: bool)
    ensures
        fits == signature_fits(signature@, key@, message@),
{
    solana_signature::Signature::try_from(signature)
        .is_ok_and(|signature| signature.verify(key, message))
}

/// The verdict on a packet, given the roots verified already.
pub open spec fn verdict_on(
    schedule: Schedule,
    seen: Set<SeenRoot>,
    packet: Seq<u8>,
    shred_version: u16,
    slot: u64,
    now: u64,
) -> Verdict {
    match (schedule.leader_of(slot as int), parsed(packet, shred_version)) {
        // Unanswerable, so the signature cannot settle it — but a slot the
        // cluster cannot have reached is settled without one.
        (None, _) => if schedule.out_of_reach(slot as int, now) {
            Verdict::Forged
        } else {
            Verdict::Unknown
        },
        (Some(_), None) => Verdict::Unknown,
        (Some(leader), Some(shred)) => {
            let root = merkle_root(packet, shred);
            if seen.contains(remembered(slot, root)) || signature_fits(
                packet.take(SIGNATURE as int),
                leader@,
                root,
            ) {
                Verdict::Signed
            } else {
                Verdict::Forged
            }
        },
    }
}

/// What there is to say about a verdict.
pub open spec fn verdict_events(verdict: Verdict) -> Seq<Event> {
    match verdict {
        Verdict::Signed => Seq::empty(),
        Verdict::Unknown => seq![Event::Unverified],
        Verdict::Forged => seq![Event::Forged],
    }
}

/// Whether a root was signed by somebody, at some time.
pub open spec fn signed_by_someone(seen: SeenRoot) -> bool {
    exists|signature: Seq<u8>, key: Seq<u8>, root: Seq<u8>|
        root.len() == 32 && seen == remembered(seen.0, root) && #[trigger] signature_fits(
            signature,
            key,
            root,
        )
}

impl Verifier {
    /// There is a cap on how many roots are remembered.
    pub closed spec fn wf(&self) -> bool {
        &&& self.verified.wf()
        &&& self.verified.cap() == MAX_VERIFIED_ROOTS
    }

    /// Every root remembered was signed.
    pub open spec fn faithful(&self) -> bool {
        forall|seen: SeenRoot| #[trigger]
            self.verified@.contains_key(seen) ==> signed_by_someone(seen)
    }

    /// Whether `kept` is what a sweep at `now` leaves of the roots remembered.
    pub open spec fn sweeps_to(self, now: u64, kept: Map<SeenRoot, Aged<()>>) -> bool {
        if self.verified.sweep_due(now) {
            is_capped(
                fresh(self.verified@, now, self.verified.retention()),
                self.verified.cap() as nat,
                kept,
            )
        } else {
            kept == self.verified@
        }
    }

    /// Whether `verdict` is the verdict on a packet at `now`, and `post` this
    /// verifier once it was given. A root found signed is remembered as of then.
    pub open spec fn checked(
        self,
        packet: Seq<u8>,
        shred_version: u16,
        slot: u64,
        now: u64,
        verdict: Verdict,
        post: Verifier,
    ) -> bool {
        &&& post.schedule == self.schedule
        &&& post.clock == self.clock
        &&& post.verified.same_setup(&self.verified)
        &&& post.verified.last_swept() == if self.verified.sweep_due(now) {
            now
        } else {
            self.verified.last_swept()
        }
        &&& post.events@ == self.events@ + verdict_events(verdict)
        &&& exists|kept: Map<SeenRoot, Aged<()>>| #[trigger]
            self.sweeps_to(now, kept) && verdict == verdict_on(
                self.schedule,
                kept.dom(),
                packet,
                shred_version,
                slot,
                now,
            ) && post.verified@ == if verdict is Signed {
                let root = merkle_root(packet, parsed(packet, shred_version)->0);
                kept.insert(remembered(slot, root), Aged { updated: now, value: () })
            } else {
                kept
            }
    }

    pub fn new(schedule: Schedule, retention: u64, clock: Clock) -> (verifier: Verifier)
        ensures
            verifier.wf(),
            verifier.faithful(),
            verifier.schedule == schedule,
            verifier.verified@ == Map::<SeenRoot, Aged<()>>::empty(),
            verifier.verified.retention() == retention,
            verifier.events@.len() == 0,
            verifier.clock == clock,
            clock.can_read(verifier.verified.last_swept()),
    {
        Verifier {
            schedule,
            verified: AgedMap::new(
                retention,
                MAX_VERIFIED_ROOTS,
                "verified merkle roots",
                clock.now(),
            ),
            events: Vec::new(),
            clock,
        }
    }

    /// Verdict on one packet. `slot` is the one the parse has already read; it
    /// is a claim the packet makes about itself, but it is hashed into the root
    /// along with everything else, so a shred that lied about it cannot then
    /// match the leader's signature.
    pub fn check(&mut self, packet: &[u8], shred_version: u16, slot: u64) -> (verdict: Verdict)
        requires
            old(self).wf(),
        ensures
            final(self).wf(),
            old(self).faithful() ==> final(self).faithful(),
            exists|now: u64|
                old(self).clock.can_read(now) && #[trigger] old(self).checked(
                    packet@,
                    shred_version,
                    slot,
                    now,
                    verdict,
                    *final(self),
                ),
    {
        let now: u64 = self.clock.now();
        self.check_at(packet, shred_version, slot, now)
    }

    /// The same at a given time.
    pub fn check_at(&mut self, packet: &[u8], shred_version: u16, slot: u64, now: u64) -> (verdict:
        Verdict)
        requires
            old(self).wf(),
        ensures
            final(self).wf(),
            old(self).faithful() ==> final(self).faithful(),
            old(self).checked(packet@, shred_version, slot, now, verdict, *final(self)),
    {
        let ghost before = *self;
        let _swept = self.verified.sweep(now);
        let ghost kept = self.verified@;
        proof {
            assert(before.sweeps_to(now, kept));
            assert(kept.submap_of(before.verified@)) by {
                if before.verified.sweep_due(now) {
                    let live = fresh(before.verified@, now, before.verified.retention());
                    assert(live.submap_of(before.verified@));
                    assert(kept.submap_of(live));
                }
            }
        }
        let leader = match self.schedule.leader(slot) {
            Some(leader) => leader,
            None => {
                // This is the only path on which a packet is refused without
                // its bytes being looked at, and it is what stops a forgery
                // choosing a slot to escape the check into.
                if self.schedule.implausible(slot, now) {
                    self.events.push(Event::Forged);
                    assert(self.events@ =~= before.events@ + verdict_events(Verdict::Forged));
                    return Verdict::Forged;
                }
                self.events.push(Event::Unverified);
                assert(self.events@ =~= before.events@ + verdict_events(Verdict::Unknown));
                return Verdict::Unknown;
            },
        };
        // Rebuilt per shred, never cached: it is the root that says the bytes in
        // front of us are the ones the signature was made over, and a forgery
        // that skipped this step would be indistinguishable from its sibling.
        let signed = match signed(packet, shred_version) {
            Some(signed) => signed,
            None => {
                self.events.push(Event::Unverified);
                assert(self.events@ =~= before.events@ + verdict_events(Verdict::Unknown));
                return Verdict::Unknown;
            },
        };
        let seen = remember(slot, &signed.root);
        let known = self.verified.get(&seen).is_some();
        if !known && !fits(signed.signature, &leader, &signed.root) {
            self.events.push(Event::Forged);
            assert(self.events@ =~= before.events@ + verdict_events(Verdict::Forged));
            return Verdict::Forged;
        }
        self.verified.upsert(seen, now, nothing);
        proof {
            assert(self.events@ =~= before.events@ + verdict_events(Verdict::Signed));
            if before.faithful() {
                assert forall|other: SeenRoot| #[trigger]
                    self.verified@.contains_key(other) implies signed_by_someone(other) by {
                    if !kept.contains_key(other) {
                        assert(signature_fits(signed.signature@, leader@, signed.root@));
                    } else {
                        assert(before.verified@.contains_key(other));
                    }
                }
            }
        }
        Verdict::Signed
    }

    /// Goes by a schedule that has been fetched anew. What was verified stays so.
    pub fn reschedule(&mut self, schedule: Schedule)
        requires
            old(self).wf(),
        ensures
            final(self).wf(),
            final(self).schedule == schedule,
            final(self).verified == old(self).verified,
            final(self).events == old(self).events,
            final(self).clock == old(self).clock,
    {
        self.schedule = schedule;
    }

    /// What there is to say about the packets checked since the last call.
    pub fn take_events(&mut self) -> (events: Vec<Event>)
        requires
            old(self).wf(),
        ensures
            final(self).wf(),
            events@ == old(self).events@,
            final(self).events@.len() == 0,
            final(self).schedule == old(self).schedule,
            final(self).verified == old(self).verified,
            final(self).clock == old(self).clock,
    {
        let mut events: Vec<Event> = Vec::new();
        std::mem::swap(&mut events, &mut self.events);
        events
    }
}

fn nothing() {
}

/// Every shred of a slot the schedule answers for is judged: it is the leader's
/// or it is forged, and there is no third way out.
pub proof fn every_answerable_shred_is_judged(
    schedule: Schedule,
    seen: Set<SeenRoot>,
    packet: Seq<u8>,
    shred_version: u16,
    slot: u64,
    now: u64,
)
    requires
        schedule.leader_of(slot as int) is Some,
        parsed(packet, shred_version) is Some,
    ensures
        !(verdict_on(schedule, seen, packet, shred_version, slot, now) is Unknown),
{
}

/// Nothing but the root a shred hashes to can spare it the signature check: a
/// shred whose root was not verified for its slot passes only if its own
/// signature is the leader's over that root.
pub proof fn an_unseen_root_is_checked_in_full(
    schedule: Schedule,
    seen: Set<SeenRoot>,
    packet: Seq<u8>,
    shred_version: u16,
    slot: u64,
    now: u64,
)
    requires
        schedule.leader_of(slot as int) is Some,
        parsed(packet, shred_version) is Some,
        !seen.contains(remembered(slot, merkle_root(packet, parsed(packet, shred_version)->0))),
    ensures
        verdict_on(schedule, seen, packet, shred_version, slot, now) is Signed <==> signature_fits(
            packet.take(SIGNATURE as int),
            schedule.leader_of(slot as int)->0@,
            merkle_root(packet, parsed(packet, shred_version)->0),
        ),
{
}

/// Without a schedule nothing is refused, and nothing is vouched for either.
pub proof fn no_schedule_at_all_settles_nothing(
    schedule: Schedule,
    seen: Set<SeenRoot>,
    packet: Seq<u8>,
    shred_version: u16,
    slot: u64,
    now: u64,
)
    requires
        schedule.window is None,
    ensures
        verdict_on(schedule, seen, packet, shred_version, slot, now) is Unknown,
{
}

/// A shred that claims a slot the cluster cannot have reached is refused
/// whatever its bytes are.
pub proof fn a_slot_out_of_reach_is_refused(
    schedule: Schedule,
    seen: Set<SeenRoot>,
    packet: Seq<u8>,
    shred_version: u16,
    slot: u64,
    now: u64,
)
    requires
        schedule.out_of_reach(slot as int, now),
    ensures
        verdict_on(schedule, seen, packet, shred_version, slot, now) is Forged,
{
}

/// A shred that the leader of its slot signed passes, and its root is remembered for
/// that slot.
pub proof fn a_shred_its_leader_signed_passes(
    verifier: Verifier,
    window: crate::leaders::Window,
    packet: Seq<u8>,
    shred_version: u16,
    slot: u64,
    now: u64,
    verdict: Verdict,
    post: Verifier,
)
    requires
        verifier.checked(packet, shred_version, slot, now, verdict, post),
        verifier.schedule.window == Some(window),
        window.start <= slot < window.start + window.leaders@.len(),
        parsed(packet, shred_version) is Some,
        signature_fits(
            packet.take(64),
            window.leaders@[slot - window.start]@,
            merkle_root(packet, parsed(packet, shred_version)->0),
        ),
    ensures
        verdict is Signed,
        post.events@ == verifier.events@,
        post.verified@.contains_key(
            remembered(slot, merkle_root(packet, parsed(packet, shred_version)->0)),
        ),
{
    assert(verifier.events@ + Seq::<Event>::empty() =~= verifier.events@);
}

/// A shred of a slot whose leader is known that carries another's signature, or
/// none that fits the root it hashes to, is a forgery unless that root was found
/// signed before. That is said, and the root is not remembered for it.
pub proof fn a_shred_its_leader_did_not_sign_is_forged(
    verifier: Verifier,
    window: crate::leaders::Window,
    packet: Seq<u8>,
    shred_version: u16,
    slot: u64,
    now: u64,
    verdict: Verdict,
    post: Verifier,
)
    requires
        verifier.checked(packet, shred_version, slot, now, verdict, post),
        verifier.schedule.window == Some(window),
        window.start <= slot < window.start + window.leaders@.len(),
        parsed(packet, shred_version) is Some,
        !signature_fits(
            packet.take(64),
            window.leaders@[slot - window.start]@,
            merkle_root(packet, parsed(packet, shred_version)->0),
        ),
        !verifier.verified@.contains_key(
            remembered(slot, merkle_root(packet, parsed(packet, shred_version)->0)),
        ),
    ensures
        verdict is Forged,
        post.events@ == verifier.events@.push(Event::Forged),
        forall|seen: SeenRoot| #[trigger]
            post.verified@.contains_key(seen) ==> verifier.verified@.contains_key(seen),
{
    let kept = choose|kept: Map<SeenRoot, Aged<()>>| #[trigger]
        verifier.sweeps_to(now, kept) && verdict == verdict_on(
            verifier.schedule,
            kept.dom(),
            packet,
            shred_version,
            slot,
            now,
        ) && post.verified@ == if verdict is Signed {
            let root = merkle_root(packet, parsed(packet, shred_version)->0);
            kept.insert(remembered(slot, root), Aged { updated: now, value: () })
        } else {
            kept
        };
    assert forall|seen: SeenRoot| #[trigger] kept.contains_key(
        seen,
    ) implies verifier.verified@.contains_key(seen) by {
        if verifier.verified.sweep_due(now) {
            let live = fresh(verifier.verified@, now, verifier.verified.retention());
            assert(live.submap_of(verifier.verified@));
            assert(kept.submap_of(live));
            assert(live.contains_key(seen));
        }
    }
    assert(post.events@ =~= verifier.events@.push(Event::Forged));
}

/// One signature is checked per erasure batch: once a shred has passed, any shred
/// of the same slot that hashes to the same root passes too, whatever signature it
/// carries.
pub proof fn one_check_covers_a_batch(
    verifier: Verifier,
    packet: Seq<u8>,
    shred_version: u16,
    slot: u64,
    now: u64,
    between: Verifier,
    sibling: Seq<u8>,
    later: u64,
    verdict: Verdict,
    post: Verifier,
)
    requires
        verifier.checked(packet, shred_version, slot, now, Verdict::Signed, between),
        between.checked(sibling, shred_version, slot, later, verdict, post),
        !between.verified.sweep_due(later),
        parsed(sibling, shred_version) is Some,
        merkle_root(sibling, parsed(sibling, shred_version)->0) == merkle_root(
            packet,
            parsed(packet, shred_version)->0,
        ),
    ensures
        verdict is Signed,
{
}

/// A root found signed in one slot vouches for nothing in another.
pub proof fn a_root_vouches_for_its_slot_alone(slot: u64, other: u64, root: Seq<u8>)
    requires
        slot != other,
    ensures
        remembered(slot, root) != remembered(other, root),
{
}

/// What cannot be judged is let through and counted: a slot without a known leader
/// that lies no more than 512 slots outside the window, on either side.
pub proof fn a_slot_near_the_window_is_let_through(
    verifier: Verifier,
    window: crate::leaders::Window,
    packet: Seq<u8>,
    shred_version: u16,
    slot: u64,
    now: u64,
    verdict: Verdict,
    post: Verifier,
)
    requires
        verifier.checked(packet, shred_version, slot, now, verdict, post),
        verifier.schedule.window == Some(window),
        window.start - 512 <= slot < window.start || window.start + window.leaders@.len() <= slot
            < window.start + window.leaders@.len() + 512,
    ensures
        verdict is Unknown,
        post.events@ == verifier.events@.push(Event::Unverified),
{
    assert(post.events@ =~= verifier.events@.push(Event::Unverified));
}

/// And a slot that lies further before the window, or so far behind it that at 200
/// milliseconds a slot the cluster cannot have got there since the window was
/// fetched, is refused.
pub proof fn a_slot_far_from_the_window_is_refused(
    verifier: Verifier,
    window: crate::leaders::Window,
    packet: Seq<u8>,
    shred_version: u16,
    slot: u64,
    now: u64,
    verdict: Verdict,
    post: Verifier,
)
    requires
        verifier.checked(packet, shred_version, slot, now, verdict, post),
        verifier.schedule.window == Some(window),
        slot < window.start - 512 || (window.fetched <= now && (slot - window.start
            - window.leaders@.len() - 512) * 200_000_000 > now - window.fetched),
    ensures
        verdict is Forged,
        post.events@ == verifier.events@.push(Event::Forged),
{
    if slot >= window.start - 512 {
        let since = (now - window.fetched) as int;
        let beyond = slot - window.start - window.leaders@.len() - 512;
        assert(since / 200_000_000 < beyond) by (nonlinear_arith)
            requires
                since < beyond * 200_000_000,
                since >= 0,
        ;
    }
    assert(post.events@ =~= verifier.events@.push(Event::Forged));
}

/// A check lets through what the leader of the slot signed, and finds what it did not
/// sign to be forged unless its root was found signed before.
pub proof fn a_check_goes_by_the_leaders_signature(
    verifier: &mut Verifier,
    packet: &[u8],
    shred_version: u16,
    slot: u64,
    now: u64,
    verdict: Verdict,
    window: crate::leaders::Window,
)
    requires
        call_ensures(Verifier::check_at, (verifier, packet, shred_version, slot, now), verdict),
        old(verifier).schedule.window == Some(window),
        window.start <= slot < window.start + window.leaders@.len(),
        parsed(packet@, shred_version) is Some,
    ensures
        ({
            let root = merkle_root(packet@, parsed(packet@, shred_version)->0);
            let signed = signature_fits(
                packet@.take(64),
                window.leaders@[slot - window.start]@,
                root,
            );
            &&& signed ==> verdict is Signed
            &&& !signed && !old(verifier).verified@.contains_key(remembered(slot, root))
                ==> verdict is Forged
        }),
{
    let root = merkle_root(packet@, parsed(packet@, shred_version)->0);
    if signature_fits(packet@.take(64), window.leaders@[slot - window.start]@, root) {
        a_shred_its_leader_signed_passes(
            *old(verifier),
            window,
            packet@,
            shred_version,
            slot,
            now,
            verdict,
            *final(verifier),
        );
    } else if !old(verifier).verified@.contains_key(remembered(slot, root)) {
        a_shred_its_leader_did_not_sign_is_forged(
            *old(verifier),
            window,
            packet@,
            shred_version,
            slot,
            now,
            verdict,
            *final(verifier),
        );
    }
}

/// A check of a slot whose leader is not known refuses it where it is out of reach, and
/// otherwise lets it through; either way that is counted, once, and nothing is
/// remembered for it.
pub proof fn a_slot_nobody_is_known_to_lead_goes_by_reach(
    verifier: &mut Verifier,
    packet: &[u8],
    shred_version: u16,
    slot: u64,
    now: u64,
    verdict: Verdict,
    window: crate::leaders::Window,
)
    requires
        call_ensures(Verifier::check_at, (verifier, packet, shred_version, slot, now), verdict),
        old(verifier).schedule.window == Some(window),
        slot < window.start || window.start + window.leaders@.len() <= slot,
        window.fetched <= now,
        !old(verifier).verified.sweep_due(now),
    ensures
        ({
            let beyond = slot - (window.start + window.leaders@.len() + 512);
            let refused = slot < window.start - 512 || (beyond >= 0 && now - window.fetched < (beyond
                + 1) * 200_000_000);
            &&& refused ==> verdict is Forged && final(verifier).events@ == old(
                verifier
            ).events@.push(Event::Forged)
            &&& !refused ==> verdict is Unknown && final(verifier).events@ == old(
                verifier
            ).events@.push(Event::Unverified)
        }),
        final(verifier).verified@ == old(verifier).verified@,
{
    let since = now - window.fetched;
    let beyond = slot - (window.start + window.leaders@.len() + 512);
    assert(since / 200_000_000 <= beyond <==> since < (beyond + 1) * 200_000_000);
    assert(final(verifier).events@ =~= old(verifier).events@.push(
        if verdict is Forged {
            Event::Forged
        } else {
            Event::Unverified
        },
    ));
}

/// A verifier begins with no root found signed, and remembers no more than 16384, for
/// as long as it is told.
pub proof fn a_verifier_begins_with_nothing_vouched_for(
    schedule: Schedule,
    retention: u64,
    clock: Clock,
    verifier: Verifier,
)
    requires
        call_ensures(Verifier::new, (schedule, retention, clock), verifier),
    ensures
        verifier.schedule == schedule,
        verifier.verified@.len() == 0,
        verifier.verified.retention() == retention,
        verifier.verified.cap() == 16_384,
        verifier.events@.len() == 0,
{
}

/// Another schedule is gone by from then on, and what was found signed stays so.
pub proof fn rescheduling_forgets_nothing(verifier: &mut Verifier, schedule: Schedule)
    requires
        call_ensures(Verifier::reschedule, (verifier, schedule), ()),
    ensures
        final(verifier).schedule == schedule,
        final(verifier).verified@ == old(verifier).verified@,
        final(verifier).events@ == old(verifier).events@,
{
}

} // verus!
