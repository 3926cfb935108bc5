//! Firing back.
//!
//! Everything else in this crate watches. This is the one part that acts: the
//! watched wallet's transaction surfaces out of the shred stream, and a memo
//! transaction of our own goes out in answer to it.
//!
//! What sits between the packet path and the sender is one trigger, not a queue
//! of them. A fire that has been waiting behind others is answering a slot that
//! has already gone, so there is nothing for an older trigger to be worth: a new
//! one overwrites whatever the sender has not picked up yet. The sender then
//! drops even that if it has aged past the slot it was meant for.
//!
//! The loop closes through the same shred stream it opened on: our own
//! transaction comes back to us as a shred like anyone else's, which is what
//! [`Fire::landed`] matches against. That makes the round trip measurable
//! without asking the RPC whether it worked.

use crate::addresses::{same, write_signature};
use crate::clock::{between, passed, MILLISECOND, SECOND};
use crate::metrics::Event;
use crate::text::write_number;
use solana_keypair::Keypair;
use solana_signer::Signer;
use solana_transaction::Instruction;
use std::collections::VecDeque;
use vstd::prelude::*;

verus! {

/// How old a trigger may be and still be worth answering. A slot is the whole
/// of the window the sniper is racing inside: past it, the transaction that
/// prompted this has been in a block for some time and the answer is addressed
/// to a slot nobody is building any more.
pub const MAX_TRIGGER_AGE: u64 = 400 * MILLISECOND;

/// Fires still waiting to be seen in a block. A transaction that has not landed
/// within a couple of hundred slots never will, its blockhash being long
/// expired, so the cap is about bounding memory, not about the wait.
pub const MAX_PENDING: usize = 256;

/// How long a sent transaction is kept before it is written off as never
/// landed. Comfortably past blockhash expiry, so nothing is given up on while
/// it could still be included.
pub const PENDING_TTL: u64 = 120 * SECOND;

/// The most bytes one instruction can carry: what its length prefix can say.
pub const MAX_MEMO_BYTES: usize = 65535;

/// What the packet path hands over: the watched wallet's transaction, and when
/// we had it. The clock starts here rather than at send time, because the
/// question this whole crate exists to answer is how long the answer took from
/// the moment the trigger was knowable.
#[derive(Clone, Copy, Debug)]
pub struct Trigger {
    pub slot: u64,
    pub target: [u8; 64],
    pub detected: u64,
}

/// What became of a trigger on its way to the sender.
#[derive(Clone, Copy, Debug, PartialEq, Eq, Structural)]
pub enum Handover {
    /// It is the one waiting to be answered.
    Waiting,
    /// It is waiting, and it took the place of one the sender never reached.
    Displaced,
    /// It never got there at all, which means the sender died on the way.
    /// Nothing will fire again, and this is the only sign of it.
    Lost,
}

impl Handover {
    pub open spec fn counts(self) -> Seq<Event> {
        match self {
            Handover::Waiting => seq![Event::Triggered],
            Handover::Displaced => seq![Event::Triggered, Event::Stale],
            Handover::Lost => seq![Event::Dropped],
        }
    }

    /// What to count for a trigger handed over this way. The trigger a new one
    /// overtook was never going to be answered in time.
    pub fn counted(self) -> (events: Vec<Event>)
        ensures
            events@ == self.counts(),
    {
        let mut events: Vec<Event> = Vec::new();
        match self {
            Handover::Waiting => events.push(Event::Triggered),
            Handover::Displaced => {
                events.push(Event::Triggered);
                events.push(Event::Stale);
            },
            Handover::Lost => events.push(Event::Dropped),
        }
        assert(events@ =~= self.counts());
        events
    }
}

/// What a sender that asks for a trigger gets.
#[derive(Clone, Copy, Debug)]
pub enum Taken {
    /// One to answer.
    Trigger(Trigger),
    /// None, and there will be none: the sniper is stopping.
    Stopping,
    /// None yet.
    Nothing,
}

/// The one trigger worth answering, and room for exactly that.
///
/// A queue would keep triggers in the order they arrived, which is the opposite
/// of the order they are worth: each one is about the same race, and the newest
/// knows the most about it. So this holds one, a new trigger replaces it, and
/// what it replaced is counted as overtaken rather than waited on.
pub struct Latest {
    pub trigger: Option<Trigger>,
}

impl Latest {
    pub fn new() -> (latest: Latest)
        ensures
            latest.trigger is None,
    {
        Latest { trigger: None }
    }

    pub fn put(&mut self, trigger: Trigger) -> (handover: Handover)
        ensures
            final(self).trigger == Some(trigger),
            handover == if old(self).trigger is Some {
                Handover::Displaced
            } else {
                Handover::Waiting
            },
    {
        let displaced = self.trigger.is_some();
        self.trigger = Some(trigger);
        if displaced {
            Handover::Displaced
        } else {
            Handover::Waiting
        }
    }

    /// A trigger that is waiting goes out even to a sender that is stopping, and
    /// nothing is left behind it.
    pub fn take(&mut self, exit: bool) -> (taken: Taken)
        ensures
            final(self).trigger is None,
            taken == match old(self).trigger {
                Some(trigger) => Taken::Trigger(trigger),
                None => if exit {
                    Taken::Stopping
                } else {
                    Taken::Nothing
                },
            },
    {
        match self.trigger.take() {
            Some(trigger) => Taken::Trigger(trigger),
            None => if exit {
                Taken::Stopping
            } else {
                Taken::Nothing
            },
        }
    }
}

/// A transaction we have sent and not yet seen come back.
#[derive(Clone, Copy, Debug)]
pub struct Pending {
    pub signature: [u8; 64],
    /// Slot the trigger was seen in, so landing can be reported as a distance
    /// in slots rather than only in seconds.
    pub trigger_slot: u64,
    pub sent: u64,
}

/// What the packet path found that firing has to know about.
#[derive(Clone, Copy, Debug)]
pub enum Sighting {
    /// A watched wallet's transaction, seen at `detected`.
    Target { slot: u64, signature: [u8; 64], detected: u64 },
    /// A transaction one of our own wallets paid for.
    Own { slot: u64, signature: [u8; 64] },
}

/// The first of `pending` from `from` on to have that signature, or their number
/// where none has.
pub open spec fn first_at(pending: Seq<Pending>, signature: [u8; 64], from: int) -> int
    decreases pending.len() - from,
{
    if from < 0 || from >= pending.len() {
        pending.len() as int
    } else if pending[from].signature == signature {
        from
    } else {
        first_at(pending, signature, from + 1)
    }
}

/// What is left of `pending` once the oldest of them have been given up on: those
/// past their time, and those there is no room for.
pub open spec fn kept(pending: Seq<Pending>, now: u64) -> Seq<Pending>
    decreases pending.len(),
{
    if pending.len() > 0 && (passed(pending[0].sent, now) > PENDING_TTL || pending.len()
        > MAX_PENDING) {
        kept(pending.drop_first(), now)
    } else {
        pending
    }
}

/// Giving up goes by age: whatever is kept is newer in line than everything that
/// was not, and the eldest of it is still within its time.
pub proof fn the_eldest_go_first(pending: Seq<Pending>, now: u64)
    ensures
        kept(pending, now).len() <= pending.len(),
        kept(pending, now).len() <= MAX_PENDING,
        kept(pending, now) == pending.skip(pending.len() - kept(pending, now).len()),
        kept(pending, now).len() > 0 ==> passed(kept(pending, now)[0].sent, now) <= PENDING_TTL,
    decreases pending.len(),
{
    if pending.len() > 0 && (passed(pending[0].sent, now) > PENDING_TTL || pending.len()
        > MAX_PENDING) {
        the_eldest_go_first(pending.drop_first(), now);
        let left = kept(pending, now).len();
        assert(pending.drop_first().skip(pending.drop_first().len() - left) =~= pending.skip(
            pending.len() - left,
        ));
    } else {
        assert(pending.skip(0) =~= pending);
    }
}

/// What the packet path and the sender both know: the trigger between them, and
/// the answers that are out.
pub struct Fire {
    pub latest: Latest,
    pub pending: VecDeque<Pending>,
    pub events: Vec<Event>,
}

impl Fire {
    pub fn new() -> (fire: Fire)
        ensures
            fire.latest.trigger is None,
            fire.pending@ == Seq::<Pending>::empty(),
            fire.events@ == Seq::<Event>::empty(),
    {
        Fire { latest: Latest::new(), pending: VecDeque::new(), events: Vec::new() }
    }

    /// A watched wallet's transaction has surfaced.
    pub fn trigger(&mut self, slot: u64, target: [u8; 64], detected: u64)
        ensures
            final(self).latest.trigger == Some(Trigger { slot, target, detected }),
            final(self).pending == old(self).pending,
            final(self).events@ == old(self).events@ + if old(self).latest.trigger is Some {
                Handover::Displaced.counts()
            } else {
                Handover::Waiting.counts()
            },
    {
        let handover = self.latest.put(Trigger { slot, target, detected });
        let mut events = handover.counted();
        self.events.append(&mut events);
    }

    /// One of the searcher's own transactions has come back out of the shred
    /// stream. Only ours are worth matching, so the caller filters by fee payer
    /// before this is reached and the list stays short enough to scan.
    pub fn landed(&mut self, signature: &[u8; 64], slot: u64, now: u64)
        ensures
            final(self).latest == old(self).latest,
            ({
                let pending = old(self).pending@;
                let at = first_at(pending, *signature, 0);
                if at < pending.len() {
                    &&& final(self).pending@ == pending.remove(at)
                    &&& final(self).events@ == old(self).events@.push(
                        Event::Landed {
                            round_trip: passed(pending[at].sent, now),
                            slots_behind: passed(pending[at].trigger_slot, slot),
                        },
                    )
                } else {
                    &&& final(self).pending == old(self).pending
                    &&& final(self).events == old(self).events
                }
            }),
    {
        if let Some(entry) = self.withdraw(signature) {
            let round_trip: u64 = between(entry.sent, now);
            let slots_behind: u64 = slot.saturating_sub(entry.trigger_slot);
            self.events.push(Event::Landed { round_trip, slots_behind });
        }
    }

    /// Drops a transaction that never made it onto the wire. Without this it
    /// would sit in the list until it timed out and then be counted as one that
    /// failed to land, which is a different failure with a different cause.
    pub fn forget(&mut self, signature: &[u8; 64])
        ensures
            final(self).latest == old(self).latest,
            final(self).events == old(self).events,
            ({
                let pending = old(self).pending@;
                let at = first_at(pending, *signature, 0);
                final(self).pending@ == if at < pending.len() {
                    pending.remove(at)
                } else {
                    pending
                }
            }),
    {
        let _ = self.withdraw(signature);
    }

    /// Deals with something the packet path saw. `now` is when it is dealt with.
    pub fn see(&mut self, sighting: &Sighting, now: u64)
        ensures
            match *sighting {
                Sighting::Target { slot, signature, detected } => {
                    &&& final(self).latest.trigger == Some(
                        Trigger { slot, target: signature, detected },
                    )
                    &&& final(self).pending == old(self).pending
                    &&& final(self).events@ == old(self).events@ + if old(
                        self,
                    ).latest.trigger is Some {
                        Handover::Displaced.counts()
                    } else {
                        Handover::Waiting.counts()
                    }
                },
                Sighting::Own { slot, signature } => {
                    let pending = old(self).pending@;
                    let at = first_at(pending, signature, 0);
                    &&& final(self).latest == old(self).latest
                    &&& at < pending.len() ==> final(self).pending@ == pending.remove(at)
                    &&& at < pending.len() ==> final(self).events@ == old(self).events@.push(
                        Event::Landed {
                            round_trip: passed(pending[at].sent, now),
                            slots_behind: passed(pending[at].trigger_slot, slot),
                        },
                    )
                    &&& at >= pending.len() ==> *final(self) == *old(self)
                },
            },
    {
        match sighting {
            Sighting::Target { slot, signature, detected } => {
                self.trigger(*slot, *signature, *detected);
            },
            Sighting::Own { slot, signature } => {
                self.landed(signature, *slot, now);
            },
        }
    }

    /// Takes the first entry with that signature off the list.
    fn withdraw(&mut self, signature: &[u8; 64]) -> (entry: Option<Pending>)
        ensures
            final(self).latest == old(self).latest,
            final(self).events == old(self).events,
            ({
                let pending = old(self).pending@;
                let at = first_at(pending, *signature, 0);
                match entry {
                    Some(entry) => {
                        &&& 0 <= at < pending.len()
                        &&& entry == pending[at]
                        &&& final(self).pending@ == pending.remove(at)
                    },
                    None => at == pending.len() && final(self).pending == old(self).pending,
                }
            }),
    {
        let mut i: usize = 0;
        while i < self.pending.len()
            invariant
                i <= self.pending@.len(),
                *self == *old(self),
                first_at(self.pending@, *signature, 0) == first_at(
                    self.pending@,
                    *signature,
                    i as int,
                ),
            decreases self.pending@.len() - i,
        {
            if same(&self.pending[i].signature, signature) {
                return self.pending.remove(i);
            }
            i = i + 1;
        }
        None
    }

    /// Notes a transaction that is about to be sent, and gives up on those that
    /// were never seen again.
    pub fn remember(&mut self, pending: Pending, now: u64)
        ensures
            final(self).latest == old(self).latest,
            final(self).pending@ == kept(old(self).pending@.push(pending), now),
            final(self).pending@.len() <= MAX_PENDING,
            final(self).events@ == old(self).events@ + Seq::new(
                (old(self).pending@.len() + 1 - final(self).pending@.len()) as nat,
                |i: int| Event::Lost,
            ),
    {
        self.pending.push_back(pending);
        let ghost all = self.pending@;
        proof {
            the_eldest_go_first(all, now);
        }
        assert(Seq::new(0, |i: int| Event::Lost) =~= Seq::<Event>::empty());
        while self.pending.len() > 0 && (between(self.pending[0].sent, now) > PENDING_TTL
            || self.pending.len() > MAX_PENDING)
            invariant
                self.latest == old(self).latest,
                self.pending@.len() <= all.len(),
                kept(self.pending@, now) == kept(all, now),
                self.events@ == old(self).events@ + Seq::new(
                    (all.len() - self.pending@.len()) as nat,
                    |i: int| Event::Lost,
                ),
            decreases self.pending@.len(),
        {
            let ghost before = self.pending@;
            let _ = self.pending.pop_front();
            assert(self.pending@ =~= before.drop_first());
            self.events.push(Event::Lost);
            assert(self.events@ =~= old(self).events@ + Seq::new(
                (all.len() - self.pending@.len()) as nat,
                |i: int| Event::Lost,
            ));
        }
    }

    pub fn take_events(&mut self) -> (events: Vec<Event>)
        ensures
            events@ == old(self).events@,
            final(self).events@ == Seq::<Event>::empty(),
            final(self).latest == old(self).latest,
            final(self).pending == old(self).pending,
    {
        let mut events: Vec<Event> = Vec::new();
        std::mem::swap(&mut events, &mut self.events);
        events
    }
}

/// The trigger if it is still worth answering, `None` if it has aged out.
///
/// Being the only trigger there is does not make one worth sending. [`Latest`]
/// has already thrown away everything this one overtook, but a send that
/// outlasted the race leaves even the survivor addressed to a block that has
/// since been built.
pub fn fresh_enough(trigger: Trigger, now: u64) -> (fresh: Option<Trigger>)
    ensures
        fresh == if passed(trigger.detected, now) > MAX_TRIGGER_AGE {
            None
        } else {
            Some(trigger)
        },
{
    if between(trigger.detected, now) > MAX_TRIGGER_AGE {
        None
    } else {
        Some(trigger)
    }
}

/// What an answer says: what the operator wants said, the slot it answers, its
/// number and the transaction it is in answer to.
pub open spec fn memo(prefix: Seq<char>, slot: u64, nonce: u64, target: [u8; 64]) -> Seq<char> {
    prefix + " slot="@ + crate::text::decimal(slot as nat) + " n="@ + crate::text::decimal(
        nonce as nat,
    ) + " target="@ + crate::addresses::signature_text(target@)
}

pub fn write_memo(prefix: &str, slot: u64, nonce: u64, target: &[u8; 64]) -> (text: String)
    ensures
        text@ == memo(prefix@, slot, nonce, *target),
{
    let mut text = prefix.to_owned();
    text.append(" slot=");
    text.append(write_number(slot).as_str());
    text.append(" n=");
    text.append(write_number(nonce).as_str());
    text.append(" target=");
    text.append(write_signature(target).as_str());
    text
}

/// The transaction that calls a memo program, and its signature: what
/// `Transaction::new_signed_with_payer` builds of one instruction that carries
/// the memo and names no accounts, paid for and signed by the keypair, in the
/// form `bincode` writes it. `None` where the 64 bytes are no keypair.
pub uninterp spec fn memo_transaction(
    keypair: Seq<u8>,
    program: Seq<u8>,
    memo: Seq<u8>,
    blockhash: Seq<u8>,
) -> Option<(Seq<u8>, Seq<u8>)>;

/// The memo `bincode` reads back out of a transaction it wrote: the data of its
/// first instruction.
pub uninterp spec fn memo_on_wire(wire: Seq<u8>) -> Seq<u8>;

/// Calls `Keypair::try_from`, `Transaction::new_signed_with_payer` and
/// `bincode::serialize`. Signing is deterministic, so the outcome is a matter of
/// the arguments alone, and the memo is part of what is written. A memo that its
/// length prefix cannot account for would make signing panic.
#[verifier::external_body]
fn sign_memo(
    keypair: &[u8; 64],
    program: &[u8; 32],
    memo: &[u8],
    blockhash: &[u8; 32],
) -> (signed: Option<(Vec<u8>, [u8; 64])>)
    requires
        memo@.len() <= MAX_MEMO_BYTES,
    ensures
        match signed {
            Some((wire, signature)) => memo_transaction(keypair@, program@, memo@, blockhash@)
                == Some((wire@, signature@)),
            None => memo_transaction(keypair@, program@, memo@, blockhash@) is None,
        },
        signed matches Some((wire, _)) ==> memo_on_wire(wire@) == memo@,
{
    let keypair = Keypair::try_from(&keypair[..]).ok()?;
    let instruction = Instruction::new_with_bytes((*program).into(), memo, Vec::new());
    let transaction = solana_transaction::Transaction::new_signed_with_payer(
        &[instruction],
        Some(&keypair.pubkey()),
        &[&keypair],
        (*blockhash).into(),
    );
    let wire = bincode::serialize(&transaction).ok()?;
    let signature = transaction.signatures.first()?;
    Some((wire, (*signature).into()))
}

/// What becomes of a trigger the sender has taken.
#[derive(Clone, Copy, Debug, PartialEq, Eq, Structural)]
pub enum Verdict {
    /// It has aged out. Counted as stale rather than skipped: a cooldown is a
    /// decision not to fire, and this is a fire that would have missed.
    Stale,
    /// It comes too soon after the last answer.
    Cooling,
    /// There is no blockhash to sign with yet.
    Blind,
    /// It is to be answered.
    Clear,
}

/// A trigger to be answered, and what with.
#[derive(Clone, Copy, Debug)]
pub struct Aim {
    pub trigger: Trigger,
    pub blockhash: [u8; 32],
    pub nonce: u64,
}

/// A transaction ready to go out.
pub struct Shot {
    pub wire: Vec<u8>,
    pub signature: [u8; 64],
}

/// The side that answers.
pub struct Sender {
    pub keypair: [u8; 64],
    pub memo_program: [u8; 32],
    pub memo: String,
    pub cooldown: u64,
    pub last_fired: Option<u64>,
    pub fired: u64,
    pub events: Vec<Event>,
}

impl Sender {
    pub fn new(keypair: [u8; 64], memo_program: [u8; 32], memo: String, cooldown: u64) -> (sender:
        Sender)
        ensures
            sender.keypair == keypair,
            sender.memo_program == memo_program,
            sender.memo == memo,
            sender.cooldown == cooldown,
            sender.last_fired is None,
            sender.fired == 0,
            sender.events@ == Seq::<Event>::empty(),
    {
        Sender {
            keypair,
            memo_program,
            memo,
            cooldown,
            last_fired: None,
            fired: 0,
            events: Vec::new(),
        }
    }

    /// Everything that decides what a fire looks like, as opposed to when it
    /// comes.
    pub open spec fn armed_like(self, other: Sender) -> bool {
        &&& self.keypair == other.keypair
        &&& self.memo_program == other.memo_program
        &&& self.memo == other.memo
        &&& self.cooldown == other.cooldown
    }

    pub open spec fn verdict(self, trigger: Trigger, blockhash: Option<[u8; 32]>, now: u64)
        -> Verdict {
        if passed(trigger.detected, now) > MAX_TRIGGER_AGE {
            Verdict::Stale
        } else if self.last_fired matches Some(last) && passed(last, now) < self.cooldown {
            Verdict::Cooling
        } else if blockhash is None {
            Verdict::Blind
        } else {
            Verdict::Clear
        }
    }

    /// What deciding on a trigger comes to, and what it leaves of the sender.
    pub open spec fn considered(
        self,
        trigger: Trigger,
        blockhash: Option<[u8; 32]>,
        now: u64,
        aim: Option<Aim>,
        post: Sender,
    ) -> bool {
        &&& post.armed_like(self)
        &&& match self.verdict(trigger, blockhash, now) {
            Verdict::Clear => {
                &&& aim == Some(Aim { trigger, blockhash: blockhash.unwrap(), nonce: post.fired })
                &&& post.fired == self.fired.wrapping_add(1)
                &&& post.last_fired == Some(now)
                &&& post.events == self.events
            },
            verdict => {
                &&& aim is None
                &&& post.fired == self.fired
                &&& post.last_fired == self.last_fired
                &&& post.events@ == self.events@.push(
                    match verdict {
                        Verdict::Stale => Event::Stale,
                        Verdict::Cooling => Event::Skipped,
                        _ => Event::Failed,
                    },
                )
            },
        }
    }

    /// Decides on a trigger. Each answer gets a number of its own.
    pub fn consider(&mut self, trigger: Trigger, blockhash: Option<[u8; 32]>, now: u64) -> (aim:
        Option<Aim>)
        ensures
            old(self).considered(trigger, blockhash, now, aim, *final(self)),
    {
        let trigger = match fresh_enough(trigger, now) {
            Some(trigger) => trigger,
            None => {
                self.events.push(Event::Stale);
                return None;
            },
        };
        if let Some(last) = self.last_fired {
            if between(last, now) < self.cooldown {
                self.events.push(Event::Skipped);
                return None;
            }
        }
        match blockhash {
            None => {
                self.events.push(Event::Failed);
                None
            },
            Some(blockhash) => {
                self.fired = self.fired.wrapping_add(1);
                self.last_fired = Some(now);
                Some(Aim { trigger, blockhash, nonce: self.fired })
            },
        }
    }

    /// What the memo program is called with.
    pub open spec fn said(self, aim: Aim) -> Seq<u8> {
        vstd::utf8::encode_utf8(
            memo(self.memo@, aim.trigger.slot, aim.nonce, aim.trigger.target),
        )
    }

    /// The transaction an aim comes to, and its signature.
    pub open spec fn shot(self, aim: Aim) -> Option<(Seq<u8>, Seq<u8>)> {
        if self.said(aim).len() <= MAX_MEMO_BYTES {
            memo_transaction(self.keypair@, self.memo_program@, self.said(aim), aim.blockhash@)
        } else {
            None
        }
    }

    /// Signs the answer and registers it.
    ///
    /// Two fires with the same text and blockhash are the same transaction down
    /// to the signature, and the second is discarded as a duplicate. The nonce is
    /// what keeps every one of them its own transaction.
    ///
    /// Registered before the send rather than after it: the memo can be in a
    /// block, and therefore back on our own TVU socket, before the send has
    /// finished returning. A memo too long for any transaction is a fire that
    /// failed.
    pub fn fire(&mut self, fire: &mut Fire, aim: &Aim, now: u64) -> (shot: Option<Shot>)
        ensures
            final(self).armed_like(*old(self)),
            final(self).fired == old(self).fired,
            final(self).last_fired == old(self).last_fired,
            final(fire).latest == old(fire).latest,
            match old(self).shot(*aim) {
                Some((wire, signature)) => {
                    &&& shot matches Some(shot)
                    &&& shot.wire@ == wire
                    &&& shot.signature@ == signature
                    &&& memo_on_wire(wire) == old(self).said(*aim)
                    &&& final(self).events == old(self).events
                    &&& final(fire).pending@ == kept(
                        old(fire).pending@.push(
                            Pending {
                                signature: shot.signature,
                                trigger_slot: aim.trigger.slot,
                                sent: now,
                            },
                        ),
                        now,
                    )
                    &&& final(fire).events@ == old(fire).events@ + Seq::new(
                        (old(fire).pending@.len() + 1 - final(fire).pending@.len()) as nat,
                        |i: int| Event::Lost,
                    )
                },
                None => {
                    &&& shot is None
                    &&& final(self).events@ == old(self).events@.push(Event::Failed)
                    &&& *final(fire) == *old(fire)
                },
            },
    {
        let text = write_memo(
            self.memo.as_str(),
            aim.trigger.slot,
            aim.nonce,
            &aim.trigger.target,
        );
        let said = text.as_str().as_bytes();
        let signed = if said.len() <= MAX_MEMO_BYTES {
            sign_memo(&self.keypair, &self.memo_program, said, &aim.blockhash)
        } else {
            None
        };
        self.load(fire, aim, signed, now)
    }

    /// What signing came to, registered if it came to anything.
    pub fn load(
        &mut self,
        fire: &mut Fire,
        aim: &Aim,
        signed: Option<(Vec<u8>, [u8; 64])>,
        now: u64,
    ) -> (shot: Option<Shot>)
        ensures
            final(self).armed_like(*old(self)),
            final(self).fired == old(self).fired,
            final(self).last_fired == old(self).last_fired,
            final(fire).latest == old(fire).latest,
            match signed {
                Some((wire, signature)) => {
                    &&& shot == Some(Shot { wire, signature })
                    &&& final(self).events == old(self).events
                    &&& final(fire).pending@ == kept(
                        old(fire).pending@.push(
                            Pending { signature, trigger_slot: aim.trigger.slot, sent: now },
                        ),
                        now,
                    )
                    &&& final(fire).events@ == old(fire).events@ + Seq::new(
                        (old(fire).pending@.len() + 1 - final(fire).pending@.len()) as nat,
                        |i: int| Event::Lost,
                    )
                },
                None => {
                    &&& shot is None
                    &&& final(self).events@ == old(self).events@.push(Event::Failed)
                    &&& *final(fire) == *old(fire)
                },
            },
    {
        match signed {
            Some((wire, signature)) => {
                fire.remember(
                    Pending { signature, trigger_slot: aim.trigger.slot, sent: now },
                    now,
                );
                Some(Shot { wire, signature })
            },
            None => {
                self.events.push(Event::Failed);
                None
            },
        }
    }

    /// Takes note of what became of a send that ran from `started` to `ended`.
    pub fn settle(
        &mut self,
        fire: &mut Fire,
        trigger: &Trigger,
        signature: &[u8; 64],
        delivered: bool,
        started: u64,
        ended: u64,
    )
        ensures
            final(self).armed_like(*old(self)),
            final(self).fired == old(self).fired,
            final(self).last_fired == old(self).last_fired,
            final(fire).latest == old(fire).latest,
            final(fire).events == old(fire).events,
            final(self).events@ == old(self).events@.push(
                if delivered {
                    Event::Sent {
                        reaction: passed(trigger.detected, ended),
                        send: passed(started, ended),
                    }
                } else {
                    Event::Failed
                },
            ),
            ({
                let pending = old(fire).pending@;
                let at = first_at(pending, *signature, 0);
                final(fire).pending@ == if !delivered && at < pending.len() {
                    pending.remove(at)
                } else {
                    pending
                }
            }),
    {
        if delivered {
            let reaction: u64 = between(trigger.detected, ended);
            let send: u64 = between(started, ended);
            self.events.push(Event::Sent { reaction, send });
        } else {
            fire.forget(signature);
            self.events.push(Event::Failed);
        }
    }

    pub fn take_events(&mut self) -> (events: Vec<Event>)
        ensures
            events@ == old(self).events@,
            final(self).events@ == Seq::<Event>::empty(),
            final(self).armed_like(*old(self)),
            final(self).fired == old(self).fired,
            final(self).last_fired == old(self).last_fired,
    {
        let mut events: Vec<Event> = Vec::new();
        std::mem::swap(&mut events, &mut self.events);
        events
    }
}

/// The most recent blockhash, refreshed apart from sending so that the send path
/// never pays an RPC round trip it could have paid earlier.
pub struct Blockhash {
    pub current: Option<([u8; 32], u64)>,
}

impl Blockhash {
    pub fn new() -> (blockhash: Blockhash)
        ensures
            blockhash.current is None,
    {
        Blockhash { current: None }
    }

    pub fn set(&mut self, hash: [u8; 32], now: u64)
        ensures
            final(self).current == Some((hash, now)),
    {
        self.current = Some((hash, now));
    }

    pub fn get(&self) -> (hash: Option<[u8; 32]>)
        ensures
            hash == match self.current {
                Some((hash, _)) => Some(hash),
                None => None,
            },
    {
        match self.current {
            Some((hash, _)) => Some(hash),
            None => None,
        }
    }

    pub fn age(&self, now: u64) -> (age: Option<u64>)
        ensures
            age == match self.current {
                Some((_, fetched)) => Some(passed(fetched, now)),
                None => None,
            },
    {
        match self.current {
            Some((_, fetched)) => Some(between(fetched, now)),
            None => None,
        }
    }
}

/// Two texts that begin with a number and go on with the same text, which does
/// not begin with a figure, begin with the same number.
proof fn lemma_same_number(
    left: nat,
    left_rest: Seq<char>,
    right: nat,
    right_rest: Seq<char>,
    word: Seq<char>,
)
    requires
        word.len() > 0,
        word[0] == ' ',
        crate::text::decimal(left) + word + left_rest == crate::text::decimal(right) + word
            + right_rest,
    ensures
        left == right,
        left_rest == right_rest,
{
    let a = crate::text::decimal(left);
    let b = crate::text::decimal(right);
    crate::text::decimals_are_figures(left);
    crate::text::decimals_are_figures(right);
    let x = a + word + left_rest;
    let y = b + word + right_rest;
    assert(x[a.len() as int] == ' ');
    assert(y[b.len() as int] == ' ');
    if a.len() < b.len() {
        assert(y[a.len() as int] == b[a.len() as int]);
    }
    if b.len() < a.len() {
        assert(x[b.len() as int] == a[b.len() as int]);
    }
    assert(a =~= x.take(a.len() as int));
    assert(b =~= y.take(a.len() as int));
    crate::text::decimals_are_told_apart(left, right);
    assert(left_rest =~= x.skip((a.len() + word.len()) as int));
    assert(right_rest =~= y.skip((a.len() + word.len()) as int));
}

/// Two answers with different numbers never say the same thing, whatever slots
/// and transactions they are about.
pub proof fn memos_tell_fires_apart(
    prefix: Seq<char>,
    slot: u64,
    nonce: u64,
    target: [u8; 64],
    other_slot: u64,
    other_nonce: u64,
    other_target: [u8; 64],
)
    requires
        nonce != other_nonce,
    ensures
        memo(prefix, slot, nonce, target) != memo(prefix, other_slot, other_nonce, other_target),
        vstd::utf8::encode_utf8(memo(prefix, slot, nonce, target)) != vstd::utf8::encode_utf8(
            memo(prefix, other_slot, other_nonce, other_target),
        ),
{
    let one = memo(prefix, slot, nonce, target);
    let two = memo(prefix, other_slot, other_nonce, other_target);
    if one == two {
        reveal_strlit(" slot=");
        reveal_strlit(" n=");
        reveal_strlit(" target=");
        let head = prefix + " slot="@;
        let one_tail = " target="@ + crate::addresses::signature_text(target@);
        let two_tail = " target="@ + crate::addresses::signature_text(other_target@);
        let one_number = crate::text::decimal(nonce as nat) + one_tail;
        let two_number = crate::text::decimal(other_nonce as nat) + two_tail;
        let one_rest = crate::text::decimal(slot as nat) + " n="@ + one_number;
        let two_rest = crate::text::decimal(other_slot as nat) + " n="@ + two_number;
        assert(one =~= head + one_rest);
        assert(two =~= head + two_rest);
        assert(one_rest =~= one.skip(head.len() as int));
        assert(two_rest =~= two.skip(head.len() as int));
        lemma_same_number(slot as nat, one_number, other_slot as nat, two_number, " n="@);
        assert(one_number =~= crate::text::decimal(nonce as nat) + " target="@
            + crate::addresses::signature_text(target@));
        assert(two_number =~= crate::text::decimal(other_nonce as nat) + " target="@
            + crate::addresses::signature_text(other_target@));
        lemma_same_number(
            nonce as nat,
            crate::addresses::signature_text(target@),
            other_nonce as nat,
            crate::addresses::signature_text(other_target@),
            " target="@,
        );
    }
    vstd::utf8::encode_utf8_decode_utf8(one);
    vstd::utf8::encode_utf8_decode_utf8(two);
}

/// A memo names what it answers: what the operator wants said comes first, and two
/// that say the same are about the same slot, carry the same number and name the same
/// transaction.
pub proof fn a_memo_names_what_it_answers(
    prefix: Seq<char>,
    slot: u64,
    nonce: u64,
    target: [u8; 64],
    other_slot: u64,
    other_nonce: u64,
    other_target: [u8; 64],
)
    ensures
        memo(prefix, slot, nonce, target).len() > prefix.len(),
        memo(prefix, slot, nonce, target).take(prefix.len() as int) == prefix,
        memo(prefix, slot, nonce, target) == memo(prefix, other_slot, other_nonce, other_target)
            ==> slot == other_slot && nonce == other_nonce && crate::addresses::signature_text(
            target@,
        ) == crate::addresses::signature_text(other_target@),
{
    reveal_strlit(" slot=");
    reveal_strlit(" n=");
    reveal_strlit(" target=");
    let one = memo(prefix, slot, nonce, target);
    let two = memo(prefix, other_slot, other_nonce, other_target);
    assert(one.take(prefix.len() as int) =~= prefix);
    if one == two {
        let head = prefix + " slot="@;
        let one_number = crate::text::decimal(nonce as nat) + " target="@
            + crate::addresses::signature_text(target@);
        let two_number = crate::text::decimal(other_nonce as nat) + " target="@
            + crate::addresses::signature_text(other_target@);
        let one_rest = crate::text::decimal(slot as nat) + " n="@ + one_number;
        let two_rest = crate::text::decimal(other_slot as nat) + " n="@ + two_number;
        assert(one =~= head + one_rest);
        assert(two =~= head + two_rest);
        assert(one_rest =~= one.skip(head.len() as int));
        assert(two_rest =~= two.skip(head.len() as int));
        lemma_same_number(slot as nat, one_number, other_slot as nat, two_number, " n="@);
        lemma_same_number(
            nonce as nat,
            crate::addresses::signature_text(target@),
            other_nonce as nat,
            crate::addresses::signature_text(other_target@),
            " target="@,
        );
    }
}

/// An answer is signed with our key, calls the memo program with the memo that goes
/// with it, and is built on the blockhash it was aimed with. One whose memo fits no
/// transaction is not built at all.
pub proof fn an_answer_is_built_as_it_was_aimed(sender: Sender, aim: Aim)
    ensures
        ({
            let said = vstd::utf8::encode_utf8(
                memo(sender.memo@, aim.trigger.slot, aim.nonce, aim.trigger.target),
            );
            sender.shot(aim) == if said.len() <= 65_535 {
                memo_transaction(sender.keypair@, sender.memo_program@, said, aim.blockhash@)
            } else {
                None
            }
        }),
{
}

/// Answers with different numbers are different transactions.
pub proof fn no_two_fires_are_the_same_transaction(
    sender: Sender,
    aim: Aim,
    wire: Seq<u8>,
    other: Aim,
    other_wire: Seq<u8>,
)
    requires
        aim.nonce != other.nonce,
        memo_on_wire(wire) == sender.said(aim),
        memo_on_wire(other_wire) == sender.said(other),
    ensures
        wire != other_wire,
{
    memos_tell_fires_apart(
        sender.memo@,
        aim.trigger.slot,
        aim.nonce,
        aim.trigger.target,
        other.trigger.slot,
        other.nonce,
        other.trigger.target,
    );
}

/// A trigger is answered only while it is fresh, and no sooner after the last
/// answer than the cooldown allows.
pub proof fn answers_keep_their_distance(
    sender: Sender,
    trigger: Trigger,
    blockhash: Option<[u8; 32]>,
    now: u64,
)
    requires
        sender.verdict(trigger, blockhash, now) is Clear,
    ensures
        passed(trigger.detected, now) <= MAX_TRIGGER_AGE,
        sender.last_fired matches Some(last) ==> passed(last, now) >= sender.cooldown,
        blockhash is Some,
{
}

/// One decision of a sender: what it was about, and the sender before and after.
pub struct Decision {
    pub before: Sender,
    pub trigger: Trigger,
    pub blockhash: Option<[u8; 32]>,
    pub now: u64,
    pub aim: Option<Aim>,
    pub after: Sender,
}

impl Decision {
    /// The sender decided as it does.
    pub open spec fn made(self) -> bool {
        self.before.considered(self.trigger, self.blockhash, self.now, self.aim, self.after)
    }

    /// Nothing that bears on decisions happened to the sender between this one
    /// and the next.
    pub open spec fn leads_to(self, next: Decision) -> bool {
        &&& next.before.armed_like(self.after)
        &&& next.before.fired == self.after.fired
        &&& next.before.last_fired == self.after.last_fired
    }
}

/// Everything a sender ever decided on, from when it was made. Whatever it sent
/// and settled in between leaves what it decides by alone.
pub open spec fn decided(steps: Seq<Decision>) -> bool {
    &&& steps.len() > 0 ==> steps[0].before.fired == 0 && steps[0].before.last_fired is None
    &&& forall|i: int| 0 <= i < steps.len() ==> (#[trigger] steps[i]).made()
    &&& forall|i: int, j: int|
        0 <= i && j == i + 1 && j < steps.len() ==> (#[trigger] steps[i]).leads_to(
            #[trigger] steps[j],
        )
}

/// How many of the first `n` decisions were to answer.
pub open spec fn answered(steps: Seq<Decision>, n: int) -> nat
    decreases n,
{
    if n <= 0 {
        0
    } else {
        answered(steps, n - 1) + if steps[n - 1].aim is Some {
            1nat
        } else {
            0
        }
    }
}

proof fn lemma_answered(steps: Seq<Decision>, i: int, j: int)
    requires
        0 <= i <= j,
    ensures
        answered(steps, i) <= answered(steps, j) <= j,
    decreases j,
{
    if i < j {
        lemma_answered(steps, i, j - 1);
    } else if j > 0 {
        lemma_answered(steps, i - 1, j - 1);
    }
}

/// What a sender has come to when it decides for the `n`-th time.
proof fn lemma_decided(steps: Seq<Decision>, n: int)
    requires
        decided(steps),
        0 <= n < steps.len() <= u64::MAX,
    ensures
        steps[n].before.armed_like(steps[0].before),
        steps[n].before.fired == answered(steps, n),
        steps[n].before.last_fired matches Some(last) ==> forall|i: int|
            0 <= i < n && (#[trigger] steps[i]).aim is Some && steps[0].before.cooldown > 0
                ==> steps[i].now <= last,
        steps[n].before.last_fired is None ==> forall|i: int|
            0 <= i < n ==> (#[trigger] steps[i]).aim is None,
    decreases n,
{
    if n > 0 {
        lemma_decided(steps, n - 1);
        lemma_answered(steps, n, n);
        lemma_answered(steps, n - 1, n - 1);
        assert(steps[n - 1].made());
        assert(steps[n - 1].leads_to(steps[n]));
    }
}

/// The cooldown holds for as long as the sender runs: no two answers, however
/// many came between them, are closer together.
pub proof fn no_two_answers_are_closer_than_the_cooldown(steps: Seq<Decision>, i: int, j: int)
    requires
        decided(steps),
        0 <= i < j < steps.len() <= u64::MAX,
        steps[i].aim is Some,
        steps[j].aim is Some,
    ensures
        passed(steps[i].now, steps[j].now) >= steps[0].before.cooldown,
{
    lemma_decided(steps, j);
    assert(steps[j].made());
}

/// Answers are counted: the first is number one, and each after it the next.
pub proof fn answers_are_counted(steps: Seq<Decision>, i: int)
    requires
        decided(steps),
        0 <= i < steps.len() <= u64::MAX,
        steps[i].aim is Some,
    ensures
        steps[i].aim->0.nonce == answered(steps, i) + 1,
{
    lemma_decided(steps, i);
    lemma_answered(steps, i, i);
    assert(steps[i].made());
}

/// A later answer has a higher number, and so is another transaction: whatever
/// goes on the wire for two answers with the memos that go with them differs.
pub proof fn no_two_answers_are_the_same_transaction(
    steps: Seq<Decision>,
    i: int,
    j: int,
    wire: Seq<u8>,
    other_wire: Seq<u8>,
)
    requires
        decided(steps),
        0 <= i < j < steps.len() <= u64::MAX,
        steps[i].aim is Some,
        steps[j].aim is Some,
        memo_on_wire(wire) == steps[i].after.said(steps[i].aim->0),
        memo_on_wire(other_wire) == steps[j].after.said(steps[j].aim->0),
    ensures
        steps[i].aim->0.nonce < steps[j].aim->0.nonce,
        wire != other_wire,
{
    answers_are_counted(steps, i);
    answers_are_counted(steps, j);
    lemma_answered(steps, i + 1, j);
    lemma_decided(steps, i);
    lemma_decided(steps, j);
    assert(steps[i].made() && steps[j].made());
    no_two_fires_are_the_same_transaction(
        steps[i].after,
        steps[i].aim->0,
        wire,
        steps[j].aim->0,
        other_wire,
    );
}

/// A send that failed leaves nothing behind to be counted as lost or landed: what
/// forgetting takes off the list is exactly what was put on it.
pub proof fn a_failed_send_leaves_nothing_pending(pending: Seq<Pending>, entry: Pending)
    requires
        forall|i: int| 0 <= i < pending.len() ==> pending[i].signature != entry.signature,
    ensures
        first_at(pending.push(entry), entry.signature, 0) == pending.len(),
        pending.push(entry).remove(pending.len() as int) == pending,
{
    lemma_last_is_first(pending, entry, 0);
    assert(pending.push(entry).remove(pending.len() as int) =~= pending);
}

proof fn lemma_last_is_first(pending: Seq<Pending>, entry: Pending, from: int)
    requires
        0 <= from <= pending.len(),
        forall|i: int| 0 <= i < pending.len() ==> pending[i].signature != entry.signature,
    ensures
        first_at(pending.push(entry), entry.signature, from) == pending.len(),
    decreases pending.len() - from,
{
    if from < pending.len() {
        lemma_last_is_first(pending, entry, from + 1);
    }
}

/// A trigger is worth answering for the 400 milliseconds of a slot, and not after.
pub proof fn a_trigger_is_fresh_for_a_slot(trigger: Trigger, now: u64, fresh: Option<Trigger>)
    requires
        call_ensures(fresh_enough, (trigger, now), fresh),
    ensures
        now <= trigger.detected + 400_000_000 ==> fresh == Some(trigger),
        now > trigger.detected + 400_000_000 ==> fresh is None,
{
}

/// A trigger that is fresh is answered as soon as the cooldown is over and there is a
/// blockhash to sign with: the answer is about that trigger, signed with that
/// blockhash, and the next in number. Otherwise there is none, and why is said: it
/// is too old, or else too soon, or else there is no blockhash.
pub proof fn a_fresh_trigger_is_answered(
    sender: Sender,
    trigger: Trigger,
    blockhash: Option<[u8; 32]>,
    now: u64,
    aim: Option<Aim>,
    post: Sender,
)
    requires
        sender.considered(trigger, blockhash, now, aim, post),
    ensures
        ({
            let fresh = now <= trigger.detected + 400_000_000;
            let cooled = sender.last_fired is None || now >= sender.last_fired->0 + sender.cooldown
                || sender.cooldown == 0;
            &&& fresh && cooled && blockhash is Some ==> {
                &&& aim matches Some(aim)
                &&& aim.trigger == trigger
                &&& aim.blockhash == blockhash->0
                &&& sender.fired < u64::MAX ==> aim.nonce == sender.fired + 1
                &&& post.fired == aim.nonce
                &&& post.last_fired == Some(now)
                &&& post.events@ == sender.events@
            }
            &&& !(fresh && cooled && blockhash is Some) ==> {
                &&& aim is None
                &&& post.fired == sender.fired
                &&& post.last_fired == sender.last_fired
                &&& post.events@.len() == sender.events@.len() + 1
                &&& post.events@.drop_last() == sender.events@
                &&& post.events@.last() is Stale <==> !fresh
                &&& post.events@.last() is Skipped <==> fresh && !cooled
                &&& post.events@.last() is Failed <==> fresh && cooled
            }
        }),
{
    if aim is None {
        assert(post.events@.drop_last() =~= sender.events@);
    }
}

/// The first of a run to have a signature has it, and none before it does; where
/// none has it there is none.
pub proof fn the_first_match_is_found(pending: Seq<Pending>, signature: [u8; 64], from: int)
    requires
        0 <= from <= pending.len(),
    ensures
        from <= first_at(pending, signature, from) <= pending.len(),
        first_at(pending, signature, from) < pending.len() ==> pending[first_at(
            pending,
            signature,
            from,
        )].signature == signature,
        forall|i: int|
            from <= i < first_at(pending, signature, from) ==> (#[trigger] pending[i]).signature
                != signature,
    decreases pending.len() - from,
{
    if from < pending.len() && pending[from].signature != signature {
        the_first_match_is_found(pending, signature, from + 1);
    }
}

/// Whatever was sent within two minutes is waited for, as long as there is no more
/// of it than 256.
pub proof fn what_was_sent_is_waited_for(pending: Seq<Pending>, now: u64)
    requires
        pending.len() <= 256,
        forall|i: int|
            0 <= i < pending.len() ==> now <= (#[trigger] pending[i]).sent + 120_000_000_000,
    ensures
        kept(pending, now) == pending,
{
}

/// What was sent more than two minutes ago is not, and nor is the eldest of more than
/// 256.
pub proof fn what_never_landed_is_given_up(pending: Seq<Pending>, now: u64)
    requires
        pending.len() > 0,
        now > pending[0].sent + 120_000_000_000 || pending.len() > 256,
    ensures
        kept(pending, now) == kept(pending.drop_first(), now),
{
}

/// An answer that comes back is timed from when it went out, in nanoseconds, and in
/// slots from its trigger, once: afterwards nothing is waited for but what was
/// before, and seeing it again changes nothing.
pub proof fn an_answer_that_lands_is_timed_once(
    sent: &mut Fire,
    answer: Pending,
    landed: &mut Fire,
    again: &mut Fire,
    slot: u64,
    now: u64,
)
    requires
        call_ensures(Fire::remember, (sent, answer, answer.sent), ()),
        call_ensures(Fire::landed, (landed, &answer.signature, slot, now), ()),
        call_ensures(Fire::landed, (again, &answer.signature, slot, now), ()),
        *old(landed) == *final(sent),
        *old(again) == *final(landed),
        old(sent).pending@.len() < 256,
        forall|i: int|
            0 <= i < old(sent).pending@.len() ==> (#[trigger] old(sent).pending@[i]).signature
                != answer.signature && answer.sent <= old(sent).pending@[i].sent + 120_000_000_000,
        answer.sent <= now,
        answer.trigger_slot <= slot,
    ensures
        final(sent).pending@ == old(sent).pending@.push(answer),
        final(sent).events@ == old(sent).events@,
        final(landed).pending@ == old(sent).pending@,
        final(landed).events@ == old(sent).events@.push(
            Event::Landed {
                round_trip: (now - answer.sent) as u64,
                slots_behind: (slot - answer.trigger_slot) as u64,
            },
        ),
        final(again).pending@ == old(sent).pending@,
        final(again).events@ == final(landed).events@,
        final(again).latest == old(sent).latest,
{
    let before = *old(sent);
    let all = before.pending@.push(answer);
    assert forall|i: int| 0 <= i < all.len() implies answer.sent <= (#[trigger] all[i]).sent
        + 120_000_000_000 by {
        if i < before.pending@.len() {
            assert(all[i] == before.pending@[i]);
        }
    }
    what_was_sent_is_waited_for(all, answer.sent);
    assert(final(sent).events@ =~= before.events@);
    lemma_last_is_first(before.pending@, answer, 0);
    assert(all.remove(before.pending@.len() as int) =~= before.pending@);
    the_first_match_is_found(before.pending@, answer.signature, 0);
}

/// The newest trigger is the one that waits, whatever waited before it, and that one
/// was displaced is told.
pub proof fn the_newest_trigger_waits(latest: &mut Latest, trigger: Trigger, handover: Handover)
    requires
        call_ensures(Latest::put, (latest, trigger), handover),
    ensures
        final(latest).trigger == Some(trigger),
        handover is Displaced <==> old(latest).trigger is Some,
        handover is Waiting <==> old(latest).trigger is None,
{
}

/// A trigger that waits is handed out once, and before the sender is told to stop.
pub proof fn a_waiting_trigger_goes_out_once(latest: &mut Latest, exit: bool, taken: Taken)
    requires
        call_ensures(Latest::take, (latest, exit), taken),
    ensures
        final(latest).trigger is None,
        old(latest).trigger matches Some(trigger) ==> taken == Taken::Trigger(trigger),
        old(latest).trigger is None ==> !(taken is Trigger) && (taken is Stopping <==> exit),
{
}

/// A send is accounted for: one that went through is timed from its trigger and from
/// its own beginning, and stays to be waited for; one that did not is a failure, and
/// is waited for no longer.
pub proof fn a_send_is_accounted_for(
    sender: &mut Sender,
    fire: &mut Fire,
    trigger: &Trigger,
    signature: &[u8; 64],
    delivered: bool,
    started: u64,
    ended: u64,
    at: int,
)
    requires
        call_ensures(
            Sender::settle,
            (sender, fire, trigger, signature, delivered, started, ended),
            (),
        ),
        trigger.detected <= ended,
        started <= ended,
        0 <= at < old(fire).pending@.len(),
        old(fire).pending@[at].signature == *signature,
        forall|i: int| 0 <= i < at ==> (#[trigger] old(fire).pending@[i]).signature != *signature,
    ensures
        delivered ==> final(sender).events@ == old(sender).events@.push(
            Event::Sent {
                reaction: (ended - trigger.detected) as u64,
                send: (ended - started) as u64,
            },
        ) && final(fire).pending@ == old(fire).pending@,
        !delivered ==> final(sender).events@ == old(sender).events@.push(Event::Failed),
        !delivered ==> final(fire).pending@ == old(fire).pending@.remove(at),
{
    the_first_match_is_found(old(fire).pending@, *signature, 0);
    let found = first_at(old(fire).pending@, *signature, 0);
    if found < at {
        assert(old(fire).pending@[found].signature == *signature);
    }
}

/// A shot is what signing gives, with the transaction registered before it goes out:
/// by its signature, the slot of its trigger and the time.
pub proof fn a_shot_is_waited_for_before_it_goes_out(
    sender: &mut Sender,
    fire: &mut Fire,
    aim: &Aim,
    now: u64,
    shot: Option<Shot>,
)
    requires
        call_ensures(Sender::fire, (sender, fire, aim, now), shot),
        old(fire).pending@.len() < 256,
        forall|i: int|
            0 <= i < old(fire).pending@.len() ==> now <= (
            #[trigger] old(fire).pending@[i]).sent + 120_000_000_000,
    ensures
        shot is Some <==> old(sender).shot(*aim) is Some,
        shot matches Some(shot) ==> {
            &&& old(sender).shot(*aim) == Some((shot.wire@, shot.signature@))
            &&& final(fire).pending@ == old(fire).pending@.push(
                Pending {
                    signature: shot.signature,
                    trigger_slot: aim.trigger.slot,
                    sent: now,
                },
            )
        },
        shot is None ==> *final(fire) == *old(fire),
        shot is None ==> final(sender).events@ == old(sender).events@.push(Event::Failed),
        final(fire).latest == old(fire).latest,
{
    if let Some(shot) = shot {
        let all = old(fire).pending@.push(
            Pending { signature: shot.signature, trigger_slot: aim.trigger.slot, sent: now },
        );
        assert forall|i: int| 0 <= i < all.len() implies now <= (#[trigger] all[i]).sent
            + 120_000_000_000 by {
            if i < old(fire).pending@.len() {
                assert(all[i] == old(fire).pending@[i]);
            }
        }
        what_was_sent_is_waited_for(all, now);
    }
}

/// Seeing a watched wallet's transaction has it wait to be answered, from when it was
/// detected, and counts it; the trigger it overtook is counted as stale.
pub proof fn seeing_a_wallet_triggers(
    fire: &mut Fire,
    slot: u64,
    signature: [u8; 64],
    detected: u64,
    now: u64,
)
    requires
        call_ensures(Fire::see, (fire, &Sighting::Target { slot, signature, detected }, now), ()),
    ensures
        final(fire).latest.trigger == Some(Trigger { slot, target: signature, detected }),
        final(fire).pending@ == old(fire).pending@,
        old(fire).latest.trigger is None ==> final(fire).events@ == old(fire).events@.push(
            Event::Triggered,
        ),
        old(fire).latest.trigger is Some ==> final(fire).events@ == old(fire).events@.push(
            Event::Triggered,
        ).push(Event::Stale),
{
}

/// Seeing one of our own transactions that is waited for times it, from when it went
/// out and in slots from its trigger, and ends the waiting; one that is not waited for
/// changes nothing.
pub proof fn seeing_our_own_times_it(
    fire: &mut Fire,
    slot: u64,
    signature: [u8; 64],
    now: u64,
    at: int,
)
    requires
        call_ensures(Fire::see, (fire, &Sighting::Own { slot, signature }, now), ()),
        0 <= at <= old(fire).pending@.len(),
        forall|i: int| 0 <= i < at ==> (#[trigger] old(fire).pending@[i]).signature != signature,
        at < old(fire).pending@.len() ==> old(fire).pending@[at].signature == signature,
    ensures
        final(fire).latest == old(fire).latest,
        at == old(fire).pending@.len() ==> *final(fire) == *old(fire),
        at < old(fire).pending@.len() ==> final(fire).pending@ == old(fire).pending@.remove(at),
        at < old(fire).pending@.len() && old(fire).pending@[at].sent <= now && old(
            fire
        ).pending@[at].trigger_slot <= slot ==> final(fire).events@ == old(fire).events@.push(
            Event::Landed {
                round_trip: (now - old(fire).pending@[at].sent) as u64,
                slots_behind: (slot - old(fire).pending@[at].trigger_slot) as u64,
            },
        ),
{
    the_first_match_is_found(old(fire).pending@, signature, 0);
    let found = first_at(old(fire).pending@, signature, 0);
    if found < at {
        assert(old(fire).pending@[found].signature == signature);
    }
}

/// Considering a trigger answers it where it is fresh, the cooldown is over and there
/// is a blockhash, with the next number there is; the cooldown then runs from now.
pub proof fn considering_a_trigger_answers_it(
    sender: &mut Sender,
    trigger: Trigger,
    blockhash: Option<[u8; 32]>,
    now: u64,
    aim: Option<Aim>,
)
    requires
        call_ensures(Sender::consider, (sender, trigger, blockhash, now), aim),
    ensures
        ({
            let fresh = now <= trigger.detected + 400_000_000;
            let cooled = old(sender).last_fired is None || now >= old(sender).last_fired->0 + old(
                sender
            ).cooldown || old(sender).cooldown == 0;
            &&& aim is Some <==> fresh && cooled && blockhash is Some
            &&& aim matches Some(aim) ==> {
                &&& aim.trigger == trigger
                &&& aim.blockhash == blockhash->0
                &&& old(sender).fired < u64::MAX ==> aim.nonce == old(sender).fired + 1
                &&& final(sender).fired == aim.nonce
                &&& final(sender).last_fired == Some(now)
            }
            &&& aim is None ==> final(sender).last_fired == old(sender).last_fired
            &&& final(sender).keypair == old(sender).keypair
            &&& final(sender).memo_program == old(sender).memo_program
            &&& final(sender).memo == old(sender).memo
            &&& final(sender).cooldown == old(sender).cooldown
        }),
{
    a_fresh_trigger_is_answered(*old(sender), trigger, blockhash, now, aim, *final(sender));
}

/// A blockhash that was set is the one there is, and ages from then.
pub proof fn a_blockhash_ages(
    blockhash: &mut Blockhash,
    hash: [u8; 32],
    fetched: u64,
    now: u64,
    got: Option<[u8; 32]>,
    age: Option<u64>,
)
    requires
        call_ensures(Blockhash::set, (blockhash, hash, fetched), ()),
        call_ensures(Blockhash::get, (final(blockhash),), got),
        call_ensures(Blockhash::age, (final(blockhash), now), age),
        fetched <= now,
    ensures
        got == Some(hash),
        age == Some((now - fetched) as u64),
{
}

} // verus!
