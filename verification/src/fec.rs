//! One erasure batch: the shards of it that have arrived, and rebuilding the
//! rest.

use reed_solomon_erasure::galois_8::ReedSolomon;
use std::collections::BTreeMap;
use vstd::prelude::*;
use vstd::slice::slice_to_vec;

verus! {

broadcast use {vstd::std_specs::btree::group_btree_axioms, vstd::laws_cmp::group_laws_cmp};

/// Sanity bound on a batch, well above the 32:32 the shredder produces.
pub const MAX_SHARDS: usize = 128;

/// Shards a codec can tell apart, as many as there are elements in its field.
pub const CODEC_SHARDS: usize = 256;

#[derive(Clone, Copy, Debug)]
pub struct Layout {
    pub num_data: usize,
    pub num_coding: usize,
    pub shard_len: usize,
}

/// One erasure batch. Shards are dropped as soon as the batch resolves, so the
/// steady-state footprint is only the few batches still in flight.
pub struct FecSet {
    pub data: BTreeMap<usize, Vec<u8>>,
    pub coding: BTreeMap<usize, Vec<u8>>,
    /// Known once any coding shred of the batch arrives.
    pub layout: Option<Layout>,
    pub resolved: bool,
}

#[verifier::ext_equal]
pub struct FecView {
    pub data: Map<usize, Seq<u8>>,
    pub coding: Map<usize, Seq<u8>>,
    pub layout: Option<Layout>,
    pub resolved: bool,
}

/// The shards under each key, as bytes.
pub open spec fn shard_bytes(shards: Map<usize, Vec<u8>>) -> Map<usize, Seq<u8>> {
    Map::new(|index: usize| shards.contains_key(index), |index: usize| shards[index]@)
}

impl View for FecSet {
    type V = FecView;

    open spec fn view(&self) -> FecView {
        FecView {
            data: shard_bytes(self.data@),
            coding: shard_bytes(self.coding@),
            layout: self.layout,
            resolved: self.resolved,
        }
    }
}

/// A row of shards, those not at hand left out.
pub open spec fn row(shards: Seq<Option<Vec<u8>>>) -> Seq<Option<Seq<u8>>> {
    shards.map_values(|shard: Option<Vec<u8>>| shard_view(shard))
}

pub open spec fn shard_view(shard: Option<Vec<u8>>) -> Option<Seq<u8>> {
    match shard {
        Some(shard) => Some(shard@),
        None => None,
    }
}

/// How many of the first `len` shards of a row are at hand.
pub open spec fn present(shards: Seq<Option<Seq<u8>>>, len: int) -> nat
    decreases len,
{
    if len <= 0 {
        0
    } else {
        present(shards, len - 1) + if shards[len - 1] is Some {
            1nat
        } else {
            0
        }
    }
}

/// Whether a codec can rebuild what a row is missing: the layout is one it
/// handles, the row is as long as the layout says, the shards at hand are all of
/// one length that is not zero, and there are as many of them as there are data
/// shards.
pub open spec fn recoverable(
    num_data: int,
    num_coding: int,
    shards: Seq<Option<Seq<u8>>>,
) -> bool {
    &&& 0 < num_data
    &&& 0 < num_coding
    &&& num_data + num_coding <= CODEC_SHARDS
    &&& shards.len() == num_data + num_coding
    &&& exists|len: nat| len > 0 && #[trigger] all_of_len(shards, len)
    &&& present(shards, shards.len() as int) >= num_data
}

pub open spec fn all_of_len(shards: Seq<Option<Seq<u8>>>, len: nat) -> bool {
    forall|i: int|
        0 <= i < shards.len() ==> (#[trigger] shards[i] matches Some(shard) ==> shard.len() == len)
}

/// What `ReedSolomon::reconstruct_data` makes of a row.
pub uninterp spec fn rebuilt(
    num_data: nat,
    num_coding: nat,
    shards: Seq<Option<Seq<u8>>>,
) -> Seq<Option<Seq<u8>>>;

/// The coding shards `ReedSolomon::encode` computes for data shards.
pub uninterp spec fn parity(data: Seq<Seq<u8>>, num_coding: nat) -> Seq<Seq<u8>>;

/// Whether every shard at hand is the one `encoded` has in its place.
pub open spec fn drawn_from(shards: Seq<Option<Seq<u8>>>, encoded: Seq<Seq<u8>>) -> bool {
    forall|i: int|
        0 <= i < shards.len() ==> (#[trigger] shards[i] matches Some(shard) ==> shard == encoded[i])
}

/// The row in which every one of `shards` is at hand.
pub open spec fn all_at_hand(shards: Seq<Seq<u8>>) -> Seq<Option<Seq<u8>>> {
    shards.map_values(|shard: Seq<u8>| Some(shard))
}

/// Whether `data` is a set of data shards that can be encoded together.
pub open spec fn encodable(data: Seq<Seq<u8>>, num_data: int) -> bool {
    &&& data.len() == num_data
    &&& exists|len: nat|
        len > 0 && #[trigger] all_of_len(all_at_hand(data), len)
}

/// Calls `ReedSolomon::new` and, on the codec that gives, `reconstruct_data`.
///
/// Succeeds exactly on the rows described by [`recoverable`]. Shards at hand are
/// left as they are, every data shard that was missing is there afterwards, of
/// the same length, and missing coding shards stay missing. Where the shards at
/// hand came from encoding some data, the data shards rebuilt are that data.
#[verifier::external_body]
fn reconstruct(num_data: usize, num_coding: usize, shards: Vec<Option<Vec<u8>>>) -> (whole: Option<
    Vec<Option<Vec<u8>>>,
>)
    requires
        num_data + num_coding <= usize::MAX,
    ensures
        whole is Some <==> recoverable(num_data as int, num_coding as int, row(shards@)),
        whole matches Some(whole) ==> {
            &&& row(whole@) == rebuilt(num_data as nat, num_coding as nat, row(shards@))
            &&& whole@.len() == shards@.len()
            &&& forall|i: int|
                0 <= i < shards@.len() && row(shards@)[i] is Some ==> #[trigger] row(whole@)[i]
                    == row(shards@)[i]
            &&& forall|i: int|
                num_data <= i < shards@.len() && row(shards@)[i] is None ==> #[trigger] row(
                    whole@,
                )[i] is None
            &&& forall|i: int| 0 <= i < num_data ==> #[trigger] row(whole@)[i] is Some
            &&& exists|len: nat| #[trigger] all_of_len(row(whole@), len)
            &&& forall|data: Seq<Seq<u8>>| #[trigger]
                drawn_from(row(shards@), data + parity(data, num_coding as nat)) && encodable(
                    data,
                    num_data as int,
                ) ==> forall|i: int|
                    0 <= i < num_data ==> #[trigger] row(whole@)[i] == Some(data[i])
        },
{
    let mut shards = shards;
    let codec = ReedSolomon::new(num_data, num_coding).ok()?;
    codec.reconstruct_data(&mut shards).ok()?;
    Some(shards)
}

/// Whether a batch holds a shard of the given length under `index`.
pub open spec fn usable_at(shards: Map<usize, Seq<u8>>, index: int, len: nat) -> bool {
    0 <= index <= usize::MAX && shards.contains_key(index as usize) && shards[index as usize].len()
        == len
}

/// How many shards of the given length a batch holds below `limit`.
pub open spec fn usable(shards: Map<usize, Seq<u8>>, limit: int, len: nat) -> nat
    decreases limit,
{
    if limit <= 0 {
        0
    } else {
        usable(shards, limit - 1, len) + if usable_at(shards, limit - 1, len) {
            1nat
        } else {
            0
        }
    }
}

/// The lost data shards of a row, in order, as `whole` has them.
pub open spec fn lost_shards(
    shards: Seq<Option<Seq<u8>>>,
    whole: Seq<Option<Seq<u8>>>,
    num_data: int,
) -> Seq<Seq<u8>>
    decreases num_data,
{
    if num_data <= 0 {
        Seq::empty()
    } else {
        let before = lost_shards(shards, whole, num_data - 1);
        if shards[num_data - 1] is None {
            before.push(whole[num_data - 1]->0)
        } else {
            before
        }
    }
}

/// What trying to recover a batch came to.
pub enum Attempt {
    /// There is nothing to try, or nothing to try it with yet.
    Untried,
    /// It was tried, and the batch could not be rebuilt.
    Failed,
    /// The lost data shreds, in order. There is at least one.
    Rebuilt(Vec<Vec<u8>>),
}

pub enum AttemptView {
    Untried,
    Failed,
    Rebuilt(Seq<Seq<u8>>),
}

/// The bodies, each as bytes.
pub open spec fn bodies(bodies: Seq<Vec<u8>>) -> Seq<Seq<u8>> {
    bodies.map_values(|body: Vec<u8>| body@)
}

impl View for Attempt {
    type V = AttemptView;

    open spec fn view(&self) -> AttemptView {
        match self {
            Attempt::Untried => AttemptView::Untried,
            Attempt::Failed => AttemptView::Failed,
            Attempt::Rebuilt(rebuilt) => AttemptView::Rebuilt(bodies(rebuilt@)),
        }
    }
}

impl FecView {
    /// A batch nothing has arrived of.
    pub open spec fn empty() -> FecView {
        FecView { data: Map::empty(), coding: Map::empty(), layout: None, resolved: false }
    }

    /// The batch once there is nothing more to be had from it.
    pub open spec fn settled(self) -> FecView {
        FecView { data: Map::empty(), coding: Map::empty(), layout: self.layout, resolved: true }
    }

    /// The batch with a data shard stored, unless it holds that one already.
    pub open spec fn with_data(self, offset: usize, shard: Seq<u8>) -> FecView {
        FecView {
            data: if self.data.contains_key(offset) {
                self.data
            } else {
                self.data.insert(offset, shard)
            },
            ..self
        }
    }

    /// The batch with a coding shard stored, unless it holds that one already,
    /// and laid out as that shard says.
    pub open spec fn with_coding(self, position: usize, layout: Layout, shard: Seq<u8>) -> FecView {
        FecView {
            coding: if self.coding.contains_key(position) {
                self.coding
            } else {
                self.coding.insert(position, shard)
            },
            layout: Some(layout),
            ..self
        }
    }

    /// The shards of the batch in a row, data before coding. A shard of another
    /// length than the layout says is none; one that claims to be data past
    /// where the data ends stands in for a coding shard that is not at hand.
    pub open spec fn gathered(self, layout: Layout) -> Seq<Option<Seq<u8>>> {
        Seq::new(
            (layout.num_data + layout.num_coding) as nat,
            |index: int| self.shard_at(layout, index),
        )
    }

    pub open spec fn shard_at(self, layout: Layout, index: int) -> Option<Seq<u8>> {
        let len = layout.shard_len as nat;
        if index >= layout.num_data && usable_at(self.coding, index - layout.num_data, len) {
            Some(self.coding[(index - layout.num_data) as usize])
        } else if usable_at(self.data, index, len) {
            Some(self.data[index as usize])
        } else {
            None
        }
    }

    /// What trying to recover the batch comes to, and the batch afterwards.
    pub open spec fn recover(self) -> (FecView, AttemptView) {
        match self.layout {
            None => (self, AttemptView::Untried),
            Some(layout) => {
                let len = layout.shard_len as nat;
                let (num_data, num_coding) = (layout.num_data as int, layout.num_coding as int);
                let have_data = usable(self.data, num_data, len);
                if have_data == num_data {
                    // Nothing was lost, so the coding shreds are no longer of
                    // interest.
                    (self.settled(), AttemptView::Untried)
                } else if have_data + usable(self.coding, num_coding, len) < num_data {
                    (self, AttemptView::Untried)
                } else if len == 0 {
                    (self.settled(), AttemptView::Failed)
                } else {
                    let shards = self.gathered(layout);
                    let whole = rebuilt(num_data as nat, num_coding as nat, shards);
                    (
                        self.settled(),
                        AttemptView::Rebuilt(lost_shards(shards, whole, num_data)),
                    )
                }
            },
        }
    }

    /// Whether `rebuilt` are the data shreds the leader lost: where every shard at
    /// hand came from encoding some data, they are those of that data that were
    /// not at hand.
    pub open spec fn restores(self, rebuilt: Seq<Seq<u8>>) -> bool {
        &&& self.layout matches Some(layout)
        &&& forall|data: Seq<Seq<u8>>| #[trigger]
            drawn_from(
                self.gathered(layout),
                data + parity(data, layout.num_coding as nat),
            ) && encodable(data, layout.num_data as int) ==> rebuilt == lost_shards(
                self.gathered(layout),
                all_at_hand(data),
                layout.num_data as int,
            )
    }

    /// Whether the layout, once known, is one a batch can have.
    pub open spec fn sound(self) -> bool {
        self.layout matches Some(layout) ==> 0 < layout.num_data && 0 < layout.num_coding
            && layout.num_data + layout.num_coding <= MAX_SHARDS
    }
}

/// How many shards of the given length a batch holds below `limit`.
fn count_usable(shards: &BTreeMap<usize, Vec<u8>>, limit: usize, len: usize) -> (count: usize)
    ensures
        count == usable(shard_bytes(shards@), limit as int, len as nat),
        count <= limit,
{
    let mut count: usize = 0;
    let mut index: usize = 0;
    while index < limit
        invariant
            index <= limit,
            count <= index,
            count == usable(shard_bytes(shards@), index as int, len as nat),
        decreases limit - index,
    {
        if let Some(shard) = shards.get(&index) {
            if shard.len() == len {
                count = count + 1;
            }
        }
        index = index + 1;
    }
    count
}

/// Takes a shard of the given length out of a batch.
fn take_usable(shards: &mut BTreeMap<usize, Vec<u8>>, index: usize, len: usize) -> (shard: Option<
    Vec<u8>,
>)
    ensures
        shard is Some <==> usable_at(shard_bytes(old(shards)@), index as int, len as nat),
        shard matches Some(shard) ==> shard@ == shard_bytes(old(shards)@)[index],
        final(shards)@ == old(shards)@.remove(index),
{
    match shards.remove(&index) {
        Some(shard) => if shard.len() == len {
            Some(shard)
        } else {
            None
        },
        None => None,
    }
}

/// There are at least as many shards at hand in a row as the batch holds usable
/// data and coding shards.
proof fn lemma_enough_present(set: FecView, layout: Layout, index: int)
    requires
        0 <= index <= layout.num_data + layout.num_coding,
    ensures
        index <= layout.num_data ==> present(set.gathered(layout), index) == usable(
            set.data,
            index,
            layout.shard_len as nat,
        ),
        index >= layout.num_data ==> present(set.gathered(layout), index) >= usable(
            set.data,
            layout.num_data as int,
            layout.shard_len as nat,
        ) + usable(set.coding, index - layout.num_data, layout.shard_len as nat),
    decreases index,
{
    if index > 0 {
        lemma_enough_present(set, layout, index - 1);
        assert(set.gathered(layout)[index - 1] == set.shard_at(layout, index - 1));
    }
}

impl FecSet {
    pub fn new() -> (set: FecSet)
        ensures
            set@ == FecView::empty(),
    {
        let set = FecSet {
            data: BTreeMap::new(),
            coding: BTreeMap::new(),
            layout: None,
            resolved: false,
        };
        assert(set@ =~= FecView::empty());
        set
    }

    /// Lets go of every shard: there is nothing more to be had from the batch.
    pub fn resolve(&mut self)
        ensures
            final(self)@ == old(self)@.settled(),
    {
        self.data = BTreeMap::new();
        self.coding = BTreeMap::new();
        self.resolved = true;
        assert(self@ =~= old(self)@.settled());
    }

    pub fn store_data(&mut self, offset: usize, shard: &[u8])
        ensures
            final(self)@ == old(self)@.with_data(offset, shard@),
    {
        if !self.data.contains_key(&offset) {
            self.data.insert(offset, slice_to_vec(shard));
        }
        proof {
            assert(self@.data =~= old(self)@.with_data(offset, shard@).data);
            assert(self@ =~= old(self)@.with_data(offset, shard@));
        }
    }

    pub fn store_coding(&mut self, position: usize, layout: Layout, shard: &[u8])
        ensures
            final(self)@ == old(self)@.with_coding(position, layout, shard@),
    {
        self.layout = Some(layout);
        if !self.coding.contains_key(&position) {
            self.coding.insert(position, slice_to_vec(shard));
        }
        proof {
            assert(self@.coding =~= old(self)@.with_coding(position, layout, shard@).coding);
            assert(self@ =~= old(self)@.with_coding(position, layout, shard@));
        }
    }

    /// Rebuilds the data shreds the batch lost, once enough of it is at hand to
    /// do so.
    ///
    /// One attempt per batch: a failure means the input was malformed, and
    /// retrying it on every later shred would only burn cycles.
    pub fn recover(&mut self) -> (attempt: Attempt)
        requires
            old(self)@.sound(),
        ensures
            final(self)@ == old(self)@.recover().0,
            attempt@ == old(self)@.recover().1,
            attempt matches Attempt::Rebuilt(rebuilt) ==> old(self)@.restores(bodies(rebuilt@)),
    {
        let ghost set = self@;
        let layout = match self.layout {
            Some(layout) => layout,
            None => {
                return Attempt::Untried;
            },
        };
        let Layout { num_data, num_coding, shard_len } = layout;
        let have_data: usize = count_usable(&self.data, num_data, shard_len);
        if have_data == num_data {
            self.resolve();
            return Attempt::Untried;
        }
        let have_coding: usize = count_usable(&self.coding, num_coding, shard_len);
        if have_data + have_coding < num_data {
            return Attempt::Untried;
        }
        let ghost gathered = set.gathered(layout);
        let mut shards: Vec<Option<Vec<u8>>> = Vec::new();
        let mut lost: Vec<bool> = Vec::new();
        let mut index: usize = 0;
        while index < num_data + num_coding
            invariant
                index <= num_data + num_coding <= MAX_SHARDS,
                layout.num_data == num_data,
                layout.num_coding == num_coding,
                layout.shard_len == shard_len,
                gathered == set.gathered(layout),
                shards@.len() == index,
                lost@.len() == index,
                row(shards@) == gathered.take(index as int),
                forall|i: int| 0 <= i < index ==> lost@[i] == gathered[i] is None,
                forall|i: usize|
                    i >= index ==> (#[trigger] self.data@.contains_key(i) <==> set.data.contains_key(
                        i,
                    )) && (self.data@.contains_key(i) ==> self.data@[i]@ == set.data[i]),
                forall|i: usize|
                    i + num_data >= index ==> (#[trigger] self.coding@.contains_key(i)
                        <==> set.coding.contains_key(i)) && (self.coding@.contains_key(i)
                        ==> self.coding@[i]@ == set.coding[i]),
                self.layout == set.layout,
                self.resolved == set.resolved,
            decreases num_data + num_coding - index,
        {
            proof {
                assert(self.data@.contains_key(index) <==> set.data.contains_key(index));
                if index >= num_data {
                    let position = (index - num_data) as usize;
                    assert(self.coding@.contains_key(position) <==> set.coding.contains_key(
                        position,
                    ));
                }
            }
            let data = take_usable(&mut self.data, index, shard_len);
            let shard = if index >= num_data {
                match take_usable(&mut self.coding, index - num_data, shard_len) {
                    Some(shard) => Some(shard),
                    None => data,
                }
            } else {
                data
            };
            let ghost held = row(shards@);
            proof {
                let view = shard_view(shard);
                assert(view == set.shard_at(layout, index as int));
                assert(gathered[index as int] == view);
                assert(row(shards@.push(shard)) =~= held.push(view));
                assert(gathered.take(index + 1) =~= gathered.take(index as int).push(view));
            }
            lost.push(shard.is_none());
            shards.push(shard);
            index = index + 1;
        }
        self.resolve();
        proof {
            assert(gathered.take(index as int) =~= gathered);
            assert(self@ =~= set.settled());
            lemma_enough_present(set, layout, num_data + num_coding);
            assert(all_of_len(gathered, shard_len as nat)) by {
                assert forall|i: int| 0 <= i < gathered.len() implies (
                #[trigger] gathered[i] matches Some(shard) ==> shard.len() == shard_len) by {
                    assert(gathered[i] == set.shard_at(layout, i));
                }
            }
            if shard_len == 0 {
                lemma_some_present(gathered, gathered.len() as int);
                assert(!recoverable(num_data as int, num_coding as int, gathered));
            }
        }
        let whole = match reconstruct(num_data, num_coding, shards) {
            Some(whole) => whole,
            None => {
                return Attempt::Failed;
            },
        };
        let ghost complete = row(whole@);
        let mut whole = whole;
        let mut recovered: Vec<Vec<u8>> = Vec::new();
        let mut index: usize = 0;
        while index < num_data
            invariant
                index <= num_data,
                num_data <= whole@.len(),
                num_data <= lost@.len(),
                num_data <= complete.len(),
                num_data <= gathered.len(),
                forall|i: int| 0 <= i < num_data ==> lost@[i] == gathered[i] is None,
                forall|i: int| 0 <= i < num_data ==> #[trigger] complete[i] is Some,
                forall|i: int| index <= i < num_data ==> row(whole@)[i] == #[trigger] complete[i],
                row(whole@).len() == whole@.len(),
                bodies(recovered@) == lost_shards(gathered, complete, index as int),
            decreases num_data - index,
        {
            if lost[index] {
                let mut taken: Option<Vec<u8>> = None;
                assert(row(whole@)[index as int] == complete[index as int]);
                whole.set_and_swap(index, &mut taken);
                if let Some(body) = taken {
                    let ghost before = bodies(recovered@);
                    recovered.push(body);
                    assert(bodies(recovered@) =~= before.push(body@));
                }
            }
            index = index + 1;
        }
        proof {
            assert forall|data: Seq<Seq<u8>>| #[trigger]
                drawn_from(gathered, data + parity(data, layout.num_coding as nat)) && encodable(
                    data,
                    layout.num_data as int,
                ) implies bodies(recovered@) == lost_shards(
                gathered,
                all_at_hand(data),
                layout.num_data as int,
            ) by {
                lemma_lost_shards_agree(
                    gathered,
                    complete,
                    all_at_hand(data),
                    num_data as int,
                );
            }
        }
        Attempt::Rebuilt(recovered)
    }
}

proof fn lemma_some_present(shards: Seq<Option<Seq<u8>>>, len: int)
    requires
        0 <= len <= shards.len(),
        present(shards, len) > 0,
    ensures
        exists|i: int| 0 <= i < len && #[trigger] shards[i] is Some,
    decreases len,
{
    if shards[len - 1] is None {
        lemma_some_present(shards, len - 1);
    }
}

proof fn lemma_lost_shards_agree(
    shards: Seq<Option<Seq<u8>>>,
    whole: Seq<Option<Seq<u8>>>,
    other: Seq<Option<Seq<u8>>>,
    num_data: int,
)
    requires
        0 <= num_data <= whole.len(),
        num_data <= other.len(),
        forall|i: int| 0 <= i < num_data ==> #[trigger] whole[i] == other[i],
    ensures
        lost_shards(shards, whole, num_data) == lost_shards(shards, other, num_data),
    decreases num_data,
{
    if num_data > 0 {
        lemma_lost_shards_agree(shards, whole, other, num_data - 1);
        assert(whole[num_data - 1] == other[num_data - 1]);
    }
}

/// What is rebuilt are exactly the data shreds that were not at hand: together
/// with those that were, they make the whole batch.
pub proof fn recovery_fills_every_gap(set: FecView, layout: Layout, whole: Seq<Option<Seq<u8>>>)
    ensures
        lost_shards(set.gathered(layout), whole, layout.num_data as int).len() + usable(
            set.data,
            layout.num_data as int,
            layout.shard_len as nat,
        ) == layout.num_data,
{
    lemma_lost_count(set, layout, whole, layout.num_data as int);
}

proof fn lemma_lost_count(
    set: FecView,
    layout: Layout,
    whole: Seq<Option<Seq<u8>>>,
    index: int,
)
    requires
        0 <= index <= layout.num_data,
    ensures
        lost_shards(set.gathered(layout), whole, index).len() + usable(
            set.data,
            index,
            layout.shard_len as nat,
        ) == index,
    decreases index,
{
    if index > 0 {
        lemma_lost_count(set, layout, whole, index - 1);
        assert(set.gathered(layout)[index - 1] == set.shard_at(layout, index - 1));
    }
}

/// Whether `indices` are places below `limit` under which a batch holds a shard of
/// the given length.
pub open spec fn at_hand(
    shards: Map<usize, Seq<u8>>,
    indices: Set<int>,
    limit: int,
    len: nat,
) -> bool {
    &&& indices.finite()
    &&& forall|i: int| #[trigger]
        indices.contains(i) ==> 0 <= i < limit && i <= usize::MAX && shards.contains_key(i as usize)
            && shards[i as usize].len() == len
}

/// The data shreds of a batch that are not at hand.
pub open spec fn missing(set: FecView, layout: Layout) -> Set<int> {
    Set::new(
        |i: int|
            0 <= i < layout.num_data && !(set.data.contains_key(i as usize)
                && set.data[i as usize].len() == layout.shard_len),
    )
}

/// Those of them that come before the one at `index`.
pub open spec fn missing_before(set: FecView, layout: Layout, index: int) -> Set<int> {
    missing(set, layout).filter(|i: int| i < index)
}

/// As many shards are counted as are at hand, and no more.
proof fn lemma_usable_counts(
    shards: Map<usize, Seq<u8>>,
    indices: Set<int>,
    limit: int,
    len: nat,
)
    requires
        at_hand(shards, indices, limit, len),
        0 <= limit <= usize::MAX,
    ensures
        indices.len() <= usable(shards, limit, len) <= limit,
    decreases limit,
{
    if limit == 0 {
        assert(indices =~= Set::empty());
    } else {
        let rest = indices.remove(limit - 1);
        assert forall|i: int| #[trigger] rest.contains(i) implies 0 <= i < limit - 1 && i
            <= usize::MAX && shards.contains_key(i as usize) && shards[i as usize].len() == len by {
            assert(indices.contains(i));
        }
        lemma_usable_counts(shards, rest, limit - 1, len);
    }
}

/// Data shreds are counted or missing.
proof fn lemma_missing_counts(set: FecView, layout: Layout, index: int)
    requires
        0 <= index <= layout.num_data,
    ensures
        missing_before(set, layout, index).finite(),
        missing_before(set, layout, index).len() + usable(
            set.data,
            index,
            layout.shard_len as nat,
        ) == index,
    decreases index,
{
    let now = missing_before(set, layout, index);
    if index == 0 {
        assert(now =~= Set::empty());
    } else {
        lemma_missing_counts(set, layout, index - 1);
        let before = missing_before(set, layout, index - 1);
        if usable_at(set.data, index - 1, layout.shard_len as nat) {
            assert(now =~= before);
        } else {
            assert(now =~= before.insert(index - 1));
        }
    }
}

pub(crate) proof fn lemma_all_missing(set: FecView, layout: Layout)
    ensures
        missing(set, layout).finite(),
        missing(set, layout).len() + usable(
            set.data,
            layout.num_data as int,
            layout.shard_len as nat,
        ) == layout.num_data,
{
    lemma_missing_counts(set, layout, layout.num_data as int);
    assert(missing_before(set, layout, layout.num_data as int) =~= missing(set, layout));
}

/// Where among the shreds rebuilt a missing one stands: behind as many as are
/// missing before it.
proof fn lemma_lost_places(
    set: FecView,
    layout: Layout,
    whole: Seq<Option<Seq<u8>>>,
    index: int,
    upto: int,
)
    requires
        0 <= index < upto <= layout.num_data,
        missing(set, layout).contains(index),
    ensures
        ({
            let lost = lost_shards(set.gathered(layout), whole, upto);
            let at = missing_before(set, layout, index).len() as int;
            at < lost.len() && lost[at] == whole[index]->0
        }),
    decreases upto,
{
    lemma_missing_counts(set, layout, index);
    lemma_lost_count(set, layout, whole, upto - 1);
    assert(set.gathered(layout)[upto - 1] == set.shard_at(layout, upto - 1));
    if index < upto - 1 {
        lemma_lost_places(set, layout, whole, index, upto - 1);
    }
}

/// Any `num_data` shards of a batch are enough, data and coding in whatever mix:
/// where some data shreds are missing and that many are at hand, the batch is
/// rebuilt there and then. Every missing shred is handed back, in order, and the
/// batch is done with.
#[verifier::spinoff_prover]
#[verifier::rlimit(60)]
pub proof fn any_num_data_shards_are_enough(
    set: FecView,
    layout: Layout,
    data: Set<int>,
    coding: Set<int>,
)
    requires
        set.sound(),
        set.layout == Some(layout),
        layout.shard_len > 0,
        at_hand(set.data, data, layout.num_data as int, layout.shard_len as nat),
        at_hand(set.coding, coding, layout.num_coding as int, layout.shard_len as nat),
        data.len() + coding.len() >= layout.num_data,
        !missing(set, layout).is_empty(),
    ensures
        ({
            let (post, attempt) = set.recover();
            &&& attempt matches AttemptView::Rebuilt(rebuilt)
            &&& rebuilt.len() == missing(set, layout).len() > 0
            &&& post.resolved && post.data.is_empty() && post.coding.is_empty()
        }),
{
    let len = layout.shard_len as nat;
    lemma_usable_counts(set.data, data, layout.num_data as int, len);
    lemma_usable_counts(set.coding, coding, layout.num_coding as int, len);
    lemma_all_missing(set, layout);
    let whole = rebuilt(
        layout.num_data as nat,
        layout.num_coding as nat,
        set.gathered(layout),
    );
    lemma_lost_count(set, layout, whole, layout.num_data as int);
    let gone = missing(set, layout).choose();
    assert(missing(set, layout).contains(gone));
    if missing(set, layout).len() == 0 {
        assert(missing(set, layout) =~= Set::empty());
    }
}

/// Fewer are not: where everything at hand comes to fewer than `num_data` shards
/// the batch is left as it is, to wait for more of it.
pub proof fn fewer_shards_than_num_data_wait(
    set: FecView,
    layout: Layout,
    data: Set<int>,
    coding: Set<int>,
)
    requires
        set.sound(),
        set.layout == Some(layout),
        data.finite(),
        coding.finite(),
        forall|i: int|
            0 <= i < layout.num_data && #[trigger] set.data.contains_key(i as usize)
                && set.data[i as usize].len() == layout.shard_len ==> data.contains(i),
        forall|i: int|
            0 <= i < layout.num_coding && #[trigger] set.coding.contains_key(i as usize)
                && set.coding[i as usize].len() == layout.shard_len ==> coding.contains(i),
        data.len() + coding.len() < layout.num_data,
    ensures
        set.recover() == (set, AttemptView::Untried),
{
    let len = layout.shard_len as nat;
    lemma_usable_bound(set.data, data, layout.num_data as int, len);
    lemma_usable_bound(set.coding, coding, layout.num_coding as int, len);
}

proof fn lemma_usable_bound(shards: Map<usize, Seq<u8>>, indices: Set<int>, limit: int, len: nat)
    requires
        indices.finite(),
        0 <= limit <= usize::MAX,
        forall|i: int|
            0 <= i < limit && #[trigger] shards.contains_key(i as usize)
                && shards[i as usize].len() == len ==> indices.contains(i),
    ensures
        usable(shards, limit, len) <= indices.len(),
    decreases limit,
{
    if limit > 0 {
        let rest = indices.remove(limit - 1);
        if usable_at(shards, limit - 1, len) {
            assert(shards.contains_key((limit - 1) as usize));
            assert forall|i: int|
                0 <= i < limit - 1 && #[trigger] shards.contains_key(i as usize)
                    && shards[i as usize].len() == len implies rest.contains(i) by {}
            lemma_usable_bound(shards, rest, limit - 1, len);
        } else {
            lemma_usable_bound(shards, indices, limit - 1, len);
        }
    }
}

/// A batch none of whose data shreds is missing is done with, and there is nothing
/// to hand back.
pub proof fn a_batch_that_lost_nothing_is_done_with(set: FecView, layout: Layout)
    requires
        set.layout == Some(layout),
        missing(set, layout).is_empty(),
    ensures
        set.recover().1 is Untried,
        set.recover().0.resolved,
        set.recover().0.data.is_empty(),
        set.recover().0.coding.is_empty(),
{
    lemma_all_missing(set, layout);
    assert(missing(set, layout) =~= Set::empty());
}

/// Of a batch a leader encoded, what is handed back are the very shreds that are
/// missing, each behind those that are missing before it. That is as long as what
/// is at hand is the leader's: its data shreds in their places, its coding shreds
/// in theirs, and nothing that claims to be data past where the data ends.
#[verifier::spinoff_prover]
#[verifier::rlimit(60)]
pub proof fn missing_shreds_come_back_as_they_were_written(
    set: FecView,
    layout: Layout,
    written: Seq<Seq<u8>>,
    rebuilt: Seq<Seq<u8>>,
    index: int,
)
    requires
        set.sound(),
        set.layout == Some(layout),
        set.restores(rebuilt),
        written.len() == layout.num_data,
        layout.shard_len > 0,
        forall|i: int| 0 <= i < written.len() ==> (#[trigger] written[i]).len() == layout.shard_len,
        parity(written, layout.num_coding as nat).len() == layout.num_coding,
        forall|i: usize| #[trigger]
            set.data.contains_key(i) ==> i < layout.num_data && (set.data[i].len()
                == layout.shard_len ==> set.data[i] == written[i as int]),
        forall|i: usize|
            i < layout.num_coding && #[trigger] set.coding.contains_key(i) && set.coding[i].len()
                == layout.shard_len ==> set.coding[i] == parity(
                written,
                layout.num_coding as nat,
            )[i as int],
        missing(set, layout).contains(index),
    ensures
        rebuilt.len() == missing(set, layout).len(),
        missing_before(set, layout, index).len() < rebuilt.len(),
        rebuilt[missing_before(set, layout, index).len() as int] == written[index],
{
    let all = written + parity(written, layout.num_coding as nat);
    let shards = set.gathered(layout);
    assert forall|i: int| 0 <= i < shards.len() implies (#[trigger] shards[i] matches Some(shard)
        ==> shard == all[i]) by {
        assert(shards[i] == set.shard_at(layout, i));
        if i >= layout.num_data {
            assert(set.coding.contains_key((i - layout.num_data) as usize)
                || !set.coding.contains_key((i - layout.num_data) as usize));
        }
        assert(set.data.contains_key(i as usize) || !set.data.contains_key(i as usize));
    }
    assert(drawn_from(shards, all));
    assert(all_of_len(all_at_hand(written), layout.shard_len as nat)) by {
        assert forall|i: int| 0 <= i < all_at_hand(written).len() implies (
        #[trigger] all_at_hand(written)[i] matches Some(shard) ==> shard.len()
            == layout.shard_len) by {
            assert(written[i].len() == layout.shard_len);
        }
    }
    assert(encodable(written, layout.num_data as int));
    lemma_all_missing(set, layout);
    lemma_lost_count(set, layout, all_at_hand(written), layout.num_data as int);
    lemma_lost_places(
        set,
        layout,
        all_at_hand(written),
        index,
        layout.num_data as int,
    );
}

/// A shard stays under the place it came for: storing one changes nothing else, and
/// the first to come for a place keeps it.
pub proof fn shards_keep_their_places(
    set: FecView,
    place: usize,
    layout: Layout,
    shard: Seq<u8>,
    other: usize,
)
    ensures
        ({
            let more = set.with_data(place, shard);
            &&& more.coding == set.coding && more.layout == set.layout && more.resolved
                == set.resolved
            &&& more.data.contains_key(place)
            &&& more.data[place] == if set.data.contains_key(place) {
                set.data[place]
            } else {
                shard
            }
            &&& other != place ==> (more.data.contains_key(other) <==> set.data.contains_key(other))
                && (set.data.contains_key(other) ==> more.data[other] == set.data[other])
        }),
        ({
            let more = set.with_coding(place, layout, shard);
            &&& more.data == set.data && more.layout == Some(layout) && more.resolved
                == set.resolved
            &&& more.coding.contains_key(place)
            &&& more.coding[place] == if set.coding.contains_key(place) {
                set.coding[place]
            } else {
                shard
            }
            &&& other != place ==> (more.coding.contains_key(other) <==> set.coding.contains_key(
                other,
            )) && (set.coding.contains_key(other) ==> more.coding[other] == set.coding[other])
        }),
{
}

/// Recovering a batch of which any `num_data` shards are at hand gives every missing
/// data shred back, and where the shards are a leader's, as the leader wrote it.
pub proof fn recovering_gives_back_what_is_missing(
    set: &mut FecSet,
    attempt: Attempt,
    layout: Layout,
    data: Set<int>,
    coding: Set<int>,
)
    requires
        call_ensures(FecSet::recover, (set,), attempt),
        old(set)@.sound(),
        old(set)@.layout == Some(layout),
        layout.shard_len > 0,
        at_hand(old(set)@.data, data, layout.num_data as int, layout.shard_len as nat),
        at_hand(old(set)@.coding, coding, layout.num_coding as int, layout.shard_len as nat),
        data.len() + coding.len() >= layout.num_data,
        !missing(old(set)@, layout).is_empty(),
    ensures
        attempt matches Attempt::Rebuilt(rebuilt) && rebuilt@.len() == missing(
            old(set)@,
            layout,
        ).len() && old(set)@.restores(bodies(rebuilt@)),
        final(set).resolved,
        final(set)@.data.is_empty(),
        final(set)@.coding.is_empty(),
{
    any_num_data_shards_are_enough(old(set)@, layout, data, coding);
    if let Attempt::Rebuilt(rebuilt) = attempt {
        assert(bodies(rebuilt@).len() == rebuilt@.len());
    }
}

/// A batch of nothing but empty shards, enough of them, is given up for good, and one
/// nobody has laid out yet waits.
pub proof fn a_batch_of_empty_shards_is_given_up(
    set: &mut FecSet,
    attempt: Attempt,
    layout: Layout,
    data: Set<int>,
    coding: Set<int>,
)
    requires
        call_ensures(FecSet::recover, (set,), attempt),
        old(set)@.sound(),
        old(set)@.layout is Some ==> {
            &&& old(set)@.layout == Some(layout)
            &&& layout.shard_len == 0
            &&& at_hand(old(set)@.data, data, layout.num_data as int, 0)
            &&& at_hand(old(set)@.coding, coding, layout.num_coding as int, 0)
            &&& data.len() + coding.len() >= layout.num_data
            &&& !missing(old(set)@, layout).is_empty()
        },
    ensures
        old(set)@.layout is Some ==> attempt is Failed && final(set)@.resolved,
        old(set)@.layout is None ==> attempt is Untried && final(set)@ == old(set)@,
{
    if old(set)@.layout is Some {
        lemma_usable_counts(old(set)@.data, data, layout.num_data as int, 0);
        lemma_usable_counts(old(set)@.coding, coding, layout.num_coding as int, 0);
        lemma_all_missing(old(set)@, layout);
        let gone = missing(old(set)@, layout).choose();
        assert(missing(old(set)@, layout).contains(gone));
        if missing(old(set)@, layout).len() == 0 {
            assert(missing(old(set)@, layout) =~= Set::empty());
        }
    }
}

/// Shards that are stored are kept under their places, the first to come for each, and
/// the layout is the one the last coding shard told of.
pub proof fn stored_shards_are_kept(
    first: &mut FecSet,
    second: &mut FecSet,
    offset: usize,
    position: usize,
    layout: Layout,
    shard: &[u8],
    coding: &[u8],
)
    requires
        call_ensures(FecSet::store_data, (first, offset, shard), ()),
        call_ensures(FecSet::store_coding, (second, position, layout, coding), ()),
        *old(second) == *final(first),
    ensures
        final(second)@.data.contains_key(offset),
        !old(first)@.data.contains_key(offset) ==> final(second)@.data[offset] == shard@,
        old(first)@.data.contains_key(offset) ==> final(second)@.data[offset] == old(
            first
        )@.data[offset],
        final(second)@.coding.contains_key(position),
        !old(first)@.coding.contains_key(position) ==> final(second)@.coding[position] == coding@,
        old(first)@.coding.contains_key(position) ==> final(second)@.coding[position] == old(
            first
        )@.coding[position],
        final(second)@.layout == Some(layout),
        final(second)@.resolved == old(first)@.resolved,
{
    shards_keep_their_places(old(first)@, offset, layout, shard@, offset);
    shards_keep_their_places(final(first)@, position, layout, coding@, position);
}

} // verus!
