//! Kernel-side receive drops, read out of procfs.
//!
//! An overflowing socket receive buffer is the one failure that leaves no trace
//! in anything we count ourselves: the datagrams never reach userspace, so our
//! packet counters simply read lower and a saturated sniper looks exactly like
//! a quiet network. The kernel does count them, per socket, and procfs is where
//! it says so.

use crate::text::{read_number, split, words};
use vstd::prelude::*;

verus! {

// Column positions in a procfs UDP row. `tx_queue:rx_queue` and `tr:tm->when`
// are each written as one colon-joined field, so these are not where the
// header's word count would put them.
pub const LOCAL_ADDRESS: usize = 1;

pub const DROPS: usize = 12;

/// The port a `local_address` field names: what its last colon is followed by,
/// in hex. Only the port half identifies us, since the address half is the
/// wildcard bind for every socket we own.
pub open spec fn port(local: Seq<char>) -> Option<nat> {
    let halves = crate::text::parts(local, ':');
    if halves.len() < 2 {
        None
    } else {
        match crate::text::number(halves.last(), 16, u16::MAX as nat) {
            Ok(port) => Some(port),
            Err(_) => None,
        }
    }
}

/// What a row says was dropped, if it is about one of `ports` and can be made
/// sense of.
pub open spec fn dropped(row: Seq<char>, ports: Seq<u16>) -> Option<nat> {
    let fields = crate::text::runs(row);
    if fields.len() <= DROPS {
        None
    } else {
        match (port(fields[LOCAL_ADDRESS as int]), crate::text::number(
            fields[DROPS as int],
            10,
            u64::MAX as nat,
        )) {
            (Some(port), Ok(drops)) => if ports.contains(port as u16) {
                Some(drops)
            } else {
                None
            },
            _ => None,
        }
    }
}

/// What the rows before row `to` come to, the header left out.
pub open spec fn dropped_above(rows: Seq<Seq<char>>, ports: Seq<u16>, to: int) -> nat
    decreases to,
{
    if to <= 1 {
        0
    } else {
        dropped_above(rows, ports, to - 1) + match dropped(rows[to - 1], ports) {
            Some(drops) => drops,
            None => 0,
        }
    }
}

/// What a whole table comes to.
pub open spec fn dropped_in(table: Seq<char>, ports: Seq<u16>) -> nat {
    let rows = crate::text::parts(table, '\n');
    dropped_above(rows, ports, rows.len() as int)
}

fn listed(ports: &[u16], port: u16) -> (listed: bool)
    ensures
        listed == ports@.contains(port),
{
    let mut i: usize = 0;
    while i < ports.len()
        invariant
            i <= ports@.len(),
            forall|j: int| 0 <= j < i ==> ports@[j] != port,
        decreases ports@.len() - i,
    {
        if ports[i] == port {
            return true;
        }
        i = i + 1;
    }
    false
}

pub fn row_drops(row: &str, ports: &[u16]) -> (drops: Option<u64>)
    ensures
        match drops {
            Some(drops) => dropped(row@, ports@) == Some(drops as nat),
            None => dropped(row@, ports@) is None,
        },
{
    let fields = words(row);
    let ghost held = crate::text::contents(fields@);
    assert(held.len() == fields@.len());
    if fields.len() <= DROPS {
        return None;
    }
    assert(held[LOCAL_ADDRESS as int] == fields@[LOCAL_ADDRESS as int]@);
    assert(held[DROPS as int] == fields@[DROPS as int]@);
    let halves = split(fields[LOCAL_ADDRESS], ':');
    let ghost parts = crate::text::contents(halves@);
    assert(parts.len() == halves@.len());
    if halves.len() < 2 {
        return None;
    }
    assert(parts.last() == halves@.last()@);
    let port: u16 = match read_number(halves[halves.len() - 1], 16, u16::MAX as u64) {
        Ok(port) => port as u16,
        Err(_) => return None,
    };
    if !listed(ports, port) {
        return None;
    }
    match read_number(fields[DROPS], 10, u64::MAX) {
        Ok(drops) => Some(drops),
        Err(_) => None,
    }
}

/// What a table comes to for the sockets bound to `ports`. A row that cannot be
/// made sense of is skipped rather than left to poison the total, which is kept
/// in the 64 bits the kernel counts in.
pub fn sum_drops(table: &str, ports: &[u16]) -> (drops: u64)
    ensures
        drops == dropped_in(table@, ports@) % 0x1_0000_0000_0000_0000,
{
    let rows = split(table, '\n');
    let ghost held = crate::text::contents(rows@);
    assert(held.len() == rows@.len() && held.len() >= 1);
    let mut total: u64 = 0;
    let mut i: usize = 1;
    while i < rows.len()
        invariant
            1 <= i <= rows@.len(),
            held == crate::text::contents(rows@),
            total == dropped_above(held, ports@, i as int) % 0x1_0000_0000_0000_0000,
        decreases rows@.len() - i,
    {
        assert(held[i as int] == rows@[i as int]@);
        if let Some(drops) = row_drops(rows[i], ports) {
            total = total.wrapping_add(drops);
        }
        i = i + 1;
    }
    total
}

/// What came of reading one of the kernel's tables.
pub enum Reading {
    Contents(String),
    /// A kernel built without IPv6 has no udp6 table. That is not a failure to
    /// report drops, it is an absence of sockets to report.
    Absent,
    Failed,
}

pub open spec fn dropped_over(readings: Seq<Reading>, ports: Seq<u16>, to: int) -> nat
    decreases to,
{
    if to <= 0 {
        0
    } else {
        dropped_over(readings, ports, to - 1) + match readings[to - 1] {
            Reading::Contents(table) => dropped_in(table@, ports),
            _ => 0,
        }
    }
}

/// Datagrams the kernel dropped on the sockets bound to `ports`, over all of its
/// tables, or the first table that could not be read.
pub fn drops(readings: &[Reading], ports: &[u16]) -> (drops: Result<u64, usize>)
    ensures
        match drops {
            Ok(total) => {
                &&& forall|i: int| 0 <= i < readings@.len() ==> !(readings@[i] is Failed)
                &&& total == dropped_over(readings@, ports@, readings@.len() as int)
                    % 0x1_0000_0000_0000_0000
            },
            Err(at) => {
                &&& at < readings@.len()
                &&& readings@[at as int] is Failed
                &&& forall|i: int| 0 <= i < at ==> !(readings@[i] is Failed)
            },
        },
{
    let mut total: u64 = 0;
    let mut i: usize = 0;
    while i < readings.len()
        invariant
            i <= readings@.len(),
            forall|j: int| 0 <= j < i ==> !(readings@[j] is Failed),
            total == dropped_over(readings@, ports@, i as int) % 0x1_0000_0000_0000_0000,
        decreases readings@.len() - i,
    {
        match &readings[i] {
            Reading::Contents(table) => {
                total = total.wrapping_add(sum_drops(table.as_str(), ports));
            },
            Reading::Absent => {},
            Reading::Failed => return Err(i),
        }
        i = i + 1;
    }
    Ok(total)
}

/// A row that says nothing of use changes nothing: the total is what it would be
/// without it.
pub proof fn an_unreadable_row_changes_nothing(rows: Seq<Seq<char>>, ports: Seq<u16>, at: int)
    requires
        1 <= at < rows.len(),
        dropped(rows[at], ports) is None,
    ensures
        dropped_above(rows.remove(at), ports, rows.len() - 1) == dropped_above(
            rows,
            ports,
            rows.len() as int,
        ),
{
    lemma_row_removed(rows, ports, at, rows.len() as int);
}

proof fn lemma_row_removed(rows: Seq<Seq<char>>, ports: Seq<u16>, at: int, to: int)
    requires
        1 <= at < rows.len(),
        at < to <= rows.len(),
        dropped(rows[at], ports) is None,
    ensures
        dropped_above(rows.remove(at), ports, to - 1) == dropped_above(rows, ports, to),
    decreases to,
{
    if to == at + 1 {
        lemma_rows_alike(rows.remove(at), rows, ports, at);
    } else {
        lemma_row_removed(rows, ports, at, to - 1);
        assert(rows.remove(at)[to - 2] == rows[to - 1]);
    }
}

proof fn lemma_rows_alike(left: Seq<Seq<char>>, right: Seq<Seq<char>>, ports: Seq<u16>, to: int)
    requires
        forall|i: int| 1 <= i < to ==> left[i] == right[i],
    ensures
        dropped_above(left, ports, to) == dropped_above(right, ports, to),
    decreases to,
{
    if to > 1 {
        lemma_rows_alike(left, right, ports, to - 1);
    }
}

/// Every socket is counted on its own: what a table comes to for two sets of
/// ports is what it comes to for each of them.
pub proof fn ports_add_up(table: Seq<char>, ours: Seq<u16>, theirs: Seq<u16>)
    requires
        forall|port: u16| !(ours.contains(port) && theirs.contains(port)),
    ensures
        dropped_in(table, ours + theirs) == dropped_in(table, ours) + dropped_in(table, theirs),
{
    let rows = crate::text::parts(table, '\n');
    lemma_ports_add_up(rows, ours, theirs, rows.len() as int);
}

proof fn lemma_ports_add_up(rows: Seq<Seq<char>>, ours: Seq<u16>, theirs: Seq<u16>, to: int)
    requires
        forall|port: u16| !(ours.contains(port) && theirs.contains(port)),
    ensures
        dropped_above(rows, ours + theirs, to) == dropped_above(rows, ours, to) + dropped_above(
            rows,
            theirs,
            to,
        ),
    decreases to,
{
    if to > 1 {
        lemma_ports_add_up(rows, ours, theirs, to - 1);
        assert forall|port: u16| #[trigger]
            (ours + theirs).contains(port) == (ours.contains(port) || theirs.contains(port)) by {
            if ours.contains(port) {
                let i = choose|i: int| 0 <= i < ours.len() && ours[i] == port;
                assert((ours + theirs)[i] == port);
            }
            if theirs.contains(port) {
                let i = choose|i: int| 0 <= i < theirs.len() && theirs[i] == port;
                assert((ours + theirs)[ours.len() + i] == port);
            }
        }
    }
}

/// A row counts for the socket it is about: where its second field ends in one of our
/// ports, in hex behind a colon, what its thirteenth says was dropped is what it
/// counts for, and a row about another port, or one that lacks either, for nothing.
pub proof fn a_row_counts_for_its_port(row: Seq<char>, ports: Seq<u16>, local: u16, drops: nat)
    requires
        crate::text::runs(row).len() >= 13,
        crate::text::parts(crate::text::runs(row)[1], ':').len() >= 2,
        crate::text::number(
            crate::text::parts(crate::text::runs(row)[1], ':').last(),
            16,
            65_535,
        ) == Ok::<nat, crate::text::NumberFault>(local as nat),
        crate::text::number(crate::text::runs(row)[12], 10, u64::MAX as nat) == Ok::<
            nat,
            crate::text::NumberFault,
        >(drops),
    ensures
        ports.contains(local) ==> dropped(row, ports) == Some(drops),
        !ports.contains(local) ==> dropped(row, ports) is None,
{
}

/// Rows add up, and the header is none of them: a table of a header alone comes to
/// nothing, and one more row adds what it counts for.
pub proof fn rows_add_up(rows: Seq<Seq<char>>, row: Seq<char>, ports: Seq<u16>)
    requires
        rows.len() >= 1,
    ensures
        dropped_above(seq![rows[0]], ports, 1) == 0,
        dropped_above(rows.push(row), ports, (rows.len() + 1) as int) == dropped_above(
            rows,
            ports,
            rows.len() as int,
        ) + (if dropped(row, ports) is Some {
            dropped(row, ports)->0
        } else {
            0
        }),
{
    let more = rows.push(row);
    assert(more[rows.len() as int] == row);
    assert forall|i: int| 1 <= i < rows.len() implies more[i] == rows[i] by {}
    lemma_rows_alike(more, rows, ports, rows.len() as int);
}

/// Tables add up: what the kernel dropped is what all of its tables come to, and one
/// that is not there comes to nothing.
pub proof fn tables_add_up(readings: Seq<Reading>, reading: Reading, ports: Seq<u16>)
    ensures
        dropped_over(Seq::empty(), ports, 0) == 0,
        dropped_over(readings.push(reading), ports, (readings.len() + 1) as int) == dropped_over(
            readings,
            ports,
            readings.len() as int,
        ) + (match reading {
            Reading::Contents(table) => {
                let rows = crate::text::parts(table@, '\n');
                dropped_above(rows, ports, rows.len() as int)
            },
            _ => 0,
        }),
{
    let more = readings.push(reading);
    lemma_readings_alike(more, readings, ports, readings.len() as int);
}

proof fn lemma_readings_alike(
    left: Seq<Reading>,
    right: Seq<Reading>,
    ports: Seq<u16>,
    to: int,
)
    requires
        forall|i: int| 0 <= i < to ==> left[i] == right[i],
    ensures
        dropped_over(left, ports, to) == dropped_over(right, ports, to),
    decreases to,
{
    if to > 0 {
        lemma_readings_alike(left, right, ports, to - 1);
    }
}

/// A table that could not be read is reported, the first of them, and nothing is added
/// up around it; one that is not there has no sockets and counts for nothing.
pub proof fn a_table_that_cannot_be_read_is_reported(
    readings: &[Reading],
    ports: &[u16],
    total: Result<u64, usize>,
    at: int,
)
    requires
        call_ensures(drops, (readings, ports), total),
        0 <= at <= readings@.len(),
        forall|i: int| 0 <= i < at ==> !(readings@[i] is Failed),
        at < readings@.len() ==> readings@[at] is Failed,
    ensures
        at < readings@.len() ==> total == Err::<u64, usize>(at as usize),
        at == readings@.len() ==> total is Ok,
        (forall|i: int| 0 <= i < readings@.len() ==> readings@[i] is Absent) ==> total == Ok::<
            u64,
            usize,
        >(0),
{
    if let Err(found) = total {
        if at < readings@.len() {
            assert(readings@[at] is Failed);
            if found < at {
                assert(!(readings@[found as int] is Failed));
            }
            if at < found {
                assert(!(readings@[at] is Failed));
            }
        } else {
            assert(!(readings@[found as int] is Failed));
        }
    } else if at < readings@.len() {
        assert(!(readings@[at] is Failed));
    }
    if forall|i: int| 0 <= i < readings@.len() ==> readings@[i] is Absent {
        lemma_absent(readings@, ports@, readings@.len() as int);
        if let Err(found) = total {
            assert(readings@[found as int] is Absent);
        }
    }
}

proof fn lemma_absent(readings: Seq<Reading>, ports: Seq<u16>, to: int)
    requires
        0 <= to <= readings.len(),
        forall|i: int| 0 <= i < readings.len() ==> readings[i] is Absent,
    ensures
        dropped_over(readings, ports, to) == 0,
    decreases to,
{
    if to > 0 {
        lemma_absent(readings, ports, to - 1);
        assert(readings[to - 1] is Absent);
    }
}

} // verus!
