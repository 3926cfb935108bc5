use shred_sniper::netstat::{drops, row_drops, sum_drops, Reading};

/// Verbatim procfs, header included. Ports 0x1F90 = 8080, 0x22B8 = 8888.
const TABLE: &str = "\
  sl  local_address rem_address   st tx_queue rx_queue tr tm->when retrnsmt   uid  timeout inode ref pointer drops
 3450: 00000000:1F90 00000000:0000 07 00000000:00000000 00:00000000 00000000  1000        0 41521 2 0000000000000000 17
 3451: 0100007F:22B8 00000000:0000 07 00000000:00000000 00:00000000 00000000  1000        0 41522 2 0000000000000000 4
 3452: 00000000:0035 00000000:0000 07 00000000:00000000 00:00000000 00000000     0        0 41523 2 0000000000000000 9000
";

/// The drops column sits past two fields that each contain a colon, so counting
/// words off the header lands on the wrong one.
#[test]
fn reads_the_drops_column_for_our_ports_only() {
    assert_eq!(sum_drops(TABLE, &[8080]), 17);
    assert_eq!(sum_drops(TABLE, &[8888]), 4);
    assert_eq!(sum_drops(TABLE, &[8080, 8888]), 21);
    assert_eq!(
        sum_drops(TABLE, &[53]),
        9000,
        "a port we do not own must not be counted, but must still parse"
    );
    assert_eq!(sum_drops(TABLE, &[]), 0);
}

/// procfs is a kernel interface, not a contract we control, so a row we cannot
/// make sense of has to be skipped rather than poison the total.
#[test]
fn survives_rows_it_cannot_parse() {
    let mangled = format!("{TABLE}garbage\n 3453: nocolon 00000000:0000\n");
    assert_eq!(sum_drops(&mangled, &[8080]), 17);
}

/// The fields of one row, at the edges of what is accepted.
#[test]
fn a_row_is_read_by_its_fields() {
    let row = |local: &str, drops: &str| format!("1: {local} c d e f g h i j k l {drops}");
    assert_eq!(row_drops(&row("0:+1f90", "+5"), &[8080]), Some(5));
    assert_eq!(row_drops(&row("a:b:1F90", "0"), &[8080]), Some(0));
    assert_eq!(row_drops(&row("0:11F90", "5"), &[8080]), None);
    assert_eq!(row_drops(&row("0:", "5"), &[8080]), None);
    assert_eq!(row_drops(&row("0:1F90", "-5"), &[8080]), None);
    assert_eq!(
        row_drops(&row("0:1F90", "18446744073709551615"), &[8080]),
        Some(u64::MAX)
    );
    assert_eq!(
        row_drops(&row("0:1F90", "18446744073709551616"), &[8080]),
        None
    );
    assert_eq!(
        row_drops("1:\u{2003}0:1F90\u{a0}c d e f g h i j k l 3\r", &[8080]),
        Some(3)
    );
}

/// A table that is not there has no sockets in it; one that cannot be read is a
/// failure.
#[test]
fn tables_are_added_up() {
    let whole = || Reading::Contents(TABLE.to_string());
    assert_eq!(drops(&[whole(), Reading::Absent], &[8080, 53]), Ok(9017));
    assert_eq!(drops(&[whole(), whole()], &[8080]), Ok(34));
    assert_eq!(drops(&[whole(), Reading::Failed, whole()], &[8080]), Err(1));
    assert_eq!(drops(&[], &[8080]), Ok(0));
}
