use shred_sniper::aged::AgedMap;
use shred_sniper::clock::{between, clamp, Clock, SECOND};
use shred_sniper::leaders::{window_len, Schedule, Window, FASTEST_SLOT, WINDOW_SLOTS};
use shred_sniper::shred::announced;
use shred_sniper::text::{
    alike, characters, comes_before, enlist, read_number, split, trim, words, write_number,
    NumberFault,
};
use solana_transaction::Address;

#[test]
fn text_is_taken_apart_like_text() {
    assert_eq!(trim(" \t\u{3000}a b\u{2028}\n"), "a b");
    assert_eq!(trim("   "), "");
    assert_eq!(trim(""), "");
    assert_eq!(split("a,,b,", ','), vec!["a", "", "b", ""]);
    assert_eq!(split("", ','), vec![""]);
    assert_eq!(words("  a\tbc \u{85} d"), vec!["a", "bc", "d"]);
    assert!(words(" ").is_empty());
    assert_eq!(characters("aé"), vec!['a', 'é']);
    assert!(alike("aé", "aé") && !alike("a", "ab") && !alike("a", "b"));
}

/// White space is what `char` says it is.
#[test]
fn blank_is_what_unicode_says() {
    for code in 0..0x11_0000u32 {
        if let Some(c) = char::from_u32(code) {
            assert_eq!(shred_sniper::text::is_blank(c), c.is_whitespace(), "{code:x}");
        }
    }
}

#[test]
fn numbers_are_read_and_written() {
    for n in [0, 7, 10, 99, 100, 1234567890, u64::MAX] {
        assert_eq!(write_number(n), n.to_string());
        assert_eq!(read_number(&n.to_string(), 10, u64::MAX), Ok(n));
    }
    assert_eq!(read_number("", 10, 5), Err(NumberFault::Empty));
    assert_eq!(read_number("-1", 10, 5), Err(NumberFault::InvalidDigit));
    assert_eq!(read_number("6", 10, 5), Err(NumberFault::Overflow));
    assert_eq!(read_number("fF", 16, 255), Ok(255));
    assert_eq!(read_number("g", 16, 255), Err(NumberFault::InvalidDigit));
    for text in ["", "+", "+1", "-1", "65535", "65536", "1x", "00007", "999999x"] {
        let ours = read_number(text, 10, u16::MAX as u64).map_err(|fault| fault.text().to_string());
        let theirs = text
            .parse::<u16>()
            .map(u64::from)
            .map_err(|error| error.to_string());
        assert_eq!(ours, theirs, "{text}");
    }
}

#[test]
fn readings_only_go_forward() {
    let clock = Clock::start();
    let first = clock.now();
    assert!(clock.now() >= first);
    assert_eq!((between(3, 10), between(10, 3)), (7, 0));
    assert_eq!((clamp(5), clamp(u128::MAX)), (5, u64::MAX));
}

/// What has gone quiet expires, and what there is no room for is dropped.
#[test]
fn an_aged_map_lets_go() {
    let mut map: AgedMap<u64, u64> = AgedMap::new(10 * SECOND, 3, "things", 0);
    assert_eq!(map.label(), "things");
    *map.upsert(1, 0, || 10) += 1;
    map.upsert(2, 5 * SECOND, || 20);
    *map.upsert(1, 6 * SECOND, || 99) += 1;
    assert_eq!(map.get(&1), Some(&12));
    *map.get_mut(&2).unwrap() = 21;
    assert_eq!((map.len(), map.get(&3)), (2, None));

    let swept = map.sweep(15 * SECOND);
    assert!(swept.ran);
    assert_eq!(swept.expired, vec![(2, 21)]);
    assert_eq!((map.len(), map.values()), (1, vec![&12]));

    for key in 10..20 {
        map.upsert(key, 17 * SECOND + key, || key);
    }
    let swept = map.sweep(18 * SECOND);
    assert!(swept.ran);
    assert_eq!(swept.expired, vec![(1, 12)]);
    assert_eq!(swept.dropped, 7);
    assert_eq!(map.len(), 3);
    assert_eq!(map.values(), vec![&17, &18, &19]);
}

/// The cap holds even where everything was touched at one moment.
#[test]
fn entries_touched_together_do_not_outgrow_the_cap() {
    let mut map: AgedMap<u64, u64> = AgedMap::new(10 * SECOND, 2, "things", 0);
    map.upsert(9, 1, || 9);
    for key in 0..5 {
        map.upsert(key, SECOND, || key);
    }
    map.upsert(7, 2 * SECOND, || 7);
    let swept = map.sweep(3 * SECOND);
    assert!(swept.ran && swept.expired.is_empty());
    assert_eq!((map.len(), swept.dropped), (2, 5));
    assert_eq!(map.get(&7), Some(&7));
    assert_eq!(map.get(&9), None);
}

fn name(byte: u8) -> String {
    Address::from([byte; 32]).to_string()
}

/// Leaders are listed by what they are called, whatever they lead first, and a
/// longer name is not a later one.
#[test]
fn a_roster_is_in_order_of_names() {
    let led = [9u8, 255, 9, 0, 8, 255];
    let leaders = led.iter().map(|byte| [*byte; 32]).collect();
    let mut sorted: Vec<String> = led.iter().map(|byte| name(*byte)).collect();
    sorted.sort_unstable();
    sorted.dedup();
    let window = Window::new(100, leaders, 0);
    assert_eq!(window.roster, sorted);
    assert_eq!(window.roster.len(), 4);
    assert!(name(255) < name(9) && name(255).len() > name(9).len());

    let standings = window.standings(101);
    let leading: Vec<bool> = standings.iter().map(|standing| standing.leading).collect();
    let expected: Vec<bool> = sorted.iter().map(|leader| *leader == name(255)).collect();
    assert_eq!(leading, expected);
}

#[test]
fn a_fixed_schedule_publishes_nothing() {
    let schedule = Schedule::fixed(100, vec![[1; 32], [2; 32]]);
    assert_eq!(schedule.leader(101), Some([2; 32]));
    let window = schedule.window.unwrap();
    assert!(window.roster.is_empty());
    assert!(window.standings(100).is_empty());
}

#[test]
fn texts_are_sorted_as_they_are_written() {
    assert!(comes_before("", "a") && !comes_before("a", ""));
    assert!(comes_before("ab", "abc") && comes_before("Z", "a"));
    assert!(!comes_before("ab", "ab"));
    assert!(comes_before("z", "\u{e9}") && comes_before("\u{e9}", "\u{1f600}"));
    let mut texts = Vec::new();
    for text in ["b", "a", "b", "c", "a"] {
        enlist(&mut texts, text.to_string());
    }
    assert_eq!(texts, ["a", "b", "c"]);
}

#[test]
fn a_schedule_answers_for_its_window() {
    let mut window = Window::new(100, vec![[1; 32], [1; 32], [2; 32], [2; 32]], 0);
    assert_eq!(window.roster, [name(1), name(2)]);
    assert_eq!(window.leader(101), Some(&[1; 32]));
    assert_eq!((window.leader(99), window.leader(104)), (None, None));
    assert!(!window.refresh_due(102));
    assert!(window.refresh_due(103) && window.refresh_due(99));
    let standings = window.standings(102);
    assert_eq!(standings.len(), 2);
    assert!(standings
        .iter()
        .all(|standing| standing.leading == (standing.leader == name(2))));
    assert!(window.standings(104).is_empty());

    window.fetched = 0;
    let schedule = Schedule {
        window: Some(window),
    };
    assert_eq!(schedule.leader(103), Some([2; 32]));
    assert!(schedule.fetch_due(103) && !schedule.fetch_due(0) && !schedule.fetch_due(100));
    assert!(Schedule::default().fetch_due(1));
    let reach = 104 + WINDOW_SLOTS;
    assert!(!schedule.implausible(reach - 10, 0));
    assert!(schedule.implausible(reach + 100, 0));
    assert!(!schedule.implausible(reach + 100, 200 * FASTEST_SLOT));
    assert!(!Schedule::default().implausible(u64::MAX, 0));
    assert_eq!((window_len(100), window_len(10_000)), (100, WINDOW_SLOTS));
}

#[test]
fn an_entrypoint_without_a_version_announces_none() {
    assert_eq!(announced(0), None);
    assert_eq!(announced(1), Some(1));
    assert_eq!(announced(u16::MAX), Some(u16::MAX));
}
