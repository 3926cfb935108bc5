//! Reading and writing plain text: whitespace, separators and numbers.

use vstd::prelude::*;

verus! {

/// Whether Unicode counts `c` as white space.
pub open spec fn blank(c: char) -> bool {
    let code = c as u32;
    ||| 0x09 <= code <= 0x0d
    ||| code == 0x20
    ||| code == 0x85
    ||| code == 0xa0
    ||| code == 0x1680
    ||| 0x2000 <= code <= 0x200a
    ||| code == 0x2028
    ||| code == 0x2029
    ||| code == 0x202f
    ||| code == 0x205f
    ||| code == 0x3000
}

pub fn is_blank(c: char) -> (is: bool)
    ensures
        is == blank(c),
{
    let code: u32 = c as u32;
    (0x09 <= code && code <= 0x0d) || code == 0x20 || code == 0x85 || code == 0xa0 || code == 0x1680
        || (0x2000 <= code && code <= 0x200a) || code == 0x2028 || code == 0x2029 || code == 0x202f
        || code == 0x205f || code == 0x3000
}

/// What each of a list of texts holds.
pub open spec fn contents(texts: Seq<&str>) -> Seq<Seq<char>> {
    texts.map_values(|text: &str| text@)
}

proof fn lemma_contents_push(texts: Seq<&str>, text: &str)
    ensures
        contents(texts.push(text)) == contents(texts).push(text@),
{
    assert(contents(texts.push(text)) =~= contents(texts).push(text@));
}

/// The characters of `text`, one by one.
pub fn characters(text: &str) -> (characters: Vec<char>)
    ensures
        characters@ == text@,
{
    let len: usize = text.unicode_len();
    let mut characters: Vec<char> = Vec::new();
    for c in it: text.chars()
        invariant
            characters@ == it.seq().take(it.index()),
            it.seq() == text@,
            len == text@.len(),
    {
        characters.push(c);
        assert(it.seq().take(it.index() + 1) =~= it.seq().take(it.index()).push(c));
    }
    assert(text@.take(len as int) =~= text@);
    characters
}

/// Whether two texts are the same.
pub fn alike(left: &str, right: &str) -> (alike: bool)
    ensures
        alike == (left@ == right@),
{
    let ours = characters(left);
    let theirs = characters(right);
    if ours.len() != theirs.len() {
        return false;
    }
    let mut i: usize = 0;
    while i < ours.len()
        invariant
            i <= ours@.len() == theirs@.len(),
            ours@ == left@,
            theirs@ == right@,
            forall|j: int| 0 <= j < i ==> left@[j] == right@[j],
        decreases ours@.len() - i,
    {
        if ours[i] != theirs[i] {
            return false;
        }
        i = i + 1;
    }
    assert(left@ =~= right@);
    true
}

/// Whether one text sorts before another: by the first character they differ in,
/// and one that the other begins with comes first.
pub open spec fn precedes(left: Seq<char>, right: Seq<char>) -> bool
    decreases left.len(),
{
    if right.len() == 0 {
        false
    } else if left.len() == 0 {
        true
    } else if left[0] == right[0] {
        precedes(left.drop_first(), right.drop_first())
    } else {
        (left[0] as int) < (right[0] as int)
    }
}

/// Whether texts are sorted and none of them occurs twice.
pub open spec fn ascending(texts: Seq<Seq<char>>) -> bool {
    forall|i: int, j: int|
        0 <= i < j < texts.len() ==> precedes(#[trigger] texts[i], #[trigger] texts[j])
}

/// Any two texts that differ are in order one way round and not the other, and no
/// text is before itself.
pub proof fn texts_are_in_order(left: Seq<char>, right: Seq<char>)
    ensures
        precedes(left, right) || precedes(right, left) || left == right,
        !(precedes(left, right) && precedes(right, left)),
    decreases left.len(),
{
    if left.len() > 0 && right.len() > 0 && left[0] == right[0] {
        texts_are_in_order(left.drop_first(), right.drop_first());
        if left.drop_first() == right.drop_first() {
            assert(left =~= seq![left[0]] + left.drop_first());
            assert(right =~= seq![right[0]] + right.drop_first());
        }
    }
    if left.len() == 0 && right.len() == 0 {
        assert(left =~= right);
    }
}

/// What precedes a text precedes whatever that one precedes.
pub proof fn order_carries_over(first: Seq<char>, second: Seq<char>, third: Seq<char>)
    requires
        precedes(first, second),
        precedes(second, third),
    ensures
        precedes(first, third),
    decreases first.len(),
{
    if first.len() > 0 && first[0] == second[0] && second[0] == third[0] {
        order_carries_over(first.drop_first(), second.drop_first(), third.drop_first());
    }
}

/// Whether `left` sorts before `right`, as `str` orders itself.
pub fn comes_before(left: &str, right: &str) -> (before: bool)
    ensures
        before == precedes(left@, right@),
{
    let ours = characters(left);
    let theirs = characters(right);
    let mut i: usize = 0;
    assert(left@.skip(0) =~= left@ && right@.skip(0) =~= right@);
    while i < ours.len() && i < theirs.len()
        invariant
            i <= ours@.len(),
            i <= theirs@.len(),
            ours@ == left@,
            theirs@ == right@,
            precedes(left@, right@) == precedes(left@.skip(i as int), right@.skip(i as int)),
        decreases ours@.len() - i,
    {
        if ours[i] != theirs[i] {
            return ours[i] < theirs[i];
        }
        assert(left@.skip(i as int).drop_first() =~= left@.skip(i + 1));
        assert(right@.skip(i as int).drop_first() =~= right@.skip(i + 1));
        i = i + 1;
    }
    i < theirs.len()
}

/// What each of a list of owned texts holds.
pub open spec fn told(texts: Seq<String>) -> Seq<Seq<char>> {
    texts.map_values(|text: String| text@)
}

/// Puts a text where it belongs among sorted ones, unless it is there already.
pub fn enlist(texts: &mut Vec<String>, text: String)
    requires
        ascending(told(old(texts)@)),
    ensures
        ascending(told(final(texts)@)),
        told(final(texts)@).to_set() == told(old(texts)@).to_set().insert(text@),
{
    let ghost before = told(texts@);
    let ghost new = text@;
    let mut at: usize = 0;
    while at < texts.len() && comes_before(texts[at].as_str(), text.as_str())
        invariant
            at <= texts@.len(),
            texts@ == old(texts)@,
            new == text@,
            forall|i: int| 0 <= i < at ==> precedes(#[trigger] texts@[i]@, new),
        decreases texts@.len() - at,
    {
        at = at + 1;
    }
    if at < texts.len() && alike(texts[at].as_str(), text.as_str()) {
        assert(before[at as int] == new);
        assert(before.to_set().contains(new));
        assert(before.to_set().insert(new) =~= before.to_set());
        return;
    }
    texts.insert(at, text);
    proof {
        let after = told(texts@);
        assert(after =~= before.insert(at as int, new));
        if at < before.len() {
            assert(before[at as int] == old(texts)@[at as int]@);
            texts_are_in_order(before[at as int], new);
        }
        assert forall|i: int, j: int| 0 <= i < j < after.len() implies precedes(
            #[trigger] after[i],
            #[trigger] after[j],
        ) by {
            if i < at && j == at {
                assert(before[i] == old(texts)@[i]@);
            } else if i == at {
                assert(after[j] == before[j - 1]);
                if j - 1 > at {
                    assert(precedes(before[at as int], before[j - 1]));
                    order_carries_over(new, before[at as int], before[j - 1]);
                }
            } else {
                let from = if i < at { i } else { i - 1 };
                let to = if j < at { j } else { j - 1 };
                assert(precedes(before[from], before[to]));
            }
        }
        assert forall|name: Seq<char>|
            after.to_set().contains(name) <==> before.to_set().insert(new).contains(name) by {
            if before.contains(name) {
                let i = choose|i: int| 0 <= i < before.len() && before[i] == name;
                let j = if i < at { i } else { i + 1 };
                assert(after[j] == name);
            }
            if name == new {
                assert(after[at as int] == name);
            }
            if after.contains(name) {
                let j = choose|j: int| 0 <= j < after.len() && after[j] == name;
                if j < at {
                    assert(before[j] == name);
                } else if j > at {
                    assert(before[j - 1] == name);
                }
            }
        }
        assert(after.to_set() =~= before.to_set().insert(new));
    }
}

/// `text` without the white space it begins and ends with.
pub open spec fn trimmed(text: Seq<char>) -> Seq<char>
    decreases text.len(),
{
    if text.len() > 0 && blank(text.first()) {
        trimmed(text.drop_first())
    } else if text.len() > 0 && blank(text.last()) {
        trimmed(text.drop_last())
    } else {
        text
    }
}

pub fn trim(text: &str) -> (inner: &str)
    ensures
        inner@ == trimmed(text@),
{
    let chars = characters(text);
    let mut from: usize = 0;
    let mut to: usize = chars.len();
    assert(text@.subrange(0, to as int) =~= text@);
    while from < to && is_blank(chars[from])
        invariant
            from <= to == chars@.len(),
            chars@ == text@,
            trimmed(text@.subrange(from as int, to as int)) == trimmed(text@),
        decreases to - from,
    {
        assert(text@.subrange(from as int, to as int).drop_first() =~= text@.subrange(
            from + 1,
            to as int,
        ));
        from = from + 1;
    }
    while from < to && is_blank(chars[to - 1])
        invariant
            from <= to <= chars@.len(),
            chars@ == text@,
            from < chars@.len() ==> !blank(chars@[from as int]),
            trimmed(text@.subrange(from as int, to as int)) == trimmed(text@),
        decreases to - from,
    {
        assert(text@.subrange(from as int, to as int).drop_last() =~= text@.subrange(
            from as int,
            to - 1,
        ));
        to = to - 1;
    }
    text.substring_char(from, to)
}

/// The parts of `text` between occurrences of `separator`: always one more than
/// there are occurrences.
pub open spec fn parts(text: Seq<char>, separator: char) -> Seq<Seq<char>>
    decreases text.len(),
{
    if text.len() == 0 {
        seq![Seq::<char>::empty()]
    } else {
        let before = parts(text.drop_last(), separator);
        if text.last() == separator {
            before.push(Seq::<char>::empty())
        } else {
            before.drop_last().push(before.last().push(text.last()))
        }
    }
}

pub fn split<'a>(text: &'a str, separator: char) -> (split: Vec<&'a str>)
    ensures
        contents(split@) == parts(text@, separator),
{
    let chars = characters(text);
    let mut split: Vec<&'a str> = Vec::new();
    let mut start: usize = 0;
    let mut i: usize = 0;
    assert(text@.subrange(0, 0) =~= Seq::<char>::empty());
    assert(contents(split@).push(text@.subrange(0, 0)) =~= parts(text@.take(0), separator));
    while i < chars.len()
        invariant
            start <= i <= chars@.len(),
            chars@ == text@,
            contents(split@).push(text@.subrange(start as int, i as int)) == parts(
                text@.take(i as int),
                separator,
            ),
        decreases chars@.len() - i,
    {
        let ghost before = contents(split@);
        let ghost open = text@.subrange(start as int, i as int);
        assert(text@.take(i + 1).drop_last() =~= text@.take(i as int));
        assert(before.push(open).drop_last() =~= before);
        if chars[i] == separator {
            let part = text.substring_char(start, i);
            proof {
                lemma_contents_push(split@, part);
            }
            split.push(part);
            start = i + 1;
            assert(text@.subrange(start as int, i + 1) =~= Seq::<char>::empty());
        } else {
            assert(text@.subrange(start as int, i + 1) =~= open.push(text@[i as int]));
        }
        i = i + 1;
    }
    let part = text.substring_char(start, i);
    proof {
        lemma_contents_push(split@, part);
        assert(text@.take(i as int) =~= text@);
    }
    split.push(part);
    split
}

/// The longest runs of `text` without white space in them, in order.
pub open spec fn runs(text: Seq<char>) -> Seq<Seq<char>>
    decreases text.len(),
{
    if text.len() == 0 {
        Seq::empty()
    } else {
        let before = runs(text.drop_last());
        if blank(text.last()) {
            before
        } else if text.len() > 1 && !blank(text[text.len() - 2]) {
            before.drop_last().push(before.last().push(text.last()))
        } else {
            before.push(seq![text.last()])
        }
    }
}

pub fn words<'a>(text: &'a str) -> (words: Vec<&'a str>)
    ensures
        contents(words@) == runs(text@),
{
    let chars = characters(text);
    let mut words: Vec<&'a str> = Vec::new();
    // Where the word being read began, or `i` between words.
    let mut start: usize = 0;
    let mut i: usize = 0;
    assert(contents(words@) =~= runs(text@.take(0)));
    while i < chars.len()
        invariant
            start <= i <= chars@.len(),
            chars@ == text@,
            start == i ==> i == 0 || blank(text@[i - 1]),
            start < i ==> !blank(text@[i - 1]),
            runs(text@.take(i as int)) == if start == i {
                contents(words@)
            } else {
                contents(words@).push(text@.subrange(start as int, i as int))
            },
        decreases chars@.len() - i,
    {
        let ghost before = contents(words@);
        let ghost open = text@.subrange(start as int, i as int);
        assert(text@.take(i + 1).drop_last() =~= text@.take(i as int));
        assert(before.push(open).drop_last() =~= before);
        if is_blank(chars[i]) {
            if start < i {
                let word = text.substring_char(start, i);
                proof {
                    lemma_contents_push(words@, word);
                }
                words.push(word);
            }
            start = i + 1;
        } else {
            assert(text@.subrange(start as int, i + 1) =~= open.push(text@[i as int]));
            assert(seq![text@[i as int]] =~= Seq::<char>::empty().push(text@[i as int]));
            assert(start == i ==> open =~= Seq::<char>::empty());
        }
        i = i + 1;
    }
    assert(text@.take(i as int) =~= text@);
    if start < i {
        let word = text.substring_char(start, i);
        proof {
            lemma_contents_push(words@, word);
        }
        words.push(word);
    }
    words
}

/// Why a text is not a number.
#[derive(Clone, Copy, Debug, PartialEq, Eq, Structural)]
pub enum NumberFault {
    Empty,
    InvalidDigit,
    Overflow,
    Zero,
}

impl NumberFault {
    pub open spec fn said(self) -> Seq<char> {
        match self {
            NumberFault::Empty => "cannot parse integer from empty string"@,
            NumberFault::InvalidDigit => "invalid digit found in string"@,
            NumberFault::Overflow => "number too large to fit in target type"@,
            NumberFault::Zero => "number would be zero for non-zero type"@,
        }
    }

    pub fn text(self) -> (text: &'static str)
        ensures
            text@ == self.said(),
    {
        match self {
            NumberFault::Empty => "cannot parse integer from empty string",
            NumberFault::InvalidDigit => "invalid digit found in string",
            NumberFault::Overflow => "number too large to fit in target type",
            NumberFault::Zero => "number would be zero for non-zero type",
        }
    }
}

/// What `c` is worth as a digit of base `radix`.
pub open spec fn digit(c: char, radix: nat) -> Option<nat> {
    let code = c as nat;
    let worth = if 0x30 <= code <= 0x39 {
        (code - 0x30) as nat
    } else if 0x41 <= code <= 0x5a {
        (code - 0x41 + 10) as nat
    } else if 0x61 <= code <= 0x7a {
        (code - 0x61 + 10) as nat
    } else {
        radix
    };
    if worth < radix {
        Some(worth)
    } else {
        None
    }
}

/// What a run of digits is worth, read from the left until it goes wrong.
pub open spec fn worth(digits: Seq<char>, radix: nat, most: nat) -> Result<nat, NumberFault>
    decreases digits.len(),
{
    if digits.len() == 0 {
        Ok(0)
    } else {
        match (worth(digits.drop_last(), radix, most), digit(digits.last(), radix)) {
            (Err(fault), _) => Err(fault),
            (Ok(_), None) => Err(NumberFault::InvalidDigit),
            (Ok(high), Some(low)) => if high * radix + low <= most {
                Ok(high * radix + low)
            } else {
                Err(NumberFault::Overflow)
            },
        }
    }
}

/// The number `text` spells in base `radix`, a leading plus allowed, if it is no
/// larger than `most`.
pub open spec fn number(text: Seq<char>, radix: nat, most: nat) -> Result<nat, NumberFault> {
    if text.len() == 0 {
        Err(NumberFault::Empty)
    } else if text[0] == '+' {
        if text.len() == 1 {
            Err(NumberFault::InvalidDigit)
        } else {
            worth(text.drop_first(), radix, most)
        }
    } else {
        worth(text, radix, most)
    }
}

/// A number that is read is no larger than it may be.
pub proof fn numbers_are_bounded(text: Seq<char>, radix: nat, most: nat)
    ensures
        number(text, radix, most) matches Ok(value) ==> value <= most,
{
    assert(worth(text, radix, most) matches Ok(value) ==> value <= most);
    assert(worth(text.drop_first(), radix, most) matches Ok(value) ==> value <= most);
}

fn read_digit(c: char, radix: u32) -> (worth: Option<u32>)
    ensures
        match worth {
            Some(worth) => digit(c, radix as nat) == Some(worth as nat) && worth < radix,
            None => digit(c, radix as nat) is None,
        },
{
    let code: u32 = c as u32;
    let worth: u32 = if 0x30 <= code && code <= 0x39 {
        code - 0x30
    } else if 0x41 <= code && code <= 0x5a {
        code - 0x41 + 10
    } else if 0x61 <= code && code <= 0x7a {
        code - 0x61 + 10
    } else {
        radix
    };
    if worth < radix {
        Some(worth)
    } else {
        None
    }
}

/// A fault stays where it was found, whatever follows.
proof fn lemma_fault_stays(digits: Seq<char>, radix: nat, most: nat, len: int)
    requires
        0 <= len <= digits.len(),
        worth(digits.take(len), radix, most) is Err,
    ensures
        worth(digits, radix, most) == worth(digits.take(len), radix, most),
    decreases digits.len(),
{
    if len < digits.len() {
        assert(digits.drop_last().take(len) =~= digits.take(len));
        lemma_fault_stays(digits.drop_last(), radix, most, len);
    } else {
        assert(digits.take(len) =~= digits);
    }
}

pub fn read_number(text: &str, radix: u32, most: u64) -> (read: Result<u64, NumberFault>)
    requires
        2 <= radix <= 36,
    ensures
        match read {
            Ok(value) => number(text@, radix as nat, most as nat) == Ok::<nat, NumberFault>(
                value as nat,
            ),
            Err(fault) => number(text@, radix as nat, most as nat) == Err::<nat, NumberFault>(
                fault,
            ),
        },
{
    let chars = characters(text);
    if chars.len() == 0 {
        return Err(NumberFault::Empty);
    }
    let signed: usize = if chars[0] == '+' {
        1
    } else {
        0
    };
    if signed == chars.len() {
        return Err(NumberFault::InvalidDigit);
    }
    let ghost digits = text@.skip(signed as int);
    let ghost base = radix as nat;
    assert(signed == 0 ==> digits =~= text@);
    assert(signed == 1 ==> digits =~= text@.drop_first());
    let mut value: u64 = 0;
    let mut i: usize = signed;
    assert(digits.take(0) =~= Seq::<char>::empty());
    while i < chars.len()
        invariant
            2 <= radix <= 36,
            base == radix,
            signed <= i <= chars@.len(),
            chars@ == text@,
            digits == text@.skip(signed as int),
            number(text@, base, most as nat) == worth(digits, base, most as nat),
            worth(digits.take(i - signed), base, most as nat) == Ok::<nat, NumberFault>(
                value as nat,
            ),
        decreases chars@.len() - i,
    {
        let ghost read = i - signed;
        assert(digits.take(read + 1).drop_last() =~= digits.take(read));
        assert(digits.take(read + 1).last() == chars@[i as int]);
        match read_digit(chars[i], radix) {
            None => {
                proof {
                    lemma_fault_stays(digits, base, most as nat, read + 1);
                }
                return Err(NumberFault::InvalidDigit);
            },
            Some(low) => {
                assert(value * radix <= u64::MAX * 36) by (nonlinear_arith)
                    requires
                        value <= u64::MAX,
                        radix <= 36,
                ;
                let next: u128 = value as u128 * radix as u128 + low as u128;
                assert(next == (value as nat) * base + (low as nat));
                if next > most as u128 {
                    proof {
                        lemma_fault_stays(digits, base, most as nat, read + 1);
                    }
                    return Err(NumberFault::Overflow);
                }
                value = next as u64;
            },
        }
        i = i + 1;
    }
    assert(digits.take(i - signed) =~= digits);
    Ok(value)
}

/// The decimal digit worth `n`.
pub open spec fn figure(n: nat) -> char {
    (0x30 + n) as char
}

/// `n` in decimal.
pub open spec fn decimal(n: nat) -> Seq<char>
    decreases n,
{
    if n < 10 {
        seq![figure(n)]
    } else {
        decimal(n / 10).push(figure(n % 10))
    }
}

fn write_figure(n: u64) -> (text: &'static str)
    requires
        n < 10,
    ensures
        text@ == seq![figure(n as nat)],
{
    proof {
        reveal_strlit("0");
        reveal_strlit("1");
        reveal_strlit("2");
        reveal_strlit("3");
        reveal_strlit("4");
        reveal_strlit("5");
        reveal_strlit("6");
        reveal_strlit("7");
        reveal_strlit("8");
        reveal_strlit("9");
    }
    let text: &'static str = match n {
        0 => "0",
        1 => "1",
        2 => "2",
        3 => "3",
        4 => "4",
        5 => "5",
        6 => "6",
        7 => "7",
        8 => "8",
        _ => "9",
    };
    assert(text@ =~= seq![figure(n as nat)]);
    text
}

pub fn write_number(n: u64) -> (text: String)
    ensures
        text@ == decimal(n as nat),
    decreases n,
{
    if n < 10 {
        write_figure(n).to_owned()
    } else {
        let mut text = write_number(n / 10);
        text.append(write_figure(n % 10));
        assert(text@ =~= decimal(n as nat));
        text
    }
}

/// A number in decimal is made of figures only, and there is at least one.
pub proof fn decimals_are_figures(n: nat)
    ensures
        decimal(n).len() > 0,
        forall|i: int| 0 <= i < decimal(n).len() ==> 0x30 <= #[trigger] decimal(n)[i] as nat <= 0x39,
    decreases n,
{
    if n >= 10 {
        decimals_are_figures(n / 10);
    }
}

/// No two numbers look alike in decimal.
pub proof fn decimals_are_told_apart(left: nat, right: nat)
    requires
        decimal(left) == decimal(right),
    ensures
        left == right,
    decreases left,
{
    decimals_are_figures(left / 10);
    decimals_are_figures(right / 10);
    assert(decimal(left).last() == figure(left % 10));
    assert(decimal(right).last() == figure(right % 10));
    assert(figure(left % 10) as nat == 0x30 + left % 10);
    assert(figure(right % 10) as nat == 0x30 + right % 10);
    if left >= 10 && right >= 10 {
        assert(decimal(left).drop_last() =~= decimal(left / 10));
        assert(decimal(right).drop_last() =~= decimal(right / 10));
        decimals_are_told_apart(left / 10, right / 10);
    }
}

proof fn lemma_decimal_is_worth(n: nat, most: nat)
    requires
        n <= most,
    ensures
        worth(decimal(n), 10, most) == Ok::<nat, NumberFault>(n),
        decimal(n).len() > 0,
    decreases n,
{
    if n < 10 {
        let text = decimal(n);
        assert(text.drop_last() =~= Seq::<char>::empty());
        assert(worth(text.drop_last(), 10, most) == Ok::<nat, NumberFault>(0));
        assert(text.last() == figure(n));
        assert(digit(figure(n), 10) == Some(n));
    } else {
        lemma_decimal_is_worth(n / 10, most);
        let text = decimal(n);
        assert(text.drop_last() =~= decimal(n / 10));
        assert(digit(figure(n % 10), 10) == Some(n % 10));
        assert((n / 10) * 10 + n % 10 == n);
    }
}

/// A number that was written is read back as it was, where it is no larger than it
/// may be.
pub proof fn what_is_written_is_read_back(n: nat, most: nat)
    ensures
        n <= most ==> number(decimal(n), 10, most) == Ok::<nat, NumberFault>(n),
{
    if n <= most {
        lemma_decimal_is_worth(n, most);
        decimals_are_figures(n);
        assert(decimal(n)[0] != '+');
    }
}

/// One more figure makes a number so many times as large as the radix says, and adds
/// what the figure is worth: its place from `0` on, or, behind the ten of those, its
/// place from `a` or `A` on. Where that is more than it may be, it is none.
pub proof fn a_figure_more_counts_by_its_place(
    front: Seq<char>,
    c: char,
    radix: nat,
    most: nat,
    high: nat,
    low: nat,
)
    requires
        front.len() > 0,
        number(front, radix, most) == Ok::<nat, NumberFault>(high),
        low < radix,
        (48 <= c as int <= 57 && low == c as int - 48) || (97 <= c as int <= 122 && low == c as int
            - 87) || (65 <= c as int <= 90 && low == c as int - 55),
    ensures
        number(front.push(c), radix, most) == if high * radix + low <= most {
            Ok::<nat, NumberFault>(high * radix + low)
        } else {
            Err(NumberFault::Overflow)
        },
{
    let all = front.push(c);
    assert(all[0] == front[0]);
    assert(all.drop_last() =~= front);
    assert(digit(c, radix) == Some(low));
    if front[0] == '+' {
        assert(all.drop_first() =~= front.drop_first().push(c));
        assert(all.drop_first().drop_last() =~= front.drop_first());
    }
}

/// Texts put together with a separator between each two.
pub open spec fn joined(texts: Seq<Seq<char>>, separator: char) -> Seq<char>
    decreases texts.len(),
{
    if texts.len() == 0 {
        Seq::empty()
    } else if texts.len() == 1 {
        texts[0]
    } else {
        joined(texts.drop_last(), separator).push(separator) + texts.last()
    }
}

/// A text is taken apart at every separator and nowhere else: its parts hold none,
/// and with one between each two they are the text again.
pub proof fn parts_put_together_are_the_text(text: Seq<char>, separator: char)
    ensures
        parts(text, separator).len() >= 1,
        forall|i: int|
            0 <= i < parts(text, separator).len() ==> !(#[trigger] parts(
                text,
                separator,
            )[i]).contains(separator),
        joined(parts(text, separator), separator) == text,
    decreases text.len(),
{
    let all = parts(text, separator);
    if text.len() == 0 {
        assert(all[0] =~= text);
    } else {
        let front = text.drop_last();
        let c = text.last();
        parts_put_together_are_the_text(front, separator);
        let before = parts(front, separator);
        assert(text =~= front.push(c));
        if c == separator {
            assert(all.drop_last() =~= before);
            assert(all.last() =~= Seq::<char>::empty());
            assert(joined(all, separator) =~= front.push(separator) + Seq::<char>::empty());
            assert forall|i: int| 0 <= i < all.len() implies !(#[trigger] all[i]).contains(
                separator,
            ) by {
                if i < before.len() {
                    assert(all[i] == before[i]);
                }
            }
        } else {
            let last = before.last().push(c);
            assert(all.last() == last);
            assert forall|i: int| 0 <= i < all.len() implies !(#[trigger] all[i]).contains(
                separator,
            ) by {
                if i < before.len() - 1 {
                    assert(all[i] == before[i]);
                } else {
                    crate::maps::lemma_push_contains(before.last(), c);
                    assert(!before[before.len() - 1].contains(separator));
                }
            }
            if before.len() == 1 {
                assert(before.last() == front);
                assert(all.len() == 1);
                assert(all[0] =~= text);
            } else {
                assert(all.drop_last() =~= before.drop_last());
                assert(joined(all, separator) =~= joined(before, separator).push(c));
            }
        }
    }
}

/// Words end where white space begins: a text of none is one word, and what stands
/// on either side of white space is taken apart on its own.
pub proof fn words_end_at_white_space(front: Seq<char>, c: char, back: Seq<char>)
    requires
        blank(c),
    ensures
        runs(front.push(c) + back) == runs(front) + runs(back),
    decreases back.len(),
{
    let all = front.push(c) + back;
    if back.len() == 0 {
        assert(all =~= front.push(c));
        assert(all.drop_last() =~= front);
        assert(runs(all) =~= runs(front) + runs(back));
    } else {
        words_end_at_white_space(front, c, back.drop_last());
        assert(all.drop_last() =~= front.push(c) + back.drop_last());
        assert(all.last() == back.last());
        let before = runs(back.drop_last());
        if !blank(back.last()) {
            if back.len() > 1 {
                assert(all[all.len() - 2] == back[back.len() - 2]);
                if !blank(back[back.len() - 2]) {
                    lemma_runs_end(back.drop_last());
                    assert((runs(front) + before).last() == before.last());
                    assert((runs(front) + before).drop_last() =~= runs(front) + before.drop_last());
                }
            } else {
                assert(all[all.len() - 2] == c);
            }
        }
        assert(runs(all) =~= runs(front) + runs(back));
    }
}

proof fn lemma_runs_end(text: Seq<char>)
    requires
        text.len() > 0,
        !blank(text.last()),
    ensures
        runs(text).len() > 0,
    decreases text.len(),
{
}

/// A text without white space is a word, unless it is empty.
pub proof fn a_text_without_white_space_is_a_word(text: Seq<char>)
    requires
        forall|i: int| 0 <= i < text.len() ==> !blank(#[trigger] text[i]),
    ensures
        text.len() == 0 ==> runs(text).len() == 0,
        text.len() > 0 ==> runs(text) == seq![text],
    decreases text.len(),
{
    if text.len() > 0 {
        let front = text.drop_last();
        assert forall|i: int| 0 <= i < front.len() implies !blank(#[trigger] front[i]) by {
            assert(front[i] == text[i]);
        }
        a_text_without_white_space_is_a_word(front);
        assert(!blank(text[text.len() - 1]));
        if text.len() > 1 {
            assert(!blank(text[text.len() - 2]));
            assert(front.push(text.last()) =~= text);
            assert(runs(text) =~= seq![text]);
        } else {
            assert(seq![text.last()] =~= text);
            assert(runs(text) =~= seq![text]);
        }
    }
}

/// Trimming takes white space off both ends and nothing else.
pub proof fn trimming_takes_white_space_alone(text: Seq<char>) -> (at: (int, int))
    ensures
        0 <= at.0 <= at.1 <= text.len(),
        trimmed(text) == text.subrange(at.0, at.1),
        forall|i: int| 0 <= i < at.0 || at.1 <= i < text.len() ==> blank(#[trigger] text[i]),
        at.0 < at.1 ==> !blank(text[at.0]) && !blank(text[at.1 - 1]),
    decreases text.len(),
{
    if text.len() > 0 && blank(text.first()) {
        let rest = text.drop_first();
        let at = trimming_takes_white_space_alone(rest);
        assert(text.subrange(at.0 + 1, at.1 + 1) =~= rest.subrange(at.0, at.1));
        assert forall|i: int| 0 <= i < at.0 + 1 || at.1 + 1 <= i < text.len() implies blank(
            #[trigger] text[i],
        ) by {
            if i > 0 {
                assert(rest[i - 1] == text[i]);
            }
        }
        if at.0 < at.1 {
            assert(rest[at.0] == text[at.0 + 1] && rest[at.1 - 1] == text[at.1]);
        }
        (at.0 + 1, at.1 + 1)
    } else if text.len() > 0 && blank(text.last()) {
        let rest = text.drop_last();
        let at = trimming_takes_white_space_alone(rest);
        assert(text.subrange(at.0, at.1) =~= rest.subrange(at.0, at.1));
        assert forall|i: int| 0 <= i < at.0 || at.1 <= i < text.len() implies blank(
            #[trigger] text[i],
        ) by {
            if i < rest.len() {
                assert(rest[i] == text[i]);
            }
        }
        if at.0 < at.1 {
            assert(rest[at.0] == text[at.0] && rest[at.1 - 1] == text[at.1 - 1]);
        }
        at
    } else {
        assert(text.subrange(0, text.len() as int) =~= text);
        (0, text.len() as int)
    }
}

/// Where two texts first differ decides which comes first, whatever follows; and a text
/// comes before every longer one that begins with it.
pub proof fn the_first_difference_decides(
    common: Seq<char>,
    left: char,
    right: char,
    left_rest: Seq<char>,
    right_rest: Seq<char>,
)
    requires
        left != right,
    ensures
        precedes(common.push(left) + left_rest, common.push(right) + right_rest) <==> (left as int)
            < right as int,
        precedes(common, common.push(right) + right_rest),
    decreases common.len(),
{
    let (first, second) = (common.push(left) + left_rest, common.push(right) + right_rest);
    if common.len() > 0 {
        let fewer = common.drop_first();
        the_first_difference_decides(fewer, left, right, left_rest, right_rest);
        assert(first.drop_first() =~= fewer.push(left) + left_rest);
        assert(second.drop_first() =~= fewer.push(right) + right_rest);
    }
}

/// Tabs, line ends and spaces are white space, and nothing in ASCII that can be seen
/// is; beyond it are the spaces and separators Unicode knows.
pub proof fn white_space_cannot_be_seen(c: char, told: bool)
    requires
        call_ensures(is_blank, (c,), told),
    ensures
        c == ' ' || c == '\t' || c == '\n' || c == '\r' ==> told,
        33 <= c as int <= 126 ==> !told,
        (c as int) < 128 ==> (told <==> c as int == 32 || 9 <= c as int <= 13),
        c as int >= 128 ==> (told <==> set![
            133int, 160, 5760, 8192, 8193, 8194, 8195, 8196, 8197, 8198, 8199, 8200, 8201, 8202,
            8232, 8233, 8239, 8287, 12288
        ].contains(c as int)),
{
}

/// A text is read as a number up to the first character that is no figure of its base,
/// or to where it has grown too large, and is refused for that: for being empty where
/// it is, and for a plus that nothing follows.
pub proof fn what_is_no_number_is_refused(
    text: &str,
    radix: u32,
    most: u64,
    read: Result<u64, NumberFault>,
    front: Seq<char>,
    c: char,
    rest: Seq<char>,
)
    requires
        2 <= radix <= 36,
        call_ensures(read_number, (text, radix, most), read),
        !(48 <= c as int <= 57 && (c as int) - 48 < radix),
        !(65 <= c as int <= 90 && (c as int) - 55 < radix),
        !(97 <= c as int <= 122 && (c as int) - 87 < radix),
    ensures
        text@.len() == 0 ==> read == Err::<u64, NumberFault>(NumberFault::Empty),
        text@ == seq!['+'] ==> read == Err::<u64, NumberFault>(NumberFault::InvalidDigit),
        front.len() > 0 && number(front, radix as nat, most as nat) is Ok && text@ == front.push(c)
            + rest ==> read == Err::<u64, NumberFault>(NumberFault::InvalidDigit),
        c != '+' && text@ == seq![c] + rest ==> read == Err::<u64, NumberFault>(
            NumberFault::InvalidDigit,
        ),
        front.len() > 0 && number(front, radix as nat, most as nat)
            == Err::<nat, NumberFault>(NumberFault::Overflow) && text@ == front + rest ==> read
            == Err::<u64, NumberFault>(NumberFault::Overflow),
{
    let (radix, most) = (radix as nat, most as nat);
    if front.len() > 0 && number(front, radix, most) is Ok && text@ == front.push(c) + rest {
        assert(text@[0] == front[0]);
        if front[0] == '+' {
            lemma_spoilt(front.drop_first(), c, rest, radix, most);
            assert(text@.drop_first() =~= front.drop_first().push(c) + rest);
        } else {
            lemma_spoilt(front, c, rest, radix, most);
        }
    }
    if c != '+' && text@ == seq![c] + rest {
        lemma_spoilt(Seq::empty(), c, rest, radix, most);
        assert(text@ =~= Seq::<char>::empty().push(c) + rest);
    }
    if front.len() > 0 && number(front, radix, most) == Err::<nat, NumberFault>(
        NumberFault::Overflow,
    ) && text@ == front + rest {
        assert(text@[0] == front[0]);
        if front[0] == '+' {
            lemma_overflown(front.drop_first(), rest, radix, most);
            assert(text@.drop_first() =~= front.drop_first() + rest);
        } else {
            lemma_overflown(front, rest, radix, most);
        }
    }
}

proof fn lemma_spoilt(front: Seq<char>, c: char, rest: Seq<char>, radix: nat, most: nat)
    requires
        worth(front, radix, most) is Ok,
        digit(c, radix) is None,
    ensures
        worth(front.push(c) + rest, radix, most) == Err::<nat, NumberFault>(
            NumberFault::InvalidDigit,
        ),
    decreases rest.len(),
{
    let all = front.push(c) + rest;
    if rest.len() == 0 {
        assert(all =~= front.push(c));
        assert(all.drop_last() =~= front);
    } else {
        lemma_spoilt(front, c, rest.drop_last(), radix, most);
        assert(all.drop_last() =~= front.push(c) + rest.drop_last());
    }
}

proof fn lemma_overflown(front: Seq<char>, rest: Seq<char>, radix: nat, most: nat)
    requires
        worth(front, radix, most) == Err::<nat, NumberFault>(NumberFault::Overflow),
    ensures
        worth(front + rest, radix, most) == Err::<nat, NumberFault>(NumberFault::Overflow),
    decreases rest.len(),
{
    let all = front + rest;
    if rest.len() == 0 {
        assert(all =~= front);
    } else {
        lemma_overflown(front, rest.drop_last(), radix, most);
        assert(all.drop_last() =~= front + rest.drop_last());
    }
}

} // verus!
