//! Text: numbers as digits, and the readable form of range maps.
use crate::entry::{decoded, is_entry, is_map, unpack_range};
use std::borrow::Cow;
use vstd::prelude::*;

verus! {

/// The digit `d`, in lower case from ten on.
pub open spec fn digit(d: nat) -> char {
    if d < 10 {
        ('0' as int + d) as char
    } else {
        ('a' as int + (d - 10)) as char
    }
}

/// A number in decimal, without leading zeros.
pub open spec fn decimal(n: nat) -> Seq<char>
    decreases n,
{
    if n < 10 {
        seq![digit(n)]
    } else {
        decimal(n / 10).push(digit(n % 10))
    }
}

/// A number in decimal, right-aligned in two columns.
pub open spec fn decimal_in_two(n: nat) -> Seq<char> {
    if n < 10 {
        seq![' '] + decimal(n)
    } else {
        decimal(n)
    }
}

/// A byte in hexadecimal, with its prefix and both digits.
pub open spec fn hex_byte(b: u8) -> Seq<char> {
    seq!['0', 'x', digit((b / 16) as nat), digit((b % 16) as nat)]
}

/// An interval of buckets.
pub open spec fn interval(lo: u8, hi: u8) -> Seq<char> {
    decimal(lo as nat) + "..="@ + decimal(hi as nat)
}

/// Decoded ranges, separated by commas, each with its index.
pub open spec fn listed(ranges: Seq<(usize, u8, u8)>) -> Seq<char>
    decreases ranges.len(),
{
    if ranges.len() == 0 {
        Seq::empty()
    } else {
        let (idx, lo, hi) = ranges.last();
        listed(ranges.drop_last()) + (if ranges.len() > 1 {
            ","@
        } else {
            Seq::empty()
        }) + " "@ + decimal(idx as nat) + ": "@ + interval(lo, hi)
    }
}

/// The readable form of an observer with that name, already in quotes, and those ranges.
pub open spec fn observer_text(quoted_name: Seq<char>, ranges: Seq<(usize, u8, u8)>) -> Seq<char> {
    "InputRangeMapObserver { name: "@ + quoted_name + ", ranges: {"@ + listed(ranges) + " } }"@
}

/// The line of a report that shows one entry.
pub open spec fn entry_line(idx: nat, entry: u8) -> Seq<char> {
    "  edge "@ + decimal_in_two(idx) + match decoded(entry) {
        None => ": -"@,
        Some((lo, hi)) => ": buckets "@ + interval(lo, hi) + " ("@ + hex_byte(entry) + ")"@,
    }
}

/// A text in double quotes, its special characters escaped, as `{:?}` prints it.
pub uninterp spec fn quoted(text: Seq<char>) -> Seq<char>;

/// Quote a text with the `Debug` formatting of [`str`], by `format!` with `{:?}`. Claimed of it:
/// what it prints depends on the characters of the text alone. Which characters it escapes, and
/// how, is left to the standard library.
#[verifier::external_body]
pub(crate) fn quote(text: &Cow<'static, str>) -> (r: String)
    ensures
        r@ == quoted(text@),
{
    format!("{:?}", text)
}

fn digit_text(d: u8) -> (text: &'static str)
    requires
        d < 16,
    ensures
        text@ == seq![digit(d as nat)],
{
    proof {
        reveal_strlit("0");
        reveal_strlit("1");
        reveal_strlit("2");
        reveal_strlit("3");
        reveal_strlit("4");
        reveal_strlit("5");
        reveal_strlit("6");
        reveal_strlit("7");
        reveal_strlit("8");
        reveal_strlit("9");
        reveal_strlit("a");
        reveal_strlit("b");
        reveal_strlit("c");
        reveal_strlit("d");
        reveal_strlit("e");
        reveal_strlit("f");
    }
    match d {
        0 => "0",
        1 => "1",
        2 => "2",
        3 => "3",
        4 => "4",
        5 => "5",
        6 => "6",
        7 => "7",
        8 => "8",
        9 => "9",
        10 => "a",
        11 => "b",
        12 => "c",
        13 => "d",
        14 => "e",
        _ => "f",
    }
}

fn push_decimal(text: &mut String, n: usize)
    ensures
        final(text)@ == old(text)@ + decimal(n as nat),
    decreases n,
{
    if n >= 10 {
        push_decimal(text, n / 10);
    }
    text.append(digit_text((n % 10) as u8));
    assert(text@ =~= old(text)@ + decimal(n as nat));
}

fn push_interval(text: &mut String, lo: u8, hi: u8)
    ensures
        final(text)@ == old(text)@ + interval(lo, hi),
{
    push_decimal(text, lo as usize);
    text.append("..=");
    push_decimal(text, hi as usize);
    assert(text@ =~= old(text)@ + interval(lo, hi));
}

/// The readable form of an observer: its name, given in quotes, and its decoded ranges.
pub fn format_observer(quoted_name: &str, ranges: &Vec<(usize, u8, u8)>) -> (text: String)
    ensures
        text@ == observer_text(quoted_name@, ranges@),
{
    let mut text: String = String::new();
    text.append("InputRangeMapObserver { name: ");
    text.append(quoted_name);
    text.append(", ranges: {");
    let ghost head = text@;
    let mut i: usize = 0;
    while i < ranges.len()
        invariant
            i <= ranges@.len(),
            text@ =~= head + listed(ranges@.take(i as int)),
        decreases ranges@.len() - i,
    {
        let (idx, lo, hi) = ranges[i];
        assert(ranges@.take(i + 1).drop_last() =~= ranges@.take(i as int));
        if i > 0 {
            text.append(",");
        }
        text.append(" ");
        push_decimal(&mut text, idx);
        text.append(": ");
        push_interval(&mut text, lo, hi);
        i = i + 1;
    }
    assert(ranges@.take(ranges@.len() as int) =~= ranges@);
    text.append(" } }");
    assert(text@ =~= observer_text(quoted_name@, ranges@));
    text
}

fn format_entry(idx: usize, entry: u8) -> (line: String)
    requires
        is_entry(entry),
    ensures
        line@ == entry_line(idx as nat, entry),
{
    proof {
        reveal_strlit(" ");
        reveal_strlit("0x");
    }
    let mut line: String = String::new();
    line.append("  edge ");
    if idx < 10 {
        line.append(" ");
    }
    push_decimal(&mut line, idx);
    assert(line@ =~= "  edge "@ + decimal_in_two(idx as nat));
    let ghost head = line@;
    match unpack_range(entry) {
        None => {
            line.append(": -");
        },
        Some((lo, hi)) => {
            line.append(": buckets ");
            push_interval(&mut line, lo, hi);
            line.append(" (");
            line.append("0x");
            line.append(digit_text(entry / 16));
            line.append(digit_text(entry % 16));
            line.append(")");
            assert(line@ =~= head + (": buckets "@ + interval(lo, hi) + " ("@ + hex_byte(entry)
                + ")"@));
        },
    }
    line
}

/// The lines of a report on a map: the label, then one line for each entry.
pub fn range_report(label: &str, map: &[u8]) -> (lines: Vec<String>)
    requires
        is_map(map@),
    ensures
        lines@.len() == map@.len() + 1,
        lines@[0]@ == label@ + ":"@,
        forall|i: int|
            1 <= i <= map@.len() ==> (#[trigger] lines@[i])@ == entry_line(
                (i - 1) as nat,
                map@[i - 1],
            ),
{
    let mut heading: String = String::new();
    heading.append(label);
    heading.append(":");
    assert(heading@ =~= label@ + ":"@);
    let mut lines: Vec<String> = Vec::new();
    lines.push(heading);
    let mut idx: usize = 0;
    while idx < map.len()
        invariant
            idx <= map@.len(),
            is_map(map@),
            lines@.len() == idx + 1,
            lines@[0]@ == label@ + ":"@,
            forall|i: int|
                1 <= i <= idx ==> (#[trigger] lines@[i])@ == entry_line(
                    (i - 1) as nat,
                    map@[i - 1],
                ),
        decreases map@.len() - idx,
    {
        lines.push(format_entry(idx, map[idx]));
        idx = idx + 1;
    }
    lines
}

/// The number that a text of decimal digits denotes.
pub open spec fn number(text: Seq<char>) -> int
    decreases text.len(),
{
    if text.len() == 0 {
        0
    } else {
        10 * number(text.drop_last()) + (text.last() as int - 48)
    }
}

/// A digit is the character that stands for its value: `0` to `9`, then `a` to `f`.
pub proof fn law_digit_is_its_character(d: nat)
    requires
        d < 16,
    ensures
        d < 10 ==> digit(d) as int == 48 + d,
        d >= 10 ==> digit(d) as int == 87 + d,
{
}

/// A number in decimal reads back as that number, in digits only and with no zero in front of
/// other digits. Only one text does.
pub proof fn law_decimal_reads_back(n: nat)
    ensures
        decimal(n).len() > 0,
        forall|i: int| 0 <= i < decimal(n).len() ==> 48 <= #[trigger] decimal(n)[i] as int <= 57,
        number(decimal(n)) == n,
        decimal(n).len() > 1 ==> decimal(n)[0] as int != 48,
    decreases n,
{
    if n < 10 {
        assert(decimal(n).drop_last() =~= Seq::<char>::empty());
        assert(number(decimal(n).drop_last()) == 0);
    } else {
        law_decimal_reads_back(n / 10);
        let front = decimal(n / 10);
        assert(decimal(n).drop_last() =~= front);
        assert(decimal(n)[0] == front[0]);
        if front.len() == 1 {
            assert(front.drop_last() =~= Seq::<char>::empty());
            assert(number(front.drop_last()) == 0);
            assert(number(front) == front.last() as int - 48);
        }
        assert forall|i: int| 0 <= i < decimal(n).len() implies 48 <= #[trigger] decimal(n)[i] as int
            <= 57 by {
            if i < front.len() {
                assert(decimal(n)[i] == front[i]);
            }
        }
    }
}

/// An index takes at least two columns: below ten a blank stands before its digit.
pub proof fn law_index_is_right_aligned(n: nat)
    ensures
        decimal_in_two(n).len() >= 2,
        n < 10 ==> decimal_in_two(n) == seq![' '] + decimal(n),
        n >= 10 ==> decimal_in_two(n) == decimal(n),
{
    if n >= 10 {
        law_decimal_reads_back(n / 10);
    }
}

/// A byte in hexadecimal shows its upper nibble, then its lower one, behind `0x`.
pub proof fn law_hex_shows_both_nibbles(b: u8)
    ensures
        hex_byte(b).len() == 4,
        hex_byte(b)[0] == '0',
        hex_byte(b)[1] == 'x',
        hex_byte(b)[2] as int == (b as int / 16) + if b as int / 16 < 10 { 48int } else { 87 },
        hex_byte(b)[3] as int == (b as int % 16) + if b as int % 16 < 10 { 48int } else { 87 },
{
}

/// The line of an entry at which nothing was observed shows a dash behind the index; that of any
/// other shows the remainder by 16 and the quotient in decimal around `..=`, then the byte itself.
pub proof fn law_line_shows_the_entry(idx: nat, entry: u8)
    ensures
        entry == 15 ==> entry_line(idx, entry) == "  edge "@ + decimal_in_two(idx) + ": -"@,
        entry != 15 ==> entry_line(idx, entry) == "  edge "@ + decimal_in_two(idx) + ": buckets "@
            + decimal((entry as int % 16) as nat) + "..="@ + decimal((entry as int / 16) as nat)
            + " ("@ + hex_byte(entry) + ")"@,
{
    if entry != 15 {
        assert(entry_line(idx, entry) =~= "  edge "@ + decimal_in_two(idx) + ": buckets "@ + decimal(
            (entry as int % 16) as nat,
        ) + "..="@ + decimal((entry as int / 16) as nat) + " ("@ + hex_byte(entry) + ")"@);
    }
}

/// The line of an entry ends in a dash exactly if nothing was observed there, degenerate ranges
/// not excepted.
pub proof fn law_dash_means_empty(idx: nat, entry: u8)
    ensures
        entry_line(idx, entry).len() > 3,
        entry == 15 <==> entry_line(idx, entry).skip(entry_line(idx, entry).len() - 3) == seq![
            ':',
            ' ',
            '-',
        ],
{
    reveal_strlit("  edge ");
    reveal_strlit(": -");
    reveal_strlit(")");
    law_line_shows_the_entry(idx, entry);
    law_index_is_right_aligned(idx);
    let line = entry_line(idx, entry);
    let tail = line.skip(line.len() - 3);
    if entry == 15 {
        assert(tail =~= seq![':', ' ', '-']);
    } else {
        assert(tail[2] == ')');
        assert(seq![':', ' ', '-'][2] == '-');
    }
}

/// No two lines read the same: neither for different entries at one edge nor for different edges.
pub proof fn law_lines_tell_entries_apart(i: nat, a: u8, j: nat, b: u8)
    requires
        entry_line(i, a) == entry_line(j, b),
    ensures
        i == j,
        a == b,
{
    reveal_strlit("  edge ");
    reveal_strlit(": -");
    reveal_strlit(": buckets ");
    reveal_strlit(" (");
    reveal_strlit(")");
    law_dash_means_empty(i, a);
    law_dash_means_empty(j, b);
    law_line_shows_the_entry(i, a);
    law_line_shows_the_entry(j, b);
    let line = entry_line(i, a);
    let n = line.len();
    if a != 15 {
        assert(line[n - 3] == hex_byte(a)[2] && line[n - 2] == hex_byte(a)[3]);
        assert(line[n - 3] == hex_byte(b)[2] && line[n - 2] == hex_byte(b)[3]);
        law_hex_shows_both_nibbles(a);
        law_hex_shows_both_nibbles(b);
        assert(a as int / 16 == b as int / 16);
        assert(a as int % 16 == b as int % 16);
    }
    let v = decimal_in_two(i);
    let w = decimal_in_two(j);
    lemma_no_colon(i);
    lemma_no_colon(j);
    assert(entry_line(i, a)[7 + v.len() as int] == ':');
    assert(entry_line(j, b)[7 + w.len() as int] == ':');
    if v.len() < w.len() {
        assert(entry_line(j, b)[7 + v.len() as int] == w[v.len() as int]);
    }
    if w.len() < v.len() {
        assert(entry_line(i, a)[7 + w.len() as int] == v[w.len() as int]);
    }
    assert forall|k: int| 0 <= k < v.len() implies v[k] == w[k] by {
        assert(entry_line(i, a)[7 + k] == v[k]);
        assert(entry_line(j, b)[7 + k] == w[k]);
    }
    assert(v =~= w);
    law_decimal_reads_back(i);
    law_decimal_reads_back(j);
    if i < 10 && j < 10 {
        assert(v[1] == digit(i) && w[1] == digit(j));
    } else if i < 10 {
        assert(v[0] == ' ' && w[0] == decimal(j)[0]);
    } else if j < 10 {
        assert(w[0] == ' ' && v[0] == decimal(i)[0]);
    }
}

proof fn lemma_no_colon(n: nat)
    ensures
        forall|k: int| 0 <= k < decimal_in_two(n).len() ==> #[trigger] decimal_in_two(n)[k] != ':',
{
    law_decimal_reads_back(n);
    assert forall|k: int| 0 <= k < decimal_in_two(n).len() implies #[trigger] decimal_in_two(n)[k]
        != ':' by {
        if n < 10 {
            if k > 0 {
                assert(decimal_in_two(n)[k] == decimal(n)[k - 1]);
            }
        } else {
            assert(decimal_in_two(n)[k] == decimal(n)[k]);
        }
    }
}

/// Listing one range more adds, behind a comma where others stand before it, a blank, the index,
/// a colon and the lowest and the highest bucket around `..=`. Nothing listed is no text.
pub proof fn law_listing_grows(ranges: Seq<(usize, u8, u8)>, idx: usize, lo: u8, hi: u8)
    ensures
        listed(Seq::empty()) == Seq::<char>::empty(),
        listed(ranges.push((idx, lo, hi))) == listed(ranges) + (if ranges.len() > 0 {
            ", "@
        } else {
            " "@
        }) + decimal(idx as nat) + ": "@ + decimal(lo as nat) + "..="@ + decimal(hi as nat),
{
    reveal_strlit(", ");
    reveal_strlit(",");
    reveal_strlit(" ");
    assert(ranges.push((idx, lo, hi)).drop_last() =~= ranges);
    assert(", "@ =~= ","@ + " "@);
    assert(listed(ranges.push((idx, lo, hi))) =~= listed(ranges) + (if ranges.len() > 0 {
        ", "@
    } else {
        " "@
    }) + decimal(idx as nat) + ": "@ + decimal(lo as nat) + "..="@ + decimal(hi as nat));
}

/// The readable form of an observer is the name and the listing in their frame; with the same
/// name, it is the same only for the same listing.
pub proof fn law_observer_text_frames_the_listing(
    name: Seq<char>,
    a: Seq<(usize, u8, u8)>,
    b: Seq<(usize, u8, u8)>,
)
    ensures
        observer_text(name, a) == "InputRangeMapObserver { name: "@ + name + ", ranges: {"@ + listed(
            a,
        ) + " } }"@,
        observer_text(name, a) == observer_text(name, b) ==> listed(a) == listed(b),
{
    let front = "InputRangeMapObserver { name: "@ + name + ", ranges: {"@;
    let end = " } }"@;
    let x = observer_text(name, a);
    let y = observer_text(name, b);
    if x == y {
        assert(x =~= front + listed(a) + end);
        assert(y =~= front + listed(b) + end);
        assert(listed(a) =~= x.subrange(front.len() as int, x.len() - end.len()));
        assert(listed(b) =~= y.subrange(front.len() as int, y.len() - end.len()));
    }
}

} // verus!
