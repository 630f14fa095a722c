//! The entry line format `- YYYY-MM-DD: body [×N]`, and the consolidation
//! policy that decides whether a new entry reaffirms, supersedes or is
//! appended next to the existing ones.
use vstd::prelude::*;
use crate::decimal::{decimal, decimal_chars, is_digit, parse_u32, parse_u32_spec};
use crate::text::{chars_of, copy_range, extend_chars, occurs_at, string_of};

verus! {

/// The character that marks a reaffirmation counter (U+00D7).
pub open spec fn times_sign() -> char {
    '\u{d7}'
}

/// `" [×"`, which opens a reaffirmation counter.
pub open spec fn counter_open() -> Seq<char> {
    seq![' ', '[', times_sign()]
}

pub open spec fn is_date_char(c: char) -> bool {
    is_digit(c) || c == '-'
}

/// The last index at or below `i` where `p` occurs in `s`.
pub open spec fn last_occurrence_from(s: Seq<char>, p: Seq<char>, i: int) -> Option<int>
    decreases i + 1,
{
    if i < 0 {
        None
    } else if occurs_at(s, p, i) {
        Some(i)
    } else {
        last_occurrence_from(s, p, i - 1)
    }
}

/// The index of the last occurrence of `p` in `s` (`str::rfind`).
pub open spec fn last_occurrence(s: Seq<char>, p: Seq<char>) -> Option<int> {
    last_occurrence_from(s, p, s.len() - p.len())
}

/// A body with its trailing ` [×N]` counter taken off, and the counter (1
/// when there is none or it does not read as a `u32`).
pub open spec fn split_counter(b: Seq<char>) -> (Seq<char>, u32) {
    if b.len() > 0 && b.last() == ']' {
        match last_occurrence(b, counter_open()) {
            Some(i) => match parse_u32_spec(b.subrange(i + 3, b.len() - 1)) {
                Some(n) => (b.take(i), n),
                None => (b, 1),
            },
            None => (b, 1),
        }
    } else {
        (b, 1)
    }
}

/// The `(date, body, count)` of an entry line `- YYYY-MM-DD: body`, where
/// the date field is ten digits or dashes.
pub open spec fn parse_entry(l: Seq<char>) -> Option<(Seq<char>, Seq<char>, u32)> {
    if l.len() >= 14 && l[0] == '-' && l[1] == ' ' && l[12] == ':' && l[13] == ' ' && (forall|
        i: int,
    |
        2 <= i < 12 ==> is_date_char(#[trigger] l[i])) {
        let (b, n) = split_counter(l.skip(14));
        Some((l.subrange(2, 12), b, n))
    } else {
        None
    }
}

/// `- date: body`, followed by ` [×count]` when `count` exceeds one.
pub open spec fn rendered(date: Seq<char>, body: Seq<char>, count: u32) -> Seq<char> {
    let base = seq!['-', ' '] + date + seq![':', ' '] + body;
    if count <= 1 {
        base
    } else {
        base + counter_open() + decimal(count as nat) + seq![']']
    }
}

proof fn lemma_last_occurrence_from(s: Seq<char>, p: Seq<char>, i: int, k: int)
    requires
        occurs_at(s, p, k),
        k <= i,
        forall|j: int| k < j <= i ==> !occurs_at(s, p, j),
    ensures
        last_occurrence_from(s, p, i) == Some(k),
    decreases i - k,
{
    if i > k {
        lemma_last_occurrence_from(s, p, i - 1, k);
    }
}

proof fn lemma_last_occurrence_found(s: Seq<char>, p: Seq<char>, i: int)
    requires
        last_occurrence_from(s, p, i) is Some,
    ensures
        occurs_at(s, p, last_occurrence_from(s, p, i).unwrap()),
    decreases i + 1,
{
    if i >= 0 && !occurs_at(s, p, i) {
        lemma_last_occurrence_found(s, p, i - 1);
    }
}

proof fn lemma_last_occurrence_none(s: Seq<char>, p: Seq<char>, i: int)
    requires
        forall|j: int| 0 <= j <= i ==> !occurs_at(s, p, j),
    ensures
        last_occurrence_from(s, p, i) is None,
    decreases i + 1,
{
    if i >= 0 {
        lemma_last_occurrence_none(s, p, i - 1);
    }
}

/// The last index where `p` occurs in `s`.
fn rfind(s: &[char], p: &[char]) -> (r: Option<usize>)
    ensures
        match r {
            Some(i) => last_occurrence(s@, p@) == Some(i as int),
            None => last_occurrence(s@, p@) is None,
        },
{
    if p.len() > s.len() {
        proof {
            lemma_last_occurrence_none(s@, p@, s@.len() - p@.len());
        }
        return None;
    }
    let top = s.len() - p.len();
    let mut i: usize = top;
    loop
        invariant
            top == s@.len() - p@.len(),
            i <= top,
            forall|j: int| i < j <= top ==> !occurs_at(s@, p@, j),
        decreases i,
    {
        if crate::text::matches_at(s, p, i) {
            proof {
                lemma_last_occurrence_from(s@, p@, top as int, i as int);
            }
            return Some(i);
        }
        if i == 0 {
            proof {
                lemma_last_occurrence_none(s@, p@, top as int);
            }
            return None;
        }
        i = i - 1;
    }
}

fn counter_open_chars() -> (r: Vec<char>)
    ensures
        r@ == counter_open(),
{
    let mut v: Vec<char> = Vec::new();
    v.push(' ');
    v.push('[');
    v.push('\u{d7}');
    assert(v@ =~= counter_open());
    v
}

/// Splits an entry line `- YYYY-MM-DD: text` into its date, its body without
/// a trailing ` [×N]` counter, and the counter (1 when absent).  Lines of any
/// other shape give `None`.
pub fn parse_line(line: &str) -> (r: Option<(String, String, u32)>)
    ensures
        match r {
            Some((d, b, n)) => parse_entry(line@) == Some((d@, b@, n)),
            None => parse_entry(line@) is None,
        },
{
    let cs = chars_of(line);
    let n = cs.len();
    if n < 14 || cs[0] != '-' || cs[1] != ' ' || cs[12] != ':' || cs[13] != ' ' {
        return None;
    }
    let mut i: usize = 2;
    while i < 12
        invariant
            2 <= i <= 12,
            n == cs@.len(),
            cs@ == line@,
            n >= 14,
            forall|k: int| 2 <= k < i ==> is_date_char(#[trigger] cs@[k]),
        decreases 12 - i,
    {
        let c = cs[i];
        if !((c >= '0' && c <= '9') || c == '-') {
            assert(!is_date_char(cs@[i as int]));
            return None;
        }
        i = i + 1;
    }
    let date = copy_range(cs.as_slice(), 2, 12);
    let body = copy_range(cs.as_slice(), 14, n);
    assert(body@ =~= cs@.skip(14));
    let (b, count) = split_counter_chars(body);
    Some((string_of(date.as_slice()), string_of(b.as_slice()), count))
}

fn split_counter_chars(b: Vec<char>) -> (r: (Vec<char>, u32))
    ensures
        (r.0@, r.1) == split_counter(b@),
{
    let n = b.len();
    if n == 0 || b[n - 1] != ']' {
        return (b, 1);
    }
    let pat = counter_open_chars();
    match rfind(b.as_slice(), pat.as_slice()) {
        Some(i) => {
            proof {
                lemma_last_occurrence_found(b@, pat@, b@.len() - pat@.len());
                assert(b@.subrange(i as int, i + 3)[2] == times_sign());
                assert(b@[i + 2] == times_sign());
            }
            let digits = copy_range(b.as_slice(), i + 3, n - 1);
            match parse_u32(digits.as_slice()) {
                Some(v) => {
                    let head = copy_range(b.as_slice(), 0, i);
                    assert(head@ =~= b@.take(i as int));
                    (head, v)
                },
                None => (b, 1),
            }
        },
        None => (b, 1),
    }
}

/// `- date: body`, with ` [×count]` appended when `count` exceeds one.
pub fn render_line(date: &str, body: &str, count: u32) -> (r: String)
    ensures
        r@ == rendered(date@, body@, count),
{
    let mut out: Vec<char> = Vec::new();
    out.push('-');
    out.push(' ');
    let dc = chars_of(date);
    extend_chars(&mut out, dc.as_slice());
    out.push(':');
    out.push(' ');
    let bc = chars_of(body);
    extend_chars(&mut out, bc.as_slice());
    if count > 1 {
        let open = counter_open_chars();
        extend_chars(&mut out, open.as_slice());
        let digits = decimal_chars(count as u64);
        extend_chars(&mut out, digits.as_slice());
        out.push(']');
    }
    let r = string_of(out.as_slice());
    assert(r@ =~= rendered(date@, body@, count));
    r
}

/// Rendering an entry and parsing it back gives the same date, body and
/// counter, for a ten-character date of digits and dashes and a counter of at
/// least one (a counter of one being written only for a body that does not
/// itself end in a counter).
pub proof fn lemma_render_parse_roundtrip(date: Seq<char>, body: Seq<char>, count: u32)
    requires
        date.len() == 10,
        forall|i: int| 0 <= i < 10 ==> is_date_char(#[trigger] date[i]),
        count >= 1,
        count == 1 ==> split_counter(body) == (body, 1u32),
    ensures
        parse_entry(rendered(date, body, count)) == Some((date, body, count)),
{
    let l = rendered(date, body, count);
    let base = seq!['-', ' '] + date + seq![':', ' '] + body;
    assert forall|i: int| 2 <= i < 12 implies is_date_char(#[trigger] l[i]) by {
        assert(l[i] == date[i - 2]);
    }
    assert(l.subrange(2, 12) =~= date);
    if count == 1 {
        assert(l.skip(14) =~= body);
    } else {
        crate::decimal::lemma_decimal_digits(count as nat);
        crate::decimal::lemma_unsigned_value_of_decimal(count as nat);
        let dg = decimal(count as nat);
        let t = l.skip(14);
        assert(t =~= body + counter_open() + dg + seq![']']);
        let k = body.len() as int;
        assert(occurs_at(t, counter_open(), k)) by {
            assert(t.subrange(k, k + 3) =~= counter_open());
        }
        assert forall|j: int| k < j <= t.len() - 3 implies !occurs_at(t, counter_open(), j) by {
            if occurs_at(t, counter_open(), j) {
                assert(t.subrange(j, j + 3)[0] == t[j]);
                assert(t[j] == ' ');
                if j == k + 1 {
                    assert(t[j] == '[');
                } else if j == k + 2 {
                    assert(t[j] == times_sign());
                } else {
                    assert(j - k - 3 < dg.len());
                    assert(t[j] == dg[j - k - 3]);
                    assert(is_digit(dg[j - k - 3]));
                }
            }
        }
        lemma_last_occurrence_from(t, counter_open(), t.len() - 3, k);
        assert(t.subrange(k + 3, t.len() - 1) =~= dg);
        assert(t.take(k) =~= body);
        assert(t.last() == ']');
    }
}

/// The age in days, as of day number `today`, of an entry dated `date`: 0
/// when the date is not a valid `YYYY-MM-DD` date or lies after `today`.
pub open spec fn age_of(date: Seq<char>, today: u64) -> u64 {
    match crate::calendar::day_of_text(date) {
        Some(day) => if day <= today {
            (today - day) as u64
        } else {
            0
        },
        None => 0,
    }
}

/// The age of an entry dated on a valid date (up to year 9999) is the number
/// of days from that date to `today`, and 0 for a date after `today`: a
/// `day_number(..)` days after 1970-01-01 entry is `today - day_number(..)`
/// days old, however far back it lies.
pub proof fn lemma_age_is_day_difference(y: nat, m: nat, d: nat, today: u64)
    requires
        crate::calendar::is_valid_date(y as int, m as int, d as int),
        y <= 9999,
    ensures
        crate::calendar::day_number(y as int, m as int, d as int) <= today ==> age_of(
            crate::calendar::date_text(y, m, d),
            today,
        ) == today - crate::calendar::day_number(y as int, m as int, d as int),
        crate::calendar::day_number(y as int, m as int, d as int) > today ==> age_of(
            crate::calendar::date_text(y, m, d),
            today,
        ) == 0,
{
    crate::calendar::lemma_date_text_roundtrip(y, m, d);
}

/// What search ranking weighs an entry line by: its age in days as of day
/// number `today`, and its reaffirmation counter.  `None` for a line that is
/// not an entry line.
pub fn age_and_count(line: &str, today: u64) -> (r: Option<(u64, u32)>)
    ensures
        match r {
            Some((age, n)) => parse_entry(line@) matches Some((d, _, c)) && n == c && age == age_of(
                d,
                today,
            ),
            None => parse_entry(line@) is None,
        },
{
    match parse_line(line) {
        Some((date, _, count)) => {
            let age = match crate::calendar::day_of_date(date.as_str()) {
                Some(day) => if day <= today {
                    today - day
                } else {
                    0
                },
                None => 0,
            };
            Some((age, count))
        },
        None => None,
    }
}

// ---------------------------------------------------------------------------
// Consolidation
// ---------------------------------------------------------------------------

/// What writing an entry did to its topic.
#[derive(Debug)]
pub enum Outcome {
    /// The entry was added as a new line.
    Appended,
    /// An existing line restating the entry got today's date and a higher
    /// counter; no line was added.
    Reaffirmed { old: String, new: String, count: u32 },
    /// An existing line was replaced by the new entry.
    Superseded { old: String, new: String },
}

/// How close the most similar existing entry is to a new one.
#[derive(Debug, Clone, Copy, PartialEq, Eq, Structural)]
pub enum Closeness {
    /// Close enough to count as the same memory said again.
    Restates,
    /// Close enough to count as a revision of it.
    Refines,
    /// Not close.
    Unrelated,
}

/// `- date: entry`.
pub open spec fn entry_text(date: Seq<char>, entry: Seq<char>) -> Seq<char> {
    seq!['-', ' '] + date + seq![':', ' '] + entry
}

/// An [`Outcome`] by the characters of its lines.
pub enum OutcomeView {
    Appended,
    Reaffirmed { old: Seq<char>, new: Seq<char>, count: u32 },
    Superseded { old: Seq<char>, new: Seq<char> },
}

impl View for Outcome {
    type V = OutcomeView;

    open spec fn view(&self) -> OutcomeView {
        match self {
            Outcome::Appended => OutcomeView::Appended,
            Outcome::Reaffirmed { old, new, count } => OutcomeView::Reaffirmed {
                old: old@,
                new: new@,
                count: *count,
            },
            Outcome::Superseded { old, new } => OutcomeView::Superseded { old: old@, new: new@ },
        }
    }
}

/// The outcome of writing `new_entry` on `today`, given the most similar
/// existing entry line and how close it is.
pub open spec fn decision(
    today: Seq<char>,
    new_entry: Seq<char>,
    best: Option<(Seq<char>, Closeness)>,
) -> OutcomeView {
    match best {
        Some((old, Closeness::Restates)) if parse_entry(old) is Some => {
            let (_, body, count) = parse_entry(old).unwrap();
            OutcomeView::Reaffirmed {
                old,
                new: rendered(today, body, (count + 1) as u32),
                count: (count + 1) as u32,
            }
        },
        Some((old, Closeness::Restates)) => OutcomeView::Superseded {
            old,
            new: entry_text(today, new_entry),
        },
        Some((old, Closeness::Refines)) => OutcomeView::Superseded {
            old,
            new: entry_text(today, new_entry),
        },
        _ => OutcomeView::Appended,
    }
}

/// The most similar line, by its characters.
pub open spec fn best_view(best: Option<(String, Closeness)>) -> Option<(Seq<char>, Closeness)> {
    match best {
        Some((l, c)) => Some((l@, c)),
        None => None,
    }
}

/// `- date: entry`, the line written for a new entry.
pub fn entry_line(date: &str, entry: &str) -> (r: String)
    ensures
        r@ == entry_text(date@, entry@),
{
    let mut out: Vec<char> = Vec::new();
    out.push('-');
    out.push(' ');
    let dc = chars_of(date);
    extend_chars(&mut out, dc.as_slice());
    out.push(':');
    out.push(' ');
    let ec = chars_of(entry);
    extend_chars(&mut out, ec.as_slice());
    let r = string_of(out.as_slice());
    assert(r@ =~= entry_text(date@, entry@));
    r
}

/// Decides what writing `new_entry` on `today` does, given the existing
/// entry line most similar to it (if any) and how close that is:
/// a restated entry is reaffirmed (date bumped to `today`, counter
/// incremented), a refined one is superseded by the new line, anything else
/// is appended.
pub fn decide(today: &str, new_entry: &str, best: Option<(String, Closeness)>) -> (r: Outcome)
    requires
        best matches Some((old, Closeness::Restates)) ==> (parse_entry(old@) matches Some(
            (_, _, n),
        ) ==> n < u32::MAX),
    ensures
        r@ == decision(today@, new_entry@, best_view(best)),
{
    match best {
        Some((old, closeness)) => {
            if closeness == Closeness::Restates {
                match parse_line(old.as_str()) {
                    Some((_, body, count)) => {
                        let new_count = count + 1;
                        let updated = render_line(today, body.as_str(), new_count);
                        return Outcome::Reaffirmed { old, new: updated, count: new_count };
                    },
                    None => {},
                }
            }
            if closeness == Closeness::Restates || closeness == Closeness::Refines {
                let new_line = entry_line(today, new_entry);
                return Outcome::Superseded { old, new: new_line };
            }
            Outcome::Appended
        },
        None => Outcome::Appended,
    }
}

/// The record appended to the audit log when an entry is reaffirmed or
/// superseded: `## date [topic] kind`, then the old and new lines, then a
/// blank line.
pub open spec fn tombstone_text(
    date: Seq<char>,
    topic: Seq<char>,
    kind: Seq<char>,
    old: Seq<char>,
    new: Seq<char>,
) -> Seq<char> {
    seq!['#', '#', ' '] + date + seq![' ', '['] + topic + seq![']', ' '] + kind + seq!['\n']
        + seq!['o', 'l', 'd', ':', ' '] + old + seq!['\n'] + seq!['n', 'e', 'w', ':', ' '] + new
        + seq!['\n', '\n']
}

/// The audit record for a reaffirmed or superseded entry.
pub fn tombstone_record(date: &str, topic: &str, kind: &str, old: &str, new: &str) -> (r: String)
    ensures
        r@ == tombstone_text(date@, topic@, kind@, old@, new@),
{
    let mut out: Vec<char> = Vec::new();
    out.push('#');
    out.push('#');
    out.push(' ');
    extend_chars(&mut out, chars_of(date).as_slice());
    out.push(' ');
    out.push('[');
    extend_chars(&mut out, chars_of(topic).as_slice());
    out.push(']');
    out.push(' ');
    extend_chars(&mut out, chars_of(kind).as_slice());
    out.push('\n');
    out.push('o');
    out.push('l');
    out.push('d');
    out.push(':');
    out.push(' ');
    extend_chars(&mut out, chars_of(old).as_slice());
    out.push('\n');
    out.push('n');
    out.push('e');
    out.push('w');
    out.push(':');
    out.push(' ');
    extend_chars(&mut out, chars_of(new).as_slice());
    out.push('\n');
    out.push('\n');
    let r = string_of(out.as_slice());
    assert(r@ =~= tombstone_text(date@, topic@, kind@, old@, new@));
    r
}

/// Reaffirming bumps the date and the counter: when the existing line reads
/// as `(date, body, n)` with `n >= 1`, the line that replaces it reads as
/// `(today, body, n + 1)` — for a ten-character date of digits and dashes.
pub proof fn lemma_reaffirm_counts_up(today: Seq<char>, new_entry: Seq<char>, old: Seq<char>)
    requires
        today.len() == 10,
        forall|i: int| 0 <= i < 10 ==> is_date_char(#[trigger] today[i]),
        parse_entry(old) matches Some((_, _, n)) && 1 <= n < u32::MAX,
    ensures
        decision(today, new_entry, Some((old, Closeness::Restates))) matches OutcomeView::Reaffirmed {
            old: o,
            new: l,
            count: c,
        } && o == old && c == parse_entry(old).unwrap().2 + 1 && parse_entry(l) == Some(
            (today, parse_entry(old).unwrap().1, c),
        ),
{
    let (_, body, n) = parse_entry(old).unwrap();
    lemma_render_parse_roundtrip(today, body, (n + 1) as u32);
}

} // verus!
