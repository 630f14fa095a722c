//! Topic files: one markdown file per topic, a `# topic` header, then one
//! `- YYYY-MM-DD: text` line per entry.  This module computes what is written
//! to and read from those files; opening and writing them is left to the
//! caller.
use vstd::prelude::*;
use crate::text::{
    all_ascii, alnum, ascii_lower, ascii_lower_char, is_ascii_char, is_ascii_upper, chars_of, contains, contains_seq, copy_range, extend_chars, has_prefix, is_alphanumeric,
    lines, split_lines, starts_with, string_of, to_lowercase, unicode_lowercase, unicode_whitespace,
};

verus! {

// ---------------------------------------------------------------------------
// Topic names
// ---------------------------------------------------------------------------

/// A character of a topic name: kept when alphanumeric or a dash, otherwise
/// replaced by a dash.
pub open spec fn topic_char(c: char) -> char {
    if alnum(c) || c == '-' {
        c
    } else {
        '-'
    }
}

pub open spec fn strip_leading_dashes(s: Seq<char>) -> Seq<char>
    decreases s.len(),
{
    if s.len() > 0 && s[0] == '-' {
        strip_leading_dashes(s.drop_first())
    } else {
        s
    }
}

pub open spec fn strip_trailing_dashes(s: Seq<char>) -> Seq<char>
    decreases s.len(),
{
    if s.len() > 0 && s.last() == '-' {
        strip_trailing_dashes(s.drop_last())
    } else {
        s
    }
}

/// The topic name made from an already lowercased name: every character that
/// is neither alphanumeric nor a dash becomes a dash, then dashes at either
/// end are trimmed.
pub open spec fn topic_from_lowered(s: Seq<char>) -> Seq<char> {
    strip_trailing_dashes(strip_leading_dashes(s.map_values(|c: char| topic_char(c))))
}

proof fn lemma_strip_leading(s: Seq<char>, k: int)
    requires
        0 <= k <= s.len(),
        forall|j: int| 0 <= j < k ==> s[j] == '-',
        k < s.len() ==> s[k] != '-',
    ensures
        strip_leading_dashes(s) == s.skip(k),
    decreases k,
{
    if k == 0 {
        assert(s.skip(0) =~= s);
    } else {
        assert forall|j: int| 0 <= j < k - 1 implies s.drop_first()[j] == '-' by {
            assert(s.drop_first()[j] == s[j + 1]);
        }
        lemma_strip_leading(s.drop_first(), k - 1);
        assert(s.drop_first().skip(k - 1) =~= s.skip(k));
    }
}

proof fn lemma_strip_trailing(s: Seq<char>, k: int)
    requires
        0 <= k <= s.len(),
        forall|j: int| k <= j < s.len() ==> s[j] == '-',
        k > 0 ==> s[k - 1] != '-',
    ensures
        strip_trailing_dashes(s) == s.take(k),
    decreases s.len() - k,
{
    if k == s.len() {
        assert(s.take(k) =~= s);
    } else {
        lemma_strip_trailing(s.drop_last(), k);
        assert(s.drop_last().take(k) =~= s.take(k));
    }
}

/// The topic name made from an already lowercased name (see
/// [`normalize_topic`]).
pub fn normalize_lowered(lowered: &str) -> (r: String)
    ensures
        r@ == topic_from_lowered(lowered@),
        r@.len() > 0 ==> r@[0] != '-' && r@.last() != '-',
        forall|i: int| 0 <= i < r@.len() ==> (#[trigger] r@[i] == '-' || (alnum(r@[i])
            && !unicode_whitespace(r@[i]))),
        (forall|j: int| 0 <= j < lowered@.len() ==> !is_ascii_upper(#[trigger] lowered@[j]))
            ==> forall|i: int| 0 <= i < r@.len() ==> !is_ascii_upper(#[trigger] r@[i]),
{
    let cs = chars_of(lowered);
    let ghost mapped = lowered@.map_values(|c: char| topic_char(c));
    let mut m: Vec<char> = Vec::new();
    let mut i: usize = 0;
    while i < cs.len()
        invariant
            0 <= i <= cs@.len(),
            cs@ == lowered@,
            m@ == mapped.take(i as int),
            mapped == lowered@.map_values(|c: char| topic_char(c)),
            forall|j: int| 0 <= j < i ==> (#[trigger] mapped[j] == '-' || !unicode_whitespace(
                mapped[j],
            )),
        decreases cs@.len() - i,
    {
        let c = cs[i];
        if is_alphanumeric(c) || c == '-' {
            m.push(c);
        } else {
            m.push('-');
        }
        i = i + 1;
        assert(m@ =~= mapped.take(i as int));
    }
    assert(m@ =~= mapped);
    let n = m.len();
    let mut a: usize = 0;
    while a < n && m[a] == '-'
        invariant
            0 <= a <= n,
            n == m@.len(),
            forall|j: int| 0 <= j < a ==> m@[j] == '-',
        decreases n - a,
    {
        a = a + 1;
    }
    proof {
        lemma_strip_leading(m@, a as int);
    }
    let mut b: usize = n;
    while b > a && m[b - 1] == '-'
        invariant
            a <= b <= n,
            n == m@.len(),
            forall|j: int| b <= j < n ==> m@[j] == '-',
        decreases b,
    {
        b = b - 1;
    }
    let ghost lead = m@.skip(a as int);
    proof {
        assert forall|j: int| b - a <= j < lead.len() implies lead[j] == '-' by {
            assert(lead[j] == m@[a + j]);
        }
        if b > a {
            assert(lead[b - a - 1] == m@[b - 1]);
        }
        lemma_strip_trailing(lead, b - a);
        assert(lead.take(b - a) =~= m@.subrange(a as int, b as int));
    }
    let out = copy_range(m.as_slice(), a, b);
    let r = string_of(out.as_slice());
    proof {
        assert forall|i: int| 0 <= i < r@.len() implies (#[trigger] r@[i] == '-' || (alnum(r@[i])
            && !unicode_whitespace(r@[i]))) by {
            assert(r@[i] == mapped[a + i]);
        }
        if forall|j: int| 0 <= j < lowered@.len() ==> !is_ascii_upper(#[trigger] lowered@[j]) {
            assert forall|i: int| 0 <= i < r@.len() implies !is_ascii_upper(#[trigger] r@[i]) by {
                assert(r@[i] == mapped[a + i]);
                assert(mapped[a + i] == topic_char(lowered@[a + i]));
            }
        }
        if r@.len() > 0 {
            assert(r@[0] == m@[a as int]);
            assert(r@.last() == m@[b - 1]);
        }
    }
    r
}

/// Turns a name into a topic name: lowercased, each character that is not
/// alphanumeric or a dash replaced by a dash, and dashes trimmed from both
/// ends.
pub fn normalize_topic(name: &str) -> (r: String)
    ensures
        r@ == topic_from_lowered(unicode_lowercase(name@)),
        all_ascii(name@) ==> r@ == topic_from_lowered(ascii_lower(name@)),
        r@.len() > 0 ==> r@[0] != '-' && r@.last() != '-',
        forall|i: int| 0 <= i < r@.len() ==> (#[trigger] r@[i] == '-' || (alnum(r@[i])
            && !unicode_whitespace(r@[i]))),
        forall|i: int| 0 <= i < r@.len() ==> !is_ascii_upper(#[trigger] r@[i]),
{
    let lowered = to_lowercase(name);
    normalize_lowered(lowered.as_str())
}

/// The alphanumeric characters of `s`, in order.
pub open spec fn alnum_chars(s: Seq<char>) -> Seq<char>
    decreases s.len(),
{
    if s.len() == 0 {
        Seq::empty()
    } else {
        alnum_chars(s.drop_last()) + if alnum(s.last()) {
            seq![s.last()]
        } else {
            Seq::empty()
        }
    }
}

proof fn lemma_alnum_chars_concat(a: Seq<char>, b: Seq<char>)
    ensures
        alnum_chars(a + b) == alnum_chars(a) + alnum_chars(b),
    decreases b.len(),
{
    if b.len() == 0 {
        assert(a + b =~= a);
        assert(alnum_chars(a) + alnum_chars(b) =~= alnum_chars(a));
    } else {
        lemma_alnum_chars_concat(a, b.drop_last());
        assert((a + b).drop_last() =~= a + b.drop_last());
        assert((a + b).last() == b.last());
        assert(alnum_chars(a + b) =~= alnum_chars(a) + alnum_chars(b));
    }
}

proof fn lemma_alnum_chars_map(s: Seq<char>)
    ensures
        alnum_chars(s.map_values(|c: char| topic_char(c))) == alnum_chars(s),
    decreases s.len(),
{
    let t = s.map_values(|c: char| topic_char(c));
    if s.len() > 0 {
        lemma_alnum_chars_map(s.drop_last());
        assert(t.drop_last() =~= s.drop_last().map_values(|c: char| topic_char(c)));
        assert(t.last() == topic_char(s.last()));
        assert(!alnum('-'));
    }
}

proof fn lemma_alnum_chars_strip(s: Seq<char>)
    ensures
        alnum_chars(strip_leading_dashes(s)) == alnum_chars(s),
        alnum_chars(strip_trailing_dashes(s)) == alnum_chars(s),
    decreases s.len(),
{
    assert(!alnum('-'));
    if s.len() > 0 {
        if s[0] == '-' {
            lemma_alnum_chars_strip(s.drop_first());
            assert(s =~= seq![s[0]] + s.drop_first());
            lemma_alnum_chars_concat(seq![s[0]], s.drop_first());
            assert(seq![s[0]].drop_last() =~= Seq::<char>::empty());
            assert(seq![s[0]].last() == '-');
            assert(alnum_chars(Seq::<char>::empty()) =~= Seq::<char>::empty());
            assert(alnum_chars(seq![s[0]]) == alnum_chars(seq![s[0]].drop_last()) + Seq::<char>::empty());
            assert(alnum_chars(seq![s[0]]) =~= Seq::<char>::empty());
            assert(alnum_chars(s) =~= alnum_chars(s.drop_first()));
        }
        if s.last() == '-' {
            lemma_alnum_chars_strip(s.drop_last());
            assert(alnum_chars(s) =~= alnum_chars(s.drop_last()));
        }
    }
}

/// Normalizing keeps every alphanumeric character: the alphanumeric
/// characters of the topic made from a lowercased name are those of the name,
/// in the same order (only other characters become or lose dashes).
pub proof fn lemma_topic_keeps_alphanumerics(lowered: Seq<char>)
    ensures
        alnum_chars(topic_from_lowered(lowered)) == alnum_chars(lowered),
{
    let m = lowered.map_values(|c: char| topic_char(c));
    lemma_alnum_chars_map(lowered);
    lemma_alnum_chars_strip(m);
    lemma_alnum_chars_strip(strip_leading_dashes(m));
}

/// A name that already is a topic name, made only of alphanumeric characters
/// and dashes and neither starting nor ending with a dash, is left as it is.
pub proof fn lemma_topic_name_is_fixed(s: Seq<char>)
    requires
        forall|i: int| 0 <= i < s.len() ==> (alnum(#[trigger] s[i]) || s[i] == '-'),
        s.len() > 0 ==> s[0] != '-' && s.last() != '-',
    ensures
        topic_from_lowered(s) == s,
{
    let m = s.map_values(|c: char| topic_char(c));
    assert(m =~= s);
    assert(strip_leading_dashes(s) == s);
    assert(strip_trailing_dashes(s) == s);
}

proof fn lemma_strip_leading_shape(s: Seq<char>)
    ensures
        exists|k: int| 0 <= k <= s.len() && strip_leading_dashes(s) == #[trigger] s.skip(k),
        strip_leading_dashes(s).len() > 0 ==> strip_leading_dashes(s)[0] != '-',
    decreases s.len(),
{
    if s.len() > 0 && s[0] == '-' {
        lemma_strip_leading_shape(s.drop_first());
        let k = choose|k: int|
            0 <= k <= s.drop_first().len() && strip_leading_dashes(s.drop_first())
                == #[trigger] s.drop_first().skip(k);
        assert(s.drop_first().skip(k) =~= s.skip(k + 1));
    } else {
        assert(s.skip(0) =~= s);
    }
}

proof fn lemma_strip_trailing_shape(s: Seq<char>)
    ensures
        exists|k: int| 0 <= k <= s.len() && strip_trailing_dashes(s) == #[trigger] s.take(k),
        strip_trailing_dashes(s).len() > 0 ==> strip_trailing_dashes(s).last() != '-',
    decreases s.len(),
{
    if s.len() > 0 && s.last() == '-' {
        lemma_strip_trailing_shape(s.drop_last());
        let k = choose|k: int|
            0 <= k <= s.drop_last().len() && strip_trailing_dashes(s.drop_last())
                == #[trigger] s.drop_last().take(k);
        assert(s.drop_last().take(k) =~= s.take(k));
    } else {
        assert(s.take(s.len() as int) =~= s);
    }
}

/// A character that a normalized ASCII name can hold: a dash, or an ASCII
/// letter or digit that is not upper case.
pub open spec fn normalized_ascii_char(c: char) -> bool {
    c == '-' || (alnum(c) && is_ascii_char(c) && !is_ascii_upper(c))
}

/// Normalizing an ASCII name twice gives the same as normalizing it once:
/// the normalized name is ASCII again, and lowercasing and normalizing it
/// leave it as it is.
pub proof fn lemma_normalize_ascii_twice(name: Seq<char>)
    requires
        all_ascii(name),
    ensures
        all_ascii(topic_from_lowered(ascii_lower(name))),
        topic_from_lowered(ascii_lower(topic_from_lowered(ascii_lower(name)))) == topic_from_lowered(
            ascii_lower(name),
        ),
{
    let low = ascii_lower(name);
    let x = low.map_values(|c: char| topic_char(c));
    assert forall|i: int| 0 <= i < x.len() implies normalized_ascii_char(#[trigger] x[i]) by {
        let c = name[i];
        assert(is_ascii_char(c));
        let l = low[i];
        assert(l == ascii_lower_char(c));
        if is_ascii_upper(c) {
            assert(97 <= (c as u32) + 32 <= 122);
            assert(l as u32 == (c as u32) + 32);
        }
        assert(is_ascii_char(l) && !is_ascii_upper(l));
        assert(x[i] == topic_char(l));
    }
    let a = strip_leading_dashes(x);
    lemma_strip_leading_shape(x);
    let k1 = choose|k: int| 0 <= k <= x.len() && a == #[trigger] x.skip(k);
    let r = strip_trailing_dashes(a);
    lemma_strip_trailing_shape(a);
    let k2 = choose|k: int| 0 <= k <= a.len() && r == #[trigger] a.take(k);
    assert forall|i: int| 0 <= i < r.len() implies normalized_ascii_char(#[trigger] r[i]) by {
        assert(r[i] == a[i]);
        assert(a[i] == x[k1 + i]);
    }
    assert(all_ascii(r)) by {
        assert forall|i: int| 0 <= i < r.len() implies is_ascii_char(#[trigger] r[i]) by {
            assert(normalized_ascii_char(r[i]));
        }
    }
    assert(ascii_lower(r) =~= r) by {
        assert forall|i: int| 0 <= i < r.len() implies #[trigger] ascii_lower(r)[i] == r[i] by {
            assert(normalized_ascii_char(r[i]));
        }
    }
    let y = r.map_values(|c: char| topic_char(c));
    assert(y =~= r) by {
        assert forall|i: int| 0 <= i < r.len() implies #[trigger] y[i] == r[i] by {
            assert(normalized_ascii_char(r[i]));
        }
    }
    if r.len() > 0 {
        assert(r[0] == a[0]);
    }
    assert(strip_leading_dashes(r) == r);
    assert(strip_trailing_dashes(r) == r);
}

/// `.md`, the extension of topic files.
pub open spec fn md_suffix() -> Seq<char> {
    seq!['.', 'm', 'd']
}

/// The file name of a topic: the topic followed by `.md`.
pub fn topic_file_name(topic: &str) -> (r: String)
    ensures
        r@ == topic@ + md_suffix(),
{
    let mut out = chars_of(topic);
    out.push('.');
    out.push('m');
    out.push('d');
    let r = string_of(out.as_slice());
    assert(r@ =~= topic@ + md_suffix());
    r
}

/// `.tombstones`, the stem of the audit log's file name.
pub open spec fn audit_log_stem() -> Seq<char> {
    seq!['.', 't', 'o', 'm', 'b', 's', 't', 'o', 'n', 'e', 's']
}

/// The topic stored in a file of the given name: the name without its `.md`
/// extension.  The audit log (`.tombstones.md`) and files with another
/// extension hold no topic, nor does a file named just `.md`.
pub open spec fn topic_of_name(name: Seq<char>) -> Option<Seq<char>> {
    if name.len() > 3 && name.skip(name.len() - 3) == md_suffix() && name.take(name.len() - 3)
        != audit_log_stem() {
        Some(name.take(name.len() - 3))
    } else {
        None
    }
}

fn audit_log_stem_chars() -> (r: Vec<char>)
    ensures
        r@ == audit_log_stem(),
{
    let v = vec!['.', 't', 'o', 'm', 'b', 's', 't', 'o', 'n', 'e', 's'];
    assert(v@ =~= audit_log_stem());
    v
}

/// The topic held by a file of the given name, if it is a topic file.
pub fn topic_of_file_name(name: &str) -> (r: Option<String>)
    ensures
        r matches Some(t) ==> topic_of_name(name@) == Some(t@),
        r is None ==> topic_of_name(name@) is None,
{
    let cs = chars_of(name);
    let n = cs.len();
    if n <= 3 || cs[n - 3] != '.' || cs[n - 2] != 'm' || cs[n - 1] != 'd' {
        proof {
            if n > 3 && cs@.skip(n - 3) == md_suffix() {
                assert(cs@.skip(n - 3)[0] == cs@[n - 3]);
                assert(cs@.skip(n - 3)[1] == cs@[n - 2]);
                assert(cs@.skip(n - 3)[2] == cs@[n - 1]);
            }
        }
        return None;
    }
    assert(cs@.skip(n - 3) =~= md_suffix());
    let stem = copy_range(cs.as_slice(), 0, n - 3);
    assert(stem@ =~= cs@.take(n - 3));
    let log = audit_log_stem_chars();
    if crate::text::same_chars(stem.as_slice(), log.as_slice()) {
        return None;
    }
    Some(string_of(stem.as_slice()))
}

/// A topic other than the audit log's stem is found again under the name of
/// its own file.
pub proof fn lemma_topic_file_roundtrip(topic: Seq<char>)
    requires
        topic.len() > 0,
        topic != audit_log_stem(),
    ensures
        topic_of_name(topic + md_suffix()) == Some(topic),
{
    let name = topic + md_suffix();
    assert(name.skip(name.len() - 3) =~= md_suffix());
    assert(name.take(name.len() - 3) =~= topic);
}

// ---------------------------------------------------------------------------
// Entry lines
// ---------------------------------------------------------------------------

/// `- `, which starts every entry line.
pub open spec fn entry_marker() -> Seq<char> {
    seq!['-', ' ']
}

pub open spec fn is_entry_line(l: Seq<char>) -> bool {
    has_prefix(l, entry_marker())
}

/// The entry lines of a topic file, in order.
pub open spec fn entries_of(content: Seq<char>) -> Seq<Seq<char>> {
    lines(content).filter(|l: Seq<char>| is_entry_line(l))
}

fn marker_chars() -> (r: Vec<char>)
    ensures
        r@ == entry_marker(),
{
    let mut v: Vec<char> = Vec::new();
    v.push('-');
    v.push(' ');
    assert(v@ =~= entry_marker());
    v
}

/// The views of a vector of strings.
pub open spec fn strings_view(v: Seq<String>) -> Seq<Seq<char>> {
    v.map_values(|s: String| s@)
}

/// The entry lines (those starting with `- `) of a topic file's text.
pub fn entry_lines(content: &str) -> (r: Vec<String>)
    ensures
        strings_view(r@) == entries_of(content@),
{
    let cs = chars_of(content);
    let ls = split_lines(cs.as_slice());
    let ghost all = lines(content@);
    let marker = marker_chars();
    let mut out: Vec<String> = Vec::new();
    let mut i: usize = 0;
    while i < ls.len()
        invariant
            0 <= i <= ls@.len(),
            ls@.map_values(|l: Vec<char>| l@) == all,
            marker@ == entry_marker(),
            strings_view(out@) == all.take(i as int).filter(|l: Seq<char>| is_entry_line(l)),
        decreases ls@.len() - i,
    {
        let ghost prev = strings_view(out@);
        assert(all[i as int] == ls@[i as int]@);
        assert(all.take(i + 1).drop_last() =~= all.take(i as int));
        proof {
            reveal(Seq::filter);
        }
        if starts_with(ls[i].as_slice(), marker.as_slice()) {
            out.push(string_of(ls[i].as_slice()));
            assert(strings_view(out@) =~= prev.push(all[i as int]));
        } else {
            assert(strings_view(out@) =~= prev);
        }
        i = i + 1;
    }
    assert(all.take(ls@.len() as int) =~= all);
    out
}

/// The number of entry lines in a topic file's text.
pub fn count_entries(content: &str) -> (r: usize)
    ensures
        r == entries_of(content@).len(),
{
    entry_lines(content).len()
}

/// What writing an entry appends to a topic file: a `# topic` header and a
/// blank line when the file is new, then `- date: entry` and a line break.
pub open spec fn appended_text(is_new: bool, topic: Seq<char>, date: Seq<char>, entry: Seq<char>) -> Seq<char> {
    let header = if is_new {
        seq!['#', ' '] + topic + seq!['\n', '\n']
    } else {
        Seq::empty()
    };
    header + crate::consolidate::entry_text(date, entry) + seq!['\n']
}

/// The text to append to a topic file for a new entry written on `date`.
pub fn append_text(is_new: bool, topic: &str, date: &str, entry: &str) -> (r: String)
    ensures
        r@ == appended_text(is_new, topic@, date@, entry@),
{
    let mut out: Vec<char> = Vec::new();
    if is_new {
        out.push('#');
        out.push(' ');
        extend_chars(&mut out, chars_of(topic).as_slice());
        out.push('\n');
        out.push('\n');
    }
    let line = crate::consolidate::entry_line(date, entry);
    extend_chars(&mut out, chars_of(line.as_str()).as_slice());
    out.push('\n');
    let r = string_of(out.as_slice());
    assert(r@ =~= appended_text(is_new, topic@, date@, entry@));
    r
}

// ---------------------------------------------------------------------------
// Rewriting a topic file
// ---------------------------------------------------------------------------

/// Lines joined by line feeds (`[String]::join("\n")`).
pub open spec fn join_lines(ls: Seq<Seq<char>>) -> Seq<char>
    decreases ls.len(),
{
    if ls.len() == 0 {
        Seq::empty()
    } else if ls.len() == 1 {
        ls[0]
    } else {
        join_lines(ls.drop_last()) + seq!['\n'] + ls.last()
    }
}

/// The text of a file rewritten from its lines: joined by line feeds, with a
/// final line feed.
pub open spec fn file_text(ls: Seq<Seq<char>>) -> Seq<char> {
    join_lines(ls) + seq!['\n']
}

fn file_text_of(ls: &Vec<Vec<char>>) -> (r: String)
    ensures
        r@ == file_text(ls@.map_values(|l: Vec<char>| l@)),
{
    let ghost v = ls@.map_values(|l: Vec<char>| l@);
    let mut out: Vec<char> = Vec::new();
    let mut i: usize = 0;
    while i < ls.len()
        invariant
            0 <= i <= ls@.len(),
            v == ls@.map_values(|l: Vec<char>| l@),
            out@ == join_lines(v.take(i as int)),
        decreases ls@.len() - i,
    {
        assert(v.take(i + 1).drop_last() =~= v.take(i as int));
        assert(v.take(i + 1).last() == ls@[i as int]@);
        if i > 0 {
            out.push('\n');
        } else {
            assert(v.take(0) =~= Seq::<Seq<char>>::empty());
        }
        extend_chars(&mut out, ls[i].as_slice());
        i = i + 1;
        assert(out@ =~= join_lines(v.take(i as int)));
    }
    assert(v.take(ls@.len() as int) =~= v);
    out.push('\n');
    string_of(out.as_slice())
}

/// `ls` without its trailing empty lines.
pub open spec fn drop_trailing_empty(ls: Seq<Seq<char>>) -> Seq<Seq<char>>
    decreases ls.len(),
{
    if ls.len() > 0 && ls.last().len() == 0 {
        drop_trailing_empty(ls.drop_last())
    } else {
        ls
    }
}

/// An entry line that mentions the (already lowercased) search text.
pub open spec fn mentions(l: Seq<char>, lowered_search: Seq<char>) -> bool {
    is_entry_line(l) && contains_seq(unicode_lowercase(l), lowered_search)
}

/// The lines that forgetting `search` keeps.
pub open spec fn kept_lines(content: Seq<char>, search: Seq<char>) -> Seq<Seq<char>> {
    lines(content).filter(|l: Seq<char>| !mentions(l, unicode_lowercase(search)))
}

/// The lines that forgetting `search` removes.
pub open spec fn removed_lines(content: Seq<char>, search: Seq<char>) -> Seq<Seq<char>> {
    lines(content).filter(|l: Seq<char>| mentions(l, unicode_lowercase(search)))
}

/// An entry line whose ASCII-lowercased text contains `lowered_search`.
pub open spec fn mentions_ascii(l: Seq<char>, lowered_search: Seq<char>) -> bool {
    is_entry_line(l) && contains_seq(ascii_lower(l), lowered_search)
}

/// The lines that forgetting `search` keeps, for ASCII text and search.
pub open spec fn kept_lines_ascii(content: Seq<char>, search: Seq<char>) -> Seq<Seq<char>> {
    lines(content).filter(|l: Seq<char>| !mentions_ascii(l, ascii_lower(search)))
}

/// The lines that forgetting `search` removes, for ASCII text and search.
pub open spec fn removed_lines_ascii(content: Seq<char>, search: Seq<char>) -> Seq<Seq<char>> {
    lines(content).filter(|l: Seq<char>| mentions_ascii(l, ascii_lower(search)))
}

/// Every line of an ASCII text is ASCII.
pub proof fn lemma_lines_ascii(s: Seq<char>)
    requires
        all_ascii(s),
    ensures
        forall|i: int| 0 <= i < lines(s).len() ==> all_ascii(#[trigger] lines(s)[i]),
    decreases s.len(),
{
    if s.len() > 0 {
        crate::text::lemma_first_newline_bound(s);
        let i = crate::text::first_newline(s);
        if i < s.len() {
            let rest = s.skip(i + 1 as int);
            assert(all_ascii(rest)) by {
                assert forall|k: int| 0 <= k < rest.len() implies is_ascii_char(#[trigger] rest[k]) by {
                    assert(rest[k] == s[i + 1 + k]);
                }
            }
            lemma_lines_ascii(rest);
            let head = crate::text::strip_cr(s.take(i as int));
            assert(all_ascii(head)) by {
                assert forall|k: int| 0 <= k < head.len() implies is_ascii_char(#[trigger] head[k]) by {
                    assert(head[k] == s[k]);
                }
            }
            let ls = lines(s);
            assert(ls =~= seq![head] + lines(rest));
            assert forall|k: int| 0 <= k < ls.len() implies all_ascii(#[trigger] ls[k]) by {
                if k > 0 {
                    assert(ls[k] == lines(rest)[k - 1]);
                }
            }
        } else {
            assert(lines(s) =~= seq![s]);
        }
    }
}

/// Forgets every entry whose lowercased line contains the lowercased
/// `search`: returns the rewritten file text (kept lines, trailing empty lines
/// dropped, joined with line feeds and ended by one) and the removed lines.
/// For ASCII text and search, lowercasing is `A`..=`Z` to `a`..=`z`.
pub fn forget_in(content: &str, search: &str) -> (r: (String, Vec<String>))
    ensures
        r.0@ == file_text(drop_trailing_empty(kept_lines(content@, search@))),
        strings_view(r.1@) == removed_lines(content@, search@),
        all_ascii(content@) && all_ascii(search@) ==> r.0@ == file_text(
            drop_trailing_empty(kept_lines_ascii(content@, search@)),
        ) && strings_view(r.1@) == removed_lines_ascii(content@, search@),
{
    let ghost asc = all_ascii(content@) && all_ascii(search@);
    let ghost qa = ascii_lower(search@);
    proof {
        if asc {
            lemma_lines_ascii(content@);
        }
    }
    let q_string = to_lowercase(search);
    let q = chars_of(q_string.as_str());
    let ghost qv = unicode_lowercase(search@);
    let cs = chars_of(content);
    let ls = split_lines(cs.as_slice());
    let ghost all = lines(content@);
    let marker = marker_chars();
    let mut kept: Vec<Vec<char>> = Vec::new();
    let mut removed: Vec<String> = Vec::new();
    let mut i: usize = 0;
    while i < ls.len()
        invariant
            0 <= i <= ls@.len(),
            ls@.map_values(|l: Vec<char>| l@) == all,
            marker@ == entry_marker(),
            q@ == qv,
            qv == unicode_lowercase(search@),
            kept@.map_values(|l: Vec<char>| l@) == all.take(i as int).filter(
                |l: Seq<char>| !mentions(l, qv),
            ),
            strings_view(removed@) == all.take(i as int).filter(|l: Seq<char>| mentions(l, qv)),
            asc ==> q@ == qa,
            asc ==> forall|k: int| 0 <= k < all.len() ==> all_ascii(#[trigger] all[k]),
            asc ==> kept@.map_values(|l: Vec<char>| l@) == all.take(i as int).filter(
                |l: Seq<char>| !mentions_ascii(l, qa),
            ),
            asc ==> strings_view(removed@) == all.take(i as int).filter(
                |l: Seq<char>| mentions_ascii(l, qa),
            ),
        decreases ls@.len() - i,
    {
        let ghost pk = kept@.map_values(|l: Vec<char>| l@);
        let ghost pr = strings_view(removed@);
        let ghost li = all[i as int];
        assert(li == ls@[i as int]@);
        assert(all.take(i + 1).drop_last() =~= all.take(i as int));
        assert(all.take(i + 1).last() == li);
        proof {
            reveal(Seq::filter);
        }
        let line = string_of(ls[i].as_slice());
        let hit = if starts_with(ls[i].as_slice(), marker.as_slice()) {
            let lower = to_lowercase(line.as_str());
            let lc = chars_of(lower.as_str());
            contains(lc.as_slice(), q.as_slice())
        } else {
            false
        };
        assert(hit == mentions(li, qv));
        assert(asc ==> hit == mentions_ascii(li, qa));
        if hit {
            removed.push(line);
            assert(strings_view(removed@) =~= pr.push(li));
            assert(kept@.map_values(|l: Vec<char>| l@) =~= pk);
        } else {
            let copy = copy_range(ls[i].as_slice(), 0, ls[i].len());
            assert(copy@ =~= li);
            kept.push(copy);
            assert(kept@.map_values(|l: Vec<char>| l@) =~= pk.push(li));
            assert(strings_view(removed@) =~= pr);
        }
        i = i + 1;
    }
    assert(all.take(ls@.len() as int) =~= all);
    let ghost full = kept@.map_values(|l: Vec<char>| l@);
    while kept.len() > 0 && kept[kept.len() - 1].len() == 0
        invariant
            drop_trailing_empty(kept@.map_values(|l: Vec<char>| l@)) == drop_trailing_empty(full),
        decreases kept@.len(),
    {
        let ghost before = kept@.map_values(|l: Vec<char>| l@);
        kept.pop();
        assert(kept@.map_values(|l: Vec<char>| l@) =~= before.drop_last());
    }
    assert(drop_trailing_empty(kept@.map_values(|l: Vec<char>| l@)) == kept@.map_values(
        |l: Vec<char>| l@,
    ));
    (file_text_of(&kept), removed)
}

/// The lines of `content` with the first line equal to `old` replaced by
/// `new` (all lines when none is equal).
pub open spec fn replaced_lines(ls: Seq<Seq<char>>, old: Seq<char>, new: Seq<char>) -> Seq<Seq<char>>
    decreases ls.len(),
{
    if ls.len() == 0 {
        ls
    } else if ls[0] == old {
        seq![new] + ls.drop_first()
    } else {
        seq![ls[0]] + replaced_lines(ls.drop_first(), old, new)
    }
}

/// The lines with the first line equal to `old` left out.
pub open spec fn without_line(ls: Seq<Seq<char>>, old: Seq<char>) -> Seq<Seq<char>>
    decreases ls.len(),
{
    if ls.len() == 0 {
        ls
    } else if ls[0] == old {
        ls.drop_first()
    } else {
        seq![ls[0]] + without_line(ls.drop_first(), old)
    }
}

/// Rewrites a topic file's text with its first line equal to `old` replaced
/// by `new`.
pub fn replace_line(content: &str, old: &str, new: &str) -> (r: String)
    ensures
        r@ == file_text(replaced_lines(lines(content@), old@, new@)),
{
    let cs = chars_of(content);
    let ls = split_lines(cs.as_slice());
    let oc = chars_of(old);
    let nc = chars_of(new);
    let ghost all = lines(content@);
    let mut out: Vec<Vec<char>> = Vec::new();
    let mut i: usize = 0;
    let mut done = false;
    assert(all.skip(0) =~= all);
    assert(out@.map_values(|l: Vec<char>| l@) =~= Seq::<Seq<char>>::empty());
    while i < ls.len()
        invariant
            0 <= i <= ls@.len(),
            ls@.map_values(|l: Vec<char>| l@) == all,
            oc@ == old@,
            nc@ == new@,
            !done ==> replaced_lines(all, old@, new@) == out@.map_values(|l: Vec<char>| l@)
                + replaced_lines(all.skip(i as int), old@, new@),
            done ==> replaced_lines(all, old@, new@) == out@.map_values(|l: Vec<char>| l@)
                + all.skip(i as int),
        decreases ls@.len() - i,
    {
        let ghost prev = out@.map_values(|l: Vec<char>| l@);
        let ghost rest = all.skip(i as int);
        assert(rest[0] == ls@[i as int]@);
        assert(rest.drop_first() =~= all.skip(i + 1 as int));
        if !done && crate::text::same_chars(ls[i].as_slice(), oc.as_slice()) {
            let c = copy_range(nc.as_slice(), 0, nc.len());
            assert(c@ =~= new@);
            out.push(c);
            done = true;
            assert(out@.map_values(|l: Vec<char>| l@) =~= prev.push(new@));
            assert(seq![new@] + rest.drop_first() =~= seq![new@] + all.skip(i + 1 as int));
            assert(prev + (seq![new@] + all.skip(i + 1 as int)) =~= prev.push(new@) + all.skip(i + 1 as int));
        } else {
            let c = copy_range(ls[i].as_slice(), 0, ls[i].len());
            assert(c@ =~= rest[0]);
            out.push(c);
            assert(out@.map_values(|l: Vec<char>| l@) =~= prev.push(rest[0]));
            if done {
                assert(prev + rest =~= prev.push(rest[0]) + all.skip(i + 1 as int));
            } else {
                assert(prev + replaced_lines(rest, old@, new@) =~= prev.push(rest[0])
                    + replaced_lines(all.skip(i + 1 as int), old@, new@));
            }
        }
        i = i + 1;
    }
    assert(all.skip(i as int) =~= Seq::<Seq<char>>::empty());
    assert(replaced_lines(all, old@, new@) =~= out@.map_values(|l: Vec<char>| l@));
    file_text_of(&out)
}

/// Rewrites a topic file's text without its first line equal to `old`.
pub fn remove_line(content: &str, old: &str) -> (r: String)
    ensures
        r@ == file_text(without_line(lines(content@), old@)),
{
    let cs = chars_of(content);
    let ls = split_lines(cs.as_slice());
    let oc = chars_of(old);
    let ghost all = lines(content@);
    let mut out: Vec<Vec<char>> = Vec::new();
    let mut i: usize = 0;
    let mut done = false;
    assert(all.skip(0) =~= all);
    assert(out@.map_values(|l: Vec<char>| l@) =~= Seq::<Seq<char>>::empty());
    while i < ls.len()
        invariant
            0 <= i <= ls@.len(),
            ls@.map_values(|l: Vec<char>| l@) == all,
            oc@ == old@,
            !done ==> without_line(all, old@) == out@.map_values(|l: Vec<char>| l@)
                + without_line(all.skip(i as int), old@),
            done ==> without_line(all, old@) == out@.map_values(|l: Vec<char>| l@) + all.skip(
                i as int,
            ),
        decreases ls@.len() - i,
    {
        let ghost prev = out@.map_values(|l: Vec<char>| l@);
        let ghost rest = all.skip(i as int);
        assert(rest[0] == ls@[i as int]@);
        assert(rest.drop_first() =~= all.skip(i + 1 as int));
        if !done && crate::text::same_chars(ls[i].as_slice(), oc.as_slice()) {
            done = true;
        } else {
            let c = copy_range(ls[i].as_slice(), 0, ls[i].len());
            assert(c@ =~= rest[0]);
            out.push(c);
            assert(out@.map_values(|l: Vec<char>| l@) =~= prev.push(rest[0]));
            if done {
                assert(prev + rest =~= prev.push(rest[0]) + all.skip(i + 1 as int));
            } else {
                assert(prev + without_line(rest, old@) =~= prev.push(rest[0]) + without_line(
                    all.skip(i + 1 as int),
                    old@,
                ));
            }
        }
        i = i + 1;
    }
    assert(all.skip(i as int) =~= Seq::<Seq<char>>::empty());
    assert(without_line(all, old@) =~= out@.map_values(|l: Vec<char>| l@));
    file_text_of(&out)
}

// ---------------------------------------------------------------------------
// Laws of the topic file format
// ---------------------------------------------------------------------------

/// `s` holds no line feed.
pub open spec fn no_newline(s: Seq<char>) -> bool {
    forall|i: int| 0 <= i < s.len() ==> s[i] != '\n'
}

/// `s` does not end with a carriage return.
pub open spec fn no_trailing_cr(s: Seq<char>) -> bool {
    !(s.len() > 0 && s.last() == '\r')
}

/// Every line of the text is free of a trailing carriage return, so that
/// rewriting the file from its lines keeps each line as it is.
pub open spec fn clean_lines(content: Seq<char>) -> bool {
    forall|i: int| 0 <= i < lines(content).len() ==> no_trailing_cr(#[trigger] lines(content)[i])
}

proof fn lemma_lines_concat(a: Seq<char>, b: Seq<char>)
    requires
        a.len() == 0 || a.last() == '\n',
    ensures
        lines(a + b) == lines(a) + lines(b),
    decreases a.len(),
{
    if a.len() == 0 {
        assert(a + b =~= b);
        assert(lines(a) =~= Seq::<Seq<char>>::empty());
        assert(lines(a) + lines(b) =~= lines(b));
    } else {
        crate::text::lemma_first_newline_bound(a);
        let i = crate::text::first_newline(a);
        if i >= a.len() {
            assert(a[a.len() - 1] != '\n');
        }
        assert(i < a.len());
        let ab = a + b;
        assert forall|j: int| 0 <= j < i implies ab[j] != '\n' by {
            assert(ab[j] == a[j]);
        }
        assert(ab[i as int] == a[i as int]);
        crate::text::lemma_first_newline_is(ab, i);
        assert(ab.take(i as int) =~= a.take(i as int));
        let a2 = a.skip(i + 1 as int);
        assert(ab.skip(i + 1 as int) =~= a2 + b);
        if a2.len() > 0 {
            assert(a2.last() == a.last());
        }
        lemma_lines_concat(a2, b);
        assert(lines(ab) =~= seq![crate::text::strip_cr(a.take(i as int))] + (lines(a2) + lines(b)));
    }
}

proof fn lemma_lines_single(l: Seq<char>)
    requires
        no_newline(l),
    ensures
        lines(l + seq!['\n']) == seq![crate::text::strip_cr(l)],
{
    let t = l + seq!['\n'];
    assert forall|j: int| 0 <= j < l.len() implies t[j] != '\n' by {
        assert(t[j] == l[j]);
    }
    crate::text::lemma_first_newline_is(t, l.len());
    assert(t.take(l.len() as int) =~= l);
    assert(t.skip(l.len() + 1 as int) =~= Seq::<char>::empty());
    assert(lines(Seq::<char>::empty()) =~= Seq::<Seq<char>>::empty());
    assert(lines(t) =~= seq![crate::text::strip_cr(l)]);
}

/// No line of a text holds a line feed.
pub proof fn lemma_lines_have_no_newline(s: Seq<char>)
    ensures
        forall|i: int| 0 <= i < lines(s).len() ==> no_newline(#[trigger] lines(s)[i]),
    decreases s.len(),
{
    if s.len() > 0 {
        crate::text::lemma_first_newline_bound(s);
        let i = crate::text::first_newline(s);
        if i < s.len() {
            lemma_lines_have_no_newline(s.skip(i + 1 as int));
            let head = crate::text::strip_cr(s.take(i as int));
            assert(no_newline(head)) by {
                assert forall|k: int| 0 <= k < head.len() implies head[k] != '\n' by {
                    assert(head[k] == s[k]);
                }
            }
            let ls = lines(s);
            assert(ls =~= seq![head] + lines(s.skip(i + 1 as int)));
            assert forall|k: int| 0 <= k < ls.len() implies no_newline(#[trigger] ls[k]) by {
                if k > 0 {
                    assert(ls[k] == lines(s.skip(i + 1 as int))[k - 1]);
                }
            }
        }
    }
}

/// Rewriting a file from lines that hold no line feed and do not end with a
/// carriage return, then reading its lines, gives back those lines.
pub proof fn lemma_file_text_lines(ls: Seq<Seq<char>>)
    requires
        ls.len() > 0,
        forall|i: int| 0 <= i < ls.len() ==> no_newline(#[trigger] ls[i]),
        forall|i: int| 0 <= i < ls.len() ==> no_trailing_cr(#[trigger] ls[i]),
    ensures
        lines(file_text(ls)) == ls,
    decreases ls.len(),
{
    let last = ls.last();
    assert(no_newline(ls[ls.len() - 1]));
    assert(no_trailing_cr(ls[ls.len() - 1]));
    lemma_lines_single(last);
    if ls.len() == 1 {
        assert(file_text(ls) == last + seq!['\n']);
        assert(ls =~= seq![last]);
    } else {
        let init = ls.drop_last();
        assert forall|i: int| 0 <= i < init.len() implies no_newline(#[trigger] init[i])
            && no_trailing_cr(init[i]) by {
            assert(init[i] == ls[i]);
        }
        lemma_file_text_lines(init);
        assert(file_text(ls) =~= file_text(init) + (last + seq!['\n']));
        lemma_lines_concat(file_text(init), last + seq!['\n']);
        assert(ls =~= init.push(last));
    }
}

proof fn lemma_filter_entries_of_dropped(ls: Seq<Seq<char>>)
    ensures
        drop_trailing_empty(ls).filter(|l: Seq<char>| is_entry_line(l)) == ls.filter(
            |l: Seq<char>| is_entry_line(l),
        ),
        forall|i: int| 0 <= i < drop_trailing_empty(ls).len() ==> ls.contains(#[trigger] drop_trailing_empty(ls)[i]),
        drop_trailing_empty(ls).len() == 0 ==> ls.filter(|l: Seq<char>| is_entry_line(l)).len() == 0,
    decreases ls.len(),
{
    reveal(Seq::filter);
    if ls.len() > 0 && ls.last().len() == 0 {
        lemma_filter_entries_of_dropped(ls.drop_last());
        assert(!is_entry_line(ls.last()));
        assert forall|i: int| 0 <= i < drop_trailing_empty(ls).len() implies ls.contains(
            #[trigger] drop_trailing_empty(ls)[i],
        ) by {
            let x = drop_trailing_empty(ls)[i];
            assert(ls.drop_last().contains(x));
            let j = choose|j: int| 0 <= j < ls.drop_last().len() && ls.drop_last()[j] == x;
            assert(ls[j] == x);
        }
    } else {
        assert forall|i: int| 0 <= i < ls.len() implies ls.contains(#[trigger] ls[i]) by {}
        if ls.len() == 0 {
            assert(ls.filter(|l: Seq<char>| is_entry_line(l)) =~= ls);
        }
    }
}

proof fn lemma_filter_filter_entries(ls: Seq<Seq<char>>, q: Seq<char>)
    ensures
        ls.filter(|l: Seq<char>| !mentions(l, q)).filter(|l: Seq<char>| is_entry_line(l))
            == ls.filter(|l: Seq<char>| is_entry_line(l)).filter(
            |l: Seq<char>| !contains_seq(unicode_lowercase(l), q),
        ),
    decreases ls.len(),
{
    reveal(Seq::filter);
    if ls.len() > 0 {
        let init = ls.drop_last();
        let x = ls.last();
        lemma_filter_filter_entries(init, q);
        let nm = |l: Seq<char>| !mentions(l, q);
        let en = |l: Seq<char>| is_entry_line(l);
        let nc = |l: Seq<char>| !contains_seq(unicode_lowercase(l), q);
        let a = init.filter(nm);
        let b = init.filter(en);
        if nm(x) {
            assert(ls.filter(nm) == a.push(x));
            assert(a.push(x).drop_last() =~= a);
            assert(a.push(x).last() == x);
        } else {
            assert(ls.filter(nm) == a);
        }
        if en(x) {
            assert(ls.filter(en) == b.push(x));
            assert(b.push(x).drop_last() =~= b);
            assert(b.push(x).last() == x);
        } else {
            assert(ls.filter(en) == b);
        }
    }
}

/// Appending an entry to a topic file (with its header when the file is
/// new), then reading the file's entries, gives the entries it had followed
/// by the new line — for a file that is empty or ends with a line break, and
/// a topic, date and entry text that hold no line feed (the entry not ending
/// with a carriage return).
pub proof fn lemma_append_then_read(
    content: Seq<char>,
    is_new: bool,
    topic: Seq<char>,
    date: Seq<char>,
    entry: Seq<char>,
)
    requires
        content.len() == 0 || content.last() == '\n',
        no_newline(topic),
        no_newline(date),
        no_newline(entry),
        no_trailing_cr(entry),
    ensures
        entries_of(content + appended_text(is_new, topic, date, entry)) == entries_of(content).push(
            crate::consolidate::entry_text(date, entry),
        ),
{
    broadcast use Seq::filter_distributes_over_add;

    let line = crate::consolidate::entry_text(date, entry);
    assert(no_newline(line)) by {
        assert forall|k: int| 0 <= k < line.len() implies line[k] != '\n' by {
            if 2 <= k < 2 + date.len() {
                assert(line[k] == date[k - 2]);
            } else if k >= 4 + date.len() {
                assert(line[k] == entry[k - 4 - date.len()]);
            }
        }
    }
    assert(no_trailing_cr(line)) by {
        if entry.len() > 0 {
            assert(line.last() == entry.last());
        }
    }
    lemma_lines_single(line);
    assert(crate::text::strip_cr(line) == line);
    let tail = line + seq!['\n'];
    let pred = |l: Seq<char>| is_entry_line(l);
    reveal(Seq::filter);
    assert(seq![line].filter(pred) =~= seq![line]) by {
        assert(seq![line].drop_last() =~= Seq::<Seq<char>>::empty());
        assert(Seq::<Seq<char>>::empty().filter(pred) =~= Seq::<Seq<char>>::empty());
        assert(is_entry_line(line)) by {
            assert(line.take(2) =~= entry_marker());
        }
    }
    if is_new {
        let h1 = seq!['#', ' '] + topic + seq!['\n'];
        let h2 = seq!['\n'];
        let header = seq!['#', ' '] + topic + seq!['\n', '\n'];
        assert(header =~= h1 + h2);
        assert(content + appended_text(is_new, topic, date, entry) =~= content + (h1 + (h2 + tail)));
        let hl = seq!['#', ' '] + topic;
        assert(no_newline(hl)) by {
            assert forall|k: int| 0 <= k < hl.len() implies hl[k] != '\n' by {
                if k >= 2 {
                    assert(hl[k] == topic[k - 2]);
                }
            }
        }
        assert(h1 =~= hl + seq!['\n']);
        lemma_lines_single(hl);
        assert(Seq::<char>::empty() + seq!['\n'] =~= h2);
        lemma_lines_single(Seq::<char>::empty());
        assert(crate::text::strip_cr(Seq::<char>::empty()) =~= Seq::<char>::empty());
        lemma_lines_concat(h2, tail);
        lemma_lines_concat(h1, h2 + tail);
        lemma_lines_concat(content, h1 + (h2 + tail));
        let first = crate::text::strip_cr(hl);
        assert(!is_entry_line(first)) by {
            assert(first[0] == '#');
            if first.len() >= 2 {
                assert(first.take(2)[0] == '#');
            }
        }
        assert(seq![first].filter(pred) =~= Seq::<Seq<char>>::empty()) by {
            assert(seq![first].drop_last() =~= Seq::<Seq<char>>::empty());
            assert(seq![first].last() == first);
            assert(!pred(first));
            assert(Seq::<Seq<char>>::empty().filter(pred) =~= Seq::<Seq<char>>::empty());
        }
        assert(seq![Seq::<char>::empty()].filter(pred) =~= Seq::<Seq<char>>::empty()) by {
            assert(seq![Seq::<char>::empty()].drop_last() =~= Seq::<Seq<char>>::empty());
        }
        assert(lines(h1 + (h2 + tail)) =~= seq![first] + (seq![Seq::<char>::empty()] + seq![line]));
        assert(entries_of(content + appended_text(is_new, topic, date, entry)) =~= entries_of(
            content,
        ).push(line));
    } else {
        assert(content + appended_text(is_new, topic, date, entry) =~= content + tail);
        lemma_lines_concat(content, tail);
        assert(entries_of(content + appended_text(is_new, topic, date, entry)) =~= entries_of(
            content,
        ).push(line));
    }
}

/// Forgetting keeps exactly the entries that do not mention the search text,
/// in their order: the entries of the rewritten file are the old entries
/// whose lowercased line does not contain the lowercased search text (for a
/// file none of whose lines ends with a carriage return).
pub proof fn lemma_forget_keeps_the_rest(content: Seq<char>, search: Seq<char>)
    requires
        clean_lines(content),
    ensures
        entries_of(file_text(drop_trailing_empty(kept_lines(content, search)))) == entries_of(
            content,
        ).filter(|l: Seq<char>| !contains_seq(unicode_lowercase(l), unicode_lowercase(search))),
        forall|i: int| 0 <= i < removed_lines(content, search).len() ==> mentions(
            #[trigger] removed_lines(content, search)[i],
            unicode_lowercase(search),
        ),
{
    let q = unicode_lowercase(search);
    let all = lines(content);
    let kept = kept_lines(content, search);
    let dropped = drop_trailing_empty(kept);
    let pred = |l: Seq<char>| is_entry_line(l);
    lemma_lines_have_no_newline(content);
    lemma_filter_entries_of_dropped(kept);
    lemma_filter_filter_entries(all, q);
    broadcast use Seq::lemma_filter_contains_rev, Seq::lemma_filter_pred;

    assert forall|i: int| 0 <= i < dropped.len() implies no_newline(#[trigger] dropped[i])
        && no_trailing_cr(dropped[i]) by {
        let x = dropped[i];
        assert(kept.contains(x));
        assert(all.contains(x));
        let j = choose|j: int| 0 <= j < all.len() && all[j] == x;
        assert(no_newline(all[j]));
        assert(no_trailing_cr(all[j]));
    }
    if dropped.len() > 0 {
        lemma_file_text_lines(dropped);
    } else {
        assert(file_text(dropped) =~= Seq::<char>::empty() + seq!['\n']);
        lemma_lines_single(Seq::<char>::empty());
        assert(crate::text::strip_cr(Seq::<char>::empty()) =~= Seq::<char>::empty());
        reveal(Seq::filter);
        let one = seq![Seq::<char>::empty()];
        assert(one.drop_last() =~= Seq::<Seq<char>>::empty());
        assert(one.last() == Seq::<char>::empty());
        assert(!pred(Seq::<char>::empty()));
        assert(Seq::<Seq<char>>::empty().filter(pred) =~= Seq::<Seq<char>>::empty());
        assert(one.filter(pred) =~= Seq::<Seq<char>>::empty());
        assert(kept.filter(pred).len() == 0);
        assert(entries_of(content).filter(
            |l: Seq<char>| !contains_seq(unicode_lowercase(l), q),
        ) =~= Seq::<Seq<char>>::empty());
    }
}

proof fn lemma_filter_split_entries(ls: Seq<Seq<char>>, p: spec_fn(Seq<char>) -> bool)
    ensures
        ls.filter(|l: Seq<char>| !(is_entry_line(l) && p(l))).filter(|l: Seq<char>| is_entry_line(l))
            == ls.filter(|l: Seq<char>| is_entry_line(l)).filter(|l: Seq<char>| !p(l)),
        ls.filter(|l: Seq<char>| is_entry_line(l) && p(l)) == ls.filter(
            |l: Seq<char>| is_entry_line(l),
        ).filter(p),
    decreases ls.len(),
{
    reveal(Seq::filter);
    if ls.len() > 0 {
        let init = ls.drop_last();
        let x = ls.last();
        lemma_filter_split_entries(init, p);
        let nm = |l: Seq<char>| !(is_entry_line(l) && p(l));
        let mm = |l: Seq<char>| is_entry_line(l) && p(l);
        let en = |l: Seq<char>| is_entry_line(l);
        let np = |l: Seq<char>| !p(l);
        let a = init.filter(nm);
        let b = init.filter(en);
        let c = init.filter(mm);
        if nm(x) {
            assert(ls.filter(nm) == a.push(x));
            assert(a.push(x).drop_last() =~= a);
            assert(a.push(x).last() == x);
        } else {
            assert(ls.filter(nm) == a);
        }
        if mm(x) {
            assert(ls.filter(mm) == c.push(x));
        } else {
            assert(ls.filter(mm) == c);
        }
        if en(x) {
            assert(ls.filter(en) == b.push(x));
            assert(b.push(x).drop_last() =~= b);
            assert(b.push(x).last() == x);
        } else {
            assert(ls.filter(en) == b);
        }
    }
}

proof fn lemma_filter_len_split(ls: Seq<Seq<char>>, p: spec_fn(Seq<char>) -> bool)
    ensures
        ls.filter(p).len() + ls.filter(|l: Seq<char>| !p(l)).len() == ls.len(),
    decreases ls.len(),
{
    reveal(Seq::filter);
    if ls.len() > 0 {
        lemma_filter_len_split(ls.drop_last(), p);
    }
}

/// Rewriting a file without the entry lines that satisfy `p` leaves exactly
/// the entries that do not (for a file none of whose lines ends with a
/// carriage return).
proof fn lemma_forget_by(content: Seq<char>, p: spec_fn(Seq<char>) -> bool)
    requires
        clean_lines(content),
    ensures
        entries_of(file_text(drop_trailing_empty(lines(content).filter(
            |l: Seq<char>| !(is_entry_line(l) && p(l)),
        )))) == entries_of(content).filter(|l: Seq<char>| !p(l)),
{
    let all = lines(content);
    let kept = all.filter(|l: Seq<char>| !(is_entry_line(l) && p(l)));
    let dropped = drop_trailing_empty(kept);
    let pred = |l: Seq<char>| is_entry_line(l);
    lemma_lines_have_no_newline(content);
    lemma_filter_entries_of_dropped(kept);
    lemma_filter_split_entries(all, p);
    broadcast use Seq::lemma_filter_contains_rev, Seq::lemma_filter_pred;

    assert forall|i: int| 0 <= i < dropped.len() implies no_newline(#[trigger] dropped[i])
        && no_trailing_cr(dropped[i]) by {
        let x = dropped[i];
        assert(kept.contains(x));
        assert(all.contains(x));
        let j = choose|j: int| 0 <= j < all.len() && all[j] == x;
        assert(no_newline(all[j]));
        assert(no_trailing_cr(all[j]));
    }
    if dropped.len() > 0 {
        lemma_file_text_lines(dropped);
    } else {
        assert(file_text(dropped) =~= Seq::<char>::empty() + seq!['\n']);
        lemma_lines_single(Seq::<char>::empty());
        assert(crate::text::strip_cr(Seq::<char>::empty()) =~= Seq::<char>::empty());
        reveal(Seq::filter);
        let one = seq![Seq::<char>::empty()];
        assert(one.drop_last() =~= Seq::<Seq<char>>::empty());
        assert(one.last() == Seq::<char>::empty());
        assert(!pred(Seq::<char>::empty()));
        assert(Seq::<Seq<char>>::empty().filter(pred) =~= Seq::<Seq<char>>::empty());
        assert(one.filter(pred) =~= Seq::<Seq<char>>::empty());
        assert(kept.filter(pred).len() == 0);
        assert(entries_of(content).filter(|l: Seq<char>| !p(l)) =~= Seq::<Seq<char>>::empty());
    }
}

/// Forgetting reports exactly the lines it takes out of the file: the
/// removed lines are the entries whose lowercased text contains the
/// lowercased search, in file order, and their number plus the number of
/// entries left in the rewritten file is the number of entries the file had
/// (for a file none of whose lines ends with a carriage return).
pub proof fn lemma_forget_reports_what_it_removes(content: Seq<char>, search: Seq<char>)
    requires
        clean_lines(content),
    ensures
        removed_lines(content, search) == entries_of(content).filter(
            |l: Seq<char>| contains_seq(unicode_lowercase(l), unicode_lowercase(search)),
        ),
        removed_lines(content, search).len() + entries_of(
            file_text(drop_trailing_empty(kept_lines(content, search))),
        ).len() == entries_of(content).len(),
{
    let q = unicode_lowercase(search);
    let p = |l: Seq<char>| contains_seq(unicode_lowercase(l), q);
    let all = lines(content);
    assert((|l: Seq<char>| mentions(l, q)) =~= (|l: Seq<char>| is_entry_line(l) && p(l)));
    assert((|l: Seq<char>| !mentions(l, q)) =~= (|l: Seq<char>| !(is_entry_line(l) && p(l))));
    lemma_filter_split_entries(all, p);
    lemma_forget_by(content, p);
    lemma_filter_len_split(entries_of(content), p);
}

/// The same for ASCII text and search, where lowercasing maps `A`..=`Z` to
/// `a`..=`z`: the removed lines are the entries whose lowercased text
/// contains the lowercased search, in file order, and with the entries left
/// they make up all the entries the file had.
pub proof fn lemma_forget_reports_what_it_removes_ascii(content: Seq<char>, search: Seq<char>)
    requires
        clean_lines(content),
    ensures
        removed_lines_ascii(content, search) == entries_of(content).filter(
            |l: Seq<char>| contains_seq(ascii_lower(l), ascii_lower(search)),
        ),
        entries_of(file_text(drop_trailing_empty(kept_lines_ascii(content, search)))) == entries_of(
            content,
        ).filter(|l: Seq<char>| !contains_seq(ascii_lower(l), ascii_lower(search))),
        removed_lines_ascii(content, search).len() + entries_of(
            file_text(drop_trailing_empty(kept_lines_ascii(content, search))),
        ).len() == entries_of(content).len(),
{
    let q = ascii_lower(search);
    let p = |l: Seq<char>| contains_seq(ascii_lower(l), q);
    let all = lines(content);
    assert((|l: Seq<char>| mentions_ascii(l, q)) =~= (|l: Seq<char>| is_entry_line(l) && p(l)));
    assert((|l: Seq<char>| !mentions_ascii(l, q)) =~= (|l: Seq<char>| !(is_entry_line(l) && p(l))));
    lemma_filter_split_entries(all, p);
    lemma_forget_by(content, p);
    lemma_filter_len_split(entries_of(content), p);
    assert((|l: Seq<char>| !p(l)) =~= (|l: Seq<char>| !contains_seq(ascii_lower(l), ascii_lower(search))));
}

// ---------------------------------------------------------------------------
// Listing topics
// ---------------------------------------------------------------------------

/// `a` comes strictly before `b` in the order of `String`'s `Ord`: the first
/// differing character decides by code point, and a proper prefix comes
/// first.
pub open spec fn name_lt(a: Seq<char>, b: Seq<char>) -> bool
    decreases a.len(),
{
    if a.len() == 0 {
        b.len() > 0
    } else if b.len() == 0 {
        false
    } else if a[0] != b[0] {
        a[0] < b[0]
    } else {
        name_lt(a.drop_first(), b.drop_first())
    }
}

/// The order of topic names is the lexicographic order by code point: `a`
/// comes before `b` exactly when, after their longest common prefix, `a` has
/// ended while `b` goes on, or `a`'s next character is smaller than `b`'s.
pub proof fn lemma_name_lt_lexicographic(a: Seq<char>, b: Seq<char>, k: int)
    requires
        0 <= k <= a.len(),
        k <= b.len(),
        a.take(k) == b.take(k),
        k == a.len() || k == b.len() || a[k] != b[k],
    ensures
        name_lt(a, b) == ((k == a.len() && k < b.len()) || (k < a.len() && k < b.len() && a[k]
            < b[k])),
    decreases k,
{
    if k > 0 {
        assert(a[0] == a.take(k)[0]);
        assert(b[0] == b.take(k)[0]);
        assert(a.drop_first().take(k - 1) =~= a.take(k).drop_first());
        assert(b.drop_first().take(k - 1) =~= b.take(k).drop_first());
        lemma_name_lt_lexicographic(a.drop_first(), b.drop_first(), k - 1);
        if k < a.len() {
            assert(a.drop_first()[k - 1] == a[k]);
        }
        if k < b.len() {
            assert(b.drop_first()[k - 1] == b[k]);
        }
    }
}

proof fn lemma_name_lt_irreflexive(a: Seq<char>)
    ensures
        !name_lt(a, a),
    decreases a.len(),
{
    if a.len() > 0 {
        lemma_name_lt_irreflexive(a.drop_first());
    }
}

proof fn lemma_name_lt_total(a: Seq<char>, b: Seq<char>)
    ensures
        a == b || name_lt(a, b) || name_lt(b, a),
        !(name_lt(a, b) && name_lt(b, a)),
        !name_lt(a, a),
    decreases a.len(),
{
    lemma_name_lt_irreflexive(a);
    if a.len() > 0 && b.len() > 0 {
        lemma_name_lt_total(a.drop_first(), b.drop_first());
        if a[0] == b[0] && a.drop_first() == b.drop_first() {
            assert(a =~= seq![a[0]] + a.drop_first());
            assert(b =~= seq![b[0]] + b.drop_first());
        }
    } else if a.len() == 0 && b.len() == 0 {
        assert(a =~= b);
    }
}

proof fn lemma_name_lt_trans(a: Seq<char>, b: Seq<char>, c: Seq<char>)
    requires
        name_lt(a, b),
        name_lt(b, c),
    ensures
        name_lt(a, c),
    decreases a.len(),
{
    if a.len() > 0 && b.len() > 0 && c.len() > 0 {
        if a[0] == b[0] && b[0] == c[0] {
            lemma_name_lt_trans(a.drop_first(), b.drop_first(), c.drop_first());
        }
    }
}

/// The topics are in order of their names.
pub open spec fn sorted_by_name(s: Seq<(String, usize)>) -> bool {
    forall|i: int, j: int| 0 <= i < j < s.len() ==> !name_lt(#[trigger] s[j].0@, #[trigger] s[i].0@)
}

fn name_lt_exec(a: &[char], b: &[char]) -> (r: bool)
    ensures
        r == name_lt(a@, b@),
{
    let mut i: usize = 0;
    assert(a@.skip(0) =~= a@);
    assert(b@.skip(0) =~= b@);
    while i < a.len() && i < b.len() && a[i] == b[i]
        invariant
            0 <= i <= a@.len(),
            i <= b@.len(),
            name_lt(a@, b@) == name_lt(a@.skip(i as int), b@.skip(i as int)),
        decreases a@.len() - i,
    {
        assert(a@.skip(i as int).drop_first() =~= a@.skip(i + 1 as int));
        assert(b@.skip(i as int).drop_first() =~= b@.skip(i + 1 as int));
        assert(a@.skip(i as int)[0] == a@[i as int]);
        assert(b@.skip(i as int)[0] == b@[i as int]);
        i = i + 1;
    }
    if i < a.len() && i < b.len() {
        assert(a@.skip(i as int)[0] == a@[i as int]);
        assert(b@.skip(i as int)[0] == b@[i as int]);
    }
    if i == a.len() {
        i < b.len()
    } else if i == b.len() {
        false
    } else {
        a[i] < b[i]
    }
}

fn name_before(a: &[char], b: &String) -> (r: bool)
    ensures
        r == name_lt(a@, b@),
{
    let bc = chars_of(b.as_str());
    name_lt_exec(a, bc.as_slice())
}

/// The entries of `s` named `n`, in their order in `s`.
pub open spec fn named(s: Seq<(String, usize)>, n: Seq<char>) -> Seq<(String, usize)>
    decreases s.len(),
{
    if s.len() == 0 {
        Seq::empty()
    } else {
        named(s.drop_last(), n) + if s.last().0@ == n {
            seq![s.last()]
        } else {
            Seq::empty()
        }
    }
}

proof fn lemma_named_concat(a: Seq<(String, usize)>, b: Seq<(String, usize)>, n: Seq<char>)
    ensures
        named(a + b, n) == named(a, n) + named(b, n),
    decreases b.len(),
{
    if b.len() == 0 {
        assert(a + b =~= a);
        assert(named(a, n) + named(b, n) =~= named(a, n));
    } else {
        lemma_named_concat(a, b.drop_last(), n);
        assert((a + b).drop_last() =~= a + b.drop_last());
        assert((a + b).last() == b.last());
        assert(named(a + b, n) =~= named(a, n) + named(b, n));
    }
}

proof fn lemma_named_none(b: Seq<(String, usize)>, n: Seq<char>)
    requires
        forall|i: int| 0 <= i < b.len() ==> (#[trigger] b[i]).0@ != n,
    ensures
        named(b, n) == Seq::<(String, usize)>::empty(),
    decreases b.len(),
{
    if b.len() > 0 {
        assert forall|i: int| 0 <= i < b.drop_last().len() implies (#[trigger] b.drop_last()[i]).0@ != n by {
            assert(b.drop_last()[i] == b[i]);
        }
        lemma_named_none(b.drop_last(), n);
        assert(b.last() == b[b.len() - 1]);
        assert(named(b, n) =~= Seq::<(String, usize)>::empty());
    }
}

proof fn lemma_named_one(x: (String, usize), n: Seq<char>)
    ensures
        named(seq![x], n) == if x.0@ == n {
            seq![x]
        } else {
            Seq::<(String, usize)>::empty()
        },
{
    assert(seq![x].drop_last() =~= Seq::<(String, usize)>::empty());
    assert(seq![x].last() == x);
    assert(named(Seq::<(String, usize)>::empty(), n) =~= Seq::<(String, usize)>::empty());
    assert(named(seq![x], n) == named(seq![x].drop_last(), n) + (if x.0@ == n {
        seq![x]
    } else {
        Seq::<(String, usize)>::empty()
    }));
    assert(named(seq![x], n) =~= (if x.0@ == n {
        seq![x]
    } else {
        Seq::<(String, usize)>::empty()
    }));
}

/// The topics with their entry counts, in order of their names (a stable
/// sort, as `sort_by` on the names is).
pub fn sort_topics(v: Vec<(String, usize)>) -> (r: Vec<(String, usize)>)
    ensures
        sorted_by_name(r@),
        r@.to_multiset() == v@.to_multiset(),
        forall|n: Seq<char>| #[trigger] named(r@, n) == named(v@, n),
{
    broadcast use vstd::seq_lib::group_to_multiset_ensures, vstd::seq_lib::to_multiset_insert, vstd::multiset::group_multiset_axioms;

    let mut rest = v;
    let mut out: Vec<(String, usize)> = Vec::new();
    let ghost orig = rest@;
    let ghost mut done: int = 0;
    assert(orig.skip(0) =~= orig);
    assert forall|n: Seq<char>| #[trigger] named(out@, n) == named(orig.take(0), n) by {
        assert(orig.take(0) =~= Seq::<(String, usize)>::empty());
        assert(out@ =~= Seq::<(String, usize)>::empty());
    }
    assert(out@.to_multiset() =~= vstd::multiset::Multiset::empty()) by {
        assert forall|a: (String, usize)| out@.to_multiset().count(a) == 0 by {
            assert(!out@.contains(a));
        }
    }
    while rest.len() > 0
        invariant
            sorted_by_name(out@),
            out@.to_multiset().add(rest@.to_multiset()) == orig.to_multiset(),
            0 <= done <= orig.len(),
            rest@ == orig.skip(done),
            forall|n: Seq<char>| #[trigger] named(out@, n) == named(orig.take(done), n),
        decreases rest@.len(),
    {
        let ghost r0 = rest@;
        let x = rest.remove(0);
        let xc = chars_of(x.0.as_str());
        let mut k: usize = 0;
        while k < out.len() && !name_before(xc.as_slice(), &out[k].0)
            invariant
                0 <= k <= out@.len(),
                xc@ == x.0@,
                forall|i: int| 0 <= i < k ==> !name_lt(xc@, #[trigger] out@[i].0@),
            decreases out@.len() - k,
        {
            k = k + 1;
        }
        let ghost before = out@;
        proof {
            assert forall|j: int| k <= j < before.len() implies name_lt(x.0@, #[trigger] before[j].0@) by {
                if k < before.len() {
                    if j > k {
                        lemma_name_lt_total(before[k as int].0@, before[j].0@);
                        if name_lt(before[k as int].0@, before[j].0@) {
                            lemma_name_lt_trans(x.0@, before[k as int].0@, before[j].0@);
                        } else {
                            assert(before[k as int].0@ == before[j].0@);
                        }
                    }
                }
            }
        }
        out.insert(k, x);
        proof {
            let after = out@;
            assert forall|i: int, j: int| 0 <= i < j < after.len() implies !name_lt(
                #[trigger] after[j].0@,
                #[trigger] after[i].0@,
            ) by {
                if j < k {
                    assert(after[i] == before[i] && after[j] == before[j]);
                } else if j == k {
                    assert(after[i] == before[i]);
                    lemma_name_lt_total(x.0@, before[i].0@);
                } else if i == k {
                    assert(after[j] == before[j - 1]);
                    lemma_name_lt_total(x.0@, before[j - 1].0@);
                } else if i < k {
                    assert(after[i] == before[i] && after[j] == before[j - 1]);
                } else {
                    assert(after[i] == before[i - 1] && after[j] == before[j - 1]);
                }
            }
            assert(r0.remove(0) == rest@);
            assert(r0.to_multiset() == rest@.to_multiset().insert(r0[0])) by {
                vstd::seq_lib::to_multiset_remove(r0, 0);
                r0.to_multiset_ensures();
                assert(r0.remove(0).to_multiset() == r0.to_multiset().remove(r0[0]));
                assert(r0.contains(r0[0]));
                assert(r0.to_multiset().count(r0[0]) > 0);
                assert(r0.to_multiset() =~= r0.to_multiset().remove(r0[0]).insert(r0[0]));
            }
            assert(out@ == before.insert(k as int, x));
            assert(x == orig[done]) by {
                assert(r0[0] == orig.skip(done)[0]);
            }
            assert forall|n: Seq<char>| #[trigger] named(out@, n) == named(orig.take(done + 1), n) by {
                let lo = before.take(k as int);
                let hi = before.skip(k as int);
                assert(before =~= lo + hi);
                assert(out@ =~= lo + (seq![x] + hi));
                lemma_named_concat(lo, seq![x] + hi, n);
                lemma_named_concat(seq![x], hi, n);
                lemma_named_concat(lo, hi, n);
                lemma_named_one(x, n);
                if x.0@ == n {
                    assert forall|i: int| 0 <= i < hi.len() implies (#[trigger] hi[i]).0@ != n by {
                        assert(hi[i] == before[k + i]);
                        assert(name_lt(x.0@, before[k + i].0@));
                        lemma_name_lt_irreflexive(x.0@);
                    }
                    lemma_named_none(hi, n);
                    assert(named(hi, n) =~= Seq::<(String, usize)>::empty());
                }
                assert(orig.take(done + 1).drop_last() =~= orig.take(done));
                assert(orig.take(done + 1).last() == x);
                assert(named(out@, n) =~= named(orig.take(done + 1), n));
            }
            assert(rest@ =~= orig.skip(done + 1));
            done = done + 1;
            vstd::seq_lib::to_multiset_insert(before, k as int, x);
            assert(out@.to_multiset() == before.to_multiset().insert(x));
            assert(out@.to_multiset().add(rest@.to_multiset()) =~= before.to_multiset().add(
                r0.to_multiset(),
            ));
        }
    }
    assert(rest@.to_multiset() =~= vstd::multiset::Multiset::empty()) by {
        assert forall|a: (String, usize)| rest@.to_multiset().count(a) == 0 by {
            assert(!rest@.contains(a));
        }
    }
    assert(out@.to_multiset().add(rest@.to_multiset()) =~= out@.to_multiset());
    out
}

proof fn lemma_filter_prepend(x: Seq<char>, rest: Seq<Seq<char>>)
    ensures
        (seq![x] + rest).filter(|l: Seq<char>| is_entry_line(l)) == if is_entry_line(x) {
            seq![x] + rest.filter(|l: Seq<char>| is_entry_line(l))
        } else {
            rest.filter(|l: Seq<char>| is_entry_line(l))
        },
{
    let pred = |l: Seq<char>| is_entry_line(l);
    Seq::filter_distributes_over_add(seq![x], rest, pred);
    reveal(Seq::filter);
    assert(seq![x].drop_last() =~= Seq::<Seq<char>>::empty());
    assert(Seq::<Seq<char>>::empty().filter(pred) =~= Seq::<Seq<char>>::empty());
    assert(seq![x].last() == x);
    if is_entry_line(x) {
        assert(seq![x].filter(pred) =~= seq![x]);
    } else {
        assert(seq![x].filter(pred) =~= Seq::<Seq<char>>::empty());
        assert(Seq::<Seq<char>>::empty() + rest.filter(pred) =~= rest.filter(pred));
    }
}

proof fn lemma_without_line_entries(ls: Seq<Seq<char>>, old: Seq<char>)
    requires
        is_entry_line(old),
    ensures
        without_line(ls, old).filter(|l: Seq<char>| is_entry_line(l)) == without_line(
            ls.filter(|l: Seq<char>| is_entry_line(l)),
            old,
        ),
        forall|i: int| 0 <= i < without_line(ls, old).len() ==> ls.contains(#[trigger] without_line(ls, old)[i]),
    decreases ls.len(),
{
    let pred = |l: Seq<char>| is_entry_line(l);
    if ls.len() > 0 {
        let x = ls[0];
        let rest = ls.drop_first();
        assert(ls =~= seq![x] + rest);
        lemma_filter_prepend(x, rest);
        lemma_without_line_entries(rest, old);
        if x == old {
            assert(without_line(ls, old) == rest);
            assert(ls.filter(pred) == seq![x] + rest.filter(pred));
            assert((seq![x] + rest.filter(pred))[0] == x);
            assert((seq![x] + rest.filter(pred)).drop_first() =~= rest.filter(pred));
        } else {
            lemma_filter_prepend(x, without_line(rest, old));
            if is_entry_line(x) {
                assert((seq![x] + rest.filter(pred))[0] == x);
                assert((seq![x] + rest.filter(pred)).drop_first() =~= rest.filter(pred));
            }
        }
        let w = without_line(ls, old);
        assert forall|i: int| 0 <= i < w.len() implies ls.contains(#[trigger] w[i]) by {
            if x == old {
                assert(w[i] == ls[i + 1]);
            } else if i == 0 {
                assert(w[0] == ls[0]);
            } else {
                let wr = without_line(rest, old);
                assert(w[i] == wr[i - 1]);
                assert(rest.contains(wr[i - 1]));
                let j = choose|j: int| 0 <= j < rest.len() && rest[j] == wr[i - 1];
                assert(ls[j + 1] == rest[j]);
            }
        }
    }
}

proof fn lemma_replaced_lines_entries(ls: Seq<Seq<char>>, old: Seq<char>, new: Seq<char>)
    requires
        is_entry_line(old),
        is_entry_line(new),
    ensures
        replaced_lines(ls, old, new).filter(|l: Seq<char>| is_entry_line(l)) == replaced_lines(
            ls.filter(|l: Seq<char>| is_entry_line(l)),
            old,
            new,
        ),
        forall|i: int| 0 <= i < replaced_lines(ls, old, new).len() ==> (ls.contains(#[trigger] replaced_lines(ls, old, new)[i]) || replaced_lines(ls, old, new)[i] == new),
    decreases ls.len(),
{
    let pred = |l: Seq<char>| is_entry_line(l);
    if ls.len() > 0 {
        let x = ls[0];
        let rest = ls.drop_first();
        assert(ls =~= seq![x] + rest);
        lemma_filter_prepend(x, rest);
        lemma_replaced_lines_entries(rest, old, new);
        if x == old {
            lemma_filter_prepend(new, rest);
            assert(ls.filter(pred) == seq![x] + rest.filter(pred));
            assert((seq![x] + rest.filter(pred))[0] == x);
            assert((seq![x] + rest.filter(pred)).drop_first() =~= rest.filter(pred));
        } else {
            lemma_filter_prepend(x, replaced_lines(rest, old, new));
            if is_entry_line(x) {
                assert((seq![x] + rest.filter(pred))[0] == x);
                assert((seq![x] + rest.filter(pred)).drop_first() =~= rest.filter(pred));
            }
        }
        let w = replaced_lines(ls, old, new);
        assert forall|i: int| 0 <= i < w.len() implies (ls.contains(#[trigger] w[i]) || w[i] == new) by {
            if x == old {
                if i > 0 {
                    assert(w[i] == ls[i]);
                }
            } else if i == 0 {
                assert(w[0] == ls[0]);
            } else {
                let wr = replaced_lines(rest, old, new);
                assert(w[i] == wr[i - 1]);
                if wr[i - 1] != new {
                    assert(rest.contains(wr[i - 1]));
                    let j = choose|j: int| 0 <= j < rest.len() && rest[j] == wr[i - 1];
                    assert(ls[j + 1] == rest[j]);
                }
            }
        }
    }
}

proof fn lemma_entries_of_file_text(ls: Seq<Seq<char>>)
    requires
        forall|i: int| 0 <= i < ls.len() ==> no_newline(#[trigger] ls[i]),
        forall|i: int| 0 <= i < ls.len() ==> no_trailing_cr(#[trigger] ls[i]),
    ensures
        entries_of(file_text(ls)) == ls.filter(|l: Seq<char>| is_entry_line(l)),
{
    let pred = |l: Seq<char>| is_entry_line(l);
    if ls.len() > 0 {
        lemma_file_text_lines(ls);
    } else {
        assert(file_text(ls) =~= Seq::<char>::empty() + seq!['\n']);
        lemma_lines_single(Seq::<char>::empty());
        assert(crate::text::strip_cr(Seq::<char>::empty()) =~= Seq::<char>::empty());
        lemma_filter_prepend(Seq::<char>::empty(), Seq::empty());
        assert(seq![Seq::<char>::empty()] + Seq::<Seq<char>>::empty() =~= seq![Seq::<char>::empty()]);
        reveal(Seq::filter);
        assert(ls.filter(pred) =~= Seq::<Seq<char>>::empty());
        assert(Seq::<Seq<char>>::empty().filter(pred) =~= Seq::<Seq<char>>::empty());
    }
}

/// Superseding an entry rewrites its topic file so that its entries are the
/// old ones without the first copy of the superseded line, followed by the
/// new entry (for a file none of whose lines ends with a carriage return, and
/// topic, date and entry texts that hold no line feed).
pub proof fn lemma_supersede_rewrites(
    content: Seq<char>,
    old: Seq<char>,
    topic: Seq<char>,
    date: Seq<char>,
    entry: Seq<char>,
)
    requires
        clean_lines(content),
        is_entry_line(old),
        no_newline(topic),
        no_newline(date),
        no_newline(entry),
        no_trailing_cr(entry),
    ensures
        entries_of(file_text(without_line(lines(content), old)) + appended_text(false, topic, date, entry))
            == without_line(entries_of(content), old).push(crate::consolidate::entry_text(date, entry)),
{
    let ls = lines(content);
    let w = without_line(ls, old);
    lemma_lines_have_no_newline(content);
    lemma_without_line_entries(ls, old);
    assert forall|i: int| 0 <= i < w.len() implies no_newline(#[trigger] w[i]) && no_trailing_cr(w[i]) by {
        assert(ls.contains(w[i]));
        let j = choose|j: int| 0 <= j < ls.len() && ls[j] == w[i];
        assert(no_newline(ls[j]));
        assert(no_trailing_cr(ls[j]));
    }
    lemma_entries_of_file_text(w);
    let f = file_text(w);
    assert(f.last() == '\n');
    lemma_append_then_read(f, false, topic, date, entry);
}

/// Reaffirming rewrites the topic file so that its entries are the old ones
/// with the first copy of the old line replaced by the new one, in place
/// (for a file none of whose lines ends with a carriage return, and a new
/// entry line without line feeds or a trailing carriage return).
pub proof fn lemma_reaffirm_rewrites(content: Seq<char>, old: Seq<char>, new: Seq<char>)
    requires
        clean_lines(content),
        is_entry_line(old),
        is_entry_line(new),
        no_newline(new),
        no_trailing_cr(new),
    ensures
        entries_of(file_text(replaced_lines(lines(content), old, new))) == replaced_lines(
            entries_of(content),
            old,
            new,
        ),
{
    let ls = lines(content);
    let w = replaced_lines(ls, old, new);
    lemma_lines_have_no_newline(content);
    lemma_replaced_lines_entries(ls, old, new);
    assert forall|i: int| 0 <= i < w.len() implies no_newline(#[trigger] w[i]) && no_trailing_cr(w[i]) by {
        if w[i] != new {
            assert(ls.contains(w[i]));
            let j = choose|j: int| 0 <= j < ls.len() && ls[j] == w[i];
            assert(no_newline(ls[j]));
            assert(no_trailing_cr(ls[j]));
        }
    }
    lemma_entries_of_file_text(w);
}

} // verus!
