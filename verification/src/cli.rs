//! The requests that the command line makes: which topic, entry, query or
//! search text a command is about, and the usage errors.
use vstd::prelude::*;
use crate::decimal::{parse_usize, parse_usize_spec};
use crate::store::{normalize_topic, topic_from_lowered};
use crate::text::{chars_of, extend_chars, is_whitespace, string_of, unicode_lowercase, unicode_whitespace};

verus! {

/// Why a command's arguments were refused.
#[derive(Debug, Clone, Copy, PartialEq, Eq, Structural)]
pub enum UsageError {
    WriteUsage,
    EmptyTopic,
    EmptyEntry,
    ReadUsage,
    SearchUsage,
    InvalidLimit,
    ForgetUsage,
}

/// What `write` was asked to do.
pub struct WriteRequest {
    pub topic: String,
    pub entry: String,
    pub force: bool,
}

/// What `search` was asked to do.
pub struct SearchRequest {
    pub query: String,
    pub limit: usize,
    pub semantic: bool,
}

pub open spec fn force_flag() -> Seq<char> {
    seq!['-', '-', 'f', 'o', 'r', 'c', 'e']
}

pub open spec fn limit_flag() -> Seq<char> {
    seq!['-', '-', 'l', 'i', 'm', 'i', 't']
}

pub open spec fn semantic_flag() -> Seq<char> {
    seq!['-', '-', 's', 'e', 'm', 'a', 'n', 't', 'i', 'c']
}

/// Words joined by single spaces (`[&str]::join(" ")`).
pub open spec fn join_words(ws: Seq<Seq<char>>) -> Seq<char>
    decreases ws.len(),
{
    if ws.len() == 0 {
        Seq::empty()
    } else if ws.len() == 1 {
        ws[0]
    } else {
        join_words(ws.drop_last()) + seq![' '] + ws.last()
    }
}

/// Every character is whitespace (so `str::trim` leaves nothing).
pub open spec fn is_blank(s: Seq<char>) -> bool {
    forall|i: int| 0 <= i < s.len() ==> unicode_whitespace(#[trigger] s[i])
}

pub open spec fn args_view(args: Seq<String>) -> Seq<Seq<char>> {
    args.map_values(|a: String| a@)
}

/// The arguments of `write` other than `--force`.
pub open spec fn without_force(args: Seq<Seq<char>>) -> Seq<Seq<char>> {
    args.filter(|a: Seq<char>| a != force_flag())
}

/// What `write <topic> <entry words..> [--force]` asks for: the normalized
/// topic, the entry words joined by spaces, and whether `--force` was
/// given anywhere.
pub open spec fn write_request_spec(args: Seq<Seq<char>>) -> Result<(Seq<char>, Seq<char>, bool), UsageError> {
    let rest = without_force(args);
    if rest.len() < 2 {
        Err(UsageError::WriteUsage)
    } else {
        let topic = topic_from_lowered(unicode_lowercase(rest[0]));
        let entry = join_words(rest.drop_first());
        if topic.len() == 0 {
            Err(UsageError::EmptyTopic)
        } else if is_blank(entry) {
            Err(UsageError::EmptyEntry)
        } else {
            Ok((topic, entry, args.contains(force_flag())))
        }
    }
}

/// The options and query words of `search`, read left to right: `--limit N`
/// (the last one wins; an `N` that is not a `usize` is refused),
/// `--semantic`, and anything else as a query word (a trailing `--limit`
/// too).
pub open spec fn scan_search(args: Seq<Seq<char>>) -> Result<(Option<usize>, bool, Seq<Seq<char>>), UsageError>
    decreases args.len(),
{
    if args.len() == 0 {
        Ok((None, false, Seq::empty()))
    } else if args[0] == limit_flag() && args.len() >= 2 {
        match parse_usize_spec(args[1]) {
            None => Err(UsageError::InvalidLimit),
            Some(n) => match scan_search(args.skip(2)) {
                Err(e) => Err(e),
                Ok((l, s, q)) => Ok((if l is Some { l } else { Some(n) }, s, q)),
            },
        }
    } else if args[0] == semantic_flag() {
        match scan_search(args.drop_first()) {
            Err(e) => Err(e),
            Ok((l, s, q)) => Ok((l, true, q)),
        }
    } else {
        match scan_search(args.drop_first()) {
            Err(e) => Err(e),
            Ok((l, s, q)) => Ok((l, s, seq![args[0]] + q)),
        }
    }
}

/// What `search <query..> [--limit N] [--semantic]` asks for: the query
/// words joined by spaces, the limit (10 unless given), and whether the
/// semantic path was asked for.
pub open spec fn search_request_spec(args: Seq<Seq<char>>) -> Result<(Seq<char>, usize, bool), UsageError> {
    if args.len() == 0 {
        Err(UsageError::SearchUsage)
    } else {
        match scan_search(args) {
            Err(e) => Err(e),
            Ok((l, s, q)) => Ok((join_words(q), if l is Some { l->0 } else { 10usize }, s)),
        }
    }
}

proof fn lemma_contains_push(s: Seq<Seq<char>>, a: Seq<char>, x: Seq<char>)
    ensures
        s.push(a).contains(x) == (s.contains(x) || a == x),
{
    if s.contains(x) {
        let k = choose|k: int| 0 <= k < s.len() && s[k] == x;
        assert(s.push(a)[k] == x);
    }
    if a == x {
        assert(s.push(a)[s.len() as int] == x);
    }
    if s.push(a).contains(x) {
        let k = choose|k: int| 0 <= k < s.push(a).len() && s.push(a)[k] == x;
        if k < s.len() {
            assert(s[k] == x);
        }
    }
}

fn chars_eq_lit(a: &String, lit: &[char]) -> (r: bool)
    ensures
        r == (a@ == lit@),
{
    let ac = chars_of(a.as_str());
    crate::text::same_chars(ac.as_slice(), lit)
}

fn force_chars() -> (r: Vec<char>)
    ensures
        r@ == force_flag(),
{
    let v = vec!['-', '-', 'f', 'o', 'r', 'c', 'e'];
    assert(v@ =~= force_flag());
    v
}

fn limit_chars() -> (r: Vec<char>)
    ensures
        r@ == limit_flag(),
{
    let v = vec!['-', '-', 'l', 'i', 'm', 'i', 't'];
    assert(v@ =~= limit_flag());
    v
}

fn semantic_chars() -> (r: Vec<char>)
    ensures
        r@ == semantic_flag(),
{
    let v = vec!['-', '-', 's', 'e', 'm', 'a', 'n', 't', 'i', 'c'];
    assert(v@ =~= semantic_flag());
    v
}

/// The words joined by single spaces.
pub fn join_with_spaces(ws: &Vec<String>) -> (r: String)
    ensures
        r@ == join_words(args_view(ws@)),
{
    let ghost v = args_view(ws@);
    let mut out: Vec<char> = Vec::new();
    let mut i: usize = 0;
    while i < ws.len()
        invariant
            0 <= i <= ws@.len(),
            v == args_view(ws@),
            out@ == join_words(v.take(i as int)),
        decreases ws@.len() - i,
    {
        assert(v.take(i + 1 as int).drop_last() =~= v.take(i as int));
        assert(v.take(i + 1 as int).last() == ws@[i as int]@);
        if i > 0 {
            out.push(' ');
        } else {
            assert(v.take(0) =~= Seq::<Seq<char>>::empty());
        }
        extend_chars(&mut out, chars_of(ws[i].as_str()).as_slice());
        i = i + 1;
        assert(out@ =~= join_words(v.take(i as int)));
    }
    assert(v.take(ws@.len() as int) =~= v);
    string_of(out.as_slice())
}

fn blank(s: &String) -> (r: bool)
    ensures
        r == is_blank(s@),
{
    let cs = chars_of(s.as_str());
    let mut i: usize = 0;
    while i < cs.len()
        invariant
            0 <= i <= cs@.len(),
            cs@ == s@,
            forall|k: int| 0 <= k < i ==> unicode_whitespace(#[trigger] cs@[k]),
        decreases cs@.len() - i,
    {
        if !is_whitespace(cs[i]) {
            return false;
        }
        i = i + 1;
    }
    true
}

/// Reads the arguments of `write`.
pub fn write_request(args: &Vec<String>) -> (r: Result<WriteRequest, UsageError>)
    ensures
        match write_request_spec(args_view(args@)) {
            Ok((t, e, f)) => r matches Ok(w) && w.topic@ == t && w.entry@ == e && w.force == f,
            Err(e) => r matches Err(x) && x == e,
        },
{
    let ghost av = args_view(args@);
    let flag = force_chars();
    let mut force = false;
    let mut rest: Vec<String> = Vec::new();
    let mut i: usize = 0;
    while i < args.len()
        invariant
            0 <= i <= args@.len(),
            av == args_view(args@),
            flag@ == force_flag(),
            args_view(rest@) == av.take(i as int).filter(|a: Seq<char>| a != force_flag()),
            force == av.take(i as int).contains(force_flag()),
        decreases args@.len() - i,
    {
        let ghost prev = args_view(rest@);
        let ghost ai = av[i as int];
        assert(ai == args@[i as int]@);
        assert(av.take(i + 1 as int).drop_last() =~= av.take(i as int));
        assert(av.take(i + 1 as int) =~= av.take(i as int).push(ai));
        proof {
            reveal(Seq::filter);
        }
        proof {
            lemma_contains_push(av.take(i as int), ai, force_flag());
        }
        if chars_eq_lit(&args[i], flag.as_slice()) {
            force = true;
        } else {
            rest.push(args[i].clone());
            assert(args_view(rest@) =~= prev.push(ai));
        }
        i = i + 1;
    }
    assert(av.take(args@.len() as int) =~= av);
    if rest.len() < 2 {
        return Err(UsageError::WriteUsage);
    }
    let topic = normalize_topic(rest[0].as_str());
    let ghost rv = args_view(rest@);
    let mut words: Vec<String> = Vec::new();
    let mut k: usize = 1;
    while k < rest.len()
        invariant
            1 <= k <= rest@.len(),
            rv == args_view(rest@),
            args_view(words@) == rv.drop_first().take(k - 1),
        decreases rest@.len() - k,
    {
        let ghost prev = args_view(words@);
        words.push(rest[k].clone());
        assert(args_view(words@) =~= prev.push(rest@[k as int]@));
        k = k + 1;
        assert(args_view(words@) =~= rv.drop_first().take(k - 1));
    }
    assert(rv.drop_first().take(rest@.len() - 1) =~= rv.drop_first());
    let entry = join_with_spaces(&words);
    assert(topic@ == topic_from_lowered(unicode_lowercase(rv[0])));
    if topic.as_str().is_empty() {
        return Err(UsageError::EmptyTopic);
    }
    if blank(&entry) {
        return Err(UsageError::EmptyEntry);
    }
    Ok(WriteRequest { topic, entry, force })
}

/// Reads the arguments of `search`.
pub fn search_request(args: &Vec<String>) -> (r: Result<SearchRequest, UsageError>)
    ensures
        match search_request_spec(args_view(args@)) {
            Ok((q, l, s)) => r matches Ok(x) && x.query@ == q && x.limit == l && x.semantic == s,
            Err(e) => r matches Err(x) && x == e,
        },
{
    if args.len() == 0 {
        return Err(UsageError::SearchUsage);
    }
    let ghost av = args_view(args@);
    let lf = limit_chars();
    let sf = semantic_chars();
    let mut limit: usize = 10;
    let mut given = false;
    let mut semantic = false;
    let mut parts: Vec<String> = Vec::new();
    let mut i: usize = 0;
    assert(av.skip(0) =~= av);
    while i < args.len()
        invariant
            0 <= i <= args@.len(),
            av == args_view(args@),
            lf@ == limit_flag(),
            sf@ == semantic_flag(),
            !given ==> limit == 10,
            scan_search(av) == match scan_search(av.skip(i as int)) {
                Err(e) => Err(e),
                Ok((l, s, q)) => Ok((
                    if l is Some {
                        l
                    } else if given {
                        Some(limit)
                    } else {
                        None
                    },
                    s || semantic,
                    args_view(parts@) + q,
                )),
            },
        decreases args@.len() - i,
    {
        let ghost rest = av.skip(i as int);
        assert(rest[0] == args@[i as int]@);
        if chars_eq_lit(&args[i], lf.as_slice()) && i + 1 < args.len() {
            assert(rest[1] == args@[i + 1]@);
            let vc = chars_of(args[i + 1].as_str());
            match parse_usize(vc.as_slice()) {
                Some(n) => {
                    limit = n;
                    given = true;
                    assert(rest.skip(2) =~= av.skip(i + 2 as int));
                    i = i + 2;
                },
                None => {
                    return Err(UsageError::InvalidLimit);
                },
            }
        } else if chars_eq_lit(&args[i], sf.as_slice()) {
            semantic = true;
            assert(rest.drop_first() =~= av.skip(i + 1 as int));
            i = i + 1;
        } else {
            let ghost prev = args_view(parts@);
            parts.push(args[i].clone());
            assert(args_view(parts@) =~= prev.push(rest[0]));
            assert(rest.drop_first() =~= av.skip(i + 1 as int));
            proof {
                match scan_search(av.skip(i + 1 as int)) {
                    Ok((l, s, q)) => {
                        assert(prev + (seq![rest[0]] + q) =~= prev.push(rest[0]) + q);
                    },
                    Err(e) => {},
                }
            }
            i = i + 1;
        }
    }
    assert(av.skip(i as int) =~= Seq::<Seq<char>>::empty());
    assert(args_view(parts@) + Seq::<Seq<char>>::empty() =~= args_view(parts@));
    let query = join_with_spaces(&parts);
    Ok(SearchRequest { query, limit, semantic })
}

/// Reads the arguments of `read`: the normalized topic.
pub fn read_request(args: &Vec<String>) -> (r: Result<String, UsageError>)
    ensures
        args@.len() == 0 ==> (r matches Err(e) && e == UsageError::ReadUsage),
        args@.len() > 0 ==> (r matches Ok(t) && t@ == topic_from_lowered(unicode_lowercase(args@[0]@))),
{
    if args.len() == 0 {
        return Err(UsageError::ReadUsage);
    }
    Ok(normalize_topic(args[0].as_str()))
}

/// Reads the arguments of `forget`: the normalized topic, and the remaining
/// words joined by spaces as the search text.
pub fn forget_request(args: &Vec<String>) -> (r: Result<(String, String), UsageError>)
    ensures
        args@.len() < 2 ==> (r matches Err(e) && e == UsageError::ForgetUsage),
        args@.len() >= 2 ==> (r matches Ok((t, s)) && t@ == topic_from_lowered(unicode_lowercase(args@[0]@))
            && s@ == join_words(args_view(args@).drop_first())),
{
    if args.len() < 2 {
        return Err(UsageError::ForgetUsage);
    }
    let topic = normalize_topic(args[0].as_str());
    let ghost av = args_view(args@);
    let mut words: Vec<String> = Vec::new();
    let mut k: usize = 1;
    while k < args.len()
        invariant
            1 <= k <= args@.len(),
            av == args_view(args@),
            args_view(words@) == av.drop_first().take(k - 1),
        decreases args@.len() - k,
    {
        let ghost prev = args_view(words@);
        words.push(args[k].clone());
        assert(args_view(words@) =~= prev.push(args@[k as int]@));
        k = k + 1;
        assert(args_view(words@) =~= av.drop_first().take(k - 1));
    }
    assert(av.drop_first().take(args@.len() - 1) =~= av.drop_first());
    let search = join_with_spaces(&words);
    Ok((topic, search))
}

impl UsageError {
    /// The message shown for the error.
    pub fn message(&self) -> (r: String)
        ensures
            r@ == usage_message(*self),
    {
        let s = match self {
            UsageError::WriteUsage => "usage: commonplace write <topic> <entry> [--force]",
            UsageError::EmptyTopic => "topic name is empty after normalization",
            UsageError::EmptyEntry => "entry cannot be empty",
            UsageError::ReadUsage => "usage: commonplace read <topic>",
            UsageError::SearchUsage => "usage: commonplace search <query> [--limit N] [--semantic]",
            UsageError::InvalidLimit => "invalid --limit value",
            UsageError::ForgetUsage => "usage: commonplace forget <topic> <search>",
        };
        s.to_owned()
    }
}

/// The message of each usage error.
pub open spec fn usage_message(e: UsageError) -> Seq<char> {
    match e {
        UsageError::WriteUsage => "usage: commonplace write <topic> <entry> [--force]"@,
        UsageError::EmptyTopic => "topic name is empty after normalization"@,
        UsageError::EmptyEntry => "entry cannot be empty"@,
        UsageError::ReadUsage => "usage: commonplace read <topic>"@,
        UsageError::SearchUsage => "usage: commonplace search <query> [--limit N] [--semantic]"@,
        UsageError::InvalidLimit => "invalid --limit value"@,
        UsageError::ForgetUsage => "usage: commonplace forget <topic> <search>"@,
    }
}

} // verus!
