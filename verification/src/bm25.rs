//! The keyword index behind BM25 search: one document per entry line, and
//! for each term the documents it occurs in with its frequency there.  The
//! index is saved in a small binary format (`CPB1`).  Scoring, which is
//! floating-point arithmetic, is done by the caller from what the index
//! holds.
use vstd::prelude::*;
use crate::text::{all_ascii, alnum, ascii_lower, chars_of, copy_range, is_alphanumeric, string_of, to_lowercase, unicode_lowercase};

verus! {

// ---------------------------------------------------------------------------
// Tokens
// ---------------------------------------------------------------------------

/// Index of the first character of `s` that is not alphanumeric, or its
/// length when there is none.
pub open spec fn first_separator(s: Seq<char>) -> nat
    decreases s.len(),
{
    if s.len() == 0 {
        0
    } else if !alnum(s[0]) {
        0
    } else {
        1 + first_separator(s.drop_first())
    }
}

/// The maximal runs of alphanumeric characters of `s`, in order.
pub open spec fn words(s: Seq<char>) -> Seq<Seq<char>>
    decreases s.len(),
{
    if s.len() == 0 {
        Seq::empty()
    } else {
        let i = first_separator(s);
        if i >= s.len() {
            seq![s]
        } else if i > 0 {
            seq![s.take(i as int)] + words(s.skip(i + 1 as int))
        } else {
            words(s.skip(i + 1 as int))
        }
    }
}

/// The tokens of a text: the alphanumeric runs of its lowercased form.
pub open spec fn tokens_of(text: Seq<char>) -> Seq<Seq<char>> {
    words(unicode_lowercase(text))
}

proof fn lemma_first_separator_is(s: Seq<char>, k: nat)
    requires
        k <= s.len(),
        k < s.len() ==> !alnum(s[k as int]),
        forall|j: int| 0 <= j < k ==> alnum(s[j]),
    ensures
        first_separator(s) == k,
    decreases k,
{
    if k > 0 {
        assert forall|j: int| 0 <= j < k - 1 implies alnum(s.drop_first()[j]) by {
            assert(s.drop_first()[j] == s[j + 1]);
        }
        lemma_first_separator_is(s.drop_first(), (k - 1) as nat);
    }
}

proof fn lemma_first_separator_bound(s: Seq<char>)
    ensures
        first_separator(s) <= s.len(),
        first_separator(s) < s.len() ==> !alnum(s[first_separator(s) as int]),
        forall|k: int| 0 <= k < first_separator(s) ==> alnum(s[k]),
    decreases s.len(),
{
    if s.len() > 0 && alnum(s[0]) {
        lemma_first_separator_bound(s.drop_first());
        assert forall|k: int| 0 <= k < first_separator(s) implies alnum(s[k]) by {
            if k > 0 {
                assert(s[k] == s.drop_first()[k - 1]);
            }
        }
    }
}

/// A nonempty run of alphanumeric characters is one token.
pub proof fn lemma_words_of_run(w: Seq<char>)
    requires
        w.len() > 0,
        forall|i: int| 0 <= i < w.len() ==> alnum(#[trigger] w[i]),
    ensures
        words(w) == seq![w],
{
    lemma_first_separator_is(w, w.len());
}

/// A character that is not alphanumeric separates tokens: the tokens of
/// `a`, a separator, then `b`, are the tokens of `a` followed by those of
/// `b`.  With [`lemma_words_of_run`] and `words(empty) == empty`, this fixes
/// the tokens of every text: its maximal alphanumeric runs, in order.
pub proof fn lemma_words_split_at(a: Seq<char>, c: char, b: Seq<char>)
    requires
        !alnum(c),
    ensures
        words(a + seq![c] + b) == words(a) + words(b),
    decreases a.len(),
{
    let t = a + seq![c] + b;
    if a.len() == 0 {
        lemma_first_separator_is(t, 0);
        assert(t.skip(1) =~= b);
        assert(words(a) =~= Seq::<Seq<char>>::empty());
        assert(words(a) + words(b) =~= words(b));
    } else {
        lemma_first_separator_bound(a);
        let i = first_separator(a);
        if i < a.len() {
            assert forall|j: int| 0 <= j < i implies alnum(t[j]) by {
                assert(t[j] == a[j]);
            }
            assert(t[i as int] == a[i as int]);
            lemma_first_separator_is(t, i);
            let a2 = a.skip(i + 1 as int);
            assert(t.skip(i + 1 as int) =~= a2 + seq![c] + b);
            assert(t.take(i as int) =~= a.take(i as int));
            lemma_words_split_at(a2, c, b);
            if i > 0 {
                assert(words(t) =~= words(a) + words(b));
            } else {
                assert(words(t) =~= words(a) + words(b));
            }
        } else {
            assert forall|j: int| 0 <= j < a.len() implies alnum(t[j]) by {
                assert(t[j] == a[j]);
            }
            assert(t[a.len() as int] == c);
            lemma_first_separator_is(t, a.len());
            assert(t.take(a.len() as int) =~= a);
            assert(t.skip(a.len() + 1 as int) =~= b);
            assert(words(a) == seq![a]);
            assert(words(t) =~= words(a) + words(b));
        }
    }
}

fn words_of(cs: &[char]) -> (r: Vec<Vec<char>>)
    ensures
        r@.map_values(|w: Vec<char>| w@) == words(cs@),
{
    let n = cs.len();
    let mut out: Vec<Vec<char>> = Vec::new();
    let mut start: usize = 0;
    assert(cs@.skip(0) =~= cs@);
    while start < n
        invariant
            n == cs@.len(),
            0 <= start <= n,
            words(cs@) == out@.map_values(|w: Vec<char>| w@) + words(cs@.skip(start as int)),
        decreases n - start,
    {
        let ghost rest = cs@.skip(start as int);
        let mut j: usize = start;
        while j < n && is_alphanumeric(cs[j])
            invariant
                start <= j <= n,
                n == cs@.len(),
                forall|k: int| start <= k < j ==> alnum(cs@[k]),
            decreases n - j,
        {
            j = j + 1;
        }
        proof {
            assert forall|k: int| 0 <= k < j - start implies alnum(rest[k]) by {
                assert(rest[k] == cs@[start + k]);
            }
            if j < n {
                assert(rest[j - start] == cs@[j as int]);
            }
            lemma_first_separator_is(rest, (j - start) as nat);
        }
        let ghost prev = out@.map_values(|w: Vec<char>| w@);
        if j == n {
            let w = copy_range(cs, start, n);
            assert(w@ =~= rest);
            out.push(w);
            assert(out@.map_values(|w: Vec<char>| w@) =~= prev.push(rest));
            start = n;
            assert(words(cs@.skip(n as int)) =~= Seq::<Seq<char>>::empty()) by {
                assert(cs@.skip(n as int).len() == 0);
            }
            assert(words(cs@) =~= out@.map_values(|w: Vec<char>| w@) + words(cs@.skip(start as int)));
        } else {
            assert(rest.skip((j - start) + 1 as int) =~= cs@.skip(j + 1 as int));
            if j > start {
                let w = copy_range(cs, start, j);
                assert(w@ =~= rest.take((j - start) as int));
                out.push(w);
                assert(out@.map_values(|w: Vec<char>| w@) =~= prev.push(
                    rest.take((j - start) as int),
                ));
            }
            start = j + 1;
            assert(words(cs@) =~= out@.map_values(|w: Vec<char>| w@) + words(cs@.skip(start as int)));
        }
    }
    assert(cs@.skip(start as int).len() == 0);
    assert(words(cs@.skip(start as int)) =~= Seq::<Seq<char>>::empty());
    assert(words(cs@) =~= out@.map_values(|w: Vec<char>| w@));
    out
}

fn token_chars(text: &str) -> (r: Vec<Vec<char>>)
    ensures
        r@.map_values(|w: Vec<char>| w@) == tokens_of(text@),
        all_ascii(text@) ==> r@.map_values(|w: Vec<char>| w@) == words(ascii_lower(text@)),
{
    let lower = to_lowercase(text);
    let cs = chars_of(lower.as_str());
    words_of(cs.as_slice())
}

/// The tokens of a text: lowercased, then split at every character that is
/// not alphanumeric, empty pieces dropped.
pub fn tokenize(text: &str) -> (r: Vec<String>)
    ensures
        r@.map_values(|s: String| s@) == tokens_of(text@),
        all_ascii(text@) ==> r@.map_values(|s: String| s@) == words(ascii_lower(text@)),
{
    let ws = token_chars(text);
    let mut out: Vec<String> = Vec::new();
    let mut i: usize = 0;
    while i < ws.len()
        invariant
            0 <= i <= ws@.len(),
            out@.map_values(|s: String| s@) == ws@.map_values(|w: Vec<char>| w@).take(i as int),
        decreases ws@.len() - i,
    {
        let ghost prev = out@.map_values(|s: String| s@);
        let s = string_of(ws[i].as_slice());
        out.push(s);
        assert(out@.map_values(|s: String| s@) =~= prev.push(ws@[i as int]@));
        i = i + 1;
        assert(out@.map_values(|s: String| s@) =~= ws@.map_values(|w: Vec<char>| w@).take(
            i as int,
        ));
    }
    assert(ws@.map_values(|w: Vec<char>| w@).take(ws@.len() as int) =~= ws@.map_values(
        |w: Vec<char>| w@,
    ));
    out
}

// ---------------------------------------------------------------------------
// The index
// ---------------------------------------------------------------------------

/// One indexed entry line.
pub struct Doc {
    pub topic: String,
    pub text: String,
    pub token_count: u32,
}

/// The keyword index: the documents, and for each term the `(document,
/// frequency)` pairs of the documents it occurs in, in document order.
pub struct Index {
    docs: Vec<Doc>,
    terms: Vec<(String, Vec<(u32, u32)>)>,
}

impl Index {
    /// No term is listed twice.
    #[verifier::type_invariant]
    closed spec fn terms_are_distinct(self) -> bool {
        distinct_terms(terms_view(self.terms@))
    }
}

/// A document by its `(topic, text, token count)`.
pub open spec fn doc_view(d: Doc) -> (Seq<char>, Seq<char>, u32) {
    (d.topic@, d.text@, d.token_count)
}

/// The sum of the token counts of the documents.
pub open spec fn total_token_count(docs: Seq<(Seq<char>, Seq<char>, u32)>) -> nat
    decreases docs.len(),
{
    if docs.len() == 0 {
        0
    } else {
        total_token_count(docs.drop_last()) + docs.last().2 as nat
    }
}

/// An [`Index`] by its documents and its terms with their posting lists.
pub struct IndexView {
    pub docs: Seq<(Seq<char>, Seq<char>, u32)>,
    pub terms: Seq<(Seq<char>, Seq<(u32, u32)>)>,
}

impl View for Index {
    type V = IndexView;

    closed spec fn view(&self) -> IndexView {
        IndexView {
            docs: self.docs@.map_values(|d: Doc| doc_view(d)),
            terms: terms_view(self.terms@),
        }
    }
}

/// Term listings by their characters.
pub open spec fn terms_view(v: Seq<(String, Vec<(u32, u32)>)>) -> Seq<(Seq<char>, Seq<(u32, u32)>)> {
    v.map_values(|e: (String, Vec<(u32, u32)>)| (e.0@, e.1@))
}

/// No term is listed twice.
pub open spec fn distinct_terms(terms: Seq<(Seq<char>, Seq<(u32, u32)>)>) -> bool {
    forall|p: int, q: int| 0 <= p < q < terms.len() ==> #[trigger] terms[p].0 != #[trigger] terms[q].0
}

/// The posting list of `t`, if it is listed.
pub open spec fn lookup(terms: Seq<(Seq<char>, Seq<(u32, u32)>)>, t: Seq<char>) -> Option<Seq<(u32, u32)>> {
    if exists|p: int| 0 <= p < terms.len() && #[trigger] terms[p].0 == t {
        Some(terms[choose|p: int| 0 <= p < terms.len() && #[trigger] terms[p].0 == t].1)
    } else {
        None
    }
}

/// How often `t` occurs in `toks`.
pub open spec fn term_frequency(toks: Seq<Seq<char>>, t: Seq<char>) -> nat
    decreases toks.len(),
{
    if toks.len() == 0 {
        0
    } else {
        term_frequency(toks.drop_last(), t) + if toks.last() == t {
            1nat
        } else {
            0nat
        }
    }
}

/// The `(document, frequency)` pairs of the documents (given by their
/// tokens) in which `t` occurs, in document order.
pub open spec fn postings_of(doc_tokens: Seq<Seq<Seq<char>>>, t: Seq<char>) -> Seq<(nat, nat)>
    decreases doc_tokens.len(),
{
    if doc_tokens.len() == 0 {
        Seq::empty()
    } else {
        let k = (doc_tokens.len() - 1) as nat;
        let f = term_frequency(doc_tokens.last(), t);
        postings_of(doc_tokens.drop_last(), t) + if f > 0 {
            seq![(k, f)]
        } else {
            Seq::empty()
        }
    }
}

/// The pairs as stored: both numbers as `u32` (`as u32`).
pub open spec fn stored_pairs(ps: Seq<(nat, nat)>) -> Seq<(u32, u32)> {
    ps.map_values(|p: (nat, nat)| (p.0 as u32, p.1 as u32))
}

/// The tokens of each entry's text.
pub open spec fn entry_tokens(entries: Seq<(String, String)>) -> Seq<Seq<Seq<char>>> {
    entries.map_values(|e: (String, String)| tokens_of(e.1@))
}

/// The index of the entries `(topic, line)`: document `i` is entry `i` with
/// its token count, and each term occurring in some entry is listed once
/// with its postings.
pub open spec fn indexes(v: IndexView, entries: Seq<(String, String)>) -> bool {
    &&& v.docs.len() == entries.len()
    &&& forall|i: int| 0 <= i < entries.len() ==> #[trigger] v.docs[i] == (entries[i].0@, entries[i].1@, tokens_of(entries[i].1@).len() as u32)
    &&& distinct_terms(v.terms)
    &&& forall|t: Seq<char>| #[trigger] lookup(v.terms, t) == if postings_of(entry_tokens(entries), t).len() > 0 {
        Some(stored_pairs(postings_of(entry_tokens(entries), t)))
    } else {
        None
    }
}

proof fn lemma_frequency_push(toks: Seq<Seq<char>>, t: Seq<char>, u: Seq<char>)
    ensures
        term_frequency(toks.push(t), u) == term_frequency(toks, u) + if t == u {
            1nat
        } else {
            0nat
        },
{
    assert(toks.push(t).drop_last() =~= toks);
}

proof fn lemma_postings_push(prefix: Seq<Seq<Seq<char>>>, x: Seq<Seq<char>>, t: Seq<char>)
    ensures
        postings_of(prefix.push(x), t) == postings_of(prefix, t) + if term_frequency(x, t) > 0 {
            seq![(prefix.len(), term_frequency(x, t))]
        } else {
            Seq::empty()
        },
{
    assert(prefix.push(x).drop_last() =~= prefix);
}

/// A term's frequency counts its occurrences: it adds up over the parts of
/// a token list, is 1 in the list made of just that term and 0 in a list
/// made of just another term.
pub proof fn lemma_frequency_counts(a: Seq<Seq<char>>, b: Seq<Seq<char>>, t: Seq<char>, u: Seq<char>)
    ensures
        term_frequency(a + b, t) == term_frequency(a, t) + term_frequency(b, t),
        term_frequency(seq![t], t) == 1,
        u != t ==> term_frequency(seq![u], t) == 0,
    decreases b.len(),
{
    assert(seq![t].drop_last() =~= Seq::<Seq<char>>::empty());
    assert(seq![u].drop_last() =~= Seq::<Seq<char>>::empty());
    assert(term_frequency(Seq::<Seq<char>>::empty(), t) == 0);
    assert(term_frequency(seq![t], t) == term_frequency(seq![t].drop_last(), t) + 1);
    assert(term_frequency(seq![u], t) == term_frequency(seq![u].drop_last(), t) + if u == t {
        1nat
    } else {
        0nat
    });
    if b.len() == 0 {
        assert(a + b =~= a);
    } else {
        lemma_frequency_counts(a, b.drop_last(), t, u);
        assert((a + b).drop_last() =~= a + b.drop_last());
        assert((a + b).last() == b.last());
    }
}

/// The posting list of a term names exactly the documents the term occurs
/// in, each once and in increasing order, with the term's frequency there.
pub proof fn lemma_postings_exact(doc_tokens: Seq<Seq<Seq<char>>>, t: Seq<char>)
    ensures
        forall|j: int| 0 <= j < postings_of(doc_tokens, t).len() ==> {
            let p = #[trigger] postings_of(doc_tokens, t)[j];
            &&& p.0 < doc_tokens.len()
            &&& p.1 == term_frequency(doc_tokens[p.0 as int], t)
            &&& p.1 > 0
        },
        forall|j1: int, j2: int|
            0 <= j1 < j2 < postings_of(doc_tokens, t).len() ==> #[trigger] postings_of(doc_tokens, t)[j1].0
                < #[trigger] postings_of(doc_tokens, t)[j2].0,
        forall|k: int|
            0 <= k < doc_tokens.len() && term_frequency(#[trigger] doc_tokens[k], t) > 0 ==> exists|j: int|
                0 <= j < postings_of(doc_tokens, t).len() && #[trigger] postings_of(doc_tokens, t)[j].0 == k,
    decreases doc_tokens.len(),
{
    if doc_tokens.len() > 0 {
        let init = doc_tokens.drop_last();
        lemma_postings_exact(init, t);
        let ps = postings_of(doc_tokens, t);
        let pi = postings_of(init, t);
        let n = init.len();
        assert forall|j: int| 0 <= j < ps.len() implies {
            let p = #[trigger] ps[j];
            &&& p.0 < doc_tokens.len()
            &&& p.1 == term_frequency(doc_tokens[p.0 as int], t)
            &&& p.1 > 0
        } by {
            if j < pi.len() {
                assert(ps[j] == pi[j]);
                assert(doc_tokens[pi[j].0 as int] == init[pi[j].0 as int]);
            } else {
                assert(ps[j] == (n as nat, term_frequency(doc_tokens.last(), t)));
            }
        }
        assert forall|j1: int, j2: int| 0 <= j1 < j2 < ps.len() implies #[trigger] ps[j1].0 < #[trigger] ps[j2].0 by {
            assert(ps[j1] == pi[j1]);
            if j2 < pi.len() {
                assert(ps[j2] == pi[j2]);
            } else {
                assert(ps[j2].0 == n);
                assert(pi[j1].0 < n);
            }
        }
        assert forall|k: int| 0 <= k < doc_tokens.len() && term_frequency(#[trigger] doc_tokens[k], t) > 0 implies exists|j: int|
            0 <= j < ps.len() && #[trigger] ps[j].0 == k by {
            if k < n {
                assert(doc_tokens[k] == init[k]);
                assert(term_frequency(init[k], t) > 0);
                let j = choose|j: int| 0 <= j < pi.len() && #[trigger] pi[j].0 == k;
                assert(ps[j] == pi[j]);
            } else {
                assert(ps[pi.len() as int] == (n as nat, term_frequency(doc_tokens.last(), t)));
            }
        }
    }
}

proof fn lemma_postings_before(doc_tokens: Seq<Seq<Seq<char>>>, t: Seq<char>)
    ensures
        forall|k: int| 0 <= k < postings_of(doc_tokens, t).len() ==> #[trigger] postings_of(doc_tokens, t)[k].0 < doc_tokens.len(),
    decreases doc_tokens.len(),
{
    if doc_tokens.len() > 0 {
        let init = doc_tokens.drop_last();
        lemma_postings_before(init, t);
        let ps = postings_of(doc_tokens, t);
        let pi = postings_of(init, t);
        assert forall|k: int| 0 <= k < ps.len() implies #[trigger] ps[k].0 < doc_tokens.len() by {
            if k < pi.len() {
                assert(ps[k] == pi[k]);
            }
        }
    }
}

proof fn lemma_frequency_empty(t: Seq<char>)
    ensures
        term_frequency(Seq::<Seq<char>>::empty(), t) == 0,
{
}

/// The index of `keys` where `t` is, if any.
fn find_key(keys: &Vec<Vec<char>>, t: &[char]) -> (r: Option<usize>)
    ensures
        match r {
            Some(p) => p < keys@.len() && keys@[p as int]@ == t@,
            None => forall|p: int| 0 <= p < keys@.len() ==> keys@[p]@ != t@,
        },
{
    let mut p: usize = 0;
    while p < keys.len()
        invariant
            0 <= p <= keys@.len(),
            forall|q: int| 0 <= q < p ==> keys@[q]@ != t@,
        decreases keys@.len() - p,
    {
        if crate::text::same_chars(keys[p].as_slice(), t) {
            return Some(p);
        }
        p = p + 1;
    }
    None
}

/// The working form of the postings while they are collected.
pub open spec fn working_ok(
    keys: Seq<Vec<char>>,
    lists: Seq<Vec<(usize, usize)>>,
    cur: Seq<Seq<Seq<char>>>,
) -> bool {
    &&& keys.len() == lists.len()
    &&& forall|p: int, q: int| 0 <= p < q < keys.len() ==> #[trigger] keys[p]@ != #[trigger] keys[q]@
    &&& forall|p: int| 0 <= p < keys.len() ==> (#[trigger] lists[p])@.map_values(
        |e: (usize, usize)| (e.0 as nat, e.1 as nat),
    ) == postings_of(cur, keys[p]@)
    &&& forall|p: int| 0 <= p < keys.len() ==> postings_of(cur, (#[trigger] keys[p])@).len() > 0
    &&& forall|t: Seq<char>| #[trigger] postings_of(cur, t).len() > 0 ==> exists|p: int| 0 <= p < keys.len() && #[trigger] keys[p]@ == t
}

fn add_token(
    keys: &mut Vec<Vec<char>>,
    lists: &mut Vec<Vec<(usize, usize)>>,
    tok: &Vec<char>,
    i: usize,
    Ghost(prefix): Ghost<Seq<Seq<Seq<char>>>>,
    Ghost(done): Ghost<Seq<Seq<char>>>,
)
    requires
        working_ok(old(keys)@, old(lists)@, prefix.push(done)),
        prefix.len() == i,
        done.len() < usize::MAX,
    ensures
        working_ok(final(keys)@, final(lists)@, prefix.push(done.push(tok@))),
{
    let ghost cur = prefix.push(done);
    let ghost nxt = prefix.push(done.push(tok@));
    proof {
        assert forall|u: Seq<char>| #[trigger] postings_of(nxt, u) == postings_of(prefix, u) + if term_frequency(done.push(tok@), u) > 0 {
            seq![(prefix.len(), term_frequency(done.push(tok@), u))]
        } else {
            Seq::empty()
        } by {
            lemma_postings_push(prefix, done.push(tok@), u);
        }
        assert forall|u: Seq<char>| #[trigger] postings_of(cur, u) == postings_of(prefix, u) + if term_frequency(done, u) > 0 {
            seq![(prefix.len(), term_frequency(done, u))]
        } else {
            Seq::empty()
        } by {
            lemma_postings_push(prefix, done, u);
        }
        assert forall|u: Seq<char>| #[trigger] term_frequency(done.push(tok@), u) == term_frequency(done, u) + if tok@ == u {
            1nat
        } else {
            0nat
        } by {
            lemma_frequency_push(done, tok@, u);
        }
    }
    let ghost conv = |e: (usize, usize)| (e.0 as nat, e.1 as nat);
    match find_key(keys, tok.as_slice()) {
        Some(p) => {
            let ghost old_keys = keys@;
            let ghost old_lists = lists@;
            let mut l = lists.remove(p);
            let ghost pl = postings_of(prefix, tok@);
            let ghost f = term_frequency(done, tok@);
            proof {
                lemma_postings_before(prefix, tok@);
                assert(l@.map_values(conv) == postings_of(cur, tok@));
            }
            let n = l.len();
            if n > 0 && l[n - 1].0 == i {
                proof {
                    if f == 0 {
                        assert(l@.map_values(conv) == pl);
                        assert(pl[n - 1].0 < i);
                        assert(l@[n - 1].0 as nat == pl[n - 1].0);
                    }
                    assert(l@.map_values(conv) == pl + seq![(i as nat, f)]);
                    assert(l@.map_values(conv)[n - 1] == (i as nat, f));
                    assert(f <= done.len()) by {
                        lemma_frequency_le(done, tok@);
                    }
                }
                let last = l[n - 1];
                assert(last.1 == f);
                let bumped = (last.0, last.1 + 1);
                let ghost before = l@;
                l.set(n - 1, bumped);
                assert(l@ == before.update(n - 1, bumped));
                assert(before.map_values(conv).drop_last() =~= pl);
                assert(l@.map_values(conv) =~= pl + seq![(i as nat, f + 1)]);
            } else {
                proof {
                    if f > 0 {
                        assert(l@.map_values(conv) == pl + seq![(i as nat, f)]);
                        assert(l@.map_values(conv)[n - 1] == (i as nat, f));
                    }
                    assert(l@.map_values(conv) == pl);
                }
                l.push((i, 1));
                assert(l@.map_values(conv) =~= pl + seq![(i as nat, 1nat)]);
            }
            lists.insert(p, l);
            proof {
                assert(keys@ == old_keys);
                assert forall|q: int| 0 <= q < keys@.len() implies (#[trigger] lists@[q])@.map_values(conv)
                    == postings_of(nxt, keys@[q]@) by {
                    if q == p {
                    } else {
                        assert(lists@[q] == old_lists[q]);
                    }
                }
                assert forall|q: int| 0 <= q < keys@.len() implies postings_of(nxt, (#[trigger] keys@[q])@).len() > 0 by {
                    if q != p {
                        assert(postings_of(cur, keys@[q]@).len() > 0);
                    }
                }
                assert forall|t: Seq<char>| #[trigger] postings_of(nxt, t).len() > 0 implies exists|q: int| 0 <= q < keys@.len() && #[trigger] keys@[q]@ == t by {
                    if t == tok@ {
                        assert(keys@[p as int]@ == t);
                    } else {
                        assert(postings_of(cur, t).len() > 0);
                    }
                }
            }
        },
        None => {
            proof {
                if postings_of(cur, tok@).len() > 0 {
                    let q = choose|q: int| 0 <= q < keys@.len() && #[trigger] keys@[q]@ == tok@;
                    assert(keys@[q]@ == tok@);
                }
                assert(postings_of(cur, tok@).len() == 0);
                assert(term_frequency(done, tok@) == 0);
            }
            let ghost old_keys = keys@;
            let ghost old_lists = lists@;
            let k = copy_range(tok.as_slice(), 0, tok.len());
            assert(k@ =~= tok@);
            keys.push(k);
            let mut l: Vec<(usize, usize)> = Vec::new();
            l.push((i, 1));
            lists.push(l);
            proof {
                let pl = postings_of(prefix, tok@);
                assert(pl =~= Seq::<(nat, nat)>::empty()) by {
                    assert(postings_of(cur, tok@) == pl);
                }
                assert(postings_of(nxt, tok@) =~= seq![(i as nat, 1nat)]);
                assert(lists@.last()@.map_values(conv) =~= seq![(i as nat, 1nat)]);
                assert forall|q: int| 0 <= q < keys@.len() implies (#[trigger] lists@[q])@.map_values(conv)
                    == postings_of(nxt, keys@[q]@) by {
                    if q < old_keys.len() {
                        assert(lists@[q] == old_lists[q]);
                        assert(keys@[q] == old_keys[q]);
                    }
                }
                assert forall|a: int, b: int| 0 <= a < b < keys@.len() implies #[trigger] keys@[a]@ != #[trigger] keys@[b]@ by {
                    if b == old_keys.len() {
                        assert(keys@[a] == old_keys[a]);
                    } else {
                        assert(keys@[a] == old_keys[a]);
                        assert(keys@[b] == old_keys[b]);
                    }
                }
                assert forall|q: int| 0 <= q < keys@.len() implies postings_of(nxt, (#[trigger] keys@[q])@).len() > 0 by {
                    if q < old_keys.len() {
                        assert(keys@[q] == old_keys[q]);
                        assert(postings_of(cur, keys@[q]@).len() > 0);
                    }
                }
                assert forall|t: Seq<char>| #[trigger] postings_of(nxt, t).len() > 0 implies exists|q: int| 0 <= q < keys@.len() && #[trigger] keys@[q]@ == t by {
                    if t == tok@ {
                        assert(keys@[old_keys.len() as int]@ == t);
                    } else {
                        assert(postings_of(cur, t).len() > 0);
                        let q = choose|q: int| 0 <= q < old_keys.len() && #[trigger] old_keys[q]@ == t;
                        assert(keys@[q] == old_keys[q]);
                    }
                }
            }
        },
    }
}

proof fn lemma_frequency_le(toks: Seq<Seq<char>>, t: Seq<char>)
    ensures
        term_frequency(toks, t) <= toks.len(),
    decreases toks.len(),
{
    if toks.len() > 0 {
        lemma_frequency_le(toks.drop_last(), t);
    }
}

proof fn lemma_postings_empty_doc(prefix: Seq<Seq<Seq<char>>>, t: Seq<char>)
    ensures
        postings_of(prefix.push(Seq::empty()), t) == postings_of(prefix, t),
{
    lemma_postings_push(prefix, Seq::empty(), t);
    assert(postings_of(prefix, t) + Seq::<(nat, nat)>::empty() =~= postings_of(prefix, t));
}

fn stored_list(l: &Vec<(usize, usize)>) -> (r: Vec<(u32, u32)>)
    ensures
        r@ == stored_pairs(l@.map_values(|e: (usize, usize)| (e.0 as nat, e.1 as nat))),
{
    let ghost src = l@.map_values(|e: (usize, usize)| (e.0 as nat, e.1 as nat));
    let mut out: Vec<(u32, u32)> = Vec::new();
    let mut k: usize = 0;
    while k < l.len()
        invariant
            0 <= k <= l@.len(),
            src == l@.map_values(|e: (usize, usize)| (e.0 as nat, e.1 as nat)),
            out@ == stored_pairs(src.take(k as int)),
        decreases l@.len() - k,
    {
        let e = l[k];
        out.push((e.0 as u32, e.1 as u32));
        k = k + 1;
        assert(out@ =~= stored_pairs(src.take(k as int)));
    }
    assert(src.take(l@.len() as int) =~= src);
    out
}

impl Index {
    /// Indexes entry lines given as `(topic, line)`: document `i` is entry
    /// `i`, and each term gets the `(document, frequency)` pairs of the
    /// documents it occurs in, in document order.  Document numbers and
    /// counts are stored as `u32`.
    pub fn build(entries: &Vec<(String, String)>) -> (idx: Index)
        ensures
            indexes(idx@, entries@),
    {
        let ghost all = entry_tokens(entries@);
        let mut docs: Vec<Doc> = Vec::new();
        let mut keys: Vec<Vec<char>> = Vec::new();
        let mut lists: Vec<Vec<(usize, usize)>> = Vec::new();
        let mut i: usize = 0;
        assert(all.take(0) =~= Seq::<Seq<Seq<char>>>::empty());
        while i < entries.len()
            invariant
                0 <= i <= entries@.len(),
                all == entry_tokens(entries@),
                all.len() == entries@.len(),
                working_ok(keys@, lists@, all.take(i as int)),
                docs@.len() == i,
                forall|k: int| 0 <= k < i ==> #[trigger] doc_view(docs@[k]) == (
                    entries@[k].0@,
                    entries@[k].1@,
                    tokens_of(entries@[k].1@).len() as u32,
                ),
            decreases entries@.len() - i,
        {
            let toks = token_chars(entries[i].1.as_str());
            let ghost tv = toks@.map_values(|w: Vec<char>| w@);
            assert(tv == all[i as int]);
            let ghost prefix = all.take(i as int);
            proof {
                assert forall|t: Seq<char>| #[trigger] postings_of(prefix.push(Seq::empty()), t) == postings_of(prefix, t) by {
                    lemma_postings_empty_doc(prefix, t);
                }
                assert(tv.take(0) =~= Seq::<Seq<char>>::empty());
            }
            let mut j: usize = 0;
            while j < toks.len()
                invariant
                    0 <= j <= toks@.len(),
                    tv == toks@.map_values(|w: Vec<char>| w@),
                    prefix.len() == i,
                    working_ok(keys@, lists@, prefix.push(tv.take(j as int))),
                decreases toks@.len() - j,
            {
                add_token(&mut keys, &mut lists, &toks[j], i, Ghost(prefix), Ghost(tv.take(j as int)));
                assert(tv.take(j as int).push(toks@[j as int]@) =~= tv.take(j + 1 as int));
                j = j + 1;
            }
            assert(tv.take(toks@.len() as int) =~= tv);
            assert(prefix.push(tv) =~= all.take(i + 1 as int));
            let d = Doc {
                topic: entries[i].0.clone(),
                text: entries[i].1.clone(),
                token_count: toks.len() as u32,
            };
            docs.push(d);
            i = i + 1;
        }
        assert(all.take(entries@.len() as int) =~= all);
        let mut terms: Vec<(String, Vec<(u32, u32)>)> = Vec::new();
        let mut p: usize = 0;
        while p < keys.len()
            invariant
                0 <= p <= keys@.len(),
                working_ok(keys@, lists@, all),
                terms@.len() == p,
                forall|q: int| 0 <= q < p ==> (#[trigger] terms@[q]).0@ == keys@[q]@ && terms@[q].1@
                    == stored_pairs(postings_of(all, keys@[q]@)),
            decreases keys@.len() - p,
        {
            let name = string_of(keys[p].as_slice());
            let list = stored_list(&lists[p]);
            terms.push((name, list));
            p = p + 1;
        }
        let idx = Index { docs, terms };
        proof {
            let v = idx@;
            assert forall|k: int| 0 <= k < entries@.len() implies #[trigger] v.docs[k] == (
                entries@[k].0@,
                entries@[k].1@,
                tokens_of(entries@[k].1@).len() as u32,
            ) by {
                assert(v.docs[k] == doc_view(idx.docs@[k]));
            }
            assert forall|a: int, b: int| 0 <= a < b < v.terms.len() implies #[trigger] v.terms[a].0
                != #[trigger] v.terms[b].0 by {
                assert(v.terms[a].0 == keys@[a]@);
                assert(v.terms[b].0 == keys@[b]@);
            }
            assert forall|t: Seq<char>| #[trigger] lookup(v.terms, t) == if postings_of(all, t).len() > 0 {
                Some(stored_pairs(postings_of(all, t)))
            } else {
                None
            } by {
                if postings_of(all, t).len() > 0 {
                    let q = choose|q: int| 0 <= q < keys@.len() && #[trigger] keys@[q]@ == t;
                    assert(v.terms[q].0 == t);
                    let c = choose|c: int| 0 <= c < v.terms.len() && #[trigger] v.terms[c].0 == t;
                    assert(v.terms[c].0 == keys@[c]@);
                    assert(c == q);
                    assert(v.terms[c].1 == terms@[c].1@);
                } else {
                    assert forall|c: int| 0 <= c < v.terms.len() implies #[trigger] v.terms[c].0 != t by {
                        assert(v.terms[c].0 == keys@[c]@);
                        assert(postings_of(all, keys@[c]@).len() > 0);
                    }
                }
            }
        }
        idx
    }

    /// The number of documents.
    pub fn num_docs(&self) -> (r: usize)
        ensures
            r == self@.docs.len(),
    {
        self.docs.len()
    }

    /// The token count of document `i`.
    pub fn token_count(&self, i: usize) -> (r: u32)
        requires
            i < self@.docs.len(),
        ensures
            r == self@.docs[i as int].2,
    {
        self.docs[i].token_count
    }

    /// The sum of the token counts of all documents.
    pub fn total_tokens(&self) -> (r: u128)
        ensures
            r == total_token_count(self@.docs),
    {
        let ghost ds = self@.docs;
        let mut total: u128 = 0;
        let mut i: usize = 0;
        while i < self.docs.len()
            invariant
                0 <= i <= self.docs@.len(),
                ds == self@.docs,
                ds.len() == self.docs@.len(),
                total == total_token_count(ds.take(i as int)),
                total <= i * 0xffff_ffffnat,
            decreases self.docs@.len() - i,
        {
            assert(ds[i as int] == doc_view(self.docs@[i as int]));
            assert(ds.take(i + 1).drop_last() =~= ds.take(i as int));
            total = total + self.docs[i].token_count as u128;
            i = i + 1;
        }
        assert(ds.take(i as int) =~= ds);
        total
    }

    /// The topic, text and token count of document `i`.
    pub fn doc(&self, i: usize) -> (r: (String, String, u32))
        requires
            i < self@.docs.len(),
        ensures
            (r.0@, r.1@, r.2) == self@.docs[i as int],
    {
        let d = &self.docs[i];
        (d.topic.clone(), d.text.clone(), d.token_count)
    }

    /// The `(document, frequency)` pairs of a term, if it occurs anywhere.
    pub fn postings(&self, term: &str) -> (r: Option<Vec<(u32, u32)>>)
        ensures
            match r {
                Some(l) => lookup(self@.terms, term@) == Some(l@),
                None => lookup(self@.terms, term@) is None,
            },
    {
        proof {
            use_type_invariant(self);
        }
        let tc = chars_of(term);
        let mut p: usize = 0;
        while p < self.terms.len()
            invariant
                0 <= p <= self.terms@.len(),
                tc@ == term@,
                distinct_terms(self@.terms),
                forall|q: int| 0 <= q < p ==> #[trigger] self@.terms[q].0 != term@,
            decreases self.terms@.len() - p,
        {
            let kc = chars_of(self.terms[p].0.as_str());
            if crate::text::same_chars(kc.as_slice(), tc.as_slice()) {
                let mut out: Vec<(u32, u32)> = Vec::new();
                let src = &self.terms[p].1;
                let mut k: usize = 0;
                while k < src.len()
                    invariant
                        0 <= k <= src@.len(),
                        out@ == src@.take(k as int),
                    decreases src@.len() - k,
                {
                    out.push(src[k]);
                    k = k + 1;
                    assert(out@ =~= src@.take(k as int));
                }
                assert(src@.take(src@.len() as int) =~= src@);
                proof {
                    assert(self@.terms[p as int].0 == term@);
                    let c = choose|c: int| 0 <= c < self@.terms.len() && #[trigger] self@.terms[c].0 == term@;
                    if c > p {
                        assert(self@.terms[p as int].0 != self@.terms[c].0);
                    }
                    assert(c == p);
                }
                return Some(out);
            }
            p = p + 1;
        }
        None
    }
}

// ---------------------------------------------------------------------------
// The saved form
// ---------------------------------------------------------------------------

/// `CPB1`, the first four bytes of a saved index.
pub open spec fn magic() -> Seq<u8> {
    seq![67u8, 80u8, 66u8, 49u8]
}

/// The little-endian number that the bytes denote.
pub open spec fn le_value(b: Seq<u8>) -> nat
    decreases b.len(),
{
    if b.len() == 0 {
        0
    } else {
        b[0] as nat + 256 * le_value(b.drop_first())
    }
}

/// The four little-endian bytes of `v` (`u32::to_le_bytes`).
pub open spec fn u32_bytes(v: u32) -> Seq<u8> {
    seq![(v % 256) as u8, ((v / 256) % 256) as u8, ((v / 65536) % 256) as u8, (v / 16777216) as u8]
}

/// The eight little-endian bytes of `v` (`u64::to_le_bytes`).
pub open spec fn u64_bytes(v: u64) -> Seq<u8> {
    u32_bytes((v % 4294967296) as u32) + u32_bytes((v / 4294967296) as u32)
}

/// A string as saved: its UTF-8 length as a `u32`, then its UTF-8 bytes.
pub open spec fn str_bytes(s: Seq<char>) -> Seq<u8> {
    u32_bytes(vstd::utf8::encode_utf8(s).len() as u32) + vstd::utf8::encode_utf8(s)
}

pub open spec fn doc_bytes(d: (Seq<char>, Seq<char>, u32)) -> Seq<u8> {
    str_bytes(d.0) + str_bytes(d.1) + u32_bytes(d.2)
}

pub open spec fn docs_bytes(ds: Seq<(Seq<char>, Seq<char>, u32)>) -> Seq<u8>
    decreases ds.len(),
{
    if ds.len() == 0 {
        Seq::empty()
    } else {
        doc_bytes(ds[0]) + docs_bytes(ds.drop_first())
    }
}

pub open spec fn pairs_bytes(ps: Seq<(u32, u32)>) -> Seq<u8>
    decreases ps.len(),
{
    if ps.len() == 0 {
        Seq::empty()
    } else {
        u32_bytes(ps[0].0) + u32_bytes(ps[0].1) + pairs_bytes(ps.drop_first())
    }
}

pub open spec fn term_bytes(e: (Seq<char>, Seq<(u32, u32)>)) -> Seq<u8> {
    str_bytes(e.0) + u32_bytes(e.1.len() as u32) + pairs_bytes(e.1)
}

pub open spec fn terms_bytes(ts: Seq<(Seq<char>, Seq<(u32, u32)>)>) -> Seq<u8>
    decreases ts.len(),
{
    if ts.len() == 0 {
        Seq::empty()
    } else {
        term_bytes(ts[0]) + terms_bytes(ts.drop_first())
    }
}

/// The saved form of an index: the magic, the document count, the average
/// document length (as the bits of an `f64`), the documents, the term count
/// and the terms with their posting lists.  Counts and lengths are written
/// as `u32`.
pub open spec fn encoded(v: IndexView, avg_bits: u64) -> Seq<u8> {
    magic() + u32_bytes(v.docs.len() as u32) + u64_bytes(avg_bits) + docs_bytes(v.docs) + u32_bytes(
        v.terms.len() as u32,
    ) + terms_bytes(v.terms)
}

proof fn lemma_seq_append_drop_first<A>(a: Seq<A>, b: Seq<A>)
    requires
        a.len() > 0,
    ensures
        (a + b)[0] == a[0],
        (a + b).drop_first() == a.drop_first() + b,
{
    assert((a + b).drop_first() =~= a.drop_first() + b);
}

proof fn lemma_docs_bytes_push(ds: Seq<(Seq<char>, Seq<char>, u32)>, d: (Seq<char>, Seq<char>, u32))
    ensures
        docs_bytes(ds.push(d)) == docs_bytes(ds) + doc_bytes(d),
    decreases ds.len(),
{
    let c = doc_bytes(d);
    assert(ds.push(d)[0] == if ds.len() == 0 {
        d
    } else {
        ds[0]
    });
    if ds.len() == 0 {
        assert(ds.push(d).drop_first() =~= Seq::<(Seq<char>, Seq<char>, u32)>::empty());
        assert(docs_bytes(ds.push(d).drop_first()) == Seq::<u8>::empty());
        assert(docs_bytes(ds) == Seq::<u8>::empty());
        assert(docs_bytes(ds.push(d)) == c + Seq::<u8>::empty());
        assert(c + Seq::<u8>::empty() =~= Seq::<u8>::empty() + c);
    } else {
        lemma_docs_bytes_push(ds.drop_first(), d);
        assert(ds.push(d).drop_first() =~= ds.drop_first().push(d));
        let a = doc_bytes(ds[0]);
        let b = docs_bytes(ds.drop_first());
        assert(docs_bytes(ds.push(d)) == a + (b + c));
        assert(a + (b + c) =~= (a + b) + c);
    }
}

proof fn lemma_pairs_bytes_push(ps: Seq<(u32, u32)>, e: (u32, u32))
    ensures
        pairs_bytes(ps.push(e)) == pairs_bytes(ps) + (u32_bytes(e.0) + u32_bytes(e.1)),
    decreases ps.len(),
{
    let c = u32_bytes(e.0) + u32_bytes(e.1);
    if ps.len() == 0 {
        assert(ps.push(e).drop_first() =~= Seq::<(u32, u32)>::empty());
        assert(ps.push(e)[0] == e);
        assert(pairs_bytes(ps.push(e).drop_first()) == Seq::<u8>::empty());
        assert(pairs_bytes(ps) == Seq::<u8>::empty());
        assert(pairs_bytes(ps.push(e)) == c + Seq::<u8>::empty());
        assert(c + Seq::<u8>::empty() =~= Seq::<u8>::empty() + c);
    } else {
        lemma_pairs_bytes_push(ps.drop_first(), e);
        assert(ps.push(e).drop_first() =~= ps.drop_first().push(e));
        assert(ps.push(e)[0] == ps[0]);
        let a = u32_bytes(ps[0].0) + u32_bytes(ps[0].1);
        let b = pairs_bytes(ps.drop_first());
        assert(pairs_bytes(ps.push(e)) == a + (b + c));
        assert(pairs_bytes(ps) == a + b);
        assert(a + (b + c) =~= (a + b) + c);
    }
}

proof fn lemma_terms_bytes_push(ts: Seq<(Seq<char>, Seq<(u32, u32)>)>, e: (Seq<char>, Seq<(u32, u32)>))
    ensures
        terms_bytes(ts.push(e)) == terms_bytes(ts) + term_bytes(e),
    decreases ts.len(),
{
    let c = term_bytes(e);
    if ts.len() == 0 {
        assert(ts.push(e).drop_first() =~= Seq::<(Seq<char>, Seq<(u32, u32)>)>::empty());
        assert(ts.push(e)[0] == e);
        assert(terms_bytes(ts.push(e).drop_first()) == Seq::<u8>::empty());
        assert(terms_bytes(ts) == Seq::<u8>::empty());
        assert(terms_bytes(ts.push(e)) == c + Seq::<u8>::empty());
        assert(c + Seq::<u8>::empty() =~= Seq::<u8>::empty() + c);
    } else {
        lemma_terms_bytes_push(ts.drop_first(), e);
        assert(ts.push(e).drop_first() =~= ts.drop_first().push(e));
        assert(ts.push(e)[0] == ts[0]);
        let a = term_bytes(ts[0]);
        let b = terms_bytes(ts.drop_first());
        assert(terms_bytes(ts.push(e)) == a + (b + c));
        assert(a + (b + c) =~= (a + b) + c);
    }
}

fn write_u32(buf: &mut Vec<u8>, v: u32)
    ensures
        final(buf)@ == old(buf)@ + u32_bytes(v),
{
    buf.push((v % 256) as u8);
    buf.push(((v / 256) % 256) as u8);
    buf.push(((v / 65536) % 256) as u8);
    buf.push((v / 16777216) as u8);
    assert(buf@ =~= old(buf)@ + u32_bytes(v));
}

fn write_u64(buf: &mut Vec<u8>, v: u64)
    ensures
        final(buf)@ == old(buf)@ + u64_bytes(v),
{
    write_u32(buf, (v % 4294967296) as u32);
    write_u32(buf, (v / 4294967296) as u32);
    assert(buf@ =~= old(buf)@ + u64_bytes(v));
}

fn write_str(buf: &mut Vec<u8>, s: &str)
    ensures
        final(buf)@ == old(buf)@ + str_bytes(s@),
{
    let bytes = s.as_bytes();
    write_u32(buf, bytes.len() as u32);
    let ghost mid = buf@;
    let mut i: usize = 0;
    while i < bytes.len()
        invariant
            0 <= i <= bytes@.len(),
            buf@ == mid + bytes@.take(i as int),
        decreases bytes@.len() - i,
    {
        buf.push(bytes[i]);
        i = i + 1;
        assert(buf@ =~= mid + bytes@.take(i as int));
    }
    assert(bytes@.take(bytes@.len() as int) =~= bytes@);
    assert(buf@ =~= old(buf)@ + str_bytes(s@));
}

impl Index {
    /// The saved form of the index, with `avg_dl_bits` (the bits of the
    /// average document length as an `f64`) in its header.
    pub fn encode(&self, avg_dl_bits: u64) -> (r: Vec<u8>)
        ensures
            r@ == encoded(self@, avg_dl_bits),
    {
        let mut buf: Vec<u8> = Vec::new();
        buf.push(67u8);
        buf.push(80u8);
        buf.push(66u8);
        buf.push(49u8);
        assert(buf@ =~= magic());
        write_u32(&mut buf, self.docs.len() as u32);
        write_u64(&mut buf, avg_dl_bits);
        let ghost head = buf@;
        let ghost dv = self@.docs;
        let mut i: usize = 0;
        assert(dv.take(0) =~= Seq::<(Seq<char>, Seq<char>, u32)>::empty());
        while i < self.docs.len()
            invariant
                0 <= i <= self.docs@.len(),
                dv == self@.docs,
                dv.len() == self.docs@.len(),
                buf@ == head + docs_bytes(dv.take(i as int)),
            decreases self.docs@.len() - i,
        {
            let d = &self.docs[i];
            assert(dv[i as int] == doc_view(*d));
            write_str(&mut buf, d.topic.as_str());
            write_str(&mut buf, d.text.as_str());
            write_u32(&mut buf, d.token_count);
            proof {
                lemma_docs_bytes_push(dv.take(i as int), dv[i as int]);
                assert(dv.take(i + 1 as int) =~= dv.take(i as int).push(dv[i as int]));
            }
            i = i + 1;
            assert(buf@ =~= head + docs_bytes(dv.take(i as int)));
        }
        assert(dv.take(dv.len() as int) =~= dv);
        write_u32(&mut buf, self.terms.len() as u32);
        let ghost head2 = buf@;
        let ghost tv = self@.terms;
        let mut p: usize = 0;
        assert(tv.take(0) =~= Seq::<(Seq<char>, Seq<(u32, u32)>)>::empty());
        while p < self.terms.len()
            invariant
                0 <= p <= self.terms@.len(),
                tv == self@.terms,
                tv.len() == self.terms@.len(),
                buf@ == head2 + terms_bytes(tv.take(p as int)),
            decreases self.terms@.len() - p,
        {
            let e = &self.terms[p];
            assert(tv[p as int] == (e.0@, e.1@));
            write_str(&mut buf, e.0.as_str());
            write_u32(&mut buf, e.1.len() as u32);
            let ghost head3 = buf@;
            let mut k: usize = 0;
            assert(e.1@.take(0) =~= Seq::<(u32, u32)>::empty());
            while k < e.1.len()
                invariant
                    0 <= k <= e.1@.len(),
                    buf@ == head3 + pairs_bytes(e.1@.take(k as int)),
                decreases e.1@.len() - k,
            {
                let pair = e.1[k];
                write_u32(&mut buf, pair.0);
                write_u32(&mut buf, pair.1);
                proof {
                    lemma_pairs_bytes_push(e.1@.take(k as int), pair);
                    assert(e.1@.take(k + 1 as int) =~= e.1@.take(k as int).push(pair));
                }
                k = k + 1;
                assert(buf@ =~= head3 + pairs_bytes(e.1@.take(k as int)));
            }
            assert(e.1@.take(e.1@.len() as int) =~= e.1@);
            proof {
                lemma_terms_bytes_push(tv.take(p as int), tv[p as int]);
                assert(tv.take(p + 1 as int) =~= tv.take(p as int).push(tv[p as int]));
            }
            p = p + 1;
            assert(buf@ =~= head2 + terms_bytes(tv.take(p as int)));
        }
        assert(tv.take(tv.len() as int) =~= tv);
        assert(buf@ =~= encoded(self@, avg_dl_bits));
        buf
    }
}

// ---------------------------------------------------------------------------
// Reading the saved form
// ---------------------------------------------------------------------------

/// Why a saved index could not be read.
#[derive(Debug, Clone, Copy, PartialEq, Eq, Structural)]
pub enum DecodeError {
    /// It does not start with `CPB1`.
    BadMagic,
    /// It ends in the middle of a field.
    Truncated,
    /// A string field is not UTF-8.
    InvalidUtf8,
}

pub open spec fn dec_u32(data: Seq<u8>, pos: int) -> Result<(u32, int), DecodeError> {
    if pos + 4 <= data.len() {
        Ok((le_value(data.subrange(pos, pos + 4)) as u32, pos + 4))
    } else {
        Err(DecodeError::Truncated)
    }
}

pub open spec fn dec_u64(data: Seq<u8>, pos: int) -> Result<(u64, int), DecodeError> {
    if pos + 8 <= data.len() {
        Ok((le_value(data.subrange(pos, pos + 8)) as u64, pos + 8))
    } else {
        Err(DecodeError::Truncated)
    }
}

pub open spec fn dec_str(data: Seq<u8>, pos: int) -> Result<(Seq<char>, int), DecodeError> {
    match dec_u32(data, pos) {
        Ok((n, p)) => if p + n > data.len() {
            Err(DecodeError::Truncated)
        } else if vstd::utf8::valid_utf8(data.subrange(p, p + n)) {
            Ok((vstd::utf8::decode_utf8(data.subrange(p, p + n)), p + n))
        } else {
            Err(DecodeError::InvalidUtf8)
        },
        Err(e) => Err(e),
    }
}

pub open spec fn dec_doc(data: Seq<u8>, pos: int) -> Result<((Seq<char>, Seq<char>, u32), int), DecodeError> {
    match dec_str(data, pos) {
        Err(e) => Err(e),
        Ok((a, p1)) => match dec_str(data, p1) {
            Err(e) => Err(e),
            Ok((b, p2)) => match dec_u32(data, p2) {
                Err(e) => Err(e),
                Ok((c, p3)) => Ok(((a, b, c), p3)),
            },
        },
    }
}

pub open spec fn dec_docs(data: Seq<u8>, pos: int, n: nat) -> Result<(Seq<(Seq<char>, Seq<char>, u32)>, int), DecodeError>
    decreases n,
{
    if n == 0 {
        Ok((Seq::empty(), pos))
    } else {
        match dec_doc(data, pos) {
            Err(e) => Err(e),
            Ok((d, p)) => match dec_docs(data, p, (n - 1) as nat) {
                Err(e) => Err(e),
                Ok((ds, q)) => Ok((seq![d] + ds, q)),
            },
        }
    }
}

pub open spec fn dec_pair(data: Seq<u8>, pos: int) -> Result<((u32, u32), int), DecodeError> {
    match dec_u32(data, pos) {
        Err(e) => Err(e),
        Ok((a, p1)) => match dec_u32(data, p1) {
            Err(e) => Err(e),
            Ok((b, p2)) => Ok(((a, b), p2)),
        },
    }
}

pub open spec fn dec_pairs(data: Seq<u8>, pos: int, n: nat) -> Result<(Seq<(u32, u32)>, int), DecodeError>
    decreases n,
{
    if n == 0 {
        Ok((Seq::empty(), pos))
    } else {
        match dec_pair(data, pos) {
            Err(e) => Err(e),
            Ok((x, p)) => match dec_pairs(data, p, (n - 1) as nat) {
                Err(e) => Err(e),
                Ok((xs, q)) => Ok((seq![x] + xs, q)),
            },
        }
    }
}

pub open spec fn dec_term(data: Seq<u8>, pos: int) -> Result<((Seq<char>, Seq<(u32, u32)>), int), DecodeError> {
    match dec_str(data, pos) {
        Err(e) => Err(e),
        Ok((t, p1)) => match dec_u32(data, p1) {
            Err(e) => Err(e),
            Ok((n, p2)) => match dec_pairs(data, p2, n as nat) {
                Err(e) => Err(e),
                Ok((ps, p3)) => Ok(((t, ps), p3)),
            },
        },
    }
}

pub open spec fn dec_terms(data: Seq<u8>, pos: int, n: nat) -> Result<(Seq<(Seq<char>, Seq<(u32, u32)>)>, int), DecodeError>
    decreases n,
{
    if n == 0 {
        Ok((Seq::empty(), pos))
    } else {
        match dec_term(data, pos) {
            Err(e) => Err(e),
            Ok((x, p)) => match dec_terms(data, p, (n - 1) as nat) {
                Err(e) => Err(e),
                Ok((xs, q)) => Ok((seq![x] + xs, q)),
            },
        }
    }
}

pub open spec fn after_terms(
    ds: Seq<(Seq<char>, Seq<char>, u32)>,
    bits: u64,
    r: Result<(Seq<(Seq<char>, Seq<(u32, u32)>)>, int), DecodeError>,
) -> Result<(Seq<(Seq<char>, Seq<char>, u32)>, u64, Seq<(Seq<char>, Seq<(u32, u32)>)>), DecodeError> {
    match r {
        Err(e) => Err(e),
        Ok((ts, _)) => Ok((ds, bits, ts)),
    }
}

pub open spec fn after_docs(
    data: Seq<u8>,
    bits: u64,
    r: Result<(Seq<(Seq<char>, Seq<char>, u32)>, int), DecodeError>,
) -> Result<(Seq<(Seq<char>, Seq<char>, u32)>, u64, Seq<(Seq<char>, Seq<(u32, u32)>)>), DecodeError> {
    match r {
        Err(e) => Err(e),
        Ok((ds, p3)) => match dec_u32(data, p3) {
            Err(e) => Err(e),
            Ok((nt, p4)) => after_terms(ds, bits, dec_terms(data, p4, nt as nat)),
        },
    }
}

/// What a saved index holds: its documents, the bits of its average document
/// length, and its terms in the order they were written.  Bytes after the
/// last term are ignored.
pub open spec fn decoded(data: Seq<u8>) -> Result<(Seq<(Seq<char>, Seq<char>, u32)>, u64, Seq<(Seq<char>, Seq<(u32, u32)>)>), DecodeError> {
    if data.len() < 4 || data.take(4) != magic() {
        Err(DecodeError::BadMagic)
    } else {
        match dec_u32(data, 4) {
            Err(e) => Err(e),
            Ok((nd, p1)) => match dec_u64(data, p1) {
                Err(e) => Err(e),
                Ok((bits, p2)) => after_docs(data, bits, dec_docs(data, p2, nd as nat)),
            },
        }
    }
}

/// The posting list of the last listing of `t` (a later listing of a term
/// replaces an earlier one).
pub open spec fn lookup_last(ts: Seq<(Seq<char>, Seq<(u32, u32)>)>, t: Seq<char>) -> Option<Seq<(u32, u32)>>
    decreases ts.len(),
{
    if ts.len() == 0 {
        None
    } else if ts.last().0 == t {
        Some(ts.last().1)
    } else {
        lookup_last(ts.drop_last(), t)
    }
}

pub open spec fn then_seq<A>(prefix: Seq<A>, r: Result<(Seq<A>, int), DecodeError>) -> Result<(Seq<A>, int), DecodeError> {
    match r {
        Ok((xs, p)) => Ok((prefix + xs, p)),
        Err(e) => Err(e),
    }
}

fn read_u32(data: &[u8], pos: &mut usize) -> (r: Result<u32, DecodeError>)
    requires
        *old(pos) <= data@.len(),
    ensures
        *final(pos) <= data@.len(),
        match dec_u32(data@, *old(pos) as int) {
            Ok((v, p)) => r == Ok::<u32, DecodeError>(v) && *final(pos) == p,
            Err(e) => r == Err::<u32, DecodeError>(e) && *final(pos) == *old(pos),
        },
{
    let p = *pos;
    if data.len() - p < 4 {
        return Err(DecodeError::Truncated);
    }
    let v = (data[p] as u32) + (data[p + 1] as u32) * 256 + (data[p + 2] as u32) * 65536 + (
    data[p + 3] as u32) * 16777216;
    proof {
        let b = data@.subrange(p as int, p + 4);
        reveal_with_fuel(le_value, 5);
        assert(b.drop_first().drop_first().drop_first().drop_first() =~= Seq::<u8>::empty());
        assert(le_value(b) == b[0] as nat + 256 * (b[1] as nat + 256 * (b[2] as nat + 256 * (
        b[3] as nat)))) by {
            assert(b.drop_first()[0] == b[1]);
            assert(b.drop_first().drop_first()[0] == b[2]);
            assert(b.drop_first().drop_first().drop_first()[0] == b[3]);
        }
    }
    *pos = p + 4;
    Ok(v)
}

fn read_u64(data: &[u8], pos: &mut usize) -> (r: Result<u64, DecodeError>)
    requires
        *old(pos) <= data@.len(),
    ensures
        *final(pos) <= data@.len(),
        match dec_u64(data@, *old(pos) as int) {
            Ok((v, p)) => r == Ok::<u64, DecodeError>(v) && *final(pos) == p,
            Err(e) => r == Err::<u64, DecodeError>(e) && *final(pos) == *old(pos),
        },
{
    let p = *pos;
    if data.len() - p < 8 {
        return Err(DecodeError::Truncated);
    }
    let mut v: u64 = 0;
    let mut k: usize = 8;
    let dl = data.len();
    while k > 0
        invariant
            0 <= k <= 8,
            dl == data@.len(),
            p + 8 <= data@.len(),
            v == le_value(data@.subrange(p + k, p + 8)),
            v < pow256((8 - k) as nat),
        decreases k,
    {
        k = k - 1;
        let ghost old_v = v;
        proof {
            let b = data@.subrange(p + k, p + 8);
            assert(b.drop_first() =~= data@.subrange(p + k + 1, p + 8));
            assert(b[0] == data@[p + k]);
            assert(pow256((8 - k) as nat) == 256 * pow256((8 - k - 1) as nat));
            assert(pow256((8 - k) as nat) <= pow256(8)) by {
                lemma_pow256_mono((8 - k) as nat, 8);
            }
            assert(pow256(8) == 18446744073709551616) by {
                reveal_with_fuel(pow256, 9);
            }
            assert(old_v * 256 + data@[p + k] < pow256((8 - k) as nat)) by (nonlinear_arith)
                requires
                    old_v < pow256((8 - k - 1) as nat),
                    data@[p + k] < 256,
                    pow256((8 - k) as nat) == 256 * pow256((8 - k - 1) as nat),
            ;
        }
        v = v * 256 + data[p + k] as u64;
    }
    *pos = p + 8;
    Ok(v)
}

pub open spec fn pow256(k: nat) -> nat
    decreases k,
{
    if k == 0 {
        1
    } else {
        256 * pow256((k - 1) as nat)
    }
}

proof fn lemma_pow256_mono(a: nat, b: nat)
    requires
        a <= b,
    ensures
        pow256(a) <= pow256(b),
    decreases b - a,
{
    if a < b {
        lemma_pow256_mono(a, (b - 1) as nat);
    }
}

fn read_str(data: &[u8], pos: &mut usize) -> (r: Result<String, DecodeError>)
    requires
        *old(pos) <= data@.len(),
    ensures
        *final(pos) <= data@.len(),
        match dec_str(data@, *old(pos) as int) {
            Ok((s, p)) => r matches Ok(x) && x@ == s && *final(pos) == p,
            Err(e) => r == Err::<String, DecodeError>(e),
        },
{
    let n = match read_u32(data, pos) {
        Ok(n) => n,
        Err(e) => return Err(e),
    };
    let p = *pos;
    if n as usize > data.len() - p {
        return Err(DecodeError::Truncated);
    }
    let end = p + n as usize;
    let mut bytes: Vec<u8> = Vec::new();
    let mut i: usize = p;
    while i < end
        invariant
            p <= i <= end <= data@.len(),
            bytes@ == data@.subrange(p as int, i as int),
        decreases end - i,
    {
        bytes.push(data[i]);
        i = i + 1;
        assert(bytes@ =~= data@.subrange(p as int, i as int));
    }
    match crate::text::string_from_utf8(bytes) {
        Some(s) => {
            *pos = end;
            Ok(s)
        },
        None => Err(DecodeError::InvalidUtf8),
    }
}

fn read_doc(data: &[u8], pos: &mut usize) -> (r: Result<Doc, DecodeError>)
    requires
        *old(pos) <= data@.len(),
    ensures
        *final(pos) <= data@.len(),
        match dec_doc(data@, *old(pos) as int) {
            Ok((d, p)) => r matches Ok(x) && doc_view(x) == d && *final(pos) == p,
            Err(e) => r matches Err(x) && x == e,
        },
{
    let topic = match read_str(data, pos) {
        Ok(s) => s,
        Err(e) => return Err(e),
    };
    let text = match read_str(data, pos) {
        Ok(s) => s,
        Err(e) => return Err(e),
    };
    let token_count = match read_u32(data, pos) {
        Ok(v) => v,
        Err(e) => return Err(e),
    };
    Ok(Doc { topic, text, token_count })
}

fn read_term(data: &[u8], pos: &mut usize) -> (r: Result<(String, Vec<(u32, u32)>), DecodeError>)
    requires
        *old(pos) <= data@.len(),
    ensures
        *final(pos) <= data@.len(),
        match dec_term(data@, *old(pos) as int) {
            Ok((t, p)) => r matches Ok(x) && (x.0@, x.1@) == t && *final(pos) == p,
            Err(e) => r matches Err(x) && x == e,
        },
{
    let term = match read_str(data, pos) {
        Ok(s) => s,
        Err(e) => return Err(e),
    };
    let n = match read_u32(data, pos) {
        Ok(v) => v,
        Err(e) => return Err(e),
    };
    let ghost start = *pos as int;
    let ghost whole = dec_term(data@, *old(pos) as int);
    assert(whole == match dec_pairs(data@, start, n as nat) {
        Err(e) => Err(e),
        Ok((ps, p3)) => Ok(((term@, ps), p3)),
    });
    let mut posts: Vec<(u32, u32)> = Vec::new();
    let mut i: u32 = 0;
    assert(then_seq(posts@, dec_pairs(data@, start, n as nat)) =~= dec_pairs(data@, start, n as nat)) by {
        match dec_pairs(data@, start, n as nat) {
            Ok((xs, q)) => {
                assert(posts@ + xs =~= xs);
            },
            Err(e) => {},
        }
    }
    while i < n
        invariant
            0 <= i <= n,
            *pos <= data@.len(),
            dec_pairs(data@, start, n as nat) == then_seq(posts@, dec_pairs(data@, *pos as int, (n - i) as nat)),
            whole == dec_term(data@, *old(pos) as int),
            whole == match dec_pairs(data@, start, n as nat) {
                Err(e) => Err(e),
                Ok((ps, p3)) => Ok(((term@, ps), p3)),
            },
        decreases n - i,
    {
        let ghost before = posts@;
        let ghost p0 = *pos as int;
        let a = match read_u32(data, pos) {
            Ok(v) => v,
            Err(e) => {
                assert(dec_pairs(data@, p0, (n - i) as nat) == Err::<(Seq<(u32, u32)>, int), DecodeError>(e));
                return Err(e);
            },
        };
        let b = match read_u32(data, pos) {
            Ok(v) => v,
            Err(e) => {
                assert(dec_pairs(data@, p0, (n - i) as nat) == Err::<(Seq<(u32, u32)>, int), DecodeError>(e));
                return Err(e);
            },
        };
        posts.push((a, b));
        proof {
            let rest = dec_pairs(data@, *pos as int, (n - i - 1) as nat);
            assert(dec_pairs(data@, p0, (n - i) as nat) == match rest {
                Err(e) => Err(e),
                Ok((xs, q)) => Ok((seq![(a, b)] + xs, q)),
            });
            match rest {
                Ok((xs, q)) => {
                    assert(before + (seq![(a, b)] + xs) =~= posts@ + xs);
                },
                Err(e) => {},
            }
        }
        i = i + 1;
    }
    assert(dec_pairs(data@, *pos as int, 0) == Ok::<(Seq<(u32, u32)>, int), DecodeError>((Seq::empty(), *pos as int)));
    assert(posts@ + Seq::<(u32, u32)>::empty() =~= posts@);
    Ok((term, posts))
}

proof fn lemma_lookup_unique(ts: Seq<(Seq<char>, Seq<(u32, u32)>)>, p: int)
    requires
        distinct_terms(ts),
        0 <= p < ts.len(),
    ensures
        lookup(ts, ts[p].0) == Some(ts[p].1),
{
    let t = ts[p].0;
    assert(ts[p].0 == t);
    let c = choose|c: int| 0 <= c < ts.len() && #[trigger] ts[c].0 == t;
    if c < p {
        assert(ts[c].0 != ts[p].0);
    } else if c > p {
        assert(ts[p].0 != ts[c].0);
    }
}

fn same_as(s: &String, cs: &[char]) -> (r: bool)
    ensures
        r == (s@ == cs@),
{
    let sc = chars_of(s.as_str());
    crate::text::same_chars(sc.as_slice(), cs)
}

/// Adds or replaces the listing of a term.
fn put_term(terms: &mut Vec<(String, Vec<(u32, u32)>)>, e: (String, Vec<(u32, u32)>), Ghost(read): Ghost<Seq<(Seq<char>, Seq<(u32, u32)>)>>)
    requires
        distinct_terms(terms_view(old(terms)@)),
        forall|t: Seq<char>| #[trigger] lookup(terms_view(old(terms)@), t) == lookup_last(read, t),
    ensures
        distinct_terms(terms_view(final(terms)@)),
        forall|t: Seq<char>| #[trigger] lookup(terms_view(final(terms)@), t) == lookup_last(read.push((e.0@, e.1@)), t),
{
    let ghost f = |x: (String, Vec<(u32, u32)>)| (x.0@, x.1@);
    let ghost old_v = terms_view(terms@);
    assert(old_v == terms@.map_values(f));
    let ghost ev = (e.0@, e.1@);
    let ec = chars_of(e.0.as_str());
    let mut p: usize = 0;
    while p < terms.len() && !same_as(&terms[p].0, ec.as_slice())
        invariant
            0 <= p <= terms@.len(),
            ec@ == e.0@,
            old_v == terms_view(terms@),
            forall|q: int| 0 <= q < p ==> #[trigger] old_v[q].0 != e.0@,
        decreases terms@.len() - p,
    {
        p = p + 1;
    }
    proof {
        assert(read.push(ev).drop_last() =~= read);
        assert(read.push(ev).last() == ev);
    }
    if p < terms.len() {
        assert(old_v[p as int].0 == e.0@) by {
            assert(old_v[p as int] == f(terms@[p as int]));
        }
        terms.set(p, e);
        proof {
            let nv = terms_view(terms@);
            assert(nv == terms@.map_values(f));
            assert(nv =~= old_v.update(p as int, ev));
            assert forall|a: int, b: int| 0 <= a < b < nv.len() implies #[trigger] nv[a].0 != #[trigger] nv[b].0 by {
                if a != p && b != p {
                    assert(old_v[a].0 != old_v[b].0);
                } else if a == p {
                    assert(old_v[a].0 != old_v[b].0);
                } else {
                    assert(old_v[a].0 != old_v[b].0);
                }
            }
            assert forall|t: Seq<char>| #[trigger] lookup(nv, t) == lookup_last(read.push(ev), t) by {
                assert(lookup(terms_view(old(terms)@), t) == lookup_last(read, t));
                assert(old_v == terms_view(old(terms)@));
                if t == ev.0 {
                    lemma_lookup_unique(nv, p as int);
                } else {
                    if exists|c: int| 0 <= c < old_v.len() && #[trigger] old_v[c].0 == t {
                        let c = choose|c: int| 0 <= c < old_v.len() && #[trigger] old_v[c].0 == t;
                        assert(nv[c].0 == t);
                        lemma_lookup_unique(old_v, c);
                        lemma_lookup_unique(nv, c);
                    } else {
                        assert forall|c: int| 0 <= c < nv.len() implies #[trigger] nv[c].0 != t by {
                            if c != p {
                                assert(nv[c] == old_v[c]);
                            }
                        }
                    }
                }
            }
        }
    } else {
        terms.push(e);
        proof {
            let nv = terms_view(terms@);
            assert(nv == terms@.map_values(f));
            assert(nv =~= old_v.push(ev));
            assert forall|a: int, b: int| 0 <= a < b < nv.len() implies #[trigger] nv[a].0 != #[trigger] nv[b].0 by {
                if b == old_v.len() {
                    assert(old_v[a].0 != e.0@);
                } else {
                    assert(old_v[a].0 != old_v[b].0);
                }
            }
            assert forall|t: Seq<char>| #[trigger] lookup(nv, t) == lookup_last(read.push(ev), t) by {
                assert(lookup(terms_view(old(terms)@), t) == lookup_last(read, t));
                assert(old_v == terms_view(old(terms)@));
                if t == ev.0 {
                    lemma_lookup_unique(nv, old_v.len() as int);
                } else {
                    if exists|c: int| 0 <= c < old_v.len() && #[trigger] old_v[c].0 == t {
                        let c = choose|c: int| 0 <= c < old_v.len() && #[trigger] old_v[c].0 == t;
                        assert(nv[c].0 == t);
                        lemma_lookup_unique(old_v, c);
                        lemma_lookup_unique(nv, c);
                    } else {
                        assert forall|c: int| 0 <= c < nv.len() implies #[trigger] nv[c].0 != t by {
                            if c < old_v.len() {
                                assert(nv[c] == old_v[c]);
                            }
                        }
                    }
                }
            }
        }
    }
}

impl Index {
    /// Reads a saved index, and the bits of the average document length
    /// stored in it.  A term listed twice keeps its last listing.
    pub fn decode(data: &[u8]) -> (r: Result<(Index, u64), DecodeError>)
        ensures
            match decoded(data@) {
                Err(e) => r matches Err(x) && x == e,
                Ok((ds, bits, ts)) => r matches Ok((idx, b)) && idx@.docs == ds && b == bits
                    && distinct_terms(idx@.terms) && forall|t: Seq<char>| #[trigger] lookup(idx@.terms, t)
                    == lookup_last(ts, t),
            },
    {
        if data.len() < 4 || data[0] != 67u8 || data[1] != 80u8 || data[2] != 66u8 || data[3] != 49u8 {
            proof {
                if data@.len() >= 4 && data@.take(4) == magic() {
                    assert(data@.take(4)[0] == data@[0]);
                    assert(data@.take(4)[1] == data@[1]);
                    assert(data@.take(4)[2] == data@[2]);
                    assert(data@.take(4)[3] == data@[3]);
                }
            }
            return Err(DecodeError::BadMagic);
        }
        assert(data@.take(4) =~= magic());
        let mut pos: usize = 4;
        let num_docs = match read_u32(data, &mut pos) {
            Ok(v) => v,
            Err(e) => return Err(e),
        };
        let avg_bits = match read_u64(data, &mut pos) {
            Ok(v) => v,
            Err(e) => return Err(e),
        };
        let ghost dstart = pos as int;
        let mut docs: Vec<Doc> = Vec::new();
        let mut i: u32 = 0;
        assert(docs@.map_values(|d: Doc| doc_view(d)) =~= Seq::<(Seq<char>, Seq<char>, u32)>::empty());
        assert(then_seq(Seq::<(Seq<char>, Seq<char>, u32)>::empty(), dec_docs(data@, dstart, num_docs as nat))
            =~= dec_docs(data@, dstart, num_docs as nat)) by {
            match dec_docs(data@, dstart, num_docs as nat) {
                Ok((xs, q)) => {
                    assert(Seq::<(Seq<char>, Seq<char>, u32)>::empty() + xs =~= xs);
                },
                Err(e) => {},
            }
        }
        while i < num_docs
            invariant
                0 <= i <= num_docs,
                pos <= data@.len(),
                dec_docs(data@, dstart, num_docs as nat) == then_seq(
                    docs@.map_values(|d: Doc| doc_view(d)),
                    dec_docs(data@, pos as int, (num_docs - i) as nat),
                ),
                decoded(data@) == after_docs(data@, avg_bits, dec_docs(data@, dstart, num_docs as nat)),
            decreases num_docs - i,
        {
            let ghost before = docs@.map_values(|d: Doc| doc_view(d));
            let ghost p0 = pos as int;
            let d = match read_doc(data, &mut pos) {
                Ok(d) => d,
                Err(e) => {
                    assert(dec_docs(data@, p0, (num_docs - i) as nat) == Err::<(Seq<(Seq<char>, Seq<char>, u32)>, int), DecodeError>(e));
                    return Err(e);
                },
            };
            let ghost dv = doc_view(d);
            docs.push(d);
            proof {
                assert(docs@.map_values(|d: Doc| doc_view(d)) =~= before.push(dv));
                let rest = dec_docs(data@, pos as int, (num_docs - i - 1) as nat);
                assert(dec_docs(data@, p0, (num_docs - i) as nat) == match rest {
                    Err(e) => Err(e),
                    Ok((xs, q)) => Ok((seq![dv] + xs, q)),
                });
                match rest {
                    Ok((xs, q)) => {
                        assert(before + (seq![dv] + xs) =~= before.push(dv) + xs);
                    },
                    Err(e) => {},
                }
            }
            i = i + 1;
        }
        let ghost dv_all = docs@.map_values(|d: Doc| doc_view(d));
        assert(dv_all + Seq::<(Seq<char>, Seq<char>, u32)>::empty() =~= dv_all);
        let num_terms = match read_u32(data, &mut pos) {
            Ok(v) => v,
            Err(e) => return Err(e),
        };
        let ghost tstart = pos as int;
        let mut terms: Vec<(String, Vec<(u32, u32)>)> = Vec::new();
        let ghost mut read: Seq<(Seq<char>, Seq<(u32, u32)>)> = Seq::empty();
        let mut j: u32 = 0;
        assert(then_seq(read, dec_terms(data@, tstart, num_terms as nat)) =~= dec_terms(data@, tstart, num_terms as nat)) by {
            match dec_terms(data@, tstart, num_terms as nat) {
                Ok((xs, q)) => {
                    assert(read + xs =~= xs);
                },
                Err(e) => {},
            }
        }
        proof {
            let v0 = terms_view(terms@);
            assert(v0.len() == 0);
            assert forall|t: Seq<char>| #[trigger] lookup(v0, t) == lookup_last(read, t) by {}
        }
        while j < num_terms
            invariant
                0 <= j <= num_terms,
                pos <= data@.len(),
                dec_terms(data@, tstart, num_terms as nat) == then_seq(read, dec_terms(data@, pos as int, (num_terms - j) as nat)),
                distinct_terms(terms_view(terms@)),
                forall|t: Seq<char>| #[trigger] lookup(terms_view(terms@), t) == lookup_last(read, t),
                decoded(data@) == after_terms(dv_all, avg_bits, dec_terms(data@, tstart, num_terms as nat)),
            decreases num_terms - j,
        {
            let ghost p0 = pos as int;
            let e = match read_term(data, &mut pos) {
                Ok(e) => e,
                Err(err) => {
                    assert(dec_terms(data@, p0, (num_terms - j) as nat) == Err::<(Seq<(Seq<char>, Seq<(u32, u32)>)>, int), DecodeError>(err));
                    return Err(err);
                },
            };
            let ghost ev = (e.0@, e.1@);
            put_term(&mut terms, e, Ghost(read));
            proof {
                let rest = dec_terms(data@, pos as int, (num_terms - j - 1) as nat);
                assert(dec_terms(data@, p0, (num_terms - j) as nat) == match rest {
                    Err(e) => Err(e),
                    Ok((xs, q)) => Ok((seq![ev] + xs, q)),
                });
                match rest {
                    Ok((xs, q)) => {
                        assert(read + (seq![ev] + xs) =~= read.push(ev) + xs);
                    },
                    Err(e) => {},
                }
                read = read.push(ev);
            }
            j = j + 1;
        }
        assert(read + Seq::<(Seq<char>, Seq<(u32, u32)>)>::empty() =~= read);
        let idx = Index { docs, terms };
        Ok((idx, avg_bits))
    }
}

// ---------------------------------------------------------------------------
// Saving then reading
// ---------------------------------------------------------------------------

/// `x` stands in `data` at offset `p`.
pub open spec fn stands_at(data: Seq<u8>, p: int, x: Seq<u8>) -> bool {
    0 <= p && p + x.len() <= data.len() && data.subrange(p, p + x.len()) == x
}

/// Every count and length of the index fits the `u32` it is saved as.
pub open spec fn fits_saved_form(v: IndexView) -> bool {
    &&& v.docs.len() <= u32::MAX
    &&& v.terms.len() <= u32::MAX
    &&& forall|i: int| 0 <= i < v.docs.len() ==> vstd::utf8::encode_utf8((#[trigger] v.docs[i]).0).len() <= u32::MAX
        && vstd::utf8::encode_utf8(v.docs[i].1).len() <= u32::MAX
    &&& forall|i: int| 0 <= i < v.terms.len() ==> vstd::utf8::encode_utf8((#[trigger] v.terms[i]).0).len() <= u32::MAX
        && v.terms[i].1.len() <= u32::MAX
}

proof fn lemma_split(data: Seq<u8>, p: int, a: Seq<u8>, b: Seq<u8>)
    requires
        stands_at(data, p, a + b),
    ensures
        stands_at(data, p, a),
        stands_at(data, p + a.len(), b),
{
    assert(data.subrange(p, p + a.len()) =~= (a + b).subrange(0, a.len() as int));
    assert((a + b).subrange(0, a.len() as int) =~= a);
    assert(data.subrange(p + a.len(), p + a.len() + b.len()) =~= (a + b).subrange(a.len() as int, (a + b).len() as int));
    assert((a + b).subrange(a.len() as int, (a + b).len() as int) =~= b);
}

proof fn lemma_le_u32(v: u32)
    ensures
        le_value(u32_bytes(v)) == v,
{
    let b = u32_bytes(v);
    reveal_with_fuel(le_value, 5);
    assert(b.drop_first().drop_first().drop_first().drop_first() =~= Seq::<u8>::empty());
    assert(b.drop_first()[0] == b[1]);
    assert(b.drop_first().drop_first()[0] == b[2]);
    assert(b.drop_first().drop_first().drop_first()[0] == b[3]);
    assert(le_value(b) == b[0] as nat + 256 * (b[1] as nat + 256 * (b[2] as nat + 256 * (b[3] as nat))));
    assert((v % 256) + 256 * ((v / 256) % 256) + 65536 * ((v / 65536) % 256) + 16777216 * (v / 16777216) == v) by (bit_vector);
}

#[verifier::spinoff_prover]
proof fn lemma_le_concat(a: Seq<u8>, b: Seq<u8>)
    ensures
        le_value(a + b) == le_value(a) + pow256(a.len()) * le_value(b),
    decreases a.len(),
{
    if a.len() == 0 {
        assert(a + b =~= b);
        assert(le_value(a) == 0);
        assert(pow256(a.len()) == 1);
        assert(le_value(a + b) == le_value(b));
    } else {
        let a1 = a.drop_first();
        lemma_le_concat(a1, b);
        assert((a + b).drop_first() =~= a1 + b);
        assert((a + b)[0] == a[0]);
        let x = a[0] as nat;
        let l = le_value(a1);
        let p = pow256(a1.len());
        let bb = le_value(b);
        assert(le_value(a1 + b) == l + p * bb);
        assert(le_value(a + b) == x + 256 * le_value(a1 + b));
        assert(le_value(a) == x + 256 * l);
        assert(pow256(a.len()) == 256 * p);
        assert(x + 256 * (l + p * bb) == (x + 256 * l) + (256 * p) * bb) by (nonlinear_arith);
        assert(le_value(a + b) == le_value(a) + pow256(a.len()) * le_value(b));
    }
}

proof fn lemma_le_u64(v: u64)
    ensures
        le_value(u64_bytes(v)) == v,
{
    let lo = (v % 4294967296) as u32;
    let hi = (v / 4294967296) as u32;
    lemma_le_u32(lo);
    lemma_le_u32(hi);
    lemma_le_concat(u32_bytes(lo), u32_bytes(hi));
    reveal_with_fuel(pow256, 5);
    assert(pow256(4) == 4294967296);
    assert(lo == v % 4294967296);
    assert(hi == v / 4294967296);
    assert(u64_bytes(v) == u32_bytes(lo) + u32_bytes(hi));
    assert(le_value(u64_bytes(v)) == lo + 4294967296 * hi);
}

proof fn lemma_dec_u32_at(data: Seq<u8>, p: int, v: u32)
    requires
        stands_at(data, p, u32_bytes(v)),
    ensures
        dec_u32(data, p) == Ok::<(u32, int), DecodeError>((v, p + 4)),
{
    lemma_le_u32(v);
}

proof fn lemma_dec_u64_at(data: Seq<u8>, p: int, v: u64)
    requires
        stands_at(data, p, u64_bytes(v)),
    ensures
        dec_u64(data, p) == Ok::<(u64, int), DecodeError>((v, p + 8)),
{
    lemma_le_u64(v);
}

proof fn lemma_dec_str_at(data: Seq<u8>, p: int, s: Seq<char>)
    requires
        stands_at(data, p, str_bytes(s)),
        vstd::utf8::encode_utf8(s).len() <= u32::MAX,
    ensures
        dec_str(data, p) == Ok::<(Seq<char>, int), DecodeError>((s, p + str_bytes(s).len())),
{
    broadcast use vstd::utf8::encode_utf8_valid_utf8, vstd::utf8::encode_utf8_decode_utf8;

    let e = vstd::utf8::encode_utf8(s);
    lemma_split(data, p, u32_bytes(e.len() as u32), e);
    lemma_dec_u32_at(data, p, e.len() as u32);
}

/// A string written in the saved form reads back: after any bytes `before`,
/// the length-prefixed UTF-8 bytes of `s` (its length fitting a `u32`), then
/// any bytes `after`, reading a string at `before.len()` gives `s` and moves
/// past its 4-byte length and its UTF-8 bytes.
pub proof fn lemma_saved_string_reads_back(before: Seq<u8>, s: Seq<char>, after: Seq<u8>)
    requires
        vstd::utf8::encode_utf8(s).len() <= u32::MAX,
    ensures
        dec_str(before + str_bytes(s) + after, before.len() as int) == Ok::<(Seq<char>, int), DecodeError>(
            (s, before.len() + 4 + vstd::utf8::encode_utf8(s).len() as int),
        ),
{
    let data = before + str_bytes(s) + after;
    let p = before.len() as int;
    lemma_le_u32(vstd::utf8::encode_utf8(s).len() as u32);
    assert(data.subrange(p, p + str_bytes(s).len()) =~= str_bytes(s));
    lemma_dec_str_at(data, p, s);
}

proof fn lemma_dec_docs_at(data: Seq<u8>, p: int, ds: Seq<(Seq<char>, Seq<char>, u32)>)
    requires
        stands_at(data, p, docs_bytes(ds)),
        forall|i: int| 0 <= i < ds.len() ==> vstd::utf8::encode_utf8((#[trigger] ds[i]).0).len() <= u32::MAX
            && vstd::utf8::encode_utf8(ds[i].1).len() <= u32::MAX,
    ensures
        dec_docs(data, p, ds.len()) == Ok::<(Seq<(Seq<char>, Seq<char>, u32)>, int), DecodeError>((ds, p + docs_bytes(ds).len())),
    decreases ds.len(),
{
    if ds.len() == 0 {
        assert(ds =~= Seq::<(Seq<char>, Seq<char>, u32)>::empty());
    } else {
        let d = ds[0];
        let rest = ds.drop_first();
        lemma_split(data, p, doc_bytes(d), docs_bytes(rest));
        lemma_split(data, p, str_bytes(d.0) + str_bytes(d.1), u32_bytes(d.2));
        lemma_split(data, p, str_bytes(d.0), str_bytes(d.1));
        lemma_dec_str_at(data, p, d.0);
        lemma_dec_str_at(data, p + str_bytes(d.0).len(), d.1);
        lemma_dec_u32_at(data, p + str_bytes(d.0).len() + str_bytes(d.1).len(), d.2);
        assert(dec_doc(data, p) == Ok::<((Seq<char>, Seq<char>, u32), int), DecodeError>((d, p + doc_bytes(d).len())));
        assert forall|i: int| 0 <= i < rest.len() implies vstd::utf8::encode_utf8((#[trigger] rest[i]).0).len() <= u32::MAX
            && vstd::utf8::encode_utf8(rest[i].1).len() <= u32::MAX by {
            assert(rest[i] == ds[i + 1]);
        }
        lemma_dec_docs_at(data, p + doc_bytes(d).len(), rest);
        assert(seq![d] + rest =~= ds);
    }
}

proof fn lemma_dec_pairs_at(data: Seq<u8>, p: int, ps: Seq<(u32, u32)>)
    requires
        stands_at(data, p, pairs_bytes(ps)),
    ensures
        dec_pairs(data, p, ps.len()) == Ok::<(Seq<(u32, u32)>, int), DecodeError>((ps, p + pairs_bytes(ps).len())),
    decreases ps.len(),
{
    if ps.len() == 0 {
        assert(ps =~= Seq::<(u32, u32)>::empty());
    } else {
        let x = ps[0];
        let rest = ps.drop_first();
        lemma_split(data, p, u32_bytes(x.0) + u32_bytes(x.1), pairs_bytes(rest));
        lemma_split(data, p, u32_bytes(x.0), u32_bytes(x.1));
        lemma_dec_u32_at(data, p, x.0);
        lemma_dec_u32_at(data, p + 4, x.1);
        lemma_dec_pairs_at(data, p + 8, rest);
        assert(seq![x] + rest =~= ps);
    }
}

proof fn lemma_dec_terms_at(data: Seq<u8>, p: int, ts: Seq<(Seq<char>, Seq<(u32, u32)>)>)
    requires
        stands_at(data, p, terms_bytes(ts)),
        forall|i: int| 0 <= i < ts.len() ==> vstd::utf8::encode_utf8((#[trigger] ts[i]).0).len() <= u32::MAX
            && ts[i].1.len() <= u32::MAX,
    ensures
        dec_terms(data, p, ts.len()) matches Ok((xs, _)) && xs == ts,
    decreases ts.len(),
{
    if ts.len() == 0 {
        assert(ts =~= Seq::<(Seq<char>, Seq<(u32, u32)>)>::empty());
    } else {
        let x = ts[0];
        let rest = ts.drop_first();
        lemma_split(data, p, term_bytes(x), terms_bytes(rest));
        lemma_split(data, p, str_bytes(x.0) + u32_bytes(x.1.len() as u32), pairs_bytes(x.1));
        lemma_split(data, p, str_bytes(x.0), u32_bytes(x.1.len() as u32));
        lemma_dec_str_at(data, p, x.0);
        let p1 = p + str_bytes(x.0).len();
        lemma_dec_u32_at(data, p1, x.1.len() as u32);
        lemma_dec_pairs_at(data, p1 + 4, x.1);
        assert(dec_term(data, p) == Ok::<((Seq<char>, Seq<(u32, u32)>), int), DecodeError>((x, p + term_bytes(x).len())));
        assert forall|i: int| 0 <= i < rest.len() implies vstd::utf8::encode_utf8((#[trigger] rest[i]).0).len() <= u32::MAX
            && rest[i].1.len() <= u32::MAX by {
            assert(rest[i] == ts[i + 1]);
        }
        lemma_dec_terms_at(data, p + term_bytes(x).len(), rest);
        assert(seq![x] + rest =~= ts);
    }
}

proof fn lemma_lookup_last_distinct(ts: Seq<(Seq<char>, Seq<(u32, u32)>)>, t: Seq<char>)
    requires
        distinct_terms(ts),
    ensures
        lookup_last(ts, t) == lookup(ts, t),
    decreases ts.len(),
{
    if ts.len() > 0 {
        let init = ts.drop_last();
        assert(distinct_terms(init)) by {
            assert forall|p: int, q: int| 0 <= p < q < init.len() implies #[trigger] init[p].0 != #[trigger] init[q].0 by {
                assert(init[p] == ts[p] && init[q] == ts[q]);
            }
        }
        lemma_lookup_last_distinct(init, t);
        if ts.last().0 == t {
            lemma_lookup_unique(ts, ts.len() - 1);
        } else {
            if exists|c: int| 0 <= c < init.len() && #[trigger] init[c].0 == t {
                let c = choose|c: int| 0 <= c < init.len() && #[trigger] init[c].0 == t;
                assert(ts[c] == init[c]);
                lemma_lookup_unique(init, c);
                lemma_lookup_unique(ts, c);
            } else {
                assert forall|c: int| 0 <= c < ts.len() implies #[trigger] ts[c].0 != t by {
                    if c < init.len() {
                        assert(ts[c] == init[c]);
                    }
                }
            }
        }
    }
}

proof fn lemma_encoded_layout(v: IndexView, bits: u64)
    ensures
        encoded(v, bits).len() >= 4,
        encoded(v, bits).take(4) == magic(),
        stands_at(encoded(v, bits), 4, u32_bytes(v.docs.len() as u32)),
        stands_at(encoded(v, bits), 8, u64_bytes(bits)),
        stands_at(encoded(v, bits), 16, docs_bytes(v.docs)),
        stands_at(encoded(v, bits), 16 + docs_bytes(v.docs).len() as int, u32_bytes(v.terms.len() as u32)),
        stands_at(encoded(v, bits), 20 + docs_bytes(v.docs).len() as int, terms_bytes(v.terms)),
{
    let data = encoded(v, bits);
    let a0 = magic();
    let a1 = u32_bytes(v.docs.len() as u32);
    let a2 = u64_bytes(bits);
    let a3 = docs_bytes(v.docs);
    let a4 = u32_bytes(v.terms.len() as u32);
    let a5 = terms_bytes(v.terms);
    assert(stands_at(data, 0, data)) by {
        assert(data.subrange(0, data.len() as int) =~= data);
    }
    assert(data == a0 + a1 + a2 + a3 + a4 + a5);
    lemma_split(data, 0, a0 + a1 + a2 + a3 + a4, a5);
    lemma_split(data, 0, a0 + a1 + a2 + a3, a4);
    lemma_split(data, 0, a0 + a1 + a2, a3);
    lemma_split(data, 0, a0 + a1, a2);
    lemma_split(data, 0, a0, a1);
    assert(data.take(4) =~= data.subrange(0, 4));
}

#[verifier::rlimit(60)]
/// Saving an index and reading it back gives the same documents, the same
/// average-length bits, and the same posting list for every term — for an
/// index whose counts and lengths fit the `u32`s of the saved form.
pub proof fn lemma_saved_index_reads_back(v: IndexView, bits: u64)
    requires
        distinct_terms(v.terms),
        fits_saved_form(v),
    ensures
        decoded(encoded(v, bits)) matches Ok((ds, b, ts)) && ds == v.docs && b == bits && forall|t: Seq<char>|
            #[trigger] lookup_last(ts, t) == lookup(v.terms, t),
{
    let data = encoded(v, bits);
    let a3 = docs_bytes(v.docs);
    lemma_encoded_layout(v, bits);
    lemma_dec_u32_at(data, 4, v.docs.len() as u32);
    lemma_dec_u64_at(data, 8, bits);
    assert forall|i: int| 0 <= i < v.docs.len() implies vstd::utf8::encode_utf8((#[trigger] v.docs[i]).0).len() <= u32::MAX
        && vstd::utf8::encode_utf8(v.docs[i].1).len() <= u32::MAX by {}
    lemma_dec_docs_at(data, 16, v.docs);
    lemma_dec_u32_at(data, 16 + a3.len() as int, v.terms.len() as u32);
    assert forall|i: int| 0 <= i < v.terms.len() implies vstd::utf8::encode_utf8((#[trigger] v.terms[i]).0).len() <= u32::MAX
        && v.terms[i].1.len() <= u32::MAX by {}
    lemma_dec_terms_at(data, 20 + a3.len() as int, v.terms);
    assert forall|t: Seq<char>| #[trigger] lookup_last(v.terms, t) == lookup(v.terms, t) by {
        lemma_lookup_last_distinct(v.terms, t);
    }
}

proof fn lemma_frequency_positive(toks: Seq<Seq<char>>, t: Seq<char>)
    requires
        toks.contains(t),
    ensures
        term_frequency(toks, t) >= 1,
    decreases toks.len(),
{
    let k = choose|k: int| 0 <= k < toks.len() && toks[k] == t;
    if toks.last() != t {
        assert(toks.drop_last()[k] == t);
        lemma_frequency_positive(toks.drop_last(), t);
    }
}

proof fn lemma_postings_contain(dt: Seq<Seq<Seq<char>>>, i: int, t: Seq<char>)
    requires
        0 <= i < dt.len(),
        term_frequency(dt[i], t) > 0,
    ensures
        postings_of(dt, t).contains((i as nat, term_frequency(dt[i], t))),
    decreases dt.len(),
{
    let init = dt.drop_last();
    let ps = postings_of(dt, t);
    if i == dt.len() - 1 {
        assert(ps[ps.len() - 1] == (i as nat, term_frequency(dt[i], t)));
    } else {
        assert(init[i] == dt[i]);
        lemma_postings_contain(init, i, t);
        let pi = postings_of(init, t);
        let k = choose|k: int| 0 <= k < pi.len() && pi[k] == (i as nat, term_frequency(dt[i], t));
        assert(ps[k] == pi[k]);
    }
}

/// Every token of an indexed entry finds that entry: the term's posting list
/// holds the entry's number with the token's (nonzero) frequency in it, both
/// as the `u32`s of the index.
pub proof fn lemma_tokens_are_findable(v: IndexView, entries: Seq<(String, String)>, i: int, t: Seq<char>)
    requires
        indexes(v, entries),
        0 <= i < entries.len(),
        tokens_of(entries[i].1@).contains(t),
    ensures
        term_frequency(tokens_of(entries[i].1@), t) >= 1,
        lookup(v.terms, t) matches Some(ps) && ps.contains(
            (i as u32, term_frequency(tokens_of(entries[i].1@), t) as u32),
        ),
{
    let all = entry_tokens(entries);
    let toks = tokens_of(entries[i].1@);
    assert(all[i] == toks);
    lemma_frequency_positive(toks, t);
    lemma_postings_contain(all, i, t);
    let ps = postings_of(all, t);
    let f = term_frequency(toks, t);
    let k = choose|k: int| 0 <= k < ps.len() && ps[k] == (i as nat, f);
    assert(lookup(v.terms, t) == Some(stored_pairs(ps)));
    assert(stored_pairs(ps)[k] == (i as u32, f as u32));
}

} // verus!
