//! Keys of the stored entry embeddings, and how the cached embedding
//! model's directory is recognised by its name.
use vstd::prelude::*;
use crate::text::{chars_of, contains, contains_seq, extend_chars, string_of};

verus! {

/// The key under which an entry's embedding is stored: `topic::text`.
pub open spec fn embedding_key(topic: Seq<char>, text: Seq<char>) -> Seq<char> {
    topic + seq![':', ':'] + text
}

/// The key of the embedding of entry `text` in `topic`.
pub fn make_id(topic: &str, text: &str) -> (r: String)
    ensures
        r@ == embedding_key(topic@, text@),
{
    let mut out = chars_of(topic);
    out.push(':');
    out.push(':');
    extend_chars(&mut out, chars_of(text).as_slice());
    let r = string_of(out.as_slice());
    assert(r@ =~= embedding_key(topic@, text@));
    r
}


/// `all-MiniLM`.
pub open spec fn hub_model_marker() -> Seq<char> {
    seq!['a', 'l', 'l', '-', 'M', 'i', 'n', 'i', 'L', 'M']
}

/// `all_minilm`.
pub open spec fn hub_model_marker_snake() -> Seq<char> {
    seq!['a', 'l', 'l', '_', 'm', 'i', 'n', 'i', 'l', 'm']
}

/// `minilm`.
pub open spec fn cache_model_marker() -> Seq<char> {
    seq!['m', 'i', 'n', 'i', 'l', 'm']
}

/// `MiniLM`.
pub open spec fn cache_model_marker_camel() -> Seq<char> {
    seq!['M', 'i', 'n', 'i', 'L', 'M']
}

/// Whether an entry of the model hub directory is the embedding model's:
/// its name contains `all-MiniLM` or `all_minilm`.
pub fn is_hub_model_dir(name: &str) -> (r: bool)
    ensures
        r == (contains_seq(name@, hub_model_marker()) || contains_seq(name@, hub_model_marker_snake())),
{
    let cs = chars_of(name);
    let a = vec!['a', 'l', 'l', '-', 'M', 'i', 'n', 'i', 'L', 'M'];
    let b = vec!['a', 'l', 'l', '_', 'm', 'i', 'n', 'i', 'l', 'm'];
    assert(a@ =~= hub_model_marker());
    assert(b@ =~= hub_model_marker_snake());
    contains(cs.as_slice(), a.as_slice()) || contains(cs.as_slice(), b.as_slice())
}

/// Whether an entry of the model cache directory is the embedding model's:
/// its name contains `minilm` or `MiniLM`.
pub fn is_cache_model_entry(name: &str) -> (r: bool)
    ensures
        r == (contains_seq(name@, cache_model_marker()) || contains_seq(name@, cache_model_marker_camel())),
{
    let cs = chars_of(name);
    let a = vec!['m', 'i', 'n', 'i', 'l', 'm'];
    let b = vec!['M', 'i', 'n', 'i', 'L', 'M'];
    assert(a@ =~= cache_model_marker());
    assert(b@ =~= cache_model_marker_camel());
    contains(cs.as_slice(), a.as_slice()) || contains(cs.as_slice(), b.as_slice())
}

/// Whether some entry of the model hub directory, given by its names, is the
/// embedding model's.
pub fn any_hub_model_dir(names: &Vec<String>) -> (r: bool)
    ensures
        r == exists|i: int| 0 <= i < names@.len() && (contains_seq(#[trigger] names@[i]@, hub_model_marker())
            || contains_seq(names@[i]@, hub_model_marker_snake())),
{
    let mut i: usize = 0;
    while i < names.len()
        invariant
            0 <= i <= names@.len(),
            forall|j: int| 0 <= j < i ==> !(contains_seq(#[trigger] names@[j]@, hub_model_marker())
                || contains_seq(names@[j]@, hub_model_marker_snake())),
        decreases names@.len() - i,
    {
        if is_hub_model_dir(names[i].as_str()) {
            return true;
        }
        i = i + 1;
    }
    false
}

/// Whether some entry of the model cache directory, given by its names, is
/// the embedding model's.
pub fn any_cache_model_entry(names: &Vec<String>) -> (r: bool)
    ensures
        r == exists|i: int| 0 <= i < names@.len() && (contains_seq(#[trigger] names@[i]@, cache_model_marker())
            || contains_seq(names@[i]@, cache_model_marker_camel())),
{
    let mut i: usize = 0;
    while i < names.len()
        invariant
            0 <= i <= names@.len(),
            forall|j: int| 0 <= j < i ==> !(contains_seq(#[trigger] names@[j]@, cache_model_marker())
                || contains_seq(names@[j]@, cache_model_marker_camel())),
        decreases names@.len() - i,
    {
        if is_cache_model_entry(names[i].as_str()) {
            return true;
        }
        i = i + 1;
    }
    false
}

} // verus!
