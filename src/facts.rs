use vstd::prelude::*;
use crate::names::texts;
use crate::partition::NodeFact;

verus! {

/// What `str::trim` leaves of a text.
pub uninterp spec fn trimmed(s: Seq<char>) -> Seq<char>;

/// The whitespace-separated words of a text, in order.
pub uninterp spec fn words(s: Seq<char>) -> Seq<Seq<char>>;

/// Relies on `str::trim`: leading and trailing whitespace removed; the
/// result depends on the text alone, and an empty text stays empty.
#[verifier::external_body]
fn trim(s: &str) -> (r: String)
    ensures
        r@ == trimmed(s@),
        s@.len() == 0 ==> r@.len() == 0,
{
    s.trim().to_string()
}

/// Relies on `str::split_whitespace`: the words in order, each owned; the
/// result depends on the text alone, and an empty text has no words.
#[verifier::external_body]
fn split_words(s: &str) -> (r: Vec<String>)
    ensures
        texts(r@) == words(s@),
        s@.len() == 0 ==> r@.len() == 0,
{
    s.split_whitespace().map(|w| w.to_string()).collect()
}

/// The fact that one node reported: its hostname, trimmed, and the words
/// of its neighbour list.
pub fn read_fact(hostname: &str, neighbors: &str) -> (r: NodeFact)
    ensures
        r.hostname@ == trimmed(hostname@),
        texts(r.neighbors@) == words(trimmed(neighbors@)),
{
    let host = trim(hostname);
    let list = trim(neighbors);
    let n = split_words(list.as_str());
    NodeFact { hostname: host, neighbors: n }
}

} // verus!
