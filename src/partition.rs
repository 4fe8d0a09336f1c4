use vstd::prelude::*;
use crate::names::{texts, contains_name, same_names};

verus! {

/// What one node reported: its hostname and the hostnames it sees as
/// network neighbours (not necessarily symmetric).
pub struct NodeFact {
    pub hostname: String,
    pub neighbors: Vec<String>,
}

/// A failure domain: a sequential id and the hostnames it holds.
pub struct FailureDomain {
    pub id: usize,
    pub members: Vec<String>,
}

/// The set of hostnames a domain holds.
pub open spec fn member_set(d: FailureDomain) -> Set<Seq<char>> {
    texts(d.members@).to_set()
}

/// The candidate domain of one node: the node and its declared neighbours.
pub open spec fn candidate(f: NodeFact) -> Set<Seq<char>> {
    set![f.hostname@] + texts(f.neighbors@).to_set()
}

pub open spec fn candidates(facts: Seq<NodeFact>) -> Seq<Set<Seq<char>>> {
    facts.map_values(|f: NodeFact| candidate(f))
}

/// The candidates in order, each kept only when no earlier kept candidate
/// has the same member set.
pub open spec fn accepted(c: Seq<Set<Seq<char>>>) -> Seq<Set<Seq<char>>>
    decreases c.len(),
{
    if c.len() == 0 {
        seq![]
    } else {
        let prev = accepted(c.drop_last());
        if prev.contains(c.last()) {
            prev
        } else {
            prev.push(c.last())
        }
    }
}

/// Every hostname that a fact names, as reporter or as neighbour.
pub open spec fn observed(facts: Seq<NodeFact>) -> Set<Seq<char>> {
    Set::new(|h: Seq<char>| exists|i: int| 0 <= i < facts.len() && #[trigger] candidate(facts[i]).contains(h))
}

/// The hostnames that reported facts.
pub open spec fn reporters(facts: Seq<NodeFact>) -> Set<Seq<char>> {
    Set::new(|h: Seq<char>| exists|i: int| 0 <= i < facts.len() && #[trigger] facts[i].hostname@ == h)
}

/// Union of the member sets of a sequence of domains.
pub open spec fn covered(d: Seq<Set<Seq<char>>>) -> Set<Seq<char>> {
    Set::new(|h: Seq<char>| exists|i: int| 0 <= i < d.len() && #[trigger] d[i].contains(h))
}

/// Whether a list of domains is the accepted sequence of `c`, with ids
/// 0, 1, 2, ... in order.
pub open spec fn domains_match(r: Seq<FailureDomain>, c: Seq<Set<Seq<char>>>) -> bool {
    &&& r.len() == accepted(c).len()
    &&& forall|k: int| 0 <= k < r.len() ==> (#[trigger] r[k]).id == k && member_set(r[k]) == accepted(c)[k]
    &&& forall|k: int| 0 <= k < r.len() ==> texts((#[trigger] r[k]).members@).no_duplicates()
}

/// The candidate domain of one fact, each hostname once.
fn candidate_members(f: &NodeFact) -> (r: Vec<String>)
    ensures
        texts(r@).to_set() == candidate(*f),
        texts(r@).no_duplicates(),
{
    let mut r: Vec<String> = Vec::new();
    r.push(f.hostname.clone());
    assert(texts(r@) =~= seq![f.hostname@]);
    assert(texts(r@).to_set() =~= set![f.hostname@]) by {
        assert(texts(r@)[0] == f.hostname@);
    }
    assert(texts(f.neighbors@.take(0)).to_set() =~= Set::empty());
    let mut j: usize = 0;
    while j < f.neighbors.len()
        invariant
            j <= f.neighbors.len(),
            texts(r@).to_set() == set![f.hostname@] + texts(f.neighbors@.take(j as int)).to_set(),
            texts(r@).no_duplicates(),
        decreases f.neighbors.len() - j,
    {
        let n = &f.neighbors[j];
        let ghost before = r@;
        assert(texts(f.neighbors@.take(j as int + 1)) =~= texts(f.neighbors@.take(j as int)).push(n@));
        if !contains_name(&r, n) {
            r.push(n.clone());
            assert(texts(r@) =~= texts(before).push(n@));
            proof {
                texts(before).lemma_push_to_set_commute(n@);
            }
            assert(texts(r@).to_set() =~= texts(before).to_set().insert(n@));
        } else {
            assert(texts(before).to_set().contains(n@));
        }
        proof {
            texts(f.neighbors@.take(j as int)).lemma_push_to_set_commute(n@);
        }
        assert(texts(r@).to_set() =~= set![f.hostname@] + texts(f.neighbors@.take(j as int + 1)).to_set());
        j += 1;
    }
    assert(f.neighbors@.take(f.neighbors.len() as int) =~= f.neighbors@);
    r
}

/// Groups nodes into failure domains. Each node proposes itself and its
/// declared neighbours as a domain; a proposal becomes a new domain, with the
/// next sequential id, unless an earlier domain has exactly the same members.
pub fn partition(facts: &Vec<NodeFact>) -> (r: Vec<FailureDomain>)
    ensures
        domains_match(r@, candidates(facts@)),
{
    let mut r: Vec<FailureDomain> = Vec::new();
    let mut i: usize = 0;
    while i < facts.len()
        invariant
            i <= facts.len(),
            domains_match(r@, candidates(facts@.take(i as int))),
        decreases facts.len() - i,
    {
        let cand = candidate_members(&facts[i]);
        let ghost c = candidates(facts@.take(i as int + 1));
        assert(c.drop_last() =~= candidates(facts@.take(i as int)));
        assert(c.last() == candidate(facts@[i as int]));
        let ghost prev = accepted(c.drop_last());
        let mut k: usize = 0;
        let mut found = false;
        while k < r.len() && !found
            invariant
                k <= r.len(),
                c.len() == i + 1,
                domains_match(r@, c.drop_last()),
                prev == accepted(c.drop_last()),
                texts(cand@).to_set() == c.last(),
                found ==> prev.contains(c.last()),
                !found ==> forall|m: int| 0 <= m < k ==> prev[m] != c.last(),
            decreases r.len() - k + (if found { 0int } else { 1int }),
        {
            if same_names(&r[k].members, &cand) {
                assert(prev[k as int] == c.last());
                found = true;
            } else {
                k += 1;
            }
        }
        if !found {
            assert(!prev.contains(c.last()));
            assert(accepted(c) == prev.push(c.last()));
            let ghost before = r@;
            r.push(FailureDomain { id: r.len(), members: cand });
            assert(r@ == before.push(r@.last()));
        } else {
            assert(accepted(c) == prev);
        }
        i += 1;
    }
    assert(facts@.take(facts.len() as int) =~= facts@);
    r
}

proof fn lemma_accepted_covered(c: Seq<Set<Seq<char>>>)
    ensures
        covered(accepted(c)) == covered(c),
    decreases c.len(),
{
    if c.len() > 0 {
        let init = c.drop_last();
        lemma_accepted_covered(init);
        let prev = accepted(init);
        assert(covered(c) =~= covered(init) + c.last()) by {
            assert forall|h: Seq<char>| covered(c).contains(h) implies (covered(init) + c.last()).contains(h) by {
                let i = choose|i: int| 0 <= i < c.len() && #[trigger] c[i].contains(h);
                if i < c.len() - 1 {
                    assert(init[i].contains(h));
                }
            }
            assert forall|h: Seq<char>| (covered(init) + c.last()).contains(h) implies covered(c).contains(h) by {
                if covered(init).contains(h) {
                    let i = choose|i: int| 0 <= i < init.len() && #[trigger] init[i].contains(h);
                    assert(c[i].contains(h));
                } else {
                    assert(c[c.len() - 1].contains(h));
                }
            }
        }
        if prev.contains(c.last()) {
            assert forall|h: Seq<char>| c.last().contains(h) implies covered(prev).contains(h) by {
                let j = choose|j: int| 0 <= j < prev.len() && prev[j] == c.last();
                assert(prev[j].contains(h));
            }
            assert(covered(accepted(c)) =~= covered(c));
        } else {
            let next = prev.push(c.last());
            assert(covered(next) =~= covered(prev) + c.last()) by {
                assert forall|h: Seq<char>| covered(next).contains(h) implies (covered(prev) + c.last()).contains(h) by {
                    let i = choose|i: int| 0 <= i < next.len() && #[trigger] next[i].contains(h);
                    if i < prev.len() {
                        assert(prev[i].contains(h));
                    }
                }
                assert forall|h: Seq<char>| (covered(prev) + c.last()).contains(h) implies covered(next).contains(h) by {
                    if covered(prev).contains(h) {
                        let i = choose|i: int| 0 <= i < prev.len() && #[trigger] prev[i].contains(h);
                        assert(next[i].contains(h));
                    } else {
                        assert(next[prev.len() as int].contains(h));
                    }
                }
            }
        }
    }
}

/// The domains that `partition` produces hold, together, exactly the
/// hostnames that the facts name, as reporters or as neighbours.
pub proof fn lemma_domains_cover_observed(facts: Seq<NodeFact>)
    ensures
        covered(accepted(candidates(facts))) == observed(facts),
{
    let c = candidates(facts);
    lemma_accepted_covered(c);
    assert forall|h: Seq<char>| covered(c).contains(h) implies observed(facts).contains(h) by {
        let i = choose|i: int| 0 <= i < c.len() && #[trigger] c[i].contains(h);
        assert(candidate(facts[i]).contains(h));
    }
    assert forall|h: Seq<char>| observed(facts).contains(h) implies covered(c).contains(h) by {
        let i = choose|i: int| 0 <= i < facts.len() && #[trigger] candidate(facts[i]).contains(h);
        assert(c[i].contains(h));
    }
    assert(covered(c) =~= observed(facts));
}

/// Where every declared neighbour also reported facts of its own, the
/// domains that `partition` produces hold, together, exactly the reporting
/// hostnames.
pub proof fn lemma_domains_cover_hosts(facts: Seq<NodeFact>)
    requires
        forall|i: int, j: int|
            0 <= i < facts.len() && 0 <= j < facts[i].neighbors@.len()
                ==> reporters(facts).contains(#[trigger] facts[i].neighbors@[j]@),
    ensures
        covered(accepted(candidates(facts))) == reporters(facts),
{
    lemma_domains_cover_observed(facts);
    assert forall|h: Seq<char>| observed(facts).contains(h) implies reporters(facts).contains(h) by {
        let i = choose|i: int| 0 <= i < facts.len() && #[trigger] candidate(facts[i]).contains(h);
        if h != facts[i].hostname@ {
            assert(texts(facts[i].neighbors@).to_set().contains(h));
            let j = choose|j: int| 0 <= j < texts(facts[i].neighbors@).len() && texts(facts[i].neighbors@)[j] == h;
            assert(reporters(facts).contains(facts[i].neighbors@[j]@));
        }
    }
    assert forall|h: Seq<char>| reporters(facts).contains(h) implies observed(facts).contains(h) by {
        let i = choose|i: int| 0 <= i < facts.len() && #[trigger] facts[i].hostname@ == h;
        assert(candidate(facts[i]).contains(h));
    }
    assert(observed(facts) =~= reporters(facts));
}

} // verus!
