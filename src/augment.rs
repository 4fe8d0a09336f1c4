use vstd::prelude::*;
use crate::names::texts;
use crate::partition::FailureDomain;
use crate::hierarchy::{table_view, item_ids, slot_id, slot_ids, Bucket, BucketAlg, Hierarchy};

verus! {

/// Type code given to each new domain bucket ("rack").
pub const RACK_TYPE: u16 = 3;

/// Type code given to the new aggregation bucket ("root").
pub const ROOT_TYPE: u16 = 10;

/// Hash function of new buckets (rjenkins1).
pub const HASH_RJENKINS1: u8 = 0;

/// Size word written ahead of a straw bucket.
pub const STRAW_SIZE_WORD: u32 = 4;

/// Why a hierarchy could not be augmented.
pub enum AugmentError {
    /// The identifier table is empty: nothing to anchor allocation.
    EmptyHierarchy,
    /// A hostname of the partition is not in the identifier table.
    UnknownDevice(String),
    /// The new identifiers would fall below the smallest `i32`.
    IdSpaceExhausted,
    /// The bucket count would not fit the hierarchy's `i32` bound.
    TooManyBuckets,
}

pub open spec fn digit(d: nat) -> char {
    seq!['0', '1', '2', '3', '4', '5', '6', '7', '8', '9'][d as int]
}

/// The decimal digits of `n`, without sign or padding.
pub open spec fn decimal(n: nat) -> Seq<char>
    decreases n,
{
    if n < 10 {
        seq![digit(n)]
    } else {
        decimal(n / 10).push(digit(n % 10))
    }
}

/// Name under which the bucket of domain `id` is registered.
/// Name under which the bucket of domain `id` is registered: its decimal
/// digits.
pub open spec fn domain_label(id: usize) -> Seq<char> {
    decimal(id as nat)
}

pub open spec fn root_label() -> Seq<char> {
    seq!['r', 'a', 'c', 'k', 's']
}

/// Relies on std's `Display` for `usize` (`to_string`): plain decimal
/// digits, no sign and no padding.
#[verifier::external_body]
fn decimal_name(id: usize) -> (r: String)
    ensures
        r@ == decimal(id as nat),
{
    id.to_string()
}

/// The name under which the new aggregation bucket is registered.
fn root_name() -> (r: String)
    ensures
        r@ == root_label(),
{
    proof {
        reveal_strlit("racks");
    }
    "racks".to_string()
}

/// The identifier of the last entry registered as an aggregation bucket
/// made by this library: named like one, with a negative identifier.
pub open spec fn prior_root(t: Seq<(i32, Seq<char>)>) -> Option<i32>
    decreases t.len(),
{
    if t.len() == 0 {
        None
    } else if t.last().1 == root_label() && t.last().0 < 0 {
        Some(t.last().0)
    } else {
        prior_root(t.drop_last())
    }
}

/// The last bucket with identifier `id`.
pub open spec fn find_bucket(bs: Seq<Option<Bucket>>, id: i32) -> Option<Bucket>
    decreases bs.len(),
{
    if bs.len() == 0 {
        None
    } else if slot_id(bs.last()) == Some(id) {
        bs.last()
    } else {
        find_bucket(bs.drop_last(), id)
    }
}

/// Whether `x` is the earlier aggregation bucket or a bucket below it.
pub open spec fn candidate_own(h: Hierarchy, x: i32) -> bool {
    match prior_root(table_view(h.name_map@)) {
        Some(r) => x == r || (x < 0 && match find_bucket(h.buckets@, r) {
            Some(b) => item_ids(b.items@).contains(x),
            None => false,
        }),
        None => false,
    }
}

/// Whether no other bucket has an earlier bucket of this library as item.
pub open spec fn self_contained(h: Hierarchy) -> bool {
    forall|i: int, j: int|
        0 <= i < h.buckets@.len() && h.buckets@[i] is Some && !candidate_own(h, h.buckets@[i]->0.id)
            && 0 <= j < h.buckets@[i]->0.items@.len() ==> !candidate_own(h, #[trigger] h.buckets@[i]->0.items@[j].0)
}

/// Whether `x` is a bucket that an earlier update made and this one
/// replaces. Nothing is replaced where another bucket refers to one of them.
pub open spec fn is_own(h: Hierarchy, x: i32) -> bool {
    self_contained(h) && candidate_own(h, x)
}

pub open spec fn own_pred(h: Hierarchy) -> spec_fn(i32) -> bool {
    |x: i32| is_own(h, x)
}

pub open spec fn entry_keep(own: spec_fn(i32) -> bool) -> spec_fn((i32, Seq<char>)) -> bool {
    |e: (i32, Seq<char>)| !own(e.0)
}

pub open spec fn slot_keep(own: spec_fn(i32) -> bool) -> spec_fn(Option<Bucket>) -> bool {
    |s: Option<Bucket>| match s {
        Some(b) => !own(b.id),
        None => true,
    }
}

pub open spec fn min(a: int, b: int) -> int {
    if a <= b { a } else { b }
}

/// The smallest of 0 and the values of `s`.
pub open spec fn min_of(s: Seq<i32>) -> int
    decreases s.len(),
{
    if s.len() == 0 {
        0
    } else {
        min(min_of(s.drop_last()), s.last() as int)
    }
}

/// The smallest of 0 and every bucket or item identifier of `bs`.
pub open spec fn slot_floor(bs: Seq<Option<Bucket>>) -> int
    decreases bs.len(),
{
    if bs.len() == 0 {
        0
    } else {
        min(slot_floor(bs.drop_last()), match bs.last() {
            Some(b) => min(b.id as int, min_of(item_ids(b.items@))),
            None => 0,
        })
    }
}

pub open spec fn table_ids(t: Seq<(i32, String)>) -> Seq<i32> {
    t.map_values(|e: (i32, String)| e.0)
}

/// The smallest of 0 and every identifier that `h` holds anywhere.
pub open spec fn floor_of(h: Hierarchy) -> int {
    min(min_of(table_ids(h.name_map@)), slot_floor(h.buckets@))
}

/// The identifier registered first under `host`, if any.
pub open spec fn lookup(t: Seq<(i32, Seq<char>)>, host: Seq<char>) -> Option<i32>
    decreases t.len(),
{
    if t.len() == 0 {
        None
    } else if t[0].1 == host {
        Some(t[0].0)
    } else {
        lookup(t.drop_first(), host)
    }
}

/// The `k`-th identifier handed out below `base`.
pub open spec fn fresh_id(base: int, k: int) -> int {
    base - 1 - k
}

/// The names of the new buckets: each domain's, in order, then the
/// aggregation bucket's.
pub open spec fn labels_of(p: Seq<FailureDomain>) -> Seq<Seq<char>> {
    Seq::new(p.len(), |k: int| domain_label(p[k].id)).push(root_label())
}

/// The entries registered for the new buckets, identifiers counting down
/// from just below `base`.
pub open spec fn new_entries(base: int, labels: Seq<Seq<char>>) -> Seq<(i32, Seq<char>)> {
    Seq::new(labels.len(), |k: int| (fresh_id(base, k) as i32, labels[k]))
}

/// Whether every member of every domain resolves in `t`.
pub open spec fn all_resolve(t: Seq<(i32, Seq<char>)>, p: Seq<FailureDomain>) -> bool {
    forall|k: int, j: int| 0 <= k < p.len() && 0 <= j < p[k].members@.len()
        ==> (#[trigger] lookup(t, p[k].members@[j]@)) is Some
}

/// The items of a domain's bucket: each member's identifier and name.
pub open spec fn member_items(t: Seq<(i32, Seq<char>)>, members: Seq<String>) -> Seq<(i32, Option<String>)> {
    members.map_values(|m: String| (lookup(t, m@)->0, Some(m)))
}

/// The names carried by a bucket's items.
pub open spec fn item_names(items: Seq<(i32, Option<String>)>) -> Seq<Option<Seq<char>>> {
    items.map_values(|e: (i32, Option<String>)| match e.1 {
        Some(s) => Some(s@),
        None => None,
    })
}

/// Whether some member of some domain has the text `host`.
pub open spec fn names_member(p: Seq<FailureDomain>, host: Seq<char>) -> bool {
    exists|k: int, j: int| 0 <= k < p.len() && 0 <= j < p[k].members@.len() && #[trigger] p[k].members@[j]@ == host
}

/// The identifiers of the new domain buckets, in domain order.
pub open spec fn domain_ids(base: int, n: nat) -> Seq<i32> {
    Seq::new(n, |k: int| fresh_id(base, k) as i32)
}

/// Whether the domain ids of `p` strictly increase.
pub open spec fn ascending(p: Seq<FailureDomain>) -> bool {
    forall|i: int, j: int| 0 <= i < j < p.len() ==> p[i].id < p[j].id
}

/// Hands out identifiers counting down, one per call.
pub struct IdAllocator {
    pub next: i64,
}

impl IdAllocator {
    /// An allocator whose first identifier is just below `lowest`.
    pub fn below(lowest: i32) -> (r: IdAllocator)
        ensures
            r.next == lowest - 1,
    {
        IdAllocator { next: lowest as i64 - 1 }
    }

    /// Hands out the next identifier.
    pub fn allocate(&mut self) -> (r: i32)
        requires
            old(self).next >= i32::MIN,
            old(self).next <= i32::MAX,
        ensures
            r == old(self).next,
            final(self).next == old(self).next - 1,
    {
        let r = self.next as i32;
        self.next = self.next - 1;
        r
    }
}

/// The identifier registered first under `host`.
fn find_id(t: &Vec<(i32, String)>, host: &String) -> (r: Option<i32>)
    ensures
        r == lookup(table_view(t@), host@),
{
    let ghost tv = table_view(t@);
    let mut i: usize = 0;
    assert(tv.skip(0) =~= tv);
    while i < t.len()
        invariant
            i <= t.len(),
            tv == table_view(t@),
            lookup(tv, host@) == lookup(tv.skip(i as int), host@),
        decreases t.len() - i,
    {
        assert(tv.skip(i as int)[0] == tv[i as int]);
        assert(tv.skip(i as int).drop_first() =~= tv.skip(i as int + 1));
        if t[i].1 == *host {
            return Some(t[i].0);
        }
        i += 1;
    }
    assert(tv.skip(i as int).len() == 0);
    None
}

fn vec_contains_id(v: &Vec<i32>, x: i32) -> (r: bool)
    ensures
        r == v@.contains(x),
{
    let mut i: usize = 0;
    while i < v.len()
        invariant
            i <= v.len(),
            forall|k: int| 0 <= k < i ==> v@[k] != x,
        decreases v.len() - i,
    {
        if v[i] == x {
            return true;
        }
        i += 1;
    }
    false
}

/// A straw bucket with neutral weights over the given items.
fn straw_bucket(id: i32, type_code: u16, items: Vec<(i32, Option<String>)>) -> (r: Bucket)
    ensures
        r.id == id,
        r.type_code == type_code,
        r.items@ == items@,
        r.weight == 0,
        r.hash == HASH_RJENKINS1,
        r.alg is Straw,
{
    let mut item_weights: Vec<(u32, u32)> = Vec::new();
    let mut k: usize = 0;
    while k < items.len()
        invariant
            k <= items.len(),
            item_weights@.len() == k,
        decreases items.len() - k,
    {
        item_weights.push((0, 0));
        k += 1;
    }
    let n = items.len();
    let size: u32 = if n <= u32::MAX as usize { n as u32 } else { u32::MAX };
    Bucket {
        struct_size: STRAW_SIZE_WORD,
        id,
        type_code,
        hash: HASH_RJENKINS1,
        weight: 0,
        items,
        perm_n: 0,
        perm: size,
        alg: BucketAlg::Straw { item_weights },
    }
}


/// The items of a domain's bucket: each member's identifier and name.
/// Fails with the first member that does not resolve.
fn domain_items(t: &Vec<(i32, String)>, members: &Vec<String>) -> (r: Result<Vec<(i32, Option<String>)>, String>)
    ensures
        r is Ok <==> forall|j: int| 0 <= j < members@.len() ==> (#[trigger] lookup(table_view(t@), members@[j]@)) is Some,
        r is Ok ==> r->Ok_0@ == member_items(table_view(t@), members@),
        r is Err ==> lookup(table_view(t@), r->Err_0@) is None && texts(members@).contains(r->Err_0@),
{
    let mut items: Vec<(i32, Option<String>)> = Vec::new();
    let mut j: usize = 0;
    while j < members.len()
        invariant
            j <= members.len(),
            forall|q: int| 0 <= q < j ==> (#[trigger] lookup(table_view(t@), members@[q]@)) is Some,
            items@ == member_items(table_view(t@), members@.take(j as int)),
        decreases members.len() - j,
    {
        let m = &members[j];
        match find_id(t, m) {
            Some(id) => {
                let ghost before = items@;
                let name = m.clone();
                items.push((id, Some(name)));
                assert(members@.take(j as int + 1) =~= members@.take(j as int).push(*m));
                assert(items@ =~= member_items(table_view(t@), members@.take(j as int + 1)));
            },
            None => {
                assert(texts(members@)[j as int] == m@);
                return Err(m.clone());
            },
        }
        j += 1;
    }
    assert(members@.take(members.len() as int) =~= members@);
    Ok(items)
}

/// Keeps the table entries whose identifier is not in `gone`.
fn keep_entries(t: Vec<(i32, String)>, gone: &Vec<i32>, Ghost(own): Ghost<spec_fn(i32) -> bool>) -> (r: Vec<(i32, String)>)
    requires
        forall|x: i32| gone@.contains(x) <==> own(x),
    ensures
        table_view(r@) == table_view(t@).filter(entry_keep(own)),
{
    let ghost tv = table_view(t@);
    let mut src = t;
    let mut keep: Vec<(i32, String)> = Vec::new();
    let ghost mut i: int = 0;
    while src.len() > 0
        invariant
            0 <= i <= tv.len(),
            src@.len() == tv.len() - i,
            table_view(src@) == tv.skip(i),
            forall|x: i32| gone@.contains(x) <==> own(x),
            table_view(keep@) == tv.take(i).filter(entry_keep(own)),
        decreases src.len(),
    {
        let ghost old_src = src@;
        assert(table_view(old_src)[0] == tv[i]);
        let e = src.remove(0);
        proof {
            assert(src@ =~= old_src.subrange(1, old_src.len() as int));
            assert(table_view(src@) =~= table_view(old_src).subrange(1, old_src.len() as int));
            assert(tv.skip(i + 1) =~= tv.skip(i).subrange(1, old_src.len() as int));
            assert(tv.take(i + 1).drop_last() =~= tv.take(i));
            reveal(Seq::filter);
        }
        if !vec_contains_id(gone, e.0) {
            let ghost before = keep@;
            let ghost ev = (e.0, e.1@);
            keep.push(e);
            assert(table_view(keep@) =~= table_view(before).push(ev));
        }
        proof {
            i = i + 1;
        }
    }
    assert(tv.take(i) =~= tv);
    keep
}

/// Keeps the bucket slots whose identifier is not in `gone`.
fn keep_buckets(bs: Vec<Option<Bucket>>, gone: &Vec<i32>, Ghost(own): Ghost<spec_fn(i32) -> bool>) -> (r: Vec<Option<Bucket>>)
    requires
        forall|x: i32| gone@.contains(x) <==> own(x),
    ensures
        r@ == bs@.filter(slot_keep(own)),
{
    let ghost orig = bs@;
    let mut src = bs;
    let mut keep: Vec<Option<Bucket>> = Vec::new();
    let ghost mut i: int = 0;
    while src.len() > 0
        invariant
            0 <= i <= orig.len(),
            src@ == orig.skip(i),
            forall|x: i32| gone@.contains(x) <==> own(x),
            keep@ == orig.take(i).filter(slot_keep(own)),
        decreases src.len(),
    {
        let ghost old_src = src@;
        assert(old_src[0] == orig[i]);
        let s = src.remove(0);
        proof {
            assert(src@ =~= orig.skip(i + 1));
            assert(orig.take(i + 1).drop_last() =~= orig.take(i));
            reveal(Seq::filter);
        }
        let stays = match &s {
            Some(b) => !vec_contains_id(gone, b.id),
            None => true,
        };
        if stays {
            keep.push(s);
        }
        proof {
            i = i + 1;
        }
    }
    assert(orig.take(i) =~= orig);
    keep
}

/// The smallest of 0 and the values of `v`.
fn min_of_vec(v: &Vec<i32>) -> (r: i32)
    ensures
        r == min_of(v@),
        r <= 0,
{
    let mut m: i32 = 0;
    let mut i: usize = 0;
    while i < v.len()
        invariant
            i <= v.len(),
            m == min_of(v@.take(i as int)),
            m <= 0,
        decreases v.len() - i,
    {
        assert(v@.take(i as int + 1).drop_last() =~= v@.take(i as int));
        if v[i] < m {
            m = v[i];
        }
        i += 1;
    }
    assert(v@.take(v.len() as int) =~= v@);
    m
}

/// The smallest of 0 and every identifier that `h` holds anywhere.
fn floor(h: &Hierarchy) -> (r: i32)
    ensures
        r == floor_of(*h),
        r <= 0,
{
    let mut ids: Vec<i32> = Vec::new();
    let mut i: usize = 0;
    while i < h.name_map.len()
        invariant
            i <= h.name_map.len(),
            ids@ == table_ids(h.name_map@).take(i as int),
        decreases h.name_map.len() - i,
    {
        ids.push(h.name_map[i].0);
        assert(ids@ =~= table_ids(h.name_map@).take(i as int + 1));
        i += 1;
    }
    assert(ids@ =~= table_ids(h.name_map@));
    let mut m: i32 = min_of_vec(&ids);
    let ghost tm = m as int;
    let mut b: i32 = 0;
    let mut k: usize = 0;
    while k < h.buckets.len()
        invariant
            k <= h.buckets.len(),
            b == slot_floor(h.buckets@.take(k as int)),
            b <= 0,
        decreases h.buckets.len() - k,
    {
        assert(h.buckets@.take(k as int + 1).drop_last() =~= h.buckets@.take(k as int));
        assert(h.buckets@.take(k as int + 1).last() == h.buckets@[k as int]);
        match &h.buckets[k] {
            Some(bk) => {
                let mut items: Vec<i32> = Vec::new();
                let mut j: usize = 0;
                while j < bk.items.len()
                    invariant
                        j <= bk.items.len(),
                        items@ == item_ids(bk.items@).take(j as int),
                    decreases bk.items.len() - j,
                {
                    items.push(bk.items[j].0);
                    assert(items@ =~= item_ids(bk.items@).take(j as int + 1));
                    j += 1;
                }
                assert(items@ =~= item_ids(bk.items@));
                let im = min_of_vec(&items);
                let c = if bk.id < im { bk.id } else { im };
                if c < b {
                    b = c;
                }
            },
            None => {},
        }
        k += 1;
    }
    assert(h.buckets@.take(h.buckets.len() as int) =~= h.buckets@);
    if b < m { b } else { m }
}

proof fn lemma_push_contains<A>(s: Seq<A>, a: A, y: A)
    ensures
        s.push(a).contains(y) <==> (s.contains(y) || y == a),
{
    if s.contains(y) {
        let q = choose|q: int| 0 <= q < s.len() && s[q] == y;
        assert(s.push(a)[q] == y);
    }
    if y == a {
        assert(s.push(a)[s.len() as int] == y);
    }
    if s.push(a).contains(y) {
        let q = choose|q: int| 0 <= q < s.len() + 1 && s.push(a)[q] == y;
        if q < s.len() {
            assert(s[q] == y);
        }
    }
}

/// The identifiers of the buckets that an earlier update made and that
/// this one replaces.
fn own_ids(h: &Hierarchy) -> (r: Vec<i32>)
    ensures
        forall|x: i32| r@.contains(x) <==> is_own(*h, x),
{
    let ghost tv = table_view(h.name_map@);
    let mut root: Option<i32> = None;
    let mut i: usize = 0;
    while i < h.name_map.len()
        invariant
            i <= h.name_map.len(),
            tv == table_view(h.name_map@),
            root == prior_root(tv.take(i as int)),
        decreases h.name_map.len() - i,
    {
        assert(tv.take(i as int + 1).drop_last() =~= tv.take(i as int));
        assert(tv.take(i as int + 1).last() == tv[i as int]);
        if h.name_map[i].0 < 0 && h.name_map[i].1 == root_name() {
            root = Some(h.name_map[i].0);
        }
        i += 1;
    }
    assert(tv.take(h.name_map.len() as int) =~= tv);
    let r = match root {
        Some(r) => r,
        None => {
            return Vec::new();
        },
    };
    let mut found: Option<usize> = None;
    let mut k: usize = 0;
    while k < h.buckets.len()
        invariant
            k <= h.buckets.len(),
            found matches Some(q) ==> q < k && find_bucket(h.buckets@.take(k as int), r) == h.buckets@[q as int],
            found is None ==> find_bucket(h.buckets@.take(k as int), r) is None,
        decreases h.buckets.len() - k,
    {
        assert(h.buckets@.take(k as int + 1).drop_last() =~= h.buckets@.take(k as int));
        assert(h.buckets@.take(k as int + 1).last() == h.buckets@[k as int]);
        match &h.buckets[k] {
            Some(b) => {
                if b.id == r {
                    found = Some(k);
                }
            },
            None => {},
        }
        k += 1;
    }
    assert(h.buckets@.take(h.buckets.len() as int) =~= h.buckets@);
    let mut cand: Vec<i32> = Vec::new();
    cand.push(r);
    proof {
        lemma_push_contains(Seq::<i32>::empty(), r, r);
        assert forall|x: i32| cand@.contains(x) <==> x == r by {
            lemma_push_contains(Seq::<i32>::empty(), r, x);
            assert(cand@ =~= Seq::<i32>::empty().push(r));
        }
    }
    match found {
        Some(q) => {
            match &h.buckets[q] {
                Some(b) => {
                    let mut j: usize = 0;
                    assert(item_ids(b.items@).take(0) =~= Seq::<i32>::empty());
                    while j < b.items.len()
                        invariant
                            j <= b.items.len(),
                            forall|x: i32| cand@.contains(x) <==> (x == r || (x < 0 && item_ids(b.items@).take(j as int).contains(x))),
                        decreases b.items.len() - j,
                    {
                        let x = b.items[j].0;
                        let ghost before = cand@;
                        assert(item_ids(b.items@).take(j as int + 1) =~= item_ids(b.items@).take(j as int).push(x));
                        if x < 0 {
                            cand.push(x);
                        }
                        proof {
                            assert forall|y: i32| cand@.contains(y) <==> (y == r || (y < 0 && item_ids(b.items@).take(j as int + 1).contains(y))) by {
                                lemma_push_contains(item_ids(b.items@).take(j as int), x, y);
                                lemma_push_contains(before, x, y);
                            }
                        }
                        j += 1;
                    }
                    assert(item_ids(b.items@).take(b.items.len() as int) =~= item_ids(b.items@));
                },
                None => {},
            }
        },
        None => {},
    }
    assert(forall|x: i32| cand@.contains(x) <==> candidate_own(*h, x));
    let mut i: usize = 0;
    while i < h.buckets.len()
        invariant
            i <= h.buckets.len(),
            forall|x: i32| cand@.contains(x) <==> candidate_own(*h, x),
            forall|a: int, j: int|
                0 <= a < i && h.buckets@[a] is Some && !candidate_own(*h, h.buckets@[a]->0.id)
                    && 0 <= j < h.buckets@[a]->0.items@.len() ==> !candidate_own(*h, #[trigger] h.buckets@[a]->0.items@[j].0),
        decreases h.buckets.len() - i,
    {
        match &h.buckets[i] {
            Some(b) => {
                if !vec_contains_id(&cand, b.id) {
                    let mut j: usize = 0;
                    while j < b.items.len()
                        invariant
                            j <= b.items.len(),
                            forall|x: i32| cand@.contains(x) <==> candidate_own(*h, x),
                            forall|q: int| 0 <= q < j ==> !candidate_own(*h, #[trigger] b.items@[q].0),
                            i < h.buckets@.len(),
                            h.buckets@[i as int] == Some(*b),
                            !candidate_own(*h, b.id),
                        decreases b.items.len() - j,
                    {
                        if vec_contains_id(&cand, b.items[j].0) {
                            assert(h.buckets@[i as int] == Some(*b));
                            proof {
                                let ii = i as int;
                                let jj = j as int;
                                assert(h.buckets@[ii] is Some && !candidate_own(*h, h.buckets@[ii]->0.id));
                                assert(0 <= jj < h.buckets@[ii]->0.items@.len());
                                assert(candidate_own(*h, h.buckets@[ii]->0.items@[jj].0));
                            }
                            return Vec::new();
                        }
                        j += 1;
                    }
                }
            },
            None => {},
        }
        i += 1;
    }
    cand
}

/// What `augment` returns for hierarchy `h` and partition `p`: each error
/// exactly when its condition holds, and on success the identifier table,
/// the buckets kept, and every new bucket with its items.
pub open spec fn augment_post(h: Hierarchy, p: Seq<FailureDomain>, r: Result<Hierarchy, AugmentError>) -> bool {
    let t = table_view(h.name_map@);
    let own = own_pred(h);
    let kt = t.filter(entry_keep(own));
    let kb = h.buckets@.filter(slot_keep(own));
    let n = p.len();
    let base = floor_of(h);
    &&& (r matches Err(AugmentError::EmptyHierarchy) <==> t.len() == 0)
    &&& (r matches Err(AugmentError::UnknownDevice(_)) <==> t.len() > 0 && !all_resolve(t, p))
    &&& (r matches Err(AugmentError::UnknownDevice(host)) ==> lookup(t, host@) is None && names_member(p, host@))
    &&& (r matches Err(AugmentError::IdSpaceExhausted) <==> t.len() > 0 && all_resolve(t, p) && fresh_id(base, n as int) < i32::MIN)
    &&& (r matches Err(AugmentError::TooManyBuckets) <==> t.len() > 0 && all_resolve(t, p) && fresh_id(base, n as int) >= i32::MIN
        && kb.len() + n + 1 > i32::MAX)
    &&& (r matches Ok(g) ==> {
        &&& table_view(g.name_map@) == kt + new_entries(base, labels_of(p))
        &&& g.buckets@.len() == kb.len() + n + 1
        &&& g.buckets@.take(kb.len() as int) == kb
        &&& forall|k: int| 0 <= k < n ==> {
            &&& (#[trigger] g.buckets@[kb.len() + k]) matches Some(b)
            &&& b.id == fresh_id(base, k)
            &&& b.items@ == member_items(t, p[k].members@)
            &&& b.type_code == RACK_TYPE && b.alg is Straw && b.weight == 0 && b.hash == HASH_RJENKINS1
        }
        &&& g.buckets@[(kb.len() + n) as int] matches Some(root)
        &&& root.id == fresh_id(base, n as int)
        &&& item_ids(root.items@) == domain_ids(base, n)
        &&& item_names(root.items@) == Seq::new(n, |k: int| Some(domain_label(p[k].id)))
        &&& root.type_code == ROOT_TYPE && root.alg is Straw && root.weight == 0 && root.hash == HASH_RJENKINS1
        &&& forall|i: int, j: int| 0 <= i < kb.len() && kb[i] is Some && 0 <= j < kb[i]->0.items@.len()
            ==> !own((#[trigger] kb[i]->0.items@[j]).0)
        &&& g.max_buckets == g.buckets@.len()
        &&& g.magic == h.magic && g.max_rules == h.max_rules && g.max_devices == h.max_devices
        &&& g.rules == h.rules && g.type_map == h.type_map && g.rule_name_map == h.rule_name_map
        &&& g.tunables == h.tunables
    })
}

/// Inserts one straw bucket per domain of `p`, in domain-id order, whose
/// items are its members with the identifiers they resolve to in the table,
/// then one aggregation bucket over exactly those new buckets. Identifiers
/// count down from just below every identifier that `h` holds. The
/// aggregation bucket of an earlier update (the last entry named like it,
/// with a negative identifier) and the buckets below it are replaced, not
/// repeated, unless another bucket refers to one of them. The rules are left
/// as they are.
pub fn augment(h: Hierarchy, p: &Vec<FailureDomain>) -> (r: Result<Hierarchy, AugmentError>)
    requires
        ascending(p@),
    ensures
        augment_post(h, p@, r),
{
    let ghost h0 = h;
    let ghost t = table_view(h.name_map@);
    if h.name_map.len() == 0 {
        return Err(AugmentError::EmptyHierarchy);
    }
    let mut all_items: Vec<Vec<(i32, Option<String>)>> = Vec::new();
    let mut k: usize = 0;
    while k < p.len()
        invariant
            k <= p.len(),
            h == h0,
            t == table_view(h.name_map@),
            t.len() > 0,
            all_items@.len() == k,
            forall|q: int, j: int| 0 <= q < k && 0 <= j < p@[q].members@.len() ==> (#[trigger] lookup(t, p@[q].members@[j]@)) is Some,
            forall|q: int| 0 <= q < k ==> (#[trigger] all_items@[q])@ == member_items(t, p@[q].members@),
        decreases p.len() - k,
    {
        match domain_items(&h.name_map, &p[k].members) {
            Ok(items) => {
                all_items.push(items);
            },
            Err(host) => {
                proof {
                    let j = choose|j: int| 0 <= j < texts(p@[k as int].members@).len() && texts(p@[k as int].members@)[j] == host@;
                    assert(p@[k as int].members@[j]@ == host@);
                    assert(!all_resolve(t, p@));
                    assert(names_member(p@, host@));
                }
                return Err(AugmentError::UnknownDevice(host));
            },
        }
        k += 1;
    }
    assert(all_resolve(t, p@));

    let n = p.len();
    let base = floor(&h);
    if (base as i128) - 1 - (n as i128) < i32::MIN as i128 {
        return Err(AugmentError::IdSpaceExhausted);
    }
    let gone = own_ids(&h);
    let ghost own = own_pred(h);
    assert forall|x: i32| gone@.contains(x) <==> own(x) by {
        assert(own(x) == is_own(h0, x));
    }
    let Hierarchy {
        magic,
        max_buckets: _,
        max_rules,
        max_devices,
        buckets,
        rules,
        type_map,
        name_map,
        rule_name_map,
        tunables,
    } = h;
    let mut table = keep_entries(name_map, &gone, Ghost(own));
    let ghost kt = table_view(table@);
    let mut kept_buckets = keep_buckets(buckets, &gone, Ghost(own));
    let ghost kb = kept_buckets@;
    let kb_len = kept_buckets.len();
    if kb_len >= i32::MAX as usize || n > i32::MAX as usize - 1 - kb_len {
        return Err(AugmentError::TooManyBuckets);
    }

    let mut alloc = IdAllocator::below(base);
    let mut root_items: Vec<(i32, Option<String>)> = Vec::new();
    let mut k: usize = 0;
    while k < n
        invariant
            k <= n,
            n == p@.len(),
            alloc.next == base - 1 - k,
            base == floor_of(h0),
            base as int - 1 - n >= i32::MIN,
            base <= 0,
            all_items@.len() == n - k,
            forall|q: int| 0 <= q < n - k ==> (#[trigger] all_items@[q])@ == member_items(t, p@[k + q].members@),
            kept_buckets@.len() == kb_len + k,
            kept_buckets@.take(kb_len as int) == kb,
            kb.len() == kb_len,
            forall|q: int| 0 <= q < k ==> {
                &&& (#[trigger] kept_buckets@[kb_len + q]) matches Some(b)
                &&& b.id == fresh_id(base as int, q)
                &&& b.items@ == member_items(t, p@[q].members@)
                &&& b.type_code == RACK_TYPE && b.alg is Straw && b.weight == 0 && b.hash == HASH_RJENKINS1
            },
            item_ids(root_items@) == domain_ids(base as int, k as nat),
            item_names(root_items@) == Seq::new(k as nat, |q: int| Some(domain_label(p@[q].id))),
            table_view(table@) == kt + new_entries(base as int, labels_of(p@)).take(k as int),
        decreases n - k,
    {
        let id = alloc.allocate();
        let items = all_items.remove(0);
        let ghost kb_before = kept_buckets@;
        kept_buckets.push(Some(straw_bucket(id, RACK_TYPE, items)));
        let ghost ri_before = root_items@;
        let name = decimal_name(p[k].id);
        root_items.push((id, Some(decimal_name(p[k].id))));
        assert(item_ids(root_items@) =~= item_ids(ri_before).push(id));
        assert(item_ids(root_items@) =~= domain_ids(base as int, k as nat + 1));
        assert(item_names(root_items@) =~= item_names(ri_before).push(Some(domain_label(p@[k as int].id))));
        assert(item_names(root_items@) =~= Seq::new(k as nat + 1, |q: int| Some(domain_label(p@[q].id))));
        let ghost tb_before = table@;
        table.push((id, name));
        assert(labels_of(p@)[k as int] == domain_label(p@[k as int].id));
        assert(table_view(table@) =~= table_view(tb_before).push((id, labels_of(p@)[k as int])));
        assert(table_view(table@) =~= kt + new_entries(base as int, labels_of(p@)).take(k as int + 1));
        assert(kept_buckets@.take(kb_len as int) =~= kb_before.take(kb_len as int));
        k += 1;
    }
    let root_id = alloc.allocate();
    let ghost kb_before = kept_buckets@;
    kept_buckets.push(Some(straw_bucket(root_id, ROOT_TYPE, root_items)));
    let ghost tb_before = table@;
    table.push((root_id, root_name()));
    assert(labels_of(p@)[n as int] == root_label());
    assert(table_view(table@) =~= table_view(tb_before).push((root_id, labels_of(p@)[n as int])));
    assert(table_view(table@) =~= kt + new_entries(base as int, labels_of(p@)));
    assert(kept_buckets@.take(kb_len as int) =~= kb_before.take(kb_len as int));
    proof {
        lemma_kept_refer_to_kept(h0);
    }
    let total = kept_buckets.len() as i32;
    Ok(Hierarchy {
        magic,
        max_buckets: total,
        max_rules,
        max_devices,
        buckets: kept_buckets,
        rules,
        type_map,
        name_map: table,
        rule_name_map,
        tunables,
    })
}

proof fn lemma_filter_all<A>(s: Seq<A>, pred: spec_fn(A) -> bool)
    requires
        forall|i: int| 0 <= i < s.len() ==> pred(#[trigger] s[i]),
    ensures
        s.filter(pred) == s,
    decreases s.len(),
{
    reveal(Seq::filter);
    if s.len() > 0 {
        lemma_filter_all(s.drop_last(), pred);
        assert(s.drop_last().push(s.last()) =~= s);
    }
}

proof fn lemma_filter_none<A>(s: Seq<A>, pred: spec_fn(A) -> bool)
    requires
        forall|i: int| 0 <= i < s.len() ==> !pred(#[trigger] s[i]),
    ensures
        s.filter(pred) == Seq::<A>::empty(),
    decreases s.len(),
{
    reveal(Seq::filter);
    if s.len() > 0 {
        lemma_filter_none(s.drop_last(), pred);
    }
}

proof fn lemma_min_of_bound(s: Seq<i32>, i: int)
    requires
        0 <= i < s.len(),
    ensures
        min_of(s) <= s[i],
        min_of(s) <= 0,
    decreases s.len(),
{
    lemma_min_of_nonpos(s);
    if i < s.len() - 1 {
        lemma_min_of_bound(s.drop_last(), i);
    }
}

proof fn lemma_min_of_nonpos(s: Seq<i32>)
    ensures
        min_of(s) <= 0,
    decreases s.len(),
{
    if s.len() > 0 {
        lemma_min_of_nonpos(s.drop_last());
    }
}

proof fn lemma_slot_floor_nonpos(bs: Seq<Option<Bucket>>)
    ensures
        slot_floor(bs) <= 0,
    decreases bs.len(),
{
    if bs.len() > 0 {
        lemma_slot_floor_nonpos(bs.drop_last());
    }
}

proof fn lemma_slot_floor_bound(bs: Seq<Option<Bucket>>, i: int, j: int)
    requires
        0 <= i < bs.len(),
        bs[i] is Some,
    ensures
        slot_floor(bs) <= bs[i]->0.id,
        0 <= j < bs[i]->0.items@.len() ==> slot_floor(bs) <= bs[i]->0.items@[j].0,
    decreases bs.len(),
{
    if i < bs.len() - 1 {
        lemma_slot_floor_bound(bs.drop_last(), i, j);
        assert(bs.drop_last()[i] == bs[i]);
    } else {
        let b = bs[i]->0;
        lemma_min_of_nonpos(item_ids(b.items@));
        if 0 <= j < b.items@.len() {
            lemma_min_of_bound(item_ids(b.items@), j);
        }
    }
}

/// Every identifier that `h` holds, in its table, as a bucket or as an
/// item, is at least `floor_of(h)`, which is at most 0: the identifiers
/// handed out below it are negative and differ from all of them.
pub proof fn lemma_fresh_ids_are_new(h: Hierarchy)
    ensures
        floor_of(h) <= 0,
        forall|i: int| 0 <= i < h.name_map@.len() ==> floor_of(h) <= (#[trigger] h.name_map@[i]).0,
        forall|i: int| 0 <= i < h.buckets@.len() && (#[trigger] h.buckets@[i]) is Some ==> floor_of(h) <= h.buckets@[i]->0.id,
        forall|i: int, j: int| 0 <= i < h.buckets@.len() && h.buckets@[i] is Some && 0 <= j < h.buckets@[i]->0.items@.len()
            ==> floor_of(h) <= (#[trigger] h.buckets@[i]->0.items@[j]).0,
{
    lemma_min_of_nonpos(table_ids(h.name_map@));
    lemma_slot_floor_nonpos(h.buckets@);
    assert forall|i: int| 0 <= i < h.name_map@.len() implies floor_of(h) <= (#[trigger] h.name_map@[i]).0 by {
        lemma_min_of_bound(table_ids(h.name_map@), i);
    }
    assert forall|i: int| 0 <= i < h.buckets@.len() && (#[trigger] h.buckets@[i]) is Some implies floor_of(h) <= h.buckets@[i]->0.id by {
        lemma_slot_floor_bound(h.buckets@, i, 0);
    }
    assert forall|i: int, j: int| 0 <= i < h.buckets@.len() && h.buckets@[i] is Some && 0 <= j < h.buckets@[i]->0.items@.len()
        implies floor_of(h) <= (#[trigger] h.buckets@[i]->0.items@[j]).0 by {
        lemma_slot_floor_bound(h.buckets@, i, j);
    }
}

/// No bucket that the update keeps has a replaced bucket among its items.
pub proof fn lemma_kept_refer_to_kept(h: Hierarchy)
    ensures
        ({
            let kb = h.buckets@.filter(slot_keep(own_pred(h)));
            forall|i: int, j: int| 0 <= i < kb.len() && kb[i] is Some && 0 <= j < kb[i]->0.items@.len()
                ==> !is_own(h, (#[trigger] kb[i]->0.items@[j]).0)
        }),
{
    let kb = h.buckets@.filter(slot_keep(own_pred(h)));
    assert forall|i: int, j: int| 0 <= i < kb.len() && kb[i] is Some && 0 <= j < kb[i]->0.items@.len()
        implies !is_own(h, (#[trigger] kb[i]->0.items@[j]).0) by {
        h.buckets@.lemma_filter_pred(slot_keep(own_pred(h)), i);
        assert(kb.contains(kb[i]));
        h.buckets@.lemma_filter_contains_rev(slot_keep(own_pred(h)), kb[i]);
        let a = choose|a: int| 0 <= a < h.buckets@.len() && h.buckets@[a] == kb[i];
        if self_contained(h) {
            assert(!candidate_own(h, h.buckets@[a]->0.id));
            assert(!candidate_own(h, h.buckets@[a]->0.items@[j].0));
        }
    }
}

/// The item identifiers of a bucket slot, if it holds a bucket.
pub open spec fn slot_members(s: Option<Bucket>) -> Option<Seq<i32>> {
    match s {
        Some(b) => Some(item_ids(b.items@)),
        None => None,
    }
}

/// The update is deterministic: two results for the same hierarchy and the
/// same partition hold the same buckets, with the same identifiers and the
/// same members, and the same identifier table.
pub proof fn lemma_augment_deterministic(h: Hierarchy, p: Seq<FailureDomain>, g1: Hierarchy, g2: Hierarchy)
    requires
        augment_post(h, p, Ok(g1)),
        augment_post(h, p, Ok(g2)),
    ensures
        g1.buckets@.len() == g2.buckets@.len(),
        slot_ids(g1.buckets@) == slot_ids(g2.buckets@),
        forall|i: int| 0 <= i < g1.buckets@.len() ==> slot_members(#[trigger] g1.buckets@[i]) == slot_members(g2.buckets@[i]),
        table_view(g1.name_map@) == table_view(g2.name_map@),
{
    let kb = h.buckets@.filter(slot_keep(own_pred(h)));
    let n = p.len();
    assert forall|i: int| 0 <= i < g1.buckets@.len() implies slot_members(#[trigger] g1.buckets@[i]) == slot_members(g2.buckets@[i])
        && slot_id(g1.buckets@[i]) == slot_id(g2.buckets@[i]) by {
        if i < kb.len() {
            assert(g1.buckets@.take(kb.len() as int)[i] == g2.buckets@.take(kb.len() as int)[i]);
        } else if i < kb.len() + n {
            let k = i - kb.len();
            assert(g1.buckets@[kb.len() + k] matches Some(_));
            assert(g2.buckets@[kb.len() + k] matches Some(_));
        }
    }
    assert(slot_ids(g1.buckets@) =~= slot_ids(g2.buckets@));
}

/// Updating a second time with the same partition, starting from the
/// first result, replaces the buckets of the first update instead of
/// adding more: the number of buckets stays the same.
pub proof fn lemma_rerun_keeps_bucket_count(h: Hierarchy, p: Seq<FailureDomain>, g1: Hierarchy, g2: Hierarchy)
    requires
        augment_post(h, p, Ok(g1)),
        augment_post(g1, p, Ok(g2)),
    ensures
        g2.buckets@.len() == g1.buckets@.len(),
{
    let base = floor_of(h);
    let n = p.len();
    let own0 = own_pred(h);
    let kb = h.buckets@.filter(slot_keep(own0));
    let kl = kb.len();
    let t = table_view(h.name_map@);
    let kt = t.filter(entry_keep(own0));
    let t1 = table_view(g1.name_map@);
    lemma_fresh_ids_are_new(h);
    assert(fresh_id(base, n as int) >= i32::MIN);
    let r1 = fresh_id(base, n as int) as i32;
    assert(t1.len() == kt.len() + n + 1);
    assert(t1.last() == new_entries(base, labels_of(p))[n as int]);
    assert(t1.last() == (r1, root_label()));
    assert(prior_root(t1) == Some(r1));
    let root = g1.buckets@[(kl + n) as int]->0;
    assert(g1.buckets@.last() == Some(root));
    assert(find_bucket(g1.buckets@, r1) == Some(root));
    assert forall|x: i32| candidate_own(g1, x) implies x < base by {
        if x != r1 {
            let k = choose|k: int| 0 <= k < item_ids(root.items@).len() && item_ids(root.items@)[k] == x;
            assert(domain_ids(base, n)[k] == x);
        }
    }
    assert forall|k: int| 0 <= k <= n implies #[trigger] candidate_own(g1, fresh_id(base, k) as i32) by {
        if k < n {
            assert(domain_ids(base, n)[k] == fresh_id(base, k) as i32);
            assert(item_ids(root.items@)[k] == fresh_id(base, k) as i32);
        }
    }
    assert forall|i: int| 0 <= i < kl && (#[trigger] kb[i]) is Some implies base <= kb[i]->0.id
        && forall|j: int| 0 <= j < kb[i]->0.items@.len() ==> base <= (#[trigger] kb[i]->0.items@[j]).0 by {
        assert(kb.contains(kb[i]));
        h.buckets@.lemma_filter_contains_rev(slot_keep(own0), kb[i]);
        let a = choose|a: int| 0 <= a < h.buckets@.len() && h.buckets@[a] == kb[i];
        assert(h.buckets@[a] is Some);
        assert forall|j: int| 0 <= j < kb[i]->0.items@.len() implies base <= (#[trigger] kb[i]->0.items@[j]).0 by {
            assert(h.buckets@[a]->0.items@[j] == kb[i]->0.items@[j]);
        }
    }
    assert(self_contained(g1)) by {
        assert forall|i: int, j: int|
            0 <= i < g1.buckets@.len() && g1.buckets@[i] is Some && !candidate_own(g1, g1.buckets@[i]->0.id)
                && 0 <= j < g1.buckets@[i]->0.items@.len() implies !candidate_own(g1, #[trigger] g1.buckets@[i]->0.items@[j].0) by {
            if i < kl {
                assert(g1.buckets@.take(kl as int)[i] == kb[i]);
                assert(kb[i] is Some);
                assert(base <= (kb[i]->0.items@[j]).0);
            } else if i < kl + n {
                let k = i - kl;
                assert(g1.buckets@[kl + k] matches Some(_));
                assert(candidate_own(g1, fresh_id(base, k) as i32));
            } else {
                assert(candidate_own(g1, fresh_id(base, n as int) as i32));
            }
        }
    }
    let own1 = own_pred(g1);
    let head = g1.buckets@.take(kl as int);
    let rest = g1.buckets@.skip(kl as int);
    assert(head + rest =~= g1.buckets@);
    Seq::filter_distributes_over_add(head, rest, slot_keep(own1));
    assert forall|i: int| 0 <= i < head.len() implies slot_keep(own1)(#[trigger] head[i]) by {
        assert(head[i] == kb[i]);
        if kb[i] is Some {
            assert(base <= kb[i]->0.id);
        }
    }
    lemma_filter_all(head, slot_keep(own1));
    assert forall|i: int| 0 <= i < rest.len() implies !slot_keep(own1)(#[trigger] rest[i]) by {
        assert(rest[i] == g1.buckets@[kl + i]);
        if i < n {
            assert(g1.buckets@[kl + i] matches Some(_));
            assert(candidate_own(g1, fresh_id(base, i) as i32));
        } else {
            assert(candidate_own(g1, fresh_id(base, n as int) as i32));
        }
    }
    lemma_filter_none(rest, slot_keep(own1));
    assert(head + Seq::<Option<Bucket>>::empty() =~= head);
}

} // verus!
