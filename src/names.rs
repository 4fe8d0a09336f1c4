use vstd::prelude::*;

verus! {

/// The text of each string in a sequence of strings.
pub open spec fn texts(v: Seq<String>) -> Seq<Seq<char>> {
    v.map_values(|s: String| s@)
}

/// Whether `v` holds a string with the text of `s`.
pub fn contains_name(v: &Vec<String>, s: &String) -> (r: bool)
    ensures
        r == texts(v@).contains(s@),
{
    let mut i: usize = 0;
    while i < v.len()
        invariant
            i <= v.len(),
            forall|k: int| 0 <= k < i ==> v@[k]@ != s@,
        decreases v.len() - i,
    {
        if v[i] == *s {
            assert(texts(v@)[i as int] == s@);
            return true;
        }
        i += 1;
    }
    assert forall|k: int| 0 <= k < texts(v@).len() implies texts(v@)[k] != s@ by {
        assert(v@[k]@ != s@);
    }
    false
}

/// Whether every string of `a` has its text in `b`.
pub fn all_contained(a: &Vec<String>, b: &Vec<String>) -> (r: bool)
    ensures
        r == texts(a@).to_set().subset_of(texts(b@).to_set()),
{
    let mut i: usize = 0;
    while i < a.len()
        invariant
            i <= a.len(),
            forall|k: int| 0 <= k < i ==> texts(b@).contains(#[trigger] a@[k]@),
        decreases a.len() - i,
    {
        if !contains_name(b, &a[i]) {
            assert(texts(a@).to_set().contains(a@[i as int]@)) by {
                assert(texts(a@)[i as int] == a@[i as int]@);
            }
            return false;
        }
        i += 1;
    }
    assert forall|x: Seq<char>| texts(a@).to_set().contains(x) implies texts(b@).to_set().contains(x) by {
        let k = choose|k: int| 0 <= k < texts(a@).len() && texts(a@)[k] == x;
        assert(texts(b@).contains(a@[k]@));
    }
    true
}

/// Whether two lists of names hold the same set of texts.
pub fn same_names(a: &Vec<String>, b: &Vec<String>) -> (r: bool)
    ensures
        r == (texts(a@).to_set() == texts(b@).to_set()),
{
    let ab = all_contained(a, b);
    let ba = all_contained(b, a);
    if ab && ba {
        assert(texts(a@).to_set() =~= texts(b@).to_set());
        true
    } else {
        false
    }
}

} // verus!
