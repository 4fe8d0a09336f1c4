use vstd::prelude::*;
use vstd::string::StringSliceAdditionalSpecFns;

verus! {

pub open spec fn is_digit(c: u8) -> bool {
    48 <= c <= 57
}

/// The value of a run of ASCII decimal digits.
pub open spec fn digits_value(d: Seq<u8>) -> nat
    decreases d.len(),
{
    if d.len() == 0 {
        0
    } else {
        digits_value(d.drop_last()) * 10 + (d.last() - 48) as nat
    }
}

/// The index of the first '/' at or after `from`, or the length.
pub open spec fn next_slash(b: Seq<u8>, from: int) -> int
    decreases b.len() - from,
{
    if from >= b.len() {
        b.len() as int
    } else if b[from] == 47 {
        from
    } else {
        next_slash(b, from + 1)
    }
}

/// A number field without its optional leading '+'.
pub open spec fn unsigned_text(d: Seq<u8>) -> Seq<u8> {
    if d.len() > 0 && d[0] == 43 {
        d.drop_first()
    } else {
        d
    }
}

/// A unit name is "service/number": the index of the first '/' and the
/// number between it and the next '/' (or the end), where that number is
/// decimal and fits a `usize`.
pub open spec fn parsed_unit(b: Seq<u8>) -> Option<(int, nat)> {
    let s = next_slash(b, 0);
    if s >= b.len() {
        None
    } else {
        let d = unsigned_text(b.subrange(s + 1, next_slash(b, s + 1)));
        if d.len() > 0 && (forall|i: int| 0 <= i < d.len() ==> is_digit(#[trigger] d[i]))
            && digits_value(d) <= usize::MAX {
            Some((s, digits_value(d)))
        } else {
            None
        }
    }
}

proof fn lemma_digits_grow(d: Seq<u8>, i: int)
    requires
        0 <= i <= d.len(),
        forall|k: int| 0 <= k < d.len() ==> is_digit(#[trigger] d[k]),
    ensures
        digits_value(d.take(i)) <= digits_value(d),
    decreases d.len() - i,
{
    if i < d.len() {
        lemma_digits_grow(d, i + 1);
        assert(d.take(i + 1).drop_last() =~= d.take(i));
    } else {
        assert(d.take(i) =~= d);
    }
}

/// Finds the first '/' at or after `from`.
fn find_slash(b: &[u8], from: usize) -> (r: usize)
    requires
        from <= b@.len(),
    ensures
        r == next_slash(b@, from as int),
        from <= r <= b@.len(),
{
    let mut i = from;
    while i < b.len()
        invariant
            from <= i <= b@.len(),
            next_slash(b@, from as int) == next_slash(b@, i as int),
        decreases b.len() - i,
    {
        if b[i] == 47 {
            return i;
        }
        i += 1;
    }
    i
}

/// Splits a unit name "service/number" into the index of the '/' and the
/// number; `None` where there is no '/' or the number is not a decimal
/// `usize`.
pub fn parse_unit(unit: &str) -> (r: Option<(usize, usize)>)
    ensures
        r matches Some(v) ==> (parsed_unit(unit.spec_bytes()) matches Some(w) && v.0 == w.0 && v.1 == w.1),
        r is None <==> parsed_unit(unit.spec_bytes()) is None,
{
    let b = unit.as_bytes();
    let s = find_slash(b, 0);
    if s >= b.len() {
        return None;
    }
    let e = find_slash(b, s + 1);
    let ghost field = b@.subrange(s + 1, e as int);
    let mut start = s + 1;
    if start < e && b[start] == 43 {
        start += 1;
    }
    let ghost d = unsigned_text(field);
    assert(d =~= b@.subrange(start as int, e as int));
    if start >= e {
        return None;
    }
    let ghost ok = d.len() > 0 && (forall|k: int| 0 <= k < d.len() ==> is_digit(#[trigger] d[k]))
        && digits_value(d) <= usize::MAX;
    assert(parsed_unit(b@) == if ok { Some((s as int, digits_value(d))) } else { None::<(int, nat)> });
    let mut v: usize = 0;
    let mut i = start;
    while i < e
        invariant
            b@ == unit.spec_bytes(),
            parsed_unit(b@) == if ok { Some((s as int, digits_value(d))) } else { None::<(int, nat)> },
            ok == (d.len() > 0 && (forall|k: int| 0 <= k < d.len() ==> is_digit(#[trigger] d[k]))
                && digits_value(d) <= usize::MAX),
            start <= i <= e <= b@.len(),
            d =~= b@.subrange(start as int, e as int),
            forall|k: int| 0 <= k < i - start ==> is_digit(#[trigger] d[k]),
            v == digits_value(d.take(i - start)),
        decreases e - i,
    {
        let c = b[i];
        if c < 48 || c > 57 {
            assert(!is_digit(d[i - start]));
            return None;
        }
        assert(d.take(i - start + 1).drop_last() =~= d.take(i - start));
        assert(d.take(i - start + 1).last() == c);
        let digit = (c - 48) as usize;
        if v > (usize::MAX - digit) / 10 {
            proof {
                assert(v * 10 + digit > usize::MAX) by (nonlinear_arith)
                    requires v > (usize::MAX - digit) / 10, digit <= 9;
                if forall|k: int| 0 <= k < d.len() ==> is_digit(#[trigger] d[k]) {
                    lemma_digits_grow(d, i - start + 1);
                }
            }
            return None;
        }
        v = v * 10 + digit;
        i += 1;
    }
    assert(d.take(e - start) =~= d);
    Some((s, v))
}

} // verus!
