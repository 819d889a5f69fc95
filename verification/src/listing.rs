use vstd::prelude::*;

verus! {

/// The numbers below `len`, in order.
pub open spec fn indices(len: nat) -> Seq<int> {
    Seq::new(len, |i: int| i)
}

/// The numbers below `len` that satisfy `f`, in ascending order.
pub open spec fn indices_where(len: nat, f: spec_fn(int) -> bool) -> Seq<int> {
    indices(len).filter(f)
}

/// A list of cell indices as mathematical integers.
pub open spec fn as_ints(s: Seq<i16>) -> Seq<int> {
    s.map_values(|m: i16| m as int)
}

/// Nothing occurs twice in `s`.
pub open spec fn distinct(s: Seq<i16>) -> bool {
    forall|i: int, j: int| 0 <= i < j < s.len() ==> s[i] != s[j]
}

/// How the selection grows with the range it is taken from.
pub proof fn lemma_indices_where_step(len: nat, f: spec_fn(int) -> bool)
    ensures
        indices_where(0, f) == Seq::<int>::empty(),
        indices_where(len + 1, f) == if f(len as int) {
            indices_where(len, f).push(len as int)
        } else {
            indices_where(len, f)
        },
{
    reveal(Seq::filter);
    assert(indices(len + 1).drop_last() =~= indices(len));
}

/// The selection holds exactly the numbers below `len` that satisfy `f`,
/// each once and in ascending order.
pub proof fn lemma_indices_where(len: nat, f: spec_fn(int) -> bool)
    ensures
        indices_where(len, f).len() <= len,
        forall|i: int|
            0 <= i < indices_where(len, f).len() ==> 0 <= (#[trigger] indices_where(len, f)[i])
                < len && f(indices_where(len, f)[i]),
        forall|i: int, j: int|
            0 <= i < j < indices_where(len, f).len() ==> indices_where(len, f)[i] < indices_where(
                len,
                f,
            )[j],
        forall|m: int| 0 <= m < len && f(m) ==> indices_where(len, f).contains(m),
    decreases len,
{
    lemma_indices_where_step(0, f);
    if len > 0 {
        let prev = (len - 1) as nat;
        lemma_indices_where(prev, f);
        lemma_indices_where_step(prev, f);
        let s = indices_where(len, f);
        let t = indices_where(prev, f);
        assert forall|m: int| 0 <= m < len && f(m) implies s.contains(m) by {
            if m < prev {
                assert(t.contains(m));
                let i = choose|i: int| 0 <= i < t.len() && t[i] == m;
                assert(s[i] == m);
            } else {
                assert(s[s.len() - 1] == m);
            }
        }
    }
}

/// A list whose values as integers ascend holds nothing twice.
pub proof fn lemma_distinct_ascending(s: Seq<i16>)
    requires
        forall|i: int, j: int| 0 <= i < j < s.len() ==> as_ints(s)[i] < as_ints(s)[j],
    ensures
        distinct(s),
{
    assert forall|i: int, j: int| 0 <= i < j < s.len() implies s[i] != s[j] by {
        assert(as_ints(s)[i] < as_ints(s)[j]);
    }
}

/// Taking the element at `k` out of a list without repeats, by moving the
/// last element into its place, leaves a list without repeats that holds
/// the other elements and no longer the one taken.
pub proof fn lemma_swap_remove(s: Seq<i16>, k: int)
    requires
        0 <= k < s.len(),
        distinct(s),
    ensures
        distinct(s.update(k, s.last()).drop_last()),
        !s.update(k, s.last()).drop_last().contains(s[k]),
        forall|x: i16| #[trigger] s.update(k, s.last()).drop_last().contains(x) ==> s.contains(x),
        forall|x: i16|
            s.contains(x) && x != s[k] ==> #[trigger] s.update(k, s.last()).drop_last().contains(x),
{
    let r = s.update(k, s.last()).drop_last();
    assert forall|x: i16| s.contains(x) && x != s[k] implies #[trigger] r.contains(x) by {
        let i = choose|i: int| 0 <= i < s.len() && s[i] == x;
        if i == s.len() - 1 {
            assert(r[k] == x);
        } else {
            assert(r[i] == x);
        }
    }
}

} // verus!
