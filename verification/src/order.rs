//! The order of `str`: lexicographic by character (which is byte order for
//! UTF-8), and a sort of distinct keys by it.

use vstd::prelude::*;

verus! {

/// `a < b` for `str`: lexicographic by code point, a proper prefix first.
pub open spec fn lex_lt(a: Seq<char>, b: Seq<char>) -> bool
    decreases a.len(),
{
    if a.len() == 0 {
        b.len() > 0
    } else if b.len() == 0 {
        false
    } else if a[0] != b[0] {
        a[0] < b[0]
    } else {
        lex_lt(a.drop_first(), b.drop_first())
    }
}

/// No string is below itself.
pub proof fn lemma_lex_irreflexive(a: Seq<char>)
    ensures
        !lex_lt(a, a),
    decreases a.len(),
{
    if a.len() > 0 {
        lemma_lex_irreflexive(a.drop_first());
    }
}

/// The order is transitive.
pub proof fn lemma_lex_transitive(a: Seq<char>, b: Seq<char>, c: Seq<char>)
    requires
        lex_lt(a, b),
        lex_lt(b, c),
    ensures
        lex_lt(a, c),
    decreases a.len(),
{
    if a.len() > 0 && b.len() > 0 && c.len() > 0 && a[0] == b[0] && b[0] == c[0] {
        lemma_lex_transitive(a.drop_first(), b.drop_first(), c.drop_first());
    }
}

/// Two different strings are ordered one way or the other, not both.
pub proof fn lemma_lex_total(a: Seq<char>, b: Seq<char>)
    ensures
        a != b ==> (lex_lt(a, b) || lex_lt(b, a)),
        !(lex_lt(a, b) && lex_lt(b, a)),
    decreases a.len(),
{
    if a.len() > 0 && b.len() > 0 {
        if a[0] == b[0] {
            lemma_lex_total(a.drop_first(), b.drop_first());
            if a != b {
                assert(a.drop_first() != b.drop_first()) by {
                    if a.drop_first() == b.drop_first() {
                        assert forall|i: int| 0 <= i < a.len() implies a[i] == b[i] by {
                            if i > 0 {
                                assert(a[i] == a.drop_first()[i - 1]);
                                assert(b[i] == b.drop_first()[i - 1]);
                            }
                        }
                        assert(a =~= b);
                    }
                }
            }
        } else {
            assert((a[0] as int) != (b[0] as int));
        }
    } else if a.len() == 0 && b.len() == 0 {
        assert(a =~= b);
    }
}

/// `a < b` for strings.
pub fn lex_lt_exec(a: &[char], b: &[char]) -> (res: bool)
    ensures
        res == lex_lt(a@, b@),
{
    let mut i: usize = 0;
    assert(a@.skip(0) =~= a@);
    assert(b@.skip(0) =~= b@);
    while i < a.len() && i < b.len() && a[i] == b[i]
        invariant
            i <= a@.len(),
            i <= b@.len(),
            lex_lt(a@, b@) == lex_lt(a@.skip(i as int), b@.skip(i as int)),
        decreases a@.len() - i,
    {
        assert(a@.skip(i as int).drop_first() =~= a@.skip(i + 1));
        assert(b@.skip(i as int).drop_first() =~= b@.skip(i + 1));
        i += 1;
    }
    if i == a.len() {
        i < b.len()
    } else if i == b.len() {
        false
    } else {
        assert(a@.skip(i as int)[0] == a@[i as int]);
        assert(b@.skip(i as int)[0] == b@[i as int]);
        a[i] < b[i]
    }
}

/// The keys are pairwise different.
pub open spec fn distinct_keys(keys: Seq<Seq<char>>) -> bool {
    forall|i: int, j: int| 0 <= i < j < keys.len() ==> keys[i] != keys[j]
}

/// `order` lists every index of `keys` once, in increasing order of key.
pub open spec fn sorted_order_of(keys: Seq<Seq<char>>, order: Seq<usize>) -> bool {
    &&& order.len() == keys.len()
    &&& forall|i: int| 0 <= i < order.len() ==> order[i] < keys.len()
    &&& forall|i: int, j: int|
        0 <= i < j < order.len() ==> lex_lt(keys[order[i] as int], keys[order[j] as int])
    &&& forall|k: usize| k < keys.len() ==> #[trigger] order.contains(k)
}

/// The indices of `keys` in increasing order of key.
pub fn sorted_order(keys: &Vec<Vec<char>>) -> (res: Vec<usize>)
    requires
        distinct_keys(crate::text::views(keys@)),
    ensures
        sorted_order_of(crate::text::views(keys@), res@),
{
    let ghost kv = crate::text::views(keys@);
    let mut out: Vec<usize> = Vec::new();
    let mut k: usize = 0;
    while k < keys.len()
        invariant
            k <= keys@.len(),
            kv == crate::text::views(keys@),
            distinct_keys(kv),
            out@.len() == k,
            forall|i: int| 0 <= i < out@.len() ==> out@[i] < k,
            forall|i: int, j: int|
                0 <= i < j < out@.len() ==> lex_lt(kv[out@[i] as int], kv[out@[j] as int]),
            forall|m: usize| m < k ==> #[trigger] out@.contains(m),
        decreases keys@.len() - k,
    {
        let mut p: usize = 0;
        while p < out.len() && lex_lt_exec(keys[out[p]].as_slice(), keys[k].as_slice())
            invariant
                p <= out@.len(),
                k < keys@.len(),
                kv == crate::text::views(keys@),
                forall|i: int| 0 <= i < out@.len() ==> out@[i] < k,
                forall|i: int| 0 <= i < p ==> lex_lt(kv[out@[i] as int], kv[k as int]),
            decreases out@.len() - p,
        {
            p += 1;
        }
        if p < out.len() {
            assert(kv[out@[p as int] as int] != kv[k as int]);
            proof {
                lemma_lex_total(kv[out@[p as int] as int], kv[k as int]);
            }
            assert(lex_lt(kv[k as int], kv[out@[p as int] as int]));
        }
        let ghost old_out = out@;
        out.insert(p, k);
        assert(out@ == old_out.insert(p as int, k));
        assert forall|i: int, j: int| 0 <= i < j < out@.len() implies lex_lt(
            kv[out@[i] as int],
            kv[out@[j] as int],
        ) by {
            if j < p {
                assert(out@[i] == old_out[i] && out@[j] == old_out[j]);
            } else if j == p {
                assert(out@[i] == old_out[i]);
            } else if i == p {
                assert(out@[j] == old_out[j - 1]);
                if j - 1 > p {
                        lemma_lex_transitive(
                            kv[k as int],
                            kv[old_out[p as int] as int],
                            kv[old_out[j - 1] as int],
                        );
                }
            } else if i < p {
                assert(out@[i] == old_out[i] && out@[j] == old_out[j - 1]);
                if j - 1 >= p {
                    assert(lex_lt(kv[old_out[i] as int], kv[k as int]));
                    assert(j - 1 == p || lex_lt(kv[old_out[p as int] as int], kv[old_out[j - 1] as int]));
                        lemma_lex_transitive(
                            kv[old_out[i] as int],
                            kv[k as int],
                            kv[old_out[p as int] as int],
                        );
                        if j - 1 > p {
                            lemma_lex_transitive(
                                kv[old_out[i] as int],
                                kv[old_out[p as int] as int],
                                kv[old_out[j - 1] as int],
                            );
                        }
                }
            } else {
                assert(out@[i] == old_out[i - 1] && out@[j] == old_out[j - 1]);
            }
        }
        assert forall|m: usize| m < k + 1 implies #[trigger] out@.contains(m) by {
            if m == k {
                assert(out@[p as int] == k);
            } else {
                assert(old_out.contains(m));
                let w = choose|w: int| 0 <= w < old_out.len() && old_out[w] == m;
                if w < p {
                    assert(out@[w] == m);
                } else {
                    assert(out@[w + 1] == m);
                }
            }
        }
        k += 1;
    }
    out
}

/// Distinct keys have only one sorted order.
pub proof fn lemma_sorted_order_unique(keys: Seq<Seq<char>>, o1: Seq<usize>, o2: Seq<usize>)
    requires
        distinct_keys(keys),
        sorted_order_of(keys, o1),
        sorted_order_of(keys, o2),
    ensures
        o1 == o2,
{
    assert forall|i: int| 0 <= i < o1.len() implies o1[i] == o2[i] by {
        lemma_sorted_order_prefix(keys, o1, o2, i);
    }
    assert(o1 =~= o2);
}

/// The two sorted orders agree up to position `i`.
proof fn lemma_sorted_order_prefix(keys: Seq<Seq<char>>, o1: Seq<usize>, o2: Seq<usize>, i: int)
    requires
        distinct_keys(keys),
        sorted_order_of(keys, o1),
        sorted_order_of(keys, o2),
        0 <= i < o1.len(),
    ensures
        forall|j: int| 0 <= j <= i ==> o1[j] == o2[j],
    decreases i,
{
    if i > 0 {
        lemma_sorted_order_prefix(keys, o1, o2, i - 1);
    }
    let a = o1[i];
    let b = o2[i];
    if a != b {
        assert(o1.contains(b));
        let j = choose|j: int| 0 <= j < o1.len() && o1[j] == b;
        assert(o2.contains(a));
        let k = choose|k: int| 0 <= k < o2.len() && o2[k] == a;
        lemma_lex_irreflexive(keys[b as int]);
        lemma_lex_irreflexive(keys[a as int]);
        if j < i {
            assert(o2[j] == b);
        } else if k < i {
            assert(o1[k] == a);
        } else {
            assert(lex_lt(keys[a as int], keys[b as int]));
            assert(lex_lt(keys[b as int], keys[a as int]));
            lemma_lex_total(keys[a as int], keys[b as int]);
        }
    }
}

} // verus!
