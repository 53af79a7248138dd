//! Lexicographic order on text and a stable insertion sort.
use vstd::prelude::*;

verus! {

broadcast use vstd::seq_lib::group_to_multiset_ensures;

/// `a` comes before `b` or equals it, comparing characters by their scalar
/// values from the start. This is the order of `str`, whose UTF-8 bytes
/// compare as the scalar values do.
pub open spec fn lex_le(a: Seq<char>, b: Seq<char>) -> bool
    decreases a.len(),
{
    if a.len() == 0 {
        true
    } else if b.len() == 0 {
        false
    } else if a[0] != b[0] {
        a[0] < b[0]
    } else {
        lex_le(a.drop_first(), b.drop_first())
    }
}

pub proof fn lemma_lex_total(a: Seq<char>, b: Seq<char>)
    ensures
        lex_le(a, b) || lex_le(b, a),
    decreases a.len(),
{
    if a.len() > 0 && b.len() > 0 && a[0] == b[0] {
        lemma_lex_total(a.drop_first(), b.drop_first());
    }
}

pub proof fn lemma_lex_antisymmetric(a: Seq<char>, b: Seq<char>)
    requires
        lex_le(a, b),
        lex_le(b, a),
    ensures
        a == b,
    decreases a.len(),
{
    if a.len() == 0 {
        assert(b.len() == 0);
        assert(a =~= b);
    } else {
        assert(b.len() > 0);
        assert(a[0] == b[0]);
        lemma_lex_antisymmetric(a.drop_first(), b.drop_first());
        assert(a =~= seq![a[0]] + a.drop_first());
        assert(b =~= seq![b[0]] + b.drop_first());
    }
}

pub proof fn lemma_lex_transitive(a: Seq<char>, b: Seq<char>, c: Seq<char>)
    requires
        lex_le(a, b),
        lex_le(b, c),
    ensures
        lex_le(a, c),
    decreases a.len(),
{
    if a.len() > 0 && b.len() > 0 && c.len() > 0 && a[0] == b[0] && b[0] == c[0] {
        lemma_lex_transitive(a.drop_first(), b.drop_first(), c.drop_first());
    }
}

/// Whether `a` comes before `b` or equals it.
pub fn lex_le_exec(a: &Vec<char>, b: &Vec<char>) -> (r: bool)
    ensures
        r == lex_le(a@, b@),
{
    let mut i: usize = 0;
    assert(a@.skip(0) =~= a@ && b@.skip(0) =~= b@);
    while i < a.len() && i < b.len() && a[i] == b[i]
        invariant
            i <= a.len(),
            i <= b.len(),
            lex_le(a@, b@) == lex_le(a@.skip(i as int), b@.skip(i as int)),
        decreases a.len() - i,
    {
        assert(a@.skip(i as int).drop_first() =~= a@.skip(i + 1));
        assert(b@.skip(i as int).drop_first() =~= b@.skip(i + 1));
        i += 1;
    }
    if i == a.len() {
        true
    } else if i == b.len() {
        false
    } else {
        assert(a@.skip(i as int)[0] == a@[i as int]);
        assert(b@.skip(i as int)[0] == b@[i as int]);
        a[i] < b[i]
    }
}

/// A total preorder, decided by `le`.
pub trait Ordered: Sized {
    spec fn spec_le(&self, other: &Self) -> bool;

    fn le(&self, other: &Self) -> (r: bool)
        ensures
            r == self.spec_le(other),
    ;

    proof fn lemma_total(a: &Self, b: &Self)
        ensures
            a.spec_le(b) || b.spec_le(a),
    ;

    proof fn lemma_transitive(a: &Self, b: &Self, c: &Self)
        requires
            a.spec_le(b),
            b.spec_le(c),
        ensures
            a.spec_le(c),
    ;
}

/// Every element comes before or equals every later one.
pub open spec fn sorted<T: Ordered>(s: Seq<T>) -> bool {
    forall|i: int, j: int| 0 <= i < j < s.len() ==> #[trigger] s[i].spec_le(&s[j])
}

/// `s` is `t` rearranged by `perm` (the position in `t` of each element of
/// `s`), with the elements that `le` does not tell apart in their order of
/// `t`.
pub open spec fn stable_by<T: Ordered>(s: Seq<T>, t: Seq<T>, perm: Seq<int>) -> bool {
    &&& perm.len() == s.len()
    &&& s.len() == t.len()
    &&& forall|k: int| 0 <= k < s.len() ==> 0 <= #[trigger] perm[k] < t.len() && s[k] == t[perm[k]]
    &&& forall|a: int, b: int| 0 <= a < b < s.len() ==> #[trigger] perm[a] != #[trigger] perm[b]
    &&& forall|a: int, b: int|
        0 <= a < b < s.len() && #[trigger] s[b].spec_le(&s[a]) ==> perm[a] < #[trigger] perm[b]
}

/// `s` is a stable rearrangement of `t`.
pub open spec fn stable_arrangement<T: Ordered>(s: Seq<T>, t: Seq<T>) -> bool {
    exists|perm: Seq<int>| #[trigger] stable_by(s, t, perm)
}

/// Sorts `v` by `le`, keeping equal elements in their order.
pub fn insertion_sort<T: Ordered>(v: &mut Vec<T>)
    ensures
        sorted(final(v)@),
        final(v)@.to_multiset() == old(v)@.to_multiset(),
        stable_arrangement(final(v)@, old(v)@),
{
    let ghost orig = v@;
    let ghost n = v@.len() as int;
    let ghost mut perm: Seq<int> = Seq::new(n as nat, |k: int| k);
    if v.len() == 0 {
        assert(stable_by(v@, orig, perm));
        return;
    }
    let mut i: usize = 1;
    while i < v.len()
        invariant
            1 <= i <= v.len(),
            v@.len() == n,
            orig == old(v)@,
            sorted(v@.take(i as int)),
            v@.to_multiset() == orig.to_multiset(),
            perm.len() == n,
            forall|k: int| 0 <= k < n ==> v@[k] == orig[#[trigger] perm[k]],
            forall|k: int| 0 <= k < i ==> 0 <= #[trigger] perm[k] < i,
            forall|k: int| i <= k < n ==> #[trigger] perm[k] == k,
            forall|a: int, b: int| 0 <= a < b < i ==> #[trigger] perm[a] != #[trigger] perm[b],
            forall|a: int, b: int|
                0 <= a < b < i && #[trigger] v@[b].spec_le(&v@[a]) ==> perm[a] < #[trigger] perm[b],
        decreases v.len() - i,
    {
        let ghost before = v@;
        let ghost perm_before = perm;
        let x = v.remove(i);
        let ghost removed = v@;
        assert(removed.take(i as int) =~= before.take(i as int));
        let mut j: usize = i;
        while j > 0 && !v[j - 1].le(&x)
            invariant
                j <= i,
                i <= v.len(),
                v@ == removed,
                forall|k: int| j <= k < i ==> !#[trigger] v@[k].spec_le(&x),
            decreases j,
        {
            j -= 1;
        }
        proof {
            assert forall|k: int| j <= k < i implies x.spec_le(&#[trigger] v@[k]) by {
                T::lemma_total(&x, &v@[k]);
            }
        }
        v.insert(j, x);
        proof {
            perm = perm_before.remove(i as int).insert(j as int, i as int);
            let s = v@;
            let p = removed.take(i as int);
            assert forall|a: int, b: int| 0 <= a < b < i + 1 implies #[trigger] s.take(
                i + 1,
            )[a].spec_le(&s.take(i + 1)[b]) by {
                assert(s.take(i + 1)[a] == s[a]);
                assert(s.take(i + 1)[b] == s[b]);
                if b < j {
                    assert(s[a] == p[a] && s[b] == p[b]);
                } else if b == j {
                    if a < j {
                        assert(s[a] == p[a]);
                        assert(p[j - 1].spec_le(&x));
                        if a < j - 1 {
                            assert(p[a].spec_le(&p[j - 1]));
                            T::lemma_transitive(&p[a], &p[j - 1], &x);
                        }
                    }
                } else if a < j {
                    assert(s[b] == p[b - 1]);
                    assert(s[a] == p[a]);
                    assert(p[j - 1].spec_le(&x));
                    assert(x.spec_le(&p[b - 1]));
                    if a < j - 1 {
                        assert(p[a].spec_le(&p[j - 1]));
                        T::lemma_transitive(&p[a], &p[j - 1], &x);
                    }
                    T::lemma_transitive(&p[a], &x, &p[b - 1]);
                } else if a == j {
                    assert(s[b] == p[b - 1]);
                    assert(x.spec_le(&p[b - 1]));
                } else {
                    assert(s[a] == p[a - 1] && s[b] == p[b - 1]);
                }
            }
            assert(before.remove(i as int) =~= removed);
            assert forall|k: int| 0 <= k < n implies v@[k] == orig[#[trigger] perm[k]] by {
                if k < j {
                    assert(perm[k] == perm_before[k]);
                    assert(v@[k] == before[k]);
                } else if k == j {
                    assert(perm[k] == i);
                    assert(v@[k] == x);
                    assert(x == before[i as int]);
                    assert(perm_before[i as int] == i);
                    assert(before[i as int] == orig[perm_before[i as int]]);
                } else if k <= i {
                    assert(perm[k] == perm_before[k - 1]);
                    assert(v@[k] == before[k - 1]);
                } else {
                    assert(perm[k] == perm_before[k]);
                    assert(v@[k] == before[k]);
                }
            }
            assert forall|k: int| 0 <= k < i + 1 implies 0 <= #[trigger] perm[k] < i + 1 by {
                if k < j {
                    assert(perm[k] == perm_before[k]);
                } else if k > j {
                    assert(perm[k] == perm_before[k - 1]);
                }
            }
            assert forall|k: int| i + 1 <= k < n implies #[trigger] perm[k] == k by {
                assert(perm[k] == perm_before[k]);
            }
            assert forall|a: int, b: int| 0 <= a < b < i + 1 implies #[trigger] perm[a]
                != #[trigger] perm[b] by {
                let pa = if a < j {
                    a
                } else if a == j {
                    -1
                } else {
                    a - 1
                };
                let pb = if b < j {
                    b
                } else if b == j {
                    -1
                } else {
                    b - 1
                };
                if pa >= 0 {
                    assert(perm[a] == perm_before[pa]);
                    assert(perm_before[pa] < i);
                }
                if pb >= 0 {
                    assert(perm[b] == perm_before[pb]);
                    assert(perm_before[pb] < i);
                }
                if pa >= 0 && pb >= 0 {
                    assert(perm_before[pa] != perm_before[pb]);
                }
            }
            assert forall|a: int, b: int|
                0 <= a < b < i + 1 && #[trigger] v@[b].spec_le(&v@[a]) implies perm[a]
                < #[trigger] perm[b] by {
                if b < j {
                    assert(perm[a] == perm_before[a] && perm[b] == perm_before[b]);
                    assert(v@[a] == before[a] && v@[b] == before[b]);
                } else if b == j {
                    assert(perm[b] == i);
                    assert(perm[a] == perm_before[a]);
                } else if a == j {
                    assert(v@[b] == p[b - 1]);
                    assert(v@[a] == x);
                    assert(!p[b - 1].spec_le(&x));
                } else if a < j {
                    assert(perm[a] == perm_before[a] && perm[b] == perm_before[b - 1]);
                    assert(v@[a] == before[a] && v@[b] == before[b - 1]);
                } else {
                    assert(perm[a] == perm_before[a - 1] && perm[b] == perm_before[b - 1]);
                    assert(v@[a] == before[a - 1] && v@[b] == before[b - 1]);
                }
            }
        }
        i += 1;
    }
    assert(v@.take(v.len() as int) =~= v@);
    assert(stable_by(v@, orig, perm));
}


/// A text comes before every text that it begins: a prefix is no greater,
/// and a proper prefix is smaller.
pub proof fn lemma_lex_prefix(a: Seq<char>, b: Seq<char>)
    requires
        a.len() <= b.len(),
        b.take(a.len() as int) == a,
    ensures
        lex_le(a, b),
        a.len() < b.len() ==> !lex_le(b, a),
    decreases a.len(),
{
    if a.len() > 0 {
        assert(b[0] == b.take(a.len() as int)[0]);
        assert(b.drop_first().take(a.drop_first().len() as int) =~= a.drop_first()) by {
            assert forall|k: int| 0 <= k < a.len() - 1 implies #[trigger] b.drop_first().take(
                a.drop_first().len() as int,
            )[k] == a.drop_first()[k] by {
                assert(b.take(a.len() as int)[k + 1] == b[k + 1]);
            }
        }
        lemma_lex_prefix(a.drop_first(), b.drop_first());
    }
}

/// Two texts that agree before position `i` and differ at it are ordered
/// by their characters at `i`, whatever their lengths.
pub proof fn lemma_lex_first_difference(a: Seq<char>, b: Seq<char>, i: int)
    requires
        0 <= i < a.len(),
        i < b.len(),
        a.take(i) == b.take(i),
        a[i] != b[i],
    ensures
        lex_le(a, b) == (a[i] < b[i]),
        lex_le(b, a) == (b[i] < a[i]),
    decreases i,
{
    if i > 0 {
        assert(a[0] == a.take(i)[0] && b[0] == b.take(i)[0]);
        assert(a.drop_first().take(i - 1) =~= b.drop_first().take(i - 1)) by {
            assert forall|k: int| 0 <= k < i - 1 implies #[trigger] a.drop_first().take(i - 1)[k]
                == b.drop_first().take(i - 1)[k] by {
                assert(a.take(i)[k + 1] == a[k + 1]);
                assert(b.take(i)[k + 1] == b[k + 1]);
                assert(a.take(i)[k + 1] == b.take(i)[k + 1]);
                assert(a.drop_first().take(i - 1)[k] == a[k + 1]);
                assert(b.drop_first().take(i - 1)[k] == b[k + 1]);
            }
        }
        lemma_lex_first_difference(a.drop_first(), b.drop_first(), i - 1);
    }
}

} // verus!
