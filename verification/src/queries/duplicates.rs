//! Duplicate-code detection: where a procedure lies, and the token bigrams
//! by which two procedures are compared.

use vstd::multiset::Multiset;
use vstd::prelude::*;

use crate::text::{chars_of, push_str, vec_eq};

verus! {

/// Where a procedure lies.
#[derive(Debug, Clone)]
pub struct BlockLocation {
    pub file: String,
    pub object: String,
    pub procedure: String,
    pub line: u32,
}

/// The bigram keys of a token sequence: each pair of neighbours joined by
/// `|`, in order.
pub open spec fn window_keys(t: Seq<String>) -> Seq<Seq<char>> {
    if t.len() < 2 {
        seq![]
    } else {
        Seq::new((t.len() - 1) as nat, |i: int| t[i]@ + "|"@ + t[i + 1]@)
    }
}

/// The bag of bigrams of a token sequence.
pub open spec fn bigram_bag(t: Seq<String>) -> Multiset<Seq<char>> {
    window_keys(t).to_multiset()
}

/// `out` holds each bigram of `bag` once, with its number of occurrences.
pub open spec fn counts_of(out: Seq<(String, usize)>, bag: Multiset<Seq<char>>) -> bool {
    &&& forall|a: int, b: int| 0 <= a < b < out.len() ==> (#[trigger] out[a]).0@ != (#[trigger] out[b]).0@
    &&& forall|a: int| 0 <= a < out.len() ==> (#[trigger] out[a]).1 == bag.count(out[a].0@)
    &&& forall|k: Seq<char>| #[trigger] bag.count(k) > 0 ==> exists|a: int| 0 <= a < out.len() && (#[trigger] out[a]).0@ == k
}

fn find_key(out: &Vec<(String, usize)>, k: &Vec<char>) -> (r: Option<usize>)
    ensures
        r matches Some(a) ==> a < out@.len() && out@[a as int].0@ == k@,
        r is None ==> forall|a: int| 0 <= a < out@.len() ==> out@[a].0@ != k@,
{
    let mut a: usize = 0;
    while a < out.len()
        invariant
            a <= out@.len(),
            forall|b: int| 0 <= b < a ==> out@[b].0@ != k@,
        decreases out@.len() - a,
    {
        if vec_eq(&chars_of(out[a].0.as_str()), k) {
            return Some(a);
        }
        a = a + 1;
    }
    None
}

/// The bigrams of a token sequence with their counts, each bigram once, in
/// the order of first occurrence.
pub fn bigrams(tokens: &Vec<String>) -> (r: Vec<(String, usize)>)
    ensures
        counts_of(r@, bigram_bag(tokens@)),
{
    broadcast use vstd::seq_lib::group_to_multiset_ensures;
    broadcast use vstd::multiset::group_multiset_axioms;

    let ghost wk = window_keys(tokens@);
    let mut out: Vec<(String, usize)> = Vec::new();
    if tokens.len() < 2 {
        assert(wk =~= Seq::<Seq<char>>::empty());
        return out;
    }
    let n = tokens.len() - 1;
    let mut i: usize = 0;
    assert(wk.take(0) =~= Seq::<Seq<char>>::empty());
    while i < n
        invariant
            n == tokens@.len() - 1,
            wk == window_keys(tokens@),
            wk.len() == n,
            i <= n,
            counts_of(out@, wk.take(i as int).to_multiset()),
            forall|a: int| 0 <= a < out@.len() ==> (#[trigger] out@[a]).1 <= i,
        decreases n - i,
    {
        let mut key = String::new();
        push_str(&mut key, tokens[i].as_str());
        push_str(&mut key, "|");
        push_str(&mut key, tokens[i + 1].as_str());
        let kv = chars_of(key.as_str());
        assert(kv@ == wk[i as int]);
        let ghost bag0 = wk.take(i as int).to_multiset();
        assert(wk.take(i + 1) =~= wk.take(i as int).push(kv@));
        let ghost bag1 = wk.take(i + 1).to_multiset();
        proof {
            vstd::seq_lib::to_multiset_build(wk.take(i as int), kv@);
        }
        assert(bag1 =~= bag0.insert(kv@));
        let ghost o0 = out@;
        match find_key(&out, &kv) {
            Some(a) => {
                let c = out[a].1;
                assert(c <= i);
                out.set(a, (key, c + 1));
                assert forall|b: int| 0 <= b < out@.len() implies (#[trigger] out@[b]).1 == bag1.count(
                    out@[b].0@,
                ) by {
                    if b != a {
                        assert(out@[b] == o0[b]);
                    }
                }
                assert forall|k: Seq<char>| #[trigger] bag1.count(k) > 0 implies exists|b: int|
                    0 <= b < out@.len() && (#[trigger] out@[b]).0@ == k by {
                    if k == kv@ {
                        assert(out@[a as int].0@ == k);
                    } else {
                        assert(bag0.count(k) > 0);
                        let b = choose|b: int| 0 <= b < o0.len() && (#[trigger] o0[b]).0@ == k;
                        if b != a {
                            assert(out@[b] == o0[b]);
                        } else {
                            assert(o0[a as int].0@ == kv@);
                        }
                    }
                }
                assert forall|x: int, y: int| 0 <= x < y < out@.len() implies (#[trigger] out@[x]).0@
                    != (#[trigger] out@[y]).0@ by {
                    assert(out@[x].0@ == o0[x].0@);
                    assert(out@[y].0@ == o0[y].0@);
                }
            },
            None => {
                out.push((key, 1));
                assert(bag0.count(kv@) == 0);
                assert forall|b: int| 0 <= b < out@.len() implies (#[trigger] out@[b]).1 == bag1.count(
                    out@[b].0@,
                ) by {
                    if b < o0.len() {
                        assert(out@[b] == o0[b]);
                    }
                }
                assert forall|k: Seq<char>| #[trigger] bag1.count(k) > 0 implies exists|b: int|
                    0 <= b < out@.len() && (#[trigger] out@[b]).0@ == k by {
                    if k == kv@ {
                        assert(out@[o0.len() as int].0@ == k);
                    } else {
                        assert(bag0.count(k) > 0);
                        let b = choose|b: int| 0 <= b < o0.len() && (#[trigger] o0[b]).0@ == k;
                        assert(out@[b] == o0[b]);
                    }
                }
                assert forall|x: int, y: int| 0 <= x < y < out@.len() implies (#[trigger] out@[x]).0@
                    != (#[trigger] out@[y]).0@ by {
                    assert(out@[x] == o0[x]);
                    if y < o0.len() {
                        assert(out@[y] == o0[y]);
                    }
                }
            },
        }
        i = i + 1;
    }
    assert(wk.take(n as int) =~= wk);
    out
}

/// The two whole numbers behind the similarity of two token sequences:
/// how many bigrams they share (counted with multiplicity, the smaller
/// count of each bigram) and how many bigrams they have together. The
/// similarity is twice the first over the second.
pub open spec fn overlap_parts(a: Seq<String>, b: Seq<String>) -> (nat, nat) {
    (
        bigram_bag(a).intersection_with(bigram_bag(b)).len(),
        bigram_bag(a).len() + bigram_bag(b).len(),
    )
}

/// Shared and total bigram counts of two token sequences (see
/// [`overlap_parts`]).
pub fn bigram_overlap(a: &Vec<String>, b: &Vec<String>) -> (r: (usize, usize))
    requires
        a@.len() + b@.len() <= usize::MAX,
    ensures
        r.0 as nat == overlap_parts(a@, b@).0,
        r.1 as nat == overlap_parts(a@, b@).1,
{
    broadcast use vstd::seq_lib::group_to_multiset_ensures;
    broadcast use vstd::multiset::group_multiset_axioms;

    let ghost wa = window_keys(a@);
    let ghost bb = bigram_bag(b@);
    let mut left = bigrams(b);
    let mut shared: usize = 0;
    let ghost mut taken: Multiset<Seq<char>> = Multiset::empty();
    let n: usize = if a.len() < 2 { 0 } else { a.len() - 1 };
    assert(wa.len() == n);
    assert(wa.take(0) =~= Seq::<Seq<char>>::empty());
    let mut i: usize = 0;
    while i < n
        invariant
            n == wa.len(),
            wa == window_keys(a@),
            bb == bigram_bag(b@),
            i <= n,
            n >= 1 ==> n == a@.len() - 1,
            forall|x: int, y: int| 0 <= x < y < left@.len() ==> (#[trigger] left@[x]).0@ != (#[trigger] left@[y]).0@,
            forall|x: int| 0 <= x < left@.len() ==> (#[trigger] left@[x]).1 + taken.count(left@[x].0@) == bb.count(left@[x].0@),
            forall|k: Seq<char>| #[trigger] bb.count(k) > 0 ==> exists|x: int| 0 <= x < left@.len() && (#[trigger] left@[x]).0@ == k,
            forall|k: Seq<char>| #[trigger] taken.count(k) == vstd::math::min(wa.take(i as int).to_multiset().count(k) as int, bb.count(k) as int),
            shared as nat == taken.len(),
            shared <= i,
        decreases n - i,
    {
        let mut key = String::new();
        push_str(&mut key, a[i].as_str());
        push_str(&mut key, "|");
        push_str(&mut key, a[i + 1].as_str());
        let kv = chars_of(key.as_str());
        assert(kv@ == wa[i as int]);
        let ghost p0 = wa.take(i as int).to_multiset();
        assert(wa.take(i + 1) =~= wa.take(i as int).push(kv@));
        proof {
            vstd::seq_lib::to_multiset_build(wa.take(i as int), kv@);
        }
        let ghost p1 = wa.take(i + 1).to_multiset();
        assert(p1 =~= p0.insert(kv@));
        let ghost t0 = taken;
        match find_key(&left, &kv) {
            Some(x) => {
                let c = left[x].1;
                if c > 0 {
                    let name = left[x].0.clone();
                    let ghost l0 = left@;
                    left.set(x, (name, c - 1));
                    shared = shared + 1;
                    proof {
                        taken = taken.insert(kv@);
                        assert forall|y: int| 0 <= y < left@.len() implies (#[trigger] left@[y]).1 + taken.count(
                            left@[y].0@,
                        ) == bb.count(left@[y].0@) by {
                            if y != x {
                                assert(left@[y] == l0[y]);
                            }
                        }
                        assert forall|k: Seq<char>| #[trigger] bb.count(k) > 0 implies exists|y: int|
                            0 <= y < left@.len() && (#[trigger] left@[y]).0@ == k by {
                            let y = choose|y: int| 0 <= y < l0.len() && (#[trigger] l0[y]).0@ == k;
                            assert(left@[y].0@ == l0[y].0@);
                        }
                        assert forall|x1: int, y1: int| 0 <= x1 < y1 < left@.len() implies (#[trigger] left@[x1]).0@
                            != (#[trigger] left@[y1]).0@ by {
                            assert(left@[x1].0@ == l0[x1].0@);
                            assert(left@[y1].0@ == l0[y1].0@);
                        }
                        assert forall|k: Seq<char>| #[trigger] taken.count(k) == vstd::math::min(
                            p1.count(k) as int,
                            bb.count(k) as int,
                        ) by {
                            assert(t0.count(k) == vstd::math::min(p0.count(k) as int, bb.count(k) as int));
                        }
                    }
                } else {
                    proof {
                        assert forall|k: Seq<char>| #[trigger] taken.count(k) == vstd::math::min(
                            p1.count(k) as int,
                            bb.count(k) as int,
                        ) by {
                            assert(t0.count(k) == vstd::math::min(p0.count(k) as int, bb.count(k) as int));
                        }
                    }
                }
            },
            None => {
                proof {
                    assert(bb.count(kv@) == 0) by {
                        if bb.count(kv@) > 0 {
                            let y = choose|y: int| 0 <= y < left@.len() && (#[trigger] left@[y]).0@ == kv@;
                        }
                    }
                    assert forall|k: Seq<char>| #[trigger] taken.count(k) == vstd::math::min(
                        p1.count(k) as int,
                        bb.count(k) as int,
                    ) by {
                        assert(t0.count(k) == vstd::math::min(p0.count(k) as int, bb.count(k) as int));
                    }
                }
            },
        }
        i = i + 1;
    }
    proof {
        assert(wa.take(n as int) =~= wa);
        let ba = bigram_bag(a@);
        assert forall|k: Seq<char>| #[trigger] taken.count(k) == ba.intersection_with(bb).count(k) by {
            vstd::multiset::lemma_intersection_count(ba, bb, k);
            assert(wa.to_multiset() == ba);
        }
        assert(taken =~= ba.intersection_with(bb));
    }
    let na: usize = n;
    let nb: usize = if b.len() < 2 { 0 } else { b.len() - 1 };
    assert(window_keys(b@).len() == nb);
    (shared, na + nb)
}

/// Two procedures are compared when both have at least `min_tokens`
/// tokens and they are not the same procedure of the same object.
pub open spec fn comparable(a: (BlockLocation, usize), b: (BlockLocation, usize), min_tokens: usize) -> bool {
    &&& a.1 >= min_tokens
    &&& b.1 >= min_tokens
    &&& !(a.0.object@ == b.0.object@ && a.0.procedure@ == b.0.procedure@)
}

/// `(i, j)` comes before `(k, l)`: by the first index, then the second.
pub open spec fn pair_before(p: (usize, usize), q: (usize, usize)) -> bool {
    p.0 < q.0 || (p.0 == q.0 && p.1 < q.1)
}

/// The pairs of procedures (each with its token count) that are compared
/// for duplication: every `(i, j)` with `i < j` that is [`comparable`], in
/// order of `i`, then `j`.
pub fn comparable_pairs(procs: &Vec<(BlockLocation, usize)>, min_tokens: usize) -> (r: Vec<(usize, usize)>)
    ensures
        forall|x: int| 0 <= x < r@.len() ==> {
            let p = #[trigger] r@[x];
            p.0 < p.1 < procs@.len() && comparable(procs@[p.0 as int], procs@[p.1 as int], min_tokens)
        },
        forall|x: int, y: int| 0 <= x < y < r@.len() ==> pair_before(#[trigger] r@[x], #[trigger] r@[y]),
        forall|i: int, j: int|
            0 <= i < j < procs@.len() && comparable(procs@[i], procs@[j], min_tokens) ==> r@.contains(
                (i as usize, j as usize),
            ),
{
    let mut out: Vec<(usize, usize)> = Vec::new();
    let mut i: usize = 0;
    while i < procs.len()
        invariant
            i <= procs@.len(),
            forall|x: int| 0 <= x < out@.len() ==> {
                let p = #[trigger] out@[x];
                p.0 < p.1 < procs@.len() && p.0 < i && comparable(procs@[p.0 as int], procs@[p.1 as int], min_tokens)
            },
            forall|x: int, y: int| 0 <= x < y < out@.len() ==> pair_before(#[trigger] out@[x], #[trigger] out@[y]),
            forall|a: int, b: int|
                0 <= a < i && a < b < procs@.len() && comparable(procs@[a], procs@[b], min_tokens)
                    ==> out@.contains((a as usize, b as usize)),
        decreases procs@.len() - i,
    {
        let mut j: usize = i + 1;
        let ghost before = out@;
        while j < procs.len()
            invariant
                i < procs@.len(),
                i + 1 <= j <= procs@.len(),
                before.len() <= out@.len(),
                forall|x: int| 0 <= x < before.len() ==> out@[x] == before[x],
                forall|x: int| 0 <= x < before.len() ==> (#[trigger] before[x]).0 < i,
                forall|x: int| before.len() <= x < out@.len() ==> (#[trigger] out@[x]).0 == i && out@[x].1 < j,
                forall|x: int| 0 <= x < out@.len() ==> {
                    let p = #[trigger] out@[x];
                    p.0 < p.1 < procs@.len() && p.0 <= i && comparable(procs@[p.0 as int], procs@[p.1 as int], min_tokens)
                },
                forall|x: int, y: int| 0 <= x < y < out@.len() ==> pair_before(#[trigger] out@[x], #[trigger] out@[y]),
                forall|a: int, b: int|
                    0 <= a < i && a < b < procs@.len() && comparable(procs@[a], procs@[b], min_tokens)
                        ==> out@.contains((a as usize, b as usize)),
                forall|b: int|
                    i < b < j && comparable(procs@[i as int], procs@[b], min_tokens)
                        ==> out@.contains((i, b as usize)),
            decreases procs@.len() - j,
        {
            let a = &procs[i];
            let b = &procs[j];
            let same = vec_eq(&chars_of(a.0.object.as_str()), &chars_of(b.0.object.as_str())) && vec_eq(
                &chars_of(a.0.procedure.as_str()),
                &chars_of(b.0.procedure.as_str()),
            );
            if a.1 >= min_tokens && b.1 >= min_tokens && !same {
                let ghost o0 = out@;
                out.push((i, j));
                proof {
                    assert(out@[o0.len() as int] == (i, j));
                    assert forall|x: int| 0 <= x < o0.len() implies out@[x] == o0[x] by {}
                    assert forall|x: int, y: int| 0 <= x < y < out@.len() implies pair_before(
                        #[trigger] out@[x],
                        #[trigger] out@[y],
                    ) by {
                        if y == o0.len() {
                            assert(out@[x] == o0[x]);
                            if x < before.len() {
                                assert(before[x] == o0[x]);
                            }
                        } else {
                            assert(out@[x] == o0[x]);
                            assert(out@[y] == o0[y]);
                        }
                    }
                    assert forall|a2: int, b2: int|
                        0 <= a2 < i && a2 < b2 < procs@.len() && comparable(procs@[a2], procs@[b2], min_tokens)
                            implies out@.contains((a2 as usize, b2 as usize)) by {
                        let x = choose|x: int| 0 <= x < o0.len() && o0[x] == (a2 as usize, b2 as usize);
                        assert(out@[x] == o0[x]);
                    }
                    assert forall|b2: int|
                        i < b2 < j + 1 && comparable(procs@[i as int], procs@[b2], min_tokens)
                            implies out@.contains((i, b2 as usize)) by {
                        if b2 < j {
                            let x = choose|x: int| 0 <= x < o0.len() && o0[x] == (i, b2 as usize);
                            assert(out@[x] == o0[x]);
                        }
                    }
                }
            }
            j = j + 1;
        }
        i = i + 1;
    }
    out
}

} // verus!
