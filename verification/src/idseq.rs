//! Removing every occurrence of one id from a sequence of asset ids,
//! and the facts about that removal the registry's proofs lean on.

use vstd::prelude::*;

verus! {

/// `s` with every occurrence of `x` removed, order otherwise kept.
pub open spec fn seq_without(s: Seq<u32>, x: u32) -> Seq<u32>
    decreases s.len(),
{
    if s.len() == 0 {
        Seq::empty()
    } else if s.last() == x {
        seq_without(s.drop_last(), x)
    } else {
        seq_without(s.drop_last(), x).push(s.last())
    }
}

/// Builds the list with every occurrence of `x` removed.
pub(crate) fn remove_id(list: &Vec<u32>, x: u32) -> (r: Vec<u32>)
    ensures
        r@ == seq_without(list@, x),
{
    let mut r: Vec<u32> = Vec::new();
    let mut j: usize = 0;
    while j < list.len()
        invariant
            j <= list@.len(),
            r@ == seq_without(list@.subrange(0, j as int), x),
        decreases list@.len() - j,
    {
        let v = list[j];
        proof {
            let cur = list@.subrange(0, j as int + 1);
            assert(cur.drop_last() =~= list@.subrange(0, j as int));
            assert(cur.last() == list@[j as int]);
        }
        if v != x {
            r.push(v);
        }
        j += 1;
    }
    proof {
        assert(list@.subrange(0, list@.len() as int) =~= list@);
    }
    r
}

/// Appends to `dst` every element of `src` other than `x`, in order.
pub(crate) fn append_without(dst: &mut Vec<u32>, src: &Vec<u32>, x: u32)
    ensures
        final(dst)@ == old(dst)@ + seq_without(src@, x),
{
    proof {
        assert(dst@ =~= dst@ + seq_without(src@.subrange(0, 0), x));
    }
    let mut j: usize = 0;
    while j < src.len()
        invariant
            j <= src@.len(),
            dst@ == old(dst)@ + seq_without(src@.subrange(0, j as int), x),
        decreases src@.len() - j,
    {
        let v = src[j];
        proof {
            let cur = src@.subrange(0, j as int + 1);
            assert(cur.drop_last() =~= src@.subrange(0, j as int));
            assert(cur.last() == src@[j as int]);
            if v != x {
                assert(old(dst)@ + seq_without(cur, x) =~= (old(dst)@ + seq_without(
                    src@.subrange(0, j as int),
                    x,
                )).push(v));
            }
        }
        if v != x {
            dst.push(v);
        }
        j += 1;
    }
    proof {
        assert(src@.subrange(0, src@.len() as int) =~= src@);
    }
}

/// Removal distributes over concatenation.
pub proof fn lemma_seq_without_add(a: Seq<u32>, b: Seq<u32>, x: u32)
    ensures
        seq_without(a + b, x) == seq_without(a, x) + seq_without(b, x),
    decreases b.len(),
{
    if b.len() == 0 {
        assert(a + b =~= a);
        assert(seq_without(a, x) + seq_without(b, x) =~= seq_without(a, x));
    } else {
        lemma_seq_without_add(a, b.drop_last(), x);
        let s = a + b;
        assert(s.drop_last() =~= a + b.drop_last());
        assert(s.last() == b.last());
        if b.last() == x {
            assert(seq_without(b, x) == seq_without(b.drop_last(), x));
        } else {
            assert(seq_without(b, x) == seq_without(b.drop_last(), x).push(b.last()));
            assert(seq_without(a, x) + seq_without(b, x) =~= (seq_without(a, x) + seq_without(
                b.drop_last(),
                x,
            )).push(b.last()));
        }
    }
}

/// Every element of the removal's result is an element of `s` other
/// than `x`.
pub proof fn lemma_seq_without_elements(s: Seq<u32>, x: u32)
    ensures
        forall|i: int| 0 <= i < seq_without(s, x).len()
            ==> s.contains(#[trigger] seq_without(s, x)[i]) && seq_without(s, x)[i] != x,
    decreases s.len(),
{
    if s.len() > 0 {
        lemma_seq_without_elements(s.drop_last(), x);
        let r = seq_without(s, x);
        let rd = seq_without(s.drop_last(), x);
        assert forall|i: int| 0 <= i < r.len() implies s.contains(#[trigger] r[i]) && r[i] != x by {
            if i < rd.len() {
                assert(rd[i] == r[i]);
                let w = choose|w: int| 0 <= w < s.drop_last().len() && s.drop_last()[w] == rd[i];
                assert(s[w] == rd[i]);
            } else {
                assert(r[i] == s.last());
                assert(s[s.len() - 1] == s.last());
            }
        }
    }
}

/// Removing `x` keeps every other id's membership.
pub proof fn lemma_seq_without_membership(s: Seq<u32>, x: u32, y: u32)
    requires
        y != x,
    ensures
        seq_without(s, x).contains(y) <==> s.contains(y),
    decreases s.len(),
{
    if s.len() > 0 {
        lemma_seq_without_membership(s.drop_last(), x, y);
        let r = seq_without(s, x);
        let rd = seq_without(s.drop_last(), x);
        if s.contains(y) {
            let w = choose|w: int| 0 <= w < s.len() && s[w] == y;
            if w < s.len() - 1 {
                assert(s.drop_last()[w] == y);
                let v = choose|v: int| 0 <= v < rd.len() && rd[v] == y;
                if s.last() == x {
                    assert(r[v] == y);
                } else {
                    assert(r[v] == y);
                }
            } else {
                assert(s.last() == y);
                assert(r[r.len() - 1] == y);
            }
        }
        if r.contains(y) {
            let w = choose|w: int| 0 <= w < r.len() && r[w] == y;
            if s.last() == x {
                assert(rd[w] == y);
                let v = choose|v: int| 0 <= v < s.drop_last().len() && s.drop_last()[v] == y;
                assert(s[v] == y);
            } else {
                if w < r.len() - 1 {
                    assert(rd[w] == y);
                    let v = choose|v: int| 0 <= v < s.drop_last().len() && s.drop_last()[v] == y;
                    assert(s[v] == y);
                } else {
                    assert(s[s.len() - 1] == y);
                }
            }
        }
    }
}

/// Removal never lengthens a sequence, and removing a present id
/// shortens it.
pub proof fn lemma_seq_without_len(s: Seq<u32>, x: u32)
    ensures
        seq_without(s, x).len() <= s.len(),
        s.contains(x) ==> seq_without(s, x).len() <= s.len() - 1,
    decreases s.len(),
{
    if s.len() > 0 {
        lemma_seq_without_len(s.drop_last(), x);
        if s.contains(x) && s.last() != x {
            let w = choose|w: int| 0 <= w < s.len() && s[w] == x;
            assert(w < s.len() - 1);
            assert(s.drop_last()[w] == x);
            assert(s.drop_last().contains(x));
        }
    }
}

/// Removal never introduces a repeated id.
pub proof fn lemma_seq_without_no_duplicates(s: Seq<u32>, x: u32)
    requires
        s.no_duplicates(),
    ensures
        seq_without(s, x).no_duplicates(),
    decreases s.len(),
{
    if s.len() > 0 {
        assert(s.drop_last().no_duplicates());
        lemma_seq_without_no_duplicates(s.drop_last(), x);
        if s.last() != x {
            let r = seq_without(s, x);
            let rd = seq_without(s.drop_last(), x);
            lemma_seq_without_elements(s.drop_last(), x);
            assert forall|i: int, j: int| 0 <= i < j < r.len() implies r[i] != r[j] by {
                if j == r.len() - 1 {
                    assert(s.drop_last().contains(rd[i]));
                    let w = choose|w: int|
                        0 <= w < s.drop_last().len() && s.drop_last()[w] == rd[i];
                    assert(s[w] == rd[i]);
                    assert(s[s.len() - 1] == s.last());
                } else {
                    assert(rd[i] != rd[j]);
                }
            }
        }
    }
}

} // verus!
