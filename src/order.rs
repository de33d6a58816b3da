use vstd::prelude::*;

verus! {

/// `a` comes no later than `b` in byte-wise lexicographic order.
pub open spec fn bytes_le(a: Seq<u8>, b: Seq<u8>) -> bool
    decreases a.len(),
{
    if a.len() == 0 {
        true
    } else if b.len() == 0 {
        false
    } else if a[0] != b[0] {
        a[0] < b[0]
    } else {
        bytes_le(a.drop_first(), b.drop_first())
    }
}

/// Byte strings in lexicographic order, first to last.
pub open spec fn sorted_by_bytes(s: Seq<Vec<u8>>) -> bool {
    forall|i: int, j: int| 0 <= i < j < s.len() ==> bytes_le(#[trigger] s[i]@, #[trigger] s[j]@)
}

/// Any two byte strings are ordered one way or the other.
pub proof fn lemma_bytes_le_total(a: Seq<u8>, b: Seq<u8>)
    ensures
        bytes_le(a, b) || bytes_le(b, a),
    decreases a.len(),
{
    if a.len() > 0 && b.len() > 0 && a[0] == b[0] {
        lemma_bytes_le_total(a.drop_first(), b.drop_first());
    }
}

/// The order is transitive.
pub proof fn lemma_bytes_le_transitive(a: Seq<u8>, b: Seq<u8>, c: Seq<u8>)
    requires
        bytes_le(a, b),
        bytes_le(b, c),
    ensures
        bytes_le(a, c),
    decreases a.len(),
{
    if a.len() > 0 && b.len() > 0 && c.len() > 0 && a[0] == b[0] && b[0] == c[0] {
        lemma_bytes_le_transitive(a.drop_first(), b.drop_first(), c.drop_first());
    }
}

/// Inserting an element adds it to the multiset of the sequence.
proof fn lemma_insert_to_multiset<A>(s: Seq<A>, p: int, x: A)
    requires
        0 <= p <= s.len(),
    ensures
        s.insert(p, x).to_multiset() =~= s.to_multiset().insert(x),
{
    broadcast use vstd::seq_lib::group_to_multiset_ensures;

    let t = s.insert(p, x);
    assert(t.remove(p) =~= s);
    assert(t[p] == x);
    assert(t.contains(x));
    assert(t.to_multiset().count(x) > 0);
}

/// Whether `a` comes no later than `b` in byte-wise lexicographic order.
pub fn compare_bytes(a: &Vec<u8>, b: &Vec<u8>) -> (r: bool)
    ensures
        r == bytes_le(a@, b@),
{
    let mut i: usize = 0;
    proof {
        assert(a@.skip(0) =~= a@);
        assert(b@.skip(0) =~= b@);
    }
    while i < a.len() && i < b.len()
        invariant
            i <= a@.len(),
            i <= b@.len(),
            bytes_le(a@, b@) == bytes_le(a@.skip(i as int), b@.skip(i as int)),
        decreases a@.len() - i,
    {
        if a[i] != b[i] {
            return a[i] < b[i];
        }
        proof {
            assert(a@.skip(i as int).drop_first() =~= a@.skip(i + 1));
            assert(b@.skip(i as int).drop_first() =~= b@.skip(i + 1));
        }
        i = i + 1;
    }
    i == a.len()
}

/// Sorts file names byte-wise, keeping every name.
pub fn sort_file_names(names: Vec<Vec<u8>>) -> (r: Vec<Vec<u8>>)
    ensures
        sorted_by_bytes(r@),
        r@.to_multiset() =~= names@.to_multiset(),
{
    broadcast use vstd::seq_lib::group_to_multiset_ensures;

    let ghost all = names@;
    let mut rest = names;
    let mut out: Vec<Vec<u8>> = Vec::new();
    while rest.len() > 0
        invariant
            sorted_by_bytes(out@),
            rest@.to_multiset().add(out@.to_multiset()) =~= all.to_multiset(),
        decreases rest@.len(),
    {
        let ghost before = rest@;
        let x = match rest.pop() {
            Some(x) => x,
            None => {
                return out;
            },
        };
        proof {
            assert(before =~= rest@.push(x));
            rest@.to_multiset_ensures();
            assert(rest@.push(x).to_multiset() =~= rest@.to_multiset().insert(x));
            assert(before.to_multiset() =~= rest@.to_multiset().insert(x));
        }
        let mut p: usize = 0;
        while p < out.len() && compare_bytes(&out[p], &x)
            invariant
                p <= out@.len(),
                forall|k: int| 0 <= k < p ==> bytes_le(#[trigger] out@[k]@, x@),
            decreases out@.len() - p,
        {
            p = p + 1;
        }
        proof {
            if p < out@.len() {
                lemma_bytes_le_total(out@[p as int]@, x@);
                assert forall|k: int| p <= k < out@.len() implies bytes_le(
                    x@,
                    #[trigger] out@[k]@,
                ) by {
                    if k > p {
                        lemma_bytes_le_transitive(x@, out@[p as int]@, out@[k]@);
                    }
                }
            }
            lemma_insert_to_multiset(out@, p as int, x);
        }
        let ghost old_out = out@;
        out.insert(p, x);
        proof {
            assert forall|i: int, j: int| 0 <= i < j < out@.len() implies bytes_le(
                #[trigger] out@[i]@,
                #[trigger] out@[j]@,
            ) by {
                if i < p && j == p {
                } else if i < p && j > p {
                    assert(bytes_le(old_out[i]@, old_out[j - 1]@));
                } else if i == p {
                    assert(out@[j] == old_out[j - 1]);
                } else if i < p {
                } else {
                    assert(bytes_le(old_out[i - 1]@, old_out[j - 1]@));
                }
            }
            assert(rest@.to_multiset().add(out@.to_multiset()) =~= before.to_multiset().add(
                old_out.to_multiset(),
            ));
        }
    }
    out
}

} // verus!
