//! Deterministic output ordering: chromosomes are written by name,
//! byte-lexicographically, whatever order their chunks completed in.

use vstd::prelude::*;
use vstd::string::StrSliceExecFns;
use vstd::utf8::encode_utf8;

verus! {

/// Strict lexicographic order on byte sequences.
pub open spec fn bytes_lt(a: Seq<u8>, b: Seq<u8>) -> bool
    decreases a.len(),
{
    if b.len() == 0 {
        false
    } else if a.len() == 0 {
        true
    } else if a[0] < b[0] {
        true
    } else if a[0] > b[0] {
        false
    } else {
        bytes_lt(a.drop_first(), b.drop_first())
    }
}

/// Lexicographic order on byte sequences.
pub open spec fn bytes_le(a: Seq<u8>, b: Seq<u8>) -> bool {
    bytes_lt(a, b) || a == b
}

/// Any two byte sequences are ordered one way or the other.
pub proof fn lemma_bytes_le_total(a: Seq<u8>, b: Seq<u8>)
    ensures
        bytes_le(a, b) || bytes_le(b, a),
    decreases a.len(),
{
    if a.len() == 0 || b.len() == 0 {
        if a.len() == 0 && b.len() == 0 {
            assert(a =~= b);
        }
    } else if a[0] == b[0] {
        lemma_bytes_le_total(a.drop_first(), b.drop_first());
        if a.drop_first() == b.drop_first() {
            assert(a.drop_first().len() == b.drop_first().len());
            assert(a.len() == b.len());
            assert forall|i: int| 0 <= i < a.len() implies a[i] == b[i] by {
                if i == 0 {
                    assert(a[0] == b[0]);
                } else {
                    assert(a[i] == a.drop_first()[i - 1]);
                    assert(b[i] == b.drop_first()[i - 1]);
                }
            }
            assert(a =~= b);
        }
    }
}

/// Strict lexicographic order is transitive.
pub proof fn lemma_bytes_lt_trans(a: Seq<u8>, b: Seq<u8>, c: Seq<u8>)
    requires
        bytes_lt(a, b),
        bytes_lt(b, c),
    ensures
        bytes_lt(a, c),
    decreases a.len(),
{
    if a.len() == 0 {
    } else if a[0] == b[0] && b[0] == c[0] {
        lemma_bytes_lt_trans(a.drop_first(), b.drop_first(), c.drop_first());
    }
}

/// Lexicographic order is transitive.
pub proof fn lemma_bytes_le_trans(a: Seq<u8>, b: Seq<u8>, c: Seq<u8>)
    requires
        bytes_le(a, b),
        bytes_le(b, c),
    ensures
        bytes_le(a, c),
{
    if a == b || b == c {
    } else {
        lemma_bytes_lt_trans(a, b, c);
    }
}

/// Compare two names in byte-lexicographic order.
fn name_le(a: &String, b: &String) -> (r: bool)
    ensures
        r == bytes_le(encode_utf8(a@), encode_utf8(b@)),
{
    let ab = a.as_str().as_bytes_vec();
    let bb = b.as_str().as_bytes_vec();
    let ghost asq = encode_utf8(a@);
    let ghost bsq = encode_utf8(b@);
    proof {
        assert(ab@ == asq);
        assert(bb@ == bsq);
        assert(asq.skip(0) =~= asq);
        assert(bsq.skip(0) =~= bsq);
    }
    let mut i: usize = 0;
    while i < ab.len() && i < bb.len()
        invariant
            asq == encode_utf8(a@),
            bsq == encode_utf8(b@),
            ab@ == asq,
            bb@ == bsq,
            i <= asq.len(),
            i <= bsq.len(),
            forall|j: int| 0 <= j < i ==> asq[j] == bsq[j],
            bytes_lt(asq, bsq) == bytes_lt(asq.skip(i as int), bsq.skip(i as int)),
            bytes_lt(bsq, asq) == bytes_lt(bsq.skip(i as int), asq.skip(i as int)),
        decreases asq.len() - i,
    {
        let x = ab[i];
        let y = bb[i];
        proof {
            assert(asq.skip(i as int)[0] == asq[i as int]);
            assert(bsq.skip(i as int)[0] == bsq[i as int]);
            assert(asq.skip(i as int).drop_first() =~= asq.skip(i + 1));
            assert(bsq.skip(i as int).drop_first() =~= bsq.skip(i + 1));
        }
        if x < y {
            proof {
                assert(bytes_lt(asq.skip(i as int), bsq.skip(i as int)));
            }
            return true;
        }
        if x > y {
            proof {
                assert(bytes_lt(bsq.skip(i as int), asq.skip(i as int)));
                assert(!bytes_lt(asq, bsq));
                assert(asq[i as int] != bsq[i as int]);
                assert(asq != bsq);
            }
            return false;
        }
        i = i + 1;
    }
    if i < bb.len() {
        // `a` ran out first: a strict prefix sorts before.
        proof {
            assert(asq.skip(i as int) =~= Seq::<u8>::empty());
            assert(bytes_lt(asq.skip(i as int), bsq.skip(i as int)));
        }
        true
    } else if i < ab.len() {
        proof {
            assert(bsq.skip(i as int) =~= Seq::<u8>::empty());
            assert(!bytes_lt(asq.skip(i as int), bsq.skip(i as int)));
            assert(asq.len() != bsq.len());
            assert(asq != bsq);
        }
        false
    } else {
        proof {
            assert(asq =~= bsq);
        }
        true
    }
}

/// The order to write chromosomes in: a permutation of the catalog indices
/// sorted by chromosome name, byte-lexicographically.
pub fn sorted_chrom_order(names: &Vec<String>) -> (order: Vec<usize>)
    ensures
        order@.len() == names@.len(),
        forall|i: int| 0 <= i < order@.len() ==> (#[trigger] order@[i]) < names@.len(),
        forall|i: int, j: int| 0 <= i < j < order@.len() ==> order@[i] != order@[j],
        forall|i: int, j: int|
            0 <= i < j < order@.len() ==> bytes_le(
                encode_utf8(names@[order@[i] as int]@),
                encode_utf8(names@[order@[j] as int]@),
            ),
{
    let ghost ns = names@;
    let mut order: Vec<usize> = Vec::new();
    let mut k: usize = 0;
    while k < names.len()
        invariant
            names@ == ns,
            k <= ns.len(),
            order@.len() == k,
            forall|i: int| 0 <= i < order@.len() ==> (#[trigger] order@[i]) < k,
            forall|i: int, j: int| 0 <= i < j < order@.len() ==> order@[i] != order@[j],
            forall|i: int, j: int|
                0 <= i < j < order@.len() ==> bytes_le(
                    encode_utf8(ns[order@[i] as int]@),
                    encode_utf8(ns[order@[j] as int]@),
                ),
        decreases ns.len() - k,
    {
        let ghost before = order@;
        let mut pos: usize = 0;
        while pos < order.len() && name_le(&names[order[pos]], &names[k])
            invariant
                names@ == ns,
                k < ns.len(),
                order@ == before,
                pos <= before.len(),
                forall|i: int| 0 <= i < before.len() ==> (#[trigger] before[i]) < k,
                forall|i: int|
                    0 <= i < pos ==> bytes_le(
                        encode_utf8(ns[#[trigger] before[i] as int]@),
                        encode_utf8(ns[k as int]@),
                    ),
            decreases before.len() - pos,
        {
            pos = pos + 1;
        }
        proof {
            if pos < before.len() {
                lemma_bytes_le_total(
                    encode_utf8(ns[before[pos as int] as int]@),
                    encode_utf8(ns[k as int]@),
                );
            }
        }
        order.insert(pos, k);
        proof {
            assert forall|i: int, j: int| 0 <= i < j < order@.len() implies bytes_le(
                encode_utf8(ns[#[trigger] order@[i] as int]@),
                encode_utf8(ns[#[trigger] order@[j] as int]@),
            ) by {
                let key = encode_utf8(ns[k as int]@);
                if i < pos && j < pos {
                    assert(order@[i] == before[i] && order@[j] == before[j]);
                } else if i < pos && j == pos {
                    assert(order@[i] == before[i]);
                } else if i < pos && j > pos {
                    assert(order@[i] == before[i] && order@[j] == before[j - 1]);
                } else if i == pos {
                    assert(order@[j] == before[j - 1]);
                    let pn = encode_utf8(ns[before[pos as int] as int]@);
                    if j - 1 > pos {
                        lemma_bytes_le_trans(
                            key,
                            pn,
                            encode_utf8(ns[before[j - 1] as int]@),
                        );
                    }
                } else {
                    assert(order@[i] == before[i - 1] && order@[j] == before[j - 1]);
                }
            }
            assert forall|i: int, j: int| 0 <= i < j < order@.len() implies order@[i]
                != order@[j] by {
                if i < pos && j > pos {
                    assert(order@[i] == before[i] && order@[j] == before[j - 1]);
                } else if i == pos && j > pos {
                    assert(order@[j] == before[j - 1]);
                } else if i < pos && j == pos {
                    assert(order@[i] == before[i]);
                } else if j < pos {
                    assert(order@[i] == before[i] && order@[j] == before[j]);
                } else if i > pos {
                    assert(order@[i] == before[i - 1] && order@[j] == before[j - 1]);
                }
            }
        }
        k = k + 1;
    }
    order
}

} // verus!
