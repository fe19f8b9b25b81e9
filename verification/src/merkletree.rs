//! The tree engine: builds the layered hash structure bottom-up from the
//! processed leaves and answers root and proof queries read-only.
//!
//! The mathematical model comes first: [`processed_leaves`] says what becomes
//! of the raw leaves, [`tree_layers`] what the layers hold, [`proof_entries`]
//! what a proof query walks, and [`fold_proof`] how a verifier recombines a
//! proof. The [`MerkleTree`] type carries exactly that model as its
//! well-formedness invariant [`MerkleTree::wf`].

use vstd::prelude::*;
use crate::buffer::{Buffer, bytes_eq, hex_str, lex_le, payloads};
use crate::buffer::{lemma_lex_le_total, lemma_lex_le_antisymmetric, lemma_lex_le_transitive};
use vstd::multiset::Multiset;
use crate::error::MerkleTreeError;
use crate::hasher::HashFunction;
use crate::options::Options;
use crate::proofs::{Proof, ProofPosition, entry_views};

verus! {

/// The parent bytes of a sibling pair: the pair, reordered by buffer order
/// when `sort_pairs` is set, concatenated and hashed.
pub open spec fn combine<H: HashFunction>(
    h: H,
    a: Seq<u8>,
    b: Seq<u8>,
    sort_pairs: bool,
) -> Seq<u8> {
    if sort_pairs && !lex_le(a, b) {
        h.hash_spec(b + a)
    } else {
        h.hash_spec(a + b)
    }
}

/// Pair-order independence: with `sort_pairs` set, the parent hash does not
/// depend on which side each sibling originally occupied.
pub proof fn lemma_combine_order_independent<H: HashFunction>(h: H, a: Seq<u8>, b: Seq<u8>)
    ensures
        combine(h, a, b, true) == combine(h, b, a, true),
{
    lemma_lex_le_total(a, b);
    if lex_le(a, b) && lex_le(b, a) {
        lemma_lex_le_antisymmetric(a, b);
    }
}

/// The layer above `layer`: consecutive pairs combined, an unpaired trailing
/// node promoted unchanged.
pub open spec fn next_layer<H: HashFunction>(
    h: H,
    layer: Seq<Seq<u8>>,
    sort_pairs: bool,
) -> Seq<Seq<u8>>
    decreases layer.len(),
{
    if layer.len() <= 1 {
        layer
    } else {
        seq![combine(h, layer[0], layer[1], sort_pairs)] + next_layer(
            h,
            layer.skip(2),
            sort_pairs,
        )
    }
}

/// A layer's parent layer has half its length, rounded up.
pub proof fn lemma_next_layer_len<H: HashFunction>(h: H, layer: Seq<Seq<u8>>, sort_pairs: bool)
    ensures
        next_layer(h, layer, sort_pairs).len() == (layer.len() + 1) / 2,
    decreases layer.len(),
{
    if layer.len() > 1 {
        lemma_next_layer_len(h, layer.skip(2), sort_pairs);
    }
}

/// What stands at each index of a parent layer: the combination of the two
/// children below it, or the promoted child when it has no sibling.
pub proof fn lemma_next_layer_index<H: HashFunction>(
    h: H,
    layer: Seq<Seq<u8>>,
    sort_pairs: bool,
    j: int,
)
    requires
        0 <= j,
        2 * j < layer.len(),
    ensures
        2 * j + 1 < layer.len() ==> next_layer(h, layer, sort_pairs)[j] == combine(
            h,
            layer[2 * j],
            layer[2 * j + 1],
            sort_pairs,
        ),
        2 * j + 1 == layer.len() ==> next_layer(h, layer, sort_pairs)[j] == layer[2 * j],
    decreases layer.len(),
{
    lemma_next_layer_len(h, layer, sort_pairs);
    if layer.len() <= 1 {
        // the lone node is promoted unchanged
    } else if j > 0 {
        lemma_next_layer_index(h, layer.skip(2), sort_pairs, j - 1);
        lemma_next_layer_len(h, layer.skip(2), sort_pairs);
        assert(layer.skip(2)[2 * (j - 1)] == layer[2 * j]);
        if 2 * j + 1 < layer.len() {
            assert(layer.skip(2)[2 * (j - 1) + 1] == layer[2 * j + 1]);
        }
    }
}

/// Splitting a layer after an even number of nodes splits its parent layer
/// accordingly.
pub proof fn lemma_next_layer_append<H: HashFunction>(
    h: H,
    s: Seq<Seq<u8>>,
    t: Seq<Seq<u8>>,
    sort_pairs: bool,
)
    requires
        s.len() % 2 == 0,
    ensures
        next_layer(h, s + t, sort_pairs) == next_layer(h, s, sort_pairs) + next_layer(
            h,
            t,
            sort_pairs,
        ),
    decreases s.len(),
{
    if s.len() == 0 {
        assert(s + t =~= t);
        assert(next_layer(h, s, sort_pairs) + next_layer(h, t, sort_pairs) =~= next_layer(
            h,
            t,
            sort_pairs,
        ));
    } else {
        assert((s + t).skip(2) =~= s.skip(2) + t);
        lemma_next_layer_append(h, s.skip(2), t, sort_pairs);
        if t.len() == 0 {
            assert(s + t =~= s);
            assert(next_layer(h, s, sort_pairs) + next_layer(h, t, sort_pairs) =~= next_layer(
                h,
                s,
                sort_pairs,
            ));
        } else {
            assert((s + t)[0] == s[0] && (s + t)[1] == s[1]);
            assert(next_layer(h, s + t, sort_pairs) =~= next_layer(h, s, sort_pairs) + next_layer(
                h,
                t,
                sort_pairs,
            ));
        }
    }
}

/// All layers above and including `layer`, up to the single root node.
pub open spec fn layers_from<H: HashFunction>(
    h: H,
    layer: Seq<Seq<u8>>,
    sort_pairs: bool,
) -> Seq<Seq<Seq<u8>>>
    decreases layer.len(),
    via layers_from_decreases::<H>
{
    if layer.len() <= 1 {
        seq![layer]
    } else {
        seq![layer] + layers_from(h, next_layer(h, layer, sort_pairs), sort_pairs)
    }
}

#[via_fn]
proof fn layers_from_decreases<H: HashFunction>(h: H, layer: Seq<Seq<u8>>, sort_pairs: bool) {
    if layer.len() > 1 {
        lemma_next_layer_len(h, layer, sort_pairs);
    }
}

/// The layers of the whole tree: empty when there are no leaves, otherwise
/// every layer from the leaves up to the root.
pub open spec fn tree_layers<H: HashFunction>(
    h: H,
    leaves: Seq<Seq<u8>>,
    sort_pairs: bool,
) -> Seq<Seq<Seq<u8>>> {
    if leaves.len() == 0 {
        Seq::empty()
    } else {
        layers_from(h, leaves, sort_pairs)
    }
}

/// The layer stack always starts at the given layer and ends in a single
/// root node.
pub proof fn lemma_layers_from_shape<H: HashFunction>(h: H, layer: Seq<Seq<u8>>, sort_pairs: bool)
    requires
        layer.len() >= 1,
    ensures
        layers_from(h, layer, sort_pairs).len() >= 1,
        layers_from(h, layer, sort_pairs)[0] == layer,
        layers_from(h, layer, sort_pairs).last().len() == 1,
    decreases layer.len(),
{
    if layer.len() > 1 {
        lemma_next_layer_len(h, layer, sort_pairs);
        lemma_layers_from_shape(h, next_layer(h, layer, sort_pairs), sort_pairs);
        assert(layers_from(h, layer, sort_pairs).last() == layers_from(
            h,
            next_layer(h, layer, sort_pairs),
            sort_pairs,
        ).last());
    }
}

/// Every raw leaf hashed.
pub open spec fn hash_all<H: HashFunction>(h: H, raw: Seq<Seq<u8>>) -> Seq<Seq<u8>> {
    raw.map_values(|d: Seq<u8>| h.hash_spec(d))
}

/// `x` placed in front of the first element of `s` that does not precede it.
pub open spec fn insert_ordered(x: Seq<u8>, s: Seq<Seq<u8>>) -> Seq<Seq<u8>>
    decreases s.len(),
{
    if s.len() == 0 {
        seq![x]
    } else if lex_le(x, s[0]) {
        seq![x] + s
    } else {
        seq![s[0]] + insert_ordered(x, s.drop_first())
    }
}

/// `s` rearranged into ascending buffer order, by insertion from the front.
pub open spec fn sort_by_bytes(s: Seq<Seq<u8>>) -> Seq<Seq<u8>>
    decreases s.len(),
{
    if s.len() == 0 {
        Seq::empty()
    } else {
        insert_ordered(s.last(), sort_by_bytes(s.drop_last()))
    }
}

/// Ascending buffer order throughout a sequence of byte sequences.
pub open spec fn sorted_bytes(s: Seq<Seq<u8>>) -> bool {
    forall|i: int, j: int| 0 <= i <= j < s.len() ==> lex_le(#[trigger] s[i], #[trigger] s[j])
}

/// Inserting into an ordered sequence keeps it ordered, grows it by one and
/// adds exactly the inserted element.
pub proof fn lemma_insert_ordered_ensures(x: Seq<u8>, s: Seq<Seq<u8>>)
    requires
        sorted_bytes(s),
    ensures
        insert_ordered(x, s).len() == s.len() + 1,
        sorted_bytes(insert_ordered(x, s)),
        insert_ordered(x, s).to_multiset() == s.to_multiset().insert(x),
        forall|k: int|
            0 <= k < insert_ordered(x, s).len() ==> (#[trigger] insert_ordered(x, s)[k]) == x
                || s.contains(insert_ordered(x, s)[k]),
    decreases s.len(),
{
    broadcast use vstd::seq_lib::group_to_multiset_ensures;
    broadcast use vstd::multiset::group_multiset_axioms;

    let r = insert_ordered(x, s);
    if s.len() == 0 {
        assert(s =~= Seq::<Seq<u8>>::empty());
        assert(r =~= s.push(x));
        lemma_lex_le_total(x, x);
    } else if lex_le(x, s[0]) {
        assert(r == seq![x] + s);
        assert forall|i: int, j: int| 0 <= i <= j < r.len() implies lex_le(r[i], r[j]) by {
            if i == 0 && j > 0 {
                lemma_lex_le_transitive(x, s[0], s[j - 1]);
            } else if i == 0 {
                lemma_lex_le_total(x, x);
            }
        }
        vstd::seq_lib::lemma_multiset_commutative(seq![x], s);
        assert(seq![x] =~= Seq::<Seq<u8>>::empty().push(x));
        assert(Seq::<Seq<u8>>::empty().to_multiset() =~= Multiset::<Seq<u8>>::empty());
        assert(seq![x].to_multiset() =~= Multiset::<Seq<u8>>::empty().insert(x));
        assert(r.to_multiset() =~= s.to_multiset().insert(x));
        assert(forall|k: int| 0 < k < r.len() ==> r[k] == s[k - 1] && s.contains(s[k - 1]));
    } else {
        lemma_lex_le_total(x, s[0]);
        let d = s.drop_first();
        assert(forall|i: int, j: int|
            0 <= i <= j < d.len() ==> lex_le(#[trigger] d[i], #[trigger] d[j]));
        lemma_insert_ordered_ensures(x, d);
        let t = insert_ordered(x, d);
        assert(r == seq![s[0]] + t);
        assert forall|i: int, j: int| 0 <= i <= j < r.len() implies lex_le(r[i], r[j]) by {
            if i == 0 && j == 0 {
                lemma_lex_le_total(s[0], s[0]);
            } else if i == 0 {
                let e = t[j - 1];
                if e == x {
                    assert(lex_le(s[0], x));
                } else {
                    assert(d.contains(e));
                    let w = choose|w: int| 0 <= w < d.len() && d[w] == e;
                    assert(s[w + 1] == e);
                }
            }
        }
        vstd::seq_lib::lemma_multiset_commutative(seq![s[0]], t);
        vstd::seq_lib::lemma_multiset_commutative(seq![s[0]], d);
        assert(seq![s[0]] + d =~= s);
        assert(r.to_multiset() =~= s.to_multiset().insert(x));
        assert forall|k: int| 0 <= k < r.len() implies r[k] == x || s.contains(r[k]) by {
            if k > 0 {
                let e = t[k - 1];
                if e != x {
                    assert(d.contains(e));
                    let w = choose|w: int| 0 <= w < d.len() && d[w] == e;
                    assert(s[w + 1] == e);
                }
            }
        }
    }
}

/// The insertion sort of [`sort_by_bytes`] returns an ordered rearrangement:
/// same length, same multiset of byte sequences, ascending buffer order.
pub proof fn lemma_sort_by_bytes_ensures(s: Seq<Seq<u8>>)
    ensures
        sort_by_bytes(s).len() == s.len(),
        sorted_bytes(sort_by_bytes(s)),
        sort_by_bytes(s).to_multiset() == s.to_multiset(),
    decreases s.len(),
{
    broadcast use vstd::seq_lib::group_to_multiset_ensures;
    broadcast use vstd::multiset::group_multiset_axioms;

    if s.len() == 0 {
        assert(sort_by_bytes(s) =~= s);
    } else {
        lemma_sort_by_bytes_ensures(s.drop_last());
        lemma_insert_ordered_ensures(s.last(), sort_by_bytes(s.drop_last()));
        assert(s =~= s.drop_last().push(s.last()));
        assert(s.to_multiset() =~= s.drop_last().to_multiset().insert(s.last()));
    }
}

/// The processed leaf set: the raw leaves, hashed when `hash_leaves` is set,
/// then sorted when `sort_leaves` is set.
pub open spec fn processed_leaves<H: HashFunction>(
    h: H,
    raw: Seq<Seq<u8>>,
    hash_leaves: bool,
    sort_leaves: bool,
) -> Seq<Seq<u8>> {
    let mapped = if hash_leaves {
        hash_all(h, raw)
    } else {
        raw
    };
    if sort_leaves {
        sort_by_bytes(mapped)
    } else {
        mapped
    }
}

/// The index of the last occurrence of `t` in `s`, or -1 when `t` does not
/// occur. The proof query keeps the last match of its linear scan.
pub open spec fn last_index_of(s: Seq<Seq<u8>>, t: Seq<u8>) -> int
    decreases s.len(),
{
    if s.len() == 0 {
        -1
    } else if s.last() == t {
        s.len() - 1
    } else {
        last_index_of(s.drop_last(), t)
    }
}

/// A found index is in range and holds the target; -1 means the target is
/// absent.
pub proof fn lemma_last_index_of(s: Seq<Seq<u8>>, t: Seq<u8>)
    ensures
        last_index_of(s, t) == -1 ==> forall|i: int| 0 <= i < s.len() ==> s[i] != t,
        last_index_of(s, t) != -1 ==> 0 <= last_index_of(s, t) < s.len() && s[last_index_of(s, t)]
            == t,
    decreases s.len(),
{
    if s.len() > 0 && s.last() != t {
        lemma_last_index_of(s.drop_last(), t);
        assert(forall|i: int| 0 <= i < s.len() - 1 ==> s[i] == s.drop_last()[i]);
    }
}

/// The proof entries gathered from `layers[li]` upward for a node standing
/// at `index`: at each layer the sibling and its side, skipped when the
/// sibling index falls outside the layer, with the index halved for the
/// layer above.
pub open spec fn proof_entries(
    layers: Seq<Seq<Seq<u8>>>,
    li: int,
    index: int,
) -> Seq<(ProofPosition, Seq<u8>)>
    decreases layers.len() - li,
{
    if li < 0 || li >= layers.len() {
        Seq::empty()
    } else {
        let layer = layers[li];
        let pair = if index % 2 == 1 {
            index - 1
        } else {
            index + 1
        };
        let head = if 0 <= pair < layer.len() {
            seq![
                (
                    if index % 2 == 1 {
                        ProofPosition::Left
                    } else {
                        ProofPosition::Right
                    },
                    layer[pair],
                ),
            ]
        } else {
            Seq::empty()
        };
        head + proof_entries(layers, li + 1, index / 2)
    }
}

/// How a verifier recombines a proof: starting from the (processed) leaf
/// value, each entry's sibling is hashed in on its side, honouring pair
/// canonicalization when `sort_pairs` is set.
pub open spec fn fold_proof<H: HashFunction>(
    h: H,
    start: Seq<u8>,
    entries: Seq<(ProofPosition, Seq<u8>)>,
    sort_pairs: bool,
) -> Seq<u8>
    decreases entries.len(),
{
    if entries.len() == 0 {
        start
    } else {
        let parent = if entries[0].0 is Left {
            combine(h, entries[0].1, start, sort_pairs)
        } else {
            combine(h, start, entries[0].1, sort_pairs)
        };
        fold_proof(h, parent, entries.drop_first(), sort_pairs)
    }
}

/// Inserting at the first position whose element does not precede `x` is
/// what [`insert_ordered`] does.
proof fn lemma_insert_ordered_at(x: Seq<u8>, s: Seq<Seq<u8>>, p: int)
    requires
        0 <= p <= s.len(),
        forall|j: int| 0 <= j < p ==> !lex_le(x, #[trigger] s[j]),
        p < s.len() ==> lex_le(x, s[p]),
    ensures
        insert_ordered(x, s) == s.insert(p, x),
    decreases s.len(),
{
    s.insert_ensures(p, x);
    if s.len() == 0 {
        assert(insert_ordered(x, s) =~= s.insert(0, x));
    } else if p == 0 {
        assert(insert_ordered(x, s) =~= s.insert(0, x));
    } else {
        let d = s.drop_first();
        assert(!lex_le(x, s[0]));
        assert(forall|j: int| 0 <= j < p - 1 ==> !lex_le(x, #[trigger] d[j]));
        lemma_insert_ordered_at(x, d, p - 1);
        d.insert_ensures(p - 1, x);
        assert(insert_ordered(x, s) =~= s.insert(p, x));
    }
}

/// A copy of a buffer vector, payload for payload.
fn clone_buffers(v: &Vec<Buffer>) -> (r: Vec<Buffer>)
    ensures
        payloads(r@) == payloads(v@),
{
    let mut out: Vec<Buffer> = Vec::new();
    let n = v.len();
    let mut i: usize = 0;
    while i < n
        invariant
            n == v@.len(),
            i <= n,
            out@.len() == i,
            forall|j: int| 0 <= j < i ==> out@[j]@ == v@[j]@,
        decreases n - i,
    {
        out.push(v[i].clone());
        i += 1;
    }
    proof {
        assert(payloads(out@) =~= payloads(v@));
    }
    out
}

/// Every buffer of `leaves` hashed with `h`, in order.
fn hash_buffers<H: HashFunction>(h: &H, leaves: &Vec<Buffer>) -> (r: Vec<Buffer>)
    ensures
        payloads(r@) == hash_all(*h, payloads(leaves@)),
{
    let mut out: Vec<Buffer> = Vec::new();
    let n = leaves.len();
    let mut i: usize = 0;
    while i < n
        invariant
            n == leaves@.len(),
            i <= n,
            out@.len() == i,
            forall|j: int| 0 <= j < i ==> out@[j]@ == h.hash_spec(leaves@[j]@),
        decreases n - i,
    {
        let hv = h.hash(leaves[i].payload.as_slice());
        out.push(Buffer::new(hv));
        i += 1;
    }
    proof {
        assert(payloads(out@) =~= hash_all(*h, payloads(leaves@)));
    }
    out
}

/// The first index of `v` whose element does not precede `x` in buffer
/// order, or the length when every element does.
fn insertion_point(x: &Buffer, v: &Vec<Buffer>) -> (p: usize)
    ensures
        p <= v@.len(),
        forall|j: int| 0 <= j < p ==> !lex_le(x@, #[trigger] v@[j]@),
        p < v@.len() ==> lex_le(x@, v@[p as int]@),
{
    let n = v.len();
    let mut p: usize = 0;
    while p < n
        invariant
            n == v@.len(),
            p <= n,
            forall|j: int| 0 <= j < p ==> !lex_le(x@, #[trigger] v@[j]@),
        decreases n - p,
    {
        if x.le(&v[p]) {
            return p;
        }
        p += 1;
    }
    p
}

/// `x` inserted into the ordered vector `v` at its insertion point.
fn insert_buffer(x: Buffer, v: Vec<Buffer>) -> (r: Vec<Buffer>)
    ensures
        payloads(r@) == insert_ordered(x@, payloads(v@)),
{
    let ghost old_v = v@;
    let p = insertion_point(&x, &v);
    let ghost gx = x@;
    let mut r = v;
    r.insert(p, x);
    proof {
        let s = payloads(old_v);
        assert(forall|j: int| 0 <= j < p ==> !lex_le(gx, #[trigger] s[j]));
        lemma_insert_ordered_at(gx, s, p as int);
        s.insert_ensures(p as int, gx);
        old_v.insert_ensures(p as int, x);
        assert(payloads(r@) =~= s.insert(p as int, gx));
    }
    r
}

/// `v` rearranged into ascending buffer order by insertion sort; the result
/// is exactly [`sort_by_bytes`] of the input.
fn sort_buffers(v: Vec<Buffer>) -> (r: Vec<Buffer>)
    ensures
        payloads(r@) == sort_by_bytes(payloads(v@)),
{
    let mut out: Vec<Buffer> = Vec::new();
    let n = v.len();
    let mut i: usize = 0;
    while i < n
        invariant
            n == v@.len(),
            i <= n,
            payloads(out@) == sort_by_bytes(payloads(v@.take(i as int))),
        decreases n - i,
    {
        out = insert_buffer(v[i].clone(), out);
        proof {
            let cur = payloads(v@.take(i + 1));
            assert(cur.drop_last() =~= payloads(v@.take(i as int)));
            assert(cur.last() == v@[i as int]@);
        }
        i += 1;
    }
    proof {
        assert(v@.take(n as int) =~= v@);
    }
    out
}

/// A proof's entries rendered as hex strings, sibling by sibling.
pub open spec fn hex_entry_views(entries: Seq<(ProofPosition, Seq<u8>)>) -> Seq<Seq<char>> {
    entries.map_values(|e: (ProofPosition, Seq<u8>)| hex_str(e.1))
}

/// The character sequences of a vector of strings.
pub open spec fn string_views(s: Seq<String>) -> Seq<Seq<char>> {
    s.map_values(|x: String| x@)
}

/// The contents of a stack of layers, as byte sequences.
pub open spec fn layer_views(s: Seq<Vec<Buffer>>) -> Seq<Seq<Seq<u8>>> {
    s.map_values(|v: Vec<Buffer>| payloads(v@))
}

/// The parent buffer of a sibling pair, as [`combine`] describes it.
fn combine_buffers<H: HashFunction>(h: &H, left: Buffer, right: Buffer, sort_pairs: bool) -> (r:
    Buffer)
    ensures
        r@ == combine(*h, left@, right@, sort_pairs),
{
    let ghost la = left@;
    let ghost rb = right@;
    let swap = sort_pairs && !left.le(&right);
    let mut pair: Vec<Buffer> = Vec::new();
    if swap {
        pair.push(right);
        pair.push(left);
    } else {
        pair.push(left);
        pair.push(right);
    }
    let ghost pair_view = pair@;
    let data = Buffer::concat(pair);
    proof {
        let s = payloads(pair_view);
        assert(s =~= if swap {
            seq![rb, la]
        } else {
            seq![la, rb]
        });
        let a = s[0];
        let b = s[1];
        assert(s.drop_first() =~= seq![b]);
        assert(seq![b].drop_first() =~= Seq::<Seq<u8>>::empty());
        assert(Seq::<Seq<u8>>::empty().flatten() == Seq::<u8>::empty());
        assert(seq![b].flatten() == b + Seq::<u8>::empty());
        assert(b + Seq::<u8>::empty() =~= b);
        assert(s.flatten() == a + b);
        assert(data@ == (if swap {
            rb + la
        } else {
            la + rb
        }));
    }
    let hv = h.hash(data.payload.as_slice());
    Buffer::new(hv)
}

/// One bottom-up step: the parent layer of `nodes`, exactly [`next_layer`].
fn hash_layer<H: HashFunction>(h: &H, nodes: &Vec<Buffer>, sort_pairs: bool) -> (r: Vec<Buffer>)
    ensures
        payloads(r@) == next_layer(*h, payloads(nodes@), sort_pairs),
{
    let mut out: Vec<Buffer> = Vec::new();
    let n = nodes.len();
    let mut i: usize = 0;
    proof {
        assert(payloads(nodes@.take(0)) =~= Seq::<Seq<u8>>::empty());
        assert(payloads(out@) =~= next_layer(*h, payloads(nodes@.take(0)), sort_pairs));
    }
    while i < n
        invariant
            n == nodes@.len(),
            i <= n,
            i % 2 == 0 || i == n,
            payloads(out@) == next_layer(*h, payloads(nodes@.take(i as int)), sort_pairs),
        decreases n - i,
    {
        if i + 1 == n {
            out.push(nodes[i].clone());
            proof {
                let pre = payloads(nodes@.take(i as int));
                let lone = seq![nodes@[i as int]@];
                assert(payloads(nodes@.take(i + 1)) =~= pre + lone);
                lemma_next_layer_append(*h, pre, lone, sort_pairs);
                assert(next_layer(*h, lone, sort_pairs) == lone);
                assert(payloads(out@) =~= next_layer(*h, pre, sort_pairs) + next_layer(
                    *h,
                    lone,
                    sort_pairs,
                ));
            }
            i += 1;
        } else {
            let left = nodes[i].clone();
            let right = nodes[i + 1].clone();
            let parent = combine_buffers(h, left, right, sort_pairs);
            out.push(parent);
            proof {
                let pre = payloads(nodes@.take(i as int));
                let two = seq![nodes@[i as int]@, nodes@[i + 1]@];
                assert(payloads(nodes@.take(i + 2)) =~= pre + two);
                lemma_next_layer_append(*h, pre, two, sort_pairs);
                assert(two.skip(2) =~= Seq::<Seq<u8>>::empty());
                assert(next_layer(*h, Seq::<Seq<u8>>::empty(), sort_pairs)
                    == Seq::<Seq<u8>>::empty());
                assert(next_layer(*h, two, sort_pairs) =~= seq![
                    combine(*h, two[0], two[1], sort_pairs),
                ]);
                assert(payloads(out@) =~= next_layer(*h, pre, sort_pairs) + next_layer(
                    *h,
                    two,
                    sort_pairs,
                ));
            }
            i += 2;
        }
    }
    proof {
        assert(nodes@.take(n as int) =~= nodes@);
    }
    out
}

/// The layered hash structure over an ordered list of byte-string leaves.
///
/// Everything is computed once from the raw leaves, the hashing strategy and
/// the resolved flags; the queries are read-only. The invariant [`Self::wf`]
/// says exactly what the stored leaves and layers are: the processed leaf
/// set of [`processed_leaves`] and the layer stack of [`tree_layers`].
pub struct MerkleTree<H: HashFunction> {
    raw_leaves: Vec<Buffer>,
    leaves: Vec<Buffer>,
    layers: Vec<Vec<Buffer>>,
    sort_leaves: bool,
    sort_pairs: bool,
    sort: bool,
    hash_leaves: bool,
    duplicate_odd: bool,
    hash_fn: H,
}

impl<H: HashFunction> MerkleTree<H> {
    /// The raw leaves the tree was last built from.
    pub closed spec fn spec_raw_leaves(&self) -> Seq<Seq<u8>> {
        payloads(self.raw_leaves@)
    }

    /// The processed leaf set: layer 0 of the tree.
    pub closed spec fn spec_leaves(&self) -> Seq<Seq<u8>> {
        payloads(self.leaves@)
    }

    /// Every layer of the tree, leaves first.
    pub closed spec fn spec_layers(&self) -> Seq<Seq<Seq<u8>>> {
        layer_views(self.layers@)
    }

    /// The resolved leaf-sorting flag.
    pub closed spec fn spec_sort_leaves(&self) -> bool {
        self.sort_leaves
    }

    /// The resolved pair-sorting flag.
    pub closed spec fn spec_sort_pairs(&self) -> bool {
        self.sort_pairs
    }

    /// The master sorting switch as supplied.
    pub closed spec fn spec_sort(&self) -> bool {
        self.sort
    }

    /// Whether raw leaves are hashed before use.
    pub closed spec fn spec_hash_leaves(&self) -> bool {
        self.hash_leaves
    }

    /// The declared odd-tail flag; the engine promotes unpaired nodes
    /// unchanged whatever it holds.
    pub closed spec fn spec_duplicate_odd(&self) -> bool {
        self.duplicate_odd
    }

    /// The hashing strategy the tree was built with.
    pub closed spec fn spec_hasher(&self) -> H {
        self.hash_fn
    }

    /// Well-formedness: the stored leaves and layers are exactly what the
    /// model computes from the raw leaves, the strategy and the flags.
    pub open spec fn wf(&self) -> bool {
        &&& self.spec_leaves() == processed_leaves(
            self.spec_hasher(),
            self.spec_raw_leaves(),
            self.spec_hash_leaves(),
            self.spec_sort_leaves(),
        )
        &&& self.spec_layers() == tree_layers(
            self.spec_hasher(),
            self.spec_leaves(),
            self.spec_sort_pairs(),
        )
    }

    /// The single element of the final layer.
    pub open spec fn spec_root(&self) -> Seq<u8> {
        self.spec_layers().last()[0]
    }

    /// The value a proof query searches layer 0 for: the leaf hashed when
    /// `hash_leaves` is set, the leaf itself otherwise.
    pub open spec fn spec_target(&self, leaf: Seq<u8>) -> Seq<u8> {
        if self.spec_hash_leaves() {
            self.spec_hasher().hash_spec(leaf)
        } else {
            leaf
        }
    }

    /// Builds the layer stack bottom-up from the processed leaves.
    fn create_hashes(hash_fn: &H, leaves: &Vec<Buffer>, sort_pairs: bool) -> (r: Vec<Vec<Buffer>>)
        ensures
            layer_views(r@) == tree_layers(*hash_fn, payloads(leaves@), sort_pairs),
    {
        let mut layers: Vec<Vec<Buffer>> = Vec::new();
        if leaves.len() == 0 {
            proof {
                assert(layer_views(layers@) =~= tree_layers(
                    *hash_fn,
                    payloads(leaves@),
                    sort_pairs,
                ));
            }
            return layers;
        }
        let mut current = clone_buffers(leaves);
        layers.push(clone_buffers(&current));
        proof {
            assert(layer_views(layers@).last() == payloads(current@));
            assert(layer_views(layers@).drop_last() + layers_from(
                *hash_fn,
                payloads(current@),
                sort_pairs,
            ) =~= layers_from(*hash_fn, payloads(leaves@), sort_pairs));
        }
        while current.len() > 1
            invariant
                layers@.len() >= 1,
                payloads(leaves@).len() > 0,
                payloads(current@) == layer_views(layers@).last(),
                layer_views(layers@).drop_last() + layers_from(
                    *hash_fn,
                    payloads(current@),
                    sort_pairs,
                ) == tree_layers(*hash_fn, payloads(leaves@), sort_pairs),
            decreases current@.len(),
        {
            let ghost prev_layers = layers@;
            let next = hash_layer(hash_fn, &current, sort_pairs);
            layers.push(clone_buffers(&next));
            proof {
                let cur = payloads(current@);
                let nxt = payloads(next@);
                lemma_next_layer_len(*hash_fn, cur, sort_pairs);
                assert(layer_views(layers@) =~= layer_views(prev_layers).push(nxt));
                assert(layer_views(layers@).drop_last() =~= layer_views(prev_layers));
                assert(layer_views(prev_layers) =~= layer_views(prev_layers).drop_last() + seq![
                    cur,
                ]);
                assert(layers_from(*hash_fn, cur, sort_pairs) == seq![cur] + layers_from(
                    *hash_fn,
                    nxt,
                    sort_pairs,
                ));
                assert(layer_views(layers@).drop_last() + layers_from(*hash_fn, nxt, sort_pairs)
                    =~= layer_views(prev_layers).drop_last() + layers_from(
                    *hash_fn,
                    cur,
                    sort_pairs,
                ));
            }
            current = next;
        }
        proof {
            let cur = payloads(current@);
            assert(layers_from(*hash_fn, cur, sort_pairs) == seq![cur]);
            assert(layer_views(layers@).drop_last() + seq![cur] =~= layer_views(layers@));
        }
        layers
    }

    /// Replaces the raw leaf set and recomputes the processed leaves and
    /// every layer from it; the flags and the strategy stay as they are.
    pub fn process_leaves(&mut self, leaves: Vec<Buffer>)
        ensures
            final(self).wf(),
            final(self).spec_raw_leaves() == payloads(leaves@),
            final(self).spec_hasher() == old(self).spec_hasher(),
            final(self).spec_sort_leaves() == old(self).spec_sort_leaves(),
            final(self).spec_sort_pairs() == old(self).spec_sort_pairs(),
            final(self).spec_sort() == old(self).spec_sort(),
            final(self).spec_hash_leaves() == old(self).spec_hash_leaves(),
            final(self).spec_duplicate_odd() == old(self).spec_duplicate_odd(),
    {
        let mapped = if self.hash_leaves {
            hash_buffers(&self.hash_fn, &leaves)
        } else {
            clone_buffers(&leaves)
        };
        let processed = if self.sort_leaves {
            sort_buffers(mapped)
        } else {
            mapped
        };
        self.layers = Self::create_hashes(&self.hash_fn, &processed, self.sort_pairs);
        self.leaves = processed;
        self.raw_leaves = leaves;
    }

    /// Builds a tree from raw leaves, a hashing strategy and options. The
    /// master `sort` switch forces both `sort_leaves` and `sort_pairs`.
    pub fn new(leaves: Vec<Buffer>, hash_fn: H, options: Options) -> (r: MerkleTree<H>)
        ensures
            r.wf(),
            r.spec_raw_leaves() == payloads(leaves@),
            r.spec_hasher() == hash_fn,
            r.spec_hash_leaves() == options.hash_leaves,
            r.spec_sort_leaves() == (options.sort_leaves || options.sort),
            r.spec_sort_pairs() == (options.sort_pairs || options.sort),
            r.spec_sort() == options.sort,
            r.spec_duplicate_odd() == options.duplicate_odd,
    {
        let mut this = MerkleTree {
            raw_leaves: Vec::new(),
            leaves: Vec::new(),
            layers: Vec::new(),
            sort_leaves: options.sort_leaves || options.sort,
            sort_pairs: options.sort_pairs || options.sort,
            sort: options.sort,
            hash_leaves: options.hash_leaves,
            duplicate_odd: options.duplicate_odd,
            hash_fn,
        };
        this.process_leaves(leaves);
        this
    }

    /// The root: the single element of the final layer, or `NoRoot` when the
    /// tree was built from no leaves.
    pub fn get_root(&self) -> (r: Result<Buffer, MerkleTreeError>)
        requires
            self.wf(),
        ensures
            self.spec_leaves().len() == 0 ==> r is Err && r->Err_0 == MerkleTreeError::NoRoot,
            self.spec_leaves().len() > 0 ==> r is Ok && r->Ok_0@ == self.spec_root(),
    {
        proof {
            if self.spec_leaves().len() > 0 {
                lemma_layers_from_shape(
                    self.spec_hasher(),
                    self.spec_leaves(),
                    self.spec_sort_pairs(),
                );
            }
        }
        if self.layers.is_empty() {
            return Err(MerkleTreeError::NoRoot);
        }
        let last = &self.layers[self.layers.len() - 1];
        proof {
            assert(payloads(last@) == self.spec_layers().last());
        }
        Ok(last[0].clone())
    }

    /// The entries a successful proof query returns for `leaf`: empty when
    /// the target is absent from the processed leaf set, otherwise the
    /// sibling walk of [`proof_entries`] from the target's last occurrence.
    pub open spec fn spec_proof(&self, leaf: Seq<u8>) -> Seq<(ProofPosition, Seq<u8>)> {
        let idx = last_index_of(self.spec_leaves(), self.spec_target(leaf));
        if idx == -1 {
            Seq::empty()
        } else {
            proof_entries(self.spec_layers(), 0, idx)
        }
    }

    /// The inclusion proof for `leaf`: `NoLeaf` when the tree has no leaves,
    /// the empty sequence when the (possibly hashed) leaf is not in layer 0,
    /// and otherwise one sibling entry per layer on the way to the root,
    /// skipping layers where the walked node has no sibling.
    pub fn get_proof(&self, leaf: Buffer) -> (r: Result<Vec<Proof>, MerkleTreeError>)
        requires
            self.wf(),
        ensures
            self.spec_leaves().len() == 0 ==> r is Err && r->Err_0 == MerkleTreeError::NoLeaf,
            self.spec_leaves().len() > 0 ==> r is Ok && entry_views(r->Ok_0@) == self.spec_proof(
                leaf@,
            ),
    {
        let ghost leaf_view = leaf@;
        if self.leaves.len() == 0 {
            return Err(MerkleTreeError::NoLeaf);
        }
        let target: Buffer = if self.hash_leaves {
            Buffer::new(self.hash_fn.hash(leaf.payload.as_slice()))
        } else {
            leaf
        };
        proof {
            assert(target@ == self.spec_target(leaf_view));
        }
        let n = self.leaves.len();
        let mut found = false;
        let mut idx: usize = 0;
        let mut i: usize = 0;
        proof {
            assert(payloads(self.leaves@).take(0) =~= Seq::<Seq<u8>>::empty());
        }
        while i < n
            invariant
                n == self.leaves@.len(),
                i <= n,
                !found ==> last_index_of(payloads(self.leaves@).take(i as int), target@) == -1,
                found ==> idx < i && last_index_of(payloads(self.leaves@).take(i as int), target@)
                    == idx as int,
            decreases n - i,
        {
            if bytes_eq(&self.leaves[i].payload, &target.payload) {
                found = true;
                idx = i;
            }
            proof {
                let s = payloads(self.leaves@);
                assert(s.take(i + 1).drop_last() =~= s.take(i as int));
                assert(s.take(i + 1).last() == s[i as int]);
            }
            i += 1;
        }
        proof {
            assert(payloads(self.leaves@).take(n as int) =~= payloads(self.leaves@));
        }
        if !found {
            let r: Vec<Proof> = Vec::new();
            proof {
                assert(entry_views(r@) =~= self.spec_proof(leaf_view));
            }
            return Ok(r);
        }
        let ghost l_views = self.spec_layers();
        let ghost idx0 = idx as int;
        let mut entries: Vec<Proof> = Vec::new();
        let mut index: usize = idx;
        let mut li: usize = 0;
        proof {
            assert(entry_views(entries@) + proof_entries(l_views, 0, idx0) =~= proof_entries(
                l_views,
                0,
                idx0,
            ));
        }
        while li < self.layers.len()
            invariant
                l_views == layer_views(self.layers@),
                li <= self.layers@.len(),
                index <= idx,
                idx < usize::MAX,
                proof_entries(l_views, 0, idx0) == entry_views(entries@) + proof_entries(
                    l_views,
                    li as int,
                    index as int,
                ),
            decreases self.layers@.len() - li,
        {
            let layer = &self.layers[li];
            let is_right = index % 2 == 1;
            let pair: usize = if is_right {
                index - 1
            } else {
                index + 1
            };
            let ghost pre_entries = entries@;
            if pair < layer.len() {
                let side = if is_right {
                    ProofPosition::Left
                } else {
                    ProofPosition::Right
                };
                entries.push(Proof { position: side, data: layer[pair].clone() });
            }
            proof {
                let lay = l_views[li as int];
                assert(lay == payloads(self.layers@[li as int]@));
                let pr: int = if (index as int) % 2 == 1 {
                    index - 1
                } else {
                    index + 1
                };
                let head: Seq<(ProofPosition, Seq<u8>)> = if 0 <= pr < lay.len() {
                    seq![
                        (
                            if (index as int) % 2 == 1 {
                                ProofPosition::Left
                            } else {
                                ProofPosition::Right
                            },
                            lay[pr],
                        ),
                    ]
                } else {
                    Seq::empty()
                };
                assert(proof_entries(l_views, li as int, index as int) == head + proof_entries(
                    l_views,
                    li + 1,
                    index as int / 2,
                ));
                assert(entry_views(entries@) =~= entry_views(pre_entries) + head);
                assert(entry_views(entries@) + proof_entries(l_views, li + 1, index as int / 2)
                    =~= entry_views(pre_entries) + proof_entries(l_views, li as int, index as int));
            }
            index = index / 2;
            li += 1;
        }
        proof {
            assert(proof_entries(l_views, li as int, index as int) =~= Seq::<
                (ProofPosition, Seq<u8>),
            >::empty());
            assert(entry_views(entries@) + Seq::<(ProofPosition, Seq<u8>)>::empty() =~= entry_views(
                entries@,
            ));
            assert(entry_views(entries@) == self.spec_proof(leaf_view));
        }
        Ok(entries)
    }

    /// The same sibling walk as [`Self::get_proof`], with each entry's data
    /// rendered as a `0x`-prefixed lowercase hex string.
    pub fn get_hex_proof(&self, leaf: Buffer) -> (r: Result<Vec<String>, MerkleTreeError>)
        requires
            self.wf(),
        ensures
            self.spec_leaves().len() == 0 ==> r is Err && r->Err_0 == MerkleTreeError::NoLeaf,
            self.spec_leaves().len() > 0 ==> r is Ok && string_views(r->Ok_0@) == hex_entry_views(
                self.spec_proof(leaf@),
            ),
    {
        let ghost leaf_view = leaf@;
        let entries = match self.get_proof(leaf) {
            Ok(entries) => entries,
            Err(e) => {
                return Err(e);
            },
        };
        let n = entries.len();
        let mut out: Vec<String> = Vec::new();
        let mut i: usize = 0;
        while i < n
            invariant
                n == entries@.len(),
                i <= n,
                out@.len() == i,
                forall|j: int| 0 <= j < i ==> out@[j]@ == hex_str(#[trigger] entries@[j].data@),
            decreases n - i,
        {
            out.push(entries[i].data.to_hex());
            i += 1;
        }
        proof {
            assert(string_views(out@) =~= hex_entry_views(entry_views(entries@)));
        }
        Ok(out)
    }

    /// The resolved leaf-sorting flag.
    pub fn sort_leaves(&self) -> (r: bool)
        ensures
            r == self.spec_sort_leaves(),
    {
        self.sort_leaves
    }

    /// The resolved pair-sorting flag.
    pub fn sort_pairs(&self) -> (r: bool)
        ensures
            r == self.spec_sort_pairs(),
    {
        self.sort_pairs
    }

    /// The master sorting switch as supplied.
    pub fn sort(&self) -> (r: bool)
        ensures
            r == self.spec_sort(),
    {
        self.sort
    }

    /// Whether raw leaves are hashed before use.
    pub fn hash_leaves(&self) -> (r: bool)
        ensures
            r == self.spec_hash_leaves(),
    {
        self.hash_leaves
    }

    /// The declared odd-tail flag.
    pub fn duplicate_odd(&self) -> (r: bool)
        ensures
            r == self.spec_duplicate_odd(),
    {
        self.duplicate_odd
    }

    /// The hashing strategy the tree was built with.
    pub fn hash_fn(&self) -> (r: &H)
        ensures
            *r == self.spec_hasher(),
    {
        &self.hash_fn
    }

    /// The processed leaf set: layer 0 of the tree.
    pub fn leaves(&self) -> (r: &Vec<Buffer>)
        ensures
            payloads(r@) == self.spec_leaves(),
    {
        &self.leaves
    }

    /// Every layer of the tree, leaves first.
    pub fn layers(&self) -> (r: &Vec<Vec<Buffer>>)
        ensures
            layer_views(r@) == self.spec_layers(),
    {
        &self.layers
    }

    /// Changes the leaf-sorting flag and rebuilds the derived state from the
    /// stored raw leaves; layers are a pure function of the inputs, so a
    /// setter rebuilds rather than leaving leaves and layers out of step.
    pub fn set_sort_leaves(&mut self, sort_leaves: bool)
        ensures
            final(self).wf(),
            final(self).spec_sort_leaves() == sort_leaves,
            final(self).spec_sort_pairs() == old(self).spec_sort_pairs(),
            final(self).spec_sort() == old(self).spec_sort(),
            final(self).spec_hash_leaves() == old(self).spec_hash_leaves(),
            final(self).spec_duplicate_odd() == old(self).spec_duplicate_odd(),
            final(self).spec_raw_leaves() == old(self).spec_raw_leaves(),
            final(self).spec_hasher() == old(self).spec_hasher(),
    {
        self.sort_leaves = sort_leaves;
        let raw = clone_buffers(&self.raw_leaves);
        self.process_leaves(raw);
    }

    /// Changes the pair-sorting flag and rebuilds the derived state from the
    /// stored raw leaves.
    pub fn set_sort_pairs(&mut self, sort_pairs: bool)
        ensures
            final(self).wf(),
            final(self).spec_sort_pairs() == sort_pairs,
            final(self).spec_sort_leaves() == old(self).spec_sort_leaves(),
            final(self).spec_sort() == old(self).spec_sort(),
            final(self).spec_hash_leaves() == old(self).spec_hash_leaves(),
            final(self).spec_duplicate_odd() == old(self).spec_duplicate_odd(),
            final(self).spec_raw_leaves() == old(self).spec_raw_leaves(),
            final(self).spec_hasher() == old(self).spec_hasher(),
    {
        self.sort_pairs = sort_pairs;
        let raw = clone_buffers(&self.raw_leaves);
        self.process_leaves(raw);
    }

    /// Changes the master switch; setting it forces both sorting flags, as
    /// at construction. Rebuilds the derived state from the stored raw
    /// leaves.
    pub fn set_sort(&mut self, sort: bool)
        ensures
            final(self).wf(),
            final(self).spec_sort() == sort,
            final(self).spec_sort_leaves() == (sort || old(self).spec_sort_leaves()),
            final(self).spec_sort_pairs() == (sort || old(self).spec_sort_pairs()),
            final(self).spec_hash_leaves() == old(self).spec_hash_leaves(),
            final(self).spec_duplicate_odd() == old(self).spec_duplicate_odd(),
            final(self).spec_raw_leaves() == old(self).spec_raw_leaves(),
            final(self).spec_hasher() == old(self).spec_hasher(),
    {
        self.sort = sort;
        if sort {
            self.sort_leaves = true;
            self.sort_pairs = true;
        }
        let raw = clone_buffers(&self.raw_leaves);
        self.process_leaves(raw);
    }

    /// Changes whether raw leaves are hashed, and rebuilds the derived state
    /// from the stored raw leaves.
    pub fn set_hash_leaves(&mut self, hash_leaves: bool)
        ensures
            final(self).wf(),
            final(self).spec_hash_leaves() == hash_leaves,
            final(self).spec_sort_leaves() == old(self).spec_sort_leaves(),
            final(self).spec_sort_pairs() == old(self).spec_sort_pairs(),
            final(self).spec_sort() == old(self).spec_sort(),
            final(self).spec_duplicate_odd() == old(self).spec_duplicate_odd(),
            final(self).spec_raw_leaves() == old(self).spec_raw_leaves(),
            final(self).spec_hasher() == old(self).spec_hasher(),
    {
        self.hash_leaves = hash_leaves;
        let raw = clone_buffers(&self.raw_leaves);
        self.process_leaves(raw);
    }

    /// Records the odd-tail flag; the engine promotes unpaired nodes
    /// unchanged whatever it holds, so the layers do not change.
    pub fn set_duplicate_odd(&mut self, duplicate_odd: bool)
        ensures
            final(self).wf(),
            final(self).spec_duplicate_odd() == duplicate_odd,
            final(self).spec_sort_leaves() == old(self).spec_sort_leaves(),
            final(self).spec_sort_pairs() == old(self).spec_sort_pairs(),
            final(self).spec_sort() == old(self).spec_sort(),
            final(self).spec_hash_leaves() == old(self).spec_hash_leaves(),
            final(self).spec_raw_leaves() == old(self).spec_raw_leaves(),
            final(self).spec_hasher() == old(self).spec_hasher(),
    {
        self.duplicate_odd = duplicate_odd;
        let raw = clone_buffers(&self.raw_leaves);
        self.process_leaves(raw);
    }

    /// Replaces the hashing strategy and rebuilds the derived state from the
    /// stored raw leaves.
    pub fn set_hash_fn(&mut self, hash_fn: H)
        ensures
            final(self).wf(),
            final(self).spec_hasher() == hash_fn,
            final(self).spec_sort_leaves() == old(self).spec_sort_leaves(),
            final(self).spec_sort_pairs() == old(self).spec_sort_pairs(),
            final(self).spec_sort() == old(self).spec_sort(),
            final(self).spec_hash_leaves() == old(self).spec_hash_leaves(),
            final(self).spec_duplicate_odd() == old(self).spec_duplicate_odd(),
            final(self).spec_raw_leaves() == old(self).spec_raw_leaves(),
    {
        self.hash_fn = hash_fn;
        let raw = clone_buffers(&self.raw_leaves);
        self.process_leaves(raw);
    }

    /// Replaces the raw leaf set and rebuilds the derived state, exactly as
    /// [`Self::process_leaves`].
    pub fn set_leaves(&mut self, leaves: Vec<Buffer>)
        ensures
            final(self).wf(),
            final(self).spec_raw_leaves() == payloads(leaves@),
            final(self).spec_sort_leaves() == old(self).spec_sort_leaves(),
            final(self).spec_sort_pairs() == old(self).spec_sort_pairs(),
            final(self).spec_sort() == old(self).spec_sort(),
            final(self).spec_hash_leaves() == old(self).spec_hash_leaves(),
            final(self).spec_duplicate_odd() == old(self).spec_duplicate_odd(),
            final(self).spec_hasher() == old(self).spec_hasher(),
    {
        self.process_leaves(leaves);
    }
}

/// For every non-empty leaf set the layer stack ends in a final layer of
/// exactly one element, the root; a root query returns it and nothing else.
pub proof fn lemma_root_unique<H: HashFunction>(t: &MerkleTree<H>)
    requires
        t.wf(),
        t.spec_leaves().len() > 0,
    ensures
        t.spec_layers().len() >= 1,
        t.spec_layers().last().len() == 1,
        t.spec_root() == t.spec_layers().last()[0],
{
    lemma_layers_from_shape(t.spec_hasher(), t.spec_leaves(), t.spec_sort_pairs());
}

/// Determinism: two trees built from the same raw leaves, the same strategy
/// and the same resolved flags hold identical leaves and layers, and so the
/// same root.
pub proof fn lemma_construction_deterministic<H: HashFunction>(
    t1: &MerkleTree<H>,
    t2: &MerkleTree<H>,
)
    requires
        t1.wf(),
        t2.wf(),
        t1.spec_raw_leaves() == t2.spec_raw_leaves(),
        t1.spec_hasher() == t2.spec_hasher(),
        t1.spec_hash_leaves() == t2.spec_hash_leaves(),
        t1.spec_sort_leaves() == t2.spec_sort_leaves(),
        t1.spec_sort_pairs() == t2.spec_sort_pairs(),
    ensures
        t1.spec_leaves() == t2.spec_leaves(),
        t1.spec_layers() == t2.spec_layers(),
        t1.spec_root() == t2.spec_root(),
{
}

/// Each layer of the stack is exactly the parent layer of the one below it.
proof fn lemma_layers_from_chain<H: HashFunction>(h: H, layer: Seq<Seq<u8>>, sort_pairs: bool)
    requires
        layer.len() >= 1,
    ensures
        forall|k: int|
            0 <= k < layers_from(h, layer, sort_pairs).len() - 1 ==> layers_from(
                h,
                layer,
                sort_pairs,
            )[k + 1] == next_layer(h, #[trigger] layers_from(h, layer, sort_pairs)[k], sort_pairs),
    decreases layer.len(),
{
    let ls = layers_from(h, layer, sort_pairs);
    if layer.len() > 1 {
        let nxt = next_layer(h, layer, sort_pairs);
        lemma_next_layer_len(h, layer, sort_pairs);
        let ls2 = layers_from(h, nxt, sort_pairs);
        lemma_layers_from_chain(h, nxt, sort_pairs);
        assert(ls == seq![layer] + ls2);
        assert forall|k: int| 0 <= k < ls.len() - 1 implies ls[k + 1] == next_layer(
            h,
            ls[k],
            sort_pairs,
        ) by {
            if k == 0 {
                assert(ls[0] == layer && ls[1] == ls2[0]);
                lemma_layers_from_shape(h, nxt, sort_pairs);
            } else {
                assert(ls[k] == ls2[k - 1] && ls[k + 1] == ls2[k]);
            }
        }
    }
}

/// The shape the data model promises of every non-empty tree: layer 0 is the
/// processed leaf set, each higher layer has half the length of the one
/// below it (rounded up) and is its parent layer, and the final layer is the
/// single root node.
pub proof fn lemma_tree_shape<H: HashFunction>(t: &MerkleTree<H>)
    requires
        t.wf(),
        t.spec_leaves().len() > 0,
    ensures
        t.spec_layers().len() >= 1,
        t.spec_layers()[0] == t.spec_leaves(),
        t.spec_layers().last().len() == 1,
        forall|k: int|
            1 <= k < t.spec_layers().len() ==> (#[trigger] t.spec_layers()[k]) == next_layer(
                t.spec_hasher(),
                t.spec_layers()[k - 1],
                t.spec_sort_pairs(),
            ),
        forall|k: int|
            1 <= k < t.spec_layers().len() ==> (#[trigger] t.spec_layers()[k]).len() == (
            t.spec_layers()[k - 1].len() + 1) / 2,
{
    let h = t.spec_hasher();
    let sp = t.spec_sort_pairs();
    lemma_layers_from_shape(h, t.spec_leaves(), sp);
    lemma_layers_from_chain(h, t.spec_leaves(), sp);
    assert forall|k: int| 1 <= k < t.spec_layers().len() implies (#[trigger] t.spec_layers()[k])
        == next_layer(h, t.spec_layers()[k - 1], sp) by {
        assert(t.spec_layers()[(k - 1) + 1] == next_layer(h, t.spec_layers()[k - 1], sp));
    }
    assert forall|k: int| 1 <= k < t.spec_layers().len() implies (#[trigger] t.spec_layers()[k]).len()
        == (t.spec_layers()[k - 1].len() + 1) / 2 by {
        lemma_next_layer_len(h, t.spec_layers()[k - 1], sp);
    }
}

/// Dropping the bottom layer off a stack shifts every sibling walk down by
/// one.
proof fn lemma_proof_entries_shift(
    first: Seq<Seq<u8>>,
    rest: Seq<Seq<Seq<u8>>>,
    li: int,
    idx: int,
)
    requires
        0 <= li,
    ensures
        proof_entries(seq![first] + rest, li + 1, idx) == proof_entries(rest, li, idx),
    decreases rest.len() - li,
{
    let all = seq![first] + rest;
    if li >= rest.len() {
        assert(proof_entries(all, li + 1, idx) =~= proof_entries(rest, li, idx));
    } else {
        assert(all[li + 1] == rest[li]);
        lemma_proof_entries_shift(first, rest, li + 1, idx / 2);
        assert(proof_entries(all, li + 1, idx) =~= proof_entries(rest, li, idx));
    }
}

/// The sibling walk from a node at `idx` of `layer`, folded back together
/// step by step, reproduces the root of the stack above `layer`.
proof fn lemma_fold_layers_from<H: HashFunction>(h: H, layer: Seq<Seq<u8>>, idx: int, sp: bool)
    requires
        1 <= layer.len(),
        0 <= idx < layer.len(),
    ensures
        fold_proof(
            h,
            layer[idx],
            proof_entries(layers_from(h, layer, sp), 0, idx),
            sp,
        ) == layers_from(h, layer, sp).last()[0],
    decreases layer.len(),
{
    let ls = layers_from(h, layer, sp);
    if layer.len() == 1 {
        assert(idx == 0);
        assert(ls == seq![layer]);
        assert(ls[0] == layer);
        assert(proof_entries(ls, 1, 0) =~= Seq::<(ProofPosition, Seq<u8>)>::empty());
        assert(proof_entries(ls, 0, 0) =~= Seq::<(ProofPosition, Seq<u8>)>::empty());
        assert(fold_proof(h, layer[0], proof_entries(ls, 0, 0), sp) == layer[0]);
        assert(ls.last() == layer);
    } else {
        let nxt = next_layer(h, layer, sp);
        lemma_next_layer_len(h, layer, sp);
        let ls2 = layers_from(h, nxt, sp);
        assert(ls == seq![layer] + ls2);
        assert(ls[0] == layer);
        lemma_layers_from_shape(h, nxt, sp);
        assert(ls.last() == ls2.last());
        let j = idx / 2;
        assert(0 <= j < nxt.len());
        lemma_next_layer_index(h, layer, sp, j);
        lemma_fold_layers_from(h, nxt, j, sp);
        lemma_proof_entries_shift(layer, ls2, 0, j);
        let tail = proof_entries(ls, 1, j);
        assert(tail == proof_entries(ls2, 0, j));
        if idx % 2 == 1 {
            assert(2 * j == idx - 1 && 2 * j + 1 == idx);
            let head = seq![(ProofPosition::Left, layer[idx - 1])];
            assert(proof_entries(ls, 0, idx) == head + tail);
            let parent = combine(h, layer[idx - 1], layer[idx], sp);
            assert(nxt[j] == parent);
            assert((head + tail)[0] == (ProofPosition::Left, layer[idx - 1]));
            assert((head + tail).drop_first() =~= tail);
            assert(fold_proof(h, layer[idx], head + tail, sp) == fold_proof(h, parent, tail, sp));
        } else {
            assert(2 * j == idx);
            if idx + 1 < layer.len() {
                let head = seq![(ProofPosition::Right, layer[idx + 1])];
                assert(proof_entries(ls, 0, idx) == head + tail);
                let parent = combine(h, layer[idx], layer[idx + 1], sp);
                assert(nxt[j] == parent);
                assert((head + tail)[0] == (ProofPosition::Right, layer[idx + 1]));
                assert((head + tail).drop_first() =~= tail);
                assert(fold_proof(h, layer[idx], head + tail, sp) == fold_proof(
                    h,
                    parent,
                    tail,
                    sp,
                ));
            } else {
                assert(idx + 1 == layer.len());
                assert(proof_entries(ls, 0, idx) =~= tail);
                assert(nxt[j] == layer[idx]);
            }
        }
    }
}

/// Proof round trip: for a leaf whose processed value stands in the tree,
/// folding the proof that [`MerkleTree::get_proof`] returns — starting from
/// that processed value, combining each entry on its side, honouring pair
/// canonicalization when `sort_pairs` is set — reproduces the root exactly.
pub proof fn lemma_proof_round_trip<H: HashFunction>(t: &MerkleTree<H>, leaf: Seq<u8>)
    requires
        t.wf(),
        t.spec_leaves().len() > 0,
        last_index_of(t.spec_leaves(), t.spec_target(leaf)) != -1,
    ensures
        fold_proof(t.spec_hasher(), t.spec_target(leaf), t.spec_proof(leaf), t.spec_sort_pairs())
            == t.spec_root(),
{
    let target = t.spec_target(leaf);
    let leaves = t.spec_leaves();
    let idx = last_index_of(leaves, target);
    lemma_last_index_of(leaves, target);
    assert(leaves[idx] == target);
    lemma_fold_layers_from(t.spec_hasher(), leaves, idx, t.spec_sort_pairs());
}

} // verus!
