//! What holds of every sketch: the laws of the weight, of insertion, of
//! combination and of folding, each proved over the model of a sketch.

use vstd::prelude::*;
use vstd::arithmetic::div_mod::{lemma_fundamental_div_mod, lemma_fundamental_div_mod_converse};
use vstd::seq_lib::{commutative_foldl, lemma_fold_left_permutation, lemma_multiset_commutative};
use crate::bits::{
    lemma_mask_flips_one_bit, lemma_mask_moves_popcount, lemma_popcount_range, lemma_xor_group,
    lemma_xor_interchange, lemma_xor_twice, mask, popcount,
};
use crate::model::{
    all_zero, bit_at, bit_index, bit_len, chunk, foldable, folded, inserted, inserted_all,
    toggled, weight, xor_sum, xored, zeros,
};

verus! {

// ---------------------------------------------------------------- weight

/// The weight of a concatenation is the sum of the weights of its parts.
pub proof fn lemma_weight_concat(a: Seq<u8>, b: Seq<u8>)
    ensures
        weight(a + b) == weight(a) + weight(b),
    decreases b.len(),
{
    if b.len() == 0 {
        assert(a + b =~= a);
    } else {
        assert((a + b).drop_last() =~= a + b.drop_last());
        lemma_weight_concat(a, b.drop_last());
    }
}

/// A buffer of `L` bytes has a weight between 0 and `8 * L`.
pub proof fn lemma_weight_bound(s: Seq<u8>)
    ensures
        0 <= weight(s) <= bit_len(s),
    decreases s.len(),
{
    if s.len() > 0 {
        lemma_weight_bound(s.drop_last());
        lemma_popcount_range(s.last());
    }
}

/// The weight is 0 exactly when no bit is set.
pub proof fn lemma_weight_zero(s: Seq<u8>)
    ensures
        weight(s) == 0 <==> all_zero(s),
    decreases s.len(),
{
    if s.len() > 0 {
        let front = s.drop_last();
        lemma_weight_zero(front);
        lemma_popcount_range(s.last());
        if all_zero(s) {
            assert(s[s.len() - 1] == 0u8);
            assert forall|i: int| 0 <= i < front.len() implies front[i] == 0u8 by {
                assert(front[i] == s[i]);
            }
        }
        if weight(s) == 0 {
            assert forall|i: int| 0 <= i < s.len() implies s[i] == 0u8 by {
                if i < front.len() {
                    assert(front[i] == s[i]);
                }
            }
        }
    }
}

/// A buffer without a set bit is empty and has weight 0, whatever its
/// length.
pub proof fn lemma_zeros_is_empty(len: nat)
    ensures
        zeros(len).len() == len,
        all_zero(zeros(len)),
        weight(zeros(len)) == 0,
{
    lemma_weight_zero(zeros(len));
}

/// The weight of a single byte is its set-bit count.
proof fn lemma_weight_of_one(byte: u8)
    ensures
        weight(seq![byte]) == popcount(byte),
{
    assert(seq![byte].drop_last() =~= Seq::<u8>::empty());
    assert(weight(Seq::<u8>::empty()) == 0);
}

/// Replacing one byte moves the weight by the difference of the two bytes'
/// set-bit counts.
proof fn lemma_weight_update(s: Seq<u8>, at: int, byte: u8)
    requires
        0 <= at < s.len(),
    ensures
        weight(s.update(at, byte)) + popcount(s[at]) == weight(s) + popcount(byte),
{
    let head = s.take(at);
    let tail = s.skip(at + 1);
    assert(s =~= (head + seq![s[at]]) + tail);
    assert(s.update(at, byte) =~= (head + seq![byte]) + tail);
    lemma_weight_concat(head + seq![s[at]], tail);
    lemma_weight_concat(head + seq![byte], tail);
    lemma_weight_concat(head, seq![s[at]]);
    lemma_weight_concat(head, seq![byte]);
    lemma_weight_of_one(s[at]);
    lemma_weight_of_one(byte);
}

// ------------------------------------------------------------- insertion

/// The bit that a short id selects lies inside the buffer.
pub proof fn lemma_bit_index_in_range(len: nat, short_id: u64)
    requires
        len > 0,
    ensures
        0 <= bit_index(len, short_id) < 8 * len,
{
}

/// Flipping the same bit twice restores the buffer.
pub proof fn lemma_toggle_involution(s: Seq<u8>, i: int)
    ensures
        toggled(toggled(s, i), i) == s,
{
    if 0 <= i < bit_len(s) {
        lemma_xor_twice(s[i / 8], mask((i % 8) as u8), 0u8);
        assert(toggled(toggled(s, i), i) =~= s);
    }
}

/// Flipping two bits comes to the same in either order.
pub proof fn lemma_toggle_commutes(s: Seq<u8>, i: int, j: int)
    ensures
        toggled(toggled(s, i), j) == toggled(toggled(s, j), i),
{
    if 0 <= i < bit_len(s) && 0 <= j < bit_len(s) {
        if i / 8 == j / 8 {
            lemma_xor_twice(s[i / 8], mask((i % 8) as u8), mask((j % 8) as u8));
        }
        assert(toggled(toggled(s, i), j) =~= toggled(toggled(s, j), i));
    }
}

/// Inserting flips the selected bit and leaves every other bit as it was.
pub proof fn lemma_insert_flips_one_bit(s: Seq<u8>, short_id: u64, j: int)
    requires
        s.len() > 0,
        0 <= j < bit_len(s),
    ensures
        bit_at(inserted(s, short_id), j) == (bit_at(s, j) != (j == bit_index(s.len(), short_id))),
{
    let i = bit_index(s.len(), short_id);
    if i / 8 == j / 8 {
        lemma_mask_flips_one_bit(s[i / 8], (i % 8) as u8, (j % 8) as u8);
    }
}

/// Inserting moves the weight by exactly one: down if the selected bit was
/// set, up if it was clear.
pub proof fn lemma_insert_moves_weight(s: Seq<u8>, short_id: u64)
    requires
        s.len() > 0,
    ensures
        bit_at(s, bit_index(s.len(), short_id)) ==> weight(inserted(s, short_id)) + 1 == weight(s),
        !bit_at(s, bit_index(s.len(), short_id)) ==> weight(inserted(s, short_id)) == weight(s)
            + 1,
{
    let i = bit_index(s.len(), short_id);
    lemma_mask_moves_popcount(s[i / 8], (i % 8) as u8);
    lemma_weight_update(s, i / 8, s[i / 8] ^ mask((i % 8) as u8));
}

/// Involution: inserting the same short id twice restores the buffer bit
/// for bit.
pub proof fn lemma_insert_involution(s: Seq<u8>, short_id: u64)
    ensures
        inserted(inserted(s, short_id), short_id) == s,
{
    lemma_toggle_involution(s, bit_index(s.len(), short_id));
}

/// Two short ids that select the same bit cancel each other.
pub proof fn lemma_collision_cancels(s: Seq<u8>, a: u64, b: u64)
    requires
        bit_index(s.len(), a) == bit_index(s.len(), b),
    ensures
        inserted(inserted(s, a), b) == s,
{
    lemma_toggle_involution(s, bit_index(s.len(), a));
}

/// Inserting two short ids comes to the same in either order.
pub proof fn lemma_insert_commutes(s: Seq<u8>, a: u64, b: u64)
    ensures
        inserted(inserted(s, a), b) == inserted(inserted(s, b), a),
{
    lemma_toggle_commutes(s, bit_index(s.len(), a), bit_index(s.len(), b));
}

// --------------------------------------------------------------- batches

/// Inserting leaves the length of the buffer as it is.
pub proof fn lemma_inserted_all_len(s: Seq<u8>, ids: Seq<u64>)
    ensures
        inserted_all(s, ids).len() == s.len(),
    decreases ids.len(),
{
    if ids.len() > 0 {
        lemma_inserted_all_len(s, ids.drop_last());
    }
}

/// Inserting a batch that ends in `id` is inserting the batch before it,
/// then `id`.
pub proof fn lemma_inserted_all_push(s: Seq<u8>, ids: Seq<u64>, id: u64)
    ensures
        inserted_all(s, ids.push(id)) == inserted(inserted_all(s, ids), id),
{
    assert(ids.push(id).drop_last() =~= ids);
}

/// Inserting one batch and then another is inserting the two joined.
pub proof fn lemma_inserted_all_concat(s: Seq<u8>, x: Seq<u64>, y: Seq<u64>)
    ensures
        inserted_all(s, x + y) == inserted_all(inserted_all(s, x), y),
    decreases y.len(),
{
    if y.len() == 0 {
        assert(x + y =~= x);
    } else {
        assert((x + y).drop_last() =~= x + y.drop_last());
        lemma_inserted_all_concat(s, x, y.drop_last());
    }
}

/// Inserting a short id before a batch comes to the same as inserting it
/// after the batch.
pub proof fn lemma_insert_commutes_with_batch(s: Seq<u8>, short_id: u64, ids: Seq<u64>)
    ensures
        inserted_all(inserted(s, short_id), ids) == inserted(inserted_all(s, ids), short_id),
    decreases ids.len(),
{
    if ids.len() > 0 {
        lemma_insert_commutes_with_batch(s, short_id, ids.drop_last());
        lemma_insert_commutes(inserted_all(s, ids.drop_last()), short_id, ids.last());
    }
}

/// The step of a batch insertion, as a function to fold with.
spec fn insert_step() -> spec_fn(Seq<u8>, u64) -> Seq<u8> {
    |acc: Seq<u8>, id: u64| inserted(acc, id)
}

/// A batch insertion is a left fold of single insertions.
proof fn lemma_inserted_all_is_fold(s: Seq<u8>, ids: Seq<u64>)
    ensures
        inserted_all(s, ids) == ids.fold_left(s, insert_step()),
    decreases ids.len(),
{
    if ids.len() > 0 {
        lemma_inserted_all_is_fold(s, ids.drop_last());
    }
}

/// Order-independence: two batches that hold the same short ids, each as
/// often in the one as in the other, leave the same buffer, whatever the
/// order within each.
pub proof fn lemma_insert_batch_order_independent(s: Seq<u8>, a: Seq<u64>, b: Seq<u64>)
    requires
        a.to_multiset() == b.to_multiset(),
    ensures
        inserted_all(s, a) == inserted_all(s, b),
{
    let step = insert_step();
    assert(commutative_foldl(step)) by {
        assert forall|x: u64, y: u64, v: Seq<u8>| #[trigger]
            step(step(v, x), y) == step(step(v, y), x) by {
            lemma_insert_commutes(v, x, y);
        }
    }
    lemma_fold_left_permutation(a, b, step, s);
    lemma_inserted_all_is_fold(s, a);
    lemma_inserted_all_is_fold(s, b);
}

/// A batch of three is three single insertions.
proof fn lemma_batch_of_three(s: Seq<u8>, a: u64, b: u64, c: u64)
    ensures
        inserted_all(s, seq![a, b, c]) == inserted(inserted(inserted(s, a), b), c),
{
    assert(seq![a, b, c].drop_last() =~= seq![a, b]);
    assert(seq![a, b].drop_last() =~= seq![a]);
    assert(seq![a].drop_last() =~= Seq::<u64>::empty());
    reveal_with_fuel(inserted_all, 4);
}

/// Any reordering of a batch of three short ids leaves the same buffer.
pub proof fn lemma_insert_three_any_order(s: Seq<u8>, a: u64, b: u64, c: u64)
    ensures
        inserted_all(s, seq![a, c, b]) == inserted_all(s, seq![a, b, c]),
        inserted_all(s, seq![b, a, c]) == inserted_all(s, seq![a, b, c]),
        inserted_all(s, seq![b, c, a]) == inserted_all(s, seq![a, b, c]),
        inserted_all(s, seq![c, a, b]) == inserted_all(s, seq![a, b, c]),
        inserted_all(s, seq![c, b, a]) == inserted_all(s, seq![a, b, c]),
{
    lemma_batch_of_three(s, a, b, c);
    lemma_batch_of_three(s, a, c, b);
    lemma_batch_of_three(s, b, a, c);
    lemma_batch_of_three(s, b, c, a);
    lemma_batch_of_three(s, c, a, b);
    lemma_batch_of_three(s, c, b, a);
    lemma_insert_commutes(s, a, b);
    lemma_insert_commutes(s, a, c);
    lemma_insert_commutes(s, b, c);
    lemma_insert_commutes(inserted(s, a), b, c);
    lemma_insert_commutes(inserted(s, b), a, c);
    lemma_insert_commutes(inserted(s, c), a, b);
}

/// A batch inserted twice leaves no trace.
pub proof fn lemma_doubled_batch_cancels(s: Seq<u8>, ids: Seq<u64>)
    ensures
        inserted_all(s, ids + ids) == s,
    decreases ids.len(),
{
    if ids.len() == 0 {
        assert(ids + ids =~= ids);
    } else {
        let front = ids.drop_last();
        let id = ids.last();
        let once = inserted_all(s, front);
        assert(ids =~= front.push(id));
        lemma_inserted_all_concat(s, ids, ids);
        lemma_insert_commutes_with_batch(once, id, front);
        lemma_insert_involution(inserted_all(once, front), id);
        lemma_inserted_all_concat(s, front, front);
        lemma_doubled_batch_cancels(s, front);
    }
}

/// After a batch the weight has moved by at most the number of short ids
/// inserted, and by as many as that or an even number fewer.
pub proof fn lemma_weight_after_batch(s: Seq<u8>, ids: Seq<u64>)
    requires
        s.len() > 0,
    ensures
        weight(inserted_all(s, ids)) <= weight(s) + ids.len(),
        weight(s) <= weight(inserted_all(s, ids)) + ids.len(),
        (weight(s) + ids.len() - weight(inserted_all(s, ids))) % 2 == 0,
    decreases ids.len(),
{
    if ids.len() > 0 {
        lemma_weight_after_batch(s, ids.drop_last());
        lemma_inserted_all_len(s, ids.drop_last());
        lemma_insert_moves_weight(inserted_all(s, ids.drop_last()), ids.last());
    }
}

// ----------------------------------------------------------- combination

/// Self-cancellation: a sketch combined with itself is the empty sketch of
/// the same length.
pub proof fn lemma_combine_self_cancels(s: Seq<u8>)
    ensures
        xored(s, s) == zeros(s.len()),
{
    assert forall|i: int| 0 <= i < s.len() implies #[trigger] (s[i] ^ s[i]) == 0u8 by {
        lemma_xor_group(s[i], 0u8, 0u8);
    }
    assert(xored(s, s) =~= zeros(s.len()));
}

/// The empty sketch is neutral: combined with it, a sketch stays as it is.
pub proof fn lemma_combine_with_zeros(s: Seq<u8>)
    ensures
        xored(s, zeros(s.len())) == s,
        xored(zeros(s.len()), s) == s,
{
    assert forall|i: int| 0 <= i < s.len() implies #[trigger] (s[i] ^ 0u8) == s[i] && (0u8
        ^ s[i]) == s[i] by {
        lemma_xor_group(s[i], 0u8, 0u8);
    }
    assert(xored(s, zeros(s.len())) =~= s);
    assert(xored(zeros(s.len()), s) =~= s);
}

/// Combination is commutative.
pub proof fn lemma_combine_commutes(a: Seq<u8>, b: Seq<u8>)
    requires
        a.len() == b.len(),
    ensures
        xored(a, b) == xored(b, a),
{
    assert forall|i: int| 0 <= i < a.len() implies #[trigger] (a[i] ^ b[i]) == b[i] ^ a[i] by {
        lemma_xor_group(a[i], b[i], 0u8);
    }
    assert(xored(a, b) =~= xored(b, a));
}

/// Combination is associative.
pub proof fn lemma_combine_associates(a: Seq<u8>, b: Seq<u8>, c: Seq<u8>)
    requires
        a.len() == b.len(),
        b.len() == c.len(),
    ensures
        xored(xored(a, b), c) == xored(a, xored(b, c)),
{
    assert forall|i: int| 0 <= i < a.len() implies #[trigger] ((a[i] ^ b[i]) ^ c[i]) == a[i]
        ^ (b[i] ^ c[i]) by {
        lemma_xor_group(a[i], b[i], c[i]);
    }
    assert(xored(xored(a, b), c) =~= xored(a, xored(b, c)));
}

/// Inserting into one of two sketches and then combining them is combining
/// them and then inserting.
pub proof fn lemma_combine_tracks_insert(a: Seq<u8>, b: Seq<u8>, short_id: u64)
    requires
        a.len() == b.len(),
    ensures
        xored(inserted(a, short_id), b) == inserted(xored(a, b), short_id),
{
    if a.len() > 0 {
        let i = bit_index(a.len(), short_id);
        lemma_xor_twice(a[i / 8], mask((i % 8) as u8), b[i / 8]);
    }
    assert(xored(inserted(a, short_id), b) =~= inserted(xored(a, b), short_id));
}

/// Inserting a batch into one of two sketches and then combining them is
/// combining them and then inserting the batch.
pub proof fn lemma_combine_tracks_batch(a: Seq<u8>, b: Seq<u8>, ids: Seq<u64>)
    requires
        a.len() == b.len(),
    ensures
        xored(inserted_all(a, ids), b) == inserted_all(xored(a, b), ids),
    decreases ids.len(),
{
    if ids.len() > 0 {
        lemma_combine_tracks_batch(a, b, ids.drop_last());
        lemma_inserted_all_len(a, ids.drop_last());
        lemma_combine_tracks_insert(inserted_all(a, ids.drop_last()), b, ids.last());
    }
}

/// The combination of the sketches of two streams of short ids is the
/// sketch of the two streams joined.
pub proof fn lemma_combine_joins_streams(len: nat, x: Seq<u64>, y: Seq<u64>)
    ensures
        xored(inserted_all(zeros(len), x), inserted_all(zeros(len), y)) == inserted_all(
            zeros(len),
            x + y,
        ),
{
    let of_x = inserted_all(zeros(len), x);
    let of_y = inserted_all(zeros(len), y);
    lemma_inserted_all_len(zeros(len), x);
    lemma_inserted_all_len(zeros(len), y);
    lemma_combine_commutes(of_x, of_y);
    lemma_combine_tracks_batch(zeros(len), of_x, y);
    lemma_combine_with_zeros(of_x);
    lemma_inserted_all_concat(zeros(len), x, y);
}

/// Symmetric difference: the short ids that two streams share cancel in
/// the combination of their sketches, which is the sketch of what each
/// stream has alone.
pub proof fn lemma_shared_ids_cancel(len: nat, shared: Seq<u64>, x: Seq<u64>, y: Seq<u64>)
    ensures
        xored(inserted_all(zeros(len), shared + x), inserted_all(zeros(len), shared + y))
            == inserted_all(zeros(len), x + y),
{
    let joined = (shared + x) + (shared + y);
    let sorted = (shared + shared) + (x + y);
    lemma_combine_joins_streams(len, shared + x, shared + y);
    assert(joined.to_multiset() =~= sorted.to_multiset()) by {
        lemma_multiset_commutative(shared + x, shared + y);
        lemma_multiset_commutative(shared, x);
        lemma_multiset_commutative(shared, y);
        lemma_multiset_commutative(shared + shared, x + y);
        lemma_multiset_commutative(shared, shared);
        lemma_multiset_commutative(x, y);
    }
    lemma_insert_batch_order_independent(zeros(len), joined, sorted);
    lemma_inserted_all_concat(zeros(len), shared + shared, x + y);
    lemma_doubled_batch_cancels(zeros(len), shared);
}

// --------------------------------------------------------------- folding

/// Fold length: a fold to `target` bytes has `target` bytes.
pub proof fn lemma_fold_len(s: Seq<u8>, target: nat)
    ensures
        folded(s, target).len() == target,
{
}

/// The chunks of a buffer that can be folded lie inside it, one after the
/// other, and all have the same length.
pub proof fn lemma_chunk_in_range(len: nat, target: nat, i: int)
    requires
        foldable(len, target),
        0 <= i < target,
    ensures
        len == target * (len / target),
        0 <= i * (len / target) <= (i + 1) * (len / target) <= len,
        (i + 1) * (len / target) - i * (len / target) == len / target,
{
    let width = (len / target) as int;
    lemma_fundamental_div_mod(len as int, target as int);
    assert(0 <= i * width && i * width + width == (i + 1) * width && (i + 1) * width <= target
        * width) by (nonlinear_arith)
        requires
            0 <= i < target,
            0 <= width,
    ;
}

/// The exclusive or of bytes that are all 0 is 0.
pub proof fn lemma_xor_sum_zeros(s: Seq<u8>)
    requires
        all_zero(s),
    ensures
        xor_sum(s) == 0u8,
    decreases s.len(),
{
    if s.len() > 0 {
        assert forall|i: int| 0 <= i < s.drop_last().len() implies s.drop_last()[i] == 0u8 by {
            assert(s.drop_last()[i] == s[i]);
        }
        lemma_xor_sum_zeros(s.drop_last());
        assert(s.last() == 0u8);
        lemma_xor_group(0u8, 0u8, 0u8);
    }
}

/// The exclusive or of the bytes of a combination is the exclusive or of
/// what the two buffers give each.
pub proof fn lemma_xor_sum_xored(a: Seq<u8>, b: Seq<u8>)
    requires
        a.len() == b.len(),
    ensures
        xor_sum(xored(a, b)) == xor_sum(a) ^ xor_sum(b),
    decreases a.len(),
{
    if a.len() == 0 {
        lemma_xor_group(0u8, 0u8, 0u8);
    } else {
        assert(xored(a, b).drop_last() =~= xored(a.drop_last(), b.drop_last()));
        lemma_xor_sum_xored(a.drop_last(), b.drop_last());
        lemma_xor_interchange(xor_sum(a.drop_last()), xor_sum(b.drop_last()), a.last(), b.last());
    }
}

/// The exclusive or of the bytes of a concatenation is the exclusive or of
/// what its parts give each.
pub proof fn lemma_xor_sum_concat(a: Seq<u8>, b: Seq<u8>)
    ensures
        xor_sum(a + b) == xor_sum(a) ^ xor_sum(b),
    decreases b.len(),
{
    if b.len() == 0 {
        assert(a + b =~= a);
        lemma_xor_group(xor_sum(a), 0u8, 0u8);
    } else {
        assert((a + b).drop_last() =~= a + b.drop_last());
        lemma_xor_sum_concat(a, b.drop_last());
        lemma_xor_group(xor_sum(a), xor_sum(b.drop_last()), b.last());
    }
}

/// A run of bytes of a fold gives what the chunks behind it give together.
proof fn lemma_fold_of_run(s: Seq<u8>, target: nat, from: int, to: int)
    requires
        foldable(s.len(), target),
        0 <= from <= to <= target,
    ensures
        0 <= from * (s.len() / target) <= to * (s.len() / target) <= s.len(),
        xor_sum(folded(s, target).subrange(from, to)) == xor_sum(
            s.subrange(from * (s.len() / target), to * (s.len() / target)),
        ),
    decreases to - from,
{
    let width = (s.len() / target) as int;
    lemma_fundamental_div_mod(s.len() as int, target as int);
    assert(0 <= from * width <= to * width <= target * width) by (nonlinear_arith)
        requires
            0 <= from <= to <= target,
            0 <= width,
    ;
    let run = folded(s, target).subrange(from, to);
    if from == to {
        assert(run =~= Seq::<u8>::empty());
        assert(s.subrange(from * width, to * width) =~= Seq::<u8>::empty());
    } else {
        lemma_fold_of_run(s, target, from, to - 1);
        lemma_chunk_in_range(s.len(), target, to - 1);
        assert(run.drop_last() =~= folded(s, target).subrange(from, to - 1));
        assert(run.last() == xor_sum(chunk(s, target, to - 1)));
        assert(s.subrange(from * width, to * width) =~= s.subrange(from * width, (to - 1) * width)
            + chunk(s, target, to - 1));
        lemma_xor_sum_concat(s.subrange(from * width, (to - 1) * width), chunk(s, target, to - 1));
    }
}

/// Folding keeps the exclusive or of all bytes.
pub proof fn lemma_fold_keeps_xor_sum(s: Seq<u8>, target: nat)
    requires
        foldable(s.len(), target),
    ensures
        xor_sum(folded(s, target)) == xor_sum(s),
{
    lemma_fold_of_run(s, target, 0, target as int);
    lemma_fundamental_div_mod(s.len() as int, target as int);
    assert(folded(s, target).subrange(0, target as int) =~= folded(s, target));
    assert(s.subrange(0, (target * (s.len() / target)) as int) =~= s);
}

/// Folding in two steps is folding in one: a fold of a fold is the fold of
/// the buffer to the last length.
pub proof fn lemma_fold_of_fold(s: Seq<u8>, first: nat, second: nat)
    requires
        foldable(s.len(), first),
        foldable(first, second),
    ensures
        foldable(s.len(), second),
        folded(folded(s, first), second) == folded(s, second),
{
    let width = s.len() / first;
    let ratio = first / second;
    lemma_fundamental_div_mod(s.len() as int, first as int);
    lemma_fundamental_div_mod(first as int, second as int);
    assert(s.len() == (ratio * width) * second + 0) by (nonlinear_arith)
        requires
            s.len() == first * width,
            first == second * ratio,
    ;
    lemma_fundamental_div_mod_converse(s.len() as int, second as int, (ratio * width) as int, 0);
    assert forall|j: int| 0 <= j < second implies #[trigger] folded(folded(s, first), second)[j]
        == folded(s, second)[j] by {
        lemma_chunk_in_range(first, second, j);
        lemma_fold_of_run(s, first, j * ratio, (j + 1) * ratio);
        assert((j * ratio) * width == j * (ratio * width) && ((j + 1) * ratio) * width == (j + 1)
            * (ratio * width)) by (nonlinear_arith);
    }
    assert(folded(folded(s, first), second) =~= folded(s, second));
}

/// Folding the empty sketch gives the empty sketch of the target length.
pub proof fn lemma_fold_zeros(len: nat, target: nat)
    requires
        foldable(len, target),
    ensures
        folded(zeros(len), target) == zeros(target),
{
    assert forall|i: int| 0 <= i < target implies #[trigger] folded(zeros(len), target)[i]
        == 0u8 by {
        lemma_chunk_in_range(len, target, i);
        lemma_xor_sum_zeros(chunk(zeros(len), target, i));
    }
    assert(folded(zeros(len), target) =~= zeros(target));
}

/// Folding keeps the structure of combination: the fold of a combination
/// is the combination of the folds.
pub proof fn lemma_fold_distributes_over_combine(a: Seq<u8>, b: Seq<u8>, target: nat)
    requires
        a.len() == b.len(),
        foldable(a.len(), target),
    ensures
        folded(xored(a, b), target) == xored(folded(a, target), folded(b, target)),
{
    assert forall|i: int| 0 <= i < target implies #[trigger] folded(xored(a, b), target)[i]
        == folded(a, target)[i] ^ folded(b, target)[i] by {
        lemma_chunk_in_range(a.len(), target, i);
        assert(chunk(xored(a, b), target, i) =~= xored(chunk(a, target, i), chunk(b, target, i)));
        lemma_xor_sum_xored(chunk(a, target, i), chunk(b, target, i));
    }
    assert(folded(xored(a, b), target) =~= xored(folded(a, target), folded(b, target)));
}

} // verus!
