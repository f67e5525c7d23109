//! The chunking encoder: splits a serialized message into ordered fragments
//! no longer than a caller-chosen cap, covering the input exactly once.

use crate::chunk::{ChunkModel, ChunkedMessage};
use vstd::arithmetic::div_mod::{
    lemma_fundamental_div_mod, lemma_mod_division_less_than_divisor,
};
use vstd::arithmetic::mul::{
    lemma_mul_inequality, lemma_mul_is_distributive_sub_other_way,
};
use vstd::prelude::*;
use vstd::slice::{slice_subrange, slice_to_vec};

verus! {

/// Number of fragments a payload of `len` bytes is split into under the
/// fragment cap `max`: the ceiling of `len / max`, except that an empty
/// payload is represented by exactly one empty fragment.
pub open spec fn spec_num_fragments(len: int, max: int) -> int
    recommends
        max >= 1,
        len >= 0,
{
    if len == 0 {
        1
    } else {
        len / max + if len % max == 0 {
            0int
        } else {
            1int
        }
    }
}

/// End position (exclusive) of fragment `i` in a payload of `len` bytes.
pub open spec fn spec_fragment_end(len: int, max: int, i: int) -> int {
    if (i + 1) * max <= len {
        (i + 1) * max
    } else {
        len
    }
}

/// Fragment `i` of a payload: the bytes from `i * max` up to the cap or the
/// end of the payload, whichever comes first.
pub open spec fn spec_fragment(data: Seq<u8>, max: int, i: int) -> Seq<u8> {
    data.subrange(i * max, spec_fragment_end(data.len() as int, max, i))
}

/// All fragments of a payload, in index order.
pub open spec fn spec_fragments(data: Seq<u8>, max: int) -> Seq<Seq<u8>> {
    Seq::new(spec_num_fragments(data.len() as int, max) as nat, |i: int| spec_fragment(data, max, i))
}

/// Concatenation of a sequence of byte sequences, in order.
pub open spec fn concat_bytes(frags: Seq<Seq<u8>>) -> Seq<u8>
    decreases frags.len(),
{
    if frags.len() == 0 {
        Seq::empty()
    } else {
        concat_bytes(frags.drop_last()) + frags.last()
    }
}

/// The fragment count is positive, and a non-empty payload of `len` bytes
/// needs exactly enough fragments: the last one starts before `len` and the
/// fragments together reach at least `len`.
pub proof fn lemma_num_fragments_bounds(len: int, max: int)
    requires
        max >= 1,
        len >= 1,
    ensures
        spec_num_fragments(len, max) >= 1,
        (spec_num_fragments(len, max) - 1) * max < len,
        len <= spec_num_fragments(len, max) * max,
{
    let q = len / max;
    let r = len % max;
    lemma_fundamental_div_mod(len, max);
    lemma_mod_division_less_than_divisor(len, max);
    vstd::arithmetic::div_mod::lemma_div_pos_is_pos(len, max);
    let n = spec_num_fragments(len, max);
    if r == 0 {
        assert(n == q);
        assert(q >= 1) by {
            if q == 0 {
                vstd::arithmetic::mul::lemma_mul_by_zero_is_zero(max);
            }
        }
        assert(n * max == max * q) by {
            vstd::arithmetic::mul::lemma_mul_is_commutative(n, max);
        }
        assert((n - 1) * max == n * max - 1 * max) by {
            lemma_mul_is_distributive_sub_other_way(max, n, 1);
        }
    } else {
        assert(n == q + 1);
        assert((n - 1) * max == max * q) by {
            vstd::arithmetic::mul::lemma_mul_is_commutative(q, max);
        }
        assert(n * max == (n - 1) * max + 1 * max) by {
            lemma_mul_is_distributive_sub_other_way(max, n, 1);
        }
    }
}

/// Every fragment index of a payload names a well-formed, non-empty range
/// of it (except the single empty fragment of an empty payload).
pub proof fn lemma_fragment_in_range(len: int, max: int, i: int)
    requires
        max >= 1,
        len >= 0,
        0 <= i < spec_num_fragments(len, max),
    ensures
        0 <= i * max,
        i * max <= spec_fragment_end(len, max, i),
        spec_fragment_end(len, max, i) <= len,
        len > 0 ==> i * max < len,
        len == 0 ==> i * max == 0 && spec_fragment_end(len, max, i) == 0,
{
    vstd::arithmetic::mul::lemma_mul_nonnegative(i, max);
    if len > 0 {
        lemma_num_fragments_bounds(len, max);
        let n = spec_num_fragments(len, max);
        assert(i * max <= (n - 1) * max) by {
            lemma_mul_inequality(i, n - 1, max);
        }
        assert(i * max <= (i + 1) * max) by {
            lemma_mul_inequality(i, i + 1, max);
        }
    } else {
        assert(i == 0);
        vstd::arithmetic::mul::lemma_mul_by_zero_is_zero(max);
        vstd::arithmetic::mul::lemma_mul_basics(max);
    }
}

/// Splits `data` into fragments of at most `max_fragment_len` bytes, tagged
/// with the message id and their index and count, in index order. Returns
/// `None` exactly when the fragment count would not fit the 32-bit count
/// field of the wire header; the caller observes that as a refused send.
pub fn split_into_chunks(id: u64, data: &Vec<u8>, max_fragment_len: usize) -> (r: Option<
    Vec<ChunkedMessage>,
>)
    requires
        max_fragment_len >= 1,
    ensures
        match r {
            Some(chunks) => {
                let n = spec_num_fragments(data@.len() as int, max_fragment_len as int);
                &&& n <= u32::MAX
                &&& chunks@.len() == n
                &&& forall|i: int|
                    0 <= i < n ==> #[trigger] chunks@[i]@ == (ChunkModel {
                        id,
                        chunk_index: i as u32,
                        total_chunks: n as u32,
                        data: spec_fragment(data@, max_fragment_len as int, i),
                    })
            },
            None => spec_num_fragments(data@.len() as int, max_fragment_len as int) > u32::MAX,
        },
{
    let len = data.len();
    proof {
        if len > 0 && max_fragment_len > 1 {
            // the quotient is small enough that adding one cannot overflow
            vstd::arithmetic::div_mod::lemma_div_is_strictly_smaller(
                len as int,
                max_fragment_len as int,
            );
        }
        if max_fragment_len == 1 {
            // a cap of one byte leaves no remainder
            lemma_fundamental_div_mod(len as int, 1);
            lemma_mod_division_less_than_divisor(len as int, 1);
        }
    }
    let total: usize = if len == 0 {
        1
    } else if len % max_fragment_len == 0 {
        len / max_fragment_len
    } else {
        len / max_fragment_len + 1
    };
    proof {
        if len > 0 {
            lemma_num_fragments_bounds(len as int, max_fragment_len as int);
        }
    }
    if total > (u32::MAX as usize) {
        return None;
    }
    let ghost maxi = max_fragment_len as int;
    let mut chunks: Vec<ChunkedMessage> = Vec::new();
    let mut start: usize = 0;
    let mut i: usize = 0;
    while i < total
        invariant
            max_fragment_len >= 1,
            len == data@.len(),
            total == spec_num_fragments(len as int, maxi),
            maxi == max_fragment_len as int,
            total <= u32::MAX,
            i <= total,
            chunks@.len() == i,
            i < total ==> start == i * maxi,
            i == total ==> start == len,
            forall|j: int|
                0 <= j < i ==> #[trigger] chunks@[j]@ == (ChunkModel {
                    id,
                    chunk_index: j as u32,
                    total_chunks: total as u32,
                    data: spec_fragment(data@, maxi, j),
                }),
        decreases total - i,
    {
        proof {
            lemma_fragment_in_range(len as int, maxi, i as int);
        }
        let end: usize = if len - start > max_fragment_len {
            start + max_fragment_len
        } else {
            len
        };
        proof {
            if len - start > max_fragment_len {
                assert((i + 1) * maxi == i * maxi + maxi) by {
                    vstd::arithmetic::mul::lemma_mul_is_distributive_add_other_way(
                        maxi,
                        i as int,
                        1,
                    );
                }
            } else {
                assert((i + 1) * maxi == i * maxi + maxi) by {
                    vstd::arithmetic::mul::lemma_mul_is_distributive_add_other_way(
                        maxi,
                        i as int,
                        1,
                    );
                }
            }
            assert(end == spec_fragment_end(len as int, maxi, i as int));
        }
        let frag = slice_to_vec(slice_subrange(data.as_slice(), start, end));
        chunks.push(ChunkedMessage { id, chunk_index: i as u32, total_chunks: total as u32, data: frag });
        proof {
            if i + 1 < total {
                lemma_fragment_in_range(len as int, maxi, i as int + 1);
                // the next fragment starts where this one ended
                assert((i as int + 1) * maxi == i as int * maxi + maxi) by {
                    vstd::arithmetic::mul::lemma_mul_is_distributive_add_other_way(
                        maxi,
                        i as int,
                        1,
                    );
                }
                if len as int - start as int <= maxi {
                    // this was already the last fragment: contradiction with i + 1 < total
                    lemma_num_fragments_bounds(len as int, maxi);
                    assert((i as int + 1) * maxi <= (total - 1) * maxi) by {
                        lemma_mul_inequality(i as int + 1, total as int - 1, maxi);
                    }
                    assert(false);
                }
            } else {
                // after the last fragment the cursor stands at the end
                if len as int - start as int > maxi {
                    lemma_num_fragments_bounds(len as int, maxi);
                    assert((i as int + 1) * maxi == i as int * maxi + maxi) by {
                        vstd::arithmetic::mul::lemma_mul_is_distributive_add_other_way(
                            maxi,
                            i as int,
                            1,
                        );
                    }
                    assert(false);
                }
            }
        }
        start = end;
        i = i + 1;
    }
    Some(chunks)
}

/// Concatenating the fragments of a payload, in index order, yields the
/// payload back exactly.
pub proof fn lemma_fragments_concat(data: Seq<u8>, max: int)
    requires
        max >= 1,
    ensures
        concat_bytes(spec_fragments(data, max)) == data,
    decreases data.len(),
{
    let len = data.len() as int;
    let frags = spec_fragments(data, max);
    if len == 0 {
        assert(spec_num_fragments(0, max) == 1);
        assert(frags.len() == 1);
        assert(frags.last() =~= data);
        assert(frags.drop_last() =~= Seq::<Seq<u8>>::empty());
        assert(concat_bytes(frags) == concat_bytes(frags.drop_last()) + frags.last());
        assert(concat_bytes(frags.drop_last()) == Seq::<u8>::empty());
        assert(concat_bytes(frags) =~= data);
    } else {
        lemma_num_fragments_bounds(len, max);
        let n = spec_num_fragments(len, max);
        if n == 1 {
            assert(frags.last() == spec_fragment(data, max, 0));
            assert(spec_fragment_end(len, max, 0) == len);
            assert(frags.last() =~= data);
            assert(frags.drop_last() =~= Seq::<Seq<u8>>::empty());
            assert(concat_bytes(frags) == concat_bytes(frags.drop_last()) + frags.last());
            assert(concat_bytes(frags.drop_last()) == Seq::<u8>::empty());
            assert(concat_bytes(frags) =~= data);
        } else {
            let m = (n - 1) * max;
            assert(0 < m < len) by {
                vstd::arithmetic::mul::lemma_mul_strictly_positive(n - 1, max);
            }
            let prefix = data.take(m);
            // the shorter payload splits into one fragment fewer
            assert(m % max == 0 && m / max == n - 1) by {
                vstd::arithmetic::div_mod::lemma_mod_multiples_basic(n - 1, max);
                vstd::arithmetic::div_mod::lemma_div_multiples_vanish(n - 1, max);
                vstd::arithmetic::mul::lemma_mul_is_commutative(n - 1, max);
            }
            assert(spec_num_fragments(m, max) == n - 1);
            // its fragments are exactly the first n - 1 fragments of data
            assert forall|i: int| 0 <= i < n - 1 implies spec_fragment(prefix, max, i)
                == spec_fragment(data, max, i) by {
                lemma_fragment_in_range(m, max, i);
                assert((i + 1) * max <= m) by {
                    lemma_mul_inequality(i + 1, n - 1, max);
                }
                assert(spec_fragment_end(m, max, i) == (i + 1) * max);
                assert(spec_fragment_end(len, max, i) == (i + 1) * max);
                assert(prefix.subrange(i * max, (i + 1) * max) =~= data.subrange(
                    i * max,
                    (i + 1) * max,
                ));
            }
            assert(spec_fragments(data, max).drop_last() =~= spec_fragments(prefix, max));
            lemma_fragments_concat(prefix, max);
            // the last fragment is the remainder
            assert(spec_fragment_end(len, max, n - 1) == len) by {
                vstd::arithmetic::mul::lemma_mul_is_distributive_sub_other_way(max, n, 1);
                vstd::arithmetic::mul::lemma_mul_is_commutative(n, max);
            }
            assert(frags.last() == data.subrange(m, len));
            assert(concat_bytes(frags) == prefix + data.subrange(m, len));
            assert(prefix + data.subrange(m, len) =~= data);
        }
    }
}

} // verus!
