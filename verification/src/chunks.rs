//! Cutting a byte sequence into pieces of one length, as a stream is cut.

use vstd::prelude::*;

verus! {

/// The pieces of length `n` that `data` begins with, as many as are complete.
pub open spec fn full_chunks(data: Seq<u8>, n: nat) -> Seq<Seq<u8>>
    decreases data.len(),
{
    if n == 0 || data.len() < n {
        Seq::empty()
    } else {
        seq![data.take(n as int)] + full_chunks(data.skip(n as int), n)
    }
}

/// What is left of `data` behind its complete pieces of length `n`.
pub open spec fn remainder(data: Seq<u8>, n: nat) -> Seq<u8>
    decreases data.len(),
{
    if n == 0 || data.len() < n {
        data
    } else {
        remainder(data.skip(n as int), n)
    }
}

/// The pieces of length `n` that `data` begins with, as many as have more data behind them.
pub open spec fn lead_chunks(data: Seq<u8>, n: nat) -> Seq<Seq<u8>>
    decreases data.len(),
{
    if n == 0 || data.len() <= n {
        Seq::empty()
    } else {
        seq![data.take(n as int)] + lead_chunks(data.skip(n as int), n)
    }
}

/// The last piece of `data`, which has length `n` at most. It is empty only where `data` is.
pub open spec fn last_chunk(data: Seq<u8>, n: nat) -> Seq<u8>
    decreases data.len(),
{
    if n == 0 || data.len() <= n {
        data
    } else {
        last_chunk(data.skip(n as int), n)
    }
}

/// The sequences of `parts`, one behind the other.
pub open spec fn concat(parts: Seq<Seq<u8>>) -> Seq<u8>
    decreases parts.len(),
{
    if parts.len() == 0 {
        Seq::empty()
    } else {
        parts[0] + concat(parts.drop_first())
    }
}

/// All of `data` in pieces of length `n`, the last one shorter where `n` does not divide its
/// length.
pub open spec fn pieces(data: Seq<u8>, n: nat) -> Seq<Seq<u8>> {
    if remainder(data, n).len() == 0 {
        full_chunks(data, n)
    } else {
        full_chunks(data, n).push(remainder(data, n))
    }
}

/// The remainder is shorter than a piece, and every complete piece has the piece length.
pub proof fn lemma_chunk_lengths(data: Seq<u8>, n: nat)
    requires
        n > 0,
    ensures
        remainder(data, n).len() < n,
        forall|i: int|
            0 <= i < full_chunks(data, n).len() ==> (#[trigger] full_chunks(data, n)[i]).len() == n,
        full_chunks(data, n).len() * n + remainder(data, n).len() == data.len(),
    decreases data.len(),
{
    if data.len() >= n {
        let rest = data.skip(n as int);
        lemma_chunk_lengths(rest, n);
        let all = full_chunks(data, n);
        assert forall|i: int| 0 <= i < all.len() implies (#[trigger] all[i]).len() == n by {
            if i > 0 {
                assert(all[i] == full_chunks(rest, n)[i - 1]);
            }
        }
        let m = full_chunks(rest, n).len();
        assert((m + 1) * n == m * n + n) by (nonlinear_arith);
    } else {
        assert(0 * n == 0) by (nonlinear_arith);
    }
}

/// The complete pieces and the remainder, put back together, are the data.
pub proof fn lemma_chunks_concat(data: Seq<u8>, n: nat)
    ensures
        concat(full_chunks(data, n)) + remainder(data, n) == data,
    decreases data.len(),
{
    if n == 0 || data.len() < n {
        assert(concat(full_chunks(data, n)) + data =~= data);
    } else {
        let rest = data.skip(n as int);
        lemma_chunks_concat(rest, n);
        let all = full_chunks(data, n);
        assert(all.drop_first() =~= full_chunks(rest, n));
        assert(all[0] == data.take(n as int));
        assert(concat(all) + remainder(data, n) =~= data.take(n as int) + (concat(
            full_chunks(rest, n),
        ) + remainder(rest, n)));
        assert(data.take(n as int) + rest =~= data);
    }
}

/// Cutting `a + b` is cutting `a`, then cutting `b` with the remainder of `a` before it.
pub proof fn lemma_chunks_split(a: Seq<u8>, b: Seq<u8>, n: nat)
    ensures
        full_chunks(a + b, n) == full_chunks(a, n) + full_chunks(remainder(a, n) + b, n),
        remainder(a + b, n) == remainder(remainder(a, n) + b, n),
    decreases a.len(),
{
    if n == 0 || a.len() < n {
        assert(full_chunks(a, n) + full_chunks(a + b, n) =~= full_chunks(a + b, n));
    } else {
        let rest = a.skip(n as int);
        lemma_chunks_split(rest, b, n);
        assert((a + b).skip(n as int) =~= rest + b);
        assert((a + b).take(n as int) =~= a.take(n as int));
        assert(full_chunks(a + b, n) =~= full_chunks(a, n) + full_chunks(remainder(a, n) + b, n));
    }
}

/// The pieces before the last have the piece length, the last one is not longer, and it is empty
/// only where there is no data.
pub proof fn lemma_lead_lengths(data: Seq<u8>, n: nat)
    requires
        n > 0,
    ensures
        last_chunk(data, n).len() <= n,
        data.len() > 0 ==> last_chunk(data, n).len() > 0,
        forall|i: int|
            0 <= i < lead_chunks(data, n).len() ==> (#[trigger] lead_chunks(data, n)[i]).len() == n,
        lead_chunks(data, n).len() * n + last_chunk(data, n).len() == data.len(),
    decreases data.len(),
{
    if data.len() > n {
        let rest = data.skip(n as int);
        lemma_lead_lengths(rest, n);
        let all = lead_chunks(data, n);
        assert forall|i: int| 0 <= i < all.len() implies (#[trigger] all[i]).len() == n by {
            if i > 0 {
                assert(all[i] == lead_chunks(rest, n)[i - 1]);
            }
        }
        let m = lead_chunks(rest, n).len();
        assert((m + 1) * n == m * n + n) by (nonlinear_arith);
    } else {
        assert(0 * n == 0) by (nonlinear_arith);
    }
}

/// The pieces before the last and the last one, put back together, are the data.
pub proof fn lemma_lead_concat(data: Seq<u8>, n: nat)
    ensures
        concat(lead_chunks(data, n)) + last_chunk(data, n) == data,
    decreases data.len(),
{
    if n == 0 || data.len() <= n {
        assert(concat(lead_chunks(data, n)) + data =~= data);
    } else {
        let rest = data.skip(n as int);
        lemma_lead_concat(rest, n);
        let all = lead_chunks(data, n);
        assert(all.drop_first() =~= lead_chunks(rest, n));
        assert(all[0] == data.take(n as int));
        assert(concat(all) + last_chunk(data, n) =~= data.take(n as int) + (concat(
            lead_chunks(rest, n),
        ) + last_chunk(rest, n)));
        assert(data.take(n as int) + rest =~= data);
    }
}

/// Cutting `a + b` is cutting `a`, then cutting `b` with the last piece of `a` before it.
pub proof fn lemma_lead_split(a: Seq<u8>, b: Seq<u8>, n: nat)
    ensures
        lead_chunks(a + b, n) == lead_chunks(a, n) + lead_chunks(last_chunk(a, n) + b, n),
        last_chunk(a + b, n) == last_chunk(last_chunk(a, n) + b, n),
    decreases a.len(),
{
    if n == 0 || a.len() <= n {
        assert(lead_chunks(a, n) + lead_chunks(a + b, n) =~= lead_chunks(a + b, n));
    } else {
        let rest = a.skip(n as int);
        lemma_lead_split(rest, b, n);
        assert((a + b).skip(n as int) =~= rest + b);
        assert((a + b).take(n as int) =~= a.take(n as int));
        assert(lead_chunks(a + b, n) =~= lead_chunks(a, n) + lead_chunks(
            last_chunk(a, n) + b,
            n,
        ));
    }
}

/// Whether a piece of length `n` stands in the data behind `i` others.
pub open spec fn stands_at(piece: Seq<u8>, data: Seq<u8>, n: nat, i: int) -> bool {
    &&& piece.len() == n
    &&& i * n + n <= data.len()
    &&& piece == data.subrange(i * n, i * n + n)
}

/// The pieces of one length stand in the data one behind the other: each begins where so many
/// lengths have gone before it. What is left begins behind the last.
pub proof fn full_chunks_stand_in_place(data: Seq<u8>, n: nat)
    requires
        n > 0,
    ensures
        full_chunks(data, n).len() * n <= data.len(),
        data.len() < (full_chunks(data, n).len() + 1) * n,
        forall|i: int|
            0 <= i < full_chunks(data, n).len() ==> stands_at(
                #[trigger] full_chunks(data, n)[i],
                data,
                n,
                i,
            ),
        remainder(data, n) == data.skip((full_chunks(data, n).len() * n) as int),
    decreases data.len(),
{
    let all = full_chunks(data, n);
    if data.len() < n {
        assert(0 * n == 0 && (0 + 1) * n == n) by (nonlinear_arith);
        assert(data.skip(0) =~= data);
    } else {
        let rest = data.skip(n as int);
        let behind = full_chunks(rest, n);
        full_chunks_stand_in_place(rest, n);
        let m = behind.len();
        assert((m + 1) * n == m * n + n && (m + 1 + 1) * n == m * n + n + n) by (nonlinear_arith);
        assert(all.len() == m + 1);
        assert(remainder(data, n) =~= data.skip(((m + 1) * n) as int));
        assert forall|i: int| 0 <= i < all.len() implies stands_at(
            #[trigger] all[i],
            data,
            n,
            i,
        ) by {
            if i == 0 {
                assert(0 * n == 0) by (nonlinear_arith);
                assert(all[0] =~= data.subrange(0, n as int));
            } else {
                assert(all[i] == behind[i - 1]);
                assert(stands_at(behind[i - 1], rest, n, i - 1));
                assert((i - 1) * n == i * n - n && i * n >= n) by (nonlinear_arith)
                    requires
                        i >= 1,
                ;
                assert(all[i] =~= data.subrange(i * n, i * n + n));
            }
        }
    }
}

/// The pieces that have more data behind them stand in the data one behind the other, and the last
/// one stands behind them.
pub proof fn lead_chunks_stand_in_place(data: Seq<u8>, n: nat)
    requires
        n > 0,
    ensures
        lead_chunks(data, n).len() * n <= data.len() <= (lead_chunks(data, n).len() + 1) * n,
        data.len() > 0 ==> lead_chunks(data, n).len() * n < data.len(),
        forall|i: int|
            0 <= i < lead_chunks(data, n).len() ==> stands_at(
                #[trigger] lead_chunks(data, n)[i],
                data,
                n,
                i,
            ),
        last_chunk(data, n) == data.skip((lead_chunks(data, n).len() * n) as int),
    decreases data.len(),
{
    let all = lead_chunks(data, n);
    if data.len() <= n {
        assert(0 * n == 0 && (0 + 1) * n == n) by (nonlinear_arith);
        assert(data.skip(0) =~= data);
    } else {
        let rest = data.skip(n as int);
        let behind = lead_chunks(rest, n);
        lead_chunks_stand_in_place(rest, n);
        let m = behind.len();
        assert((m + 1) * n == m * n + n && (m + 1 + 1) * n == m * n + n + n) by (nonlinear_arith);
        assert(all.len() == m + 1);
        assert(last_chunk(data, n) =~= data.skip(((m + 1) * n) as int));
        assert forall|i: int| 0 <= i < all.len() implies stands_at(
            #[trigger] all[i],
            data,
            n,
            i,
        ) by {
            if i == 0 {
                assert(0 * n == 0) by (nonlinear_arith);
                assert(all[0] =~= data.subrange(0, n as int));
            } else {
                assert(all[i] == behind[i - 1]);
                assert(stands_at(behind[i - 1], rest, n, i - 1));
                assert((i - 1) * n == i * n - n && i * n >= n) by (nonlinear_arith)
                    requires
                        i >= 1,
                ;
                assert(all[i] =~= data.subrange(i * n, i * n + n));
            }
        }
    }
}

/// The concatenation of two lists of parts is that of the first before that of the second.
pub proof fn lemma_concat_add(a: Seq<Seq<u8>>, b: Seq<Seq<u8>>)
    ensures
        concat(a + b) == concat(a) + concat(b),
    decreases a.len(),
{
    if a.len() == 0 {
        assert(a + b =~= b);
        assert(concat(a) + concat(b) =~= concat(b));
    } else {
        lemma_concat_add(a.drop_first(), b);
        assert((a + b).drop_first() =~= a.drop_first() + b);
        assert(concat(a + b) =~= concat(a) + concat(b));
    }
}

/// One more part at the end is appended to the concatenation.
pub proof fn lemma_concat_push(a: Seq<Seq<u8>>, x: Seq<u8>)
    ensures
        concat(a.push(x)) == concat(a) + x,
{
    lemma_concat_add(a, seq![x]);
    assert(a + seq![x] =~= a.push(x));
    assert(seq![x].drop_first() =~= Seq::<Seq<u8>>::empty());
    assert(concat(seq![x].drop_first()) =~= Seq::<u8>::empty());
    assert(concat(seq![x]) =~= x);
}

/// Appends `tail` to `v`.
pub fn append_bytes(v: &mut Vec<u8>, tail: &[u8])
    ensures
        final(v)@ == old(v)@ + tail@,
{
    v.extend_from_slice(tail);
    assert(v@ =~= old(v)@ + tail@);
}

/// Takes the first `n` bytes out of `v`.
pub fn take_front(v: &mut Vec<u8>, n: usize) -> (front: Vec<u8>)
    requires
        n <= old(v)@.len(),
    ensures
        front@ == old(v)@.take(n as int),
        final(v)@ == old(v)@.skip(n as int),
{
    let mut rest: Vec<u8> = v.split_off(n);
    std::mem::swap(v, &mut rest);
    assert(rest@ =~= old(v)@.take(n as int));
    assert(v@ =~= old(v)@.skip(n as int));
    rest
}

} // verus!
