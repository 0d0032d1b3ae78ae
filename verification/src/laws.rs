//! Properties of the codec, proved against the model.
//!
//! The central result is the round trip: decoding an encoding yields the
//! original message followed only by trailing zero padding. The proof walks
//! the encoder forward, keeping a decomposition of the stream into closed
//! blocks plus one open run, and peels blocks off the decoder's view from the
//! back.

use vstd::prelude::*;

use crate::model::{
    all_nonzero, bit_set, block_of, clear_below, decode_spec, encode_spec, end_out, fold_out,
    fold_state, lemma_opt_append_assoc, lemma_opt_append_empty, lits_of, mask_matches, opt_append,
    step_out, step_state, wf_state,
};

verus! {

/// A run of `p` zero bytes.
pub open spec fn zeros_pad(p: nat) -> Seq<u8> {
    Seq::new(p, |i: int| 0u8)
}

/// Setting bit `run` of a bitmask whose bits at `run` and above are clear.
proof fn lemma_set_bit(zeros: u8, run: u8)
    by (bit_vector)
    requires
        run < 7,
        zeros >> run == 0,
    ensures
        zeros | (1u8 << run) != 0,
        zeros | (1u8 << run) <= 0x7F,
        zeros <= 0x7F,
        bit_set(zeros | (1u8 << run), run),
        !bit_set(zeros, run),
        forall|i: u8| i < 7 && i != run ==> bit_set(zeros | (1u8 << run), i) == bit_set(zeros, i),
        (zeros | (1u8 << run)) >> ((run + 1) as u8) == 0,
        zeros >> ((run + 1) as u8) == 0,
{
}

/// Shape of the control byte `end` writes for an open short run: the recorded
/// bitmask with every bit at and above `run` set.
proof fn lemma_end_mask_bits(zeros: u8, run: u8)
    by (bit_vector)
    requires
        1 <= run,
        run < 7,
        zeros >> run == 0,
    ensures
        (zeros | (0xFFu8 << run)) & 0x7F != 0,
        (zeros | (0xFFu8 << run)) & 0x7F <= 0x7F,
        forall|i: u8|
            i < run ==> bit_set((zeros | (0xFFu8 << run)) & 0x7F, i) == bit_set(zeros, i),
        forall|i: u8| run <= i && i < 7 ==> bit_set((zeros | (0xFFu8 << run)) & 0x7F, i),
{
}

/// The all-clear bitmask marks no position as zero.
proof fn lemma_zero_bits()
    by (bit_vector)
    ensures
        forall|i: u8| !bit_set(0u8, i),
{
}

/// Shape of the control byte for a long run of `run` literal bytes.
proof fn lemma_long_control(run: u8)
    by (bit_vector)
    requires
        7 <= run,
        run < 134,
    ensures
        0x80 <= (((run - 7) as u8) | 0x80u8),
        (((run - 7) as u8) | 0x80u8) <= 0xFE,
        ((((run - 7) as u8) | 0x80u8) - 0x80) + 7 == run,
{
}

/// A run of non-zero bytes contributes every byte as a literal.
proof fn lemma_lits_all_nonzero(seg: Seq<u8>)
    requires
        all_nonzero(seg),
    ensures
        lits_of(seg) == seg,
    decreases seg.len(),
{
    if seg.len() == 0 {
        assert(lits_of(seg) =~= seg);
    } else {
        lemma_lits_all_nonzero(seg.drop_last());
        assert(lits_of(seg.drop_last()).push(seg.last()) =~= seg);
    }
}

/// Trailing zero bytes contribute no literals.
proof fn lemma_lits_append_zeros(seg: Seq<u8>, p: nat)
    ensures
        lits_of(seg + zeros_pad(p)) == lits_of(seg),
    decreases p,
{
    if p == 0 {
        assert(seg + zeros_pad(0) =~= seg);
    } else {
        let shorter = seg + zeros_pad((p - 1) as nat);
        lemma_lits_append_zeros(seg, (p - 1) as nat);
        assert(seg + zeros_pad(p) =~= shorter.push(0u8));
        assert(shorter.push(0u8).drop_last() =~= shorter);
        assert(lits_of(seg + zeros_pad(p)) == lits_of(shorter));
    }
}

/// For a run matching the bitmask `c`, the clear bits index the literals in
/// order: position `j` of the run holds literal number `clear_below(c, j)`.
proof fn lemma_mask_block(c: u8, seg: Seq<u8>)
    requires
        seg.len() <= 7,
        mask_matches(c, seg),
    ensures
        clear_below(c, seg.len() as int) == lits_of(seg).len(),
        forall|j: int|
            #![trigger clear_below(c, j)]
            0 <= j < seg.len() && !bit_set(c, j as u8) ==> clear_below(c, j)
                < lits_of(seg).len() && lits_of(seg)[clear_below(c, j) as int] == seg[j],
    decreases seg.len(),
{
    if seg.len() > 0 {
        let s0 = seg.drop_last();
        assert(mask_matches(c, s0)) by {
            assert forall|i: int| 0 <= i < s0.len() implies (bit_set(c, i as u8) <==> s0[i]
                == 0u8) by {
                assert(s0[i] == seg[i]);
            }
        }
        lemma_mask_block(c, s0);
        let last = seg.len() - 1;
        if seg.last() == 0 {
            assert(bit_set(c, last as u8));
            assert(lits_of(seg) == lits_of(s0));
        } else {
            assert(!bit_set(c, last as u8));
            assert(lits_of(seg) == lits_of(s0).push(seg.last()));
        }
        assert forall|j: int| #![trigger clear_below(c, j)]
            0 <= j < seg.len() && !bit_set(c, j as u8) implies clear_below(c, j)
            < lits_of(seg).len() && lits_of(seg)[clear_below(c, j) as int] == seg[j] by {
            if j < last {
                assert(clear_below(c, j) < lits_of(s0).len());
                assert(lits_of(s0)[clear_below(c, j) as int] == s0[j]);
                assert(s0[j] == seg[j]);
                assert(lits_of(seg)[clear_below(c, j) as int] == lits_of(s0)[clear_below(
                    c,
                    j,
                ) as int]);
            } else {
                assert(j == last);
                assert(seg[j] != 0u8);
                assert(lits_of(seg) == lits_of(s0).push(seg.last()));
                assert(clear_below(c, last) == lits_of(s0).len());
                assert(lits_of(seg)[clear_below(c, j) as int] == seg.last());
            }
        }
    }
}

/// A full seven-byte run matching bitmask `c` is exactly the block the decoder
/// rebuilds from `c` and the run's literals.
proof fn lemma_block_of_full(c: u8, seg: Seq<u8>)
    requires
        seg.len() == 7,
        mask_matches(c, seg),
    ensures
        clear_below(c, 7) == lits_of(seg).len(),
        block_of(c, lits_of(seg)) == seg,
{
    lemma_mask_block(c, seg);
    assert(block_of(c, lits_of(seg)) =~= seg) by {
        assert forall|j: int| 0 <= j < 7 implies block_of(c, lits_of(seg))[j] == seg[j] by {
            if bit_set(c, j as u8) {
                assert(seg[j] == 0u8);
            }
        }
    }
}

/// The `end` control byte for an open short run describes the run padded with
/// zeros to seven bytes.
proof fn lemma_end_mask_block(zeros: u8, run: u8, seg: Seq<u8>)
    requires
        1 <= run < 7,
        zeros >> run == 0,
        seg.len() == run as int,
        mask_matches(zeros, seg),
    ensures
        ({
            let c = (zeros | (0xFFu8 << run)) & 0x7F;
            let padded = seg + zeros_pad((7 - run) as nat);
            &&& c != 0
            &&& c <= 0x7F
            &&& clear_below(c, 7) == lits_of(seg).len()
            &&& block_of(c, lits_of(seg)) == padded
        }),
{
    let c = (zeros | (0xFFu8 << run)) & 0x7F;
    let padded = seg + zeros_pad((7 - run) as nat);
    lemma_end_mask_bits(zeros, run);
    assert(mask_matches(c, padded)) by {
        assert forall|i: int| 0 <= i < padded.len() implies (bit_set(c, i as u8) <==> padded[i]
            == 0u8) by {
            if i < run as int {
                assert(padded[i] == seg[i]);
                assert(bit_set(c, i as u8) == bit_set(zeros, i as u8));
            } else {
                assert(padded[i] == 0u8);
                assert(bit_set(c, i as u8));
            }
        }
    }
    lemma_lits_append_zeros(seg, (7 - run) as nat);
    lemma_block_of_full(c, padded);
}

/// Peeling one block off the back of the stream: the decoder consumes the
/// control byte `c` and its literals, and decodes the rest first.
proof fn lemma_peel_block(front: Seq<u8>, lits: Seq<u8>, c: u8, block: Seq<u8>)
    requires
        c != 0,
        c <= 0x7F ==> clear_below(c, 7) == lits.len() && block == block_of(c, lits),
        0x80 <= c && c <= 0xFE ==> lits.len() == (c - 0x80) + 7 && block == lits + seq![0u8],
        c == 0xFF ==> lits.len() == 134 && block == lits,
    ensures
        decode_spec(front + lits + seq![c]) == opt_append(decode_spec(front), block),
{
    let data = front + lits + seq![c];
    assert(data.len() == front.len() + lits.len() + 1);
    assert(data.last() == c);
    assert(data.subrange(0, front.len() as int) =~= front);
    assert(data.subrange(front.len() as int, data.len() - 1) =~= lits);
}

/// Closing one more block preserves the property that decoders peel the
/// stream off as exactly the message encoded so far.
proof fn lemma_closed_block_decodes(
    m1: Seq<u8>,
    out1: Seq<u8>,
    lits: Seq<u8>,
    c: u8,
    block: Seq<u8>,
)
    requires
        forall|front: Seq<u8>|
            #![trigger decode_spec(front + out1)]
            decode_spec(front + out1) == opt_append(decode_spec(front), m1),
        c != 0,
        c <= 0x7F ==> clear_below(c, 7) == lits.len() && block == block_of(c, lits),
        0x80 <= c && c <= 0xFE ==> lits.len() == (c - 0x80) + 7 && block == lits + seq![0u8],
        c == 0xFF ==> lits.len() == 134 && block == lits,
    ensures
        forall|front: Seq<u8>|
            #![trigger decode_spec(front + (out1 + lits + seq![c]))]
            decode_spec(front + (out1 + lits + seq![c])) == opt_append(
                decode_spec(front),
                m1 + block,
            ),
{
    assert forall|front: Seq<u8>|
        #![trigger decode_spec(front + (out1 + lits + seq![c]))]
        decode_spec(front + (out1 + lits + seq![c])) == opt_append(
        decode_spec(front),
        m1 + block,
    ) by {
        lemma_peel_block(front + out1, lits, c, block);
        assert(front + (out1 + lits + seq![c]) =~= (front + out1) + lits + seq![c]);
        assert(decode_spec(front + out1) == opt_append(decode_spec(front), m1));
        lemma_opt_append_assoc(decode_spec(front), m1, block);
    }
}

/// The standing decomposition of an encoding in progress: the stream splits
/// into the closed blocks of the prefix `m.take(p)` — which any decoder peels
/// off as exactly that prefix — followed by the literals of the open run.
spec fn enc_ok(m: Seq<u8>) -> bool {
    let s = fold_state(0u8, 0u8, m);
    let run = s.0;
    let zeros = s.1;
    let out = fold_out(0u8, 0u8, m);
    let p = m.len() - run as int;
    let m1 = m.take(p);
    let seg = m.skip(p);
    &&& wf_state(run, zeros)
    &&& run as int <= m.len()
    &&& fold_state(0u8, 0u8, m1) == (0u8, 0u8)
    &&& (run < 7 ==> {
        &&& mask_matches(zeros, seg)
        &&& out == fold_out(0u8, 0u8, m1) + lits_of(seg)
    })
    &&& (run >= 7 ==> {
        &&& all_nonzero(seg)
        &&& out == fold_out(0u8, 0u8, m1) + seg
    })
    &&& forall|front: Seq<u8>|
        #![trigger decode_spec(front + fold_out(0u8, 0u8, m1))]
        decode_spec(front + fold_out(0u8, 0u8, m1)) == opt_append(decode_spec(front), m1)
}

/// The decomposition holds of every message.
#[verifier::spinoff_prover]
#[verifier::rlimit(100)]
proof fn lemma_enc_ok(m: Seq<u8>)
    ensures
        enc_ok(m),
    decreases m.len(),
{
    crate::encoder::lemma_wf_reset();
    if m.len() == 0 {
        assert(m.take(0) =~= m);
        assert(m.skip(0) =~= m);
        assert(fold_out(0u8, 0u8, m) + lits_of(m) =~= fold_out(0u8, 0u8, m));
        assert forall|front: Seq<u8>|
            #![trigger decode_spec(front + fold_out(0u8, 0u8, m.take(0)))]
            decode_spec(front + fold_out(0u8, 0u8, m.take(0))) == opt_append(
            decode_spec(front),
            m.take(0),
        ) by {
            assert(front + fold_out(0u8, 0u8, m.take(0)) =~= front);
            lemma_opt_append_empty(decode_spec(front));
            assert(m.take(0) =~= Seq::<u8>::empty());
        }
    } else {
        let m0 = m.drop_last();
        let b = m.last();
        lemma_enc_ok(m0);
        let s0 = fold_state(0u8, 0u8, m0);
        let r0 = s0.0;
        let z0 = s0.1;
        let out0 = fold_out(0u8, 0u8, m0);
        let p0 = m0.len() - r0 as int;
        let m1 = m0.take(p0);
        let seg0 = m0.skip(p0);
        let s = fold_state(0u8, 0u8, m);
        let out = fold_out(0u8, 0u8, m);
        assert(s == step_state(r0, z0, b));
        assert(out == out0 + step_out(r0, z0, b));
        if r0 < 7 {
            let z = if b == 0 { z0 | (1u8 << r0) } else { z0 };
            lemma_set_bit(z0, r0);
            if r0 + 1 == 7 && z != 0 {
                // the run closes: its control byte is the bitmask itself
                let segn = seg0.push(b);
                assert(segn =~= m.skip(p0));
                assert(mask_matches(z, segn)) by {
                    assert forall|i: int| 0 <= i < segn.len() implies (bit_set(z, i as u8) <==> segn[i]
                        == 0u8) by {
                        if i < r0 as int {
                            assert(segn[i] == seg0[i]);
                            assert(bit_set(z, i as u8) == bit_set(z0, i as u8));
                        } else {
                            assert(segn[i] == b);
                        }
                    }
                }
                lemma_block_of_full(z, segn);
                let lits = lits_of(segn);
                assert(lits == lits_of(seg0) + (if b == 0 { Seq::<u8>::empty() } else { seq![b] }))
                    by {
                    assert(segn.drop_last() =~= seg0);
                    if b == 0 {
                        assert(lits_of(seg0) + Seq::<u8>::empty() =~= lits_of(seg0));
                    } else {
                        assert(lits_of(seg0) + seq![b] =~= lits_of(seg0).push(b));
                    }
                }
                assert(out =~= fold_out(0u8, 0u8, m1) + lits + seq![z]);
                assert(m.take(m.len() as int) =~= m);
                assert(m.skip(m.len() as int) =~= Seq::<u8>::empty());
                let sn = fold_state(0u8, 0u8, m);
                let pn = m.len() - sn.0 as int;
                assert(m.take(pn) =~= m);
                assert(m.skip(pn) =~= Seq::<u8>::empty());
                assert(lits_of(Seq::<u8>::empty()) =~= Seq::<u8>::empty());
                assert(fold_out(0u8, 0u8, m) =~= fold_out(0u8, 0u8, m.take(pn)) + lits_of(
                    m.skip(pn),
                ));
                lemma_closed_block_decodes(m1, fold_out(0u8, 0u8, m1), lits, z, segn);
                assert(m1 + segn =~= m);
                assert forall|front: Seq<u8>|
                    #![trigger decode_spec(front + fold_out(0u8, 0u8, m.take(m.len() as int)))]
                    decode_spec(front + fold_out(0u8, 0u8, m.take(m.len() as int))) == opt_append(
                    decode_spec(front),
                    m.take(m.len() as int),
                ) by {
                    assert(decode_spec(front + (fold_out(0u8, 0u8, m1) + lits + seq![z]))
                        == opt_append(decode_spec(front), m1 + segn));
                }
            } else {
                // the run stays open; `b` joins it
                assert(m.take(p0) =~= m1);
                assert(m.skip(p0) =~= seg0.push(b));
                let segn = seg0.push(b);
                if r0 + 1 == 7 {
                    // seven non-zero bytes: the run silently turns long
                    assert(z == 0);
                    assert(b != 0);
                    lemma_zero_bits();
                    assert(all_nonzero(segn)) by {
                        assert forall|i: int| 0 <= i < segn.len() implies segn[i] != 0u8 by {
                            if i < r0 as int {
                                assert(!bit_set(z0, i as u8));
                                assert(segn[i] == seg0[i]);
                            }
                        }
                    }
                    assert(all_nonzero(seg0));
                    lemma_lits_all_nonzero(seg0);
                    assert(out =~= fold_out(0u8, 0u8, m1) + segn);
                } else {
                    assert(mask_matches(z, segn)) by {
                        assert forall|i: int| 0 <= i < segn.len() implies (bit_set(z, i as u8)
                            <==> segn[i] == 0u8) by {
                            if i < r0 as int {
                                assert(segn[i] == seg0[i]);
                                assert(bit_set(z, i as u8) == bit_set(z0, i as u8));
                            } else {
                                assert(segn[i] == b);
                            }
                        }
                    }
                    assert(out == fold_out(0u8, 0u8, m1) + lits_of(segn)) by {
                        assert(segn.drop_last() =~= seg0);
                        if b == 0 {
                            assert(out =~= fold_out(0u8, 0u8, m1) + lits_of(seg0));
                        } else {
                            assert(out =~= fold_out(0u8, 0u8, m1) + lits_of(seg0).push(b));
                        }
                    }
                }
            }
        } else {
            let seg0n = seg0.push(b);
            if b == 0 {
                // a zero closes the long run with its count control byte
                let c = ((r0 - 7) as u8) | 0x80u8;
                lemma_long_control(r0);
                lemma_lits_all_nonzero(seg0);
                assert(out =~= fold_out(0u8, 0u8, m1) + seg0 + seq![c]);
                assert(m.take(m.len() as int) =~= m);
                assert(m.skip(m.len() as int) =~= Seq::<u8>::empty());
                let sn = fold_state(0u8, 0u8, m);
                let pn = m.len() - sn.0 as int;
                assert(m.take(pn) =~= m);
                assert(m.skip(pn) =~= Seq::<u8>::empty());
                assert(lits_of(Seq::<u8>::empty()) =~= Seq::<u8>::empty());
                assert(fold_out(0u8, 0u8, m) =~= fold_out(0u8, 0u8, m.take(pn)) + lits_of(
                    m.skip(pn),
                ));
                lemma_closed_block_decodes(m1, fold_out(0u8, 0u8, m1), seg0, c, seg0 + seq![0u8]);
                assert(m1 + (seg0 + seq![0u8]) =~= m);
                assert forall|front: Seq<u8>|
                    #![trigger decode_spec(front + fold_out(0u8, 0u8, m.take(m.len() as int)))]
                    decode_spec(front + fold_out(0u8, 0u8, m.take(m.len() as int))) == opt_append(
                    decode_spec(front),
                    m.take(m.len() as int),
                ) by {
                    assert(decode_spec(front + (fold_out(0u8, 0u8, m1) + seg0 + seq![c]))
                        == opt_append(decode_spec(front), m1 + (seg0 + seq![0u8])));
                }
            } else if r0 + 1 == 134 {
                // the longest run closes with the sentinel control byte
                assert(all_nonzero(seg0n));
                lemma_lits_all_nonzero(seg0);
                assert(out =~= fold_out(0u8, 0u8, m1) + seg0n + seq![0xFFu8]);
                assert(m.take(m.len() as int) =~= m);
                assert(m.skip(m.len() as int) =~= Seq::<u8>::empty());
                let sn = fold_state(0u8, 0u8, m);
                let pn = m.len() - sn.0 as int;
                assert(m.take(pn) =~= m);
                assert(m.skip(pn) =~= Seq::<u8>::empty());
                assert(lits_of(Seq::<u8>::empty()) =~= Seq::<u8>::empty());
                assert(fold_out(0u8, 0u8, m) =~= fold_out(0u8, 0u8, m.take(pn)) + lits_of(
                    m.skip(pn),
                ));
                lemma_closed_block_decodes(m1, fold_out(0u8, 0u8, m1), seg0n, 0xFF, seg0n);
                assert(m1 + seg0n =~= m);
                assert forall|front: Seq<u8>|
                    #![trigger decode_spec(front + fold_out(0u8, 0u8, m.take(m.len() as int)))]
                    decode_spec(front + fold_out(0u8, 0u8, m.take(m.len() as int))) == opt_append(
                    decode_spec(front),
                    m.take(m.len() as int),
                ) by {
                    assert(decode_spec(front + (fold_out(0u8, 0u8, m1) + seg0n + seq![0xFFu8]))
                        == opt_append(decode_spec(front), m1 + seg0n));
                }
            } else {
                // the long run stays open; `b` joins it
                assert(m.take(p0) =~= m1);
                assert(m.skip(p0) =~= seg0n);
                assert(all_nonzero(seg0n));
                assert(out =~= fold_out(0u8, 0u8, m1) + seg0n);
            }
        }
    }
}

/// Trailing zero bytes the decoder reports beyond the original message: the
/// final flush of an open run cannot distinguish them from message zeros.
pub open spec fn decode_padding(m: Seq<u8>) -> Seq<u8> {
    let run = fold_state(0u8, 0u8, m).0;
    if run == 0 {
        Seq::empty()
    } else if run < 7 {
        zeros_pad((7 - run) as nat)
    } else {
        seq![0u8]
    }
}

/// Decoding any stream that ends in the encoding of `m` first peels off
/// exactly `m` followed by its padding, then decodes what stands before.
pub proof fn lemma_decode_behind(front: Seq<u8>, m: Seq<u8>)
    ensures
        decode_spec(front + encode_spec(m)) == opt_append(
            decode_spec(front),
            m + decode_padding(m),
        ),
{
    lemma_enc_ok(m);
    let s = fold_state(0u8, 0u8, m);
    let run = s.0;
    let zeros = s.1;
    let p = m.len() - run as int;
    let m1 = m.take(p);
    let seg = m.skip(p);
    assert(decode_spec(front + fold_out(0u8, 0u8, m1)) == opt_append(decode_spec(front), m1));
    if run == 0 {
        assert(m1 =~= m);
        assert(front + encode_spec(m) =~= front + fold_out(0u8, 0u8, m1));
        assert(m + decode_padding(m) =~= m);
    } else if run < 7 {
        let c = (zeros | (0xFFu8 << run)) & 0x7F;
        lemma_end_mask_block(zeros, run, seg);
        let lits = lits_of(seg);
        let padded = seg + zeros_pad((7 - run) as nat);
        lemma_peel_block(front + fold_out(0u8, 0u8, m1), lits, c, padded);
        assert(front + encode_spec(m) =~= (front + fold_out(0u8, 0u8, m1)) + lits + seq![c]);
        lemma_opt_append_assoc(decode_spec(front), m1, padded);
        assert(m1 + padded =~= m + decode_padding(m));
    } else {
        let c = ((run - 7) as u8) | 0x80u8;
        lemma_long_control(run);
        lemma_lits_all_nonzero(seg);
        lemma_peel_block(front + fold_out(0u8, 0u8, m1), seg, c, seg + seq![0u8]);
        assert(front + encode_spec(m) =~= (front + fold_out(0u8, 0u8, m1)) + seg + seq![c]);
        lemma_opt_append_assoc(decode_spec(front), m1, seg + seq![0u8]);
        assert(m1 + (seg + seq![0u8]) =~= m + decode_padding(m));
    }
}

/// ROUND TRIP: decoding an encoding succeeds and returns the message itself,
/// followed only by trailing zero padding — at most seven bytes of it.
pub proof fn lemma_round_trip(m: Seq<u8>)
    ensures
        decode_spec(encode_spec(m)) == Some(m + decode_padding(m)),
        decode_padding(m).len() <= 7,
        forall|i: int| 0 <= i < decode_padding(m).len() ==> decode_padding(m)[i] == 0u8,
        (m + decode_padding(m)).take(m.len() as int) == m,
{
    lemma_decode_behind(Seq::empty(), m);
    assert(Seq::<u8>::empty() + encode_spec(m) =~= encode_spec(m));
    assert(Seq::<u8>::empty() + (m + decode_padding(m)) =~= m + decode_padding(m));
    assert((m + decode_padding(m)).take(m.len() as int) =~= m);
}

/// The streamed bytes never include a zero.
proof fn lemma_fold_out_no_zero(m: Seq<u8>)
    ensures
        forall|i: int|
            0 <= i < fold_out(0u8, 0u8, m).len() ==> fold_out(0u8, 0u8, m)[i] != 0u8,
    decreases m.len(),
{
    if m.len() > 0 {
        let m0 = m.drop_last();
        let b = m.last();
        lemma_fold_out_no_zero(m0);
        lemma_enc_ok(m0);
        let s0 = fold_state(0u8, 0u8, m0);
        if s0.0 >= 7 {
            lemma_long_control(s0.0);
        }
        let so = step_out(s0.0, s0.1, b);
        assert forall|i: int|
            0 <= i < fold_out(0u8, 0u8, m).len() implies fold_out(0u8, 0u8, m)[i] != 0u8 by {
            assert(fold_out(0u8, 0u8, m) == fold_out(0u8, 0u8, m0) + so);
            if i >= fold_out(0u8, 0u8, m0).len() {
                assert(so[i - fold_out(0u8, 0u8, m0).len()] != 0u8);
            }
        }
    }
}

/// NO ZERO BYTE: an encoded message never contains a literal `0x00`, so the
/// separator byte is unambiguous on the wire.
pub proof fn lemma_no_zero_in_encoding(m: Seq<u8>)
    ensures
        forall|i: int| 0 <= i < encode_spec(m).len() ==> encode_spec(m)[i] != 0u8,
{
    lemma_fold_out_no_zero(m);
    lemma_enc_ok(m);
    let s = fold_state(0u8, 0u8, m);
    if 1 <= s.0 && s.0 < 7 {
        lemma_end_mask_bits(s.1, s.0);
    }
    if s.0 >= 7 {
        lemma_long_control(s.0);
    }
    assert forall|i: int| 0 <= i < encode_spec(m).len() implies encode_spec(m)[i] != 0u8 by {
        assert(encode_spec(m) == fold_out(0u8, 0u8, m) + end_out(s.0, s.1));
        if i >= fold_out(0u8, 0u8, m).len() {
            assert(end_out(s.0, s.1)[i - fold_out(0u8, 0u8, m).len()] != 0u8);
        }
    }
}

/// ENCODER REUSE: feeding two messages in turn through one encoder — with
/// `end` between them, which resets the state to that of a fresh encoder —
/// appends exactly the two independent encodings.
pub proof fn lemma_encoder_reuse(m1: Seq<u8>, m2: Seq<u8>)
    ensures
        ({
            let s1 = fold_state(0u8, 0u8, m1);
            let s2 = fold_state(0u8, 0u8, m2);
            fold_out(0u8, 0u8, m1) + end_out(s1.0, s1.1) + (fold_out(0u8, 0u8, m2) + end_out(
                s2.0,
                s2.1,
            )) == encode_spec(m1) + encode_spec(m2)
        }),
{
    let s1 = fold_state(0u8, 0u8, m1);
    let s2 = fold_state(0u8, 0u8, m2);
    assert(fold_out(0u8, 0u8, m1) + end_out(s1.0, s1.1) + (fold_out(0u8, 0u8, m2) + end_out(
        s2.0,
        s2.1,
    )) =~= encode_spec(m1) + encode_spec(m2));
}

/// SEPARATOR REJECTED: a `0x00` byte is never accepted as a control byte, so
/// any stream holding a separator followed by a complete encoded message is
/// malformed as a whole.
pub proof fn lemma_separator_rejected(front: Seq<u8>, m: Seq<u8>)
    ensures
        decode_spec(front + seq![0u8] + encode_spec(m)) is None,
{
    lemma_decode_behind(front + seq![0u8], m);
    assert(front + seq![0u8] + encode_spec(m) =~= (front + seq![0u8]) + encode_spec(m));
    assert((front + seq![0u8]).last() == 0u8);
    assert(decode_spec(front + seq![0u8]) is None);
}

} // verus!
