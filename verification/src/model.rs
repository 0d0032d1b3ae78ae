//! Mathematical model of the codec.
//!
//! The wire format, read in reverse, is a sequence of blocks, each ending in a
//! control byte:
//!   - `0x00`: never valid inside a message (reserved for the separator);
//!   - `0x01..=0x7F`: a bitmask describing seven message bytes; bit `i` set
//!     means byte `i` of the run was `0x00`, bit `i` clear means the byte was
//!     written literally before the control byte;
//!   - `0x80..=0xFE`: `(control & 0x7F) + 7` literal bytes followed by one
//!     implicit `0x00`;
//!   - `0xFF`: exactly 134 literal bytes with no implicit zero.
//!
//! The encoder is a fold over the message with two bytes of state, `run` and
//! `zeros`; the spec functions here mirror it step by step.

use vstd::prelude::*;

verus! {

/// True when bit `i` of `c` is set.
pub open spec fn bit_set(c: u8, i: u8) -> bool {
    c & (1u8 << i) != 0
}

/// Number of clear bits among the low `i` bits of `c`: how many of the first
/// `i` positions of a bitmask block carry a literal byte.
pub open spec fn clear_below(c: u8, i: int) -> nat
    decreases i,
{
    if i <= 0 {
        0
    } else {
        clear_below(c, i - 1) + if bit_set(c, (i - 1) as u8) {
            0nat
        } else {
            1nat
        }
    }
}

/// The seven message bytes described by the bitmask control byte `c`, given
/// the literal bytes `lits` that precede it on the wire.
pub open spec fn block_of(c: u8, lits: Seq<u8>) -> Seq<u8> {
    Seq::new(7, |j: int| if bit_set(c, j as u8) { 0u8 } else { lits[clear_below(c, j) as int] })
}

/// The literal bytes the encoder emits for an open short run `seg`: its
/// non-zero bytes, in order.
pub open spec fn lits_of(seg: Seq<u8>) -> Seq<u8>
    decreases seg.len(),
{
    if seg.len() == 0 {
        Seq::empty()
    } else if seg.last() == 0 {
        lits_of(seg.drop_last())
    } else {
        lits_of(seg.drop_last()).push(seg.last())
    }
}

/// The `zeros` bitmask agrees with the open short run `seg`: bit `i` is set
/// exactly when byte `i` of the run was zero.
pub open spec fn mask_matches(zeros: u8, seg: Seq<u8>) -> bool {
    forall|i: int| 0 <= i < seg.len() ==> (bit_set(zeros, i as u8) <==> seg[i] == 0u8)
}

/// Every byte of `seg` is non-zero.
pub open spec fn all_nonzero(seg: Seq<u8>) -> bool {
    forall|i: int| 0 <= i < seg.len() ==> seg[i] != 0u8
}

/// Well-formed encoder state: `run` stays below 134, and `zeros` is used only
/// in short-run mode, with bits only at positions below `run`.
pub open spec fn wf_state(run: u8, zeros: u8) -> bool {
    &&& run < 134
    &&& (run >= 7 ==> zeros == 0)
    &&& (run < 7 ==> zeros >> run == 0)
}

/// Encoder state after one more message byte.
pub open spec fn step_state(run: u8, zeros: u8, byte: u8) -> (u8, u8) {
    if run < 7 {
        let z = if byte == 0 {
            zeros | (1u8 << run)
        } else {
            zeros
        };
        if run + 1 == 7 && z != 0 {
            (0u8, 0u8)
        } else {
            ((run + 1) as u8, z)
        }
    } else if byte == 0 {
        (0u8, 0u8)
    } else if run + 1 == 134 {
        (0u8, 0u8)
    } else {
        ((run + 1) as u8, zeros)
    }
}

/// Bytes the encoder hands to its sink for one more message byte.
pub open spec fn step_out(run: u8, zeros: u8, byte: u8) -> Seq<u8> {
    if run < 7 {
        let z = if byte == 0 {
            zeros | (1u8 << run)
        } else {
            zeros
        };
        let lit: Seq<u8> = if byte == 0 {
            Seq::empty()
        } else {
            seq![byte]
        };
        if run + 1 == 7 && z != 0 {
            lit.push(z)
        } else {
            lit
        }
    } else if byte == 0 {
        seq![(((run - 7) as u8) | 0x80u8)]
    } else if run + 1 == 134 {
        seq![byte, 0xFFu8]
    } else {
        seq![byte]
    }
}

/// Encoder state after feeding every byte of `m`, starting from (`run`, `zeros`).
pub open spec fn fold_state(run: u8, zeros: u8, m: Seq<u8>) -> (u8, u8)
    decreases m.len(),
{
    if m.len() == 0 {
        (run, zeros)
    } else {
        let s = fold_state(run, zeros, m.drop_last());
        step_state(s.0, s.1, m.last())
    }
}

/// Bytes the encoder hands to its sink while feeding every byte of `m`,
/// starting from (`run`, `zeros`).
pub open spec fn fold_out(run: u8, zeros: u8, m: Seq<u8>) -> Seq<u8>
    decreases m.len(),
{
    if m.len() == 0 {
        Seq::empty()
    } else {
        let s = fold_state(run, zeros, m.drop_last());
        fold_out(run, zeros, m.drop_last()) + step_out(s.0, s.1, m.last())
    }
}

/// Bytes `end` hands to the sink to flush an open run in state (`run`, `zeros`).
pub open spec fn end_out(run: u8, zeros: u8) -> Seq<u8> {
    if run == 0 {
        Seq::empty()
    } else if run < 7 {
        seq![((zeros | (0xFFu8 << run)) & 0x7Fu8)]
    } else {
        seq![(((run - 7) as u8) | 0x80u8)]
    }
}

/// The complete encoding of message `m`: the streamed bytes followed by the
/// final flush.
pub open spec fn encode_spec(m: Seq<u8>) -> Seq<u8> {
    let s = fold_state(0u8, 0u8, m);
    fold_out(0u8, 0u8, m) + end_out(s.0, s.1)
}

/// Appends `s` to the payload of `o`, propagating failure.
pub open spec fn opt_append(o: Option<Seq<u8>>, s: Seq<u8>) -> Option<Seq<u8>> {
    match o {
        None => None,
        Some(p) => Some(p + s),
    }
}

/// Decodes a complete encoded message, or `None` if it is malformed.
///
/// The last byte of `data` is a control byte; its block's literal bytes sit
/// just before it. Each block decodes to the message bytes it describes,
/// appended after the decoding of the rest of the stream.
pub open spec fn decode_spec(data: Seq<u8>) -> Option<Seq<u8>>
    decreases data.len(),
{
    if data.len() == 0 {
        Some(Seq::empty())
    } else {
        let c = data.last();
        let avail = data.len() - 1;
        if c == 0 {
            None
        } else if c <= 0x7F {
            let k = clear_below(c, 7);
            if avail < k {
                None
            } else {
                let rest = data.subrange(0, avail - k);
                let lits = data.subrange(avail - k, avail);
                opt_append(decode_spec(rest), block_of(c, lits))
            }
        } else if c <= 0xFE {
            let n = (c - 0x80) + 7;
            if avail < n {
                None
            } else {
                let rest = data.subrange(0, avail - n);
                let lits = data.subrange(avail - n, avail);
                opt_append(decode_spec(rest), lits + seq![0u8])
            }
        } else {
            if avail < 134 {
                None
            } else {
                let rest = data.subrange(0, avail - 134);
                let lits = data.subrange(avail - 134, avail);
                opt_append(decode_spec(rest), lits)
            }
        }
    }
}

/// `clear_below` grows by at most one per position.
pub proof fn lemma_clear_below_mono(c: u8, i: int, j: int)
    requires
        i <= j,
    ensures
        clear_below(c, i) <= clear_below(c, j),
        clear_below(c, j) - clear_below(c, i) <= j - i,
    decreases j - i,
{
    if i < j {
        lemma_clear_below_mono(c, i, j - 1);
    }
}

/// Appending nothing to a decoding leaves it unchanged.
pub proof fn lemma_opt_append_empty(o: Option<Seq<u8>>)
    ensures
        opt_append(o, Seq::empty()) == o,
{
    match o {
        None => {},
        Some(p) => {
            assert(p + Seq::<u8>::empty() =~= p);
        },
    }
}

/// Appending twice is appending the concatenation.
pub proof fn lemma_opt_append_assoc(o: Option<Seq<u8>>, a: Seq<u8>, b: Seq<u8>)
    ensures
        opt_append(opt_append(o, a), b) == opt_append(o, a + b),
{
    match o {
        None => {},
        Some(p) => {
            assert((p + a) + b =~= p + (a + b));
        },
    }
}

/// Reversing after a push puts the new element first.
pub proof fn lemma_reverse_push(s: Seq<u8>, v: u8)
    ensures
        s.push(v).reverse() == seq![v] + s.reverse(),
{
    assert(s.push(v).reverse() =~= seq![v] + s.reverse());
}

} // verus!
