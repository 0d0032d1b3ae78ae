//! Decoding of complete encoded messages.
//!
//! The encoded stream is consumed from its last byte to its first: each
//! control byte describes the run of message bytes whose literals sit just
//! before it. The output is accumulated in reverse and flipped at the end.

use vstd::prelude::*;

use crate::model::{
    block_of, clear_below, decode_spec, lemma_clear_below_mono, lemma_opt_append_assoc,
    lemma_opt_append_empty, lemma_reverse_push, opt_append,
};

verus! {

/// Error indicating the decoded data was malformed.
#[derive(Debug, Clone, Copy, PartialEq, Eq, Structural)]
pub struct MalformedError;

/// Error returned by [`decode_to_slice`].
#[derive(Debug, Clone, Copy, PartialEq, Eq, Structural)]
pub enum DecodeError {
    /// The input is not a well-formed encoded message.
    MalformedError,
    /// The destination buffer is too small for the decoded message.
    BufferOverflow,
}

/// Number of clear bits among the low seven bits of `x`: how many literal
/// bytes a bitmask control byte consumes.
fn clear_count(x: u8) -> (k: usize)
    ensures
        k == clear_below(x, 7),
{
    let mut k: usize = 0;
    let mut j: usize = 0;
    while j < 7
        invariant
            j <= 7,
            k == clear_below(x, j as int),
        decreases 7 - j,
    {
        let jb: u8 = j as u8;
        if x & (1u8 << jb) == 0 {
            proof {
                lemma_clear_below_mono(x, 0, j as int);
            }
            k = k + 1;
        }
        j = j + 1;
    }
    k
}

/// For a long-run control byte the low seven bits carry the literal count.
proof fn lemma_long_mask(x: u8)
    by (bit_vector)
    requires
        0x80 <= x,
    ensures
        x & 0x7F == x - 0x80,
{
}

/// Decode a full message.
///
/// `data` must be a full encoded message; partial messages cannot be decoded.
/// `data` must NOT include any `0x00` separator byte.
///
/// Returns the decoded message exactly when `data` is well formed, and
/// [`MalformedError`] otherwise.
pub fn decode(data: &[u8]) -> (r: Result<Vec<u8>, MalformedError>)
    ensures
        match r {
            Ok(out) => decode_spec(data@) == Some(out@),
            Err(_) => decode_spec(data@) is None,
        },
{
    let mut rev: Vec<u8> = Vec::new();
    let mut i: usize = data.len();
    proof {
        assert(data@.take(i as int) =~= data@);
        lemma_opt_append_empty(decode_spec(data@));
    }
    while i > 0
        invariant
            i <= data.len(),
            decode_spec(data@) == opt_append(
                decode_spec(data@.take(i as int)),
                rev@.reverse(),
            ),
        decreases i,
    {
        let x = data[i - 1];
        let ghost cur = data@.take(i as int);
        let ghost fout0 = rev@.reverse();
        proof {
            assert(cur.last() == x);
            assert(cur.drop_last() =~= data@.take(i as int - 1));
        }
        i = i - 1;
        if x == 0 {
            return Err(MalformedError);
        } else if x <= 0x7F {
            let k = clear_count(x);
            proof {
                lemma_clear_below_mono(x, 0, 7);
            }
            if i < k {
                return Err(MalformedError);
            }
            let ghost base = i as int;
            let ghost lits = data@.subrange(base - k as int, base);
            let ghost bl = block_of(x, lits);
            proof {
                assert(cur.subrange(0, base - k as int) =~= data@.take(base - k as int));
                assert(cur.subrange(base - k as int, base) =~= lits);
                lemma_opt_append_assoc(decode_spec(data@.take(base - k as int)), bl, fout0);
                assert(bl.skip(7) =~= Seq::<u8>::empty());
            }
            let mut idx: usize = 0;
            while idx < 7
                invariant
                    idx <= 7,
                    k == clear_below(x, 7),
                    k <= 7,
                    0 <= base - k as int,
                    base <= data@.len(),
                    lits == data@.subrange(base - k as int, base),
                    bl == block_of(x, lits),
                    i as int == base - k as int + clear_below(x, 7 - idx as int),
                    rev@.reverse() == bl.skip(7 - idx as int) + fout0,
                decreases 7 - idx,
            {
                let ghost j = 6 - idx as int;
                proof {
                    lemma_clear_below_mono(x, 0, j);
                    lemma_clear_below_mono(x, j + 1, 7);
                }
                let jb: u8 = (6 - idx) as u8;
                let ghost prev = rev@;
                if x & (1u8 << jb) == 0 {
                    let v = data[i - 1];
                    i = i - 1;
                    rev.push(v);
                    proof {
                        assert(v == lits[clear_below(x, j) as int]);
                        assert(bl[j] == v);
                        lemma_reverse_push(prev, v);
                        assert(bl.skip(7 - (idx + 1) as int) =~= seq![bl[j]] + bl.skip(
                            7 - idx as int,
                        ));
                    }
                } else {
                    rev.push(0);
                    proof {
                        assert(bl[j] == 0u8);
                        lemma_reverse_push(prev, 0);
                        assert(bl.skip(7 - (idx + 1) as int) =~= seq![bl[j]] + bl.skip(
                            7 - idx as int,
                        ));
                    }
                }
                idx = idx + 1;
            }
            proof {
                assert(bl.skip(0) =~= bl);
            }
        } else if x <= 0xFE {
            let n = ((x & 0x7F) as usize) + 7;
            proof {
                lemma_long_mask(x);
            }
            if i < n {
                return Err(MalformedError);
            }
            let ghost base = i as int;
            let ghost lits = data@.subrange(base - n as int, base);
            let ghost bl = lits + seq![0u8];
            proof {
                assert(cur.subrange(0, base - n as int) =~= data@.take(base - n as int));
                assert(cur.subrange(base - n as int, base) =~= lits);
                lemma_opt_append_assoc(decode_spec(data@.take(base - n as int)), bl, fout0);
            }
            let ghost prev = rev@;
            rev.push(0);
            proof {
                lemma_reverse_push(prev, 0);
                assert(bl.skip(n as int) =~= seq![0u8]);
            }
            let mut t: usize = 0;
            while t < n
                invariant
                    t <= n,
                    n == lits.len(),
                    0 <= base - n as int,
                    base <= data@.len(),
                    lits == data@.subrange(base - n as int, base),
                    bl == lits + seq![0u8],
                    i as int == base - t,
                    rev@.reverse() == bl.skip(n - t as int) + fout0,
                decreases n - t,
            {
                let v = data[i - 1];
                i = i - 1;
                let ghost prev = rev@;
                rev.push(v);
                proof {
                    assert(v == lits[n - 1 - t as int]);
                    assert(bl[n - 1 - t as int] == v);
                    lemma_reverse_push(prev, v);
                    assert(bl.skip(n - (t + 1) as int) =~= seq![bl[n - 1 - t as int]] + bl.skip(
                        n - t as int,
                    ));
                }
                t = t + 1;
            }
            proof {
                assert(bl.skip(0) =~= bl);
            }
        } else {
            let n: usize = 134;
            if i < n {
                return Err(MalformedError);
            }
            let ghost base = i as int;
            let ghost lits = data@.subrange(base - n as int, base);
            let ghost bl = lits;
            proof {
                assert(cur.subrange(0, base - n as int) =~= data@.take(base - n as int));
                assert(cur.subrange(base - n as int, base) =~= lits);
                lemma_opt_append_assoc(decode_spec(data@.take(base - n as int)), bl, fout0);
                assert(bl.skip(n as int) =~= Seq::<u8>::empty());
            }
            let mut t: usize = 0;
            while t < n
                invariant
                    t <= n,
                    n == 134,
                    n == lits.len(),
                    0 <= base - n as int,
                    base <= data@.len(),
                    lits == data@.subrange(base - n as int, base),
                    bl == lits,
                    i as int == base - t,
                    rev@.reverse() == bl.skip(n - t as int) + fout0,
                decreases n - t,
            {
                let v = data[i - 1];
                i = i - 1;
                let ghost prev = rev@;
                rev.push(v);
                proof {
                    assert(v == lits[n - 1 - t as int]);
                    assert(bl[n - 1 - t as int] == v);
                    lemma_reverse_push(prev, v);
                    assert(bl.skip(n - (t + 1) as int) =~= seq![bl[n - 1 - t as int]] + bl.skip(
                        n - t as int,
                    ));
                }
                t = t + 1;
            }
            proof {
                assert(bl.skip(0) =~= bl);
            }
        }
    }
    proof {
        assert(data@.take(0) =~= Seq::<u8>::empty());
    }
    let mut out: Vec<u8> = Vec::new();
    let mut j: usize = rev.len();
    while j > 0
        invariant
            j <= rev@.len(),
            out@.len() == rev@.len() - j,
            forall|t: int| 0 <= t < out@.len() ==> out@[t] == rev@[rev@.len() - 1 - t],
        decreases j,
    {
        j = j - 1;
        let v = rev[j];
        out.push(v);
    }
    proof {
        assert(out@ =~= rev@.reverse());
    }
    Ok(out)
}

/// Decode a full message into a caller-supplied buffer.
///
/// `data` must be a full encoded message; partial messages cannot be decoded.
/// `data` must NOT include any `0x00` separator byte.
///
/// On success, the decoded message occupies `res[..n]` for the returned
/// length `n` and the rest of `res` is untouched. A well-formed message that
/// does not fit in `res` is reported as [`DecodeError::BufferOverflow`]; a
/// malformed message is reported as [`DecodeError::MalformedError`]. When the
/// input is malformed *and* the buffer runs out, either error may be
/// returned. After an error the contents of `res` are unspecified.
pub fn decode_to_slice(data: &[u8], res: &mut [u8]) -> (r: Result<usize, DecodeError>)
    ensures
        final(res).len() == old(res).len(),
        (decode_spec(data@) matches Some(out) && out.len() <= old(res).len()) ==> r is Ok,
        match r {
            Ok(n) => {
                &&& n <= final(res).len()
                &&& decode_spec(data@) == Some(final(res)@.take(n as int))
                &&& final(res)@.skip(n as int) == old(res)@.skip(n as int)
            },
            Err(e) => {
                &&& (e == DecodeError::MalformedError ==> decode_spec(data@) is None)
                &&& (e == DecodeError::BufferOverflow ==> (decode_spec(data@) matches Some(out)
                    ==> out.len() > old(res).len()))
            },
        },
{
    let mut len: usize = 0;
    let mut i: usize = data.len();
    proof {
        assert(data@.take(i as int) =~= data@);
        assert(res@.take(0) =~= Seq::<u8>::empty());
        lemma_opt_append_empty(decode_spec(data@));
    }
    while i > 0
        invariant
            i <= data.len(),
            len <= res@.len(),
            res@.len() == old(res)@.len(),
            decode_spec(data@) == opt_append(
                decode_spec(data@.take(i as int)),
                res@.take(len as int).reverse(),
            ),
            forall|t: int| len <= t < res@.len() ==> res@[t] == old(res)@[t],
        decreases i,
    {
        let x = data[i - 1];
        let ghost cur = data@.take(i as int);
        let ghost fout0 = res@.take(len as int).reverse();
        proof {
            assert(cur.last() == x);
            assert(cur.drop_last() =~= data@.take(i as int - 1));
        }
        i = i - 1;
        if x == 0 {
            return Err(DecodeError::MalformedError);
        } else if x <= 0x7F {
            let k = clear_count(x);
            proof {
                lemma_clear_below_mono(x, 0, 7);
            }
            if i < k {
                return Err(DecodeError::MalformedError);
            }
            let ghost base = i as int;
            let ghost lits = data@.subrange(base - k as int, base);
            let ghost bl = block_of(x, lits);
            proof {
                assert(cur.subrange(0, base - k as int) =~= data@.take(base - k as int));
                assert(cur.subrange(base - k as int, base) =~= lits);
                lemma_opt_append_assoc(decode_spec(data@.take(base - k as int)), bl, fout0);
                assert(bl.skip(7) =~= Seq::<u8>::empty());
            }
            let mut idx: usize = 0;
            while idx < 7
                invariant
                    idx <= 7,
                    k == clear_below(x, 7),
                    k <= 7,
                    0 <= base - k as int,
                    base <= data@.len(),
                    lits == data@.subrange(base - k as int, base),
                    bl == block_of(x, lits),
                    i as int == base - k as int + clear_below(x, 7 - idx as int),
                    len <= res@.len(),
                    res@.len() == old(res)@.len(),
                    res@.take(len as int).reverse() == bl.skip(7 - idx as int) + fout0,
                    decode_spec(data@) == opt_append(
                        decode_spec(data@.take(base - k as int)),
                        bl + fout0,
                    ),
                    forall|t: int| len <= t < res@.len() ==> res@[t] == old(res)@[t],
                decreases 7 - idx,
            {
                let ghost j = 6 - idx as int;
                proof {
                    lemma_clear_below_mono(x, 0, j);
                    lemma_clear_below_mono(x, j + 1, 7);
                }
                if len >= res.len() {
                    proof {
                        let front = decode_spec(data@.take(base - k as int));
                        match decode_spec(data@) {
                            Some(out) => {
                                assert(front is Some);
                                assert(out == front.unwrap() + (bl + fout0));
                                assert(res@.take(len as int).reverse().len() == len as int);
                                assert(out.len() > res@.len());
                            },
                            None => {},
                        }
                    }
                    return Err(DecodeError::BufferOverflow);
                }
                let ghost prev = res@.take(len as int);
                let jb: u8 = (6 - idx) as u8;
                let v: u8;
                if x & (1u8 << jb) == 0 {
                    v = data[i - 1];
                    i = i - 1;
                    proof {
                        assert(v == lits[clear_below(x, j) as int]);
                        assert(bl[j] == v);
                    }
                } else {
                    v = 0;
                    proof {
                        assert(bl[j] == 0u8);
                    }
                }
                res[len] = v;
                len = len + 1;
                proof {
                    assert(res@.take(len as int) =~= prev.push(v));
                    lemma_reverse_push(prev, v);
                    assert(bl.skip(7 - (idx + 1) as int) =~= seq![bl[j]] + bl.skip(7 - idx as int));
                }
                idx = idx + 1;
            }
            proof {
                assert(bl.skip(0) =~= bl);
            }
        } else if x <= 0xFE {
            let n = ((x & 0x7F) as usize) + 7;
            proof {
                lemma_long_mask(x);
            }
            if i < n {
                return Err(DecodeError::MalformedError);
            }
            let ghost base = i as int;
            let ghost lits = data@.subrange(base - n as int, base);
            let ghost bl = lits + seq![0u8];
            proof {
                assert(cur.subrange(0, base - n as int) =~= data@.take(base - n as int));
                assert(cur.subrange(base - n as int, base) =~= lits);
                lemma_opt_append_assoc(decode_spec(data@.take(base - n as int)), bl, fout0);
            }
            if len >= res.len() {
                proof {
                    let front = decode_spec(data@.take(base - n as int));
                    match decode_spec(data@) {
                        Some(out) => {
                            assert(front is Some);
                            assert(out == front.unwrap() + (bl + fout0));
                            assert(res@.take(len as int).reverse().len() == len as int);
                            assert(out.len() > res@.len());
                        },
                        None => {},
                    }
                }
                return Err(DecodeError::BufferOverflow);
            }
            let ghost prev = res@.take(len as int);
            res[len] = 0;
            len = len + 1;
            proof {
                assert(res@.take(len as int) =~= prev.push(0u8));
                lemma_reverse_push(prev, 0);
                assert(bl.skip(n as int) =~= seq![0u8]);
            }
            let mut t: usize = 0;
            while t < n
                invariant
                    t <= n,
                    n == lits.len(),
                    0 <= base - n as int,
                    base <= data@.len(),
                    lits == data@.subrange(base - n as int, base),
                    bl == lits + seq![0u8],
                    i as int == base - t,
                    len <= res@.len(),
                    res@.len() == old(res)@.len(),
                    res@.take(len as int).reverse() == bl.skip(n - t as int) + fout0,
                    decode_spec(data@) == opt_append(
                        decode_spec(data@.take(base - n as int)),
                        bl + fout0,
                    ),
                    forall|tt: int| len <= tt < res@.len() ==> res@[tt] == old(res)@[tt],
                decreases n - t,
            {
                if len >= res.len() {
                    proof {
                        let front = decode_spec(data@.take(base - n as int));
                        match decode_spec(data@) {
                            Some(out) => {
                                assert(front is Some);
                                assert(out == front.unwrap() + (bl + fout0));
                                assert(res@.take(len as int).reverse().len() == len as int);
                                assert(out.len() > res@.len());
                            },
                            None => {},
                        }
                    }
                    return Err(DecodeError::BufferOverflow);
                }
                let v = data[i - 1];
                i = i - 1;
                let ghost prev = res@.take(len as int);
                res[len] = v;
                len = len + 1;
                proof {
                    assert(v == lits[n - 1 - t as int]);
                    assert(bl[n - 1 - t as int] == v);
                    assert(res@.take(len as int) =~= prev.push(v));
                    lemma_reverse_push(prev, v);
                    assert(bl.skip(n - (t + 1) as int) =~= seq![bl[n - 1 - t as int]] + bl.skip(
                        n - t as int,
                    ));
                }
                t = t + 1;
            }
            proof {
                assert(bl.skip(0) =~= bl);
            }
        } else {
            let n: usize = 134;
            if i < n {
                return Err(DecodeError::MalformedError);
            }
            let ghost base = i as int;
            let ghost lits = data@.subrange(base - n as int, base);
            let ghost bl = lits;
            proof {
                assert(cur.subrange(0, base - n as int) =~= data@.take(base - n as int));
                assert(cur.subrange(base - n as int, base) =~= lits);
                lemma_opt_append_assoc(decode_spec(data@.take(base - n as int)), bl, fout0);
                assert(bl.skip(n as int) =~= Seq::<u8>::empty());
            }
            let mut t: usize = 0;
            while t < n
                invariant
                    t <= n,
                    n == 134,
                    n == lits.len(),
                    0 <= base - n as int,
                    base <= data@.len(),
                    lits == data@.subrange(base - n as int, base),
                    bl == lits,
                    i as int == base - t,
                    len <= res@.len(),
                    res@.len() == old(res)@.len(),
                    res@.take(len as int).reverse() == bl.skip(n - t as int) + fout0,
                    decode_spec(data@) == opt_append(
                        decode_spec(data@.take(base - n as int)),
                        bl + fout0,
                    ),
                    forall|tt: int| len <= tt < res@.len() ==> res@[tt] == old(res)@[tt],
                decreases n - t,
            {
                if len >= res.len() {
                    proof {
                        let front = decode_spec(data@.take(base - n as int));
                        match decode_spec(data@) {
                            Some(out) => {
                                assert(front is Some);
                                assert(out == front.unwrap() + (bl + fout0));
                                assert(res@.take(len as int).reverse().len() == len as int);
                                assert(out.len() > res@.len());
                            },
                            None => {},
                        }
                    }
                    return Err(DecodeError::BufferOverflow);
                }
                let v = data[i - 1];
                i = i - 1;
                let ghost prev = res@.take(len as int);
                res[len] = v;
                len = len + 1;
                proof {
                    assert(v == lits[n - 1 - t as int]);
                    assert(bl[n - 1 - t as int] == v);
                    assert(res@.take(len as int) =~= prev.push(v));
                    lemma_reverse_push(prev, v);
                    assert(bl.skip(n - (t + 1) as int) =~= seq![bl[n - 1 - t as int]] + bl.skip(
                        n - t as int,
                    ));
                }
                t = t + 1;
            }
            proof {
                assert(bl.skip(0) =~= bl);
            }
        }
    }
    proof {
        assert(data@.take(0) =~= Seq::<u8>::empty());
    }
    let ghost wr = res@;
    if len > 0 {
        let mut a: usize = 0;
        let mut b: usize = len - 1;
        while a < b
            invariant
                a + b == len - 1,
                a < len,
                b < len,
                len <= res@.len(),
                res@.len() == old(res)@.len(),
                forall|t: int| 0 <= t < a ==> res@[t] == wr[len - 1 - t],
                forall|t: int| b < t < len ==> res@[t] == wr[len - 1 - t],
                forall|t: int| a <= t <= b ==> res@[t] == wr[t],
                forall|t: int| len <= t < res@.len() ==> res@[t] == old(res)@[t],
            decreases b,
        {
            let va = res[a];
            let vb = res[b];
            res[a] = vb;
            res[b] = va;
            a = a + 1;
            b = b - 1;
        }
    }
    proof {
        assert(res@.take(len as int) =~= wr.take(len as int).reverse());
        assert(res@.skip(len as int) =~= old(res)@.skip(len as int));
    }
    Ok(len)
}

} // verus!
