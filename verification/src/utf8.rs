//! A minimal UTF-8 scalar-value decoder over an in-memory byte cursor.
//!
//! The decoder reads the leading byte, derives the encoded length from
//! its high bits, reads that many continuation bytes and assembles the
//! scalar.  It checks only the lead and continuation bit patterns: no
//! normalisation, no surrogate or overlong rejection.  On failure it
//! consumes exactly the bytes read before failing, with no rollback.

use vstd::prelude::*;

verus! {

/// Whether `b` is a UTF-8 continuation byte (`10xxxxxx`).
pub open spec fn is_cont_byte(b: u8) -> bool {
    b & 0xc0 == 0x80
}

/// The payload bits of a continuation byte.
pub open spec fn cont_val(b: u8) -> u32 {
    (b & 0x3f) as u32
}

/// The number of continuation bytes announced by a leading byte, or
/// `None` if the byte matches no recognised lead pattern.
pub open spec fn cont_count_of_lead(b: u8) -> Option<nat> {
    if b & 0x80 == 0 {
        Some(0)
    } else if b & 0xe0 == 0xc0 {
        Some(1)
    } else if b & 0xf0 == 0xe0 {
        Some(2)
    } else if b & 0xf8 == 0xf0 {
        Some(3)
    } else {
        None
    }
}

/// The mask that keeps the payload bits of a leading byte, by the
/// number of continuation bytes.
pub open spec fn lead_mask(k: nat) -> u8 {
    if k == 0 {
        0x7f
    } else if k == 1 {
        0x1f
    } else if k == 2 {
        0x0f
    } else {
        0x07
    }
}

/// Folds continuation bytes into the accumulated scalar, six payload
/// bits at a time.
pub open spec fn assemble_from(acc: u32, conts: Seq<u8>) -> u32
    decreases conts.len(),
{
    if conts.len() == 0 {
        acc
    } else {
        assemble_from((acc << 6) | cont_val(conts[0]), conts.drop_first())
    }
}

proof fn lemma_assemble_push(acc: u32, s: Seq<u8>, b: u8)
    ensures
        assemble_from(acc, s.push(b)) == (assemble_from(acc, s) << 6) | cont_val(b),
    decreases s.len(),
{
    if s.len() == 0 {
        assert(s.push(b)[0] == b);
        assert(s.push(b).drop_first() =~= Seq::<u8>::empty());
        assert(assemble_from(acc, s.push(b)) == assemble_from(
            (acc << 6) | cont_val(b),
            Seq::<u8>::empty(),
        ));
        assert(assemble_from(acc, s) == acc);
    } else {
        assert(s.push(b)[0] == s[0]);
        assert(s.push(b).drop_first() =~= s.drop_first().push(b));
        assert(assemble_from(acc, s.push(b)) == assemble_from(
            (acc << 6) | cont_val(s[0]),
            s.drop_first().push(b),
        ));
        lemma_assemble_push((acc << 6) | cont_val(s[0]), s.drop_first(), b);
        assert(assemble_from(acc, s) == assemble_from((acc << 6) | cont_val(s[0]), s.drop_first()));
    }
}

/// What one decoding step yields on `data` at cursor `pos`: the decoded
/// scalar (or `None` on a malformed or truncated sequence) and the new
/// cursor.  Exactly the bytes of the one sequence are consumed; a short
/// read consumes whatever was left.
pub open spec fn decode_step(data: Seq<u8>, pos: int) -> (Option<u32>, int) {
    if pos >= data.len() {
        (None, pos)
    } else {
        let b0 = data[pos];
        match cont_count_of_lead(b0) {
            None => (None, pos + 1),
            Some(k) => if k == 0 {
                (Some(b0 as u32), pos + 1)
            } else if pos + 1 + k > data.len() {
                (None, data.len() as int)
            } else {
                let conts = data.subrange(pos + 1, pos + 1 + k);
                if forall|j: int| 0 <= j < conts.len() ==> is_cont_byte(#[trigger] conts[j]) {
                    (
                        Some(assemble_from((b0 & lead_mask(k)) as u32, conts)),
                        pos + 1 + k,
                    )
                } else {
                    (None, pos + 1 + k)
                }
            },
        }
    }
}

/// Decodes one Unicode scalar value from `data` at `*pos`, advancing
/// the cursor over the bytes consumed.  Returns `None` when the lead
/// byte matches no pattern, a continuation byte fails its check, or the
/// data ends mid-sequence.
pub fn read_codepoint(data: &[u8], pos: &mut usize) -> (r: Option<u32>)
    requires
        *old(pos) <= data@.len(),
    ensures
        ({
            let (v, np) = decode_step(data@, *old(pos) as int);
            r == v && *final(pos) == np && *final(pos) <= data@.len()
        }),
{
    if *pos >= data.len() {
        return None;
    }
    let p0 = *pos;
    let b0 = data[p0];
    *pos = p0 + 1;
    let k: usize = if b0 & 0x80 == 0 {
        0
    } else if b0 & 0xe0 == 0xc0 {
        1
    } else if b0 & 0xf0 == 0xe0 {
        2
    } else if b0 & 0xf8 == 0xf0 {
        3
    } else {
        return None;
    };
    if k == 0 {
        return Some(b0 as u32);
    }
    if k > data.len() - *pos {
        *pos = data.len();
        return None;
    }
    let base: u32 = (b0 & (if k == 1 {
        0x1fu8
    } else if k == 2 {
        0x0fu8
    } else {
        0x07u8
    })) as u32;
    let ghost conts = data@.subrange(p0 + 1int, p0 + 1 + k as int);
    let mut acc: u32 = base;
    let mut ok: bool = true;
    let mut j: usize = 0;
    assert(conts.take(0) =~= Seq::<u8>::empty());
    while j < k
        invariant
            0 < k <= 3,
            p0 + 1 + k <= data@.len(),
            conts == data@.subrange(p0 + 1int, p0 + 1 + k as int),
            j <= k,
            *pos == p0 + 1 + j,
            acc == assemble_from(base, conts.take(j as int)),
            ok <==> (forall|i: int| 0 <= i < j ==> is_cont_byte(#[trigger] conts[i])),
        decreases k - j,
    {
        let b = data[*pos];
        proof {
            assert(conts[j as int] == b);
            assert(conts.take(j + 1int) =~= conts.take(j as int).push(b));
            lemma_assemble_push(base, conts.take(j as int), b);
        }
        *pos = *pos + 1;
        if b & 0xc0 != 0x80 {
            ok = false;
        }
        acc = (acc << 6) | ((b & 0x3f) as u32);
        j = j + 1;
    }
    assert(conts.take(k as int) =~= conts);
    if ok {
        Some(acc)
    } else {
        None
    }
}

} // verus!
