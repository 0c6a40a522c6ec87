//! The MQTT remaining-length codec: a variable-length integer of one to four
//! bytes, each byte carrying a 7-bit group (low-order first) and a
//! continuation bit.

use vstd::prelude::*;

verus! {

/// Largest value a remaining-length field can carry: four 7-bit groups.
pub const MAX_REMAINING_LENGTH: usize = 268435455;

/// The 7-bit groups of `n`, low-order first, with the continuation bit set
/// on every group but the last.  The field is never empty: zero encodes as
/// the single byte `0x00`.
pub open spec fn remaining_length_bytes(n: nat) -> Seq<u8>
    decreases n,
{
    if n < 128 {
        seq![n as u8]
    } else {
        seq![(n % 128 + 128) as u8] + remaining_length_bytes(n / 128)
    }
}

/// The value of a buffer of 7-bit groups, low-order first; continuation bits
/// are ignored, since every byte of the buffer belongs to the field.
pub open spec fn remaining_length_value(s: Seq<u8>) -> nat
    decreases s.len(),
{
    if s.len() == 0 {
        0
    } else {
        (s[0] & 127) as nat + 128 * remaining_length_value(s.skip(1))
    }
}

/// A buffer of at most four groups holds a value below 128^4.
proof fn lemma_remaining_length_value_bound(s: Seq<u8>)
    ensures
        s.len() <= 1 ==> remaining_length_value(s) < 128,
        s.len() <= 2 ==> remaining_length_value(s) < 16384,
        s.len() <= 3 ==> remaining_length_value(s) < 2097152,
        s.len() <= 4 ==> remaining_length_value(s) < 268435456,
    decreases s.len(),
{
    if s.len() > 0 {
        lemma_remaining_length_value_bound(s.skip(1));
        let b = s[0];
        assert((b & 127) < 128) by (bit_vector);
    }
}

pub fn remaining_length_encode(remaining_length: usize) -> (result: Vec<u8>)
    ensures
        result@ == remaining_length_bytes(remaining_length as nat),
{
    if remaining_length == 0 {
        let result = vec![0u8];
        proof {
            assert(result@ =~= remaining_length_bytes(0));
        }
        return result;
    }
    let mut result = Vec::<u8>::new();
    let mut length = remaining_length;

    #[verifier::loop_isolation(false)]
    while length > 0
        invariant
            length > 0 ==> remaining_length_bytes(remaining_length as nat) == result@
                + remaining_length_bytes(length as nat),
            length == 0 ==> remaining_length_bytes(remaining_length as nat) == result@,
        decreases length,
    {
        let ghost before = length as nat;
        let mut byte: u8 = (length % 128) as u8;
        let ghost group = byte;
        length = length / 128;
        if length > 0 {
            byte = byte | 128;
            proof {
                assert(group < 128 ==> (group | 128) == group + 128) by (bit_vector);
            }
        }
        result.push(byte);
        proof {
            if length > 0 {
                assert(remaining_length_bytes(before) =~= seq![byte]
                    + remaining_length_bytes(length as nat));
                assert(result@ + remaining_length_bytes(length as nat)
                    =~= remaining_length_bytes(remaining_length as nat));
            } else {
                assert(remaining_length_bytes(before) =~= seq![byte]);
                assert(result@ =~= remaining_length_bytes(remaining_length as nat));
            }
        }
    }
    result
}

pub fn remaining_length_decode(buffer: &Vec<u8>) -> (result: Result<usize, String>)
    ensures
        match result {
            Ok(value) => buffer@.len() <= 4 && value == remaining_length_value(buffer@),
            Err(_) => buffer@.len() > 4,
        },
{
    if buffer.len() > 4 {
        return Err("Malformed remaining length".to_owned());
    }
    let mut multiplier: usize = 1;
    let mut value: usize = 0;
    let mut i: usize = 0;

    proof {
        assert(buffer@.skip(0) =~= buffer@);
    }
    #[verifier::loop_isolation(false)]
    while i < buffer.len()
        invariant
            i <= buffer@.len(),
            buffer@.len() <= 4,
            multiplier == if i == 0 {
                1usize
            } else if i == 1 {
                128usize
            } else if i == 2 {
                16384usize
            } else if i == 3 {
                2097152usize
            } else {
                268435456usize
            },
            value < multiplier,
            remaining_length_value(buffer@) == value + multiplier * remaining_length_value(
                buffer@.skip(i as int),
            ),
        decreases buffer@.len() - i,
    {
        let byte = buffer[i];
        proof {
            assert((byte & 127) < 128) by (bit_vector);
            assert(buffer@.skip(i as int).skip(1) =~= buffer@.skip(i as int + 1));
            let g = (byte & 127) as nat;
            let m = multiplier as nat;
            let r = remaining_length_value(buffer@.skip(i as int + 1));
            assert(g + 128 * r == remaining_length_value(buffer@.skip(i as int)));
            assert(m * (g + 128 * r) == g * m + (m * 128) * r) by (nonlinear_arith);
            assert(g * m < 128 * m) by (nonlinear_arith)
                requires
                    g < 128,
                    m > 0,
            ;
        }
        value = value + (byte & 127) as usize * multiplier;
        multiplier = multiplier * 128;
        i = i + 1;
    }
    proof {
        assert(buffer@.skip(buffer@.len() as int) =~= Seq::<u8>::empty());
    }
    Ok(value)
}

/// Index of the first byte with the continuation bit clear, or `s.len()`
/// when every byte carries it.
pub open spec fn first_terminator(s: Seq<u8>) -> nat
    decreases s.len(),
{
    if s.len() == 0 {
        0
    } else if s[0] & 0x80 == 0 {
        0
    } else {
        1 + first_terminator(s.skip(1))
    }
}

/// Any index with the least-terminator property is `first_terminator`.
pub proof fn lemma_first_terminator_is(s: Seq<u8>, k: int)
    requires
        0 <= k <= s.len(),
        forall|j: int| 0 <= j < k ==> s[j] & 0x80 != 0,
        k < s.len() ==> s[k] & 0x80 == 0,
    ensures
        first_terminator(s) == k,
    decreases s.len(),
{
    if s.len() == 0 {
    } else if s[0] & 0x80 == 0 {
        assert(k == 0);
    } else {
        assert(k >= 1);
        lemma_first_terminator_is(s.skip(1), k - 1);
    }
}

/// `first_terminator` is the least index whose continuation bit is clear.
pub proof fn lemma_first_terminator_props(s: Seq<u8>)
    ensures
        first_terminator(s) <= s.len(),
        first_terminator(s) < s.len() ==> s[first_terminator(s) as int] & 0x80 == 0,
        forall|j: int| 0 <= j < first_terminator(s) ==> s[j] & 0x80 != 0,
    decreases s.len(),
{
    if s.len() > 0 && s[0] & 0x80 != 0 {
        lemma_first_terminator_props(s.skip(1));
        assert forall|j: int| 0 <= j < first_terminator(s) implies s[j] & 0x80 != 0 by {
            if j > 0 {
                assert(s.skip(1)[j - 1] & 0x80 != 0);
            }
        }
    }
}

/// The shape of an encoded field: at least one byte, the continuation bit
/// set on every byte but the last, and clear on the last.
pub proof fn lemma_remaining_length_bytes_shape(n: nat)
    ensures
        remaining_length_bytes(n).len() >= 1,
        forall|i: int|
            0 <= i < remaining_length_bytes(n).len() - 1 ==> remaining_length_bytes(n)[i] & 0x80
                != 0,
        remaining_length_bytes(n).last() & 0x80 == 0,
    decreases n,
{
    if n < 128 {
        let b = n as u8;
        assert(b < 128 ==> b & 0x80 == 0) by (bit_vector);
    } else {
        let b = (n % 128 + 128) as u8;
        assert(b >= 128 ==> b & 0x80 != 0) by (bit_vector);
        lemma_remaining_length_bytes_shape(n / 128);
        let s = remaining_length_bytes(n);
        let rest = remaining_length_bytes(n / 128);
        assert(s.last() == rest.last());
        assert forall|i: int| 0 <= i < s.len() - 1 implies s[i] & 0x80 != 0 by {
            if i > 0 {
                assert(s[i] == rest[i - 1]);
            }
        }
    }
}

/// In an encoded field, the terminator is the last byte.
pub proof fn lemma_remaining_length_bytes_terminator(n: nat)
    ensures
        first_terminator(remaining_length_bytes(n)) == remaining_length_bytes(n).len() - 1,
{
    lemma_remaining_length_bytes_shape(n);
    lemma_first_terminator_is(
        remaining_length_bytes(n),
        remaining_length_bytes(n).len() - 1,
    );
}

/// Encoding and then decoding gives the value back, and the encoding never
/// needs more than four bytes: the round-trip law of the codec.
pub proof fn lemma_remaining_length_round_trip(n: nat)
    requires
        n <= MAX_REMAINING_LENGTH,
    ensures
        1 <= remaining_length_bytes(n).len() <= 4,
        n < 2097152 ==> remaining_length_bytes(n).len() <= 3,
        n < 16384 ==> remaining_length_bytes(n).len() <= 2,
        n < 128 ==> remaining_length_bytes(n).len() <= 1,
        remaining_length_value(remaining_length_bytes(n)) == n,
    decreases n,
{
    if n < 128 {
        let b = n as u8;
        assert(b < 128 ==> (b & 127) == b) by (bit_vector);
        assert(remaining_length_bytes(n).skip(1) =~= Seq::<u8>::empty());
        assert(remaining_length_value(remaining_length_bytes(n)) == (b & 127) as nat + 128
            * remaining_length_value(remaining_length_bytes(n).skip(1)));
    } else {
        let b = (n % 128 + 128) as u8;
        assert(128 <= b ==> (b & 127) == b - 128) by (bit_vector);
        lemma_remaining_length_round_trip(n / 128);
        assert(remaining_length_bytes(n).skip(1) =~= remaining_length_bytes(n / 128));
        assert(remaining_length_value(remaining_length_bytes(n)) == (b & 127) as nat + 128
            * remaining_length_value(remaining_length_bytes(n).skip(1)));
    }
}

} // verus!
