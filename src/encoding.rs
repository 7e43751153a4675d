use vstd::prelude::*;

verus! {

/// The four little-endian bytes of `x`.
pub open spec fn u32_le(x: u32) -> Seq<u8> {
    seq![
        (x & 0xff) as u8,
        ((x >> 8u32) & 0xff) as u8,
        ((x >> 16u32) & 0xff) as u8,
        ((x >> 24u32) & 0xff) as u8,
    ]
}

/// The byte stream of `tokens`: each token's little-endian bytes followed by
/// the separator's little-endian bytes.
pub open spec fn encode(tokens: Seq<u32>, sep: u32) -> Seq<u8>
    decreases tokens.len(),
{
    if tokens.len() == 0 {
        Seq::empty()
    } else {
        encode(tokens.drop_last(), sep) + u32_le(tokens.last()) + u32_le(sep)
    }
}

/// Byte `j` of the encoded stream, read off its position: bytes `0..4` of each
/// 8-byte slot hold the token, bytes `4..8` the separator.
pub open spec fn slot_byte(tokens: Seq<u32>, sep: u32, j: int) -> u8 {
    if j % 8 < 4 {
        u32_le(tokens[j / 8])[j % 4]
    } else {
        u32_le(sep)[j % 4]
    }
}

/// Four little-endian bytes determine the integer.
pub proof fn lemma_u32_le_injective(x: u32, y: u32)
    requires
        u32_le(x) == u32_le(y),
    ensures
        x == y,
{
    assert(u32_le(x)[0] == u32_le(y)[0]);
    assert(u32_le(x)[1] == u32_le(y)[1]);
    assert(u32_le(x)[2] == u32_le(y)[2]);
    assert(u32_le(x)[3] == u32_le(y)[3]);
    assert(((x & 0xff) as u8 == (y & 0xff) as u8 && ((x >> 8u32) & 0xff) as u8 == ((y >> 8u32)
        & 0xff) as u8 && ((x >> 16u32) & 0xff) as u8 == ((y >> 16u32) & 0xff) as u8 && ((x
        >> 24u32) & 0xff) as u8 == ((y >> 24u32) & 0xff) as u8) ==> x == y) by (bit_vector);
}

/// The encoded stream has eight bytes per token, laid out slot by slot.
pub proof fn lemma_encode_layout(tokens: Seq<u32>, sep: u32)
    ensures
        encode(tokens, sep).len() == 8 * tokens.len(),
        forall|j: int|
            0 <= j < 8 * tokens.len() ==> #[trigger] encode(tokens, sep)[j] == slot_byte(
                tokens,
                sep,
                j,
            ),
    decreases tokens.len(),
{
    if tokens.len() > 0 {
        let init = tokens.drop_last();
        lemma_encode_layout(init, sep);
        let n = init.len();
        assert forall|j: int| 0 <= j < 8 * tokens.len() implies #[trigger] encode(tokens, sep)[j]
            == slot_byte(tokens, sep, j) by {
            if j < 8 * n {
                assert(encode(tokens, sep)[j] == encode(init, sep)[j]);
                assert(j / 8 < n);
                assert(tokens[j / 8] == init[j / 8]);
            } else {
                assert(j / 8 == n);
            }
        }
    }
}

/// Distinct token sequences have distinct encodings.
pub proof fn lemma_encode_injective(a: Seq<u32>, b: Seq<u32>, sep: u32)
    requires
        encode(a, sep) == encode(b, sep),
    ensures
        a == b,
{
    lemma_encode_layout(a, sep);
    lemma_encode_layout(b, sep);
    assert(a.len() == b.len());
    assert forall|q: int| 0 <= q < a.len() implies a[q] == b[q] by {
        assert forall|k: int| 0 <= k < 4 implies u32_le(a[q])[k] == u32_le(b[q])[k] by {
            let j = 8 * q + k;
            assert(j / 8 == q && j % 8 == k && j % 4 == k);
            assert(0 <= j < 8 * a.len());
            assert(encode(a, sep)[j] == slot_byte(a, sep, j));
            assert(encode(b, sep)[j] == slot_byte(b, sep, j));
            assert(encode(a, sep)[j] == encode(b, sep)[j]);
            assert(slot_byte(a, sep, j) == u32_le(a[q])[k]);
            assert(slot_byte(b, sep, j) == u32_le(b[q])[k]);
        }
        assert(u32_le(a[q]) =~= u32_le(b[q]));
        lemma_u32_le_injective(a[q], b[q]);
    }
    assert(a =~= b);
}

/// No proper prefix of the separator's four bytes is also a suffix of them.
pub open spec fn separator_unbordered(sep: u32) -> bool {
    let b = u32_le(sep);
    b[0] != b[3] && (b[0] != b[2] || b[1] != b[3])
}

proof fn lemma_slot_position(q: int, c: int)
    requires
        0 <= c < 8,
    ensures
        (8 * q + c) % 8 == c,
        (8 * q + c) / 8 == q,
        (8 * q + c) % 4 == c % 4,
{
    assert((8 * q + c) % 8 == c && (8 * q + c) / 8 == q) by (nonlinear_arith)
        requires
            0 <= c < 8,
    ;
    assert((8 * q + c) % 4 == c % 4) by (nonlinear_arith)
        requires
            0 <= c < 8,
    ;
}

/// An occurrence of an encoded pattern inside an encoded text starts on a
/// token boundary, provided the pattern is non-empty, does not hold the
/// separator, and the separator's bytes cannot overlap themselves.
pub proof fn lemma_occurrence_aligned(pattern: Seq<u32>, text: Seq<u32>, sep: u32, s: int)
    requires
        pattern.len() > 0,
        !pattern.contains(sep),
        separator_unbordered(sep),
        0 <= s,
        s + 8 * pattern.len() <= 8 * text.len(),
        encode(text, sep).subrange(s, s + 8 * pattern.len()) == encode(pattern, sep),
    ensures
        s % 8 == 0,
{
    lemma_encode_layout(text, sep);
    lemma_encode_layout(pattern, sep);
    let e = encode(text, sep);
    let p = encode(pattern, sep);
    let b = u32_le(sep);
    let q = s / 8;
    let r = s % 8;
    assert(s == 8 * q + r);
    assert forall|i: int| 0 <= i < 8 implies #[trigger] p[i] == e[s + i] by {
        assert(e.subrange(s, s + 8 * pattern.len())[i] == e[s + i]);
    }
    assert forall|k: int| 0 <= k < 4 implies #[trigger] p[4 + k] == b[k] by {
        lemma_slot_position(0, 4 + k);
        assert(p[4 + k] == slot_byte(pattern, sep, 4 + k));
    }
    // Byte `c` of the text's slot `q + c / 8`, seen from offset `s`.
    assert forall|c: int| 0 <= c < 8 && r + c < 8 implies #[trigger] e[s + c] == slot_byte(
        text,
        sep,
        8 * q + r + c,
    ) by {
        assert(s + c < 8 * text.len());
    }
    assert forall|c: int| 0 <= c < 8 && r + c >= 8 && r + c < 16 implies #[trigger] e[s + c]
        == slot_byte(text, sep, 8 * (q + 1) + (r + c - 8)) by {
        assert(s + c < 8 * text.len());
        assert(s + c == 8 * (q + 1) + (r + c - 8));
    }
    if r == 4 {
        assert forall|k: int| 0 <= k < 4 implies u32_le(pattern[0])[k] == b[k] by {
            lemma_slot_position(0, k);
            assert(p[k] == slot_byte(pattern, sep, k));
            lemma_slot_position(q, 4 + k);
            assert(e[s + k] == slot_byte(text, sep, 8 * q + 4 + k));
        }
        assert(u32_le(pattern[0]) =~= b);
        lemma_u32_le_injective(pattern[0], sep);
        assert(pattern.contains(sep));
    } else if 1 <= r <= 3 {
        assert forall|k: int| 0 <= k < 4 - r implies #[trigger] b[k] == b[r + k] by {
            lemma_slot_position(q, r + 4 + k);
            assert(p[4 + k] == e[s + 4 + k]);
        }
        if r == 1 {
            assert(b[0] == b[1] && b[1] == b[2] && b[2] == b[3]);
        } else if r == 2 {
            assert(b[0] == b[2] && b[1] == b[3]);
        } else {
            assert(b[0] == b[3]);
        }
    } else if 5 <= r <= 7 {
        let d = r - 4;
        assert forall|k: int| 4 - d <= k < 4 implies #[trigger] b[k] == b[d + k - 4] by {
            lemma_slot_position(q + 1, d + k);
            assert(p[4 + k] == e[s + 4 + k]);
        }
        if d == 1 {
            assert(b[3] == b[0]);
        } else if d == 2 {
            assert(b[2] == b[0] && b[3] == b[1]);
        } else {
            assert(b[1] == b[0] && b[2] == b[1] && b[3] == b[2]);
        }
    }
}

/// Encoding distributes over concatenation.
pub proof fn lemma_encode_append(a: Seq<u32>, b: Seq<u32>, sep: u32)
    ensures
        encode(a + b, sep) == encode(a, sep) + encode(b, sep),
    decreases b.len(),
{
    if b.len() == 0 {
        assert(a + b =~= a);
        assert(encode(a, sep) + encode(b, sep) =~= encode(a, sep));
    } else {
        let init = b.drop_last();
        lemma_encode_append(a, init, sep);
        assert((a + b).drop_last() =~= a + init);
        assert((a + b).last() == b.last());
        assert(encode(a + b, sep) =~= encode(a, sep) + encode(b, sep));
    }
}

/// Encodes a token-id sequence: for each token, its four little-endian bytes,
/// then the separator's four little-endian bytes.
pub fn encode_tokens(tokens: &[u32], separator: u32) -> (bytes: Vec<u8>)
    ensures
        bytes@ == encode(tokens@, separator),
{
    let mut bytes: Vec<u8> = Vec::new();
    let mut i: usize = 0;
    while i < tokens.len()
        invariant
            i <= tokens@.len(),
            bytes@ == encode(tokens@.subrange(0, i as int), separator),
        decreases tokens.len() - i,
    {
        let t = tokens[i];
        push_u32_le(&mut bytes, t);
        push_u32_le(&mut bytes, separator);
        assert(tokens@.subrange(0, i + 1).drop_last() =~= tokens@.subrange(0, i as int));
        i = i + 1;
    }
    assert(tokens@.subrange(0, tokens@.len() as int) =~= tokens@);
    bytes
}

/// Appends the four little-endian bytes of `x`.
pub fn push_u32_le(bytes: &mut Vec<u8>, x: u32)
    ensures
        final(bytes)@ == old(bytes)@ + u32_le(x),
{
    bytes.push((x & 0xff) as u8);
    bytes.push(((x >> 8u32) & 0xff) as u8);
    bytes.push(((x >> 16u32) & 0xff) as u8);
    bytes.push(((x >> 24u32) & 0xff) as u8);
    assert(final(bytes)@ =~= old(bytes)@ + u32_le(x));
}

} // verus!
