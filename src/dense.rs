//! Static mode packing: four 6-bit symbols fill the three channels of a pixel.
use vstd::prelude::*;

verus! {

/// Byte `k` of the pixel that packs symbols `s0..s3`.
pub open spec fn pack_byte(s0: u8, s1: u8, s2: u8, s3: u8, k: int) -> u8 {
    if k == 0 {
        ((s0 << 2u8) | (s1 >> 4u8)) as u8
    } else if k == 1 {
        (((s1 & 15u8) << 4u8) | (s2 >> 2u8)) as u8
    } else {
        (((s2 & 3u8) << 6u8) | s3) as u8
    }
}

/// Symbol `m` of the four that pixel `b0, b1, b2` holds.
pub open spec fn unpack_symbol(b0: u8, b1: u8, b2: u8, m: int) -> u8 {
    if m == 0 {
        b0 >> 2u8
    } else if m == 1 {
        (((b0 & 3u8) << 4u8) | (b1 >> 4u8)) as u8
    } else if m == 2 {
        (((b1 & 15u8) << 2u8) | (b2 >> 6u8)) as u8
    } else {
        b2 & 63u8
    }
}

/// The bytes that pack symbol stream `s`, three for each four symbols.
pub open spec fn pack_spec(s: Seq<u8>) -> Seq<u8> {
    Seq::new(
        (s.len() / 4 * 3) as nat,
        |j: int|
            pack_byte(
                s[4 * (j / 3)],
                s[4 * (j / 3) + 1],
                s[4 * (j / 3) + 2],
                s[4 * (j / 3) + 3],
                j % 3,
            ),
    )
}

/// The symbols that bytes `b` hold, four for each whole group of three bytes.
pub open spec fn unpack_spec(b: Seq<u8>) -> Seq<u8> {
    Seq::new(
        (b.len() / 3 * 4) as nat,
        |j: int| unpack_symbol(b[3 * (j / 4)], b[3 * (j / 4) + 1], b[3 * (j / 4) + 2], j % 4),
    )
}

/// Whether every symbol of `s` fits in six bits.
pub open spec fn all_symbols(s: Seq<u8>) -> bool {
    forall|i: int| 0 <= i < s.len() ==> #[trigger] s[i] < 64
}

proof fn lemma_pixel_round_trip(s0: u8, s1: u8, s2: u8, s3: u8)
    requires
        s0 < 64,
        s1 < 64,
        s2 < 64,
        s3 < 64,
    ensures
        ({
            let b0 = pack_byte(s0, s1, s2, s3, 0);
            let b1 = pack_byte(s0, s1, s2, s3, 1);
            let b2 = pack_byte(s0, s1, s2, s3, 2);
            &&& unpack_symbol(b0, b1, b2, 0) == s0
            &&& unpack_symbol(b0, b1, b2, 1) == s1
            &&& unpack_symbol(b0, b1, b2, 2) == s2
            &&& unpack_symbol(b0, b1, b2, 3) == s3
        }),
{
    assert(((s0 << 2u8) | (s1 >> 4u8)) >> 2u8 == s0) by (bit_vector)
        requires s0 < 64u8, s1 < 64u8;
    assert(((((s0 << 2u8) | (s1 >> 4u8)) & 3u8) << 4u8) | ((((s1 & 15u8) << 4u8) | (s2 >> 2u8))
        >> 4u8) == s1) by (bit_vector)
        requires s0 < 64u8, s1 < 64u8, s2 < 64u8;
    assert(((((((s1 & 15u8) << 4u8) | (s2 >> 2u8))) & 15u8) << 2u8) | ((((s2 & 3u8) << 6u8) | s3)
        >> 6u8) == s2) by (bit_vector)
        requires s2 < 64u8, s3 < 64u8;
    assert((((s2 & 3u8) << 6u8) | s3) & 63u8 == s3) by (bit_vector)
        requires s3 < 64u8;
}

/// Unpacking what was packed gives the symbols back.
pub proof fn lemma_unpack_pack(s: Seq<u8>)
    requires
        s.len() % 4 == 0,
        all_symbols(s),
    ensures
        unpack_spec(pack_spec(s)) == s,
{
    let p = pack_spec(s);
    assert(p.len() / 3 * 4 == s.len());
    assert forall|j: int| 0 <= j < s.len() implies #[trigger] unpack_spec(p)[j] == s[j] by {
        let g = j / 4;
        assert(0 <= g && 4 * g + 3 < s.len());
        assert((3 * g) / 3 == g && (3 * g) % 3 == 0);
        assert((3 * g + 1) / 3 == g && (3 * g + 1) % 3 == 1);
        assert((3 * g + 2) / 3 == g && (3 * g + 2) % 3 == 2);
        assert(3 * g + 2 < p.len());
        lemma_pixel_round_trip(s[4 * g], s[4 * g + 1], s[4 * g + 2], s[4 * g + 3]);
    }
    assert(unpack_spec(p) =~= s);
}

/// Zero bytes unpack to zero symbols.
pub proof fn lemma_unpack_zeros(b: Seq<u8>)
    requires
        forall|i: int| 0 <= i < b.len() ==> b[i] == 0,
    ensures
        forall|j: int| 0 <= j < unpack_spec(b).len() ==> unpack_spec(b)[j] == 0,
{
    assert forall|j: int| 0 <= j < unpack_spec(b).len() implies unpack_spec(b)[j] == 0 by {
        let g = j / 4;
        assert(3 * g + 2 < b.len());
        let z = 0u8;
        assert(z >> 2u8 == 0 && (((z & 3u8) << 4u8) | (z >> 4u8)) == 0 && (((z & 15u8) << 2u8) | (z
            >> 6u8)) == 0 && z & 63u8 == 0) by (bit_vector)
            requires z == 0u8;
    }
}

/// Packs symbol stream `s` into bytes, three for each four symbols.
pub fn pack(s: &[u8]) -> (r: Vec<u8>)
    requires
        s@.len() % 4 == 0,
    ensures
        r@ == pack_spec(s@),
{
    let n = s.len();
    let mut v: Vec<u8> = Vec::new();
    let mut g: usize = 0;
    while g < n / 4
        invariant
            n == s@.len(),
            n % 4 == 0,
            g <= n / 4,
            v@ == pack_spec(s@).take(3 * g as int),
        decreases n / 4 - g,
    {
        let i = 4 * g;
        let (s0, s1, s2, s3) = (s[i], s[i + 1], s[i + 2], s[i + 3]);
        v.push((s0 << 2u8) | (s1 >> 4u8));
        v.push(((s1 & 15u8) << 4u8) | (s2 >> 2u8));
        v.push(((s2 & 3u8) << 6u8) | s3);
        proof {
            let gi = g as int;
            assert((3 * gi) / 3 == gi && (3 * gi) % 3 == 0);
            assert((3 * gi + 1) / 3 == gi && (3 * gi + 1) % 3 == 1);
            assert((3 * gi + 2) / 3 == gi && (3 * gi + 2) % 3 == 2);
        }
        g += 1;
        assert(v@ =~= pack_spec(s@).take(3 * g as int));
    }
    assert(pack_spec(s@).take(3 * g as int) =~= pack_spec(s@));
    v
}

/// Unpacks the symbols that bytes `b` hold, four for each whole group of
/// three bytes; a trailing partial group is ignored.
pub fn unpack(b: &[u8]) -> (r: Vec<u8>)
    requires
        b@.len() <= usize::MAX / 2,
    ensures
        r@ == unpack_spec(b@),
        all_symbols(r@),
{
    let n = b.len();
    let mut v: Vec<u8> = Vec::new();
    let mut g: usize = 0;
    while g < n / 3
        invariant
            n == b@.len(),
            n <= usize::MAX / 2,
            g <= n / 3,
            v@ == unpack_spec(b@).take(4 * g as int),
            all_symbols(v@),
        decreases n / 3 - g,
    {
        let i = 3 * g;
        let (b0, b1, b2) = (b[i], b[i + 1], b[i + 2]);
        let ghost old_v = v@;
        v.push(b0 >> 2u8);
        v.push(((b0 & 3u8) << 4u8) | (b1 >> 4u8));
        v.push(((b1 & 15u8) << 2u8) | (b2 >> 6u8));
        v.push(b2 & 63u8);
        proof {
            let gi = g as int;
            assert((4 * gi) / 4 == gi && (4 * gi) % 4 == 0);
            assert((4 * gi + 1) / 4 == gi && (4 * gi + 1) % 4 == 1);
            assert((4 * gi + 2) / 4 == gi && (4 * gi + 2) % 4 == 2);
            assert((4 * gi + 3) / 4 == gi && (4 * gi + 3) % 4 == 3);
            assert(b0 >> 2u8 < 64 && (((b0 & 3u8) << 4u8) | (b1 >> 4u8)) < 64 && (((b1 & 15u8)
                << 2u8) | (b2 >> 6u8)) < 64 && b2 & 63u8 < 64) by (bit_vector);
            assert forall|k: int| 0 <= k < v@.len() implies #[trigger] v@[k] < 64 by {
                if k < old_v.len() {
                    assert(v@[k] == old_v[k]);
                }
            }
        }
        g += 1;
        assert(v@ =~= unpack_spec(b@).take(4 * g as int));
    }
    assert(unpack_spec(b@).take(4 * g as int) =~= unpack_spec(b@));
    v
}

/// Unpacking splits at a whole number of pixels.
pub proof fn lemma_unpack_append(a: Seq<u8>, b: Seq<u8>)
    requires
        a.len() % 3 == 0,
    ensures
        unpack_spec(a + b) == unpack_spec(a) + unpack_spec(b),
{
    let ab = a + b;
    let ga = a.len() / 3;
    assert((a.len() + b.len()) / 3 == ga + b.len() / 3);
    assert forall|j: int| 0 <= j < unpack_spec(ab).len() implies #[trigger] unpack_spec(ab)[j] == (
    unpack_spec(a) + unpack_spec(b))[j] by {
        let g = j / 4;
        if j < 4 * ga {
            assert(3 * g + 2 < a.len());
        } else {
            assert((j - 4 * ga) / 4 == g - ga);
            assert((j - 4 * ga) % 4 == j % 4);
            assert(3 * g == a.len() + 3 * (g - ga));
        }
    }
    assert(unpack_spec(ab) =~= unpack_spec(a) + unpack_spec(b));
}

} // verus!
