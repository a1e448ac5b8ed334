//! Hidden mode: symbols ride in the low `depth` bits of each channel of a
//! carrier's pixels.
//!
//! At depth `d` (2, 4 or 6) one pixel carries `d / 2` symbols: their bits,
//! first symbol highest, are cut into three groups of `d` bits, one per channel.
use vstd::prelude::*;
use crate::dense::all_symbols;
use crate::header::{meta_tag, write_meta_pixel, Mode};
use vstd::arithmetic::div_mod::{lemma_fundamental_div_mod, lemma_fundamental_div_mod_converse};

verus! {

/// Whether hidden mode can pack symbols at depth `d`.
pub open spec fn supported_depth(d: u8) -> bool {
    d == 2 || d == 4 || d == 6
}

/// The low `d` bits of a byte.
pub open spec fn low_mask(d: u8) -> u8 {
    if d == 2 {
        3
    } else if d == 4 {
        15
    } else {
        63
    }
}

/// Symbols per pixel at depth `d`.
pub open spec fn per_pixel(d: u8) -> int {
    (d / 2) as int
}

/// The bits of symbols `s[start..start + m]`, first symbol highest.
pub open spec fn group_value(s: Seq<u8>, start: int, m: nat) -> u32
    decreases m,
{
    if m == 0 {
        0
    } else {
        (group_value(s, start, (m - 1) as nat) << 6u32) | (s[start + m - 1] as u32)
    }
}

/// How far the bits for channel `j` stand from the bottom of a group value.
pub open spec fn channel_shift(d: u8, j: int) -> u32 {
    if j == 0 {
        (2 * d) as u32
    } else if j == 1 {
        d as u32
    } else {
        0
    }
}

/// The `d` bits of group value `v` that channel `j` carries.
pub open spec fn channel(v: u32, d: u8, j: int) -> u8 {
    ((v >> channel_shift(d, j)) & (low_mask(d) as u32)) as u8
}

/// Byte `i` of the meta header of hidden mode at depth `d`.
pub open spec fn hidden_tag(d: u8, i: int) -> u8 {
    meta_tag(Mode::Hidden, d)[i]
}

/// The pixels that carry `s` in carrier `c` at depth `d`: the header blended
/// into the first pixel, the symbols into the next pixels, and the rest of
/// the carrier with its low two bits cleared.
pub open spec fn merge_spec(c: Seq<u8>, s: Seq<u8>, d: u8) -> Seq<u8> {
    let g = s.len() as int / per_pixel(d);
    Seq::new(
        c.len(),
        |i: int|
            if i < 3 {
                (c[i] & 248u8) | hidden_tag(d, i)
            } else if i < 3 + 3 * g {
                (c[i] & !low_mask(d)) | channel(
                    group_value(s, ((i - 3) / 3) * per_pixel(d), per_pixel(d) as nat),
                    d,
                    (i - 3) % 3,
                )
            } else {
                c[i] & 252u8
            },
    )
}

/// The group value that pixel `b0, b1, b2` carries at depth `d`.
pub open spec fn joined(b0: u8, b1: u8, b2: u8, d: u8) -> u32 {
    (((b0 & low_mask(d)) as u32) << channel_shift(d, 0)) | (((b1 & low_mask(d)) as u32)
        << channel_shift(d, 1)) | ((b2 & low_mask(d)) as u32)
}

/// Symbol `m` of the `k` that group value `v` holds.
pub open spec fn split_symbol(v: u32, k: int, m: int) -> u8 {
    ((v >> ((6 * (k - 1 - m)) as u32)) & 63u32) as u8
}

/// The number of whole pixels after the header of `b`.
pub open spec fn body_pixels(b: Seq<u8>) -> int {
    if b.len() < 3 {
        0
    } else {
        (b.len() - 3) / 3
    }
}

/// The symbols that pixels `b` carry at depth `d`, after the header.
pub open spec fn extract_spec(b: Seq<u8>, d: u8) -> Seq<u8> {
    let k = per_pixel(d);
    Seq::new(
        (body_pixels(b) * k) as nat,
        |j: int|
            split_symbol(
                joined(b[3 + 3 * (j / k)], b[3 + 3 * (j / k) + 1], b[3 + 3 * (j / k) + 2], d),
                k,
                j % k,
            ),
    )
}

/// The number of carrier bytes that `n` symbols need at depth `d`.
pub open spec fn required_len(n: nat, d: u8) -> int {
    3 + 3 * (n as int / per_pixel(d))
}

/// Bounds on a group value of `k` symbols, and each symbol split back out of it.
proof fn lemma_split_group(s: Seq<u8>, st: int, k: int)
    requires
        1 <= k <= 3,
        0 <= st,
        st + k <= s.len(),
        forall|i: int| st <= i < st + k ==> s[i] < 64,
    ensures
        k == 1 ==> group_value(s, st, k as nat) < 64,
        k == 2 ==> group_value(s, st, k as nat) < 4096,
        k == 3 ==> group_value(s, st, k as nat) < 262144,
        forall|m: int| 0 <= m < k ==> #[trigger] split_symbol(group_value(s, st, k as nat), k, m) == s[st + m],
{
    let a = s[st] as u32;
    assert(a < 64);
    assert(group_value(s, st, 0) == 0);
    assert(group_value(s, st, 1) == (0u32 << 6u32) | a);
    if k == 1 {
        assert(((0u32 << 6u32) | a) < 64 && (((0u32 << 6u32) | a) >> 0u32) & 63u32 == a)
            by (bit_vector)
            requires a < 64u32;
    } else {
        let b = s[st + 1] as u32;
        assert(b < 64);
        assert(group_value(s, st, 2) == (((0u32 << 6u32) | a) << 6u32) | b);
        if k == 2 {
            assert({
                let v = (((0u32 << 6u32) | a) << 6u32) | b;
                v < 4096 && (v >> 6u32) & 63u32 == a && (v >> 0u32) & 63u32 == b
            }) by (bit_vector)
                requires a < 64u32, b < 64u32;
        } else {
            let c = s[st + 2] as u32;
            assert(c < 64);
            assert(group_value(s, st, 3) == (((((0u32 << 6u32) | a) << 6u32) | b) << 6u32) | c);
            assert({
                let v = (((((0u32 << 6u32) | a) << 6u32) | b) << 6u32) | c;
                v < 262144 && (v >> 12u32) & 63u32 == a && (v >> 6u32) & 63u32 == b && (v >> 0u32)
                    & 63u32 == c
            }) by (bit_vector)
                requires a < 64u32, b < 64u32, c < 64u32;
        }
    }
}

/// The channels of a group value join back into it.
proof fn lemma_rejoin(v: u32, d: u8)
    requires
        supported_depth(d),
        d == 2 ==> v < 64,
        d == 4 ==> v < 4096,
        d == 6 ==> v < 262144,
    ensures
        joined(channel(v, d, 0), channel(v, d, 1), channel(v, d, 2), d) == v,
{
    if d == 2 {
        assert(((((((v >> 4u32) & 3u32) as u8) & 3u8) as u32) << 4u32) | ((((((v >> 2u32) & 3u32)
            as u8) & 3u8) as u32) << 2u32) | (((((v >> 0u32) & 3u32) as u8) & 3u8) as u32) == v)
            by (bit_vector)
            requires v < 64u32;
    } else if d == 4 {
        assert(((((((v >> 8u32) & 15u32) as u8) & 15u8) as u32) << 8u32) | ((((((v >> 4u32)
            & 15u32) as u8) & 15u8) as u32) << 4u32) | (((((v >> 0u32) & 15u32) as u8) & 15u8)
            as u32) == v) by (bit_vector)
            requires v < 4096u32;
    } else {
        assert(((((((v >> 12u32) & 63u32) as u8) & 63u8) as u32) << 12u32) | ((((((v >> 6u32)
            & 63u32) as u8) & 63u8) as u32) << 6u32) | (((((v >> 0u32) & 63u32) as u8) & 63u8)
            as u32) == v) by (bit_vector)
            requires v < 262144u32;
    }
}

/// Blending bits into the low bits of a byte keeps them readable.
proof fn lemma_blend(c: u8, x: u32, m: u8)
    ensures
        ((c & !m) | ((x & (m as u32)) as u8)) & m == ((x & (m as u32)) as u8) & m,
        ((c & !m) | ((x & (m as u32)) as u8)) & !m == c & !m,
{
    assert(((c & !m) | ((x & (m as u32)) as u8)) & m == ((x & (m as u32)) as u8) & m)
        by (bit_vector);
    assert(((c & !m) | ((x & (m as u32)) as u8)) & !m == c & !m) by (bit_vector);
}

/// Extracting what was merged into a carrier gives the symbols back; at
/// depth 2 the rest of the carrier reads as zero symbols.
pub proof fn lemma_extract_merge(c: Seq<u8>, s: Seq<u8>, d: u8)
    requires
        supported_depth(d),
        s.len() as int % per_pixel(d) == 0,
        all_symbols(s),
        c.len() >= required_len(s.len(), d),
    ensures
        extract_spec(merge_spec(c, s, d), d).len() == body_pixels(c) * per_pixel(d),
        s.len() <= extract_spec(merge_spec(c, s, d), d).len(),
        forall|j: int| 0 <= j < s.len() ==> #[trigger] extract_spec(merge_spec(c, s, d), d)[j] == s[j],
        d == 2 ==> forall|j: int|
            s.len() <= j < extract_spec(merge_spec(c, s, d), d).len() ==> #[trigger] extract_spec(
                merge_spec(c, s, d),
                d,
            )[j] == 0,
{
    let k = per_pixel(d);
    let g = s.len() as int / k;
    let o = merge_spec(c, s, d);
    let e = extract_spec(o, d);
    lemma_fundamental_div_mod(s.len() as int, k);
    assert(g <= body_pixels(c));
    assert(g * k <= body_pixels(c) * k) by (nonlinear_arith)
        requires g <= body_pixels(c), k >= 1;
    assert forall|j: int| 0 <= j < s.len() implies #[trigger] e[j] == s[j] by {
        let t = j / k;
        let m = j % k;
        lemma_fundamental_div_mod(j, k);
        assert(0 <= t < g) by (nonlinear_arith)
            requires t == j / k, 0 <= j < s.len(), s.len() == g * k, k >= 1;
        assert(t * k + k <= s.len()) by (nonlinear_arith)
            requires t < g, s.len() == g * k, k >= 1;
        assert(j == t * k + m);
        let v = group_value(s, t * k, k as nat);
        assert forall|i: int| t * k <= i < t * k + k implies s[i] < 64 by {
            assert(s[i] < 64);
        }
        lemma_split_group(s, t * k, k);
        let mask = low_mask(d);
        assert forall|jj: int| 0 <= jj < 3 implies #[trigger] o[3 + 3 * t + jj] & mask == channel(
            v,
            d,
            jj,
        ) && channel(v, d, jj) & mask == channel(v, d, jj) by {
            let i = 3 + 3 * t + jj;
            lemma_fundamental_div_mod_converse(i - 3, 3, t, jj);
            lemma_blend(c[i], v >> channel_shift(d, jj), mask);
            let x = v >> channel_shift(d, jj);
            assert(((x & (mask as u32)) as u8) & mask == ((x & (mask as u32)) as u8)) by (bit_vector);
            assert(channel(v, d, jj) & mask == channel(v, d, jj));
        }
        assert(3 + 3 * t + 2 < o.len());
        let (o0, o1, o2) = (o[3 + 3 * t], o[3 + 3 * t + 1], o[3 + 3 * t + 2]);
        assert(o[3 + 3 * t + 0] & mask == channel(v, d, 0) && channel(v, d, 0) & mask == channel(v, d, 0));
        assert(o[3 + 3 * t + 1] & mask == channel(v, d, 1) && channel(v, d, 1) & mask == channel(v, d, 1));
        assert(o[3 + 3 * t + 2] & mask == channel(v, d, 2) && channel(v, d, 2) & mask == channel(v, d, 2));
        assert(o0 & mask == channel(v, d, 0) & mask);
        assert(o1 & mask == channel(v, d, 1) & mask);
        assert(o2 & mask == channel(v, d, 2) & mask);
        lemma_rejoin(v, d);
        assert(joined(o[3 + 3 * t], o[3 + 3 * t + 1], o[3 + 3 * t + 2], d) == v);
    }
    if d == 2 {
        assert forall|j: int| s.len() <= j < e.len() implies #[trigger] e[j] == 0 by {
            assert(j / 1 == j && j % 1 == 0);
            let i = 3 + 3 * j;
            assert(i >= 3 + 3 * g);
            let (b0, b1, b2) = (c[i] & 252u8, c[i + 1] & 252u8, c[i + 2] & 252u8);
            assert(o[i] == b0 && o[i + 1] == b1 && o[i + 2] == b2);
            let (x0, x1, x2) = (c[i], c[i + 1], c[i + 2]);
            assert((((((((x0 & 252u8) & 3u8) as u32) << 4u32) | ((((x1 & 252u8) & 3u8) as u32)
                << 2u32) | (((x2 & 252u8) & 3u8) as u32)) >> 0u32) & 63u32) as u8 == 0u8)
                by (bit_vector);
        }
    }
}

/// Merging keeps every carrier bit above the payload bits: the top five bits
/// of the header pixel, and the bits above `depth` of every other byte.
pub proof fn lemma_merge_preserves(c: Seq<u8>, s: Seq<u8>, d: u8)
    requires
        supported_depth(d),
        s.len() as int % per_pixel(d) == 0,
        c.len() >= required_len(s.len(), d),
    ensures
        merge_spec(c, s, d).len() == c.len(),
        forall|i: int| 0 <= i < 3 ==> #[trigger] merge_spec(c, s, d)[i] & 248u8 == c[i] & 248u8,
        forall|i: int|
            3 <= i < c.len() ==> #[trigger] merge_spec(c, s, d)[i] & !low_mask(d) == c[i] & !low_mask(d),
{
    let o = merge_spec(c, s, d);
    let k = per_pixel(d);
    let g = s.len() as int / k;
    let mask = low_mask(d);
    assert forall|i: int| 0 <= i < 3 implies #[trigger] o[i] & 248u8 == c[i] & 248u8 by {
        let (x, tag) = (c[i], hidden_tag(d, i));
        assert(tag < 8);
        assert(((x & 248u8) | tag) & 248u8 == x & 248u8) by (bit_vector)
            requires tag < 8u8;
    }
    assert forall|i: int| 3 <= i < c.len() implies #[trigger] o[i] & !low_mask(d) == c[i] & !low_mask(d) by {
        let x = c[i];
        if i < 3 + 3 * g {
            let v = group_value(s, ((i - 3) / 3) * k, k as nat);
            lemma_blend(x, v >> channel_shift(d, (i - 3) % 3), mask);
        } else {
            assert(mask == 3 || mask == 15 || mask == 63);
            assert((x & 252u8) & !mask == x & !mask) by (bit_vector)
                requires mask == 3u8 || mask == 15u8 || mask == 63u8;
        }
    }
}

/// The low `d` bits of a byte, for a supported depth.
fn mask_of(d: u8) -> (r: u8)
    requires
        supported_depth(d),
    ensures
        r == low_mask(d),
{
    if d == 2 {
        3
    } else if d == 4 {
        15
    } else {
        63
    }
}

/// Merges symbols `s` into the low `d` bits of carrier `c` (see `merge_spec`).
pub fn merge(c: &[u8], s: &[u8], d: u8) -> (r: Vec<u8>)
    requires
        supported_depth(d),
        s@.len() as int % per_pixel(d) == 0,
        c@.len() >= required_len(s@.len(), d),
    ensures
        r@ == merge_spec(c@, s@, d),
{
    let k: usize = (d / 2) as usize;
    let mask = mask_of(d);
    let g = s.len() / k;
    let clen = c.len();
    let slen = s.len();
    let mut out: Vec<u8> = Vec::new();
    let tag = write_meta_pixel(Mode::Hidden, d);
    out.push((c[0] & 248u8) | tag[0]);
    out.push((c[1] & 248u8) | tag[1]);
    out.push((c[2] & 248u8) | tag[2]);
    assert(out@ =~= merge_spec(c@, s@, d).take(3));
    let mut t: usize = 0;
    while t < g
        invariant
            supported_depth(d),
            k as int == per_pixel(d),
            mask == low_mask(d),
            g as int == s@.len() as int / per_pixel(d),
            c@.len() >= required_len(s@.len(), d),
            s@.len() as int % per_pixel(d) == 0,
            c@.len() == clen,
            s@.len() == slen,
            t <= g,
            out@ == merge_spec(c@, s@, d).take(3 + 3 * t),
        decreases g - t,
    {
        proof {
            let n = s@.len() as int;
            let ki = k as int;
            lemma_fundamental_div_mod(n, ki);
            assert(n == ki * g);
            assert(t * ki + ki <= ki * g) by (nonlinear_arith)
                requires t < g, ki >= 1;
            assert(3 + 3 * g <= c@.len());
        }
        let base = t * k;
        let mut v: u32 = 0;
        let mut m: usize = 0;
        while m < k
            invariant
                m <= k,
                base + k <= s@.len(),
                s@.len() == slen,
                v == group_value(s@, base as int, m as nat),
            decreases k - m,
        {
            v = (v << 6u32) | (s[base + m] as u32);
            m += 1;
        }
        let i = 3 + 3 * t;
        proof {
            assert(3 + 3 * g <= c@.len());
            lemma_fundamental_div_mod_converse(i - 3, 3, t as int, 0);
            lemma_fundamental_div_mod_converse(i + 1 - 3, 3, t as int, 1);
            lemma_fundamental_div_mod_converse(i + 2 - 3, 3, t as int, 2);
        }
        out.push((c[i] & !mask) | (#[verifier::truncate] (((v >> ((2 * d) as u32)) & (mask as u32)) as u8)));
        out.push((c[i + 1] & !mask) | (#[verifier::truncate] (((v >> (d as u32)) & (mask as u32)) as u8)));
        out.push((c[i + 2] & !mask) | (#[verifier::truncate] (((v >> 0u32) & (mask as u32)) as u8)));
        t += 1;
        assert(out@ =~= merge_spec(c@, s@, d).take(3 + 3 * t));
    }
    let mut i: usize = 3 + 3 * g;
    while i < c.len()
        invariant
            3 + 3 * g <= i <= c@.len(),
            g as int == s@.len() as int / per_pixel(d),
            out@ == merge_spec(c@, s@, d).take(i as int),
        decreases c@.len() - i,
    {
        out.push(c[i] & 252u8);
        i += 1;
        assert(out@ =~= merge_spec(c@, s@, d).take(i as int));
    }
    assert(out@ =~= merge_spec(c@, s@, d));
    out
}

/// Extracts the symbols that pixels `b` carry at depth `d` (see `extract_spec`).
pub fn extract(b: &[u8], d: u8) -> (r: Vec<u8>)
    requires
        supported_depth(d),
        b@.len() <= usize::MAX / 2,
    ensures
        r@ == extract_spec(b@, d),
        all_symbols(r@),
{
    let k: usize = (d / 2) as usize;
    let mask = mask_of(d);
    let np: usize = if b.len() < 3 { 0 } else { (b.len() - 3) / 3 };
    let mut out: Vec<u8> = Vec::new();
    let mut t: usize = 0;
    while t < np
        invariant
            supported_depth(d),
            k as int == per_pixel(d),
            mask == low_mask(d),
            np as int == body_pixels(b@),
            b@.len() <= usize::MAX / 2,
            t <= np,
            out@ == extract_spec(b@, d).take(t * k),
            all_symbols(out@),
        decreases np - t,
    {
        let i = 3 + 3 * t;
        let v: u32 = (((b[i] & mask) as u32) << ((2 * d) as u32)) | (((b[i + 1] & mask) as u32)
            << (d as u32)) | ((b[i + 2] & mask) as u32);
        proof {
            assert(t * k + k <= np * k) by (nonlinear_arith)
                requires t < np, k >= 1;
            assert(np * 3 <= b@.len());
            assert(np * k <= b@.len()) by (nonlinear_arith)
                requires np * 3 <= b@.len(), k <= 3;
        }
        let mut m: usize = 0;
        while m < k
            invariant
                supported_depth(d),
                k as int == per_pixel(d),
                mask == low_mask(d),
                np as int == body_pixels(b@),
                t < np,
                i == 3 + 3 * t,
                t * k + k <= np * k,
                np * k <= usize::MAX,
                m <= k,
                v == joined(b@[i as int], b@[i + 1], b@[i + 2], d),
                out@ == extract_spec(b@, d).take(t * k + m),
                all_symbols(out@),
            decreases k - m,
        {
            proof {
                lemma_fundamental_div_mod_converse(t * k + m, k as int, t as int, m as int);
            }
            let sym = #[verifier::truncate] (((v >> ((6 * (k - 1 - m)) as u32)) & 63u32) as u8);
            assert(sym < 64) by (bit_vector)
                requires sym == ((v >> ((6 * (k - 1 - m)) as u32)) & 63u32) as u8;
            let ghost before = out@;
            out.push(sym);
            m += 1;
            proof {
                assert(out@ =~= extract_spec(b@, d).take(t * k + m));
                assert forall|x: int| 0 <= x < out@.len() implies #[trigger] out@[x] < 64 by {
                    if x < before.len() {
                        assert(out@[x] == before[x]);
                    }
                }
            }
        }
        t += 1;
        assert(t * k == (t - 1) * k + k) by (nonlinear_arith);
    }
    assert(extract_spec(b@, d).take(np * k) =~= extract_spec(b@, d));
    out
}

} // verus!
