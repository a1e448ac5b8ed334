//! Turning base64 text into a stream of 6-bit symbols and back.
//!
//! A stream holds the code of every alphabet character of the text, then a pad
//! marker (one more than the number of `=` in the text), then zero bytes up to
//! a multiple of the alignment that the packer needs.
use vstd::prelude::*;
use crate::alphabet::{alphabet_byte, code_of, forward, is_alphabet, lemma_char_round_trip, reverse};
use crate::bridge::{PAD, base64_shaped};
use crate::dense::all_symbols;
use crate::error::DecodeError;

verus! {

/// The codes of the alphabet characters of `t`, in order.
pub open spec fn body_codes(t: Seq<u8>) -> Seq<u8>
    decreases t.len(),
{
    if t.len() == 0 {
        seq![]
    } else if t.last() == PAD {
        body_codes(t.drop_last())
    } else {
        body_codes(t.drop_last()).push(code_of(t.last()) as u8)
    }
}

/// The number of `=` in `t`.
pub open spec fn pad_count(t: Seq<u8>) -> nat
    decreases t.len(),
{
    if t.len() == 0 {
        0
    } else if t.last() == PAD {
        pad_count(t.drop_last()) + 1
    } else {
        pad_count(t.drop_last())
    }
}

/// `n` zero bytes.
pub open spec fn zeros(n: nat) -> Seq<u8> {
    Seq::new(n, |i: int| 0u8)
}

/// `n` padding characters.
pub open spec fn pads(n: nat) -> Seq<u8> {
    Seq::new(n, |i: int| PAD)
}

/// How many filler bytes bring a length of `n` to a multiple of `align`.
pub open spec fn filler_len(n: nat, align: nat) -> nat {
    if align == 0 || n % align == 0 {
        0
    } else {
        (align - n % align) as nat
    }
}

/// The symbols of `t` followed by the pad marker.
pub open spec fn marked(t: Seq<u8>) -> Seq<u8> {
    body_codes(t).push((pad_count(t) + 1) as u8)
}

/// The symbol stream of base64 text `t`, aligned to a multiple of `align`.
pub open spec fn frame_spec(t: Seq<u8>, align: nat) -> Seq<u8> {
    marked(t) + zeros(filler_len(marked(t).len(), align))
}

/// `s` without its trailing zero bytes.
pub open spec fn trim_zeros(s: Seq<u8>) -> Seq<u8>
    decreases s.len(),
{
    if s.len() > 0 && s.last() == 0 {
        trim_zeros(s.drop_last())
    } else {
        s
    }
}

/// Whether some symbol of `s` is 64 or more.
pub open spec fn has_invalid(s: Seq<u8>) -> bool {
    exists|i: int| 0 <= i < s.len() && s[i] >= 64
}

/// The position of the first symbol of `s` that is 64 or more.
pub open spec fn first_invalid(s: Seq<u8>) -> int {
    choose|i: int| 0 <= i < s.len() && s[i] >= 64 && forall|j: int| 0 <= j < i ==> s[j] < 64
}

/// The alphabet characters of the codes in `s`.
pub open spec fn alphabet_text(s: Seq<u8>) -> Seq<u8> {
    s.map_values(|c: u8| alphabet_byte(c as int))
}

/// The base64 text that a symbol stream stands for, or why there is none.
pub open spec fn unframe_spec(s: Seq<u8>) -> Result<Seq<u8>, DecodeError> {
    let t = trim_zeros(s);
    if t.len() == 0 {
        Err(DecodeError::MissingPadMarker)
    } else if t.last() > 3 {
        Err(DecodeError::InvalidPadMarker { marker: t.last() })
    } else if has_invalid(t.drop_last()) {
        Err(DecodeError::InvalidSymbol { index: first_invalid(t.drop_last()) as usize })
    } else {
        Ok(alphabet_text(t.drop_last()) + pads((t.last() - 1) as nat))
    }
}

proof fn lemma_no_pad_count(t: Seq<u8>)
    requires
        forall|i: int| 0 <= i < t.len() ==> t[i] != PAD,
    ensures
        pad_count(t) == 0,
    decreases t.len(),
{
    if t.len() > 0 {
        lemma_no_pad_count(t.drop_last());
    }
}

/// Rebuilding text from its symbols and pad count gives the text back,
/// wherever its `=` all stand at its end.
pub proof fn lemma_rebuild(t: Seq<u8>)
    requires
        forall|i: int| 0 <= i < t.len() ==> is_alphabet(#[trigger] t[i]) || t[i] == PAD,
        forall|i: int, j: int|
            0 <= i < j < t.len() && #[trigger] t[i] == PAD ==> #[trigger] t[j] == PAD,
    ensures
        alphabet_text(body_codes(t)) + pads(pad_count(t)) == t,
    decreases t.len(),
{
    if t.len() > 0 {
        let u = t.drop_last();
        assert forall|i: int| 0 <= i < u.len() implies is_alphabet(#[trigger] u[i]) || u[i] == PAD by {
            assert(t[i] == u[i]);
        }
        assert forall|i: int, j: int|
            0 <= i < j < u.len() && #[trigger] u[i] == PAD implies #[trigger] u[j] == PAD by {
            assert(t[i] == u[i] && t[j] == u[j]);
        }
        lemma_rebuild(u);
        if t.last() == PAD {
            assert(alphabet_text(body_codes(t)) + pads(pad_count(t)) =~= (alphabet_text(
                body_codes(u),
            ) + pads(pad_count(u))).push(PAD));
            assert(u.push(PAD) =~= t);
        } else {
            assert forall|i: int| 0 <= i < u.len() implies u[i] != PAD by {
                if u[i] == PAD {
                    assert(t[i] == PAD);
                    assert(t[t.len() - 1] == PAD);
                }
            }
            lemma_no_pad_count(u);
            lemma_char_round_trip(t.last());
            assert(alphabet_text(body_codes(t)) =~= alphabet_text(body_codes(u)).push(t.last()));
            assert(pads(0) =~= Seq::<u8>::empty());
            assert(alphabet_text(body_codes(u)) + pads(0) =~= alphabet_text(body_codes(u)));
            assert(alphabet_text(body_codes(t)) + pads(pad_count(t)) =~= alphabet_text(body_codes(t)));
            assert(u.push(t.last()) =~= t);
        }
    }
}

/// Trailing zeros after a nonzero byte are exactly what trimming removes.
pub proof fn lemma_trim_filler(m: Seq<u8>, k: nat)
    requires
        m.len() > 0,
        m.last() != 0,
    ensures
        trim_zeros(m + zeros(k)) == m,
    decreases k,
{
    if k == 0 {
        assert(m + zeros(0) =~= m);
    } else {
        assert((m + zeros(k)).drop_last() =~= m + zeros((k - 1) as nat));
        lemma_trim_filler(m, (k - 1) as nat);
    }
}

/// Unframing the frame of standard base64 text gives the text back.
pub proof fn lemma_unframe_frame(t: Seq<u8>, align: nat)
    requires
        base64_shaped(t),
    ensures
        unframe_spec(frame_spec(t, align)) == Ok::<Seq<u8>, DecodeError>(t),
{
    lemma_unframe_marked(t, filler_len(marked(t).len(), align));
}

/// However many zeros follow the pad marker, unframing gives the text back.
pub proof fn lemma_unframe_marked(t: Seq<u8>, k: nat)
    requires
        base64_shaped(t),
    ensures
        unframe_spec(marked(t) + zeros(k)) == Ok::<Seq<u8>, DecodeError>(t),
{
    lemma_pad_bound(t);
    let m = marked(t);
    lemma_trim_filler(m, k);
    assert(m.drop_last() =~= body_codes(t));
    lemma_rebuild(t);
    assert forall|i: int| 0 <= i < body_codes(t).len() implies body_codes(t)[i] < 64 by {
        lemma_body_codes_valid(t);
    }
}

/// Every code taken from text is below 64.
pub proof fn lemma_body_codes_valid(t: Seq<u8>)
    ensures
        forall|i: int| 0 <= i < body_codes(t).len() ==> body_codes(t)[i] < 64,
    decreases t.len(),
{
    if t.len() > 0 {
        lemma_body_codes_valid(t.drop_last());
        let b = body_codes(t.drop_last());
        if t.last() != PAD {
            assert(0 <= code_of(t.last()) < 64);
            assert forall|i: int| 0 <= i < body_codes(t).len() implies body_codes(t)[i] < 64 by {
                if i < b.len() {
                    assert(body_codes(t)[i] == b[i]);
                }
            }
        }
    }
}

proof fn lemma_pad_count_prefix(t: Seq<u8>, i: int)
    requires
        base64_shaped(t),
        0 <= i <= t.len(),
    ensures
        pad_count(t.take(i)) <= (if i + 2 > t.len() { i + 2 - t.len() } else { 0 }),
    decreases i,
{
    if i > 0 {
        lemma_pad_count_prefix(t, i - 1);
        assert(t.take(i).drop_last() =~= t.take(i - 1));
    }
}

/// Standard base64 text holds at most two `=`.
pub proof fn lemma_pad_bound(t: Seq<u8>)
    requires
        base64_shaped(t),
    ensures
        pad_count(t) <= 2,
{
    lemma_pad_count_prefix(t, t.len() as int);
    assert(t.take(t.len() as int) =~= t);
}

/// The symbol stream of standard base64 text `t`, padded with zeros to a
/// multiple of `align`.
pub fn frame(t: &[u8], align: usize) -> (r: Vec<u8>)
    requires
        base64_shaped(t@),
        1 <= align <= 4,
        t@.len() + 8 <= usize::MAX,
    ensures
        r@ == frame_spec(t@, align as nat),
        r@.len() % (align as nat) == 0,
        r@.len() <= t@.len() + 4,
{
    let n = t.len();
    let mut v: Vec<u8> = Vec::new();
    let mut count: usize = 0;
    let mut i: usize = 0;
    while i < n
        invariant
            n == t@.len(),
            i <= n,
            base64_shaped(t@),
            v@ == body_codes(t@.take(i as int)),
            count == pad_count(t@.take(i as int)),
            v@.len() <= i,
        decreases n - i,
    {
        proof {
            lemma_pad_count_prefix(t@, i + 1);
            assert(t@.take(i + 1).drop_last() =~= t@.take(i as int));
        }
        let b = t[i];
        if b == PAD {
            count += 1;
        } else {
            match forward(b) {
                Some(c) => v.push(c),
                None => {},
            }
        }
        i += 1;
    }
    proof {
        assert(t@.take(n as int) =~= t@);
        lemma_pad_bound(t@);
    }
    v.push((count + 1) as u8);
    let m = v.len();
    let fill: usize = if m % align == 0 { 0 } else { align - m % align };
    let mut j: usize = 0;
    while j < fill
        invariant
            j <= fill,
            fill < align,
            m == marked(t@).len(),
            v@ == marked(t@) + zeros(j as nat),
            m <= n + 1,
        decreases fill - j,
    {
        v.push(0);
        j += 1;
        assert(v@ =~= marked(t@) + zeros(j as nat));
    }
    proof {
        assert(marked(t@).len() == m);
        if m % align != 0 {
            assert((m + (align - m % align)) % (align as int) == 0) by (nonlinear_arith)
                requires align >= 1;
        }
    }
    v
}

/// The base64 text that symbol stream `s` stands for: the characters of its
/// symbols up to the pad marker, then one `=` fewer than the marker says.
pub fn unframe(s: &[u8]) -> (r: Result<Vec<u8>, DecodeError>)
    requires
        s@.len() + 4 <= usize::MAX,
    ensures
        match unframe_spec(s@) {
            Ok(t) => r is Ok && r->Ok_0@ == t,
            Err(e) => r == Err::<Vec<u8>, DecodeError>(e),
        },
        r matches Ok(t) ==> t@.len() <= s@.len() + 2,
{
    let mut n = s.len();
    proof {
        assert(s@.take(n as int) =~= s@);
    }
    while n > 0 && s[n - 1] == 0
        invariant
            n <= s@.len(),
            trim_zeros(s@) == trim_zeros(s@.take(n as int)),
        decreases n,
    {
        proof {
            assert(s@.take(n as int).drop_last() =~= s@.take(n - 1));
        }
        n -= 1;
    }
    let ghost t = s@.take(n as int);
    assert(trim_zeros(s@) == t);
    if n == 0 {
        return Err(DecodeError::MissingPadMarker);
    }
    let marker = s[n - 1];
    if marker > 3 {
        return Err(DecodeError::InvalidPadMarker { marker });
    }
    let mut text: Vec<u8> = Vec::new();
    let mut i: usize = 0;
    while i < n - 1
        invariant
            0 < n <= s@.len(),
            t == s@.take(n as int),
            trim_zeros(s@) == t,
            t.last() == marker,
            marker <= 3,
            i <= n - 1,
            text@ == alphabet_text(t.drop_last().take(i as int)),
            forall|j: int| 0 <= j < i ==> t.drop_last()[j] < 64,
        decreases n - 1 - i,
    {
        match reverse(s[i]) {
            Some(c) => {
                text.push(c);
            },
            None => {
                proof {
                    let u = t.drop_last();
                    assert(u[i as int] >= 64);
                    let ii = i as int;
                    assert(u[ii] == s@[ii]);
                    assert(0 <= ii < u.len() && u[ii] >= 64 && forall|j: int|
                        0 <= j < ii ==> u[j] < 64);
                    assert(has_invalid(u));
                    let f = first_invalid(u);
                    assert(0 <= f < u.len() && u[f] >= 64 && forall|j: int| 0 <= j < f ==> u[j] < 64);
                    if f < ii {
                        assert(u[f] < 64);
                    } else if f > ii {
                        assert(u[ii] < 64);
                    }
                    assert(f == ii);
                }
                return Err(DecodeError::InvalidSymbol { index: i });
            },
        }
        i += 1;
        assert(text@ =~= alphabet_text(t.drop_last().take(i as int)));
    }
    assert(t.drop_last().take(i as int) =~= t.drop_last());
    assert(!has_invalid(t.drop_last()));
    let ghost body = text@;
    let mut k: u8 = 1;
    while k < marker
        invariant
            1 <= k <= marker <= 3,
            text@ == body + pads((k - 1) as nat),
            body.len() == n - 1,
        decreases marker - k,
    {
        text.push(PAD);
        k += 1;
        assert(text@ =~= body + pads((k - 1) as nat));
    }
    Ok(text)
}

/// Every symbol of a frame fits in six bits.
pub proof fn lemma_frame_symbols(t: Seq<u8>, k: nat)
    requires
        base64_shaped(t),
    ensures
        all_symbols(marked(t) + zeros(k)),
{
    lemma_pad_bound(t);
    lemma_body_codes_valid(t);
    let f = marked(t) + zeros(k);
    assert forall|i: int| 0 <= i < f.len() implies #[trigger] f[i] < 64 by {
        if i < body_codes(t).len() {
            assert(f[i] == body_codes(t)[i]);
        }
    }
}

/// Text whose `=` are exactly its last `p` bytes holds `p` of them.
pub proof fn lemma_pad_count_exact(t: Seq<u8>, p: int)
    requires
        0 <= p <= t.len(),
        forall|i: int| 0 <= i < t.len() ==> (#[trigger] t[i] == PAD <==> i >= t.len() - p),
    ensures
        pad_count(t) == p,
    decreases t.len(),
{
    if t.len() > 0 {
        let u = t.drop_last();
        if p > 0 {
            assert(t[t.len() - 1] == PAD);
            assert forall|i: int| 0 <= i < u.len() implies (#[trigger] u[i] == PAD <==> i >= u.len() - (p - 1)) by {
                assert(u[i] == t[i]);
            }
            lemma_pad_count_exact(u, p - 1);
        } else {
            assert(t[t.len() - 1] != PAD);
            assert forall|i: int| 0 <= i < u.len() implies (#[trigger] u[i] == PAD <==> i >= u.len() - 0) by {
                assert(u[i] == t[i]);
            }
            lemma_pad_count_exact(u, 0);
        }
    }
}

/// Every byte of text is either an alphabet character with a code or a `=`.
pub proof fn lemma_body_len(t: Seq<u8>)
    ensures
        body_codes(t).len() + pad_count(t) == t.len(),
    decreases t.len(),
{
    if t.len() > 0 {
        lemma_body_len(t.drop_last());
    }
}

} // verus!
