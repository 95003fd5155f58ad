//! The on-disk record format: a compact binary encoding of [`AppData`]
//! built from variable-length integers, length-prefixed byte strings,
//! one-byte markers for optional fields, and a counted entry list.
//!
//! Every value is encoded and decoded by this module's own verified code;
//! the central theorem is that decoding an encoding yields the value back.

use vstd::prelude::*;

use crate::data::AppData;
use crate::data::AppDataView;
use crate::data::BonelabPlatform;
use crate::data::InstalledMod;
use crate::data::InstalledModView;
use crate::data::entries_wf;
use crate::data::has_key;
use crate::data::seq_install;

verus! {

/// Why a stored snapshot failed to decode.
#[derive(Clone, Copy, Debug, PartialEq, Eq, Structural)]
pub enum DecodeError {
    /// The input ended in the middle of a value. One of the two recognized
    /// corruption classes: a crash during a write leaves exactly this.
    UnexpectedEnd,
    /// A variable-length integer ran past its longest allowed form or does
    /// not fit in 64 bits.
    BadVarint,
    /// The marker byte of an optional field was neither 0 nor 1.
    BadOptionTag,
    /// An enum discriminant byte named no variant.
    BadVariant,
    /// A value-level failure reported by a field's own decoder rather than
    /// by the wire layout. The other recognized corruption class.
    Generic,
}

/// Strict upper bound on the value a variable-length integer can carry in
/// `rem` remaining bytes: 2 * 128 ^ (rem - 1). The final byte of a maximal
/// 10-byte form may only hold 0 or 1, so that exactly the 64-bit range is
/// representable.
pub open spec fn varint_bound(rem: int) -> int
    decreases rem,
{
    if rem <= 1 {
        2
    } else {
        128 * varint_bound(rem - 1)
    }
}

/// Little-endian base-128 encoding: each byte carries seven low-order bits,
/// and its high bit says whether another byte follows.
pub open spec fn senc_varint(v: u64) -> Seq<u8>
    decreases v,
{
    if v < 128 {
        seq![v as u8]
    } else {
        seq![((v % 128) + 128) as u8] + senc_varint((v / 128) as u64)
    }
}

/// Decodes a variable-length integer at position `i` of `s`, with `rem`
/// bytes of the longest form still allowed (10 at the start).
pub open spec fn sdec_varint(s: Seq<u8>, i: int, rem: int) -> Result<(u64, int), DecodeError>
    decreases rem,
{
    if rem <= 0 {
        Err(DecodeError::BadVarint)
    } else if !(0 <= i < s.len()) {
        Err(DecodeError::UnexpectedEnd)
    } else {
        let b = s[i];
        if b < 128 {
            if rem == 1 && b > 1 {
                Err(DecodeError::BadVarint)
            } else {
                Ok((b as u64, i + 1))
            }
        } else {
            match sdec_varint(s, i + 1, rem - 1) {
                Ok((hi, j)) => Ok((((b - 128) + 128 * hi) as u64, j)),
                Err(e) => Err(e),
            }
        }
    }
}

/// `varint_bound` grows with the byte budget and tops out at exactly the
/// 64-bit range for the full 10-byte form.
pub proof fn lemma_varint_bound_values()
    ensures
        varint_bound(1) == 2,
        varint_bound(9) == 0x200000000000000,
        varint_bound(10) == 0x10000000000000000,
        forall|a: int, b: int| 1 <= a <= b ==> varint_bound(a) <= varint_bound(b),
{
    assert(varint_bound(1) == 2);
    assert(varint_bound(2) == 256);
    assert(varint_bound(3) == 0x8000);
    assert(varint_bound(4) == 0x400000);
    assert(varint_bound(5) == 0x20000000);
    assert(varint_bound(6) == 0x1000000000);
    assert(varint_bound(7) == 0x80000000000);
    assert(varint_bound(8) == 0x4000000000000);
    assert(varint_bound(9) == 0x200000000000000);
    assert(varint_bound(10) == 0x10000000000000000);
    assert forall|a: int, b: int| 1 <= a <= b implies varint_bound(a) <= varint_bound(b) by {
        lemma_varint_bound_mono(a, b);
    }
}

proof fn lemma_varint_bound_pos(a: int)
    requires
        1 <= a,
    ensures
        varint_bound(a) >= 2,
    decreases a,
{
    if a > 1 {
        lemma_varint_bound_pos(a - 1);
    }
}

proof fn lemma_varint_bound_mono(a: int, b: int)
    requires
        1 <= a <= b,
    ensures
        varint_bound(a) <= varint_bound(b),
        varint_bound(a) >= 2,
    decreases b,
{
    lemma_varint_bound_pos(a);
    if a < b {
        lemma_varint_bound_mono(a, b - 1);
        lemma_varint_bound_pos(b - 1);
    }
}

/// A successful decode yields a value below the budget's bound and lands
/// strictly past its starting position, within the input.
pub proof fn lemma_sdec_varint_bound(s: Seq<u8>, i: int, rem: int)
    requires
        1 <= rem <= 10,
    ensures
        (match sdec_varint(s, i, rem) {
            Ok(r) => {
                &&& r.0 < varint_bound(rem)
                &&& i + 1 <= r.1 <= s.len()
            },
            Err(_) => true,
        }),
    decreases rem,
{
    lemma_varint_bound_values();
    if 0 <= i < s.len() {
        let b = s[i];
        if b >= 128 && rem >= 2 {
            lemma_sdec_varint_bound(s, i + 1, rem - 1);
            if let Ok((hi, j)) = sdec_varint(s, i + 1, rem - 1) {
                lemma_varint_bound_mono(rem - 1, 9);
                assert((b - 128) + 128 * hi < 128 * varint_bound(rem - 1));
                assert((b - 128) + 128 * hi < 0x10000000000000000);
            }
        }
    }
}

/// The encoding of `v` takes at most `n` bytes whenever `v` is below the
/// bound for `n` bytes.
proof fn lemma_senc_varint_len(v: u64, n: int)
    requires
        1 <= n,
        v < varint_bound(n),
    ensures
        1 <= senc_varint(v).len() <= n,
    decreases v,
{
    if v >= 128 {
        assert(varint_bound(1) == 2);
        lemma_varint_bound_mono(1, n);
        if n == 1 {
            assert(varint_bound(n) == 2);
            assert(false);
        }
        assert(varint_bound(n) == 128 * varint_bound(n - 1));
        assert((v / 128) < varint_bound(n - 1)) by {
            assert(v < 128 * varint_bound(n - 1));
            assert(v / 128 <= v);
        }
        lemma_senc_varint_len((v / 128) as u64, n - 1);
    }
}

/// The encoding of any 64-bit value fits in 10 bytes.
pub proof fn lemma_senc_varint_len10(v: u64)
    ensures
        1 <= senc_varint(v).len() <= 10,
{
    lemma_varint_bound_values();
    lemma_senc_varint_len(v, 10);
}

/// Decoding reads back exactly what encoding wrote: if the bytes of
/// `senc_varint(v)` sit at position `i` of `s`, decoding at `i` succeeds
/// with `v` and stops right after them.
pub proof fn lemma_varint_round(s: Seq<u8>, i: int, rem: int, v: u64)
    requires
        0 <= i,
        i + senc_varint(v).len() <= s.len(),
        s.subrange(i, i + senc_varint(v).len()) == senc_varint(v),
        senc_varint(v).len() <= rem <= 10,
        v < varint_bound(rem),
    ensures
        sdec_varint(s, i, rem) == Ok::<(u64, int), DecodeError>((v, i + senc_varint(v).len())),
    decreases rem,
{
    let e = senc_varint(v);
    let n = e.len() as int;
    assert(s.subrange(i, i + n)[0] == s[i]);
    if v < 128 {
        assert(e == seq![v as u8]);
        assert(s[i] == v as u8);
        if rem == 1 {
            assert(v < varint_bound(1));
            assert(varint_bound(1) == 2);
        }
    } else {
        assert(s[i] == ((v % 128) + 128) as u8);
        assert(s[i] >= 128);
        let v2 = (v / 128) as u64;
        let e2 = senc_varint(v2);
        assert(e == seq![((v % 128) + 128) as u8] + e2);
        assert(e2.len() == n - 1);
        assert(s.subrange(i + 1, i + n) == e2) by {
            assert forall|k: int| 0 <= k < n - 1 implies s.subrange(i + 1, i + n)[k] == e2[k] by {
                assert(s.subrange(i + 1, i + n)[k] == s[i + 1 + k]);
                assert(s.subrange(i, i + n)[k + 1] == s[i + 1 + k]);
                assert(e[k + 1] == e2[k]);
            }
            assert(s.subrange(i + 1, i + n) =~= e2);
        }
        if rem == 1 {
            assert(varint_bound(1) == 2);
            assert(false);
        }
        assert(varint_bound(rem) == 128 * varint_bound(rem - 1));
        assert(v2 < varint_bound(rem - 1)) by {
            assert(v < 128 * varint_bound(rem - 1));
            assert(v / 128 <= v);
        }
        lemma_varint_round(s, i + 1, rem - 1, v2);
        assert(sdec_varint(s, i + 1, rem - 1) == Ok::<(u64, int), DecodeError>((v2, i + n)));
        assert((s[i] - 128) + 128 * v2 == v) by {
            assert(s[i] == ((v % 128) + 128) as u8);
            assert(0 <= v % 128 < 128);
            assert(s[i] - 128 == v % 128);
            assert(v == 128 * (v / 128) + v % 128);
        }
    }
}

/// Splitting a known subrange: if `a + b` sits at position `i` of `s`, then
/// `a` sits at `i` and `b` right after it.
pub proof fn lemma_subrange_split(s: Seq<u8>, i: int, a: Seq<u8>, b: Seq<u8>)
    requires
        0 <= i,
        i + a.len() + b.len() <= s.len(),
        s.subrange(i, i + a.len() + b.len()) == a + b,
    ensures
        s.subrange(i, i + a.len()) == a,
        s.subrange(i + a.len(), i + a.len() + b.len()) == b,
{
    let w = s.subrange(i, i + a.len() + b.len());
    assert forall|k: int| 0 <= k < a.len() implies s.subrange(i, i + a.len())[k] == a[k] by {
        assert(s.subrange(i, i + a.len())[k] == s[i + k]);
        assert(w[k] == s[i + k]);
        assert((a + b)[k] == a[k]);
    }
    assert(s.subrange(i, i + a.len()) =~= a);
    assert forall|k: int|
        0 <= k < b.len() implies s.subrange(i + a.len(), i + a.len() + b.len())[k] == b[k] by {
        assert(s.subrange(i + a.len(), i + a.len() + b.len())[k] == s[i + a.len() + k]);
        assert(w[a.len() + k] == s[i + a.len() + k]);
        assert((a + b)[a.len() + k] == b[k]);
    }
    assert(s.subrange(i + a.len(), i + a.len() + b.len()) =~= b);
}

/// A length-prefixed byte string: the length as a variable-length integer,
/// then the bytes themselves.
pub open spec fn senc_bytes(b: Seq<u8>) -> Seq<u8> {
    senc_varint(b.len() as u64) + b
}

/// Decodes a length-prefixed byte string at position `i` of `s`.
pub open spec fn sdec_bytes(s: Seq<u8>, i: int) -> Result<(Seq<u8>, int), DecodeError> {
    match sdec_varint(s, i, 10) {
        Ok((n, j)) => if j + n <= s.len() {
            Ok((s.subrange(j, j + n), j + n))
        } else {
            Err(DecodeError::UnexpectedEnd)
        },
        Err(e) => Err(e),
    }
}

/// Decoding reads back exactly the byte string that encoding wrote.
pub proof fn lemma_bytes_round(s: Seq<u8>, i: int, b: Seq<u8>)
    requires
        0 <= i,
        b.len() <= u64::MAX,
        i + senc_bytes(b).len() <= s.len(),
        s.subrange(i, i + senc_bytes(b).len()) == senc_bytes(b),
    ensures
        sdec_bytes(s, i) == Ok::<(Seq<u8>, int), DecodeError>((b, i + senc_bytes(b).len())),
{
    let n = b.len() as u64;
    let ev = senc_varint(n);
    let k = ev.len() as int;
    lemma_senc_varint_len10(n);
    lemma_varint_bound_values();
    lemma_subrange_split(s, i, ev, b);
    lemma_varint_round(s, i, 10, n);
    assert(sdec_varint(s, i, 10) == Ok::<(u64, int), DecodeError>((n, i + k)));
    assert(i + k + n <= s.len());
    assert(s.subrange(i + k, i + k + n) == b);
}

/// An optional byte string: a marker byte 0 for unset, or 1 followed by the
/// string.
pub open spec fn senc_opt_bytes(o: Option<Seq<u8>>) -> Seq<u8> {
    match o {
        None => seq![0u8],
        Some(b) => seq![1u8] + senc_bytes(b),
    }
}

/// Decodes an optional byte string at position `i` of `s`.
pub open spec fn sdec_opt_bytes(s: Seq<u8>, i: int) -> Result<(Option<Seq<u8>>, int), DecodeError> {
    if !(0 <= i < s.len()) {
        Err(DecodeError::UnexpectedEnd)
    } else if s[i] == 0 {
        Ok((None, i + 1))
    } else if s[i] == 1 {
        match sdec_bytes(s, i + 1) {
            Ok((b, j)) => Ok((Some(b), j)),
            Err(e) => Err(e),
        }
    } else {
        Err(DecodeError::BadOptionTag)
    }
}

/// Decoding reads back exactly the optional byte string that encoding wrote.
pub proof fn lemma_opt_bytes_round(s: Seq<u8>, i: int, o: Option<Seq<u8>>)
    requires
        0 <= i,
        (o matches Some(b) ==> b.len() <= u64::MAX),
        i + senc_opt_bytes(o).len() <= s.len(),
        s.subrange(i, i + senc_opt_bytes(o).len()) == senc_opt_bytes(o),
    ensures
        sdec_opt_bytes(s, i) == Ok::<(Option<Seq<u8>>, int), DecodeError>(
            (o, i + senc_opt_bytes(o).len()),
        ),
{
    let e = senc_opt_bytes(o);
    assert(s.subrange(i, i + e.len())[0] == s[i]);
    match o {
        None => {
            assert(e == seq![0u8]);
            assert(s[i] == 0);
        },
        Some(b) => {
            assert(e == seq![1u8] + senc_bytes(b));
            lemma_subrange_split(s, i, seq![1u8], senc_bytes(b));
            assert(s[i] == 1);
            lemma_bytes_round(s, i + 1, b);
        },
    }
}

/// A device variant as a single discriminant byte.
pub open spec fn senc_platform(p: BonelabPlatform) -> Seq<u8> {
    match p {
        BonelabPlatform::Windows => seq![0u8],
        BonelabPlatform::Quest => seq![1u8],
    }
}

/// Decodes a device variant at position `i` of `s`.
pub open spec fn sdec_platform(s: Seq<u8>, i: int) -> Result<(BonelabPlatform, int), DecodeError> {
    if !(0 <= i < s.len()) {
        Err(DecodeError::UnexpectedEnd)
    } else if s[i] == 0 {
        Ok((BonelabPlatform::Windows, i + 1))
    } else if s[i] == 1 {
        Ok((BonelabPlatform::Quest, i + 1))
    } else {
        Err(DecodeError::BadVariant)
    }
}

/// An optional device variant: a marker byte 0 for unset, or 1 followed by
/// the variant.
pub open spec fn senc_opt_platform(o: Option<BonelabPlatform>) -> Seq<u8> {
    match o {
        None => seq![0u8],
        Some(p) => seq![1u8] + senc_platform(p),
    }
}

/// Decodes an optional device variant at position `i` of `s`.
pub open spec fn sdec_opt_platform(s: Seq<u8>, i: int) -> Result<
    (Option<BonelabPlatform>, int),
    DecodeError,
> {
    if !(0 <= i < s.len()) {
        Err(DecodeError::UnexpectedEnd)
    } else if s[i] == 0 {
        Ok((None, i + 1))
    } else if s[i] == 1 {
        match sdec_platform(s, i + 1) {
            Ok((p, j)) => Ok((Some(p), j)),
            Err(e) => Err(e),
        }
    } else {
        Err(DecodeError::BadOptionTag)
    }
}

/// Decoding reads back exactly the optional variant that encoding wrote.
pub proof fn lemma_opt_platform_round(s: Seq<u8>, i: int, o: Option<BonelabPlatform>)
    requires
        0 <= i,
        i + senc_opt_platform(o).len() <= s.len(),
        s.subrange(i, i + senc_opt_platform(o).len()) == senc_opt_platform(o),
    ensures
        sdec_opt_platform(s, i) == Ok::<(Option<BonelabPlatform>, int), DecodeError>(
            (o, i + senc_opt_platform(o).len()),
        ),
{
    let e = senc_opt_platform(o);
    assert(s.subrange(i, i + e.len())[0] == s[i]);
    match o {
        None => {
            assert(s[i] == 0);
        },
        Some(p) => {
            lemma_subrange_split(s, i, seq![1u8], senc_platform(p));
            assert(s[i] == 1);
            assert(s.subrange(i + 1, i + 2)[0] == s[i + 1]);
        },
    }
}

/// An installed-mod record: the update time, then the folder bytes.
pub open spec fn senc_mod(m: InstalledModView) -> Seq<u8> {
    senc_varint(m.date_updated) + senc_bytes(m.folder)
}

/// Decodes an installed-mod record at position `i` of `s`.
pub open spec fn sdec_mod(s: Seq<u8>, i: int) -> Result<(InstalledModView, int), DecodeError> {
    match sdec_varint(s, i, 10) {
        Ok((d, j)) => match sdec_bytes(s, j) {
            Ok((f, k)) => Ok((InstalledModView { date_updated: d, folder: f }, k)),
            Err(e) => Err(e),
        },
        Err(e) => Err(e),
    }
}

/// Decoding reads back exactly the record that encoding wrote.
pub proof fn lemma_mod_round(s: Seq<u8>, i: int, m: InstalledModView)
    requires
        0 <= i,
        m.folder.len() <= u64::MAX,
        i + senc_mod(m).len() <= s.len(),
        s.subrange(i, i + senc_mod(m).len()) == senc_mod(m),
    ensures
        sdec_mod(s, i) == Ok::<(InstalledModView, int), DecodeError>(
            (m, i + senc_mod(m).len()),
        ),
{
    let ev = senc_varint(m.date_updated);
    let k = ev.len() as int;
    lemma_senc_varint_len10(m.date_updated);
    lemma_varint_bound_values();
    lemma_subrange_split(s, i, ev, senc_bytes(m.folder));
    lemma_varint_round(s, i, 10, m.date_updated);
    lemma_bytes_round(s, i + k, m.folder);
}

/// Appends the variable-length encoding of `v` to `out`.
pub fn enc_varint(v: u64, out: &mut Vec<u8>)
    ensures
        final(out)@ == old(out)@ + senc_varint(v),
    decreases v,
{
    if v < 128 {
        out.push(v as u8);
        proof {
            assert(final(out)@ =~= old(out)@ + senc_varint(v));
        }
    } else {
        out.push((v % 128 + 128) as u8);
        enc_varint(v / 128, out);
        proof {
            assert(final(out)@ =~= old(out)@ + senc_varint(v));
        }
    }
}

/// Decodes a variable-length integer at position `pos` of `buf`, with `rem`
/// bytes of the longest form still allowed.
pub fn dec_varint_at(buf: &Vec<u8>, pos: usize, rem: u64) -> (r: Result<
    (u64, usize),
    DecodeError,
>)
    requires
        1 <= rem <= 10,
    ensures
        (match (r, sdec_varint(buf@, pos as int, rem as int)) {
            (Ok((v, p)), Ok((sv, sp))) => v == sv && p as int == sp && pos < p <= buf.len(),
            (Err(e), Err(se)) => e == se,
            _ => false,
        }),
    decreases rem,
{
    if pos >= buf.len() {
        return Err(DecodeError::UnexpectedEnd);
    }
    let b = buf[pos];
    if b < 128 {
        if rem == 1 && b > 1 {
            Err(DecodeError::BadVarint)
        } else {
            Ok((b as u64, pos + 1))
        }
    } else {
        if rem == 1 {
            return Err(DecodeError::BadVarint);
        }
        match dec_varint_at(buf, pos + 1, rem - 1) {
            Ok((hi, j)) => {
                proof {
                    lemma_sdec_varint_bound(buf@, pos as int + 1, rem as int - 1);
                    lemma_varint_bound_values();
                    lemma_varint_bound_mono(rem as int - 1, 9);
                }
                Ok(((b - 128) as u64 + 128 * hi, j))
            },
            Err(e) => Err(e),
        }
    }
}

/// Appends a copy of `b` to `out`.
pub(crate) fn push_all(b: &Vec<u8>, out: &mut Vec<u8>)
    ensures
        final(out)@ == old(out)@ + b@,
{
    let n = b.len();
    let mut k: usize = 0;
    while k < n
        invariant
            n == b.len(),
            k <= n,
            out@ == old(out)@ + b@.subrange(0, k as int),
        decreases n - k,
    {
        out.push(b[k]);
        proof {
            assert(out@ =~= old(out)@ + b@.subrange(0, k as int + 1));
        }
        k += 1;
    }
    proof {
        assert(b@.subrange(0, n as int) =~= b@);
    }
}

/// Appends the length-prefixed encoding of `b` to `out`.
pub fn enc_bytes(b: &Vec<u8>, out: &mut Vec<u8>)
    ensures
        final(out)@ == old(out)@ + senc_bytes(b@),
{
    enc_varint(b.len() as u64, out);
    push_all(b, out);
    proof {
        assert(final(out)@ =~= old(out)@ + senc_bytes(b@));
    }
}

/// Decodes a length-prefixed byte string at position `pos` of `buf`.
pub fn dec_bytes_at(buf: &Vec<u8>, pos: usize) -> (r: Result<(Vec<u8>, usize), DecodeError>)
    ensures
        (match (r, sdec_bytes(buf@, pos as int)) {
            (Ok((v, p)), Ok((sv, sp))) => v@ == sv && p as int == sp && pos < p <= buf.len(),
            (Err(e), Err(se)) => e == se,
            _ => false,
        }),
{
    match dec_varint_at(buf, pos, 10) {
        Err(e) => Err(e),
        Ok((n, j)) => {
            let remaining = buf.len() - j;
            if n > remaining as u64 {
                Err(DecodeError::UnexpectedEnd)
            } else {
                let m = n as usize;
                let mut out: Vec<u8> = Vec::new();
                let mut k: usize = 0;
                while k < m
                    invariant
                        j + m <= buf.len(),
                        k <= m,
                        out@ == buf@.subrange(j as int, j as int + k as int),
                    decreases m - k,
                {
                    out.push(buf[j + k]);
                    proof {
                        assert(out@ =~= buf@.subrange(j as int, j as int + k as int + 1));
                    }
                    k += 1;
                }
                Ok((out, j + m))
            }
        },
    }
}

/// Appends the encoding of an optional byte string to `out`.
pub fn enc_opt_bytes(o: &Option<Vec<u8>>, out: &mut Vec<u8>)
    ensures
        final(out)@ == old(out)@ + senc_opt_bytes(
            match o {
                Some(b) => Some(b@),
                None => None,
            },
        ),
{
    match o {
        None => {
            out.push(0u8);
            proof {
                assert(final(out)@ =~= old(out)@ + seq![0u8]);
            }
        },
        Some(b) => {
            out.push(1u8);
            enc_bytes(b, out);
            proof {
                assert(final(out)@ =~= old(out)@ + (seq![1u8] + senc_bytes(b@)));
            }
        },
    }
}

/// Decodes an optional byte string at position `pos` of `buf`.
pub fn dec_opt_bytes_at(buf: &Vec<u8>, pos: usize) -> (r: Result<
    (Option<Vec<u8>>, usize),
    DecodeError,
>)
    ensures
        (match (r, sdec_opt_bytes(buf@, pos as int)) {
            (Ok((v, p)), Ok((sv, sp))) => (match (v, sv) {
                (Some(a), Some(b)) => a@ == b,
                (None, None) => true,
                _ => false,
            }) && p as int == sp && pos < p <= buf.len(),
            (Err(e), Err(se)) => e == se,
            _ => false,
        }),
{
    if pos >= buf.len() {
        return Err(DecodeError::UnexpectedEnd);
    }
    let tag = buf[pos];
    if tag == 0 {
        Ok((None, pos + 1))
    } else if tag == 1 {
        match dec_bytes_at(buf, pos + 1) {
            Ok((b, j)) => Ok((Some(b), j)),
            Err(e) => Err(e),
        }
    } else {
        Err(DecodeError::BadOptionTag)
    }
}

/// Appends the encoding of an optional device variant to `out`.
pub fn enc_opt_platform(o: &Option<BonelabPlatform>, out: &mut Vec<u8>)
    ensures
        final(out)@ == old(out)@ + senc_opt_platform(*o),
{
    match o {
        None => {
            out.push(0u8);
            proof {
                assert(final(out)@ =~= old(out)@ + seq![0u8]);
            }
        },
        Some(p) => {
            out.push(1u8);
            match p {
                BonelabPlatform::Windows => out.push(0u8),
                BonelabPlatform::Quest => out.push(1u8),
            }
            proof {
                assert(final(out)@ =~= old(out)@ + (seq![1u8] + senc_platform(*p)));
            }
        },
    }
}

/// Decodes an optional device variant at position `pos` of `buf`.
pub fn dec_opt_platform_at(buf: &Vec<u8>, pos: usize) -> (r: Result<
    (Option<BonelabPlatform>, usize),
    DecodeError,
>)
    ensures
        (match (r, sdec_opt_platform(buf@, pos as int)) {
            (Ok((v, p)), Ok((sv, sp))) => v == sv && p as int == sp && pos < p <= buf.len(),
            (Err(e), Err(se)) => e == se,
            _ => false,
        }),
{
    if pos >= buf.len() {
        return Err(DecodeError::UnexpectedEnd);
    }
    let tag = buf[pos];
    if tag == 0 {
        Ok((None, pos + 1))
    } else if tag == 1 {
        if pos + 1 >= buf.len() {
            return Err(DecodeError::UnexpectedEnd);
        }
        let d = buf[pos + 1];
        if d == 0 {
            Ok((Some(BonelabPlatform::Windows), pos + 2))
        } else if d == 1 {
            Ok((Some(BonelabPlatform::Quest), pos + 2))
        } else {
            Err(DecodeError::BadVariant)
        }
    } else {
        Err(DecodeError::BadOptionTag)
    }
}

/// Appends the encoding of an installed-mod record to `out`.
pub fn enc_mod(m: &InstalledMod, out: &mut Vec<u8>)
    ensures
        final(out)@ == old(out)@ + senc_mod(m@),
{
    enc_varint(m.date_updated, out);
    enc_bytes(&m.folder, out);
    proof {
        assert(final(out)@ =~= old(out)@ + senc_mod(m@));
    }
}

/// Decodes an installed-mod record at position `pos` of `buf`.
pub fn dec_mod_at(buf: &Vec<u8>, pos: usize) -> (r: Result<(InstalledMod, usize), DecodeError>)
    ensures
        (match (r, sdec_mod(buf@, pos as int)) {
            (Ok((m, p)), Ok((sm, sp))) => m@ == sm && p as int == sp && pos < p <= buf.len(),
            (Err(e), Err(se)) => e == se,
            _ => false,
        }),
{
    match dec_varint_at(buf, pos, 10) {
        Err(e) => Err(e),
        Ok((d, j)) => match dec_bytes_at(buf, j) {
            Err(e) => Err(e),
            Ok((f, k)) => Ok((InstalledMod { date_updated: d, folder: f }, k)),
        },
    }
}

/// One mod-table entry: the identifier, then the record.
pub open spec fn senc_entry(e: (u64, InstalledModView)) -> Seq<u8> {
    senc_varint(e.0) + senc_mod(e.1)
}

/// The mod-table entries, one after another in table order.
pub open spec fn senc_entries(es: Seq<(u64, InstalledModView)>) -> Seq<u8>
    decreases es.len(),
{
    if es.len() == 0 {
        Seq::empty()
    } else {
        senc_entry(es[0]) + senc_entries(es.drop_first())
    }
}

/// Appending an entry to the table appends its encoding to the bytes.
pub proof fn lemma_senc_entries_push(es: Seq<(u64, InstalledModView)>, e: (u64, InstalledModView))
    ensures
        senc_entries(es.push(e)) == senc_entries(es) + senc_entry(e),
    decreases es.len(),
{
    if es.len() == 0 {
        assert(es.push(e)[0] == e);
        assert(es.push(e).drop_first() =~= Seq::<(u64, InstalledModView)>::empty());
        assert(senc_entries(es) == Seq::<u8>::empty());
        assert(senc_entries(es.push(e).drop_first()) == Seq::<u8>::empty());
        assert(senc_entries(es.push(e)) =~= senc_entries(es) + senc_entry(e));
    } else {
        assert(es.push(e)[0] == es[0]);
        assert(es.push(e).drop_first() =~= es.drop_first().push(e));
        assert(senc_entries(es.push(e)) == senc_entry(es[0]) + senc_entries(
            es.drop_first().push(e),
        ));
        lemma_senc_entries_push(es.drop_first(), e);
        assert(senc_entries(es.push(e)) =~= senc_entries(es) + senc_entry(e));
    }
}

/// Decodes `n` mod-table entries starting at position `i` of `s`.
pub open spec fn sdec_entries(s: Seq<u8>, i: int, n: int) -> Result<
    (Seq<(u64, InstalledModView)>, int),
    DecodeError,
>
    decreases n,
{
    if n <= 0 {
        Ok((Seq::empty(), i))
    } else {
        match sdec_varint(s, i, 10) {
            Ok((k, j1)) => match sdec_mod(s, j1) {
                Ok((m, j2)) => match sdec_entries(s, j2, n - 1) {
                    Ok((rest, j3)) => Ok((seq![(k, m)] + rest, j3)),
                    Err(e) => Err(e),
                },
                Err(e) => Err(e),
            },
            Err(e) => Err(e),
        }
    }
}

/// Decoding reads back exactly the entries that encoding wrote.
pub proof fn lemma_entries_round(s: Seq<u8>, i: int, es: Seq<(u64, InstalledModView)>)
    requires
        0 <= i,
        forall|k: int| 0 <= k < es.len() ==> (#[trigger] es[k]).1.folder.len() <= u64::MAX,
        i + senc_entries(es).len() <= s.len(),
        s.subrange(i, i + senc_entries(es).len()) == senc_entries(es),
    ensures
        sdec_entries(s, i, es.len() as int) == Ok::<(Seq<(u64, InstalledModView)>, int), DecodeError>(
            (es, i + senc_entries(es).len()),
        ),
    decreases es.len(),
{
    if es.len() > 0 {
        let e0 = es[0];
        let rest = es.drop_first();
        let ev = senc_varint(e0.0);
        let em = senc_mod(e0.1);
        let ee = senc_entry(e0);
        lemma_subrange_split(s, i, ee, senc_entries(rest));
        lemma_subrange_split(s, i, ev, em);
        lemma_senc_varint_len10(e0.0);
        lemma_varint_bound_values();
        lemma_varint_round(s, i, 10, e0.0);
        lemma_mod_round(s, i + ev.len(), e0.1);
        assert(forall|k: int|
            0 <= k < rest.len() ==> (#[trigger] rest[k]).1.folder.len() <= u64::MAX) by {
            assert(forall|k: int| 0 <= k < rest.len() ==> rest[k] == es[k + 1]);
        }
        lemma_entries_round(s, i + ee.len(), rest);
        assert(seq![es[0]] + rest =~= es);
        assert(sdec_entries(s, i, es.len() as int) == Ok::<
            (Seq<(u64, InstalledModView)>, int),
            DecodeError,
        >((es, i + senc_entries(es).len())));
    } else {
        assert(senc_entries(es).len() == 0);
        assert(es =~= Seq::<(u64, InstalledModView)>::empty());
    }
}

/// The table that results from installing the decoded entries in order:
/// a later entry for an identifier replaces an earlier one, as installing
/// does.
pub open spec fn install_all(es: Seq<(u64, InstalledModView)>) -> Seq<(u64, InstalledModView)>
    decreases es.len(),
{
    if es.len() == 0 {
        Seq::empty()
    } else {
        seq_install(install_all(es.drop_last()), es.last().0, es.last().1)
    }
}

/// On a table whose identifiers are already pairwise distinct, installing
/// the entries in order rebuilds exactly that table.
pub proof fn lemma_install_all_id(es: Seq<(u64, InstalledModView)>)
    requires
        entries_wf(es),
    ensures
        install_all(es) == es,
    decreases es.len(),
{
    if es.len() > 0 {
        let p = es.drop_last();
        let e = es.last();
        assert(entries_wf(p)) by {
            assert(forall|k: int| 0 <= k < p.len() ==> p[k] == es[k]);
        }
        lemma_install_all_id(p);
        assert(!has_key(p, e.0)) by {
            if has_key(p, e.0) {
                let w = crate::data::index_of_key(p, e.0);
                assert(p[w].0 == e.0);
                assert(es[w].0 == es[es.len() - 1].0);
            }
        }
        assert(install_all(es) == p.push(e));
        assert(p.push(e) =~= es);
    }
}

/// The full snapshot: the optional token, the optional device variant, the
/// entry count, then the entries.
pub open spec fn senc_app_data(v: AppDataView) -> Seq<u8> {
    senc_opt_bytes(v.modio_token) + senc_opt_platform(v.platform) + senc_varint(
        v.installed_mods.len() as u64,
    ) + senc_entries(v.installed_mods)
}

/// Decodes a full snapshot from the start of `s`. Bytes past the snapshot
/// are ignored. Entries are installed in order, so of two entries carrying
/// the same identifier the later one wins.
pub open spec fn sdec_app_data(s: Seq<u8>) -> Result<(AppDataView, int), DecodeError> {
    match sdec_opt_bytes(s, 0) {
        Ok((tok, j1)) => match sdec_opt_platform(s, j1) {
            Ok((plat, j2)) => match sdec_varint(s, j2, 10) {
                Ok((n, j3)) => match sdec_entries(s, j3, n as int) {
                    Ok((es, j4)) => Ok(
                        (
                            AppDataView {
                                modio_token: tok,
                                platform: plat,
                                installed_mods: install_all(es),
                            },
                            j4,
                        ),
                    ),
                    Err(e) => Err(e),
                },
                Err(e) => Err(e),
            },
            Err(e) => Err(e),
        },
        Err(e) => Err(e),
    }
}

/// A snapshot is encodable when its byte strings and its entry count fit
/// the 64-bit length fields. Every value built from in-memory vectors does.
pub open spec fn encodable(v: AppDataView) -> bool {
    &&& (v.modio_token matches Some(t) ==> t.len() <= u64::MAX)
    &&& v.installed_mods.len() <= u64::MAX
    &&& forall|k: int|
        0 <= k < v.installed_mods.len() ==> (#[trigger] v.installed_mods[k]).1.folder.len()
            <= u64::MAX
}

/// Round trip: decoding an encoded snapshot yields the snapshot back, for
/// every well-formed encodable state, and consumes exactly its bytes.
#[verifier::rlimit(60)]
pub proof fn lemma_round_trip(v: AppDataView)
    requires
        v.wf(),
        encodable(v),
    ensures
        sdec_app_data(senc_app_data(v)) == Ok::<(AppDataView, int), DecodeError>(
            (v, senc_app_data(v).len() as int),
        ),
{
    let s = senc_app_data(v);
    let e1 = senc_opt_bytes(v.modio_token);
    let e2 = senc_opt_platform(v.platform);
    let e3 = senc_varint(v.installed_mods.len() as u64);
    let e4 = senc_entries(v.installed_mods);
    assert(s =~= e1 + (e2 + (e3 + e4)));
    assert(s.subrange(0, s.len() as int) =~= s);
    lemma_subrange_split(s, 0, e1, e2 + (e3 + e4));
    lemma_opt_bytes_round(s, 0, v.modio_token);
    let j1 = e1.len() as int;
    lemma_subrange_split(s, j1, e2, e3 + e4);
    lemma_opt_platform_round(s, j1, v.platform);
    let j2 = j1 + e2.len();
    lemma_subrange_split(s, j2, e3, e4);
    lemma_senc_varint_len10(v.installed_mods.len() as u64);
    lemma_varint_bound_values();
    lemma_varint_round(s, j2, 10, v.installed_mods.len() as u64);
    let j3 = j2 + e3.len();
    lemma_entries_round(s, j3, v.installed_mods);
    lemma_install_all_id(v.installed_mods);
}

/// A successful byte-string decode lands strictly past its start, within
/// the input.
proof fn lemma_sdec_bytes_pos(s: Seq<u8>, i: int)
    requires
        sdec_bytes(s, i) is Ok,
    ensures
        i + 1 <= sdec_bytes(s, i)->Ok_0.1 <= s.len(),
{
    lemma_sdec_varint_bound(s, i, 10);
}

/// A successful record decode lands strictly past its start, within the
/// input.
proof fn lemma_sdec_mod_pos(s: Seq<u8>, i: int)
    requires
        sdec_mod(s, i) is Ok,
    ensures
        i + 1 <= sdec_mod(s, i)->Ok_0.1 <= s.len(),
{
    lemma_sdec_varint_bound(s, i, 10);
    let (_, j1) = sdec_varint(s, i, 10)->Ok_0;
    lemma_sdec_bytes_pos(s, j1);
}

/// A successful optional-byte-string decode lands strictly past its start,
/// within the input.
proof fn lemma_sdec_opt_bytes_pos(s: Seq<u8>, i: int)
    requires
        sdec_opt_bytes(s, i) is Ok,
    ensures
        i + 1 <= sdec_opt_bytes(s, i)->Ok_0.1 <= s.len(),
{
    if s[i] == 1 {
        lemma_sdec_bytes_pos(s, i + 1);
    }
}

/// A successful entry-list decode lands at or past its start, within the
/// input.
proof fn lemma_sdec_entries_pos(s: Seq<u8>, i: int, n: int)
    requires
        0 <= i <= s.len(),
        sdec_entries(s, i, n) is Ok,
    ensures
        i <= sdec_entries(s, i, n)->Ok_0.1 <= s.len(),
    decreases n,
{
    if n > 0 {
        lemma_sdec_varint_bound(s, i, 10);
        let (_, j1) = sdec_varint(s, i, 10)->Ok_0;
        lemma_sdec_mod_pos(s, j1);
        let (_, j2) = sdec_mod(s, j1)->Ok_0;
        lemma_sdec_entries_pos(s, j2, n - 1);
    }
}

/// Decoding looks at nothing past the bytes it consumes: on a copy of the
/// input truncated to its first `m` bytes, a decode that ended at or
/// before `m` returns the same result, and one that ended past `m` runs
/// out of input.
proof fn lemma_sdec_varint_prefix(s: Seq<u8>, m: int, i: int, rem: int)
    requires
        0 <= i <= m <= s.len(),
        1 <= rem <= 10,
        sdec_varint(s, i, rem) is Ok,
    ensures
        ({
            let j = sdec_varint(s, i, rem)->Ok_0.1;
            if j <= m {
                sdec_varint(s.take(m), i, rem) == sdec_varint(s, i, rem)
            } else {
                sdec_varint(s.take(m), i, rem) == Err::<(u64, int), DecodeError>(
                    DecodeError::UnexpectedEnd,
                )
            }
        }),
    decreases rem,
{
    let t = s.take(m);
    lemma_sdec_varint_bound(s, i, rem);
    if i < m {
        let b = s[i];
        assert(t[i] == b);
        if b >= 128 && rem >= 2 {
            lemma_sdec_varint_bound(s, i + 1, rem - 1);
            lemma_sdec_varint_prefix(s, m, i + 1, rem - 1);
        }
    }
}

/// Prefix stability of the byte-string decoder, as for `sdec_varint`.
proof fn lemma_sdec_bytes_prefix(s: Seq<u8>, m: int, i: int)
    requires
        0 <= i <= m <= s.len(),
        sdec_bytes(s, i) is Ok,
    ensures
        ({
            let j = sdec_bytes(s, i)->Ok_0.1;
            if j <= m {
                sdec_bytes(s.take(m), i) == sdec_bytes(s, i)
            } else {
                sdec_bytes(s.take(m), i) == Err::<(Seq<u8>, int), DecodeError>(
                    DecodeError::UnexpectedEnd,
                )
            }
        }),
{
    let t = s.take(m);
    lemma_sdec_varint_bound(s, i, 10);
    let (n, j1) = sdec_varint(s, i, 10)->Ok_0;
    lemma_sdec_varint_prefix(s, m, i, 10);
    let j = j1 + n;
    if j1 <= m {
        if j <= m {
            assert(t.subrange(j1, j1 + n as int) =~= s.subrange(j1, j1 + n as int));
        }
    }
}

/// Prefix stability of the record decoder, as for `sdec_varint`.
proof fn lemma_sdec_mod_prefix(s: Seq<u8>, m: int, i: int)
    requires
        0 <= i <= m <= s.len(),
        sdec_mod(s, i) is Ok,
    ensures
        ({
            let j = sdec_mod(s, i)->Ok_0.1;
            if j <= m {
                sdec_mod(s.take(m), i) == sdec_mod(s, i)
            } else {
                sdec_mod(s.take(m), i) == Err::<(InstalledModView, int), DecodeError>(
                    DecodeError::UnexpectedEnd,
                )
            }
        }),
{
    lemma_sdec_varint_bound(s, i, 10);
    let (_, j1) = sdec_varint(s, i, 10)->Ok_0;
    lemma_sdec_varint_prefix(s, m, i, 10);
    lemma_sdec_bytes_pos(s, j1);
    if j1 <= m {
        lemma_sdec_bytes_prefix(s, m, j1);
    }
}

/// Prefix stability of the optional-byte-string decoder.
proof fn lemma_sdec_opt_bytes_prefix(s: Seq<u8>, m: int, i: int)
    requires
        0 <= i <= m <= s.len(),
        sdec_opt_bytes(s, i) is Ok,
    ensures
        ({
            let j = sdec_opt_bytes(s, i)->Ok_0.1;
            if j <= m {
                sdec_opt_bytes(s.take(m), i) == sdec_opt_bytes(s, i)
            } else {
                sdec_opt_bytes(s.take(m), i) == Err::<(Option<Seq<u8>>, int), DecodeError>(
                    DecodeError::UnexpectedEnd,
                )
            }
        }),
{
    let t = s.take(m);
    lemma_sdec_opt_bytes_pos(s, i);
    if i < m {
        assert(t[i] == s[i]);
        if s[i] == 1 {
            lemma_sdec_bytes_pos(s, i + 1);
            lemma_sdec_bytes_prefix(s, m, i + 1);
        }
    }
}

/// Prefix stability of the optional-device-variant decoder.
proof fn lemma_sdec_opt_platform_prefix(s: Seq<u8>, m: int, i: int)
    requires
        0 <= i <= m <= s.len(),
        sdec_opt_platform(s, i) is Ok,
    ensures
        ({
            let j = sdec_opt_platform(s, i)->Ok_0.1;
            if j <= m {
                sdec_opt_platform(s.take(m), i) == sdec_opt_platform(s, i)
            } else {
                sdec_opt_platform(s.take(m), i) == Err::<
                    (Option<BonelabPlatform>, int),
                    DecodeError,
                >(DecodeError::UnexpectedEnd)
            }
        }),
{
    let t = s.take(m);
    if i < m {
        assert(t[i] == s[i]);
        if s[i] == 1 && i + 1 < m {
            assert(t[i + 1] == s[i + 1]);
        }
    }
}

/// Prefix stability of the entry-list decoder.
proof fn lemma_sdec_entries_prefix(s: Seq<u8>, m: int, i: int, n: int)
    requires
        0 <= i <= m <= s.len(),
        sdec_entries(s, i, n) is Ok,
    ensures
        ({
            let j = sdec_entries(s, i, n)->Ok_0.1;
            if j <= m {
                sdec_entries(s.take(m), i, n) == sdec_entries(s, i, n)
            } else {
                sdec_entries(s.take(m), i, n) == Err::<
                    (Seq<(u64, InstalledModView)>, int),
                    DecodeError,
                >(DecodeError::UnexpectedEnd)
            }
        }),
    decreases n,
{
    if n > 0 {
        lemma_sdec_varint_bound(s, i, 10);
        let (_, j1) = sdec_varint(s, i, 10)->Ok_0;
        lemma_sdec_varint_prefix(s, m, i, 10);
        lemma_sdec_mod_pos(s, j1);
        let (_, j2) = sdec_mod(s, j1)->Ok_0;
        lemma_sdec_entries_pos(s, j2, n - 1);
        if j1 <= m {
            lemma_sdec_mod_prefix(s, m, j1);
            if j2 <= m {
                lemma_sdec_entries_prefix(s, m, j2, n - 1);
            }
        }
    }
}

/// Truncation is recognized: cutting any amount off the end of a
/// well-formed snapshot's bytes leaves bytes whose decode fails with
/// exactly the end-of-input error — the corruption class that Read heals.
pub proof fn lemma_truncation_is_unexpected_end(v: AppDataView, m: int)
    requires
        v.wf(),
        encodable(v),
        0 <= m < senc_app_data(v).len(),
    ensures
        sdec_app_data(senc_app_data(v).take(m)) == Err::<(AppDataView, int), DecodeError>(
            DecodeError::UnexpectedEnd,
        ),
{
    lemma_round_trip(v);
    let s = senc_app_data(v);
    let full = s.len() as int;
    lemma_sdec_opt_bytes_pos(s, 0);
    let (_, j1) = sdec_opt_bytes(s, 0)->Ok_0;
    lemma_sdec_opt_bytes_prefix(s, m, 0);
    if j1 <= m {
        lemma_sdec_opt_platform_prefix(s, m, j1);
        let (_, j2) = sdec_opt_platform(s, j1)->Ok_0;
        if j2 <= m {
            lemma_sdec_varint_bound(s, j2, 10);
            lemma_sdec_varint_prefix(s, m, j2, 10);
            let (n, j3) = sdec_varint(s, j2, 10)->Ok_0;
            if j3 <= m {
                lemma_sdec_entries_pos(s, j3, n as int);
                lemma_sdec_entries_prefix(s, m, j3, n as int);
                let (_, j4) = sdec_entries(s, j3, n as int)->Ok_0;
                assert(j4 == full);
            }
        }
    }
}

/// Encodes a snapshot into its on-disk bytes.
pub fn encode_app_data(a: &AppData) -> (r: Vec<u8>)
    ensures
        r@ == senc_app_data(a@),
{
    let mut out: Vec<u8> = Vec::new();
    enc_opt_bytes(a.modio_token(), &mut out);
    enc_opt_platform(&a.platform(), &mut out);
    let mods = a.installed_mods();
    let ghost ev = crate::data::entries_view(mods@);
    let ghost prefix = senc_opt_bytes(a@.modio_token) + senc_opt_platform(a@.platform)
        + senc_varint(ev.len() as u64);
    enc_varint(mods.len() as u64, &mut out);
    proof {
        assert(out@ =~= prefix);
        assert(ev.take(0) =~= Seq::<(u64, InstalledModView)>::empty());
    }
    let n = mods.len();
    let mut i: usize = 0;
    while i < n
        invariant
            n == mods.len(),
            i <= n,
            ev == crate::data::entries_view(mods@),
            out@ == prefix + senc_entries(ev.take(i as int)),
        decreases n - i,
    {
        let e = &mods[i];
        enc_varint(e.0, &mut out);
        enc_mod(&e.1, &mut out);
        proof {
            assert(ev[i as int] == (mods@[i as int].0, mods@[i as int].1@));
            lemma_senc_entries_push(ev.take(i as int), ev[i as int]);
            assert(ev.take(i as int).push(ev[i as int]) =~= ev.take(i as int + 1));
            assert(out@ =~= prefix + senc_entries(ev.take(i as int + 1)));
        }
        i += 1;
    }
    proof {
        assert(ev.take(n as int) =~= ev);
        assert(out@ =~= senc_app_data(a@));
    }
    out
}

/// Decodes a snapshot from its on-disk bytes, reporting exactly how
/// arbitrary input fails.
pub fn decode_app_data(buf: &Vec<u8>) -> (r: Result<AppData, DecodeError>)
    ensures
        (match (r, sdec_app_data(buf@)) {
            (Ok(a), Ok((v, p))) => a@ == v && a@.wf(),
            (Err(e), Err(se)) => e == se,
            _ => false,
        }),
{
    let tok = match dec_opt_bytes_at(buf, 0) {
        Ok(t) => t,
        Err(e) => {
            return Err(e);
        },
    };
    let plat = match dec_opt_platform_at(buf, tok.1) {
        Ok(p) => p,
        Err(e) => {
            return Err(e);
        },
    };
    let count = match dec_varint_at(buf, plat.1, 10) {
        Ok(c) => c,
        Err(e) => {
            return Err(e);
        },
    };
    let n = count.0;
    let ghost tokv: Option<Seq<u8>> = match tok.0 {
        Some(ref b) => Some(b@),
        None => None,
    };
    let mut a = AppData::default();
    a.set_modio_token(tok.0);
    a.set_platform(plat.0);
    let ghost mut done: Seq<(u64, InstalledModView)> = Seq::empty();
    let mut j: usize = count.1;
    let mut k: u64 = 0;
    proof {
        assert(done + (match sdec_entries(buf@, j as int, n as int) {
            Ok((rest, _)) => rest,
            Err(_) => Seq::empty(),
        }) =~= (match sdec_entries(buf@, j as int, n as int) {
            Ok((rest, _)) => rest,
            Err(_) => Seq::empty(),
        }));
    }
    while k < n
        invariant
            k <= n,
            j <= buf.len(),
            a@.wf(),
            a@.modio_token == tokv,
            a@.platform == plat.0,
            a@.installed_mods == install_all(done),
            (match sdec_entries(buf@, j as int, (n - k) as int) {
                Ok((rest, p)) => sdec_app_data(buf@) == Ok::<(AppDataView, int), DecodeError>(
                    (
                        AppDataView {
                            modio_token: tokv,
                            platform: plat.0,
                            installed_mods: install_all(done + rest),
                        },
                        p,
                    ),
                ),
                Err(e) => sdec_app_data(buf@) == Err::<(AppDataView, int), DecodeError>(e),
            }),
        decreases n - k,
    {
        let key = match dec_varint_at(buf, j, 10) {
            Ok(c) => c,
            Err(e) => {
                return Err(e);
            },
        };
        let m = match dec_mod_at(buf, key.1) {
            Ok(c) => c,
            Err(e) => {
                return Err(e);
            },
        };
        proof {
            let rest0 = match sdec_entries(buf@, j as int, (n - k) as int) {
                Ok((rest, _)) => rest,
                Err(_) => Seq::empty(),
            };
            let rest1 = match sdec_entries(buf@, m.1 as int, (n - k - 1) as int) {
                Ok((rest, _)) => rest,
                Err(_) => Seq::empty(),
            };
            if sdec_entries(buf@, m.1 as int, (n - k - 1) as int) is Ok {
                assert(rest0 =~= seq![(key.0, m.0@)] + rest1);
                assert(done + rest0 =~= done.push((key.0, m.0@)) + rest1);
            }
            assert(install_all(done.push((key.0, m.0@))) == seq_install(
                install_all(done),
                key.0,
                m.0@,
            )) by {
                assert(done.push((key.0, m.0@)).drop_last() =~= done);
            }
        }
        a.install_mod(key.0, m.0);
        proof {
            done = done.push((key.0, m.0@));
        }
        j = m.1;
        k += 1;
    }
    proof {
        assert(sdec_entries(buf@, j as int, 0) == Ok::<(Seq<(u64, InstalledModView)>, int), DecodeError>(
            (Seq::empty(), j as int),
        ));
        assert(done + Seq::<(u64, InstalledModView)>::empty() =~= done);
        if let Ok((v, p)) = sdec_app_data(buf@) {
            assert(v.modio_token == a@.modio_token);
            assert(v.platform == a@.platform);
            assert(v.installed_mods == a@.installed_mods);
        }
    }
    Ok(a)
}

} // verus!
