//! The read / repair / write lifecycle, with the storage file modeled as a
//! value: `None` when no file exists, `Some(bytes)` for its contents. The
//! caller performs the actual I/O and hands the contents in; every decision
//! — decode, recover, propagate — is made and verified here.
//!
//! Recovery is a deliberate, narrow safety net: exactly two decode-failure
//! classes (truncation and a value-level deserialization failure) reset the
//! file to the default snapshot; every other failure is reported, so a
//! genuine schema mismatch is never silently discarded.

use vstd::prelude::*;

use crate::codec::DecodeError;
use crate::codec::decode_app_data;
use crate::codec::encode_app_data;
use crate::codec::lemma_round_trip;
use crate::codec::sdec_app_data;
use crate::codec::senc_app_data;
use crate::data::AppData;
use crate::data::AppDataView;

verus! {

/// Whether a decode failure is one of the two recognized corruption
/// classes that Read heals by resetting the file.
pub open spec fn spec_is_corruption(e: DecodeError) -> bool {
    e == DecodeError::UnexpectedEnd || e == DecodeError::Generic
}

/// Whether a decode failure is one of the two recognized corruption
/// classes that Read heals by resetting the file.
pub fn is_corruption(e: DecodeError) -> (r: bool)
    ensures
        r == spec_is_corruption(e),
{
    match e {
        DecodeError::UnexpectedEnd => true,
        DecodeError::Generic => true,
        _ => false,
    }
}

/// What one Read does, as a function of the storage file's contents: the
/// result handed to the caller, and the file's contents afterwards. A
/// missing file and a corrupted file both become the default snapshot on
/// disk; a well-formed file is left untouched; any other decode failure is
/// reported and changes nothing.
pub open spec fn spec_read_step(file: Option<Seq<u8>>) -> (Result<AppDataView, DecodeError>, Option<
    Seq<u8>,
>) {
    match file {
        None => (
            Ok(AppDataView::empty()),
            Some(senc_app_data(AppDataView::empty())),
        ),
        Some(b) => match sdec_app_data(b) {
            Ok((v, _)) => (Ok(v), Some(b)),
            Err(e) => if spec_is_corruption(e) {
                (
                    Ok(AppDataView::empty()),
                    Some(senc_app_data(AppDataView::empty())),
                )
            } else {
                (Err(e), Some(b))
            },
        },
    }
}

/// Decides one Read against the storage file's contents (`None` when no
/// file exists). On success it returns the state for the caller together
/// with the bytes that must be persisted, if any: the encoded default
/// snapshot when the file was missing or corrupted, nothing when the file
/// decoded cleanly.
pub fn read_step(file: Option<&Vec<u8>>) -> (r: Result<
    (AppData, Option<Vec<u8>>),
    DecodeError,
>)
    ensures
        (match r {
            Ok((state, w)) => spec_read_step(crate::paths::opt_view(file)) == (
                Ok::<AppDataView, DecodeError>(state@),
                match w {
                    Some(ref b) => Some(b@),
                    None => crate::paths::opt_view(file),
                },
            ),
            Err(e) => spec_read_step(crate::paths::opt_view(file)) == (
                Err::<AppDataView, DecodeError>(e),
                crate::paths::opt_view(file),
            ),
        }),
        (match file {
            None => r matches Ok((state, w)) && state@ == AppDataView::empty() && (
            w matches Some(b) && b@ == senc_app_data(AppDataView::empty())),
            Some(bytes) => match sdec_app_data(bytes@) {
                Ok((v, _)) => r matches Ok((state, w)) && state@ == v && state@.wf() && w is None,
                Err(e) => if spec_is_corruption(e) {
                    r matches Ok((state, w)) && state@ == AppDataView::empty() && (
                    w matches Some(b) && b@ == senc_app_data(AppDataView::empty()))
                } else {
                    r matches Err(e2) && e2 == e
                },
            },
        }),
{
    match file {
        None => {
            let d = AppData::default();
            let bytes = encode_app_data(&d);
            Ok((d, Some(bytes)))
        },
        Some(b) => match decode_app_data(b) {
            Ok(state) => Ok((state, None)),
            Err(e) => {
                if is_corruption(e) {
                    let d = AppData::default();
                    let bytes = encode_app_data(&d);
                    Ok((d, Some(bytes)))
                } else {
                    Err(e)
                }
            },
        },
    }
}

/// Reading with no storage file yields the default state and writes the
/// default snapshot; a second read then finds that snapshot, yields the
/// same default state again, and leaves the file as it is. So the
/// default write is idempotent, and the file exists from the first read
/// on.
pub proof fn lemma_default_read_idempotent()
    ensures
        ({
            let (r1, f1) = spec_read_step(None);
            let (r2, f2) = spec_read_step(f1);
            &&& r1 == Ok::<AppDataView, DecodeError>(AppDataView::empty())
            &&& f1 == Some(senc_app_data(AppDataView::empty()))
            &&& r2 == r1
            &&& f2 == f1
        }),
{
    lemma_round_trip(AppDataView::empty());
}

/// Corruption recovery never loops: when the stored bytes fail to decode
/// with one of the two recognized corruption classes, the read succeeds
/// with the default state and resets the file to the default snapshot,
/// and every later read of that snapshot succeeds with the same state
/// without touching the file again.
pub proof fn lemma_corruption_recovers(bytes: Seq<u8>)
    requires
        sdec_app_data(bytes) matches Err(e) && spec_is_corruption(e),
    ensures
        ({
            let (r1, f1) = spec_read_step(Some(bytes));
            let (r2, f2) = spec_read_step(f1);
            &&& r1 == Ok::<AppDataView, DecodeError>(AppDataView::empty())
            &&& f1 == Some(senc_app_data(AppDataView::empty()))
            &&& r2 == r1
            &&& f2 == f1
        }),
{
    lemma_round_trip(AppDataView::empty());
}

/// A storage file holding a truncated encoding of any well-formed state —
/// what a crash in the middle of a write leaves behind — is healed: the
/// read succeeds with the default state and resets the file to the default
/// snapshot, and later reads succeed normally.
pub proof fn lemma_truncated_read_resets(v: AppDataView, m: int)
    requires
        v.wf(),
        crate::codec::encodable(v),
        0 <= m < senc_app_data(v).len(),
    ensures
        ({
            let (r1, f1) = spec_read_step(Some(senc_app_data(v).take(m)));
            let (r2, f2) = spec_read_step(f1);
            &&& r1 == Ok::<AppDataView, DecodeError>(AppDataView::empty())
            &&& f1 == Some(senc_app_data(AppDataView::empty()))
            &&& r2 == r1
            &&& f2 == f1
        }),
{
    crate::codec::lemma_truncation_is_unexpected_end(v, m);
    lemma_corruption_recovers(senc_app_data(v).take(m));
}

/// A decode failure outside the two corruption classes is reported to the
/// caller as it is, and the stored bytes are not touched: the reset path
/// never masks it.
pub proof fn lemma_bad_payload_propagates(bytes: Seq<u8>)
    requires
        sdec_app_data(bytes) matches Err(e) && !spec_is_corruption(e),
    ensures
        spec_read_step(Some(bytes)) == (
            Err::<AppDataView, DecodeError>(sdec_app_data(bytes)->Err_0),
            Some(bytes),
        ),
{
}

} // verus!
