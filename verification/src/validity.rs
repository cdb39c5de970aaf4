//! Structural validity of one packaged archive file.
//!
//! A well-formed archive ends in an End-Of-Central-Directory record, at
//! least 22 bytes, whose four-byte signature may be followed by a comment
//! of up to 65535 bytes.  The check therefore needs only the file length
//! and the last `65535 + 22` bytes: the signature must occur somewhere in
//! that trailing window.  Nothing is decompressed and no checksum is read.

use vstd::prelude::*;
use crate::text::dec_chars;
use vstd::slice::slice_index_get;

verus! {

/// The number of trailing bytes worth scanning: the largest comment plus
/// the End-Of-Central-Directory record itself.
pub const EOCD_SEARCH_LEN: u64 = 65557;

/// The least size of a well-formed archive: a bare
/// End-Of-Central-Directory record.
pub const EOCD_MIN_LEN: u64 = 22;

/// The End-Of-Central-Directory signature `0x50 0x4B 0x05 0x06` starts at
/// byte `i` of `b`.
pub open spec fn eocd_sig_at(b: Seq<u8>, i: int) -> bool {
    &&& 0 <= i
    &&& i + 4 <= b.len()
    &&& b[i] == 0x50u8
    &&& b[i + 1] == 0x4bu8
    &&& b[i + 2] == 0x05u8
    &&& b[i + 3] == 0x06u8
}

/// The signature occurs somewhere in `b`.
pub open spec fn has_eocd_signature(b: Seq<u8>) -> bool {
    exists|i: int| eocd_sig_at(b, i)
}

/// The reason reported for a file below the least well-formed size.
pub open spec fn too_small_reason(file_len: int) -> Seq<char> {
    "File too small ("@ + dec_chars(file_len) + " bytes, minimum 22 bytes required)"@
}

/// The reason reported when the trailing window holds no signature.
pub open spec fn missing_signature_reason() -> Seq<char> {
    "Missing ZIP signature (corrupted or incomplete transfer)"@
}

/// Classifies one archive file as structurally sound or damaged, given
/// its length and its trailing window of at most `EOCD_SEARCH_LEN` bytes:
/// sound exactly when the file can hold an End-Of-Central-Directory
/// record and the signature occurs in the window.  The scan walks the
/// window backward, so the rightmost occurrence is the one found.
pub fn classify_zip_tail(file_len: u64, tail: &[u8]) -> (r: (bool, Option<String>))
    ensures
        r.0 == (file_len >= EOCD_MIN_LEN && has_eocd_signature(tail@)),
        r.0 <==> r.1 is None,
        file_len < EOCD_MIN_LEN ==> r.1 is Some && r.1->0@ == too_small_reason(file_len as int),
        file_len >= EOCD_MIN_LEN && !has_eocd_signature(tail@) ==> r.1 is Some && r.1->0@
            == missing_signature_reason(),
{
    if file_len < EOCD_MIN_LEN {
        let mut reason = String::from_str("File too small (");
        let digits = crate::text::u64_to_string(file_len);
        reason.append(digits.as_str());
        reason.append(" bytes, minimum 22 bytes required)");
        return (false, Some(reason));
    }
    let n = tail.len();
    if n >= 4 {
        let mut i: usize = n - 3;
        while i > 0
            invariant
                file_len >= EOCD_MIN_LEN,
                i <= n - 3,
                n == tail@.len(),
                n >= 4,
                forall|j: int| i <= j ==> !eocd_sig_at(tail@, j),
            decreases i,
        {
            i = i - 1;
            if *slice_index_get(tail, i) == 0x50u8 && *slice_index_get(tail, i + 1) == 0x4bu8
                && *slice_index_get(tail, i + 2) == 0x05u8 && *slice_index_get(tail, i + 3)
                == 0x06u8 {
                assert(eocd_sig_at(tail@, i as int));
                return (true, None);
            }
            assert(!eocd_sig_at(tail@, i as int));
        }
        assert(!has_eocd_signature(tail@));
    } else {
        assert(!has_eocd_signature(tail@));
    }
    (false, Some(String::from_str("Missing ZIP signature (corrupted or incomplete transfer)")))
}

} // verus!
