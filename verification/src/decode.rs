//! Dispatch from a coder's method id to the external entropy decoders.
//!
//! The LZMA and LZMA2 decoders are external collaborators: each is named
//! by a spec function of its input, and the dispatcher's contract says
//! exactly which name describes the bytes it returns.
use vstd::prelude::*;
use vstd::string::StringExecFns;

use crate::error::{ArchiveError, ErrorKind};

verus! {

/// What the LZMA decoder yields for a raw stream (five property bytes
/// followed by the payload) and a caller-supplied unpack size; `None`
/// when the decoder reports an error. The result depends on the
/// arguments alone.
pub uninterp spec fn lzma_decoded(input: Seq<u8>, unpack_size: u64) -> Option<Seq<u8>>;

/// What the LZMA2 decoder yields for a payload; `None` when the decoder
/// reports an error. The result depends on the payload alone.
pub uninterp spec fn lzma2_decoded(input: Seq<u8>) -> Option<Seq<u8>>;

/// Relies on `lzma_rs::lzma_decompress_with_options`, with the unpacked
/// size supplied rather than read from the stream header: a pure
/// function of the input bytes and that size. The decoder checks the
/// produced length against the supplied size and reports an error on any
/// mismatch, so a successful result has exactly that length.
#[verifier::external_body]
fn lzma_decompress_raw(input: &Vec<u8>, unpack_size: u64) -> (r: Result<Vec<u8>, String>)
    ensures
        match r {
            Ok(v) => lzma_decoded(input@, unpack_size) == Some(v@) && v@.len() == unpack_size,
            Err(_) => lzma_decoded(input@, unpack_size) is None,
        },
{
    let mut cursor = std::io::Cursor::new(input);
    let mut out: Vec<u8> = Vec::new();
    let options = lzma_rs::decompress::Options {
        unpacked_size: lzma_rs::decompress::UnpackedSize::UseProvided(Some(unpack_size)),
        memlimit: None,
        allow_incomplete: false,
    };
    match lzma_rs::lzma_decompress_with_options(&mut cursor, &mut out, &options) {
        Ok(()) => Ok(out),
        Err(e) => Err(format!("{:?}", e)),
    }
}

/// Relies on `lzma_rs::lzma2_decompress`: a pure function of the payload.
#[verifier::external_body]
fn lzma2_decompress_raw(input: &Vec<u8>) -> (r: Result<Vec<u8>, String>)
    ensures
        match r {
            Ok(v) => lzma2_decoded(input@) == Some(v@),
            Err(_) => lzma2_decoded(input@) is None,
        },
{
    let mut cursor = std::io::Cursor::new(input);
    let mut out: Vec<u8> = Vec::new();
    match lzma_rs::lzma2_decompress(&mut cursor, &mut out) {
        Ok(()) => Ok(out),
        Err(e) => Err(format!("{:?}", e)),
    }
}

/// The method id of the LZMA2 coder.
pub open spec fn is_lzma2_id(m: Seq<u8>) -> bool {
    m == seq![0x21u8]
}

/// The method id of the LZMA coder.
pub open spec fn is_lzma_id(m: Seq<u8>) -> bool {
    m == seq![0x03u8, 0x01u8, 0x01u8]
}

/// Decodes one folder's packed payload with the coder its method id
/// picks: LZMA2 on the payload as it stands, or LZMA on the properties
/// prepended to the payload; any other id is rejected. A successful
/// decode has exactly `unpack_size` bytes: the LZMA decoder is held to
/// that size, and an LZMA2 result of any other length is rejected here.
pub fn decode(method: &Vec<u8>, reader: &Vec<u8>, properties: &Vec<u8>, unpack_size: u64) -> (r:
    Result<Vec<u8>, ArchiveError>)
    ensures
        match r {
            Ok(v) => {
                &&& (is_lzma2_id(method@) && lzma2_decoded(reader@) == Some(v@)) || (is_lzma_id(
                    method@,
                ) && lzma_decoded(properties@ + reader@, unpack_size) == Some(v@))
                &&& v@.len() == unpack_size
            },
            Err(e) => {
                if is_lzma2_id(method@) {
                    &&& lzma2_decoded(reader@) is None || (lzma2_decoded(reader@) matches Some(w)
                        && w.len() != unpack_size)
                    &&& e.kind matches ErrorKind::CodecFailure(_)
                } else if is_lzma_id(method@) {
                    &&& lzma_decoded(properties@ + reader@, unpack_size) is None
                    &&& e.kind matches ErrorKind::CodecFailure(_)
                } else {
                    e.kind matches ErrorKind::UnsupportedCodec(m) && m@ == method@
                }
            },
        },
{
    if method.len() == 1 && method[0] == 0x21 {
        proof {
            assert(method@ =~= seq![0x21u8]);
        }
        match lzma2_decompress_raw(reader) {
            Ok(v) => {
                let vlen: usize = v.len();
                if vlen as u64 == unpack_size {
                    proof {
                        assert(vlen <= usize::MAX);
                        assert(v@.len() == unpack_size);
                    }
                    Ok(v)
                } else {
                    Err(
                        ArchiveError::new(
                            ErrorKind::CodecFailure(
                                String::from_str("Decompressed size mismatch"),
                            ),
                        ),
                    )
                }
            },
            Err(report) => Err(ArchiveError::new(ErrorKind::CodecFailure(report))),
        }
    } else if method.len() == 3 && method[0] == 0x03 && method[1] == 0x01 && method[2] == 0x01 {
        proof {
            assert(method@ =~= seq![0x03u8, 0x01u8, 0x01u8]);
        }
        let mut full: Vec<u8> = Vec::new();
        let np: usize = properties.len();
        let mut i: usize = 0;
        while i < np
            invariant
                i <= np,
                np == properties@.len(),
                full@ == properties@.subrange(0, i as int),
            decreases np - i,
        {
            full.push(properties[i]);
            proof {
                assert(full@ =~= properties@.subrange(0, i as int + 1));
            }
            i = i + 1;
        }
        let nr: usize = reader.len();
        let mut j: usize = 0;
        while j < nr
            invariant
                j <= nr,
                nr == reader@.len(),
                full@ == properties@ + reader@.subrange(0, j as int),
            decreases nr - j,
        {
            full.push(reader[j]);
            proof {
                assert(full@ =~= properties@ + reader@.subrange(0, j as int + 1));
            }
            j = j + 1;
        }
        proof {
            assert(properties@.subrange(0, properties@.len() as int) =~= properties@);
            assert(reader@.subrange(0, reader@.len() as int) =~= reader@);
            assert(full@ == properties@ + reader@);
        }
        match lzma_decompress_raw(&full, unpack_size) {
            Ok(v) => Ok(v),
            Err(report) => Err(ArchiveError::new(ErrorKind::CodecFailure(report))),
        }
    } else {
        proof {
            assert(!is_lzma2_id(method@));
            assert(!is_lzma_id(method@));
        }
        let mut id: Vec<u8> = Vec::new();
        let nm: usize = method.len();
        let mut m: usize = 0;
        while m < nm
            invariant
                m <= nm,
                nm == method@.len(),
                id@ == method@.subrange(0, m as int),
            decreases nm - m,
        {
            id.push(method[m]);
            proof {
                assert(id@ =~= method@.subrange(0, m as int + 1));
            }
            m = m + 1;
        }
        proof {
            assert(id@ =~= method@);
        }
        Err(ArchiveError::new(ErrorKind::UnsupportedCodec(id)))
    }
}

} // verus!
