//! The `.flw` container: a fixed header followed by the document payload.
//!
//! Layout (little-endian): the magic bytes `FLWG`, a `u32` format version,
//! a `u64` payload length, then the payload itself.
use vstd::prelude::*;
use vstd::bytes::*;
use crate::text::{push_decimal, string_of, decimal};

verus! {

/// The newest format version this library writes and reads.
pub const FORMAT_VERSION: u32 = 1;

/// The magic bytes `FLWG` that open every file.
pub open spec fn magic() -> Seq<u8> {
    seq![0x46u8, 0x4Cu8, 0x57u8, 0x47u8]
}

/// The bytes of a file of the given version that carries `payload`.
pub open spec fn frame(version: u32, payload: Seq<u8>) -> Seq<u8> {
    magic() + spec_u32_to_le_bytes(version) + spec_u64_to_le_bytes(payload.len() as u64)
        + payload
}

/// Why a byte sequence is not a readable `.flw` file.
#[derive(Clone, Copy, Debug, PartialEq, Eq, Structural)]
pub enum FlwError {
    /// Fewer than four bytes: no magic.
    MissingHeader,
    /// The first four bytes are not `FLWG`.
    BadMagic,
    /// The version field is cut off.
    MissingVersion,
    /// The file was written by a newer format version.
    UnsupportedVersion(u32),
    /// The payload length field is cut off.
    MissingSize,
    /// Fewer payload bytes follow the header than it announces.
    TruncatedData,
}

/// What reading `bytes` as a `.flw` file gives: the version and the payload,
/// or the first problem met while reading the header front to back. Bytes
/// after the announced payload are ignored.
pub open spec fn decode(bytes: Seq<u8>) -> Result<(u32, Seq<u8>), FlwError> {
    if bytes.len() < 4 {
        Err(FlwError::MissingHeader)
    } else if bytes.subrange(0, 4) != magic() {
        Err(FlwError::BadMagic)
    } else if bytes.len() < 8 {
        Err(FlwError::MissingVersion)
    } else {
        let version = spec_u32_from_le_bytes(bytes.subrange(4, 8));
        if version > FORMAT_VERSION {
            Err(FlwError::UnsupportedVersion(version))
        } else if bytes.len() < 16 {
            Err(FlwError::MissingSize)
        } else {
            let size = spec_u64_from_le_bytes(bytes.subrange(8, 16));
            if bytes.len() - 16 < size {
                Err(FlwError::TruncatedData)
            } else {
                Ok((version, bytes.subrange(16, 16 + size)))
            }
        }
    }
}

impl FlwError {
    /// The message shown to the user for this error.
    pub open spec fn spec_message(self) -> Seq<char> {
        match self {
            FlwError::MissingHeader => "잘못된 파일 포맷 (헤더 누락)"@,
            FlwError::BadMagic => "잘못된 파일 포맷 (매직 넘버 불일치)"@,
            FlwError::MissingVersion => "버전 정보 읽기 실패"@,
            FlwError::UnsupportedVersion(v) => "지원되지 않는 최신 버전 파일입니다 (V"@
                + decimal(v as nat) + ")"@,
            FlwError::MissingSize => "데이터 크기 읽기 실패"@,
            FlwError::TruncatedData => "데이터 로드 중 오류 발생"@,
        }
    }

    /// The message shown to the user for this error.
    pub fn message(&self) -> (m: String)
        ensures
            m@ == self.spec_message(),
    {
        match self {
            FlwError::MissingHeader => string_of("잘못된 파일 포맷 (헤더 누락)"),
            FlwError::BadMagic => string_of("잘못된 파일 포맷 (매직 넘버 불일치)"),
            FlwError::MissingVersion => string_of("버전 정보 읽기 실패"),
            FlwError::UnsupportedVersion(v) => {
                let mut m = string_of("지원되지 않는 최신 버전 파일입니다 (V");
                push_decimal(&mut m, *v);
                m.append(")");
                m
            },
            FlwError::MissingSize => string_of("데이터 크기 읽기 실패"),
            FlwError::TruncatedData => string_of("데이터 로드 중 오류 발생"),
        }
    }
}

/// The bytes of a current-version `.flw` file that carries `payload`.
pub fn encode_frame(payload: &[u8]) -> (out: Vec<u8>)
    ensures
        out@ == frame(FORMAT_VERSION, payload@),
{
    let mut out: Vec<u8> = vec![0x46u8, 0x4Cu8, 0x57u8, 0x47u8];
    let mut version = u32_to_le_bytes(FORMAT_VERSION);
    out.append(&mut version);
    let mut size = u64_to_le_bytes(payload.len() as u64);
    out.append(&mut size);
    let mut i: usize = 0;
    let ghost head = out@;
    while i < payload.len()
        invariant
            0 <= i <= payload@.len(),
            out@ == head + payload@.take(i as int),
        decreases payload@.len() - i,
    {
        out.push(payload[i]);
        proof {
            assert(payload@.take(i + 1) =~= payload@.take(i as int).push(payload@[i as int]));
        }
        i = i + 1;
    }
    proof {
        assert(payload@.take(payload@.len() as int) =~= payload@);
        assert(head =~= magic() + spec_u32_to_le_bytes(FORMAT_VERSION)
            + spec_u64_to_le_bytes(payload@.len() as u64));
    }
    out
}

fn is_magic(b: &[u8]) -> (r: bool)
    requires
        b@.len() >= 4,
    ensures
        r == (b@.subrange(0, 4) == magic()),
{
    let r = b[0] == 0x46u8 && b[1] == 0x4Cu8 && b[2] == 0x57u8 && b[3] == 0x47u8;
    proof {
        if r {
            assert(b@.subrange(0, 4) =~= magic());
        } else {
            assert(b@.subrange(0, 4) != magic()) by {
                if b@.subrange(0, 4) == magic() {
                    assert(b@.subrange(0, 4)[0] == b@[0]);
                    assert(b@.subrange(0, 4)[1] == b@[1]);
                    assert(b@.subrange(0, 4)[2] == b@[2]);
                    assert(b@.subrange(0, 4)[3] == b@[3]);
                }
            }
        }
    }
    r
}

/// Reads `bytes` as a `.flw` file: its version and payload, or the error
/// the header shows.
pub fn decode_frame(bytes: &[u8]) -> (r: Result<(u32, Vec<u8>), FlwError>)
    ensures
        r matches Ok((v, p)) ==> decode(bytes@) == Ok::<(u32, Seq<u8>), FlwError>((v, p@)),
        r matches Err(e) ==> decode(bytes@) == Err::<(u32, Seq<u8>), FlwError>(e),
{
    if bytes.len() < 4 {
        return Err(FlwError::MissingHeader);
    }
    if !is_magic(bytes) {
        return Err(FlwError::BadMagic);
    }
    if bytes.len() < 8 {
        return Err(FlwError::MissingVersion);
    }
    let version = u32_from_le_bytes(&bytes[4..8]);
    if version > FORMAT_VERSION {
        return Err(FlwError::UnsupportedVersion(version));
    }
    if bytes.len() < 16 {
        return Err(FlwError::MissingSize);
    }
    let size = u64_from_le_bytes(&bytes[8..16]);
    let available = bytes.len() - 16;
    if (available as u64) < size {
        return Err(FlwError::TruncatedData);
    }
    let end = 16 + size as usize;
    let payload = vstd::slice::slice_to_vec(&bytes[16..end]);
    Ok((version, payload))
}

/// Reading back what was framed gives the current version and the very same
/// payload.
pub proof fn lemma_decode_frame(payload: Seq<u8>)
    requires
        payload.len() <= u64::MAX,
    ensures
        decode(frame(FORMAT_VERSION, payload)) == Ok::<(u32, Seq<u8>), FlwError>(
            (FORMAT_VERSION, payload),
        ),
{
    lemma_auto_spec_u32_to_from_le_bytes();
    lemma_auto_spec_u64_to_from_le_bytes();
    let b = frame(FORMAT_VERSION, payload);
    let v = spec_u32_to_le_bytes(FORMAT_VERSION);
    let s = spec_u64_to_le_bytes(payload.len() as u64);
    assert(b.subrange(0, 4) =~= magic());
    assert(b.subrange(4, 8) =~= v);
    assert(b.subrange(8, 16) =~= s);
    assert(b.subrange(16, 16 + payload.len() as int) =~= payload);
}

/// Whatever reads successfully is a frame of the version and payload read,
/// possibly followed by further bytes: reading never invents content.
pub proof fn lemma_decode_is_frame(bytes: Seq<u8>)
    ensures
        decode(bytes) matches Ok((v, p)) ==> v <= FORMAT_VERSION && bytes.subrange(
            0,
            frame(v, p).len() as int,
        ) == frame(v, p),
{
    lemma_auto_spec_u32_to_from_le_bytes();
    lemma_auto_spec_u64_to_from_le_bytes();
    if let Ok((v, p)) = decode(bytes) {
        let vb = bytes.subrange(4, 8);
        let sb = bytes.subrange(8, 16);
        assert(spec_u32_to_le_bytes(spec_u32_from_le_bytes(vb)) == vb);
        assert(spec_u64_to_le_bytes(spec_u64_from_le_bytes(sb)) == sb);
        assert(p.len() == spec_u64_from_le_bytes(sb));
        assert(bytes.subrange(0, frame(v, p).len() as int) =~= frame(v, p));
    }
}

} // verus!
