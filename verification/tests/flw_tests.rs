use flwing::flw::{decode_frame, encode_frame, FlwError, FORMAT_VERSION};

#[test]
fn frame_layout() {
    let framed = encode_frame(&[9, 8, 7]);
    assert_eq!(
        framed,
        vec![0x46, 0x4C, 0x57, 0x47, 1, 0, 0, 0, 3, 0, 0, 0, 0, 0, 0, 0, 9, 8, 7]
    );
}

#[test]
fn frame_round_trip() {
    let payload: Vec<u8> = (0..=255u8).collect();
    let framed = encode_frame(&payload);
    let (version, back) = decode_frame(&framed).unwrap();
    assert_eq!(version, FORMAT_VERSION);
    assert_eq!(back, payload);
    let (v2, empty) = decode_frame(&encode_frame(&[])).unwrap();
    assert_eq!(v2, 1);
    assert!(empty.is_empty());
}

#[test]
fn trailing_bytes_are_ignored() {
    let mut framed = encode_frame(&[1, 2]);
    framed.extend_from_slice(&[5, 5, 5]);
    assert_eq!(decode_frame(&framed).unwrap(), (1, vec![1, 2]));
}

#[test]
fn header_errors() {
    assert_eq!(decode_frame(&[0x46, 0x4C]), Err(FlwError::MissingHeader));
    assert_eq!(decode_frame(b"PNG\x00\x01\x00\x00\x00"), Err(FlwError::BadMagic));
    assert_eq!(decode_frame(b"FLWG\x01\x00"), Err(FlwError::MissingVersion));
    assert_eq!(
        decode_frame(b"FLWG\x02\x00\x00\x00\x00\x00\x00\x00\x00\x00\x00\x00"),
        Err(FlwError::UnsupportedVersion(2))
    );
    assert_eq!(decode_frame(b"FLWG\x00\x00\x00\x00\x01\x00"), Err(FlwError::MissingSize));
    assert_eq!(
        decode_frame(b"FLWG\x01\x00\x00\x00\x05\x00\x00\x00\x00\x00\x00\x00abc"),
        Err(FlwError::TruncatedData)
    );
    assert_eq!(decode_frame(b"FLWG\x00\x00\x00\x00\x00\x00\x00\x00\x00\x00\x00\x00"), Ok((0, vec![])));
}

#[test]
fn error_messages() {
    assert_eq!(FlwError::MissingHeader.message(), "잘못된 파일 포맷 (헤더 누락)");
    assert_eq!(FlwError::BadMagic.message(), "잘못된 파일 포맷 (매직 넘버 불일치)");
    assert_eq!(FlwError::MissingVersion.message(), "버전 정보 읽기 실패");
    assert_eq!(FlwError::UnsupportedVersion(2).message(), "지원되지 않는 최신 버전 파일입니다 (V2)");
    assert_eq!(
        FlwError::UnsupportedVersion(4294967295).message(),
        "지원되지 않는 최신 버전 파일입니다 (V4294967295)"
    );
    assert_eq!(FlwError::MissingSize.message(), "데이터 크기 읽기 실패");
    assert_eq!(FlwError::TruncatedData.message(), "데이터 로드 중 오류 발생");
}
