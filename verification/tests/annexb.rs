use streamer::annexb::find_start_code;
use streamer::annexb::AnnexBSplitter;
use streamer::annexb::AnnexBStartCode;

#[test]
fn test_splitter_single_b3() {
    let data: Vec<u8> = vec![0, 0, 1, 0x42, 0x01, 0x02];
    let mut splitter = AnnexBSplitter::new(data.clone());

    let nal = splitter.next().unwrap();
    assert_eq!(nal.start_code, AnnexBStartCode::B3);
    assert_eq!(&nal.full[nal.payload_range.clone()], &[0x42, 0x01, 0x02]);
    assert!(splitter.next().is_none());
}

#[test]
fn test_splitter_single_b4() {
    let data: Vec<u8> = vec![0, 0, 0, 1, 0x44, 0x05];
    let mut splitter = AnnexBSplitter::new(data.clone());

    let nal = splitter.next().unwrap();
    assert_eq!(nal.start_code, AnnexBStartCode::B4);
    assert_eq!(&nal.full[nal.payload_range.clone()], &[0x44, 0x05]);
    assert!(splitter.next().is_none());
}

#[test]
fn test_splitter_multiple_nalus() {
    let data: Vec<u8> = vec![0, 0, 0, 1, 0x42, 0x01, 0x02, 0, 0, 1, 0x44, 0x03, 0x04];
    let mut splitter = AnnexBSplitter::new(data.clone());

    let nal1 = splitter.next().unwrap();
    assert_eq!(nal1.start_code, AnnexBStartCode::B4);
    assert_eq!(&nal1.full[nal1.payload_range.clone()], &[0x42, 0x01, 0x02]);

    let nal2 = splitter.next().unwrap();
    assert_eq!(nal2.start_code, AnnexBStartCode::B3);
    assert_eq!(&nal2.full[nal2.payload_range.clone()], &[0x44, 0x03, 0x04]);

    assert!(splitter.next().is_none());
}

#[test]
fn test_splitter_no_nalus() {
    let data: Vec<u8> = vec![0x01, 0x02, 0x03];
    let mut splitter = AnnexBSplitter::new(data.clone());

    assert!(splitter.next().is_none());
}

#[test]
fn test_splitter_edge_case_start_of_stream() {
    let data: Vec<u8> = vec![0, 0, 0, 1, 0x42];
    let mut splitter = AnnexBSplitter::new(data.clone());

    let nal = splitter.next().unwrap();
    assert_eq!(nal.start_code, AnnexBStartCode::B4);
    assert_eq!(&nal.full[nal.payload_range.clone()], &[0x42]);
}

#[test]
fn test_splitter_mid_stream_start() {
    // Data has some garbage then start code
    let data: Vec<u8> = vec![0xFF, 0xEE, 0, 0, 1, 0x42];
    let mut splitter = AnnexBSplitter::new(data.clone());

    let nal = splitter.next().unwrap();
    assert_eq!(nal.start_code, AnnexBStartCode::B3);
    assert_eq!(&nal.full[nal.payload_range.clone()], &[0x42]);
}

#[test]
fn test_splitter_start_code_ranges() {
    let data: Vec<u8> = vec![0, 0, 0, 1, 0x42, 0x01, 0x02];
    let mut splitter = AnnexBSplitter::new(data);

    let nal = splitter.next().unwrap();
    assert_eq!(nal.start_code_range.clone(), 0..4);
    assert_eq!(&nal.full[nal.start_code_range.clone()], &[0, 0, 0, 1]);
    assert_eq!(nal.payload_range.clone(), 4..7);
    assert_eq!(&nal.full[..], &[0, 0, 0, 1, 0x42, 0x01, 0x02]);
}

#[test]
fn test_splitter_exhausted_until_reset() {
    let data: Vec<u8> = vec![0, 0, 1, 0x42];
    let mut splitter = AnnexBSplitter::new(data);

    assert!(splitter.next().is_some());
    assert!(splitter.next().is_none());
    assert!(splitter.next().is_none());
    assert!(splitter.next().is_none());

    splitter.reset(vec![0, 0, 1, 0x43]);
    let nal = splitter.next().unwrap();
    assert_eq!(&nal.full[nal.payload_range.clone()], &[0x43]);
    assert!(splitter.next().is_none());
}

#[test]
fn test_splitter_zero_run_before_one() {
    // Five zeros then 1: the scan finds 00 00 01 at the third zero and the
    // zero before it extends the match into a 4-byte code; the first zero is
    // dropped as garbage.
    let data: Vec<u8> = vec![0, 0, 0, 0, 1, 0x42];
    let mut splitter = AnnexBSplitter::new(data);

    let nal = splitter.next().unwrap();
    assert_eq!(nal.start_code, AnnexBStartCode::B4);
    assert_eq!(&nal.full[..], &[0, 0, 0, 1, 0x42]);
    assert_eq!(&nal.full[nal.payload_range.clone()], &[0x42]);
    assert!(splitter.next().is_none());
}

#[test]
fn test_splitter_truncated_trailing_unit() {
    // The last unit has no trailing start code and is bounded by the buffer.
    let data: Vec<u8> = vec![0, 0, 1, 0x41, 0, 0, 1];
    let mut splitter = AnnexBSplitter::new(data);

    let nal1 = splitter.next().unwrap();
    assert_eq!(&nal1.full[nal1.payload_range.clone()], &[0x41]);
    let nal2 = splitter.next().unwrap();
    assert_eq!(nal2.start_code, AnnexBStartCode::B3);
    assert_eq!(&nal2.full[nal2.payload_range.clone()], &[] as &[u8]);
    assert!(splitter.next().is_none());
}

#[test]
fn test_find_start_code_variants() {
    assert_eq!(find_start_code(&[0, 0, 1, 0x42]), Some((0, AnnexBStartCode::B3, 3)));
    assert_eq!(find_start_code(&[0, 0, 0, 1]), Some((0, AnnexBStartCode::B4, 4)));
    assert_eq!(find_start_code(&[0xAA, 0, 0, 1]), Some((1, AnnexBStartCode::B3, 3)));
    assert_eq!(find_start_code(&[0xAA, 0, 0, 0, 1]), Some((1, AnnexBStartCode::B4, 4)));
    assert_eq!(find_start_code(&[1, 2, 3, 4]), None);
    assert_eq!(find_start_code(&[0, 0]), None);
    assert_eq!(find_start_code(&[]), None);
}

#[test]
fn test_start_code_accessors() {
    assert_eq!(AnnexBStartCode::B3.code(), &[0, 0, 1]);
    assert_eq!(AnnexBStartCode::B4.code(), &[0, 0, 0, 1]);
    assert_eq!(AnnexBStartCode::B3.len(), 3);
    assert_eq!(AnnexBStartCode::B4.len(), 4);
}
