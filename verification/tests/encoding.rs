use voice_prompt::audio::{
    can_encode, encode_audio, encode_wav, upload_text, WavError, WavStage,
};

#[test]
fn a_wav_file_byte_by_byte() {
    let bytes = match encode_wav(&[1, -2, 0x1234]) {
        Ok(bytes) => bytes,
        Err(_) => panic!("the cursor takes every write"),
    };
    let expected: Vec<u8> = vec![
        0x52, 0x49, 0x46, 0x46, 42, 0, 0, 0, 0x57, 0x41, 0x56, 0x45, 0x66, 0x6d, 0x74, 0x20, 16, 0,
        0, 0, 1, 0, 1, 0, 0x80, 0x3e, 0, 0, 0, 0x7d, 0, 0, 2, 0, 16, 0, 0x64, 0x61, 0x74, 0x61, 6,
        0, 0, 0, 1, 0, 0xfe, 0xff, 0x34, 0x12,
    ];
    assert_eq!(bytes, expected);
}

#[test]
fn an_empty_wav_file_is_its_header() {
    let bytes = encode_wav(&[]).unwrap();
    assert_eq!(bytes.len(), 44);
    assert_eq!(&bytes[40..], &[0, 0, 0, 0]);
}

#[test]
fn a_wav_file_is_read_back() {
    let samples: Vec<i16> = (0..1000).map(|i| (i * 65 - 32500) as i16).collect();
    let bytes = encode_wav(&samples).unwrap();
    assert_eq!(bytes.len(), 44 + 2 * samples.len());
    let mut reader = hound::WavReader::new(std::io::Cursor::new(bytes)).unwrap();
    let spec = reader.spec();
    assert_eq!(spec.channels, 1);
    assert_eq!(spec.sample_rate, 16000);
    assert_eq!(spec.bits_per_sample, 16);
    let back: Vec<i16> = reader.samples::<i16>().map(|s| s.unwrap()).collect();
    assert_eq!(back, samples);
}

#[test]
fn base64_of_every_remainder() {
    let text = |bytes: &[u8]| upload_text(Ok(bytes.to_vec())).unwrap();
    assert_eq!(text(b""), "");
    assert_eq!(text(b"f"), "Zg==");
    assert_eq!(text(b"fo"), "Zm8=");
    assert_eq!(text(b"foo"), "Zm9v");
    assert_eq!(text(b"foob"), "Zm9vYg==");
    assert_eq!(text(b"fooba"), "Zm9vYmE=");
    assert_eq!(text(b"foobar"), "Zm9vYmFy");
    assert_eq!(text(&[0xfb, 0xff, 0xfe]), "+//+");
    assert_eq!(text(&[0; 300]).len(), 400);
}

#[test]
fn different_bytes_have_different_texts() {
    let mut seen: Vec<String> = Vec::new();
    for bytes in [vec![], vec![0], vec![0, 0], vec![0, 0, 0], vec![1], vec![0, 1]].iter() {
        let text = upload_text(Ok(bytes.clone())).unwrap();
        assert!(!seen.contains(&text));
        seen.push(text);
    }
}

#[test]
fn an_upload_is_the_file_in_base64() {
    let text = encode_audio(&[1, -2, 0x1234]).unwrap();
    assert_eq!(
        text,
        "UklGRioAAABXQVZFZm10IBAAAAABAAEAgD4AAAB9AAACABAAZGF0YQYAAAABAP7/NBI="
    );
}

#[test]
fn every_stage_has_its_message() {
    let message = |stage| {
        let error = upload_text(Err((stage, "no room".to_string()))).unwrap_err();
        assert_eq!(error.stage, stage);
        error.message()
    };
    assert_eq!(message(WavStage::Open), "Failed to initialize in-memory WavWriter: no room");
    assert_eq!(message(WavStage::Write), "Failed writing sample: no room");
    assert_eq!(message(WavStage::Finish), "Failed finalizing WAV buffer: no room");
    let error = WavError { stage: WavStage::Open, detail: String::new() };
    assert_eq!(error.message(), "Failed to initialize in-memory WavWriter: ");
}

#[test]
fn a_file_holds_up_to_four_gigabytes() {
    assert!(can_encode(0));
    assert!(can_encode(2147483629));
    assert!(!can_encode(2147483630));
}
