use capabilities::pcm::{
    downsample_box_average, error, integer, sample_array, signed_integer, skip_space, transform,
    Writer, MAX_OUTPUT_BYTES, MAX_SAMPLES, source_frame, write_success,
};

fn run(input: &[u8]) -> String {
    let mut output = vec![0u8; MAX_OUTPUT_BYTES];
    let mut source = vec![0i16; MAX_SAMPLES];
    let mut target = vec![0i16; MAX_SAMPLES];
    let count = transform(input, &mut output, &mut source, &mut target);
    String::from_utf8(output[..count].to_vec()).expect("valid JSON output")
}

#[test]
fn transforms_upsampled_mono_fixture() {
    assert_eq!(
        run(br#"{"input_sample_rate_hz":8000,"input_channel_count":1,"target_sample_rate_hz":16000,"target_channel_count":1,"samples_s16":[0,2000]}"#),
        r#"{"result_class":"transformed","sample_format":"s16le","input_sample_rate_hz":8000,"input_channel_count":1,"sample_rate_hz":16000,"channel_count":1,"frame_count":4,"samples_s16":[0,1000,2000,2000]}"#
    );
}

#[test]
fn rejects_malformed_and_unsupported_profiles() {
    assert_eq!(run(b"{}"), r#"{"result_class":"unsupported_sample_rate"}"#);
    assert_eq!(
        run(br#"{"input_sample_rate_hz":7000,"input_channel_count":1,"target_sample_rate_hz":16000,"target_channel_count":1,"samples_s16":[0]}"#),
        r#"{"result_class":"unsupported_sample_rate"}"#
    );
    assert_eq!(
        run(br#"{"input_sample_rate_hz":8000,"input_channel_count":3,"target_sample_rate_hz":16000,"target_channel_count":1,"samples_s16":[0]}"#),
        r#"{"result_class":"unsupported_channel_count"}"#
    );
}

#[test]
fn exercises_downsampling_channel_layouts_and_equal_rates() {
    let mut output = vec![0u8; MAX_OUTPUT_BYTES];
    let mut source = vec![0i16; MAX_SAMPLES];
    let mut target = vec![0i16; MAX_SAMPLES];
    let stereo = br#"{"input_sample_rate_hz":16000,"input_channel_count":2,"target_sample_rate_hz":8000,"target_channel_count":1,"samples_s16":[1000,3000,5000,7000]}"#;
    let count = transform(stereo, &mut output, &mut source, &mut target);
    assert!(core::str::from_utf8(&output[..count])
        .unwrap()
        .contains("\"result_class\":\"transformed\""));
    assert_eq!(target[0], 4000);

    let mono_to_stereo = br#"{"input_sample_rate_hz":8000,"input_channel_count":1,"target_sample_rate_hz":8000,"target_channel_count":2,"samples_s16":[-32768,32767]}"#;
    let count = transform(mono_to_stereo, &mut output, &mut source, &mut target);
    assert!(core::str::from_utf8(&output[..count])
        .unwrap()
        .contains("\"channel_count\":2"));
    assert_eq!(&target[..4], &[-32768, -32768, 32767, 32767]);

    let downsample_box = downsample_box_average(&[10, 20], 1, 2, 0, 0, 1, 16_000, 8_000);
    assert_eq!(downsample_box, 15);
    assert_eq!(
        downsample_box_average(&[5], 1, 1, 4, 0, 1, 16_000, 8_000),
        0
    );
}

#[test]
fn rejects_invalid_arrays_input_limits_and_overflowing_profiles() {
    let mut output = vec![0u8; MAX_OUTPUT_BYTES];
    let mut source = vec![0i16; MAX_SAMPLES];
    let mut target = vec![0i16; MAX_SAMPLES];
    for (samples, expected) in [
        ("[]", "invalid_samples"),
        ("[32768]", "invalid_samples"),
        ("[1,]", "invalid_samples"),
        ("null", "invalid_samples"),
        ("[2147483648]", "invalid_samples"),
    ] {
        let input = format!("{{\"input_sample_rate_hz\":8000,\"input_channel_count\":1,\"target_sample_rate_hz\":8000,\"target_channel_count\":1,\"samples_s16\":{samples}}}");
        let count = transform(input.as_bytes(), &mut output, &mut source, &mut target);
        assert!(
            core::str::from_utf8(&output[..count])
                .unwrap()
                .contains(expected),
            "samples {samples}: {}",
            core::str::from_utf8(&output[..count]).unwrap()
        );
    }
    let oversized = vec![b' '; 4_000_001];
    let count = transform(&oversized, &mut output, &mut source, &mut target);
    assert!(core::str::from_utf8(&output[..count])
        .unwrap()
        .contains("input_limit_exceeded"));
    let samples = "0,".repeat(20_000) + "0";
    let too_many = format!("{{\"input_sample_rate_hz\":8000,\"input_channel_count\":1,\"target_sample_rate_hz\":192000,\"target_channel_count\":1,\"samples_s16\":[{samples}]}}");
    let count = transform(too_many.as_bytes(), &mut output, &mut source, &mut target);
    assert!(core::str::from_utf8(&output[..count])
        .unwrap()
        .contains("output_limit_exceeded"));
    let mut short_output = [0u8; 1];
    assert_eq!(error(&mut short_output, "anything"), 0);
}

#[test]
fn covers_numeric_parsing_spacing_and_output_writer_edges() {
    assert_eq!(integer(br#"{"n": -12}"#, b"\"n\""), Some(-12));
    assert_eq!(integer(b"{\"n\":x}", b"\"n\""), None);
    assert_eq!(integer(b"{}", b"\"n\""), None);
    assert_eq!(signed_integer(b"-", 0), None);
    assert_eq!(signed_integer(b"2147483648", 0), None);
    assert_eq!(signed_integer(b"-2147483648", 0), Some((i32::MIN, 11)));
    let mut cursor = 0;
    skip_space(b" \n\r\tx", &mut cursor);
    assert_eq!(cursor, 4);

    let mut samples = [0i16; 1];
    assert_eq!(sample_array(b"{}", &mut samples), None);
    assert_eq!(sample_array(br#"{"samples_s16":1}"#, &mut samples), None);
    assert_eq!(
        sample_array(br#"{"samples_s16":[0]"#, &mut samples),
        Some(1)
    );
    assert_eq!(
        sample_array(br#"{"samples_s16":[0 1]}"#, &mut samples),
        None
    );

    let mut bytes = [0u8; 2];
    let mut writer = Writer {
        bytes: &mut bytes,
        position: 0,
    };
    writer.bytes(b"abcd");
    assert_eq!(writer.position, 0);
    writer.number(i64::MIN);
    assert_eq!(writer.position, 2);
}

#[test]
fn source_frame_mixes_stereo_to_mono_toward_zero() {
    assert_eq!(source_frame(&[-3, 0, 7, 8], 2, 2, 0, 0, 1), -1);
    assert_eq!(source_frame(&[-3, 0, 7, 8], 2, 2, 5, 1, 2), 8);
    assert_eq!(source_frame(&[4, 9], 1, 2, 1, 1, 2), 9);
}

#[test]
fn write_success_lists_samples_with_commas() {
    let mut out = [0u8; 256];
    let n = write_success(&mut out, 8000, 1, 8000, 1, 2, &[-1, 5]);
    assert_eq!(
        core::str::from_utf8(&out[..n]).unwrap(),
        r#"{"result_class":"transformed","sample_format":"s16le","input_sample_rate_hz":8000,"input_channel_count":1,"sample_rate_hz":8000,"channel_count":1,"frame_count":2,"samples_s16":[-1,5]}"#
    );
}

#[test]
fn box_average_weights_partial_bins() {
    assert_eq!(downsample_box_average(&[0, 300, 600], 1, 3, 0, 0, 1, 12_000, 8_000), 100);
}
