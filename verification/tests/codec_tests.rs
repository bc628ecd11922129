use gif2json::ChannelMode;
use gif2json::RawFrame;
use gif2json::RgbaImageData;

fn sample_image() -> RgbaImageData {
    let frames = vec![
        RawFrame {
            width: 2,
            height: 1,
            delay_ratio: (10, 1),
            pixels: vec![(255, 0, 0, 255), (0, 255, 0, 255)],
        },
        RawFrame {
            width: 2,
            height: 1,
            delay_ratio: (20, 1),
            pixels: vec![(0, 0, 255, 255), (255, 255, 0, 255)],
        },
    ];
    RgbaImageData::build(&frames, ChannelMode::Rgb).unwrap()
}

#[test]
fn serializes_to_exact_json_text() {
    let frames = vec![RawFrame {
        width: 1,
        height: 1,
        delay_ratio: (10, 1),
        pixels: vec![(9, 8, 7, 6)],
    }];
    let data = RgbaImageData::build(&frames, ChannelMode::Rgb).unwrap();
    let out = data.to_json_bytes();
    assert_eq!(
        String::from_utf8(out).unwrap(),
        r#"{"dimensions":[1,1],"length":1,"frames":[{"delay_ratio":[10,1],"pixels":[[9,8,7]]}]}"#
    );
}

#[test]
fn round_trip_preserves_every_field() {
    let data = sample_image();
    let bytes = data.to_json_bytes();
    let back = RgbaImageData::from_json_bytes(&bytes).unwrap();
    assert_eq!(back, data);
}

#[test]
fn round_trip_preserves_rgba_arity() {
    let frames = vec![RawFrame {
        width: 1,
        height: 2,
        delay_ratio: (0, 1),
        pixels: vec![(1, 2, 3, 4), (5, 6, 7, 8)],
    }];
    let data = RgbaImageData::build(&frames, ChannelMode::Rgba).unwrap();
    let back = RgbaImageData::from_json_bytes(&data.to_json_bytes()).unwrap();
    assert_eq!(back, data);
    assert_eq!(back.get_mode(), ChannelMode::Rgba);
    assert_eq!(back.get_frame_vec_ref(0).unwrap(), &vec![vec![1, 2, 3, 4], vec![5, 6, 7, 8]]);
}

#[test]
fn deserializes_handwritten_document() {
    let text = r#"{"dimensions":[2,1],"length":1,"frames":[{"delay_ratio":[30,1],"pixels":[[1,2,3],[4,5,6]]}]}"#;
    let data = RgbaImageData::from_json_bytes(&text.as_bytes().to_vec()).unwrap();
    assert_eq!(data.get_dimensions(), (2, 1));
    assert_eq!(data.get_length(), 1);
    assert_eq!(data.get_mode(), ChannelMode::Rgb);
    assert_eq!(data.get_frame_delay(0), Some((30, 1)));
    assert_eq!(data.get_frame_vec_ref(0).unwrap(), &vec![vec![1, 2, 3], vec![4, 5, 6]]);
}

#[test]
fn rejects_malformed_documents() {
    let bad: Vec<&str> = vec![
        "",
        "{",
        r#"{"dimensions":[2,1],"length":1"#,
        r#"{"dimensions":[0,1],"length":1,"frames":[{"delay_ratio":[1,1],"pixels":[[1,2,3]]}]}"#,
        r#"{"dimensions":[1,1],"length":0,"frames":[]}"#,
        r#"{"dimensions":[1,1],"length":2,"frames":[{"delay_ratio":[1,1],"pixels":[[1,2,3]]}]}"#,
        r#"{"dimensions":[1,1],"length":1,"frames":[{"delay_ratio":[1,1],"pixels":[[1,2,3,4,5]]}]}"#,
        r#"{"dimensions":[2,1],"length":1,"frames":[{"delay_ratio":[1,1],"pixels":[[1,2,3],[1,2,3,4]]}]}"#,
        r#"{"dimensions":[1,1],"length":1,"frames":[{"delay_ratio":[1,1],"pixels":[[1,2,300]]}]}"#,
        r#"{"dimensions":[1,1],"length":1,"frames":[{"delay_ratio":[1,1],"pixels":[[1,2,3]]}]} "#,
        r#"{"dimensions":[01,1],"length":1,"frames":[{"delay_ratio":[1,1],"pixels":[[1,2,3]]}]}"#,
        r#"{"dimensions":[1,1],"length":1,"frames":[{"delay_ratio":[1,1],"pixels":[]}]}"#,
    ];
    for text in bad {
        let r = RgbaImageData::from_json_bytes(&text.as_bytes().to_vec());
        assert!(r.is_err(), "accepted: {text}");
    }
}

#[test]
fn output_is_valid_json_with_the_documented_shape() {
    let data = sample_image();
    let bytes = data.to_json_bytes();
    let value: serde_json::Value = serde_json::from_slice(&bytes).unwrap();
    assert_eq!(value["dimensions"][0].as_u64(), Some(2));
    assert_eq!(value["dimensions"][1].as_u64(), Some(1));
    assert_eq!(value["length"].as_u64(), Some(2));
    let frames = value["frames"].as_array().unwrap();
    assert_eq!(frames.len(), 2);
    assert_eq!(frames[0]["delay_ratio"][0].as_u64(), Some(10));
    assert_eq!(frames[0]["delay_ratio"][1].as_u64(), Some(1));
    let pixels = frames[1]["pixels"].as_array().unwrap();
    assert_eq!(pixels.len(), 2);
    assert_eq!(pixels[0][2].as_u64(), Some(255));
    assert_eq!(pixels[1][0].as_u64(), Some(255));
}
