use gif2json::ChannelMode;
use gif2json::DecodeError;
use gif2json::RgbaImageData;

/// A one-pixel, one-frame GIF with a two-entry palette whose first color is
/// white; the single pixel uses palette entry 0 and the frame has no delay.
fn one_pixel_gif() -> Vec<u8> {
    vec![
        0x47, 0x49, 0x46, 0x38, 0x39, 0x61, // GIF89a
        0x01, 0x00, 0x01, 0x00, 0x80, 0x00, 0x00, // 1x1 screen, 2-color table
        0xFF, 0xFF, 0xFF, 0x00, 0x00, 0x00, // palette: white, black
        0x21, 0xF9, 0x04, 0x00, 0x00, 0x00, 0x00, 0x00, // no delay
        0x2C, 0x00, 0x00, 0x00, 0x00, 0x01, 0x00, 0x01, 0x00, 0x00, // image descriptor
        0x02, 0x02, 0x44, 0x01, 0x00, // pixel data: entry 0
        0x3B, // trailer
    ]
}

/// A two-frame 2x1 GIF: a four-color palette (red, green, blue, yellow), the
/// first frame showing red then green with a 10 ms delay, the second showing
/// blue then yellow with a 20 ms delay.
fn two_frame_gif() -> Vec<u8> {
    vec![
        0x47, 0x49, 0x46, 0x38, 0x39, 0x61, // GIF89a
        0x02, 0x00, 0x01, 0x00, 0xA1, 0x00, 0x00, // 2x1 screen, 4-color table
        0xFF, 0x00, 0x00, // red
        0x00, 0xFF, 0x00, // green
        0x00, 0x00, 0xFF, // blue
        0xFF, 0xFF, 0x00, // yellow
        0x21, 0xF9, 0x04, 0x00, 0x01, 0x00, 0x00, 0x00, // delay 1 cs = 10 ms
        0x2C, 0x00, 0x00, 0x00, 0x00, 0x02, 0x00, 0x01, 0x00, 0x00, // 2x1 image
        0x02, 0x02, 0x44, 0x0A, 0x00, // entries 0, 1
        0x21, 0xF9, 0x04, 0x00, 0x02, 0x00, 0x00, 0x00, // delay 2 cs = 20 ms
        0x2C, 0x00, 0x00, 0x00, 0x00, 0x02, 0x00, 0x01, 0x00, 0x00, // 2x1 image
        0x02, 0x02, 0xD4, 0x0A, 0x00, // entries 2, 3
        0x3B, // trailer
    ]
}

#[test]
fn decodes_one_pixel_gif() {
    let data = RgbaImageData::new_from_bytes(&one_pixel_gif(), ChannelMode::Rgba).unwrap();
    assert_eq!(data.get_dimensions(), (1, 1));
    assert_eq!(data.get_length(), 1);
    assert_eq!(data.get_frame_delay(0), Some((0, 1)));
    assert_eq!(data.get_frame_vec_ref(0).unwrap(), &vec![vec![255, 255, 255, 255]]);
}

#[test]
fn decodes_two_frame_animation_end_to_end() {
    let data = RgbaImageData::new_from_bytes(&two_frame_gif(), ChannelMode::Rgb).unwrap();
    assert_eq!(data.get_dimensions(), (2, 1));
    assert_eq!(data.get_length(), 2);
    assert_eq!(data.get_frame_delay(0), Some((10, 1)));
    assert_eq!(data.get_frame_delay(1), Some((20, 1)));
    assert_eq!(
        data.get_frame_vec_ref(0).unwrap(),
        &vec![vec![255, 0, 0], vec![0, 255, 0]]
    );
    assert_eq!(
        data.get_frame_vec_ref(1).unwrap(),
        &vec![vec![0, 0, 255], vec![255, 255, 0]]
    );
}

#[test]
fn decoded_animation_serializes_and_round_trips() {
    let data = RgbaImageData::new_from_bytes(&two_frame_gif(), ChannelMode::Rgb).unwrap();
    let bytes = data.to_json_bytes();
    let text = String::from_utf8(bytes.clone()).unwrap();
    assert!(text.starts_with(r#"{"dimensions":[2,1],"length":2,"frames":[{"delay_ratio":[10,1],"#));
    let back = RgbaImageData::from_json_bytes(&bytes).unwrap();
    assert_eq!(back, data);
}

#[test]
fn garbage_bytes_are_rejected_as_malformed() {
    let r = RgbaImageData::new_from_bytes(b"this is not a gif", ChannelMode::Rgba);
    assert_eq!(r.unwrap_err(), DecodeError::Malformed);
}
