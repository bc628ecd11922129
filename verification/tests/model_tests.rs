use gif2json::ChannelMode;
use gif2json::DecodeError;
use gif2json::DecodedFrame;
use gif2json::RawFrame;
use gif2json::RgbaImageData;

fn raw(width: u32, height: u32, delay: (u32, u32), pixels: Vec<(u8, u8, u8, u8)>) -> RawFrame {
    RawFrame { width, height, delay_ratio: delay, pixels }
}

#[test]
fn builds_two_frame_rgb_animation() {
    let frames = vec![
        raw(2, 1, (10, 1), vec![(255, 0, 0, 255), (0, 255, 0, 255)]),
        raw(2, 1, (20, 1), vec![(0, 0, 255, 255), (255, 255, 0, 255)]),
    ];
    let data = RgbaImageData::build(&frames, ChannelMode::Rgb).unwrap();
    assert_eq!(data.get_dimensions(), (2, 1));
    assert_eq!(data.get_length(), 2);
    assert_eq!(data.get_frame_delay(0), Some((10, 1)));
    assert_eq!(data.get_frame_delay(1), Some((20, 1)));
    assert_eq!(
        data.get_frame_vec_ref(0).unwrap(),
        &vec![vec![255, 0, 0], vec![0, 255, 0]]
    );
    assert_eq!(
        data.get_frame_vec_ref(1).unwrap(),
        &vec![vec![0, 0, 255], vec![255, 255, 0]]
    );
}

#[test]
fn empty_animation_is_rejected_as_empty() {
    let frames: Vec<RawFrame> = vec![];
    let r = RgbaImageData::build(&frames, ChannelMode::Rgba);
    assert_eq!(r.unwrap_err(), DecodeError::Empty);
}

#[test]
fn dimension_mismatch_is_rejected() {
    let frames = vec![
        raw(2, 1, (10, 1), vec![(1, 2, 3, 4), (5, 6, 7, 8)]),
        raw(1, 1, (10, 1), vec![(1, 2, 3, 4)]),
    ];
    let r = RgbaImageData::build(&frames, ChannelMode::Rgba);
    assert_eq!(r.unwrap_err(), DecodeError::InconsistentDimensions);
}

#[test]
fn alpha_discard_drops_exactly_the_alpha_channel() {
    let frames = vec![raw(1, 1, (0, 1), vec![(9, 8, 7, 6)])];
    let data = RgbaImageData::build(&frames, ChannelMode::Rgb).unwrap();
    assert_eq!(data.get_frame_vec_ref(0).unwrap(), &vec![vec![9, 8, 7]]);
}

#[test]
fn alpha_preserve_keeps_all_four_channels() {
    let frames = vec![raw(1, 1, (0, 1), vec![(9, 8, 7, 6)])];
    let data = RgbaImageData::build(&frames, ChannelMode::Rgba).unwrap();
    assert_eq!(data.get_frame_vec_ref(0).unwrap(), &vec![vec![9, 8, 7, 6]]);
}

#[test]
fn out_of_range_frame_access_yields_none() {
    let frames = vec![
        raw(1, 1, (10, 1), vec![(1, 2, 3, 4)]),
        raw(1, 1, (10, 1), vec![(5, 6, 7, 8)]),
    ];
    let data = RgbaImageData::build(&frames, ChannelMode::Rgba).unwrap();
    assert_eq!(data.get_frame_vec_ref(5), None);
    assert_eq!(data.get_frame_delay(5), None);
    assert!(data.get_frame_vec_ref(1).is_some());
}

#[test]
fn frame_count_and_pixel_counts_match_dimensions() {
    let frames = vec![
        raw(3, 2, (1, 1), vec![(0, 0, 0, 0); 6]),
        raw(3, 2, (2, 1), vec![(1, 1, 1, 1); 6]),
        raw(3, 2, (3, 1), vec![(2, 2, 2, 2); 6]),
    ];
    let data = RgbaImageData::build(&frames, ChannelMode::Rgb).unwrap();
    assert_eq!(data.get_length(), 3);
    let (w, h) = data.get_dimensions();
    for k in 0..3 {
        let pixels = data.get_frame_vec_ref(k).unwrap();
        assert_eq!(pixels.len(), (w * h) as usize);
    }
}

#[test]
fn builder_appends_frames_in_order() {
    let mut data = RgbaImageData::new(2, (1, 1), ChannelMode::Rgba);
    data.add(DecodedFrame::new((10, 1), vec![vec![1, 2, 3, 4]]));
    data.add(DecodedFrame::new((20, 1), vec![vec![5, 6, 7, 8]]));
    assert_eq!(data.get_length(), 2);
    assert_eq!(data.get_frame_delay(0), Some((10, 1)));
    assert_eq!(data.get_frame_delay(1), Some((20, 1)));
    assert_eq!(data.get_frame_vec_ref(1).unwrap(), &vec![vec![5, 6, 7, 8]]);
    assert_eq!(data.get_mode(), ChannelMode::Rgba);
}
