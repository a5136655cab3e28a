use elem::audio::{AudioBuffer, FloatType};

#[derive(Clone, Debug, Default, PartialEq)]
struct Sample(f32);

impl FloatType for Sample {}

#[derive(Clone, Debug, PartialEq)]
struct Loud(f64);

impl Default for Loud {
    fn default() -> Self {
        Loud(0.5)
    }
}

impl FloatType for Loud {}

#[test]
fn new_buffer_holds_a_default_sample_for_each_channel_of_each_frame() {
    let buffer = AudioBuffer::<Sample>::new(2, 3);
    assert_eq!(buffer.channels, 2);
    assert_eq!(buffer.frames, 3);
    assert_eq!(buffer.data, vec![Sample(0.0); 6]);
}

#[test]
fn new_buffer_takes_the_default_of_the_sample_type() {
    let buffer = AudioBuffer::<Loud>::new(1, 2);
    assert_eq!(buffer.data, vec![Loud(0.5), Loud(0.5)]);
}

#[test]
fn buffer_without_channels_or_frames_is_empty() {
    assert_eq!(AudioBuffer::<Sample>::new(0, 512).data.len(), 0);
    assert_eq!(AudioBuffer::<Sample>::new(2, 0).data.len(), 0);
    let none = AudioBuffer::<Sample>::new(0, 0);
    assert_eq!((none.channels, none.frames, none.data.len()), (0, 0, 0));
}

#[test]
fn default_buffer_is_empty() {
    let buffer = AudioBuffer::<Sample>::default();
    assert_eq!(buffer.channels, 0);
    assert_eq!(buffer.frames, 0);
    assert_eq!(buffer.data.len(), 0);
}
