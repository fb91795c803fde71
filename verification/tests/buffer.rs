use dasp_graph::buffer::mix;
use dasp_graph::Buffer;

fn ramp() -> [i32; 64] {
    let mut samples = [0i32; 64];
    for (i, s) in samples.iter_mut().enumerate() {
        *s = i as i32 * 10;
    }
    samples
}

#[test]
fn new_buffer_is_silent() {
    let b = Buffer::new();
    assert_eq!(b.len(), Buffer::LEN);
    assert_eq!(b.len(), 64);
    assert!(b.as_slice().iter().all(|s| *s == 0));
}

#[test]
fn default_buffer_is_silent() {
    let b = Buffer::default();
    assert_eq!(b, Buffer::new());
    assert_eq!(b.as_slice(), &[0i32; 64][..]);
}

#[test]
fn from_samples_keeps_every_sample() {
    let b = Buffer::from_samples(ramp());
    assert_eq!(b.as_slice(), &ramp()[..]);
    assert_eq!(b.get(0), 0);
    assert_eq!(b.get(1), 10);
    assert_eq!(b.get(63), 630);
}

#[test]
fn set_changes_one_sample() {
    let mut b = Buffer::from_samples(ramp());
    b.set(5, -7);
    let mut expected = ramp();
    expected[5] = -7;
    assert_eq!(b.as_slice(), &expected[..]);
    assert_eq!(b.len(), 64);
}

#[test]
fn silence_resets_every_sample() {
    let mut b = Buffer::from_samples(ramp());
    b.silence();
    assert_eq!(b, Buffer::new());
}

#[test]
fn copy_from_takes_the_other_samples() {
    let mut b = Buffer::new();
    let other = Buffer::from_samples(ramp());
    b.copy_from(&other);
    assert_eq!(b, other);
}

#[test]
fn clone_is_equal() {
    let b = Buffer::from_samples(ramp());
    assert_eq!(b.clone(), b);
    assert_ne!(b, Buffer::new());
}

#[test]
fn mix_adds_samples() {
    assert_eq!(mix(2, 3), 5);
    assert_eq!(mix(-2, 3), 1);
    assert_eq!(mix(0, 0), 0);
    assert_eq!(mix(i32::MAX, 0), i32::MAX);
    assert_eq!(mix(i32::MIN, 0), i32::MIN);
    assert_eq!(mix(i32::MAX, i32::MIN), -1);
}

#[test]
fn mix_clips_at_both_ends() {
    assert_eq!(mix(i32::MAX, 1), i32::MAX);
    assert_eq!(mix(i32::MAX, i32::MAX), i32::MAX);
    assert_eq!(mix(i32::MIN, -1), i32::MIN);
    assert_eq!(mix(i32::MIN, i32::MIN), i32::MIN);
    assert_eq!(mix(i32::MAX - 1, 1), i32::MAX);
    assert_eq!(mix(i32::MIN + 1, -1), i32::MIN);
}

#[test]
fn add_in_place_sums_sample_by_sample() {
    let mut b = Buffer::from_samples(ramp());
    let other = Buffer::from_samples([3; 64]);
    b.add_in_place(&other);
    let mut expected = ramp();
    for s in expected.iter_mut() {
        *s += 3;
    }
    assert_eq!(b.as_slice(), &expected[..]);
    assert_eq!(other.as_slice(), &[3i32; 64][..]);
}

#[test]
fn add_in_place_clips() {
    let mut b = Buffer::from_samples([i32::MAX - 1; 64]);
    b.add_in_place(&Buffer::from_samples([5; 64]));
    assert_eq!(b.as_slice(), &[i32::MAX; 64][..]);
    let mut low = Buffer::from_samples([i32::MIN + 2; 64]);
    low.add_in_place(&Buffer::from_samples([-5; 64]));
    assert_eq!(low.as_slice(), &[i32::MIN; 64][..]);
}

#[test]
fn buffer_from_an_array() {
    let b = Buffer::from(ramp());
    assert_eq!(b, Buffer::from_samples(ramp()));
    let c: Buffer = [4; 64].into();
    assert_eq!(c.get(17), 4);
}

#[test]
fn buffer_reads_as_a_slice() {
    let b = Buffer::from_samples(ramp());
    assert_eq!(b[2], 20);
    assert_eq!(b.iter().count(), 64);
    assert_eq!(b.iter().copied().max(), Some(630));
    assert_eq!(&b[..3], &[0, 10, 20][..]);
}

#[test]
fn buffers_differ_in_any_one_sample() {
    let a = Buffer::from_samples(ramp());
    for i in 0..Buffer::LEN {
        let mut b = a.clone();
        b.set(i, -1);
        assert!(a != b);
        b.set(i, a.get(i));
        assert!(a == b);
    }
}
