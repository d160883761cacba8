use cantrip::DelayLine;

/// Feedback mix used by the effect: the input plus the delayed sample scaled.
fn feedback(amount: f32) -> impl Fn(f32, f32) -> f32 {
    move |input: f32, delayed: f32| input + delayed * amount
}

/// Delay in samples for a time in milliseconds at a sample rate in Hz.
fn samples(ms: f32, sample_rate: f32) -> usize {
    (ms * sample_rate / 1000.0) as usize
}

/// A line holding `max_delay_ms` of audio at `sample_rate`.
fn line(max_delay_ms: f32, sample_rate: f32) -> DelayLine<f32> {
    DelayLine::new((max_delay_ms * sample_rate / 1000.0).ceil() as usize, 0.0)
}

#[test]
fn test_delay_line_basic() {
    let mut delay = line(100.0, 1000.0);
    let d = samples(10.0, 1000.0);

    delay.process(1.0, d, feedback(0.0));

    for _ in 0..9 {
        let output = delay.process(0.0, d, feedback(0.0));
        assert_eq!(output, 0.0);
    }

    let output = delay.process(0.0, d, feedback(0.0));
    assert_eq!(output, 1.0);
}

#[test]
fn test_delay_line_feedback() {
    let mut delay = line(100.0, 1000.0);
    let d = samples(10.0, 1000.0);

    delay.process(1.0, d, feedback(0.5));

    for _ in 0..9 {
        delay.process(0.0, d, feedback(0.5));
    }

    let output = delay.process(0.0, d, feedback(0.5));
    assert_eq!(output, 1.0);

    for _ in 0..9 {
        delay.process(0.0, d, feedback(0.5));
    }

    let output = delay.process(0.0, d, feedback(0.5));
    assert!((output - 0.5).abs() < 0.001);
}

#[test]
fn test_delay_line_reset() {
    let mut delay = line(100.0, 1000.0);
    let d = samples(10.0, 1000.0);

    delay.process(1.0, d, feedback(0.5));
    delay.reset();

    for _ in 0..20 {
        let output = delay.process(0.0, d, feedback(0.5));
        assert_eq!(output, 0.0);
    }
}

#[test]
fn capacity_is_max_delay_plus_one() {
    let delay = line(100.0, 1000.0);
    assert_eq!(delay.len(), 101);
    let delay = line(2000.0, 44100.0);
    assert_eq!(delay.len(), 88201);
    let delay: DelayLine<i32> = DelayLine::new(0, 0);
    assert_eq!(delay.len(), 1);
}

#[test]
fn returns_value_read_before_the_write() {
    let mut delay: DelayLine<i32> = DelayLine::new(4, 0);
    // The mix writes something other than what it reads.
    let out = delay.process(3, 1, |x: i32, d: i32| x * 10 + d);
    assert_eq!(out, 0);
    let out = delay.process(0, 1, |x: i32, d: i32| x * 10 + d);
    assert_eq!(out, 30);
}

#[test]
fn delay_past_capacity_is_clamped() {
    let mut delay: DelayLine<i32> = DelayLine::new(3, 0);
    let keep = |x: i32, _d: i32| x;
    // Four cells: the largest delay is three samples.
    delay.process(5, 3, keep);
    delay.process(6, 3, keep);
    delay.process(7, 3, keep);
    assert_eq!(delay.process(8, 1000, keep), 5);
    assert_eq!(delay.process(9, usize::MAX, keep), 6);
    assert_eq!(delay.process(0, 3, keep), 7);
}

#[test]
fn cursor_wraps_round_the_ring() {
    let mut delay: DelayLine<i32> = DelayLine::new(2, 0);
    let keep = |x: i32, _d: i32| x;
    let mut heard = Vec::new();
    for v in 1..=8 {
        heard.push(delay.process(v, 2, keep));
    }
    assert_eq!(heard, vec![0, 0, 1, 2, 3, 4, 5, 6]);
}

#[test]
fn zero_delay_reads_a_full_ring_back() {
    let mut delay: DelayLine<i32> = DelayLine::new(2, 0);
    let keep = |x: i32, _d: i32| x;
    let mut heard = Vec::new();
    for v in 1..=6 {
        heard.push(delay.process(v, 0, keep));
    }
    assert_eq!(heard, vec![0, 0, 0, 1, 2, 3]);
}

#[test]
fn echo_after_exactly_the_delay() {
    for d in 1..10usize {
        let mut delay: DelayLine<i32> = DelayLine::new(9, -1);
        let keep = |x: i32, _d: i32| x;
        let first = delay.process(42, d, keep);
        assert_eq!(first, -1);
        for step in 1..d {
            assert_eq!(delay.process(step as i32, d, keep), -1);
        }
        assert_eq!(delay.process(0, d, keep), 42);
    }
}

#[test]
fn feedback_halves_each_round_trip() {
    let mut delay = line(100.0, 1000.0);
    let mut peaks = Vec::new();
    for n in 0..60 {
        let input = if n == 0 { 1.0 } else { 0.0 };
        let out = delay.process(input, 10, feedback(0.5));
        if n % 10 == 0 && n > 0 {
            peaks.push(out);
        } else {
            assert_eq!(out, 0.0);
        }
    }
    assert_eq!(peaks, vec![1.0, 0.5, 0.25, 0.125, 0.0625]);
}

#[test]
fn reset_twice_matches_reset_once_and_a_new_line() {
    let mut once = line(50.0, 1000.0);
    let mut twice = line(50.0, 1000.0);
    let mut fresh = line(50.0, 1000.0);
    for n in 0..37 {
        once.process(n as f32, 7, feedback(0.3));
        twice.process(n as f32 * 2.0, 3, feedback(0.9));
    }
    once.reset();
    twice.reset();
    twice.reset();
    for n in 0..120 {
        let x = ((n * 7) % 11) as f32 - 5.0;
        let a = once.process(x, 9, feedback(0.4));
        let b = twice.process(x, 9, feedback(0.4));
        let c = fresh.process(x, 9, feedback(0.4));
        assert_eq!(a, b);
        assert_eq!(a, c);
    }
}

#[test]
fn set_max_delay_discards_and_resizes() {
    let mut delay: DelayLine<i32> = DelayLine::new(3, 0);
    let keep = |x: i32, _d: i32| x;
    delay.process(9, 1, keep);
    delay.process(9, 1, keep);
    delay.set_max_delay(5);
    assert_eq!(delay.len(), 6);
    for _ in 0..12 {
        assert_eq!(delay.process(0, 5, keep), 0);
    }
    delay.set_max_delay(1);
    assert_eq!(delay.len(), 2);
    delay.process(4, 1, keep);
    assert_eq!(delay.process(0, 1, keep), 4);
}

#[test]
fn silence_in_stays_silent() {
    let mut delay: DelayLine<i32> = DelayLine::new(10, 0);
    for d in 0..30usize {
        assert_eq!(delay.process(0, d % 12, |x: i32, dl: i32| x + dl / 2), 0);
    }
}
