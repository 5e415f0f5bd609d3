use convolver::fast_convolver::{convolve_stream, ConvolutionError, ConvolutionMode, FastConvolver};
use rand::Rng;

fn engine(ir: Vec<i16>, mode: ConvolutionMode, block_size: usize) -> FastConvolver {
    FastConvolver::new(ir, mode, block_size).unwrap()
}

fn random_block(len: usize) -> Vec<i16> {
    let mut rng = rand::thread_rng();
    (0..len).map(|_| rng.gen::<i16>()).collect()
}

/// Direct full linear convolution, for comparison.
fn reference(x: &[i16], h: &[i16]) -> Vec<i64> {
    let mut y = vec![0i64; x.len() + h.len() - 1];
    for (a, &xa) in x.iter().enumerate() {
        for (k, &hk) in h.iter().enumerate() {
            y[a + k] += xa as i64 * hk as i64;
        }
    }
    y
}

/// Feeds `x` in blocks of `block_size` and then flushes the whole tail.
fn run_stream(ir: &[i16], mode: ConvolutionMode, block_size: usize, x: &[i16]) -> Vec<i64> {
    let mut convolver = engine(ir.to_vec(), mode, block_size);
    let mut out = Vec::new();
    for block in x.chunks(block_size) {
        let mut output = vec![0i64; block_size];
        convolver.process(block, &mut output).unwrap();
        out.extend_from_slice(&output);
    }
    let mut tail = vec![0i64; convolver.get_output_tail_size()];
    let written = convolver.flush(&mut tail);
    assert_eq!(written, tail.len());
    out.extend_from_slice(&tail);
    out
}

#[test]
fn test_identity_impulse_response() {
    let block_size = 16;
    let mut impulse_response = vec![0i16; 50];
    impulse_response[0] = 1;
    let input_signal = random_block(block_size);
    let mut output_signal = vec![0i64; block_size];
    let mut convolver = engine(impulse_response, ConvolutionMode::TimeDomain, block_size);
    convolver.process(&input_signal, &mut output_signal).unwrap();
    for (in_val, out_val) in input_signal.iter().zip(output_signal.iter()) {
        assert_eq!(*out_val, *in_val as i64);
    }
}

#[test]
fn test_identity_impulse_response_frequency() {
    let block_size = 16;
    let mut impulse_response = vec![0i16; 50];
    impulse_response[0] = 1;
    let input_signal = random_block(block_size);
    let mut output_signal = vec![0i64; block_size];
    let mut convolver = engine(impulse_response, ConvolutionMode::FrequencyDomain, block_size);
    convolver.process(&input_signal, &mut output_signal).unwrap();
    for (in_val, out_val) in input_signal.iter().zip(output_signal.iter()) {
        assert_eq!(*out_val, *in_val as i64);
    }
}

fn check_flush(mode: ConvolutionMode) {
    let block_size = 16;
    let mut rng = rand::thread_rng();
    let mut impulse_response = vec![0i16; 50];
    impulse_response[0] = 1;
    let gain = rng.gen::<i16>();
    // Delays the whole input by one block, scaled by the gain.
    impulse_response[block_size] = gain;
    let input_signal = random_block(block_size);
    let mut output_signal = vec![0i64; block_size];
    let mut convolver = engine(impulse_response, mode, block_size);
    convolver.process(&input_signal, &mut output_signal).unwrap();
    for (in_val, out_val) in input_signal.iter().zip(output_signal.iter()) {
        assert_eq!(*out_val, *in_val as i64);
    }

    let tail_len = convolver.get_output_tail_size();
    assert_eq!(tail_len, 49);
    let mut reverb_tail = vec![0i64; tail_len];
    assert_eq!(convolver.flush(&mut reverb_tail), tail_len);
    for i in 0..block_size {
        assert_eq!(reverb_tail[i], input_signal[i] as i64 * gain as i64);
    }
    for i in block_size..tail_len {
        assert_eq!(reverb_tail[i], 0);
    }
}

#[test]
fn test_flush() {
    check_flush(ConvolutionMode::TimeDomain);
}

#[test]
fn test_flush_frequency() {
    check_flush(ConvolutionMode::FrequencyDomain);
}

#[test]
fn test_trial() {
    let block_size = 16;
    let mut impulse_response = vec![0i16; 130];
    impulse_response[0] = 1;
    let input_signal = random_block(block_size * 4);
    let mut convolver = engine(impulse_response, ConvolutionMode::TimeDomain, block_size);
    let mut output_signal = Vec::new();
    for block in input_signal.chunks(block_size) {
        let mut output = vec![0i64; block_size];
        convolver.process(block, &mut output).unwrap();
        output_signal.extend_from_slice(&output);
    }
    for i in 0..block_size * 2 {
        assert_eq!(output_signal[i], input_signal[i] as i64);
    }
}

#[test]
fn small_convolution_exact_values() {
    // [1, 1, 0, 0] * [1, 2, 3] = [1, 3, 5, 3, 0, 0]
    for mode in [ConvolutionMode::TimeDomain, ConvolutionMode::FrequencyDomain] {
        let mut convolver = engine(vec![1, 2, 3], mode, 2);
        let mut out = vec![0i64; 2];
        convolver.process(&[1, 1], &mut out).unwrap();
        assert_eq!(out, vec![1, 3]);
        convolver.process(&[0, 0], &mut out).unwrap();
        assert_eq!(out, vec![5, 3]);
        let mut tail = vec![7i64; 2];
        assert_eq!(convolver.flush(&mut tail), 2);
        assert_eq!(tail, vec![0, 0]);
    }
}

#[test]
fn tail_carries_into_next_block_and_flush() {
    let mut convolver = engine(vec![1, 2, 3], ConvolutionMode::TimeDomain, 2);
    let mut out = vec![0i64; 2];
    convolver.process(&[1, 1], &mut out).unwrap();
    let mut tail = vec![0i64; 2];
    assert_eq!(convolver.flush(&mut tail), 2);
    assert_eq!(tail, vec![5, 3]);
}

#[test]
fn identity_response_over_many_blocks_flushes_zeros() {
    let block_size = 8;
    let mut ir = vec![0i16; 20];
    ir[0] = 1;
    for mode in [ConvolutionMode::TimeDomain, ConvolutionMode::FrequencyDomain] {
        let mut convolver = engine(ir.clone(), mode, block_size);
        for _ in 0..5 {
            let input = random_block(block_size);
            let mut out = vec![0i64; block_size];
            convolver.process(&input, &mut out).unwrap();
            let expected: Vec<i64> = input.iter().map(|&v| v as i64).collect();
            assert_eq!(out, expected);
        }
        let mut tail = vec![1i64; convolver.get_output_tail_size()];
        convolver.flush(&mut tail);
        assert!(tail.iter().all(|&v| v == 0));
    }
}

#[test]
fn delayed_gain_block_of_ten() {
    let x: Vec<i16> = vec![3, -1, 4, 1, -5, 9, 2, -6, 5, 3];
    let g: i16 = -7;
    let mut ir = vec![0i16; 11];
    ir[0] = 1;
    ir[10] = g;
    let mut convolver = engine(ir, ConvolutionMode::TimeDomain, 10);
    let mut out = vec![0i64; 10];
    convolver.process(&x, &mut out).unwrap();
    let expected: Vec<i64> = x.iter().map(|&v| v as i64).collect();
    assert_eq!(out, expected);
    let mut tail = vec![0i64; 10];
    assert_eq!(convolver.flush(&mut tail), 10);
    let scaled: Vec<i64> = x.iter().map(|&v| v as i64 * g as i64).collect();
    assert_eq!(tail, scaled);
    let mut more = vec![1i64; 5];
    assert_eq!(convolver.flush(&mut more), 0);
    assert_eq!(more, vec![1; 5]);
}

#[test]
fn modes_agree_on_random_streams() {
    let mut rng = rand::thread_rng();
    for &block_size in &[1usize, 2, 8, 16] {
        let ir_len = rng.gen_range(1..70);
        let ir = random_block(ir_len);
        let x = random_block(block_size * 6);
        let time = run_stream(&ir, ConvolutionMode::TimeDomain, block_size, &x);
        let freq = run_stream(&ir, ConvolutionMode::FrequencyDomain, block_size, &x);
        assert_eq!(time, freq);
        assert_eq!(time, reference(&x, &ir));
    }
}

#[test]
fn block_size_sixteen_and_sixty_four_agree() {
    let ir = random_block(100);
    let x = random_block(256);
    for mode in [ConvolutionMode::TimeDomain, ConvolutionMode::FrequencyDomain] {
        let small = run_stream(&ir, mode, 16, &x);
        let large = run_stream(&ir, mode, 64, &x);
        assert_eq!(small, large);
        assert_eq!(small, reference(&x, &ir));
    }
}

#[test]
fn non_power_of_two_block_in_time_domain() {
    let ir = random_block(23);
    let x = random_block(36);
    assert_eq!(run_stream(&ir, ConvolutionMode::TimeDomain, 12, &x), reference(&x, &ir));
}

#[test]
fn linearity_in_both_modes() {
    let mut rng = rand::thread_rng();
    let ir = random_block(30);
    let a: i16 = 3;
    let x1: Vec<i16> = (0..8).map(|_| rng.gen_range(-1000..1000)).collect();
    let x2: Vec<i16> = (0..8).map(|_| rng.gen_range(-1000..1000)).collect();
    let mixed: Vec<i16> = x1.iter().zip(&x2).map(|(&u, &v)| a * u + v).collect();
    for mode in [ConvolutionMode::TimeDomain, ConvolutionMode::FrequencyDomain] {
        let out_of = |x: &[i16]| {
            let mut convolver = engine(ir.clone(), mode, 8);
            let mut out = vec![0i64; 8];
            convolver.process(x, &mut out).unwrap();
            let mut tail = vec![0i64; 29];
            convolver.flush(&mut tail);
            out.extend_from_slice(&tail);
            out
        };
        let y1 = out_of(&x1);
        let y2 = out_of(&x2);
        let y = out_of(&mixed);
        for i in 0..y.len() {
            assert_eq!(y[i], a as i64 * y1[i] + y2[i]);
        }
    }
}

#[test]
fn tail_size_is_response_length_minus_one() {
    let mut convolver = engine(vec![1; 37], ConvolutionMode::TimeDomain, 4);
    assert_eq!(convolver.get_output_tail_size(), 36);
    let mut out = vec![0i64; 4];
    for _ in 0..3 {
        convolver.process(&[1, 2, 3, 4], &mut out).unwrap();
        assert_eq!(convolver.get_output_tail_size(), 36);
        convolver.reset();
        assert_eq!(convolver.get_output_tail_size(), 36);
    }
    let single = engine(vec![5], ConvolutionMode::FrequencyDomain, 8);
    assert_eq!(single.get_output_tail_size(), 0);
}

#[test]
fn reset_drops_pending_energy() {
    let mut convolver = engine(vec![1, 1, 1, 1], ConvolutionMode::TimeDomain, 2);
    let mut out = vec![0i64; 2];
    convolver.process(&[5, 5], &mut out).unwrap();
    convolver.reset();
    convolver.process(&[0, 0], &mut out).unwrap();
    assert_eq!(out, vec![0, 0]);
    let mut tail = vec![9i64; 3];
    assert_eq!(convolver.flush(&mut tail), 3);
    assert_eq!(tail, vec![0, 0, 0]);
}

#[test]
fn flush_in_pieces_hands_out_the_tail_once() {
    let mut convolver = engine(vec![1, 2, 3, 4], ConvolutionMode::TimeDomain, 1);
    let mut out = vec![0i64; 1];
    convolver.process(&[1], &mut out).unwrap();
    assert_eq!(out, vec![1]);
    let mut first = vec![0i64; 2];
    assert_eq!(convolver.flush(&mut first), 2);
    assert_eq!(first, vec![2, 3]);
    let mut second = vec![6i64; 4];
    assert_eq!(convolver.flush(&mut second), 1);
    assert_eq!(second, vec![4, 6, 6, 6]);
    let mut third = vec![8i64; 2];
    assert_eq!(convolver.flush(&mut third), 0);
    assert_eq!(third, vec![8, 8]);
}

#[test]
fn zero_block_size_is_a_config_error() {
    for mode in [ConvolutionMode::TimeDomain, ConvolutionMode::FrequencyDomain] {
        assert_eq!(
            FastConvolver::new(vec![1, 2], mode, 0).err(),
            Some(ConvolutionError::ConfigError)
        );
    }
}

#[test]
fn frequency_domain_needs_power_of_two() {
    assert_eq!(
        FastConvolver::new(vec![1, 2], ConvolutionMode::FrequencyDomain, 12).err(),
        Some(ConvolutionError::ConfigError)
    );
    assert!(FastConvolver::new(vec![1, 2], ConvolutionMode::TimeDomain, 12).is_ok());
    assert!(FastConvolver::new(vec![1, 2], ConvolutionMode::FrequencyDomain, 1).is_ok());
}

#[test]
fn wrong_block_length_is_rejected_without_change() {
    let mut convolver = engine(vec![1, 1, 1], ConvolutionMode::TimeDomain, 4);
    let mut out = vec![0i64; 4];
    convolver.process(&[1, 1, 1, 1], &mut out).unwrap();
    let mut bad_out = vec![6i64; 3];
    assert_eq!(
        convolver.process(&[1, 1, 1, 1], &mut bad_out),
        Err(ConvolutionError::LengthMismatch)
    );
    assert_eq!(bad_out, vec![6, 6, 6]);
    assert_eq!(
        convolver.process(&[1, 1, 1], &mut out),
        Err(ConvolutionError::LengthMismatch)
    );
    assert_eq!(out, vec![1, 2, 3, 3]);
    let mut tail = vec![0i64; 2];
    convolver.flush(&mut tail);
    assert_eq!(tail, vec![2, 1]);
}

#[test]
fn add_buffer_advances_by_one_block() {
    let mut convolver = engine(vec![1, 1, 1, 1, 1], ConvolutionMode::TimeDomain, 2);
    let mut out = vec![0i64; 2];
    convolver.process(&[1, 2], &mut out).unwrap();
    assert_eq!(out, vec![1, 3]);
    let mut next = vec![0i64; 2];
    convolver.add_buffer(&mut next);
    assert_eq!(next, vec![3, 3]);
    let mut rest = vec![0i64; 4];
    assert_eq!(convolver.flush(&mut rest), 4);
    assert_eq!(rest, vec![3, 2, 0, 0]);
}

#[test]
fn extreme_samples_do_not_overflow() {
    let ir = vec![i16::MIN; 64];
    let x = vec![i16::MIN; 64];
    for mode in [ConvolutionMode::TimeDomain, ConvolutionMode::FrequencyDomain] {
        assert_eq!(run_stream(&ir, mode, 16, &x), reference(&x, &ir));
    }
}

#[test]
fn add_buffer_leaves_the_rest_of_a_longer_output() {
    let mut convolver = engine(vec![1, 1, 1, 1, 1], ConvolutionMode::TimeDomain, 2);
    let mut out = vec![0i64; 2];
    convolver.process(&[1, 2], &mut out).unwrap();
    let mut next = vec![-1i64; 5];
    convolver.add_buffer(&mut next);
    assert_eq!(next, vec![3, 3, -1, -1, -1]);
}

#[test]
fn convolve_stream_gives_the_full_convolution() {
    let ir = random_block(40);
    let x = random_block(128);
    for mode in [ConvolutionMode::TimeDomain, ConvolutionMode::FrequencyDomain] {
        let y16 = convolve_stream(ir.clone(), mode, 16, &x).unwrap();
        let y64 = convolve_stream(ir.clone(), mode, 64, &x).unwrap();
        assert_eq!(y16.len(), x.len() + ir.len() - 1);
        assert_eq!(y16, y64);
        assert_eq!(y16, reference(&x, &ir));
    }
}

#[test]
fn convolve_stream_rebuilds_the_response_from_an_impulse() {
    let ir: Vec<i16> = vec![5, -3, 8, 0, 2, 7, -1];
    let mut x = vec![0i16; 6];
    x[0] = 1;
    let y = convolve_stream(ir.clone(), ConvolutionMode::TimeDomain, 3, &x).unwrap();
    let mut expected: Vec<i64> = ir.iter().map(|&v| v as i64).collect();
    expected.extend_from_slice(&[0; 5]);
    assert_eq!(y, expected);
}

#[test]
fn convolve_stream_of_empty_signal_is_a_silent_tail() {
    let y = convolve_stream(vec![1, 2, 3], ConvolutionMode::TimeDomain, 4, &[]).unwrap();
    assert_eq!(y, vec![0, 0]);
}

#[test]
fn convolve_stream_errors() {
    assert_eq!(
        convolve_stream(vec![1, 2], ConvolutionMode::FrequencyDomain, 6, &[1; 12]),
        Err(ConvolutionError::ConfigError)
    );
    assert_eq!(
        convolve_stream(vec![1, 2], ConvolutionMode::TimeDomain, 0, &[1; 12]),
        Err(ConvolutionError::ConfigError)
    );
    assert_eq!(
        convolve_stream(vec![1, 2], ConvolutionMode::TimeDomain, 5, &[1; 12]),
        Err(ConvolutionError::LengthMismatch)
    );
}
