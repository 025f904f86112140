use fast_convolver::{ConvolutionMode, Error, FastConvolver};

fn noise(seed: u64, count: usize) -> Vec<i64> {
    let mut state = seed.wrapping_mul(0x9E3779B97F4A7C15).wrapping_add(12345);
    let mut values = Vec::new();
    for _ in 0..count {
        state = state
            .wrapping_mul(6364136223846793005)
            .wrapping_add(1442695040888963407);
        values.push(((state >> 33) as i64) % 2000003 - 1000001);
    }
    values
}

fn direct_reference(ir: &[i64], input: &[i64], out_len: usize) -> Vec<i64> {
    let mut expected = vec![0i64; out_len];
    for n in 0..out_len {
        for k in 0..ir.len() {
            if n >= k && n - k < input.len() {
                expected[n] += ir[k] * input[n - k];
            }
        }
    }
    expected
}

#[test]
fn test_unit_impulse_identity_both_modes() {
    let ir = noise(11, 37);
    let mut input = vec![0i64; 40];
    input[0] = 1;
    let mut direct = FastConvolver::new(&ir, ConvolutionMode::TimeDomain);
    let mut output = vec![0i64; 40];
    direct.process(&input, &mut output).unwrap();
    let mut partitioned = FastConvolver::new(
        &ir,
        ConvolutionMode::FrequencyDomain { block_size: 4 },
    );
    let emitted = partitioned.process_freq(&input).unwrap();
    for n in 0..37 {
        assert_eq!(output[n], ir[n]);
        assert_eq!(emitted[n], ir[n]);
    }
    for n in 37..40 {
        assert_eq!(output[n], 0);
        assert_eq!(emitted[n], 0);
    }
}

#[test]
fn test_block_size_invariance_random_input() {
    let ir = noise(12, 51);
    let input = noise(13, 600);
    let chunk_plans: [&[usize]; 3] = [&[600], &[7, 1, 300, 292], &[599, 1]];
    let mut outputs: Vec<Vec<i64>> = Vec::new();
    for plan in chunk_plans.iter() {
        let mut engine = FastConvolver::new(&ir, ConvolutionMode::TimeDomain);
        let mut collected: Vec<i64> = Vec::new();
        let mut start = 0usize;
        for size in plan.iter() {
            let chunk: Vec<i64> = input[start..start + size].to_vec();
            let mut chunk_out = vec![0i64; chunk.len()];
            engine.process(&chunk, &mut chunk_out).unwrap();
            collected.extend_from_slice(&chunk_out);
            start += size;
        }
        outputs.push(collected);
    }
    for plan_index in 1..outputs.len() {
        assert_eq!(outputs[0], outputs[plan_index]);
    }
    let mut freq_outputs: Vec<Vec<i64>> = Vec::new();
    for plan in chunk_plans.iter() {
        let mut engine = FastConvolver::new(
            &ir,
            ConvolutionMode::FrequencyDomain { block_size: 6 },
        );
        let mut collected: Vec<i64> = Vec::new();
        let mut start = 0usize;
        for size in plan.iter() {
            let chunk: Vec<i64> = input[start..start + size].to_vec();
            let mut emitted = engine.process_freq(&chunk).unwrap();
            collected.append(&mut emitted);
            start += size;
        }
        freq_outputs.push(collected);
    }
    for plan_index in 1..freq_outputs.len() {
        assert_eq!(freq_outputs[0], freq_outputs[plan_index]);
    }
    assert_eq!(freq_outputs[0], outputs[0]);
}

#[test]
fn test_cross_mode_agreement_exact() {
    let ir: Vec<i64> = vec![1, 2, 3];
    let input: Vec<i64> = vec![5, 4, 3, 2, 1, 0, -1, -2];
    let mut direct = FastConvolver::new(&ir, ConvolutionMode::TimeDomain);
    let mut output = vec![0i64; input.len()];
    direct.process(&input, &mut output).unwrap();
    let mut partitioned = FastConvolver::new(
        &ir,
        ConvolutionMode::FrequencyDomain { block_size: 2 },
    );
    let emitted = partitioned.process_freq(&input).unwrap();
    assert_eq!(emitted, output);
    assert_eq!(output, direct_reference(&ir, &input, input.len()));
}

#[test]
fn test_tail_completeness_direct() {
    let ir = noise(14, 51);
    let input = noise(15, 100);
    let mut engine = FastConvolver::new(&ir, ConvolutionMode::TimeDomain);
    let mut output = vec![0i64; 100];
    engine.process(&input, &mut output).unwrap();
    let mut tail = vec![0i64; engine.get_tail_size()];
    engine.flush(&mut tail).unwrap();
    let expected = direct_reference(&ir, &input, 150);
    for n in 0..50 {
        assert_eq!(tail[n], expected[100 + n]);
    }
    let mut beyond = vec![0i64; 50];
    engine.flush(&mut beyond).unwrap();
    for sample in beyond {
        assert_eq!(sample, 0);
    }
}

#[test]
fn test_tail_completeness_partitioned() {
    let ir = noise(16, 51);
    let input = noise(17, 97);
    let mut engine = FastConvolver::new(
        &ir,
        ConvolutionMode::FrequencyDomain { block_size: 5 },
    );
    let emitted = engine.process_freq(&input).unwrap();
    let (remain, tail) = engine.flush_freq().unwrap();
    assert_eq!(emitted.len() + remain.len(), 97);
    assert_eq!(tail.len(), 50);
    let expected = direct_reference(&ir, &input, 147);
    for n in 0..emitted.len() {
        assert_eq!(emitted[n], expected[n]);
    }
    for n in 0..remain.len() {
        assert_eq!(remain[n], expected[emitted.len() + n]);
    }
    for n in 0..tail.len() {
        assert_eq!(tail[n], expected[97 + n]);
    }
    let (remain_again, tail_again) = engine.flush_freq().unwrap();
    for sample in remain_again {
        assert_eq!(sample, 0);
    }
    assert_eq!(tail_again.len(), 50);
    for sample in tail_again {
        assert_eq!(sample, 0);
    }
}

#[test]
fn test_zero_in_zero_out_both_modes() {
    let ir = noise(18, 33);
    let input = vec![0i64; 123];
    let mut direct = FastConvolver::new(&ir, ConvolutionMode::TimeDomain);
    let mut output = vec![0i64; 123];
    direct.process(&input, &mut output).unwrap();
    for sample in &output {
        assert_eq!(*sample, 0);
    }
    let mut tail = vec![0i64; direct.get_tail_size()];
    direct.flush(&mut tail).unwrap();
    for sample in &tail {
        assert_eq!(*sample, 0);
    }
    let mut partitioned = FastConvolver::new(
        &ir,
        ConvolutionMode::FrequencyDomain { block_size: 7 },
    );
    let emitted = partitioned.process_freq(&input).unwrap();
    for sample in &emitted {
        assert_eq!(*sample, 0);
    }
    let (remain, freq_tail) = partitioned.flush_freq().unwrap();
    for sample in &remain {
        assert_eq!(*sample, 0);
    }
    for sample in &freq_tail {
        assert_eq!(*sample, 0);
    }
}

#[test]
fn test_streaming_scenario() {
    let ir = noise(19, 51);
    let mut input = vec![0i64; 10000];
    input[3] = 1;
    let chunk_sizes = [1usize, 13, 1023, 2048, 1, 17, 5000, 1897];
    let mut direct = FastConvolver::new(&ir, ConvolutionMode::TimeDomain);
    let mut direct_out = vec![0i64; 10000];
    direct.process(&input, &mut direct_out).unwrap();
    let mut engine = FastConvolver::new(
        &ir,
        ConvolutionMode::FrequencyDomain { block_size: 5 },
    );
    let mut streamed: Vec<i64> = Vec::new();
    let mut start = 0usize;
    for size in chunk_sizes.iter() {
        let chunk: Vec<i64> = input[start..start + size].to_vec();
        let mut emitted = engine.process_freq(&chunk).unwrap();
        streamed.append(&mut emitted);
        start += size;
    }
    assert_eq!(start, 10000);
    assert_eq!(streamed.len(), 10000);
    for position in 3..54 {
        assert_eq!(streamed[position], ir[position - 3]);
    }
    assert_eq!(streamed, direct_out);
}

#[test]
fn test_wrong_mode_errors() {
    let ir: Vec<i64> = vec![1, 2, 3, 4];
    let mut direct = FastConvolver::new(&ir, ConvolutionMode::TimeDomain);
    assert_eq!(direct.process_freq(&vec![1, 2]), Err(Error::WrongMode));
    assert_eq!(direct.flush_freq(), Err(Error::WrongMode));
    let mut partitioned = FastConvolver::new(
        &ir,
        ConvolutionMode::FrequencyDomain { block_size: 2 },
    );
    let input: Vec<i64> = vec![1, 2];
    let mut output: Vec<i64> = vec![0, 0];
    assert_eq!(partitioned.process(&input, &mut output), Err(Error::WrongMode));
    assert_eq!(partitioned.flush(&mut output), Err(Error::WrongMode));
}

#[test]
fn test_length_mismatch_error() {
    let ir: Vec<i64> = vec![1, 2, 3, 4];
    let mut direct = FastConvolver::new(&ir, ConvolutionMode::TimeDomain);
    let input: Vec<i64> = vec![1, 2, 3];
    let mut output: Vec<i64> = vec![0, 0];
    assert_eq!(direct.process(&input, &mut output), Err(Error::LengthMismatch));
    assert_eq!(output, vec![0, 0]);
}

#[test]
fn test_conv_sum_exact_values() {
    let ir: Vec<i64> = vec![1, 2, 3];
    let mut engine = FastConvolver::new(&ir, ConvolutionMode::TimeDomain);
    assert_eq!(engine.get_conv_length(), 0);
    let input: Vec<i64> = vec![10, 20, 30];
    let mut output: Vec<i64> = vec![0; 3];
    engine.process(&input, &mut output).unwrap();
    assert_eq!(output, vec![10, 40, 100]);
    assert_eq!(engine.get_conv_length(), 3);
    assert_eq!(engine.calculate_conv_sum(), 100);
    let more: Vec<i64> = vec![40];
    let mut more_out: Vec<i64> = vec![0; 1];
    engine.process(&more, &mut more_out).unwrap();
    assert_eq!(more_out, vec![40 + 60 + 60]);
    assert_eq!(engine.get_conv_length(), 3);
}

#[test]
fn test_partition_blocks() {
    let ir = noise(20, 51);
    let blocks = FastConvolver::get_impulse_block(&ir, 5);
    assert_eq!(blocks.len(), 11);
    for block in &blocks {
        assert_eq!(block.len(), 5);
    }
    for i in 0..10 {
        for k in 0..5 {
            assert_eq!(blocks[i][k], ir[i * 5 + k]);
        }
    }
    assert_eq!(blocks[10][0], ir[50]);
    for k in 1..5 {
        assert_eq!(blocks[10][k], 0);
    }
    let short: Vec<i64> = vec![9, 8, 7];
    let one_block = FastConvolver::get_impulse_block(&short, 5);
    assert_eq!(one_block.len(), 1);
    assert_eq!(one_block[0], vec![9, 8, 7, 0, 0]);
}

#[test]
fn test_block_larger_than_ir() {
    let ir: Vec<i64> = vec![3, -1, 4];
    let input = noise(21, 200);
    let mut direct = FastConvolver::new(&ir, ConvolutionMode::TimeDomain);
    let mut output = vec![0i64; 200];
    direct.process(&input, &mut output).unwrap();
    let mut partitioned = FastConvolver::new(
        &ir,
        ConvolutionMode::FrequencyDomain { block_size: 64 },
    );
    let emitted = partitioned.process_freq(&input).unwrap();
    assert_eq!(emitted.len(), 128);
    for n in 0..emitted.len() {
        assert_eq!(emitted[n], output[n]);
    }
    let (remain, tail) = partitioned.flush_freq().unwrap();
    assert_eq!(remain.len(), 72);
    for n in 0..remain.len() {
        assert_eq!(remain[n], output[128 + n]);
    }
    assert_eq!(tail.len(), 2);
    let expected = direct_reference(&ir, &input, 202);
    for n in 0..2 {
        assert_eq!(tail[n], expected[200 + n]);
    }
}

#[test]
fn test_engine_reset() {
    let ir = noise(22, 20);
    let input = noise(23, 64);
    let mut engine = FastConvolver::new(
        &ir,
        ConvolutionMode::FrequencyDomain { block_size: 8 },
    );
    let first = engine.process_freq(&input).unwrap();
    engine.reset();
    let second = engine.process_freq(&input).unwrap();
    assert_eq!(first, second);
    let mut direct = FastConvolver::new(&ir, ConvolutionMode::TimeDomain);
    let mut out_a = vec![0i64; 64];
    direct.process(&input, &mut out_a).unwrap();
    direct.reset();
    let mut out_b = vec![0i64; 64];
    direct.process(&input, &mut out_b).unwrap();
    assert_eq!(out_a, out_b);
}

#[test]
fn test_empty_input_is_accepted() {
    let ir: Vec<i64> = vec![4, 5, 6];
    let mut direct = FastConvolver::new(&ir, ConvolutionMode::TimeDomain);
    let empty: Vec<i64> = Vec::new();
    let mut output: Vec<i64> = Vec::new();
    direct.process(&empty, &mut output).unwrap();
    assert!(output.is_empty());
    let mut partitioned = FastConvolver::new(
        &ir,
        ConvolutionMode::FrequencyDomain { block_size: 3 },
    );
    let emitted = partitioned.process_freq(&empty).unwrap();
    assert!(emitted.is_empty());
}

#[test]
fn test_ir_length_one_has_empty_tail() {
    let ir: Vec<i64> = vec![3];
    let input: Vec<i64> = vec![1, 2, 3, 4];
    let mut direct = FastConvolver::new(&ir, ConvolutionMode::TimeDomain);
    let mut output = vec![0i64; 4];
    direct.process(&input, &mut output).unwrap();
    assert_eq!(output, vec![3, 6, 9, 12]);
    assert_eq!(direct.get_tail_size(), 0);
    let mut partitioned = FastConvolver::new(
        &ir,
        ConvolutionMode::FrequencyDomain { block_size: 2 },
    );
    let emitted = partitioned.process_freq(&input).unwrap();
    assert_eq!(emitted, vec![3, 6, 9, 12]);
    let (remain, tail) = partitioned.flush_freq().unwrap();
    assert!(remain.is_empty());
    assert!(tail.is_empty());
}

#[test]
fn test_block_size_one() {
    let ir = noise(25, 9);
    let input = noise(26, 25);
    let mut direct = FastConvolver::new(&ir, ConvolutionMode::TimeDomain);
    let mut output = vec![0i64; 25];
    direct.process(&input, &mut output).unwrap();
    let mut partitioned = FastConvolver::new(
        &ir,
        ConvolutionMode::FrequencyDomain { block_size: 1 },
    );
    let emitted = partitioned.process_freq(&input).unwrap();
    assert_eq!(emitted.len(), 24);
    for n in 0..24 {
        assert_eq!(emitted[n], output[n]);
    }
    let (remain, tail) = partitioned.flush_freq().unwrap();
    assert_eq!(remain, vec![output[24]]);
    assert_eq!(tail.len(), 8);
    let expected = direct_reference(&ir, &input, 33);
    for n in 0..8 {
        assert_eq!(tail[n], expected[25 + n]);
    }
}

#[test]
fn test_flush_truncates_and_pads() {
    let ir = noise(24, 51);
    let mut input = vec![0i64; 10];
    input[3] = 1;
    let mut engine = FastConvolver::new(&ir, ConvolutionMode::TimeDomain);
    let mut output = vec![0i64; 10];
    engine.process(&input, &mut output).unwrap();
    let mut short_tail = vec![0i64; 10];
    engine.flush(&mut short_tail).unwrap();
    let mut other = FastConvolver::new(&ir, ConvolutionMode::TimeDomain);
    other.process(&input, &mut output).unwrap();
    let mut long_tail = vec![0i64; 80];
    other.flush(&mut long_tail).unwrap();
    for n in 0..10 {
        assert_eq!(short_tail[n], long_tail[n]);
    }
    for n in 50..80 {
        assert_eq!(long_tail[n], 0);
    }
    assert_eq!(engine.get_tail_size(), 50);
}
