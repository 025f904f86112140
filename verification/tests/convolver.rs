use fast_convolver::{ConvolutionMode, FastConvolver};

fn pseudo_random(seed: u64, count: usize, bound: i64) -> Vec<i64> {
    let mut state = seed.wrapping_mul(2862933555777941757).wrapping_add(3037000493);
    let mut values = Vec::new();
    for _ in 0..count {
        state = state
            .wrapping_mul(6364136223846793005)
            .wrapping_add(1442695040888963407);
        values.push(((state >> 33) as i64) % bound);
    }
    values
}

#[test]
fn test_identity() {
    let random_ir = pseudo_random(1, 51, 1000000);
    let input: Vec<i64> = vec![0, 0, 0, 1, 0, 0, 0, 0, 0, 0];
    let mut convolver = FastConvolver::new(&random_ir, ConvolutionMode::TimeDomain);
    let mut output: Vec<i64> = vec![0; 10];
    convolver.process(&input, &mut output).unwrap();
    let mut target_output: Vec<i64> = vec![0; 10];
    for data_index in 0..7 {
        target_output[data_index + 3] = random_ir[data_index];
    }
    for data_index in 0..10 {
        assert_eq!(output[data_index], target_output[data_index]);
    }
}

#[test]
fn test_flush() {
    let random_ir = pseudo_random(2, 51, 1000000);
    let input: Vec<i64> = vec![0, 0, 0, 1, 0, 0, 0, 0, 0, 0];
    let mut convolver = FastConvolver::new(&random_ir, ConvolutionMode::TimeDomain);
    let mut output: Vec<i64> = vec![0; 10];
    let mut tail: Vec<i64> = vec![0; convolver.get_tail_size()];
    convolver.process(&input, &mut output).unwrap();
    convolver.flush(&mut tail).unwrap();
    let mut target_output: Vec<i64> = vec![0; tail.len()];
    for data_index in 7..51 {
        target_output[data_index - 7] = random_ir[data_index];
    }
    for data_index in 0..50 {
        assert_eq!(tail[data_index], target_output[data_index]);
    }
}

#[test]
fn test_block() {
    let random_ir = pseudo_random(3, 51, 1000000);
    let mut input: Vec<i64> = vec![0; 10000];
    input[3] = 1;
    let mut convolver = FastConvolver::new(&random_ir, ConvolutionMode::TimeDomain);
    let mut output: Vec<i64> = Vec::new();
    let boundaries = [0, 1, 14, 1037, 3085, 3086, 3103, 8103, 10000];
    for pair in boundaries.windows(2) {
        let chunk: Vec<i64> = input[pair[0]..pair[1]].to_vec();
        let mut chunk_out: Vec<i64> = vec![0; chunk.len()];
        convolver.process(&chunk, &mut chunk_out).unwrap();
        output.extend_from_slice(&chunk_out);
    }
    let mut target_output: Vec<i64> = vec![0; 10000];
    for data_index in 0..51 {
        target_output[data_index + 3] = random_ir[data_index];
    }
    for data_index in 0..10000 {
        assert_eq!(output[data_index], target_output[data_index]);
    }
}

#[test]
fn test_fast_conv() {
    let random_ir = pseudo_random(4, 51, 1000000);
    let mut input: Vec<i64> = vec![0; 100];
    for ramp_index in 0..12 {
        input[ramp_index] = ramp_index as i64 * 100000;
    }
    let mut convolver = FastConvolver::new(
        &random_ir,
        ConvolutionMode::FrequencyDomain { block_size: 5 },
    );
    let result = convolver.process_freq(&input).unwrap();
    assert_eq!(result.len(), 100);
}

#[test]
fn test_fast_conv_to_normal_conv() {
    let random_ir = pseudo_random(5, 51, 1000000);
    let input = pseudo_random(6, 10000, 1000000);
    let mut convolver = FastConvolver::new(&random_ir, ConvolutionMode::TimeDomain);
    let mut output: Vec<i64> = vec![0; 10000];
    convolver.process(&input, &mut output).unwrap();
    let mut fast_convolver = FastConvolver::new(
        &random_ir,
        ConvolutionMode::FrequencyDomain { block_size: 5 },
    );
    let result = fast_convolver.process_freq(&input).unwrap();
    for cur_index in 0..result.len() {
        assert_eq!(result[cur_index], output[cur_index]);
    }
}

#[test]
fn test_fast_conv_identity() {
    let random_ir = pseudo_random(7, 51, 1000000);
    let input: Vec<i64> = vec![0, 0, 0, 1, 0, 0, 0, 0, 0, 0];
    let mut convolver = FastConvolver::new(
        &random_ir,
        ConvolutionMode::FrequencyDomain { block_size: 5 },
    );
    let output = convolver.process_freq(&input).unwrap();
    let mut target_output: Vec<i64> = vec![0; 10];
    for data_index in 0..7 {
        target_output[data_index + 3] = random_ir[data_index];
    }
    for data_index in 0..10 {
        assert_eq!(output[data_index], target_output[data_index]);
    }
}

#[test]
fn test_flush_freq() {
    let random_ir = pseudo_random(8, 51, 1000000);
    let input = pseudo_random(9, 9994, 1000000);
    let mut convolver = FastConvolver::new(&random_ir, ConvolutionMode::TimeDomain);
    let mut output: Vec<i64> = vec![0; 9994];
    let mut tail_time_domain: Vec<i64> = vec![0; 50];
    convolver.process(&input, &mut output).unwrap();
    convolver.flush(&mut tail_time_domain).unwrap();
    let mut fast_convolver = FastConvolver::new(
        &random_ir,
        ConvolutionMode::FrequencyDomain { block_size: 5 },
    );
    let mut result = fast_convolver.process_freq(&input).unwrap();
    let (remain_result, flush_result) = fast_convolver.flush_freq().unwrap();
    for cur_remain in &remain_result {
        result.push(*cur_remain);
    }
    assert_eq!(result.len(), 9994);
    for cur_index in 0..result.len() {
        assert_eq!(result[cur_index], output[cur_index]);
    }
    assert_eq!(flush_result.len(), tail_time_domain.len());
    for cur_index in 0..tail_time_domain.len() {
        assert_eq!(flush_result[cur_index], tail_time_domain[cur_index]);
    }
}

#[test]
fn test_block_freq() {
    let random_ir = pseudo_random(10, 51, 1000000);
    let mut input: Vec<i64> = vec![0; 10000];
    input[3] = 1;
    let mut convolver = FastConvolver::new(
        &random_ir,
        ConvolutionMode::FrequencyDomain { block_size: 5 },
    );
    let mut output: Vec<i64> = Vec::new();
    let boundaries = [0, 1, 14, 1037, 3085, 3086, 3103, 8103, 10000];
    for pair in boundaries.windows(2) {
        let chunk: Vec<i64> = input[pair[0]..pair[1]].to_vec();
        let mut emitted = convolver.process_freq(&chunk).unwrap();
        output.append(&mut emitted);
    }
    let mut target_output: Vec<i64> = vec![0; 10000];
    for data_index in 0..51 {
        target_output[data_index + 3] = random_ir[data_index];
    }
    assert_eq!(output.len(), 10000);
    for data_index in 0..10000 {
        assert_eq!(output[data_index], target_output[data_index]);
    }
}
