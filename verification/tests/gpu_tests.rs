use blake3::gpu::{plan_gpu_task, GpuHasher, GpuTaskWaitResult};
use blake3::join::RayonJoin;
use blake3::{Hasher, CHUNK_LEN, OUT_LEN};

type Join = RayonJoin;

fn selftest_seq(len: usize) -> Vec<u8> {
    let seed = len as u32;
    let mut out = Vec::with_capacity(len);

    let mut a = seed.wrapping_mul(0xDEAD4BAD);
    let mut b = 1;

    for _ in 0..len {
        let t = a.wrapping_add(b);
        a = b;
        b = t;
        out.push((t >> 24) as u8);
    }

    out
}

#[test]
fn simulate_shader_one_level_once() {
    let len = CHUNK_LEN * 128;
    let input = selftest_seq(len);

    let expected = Hasher::new().update(&input).finalize();

    let mut hasher = GpuHasher::new();
    let mut buffer = vec![0; OUT_LEN * 128];

    hasher.simulate_chunk_shader::<Join>(128, &input, &mut buffer, &hasher.gpu_control(0));
    GpuHasher::swap_endian::<Join>(&mut buffer);
    hasher.update_from_gpu::<Join>(128, &mut buffer);

    assert_eq!(hasher.finalize(), expected);
}

#[test]
fn simulate_shader_one_level_twice() {
    let len = CHUNK_LEN * 128;
    let input = selftest_seq(2 * len);

    let expected = Hasher::new().update(&input).finalize();

    let mut hasher = GpuHasher::new();
    let mut buffer = vec![0; OUT_LEN * 128];

    hasher.simulate_chunk_shader::<Join>(128, &input[..len], &mut buffer, &hasher.gpu_control(0));
    GpuHasher::swap_endian::<Join>(&mut buffer);
    hasher.update_from_gpu::<Join>(128, &mut buffer);

    hasher.simulate_chunk_shader::<Join>(128, &input[len..], &mut buffer, &hasher.gpu_control(128));
    GpuHasher::swap_endian::<Join>(&mut buffer);
    hasher.update_from_gpu::<Join>(128, &mut buffer);

    assert_eq!(hasher.finalize(), expected);
}

#[test]
fn simulate_shader_two_levels_once() {
    let len = 2 * CHUNK_LEN * 128;
    let input = selftest_seq(len);

    let expected = Hasher::new().update(&input).finalize();

    let mut hasher = GpuHasher::new();
    let mut buffer1 = vec![0; 2 * OUT_LEN * 128];
    let mut buffer2 = vec![0; OUT_LEN * 128];

    hasher.simulate_chunk_shader::<Join>(2 * 128, &input, &mut buffer1, &hasher.gpu_control(0));
    hasher.simulate_parent_shader::<Join>(128, &buffer1, &mut buffer2, &hasher.gpu_control(0));
    GpuHasher::swap_endian::<Join>(&mut buffer2);
    hasher.update_from_gpu::<Join>(2 * 128, &mut buffer2);

    assert_eq!(hasher.finalize(), expected);
}

#[test]
fn simulate_shader_two_levels_twice() {
    let len = 2 * CHUNK_LEN * 128;
    let input = selftest_seq(2 * len);

    let expected = Hasher::new().update(&input).finalize();

    let mut hasher = GpuHasher::new();
    let mut buffer1 = vec![0; 2 * OUT_LEN * 128];
    let mut buffer2 = vec![0; OUT_LEN * 128];

    hasher.simulate_chunk_shader::<Join>(2 * 128, &input[..len], &mut buffer1, &hasher.gpu_control(0));
    hasher.simulate_parent_shader::<Join>(128, &buffer1, &mut buffer2, &hasher.gpu_control(0));
    GpuHasher::swap_endian::<Join>(&mut buffer2);
    hasher.update_from_gpu::<Join>(2 * 128, &mut buffer2);

    hasher.simulate_chunk_shader::<Join>(2 * 128, &input[len..], &mut buffer1, &hasher.gpu_control(2 * 128));
    hasher.simulate_parent_shader::<Join>(128, &buffer1, &mut buffer2, &hasher.gpu_control(2 * 128));
    GpuHasher::swap_endian::<Join>(&mut buffer2);
    hasher.update_from_gpu::<Join>(2 * 128, &mut buffer2);

    assert_eq!(hasher.finalize(), expected);
}

#[test]
fn gpu_hasher_serial_join_matches_update() {
    let len = CHUNK_LEN * 16;
    let input = selftest_seq(len);
    let expected = Hasher::new().update(&input).finalize();

    let mut hasher = GpuHasher::new();
    let mut buffer = vec![0; OUT_LEN * 16];
    hasher.simulate_chunk_shader::<blake3::join::SerialJoin>(16, &input, &mut buffer, &hasher.gpu_control(0));
    hasher.update_from_gpu::<blake3::join::SerialJoin>(16, &mut buffer);
    assert_eq!(hasher.finalize(), expected);
}

#[test]
fn gpu_hasher_keyed_then_tail() {
    let key = [7u8; 32];
    let len = CHUNK_LEN * 8;
    let input = selftest_seq(len + 100);
    let expected = Hasher::new_keyed(&key).update(&input).finalize();

    let mut hasher = GpuHasher::new_keyed(&key);
    let mut buffer = vec![0; OUT_LEN * 4];
    let mut level1 = vec![0; OUT_LEN * 8];
    hasher.simulate_chunk_shader::<Join>(8, &input[..len], &mut level1, &hasher.gpu_control(0));
    hasher.simulate_parent_shader::<Join>(4, &level1, &mut buffer, &hasher.gpu_control(0));
    hasher.update_from_gpu::<Join>(8, &mut buffer);
    let mut inner: Hasher = hasher.into();
    inner.update(&input[len..]);
    assert_eq!(inner.finalize(), expected);
}

#[test]
fn plan_gpu_task_full_buffer_streams_and_submits() {
    let plan = plan_gpu_task(false, 4096, 1024, GpuTaskWaitResult::default());
    assert!(plan.stream_input);
    assert!(!plan.take_tail);
    assert!(plan.submit);
    assert!(plan.submit_has_input);
    assert!(!plan.import_output);
    assert!(plan.requeue);
}

#[test]
fn plan_gpu_task_short_rest_becomes_tail() {
    let wait = GpuTaskWaitResult { has_output: true, has_more: false };
    let plan = plan_gpu_task(false, 100, 1024, wait);
    assert!(!plan.stream_input);
    assert!(plan.take_tail);
    assert!(!plan.submit);
    assert!(plan.import_output);
    assert!(!plan.requeue);
}

#[test]
fn plan_gpu_task_drains_pending_levels() {
    let wait = GpuTaskWaitResult { has_output: false, has_more: true };
    let plan = plan_gpu_task(true, 0, 1024, wait);
    assert!(!plan.stream_input);
    assert!(!plan.take_tail);
    assert!(plan.submit);
    assert!(!plan.submit_has_input);
    assert!(plan.requeue);
}

/// Shader output in the host's byte order becomes little endian: unchanged
/// on a little-endian host, every word's bytes reversed on a big-endian one.
#[test]
fn test_swap_endian_to_little_endian() {
    let mut buffer = vec![0u8; 64];
    for (i, b) in buffer.iter_mut().enumerate() {
        *b = i as u8;
    }
    let original = buffer.clone();
    GpuHasher::swap_endian::<Join>(&mut buffer);
    if 1u32.to_ne_bytes()[0] == 1 {
        assert_eq!(buffer, original);
    } else {
        for w in 0..16 {
            assert_eq!(&buffer[4 * w..4 * w + 4], &[original[4 * w + 3], original[4 * w + 2], original[4 * w + 1], original[4 * w]]);
        }
    }
}
