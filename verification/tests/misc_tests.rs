use blake3::gpu::{GpuControl, GpuStep, GpuTaskWaitResult, WORKGROUP_SIZE};
use blake3::join::{Join, RayonJoin, SerialJoin};
use blake3::kernel2::portable_transpose;
use blake3::platform::Platform;
use blake3::test_vectors::paint_test_input;
use blake3::{BLOCK_LEN, CHUNK_LEN, IV, OUT_LEN};

#[test]
fn test_serial_join() {
    let oper_a = || 1 + 1;
    let oper_b = || 2 + 2;
    assert_eq!((2, 4), SerialJoin::join(oper_a, oper_b, 3, 4));
}

#[test]
fn test_rayon_join() {
    let oper_a = || 1 + 1;
    let oper_b = || 2 + 2;
    assert_eq!((2, 4), RayonJoin::join(oper_a, oper_b, 3, 4));
}

#[test]
fn test_portable_transpose() {
    let mut empty: [[u32; 0]; 0] = [];
    portable_transpose(&mut empty);

    let mut one = [[42u32]];
    portable_transpose(&mut one);
    assert_eq!(one[0][0], 42);

    let mut two = [[0u32, 1], [2, 3]];
    portable_transpose(&mut two);
    assert_eq!(two, [[0, 2], [1, 3]]);

    let mut three = [[0u32, 1, 2], [3, 4, 5], [6, 7, 8]];
    portable_transpose(&mut three);
    assert_eq!(three, [[0, 3, 6], [1, 4, 7], [2, 5, 8]]);

    let mut painted_bytes = [0; 100];
    paint_test_input(&mut painted_bytes);
    let mut painted_rows = [[0u8; 10]; 10];
    for row in 0..10 {
        for col in 0..10 {
            painted_rows[row][col] = painted_bytes[10 * row + col];
        }
    }
    let mut transposed_rows = painted_rows;
    portable_transpose(&mut transposed_rows);
    for row in 0..10 {
        for col in 0..10 {
            assert_eq!(painted_rows[row][col], transposed_rows[col][row]);
        }
    }
}

#[test]
fn test_paint_test_input() {
    let mut buf = [0u8; 600];
    paint_test_input(&mut buf);
    for (i, b) in buf.iter().enumerate() {
        assert_eq!(*b as usize, i % 251);
    }
    assert_eq!(buf[251], 0);
    assert_eq!(buf[250], 250);
}

#[test]
fn test_platform_detect_order() {
    assert!(Platform::detect(true, true, true, true) == Platform::AVX512);
    assert!(Platform::detect(false, true, true, true) == Platform::AVX2);
    assert!(Platform::detect(false, false, true, true) == Platform::SSE41);
    assert!(Platform::detect(false, false, false, true) == Platform::SSE2);
    assert!(Platform::detect(false, false, false, false) == Platform::Portable);
    assert!(Platform::sse2(false).is_none());
    assert_eq!(Platform::avx2(true).unwrap().simd_degree(), 8);
    assert_eq!(Platform::portable().simd_degree(), 1);
}

#[test]
fn test_gpu_step_sizes() {
    let chunk = GpuStep::Blake3Chunk(3);
    let parent = GpuStep::Blake3Parent(5);
    assert_eq!(chunk.group_count(), 3);
    assert_eq!(parent.group_count(), 5);
    assert_eq!(chunk.workgroup_size() as usize, WORKGROUP_SIZE);
    assert_eq!(chunk.invocation_count(), 3 * 128);
    assert_eq!(chunk.invocation_input_size(), CHUNK_LEN);
    assert_eq!(parent.invocation_input_size(), BLOCK_LEN);
    assert_eq!(parent.invocation_output_size(), OUT_LEN);
    assert_eq!(chunk.input_buffer_size(), 3 * 128 * CHUNK_LEN);
    assert_eq!(parent.input_buffer_size(), 5 * 128 * BLOCK_LEN);
    assert_eq!(parent.output_buffer_size(), 5 * 128 * OUT_LEN);
}

#[test]
fn test_gpu_control() {
    let counter = (7u64 << 32) + 9;
    let control = GpuControl::new(&IV, counter, 0x41);
    assert_eq!(control.key(), &IV);
    assert_eq!(control.chunk_counter(), counter);
    assert_eq!(control.flags(), 0x41);
    let later = control.plus_chunks(u32::MAX as u64);
    assert_eq!(later.chunk_counter(), counter + u32::MAX as u64);
    let bytes = control.as_bytes();
    assert_eq!(&bytes[..4], &IV[0].to_le_bytes());
    assert_eq!(&bytes[32..36], &9u32.to_le_bytes());
    assert_eq!(&bytes[36..40], &7u32.to_le_bytes());
    assert_eq!(&bytes[40..44], &0x41u32.to_le_bytes());
}

#[test]
fn test_gpu_task_wait_result_default() {
    let r = GpuTaskWaitResult::default();
    assert_eq!(r, GpuTaskWaitResult { has_output: false, has_more: false });
}
