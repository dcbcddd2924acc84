use rust_maze_solver::animation::{AnimationState, OrchestratorBuilder, PlaybackState};
use rust_maze_solver::materials::TextureFileNames;
use rust_maze_solver::resources::{ResourceKind, ResourceTracker};
use rust_maze_solver::stats::{FrameStats, MemoryTracker};
use rust_maze_solver::texture::{padded_bytes_per_row, unpad_rows};

#[test]
fn test_orchestrator_builder() {
    let builder = OrchestratorBuilder::new()
        .intro_duration(3000)
        .validation_delay(150);

    assert_eq!(builder.intro_duration_ms, 3000);
    assert_eq!(builder.validation_delay_ms, 150);
}

#[test]
fn orchestrator_builder_defaults() {
    let b = OrchestratorBuilder::default();
    assert_eq!(b.intro_duration_ms, 5000);
    assert_eq!(b.transition_duration_ms, 2000);
    assert_eq!(b.validation_delay_ms, 200);
    let b = b.transition_duration(750);
    assert_eq!(b.transition_duration_ms, 750);
    assert_eq!(b.intro_duration_ms, 5000);
}

#[test]
fn animation_states_compare() {
    assert_eq!(AnimationState::Intro, AnimationState::Intro);
    assert_ne!(AnimationState::Solving, AnimationState::Solved);
    assert_ne!(PlaybackState::Playing, PlaybackState::Paused);
}

#[test]
fn test_padded_bytes_per_row() {
    assert_eq!(padded_bytes_per_row(256, 4), 1024);
    assert_eq!(padded_bytes_per_row(257, 4), 1280);
    assert_eq!(padded_bytes_per_row(64, 4), 256);
}

#[test]
fn padded_bytes_per_row_small() {
    assert_eq!(padded_bytes_per_row(0, 4), 0);
    assert_eq!(padded_bytes_per_row(1, 1), 256);
    assert_eq!(padded_bytes_per_row(3, 3), 256);
}

#[test]
fn test_unpad_rows() {
    let width = 65;
    let height = 2;
    let bpp = 4;
    let padded_bpr = padded_bytes_per_row(width, bpp);

    let mut padded = vec![0u8; (padded_bpr * height) as usize];
    for y in 0..height {
        for x in 0..width {
            let idx = (y * padded_bpr + x * bpp) as usize;
            padded[idx] = (x % 256) as u8;
        }
    }

    let unpadded = unpad_rows(&padded, width, height, bpp);
    assert_eq!(unpadded.len(), (width * height * bpp) as usize);

    for y in 0..height {
        for x in 0..width {
            let idx = (y * width * bpp + x * bpp) as usize;
            assert_eq!(unpadded[idx], (x % 256) as u8);
        }
    }
}

#[test]
fn unpad_rows_without_padding_is_whole() {
    let data: Vec<u8> = (0..=255u8).collect();
    let out = unpad_rows(&data, 64, 1, 4);
    assert_eq!(out, data);
}

#[test]
fn unpad_rows_drops_padding_bytes() {
    let mut data = vec![9u8; 512];
    data[0] = 1;
    data[1] = 2;
    data[256] = 3;
    data[257] = 4;
    let out = unpad_rows(&data, 1, 2, 2);
    assert_eq!(out, vec![1, 2, 3, 4]);
}

#[test]
fn resource_tracker_counts() {
    let mut t = ResourceTracker::new();
    assert_eq!(t.active_resources(), (0, 0, 0));
    let b = t.track_buffer();
    let _b2 = t.track_buffer();
    let tx = t.track_texture();
    let p = t.track_pipeline();
    assert_eq!(b.kind(), ResourceKind::Buffer);
    assert_eq!(t.active_resources(), (2, 1, 1));
    t.release(b);
    t.release(tx);
    assert_eq!(t.active_resources(), (1, 0, 1));
    t.release(p);
    assert_eq!(t.active_resources(), (1, 0, 0));
}

#[test]
fn frame_stats_keeps_window() {
    let mut s = FrameStats::new(3);
    for i in 0..5u64 {
        s.record_frame(16_000 + i, 10_000);
    }
    assert_eq!(s.frame_times_us(), vec![16_002, 16_003, 16_004]);
    assert_eq!(s.render_times_us(), vec![10_000, 10_000, 10_000]);
}

#[test]
fn memory_tracker_totals() {
    let mut m = MemoryTracker::new();
    m.allocate("a".to_string(), 100);
    m.allocate("b".to_string(), 50);
    assert_eq!(m.total_allocated(), 150);
    m.deallocate("a");
    assert_eq!(m.total_allocated(), 50);
    assert_eq!(m.peak_allocated(), 150);
    m.deallocate("missing");
    assert_eq!(m.total_allocated(), 50);
}

#[test]
fn texture_names_from_material() {
    let t = TextureFileNames::from_material_name("brick");
    assert_eq!(t.albedo, "brick_albedo.png");
    assert_eq!(t.normal, "brick_normal-ogl.png");
    assert_eq!(t.metallic, "brick_metallic.png");
    assert_eq!(t.roughness, "brick_roughness.png");
    assert_eq!(t.ao, "brick_ao.png");
    assert_eq!(t.height, "brick_height.png");
    let c = TextureFileNames::custom("a", "b", "c", "d", "e", "f");
    assert_eq!(c.albedo, "a");
    assert_eq!(c.height, "f");
}

#[test]
fn streaming_settings() {
    let a = rust_maze_solver::settings::Args::default_for_streaming(640, 480);
    assert_eq!(a.output, "streaming.png");
    assert_eq!((a.width, a.height, a.samples), (640, 480, 64));
    assert!(a.maze.is_none() && a.vulkan && a.animated && !a.server && !a.gradient_test && !a.test_materials);
}
