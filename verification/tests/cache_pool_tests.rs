use face_validator::cache::SessionCache;
use face_validator::pool::BufferPool;
use face_validator::preprocess::{check_image_dimensions, extract_channel, prepare_input_buffer};
use face_validator::types::ProcessingError;

#[test]
fn cache_serves_installed_session_to_every_caller() {
    // Cold cache: the first caller misses, constructs and installs.
    let mut cache = SessionCache::new();
    let path = String::from("models/detector.onnx");
    assert_eq!(cache.get_session(&path, 1000), None);
    cache.install_session(&path, 7, 1000);
    // Every caller re-checking afterwards gets the same handle, so no
    // second construction ever happens.
    for t in [1000u64, 1500, 4599] {
        assert_eq!(cache.get_session(&path, t), Some(7));
    }
}

#[test]
fn cache_does_not_serve_expired_entry() {
    let mut cache = SessionCache::new();
    let path = String::from("models/detector.onnx");
    cache.install_session(&path, 7, 1000);
    assert_eq!(cache.get_session(&path, 4599), Some(7));
    // Exactly one timeout later the entry counts as absent and the next
    // get-or-create reconstructs.
    assert_eq!(cache.get_session(&path, 4600), None);
    cache.install_session(&path, 8, 4600);
    assert_eq!(cache.get_session(&path, 4600), Some(8));
}

#[test]
fn cache_keys_are_independent() {
    let mut cache = SessionCache::new();
    let a = String::from("models/a.onnx");
    let b = String::from("models/b.onnx");
    cache.install_session(&a, 1, 0);
    cache.install_session(&b, 2, 0);
    assert_eq!(cache.get_session(&a, 10), Some(1));
    assert_eq!(cache.get_session(&b, 10), Some(2));
}

#[test]
fn cache_cleanup_clears_everything() {
    let mut cache = SessionCache::new();
    let path = String::from("models/detector.onnx");
    cache.install_session(&path, 7, 0);
    cache.cleanup_session_cache();
    assert_eq!(cache.get_session(&path, 0), None);
}

#[test]
fn cache_sweep_removes_only_old_entries() {
    let mut cache = SessionCache::new();
    let old_path = String::from("models/old.onnx");
    let new_path = String::from("models/new.onnx");
    cache.install_session(&old_path, 1, 0);
    cache.install_session(&new_path, 2, 12000);
    cache.cleanup_expired_sessions(14400);
    // The swept entry is gone even for a lookup that would have been
    // within its own timeout window only if it still existed.
    assert_eq!(cache.get_session(&old_path, 14400), None);
    assert_eq!(cache.get_session(&new_path, 14400), Some(2));
}

#[test]
fn pool_hands_out_empty_buffers_and_keeps_contents() {
    let mut pool = BufferPool::new();
    let fresh = pool.acquire(16);
    assert!(fresh.is_empty());
    pool.release(3, vec![1, 2, 3]);
    // The reused buffer arrives cleared, whatever was stored.
    let reused = pool.acquire(3);
    assert!(reused.is_empty());
}

#[test]
fn zero_sized_images_are_rejected() {
    assert!(matches!(
        check_image_dimensions(0, 480),
        Err(ProcessingError::ImageLoadError(_))
    ));
    assert!(matches!(
        check_image_dimensions(640, 0),
        Err(ProcessingError::ImageLoadError(_))
    ));
    assert!(check_image_dimensions(640, 480).is_ok());
}

#[test]
fn extract_channel_picks_every_third_byte() {
    let pixels = vec![10u8, 20, 30, 11, 21, 31, 12, 22, 32];
    assert_eq!(extract_channel(&pixels, 0), vec![10, 11, 12]);
    assert_eq!(extract_channel(&pixels, 1), vec![20, 21, 22]);
    assert_eq!(extract_channel(&pixels, 2), vec![30, 31, 32]);
}

#[test]
fn prepare_input_buffer_is_channel_major() {
    let pixels = vec![10u8, 20, 30, 11, 21, 31];
    let mut pool = BufferPool::new();
    let planar = prepare_input_buffer(&pixels, &mut pool).unwrap();
    assert_eq!(planar, vec![10, 11, 20, 21, 30, 31]);
}

#[test]
fn solid_color_pixel_normalizes_to_its_components() {
    // A 1x1 solid-color image: after planarization each channel holds
    // exactly one value, and normalizing divides by 255.
    let pixels = vec![200u8, 100, 50];
    let mut pool = BufferPool::new();
    let planar = prepare_input_buffer(&pixels, &mut pool).unwrap();
    assert_eq!(planar, vec![200, 100, 50]);
    let tensor: Vec<f32> = planar.iter().map(|&v| v as f32 / 255.0).collect();
    assert!((tensor[0] - 200.0 / 255.0).abs() < 1e-6);
    assert!((tensor[1] - 100.0 / 255.0).abs() < 1e-6);
    assert!((tensor[2] - 50.0 / 255.0).abs() < 1e-6);
}
