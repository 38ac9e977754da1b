use exr::image::simple::{ReadOptions, WriteOptions};

#[test]
fn fast_options_are_parallel() {
    assert!(WriteOptions::fast().parallel_compression);
    assert!(ReadOptions::fast().parallel_decompression);
}
