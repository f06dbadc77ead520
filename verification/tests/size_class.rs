use ferrum_alloc::size_class::{
    class_to_size, size_to_class, slots_per_page, NUM_SIZE_CLASSES, SIZE_CLASSES, SLAB_MAX_SIZE,
};

#[test]
fn test_size_classes_are_sorted() {
    for i in 1..SIZE_CLASSES.len() {
        assert!(
            SIZE_CLASSES[i] > SIZE_CLASSES[i - 1],
            "Size classes must be strictly increasing: [{}]={} <= [{}]={}",
            i,
            SIZE_CLASSES[i],
            i - 1,
            SIZE_CLASSES[i - 1]
        );
    }
}

#[test]
fn test_size_to_class_exact_matches() {
    for (i, &size) in SIZE_CLASSES.iter().enumerate() {
        let class = size_to_class(size).expect("Should fit in slab");
        assert_eq!(class as usize, i, "Size {} should map to class {}", size, i);
    }
}

#[test]
fn test_size_to_class_round_up() {
    assert_eq!(size_to_class(1), Some(0));
    assert_eq!(size_to_class(9), Some(1));
    assert_eq!(size_to_class(17), Some(2));
    assert_eq!(size_to_class(65), Some(6));
}

#[test]
fn test_size_to_class_zero() {
    assert_eq!(size_to_class(0), Some(0));
}

#[test]
fn test_size_to_class_too_large() {
    assert_eq!(size_to_class(1025), None);
    assert_eq!(size_to_class(2048), None);
    assert_eq!(size_to_class(usize::MAX), None);
}

#[test]
fn test_class_to_size_roundtrip() {
    for i in 0..NUM_SIZE_CLASSES {
        let size = class_to_size(i as u8);
        let class = size_to_class(size).unwrap();
        assert_eq!(class as usize, i);
    }
}

#[test]
fn test_no_wasted_class() {
    for size in 1..=SLAB_MAX_SIZE {
        let class = size_to_class(size);
        assert!(class.is_some(), "Size {} has no class", size);
        let slot_size = class_to_size(class.unwrap());
        assert!(
            slot_size >= size,
            "Class for size {} has slot_size {} which is smaller",
            size,
            slot_size
        );
    }
}

#[test]
fn test_internal_fragmentation_bounded() {
    for size in 9..=SLAB_MAX_SIZE {
        let class = size_to_class(size).unwrap();
        let slot_size = class_to_size(class);
        let waste = slot_size - size;
        let waste_pct = (waste as f64 / slot_size as f64) * 100.0;
        assert!(
            waste_pct < 50.0,
            "Size {} maps to slot {} with {:.1}% waste",
            size,
            slot_size,
            waste_pct
        );
    }
}

#[test]
fn test_slots_per_page() {
    let page = 4096usize;
    assert_eq!(slots_per_page(0, page), 512);
    let last_class = (NUM_SIZE_CLASSES - 1) as u8;
    assert_eq!(slots_per_page(last_class, page), 4);
}

#[test]
fn test_max_size_class_is_slab_max() {
    assert_eq!(SIZE_CLASSES[NUM_SIZE_CLASSES - 1], SLAB_MAX_SIZE);
}

#[test]
fn smallest_class_for_every_size() {
    for size in 0..=SLAB_MAX_SIZE {
        let class = size_to_class(size).unwrap() as usize;
        let first = SIZE_CLASSES.iter().position(|&slot| slot >= size).unwrap();
        assert_eq!(class, first, "size {}", size);
    }
}
