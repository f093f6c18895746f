use orthotope::arena::{detect_system_page_size, page_aligned_inner_range, system_page_size};
use orthotope::memory::Memory;

#[test]
fn system_page_size_is_positive_power_of_two() {
    for reported in [4_096, 16_384, 65_536, 0, -1, 5_000] {
        let page_size = system_page_size(0, detect_system_page_size(reported));

        assert!(page_size > 0);
        assert!(page_size.is_power_of_two());
    }
}

#[test]
fn page_size_is_the_cached_or_else_the_reported_one() {
    assert_eq!(detect_system_page_size(16_384), Some(16_384));
    assert_eq!(detect_system_page_size(5_000), None);
    assert_eq!(detect_system_page_size(0), None);
    assert_eq!(detect_system_page_size(-1), None);
    assert_eq!(system_page_size(0, Some(16_384)), 16_384);
    assert_eq!(system_page_size(8_192, Some(16_384)), 8_192);
    assert_eq!(system_page_size(0, None), 4_096);
}

#[test]
fn inner_range_excludes_partial_pages() {
    let page_size = system_page_size(0, detect_system_page_size(4_096));
    let mapping = Memory::map(page_size * 4)
        .unwrap_or_else(|error| panic!("expected anonymous mapping: {error:?}"));
    let base = mapping.first_address();
    let start = base + page_size / 2;

    let inner = page_aligned_inner_range(start, page_size * 2, page_size)
        .unwrap_or_else(|| panic!("expected fully contained page range"));

    assert_eq!(inner.0, base + page_size);
    assert_eq!(inner.1, page_size);
}

#[test]
fn inner_range_is_none_when_span_has_no_full_page() {
    let page_size = system_page_size(0, detect_system_page_size(4_096));
    let mapping = Memory::map(page_size * 2)
        .unwrap_or_else(|error| panic!("expected anonymous mapping: {error:?}"));
    let start = mapping.first_address() + page_size / 2;

    assert_eq!(page_aligned_inner_range(start, page_size - 1, page_size), None);
}

#[test]
fn inner_range_is_none_for_empty_and_overflowing_runs() {
    assert_eq!(page_aligned_inner_range(4_096, 0, 4_096), None);
    assert_eq!(page_aligned_inner_range(usize::MAX - 10, 4_096 * 4, 4_096), None);
    assert_eq!(page_aligned_inner_range(4_096, 8_192, 4_096), Some((4_096, 8_192)));
}
