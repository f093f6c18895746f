use memmap2::MmapMut;
use orthotope::memory::Memory;

#[test]
fn memory_has_the_bytes_of_its_mapping() {
    let mut mapping = match MmapMut::map_anon(64) {
        Ok(mapping) => mapping,
        Err(error) => panic!("expected 64 bytes to be mapped: {error}"),
    };
    mapping[0] = 3;
    mapping[63] = 7;

    let memory = match Memory::of_mapping(Ok(mapping)) {
        Ok(memory) => memory,
        Err(error) => panic!("expected memory over the mapping: {error}"),
    };

    assert_eq!(memory.length(), 64);
    assert_eq!(memory.read_byte(memory.first_address()), 3);
    assert_eq!(memory.read_byte(memory.first_address() + 63), 7);
}

#[test]
fn a_failed_mapping_hands_its_error_on() {
    let cause = std::io::Error::from(std::io::ErrorKind::OutOfMemory);

    match Memory::of_mapping(Err(cause)) {
        Ok(_) => panic!("expected the error of the failed mapping"),
        Err(error) => assert_eq!(error.kind(), std::io::ErrorKind::OutOfMemory),
    }
}

#[test]
fn more_bytes_than_a_slice_can_have_are_not_mapped() {
    assert!(Memory::map(isize::MAX as usize + 1).is_err());
}
