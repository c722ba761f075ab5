use cowfile::Backend;

/// A mapping that holds these bytes.
fn mapping_of(bytes: &[u8]) -> memmap2::Mmap {
    let mut mapping = memmap2::MmapMut::map_anon(bytes.len()).unwrap();
    mapping.copy_from_slice(bytes);
    mapping.make_read_only().unwrap()
}

#[test]
fn test_backend_vec_basic() {
    let data = vec![1, 2, 3, 4, 5];
    let backend = Backend::Vec(data);
    assert_eq!(backend.len(), 5);
    assert_eq!(backend.as_slice(), &[1, 2, 3, 4, 5]);
}

#[test]
fn test_backend_vec_empty() {
    let backend = Backend::Vec(vec![]);
    assert_eq!(backend.len(), 0);
    assert_eq!(backend.as_slice(), &[] as &[u8]);
}

#[test]
fn test_backend_vec_slice_valid() {
    let backend = Backend::Vec(vec![10, 20, 30, 40, 50]);
    let slice = backend.slice(1, 3).unwrap();
    assert_eq!(slice, &[20, 30, 40]);
}

#[test]
fn test_backend_vec_slice_full() {
    let backend = Backend::Vec(vec![10, 20, 30]);
    let slice = backend.slice(0, 3).unwrap();
    assert_eq!(slice, &[10, 20, 30]);
}

#[test]
fn test_backend_vec_slice_out_of_bounds() {
    let backend = Backend::Vec(vec![10, 20, 30]);
    let result = backend.slice(2, 5);
    assert!(result.is_err());
}

#[test]
fn test_backend_vec_slice_zero_length() {
    let backend = Backend::Vec(vec![10, 20, 30]);
    let slice = backend.slice(1, 0).unwrap();
    assert_eq!(slice, &[] as &[u8]);
}

#[test]
fn test_backend_mmap() {
    let backend = Backend::Mmap(mapping_of(&[0xDE, 0xAD, 0xBE, 0xEF]));
    assert_eq!(backend.len(), 4);
    assert_eq!(backend.as_slice(), &[0xDE, 0xAD, 0xBE, 0xEF]);
}

#[test]
fn test_backend_mmap_slice() {
    let backend = Backend::Mmap(mapping_of(&[0x01, 0x02, 0x03, 0x04, 0x05]));
    let slice = backend.slice(1, 3).unwrap();
    assert_eq!(slice, &[0x02, 0x03, 0x04]);
}
