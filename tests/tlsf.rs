use caliban::tlsf::{ChunkInfo, Tlsf};

#[test]
fn empty_index_has_nothing() {
    let mut tlsf = Tlsf::new();
    assert_eq!(tlsf.get_free_chunk(16), None);
    assert_eq!(tlsf.get_free_chunk(100000), None);
}

#[test]
fn good_fit_returns_larger_chunk() {
    let mut tlsf = Tlsf::new();
    tlsf.insert_chunk(200, 64, 0);
    let c = tlsf.get_free_chunk(100).unwrap();
    assert_eq!(c, ChunkInfo { size: 200, offset: 64, block: 0 });
    assert_eq!(tlsf.get_free_chunk(100), None);
}

#[test]
fn good_fit_skips_the_requests_own_bin() {
    // 100 lies in [96, 104); the search starts at the next bin, 104.
    let mut tlsf = Tlsf::new();
    tlsf.insert_chunk(100, 0, 0);
    tlsf.insert_chunk(103, 0, 1);
    assert_eq!(tlsf.get_free_chunk(100), None);
    tlsf.insert_chunk(104, 0, 2);
    assert_eq!(tlsf.get_free_chunk(100), Some(ChunkInfo { size: 104, offset: 0, block: 2 }));
}

#[test]
fn good_fit_takes_lowest_non_empty_bin() {
    let mut tlsf = Tlsf::new();
    tlsf.insert_chunk(5000, 1, 0);
    tlsf.insert_chunk(300, 2, 0);
    tlsf.insert_chunk(1000, 3, 0);
    assert_eq!(tlsf.get_free_chunk(100).unwrap().size, 300);
    assert_eq!(tlsf.get_free_chunk(100).unwrap().size, 1000);
    assert_eq!(tlsf.get_free_chunk(100).unwrap().size, 5000);
    assert_eq!(tlsf.get_free_chunk(100), None);
}

#[test]
fn last_bin_of_bucket_moves_to_next_bucket() {
    // 127 lies in the last bin of bucket [64, 128); 128 starts the next.
    let mut tlsf = Tlsf::new();
    tlsf.insert_chunk(127, 0, 0);
    tlsf.insert_chunk(128, 8, 0);
    assert_eq!(tlsf.get_free_chunk(120), Some(ChunkInfo { size: 128, offset: 8, block: 0 }));
}

#[test]
fn same_bin_pops_last_inserted() {
    let mut tlsf = Tlsf::new();
    tlsf.insert_chunk(4096, 0, 0);
    tlsf.insert_chunk(4100, 10, 1);
    assert_eq!(tlsf.get_free_chunk(1000).unwrap().block, 1);
    assert_eq!(tlsf.get_free_chunk(1000).unwrap().block, 0);
}

#[test]
fn returned_chunk_is_never_smaller_than_request() {
    let mut tlsf = Tlsf::new();
    let sizes = [16u64, 17, 31, 100, 1000, 4095, 65536, 1 << 20, (1 << 27) - 1];
    for (i, s) in sizes.iter().enumerate() {
        tlsf.insert_chunk(*s, i as u64, i);
    }
    for s in [16u64, 20, 64, 500, 70000, 1 << 22] {
        if let Some(c) = tlsf.get_free_chunk(s) {
            assert!(c.size >= s);
        }
    }
}

#[test]
fn largest_indexable_size() {
    let mut tlsf = Tlsf::new();
    tlsf.insert_chunk((1 << 27) - 1, 0, 0);
    assert_eq!(tlsf.get_free_chunk((1 << 26) + 1).unwrap().size, (1 << 27) - 1);
}
