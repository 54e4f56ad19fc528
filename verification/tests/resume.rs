use nxdl::resume::{
    create_progress, mark_done, progress_path, read_progress, sidecar_ngm, sidecar_nxl,
    SidecarError,
};

#[test]
fn sidecars_lie_beside_their_files() {
    assert_eq!(progress_path("dir/file.wz", &sidecar_nxl()), format!("dir/file.wz{}", sidecar_nxl().ext));
    assert_eq!(sidecar_nxl().ext, ".nxldl");
    assert_ne!(sidecar_nxl().ext, sidecar_ngm().ext);
}

#[test]
fn a_fresh_sidecar_has_nothing_done() {
    for n in [0u32, 1, 7, 8, 9, 100] {
        let data = create_progress(n, 123_456_789_012, &sidecar_nxl());
        assert_eq!(data.len(), 20 + (n as usize + 7) / 8);
        assert_eq!(&data[0..5], &sidecar_nxl().magic[..]);
        assert_eq!(&data[8..12], &n.to_le_bytes()[..]);
        assert_eq!(&data[12..20], &123_456_789_012u64.to_le_bytes()[..]);
        assert_eq!(
            read_progress(&data, &sidecar_nxl()),
            Some((vec![0; n as usize], n, 123_456_789_012))
        );
        assert_eq!(read_progress(&data, &sidecar_ngm()), None);
    }
}

#[test]
fn marks_set_one_bit_each_and_commute() {
    let mut a = create_progress(12, 50, &sidecar_ngm());
    let mut b = a.clone();
    for i in [3u32, 11, 0] {
        mark_done(&mut a, i).unwrap();
    }
    for i in [0u32, 3, 11, 3] {
        mark_done(&mut b, i).unwrap();
    }
    assert_eq!(a, b);
    let (bits, n, size) = read_progress(&a, &sidecar_ngm()).unwrap();
    assert_eq!((n, size), (12, 50));
    assert_eq!(bits, vec![1, 0, 0, 1, 0, 0, 0, 0, 0, 0, 0, 1]);
    assert_eq!(a[20], 0b1001);
    assert_eq!(a[21], 0b1000);
}

#[test]
fn marks_out_of_range_are_refused() {
    let mut data = create_progress(3, 50, &sidecar_nxl());
    let before = data.clone();
    let err: SidecarError = mark_done(&mut data, 3).unwrap_err();
    assert_eq!(err.message(), "object index 3 out of range (3 objects)");
    assert_eq!(data, before);
}

#[test]
fn what_is_no_sidecar_is_not_read() {
    let good = create_progress(9, 50, &sidecar_nxl());
    assert!(read_progress(&good, &sidecar_nxl()).is_some());
    assert_eq!(read_progress(&good[..21], &sidecar_nxl()), None);
    assert_eq!(read_progress(&good[..19], &sidecar_nxl()), None);
    assert_eq!(read_progress(&[], &sidecar_nxl()), None);
    let mut other = good.clone();
    other[4] ^= 1;
    assert_eq!(read_progress(&other, &sidecar_nxl()), None);
    let mut version = good.clone();
    version[5] = 2;
    assert_eq!(read_progress(&version, &sidecar_nxl()), None);
    // Reserved bytes and bytes behind the bits do not count.
    let mut longer = good.clone();
    longer[6] = 9;
    longer.push(0xFF);
    assert_eq!(read_progress(&longer, &sidecar_nxl()), read_progress(&good, &sidecar_nxl()));
}
