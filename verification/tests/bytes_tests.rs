use ppm_steg::bytes::{checked_sum, copy_range, image_passthrough, sum};
use ppm_steg::slices::split_at_mut;

#[test]
fn passes_images_through() {
    assert_eq!(image_passthrough(&[1, 2, 3]), vec![1, 2, 3]);
    assert_eq!(image_passthrough(&[]), Vec::<u8>::new());
    assert_eq!(copy_range(&[1, 2, 3, 4], 1, 3), vec![2, 3]);
}

#[test]
fn sums_bytes() {
    assert_eq!(sum(&[1, 2, 3]), 6);
    assert_eq!(sum(&[]), 0);
    assert_eq!(sum(&[100, 100, 55]), 255);
    assert_eq!(checked_sum(&[100, 100, 55]), Some(255));
    assert_eq!(checked_sum(&[200, 56]), None);
    assert_eq!(checked_sum(&[255, 1, 0]), None);
}

#[test]
fn splits_a_slice() {
    let mut v = vec![1, 2, 3, 4];
    {
        let (a, b) = split_at_mut(&mut v, 1);
        assert_eq!(a, &[1]);
        assert_eq!(b, &[2, 3, 4]);
        a[0] = 10;
        b[2] = 40;
    }
    assert_eq!(v, vec![10, 2, 3, 40]);
    let mut w = vec![5, 6];
    let (a, b) = split_at_mut(&mut w, 2);
    assert_eq!(a, &[5, 6]);
    assert!(b.is_empty());
}
