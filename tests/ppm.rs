use ballmaker::ppm::Ppm;

#[test]
fn test_to_string() {
    let ppm = Ppm::new(1, 1, vec![0, 127, 255]);
    assert_eq!(ppm.to_string(), "P3\n1 1\n255\n0 127 255\n");
}

#[test]
fn ppm_write_two_by_one() {
    let text = Ppm::write(2, 1, vec![1, 20, 255, 9, 10, 100]);
    assert_eq!(text, "P3\n2 1\n255\n1 20 255\n9 10 100\n");
}

#[test]
fn ppm_empty_image() {
    assert_eq!(Ppm::write(0, 12, vec![]), "P3\n0 12\n255\n");
}

#[test]
fn ppm_large_dimensions() {
    let text = Ppm::new(1, 1024, vec![7; 3 * 1024]).to_string();
    assert!(text.starts_with("P3\n1 1024\n255\n7 7 7\n"));
    assert_eq!(text.lines().count(), 3 + 1024);
}
