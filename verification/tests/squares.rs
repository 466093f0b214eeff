use kaik::common::Square;

#[test]
fn test_get_rank() {
    assert_eq!(Square::A1.get_rank(), 1);
    assert_eq!(Square::C3.get_rank(), 3);
    assert_eq!(Square::H8.get_rank(), 8);
}

#[test]
fn test_get_file() {
    assert_eq!(Square::A1.get_file(), 'a');
    assert_eq!(Square::B5.get_file(), 'b');
    assert_eq!(Square::C1.get_file(), 'c');
    assert_eq!(Square::D8.get_file(), 'd');
    assert_eq!(Square::E7.get_file(), 'e');
    assert_eq!(Square::F3.get_file(), 'f');
    assert_eq!(Square::G6.get_file(), 'g');
    assert_eq!(Square::H8.get_file(), 'h');
}
