use mines::{color_number, Tint};

#[test]
fn color_of_each_number() {
    assert_eq!(Tint::Blue, color_number(0));
    assert_eq!(Tint::BrightGreen, color_number(1));
    assert_eq!(Tint::Green, color_number(2));
    assert_eq!(Tint::Yellow, color_number(3));
    assert_eq!(Tint::BrightRed, color_number(4));
    assert_eq!(Tint::Red, color_number(5));
    assert_eq!(Tint::Magenta, color_number(6));
    assert_eq!(Tint::Magenta, color_number(7));
    assert_eq!(Tint::Magenta, color_number(8));
    assert_eq!(Tint::Magenta, color_number(255));
}
