use algorst::MyBox;

#[test]
fn lib_i32_works() {
    let b: MyBox<i32> = MyBox::new(4i32);
    assert_eq!(4, b.get());
}

#[test]
fn lib_str_works() {
    let b: MyBox<&str> = MyBox::new("foo");
    assert_eq!("foo", b.get());
}
