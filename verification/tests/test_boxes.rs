use algorst::MyBox;

#[test]
fn test_boxes_i32_works() {
    let b: MyBox<i32> = MyBox::new(4i32);
    assert_eq!(4, b.get());
}

#[test]
fn test_boxes_str_works() {
    let b: MyBox<&str> = MyBox::new("foo");
    assert_eq!("foo", b.get());
}

#[test]
fn get_leaves_the_box_usable() {
    let b: MyBox<String> = MyBox::new(String::from("kept"));
    let first = b.get();
    let second = b.get();
    assert_eq!(first, "kept");
    assert_eq!(second, "kept");
}
