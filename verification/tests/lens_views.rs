use coro_engine::lens::{assert_copy, LensView, A, AView};

#[test]
fn view_edit_and_push_back() {
    assert_copy::<i32>();
    let mut a = A { value: 42, value2: "Hello".to_string() };
    let mut a_view = AView::from_src(&a);
    a_view.value += 1;
    a_view.to_src(&mut a);

    assert_eq!(a.value, 43);
    assert_eq!(a.value2, "Hello");
}

#[test]
fn unchanged_view_restores_the_source() {
    let mut a = A { value: 7, value2: "w".to_string() };
    let v = AView::from_src(&a);
    v.to_src(&mut a);
    assert_eq!(a.value, 7);
    assert_eq!(a.value2, "w");
}
