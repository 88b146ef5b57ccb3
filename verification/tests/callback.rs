use std::rc::Rc;

use zi::Callback;

#[test]
fn a_callback_calls_its_closure() {
    let callback: Callback<usize, usize> = Callback(Rc::new(Box::new(|value: usize| value + 1)));
    assert_eq!(callback.emit(2), 3);
    let copy = callback.clone();
    assert_eq!(copy.emit(5), 6);
}
