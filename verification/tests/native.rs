use lox::native::{Clock, NativeFunction};

#[test]
fn clock_is_the_only_native_function() {
    assert_eq!(NativeFunction::ALL, [NativeFunction::Clock]);
    assert_eq!(NativeFunction::Clock.name(), "clock");
    assert_eq!(NativeFunction::Clock.arity(), 0);
    assert_eq!(Clock::NAME, "clock");
    assert_eq!(Clock::ARITY, 0);
}
