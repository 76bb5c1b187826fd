use rx_observer::observer::ObserverContext;

struct Plain;

impl<'a> ObserverContext<'a> for Plain {}

#[test]
fn provided_methods_hand_values_back() {
    let o = Plain;
    assert_eq!(o.register(7, "f", "x", "i32"), 7);
    assert_eq!(o.propose(String::from("v"), "f", "s"), "v");
    assert_eq!(o.request(2.5f64, "f", "q"), 2.5);
}
