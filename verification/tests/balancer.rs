use minikv::balancer::App;

#[test]
fn no_healthy_upstream_yields_none() {
    let mut app = App::new(vec![String::from("a:1"), String::from("b:2")]);
    assert_eq!(app.upstream(), None);
}

#[test]
fn picks_the_first_healthy_upstream_from_the_cursor() {
    let mut app = App::new(vec![String::from("a:1"), String::from("b:2"), String::from("c:3")]);
    app.mark(1, true);
    app.mark(2, true);
    assert_eq!(app.upstream(), Some(String::from("b:2")));
    // The cursor stays on the pick; the same upstream serves again.
    assert_eq!(app.upstream(), Some(String::from("b:2")));
    app.mark(1, false);
    assert_eq!(app.upstream(), Some(String::from("c:3")));
}
