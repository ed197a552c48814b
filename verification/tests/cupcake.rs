use minikv::cupcake::{Chocolate, Cookie, Cupcake, Food, Nuts, Sugar};

#[test]
fn natural_cupcake() {
    let food = Cupcake {};
    assert_eq!(food.name(), "cupcake");
    assert_eq!(food.price_usd_cents(), 100);
}

#[test]
fn natural_cookie() {
    let food = Cookie {};
    assert_eq!(food.name(), "cookie");
    assert_eq!(food.price_usd_cents(), 200);
}

#[test]
fn chocolate_cupcake() {
    let food = Chocolate { wrapped: &Cupcake {} };
    assert_eq!(food.name(), "cupcake with chocolate");
    assert_eq!(food.price_usd_cents(), 110);
}

#[test]
fn chocolate_sugar_nuts_cupcake() {
    let food = Nuts { wrapped: &Sugar { wrapped: &Chocolate { wrapped: &Cupcake {} } } };
    assert_eq!(food.name(), "cupcake with chocolate and sugar and nuts");
    assert_eq!(food.price_usd_cents(), 140);
}

#[test]
fn chocolate_cookie() {
    let food = Chocolate { wrapped: &Cookie {} };
    assert_eq!(food.name(), "cookie with chocolate");
    assert_eq!(food.price_usd_cents(), 210);
}
