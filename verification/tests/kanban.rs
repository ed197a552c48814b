use minikv::kanban::{Card, Container, MoveSpec};

fn mk_column(title: &str, titles: Vec<&str>) -> Container<String> {
    Container {
        title: String::from(title),
        items: Vec::from_iter(titles.iter().map(|t| String::from(*t))),
    }
}

#[test]
fn card_rename() {
    let old = Card { title: String::from("old") };
    assert_eq!(old.rename(String::from("new")), Card { title: String::from("new") });
}

#[test]
fn containers_rename() {
    let mut old = mk_column("t", vec!["0", "1"]);
    old.rename(String::from("!"));
    assert_eq!(old, mk_column("!", vec!["0", "1"]));
}

#[test]
fn add() {
    let mut old = mk_column("t", vec!["0"]);
    old.add_item(String::from("1"));
    assert_eq!(old, mk_column("t", vec!["1", "0"]));
}

#[test]
fn move_beginning() {
    let mut old = mk_column("t", vec!["0", "1"]);
    assert_eq!(true, old.move_item(1, MoveSpec::Beginning));
    assert_eq!(old, mk_column("t", vec!["1", "0"]));
}

#[test]
fn move_end() {
    let mut old = mk_column("t", vec!["0", "1"]);
    assert_eq!(true, old.move_item(0, MoveSpec::End));
    assert_eq!(old, mk_column("t", vec!["1", "0"]));
}

#[test]
fn move_after_from_end() {
    let mut old = mk_column("t", vec!["0", "1", "2"]);
    assert_eq!(true, old.move_item(2, MoveSpec::After(0)));
    assert_eq!(old, mk_column("t", vec!["0", "2", "1"]));
}

#[test]
fn move_after_from_beginning() {
    let mut old = mk_column("t", vec!["0", "1", "2"]);
    assert_eq!(true, old.move_item(0, MoveSpec::After(1)));
    assert_eq!(old, mk_column("t", vec!["1", "0", "2"]));
}

#[test]
fn move_out_of_indexes() {
    let mut old = mk_column("t", vec!["0", "1", "2"]);
    assert_eq!(false, old.move_item(3, MoveSpec::After(1)));
    assert_eq!(old, mk_column("t", vec!["0", "1", "2"]));
}

#[test]
fn update_existing() {
    let mut old = mk_column("t", vec!["0", "1", "2"]);
    assert_eq!(true, old.update_item(1, |_| String::from("!")));
    assert_eq!(old, mk_column("t", vec!["0", "!", "2"]));
}

#[test]
fn update_missing() {
    let mut old = mk_column("t", vec!["0", "1", "2"]);
    assert_eq!(false, old.update_item(3, |_| String::from("!")));
    assert_eq!(old, mk_column("t", vec!["0", "1", "2"]));
}

#[test]
fn remove_existing() {
    let mut old = mk_column("t", vec!["0", "1", "2"]);
    assert_eq!(true, old.remove_item(1));
    assert_eq!(old, mk_column("t", vec!["0", "2"]));
}

#[test]
fn remove_missing() {
    let mut old = mk_column("t", vec!["0", "1", "2"]);
    assert_eq!(false, old.remove_item(3));
    assert_eq!(old, mk_column("t", vec!["0", "1", "2"]));
}
