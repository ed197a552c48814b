use minikv::employeereport::{employees, Age, Employee, Employees, Name};

#[test]
fn should_list_employees_sorted_by_name() {
    let employees = employees();
    assert_eq!(
        employees.sunday_workers(),
        Employees {
            employees: vec![
                Employee { name: Name::new("Jean-Mike"), age: Age::new(51) },
                Employee { name: Name::new("Sepp Luça"), age: Age::new(18) },
            ]
        }
    );
}

#[test]
fn names_are_normalized_by_case() {
    // Fails if the upper-case mapping were the identity.
    assert_eq!(Name::new("max"), Name::new("MAX"));
    assert_eq!(Name::new("jEan-mIkE"), Name::new("Jean-Mike"));
    assert_ne!(Name::new("max"), Name::new("maxim"));
}

#[test]
fn adds() {
    assert_eq!(minikv::employeereport::add(2, 2), 4);
}
