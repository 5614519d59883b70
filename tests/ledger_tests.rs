use touban::{split_members_arg, Ledger, LedgerError, Member};

fn ledger(people: usize, counts: &[(&str, u8)]) -> Ledger {
    let members = counts
        .iter()
        .map(|(n, c)| Member { name: n.to_string(), count: *c })
        .collect();
    Ledger::from_parts(people, 7, members).unwrap()
}

fn counts(l: &Ledger) -> Vec<u8> {
    l.members.iter().map(|m| m.count).collect()
}

fn names(l: &Ledger) -> Vec<String> {
    l.members.iter().map(|m| m.name.clone()).collect()
}

#[test]
fn split_trims_and_drops_empty_pieces() {
    assert_eq!(split_members_arg("A,B,C"), vec!["A", "B", "C"]);
    assert_eq!(split_members_arg(" a , ,b,\t"), vec!["a", "b"]);
    assert_eq!(split_members_arg(""), Vec::<String>::new());
    assert_eq!(split_members_arg(",,"), Vec::<String>::new());
    assert_eq!(split_members_arg("たろう,はなこ, じろう "), vec!["たろう", "はなこ", "じろう"]);
    assert_eq!(split_members_arg("x y"), vec!["x y"]);
}

#[test]
fn create_people_two_interval_seven() {
    let l = Ledger::create(2, 7, split_members_arg("A,B,C")).unwrap();
    assert_eq!(l.people, 2);
    assert_eq!(l.interval, 7);
    assert_eq!(names(&l), vec!["A", "B", "C"]);
    assert_eq!(counts(&l), vec![0, 0, 0]);
}

#[test]
fn create_rejects_zero_people_and_repeated_names() {
    assert_eq!(Ledger::create(0, 7, vec![]).unwrap_err(), LedgerError::InvalidArgument);
    assert_eq!(
        Ledger::create(1, 7, vec!["A".to_string(), "A".to_string()]).unwrap_err(),
        LedgerError::DuplicateMember
    );
    assert_eq!(Ledger::create(1, 0, vec![]).unwrap().members.len(), 0);
}

#[test]
fn from_parts_checks_the_schema() {
    let m = |n: &str, c: u8| Member { name: n.to_string(), count: c };
    assert_eq!(Ledger::from_parts(0, 1, vec![]).unwrap_err(), LedgerError::MalformedLedgerSchema);
    assert_eq!(
        Ledger::from_parts(1, 1, vec![m("A", 6)]).unwrap_err(),
        LedgerError::MalformedLedgerSchema
    );
    assert_eq!(
        Ledger::from_parts(1, 1, vec![m("A", 1), m("B", 2), m("A", 3)]).unwrap_err(),
        LedgerError::MalformedLedgerSchema
    );
    assert!(Ledger::from_parts(1, 1, vec![m("A", 5), m("B", 0)]).is_ok());
}

#[test]
fn add_member_takes_rounded_mean() {
    let mut l = ledger(1, &[("A", 2), ("B", 4)]);
    assert_eq!(l.add_member("C".to_string()), Ok(()));
    assert_eq!(names(&l), vec!["A", "B", "C"]);
    assert_eq!(counts(&l), vec![2, 4, 3]);
}

#[test]
fn add_member_duplicate_changes_nothing() {
    let mut l = ledger(1, &[("A", 2), ("B", 4)]);
    assert_eq!(l.add_member("B".to_string()), Err(LedgerError::DuplicateMember));
    assert_eq!(names(&l), vec!["A", "B"]);
    assert_eq!(counts(&l), vec![2, 4]);
}

#[test]
fn add_member_mean_rounding_edges() {
    let mut l = ledger(1, &[]);
    l.add_member("A".to_string()).unwrap();
    assert_eq!(counts(&l), vec![0]);
    let mut l = ledger(1, &[("A", 1), ("B", 2)]);
    l.add_member("C".to_string()).unwrap();
    assert_eq!(counts(&l)[2], 2);
    let mut l = ledger(1, &[("A", 0), ("B", 0), ("C", 1)]);
    l.add_member("D".to_string()).unwrap();
    assert_eq!(counts(&l)[3], 0);
    let mut l = ledger(1, &[("A", 5), ("B", 5), ("C", 4)]);
    l.add_member("D".to_string()).unwrap();
    assert_eq!(counts(&l)[3], 5);
}

#[test]
fn remove_member_keeps_order() {
    let mut l = ledger(1, &[("A", 1), ("B", 2), ("C", 3)]);
    assert_eq!(l.remove_member(&"B".to_string()), Ok(()));
    assert_eq!(names(&l), vec!["A", "C"]);
    assert_eq!(counts(&l), vec![1, 3]);
}

#[test]
fn remove_member_missing() {
    let mut l = ledger(1, &[("A", 1)]);
    assert_eq!(l.remove_member(&"Z".to_string()), Err(LedgerError::MemberNotFound));
    assert_eq!(names(&l), vec!["A"]);
}
