use std::collections::{HashMap, HashSet};

use nak::ids::Ids;
use nak::protocol::{
    condition_holds, Command, ExitStatus, GenericPipe, ReadPipe, Testing, WritePipe,
};
use nak::tables::{members, pairs_of};

#[test]
fn ids_count_up_from_zero() {
    let mut ids = Ids::new();
    assert_eq!(ids.next(), 0);
    assert_eq!(ids.next(), 1);
    assert_eq!(ids.next(), 2);
    assert!(!ids.is_exhausted());
}

#[test]
fn exit_code_zero_is_success() {
    assert_eq!(ExitStatus::from_exit_code(0), ExitStatus::Success);
    assert_eq!(ExitStatus::from_exit_code(1), ExitStatus::Failure);
    assert_eq!(ExitStatus::from_exit_code(-1), ExitStatus::Failure);
    assert_eq!(ExitStatus::from_exit_code(i64::MIN), ExitStatus::Failure);
}

#[test]
fn conditions() {
    assert!(condition_holds(None, ExitStatus::Success));
    assert!(condition_holds(None, ExitStatus::Failure));
    assert!(condition_holds(Some(ExitStatus::Success), ExitStatus::Success));
    assert!(!condition_holds(Some(ExitStatus::Success), ExitStatus::Failure));
    assert!(!condition_holds(Some(ExitStatus::Failure), ExitStatus::Success));
}

#[test]
fn pipe_views_keep_the_handle() {
    assert_eq!(ReadPipe(4).to_generic(), GenericPipe(4));
    assert_eq!(WritePipe(5).to_generic(), GenericPipe(5));
    assert_eq!(GenericPipe(6).to_read(), ReadPipe(6));
    assert_eq!(GenericPipe(7).to_write(), WritePipe(7));
}

#[test]
fn testing_hands_out_one_space_of_handles() {
    let mut t = Testing::new();
    let (r, w) = t.pipe();
    assert_eq!((r.0, w.0), (0, 0));
    assert_eq!(t.process().0, 1);
    let (r, w) = t.pipe();
    assert_eq!((r.0, w.0), (2, 2));
}

#[test]
fn add_args_appends() {
    let mut c = Command::Unknown(String::from("ls"), vec![String::from("-l")]);
    c.add_args(vec![String::from("a"), String::from("b")]);
    assert_eq!(
        c,
        Command::Unknown(
            String::from("ls"),
            vec![String::from("-l"), String::from("a"), String::from("b")]
        )
    );
}

#[test]
fn a_table_is_listed_entry_by_entry() {
    let mut table: HashMap<usize, usize> = HashMap::new();
    assert_eq!(pairs_of(&table), Vec::<(usize, usize)>::new());
    table.insert(7, 70);
    table.insert(3, 30);
    table.insert(5, 50);
    let mut list = pairs_of(&table);
    list.sort();
    assert_eq!(list, vec![(3, 30), (5, 50), (7, 70)]);
}

#[test]
fn a_set_is_listed_member_by_member() {
    let mut set: HashSet<usize> = HashSet::new();
    assert_eq!(members(&set), Vec::<usize>::new());
    set.insert(4);
    set.insert(9);
    set.insert(4);
    let mut list = members(&set);
    list.sort();
    assert_eq!(list, vec![4, 9]);
}
