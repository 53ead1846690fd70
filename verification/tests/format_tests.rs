use set_parser::eval::Env;
use set_parser::format::push_decimal;
use set_parser::sets::{
    elements, from_values, range_set, set_difference, set_intersection,
    set_symmetric_difference, set_union,
};
use std::collections::BTreeSet;

fn set(values: &[i32]) -> BTreeSet<i32> {
    values.iter().copied().collect()
}

#[test]
fn format_of_the_empty_set() {
    assert_eq!(Env::format_set(&set(&[])), "{}");
}

#[test]
fn format_of_one_member() {
    assert_eq!(Env::format_set(&set(&[42])), "{42}");
    assert_eq!(Env::format_set(&set(&[0])), "{0}");
}

#[test]
fn format_lists_members_in_ascending_order() {
    assert_eq!(Env::format_set(&set(&[5, 1, 4, 3])), "{1, 3, 4, 5}");
    assert_eq!(Env::format_set(&set(&[10, 9, 100, 1000])), "{9, 10, 100, 1000}");
}

#[test]
fn format_of_negative_members() {
    assert_eq!(Env::format_set(&set(&[3, -12, 0, -1])), "{-12, -1, 0, 3}");
    assert_eq!(
        Env::format_set(&set(&[i32::MAX, i32::MIN])),
        "{-2147483648, 2147483647}"
    );
}

#[test]
fn decimal_is_appended() {
    let mut text = String::from("x=");
    push_decimal(&mut text, 907);
    push_decimal(&mut text, -40);
    assert_eq!(text, "x=907-40");
}

#[test]
fn elements_come_smallest_first() {
    assert_eq!(elements(&set(&[3, -1, 2])), vec![-1, 2, 3]);
    assert_eq!(elements(&set(&[])), Vec::<i32>::new());
}

#[test]
fn from_values_drops_repeats() {
    assert_eq!(from_values(&vec![2, 2, 1, 2]), set(&[1, 2]));
}

#[test]
fn range_set_includes_both_bounds() {
    assert_eq!(range_set(2, 5), set(&[2, 3, 4, 5]));
    assert_eq!(range_set(5, 2), set(&[2, 3, 4, 5]));
    assert_eq!(range_set(-1, -1), set(&[-1]));
}

#[test]
fn operations_on_set_values() {
    let a = set(&[1, 2, 3]);
    let b = set(&[2, 3, 4]);
    assert_eq!(set_union(&a, &b), set(&[1, 2, 3, 4]));
    assert_eq!(set_intersection(&a, &b), set(&[2, 3]));
    assert_eq!(set_difference(&a, &b), set(&[1]));
    assert_eq!(set_difference(&b, &a), set(&[4]));
    assert_eq!(set_symmetric_difference(&a, &b), set(&[1, 4]));
    assert_eq!(set_symmetric_difference(&a, &a), set(&[]));
    assert_eq!(set_union(&a, &set(&[])), a);
    assert_eq!(set_intersection(&a, &set(&[])), set(&[]));
}
