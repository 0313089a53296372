use memtools::linked_list::LinkedList;

fn show(list: &LinkedList<i32>) -> String {
    let parts: Vec<String> = list.get_all_values().iter().map(|v| v.to_string()).collect();
    format!("[{}]", parts.join(" -> "))
}

#[test]
fn test_all_basic_operations() {
    let mut list = LinkedList::new();

    assert!(list.is_empty());
    assert_eq!(list.len(), 0);
    assert_eq!(list.pop(), None);
    assert_eq!(list.get(0), None);

    list.push(1);
    list.push(2);
    list.push(3);

    assert!(!list.is_empty());
    assert_eq!(list.len(), 3);
    assert_eq!(show(&list), "[3 -> 2 -> 1]");

    assert_eq!(list.get(0), Some(&3));
    assert_eq!(list.get(1), Some(&2));
    assert_eq!(list.get(2), Some(&1));
    assert_eq!(list.get(3), None);

    assert_eq!(list.pop(), Some(3));
    assert_eq!(list.len(), 2);
    assert_eq!(list.pop(), Some(2));
    assert_eq!(list.pop(), Some(1));
    assert!(list.is_empty());
}

#[test]
fn test_reverse_operation() {
    let mut list = LinkedList::new();

    list.reverse();
    assert!(list.is_empty());

    list.push(42);
    list.reverse();
    assert_eq!(show(&list), "[42]");

    list = LinkedList::new();
    list.push(1);
    list.push(2);
    list.push(3);

    let before = show(&list);
    list.reverse();
    assert_eq!(show(&list), "[1 -> 2 -> 3]");

    list.reverse();
    assert_eq!(show(&list), before);
}

#[test]
fn test_cycle_detection_linear_lists() {
    let empty: LinkedList<i32> = LinkedList::new();
    assert!(!empty.has_cycle());
    assert_eq!(empty.find_cycle_start(), None);
    assert_eq!(empty.cycle_length(), None);

    let mut single = LinkedList::new();
    single.push(1);
    assert!(!single.has_cycle());
    assert_eq!(single.find_cycle_start(), None);
    assert_eq!(single.cycle_length(), None);

    let mut multi = LinkedList::new();
    for i in 1..=5 {
        multi.push(i);
    }
    assert!(!multi.has_cycle());
    assert_eq!(multi.find_cycle_start(), None);
    assert_eq!(multi.cycle_length(), None);
}

#[test]
fn test_get_all_values() {
    let mut list = LinkedList::new();
    list.push(1);
    list.push(2);
    list.push(3);

    let values = list.get_all_values();
    assert_eq!(values, vec![&3, &2, &1]);
}

#[test]
fn test_describe_structure() {
    let mut list = LinkedList::new();
    assert_eq!(list.describe_structure(), "Empty list");

    list.push(1);
    list.push(2);
    list.push(3);
    assert_eq!(list.describe_structure(), "Linear list with 3 nodes");
}

#[test]
fn test_comprehensive_workflow() {
    let mut list = LinkedList::new();

    for i in 1..=10 {
        list.push(i);
    }

    assert_eq!(list.len(), 10);
    assert!(!list.is_empty());
    assert!(!list.has_cycle());
    assert_eq!(list.get(0), Some(&10));
    assert_eq!(list.get(9), Some(&1));

    list.reverse();
    assert_eq!(list.get(0), Some(&1));
    assert_eq!(list.get(9), Some(&10));
    assert!(!list.has_cycle());

    assert_eq!(list.pop(), Some(1));
    assert_eq!(list.pop(), Some(2));
    assert_eq!(list.len(), 8);
    assert!(!list.has_cycle());
}

#[test]
fn describe_counts_with_several_digits() {
    let mut list = LinkedList::new();
    for i in 0..12 {
        list.push(i);
    }
    assert_eq!(list.describe_structure(), "Linear list with 12 nodes");
    list.pop();
    list.pop();
    assert_eq!(list.describe_structure(), "Linear list with 10 nodes");
}
