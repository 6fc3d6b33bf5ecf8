use mytodo::error::StoreError;
use mytodo::model::{render_names, Item, List};

#[test]
fn item_created_unchecked() {
    let it = Item::new("eggs");
    assert!(!it.checked);
    assert_eq!(it.text, "eggs");
}

#[test]
fn item_renders_both_states() {
    let mut it = Item::new("eggs");
    assert_eq!(it.render(), "[ ] eggs");
    it.toggle();
    assert_eq!(it.render(), "[X] eggs");
}

#[test]
fn toggle_is_its_own_inverse() {
    let mut l = List::new("a");
    l.push_item(Item::new("one"));
    assert!(!l.items[0].checked);
    assert_eq!(l.toggle_item(0), Ok(()));
    assert!(l.items[0].checked);
    assert_eq!(l.toggle_item(0), Ok(()));
    assert!(!l.items[0].checked);
}

#[test]
fn remove_out_of_range_reports_and_keeps_list() {
    let mut l = List::new("a");
    l.push_item(Item::new("one"));
    let before = l.clone();
    assert_eq!(l.remove_item(1), Err(StoreError::OutOfRange));
    assert_eq!(l.remove_item(7), Err(StoreError::OutOfRange));
    assert_eq!(l, before);
}

#[test]
fn toggle_out_of_range_reports_and_keeps_list() {
    let mut l = List::new("a");
    let before = l.clone();
    assert_eq!(l.toggle_item(0), Err(StoreError::OutOfRange));
    assert_eq!(l, before);
}

#[test]
fn remove_shifts_later_items() {
    let mut l = List::new("a");
    l.push_item(Item::new("one"));
    l.push_item(Item::new("two"));
    l.push_item(Item::new("three"));
    assert_eq!(l.remove_item(0), Ok(()));
    assert_eq!(l.items.len(), 2);
    assert_eq!(l.items[0].text, "two");
    assert_eq!(l.items[1].text, "three");
}

#[test]
fn list_renders_name_then_items() {
    let mut l = List::new("groceries");
    l.push_item(Item::new("eggs"));
    l.push_item(Item::new("bread"));
    l.toggle_item(0).unwrap();
    assert_eq!(l.render(), "groceries:\n[X] eggs\n[ ] bread");
}

#[test]
fn empty_list_renders_name_and_colon() {
    let l = List::new("todo");
    assert_eq!(l.render(), "todo:");
}

#[test]
fn names_render_newline_joined() {
    assert_eq!(render_names(&vec![]), "");
    assert_eq!(render_names(&vec!["a".to_string()]), "a");
    assert_eq!(
        render_names(&vec!["a".to_string(), "b".to_string(), "c".to_string()]),
        "a\nb\nc"
    );
}
