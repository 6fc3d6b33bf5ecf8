use mytodo::error::StoreError;
use mytodo::model::{Item, Mutation};
use mytodo::store::Store;

fn ready_store() -> Store {
    let mut st = Store::new_missing();
    st.initialize();
    st
}

#[test]
fn load_missing_storage_is_unreadable() {
    let st = Store::new_missing();
    assert!(!st.storage_exists());
    assert_eq!(st.load().unwrap_err(), StoreError::StorageUnreadable);
}

#[test]
fn corrupt_storage_fails_to_load() {
    let st = Store::from_contents("nonsense".to_string());
    assert_eq!(st.load().unwrap_err(), StoreError::CorruptFormat);
}

#[test]
fn initialize_creates_empty_collection() {
    let st = ready_store();
    assert!(st.storage_exists());
    let c = st.load().unwrap();
    assert_eq!(c.names(), Vec::<String>::new());
}

#[test]
fn initialize_twice_is_byte_identical() {
    let mut st = Store::new_missing();
    st.initialize();
    let once = st.contents.clone().unwrap();
    st.initialize();
    let twice = st.contents.clone().unwrap();
    assert_eq!(once, twice);
}

#[test]
fn save_then_load_returns_same_collection() {
    let mut st = ready_store();
    st.create_list("groceries").unwrap();
    st.mutate_list("groceries", &Mutation::Append(Item::new("eggs")))
        .unwrap();
    let c = st.load().unwrap();
    let mut st2 = Store::new_missing();
    st2.save(&c);
    let back = st2.load().unwrap();
    assert_eq!(back, c);
}

#[test]
fn create_twice_keeps_one_unchanged_list() {
    let mut st = ready_store();
    st.create_list("x").unwrap();
    st.mutate_list("x", &Mutation::Append(Item::new("keep me")))
        .unwrap();
    let after_first = st.contents.clone().unwrap();
    st.create_list("x").unwrap();
    let after_second = st.contents.clone().unwrap();
    assert_eq!(after_first, after_second);
    let names = st.list_names().unwrap();
    assert_eq!(names, vec!["x".to_string()]);
    let l = st.get_list("x").unwrap();
    assert_eq!(l.items.len(), 1);
    assert_eq!(l.items[0].text, "keep me");
}

#[test]
fn append_on_fresh_list_yields_one_unchecked_item() {
    let mut st = ready_store();
    st.create_list("x").unwrap();
    st.mutate_list("x", &Mutation::Append(Item::new("buy milk")))
        .unwrap();
    let l = st.get_list("x").unwrap();
    assert_eq!(l.items.len(), 1);
    assert!(!l.items[0].checked);
    assert_eq!(l.items[0].text, "buy milk");
}

#[test]
fn toggle_twice_restores_storage() {
    let mut st = ready_store();
    st.create_list("x").unwrap();
    st.mutate_list("x", &Mutation::Append(Item::new("one")))
        .unwrap();
    let before = st.contents.clone().unwrap();
    st.mutate_list("x", &Mutation::ToggleAt(0)).unwrap();
    assert!(st.get_list("x").unwrap().items[0].checked);
    st.mutate_list("x", &Mutation::ToggleAt(0)).unwrap();
    assert!(!st.get_list("x").unwrap().items[0].checked);
    let after = st.contents.clone().unwrap();
    assert_eq!(before, after);
}

#[test]
fn remove_out_of_range_leaves_storage_unmodified() {
    let mut st = ready_store();
    st.create_list("x").unwrap();
    st.mutate_list("x", &Mutation::Append(Item::new("one")))
        .unwrap();
    let before = st.contents.clone().unwrap();
    let r = st.mutate_list("x", &Mutation::RemoveAt(1));
    assert_eq!(r, Err(StoreError::OutOfRange));
    let r2 = st.mutate_list("x", &Mutation::RemoveAt(9));
    assert_eq!(r2, Err(StoreError::OutOfRange));
    assert_eq!(st.contents.clone().unwrap(), before);
}

#[test]
fn toggle_out_of_range_leaves_storage_unmodified() {
    let mut st = ready_store();
    st.create_list("x").unwrap();
    let before = st.contents.clone().unwrap();
    let r = st.mutate_list("x", &Mutation::ToggleAt(0));
    assert_eq!(r, Err(StoreError::OutOfRange));
    assert_eq!(st.contents.clone().unwrap(), before);
}

#[test]
fn mutating_unknown_list_is_not_found() {
    let mut st = ready_store();
    let r = st.mutate_list("nope", &Mutation::Append(Item::new("x")));
    assert_eq!(r, Err(StoreError::ListNotFound));
}

#[test]
fn end_to_end_grocery_run() {
    let mut st = ready_store();
    st.create_list("groceries").unwrap();
    st.mutate_list("groceries", &Mutation::Append(Item::new("eggs")))
        .unwrap();
    st.mutate_list("groceries", &Mutation::Append(Item::new("bread")))
        .unwrap();
    st.mutate_list("groceries", &Mutation::ToggleAt(0)).unwrap();
    let l = st.get_list("groceries").unwrap();
    assert_eq!(l.items[0].render(), "[X] eggs");
    assert_eq!(l.items[1].render(), "[ ] bread");
    assert_eq!(l.render(), "groceries:\n[X] eggs\n[ ] bread");
}

#[test]
fn destroy_then_print_is_not_found() {
    let mut st = ready_store();
    st.create_list("groceries").unwrap();
    st.destroy_list("groceries").unwrap();
    assert_eq!(st.get_list("groceries").unwrap_err(), StoreError::ListNotFound);
}

#[test]
fn destroy_absent_list_is_a_no_op() {
    let mut st = ready_store();
    st.create_list("a").unwrap();
    let before = st.contents.clone().unwrap();
    st.destroy_list("b").unwrap();
    assert_eq!(st.contents.clone().unwrap(), before);
}

#[test]
fn list_names_keeps_creation_order() {
    let mut st = ready_store();
    st.create_list("bravo").unwrap();
    st.create_list("alpha").unwrap();
    st.create_list("charlie").unwrap();
    assert_eq!(
        st.list_names().unwrap(),
        vec!["bravo".to_string(), "alpha".to_string(), "charlie".to_string()]
    );
}

#[test]
fn operations_on_missing_storage_are_unreadable() {
    let mut st = Store::new_missing();
    assert_eq!(st.create_list("x"), Err(StoreError::StorageUnreadable));
    assert_eq!(st.destroy_list("x"), Err(StoreError::StorageUnreadable));
    assert_eq!(
        st.mutate_list("x", &Mutation::ToggleAt(0)),
        Err(StoreError::StorageUnreadable)
    );
    assert_eq!(st.get_list("x").unwrap_err(), StoreError::StorageUnreadable);
    assert_eq!(st.list_names().unwrap_err(), StoreError::StorageUnreadable);
}
