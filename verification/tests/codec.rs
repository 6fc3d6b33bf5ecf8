use mytodo::codec::{decode_collection, encode_collection};
use mytodo::error::StoreError;
use mytodo::model::{Collection, Item, List, Mutation};

fn sample() -> Collection {
    let mut c = Collection::new();
    c.create("groceries");
    c.apply_mutation("groceries", &Mutation::Append(Item::new("eggs")))
        .unwrap();
    c.apply_mutation("groceries", &Mutation::Append(Item::new("bread")))
        .unwrap();
    c.apply_mutation("groceries", &Mutation::ToggleAt(0)).unwrap();
    c.create("chores");
    c.apply_mutation("chores", &Mutation::Append(Item::new("text with\nnewline: and colon")))
        .unwrap();
    c
}

#[test]
fn empty_collection_round_trips() {
    let c = Collection::new();
    let text = encode_collection(&c);
    let back = decode_collection(&text).unwrap();
    assert_eq!(back, c);
}

#[test]
fn rich_collection_round_trips() {
    let c = sample();
    let text = encode_collection(&c);
    let back = decode_collection(&text).unwrap();
    assert_eq!(back, c);
}

#[test]
fn unicode_text_round_trips() {
    let mut c = Collection::new();
    c.create("déjà vu");
    c.apply_mutation("déjà vu", &Mutation::Append(Item::new("café ☕ naïve")))
        .unwrap();
    let text = encode_collection(&c);
    let back = decode_collection(&text).unwrap();
    assert_eq!(back, c);
}

#[test]
fn garbage_is_corrupt() {
    assert_eq!(decode_collection(""), Err(StoreError::CorruptFormat));
    assert_eq!(decode_collection("not a collection"), Err(StoreError::CorruptFormat));
    assert_eq!(
        decode_collection("0000000000000000000x"),
        Err(StoreError::CorruptFormat)
    );
}

#[test]
fn truncated_text_is_corrupt() {
    let text = encode_collection(&sample());
    let cut: String = text.chars().take(text.chars().count() - 1).collect();
    assert_eq!(decode_collection(&cut), Err(StoreError::CorruptFormat));
}

#[test]
fn trailing_garbage_is_corrupt() {
    let mut text = encode_collection(&sample());
    text.push('!');
    assert_eq!(decode_collection(&text), Err(StoreError::CorruptFormat));
}

#[test]
fn duplicate_names_are_corrupt() {
    let c = Collection {
        lists: vec![List::new("x"), List::new("x")],
    };
    let text = encode_collection(&c);
    assert_eq!(decode_collection(&text), Err(StoreError::CorruptFormat));
}

#[test]
fn on_disk_text_is_length_prefixed() {
    let mut c = Collection::new();
    assert_eq!(encode_collection(&c), "00000000000000000000");

    c.create("a");
    c.apply_mutation("a", &Mutation::Append(Item::new("hi"))).unwrap();
    c.apply_mutation("a", &Mutation::ToggleAt(0)).unwrap();
    // one list; name "a"; one item; checked ("x"), text "hi" of length 2
    let expected = "0000000000000000000100000000000000000001a00000000000000000001x00000000000000000002hi";
    assert_eq!(encode_collection(&c), expected);
}
