use ownership_basics::text::{in_order, same_text, sort_texts};

fn strings(texts: &[&str]) -> Vec<String> {
    let mut list = Vec::new();
    for text in texts {
        list.push(text.to_string());
    }
    list
}

#[test]
fn same_text_compares_every_byte() {
    assert!(same_text("", ""));
    assert!(same_text("hello", "hello"));
    assert!(!same_text("hello", "hellp"));
    assert!(!same_text("hello", "jello"));
    assert!(!same_text("hello", "hell"));
    assert!(!same_text("hell", "hello"));
    assert!(!same_text("", "a"));
    assert!(same_text("é€", "é€"));
    assert!(!same_text("é", "e"));
}

#[test]
fn in_order_goes_by_the_first_byte_that_differs() {
    assert!(in_order("a", "b"));
    assert!(!in_order("b", "a"));
    assert!(in_order("abc", "abd"));
    assert!(!in_order("abd", "abc"));
    // Capital letters come first.
    assert!(in_order("Z", "a"));
    assert!(!in_order("a", "Z"));
    // Digits go by their characters, not by their value.
    assert!(in_order("10", "9"));
}

#[test]
fn in_order_puts_a_text_before_its_extensions() {
    assert!(in_order("", ""));
    assert!(in_order("", "a"));
    assert!(!in_order("a", ""));
    assert!(in_order("ab", "abc"));
    assert!(!in_order("abc", "ab"));
    assert!(in_order("abc", "abc"));
}

#[test]
fn in_order_agrees_with_the_order_of_strings() {
    let texts = ["", "a", "A", "ab", "b", "é", "e", "€", "z", "~", " ", "éa", "日本", "日"];
    for a in texts {
        for b in texts {
            assert_eq!(in_order(a, b), a <= b);
        }
    }
}

#[test]
fn sort_texts_puts_the_strings_in_order() {
    let mut texts = strings(&["pear", "apple", "fig", "Apple", "apple", ""]);
    sort_texts(&mut texts);
    assert_eq!(texts, strings(&["", "Apple", "apple", "apple", "fig", "pear"]));
}

#[test]
fn sort_texts_leaves_few_strings_alone() {
    let mut none: Vec<String> = Vec::new();
    sort_texts(&mut none);
    assert_eq!(none, Vec::<String>::new());
    let mut one = strings(&["only"]);
    sort_texts(&mut one);
    assert_eq!(one, strings(&["only"]));
}

#[test]
fn sort_texts_turns_a_falling_list_round() {
    let mut texts = strings(&["e", "d", "c", "b", "a"]);
    sort_texts(&mut texts);
    assert_eq!(texts, strings(&["a", "b", "c", "d", "e"]));
    sort_texts(&mut texts);
    assert_eq!(texts, strings(&["a", "b", "c", "d", "e"]));
}
