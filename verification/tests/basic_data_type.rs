use ownership_basics::basic_data_type::{build_vector, split_at};

#[test]
fn test_build_vector() {
    let v = build_vector();
    assert_eq!(v, vec![10, 20, 30]);
}

#[test]
fn test_split_at() {
    let (left, right) = split_at("hello, world!", 7);
    assert_eq!(left, "hello, ");
    assert_eq!(right, "world!");
}

#[test]
fn test_array() {
    // An array has its length fixed when it is compiled.
    let a = [1, 3, 2];
    assert_eq!(a, [1, 3, 2]);
    assert_eq!(a.len(), 3);

    // One value, repeated.
    let b = [0i32; 3];
    assert_eq!(b, [0, 0, 0]);

    // Changing an array needs `mut`; the slice methods come by themselves.
    let mut c = [1, 3, 2];
    c.sort();
    assert_eq!(c, [1, 2, 3]);
    let _ = &c.reverse();
    assert_eq!(c, [3, 2, 1]);
}

#[test]
fn test_vector() {
    // A vector grows and shrinks.
    let mut v = Vec::new();
    v.push(1);
    v.push(2);
    assert_eq!(v.len(), 2);
    assert_eq!(v[0], 1);
    assert_eq!(v.pop(), Some(2));
    assert_eq!(v.len(), 1);

    // From the macro.
    let mut vm = vec![1, 2, 3];

    // An exclusive borrow of it.
    let _v = &mut vm;

    // One that is never changed.
    let _vr = vec![1, 2, 3];

    // From an iterator.
    let _vri: Vec<i32> = (0..5).collect();

    let mut palindrome = vec!["a man", "a plan", "panama"];
    palindrome.reverse();
    assert_eq!(palindrome, vec!["panama", "a plan", "a man"]);
}

#[test]
fn test_string() {
    // A literal.
    let mut speech = "Hello World!";
    println!("{}", speech);

    // A literal over two lines keeps the line break and the indentation.
    speech = "Hello,
        Rust!";
    println!("{}", speech);

    // A backslash at the end of the line drops both.
    speech = "Hello, \
        Rust!";
    println!("{}", speech);

    // A raw literal needs no escapes.
    speech = r#"Hello, "Rust"!"#;
    println!("{}", speech);

    // A byte string.
    let b = b"hello";
    assert_eq!(b, &[b'h', b'e', b'l', b'l', b'o']);

    // A string is UTF-8.
    let mut s = String::new();
    s.push('a');
    s.push_str("b");
    assert_eq!(s, "ab");

    // Joining with `+`.
    let s = String::from("hello, ");
    let s = s + "world!";
    assert_eq!(s, "hello, world!");

    // Joining with `format!`.
    let s = format!("{}-{}-{}", "tic", "tac", "toe");
    assert_eq!(s, "tic-tac-toe");

    // Slices of a string.
    let s = "hello, world!";
    let hello = &s[0..5];
    let world = &s[7..12];
    assert_eq!(hello, "hello");
    assert_eq!(world, "world");
}

#[test]
fn split_at_joins_back_to_the_input() {
    let input = "hello, world!";
    let (left, right) = split_at(input, 7);
    assert_eq!(format!("{}{}", left, right), input);
}

#[test]
fn split_at_the_ends_leaves_one_part_empty() {
    assert_eq!(split_at("hello", 0), ("", "hello"));
    assert_eq!(split_at("hello", 5), ("hello", ""));
    assert_eq!(split_at("", 0), ("", ""));
}

#[test]
fn split_at_between_characters_of_several_bytes() {
    // "é" takes two bytes, "€" three.
    let input = "é€x";
    assert!(input.is_char_boundary(2));
    let (left, right) = split_at(input, 2);
    assert_eq!(left, "é");
    assert_eq!(right, "€x");
    let (left, right) = split_at(input, 5);
    assert_eq!(left, "é€");
    assert_eq!(right, "x");
    assert!(!input.is_char_boundary(1));
    assert!(!input.is_char_boundary(3));
    assert!(!input.is_char_boundary(7));
}

#[test]
fn build_vector_gives_a_fresh_vector_each_time() {
    let mut first = build_vector();
    first.push(40);
    assert_eq!(first, vec![10, 20, 30, 40]);
    assert_eq!(build_vector(), vec![10, 20, 30]);
}
