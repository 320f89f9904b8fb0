use ownership_basics::lifetime::longest;

#[test]
fn test_longest() {
    let s1 = String::from("long string is long");
    let s2 = String::from("xyz");
    let result;
    {
        result = longest(s1.as_str(), s2.as_str());
    }
    assert_eq!(result, "long string is long");
}

#[test]
fn test_ref_parameter() {
    // A borrow handed to a function must live as long as the function asks:
    // one of the local `x` would not do here.
    static P: i32 = 10;
    fn f(p: &'static i32) -> &i32 {
        p
    }

    let x = 10;
    _ = f(&P);
    _ = x;
}

#[test]
fn test_ref_struct() {
    // A record that holds a borrow must not outlive what it borrows.
    struct S<'a> {
        r: &'a i32,
    }

    let s;
    let x = 10;
    {
        s = S { r: &x };
    }
    assert_eq!(s.r, &10);
}

#[test]
fn longest_returns_the_second_of_two_equally_long() {
    let first = String::from("abc");
    let second = String::from("xyz");
    let chosen = longest(first.as_str(), second.as_str());
    assert_eq!(chosen, "xyz");
    assert!(std::ptr::eq(chosen, second.as_str()));
    let chosen = longest(second.as_str(), first.as_str());
    assert_eq!(chosen, "abc");
}

#[test]
fn longest_returns_the_second_when_it_is_longer() {
    assert_eq!(longest("xyz", "long string is long"), "long string is long");
    assert_eq!(longest("", "a"), "a");
    assert_eq!(longest("a", ""), "a");
    assert_eq!(longest("", ""), "");
}

#[test]
fn longest_counts_bytes() {
    // Two characters in four bytes against three in three.
    assert_eq!(longest("éé", "abc"), "éé");
    assert_eq!(longest("abc", "éé"), "éé");
}
