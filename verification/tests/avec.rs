use playlist::avec::{avec, avec_repeat};

#[test]
fn empty_vec() {
    let x: Vec<u32> = avec([]);
    assert!(x.is_empty());
}

#[test]
fn singe_test() {
    let x: Vec<u32> = avec_repeat(42, 3);
    assert!(!x.is_empty());
    assert_eq!(x.len(), 3);
}

#[test]
fn video_2_multiple() {
    let x: Vec<u32> = avec([123, 13, 2425, 4456]);
    assert!(!x.is_empty());
    assert_eq!(x.len(), 4);
}

#[test]
fn avec_keeps_order() {
    let x: Vec<u32> = avec([123, 13, 2425, 4456]);
    assert_eq!(x, vec![123, 13, 2425, 4456]);
}

#[test]
fn avec_moves_owned_items() {
    let x: Vec<String> = avec([String::from("a"), String::from("bc")]);
    assert_eq!(x, vec![String::from("a"), String::from("bc")]);
}

#[test]
fn avec_repeat_clones_the_item() {
    let x: Vec<String> = avec_repeat(String::from("ab"), 2);
    assert_eq!(x, vec![String::from("ab"), String::from("ab")]);
    let y: Vec<u32> = avec_repeat(42, 3);
    assert_eq!(y, vec![42, 42, 42]);
}

#[test]
fn avec_repeat_zero_times() {
    let x: Vec<u32> = avec_repeat(42, 0);
    assert!(x.is_empty());
}
