use tlblur::attack::AttackError;
use tlblur::json::{encoded, raw_output};
use tlblur::reconstruct::JpegReconstruct;

#[test]
fn reconstruction_as_json() {
    let mut r = JpegReconstruct::new(1);
    r.reconstruct_block(3);
    r.reconstruct_block(1);
    r.next_row();
    let text = raw_output(&r).unwrap();
    assert_eq!(text, "[\n  [\n    [\n      3,\n      1\n    ],\n    []\n  ]\n]");
    let back: Vec<Vec<Vec<usize>>> = serde_json::from_str(&text).unwrap();
    assert_eq!(&back, r.raw_reconstruction());
}

#[test]
fn encoding_always_succeeds() {
    let mut r = JpegReconstruct::new(3);
    assert!(raw_output(&r).is_ok());
    for n in [0, 1, usize::MAX, 7] {
        r.reconstruct_block(n);
        r.next_row();
        assert!(raw_output(&r).is_ok());
    }
    assert!(raw_output(&r).unwrap().contains(&usize::MAX.to_string()));
}

#[test]
fn empty_reconstruction_as_json() {
    let text = raw_output(&JpegReconstruct::new(3)).unwrap();
    let back: Vec<Vec<Vec<usize>>> = serde_json::from_str(&text).unwrap();
    assert_eq!(back, vec![vec![Vec::<usize>::new()]; 3]);
}

#[test]
fn failed_encoding_is_an_unknown_error() {
    let failure = serde_json::from_str::<u8>("not a number").unwrap_err();
    assert_eq!(encoded(Err(failure)), Err(AttackError::Unknown));
    assert_eq!(encoded(Ok("[]".to_string())), Ok("[]".to_string()));
}
