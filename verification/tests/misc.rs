use dynops::locations::LocationClass;
use dynops::misc::{echo, hyphenate, uuid};

#[test]
fn test_uuid() {
    let text = uuid();
    assert_eq!(text.len(), 36);
    for (i, c) in text.chars().enumerate() {
        if [8, 13, 18, 23].contains(&i) {
            assert_eq!(c, '-');
        } else {
            assert!(c.is_ascii_hexdigit() && !c.is_ascii_uppercase(), "{text}");
        }
    }
    assert_eq!(text.as_bytes()[14], b'4');
    assert!(matches!(text.as_bytes()[19], b'8' | b'9' | b'a' | b'b'));
    assert_ne!(uuid(), text);
}

#[test]
fn misc_test_echo() {
    let data = vec!["a".to_owned(), "b".to_owned()];
    assert_eq!("echo(a, b)", echo(&data));
}

#[test]
fn echo_of_nothing_and_one() {
    assert_eq!(echo(&[]), "echo()");
    assert_eq!(dynops::echo::echo(&["A".to_owned(), "B".to_owned(), "C".to_owned()]), "echo(A, B, C)");
    assert_eq!(echo(&["".to_owned()]), "echo()");
}

#[test]
fn classification_boundaries() {
    assert_eq!(LocationClass::classify(4), LocationClass::Farm);
    assert_eq!(LocationClass::classify(5), LocationClass::Hamlet);
    assert_eq!(LocationClass::classify(12), LocationClass::Hamlet);
    assert_eq!(LocationClass::classify(13), LocationClass::Village);
    assert_eq!(LocationClass::classify(40), LocationClass::Village);
    assert_eq!(LocationClass::classify(41), LocationClass::Town);
    assert_eq!(LocationClass::classify(120), LocationClass::Town);
    assert_eq!(LocationClass::classify(121), LocationClass::City);
}

#[test]
fn class_indices_in_declaration_order() {
    let classes = [
        LocationClass::Farm,
        LocationClass::Hamlet,
        LocationClass::Village,
        LocationClass::Town,
        LocationClass::City,
    ];
    for (i, class) in classes.iter().enumerate() {
        assert_eq!(class.index() as usize, i);
    }
    assert_eq!(LocationClass::classify(0), LocationClass::Farm);
    assert_eq!(LocationClass::classify(usize::MAX), LocationClass::City);
    let mut last = 0;
    for n in 0..200 {
        let i = LocationClass::classify(n).index();
        assert!(i >= last);
        last = i;
    }
}

#[test]
fn lib_echo() {
    let args = vec!["a".to_string(), "b".to_string()];
    assert_eq!(dynops::echo::echo(&args), "echo(a, b)");
}

#[test]
fn hyphenate_writes_fixed_bytes() {
    let bytes = [
        0x67, 0xe5, 0x50, 0x44, 0x10, 0xb1, 0x42, 0x6f, 0x92, 0x47, 0xbb, 0x68, 0x0e, 0x5f, 0xe0,
        0xc8,
    ];
    assert_eq!(hyphenate(bytes), "67e55044-10b1-426f-9247-bb680e5fe0c8");
    assert_eq!(hyphenate([0; 16]), "00000000-0000-0000-0000-000000000000");
    assert_eq!(hyphenate([0xff; 16]), "ffffffff-ffff-ffff-ffff-ffffffffffff");
}
