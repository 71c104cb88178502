use top_hits::term::{Field, Term};

#[test]
pub fn test_term() {
    // "text" is field 0, "title" field 1, "count" field 2.
    let title_field = Field(1);
    let count_field = Field(2);
    {
        let term = Term::from_field_text(title_field, "test");
        assert_eq!(term.field(), title_field);
        assert_eq!(&term.as_slice()[0..4], &[0u8, 0u8, 0u8, 1u8]);
        assert_eq!(&term.as_slice()[4..], "test".as_bytes());
    }
    {
        let term = Term::from_field_u64(count_field, 983u64);
        assert_eq!(term.field(), count_field);
        assert_eq!(&term.as_slice()[0..4], &[0u8, 0u8, 0u8, 2u8]);
        assert_eq!(term.as_slice().len(), 4 + 8);
        assert_eq!(term.as_slice()[4], 0u8);
        assert_eq!(term.as_slice()[5], 0u8);
        assert_eq!(term.as_slice()[6], 0u8);
        assert_eq!(term.as_slice()[7], 0u8);
        assert_eq!(term.as_slice()[8], 0u8);
        assert_eq!(term.as_slice()[9], 0u8);
        assert_eq!(term.as_slice()[10], (933u64 / 256u64) as u8);
        assert_eq!(term.as_slice()[11], (983u64 % 256u64) as u8);
    }
}

#[test]
fn u64_term_round_trips() {
    for v in [0u64, 1, 255, 256, 983, 1 << 40, u64::MAX - 1, u64::MAX] {
        let term = Term::from_field_u64(Field(7), v);
        assert_eq!(term.get_u64(), v);
        assert_eq!(term.field(), Field(7));
    }
}

#[test]
fn u64_terms_order_as_values() {
    let values = [0u64, 1, 255, 256, 65535, 1 << 32, (1 << 32) + 1, u64::MAX];
    for x in values {
        for y in values {
            let tx = Term::from_field_u64(Field(3), x);
            let ty = Term::from_field_u64(Field(3), y);
            assert_eq!(tx.as_slice() < ty.as_slice(), x < y);
        }
    }
}

#[test]
fn i64_terms_keep_order() {
    let a = Term::from_field_i64(Field(1), -5);
    let b = Term::from_field_i64(Field(1), 0);
    let c = Term::from_field_i64(Field(1), 7);
    assert!(a.as_slice() < b.as_slice());
    assert!(b.as_slice() < c.as_slice());
    assert_eq!(b.get_u64(), 1u64 << 63);
    assert_eq!(a.get_u64(), (1u64 << 63) - 5);
}

#[test]
fn text_and_value() {
    let mut term = Term::from_field_text(Field(4), "abc");
    assert_eq!(term.value(), b"abc");
    assert_eq!(term.text(), "abc");
    term.set_text("héllo");
    assert_eq!(term.text(), "héllo");
    assert_eq!(term.field(), Field(4));
    term.set_field(Field(258));
    assert_eq!(&term.as_slice()[0..4], &[0u8, 0, 1, 2]);
    assert_eq!(term.text(), "héllo");
}

#[test]
fn set_u64_and_from_bytes() {
    let mut term = Term::from_bytes(&[0, 0, 0, 9, 1, 2]);
    assert_eq!(term.field(), Field(9));
    term.set_u64(0x0102030405060708);
    assert_eq!(term.as_slice(), &[0, 0, 0, 9, 1, 2, 3, 4, 5, 6, 7, 8]);
    let mut short = Term::from_bytes(&[5]);
    short.set_field(Field(1));
    assert_eq!(short.as_slice(), &[0, 0, 0, 1]);
}
