use myna_utils::Myna;
use myna_utils::MynaDb;

#[test]
fn derive_is_deterministic() {
    let m = Myna::parse("123456789018").unwrap();
    let db1 = MynaDb::new("test-secret");
    let db2 = MynaDb::new("test-secret");
    assert_eq!(db1.uuid(&m), db1.uuid(&m));
    assert_eq!(db1.uuid(&m), db2.uuid(&m));
}

#[test]
fn derive_depends_on_secret() {
    let m = Myna::parse("123456789018").unwrap();
    let db1 = MynaDb::new("test-secret");
    let db2 = MynaDb::new("other-secret");
    assert_ne!(db1.uuid(&m), db2.uuid(&m));
}

#[test]
fn derive_depends_on_identifier() {
    let db = MynaDb::new("test-secret");
    let a = Myna::parse("123456789018").unwrap();
    let b = Myna::parse("000000000000").unwrap();
    assert_ne!(db.uuid(&a), db.uuid(&b));
}

#[test]
fn uuid_golden_values() {
    let db = MynaDb::new("test-secret");
    let m = Myna::parse("123456789018").unwrap();
    assert_eq!(db.uuid(&m), "802a47dc-e33c-4a23-b6cc-5dba4f15b22a");
    let z = Myna::parse("000000000000").unwrap();
    assert_eq!(db.uuid(&z), "3547f0bf-20a4-435f-9064-904ca8c00b75");
    let other = MynaDb::new("other-secret");
    assert_eq!(other.uuid(&m), "16d5c48a-37a0-4089-849a-6c824fe753fa");
}

#[test]
fn uuid_syntax_shape() {
    let db = MynaDb::new("shape-secret");
    for s in ["000000000000", "123456789018", "999999999996"] {
        let m = Myna::parse(s).unwrap();
        let u = db.uuid(&m);
        let cs: Vec<char> = u.chars().collect();
        assert_eq!(cs.len(), 36);
        for (i, c) in cs.iter().enumerate() {
            if i == 8 || i == 13 || i == 18 || i == 23 {
                assert_eq!(*c, '-');
            } else {
                assert!(c.is_ascii_hexdigit() && !c.is_ascii_uppercase());
            }
        }
        assert_eq!(cs[14], '4');
        assert!(matches!(cs[19], '8' | '9' | 'a' | 'b'));
    }
}

#[test]
fn get_line_golden() {
    let db = MynaDb::new("test-secret");
    let m = Myna::parse("123456789018").unwrap();
    assert_eq!(
        db.get_line(&m),
        "123456789018 802a47dc-e33c-4a23-b6cc-5dba4f15b22a\n"
    );
}

#[test]
fn hash_is_32_bytes_and_keyed() {
    let m = Myna::parse("123456789018").unwrap();
    let db1 = MynaDb::new("test-secret");
    let db2 = MynaDb::new("other-secret");
    let h1 = db1.hash(&m);
    let h2 = db2.hash(&m);
    assert_eq!(h1.len(), 32);
    assert_eq!(h2.len(), 32);
    assert_ne!(h1, h2);
}
