use jrdb::bytes::i64_be_vec;
use jrdb::bytes::read_i64_at;
use jrdb::bytes::read_u32_at;
use jrdb::bytes::splice_bytes;
use jrdb::bytes::u32_be_vec;
use jrdb::dec::dec_u64_bytes;
use jrdb::dec::i64_dec_string;
use jrdb::dec::parse_i64_str;
use jrdb::dec::str_lex_lt;
use jrdb::jrdb_type::AddGet;
use jrdb::jrdb_type::AddGetValue;
use jrdb::jrdb_type::ConditionType;
use jrdb::jrdb_type::JrCondition;
use jrdb::jrdb_type::JrDocument;
use jrdb::jrdb_type::JrI64;
use jrdb::jrdb_type::JrString;
use jrdb::jrdb_type::JrType;

#[test]
fn big_endian_u32_round_trip() {
    let v = u32_be_vec(0xDEADBEEF);
    assert_eq!(v, vec![0xDE, 0xAD, 0xBE, 0xEF]);
    assert_eq!(read_u32_at(&v, 0), 0xDEADBEEF);
    assert_eq!(u32_be_vec(11), vec![0, 0, 0, 11]);
}

#[test]
fn big_endian_i64_round_trip() {
    let v = i64_be_vec(-2);
    assert_eq!(v, vec![0xFF, 0xFF, 0xFF, 0xFF, 0xFF, 0xFF, 0xFF, 0xFE]);
    assert_eq!(read_i64_at(&v, 0), -2);
    let w = i64_be_vec(i64::MIN);
    assert_eq!(w[0], 0x80);
    assert_eq!(read_i64_at(&w, 0), i64::MIN);
    let z = i64_be_vec(1);
    assert_eq!(z, vec![0, 0, 0, 0, 0, 0, 0, 1]);
    assert_eq!(read_i64_at(&z, 0), 1);
}

#[test]
fn splice_replaces_range() {
    let mut data = vec![1u8, 2, 3, 4, 5];
    let payload = vec![9u8, 9];
    splice_bytes(&mut data, 1, 4, &payload);
    assert_eq!(data, vec![1, 9, 9, 5]);
    let empty: Vec<u8> = Vec::new();
    splice_bytes(&mut data, 0, 0, &vec![7u8]);
    assert_eq!(data, vec![7, 1, 9, 9, 5]);
    splice_bytes(&mut data, 0, 5, &empty);
    assert_eq!(data, Vec::<u8>::new());
}

#[test]
fn decimal_strings() {
    assert_eq!(i64_dec_string(0), "0");
    assert_eq!(i64_dec_string(30), "30");
    assert_eq!(i64_dec_string(-5), "-5");
    assert_eq!(i64_dec_string(i64::MIN), "-9223372036854775808");
    assert_eq!(dec_u64_bytes(0), b"0".to_vec());
    assert_eq!(dec_u64_bytes(10), b"10".to_vec());
    assert_eq!(dec_u64_bytes(987654321), b"987654321".to_vec());
}

#[test]
fn decimal_parsing() {
    assert_eq!(parse_i64_str("30"), Some(30));
    assert_eq!(parse_i64_str("+5"), Some(5));
    assert_eq!(parse_i64_str("-12"), Some(-12));
    assert_eq!(parse_i64_str("-9223372036854775808"), Some(i64::MIN));
    assert_eq!(parse_i64_str("9223372036854775807"), Some(i64::MAX));
    assert_eq!(parse_i64_str("9223372036854775808"), None);
    assert_eq!(parse_i64_str("abc"), None);
    assert_eq!(parse_i64_str(""), None);
    assert_eq!(parse_i64_str("-"), None);
    assert_eq!(parse_i64_str("1x"), None);
}

#[test]
fn lexicographic_order() {
    assert!(str_lex_lt("abc", "abd"));
    assert!(!str_lex_lt("abd", "abc"));
    assert!(str_lex_lt("ab", "abc"));
    assert!(!str_lex_lt("abc", "abc"));
    assert!(str_lex_lt("", "a"));
}

#[test]
fn typed_getters_and_errors() {
    let mut doc = JrDocument::new();
    doc.add("name", JrString::new(String::from("Joel")));
    doc.add("age", JrI64::new(30));
    let name: &JrString = doc.get("name").unwrap();
    assert_eq!(name.get().as_str(), "Joel");
    let age: &JrI64 = doc.get("age").unwrap();
    assert_eq!(*age.get(), 30);
    let missing: Result<&JrString, &str> = doc.get("nope");
    match missing {
        Err(m) => assert_eq!(m, "Key not found"),
        Ok(_) => panic!("expected an error"),
    }
    let wrong: Result<&JrString, &str> = doc.get("age");
    match wrong {
        Err(m) => assert_eq!(m, "Not a JrString"),
        Ok(_) => panic!("expected an error"),
    }
    let wrong2: Result<String, &str> = doc.get_value("age");
    assert_eq!(wrong2.unwrap_err(), "Not a String");
}

#[test]
fn add_value_replaces_existing_key() {
    let mut doc = JrDocument::new();
    doc.add_value("k", String::from("one"));
    doc.add_value("k", String::from("two"));
    assert_eq!(doc.field_count(), 1);
    assert_eq!(doc.get_value("k"), Ok(String::from("two")));
    doc.add_value("k", 7i64);
    assert_eq!(doc.field_count(), 1);
    assert_eq!(doc.get_value("k"), Ok(7i64));
}

#[test]
fn value_encodings() {
    let mut x = JrI64::new(1);
    assert_eq!(x.get_bytes(0), vec![0, 0, 0, 0, 0, 0, 0, 1]);
    let mut s = JrString::new(String::from("hi"));
    assert_eq!(s.get_bytes(0), b"hi".to_vec());
    let mut doc = JrDocument::new();
    doc.add_value("a", 1i64);
    // one field record: depth 1, type 3, key length 1, size 16, key "a",
    // then the eight payload bytes
    let bytes = doc.get_bytes(0);
    assert_eq!(
        bytes,
        vec![1, 3, 1, 0, 0, 0, 16, b'a', 0, 0, 0, 0, 0, 0, 0, 1]
    );
}

#[test]
fn compare_string_by_kind() {
    let gt = JrCondition::new_exp(
        ConditionType::Gt,
        vec![],
        (String::new(), String::new()),
    );
    assert!(gt.compare_string(&String::from("b"), &String::from("a")));
    assert!(!gt.compare_string(&String::from("a"), &String::from("b")));
    let eq = JrCondition::new_exp(
        ConditionType::Eq,
        vec![],
        (String::new(), String::new()),
    );
    assert!(eq.compare_string(&String::from("a"), &String::from("a")));
    assert!(!eq.compare_string(&String::from("a"), &String::from("b")));
}

#[test]
fn condition_result_coerces_types() {
    let mut doc = JrDocument::new();
    doc.add_value("age", 30i64);
    doc.add_value("name", String::from("Joel"));
    let c1 = JrCondition::new_exp(
        ConditionType::Eq,
        vec![],
        (String::from("age"), String::from("30")),
    );
    assert!(c1.result(&doc));
    let c2 = JrCondition::new_exp(
        ConditionType::Eq,
        vec![],
        (String::from("age"), String::from("'30'")),
    );
    assert!(c2.result(&doc), "integer coerces to its decimal string");
    let c3 = JrCondition::new_exp(
        ConditionType::Eq,
        vec![],
        (String::from("name"), String::from("'Joel'")),
    );
    assert!(c3.result(&doc));
    let c4 = JrCondition::new_exp(
        ConditionType::Eq,
        vec![],
        (String::from("missing"), String::from("1")),
    );
    assert!(!c4.result(&doc), "an unresolved field reference is a false leaf");
    let c5 = JrCondition::new_exp(
        ConditionType::Eq,
        vec![],
        (String::from("''"), String::from("''")),
    );
    assert!(c5.result(&doc), "the default condition holds of every document");
}

#[test]
fn clone_preserves_values() {
    let mut doc = JrDocument::new();
    doc.add_value("name", String::from("Joel"));
    doc.add_value("age", 30i64);
    let copy = doc.clone();
    assert_eq!(copy.field_count(), 2);
    assert_eq!(copy.get_value("name"), Ok(String::from("Joel")));
    assert_eq!(copy.get_value("age"), Ok(30i64));
    let mut col = jrdb::jrdb_type::JrCollection::new();
    col.add(doc);
    let col2 = col.clone();
    assert_eq!(col2.len(), 1);
    assert_eq!(col2.get(0).get_value("name"), Ok(String::from("Joel")));
    let cond = JrCondition::new_exp(
        ConditionType::Eq,
        vec![],
        (String::from("age"), String::from("30")),
    );
    let cond2 = cond.clone();
    assert!(cond2.result(col2.get(0)));
}
