use jrdb::Database;
use jrdb::JrError;
use jrdb::jrdb_type::AddGet;
use jrdb::jrdb_type::AddGetValue;
use jrdb::jrdb_type::ConditionType;
use jrdb::jrdb_type::JrCondition;
use jrdb::jrdb_type::JrDocument;

fn doc3(name: &str, pass: &str, age: i64) -> JrDocument {
    let mut doc = JrDocument::new();
    doc.add_value("name", String::from(name));
    doc.add_value("pass", String::from(pass));
    doc.add_value("age", age);
    doc
}

fn eq_cond(left: &str, right: &str) -> JrCondition {
    JrCondition::new_exp(
        ConditionType::Eq,
        vec![],
        (String::from(left), String::from(right)),
    )
}

fn cmp_cond(kind: ConditionType, left: &str, right: &str) -> JrCondition {
    JrCondition::new_exp(kind, vec![], (String::from(left), String::from(right)))
}

#[test]
fn fresh_database_bytes() {
    let db = Database::fresh(String::from("x"));
    assert_eq!(
        db.bytes().as_slice(),
        &[0x00, 0x00, 0x04, 0x00, 0x00, 0x00, 0x0B, 0x72, 0x6F, 0x6F, 0x74]
    );
}

#[test]
fn insert_then_select_single() {
    let mut db = Database::fresh(String::from("t1"));
    db.insert("users", doc3("Joel", "ILoveErd", 30));
    db.execute().unwrap();
    db.select("users");
    let col = db.execute().unwrap();
    assert_eq!(col.len(), 1);
    let d = col.get(0);
    assert_eq!(d.get_value("_id"), Ok(String::from("1")));
    assert_eq!(d.get_value("name"), Ok(String::from("Joel")));
    assert_eq!(d.get_value("pass"), Ok(String::from("ILoveErd")));
    assert_eq!(d.get_value("age"), Ok(30i64));
}

#[test]
fn second_insert_gets_next_id() {
    let mut db = Database::fresh(String::from("t2"));
    db.insert("users", doc3("Joel", "ILoveErd", 30));
    db.execute().unwrap();
    db.insert("users", doc3("Mathew", "ILoveERD", 400));
    db.execute().unwrap();
    db.select("users");
    let col = db.execute().unwrap();
    assert_eq!(col.len(), 2);
    assert_eq!(col.get(0).get_value("_id"), Ok(String::from("1")));
    assert_eq!(col.get(1).get_value("_id"), Ok(String::from("2")));
    assert_eq!(col.get(1).get_value("name"), Ok(String::from("Mathew")));
    assert_eq!(col.get(1).get_value("age"), Ok(400i64));
}

#[test]
fn update_changes_only_matching_document() {
    let mut db = Database::fresh(String::from("t3"));
    db.insert("users", doc3("Joel", "ILoveErd", 30));
    db.insert("users", doc3("Mathew", "ILoveERD", 400));
    db.execute().unwrap();
    let mut patch = JrDocument::new();
    patch.add_value("name", String::from("Jason"));
    db.update("users", patch);
    db.condition(eq_cond("name", "'Joel'"));
    db.execute().unwrap();
    db.select("users");
    let col = db.execute().unwrap();
    assert_eq!(col.len(), 2);
    let first = col.get(0);
    assert_eq!(first.get_value("_id"), Ok(String::from("1")));
    assert_eq!(first.get_value("name"), Ok(String::from("Jason")));
    assert_eq!(first.get_value("pass"), Ok(String::from("ILoveErd")));
    let second = col.get(1);
    assert_eq!(second.get_value("_id"), Ok(String::from("2")));
    assert_eq!(second.get_value("name"), Ok(String::from("Mathew")));
    assert_eq!(second.get_value("pass"), Ok(String::from("ILoveERD")));
}

#[test]
fn delete_leaves_other_documents() {
    let mut db = Database::fresh(String::from("t4"));
    db.insert("users", doc3("Joel", "ILoveErd", 30));
    db.insert("users", doc3("Mathew", "ILoveERD", 400));
    db.execute().unwrap();
    let mut patch = JrDocument::new();
    patch.add_value("name", String::from("Jason"));
    db.update("users", patch);
    db.condition(eq_cond("name", "'Joel'"));
    db.execute().unwrap();
    db.delete("users");
    db.condition(eq_cond("name", "'Jason'"));
    db.execute().unwrap();
    db.select("users");
    let col = db.execute().unwrap();
    assert_eq!(col.len(), 1);
    assert_eq!(col.get(0).get_value("_id"), Ok(String::from("2")));
    assert_eq!(col.get(0).get_value("name"), Ok(String::from("Mathew")));
}

#[test]
fn select_missing_collection_is_empty_and_pure() {
    let mut db = Database::fresh(String::from("t5"));
    let before = db.bytes().clone();
    db.select("ghosts");
    let col = db.execute().unwrap();
    assert_eq!(col.len(), 0);
    assert_eq!(db.bytes(), &before);
}

fn be32(b: &[u8]) -> usize {
    ((b[0] as usize) << 24) | ((b[1] as usize) << 16) | ((b[2] as usize) << 8) | (b[3] as usize)
}

/// Walk one record at `p`; check its size covers its children exactly and
/// every child sits one level deeper; return its end offset.
fn check_record(bytes: &[u8], p: usize) -> usize {
    let depth = bytes[p] as usize;
    let ty = bytes[p + 1];
    let key_len = bytes[p + 2] as usize;
    let size = be32(&bytes[p + 3..p + 7]);
    let header = if ty == 1 { 11 } else { 7 };
    let content_start = p + header + key_len;
    let content_end = p + size;
    assert!(content_end <= bytes.len());
    assert!(content_start <= content_end);
    if ty == 0 || ty == 1 {
        let mut q = content_start;
        while q < content_end {
            assert_eq!(bytes[q] as usize, depth + 1, "child depth must be parent+1");
            q = check_record(bytes, q);
        }
        assert_eq!(q, content_end, "children must tile the content range");
    }
    content_end
}

#[test]
fn size_and_depth_fields_consistent_after_actions() {
    let mut db = Database::fresh(String::from("t6"));
    db.insert("users", doc3("Joel", "ILoveErd", 30));
    db.insert("admins", doc3("Root", "s3cret", -1));
    db.execute().unwrap();
    let mut patch = JrDocument::new();
    patch.add_value("name", String::from("LongerNameHere"));
    db.update("users", patch);
    db.execute().unwrap();
    db.delete("admins");
    db.execute().unwrap();
    let bytes = db.bytes();
    let end = check_record(bytes.as_slice(), 0);
    assert_eq!(end, bytes.len(), "the file is exactly the root record");
    assert_eq!(be32(&bytes.as_slice()[3..7]), bytes.len(), "root size equals buffer length");
}

#[test]
fn count_field_never_decreases() {
    let mut db = Database::fresh(String::from("t7"));
    db.insert("users", doc3("A", "a", 1));
    db.insert("users", doc3("B", "b", 2));
    db.execute().unwrap();
    let count_of = |db: &Database| -> usize {
        // the collection is the first child of the root
        let bytes = db.bytes();
        let root_key_len = bytes[2] as usize;
        let c = 7 + root_key_len;
        assert_eq!(bytes[c + 1], 1, "first child is a collection");
        be32(&bytes.as_slice()[c + 7..c + 11])
    };
    assert_eq!(count_of(&db), 2);
    db.delete("users");
    db.execute().unwrap();
    assert_eq!(count_of(&db), 2, "delete keeps the count as a next-id counter");
    db.select("users");
    let col = db.execute().unwrap();
    assert_eq!(col.len(), 0);
    db.insert("users", doc3("C", "c", 3));
    db.execute().unwrap();
    assert_eq!(count_of(&db), 3);
    db.select("users");
    let col = db.execute().unwrap();
    assert_eq!(col.len(), 1);
    assert_eq!(col.get(0).get_value("_id"), Ok(String::from("3")));
}

#[test]
fn select_twice_returns_equal_results() {
    let mut db = Database::fresh(String::from("t8"));
    db.insert("users", doc3("Joel", "ILoveErd", 30));
    db.insert("users", doc3("Mathew", "ILoveERD", 400));
    db.execute().unwrap();
    let before = db.bytes().clone();
    db.select("users");
    db.condition(cmp_cond(ConditionType::Gt, "age", "100"));
    let col1 = db.execute().unwrap();
    db.select("users");
    db.condition(cmp_cond(ConditionType::Gt, "age", "100"));
    let col2 = db.execute().unwrap();
    assert_eq!(db.bytes(), &before, "select does not mutate the image");
    assert_eq!(col1.len(), col2.len());
    for i in 0..col1.len() {
        let a = col1.get(i);
        let b = col2.get(i);
        let a_id: Result<String, &str> = a.get_value("_id");
        let b_id: Result<String, &str> = b.get_value("_id");
        assert_eq!(a_id, b_id);
        let a_name: Result<String, &str> = a.get_value("name");
        let b_name: Result<String, &str> = b.get_value("name");
        assert_eq!(a_name, b_name);
        let a_age: Result<i64, &str> = a.get_value("age");
        let b_age: Result<i64, &str> = b.get_value("age");
        assert_eq!(a_age, b_age);
    }
    assert_eq!(col1.len(), 1);
    assert_eq!(col1.get(0).get_value("name"), Ok(String::from("Mathew")));
}

#[test]
fn comparison_operators_follow_their_names() {
    let mut db = Database::fresh(String::from("t9"));
    db.insert("users", doc3("Joel", "ILoveErd", 30));
    db.insert("users", doc3("Mathew", "ILoveERD", 400));
    db.execute().unwrap();
    let run = |db: &mut Database, kind: ConditionType, l: &str, r: &str| -> usize {
        db.select("users");
        db.condition(cmp_cond(kind, l, r));
        db.execute().unwrap().len()
    };
    assert_eq!(run(&mut db, ConditionType::Gt, "age", "30"), 1);
    assert_eq!(run(&mut db, ConditionType::NGt, "age", "30"), 1);
    assert_eq!(run(&mut db, ConditionType::GtE, "age", "30"), 2);
    assert_eq!(run(&mut db, ConditionType::NGtE, "age", "30"), 0);
    assert_eq!(run(&mut db, ConditionType::St, "age", "400"), 1);
    assert_eq!(run(&mut db, ConditionType::NSt, "age", "400"), 1);
    assert_eq!(run(&mut db, ConditionType::StE, "age", "400"), 2);
    assert_eq!(run(&mut db, ConditionType::NStE, "age", "400"), 0);
    assert_eq!(run(&mut db, ConditionType::NEq, "name", "'Joel'"), 1);
    assert_eq!(run(&mut db, ConditionType::Eq, "age", "'30'"), 1);
    assert_eq!(run(&mut db, ConditionType::Eq, "missing", "1"), 0);
}

#[test]
fn and_or_conditions() {
    let mut db = Database::fresh(String::from("t10"));
    db.insert("users", doc3("Joel", "ILoveErd", 30));
    db.insert("users", doc3("Mathew", "ILoveERD", 400));
    db.execute().unwrap();

    let mut both = JrCondition::and();
    both.add_cond(eq_cond("name", "'Joel'"));
    both.add_cond(eq_cond("age", "30"));
    db.select("users");
    db.condition(both);
    assert_eq!(db.execute().unwrap().len(), 1);

    let mut either = JrCondition::or();
    either.add_cond(eq_cond("name", "'Joel'"));
    either.add_cond(eq_cond("name", "'Mathew'"));
    db.select("users");
    db.condition(either);
    assert_eq!(db.execute().unwrap().len(), 2);

    db.select("users");
    db.condition(JrCondition::and());
    assert_eq!(db.execute().unwrap().len(), 2, "empty conjunction holds");

    db.select("users");
    db.condition(JrCondition::or());
    assert_eq!(db.execute().unwrap().len(), 0, "empty disjunction fails");
}

#[test]
fn corrupt_header_is_reported() {
    let mut db = Database::from_bytes(String::from("bad"), vec![0, 0, 4]);
    db.select("users");
    let err = db.execute().map(|_| ()).unwrap_err();
    assert_eq!(err, JrError::CorruptHeader);
}

#[test]
fn corrupt_structure_is_reported() {
    // A root of size 18 whose single child claims 10 bytes, overrunning the
    // root's content range while staying inside the buffer.
    let mut bytes = vec![
        0x00, 0x00, 0x04, 0x00, 0x00, 0x00, 0x12, b'r', b'o', b'o', b't',
        0x01, 0x02, 0x00, 0x00, 0x00, 0x00, 0x0A,
    ];
    bytes.extend_from_slice(&[0u8; 7]);
    let mut db = Database::from_bytes(String::from("bad2"), bytes);
    db.select("users");
    let err = db.execute().map(|_| ()).unwrap_err();
    assert_eq!(err, JrError::CorruptStructure);
}

#[test]
fn unsupported_patch_type_is_reported() {
    let mut db = Database::fresh(String::from("t11"));
    db.insert("users", doc3("Joel", "ILoveErd", 30));
    db.execute().unwrap();
    let mut patch = JrDocument::new();
    AddGet::<JrDocument>::add(&mut patch, "inner", JrDocument::new());
    db.update("users", patch);
    let err = db.execute().map(|_| ()).unwrap_err();
    assert_eq!(err, JrError::UnsupportedPatchType);
}

#[test]
fn update_appends_missing_field_and_patches_integers() {
    let mut db = Database::fresh(String::from("t12"));
    db.insert("users", doc3("Joel", "ILoveErd", 30));
    db.execute().unwrap();
    let mut patch = JrDocument::new();
    patch.add_value("age", 31i64);
    patch.add_value("email", String::from("joel@example.test"));
    db.update("users", patch);
    db.execute().unwrap();
    db.select("users");
    let col = db.execute().unwrap();
    assert_eq!(col.len(), 1);
    let d = col.get(0);
    assert_eq!(d.get_value("age"), Ok(31i64));
    assert_eq!(d.get_value("email"), Ok(String::from("joel@example.test")));
    assert_eq!(d.get_value("name"), Ok(String::from("Joel")));
    let bytes = db.bytes();
    assert_eq!(check_record(bytes.as_slice(), 0), bytes.len());
}

#[test]
fn nested_values_encode_consistently() {
    let mut db = Database::fresh(String::from("t13"));
    let mut inner = JrDocument::new();
    inner.add_value("city", String::from("Oslo"));
    let mut col_inner = jrdb::jrdb_type::JrCollection::new();
    let mut member = JrDocument::new();
    member.add_value("n", 1i64);
    col_inner.add(member);
    let mut doc = doc3("Joel", "ILoveErd", 30);
    AddGet::<JrDocument>::add(&mut doc, "address", inner);
    AddGet::<jrdb::jrdb_type::JrCollection>::add(&mut doc, "tags", col_inner);
    db.insert("users", doc);
    db.execute().unwrap();
    let bytes = db.bytes();
    assert_eq!(check_record(bytes.as_slice(), 0), bytes.len());
    db.select("users");
    let col = db.execute().unwrap();
    assert_eq!(col.len(), 1);
    // nested records are passed over by select; plain fields come back
    assert_eq!(col.get(0).get_value("name"), Ok(String::from("Joel")));
}

#[test]
fn reopening_from_bytes_reads_the_same_documents() {
    let mut db = Database::fresh(String::from("t14"));
    db.insert("users", doc3("Joel", "ILoveErd", 30));
    db.insert("users", doc3("Mathew", "ILoveERD", 400));
    db.execute().unwrap();
    let image = db.bytes().clone();
    let mut db2 = Database::from_bytes(String::from("t14copy"), image);
    db2.select("users");
    let col = db2.execute().unwrap();
    assert_eq!(col.len(), 2);
    assert_eq!(col.get(0).get_value("name"), Ok(String::from("Joel")));
    assert_eq!(col.get(0).get_value("pass"), Ok(String::from("ILoveErd")));
    assert_eq!(col.get(0).get_value("age"), Ok(30i64));
    assert_eq!(col.get(1).get_value("name"), Ok(String::from("Mathew")));
}
