use provider_proxy::json::{array_elements, object_fields, object_members, record_fields};

#[test]
fn elements_are_given_as_written() {
    let v = array_elements(b"[ 1 , \"a\\n\",{ } ,[2, 3]]").unwrap();
    assert_eq!(v, vec![&b"1"[..], &b"\"a\\n\""[..], &b"{ }"[..], &b"[2, 3]"[..]]);
    assert!(array_elements(b"[\t]").unwrap().is_empty());
    assert!(array_elements(b"[1] ").is_none());
    assert!(array_elements(b"{}").is_none());
}

#[test]
fn members_are_given_in_order() {
    let v = object_members(b"{\"a\" : 1,\"\\u0062\":null , \"a\":[]}").unwrap();
    let keys: Vec<&str> = v.iter().map(|m| m.0.as_str()).collect();
    assert_eq!(keys, vec!["a", "b", "a"]);
    assert_eq!(v[0].1, b"1");
    assert_eq!(v[1].1, b"null");
    assert_eq!(v[2].1, b"[]");
    assert!(object_members(b"[]").is_none());
    assert!(object_members(b"{\"a\":1").is_none());
}

#[test]
fn fields_are_found_by_name() {
    let one: &[u8] = b"1";
    let two: &[u8] = b"2";
    let members = vec![("x".to_string(), one), ("b".to_string(), two), ("x".to_string(), two)];
    assert_eq!(object_fields(&members, &["a", "b"]), Some(vec![None, Some(two)]));
    assert_eq!(object_fields(&members, &["x"]), None);
}

#[test]
fn fields_of_a_list_go_by_position() {
    let v = record_fields(b"[1,2]", &["a", "b", "c"]).unwrap();
    assert_eq!(v, vec![Some(&b"1"[..]), Some(&b"2"[..]), None]);
    assert!(record_fields(b"[1,2]", &["a"]).is_none());
    assert!(record_fields(b"7", &["a"]).is_none());
}
