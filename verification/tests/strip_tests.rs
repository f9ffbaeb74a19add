use dump_env::strip::strip_prefixes;

fn to_items(xs: Vec<(&str, &str)>) -> Vec<(Vec<u8>, Vec<u8>)> {
    xs.into_iter()
        .map(|(k, v)| (k.as_bytes().to_vec(), v.as_bytes().to_vec()))
        .collect()
}

#[test]
fn test_strip_prefixes() {
    let prefixes = vec![b"test_".to_vec(), b"test2_".to_vec()];
    let env = to_items(vec![("test_a", "10"), ("test2_b", "20"), ("test_test2_c", "30")]);
    let expect = to_items(vec![("a", "10"), ("b", "20"), ("test2_c", "30")]);

    let result = strip_prefixes(&prefixes, env);
    assert_eq!(result, expect);
}

#[test]
fn test_strip_empty_prefix_list_is_identity() {
    let prefixes: Vec<Vec<u8>> = vec![];
    let env = to_items(vec![("test_a", "10"), ("b", "20")]);

    let result = strip_prefixes(&prefixes, env.clone());
    assert_eq!(result, env);
}

#[test]
fn test_strip_unmatched_keys_pass_through() {
    let prefixes = vec![b"ci_".to_vec()];
    let env = to_items(vec![("ci_a", "10"), ("home", "20")]);
    let expect = to_items(vec![("a", "10"), ("home", "20")]);

    let result = strip_prefixes(&prefixes, env);
    assert_eq!(result, expect);
}
