use dump_env::join::{full_join, left_join};

fn to_items(xs: Vec<(&str, &str)>) -> Vec<(Vec<u8>, Vec<u8>)> {
    xs.into_iter()
        .map(|(k, v)| (k.as_bytes().to_vec(), v.as_bytes().to_vec()))
        .collect()
}

#[test]
fn test_left_join() {
    {
        let source = to_items(vec![("a", "1"), ("b", "2")]);
        let env = to_items(vec![("a", "10"), ("b", "20")]);
        let expect = env.clone();

        let result = left_join(source, &env);
        assert_eq!(result, expect);
    }

    {
        let source = to_items(vec![("a", "1"), ("b", "2")]);
        let env = to_items(vec![("b", "20")]);
        let expect = to_items(vec![("a", "1"), ("b", "20")]);

        let result = left_join(source, &env);
        assert_eq!(result, expect);
    }

    {
        let source = to_items(vec![("a", "1"), ("b", "2")]);
        let env = to_items(vec![("a", "10")]);
        let expect = to_items(vec![("a", "10"), ("b", "2")]);

        let result = left_join(source, &env);
        assert_eq!(result, expect);
    }

    {
        let source = to_items(vec![("a", "1"), ("b", "2"), ("c", "3")]);
        let env = to_items(vec![("a", "10")]);
        let expect = to_items(vec![("a", "10"), ("b", "2"), ("c", "3")]);

        let result = left_join(source, &env);
        assert_eq!(result, expect);
    }

    {
        let source = to_items(vec![("a", "1"), ("b", "2"), ("c", "3")]);
        let env = to_items(vec![("a", "10"), ("b", "20"), ("c", "5"), ("d", "4")]);
        let expect = to_items(vec![("a", "10"), ("b", "20"), ("c", "5")]);

        let result = left_join(source, &env);
        assert_eq!(result, expect);
    }
}

#[test]
fn test_full_join() {
    {
        let source = to_items(vec![("a", "1"), ("b", "2")]);
        let env = to_items(vec![("a", "10"), ("b", "20")]);
        let expect = env.clone();

        let result = full_join(source, env);
        assert_eq!(result, expect);
    }
    {
        let source = to_items(vec![("a", "1"), ("b", "2")]);
        let env = to_items(vec![("a", "10"), ("b", "20"), ("c", "30")]);
        let expect = env.clone();

        let result = full_join(source, env);
        assert_eq!(result, expect);
    }
}

#[test]
fn test_left_join_empty_template() {
    let env = to_items(vec![("a", "10"), ("b", "20")]);
    let result = left_join(vec![], &env);
    assert_eq!(result, vec![]);
}

#[test]
fn test_left_join_empty_env() {
    let source = to_items(vec![("a", "1"), ("b", "2")]);
    let result = left_join(source.clone(), &vec![]);
    assert_eq!(result, source);
}

#[test]
fn test_left_join_keeps_template_order() {
    let source = to_items(vec![("z", "1"), ("m", "2"), ("a", "3")]);
    let env = to_items(vec![("a", "30"), ("z", "10")]);
    let expect = to_items(vec![("z", "10"), ("m", "2"), ("a", "30")]);

    let result = left_join(source.clone(), &env);
    assert_eq!(result.len(), source.len());
    assert_eq!(result, expect);
}

#[test]
fn test_left_join_duplicate_template_keys() {
    let source = to_items(vec![("a", "1"), ("a", "2")]);
    let env = to_items(vec![("a", "10")]);
    let expect = to_items(vec![("a", "10"), ("a", "10")]);

    let result = left_join(source, &env);
    assert_eq!(result, expect);
}

#[test]
fn test_full_join_sorts_by_key() {
    let source = to_items(vec![("b", "2"), ("a", "1")]);
    let env = vec![];
    let expect = to_items(vec![("a", "1"), ("b", "2")]);

    let result = full_join(source, env);
    assert_eq!(result, expect);
}

#[test]
fn test_full_join_sort_is_bytewise() {
    // 'B' (0x42) sorts before 'a' (0x61): byte order, not case-folded order.
    let source = to_items(vec![("a", "1")]);
    let env = to_items(vec![("B", "2")]);
    let expect = to_items(vec![("B", "2"), ("a", "1")]);

    let result = full_join(source, env);
    assert_eq!(result, expect);
}

#[test]
fn test_full_join_dedups_extension() {
    let source = vec![];
    let env = to_items(vec![("a", "1"), ("a", "2")]);
    let expect = to_items(vec![("a", "1")]);

    let result = full_join(source, env);
    assert_eq!(result, expect);
}
