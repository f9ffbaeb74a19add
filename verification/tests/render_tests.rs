use dump_env::render::render;

fn to_items(xs: Vec<(&str, &str)>) -> Vec<(Vec<u8>, Vec<u8>)> {
    xs.into_iter()
        .map(|(k, v)| (k.as_bytes().to_vec(), v.as_bytes().to_vec()))
        .collect()
}

#[test]
fn test_render_lines() {
    let items = to_items(vec![("A", "1"), ("B", "2")]);
    let out = render(&items);
    assert_eq!(out, b"A=1\nB=2\n".to_vec());
}

#[test]
fn test_render_empty() {
    let items = vec![];
    let out = render(&items);
    assert_eq!(out, Vec::<u8>::new());
}
