use zettel_web::directory::{read_contents, Entry};

fn raw_src() -> Vec<Entry> {
    vec![
        Entry::File("src/uri.rs".to_string()),
        Entry::Dir("src/handlers/".to_string()),
        Entry::File("src/lib.rs".to_string()),
        Entry::Link("src/latest".to_string()),
        Entry::Other("src/socket".to_string()),
        Entry::File("src/config.rs".to_string()),
    ]
}

#[test]
fn gets_dir_contents() {
    for e in read_contents("src/", raw_src()).into_iter() {
        println!("{e:?}");
    }
}

#[test]
fn listing_is_relative_and_ordered() {
    let listed = read_contents("src/", raw_src());
    assert_eq!(
        listed,
        vec![
            Entry::Dir("handlers/".to_string()),
            Entry::File("config.rs".to_string()),
            Entry::File("lib.rs".to_string()),
            Entry::File("uri.rs".to_string()),
            Entry::Link("latest".to_string()),
            Entry::Other("socket".to_string()),
        ]
    );
}

#[test]
fn entries_outside_base_are_left_out() {
    let listed = read_contents("src/", vec![Entry::File("other/x".to_string()), Entry::File("src/a".to_string())]);
    assert_eq!(listed, vec![Entry::File("a".to_string())]);
}

#[test]
fn strip_prefix_keeps_the_kind() {
    assert_eq!(Entry::Dir("base/x/".to_string()).strip_prefix("base/"), Some(Entry::Dir("x/".to_string())));
    assert_eq!(Entry::Link("elsewhere".to_string()).strip_prefix("base/"), None);
}
