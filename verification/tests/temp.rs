use hybrid_mount::sys::temp::{name_from_bytes, random_name, MIN_NAME_LEN, NAME_ALPHABET, NAME_LEN_VARIANTS};

#[test]
fn random_names_have_no_project_or_time_signature() {
    let first = random_name().unwrap();
    let second = random_name().unwrap();

    assert_ne!(first, second);
    assert!((MIN_NAME_LEN..MIN_NAME_LEN + NAME_LEN_VARIANTS).contains(&first.len()));
    assert!(first.bytes().all(|byte| NAME_ALPHABET.as_bytes().contains(&byte)));
    assert!(!first.to_ascii_lowercase().contains("hybrid"));
}

#[test]
fn name_bytes_choose_length_and_characters() {
    let mut random = [0u8; 31];
    random[0] = 8;
    random[1] = 0;
    random[2] = 61;
    random[3] = 62;
    random[4] = 26;
    let name = name_from_bytes(&random);
    assert_eq!(name.len(), 30);
    assert!(name.starts_with("a9aA"));

    random[0] = 9;
    assert_eq!(name_from_bytes(&random).len(), 22);
}
