use fvcs::avatar::{avatar_description, avatar_info, readme_from_avatar};
use fvcs::readme::README_FOOTER;

#[test]
fn avatar_fields_are_read() {
    let data = br#"{"name":"CoolAvatar","description":"A very cool avatar","authors":["Ann",3,"Bo"]}"#;
    let info = avatar_info(data).unwrap();
    assert_eq!(info.name, "CoolAvatar");
    assert_eq!(info.description.as_deref(), Some("A very cool avatar"));
    assert_eq!(info.authors, vec!["Ann".to_string(), "Bo".to_string()]);
}

#[test]
fn avatar_without_name_or_json() {
    assert!(avatar_info(br#"{"description":"x"}"#).is_none());
    assert!(avatar_info(br#"{"name":5}"#).is_none());
    assert!(avatar_info(b"not json").is_none());
    assert!(avatar_info(br#"["name"]"#).is_none());
    let bare = avatar_info(br#"{"name":"X","authors":"Ann"}"#).unwrap();
    assert!(bare.description.is_none());
    assert!(bare.authors.is_empty());
}

#[test]
fn avatar_description_alone() {
    assert_eq!(avatar_description(br#"{"description":"d"}"#).as_deref(), Some("d"));
    assert!(avatar_description(br#"{"description":null,"name":"n"}"#).is_none());
}

#[test]
fn readme_generated_from_avatar_json() {
    let data = br#"{"name":"CoolAvatar","description":"A very cool avatar","authors":["Ann","Bo"]}"#;
    assert_eq!(
        readme_from_avatar(data).unwrap(),
        format!("# CoolAvatar\n\nA very cool avatar\n\nby Ann, Bo\n\n{README_FOOTER}")
    );
    assert_eq!(readme_from_avatar(br#"{"name":"X"}"#).unwrap(), format!("# X\n\n{README_FOOTER}"));
    assert!(readme_from_avatar(b"{}").is_none());
}

#[test]
fn only_string_items_are_kept() {
    let items = vec![Some("Ann".to_string()), None, Some("".to_string()), None, Some("Bo".to_string())];
    assert_eq!(fvcs::avatar::string_items(&items), vec!["Ann".to_string(), "".to_string(), "Bo".to_string()]);
    assert!(fvcs::avatar::string_items(&vec![None, None]).is_empty());
}
