use ion_win::functions::parse_params;
use ion_win::types::TypeTag;

#[test]
fn parses_typed_and_array_params_with_docstring() {
    let tokens: Vec<String> = "name age:int hobbies:[str] -- greets someone"
        .split_whitespace()
        .map(String::from)
        .collect();
    let (params, doc) = parse_params(&tokens);
    assert_eq!(params.len(), 3);
    assert_eq!(params[0].name, "name");
    assert!(!params[0].array && params[0].ty.is_none());
    assert_eq!(params[1].name, "age");
    assert_eq!(params[1].ty, Some(TypeTag::Int));
    assert_eq!(params[2].name, "hobbies");
    assert!(params[2].array);
    assert_eq!(params[2].ty, Some(TypeTag::Str));
    assert_eq!(doc.as_deref(), Some("greets someone"));
}
