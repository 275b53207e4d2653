use todo_store::codec::load;
use todo_store::error::ApiError;
use todo_store::record::{Todo, TodoFile};
use todo_store::service::{delete_item, index, post_data, return_list, save_outcome};

const EMPTY: &str = "{\"todo_list\":[]}";

fn todo(title: &str, content: &str) -> Todo {
    Todo { title: title.to_string(), content: content.to_string() }
}

fn titles(f: &TodoFile) -> Vec<String> {
    f.todo_list.iter().map(|t| t.title.clone()).collect()
}

#[test]
fn scenario_post_list_get_delete() {
    let doc = post_data(EMPTY, "a".to_string(), "x".to_string()).unwrap();
    assert_eq!(doc, "{\"todo_list\":[{\"title\":\"a\",\"content\":\"x\"}]}");
    let listed = return_list(&doc, None).unwrap();
    let all = load(&listed).unwrap();
    assert_eq!(all.todo_list.len(), 1);
    assert_eq!(all.todo_list[0].title, "a");
    assert_eq!(all.todo_list[0].content, "x");
    assert_eq!(return_list(&doc, Some(&"a".to_string())).unwrap(), "x");
    let doc = delete_item(&doc, &"a".to_string()).unwrap();
    assert_eq!(doc, EMPTY);
    assert!(matches!(return_list(&doc, Some(&"a".to_string())), Err(ApiError::NotFound)));
}

#[test]
fn create_then_find_gives_new_record() {
    let mut f = TodoFile { todo_list: vec![todo("one", "1"), todo("two", "2")] };
    assert!(f.create("three".to_string(), "3".to_string()).is_ok());
    let found = f.find_by_title(&"three".to_string()).unwrap();
    assert_eq!(found.title, "three");
    assert_eq!(found.content, "3");
    assert_eq!(titles(&f), vec!["one", "two", "three"]);
}

#[test]
fn find_is_exact_and_case_sensitive() {
    let f = TodoFile { todo_list: vec![todo("Alpha", "1"), todo("alpha", "2")] };
    assert_eq!(f.find_by_title(&"alpha".to_string()).unwrap().content, "2");
    assert!(matches!(f.find_by_title(&"alp".to_string()), Err(ApiError::NotFound)));
    assert_eq!(f.position_of(&"Alpha".to_string()), Some(0));
    assert_eq!(f.position_of(&"beta".to_string()), None);
}

#[test]
fn find_returns_first_of_duplicates() {
    let f = TodoFile { todo_list: vec![todo("a", "first"), todo("a", "second")] };
    assert_eq!(f.find_by_title(&"a".to_string()).unwrap().content, "first");
}

#[test]
fn duplicate_create_fails_and_writes_nothing() {
    let mut f = TodoFile { todo_list: vec![todo("a", "x")] };
    assert!(matches!(f.create("a".to_string(), "y".to_string()), Err(ApiError::AlreadyExists)));
    assert_eq!(f.todo_list.len(), 1);
    assert_eq!(f.todo_list[0].content, "x");
    let doc = "{\"todo_list\":[{\"title\":\"a\",\"content\":\"x\"}]}";
    assert!(matches!(
        post_data(doc, "a".to_string(), "other".to_string()),
        Err(ApiError::AlreadyExists)
    ));
}

#[test]
fn delete_then_find_is_not_found() {
    let mut f = TodoFile { todo_list: vec![todo("a", "1"), todo("b", "2")] };
    f.delete_by_title(&"a".to_string());
    assert!(matches!(f.find_by_title(&"a".to_string()), Err(ApiError::NotFound)));
    assert_eq!(titles(&f), vec!["b"]);
}

#[test]
fn delete_absent_title_keeps_collection() {
    let mut f = TodoFile { todo_list: vec![todo("a", "1"), todo("b", "2")] };
    f.delete_by_title(&"zzz".to_string());
    assert_eq!(titles(&f), vec!["a", "b"]);
    let doc = "{\"todo_list\":[{\"title\":\"a\",\"content\":\"1\"}]}";
    assert_eq!(delete_item(doc, &"zzz".to_string()).unwrap(), doc);
}

#[test]
fn delete_removes_every_match_in_order() {
    let doc = "{\"todo_list\":[{\"title\":\"a\",\"content\":\"1\"},{\"title\":\"b\",\"content\":\"2\"},\
               {\"title\":\"a\",\"content\":\"3\"},{\"title\":\"c\",\"content\":\"4\"}]}";
    let out = delete_item(doc, &"a".to_string()).unwrap();
    assert_eq!(
        out,
        "{\"todo_list\":[{\"title\":\"b\",\"content\":\"2\"},{\"title\":\"c\",\"content\":\"4\"}]}"
    );
}

#[test]
fn round_trip_keeps_records_and_order() {
    let f = TodoFile {
        todo_list: vec![
            todo("quote \" and \\ backslash", "line\nbreak\ttab"),
            todo("", ""),
            todo("caf\u{e9} \u{1F600}", "\u{1}control"),
            todo("b", "z"),
        ],
    };
    let text = f.to_json_string();
    let back = load(&text).unwrap();
    assert_eq!(back.todo_list.len(), f.todo_list.len());
    for (a, b) in back.todo_list.iter().zip(f.todo_list.iter()) {
        assert_eq!(a.title, b.title);
        assert_eq!(a.content, b.content);
    }
}

#[test]
fn writes_escaped_strings() {
    let f = TodoFile { todo_list: vec![todo("say \"hi\"", "a\\b")] };
    assert_eq!(
        f.to_json_string(),
        "{\"todo_list\":[{\"title\":\"say \\\"hi\\\"\",\"content\":\"a\\\\b\"}]}"
    );
}

#[test]
fn writes_control_characters_escaped() {
    let f = TodoFile { todo_list: vec![todo("a\u{1}b\u{1f}", "t\tn\nr\rb\u{8}f\u{c}\u{7f}\u{e9}")] };
    assert_eq!(
        f.to_json_string(),
        "{\"todo_list\":[{\"title\":\"a\\u0001b\\u001f\",\"content\":\"t\\tn\\nr\\rb\\bf\\f\u{7f}\u{e9}\"}]}"
    );
}

#[test]
fn empty_collection_document() {
    assert_eq!(TodoFile::new().to_json_string(), EMPTY);
    assert_eq!(load(EMPTY).unwrap().todo_list.len(), 0);
}

#[test]
fn load_accepts_whitespace_escapes_and_either_key_order() {
    let text = " {\n  \"todo_list\" : [\n    { \"content\" : \"x\" , \"title\" : \"\\u0061\" },\n    {\"title\":\"b\",\"content\":\"y\"}\n  ]\n}\n";
    let f = load(text).unwrap();
    assert_eq!(f.todo_list.len(), 2);
    assert_eq!(f.todo_list[0].title, "a");
    assert_eq!(f.todo_list[0].content, "x");
    assert_eq!(f.todo_list[1].title, "b");
    assert_eq!(f.todo_list[1].content, "y");
}

#[test]
fn load_rejects_malformed_documents() {
    for bad in [
        "",
        "{",
        "{\"todo_list\":[}",
        "{\"todo\":[]}",
        "{\"todo_list\":[]} extra",
        "{\"todo_list\":[{\"title\":\"a\"}]}",
        "{\"todo_list\":[{\"title\":\"a\",\"title\":\"b\"}]}",
        "{\"todo_list\":[{\"title\":\"a\",\"content\":\"x\"},]}",
        "{\"todo_list\":[{\"title\":\"a\\q\",\"content\":\"x\"}]}",
        "[]",
    ] {
        assert!(matches!(load(bad), Err(ApiError::Parse)), "accepted {:?}", bad);
    }
    assert!(matches!(return_list("{", None), Err(ApiError::Parse)));
    assert!(matches!(post_data("nope", "a".to_string(), "x".to_string()), Err(ApiError::Parse)));
    assert!(matches!(delete_item("nope", &"a".to_string()), Err(ApiError::Parse)));
}

#[test]
fn distinct_titles_all_created() {
    let mut f = TodoFile::new();
    for i in 0..20 {
        assert!(f.create(format!("t{}", i), format!("c{}", i)).is_ok());
    }
    assert_eq!(f.todo_list.len(), 20);
    for i in 0..20 {
        assert_eq!(f.find_by_title(&format!("t{}", i)).unwrap().content, format!("c{}", i));
    }
}

#[test]
fn same_title_created_once() {
    let mut doc = EMPTY.to_string();
    let mut ok = 0;
    let mut exists = 0;
    for i in 0..8 {
        match post_data(&doc, "same".to_string(), format!("v{}", i)) {
            Ok(next) => {
                ok += 1;
                doc = next;
            }
            Err(ApiError::AlreadyExists) => exists += 1,
            Err(e) => panic!("unexpected {:?}", e),
        }
    }
    assert_eq!(ok, 1);
    assert_eq!(exists, 7);
    assert_eq!(return_list(&doc, Some(&"same".to_string())).unwrap(), "v0");
}

#[test]
fn save_outcome_zero_bytes_fails() {
    assert!(matches!(save_outcome(0), Err(ApiError::FailedSaving)));
    assert_eq!(save_outcome(12).unwrap(), "Success saving\n");
}

#[test]
fn errors_map_to_status_and_message() {
    assert_eq!(ApiError::NotFound.status_code(), 404);
    assert_eq!(ApiError::NotFound.message(), "Entry not found");
    assert_eq!(ApiError::AlreadyExists.status_code(), 400);
    assert_eq!(ApiError::AlreadyExists.message(), "The item with the same title already exists");
    assert_eq!(ApiError::Io("disk full".to_string()).status_code(), 500);
    assert_eq!(ApiError::Io("disk full".to_string()).message(), "disk full");
    assert_eq!(ApiError::FailedSaving.status_code(), 500);
    assert_eq!(ApiError::FailedSaving.message(), "Internal server error");
    assert_eq!(ApiError::Parse.status_code(), 500);
    assert_eq!(ApiError::Parse.message(), "Internal server error");
}

#[test]
fn root_greeting() {
    assert_eq!(index(), "Hello, todo list!");
}
