use task_store::LoadError;
use task_store::Task;
use task_store::TodoList;

fn assert_same(a: &TodoList, b: &TodoList) {
    let ta = a.tasks();
    let tb = b.tasks();
    assert_eq!(ta.len(), tb.len());
    for k in 0..ta.len() {
        assert_eq!(ta[k].id, tb[k].id);
        assert_eq!(ta[k].description, tb[k].description);
        assert_eq!(ta[k].completed, tb[k].completed);
    }
}

#[test]
fn encode_empty_store() {
    let tl = TodoList::new();
    assert_eq!(tl.encode(), "[]");
}

#[test]
fn encode_exact_text() {
    let mut tl = TodoList::new();
    tl.add_task(String::from("Buy milk"));
    assert_eq!(
        tl.encode(),
        "[{\"id\":1,\"description\":\"Buy milk\",\"completed\":false}]"
    );
    tl.mark_completed(1);
    tl.add_task(String::from("Walk dog"));
    assert_eq!(
        tl.encode(),
        "[{\"id\":1,\"description\":\"Buy milk\",\"completed\":true},{\"id\":2,\"description\":\"Walk dog\",\"completed\":false}]"
    );
}

#[test]
fn encode_escapes_quote_and_backslash() {
    let mut tl = TodoList::new();
    tl.add_task(String::from("say \"hi\" \\ bye"));
    assert_eq!(
        tl.encode(),
        "[{\"id\":1,\"description\":\"say \\\"hi\\\" \\\\ bye\",\"completed\":false}]"
    );
}

#[test]
fn round_trip_plain_store() {
    let mut tl = TodoList::new();
    tl.add_task(String::from("one"));
    tl.add_task(String::from("two"));
    tl.add_task(String::from("three"));
    tl.mark_completed(2);
    let text = tl.encode();
    let back = TodoList::decode(&text).unwrap();
    assert_same(&tl, &back);
}

#[test]
fn round_trip_empty_store() {
    let tl = TodoList::new();
    let back = TodoList::decode(&tl.encode()).unwrap();
    assert_eq!(back.len(), 0);
}

#[test]
fn round_trip_awkward_descriptions() {
    let mut tl = TodoList::new();
    tl.add_task(String::new());
    tl.add_task(String::from("quote \" backslash \\ done"));
    tl.add_task(String::from("tabs\tand\nnewlines"));
    tl.add_task(String::from("unicode: наприклад ✓"));
    let back = TodoList::decode(&tl.encode()).unwrap();
    assert_same(&tl, &back);
}

#[test]
fn round_trip_after_id_collision() {
    let mut tl = TodoList::new();
    tl.add_task(String::from("a"));
    tl.add_task(String::from("b"));
    tl.remove_task(1);
    tl.add_task(String::from("c"));
    let back = TodoList::decode(&tl.encode()).unwrap();
    assert_same(&tl, &back);
}

#[test]
fn decode_rejects_garbage() {
    assert!(matches!(
        TodoList::decode(""),
        Err(LoadError::Malformed)
    ));
    assert!(matches!(
        TodoList::decode("not a list"),
        Err(LoadError::Malformed)
    ));
    assert!(matches!(
        TodoList::decode("["),
        Err(LoadError::Malformed)
    ));
    assert!(matches!(
        TodoList::decode("[]x"),
        Err(LoadError::Malformed)
    ));
    assert!(matches!(
        TodoList::decode("{}"),
        Err(LoadError::Malformed)
    ));
    assert!(matches!(
        TodoList::decode("[{\"id\":1}]"),
        Err(LoadError::Malformed)
    ));
    assert!(matches!(
        TodoList::decode("[{\"id\":1,\"description\":\"x\",\"completed\":false}"),
        Err(LoadError::Malformed)
    ));
    assert!(matches!(
        TodoList::decode("[{\"id\":1,\"description\":\"x\",\"completed\":false}]trail"),
        Err(LoadError::Malformed)
    ));
    assert!(matches!(
        TodoList::decode("[{\"id\":1,\"description\":\"x\",\"completed\":maybe}]"),
        Err(LoadError::Malformed)
    ));
    assert!(matches!(
        TodoList::decode("[{\"id\":1,\"description\":\"x\",\"completed\":false},]"),
        Err(LoadError::Malformed)
    ));
    assert!(matches!(
        TodoList::decode("[{\"id\":1,\"description\":\"bad \\q escape\",\"completed\":false}]"),
        Err(LoadError::Malformed)
    ));
}

#[test]
fn decode_id_bounds() {
    let ok = TodoList::decode(
        "[{\"id\":4294967295,\"description\":\"big\",\"completed\":true}]",
    )
    .unwrap();
    assert_eq!(ok.tasks()[0].id, u32::MAX);
    assert!(ok.tasks()[0].completed);
    assert!(matches!(
        TodoList::decode("[{\"id\":4294967296,\"description\":\"too big\",\"completed\":true}]"),
        Err(LoadError::Malformed)
    ));
    assert!(matches!(
        TodoList::decode("[{\"id\":,\"description\":\"no digits\",\"completed\":true}]"),
        Err(LoadError::Malformed)
    ));
}

#[test]
fn decode_accepts_rebuilt_store() {
    let tasks = vec![
        Task { id: 7, description: String::from("seven"), completed: true },
        Task { id: 7, description: String::from("again"), completed: false },
    ];
    let tl = TodoList::from_tasks(tasks);
    let back = TodoList::decode(&tl.encode()).unwrap();
    assert_same(&tl, &back);
}

#[test]
fn or_empty_substitutes_empty_store_on_failure() {
    let fallen = TodoList::or_empty(Err(LoadError::Unreadable));
    assert_eq!(fallen.len(), 0);
    let fallen2 = TodoList::or_empty(TodoList::decode("broken"));
    assert_eq!(fallen2.len(), 0);
    let mut tl = TodoList::new();
    tl.add_task(String::from("kept"));
    let kept = TodoList::or_empty(Ok(tl));
    assert_eq!(kept.len(), 1);
    assert_eq!(kept.tasks()[0].description, "kept");
}

#[test]
fn load_failure_kinds_are_distinct() {
    assert_ne!(LoadError::Unreadable, LoadError::Malformed);
    assert!(matches!(
        TodoList::decode("?"),
        Err(LoadError::Malformed)
    ));
}

#[test]
fn encoded_text_is_json_readable() {
    let mut tl = TodoList::new();
    tl.add_task(String::from("Buy milk"));
    tl.add_task(String::from("say \"hi\""));
    tl.mark_completed(2);
    let text = tl.encode();
    let v: serde_json::Value = serde_json::from_str(&text).unwrap();
    let arr = v.as_array().unwrap();
    assert_eq!(arr.len(), 2);
    assert_eq!(arr[0].get("id").unwrap().as_u64(), Some(1));
    assert_eq!(arr[0].get("description").unwrap().as_str(), Some("Buy milk"));
    assert_eq!(arr[0].get("completed").unwrap().as_bool(), Some(false));
    assert_eq!(arr[1].get("id").unwrap().as_u64(), Some(2));
    assert_eq!(arr[1].get("description").unwrap().as_str(), Some("say \"hi\""));
    assert_eq!(arr[1].get("completed").unwrap().as_bool(), Some(true));
}
