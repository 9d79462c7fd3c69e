use db_server::{Response, Storage};

fn value_of(r: Response) -> String {
    match r {
        Response::GetSuccess(value) => value,
        other => panic!("expected a retrieved value, got {:?}", other),
    }
}

#[test]
fn set_then_get_returns_the_value() {
    let mut st = Storage::new();
    let r = st.set(String::from("k"), String::from("v"));
    assert!(matches!(r, Response::SetSuccess));
    assert_eq!(value_of(st.get("k")), "v");
}

#[test]
fn get_on_an_unset_key_is_not_found() {
    let st = Storage::new();
    assert!(matches!(st.get("missing"), Response::NotFound));
    let mut st = Storage::new();
    st.set(String::from("a"), String::from("1"));
    st.set(String::from("b"), String::from("2"));
    assert!(matches!(st.get("missing"), Response::NotFound));
}

#[test]
fn overwrite_keeps_only_the_second_value() {
    let mut st = Storage::new();
    st.set(String::from("k"), String::from("v1"));
    st.set(String::from("k"), String::from("v2"));
    assert_eq!(value_of(st.get("k")), "v2");
}

#[test]
fn overwrite_leaves_other_keys_alone() {
    let mut st = Storage::new();
    st.set(String::from("a"), String::from("1"));
    st.set(String::from("b"), String::from("2"));
    st.set(String::from("a"), String::from("3"));
    assert_eq!(value_of(st.get("a")), "3");
    assert_eq!(value_of(st.get("b")), "2");
}

#[test]
fn save_and_load_round_trip() {
    let mut st = Storage::new();
    st.set(String::from("color"), String::from("red"));
    st.set(String::from("empty"), String::from(""));
    st.set(String::from("spaced key"), String::from("two words"));
    st.set(String::from("semi;colon"), String::from("per%cent"));
    let text = st.save();
    let reloaded = Storage::load(&text).expect("a saved snapshot must load");
    assert_eq!(value_of(reloaded.get("color")), "red");
    assert_eq!(value_of(reloaded.get("empty")), "");
    assert_eq!(value_of(reloaded.get("spaced key")), "two words");
    assert_eq!(value_of(reloaded.get("semi;colon")), "per%cent");
    assert!(matches!(reloaded.get("missing"), Response::NotFound));
}

#[test]
fn snapshot_text_is_the_escaped_pairs() {
    let mut st = Storage::new();
    st.set(String::from("k"), String::from("v"));
    assert_eq!(st.save(), "k;v;");
    let mut st = Storage::new();
    st.set(String::from("a;b"), String::from("c%d"));
    assert_eq!(st.save(), "a%sb;c%pd;");
}

#[test]
fn empty_snapshot_loads_to_an_empty_store() {
    let st = Storage::load("").expect("an empty snapshot must load");
    assert!(matches!(st.get("anything"), Response::NotFound));
}

#[test]
fn corrupt_snapshots_are_rejected() {
    assert!(Storage::load("abc").is_none());
    assert!(Storage::load("a;b").is_none());
    assert!(Storage::load("k;v;x").is_none());
    assert!(Storage::load("%x;v;").is_none());
    assert!(Storage::load("k;%").is_none());
}

#[test]
fn a_duplicated_key_ends_at_its_last_value() {
    let st = Storage::load("a;1;a;2;").expect("a well-formed snapshot must load");
    assert_eq!(value_of(st.get("a")), "2");
}
