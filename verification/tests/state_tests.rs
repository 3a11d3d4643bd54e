use widget_ui::strmap::StrMap;
use widget_ui::ui_state::UIState;
use widget_ui::value::{Array, Value, Var};
use widget_ui::widgets::Label;

fn text(v: &Var) -> Option<String> {
    v.text()
}

#[test]
fn strmap_insert_get_and_replace() {
    let mut m: StrMap<i32> = StrMap::new();
    assert_eq!(m.len(), 0);
    m.insert(String::from("a"), 1);
    m.insert(String::from("b"), 2);
    m.insert(String::from("a"), 3);
    assert_eq!(m.len(), 2);
    assert_eq!(m.get("a"), Some(&3));
    assert_eq!(m.get("b"), Some(&2));
    assert_eq!(m.get("c"), None);
    assert!(m.contains_key("b"));
    assert!(!m.contains_key("c"));
    let keys: Vec<&str> = m.entries().iter().map(|(k, _)| k.as_str()).collect();
    assert_eq!(keys, vec!["a", "b"]);
    m.clear();
    assert_eq!(m.len(), 0);
}

#[test]
fn set_then_get_gives_value() {
    let mut state = UIState::new();
    state.register("count", Var::Integer(0));
    assert_eq!(state.get("count").and_then(|v| v.as_integer()), Some(0));
    state.set("count", Var::Integer(5));
    assert_eq!(state.get("count").and_then(|v| v.as_integer()), Some(5));
    assert_eq!(state.value("count").as_integer(), Some(5));
    assert!(state.get("missing").is_none());
    assert_eq!(state.updates().len(), 0);
}

#[test]
fn set_records_last_bound_element_as_update() {
    let mut state = UIState::default();
    state.bind_one(4, "name");
    state.bind_one(9, "name");
    state.set("name", Var::from_str("x"));
    assert_eq!(state.updates().get("name"), Some(&9));
    state.clear_updates();
    assert_eq!(state.updates().len(), 0);
    state.set("other", Var::Integer(1));
    assert_eq!(state.updates().len(), 0);
}

#[test]
fn bind_appends_after_existing_bindings() {
    let mut state = UIState::new();
    state.bind_one(1, "a");
    let mut bindings = StrMap::new();
    bindings.insert(String::from("a"), vec![2, 3]);
    bindings.insert(String::from("b"), vec![7]);
    state.bind(bindings);
    state.set("a", Var::Integer(0));
    assert_eq!(state.updates().get("a"), Some(&3));
    state.set("b", Var::Integer(0));
    assert_eq!(state.updates().get("b"), Some(&7));
}

#[test]
fn var_accessors() {
    let i = Var::from(7);
    assert_eq!(i.as_integer(), Some(7));
    assert!(i.as_string().is_none());
    assert!(i.as_real_bits().is_none());
    let s = Var::from(String::from("hi"));
    assert_eq!(s.as_string().map(|s| s.as_str()), Some("hi"));
    assert!(s.as_array().is_none());
    let a = Var::from(Array::from(vec![Var::Integer(1), Var::Integer(2)]));
    assert_eq!(a.as_array().map(|a| a.data.len()), Some(2));
    let r = Var::Real(1.5f32.to_bits());
    assert_eq!(r.as_real_bits().map(f32::from_bits), Some(1.5));
}

#[test]
fn var_text() {
    assert_eq!(text(&Var::Integer(-42)).as_deref(), Some("-42"));
    assert_eq!(text(&Var::Integer(0)).as_deref(), Some("0"));
    assert_eq!(text(&Var::from_str("abc")).as_deref(), Some("abc"));
    let a = Array::from(vec![Var::Integer(1), Var::Integer(2), Var::Integer(3)]);
    assert_eq!(a.to_string(), "Array[3]");
    assert_eq!(text(&Var::Array(a)).as_deref(), Some("Array[3]"));
    assert_eq!(text(&Var::Real(0)), None);
}

#[test]
fn value_var_reads_binding_or_constant() {
    let mut state = UIState::new();
    state.register("title", Var::from_str("Hello"));
    let bound = Value::Binding(String::from("title"));
    assert_eq!(bound.var(&state).as_string().map(|s| s.as_str()), Some("Hello"));
    let constant = Value::from(Var::Integer(3));
    assert_eq!(constant.var(&state).as_integer(), Some(3));
}

#[test]
fn label_shows_its_constant_or_its_bound_value() {
    let mut ui_state = UIState::new();
    assert_eq!(Label::new(Value::Const(Var::Integer(-12))).shown_text(&ui_state), Some(String::from("-12")));
    let bound = Label::new(Value::Binding(String::from("count")));
    assert_eq!(bound.shown_text(&ui_state), None);
    ui_state.register("count", Var::String(String::from("five")));
    assert_eq!(bound.shown_text(&ui_state), Some(String::from("five")));
    assert_eq!(Label::new(Value::Const(Var::Real(0))).shown_text(&ui_state), None);
}

#[test]
fn values_clone_deeply() {
    let inner = Array { data: vec![Var::Integer(1), Var::String(String::from("x"))] };
    let v = Var::Array(Array { data: vec![Var::Array(inner), Var::Real(7)] });
    let c = v.clone();
    match (&v, &c) {
        (Var::Array(a), Var::Array(b)) => {
            assert_eq!(a.data.len(), b.data.len());
            assert!(matches!(&b.data[1], Var::Real(7)));
            match &b.data[0] {
                Var::Array(i) => {
                    assert!(matches!(&i.data[0], Var::Integer(1)));
                    assert!(matches!(&i.data[1], Var::String(s) if s == "x"));
                }
                _ => panic!("not an array"),
            }
        }
        _ => panic!("not an array"),
    }
    let b = Value::Binding(String::from("n")).clone();
    assert!(matches!(b, Value::Binding(n) if n == "n"));
}
