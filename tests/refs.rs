use surfer_cxxrtl::refs::split_words;
use surfer_cxxrtl::refs::ScopeRef;
use surfer_cxxrtl::refs::VariableRef;

fn strs(v: &[&str]) -> Vec<String> {
    v.iter().map(|s| s.to_string()).collect()
}

#[test]
fn splits_on_separator() {
    assert_eq!(split_words("top cpu r0", ' '), strs(&["top", "cpu", "r0"]));
    assert_eq!(split_words("", ' '), strs(&[""]));
    assert_eq!(split_words("a  b", ' '), strs(&["a", "", "b"]));
}

#[test]
fn variable_from_wire_name() {
    let v = VariableRef::from_cxxrtl_name("top cpu r0");
    assert_eq!(v.path.strs, strs(&["top", "cpu"]));
    assert_eq!(v.name, "r0");
    assert_eq!(v.cxxrtl_repr(), "top cpu r0");
    let root = VariableRef::from_cxxrtl_name("clk");
    assert!(root.path.strs.is_empty());
    assert_eq!(root.name, "clk");
}

#[test]
fn scope_names_round_trip() {
    let s = ScopeRef::from_cxxrtl_name("top mem");
    assert_eq!(s.strs, strs(&["top", "mem"]));
    assert_eq!(s.cxxrtl_repr(), "top mem");
    assert!(s.is_child_of(&ScopeRef::from_strs(&strs(&["top"]))));
    assert!(!s.is_child_of(&ScopeRef::root()));
}
