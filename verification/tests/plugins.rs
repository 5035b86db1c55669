use koji_algorithms::plugins::{merge_args, PluginArgs};

fn object(entries: &[(&str, &str)]) -> PluginArgs {
    PluginArgs::Object(entries.iter().map(|(k, v)| (k.to_string(), v.to_string())).collect())
}

#[test]
fn merge_args_request_overrides_default() {
    let default = object(&[("k", "8"), ("iters", "50")]);
    let request = object(&[("k", "12")]);
    assert_eq!(merge_args(Some(&default), request), object(&[("k", "12"), ("iters", "50")]));
}

#[test]
fn merge_args_null_request_falls_back_to_default() {
    let default = object(&[("k", "8")]);
    assert_eq!(merge_args(Some(&default), PluginArgs::Null), object(&[("k", "8")]));
}

#[test]
fn merge_args_no_default_returns_request() {
    let request = object(&[("k", "12")]);
    assert_eq!(merge_args(None, object(&[("k", "12")])), request);
}

#[test]
fn new_request_keys_come_after_the_defaults() {
    let default = object(&[("a", "1"), ("b", "2")]);
    let request = object(&[("c", "3"), ("a", "\"x\"")]);
    assert_eq!(
        merge_args(Some(&default), request),
        object(&[("a", "\"x\""), ("b", "2"), ("c", "3")])
    );
}

#[test]
fn non_object_operands_leave_the_request() {
    let default = object(&[("k", "8")]);
    let request = PluginArgs::Other("[1,2]".to_string());
    assert_eq!(merge_args(Some(&default), request), PluginArgs::Other("[1,2]".to_string()));
    let default = PluginArgs::Other("7".to_string());
    assert_eq!(merge_args(Some(&default), object(&[("k", "1")])), object(&[("k", "1")]));
    assert_eq!(merge_args(Some(&default), PluginArgs::Null), PluginArgs::Other("7".to_string()));
    assert_eq!(merge_args(None, PluginArgs::Null), PluginArgs::Null);
}
