use keepass2vault::commandline_opts::CommandlineOpts;
use keepass2vault::driver::Migration;
use keepass2vault::record::{build_record, Entry, Field};
use keepass2vault::sanitize::{sanitize_node_name, sanitize_path};
use keepass2vault::walk::{plan_migration, process_keepass_entry, Group, Node, Upsert};

fn field(key: &str, value: Option<&str>) -> Field {
    Field { key: key.to_string(), value: value.map(|v| v.to_string()) }
}

fn entry(fields: &[(&str, Option<&str>)]) -> Node {
    Node::Entry(Entry { fields: fields.iter().map(|(k, v)| field(k, *v)).collect() })
}

fn titled(title: &str) -> Node {
    entry(&[("Title", Some(title))])
}

fn group(name: &str, children: Vec<Node>) -> Node {
    Node::Group(Group { name: name.to_string(), children })
}

fn root(children: Vec<Node>) -> Group {
    Group { name: "Root".to_string(), children }
}

fn paths(upserts: &[Upsert]) -> Vec<String> {
    upserts.iter().map(|u| u.path.clone()).collect()
}

fn extra_pairs(f: &[Field]) -> Vec<(String, Option<String>)> {
    f.iter().map(|x| (x.key.clone(), x.value.clone())).collect()
}

#[test]
fn sanitize_replaces_spaces_and_quotes() {
    assert_eq!(sanitize_node_name("He said \"hi\" now"), "He_said__hi__now");
    assert_eq!(sanitize_node_name(""), "");
    assert_eq!(sanitize_node_name("Äpfel/Birnen-ß"), "Äpfel/Birnen-ß");
}

#[test]
fn sanitize_is_idempotent() {
    for s in ["a b", "\"q\"", "", "  ", "x/y z", "plain"] {
        let once = sanitize_node_name(s);
        assert_eq!(sanitize_node_name(&once), once);
    }
}

#[test]
fn sanitize_path_strips_one_slash_each_side() {
    assert_eq!(sanitize_path("/a b/c/"), "a_b/c");
    assert_eq!(sanitize_path("//a//"), "/a/");
    assert_eq!(sanitize_path(""), "");
    assert_eq!(sanitize_path("/"), "");
    assert_eq!(sanitize_path("a"), "a");
}

#[test]
fn record_keeps_reserved_fields_apart() {
    let e = Entry {
        fields: vec![
            field("Title", Some("T")),
            field("UserName", Some("u")),
            field("Notes", None),
            field("Password", Some("p")),
            field("url", Some("https://x")),
        ],
    };
    let r = build_record(&e);
    assert_eq!(r.title, "T");
    assert_eq!(r.user.as_deref(), Some("u"));
    assert_eq!(r.pass.as_deref(), Some("p"));
    assert_eq!(
        extra_pairs(&r.additional_properties),
        vec![("Notes".to_string(), None), ("url".to_string(), Some("https://x".to_string()))]
    );
    for f in &r.additional_properties {
        assert!(f.key != "Title" && f.key != "UserName" && f.key != "Password");
    }
}

#[test]
fn record_without_title_gets_default() {
    let e = Entry { fields: vec![field("UserName", Some("u"))] };
    let r = build_record(&e);
    assert_eq!(r.title, "undefined");
    assert_eq!(r.user.as_deref(), Some("u"));
    assert_eq!(r.pass, None);
    assert!(r.additional_properties.is_empty());
}

#[test]
fn empty_title_gets_default_in_record_and_path() {
    let e = Entry { fields: vec![field("Title", Some(""))] };
    assert_eq!(build_record(&e).title, "undefined");
    let u = process_keepass_entry("kv/G", &e);
    assert_eq!(u.path, "kv/G/undefined");
    let u = process_keepass_entry("kv", &Entry { fields: vec![] });
    assert_eq!(u.path, "kv/undefined");
}

#[test]
fn two_empty_titles_in_one_group_collide_on_default_path() {
    let db = root(vec![group("G", vec![titled(""), titled("")])]);
    let ups = plan_migration("kv", &db);
    assert_eq!(paths(&ups), vec!["kv/G/undefined", "kv/G/undefined"]);
}

#[test]
fn end_to_end_root_entry() {
    let db = root(vec![group(
        "Root",
        vec![entry(&[
            ("Title", Some("My Site")),
            ("UserName", Some("bob")),
            ("Password", Some("secret")),
            ("Notes", Some("n/a")),
        ])],
    )]);
    let ups = plan_migration("", &db);
    assert_eq!(ups.len(), 1);
    assert_eq!(ups[0].path, "Root/My_Site");
    let r = &ups[0].record;
    assert_eq!(r.title, "My Site");
    assert_eq!(r.user.as_deref(), Some("bob"));
    assert_eq!(r.pass.as_deref(), Some("secret"));
    assert_eq!(
        extra_pairs(&r.additional_properties),
        vec![("Notes".to_string(), Some("n/a".to_string()))]
    );
}

#[test]
fn end_to_end_nested_groups() {
    let db = root(vec![group("A", vec![group("B", vec![titled("x y")])])]);
    let ups = plan_migration("kv", &db);
    assert_eq!(paths(&ups), vec!["kv/A/B/x_y".to_string()]);
}

#[test]
fn end_to_end_quoted_title() {
    let db = root(vec![titled("He said \"hi\"")]);
    let ups = plan_migration("", &db);
    assert_eq!(paths(&ups), vec!["He_said__hi_".to_string()]);
}

#[test]
fn path_layout_at_several_depths() {
    let db = root(vec![
        titled("top"),
        group("g1", vec![titled("a"), group("g2", vec![group("g3", vec![titled("deep")])])]),
    ]);
    let ups = plan_migration("pre", &db);
    assert_eq!(
        paths(&ups),
        vec!["pre/top".to_string(), "pre/g1/a".to_string(), "pre/g1/g2/g3/deep".to_string()]
    );
    for p in paths(&ups) {
        assert!(!p.starts_with('/') && !p.ends_with('/') && !p.contains("//"));
    }
}

#[test]
fn group_names_are_sanitized_at_the_leaf() {
    let db = root(vec![group("my group", vec![titled("t")])]);
    let ups = plan_migration("", &db);
    assert_eq!(paths(&ups), vec!["my_group/t".to_string()]);
}

#[test]
fn traversal_is_preorder_and_complete() {
    let db = root(vec![
        titled("1"),
        group("a", vec![titled("2"), group("b", vec![]), group("c", vec![titled("3")]), titled("4")]),
        group("empty", vec![]),
        titled("5"),
    ]);
    let ups = plan_migration("", &db);
    let titles: Vec<String> = ups.iter().map(|u| u.record.title.clone()).collect();
    assert_eq!(titles, vec!["1", "2", "3", "4", "5"]);
    assert_eq!(paths(&ups), vec!["1", "a/2", "a/c/3", "a/4", "5"]);
}

#[test]
fn empty_root_gives_no_upserts() {
    assert!(plan_migration("kv", &root(vec![])).is_empty());
}

#[test]
fn sink_failure_does_not_stop_later_upserts() {
    let db = root(vec![
        titled("one"),
        group("g", vec![titled("two"), titled("three")]),
        group("h", vec![titled("four")]),
    ]);
    let mut m = Migration::new("", &db);
    let mut calls: Vec<String> = Vec::new();
    while let Some(u) = m.next_upsert() {
        let path = u.path.clone();
        let ok = path != "g/two";
        calls.push(path);
        m.record_outcome(ok);
    }
    assert!(m.is_done());
    assert_eq!(calls, vec!["one", "g/two", "g/three", "h/four"]);
    assert_eq!(m.failed, vec!["g/two".to_string()]);
}

#[test]
fn colliding_paths_are_both_written() {
    let db = root(vec![
        entry(&[("Title", Some("a b")), ("UserName", Some("first"))]),
        entry(&[("Title", Some("a\"b")), ("UserName", Some("second"))]),
    ]);
    let ups = plan_migration("kv", &db);
    assert_eq!(paths(&ups), vec!["kv/a_b", "kv/a_b"]);
    assert_eq!(ups[0].record.user.as_deref(), Some("first"));
    assert_eq!(ups[1].record.user.as_deref(), Some("second"));
    assert_eq!(ups[1].record.title, "a\"b");
    assert!(ups[1].record.additional_properties.is_empty());
}

fn opts(verbose: bool) -> CommandlineOpts {
    CommandlineOpts {
        vault_addr: "http://127.0.0.1:8200".to_string(),
        vault_token: "t".to_string(),
        keepass_file: "f.kdbx".to_string(),
        keepass_password: "p".to_string(),
        path_prefix: String::new(),
        mount: "secret".to_string(),
        verbose,
    }
}

#[test]
fn log_filter_defaults_and_override() {
    assert_eq!(opts(true).setup_logger(None), "debug");
    assert_eq!(opts(false).setup_logger(None), "warn,keepass2vault=info");
    assert_eq!(opts(true).setup_logger(Some("trace".to_string())), "trace");
    let (o, f) = CommandlineOpts::parse_and_setup_logger(opts(false), None);
    assert_eq!(o.mount, "secret");
    assert_eq!(f, "warn,keepass2vault=info");
}
