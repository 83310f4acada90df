use taplo_schema::completion::{completion_plan, CompletionBranch, CursorFacts};
use taplo_schema::schema::KeyOrIndex;

fn keys(names: &[&str]) -> Vec<KeyOrIndex> {
    names.iter().map(|n| KeyOrIndex::Key((*n).to_owned())).collect()
}

fn names(keys: &[KeyOrIndex]) -> Vec<String> {
    keys.iter()
        .map(|k| match k {
            KeyOrIndex::Key(k) => k.clone(),
            KeyOrIndex::Index(i) => i.to_string(),
        })
        .collect()
}

fn facts() -> CursorFacts {
    CursorFacts {
        in_table_header: false,
        in_table_array_header: false,
        empty_line: false,
        in_entry_keys: false,
        in_entry_value: false,
        in_inline_table: false,
        is_inline: false,
        header_key_count: 0,
        node_keys: None,
        parent_keys: keys(&["server"]),
        entry_keys: Vec::new(),
    }
}

#[test]
fn a_table_header_collects_from_the_root_past_its_keys() {
    let mut f = facts();
    f.in_table_header = true;
    f.header_key_count = 2;
    let plan = completion_plan(&f, 5);
    assert_eq!(plan.branch, CompletionBranch::TableHeader);
    assert!(plan.keys.is_empty());
    assert_eq!(plan.depth, 8);
}

#[test]
fn an_array_header_collects_like_a_table_header() {
    let mut f = facts();
    f.in_table_array_header = true;
    f.header_key_count = 1;
    let plan = completion_plan(&f, 5);
    assert_eq!(plan.branch, CompletionBranch::TableArrayHeader);
    assert!(plan.keys.is_empty());
    assert_eq!(plan.depth, 7);
}

#[test]
fn an_empty_line_collects_below_the_table_around_it() {
    let mut f = facts();
    f.empty_line = true;
    let plan = completion_plan(&f, 5);
    assert_eq!(plan.branch, CompletionBranch::EmptyLine);
    assert_eq!(names(&plan.keys), ["server"]);
    assert_eq!(plan.depth, 6);
}

#[test]
fn entry_keys_collect_from_the_node_without_the_typed_keys() {
    let mut f = facts();
    f.in_entry_keys = true;
    f.node_keys = Some(keys(&["server", "tls", "cert"]));
    f.entry_keys = keys(&["tls", "cert"]);
    let plan = completion_plan(&f, 5);
    assert_eq!(plan.branch, CompletionBranch::EntryKeys);
    assert_eq!(names(&plan.keys), ["server"]);
    assert_eq!(plan.depth, 8);
    f.node_keys = None;
    f.entry_keys = keys(&["a", "b", "c"]);
    assert!(completion_plan(&f, 5).keys.is_empty());
}

#[test]
fn a_value_collects_at_its_entry() {
    let mut f = facts();
    f.in_entry_value = true;
    f.node_keys = Some(keys(&["server", "port"]));
    f.entry_keys = keys(&["port"]);
    let plan = completion_plan(&f, 5);
    assert_eq!(plan.branch, CompletionBranch::EntryValue);
    assert_eq!(names(&plan.keys), ["server", "port"]);
    assert_eq!(plan.depth, 6);
    f.is_inline = true;
    f.node_keys = Some(keys(&["point", "x"]));
    assert_eq!(names(&completion_plan(&f, 5).keys), ["point", "x"]);
    f.in_inline_table = true;
    let plan = completion_plan(&f, 5);
    assert_eq!(plan.branch, CompletionBranch::InlineTableEntry);
    assert_eq!(names(&plan.keys), ["point", "x"]);
}

#[test]
fn standalone_keys_are_left_when_nothing_else_holds() {
    let mut f = facts();
    f.node_keys = Some(keys(&["server", "ho"]));
    f.entry_keys = keys(&["ho"]);
    let plan = completion_plan(&f, 5);
    assert_eq!(plan.branch, CompletionBranch::StandaloneKeys);
    assert_eq!(names(&plan.keys), ["server"]);
    assert_eq!(plan.depth, 6);
}

#[test]
fn the_header_outranks_every_other_context() {
    let mut f = facts();
    f.in_table_header = true;
    f.in_table_array_header = true;
    f.empty_line = true;
    f.in_entry_keys = true;
    assert_eq!(completion_plan(&f, 1).branch, CompletionBranch::TableHeader);
}
