use violet::data::pathtree::{PathTree, PathTreeErr};
use violet::util::treepath::TreePath;

#[test]
fn prefixes_cover_every_length_and_end_with_the_whole_path() {
    let h = TreePath::get_path_hierarchy("alpha beta gamma");
    assert_eq!(3, h.len());
    assert_eq!("alpha beta gamma", h.last().unwrap());
    assert_eq!("alpha beta gamma", TreePath::prettify("  alpha   beta gamma  "));
}

#[test]
fn set_then_get_returns_the_registered_value() {
    let mut tree: PathTree<u64> = PathTree::new();
    tree.set_by_path(7, "alpha beta");
    assert!(tree.does_node_contain_value("alpha beta"));
    let node = tree.get_by_path("alpha beta").unwrap();
    assert_eq!(Some(7), node.value);
    assert_eq!(1, node.share_count);
}

#[test]
fn re_registration_keeps_share_counts_and_replaces_the_value() {
    let mut once: PathTree<u64> = PathTree::new();
    once.set_by_path(2, "alpha beta");

    let mut twice: PathTree<u64> = PathTree::new();
    twice.set_by_path(1, "alpha beta");
    twice.set_by_path(2, "alpha beta");

    assert_eq!(
        once.get_by_path("alpha beta").unwrap().share_count,
        twice.get_by_path("alpha beta").unwrap().share_count
    );
    assert_eq!(
        once.get_by_path("alpha").unwrap().share_count,
        twice.get_by_path("alpha").unwrap().share_count
    );
    assert_eq!(Some(2), twice.get_by_path("alpha beta").unwrap().value);
}

#[test]
fn removal_of_an_isolated_path_leaves_no_node_behind() {
    let mut tree: PathTree<u64> = PathTree::new();
    tree.set_by_path(1, "solo path here");
    assert!(tree.drop_by_path("solo path here").is_ok());
    assert!(!tree.does_node_contain_value("solo path here"));
    assert!(!tree.does_path_exist("solo path here"));
    assert!(!tree.does_path_exist("solo path"));
    assert!(!tree.does_path_exist("solo"));
}

#[test]
fn removal_keeps_nodes_that_another_path_shares() {
    let mut tree: PathTree<u64> = PathTree::new();
    tree.set_by_path(1, "a b");
    tree.set_by_path(2, "a c");
    assert!(tree.drop_by_path("a b").is_ok());
    assert!(tree.does_path_exist("a"));
    assert!(tree.does_node_contain_value("a c"));
    assert!(!tree.does_path_exist("a b"));
    assert_eq!(1, tree.get_by_path("a").unwrap().share_count);
}

#[test]
fn removal_errors_name_the_missing_piece() {
    let mut tree: PathTree<u64> = PathTree::new();
    tree.set_by_path(1, "a b");
    assert!(matches!(
        tree.drop_by_path("never registered"),
        Err(PathTreeErr::DropNodeDoesNotExist)
    ));
    assert!(matches!(tree.drop_by_path("a"), Err(PathTreeErr::DropNodeIsNull)));
    assert!(tree.does_node_contain_value("a b"));
}

#[test]
fn literal_template_wins_over_the_wildcard_one() {
    let mut tree: PathTree<u64> = PathTree::new();
    tree.set_by_path(1, "say <ARG>");
    tree.set_by_path(2, "say hello");
    assert_eq!(
        Some((String::from("say hello"), Vec::<String>::new())),
        tree.get_command_and_args_from_path("say hello")
    );
    assert_eq!(
        Some((String::from("say <ARG>"), vec![String::from("there")])),
        tree.get_command_and_args_from_path("say there")
    );
}

#[test]
fn quoted_spans_capture_multi_word_arguments() {
    let mut tree: PathTree<u64> = PathTree::new();
    tree.set_by_path(1, "please say <ARG> and <ARG>");
    assert_eq!(
        Some((
            String::from("please say <ARG> and <ARG>"),
            vec![String::from("a b"), String::from("c")]
        )),
        tree.get_command_and_args_from_path("please say \"a b\" and \"c\"")
    );
    assert_eq!(
        Some((
            String::from("please say <ARG> and <ARG>"),
            vec![String::from("one two three"), String::from("four five")]
        )),
        tree.get_command_and_args_from_path("please say \"one two three\" and \"four five\"")
    );
}

#[test]
fn colliding_shortcuts_get_increasing_serials() {
    let mut tree: PathTree<u64> = PathTree::new();
    tree.set_by_path_with_shortcut(1, "echo <ARG>");
    tree.set_by_path_with_shortcut(2, "erase <ARG>");
    tree.set_by_path_with_shortcut(3, "expand <ARG>");
    assert_eq!(Some(1), tree.get_by_path("[ea] <ARG>").unwrap().value);
    assert_eq!(Some(2), tree.get_by_path("[ea2] <ARG>").unwrap().value);
    assert_eq!(Some(3), tree.get_by_path("[ea3] <ARG>").unwrap().value);

    // a different arity with the same initials is a different path: no serial
    tree.set_by_path_with_shortcut(4, "enter area");
    assert_eq!(Some(4), tree.get_by_path("[ea]").unwrap().value);
}

#[test]
fn shortcut_strings_follow_the_acronym_rule() {
    assert_eq!(
        "[psaaa] <ARG> <ARG>",
        TreePath::create_shortcut("please say <ARG> and <ARG>", 1)
    );
    assert_eq!(
        "[psaaa2] <ARG> <ARG>",
        TreePath::create_shortcut("please say <ARG> and <ARG>", 2)
    );
    assert_eq!("[e]", TreePath::create_shortcut("exit", 1));
    assert_eq!("[wtii]", TreePath::create_shortcut("what time is it", 1));
    assert!(TreePath::is_path_a_shortcut("[e]"));
    assert!(TreePath::is_path_a_shortcut("[ea2] <ARG>"));
    assert!(!TreePath::is_path_a_shortcut("exit"));
}

#[test]
fn reconstruction_substitutes_and_quotes_each_argument() {
    assert_eq!(
        Some(String::from("please say \"x\" and \"y\"")),
        TreePath::reconstruct_argumented_path(
            "please say <ARG> and <ARG>",
            vec![String::from("x"), String::from("y")]
        )
    );
    assert_eq!(
        Some(String::from("say \"hello world\"")),
        TreePath::reconstruct_argumented_path("say <ARG>", vec![String::from("hello world")])
    );
    assert_eq!(
        None,
        TreePath::reconstruct_argumented_path("say <ARG>", Vec::<String>::new())
    );
    assert_eq!(
        None,
        TreePath::reconstruct_argumented_path(
            "say <ARG>",
            vec![String::from("a"), String::from("b")]
        )
    );
}

#[test]
fn token_helpers_count_and_split_as_documented() {
    assert_eq!(2, TreePath::count_x_nodes_for_path("say <ARG> and <ARG>", "<ARG>"));
    assert_eq!(0, TreePath::count_x_nodes_for_path("say nothing", "<ARG>"));
    assert_eq!(Some(String::from("name")), TreePath::get_last_node("what is your name"));
    assert_eq!(None, TreePath::get_last_node("   "));
    assert_eq!(
        "a b c",
        TreePath::append_path_node(&[String::from("a"), String::from("b")], "c")
    );
    assert_eq!("lone", TreePath::append_path_node(&[], "lone"));
}

#[test]
fn exported_entries_rebuild_the_same_registry() {
    let mut original: PathTree<String> = PathTree::new();
    original.set_by_path(String::from("exit"), "bye bye");
    original.set_by_path(String::from("please say <ARG> and <ARG>"), "hi <ARG> <ARG>");

    let mut rebuilt: PathTree<String> = PathTree::new();
    for (path, value) in original.registered_entries() {
        rebuilt.set_by_path(value, &path);
    }

    for path in ["bye", "bye bye", "hi", "hi <ARG>", "hi <ARG> <ARG>"] {
        assert_eq!(
            original.does_path_exist(path),
            rebuilt.does_path_exist(path)
        );
        assert_eq!(
            original.does_node_contain_value(path),
            rebuilt.does_node_contain_value(path)
        );
    }
    assert_eq!(
        original.get_by_path("bye bye").unwrap().share_count,
        rebuilt.get_by_path("bye bye").unwrap().share_count
    );
    assert_eq!(
        Some(String::from("exit")),
        rebuilt.get_by_path("bye bye").unwrap().value.clone()
    );
}

#[test]
fn a_bare_quotation_mark_never_matches() {
    let mut tree: PathTree<u64> = PathTree::new();
    tree.set_by_path(1, "say <ARG>");
    // a lone quote token makes the quoted strategy fail and is refused as a
    // captured argument afterwards
    assert_eq!(None, tree.get_command_and_args_from_path("say \""));
    // a properly quoted single-token argument still comes back unquoted
    assert_eq!(
        Some((String::from("say <ARG>"), vec![String::from("x")])),
        tree.get_command_and_args_from_path("say \"x\"")
    );
}

#[test]
fn registered_paths_list_exactly_the_payload_bearing_nodes() {
    let mut tree: PathTree<u64> = PathTree::new();
    tree.set_by_path(1, "a b");
    tree.set_by_path(2, "a");
    let mut reg = tree.registered_paths();
    reg.sort();
    assert_eq!(vec![String::from("a"), String::from("a b")], reg);
    let mut all = tree.all_paths();
    all.sort();
    assert_eq!(vec![String::from("a"), String::from("a b")], all);

    let mut tree2: PathTree<String> = PathTree::new();
    tree2.set_by_path(String::from("v"), "x y z");
    let entries = tree2.registered_entries();
    assert_eq!(vec![(String::from("x y z"), String::from("v"))], entries);
    let mut all2 = tree2.all_paths();
    all2.sort();
    assert_eq!(
        vec![String::from("x"), String::from("x y"), String::from("x y z")],
        all2
    );
}
