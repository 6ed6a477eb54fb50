use violet::data::pathtree::PathTree;
use violet::util::treepath::TreePath;

#[test]
fn test_path_hierarchy() {
    let expected: Vec<String> = vec![
        "one".to_string(),
        "one two".to_string(),
        "one two three".to_string(),
    ];
    assert_eq!(expected, TreePath::get_path_hierarchy("one two three"));

    let expected: Vec<String> = vec!["one".to_string()];
    assert_eq!(expected, TreePath::get_path_hierarchy("one"));

    let expected: Vec<String> = vec![
        "そっか".to_string(),
        "そっか おふの".to_string(),
        "そっか おふの $%?рашин".to_string(),
        "そっか おふの $%?рашин /fourth".to_string(),
        "そっか おふの $%?рашин /fourth .fifth".to_string(),
        "そっか おふの $%?рашин /fourth .fifth \\sixth".to_string(),
    ];
    assert_eq!(
        expected,
        TreePath::get_path_hierarchy("そっか おふの $%?рашин /fourth .fifth \\sixth")
    );
}

#[test]
fn test_tree_setters_and_getters() {
    let mut test_tree = PathTree::new();

    test_tree.set_by_path(
        "test garbage val".to_string(),
        "そっか おふの $%?рашин /fourth .fifth \\sixth",
    );
    assert_eq!(false, test_tree.does_node_contain_value("そっか"));
    assert_eq!(true, test_tree.does_path_exist("そっか"));
    assert_eq!(false, test_tree.does_node_contain_value("そっか おふの"));
    assert_eq!(true, test_tree.does_path_exist("そっか おふの"));
    assert_eq!(
        false,
        test_tree.does_node_contain_value("そっか おふの $%?рашин")
    );
    assert_eq!(true, test_tree.does_path_exist("そっか おふの $%?рашин"));
    assert_eq!(
        false,
        test_tree.does_node_contain_value("そっか おふの $%?рашин /fourth")
    );
    assert_eq!(
        true,
        test_tree.does_path_exist("そっか おふの $%?рашин /fourth")
    );
    assert_eq!(
        false,
        test_tree.does_node_contain_value("そっか おふの $%?рашин /fourth .fifth")
    );
    assert_eq!(
        true,
        test_tree.does_path_exist("そっか おふの $%?рашин /fourth .fifth")
    );
    assert_eq!(
        true,
        test_tree.does_node_contain_value("そっか おふの $%?рашин /fourth .fifth \\sixth")
    );
    assert_eq!(
        true,
        test_tree.does_path_exist("そっか おふの $%?рашин /fourth .fifth \\sixth")
    );
    assert_eq!(None, test_tree.get_by_path("そっか").unwrap().value.clone());
    assert_eq!(
        None,
        test_tree.get_by_path("そっか おふの").unwrap().value.clone()
    );
    assert_eq!(
        None,
        test_tree
            .get_by_path("そっか おふの $%?рашин")
            .unwrap()
            .value
            .clone()
    );
    assert_eq!(
        None,
        test_tree
            .get_by_path("そっか おふの $%?рашин /fourth")
            .unwrap()
            .value
            .clone()
    );
    assert_eq!(
        None,
        test_tree
            .get_by_path("そっか おふの $%?рашин /fourth .fifth")
            .unwrap()
            .value
            .clone()
    );
    let leaf = test_tree
        .get_by_path("そっか おふの $%?рашин /fourth .fifth \\sixth")
        .unwrap();
    assert_eq!(1, leaf.share_count);
    assert_eq!(Some(String::from("test garbage val")), leaf.value.clone());
}

#[test]
fn check_empty_path_creation() {
    let mut test_tree = PathTree::new();
    test_tree.set_by_path(
        "test garbage val".to_string(),
        "そっか おふの $%?рашин /fourth .fifth \\sixth",
    );

    assert_eq!(
        Vec::<String>::new(),
        TreePath::create_path(&String::from(""))
    );
    assert_eq!(Vec::<String>::new(), TreePath::get_path_hierarchy(""));

    assert_eq!(false, test_tree.does_node_contain_value(""));
    assert!(test_tree.get_by_path("").is_none());
}

#[test]
fn test_pathing_works_with_untrimmed_paths() {
    let mut test_tree = PathTree::new();
    let path = "        something           completely      bonkers       \n";

    test_tree.set_by_path("test garbage val".to_string(), path);

    assert_eq!(false, test_tree.does_node_contain_value("something"));
    assert_eq!(true, test_tree.does_path_exist("something"));
    assert_eq!(
        false,
        test_tree.does_node_contain_value("something completely")
    );
    assert_eq!(true, test_tree.does_path_exist("something completely"));
    assert_eq!(
        true,
        test_tree.does_node_contain_value("something completely bonkers")
    );
    assert_eq!(
        true,
        test_tree.does_path_exist("something completely bonkers")
    );

    assert_eq!(
        None,
        test_tree.get_by_path("something").unwrap().value.clone()
    );
    assert_eq!(
        None,
        test_tree
            .get_by_path("something completely")
            .unwrap()
            .value
            .clone()
    );
    let leaf = test_tree.get_by_path("something completely bonkers").unwrap();
    assert_eq!(1, leaf.share_count);
    assert_eq!(Some(String::from("test garbage val")), leaf.value.clone());

    assert_eq!(true, test_tree.does_path_exist("something"));
    assert_eq!(true, test_tree.does_path_exist("something completely"));
    assert_eq!(true, test_tree.does_path_exist("something completely bonkers"));
}

#[test]
fn check_argumented_paths() {
    let mut test_tree = PathTree::new();
    test_tree.set_by_path("garbage", "this is <ARG> another <ARG>");
    test_tree.set_by_path("garbage", "oh my god its <ARG> working <ARG> !!!");
    test_tree.set_by_path("garbage", "<ARG> I cant believe <ARG>");
    test_tree.set_by_path(
        "garbage",
        "<ARG> and <ARG> and <ARG> and <ARG> and <ARG> and KEKW",
    );

    assert_eq!(
        Some((
            String::from("this is <ARG> another <ARG>"),
            vec![String::from("just"), String::from("test")]
        )),
        test_tree.get_command_and_args_from_path("this is just another test")
    );
    assert_eq!(
        Some((
            String::from("this is <ARG> another <ARG>"),
            vec![String::from("pooka"), String::from("kooka")]
        )),
        test_tree.get_command_and_args_from_path("this is pooka another kooka")
    );
    assert_eq!(
        Some((
            String::from("this is <ARG> another <ARG>"),
            vec![String::from("$$"), String::from("---")]
        )),
        test_tree.get_command_and_args_from_path("this is $$ another ---")
    );
    assert_eq!(
        None,
        test_tree.get_command_and_args_from_path("this is not just another test")
    );

    assert_eq!(
        Some((
            String::from("oh my god its <ARG> working <ARG> !!!"),
            vec![String::from("actually"), String::from("OMG")]
        )),
        test_tree.get_command_and_args_from_path("oh my god its actually working OMG !!!")
    );
    assert_eq!(
        Some((
            String::from("oh my god its <ARG> working <ARG> !!!"),
            vec![String::from("kekek"), String::from("lulul")]
        )),
        test_tree.get_command_and_args_from_path("oh my god its kekek working lulul !!!")
    );
    assert_eq!(
        None,
        test_tree.get_command_and_args_from_path("oh my god its not actually working lulul ? !!!")
    );

    assert_eq!(
        Some((
            String::from("<ARG> I cant believe <ARG>"),
            vec![String::from("Jesus"), String::from("it!!!")]
        )),
        test_tree.get_command_and_args_from_path("Jesus I cant believe it!!!")
    );
    assert_eq!(
        Some((
            String::from("<ARG> I cant believe <ARG>"),
            vec![String::from("123"), String::from("584")]
        )),
        test_tree.get_command_and_args_from_path("123 I cant believe 584")
    );
    assert_eq!(
        None,
        test_tree.get_command_and_args_from_path("OMG I can believe this")
    );

    assert_eq!(
        Some((
            String::from("<ARG> and <ARG> and <ARG> and <ARG> and <ARG> and KEKW"),
            vec![
                String::from("one"),
                String::from("two"),
                String::from("three"),
                String::from("four"),
                String::from("five")
            ]
        )),
        test_tree
            .get_command_and_args_from_path("one and two and three and four and five and KEKW")
    );
}
