use violet::control::alias::{
    add_alias, remove_alias, rewrite_through_aliases, AliasError, RewriteOutcome,
};
use violet::control::commands::Command;
use violet::data::pathtree::PathTree;

fn builtins() -> PathTree<Command> {
    let mut b: PathTree<Command> = PathTree::new();
    b.set_by_path(Command::ExitCommand, "exit");
    b.set_by_path(Command::SayThisAndThatCommand, "please say <ARG> and <ARG>");
    b
}

#[test]
fn alias_with_wrong_arity_is_rejected() {
    let b = builtins();
    let mut a: PathTree<String> = PathTree::new();
    let r = add_alias(
        &b,
        &mut a,
        String::from("greet <ARG>"),
        String::from("please say <ARG> and <ARG>"),
    );
    assert!(matches!(r, Err(AliasError::ArityMismatch)));
    assert!(!a.does_node_contain_value("greet <ARG>"));

    let r2 = add_alias(
        &b,
        &mut a,
        String::from("hey <ARG>"),
        String::from("please say <ARG> and <ARG>"),
    );
    assert!(matches!(r2, Err(AliasError::ArityMismatch)));
}

#[test]
fn alias_rewrite_feeds_the_builtin_matcher() {
    let b = builtins();
    let mut a: PathTree<String> = PathTree::new();
    let r = add_alias(
        &b,
        &mut a,
        String::from("hi <ARG> <ARG>"),
        String::from("please say <ARG> and <ARG>"),
    );
    assert!(r.is_ok());

    let rewritten = match rewrite_through_aliases(&a, "hi x y") {
        RewriteOutcome::Rewritten(s) => s,
        _ => panic!("the alias should rewrite the input"),
    };
    assert_eq!("please say \"x\" and \"y\"", rewritten);

    assert_eq!(
        Some((
            String::from("please say <ARG> and <ARG>"),
            vec![String::from("x"), String::from("y")]
        )),
        b.get_command_and_args_from_path(&rewritten)
    );
}

#[test]
fn alias_rules_guard_every_side() {
    let b = builtins();
    let mut a: PathTree<String> = PathTree::new();

    assert!(matches!(
        add_alias(&b, &mut a, String::from("bye"), String::from("no such builtin")),
        Err(AliasError::UnknownBuiltin)
    ));
    assert!(matches!(
        add_alias(&b, &mut a, String::from("exit"), String::from("exit")),
        Err(AliasError::ShadowsBuiltin)
    ));
    assert!(matches!(
        add_alias(&b, &mut a, String::from("   "), String::from("exit")),
        Err(AliasError::EmptyPath)
    ));

    assert!(add_alias(&b, &mut a, String::from("bye"), String::from("exit")).is_ok());
    assert!(matches!(
        add_alias(&b, &mut a, String::from("bye"), String::from("exit")),
        Err(AliasError::AliasAlreadyExists)
    ));

    assert!(matches!(
        remove_alias(&b, &mut a, String::from("exit")),
        Err(AliasError::IsBuiltin)
    ));
    assert!(matches!(
        remove_alias(&b, &mut a, String::from("nothing here")),
        Err(AliasError::UnknownAlias)
    ));
    assert!(remove_alias(&b, &mut a, String::from("bye")).is_ok());
    assert!(!a.does_node_contain_value("bye"));
}

#[test]
fn unmatched_input_passes_through_unchanged() {
    let mut a: PathTree<String> = PathTree::new();
    a.set_by_path(String::from("exit"), "bye");
    assert!(matches!(
        rewrite_through_aliases(&a, "completely unrelated"),
        RewriteOutcome::Unchanged
    ));
    let r = rewrite_through_aliases(&a, "bye");
    match r {
        RewriteOutcome::Rewritten(s) => assert_eq!("exit", s),
        _ => panic!("the alias should rewrite the input"),
    }
}

#[test]
fn corrupt_alias_payload_is_reported_not_guessed() {
    // a stored template whose arity disagrees with the alias, as a corrupted
    // store could hand back
    let mut a: PathTree<String> = PathTree::new();
    a.set_by_path(String::from("please say <ARG> and <ARG>"), "hey <ARG>");
    assert!(matches!(
        rewrite_through_aliases(&a, "hey you"),
        RewriteOutcome::ReconstructionMismatch
    ));
}
