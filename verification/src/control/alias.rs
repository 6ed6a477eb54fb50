use vstd::prelude::*;

use crate::control::commands::Command;
use crate::data::matcher::resolve_match;
use crate::data::pathtree::{spec_path_exists, PathTree};
use crate::util::toks::{join_toks, seq_views, tokenize};
use crate::util::treepath::{arg_token, count_matching, subst_toks, TreePath};

verus! {

/// Why an alias operation was refused.
pub enum AliasError {
    EmptyPath,
    UnknownBuiltin,
    ShadowsBuiltin,
    AliasAlreadyExists,
    ArityMismatch,
    IsBuiltin,
    UnknownAlias,
}

/// Registers `alias` to stand for the built-in path `for_builtin`. Fails
/// when the alias is empty, when the built-in path holds no command, when
/// the alias would shadow a built-in or an existing alias, and when the two
/// paths carry different numbers of placeholders; otherwise the alias
/// registry maps the alias to the built-in template string.
pub fn add_alias(
    builtins: &PathTree<Command>,
    aliases: &mut PathTree<String>,
    alias: String,
    for_builtin: String,
) -> (r: Result<(), AliasError>)
    requires
        builtins.wf(),
        old(aliases).wf(),
        old(aliases)@.dom().len() < usize::MAX,
    ensures
        final(aliases).wf(),
        ({
            let a = tokenize(alias@);
            let b = tokenize(for_builtin@);
            match r {
                Err(AliasError::EmptyPath) => a.len() == 0 && final(aliases)@ == old(aliases)@,
                Err(AliasError::UnknownBuiltin) => a.len() > 0 && !builtins@.contains_key(b)
                    && final(aliases)@ == old(aliases)@,
                Err(AliasError::ShadowsBuiltin) => a.len() > 0 && builtins@.contains_key(b)
                    && builtins@.contains_key(a) && final(aliases)@ == old(aliases)@,
                Err(AliasError::AliasAlreadyExists) => a.len() > 0 && builtins@.contains_key(b)
                    && !builtins@.contains_key(a) && old(aliases)@.contains_key(a) && final(aliases)@ == old(aliases)@,
                Err(AliasError::ArityMismatch) => a.len() > 0 && builtins@.contains_key(b)
                    && !builtins@.contains_key(a) && !old(aliases)@.contains_key(a)
                    && count_matching(a, arg_token()) != count_matching(b, arg_token()) && final(aliases)@ == old(aliases)@,
                Ok(()) => a.len() > 0 && builtins@.contains_key(b) && !builtins@.contains_key(a)
                    && !old(aliases)@.contains_key(a) && count_matching(a, arg_token())
                    == count_matching(b, arg_token()) && final(aliases)@ == old(aliases)@.insert(
                    a,
                    for_builtin,
                ),
                _ => false,
            }
        }),
{
    let alias_toks = TreePath::create_path(alias.as_str());
    if alias_toks.len() == 0 {
        proof {
            assert(seq_views(alias_toks@).len() == 0);
        }
        return Err(AliasError::EmptyPath);
    }
    proof {
        assert(seq_views(alias_toks@).len() > 0);
    }
    if !builtins.does_node_contain_value(for_builtin.as_str()) {
        return Err(AliasError::UnknownBuiltin);
    }
    if builtins.does_node_contain_value(alias.as_str()) {
        return Err(AliasError::ShadowsBuiltin);
    }
    if aliases.does_node_contain_value(alias.as_str()) {
        return Err(AliasError::AliasAlreadyExists);
    }
    if TreePath::count_x_nodes_for_path(alias.as_str(), "<ARG>")
        != TreePath::count_x_nodes_for_path(for_builtin.as_str(), "<ARG>") {
        proof {
            reveal_strlit("<ARG>");
        }
        return Err(AliasError::ArityMismatch);
    }
    proof {
        reveal_strlit("<ARG>");
    }
    aliases.set_by_path(for_builtin, alias.as_str());
    Ok(())
}

/// Unregisters `alias`. A built-in path cannot be removed this way, and an
/// alias that was never added cannot be removed; otherwise the alias and
/// every node it alone supported are gone.
pub fn remove_alias(
    builtins: &PathTree<Command>,
    aliases: &mut PathTree<String>,
    alias: String,
) -> (r: Result<(), AliasError>)
    requires
        builtins.wf(),
        old(aliases).wf(),
    ensures
        final(aliases).wf(),
        ({
            let a = tokenize(alias@);
            match r {
                Err(AliasError::IsBuiltin) => builtins@.contains_key(a) && final(aliases)@ == old(
                    aliases,
                )@,
                Err(AliasError::UnknownAlias) => !builtins@.contains_key(a) && !old(
                    aliases,
                )@.contains_key(a) && final(aliases)@ == old(aliases)@,
                Ok(()) => !builtins@.contains_key(a) && old(aliases)@.contains_key(a) && final(aliases)@ == old(aliases)@.remove(a),
                _ => false,
            }
        }),
{
    if builtins.does_node_contain_value(alias.as_str()) {
        return Err(AliasError::IsBuiltin);
    }
    if !aliases.does_node_contain_value(alias.as_str()) {
        return Err(AliasError::UnknownAlias);
    }
    proof {
        aliases.lemma_keys_form();
        let a = tokenize(alias@);
        assert(a.len() > 0);
        assert(a.is_prefix_of(a)) by {
            assert(a =~= a.subrange(0, a.len() as int));
        }
        assert(spec_path_exists(aliases@, a));
    }
    match aliases.drop_by_path(alias.as_str()) {
        Ok(_) => Ok(()),
        Err(_) => {
            proof {
                assert(false);
            }
            Err(AliasError::UnknownAlias)
        },
    }
}

/// What rewriting an input through the alias registry came to.
pub enum RewriteOutcome {
    Unchanged,
    Rewritten(String),
    ReconstructionMismatch,
}

/// Rewrites a raw input through the alias registry: when the input matches
/// a registered alias, the alias's built-in template is rebuilt literally,
/// each placeholder replaced by the captured argument in quotation marks.
/// An input that matches no alias passes through unchanged; a stored
/// template whose placeholder count disagrees with the captured arguments
/// is reported rather than guessed at.
pub fn rewrite_through_aliases(aliases: &PathTree<String>, input: &str) -> (r: RewriteOutcome)
    requires
        aliases.wf(),
    ensures
        match resolve_match(aliases@, tokenize(input@)) {
            None => r is Unchanged,
            Some(q) => {
                let template = aliases@[q.0];
                if count_matching(tokenize(template@), arg_token()) == q.1.len() {
                    (r matches RewriteOutcome::Rewritten(s) && s@ == join_toks(
                        subst_toks(tokenize(template@), q.1),
                    ))
                } else {
                    r is ReconstructionMismatch
                }
            },
        },
{
    match aliases.get_command_and_args_from_path(input) {
        None => RewriteOutcome::Unchanged,
        Some((path, args)) => {
            proof {
                aliases.lemma_keys_form();
                let q = tokenize(path@);
                assert(aliases@.contains_key(q));
                assert(q.is_prefix_of(q)) by {
                    assert(q =~= q.subrange(0, q.len() as int));
                }
                assert(spec_path_exists(aliases@, q));
            }
            match aliases.get_by_path(path.as_str()) {
                None => {
                    proof {
                        assert(false);
                    }
                    RewriteOutcome::Unchanged
                },
                Some(node) => {
                    match &node.value {
                        None => {
                            proof {
                                assert(false);
                            }
                            RewriteOutcome::Unchanged
                        },
                        Some(template) => {
                            match TreePath::reconstruct_argumented_path(template.as_str(), args) {
                                Some(rebuilt) => RewriteOutcome::Rewritten(rebuilt),
                                None => RewriteOutcome::ReconstructionMismatch,
                            }
                        },
                    }
                },
            }
        },
    }
}

/// Resolves a raw input against the command registry: the command the
/// best-matching template carries, the template's canonical string, and the
/// captured arguments.
pub fn resolve_command(builtins: &PathTree<Command>, input: &str) -> (r: Option<
    (Command, String, Vec<String>),
>)
    requires
        builtins.wf(),
    ensures
        match resolve_match(builtins@, tokenize(input@)) {
            None => r is None,
            Some(q) => (r matches Some(t) && t.0 == builtins@[q.0] && t.1@ == join_toks(q.0)
                && seq_views(t.2@) == q.1),
        },
{
    match builtins.get_command_and_args_from_path(input) {
        None => None,
        Some((path, args)) => {
            proof {
                builtins.lemma_keys_form();
                let q = tokenize(path@);
                assert(builtins@.contains_key(q));
                assert(q.is_prefix_of(q)) by {
                    assert(q =~= q.subrange(0, q.len() as int));
                }
                assert(spec_path_exists(builtins@, q));
            }
            match builtins.get_by_path(path.as_str()) {
                None => {
                    proof {
                        assert(false);
                    }
                    None
                },
                Some(node) => {
                    match node.value {
                        None => {
                            proof {
                                assert(false);
                            }
                            None
                        },
                        Some(cmd) => Some((cmd, path, args)),
                    }
                },
            }
        },
    }
}

} // verus!
