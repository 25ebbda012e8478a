//! The mathematical model of schemas, parse results, and the matching
//! algorithm.
//!
//! A schema is modelled by [`CommandModel`], a parse result by
//! [`ParsedModel`], and the matcher by the function [`spec_parse`], which
//! maps a schema model and a token sequence to either a result model or
//! the name of the required rule that could not be bound.

use vstd::prelude::*;

use crate::cmd::Error;
use crate::cmd::ParsedCommand;

verus! {

/// Model of one declared positional slot: its name and whether a parse
/// must fail when no token is left to bind to it.
pub struct RuleModel {
    pub name: Seq<char>,
    pub required: bool,
}

/// Model of one command level: its name, its set of recognized flag
/// tokens, its ordered positional rules, and its ordered subcommands.
#[verifier::ext_equal]
pub struct CommandModel {
    pub name: Seq<char>,
    pub flags: Set<Seq<char>>,
    pub rules: Seq<RuleModel>,
    pub subs: Seq<CommandModel>,
}

/// Model of one bound positional argument: the rule's name and the token
/// bound to it.
pub struct BindingModel {
    pub name: Seq<char>,
    pub value: Seq<char>,
}

/// Model of a parse result: the schema name it was produced from, the
/// matched flags, the bound positional arguments in binding order, and
/// the matched subcommand result, if any.
#[verifier::ext_equal]
pub struct ParsedModel {
    pub command: Seq<char>,
    pub flags: Set<Seq<char>>,
    pub args: Seq<BindingModel>,
    pub sub: Option<(Seq<char>, Box<ParsedModel>)>,
}

/// The views of a sequence of owned tokens.
pub open spec fn token_views(tokens: Seq<String>) -> Seq<Seq<char>> {
    Seq::new(tokens.len(), |i: int| tokens[i]@)
}

/// The views of a sequence of borrowed tokens.
pub open spec fn str_views(tokens: Seq<&str>) -> Seq<Seq<char>> {
    Seq::new(tokens.len(), |i: int| tokens[i]@)
}

/// If the first token equals the command's own name, discard it: a
/// command accepts its input both name-prefixed and name-stripped.
pub open spec fn strip_name(name: Seq<char>, tokens: Seq<Seq<char>>) -> Seq<Seq<char>> {
    if tokens.len() > 0 && tokens[0] == name {
        tokens.drop_first()
    } else {
        tokens
    }
}

/// Length of the leading contiguous run of declared flag tokens. Flag
/// recognition is deliberately a prefix scan: a declared flag appearing
/// after the first non-flag token is bound positionally instead.
pub open spec fn flag_run(flags: Set<Seq<char>>, tokens: Seq<Seq<char>>) -> int
    decreases tokens.len(),
{
    if tokens.len() > 0 && flags.contains(tokens[0]) {
        1 + flag_run(flags, tokens.drop_first())
    } else {
        0
    }
}

/// Zip the declared rules, in order, against the remaining tokens, in
/// order. A rule with a token binds it; a required rule without a token
/// fails with that rule's name; an optional rule without a token is
/// silently omitted. Tokens beyond the declared rules are dropped.
pub open spec fn bind_rules(rules: Seq<RuleModel>, tokens: Seq<Seq<char>>) -> Result<
    Seq<BindingModel>,
    Seq<char>,
>
    decreases rules.len(),
{
    if rules.len() == 0 {
        Ok(Seq::empty())
    } else if tokens.len() > 0 {
        match bind_rules(rules.drop_first(), tokens.drop_first()) {
            Ok(rest) => Ok(
                seq![(BindingModel { name: rules[0].name, value: tokens[0] })] + rest,
            ),
            Err(e) => Err(e),
        }
    } else if rules[0].required {
        Err(rules[0].name)
    } else {
        bind_rules(rules.drop_first(), tokens)
    }
}

/// Scan the subcommand list in declaration order for the first child
/// whose name equals the next token; parse the remainder against that
/// child. A failure of the child's parse propagates: it is not retried
/// against a later sibling.
pub open spec fn match_subs(subs: Seq<CommandModel>, tokens: Seq<Seq<char>>) -> Result<
    Option<(Seq<char>, Box<ParsedModel>)>,
    Seq<char>,
>
    decreases subs,
{
    if tokens.len() == 0 || subs.len() == 0 {
        Ok(None)
    } else if subs[0].name == tokens[0] {
        match spec_parse(subs[0], tokens.drop_first()) {
            Ok(m) => Ok(Some((subs[0].name, Box::new(m)))),
            Err(e) => Err(e),
        }
    } else {
        match_subs(subs.drop_first(), tokens)
    }
}

/// The matching algorithm, one schema level at a time: strip the
/// command's own name, detect a subcommand, consume the leading run of
/// declared flags, and bind the remaining tokens to the positional
/// rules. The only failure is a required rule left unbound, at whatever
/// depth the shortfall occurs.
pub open spec fn spec_parse(c: CommandModel, tokens: Seq<Seq<char>>) -> Result<
    ParsedModel,
    Seq<char>,
>
    decreases c,
{
    let rem = strip_name(c.name, tokens);
    match match_subs(c.subs, rem) {
        Err(e) => Err(e),
        Ok(sub) => {
            let k = flag_run(c.flags, rem);
            match bind_rules(c.rules, rem.skip(k)) {
                Err(e) => Err(e),
                Ok(bound) => Ok(
                    ParsedModel {
                        command: c.name,
                        flags: rem.take(k).to_set(),
                        args: bound,
                        sub,
                    },
                ),
            }
        },
    }
}

/// Splitting an input on single space characters, accumulating the
/// current token: consecutive spaces yield empty tokens, and the empty
/// input yields one empty token, exactly as the convenience entry point
/// observes them.
pub open spec fn split_acc(s: Seq<char>, cur: Seq<char>) -> Seq<Seq<char>>
    decreases s.len(),
{
    if s.len() == 0 {
        seq![cur]
    } else if s[0] == ' ' {
        seq![cur] + split_acc(s.drop_first(), Seq::empty())
    } else {
        split_acc(s.drop_first(), cur.push(s[0]))
    }
}

/// The token sequence that splitting an input string on single spaces
/// produces.
pub open spec fn spec_split(s: Seq<char>) -> Seq<Seq<char>> {
    split_acc(s, Seq::empty())
}

/// The declared rule name that an error carries.
pub open spec fn error_name(e: Error) -> Seq<char> {
    match e {
        Error::RequiredArgMissing(name) => name@,
    }
}

/// The model of an entry point's outcome: a result model on success, the
/// missing rule's name on failure.
pub open spec fn parse_outcome(r: Result<ParsedCommand, Error>) -> Result<
    ParsedModel,
    Seq<char>,
> {
    match r {
        Ok(p) => Ok(p@),
        Err(e) => Err(error_name(e)),
    }
}

/// The value bound to the first argument whose rule name matches, if
/// any.
pub open spec fn lookup_value(args: Seq<BindingModel>, name: Seq<char>) -> Option<Seq<char>>
    decreases args.len(),
{
    if args.len() == 0 {
        None
    } else if args[0].name == name {
        Some(args[0].value)
    } else {
        lookup_value(args.drop_first(), name)
    }
}

/// The bound values in binding order, names discarded.
pub open spec fn bound_values(args: Seq<BindingModel>) -> Seq<Seq<char>> {
    args.map_values(|b: BindingModel| b.value)
}

} // verus!
