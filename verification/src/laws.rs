//! General properties of the matching algorithm, stated over the models
//! of [`crate::model`] and proved once for all schemas and inputs.

use vstd::prelude::*;

use crate::model::bind_rules;
use crate::model::flag_run;
use crate::model::match_subs;
use crate::model::spec_parse;
use crate::model::strip_name;
use crate::model::BindingModel;
use crate::model::CommandModel;
use crate::model::ParsedModel;
use crate::model::RuleModel;

verus! {

/// Whether every positional rule of the schema, and of every schema
/// nested below it, is optional.
pub open spec fn all_optional(c: CommandModel) -> bool
    decreases c,
{
    (forall|i: int| 0 <= i < c.rules.len() ==> !(#[trigger] c.rules[i]).required) && (forall|
        i: int,
    |
        0 <= i < c.subs.len() ==> all_optional(#[trigger] c.subs[i]))
}

/// The run of flags never extends past the end of the tokens.
pub proof fn lemma_flag_run_bounds(flags: Set<Seq<char>>, tokens: Seq<Seq<char>>)
    ensures
        0 <= flag_run(flags, tokens) <= tokens.len(),
    decreases tokens.len(),
{
    if tokens.len() > 0 && flags.contains(tokens[0]) {
        lemma_flag_run_bounds(flags, tokens.drop_first());
    }
}

proof fn lemma_bind_all_optional(rules: Seq<RuleModel>, tokens: Seq<Seq<char>>)
    requires
        forall|i: int| 0 <= i < rules.len() ==> !(#[trigger] rules[i]).required,
    ensures
        bind_rules(rules, tokens) is Ok,
    decreases rules.len(),
{
    if rules.len() > 0 {
        if tokens.len() > 0 {
            lemma_bind_all_optional(rules.drop_first(), tokens.drop_first());
        } else {
            lemma_bind_all_optional(rules.drop_first(), tokens);
        }
    }
}

/// A schema whose rules are all optional, at every depth, parses every
/// token sequence successfully — the empty one included.
pub proof fn lemma_all_optional_parses(c: CommandModel, tokens: Seq<Seq<char>>)
    requires
        all_optional(c),
    ensures
        spec_parse(c, tokens) is Ok,
    decreases c,
{
    let rem = strip_name(c.name, tokens);
    lemma_all_optional_subs(c.subs, rem);
    lemma_bind_all_optional(c.rules, rem.skip(flag_run(c.flags, rem)));
}

proof fn lemma_all_optional_subs(subs: Seq<CommandModel>, tokens: Seq<Seq<char>>)
    requires
        forall|i: int| 0 <= i < subs.len() ==> all_optional(#[trigger] subs[i]),
    ensures
        match_subs(subs, tokens) is Ok,
    decreases subs,
{
    if tokens.len() == 0 || subs.len() == 0 {
    } else if subs[0].name == tokens[0] {
        lemma_all_optional_parses(subs[0], tokens.drop_first());
    } else {
        lemma_all_optional_subs(subs.drop_first(), tokens);
    }
}

proof fn lemma_bind_required_missing(rules: Seq<RuleModel>, tokens: Seq<Seq<char>>, i: int)
    requires
        0 <= i < rules.len(),
        rules[i].required,
        tokens.len() <= i,
        forall|j: int| tokens.len() <= j < i ==> !(#[trigger] rules[j]).required,
    ensures
        bind_rules(rules, tokens) == Err::<Seq<BindingModel>, Seq<char>>(rules[i].name),
    decreases rules.len(),
{
    if tokens.len() > 0 {
        lemma_bind_required_missing(rules.drop_first(), tokens.drop_first(), i - 1);
    } else if i > 0 {
        lemma_bind_required_missing(rules.drop_first(), tokens, i - 1);
    }
}

/// A schema with a required rule at position `i`, given tokens that
/// supply fewer than `i + 1` positional values once the name, the
/// subcommand step, and the flag prefix are accounted for, fails
/// naming exactly that rule — provided no matched subcommand fails
/// first and no earlier rule is both required and likewise unbound
/// (either would surface its own rule name instead).
pub proof fn lemma_required_rule_missing(c: CommandModel, tokens: Seq<Seq<char>>, i: int)
    requires
        0 <= i < c.rules.len(),
        c.rules[i].required,
        match_subs(c.subs, strip_name(c.name, tokens)) is Ok,
        ({
            let rem = strip_name(c.name, tokens);
            let avail = rem.len() - flag_run(c.flags, rem);
            avail <= i && (forall|j: int| avail <= j < i ==> !(#[trigger] c.rules[j]).required)
        }),
    ensures
        spec_parse(c, tokens) == Err::<ParsedModel, Seq<char>>(c.rules[i].name),
{
    let rem = strip_name(c.name, tokens);
    let k = flag_run(c.flags, rem);
    lemma_flag_run_bounds(c.flags, rem);
    lemma_bind_required_missing(c.rules, rem.skip(k), i);
}

/// The flag set that declaring tokens one at a time produces.
pub open spec fn insert_each(s: Set<Seq<char>>, tokens: Seq<Seq<char>>) -> Set<Seq<char>>
    decreases tokens.len(),
{
    if tokens.len() == 0 {
        s
    } else {
        insert_each(s.insert(tokens[0]), tokens.drop_first())
    }
}

/// Declaring a flag set by repeated single declarations yields the
/// same set as one bulk declaration of the same tokens; together with
/// [`lemma_parse_depends_on_model_alone`], the two declaration styles
/// give identical matching behaviour.
pub proof fn lemma_flag_declarations_agree(s: Set<Seq<char>>, tokens: Seq<Seq<char>>)
    ensures
        insert_each(s, tokens) == s.union(tokens.to_set()),
    decreases tokens.len(),
{
    if tokens.len() == 0 {
        assert forall|t: Seq<char>| !tokens.to_set().contains(t) by {}
        assert(insert_each(s, tokens) =~= s.union(tokens.to_set()));
    } else {
        lemma_flag_declarations_agree(s.insert(tokens[0]), tokens.drop_first());
        assert forall|t: Seq<char>|
            s.insert(tokens[0]).union(tokens.drop_first().to_set()).contains(t)
                == s.union(tokens.to_set()).contains(t) by {
            if tokens.drop_first().contains(t) {
                let j = choose|j: int|
                    0 <= j < tokens.drop_first().len() && tokens.drop_first()[j] == t;
                assert(tokens[j + 1] == t);
            }
            if tokens.contains(t) {
                let j = choose|j: int| 0 <= j < tokens.len() && tokens[j] == t;
                if j > 0 {
                    assert(tokens.drop_first()[j - 1] == t);
                }
            }
            if t == tokens[0] {
                assert(tokens.contains(t));
            }
        }
        assert(s.insert(tokens[0]).union(tokens.drop_first().to_set()) =~= s.union(
            tokens.to_set(),
        ));
    }
}

/// A parse is a function of the schema model and the tokens alone:
/// schemas with equal models match identically, however they were
/// declared.
pub proof fn lemma_parse_depends_on_model_alone(
    c1: CommandModel,
    c2: CommandModel,
    tokens: Seq<Seq<char>>,
)
    requires
        c1 == c2,
    ensures
        spec_parse(c1, tokens) == spec_parse(c2, tokens),
{
}

/// Stripping the command's own name is depth-independent and blind to
/// what the name is: prefixing the input with the schema's name, for
/// any schema and so for any root name, leaves the parse unchanged —
/// unless the unprefixed input already begins with that very name, in
/// which case the prefixed form strips only the added copy.
pub proof fn lemma_name_prefix_independent(c: CommandModel, tokens: Seq<Seq<char>>)
    requires
        tokens.len() > 0 ==> tokens[0] != c.name,
    ensures
        spec_parse(c, seq![c.name] + tokens) == spec_parse(c, tokens),
{
    let pre = seq![c.name] + tokens;
    assert(pre[0] == c.name);
    assert(pre.drop_first() =~= tokens);
    assert(strip_name(c.name, pre) == tokens);
    assert(strip_name(c.name, tokens) == tokens);
}

} // verus!
