//! The executable schema, matcher, and result types.
//!
//! [`Command`] is the declarative schema with its fluent builder,
//! [`ParsedCommand`] the immutable result of one parse, and [`Error`]
//! the single failure a parse can produce. Each type's view is its
//! model from [`crate::model`], and every operation's contract is
//! stated against the specification function
//! [`crate::model::spec_parse`].

use vstd::prelude::*;

use vstd::string::StringExecFns;

use vstd::string::StrSliceExecFns;

use crate::model::bind_rules;
use crate::model::bound_values;
use crate::model::flag_run;
use crate::model::match_subs;
use crate::model::parse_outcome;
use crate::model::spec_parse;
use crate::model::spec_split;
use crate::model::split_acc;
use crate::model::strip_name;
use crate::model::token_views;
use crate::model::error_name;
use crate::model::lookup_value;
use crate::model::str_views;
use crate::model::BindingModel;
use crate::model::CommandModel;
use crate::model::ParsedModel;
use crate::model::RuleModel;

verus! {

/// The single failure a parse can produce: a required positional rule
/// that no token was left to bind to, carrying the rule's declared
/// name.
#[derive(Debug, Clone)]
pub enum Error {
    RequiredArgMissing(String),
}

/// One declared positional slot.
#[derive(Debug, Clone)]
struct ArgRule {
    name: String,
    required: bool,
}

/// A declarative schema for one command level: its name, its
/// recognized flag tokens, its ordered positional rules, and its
/// ordered subcommand schemas. Built fluently; immutable once built.
pub struct Command {
    name: String,
    flags: Vec<String>,
    args: Vec<ArgRule>,
    subcommands: Vec<Command>,
}

/// One bound positional argument of a parse result.
#[derive(Debug, Clone)]
struct ParsedArg {
    name: String,
    value: String,
}

/// The immutable result of one parse: the schema name, the matched
/// flags, the bound positional arguments in binding order, and the
/// matched subcommand's own result, if any.
#[derive(Debug)]
pub struct ParsedCommand {
    command: String,
    flags: Vec<String>,
    args: Vec<ParsedArg>,
    subcommand_match: Option<Box<(String, ParsedCommand)>>,
}

spec fn strings_contain(v: Seq<String>, t: Seq<char>) -> bool {
    exists|i: int| 0 <= i < v.len() && v[i]@ == t
}

spec fn string_set(v: Seq<String>) -> Set<Seq<char>> {
    Set::new(|t: Seq<char>| strings_contain(v, t))
}

spec fn rule_model(r: ArgRule) -> RuleModel {
    RuleModel { name: r.name@, required: r.required }
}

spec fn rules_model(v: Seq<ArgRule>) -> Seq<RuleModel> {
    v.map_values(|r: ArgRule| rule_model(r))
}

spec fn cmd_model(c: Command) -> CommandModel
    decreases c,
{
    CommandModel {
        name: c.name@,
        flags: string_set(c.flags@),
        rules: rules_model(c.args@),
        subs: subs_model(c.subcommands@),
    }
}

spec fn subs_model(s: Seq<Command>) -> Seq<CommandModel>
    decreases s,
{
    if s.len() == 0 {
        Seq::empty()
    } else {
        seq![cmd_model(s[0])] + subs_model(s.drop_first())
    }
}

spec fn sub_matches(
    sub: Option<Box<(String, ParsedCommand)>>,
    m: Option<(Seq<char>, Box<ParsedModel>)>,
) -> bool {
    match (sub, m) {
        (Some(b), Some(mm)) => (*b).0@ == mm.0 && parsed_model((*b).1) == *mm.1,
        (None, None) => true,
        _ => false,
    }
}

spec fn bindings_model(v: Seq<ParsedArg>) -> Seq<BindingModel> {
    v.map_values(|a: ParsedArg| BindingModel { name: a.name@, value: a.value@ })
}

spec fn parsed_model(p: ParsedCommand) -> ParsedModel
    decreases p,
{
    ParsedModel {
        command: p.command@,
        flags: string_set(p.flags@),
        args: bindings_model(p.args@),
        sub: match p.subcommand_match {
            Some(b) => Some(((*b).0@, Box::new(parsed_model((*b).1)))),
            None => None,
        },
    }
}

impl View for Command {
    type V = CommandModel;

    closed spec fn view(&self) -> CommandModel {
        cmd_model(*self)
    }
}

impl View for ParsedCommand {
    type V = ParsedModel;

    closed spec fn view(&self) -> ParsedModel {
        parsed_model(*self)
    }
}

proof fn lemma_to_set_push(s: Seq<Seq<char>>, x: Seq<char>)
    ensures
        s.push(x).to_set() == s.to_set().insert(x),
{
    assert forall|t: Seq<char>|
        s.push(x).to_set().contains(t) == s.to_set().insert(x).contains(t) by {
        if s.push(x).contains(t) {
            let j = choose|j: int| 0 <= j < s.push(x).len() && s.push(x)[j] == t;
            if j < s.len() {
                assert(s[j] == t);
            }
        }
        if s.contains(t) {
            let j = choose|j: int| 0 <= j < s.len() && s[j] == t;
            assert(s.push(x)[j] == t);
        }
        if t == x {
            assert(s.push(x)[s.len() as int] == t);
        }
    }
    assert(s.push(x).to_set() =~= s.to_set().insert(x));
}

proof fn lemma_subs_model(s: Seq<Command>)
    ensures
        subs_model(s).len() == s.len(),
        forall|i: int| 0 <= i < s.len() ==> subs_model(s)[i] == cmd_model(s[i]),
    decreases s,
{
    if s.len() > 0 {
        lemma_subs_model(s.drop_first());
    }
}

/// Whether some element of `v` holds the same characters as `t`.
fn contains_token(v: &Vec<String>, t: &String) -> (r: bool)
    ensures
        r == strings_contain(v@, t@),
{
    let mut i: usize = 0;
    while i < v.len()
        invariant
            i <= v@.len(),
            forall|j: int| 0 <= j < i ==> v@[j]@ != t@,
        decreases v@.len() - i,
    {
        if v[i] == *t {
            return true;
        }
        i += 1;
    }
    false
}

impl Command {
    /// An empty schema with the given name: no flags, no positional
    /// rules, no subcommands.
    pub fn new(name: &str) -> (r: Self)
        ensures
            r@ == (CommandModel {
                name: name@,
                flags: Set::empty(),
                rules: Seq::empty(),
                subs: Seq::empty(),
            }),
    {
        let r = Command { name: name.to_owned(), flags: Vec::new(), args: Vec::new(), subcommands: Vec::new() };
        proof {
            assert(string_set(r.flags@) =~= Set::empty());
            assert(rules_model(r.args@) =~= Seq::empty());
            assert(r@ =~= (CommandModel {
                name: name@,
                flags: Set::empty(),
                rules: Seq::empty(),
                subs: Seq::empty(),
            }));
        }
        r
    }

    /// Adds one recognized flag token to the set; re-adding an already
    /// declared flag is a no-op.
    pub fn flag(self, flag: &str) -> (r: Self)
        ensures
            r@ == (CommandModel {
                name: self@.name,
                flags: self@.flags.insert(flag@),
                rules: self@.rules,
                subs: self@.subs,
            }),
    {
        let ghost pre = self;
        let mut this = self;
        let f = flag.to_owned();
        if !contains_token(&this.flags, &f) {
            this.flags.push(f);
            proof {
                assert(this.flags@[pre.flags@.len() as int]@ == flag@);
                assert(strings_contain(this.flags@, flag@));
            }
        } else {
            proof {
                assert(strings_contain(this.flags@, flag@));
            }
        }
        proof {
            assert forall|t: Seq<char>|
                strings_contain(this.flags@, t) == string_set(pre.flags@).insert(flag@).contains(
                    t,
                ) by {
                if strings_contain(this.flags@, t) {
                    let i = choose|i: int| 0 <= i < this.flags@.len() && this.flags@[i]@ == t;
                    if i < pre.flags@.len() {
                        assert(strings_contain(pre.flags@, t));
                    }
                }
                if strings_contain(pre.flags@, t) {
                    let i = choose|i: int| 0 <= i < pre.flags@.len() && pre.flags@[i]@ == t;
                    assert(this.flags@[i]@ == t);
                }
                if t == flag@ {
                    assert(strings_contain(this.flags@, t));
                }
            }
            assert(string_set(this.flags@) =~= string_set(pre.flags@).insert(flag@));
            assert(this@ =~= (CommandModel {
                name: pre@.name,
                flags: pre@.flags.insert(flag@),
                rules: pre@.rules,
                subs: pre@.subs,
            }));
        }
        this
    }

    /// Adds each of the given flag tokens, in order; the bulk variant
    /// of `flag`.
    pub fn flags(self, flags: &[&str]) -> (r: Self)
        ensures
            r@ == (CommandModel {
                name: self@.name,
                flags: self@.flags.union(str_views(flags@).to_set()),
                rules: self@.rules,
                subs: self@.subs,
            }),
    {
        let ghost pre = self;
        let mut this = self;
        let mut i: usize = 0;
        while i < flags.len()
            invariant
                i <= flags@.len(),
                this@ == (CommandModel {
                    name: pre@.name,
                    flags: pre@.flags.union(str_views(flags@).take(i as int).to_set()),
                    rules: pre@.rules,
                    subs: pre@.subs,
                }),
            decreases flags@.len() - i,
        {
            this = this.flag(flags[i]);
            proof {
                assert(str_views(flags@).take(i + 1) =~= str_views(flags@).take(i as int).push(
                    flags@[i as int]@,
                ));
                lemma_to_set_push(str_views(flags@).take(i as int), flags@[i as int]@);
                assert(pre@.flags.union(str_views(flags@).take(i as int).to_set()).insert(
                    flags@[i as int]@,
                ) =~= pre@.flags.union(str_views(flags@).take(i + 1).to_set()));
                assert(this@ =~= (CommandModel {
                    name: pre@.name,
                    flags: pre@.flags.union(str_views(flags@).take(i + 1).to_set()),
                    rules: pre@.rules,
                    subs: pre@.subs,
                }));
            }
            i += 1;
        }
        proof {
            assert(str_views(flags@).take(flags@.len() as int) =~= str_views(flags@));
            assert(this@ =~= (CommandModel {
                name: pre@.name,
                flags: pre@.flags.union(str_views(flags@).to_set()),
                rules: pre@.rules,
                subs: pre@.subs,
            }));
        }
        this
    }

    /// Appends one positional rule. The order of `arg` calls defines
    /// the binding order; required-ness is attached per slot, and rules
    /// are never reordered.
    pub fn arg(self, name: &str, required: bool) -> (r: Self)
        ensures
            r@ == (CommandModel {
                name: self@.name,
                flags: self@.flags,
                rules: self@.rules.push(RuleModel { name: name@, required }),
                subs: self@.subs,
            }),
    {
        let ghost pre = self;
        let mut this = self;
        this.args.push(ArgRule { name: name.to_owned(), required });
        proof {
            assert(rules_model(this.args@) =~= rules_model(pre.args@).push(
                RuleModel { name: name@, required },
            ));
            assert(this@ =~= (CommandModel {
                name: pre@.name,
                flags: pre@.flags,
                rules: pre@.rules.push(RuleModel { name: name@, required }),
                subs: pre@.subs,
            }));
        }
        this
    }

    /// Appends a child schema; the first-added subcommand has the
    /// highest match priority.
    pub fn subcommand(self, subcommand: Command) -> (r: Self)
        ensures
            r@ == (CommandModel {
                name: self@.name,
                flags: self@.flags,
                rules: self@.rules,
                subs: self@.subs.push(subcommand@),
            }),
    {
        let ghost pre = self;
        let ghost sub = subcommand;
        let mut this = self;
        this.subcommands.push(subcommand);
        proof {
            lemma_subs_model(pre.subcommands@);
            lemma_subs_model(this.subcommands@);
            assert(subs_model(this.subcommands@) =~= subs_model(pre.subcommands@).push(
                cmd_model(sub),
            ));
            assert(this@ =~= (CommandModel {
                name: pre@.name,
                flags: pre@.flags,
                rules: pre@.rules,
                subs: pre@.subs.push(sub@),
            }));
        }
        this
    }
}

/// An element-wise copy of a vector of tokens.
fn clone_strings(v: &Vec<String>) -> (r: Vec<String>)
    ensures
        r@ == v@,
{
    let mut out: Vec<String> = Vec::new();
    let mut i: usize = 0;
    while i < v.len()
        invariant
            i <= v@.len(),
            out@ == v@.take(i as int),
        decreases v@.len() - i,
    {
        out.push(v[i].clone());
        proof {
            assert(out@ =~= v@.take(i + 1));
        }
        i += 1;
    }
    proof {
        assert(v@.take(v@.len() as int) =~= v@);
    }
    out
}

/// An element-wise copy of a vector of positional rules.
fn clone_rules(v: &Vec<ArgRule>) -> (r: Vec<ArgRule>)
    ensures
        r@ == v@,
{
    let mut out: Vec<ArgRule> = Vec::new();
    let mut i: usize = 0;
    while i < v.len()
        invariant
            i <= v@.len(),
            out@ == v@.take(i as int),
        decreases v@.len() - i,
    {
        out.push(ArgRule { name: v[i].name.clone(), required: v[i].required });
        proof {
            assert(out@ =~= v@.take(i + 1));
        }
        i += 1;
    }
    proof {
        assert(v@.take(v@.len() as int) =~= v@);
    }
    out
}

/// A deep copy of a schema, model-equal to the original.
fn clone_cmd(c: &Command) -> (r: Command)
    ensures
        r@ == c@,
    decreases *c,
{
    let mut subs: Vec<Command> = Vec::new();
    let mut i: usize = 0;
    while i < c.subcommands.len()
        invariant
            i <= c.subcommands@.len(),
            subs@.len() == i,
            forall|j: int| 0 <= j < i ==> cmd_model(#[trigger] subs@[j]) == cmd_model(
                c.subcommands@[j],
            ),
        decreases c.subcommands@.len() - i,
    {
        subs.push(clone_cmd(&c.subcommands[i]));
        i += 1;
    }
    let r = Command {
        name: c.name.clone(),
        flags: clone_strings(&c.flags),
        args: clone_rules(&c.args),
        subcommands: subs,
    };
    proof {
        lemma_subs_model(r.subcommands@);
        lemma_subs_model(c.subcommands@);
        assert(subs_model(r.subcommands@) =~= subs_model(c.subcommands@));
        assert(r@ =~= c@);
    }
    r
}

/// An element-wise copy of a vector of bound arguments.
fn clone_parsed_args(v: &Vec<ParsedArg>) -> (r: Vec<ParsedArg>)
    ensures
        r@ == v@,
{
    let mut out: Vec<ParsedArg> = Vec::new();
    let mut i: usize = 0;
    while i < v.len()
        invariant
            i <= v@.len(),
            out@ == v@.take(i as int),
        decreases v@.len() - i,
    {
        out.push(ParsedArg { name: v[i].name.clone(), value: v[i].value.clone() });
        proof {
            assert(out@ =~= v@.take(i + 1));
        }
        i += 1;
    }
    proof {
        assert(v@.take(v@.len() as int) =~= v@);
    }
    out
}

/// A deep copy of a parse result, model-equal to the original.
fn clone_parsed(p: &ParsedCommand) -> (r: ParsedCommand)
    ensures
        r@ == p@,
    decreases *p,
{
    let sub: Option<Box<(String, ParsedCommand)>> = match &p.subcommand_match {
        Some(b) => Some(Box::new((b.0.clone(), clone_parsed(&b.1)))),
        None => None,
    };
    let r = ParsedCommand {
        command: p.command.clone(),
        flags: clone_strings(&p.flags),
        args: clone_parsed_args(&p.args),
        subcommand_match: sub,
    };
    proof {
        assert(r@ =~= p@);
    }
    r
}

impl Error {
    /// The error's descriptive text, naming the required rule that
    /// could not be bound.
    pub fn message(&self) -> (r: String)
        ensures
            r@ == "Missing required arg \""@ + error_name(*self) + "\""@,
    {
        match self {
            Error::RequiredArgMissing(name) => {
                let mut s = String::from_str("Missing required arg \"");
                s.append(name.as_str());
                s.append("\"");
                s
            },
        }
    }
}

impl ParsedCommand {
    /// Whether the given token was matched as a flag.
    pub fn has_flag(&self, flag: &str) -> (r: bool)
        ensures
            r == self@.flags.contains(flag@),
    {
        let f = flag.to_owned();
        contains_token(&self.flags, &f)
    }

    /// The value bound to the first positional rule with the given
    /// name, or nothing if that slot was optional and left unbound, or
    /// the name is unknown.
    pub fn arg(&self, name: &str) -> (r: Option<&str>)
        ensures
            match r {
                Some(v) => lookup_value(self@.args, name@) == Some(v@),
                None => lookup_value(self@.args, name@) is None,
            },
    {
        let n = name.to_owned();
        let ghost margs = self@.args;
        proof {
            assert(margs.skip(0) =~= margs);
        }
        let mut i: usize = 0;
        while i < self.args.len()
            invariant
                i <= self.args@.len(),
                margs == bindings_model(self.args@),
                n@ == name@,
                lookup_value(margs, name@) == lookup_value(margs.skip(i as int), name@),
            decreases self.args@.len() - i,
        {
            if self.args[i].name == n {
                proof {
                    assert(margs.skip(i as int)[0] == margs[i as int]);
                }
                return Some(self.args[i].value.as_str());
            }
            proof {
                assert(margs.skip(i as int).drop_first() =~= margs.skip(i + 1));
            }
            i += 1;
        }
        proof {
            assert(margs.skip(self.args@.len() as int).len() == 0);
        }
        None
    }

    /// The bound values in binding order, names discarded.
    pub fn args(&self) -> (r: Vec<&str>)
        ensures
            str_views(r@) == bound_values(self@.args),
    {
        let mut out: Vec<&str> = Vec::new();
        let mut i: usize = 0;
        while i < self.args.len()
            invariant
                i <= self.args@.len(),
                out@.len() == i,
                forall|j: int| 0 <= j < i ==> out@[j]@ == self.args@[j].value@,
            decreases self.args@.len() - i,
        {
            out.push(self.args[i].value.as_str());
            i += 1;
        }
        proof {
            assert(str_views(out@) =~= bound_values(parsed_model(*self).args));
        }
        out
    }

    /// The matched subcommand's name and its own result, if a
    /// subcommand matched; an independent copy, so repeated calls are
    /// side-effect-free.
    pub fn subcommand(&self) -> (r: Option<(&str, ParsedCommand)>)
        ensures
            match (r, self@.sub) {
                (Some(p), Some(m)) => p.0@ == m.0 && p.1@ == *m.1,
                (None, None) => true,
                _ => false,
            },
    {
        match &self.subcommand_match {
            Some(b) => Some((b.0.as_str(), clone_parsed(&b.1))),
            None => None,
        }
    }

    /// The schema name this result was produced from.
    pub fn command(&self) -> (r: &str)
        ensures
            r@ == self@.command,
    {
        self.command.as_str()
    }
}

impl Command {
    /// Parses the given token sequence against this schema: strips the
    /// schema's own name if present, matches the first subcommand whose
    /// name equals the next token, consumes the leading run of declared
    /// flags, and binds the remaining tokens to the positional rules in
    /// order. Fails exactly when a required rule is left unbound, at
    /// whatever depth the shortfall occurs.
    pub fn parse_from(&self, tokens: &[String]) -> (r: Result<ParsedCommand, Error>)
        ensures
            parse_outcome(r) == spec_parse(self@, token_views(tokens@)),
        decreases *self,
    {
        let ghost views = token_views(tokens@);
        let ghost me = self@;
        let n = tokens.len();
        let mut idx: usize = 0;
        if n > 0 && tokens[0] == self.name {
            idx = 1;
        }
        let ghost rem = strip_name(me.name, views);
        proof {
            assert(rem =~= views.skip(idx as int));
        }

        // Subcommand detection: find the first child whose name equals
        // the next token and parse the remainder against it.
        let mut sub: Option<Box<(String, ParsedCommand)>> = None;
        let ghost mut sub_m: Option<(Seq<char>, Box<ParsedModel>)> = None;
        proof {
            lemma_subs_model(self.subcommands@);
            assert(me.subs.skip(0) =~= me.subs);
        }
        if idx < n {
            let sc = self.subcommands.len();
            let mut j: usize = 0;
            while j < sc && !(self.subcommands[j].name == tokens[idx])
                invariant
                    j <= sc,
                    sc == self.subcommands@.len(),
                    idx < n,
                    n == tokens@.len(),
                    views == token_views(tokens@),
                    me == self@,
                    rem == views.skip(idx as int),
                    me.subs.len() == sc,
                    forall|t: int| 0 <= t < sc ==> me.subs[t] == cmd_model(
                        #[trigger] self.subcommands@[t],
                    ),
                    match_subs(me.subs, rem) == match_subs(me.subs.skip(j as int), rem),
                decreases sc - j,
            {
                proof {
                    assert(me.subs.skip(j as int)[0] == me.subs[j as int]);
                    assert(rem[0] == views[idx as int]);
                    assert(me.subs.skip(j as int).drop_first() =~= me.subs.skip(j + 1));
                }
                j += 1;
            }
            if j < sc {
                let ghost child_m = me.subs[j as int];
                proof {
                    assert(me.subs.skip(j as int)[0] == me.subs[j as int]);
                    assert(rem[0] == views[idx as int]);
                    assert(child_m.name == rem[0]);
                }
                let rest = &tokens[idx + 1..n];
                proof {
                    assert(token_views(rest@) =~= rem.drop_first());
                    assert(decreases_to!(self.subcommands => self.subcommands@));
                    assert(decreases_to!(self.subcommands@ => self.subcommands@[j as int]));
                }
                let child = &self.subcommands[j];
                match child.parse_from(rest) {
                    Ok(pc) => {
                        let name = child.name.clone();
                        proof {
                            sub_m = Some((child_m.name, Box::new(pc@)));
                            assert(match_subs(me.subs, rem) == Ok::<
                                Option<(Seq<char>, Box<ParsedModel>)>,
                                Seq<char>,
                            >(sub_m));
                        }
                        sub = Some(Box::new((name, pc)));
                    },
                    Err(e) => {
                        proof {
                            assert(match_subs(me.subs, rem) == Err::<
                                Option<(Seq<char>, Box<ParsedModel>)>,
                                Seq<char>,
                            >(error_name(e)));
                        }
                        return Err(e);
                    },
                }
            }
        }
        proof {
            assert(match_subs(me.subs, rem) == Ok::<
                Option<(Seq<char>, Box<ParsedModel>)>,
                Seq<char>,
            >(sub_m));
            assert(sub_matches(sub, sub_m));
        }

        // Flag consumption: greedily take the contiguous prefix of
        // declared flag tokens.
        let ghost k = flag_run(me.flags, rem);
        let ghost base = idx as int;
        let mut flags: Vec<String> = Vec::new();
        while idx < n && contains_token(&self.flags, &tokens[idx])
            invariant
                base <= idx as int <= n as int,
                n == tokens@.len(),
                views == token_views(tokens@),
                me == self@,
                rem == views.skip(base),
                k == flag_run(me.flags, rem),
                flags@.len() == idx as int - base,
                forall|t: int| 0 <= t < flags@.len() ==> flags@[t]@ == views[base + t],
                flag_run(me.flags, rem) == idx as int - base + flag_run(
                    me.flags,
                    views.skip(idx as int),
                ),
            decreases n - idx,
        {
            proof {
                assert(views.skip(idx as int)[0] == views[idx as int]);
                assert(me.flags.contains(views[idx as int]));
                assert(views.skip(idx as int).drop_first() =~= views.skip(idx as int + 1));
            }
            flags.push(tokens[idx].clone());
            idx += 1;
        }
        proof {
            assert(flag_run(me.flags, views.skip(idx as int)) == 0);
            assert(k == idx as int - base);
            assert forall|t: Seq<char>|
                strings_contain(flags@, t) == rem.take(k).to_set().contains(t) by {
                if strings_contain(flags@, t) {
                    let i = choose|i: int| 0 <= i < flags@.len() && flags@[i]@ == t;
                    assert(rem.take(k)[i] == rem[i]);
                    assert(rem[i] == views[base + i]);
                }
                if rem.take(k).contains(t) {
                    let i = choose|i: int| 0 <= i < rem.take(k).len() && rem.take(k)[i] == t;
                    assert(rem.take(k)[i] == views[base + i]);
                    assert(flags@[i]@ == t);
                }
            }
            assert(string_set(flags@) =~= rem.take(k).to_set());
        }

        // Positional binding: zip the declared rules against what is
        // left, in order.
        let ghost after = rem.skip(k);
        proof {
            assert(after =~= views.skip(idx as int));
            assert(me.rules.skip(0) =~= me.rules);
            assert(bindings_model(Seq::empty()).len() == 0);
        }
        let mut parsed_args: Vec<ParsedArg> = Vec::new();
        let rn = self.args.len();
        let mut ri: usize = 0;
        while ri < rn
            invariant
                ri <= rn,
                rn == self.args@.len(),
                n == tokens@.len(),
                idx as int <= n as int,
                views == token_views(tokens@),
                me == self@,
                rem == strip_name(me.name, views),
                k == flag_run(me.flags, rem),
                after == rem.skip(k),
                match_subs(me.subs, rem) == Ok::<
                    Option<(Seq<char>, Box<ParsedModel>)>,
                    Seq<char>,
                >(sub_m),
                bind_rules(me.rules, after) == (match bind_rules(
                    me.rules.skip(ri as int),
                    views.skip(idx as int),
                ) {
                    Ok(rest) => Ok::<Seq<BindingModel>, Seq<char>>(
                        bindings_model(parsed_args@) + rest,
                    ),
                    Err(e) => Err::<Seq<BindingModel>, Seq<char>>(e),
                }),
            decreases rn - ri,
        {
            proof {
                assert(me.rules.skip(ri as int)[0] == me.rules[ri as int]);
                assert(me.rules[ri as int] == rule_model(self.args@[ri as int]));
                assert(me.rules.skip(ri as int).drop_first() =~= me.rules.skip(ri + 1));
            }
            if idx < n {
                proof {
                    assert(views.skip(idx as int)[0] == views[idx as int]);
                    assert(views.skip(idx as int).drop_first() =~= views.skip(idx as int + 1));
                }
                let newarg = ParsedArg {
                    name: self.args[ri].name.clone(),
                    value: tokens[idx].clone(),
                };
                let ghost b = BindingModel { name: me.rules[ri as int].name, value: views[idx as int] };
                let ghost acc_old = bindings_model(parsed_args@);
                parsed_args.push(newarg);
                proof {
                    assert(bindings_model(parsed_args@) =~= acc_old.push(b));
                    match bind_rules(me.rules.skip(ri + 1), views.skip(idx as int + 1)) {
                        Ok(rest) => {
                            assert(acc_old.push(b) + rest =~= acc_old + (seq![b] + rest));
                        },
                        Err(e) => {},
                    }
                }
                idx += 1;
            } else {
                if self.args[ri].required {
                    let e = Error::RequiredArgMissing(self.args[ri].name.clone());
                    proof {
                        assert(views.skip(idx as int).len() == 0);
                        assert(bind_rules(me.rules.skip(ri as int), views.skip(idx as int))
                            == Err::<Seq<BindingModel>, Seq<char>>(me.rules[ri as int].name));
                    }
                    return Err(e);
                }
                proof {
                    assert(views.skip(idx as int).len() == 0);
                }
            }
            ri += 1;
        }
        proof {
            assert(me.rules.skip(rn as int).len() == 0);
            assert(bindings_model(parsed_args@) + Seq::<BindingModel>::empty() =~= bindings_model(
                parsed_args@,
            ));
        }

        let result = ParsedCommand {
            command: self.name.clone(),
            flags,
            args: parsed_args,
            subcommand_match: sub,
        };
        proof {
            assert(parsed_model(result).sub == sub_m);
            assert(parsed_model(result) =~= (ParsedModel {
                command: me.name,
                flags: rem.take(k).to_set(),
                args: bind_rules(me.rules, rem.skip(k))->Ok_0,
                sub: sub_m,
            }));
        }
        Ok(result)
    }

    /// Splits the input on single space characters and parses the
    /// resulting tokens; consecutive spaces therefore produce empty
    /// tokens, which never equal a name or flag and bind as
    /// empty-string positional values.
    pub fn parse(&self, input: &str) -> (r: Result<ParsedCommand, Error>)
        ensures
            parse_outcome(r) == spec_parse(self@, spec_split(input@)),
    {
        let tokens = split_tokens(input);
        self.parse_from(tokens.as_slice())
    }
}

/// Splits the input on single space characters.
fn split_tokens(input: &str) -> (r: Vec<String>)
    ensures
        token_views(r@) == spec_split(input@),
{
    let n = input.unicode_len();
    let mut toks: Vec<String> = Vec::new();
    let mut start: usize = 0;
    let mut i: usize = 0;
    proof {
        assert(input@.skip(0) =~= input@);
        assert(input@.subrange(0, 0) =~= Seq::<char>::empty());
        assert(token_views(toks@).len() == 0);
        assert(token_views(toks@) + split_acc(input@, Seq::empty()) =~= split_acc(
            input@,
            Seq::empty(),
        ));
    }
    while i < n
        invariant
            start <= i <= n,
            n == input@.len(),
            spec_split(input@) == token_views(toks@) + split_acc(
                input@.skip(i as int),
                input@.subrange(start as int, i as int),
            ),
        decreases n - i,
    {
        proof {
            assert(input@.skip(i as int)[0] == input@[i as int]);
            assert(input@.skip(i as int).drop_first() =~= input@.skip(i as int + 1));
        }
        if input.get_char(i) == ' ' {
            let t = input.substring_char(start, i).to_owned();
            let ghost old_toks = toks@;
            toks.push(t);
            proof {
                assert(token_views(toks@) =~= token_views(old_toks).push(
                    input@.subrange(start as int, i as int),
                ));
                assert(input@.subrange(i as int + 1, i as int + 1) =~= Seq::<char>::empty());
                let rest = split_acc(input@.skip(i as int + 1), Seq::empty());
                assert(token_views(old_toks).push(input@.subrange(start as int, i as int)) + rest
                    =~= token_views(old_toks) + (seq![
                    input@.subrange(start as int, i as int),
                ] + rest));
            }
            start = i + 1;
        } else {
            proof {
                assert(input@.subrange(start as int, i as int).push(input@[i as int])
                    =~= input@.subrange(start as int, i as int + 1));
            }
        }
        i += 1;
    }
    let last = input.substring_char(start, n).to_owned();
    let ghost old_toks = toks@;
    toks.push(last);
    proof {
        assert(input@.skip(n as int).len() == 0);
        assert(token_views(toks@) =~= token_views(old_toks).push(
            input@.subrange(start as int, n as int),
        ));
        assert(token_views(old_toks).push(input@.subrange(start as int, n as int)) =~=
            token_views(old_toks) + seq![input@.subrange(start as int, n as int)]);
    }
    toks
}

impl Clone for Command {
    /// A deep copy whose model equals this schema's model.
    fn clone(&self) -> (r: Self)
        ensures
            r@ == self@,
    {
        clone_cmd(self)
    }
}

impl Clone for ParsedCommand {
    /// A deep copy whose model equals this result's model.
    fn clone(&self) -> (r: Self)
        ensures
            r@ == self@,
    {
        clone_parsed(self)
    }
}

} // verus!
