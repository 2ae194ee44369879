//! The command line: keys (arguments that start with `-`) and the one or two
//! parameters that follow each of them.

use vstd::prelude::*;

verus! {

/// What follows a key on the command line.
#[derive(Debug, Clone, PartialEq)]
pub enum Param {
    WithTwo(String, String),
    With(String),
    Without,
}

pub type Key = String;

/// A key together with its parameters.
#[derive(Debug, Clone, PartialEq)]
pub struct CompletedCommand {
    pub key: Key,
    pub param: Param,
}

pub type Args = Vec<CompletedCommand>;

/// The abstract value of a [`Param`]: its strings as sequences of characters.
pub enum ParamView {
    WithTwo(Seq<char>, Seq<char>),
    With(Seq<char>),
    Without,
}

/// The abstract value of a [`CompletedCommand`].
pub struct CommandView {
    pub key: Seq<char>,
    pub param: ParamView,
}

impl View for Param {
    type V = ParamView;

    open spec fn view(&self) -> ParamView {
        match self {
            Param::WithTwo(a, b) => ParamView::WithTwo(a@, b@),
            Param::With(a) => ParamView::With(a@),
            Param::Without => ParamView::Without,
        }
    }
}

impl View for CompletedCommand {
    type V = CommandView;

    open spec fn view(&self) -> CommandView {
        CommandView { key: self.key@, param: self.param@ }
    }
}

/// The characters of each argument.
pub open spec fn arg_views(args: Seq<String>) -> Seq<Seq<char>> {
    args.map_values(|s: String| s@)
}

/// The abstract value of a list of commands.
pub open spec fn commands_view(cmds: Seq<CompletedCommand>) -> Seq<CommandView> {
    cmds.map_values(|c: CompletedCommand| c@)
}

/// An argument is a key when its first character is `-`.
pub open spec fn is_key(s: Seq<char>) -> bool {
    s.len() > 0 && s[0] == '-'
}

/// The parameters of the key at position `i`: up to two following arguments
/// that are not keys themselves.
pub open spec fn param_at(args: Seq<Seq<char>>, i: int) -> ParamView {
    if i + 1 >= args.len() || is_key(args[i + 1]) {
        ParamView::Without
    } else if i + 2 >= args.len() || is_key(args[i + 2]) {
        ParamView::With(args[i + 1])
    } else {
        ParamView::WithTwo(args[i + 1], args[i + 2])
    }
}

/// The command of the key at position `i`.
pub open spec fn command_at(args: Seq<Seq<char>>, i: int) -> CommandView {
    CommandView { key: args[i], param: param_at(args, i) }
}

/// The commands of the keys among the first `n` arguments, in order.
pub open spec fn parse_prefix(args: Seq<Seq<char>>, n: int) -> Seq<CommandView>
    decreases n,
{
    if n <= 0 {
        seq![]
    } else if is_key(args[n - 1]) {
        parse_prefix(args, n - 1).push(command_at(args, n - 1))
    } else {
        parse_prefix(args, n - 1)
    }
}

/// The commands of all keys of `args`, in order.
pub open spec fn parse_spec(args: Seq<Seq<char>>) -> Seq<CommandView> {
    parse_prefix(args, args.len() as int)
}

/// Every argument that the parser inspects for its first character has one:
/// the one after a key, and the one after that when the first is no key.
pub open spec fn params_nonempty(args: Seq<Seq<char>>) -> bool {
    forall|i: int|
        #![trigger is_key(args[i])]
        0 <= i < args.len() && is_key(args[i]) ==> {
            &&& i + 1 < args.len() ==> args[i + 1].len() > 0
            &&& (i + 2 < args.len() && !is_key(args[i + 1])) ==> args[i + 2].len() > 0
        }
}

impl CompletedCommand {
    fn new(key_t: Key, param_t: Param) -> (c: Self)
        ensures
            c.key == key_t,
            c.param == param_t,
    {
        Self { key: key_t, param: param_t }
    }
}

/// Tells whether `key` is a key: whether it starts with `-`.
pub fn key_check(key: &str) -> (r: bool)
    ensures
        r == is_key(key@),
{
    let mut chars = key.chars();
    match chars.next() {
        Some(ch) => ch == '-',
        None => false,
    }
}

/// Collects a command for each key of `args`: the key with the one or two
/// arguments after it that are no keys.
pub fn parse_commands(args: Vec<String>) -> (cmds: Args)
    requires
        params_nonempty(arg_views(args@)),
    ensures
        commands_view(cmds@) == parse_spec(arg_views(args@)),
{
    let ghost a = arg_views(args@);
    let mut compl_comands: Args = Vec::new();
    let len = args.len();
    for index in 0..len
        invariant
            len == args@.len(),
            a == arg_views(args@),
            a.len() == len,
            commands_view(compl_comands@) == parse_prefix(a, index as int),
    {
        assert(a[index as int] == args@[index as int]@);
        if key_check(args[index].as_str()) {
            let param = if index + 1 < len {
                assert(a[index + 1] == args@[index + 1]@);
                if key_check(args[index + 1].as_str()) {
                    Param::Without
                } else if index + 2 < len {
                    assert(a[index + 2] == args@[index + 2]@);
                    if key_check(args[index + 2].as_str()) {
                        Param::With(args[index + 1].clone())
                    } else {
                        Param::WithTwo(args[index + 1].clone(), args[index + 2].clone())
                    }
                } else {
                    Param::With(args[index + 1].clone())
                }
            } else {
                Param::Without
            };
            assert(param@ == param_at(a, index as int));
            let cmd = CompletedCommand::new(args[index].clone(), param);
            compl_comands.push(cmd);
            assert(commands_view(compl_comands@) =~= parse_prefix(a, index + 1));
        } else {
            assert(commands_view(compl_comands@) =~= parse_prefix(a, index + 1));
        }
    }
    compl_comands
}

/// The keys of a list of commands.
pub open spec fn command_keys(cmds: Seq<CommandView>) -> Seq<Seq<char>> {
    cmds.map_values(|c: CommandView| c.key)
}

/// A command is a key with parameters that are no keys.
pub open spec fn command_well_formed(c: CommandView) -> bool {
    &&& is_key(c.key)
    &&& match c.param {
        ParamView::WithTwo(a, b) => !is_key(a) && !is_key(b),
        ParamView::With(a) => !is_key(a),
        ParamView::Without => true,
    }
}

proof fn lemma_parse_prefix(args: Seq<Seq<char>>, n: int)
    requires
        0 <= n <= args.len(),
    ensures
        command_keys(parse_prefix(args, n)) == args.take(n).filter(|s: Seq<char>| is_key(s)),
        forall|j: int|
            0 <= j < parse_prefix(args, n).len() ==> command_well_formed(
                #[trigger] parse_prefix(args, n)[j],
            ),
    decreases n,
{
    reveal_with_fuel(Seq::<_>::filter, 1);
    if n > 0 {
        lemma_parse_prefix(args, n - 1);
        assert(args.take(n).drop_last() =~= args.take(n - 1));
        assert(args.take(n).last() == args[n - 1]);
        assert(command_keys(parse_prefix(args, n)) =~= args.take(n).filter(
            |s: Seq<char>| is_key(s),
        ));
    } else {
        assert(args.take(0) =~= Seq::<Seq<char>>::empty());
        assert(command_keys(parse_prefix(args, n)) =~= args.take(n).filter(
            |s: Seq<char>| is_key(s),
        ));
    }
}

/// The parser makes one command for each key, in the order of the keys:
/// the keys of its commands are the arguments that are keys. Each command
/// is a key with parameters that are no keys.
pub proof fn law_one_command_per_key(args: Seq<Seq<char>>)
    ensures
        command_keys(parse_spec(args)) == args.filter(|s: Seq<char>| is_key(s)),
        forall|j: int|
            0 <= j < parse_spec(args).len() ==> command_well_formed(#[trigger] parse_spec(args)[j]),
{
    lemma_parse_prefix(args, args.len() as int);
    assert(args.take(args.len() as int) =~= args);
}

/// Arguments of which none is a key give no command.
pub proof fn law_no_key_no_command(args: Seq<Seq<char>>)
    requires
        forall|i: int| 0 <= i < args.len() ==> !is_key(#[trigger] args[i]),
    ensures
        parse_spec(args).len() == 0,
{
    law_one_command_per_key(args);
    if parse_spec(args).len() > 0 {
        assert(command_well_formed(parse_spec(args)[0]));
        let k = parse_spec(args)[0].key;
        assert(command_keys(parse_spec(args))[0] == k);
        assert(args.filter(|s: Seq<char>| is_key(s)).contains(k));
        args.lemma_filter_contains_rev(|s: Seq<char>| is_key(s), k);
    }
}

/// A key is an argument that starts with a dash.
pub proof fn law_key_is_leading_dash(s: Seq<char>)
    ensures
        is_key(s) <==> (s.len() > 0 && s[0] == '-'),
{
}

/// The number of keys among the first `i` arguments.
pub open spec fn keys_before(args: Seq<Seq<char>>, i: int) -> nat {
    args.take(i).filter(|s: Seq<char>| is_key(s)).len()
}

/// `p` takes as many arguments after position `i` as it can, up to two,
/// while they are no keys: none where the next is a key or there is none,
/// one where the one after it is a key or there is none, else two.
pub open spec fn params_follow(args: Seq<Seq<char>>, i: int, p: ParamView) -> bool {
    match p {
        ParamView::Without => i + 1 == args.len() || is_key(args[i + 1]),
        ParamView::With(a) => {
            &&& i + 1 < args.len()
            &&& args[i + 1] == a
            &&& !is_key(a)
            &&& (i + 2 == args.len() || is_key(args[i + 2]))
        },
        ParamView::WithTwo(a, b) => {
            &&& i + 2 < args.len()
            &&& args[i + 1] == a
            &&& args[i + 2] == b
            &&& !is_key(a)
            &&& !is_key(b)
        },
    }
}

proof fn lemma_command_position(args: Seq<Seq<char>>, i: int, n: int)
    requires
        0 <= i < n <= args.len(),
        is_key(args[i]),
    ensures
        keys_before(args, i) < parse_prefix(args, n).len(),
        parse_prefix(args, n)[keys_before(args, i) as int] == command_at(args, i),
    decreases n,
{
    if n == i + 1 {
        lemma_parse_prefix(args, i);
        assert(command_keys(parse_prefix(args, i)).len() == parse_prefix(args, i).len());
    } else {
        lemma_command_position(args, i, n - 1);
    }
}

/// Each key of the arguments makes the command at the position given by
/// the number of keys before it: that command has the key itself, and its
/// parameters are the arguments after the key, as many as possible up to
/// two, up to the next key.
pub proof fn law_command_of_each_key(args: Seq<Seq<char>>, i: int)
    requires
        0 <= i < args.len(),
        is_key(args[i]),
    ensures
        keys_before(args, i) < parse_spec(args).len(),
        parse_spec(args)[keys_before(args, i) as int].key == args[i],
        params_follow(args, i, parse_spec(args)[keys_before(args, i) as int].param),
{
    lemma_command_position(args, i, args.len() as int);
}

} // verus!
