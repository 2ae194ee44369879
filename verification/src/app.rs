//! The decisions of the program: what its command line asks for, and which
//! working directory its configuration names.

use vstd::prelude::*;

use crate::components::{
    arg_views, commands_view, params_nonempty, parse_commands, parse_spec, Args, CommandView, Param,
    ParamView,
};

verus! {

/// The program.
pub struct Application;

/// What the `-s` command asks of the stored working directory.
pub enum WorkDirAction {
    /// There is no `-s` command: the stored working directory stays.
    Keep,
    /// `-s path`: the working directory becomes `path`, if it exists.
    SetTo(String),
    /// `-s` followed by two paths, where it takes one.
    Invalid,
}

/// What the program does with its command line.
pub enum StartPlan {
    /// No command was given: show the help and stop.
    Help,
    /// Commands were given: apply `work_dir`, then read the working
    /// directory from the configuration.
    Run { commands: Args, work_dir: WorkDirAction },
}

/// Where the configuration stands after it has been read.
pub enum WorkDirStep {
    /// The working directory is known.
    Done(String),
    /// The working directory is this path if it is a directory; the file
    /// system has to be asked.
    Probe(String),
}

/// The key of the command that sets the working directory.
pub open spec fn set_key() -> Seq<char> {
    seq!['-', 's']
}

/// The position of the first command, from `i` on, whose key is `-s`.
pub open spec fn find_set_from(cmds: Seq<CommandView>, i: int) -> Option<int>
    decreases cmds.len() - i,
{
    if i < 0 || i >= cmds.len() {
        None
    } else if cmds[i].key == set_key() {
        Some(i)
    } else {
        find_set_from(cmds, i + 1)
    }
}

/// `action` is what the first `-s` command of `cmds` asks for: to keep the
/// working directory where there is none, to set it to the one path that
/// follows it, and to be refused where two paths follow it.
pub open spec fn work_dir_spec(cmds: Seq<CommandView>, action: WorkDirAction) -> bool {
    match find_set_from(cmds, 0) {
        None => action is Keep,
        Some(i) => match cmds[i].param {
            ParamView::With(p) => action matches WorkDirAction::SetTo(path) && path@ == p,
            _ => action is Invalid,
        },
    }
}

/// The first `-s` command of `cmds`, if there is one, has a parameter.
pub open spec fn set_has_param(cmds: Seq<CommandView>) -> bool {
    match find_set_from(cmds, 0) {
        None => true,
        Some(i) => !(cmds[i].param is Without),
    }
}

/// The first line of `s`: up to the first line feed, without a carriage
/// return right before it.
pub open spec fn first_line(s: Seq<char>) -> Seq<char> {
    let k = line_end(s, 0);
    if k < s.len() && k > 0 && s[k - 1] == '\r' {
        s.take(k - 1)
    } else {
        s.take(k)
    }
}

/// The position of the first line feed of `s` from `i` on, or the length of
/// `s` where there is none.
pub open spec fn line_end(s: Seq<char>, i: int) -> int
    decreases s.len() - i,
{
    if i >= s.len() {
        s.len() as int
    } else if i >= 0 && s[i] == '\n' {
        i
    } else {
        line_end(s, i + 1)
    }
}

/// Tells whether `key` is `-s`.
fn is_set_key(key: &str) -> (r: bool)
    ensures
        r == (key@ == set_key()),
{
    if key.unicode_len() != 2 {
        return false;
    }
    let first = key.get_char(0);
    let second = key.get_char(1);
    proof {
        if first == '-' && second == 's' {
            assert(key@ =~= set_key());
        }
    }
    first == '-' && second == 's'
}

impl Application {
    /// Reads the command line: the help where it holds no command, else the
    /// commands and what they ask of the working directory.
    pub fn start(args_c: Vec<String>) -> (plan: StartPlan)
        requires
            params_nonempty(arg_views(args_c@)),
            set_has_param(parse_spec(arg_views(args_c@))),
        ensures
            parse_spec(arg_views(args_c@)).len() == 0 ==> plan is Help,
            parse_spec(arg_views(args_c@)).len() != 0 ==> (plan matches StartPlan::Run {
                commands,
                work_dir,
            } && commands_view(commands@) == parse_spec(arg_views(args_c@)) && work_dir_spec(
                parse_spec(arg_views(args_c@)),
                work_dir,
            )),
    {
        let args = parse_commands(args_c);
        if args.is_empty() {
            Application::help();
            return StartPlan::Help;
        }
        let work_dir = Application::is_change_work_dir_action(&args);
        StartPlan::Run { commands: args, work_dir }
    }

    /// What the first `-s` command of `args` asks of the working directory.
    pub fn is_change_work_dir_action(args: &Args) -> (action: WorkDirAction)
        requires
            set_has_param(commands_view(args@)),
        ensures
            work_dir_spec(commands_view(args@), action),
    {
        let ghost cmds = commands_view(args@);
        let len = args.len();
        for i in 0..len
            invariant
                len == args@.len(),
                cmds == commands_view(args@),
                find_set_from(cmds, 0) == find_set_from(cmds, i as int),
        {
            let arg = &args[i];
            assert(cmds[i as int] == arg@);
            if is_set_key(arg.key.as_str()) {
                return match &arg.param {
                    Param::With(arg_path) => WorkDirAction::SetTo(arg_path.clone()),
                    _ => WorkDirAction::Invalid,
                };
            }
        }
        WorkDirAction::Keep
    }

    /// The step after the configuration was read as `content`: the current
    /// directory where it is empty, else its first line is to be probed.
    pub fn read_work_directory(content: &str) -> (step: WorkDirStep)
        ensures
            content@.len() == 0 ==> (step matches WorkDirStep::Done(d) && d@ == seq!['.']),
            content@.len() != 0 ==> (step matches WorkDirStep::Probe(p) && p@ == first_line(
                content@,
            )),
    {
        proof {
            reveal_strlit(".");
        }
        let len = content.unicode_len();
        if len == 0 {
            return WorkDirStep::Done(String::from_str("."));
        }
        let mut k: usize = 0;
        while k < len && content.get_char(k) != '\n'
            invariant
                len == content@.len(),
                k <= len,
                line_end(content@, 0) == line_end(content@, k as int),
            decreases len - k,
        {
            k = k + 1;
        }
        assert(line_end(content@, 0) == k);
        let end = if k < len && k > 0 && content.get_char(k - 1) == '\r' {
            k - 1
        } else {
            k
        };
        let line = content.substring_char(0, end);
        WorkDirStep::Probe(line.to_owned())
    }

    /// The working directory once the file system has said whether the
    /// probed `path` is a directory: `path` if it is, else the current one.
    pub fn work_dir_after_probe(path: String, is_dir: bool) -> (dir: String)
        ensures
            is_dir ==> dir@ == path@,
            !is_dir ==> dir@ == seq!['.'],
    {
        proof {
            reveal_strlit(".");
        }
        if is_dir {
            path
        } else {
            String::from_str(".")
        }
    }

    fn help() {
    }
}

proof fn lemma_line_end(s: Seq<char>, i: int)
    requires
        0 <= i <= s.len(),
    ensures
        i <= line_end(s, i) <= s.len(),
        forall|j: int| i <= j < line_end(s, i) ==> s[j] != '\n',
    decreases s.len() - i,
{
    if i < s.len() && s[i] != '\n' {
        lemma_line_end(s, i + 1);
    }
}

/// The first line of a text holds no line feed and is where the text
/// starts.
pub proof fn law_first_line(s: Seq<char>)
    ensures
        first_line(s).len() <= s.len(),
        first_line(s) == s.take(first_line(s).len() as int),
        forall|j: int| 0 <= j < first_line(s).len() ==> #[trigger] first_line(s)[j] != '\n',
{
    lemma_line_end(s, 0);
}

/// The first line of a text is where the text starts, up to its first line
/// feed: it holds no line feed, and right after it the text ends, or a line
/// feed follows that no carriage return precedes, or a carriage return and a
/// line feed follow.
pub proof fn law_first_line_ends_at_line_end(s: Seq<char>)
    ensures
        ({
            let l = first_line(s);
            let k = l.len() as int;
            &&& l == s.take(k)
            &&& forall|j: int| 0 <= j < k ==> #[trigger] l[j] != '\n'
            &&& k == s.len() || (s[k] == '\n' && (k == 0 || s[k - 1] != '\r')) || (s[k] == '\r'
                && k + 1 < s.len() && s[k + 1] == '\n')
        }),
{
    lemma_line_end(s, 0);
    lemma_line_end_stops(s, 0);
    let e = line_end(s, 0);
    let l = first_line(s);
    if e < s.len() && e > 0 && s[e - 1] == '\r' {
        assert(l == s.take(e - 1));
        assert(s[e] == '\n');
        assert forall|j: int| 0 <= j < e - 1 implies #[trigger] l[j] != '\n' by {
            assert(l[j] == s[j]);
        }
    } else {
        assert(l == s.take(e));
        assert forall|j: int| 0 <= j < e implies #[trigger] l[j] != '\n' by {
            assert(l[j] == s[j]);
        }
    }
}

proof fn lemma_line_end_stops(s: Seq<char>, i: int)
    requires
        0 <= i <= s.len(),
    ensures
        line_end(s, i) < s.len() ==> s[line_end(s, i)] == '\n',
    decreases s.len() - i,
{
    if i < s.len() && s[i] != '\n' {
        lemma_line_end_stops(s, i + 1);
    }
}

proof fn lemma_find_set_from(cmds: Seq<CommandView>, i: int)
    requires
        0 <= i,
    ensures
        find_set_from(cmds, i) matches Some(k) ==> {
            &&& i <= k < cmds.len()
            &&& cmds[k].key == set_key()
            &&& forall|j: int| i <= j < k ==> (#[trigger] cmds[j]).key != set_key()
        },
        find_set_from(cmds, i) is None ==> forall|j: int|
            i <= j < cmds.len() ==> (#[trigger] cmds[j]).key != set_key(),
    decreases cmds.len() - i,
{
    if i < cmds.len() && cmds[i].key != set_key() {
        lemma_find_set_from(cmds, i + 1);
    }
}

/// The `-s` command that counts is the first command with the key `-s`,
/// wherever it stands among the commands; there is none only where no
/// command has the key `-s`.
pub proof fn law_first_set_command(cmds: Seq<CommandView>)
    ensures
        find_set_from(cmds, 0) matches Some(k) ==> {
            &&& 0 <= k < cmds.len()
            &&& cmds[k].key == set_key()
            &&& forall|j: int| 0 <= j < k ==> (#[trigger] cmds[j]).key != set_key()
        },
        find_set_from(cmds, 0) is None <==> forall|j: int|
            0 <= j < cmds.len() ==> (#[trigger] cmds[j]).key != set_key(),
{
    lemma_find_set_from(cmds, 0);
}

/// What the command line asks of the working directory: to keep it where no
/// command has the key `-s`; where the first such command has one path, to
/// set it to that path; where it has two, nothing that can be done.
pub proof fn law_work_dir_action(cmds: Seq<CommandView>, action: WorkDirAction, k: int)
    requires
        work_dir_spec(cmds, action),
    ensures
        (forall|j: int| 0 <= j < cmds.len() ==> (#[trigger] cmds[j]).key != set_key())
            ==> action is Keep,
        (0 <= k < cmds.len() && cmds[k].key == set_key() && forall|j: int|
            0 <= j < k ==> (#[trigger] cmds[j]).key != set_key()) ==> match cmds[k].param {
            ParamView::With(p) => action matches WorkDirAction::SetTo(path) && path@ == p,
            ParamView::WithTwo(..) => action is Invalid,
            ParamView::Without => true,
        },
{
    law_first_set_command(cmds);
    if 0 <= k < cmds.len() && cmds[k].key == set_key() && forall|j: int|
        0 <= j < k ==> (#[trigger] cmds[j]).key != set_key() {
        let f = find_set_from(cmds, 0);
        assert(f is Some);
        let k2 = f->0;
        assert(k2 == k) by {
            if k2 < k {
                assert(cmds[k2].key != set_key());
            } else if k < k2 {
                assert(cmds[k].key != set_key());
            }
        }
    }
}

} // verus!
