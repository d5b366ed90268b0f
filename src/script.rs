//! A script's commands and the state machine that runs them in order,
//! stopping at the first failure. Starting processes is left to the caller.
use vstd::prelude::*;
use vstd::string::StrSliceExecFns;
use crate::expand::{copy_strings, expand_result, expand_spec, strs, Env, ExpandError, ExpandFault};

verus! {

/// One command of a script.
pub struct Cmd {
    /// If not empty, the name that `bind` is bound to before `cmd` expands.
    pub name: String,
    /// The values of the binding, used verbatim.
    pub bind: Vec<String>,
    /// The argument texts; the first variant of the first is the program.
    pub cmd: Vec<String>,
    /// Working directory for the process.
    pub cwd: String,
}

/// What the state machine reads of a command.
pub struct CmdModel {
    pub name: Seq<char>,
    pub bind: Seq<Seq<char>>,
    pub args: Seq<Seq<char>>,
}

impl View for Cmd {
    type V = CmdModel;

    open spec fn view(&self) -> CmdModel {
        CmdModel { name: self.name@, bind: strs(self.bind@), args: strs(self.cmd@) }
    }
}

pub open spec fn cmds_view(c: Seq<Cmd>) -> Seq<CmdModel> {
    c.map_values(|x: Cmd| x@)
}

/// A script: its commands and whether to report each command line.
pub struct Script {
    pub cmd: Vec<Cmd>,
    pub verbose: bool,
}

/// Why a run failed.
#[derive(Debug, PartialEq, Eq)]
pub enum RunError {
    Syntax,
    Unresolved(String),
    EmptyCommand,
    StartFailed,
    ExitStatus(Option<i32>),
}

pub enum RunFault {
    Syntax,
    Unresolved(Seq<char>),
    EmptyCommand,
    StartFailed,
    ExitStatus(Option<i32>),
}

impl View for RunError {
    type V = RunFault;

    open spec fn view(&self) -> RunFault {
        match self {
            RunError::Syntax => RunFault::Syntax,
            RunError::Unresolved(n) => RunFault::Unresolved(n@),
            RunError::EmptyCommand => RunFault::EmptyCommand,
            RunError::StartFailed => RunFault::StartFailed,
            RunError::ExitStatus(c) => RunFault::ExitStatus(*c),
        }
    }
}

pub open spec fn fault_of(e: ExpandFault) -> RunFault {
    match e {
        ExpandFault::Syntax => RunFault::Syntax,
        ExpandFault::Unresolved(n) => RunFault::Unresolved(n),
    }
}

/// How a dispatched process ended.
pub enum Outcome {
    Succeeded,
    ExitedWith(Option<i32>),
    NotStarted,
}

/// What the caller is to do next.
pub enum Action {
    /// Run the program `argv[0]` with arguments `argv[1..]` in `cwd`.
    Run { argv: Vec<String>, cwd: String },
    /// Every command has run.
    Finished,
    /// The run fails here.
    Failed(RunError),
    /// The run failed earlier; nothing more happens.
    Stopped,
}

pub enum ActionModel {
    Run(Seq<Seq<char>>),
    Finished,
    Failed(RunFault),
    Stopped,
}

impl View for Action {
    type V = ActionModel;

    open spec fn view(&self) -> ActionModel {
        match self {
            Action::Run { argv, cwd } => ActionModel::Run(strs(argv@)),
            Action::Finished => ActionModel::Finished,
            Action::Failed(e) => ActionModel::Failed(e@),
            Action::Stopped => ActionModel::Stopped,
        }
    }
}

/// The table after a command declares its binding.
pub open spec fn install(m: Map<Seq<char>, Seq<Seq<char>>>, c: CmdModel) -> Map<
    Seq<char>,
    Seq<Seq<char>>,
> {
    if c.name.len() > 0 {
        m.insert(c.name, c.bind)
    } else {
        m
    }
}

/// The variants of all argument texts, in argument order; the first error wins.
pub open spec fn flatten_args(args: Seq<Seq<char>>, m: Map<Seq<char>, Seq<Seq<char>>>) -> Result<
    Seq<Seq<char>>,
    ExpandFault,
>
    decreases args.len(),
{
    if args.len() == 0 {
        Ok(seq![])
    } else {
        match flatten_args(args.drop_last(), m) {
            Err(e) => Err(e),
            Ok(p) => match expand_spec(args.last(), m) {
                Err(e) => Err(e),
                Ok(v) => Ok(p + v),
            },
        }
    }
}

pub struct RunnerModel {
    pub table: Map<Seq<char>, Seq<Seq<char>>>,
    pub next: nat,
    pub halted: bool,
}

/// One step: go through the commands from `s.next` until one is to run,
/// one fails, or none is left.
pub open spec fn step_spec(s: RunnerModel, cmds: Seq<CmdModel>) -> (RunnerModel, ActionModel)
    decreases cmds.len() - s.next,
{
    if s.halted {
        (s, ActionModel::Stopped)
    } else if s.next >= cmds.len() {
        (s, ActionModel::Finished)
    } else {
        let c = cmds[s.next as int];
        let m = install(s.table, c);
        let s2 = RunnerModel { table: m, next: s.next + 1, halted: false };
        if c.args.len() == 0 {
            step_spec(s2, cmds)
        } else {
            match flatten_args(c.args, m) {
                Err(e) => (RunnerModel { halted: true, ..s2 }, ActionModel::Failed(fault_of(e))),
                Ok(argv) => if argv.len() == 0 {
                    (RunnerModel { halted: true, ..s2 }, ActionModel::Failed(RunFault::EmptyCommand))
                } else {
                    (s2, ActionModel::Run(argv))
                },
            }
        }
    }
}

/// The effect of how a dispatched process ended.
pub open spec fn report_spec(s: RunnerModel, o: Outcome) -> (RunnerModel, Option<RunFault>) {
    match o {
        Outcome::Succeeded => (s, None),
        Outcome::NotStarted => (RunnerModel { halted: true, ..s }, Some(RunFault::StartFailed)),
        Outcome::ExitedWith(c) => (
            RunnerModel { halted: true, ..s },
            Some(RunFault::ExitStatus(c)),
        ),
    }
}

/// The state of a run: the binding table, the next command, and whether
/// the run has failed.
pub struct Runner {
    pub env: Env,
    pub next: usize,
    pub halted: bool,
}

impl View for Runner {
    type V = RunnerModel;

    open spec fn view(&self) -> RunnerModel {
        RunnerModel { table: self.env@, next: self.next as nat, halted: self.halted }
    }
}

fn to_run_error(e: ExpandError) -> (r: RunError)
    ensures
        r@ == fault_of(e.view()),
{
    match e {
        ExpandError::Syntax => RunError::Syntax,
        ExpandError::Unresolved(n) => RunError::Unresolved(n),
    }
}

/// Once a prefix of the arguments fails, every longer prefix fails the same way.
proof fn lemma_flatten_err_stays(args: Seq<Seq<char>>, m: Map<Seq<char>, Seq<Seq<char>>>, k: nat)
    requires
        k <= args.len(),
        flatten_args(args.take(k as int), m) is Err,
    ensures
        flatten_args(args, m) == flatten_args(args.take(k as int), m),
    decreases args.len() - k,
{
    if k < args.len() {
        assert(args.take(k + 1 as int).drop_last() =~= args.take(k as int));
        lemma_flatten_err_stays(args, m, k + 1);
    } else {
        assert(args.take(k as int) =~= args);
    }
}

/// Expands every argument text and joins the variants in order.
pub fn eval_args(env: &Env, args: &Vec<String>) -> (r: Result<Vec<String>, ExpandError>)
    ensures
        expand_result(r) == flatten_args(strs(args@), env@),
{
    let mut out: Vec<String> = Vec::new();
    let mut k: usize = 0;
    assert(strs(args@).take(0) =~= Seq::<Seq<char>>::empty());
    assert(strs(out@) =~= Seq::<Seq<char>>::empty());
    while k < args.len()
        invariant
            k <= args.len(),
            flatten_args(strs(args@).take(k as int), env@) == Ok::<Seq<Seq<char>>, ExpandFault>(strs(out@)),
        decreases args.len() - k,
    {
        let ghost tk = strs(args@).take(k + 1);
        assert(tk.drop_last() =~= strs(args@).take(k as int));
        let mut v = match env.eval(args[k].as_str()) {
            Ok(v) => v,
            Err(e) => {
                proof {
                    lemma_flatten_err_stays(strs(args@), env@, (k + 1) as nat);
                }
                return Err(e);
            },
        };
        let ghost prev = strs(out@);
        let ghost vv = strs(v@);
        out.append(&mut v);
        assert(strs(out@) =~= prev + vv);
        k = k + 1;
    }
    assert(strs(args@).take(args.len() as int) =~= strs(args@));
    Ok(out)
}

impl Runner {
    /// A run that has not started: empty table, first command next.
    pub fn new() -> (r: Runner)
        ensures
            r@ == (RunnerModel { table: Map::empty(), next: 0, halted: false }),
    {
        Runner { env: Env::new(), next: 0, halted: false }
    }

    /// Goes through the commands from the next one: installs bindings and
    /// expands arguments until a command is to run, fails, or none is left.
    pub fn step(&mut self, cmds: &Vec<Cmd>) -> (r: Action)
        requires
            old(self).next <= cmds.len(),
        ensures
            (final(self)@, r@) == step_spec(old(self)@, cmds_view(cmds@)),
            final(self).next <= cmds.len(),
    {
        let ghost cv = cmds_view(cmds@);
        if self.halted {
            return Action::Stopped;
        }
        while self.next < cmds.len()
            invariant
                cv == cmds_view(cmds@),
                self.next <= cmds.len(),
                !self.halted,
                step_spec(self@, cv) == step_spec(old(self)@, cv),
            decreases cmds.len() - self.next,
        {
            let c = &cmds[self.next];
            assert(cv[self.next as int] == c@);
            if c.name.as_str().unicode_len() > 0 {
                self.env.insert(c.name.clone(), copy_strings(&c.bind));
            }
            self.next = self.next + 1;
            if c.cmd.len() > 0 {
                match eval_args(&self.env, &c.cmd) {
                    Err(e) => {
                        self.halted = true;
                        return Action::Failed(to_run_error(e));
                    },
                    Ok(argv) => {
                        if argv.len() == 0 {
                            self.halted = true;
                            return Action::Failed(RunError::EmptyCommand);
                        }
                        return Action::Run { argv, cwd: c.cwd.clone() };
                    },
                }
            }
        }
        Action::Finished
    }

    /// Takes in how the process of the last `Run` ended; a failure stops
    /// the run.
    pub fn report(&mut self, o: Outcome) -> (r: Option<RunError>)
        ensures
            (final(self)@, match r { Some(e) => Some(e@), None => None }) == report_spec(old(self)@, o),
            final(self).next == old(self).next,
    {
        match o {
            Outcome::Succeeded => None,
            Outcome::NotStarted => {
                self.halted = true;
                Some(RunError::StartFailed)
            },
            Outcome::ExitedWith(c) => {
                self.halted = true;
                Some(RunError::ExitStatus(c))
            },
        }
    }
}

} // verus!
