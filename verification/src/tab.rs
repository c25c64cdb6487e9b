//! Loading a configuration into its runtime table, and the pure decisions of
//! the scheduling loop.
//!
//! Loading is all-or-nothing: the text is tokenized, parsed, and every
//! command's distribution is built in source order; the first failure of any
//! stage aborts the load with that stage's error.
use crate::dist::BuildOutcome;
use crate::dist::DistributionError;
use crate::dist::Sampler;
use crate::dist::build_dyn_distf32;
use crate::dist::build_outcome;
use crate::lexer::LexError;
use crate::lexer::TokView;
use crate::lexer::lex_res;
use crate::lexer::tokenize;
use crate::parser::CmdView;
use crate::parser::ParseError;
use crate::parser::files_at;
use crate::parser::parse;
use vstd::prelude::*;

verus! {

/// One runtime entry: a validated sampler and the script it schedules.
#[derive(Debug)]
pub struct TabCmd {
    pub dist: Sampler,
    pub script: Vec<u8>,
}

/// The loaded configuration: the runtime entries in source order.
#[derive(Debug)]
pub struct Tab {
    pub cmds: Vec<TabCmd>,
}

pub ghost struct TabCmdView {
    pub dist: crate::dist::SamView,
    pub script: Seq<u8>,
}

impl View for TabCmd {
    type V = TabCmdView;

    open spec fn view(&self) -> TabCmdView {
        TabCmdView { dist: self.dist@, script: self.script@ }
    }
}

impl View for Tab {
    type V = Seq<TabCmdView>;

    open spec fn view(&self) -> Seq<TabCmdView> {
        self.cmds@.map_values(|c: TabCmd| c@)
    }
}

/// Any load-time failure: lexing, parsing, or distribution building.
#[derive(Debug)]
pub enum LoadError {
    Lex(LexError),
    Parse(ParseError),
    Dist(DistributionError),
}

/// The build outcome of one parsed command.
pub open spec fn cmd_outcome(c: CmdView) -> BuildOutcome {
    build_outcome(c.expr.name, c.expr.args)
}

/// The first index at or after `i` whose command does not build, if any.
pub open spec fn first_bad_from(cmds: Seq<CmdView>, i: int) -> Option<int>
    decreases cmds.len() - i,
    when 0 <= i <= cmds.len()
{
    if i >= cmds.len() {
        None
    } else if !(cmd_outcome(cmds[i]) is Built) {
        Some(i)
    } else {
        first_bad_from(cmds, i + 1)
    }
}

proof fn lemma_first_bad_prefix(cmds: Seq<CmdView>, i: int)
    requires
        0 <= i <= cmds.len(),
        forall|q: int| 0 <= q < i ==> cmd_outcome(#[trigger] cmds[q]) is Built,
    ensures
        first_bad_from(cmds, 0) == first_bad_from(cmds, i),
    decreases i,
{
    if i > 0 {
        lemma_first_bad_prefix(cmds, i - 1);
        assert(first_bad_from(cmds, i - 1) == first_bad_from(cmds, i));
    }
}

/// Load a configuration: tokenize, parse, and build every command, in that
/// order, failing on the first error any stage reports.
pub fn read(text: &[u8]) -> (r: Result<Tab, LoadError>)
    ensures
        ({
            let lx = lex_res(text@, 0);
            match r {
                Err(LoadError::Lex(e)) => lx == Err::<Seq<TokView>, int>(e.pos as int),
                Err(LoadError::Parse(e)) => lx is Ok && files_at(lx->Ok_0, 0) == Err::<
                    Seq<CmdView>,
                    int,
                >(e.pos as int),
                Err(LoadError::Dist(de)) => lx is Ok && files_at(lx->Ok_0, 0) is Ok && ({
                    let cmds = files_at(lx->Ok_0, 0)->Ok_0;
                    match first_bad_from(cmds, 0) {
                        Some(k) => match cmd_outcome(cmds[k]) {
                            BuildOutcome::Unknown => de matches DistributionError::UnknownName(v)
                                && v@ == cmds[k].expr.name,
                            BuildOutcome::Arity => de == DistributionError::WrongArgCount,
                            BuildOutcome::Domain => de == DistributionError::BadParam,
                            BuildOutcome::Built(_) => false,
                        },
                        None => false,
                    }
                }),
                Ok(tab) => lx is Ok && files_at(lx->Ok_0, 0) is Ok && ({
                    let cmds = files_at(lx->Ok_0, 0)->Ok_0;
                    &&& first_bad_from(cmds, 0) is None
                    &&& tab@.len() == cmds.len()
                    &&& forall|q: int|
                        0 <= q < cmds.len() ==> (#[trigger] tab@[q]).script == cmds[q].script
                            && cmd_outcome(cmds[q]) == BuildOutcome::Built(tab@[q].dist.family)
                            && tab@[q].dist.args == cmds[q].expr.args
                }),
            }
        }),
{
    let toks = match tokenize(text) {
        Ok(t) => t,
        Err(e) => {
            return Err(LoadError::Lex(e));
        },
    };
    let file = match parse(toks.as_slice()) {
        Ok(f) => f,
        Err(e) => {
            return Err(LoadError::Parse(e));
        },
    };
    let ghost cs = file@;
    let mut cmds: Vec<TabCmd> = Vec::new();
    let mut i: usize = 0;
    while i < file.cmds.len()
        invariant
            0 <= i <= file.cmds@.len(),
            cs == file@,
            cs.len() == file.cmds@.len(),
            lex_res(text@, 0) is Ok,
            files_at(lex_res(text@, 0)->Ok_0, 0) == Ok::<Seq<CmdView>, int>(cs),
            cmds@.len() == i as int,
            forall|q: int| 0 <= q < i ==> cmd_outcome(#[trigger] cs[q]) is Built,
            forall|q: int|
                0 <= q < i ==> (#[trigger] cmds@[q]@).script == cs[q].script && cmd_outcome(cs[q])
                    == BuildOutcome::Built(cmds@[q]@.dist.family) && cmds@[q]@.dist.args
                    == cs[q].expr.args,
        decreases file.cmds@.len() - i,
    {
        let c = &file.cmds[i];
        proof {
            assert(cs[i as int] == c@);
        }
        match build_dyn_distf32(c.expr.name.as_slice(), c.expr.args.as_slice()) {
            Ok(s) => {
                cmds.push(TabCmd { dist: s, script: crate::decimal::copy_bytes(&c.script) });
            },
            Err(de) => {
                proof {
                    lemma_first_bad_prefix(cs, i as int);
                    assert(first_bad_from(cs, i as int) == Some(i as int));
                }
                return Err(LoadError::Dist(de));
            },
        }
        i = i + 1;
    }
    proof {
        lemma_first_bad_prefix(cs, cs.len() as int);
    }
    let tab = Tab { cmds };
    Ok(tab)
}

/// The process id recorded for a CMD_START event: the child's id, or -1 when
/// the runtime cannot name it.
pub fn pid_value(pid: Option<u32>) -> (r: i64)
    ensures
        match pid {
            Some(p) => r == p as i64,
            None => r == -1,
        },
{
    match pid {
        Some(p) => p as i64,
        None => -1,
    }
}

/// The exit code recorded for a CMD_END event: the child's code, or -1 when
/// it is unobtainable.
pub fn exit_value(code: Option<i32>) -> (r: i32)
    ensures
        match code {
            Some(c) => r == c,
            None => r == -1,
        },
{
    match code {
        Some(c) => c,
        None => -1,
    }
}

} // verus!
