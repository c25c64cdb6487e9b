//! The grammar parser.
//!
//! ```text
//! File     := Command*
//! Command  := DistExpr Script
//! DistExpr := Identifier '(' Params? ')'
//! Params   := Number (',' Number)*
//! ```
//!
//! Each command is an identifier, a parenthesized comma-separated list of
//! numbers, and exactly one script token.  A file with zero commands is
//! valid.  No name or arity checking happens here.  Parsing fails on a
//! grammar mismatch or leftover tokens, reporting the index of the first
//! token that cannot belong to a command.
use crate::decimal::NumLit;
use crate::decimal::NumView;
use crate::decimal::copy_bytes;
use crate::decimal::views_of;
use crate::lexer::TokView;
use crate::lexer::Token;
use crate::lexer::toks_view;
use vstd::prelude::*;

verus! {

/// A distribution expression: a name applied to numeric arguments.
#[derive(Debug)]
pub struct DistExpr {
    pub name: Vec<u8>,
    pub args: Vec<NumLit>,
}

/// One configuration entry: a distribution expression and its script text.
#[derive(Debug)]
pub struct Command {
    pub expr: DistExpr,
    pub script: Vec<u8>,
}

/// A parsed configuration file: the commands in source order.
#[derive(Debug)]
pub struct File {
    pub cmds: Vec<Command>,
}

/// A grammar mismatch, carrying the index of the rejected token.
#[derive(Debug)]
pub struct ParseError {
    pub pos: usize,
}

pub ghost struct ExprView {
    pub name: Seq<u8>,
    pub args: Seq<NumView>,
}

pub ghost struct CmdView {
    pub expr: ExprView,
    pub script: Seq<u8>,
}

impl View for DistExpr {
    type V = ExprView;

    open spec fn view(&self) -> ExprView {
        ExprView { name: self.name@, args: views_of(self.args@) }
    }
}

impl View for Command {
    type V = CmdView;

    open spec fn view(&self) -> CmdView {
        CmdView { expr: self.expr@, script: self.script@ }
    }
}

impl View for File {
    type V = Seq<CmdView>;

    open spec fn view(&self) -> Seq<CmdView> {
        self.cmds@.map_values(|c: Command| c@)
    }
}

/// The `(',' Number)*` continuation of a parameter list starting at `j`: the
/// numbers read, and where the list ends.
pub open spec fn params_more(ts: Seq<TokView>, j: int) -> (Seq<NumView>, int)
    decreases ts.len() - j,
    when 0 <= j <= ts.len()
{
    if j + 1 < ts.len() && ts[j] is Comma && ts[j + 1] is Num {
        let (rest, end) = params_more(ts, j + 2);
        (seq![ts[j + 1]->Num_0] + rest, end)
    } else {
        (Seq::empty(), j)
    }
}

/// The `Params?` production starting at `j`.
pub open spec fn params_at(ts: Seq<TokView>, j: int) -> (Seq<NumView>, int)
    recommends
        0 <= j <= ts.len(),
{
    if j < ts.len() && ts[j] is Num {
        let (rest, end) = params_more(ts, j + 1);
        (seq![ts[j]->Num_0] + rest, end)
    } else {
        (Seq::empty(), j)
    }
}

pub proof fn lemma_params_more_bounds(ts: Seq<TokView>, j: int)
    requires
        0 <= j <= ts.len(),
    ensures
        j <= params_more(ts, j).1 <= ts.len(),
    decreases ts.len() - j,
{
    if j + 1 < ts.len() && ts[j] is Comma && ts[j + 1] is Num {
        lemma_params_more_bounds(ts, j + 2);
    }
}

pub proof fn lemma_params_at_bounds(ts: Seq<TokView>, j: int)
    requires
        0 <= j <= ts.len(),
    ensures
        j <= params_at(ts, j).1 <= ts.len(),
{
    if j < ts.len() && ts[j] is Num {
        lemma_params_more_bounds(ts, j + 1);
    }
}

/// The `Command` production starting at `i`: its content and the position
/// just after it, or `None` if no command starts here.
pub open spec fn cmd_at(ts: Seq<TokView>, i: int) -> Option<(CmdView, int)>
    recommends
        0 <= i <= ts.len(),
{
    if i + 1 < ts.len() && ts[i] is Ident && ts[i + 1] is ParenOpen {
        let (args, e) = params_at(ts, i + 2);
        if e < ts.len() && ts[e] is ParenClose && e + 1 < ts.len() && ts[e + 1] is Script {
            Some(
                (
                    CmdView {
                        expr: ExprView { name: ts[i]->Ident_0, args },
                        script: ts[e + 1]->Script_0,
                    },
                    e + 2,
                ),
            )
        } else {
            None
        }
    } else {
        None
    }
}

pub proof fn lemma_cmd_at_bounds(ts: Seq<TokView>, i: int)
    requires
        0 <= i <= ts.len(),
    ensures
        match cmd_at(ts, i) {
            Some((c, k)) => i < k <= ts.len(),
            None => true,
        },
{
    if i + 1 < ts.len() && ts[i] is Ident && ts[i + 1] is ParenOpen {
        lemma_params_at_bounds(ts, i + 2);
    }
}

/// The whole token sequence from `i` as `Command*`, which must consume every
/// token; otherwise the index of the first token no command can start from.
pub open spec fn files_at(ts: Seq<TokView>, i: int) -> Result<Seq<CmdView>, int>
    decreases ts.len() - i,
    when 0 <= i <= ts.len()
    via files_at_dec
{
    match cmd_at(ts, i) {
        Some((c, k)) => match files_at(ts, k) {
            Ok(rest) => Ok(seq![c] + rest),
            Err(p) => Err(p),
        },
        None => if i == ts.len() {
            Ok(Seq::empty())
        } else {
            Err(i)
        },
    }
}

#[via_fn]
proof fn files_at_dec(ts: Seq<TokView>, i: int) {
    lemma_cmd_at_bounds(ts, i);
}

/// The number of script tokens at or after position `i`.
pub open spec fn count_scripts_from(ts: Seq<TokView>, i: int) -> int
    decreases ts.len() - i,
    when 0 <= i <= ts.len()
{
    if i >= ts.len() {
        0
    } else {
        (if ts[i] is Script {
            1int
        } else {
            0int
        }) + count_scripts_from(ts, i + 1)
    }
}

proof fn lemma_count_nonscript_range(ts: Seq<TokView>, a: int, b: int)
    requires
        0 <= a <= b <= ts.len(),
        forall|t: int| a <= t < b ==> !(#[trigger] ts[t] is Script),
    ensures
        count_scripts_from(ts, a) == count_scripts_from(ts, b),
    decreases b - a,
{
    if a < b {
        lemma_count_nonscript_range(ts, a + 1, b);
    }
}

proof fn lemma_params_more_nonscript(ts: Seq<TokView>, j: int)
    requires
        0 <= j <= ts.len(),
    ensures
        forall|t: int| j <= t < params_more(ts, j).1 ==> !(#[trigger] ts[t] is Script),
    decreases ts.len() - j,
{
    if j + 1 < ts.len() && ts[j] is Comma && ts[j + 1] is Num {
        lemma_params_more_nonscript(ts, j + 2);
        lemma_params_more_bounds(ts, j + 2);
    }
}

proof fn lemma_params_at_nonscript(ts: Seq<TokView>, j: int)
    requires
        0 <= j <= ts.len(),
    ensures
        forall|t: int| j <= t < params_at(ts, j).1 ==> !(#[trigger] ts[t] is Script),
{
    if j < ts.len() && ts[j] is Num {
        lemma_params_more_nonscript(ts, j + 1);
        lemma_params_more_bounds(ts, j + 1);
    }
}

proof fn lemma_cmd_at_count(ts: Seq<TokView>, i: int)
    requires
        0 <= i <= ts.len(),
        cmd_at(ts, i) is Some,
    ensures
        ({
            let (c, k) = cmd_at(ts, i)->Some_0;
            count_scripts_from(ts, i) == 1 + count_scripts_from(ts, k)
        }),
{
    let (args, e) = params_at(ts, i + 2);
    lemma_params_at_bounds(ts, i + 2);
    lemma_params_at_nonscript(ts, i + 2);
    lemma_count_nonscript_range(ts, i, e);
    assert(count_scripts_from(ts, e) == count_scripts_from(ts, e + 1));
    assert(count_scripts_from(ts, e + 1) == 1 + count_scripts_from(ts, e + 2));
}

proof fn lemma_files_at_count(ts: Seq<TokView>, i: int, cmds: Seq<CmdView>)
    requires
        0 <= i <= ts.len(),
        files_at(ts, i) == Ok::<Seq<CmdView>, int>(cmds),
    ensures
        cmds.len() == count_scripts_from(ts, i),
    decreases ts.len() - i,
{
    lemma_cmd_at_bounds(ts, i);
    match cmd_at(ts, i) {
        Some((c, k)) => {
            lemma_cmd_at_count(ts, i);
            let rest = files_at(ts, k);
            lemma_files_at_count(ts, k, rest->Ok_0);
        },
        None => {},
    }
}

/// Law: a successful parse yields exactly one command per script token, so
/// the command count equals the number of `name(...)` + script pairs in the
/// token stream, in source order.
pub proof fn lemma_parse_counts_scripts(ts: Seq<TokView>, cmds: Seq<CmdView>)
    requires
        files_at(ts, 0) == Ok::<Seq<CmdView>, int>(cmds),
    ensures
        cmds.len() == count_scripts_from(ts, 0),
{
    lemma_files_at_count(ts, 0, cmds);
}

fn parse_params(tokens: &[Token], j: usize) -> (r: (Vec<NumLit>, usize))
    requires
        j <= tokens@.len(),
    ensures
        ({
            let (vals, end) = params_at(toks_view(tokens@), j as int);
            &&& views_of(r.0@) == vals
            &&& r.1 as int == end
            &&& j <= r.1 <= tokens@.len()
        }),
{
    let ghost ts = toks_view(tokens@);
    let mut out: Vec<NumLit> = Vec::new();
    if j >= tokens.len() {
        assert(views_of(out@) =~= params_at(ts, j as int).0);
        return (out, j);
    }
    assert(ts[j as int] == tokens@[j as int]@);
    match &tokens[j] {
        Token::Num(l) => {
            out.push(l.duplicate());
        },
        _ => {
            assert(views_of(out@) =~= params_at(ts, j as int).0);
            return (out, j);
        },
    }
    let mut p = j + 1;
    loop
        invariant
            j + 1 <= p <= tokens@.len(),
            ts == toks_view(tokens@),
            params_at(ts, j as int).0 =~= views_of(out@) + params_more(ts, p as int).0,
            params_at(ts, j as int).1 == params_more(ts, p as int).1,
        decreases tokens@.len() - p,
    {
        if p < tokens.len() && p + 1 < tokens.len() {
            proof {
                assert(ts[p as int] == tokens@[p as int]@);
                assert(ts[p as int + 1] == tokens@[p as int + 1]@);
            }
            match (&tokens[p], &tokens[p + 1]) {
                (Token::Comma, Token::Num(l)) => {
                    let ghost m0 = views_of(out@);
                    out.push(l.duplicate());
                    proof {
                        let (rest, end) = params_more(ts, p as int + 2);
                        assert(params_more(ts, p as int).0 =~= seq![ts[p as int + 1]->Num_0]
                            + rest);
                        assert(views_of(out@) =~= m0.push(l@));
                        assert(params_at(ts, j as int).0 =~= views_of(out@) + rest);
                    }
                    p = p + 2;
                },
                _ => {
                    return (out, p);
                },
            }
        } else {
            return (out, p);
        }
    }
}

/// Parse a token sequence into a configuration file, or report the index of
/// the first token that cannot start (or continue) a command.
pub fn parse(tokens: &[Token]) -> (r: Result<File, ParseError>)
    ensures
        match r {
            Ok(f) => files_at(toks_view(tokens@), 0) == Ok::<Seq<CmdView>, int>(f@),
            Err(e) => files_at(toks_view(tokens@), 0) == Err::<Seq<CmdView>, int>(e.pos as int),
        },
{
    let ghost ts = toks_view(tokens@);
    let mut cmds: Vec<Command> = Vec::new();
    let mut i: usize = 0;
    loop
        invariant
            i <= tokens@.len(),
            ts == toks_view(tokens@),
            match files_at(ts, i as int) {
                Ok(rest) => files_at(ts, 0) == Ok::<Seq<CmdView>, int>(
                    cmds@.map_values(|c: Command| c@) + rest,
                ),
                Err(p) => files_at(ts, 0) == Err::<Seq<CmdView>, int>(p),
            },
        decreases tokens@.len() - i,
    {
        match parse_cmd(tokens, i) {
            Some((c, k)) => {
                proof {
                    let rest0 = files_at(ts, k as int);
                    if rest0 is Ok {
                        assert(cmds@.map_values(|q: Command| q@) + (seq![c@] + rest0->Ok_0)
                            =~= (cmds@.push(c)).map_values(|q: Command| q@) + rest0->Ok_0);
                    }
                }
                cmds.push(c);
                i = k;
            },
            None => {
                if i == tokens.len() {
                    let f = File { cmds };
                    proof {
                        assert(f@ + Seq::<CmdView>::empty() =~= f@);
                    }
                    return Ok(f);
                } else {
                    return Err(ParseError { pos: i });
                }
            },
        }
    }
}

fn parse_cmd(tokens: &[Token], i: usize) -> (r: Option<(Command, usize)>)
    requires
        i <= tokens@.len(),
    ensures
        match r {
            Some((c, k)) => cmd_at(toks_view(tokens@), i as int) == Some((c@, k as int)) && i < k
                <= tokens@.len(),
            None => cmd_at(toks_view(tokens@), i as int) is None,
        },
{
    let ghost ts = toks_view(tokens@);
    proof {
        lemma_cmd_at_bounds(ts, i as int);
    }
    if i >= tokens.len() {
        return None;
    }
    if i + 1 >= tokens.len() {
        return None;
    }
    proof {
        assert(ts[i as int] == tokens@[i as int]@);
        assert(ts[i as int + 1] == tokens@[i as int + 1]@);
    }
    let name: Vec<u8> = match &tokens[i] {
        Token::Ident(v) => copy_bytes(v),
        _ => {
            return None;
        },
    };
    match &tokens[i + 1] {
        Token::ParenOpen => {},
        _ => {
            return None;
        },
    }
    let (args, e) = parse_params(tokens, i + 2);
    if e >= tokens.len() {
        return None;
    }
    proof {
        assert(ts[e as int] == tokens@[e as int]@);
    }
    match &tokens[e] {
        Token::ParenClose => {},
        _ => {
            return None;
        },
    }
    if e + 1 >= tokens.len() {
        return None;
    }
    proof {
        assert(ts[e as int + 1] == tokens@[e as int + 1]@);
    }
    let script: Vec<u8> = match &tokens[e + 1] {
        Token::Script(v) => copy_bytes(v),
        _ => {
            return None;
        },
    };
    Some((Command { expr: DistExpr { name, args }, script }, e + 2))
}

} // verus!
