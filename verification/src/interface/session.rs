//! The life of a compiler session.

use vstd::prelude::*;
use vstd::string::StringExecFns;

use crate::errors::dcx::failed;
use crate::errors::dcx::DiagCtxt;
use crate::errors::item_scope::FatalError;
use crate::errors::laws::went_wrong;
use crate::interface::laws::lemma_ordered_join;
use crate::interface::laws::ordered;
use crate::interface::util::session_width;
use crate::interface::util::width_of;
use crate::interface::util::DEFAULT_CFG_VERSION;
use crate::sync::mode::asked;
use crate::sync::mode::enter_session_width;
use crate::sync::mode::Modes;
use crate::sync::worker_local::Registry;
use crate::sync::worker_local::RegistryId;
use crate::sync::worker_local::ThreadData;

verus! {

/// What a consumer supplies for one compilation.
pub struct Config {
    /// How many threads the frontend was asked to use, if the consumer said so.
    pub frontend_jobs: Option<usize>,
    /// Whether the consumer installs its own diagnostic sink.
    pub psess_created: bool,
    /// The version that the session claims to be, if not the one compiled in.
    pub rustc_version: Option<String>,
}

/// A session that is ready to run.
pub struct Compiler {
    /// How many threads the session runs on.
    pub width: usize,
    /// The version that the session claims to be.
    pub cfg_version: String,
    /// The slot that the session's own thread holds.
    pub thread: ThreadData,
}

/// A step in the life of a session.
#[derive(Clone, Copy, PartialEq, Eq, Structural, Debug)]
pub enum RunStep {
    /// The session's mode is latched, before anything that depends on it is made.
    EnterSession,
    BuildTarget,
    CheckStackSize,
    LeaseFirstSlot,
    BuildSession,
    CollectTargetFeatures,
    ParseCfg,
    AddConfiguration,
    ParseCheckCfg,
    /// The consumer installs its diagnostic sink.
    InstallSink,
    BuildLintStore,
    CheckAbiFeatures,
    /// The consumer's work.
    RunConsumer,
    FinishDiagnostics,
    AbortIfErrors,
    /// There were errors: the session does not return, but raises a fatal error.
    RaiseFatal,
    FlushDelayed,
    DropCompiler,
    /// The thread gives its slot back, and the width that the session replaced is back.
    LeaveSession,
}

/// The steps of a session up to the consumer's work, and through the end of that.
pub open spec fn steps_through_consumer(psess_created: bool) -> Seq<RunStep> {
    seq![
        RunStep::EnterSession,
        RunStep::BuildTarget,
        RunStep::CheckStackSize,
        RunStep::LeaseFirstSlot,
        RunStep::BuildSession,
        RunStep::CollectTargetFeatures,
        RunStep::ParseCfg,
        RunStep::AddConfiguration,
        RunStep::ParseCheckCfg,
    ] + (if psess_created {
        seq![RunStep::InstallSink]
    } else {
        Seq::empty()
    }) + seq![
        RunStep::BuildLintStore,
        RunStep::CheckAbiFeatures,
        RunStep::RunConsumer,
        RunStep::FinishDiagnostics,
        RunStep::AbortIfErrors,
    ]
}

/// The steps of a session, which raises a fatal error if it `failed`. Either way it is left.
pub open spec fn session_steps(psess_created: bool, failed: bool) -> Seq<RunStep> {
    steps_through_consumer(psess_created) + (if failed {
        seq![RunStep::RaiseFatal]
    } else {
        seq![RunStep::FlushDelayed, RunStep::DropCompiler]
    }) + seq![RunStep::LeaveSession]
}

/// The version string of the compiler itself, if one was set when it was built.
pub fn rustc_version_str(built: Option<&'static str>) -> (version: Option<&'static str>)
    ensures
        version == built,
{
    built
}

/// What a session that a consumer asks for runs with. `built` is the version that was set when the
/// compiler was built, and `parallel` whether it was built to run on several threads.
pub open spec fn is_session_of(
    compiler: Compiler,
    config: Config,
    built: Option<&'static str>,
    parallel: bool,
    id: RegistryId,
) -> bool {
    &&& compiler.width == width_of(config.frontend_jobs, parallel)
    &&& compiler.cfg_version@ == (match config.rustc_version {
        Some(claimed) => claimed@,
        None => match built {
            Some(version) => version@,
            None => DEFAULT_CFG_VERSION@,
        },
    })
    &&& compiler.thread == (ThreadData { registry_id: Some(id), index: 0 })
}

/// What a session is made of, for the thread that it runs on.
fn new_compiler(
    config: Config,
    built: Option<&'static str>,
    width: usize,
    thread: ThreadData,
) -> (compiler: Compiler)
    ensures
        compiler.width == width,
        compiler.cfg_version@ == (match config.rustc_version {
            Some(claimed) => claimed@,
            None => match built {
                Some(version) => version@,
                None => DEFAULT_CFG_VERSION@,
            },
        }),
        compiler.thread == thread,
{
    let cfg_version = match config.rustc_version {
        Some(claimed) => claimed,
        None => {
            let mut version = String::new();
            match rustc_version_str(built) {
                Some(built) => {
                    version.append(built);
                    assert(version@ =~= built@);
                },
                None => {
                    version.append(DEFAULT_CFG_VERSION);
                    assert(version@ =~= DEFAULT_CFG_VERSION@);
                },
            }
            version
        },
    };
    Compiler { width, cfg_version, thread }
}

/// What the consumer's work comes to, once its diagnostics are finished: the value it returned, or
/// a fatal error if there were errors.
pub fn after_consumer<R>(result: R, dcx: &DiagCtxt) -> (out: Result<R, FatalError>)
    requires
        dcx.wf(),
    ensures
        out == (if failed(dcx@) {
            Err(FatalError)
        } else {
            Ok(result)
        }),
{
    match dcx.has_errors() {
        Some(_) => Err(FatalError),
        None => Ok(result),
    }
}

/// What a session came to.
pub struct Ended<R> {
    /// What the consumer's work returned, or the fatal error that a session with errors raises.
    pub result: Result<R, FatalError>,
    pub dcx: DiagCtxt,
    /// What was done, in order.
    pub steps: Vec<RunStep>,
}

/// The parts of a session fit together: each may be called with what the one before it returns,
/// and the diagnostics are finished when they are to be.
pub open spec fn fits_together<T, R, P, B, F, N, L>(
    config: Config,
    built: Option<&'static str>,
    parallel: bool,
    id: RegistryId,
    prepare: P,
    build: B,
    f: F,
    finish: N,
    flush: L,
) -> bool where
    P: FnOnce() -> T,
    B: FnOnce(&Compiler, T) -> DiagCtxt,
    F: FnOnce(&Compiler, DiagCtxt) -> (R, DiagCtxt),
    N: FnOnce(DiagCtxt) -> DiagCtxt,
    L: FnOnce(DiagCtxt) -> DiagCtxt,
 {
    &&& call_requires(prepare, ())
    &&& forall|c: Compiler, t: T|
        is_session_of(c, config, built, parallel, id) && call_ensures(prepare, (), t)
            ==> #[trigger] call_requires(build, (&c, t))
    &&& forall|c: Compiler, t: T, d: DiagCtxt|
        is_session_of(c, config, built, parallel, id) && #[trigger] call_ensures(build, (&c, t), d)
            ==> call_requires(f, (&c, d))
    &&& forall|c: Compiler, d: DiagCtxt, ran: (R, DiagCtxt)| #[trigger]
        call_ensures(f, (&c, d), ran) ==> call_requires(finish, (ran.1,))
    &&& forall|d: DiagCtxt, done: DiagCtxt| #[trigger]
        call_ensures(finish, (d,), done) ==> done.wf() && (!failed(done@) ==> call_requires(
            flush,
            (done,),
        ))
}

/// A session lived: its parts were called in order, each with what the one before it returned. If
/// there was no error once the diagnostics were finished, the consumer's value is returned, and the
/// delayed bugs are flushed; else a fatal error is raised, and nothing more is done.
pub open spec fn lived<T, R, P, B, F, N, L>(
    compiler: Compiler,
    prepare: P,
    build: B,
    f: F,
    finish: N,
    flush: L,
    target: T,
    start: DiagCtxt,
    ran: (R, DiagCtxt),
    done: DiagCtxt,
    result: Result<R, FatalError>,
    dcx: DiagCtxt,
) -> bool where
    P: FnOnce() -> T,
    B: FnOnce(&Compiler, T) -> DiagCtxt,
    F: FnOnce(&Compiler, DiagCtxt) -> (R, DiagCtxt),
    N: FnOnce(DiagCtxt) -> DiagCtxt,
    L: FnOnce(DiagCtxt) -> DiagCtxt,
 {
    &&& call_ensures(prepare, (), target)
    &&& call_ensures(build, (&compiler, target), start)
    &&& call_ensures(f, (&compiler, start), ran)
    &&& call_ensures(finish, (ran.1,), done)
    &&& if failed(done@) {
        result == Err::<R, FatalError>(FatalError) && dcx == done
    } else {
        result == Ok::<R, FatalError>(ran.0) && call_ensures(flush, (done,), dcx)
    }
}

/// Runs a session on this thread, which sees `modes` and is at `data`.
///
/// The session's parts are the caller's: `prepare` makes the target and checks the stack size,
/// `build` makes the session from that, up to the checks of the calling convention, `f` is the
/// consumer's work, `finish` finishes its diagnostics, and `flush` shows the delayed bugs and lets
/// go of the session. The width is latched before anything that depends on it is made, and the
/// thread holds the first slot of a registry, `id`, of its own. Afterwards the thread is where it
/// was, and its width is what it was.
pub fn run_compiler<T, R, P, B, F, N, L>(
    config: Config,
    built: Option<&'static str>,
    parallel: bool,
    modes: &mut Modes,
    data: &mut ThreadData,
    id: RegistryId,
    prepare: P,
    build: B,
    f: F,
    finish: N,
    flush: L,
) -> (ended: Ended<R>) where
    P: FnOnce() -> T,
    B: FnOnce(&Compiler, T) -> DiagCtxt,
    F: FnOnce(&Compiler, DiagCtxt) -> (R, DiagCtxt),
    N: FnOnce(DiagCtxt) -> DiagCtxt,
    L: FnOnce(DiagCtxt) -> DiagCtxt,

    requires
        fits_together::<T, R, P, B, F, N, L>(
            config,
            built,
            parallel,
            id,
            prepare,
            build,
            f,
            finish,
            flush,
        ),
    ensures
        exists|
            compiler: Compiler,
            target: T,
            start: DiagCtxt,
            ran: (R, DiagCtxt),
            done: DiagCtxt,
        |
            {
                &&& is_session_of(compiler, config, built, parallel, id)
                &&& #[trigger] lived::<T, R, P, B, F, N, L>(
                    compiler,
                    prepare,
                    build,
                    f,
                    finish,
                    flush,
                    target,
                    start,
                    ran,
                    done,
                    ended.result,
                    ended.dcx,
                )
            },
        ended.steps@ == session_steps(config.psess_created, ended.result is Err),
        final(modes).width == old(modes).width,
        final(modes).fallback == asked(
            old(modes).fallback,
            width_of(config.frontend_jobs, parallel) > 1,
        ),
        *final(data) == *old(data),
{
    let ghost asked_for = config;
    let psess_created = config.psess_created;
    let width = session_width(config.frontend_jobs, parallel);
    let mut steps: Vec<RunStep> = Vec::new();
    let mode = enter_session_width(modes, width);
    steps.push(RunStep::EnterSession);
    let target = prepare();
    steps.push(RunStep::BuildTarget);
    steps.push(RunStep::CheckStackSize);
    let mut registry = Registry::new(id, width);
    assert(registry.free().last() == 0);
    let slot = registry.lease();
    let place = match &slot {
        Some(slot) => Some(slot.enter(data)),
        None => None,
    };
    steps.push(RunStep::LeaseFirstSlot);
    let compiler = new_compiler(config, built, width, *data);
    assert(is_session_of(compiler, asked_for, built, parallel, id));
    let start = build(&compiler, target);
    steps.push(RunStep::BuildSession);
    steps.push(RunStep::CollectTargetFeatures);
    steps.push(RunStep::ParseCfg);
    steps.push(RunStep::AddConfiguration);
    steps.push(RunStep::ParseCheckCfg);
    if psess_created {
        steps.push(RunStep::InstallSink);
    }
    steps.push(RunStep::BuildLintStore);
    steps.push(RunStep::CheckAbiFeatures);
    let ran = f(&compiler, start);
    let ghost returned = ran;
    steps.push(RunStep::RunConsumer);
    let done = finish(ran.1);
    steps.push(RunStep::FinishDiagnostics);
    steps.push(RunStep::AbortIfErrors);
    assert(steps@ =~= steps_through_consumer(psess_created));
    let ghost finished = done;
    let result = after_consumer(ran.0, &done);
    let dcx = if result.is_ok() {
        let dcx = flush(done);
        steps.push(RunStep::FlushDelayed);
        steps.push(RunStep::DropCompiler);
        dcx
    } else {
        steps.push(RunStep::RaiseFatal);
        done
    };
    match place {
        Some(place) => place.leave(data),
        None => {},
    }
    match slot {
        Some(slot) => registry.give_back(slot),
        None => {},
    }
    mode.leave(modes);
    steps.push(RunStep::LeaveSession);
    assert(steps@ =~= session_steps(psess_created, result is Err));
    let ended = Ended { result, dcx, steps };
    assert(lived::<T, R, P, B, F, N, L>(
        compiler,
        prepare,
        build,
        f,
        finish,
        flush,
        target,
        start,
        returned,
        finished,
        ended.result,
        ended.dcx,
    ));
    assert(is_session_of(compiler, config, built, parallel, id));
    ended
}

/// Where a step of a session stands.
pub open spec fn step_place(s: RunStep) -> int {
    match s {
        RunStep::EnterSession => 0,
        RunStep::BuildTarget => 1,
        RunStep::CheckStackSize => 2,
        RunStep::LeaseFirstSlot => 3,
        RunStep::BuildSession => 4,
        RunStep::CollectTargetFeatures => 5,
        RunStep::ParseCfg => 6,
        RunStep::AddConfiguration => 7,
        RunStep::ParseCheckCfg => 8,
        RunStep::InstallSink => 9,
        RunStep::BuildLintStore => 10,
        RunStep::CheckAbiFeatures => 11,
        RunStep::RunConsumer => 12,
        RunStep::FinishDiagnostics => 13,
        RunStep::AbortIfErrors => 14,
        RunStep::RaiseFatal => 15,
        RunStep::FlushDelayed => 16,
        RunStep::DropCompiler => 17,
        RunStep::LeaveSession => 18,
    }
}

/// A session takes every step once and in one order: the sink is installed only if the consumer has
/// one, and a session with errors raises a fatal error in place of flushing what was delayed. It is
/// entered first and left last.
#[verifier::rlimit(40)]
#[verifier::spinoff_prover]
pub proof fn law_a_session_takes_every_step(psess_created: bool, failed: bool, s: RunStep)
    ensures
        session_steps(psess_created, failed).contains(s) <==> (match s {
            RunStep::InstallSink => psess_created,
            RunStep::RaiseFatal => failed,
            RunStep::FlushDelayed | RunStep::DropCompiler => !failed,
            _ => true,
        }),
        ordered(session_steps(psess_created, failed), |x: RunStep| step_place(x), 0, 19),
{
    let place = |x: RunStep| step_place(x);
    let first = seq![
        RunStep::EnterSession,
        RunStep::BuildTarget,
        RunStep::CheckStackSize,
        RunStep::LeaseFirstSlot,
        RunStep::BuildSession,
        RunStep::CollectTargetFeatures,
        RunStep::ParseCfg,
        RunStep::AddConfiguration,
        RunStep::ParseCheckCfg,
    ];
    let sink = if psess_created {
        seq![RunStep::InstallSink]
    } else {
        Seq::empty()
    };
    let work = seq![
        RunStep::BuildLintStore,
        RunStep::CheckAbiFeatures,
        RunStep::RunConsumer,
        RunStep::FinishDiagnostics,
        RunStep::AbortIfErrors,
    ];
    let end = if failed {
        seq![RunStep::RaiseFatal]
    } else {
        seq![RunStep::FlushDelayed, RunStep::DropCompiler]
    };
    let last = seq![RunStep::LeaveSession];
    let p = step_place(s);
    if 0 <= p < 9 {
        assert(first[p] == s);
    }
    if p == 9 && psess_created {
        assert(sink[0] == s);
    }
    if 10 <= p < 15 {
        assert(work[p - 10] == s);
    }
    if p == 15 && failed {
        assert(end[0] == s);
    }
    if 16 <= p < 18 && !failed {
        assert(end[p - 16] == s);
    }
    if p == 18 {
        assert(last[0] == s);
    }
    assert(ordered(first, place, 0, 9));
    assert(ordered(sink, place, 9, 10));
    assert(ordered(work, place, 10, 15));
    assert(ordered(end, place, 15, 18));
    assert(ordered(last, place, 18, 19));
    lemma_ordered_join(first, sink, place, 0, 9, 10, s);
    lemma_ordered_join(first + sink, work, place, 0, 10, 15, s);
    lemma_ordered_join(first + sink + work, end, place, 0, 15, 18, s);
    lemma_ordered_join(first + sink + work + end, last, place, 0, 18, 19, s);
    assert(session_steps(psess_created, failed) == first + sink + work + end + last);
}

/// What the consumer made is handed out exactly if nothing went wrong.
pub proof fn law_an_error_takes_the_result<R>(result: R, dcx: &DiagCtxt, out: Result<R, FatalError>)
    requires
        call_ensures(after_consumer, (result, dcx), out),
    ensures
        out is Err <==> went_wrong(dcx@),
        out is Ok ==> out->Ok_0 == result,
{
}

/// A session claims the version that the consumer says, else the one that was built in, else that of
/// a development build.
pub proof fn law_a_session_claims_a_version(
    compiler: Compiler,
    config: Config,
    built: Option<&'static str>,
    parallel: bool,
    id: RegistryId,
)
    requires
        is_session_of(compiler, config, built, parallel, id),
    ensures
        config.rustc_version is Some ==> compiler.cfg_version@ == config.rustc_version->0@,
        config.rustc_version is None && built is Some ==> compiler.cfg_version@ == built->0@,
        config.rustc_version is None && built is None ==> compiler.cfg_version@
            == "1.100.0-dev"@,
        compiler.thread.index == 0,
        compiler.thread.registry_id == Some(id),
{
}

} // verus!
