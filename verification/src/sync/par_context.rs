//! What a parallel item needs installed around it, supplied by the modules that own it.
//!
//! A context hook stands for a thread-local that an item reads: it is captured where a stage opens
//! and installed around every item. The item hook is told when a stage begins and ends. Hooks are
//! known by their numbers.

use vstd::prelude::*;

verus! {

/// A thread-local that a parallel item must see on whichever thread runs it.
#[derive(Clone, Copy, Debug, PartialEq, Eq, Structural)]
pub struct ContextHook(pub u64);

/// What is wrapped around every item of a parallel stage.
#[derive(Clone, Copy, Debug, PartialEq, Eq, Structural)]
pub struct ItemHook(pub u64);

/// How many context hooks there can be.
pub const MAX_HOOKS: usize = 4;

/// The hooks that are registered.
pub struct Hooks {
    context: Vec<ContextHook>,
    item: Option<ItemHook>,
}

impl Hooks {
    /// The context hooks, in the order in which they were registered.
    pub closed spec fn context(&self) -> Seq<ContextHook> {
        self.context@
    }

    pub closed spec fn item(&self) -> Option<ItemHook> {
        self.item
    }

    /// No hook is registered twice, and there are not too many.
    pub open spec fn wf(&self) -> bool {
        self.context().no_duplicates() && self.context().len() <= MAX_HOOKS
    }

    pub fn new() -> (hooks: Hooks)
        ensures
            hooks.wf(),
            hooks.context() == Seq::<ContextHook>::empty(),
            hooks.item() is None,
    {
        Hooks { context: Vec::new(), item: None }
    }
}

/// The hooks once `hook` is registered: a hook that is there already is not added again.
pub open spec fn with_hook(hooks: Seq<ContextHook>, hook: ContextHook) -> Seq<ContextHook> {
    if hooks.contains(hook) {
        hooks
    } else {
        hooks.push(hook)
    }
}

/// Registers a context hook, once. There has to be room for a new one.
pub fn install_context_hook(hooks: &mut Hooks, hook: ContextHook)
    requires
        old(hooks).wf(),
        with_hook(old(hooks).context(), hook).len() <= MAX_HOOKS,
    ensures
        final(hooks).wf(),
        final(hooks).context() == with_hook(old(hooks).context(), hook),
        final(hooks).item() == old(hooks).item(),
{
    let ghost before = hooks.context@;
    let mut i: usize = 0;
    while i < hooks.context.len()
        invariant
            i <= hooks.context@.len(),
            hooks.context@ == before,
            *hooks == *old(hooks),
            before == old(hooks).context(),
            hooks.wf(),
            forall|k: int| 0 <= k < i ==> #[trigger] before[k] != hook,
        decreases hooks.context@.len() - i,
    {
        if hooks.context[i] == hook {
            assert(before[i as int] == hook);
            return;
        }
        i += 1;
    }
    assert(!before.contains(hook));
    hooks.context.push(hook);
    proof {
        assert(hooks.context() == before.push(hook));
        assert forall|a: int, b: int|
            0 <= a < hooks.context().len() && 0 <= b < hooks.context().len() && a
                != b implies hooks.context()[a] != hooks.context()[b] by {
            if a == before.len() {
                assert(before[b] != hook);
            } else if b == before.len() {
                assert(before[a] != hook);
            }
        }
    }
}

/// Registers the item hook: the last call wins.
pub fn install_item_hook(hooks: &mut Hooks, hook: ItemHook)
    ensures
        final(hooks).context() == old(hooks).context(),
        final(hooks).item() == Some(hook),
{
    hooks.item = Some(hook);
}

/// The session's globals.
pub const SESSION_GLOBALS_HOOK: u64 = 0;

/// What a query runs in.
pub const IMPLICIT_CTXT_HOOK: u64 = 1;

/// The collection of an item's diagnostics.
pub const DIAGNOSTICS_HOOK: u64 = 0;

/// The hooks that every session installs.
pub open spec fn with_session_hooks(hooks: Seq<ContextHook>) -> Seq<ContextHook> {
    with_hook(
        with_hook(hooks, ContextHook(SESSION_GLOBALS_HOOK)),
        ContextHook(IMPLICIT_CTXT_HOOK),
    )
}

/// Registers what the parallel stages install around every item: the session's globals, what a
/// query runs in, and the collection of diagnostics. There has to be room.
pub fn install_parallel_context(hooks: &mut Hooks)
    requires
        old(hooks).wf(),
        with_session_hooks(old(hooks).context()).len() <= MAX_HOOKS,
    ensures
        final(hooks).wf(),
        final(hooks).context() == with_session_hooks(old(hooks).context()),
        final(hooks).item() == Some(ItemHook(DIAGNOSTICS_HOOK)),
{
    install_context_hook(hooks, ContextHook(SESSION_GLOBALS_HOOK));
    install_context_hook(hooks, ContextHook(IMPLICIT_CTXT_HOOK));
    install_item_hook(hooks, ItemHook(DIAGNOSTICS_HOOK));
}

/// A session finds room for its hooks where only sessions have installed any, and leaves what is
/// there as it is.
pub proof fn law_sessions_share_their_hooks(hooks: Seq<ContextHook>)
    requires
        hooks == Seq::<ContextHook>::empty() || hooks == with_session_hooks(Seq::empty()),
    ensures
        with_session_hooks(hooks) == with_session_hooks(Seq::empty()),
        with_session_hooks(hooks).len() == 2,
{
    let first = ContextHook(SESSION_GLOBALS_HOOK);
    let second = ContextHook(IMPLICIT_CTXT_HOOK);
    let none = Seq::<ContextHook>::empty();
    assert(!none.contains(first));
    assert(none.push(first)[0] == first);
    assert(!none.push(first).contains(second)) by {
        assert forall|i: int| 0 <= i < none.push(first).len() implies none.push(first)[i]
            != second by {}
    }
    let both = none.push(first).push(second);
    assert(both[0] == first && both[1] == second);
    assert(both.contains(first) && both.contains(second));
}

/// Registering a hook again changes nothing, so every session may do so on its way in.
pub proof fn law_registering_again_changes_nothing(
    hooks: Seq<ContextHook>,
    hook: ContextHook,
    other: ContextHook,
)
    ensures
        with_hook(with_hook(hooks, hook), hook) == with_hook(hooks, hook),
        with_hook(with_hook(with_hook(hooks, hook), other), hook) == with_hook(
            with_hook(hooks, hook),
            other,
        ),
{
    let one = with_hook(hooks, hook);
    assert(one.contains(hook)) by {
        if !hooks.contains(hook) {
            assert(one[hooks.len() as int] == hook);
        }
    }
    let two = with_hook(one, other);
    assert(two.contains(hook)) by {
        let i = choose|i: int| 0 <= i < one.len() && one[i] == hook;
        assert(two[i] == hook);
    }
}

/// A value of a hook, by number; zero stands for nothing installed.
#[derive(Clone, Copy, Debug, PartialEq, Eq, Structural)]
pub struct Captured {
    pub hook: ContextHook,
    pub value: u64,
}

/// A step of running items in a captured context.
#[derive(Clone, Copy, Debug, PartialEq, Eq, Structural)]
pub enum ContextStep {
    /// The hook installs the value.
    Install(Captured),
    /// The items run.
    Run,
    /// The hook puts back what was there.
    Restore(Captured),
}

/// The steps of running in a captured context: the first registered is outermost.
pub open spec fn context_steps(values: Seq<Captured>) -> Seq<ContextStep>
    decreases values.len(),
{
    if values.len() == 0 {
        seq![ContextStep::Run]
    } else {
        seq![ContextStep::Install(values[0])] + context_steps(values.drop_first())
            + seq![ContextStep::Restore(values[0])]
    }
}

/// The values of every registered hook, captured where a stage opens.
pub struct CapturedContext {
    values: Vec<Captured>,
}

impl CapturedContext {
    pub closed spec fn view(&self) -> Seq<Captured> {
        self.values@
    }

    /// Captures what each hook gives, in the order in which they were registered.
    pub fn capture(hooks: &Hooks, values: &Vec<u64>) -> (context: CapturedContext)
        requires
            values@.len() == hooks.context().len(),
        ensures
            context@.len() == hooks.context().len(),
            forall|i: int|
                0 <= i < context@.len() ==> #[trigger] context@[i] == (Captured {
                    hook: hooks.context()[i],
                    value: values@[i],
                }),
    {
        let mut captured: Vec<Captured> = Vec::new();
        let mut i: usize = 0;
        while i < hooks.context.len()
            invariant
                i <= hooks.context@.len(),
                values@.len() == hooks.context@.len(),
                captured@.len() == i,
                forall|k: int|
                    0 <= k < i ==> #[trigger] captured@[k] == (Captured {
                        hook: hooks.context@[k],
                        value: values@[k],
                    }),
            decreases hooks.context@.len() - i,
        {
            captured.push(Captured { hook: hooks.context[i], value: values[i] });
            i += 1;
        }
        CapturedContext { values: captured }
    }

    /// The steps of running in the context.
    pub fn enter(&self) -> (steps: Vec<ContextStep>)
        ensures
            steps@ == context_steps(self@),
    {
        let mut steps: Vec<ContextStep> = Vec::new();
        let n = self.values.len();
        let mut i: usize = 0;
        while i < n
            invariant
                i <= n,
                n == self.values@.len(),
                steps@.len() == i,
                forall|k: int|
                    0 <= k < i ==> #[trigger] steps@[k] == ContextStep::Install(self.values@[k]),
            decreases n - i,
        {
            steps.push(ContextStep::Install(self.values[i]));
            i += 1;
        }
        steps.push(ContextStep::Run);
        while i > 0
            invariant
                i <= n,
                n == self.values@.len(),
                steps@.len() == n + 1 + (n - i),
                forall|k: int|
                    0 <= k < n ==> #[trigger] steps@[k] == ContextStep::Install(self.values@[k]),
                steps@[n as int] == ContextStep::Run,
                forall|k: int|
                    n < k < steps@.len() ==> #[trigger] steps@[k] == ContextStep::Restore(
                        self.values@[2 * n - k],
                    ),
            decreases i,
        {
            i = i - 1;
            steps.push(ContextStep::Restore(self.values[i]));
        }
        proof {
            lemma_steps_by_place(self@, steps@);
        }
        steps
    }
}

/// The steps, place by place: the installs in order, the run, the restores in reverse.
proof fn lemma_steps_by_place(values: Seq<Captured>, steps: Seq<ContextStep>)
    requires
        steps.len() == 2 * values.len() + 1,
        forall|k: int|
            0 <= k < values.len() ==> #[trigger] steps[k] == ContextStep::Install(values[k]),
        steps[values.len() as int] == ContextStep::Run,
        forall|k: int|
            values.len() < k < steps.len() ==> #[trigger] steps[k] == ContextStep::Restore(
                values[2 * values.len() - k],
            ),
    ensures
        steps == context_steps(values),
    decreases values.len(),
{
    if values.len() == 0 {
        assert(steps =~= seq![ContextStep::Run]);
    } else {
        let inner = steps.subrange(1, steps.len() - 1);
        let rest = values.drop_first();
        assert forall|k: int| 0 <= k < rest.len() implies #[trigger] inner[k]
            == ContextStep::Install(rest[k]) by {
            assert(steps[k + 1] == ContextStep::Install(values[k + 1]));
        }
        assert forall|k: int| rest.len() < k < inner.len() implies #[trigger] inner[k]
            == ContextStep::Restore(rest[2 * rest.len() - k]) by {
            assert(steps[k + 1] == ContextStep::Restore(values[2 * values.len() - (k + 1)]));
        }
        lemma_steps_by_place(rest, inner);
        assert(steps[0] == ContextStep::Install(values[0]));
        assert(steps[steps.len() - 1] == ContextStep::Restore(values[0]));
        assert(steps =~= seq![ContextStep::Install(values[0])] + inner + seq![
            ContextStep::Restore(values[0]),
        ]);
    }
}

/// The item hook's state for one stage: ended once, by finishing or by being discarded.
pub struct ItemScope {
    hook: Option<ItemHook>,
    open: bool,
}

/// How an item hook's state ends.
#[derive(Clone, Copy, Debug, PartialEq, Eq, Structural)]
pub enum ItemEnd {
    /// The hook's `finish` is called.
    Finish(ItemHook),
    /// The hook's `discard` is called.
    Discard(ItemHook),
    /// There is no hook, or the state has ended already.
    Nothing,
}

impl ItemScope {
    pub closed spec fn hook(&self) -> Option<ItemHook> {
        self.hook
    }

    /// The state has not ended.
    pub closed spec fn is_open(&self) -> bool {
        self.open
    }

    /// Begins a stage: with a hook its `begin` is called, and the state is open.
    pub fn begin(hooks: &Hooks) -> (scope: ItemScope)
        ensures
            scope.hook() == hooks.item(),
            scope.is_open() == hooks.item() is Some,
    {
        match hooks.item {
            Some(hook) => ItemScope { hook: Some(hook), open: true },
            None => ItemScope { hook: None, open: false },
        }
    }

    /// Every item has settled.
    pub fn finish(&mut self) -> (end: ItemEnd)
        ensures
            final(self).hook() == old(self).hook(),
            !final(self).is_open(),
            end == (match old(self).hook() {
                Some(hook) => if old(self).is_open() {
                    ItemEnd::Finish(hook)
                } else {
                    ItemEnd::Nothing
                },
                None => ItemEnd::Nothing,
            }),
    {
        let was_open = self.open;
        self.open = false;
        match self.hook {
            Some(hook) => if was_open {
                ItemEnd::Finish(hook)
            } else {
                ItemEnd::Nothing
            },
            None => ItemEnd::Nothing,
        }
    }

    /// The stage is left, on whichever path: a state that did not finish is discarded.
    pub fn leave(self) -> (end: ItemEnd)
        ensures
            end == (match self.hook() {
                Some(hook) => if self.is_open() {
                    ItemEnd::Discard(hook)
                } else {
                    ItemEnd::Nothing
                },
                None => ItemEnd::Nothing,
            }),
    {
        match self.hook {
            Some(hook) => if self.open {
                ItemEnd::Discard(hook)
            } else {
                ItemEnd::Nothing
            },
            None => ItemEnd::Nothing,
        }
    }
}

/// A hook that is registered is there, once, and those that were there stay where they were.
pub proof fn law_a_registered_hook_is_there(
    hooks: Seq<ContextHook>,
    hook: ContextHook,
    other: ContextHook,
)
    ensures
        with_hook(hooks, hook).contains(other) <==> hooks.contains(other) || other == hook,
        with_hook(hooks, hook).len() >= hooks.len(),
        with_hook(hooks, hook).take(hooks.len() as int) == hooks,
        hooks.no_duplicates() ==> with_hook(hooks, hook).no_duplicates(),
{
    let now = with_hook(hooks, hook);
    assert(now.take(hooks.len() as int) =~= hooks);
    if hooks.contains(other) {
        let i = choose|i: int| 0 <= i < hooks.len() && hooks[i] == other;
        assert(now[i] == other);
    }
    if other == hook && !hooks.contains(hook) {
        assert(now[now.len() - 1] == other);
    }
    if now.contains(other) && other != hook {
        let i = choose|i: int| 0 <= i < now.len() && now[i] == other;
        assert(hooks[i] == other);
    }
}

/// A session's globals and what a query runs in are two hooks of their own, and both are there once
/// a session has registered them.
pub proof fn law_a_session_registers_its_hooks(hooks: Seq<ContextHook>, other: ContextHook)
    ensures
        SESSION_GLOBALS_HOOK != IMPLICIT_CTXT_HOOK,
        with_session_hooks(hooks).contains(other) <==> hooks.contains(other) || other
            == ContextHook(SESSION_GLOBALS_HOOK) || other == ContextHook(IMPLICIT_CTXT_HOOK),
        with_session_hooks(hooks).len() >= hooks.len(),
        with_session_hooks(hooks).take(hooks.len() as int) == hooks,
{
    let first = with_hook(hooks, ContextHook(SESSION_GLOBALS_HOOK));
    law_a_registered_hook_is_there(hooks, ContextHook(SESSION_GLOBALS_HOOK), other);
    law_a_registered_hook_is_there(first, ContextHook(IMPLICIT_CTXT_HOOK), other);
    assert(with_session_hooks(hooks).take(hooks.len() as int) =~= first.take(
        hooks.len() as int,
    ));
}

/// The items run with every value installed: the values are installed in order, and put back in
/// reverse order, as many as were installed.
pub proof fn law_a_context_is_put_back_in_reverse(
    context: &CapturedContext,
    steps: Vec<ContextStep>,
    i: int,
)
    requires
        call_ensures(CapturedContext::enter, (context,), steps),
        0 <= i < context@.len(),
    ensures
        steps@.len() == 2 * context@.len() + 1,
        steps@[i] == ContextStep::Install(context@[i]),
        steps@[context@.len() as int] == ContextStep::Run,
        steps@[steps@.len() - 1 - i] == ContextStep::Restore(context@[i]),
{
    lemma_places(context@, i);
}

proof fn lemma_places(values: Seq<Captured>, i: int)
    requires
        0 <= i <= values.len(),
    ensures
        ({
            let steps = context_steps(values);
            &&& steps.len() == 2 * values.len() + 1
            &&& steps[values.len() as int] == ContextStep::Run
            &&& i < values.len() ==> steps[i] == ContextStep::Install(values[i])
                && steps[steps.len() - 1 - i] == ContextStep::Restore(values[i])
        }),
    decreases values.len(),
{
    if values.len() > 0 {
        let rest = values.drop_first();
        if i > 0 {
            lemma_places(rest, i - 1);
        } else {
            lemma_places(rest, 0);
        }
    }
}

/// The state of a stage ends once: finishing ends it, and it is discarded exactly if it did not
/// finish.
pub proof fn law_a_stage_ends_once(
    hooks: &Hooks,
    scope: &mut ItemScope,
    end: ItemEnd,
    after: ItemEnd,
    without: ItemEnd,
)
    requires
        call_ensures(ItemScope::begin, (hooks,), *old(scope)),
        call_ensures(ItemScope::finish, (scope,), end),
        call_ensures(ItemScope::leave, (*final(scope),), after),
        call_ensures(ItemScope::leave, (*old(scope),), without),
    ensures
        hooks.item() is Some ==> end == ItemEnd::Finish(hooks.item()->0) && without
            == ItemEnd::Discard(hooks.item()->0),
        hooks.item() is None ==> end == ItemEnd::Nothing && without == ItemEnd::Nothing,
        after == ItemEnd::Nothing,
{
}

} // verus!
