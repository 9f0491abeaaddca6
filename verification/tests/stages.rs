use frontend::errors::item_scope::FatalError;
use frontend::errors::item_scope::Hub;
use frontend::errors::item_scope::OrderedReplay;
use frontend::errors::item_scope::QueryFrame;
use frontend::errors::item_scope::ScopeStack;
use frontend::sync::cost::weight;
use frontend::sync::drain::twice;
use frontend::sync::drain::Drain;
use frontend::sync::drain::Step;
use frontend::sync::measure::join_answers;
use frontend::sync::measure::tail_item;
use frontend::sync::measure::Look;
use frontend::sync::measure::MeasuredLoop;
use frontend::sync::plan::helpers_for;
use frontend::sync::plan::threads_for;
use frontend::sync::plan::threads_here;
use frontend::sync::plan::width;
use frontend::sync::plan::Plan;
use frontend::sync::plan::MIN_CHUNK_NS;
use frontend::sync::scope::measured_ns;
use frontend::sync::scope::range_through;
use frontend::sync::scope::serial_order;
use frontend::sync::scope::Begin;
use frontend::sync::scope::Conclusion;
use frontend::sync::scope::ScopeShared;
use frontend::sync::settle::Next;
use frontend::sync::settle::Settle;
use frontend::sync::slots::Slots;
use frontend::sync::slots::Wait;
use frontend::sync::stage::run_stage;
use frontend::sync::stage::run_stage_weighted;
use frontend::sync::stage::stages;

#[test]
fn a_stage_runs_every_item_in_order() {
    assert_eq!(run_stage(10, 4, |input, i| input + i), vec![10, 11, 12, 13]);
    assert_eq!(run_stage_weighted('x', 2, |_, i| i as u32, |c, i| (*c, i)), vec![('x', 0), ('x', 1)]);
    let mut scope = stages();
    let first = scope.stage((), 3, |_, i| i % 2 == 0);
    let then = scope.stage_then(&first, 5, 3, |input, i| input * i);
    assert_eq!(then.release().into_values(), vec![0, 5, 10]);
    assert_eq!(scope.stage_weighted((), 1, |_, _| 9, |_, i| i).into_values(), vec![0]);
}

#[test]
fn weights_from_bytes() {
    assert_eq!(weight(10, 4), 40);
    assert_eq!(weight(u32::MAX, 2), u32::MAX);
}

#[test]
fn plans_cut_runs_of_like_weight() {
    let plan = Plan::cut(&[5; 64], 4, 1);
    assert_eq!(plan.len(), 64);
    assert_eq!(plan.total(), 320);
    assert_eq!(plan.chunks(), 32);
    assert_eq!(plan.chunk(0), (0, 2));
    assert_eq!(plan.chunk(31), (62, 64));
    assert_eq!(plan.weight_from(31), 10);
    assert_eq!(plan.chunk_weight_at(62), 10);
    let empty = Plan::cut(&[], 4, 1);
    assert_eq!((empty.len(), empty.chunks()), (0, 0));
    assert!(!empty.pays());
    let heavy = Plan::cut(&[MIN_CHUNK_NS * 10; 4], 2, MIN_CHUNK_NS);
    assert!(heavy.pays());
}

#[test]
fn chunks_are_no_lighter_than_the_floor() {
    let plan = Plan::cut(&[1; 100], 2, 50);
    assert_eq!(plan.chunks(), 2);
    assert_eq!(plan.chunk(0), (0, 50));
}

#[test]
fn helpers_have_to_pay() {
    assert_eq!(helpers_for(10, 0), 0);
    assert_eq!(helpers_for(10, MIN_CHUNK_NS), 0);
    assert_eq!(helpers_for(10, MIN_CHUNK_NS * 3), 2);
    assert_eq!(helpers_for(2, MIN_CHUNK_NS * 30), 1);
    assert_eq!(width(0, 3), 4);
    assert_eq!(width(2, 3), 2);
    assert_eq!(threads_for(8, 3), 4);
    assert_eq!(threads_for(2, 3), 2);
    assert_eq!(threads_here(true, 8, 3), Some(4));
    assert_eq!(threads_here(false, 8, 3), None);
}

#[test]
fn slots_are_filled_once() {
    let mut slots: Slots<char> = Slots::with_len(2);
    assert!(slots.claim(0));
    assert!(!slots.claim(0));
    assert!(slots.is_running(0));
    assert!(!slots.poll_ready(0, 77));
    assert_eq!(slots.fill(0, 'a'), vec![77]);
    assert_eq!(slots.get(0), Some(&'a'));
    assert!(slots.is_settled(0));
    assert_eq!(slots.first_unsettled(0), Some(1));
    assert!(matches!(slots.wait(1, true), Wait::RunIt));
    slots.fill(1, 'b');
    assert!(matches!(slots.wait(1, true), Wait::Value));
    assert_eq!(slots.into_values(), vec!['a', 'b']);
}

#[test]
fn a_failed_slot_has_no_value() {
    let mut slots: Slots<char> = Slots::with_len(1);
    assert!(slots.claim(0));
    assert!(matches!(slots.wait(0, true), Wait::Block));
    slots.fail(0);
    assert_eq!(slots.get(0), None);
    assert!(matches!(slots.wait(0, true), Wait::Nothing));
    assert_eq!(slots.first_unsettled(0), None);
}

#[test]
fn serial_order_is_stage_by_stage() {
    assert!(serial_order(0, 5) < serial_order(0, 6));
    assert!(serial_order(0, u32::MAX as usize) < serial_order(1, 0));
    assert_eq!(serial_order(2, 3), (2 << 32) + 3);
    assert_eq!(twice(4), 8);
    assert_eq!(twice(u64::MAX), u64::MAX);
    assert_eq!(measured_ns(10, 300, 3), 1000);
    assert!(range_through(2, 1).is_none());
}

fn run_item(scope: &mut ScopeShared, stage: usize, index: usize, log: &mut Vec<(usize, usize)>) {
    match scope.begin_item(stage, index) {
        Begin::Run => {
            log.push((stage, index));
            scope.finish_item(stage, index, false, Some(true));
        }
        Begin::CutOff(_) => {}
        Begin::WaitFor(_) => panic!("nothing is chained"),
    }
}

#[test]
fn two_threads_run_every_item_once() {
    let mut scope = ScopeShared::new(2, 1);
    let plan = Plan::cut(&[1000; 40], 2, 1);
    scope.start(plan, true, false, None, 1);
    let plan = Plan::cut(&[1000; 7], 2, 1);
    scope.start(plan, false, false, None, 1);
    let first = scope.take_owner_first();
    let mut owner = Drain::new(&scope, true, first);
    assert!(scope.arrive());
    let mut helper = Drain::new(&scope, false, None);
    let mut log = Vec::new();
    let mut turn = 0;
    let mut over = [false, false];
    while !(over[0] && over[1]) {
        turn += 1;
        let which = if over[0] { 1 } else if over[1] { 0 } else { turn % 2 };
        let drain = if which == 0 { &mut owner } else { &mut helper };
        match drain.step(&mut scope) {
            Step::Run { stage, index } => {
                run_item(&mut scope, stage, index, &mut log);
                drain.item_returned();
            }
            Step::NothingLeft => over[which] = true,
            _ => {}
        }
    }
    scope.leave();
    assert_eq!(Settle::new().step(&mut scope, 2), Next::Settled);
    log.sort();
    let mut all: Vec<(usize, usize)> = (0..40).map(|i| (0, i)).collect();
    all.extend((0..7).map(|i| (1, i)));
    assert_eq!(log, all);
    assert!(scope.close());
    assert!(matches!(scope.conclude(), Conclusion::InOrder));
}

#[test]
fn the_first_panic_in_serial_order_is_raised() {
    let mut scope = ScopeShared::new(2, 1);
    scope.start(Plan::cut(&[1; 6], 2, 1), false, false, None, 1);
    for index in [4, 2] {
        assert!(scope.claim(0, index));
        assert!(matches!(scope.begin_item(0, index), Begin::Run));
        scope.panicked(0, index, index as u64 * 100);
    }
    assert!(scope.claim(0, 5));
    assert!(matches!(scope.begin_item(0, 5), Begin::CutOff(_)));
    assert!(scope.claim(0, 1));
    assert!(matches!(scope.begin_item(0, 1), Begin::Run));
    scope.finish_item(0, 1, false, Some(true));
    let mut settle = Settle::new();
    assert_eq!(settle.step(&mut scope, 1), Next::Run { stage: 0, index: 0 });
    // Until the item has settled the owner waits for it.
    assert_eq!(settle.step(&mut scope, 1), Next::WaitFor { stage: 0, index: 0 });
    assert!(matches!(scope.begin_item(0, 0), Begin::Run));
    scope.finish_item(0, 0, false, Some(true));
    assert_eq!(settle.step(&mut scope, 1), Next::Run { stage: 0, index: 3 });
    assert!(matches!(scope.begin_item(0, 3), Begin::CutOff(_)));
    assert_eq!(settle.step(&mut scope, 1), Next::Settled);
    // What comes before the first panic has its value.
    assert!(scope.stages[0].slots.get(0).is_some() && scope.stages[0].slots.get(1).is_some());
    assert!(scope.close());
    assert!(matches!(scope.conclude(), Conclusion::Raise(200)));
}

#[test]
fn a_panic_wakes_whoever_waits_for_the_item() {
    let mut scope = ScopeShared::new(2, 1);
    scope.start(Plan::cut(&[1; 4], 2, 1), false, false, None, 1);
    let mut drain = Drain::new(&scope, true, None);
    let (stage, index) = loop {
        if let Step::Run { stage, index } = drain.step(&mut scope) {
            break (stage, index);
        }
    };
    assert_eq!((stage, index), (0, 0));
    assert!(!scope.stages[0].slots.poll_ready(0, 31));
    assert!(!scope.stages[0].slots.poll_ready(3, 32));
    assert!(matches!(scope.begin_item(0, 0), Begin::Run));
    assert_eq!(drain.item_panicked(&mut scope, 8), vec![31]);
    assert!(!scope.closed);
    // The run goes on: what is left is cut off, and whoever waits for it is woken too.
    let mut woken = Vec::new();
    loop {
        match drain.step(&mut scope) {
            Step::Run { stage, index } => {
                if let Begin::CutOff(wakers) = scope.begin_item(stage, index) {
                    woken.extend(wakers);
                }
                drain.item_returned();
            }
            Step::NothingLeft => break,
            _ => {}
        }
    }
    assert_eq!(woken, vec![32]);
    assert_eq!(Settle::new().step(&mut scope, 1), Next::Settled);
    assert!(matches!(scope.conclude(), Conclusion::Raise(8)));
}

#[test]
fn a_claim_forgets_nobody() {
    let mut scope = ScopeShared::new(2, 1);
    scope.start(Plan::cut(&[1; 2], 2, 1), false, false, None, 1);
    assert!(!scope.stages[0].slots.poll_ready(1, 40));
    assert!(scope.claim(0, 0) && scope.claim(0, 1));
    assert!(scope.finish_item(0, 0, false, Some(true)).woken.is_empty());
    assert_eq!(scope.finish_item(0, 1, false, Some(true)).woken, vec![40]);
}

#[test]
fn the_answers_of_a_tail_follow_those_of_the_head() {
    assert_eq!(tail_item(3, 2, 6), 5);
    assert_eq!(join_answers(vec!['a'], vec![Some('b'), Some('c')]), Some(vec!['a', 'b', 'c']));
    assert_eq!(join_answers(vec!['a'], vec![Some('b'), None]), None);
    let plan = Plan::cut(&[1000; 40], 2, 1);
    let rest = 10;
    let mut items = Vec::new();
    for k in 0..plan.chunks() {
        let (lo, hi) = plan.chunk(k);
        items.extend((lo..hi).map(|index| tail_item(rest, index, 50)));
    }
    assert_eq!(items, (10..50).collect::<Vec<_>>());
}

#[test]
fn a_measured_loop_fans_out_when_it_pays() {
    let mut run = MeasuredLoop::new(None, 100, 4);
    assert!(matches!(run.item_done(1000), Look::RunNext));
    match run.item_done(2 * MIN_CHUNK_NS) {
        Look::FanOut { rest, plan } => {
            assert_eq!(rest, 2);
            assert_eq!(plan.len(), 98);
            assert!(plan.pays());
        }
        _ => panic!("the rest pays"),
    }
    let mut short = MeasuredLoop::new(Some(&vec![5]), 1, 4);
    assert!(matches!(short.item_done(1), Look::Finished));
}

#[test]
fn items_report_in_serial_order() {
    let mut hub: Hub<char> = Hub::new();
    let created = hub.tick();
    let mut stack = ScopeStack::new();
    let mut replay = OrderedReplay::new(2, &mut stack, &mut hub);
    let mut worker = ScopeStack::new();
    for (index, kind) in [(1, 'b'), (0, 'a')] {
        let opened = replay.begin_item(&mut worker, true);
        assert!(worker.captures(created));
        worker.capture(&mut hub, 9, created, kind);
        let run = OrderedReplay::end_item(opened, Ok(()), &mut worker, &mut hub);
        replay.ready(index, run.diagnostics, run.result.is_err());
    }
    let (out, fatal) = replay.finish(&mut hub);
    assert_eq!(out, vec![(9, 'a'), (9, 'b')]);
    assert!(!fatal);
}

#[test]
fn a_serial_item_collects_nothing() {
    let mut hub: Hub<char> = Hub::new();
    let created = hub.tick();
    let mut stack = ScopeStack::new();
    let replay = OrderedReplay::new(1, &mut stack, &mut hub);
    let opened = replay.begin_item(&mut stack, false);
    assert!(!opened && !stack.captures(created));
    let run = OrderedReplay::end_item(opened, Ok(7), &mut stack, &mut hub);
    assert_eq!(run.result, Ok(7));
    assert!(run.diagnostics.is_empty());
}

#[test]
fn a_fatal_item_ends_the_replay() {
    let mut hub: Hub<char> = Hub::new();
    let created = hub.tick();
    let mut stack = ScopeStack::new();
    let mut replay = OrderedReplay::new(3, &mut stack, &mut hub);
    for (index, kind) in [(0, 'a'), (1, 'b'), (2, 'c')] {
        let mut worker = ScopeStack::new();
        let opened = replay.begin_item(&mut worker, true);
        worker.capture(&mut hub, 1, created, kind);
        let result = if index == 1 { Err(FatalError) } else { Ok(kind) };
        let run = OrderedReplay::end_item(opened, result, &mut worker, &mut hub);
        replay.ready(index, run.diagnostics, run.result.is_err());
    }
    let (out, fatal) = replay.finish(&mut hub);
    assert_eq!(out, vec![(1, 'a'), (1, 'b')]);
    assert!(fatal);
}

#[test]
fn a_query_reports_where_it_is_first_used() {
    let mut hub: Hub<char> = Hub::new();
    let created = hub.tick();
    let mut stack = ScopeStack::new();
    let frame = QueryFrame::open(&mut stack, true);
    assert!(frame.is_none());
    let replay = OrderedReplay::new(1, &mut stack, &mut hub);
    let mut worker = ScopeStack::new();
    let opened = replay.begin_item(&mut worker, true);
    let frame = QueryFrame::open(&mut worker, true).unwrap();
    worker.capture(&mut hub, 3, created, 'q');
    let record = frame.close(&mut worker, &mut hub).unwrap();
    assert!(!hub.is_spent(record));
    assert_eq!(worker.consume_query_diagnostics(&mut hub, record), vec![]);
    let run = OrderedReplay::end_item(opened, Ok(()), &mut worker, &mut hub);
    let mut replay = replay;
    replay.ready(0, run.diagnostics, false);
    let (out, _) = replay.finish(&mut hub);
    assert_eq!(out, vec![(3, 'q')]);
    assert!(hub.is_spent(record));
    assert_eq!(stack.consume_query_diagnostics(&mut hub, record), vec![]);
}
