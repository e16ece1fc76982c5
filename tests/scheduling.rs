use corustine::channel::{Channel, Cheue};
use corustine::task::{CoTasking, Coroutine, Directory, Pause, RunError};
use std::cell::RefCell;
use std::rc::Rc;

const PRODUCER: u64 = 1;
const CONSUMER: u64 = 2;

enum Fib {
    Producer { ch: Rc<RefCell<Cheue<u64>>>, m: u64, n: u64 },
    Consumer { ch: Rc<RefCell<Cheue<u64>>>, seq: Vec<u64>, lim: usize },
}

impl Coroutine<u64, Vec<u64>> for Fib {
    fn initialize(&mut self, _names: &Directory<u64>) {}

    fn resume(&mut self, _msg: Vec<u64>) -> Pause<u64, Vec<u64>> {
        match self {
            Fib::Producer { ch, m, n } => {
                ch.borrow_mut().send(*m);
                let tmp = *n;
                *n = *m;
                *m += tmp;
                Pause::Yield(CONSUMER, Vec::new())
            }
            Fib::Consumer { ch, seq, lim } => {
                if seq.len() >= *lim {
                    Pause::Done(seq.clone())
                } else {
                    seq.push(ch.borrow_mut().recv().unwrap());
                    Pause::Yield(PRODUCER, Vec::new())
                }
            }
        }
    }
}

fn fibonacci_tasks() -> CoTasking<u64, Fib> {
    let ch = Rc::new(RefCell::new(Cheue::new()));
    let producer = Fib::Producer { ch: ch.clone(), m: 1, n: 0 };
    let consumer = Fib::Consumer { ch, seq: Vec::new(), lim: 10 };
    CoTasking::new().task(CONSUMER, consumer).task(PRODUCER, producer)
}

#[test]
fn fibonacci_hand_off() {
    let result = fibonacci_tasks().run(PRODUCER, Vec::new());
    assert_eq!(result, Ok(vec![1, 1, 2, 3, 5, 8, 13, 21, 34, 55]));
}

#[test]
fn fibonacci_runs_are_identical() {
    let a = fibonacci_tasks().run(PRODUCER, Vec::new());
    let b = fibonacci_tasks().run(PRODUCER, Vec::new());
    assert_eq!(a, b);
}

/// A coroutine that records every call it receives.
struct Recorder {
    tag: u64,
    log: Rc<RefCell<Vec<(u64, &'static str, u64)>>>,
    then: Option<u64>,
}

impl Coroutine<u64, u64> for Recorder {
    fn initialize(&mut self, names: &Directory<u64>) {
        self.log.borrow_mut().push((self.tag, "init", names.len() as u64));
    }

    fn resume(&mut self, msg: u64) -> Pause<u64, u64> {
        self.log.borrow_mut().push((self.tag, "resume", msg));
        match self.then {
            Some(next) => Pause::Yield(next, msg + 1),
            None => Pause::Done(self.tag * 100 + msg),
        }
    }
}

fn recorder(tag: u64, log: &Rc<RefCell<Vec<(u64, &'static str, u64)>>>, then: Option<u64>) -> Recorder {
    Recorder { tag, log: log.clone(), then }
}

#[test]
fn unknown_start_runs_nothing() {
    let log = Rc::new(RefCell::new(Vec::new()));
    let tasks = CoTasking::<u64, Recorder>::new().task(1, recorder(1, &log, None)).task(2, recorder(2, &log, None));
    let result = tasks.run(9, 0);
    assert_eq!(result, Err(RunError::UnknownTask(9)));
    assert!(log.borrow().is_empty());
}

#[test]
fn unknown_hand_off_target_fails() {
    let log = Rc::new(RefCell::new(Vec::new()));
    let tasks = CoTasking::<u64, Recorder>::new().task(1, recorder(1, &log, Some(7)));
    assert_eq!(tasks.run(1, 5), Err(RunError::UnknownTask(7)));
    assert_eq!(*log.borrow(), vec![(1, "init", 1), (1, "resume", 5)]);
}

#[test]
fn overwrite_uses_latest_coroutine() {
    let log = Rc::new(RefCell::new(Vec::new()));
    let a: u64 = 65;
    let tasks = CoTasking::<u64, Recorder>::new()
        .task(a, recorder(10, &log, None))
        .task(1, recorder(1, &log, Some(a)))
        .task(a, recorder(20, &log, None));
    assert_eq!(tasks.len(), 2);
    let result = tasks.run(1, 3);
    assert_eq!(result, Ok(2004));
    assert!(log.borrow().iter().all(|entry| entry.0 != 10));
}

#[test]
fn every_task_is_set_up_once_in_name_order() {
    let log = Rc::new(RefCell::new(Vec::new()));
    let tasks = CoTasking::<u64, Recorder>::new()
        .task(3, recorder(3, &log, None))
        .task(1, recorder(1, &log, Some(3)))
        .task(2, recorder(2, &log, None));
    assert_eq!(tasks.run(1, 0), Ok(301));
    assert_eq!(
        *log.borrow(),
        vec![(1, "init", 3), (2, "init", 3), (3, "init", 3), (1, "resume", 0), (3, "resume", 1)]
    );
}

#[test]
fn lookup_and_id_for_follow_name_order() {
    let log = Rc::new(RefCell::new(Vec::new()));
    let tasks = CoTasking::<u64, Recorder>::new()
        .task(30, recorder(3, &log, None))
        .task(10, recorder(1, &log, None))
        .task(20, recorder(2, &log, None))
        .task(10, recorder(4, &log, None));
    assert_eq!(tasks.len(), 3);
    assert_eq!(tasks.id_for(&10), Some(0));
    assert_eq!(tasks.id_for(&20), Some(1));
    assert_eq!(tasks.id_for(&30), Some(2));
    assert_eq!(tasks.id_for(&15), None);
    assert_eq!(tasks.lookup(&10).map(|c| c.tag), Some(4));
    assert_eq!(tasks.lookup(&30).map(|c| c.tag), Some(3));
    assert!(tasks.lookup(&40).is_none());
}

#[test]
fn empty_builder_has_no_tasks() {
    let tasks: CoTasking<u64, Recorder> = CoTasking::new();
    assert_eq!(tasks.len(), 0);
    assert_eq!(tasks.id_for(&1), None);
    assert_eq!(tasks.run(1, 0), Err(RunError::UnknownTask(1)));
}

#[test]
fn runs_resume_the_same_tasks_in_the_same_order() {
    let build = |log: &Rc<RefCell<Vec<(u64, &'static str, u64)>>>| {
        CoTasking::<u64, Recorder>::new()
            .task(5, recorder(5, log, Some(2)))
            .task(2, recorder(2, log, Some(8)))
            .task(8, recorder(8, log, None))
    };
    let first = Rc::new(RefCell::new(Vec::new()));
    let second = Rc::new(RefCell::new(Vec::new()));
    let a = build(&first).run(5, 10);
    let b = build(&second).run(5, 10);
    assert_eq!(a, Ok(812));
    assert_eq!(a, b);
    assert_eq!(*first.borrow(), *second.borrow());
}

/// A coroutine that looks its peer up while it is set up.
struct Resolver {
    peer: u64,
    found: Option<usize>,
}

impl Coroutine<u64, u64> for Resolver {
    fn initialize(&mut self, names: &Directory<u64>) {
        self.found = names.id_for(&self.peer);
    }

    fn resume(&mut self, msg: u64) -> Pause<u64, u64> {
        match self.found {
            Some(i) if msg == 0 => Pause::Yield(self.peer, i as u64 + 1),
            _ => Pause::Done(msg),
        }
    }
}

#[test]
fn peers_are_resolved_during_setup() {
    let tasks = CoTasking::<u64, Resolver>::new()
        .task(7, Resolver { peer: 3, found: None })
        .task(3, Resolver { peer: 99, found: None });
    assert_eq!(tasks.run(7, 0), Ok(1));
}
