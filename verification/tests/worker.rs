use ring_promise::traits::{
    CompletionQueue, CompletionQueueEntry, FullRing, SubmissionQueue, SubmissionQueueEntry,
    Submitter,
};
use ring_promise::worker::Worker;
use ring_promise::Signal;
use std::collections::VecDeque;
use std::sync::{Arc, Mutex};

#[derive(Debug, Clone, PartialEq)]
struct Sqe {
    ud: u64,
    payload: u32,
}

impl SubmissionQueueEntry for Sqe {
    fn user_data(&self) -> u64 {
        self.ud
    }

    fn set_ud(&mut self, ud: u64) {
        self.ud = ud;
    }

    fn get_ud(&self) -> u64 {
        self.ud
    }
}

#[derive(Debug, Clone, PartialEq)]
struct Cqe {
    ud: u64,
    result: u32,
}

impl CompletionQueueEntry for Cqe {
    fn user_data(&self) -> u64 {
        self.ud
    }

    fn get_ud(&self) -> u64 {
        self.ud
    }
}

#[derive(Debug, Clone, PartialEq)]
enum Call {
    Accepted(Sqe),
    Refused(Sqe),
    Notified,
    Drained(Vec<Cqe>),
}

/// A ring in memory. It refuses the next `refusals` pushes. Each accepted
/// entry becomes a completion with the same identifier and the payload as its
/// result, ready at the next draining; `spurious` holds further batches that
/// are put in front of those, one batch per draining.
#[derive(Default)]
struct Device {
    calls: Vec<Call>,
    refusals: usize,
    echo: bool,
    ready: Vec<Cqe>,
    spurious: VecDeque<Vec<Cqe>>,
}

#[derive(Clone)]
struct Ring(Arc<Mutex<Device>>);

struct Submission(Arc<Mutex<Device>>);

struct Completions(std::vec::IntoIter<Cqe>);

impl Ring {
    fn new(refusals: usize, echo: bool) -> Ring {
        Ring(Arc::new(Mutex::new(Device { refusals, echo, ..Device::default() })))
    }

    fn calls(&self) -> Vec<Call> {
        self.0.lock().unwrap().calls.clone()
    }

    fn accepted(&self) -> Vec<Sqe> {
        let mut out = Vec::new();
        for call in self.calls() {
            if let Call::Accepted(entry) = call {
                out.push(entry);
            }
        }
        out
    }

    fn make_ready(&self, batch: Vec<Cqe>) {
        self.0.lock().unwrap().spurious.push_back(batch);
    }
}

impl SubmissionQueue<Sqe> for Submission {
    fn push(&mut self, entry: Sqe) -> Result<(), Sqe> {
        let mut device = self.0.lock().unwrap();
        if device.refusals > 0 {
            device.refusals -= 1;
            device.calls.push(Call::Refused(entry.clone()));
            Err(entry)
        } else {
            device.calls.push(Call::Accepted(entry.clone()));
            if device.echo {
                device.ready.push(Cqe { ud: entry.ud, result: entry.payload });
            }
            Ok(())
        }
    }
}

impl Iterator for Completions {
    type Item = Cqe;

    fn next(&mut self) -> Option<Cqe> {
        self.0.next()
    }
}

impl CompletionQueue<Cqe> for Completions {}

impl Submitter for Ring {
    fn submit(&mut self) {
        self.0.lock().unwrap().calls.push(Call::Notified);
    }
}

impl FullRing<Sqe, Cqe, Submission, Completions> for Ring {
    fn completion(&mut self) -> Completions {
        let mut device = self.0.lock().unwrap();
        let mut batch = device.spurious.pop_front().unwrap_or_default();
        batch.append(&mut device.ready);
        device.calls.push(Call::Drained(batch.clone()));
        Completions(batch.into_iter())
    }

    fn submission(&mut self) -> Submission {
        Submission(self.0.clone())
    }
}

type TestWorker = Worker<Sqe, Cqe, Submission, Completions, Ring>;

fn sqe(payload: u32) -> Sqe {
    Sqe { ud: 0xdead, payload }
}

#[test]
fn a_submission_resolves_to_the_completion_that_echoes_its_identifier() {
    let ring = Ring::new(0, true);
    let mut worker: TestWorker = Worker::new(ring.clone());
    let (tx, rx) = oneshot::channel();
    let back = worker.handle(Signal::Entry(sqe(41), tx), 0);
    assert_eq!(back, None);
    assert_eq!(ring.accepted(), vec![Sqe { ud: 0, payload: 41 }]);
    assert_eq!(rx.recv(), Ok(Cqe { ud: 0, result: 41 }));
}

#[test]
fn an_accepted_entry_is_followed_by_a_wakeup_and_then_a_draining() {
    let ring = Ring::new(0, true);
    let mut worker: TestWorker = Worker::new(ring.clone());
    let (tx, _rx) = oneshot::channel();
    assert_eq!(worker.submit(sqe(1), tx, 5), None);
    assert_eq!(
        ring.calls(),
        vec![
            Call::Accepted(Sqe { ud: 0, payload: 1 }),
            Call::Notified,
            Call::Drained(vec![Cqe { ud: 0, result: 1 }]),
        ]
    );
}

#[test]
fn a_full_ring_is_drained_and_woken_before_the_entry_is_offered_again() {
    let ring = Ring::new(2, true);
    let mut worker: TestWorker = Worker::new(ring.clone());
    let (tx, rx) = oneshot::channel();
    assert_eq!(worker.handle(Signal::Entry(sqe(9), tx), u64::MAX), None);
    let stamped = Sqe { ud: 0, payload: 9 };
    assert_eq!(
        ring.calls(),
        vec![
            Call::Refused(stamped.clone()),
            Call::Drained(vec![]),
            Call::Notified,
            Call::Refused(stamped.clone()),
            Call::Drained(vec![]),
            Call::Notified,
            Call::Accepted(stamped.clone()),
            Call::Notified,
            Call::Drained(vec![Cqe { ud: 0, result: 9 }]),
        ]
    );
    assert_eq!(ring.accepted(), vec![stamped]);
    assert_eq!(rx.recv(), Ok(Cqe { ud: 0, result: 9 }));
}

#[test]
fn a_push_refused_once_still_resolves_despite_an_unmatched_completion() {
    let ring = Ring::new(1, false);
    let mut worker: TestWorker = Worker::new(ring.clone());
    // the identifier the entry will get is 0; both completions are ready at the first draining
    ring.make_ready(vec![Cqe { ud: 500, result: 1 }, Cqe { ud: 0, result: 2 }]);
    let (tx, rx) = oneshot::channel();
    assert_eq!(worker.handle(Signal::Entry(sqe(3), tx), 1), None);
    assert_eq!(rx.recv(), Ok(Cqe { ud: 0, result: 2 }));
    assert_eq!(ring.accepted(), vec![Sqe { ud: 0, payload: 3 }]);
    assert_eq!(
        ring.calls(),
        vec![
            Call::Refused(Sqe { ud: 0, payload: 3 }),
            Call::Drained(vec![Cqe { ud: 500, result: 1 }, Cqe { ud: 0, result: 2 }]),
            Call::Notified,
            Call::Accepted(Sqe { ud: 0, payload: 3 }),
            Call::Notified,
            Call::Drained(vec![]),
        ]
    );
}

#[test]
fn an_entry_refused_too_often_is_handed_back_stamped_and_can_be_pushed_again() {
    let ring = Ring::new(3, true);
    let mut worker: TestWorker = Worker::new(ring.clone());
    let (tx, rx) = oneshot::channel();
    let back = worker.handle(Signal::Entry(sqe(8), tx), 1);
    let stamped = Sqe { ud: 0, payload: 8 };
    assert_eq!(back, Some(stamped.clone()));
    assert_eq!(
        ring.calls(),
        vec![
            Call::Refused(stamped.clone()),
            Call::Drained(vec![]),
            Call::Notified,
            Call::Refused(stamped.clone()),
            Call::Drained(vec![]),
            Call::Notified,
        ]
    );
    assert_eq!(rx.try_recv(), Err(oneshot::TryRecvError::Empty));
    // the channel still waits under identifier 0: the next identifier is 1
    assert_eq!(worker.registry().curr_ud(), 1);
    // one more refusal, then the ring takes it
    assert_eq!(worker.push(stamped.clone(), 0), Some(stamped.clone()));
    assert_eq!(worker.push(stamped.clone(), 0), None);
    assert_eq!(ring.accepted(), vec![stamped]);
    assert_eq!(rx.recv(), Ok(Cqe { ud: 0, result: 8 }));
}

#[test]
fn with_no_retries_one_refusal_hands_the_entry_back() {
    let ring = Ring::new(1, true);
    let mut worker: TestWorker = Worker::new(ring.clone());
    let entry = Sqe { ud: 77, payload: 1 };
    assert_eq!(worker.push(entry.clone(), 0), Some(entry.clone()));
    assert_eq!(
        ring.calls(),
        vec![Call::Refused(entry.clone()), Call::Drained(vec![]), Call::Notified]
    );
    // push does not stamp: the entry goes out with the identifier it carries
    assert_eq!(worker.push(entry.clone(), 0), None);
    assert_eq!(ring.accepted(), vec![entry]);
}

#[test]
fn after_an_accepted_offer_the_backend_is_woken_and_then_the_completions_are_drained() {
    let ring = Ring::new(0, false);
    let mut worker: TestWorker = Worker::new(ring.clone());
    let (tx, rx) = oneshot::channel();
    ring.make_ready(vec![Cqe { ud: 0, result: 4 }]);
    assert_eq!(worker.handle(Signal::Entry(sqe(4), tx), 0), None);
    ring.make_ready(vec![Cqe { ud: 9, result: 9 }]);
    assert_eq!(worker.settle(Ok(())), None);
    assert_eq!(
        ring.calls()[3..].to_vec(),
        vec![Call::Notified, Call::Drained(vec![Cqe { ud: 9, result: 9 }])]
    );
    assert_eq!(rx.recv(), Ok(Cqe { ud: 0, result: 4 }));
}

#[test]
fn after_a_refused_offer_the_completions_are_drained_and_then_the_backend_is_woken() {
    let ring = Ring::new(0, false);
    let mut worker: TestWorker = Worker::new(ring.clone());
    let entry = Sqe { ud: 3, payload: 30 };
    ring.make_ready(vec![Cqe { ud: 1, result: 1 }]);
    assert_eq!(worker.settle(Err(entry.clone())), Some(entry));
    assert_eq!(
        ring.calls(),
        vec![Call::Drained(vec![Cqe { ud: 1, result: 1 }]), Call::Notified]
    );
    // settling offers nothing itself
    assert_eq!(ring.accepted(), vec![]);
}

#[test]
fn settling_a_refusal_delivers_what_the_draining_brings() {
    let ring = Ring::new(0, false);
    let mut worker: TestWorker = Worker::new(ring.clone());
    let (tx, rx) = oneshot::channel();
    assert_eq!(worker.handle(Signal::Entry(sqe(6), tx), 0), None);
    ring.make_ready(vec![Cqe { ud: 0, result: 60 }]);
    let other = Sqe { ud: 8, payload: 80 };
    assert_eq!(worker.settle(Err(other.clone())), Some(other));
    assert_eq!(rx.recv(), Ok(Cqe { ud: 0, result: 60 }));
}

#[test]
fn reap_drains_without_submitting() {
    let ring = Ring::new(0, false);
    let mut worker: TestWorker = Worker::new(ring.clone());
    let (tx, rx) = oneshot::channel();
    assert_eq!(worker.handle(Signal::Entry(sqe(5), tx), 0), None);
    assert_eq!(rx.try_recv(), Err(oneshot::TryRecvError::Empty));
    ring.make_ready(vec![Cqe { ud: 0, result: 55 }]);
    assert_eq!(worker.handle(Signal::Reap, 0), None);
    assert_eq!(rx.recv(), Ok(Cqe { ud: 0, result: 55 }));
    assert_eq!(
        ring.calls(),
        vec![
            Call::Accepted(Sqe { ud: 0, payload: 5 }),
            Call::Notified,
            Call::Drained(vec![]),
            Call::Drained(vec![Cqe { ud: 0, result: 55 }]),
        ]
    );
    worker.reap();
    assert_eq!(ring.calls().len(), 5);
    assert_eq!(ring.calls()[4], Call::Drained(vec![]));
}

#[test]
fn submissions_in_flight_carry_different_identifiers() {
    let ring = Ring::new(0, false);
    let mut worker: TestWorker = Worker::new(ring.clone());
    let mut receivers = Vec::new();
    for payload in 0..5u32 {
        let (tx, rx) = oneshot::channel();
        assert_eq!(worker.handle(Signal::Entry(sqe(payload), tx), 0), None);
        receivers.push(rx);
    }
    let ids: Vec<u64> = ring.accepted().iter().map(|e| e.ud).collect();
    assert_eq!(ids, vec![0, 1, 2, 3, 4]);
    // completions come back in another order; each reaches its own submitter
    ring.make_ready(vec![
        Cqe { ud: 3, result: 30 },
        Cqe { ud: 0, result: 0 },
        Cqe { ud: 4, result: 40 },
        Cqe { ud: 1, result: 10 },
        Cqe { ud: 2, result: 20 },
    ]);
    worker.reap();
    for (i, rx) in receivers.into_iter().enumerate() {
        assert_eq!(rx.recv(), Ok(Cqe { ud: i as u64, result: 10 * i as u32 }));
    }
}

#[test]
fn a_stray_completion_does_not_disturb_what_waits() {
    let ring = Ring::new(0, false);
    let mut worker: TestWorker = Worker::new(ring.clone());
    let (tx, rx) = oneshot::channel();
    assert_eq!(worker.handle(Signal::Entry(sqe(1), tx), 0), None);
    ring.make_ready(vec![Cqe { ud: 1234, result: 0 }]);
    worker.reap();
    assert_eq!(rx.try_recv(), Err(oneshot::TryRecvError::Empty));
    ring.make_ready(vec![Cqe { ud: 0, result: 1 }, Cqe { ud: 0, result: 2 }]);
    worker.reap();
    assert_eq!(rx.recv(), Ok(Cqe { ud: 0, result: 1 }));
}

#[test]
fn a_dropped_result_handle_does_not_disturb_the_worker() {
    let ring = Ring::new(0, true);
    let mut worker: TestWorker = Worker::new(ring.clone());
    let (gone_tx, gone_rx) = oneshot::channel();
    drop(gone_rx);
    assert_eq!(worker.handle(Signal::Entry(sqe(1), gone_tx), 0), None);
    let (tx, rx) = oneshot::channel();
    assert_eq!(worker.handle(Signal::Entry(sqe(2), tx), 0), None);
    // identifier 0 was completed, although nobody listened, and is handed out again
    assert_eq!(ring.accepted(), vec![Sqe { ud: 0, payload: 1 }, Sqe { ud: 1, payload: 2 }]);
    assert_eq!(rx.recv(), Ok(Cqe { ud: 1, result: 2 }));
}

#[test]
fn a_worker_that_goes_away_breaks_the_results_it_still_owes() {
    let ring = Ring::new(0, false);
    let mut worker: TestWorker = Worker::new(ring.clone());
    let (tx, rx) = oneshot::channel();
    assert_eq!(worker.handle(Signal::Entry(sqe(1), tx), 0), None);
    drop(worker);
    assert_eq!(rx.recv(), Err(oneshot::RecvError));
}

#[test]
fn two_callers_submit_and_each_gets_its_own_completion() {
    let ring = Ring::new(0, false);
    let (signals, inbox) = std::sync::mpsc::channel::<Signal<Sqe, oneshot::Sender<Cqe>>>();
    // two handles on the same channel, as two caller threads would hold them
    let first_caller = signals.clone();
    let second_caller = signals.clone();
    let (tx_c, rx_c) = oneshot::channel();
    let (tx_d, rx_d) = oneshot::channel();
    second_caller.send(Signal::Entry(sqe(200), tx_d)).unwrap();
    first_caller.send(Signal::Entry(sqe(100), tx_c)).unwrap();
    signals.send(Signal::Reap).unwrap();
    // the ring completes the later submission first
    ring.make_ready(vec![]);
    ring.make_ready(vec![]);
    ring.make_ready(vec![Cqe { ud: 1, result: 1 }, Cqe { ud: 0, result: 0 }]);
    // once every handle is gone the loop over the channel ends by itself
    drop(first_caller);
    drop(second_caller);
    drop(signals);
    let mut worker: TestWorker = Worker::new(ring.clone());
    let mut handled = 0u32;
    for signal in inbox {
        let mut waiting = worker.handle(signal, u64::MAX);
        while let Some(entry) = waiting {
            waiting = worker.push(entry, u64::MAX);
        }
        handled += 1;
    }
    assert_eq!(handled, 3);
    // signals are handled in the order in which they were sent
    assert_eq!(ring.accepted(), vec![Sqe { ud: 0, payload: 200 }, Sqe { ud: 1, payload: 100 }]);
    assert_eq!(rx_d.recv(), Ok(Cqe { ud: 0, result: 0 }));
    assert_eq!(rx_c.recv(), Ok(Cqe { ud: 1, result: 1 }));
}
