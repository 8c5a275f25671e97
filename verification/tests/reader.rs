//! The reader's machines against a kernel played by the test.

use std::collections::{BTreeMap, VecDeque};

use tributary_fs::attribution::{
    AttributedBatch, RawLinuxEvent, SourceMessage, attribute_and_forward, attribute_events,
    forward_attributed,
};
use tributary_fs::error::{
    EACCES, EAGAIN, EBADF, EEXIST, EINTR, EINVAL, EMFILE, ENOENT, ENOSPC, ENOTDIR, EPERM, Errno,
    IoError, SourceError,
};
use tributary_fs::fanotify::event::{AdmittedEvent, FanMask};
use tributary_fs::inotify::arm::{
    ArmState, Arming, ExpectedObject, disarm, erase_dead_on_invalid, errno_to_watch_error,
    object_matches,
};
use tributary_fs::inotify::batch::{Batch, ControlOp};
use tributary_fs::inotify::cut::{
    Cut, MAX_CREDIBLE_QUEUE_BYTES, MAX_CUT_FALLBACK_READS, MAX_CUT_INTERRUPTED_READS,
    MAX_CUT_OWED_READS,
};
use tributary_fs::inotify::decode::{
    DecodeOutcome, IN_ATTRIB, IN_CREATE, IN_DELETE_SELF, IN_IGNORED, IN_ISDIR, IN_MASK_CREATE,
    IN_MOVED_FROM, IN_Q_OVERFLOW, IN_UNMOUNT, InotifyMask, RawInotifyEvent, WATCH_MASK,
    decode_events, native_order,
};
use tributary_fs::inotify::instance::{
    Instance, REBUILD_MARGIN, REBUILD_THRESHOLD, create_error,
    override_rebuild_threshold_for_tests, rebuild_threshold,
};
use tributary_fs::inotify::port::{BatchReply, arm_count, dead_batch};
use tributary_fs::inotify::protocol::{Answer, Ask};
use tributary_fs::inotify::reader::{
    Control, DrainExit, Place, Reader, ReaderAnswer, ReaderAsk, ReaderState,
};
use tributary_fs::inotify::renewal::{MAX_SWAP_DRAIN_READS, Renewal};
use tributary_fs::inotify::table::{DrainDecision, WdTable};
use tributary_fs::lane::Lane;
use tributary_fs::watch::{WatchError, WatchId, WatchOutcome};

const MISSING: &str = "/tributary-fs-nonexistent-arm-target";

fn watch(n: u64) -> WatchId {
    WatchId::new(n)
}

fn event(wd: i32, mask: u32, name: Option<&[u8]>) -> RawInotifyEvent {
    RawInotifyEvent {
        wd,
        mask: InotifyMask(mask),
        cookie: 0,
        name: name.map(<[u8]>::to_vec),
    }
}

fn record(wd: i32, mask: u32, name: Option<&[u8]>) -> Vec<u8> {
    let mut tail = Vec::new();
    if let Some(name) = name {
        tail.extend_from_slice(name);
        tail.push(0);
        while tail.len() % 16 != 0 {
            tail.push(0);
        }
    }
    let mut out = Vec::new();
    out.extend_from_slice(&wd.to_ne_bytes());
    out.extend_from_slice(&mask.to_ne_bytes());
    out.extend_from_slice(&0u32.to_ne_bytes());
    out.extend_from_slice(&(tail.len() as u32).to_ne_bytes());
    out.extend_from_slice(&tail);
    out
}

fn instance(threshold: i32) -> Instance {
    Instance::with_threshold(threshold, native_order())
}

/// One kernel: objects at paths, watches on objects, and a queue.
#[derive(Default)]
struct Kernel {
    objects: BTreeMap<String, u64>,
    next_object: u64,
    last_wd: i32,
    watches: BTreeMap<i32, u64>,
    queue: Vec<u8>,
    opened: Option<u64>,
    injected_adds: VecDeque<Result<i32, Errno>>,
    create_error: Option<SourceError>,
    instances: u32,
    reads: u32,
    /// Reads that come ahead of the queue's own.
    scripted_reads: VecDeque<Result<Vec<u8>, Errno>>,
    /// What every read gives once the script is used up, instead of the queue.
    endless: Option<Result<Vec<u8>, Errno>>,
    queued: Option<Result<u64, Errno>>,
}

impl Kernel {
    fn new() -> Kernel {
        Kernel::default()
    }

    fn mkdir(&mut self, path: &str) -> u64 {
        self.next_object += 1;
        self.objects.insert(path.to_string(), self.next_object);
        self.next_object
    }

    /// Frees the path; the object lives on, held open by somebody.
    fn unlink(&mut self, path: &str) {
        self.objects.remove(path);
    }

    /// Frees the path and destroys the object, its watch with it.
    fn destroy(&mut self, path: &str) {
        let object = self.objects.remove(path).expect("an object is there");
        let wd = self.watches.iter().find(|(_, o)| **o == object).map(|(wd, _)| *wd);
        if let Some(wd) = wd {
            self.watches.remove(&wd);
            self.queue.extend(record(wd, IN_DELETE_SELF | IN_ISDIR, None));
            self.queue.extend(record(wd, IN_IGNORED, None));
        }
    }

    fn write(&mut self, path: &str, name: &[u8]) {
        let object = self.objects[path];
        for (wd, watched) in &self.watches {
            if *watched == object {
                self.queue.extend(record(*wd, IN_CREATE, Some(name)));
            }
        }
    }

    fn add(&mut self, mask: u32) -> Result<i32, Errno> {
        if let Some(scripted) = self.injected_adds.pop_front() {
            return scripted;
        }
        let object = self.opened.expect("the target was opened");
        if let Some((wd, _)) = self.watches.iter().find(|(_, o)| **o == object) {
            return if mask & IN_MASK_CREATE != 0 { Err(EEXIST) } else { Ok(*wd) };
        }
        self.last_wd += 1;
        self.watches.insert(self.last_wd, object);
        Ok(self.last_wd)
    }

    fn remove(&mut self, wd: i32) -> Result<(), Errno> {
        if self.watches.remove(&wd).is_none() {
            return Err(EINVAL);
        }
        self.queue.extend(record(wd, IN_IGNORED, None));
        Ok(())
    }

    fn read(&mut self) -> Result<Vec<u8>, Errno> {
        self.reads += 1;
        if let Some(scripted) = self.scripted_reads.pop_front() {
            return scripted;
        }
        if let Some(endless) = &self.endless {
            return endless.clone();
        }
        if self.queue.is_empty() {
            return Err(EAGAIN);
        }
        Ok(std::mem::take(&mut self.queue))
    }

    fn create(&mut self) -> Result<(), SourceError> {
        match self.create_error {
            Some(error) => Err(error),
            None => Ok(()),
        }
    }

    fn replace(&mut self) {
        self.instances += 1;
        self.last_wd = 0;
        self.watches.clear();
        self.queue.clear();
        self.scripted_reads.clear();
        self.endless = None;
    }

    /// Does what is asked and hands the answer on.
    fn serve<R>(
        &mut self,
        ask: Ask,
        target: &str,
        shutdown: &mut dyn FnMut() -> bool,
        take: impl FnOnce(Answer) -> R,
    ) -> R {
        match ask {
            Ask::Open => {
                self.opened = self.objects.get(target).copied();
                take(Answer::Opened(match self.opened {
                    Some(_) => Ok(()),
                    None => Err(ENOENT),
                }))
            }
            Ask::Stat => take(Answer::Stat(Ok((1, self.opened.expect("opened"))))),
            Ask::Add(mask) => take(Answer::Added(self.add(mask))),
            Ask::Remove(wd) => take(Answer::Removed(self.remove(wd))),
            Ask::Create => take(Answer::Created(self.create())),
            Ask::Read => {
                let read = self.read();
                take(Answer::Read(match &read {
                    Ok(bytes) => Ok(bytes.as_slice()),
                    Err(e) => Err(*e),
                }))
            }
            Ask::Replace => {
                self.replace();
                take(Answer::Replaced)
            }
            Ask::Queued => take(Answer::Queued(
                self.queued.unwrap_or(Ok(self.queue.len() as u64)),
            )),
            Ask::Shutdown => take(Answer::Shutdown(shutdown())),
            Ask::Nothing => panic!("nothing was asked"),
        }
    }
}

#[derive(Debug, PartialEq, Eq)]
enum Sent {
    Batch(usize),
    Overflow,
    Fatal(SourceError),
}

fn kinds(messages: &[SourceMessage]) -> Vec<Sent> {
    messages
        .iter()
        .map(|m| match m {
            SourceMessage::Batch(events) => Sent::Batch(events.len()),
            SourceMessage::Overflow => Sent::Overflow,
            SourceMessage::Fatal(e) => Sent::Fatal(*e),
        })
        .collect()
}

fn arm_op(n: u64) -> ControlOp {
    ControlOp::Arm { watch: watch(n), expected: None }
}

/// Arms one watch to its end.
fn arm(inst: &mut Instance, kernel: &mut Kernel, n: u64, target: &str) -> WatchOutcome {
    arm_expecting(inst, kernel, n, target, None)
}

fn arm_expecting(
    inst: &mut Instance,
    kernel: &mut Kernel,
    n: u64,
    target: &str,
    expected: Option<ExpectedObject>,
) -> WatchOutcome {
    let mut arming = Arming::new(watch(n), expected);
    loop {
        if let ArmState::Done(outcome) = arming.state {
            return outcome;
        }
        let ask = arming.ask();
        kernel.serve(ask, target, &mut || false, |answer| arming.step(inst, answer));
    }
}

fn disarm_now(inst: &mut Instance, kernel: &mut Kernel, n: u64) {
    if let DrainDecision::RemoveWd(wd) = disarm(inst, watch(n)) {
        let removed = kernel.remove(wd);
        erase_dead_on_invalid(inst, wd, removed);
    }
}

/// Carries a batch out to its end.
fn execute_batch(
    inst: &mut Instance,
    kernel: &mut Kernel,
    ops: &[(ControlOp, &str)],
    mut shutdown: impl FnMut() -> bool,
) -> (Vec<WatchOutcome>, bool, Vec<SourceMessage>) {
    let mut batch = Batch::new(ops.iter().map(|(op, _)| *op).collect());
    let mut lane = Lane::new(1024);
    let mut sent = Vec::new();
    loop {
        if let Some(preempted) = batch.ended() {
            return (batch.replies().to_vec(), preempted, sent);
        }
        let target = match batch.taken() {
            0 => "",
            n => ops[n - 1].1,
        };
        let ask = batch.ask();
        let message = kernel.serve(ask, target, &mut shutdown, |answer| {
            batch.step(inst, &mut lane, answer)
        });
        sent.extend(message);
    }
}

/// Cuts the queue to its end, and says whether the reader stops.
fn cut(
    inst: &mut Instance,
    kernel: &mut Kernel,
    shutdown: impl FnMut() -> bool,
) -> (bool, Vec<SourceMessage>) {
    let (stop, sent, _) = cut_counting(inst, kernel, shutdown);
    (stop, sent)
}

/// As `cut`, with the count of the reads that the cut itself made. What the
/// test injects is for those reads alone.
fn cut_counting(
    inst: &mut Instance,
    kernel: &mut Kernel,
    mut shutdown: impl FnMut() -> bool,
) -> (bool, Vec<SourceMessage>, u32) {
    let mut cut = Cut::Queued;
    let mut lane = Lane::new(1024);
    let mut sent = Vec::new();
    let mut reads = 0;
    loop {
        if let Cut::Done { stop } = cut {
            return (stop, sent, reads);
        }
        if let Cut::Read(_) = cut {
            reads += 1;
        }
        if let Cut::Retire(_) = cut {
            kernel.endless = None;
        }
        let ask = cut.ask();
        let message =
            kernel.serve(ask, "", &mut shutdown, |answer| cut.step(inst, &mut lane, answer));
        sent.extend(message);
    }
}

/// What the reader did until it parked or stopped.
struct Drained {
    exit: Option<DrainExit>,
    replies: Vec<Vec<WatchOutcome>>,
    /// How many messages had been sent when each batch was answered.
    sent_before_reply: Vec<usize>,
    sent: Vec<SourceMessage>,
}

type Request<'a> = Option<Vec<(ControlOp, &'a str)>>;

/// Serves control ahead of reads until the reader parks or stops; `None` in
/// `control` is a request to stop.
fn drain_events(
    inst: &mut Instance,
    kernel: &mut Kernel,
    control: &mut VecDeque<Request>,
    mut shutdown: impl FnMut() -> bool,
) -> Drained {
    let mut reader = Reader::at(Place::Between);
    let mut lane = Lane::new(1024);
    let mut out = Drained {
        exit: None,
        replies: Vec::new(),
        sent_before_reply: Vec::new(),
        sent: Vec::new(),
    };
    let mut targets: Vec<String> = Vec::new();
    loop {
        match reader.state() {
            ReaderState::Park => return out,
            ReaderState::Exit(exit) => {
                out.exit = Some(exit);
                return out;
            }
            _ => {}
        }
        let message = match reader.ask() {
            ReaderAsk::Receive => {
                let request = match control.pop_front() {
                    Some(Some(ops)) => {
                        targets = ops.iter().map(|(_, t)| t.to_string()).collect();
                        Some(Control::Batch(ops.iter().map(|(op, _)| *op).collect()))
                    }
                    Some(None) => Some(Control::Shutdown),
                    None => None,
                };
                reader.step(inst, &mut lane, ReaderAnswer::Received(request))
            }
            ReaderAsk::Reply => {
                out.replies.push(reader.replies().to_vec());
                out.sent_before_reply.push(out.sent.len());
                reader.step(inst, &mut lane, ReaderAnswer::Replied)
            }
            ReaderAsk::Do(ask) => {
                let target = match reader.taken() {
                    0 => String::new(),
                    n => targets[n - 1].clone(),
                };
                kernel.serve(ask, &target, &mut shutdown, |answer| {
                    reader.step(inst, &mut lane, ReaderAnswer::Did(answer))
                })
            }
            other => panic!("not asked between reads: {other:?}"),
        };
        out.sent.extend(message);
    }
}

fn forward_capture(attributed: AttributedBatch, decode_lossy: bool) -> Vec<Sent> {
    let sent: Vec<SourceMessage> =
        forward_attributed(&mut Lane::new(8), attributed, decode_lossy).into_iter().collect();
    kinds(&sent)
}

fn run(records: Vec<RawInotifyEvent>, decode_lossy: bool) -> Vec<Sent> {
    let mut table = WdTable::new();
    table.register(3, watch(1));
    let attributed = attribute_events(records, &mut table);
    forward_capture(attributed, decode_lossy)
}

fn attribute_forward_capture(table: &mut WdTable, decoded: DecodeOutcome) -> Vec<Sent> {
    let sent: Vec<SourceMessage> =
        attribute_and_forward(&mut Lane::new(8), table, decoded).into_iter().collect();
    kinds(&sent)
}

#[test]
fn overflow_then_record_forwards_only_the_overflow() {
    let sent = run(
        vec![event(-1, IN_Q_OVERFLOW, None), event(3, IN_MOVED_FROM, Some(b"x"))],
        false,
    );
    assert_eq!(
        sent,
        vec![Sent::Overflow],
        "the barrier: the post-sentinel record is dropped, no Batch precedes the Overflow"
    );
}

#[test]
fn decode_loss_forwards_only_the_overflow() {
    let sent = run(vec![event(3, IN_CREATE, Some(b"x"))], true);
    assert_eq!(sent, vec![Sent::Overflow], "a decode loss drops the batch too");
}

#[test]
fn clean_buffer_forwards_the_batch() {
    let sent = run(
        vec![event(3, IN_CREATE, Some(b"a")), event(3, IN_CREATE, Some(b"b"))],
        false,
    );
    assert_eq!(sent, vec![Sent::Batch(2)], "both records ride one Batch, no Overflow");
}

#[test]
fn a_post_overflow_stale_marker_erases_only_the_stale_mapping() {
    let mut table = WdTable::new();
    table.register(3, watch(1));
    table.register(4, watch(2));

    let over = attribute_events(vec![event(-1, IN_Q_OVERFLOW, None)], &mut table);
    assert!(over.lost);
    assert_eq!(forward_capture(over, false), vec![Sent::Overflow]);

    let ignored = attribute_events(vec![event(3, IN_IGNORED, None)], &mut table);
    assert_eq!(
        forward_capture(ignored, false),
        vec![Sent::Batch(1)],
        "the stale mapping's teardown is forwarded to its own anchor"
    );
    assert!(!table.contains(3), "the stale mapping is gone");

    assert_eq!(table.wd_of(watch(2)), Some(4));
    let live = attribute_events(vec![event(4, IN_CREATE, Some(b"real"))], &mut table);
    assert_eq!(
        forward_capture(live, false),
        vec![Sent::Batch(1)],
        "the replacement binding was never erased by the stale marker"
    );
}

#[test]
fn a_decode_loss_reaps_a_stranded_tombstone() {
    let mut table = WdTable::new();
    table.register(3, watch(1));
    assert_eq!(table.begin_drain(watch(1)), DrainDecision::RemoveWd(3));
    assert!(table.contains(3), "the tombstone awaits its marker");

    let decoded = DecodeOutcome {
        events: vec![event(7, IN_CREATE, Some(b"x"))],
        lossy: true,
    };
    assert_eq!(
        attribute_forward_capture(&mut table, decoded),
        vec![Sent::Overflow],
        "the lossy buffer forwards only the covering Overflow"
    );
    assert!(!table.contains(3), "the decode loss reaped the tombstone");

    let straggler = attribute_events(vec![event(3, IN_IGNORED, None)], &mut table);
    assert!(straggler.events.is_empty() && !straggler.lost);
    assert!(!table.contains(3));
}

#[test]
fn a_clean_buffer_leaves_a_tombstone_for_its_own_marker() {
    let mut table = WdTable::new();
    table.register(3, watch(1));
    assert_eq!(table.begin_drain(watch(1)), DrainDecision::RemoveWd(3));

    let decoded = DecodeOutcome {
        events: vec![event(3, IN_CREATE, Some(b"late"))],
        lossy: false,
    };
    assert_eq!(
        attribute_forward_capture(&mut table, decoded),
        Vec::<Sent>::new(),
        "a record on the draining wd is skipped without loss"
    );
    assert!(table.contains(3), "no loss, no reap");

    let ignored = attribute_events(vec![event(3, IN_IGNORED, None)], &mut table);
    assert!(ignored.events.is_empty());
    assert!(!table.contains(3));
}

#[test]
fn pending_shutdown_stops_the_drain_before_eagain() {
    let mut inst = instance(i32::MAX);
    let mut kernel = Kernel::new();
    kernel.endless = Some(Ok(vec![0; 64]));
    let mut control: VecDeque<Request> = VecDeque::from([None]);
    let drained = drain_events(&mut inst, &mut kernel, &mut control, || false);
    assert_eq!(drained.exit, Some(DrainExit::Shutdown));
    assert_eq!(kernel.reads, 0);
}

#[test]
fn shutdown_arriving_mid_drain_is_observed_promptly() {
    let mut inst = instance(i32::MAX);
    let mut kernel = Kernel::new();
    kernel.endless = Some(Ok(vec![0; 64]));
    let mut reader = Reader::at(Place::Between);
    let mut lane = Lane::new(8);
    let mut looks = 0;
    loop {
        let message = match reader.ask() {
            ReaderAsk::Receive => {
                looks += 1;
                let request = if looks > 100 { Some(Control::Shutdown) } else { None };
                reader.step(&mut inst, &mut lane, ReaderAnswer::Received(request))
            }
            ReaderAsk::Do(ask) => kernel.serve(ask, "", &mut || false, |answer| {
                reader.step(&mut inst, &mut lane, ReaderAnswer::Did(answer))
            }),
            ReaderAsk::Exit => break,
            other => panic!("not asked between reads: {other:?}"),
        };
        assert!(message.is_none());
    }
    assert_eq!(reader.state(), ReaderState::Exit(DrainExit::Shutdown));
    assert_eq!(kernel.reads, 100);
}

#[test]
fn arm_batch_is_serviced_mid_drain() {
    let mut inst = instance(i32::MAX);
    let mut kernel = Kernel::new();
    kernel.endless = Some(Ok(vec![0; 64]));
    kernel.queued = Some(Ok(64));
    let mut control: VecDeque<Request> = VecDeque::from([Some(vec![(arm_op(1), MISSING)])]);
    let drained = drain_events(&mut inst, &mut kernel, &mut control, || false);
    assert_eq!(
        drained.replies,
        vec![vec![WatchOutcome::Failed(WatchError::NotFound)]],
        "one arm yields one reply, serviced inline"
    );
    assert_eq!(
        drained.exit, None,
        "the unprovable cut swapped the never-EAGAIN fd out, so the drain reaches EAGAIN"
    );
    assert_eq!(kinds(&drained.sent), vec![Sent::Overflow]);
    assert_eq!(drained.sent_before_reply, vec![1]);
    assert_eq!(kernel.instances, 1);
}

#[test]
fn queued_batch_is_preempted_by_pending_shutdown() {
    let mut inst = instance(i32::MAX);
    let mut kernel = Kernel::new();
    kernel.endless = Some(Ok(vec![0; 64]));
    let ops: Vec<(ControlOp, &str)> = (0..64).map(|i| (arm_op(i + 1), MISSING)).collect();
    let mut control: VecDeque<Request> = VecDeque::from([Some(ops), None]);
    let drained = drain_events(&mut inst, &mut kernel, &mut control, || true);
    assert_eq!(drained.replies.len(), 1);
    assert_eq!(drained.replies[0].len(), 64, "every arm gets a reply, index-aligned");
    assert!(
        drained.replies[0]
            .iter()
            .all(|r| matches!(r, WatchOutcome::Failed(WatchError::Io))),
        "a preempted batch fails every arm with Io — proving none of the 64 arms ran"
    );
    assert_eq!(drained.exit, Some(DrainExit::Shutdown));
}

#[test]
fn a_readd_of_a_live_binding_aliases_and_dedups() {
    let mut inst = instance(i32::MAX);
    let mut kernel = Kernel::new();
    kernel.mkdir("/alive");
    let WatchOutcome::Installed(wd) = arm(&mut inst, &mut kernel, 1, "/alive") else {
        panic!("the first arm installs");
    };
    let readd = arm(&mut inst, &mut kernel, 1, "/alive");
    assert!(
        matches!(readd, WatchOutcome::Aliased(w) if w == wd),
        "the live binding aliases on its own wd: {readd:?}"
    );
    assert_eq!(inst.table.attribute(wd).to_vec(), vec![watch(1)], "no duplicate anchor");
    assert_eq!(inst.table.wd_of(watch(1)), Some(wd));
}

#[test]
fn a_readd_of_a_dead_binding_installs_and_drains_the_old() {
    let mut inst = instance(i32::MAX);
    let mut kernel = Kernel::new();
    kernel.mkdir("/dead");
    let WatchOutcome::Installed(old_wd) = arm(&mut inst, &mut kernel, 1, "/dead") else {
        panic!("the first arm installs");
    };
    kernel.unlink("/dead");
    kernel.mkdir("/dead");
    let WatchOutcome::Installed(new_wd) = arm(&mut inst, &mut kernel, 1, "/dead") else {
        panic!("the dead binding re-installs");
    };
    assert_ne!(new_wd, old_wd, "a fresh kernel watch, not the dead one");
    assert!(new_wd > old_wd);
    assert_eq!(
        inst.table.wd_of(watch(1)),
        Some(new_wd),
        "the anchor rebinds to the fresh watch"
    );
    assert_eq!(inst.table.attribute(new_wd).to_vec(), vec![watch(1)]);
    assert!(
        inst.table.attribute(old_wd).is_empty(),
        "the dead binding attributes to nobody"
    );
    assert!(
        inst.table.contains(old_wd),
        "the tombstone occupies the wd until its owed marker"
    );
}

#[test]
fn a_disarm_of_a_dead_watch_leaves_no_tombstone() {
    let mut inst = instance(i32::MAX);
    let mut kernel = Kernel::new();
    kernel.mkdir("/d");
    let WatchOutcome::Installed(wd) = arm(&mut inst, &mut kernel, 1, "/d") else {
        panic!("the arm installs");
    };
    kernel.destroy("/d");
    disarm_now(&mut inst, &mut kernel, 1);
    assert!(
        !inst.table.contains(wd),
        "the disarm of an already-dead watch strands no tombstone"
    );
    assert!(inst.table.wd_of(watch(1)).is_none(), "the anchor keeps no binding");
    assert!(
        inst.table.on_ignored(wd).is_empty(),
        "a straggling marker no-ops on the freed wd"
    );
}

#[test]
fn a_readd_past_a_dead_watch_strands_no_tombstone() {
    let mut inst = instance(i32::MAX);
    let mut kernel = Kernel::new();
    kernel.mkdir("/d");
    let WatchOutcome::Installed(old_wd) = arm(&mut inst, &mut kernel, 1, "/d") else {
        panic!("the first arm installs");
    };
    kernel.destroy("/d");
    kernel.mkdir("/d");
    let WatchOutcome::Installed(new_wd) = arm(&mut inst, &mut kernel, 1, "/d") else {
        panic!("the dead binding re-installs");
    };
    assert_ne!(new_wd, old_wd, "a fresh kernel watch, not the dead one");
    assert!(
        !inst.table.contains(old_wd),
        "the superseded binding's dead watch leaves no tombstone behind"
    );
    assert_eq!(
        inst.table.wd_of(watch(1)),
        Some(new_wd),
        "the anchor rebinds to the fresh watch"
    );
}

#[test]
fn a_disarm_of_a_live_watch_keeps_its_tombstone() {
    let mut inst = instance(i32::MAX);
    let mut kernel = Kernel::new();
    kernel.mkdir("/d");
    let WatchOutcome::Installed(wd) = arm(&mut inst, &mut kernel, 1, "/d") else {
        panic!("the arm installs");
    };
    disarm_now(&mut inst, &mut kernel, 1);
    assert!(
        inst.table.contains(wd),
        "a live watch's removal owes an IN_IGNORED — the tombstone waits for it"
    );
    assert!(
        inst.table.on_ignored(wd).is_empty(),
        "and its own marker is the authoritative erase"
    );
    assert!(!inst.table.contains(wd));
}

#[test]
fn a_batch_with_a_failed_arm_answers_every_arm_in_order() {
    let mut inst = instance(i32::MAX);
    let mut kernel = Kernel::new();
    kernel.mkdir("/aligned");
    let ops = [(arm_op(1), MISSING), (arm_op(2), "/aligned")];
    let (replies, preempted, _) = execute_batch(&mut inst, &mut kernel, &ops, || false);
    assert!(!preempted);
    let [reply_a, reply_b] = replies.as_slice() else {
        panic!("two arms, two replies: {replies:?}");
    };
    assert_eq!(
        *reply_a,
        WatchOutcome::Failed(WatchError::NotFound),
        "the missing target fails in its own slot"
    );
    let WatchOutcome::Installed(wd_b) = *reply_b else {
        panic!("the clean sibling installs: {reply_b:?}");
    };
    assert_eq!(inst.table.wd_of(watch(2)), Some(wd_b));
    assert_eq!(inst.table.wd_of(watch(1)), None);
}

#[test]
fn random_churn_never_regrants_a_mapped_wd() {
    for seed in 1..=16u64 {
        let mut s = seed.wrapping_mul(2_654_435_761).wrapping_add(12_345);
        let mut rng = || {
            s ^= s << 13;
            s ^= s >> 17;
            s ^= s << 5;
            s
        };
        let mut inst = instance(i32::MAX);
        let mut kernel = Kernel::new();
        let mut granted: Vec<i32> = Vec::new();
        let mut bound: BTreeMap<u64, (i32, Option<String>)> = BTreeMap::new();
        let mut next_anchor = 1u64;
        for _step in 0..12 {
            match rng() % 4 {
                0 | 3 => {
                    let dir = format!("/churn-{seed}-{next_anchor}");
                    kernel.mkdir(&dir);
                    let WatchOutcome::Installed(wd) = arm(&mut inst, &mut kernel, next_anchor, &dir)
                    else {
                        panic!("the arm installs");
                    };
                    assert!(
                        granted.iter().all(|&g| wd > g),
                        "seed {seed}: grant {wd} outgrows every prior grant {granted:?}"
                    );
                    granted.push(wd);
                    bound.insert(next_anchor, (wd, Some(dir)));
                    next_anchor += 1;
                }
                1 => {
                    let target = bound
                        .iter()
                        .find(|(_, (_, dir))| dir.is_some())
                        .map(|(&anchor, _)| anchor);
                    if let Some(anchor) = target {
                        let (_, dir) = bound.get_mut(&anchor).expect("just found");
                        let path = dir.take().expect("object was live");
                        kernel.destroy(&path);
                    }
                }
                2 => {
                    let target = bound.keys().next().copied();
                    if let Some(anchor) = target {
                        disarm_now(&mut inst, &mut kernel, anchor);
                        bound.remove(&anchor);
                    }
                }
                _ => unreachable!("rng % 4"),
            }
            if rng() % 2 == 0 {
                if let Ok(bytes) = kernel.read() {
                    let decoded = decode_events(&bytes);
                    assert!(!decoded.lossy, "the drain reads intact records");
                    let _ = attribute_events(decoded.events, &mut inst.table);
                }
            }
        }
        if let Ok(bytes) = kernel.read() {
            let _ = attribute_events(decode_events(&bytes).events, &mut inst.table);
        }
        for (anchor, (wd, dir)) in &bound {
            if dir.is_some() {
                assert_eq!(
                    inst.table.wd_of(watch(*anchor)),
                    Some(*wd),
                    "seed {seed}: a live binding is never displaced by churn"
                );
            }
        }
    }
}

#[test]
fn a_threshold_trip_swaps_the_instance_before_the_arm() {
    let mut inst = instance(2);
    let mut kernel = Kernel::new();
    let dirs = ["/trip-0", "/trip-1", "/trip-2", "/trip-3", "/trip-4"];
    for dir in dirs {
        kernel.mkdir(dir);
    }
    let ops: Vec<(ControlOp, &str)> = (0..4).map(|i| (arm_op(1 + i as u64), dirs[i])).collect();
    let (replies, preempted, sent) = execute_batch(&mut inst, &mut kernel, &ops, || false);
    assert!(!preempted);
    let wds: Vec<i32> = replies
        .iter()
        .map(|r| match r {
            WatchOutcome::Installed(wd) => *wd,
            other => panic!("every arm installs: {other:?}"),
        })
        .collect();
    assert_eq!(
        wds,
        vec![1, 2, 1, 2],
        "grants stop AT the threshold on the old fd and restart at 1 on the fresh one"
    );
    assert_eq!(inst.table.wd_of(watch(1)), None);
    assert_eq!(inst.table.wd_of(watch(2)), None);
    assert_eq!(inst.table.wd_of(watch(3)), Some(1));
    assert_eq!(inst.table.wd_of(watch(4)), Some(2));
    assert_eq!(kinds(&sent), vec![Sent::Overflow]);

    let (replies, _, sent) =
        execute_batch(&mut inst, &mut kernel, &[(arm_op(5), dirs[4])], || false);
    assert!(
        matches!(replies[0], WatchOutcome::Installed(1)),
        "the second renewal restarts at wd 1 too: {:?}",
        replies[0]
    );
    assert_eq!(kinds(&sent), vec![Sent::Overflow]);
}

#[test]
fn queued_events_are_drained_ahead_of_the_loss_signal() {
    let mut inst = instance(1);
    let mut kernel = Kernel::new();
    kernel.mkdir("/a");
    kernel.mkdir("/b");
    let (replies, _, _) = execute_batch(&mut inst, &mut kernel, &[(arm_op(1), "/a")], || false);
    assert!(matches!(replies[0], WatchOutcome::Installed(1)));
    kernel.write("/a", b"recorded.txt");
    let (replies, _, sent) = execute_batch(&mut inst, &mut kernel, &[(arm_op(2), "/b")], || false);
    assert!(matches!(replies[0], WatchOutcome::Installed(1)));
    assert_eq!(kinds(&sent), vec![Sent::Batch(1), Sent::Overflow]);
}

#[test]
fn a_failed_renewal_leaves_the_instance_intact_and_signals_nothing() {
    let mut inst = instance(1);
    let mut kernel = Kernel::new();
    kernel.mkdir("/fail-renew");
    let (replies, _, _) =
        execute_batch(&mut inst, &mut kernel, &[(arm_op(1), "/fail-renew")], || false);
    assert!(matches!(replies[0], WatchOutcome::Installed(1)));

    kernel.create_error = Some(SourceError::CreateFailed);
    let mut renewal = Renewal::Create;
    let mut lane = Lane::new(8);
    let message = kernel.serve(renewal.ask(), "", &mut || false, |answer| {
        renewal.step(&mut inst, &mut lane, answer)
    });
    assert_eq!(renewal, Renewal::Refused(SourceError::CreateFailed));
    assert_eq!(
        inst.table.wd_of(watch(1)),
        Some(1),
        "the live binding is untouched by the failed renewal"
    );
    assert_eq!(inst.alloc_cursor, 1, "the cursor accounting is untouched");
    assert!(message.is_none(), "no loss is signalled when nothing was renewed");

    let (replies, preempted, sent) =
        execute_batch(&mut inst, &mut kernel, &[(arm_op(2), "/fail-renew")], || false);
    assert_eq!(replies, vec![WatchOutcome::Failed(WatchError::Io)]);
    assert!(!preempted && sent.is_empty());
    assert_eq!(inst.alloc_cursor, 1);

    kernel.write("/fail-renew", b"still-live.txt");
    let events = decode_events(&kernel.read().expect("queued")).events;
    assert!(
        events
            .iter()
            .any(|ev| ev.name.as_deref() == Some(b"still-live.txt".as_slice())),
        "the un-renewed instance keeps recording: {events:?}"
    );
}

#[test]
fn a_mid_drain_renewal_redirects_the_loop_to_the_fresh_fd() {
    let mut inst = instance(1);
    inst.alloc_cursor = 1;
    let mut kernel = Kernel::new();
    kernel.endless = Some(Ok(vec![0; 64]));
    kernel.mkdir("/mid-drain");
    let mut control: VecDeque<Request> = VecDeque::from([Some(vec![(arm_op(1), "/mid-drain")])]);
    let drained = drain_events(&mut inst, &mut kernel, &mut control, || false);
    assert_eq!(drained.replies, vec![vec![WatchOutcome::Installed(1)]]);
    assert_eq!(drained.exit, None);
    assert_eq!(inst.table.wd_of(watch(1)), Some(1));
    assert_eq!(
        kinds(&drained.sent),
        vec![Sent::Overflow],
        "the all-zero swap drain forwards nothing; the loss signal alone crosses"
    );
    assert_eq!(kernel.reads, MAX_SWAP_DRAIN_READS + 2);
}

#[test]
fn a_cursor_burning_failure_run_rebuilds_before_a_wrapped_grant_collides() {
    let threshold = 4;
    let mut inst = instance(threshold);
    let mut kernel = Kernel::new();
    kernel.mkdir("/cursor-burn");
    for _ in 0..threshold {
        kernel.injected_adds.push_back(Err(ENOSPC));
    }
    kernel.injected_adds.push_back(Ok(1));
    inst.table.register(1, watch(99));
    let ops: Vec<(ControlOp, &str)> =
        (0..=threshold as u64).map(|i| (arm_op(100 + i), "/cursor-burn")).collect();
    let (replies, preempted, sent) = execute_batch(&mut inst, &mut kernel, &ops, || false);
    assert!(!preempted);
    assert_eq!(
        kinds(&sent),
        vec![Sent::Overflow],
        "the failure run tripped the rebuild before the wrap (one whole-instance loss)"
    );
    assert!(
        matches!(replies.last(), Some(WatchOutcome::Installed(1))),
        "the final grant installed on the fresh fd's wd 1: {:?}",
        replies.last()
    );
    assert_eq!(replies[0], WatchOutcome::Failed(WatchError::NoSpace));
    assert_eq!(inst.table.wd_of(watch(99)), None);
    assert_eq!(
        inst.table.wd_of(watch(100 + threshold as u64)),
        Some(1),
        "the final arm owns the fresh wd 1 alone"
    );
}

fn three_missing() -> [(ControlOp, &'static str); 3] {
    [(arm_op(1), MISSING), (arm_op(2), MISSING), (arm_op(3), MISSING)]
}

#[test]
fn whole_batch_runs_when_no_shutdown() {
    let mut inst = instance(i32::MAX);
    let (replies, preempted, _) =
        execute_batch(&mut inst, &mut Kernel::new(), &three_missing(), || false);
    assert!(!preempted);
    assert_eq!(replies.len(), 3);
    assert!(
        replies
            .iter()
            .all(|r| matches!(r, WatchOutcome::Failed(WatchError::NotFound))),
        "each arm actually ran (NotFound), not a preemption reply"
    );
}

#[test]
fn no_op_runs_when_shutdown_pending_up_front() {
    let mut inst = instance(i32::MAX);
    let (replies, preempted, _) =
        execute_batch(&mut inst, &mut Kernel::new(), &three_missing(), || true);
    assert!(preempted);
    assert_eq!(replies.len(), 3, "all three arms answered, index-aligned");
    assert!(
        replies
            .iter()
            .all(|r| matches!(r, WatchOutcome::Failed(WatchError::Io))),
        "every arm is a preemption reply — none executed"
    );
}

#[test]
fn prefix_runs_then_tail_is_failed_on_mid_batch_shutdown() {
    let mut inst = instance(i32::MAX);
    let mut calls = 0u32;
    let (replies, preempted, _) =
        execute_batch(&mut inst, &mut Kernel::new(), &three_missing(), || {
            calls += 1;
            calls > 1
        });
    assert!(preempted);
    assert_eq!(replies.len(), 3);
    assert!(
        matches!(replies[0], WatchOutcome::Failed(WatchError::NotFound)),
        "op 0 executed before the flip"
    );
    assert!(
        matches!(replies[1], WatchOutcome::Failed(WatchError::Io))
            && matches!(replies[2], WatchOutcome::Failed(WatchError::Io)),
        "the un-executed tail is failed-replied with Io"
    );
}

/// One armed watch with records the reader has not read.
fn resident() -> (Instance, Kernel) {
    let mut inst = instance(i32::MAX);
    let mut kernel = Kernel::new();
    kernel.mkdir("/resident");
    assert!(matches!(
        arm(&mut inst, &mut kernel, 1, "/resident"),
        WatchOutcome::Installed(_)
    ));
    for name in [b"a", b"b", b"a", b"b", b"a", b"b", b"a", b"b"] {
        kernel.write("/resident", name);
    }
    (inst, kernel)
}

#[test]
fn a_batch_reply_is_preceded_by_the_queue_cut() {
    let (mut inst, mut kernel) = resident();
    let mut control: VecDeque<Request> = VecDeque::from([Some(vec![(arm_op(2), "/resident")])]);
    let drained = drain_events(&mut inst, &mut kernel, &mut control, || false);
    assert!(
        matches!(drained.replies[0][0], WatchOutcome::Aliased(_)),
        "the second anchor aliases the same watch: {:?}",
        drained.replies
    );
    assert_eq!(kinds(&drained.sent), vec![Sent::Batch(8)]);
    assert_eq!(
        drained.sent_before_reply,
        vec![1],
        "the staged records rode the cut, ahead of the reply"
    );
}

#[test]
fn a_kernel_resident_overflow_precedes_the_settling_reply() {
    let (mut inst, mut kernel) = resident();
    kernel.queue.extend(record(-1, IN_Q_OVERFLOW, None));
    let mut control: VecDeque<Request> = VecDeque::from([Some(vec![(arm_op(2), "/resident")])]);
    let drained = drain_events(&mut inst, &mut kernel, &mut control, || false);
    assert!(
        matches!(drained.replies[0][0], WatchOutcome::Aliased(_)),
        "the settling arm's outcome is intact: {:?}",
        drained.replies
    );
    assert_eq!(
        kinds(&drained.sent[..drained.sent_before_reply[0]]),
        vec![Sent::Overflow],
        "the kernel-resident loss reached the queue before the reply"
    );
}

#[test]
fn a_preempted_batch_skips_the_cut() {
    let (mut inst, mut kernel) = resident();
    let mut control: VecDeque<Request> = VecDeque::from([Some(vec![(arm_op(2), "/resident")])]);
    let drained = drain_events(&mut inst, &mut kernel, &mut control, || true);
    assert_eq!(
        drained.exit,
        Some(DrainExit::Shutdown),
        "a preempted batch exits the reader"
    );
    assert!(
        matches!(drained.replies[0][0], WatchOutcome::Failed(WatchError::Io)),
        "the un-executed arm is failed-replied: {:?}",
        drained.replies
    );
    assert!(
        drained.sent.is_empty(),
        "the exiting reader spends no cut on a reply nothing settles over"
    );
    assert_eq!(kernel.reads, 0);
}

#[test]
fn an_interrupt_storm_bounds_the_cut_and_degrades_to_a_covering_loss() {
    let (mut inst, mut kernel) = resident();
    kernel.endless = Some(Err(EINTR));
    let (stop, sent) = cut(&mut inst, &mut kernel, || true);
    assert!(stop);
    assert_eq!(
        kernel.reads, 1,
        "a pending teardown degrades at the FIRST interruption rather than spending the budget"
    );
    assert_eq!(
        kinds(&sent),
        vec![Sent::Overflow],
        "the shortened cut still degrades honestly rather than under-draining silently"
    );

    kernel.endless = None;
    kernel.reads = 0;
    kernel.scripted_reads = VecDeque::from([Err(EINTR), Err(EINTR), Err(EINTR)]);
    let (stop, sent) = cut(&mut inst, &mut kernel, || false);
    assert!(!stop, "a completed cut neither dies nor retires the instance");
    assert_eq!(kernel.reads, 5, "the interleaved storm was absorbed");
    assert_eq!(kinds(&sent), vec![Sent::Batch(8)]);
    assert_eq!(kernel.instances, 0);

    kernel.write("/resident", b"again");
    kernel.reads = 0;
    kernel.scripted_reads = (0..MAX_CUT_INTERRUPTED_READS).map(|_| Err(EINTR)).collect();
    let (stop, sent) = cut(&mut inst, &mut kernel, || false);
    assert!(
        !stop,
        "a retired instance is not a stream death: the reader continues on the fresh fd"
    );
    assert_eq!(kernel.instances, 1);
    assert_eq!(
        kernel.reads,
        MAX_CUT_INTERRUPTED_READS + 2,
        "the storm is bounded by the interrupted-attempt budget"
    );
    assert_eq!(kinds(&sent), vec![Sent::Batch(1), Sent::Overflow]);
    assert_eq!(inst.table.wd_of(watch(1)), None);
}

#[test]
fn an_incredible_queued_count_is_not_believed_as_a_debt() {
    for count in [u64::MAX, MAX_CREDIBLE_QUEUE_BYTES + 1] {
        let mut inst = instance(i32::MAX);
        let mut kernel = Kernel::new();
        kernel.queued = Some(Ok(count));
        kernel.endless = Some(Ok(vec![0]));
        let (stop, sent, reads) = cut_counting(&mut inst, &mut kernel, || false);
        assert!(!stop, "an unprovable cut is not a stream death");
        assert_eq!(
            reads, MAX_CUT_FALLBACK_READS,
            "the wrapped count is discarded, so the UNKNOWN-count bound applies"
        );
        assert_eq!(
            kinds(&sent),
            vec![Sent::Overflow],
            "a cut that could not prove the queue was cut degrades to one covering loss"
        );
    }
}

#[test]
fn a_credible_debt_that_never_retires_degrades_at_its_bound() {
    let mut inst = instance(i32::MAX);
    let mut kernel = Kernel::new();
    kernel.queued = Some(Ok(1024));
    kernel.endless = Some(Ok(vec![0]));
    let (stop, sent, reads) = cut_counting(&mut inst, &mut kernel, || false);
    assert!(!stop, "an unprovable cut is not a stream death");
    assert_eq!(
        reads, MAX_CUT_OWED_READS,
        "the credible-debt drain is bounded by its own read budget"
    );
    assert_eq!(
        kinds(&sent),
        vec![Sent::Overflow],
        "and exhausting it takes the same honest degrade as every other unprovable cut"
    );
}

#[test]
fn an_unprovable_cut_lets_no_pre_loss_record_cross_into_the_new_epoch() {
    let legs: [(Result<u64, Errno>, Result<Vec<u8>, Errno>, u32); 3] = [
        (Ok(1024), Ok(vec![0; 16]), MAX_CUT_OWED_READS),
        (Err(Errno::Other(25)), Ok(vec![0; 16]), MAX_CUT_FALLBACK_READS),
        (Ok(1024), Err(EINTR), MAX_CUT_INTERRUPTED_READS),
    ];
    for (queued, read, bound) in legs {
        let (mut inst, mut kernel) = resident();
        kernel.queued = Some(queued);
        kernel.scripted_reads = (0..bound).map(|_| read.clone()).collect();
        let (stop, sent, reads) = cut_counting(&mut inst, &mut kernel, || false);
        assert!(!stop, "a retired instance is not a stream death");
        assert_eq!(reads, bound);
        assert_eq!(kernel.instances, 1);
        let kinds = kinds(&sent);
        assert_eq!(kinds.iter().filter(|s| **s == Sent::Overflow).count(), 1);
        assert_eq!(kinds.last(), Some(&Sent::Overflow));
        let after = drain_events(&mut inst, &mut kernel, &mut VecDeque::new(), || false);
        assert_eq!(after.exit, None);
        assert!(after.sent.is_empty(), "nothing may follow the covering loss");
    }
}

#[test]
fn an_unprovable_cut_that_cannot_be_retired_is_fatal() {
    let (mut inst, mut kernel) = resident();
    kernel.queued = Some(Err(Errno::Other(25)));
    kernel.endless = Some(Ok(vec![0; 16]));
    kernel.create_error = Some(SourceError::InstanceLimit);
    let (stop, sent) = cut(&mut inst, &mut kernel, || false);
    assert!(stop);
    assert_eq!(kernel.instances, 0);
    assert_eq!(kinds(&sent), vec![Sent::Fatal(SourceError::InstanceLimit)]);
    assert_eq!(inst.table.wd_of(watch(1)), Some(1));
}

/// An armed watch whose object was destroyed, with the queue emptied.
fn armed_then_dead() -> (Instance, Kernel, i32) {
    let mut inst = instance(i32::MAX);
    let mut kernel = Kernel::new();
    kernel.mkdir("/scope");
    let WatchOutcome::Installed(wd) = arm(&mut inst, &mut kernel, 1, "/scope") else {
        panic!("the scope armed");
    };
    assert_eq!(inst.table.attribute(wd).to_vec(), vec![watch(1)]);
    kernel.destroy("/scope");
    kernel.queue.clear();
    (inst, kernel, wd)
}

#[test]
fn a_swallowed_teardown_retains_the_binding_and_signals_a_covering_loss() {
    let (mut inst, mut kernel, wd) = armed_then_dead();
    kernel.queue = [
        record(wd, IN_ATTRIB, Some(b"a")),
        record(-1, IN_Q_OVERFLOW, None),
    ]
    .concat();
    let (stop, sent) = cut(&mut inst, &mut kernel, || false);
    assert!(!stop);
    assert_eq!(kernel.reads, 2, "the scripted queue was read, then read empty");
    assert_eq!(kinds(&sent), vec![Sent::Overflow]);
    assert_eq!(
        inst.table.wd_of(watch(1)),
        Some(wd),
        "the binding is RETAINED: nothing in the stream said its watch died"
    );
    assert_eq!(inst.table.attribute(wd).to_vec(), vec![watch(1)]);
    assert!(inst.table.is_live(wd));

    kernel.mkdir("/scope");
    let WatchOutcome::Installed(fresh) = arm(&mut inst, &mut kernel, 1, "/scope") else {
        panic!("the retained binding re-proves by a fresh install");
    };
    assert!(fresh > wd, "the re-add's grant outgrows the retained wd: {fresh} vs {wd}");
    assert_eq!(inst.table.wd_of(watch(1)), Some(fresh));
    assert!(
        !inst.table.contains(wd),
        "the superseded binding strands no tombstone: its removal answered EINVAL"
    );
}

#[test]
fn a_delivered_teardown_drops_the_binding() {
    for preface in [IN_DELETE_SELF | IN_ISDIR, IN_UNMOUNT] {
        let (mut inst, mut kernel, wd) = armed_then_dead();
        kernel.queue = [
            record(wd, IN_ATTRIB, Some(b"a")),
            record(wd, preface, None),
            record(wd, IN_IGNORED, None),
        ]
        .concat();
        let (stop, sent) = cut(&mut inst, &mut kernel, || false);
        assert!(!stop);
        let [SourceMessage::Batch(events)] = sent.as_slice() else {
            panic!("a delivered teardown is REPORTED to its anchor, with no loss to cover");
        };
        let forwarded: Vec<(Vec<WatchId>, u32)> = events
            .iter()
            .map(|e| {
                let (anchors, raw) = e.as_inotify().expect("an inotify record");
                (anchors.to_vec(), raw.mask.0)
            })
            .collect();
        assert_eq!(
            forwarded,
            vec![
                (vec![watch(1)], IN_ATTRIB),
                (vec![watch(1)], preface),
                (vec![watch(1)], IN_IGNORED),
            ]
        );
        assert_eq!(
            inst.table.wd_of(watch(1)),
            None,
            "no retained-binding claim survives a delivered marker"
        );
        assert!(
            inst.table.attribute(wd).is_empty(),
            "the dropped binding attributes to nobody"
        );
        assert!(
            !inst.table.contains(wd),
            "the marker is the authoritative erase: not even a tombstone remains"
        );
    }
}

#[test]
fn arming_the_same_inode_twice_aliases() {
    let mut inst = instance(i32::MAX);
    let mut kernel = Kernel::new();
    kernel.mkdir("/alias");
    let WatchOutcome::Installed(wd) = arm(&mut inst, &mut kernel, 1, "/alias") else {
        panic!("first arm");
    };
    assert_eq!(arm(&mut inst, &mut kernel, 2, "/alias"), WatchOutcome::Aliased(wd));
    assert_eq!(inst.table.attribute(wd).to_vec(), vec![watch(1), watch(2)]);
    assert_eq!(inst.alloc_cursor, 3, "every attempt is counted");
}

#[test]
fn arm_with_matching_identity_installs() {
    let mut inst = instance(i32::MAX);
    let mut kernel = Kernel::new();
    let ino = kernel.mkdir("/verify-ok");
    let expected = Some(ExpectedObject { dev: 1, ino });
    let reply = arm_expecting(&mut inst, &mut kernel, 1, "/verify-ok", expected);
    assert!(
        matches!(reply, WatchOutcome::Installed(_)),
        "a matching identity arms: {reply:?}"
    );
}

#[test]
fn arm_with_mismatched_identity_is_gone() {
    let mut inst = instance(i32::MAX);
    let mut kernel = Kernel::new();
    let ino = kernel.mkdir("/verify-mismatch");
    let expected = Some(ExpectedObject { dev: 1, ino: ino ^ 0xFFFF_FFFF });
    let reply = arm_expecting(&mut inst, &mut kernel, 1, "/verify-mismatch", expected);
    assert_eq!(
        reply,
        WatchOutcome::Failed(WatchError::Gone),
        "a replaced object is refused, not silently mis-armed"
    );
    assert_eq!(inst.alloc_cursor, 0);
    assert!(object_matches(Err(EPERM), None));
    assert!(!object_matches(Err(EPERM), expected));
}

#[test]
fn missing_target_maps_to_not_found() {
    let mut inst = instance(i32::MAX);
    let reply = arm(&mut inst, &mut Kernel::new(), 1, "/absent");
    assert_eq!(reply, WatchOutcome::Failed(WatchError::NotFound));
}

#[test]
fn remove_watch_drains_through_ignored() {
    let mut inst = instance(i32::MAX);
    let mut kernel = Kernel::new();
    kernel.mkdir("/drain");
    assert!(matches!(
        arm(&mut inst, &mut kernel, 1, "/drain"),
        WatchOutcome::Installed(_)
    ));
    let (replies, _, _) = execute_batch(
        &mut inst,
        &mut kernel,
        &[(ControlOp::Disarm(watch(1)), "")],
        || false,
    );
    assert!(replies.is_empty());
    kernel.queue.extend(record(1, IN_CREATE, Some(b"late.txt")));
    let drained = drain_events(&mut inst, &mut kernel, &mut VecDeque::new(), || false);
    assert!(drained.sent.is_empty(), "no attribution after the drain");
    assert!(!inst.table.contains(1));
}

#[test]
fn a_disguised_create_is_removed_and_refused() {
    let mut inst = instance(i32::MAX);
    let mut kernel = Kernel::new();
    kernel.mkdir("/d");
    kernel.injected_adds = VecDeque::from([Err(EEXIST), Ok(7)]);
    kernel.watches.insert(7, 1);
    assert_eq!(
        arm(&mut inst, &mut kernel, 1, "/d"),
        WatchOutcome::Failed(WatchError::Io)
    );
    assert!(kernel.watches.is_empty(), "the watch it made was removed");
    assert!(!inst.table.contains(7));
    assert_eq!(inst.alloc_cursor, 2);
}

#[test]
fn an_arm_asks_with_the_two_masks() {
    let mut inst = instance(i32::MAX);
    let mut arming = Arming::new(watch(1), None);
    assert_eq!(arming.ask(), Ask::Open);
    arming.step(&mut inst, Answer::Opened(Ok(())));
    let first = WATCH_MASK & !libc::IN_DONT_FOLLOW;
    assert_eq!(arming.ask(), Ask::Add(first));
    arming.step(&mut inst, Answer::Added(Err(EEXIST)));
    assert_eq!(arming.ask(), Ask::Add(first & !libc::IN_MASK_CREATE));
    arming.step(&mut inst, Answer::Added(Err(ENOSPC)));
    assert_eq!(
        arming.state,
        ArmState::Done(WatchOutcome::Failed(WatchError::NoSpace))
    );
}

#[test]
fn error_numbers_fail_an_arm_by_their_kind() {
    assert_eq!(errno_to_watch_error(ENOENT), WatchError::NotFound);
    assert_eq!(errno_to_watch_error(ENOTDIR), WatchError::Gone);
    assert_eq!(errno_to_watch_error(EACCES), WatchError::Permission);
    assert_eq!(errno_to_watch_error(EPERM), WatchError::Permission);
    assert_eq!(errno_to_watch_error(ENOSPC), WatchError::NoSpace);
    assert_eq!(errno_to_watch_error(EINVAL), WatchError::Io);
}

#[test]
fn a_failed_read_is_fatal_wherever_it_happens() {
    let mut inst = instance(i32::MAX);
    let mut kernel = Kernel::new();
    kernel.endless = Some(Err(EACCES));
    let failed = SourceError::ReadFailed { source: IoError::Os(EACCES) };
    let (stop, sent) = cut(&mut inst, &mut kernel, || false);
    assert!(stop);
    assert_eq!(kinds(&sent), vec![Sent::Fatal(failed)]);
    let drained = drain_events(&mut inst, &mut kernel, &mut VecDeque::new(), || false);
    assert_eq!(drained.exit, Some(DrainExit::Died));
    assert_eq!(kinds(&drained.sent), vec![Sent::Fatal(failed)]);
}

#[test]
fn a_teardown_after_a_forwarded_read_ends_the_cut_with_a_loss() {
    let (mut inst, mut kernel) = resident();
    let (stop, sent) = cut(&mut inst, &mut kernel, || true);
    assert!(stop);
    assert_eq!(kinds(&sent), vec![Sent::Batch(8), Sent::Overflow]);
}

#[test]
fn the_loop_parks_polls_clears_and_reads() {
    let (mut inst, mut kernel) = resident();
    let mut reader = Reader::new();
    let mut lane = Lane::new(8);
    let mut sent = Vec::new();
    let script = [
        (ReaderAsk::Park, ReaderAnswer::Parked),
        (ReaderAsk::Receive, ReaderAnswer::Received(None)),
        (ReaderAsk::Poll, ReaderAnswer::Polled(Err(EINTR))),
        (ReaderAsk::Park, ReaderAnswer::Parked),
        (ReaderAsk::Receive, ReaderAnswer::Received(None)),
        (ReaderAsk::Poll, ReaderAnswer::Polled(Ok((false, true)))),
        (ReaderAsk::Clear, ReaderAnswer::Cleared),
        (ReaderAsk::Receive, ReaderAnswer::Received(None)),
        (ReaderAsk::Park, ReaderAnswer::Parked),
        (ReaderAsk::Receive, ReaderAnswer::Received(None)),
        (ReaderAsk::Poll, ReaderAnswer::Polled(Ok((true, false)))),
        (ReaderAsk::Receive, ReaderAnswer::Received(None)),
    ];
    for (ask, answer) in script {
        assert_eq!(reader.ask(), ask);
        sent.extend(reader.step(&mut inst, &mut lane, answer));
    }
    assert_eq!(reader.ask(), ReaderAsk::Do(Ask::Read));
    sent.extend(kernel.serve(Ask::Read, "", &mut || false, |answer| {
        reader.step(&mut inst, &mut lane, ReaderAnswer::Did(answer))
    }));
    assert_eq!(kinds(&sent), vec![Sent::Batch(8)]);
    assert_eq!(reader.state(), ReaderState::Receive(Place::Between));
    reader.step(&mut inst, &mut lane, ReaderAnswer::Received(None));
    reader.step(&mut inst, &mut lane, ReaderAnswer::Did(Answer::Read(Err(EAGAIN))));
    assert_eq!(reader.state(), ReaderState::Park);
}

#[test]
fn a_failed_wait_is_fatal() {
    let mut inst = instance(i32::MAX);
    let mut reader = Reader::new();
    let mut lane = Lane::new(8);
    reader.step(&mut inst, &mut lane, ReaderAnswer::Parked);
    reader.step(&mut inst, &mut lane, ReaderAnswer::Received(None));
    let message = reader.step(&mut inst, &mut lane, ReaderAnswer::Polled(Err(EINVAL)));
    assert_eq!(
        message,
        Some(SourceMessage::Fatal(SourceError::ReadFailed { source: IoError::Os(EINVAL) }))
    );
    assert_eq!(reader.state(), ReaderState::Exit(DrainExit::Died));
}

#[test]
fn the_threshold_can_be_overridden_and_restored() {
    assert_eq!(REBUILD_MARGIN, 1 << 16);
    assert_eq!(REBUILD_THRESHOLD, i32::MAX - (1 << 16));
    assert_eq!(override_rebuild_threshold_for_tests(Some(5)), 5);
    assert_eq!(override_rebuild_threshold_for_tests(Some(-5)), 0);
    assert_eq!(override_rebuild_threshold_for_tests(None), 0);
    assert_eq!(rebuild_threshold(5), 5);
    assert_eq!(rebuild_threshold(0), REBUILD_THRESHOLD);
    let inst = Instance::new(override_rebuild_threshold_for_tests(Some(7)), native_order());
    assert_eq!(inst.threshold, 7);
}

#[test]
fn the_count_of_attempts_saturates() {
    let mut inst = instance(i32::MAX);
    inst.alloc_cursor = i32::MAX - 1;
    assert!(!inst.needs_rebuild());
    inst.count_add();
    inst.count_add();
    assert_eq!(inst.alloc_cursor, i32::MAX);
    assert!(inst.needs_rebuild());
}

#[test]
fn an_instance_that_cannot_be_created_says_why() {
    assert_eq!(create_error(EMFILE), SourceError::InstanceLimit);
    assert_eq!(create_error(EPERM), SourceError::CreateFailed);
}

#[test]
fn a_batch_is_answered_once_and_in_any_case() {
    let ops = vec![arm_op(1), ControlOp::Disarm(watch(2)), arm_op(3)];
    let count = arm_count(&ops);
    assert_eq!(count, 2);
    let mut reply = BatchReply::new(count);
    let outcome = reply.answer(vec![WatchOutcome::Installed(1), WatchOutcome::Aliased(1)]);
    let outcome = outcome.expect("the first answer is handed back");
    assert!(outcome.answered);
    assert_eq!(outcome.replies, vec![WatchOutcome::Installed(1), WatchOutcome::Aliased(1)]);
    assert!(reply.abandon().is_none(), "it was answered before");

    let mut dropped = BatchReply::new(count);
    let outcome = dropped.abandon().expect("an abandoned batch is answered");
    assert_eq!(outcome, dead_batch(2));
    assert!(!outcome.answered);
    assert_eq!(outcome.replies, vec![WatchOutcome::Failed(WatchError::Io); 2]);
    assert!(dropped.answer(Vec::new()).is_none());
    assert!(dead_batch(0).replies.is_empty());
}

#[test]
fn an_event_is_of_one_backend() {
    let fan = RawLinuxEvent::Fanotify(AdmittedEvent {
        mask: FanMask::new(1),
        path: Some(b"/root".to_vec()),
        rename: None,
    });
    assert!(fan.as_inotify().is_none());
    assert_eq!(fan.as_fanotify().and_then(|e| e.path.clone()), Some(b"/root".to_vec()));
    let ino = RawLinuxEvent::Inotify {
        anchors: vec![watch(1)],
        event: event(1, IN_CREATE, Some(b"x")),
    };
    assert!(ino.as_fanotify().is_none());
    assert_eq!(ino.as_inotify().map(|(a, _)| a.to_vec()), Some(vec![watch(1)]));
}

#[test]
fn a_loss_behind_a_waiting_loss_is_folded_into_it() {
    let mut lane = Lane::new(8);
    let mut table = WdTable::new();
    table.register(3, watch(1));
    let lossy = || DecodeOutcome { events: Vec::new(), lossy: true };
    let clean = || DecodeOutcome { events: vec![event(3, IN_CREATE, Some(b"f"))], lossy: false };
    let mut queue: Vec<SourceMessage> = Vec::new();
    for decoded in [lossy(), lossy(), clean(), clean(), lossy(), lossy(), lossy()] {
        queue.extend(attribute_and_forward(&mut lane, &mut table, decoded));
    }
    assert_eq!(
        kinds(&queue),
        vec![Sent::Overflow, Sent::Batch(1), Sent::Batch(1), Sent::Overflow]
    );

    queue.clear();
    lane.on_emptied();
    queue.extend(attribute_and_forward(&mut lane, &mut table, lossy()));
    queue.extend(attribute_and_forward(&mut lane, &mut table, lossy()));
    assert_eq!(
        kinds(&queue),
        vec![Sent::Overflow],
        "a loss that was taken covers nothing that comes after it"
    );
}

#[test]
fn a_fatal_error_is_put_on_the_queue_once() {
    let mut lane = Lane::new(8);
    let fatal = |error| SourceMessage::Fatal(error);
    assert_eq!(lane.offer(SourceMessage::Overflow), Some(SourceMessage::Overflow));
    assert_eq!(
        lane.offer(fatal(SourceError::CreateFailed)),
        Some(fatal(SourceError::CreateFailed))
    );
    assert_eq!(lane.offer(fatal(SourceError::CallbackPanic)), None);
    assert_eq!(
        lane,
        Lane { loss_at_tail: false, fatal_sent: true, waiting: 0, capacity: 8 }
    );
}

#[test]
fn an_unprovable_cut_over_a_waiting_loss_adds_none() {
    let mut inst = instance(i32::MAX);
    let mut kernel = Kernel::new();
    kernel.queued = Some(Ok(u64::MAX));
    kernel.endless = Some(Ok(vec![0]));
    let mut lane = Lane { loss_at_tail: true, ..Lane::new(8) };
    let mut cut = Cut::Queued;
    while cut != (Cut::Done { stop: false }) {
        let ask = cut.ask();
        let message = kernel.serve(ask, "", &mut || false, |answer| {
            cut.step(&mut inst, &mut lane, answer)
        });
        assert_eq!(message, None, "the waiting loss covers the remainder");
    }
    assert_eq!(kernel.instances, 1);
    assert!(lane.loss_at_tail);
}

#[test]
fn a_batch_there_is_no_room_for_becomes_a_covering_loss() {
    let mut lane = Lane::new(2);
    let mut table = WdTable::new();
    table.register(3, watch(1));
    table.register(4, watch(2));
    let clean = || DecodeOutcome { events: vec![event(3, IN_CREATE, Some(b"f"))], lossy: false };
    let mut queue: Vec<SourceMessage> = Vec::new();
    for _ in 0..4 {
        queue.extend(attribute_and_forward(&mut lane, &mut table, clean()));
    }
    assert_eq!(kinds(&queue), vec![Sent::Batch(1), Sent::Batch(1), Sent::Overflow]);

    assert_eq!(table.begin_drain(watch(2)), DrainDecision::RemoveWd(4));
    let refused = attribute_and_forward(&mut lane, &mut table, clean());
    assert_eq!(refused, None, "the waiting loss covers it");
    assert!(table.contains(4), "a refused batch reaps nothing: its bytes were all read");

    lane.on_taken(1);
    assert_eq!(lane.waiting, 1);
    let taken = attribute_and_forward(&mut lane, &mut table, clean());
    assert_eq!(kinds(&taken.into_iter().collect::<Vec<_>>()), vec![Sent::Batch(1)]);
    assert_eq!(
        attribute_and_forward(&mut lane, &mut table, clean()),
        Some(SourceMessage::Overflow)
    );
    lane.on_taken(5);
    assert_eq!(lane.waiting, 0);
}

#[test]
fn an_answer_the_kernel_never_gives_is_not_accepted() {
    let mut inst = instance(100);
    inst.table.register(3, watch(1));
    inst.table.register(4, watch(2));
    assert_eq!(inst.table.begin_drain(watch(2)), DrainDecision::RemoveWd(4));

    let mut arming = Arming::new(watch(9), None);
    assert!(arming.accepts(&inst, Answer::Opened(Err(ENOENT))));
    arming.step(&mut inst, Answer::Opened(Ok(())));
    arming.step(&mut inst, Answer::Stat(Ok((1, 1))));
    assert_eq!(arming.state, ArmState::Add);
    assert!(arming.accepts(&inst, Answer::Added(Ok(5))));
    assert!(!arming.accepts(&inst, Answer::Added(Ok(3))), "a fresh descriptor is not mapped");
    assert!(!arming.accepts(&inst, Answer::Added(Ok(4))));
    arming.step(&mut inst, Answer::Added(Err(EEXIST)));
    assert_eq!(arming.state, ArmState::AddAgain);
    assert!(arming.accepts(&inst, Answer::Added(Ok(3))), "this one may be an alias");
    assert!(!arming.accepts(&inst, Answer::Added(Ok(4))), "but not of one that drains");

    let mut batch = Batch::new(vec![ControlOp::Disarm(watch(1))]);
    let mut lane = Lane::new(8);
    while !matches!(batch.ask(), Ask::Remove(_)) {
        assert_eq!(batch.ask(), Ask::Shutdown);
        assert_eq!(batch.step(&mut inst, &mut lane, Answer::Shutdown(false)), None);
    }
    assert_eq!(batch.ask(), Ask::Remove(3));
    assert!(batch.accepts(&inst, Answer::Removed(Ok(()))));
    assert!(batch.accepts(&inst, Answer::Removed(Err(EINVAL))));
    assert!(!batch.accepts(&inst, Answer::Removed(Err(EBADF))));

    let reader = Reader::new();
    assert!(reader.accepts(&inst, &ReaderAnswer::Did(Answer::Removed(Err(EBADF)))));
}
