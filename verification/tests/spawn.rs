//! Starting a source, with every answer given by the test.

use tributary_fs::error::{
    Backend, EACCES, EINVAL, ENOENT, ENOSYS, EOPNOTSUPP, Errno, IoError, IoKind, ProbeStage,
    Refusal, RootRef, SourceError,
};
use tributary_fs::fanotify::walk::{Advisory, Listing, WalkAnswer, WalkAsk};
use tributary_fs::spawn::opening::Opening;
use tributary_fs::spawn::protocol::{SpawnAnswer, SpawnAsk};
use tributary_fs::spawn::source::{
    BackendKind, RootIdentity, RootMeta, Spawn, SpawnConfig, SpawnState, handle_support_proven,
    probe_error, statx_gate_error, statx_unavailable,
};

#[test]
fn success_proves_support() {
    assert!(handle_support_proven(0, None));
}

#[test]
fn eoverflow_proves_support() {
    assert!(handle_support_proven(-1, Some(libc::EOVERFLOW)));
}

#[test]
fn other_errnos_fail_the_row() {
    for errno in [
        libc::EOPNOTSUPP,
        libc::EACCES,
        libc::ESTALE,
        libc::ENOENT,
        libc::EINVAL,
        libc::ENOMEM,
        libc::EPERM,
    ] {
        assert!(
            !handle_support_proven(-1, Some(errno)),
            "errno {errno} must not prove handle support"
        );
    }
    assert!(!handle_support_proven(-1, None));
}

/// A machine on which everything works, less what a test breaks.
struct Machine {
    canonical: Result<Vec<u8>, IoError>,
    open_whole: Result<(), Errno>,
    opened_names: Vec<String>,
    statx: Result<(), Errno>,
    f_type: Result<i64, Errno>,
    identity: Result<(u64, u64), Errno>,
    pinned: Result<(u64, u64), Errno>,
    live: Result<(bool, u64, u64), IoError>,
    mount: Result<(u32, u64), Errno>,
    mounts: Option<String>,
    fsid: Result<[u8; 8], Errno>,
    probe_init: bool,
    probe_mark: bool,
    probe_handle: (i32, Option<i32>),
    handles: Vec<Option<Vec<u8>>>,
    list: Result<(), Errno>,
    created: Result<(), SourceError>,
    woken: Result<(), SourceError>,
    started: Result<(), SourceError>,
    ancestor_error: Option<Errno>,
    reopened: Result<(u64, u64), Errno>,
    asks: Vec<SpawnAsk>,
    stats: u32,
    ancestors: u64,
}

impl Machine {
    fn new() -> Machine {
        Machine {
            canonical: Ok(b"/home/user/root".to_vec()),
            open_whole: Ok(()),
            opened_names: Vec::new(),
            statx: Ok(()),
            f_type: Ok(0xEF53),
            identity: Ok((1, 100)),
            pinned: Ok((1, 100)),
            live: Ok((true, 1, 100)),
            mount: Ok((libc::STATX_MNT_ID, 42)),
            mounts: Some("1 1 0:1 / /home/user/root/m rw".to_string()),
            fsid: Ok([3; 8]),
            probe_init: true,
            probe_mark: true,
            probe_handle: (-1, Some(libc::EOVERFLOW)),
            handles: vec![Some(vec![1]), Some(vec![1]), Some(vec![1])],
            list: Ok(()),
            created: Ok(()),
            woken: Ok(()),
            started: Ok(()),
            ancestor_error: None,
            reopened: Ok((1, 100)),
            asks: Vec::new(),
            stats: 0,
            ancestors: 0,
        }
    }

    fn walk(&mut self, ask: WalkAsk) -> WalkAnswer {
        match ask {
            WalkAsk::Start => WalkAnswer::Opened(Ok(())),
            WalkAsk::Handle => WalkAnswer::Handle(self.handles.remove(0)),
            WalkAsk::List => WalkAnswer::Listed(self.list),
            WalkAsk::Next => WalkAnswer::Next(Listing::End),
            other => panic!("an empty root asks for no {other:?}"),
        }
    }

    fn answer(&mut self, ask: SpawnAsk, opening: &Opening) -> SpawnAnswer {
        self.asks.push(ask);
        match ask {
            SpawnAsk::Canonicalize => SpawnAnswer::Canonical(self.canonical.clone()),
            SpawnAsk::OpenWhole => SpawnAnswer::Opened(self.open_whole),
            SpawnAsk::OpenAnchor { absolute, last } => {
                self.opened_names.push(format!("{}{last}", if absolute { "/" } else { "." }));
                SpawnAnswer::Opened(Ok(()))
            }
            SpawnAsk::OpenName { index, last } => {
                let name = String::from_utf8(opening.name(index).to_vec()).expect("text");
                self.opened_names.push(format!("{name}:{last}"));
                SpawnAnswer::Opened(Ok(()))
            }
            SpawnAsk::Statx => SpawnAnswer::Statx(self.statx),
            SpawnAsk::Statfs => SpawnAnswer::Statfs(self.f_type),
            SpawnAsk::Stat => {
                self.stats += 1;
                SpawnAnswer::Stat(if self.stats == 1 { self.identity } else { self.pinned })
            }
            SpawnAsk::StatOpened => {
                self.ancestors += 1;
                SpawnAnswer::Stat(match self.ancestor_error {
                    Some(e) if self.ancestors == 2 => Err(e),
                    _ if self.ancestors == 4 => self.reopened,
                    _ => Ok((1, self.ancestors)),
                })
            }
            SpawnAsk::Mount => SpawnAnswer::Mount(self.mount),
            SpawnAsk::Mounts => SpawnAnswer::Mounts(self.mounts.clone()),
            SpawnAsk::Fsid => SpawnAnswer::Fsid(self.fsid),
            SpawnAsk::Handle => SpawnAnswer::Handle(self.handles.remove(0)),
            SpawnAsk::CreateInstance => SpawnAnswer::Created(self.created),
            SpawnAsk::CreateWake => SpawnAnswer::Woken(self.woken),
            SpawnAsk::Start => SpawnAnswer::Started(self.started),
            SpawnAsk::Metadata => SpawnAnswer::Metadata(self.live),
            SpawnAsk::Walk(ask) => SpawnAnswer::Walked(self.walk(ask)),
            SpawnAsk::ProbeInit => SpawnAnswer::Probed(self.probe_init),
            SpawnAsk::ProbeMark => SpawnAnswer::Probed(self.probe_mark),
            SpawnAsk::ProbeHandle => {
                SpawnAnswer::ProbedHandle(self.probe_handle.0, self.probe_handle.1)
            }
            SpawnAsk::Nothing => panic!("nothing was asked"),
        }
    }
}

fn config(backend: Backend) -> SpawnConfig {
    SpawnConfig { backend, max_map_directories: None, max_exclusions: 2, resolve_only: false }
}

fn run(machine: &mut Machine, config: SpawnConfig, exclusions: usize) -> Spawn {
    let exclusions = vec![b"/home/user/root/x".to_vec(); exclusions];
    let mut spawn = Spawn::new(config, exclusions, true);
    loop {
        let ask = spawn.ask();
        if ask == SpawnAsk::Nothing {
            return spawn;
        }
        let answer = machine.answer(ask, spawn.opening());
        spawn.step(answer);
    }
}

fn started(machine: &mut Machine, backend: Backend) -> RootMeta {
    run(machine, config(backend), 0).into_meta().expect("the source starts")
}

fn failed(machine: &mut Machine, backend: Backend) -> (SourceError, bool) {
    match run(machine, config(backend), 0).state() {
        SpawnState::Failed { error, started } => (error, started),
        other => panic!("the start fails: {other:?}"),
    }
}

fn unavailable(source: IoError) -> SourceError {
    SourceError::RootUnavailable { root: RootRef::Canonical, source }
}

#[test]
fn spawn_seals_meta_and_arms_through_the_control_path() {
    let mut machine = Machine::new();
    let meta = started(&mut machine, Backend::Inotify);
    assert_eq!(meta.root, b"/home/user/root".to_vec());
    assert_eq!(meta.root_dev, 1);
    assert_eq!(meta.root_mnt_id, Some(42));
    assert_eq!(meta.mounts, vec![b"/home/user/root/m".to_vec()]);
    assert_eq!(meta.identity, RootIdentity::new(1, 100));
    assert_eq!(
        meta.ancestors,
        vec![RootIdentity::new(1, 1), RootIdentity::new(1, 2), RootIdentity::new(1, 3)]
    );
    assert_eq!(meta.backend, BackendKind::Inotify);
    assert!(meta.declined.is_empty());
    assert!(!machine.asks.contains(&SpawnAsk::ProbeInit));
}

#[test]
fn a_root_that_passes_its_trial_is_served_by_fanotify() {
    for backend in [Backend::Fanotify, Backend::Auto] {
        let mut machine = Machine::new();
        let spawn = run(&mut machine, config(backend), 1);
        assert_eq!(spawn.kind(), BackendKind::Fanotify);
        assert_eq!(spawn.seed().entries.len(), 1);
        let context = spawn.context().expect("a context");
        assert_eq!(context.fsid, [3; 8]);
        assert_eq!(context.exclusions(), &vec![b"/home/user/root/x".to_vec()]);
        let meta = spawn.into_meta().expect("the source starts");
        assert_eq!(meta.backend, BackendKind::Fanotify);
        assert!(!machine.asks.contains(&SpawnAsk::CreateInstance));
    }
}

#[test]
fn a_failed_trial_fails_a_demand_and_falls_back_on_an_open_choice() {
    let breaks: [(ProbeStage, fn(&mut Machine)); 5] = [
        (ProbeStage::Init, |m| m.probe_init = false),
        (ProbeStage::Mark, |m| m.probe_mark = false),
        (ProbeStage::Handle, |m| m.probe_handle = (-1, Some(libc::EOPNOTSUPP))),
        (ProbeStage::Handle, |m| m.handles[0] = None),
        (ProbeStage::Walk, |m| m.list = Err(EACCES)),
    ];
    for (stage, break_it) in breaks {
        let mut machine = Machine::new();
        break_it(&mut machine);
        assert_eq!(failed(&mut machine, Backend::Fanotify), (probe_error(stage), false));
        let mut machine = Machine::new();
        break_it(&mut machine);
        machine.pinned = Ok((1, 100));
        let meta = started(&mut machine, Backend::Auto);
        assert_eq!(meta.backend, BackendKind::Inotify, "{stage:?}");
        assert!(machine.asks.contains(&SpawnAsk::CreateInstance));
    }
}

#[test]
fn a_root_that_cannot_be_had_is_refused() {
    let none = Spawn::new(config(Backend::Auto), Vec::new(), false);
    assert_eq!(
        none.state(),
        SpawnState::Failed { error: SourceError::NoRoots, started: false }
    );
    let mut machine = Machine::new();
    machine.canonical = Err(IoError::Plain(IoKind::NotFound));
    assert_eq!(
        failed(&mut machine, Backend::Auto).0,
        SourceError::RootUnavailable {
            root: RootRef::Supplied,
            source: IoError::Plain(IoKind::NotFound)
        }
    );
    let mut machine = Machine::new();
    machine.open_whole = Err(ENOENT);
    assert_eq!(failed(&mut machine, Backend::Auto).0, unavailable(IoError::Os(ENOENT)));
    let mut machine = Machine::new();
    machine.f_type = Ok(0x6969);
    assert_eq!(
        failed(&mut machine, Backend::Auto).0,
        unavailable(IoError::Refused(Refusal::NoReliableEvents))
    );
    let mut machine = Machine::new();
    assert_eq!(
        failed(&mut machine, Backend::Foreign).0,
        SourceError::ForeignBackend { requested: Backend::Foreign }
    );
    for err in [ENOSYS, EOPNOTSUPP, EACCES] {
        let mut machine = Machine::new();
        machine.statx = Err(err);
        assert_eq!(failed(&mut machine, Backend::Inotify).0, statx_gate_error(err));
    }
    assert_eq!(
        statx_gate_error(ENOSYS),
        unavailable(IoError::Refused(Refusal::NoStatx))
    );
    assert_eq!(statx_gate_error(EACCES), unavailable(IoError::Os(EACCES)));
    assert!(statx_unavailable(EOPNOTSUPP) && !statx_unavailable(EACCES));
}

#[test]
fn too_many_exclusions_are_refused_by_either_backend() {
    for backend in [Backend::Inotify, Backend::Fanotify, Backend::Auto] {
        let mut machine = Machine::new();
        let spawn = run(&mut machine, config(backend), 3);
        assert_eq!(
            spawn.state(),
            SpawnState::Failed {
                error: SourceError::TooManyExclusions { supplied: 3 },
                started: false
            }
        );
        let mut machine = Machine::new();
        assert_eq!(run(&mut machine, config(backend), 2).state(), SpawnState::Done);
    }
}

#[test]
fn a_root_that_was_replaced_is_not_watched_and_its_reader_is_stopped() {
    let cases: [(SourceError, fn(&mut Machine)); 5] = [
        (SourceError::RootReplaced, |m| m.pinned = Ok((1, 101))),
        (unavailable(IoError::Os(ENOENT)), |m| m.pinned = Err(ENOENT)),
        (SourceError::NotADirectory, |m| m.live = Ok((false, 1, 100))),
        (SourceError::RootReplaced, |m| m.live = Ok((true, 2, 100))),
        (unavailable(IoError::Plain(IoKind::NotFound)), |m| {
            m.live = Err(IoError::Plain(IoKind::NotFound))
        }),
    ];
    for (error, replace) in cases {
        for backend in [Backend::Inotify, Backend::Fanotify] {
            let mut machine = Machine::new();
            replace(&mut machine);
            assert_eq!(failed(&mut machine, backend), (error, true));
        }
    }
    let mut machine = Machine::new();
    machine.ancestor_error = Some(EACCES);
    assert_eq!(
        failed(&mut machine, Backend::Inotify),
        (
            SourceError::RootUnavailable {
                root: RootRef::Ancestor(1),
                source: IoError::Os(EACCES)
            },
            true
        )
    );
}

#[test]
fn a_fanotify_start_traces_its_path_in_one_walk_down() {
    let mut machine = Machine::new();
    let meta = started(&mut machine, Backend::Fanotify);
    assert_eq!(
        meta.ancestors,
        vec![RootIdentity::new(1, 3), RootIdentity::new(1, 2), RootIdentity::new(1, 1)],
        "the nearest first, as they were met on the way down"
    );
    assert_eq!(machine.opened_names, ["/false", "home:false", "user:false", "root:true"]);
    let traced = &machine.asks[machine.asks.len() - 8..];
    let names = |index, last| SpawnAsk::OpenName { index, last };
    assert_eq!(
        traced,
        [
            SpawnAsk::OpenAnchor { absolute: true, last: false },
            SpawnAsk::StatOpened,
            names(0, false),
            SpawnAsk::StatOpened,
            names(1, false),
            SpawnAsk::StatOpened,
            names(2, true),
            SpawnAsk::StatOpened,
        ]
    );

    let cases = [
        (Ok((1, 101)), SourceError::RootReplaced),
        (Ok((2, 100)), SourceError::RootReplaced),
        (Err(EACCES), unavailable(IoError::Os(EACCES))),
    ];
    for (reopened, error) in cases {
        let mut machine = Machine::new();
        machine.reopened = reopened;
        assert_eq!(failed(&mut machine, Backend::Fanotify), (error, true));
        let mut machine = Machine::new();
        machine.reopened = reopened;
        started(&mut machine, Backend::Inotify);
        assert_eq!(machine.ancestors, 3, "an inotify source arms its root by identity instead");
    }
}

#[test]
fn a_trace_that_breaks_off_names_the_directory_it_was_at() {
    let at = |i| SourceError::RootUnavailable {
        root: RootRef::Ancestor(i),
        source: IoError::Os(ENOENT),
    };
    for (depth, error) in
        [(0, at(2)), (1, at(1)), (2, at(0)), (3, unavailable(IoError::Os(ENOENT)))]
    {
        let opens = SpawnState::TraceOpen(depth);
        let stats = SpawnState::TraceStat(depth);
        for broken in [opens, stats] {
            let mut machine = Machine::new();
            let mut spawn = Spawn::new(config(Backend::Fanotify), Vec::new(), true);
            while spawn.ask() != SpawnAsk::Nothing {
                let ask = spawn.ask();
                let answer = if spawn.state() != broken {
                    machine.answer(ask, spawn.opening())
                } else if broken == opens {
                    SpawnAnswer::Opened(Err(ENOENT))
                } else {
                    SpawnAnswer::Stat(Err(ENOENT))
                };
                spawn.step(answer);
            }
            assert_eq!(spawn.state(), SpawnState::Failed { error, started: true });
        }
    }

    let mut machine = Machine::new();
    machine.canonical = Ok(b"/home/../root".to_vec());
    assert_eq!(
        failed(&mut machine, Backend::Fanotify),
        (unavailable(IoError::Os(EINVAL)), true)
    );
}

#[test]
fn a_start_that_fails_before_the_reader_has_none_to_stop() {
    let cases: [(SourceError, fn(&mut Machine)); 3] = [
        (SourceError::InstanceLimit, |m| m.created = Err(SourceError::InstanceLimit)),
        (SourceError::CreateFailed, |m| m.woken = Err(SourceError::CreateFailed)),
        (SourceError::StartFailed, |m| m.started = Err(SourceError::StartFailed)),
    ];
    for (error, break_it) in cases {
        let mut machine = Machine::new();
        break_it(&mut machine);
        assert_eq!(failed(&mut machine, Backend::Inotify), (error, false));
    }
}

#[test]
fn a_root_without_a_handle_or_an_identity_is_unavailable() {
    let mut machine = Machine::new();
    machine.handles[1] = None;
    assert_eq!(
        failed(&mut machine, Backend::Fanotify),
        (unavailable(IoError::Refused(Refusal::RootWithoutHandle)), false)
    );
    let mut machine = Machine::new();
    machine.handles[2] = None;
    assert_eq!(
        failed(&mut machine, Backend::Auto),
        (unavailable(IoError::Refused(Refusal::RootWithoutHandle)), false)
    );
    let mut machine = Machine::new();
    machine.fsid = Err(EINVAL);
    assert_eq!(
        failed(&mut machine, Backend::Fanotify),
        (unavailable(IoError::Os(EINVAL)), false)
    );
    let mut machine = Machine::new();
    machine.mount = Err(EINVAL);
    assert_eq!(
        failed(&mut machine, Backend::Inotify),
        (unavailable(IoError::Os(EINVAL)), false)
    );
}

#[test]
fn a_look_at_a_root_starts_nothing() {
    let mut machine = Machine::new();
    let look = SpawnConfig { resolve_only: true, ..config(Backend::Auto) };
    let meta = run(&mut machine, look, 9).into_meta().expect("the root is there");
    assert_eq!(meta.backend, BackendKind::Inotify);
    assert_eq!(meta.ancestors.len(), 3);
    for ask in [
        SpawnAsk::ProbeInit,
        SpawnAsk::CreateInstance,
        SpawnAsk::CreateWake,
        SpawnAsk::Start,
        SpawnAsk::Metadata,
    ] {
        assert!(!machine.asks.contains(&ask), "{ask:?}");
    }
}

#[test]
fn without_the_one_call_a_path_is_opened_name_by_name() {
    let mut machine = Machine::new();
    machine.open_whole = Err(ENOSYS);
    started(&mut machine, Backend::Inotify);
    assert_eq!(
        machine.opened_names[..4],
        ["/false", "home:false", "user:false", "root:true"]
    );
    assert_eq!(machine.opened_names[4..7], ["/false", "home:false", "user:true"]);
    assert_eq!(machine.opened_names[9..], ["/true"]);

    let mut odd = Opening::new(b"/a/../b");
    odd.step(SpawnAnswer::Opened(Err(ENOSYS)));
    assert_eq!(odd.ended(), Some(Err(EINVAL)));
    let mut relative = Opening::new(b"a");
    relative.step(SpawnAnswer::Opened(Err(ENOSYS)));
    assert_eq!(relative.ask(), SpawnAsk::OpenAnchor { absolute: false, last: false });
    relative.step(SpawnAnswer::Opened(Err(EACCES)));
    assert_eq!(relative.ended(), Some(Err(EACCES)));
}

#[test]
fn an_unreadable_mount_table_leaves_the_mounts_unknown() {
    let mut machine = Machine::new();
    machine.mounts = None;
    assert!(started(&mut machine, Backend::Inotify).mounts.is_empty());
}

#[test]
fn a_listing_with_an_entry_reaches_the_map() {
    let mut machine = Machine::new();
    let mut spawn = Spawn::new(config(Backend::Fanotify), Vec::new(), true);
    let mut listed = false;
    let mut inner = false;
    loop {
        let ask = spawn.ask();
        let answer = match ask {
            SpawnAsk::Nothing => break,
            SpawnAsk::Walk(WalkAsk::Next) if !listed => {
                listed = true;
                SpawnAnswer::Walked(WalkAnswer::Next(Listing::Entry {
                    name: b"sub".to_vec(),
                    advisory: Advisory::Directory,
                }))
            }
            SpawnAsk::Walk(WalkAsk::Parent) => SpawnAnswer::Walked(WalkAnswer::Parent(Ok(()))),
            SpawnAsk::Walk(WalkAsk::Open) => SpawnAnswer::Walked(WalkAnswer::Opened(Ok(()))),
            SpawnAsk::Walk(WalkAsk::Stat) => {
                SpawnAnswer::Walked(WalkAnswer::Stat(Ok((1, libc::S_IFDIR))))
            }
            SpawnAsk::Walk(WalkAsk::Mount) => {
                inner = true;
                SpawnAnswer::Walked(WalkAnswer::Mount(Ok((libc::STATX_MNT_ID, 42))))
            }
            SpawnAsk::Walk(WalkAsk::Handle) if inner => {
                SpawnAnswer::Walked(WalkAnswer::Handle(Some(vec![2])))
            }
            other => machine.answer(other, spawn.opening()),
        };
        spawn.step(answer);
    }
    assert_eq!(spawn.state(), SpawnState::Done);
    assert_eq!(spawn.seed().entries.len(), 2);
    assert_eq!(spawn.seed().entries[1].name, b"sub".to_vec());
}
