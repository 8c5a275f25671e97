//! Admission: what an event of the whole filesystem means for the watched root.
//!
//! An event belongs to the root if what it is about is in the map. Each such
//! event is given one action, and the map is changed as the action says. What
//! the kernel merged so that its order is lost, and what lacks a field that its
//! action needs, is a loss: the map is left alone, and is to be built anew.
//!
//! Exclusions stand ahead of all that. An event that names nothing outside them
//! is dropped and leaves the map alone, except that the root's own death is
//! always told, and that an event on a directory of the reported tree is not
//! lost just because it comes under an excluded name.

use vstd::prelude::*;

use crate::bytemap::ByteMap;
use crate::fanotify::event::{
    AdmittedEvent, AdmittedModel, FAN_CREATE, FAN_DELETE, FAN_DELETE_SELF, FAN_MOVE_SELF,
    FAN_ONDIR, FAN_RENAME, FanEventModel, FanMask, RawFanotifyEvent, RenameInfo, RenameModel,
    RenamePaths,
};
use crate::fanotify::fid::{Fid, FidModel, fid_view};
use crate::fanotify::map::{FidMap, MapModel, law_the_map_reaches_what_it_holds};
use crate::path::{at_or_under, copy_bytes, join, joined, starts_with, views};
use crate::scope::{excluded, is_excluded};

verus! {

/// The one thing that an event comes to.
#[derive(Clone, Copy, Debug, PartialEq, Eq, Structural)]
pub enum Action {
    /// It is told, and the map stays.
    Forward,
    /// A directory is new in the map.
    LearnDir,
    /// A directory is out of the map.
    ForgetDir,
    /// A rename is told. With `seed`, a directory has come in whose contents
    /// are to be walked.
    Rename { seed: bool },
    /// The root is gone.
    RootDeath,
    /// It is about nothing in the root.
    ForeignDrop,
    /// It is about nothing outside the exclusions.
    ExcludedDrop,
    /// What it means for the map cannot be told.
    Lossy,
}

/// What an event that is no rename is addressed by.
#[derive(Clone, Copy, Debug, PartialEq, Eq, Structural)]
pub enum Addressing {
    /// A name in a directory of the map.
    Dirent,
    /// A directory of the map itself.
    SelfObject { is_root: bool },
    /// Something outside the map.
    Foreign,
    /// Nothing at all.
    Unaddressable,
}

/// Whether the map has a path for the object.
pub open spec fn admitted(map: MapModel, fid: Option<FidModel>) -> bool {
    fid matches Some(f) && map.path_of(f.handle) is Some
}

/// The object that an event without a name is about.
pub open spec fn self_fid(event: FanEventModel) -> Option<FidModel> {
    if event.dir_fid is Some {
        event.dir_fid
    } else {
        event.target_fid
    }
}

/// The directory that an event is addressed by.
pub open spec fn addressed(event: FanEventModel) -> Option<FidModel> {
    if event.name is Some {
        event.dir_fid
    } else {
        self_fid(event)
    }
}

/// What an event that is no rename is addressed by.
pub open spec fn addressing_of(map: MapModel, event: FanEventModel) -> Addressing {
    match addressed(event) {
        None => Addressing::Unaddressable,
        Some(fid) => if !admitted(map, Some(fid)) {
            Addressing::Foreign
        } else if event.name is Some {
            Addressing::Dirent
        } else {
            Addressing::SelfObject { is_root: map.is_root(fid.handle) }
        },
    }
}

/// Whether anything the event carries is in the map.
pub open spec fn touches_root(map: MapModel, event: FanEventModel) -> bool {
    ||| admitted(map, event.dir_fid)
    ||| admitted(map, event.target_fid)
    ||| event.rename matches Some(r) && (admitted(map, Some(r.old_dir)) || admitted(
        map,
        Some(r.new_dir),
    ))
}

/// Whether no verb of the event can change the map: it is about a file's name
/// in a directory of the map.
pub open spec fn is_map_neutral(map: MapModel, event: FanEventModel) -> bool {
    &&& event.rename is None
    &&& event.name is Some
    &&& !event.mask.has(FAN_ONDIR)
    &&& !event.mask.has(FAN_RENAME)
    &&& !event.mask.has(FAN_DELETE_SELF)
    &&& !event.mask.has(FAN_MOVE_SELF)
    &&& admitted(map, event.dir_fid)
}

/// An action whose field is there, or else a loss.
pub open spec fn gated(present: bool, action: Action) -> Action {
    if present {
        action
    } else {
        Action::Lossy
    }
}

/// What comes of an event on a name in a directory of the map.
pub open spec fn action_on_name(event: FanEventModel) -> Action {
    if event.mask.has(FAN_ONDIR) && event.mask.has(FAN_CREATE) {
        gated(event.target_fid is Some, Action::LearnDir)
    } else if event.mask.has(FAN_ONDIR) && (event.mask.has(FAN_DELETE) || event.mask.has(
        FAN_MOVE_SELF,
    )) {
        gated(event.target_fid is Some, Action::ForgetDir)
    } else {
        Action::Forward
    }
}

/// What comes of an event on a directory of the map itself.
pub open spec fn action_on_self(mask: FanMask, is_root: bool) -> Action {
    if mask.has(FAN_DELETE_SELF) || mask.has(FAN_MOVE_SELF) {
        if is_root {
            Action::RootDeath
        } else if mask.has(FAN_DELETE_SELF) {
            Action::ForgetDir
        } else {
            Action::Forward
        }
    } else if mask.has(FAN_CREATE) || mask.has(FAN_DELETE) {
        Action::Lossy
    } else {
        Action::Forward
    }
}

/// Whether the mask tells of its object's end at its place.
pub open spec fn is_death(mask: FanMask) -> bool {
    mask.has(FAN_DELETE) || mask.has(FAN_DELETE_SELF) || mask.has(FAN_MOVE_SELF) || mask.has(
        FAN_RENAME,
    )
}

/// What comes of an event whose directories are all outside the map: it is the
/// root's own end, seen from the directory the root lies in, or a loss where it
/// carries something of the map, or nothing.
pub open spec fn action_from_outside(map: MapModel, event: FanEventModel) -> Action {
    if !admitted(map, event.target_fid) {
        Action::ForeignDrop
    } else if map.is_root(event.target_fid->0.handle) && is_death(event.mask) {
        Action::RootDeath
    } else {
        Action::Lossy
    }
}

/// What an event comes to where nothing is excluded.
pub open spec fn decided(map: MapModel, event: FanEventModel) -> Action {
    if event.mask.verbs() >= 2 && touches_root(map, event) && !is_map_neutral(map, event) {
        Action::Lossy
    } else {
        match event.rename {
            Some(r) => {
                let old_in = admitted(map, Some(r.old_dir));
                let new_in = admitted(map, Some(r.new_dir));
                if !old_in && !new_in {
                    action_from_outside(map, event)
                } else if event.mask.has(FAN_ONDIR) {
                    gated(
                        event.target_fid is Some,
                        Action::Rename {
                            seed: new_in && !map.holds(event.target_fid->0.handle),
                        },
                    )
                } else {
                    Action::Rename { seed: false }
                }
            },
            None => match addressing_of(map, event) {
                Addressing::Foreign | Addressing::Unaddressable => action_from_outside(map, event),
                Addressing::Dirent => action_on_name(event),
                Addressing::SelfObject { is_root } => action_on_self(event.mask, is_root),
            },
        }
    }
}

/// What an event comes to, with what is told of it.
#[derive(Debug, PartialEq, Eq)]
pub enum Admission {
    Forward(AdmittedEvent),
    LearnDir(AdmittedEvent),
    ForgetDir(AdmittedEvent),
    /// With the directory whose contents are to be walked, if there is one.
    Rename { event: AdmittedEvent, seed: Option<Fid> },
    RootDeath(AdmittedEvent),
    ForeignDrop,
    ExcludedDrop,
    Lossy,
}

/// What an `Admission` stands for.
pub enum AdmissionModel {
    Forward(AdmittedModel),
    LearnDir(AdmittedModel),
    ForgetDir(AdmittedModel),
    Rename(AdmittedModel, Option<FidModel>),
    RootDeath(AdmittedModel),
    ForeignDrop,
    ExcludedDrop,
    Lossy,
}

impl View for Admission {
    type V = AdmissionModel;

    open spec fn view(&self) -> AdmissionModel {
        match self {
            Admission::Forward(e) => AdmissionModel::Forward(e@),
            Admission::LearnDir(e) => AdmissionModel::LearnDir(e@),
            Admission::ForgetDir(e) => AdmissionModel::ForgetDir(e@),
            Admission::Rename { event, seed } => AdmissionModel::Rename(
                event@,
                fid_view(*seed),
            ),
            Admission::RootDeath(e) => AdmissionModel::RootDeath(e@),
            Admission::ForeignDrop => AdmissionModel::ForeignDrop,
            Admission::ExcludedDrop => AdmissionModel::ExcludedDrop,
            Admission::Lossy => AdmissionModel::Lossy,
        }
    }
}

impl AdmissionModel {
    /// The action.
    pub open spec fn action(self) -> Action {
        match self {
            AdmissionModel::Forward(_) => Action::Forward,
            AdmissionModel::LearnDir(_) => Action::LearnDir,
            AdmissionModel::ForgetDir(_) => Action::ForgetDir,
            AdmissionModel::Rename(_, seed) => Action::Rename { seed: seed is Some },
            AdmissionModel::RootDeath(_) => Action::RootDeath,
            AdmissionModel::ForeignDrop => Action::ForeignDrop,
            AdmissionModel::ExcludedDrop => Action::ExcludedDrop,
            AdmissionModel::Lossy => Action::Lossy,
        }
    }
}

/// The path of a name in a directory; the bare name where the directory is
/// outside the map.
pub open spec fn end_path(map: MapModel, dir: FidModel, name: Seq<u8>) -> Seq<u8> {
    match map.path_of(dir.handle) {
        Some(path) => joined(path, name),
        None => name,
    }
}

/// The path that an event that is no rename is about.
pub open spec fn subject(map: MapModel, event: FanEventModel) -> Seq<u8> {
    let dir = map.path_of(addressed(event)->0.handle)->0;
    match event.name {
        Some(name) => joined(dir, name),
        None => dir,
    }
}

/// Whether the name in the directory is in the map and not excluded.
pub open spec fn end_reported(
    map: MapModel,
    exclusions: Seq<Seq<u8>>,
    dir: FidModel,
    name: Seq<u8>,
) -> bool {
    admitted(map, Some(dir)) && !is_excluded(exclusions, end_path(map, dir, name))
}

/// Whether the event names a path of the reported tree.
pub open spec fn names_reported(
    map: MapModel,
    exclusions: Seq<Seq<u8>>,
    event: FanEventModel,
) -> bool {
    match event.rename {
        Some(r) => end_reported(map, exclusions, r.old_dir, r.old_name) || end_reported(
            map,
            exclusions,
            r.new_dir,
            r.new_name,
        ),
        None => admitted(map, addressed(event)) && !is_excluded(exclusions, subject(map, event)),
    }
}

/// Whether the event's target is a directory of the reported tree.
pub open spec fn carries_reported(
    map: MapModel,
    exclusions: Seq<Seq<u8>>,
    event: FanEventModel,
) -> bool {
    admitted(map, event.target_fid) && !is_excluded(
        exclusions,
        map.path_of(event.target_fid->0.handle)->0,
    )
}

/// Whether the exclusions stop the event: there are some, it is not the root's
/// end, and it names no path of the reported tree.
pub open spec fn is_fenced(
    map: MapModel,
    exclusions: Seq<Seq<u8>>,
    event: FanEventModel,
) -> bool {
    exclusions.len() > 0 && decided(map, event) != Action::RootDeath && !names_reported(
        map,
        exclusions,
        event,
    )
}

/// Whether an exclusion covers the path or lies at or beneath it.
pub open spec fn meets_exclusion(exclusions: Seq<Seq<u8>>, path: Seq<u8>) -> bool {
    is_excluded(exclusions, path) || exists|i: int|
        0 <= i < exclusions.len() && at_or_under(#[trigger] exclusions[i], path)
}

/// Whether what the exclusions hide beneath a directory may change as it moves.
pub open spec fn changes_fence(
    map: MapModel,
    exclusions: Seq<Seq<u8>>,
    r: RenameModel,
) -> bool {
    ||| admitted(map, Some(r.old_dir)) && meets_exclusion(
        exclusions,
        end_path(map, r.old_dir, r.old_name),
    )
    ||| meets_exclusion(exclusions, end_path(map, r.new_dir, r.new_name))
}

/// The map once the directory `moved` was renamed, and whether its contents are
/// to be walked. One that leaves the reported tree is forgotten, one that
/// enters it is learned and is to be walked, and one that moves within it moves
/// in the map; but where the exclusions may hide other parts of it than before,
/// it is forgotten and learned anew. A move that no tree allows is left aside.
pub open spec fn renamed(
    map: MapModel,
    exclusions: Seq<Seq<u8>>,
    r: RenameModel,
    moved: Seq<u8>,
) -> (MapModel, bool) {
    let p = r.new_dir.handle;
    if !end_reported(map, exclusions, r.new_dir, r.new_name) {
        (map.forgotten(moved), false)
    } else if !map.holds(moved) {
        (map.hung(moved, p, r.new_name, true), true)
    } else if !map.can_hang(moved, p) {
        (map, false)
    } else if changes_fence(map, exclusions, r) {
        (map.forgotten(moved).hung(moved, p, r.new_name, true), true)
    } else {
        (map.hung(moved, p, r.new_name, true), false)
    }
}

/// What is told of an event on one object.
pub open spec fn told(mask: FanMask, path: Seq<u8>) -> AdmittedModel {
    AdmittedModel { mask, path: Some(path), rename: None }
}

/// The mask under which the root's end is told where it was seen from outside:
/// that of an object's own deletion or move.
pub open spec fn death_mask(mask: FanMask) -> FanMask {
    if mask.has(FAN_DELETE) || mask.has(FAN_DELETE_SELF) {
        FanMask(FAN_DELETE_SELF | (mask.0 & FAN_ONDIR))
    } else {
        FanMask(FAN_MOVE_SELF | (mask.0 & FAN_ONDIR))
    }
}

/// What is told of the root's end: its own path.
pub open spec fn told_death(map: MapModel, event: FanEventModel) -> AdmittedModel {
    if event.rename is None && addressing_of(map, event) is SelfObject {
        told(event.mask, subject(map, event))
    } else {
        told(death_mask(event.mask), map.path_of(event.target_fid->0.handle)->0)
    }
}

/// What is told of a rename: the paths of both its ends.
pub open spec fn told_rename(map: MapModel, mask: FanMask, r: RenameModel) -> AdmittedModel {
    AdmittedModel {
        mask,
        path: None,
        rename: Some(
            (end_path(map, r.old_dir, r.old_name), end_path(map, r.new_dir, r.new_name)),
        ),
    }
}

/// The directory that an event takes out of the map.
pub open spec fn departed(event: FanEventModel) -> Seq<u8> {
    if event.name is Some {
        event.target_fid->0.handle
    } else {
        self_fid(event)->0.handle
    }
}

/// What an event comes to, and the map after it.
pub open spec fn classified(
    map: MapModel,
    exclusions: Seq<Seq<u8>>,
    event: FanEventModel,
) -> (AdmissionModel, MapModel) {
    if is_fenced(map, exclusions, event) {
        if carries_reported(map, exclusions, event) {
            (AdmissionModel::Lossy, map)
        } else {
            (AdmissionModel::ExcludedDrop, map)
        }
    } else {
        match decided(map, event) {
            Action::Forward => (
                AdmissionModel::Forward(told(event.mask, subject(map, event))),
                map,
            ),
            Action::LearnDir => (
                AdmissionModel::LearnDir(told(event.mask, subject(map, event))),
                map.hung(
                    event.target_fid->0.handle,
                    event.dir_fid->0.handle,
                    event.name->0,
                    false,
                ),
            ),
            Action::ForgetDir => (
                AdmissionModel::ForgetDir(told(event.mask, subject(map, event))),
                map.forgotten(departed(event)),
            ),
            Action::Rename { .. } => {
                let r = event.rename->0;
                if event.mask.has(FAN_ONDIR) {
                    let moved = event.target_fid->0;
                    let (after, seed) = renamed(map, exclusions, r, moved.handle);
                    (
                        AdmissionModel::Rename(
                            told_rename(map, event.mask, r),
                            if seed {
                                Some(moved)
                            } else {
                                None
                            },
                        ),
                        after,
                    )
                } else {
                    (AdmissionModel::Rename(told_rename(map, event.mask, r), None), map)
                }
            },
            Action::RootDeath => (AdmissionModel::RootDeath(told_death(map, event)), map),
            Action::ForeignDrop => (AdmissionModel::ForeignDrop, map),
            Action::ExcludedDrop => (AdmissionModel::ExcludedDrop, map),
            Action::Lossy => (AdmissionModel::Lossy, map),
        }
    }
}

/// The paths that were resolved while one buffer is read. They hold for one
/// generation of the map.
#[derive(Debug)]
pub struct MemoBatch {
    /// How often a path was at hand.
    pub hits: u64,
    /// How often a path had to be resolved.
    pub misses: u64,
    generation: u64,
    paths: ByteMap<Vec<u8>>,
}

/// What a `MemoBatch` stands for.
#[verifier::ext_equal]
pub struct MemoModel {
    pub hits: u64,
    pub misses: u64,
    pub generation: u64,
    pub paths: Map<Seq<u8>, Seq<u8>>,
}

impl View for MemoBatch {
    type V = MemoModel;

    closed spec fn view(&self) -> MemoModel {
        MemoModel {
            hits: self.hits,
            misses: self.misses,
            generation: self.generation,
            paths: self.paths@.map_values(|p: Vec<u8>| p@),
        }
    }
}

/// One more, as far as the count goes.
pub open spec fn one_more(count: u64) -> u64 {
    if count == u64::MAX {
        count
    } else {
        (count + 1) as u64
    }
}

impl MemoModel {
    /// Whether the paths at hand are those of the map, as long as they are of
    /// the map's generation.
    pub open spec fn sound(self, map: MapModel) -> bool {
        self.generation == map.generation ==> forall|h: Seq<u8>| #[trigger]
            self.paths.contains_key(h) ==> map.path_of(h) == Some(self.paths[h])
    }

    /// The paths at hand, as far as they are of this generation.
    pub open spec fn synced(self, generation: u64) -> MemoModel {
        if self.generation == generation {
            self
        } else {
            MemoModel { generation, paths: Map::empty(), ..self }
        }
    }

    /// The memo once the path of `h` was asked for.
    pub open spec fn asked(self, map: MapModel, h: Seq<u8>) -> MemoModel {
        if self.paths.contains_key(h) {
            MemoModel { hits: one_more(self.hits), ..self }
        } else {
            MemoModel {
                misses: one_more(self.misses),
                paths: match map.path_of(h) {
                    Some(path) => self.paths.insert(h, path),
                    None => self.paths,
                },
                ..self
            }
        }
    }

    /// The memo once an event was classified: the paths of its directories were
    /// asked for.
    pub open spec fn after(self, map: MapModel, event: FanEventModel) -> MemoModel {
        let memo = self.synced(map.generation);
        match event.rename {
            Some(r) => memo.asked(map, r.old_dir.handle).asked(map, r.new_dir.handle),
            None => match addressed(event) {
                Some(fid) => memo.asked(map, fid.handle),
                None => memo,
            },
        }
    }
}

impl MemoBatch {
    /// The memo's invariant.
    pub closed spec fn wf(&self) -> bool {
        self.paths.wf()
    }

    /// A memo with nothing in it.
    pub fn new() -> (r: MemoBatch)
        ensures
            r.wf(),
            r@ == (MemoModel { hits: 0, misses: 0, generation: 0, paths: Map::empty() }),
            forall|map: MapModel| r@.sound(map),
    {
        let r = MemoBatch { hits: 0, misses: 0, generation: 0, paths: ByteMap::new() };
        assert(r@.paths =~= Map::empty());
        r
    }

    /// Drops the paths of another generation.
    fn sync(&mut self, generation: u64)
        requires
            old(self).wf(),
        ensures
            final(self).wf(),
            final(self)@ == old(self)@.synced(generation),
    {
        if self.generation != generation {
            self.generation = generation;
            self.paths = ByteMap::new();
            assert(self@.paths =~= Map::empty());
        }
    }

    /// The path of a directory, at hand or resolved.
    fn resolve(&mut self, map: &FidMap, fid: &Fid) -> (r: Option<Vec<u8>>)
        requires
            old(self).wf(),
            map.wf(),
            old(self)@.sound(map@),
            old(self)@.generation == map@.generation,
        ensures
            final(self).wf(),
            final(self)@ == old(self)@.asked(map@, fid@.handle),
            final(self)@.sound(map@),
            final(self)@.generation == map@.generation,
            match r {
                Some(path) => map@.path_of(fid@.handle) == Some(path@),
                None => map@.path_of(fid@.handle) is None,
            },
    {
        let held = match self.paths.get(fid.handle()) {
            Some(path) => Some(copy_bytes(path.as_slice())),
            None => None,
        };
        if let Some(path) = held {
            assert(self@.paths.contains_key(fid@.handle));
            if self.hits < u64::MAX {
                self.hits = self.hits + 1;
            }
            return Some(path);
        }
        if self.misses < u64::MAX {
            self.misses = self.misses + 1;
        }
        match map.resolve_path(fid) {
            Some(path) => {
                let copy = copy_bytes(path.as_slice());
                self.paths.insert(fid.handle(), copy);
                assert(self@.paths =~= old(self)@.paths.insert(fid@.handle, path@));
                Some(path)
            },
            None => None,
        }
    }
}

/// Whether the map has a path for the object.
fn is_admitted(map: &FidMap, fid: &Option<Fid>) -> (r: bool)
    requires
        map.wf(),
    ensures
        r == admitted(map@, fid_view(*fid)),
{
    match fid {
        Some(f) => map.resolve_path(f).is_some(),
        None => false,
    }
}

/// What an event that is no rename is addressed by.
pub fn addressing(map: &FidMap, event: &RawFanotifyEvent) -> (r: Addressing)
    requires
        map.wf(),
    ensures
        r == addressing_of(map@, event@),
{
    let fid = if event.name.is_some() || event.dir_fid.is_some() {
        &event.dir_fid
    } else {
        &event.target_fid
    };
    match fid {
        None => Addressing::Unaddressable,
        Some(f) => if !map.contains(f) {
            proof {
                lemma_admitted_is_held(map, f@);
            }
            Addressing::Foreign
        } else {
            proof {
                lemma_admitted_is_held(map, f@);
            }
            if event.name.is_some() {
                Addressing::Dirent
            } else {
                Addressing::SelfObject { is_root: map.is_root(f) }
            }
        },
    }
}

/// The map has a path for exactly what it holds.
proof fn lemma_admitted_is_held(map: &FidMap, fid: FidModel)
    requires
        map.wf(),
    ensures
        admitted(map@, Some(fid)) <==> map@.holds(fid.handle),
{
    map.lemma_wf();
    law_the_map_reaches_what_it_holds(map@, fid.handle);
}

/// Whether anything the event carries is in the map.
pub fn addressing_admitted(map: &FidMap, event: &RawFanotifyEvent) -> (r: bool)
    requires
        map.wf(),
    ensures
        r == touches_root(map@, event@),
{
    if is_admitted(map, &event.dir_fid) || is_admitted(map, &event.target_fid) {
        return true;
    }
    match &event.rename {
        Some(r) => map.resolve_path(&r.old_dir).is_some() || map.resolve_path(
            &r.new_dir,
        ).is_some(),
        None => false,
    }
}

/// Whether no verb of the event can change the map.
pub fn map_neutral_merge(map: &FidMap, event: &RawFanotifyEvent) -> (r: bool)
    requires
        map.wf(),
    ensures
        r == is_map_neutral(map@, event@),
{
    event.rename.is_none() && event.name.is_some() && !event.mask.ondir() && !event.mask.rename()
        && !event.mask.delete_self() && !event.mask.move_self() && is_admitted(map, &event.dir_fid)
}

/// An action whose field is there, or else a loss.
pub fn field_gated(present: bool, action: Action) -> (r: Action)
    ensures
        r == gated(present, action),
{
    if present {
        action
    } else {
        Action::Lossy
    }
}

/// What comes of an event on a name in a directory of the map.
pub fn dirent_action(event: &RawFanotifyEvent) -> (r: Action)
    ensures
        r == action_on_name(event@),
{
    if event.mask.ondir() {
        if event.mask.created() {
            return field_gated(event.target_fid.is_some(), Action::LearnDir);
        }
        if event.mask.removed() || event.mask.move_self() {
            return field_gated(event.target_fid.is_some(), Action::ForgetDir);
        }
    }
    Action::Forward
}

/// What comes of an event on a directory of the map itself.
pub fn nameless_action(event: &RawFanotifyEvent, is_root: bool) -> (r: Action)
    ensures
        r == action_on_self(event@.mask, is_root),
{
    let mask = event.mask;
    if mask.delete_self() || mask.move_self() {
        if is_root {
            return Action::RootDeath;
        }
        return if mask.delete_self() {
            Action::ForgetDir
        } else {
            Action::Forward
        };
    }
    if mask.created() || mask.removed() {
        return Action::Lossy;
    }
    Action::Forward
}

/// Whether the mask tells of its object's end at its place.
pub fn root_death_verb(mask: FanMask) -> (r: bool)
    ensures
        r == is_death(mask),
{
    mask.removed() || mask.delete_self() || mask.move_self() || mask.rename()
}

/// What comes of an event whose directories are all outside the map.
pub fn foreign_parent_action(map: &FidMap, event: &RawFanotifyEvent) -> (r: Action)
    requires
        map.wf(),
    ensures
        r == action_from_outside(map@, event@),
{
    match &event.target_fid {
        Some(target) => if map.resolve_path(target).is_none() {
            Action::ForeignDrop
        } else if map.is_root(target) && root_death_verb(event.mask) {
            Action::RootDeath
        } else {
            Action::Lossy
        },
        None => Action::ForeignDrop,
    }
}

/// What an event comes to where nothing is excluded.
pub fn decide(map: &FidMap, event: &RawFanotifyEvent) -> (r: Action)
    requires
        map.wf(),
    ensures
        r == decided(map@, event@),
{
    if event.mask.multi_structural() && addressing_admitted(map, event) && !map_neutral_merge(
        map,
        event,
    ) {
        return Action::Lossy;
    }
    match &event.rename {
        Some(rename) => {
            let old_in = map.resolve_path(&rename.old_dir).is_some();
            let new_in = map.resolve_path(&rename.new_dir).is_some();
            if !old_in && !new_in {
                return foreign_parent_action(map, event);
            }
            if !event.mask.ondir() {
                return Action::Rename { seed: false };
            }
            match &event.target_fid {
                Some(moved) => Action::Rename { seed: new_in && !map.contains(moved) },
                None => Action::Lossy,
            }
        },
        None => match addressing(map, event) {
            Addressing::Foreign | Addressing::Unaddressable => foreign_parent_action(map, event),
            Addressing::Dirent => dirent_action(event),
            Addressing::SelfObject { is_root } => nameless_action(event, is_root),
        },
    }
}

/// Whether an exclusion covers the path or lies at or beneath it.
fn meets(exclusions: &Vec<Vec<u8>>, path: &[u8]) -> (r: bool)
    ensures
        r == meets_exclusion(views(exclusions@), path@),
{
    if excluded(exclusions, path) {
        return true;
    }
    let mut i: usize = 0;
    while i < exclusions.len()
        invariant
            i <= exclusions@.len(),
            forall|j: int| 0 <= j < i ==> !at_or_under(#[trigger] views(exclusions@)[j], path@),
        decreases exclusions@.len() - i,
    {
        if starts_with(exclusions[i].as_slice(), path) {
            assert(at_or_under(views(exclusions@)[i as int], path@));
            return true;
        }
        i = i + 1;
    }
    false
}

/// The path of a name in a directory that was resolved.
fn path_of_end(dir: &Option<Vec<u8>>, name: &[u8]) -> (r: Vec<u8>)
    ensures
        r@ == match dir {
            Some(path) => joined(path@, name@),
            None => name@,
        },
{
    match dir {
        Some(path) => join(path.as_slice(), name),
        None => copy_bytes(name),
    }
}

/// What becomes of an event that the exclusions stop.
fn fence(map: &FidMap, event: &RawFanotifyEvent, exclusions: &Vec<Vec<u8>>) -> (r: Admission)
    requires
        map.wf(),
    ensures
        r@ == (if carries_reported(map@, views(exclusions@), event@) {
            AdmissionModel::Lossy
        } else {
            AdmissionModel::ExcludedDrop
        }),
{
    match &event.target_fid {
        Some(target) => match map.resolve_path(target) {
            Some(path) => if excluded(exclusions, path.as_slice()) {
                Admission::ExcludedDrop
            } else {
                Admission::Lossy
            },
            None => Admission::ExcludedDrop,
        },
        None => Admission::ExcludedDrop,
    }
}

/// What is told of an event on one object.
fn tell(mask: FanMask, path: Vec<u8>) -> (r: AdmittedEvent)
    ensures
        r@ == told(mask, path@),
{
    AdmittedEvent { mask, path: Some(path), rename: None }
}

/// What is told of the root's end, seen from outside.
fn tell_death(map: &FidMap, event: &RawFanotifyEvent) -> (r: Admission)
    requires
        map.wf(),
        admitted(map@, event@.target_fid),
    ensures
        r@ == AdmissionModel::RootDeath(
            told(death_mask(event@.mask), map@.path_of(event@.target_fid->0.handle)->0),
        ),
{
    let path = match &event.target_fid {
        Some(target) => match map.resolve_path(target) {
            Some(path) => path,
            None => Vec::new(),
        },
        None => Vec::new(),
    };
    let mask = if event.mask.removed() || event.mask.delete_self() {
        FanMask(FAN_DELETE_SELF | (event.mask.0 & FAN_ONDIR))
    } else {
        FanMask(FAN_MOVE_SELF | (event.mask.0 & FAN_ONDIR))
    };
    Admission::RootDeath(tell(mask, path))
}

/// Changes the map for the rename of the directory `moved`, and says whether
/// its contents are to be walked.
fn move_dir(
    map: &mut FidMap,
    rename: &RenameInfo,
    old_path: &[u8],
    old_in: bool,
    new_path: &[u8],
    new_in: bool,
    moved: &Fid,
    exclusions: &Vec<Vec<u8>>,
) -> (seed: bool)
    requires
        old(map).wf(),
        old_in == admitted(old(map)@, Some(rename@.old_dir)),
        new_in == admitted(old(map)@, Some(rename@.new_dir)),
        old_path@ == end_path(old(map)@, rename@.old_dir, rename@.old_name),
        new_path@ == end_path(old(map)@, rename@.new_dir, rename@.new_name),
    ensures
        final(map).wf(),
        (final(map)@, seed) == renamed(
            old(map)@,
            views(exclusions@),
            rename@,
            moved@.handle,
        ),
{
    if !new_in || excluded(exclusions, new_path) {
        map.forget(moved.handle());
        return false;
    }
    let parent = rename.new_dir.handle();
    let name = rename.new_name.as_slice();
    if !map.contains(moved) {
        map.hang(moved.handle(), parent, name, true);
        return true;
    }
    if !map.takes(moved.handle(), parent) {
        return false;
    }
    let relearn = (old_in && meets(exclusions, old_path)) || meets(exclusions, new_path);
    if relearn {
        map.forget(moved.handle());
    }
    map.hang(moved.handle(), parent, name, true);
    relearn
}

/// Classifies a rename whose directories were resolved.
fn classify_rename(
    map: &mut FidMap,
    event: &RawFanotifyEvent,
    rename: &RenameInfo,
    old_dir: Option<Vec<u8>>,
    new_dir: Option<Vec<u8>>,
    exclusions: &Vec<Vec<u8>>,
) -> (r: Admission)
    requires
        old(map).wf(),
        event@.rename == Some(rename@),
        match old_dir {
            Some(path) => old(map)@.path_of(rename@.old_dir.handle) == Some(path@),
            None => old(map)@.path_of(rename@.old_dir.handle) is None,
        },
        match new_dir {
            Some(path) => old(map)@.path_of(rename@.new_dir.handle) == Some(path@),
            None => old(map)@.path_of(rename@.new_dir.handle) is None,
        },
    ensures
        final(map).wf(),
        (r@, final(map)@) == classified(old(map)@, views(exclusions@), event@),
{
    let action = decide(map, event);
    let old_path = path_of_end(&old_dir, rename.old_name.as_slice());
    let new_path = path_of_end(&new_dir, rename.new_name.as_slice());
    let old_in = old_dir.is_some();
    let new_in = new_dir.is_some();
    if exclusions.len() > 0 && action != Action::RootDeath {
        let reported = (old_in && !excluded(exclusions, old_path.as_slice())) || (new_in
            && !excluded(exclusions, new_path.as_slice()));
        if !reported {
            return fence(map, event, exclusions);
        }
    }
    assert(!is_fenced(map@, views(exclusions@), event@));
    match action {
        Action::Rename { .. } => {
            let seed: Option<Fid> = if event.mask.ondir() {
                match &event.target_fid {
                    Some(moved) => {
                        let owed = move_dir(
                            map,
                            rename,
                            old_path.as_slice(),
                            old_in,
                            new_path.as_slice(),
                            new_in,
                            moved,
                            exclusions,
                        );
                        if owed {
                            Some(moved.copy())
                        } else {
                            None
                        }
                    },
                    None => None,
                }
            } else {
                None
            };
            let told = AdmittedEvent {
                mask: event.mask,
                path: None,
                rename: Some(RenamePaths { old_path, new_path }),
            };
            Admission::Rename { event: told, seed }
        },
        Action::RootDeath => tell_death(map, event),
        Action::ForeignDrop => Admission::ForeignDrop,
        _ => Admission::Lossy,
    }
}

/// Classifies an event that is no rename and whose directory was resolved.
fn classify_single(
    map: &mut FidMap,
    event: &RawFanotifyEvent,
    dir: Option<Vec<u8>>,
    exclusions: &Vec<Vec<u8>>,
) -> (r: Admission)
    requires
        old(map).wf(),
        event@.rename is None,
        match dir {
            Some(path) => addressed(event@) matches Some(fid) && old(map)@.path_of(fid.handle)
                == Some(path@),
            None => !admitted(old(map)@, addressed(event@)),
        },
    ensures
        final(map).wf(),
        (r@, final(map)@) == classified(old(map)@, views(exclusions@), event@),
{
    let action = decide(map, event);
    let path: Option<Vec<u8>> = match dir {
        Some(dir) => match &event.name {
            Some(name) => Some(join(dir.as_slice(), name.as_slice())),
            None => Some(dir),
        },
        None => None,
    };
    if exclusions.len() > 0 && action != Action::RootDeath {
        let reported = match &path {
            Some(path) => !excluded(exclusions, path.as_slice()),
            None => false,
        };
        if !reported {
            return fence(map, event, exclusions);
        }
    }
    assert(!is_fenced(map@, views(exclusions@), event@));
    match action {
        Action::ForeignDrop => {
            return Admission::ForeignDrop;
        },
        Action::Lossy => {
            return Admission::Lossy;
        },
        Action::RootDeath => {
            return match (path, &event.name) {
                (Some(path), None) => Admission::RootDeath(tell(event.mask, path)),
                _ => tell_death(map, event),
            };
        },
        _ => {},
    }
    let path = match path {
        Some(path) => path,
        None => {
            assert(false);
            return Admission::Lossy;
        },
    };
    let told = tell(event.mask, path);
    match (action, &event.dir_fid, &event.target_fid, &event.name) {
        (Action::LearnDir, Some(dir), Some(target), Some(name)) => {
            map.hang(target.handle(), dir.handle(), name.as_slice(), false);
            Admission::LearnDir(told)
        },
        (Action::ForgetDir, _, Some(target), Some(_)) => {
            map.forget(target.handle());
            Admission::ForgetDir(told)
        },
        (Action::ForgetDir, Some(own), _, None) => {
            map.forget(own.handle());
            Admission::ForgetDir(told)
        },
        (Action::ForgetDir, None, Some(own), None) => {
            map.forget(own.handle());
            Admission::ForgetDir(told)
        },
        _ => Admission::Forward(told),
    }
}

/// Classifies one event, and changes the map as its action says. `memo` holds
/// the paths resolved while one buffer is read.
pub fn classify(
    map: &mut FidMap,
    event: &RawFanotifyEvent,
    memo: &mut MemoBatch,
    exclusions: &Vec<Vec<u8>>,
) -> (r: Admission)
    requires
        old(map).wf(),
        old(memo).wf(),
        old(memo)@.sound(old(map)@),
    ensures
        final(map).wf(),
        final(memo).wf(),
        (r@, final(map)@) == classified(old(map)@, views(exclusions@), event@),
        final(memo)@ == old(memo)@.after(old(map)@, event@),
        final(memo)@.sound(final(map)@),
{
    memo.sync(map.generation());
    proof {
        lemma_change_shows(map@, views(exclusions@), event@);
    }
    match &event.rename {
        Some(rename) => {
            let old_dir = memo.resolve(map, &rename.old_dir);
            let new_dir = memo.resolve(map, &rename.new_dir);
            classify_rename(map, event, rename, old_dir, new_dir, exclusions)
        },
        None => {
            let dir = match (&event.name, &event.dir_fid, &event.target_fid) {
                (_, Some(dir), _) => memo.resolve(map, dir),
                (None, None, Some(target)) => memo.resolve(map, target),
                _ => None,
            };
            classify_single(map, event, dir, exclusions)
        },
    }
}

/// An event that changes the map changes its generation.
proof fn lemma_change_shows(map: MapModel, exclusions: Seq<Seq<u8>>, event: FanEventModel)
    ensures
        classified(map, exclusions, event).1 == map || classified(
            map,
            exclusions,
            event,
        ).1.generation != map.generation,
{
    if let Some(r) = event.rename {
        let moved = event.target_fid->0.handle;
        assert(renamed(map, exclusions, r, moved).0 == map || renamed(
            map,
            exclusions,
            r,
            moved,
        ).0.generation != map.generation);
    }
}

} // verus!
