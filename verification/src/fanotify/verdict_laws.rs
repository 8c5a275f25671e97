//! What each kind of event comes to: what is told of it, and what it does to the
//! map. The kinds are told apart by the bits that the kernel sets.

use vstd::prelude::*;

use crate::fanotify::admission::{AdmissionModel, classified, meets_exclusion};
use crate::fanotify::admission_laws::lemma_hangable_is_no_root;
use crate::fanotify::event::{FanEventModel, FanMask};
use crate::fanotify::fid::FidModel;
use crate::fanotify::map::{
    MapModel, law_forgetting_keeps_the_invariant, law_forgetting_prunes_one_subtree,
    law_hanging_moves_one_subtree,
    law_nothing_lies_in_what_is_not_held, law_the_map_reaches_what_it_holds, lies_in,
};
use crate::path::{at_or_under, joined};
use crate::scope::is_excluded;

verus! {

/// A directory entry was created.
pub open spec fn creates(mask: FanMask) -> bool {
    mask.0 & 0x100 != 0
}

/// A directory entry was removed.
pub open spec fn removes(mask: FanMask) -> bool {
    mask.0 & 0x200 != 0
}

/// The object itself was deleted.
pub open spec fn deletes_itself(mask: FanMask) -> bool {
    mask.0 & 0x400 != 0
}

/// The object itself was moved.
pub open spec fn moves_itself(mask: FanMask) -> bool {
    mask.0 & 0x800 != 0
}

/// A directory entry was renamed.
pub open spec fn renames(mask: FanMask) -> bool {
    mask.0 & 0x1000_0000 != 0
}

/// The event is about a directory.
pub open spec fn is_on_directory(mask: FanMask) -> bool {
    mask.0 & 0x4000_0000 != 0
}

/// Whether the mask tells of no change of the tree.
pub open spec fn changes_nothing(mask: FanMask) -> bool {
    !creates(mask) && !removes(mask) && !deletes_itself(mask) && !moves_itself(mask) && !renames(
        mask,
    )
}

/// Whether the mask tells of two changes of the tree at least.
pub open spec fn is_merged(mask: FanMask) -> bool {
    ||| creates(mask) && (removes(mask) || deletes_itself(mask) || moves_itself(mask) || renames(
        mask,
    ))
    ||| removes(mask) && (deletes_itself(mask) || moves_itself(mask) || renames(mask))
    ||| deletes_itself(mask) && (moves_itself(mask) || renames(mask))
    ||| moves_itself(mask) && renames(mask)
}

/// Whether the map holds the object.
pub open spec fn is_held(map: MapModel, fid: Option<FidModel>) -> bool {
    fid matches Some(f) && map.holds(f.handle)
}

/// Where a name in a directory lies; where the map does not hold the directory,
/// the name is all that is known.
pub open spec fn place(map: MapModel, dir: FidModel, name: Seq<u8>) -> Seq<u8> {
    if map.holds(dir.handle) {
        joined(map.path_of(dir.handle)->0, name)
    } else {
        name
    }
}

/// Whether the event is on the name in the directory, and no rename.
pub open spec fn is_on_name(event: FanEventModel, dir: FidModel, name: Seq<u8>) -> bool {
    event.rename is None && event.dir_fid == Some(dir) && event.name == Some(name)
}

/// Whether the event is on the object itself, and no rename.
pub open spec fn is_on_object(event: FanEventModel, own: FidModel) -> bool {
    &&& event.rename is None
    &&& event.name is None
    &&& event.dir_fid == Some(own) || (event.dir_fid is None && event.target_fid == Some(own))
}

/// Whether the event comes from outside the map: the directories that it is
/// addressed by, if any, are not held.
pub open spec fn is_from_outside(map: MapModel, event: FanEventModel) -> bool {
    match event.rename {
        Some(r) => !map.holds(r.old_dir.handle) && !map.holds(r.new_dir.handle),
        None => match (event.name, event.dir_fid) {
            (_, Some(dir)) => !map.holds(dir.handle),
            (Some(_), None) => true,
            (None, None) => !is_held(map, event.target_fid),
        },
    }
}

/// Whether the name in the directory is watched: the map holds the directory, and
/// no exclusion covers the place.
pub open spec fn is_watched(
    map: MapModel,
    exclusions: Seq<Seq<u8>>,
    dir: FidModel,
    name: Seq<u8>,
) -> bool {
    map.holds(dir.handle) && !is_excluded(exclusions, place(map, dir, name))
}

/// Whether `after` is the map with the directory hung at the name in `dir`, and
/// nothing else changed.
pub open spec fn is_hung_in(
    map: MapModel,
    after: MapModel,
    h: Seq<u8>,
    dir: FidModel,
    name: Seq<u8>,
) -> bool {
    &&& after.path_of(h) == Some(place(map, dir, name))
    &&& forall|k: Seq<u8>| #[trigger] after.holds(k) <==> map.holds(k) || k == h
    &&& forall|k: Seq<u8>| map.holds(k) && k != h ==> #[trigger] after.nodes[k] == map.nodes[k]
    &&& forall|k: Seq<u8>|
        map.holds(k) && !lies_in(map.nodes, k, h) ==> #[trigger] after.path_of(k) == map.path_of(
            k,
        )
}

/// Whether `after` is the map without the directory and all that is beneath it,
/// and nothing else changed. The root stays.
pub open spec fn is_pruned_of(map: MapModel, after: MapModel, h: Seq<u8>) -> bool {
    if map.holds(h) && !map.is_root(h) {
        &&& !after.holds(h)
        &&& forall|k: Seq<u8>| #[trigger]
            after.holds(k) <==> map.holds(k) && !lies_in(map.nodes, k, h)
        &&& forall|k: Seq<u8>| after.holds(k) ==> #[trigger] after.nodes[k] == map.nodes[k]
        &&& forall|k: Seq<u8>| after.holds(k) ==> #[trigger] after.path_of(k) == map.path_of(k)
    } else {
        after == map
    }
}

proof fn lemma_reached(map: MapModel)
    requires
        map.wf(),
    ensures
        forall|h: Seq<u8>| #[trigger] map.path_of(h) is Some <==> map.holds(h),
{
    assert forall|h: Seq<u8>| #[trigger] map.path_of(h) is Some <==> map.holds(h) by {
        law_the_map_reaches_what_it_holds(map, h);
    }
}

pub(crate) proof fn lemma_hung(
    map: MapModel,
    h: Seq<u8>,
    dir: FidModel,
    name: Seq<u8>,
    pending: bool,
)
    requires
        map.wf(),
        map.holds(dir.handle),
        !lies_in(map.nodes, dir.handle, h),
    ensures
        is_hung_in(map, map.hung(h, dir.handle, name, pending), h, dir, name),
{
    let after = map.hung(h, dir.handle, name, pending);
    assert forall|k: Seq<u8>| #[trigger] after.holds(k) <==> map.holds(k) || k == h by {
        law_hanging_moves_one_subtree(map, h, dir.handle, name, pending, k);
    }
    assert forall|k: Seq<u8>| map.holds(k) && !lies_in(map.nodes, k, h) implies
        #[trigger] after.path_of(k) == map.path_of(k) by {
        law_hanging_moves_one_subtree(map, h, dir.handle, name, pending, k);
    }
    law_hanging_moves_one_subtree(map, h, dir.handle, name, pending, h);
}

proof fn lemma_pruned(map: MapModel, h: Seq<u8>)
    requires
        map.wf(),
    ensures
        is_pruned_of(map, map.forgotten(h), h),
{
    if map.holds(h) && !map.is_root(h) {
        let after = map.forgotten(h);
        assert forall|k: Seq<u8>| #[trigger] after.holds(k) <==> map.holds(k) && !lies_in(
            map.nodes,
            k,
            h,
        ) by {
            law_forgetting_prunes_one_subtree(map, h, k);
        }
        assert forall|k: Seq<u8>| after.holds(k) implies #[trigger] after.path_of(k)
            == map.path_of(k) by {
            law_forgetting_prunes_one_subtree(map, h, k);
        }
        law_forgetting_prunes_one_subtree(map, h, h);
    }
}

/// What is told of an event is what happened, where it happened. The mask is the
/// event's own. The path is that of the name in its directory or, of an event
/// without a name, that of the directory itself; of a rename, both ends are told,
/// the old one first. The root's end is told at the root's path, and where it was
/// seen from outside the map, as the root's own deletion or move.
pub proof fn law_what_is_told_is_what_happened(
    map: MapModel,
    exclusions: Seq<Seq<u8>>,
    event: FanEventModel,
)
    requires
        map.wf(),
    ensures
        match classified(map, exclusions, event).0 {
            AdmissionModel::Forward(e)
            | AdmissionModel::LearnDir(e)
            | AdmissionModel::ForgetDir(e) => {
                &&& e.mask == event.mask
                &&& event.rename is None && e.rename is None
                &&& match event.name {
                    Some(name) => is_held(map, event.dir_fid) && e.path == Some(
                        place(map, event.dir_fid->0, name),
                    ),
                    None => {
                        let own = if event.dir_fid is Some {
                            event.dir_fid
                        } else {
                            event.target_fid
                        };
                        is_held(map, own) && e.path == map.path_of(own->0.handle)
                    },
                }
            },
            AdmissionModel::Rename(e, _) => {
                &&& e.mask == event.mask
                &&& e.path is None
                &&& event.rename matches Some(r)
                &&& e.rename == Some(
                    (place(map, r.old_dir, r.old_name), place(map, r.new_dir, r.new_name)),
                )
            },
            AdmissionModel::RootDeath(e) => {
                &&& e.rename is None
                &&& if is_from_outside(map, event) {
                    &&& event.target_fid matches Some(root)
                    &&& map.is_root(root.handle)
                    &&& e.path == map.path_of(root.handle)
                    &&& e.mask.0 == (if removes(event.mask) || deletes_itself(event.mask) {
                        0x400u64
                    } else {
                        0x800u64
                    }) | (event.mask.0 & 0x4000_0000)
                } else {
                    &&& event.rename is None && event.name is None
                    &&& match event.dir_fid {
                        Some(dir) => map.is_root(dir.handle) && e.path == map.path_of(dir.handle),
                        None => event.target_fid matches Some(target) && map.is_root(
                            target.handle,
                        ) && e.path == map.path_of(target.handle),
                    }
                    &&& e.mask == event.mask
                }
            },
            _ => true,
        },
{
    lemma_reached(map);
}

/// An event on a watched file's name is told, and leaves the map alone, whatever
/// the kernel merged into it that is about names.
pub proof fn law_a_file_is_told_of(
    map: MapModel,
    exclusions: Seq<Seq<u8>>,
    event: FanEventModel,
    dir: FidModel,
    name: Seq<u8>,
)
    requires
        map.wf(),
        is_on_name(event, dir, name),
        is_watched(map, exclusions, dir, name),
        !is_on_directory(event.mask),
        is_merged(event.mask) ==> !deletes_itself(event.mask) && !moves_itself(event.mask)
            && !renames(event.mask),
    ensures
        classified(map, exclusions, event).0 is Forward,
        classified(map, exclusions, event).1 == map,
{
    lemma_reached(map);
}

/// A directory that is created in a watched one is told and learned: the map holds
/// it at its name, with nothing beneath it still to be walked, and all else as
/// before. One that the directory lies in itself is not moved. Where the kernel
/// does not say which object it is, that is a loss.
pub proof fn law_a_new_directory_is_learned(
    map: MapModel,
    exclusions: Seq<Seq<u8>>,
    event: FanEventModel,
    dir: FidModel,
    name: Seq<u8>,
)
    requires
        map.wf(),
        is_on_name(event, dir, name),
        is_watched(map, exclusions, dir, name),
        is_on_directory(event.mask),
        creates(event.mask),
        !is_merged(event.mask),
    ensures
        ({
            let (admission, after) = classified(map, exclusions, event);
            match event.target_fid {
                Some(new) => {
                    &&& admission is LearnDir
                    &&& if lies_in(map.nodes, dir.handle, new.handle) {
                        after == map
                    } else {
                        &&& is_hung_in(map, after, new.handle, dir, name)
                        &&& !map.holds(new.handle) ==> !after.nodes[new.handle].pending
                    }
                },
                None => admission is Lossy && after == map,
            }
        }),
{
    lemma_reached(map);
    if let Some(new) = event.target_fid {
        if !lies_in(map.nodes, dir.handle, new.handle) {
            lemma_hung(map, new.handle, dir, name, false);
        }
    }
}

/// A directory that is removed from a watched one, or that is moved away there, is
/// told and forgotten with all that is beneath it. Where the kernel does not say
/// which object it is, that is a loss.
pub proof fn law_a_removed_directory_is_forgotten(
    map: MapModel,
    exclusions: Seq<Seq<u8>>,
    event: FanEventModel,
    dir: FidModel,
    name: Seq<u8>,
)
    requires
        map.wf(),
        is_on_name(event, dir, name),
        is_watched(map, exclusions, dir, name),
        is_on_directory(event.mask),
        removes(event.mask) || moves_itself(event.mask),
        !is_merged(event.mask),
    ensures
        ({
            let (admission, after) = classified(map, exclusions, event);
            match event.target_fid {
                Some(gone) => admission is ForgetDir && is_pruned_of(map, after, gone.handle),
                None => admission is Lossy && after == map,
            }
        }),
{
    lemma_reached(map);
    if let Some(gone) = event.target_fid {
        lemma_pruned(map, gone.handle);
    }
}

/// Any other event on a watched directory's name is told and leaves the map alone.
pub proof fn law_a_directory_is_told_of(
    map: MapModel,
    exclusions: Seq<Seq<u8>>,
    event: FanEventModel,
    dir: FidModel,
    name: Seq<u8>,
)
    requires
        map.wf(),
        is_on_name(event, dir, name),
        is_watched(map, exclusions, dir, name),
        is_on_directory(event.mask),
        !creates(event.mask) && !removes(event.mask) && !moves_itself(event.mask),
        !is_merged(event.mask),
    ensures
        classified(map, exclusions, event).0 is Forward,
        classified(map, exclusions, event).1 == map,
{
    lemma_reached(map);
}

/// What a directory of the map tells of itself: its deletion has it forgotten, its
/// move and what changes nothing in the tree are told, and what only makes sense
/// of a name is a loss. Of the root, the deletion and the move are its end.
pub proof fn law_a_directory_tells_of_itself(
    map: MapModel,
    exclusions: Seq<Seq<u8>>,
    event: FanEventModel,
    own: FidModel,
)
    requires
        map.wf(),
        is_on_object(event, own),
        map.holds(own.handle),
        !is_excluded(exclusions, map.path_of(own.handle)->0),
        !is_merged(event.mask),
    ensures
        ({
            let (admission, after) = classified(map, exclusions, event);
            let ends = deletes_itself(event.mask) || moves_itself(event.mask);
            &&& ends && map.is_root(own.handle) ==> admission is RootDeath && after == map
            &&& deletes_itself(event.mask) && !map.is_root(own.handle) ==> admission is ForgetDir
                && is_pruned_of(map, after, own.handle)
            &&& moves_itself(event.mask) && !map.is_root(own.handle) ==> admission is Forward
                && after == map
            &&& creates(event.mask) || removes(event.mask) ==> admission is Lossy && after == map
            &&& changes_nothing(event.mask) ==> admission is Forward && after == map
        }),
{
    lemma_reached(map);
    lemma_pruned(map, own.handle);
}

/// The root's end is told whatever is excluded: where the root itself was deleted
/// or moved, and where an event from outside the map says that the root was
/// removed, deleted, moved or renamed there.
pub proof fn law_the_roots_end_is_told(
    map: MapModel,
    exclusions: Seq<Seq<u8>>,
    event: FanEventModel,
    root: FidModel,
)
    requires
        map.wf(),
        map.is_root(root.handle),
        !is_merged(event.mask),
        (is_on_object(event, root) && (deletes_itself(event.mask) || moves_itself(event.mask)))
            || (is_from_outside(map, event) && event.target_fid == Some(root) && (removes(
            event.mask,
        ) || deletes_itself(event.mask) || moves_itself(event.mask) || renames(event.mask))),
    ensures
        classified(map, exclusions, event).0 is RootDeath,
        classified(map, exclusions, event).1 == map,
{
    lemma_reached(map);
}

/// No other event is the root's end.
pub proof fn law_nothing_else_is_the_roots_end(
    map: MapModel,
    exclusions: Seq<Seq<u8>>,
    event: FanEventModel,
)
    requires
        map.wf(),
        classified(map, exclusions, event).0 is RootDeath,
    ensures
        !is_merged(event.mask),
        is_from_outside(map, event) ==> is_held(map, event.target_fid) && map.is_root(
            event.target_fid->0.handle,
        ),
        !is_from_outside(map, event) ==> event.rename is None && event.name is None && (
        deletes_itself(event.mask) || moves_itself(event.mask)),
        removes(event.mask) || deletes_itself(event.mask) || moves_itself(event.mask) || renames(
            event.mask,
        ),
{
    lemma_reached(map);
}

/// What comes from outside the map with an object of the map, and is not the root's
/// end, is a loss; but with one that is excluded it is dropped.
pub proof fn law_what_comes_from_outside_with_a_held_object_is_a_loss(
    map: MapModel,
    exclusions: Seq<Seq<u8>>,
    event: FanEventModel,
    target: FidModel,
)
    requires
        map.wf(),
        is_from_outside(map, event),
        event.target_fid == Some(target),
        map.holds(target.handle),
        !map.is_root(target.handle) || creates(event.mask) || changes_nothing(event.mask),
    ensures
        classified(map, exclusions, event).1 == map,
        if is_excluded(exclusions, map.path_of(target.handle)->0) {
            classified(map, exclusions, event).0 is ExcludedDrop
        } else {
            classified(map, exclusions, event).0 is Lossy
        },
{
    lemma_reached(map);
    if exclusions.len() == 0 {
        assert(!is_excluded(exclusions, map.path_of(target.handle)->0));
    }
}

/// An event that carries nothing the map holds is dropped: as foreign, or as
/// excluded where there are exclusions.
pub proof fn law_a_foreign_event_is_dropped(
    map: MapModel,
    exclusions: Seq<Seq<u8>>,
    event: FanEventModel,
)
    requires
        map.wf(),
        !is_held(map, event.dir_fid),
        !is_held(map, event.target_fid),
        event.rename matches Some(r) ==> !map.holds(r.old_dir.handle) && !map.holds(
            r.new_dir.handle,
        ),
    ensures
        classified(map, exclusions, event).1 == map,
        if exclusions.len() == 0 {
            classified(map, exclusions, event).0 is ForeignDrop
        } else {
            classified(map, exclusions, event).0 is ExcludedDrop
        },
{
    lemma_reached(map);
}

/// What the kernel merged is a loss where it carries anything the map holds, unless
/// it is about a file's name alone.
pub proof fn law_a_merge_is_a_loss(map: MapModel, event: FanEventModel)
    requires
        map.wf(),
        is_merged(event.mask),
        is_held(map, event.dir_fid) || is_held(map, event.target_fid) || (
        event.rename matches Some(r) && (map.holds(r.old_dir.handle) || map.holds(
            r.new_dir.handle,
        ))),
        event.rename is Some || event.name is None || !is_held(map, event.dir_fid)
            || is_on_directory(event.mask) || deletes_itself(event.mask) || moves_itself(
            event.mask,
        ) || renames(event.mask),
    ensures
        classified(map, Seq::empty(), event).0 is Lossy,
        classified(map, Seq::empty(), event).1 == map,
{
    lemma_reached(map);
}

/// Whether the event names a place that is watched.
pub open spec fn names_a_watched_place(
    map: MapModel,
    exclusions: Seq<Seq<u8>>,
    event: FanEventModel,
) -> bool {
    match event.rename {
        Some(r) => is_watched(map, exclusions, r.old_dir, r.old_name) || is_watched(
            map,
            exclusions,
            r.new_dir,
            r.new_name,
        ),
        None => match (event.name, event.dir_fid) {
            (Some(name), Some(dir)) => is_watched(map, exclusions, dir, name),
            (Some(_), None) => false,
            (None, Some(dir)) => map.holds(dir.handle) && !is_excluded(
                exclusions,
                map.path_of(dir.handle)->0,
            ),
            (None, None) => is_held(map, event.target_fid) && !is_excluded(
                exclusions,
                map.path_of(event.target_fid->0.handle)->0,
            ),
        },
    }
}

/// Where there are exclusions, an event that names no watched place leaves the map
/// alone and nothing is told of it, but the root's end: it is dropped, or it is a
/// loss where its target is watched.
pub proof fn law_an_excluded_event_is_dropped(
    map: MapModel,
    exclusions: Seq<Seq<u8>>,
    event: FanEventModel,
)
    requires
        map.wf(),
        exclusions.len() > 0,
        !names_a_watched_place(map, exclusions, event),
    ensures
        classified(map, exclusions, event).1 == map,
        classified(map, exclusions, event).0 is RootDeath || if is_held(map, event.target_fid)
            && !is_excluded(exclusions, map.path_of(event.target_fid->0.handle)->0) {
            classified(map, exclusions, event).0 is Lossy
        } else {
            classified(map, exclusions, event).0 is ExcludedDrop
        },
{
    lemma_reached(map);
}

/// The rename of a file with a watched end is told, and leaves the map alone.
pub proof fn law_a_files_rename_is_told(
    map: MapModel,
    exclusions: Seq<Seq<u8>>,
    event: FanEventModel,
)
    requires
        map.wf(),
        event.rename is Some,
        names_a_watched_place(map, exclusions, event),
        !is_on_directory(event.mask),
        !is_merged(event.mask),
    ensures
        classified(map, exclusions, event).0 matches AdmissionModel::Rename(_, None),
        classified(map, exclusions, event).1 == map,
{
    lemma_reached(map);
}

/// Whether an exclusion covers the place or lies at or beneath it.
pub open spec fn meets(exclusions: Seq<Seq<u8>>, path: Seq<u8>) -> bool {
    exists|i: int|
        0 <= i < exclusions.len() && (at_or_under(path, #[trigger] exclusions[i]) || at_or_under(
            exclusions[i],
            path,
        ))
}

/// The rename of a directory with a watched end is told, and moves the directory in
/// the map. One that leaves what is watched is forgotten. One that the map does not
/// hold yet is hung at its new place, and is to be walked. One that it holds moves
/// there with all that is beneath it, and is not walked, unless an exclusion meets
/// the old place or the new one: then what was beneath it is forgotten, and it is to
/// be walked. A move into what lies beneath the directory itself is left aside. Where
/// the kernel does not say which object it is, that is a loss.
pub proof fn law_a_directorys_rename_moves_it(
    map: MapModel,
    exclusions: Seq<Seq<u8>>,
    event: FanEventModel,
)
    requires
        map.wf(),
        event.rename is Some,
        names_a_watched_place(map, exclusions, event),
        is_on_directory(event.mask),
        !is_merged(event.mask),
    ensures
        ({
            let r = event.rename->0;
            let (admission, after) = classified(map, exclusions, event);
            let arrives = is_watched(map, exclusions, r.new_dir, r.new_name);
            let refenced = (map.holds(r.old_dir.handle) && meets(
                exclusions,
                place(map, r.old_dir, r.old_name),
            )) || meets(exclusions, place(map, r.new_dir, r.new_name));
            match event.target_fid {
                None => admission is Lossy && after == map,
                Some(moved) => {
                    let h = moved.handle;
                    let cyclic = lies_in(map.nodes, r.new_dir.handle, h);
                    let walked = admission->Rename_1;
                    &&& admission is Rename
                    &&& !arrives ==> walked is None && is_pruned_of(map, after, h)
                    &&& arrives && !map.holds(h) ==> walked == Some(moved) && is_hung_in(
                        map,
                        after,
                        h,
                        r.new_dir,
                        r.new_name,
                    ) && after.nodes[h].pending
                    &&& arrives && map.holds(h) && cyclic ==> walked is None && after == map
                    &&& arrives && map.holds(h) && !cyclic && !refenced ==> walked is None
                        && is_hung_in(map, after, h, r.new_dir, r.new_name)
                        && after.nodes[h].pending == map.nodes[h].pending
                    &&& arrives && map.holds(h) && !cyclic && refenced ==> {
                        &&& walked == Some(moved)
                        &&& after.path_of(h) == Some(place(map, r.new_dir, r.new_name))
                        &&& after.nodes[h].pending
                        &&& forall|k: Seq<u8>| #[trigger]
                            after.holds(k) <==> k == h || (map.holds(k) && !lies_in(
                                map.nodes,
                                k,
                                h,
                            ))
                        &&& forall|k: Seq<u8>|
                            after.holds(k) && k != h ==> #[trigger] after.nodes[k]
                                == map.nodes[k] && after.path_of(k) == map.path_of(k)
                    }
                },
            }
        }),
{
    lemma_reached(map);
    let r = event.rename->0;
    let p = r.new_dir.handle;
    lemma_meets(exclusions, place(map, r.old_dir, r.old_name));
    lemma_meets(exclusions, place(map, r.new_dir, r.new_name));
    if let Some(moved) = event.target_fid {
        let h = moved.handle;
        if !is_watched(map, exclusions, r.new_dir, r.new_name) {
            lemma_pruned(map, h);
        } else if !map.holds(h) {
            law_nothing_lies_in_what_is_not_held(map, p, h);
            lemma_hung(map, h, r.new_dir, r.new_name, true);
        } else if !lies_in(map.nodes, p, h) {
            lemma_hung(map, h, r.new_dir, r.new_name, true);
            lemma_hangable_is_no_root(map, h, p);
            lemma_pruned(map, h);
            law_forgetting_keeps_the_invariant(map, h);
            let pruned = map.forgotten(h);
            law_nothing_lies_in_what_is_not_held(pruned, p, h);
            lemma_hung(pruned, h, r.new_dir, r.new_name, true);
            assert forall|k: Seq<u8>| pruned.holds(k) implies !lies_in(pruned.nodes, k, h) by {
                law_nothing_lies_in_what_is_not_held(pruned, k, h);
            }
        }
    }
}

proof fn lemma_meets(exclusions: Seq<Seq<u8>>, path: Seq<u8>)
    ensures
        meets(exclusions, path) == meets_exclusion(exclusions, path),
{
    if meets(exclusions, path) {
        let i = choose|i: int|
            0 <= i < exclusions.len() && (at_or_under(path, #[trigger] exclusions[i])
                || at_or_under(exclusions[i], path));
        assert(at_or_under(path, exclusions[i]) || at_or_under(exclusions[i], path));
    }
    if meets_exclusion(exclusions, path) {
        if is_excluded(exclusions, path) {
            let i = choose|i: int|
                0 <= i < exclusions.len() && at_or_under(path, #[trigger] exclusions[i]);
            assert(at_or_under(path, exclusions[i]));
        } else {
            let i = choose|i: int|
                0 <= i < exclusions.len() && at_or_under(#[trigger] exclusions[i], path);
            assert(at_or_under(exclusions[i], path));
        }
    }
}

} // verus!
