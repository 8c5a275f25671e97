//! Opening a path without following a symlink anywhere on it.
//!
//! One call does it where the kernel has that call. Where it does not, the path
//! is walked name by name, each opened in the directory before it.

use vstd::prelude::*;

use crate::error::{EINVAL, ENOSYS, Errno};
use crate::path::{DOT, SLASH, components, path_components, views};
use crate::spawn::protocol::{SpawnAnswer, SpawnAsk, fits};

verus! {

/// How far an opening has come.
#[derive(Clone, Copy, Debug, PartialEq, Eq, Structural)]
pub enum OpenState {
    /// The path is being opened in one call.
    Whole,
    /// The directory the path is read from is being opened.
    Anchor,
    /// This name is being opened in the directory before it.
    Name(usize),
    /// The path is open.
    Done,
    /// The path could not be opened.
    Failed(Errno),
}

/// One opening under way.
#[derive(Debug)]
pub struct Opening {
    absolute: bool,
    names: Vec<Vec<u8>>,
    plain: bool,
    state: OpenState,
}

/// What an `Opening` stands for: whether the path is absolute, its names, and
/// whether every one of them is a name of its own.
#[verifier::ext_equal]
pub struct OpeningModel {
    pub absolute: bool,
    pub names: Seq<Seq<u8>>,
    pub plain: bool,
    pub state: OpenState,
}

impl View for Opening {
    type V = OpeningModel;

    closed spec fn view(&self) -> OpeningModel {
        OpeningModel {
            absolute: self.absolute,
            names: views(self.names@),
            plain: self.plain,
            state: self.state,
        }
    }
}

/// Whether a path with these components is absolute.
pub open spec fn is_absolute(parts: Seq<Seq<u8>>) -> bool {
    parts.len() > 0 && parts[0] == seq![SLASH]
}

/// The names of a path with these components, without the root.
pub open spec fn names_of(parts: Seq<Seq<u8>>) -> Seq<Seq<u8>> {
    if is_absolute(parts) {
        parts.drop_first()
    } else {
        parts
    }
}

/// Whether the component is a name of its own, not `.` or `..`.
pub open spec fn is_plain(name: Seq<u8>) -> bool {
    name != seq![DOT] && name != seq![DOT, DOT]
}

/// Whether every one of the components is a name of its own.
pub open spec fn all_plain(list: Seq<Seq<u8>>) -> bool {
    forall|i: int| 0 <= i < list.len() ==> is_plain(#[trigger] list[i])
}

impl OpeningModel {
    /// An opening of the path with these components, at its start.
    pub open spec fn start(parts: Seq<Seq<u8>>) -> OpeningModel {
        OpeningModel {
            absolute: is_absolute(parts),
            names: names_of(parts),
            plain: all_plain(names_of(parts)),
            state: OpenState::Whole,
        }
    }

    /// The opening in another state.
    pub open spec fn to(self, state: OpenState) -> OpeningModel {
        OpeningModel { state, ..self }
    }

    /// A name that is being opened is one of the path's.
    pub open spec fn wf(self) -> bool {
        self.state matches OpenState::Name(i) ==> i < self.names.len()
    }

    /// What the opening waits for.
    pub open spec fn ask(self) -> SpawnAsk {
        match self.state {
            OpenState::Whole => SpawnAsk::OpenWhole,
            OpenState::Anchor => SpawnAsk::OpenAnchor {
                absolute: self.absolute,
                last: self.names.len() == 0,
            },
            OpenState::Name(i) => SpawnAsk::OpenName {
                index: i,
                last: i + 1 == self.names.len(),
            },
            OpenState::Done | OpenState::Failed(_) => SpawnAsk::Nothing,
        }
    }

    /// The opening once `count` names are open.
    pub open spec fn reached(self, count: int) -> OpeningModel {
        if count == self.names.len() {
            self.to(OpenState::Done)
        } else {
            self.to(OpenState::Name(count as usize))
        }
    }

    /// The opening after an answer.
    pub open spec fn next(self, answer: SpawnAnswer) -> OpeningModel {
        match (self.state, answer) {
            (OpenState::Whole, SpawnAnswer::Opened(opened)) => match opened {
                Ok(_) => self.to(OpenState::Done),
                Err(e) => if e != ENOSYS {
                    self.to(OpenState::Failed(e))
                } else if !self.plain {
                    self.to(OpenState::Failed(EINVAL))
                } else {
                    self.to(OpenState::Anchor)
                },
            },
            (OpenState::Anchor, SpawnAnswer::Opened(opened)) => match opened {
                Ok(_) => self.reached(0),
                Err(e) => self.to(OpenState::Failed(e)),
            },
            (OpenState::Name(i), SpawnAnswer::Opened(opened)) => match opened {
                Ok(_) => self.reached(i + 1),
                Err(e) => self.to(OpenState::Failed(e)),
            },
            _ => self,
        }
    }
}

/// Whether the component is a name of its own.
fn plain_name(name: &[u8]) -> (r: bool)
    ensures
        r == is_plain(name@),
{
    proof {
        assert(name@ =~= seq![DOT] <==> name@.len() == 1 && name@[0] == DOT);
        assert(name@ =~= seq![DOT, DOT] <==> name@.len() == 2 && name@[0] == DOT && name@[1]
            == DOT);
    }
    !(name.len() == 1 && name[0] == DOT) && !(name.len() == 2 && name[0] == DOT && name[1] == DOT)
}

impl Opening {
    /// The opening's invariant.
    pub open spec fn wf(&self) -> bool {
        self@.wf()
    }

    /// An opening of `path`, at its start.
    pub fn new(path: &[u8]) -> (r: Opening)
        ensures
            r.wf(),
            r@ == OpeningModel::start(components(path@)),
            r@.names.len() <= usize::MAX,
    {
        let mut names = path_components(path);
        let mut absolute: bool = false;
        if names.len() > 0 {
            assert(components(path@)[0] == names@[0]@);
            assert(names@[0]@ =~= seq![SLASH] <==> names@[0]@.len() == 1 && names@[0]@[0]
                == SLASH);
            if names[0].len() == 1 && names[0][0] == SLASH {
                absolute = true;
                let ghost before = names@;
                names.remove(0);
                assert(views(names@) =~= views(before).drop_first());
            }
        }
        let mut plain: bool = true;
        let mut i: usize = 0;
        while i < names.len()
            invariant
                i <= names@.len(),
                plain <==> forall|j: int| 0 <= j < i ==> is_plain(#[trigger] views(names@)[j]),
            decreases names@.len() - i,
        {
            assert(views(names@)[i as int] == names@[i as int]@);
            if !plain_name(names[i].as_slice()) {
                plain = false;
            }
            i = i + 1;
        }
        assert(views(names@).len() == names.len());
        Opening { absolute, names, plain, state: OpenState::Whole }
    }

    /// What the opening waits for.
    pub fn ask(&self) -> (r: SpawnAsk)
        requires
            self.wf(),
        ensures
            r == self@.ask(),
    {
        match self.state {
            OpenState::Whole => SpawnAsk::OpenWhole,
            OpenState::Anchor => SpawnAsk::OpenAnchor {
                absolute: self.absolute,
                last: self.names.len() == 0,
            },
            OpenState::Name(index) => SpawnAsk::OpenName {
                index,
                last: index == self.names.len() - 1,
            },
            OpenState::Done | OpenState::Failed(_) => SpawnAsk::Nothing,
        }
    }

    /// The name at `index`.
    pub fn name(&self, index: usize) -> (r: &[u8])
        requires
            index < self@.names.len(),
        ensures
            r@ == self@.names[index as int],
    {
        self.names[index].as_slice()
    }

    /// How many names the path has.
    pub fn len(&self) -> (r: usize)
        ensures
            r == self@.names.len(),
    {
        self.names.len()
    }

    /// Whether the path is absolute.
    pub fn absolute(&self) -> (r: bool)
        ensures
            r == self@.absolute,
    {
        self.absolute
    }

    /// Whether every one of the path's names is a name of its own.
    pub fn plain(&self) -> (r: bool)
        ensures
            r == self@.plain,
    {
        self.plain
    }

    /// How the opening ended, once it has.
    pub fn ended(&self) -> (r: Option<Result<(), Errno>>)
        ensures
            r == match self@.state {
                OpenState::Done => Some(Ok::<(), Errno>(())),
                OpenState::Failed(e) => Some(Err(e)),
                _ => None,
            },
    {
        match self.state {
            OpenState::Done => Some(Ok(())),
            OpenState::Failed(e) => Some(Err(e)),
            _ => None,
        }
    }

    /// Goes on once `count` names are open.
    fn reach(&mut self, count: usize)
        requires
            count <= old(self)@.names.len(),
        ensures
            final(self).wf(),
            final(self)@ == old(self)@.reached(count as int),
    {
        self.state = if count == self.names.len() {
            OpenState::Done
        } else {
            OpenState::Name(count)
        };
    }

    /// Takes an answer.
    pub fn step(&mut self, answer: SpawnAnswer)
        requires
            old(self).wf(),
            fits(old(self)@.ask(), answer),
        ensures
            final(self).wf(),
            final(self)@ == old(self)@.next(answer),
    {
        let opened = match answer {
            SpawnAnswer::Opened(opened) => opened,
            _ => {
                return ;
            },
        };
        match self.state {
            OpenState::Whole => {
                self.state = match opened {
                    Ok(_) => OpenState::Done,
                    Err(e) => if e != ENOSYS {
                        OpenState::Failed(e)
                    } else if !self.plain {
                        OpenState::Failed(EINVAL)
                    } else {
                        OpenState::Anchor
                    },
                };
            },
            OpenState::Anchor => match opened {
                Ok(_) => {
                    self.reach(0);
                },
                Err(e) => {
                    self.state = OpenState::Failed(e);
                },
            },
            OpenState::Name(i) => match opened {
                Ok(_) => {
                    assert(i < self.names.len());
                    self.reach(i + 1);
                },
                Err(e) => {
                    self.state = OpenState::Failed(e);
                },
            },
            _ => {},
        }
    }
}

impl OpeningModel {
    /// How many names are open already, counting none before the walk.
    pub open spec fn names_open(self) -> int {
        match self.state {
            OpenState::Name(i) => i as int,
            OpenState::Done => self.names.len() as int,
            _ => -1,
        }
    }
}

/// The walk opens the path's names one by one and in order, leaves none out,
/// and is done at the last one.
pub proof fn law_names_are_opened_in_order(o: OpeningModel)
    requires
        o.wf(),
        o.state is Anchor || o.state is Name,
        o.names.len() < usize::MAX,
    ensures
        o.next(SpawnAnswer::Opened(Ok(()))).names_open() == o.names_open() + 1,
        o.next(SpawnAnswer::Opened(Ok(()))).state is Done == match o.ask() {
            SpawnAsk::OpenAnchor { last, .. } => last,
            SpawnAsk::OpenName { last, .. } => last,
            _ => false,
        },
{
}

/// What each answer means for an opening. The one call opens the path or fails it; only
/// where the kernel lacks that call is the path walked, from its top and then name by
/// name, and then every name on it must be one of its own. Whatever cannot be opened fails
/// the path with the error that came.
pub proof fn law_an_opening_follows_the_kernel(o: OpeningModel, opened: Result<(), Errno>)
    requires
        o.wf(),
        o.names.len() <= usize::MAX,
    ensures
        ({
            let n = o.next(SpawnAnswer::Opened(opened));
            let walks_on = |count: int|
                n.state == if count == o.names.len() {
                    OpenState::Done
                } else {
                    OpenState::Name(count as usize)
                };
            &&& n.absolute == o.absolute && n.names == o.names && n.plain == o.plain
            &&& match (o.state, opened) {
                (OpenState::Whole, Ok(_)) => n.state == OpenState::Done,
                (OpenState::Whole, Err(e)) => n.state == if e != Errno::NoSys {
                    OpenState::Failed(e)
                } else if o.plain {
                    OpenState::Anchor
                } else {
                    OpenState::Failed(Errno::Inval)
                },
                (OpenState::Anchor, Ok(_)) => walks_on(0),
                (OpenState::Name(i), Ok(_)) => walks_on(i + 1),
                (OpenState::Anchor, Err(e)) => n.state == OpenState::Failed(e),
                (OpenState::Name(_), Err(e)) => n.state == OpenState::Failed(e),
                _ => n.state == o.state,
            }
        }),
{
}

/// An opening of a path begins with the one call, and knows the path's names: its components,
/// less the root, which makes it absolute. They are names of their own if none of them is `.`
/// or `..`.
pub proof fn law_an_opening_knows_its_names(parts: Seq<Seq<u8>>)
    ensures
        ({
            let o = OpeningModel::start(parts);
            let rooted = parts.len() > 0 && parts[0] == seq![47u8];
            &&& o.state == OpenState::Whole
            &&& o.absolute == rooted
            &&& o.names == if rooted {
                parts.skip(1)
            } else {
                parts
            }
            &&& o.plain <==> !o.names.contains(seq![46u8]) && !o.names.contains(seq![46u8, 46u8])
            &&& o.ask() == SpawnAsk::OpenWhole
        }),
{
    let o = OpeningModel::start(parts);
    if is_absolute(parts) {
        assert(parts.drop_first() =~= parts.skip(1));
    }
    if o.plain {
        if o.names.contains(seq![46u8]) {
            let i = choose|i: int| 0 <= i < o.names.len() && o.names[i] == seq![46u8];
            assert(is_plain(o.names[i]));
        }
        if o.names.contains(seq![46u8, 46u8]) {
            let i = choose|i: int| 0 <= i < o.names.len() && o.names[i] == seq![46u8, 46u8];
            assert(is_plain(o.names[i]));
        }
    } else {
        let i = choose|i: int| 0 <= i < o.names.len() && !is_plain(#[trigger] o.names[i]);
        assert(o.names.contains(o.names[i]));
    }
}

} // verus!
