//! What a compositor reports about a captured frame, and which of its outputs
//! is captured.

use crate::error::{Error, Result};
use crate::text::same_text;
use vstd::prelude::*;

verus! {

/// A rectangle of the screen that the compositor reports as redrawn.
#[derive(Clone, Copy, Debug)]
pub struct DamageRegion {
    pub x: u32,
    pub y: u32,
    pub width: u32,
    pub height: u32,
}

/// Whether candidate `i` carries the name `want`.
pub open spec fn named<T>(candidates: Seq<(T, Option<String>)>, want: Seq<char>, i: int) -> bool {
    match candidates[i].1 {
        Some(name) => name@ == want,
        None => false,
    }
}

/// The position of the output to capture: the first one with the wanted name,
/// or the first one at all where none is wanted or none has that name.
pub open spec fn selected<T>(candidates: Seq<(T, Option<String>)>, want: Option<&str>, i: int) -> bool {
    &&& 0 <= i < candidates.len()
    &&& if want is Some && exists|j: int|
        0 <= j < candidates.len() && #[trigger] named(candidates, want->0@, j) {
        &&& named(candidates, want->0@, i)
        &&& forall|j: int| 0 <= j < i ==> !#[trigger] named(candidates, want->0@, j)
    } else {
        i == 0
    }
}

/// Picks the candidate whose name matches `want`, or the first candidate if
/// nothing is wanted or no name matches.
pub fn select_output<'a, T>(candidates: &'a [(T, Option<String>)], want: Option<&str>) -> (output:
    Option<&'a T>)
    ensures
        output is None <==> candidates@.len() == 0,
        output matches Some(o) ==> exists|i: int| #[trigger]
            selected(candidates@, want, i) && *o == candidates@[i].0,
{
    if let Some(want_name) = want {
        let wanted: String = want_name.to_owned();
        let mut i: usize = 0;
        while i < candidates.len()
            invariant
                want == Some(want_name),
                wanted@ == want_name@,
                i <= candidates@.len(),
                forall|j: int| 0 <= j < i ==> !#[trigger] named(candidates@, want_name@, j),
            decreases candidates@.len() - i,
        {
            if let Some(name) = &candidates[i].1 {
                if *name == wanted {
                    assert(named(candidates@, want_name@, i as int));
                    assert(selected(candidates@, want, i as int));
                    return Some(&candidates[i].0);
                }
            }
            i += 1;
        }
    }
    if candidates.len() == 0 {
        return None;
    }
    assert(selected(candidates@, want, 0));
    Some(&candidates[0].0)
}

/// The wanted output's name, from a setting that may be unset or empty.
pub fn desired_output_name(setting: Option<String>) -> (name: Option<String>)
    ensures
        match setting {
            Some(s) => if s@.len() == 0 {
                name is None
            } else {
                name matches Some(n) && n@ == s@
            },
            None => name is None,
        },
{
    proof {
        reveal_strlit("");
    }
    match setting {
        Some(s) => {
            assert(s@.len() == 0 ==> s@ =~= ""@);
            if same_text(s.as_str(), "") {
                None
            } else {
                Some(s)
            }
        },
        None => None,
    }
}

/// How the screen is captured.
#[derive(Clone, Copy, Debug, PartialEq, Eq, Structural)]
pub enum Backend {
    /// By `wlr-screencopy`.
    Screencopy,
    /// By PipeWire, through the desktop portal.
    Portal,
}

/// Whether a Wayland compositor is to be asked for `wlr-screencopy`: one of
/// `WAYLAND_DISPLAY` and `WAYLAND_SOCKET` has to be set.
pub fn should_probe(display: bool, socket: bool) -> (probe: bool)
    ensures
        probe == (display || socket),
{
    display || socket
}

/// Picks how to capture: by `wlr-screencopy` if the compositor has it, else
/// through the portal if that is built in.
pub fn detect(screencopy: bool, portal: bool) -> (r: Result<Backend>)
    ensures
        r is Ok <==> backend_for(screencopy, portal) is Some,
        r matches Ok(b) ==> backend_for(screencopy, portal) == Some(b),
        match r {
            Ok(Backend::Screencopy) => screencopy,
            Ok(Backend::Portal) => !screencopy && portal,
            Err(e) => !screencopy && !portal && e is NoBackend,
        },
{
    if screencopy {
        Ok(Backend::Screencopy)
    } else if portal {
        Ok(Backend::Portal)
    } else {
        Err(Error::NoBackend)
    }
}

/// The output that is captured has the wanted name where any has, and then no earlier one
/// has it; otherwise it is the first.
pub proof fn law_wanted_output_comes_first<T>(
    candidates: Seq<(T, Option<String>)>,
    want: Option<&str>,
    i: int,
    j: int,
)
    requires
        selected(candidates, want, i),
        0 <= j < candidates.len(),
    ensures
        0 <= i < candidates.len(),
        want matches Some(w) ==> (candidates[j].1 matches Some(name) && name@ == w@ ==> i <= j && (
        candidates[i].1 matches Some(found) && found@ == w@)),
        want is None ==> i == 0,
        i > 0 ==> (candidates[i].1 matches Some(found) && found@ == want->0@),
{
    if let Some(w) = want {
        if named(candidates, w@, j) {
            assert(named(candidates, w@, i));
            assert(i <= j);
        }
        match candidates[j].1 {
            Some(name) => {
                assert(named(candidates, w@, j) == (name@ == w@));
            },
            None => {},
        }
    }
}

/// The backend that captures, given which of the two there are.
pub open spec fn backend_for(screencopy: bool, portal: bool) -> Option<Backend> {
    if screencopy {
        Some(Backend::Screencopy)
    } else if portal {
        Some(Backend::Portal)
    } else {
        None
    }
}

/// There is a backend where there is either, the compositor's own is taken over the portal,
/// and none is taken that is not there.
pub proof fn law_compositor_is_asked_before_the_portal(screencopy: bool, portal: bool)
    ensures
        backend_for(screencopy, portal) is None <==> !screencopy && !portal,
        backend_for(screencopy, portal) == Some(Backend::Screencopy) <==> screencopy,
        backend_for(screencopy, portal) == Some(Backend::Portal) ==> portal,
{
}

} // verus!
