//! The projection bridge: the optional projector window and the display
//! events pushed to it.
//!
//! The bridge owns the single optional projector window.  Opening it is
//! idempotent: an already-open projector is only brought to the
//! foreground.  Push operations forward an opaque payload as a named
//! event when the projector is open and are silent no-ops when it is not
//! — an operator who has not opened the projector yet is not an error.
//! The shell carries out the window creation, focusing and event
//! delivery that the bridge decides on.

use vstd::prelude::*;

verus! {

/// What a call to `open_projector` decided.
#[derive(Clone, Copy, PartialEq, Eq, Structural, Debug)]
pub enum OpenOutcome {
    /// The projector was already open: bring it to the foreground.
    FocusedExisting,
    /// Create the projector window; when a second display is present it
    /// is moved there and switched to fullscreen.
    Created { fullscreen_on_secondary: bool },
}

/// The new bridge state and the outcome of one `open_projector` call.
pub open spec fn open_projector_spec(is_open: bool, monitor_count: int) -> (bool, OpenOutcome) {
    if is_open {
        (true, OpenOutcome::FocusedExisting)
    } else {
        (true, OpenOutcome::Created { fullscreen_on_secondary: monitor_count > 1 })
    }
}

/// One display event to deliver to the projector window.
pub struct Emission {
    /// The event name the projector listens on.
    pub event: String,
    /// The opaque payload, forwarded unchanged.
    pub payload: String,
}

/// The projection bridge.  One process-lifetime instance owns the
/// optional projector window.
pub struct ProjectorBridge {
    projector_open: bool,
}

impl ProjectorBridge {
    /// Whether the projector window is currently open.
    pub closed spec fn is_open(&self) -> bool {
        self.projector_open
    }

    /// A bridge with no projector window yet.
    pub fn new() -> (r: ProjectorBridge)
        ensures
            !r.is_open(),
    {
        ProjectorBridge { projector_open: false }
    }

    /// Opens the projector window, or only focuses it when it is already
    /// open.  `monitor_count` is the number of displays currently
    /// attached.  Never ends with more than one projector window.
    pub fn open_projector(&mut self, monitor_count: usize) -> (r: OpenOutcome)
        ensures
            ({
                let (s, outcome) = open_projector_spec(old(self).is_open(), monitor_count as int);
                final(self).is_open() == s && r == outcome
            }),
    {
        if self.projector_open {
            OpenOutcome::FocusedExisting
        } else {
            self.projector_open = true;
            OpenOutcome::Created { fullscreen_on_secondary: monitor_count > 1 }
        }
    }

    /// The event to deliver for a verse projection, when the projector
    /// is open.
    pub fn push_verse(&self, payload: &str) -> (r: Option<Emission>)
        ensures
            r is Some <==> self.is_open(),
            r is Some ==> r->Some_0.event@ == "update-proyeccion"@ && r->Some_0.payload@
                == payload@,
    {
        if self.projector_open {
            Some(Emission { event: String::from_str("update-proyeccion"), payload: payload.to_owned() })
        } else {
            None
        }
    }

    /// The event to deliver for a styling change, when the projector is
    /// open.
    pub fn push_style(&self, payload: &str) -> (r: Option<Emission>)
        ensures
            r is Some <==> self.is_open(),
            r is Some ==> r->Some_0.event@ == "update-styles"@ && r->Some_0.payload@ == payload@,
    {
        if self.projector_open {
            Some(Emission { event: String::from_str("update-styles"), payload: payload.to_owned() })
        } else {
            None
        }
    }

    /// The event to deliver for a playback-control action, when the
    /// projector is open.
    pub fn push_video_control(&self, action: &str) -> (r: Option<Emission>)
        ensures
            r is Some <==> self.is_open(),
            r is Some ==> r->Some_0.event@ == "video-control"@ && r->Some_0.payload@ == action@,
    {
        if self.projector_open {
            Some(Emission { event: String::from_str("video-control"), payload: action.to_owned() })
        } else {
            None
        }
    }
}

/// Law: calling `open_projector` twice in a row results in exactly one
/// open projector window, and the second call only focuses it.
pub proof fn lemma_open_projector_twice(monitors_first: int, monitors_second: int)
    ensures
        ({
            let (s1, _o1) = open_projector_spec(false, monitors_first);
            let (s2, o2) = open_projector_spec(s1, monitors_second);
            &&& s1 == true
            &&& s2 == true
            &&& o2 == OpenOutcome::FocusedExisting
        }),
{
}

} // verus!
