//! The decisions of a local pane: its identity, whether its process is
//! dead, how a resize reaches the emulator's geometry, what is done to the
//! process at teardown, and where its working directory comes from.
use vstd::prelude::*;
use vstd::string::StringExecFns;

verus! {

/// An outside URL value, held opaque.
#[verifier::external_type_specification]
#[verifier::external_body]
pub struct ExUrl(url::Url);

/// Whether `url::Url::parse` accepts a string.
pub uninterp spec fn url_parses(s: Seq<char>) -> bool;

/// Relies on `url::Url::parse`: a URL where the input parses, none where
/// it fails; which inputs fail depends on the input alone.
#[verifier::external_body]
fn parse_url(s: &str) -> (r: Option<url::Url>)
    ensures
        r is Some <==> url_parses(s@),
{
    url::Url::parse(s).ok()
}

pub type PaneId = usize;

pub type DomainId = usize;

/// The size of a pty as its owner sets it: cells and pixels.
#[derive(Clone, Copy, Debug, PartialEq, Eq, Structural)]
pub struct PtySize {
    pub rows: u16,
    pub cols: u16,
    pub pixel_width: u16,
    pub pixel_height: u16,
}

/// The geometry of the emulator's grid.
#[derive(Clone, Copy, Debug, PartialEq, Eq, Structural)]
pub struct Geometry {
    pub rows: usize,
    pub cols: usize,
    pub pixel_width: usize,
    pub pixel_height: usize,
}

/// The geometry that the emulator takes for a pty size.
pub open spec fn geometry_of(size: PtySize) -> Geometry {
    Geometry {
        rows: size.rows as usize,
        cols: size.cols as usize,
        pixel_width: size.pixel_width as usize,
        pixel_height: size.pixel_height as usize,
    }
}

/// What a non-blocking poll of the child's exit status gave.
#[derive(Clone, Copy, Debug, PartialEq, Eq, Structural)]
pub enum ExitPoll {
    /// The child is still running.
    Running,
    /// The child has exited.
    Exited,
    /// The poll itself failed.
    Failed,
}

/// What is done to the child process, in order.
#[derive(Clone, Copy, Debug, PartialEq, Eq, Structural)]
pub enum ProcessAction {
    /// Send the kill signal, ignoring failure.
    Kill,
    /// Wait for the process to exit and reap it, ignoring failure.
    Wait,
}

/// The plain state of a pane: who it is, the geometry of its emulator, and
/// whether its process has been seen to exit.
pub struct LocalPane {
    pane_id: PaneId,
    domain_id: DomainId,
    geometry: Geometry,
    exited: bool,
}

impl LocalPane {
    pub closed spec fn spec_pane_id(&self) -> PaneId {
        self.pane_id
    }

    pub closed spec fn spec_domain_id(&self) -> DomainId {
        self.domain_id
    }

    pub closed spec fn spec_geometry(&self) -> Geometry {
        self.geometry
    }

    pub closed spec fn spec_exited(&self) -> bool {
        self.exited
    }

    /// A live pane whose emulator has the geometry of `size`.
    pub fn new(pane_id: PaneId, domain_id: DomainId, size: PtySize) -> (r: Self)
        ensures
            r.spec_pane_id() == pane_id,
            r.spec_domain_id() == domain_id,
            r.spec_geometry() == geometry_of(size),
            !r.spec_exited(),
    {
        LocalPane {
            pane_id,
            domain_id,
            geometry: Geometry {
                rows: size.rows as usize,
                cols: size.cols as usize,
                pixel_width: size.pixel_width as usize,
                pixel_height: size.pixel_height as usize,
            },
            exited: false,
        }
    }

    pub fn pane_id(&self) -> (r: PaneId)
        ensures
            r == self.spec_pane_id(),
    {
        self.pane_id
    }

    pub fn domain_id(&self) -> (r: DomainId)
        ensures
            r == self.spec_domain_id(),
    {
        self.domain_id
    }

    /// The geometry of the emulator's grid.
    pub fn geometry(&self) -> (r: Geometry)
        ensures
            r == self.spec_geometry(),
    {
        self.geometry
    }

    /// Takes in the outcome of a poll of the child's exit status and tells
    /// whether the pane is dead.  A confirmed exit and a failed poll both
    /// count as dead.  A confirmed exit is kept: from then on the pane is
    /// dead whatever a later poll says.  A failed poll counts for that call
    /// only.
    pub fn is_dead(&mut self, poll: ExitPoll) -> (r: bool)
        ensures
            r == (old(self).spec_exited() || poll != ExitPoll::Running),
            final(self).spec_exited() == (old(self).spec_exited() || poll == ExitPoll::Exited),
            final(self).spec_pane_id() == old(self).spec_pane_id(),
            final(self).spec_domain_id() == old(self).spec_domain_id(),
            final(self).spec_geometry() == old(self).spec_geometry(),
    {
        if poll == ExitPoll::Exited {
            self.exited = true;
        }
        self.exited || poll != ExitPoll::Running
    }

    /// The second phase of a resize, after the pty was asked for `size`:
    /// where the pty took it, the emulator takes the same geometry; where
    /// the pty refused, the emulator keeps its geometry and the error is
    /// handed back.
    pub fn resize<E>(&mut self, size: PtySize, pty_result: Result<(), E>) -> (r: Result<(), E>)
        ensures
            r is Ok <==> pty_result is Ok,
            pty_result is Ok ==> final(self).spec_geometry() == geometry_of(size),
            pty_result is Err ==> final(self).spec_geometry() == old(self).spec_geometry(),
            pty_result matches Err(e) ==> r matches Err(f) && f == e,
            final(self).spec_exited() == old(self).spec_exited(),
            final(self).spec_pane_id() == old(self).spec_pane_id(),
            final(self).spec_domain_id() == old(self).spec_domain_id(),
    {
        match pty_result {
            Ok(()) => {
                self.geometry = Geometry {
                    rows: size.rows as usize,
                    cols: size.cols as usize,
                    pixel_width: size.pixel_width as usize,
                    pixel_height: size.pixel_height as usize,
                };
                Ok(())
            },
            Err(e) => Err(e),
        }
    }

    /// What teardown does to the child: kill it, then wait for it, whatever
    /// was seen of it before, so that no zombie is left.
    pub fn teardown_actions(&self) -> (r: Vec<ProcessAction>)
        ensures
            r@ == seq![ProcessAction::Kill, ProcessAction::Wait],
    {
        let mut r: Vec<ProcessAction> = Vec::new();
        r.push(ProcessAction::Kill);
        r.push(ProcessAction::Wait);
        r
    }
}

/// The file URL that names a local directory path.
pub open spec fn file_url_text(path: Seq<char>) -> Seq<char> {
    "file://localhost"@ + path
}

/// The working directory of a pane's foreground process as a file URL,
/// from the process-group leader (if the pty has one) and the path that its
/// working directory resolves to (if that could be read).  Nothing where
/// either is missing or the URL does not parse.
pub fn divine_current_working_dir(leader: Option<i32>, leader_cwd: Option<&str>) -> (r: Option<url::Url>)
    ensures
        leader is None ==> r is None,
        leader_cwd is None ==> r is None,
        leader is Some && leader_cwd is Some ==> (r is Some <==> url_parses(
            file_url_text(leader_cwd.unwrap()@),
        )),
{
    match (leader, leader_cwd) {
        (Some(_), Some(path)) => {
            let mut text = String::from_str("file://localhost");
            proof {
                reveal_strlit("file://localhost");
            }
            text.append(path);
            parse_url(text.as_str())
        },
        _ => None,
    }
}

/// The pane's working directory: the one the emulator reports if there is
/// one, else the one found by probing the process.
pub fn get_current_working_dir(reported: Option<url::Url>, probed: Option<url::Url>) -> (r: Option<url::Url>)
    ensures
        reported is Some ==> r == reported,
        reported is None ==> r == probed,
{
    match reported {
        Some(u) => Some(u),
        None => probed,
    }
}

} // verus!
