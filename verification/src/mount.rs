//! Mapping a network location onto a browsable file system path.
//!
//! The operating system is asked to attach the share, and the resulting path
//! is browsed like any other. The decision what to run is a function of the
//! platform and the location, so that every platform's answer can be had on
//! any machine.

use vstd::prelude::*;
use crate::netloc;
use crate::netloc::{Location, Protocol};
use crate::pathname;
use crate::pathname::Style;
use crate::text;

verus! {

broadcast use vstd::string::group_string_axioms;

#[derive(Debug, Clone, Copy, PartialEq, Eq, Structural)]
pub enum Platform {
    Linux,
    MacOs,
    Windows,
}

/// How a location can be attached.
#[derive(Debug, Clone, PartialEq, Eq)]
pub enum MapPlan {
    /// Already browsable; nothing to run. Windows UNC paths and local
    /// directories land here.
    Direct(String),
    /// Run this, then look for the mount point.
    Command {
        program: String,
        args: Vec<String>,
        /// Best guess at where the mount will appear; scanning is still done.
        hint: Option<String>,
    },
    Unsupported { reason: String },
}

/// A plan with its texts as sequences of characters.
pub enum PlanView {
    Direct(Seq<char>),
    Command { program: Seq<char>, args: Seq<Seq<char>>, hint: Option<Seq<char>> },
    Unsupported { reason: Seq<char> },
}

impl View for MapPlan {
    type V = PlanView;

    open spec fn view(&self) -> PlanView {
        match *self {
            MapPlan::Direct(path) => PlanView::Direct(path@),
            MapPlan::Command { program, args, hint } => PlanView::Command {
                program: program@,
                args: text::views(args@),
                hint: text::optional(hint),
            },
            MapPlan::Unsupported { reason } => PlanView::Unsupported { reason: reason@ },
        }
    }
}

/// The pieces that are not empty, a backslash in front of each.
pub open spec fn backslashed(pieces: Seq<Seq<char>>) -> Seq<char>
    decreases pieces.len(),
{
    if pieces.len() == 0 {
        Seq::empty()
    } else if pieces.last().len() == 0 {
        backslashed(pieces.drop_last())
    } else {
        backslashed(pieces.drop_last()) + "\\"@ + pieces.last()
    }
}

/// The UNC path of a share.
pub open spec fn unc_path(host: Seq<char>, path: Seq<char>) -> Seq<char> {
    "\\\\"@ + host + backslashed(text::split(path, '/'))
}

/// Where macOS is likely to put a share.
pub open spec fn volume_hint(style: Style, path: Seq<char>) -> Option<Seq<char>> {
    let share = netloc::before_first(path, '/');
    if share.len() == 0 {
        None
    } else {
        Some(pathname::joined(style, "/Volumes"@, share))
    }
}

/// How a platform attaches a location.
pub open spec fn plan_of(style: Style, platform: Platform, l: netloc::LocationView) -> PlanView {
    match (platform, l.protocol) {
        (_, Protocol::Local) => PlanView::Direct(l.path),
        (Platform::Windows, Protocol::Smb) => PlanView::Direct(unc_path(l.host, l.path)),
        (Platform::Windows, other) => PlanView::Unsupported {
            reason: "Windows cannot mount "@ + netloc::label_text(other)
                + " directly; map it in Explorer first, then bookmark the drive letter"@,
        },
        (Platform::MacOs, Protocol::Smb | Protocol::Afp | Protocol::Nfs) => PlanView::Command {
            program: "open"@,
            args: seq![netloc::strict_url(l)],
            hint: volume_hint(style, l.path),
        },
        (Platform::MacOs, other) => PlanView::Unsupported {
            reason: "macOS removed "@ + netloc::label_text(other)
                + " mounting from Finder (11+); use a third-party mounter such as macFUSE/sshfs, or mount it and bookmark the local path"@,
        },
        (Platform::Linux, Protocol::Smb | Protocol::Ftp | Protocol::Sftp) => PlanView::Command {
            program: "gio"@,
            args: seq!["mount"@, netloc::strict_url(l)],
            hint: None,
        },
        (Platform::Linux, other) => PlanView::Unsupported {
            reason: netloc::label_text(other)
                + " needs a privileged mount on Linux; mount it with sudo and bookmark the local path"@,
        },
    }
}

fn unc(location: &Location) -> (r: String)
    ensures
        r@ == unc_path(location.host@, location.path@),
{
    let parts: Vec<String> = text::split_text(location.path.as_str(), '/');
    let ghost all = text::views(parts@);
    let mut out: String = text::concat2("\\\\", location.host.as_str());
    let ghost front = out@;
    let mut i: usize = 0;
    assert(all.take(0) =~= Seq::<Seq<char>>::empty());
    assert(front + backslashed(all.take(0)) =~= front);
    while i < parts.len()
        invariant
            i <= parts@.len(),
            all == text::views(parts@),
            out@ == front + backslashed(all.take(i as int)),
        decreases parts@.len() - i,
    {
        let ghost was = out@;
        proof {
            assert(all.take(i + 1).drop_last() =~= all.take(i as int));
            assert(all.take(i + 1).last() == parts@[i as int]@);
        }
        if !parts[i].as_str().is_empty() {
            out.append("\\");
            out.append(parts[i].as_str());
            assert(out@ =~= front + (backslashed(all.take(i as int)) + "\\"@ + parts@[i as int]@));
        }
        i += 1;
    }
    assert(all.take(i as int) =~= all);
    out
}

fn mac_volume_hint(style: Style, location: &Location) -> (r: Option<String>)
    ensures
        text::optional(r) == volume_hint(style, location.path@),
{
    let share: &str = location.share();
    if share.is_empty() {
        None
    } else {
        Some(pathname::join(style, "/Volumes", share))
    }
}

/// Decide how to attach `location` on `platform`.
pub fn plan_for(style: Style, platform: Platform, location: &Location) -> (r: MapPlan)
    ensures
        r@ == plan_of(style, platform, location@),
{
    let protocol: Protocol = location.protocol;
    if protocol == Protocol::Local {
        return MapPlan::Direct(location.path.clone());
    }
    match platform {
        Platform::Windows => {
            if protocol == Protocol::Smb {
                MapPlan::Direct(unc(location))
            } else {
                MapPlan::Unsupported {
                    reason: text::concat3(
                        "Windows cannot mount ",
                        protocol.label(),
                        " directly; map it in Explorer first, then bookmark the drive letter",
                    ),
                }
            }
        },
        Platform::MacOs => {
            if protocol == Protocol::Smb || protocol == Protocol::Afp || protocol == Protocol::Nfs {
                let mut args: Vec<String> = Vec::new();
                args.push(location.os_url());
                assert(text::views(args@) =~= seq![netloc::strict_url(location@)]);
                MapPlan::Command {
                    program: "open".to_owned(),
                    args,
                    hint: mac_volume_hint(style, location),
                }
            } else {
                MapPlan::Unsupported {
                    reason: text::concat3(
                        "macOS removed ",
                        protocol.label(),
                        " mounting from Finder (11+); use a third-party mounter such as macFUSE/sshfs, or mount it and bookmark the local path",
                    ),
                }
            }
        },
        Platform::Linux => {
            if protocol == Protocol::Smb || protocol == Protocol::Ftp || protocol
                == Protocol::Sftp {
                let mut args: Vec<String> = Vec::new();
                args.push("mount".to_owned());
                args.push(location.os_url());
                assert(text::views(args@) =~= seq!["mount"@, netloc::strict_url(location@)]);
                MapPlan::Command { program: "gio".to_owned(), args, hint: None }
            } else {
                MapPlan::Unsupported {
                    reason: text::concat2(
                        protocol.label(),
                        " needs a privileged mount on Linux; mount it with sudo and bookmark the local path",
                    ),
                }
            }
        },
    }
}

// ---- looking for what is mounted -------------------------------------------------

/// The directories of the system's volumes that are there on Linux, of the
/// ones where they may be.
pub open spec fn present(paths: Seq<Seq<char>>, there: Seq<Seq<char>>) -> Seq<Seq<char>>
    decreases paths.len(),
{
    if paths.len() == 0 {
        Seq::empty()
    } else if there.contains(paths.last()) {
        present(paths.drop_last(), there).push(paths.last())
    } else {
        present(paths.drop_last(), there)
    }
}

/// Where Linux may park mounted volumes: `gvfs` below each session directory,
/// then the usual places.
pub open spec fn linux_places(style: Style, sessions: Seq<Seq<char>>) -> Seq<Seq<char>> {
    sessions.map_values(|session: Seq<char>| pathname::joined(style, session, "gvfs"@)) + seq![
        "/media"@,
        "/mnt"@,
        "/run/media"@,
    ]
}

/// Directories where the OS parks mounted volumes.
///
/// `sessions` are the entries of `/run/user`, and `there` are the paths that
/// are directories; only Linux asks about either.
pub fn candidate_roots(
    style: Style,
    platform: Platform,
    sessions: &Vec<String>,
    there: &Vec<String>,
) -> (r: Vec<String>)
    ensures
        text::views(r@) == match platform {
            Platform::MacOs => seq!["/Volumes"@],
            Platform::Windows => Seq::empty(),
            Platform::Linux => present(
                linux_places(style, text::views(sessions@)),
                text::views(there@),
            ),
        },
{
    let mut roots: Vec<String> = Vec::new();
    match platform {
        Platform::MacOs => {
            roots.push("/Volumes".to_owned());
            assert(text::views(roots@) =~= seq!["/Volumes"@]);
            roots
        },
        Platform::Windows => {
            assert(text::views(roots@) =~= Seq::empty());
            roots
        },
        Platform::Linux => {
            let mut places: Vec<String> = Vec::new();
            let mut i: usize = 0;
            while i < sessions.len()
                invariant
                    i <= sessions@.len(),
                    places@.len() == i,
                    forall|j: int|
                        0 <= j < i ==> (#[trigger] places@[j])@ == pathname::joined(
                            style,
                            sessions@[j]@,
                            "gvfs"@,
                        ),
                decreases sessions@.len() - i,
            {
                places.push(pathname::join(style, sessions[i].as_str(), "gvfs"));
                i += 1;
            }
            places.push("/media".to_owned());
            places.push("/mnt".to_owned());
            places.push("/run/media".to_owned());
            let ghost all = text::views(places@);
            assert(all =~= linux_places(style, text::views(sessions@)));
            let mut k: usize = 0;
            assert(all.take(0) =~= Seq::<Seq<char>>::empty());
            assert(text::views(roots@) =~= Seq::empty());
            while k < places.len()
                invariant
                    k <= places@.len(),
                    all == text::views(places@),
                    text::views(roots@) == present(all.take(k as int), text::views(there@)),
                decreases places@.len() - k,
            {
                proof {
                    assert(all.take(k + 1).drop_last() =~= all.take(k as int));
                    assert(all.take(k + 1).last() == places@[k as int]@);
                }
                if text::among(places[k].as_str(), there) {
                    let ghost was = text::views(roots@);
                    roots.push(places[k].clone());
                    assert(text::views(roots@) =~= was.push(places@[k as int]@));
                }
                k += 1;
            }
            assert(all.take(k as int) =~= all);
            roots
        },
    }
}

/// A directory that lies where volumes are parked.
#[derive(Debug, Clone, PartialEq, Eq)]
pub struct Mounted {
    pub name: String,
    pub path: String,
}

/// How well the name of a directory fits a host and a share, all in small
/// letters: both named, exactly the share, the host named, nothing.
pub open spec fn fit(name: Seq<char>, host: Seq<char>, share: Seq<char>) -> int {
    let has_host = host.len() > 0 && text::holds(name, host);
    let has_share = share.len() > 0 && text::holds(name, share);
    if has_host && has_share {
        3
    } else if share.len() > 0 && name == share {
        2
    } else if has_host {
        1
    } else {
        0
    }
}

/// How well a directory fits a location.
pub open spec fn score(mounted: Mounted, l: netloc::LocationView) -> int {
    fit(
        text::lowercase(mounted.name@),
        text::lowercase(l.host),
        text::lowercase(netloc::before_first(l.path, '/')),
    )
}

/// Look for an already attached mount belonging to `location` among the
/// directories found where volumes are parked.
///
/// Mount point names vary a lot, so candidates are scored instead of
/// reproducing each naming scheme. The first of the best wins.
pub fn find_mount_in(found: &Vec<Mounted>, location: &Location) -> (r: Option<String>)
    ensures
        match r {
            Some(path) => location.protocol != Protocol::Local && exists|i: int|
                {
                    &&& 0 <= i < found@.len()
                    &&& path == (#[trigger] found@[i]).path
                    &&& score(found@[i], location@) > 0
                    &&& forall|j: int|
                        0 <= j < found@.len() ==> score(#[trigger] found@[j], location@) <= score(
                            found@[i],
                            location@,
                        )
                    &&& forall|j: int|
                        0 <= j < i ==> score(#[trigger] found@[j], location@) < score(
                            found@[i],
                            location@,
                        )
                },
            None => location.protocol == Protocol::Local || forall|j: int|
                0 <= j < found@.len() ==> score(#[trigger] found@[j], location@) == 0,
        },
{
    if !location.protocol.is_network() {
        return None;
    }
    let host: String = text::to_lowercase(location.host.as_str());
    let share: String = text::to_lowercase(location.share());
    let mut best: usize = 0;
    let mut best_score: u8 = 0;
    let mut i: usize = 0;
    while i < found.len()
        invariant
            i <= found@.len(),
            host@ == text::lowercase(location@.host),
            share@ == text::lowercase(netloc::before_first(location@.path, '/')),
            best_score > 0 ==> best < i && best_score == score(found@[best as int], location@),
            forall|j: int| 0 <= j < i ==> score(#[trigger] found@[j], location@) <= best_score,
            best_score > 0 ==> forall|j: int|
                0 <= j < best ==> score(#[trigger] found@[j], location@) < best_score,
        decreases found@.len() - i,
    {
        let name: String = text::to_lowercase(found[i].name.as_str());
        let has_host: bool = !host.as_str().is_empty() && text::contains(
            name.as_str(),
            host.as_str(),
        );
        let has_share: bool = !share.as_str().is_empty() && text::contains(
            name.as_str(),
            share.as_str(),
        );
        let here: u8 = if has_host && has_share {
            3
        } else if !share.as_str().is_empty() && text::same(name.as_str(), share.as_str()) {
            2
        } else if has_host {
            1
        } else {
            0
        };
        assert(here == score(found@[i as int], location@));
        if here > best_score {
            best = i;
            best_score = here;
        }
        i += 1;
    }
    if best_score > 0 {
        Some(found[best].path.clone())
    } else {
        None
    }
}

/// The pieces that are not empty, each below the one before.
pub open spec fn below(style: Style, base: Seq<char>, pieces: Seq<Seq<char>>) -> Seq<char>
    decreases pieces.len(),
{
    if pieces.len() == 0 {
        base
    } else if pieces.last().len() == 0 {
        below(style, base, pieces.drop_last())
    } else {
        pathname::joined(style, below(style, base, pieces.drop_last()), pieces.last())
    }
}

/// The place below `base` that a location names: its path without the share.
pub open spec fn place_below(style: Style, base: Seq<char>, path: Seq<char>) -> Seq<char> {
    below(style, base, text::split(netloc::behind_first(path, '/'), '/'))
}

/// Append the part of the location below the share.
pub fn with_subpath(style: Style, base: &str, location: &Location) -> (r: String)
    ensures
        r@ == place_below(style, base@, location.path@),
{
    let parts: Vec<String> = text::split_text(location.subpath(), '/');
    let ghost all = text::views(parts@);
    let mut out: String = base.to_owned();
    let mut i: usize = 0;
    assert(all.take(0) =~= Seq::<Seq<char>>::empty());
    while i < parts.len()
        invariant
            i <= parts@.len(),
            all == text::views(parts@),
            out@ == below(style, base@, all.take(i as int)),
        decreases parts@.len() - i,
    {
        proof {
            assert(all.take(i + 1).drop_last() =~= all.take(i as int));
            assert(all.take(i + 1).last() == parts@[i as int]@);
        }
        if !parts[i].as_str().is_empty() {
            out = pathname::join(style, out.as_str(), parts[i].as_str());
        }
        i += 1;
    }
    assert(all.take(i as int) =~= all);
    out
}

// ---- attaching --------------------------------------------------------------------

/// Something that happened while a location was being attached.
#[derive(Debug, Clone, PartialEq, Eq)]
pub enum Happened {
    /// Nothing yet.
    Asked,
    /// Whether the path that was asked about is a directory.
    Checked(bool),
    /// What looking through the mounts turned up, before anything was run.
    Looked(Option<String>),
    /// The program could not be started, and why.
    NotStarted(String),
    /// The program ended badly, with what it wrote to its error output.
    Failed(String),
    /// The program ended well.
    Ended,
    /// So many milliseconds have passed since the program ended: what is
    /// mounted now, and whether the hint is a directory now.
    Waited { ms: u64, found: Option<String>, hint_is_there: bool },
}

/// How long a mount is waited for, in milliseconds.
///
/// The wait is not the network's but a person's: the desktop may be asking
/// for a password, and then for a share.
pub const PATIENCE_MS: u64 = 90_000;

/// How long it is between two looks, in milliseconds.
pub const PAUSE_MS: u64 = 250;

/// What attaching a location wants done next.
#[derive(Debug, Clone, PartialEq, Eq)]
pub enum Next {
    /// Find out whether this is a directory.
    Check(String),
    /// Look for a mount that is there already.
    Look,
    /// Run this to its end.
    Run { program: String, args: Vec<String> },
    /// Wait so many milliseconds, then look again.
    Wait(u64),
    /// The panels can browse this.
    Browse(String),
    /// It cannot be attached, and why.
    Refuse(String),
}

/// [`Next`] with its texts as sequences of characters.
pub enum NextView {
    Check(Seq<char>),
    Look,
    Run { program: Seq<char>, args: Seq<Seq<char>> },
    Wait(u64),
    Browse(Seq<char>),
    Refuse(Seq<char>),
}

impl View for Next {
    type V = NextView;

    open spec fn view(&self) -> NextView {
        match *self {
            Next::Check(path) => NextView::Check(path@),
            Next::Look => NextView::Look,
            Next::Run { program, args } => NextView::Run {
                program: program@,
                args: text::views(args@),
            },
            Next::Wait(ms) => NextView::Wait(ms),
            Next::Browse(path) => NextView::Browse(path@),
            Next::Refuse(why) => NextView::Refuse(why@),
        }
    }
}

/// What a plan that runs a program wants next.
pub open spec fn command_next(
    style: Style,
    program: Seq<char>,
    args: Seq<Seq<char>>,
    hint: Option<Seq<char>>,
    l: netloc::LocationView,
    happened: Happened,
) -> NextView {
    match happened {
        Happened::Looked(Some(found)) => NextView::Browse(place_below(style, found@, l.path)),
        Happened::Looked(None) => NextView::Run { program, args },
        Happened::NotStarted(why) => NextView::Refuse("could not run "@ + program + ": "@ + why@),
        Happened::Failed(said) => {
            let detail = text::trimmed(said@);
            if detail.len() == 0 {
                NextView::Refuse(program + " failed to mount "@ + netloc::url(l))
            } else {
                NextView::Refuse(program + ": "@ + detail)
            }
        },
        Happened::Ended => NextView::Wait(0),
        Happened::Waited { ms, found, hint_is_there } => {
            if ms >= PATIENCE_MS {
                NextView::Refuse(
                    netloc::url(l)
                        + " has not appeared yet. If the desktop is still asking for a password, answer it - the share will mount on its own."@,
                )
            } else if found is Some {
                NextView::Browse(place_below(style, found->0@, l.path))
            } else if hint is Some && hint_is_there {
                NextView::Browse(place_below(style, hint->0, l.path))
            } else {
                NextView::Wait(PAUSE_MS)
            }
        },
        _ => NextView::Look,
    }
}

/// What attaching a location wants next, by its plan and by what happened.
pub open spec fn next_of(
    style: Style,
    plan: PlanView,
    l: netloc::LocationView,
    happened: Happened,
) -> NextView {
    match plan {
        PlanView::Direct(path) => match happened {
            Happened::Checked(true) => NextView::Browse(path),
            Happened::Checked(false) => NextView::Refuse("Not reachable: "@ + path),
            _ => NextView::Check(path),
        },
        PlanView::Unsupported { reason } => NextView::Refuse(reason),
        PlanView::Command { program, args, hint } => command_next(
            style,
            program,
            args,
            hint,
            l,
            happened,
        ),
    }
}

fn connect_by_command(
    style: Style,
    program: &String,
    args: &Vec<String>,
    hint: &Option<String>,
    location: &Location,
    happened: Happened,
) -> (r: Next)
    ensures
        r@ == command_next(style, program@, text::views(args@), text::optional(*hint), location@, happened),
{
    match happened {
        Happened::Looked(Some(found)) => Next::Browse(with_subpath(style, found.as_str(), location)),
        Happened::Looked(None) => Next::Run { program: program.clone(), args: text::copied(args) },
        Happened::NotStarted(why) => {
            let mut text_: String = text::concat3("could not run ", program.as_str(), ": ");
            text_.append(why.as_str());
            Next::Refuse(text_)
        },
        Happened::Failed(said) => {
            let detail: &str = text::trim(said.as_str());
            if detail.is_empty() {
                Next::Refuse(
                    text::concat3(
                        program.as_str(),
                        " failed to mount ",
                        location.to_url().as_str(),
                    ),
                )
            } else {
                Next::Refuse(text::concat3(program.as_str(), ": ", detail))
            }
        },
        Happened::Ended => Next::Wait(0),
        Happened::Waited { ms, found, hint_is_there } => {
            if ms >= PATIENCE_MS {
                return Next::Refuse(
                    text::concat2(
                        location.to_url().as_str(),
                        " has not appeared yet. If the desktop is still asking for a password, answer it - the share will mount on its own.",
                    ),
                );
            }
            if let Some(found) = found {
                return Next::Browse(with_subpath(style, found.as_str(), location));
            }
            if hint_is_there {
                if let Some(hint) = hint {
                    return Next::Browse(with_subpath(style, hint.as_str(), location));
                }
            }
            Next::Wait(PAUSE_MS)
        },
        _ => Next::Look,
    }
}

/// Attach `location` if needed: what to do next, given what happened.
///
/// It begins with [`Happened::Asked`] and ends with [`Next::Browse`] or
/// [`Next::Refuse`].
pub fn connect(style: Style, plan: &MapPlan, location: &Location, happened: Happened) -> (r: Next)
    ensures
        r@ == next_of(style, plan@, location@, happened),
{
    match plan {
        MapPlan::Direct(path) => match happened {
            Happened::Checked(true) => Next::Browse(path.clone()),
            Happened::Checked(false) => Next::Refuse(
                text::concat2("Not reachable: ", path.as_str()),
            ),
            _ => Next::Check(path.clone()),
        },
        MapPlan::Unsupported { reason } => Next::Refuse(reason.clone()),
        MapPlan::Command { program, args, hint } => connect_by_command(
            style,
            program,
            args,
            hint,
            location,
            happened,
        ),
    }
}

/// The command that detaches `path`, or why there is none.
pub open spec fn detaching(platform: Platform, path: Seq<char>) -> Result<
    (Seq<char>, Seq<Seq<char>>),
    Seq<char>,
> {
    match platform {
        Platform::MacOs => Ok(("diskutil"@, seq!["unmount"@, path])),
        Platform::Linux => Ok(("gio"@, seq!["mount"@, "-u"@, path])),
        Platform::Windows => Err("nothing to unmount for a UNC path"@),
    }
}

/// How to detach a path: the program and its arguments.
pub fn disconnect(platform: Platform, path: &str) -> (r: Result<(String, Vec<String>), String>)
    ensures
        match r {
            Ok((program, args)) => detaching(platform, path@) == Ok::<
                (Seq<char>, Seq<Seq<char>>),
                Seq<char>,
            >((program@, text::views(args@))),
            Err(why) => detaching(platform, path@) == Err::<
                (Seq<char>, Seq<Seq<char>>),
                Seq<char>,
            >(why@),
        },
{
    let mut args: Vec<String> = Vec::new();
    match platform {
        Platform::MacOs => {
            args.push("unmount".to_owned());
            args.push(path.to_owned());
            assert(text::views(args@) =~= seq!["unmount"@, path@]);
            Ok(("diskutil".to_owned(), args))
        },
        Platform::Linux => {
            args.push("mount".to_owned());
            args.push("-u".to_owned());
            args.push(path.to_owned());
            assert(text::views(args@) =~= seq!["mount"@, "-u"@, path@]);
            Ok(("gio".to_owned(), args))
        },
        Platform::Windows => Err("nothing to unmount for a UNC path".to_owned()),
    }
}

/// What detaching reports: nothing where the program ended well, otherwise
/// why not.
pub fn disconnected(
    program: &str,
    outcome: &Happened,
) -> (r: Result<(), String>)
    ensures
        match r {
            Ok(()) => !(outcome is NotStarted) && !(outcome is Failed),
            Err(why) => match *outcome {
                Happened::NotStarted(said) => why@ == "could not run "@ + program@ + ": "@ + said@,
                Happened::Failed(said) => why@ == text::trimmed(said@),
                _ => false,
            },
        },
{
    match outcome {
        Happened::NotStarted(said) => {
            let mut why: String = text::concat3("could not run ", program, ": ");
            why.append(said.as_str());
            Err(why)
        },
        Happened::Failed(said) => Err(text::trim(said.as_str()).to_owned()),
        _ => Ok(()),
    }
}

/// How well a mount fits: best where its name holds both the host and the
/// share, then where it is the share, then where it holds the host; and not
/// at all else.
pub proof fn law_a_mount_fits_by_host_and_share(
    name: Seq<char>,
    host: Seq<char>,
    share: Seq<char>,
)
    requires
        host.len() > 0,
    ensures
        fit(name, host, share) == 3 <==> text::holds(name, host) && share.len() > 0 && text::holds(
            name,
            share,
        ),
        fit(name, host, share) >= 2 <==> share.len() > 0 && (name == share || (text::holds(
            name,
            host,
        ) && text::holds(name, share))),
        fit(name, host, share) > 0 <==> text::holds(name, host) || (share.len() > 0 && name
            == share),
{
    if name == share {
        assert(name.subrange(0, share.len() as int) =~= share);
        assert(text::stands_at(name, share, 0));
    }
}

/// The case of a mount's name is no matter.
pub proof fn law_a_mount_is_found_whatever_its_case(
    one: Mounted,
    other: Mounted,
    l: netloc::LocationView,
)
    requires
        text::all_ascii(one.name@),
        text::all_ascii(other.name@),
        text::ascii_lower(one.name@) == text::ascii_lower(other.name@),
    ensures
        score(one, l) == score(other, l),
{
}

proof fn lemma_below(style: Style, base: Seq<char>, a: Seq<Seq<char>>, b: Seq<Seq<char>>)
    ensures
        below(style, base, a + b) == below(style, below(style, base, a), b),
    decreases b.len(),
{
    if b.len() == 0 {
        assert(a + b =~= a);
    } else {
        assert((a + b).drop_last() =~= a + b.drop_last());
        lemma_below(style, base, a, b.drop_last());
    }
}

/// What lies below a share is found below its mount, directory by directory:
/// the share itself is the mount, one name more is that name below it, and
/// what follows goes on from there.
pub proof fn law_the_place_lies_below_the_mount(
    style: Style,
    base: Seq<char>,
    share: Seq<char>,
    piece: Seq<char>,
    rest: Seq<char>,
)
    requires
        !share.contains('/'),
        !piece.contains('/'),
        piece.len() > 0,
    ensures
        place_below(style, base, share) == base,
        place_below(style, base, share + seq!['/'] + piece) == pathname::joined(
            style,
            base,
            piece,
        ),
        place_below(style, base, share + seq!['/'] + piece + seq!['/'] + rest) == place_below(
            style,
            pathname::joined(style, base, piece),
            share + seq!['/'] + rest,
        ),
{
    assert forall|j: int| 0 <= j < share.len() implies share[j] != '/' by {
        assert(share.contains(share[j]));
    }
    assert forall|j: int| 0 <= j < piece.len() implies piece[j] != '/' by {
        assert(piece.contains(piece[j]));
    }
    let none = Seq::<char>::empty();
    let nothing = Seq::<Seq<char>>::empty();
    text::lemma_seek_is(share, '/', 0, share.len() as int);
    text::lemma_split_whole(none, '/');
    assert(seq![none].drop_last() =~= nothing);
    assert(netloc::behind_first(share, '/') =~= none);
    assert(below(style, base, seq![none]) == below(style, base, nothing));
    let one = share + seq!['/'] + piece;
    text::lemma_seek_is(one, '/', 0, share.len() as int);
    assert(netloc::behind_first(one, '/') =~= piece);
    text::lemma_split_whole(piece, '/');
    assert(seq![piece].drop_last() =~= nothing);
    assert(below(style, base, nothing) == base);
    assert(below(style, base, seq![piece]) == pathname::joined(style, base, piece));
    let more = one + seq!['/'] + rest;
    let tail = share + seq!['/'] + rest;
    text::lemma_seek_is(more, '/', 0, share.len() as int);
    text::lemma_seek_is(tail, '/', 0, share.len() as int);
    let deeper = piece + seq!['/'] + rest;
    assert(netloc::behind_first(more, '/') =~= deeper);
    assert(netloc::behind_first(tail, '/') =~= rest);
    text::lemma_split_at(deeper, '/', piece.len() as int);
    assert(deeper.take(piece.len() as int) =~= piece);
    assert(deeper.skip(piece.len() as int + 1) =~= rest);
    lemma_below(style, base, seq![piece], text::split(rest, '/'));
}

/// The path of a share for Windows has a backslash in front of each of its
/// names, and drops what is empty.
pub proof fn law_names_are_backslashed_one_by_one(
    first: Seq<Seq<char>>,
    second: Seq<Seq<char>>,
    piece: Seq<char>,
)
    ensures
        backslashed(first + second) == backslashed(first) + backslashed(second),
        backslashed(seq![piece]) == if piece.len() == 0 {
            Seq::empty()
        } else {
            seq!['\\'] + piece
        },
    decreases second.len(),
{
    let all = first + second;
    if second.len() == 0 {
        assert(all =~= first);
        assert(backslashed(first) + backslashed(second) =~= backslashed(first));
    } else {
        assert(all.drop_last() =~= first + second.drop_last());
        law_names_are_backslashed_one_by_one(first, second.drop_last(), piece);
        assert(backslashed(all) =~= backslashed(first) + backslashed(second));
    }
    reveal_strlit("\\");
    let one = seq![piece];
    assert(one.drop_last() =~= Seq::<Seq<char>>::empty());
    assert(backslashed(one.drop_last()) =~= Seq::<char>::empty());
    assert(backslashed(one) =~= if piece.len() == 0 {
        Seq::empty()
    } else {
        seq!['\\'] + piece
    });
}

/// Attaching by a program: what is mounted already is browsed and nothing is
/// run; where nothing is, the program is run; then it is waited for, a quarter
/// of a second between two looks, until it is there or a minute and a half
/// has passed.
pub proof fn law_attaching_runs_only_where_nothing_is_mounted(
    style: Style,
    program: Seq<char>,
    args: Seq<Seq<char>>,
    hint: Option<Seq<char>>,
    l: netloc::LocationView,
    found: String,
    ms: u64,
    hint_is_there: bool,
)
    ensures
        ({
            let plan = PlanView::Command { program, args, hint };
            let waited = |found: Option<String>| Happened::Waited { ms, found, hint_is_there };
            &&& next_of(style, plan, l, Happened::Asked) == NextView::Look
            &&& next_of(style, plan, l, Happened::Looked(Some(found))) == NextView::Browse(
                place_below(style, found@, l.path),
            )
            &&& next_of(style, plan, l, Happened::Looked(None)) == (NextView::Run {
                program,
                args,
            })
            &&& next_of(style, plan, l, Happened::Ended) == NextView::Wait(0)
            &&& ms < 90_000 ==> next_of(style, plan, l, waited(Some(found))) == NextView::Browse(
                place_below(style, found@, l.path),
            )
            &&& ms < 90_000 && hint is Some && hint_is_there ==> next_of(
                style,
                plan,
                l,
                waited(None),
            ) == NextView::Browse(place_below(style, hint->0, l.path))
            &&& ms < 90_000 && (hint is None || !hint_is_there) ==> next_of(
                style,
                plan,
                l,
                waited(None),
            ) == NextView::Wait(250)
            &&& ms >= 90_000 ==> next_of(style, plan, l, waited(Some(found))) is Refuse && next_of(
                style,
                plan,
                l,
                waited(None),
            ) is Refuse
        }),
{
}

/// A plan hands the location over as it is: to a program as its strict URL,
/// the last argument; to Windows as a path of the host; and a local one as
/// its own path.
pub proof fn law_a_plan_is_for_its_location(
    style: Style,
    platform: Platform,
    l: netloc::LocationView,
)
    ensures
        match plan_of(style, platform, l) {
            PlanView::Direct(path) => (l.protocol == Protocol::Local && path == l.path) || (
            platform == Platform::Windows && l.protocol == Protocol::Smb && path == seq![
                '\\',
                '\\',
            ] + l.host + backslashed(text::split(l.path, '/'))),
            PlanView::Command { args, hint, .. } => {
                &&& l.protocol != Protocol::Local && platform != Platform::Windows
                &&& args.len() > 0 && args.last() == netloc::strict_url(l)
                &&& platform == Platform::Linux ==> hint is None
                &&& platform == Platform::MacOs ==> (hint is Some <==> netloc::before_first(
                    l.path,
                    '/',
                ).len() > 0)
            },
            PlanView::Unsupported { .. } => l.protocol != Protocol::Local,
        },
        l.protocol == Protocol::Smb ==> !(plan_of(style, platform, l) is Unsupported),
        l.protocol == Protocol::Local ==> plan_of(style, platform, l) is Direct,
{
    reveal_strlit("\\\\");
    assert("\\\\"@ =~= seq!['\\', '\\']);
}

/// Of the places where mounts may appear those are looked in that are there,
/// in their order.
pub proof fn law_only_places_that_are_there_are_looked_in(
    paths: Seq<Seq<char>>,
    there: Seq<Seq<char>>,
)
    ensures
        present(paths, there) == paths.filter(|path: Seq<char>| there.contains(path)),
    decreases paths.len(),
{
    reveal(Seq::filter);
    if paths.len() > 0 {
        law_only_places_that_are_there_are_looked_in(paths.drop_last(), there);
    }
}

/// On macOS a share is expected under its own name where volumes appear.
pub proof fn law_a_share_is_expected_among_the_volumes(style: Style, l: netloc::LocationView)
    requires
        l.protocol == Protocol::Smb,
    ensures
        plan_of(style, Platform::MacOs, l) is Command,
        ({
            let share = netloc::before_first(l.path, '/');
            plan_of(style, Platform::MacOs, l)->hint == if share.len() == 0 {
                None
            } else {
                Some(pathname::joined(style, "/Volumes"@, share))
            }
        }),
{
}

} // verus!
