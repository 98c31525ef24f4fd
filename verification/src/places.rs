//! The places a machine already has: drives, volumes and the user's folders.
//!
//! What is on the machine is handed in: [`to_look_at`] says which paths matter
//! to [`drives`], and a [`Probe`] says what was seen of each.

use vstd::prelude::*;
use crate::mount::Platform;
use crate::pathname;
use crate::pathname::Style;
use crate::text;

verus! {

broadcast use vstd::string::group_string_axioms;

/// What kind of place this is, so a front-end can pick an icon and an order.
#[derive(Debug, Clone, Copy, PartialEq, Eq, Structural)]
pub enum Kind {
    /// The user's own home.
    Home,
    /// One of the well-known folders inside it.
    Folder,
    /// A disk: a drive letter on Windows, the root or a mounted volume
    /// elsewhere.
    Drive,
}

#[derive(Debug, Clone, PartialEq, Eq)]
pub struct Place {
    pub name: String,
    pub path: String,
    pub kind: Kind,
    /// Bytes free on the disk this sits on, where that could be asked.
    /// `None` for a folder.
    pub free: Option<u64>,
}

/// A place, as characters.
#[verifier::ext_equal]
pub struct PlaceView {
    pub name: Seq<char>,
    pub path: Seq<char>,
    pub kind: Kind,
    pub free: Option<u64>,
}

impl View for Place {
    type V = PlaceView;

    open spec fn view(&self) -> PlaceView {
        PlaceView { name: self.name@, path: self.path@, kind: self.kind, free: self.free }
    }
}

/// Places, as characters.
pub open spec fn place_views(places: Seq<Place>) -> Seq<PlaceView> {
    places.map_values(|place: Place| place@)
}

/// Whether a path is among some places.
pub open spec fn is_listed(style: Style, places: Seq<PlaceView>, path: Seq<char>) -> bool {
    exists|i: int| 0 <= i < places.len() && pathname::same(style, (#[trigger] places[i]).path, path)
}

fn listed(style: Style, places: &Vec<Place>, path: &str) -> (r: bool)
    ensures
        r == is_listed(style, place_views(places@), path@),
{
    let ghost all = place_views(places@);
    let mut i: usize = 0;
    while i < places.len()
        invariant
            i <= places@.len(),
            all == place_views(places@),
            forall|j: int| 0 <= j < i ==> !pathname::same(style, (#[trigger] all[j]).path, path@),
        decreases places@.len() - i,
    {
        assert(all[i as int] == places@[i as int]@);
        if pathname::is_same(style, places[i].path.as_str(), path) {
            return true;
        }
        i += 1;
    }
    false
}

// ---- the user's own ---------------------------------------------------------------------------

/// The home alone.
pub open spec fn home_place(home: Option<Seq<char>>) -> Seq<PlaceView> {
    match home {
        Some(home) => seq![
            PlaceView { name: "Home"@, path: home, kind: Kind::Home, free: None },
        ],
        None => Seq::empty(),
    }
}

/// Folders with their names and paths as characters.
pub open spec fn folder_views(folders: Seq<(String, Option<String>)>) -> Seq<
    (Seq<char>, Option<Seq<char>>),
> {
    folders.map_values(|folder: (String, Option<String>)| (folder.0@, text::optional(folder.1)))
}

/// The home and the folders: a folder that is not there, or that is listed
/// already, is left out.
pub open spec fn places_of_user(
    style: Style,
    home: Option<Seq<char>>,
    folders: Seq<(Seq<char>, Option<Seq<char>>)>,
) -> Seq<PlaceView>
    decreases folders.len(),
{
    if folders.len() == 0 {
        home_place(home)
    } else {
        let front = places_of_user(style, home, folders.drop_last());
        let (name, path) = folders.last();
        match path {
            Some(path) => if is_listed(style, front, path) {
                front
            } else {
                front.push(PlaceView { name, path, kind: Kind::Folder, free: None })
            },
            None => front,
        }
    }
}

/// The user's home and the well-known folders inside it.
pub fn user_places(
    style: Style,
    home: Option<String>,
    folders: &Vec<(String, Option<String>)>,
) -> (r: Vec<Place>)
    ensures
        place_views(r@) == places_of_user(style, text::optional(home), folder_views(folders@)),
{
    let ghost all = folder_views(folders@);
    let ghost at_home = text::optional(home);
    let mut out: Vec<Place> = Vec::new();
    if let Some(home) = home {
        out.push(Place { name: "Home".to_owned(), path: home, kind: Kind::Home, free: None });
    }
    assert(place_views(out@) =~= home_place(at_home));
    let mut i: usize = 0;
    assert(all.take(0) =~= Seq::<(Seq<char>, Option<Seq<char>>)>::empty());
    while i < folders.len()
        invariant
            i <= folders@.len(),
            all == folder_views(folders@),
            place_views(out@) == places_of_user(style, at_home, all.take(i as int)),
        decreases folders@.len() - i,
    {
        proof {
            assert(all.take(i + 1).drop_last() =~= all.take(i as int));
            assert(all.take(i + 1).last() == (
                folders@[i as int].0@,
                text::optional(folders@[i as int].1),
            ));
        }
        if let Some(path) = &folders[i].1 {
            if !listed(style, &out, path.as_str()) {
                let ghost was = place_views(out@);
                let place: Place = Place {
                    name: folders[i].0.clone(),
                    path: path.clone(),
                    kind: Kind::Folder,
                    free: None,
                };
                out.push(place);
                assert(place_views(out@) =~= was.push(place@));
            }
        }
        i += 1;
    }
    assert(all.take(i as int) =~= all);
    out
}

// ---- the machine's ----------------------------------------------------------------------------

/// Something in a directory where removable media is mounted.
#[derive(Debug)]
pub struct Volume {
    pub name: String,
    pub path: String,
    pub is_dir: bool,
    pub free: Option<u64>,
}

/// What was seen of a path: whether it exists, how much is free there, and
/// what it holds, where it could be read.
#[derive(Debug)]
pub struct Probe {
    pub path: String,
    pub exists: bool,
    pub free: Option<u64>,
    pub holds: Vec<Volume>,
}

/// The path of a drive letter.
pub open spec fn drive_path(letter: int) -> Seq<char> {
    seq![(65 + letter) as char] + ":\\"@
}

/// The paths of the first so many drive letters.
pub open spec fn drive_paths(count: nat) -> Seq<Seq<char>> {
    Seq::new(count, |letter: int| drive_path(letter))
}

/// Where a system puts removable media.
pub open spec fn media_roots(platform: Platform, user: Option<Seq<char>>) -> Seq<Seq<char>> {
    let common = seq!["/media"@, "/mnt"@];
    let own = match user {
        Some(user) => seq!["/run/media/"@ + user, "/media/"@ + user] + common,
        None => common,
    };
    if platform == Platform::MacOs {
        seq!["/Volumes"@] + own
    } else {
        own
    }
}

/// The paths that matter to the list of drives.
pub open spec fn paths_to_look_at(platform: Platform, user: Option<Seq<char>>) -> Seq<Seq<char>> {
    if platform == Platform::Windows {
        drive_paths(26)
    } else {
        seq!["/"@] + media_roots(platform, user)
    }
}

fn letter_path(letter: u8) -> (r: String)
    requires
        letter < 26,
    ensures
        r@ == drive_path(letter as int),
{
    let mut r: String = String::new();
    r.push((65 + letter) as char);
    r.append(":\\");
    assert(r@ =~= drive_path(letter as int));
    r
}

fn roots(platform: Platform, user: Option<&str>) -> (r: Vec<String>)
    ensures
        text::views(r@) == media_roots(
            platform,
            match user {
                Some(user) => Some(user@),
                None => None,
            },
        ),
{
    let mut out: Vec<String> = Vec::new();
    if platform == Platform::MacOs {
        out.push("/Volumes".to_owned());
    }
    if let Some(user) = user {
        out.push(text::concat2("/run/media/", user));
        out.push(text::concat2("/media/", user));
    }
    out.push("/media".to_owned());
    out.push("/mnt".to_owned());
    assert(text::views(out@) =~= media_roots(
        platform,
        match user {
            Some(user) => Some(user@),
            None => None,
        },
    ));
    out
}

/// The paths that [`drives`] has to be told about.
pub fn to_look_at(platform: Platform, user: Option<&str>) -> (r: Vec<String>)
    ensures
        text::views(r@) == paths_to_look_at(
            platform,
            match user {
                Some(user) => Some(user@),
                None => None,
            },
        ),
{
    if platform == Platform::Windows {
        let mut out: Vec<String> = Vec::new();
        let mut letter: u8 = 0;
        assert(text::views(out@) =~= drive_paths(0));
        while letter < 26
            invariant
                letter <= 26,
                text::views(out@) =~= drive_paths(letter as nat),
            decreases 26 - letter,
        {
            let ghost was = text::views(out@);
            out.push(letter_path(letter));
            assert(text::views(out@) =~= was.push(drive_path(letter as int)));
            letter += 1;
        }
        out
    } else {
        let mut rest: Vec<String> = roots(platform, user);
        let ghost later = text::views(rest@);
        let mut out: Vec<String> = vec!["/".to_owned()];
        out.append(&mut rest);
        assert(text::views(out@) =~= seq!["/"@] + later);
        out
    }
}

/// What was seen of a path: the first that is about it.
pub open spec fn probe_at(seen: Seq<Probe>, path: Seq<char>, from: int) -> int
    decreases seen.len() - from,
{
    if from >= seen.len() {
        seen.len() as int
    } else if seen[from].path@ == path {
        from
    } else {
        probe_at(seen, path, from + 1)
    }
}

/// Whether a path was seen to exist.
pub open spec fn seen_there(seen: Seq<Probe>, path: Seq<char>) -> bool {
    probe_at(seen, path, 0) < seen.len() && seen[probe_at(seen, path, 0)].exists
}

/// How much was seen to be free at a path.
pub open spec fn seen_free(seen: Seq<Probe>, path: Seq<char>) -> Option<u64> {
    if probe_at(seen, path, 0) < seen.len() {
        seen[probe_at(seen, path, 0)].free
    } else {
        None
    }
}

/// The drives of the letters that answer, among the first so many.
pub open spec fn lettered(seen: Seq<Probe>, count: nat) -> Seq<PlaceView>
    decreases count,
{
    if count == 0 {
        Seq::empty()
    } else {
        let front = lettered(seen, (count - 1) as nat);
        let path = drive_path(count - 1);
        if seen_there(seen, path) {
            front.push(
                PlaceView {
                    name: seq![(65 + count - 1) as char] + ":"@,
                    path,
                    kind: Kind::Drive,
                    free: seen_free(seen, path),
                },
            )
        } else {
            front
        }
    }
}

/// Places with the volumes that some directory holds: those that are
/// directories and not listed already.
pub open spec fn with_volumes(
    style: Style,
    places: Seq<PlaceView>,
    volumes: Seq<Volume>,
) -> Seq<PlaceView>
    decreases volumes.len(),
{
    if volumes.len() == 0 {
        places
    } else {
        let front = with_volumes(style, places, volumes.drop_last());
        let volume = volumes.last();
        if !volume.is_dir || is_listed(style, front, volume.path@) {
            front
        } else {
            front.push(
                PlaceView {
                    name: volume.name@,
                    path: volume.path@,
                    kind: Kind::Drive,
                    free: volume.free,
                },
            )
        }
    }
}

/// Places with the volumes found where removable media is mounted.
pub open spec fn with_media(
    style: Style,
    places: Seq<PlaceView>,
    seen: Seq<Probe>,
    roots: Seq<Seq<char>>,
) -> Seq<PlaceView>
    decreases roots.len(),
{
    if roots.len() == 0 {
        places
    } else {
        let front = with_media(style, places, seen, roots.drop_last());
        if seen_there(seen, roots.last()) {
            with_volumes(style, front, seen[probe_at(seen, roots.last(), 0)].holds@)
        } else {
            front
        }
    }
}

/// The disks of a machine.
pub open spec fn disks(
    style: Style,
    platform: Platform,
    seen: Seq<Probe>,
    user: Option<Seq<char>>,
) -> Seq<PlaceView> {
    if platform == Platform::Windows {
        lettered(seen, 26)
    } else {
        with_media(
            style,
            seq![
                PlaceView {
                    name: "/"@,
                    path: "/"@,
                    kind: Kind::Drive,
                    free: seen_free(seen, "/"@),
                },
            ],
            seen,
            media_roots(platform, user),
        )
    }
}

fn find_probe(seen: &Vec<Probe>, path: &str) -> (r: Option<usize>)
    ensures
        match r {
            Some(at) => at < seen@.len() && at == probe_at(seen@, path@, 0),
            None => probe_at(seen@, path@, 0) == seen@.len(),
        },
{
    let mut i: usize = 0;
    while i < seen.len()
        invariant
            i <= seen@.len(),
            probe_at(seen@, path@, 0) == probe_at(seen@, path@, i as int),
        decreases seen@.len() - i,
    {
        if text::same(seen[i].path.as_str(), path) {
            return Some(i);
        }
        i += 1;
    }
    None
}

fn add_volumes(style: Style, places: &mut Vec<Place>, volumes: &Vec<Volume>)
    ensures
        place_views(final(places)@) == with_volumes(style, place_views(old(places)@), volumes@),
{
    let ghost given = place_views(places@);
    let mut i: usize = 0;
    assert(volumes@.take(0) =~= Seq::<Volume>::empty());
    while i < volumes.len()
        invariant
            i <= volumes@.len(),
            given == place_views(old(places)@),
            place_views(places@) == with_volumes(style, given, volumes@.take(i as int)),
        decreases volumes@.len() - i,
    {
        assert(volumes@.take(i + 1).drop_last() =~= volumes@.take(i as int));
        if volumes[i].is_dir && !listed(style, places, volumes[i].path.as_str()) {
            let ghost was = place_views(places@);
            let place: Place = Place {
                name: volumes[i].name.clone(),
                path: volumes[i].path.clone(),
                kind: Kind::Drive,
                free: volumes[i].free,
            };
            places.push(place);
            assert(place_views(places@) =~= was.push(place@));
        }
        i += 1;
    }
    assert(volumes@.take(i as int) =~= volumes@);
}

/// The disks this machine has.
///
/// On Windows that is the drive letters that answer; elsewhere it is `/`, plus
/// wherever removable media is mounted.
pub fn drives(
    style: Style,
    platform: Platform,
    seen: &Vec<Probe>,
    user: Option<&str>,
) -> (r: Vec<Place>)
    ensures
        place_views(r@) == disks(
            style,
            platform,
            seen@,
            match user {
                Some(user) => Some(user@),
                None => None,
            },
        ),
{
    let mut out: Vec<Place> = Vec::new();
    if platform == Platform::Windows {
        let mut letter: u8 = 0;
        assert(place_views(out@) =~= lettered(seen@, 0));
        while letter < 26
            invariant
                letter <= 26,
                place_views(out@) == lettered(seen@, letter as nat),
            decreases 26 - letter,
        {
            let path: String = letter_path(letter);
            if let Some(at) = find_probe(seen, path.as_str()) {
                if seen[at].exists {
                    let ghost was = place_views(out@);
                    let mut name: String = String::new();
                    name.push((65 + letter) as char);
                    name.append(":");
                    assert(name@ =~= seq![(65 + letter) as char] + ":"@);
                    let place: Place = Place { name, path, kind: Kind::Drive, free: seen[at].free };
                    out.push(place);
                    assert(place_views(out@) =~= was.push(place@));
                }
            }
            letter += 1;
        }
        return out;
    }
    let free: Option<u64> = match find_probe(seen, "/") {
        Some(at) => seen[at].free,
        None => None,
    };
    let root: Place = Place { name: "/".to_owned(), path: "/".to_owned(), kind: Kind::Drive, free };
    out.push(root);
    let ghost first = place_views(out@);
    assert(first =~= seq![root@]);
    let media: Vec<String> = roots(platform, user);
    let ghost all = text::views(media@);
    let mut i: usize = 0;
    assert(all.take(0) =~= Seq::<Seq<char>>::empty());
    while i < media.len()
        invariant
            i <= media@.len(),
            all == text::views(media@),
            place_views(out@) == with_media(style, first, seen@, all.take(i as int)),
        decreases media@.len() - i,
    {
        proof {
            assert(all.take(i + 1).drop_last() =~= all.take(i as int));
            assert(all.take(i + 1).last() == media@[i as int]@);
        }
        if let Some(at) = find_probe(seen, media[i].as_str()) {
            if seen[at].exists {
                add_volumes(style, &mut out, &seen[at].holds);
            }
        }
        i += 1;
    }
    assert(all.take(i as int) =~= all);
    out
}

// ---- laws -------------------------------------------------------------------------------------

/// Whether no two places are the same path.
pub open spec fn all_differ(style: Style, places: Seq<PlaceView>) -> bool {
    forall|i: int, j: int|
        0 <= i < j < places.len() ==> !pathname::same(
            style,
            (#[trigger] places[i]).path,
            (#[trigger] places[j]).path,
        )
}

proof fn lemma_one_more(style: Style, places: Seq<PlaceView>, place: PlaceView)
    requires
        all_differ(style, places),
        !is_listed(style, places, place.path),
    ensures
        all_differ(style, places.push(place)),
{
    let out = places.push(place);
    assert forall|i: int, j: int| 0 <= i < j < out.len() implies !pathname::same(
        style,
        (#[trigger] out[i]).path,
        (#[trigger] out[j]).path,
    ) by {
        assert(out[i] == places[i]);
        if j < places.len() {
            assert(out[j] == places[j]);
        }
    }
}

/// No folder of the user is listed twice.
pub proof fn law_no_folder_is_listed_twice(
    style: Style,
    home: Option<Seq<char>>,
    folders: Seq<(Seq<char>, Option<Seq<char>>)>,
)
    ensures
        all_differ(style, places_of_user(style, home, folders)),
    decreases folders.len(),
{
    if folders.len() > 0 {
        law_no_folder_is_listed_twice(style, home, folders.drop_last());
        let front = places_of_user(style, home, folders.drop_last());
        let (name, path) = folders.last();
        if path is Some && !is_listed(style, front, path->0) {
            lemma_one_more(
                style,
                front,
                PlaceView { name, path: path->0, kind: Kind::Folder, free: None },
            );
        }
    }
}

proof fn lemma_volumes_differ(style: Style, places: Seq<PlaceView>, volumes: Seq<Volume>)
    requires
        all_differ(style, places),
    ensures
        all_differ(style, with_volumes(style, places, volumes)),
    decreases volumes.len(),
{
    if volumes.len() > 0 {
        lemma_volumes_differ(style, places, volumes.drop_last());
        let front = with_volumes(style, places, volumes.drop_last());
        let volume = volumes.last();
        if volume.is_dir && !is_listed(style, front, volume.path@) {
            lemma_one_more(
                style,
                front,
                PlaceView {
                    name: volume.name@,
                    path: volume.path@,
                    kind: Kind::Drive,
                    free: volume.free,
                },
            );
        }
    }
}

proof fn lemma_media_differ(
    style: Style,
    places: Seq<PlaceView>,
    seen: Seq<Probe>,
    roots: Seq<Seq<char>>,
)
    requires
        all_differ(style, places),
    ensures
        all_differ(style, with_media(style, places, seen, roots)),
    decreases roots.len(),
{
    if roots.len() > 0 {
        lemma_media_differ(style, places, seen, roots.drop_last());
        if seen_there(seen, roots.last()) {
            lemma_volumes_differ(
                style,
                with_media(style, places, seen, roots.drop_last()),
                seen[probe_at(seen, roots.last(), 0)].holds@,
            );
        }
    }
}

/// No volume is listed twice.
pub proof fn law_no_volume_is_listed_twice(
    style: Style,
    platform: Platform,
    seen: Seq<Probe>,
    user: Option<Seq<char>>,
)
    requires
        platform != Platform::Windows,
    ensures
        all_differ(style, disks(style, platform, seen, user)),
{
    let root = seq![
        PlaceView { name: "/"@, path: "/"@, kind: Kind::Drive, free: seen_free(seen, "/"@) },
    ];
    assert(all_differ(style, root));
    lemma_media_differ(style, root, seen, media_roots(platform, user));
}

/// Every folder that the user has is listed, and so is the home; and of every
/// folder that is listed the user has it under that name.
pub proof fn law_every_folder_is_listed(
    style: Style,
    home: Option<Seq<char>>,
    folders: Seq<(Seq<char>, Option<Seq<char>>)>,
    i: int,
)
    requires
        0 <= i < folders.len(),
        folders[i].1 is Some,
    ensures
        is_listed(style, places_of_user(style, home, folders), folders[i].1->0),
        home is Some ==> places_of_user(style, home, folders).len() > 0 && places_of_user(
            style,
            home,
            folders,
        )[0].path == home->0,
    decreases folders.len(),
{
    lemma_home_first(style, home, folders);
    let before = folders.drop_last();
    let front = places_of_user(style, home, before);
    let out = places_of_user(style, home, folders);
    let path = folders[i].1->0;
    if i < before.len() {
        assert(before[i] == folders[i]);
        law_every_folder_is_listed(style, home, before, i);
    }
    if is_listed(style, front, path) {
        let k = choose|k: int|
            0 <= k < front.len() && pathname::same(style, (#[trigger] front[k]).path, path);
        assert(out[k] == front[k]);
    } else {
        assert(out[out.len() - 1].path == path);
        assert(pathname::same(style, path, path));
    }
}

proof fn lemma_home_first(
    style: Style,
    home: Option<Seq<char>>,
    folders: Seq<(Seq<char>, Option<Seq<char>>)>,
)
    ensures
        home is Some ==> places_of_user(style, home, folders).len() > 0 && places_of_user(
            style,
            home,
            folders,
        )[0].path == home->0,
    decreases folders.len(),
{
    if folders.len() > 0 {
        lemma_home_first(style, home, folders.drop_last());
    }
}

/// Nothing is listed that the user does not have: a place is the home, or a
/// folder of theirs under its name.
pub proof fn law_only_own_folders_are_listed(
    style: Style,
    home: Option<Seq<char>>,
    folders: Seq<(Seq<char>, Option<Seq<char>>)>,
    k: int,
)
    requires
        0 <= k < places_of_user(style, home, folders).len(),
    ensures
        ({
            let place = places_of_user(style, home, folders)[k];
            &&& place.free is None
            &&& (place.kind == Kind::Home && home == Some(place.path)) || (place.kind
                == Kind::Folder && exists|i: int|
                0 <= i < folders.len() && (#[trigger] folders[i]).0 == place.name && folders[i].1
                    == Some(place.path))
        }),
    decreases folders.len(),
{
    if folders.len() > 0 {
        let before = folders.drop_last();
        let front = places_of_user(style, home, before);
        let place = places_of_user(style, home, folders)[k];
        if k < front.len() {
            law_only_own_folders_are_listed(style, home, before, k);
            if place.kind == Kind::Folder {
                let i = choose|i: int|
                    0 <= i < before.len() && (#[trigger] before[i]).0 == place.name && before[i].1
                        == Some(place.path);
                assert(folders[i] == before[i]);
            }
        } else {
            assert(folders[folders.len() - 1].0 == place.name);
        }
    }
}

proof fn lemma_lettered(seen: Seq<Probe>, count: nat, letter: int)
    requires
        0 <= letter < count,
        count <= 26,
    ensures
        seen_there(seen, drive_path(letter)) ==> exists|k: int|
            0 <= k < lettered(seen, count).len() && (#[trigger] lettered(seen, count)[k]).path
                == drive_path(letter) && lettered(seen, count)[k].free == seen_free(
                seen,
                drive_path(letter),
            ),
    decreases count,
{
    let out = lettered(seen, count);
    let path = drive_path(letter);
    if seen_there(seen, path) {
        if letter < count - 1 {
            lemma_lettered(seen, (count - 1) as nat, letter);
            let front = lettered(seen, (count - 1) as nat);
            let k = choose|k: int|
                0 <= k < front.len() && (#[trigger] front[k]).path == path && front[k].free
                    == seen_free(seen, path);
            assert(out[k] == front[k]);
        } else {
            assert(out[out.len() - 1].path == path);
        }
    }
}

proof fn lemma_lettered_is(seen: Seq<Probe>, count: nat, k: int)
    requires
        0 <= k < lettered(seen, count).len(),
        count <= 26,
    ensures
        exists|letter: int|
            0 <= letter < count && lettered(seen, count)[k].path == #[trigger] drive_path(letter)
                && seen_there(seen, drive_path(letter)),
    decreases count,
{
    if count > 0 {
        let front = lettered(seen, (count - 1) as nat);
        if k < front.len() {
            lemma_lettered_is(seen, (count - 1) as nat, k);
            let letter = choose|letter: int|
                0 <= letter < count - 1 && front[k].path == #[trigger] drive_path(letter)
                    && seen_there(seen, drive_path(letter));
            assert(lettered(seen, count)[k].path == drive_path(letter));
        } else {
            assert(lettered(seen, count)[k].path == drive_path(count - 1));
        }
    }
}

/// On Windows the drives are the letters that answer, all of them and no
/// other, with what is free on each.
pub proof fn law_every_letter_that_answers_is_a_drive(
    style: Style,
    seen: Seq<Probe>,
    user: Option<Seq<char>>,
    letter: int,
    k: int,
)
    requires
        0 <= letter < 26,
    ensures
        seen_there(seen, drive_path(letter)) ==> exists|m: int|
            0 <= m < disks(style, Platform::Windows, seen, user).len() && (#[trigger] disks(
                style,
                Platform::Windows,
                seen,
                user,
            )[m]).path == drive_path(letter) && disks(style, Platform::Windows, seen, user)[m].free
                == seen_free(seen, drive_path(letter)),
        0 <= k < disks(style, Platform::Windows, seen, user).len() ==> exists|own: int|
            0 <= own < 26 && disks(style, Platform::Windows, seen, user)[k].path
                == #[trigger] drive_path(own) && seen_there(seen, drive_path(own)),
{
    lemma_lettered(seen, 26, letter);
    let out = disks(style, Platform::Windows, seen, user);
    assert(out == lettered(seen, 26));
    if seen_there(seen, drive_path(letter)) {
        let m = choose|m: int|
            0 <= m < lettered(seen, 26).len() && (#[trigger] lettered(seen, 26)[m]).path
                == drive_path(letter) && lettered(seen, 26)[m].free == seen_free(
                seen,
                drive_path(letter),
            );
        assert(out[m].path == drive_path(letter));
    }
    if 0 <= k < lettered(seen, 26).len() {
        lemma_lettered_is(seen, 26, k);
    }
}

/// Volumes are taken in after what is listed already, which stays as it is.
proof fn lemma_volumes_listed(
    style: Style,
    places: Seq<PlaceView>,
    volumes: Seq<Volume>,
    i: int,
)
    ensures
        places.len() <= with_volumes(style, places, volumes).len(),
        with_volumes(style, places, volumes).take(places.len() as int) == places,
        0 <= i < volumes.len() && volumes[i].is_dir ==> is_listed(
            style,
            with_volumes(style, places, volumes),
            volumes[i].path@,
        ),
    decreases volumes.len(),
{
    let out = with_volumes(style, places, volumes);
    if volumes.len() == 0 {
        assert(out.take(places.len() as int) =~= places);
    } else {
        let before = volumes.drop_last();
        let front = with_volumes(style, places, before);
        lemma_volumes_listed(style, places, before, i);
        assert(out.take(places.len() as int) =~= front.take(places.len() as int));
        if 0 <= i < volumes.len() && volumes[i].is_dir {
            let path = volumes[i].path@;
            if i < before.len() {
                assert(before[i] == volumes[i]);
            }
            if is_listed(style, front, path) {
                let k = choose|k: int|
                    0 <= k < front.len() && pathname::same(style, (#[trigger] front[k]).path, path);
                assert(out[k] == front[k]);
            } else {
                assert(out[out.len() - 1].path == path);
                assert(pathname::same(style, path, path));
            }
        }
    }
}

proof fn lemma_media_listed(
    style: Style,
    places: Seq<PlaceView>,
    seen: Seq<Probe>,
    roots: Seq<Seq<char>>,
    r: int,
    i: int,
)
    ensures
        places.len() <= with_media(style, places, seen, roots).len(),
        with_media(style, places, seen, roots).take(places.len() as int) == places,
        0 <= r < roots.len() && seen_there(seen, roots[r]) && 0 <= i
            < seen[probe_at(seen, roots[r], 0)].holds@.len() && seen[probe_at(
            seen,
            roots[r],
            0,
        )].holds@[i].is_dir ==> is_listed(
            style,
            with_media(style, places, seen, roots),
            seen[probe_at(seen, roots[r], 0)].holds@[i].path@,
        ),
    decreases roots.len(),
{
    let out = with_media(style, places, seen, roots);
    if roots.len() == 0 {
        assert(out.take(places.len() as int) =~= places);
    } else {
        let before = roots.drop_last();
        let front = with_media(style, places, seen, before);
        lemma_media_listed(style, places, seen, before, r, i);
        if 0 <= r < before.len() {
            assert(before[r] == roots[r]);
        }
        if seen_there(seen, roots.last()) {
            let volumes = seen[probe_at(seen, roots.last(), 0)].holds@;
            lemma_volumes_listed(style, front, volumes, i);
            assert(out.take(front.len() as int) == front);
            assert(out.take(places.len() as int) =~= out.take(front.len() as int).take(
                places.len() as int,
            ));
            if 0 <= r < before.len() && seen_there(seen, roots[r]) {
                let held = seen[probe_at(seen, roots[r], 0)].holds@;
                if 0 <= i < held.len() && held[i].is_dir {
                    let path = held[i].path@;
                    let k = choose|k: int|
                        0 <= k < front.len() && pathname::same(
                            style,
                            (#[trigger] front[k]).path,
                            path,
                        );
                    assert(out.take(front.len() as int)[k] == front[k]);
                    assert(out[k] == front[k]);
                }
            }
        }
    }
}

/// Elsewhere than on Windows the root comes first, and every directory that
/// stands where removable media is mounted is listed.
pub proof fn law_every_mounted_volume_is_listed(
    style: Style,
    platform: Platform,
    seen: Seq<Probe>,
    user: Option<Seq<char>>,
    r: int,
    i: int,
)
    requires
        platform != Platform::Windows,
    ensures
        disks(style, platform, seen, user).len() > 0,
        disks(style, platform, seen, user)[0].path == seq!['/'],
        ({
            let roots = media_roots(platform, user);
            0 <= r < roots.len() && seen_there(seen, roots[r]) && 0 <= i < seen[probe_at(
                seen,
                roots[r],
                0,
            )].holds@.len() && seen[probe_at(seen, roots[r], 0)].holds@[i].is_dir ==> is_listed(
                style,
                disks(style, platform, seen, user),
                seen[probe_at(seen, roots[r], 0)].holds@[i].path@,
            )
        }),
{
    reveal_strlit("/");
    assert("/"@ =~= seq!['/']);
    let root = seq![
        PlaceView { name: "/"@, path: "/"@, kind: Kind::Drive, free: seen_free(seen, "/"@) },
    ];
    lemma_media_listed(style, root, seen, media_roots(platform, user), r, i);
    assert(disks(style, platform, seen, user).take(1)[0] == root[0]);
}

proof fn lemma_only_volumes(
    style: Style,
    places: Seq<PlaceView>,
    volumes: Seq<Volume>,
    k: int,
)
    requires
        places.len() <= k < with_volumes(style, places, volumes).len(),
    ensures
        exists|i: int|
            0 <= i < volumes.len() && (#[trigger] volumes[i]).is_dir && volumes[i].path@
                == with_volumes(style, places, volumes)[k].path && volumes[i].name@ == with_volumes(
                style,
                places,
                volumes,
            )[k].name && volumes[i].free == with_volumes(style, places, volumes)[k].free,
    decreases volumes.len(),
{
    if volumes.len() > 0 {
        let before = volumes.drop_last();
        let front = with_volumes(style, places, before);
        let out = with_volumes(style, places, volumes);
        if k < front.len() {
            lemma_only_volumes(style, places, before, k);
            let i = choose|i: int|
                0 <= i < before.len() && (#[trigger] before[i]).is_dir && before[i].path@
                    == front[k].path && before[i].name@ == front[k].name && before[i].free
                    == front[k].free;
            assert(volumes[i] == before[i]);
            assert(out[k] == front[k]);
        } else {
            assert(volumes[volumes.len() - 1].is_dir);
        }
    }
}

/// What is taken in from where media is mounted are directories that stand
/// there, each under its own name, with what is free on it.
pub proof fn law_only_directories_are_volumes(
    style: Style,
    places: Seq<PlaceView>,
    volumes: Seq<Volume>,
    k: int,
)
    requires
        places.len() <= k < with_volumes(style, places, volumes).len(),
    ensures
        with_volumes(style, places, volumes)[k].kind == Kind::Drive,
        exists|i: int|
            0 <= i < volumes.len() && (#[trigger] volumes[i]).is_dir && volumes[i].path@
                == with_volumes(style, places, volumes)[k].path && volumes[i].name@ == with_volumes(
                style,
                places,
                volumes,
            )[k].name && volumes[i].free == with_volumes(style, places, volumes)[k].free,
{
    lemma_only_volumes(style, places, volumes, k);
    lemma_volumes_are_drives(style, places, volumes, k);
}

proof fn lemma_volumes_are_drives(
    style: Style,
    places: Seq<PlaceView>,
    volumes: Seq<Volume>,
    k: int,
)
    requires
        places.len() <= k < with_volumes(style, places, volumes).len(),
    ensures
        with_volumes(style, places, volumes)[k].kind == Kind::Drive,
    decreases volumes.len(),
{
    if volumes.len() > 0 {
        let front = with_volumes(style, places, volumes.drop_last());
        if k < front.len() {
            lemma_volumes_are_drives(style, places, volumes.drop_last(), k);
        }
    }
}

} // verus!
