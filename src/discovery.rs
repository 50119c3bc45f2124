use crate::album::{Album, AlbumError};
use crate::text::{is_image_file, is_image_name, is_top_dir_name, is_top_name};
use vstd::prelude::*;
use vstd::set_lib::*;

verus! {

/// A file directly inside a directory: its base name, and its path in
/// canonical form.
#[derive(Debug, Clone)]
pub struct FileEntry {
    pub name: String,
    pub path: String,
}

/// A directory directly inside another: its base name and its path.
#[derive(Debug, Clone)]
pub struct SubDir {
    pub name: String,
    pub path: String,
}

/// What reading one directory gave.
#[derive(Debug, Clone)]
pub struct DirListing {
    /// The path under which the directory was read.
    pub path: String,
    /// The directory's base name, where it has one that is valid text.
    pub name: Option<String>,
    /// The files directly inside it, in listing order.
    pub files: Vec<FileEntry>,
    /// The directories directly inside it, in listing order.
    pub subdirs: Vec<SubDir>,
}

/// What was read at and below a root path. A directory that could not be
/// read has no listing; where two listings share a path, the first counts.
#[derive(Debug, Clone)]
pub struct DirTree {
    /// Whether the root path names an existing directory.
    pub root_is_dir: bool,
    pub dirs: Vec<DirListing>,
}

/// The index of the first listing at or after `i` whose path is `p`.
pub open spec fn find_from(dirs: Seq<DirListing>, p: Seq<char>, i: int) -> Option<int>
    decreases dirs.len() - i,
{
    if i < 0 || i >= dirs.len() {
        None
    } else if dirs[i].path@ == p {
        Some(i)
    } else {
        find_from(dirs, p, i + 1)
    }
}

/// The listing read for path `p`, if any.
pub open spec fn lookup(dirs: Seq<DirListing>, p: Seq<char>) -> Option<int> {
    find_from(dirs, p, 0)
}

/// The canonical paths of the image files among `files`, in order.
pub open spec fn image_paths(files: Seq<FileEntry>, exts: Seq<String>) -> Seq<String>
    decreases files.len(),
{
    if files.len() == 0 {
        Seq::empty()
    } else {
        let rest = image_paths(files.drop_last(), exts);
        if is_image_name(files.last().name@, exts) {
            rest.push(files.last().path)
        } else {
            rest
        }
    }
}

/// The image paths inside the "Top" directories among `subs`, merged in
/// order. A "Top" directory that could not be read adds nothing.
pub open spec fn top_paths(dirs: Seq<DirListing>, subs: Seq<SubDir>, exts: Seq<String>) -> Seq<
    String,
>
    decreases subs.len(),
{
    if subs.len() == 0 {
        Seq::empty()
    } else {
        let rest = top_paths(dirs, subs.drop_last(), exts);
        let s = subs.last();
        if is_top_name(s.name@) {
            match lookup(dirs, s.path@) {
                Some(t) => rest + image_paths(dirs[t].files@, exts),
                None => rest,
            }
        } else {
            rest
        }
    }
}

/// Listing `j` makes an album: it has a name, and an image directly inside
/// it or inside one of its "Top" directories.
pub open spec fn yields_album(dirs: Seq<DirListing>, j: int, exts: Seq<String>) -> bool {
    &&& dirs[j].name is Some
    &&& image_paths(dirs[j].files@, exts).len() + top_paths(dirs, dirs[j].subdirs@, exts).len() > 0
}

/// `a` is the album that listing `j` makes.
pub open spec fn album_from(dirs: Seq<DirListing>, j: int, exts: Seq<String>, a: Album) -> bool {
    &&& dirs[j].name is Some
    &&& a.name@ == dirs[j].name->Some_0@
    &&& a.photos@ == image_paths(dirs[j].files@, exts)
    &&& a.top_photos@ == top_paths(dirs, dirs[j].subdirs@, exts)
}

/// Listing `j` is read for a subdirectory of listing `k` that is not "Top".
pub open spec fn is_child(dirs: Seq<DirListing>, k: int, j: int) -> bool {
    &&& 0 <= j < dirs.len()
    &&& exists|s: int|
        0 <= s < dirs[k].subdirs@.len() && !is_top_name(dirs[k].subdirs@[s].name@) && lookup(
            dirs,
            #[trigger] dirs[k].subdirs@[s].path@,
        ) == Some(j)
}

/// `walk` lists listings from the one read for the root, each next one read
/// for a subdirectory of the one before that is not "Top".
pub open spec fn is_walk(dirs: Seq<DirListing>, root: Seq<char>, walk: Seq<int>) -> bool {
    &&& walk.len() >= 1
    &&& lookup(dirs, root) == Some(walk[0])
    &&& forall|i: int| 0 <= i < walk.len() - 1 ==> is_child(dirs, #[trigger] walk[i], walk[i + 1])
}

/// Listing `j` is reached from the root.
pub open spec fn reachable(dirs: Seq<DirListing>, root: Seq<char>, j: int) -> bool {
    exists|walk: Seq<int>| #[trigger] is_walk(dirs, root, walk) && walk.last() == j
}

/// `albums[k]` is the album of listing `src[k]`; each listing reached from
/// the root that makes an album is among `src`, and none twice.
pub open spec fn albums_from(
    dirs: Seq<DirListing>,
    root: Seq<char>,
    exts: Seq<String>,
    albums: Seq<Album>,
    src: Seq<int>,
) -> bool {
    &&& src.len() == albums.len()
    &&& src.no_duplicates()
    &&& forall|k: int|
        0 <= k < src.len() ==> 0 <= #[trigger] src[k] < dirs.len() && reachable(dirs, root, src[k])
            && yields_album(dirs, src[k], exts) && album_from(dirs, src[k], exts, albums[k])
    &&& forall|j: int|
        0 <= j < dirs.len() && reachable(dirs, root, j) && #[trigger] yields_album(dirs, j, exts)
            ==> src.contains(j)
}

/// `albums` holds, in some order, one album for each directory reached from
/// the root that makes one, and nothing else.
pub open spec fn discovered(
    dirs: Seq<DirListing>,
    root: Seq<char>,
    exts: Seq<String>,
    albums: Seq<Album>,
) -> bool {
    exists|src: Seq<int>| albums_from(dirs, root, exts, albums, src)
}

/// A listing found for `p` at or after `i` lies in range and has path `p`.
pub proof fn lemma_find_from(dirs: Seq<DirListing>, p: Seq<char>, i: int)
    requires
        0 <= i,
    ensures
        find_from(dirs, p, i) matches Some(j) ==> i <= j < dirs.len() && dirs[j].path@ == p,
    decreases dirs.len() - i,
{
    if i < dirs.len() && dirs[i].path@ != p {
        lemma_find_from(dirs, p, i + 1);
    }
}

/// The listing read for `p`.
fn find_dir(dirs: &Vec<DirListing>, p: &String) -> (r: Option<usize>)
    ensures
        r matches Some(j) ==> lookup(dirs@, p@) == Some(j as int),
        r is None ==> lookup(dirs@, p@) is None,
{
    let mut i: usize = 0;
    while i < dirs.len()
        invariant
            i <= dirs@.len(),
            lookup(dirs@, p@) == find_from(dirs@, p@, i as int),
        decreases dirs@.len() - i,
    {
        if dirs[i].path == *p {
            return Some(i);
        }
        i = i + 1;
    }
    None
}

/// Appends to `out` the canonical paths of the image files among `files`,
/// in order.
pub fn add_photos(files: &Vec<FileEntry>, exts: &Vec<String>, out: &mut Vec<String>)
    ensures
        final(out)@ == old(out)@ + image_paths(files@, exts@),
{
    let ghost start = out@;
    let mut i: usize = 0;
    while i < files.len()
        invariant
            i <= files@.len(),
            out@ == start + image_paths(files@.subrange(0, i as int), exts@),
        decreases files@.len() - i,
    {
        assert(files@.subrange(0, i + 1).drop_last() =~= files@.subrange(0, i as int));
        if is_image_file(files[i].name.as_str(), exts) {
            out.push(files[i].path.clone());
        }
        i = i + 1;
        assert(out@ =~= start + image_paths(files@.subrange(0, i as int), exts@));
    }
    assert(files@.subrange(0, files@.len() as int) =~= files@);
}

/// The paths of the subdirectories among `subs` that are not "Top", in order.
pub open spec fn child_paths(subs: Seq<SubDir>) -> Seq<String>
    decreases subs.len(),
{
    if subs.len() == 0 {
        Seq::empty()
    } else {
        let rest = child_paths(subs.drop_last());
        if is_top_name(subs.last().name@) {
            rest
        } else {
            rest.push(subs.last().path)
        }
    }
}

/// Each path among `child_paths(subs)` is that of a subdirectory that is not
/// "Top", and each such subdirectory's path is among them.
pub proof fn lemma_child_paths(subs: Seq<SubDir>)
    ensures
        forall|i: int|
            0 <= i < child_paths(subs).len() ==> exists|s: int|
                0 <= s < subs.len() && !is_top_name(subs[s].name@) && subs[s].path
                    == #[trigger] child_paths(subs)[i],
        forall|s: int|
            0 <= s < subs.len() && !is_top_name(subs[s].name@) ==> child_paths(subs).contains(
                #[trigger] subs[s].path,
            ),
    decreases subs.len(),
{
    if subs.len() > 0 {
        let init = subs.drop_last();
        lemma_child_paths(init);
        let c = child_paths(subs);
        let r = child_paths(init);
        assert forall|i: int| 0 <= i < c.len() implies exists|s: int|
            0 <= s < subs.len() && !is_top_name(subs[s].name@) && subs[s].path == #[trigger] c[i] by {
            if i < r.len() {
                let s = choose|s: int|
                    0 <= s < init.len() && !is_top_name(init[s].name@) && init[s].path == r[i];
                assert(subs[s] == init[s]);
            } else {
                assert(subs[subs.len() - 1].path == c[i]);
            }
        }
        assert forall|s: int| 0 <= s < subs.len() && !is_top_name(subs[s].name@) implies c.contains(
            #[trigger] subs[s].path,
        ) by {
            if s < init.len() {
                assert(subs[s] == init[s]);
                let i = choose|i: int| 0 <= i < r.len() && r[i] == init[s].path;
                assert(c[i] == r[i]);
            } else {
                assert(c[c.len() - 1] == subs[s].path);
            }
        }
    }
}

/// Pushes onto `frontier` the paths of the subdirectories of listing `j` that
/// are not "Top", and returns the image paths inside those that are.
fn scan_subdirs(dirs: &Vec<DirListing>, j: usize, exts: &Vec<String>, frontier: &mut Vec<String>) -> (top:
    Vec<String>)
    requires
        j < dirs@.len(),
    ensures
        top@ == top_paths(dirs@, dirs@[j as int].subdirs@, exts@),
        final(frontier)@ == old(frontier)@ + child_paths(dirs@[j as int].subdirs@),
{
    let subs = &dirs[j].subdirs;
    let mut top: Vec<String> = Vec::new();
    let ghost init = frontier@;
    let mut i: usize = 0;
    while i < subs.len()
        invariant
            j < dirs@.len(),
            subs@ == dirs@[j as int].subdirs@,
            i <= subs@.len(),
            top@ == top_paths(dirs@, subs@.subrange(0, i as int), exts@),
            frontier@ == init + child_paths(subs@.subrange(0, i as int)),
        decreases subs@.len() - i,
    {
        assert(subs@.subrange(0, i + 1).drop_last() =~= subs@.subrange(0, i as int));
        let sd = &subs[i];
        if is_top_dir_name(sd.name.as_str()) {
            match find_dir(dirs, &sd.path) {
                Some(t) => {
                    proof {
                        lemma_find_from(dirs@, sd.path@, 0);
                    }
                    add_photos(&dirs[t].files, exts, &mut top);
                },
                None => {},
            }
        } else {
            frontier.push(sd.path.clone());
        }
        i = i + 1;
        assert(frontier@ =~= init + child_paths(subs@.subrange(0, i as int)));
    }
    assert(subs@.subrange(0, subs@.len() as int) =~= subs@);
    top
}

/// Path `p` is on the frontier, or has no listing, or its listing was visited.
pub open spec fn pending_or_done(
    dirs: Seq<DirListing>,
    visited: Seq<bool>,
    frontier: Seq<String>,
    p: String,
) -> bool {
    frontier.contains(p) || lookup(dirs, p@) is None || visited[lookup(dirs, p@)->Some_0]
}

/// Every subdirectory that is not "Top" of a visited listing is pending or done.
pub open spec fn closed(dirs: Seq<DirListing>, visited: Seq<bool>, frontier: Seq<String>) -> bool {
    forall|k: int, s: int|
        0 <= k < dirs.len() && visited[k] && 0 <= s < dirs[k].subdirs@.len() && !is_top_name(
            dirs[k].subdirs@[s].name@,
        ) ==> #[trigger] pending_or_done(dirs, visited, frontier, dirs[k].subdirs@[s].path)
}

proof fn lemma_pending_step(
    dirs: Seq<DirListing>,
    v0: Seq<bool>,
    v1: Seq<bool>,
    f0: Seq<String>,
    f1: Seq<String>,
    q: String,
)
    requires
        pending_or_done(dirs, v0, f0, q),
        v0.len() == dirs.len(),
        v1.len() == dirs.len(),
        forall|i: int| 0 <= i < dirs.len() && #[trigger] v0[i] ==> v1[i],
        f0.len() > 0,
        f1.len() >= f0.len() - 1,
        f1.subrange(0, f0.len() - 1) == f0.drop_last(),
        lookup(dirs, f0.last()@) matches Some(j) ==> v1[j],
    ensures
        pending_or_done(dirs, v1, f1, q),
{
    lemma_find_from(dirs, q@, 0);
    if f0.contains(q) {
        let i = choose|i: int| 0 <= i < f0.len() && f0[i] == q;
        if i < f0.len() - 1 {
            assert(f1.subrange(0, f0.len() - 1)[i] == f1[i]);
            assert(f1[i] == q);
        }
    }
}

proof fn lemma_walk_visited(dirs: Seq<DirListing>, root: String, visited: Seq<bool>, walk: Seq<int>)
    requires
        visited.len() == dirs.len(),
        closed(dirs, visited, Seq::empty()),
        pending_or_done(dirs, visited, Seq::empty(), root),
        is_walk(dirs, root@, walk),
    ensures
        visited[walk.last()],
    decreases walk.len(),
{
    if walk.len() == 1 {
        lemma_find_from(dirs, root@, 0);
        assert(!Seq::<String>::empty().contains(root));
    } else {
        let w = walk.drop_last();
        assert(is_walk(dirs, root@, w)) by {
            assert forall|i: int| 0 <= i < w.len() - 1 implies is_child(dirs, #[trigger] w[i], w[i + 1]) by {
                assert(w[i] == walk[i] && w[i + 1] == walk[i + 1]);
            }
        }
        lemma_walk_visited(dirs, root, visited, w);
        let k = w.last();
        let j = walk.last();
        assert(is_child(dirs, walk[walk.len() - 2], walk[walk.len() - 1]));
        let s = choose|s: int|
            0 <= s < dirs[k].subdirs@.len() && !is_top_name(dirs[k].subdirs@[s].name@) && lookup(
                dirs,
                #[trigger] dirs[k].subdirs@[s].path@,
            ) == Some(j);
        lemma_find_from(dirs, root@, 0);
        lemma_find_from(dirs, dirs[k].subdirs@[s].path@, 0);
        assert(0 <= k < dirs.len()) by {
            if walk.len() - 2 == 0 {
            } else {
                assert(is_child(dirs, walk[walk.len() - 3], walk[walk.len() - 2]));
            }
        }
        assert(pending_or_done(dirs, visited, Seq::empty(), dirs[k].subdirs@[s].path));
        assert(!Seq::<String>::empty().contains(dirs[k].subdirs@[s].path));
    }
}

/// Every album that discovery returns holds at least one photo.
pub proof fn lemma_albums_nonempty(
    dirs: Seq<DirListing>,
    root: Seq<char>,
    exts: Seq<String>,
    albums: Seq<Album>,
)
    requires
        discovered(dirs, root, exts, albums),
    ensures
        forall|k: int| 0 <= k < albums.len() ==> (#[trigger] albums[k]).is_nonempty(),
{
    let src = choose|src: Seq<int>| albums_from(dirs, root, exts, albums, src);
    assert forall|k: int| 0 <= k < albums.len() implies (#[trigger] albums[k]).is_nonempty() by {
        assert(yields_album(dirs, src[k], exts));
        assert(album_from(dirs, src[k], exts, albums[k]));
    }
}

/// A directory with no image directly inside it and none in a "Top"
/// subdirectory is the source of no album.
pub proof fn lemma_no_images_no_album(
    dirs: Seq<DirListing>,
    root: Seq<char>,
    exts: Seq<String>,
    albums: Seq<Album>,
    src: Seq<int>,
    j: int,
)
    requires
        albums_from(dirs, root, exts, albums, src),
        image_paths(dirs[j].files@, exts).len() == 0,
        top_paths(dirs, dirs[j].subdirs@, exts).len() == 0,
    ensures
        !src.contains(j),
{
    if src.contains(j) {
        let k = choose|k: int| 0 <= k < src.len() && src[k] == j;
        assert(yields_album(dirs, src[k], exts));
    }
}

/// The image types recognised by default: ".png".
pub fn default_image_types() -> (r: Vec<String>)
    ensures
        r@.len() == 1,
        r@[0]@ == ".png"@,
{
    let mut r: Vec<String> = Vec::new();
    r.push(".png".to_string());
    r
}

/// Finds the albums below `root_dir`, given what was read there: one album
/// for each directory reached from the root through subdirectories that are
/// not named "Top" (ignoring ASCII case), that has a name and at least one
/// image directly inside it or inside one of its "Top" subdirectories. A
/// directory that could not be read is skipped with everything below it. An
/// image is a file whose name ends with one of `image_types`. A root that is
/// not a directory is an error; a tree without images gives no albums.
pub fn get_albums(root_dir: &str, tree: &DirTree, image_types: &Vec<String>) -> (r: Result<
    Vec<Album>,
    AlbumError,
>)
    ensures
        r is Err <==> !tree.root_is_dir,
        r matches Err(e) ==> e == AlbumError::InvalidRoot,
        r matches Ok(albums) ==> discovered(tree.dirs@, root_dir@, image_types@, albums@),
{
    if !tree.root_is_dir {
        return Err(AlbumError::InvalidRoot);
    }
    let dirs = &tree.dirs;
    let ghost d = dirs@;
    let ghost exts = image_types@;
    let mut visited: Vec<bool> = Vec::new();
    while visited.len() < dirs.len()
        invariant
            visited@.len() <= d.len(),
            d == dirs@,
            forall|i: int| 0 <= i < visited@.len() ==> !#[trigger] visited@[i],
        decreases d.len() - visited@.len(),
    {
        visited.push(false);
    }
    let root = root_dir.to_string();
    let ghost root_s = root;
    let mut frontier: Vec<String> = Vec::new();
    frontier.push(root);
    assert(frontier@[0] == root_s);
    proof {
        if let Some(j) = lookup(d, root_dir@) {
            assert(is_walk(d, root_dir@, seq![j]));
        }
    }
    let mut albums: Vec<Album> = Vec::new();
    let ghost mut src: Seq<int> = Seq::empty();
    let ghost mut unvisited: Set<int> = set_int_range(0, d.len() as int);
    proof {
        lemma_int_range(0, d.len() as int);
    }
    while frontier.len() > 0
        invariant
            d == dirs@,
            exts == image_types@,
            root_s@ == root_dir@,
            visited@.len() == d.len(),
            unvisited.finite(),
            forall|i: int| #[trigger]
                unvisited.contains(i) <==> 0 <= i < d.len() && !visited@[i],
            src.len() == albums@.len(),
            src.no_duplicates(),
            forall|k: int|
                0 <= k < src.len() ==> 0 <= #[trigger] src[k] < d.len() && visited@[src[k]]
                    && reachable(d, root_dir@, src[k]) && yields_album(d, src[k], exts)
                    && album_from(d, src[k], exts, albums@[k]),
            forall|j: int|
                0 <= j < d.len() && visited@[j] && #[trigger] yields_album(d, j, exts)
                    ==> src.contains(j),
            forall|j: int| 0 <= j < d.len() && #[trigger] visited@[j] ==> reachable(d, root_dir@, j),
            forall|i: int|
                0 <= i < frontier@.len() ==> (lookup(d, (#[trigger] frontier@[i])@) matches Some(
                    j,
                ) ==> reachable(d, root_dir@, j)),
            closed(d, visited@, frontier@),
            pending_or_done(d, visited@, frontier@, root_s),
        decreases unvisited.len(), frontier@.len(),
    {
        let ghost f0 = frontier@;
        let ghost v0 = visited@;
        let ghost u0 = unvisited;
        let ghost s0 = src;
        let p = frontier.pop().unwrap();
        assert(p == f0.last());
        assert(frontier@ == f0.drop_last());
        let found = find_dir(dirs, &p);
        proof {
            lemma_find_from(d, p@, 0);
        }
        let fresh = match found {
            Some(j) => !visited[j],
            None => false,
        };
        if fresh {
            let j = found.unwrap();
            assert(reachable(d, root_dir@, j as int)) by {
                assert(f0[f0.len() - 1] == p);
            }
            visited.set(j, true);
            proof {
                unvisited = unvisited.remove(j as int);
                assert(u0.contains(j as int));
            }
            let mut photos: Vec<String> = Vec::new();
            add_photos(&dirs[j].files, image_types, &mut photos);
            assert(photos@ =~= image_paths(d[j as int].files@, exts));
            let ghost f1 = frontier@;
            let top = scan_subdirs(dirs, j, image_types, &mut frontier);
            proof {
                lemma_child_paths(d[j as int].subdirs@);
            }
            if photos.len() > 0 || top.len() > 0 {
                match &dirs[j].name {
                    Some(n) => {
                        albums.push(Album { name: n.clone(), photos: photos, top_photos: top });
                        proof {
                            src = src.push(j as int);
                        }
                    },
                    None => {},
                }
            }
            proof {
                let w = choose|w: Seq<int>| #[trigger] is_walk(d, root_dir@, w) && w.last() == j;
                assert forall|i: int| 0 <= i < frontier@.len() implies (lookup(
                    d,
                    (#[trigger] frontier@[i])@,
                ) matches Some(j2) ==> reachable(d, root_dir@, j2)) by {
                    if i >= f1.len() {
                        let c = child_paths(d[j as int].subdirs@);
                        assert(frontier@[i] == c[i - f1.len()]);
                        let s = choose|s: int|
                            0 <= s < d[j as int].subdirs@.len() && !is_top_name(
                                d[j as int].subdirs@[s].name@,
                            ) && d[j as int].subdirs@[s].path == #[trigger] c[i - f1.len()];
                        lemma_find_from(d, frontier@[i]@, 0);
                        if let Some(j2) = lookup(d, frontier@[i]@) {
                            assert(is_child(d, j as int, j2));
                            let w2 = w.push(j2);
                            assert(is_walk(d, root_dir@, w2)) by {
                                assert forall|t: int| 0 <= t < w2.len() - 1 implies is_child(
                                    d,
                                    #[trigger] w2[t],
                                    w2[t + 1],
                                ) by {
                                    if t < w.len() - 1 {
                                        assert(w2[t] == w[t] && w2[t + 1] == w[t + 1]);
                                    }
                                }
                            }
                        }
                    } else {
                        assert(frontier@[i] == f0[i]);
                    }
                }
                assert(frontier@.subrange(0, f0.len() - 1) =~= f0.drop_last());
                assert forall|k: int, s: int|
                    0 <= k < d.len() && visited@[k] && 0 <= s < d[k].subdirs@.len()
                        && !is_top_name(d[k].subdirs@[s].name@) implies #[trigger] pending_or_done(
                    d,
                    visited@,
                    frontier@,
                    d[k].subdirs@[s].path,
                ) by {
                    if k == j {
                        let c = child_paths(d[j as int].subdirs@);
                        let x = d[k].subdirs@[s].path;
                        assert(c.contains(x));
                        let i = choose|i: int| 0 <= i < c.len() && c[i] == x;
                        assert(frontier@[f1.len() + i] == x);
                    } else {
                        lemma_pending_step(d, v0, visited@, f0, frontier@, d[k].subdirs@[s].path);
                    }
                }
                lemma_pending_step(d, v0, visited@, f0, frontier@, root_s);
                assert forall|j3: int|
                    0 <= j3 < d.len() && visited@[j3] && #[trigger] yields_album(d, j3, exts)
                        implies src.contains(j3) by {
                    if j3 == j {
                        assert(src[src.len() - 1] == j);
                    } else {
                        assert(v0[j3]);
                        assert(s0.contains(j3));
                        let i = choose|i: int| 0 <= i < s0.len() && s0[i] == j3;
                        assert(src[i] == j3);
                    }
                }
            }
        } else {
            proof {
                assert(frontier@.subrange(0, f0.len() - 1) =~= f0.drop_last());
                assert forall|k: int, s: int|
                    0 <= k < d.len() && visited@[k] && 0 <= s < d[k].subdirs@.len()
                        && !is_top_name(d[k].subdirs@[s].name@) implies #[trigger] pending_or_done(
                    d,
                    visited@,
                    frontier@,
                    d[k].subdirs@[s].path,
                ) by {
                    lemma_pending_step(d, v0, visited@, f0, frontier@, d[k].subdirs@[s].path);
                }
                lemma_pending_step(d, v0, visited@, f0, frontier@, root_s);
                assert forall|i: int| 0 <= i < frontier@.len() implies (lookup(
                    d,
                    (#[trigger] frontier@[i])@,
                ) matches Some(j2) ==> reachable(d, root_dir@, j2)) by {
                    assert(frontier@[i] == f0[i]);
                }
            }
        }
    }
    proof {
        assert(frontier@ =~= Seq::<String>::empty());
        assert forall|j: int|
            0 <= j < d.len() && reachable(d, root_dir@, j) && #[trigger] yields_album(d, j, exts)
                implies src.contains(j) by {
            let w = choose|w: Seq<int>| #[trigger] is_walk(d, root_dir@, w) && w.last() == j;
            lemma_walk_visited(d, root_s, visited@, w);
        }
        assert(albums_from(d, root_dir@, exts, albums@, src));
    }
    Ok(albums)
}

} // verus!
