use crate::album::Album;
use vstd::prelude::*;

verus! {

/// Three quarters of `count`, rounded half up: the share of a sample that is
/// drawn from an album's "Top" photos.
pub open spec fn spec_top_target(count: int) -> int {
    (3 * count + 2) / 4
}

/// `idx` lists distinct positions of `pool`, and `s` holds the items found at
/// those positions, in that order.
pub open spec fn drawn_at(s: Seq<String>, pool: Seq<String>, idx: Seq<int>) -> bool {
    &&& idx.len() == s.len()
    &&& idx.no_duplicates()
    &&& forall|i: int| 0 <= i < idx.len() ==> 0 <= #[trigger] idx[i] < pool.len() && s[i] == pool[idx[i]]
}

/// `s` is drawn from `pool` without replacement.
pub open spec fn is_draw(s: Seq<String>, pool: Seq<String>) -> bool {
    exists|idx: Seq<int>| drawn_at(s, pool, idx)
}

/// How many photos a sample of `count` takes from the top photos.
pub open spec fn top_share(top_len: int, count: int) -> int {
    if spec_top_target(count) <= top_len { spec_top_target(count) } else { top_len }
}

/// How many photos a sample of `count` takes from the general photos.
pub open spec fn general_share(photos_len: int, top_len: int, count: int) -> int {
    let rest = count - top_share(top_len, count);
    if rest <= photos_len { rest } else { photos_len }
}

/// `r` is a sample of `count` photos from an album with these photo sets: as
/// many top photos as the top share asks for and the album has, then general
/// photos for the rest, as far as they go; both drawn without replacement.
pub open spec fn is_sample(photos: Seq<String>, top: Seq<String>, count: int, r: Seq<String>) -> bool {
    let t = top_share(top.len() as int, count);
    let g = general_share(photos.len() as int, top.len() as int, count);
    &&& r.len() == t + g
    &&& is_draw(r.subrange(0, t), top)
    &&& is_draw(r.subrange(t, r.len() as int), photos)
}

/// Three quarters of `count`, rounded half up (3.75 gives 4, 1.5 gives 2).
pub fn top_target(count: usize) -> (r: usize)
    ensures
        r as int == spec_top_target(count as int),
        r <= count,
{
    let q: usize = count / 4;
    let rem: usize = count % 4;
    let extra: usize = if rem == 0 {
        0
    } else if rem == 1 {
        1
    } else {
        2
    };
    assert(count == 4 * q + rem);
    assert(3 * q + extra <= count);
    3 * q + extra
}

/// Relies on rand::seq::index::sample with the thread-local generator: it
/// returns exactly `amount` distinct indices below `length`, and panics when
/// `amount > length`.
#[verifier::external_body]
fn sample_indices(length: usize, amount: usize) -> (r: Vec<usize>)
    requires
        amount <= length,
    ensures
        r@.len() == amount,
        r@.no_duplicates(),
        forall|i: int| 0 <= i < r@.len() ==> #[trigger] r@[i] < length,
{
    rand::seq::index::sample(&mut rand::thread_rng(), length, amount).into_vec()
}

/// Appends `amount` photos of `pool`, drawn at random without replacement.
fn draw_into(pool: &Vec<String>, amount: usize, out: &mut Vec<String>)
    requires
        amount <= pool@.len(),
    ensures
        final(out)@.len() == old(out)@.len() + amount,
        final(out)@.subrange(0, old(out)@.len() as int) == old(out)@,
        is_draw(final(out)@.subrange(old(out)@.len() as int, final(out)@.len() as int), pool@),
{
    let idx = sample_indices(pool.len(), amount);
    let ghost start = out@.len() as int;
    let ghost prefix = out@;
    let mut k: usize = 0;
    while k < idx.len()
        invariant
            k <= idx@.len(),
            idx@.len() == amount,
            forall|i: int| 0 <= i < idx@.len() ==> #[trigger] idx@[i] < pool@.len(),
            start == prefix.len(),
            out@.len() == start + k,
            out@.subrange(0, start) == prefix,
            forall|j: int| 0 <= j < k ==> #[trigger] out@[start + j] == pool@[idx@[j] as int],
        decreases idx@.len() - k,
    {
        let item = pool[idx[k]].clone();
        out.push(item);
        k = k + 1;
        assert(out@.subrange(0, start) =~= prefix);
    }
    proof {
        let ix = idx@.map_values(|v: usize| v as int);
        let s = out@.subrange(start, out@.len() as int);
        assert forall|a: int, b: int| 0 <= a < ix.len() && 0 <= b < ix.len() && a != b implies ix[a]
            != ix[b] by {
            assert(idx@[a] != idx@[b]);
        }
        assert forall|i: int| 0 <= i < ix.len() implies 0 <= #[trigger] ix[i] < pool@.len() && s[i]
            == pool@[ix[i]] by {
            assert(out@[start + i] == pool@[idx@[i] as int]);
        }
        assert(drawn_at(s, pool@, ix));
    }
}

proof fn lemma_draw_in(s: Seq<String>, pool: Seq<String>)
    requires
        is_draw(s, pool),
    ensures
        forall|i: int| 0 <= i < s.len() ==> pool.contains(#[trigger] s[i]),
        pool.no_duplicates() ==> s.no_duplicates(),
{
    let idx = choose|idx: Seq<int>| drawn_at(s, pool, idx);
    assert forall|i: int| 0 <= i < s.len() implies pool.contains(#[trigger] s[i]) by {
        assert(s[i] == pool[idx[i]]);
    }
    if pool.no_duplicates() {
        assert forall|a: int, b: int| 0 <= a < s.len() && 0 <= b < s.len() && a != b implies s[a]
            != s[b] by {
            assert(idx[a] != idx[b]);
            assert(s[a] == pool[idx[a]] && s[b] == pool[idx[b]]);
        }
    }
}

/// A sample holds at most `count` photos, all taken from the album, and
/// where the album repeats no path, no photo twice.
pub proof fn lemma_sample_within_album(album: &Album, count: int, r: Seq<String>)
    requires
        0 <= count,
        is_sample(album.photos@, album.top_photos@, count, r),
    ensures
        r.len() <= count,
        forall|i: int|
            0 <= i < r.len() ==> album.photos@.contains(#[trigger] r[i])
                || album.top_photos@.contains(r[i]),
        album.paths_distinct() ==> r.no_duplicates(),
{
    let photos = album.photos@;
    let top = album.top_photos@;
    let t = top_share(top.len() as int, count);
    let a = r.subrange(0, t);
    let b = r.subrange(t, r.len() as int);
    lemma_draw_in(a, top);
    lemma_draw_in(b, photos);
    assert forall|i: int| 0 <= i < r.len() implies photos.contains(#[trigger] r[i]) || top.contains(
        r[i],
    ) by {
        if i < t {
            assert(a[i] == r[i]);
        } else {
            assert(b[i - t] == r[i]);
        }
    }
    if (top + photos).no_duplicates() {
        let all = top + photos;
        assert(top.no_duplicates()) by {
            assert forall|x: int, y: int| 0 <= x < top.len() && 0 <= y < top.len() && x != y implies top[x]
                != top[y] by {
                assert(all[x] == top[x] && all[y] == top[y]);
            }
        }
        assert(photos.no_duplicates()) by {
            assert forall|x: int, y: int|
                0 <= x < photos.len() && 0 <= y < photos.len() && x != y implies photos[x]
                != photos[y] by {
                assert(all[top.len() + x] == photos[x] && all[top.len() + y] == photos[y]);
            }
        }
        assert forall|x: int, y: int| 0 <= x < r.len() && 0 <= y < r.len() && x != y implies r[x]
            != r[y] by {
            if x < t && y < t {
                assert(a[x] == r[x] && a[y] == r[y]);
            } else if x >= t && y >= t {
                assert(b[x - t] == r[x] && b[y - t] == r[y]);
            } else {
                let (u, v) = if x < t { (x, y) } else { (y, x) };
                assert(a[u] == r[u] && b[v - t] == r[v]);
                assert(top.contains(a[u]));
                assert(photos.contains(b[v - t]));
                let p = choose|p: int| 0 <= p < top.len() && top[p] == a[u];
                let q = choose|q: int| 0 <= q < photos.len() && photos[q] == b[v - t];
                assert(all[p] == top[p] && all[top.len() + q] == photos[q]);
            }
        }
    }
}

/// A sample of an album without photos is empty, whatever the count.
pub proof fn lemma_sample_of_empty_album(count: int, r: Seq<String>)
    requires
        0 <= count,
        is_sample(Seq::empty(), Seq::empty(), count, r),
    ensures
        r.len() == 0,
{
}

/// Returns up to `count` photos of `album`, drawn at random without
/// replacement: first up to three quarters of `count` (rounded half up) from
/// the top photos, then the rest from the general photos. When the album has
/// too few photos the result is shorter; it never repeats a position.
pub fn get_randoms_from_album(album: &Album, count: usize) -> (r: Vec<String>)
    ensures
        is_sample(album.photos@, album.top_photos@, count as int, r@),
{
    let mut result: Vec<String> = Vec::new();
    let target = top_target(count);
    let from_top: usize = if target <= album.top_photos.len() {
        target
    } else {
        album.top_photos.len()
    };
    draw_into(&album.top_photos, from_top, &mut result);
    let rest: usize = count - from_top;
    let from_general: usize = if rest <= album.photos.len() {
        rest
    } else {
        album.photos.len()
    };
    let ghost first = result@;
    assert(first.subrange(0, first.len() as int) =~= first);
    draw_into(&album.photos, from_general, &mut result);
    assert(result@.subrange(0, from_top as int) =~= first);
    result
}

} // verus!
