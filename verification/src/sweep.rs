//! Which files a sweep of a tree takes away.
//!
//! Age is the moment the file was written — never a name anybody chose. Only regular files are
//! counted or removed. What has aged past the shelf life goes whatever the cap says; then, while
//! the rest is over the cap, the oldest goes first (earlier files in the listing first among files
//! written at the same moment), and what is left is the newest that still fits.

use vstd::prelude::*;

verus! {

/// Whether something written at `written` has, at `now`, been there longer than `shelf`.
pub fn has_aged_out(written: i128, now: i128, shelf: i128) -> (b: bool)
    requires
        representable(written),
        representable(now),
    ensures
        b == (age(SweepEntry { regular: true, written, size: 0 }, now) > shelf),
{
    let age: i128 = if now >= written {
        now - written
    } else {
        0
    };
    age > shelf
}

/// Whether a directory found by a sweep is quiet enough to be removed if empty: it is a directory
/// (a link is not), its last write could be read, and it has aged past the shelf life.
pub fn is_quiet(is_dir: bool, modified: Option<i128>, now: i128, shelf: i128) -> (b: bool)
    requires
        representable(now),
        modified matches Some(m) ==> representable(m),
    ensures
        b == (is_dir && (modified matches Some(m) && age(
            SweepEntry { regular: true, written: m, size: 0 },
            now,
        ) > shelf)),
{
    if !is_dir {
        return false;
    }
    match modified {
        Some(m) => has_aged_out(m, now, shelf),
        None => false,
    }
}

/// A project directory found by a sweep, as the sweep reads it: whether the project directory is
/// quiet, and whether each conversation directory inside it is.
pub struct ProjectListing {
    pub quiet: bool,
    pub conversations_quiet: Vec<bool>,
}

/// The conversations of project `p` that are quiet, in listing order, as `(p, Some(c))`.
pub open spec fn quiet_conversations(p: int, cs: Seq<bool>) -> Seq<(int, Option<int>)>
    decreases cs.len(),
{
    if cs.len() == 0 {
        seq![]
    } else {
        let before = quiet_conversations(p, cs.drop_last());
        if cs.last() {
            before.push((p, Some(cs.len() - 1)))
        } else {
            before
        }
    }
}

/// The directories a sweep tries to remove, in the order it tries them: for each project in
/// listing order, its quiet conversations, then the project itself when it is quiet. The root is
/// never among them. Removal itself takes only an empty directory.
pub open spec fn removal_order_spec(ps: Seq<(bool, Seq<bool>)>) -> Seq<(int, Option<int>)>
    decreases ps.len(),
{
    if ps.len() == 0 {
        seq![]
    } else {
        let p = ps.len() - 1;
        let last = ps.last();
        let own = if last.0 {
            seq![(p, None::<int>)]
        } else {
            seq![]
        };
        removal_order_spec(ps.drop_last()) + quiet_conversations(p, last.1) + own
    }
}

/// What a listing is, as plain values.
pub open spec fn listing_view(ls: Seq<ProjectListing>) -> Seq<(bool, Seq<bool>)> {
    Seq::new(ls.len(), |i: int| (ls[i].quiet, ls[i].conversations_quiet@))
}

/// The directories to try removing, deepest first: each project's quiet conversations, then the
/// project if it is quiet too, so a project emptied by this same pass is tried after what was in
/// it.
pub fn removal_order(listing: &Vec<ProjectListing>) -> (out: Vec<(usize, Option<usize>)>)
    ensures
        out@.len() == removal_order_spec(listing_view(listing@)).len(),
        forall|k: int|
            0 <= k < out@.len() ==> (#[trigger] out@[k].0 as int, match out@[k].1 {
                Some(c) => Some(c as int),
                None => None,
            }) == removal_order_spec(listing_view(listing@))[k],
{
    let ghost lv = listing_view(listing@);
    let mut out: Vec<(usize, Option<usize>)> = Vec::new();
    let mut p: usize = 0;
    while p < listing.len()
        invariant
            p <= listing@.len(),
            lv == listing_view(listing@),
            out@.len() == removal_order_spec(lv.take(p as int)).len(),
            forall|k: int|
                0 <= k < out@.len() ==> (#[trigger] out@[k].0 as int, match out@[k].1 {
                    Some(c) => Some(c as int),
                    None => None,
                }) == removal_order_spec(lv.take(p as int))[k],
        decreases listing@.len() - p,
    {
        let ghost before = removal_order_spec(lv.take(p as int));
        let cs = &listing[p].conversations_quiet;
        let mut c: usize = 0;
        while c < cs.len()
            invariant
                p < listing@.len(),
                c <= cs@.len(),
                cs@ == listing@[p as int].conversations_quiet@,
                out@.len() == before.len() + quiet_conversations(p as int, cs@.take(c as int)).len(),
                forall|k: int|
                    0 <= k < out@.len() ==> (#[trigger] out@[k].0 as int, match out@[k].1 {
                        Some(c) => Some(c as int),
                        None => None,
                    }) == (before + quiet_conversations(p as int, cs@.take(c as int)))[k],
            decreases cs@.len() - c,
        {
            let ghost qc = quiet_conversations(p as int, cs@.take(c as int));
            assert(cs@.take(c + 1).drop_last() =~= cs@.take(c as int));
            if cs[c] {
                out.push((p, Some(c)));
                assert(before + quiet_conversations(p as int, cs@.take(c + 1)) =~= (before + qc).push(
                    (p as int, Some(c as int)),
                ));
            } else {
                assert(quiet_conversations(p as int, cs@.take(c + 1)) == qc);
            }
            c = c + 1;
        }
        assert(cs@.take(cs@.len() as int) =~= cs@);
        let ghost qc = quiet_conversations(p as int, cs@);
        if listing[p].quiet {
            out.push((p, None));
        }
        proof {
            let t = lv.take(p + 1);
            assert(t.drop_last() =~= lv.take(p as int));
            assert(t.last() == (listing@[p as int].quiet, cs@));
            let own = if listing@[p as int].quiet {
                seq![(p as int, None::<int>)]
            } else {
                seq![]
            };
            assert(removal_order_spec(t) == before + qc + own);
            assert forall|k: int| 0 <= k < out@.len() implies (#[trigger] out@[k].0 as int, match out@[k].1 {
                Some(c) => Some(c as int),
                None => None,
            }) == removal_order_spec(t)[k] by {
                if k < before.len() + qc.len() {
                    assert((before + qc + own)[k] == (before + qc)[k]);
                }
            }
        }
        p = p + 1;
    }
    assert(lv.take(listing@.len() as int) =~= lv);
    out
}

/// Only what was found quiet is tried: every directory in the removal order is a quiet
/// conversation or a quiet project, each once, and a project comes after every conversation of
/// its own that is tried.
pub proof fn law_only_quiet_directories_are_tried_and_the_deepest_first(
    ps: Seq<(bool, Seq<bool>)>,
    k: int,
)
    requires
        0 <= k < removal_order_spec(ps).len(),
    ensures
        ({
            let (p, c) = removal_order_spec(ps)[k];
            &&& 0 <= p < ps.len()
            &&& match c {
                Some(c) => 0 <= c < ps[p].1.len() && ps[p].1[c],
                None => ps[p].0 && forall|j: int|
                    k < j < removal_order_spec(ps).len() ==> #[trigger] removal_order_spec(ps)[j].0
                        != p,
            }
        }),
    decreases ps.len(),
{
    let n = ps.len() - 1;
    let init = ps.drop_last();
    let r0 = removal_order_spec(init);
    let qc = quiet_conversations(n, ps.last().1);
    lemma_quiet_conversations(n, ps.last().1);
    lemma_removal_projects_below(init);
    let own = if ps.last().0 {
        seq![(n, None::<int>)]
    } else {
        seq![]
    };
    let all = removal_order_spec(ps);
    assert(all == r0 + qc + own);
    if k < r0.len() {
        law_only_quiet_directories_are_tried_and_the_deepest_first(init, k);
        assert(all[k] == r0[k]);
        let (p, c) = r0[k];
        assert(ps[p] == init[p]);
        if c is None {
            assert forall|j: int| k < j < all.len() implies #[trigger] all[j].0 != p by {
                if j < r0.len() {
                    assert(all[j] == r0[j]);
                } else if j < r0.len() + qc.len() {
                    assert(all[j] == qc[j - r0.len()]);
                } else {
                    assert(all[j] == own[j - r0.len() - qc.len()]);
                }
            }
        }
    } else if k < r0.len() + qc.len() {
        assert(all[k] == qc[k - r0.len()]);
    } else {
        assert(all[k] == own[k - r0.len() - qc.len()]);
    }
}

proof fn lemma_quiet_conversations(p: int, cs: Seq<bool>)
    ensures
        forall|k: int|
            0 <= k < quiet_conversations(p, cs).len() ==> (#[trigger] quiet_conversations(p, cs)[k]).0
                == p && (quiet_conversations(p, cs)[k].1 matches Some(c) && 0 <= c < cs.len()
                && cs[c]),
    decreases cs.len(),
{
    if cs.len() > 0 {
        lemma_quiet_conversations(p, cs.drop_last());
        let b = quiet_conversations(p, cs.drop_last());
        assert forall|k: int| 0 <= k < quiet_conversations(p, cs).len() implies (
        #[trigger] quiet_conversations(p, cs)[k]).0 == p && (quiet_conversations(p, cs)[k].1 matches Some(
            c,
        ) && 0 <= c < cs.len() && cs[c]) by {
            if k < b.len() {
                assert(quiet_conversations(p, cs)[k] == b[k]);
                let c = b[k].1->0;
                assert(cs.drop_last()[c] == cs[c]);
            }
        }
    }
}

proof fn lemma_removal_projects_below(ps: Seq<(bool, Seq<bool>)>)
    ensures
        forall|k: int|
            0 <= k < removal_order_spec(ps).len() ==> (#[trigger] removal_order_spec(ps)[k]).0
                < ps.len(),
    decreases ps.len(),
{
    if ps.len() > 0 {
        let n = ps.len() - 1;
        lemma_removal_projects_below(ps.drop_last());
        lemma_quiet_conversations(n, ps.last().1);
        let r0 = removal_order_spec(ps.drop_last());
        let qc = quiet_conversations(n, ps.last().1);
        let own = if ps.last().0 {
            seq![(n, None::<int>)]
        } else {
            seq![]
        };
        assert(removal_order_spec(ps) == r0 + qc + own);
        assert forall|k: int| 0 <= k < removal_order_spec(ps).len() implies (
        #[trigger] removal_order_spec(ps)[k]).0 < ps.len() by {
            if k < r0.len() {
                assert(removal_order_spec(ps)[k] == r0[k]);
            } else if k < r0.len() + qc.len() {
                assert(removal_order_spec(ps)[k] == qc[k - r0.len()]);
            } else {
                assert(removal_order_spec(ps)[k] == own[k - r0.len() - qc.len()]);
            }
        }
    }
}

/// One entry found three levels down a tree, as the sweep reads it.
pub struct SweepEntry {
    /// Whether it is a regular file. Nothing else is counted or removed.
    pub regular: bool,
    /// When it was written, in nanoseconds after the epoch (before it, negative).
    pub written: i128,
    /// Its size in bytes.
    pub size: u64,
}

/// A moment a `SystemTime` can be: within 2^100 nanoseconds of the epoch either way.
pub open spec fn representable(t: i128) -> bool {
    -0x10_0000_0000_0000_0000_0000_0000 <= t <= 0x10_0000_0000_0000_0000_0000_0000
}

/// Every moment in the listing, and the sweep's own, is one a `SystemTime` can be.
pub open spec fn moments_representable(es: Seq<SweepEntry>, now: i128) -> bool {
    representable(now) && forall|j: int| 0 <= j < es.len() ==> representable(#[trigger] es[j].written)
}

/// How long ago an entry was written; a moment in the future reads as no time at all.
pub open spec fn age(e: SweepEntry, now: i128) -> int {
    if now >= e.written {
        now - e.written
    } else {
        0
    }
}

/// A regular file older than the shelf life.
pub open spec fn aged(e: SweepEntry, now: i128, shelf: i128) -> bool {
    e.regular && age(e, now) > shelf
}

/// A regular file young enough to be kept for its age.
pub open spec fn fresh(e: SweepEntry, now: i128, shelf: i128) -> bool {
    e.regular && !(age(e, now) > shelf)
}

/// Entry `j` was written before entry `i`, or at the same moment and listed before it.
pub open spec fn older(es: Seq<SweepEntry>, j: int, i: int) -> bool {
    es[j].written < es[i].written || (es[j].written == es[i].written && j < i)
}

/// The bytes of the entries among the first `n` that satisfy `p`.
pub open spec fn size_where(es: Seq<SweepEntry>, n: int, p: spec_fn(int) -> bool) -> int
    decreases n,
{
    if n <= 0 {
        0
    } else {
        size_where(es, n - 1, p) + if p(n - 1) {
            es[n - 1].size as int
        } else {
            0
        }
    }
}

/// The bytes of every fresh file.
pub open spec fn fresh_total(es: Seq<SweepEntry>, now: i128, shelf: i128) -> int {
    size_where(es, es.len() as int, |j: int| fresh(es[j], now, shelf))
}

/// The bytes of the fresh files older than entry `i`.
pub open spec fn fresh_older_total(es: Seq<SweepEntry>, now: i128, shelf: i128, i: int) -> int {
    size_where(es, es.len() as int, |j: int| fresh(es[j], now, shelf) && older(es, j, i))
}

/// Whether the sweep takes entry `i` away: aged out, or fresh but reached while the fresh files
/// not yet taken, oldest first, were still over the cap.
pub open spec fn swept_away(es: Seq<SweepEntry>, now: i128, shelf: i128, cap: u64, i: int) -> bool {
    aged(es[i], now, shelf) || (fresh(es[i], now, shelf) && fresh_total(es, now, shelf)
        - fresh_older_total(es, now, shelf, i) > cap)
}

proof fn lemma_size_where_bounds(es: Seq<SweepEntry>, n: int, p: spec_fn(int) -> bool)
    requires
        0 <= n <= es.len(),
    ensures
        0 <= size_where(es, n, p) <= n * 0x1_0000_0000_0000_0000,
    decreases n,
{
    if n > 0 {
        lemma_size_where_bounds(es, n - 1, p);
    }
}

proof fn lemma_size_where_monotone(
    es: Seq<SweepEntry>,
    n: int,
    p: spec_fn(int) -> bool,
    q: spec_fn(int) -> bool,
)
    requires
        forall|j: int| 0 <= j < n && #[trigger] p(j) ==> q(j),
    ensures
        size_where(es, n, p) <= size_where(es, n, q),
    decreases n,
{
    if n > 0 {
        lemma_size_where_monotone(es, n - 1, p, q);
    }
}

proof fn lemma_size_where_same(
    es: Seq<SweepEntry>,
    n: int,
    p: spec_fn(int) -> bool,
    q: spec_fn(int) -> bool,
)
    requires
        forall|j: int| 0 <= j < n ==> #[trigger] p(j) == q(j),
    ensures
        size_where(es, n, p) == size_where(es, n, q),
    decreases n,
{
    if n > 0 {
        lemma_size_where_same(es, n - 1, p, q);
    }
}

proof fn lemma_size_where_split(
    es: Seq<SweepEntry>,
    n: int,
    p: spec_fn(int) -> bool,
    q: spec_fn(int) -> bool,
)
    ensures
        size_where(es, n, p) == size_where(es, n, |j: int| p(j) && q(j)) + size_where(
            es,
            n,
            |j: int| p(j) && !q(j),
        ),
    decreases n,
{
    if n > 0 {
        lemma_size_where_split(es, n - 1, p, q);
    }
}

/// The bytes of the fresh files among the first `n`, and of those among them older than `i`,
/// counted up from nothing.
fn totals(es: &Vec<SweepEntry>, now: i128, shelf: i128, i: usize) -> (r: (u128, u128))
    requires
        i < es@.len(),
        es@.len() < 0x1_0000_0000_0000_0000,
        moments_representable(es@, now),
    ensures
        r.0 == fresh_total(es@, now, shelf),
        r.1 == fresh_older_total(es@, now, shelf, i as int),
{
    let ghost p = |j: int| fresh(es@[j], now, shelf);
    let ghost q = |j: int| fresh(es@[j], now, shelf) && older(es@, j, i as int);
    let mut all: u128 = 0;
    let mut before: u128 = 0;
    let mut k: usize = 0;
    while k < es.len()
        invariant
            k <= es@.len() < 0x1_0000_0000_0000_0000,
            i < es@.len(),
            moments_representable(es@, now),
            all == size_where(es@, k as int, p),
            before == size_where(es@, k as int, q),
            p == (|j: int| fresh(es@[j], now, shelf)),
            q == (|j: int| fresh(es@[j], now, shelf) && older(es@, j, i as int)),
        decreases es@.len() - k,
    {
        proof {
            lemma_size_where_bounds(es@, k as int, p);
            lemma_size_where_bounds(es@, k as int, q);
            assert(k * 0x1_0000_0000_0000_0000 <= 0xffff_ffff_ffff_ffff * 0x1_0000_0000_0000_0000)
                by (nonlinear_arith)
                requires
                    k < 0x1_0000_0000_0000_0000,
            ;
        }
        let e = &es[k];
        let is_fresh = e.regular && !((if now >= e.written {
            now - e.written
        } else {
            0
        }) > shelf);
        if is_fresh {
            all = all + e.size as u128;
            let w = es[i].written;
            if e.written < w || (e.written == w && k < i) {
                before = before + e.size as u128;
            }
        }
        k = k + 1;
    }
    (all, before)
}

/// Which entries a sweep takes away, one flag per entry, for a sweep at `now` with a shelf life of
/// `shelf` nanoseconds and a cap of `cap` bytes.
pub fn plan_sweep(es: &Vec<SweepEntry>, now: i128, shelf: i128, cap: u64) -> (gone: Vec<bool>)
    requires
        es@.len() < 0x1_0000_0000_0000_0000,
        moments_representable(es@, now),
    ensures
        gone@.len() == es@.len(),
        forall|i: int| 0 <= i < es@.len() ==> gone@[i] == swept_away(es@, now, shelf, cap, i),
{
    let mut gone: Vec<bool> = Vec::new();
    let mut i: usize = 0;
    while i < es.len()
        invariant
            i <= es@.len() < 0x1_0000_0000_0000_0000,
            moments_representable(es@, now),
            gone@.len() == i,
            forall|k: int| 0 <= k < i ==> gone@[k] == swept_away(es@, now, shelf, cap, k),
        decreases es@.len() - i,
    {
        let e = &es[i];
        let age: i128 = if now >= e.written {
            now - e.written
        } else {
            0
        };
        let out = if !e.regular {
            false
        } else if age > shelf {
            true
        } else {
            let (all, before) = totals(es, now, shelf, i);
            proof {
                lemma_size_where_monotone(
                    es@,
                    es@.len() as int,
                    |j: int| fresh(es@[j], now, shelf) && older(es@, j, i as int),
                    |j: int| fresh(es@[j], now, shelf),
                );
            }
            all - before > cap as u128
        };
        gone.push(out);
        i = i + 1;
    }
    gone
}

// ---------------------------------------------------------------------------------------------
// Laws
// ---------------------------------------------------------------------------------------------

/// What ages out goes, whatever the cap says; and nothing but a regular file is ever taken away.
pub proof fn law_aged_files_go_and_nothing_else_is_touched(
    es: Seq<SweepEntry>,
    now: i128,
    shelf: i128,
    cap: u64,
    i: int,
)
    requires
        0 <= i < es.len(),
    ensures
        aged(es[i], now, shelf) ==> swept_away(es, now, shelf, cap, i),
        !es[i].regular ==> !swept_away(es, now, shelf, cap, i),
{
}

proof fn lemma_older_is_a_strict_order(es: Seq<SweepEntry>, a: int, b: int, c: int)
    ensures
        older(es, a, b) && older(es, b, c) ==> older(es, a, c),
        !older(es, a, a),
        a != b ==> older(es, a, b) || older(es, b, a),
        !(older(es, a, b) && older(es, b, a)),
{
}

/// Oldest first: when a fresh file is taken for the cap, every fresh file written before it is
/// taken too.
pub proof fn law_the_oldest_go_first(
    es: Seq<SweepEntry>,
    now: i128,
    shelf: i128,
    cap: u64,
    i: int,
    j: int,
)
    requires
        0 <= i < es.len(),
        0 <= j < es.len(),
        fresh(es[i], now, shelf),
        fresh(es[j], now, shelf),
        older(es, j, i),
        swept_away(es, now, shelf, cap, i),
    ensures
        swept_away(es, now, shelf, cap, j),
{
    let p = |k: int| fresh(es[k], now, shelf) && older(es, k, j);
    let q = |k: int| fresh(es[k], now, shelf) && older(es, k, i);
    assert forall|k: int| 0 <= k < es.len() && #[trigger] p(k) implies q(k) by {
        lemma_older_is_a_strict_order(es, k, j, i);
    }
    lemma_size_where_monotone(es, es.len() as int, p, q);
    lemma_size_where_same(
        es,
        es.len() as int,
        p,
        |k: int| fresh(es[k], now, shelf) && older(es, k, j),
    );
    lemma_size_where_same(
        es,
        es.len() as int,
        q,
        |k: int| fresh(es[k], now, shelf) && older(es, k, i),
    );
}

/// A survivor: not taken away.
pub open spec fn survives(es: Seq<SweepEntry>, now: i128, shelf: i128, cap: u64, j: int) -> bool {
    fresh(es[j], now, shelf) && !swept_away(es, now, shelf, cap, j)
}

proof fn lemma_size_where_nothing(es: Seq<SweepEntry>, n: int, p: spec_fn(int) -> bool)
    requires
        forall|j: int| 0 <= j < n ==> !#[trigger] p(j),
    ensures
        size_where(es, n, p) == 0,
    decreases n,
{
    if n > 0 {
        lemma_size_where_nothing(es, n - 1, p);
    }
}

/// Among the indices below `n` that satisfy `p`, one that nothing satisfying `p` is older than.
proof fn lemma_oldest_of(es: Seq<SweepEntry>, n: int, p: spec_fn(int) -> bool, w: int) -> (m: int)
    requires
        0 <= w < n <= es.len(),
        p(w),
    ensures
        0 <= m < n,
        p(m),
        forall|k: int| 0 <= k < n && #[trigger] p(k) ==> !older(es, k, m),
    decreases n,
{
    if w == n - 1 {
        if exists|k: int| 0 <= k < n - 1 && #[trigger] p(k) {
            let k0 = choose|k: int| 0 <= k < n - 1 && #[trigger] p(k);
            let m0 = lemma_oldest_of(es, n - 1, p, k0);
            if older(es, n - 1, m0) {
                assert forall|k: int| 0 <= k < n && #[trigger] p(k) implies !older(
                    es,
                    k,
                    n - 1,
                ) by {
                    if k < n - 1 && older(es, k, n - 1) {
                        lemma_older_is_a_strict_order(es, k, n - 1, m0);
                    }
                }
                n - 1
            } else {
                assert forall|k: int| 0 <= k < n && #[trigger] p(k) implies !older(es, k, m0) by {
                    if k == n - 1 {
                    }
                }
                m0
            }
        } else {
            n - 1
        }
    } else {
        let m0 = lemma_oldest_of(es, n - 1, p, w);
        if p(n - 1) && older(es, n - 1, m0) {
            assert forall|k: int| 0 <= k < n && #[trigger] p(k) implies !older(es, k, n - 1) by {
                if k < n - 1 && older(es, k, n - 1) {
                    lemma_older_is_a_strict_order(es, k, n - 1, m0);
                }
            }
            n - 1
        } else {
            m0
        }
    }
}

/// What a sweep leaves fits: the fresh files it does not take away come to no more than the cap.
pub proof fn law_what_is_left_fits(es: Seq<SweepEntry>, now: i128, shelf: i128, cap: u64)
    ensures
        size_where(es, es.len() as int, |j: int| survives(es, now, shelf, cap, j)) <= cap,
{
    let n = es.len() as int;
    let sv = |j: int| survives(es, now, shelf, cap, j);
    if exists|k: int| 0 <= k < n && #[trigger] sv(k) {
        let k0 = choose|k: int| 0 <= k < n && #[trigger] sv(k);
        let m = lemma_oldest_of(es, n, sv, k0);
        let fr = |j: int| fresh(es[j], now, shelf);
        let od = |j: int| older(es, j, m);
        assert forall|j: int| 0 <= j < n implies #[trigger] sv(j) == (fr(j) && !od(j)) by {
            if sv(j) {
                assert(!older(es, j, m));
            }
            if fr(j) && !od(j) && j != m {
                lemma_older_is_a_strict_order(es, j, m, j);
                assert(older(es, m, j));
                if swept_away(es, now, shelf, cap, j) {
                    law_the_oldest_go_first(es, now, shelf, cap, j, m);
                }
            }
        }
        lemma_size_where_same(es, n, sv, |j: int| fr(j) && !od(j));
        lemma_size_where_split(es, n, fr, od);
        lemma_size_where_same(es, n, fr, |j: int| fresh(es[j], now, shelf));
        lemma_size_where_same(
            es,
            n,
            |j: int| fr(j) && od(j),
            |j: int| fresh(es[j], now, shelf) && older(es, j, m),
        );
    } else {
        lemma_size_where_nothing(es, n, sv);
    }
}

/// A tree whose regular files are all fresh and together within the cap loses nothing to a sweep.
pub proof fn law_a_tree_under_its_cap_loses_nothing(
    es: Seq<SweepEntry>,
    now: i128,
    shelf: i128,
    cap: u64,
)
    requires
        forall|j: int| 0 <= j < es.len() && (#[trigger] es[j]).regular ==> fresh(es[j], now, shelf),
        fresh_total(es, now, shelf) <= cap,
    ensures
        forall|i: int| 0 <= i < es.len() ==> !#[trigger] swept_away(es, now, shelf, cap, i),
{
    assert forall|i: int| 0 <= i < es.len() implies !#[trigger] swept_away(
        es,
        now,
        shelf,
        cap,
        i,
    ) by {
        lemma_size_where_bounds(
            es,
            es.len() as int,
            |j: int| fresh(es[j], now, shelf) && older(es, j, i),
        );
    }
}

/// What a sweep leaves in the listing, in order: every entry it does not take away.
pub open spec fn left_after(es: Seq<SweepEntry>, now: i128, shelf: i128, cap: u64, n: int) -> Seq<
    SweepEntry,
>
    decreases n,
{
    if n <= 0 {
        seq![]
    } else if swept_away(es, now, shelf, cap, n - 1) {
        left_after(es, now, shelf, cap, n - 1)
    } else {
        left_after(es, now, shelf, cap, n - 1).push(es[n - 1])
    }
}

proof fn lemma_size_where_transfer(
    s1: Seq<SweepEntry>,
    s2: Seq<SweepEntry>,
    n: int,
    p: spec_fn(int) -> bool,
    q: spec_fn(int) -> bool,
)
    requires
        n <= s1.len(),
        n <= s2.len(),
        forall|j: int| 0 <= j < n ==> #[trigger] p(j) == q(j) && s1[j].size == s2[j].size,
    ensures
        size_where(s1, n, p) == size_where(s2, n, q),
    decreases n,
{
    if n > 0 {
        lemma_size_where_transfer(s1, s2, n - 1, p, q);
    }
}

proof fn lemma_left_after(es: Seq<SweepEntry>, now: i128, shelf: i128, cap: u64, n: int)
    requires
        0 <= n <= es.len(),
    ensures
        ({
            let left = left_after(es, now, shelf, cap, n);
            &&& forall|j: int|
                0 <= j < left.len() && (#[trigger] left[j]).regular ==> fresh(left[j], now, shelf)
            &&& size_where(left, left.len() as int, |j: int| fresh(left[j], now, shelf))
                == size_where(es, n, |j: int| survives(es, now, shelf, cap, j))
        }),
    decreases n,
{
    if n > 0 {
        lemma_left_after(es, now, shelf, cap, n - 1);
        let before = left_after(es, now, shelf, cap, n - 1);
        let left = left_after(es, now, shelf, cap, n);
        let fl = |j: int| fresh(left[j], now, shelf);
        let fb = |j: int| fresh(before[j], now, shelf);
        if !swept_away(es, now, shelf, cap, n - 1) {
            assert(left == before.push(es[n - 1]));
            lemma_size_where_transfer(left, before, before.len() as int, fl, fb);
            assert(size_where(left, left.len() as int, fl) == size_where(
                left,
                before.len() as int,
                fl,
            ) + if fl(before.len() as int) {
                es[n - 1].size as int
            } else {
                0
            });
        } else {
            assert(left == before);
            lemma_size_where_transfer(left, before, before.len() as int, fl, fb);
        }
    }
}

/// Sweeping what a sweep left, at the same moment, takes nothing more.
pub proof fn law_a_second_sweep_takes_nothing(es: Seq<SweepEntry>, now: i128, shelf: i128, cap: u64)
    ensures
        ({
            let left = left_after(es, now, shelf, cap, es.len() as int);
            forall|i: int| 0 <= i < left.len() ==> !#[trigger] swept_away(left, now, shelf, cap, i)
        }),
{
    let left = left_after(es, now, shelf, cap, es.len() as int);
    lemma_left_after(es, now, shelf, cap, es.len() as int);
    law_what_is_left_fits(es, now, shelf, cap);
    law_a_tree_under_its_cap_loses_nothing(left, now, shelf, cap);
}


/// The bytes of the regular files among the first `n` whose age, `now` less the moment written
/// (nothing for a moment after `now`), is within the shelf life.
pub open spec fn bytes_kept_for_age(es: Seq<SweepEntry>, n: int, now: i128, shelf: i128) -> int
    decreases n,
{
    if n <= 0 {
        0
    } else {
        let e = es[n - 1];
        let young = e.regular && (if now >= e.written {
            now - e.written
        } else {
            0
        }) <= shelf;
        bytes_kept_for_age(es, n - 1, now, shelf) + if young {
            e.size as int
        } else {
            0
        }
    }
}

proof fn lemma_bytes_kept_for_age(es: Seq<SweepEntry>, n: int, now: i128, shelf: i128)
    requires
        0 <= n <= es.len(),
    ensures
        bytes_kept_for_age(es, n, now, shelf) == size_where(es, n, |j: int| fresh(es[j], now, shelf)),
    decreases n,
{
    if n > 0 {
        lemma_bytes_kept_for_age(es, n - 1, now, shelf);
    }
}

/// Files that aged out do not count against the cap: when the regular files young enough to keep
/// come to no more than the cap, a sweep takes none of them away, whatever aged-out files, or
/// anything else, the listing also holds.
pub proof fn law_aged_files_do_not_count_against_the_cap(
    es: Seq<SweepEntry>,
    now: i128,
    shelf: i128,
    cap: u64,
    i: int,
)
    requires
        0 <= i < es.len(),
        es[i].regular,
        (if now >= es[i].written {
            now - es[i].written
        } else {
            0
        }) <= shelf,
        bytes_kept_for_age(es, es.len() as int, now, shelf) <= cap,
    ensures
        !swept_away(es, now, shelf, cap, i),
{
    lemma_bytes_kept_for_age(es, es.len() as int, now, shelf);
    lemma_size_where_bounds(es, es.len() as int, |j: int| fresh(es[j], now, shelf) && older(es, j, i));
}
} // verus!
