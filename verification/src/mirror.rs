//! Streaming what an agent says into its topic, so a session can be picked up mid-flight.
//!
//! A pane is a screen, not a log: the same read returns the same rows whether the agent wrote
//! nothing or scrolled a page. So "what is new" is derived by comparing two reads. [`new_since`]
//! anchors on the previous screen's last substantial line and takes everything after it in the
//! new screen; when the anchor is gone the screen has scrolled past it, and the whole new screen
//! is new.
//!
//! What is relayed is only prose, only once the screen has settled (the same screen twice in a
//! row), and never the same text twice in a row for one pane: the anchor handles the common case,
//! and a hash of the last relayed text catches a redraw that reprints the same paragraph.

use std::collections::hash_map::DefaultHasher;
use std::collections::BTreeSet;
use std::hash::{Hash, Hasher};
use vstd::prelude::*;
use vstd::std_specs::hash::DefaultHasherAdditionalSpecFns;

use crate::prose::{is_prose, looks_like_prose};
use crate::table::{names_in, PaneTable};
use crate::text::{
    lemma_lines_are_one_line, lemma_lines_of_joined, lemma_lines_of_trimmed_join,
    lemma_trim_strip_cr, one_line, strip_cr,
    chars_of, copy_range, join_from, join_lines, lines, same_chars, split_lines, string_of,
    trim, trim_bounds, views,
};

verus! {

/// The shortest run of new text worth a message. Below this it is a spinner tick or a prompt
/// redraw, not something an agent said.
pub const MIN_RELAY_CHARS: usize = 40;

/// The fewest characters a trimmed line needs to serve as the anchor between two screens.
pub const ANCHOR_CHARS: usize = 8;

// ---------------------------------------------------------------------------------------------
// What is new on a screen
// ---------------------------------------------------------------------------------------------

/// The previous screen's last substantial line, trimmed: the last line whose trimmed text has at
/// least [`ANCHOR_CHARS`] characters.
pub open spec fn anchor_of(ls: Seq<Seq<char>>) -> Option<Seq<char>>
    decreases ls.len(),
{
    if ls.len() == 0 {
        None
    } else if trim(ls.last()).len() >= ANCHOR_CHARS {
        Some(trim(ls.last()))
    } else {
        anchor_of(ls.drop_last())
    }
}

/// The index of the last line whose trimmed text is `a`.
pub open spec fn last_match(ls: Seq<Seq<char>>, a: Seq<char>) -> Option<int>
    decreases ls.len(),
{
    if ls.len() == 0 {
        None
    } else if trim(ls.last()) == a {
        Some(ls.len() - 1)
    } else {
        last_match(ls.drop_last(), a)
    }
}

/// Where the new text starts among the lines of the new screen: just after the last line that
/// matches the anchor, or at the top when there is no anchor or it has scrolled away.
pub open spec fn fresh_start(prev: Seq<char>, now_lines: Seq<Seq<char>>) -> int {
    match anchor_of(lines(prev)) {
        None => 0,
        Some(a) => match last_match(now_lines, a) {
            Some(i) => i + 1,
            None => 0,
        },
    }
}

/// What appeared on `now` that was not on `prev`: the lines after the anchor, joined and
/// trimmed, or nothing when that is empty.
pub open spec fn new_since_spec(prev: Seq<char>, now: Seq<char>) -> Option<Seq<char>> {
    let ls = lines(now);
    if ls.len() == 0 {
        None
    } else {
        let fresh = trim(join_lines(ls.skip(fresh_start(prev, ls))));
        if fresh.len() > 0 {
            Some(fresh)
        } else {
            None
        }
    }
}

proof fn lemma_last_match_bounds(ls: Seq<Seq<char>>, a: Seq<char>)
    ensures
        last_match(ls, a) matches Some(i) ==> 0 <= i < ls.len() && trim(ls[i]) == a,
    decreases ls.len(),
{
    if ls.len() > 0 && trim(ls.last()) != a {
        lemma_last_match_bounds(ls.drop_last(), a);
    }
}

fn find_anchor(ls: &Vec<Vec<char>>) -> (r: Option<Vec<char>>)
    ensures
        r matches Some(a) ==> anchor_of(views(ls@)) == Some(a@),
        r is None ==> anchor_of(views(ls@)) is None,
{
    let ghost all = views(ls@);
    let mut i = ls.len();
    assert(all.take(i as int) =~= all);
    while i > 0
        invariant
            i <= ls@.len(),
            all == views(ls@),
            anchor_of(all) == anchor_of(all.take(i as int)),
        decreases i,
    {
        let line = &ls[i - 1];
        let (a, b) = trim_bounds(line, 0, line.len());
        assert(line@.subrange(0, line@.len() as int) =~= line@);
        assert(all.take(i as int).last() == line@);
        if b - a >= ANCHOR_CHARS {
            return Some(copy_range(line, a, b));
        }
        assert(all.take(i as int).drop_last() =~= all.take(i - 1));
        i = i - 1;
    }
    None
}

fn find_last_match(ls: &Vec<Vec<char>>, anchor: &Vec<char>) -> (r: Option<usize>)
    ensures
        r matches Some(i) ==> last_match(views(ls@), anchor@) == Some(i as int),
        r is None ==> last_match(views(ls@), anchor@) is None,
{
    let ghost all = views(ls@);
    let mut i = ls.len();
    assert(all.take(i as int) =~= all);
    while i > 0
        invariant
            i <= ls@.len(),
            all == views(ls@),
            last_match(all, anchor@) == last_match(all.take(i as int), anchor@),
        decreases i,
    {
        let line = &ls[i - 1];
        let (a, b) = trim_bounds(line, 0, line.len());
        assert(line@.subrange(0, line@.len() as int) =~= line@);
        assert(all.take(i as int).last() == line@);
        if same_chars(line, a, b, anchor) {
            return Some(i - 1);
        }
        assert(all.take(i as int).drop_last() =~= all.take(i - 1));
        i = i - 1;
    }
    None
}

/// What appeared on `now` that was not on `prev`.
///
/// Anchored on the previous screen's last substantial line: everything after that line in the new
/// screen is new. If the anchor is gone the screen scrolled past it, and everything visible counts
/// as new — better to relay a little context twice than to lose what the agent said.
pub fn new_since(prev: &str, now: &str) -> (r: Option<String>)
    ensures
        r matches Some(s) ==> new_since_spec(prev@, now@) == Some(s@),
        r is None ==> new_since_spec(prev@, now@) is None,
{
    let now_chars = chars_of(now);
    let now_lines = split_lines(&now_chars);
    if now_lines.len() == 0 {
        return None;
    }
    let prev_chars = chars_of(prev);
    let prev_lines = split_lines(&prev_chars);
    let ghost ls = views(now_lines@);
    let start = match find_anchor(&prev_lines) {
        None => 0,
        Some(a) => match find_last_match(&now_lines, &a) {
            Some(i) => {
                proof {
                    lemma_last_match_bounds(ls, a@);
                }
                i + 1
            },
            None => 0,
        },
    };
    assert(start as int == fresh_start(prev@, ls));
    let joined = join_from(&now_lines, start);
    let (a, b) = trim_bounds(&joined, 0, joined.len());
    assert(joined@.subrange(0, joined@.len() as int) =~= joined@);
    if a == b {
        return None;
    }
    Some(string_of(&joined, a, b))
}

// ---------------------------------------------------------------------------------------------
// What is worth relaying
// ---------------------------------------------------------------------------------------------

/// Whether a line is kept for the chat: not blank, and prose once trimmed.
pub open spec fn keeps(l: Seq<char>) -> bool {
    trim(l).len() > 0 && looks_like_prose(trim(l))
}

/// The lines that are kept, in order.
pub open spec fn prose_lines(ls: Seq<Seq<char>>) -> Seq<Seq<char>>
    decreases ls.len(),
{
    if ls.len() == 0 {
        seq![]
    } else if keeps(ls.last()) {
        prose_lines(ls.drop_last()).push(ls.last())
    } else {
        prose_lines(ls.drop_last())
    }
}

/// The prose lines of `fresh` joined, when there are any and they come to at least
/// [`MIN_RELAY_CHARS`] characters.
pub open spec fn worth_spec(fresh: Seq<char>) -> Option<Seq<char>> {
    let kept = prose_lines(lines(fresh));
    if kept.len() == 0 {
        None
    } else {
        let text = join_lines(kept);
        if text.len() >= MIN_RELAY_CHARS {
            Some(text)
        } else {
            None
        }
    }
}

/// Is this worth putting in a chat, and what part of it?
///
/// Keeps the prose and drops the rest, rather than rejecting a block because it contains one
/// command line — an agent explaining itself around a snippet is the normal case.
pub fn worth_relaying(fresh: &str) -> (r: Option<String>)
    ensures
        r matches Some(s) ==> worth_spec(fresh@) == Some(s@),
        r is None ==> worth_spec(fresh@) is None,
{
    let chars = chars_of(fresh);
    let ls = split_lines(&chars);
    let ghost all = views(ls@);
    let mut kept: Vec<Vec<char>> = Vec::new();
    let mut i: usize = 0;
    assert(all.take(0) =~= Seq::<Seq<char>>::empty());
    while i < ls.len()
        invariant
            i <= ls@.len(),
            all == views(ls@),
            views(kept@) == prose_lines(all.take(i as int)),
        decreases ls@.len() - i,
    {
        let line = &ls[i];
        let (a, b) = trim_bounds(line, 0, line.len());
        assert(line@.subrange(0, line@.len() as int) =~= line@);
        assert(all.take(i + 1).drop_last() =~= all.take(i as int));
        assert(all.take(i + 1).last() == line@);
        if a < b && is_prose(line, a, b) {
            let ghost before = views(kept@);
            kept.push(copy_range(line, 0, line.len()));
            assert(views(kept@) =~= before.push(line@));
        }
        i = i + 1;
    }
    assert(all.take(ls@.len() as int) =~= all);
    if kept.len() == 0 {
        return None;
    }
    let text = join_from(&kept, 0);
    assert(views(kept@).skip(0) =~= views(kept@));
    if text.len() >= MIN_RELAY_CHARS {
        Some(string_of(&text, 0, text.len()))
    } else {
        None
    }
}

// ---------------------------------------------------------------------------------------------
// The hash of what was last relayed
// ---------------------------------------------------------------------------------------------

/// What hashing a string writes into a hasher.
pub uninterp spec fn str_hash_writes(text: Seq<char>) -> Seq<Seq<u8>>;

/// `<str as Hash>::hash`: feed `text` to `hasher`.
///
/// The writes depend on the text's characters alone; what they are is std's business and is not
/// stated here.
#[verifier::external_body]
fn feed_str(text: &str, hasher: &mut DefaultHasher)
    ensures
        final(hasher)@ == old(hasher)@ + str_hash_writes(text@),
{
    text.hash(hasher);
}

/// The hash [`hash`] gives the text `s`.
pub open spec fn text_hash(s: Seq<char>) -> u64 {
    DefaultHasher::spec_finish(str_hash_writes(s))
}

/// A fixed-key hash of the text, the same for the same text every time.
pub fn hash(s: &str) -> (h: u64)
    ensures
        h == text_hash(s@),
{
    let mut hasher = DefaultHasher::new();
    feed_str(s, &mut hasher);
    assert(Seq::<Seq<u8>>::empty() + str_hash_writes(s@) =~= str_hash_writes(s@));
    hasher.finish()
}

// ---------------------------------------------------------------------------------------------
// The mirror
// ---------------------------------------------------------------------------------------------

/// What a mirror remembers, per pane.
pub struct MirrorState {
    /// The last screen that was compared against.
    pub seen: Map<Seq<char>, Seq<char>>,
    /// The screen offered one tick earlier.
    pub prev_tick: Map<Seq<char>, Seq<char>>,
    /// The hash of the last text relayed.
    pub relayed: Map<Seq<char>, u64>,
}

/// The screen a pane was last compared against; empty for a pane never seen.
pub open spec fn baseline_of(st: MirrorState, pane: Seq<char>) -> Seq<char> {
    if st.seen.dom().contains(pane) {
        st.seen[pane]
    } else {
        seq![]
    }
}

/// Whether `cleaned` is exactly what `pane` showed one tick earlier.
pub open spec fn settled(st: MirrorState, pane: Seq<char>, cleaned: Seq<char>) -> bool {
    st.prev_tick.dom().contains(pane) && st.prev_tick[pane] == cleaned
}

/// One observation: the state after offering `cleaned` for `pane`, and the text to send, if any.
///
/// The screen is remembered as the pane's last tick. Nothing is sent unless it is settled (the
/// same as the last tick) and differs from the screen last compared; then the new screen becomes
/// the one compared against, and what is new on it is sent when it is worth relaying and its hash
/// is not the hash of the last text sent for that pane.
pub open spec fn observe_spec(st: MirrorState, pane: Seq<char>, cleaned: Seq<char>) -> (
    MirrorState,
    Option<Seq<char>>,
) {
    let ticked = MirrorState {
        seen: st.seen,
        prev_tick: st.prev_tick.insert(pane, cleaned),
        relayed: st.relayed,
    };
    let baseline = baseline_of(st, pane);
    if !settled(st, pane, cleaned) || baseline == cleaned {
        (ticked, None)
    } else {
        let compared = MirrorState {
            seen: st.seen.insert(pane, cleaned),
            prev_tick: ticked.prev_tick,
            relayed: st.relayed,
        };
        match new_since_spec(baseline, cleaned) {
            None => (compared, None),
            Some(fresh) => match worth_spec(fresh) {
                None => (compared, None),
                Some(w) => {
                    let h = text_hash(w);
                    if st.relayed.dom().contains(pane) && st.relayed[pane] == h {
                        (compared, None)
                    } else {
                        (
                            MirrorState {
                                seen: compared.seen,
                                prev_tick: compared.prev_tick,
                                relayed: st.relayed.insert(pane, h),
                            },
                            Some(w),
                        )
                    }
                },
            },
        }
    }
}

/// The state after `prime`: the screen is both the last tick and the screen compared against.
pub open spec fn prime_spec(st: MirrorState, pane: Seq<char>, cleaned: Seq<char>) -> MirrorState {
    MirrorState {
        seen: st.seen.insert(pane, cleaned),
        prev_tick: st.prev_tick.insert(pane, cleaned),
        relayed: st.relayed,
    }
}

/// The state after `retain`: every pane not in `alive` forgotten, the rest untouched.
pub open spec fn retain_spec(st: MirrorState, alive: Set<Seq<char>>) -> MirrorState {
    MirrorState {
        seen: st.seen.restrict(alive),
        prev_tick: st.prev_tick.restrict(alive),
        relayed: st.relayed.restrict(alive),
    }
}

/// Tracks what each pane's screen looked like, so the next read can be diffed against it.
pub struct Mirror {
    /// pane id → the last cleaned screen we saw.
    seen: PaneTable<String>,
    /// pane id → the screen we saw one tick earlier, for deciding the pane has settled.
    prev_tick: PaneTable<String>,
    /// pane id → hash of the last text relayed, so a redraw does not repeat it.
    relayed: PaneTable<u64>,
}

impl View for Mirror {
    type V = MirrorState;

    closed spec fn view(&self) -> MirrorState {
        MirrorState {
            seen: self.seen.map(),
            prev_tick: self.prev_tick.map(),
            relayed: self.relayed.map(),
        }
    }
}

impl Default for Mirror {
    fn default() -> (m: Mirror)
        ensures
            m@.seen == Map::<Seq<char>, Seq<char>>::empty(),
            m@.prev_tick == Map::<Seq<char>, Seq<char>>::empty(),
            m@.relayed == Map::<Seq<char>, u64>::empty(),
    {
        Mirror::new()
    }
}

impl Mirror {
    /// A mirror that has seen nothing.
    pub fn new() -> (m: Mirror)
        ensures
            m@.seen == Map::<Seq<char>, Seq<char>>::empty(),
            m@.prev_tick == Map::<Seq<char>, Seq<char>>::empty(),
            m@.relayed == Map::<Seq<char>, u64>::empty(),
    {
        Mirror { seen: PaneTable::new(), prev_tick: PaneTable::new(), relayed: PaneTable::new() }
    }

    /// Offer a fresh screen; get back the text worth sending, if any.
    ///
    /// Returns `None` while the pane is still changing — a settled screen is the signal that the
    /// agent finished a thought, and it is what turns a stream of redraws into one message.
    pub fn observe(&mut self, pane: &str, cleaned: &str) -> (r: Option<String>)
        ensures
            final(self)@ == observe_spec(old(self)@, pane@, cleaned@).0,
            r matches Some(s) ==> observe_spec(old(self)@, pane@, cleaned@).1 == Some(s@),
            r is None ==> observe_spec(old(self)@, pane@, cleaned@).1 is None,
    {
        let ghost st = self@;
        let cleaned_owned = String::from_str(cleaned);
        let was_settled = match self.prev_tick.get(pane) {
            Some(p) => *p == cleaned_owned,
            None => false,
        };
        self.prev_tick.insert(pane, String::from_str(cleaned));
        // Still moving? Wait. This is the debounce, and it is per pane.
        if !was_settled {
            return None;
        }
        let baseline = match self.seen.get(pane) {
            Some(b) => b.clone(),
            None => String::new(),
        };
        assert(baseline@ == baseline_of(st, pane@));
        if baseline == cleaned_owned {
            return None;
        }
        let fresh = new_since(baseline.as_str(), cleaned);
        self.seen.insert(pane, cleaned_owned);
        let fresh = match fresh {
            Some(f) => f,
            None => return None,
        };
        let worth = match worth_relaying(fresh.as_str()) {
            Some(w) => w,
            None => return None,
        };
        // A redraw can reprint a paragraph we already sent; the anchor cannot see that.
        let h = hash(worth.as_str());
        let repeated = match self.relayed.get(pane) {
            Some(last) => *last == h,
            None => false,
        };
        if repeated {
            return None;
        }
        self.relayed.insert(pane, h);
        Some(worth)
    }

    /// Seed a pane without relaying, so the first tick after startup does not dump the whole
    /// screen into the topic as though it had just been said.
    pub fn prime(&mut self, pane: &str, cleaned: &str)
        ensures
            final(self)@ == prime_spec(old(self)@, pane@, cleaned@),
    {
        self.seen.insert(pane, String::from_str(cleaned));
        self.prev_tick.insert(pane, String::from_str(cleaned));
    }

    /// Forget panes that have left the herd.
    pub fn retain(&mut self, alive: &BTreeSet<String>)
        ensures
            final(self)@ == retain_spec(old(self)@, names_in(*alive)),
    {
        self.seen.retain(alive);
        self.prev_tick.retain(alive);
        self.relayed.retain(alive);
    }

    /// Whether the mirror holds a screen for `pane` to compare the next one against.
    pub fn has_seen(&self, pane: &str) -> (b: bool)
        ensures
            b == self@.seen.dom().contains(pane@),
    {
        self.seen.get(pane).is_some()
    }
}

// ---------------------------------------------------------------------------------------------
// Laws
// ---------------------------------------------------------------------------------------------

/// Priming relays nothing: a pane primed with a screen and then offered that same screen says
/// nothing, so startup never dumps a screenful of history into the topic.
pub proof fn law_priming_relays_nothing(st: MirrorState, pane: Seq<char>, screen: Seq<char>)
    ensures
        observe_spec(prime_spec(st, pane, screen), pane, screen).1 is None,
{
    let primed = prime_spec(st, pane, screen);
    assert(primed.seen.dom().contains(pane));
    assert(baseline_of(primed, pane) == screen);
}

/// A moving screen is never relayed: text comes back only for a screen that is exactly what the
/// pane showed one tick earlier, and that differs from the screen last compared against.
pub proof fn law_only_a_settled_screen_is_relayed(
    st: MirrorState,
    pane: Seq<char>,
    cleaned: Seq<char>,
)
    ensures
        observe_spec(st, pane, cleaned).1 is Some ==> settled(st, pane, cleaned) && baseline_of(
            st,
            pane,
        ) != cleaned,
{
}

/// Whatever is offered, the pane's last tick becomes that screen.
pub proof fn law_every_offer_is_the_next_tick(st: MirrorState, pane: Seq<char>, cleaned: Seq<char>)
    ensures
        observe_spec(st, pane, cleaned).0.prev_tick == st.prev_tick.insert(pane, cleaned),
{
}

/// Nothing is sent twice in a row: once a screen has been relayed, offering the same screen again
/// says nothing.
pub proof fn law_a_relayed_screen_is_not_relayed_again(
    st: MirrorState,
    pane: Seq<char>,
    cleaned: Seq<char>,
)
    ensures
        observe_spec(st, pane, cleaned).1 is Some ==> observe_spec(
            observe_spec(st, pane, cleaned).0,
            pane,
            cleaned,
        ).1 is None,
{
    let after = observe_spec(st, pane, cleaned).0;
    if observe_spec(st, pane, cleaned).1 is Some {
        assert(after.seen.dom().contains(pane));
        assert(baseline_of(after, pane) == cleaned);
    }
}

/// The same paragraph is not sent twice: text is relayed only when its hash differs from the hash
/// of the last text relayed for that pane, and it then becomes that hash.
pub proof fn law_a_repeated_paragraph_is_held_back(
    st: MirrorState,
    pane: Seq<char>,
    cleaned: Seq<char>,
)
    ensures
        observe_spec(st, pane, cleaned).1 matches Some(w) ==> {
            &&& !(st.relayed.dom().contains(pane) && st.relayed[pane] == text_hash(w))
            &&& observe_spec(st, pane, cleaned).0.relayed == st.relayed.insert(pane, text_hash(w))
        },
{
}

/// What is relayed is at least [`MIN_RELAY_CHARS`] characters of prose lines that were new on the
/// screen.
pub proof fn law_relayed_text_is_new_prose(st: MirrorState, pane: Seq<char>, cleaned: Seq<char>)
    ensures
        observe_spec(st, pane, cleaned).1 matches Some(w) ==> {
            &&& w.len() >= MIN_RELAY_CHARS
            &&& exists|fresh: Seq<char>|
                new_since_spec(baseline_of(st, pane), cleaned) == Some(fresh) && w == join_lines(
                    prose_lines(lines(fresh)),
                )
        },
{
    if let Some(w) = observe_spec(st, pane, cleaned).1 {
        let fresh = new_since_spec(baseline_of(st, pane), cleaned)->0;
        assert(new_since_spec(baseline_of(st, pane), cleaned) == Some(fresh));
    }
}

/// Panes are independent: offering a screen for one pane changes nothing remembered for another.
pub proof fn law_panes_are_independent(
    st: MirrorState,
    pane: Seq<char>,
    cleaned: Seq<char>,
    other: Seq<char>,
)
    requires
        other != pane,
    ensures
        ({
            let after = observe_spec(st, pane, cleaned).0;
            &&& after.seen.dom().contains(other) == st.seen.dom().contains(other)
            &&& after.seen[other] == st.seen[other]
            &&& after.prev_tick.dom().contains(other) == st.prev_tick.dom().contains(other)
            &&& after.prev_tick[other] == st.prev_tick[other]
            &&& after.relayed.dom().contains(other) == st.relayed.dom().contains(other)
            &&& after.relayed[other] == st.relayed[other]
        }),
{
}

/// Panes that left the herd are forgotten, and the ones still in it keep everything.
pub proof fn law_retain_forgets_exactly_the_departed(
    st: MirrorState,
    alive: Set<Seq<char>>,
    pane: Seq<char>,
)
    ensures
        ({
            let after = retain_spec(st, alive);
            &&& !alive.contains(pane) ==> !after.seen.dom().contains(pane)
                && !after.prev_tick.dom().contains(pane) && !after.relayed.dom().contains(pane)
            &&& alive.contains(pane) ==> {
                &&& after.seen.dom().contains(pane) == st.seen.dom().contains(pane)
                &&& after.prev_tick.dom().contains(pane) == st.prev_tick.dom().contains(pane)
                &&& after.relayed.dom().contains(pane) == st.relayed.dom().contains(pane)
                &&& st.seen.dom().contains(pane) ==> after.seen[pane] == st.seen[pane]
                &&& st.prev_tick.dom().contains(pane) ==> after.prev_tick[pane]
                    == st.prev_tick[pane]
                &&& st.relayed.dom().contains(pane) ==> after.relayed[pane] == st.relayed[pane]
            }
        }),
{
}

/// When the previous screen has no anchor, or the new screen no longer shows it, the screen has
/// scrolled past what was last seen, and everything visible counts as new.
pub proof fn law_a_scrolled_screen_is_new_in_full(prev: Seq<char>, now: Seq<char>)
    requires
        lines(now).len() > 0,
        anchor_of(lines(prev)) matches Some(a) ==> last_match(lines(now), a) is None,
    ensures
        new_since_spec(prev, now) == (if trim(join_lines(lines(now))).len() > 0 {
            Some(trim(join_lines(lines(now))))
        } else {
            None
        }),
{
    assert(lines(now).skip(0) =~= lines(now));
}

/// When the new screen shows the anchor, what is new is what follows its last appearance.
pub proof fn law_what_is_new_follows_the_anchor(prev: Seq<char>, now: Seq<char>, a: Seq<char>, i: int)
    requires
        anchor_of(lines(prev)) == Some(a),
        last_match(lines(now), a) == Some(i),
    ensures
        0 <= i < lines(now).len(),
        trim(lines(now)[i]) == a,
        new_since_spec(prev, now) == (if trim(join_lines(lines(now).skip(i + 1))).len() > 0 {
            Some(trim(join_lines(lines(now).skip(i + 1))))
        } else {
            None
        }),
{
    lemma_last_match_bounds(lines(now), a);
}

proof fn lemma_prose_lines_are_kept(ls: Seq<Seq<char>>)
    requires
        forall|i: int| 0 <= i < ls.len() ==> one_line(#[trigger] ls[i]),
    ensures
        forall|k: int|
            0 <= k < prose_lines(ls).len() ==> keeps(#[trigger] prose_lines(ls)[k]) && one_line(
                prose_lines(ls)[k],
            ) && prose_lines(ls)[k].len() > 0,
    decreases ls.len(),
{
    if ls.len() > 0 {
        let before = ls.drop_last();
        assert forall|i: int| 0 <= i < before.len() implies one_line(#[trigger] before[i]) by {
            assert(before[i] == ls[i]);
        }
        lemma_prose_lines_are_kept(before);
        let last = ls.last();
        let pb = prose_lines(before);
        if keeps(last) {
            assert(last.len() > 0) by {
                if last.len() == 0 {
                    assert(last =~= Seq::<char>::empty());
                    assert(trim(last).len() == 0);
                }
            }
            assert(one_line(last)) by {
                assert(last == ls[ls.len() - 1]);
            }
            assert(prose_lines(ls) == pb.push(last));
            assert forall|k: int| 0 <= k < prose_lines(ls).len() implies keeps(
                #[trigger] prose_lines(ls)[k],
            ) && one_line(prose_lines(ls)[k]) && prose_lines(ls)[k].len() > 0 by {
                if k < pb.len() {
                    assert(prose_lines(ls)[k] == pb[k]);
                }
            }
        } else {
            assert(prose_lines(ls) == pb);
        }
    }
}

/// Prose only: every line of a text worth relaying, trimmed, is a non-blank line that reads as
/// something an agent said.
pub proof fn law_every_relayed_line_is_prose(fresh: Seq<char>)
    ensures
        worth_spec(fresh) matches Some(w) ==> forall|i: int|
            0 <= i < lines(w).len() ==> #[trigger] keeps(lines(w)[i]),
{
    if let Some(w) = worth_spec(fresh) {
        let ls = lines(fresh);
        lemma_lines_are_one_line(fresh);
        lemma_prose_lines_are_kept(ls);
        let kept = prose_lines(ls);
        lemma_lines_of_joined(kept);
        assert forall|i: int| 0 <= i < lines(w).len() implies #[trigger] keeps(lines(w)[i]) by {
            lemma_trim_strip_cr(kept[i]);
            if i < kept.len() - 1 {
                assert(lines(w)[i] == strip_cr(kept[i]));
            }
        }
    }
}


proof fn lemma_anchor_is_the_last_substantial_line(ls: Seq<Seq<char>>)
    ensures
        anchor_of(ls) is None ==> forall|i: int|
            0 <= i < ls.len() ==> #[trigger] trim(ls[i]).len() < ANCHOR_CHARS,
        anchor_of(ls) matches Some(a) ==> {
            &&& a.len() >= ANCHOR_CHARS
            &&& last_match(ls, a) matches Some(k) && 0 <= k < ls.len() && forall|i: int|
                k < i < ls.len() ==> #[trigger] trim(ls[i]).len() < ANCHOR_CHARS
        },
    decreases ls.len(),
{
    if ls.len() > 0 && trim(ls.last()).len() < ANCHOR_CHARS {
        let init = ls.drop_last();
        lemma_anchor_is_the_last_substantial_line(init);
        assert forall|i: int| 0 <= i < ls.len() - 1 implies #[trigger] ls[i] == init[i] by {}
        if let Some(a) = anchor_of(ls) {
            assert(trim(ls.last()) != a);
            let k = last_match(init, a)->0;
            assert(last_match(ls, a) == Some(k));
            assert forall|i: int| k < i < ls.len() implies #[trigger] trim(ls[i]).len()
                < ANCHOR_CHARS by {
                if i < ls.len() - 1 {
                    assert(ls[i] == init[i]);
                }
            }
        }
    }
}

/// Reading an unchanged screen again brings nothing substantial: whatever `new_since` finds
/// between a screen and itself, none of its lines, trimmed, is long enough to be an anchor.
pub proof fn law_an_unchanged_screen_has_nothing_substantial(x: Seq<char>)
    ensures
        new_since_spec(x, x) matches Some(f) ==> forall|i: int|
            0 <= i < lines(f).len() ==> #[trigger] trim(lines(f)[i]).len() < ANCHOR_CHARS,
{
    if let Some(f) = new_since_spec(x, x) {
        let ls = lines(x);
        let st = fresh_start(x, ls);
        lemma_anchor_is_the_last_substantial_line(ls);
        let rest = ls.skip(st);
        assert(0 <= st <= ls.len());
        assert(f == trim(join_lines(rest)));
        if rest.len() == 0 {
            assert(join_lines(rest) =~= Seq::<char>::empty());
        }
        lemma_lines_are_one_line(x);
        assert forall|i: int| 0 <= i < rest.len() implies one_line(#[trigger] rest[i]) by {
            assert(rest[i] == ls[st + i]);
        }
        let i0 = lemma_lines_of_trimmed_join(rest);
        assert forall|i: int| 0 <= i < lines(f).len() implies #[trigger] trim(lines(f)[i]).len()
            < ANCHOR_CHARS by {
            assert(rest[i0 + i] == ls[st + i0 + i]);
            assert(trim(ls[st + i0 + i]).len() < ANCHOR_CHARS);
        }
    }
}

proof fn lemma_prose_lines_pick(ls: Seq<Seq<char>>) -> (f: spec_fn(int) -> int)
    ensures
        forall|k: int|
            0 <= k < prose_lines(ls).len() ==> 0 <= #[trigger] f(k) < ls.len() && prose_lines(
                ls,
            )[k] == ls[f(k)],
        forall|k1: int, k2: int|
            0 <= k1 < k2 < prose_lines(ls).len() ==> #[trigger] f(k1) < #[trigger] f(k2),
        forall|i: int|
            0 <= i < ls.len() && keeps(#[trigger] ls[i]) ==> exists|k: int|
                0 <= k < prose_lines(ls).len() && #[trigger] f(k) == i,
    decreases ls.len(),
{
    if ls.len() == 0 {
        |k: int| 0
    } else {
        let init = ls.drop_last();
        let g = lemma_prose_lines_pick(init);
        let n = prose_lines(init).len();
        let f = |k: int|
            if k < n {
                g(k)
            } else {
                ls.len() - 1
            };
        assert forall|k: int| 0 <= k < prose_lines(ls).len() implies 0 <= #[trigger] f(k)
            < ls.len() && prose_lines(ls)[k] == ls[f(k)] by {
            if k < n {
                assert(prose_lines(ls)[k] == prose_lines(init)[k]);
                assert(init[g(k)] == ls[g(k)]);
            }
        }
        assert forall|k1: int, k2: int|
            0 <= k1 < k2 < prose_lines(ls).len() implies #[trigger] f(k1) < #[trigger] f(k2) by {
            if k2 < n {
                assert(g(k1) < g(k2));
            }
        }
        assert forall|i: int| 0 <= i < ls.len() && keeps(#[trigger] ls[i]) implies exists|k: int|
            0 <= k < prose_lines(ls).len() && #[trigger] f(k) == i by {
            if i < ls.len() - 1 {
                assert(init[i] == ls[i]);
                let k = choose|k: int| 0 <= k < n && #[trigger] g(k) == i;
                assert(f(k) == i);
            } else {
                assert(f(n as int) == i);
            }
        }
        f
    }
}

/// Each of `ls`, up to the whitespace around it, is the line of `screen` that `g` picks, and `g`
/// picks them in the order the screen shows them.
pub open spec fn shown_in_order(ls: Seq<Seq<char>>, screen: Seq<Seq<char>>, g: spec_fn(int) -> int) -> bool {
    &&& forall|k: int|
        0 <= k < ls.len() ==> 0 <= #[trigger] g(k) < screen.len() && trim(ls[k]) == trim(
            screen[g(k)],
        )
    &&& forall|k1: int, k2: int| 0 <= k1 < k2 < ls.len() ==> #[trigger] g(k1) < #[trigger] g(k2)
}

/// What a pane relays, in one statement: at least [`MIN_RELAY_CHARS`] characters; every line of
/// it a non-blank line that reads as prose; its lines, up to the whitespace around each, lines of
/// the offered screen in the order the screen shows them; and never the text whose hash is the
/// last one relayed for that pane, which it then becomes.
pub proof fn law_what_is_relayed(st: MirrorState, pane: Seq<char>, cleaned: Seq<char>)
    ensures
        observe_spec(st, pane, cleaned).1 matches Some(w) ==> {
            &&& w.len() >= MIN_RELAY_CHARS
            &&& forall|k: int| 0 <= k < lines(w).len() ==> #[trigger] keeps(lines(w)[k])
            &&& exists|g: spec_fn(int) -> int| #[trigger] shown_in_order(lines(w), lines(cleaned), g)
            &&& forall|u: Seq<char>|
                st.relayed.dom().contains(pane) && st.relayed[pane] == #[trigger] text_hash(u)
                    ==> w != u
            &&& observe_spec(st, pane, cleaned).0.relayed[pane] == text_hash(w)
        },
{
    if let Some(w) = observe_spec(st, pane, cleaned).1 {
        law_relayed_text_is_new_prose(st, pane, cleaned);
        let baseline = baseline_of(st, pane);
        let fresh = new_since_spec(baseline, cleaned)->0;
        assert(worth_spec(fresh) == Some(w));
        law_every_relayed_line_is_prose(fresh);
        let ls = lines(cleaned);
        let s0 = fresh_start(baseline, ls);
        if let Some(a) = anchor_of(lines(baseline)) {
            lemma_last_match_bounds(ls, a);
        }
        assert(0 <= s0 <= ls.len());
        let rest = ls.skip(s0);
        assert(fresh == trim(join_lines(rest)));
        if rest.len() == 0 {
            assert(join_lines(rest) =~= Seq::<char>::empty());
        }
        lemma_lines_are_one_line(cleaned);
        assert forall|i: int| 0 <= i < rest.len() implies one_line(#[trigger] rest[i]) by {
            assert(rest[i] == ls[s0 + i]);
        }
        let i0 = lemma_lines_of_trimmed_join(rest);
        let fl = lines(fresh);
        lemma_lines_are_one_line(fresh);
        lemma_prose_lines_are_kept(fl);
        let kept = prose_lines(fl);
        let pick = lemma_prose_lines_pick(fl);
        lemma_lines_of_joined(kept);
        let g = |k: int| s0 + i0 + pick(k);
        assert forall|k: int| 0 <= k < lines(w).len() implies 0 <= #[trigger] g(k) < lines(
            cleaned,
        ).len() && trim(lines(w)[k]) == trim(lines(cleaned)[g(k)]) by {
            lemma_trim_strip_cr(kept[k]);
            assert(kept[k] == fl[pick(k)]);
            assert(trim(fl[pick(k)]) == trim(rest[i0 + pick(k)]));
            assert(rest[i0 + pick(k)] == ls[s0 + i0 + pick(k)]);
        }
        assert forall|k1: int, k2: int| 0 <= k1 < k2 < lines(w).len() implies #[trigger] g(k1)
            < #[trigger] g(k2) by {
            assert(pick(k1) < pick(k2));
        }
        assert(shown_in_order(lines(w), lines(cleaned), g));
        assert forall|u: Seq<char>|
            st.relayed.dom().contains(pane) && st.relayed[pane] == #[trigger] text_hash(u) implies w
            != u by {
            law_a_repeated_paragraph_is_held_back(st, pane, cleaned);
        }
        law_a_repeated_paragraph_is_held_back(st, pane, cleaned);
    }
}

/// Whether a line is one the chat is given: something is left once it is trimmed, and what is
/// left reads as prose.
pub open spec fn is_said(l: Seq<char>) -> bool {
    trim(l).len() > 0 && looks_like_prose(trim(l))
}

/// Nothing said is dropped: when a text is worth relaying, its lines are, up to the whitespace
/// around each, exactly the lines of the text that are said, in the order the text has them; every
/// said line is among them, and nothing else is.
pub proof fn law_every_said_line_is_relayed(fresh: Seq<char>)
    ensures
        worth_spec(fresh) matches Some(w) ==> exists|g: spec_fn(int) -> int|
            {
                &&& #[trigger] shown_in_order(lines(w), lines(fresh), g)
                &&& forall|k: int| 0 <= k < lines(w).len() ==> is_said(lines(fresh)[#[trigger] g(k)])
                &&& forall|i: int|
                    0 <= i < lines(fresh).len() && is_said(#[trigger] lines(fresh)[i])
                        ==> exists|k: int| 0 <= k < lines(w).len() && #[trigger] g(k) == i
            },
{
    if let Some(w) = worth_spec(fresh) {
        let fl = lines(fresh);
        lemma_lines_are_one_line(fresh);
        lemma_prose_lines_are_kept(fl);
        let kept = prose_lines(fl);
        let pick = lemma_prose_lines_pick(fl);
        lemma_lines_of_joined(kept);
        assert(lines(w).len() == kept.len());
        assert forall|k: int| 0 <= k < lines(w).len() implies 0 <= #[trigger] pick(k) < fl.len()
            && trim(lines(w)[k]) == trim(fl[pick(k)]) by {
            lemma_trim_strip_cr(kept[k]);
        }
        assert(shown_in_order(lines(w), fl, pick));
        assert forall|k: int| 0 <= k < lines(w).len() implies is_said(fl[#[trigger] pick(k)]) by {
            assert(kept[k] == fl[pick(k)]);
        }
        assert forall|i: int| 0 <= i < fl.len() && is_said(#[trigger] fl[i]) implies exists|k: int|
            0 <= k < lines(w).len() && #[trigger] pick(k) == i by {
            assert(keeps(fl[i]));
        }
    }
}

/// A settled screen with something new worth saying is relayed: when the pane showed exactly this
/// screen one tick earlier, the screen differs from the one last compared against (the empty
/// screen for a pane never compared), what is new on it is worth relaying as `w`, and `w`'s hash
/// is not the last one relayed for the pane, the call returns `w` and remembers its hash.
pub proof fn law_a_settled_new_paragraph_is_relayed(
    st: MirrorState,
    pane: Seq<char>,
    cleaned: Seq<char>,
    fresh: Seq<char>,
    w: Seq<char>,
)
    requires
        st.prev_tick.dom().contains(pane),
        st.prev_tick[pane] == cleaned,
        (if st.seen.dom().contains(pane) {
            st.seen[pane]
        } else {
            Seq::<char>::empty()
        }) != cleaned,
        new_since_spec(
            if st.seen.dom().contains(pane) {
                st.seen[pane]
            } else {
                Seq::<char>::empty()
            },
            cleaned,
        ) == Some(fresh),
        worth_spec(fresh) == Some(w),
        !(st.relayed.dom().contains(pane) && st.relayed[pane] == text_hash(w)),
    ensures
        observe_spec(st, pane, cleaned).1 == Some(w),
        observe_spec(st, pane, cleaned).0.relayed == st.relayed.insert(pane, text_hash(w)),
        observe_spec(st, pane, cleaned).0.seen == st.seen.insert(pane, cleaned),
{
    assert(baseline_of(st, pane) =~= (if st.seen.dom().contains(pane) {
        st.seen[pane]
    } else {
        Seq::<char>::empty()
    }));
}

/// A pane never compared is compared against the empty screen: offering a screen for a pane with
/// no remembered screen answers exactly as it would had the empty screen been remembered for it.
pub proof fn law_an_unseen_pane_starts_from_the_empty_screen(
    st: MirrorState,
    pane: Seq<char>,
    cleaned: Seq<char>,
)
    requires
        !st.seen.dom().contains(pane),
    ensures
        ({
            let blank = MirrorState {
                seen: st.seen.insert(pane, Seq::<char>::empty()),
                prev_tick: st.prev_tick,
                relayed: st.relayed,
            };
            &&& observe_spec(st, pane, cleaned).1 == observe_spec(blank, pane, cleaned).1
            &&& observe_spec(st, pane, cleaned).0.relayed == observe_spec(blank, pane, cleaned).0.relayed
            &&& observe_spec(st, pane, cleaned).0.prev_tick == observe_spec(blank, pane, cleaned).0.prev_tick
        }),
{
    let blank = MirrorState {
        seen: st.seen.insert(pane, Seq::<char>::empty()),
        prev_tick: st.prev_tick,
        relayed: st.relayed,
    };
    assert(baseline_of(st, pane) =~= Seq::<char>::empty());
    assert(baseline_of(blank, pane) =~= Seq::<char>::empty());
}
} // verus!
