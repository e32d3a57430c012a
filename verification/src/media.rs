//! The hub's two directories for files — what the operator sends, and what an agent sends him —
//! and the rules that keep each a mailbox.
//!
//! The hub mints every path it writes: nothing a phone or Telegram said is ever a segment of one,
//! and an extension comes from a short table keyed on a declared mime, or is absent. Every
//! directory is required to be the hub's own, not a link, and mode `0700`; every file sent out of
//! an outbox is required to be a regular file of the hub's own with exactly one name and under the
//! ceiling. The disk is read elsewhere; what is decided about what was read is decided here.

use vstd::prelude::*;

use crate::stamp::{
    decimal, in_base, is_digit_char, law_the_stamp_is_fifteen_characters, lemma_in_base_len,
    lemma_padded_shape, push_number, stamp_text, utc_stamp, zero_padded,
};
use crate::text::{
    chars_of, is_control, is_control_char, push_all, push_char, same_chars, string_of,
};

verus! {

/// The most a bot may fetch from Telegram. Not ours to raise.
pub const FETCH_CEILING: u64 = 20_000_000;

/// The most a bot may upload. Not ours to raise either.
pub const SEND_CEILING: u64 = 50_000_000;

/// The most a bot may upload as a picture. Over it, a picture goes as a document instead.
pub const PHOTO_CEILING: u64 = 10_000_000;

/// How long a file he sent stays readable, in seconds: forty-eight hours.
pub const SHELF_LIFE_SECS: u64 = 172_800;

/// The most one tree keeps: 256 MiB.
pub const TREE_CAP: u64 = 268_435_456;

/// The longest name, in bytes, that an address segment or an outbox file may have.
pub const MAX_LANE: usize = 64;

/// A lane name the address rules accept: one the hub would open as a name, and never `-`, which
/// is the segment of the project's own voice.
pub open spec fn lane_name_ok(l: Seq<char>) -> bool {
    openable(l) && l != seq!['-']
}

/// What a conversation is: its project, and its lane or none.
pub struct AddrView {
    pub project: Seq<char>,
    pub lane: Option<Seq<char>>,
}

/// A conversation: a project, and the lane within it, or the project's own voice when there is
/// no lane.
pub struct Addr {
    project: String,
    lane: Option<String>,
}

impl View for Addr {
    type V = AddrView;

    closed spec fn view(&self) -> AddrView {
        AddrView {
            project: self.project@,
            lane: match self.lane {
                Some(l) => Some(l@),
                None => None,
            },
        }
    }
}

impl Addr {
    /// Only a lane name the address rules accept is ever a lane.
    #[verifier::type_invariant]
    spec fn lane_is_a_lane_name(self) -> bool {
        self.lane matches Some(l) ==> lane_name_ok(l@)
    }

    /// The project's own conversation.
    pub fn project_itself(project: &str) -> (a: Addr)
        ensures
            a@ == (AddrView { project: project@, lane: None }),
    {
        Addr { project: String::from_str(project), lane: None }
    }

    /// A lane's conversation within its project, or `None` for a name the address rules refuse.
    pub fn lane_of(project: &str, lane: &str) -> (r: Option<Addr>)
        ensures
            r is Some <==> lane_name_ok(lane@),
            r matches Some(a) ==> a@ == (AddrView { project: project@, lane: Some(lane@) }),
    {
        let v = chars_of(lane);
        proof {
            reveal_strlit("-");
            assert("-"@ =~= seq!['-']);
        }
        if !MediaStore::name_is_openable(lane) || equals_literal(&v, "-") {
            return None;
        }
        Some(Addr { project: String::from_str(project), lane: Some(String::from_str(lane)) })
    }

    /// The project.
    pub fn project(&self) -> (p: &str)
        ensures
            p@ == self@.project,
    {
        self.project.as_str()
    }

    /// The lane, or `None` for the project's own voice.
    pub fn lane(&self) -> (l: Option<&str>)
        ensures
            l matches Some(x) ==> self@.lane == Some(x@),
            l is None ==> self@.lane is None,
            l matches Some(x) ==> lane_name_ok(x@),
    {
        proof {
            use_type_invariant(self);
        }
        match &self.lane {
            Some(l) => Some(l.as_str()),
            None => None,
        }
    }

    /// The segment this conversation's directory is named by.
    pub fn segment(&self) -> (seg: &str)
        ensures
            seg@ == lane_segment(self@),
    {
        proof {
            reveal_strlit("-");
            assert("-"@ =~= seq!['-']);
        }
        match &self.lane {
            Some(l) => l.as_str(),
            None => "-",
        }
    }
}

/// The segment a conversation's directory is named by: the lane, or `-` for the project's own
/// voice (which the address rules refuse as a lane name, so the two never collide).
pub open spec fn lane_segment(a: AddrView) -> Seq<char> {
    match a.lane {
        Some(l) => l,
        None => seq!['-'],
    }
}

/// A lane's directory is never the project's own: joined under the same directory, a lane name
/// the address rules accept and the `-` segment name two different paths.
pub proof fn law_a_lane_never_lands_in_the_projects_own_directory(dir: Seq<char>, lane: Seq<char>)
    requires
        lane_name_ok(lane),
    ensures
        joined(dir, lane) != joined(dir, seq!['-']),
{
    let dash = seq!['-'];
    assert(lane[0] != '/');
    if dir.len() == 0 || dir.last() == '/' {
        if joined(dir, lane) == joined(dir, dash) {
            assert((dir + lane).skip(dir.len() as int) =~= lane);
            assert((dir + dash).skip(dir.len() as int) =~= dash);
        }
    } else {
        if joined(dir, lane) == joined(dir, dash) {
            let d = dir + seq!['/'];
            assert(dir + seq!['/'] + lane =~= d + lane);
            assert(dir + seq!['/'] + dash =~= d + dash);
            assert((d + lane).skip(d.len() as int) =~= lane);
            assert((d + dash).skip(d.len() as int) =~= dash);
        }
    }
}

/// Why a file in an outbox will not be sent. The words still go.
#[derive(Debug, PartialEq, Eq)]
pub enum NotSendable {
    /// Over the ceiling, by the hub's own `fstat` on what it opened. Carries the size.
    TooBig(u64),
    /// Not a regular file the hub owns, reached without following a link, inside the outbox — or
    /// a name the hub will not open at all. The words are for the audit.
    NotAFile(String),
}

/// What a sweep took away, for the log line.
#[derive(Debug, Default, PartialEq, Eq)]
pub struct Swept {
    pub files: usize,
    pub bytes: u64,
}

// ---------------------------------------------------------------------------------------------
// Paths
// ---------------------------------------------------------------------------------------------

/// `Path::join`: `seg` under `dir`, with one `'/'` between them unless `dir` is empty or already
/// ends in one; an absolute `seg` replaces `dir`.
pub open spec fn joined(dir: Seq<char>, seg: Seq<char>) -> Seq<char> {
    if seg.len() > 0 && seg[0] == '/' {
        seg
    } else if dir.len() == 0 || dir.last() == '/' {
        dir + seg
    } else {
        dir + seq!['/'] + seg
    }
}

/// `seg` joined under `dir`.
pub fn join_path(dir: &str, seg: &str) -> (p: String)
    ensures
        p@ == joined(dir@, seg@),
{
    let d = chars_of(dir);
    let s = chars_of(seg);
    if s.len() > 0 && s[0] == '/' {
        return string_of(&s, 0, s.len());
    }
    let mut p = string_of(&d, 0, d.len());
    assert(d@.subrange(0, d@.len() as int) =~= d@);
    if !(d.len() == 0 || d[d.len() - 1] == '/') {
        push_char(&mut p, '/');
    }
    push_all(&mut p, seg);
    p
}

/// Whether `v` holds exactly the characters of `lit`.
pub fn equals_literal(v: &Vec<char>, lit: &str) -> (b: bool)
    ensures
        b == (v@ == lit@),
{
    let l = chars_of(lit);
    let b = same_chars(v, 0, v.len(), &l);
    assert(v@.subrange(0, v@.len() as int) =~= v@);
    b
}

// ---------------------------------------------------------------------------------------------
// Names
// ---------------------------------------------------------------------------------------------

/// How many bytes `c` takes in UTF-8.
pub open spec fn utf8_width(c: char) -> nat {
    if '\u{80}' > c {
        1
    } else if '\u{800}' > c {
        2
    } else if '\u{10000}' > c {
        3
    } else {
        4
    }
}

/// How many bytes `s` takes in UTF-8: what `str::len` counts.
pub open spec fn utf8_len(s: Seq<char>) -> nat
    decreases s.len(),
{
    if s.len() == 0 {
        0
    } else {
        utf8_len(s.drop_last()) + utf8_width(s.last())
    }
}

proof fn lemma_utf8_len_grows(s: Seq<char>, k: int)
    requires
        0 <= k <= s.len(),
    ensures
        utf8_len(s.take(k)) <= utf8_len(s),
    decreases s.len() - k,
{
    if k < s.len() {
        lemma_utf8_len_grows(s, k + 1);
        assert(s.take(k + 1).drop_last() =~= s.take(k));
    } else {
        assert(s.take(k) =~= s);
    }
}

proof fn lemma_utf8_len_front(s: Seq<char>)
    requires
        s.len() > 0,
    ensures
        utf8_len(s) == utf8_width(s[0]) + utf8_len(s.drop_first()),
    decreases s.len(),
{
    if s.len() == 1 {
        assert(s.drop_first() =~= Seq::<char>::empty());
        assert(s.drop_last() =~= Seq::<char>::empty());
    } else {
        lemma_utf8_len_front(s.drop_last());
        assert(s.drop_last().drop_first() =~= s.drop_first().drop_last());
        assert(s.drop_first().last() == s.last());
        assert(s.drop_last()[0] == s[0]);
    }
}

/// A character takes in UTF-8 exactly as many bytes as its encoding has.
proof fn lemma_utf8_width(c: char)
    ensures
        utf8_width(c) == vstd::utf8::encode_scalar(c as u32).len(),
{
    vstd::utf8::char_is_scalar(c);
}

/// `utf8_len` is the length of the UTF-8 encoding: one byte below U+0080, two below U+0800, three
/// below U+10000 and four above, so a name's length against [`MAX_LANE`] is its length in bytes.
pub proof fn law_utf8_len_is_the_length_of_the_encoding(s: Seq<char>)
    ensures
        utf8_len(s) == vstd::utf8::encode_utf8(s).len(),
    decreases s.len(),
{
    if s.len() > 0 {
        lemma_utf8_len_front(s);
        lemma_utf8_width(s[0]);
        law_utf8_len_is_the_length_of_the_encoding(s.drop_first());
    }
}

/// The address rules in bytes: a name is openable exactly when it is not empty, its UTF-8
/// encoding is at most [`MAX_LANE`] bytes, it is not `.` or `..`, and it holds no `/`, `\` or
/// control character.
pub proof fn law_an_openable_name_is_at_most_the_limit_in_bytes(name: Seq<char>)
    ensures
        openable(name) == (name.len() > 0 && vstd::utf8::encode_utf8(name).len() <= MAX_LANE
            && name != "."@ && name != ".."@ && forall|i: int|
            0 <= i < name.len() ==> name[i] != '/' && name[i] != '\\' && !is_control(name[i])),
{
    law_utf8_len_is_the_length_of_the_encoding(name);
}

/// The address rules for a name the hub will open: one segment, not empty, at most
/// [`MAX_LANE`] bytes, not `.` or `..`, no `/` or `\`, no control character.
pub open spec fn openable(name: Seq<char>) -> bool {
    &&& name.len() > 0
    &&& utf8_len(name) <= MAX_LANE
    &&& name != "."@
    &&& name != ".."@
    &&& forall|i: int| 0 <= i < name.len() ==> name[i] != '/' && name[i] != '\\' && !is_control(
        name[i],
    )
}

/// The extension a declared mime earns, keyed on the exact string.
pub open spec fn extension_spec(mime: Seq<char>) -> Option<Seq<char>> {
    if mime == "image/jpeg"@ {
        Some("jpg"@)
    } else if mime == "image/png"@ {
        Some("png"@)
    } else if mime == "image/webp"@ {
        Some("webp"@)
    } else if mime == "image/gif"@ {
        Some("gif"@)
    } else if mime == "application/pdf"@ {
        Some("pdf"@)
    } else if mime == "text/plain"@ {
        Some("txt"@)
    } else if mime == "text/markdown"@ {
        Some("md"@)
    } else if mime == "text/csv"@ {
        Some("csv"@)
    } else if mime == "application/json"@ {
        Some("json"@)
    } else if mime == "audio/ogg"@ {
        Some("ogg"@)
    } else if mime == "audio/mpeg"@ {
        Some("mp3"@)
    } else if mime == "video/mp4"@ {
        Some("mp4"@)
    } else if mime == "application/zip"@ {
        Some("zip"@)
    } else {
        None
    }
}

/// The extension a declared mime earns, or none.
///
/// A courtesy so an agent's own tools can tell a picture from a text file without being told; a
/// short table so that nothing a sender declares can name an extension the hub did not choose.
/// Keyed on the exact string, so `image/png; anything` earns nothing.
pub fn extension_for(mime: &str) -> (r: Option<&'static str>)
    ensures
        r matches Some(e) ==> extension_spec(mime@) == Some(e@),
        r is None ==> extension_spec(mime@) is None,
{
    let m = chars_of(mime);
    if equals_literal(&m, "image/jpeg") {
        Some("jpg")
    } else if equals_literal(&m, "image/png") {
        Some("png")
    } else if equals_literal(&m, "image/webp") {
        Some("webp")
    } else if equals_literal(&m, "image/gif") {
        Some("gif")
    } else if equals_literal(&m, "application/pdf") {
        Some("pdf")
    } else if equals_literal(&m, "text/plain") {
        Some("txt")
    } else if equals_literal(&m, "text/markdown") {
        Some("md")
    } else if equals_literal(&m, "text/csv") {
        Some("csv")
    } else if equals_literal(&m, "application/json") {
        Some("json")
    } else if equals_literal(&m, "audio/ogg") {
        Some("ogg")
    } else if equals_literal(&m, "audio/mpeg") {
        Some("mp3")
    } else if equals_literal(&m, "video/mp4") {
        Some("mp4")
    } else if equals_literal(&m, "application/zip") {
        Some("zip")
    } else {
        None
    }
}

/// `char::to_ascii_lowercase`.
pub open spec fn ascii_lower(c: char) -> char {
    if 'A' <= c && c <= 'Z' {
        ((c as int) + 32) as char
    } else {
        c
    }
}

/// `str::to_ascii_lowercase`.
pub open spec fn ascii_lowercase(s: Seq<char>) -> Seq<char> {
    Seq::new(s.len(), |i: int| ascii_lower(s[i]))
}

/// The index of the last `'.'` in `s`, if any.
pub open spec fn last_dot(s: Seq<char>) -> Option<int>
    decreases s.len(),
{
    if s.len() == 0 {
        None
    } else if s.last() == '.' {
        Some(s.len() - 1)
    } else {
        last_dot(s.drop_last())
    }
}

/// The mime a photo's stored name declares by its extension: what follows the last `'.'`, read
/// without regard to ASCII case.
pub open spec fn telegram_mime_spec(path: Seq<char>) -> Option<Seq<char>> {
    match last_dot(path) {
        None => None,
        Some(i) => {
            let ext = ascii_lowercase(path.skip(i + 1));
            if ext == "jpg"@ || ext == "jpeg"@ {
                Some("image/jpeg"@)
            } else if ext == "png"@ {
                Some("image/png"@)
            } else if ext == "webp"@ {
                Some("image/webp"@)
            } else {
                None
            }
        },
    }
}

proof fn lemma_last_dot_bounds(s: Seq<char>)
    ensures
        last_dot(s) matches Some(i) ==> 0 <= i < s.len(),
    decreases s.len(),
{
    if s.len() > 0 && s.last() != '.' {
        lemma_last_dot_bounds(s.drop_last());
    }
}

/// What a photo is, read off the extension of Telegram's own `file_path` in the `getFile` answer.
///
/// Telegram declares no mime for a photo — it re-encodes what the phone sent — and the only thing
/// it says about the bytes is the name it stored them under, `photos/file_123.jpg`.
pub fn mime_from_telegram_path(file_path: &str) -> (r: Option<&'static str>)
    ensures
        r matches Some(m) ==> telegram_mime_spec(file_path@) == Some(m@),
        r is None ==> telegram_mime_spec(file_path@) is None,
{
    let p = chars_of(file_path);
    let mut i = p.len();
    assert(p@.take(i as int) =~= p@);
    while i > 0 && p[i - 1] != '.'
        invariant
            i <= p@.len(),
            last_dot(p@) == last_dot(p@.take(i as int)),
        decreases i,
    {
        assert(p@.take(i as int).drop_last() =~= p@.take(i - 1));
        i = i - 1;
    }
    if i == 0 {
        return None;
    }
    assert(last_dot(p@) == Some(i - 1));
    let mut ext: Vec<char> = Vec::new();
    let mut j = i;
    while j < p.len()
        invariant
            i <= j <= p@.len(),
            ext@ == ascii_lowercase(p@.subrange(i as int, j as int)),
        decreases p@.len() - j,
    {
        let c = p[j];
        let lower = if 'A' <= c && c <= 'Z' {
            ((c as u8) + 32) as char
        } else {
            c
        };
        assert(lower == ascii_lower(c));
        ext.push(lower);
        j = j + 1;
        assert(ext@ =~= ascii_lowercase(p@.subrange(i as int, j as int)));
    }
    assert(p@.subrange(i as int, p@.len() as int) =~= p@.skip(i as int));
    if equals_literal(&ext, "jpg") || equals_literal(&ext, "jpeg") {
        Some("image/jpeg")
    } else if equals_literal(&ext, "png") {
        Some("image/png")
    } else if equals_literal(&ext, "webp") {
        Some("image/webp")
    } else {
        None
    }
}

// ---------------------------------------------------------------------------------------------
// The store
// ---------------------------------------------------------------------------------------------

/// `rustix::process::getuid`: this process's real uid.
#[verifier::external_body]
fn process_uid() -> u32 {
    rustix::process::getuid().as_raw()
}

/// What a store is: the root of its tree, its cap in bytes, its shelf life in seconds, and whose
/// files it holds.
pub struct StoreView {
    pub root: Seq<char>,
    pub cap: u64,
    pub shelf_life: u64,
    pub owner: u32,
}

/// One of the two trees, and the rules for writing into it or reading out of it.
pub struct MediaStore {
    root: String,
    cap: u64,
    shelf_life: u64,
    /// Whose files these are: this process's uid, and nothing in a tree is trusted unless it is
    /// owned by exactly that. Held rather than asked for each time so a test can make every file
    /// look like somebody else's.
    owner: u32,
}

impl View for MediaStore {
    type V = StoreView;

    closed spec fn view(&self) -> StoreView {
        StoreView { root: self.root@, cap: self.cap, shelf_life: self.shelf_life, owner: self.owner }
    }
}

impl MediaStore {
    /// A store rooted at `root`, with the standard cap and shelf life, holding this process's
    /// files.
    pub fn new(root: &str) -> (st: MediaStore)
        ensures
            st@.root == root@,
            st@.cap == TREE_CAP,
            st@.shelf_life == SHELF_LIFE_SECS,
    {
        MediaStore {
            root: String::from_str(root),
            cap: TREE_CAP,
            shelf_life: SHELF_LIFE_SECS,
            owner: process_uid(),
        }
    }

    /// A smaller cap, so a test can watch the bound bite without writing a quarter of a gigabyte.
    pub fn with_cap(self, cap: u64) -> (st: MediaStore)
        ensures
            st@ == (StoreView { cap, ..self@ }),
    {
        MediaStore { cap, ..self }
    }

    /// Require every file and directory to be owned by `uid` instead of by this process: the one
    /// way to watch the ownership check refuse without root.
    pub fn expect_owner(&mut self, uid: u32)
        ensures
            final(self)@ == (StoreView { owner: uid, ..old(self)@ }),
    {
        self.owner = uid;
    }

    /// Whose files this tree holds.
    pub fn owner(&self) -> (uid: u32)
        ensures
            uid == self@.owner,
    {
        self.owner
    }

    /// The tree's root.
    pub fn root(&self) -> (r: &str)
        ensures
            r@ == self@.root,
    {
        self.root.as_str()
    }

    /// The most the tree keeps, in bytes.
    pub fn cap(&self) -> (c: u64)
        ensures
            c == self@.cap,
    {
        self.cap
    }

    /// How long a file stays, in seconds.
    pub fn shelf_life(&self) -> (secs: u64)
        ensures
            secs == self@.shelf_life,
    {
        self.shelf_life
    }

    /// Whether `name` is one the hub will open at all — the address rules, which a lane name
    /// already meets: one segment, not empty, at most [`MAX_LANE`] bytes, not `.` or `..`, no `/`
    /// or `\`, no control character.
    ///
    /// Checked before the disk is touched, so nothing an agent names can ever be a path.
    pub fn name_is_openable(name: &str) -> (b: bool)
        ensures
            b == openable(name@),
    {
        let v = chars_of(name);
        if v.len() == 0 {
            return false;
        }
        let mut bytes: usize = 0;
        let mut k: usize = 0;
        assert(v@.take(0) =~= Seq::<char>::empty());
        while k < v.len()
            invariant
                k <= v@.len(),
                bytes == utf8_len(v@.take(k as int)),
                bytes <= MAX_LANE,
                v@ == name@,
            decreases v@.len() - k,
        {
            let c = v[k];
            let w: usize = if '\u{80}' > c {
                1
            } else if '\u{800}' > c {
                2
            } else if '\u{10000}' > c {
                3
            } else {
                4
            };
            assert(v@.take(k + 1).drop_last() =~= v@.take(k as int));
            assert(v@.take(k + 1).last() == c);
            bytes = bytes + w;
            k = k + 1;
            assert(bytes == utf8_len(v@.take(k as int)));
            if bytes > MAX_LANE {
                proof {
                    lemma_utf8_len_grows(v@, k as int);
                }
                return false;
            }
        }
        assert(v@.take(v@.len() as int) =~= v@);
        if equals_literal(&v, ".") || equals_literal(&v, "..") {
            return false;
        }
        let mut i: usize = 0;
        while i < v.len()
            invariant
                i <= v@.len(),
                v@ == name@,
                v@.len() > 0,
                utf8_len(name@) <= MAX_LANE,
                name@ != "."@,
                name@ != ".."@,
                forall|j: int|
                    0 <= j < i ==> v@[j] != '/' && v@[j] != '\\' && !is_control(v@[j]),
            decreases v@.len() - i,
        {
            let c = v[i];
            if c == '/' || c == '\\' || is_control_char(c) {
                return false;
            }
            i = i + 1;
        }
        true
    }

    /// The conversation's own directory, after the two it sits under: the tree's root, the
    /// project's directory, and the conversation's, in the order each is made and checked.
    ///
    /// `-` is the segment for the project's own voice. It cannot collide with a lane, because the
    /// address rules refuse `-` as a lane name before it can ever become one.
    pub fn dir_for(&self, addr: &Addr) -> (segs: Vec<String>)
        ensures
            segs@.len() == 3,
            segs@[0]@ == self@.root,
            segs@[1]@ == joined(self@.root, addr@.project),
            segs@[2]@ == joined(joined(self@.root, addr@.project), lane_segment(addr@)),
            addr@.lane is Some ==> segs@[2]@ != joined(
                joined(self@.root, addr@.project),
                seq!['-'],
            ),
    {
        proof {
            use_type_invariant(addr);
            if let Some(l) = addr@.lane {
                law_a_lane_never_lands_in_the_projects_own_directory(
                    joined(self@.root, addr@.project),
                    l,
                );
            }
        }
        let project = join_path(self.root.as_str(), addr.project());
        let dir = join_path(project.as_str(), addr.segment());
        let mut segs: Vec<String> = Vec::new();
        segs.push(self.root.clone());
        segs.push(project);
        segs.push(dir);
        segs
    }
}

// ---------------------------------------------------------------------------------------------
// Minted names
// ---------------------------------------------------------------------------------------------

/// Two lower-case hex digits for a byte, as `{:02x}` writes them.
pub open spec fn hex_byte(b: u8) -> Seq<char> {
    zero_padded(in_base(b as nat, 16), 2)
}

/// The extension `mime` earns, when there is a mime.
pub open spec fn mime_extension(mime: Option<Seq<char>>) -> Option<Seq<char>> {
    match mime {
        Some(m) => extension_spec(m),
        None => None,
    }
}

/// The characters of a declared mime, when there is one.
pub open spec fn mime_chars(mime: Option<&str>) -> Option<Seq<char>> {
    match mime {
        Some(m) => Some(m@),
        None => None,
    }
}

/// A minted name: the moment, `-`, four random bytes in hex, and the extension when there is one.
pub open spec fn minted_name_spec(secs: nat, random: Seq<u8>, ext: Option<Seq<char>>) -> Seq<
    char,
> {
    let base = stamp_text(secs) + seq!['-'] + hex_byte(random[0]) + hex_byte(random[1]) + hex_byte(
        random[2],
    ) + hex_byte(random[3]);
    match ext {
        Some(e) => base + seq!['.'] + e,
        None => base,
    }
}

/// The name a file about to be written gets, for the moment `secs` and the random bytes
/// `random`: the moment first, so a listing of the directory is arrival order, then the random
/// suffix, then the extension [`extension_for`] gives the mime, or none.
pub fn minted_name(secs: u64, random: [u8; 4], mime: Option<&str>) -> (name: String)
    ensures
        name@ == minted_name_spec(
            secs as nat,
            random@,
            mime_extension(mime_chars(mime)),
        ),
{
    let mut name = utc_stamp(secs);
    push_char(&mut name, '-');
    push_number(&mut name, random[0] as u64, 16, 2);
    push_number(&mut name, random[1] as u64, 16, 2);
    push_number(&mut name, random[2] as u64, 16, 2);
    push_number(&mut name, random[3] as u64, 16, 2);
    let ext = match mime {
        Some(m) => extension_for(m),
        None => None,
    };
    if let Some(e) = ext {
        push_char(&mut name, '.');
        push_all(&mut name, e);
    }
    name
}

/// `std::time::SystemTime`, carried through opaquely.
#[verifier::external_type_specification]
#[verifier::external_body]
pub struct ExSystemTime(std::time::SystemTime);

/// `SystemTime::now`: the clock. Nothing is stated of what it reads.
#[verifier::external_body]
fn system_now() -> std::time::SystemTime {
    std::time::SystemTime::now()
}

/// The whole seconds by which the moment `at` follows the epoch, or `None` for a moment before
/// it: what `SystemTime::duration_since(UNIX_EPOCH)` and `Duration::as_secs` give, which depends
/// on `at` alone.
pub uninterp spec fn secs_since_epoch(at: std::time::SystemTime) -> Option<u64>;

/// The seconds after the epoch that the moment `at` stands for: a moment before the epoch stands
/// for the epoch.
pub open spec fn moment_secs(at: std::time::SystemTime) -> nat {
    match secs_since_epoch(at) {
        Some(x) => x as nat,
        None => 0,
    }
}

/// `SystemTime::duration_since(UNIX_EPOCH)`, then `Duration::as_secs` on what came back: the whole
/// seconds after the epoch, or `None` for a moment before it.
#[verifier::external_body]
fn epoch_reading(at: &std::time::SystemTime) -> (r: Option<u64>)
    ensures
        r == secs_since_epoch(*at),
{
    at.duration_since(std::time::UNIX_EPOCH).ok().map(|d| d.as_secs())
}

/// `getrandom::fill` on four bytes, its error ignored. Nothing is stated of the bytes, whether
/// the source worked or not: the clock alone still cannot be made to collide by anything he
/// sends, and the exclusive create refuses a collision rather than overwriting.
#[verifier::external_body]
fn random_four() -> [u8; 4] {
    let mut random = [0u8; 4];
    let _ = getrandom::fill(&mut random);
    random
}

/// The whole seconds after the epoch that a clock reads, or `None` for a moment before it.
pub fn clock_reading(at: &std::time::SystemTime) -> (r: Option<u64>)
    ensures
        r == secs_since_epoch(*at),
{
    epoch_reading(at)
}

/// The seconds a reading stands for: a clock set before the epoch reads as the epoch.
pub fn epoch_secs(reading: Option<u64>) -> (secs: u64)
    ensures
        secs == match reading {
            Some(s) => s,
            None => 0,
        },
{
    match reading {
        Some(s) => s,
        None => 0,
    }
}

/// The UTC stamp of a clock reading; a moment before the epoch stamps as the epoch.
pub fn stamp_of_reading(reading: Option<u64>) -> (s: String)
    ensures
        s@ == stamp_text(
            match reading {
                Some(x) => x as nat,
                None => 0,
            },
        ),
{
    utc_stamp(epoch_secs(reading))
}

/// The UTC stamp of the moment `at`, as [`stamp_of_reading`] gives it for what the clock reads.
pub fn stamp_at(at: &std::time::SystemTime) -> (s: String)
    ensures
        s@ == stamp_text(moment_secs(*at)),
{
    stamp_of_reading(clock_reading(at))
}

impl MediaStore {
    /// The path a file about to be written in `dir` gets: the moment and a random suffix, so a
    /// listing of the directory is arrival order, and an extension from [`extension_for`] or none.
    pub fn mint(dir: &str, mime: Option<&str>) -> (path: String)
        ensures
            exists|now: std::time::SystemTime, random: Seq<u8>|
                random.len() == 4 && path@ == joined(
                    dir@,
                    #[trigger] minted_name_spec(
                        moment_secs(now),
                        random,
                        mime_extension(mime_chars(mime)),
                    ),
                ),
    {
        let random = random_four();
        let now = system_now();
        let secs = epoch_secs(clock_reading(&now));
        let name = minted_name(secs, random, mime);
        let path = join_path(dir, name.as_str());
        assert(secs as nat == moment_secs(now));
        assert(path@ == joined(
            dir@,
            minted_name_spec(moment_secs(now), random@, mime_extension(mime_chars(mime))),
        ));
        path
    }
}

// ---------------------------------------------------------------------------------------------
// Counting a download against its ceiling
// ---------------------------------------------------------------------------------------------

/// What a capped destination has taken: the bytes written so far, the ceiling, and whether a
/// write has been refused for the ceiling. The ceiling is enforced on what actually arrives,
/// whatever size was reported, and a transfer that reaches it is cut off there.
pub struct CappedCount {
    written: u64,
    cap: u64,
    over: bool,
}

/// The count's state: bytes taken, the ceiling, and whether the ceiling has refused a write.
pub struct CountView {
    pub written: u64,
    pub cap: u64,
    pub over: bool,
}

impl View for CappedCount {
    type V = CountView;

    closed spec fn view(&self) -> CountView {
        CountView { written: self.written, cap: self.cap, over: self.over }
    }
}

impl CappedCount {
    /// The count never passes the ceiling, in any state a count can be in.
    #[verifier::type_invariant]
    spec fn within_the_ceiling(self) -> bool {
        self.written <= self.cap
    }

    /// Nothing taken yet, under a ceiling of `cap` bytes.
    pub fn new(cap: u64) -> (c: CappedCount)
        ensures
            c@ == (CountView { written: 0, cap, over: false }),
    {
        CappedCount { written: 0, cap, over: false }
    }

    /// Bytes taken so far, never more than the ceiling.
    pub fn written(&self) -> (n: u64)
        ensures
            n == self@.written,
            n <= self@.cap,
    {
        proof {
            use_type_invariant(self);
        }
        self.written
    }

    /// Whether a write was refused for the ceiling, as opposed to the disk.
    pub fn hit_the_ceiling(&self) -> (b: bool)
        ensures
            b == self@.over,
    {
        self.over
    }

    /// Whether a write of `len` more bytes stays within the ceiling. A write that would pass it is
    /// refused and marks the ceiling as hit; nothing is counted until the bytes are written.
    pub fn fits(&mut self, len: usize) -> (ok: bool)
        ensures
            ok == (old(self)@.written + len <= old(self)@.cap),
            ok ==> final(self)@ == old(self)@,
            !ok ==> final(self)@ == (CountView { over: true, ..old(self)@ }),
            final(self)@.written <= final(self)@.cap,
    {
        proof {
            use_type_invariant(&*self);
        }
        if self.written as u128 + len as u128 > self.cap as u128 {
            self.over = true;
            false
        } else {
            true
        }
    }

    /// Count `len` bytes that were written. Bytes that would take the count past the ceiling are
    /// never counted.
    pub fn record(&mut self, len: usize)
        ensures
            old(self)@.written + len <= old(self)@.cap ==> final(self)@ == (CountView {
                written: (old(self)@.written + len) as u64,
                ..old(self)@
            }),
            old(self)@.written + len > old(self)@.cap ==> final(self)@ == old(self)@,
            final(self)@.written <= final(self)@.cap,
    {
        proof {
            use_type_invariant(&*self);
        }
        if self.written as u128 + len as u128 <= self.cap as u128 {
            self.written = self.written + len as u64;
        }
    }
}

// ---------------------------------------------------------------------------------------------
// Judging what the disk said
// ---------------------------------------------------------------------------------------------

/// What `lstat` said of a directory segment: whether it is a link, whether it is a directory,
/// its owner, and its mode.
pub struct SegmentFacts {
    pub is_link: bool,
    pub is_dir: bool,
    pub uid: u32,
    pub mode: u32,
}

/// The permission bits of a mode.
pub open spec fn permission_bits(mode: u32) -> u32 {
    mode & 0o777u32
}

fn permissions_of(mode: u32) -> (p: u32)
    ensures
        p == permission_bits(mode),
        p < 512,
{
    assert(mode & 0o777u32 < 512) by (bit_vector);
    mode & 0o777u32
}

/// Why a segment is refused, if it is: a link, not a directory, somebody else's, or any mode
/// but `0700` — in that order, each naming the segment.
pub open spec fn segment_refusal(name: Seq<char>, f: SegmentFacts, owner: u32) -> Option<
    Seq<char>,
> {
    if f.is_link {
        Some(name + " is a link, not a directory; the hub will not write through it"@)
    } else if !f.is_dir {
        Some(name + " is not a directory"@)
    } else if f.uid != owner {
        Some(name + " is owned by uid "@ + decimal(f.uid as nat) + ", not by this hub (uid "@
            + decimal(owner as nat) + "); nothing here made it"@)
    } else if permission_bits(f.mode) != 0o700 {
        Some(name + " is mode "@ + in_base(permission_bits(f.mode) as nat, 8)
            + ", not 700; anyone on this machine could read what he sent"@)
    } else {
        None
    }
}

/// Decide whether a segment, made if absent and then examined, is what the hub would have made:
/// a directory and not a link, this hub's own, mode `0700`. Anything else is refused by name.
pub fn judge_segment(name: &str, facts: &SegmentFacts, owner: u32) -> (r: Result<(), String>)
    ensures
        r is Ok <==> segment_refusal(name@, *facts, owner) is None,
        r matches Err(why) ==> segment_refusal(name@, *facts, owner) == Some(why@),
{
    let mut why = String::from_str(name);
    if facts.is_link {
        push_all(&mut why, " is a link, not a directory; the hub will not write through it");
        return Err(why);
    }
    if !facts.is_dir {
        push_all(&mut why, " is not a directory");
        return Err(why);
    }
    if facts.uid != owner {
        push_all(&mut why, " is owned by uid ");
        push_number(&mut why, facts.uid as u64, 10, 0);
        push_all(&mut why, ", not by this hub (uid ");
        push_number(&mut why, owner as u64, 10, 0);
        push_all(&mut why, "); nothing here made it");
        return Err(why);
    }
    let mode = permissions_of(facts.mode);
    if mode != 0o700 {
        push_all(&mut why, " is mode ");
        push_number(&mut why, mode as u64, 8, 0);
        assert(zero_padded(in_base(mode as nat, 8), 0) == in_base(mode as nat, 8));
        push_all(&mut why, ", not 700; anyone on this machine could read what he sent");
        return Err(why);
    }
    Ok(())
}

/// What `fstat` said of a directory the hub opened without following a link.
pub struct OpenedDirFacts {
    pub is_dir: bool,
    pub uid: u32,
    pub mode: u32,
}

/// Why an opened directory on the way to an outbox file is refused, if it is.
pub open spec fn opened_dir_refusal(what: Seq<char>, f: OpenedDirFacts, owner: u32) -> Option<
    Seq<char>,
> {
    if !f.is_dir {
        Some(what + " is not a directory"@)
    } else if f.uid != owner {
        Some(what + " is owned by uid "@ + decimal(f.uid as nat) + ", not by this hub (uid "@
            + decimal(owner as nat) + ")"@)
    } else if permission_bits(f.mode) != 0o700 {
        Some(what + " is mode "@ + in_base(permission_bits(f.mode) as nat, 8)
            + ", not 700; anyone on this machine could put a file in it"@)
    } else {
        None
    }
}

/// The descriptor-side twin of [`judge_segment`]: the same requirements, on a directory already
/// opened with `O_NOFOLLOW`, so a link swapped in after the open cannot change the answer.
pub fn judge_opened_dir(what: &str, facts: &OpenedDirFacts, owner: u32) -> (r: Result<
    (),
    NotSendable,
>)
    ensures
        r is Ok <==> opened_dir_refusal(what@, *facts, owner) is None,
        r matches Err(e) ==> e matches NotSendable::NotAFile(why) && opened_dir_refusal(
            what@,
            *facts,
            owner,
        ) == Some(why@),
{
    let mut why = String::from_str(what);
    if !facts.is_dir {
        push_all(&mut why, " is not a directory");
        return Err(NotSendable::NotAFile(why));
    }
    if facts.uid != owner {
        push_all(&mut why, " is owned by uid ");
        push_number(&mut why, facts.uid as u64, 10, 0);
        push_all(&mut why, ", not by this hub (uid ");
        push_number(&mut why, owner as u64, 10, 0);
        push_all(&mut why, ")");
        return Err(NotSendable::NotAFile(why));
    }
    let mode = permissions_of(facts.mode);
    if mode != 0o700 {
        push_all(&mut why, " is mode ");
        push_number(&mut why, mode as u64, 8, 0);
        assert(zero_padded(in_base(mode as nat, 8), 0) == in_base(mode as nat, 8));
        push_all(&mut why, ", not 700; anyone on this machine could put a file in it");
        return Err(NotSendable::NotAFile(why));
    }
    Ok(())
}

/// What kind of thing an opened outbox entry is, by its mode.
#[derive(Debug, Clone, Copy, PartialEq, Eq, Structural)]
pub enum FileKind {
    Regular,
    Directory,
    Link,
    Pipe,
    Socket,
    Device,
    Other,
}

/// What `fstat` said of the file the hub opened.
pub struct OpenedFileFacts {
    pub kind: FileKind,
    pub uid: u32,
    pub nlink: u64,
    pub size: i64,
}

/// How an entry that is not a regular file is named to the audit.
pub open spec fn kind_words(k: FileKind) -> Seq<char> {
    match k {
        FileKind::Regular => "a regular file"@,
        FileKind::Directory => "a directory"@,
        FileKind::Link => "a link"@,
        FileKind::Pipe => "a pipe"@,
        FileKind::Socket => "a socket"@,
        FileKind::Device => "a device"@,
        FileKind::Other => "not a regular file"@,
    }
}

/// The size the hub reads: `st_size`, with a negative one read as the largest there is.
pub open spec fn size_of(raw: i64) -> u64 {
    if raw >= 0 {
        raw as u64
    } else {
        u64::MAX
    }
}

/// What the hub decides about a file it opened in an outbox: sent, with the size it read, when it
/// is a regular file, this hub's own, with one name, and no bigger than `ceiling`; refused with
/// the first of those that fails otherwise.
pub open spec fn opened_file_verdict(f: OpenedFileFacts, owner: u32, ceiling: u64) -> Result<
    u64,
    Seq<char>,
> {
    if f.kind != FileKind::Regular {
        Err("it is "@ + kind_words(f.kind) + ", not a regular file"@)
    } else if f.uid != owner {
        Err("it is owned by uid "@ + decimal(f.uid as nat) + ", not by this hub (uid "@
            + decimal(owner as nat) + "); nothing in this design wrote it"@)
    } else if f.nlink != 1 {
        Err("it has another name outside this outbox ("@ + decimal(f.nlink as nat)
            + " in all), and the hub sends only files written for it"@)
    } else {
        Ok(size_of(f.size))
    }
}

/// Check what was opened — never the name. A hard link passes every other check: it is a regular
/// file, owned by whoever owns the inode, and its entry is inside the outbox; so an entry with a
/// second name anywhere on the filesystem is refused, and an adapter's copy, which has one name,
/// goes. Over `ceiling` it is refused as too big, carrying the size.
pub fn judge_opened_file(facts: &OpenedFileFacts, owner: u32, ceiling: u64) -> (r: Result<
    u64,
    NotSendable,
>)
    ensures
        opened_file_verdict(*facts, owner, ceiling) matches Ok(size) ==> (if size > ceiling {
            r == Err::<u64, NotSendable>(NotSendable::TooBig(size))
        } else {
            r == Ok::<u64, NotSendable>(size)
        }),
        opened_file_verdict(*facts, owner, ceiling) matches Err(why) ==> r matches Err(
            NotSendable::NotAFile(w),
        ) && w@ == why,
{
    if facts.kind != FileKind::Regular {
        let mut why = String::from_str("it is ");
        let words = match facts.kind {
            FileKind::Regular => "a regular file",
            FileKind::Directory => "a directory",
            FileKind::Link => "a link",
            FileKind::Pipe => "a pipe",
            FileKind::Socket => "a socket",
            FileKind::Device => "a device",
            FileKind::Other => "not a regular file",
        };
        push_all(&mut why, words);
        push_all(&mut why, ", not a regular file");
        return Err(NotSendable::NotAFile(why));
    }
    if facts.uid != owner {
        let mut why = String::from_str("it is owned by uid ");
        push_number(&mut why, facts.uid as u64, 10, 0);
        push_all(&mut why, ", not by this hub (uid ");
        push_number(&mut why, owner as u64, 10, 0);
        push_all(&mut why, "); nothing in this design wrote it");
        return Err(NotSendable::NotAFile(why));
    }
    if facts.nlink != 1 {
        let mut why = String::from_str("it has another name outside this outbox (");
        push_number(&mut why, facts.nlink, 10, 0);
        push_all(&mut why, " in all), and the hub sends only files written for it");
        return Err(NotSendable::NotAFile(why));
    }
    let size: u64 = if facts.size >= 0 {
        facts.size as u64
    } else {
        u64::MAX
    };
    if size > ceiling {
        return Err(NotSendable::TooBig(size));
    }
    Ok(size)
}

/// Refuse a name the hub will not open, before the disk is touched.
pub fn refuse_unopenable(name: &str) -> (r: Result<(), NotSendable>)
    ensures
        r is Ok <==> openable(name@),
        r matches Err(e) ==> e matches NotSendable::NotAFile(why) && why@
            == "the name is not one the hub will open"@,
{
    if MediaStore::name_is_openable(name) {
        Ok(())
    } else {
        Err(NotSendable::NotAFile(String::from_str("the name is not one the hub will open")))
    }
}

/// How opening an outbox entry failed.
#[derive(Debug, Clone, Copy, PartialEq, Eq, Structural)]
pub enum OpenFailure {
    /// `ELOOP`: the name is a link, and the open follows none.
    Link,
    /// `ENXIO`: the name is a socket, refused before there is a descriptor.
    Socket,
    /// Anything else, described by the system's own words.
    Other,
}

/// The refusal for an entry that could not be opened.
pub open spec fn open_failure_words(f: OpenFailure, detail: Seq<char>) -> Seq<char> {
    match f {
        OpenFailure::Link => "it is a link, and the hub follows none"@,
        OpenFailure::Socket => "it is a socket, not a regular file"@,
        OpenFailure::Other => "it could not be opened: "@ + detail,
    }
}

/// The refusal for an entry that could not be opened; `detail` is the system's description of
/// the error, used only when it is neither a link nor a socket.
pub fn refusal_for_open(failure: OpenFailure, detail: &str) -> (e: NotSendable)
    ensures
        e matches NotSendable::NotAFile(why) && why@ == open_failure_words(failure, detail@),
{
    match failure {
        OpenFailure::Link => NotSendable::NotAFile(
            String::from_str("it is a link, and the hub follows none"),
        ),
        OpenFailure::Socket => NotSendable::NotAFile(
            String::from_str("it is a socket, not a regular file"),
        ),
        OpenFailure::Other => {
            let mut why = String::from_str("it could not be opened: ");
            push_all(&mut why, detail);
            NotSendable::NotAFile(why)
        },
    }
}

/// A refusal for a step on the way to an outbox file that failed: `what`, then the system's
/// description of the error.
pub fn refusal_for_step(what: &str, detail: &str) -> (e: NotSendable)
    ensures
        e matches NotSendable::NotAFile(why) && why@ == what@ + ": "@ + detail@,
{
    let mut why = String::from_str(what);
    push_all(&mut why, ": ");
    push_all(&mut why, detail);
    NotSendable::NotAFile(why)
}

// ---------------------------------------------------------------------------------------------
// Laws
// ---------------------------------------------------------------------------------------------

/// A character an extension or a minted name may hold: a digit or a lower-case ASCII letter.
pub open spec fn plain_char(c: char) -> bool {
    ('0' <= c && c <= '9') || ('a' <= c && c <= 'z')
}

/// An extension comes from the table and nowhere else: one of thirteen short words of digits and
/// lower-case letters, so it can never hold a `/` or a `.`.
pub proof fn law_an_extension_is_a_word_from_the_table(mime: Seq<char>)
    ensures
        extension_spec(mime) matches Some(e) ==> {
            &&& (e == "jpg"@ || e == "png"@ || e == "webp"@ || e == "gif"@ || e == "pdf"@ || e
                == "txt"@ || e == "md"@ || e == "csv"@ || e == "json"@ || e == "ogg"@ || e
                == "mp3"@ || e == "mp4"@ || e == "zip"@)
            &&& 1 <= e.len() <= 4
            &&& forall|i: int| 0 <= i < e.len() ==> plain_char(#[trigger] e[i])
        },
{
    reveal_strlit("jpg");
    reveal_strlit("png");
    reveal_strlit("webp");
    reveal_strlit("gif");
    reveal_strlit("pdf");
    reveal_strlit("txt");
    reveal_strlit("md");
    reveal_strlit("csv");
    reveal_strlit("json");
    reveal_strlit("ogg");
    reveal_strlit("mp3");
    reveal_strlit("mp4");
    reveal_strlit("zip");
}

proof fn lemma_last_dot_at(s: Seq<char>, k: int)
    requires
        0 <= k < s.len(),
        s[k] == '.',
        forall|j: int| k < j < s.len() ==> #[trigger] s[j] != '.',
    ensures
        last_dot(s) == Some(k),
    decreases s.len(),
{
    if s.len() - 1 != k {
        lemma_last_dot_at(s.drop_last(), k);
    }
}

/// A photo's mime read off Telegram's path earns an extension from the table, and a name ending
/// in that extension reads back as the same mime: what the hub stores a photo under says what it
/// is.
pub proof fn law_a_photo_mime_reads_back_through_its_extension(path: Seq<char>, stem: Seq<char>)
    ensures
        telegram_mime_spec(path) matches Some(m) ==> extension_spec(m) matches Some(e)
            && telegram_mime_spec(stem + seq!['.'] + e) == Some(m),
{
    reveal_strlit("jpg");
    reveal_strlit("jpeg");
    reveal_strlit("png");
    reveal_strlit("webp");
    reveal_strlit("image/jpeg");
    reveal_strlit("image/png");
    reveal_strlit("image/webp");
    if let Some(m) = telegram_mime_spec(path) {
        let e = extension_spec(m).unwrap();
        assert(e == "jpg"@ || e == "png"@ || e == "webp"@);
        let s = stem + seq!['.'] + e;
        let k = stem.len() as int;
        assert(s[k] == '.');
        assert forall|j: int| k < j < s.len() implies #[trigger] s[j] != '.' by {
            assert(s[j] == e[j - k - 1]);
        }
        lemma_last_dot_at(s, k);
        assert(s.skip(k + 1) =~= e);
        assert(ascii_lowercase(e) =~= e);
    }
}

/// A name the hub will open is one segment: joined under a directory it adds exactly one level
/// and holds no separator of its own, so nothing an agent names can ever be a path.
pub proof fn law_an_openable_name_is_one_segment(dir: Seq<char>, name: Seq<char>)
    requires
        openable(name),
        dir.len() > 0,
    ensures
        forall|i: int| 0 <= i < name.len() ==> #[trigger] name[i] != '/',
        joined(dir, name) == if dir.last() == '/' {
            dir + name
        } else {
            dir + seq!['/'] + name
        },
{
}

/// A minted name is `<yyyymmdd>-<hhmmss>-<8 hex>` and, for a mime the table knows, `.` and its
/// extension — for every moment up to the year 9999 and every four random bytes. Nothing else can
/// reach the name: it holds no `/` at all, and a `.` only before an extension from the table.
pub proof fn law_a_minted_name_is_the_moment_a_random_suffix_and_an_extension(
    secs: nat,
    random: Seq<u8>,
    mime: Option<Seq<char>>,
)
    requires
        secs < 253_402_300_800,
        random.len() == 4,
    ensures
        ({
            let name = minted_name_spec(secs, random, mime_extension(mime));
            &&& name[8] == '-'
            &&& name[15] == '-'
            &&& forall|i: int| 0 <= i < 15 && i != 8 ==> is_digit_char(#[trigger] name[i])
            &&& forall|i: int| 16 <= i < 24 ==> is_digit_char(#[trigger] name[i])
            &&& forall|i: int| 0 <= i < name.len() ==> #[trigger] name[i] != '/'
            &&& match mime_extension(mime) {
                None => name.len() == 24 && forall|i: int|
                    0 <= i < name.len() ==> #[trigger] name[i] != '.',
                Some(e) => name.len() == 25 + e.len() && name[24] == '.' && name.skip(25) == e,
            }
        }),
{
    law_the_stamp_is_fifteen_characters(secs);
    assert(vstd::arithmetic::power::pow(16, 2) == 256) by {
        reveal_with_fuel(vstd::arithmetic::power::pow, 3);
    }
    assert forall|j: int| 0 <= j < 4 implies hex_byte(#[trigger] random[j]).len() == 2
        && forall|i: int| 0 <= i < 2 ==> is_digit_char(#[trigger] hex_byte(random[j])[i]) by {
        lemma_in_base_len(random[j] as nat, 16, 2);
        lemma_padded_shape(random[j] as nat, 16, 2);
    }
    let st = stamp_text(secs);
    let h0 = hex_byte(random[0]);
    let h1 = hex_byte(random[1]);
    let h2 = hex_byte(random[2]);
    let h3 = hex_byte(random[3]);
    let base = st + seq!['-'] + h0 + h1 + h2 + h3;
    assert(base.len() == 24);
    assert forall|i: int| 16 <= i < 24 implies is_digit_char(#[trigger] base[i]) by {
        if i < 18 {
            assert(base[i] == h0[i - 16]);
        } else if i < 20 {
            assert(base[i] == h1[i - 18]);
        } else if i < 22 {
            assert(base[i] == h2[i - 20]);
        } else {
            assert(base[i] == h3[i - 22]);
        }
    }
    assert forall|i: int| 0 <= i < 15 && i != 8 implies is_digit_char(#[trigger] base[i]) by {
        assert(base[i] == st[i]);
    }
    assert forall|i: int| 0 <= i < 24 implies #[trigger] base[i] != '/' && base[i] != '.' by {
        if i < 15 && i != 8 {
            assert(base[i] == st[i]);
        } else if 16 <= i {
            assert(is_digit_char(base[i]));
        }
    }
    let name = minted_name_spec(secs, random, mime_extension(mime));
    match mime_extension(mime) {
        None => {
            assert(name == base);
        },
        Some(e) => {
            match mime {
                Some(m) => law_an_extension_is_a_word_from_the_table(m),
                None => {},
            }
            assert(name == base + seq!['.'] + e);
            assert(name.skip(25) =~= e);
            assert forall|i: int| 0 <= i < name.len() implies #[trigger] name[i] != '/' by {
                if i < 24 {
                    assert(name[i] == base[i]);
                } else if i > 24 {
                    assert(name[i] == e[i - 25]);
                    assert(plain_char(e[i - 25]));
                }
            }
            assert forall|i: int| 0 <= i < 15 && i != 8 implies is_digit_char(#[trigger] name[i]) by {
                assert(name[i] == base[i]);
            }
            assert forall|i: int| 16 <= i < 24 implies is_digit_char(#[trigger] name[i]) by {
                assert(name[i] == base[i]);
            }
        },
    }
}

/// A segment is accepted exactly when it is what the hub would have made: a directory and not a
/// link, owned by the hub, with permission bits `0700`.
pub proof fn law_a_segment_is_accepted_only_as_the_hub_would_make_it(
    name: Seq<char>,
    f: SegmentFacts,
    owner: u32,
)
    ensures
        segment_refusal(name, f, owner) is None <==> (!f.is_link && f.is_dir && f.uid == owner
            && permission_bits(f.mode) == 0o700),
{
}

/// A file leaves an outbox exactly when it is a regular file of the hub's own with one name and
/// no bigger than the ceiling, and then with the size `fstat` reported.
pub proof fn law_only_the_hubs_own_single_named_file_under_the_ceiling_is_sent(
    f: OpenedFileFacts,
    owner: u32,
    ceiling: u64,
)
    ensures
        (opened_file_verdict(f, owner, ceiling) matches Ok(size) && size <= ceiling) <==> (f.kind
            == FileKind::Regular && f.uid == owner && f.nlink == 1 && size_of(f.size) <= ceiling),
{
}

} // verus!
