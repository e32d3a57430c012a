//! One hub per state directory: why a hub may not start, in words the operator reads, and the
//! holder's pid read back out of the lock file.
//!
//! The lock itself is the kernel's (`flock`, released when the holder dies however it dies). The
//! pid written inside the file is for the message only — it is never what grants or denies the
//! lock.

use vstd::prelude::*;

use crate::stamp::{in_base, is_digit_char, lemma_in_base_chars, push_number, zero_padded};
use crate::text::{chars_of, push_all, trim, trim_bounds};

verus! {

/// The name of the lock inside the state directory.
pub const LOCK_FILE: &'static str = "hub.lock";

/// Why the hub may not start.
pub enum LockError {
    /// Another copy holds it. `pid` is absent when the holder has not written it yet — a real
    /// window, small, and reported honestly rather than filled in with a guess.
    Held { pid: Option<u32> },
    /// The lock could not be attempted at all: where, and the system's description of why.
    Io { path: String, source: String },
}

/// What the operator is told. No "flock", no "EWOULDBLOCK", no path first.
pub open spec fn lock_error_words(e: LockError) -> Seq<char> {
    match e {
        LockError::Held { pid: Some(pid) } => "another copy of this bridge is already running (process "@
            + in_base(pid as nat, 10)
            + "), and only one can hold the Telegram line. Stop that one first:  systemctl --user stop herdr-tg"@,
        LockError::Held { pid: None } => "another copy of this bridge is already running, and only one can hold the Telegram line. It started moments ago and has not named itself yet; try again in a second, or stop it:  systemctl --user stop herdr-tg"@,
        LockError::Io { path, source } => "could not use the state directory at "@ + path@ + ": "@
            + source@,
    }
}

impl LockError {
    /// The sentence the operator reads.
    pub fn describe(&self) -> (s: String)
        ensures
            s@ == lock_error_words(*self),
    {
        match self {
            LockError::Held { pid: Some(pid) } => {
                let mut s = String::from_str(
                    "another copy of this bridge is already running (process ",
                );
                push_number(&mut s, *pid as u64, 10, 0);
                assert(zero_padded(in_base(*pid as nat, 10), 0) == in_base(*pid as nat, 10));
                push_all(
                    &mut s,
                    "), and only one can hold the Telegram line. Stop that one first:  systemctl --user stop herdr-tg",
                );
                s
            },
            LockError::Held { pid: None } => String::from_str(
                "another copy of this bridge is already running, and only one can hold the Telegram line. It started moments ago and has not named itself yet; try again in a second, or stop it:  systemctl --user stop herdr-tg",
            ),
            LockError::Io { path, source } => {
                let mut s = String::from_str("could not use the state directory at ");
                push_all(&mut s, path.as_str());
                push_all(&mut s, ": ");
                push_all(&mut s, source.as_str());
                s
            },
        }
    }
}

/// Whether `w` appears in `s`, as a run of consecutive characters.
pub open spec fn occurs(s: Seq<char>, w: Seq<char>) -> bool {
    exists|i: int| 0 <= i && i + w.len() <= s.len() && #[trigger] s.subrange(i, i + w.len()) == w
}

proof fn lemma_missing_char(s: Seq<char>, w: Seq<char>, j: int)
    requires
        0 <= j < w.len(),
        forall|i: int| 0 <= i < s.len() ==> #[trigger] s[i] != w[j],
    ensures
        !occurs(s, w),
{
    if occurs(s, w) {
        let i = choose|i: int|
            0 <= i && i + w.len() <= s.len() && #[trigger] s.subrange(i, i + w.len()) == w;
        assert(s.subrange(i, i + w.len())[j] == s[i + j]);
    }
}

proof fn lemma_missing_pair(s: Seq<char>, w: Seq<char>)
    requires
        w.len() >= 2,
        forall|i: int| 0 <= i < s.len() - 1 && #[trigger] s[i] == w[0] ==> s[i + 1] != w[1],
    ensures
        !occurs(s, w),
{
    if occurs(s, w) {
        let i = choose|i: int|
            0 <= i && i + w.len() <= s.len() && #[trigger] s.subrange(i, i + w.len()) == w;
        assert(s.subrange(i, i + w.len())[0] == s[i]);
        assert(s.subrange(i, i + w.len())[1] == s[i + 1]);
    }
}

/// A held lock is told in the operator's words: the holder's pid when it has written one, that it
/// has not named itself yet when it has not, and never the jargon of how the lock works.
pub proof fn law_a_held_lock_is_told_in_plain_words(pid: Option<u32>)
    ensures
        ({
            let t = lock_error_words(LockError::Held { pid });
            &&& pid matches Some(p) ==> occurs(t, in_base(p as nat, 10))
            &&& pid is None ==> occurs(t, "has not named itself yet"@)
            &&& !occurs(t, "flock"@)
            &&& !occurs(t, "EWOULDBLOCK"@)
            &&& !occurs(t, "Errno"@)
            &&& !occurs(t, "LockError"@)
            &&& !occurs(t, "None"@)
        }),
{
    reveal_strlit("another copy of this bridge is already running (process ");
    reveal_strlit("), and only one can hold the Telegram line. Stop that one first:  systemctl --user stop herdr-tg");
    reveal_strlit("another copy of this bridge is already running, and only one can hold the Telegram line. It started moments ago and has not named itself yet; try again in a second, or stop it:  systemctl --user stop herdr-tg");
    reveal_strlit("has not named itself yet");
    reveal_strlit("flock");
    reveal_strlit("EWOULDBLOCK");
    reveal_strlit("Errno");
    reveal_strlit("LockError");
    reveal_strlit("None");
    let t = lock_error_words(LockError::Held { pid });
    match pid {
        Some(p) => {
            let pre = "another copy of this bridge is already running (process "@;
            let d = in_base(p as nat, 10);
            let post = "), and only one can hold the Telegram line. Stop that one first:  systemctl --user stop herdr-tg"@;
            lemma_in_base_chars(p as nat, 10);
            assert(t == pre + d + post);
            assert(t.subrange(pre.len() as int, (pre.len() + d.len()) as int) =~= d);
            assert forall|i: int| 0 <= i < t.len() implies #[trigger] t[i] != 'E' && t[i] != 'N'
                && t[i] != 'L' by {
                if i < pre.len() {
                    assert(t[i] == pre[i]);
                } else if i < pre.len() + d.len() {
                    assert(t[i] == d[i - pre.len()]);
                } else {
                    assert(t[i] == post[i - pre.len() - d.len()]);
                }
            }
            assert forall|i: int| 0 <= i < t.len() - 1 && #[trigger] t[i] == 'f' implies t[i + 1]
                != 'l' by {
                if i < pre.len() {
                    assert(t[i] == pre[i]);
                    assert(t[i + 1] == pre[i + 1]);
                } else if i < pre.len() + d.len() {
                    assert(t[i] == d[i - pre.len()]);
                    if i + 1 < pre.len() + d.len() {
                        assert(t[i + 1] == d[i + 1 - pre.len()]);
                    } else {
                        assert(t[i + 1] == post[0]);
                    }
                } else {
                    assert(t[i] == post[i - pre.len() - d.len()]);
                    assert(t[i + 1] == post[i + 1 - pre.len() - d.len()]);
                }
            }
        },
        None => {
            let w = "has not named itself yet"@;
            let k = 116int;
            assert(t.subrange(k, k + w.len()) =~= w);
            assert(forall|i: int| 0 <= i < t.len() ==> #[trigger] t[i] != 'E' && t[i] != 'N'
                && t[i] != 'L');
            assert(forall|i: int| 0 <= i < t.len() - 1 && #[trigger] t[i] == 'f' ==> t[i + 1]
                != 'l');
        },
    }
    lemma_missing_pair(t, "flock"@);
    lemma_missing_char(t, "EWOULDBLOCK"@, 0);
    lemma_missing_char(t, "Errno"@, 0);
    lemma_missing_char(t, "LockError"@, 0);
    lemma_missing_char(t, "None"@, 0);
}

/// Whether `c` is an ASCII digit.
pub open spec fn is_digit(c: char) -> bool {
    '0' <= c && c <= '9'
}

/// The value of a run of ASCII digits.
pub open spec fn digits_value(d: Seq<char>) -> nat
    decreases d.len(),
{
    if d.len() == 0 {
        0
    } else {
        digits_value(d.drop_last()) * 10 + ((d.last() as int) - 48) as nat
    }
}

/// The text after an optional leading `+`.
pub open spec fn unsigned_digits(t: Seq<char>) -> Seq<char> {
    if t.len() > 0 && t[0] == '+' {
        t.drop_first()
    } else {
        t
    }
}

/// Every character is an ASCII digit.
pub open spec fn all_digits(d: Seq<char>) -> bool {
    forall|i: int| 0 <= i < d.len() ==> is_digit(#[trigger] d[i])
}

/// `u32::from_str`: an optional `+`, then one or more ASCII digits whose value fits in a `u32`.
pub open spec fn parse_u32(t: Seq<char>) -> Option<u32> {
    let d = unsigned_digits(t);
    if d.len() == 0 || !all_digits(d) {
        None
    } else if digits_value(d) > u32::MAX {
        None
    } else {
        Some(digits_value(d) as u32)
    }
}

/// The pid the lock file names: its text trimmed and read as a `u32`, or none.
pub open spec fn pid_in(text: Seq<char>) -> Option<u32> {
    parse_u32(trim(text))
}

/// `digits_value`, held at `cap` once it reaches it.
pub open spec fn capped_value(d: Seq<char>, cap: nat) -> nat
    decreases d.len(),
{
    if d.len() == 0 {
        0
    } else {
        let v = capped_value(d.drop_last(), cap) * 10 + ((d.last() as int) - 48) as nat;
        if v > cap {
            cap
        } else {
            v
        }
    }
}

proof fn lemma_capped_value(d: Seq<char>, cap: nat)
    requires
        forall|i: int| 0 <= i < d.len() ==> is_digit(#[trigger] d[i]),
    ensures
        capped_value(d, cap) == if digits_value(d) > cap {
            cap
        } else {
            digits_value(d)
        },
    decreases d.len(),
{
    if d.len() > 0 {
        let p = d.drop_last();
        lemma_capped_value(p, cap);
        let x = (d.last() as int) - 48;
        assert(0 <= x <= 9);
        let a = digits_value(p);
        let c = capped_value(p, cap);
        assert((if c * 10 + x > cap {
            cap as int
        } else {
            c * 10 + x
        }) == (if a * 10 + x > cap {
            cap as int
        } else {
            a * 10 + x
        })) by (nonlinear_arith)
            requires
                c == (if a > cap {
                    cap as int
                } else {
                    a as int
                }),
                a >= 0,
                cap >= 0,
                0 <= x <= 9,
        ;
    }
}

/// Best effort: the pid a holder wrote, read back. A holder that has locked but not yet written
/// its pid yields `None`, and `None` is reported as "it has not named itself yet" rather than
/// dressed up as a fact.
pub fn read_pid(text: &str) -> (pid: Option<u32>)
    ensures
        pid == pid_in(text@),
{
    let v = chars_of(text);
    let (a, b) = trim_bounds(&v, 0, v.len());
    assert(v@.subrange(0, v@.len() as int) =~= v@);
    let ghost t = v@.subrange(a as int, b as int);
    assert(t == trim(text@));
    let mut start = a;
    if start < b && v[start] == '+' {
        start = start + 1;
    }
    let ghost d = v@.subrange(start as int, b as int);
    assert(d =~= if t.len() > 0 && t[0] == '+' {
        t.drop_first()
    } else {
        t
    });
    if start == b {
        assert(d.len() == 0);
        return None;
    }
    let cap: u64 = 0x1_0000_0000;
    let mut value: u64 = 0;
    let mut i = start;
    while i < b
        invariant
            start <= i <= b <= v@.len(),
            d == v@.subrange(start as int, b as int),
            t == trim(text@),
            d == (if t.len() > 0 && t[0] == '+' {
                t.drop_first()
            } else {
                t
            }),
            d.len() > 0,
            cap == 0x1_0000_0000,
            forall|k: int| start <= k < i ==> is_digit(v@[k]),
            value == capped_value(v@.subrange(start as int, i as int), cap as nat),
            value <= cap,
        decreases b - i,
    {
        let c = v[i];
        if !('0' <= c && c <= '9') {
            assert(0 <= i - start < d.len());
            assert(d[i - start] == c);
            assert(!is_digit(d[i - start]));
            assert(parse_u32(t) is None);
            return None;
        }
        let x = (c as u32 - 48) as u64;
        let next = value * 10 + x;
        value = if next > cap {
            cap
        } else {
            next
        };
        assert(v@.subrange(start as int, i + 1).drop_last() =~= v@.subrange(
            start as int,
            i as int,
        ));
        i = i + 1;
    }
    proof {
        assert forall|k: int| 0 <= k < d.len() implies is_digit(#[trigger] d[k]) by {
            assert(d[k] == v@[start + k]);
        }
        lemma_capped_value(d, cap as nat);
    }
    if value > 0xffff_ffff {
        None
    } else {
        Some(value as u32)
    }
}

} // verus!
