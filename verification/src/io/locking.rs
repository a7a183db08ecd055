//! Policy of file locking.
//!
//! A file that is read is locked shared, a file that is written exclusively. What
//! happens when the lock is not to be had is a matter of policy.

use crate::io::{IoError, IoErrorView};
use crate::text::Text;
use vstd::prelude::*;
use vstd::string::StrSliceExecFns;

verus! {

/// Whether the file should be locked shared (multiple readers) or exclusive (sole
/// owner).
#[derive(Debug, Clone, Copy, PartialEq, Eq, Structural)]
pub enum LockMode {
    /// Multiple holders; conflicts with an exclusive lock.
    Shared,
    /// Sole holder; conflicts with any other lock.
    Exclusive,
}

/// File-locking policy applied when a file is opened.
#[derive(Debug, Clone, Copy, PartialEq, Eq, Structural)]
pub enum FileLocking {
    /// Acquire the lock; fail to open if it cannot be acquired.
    Enabled,
    /// Skip locking entirely.
    Disabled,
    /// Try to acquire the lock; go on without one if that fails.
    BestEffort,
}

impl Default for FileLocking {
    fn default() -> (p: Self)
        ensures
            p == FileLocking::Enabled,
    {
        FileLocking::Enabled
    }
}

/// What came of an attempt to lock a file.
#[derive(Debug)]
pub enum LockAttempt {
    /// The lock is held.
    Acquired,
    /// Another process holds a conflicting lock.
    WouldBlock,
    /// The attempt failed for another reason.
    Failed(String),
}

/// What to do after an attempt to lock a file.
#[derive(Debug)]
pub enum LockStep {
    /// Wait a moment and try again.
    Again,
    /// Go on, with the lock or without it.
    Done(bool),
    /// The file cannot be opened.
    Fail(IoError),
}

/// How often an attempt is repeated while another process holds a lock.
pub const RETRY_ATTEMPTS: u32 = 10;

/// Whether a character is white space.
pub open spec fn is_space(c: char) -> bool {
    let u = c as u32;
    ||| 9 <= u <= 13
    ||| u == 32
    ||| u == 0x85
    ||| u == 0xa0
    ||| u == 0x1680
    ||| 0x2000 <= u <= 0x200a
    ||| u == 0x2028
    ||| u == 0x2029
    ||| u == 0x202f
    ||| u == 0x205f
    ||| u == 0x3000
}

fn space(c: char) -> (r: bool)
    ensures
        r == is_space(c),
{
    let u: u32 = c as u32;
    (9 <= u && u <= 13) || u == 32 || u == 0x85 || u == 0xa0 || u == 0x1680 || (0x2000 <= u && u
        <= 0x200a) || u == 0x2028 || u == 0x2029 || u == 0x202f || u == 0x205f || u == 0x3000
}

/// Text without white space at its start.
pub open spec fn without_leading(s: Seq<char>) -> Seq<char>
    decreases s.len(),
{
    if s.len() > 0 && is_space(s[0]) {
        without_leading(s.skip(1))
    } else {
        s
    }
}

/// Text without white space at its end.
pub open spec fn without_trailing(s: Seq<char>) -> Seq<char>
    decreases s.len(),
{
    if s.len() > 0 && is_space(s.last()) {
        without_trailing(s.drop_last())
    } else {
        s
    }
}

/// Text without white space around it.
pub open spec fn bare(s: Seq<char>) -> Seq<char> {
    without_trailing(without_leading(s))
}

/// The white space at the start of a text is cut off, and nothing else.
pub proof fn lemma_leading(s: Seq<char>, i: int)
    requires
        0 <= i <= s.len(),
        forall|k: int| 0 <= k < i ==> is_space(#[trigger] s[k]),
        i == s.len() || !is_space(s[i]),
    ensures
        without_leading(s) == s.subrange(i, s.len() as int),
    decreases i,
{
    if i > 0 {
        assert(is_space(s[0]));
        let t = s.skip(1);
        assert forall|k: int| 0 <= k < i - 1 implies is_space(#[trigger] t[k]) by {
            assert(t[k] == s[k + 1]);
        }
        assert(i == s.len() || t[i - 1] == s[i]);
        lemma_leading(t, i - 1);
        assert(t.subrange(i - 1, t.len() as int) =~= s.subrange(i, s.len() as int));
    } else {
        assert(s.subrange(0, s.len() as int) =~= s);
    }
}

/// The white space at the end of a text is cut off, and nothing else.
pub proof fn lemma_trailing(s: Seq<char>, j: int)
    requires
        0 <= j <= s.len(),
        forall|k: int| j <= k < s.len() ==> is_space(#[trigger] s[k]),
        j == 0 || !is_space(s[j - 1]),
    ensures
        without_trailing(s) == s.take(j),
    decreases s.len(),
{
    if j < s.len() {
        assert(is_space(s[s.len() - 1]));
        let t = s.drop_last();
        lemma_trailing(t, j);
        assert(t.take(j) =~= s.take(j));
    } else {
        assert(s.take(j) =~= s);
        if s.len() > 0 {
            assert(!is_space(s[j - 1]));
        }
    }
}

/// The text without white space around it.
fn trim(s: &str) -> (r: &str)
    ensures
        r@ == bare(s@),
{
    let n: usize = s.unicode_len();
    let mut i: usize = 0;
    while i < n && space(s.get_char(i))
        invariant
            n == s@.len(),
            i <= n,
            forall|k: int| 0 <= k < i ==> is_space(#[trigger] s@[k]),
        decreases n - i,
    {
        i = i + 1;
    }
    let mut j: usize = n;
    while i < j && space(s.get_char(j - 1))
        invariant
            n == s@.len(),
            i <= j <= n,
            forall|k: int| j <= k < n ==> is_space(#[trigger] s@[k]),
        decreases j,
    {
        j = j - 1;
    }
    proof {
        lemma_leading(s@, i as int);
        let t = s@.subrange(i as int, n as int);
        assert forall|k: int| j - i <= k < t.len() implies is_space(#[trigger] t[k]) by {
            assert(t[k] == s@[k + i]);
        }
        lemma_trailing(t, j - i);
        assert(t.take(j - i) =~= s@.subrange(i as int, j as int));
    }
    s.substring_char(i, j)
}

/// A letter without regard to its case, any other character as it is.
pub open spec fn upper(c: char) -> u32 {
    let u = c as u32;
    if 97 <= u <= 122 {
        (u - 32) as u32
    } else {
        u
    }
}

/// Whether two texts are the same without regard to case.
pub open spec fn same_letters(a: Seq<char>, b: Seq<char>) -> bool {
    &&& a.len() == b.len()
    &&& forall|i: int| 0 <= i < a.len() ==> upper(#[trigger] a[i]) == upper(b[i])
}

fn upper_of(c: char) -> (u: u32)
    ensures
        u == upper(c),
{
    let u: u32 = c as u32;
    if 97 <= u && u <= 122 {
        u - 32
    } else {
        u
    }
}

fn equal_letters(a: &str, b: &str) -> (r: bool)
    ensures
        r == same_letters(a@, b@),
{
    let n: usize = a.unicode_len();
    if n != b.unicode_len() {
        return false;
    }
    let mut i: usize = 0;
    while i < n
        invariant
            n == a@.len(),
            n == b@.len(),
            i <= n,
            forall|k: int| 0 <= k < i ==> upper(#[trigger] a@[k]) == upper(b@[k]),
        decreases n - i,
    {
        if upper_of(a.get_char(i)) != upper_of(b.get_char(i)) {
            assert(upper(a@[i as int]) != upper(b@[i as int]));
            return false;
        }
        i = i + 1;
    }
    true
}

/// The policy that a setting stands for.
pub open spec fn policy_of(value: Option<Seq<char>>) -> FileLocking {
    match value {
        None => FileLocking::Enabled,
        Some(v) => {
            let t = bare(v);
            if same_letters(t, "FALSE"@) || t == "0"@ || same_letters(t, "OFF"@) || same_letters(
                t,
                "NO"@,
            ) {
                FileLocking::Disabled
            } else if same_letters(t, "BEST_EFFORT"@) || same_letters(t, "BEST-EFFORT"@)
                || same_letters(t, "BESTEFFORT"@) {
                FileLocking::BestEffort
            } else {
                FileLocking::Enabled
            }
        },
    }
}

/// What to do after the attempt that was made after `tries` earlier ones.
pub open spec fn step_after(policy: FileLocking, attempt: LockAttempt, tries: u32, s: LockStep) -> bool {
    match attempt {
        LockAttempt::Acquired => s == LockStep::Done(true),
        LockAttempt::WouldBlock => if tries < RETRY_ATTEMPTS {
            s is Again
        } else if policy == FileLocking::Enabled {
            s matches LockStep::Fail(e) && e@ == IoErrorView::Io(
                "unable to lock file: another process holds a conflicting lock"@,
            )
        } else {
            s == LockStep::Done(false)
        },
        LockAttempt::Failed(m) => if policy == FileLocking::Enabled {
            s matches LockStep::Fail(e) && e@ == IoErrorView::Io(m@)
        } else {
            s == LockStep::Done(false)
        },
    }
}

impl FileLocking {
    /// The policy that the value of `HDF5_USE_FILE_LOCKING` stands for.
    pub fn parse_env_value(value: Option<&str>) -> (p: Self)
        ensures
            p == policy_of(
                match value {
                    Some(v) => Some(v@),
                    None => None,
                },
            ),
    {
        match value {
            None => FileLocking::Enabled,
            Some(v) => {
                let t = trim(v);
                if equal_letters(t, "FALSE") || crate::io::names::same_text(t, "0")
                    || equal_letters(t, "OFF") || equal_letters(t, "NO") {
                    FileLocking::Disabled
                } else if equal_letters(t, "BEST_EFFORT") || equal_letters(t, "BEST-EFFORT")
                    || equal_letters(t, "BESTEFFORT") {
                    FileLocking::BestEffort
                } else {
                    FileLocking::Enabled
                }
            },
        }
    }

    /// The policy that the value stands for if it is set, otherwise `default`.
    pub fn value_or(value: Option<&str>, default: FileLocking) -> (p: Self)
        ensures
            p == match value {
                Some(v) => policy_of(Some(v@)),
                None => default,
            },
    {
        match value {
            None => default,
            Some(v) => Self::parse_env_value(Some(v)),
        }
    }

    /// Whether a lock is tried for at all.
    pub fn wants_lock(&self) -> (r: bool)
        ensures
            r == (*self != FileLocking::Disabled),
    {
        match self {
            FileLocking::Disabled => false,
            _ => true,
        }
    }

    /// What to do after the attempt that was made after `tries` earlier ones. A
    /// conflict is waited out for a while.
    pub fn after_attempt(&self, attempt: LockAttempt, tries: u32) -> (s: LockStep)
        ensures
            step_after(*self, attempt, tries, s),
    {
        match attempt {
            LockAttempt::Acquired => LockStep::Done(true),
            LockAttempt::WouldBlock => {
                if tries < RETRY_ATTEMPTS {
                    LockStep::Again
                } else {
                    match self {
                        FileLocking::Enabled => LockStep::Fail(
                            IoError::Io(
                                Text::new(
                                    "unable to lock file: another process holds a conflicting lock",
                                ).done(),
                            ),
                        ),
                        _ => LockStep::Done(false),
                    }
                }
            },
            LockAttempt::Failed(m) => match self {
                FileLocking::Enabled => LockStep::Fail(IoError::Io(m)),
                _ => LockStep::Done(false),
            },
        }
    }
}

/// Whether `t` is `word`, which is written in capital letters, in any mixture of small and
/// capital letters.
pub open spec fn spells(t: Seq<char>, word: Seq<char>) -> bool {
    &&& t.len() == word.len()
    &&& forall|i: int|
        0 <= i < t.len() ==> (#[trigger] t[i] == word[i] || ('A' <= word[i] <= 'Z' && t[i] as u32
            == word[i] as u32 + 32))
}

proof fn lemma_spells(t: Seq<char>, word: Seq<char>)
    requires
        forall|i: int| 0 <= i < word.len() ==> !('a' <= #[trigger] word[i] <= 'z'),
    ensures
        same_letters(t, word) == spells(t, word),
{
    if t.len() == word.len() {
        assert forall|i: int| 0 <= i < t.len() implies ((upper(#[trigger] t[i]) == upper(word[i]))
            == (t[i] == word[i] || ('A' <= word[i] <= 'Z' && t[i] as u32 == word[i] as u32 + 32)))
            by {
            vstd::utf8::char_u32_cast(t[i], t[i] as u32);
            vstd::utf8::char_u32_cast(word[i], word[i] as u32);
        }
        if same_letters(t, word) {
            assert forall|i: int| 0 <= i < t.len() implies (#[trigger] t[i] == word[i] || ('A'
                <= word[i] <= 'Z' && t[i] as u32 == word[i] as u32 + 32)) by {
                assert(upper(t[i]) == upper(word[i]));
            }
        }
        if spells(t, word) {
            assert forall|i: int| 0 <= i < t.len() implies upper(#[trigger] t[i]) == upper(
                word[i],
            ) by {
                assert(t[i] == word[i] || ('A' <= word[i] <= 'Z' && t[i] as u32 == word[i] as u32
                    + 32));
            }
        }
    }
}

/// White space around a setting does not matter.
pub proof fn lemma_setting_bare(pre: Seq<char>, word: Seq<char>, post: Seq<char>)
    requires
        forall|i: int| 0 <= i < pre.len() ==> is_space(#[trigger] pre[i]),
        forall|i: int| 0 <= i < post.len() ==> is_space(#[trigger] post[i]),
        word.len() > 0,
        !is_space(word[0]),
        !is_space(word.last()),
    ensures
        bare(pre + word + post) == word,
        policy_of(Some(pre + word + post)) == policy_of(Some(word)),
{
    let s = pre + word + post;
    let n = pre.len() as int;
    assert forall|k: int| 0 <= k < n implies is_space(#[trigger] s[k]) by {
        assert(s[k] == pre[k]);
    }
    assert(s[n] == word[0]);
    lemma_leading(s, n);
    let t = s.subrange(n, s.len() as int);
    let m = word.len() as int;
    assert forall|k: int| m <= k < t.len() implies is_space(#[trigger] t[k]) by {
        assert(t[k] == post[k - m]);
    }
    assert(t[m - 1] == word.last());
    lemma_trailing(t, m);
    assert(t.take(m) =~= word);
    assert(word.subrange(0, m) =~= word);
    lemma_leading(word, 0);
    lemma_trailing(word, m);
    assert(word.take(m) =~= word);
}

/// Locks are off for false, off, no and 0, are a matter of best effort for best_effort,
/// best-effort and besteffort, all in small or capital letters, and are on otherwise, also
/// where nothing is set.
pub proof fn lemma_settings(word: Seq<char>)
    requires
        word.len() > 0,
        !is_space(word[0]),
        !is_space(word.last()),
    ensures
        policy_of(None) == FileLocking::Enabled,
        policy_of(Some(word)) == FileLocking::Disabled <==> spells(word, "FALSE"@) || spells(
            word,
            "OFF"@,
        ) || spells(word, "NO"@) || word == seq!['0'],
        policy_of(Some(word)) == FileLocking::BestEffort <==> spells(word, "BEST_EFFORT"@)
            || spells(word, "BEST-EFFORT"@) || spells(word, "BESTEFFORT"@),
{
    let e = Seq::<char>::empty();
    lemma_setting_bare(e, word, e);
    assert(e + word + e =~= word);
    reveal_strlit("FALSE");
    reveal_strlit("OFF");
    reveal_strlit("NO");
    reveal_strlit("0");
    reveal_strlit("BEST_EFFORT");
    reveal_strlit("BEST-EFFORT");
    reveal_strlit("BESTEFFORT");
    assert("0"@ =~= seq!['0']);
    lemma_spells(word, "FALSE"@);
    lemma_spells(word, "OFF"@);
    lemma_spells(word, "NO"@);
    lemma_spells(word, "BEST_EFFORT"@);
    lemma_spells(word, "BEST-EFFORT"@);
    lemma_spells(word, "BESTEFFORT"@);
}

/// A lock that is held is never tried for again, and none is claimed that was not acquired.
/// Only where locks are on can a file not be opened for want of one. A conflict is waited
/// out for a bounded number of attempts, any other failure not at all.
pub proof fn lemma_lock_steps(policy: FileLocking, attempt: LockAttempt, tries: u32, s: LockStep)
    requires
        step_after(policy, attempt, tries, s),
    ensures
        s == LockStep::Done(true) <==> attempt is Acquired,
        s is Again <==> attempt is WouldBlock && tries < RETRY_ATTEMPTS,
        s is Fail <==> policy == FileLocking::Enabled && !(attempt is Acquired) && !(s is Again),
        s is Fail && attempt is Failed ==> s->Fail_0@ == IoErrorView::Io(attempt->Failed_0@),
{
}

} // verus!
