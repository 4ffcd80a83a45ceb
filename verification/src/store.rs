//! The storage backends' own rules: where a remote's copy of the tasks branch is tracked, which
//! files a task store skips, when a file's stamp proves it unchanged, where a document's bytes are
//! kept, and how a push that lost a race reads.
use sha2::{Digest, Sha256};
use vstd::prelude::*;
use vstd::string::StringExecFns;

verus! {

/// What a directory tells about the repository it sits in, before any backend opens it. Paths are
/// held as text.
#[derive(Debug, Clone, PartialEq, Eq)]
pub struct Checkout {
    pub common_dir: String,
    /// The worktree the path is in; `None` when bare.
    pub workdir: Option<String>,
    /// The main worktree, which every linked worktree of the repository shares; `None` when bare.
    pub root: Option<String>,
    pub has_tasks: bool,
}

/// What an import brought in: one revision for each commit that changed the tasks directory, and
/// whether edits no commit held yet followed as one more.
#[derive(Debug, Clone, Copy, Default, PartialEq, Eq)]
pub struct Imported {
    pub revisions: usize,
    pub uncommitted: bool,
}

/// The reference a remote's tasks branch is fetched into: outside `refs/remotes/`, because
/// `git fetch --prune` deletes a reference there that no remote branch backs.
pub open spec fn tracking_text(remote: Seq<char>) -> Seq<char> {
    "refs/openplan/remotes/"@ + remote + "/tasks"@
}

/// The reference a remote's tasks branch is fetched into.
pub fn tracking_reference(remote: &str) -> (reference: String)
    ensures
        reference@ == tracking_text(remote@),
{
    let mut reference = String::from_str("refs/openplan/remotes/");
    reference.append(remote);
    reference.append("/tasks");
    reference
}

/// A name the task store skips: one that starts with a dot.
pub open spec fn hidden_name(name: Seq<char>) -> bool {
    name.len() > 0 && name[0] == '.'
}

/// Whether the store skips a file or directory of this name.
pub fn is_hidden(name: &str) -> (hidden: bool)
    ensures
        hidden == hidden_name(name@),
{
    name.unicode_len() > 0 && name.get_char(0) == '.'
}

/// Whether a path below the store's root names a document, from the names of its parts: none of
/// them is hidden.
pub fn is_document(parts: &Vec<String>) -> (document: bool)
    ensures
        document == forall|k: int| 0 <= k < parts.len() ==> !hidden_name(#[trigger] parts@[k]@),
{
    let mut k: usize = 0;
    while k < parts.len()
        invariant
            k <= parts.len(),
            forall|j: int| 0 <= j < k ==> !hidden_name(#[trigger] parts@[j]@),
        decreases parts.len() - k,
    {
        if is_hidden(parts[k].as_str()) {
            return false;
        }
        k = k + 1;
    }
    true
}

/// Nanoseconds in a second.
pub const NANOS: i128 = 1_000_000_000;

/// How old a stamp must be before it proves a file unchanged: two seconds, in nanoseconds.
pub const SETTLED_NANOS: i128 = 2_000_000_000;

/// A file's size, times, and identity. A file whose stamp did not move still holds what it held.
/// Times are instants in nanoseconds from the Unix epoch; `changed` is the status change as the
/// file system reports it, seconds and nanoseconds.
#[derive(Debug, Clone, Copy, PartialEq, Eq)]
pub struct Stamp {
    pub len: u64,
    pub modified: Option<i128>,
    pub changed: (i64, i64),
    pub inode: u64,
}

/// The instant of a status change, when it names one: seconds and nanoseconds that are not
/// negative, nanoseconds that fit 32 bits, and a sum that a system time can hold.
pub open spec fn change_instant(changed: (i64, i64)) -> Option<int> {
    let (seconds, nanos) = changed;
    if 0 <= seconds && 0 <= nanos && nanos <= u32::MAX && seconds + nanos / 1_000_000_000 <= i64::MAX {
        Some(seconds * 1_000_000_000 + nanos)
    } else {
        None
    }
}

/// The later of two optional instants.
pub open spec fn latest(a: Option<int>, b: Option<int>) -> Option<int> {
    match (a, b) {
        (Some(x), Some(y)) => Some(if x < y { y } else { x }),
        (Some(x), None) => Some(x),
        (None, Some(y)) => Some(y),
        (None, None) => None,
    }
}

/// An optional instant as an integer.
pub open spec fn instant(at: Option<i128>) -> Option<int> {
    match at {
        Some(x) => Some(x as int),
        None => None,
    }
}

/// The stamp is at least two seconds old at `now`: its latest time is not after `now` and lies two
/// seconds or more behind it. A stamp with no time proves nothing.
pub open spec fn settled(stamp: Stamp, now: int) -> bool {
    match latest(instant(stamp.modified), change_instant(stamp.changed)) {
        Some(at) => at <= now && now - at >= 2_000_000_000,
        None => false,
    }
}

/// The instant of a status change, when it names one.
fn changed_at(changed: (i64, i64)) -> (at: Option<i128>)
    ensures
        instant(at) == change_instant(changed),
{
    let (seconds, nanos) = changed;
    if seconds < 0 || nanos < 0 || nanos > 0xffff_ffff {
        return None;
    }
    let carry = nanos / 1_000_000_000;
    if seconds > i64::MAX - carry {
        return None;
    }
    Some((seconds as i128) * NANOS + (nanos as i128))
}

impl Stamp {
    /// A file written in the last moments can change again within one tick of the file system's
    /// clock and keep its stamp, so only an older stamp proves the file did not change since.
    pub fn is_settled(&self, now: i128) -> (done: bool)
        ensures
            done == settled(*self, now as int),
    {
        let at = match (self.modified, changed_at(self.changed)) {
            (Some(x), Some(y)) => if x < y {
                y
            } else {
                x
            },
            (Some(x), None) => x,
            (None, Some(y)) => y,
            (None, None) => {
                return false;
            },
        };
        now >= i128::MIN + SETTLED_NANOS && at <= now - SETTLED_NANOS
    }
}

/// A document up to this size stays in memory; a larger one, such as an image a task embeds,
/// stays in the history until someone reads it.
pub const HELD_BYTES: usize = 65536;

/// Where a document's bytes are: in memory, or in the history under their hash.
#[derive(Debug, Clone)]
pub enum Stored {
    Held(Vec<u8>),
    InHistory { hash: String },
}

/// The SHA-256 digest of some bytes.
pub uninterp spec fn sha256_of(bytes: Seq<u8>) -> Seq<u8>;

/// `Sha256::digest` of the `sha2` crate: the SHA-256 digest of the bytes, which is 32 bytes long.
#[verifier::external_body]
fn sha256_digest(bytes: &Vec<u8>) -> (digest: Vec<u8>)
    ensures
        digest@ == sha256_of(bytes@),
        digest@.len() == 32,
{
    Sha256::digest(bytes.as_slice()).to_vec()
}

/// The lower-case hexadecimal digit of a value below sixteen.
pub open spec fn hex_digit(d: int) -> char {
    "0123456789abcdef"@[d]
}

/// Bytes as lower-case hexadecimal text, two digits a byte.
pub open spec fn hex_text(bytes: Seq<u8>) -> Seq<char>
    decreases bytes.len(),
{
    if bytes.len() == 0 {
        Seq::empty()
    } else {
        hex_text(bytes.drop_last()) + seq![hex_digit((bytes.last() / 16) as int), hex_digit((bytes.last() % 16) as int)]
    }
}

/// Hexadecimal text holds two digits a byte.
pub proof fn lemma_hex_text_len(bytes: Seq<u8>)
    ensures
        hex_text(bytes).len() == 2 * bytes.len(),
    decreases bytes.len(),
{
    if bytes.len() > 0 {
        lemma_hex_text_len(bytes.drop_last());
    }
}

/// A digest as lower-case hexadecimal text, two digits a byte.
pub fn hex_digest(digest: &Vec<u8>) -> (text: String)
    ensures
        text@ == hex_text(digest@),
        text@.len() == 2 * digest@.len(),
{
    let digits = "0123456789abcdef";
    proof {
        reveal_strlit("0123456789abcdef");
    }
    let mut text = String::new();
    let mut k: usize = 0;
    while k < digest.len()
        invariant
            digits@ == "0123456789abcdef"@,
            digits@.len() == 16,
            k <= digest.len(),
            text@ == hex_text(digest@.take(k + 0int)),
        decreases digest.len() - k,
    {
        let byte = digest[k];
        let high = (byte / 16) as usize;
        let low = (byte % 16) as usize;
        text.append(digits.substring_char(high, high + 1));
        text.append(digits.substring_char(low, low + 1));
        proof {
            assert(digest@.take(k + 1).drop_last() =~= digest@.take(k + 0int));
            assert(digits@.subrange(high as int, high + 1) =~= seq![hex_digit((byte / 16) as int)]);
            assert(digits@.subrange(low as int, low + 1) =~= seq![hex_digit((byte % 16) as int)]);
        }
        k = k + 1;
    }
    proof {
        assert(digest@.take(digest.len() + 0int) =~= digest@);
        lemma_hex_text_len(digest@);
    }
    text
}

/// The name a document's bytes are kept under in the history: the hexadecimal SHA-256 digest.
pub fn hash(bytes: &Vec<u8>) -> (name: String)
    ensures
        name@ == hex_text(sha256_of(bytes@)),
        name@.len() == 64,
{
    hex_digest(&sha256_digest(bytes))
}

impl Stored {
    /// Keeps a small document in memory and sends a larger one to the history under its hash.
    pub fn of(bytes: Vec<u8>) -> (stored: Stored)
        ensures
            bytes.len() <= HELD_BYTES ==> (stored matches Stored::Held(held) && held@ == bytes@),
            bytes.len() > HELD_BYTES ==> (stored matches Stored::InHistory { hash } && hash@ == hex_text(sha256_of(bytes@))
                && hash@.len() == 64),
    {
        if bytes.len() <= HELD_BYTES {
            Stored::Held(bytes)
        } else {
            Stored::InHistory { hash: hash(&bytes) }
        }
    }
}

/// The signs by which git reports a push that lost a race rather than one that failed.
pub open spec fn rejection_signs() -> Seq<Seq<char>> {
    seq!["[rejected]"@, "non-fast-forward"@, "fetch first"@, "stale info"@]
}

/// `part` occurs in `text`.
pub open spec fn holds_text(text: Seq<char>, part: Seq<char>) -> bool {
    exists|at: int| 0 <= at && at + part.len() <= text.len() && #[trigger] text.subrange(at, at + part.len()) == part
}

/// Whether `part` occurs in `text`.
pub fn contains_text(text: &str, part: &str) -> (found: bool)
    ensures
        found == holds_text(text@, part@),
{
    let n = text.unicode_len();
    let m = part.unicode_len();
    if m > n {
        return false;
    }
    let mut at: usize = 0;
    while at <= n - m
        invariant
            n == text@.len(),
            m == part@.len(),
            m <= n,
            at <= n - m + 1,
            forall|b: int| 0 <= b < at ==> #[trigger] text@.subrange(b, b + m) != part@,
        decreases n - at,
    {
        let mut k: usize = 0;
        while k < m && text.get_char(at + k) == part.get_char(k)
            invariant
                n == text@.len(),
                m == part@.len(),
                at + m <= n,
                k <= m,
                forall|j: int| 0 <= j < k ==> text@[at + j] == part@[j],
            decreases m - k,
        {
            k = k + 1;
        }
        if k == m {
            proof {
                assert(text@.subrange(at as int, at + m) =~= part@);
            }
            return true;
        }
        proof {
            assert(text@.subrange(at as int, at + m)[k as int] != part@[k as int]);
        }
        at = at + 1;
    }
    proof {
        assert forall|b: int| 0 <= b && b + part@.len() <= text@.len() implies #[trigger] text@.subrange(b, b + part@.len()) != part@ by {
            assert(b < at);
        }
    }
    false
}

/// Whether git's message on a failed push says the remote moved on, so the push lost a race.
pub fn is_rejection(message: &str) -> (rejected: bool)
    ensures
        rejected == exists|k: int| 0 <= k < 4 && holds_text(message@, #[trigger] rejection_signs()[k]),
{
    let signs = ["[rejected]", "non-fast-forward", "fetch first", "stale info"];
    proof {
        reveal_strlit("[rejected]");
        reveal_strlit("non-fast-forward");
        reveal_strlit("fetch first");
        reveal_strlit("stale info");
    }
    let mut k: usize = 0;
    while k < 4
        invariant
            k <= 4,
            signs@.len() == 4,
            forall|j: int| 0 <= j < 4 ==> (#[trigger] signs@[j])@ == rejection_signs()[j],
            forall|j: int| 0 <= j < k ==> !holds_text(message@, #[trigger] rejection_signs()[j]),
        decreases 4 - k,
    {
        if contains_text(message, signs[k]) {
            return true;
        }
        k = k + 1;
    }
    false
}

/// The text before the first line break: `\n`, or `\r\n` taken whole.
pub open spec fn first_line_of(message: Seq<char>) -> Seq<char> {
    let end = first_break(message, 0);
    if end > 0 && message[end - 1] == '\r' && end < message.len() {
        message.subrange(0, end - 1)
    } else {
        message.subrange(0, end)
    }
}

/// The position of the first `\n` at or after `from`, or the length where there is none.
pub open spec fn first_break(message: Seq<char>, from: int) -> int
    decreases message.len() - from,
{
    if from >= message.len() {
        message.len() + 0int
    } else if message[from] == '\n' {
        from
    } else {
        first_break(message, from + 1)
    }
}

/// The first line of a message, which names a commit in a log.
pub fn first_line(message: &str) -> (line: &str)
    ensures
        line@ == first_line_of(message@),
{
    let n = message.unicode_len();
    let mut end: usize = 0;
    while end < n && message.get_char(end) != '\n'
        invariant
            n == message@.len(),
            end <= n,
            first_break(message@, 0) == first_break(message@, end + 0int),
        decreases n - end,
    {
        end = end + 1;
    }
    if end > 0 && end < n && message.get_char(end - 1) == '\r' {
        message.substring_char(0, end - 1)
    } else {
        message.substring_char(0, end)
    }
}

/// The trailer a commit message names its agent in.
pub open spec fn via_mark() -> Seq<char> {
    seq!['V', 'i', 'a', ':', ' ']
}

/// White space as `char::is_whitespace` reads it: the characters Unicode marks `White_Space`.
pub open spec fn is_white(c: char) -> bool {
    ||| c == '\t' || c == '\n' || c == '\u{0B}' || c == '\u{0C}' || c == '\r' || c == ' '
    ||| c == '\u{85}' || c == '\u{A0}' || c == '\u{1680}'
    ||| '\u{2000}' <= c && c <= '\u{200A}'
    ||| c == '\u{2028}' || c == '\u{2029}' || c == '\u{202F}' || c == '\u{205F}' || c == '\u{3000}'
}

/// The text without the white space it ends with.
pub open spec fn trim_end_text(s: Seq<char>) -> Seq<char>
    decreases s.len(),
{
    if s.len() > 0 && is_white(s.last()) {
        trim_end_text(s.drop_last())
    } else {
        s
    }
}

/// The text without the white space it starts with.
pub open spec fn trim_start_text(s: Seq<char>) -> Seq<char>
    decreases s.len(),
{
    if s.len() > 0 && is_white(s[0]) {
        trim_start_text(s.drop_first())
    } else {
        s
    }
}

/// The text without the white space around it.
pub open spec fn trim_text(s: Seq<char>) -> Seq<char> {
    trim_start_text(trim_end_text(s))
}

/// The text holds a character that is not white space.
pub open spec fn has_ink(s: Seq<char>) -> bool {
    exists|i: int| 0 <= i < s.len() && !is_white(#[trigger] s[i])
}

/// The message a commit carries: the text without the white space it ends with, and where an
/// agent acted for the author, a trailer that names it.
pub open spec fn full_text(message: Seq<char>, via: Option<Seq<char>>) -> Seq<char> {
    match via {
        Some(agent) => trim_end_text(message) + seq!['\n', '\n'] + via_mark() + agent + seq!['\n'],
        None => trim_end_text(message) + seq!['\n'],
    }
}

/// The start of the last blank-line break `\n\n` that starts at or before `k`.
pub open spec fn last_pair(text: Seq<char>, k: int) -> Option<int>
    decreases k + 1,
{
    if k < 0 {
        None
    } else if k + 1 < text.len() && text[k] == '\n' && text[k + 1] == '\n' {
        Some(k)
    } else {
        last_pair(text, k - 1)
    }
}

/// A commit message read back: where its last paragraph is a one-line trailer that names an
/// agent, the message before it and the agent; otherwise the whole message and no agent.
pub open spec fn split_text(text: Seq<char>) -> (Seq<char>, Option<Seq<char>>) {
    match last_pair(text, text.len() - 2) {
        Some(at) => {
            let trailer = text.subrange(at + 2, text.len() as int);
            if trailer.len() >= 5 && trailer.subrange(0, 5) == via_mark() && !trailer.contains('\n') {
                (text.subrange(0, at), Some(trim_text(trailer.subrange(5, trailer.len() as int))))
            } else {
                (text, None)
            }
        },
        None => (text, None),
    }
}

/// Whether a character is white space.
pub fn white(c: char) -> (w: bool)
    ensures
        w == is_white(c),
{
    c == '\t' || c == '\n' || c == '\u{0B}' || c == '\u{0C}' || c == '\r' || c == ' ' || c == '\u{85}'
        || c == '\u{A0}' || c == '\u{1680}' || ('\u{2000}' <= c && c <= '\u{200A}') || c == '\u{2028}'
        || c == '\u{2029}' || c == '\u{202F}' || c == '\u{205F}' || c == '\u{3000}'
}

/// The text without the white space it ends with.
pub fn trim_end(s: &str) -> (t: &str)
    ensures
        t@ == trim_end_text(s@),
{
    let mut end = s.unicode_len();
    proof {
        assert(s@.subrange(0, end as int) =~= s@);
    }
    while end > 0 && white(s.get_char(end - 1))
        invariant
            end <= s@.len(),
            trim_end_text(s@) == trim_end_text(s@.subrange(0, end as int)),
        decreases end,
    {
        proof {
            assert(s@.subrange(0, end as int).drop_last() =~= s@.subrange(0, end - 1));
        }
        end = end - 1;
    }
    s.substring_char(0, end)
}

/// The text without the white space around it.
pub fn trim(s: &str) -> (t: &str)
    ensures
        t@ == trim_text(s@),
{
    let inner = trim_end(s);
    let n = inner.unicode_len();
    let mut start: usize = 0;
    proof {
        assert(inner@.subrange(0, n as int) =~= inner@);
    }
    while start < n && white(inner.get_char(start))
        invariant
            n == inner@.len(),
            start <= n,
            trim_start_text(inner@) == trim_start_text(inner@.subrange(start as int, n as int)),
        decreases n - start,
    {
        proof {
            assert(inner@.subrange(start as int, n as int).drop_first() =~= inner@.subrange(start + 1, n as int));
        }
        start = start + 1;
    }
    inner.substring_char(start, n)
}

/// The message a commit carries: the text without the white space it ends with, and, where an
/// agent acted for the author, a trailer that names it.
pub fn full_message(message: &str, via: Option<&str>) -> (text: String)
    ensures
        text@ == full_text(message@, match via {
            Some(a) => Some(a@),
            None => None,
        }),
{
    let mut text = String::from_str(trim_end(message));
    match via {
        Some(agent) => {
            text.append("\n\nVia: ");
            text.append(agent);
            text.append("\n");
            proof {
                reveal_strlit("\n\nVia: ");
                reveal_strlit("\n");
                assert("\n\nVia: "@ =~= seq!['\n', '\n'] + via_mark());
                assert(text@ =~= full_text(message@, Some(agent@)));
            }
        },
        None => {
            text.append("\n");
            proof {
                reveal_strlit("\n");
                assert(text@ =~= full_text(message@, None));
            }
        },
    }
    text
}

/// A break the search finds is a blank-line break inside the text.
proof fn lemma_last_pair_found(text: Seq<char>, k: int)
    ensures
        last_pair(text, k) matches Some(a) ==> 0 <= a <= k && a + 1 < text.len() && text[a] == '\n' && text[a + 1] == '\n',
    decreases k + 1,
{
    if k >= 0 {
        lemma_last_pair_found(text, k - 1);
    }
}

/// Where the last blank-line break `\n\n` of the text starts.
fn last_break(text: &str) -> (at: Option<usize>)
    ensures
        match at {
            Some(a) => last_pair(text@, text@.len() - 2) == Some(a as int),
            None => last_pair(text@, text@.len() - 2) is None,
        },
{
    let n = text.unicode_len();
    if n < 2 {
        return None;
    }
    let mut k: usize = n - 2;
    loop
        invariant
            n == text@.len(),
            n >= 2,
            k <= n - 2,
            last_pair(text@, n - 2) == last_pair(text@, k as int),
        decreases k,
    {
        if text.get_char(k) == '\n' && text.get_char(k + 1) == '\n' {
            return Some(k);
        }
        if k == 0 {
            return None;
        }
        k = k - 1;
    }
}

/// Whether the text holds a line break.
fn has_break(text: &str) -> (found: bool)
    ensures
        found == text@.contains('\n'),
{
    let n = text.unicode_len();
    let mut k: usize = 0;
    while k < n
        invariant
            n == text@.len(),
            k <= n,
            forall|j: int| 0 <= j < k ==> text@[j] != '\n',
        decreases n - k,
    {
        if text.get_char(k) == '\n' {
            return true;
        }
        k = k + 1;
    }
    false
}

/// Whether the text opens with the `Via: ` mark.
fn opens_with_via(text: &str) -> (opens: bool)
    ensures
        opens == (text@.len() >= 5 && text@.subrange(0, 5) == via_mark()),
{
    if text.unicode_len() < 5 {
        return false;
    }
    let opens = text.get_char(0) == 'V' && text.get_char(1) == 'i' && text.get_char(2) == 'a' && text.get_char(3) == ':'
        && text.get_char(4) == ' ';
    proof {
        if opens {
            assert(text@.subrange(0, 5) =~= via_mark());
        } else {
            if text@.subrange(0, 5) == via_mark() {
                assert(text@[0] == text@.subrange(0, 5)[0]);
                assert(text@[1] == text@.subrange(0, 5)[1]);
                assert(text@[2] == text@.subrange(0, 5)[2]);
                assert(text@[3] == text@.subrange(0, 5)[3]);
                assert(text@[4] == text@.subrange(0, 5)[4]);
            }
        }
    }
    opens
}

/// A commit message read back: the message, and the agent its trailer names, where its last
/// paragraph is a one-line `Via: ` trailer.
pub fn split_via(text: &str) -> (parts: (String, Option<String>))
    ensures
        (parts.0@, match parts.1 {
            Some(a) => Some(a@),
            None => None,
        }) == split_text(text@),
{
    let n = text.unicode_len();
    proof {
        lemma_last_pair_found(text@, n - 2);
    }
    match last_break(text) {
        Some(at) => {
            let trailer = text.substring_char(at + 2, n);
            proof {
                assert(trailer@ == text@.subrange(at + 2, n as int));
            }
            if opens_with_via(trailer) && !has_break(trailer) {
                let agent = trim(trailer.substring_char(5, trailer.unicode_len()));
                (text.substring_char(0, at).to_owned(), Some(agent.to_owned()))
            } else {
                (text.to_owned(), None)
            }
        },
        None => (text.to_owned(), None),
    }
}

/// Trimming the end of a text whose last part holds ink trims that part alone.
proof fn lemma_trim_end_concat(x: Seq<char>, y: Seq<char>)
    requires
        has_ink(y),
    ensures
        trim_end_text(x + y) == x + trim_end_text(y),
    decreases y.len(),
{
    let i = choose|i: int| 0 <= i < y.len() && !is_white(#[trigger] y[i]);
    assert((x + y).last() == y.last());
    if is_white(y.last()) {
        let rest = y.drop_last();
        assert(rest[i] == y[i]);
        assert(has_ink(rest));
        assert((x + y).drop_last() =~= x + rest);
        lemma_trim_end_concat(x, rest);
    }
}

/// Trimming the end leaves a start of the text.
proof fn lemma_trim_end_prefix(y: Seq<char>)
    ensures
        trim_end_text(y).len() <= y.len(),
        trim_end_text(y) == y.subrange(0, trim_end_text(y).len() as int),
    decreases y.len(),
{
    if y.len() > 0 && is_white(y.last()) {
        let rest = y.drop_last();
        lemma_trim_end_prefix(rest);
        assert(rest.subrange(0, trim_end_text(rest).len() as int) =~= y.subrange(0, trim_end_text(rest).len() as int));
    } else {
        assert(y.subrange(0, y.len() as int) =~= y);
    }
}

/// What trimming the end leaves of a text with ink: a start of it that ends in ink.
proof fn lemma_trim_end_ink(y: Seq<char>)
    requires
        has_ink(y),
    ensures
        trim_end_text(y).len() > 0,
        !is_white(trim_end_text(y).last()),
    decreases y.len(),
{
    let i = choose|i: int| 0 <= i < y.len() && !is_white(#[trigger] y[i]);
    lemma_trim_end_prefix(y);
    if is_white(y.last()) {
        let rest = y.drop_last();
        assert(rest[i] == y[i]);
        lemma_trim_end_ink(rest);
    }
}

/// Trimming the end twice trims it once.
proof fn lemma_trim_end_twice(y: Seq<char>)
    ensures
        trim_end_text(trim_end_text(y)) == trim_end_text(y),
    decreases y.len(),
{
    if y.len() > 0 && is_white(y.last()) {
        lemma_trim_end_twice(y.drop_last());
    }
}

/// With no blank-line break after `a`, the last one up to `k` is the last one up to `a`.
proof fn lemma_last_pair_skip(text: Seq<char>, k: int, a: int)
    requires
        a <= k,
        forall|j: int| a < j <= k ==> !(#[trigger] text[j] == '\n' && text[j + 1] == '\n'),
    ensures
        last_pair(text, k) == last_pair(text, a),
    decreases k - a,
{
    if a < k {
        lemma_last_pair_skip(text, k - 1, a);
    }
}

/// A commit written with an agent reads back with it. The message a commit carries, its trailing
/// white space trimmed as a read trims it, splits into the message as written, without the white
/// space it ended with, and the agent, without the white space around it. An agent on more than
/// one line, or one that is only white space, does not survive the trailer.
pub proof fn lemma_via_reads_back(message: Seq<char>, agent: Seq<char>)
    requires
        !agent.contains('\n'),
        has_ink(agent),
    ensures
        split_text(trim_end_text(full_text(message, Some(agent)))) == (trim_end_text(message), Some(trim_text(agent))),
{
    let m = trim_end_text(message);
    let x = m + seq!['\n', '\n'] + via_mark();
    let full = full_text(message, Some(agent));
    assert(full =~= x + agent + seq!['\n']);
    assert(full.drop_last() =~= x + agent);
    assert(is_white(full.last()));
    lemma_trim_end_concat(x, agent);
    let t = trim_end_text(agent);
    let text = x + t;
    assert(trim_end_text(full) == text);
    lemma_trim_end_ink(agent);
    lemma_trim_end_prefix(agent);
    lemma_trim_end_twice(agent);
    let a0 = m.len() as int;
    assert forall|j: int| 0 <= j < t.len() implies #[trigger] t[j] != '\n' by {
        assert(t[j] == agent[j]);
    }
    assert(text[a0] == '\n' && text[a0 + 1] == '\n');
    assert forall|j: int| a0 < j <= text.len() - 2 implies !(#[trigger] text[j] == '\n' && text[j + 1] == '\n') by {
        if j < a0 + 7 {
            assert(text[j + 1] == x[j + 1] || j + 1 >= x.len());
            if j + 1 < x.len() {
                assert(x[j + 1] != '\n');
            } else {
                assert(text[j + 1] == t[j + 1 - x.len()]);
            }
        } else {
            assert(text[j] == t[j - x.len()]);
        }
    }
    lemma_last_pair_skip(text, text.len() - 2, a0);
    assert(last_pair(text, a0) == Some(a0));
    let trailer = text.subrange(a0 + 2, text.len() as int);
    assert(trailer =~= via_mark() + t);
    assert(trailer.subrange(0, 5) =~= via_mark());
    assert(!trailer.contains('\n')) by {
        if trailer.contains('\n') {
            let j = choose|j: int| 0 <= j < trailer.len() && trailer[j] == '\n';
            if j >= 5 {
                assert(trailer[j] == t[j - 5]);
            }
        }
    }
    assert(text.subrange(0, a0) =~= m);
    assert(trailer.subrange(5, trailer.len() as int) =~= t);
}


/// A commit written without an agent reads back as it was written: the message a commit carries,
/// its trailing white space trimmed as a read trims it, is the message without the white space it
/// ended with, and names no agent. A message whose own last paragraph is a trailer naming an
/// agent reads back as one written with that agent.
pub proof fn lemma_plain_reads_back(message: Seq<char>)
    requires
        split_text(trim_end_text(message)).1 is None,
    ensures
        split_text(trim_end_text(full_text(message, None))) == (trim_end_text(message), None::<Seq<char>>),
{
    let m = trim_end_text(message);
    let full = full_text(message, None);
    assert(full.drop_last() =~= m);
    assert(is_white(full.last()));
    lemma_trim_end_twice(message);
    assert(trim_end_text(full) == m);
}

/// Who signs commits: a name, and an email where one is set.
#[derive(Debug, PartialEq, Eq)]
pub struct Identity {
    pub name: String,
    pub email: Option<String>,
}

/// A configured value as it signs a commit: trimmed, and none where it holds only white space.
pub open spec fn signed(value: Option<Seq<char>>) -> Option<Seq<char>> {
    match value {
        Some(v) => if trim_text(v).len() > 0 {
            Some(trim_text(v))
        } else {
            None
        },
        None => None,
    }
}

/// An optional text as plain values.
pub open spec fn opt_view(value: Option<&str>) -> Option<Seq<char>> {
    match value {
        Some(v) => Some(v@),
        None => None,
    }
}

/// A configured value, trimmed, where it holds more than white space.
fn signed_value(value: Option<&str>) -> (out: Option<String>)
    ensures
        match out {
            Some(o) => signed(opt_view(value)) == Some(o@),
            None => signed(opt_view(value)) is None,
        },
{
    match value {
        Some(v) => {
            let t = trim(v);
            if t.unicode_len() > 0 {
                Some(t.to_string())
            } else {
                None
            }
        },
        None => None,
    }
}

/// The identity that the configured user name and email make: none without a name that holds
/// more than white space; the name trimmed, and the email trimmed where it holds more than white
/// space.
pub fn identity_of(name: Option<&str>, email: Option<&str>) -> (identity: Option<Identity>)
    ensures
        identity is Some <==> signed(opt_view(name)) is Some,
        identity matches Some(id) ==> Some(id.name@) == signed(opt_view(name)) && match id.email {
            Some(e) => signed(opt_view(email)) == Some(e@),
            None => signed(opt_view(email)) is None,
        },
{
    let name = match signed_value(name) {
        Some(n) => n,
        None => {
            return None;
        },
    };
    Some(Identity { name, email: signed_value(email) })
}

} // verus!
