//! The decisions of a terminal session that do not touch the terminal itself:
//! which shell to start and where, what the output reader queues, and how much
//! pending shell output one poll hands over.

use vstd::prelude::*;
use vstd::string::StringExecFns;
use vstd::utf8::{decode_utf8, encode_utf8, valid_utf8};
use std::collections::VecDeque;

verus! {

/// What `String::from_utf8_lossy` makes of a byte sequence: its UTF-8
/// decoding, with each invalid part replaced by U+FFFD.
pub uninterp spec fn lossy_utf8(bytes: Seq<u8>) -> Seq<char>;

/// Calls `String::from_utf8_lossy` and takes the result as an owned string.
/// Claimed: the result is `lossy_utf8` of the bytes, and on valid UTF-8 it is
/// the plain decoding of the bytes (std documents that valid input is
/// returned as it is). How invalid parts are replaced is left unstated.
#[verifier::external_body]
fn decode_lossy(bytes: &[u8]) -> (s: String)
    ensures
        s@ == lossy_utf8(bytes@),
        valid_utf8(bytes@) ==> s@ == decode_utf8(bytes@),
{
    String::from_utf8_lossy(bytes).into_owned()
}

/// The texts one after the other.
pub open spec fn concat_texts(texts: Seq<Seq<char>>) -> Seq<char>
    decreases texts.len(),
{
    if texts.len() == 0 {
        Seq::empty()
    } else {
        concat_texts(texts.drop_last()) + texts.last()
    }
}

/// The text of each output chunk.
pub open spec fn lossy_texts(chunks: Seq<Seq<u8>>) -> Seq<Seq<char>> {
    chunks.map_values(|c: Seq<u8>| lossy_utf8(c))
}

/// The text that a sequence of output chunks decodes to, chunk after chunk.
pub open spec fn decoded(chunks: Seq<Seq<u8>>) -> Seq<char> {
    concat_texts(lossy_texts(chunks))
}

/// The bytes of each pending chunk.
pub open spec fn chunk_bytes(queue: Seq<Vec<u8>>) -> Seq<Seq<u8>> {
    queue.map_values(|c: Vec<u8>| c@)
}

/// The length in bytes of the UTF-8 encoding of `s`, as `str::len` gives it.
pub open spec fn byte_len(s: Seq<char>) -> usize {
    encode_utf8(s).len() as usize
}

/// How many of the pending texts a poll takes, having taken `k`: it stops
/// when no text is left or when the text taken so far is at least
/// `max_bytes` bytes long in UTF-8.
pub open spec fn poll_take_count(texts: Seq<Seq<char>>, max_bytes: nat, k: nat) -> nat
    decreases texts.len() - k,
{
    if k >= texts.len() || byte_len(concat_texts(texts.take(k as int))) >= max_bytes {
        k
    } else {
        poll_take_count(texts, max_bytes, k + 1)
    }
}

/// How many pending chunks a poll takes.
pub open spec fn drain_count(chunks: Seq<Seq<u8>>, max_bytes: nat) -> nat {
    poll_take_count(lossy_texts(chunks), max_bytes, 0)
}

proof fn lemma_poll_take_count(texts: Seq<Seq<char>>, max_bytes: nat, k: nat)
    requires
        k <= texts.len(),
        forall|j: nat|
            j < k ==> byte_len(concat_texts(#[trigger] texts.take(j as int))) < max_bytes,
    ensures
        k <= poll_take_count(texts, max_bytes, k) <= texts.len(),
        forall|j: nat|
            j < poll_take_count(texts, max_bytes, k) ==> byte_len(
                concat_texts(#[trigger] texts.take(j as int)),
            ) < max_bytes,
        poll_take_count(texts, max_bytes, k) < texts.len() ==> byte_len(
            concat_texts(texts.take(poll_take_count(texts, max_bytes, k) as int)),
        ) >= max_bytes,
    decreases texts.len() - k,
{
    if k < texts.len() && byte_len(concat_texts(texts.take(k as int))) < max_bytes {
        lemma_poll_take_count(texts, max_bytes, k + 1);
    }
}

/// A poll hands over pending output in order and up to a bound: it takes a
/// prefix of the pending texts, takes every text that it starts while the
/// text so far is under the bound, and stops before the end only once the
/// text has reached the bound, so output beyond the bound is at most the
/// last text taken.
pub proof fn law_poll_takes_bounded_prefix(texts: Seq<Seq<char>>, max_bytes: nat)
    ensures
        poll_take_count(texts, max_bytes, 0) <= texts.len(),
        forall|j: nat|
            j < poll_take_count(texts, max_bytes, 0) ==> byte_len(
                concat_texts(#[trigger] texts.take(j as int)),
            ) < max_bytes,
        poll_take_count(texts, max_bytes, 0) < texts.len() ==> byte_len(
            concat_texts(texts.take(poll_take_count(texts, max_bytes, 0) as int)),
        ) >= max_bytes,
{
    lemma_poll_take_count(texts, max_bytes, 0);
}

/// Whether a poll takes one more chunk: some chunk is pending and the text
/// taken so far is shorter than `max_bytes` bytes.
pub fn poll_continues(taken: &str, pending: bool, max_bytes: usize) -> (r: bool)
    ensures
        r == (pending && byte_len(taken@) < max_bytes),
{
    pending && taken.len() < max_bytes
}

/// How many of the given pending texts, already decoded, one poll takes.
pub fn poll_count(texts: &Vec<String>, max_bytes: usize) -> (k: usize)
    ensures
        k == poll_take_count(string_views(texts@), max_bytes as nat, 0),
{
    let ghost views = string_views(texts@);
    let mut taken = String::new();
    let mut k: usize = 0;
    assert(views.take(0) =~= Seq::<Seq<char>>::empty());
    while poll_continues(taken.as_str(), k < texts.len(), max_bytes)
        invariant
            views == string_views(texts@),
            k <= texts@.len(),
            taken@ == concat_texts(views.take(k as int)),
            poll_take_count(views, max_bytes as nat, 0) == poll_take_count(
                views,
                max_bytes as nat,
                k as nat,
            ),
        decreases texts@.len() - k,
    {
        assert(poll_take_count(views, max_bytes as nat, k as nat) == poll_take_count(
            views,
            max_bytes as nat,
            (k + 1) as nat,
        ));
        taken.append(texts[k].as_str());
        assert(views.take(k + 1).drop_last() =~= views.take(k as int));
        k = k + 1;
    }
    k
}

/// Drains pending output from the front of `queue`, chunk by chunk, while the
/// text taken is shorter than `max_bytes` bytes: the result is the text of the
/// chunks taken, and the queue keeps the chunks after them. Every chunk taken
/// that is valid UTF-8 comes out as its plain decoding, so when all of them are
/// valid the result is their decodings one after the other.
pub fn drain_output(queue: &mut VecDeque<Vec<u8>>, max_bytes: usize) -> (out: String)
    ensures
        ({
            let chunks = chunk_bytes(old(queue)@);
            let k = drain_count(chunks, max_bytes as nat);
            &&& out@ == decoded(chunks.take(k as int))
            &&& final(queue)@ == old(queue)@.skip(k as int)
            &&& forall|j: int|
                0 <= j < k && valid_utf8(#[trigger] chunks[j]) ==> lossy_utf8(chunks[j])
                    == decode_utf8(chunks[j])
            &&& (forall|j: int| 0 <= j < k ==> valid_utf8(#[trigger] chunks[j])) ==> out@
                == chunks.take(k as int).map_values(|c: Seq<u8>| decode_utf8(c)).flatten()
        }),
{
    let ghost start = queue@;
    let ghost chunks = chunk_bytes(start);
    let ghost texts = lossy_texts(chunks);
    let ghost mut k: nat = 0;
    let mut out = String::new();
    assert(texts.take(0) =~= Seq::<Seq<char>>::empty());
    assert(start.skip(0) =~= start);
    while poll_continues(out.as_str(), queue.len() > 0, max_bytes)
        invariant
            chunks == chunk_bytes(start),
            texts == lossy_texts(chunks),
            k <= start.len(),
            queue@ == start.skip(k as int),
            out@ == concat_texts(texts.take(k as int)),
            poll_take_count(texts, max_bytes as nat, 0) == poll_take_count(
                texts,
                max_bytes as nat,
                k,
            ),
            forall|j: int|
                0 <= j < k && valid_utf8(#[trigger] chunks[j]) ==> lossy_utf8(chunks[j])
                    == decode_utf8(chunks[j]),
        decreases queue@.len(),
    {
        assert(k < texts.len());
        assert(poll_take_count(texts, max_bytes as nat, k) == poll_take_count(
            texts,
            max_bytes as nat,
            k + 1,
        ));
        let chunk = queue.pop_front();
        match chunk {
            Some(c) => {
                let s = decode_lossy(c.as_slice());
                out.append(s.as_str());
                proof {
                    assert(c@ == chunks[k as int]);
                    assert(texts[k as int] == lossy_utf8(chunks[k as int]));
                    assert(texts.take(k + 1int).drop_last() =~= texts.take(k as int));
                    assert(start.skip(k as int).subrange(1, start.skip(k as int).len() as int)
                        =~= start.skip(k + 1int));
                    k = k + 1;
                }
            },
            None => {},
        }
    }
    assert(lossy_texts(chunks.take(k as int)) =~= texts.take(k as int));
    proof {
        if forall|j: int| 0 <= j < k ==> valid_utf8(#[trigger] chunks[j]) {
            let taken = chunks.take(k as int);
            assert forall|j: int| 0 <= j < taken.len() implies lossy_utf8(#[trigger] taken[j])
                == decode_utf8(taken[j]) by {
                assert(taken[j] == chunks[j]);
            }
            lemma_valid_texts_verbatim(taken);
        }
    }
    out
}

proof fn lemma_concat_texts_append(a: Seq<Seq<char>>, b: Seq<Seq<char>>)
    ensures
        concat_texts(a + b) == concat_texts(a) + concat_texts(b),
    decreases b.len(),
{
    if b.len() == 0 {
        assert(a + b =~= a);
        assert(concat_texts(a) + Seq::<char>::empty() =~= concat_texts(a));
    } else {
        lemma_concat_texts_append(a, b.drop_last());
        assert((a + b).drop_last() =~= a + b.drop_last());
        assert(concat_texts(a) + (concat_texts(b.drop_last()) + b.last()) =~= concat_texts(a)
            + concat_texts(b.drop_last()) + b.last());
    }
}

/// The text of two runs of chunks, one after the other, is the text of the
/// first followed by the text of the second.
pub proof fn lemma_decoded_append(a: Seq<Seq<u8>>, b: Seq<Seq<u8>>)
    ensures
        decoded(a + b) == decoded(a) + decoded(b),
{
    assert(lossy_texts(a + b) =~= lossy_texts(a) + lossy_texts(b));
    lemma_concat_texts_append(lossy_texts(a), lossy_texts(b));
}

/// Texts are put together by plain concatenation, in order, with nothing
/// added, dropped or changed.
pub proof fn law_concat_texts_is_flatten(texts: Seq<Seq<char>>)
    ensures
        concat_texts(texts) == texts.flatten(),
    decreases texts.len(),
{
    if texts.len() > 0 {
        law_concat_texts_is_flatten(texts.drop_last());
        texts.drop_last().lemma_flatten_and_flatten_alt_are_equivalent();
    }
    texts.lemma_flatten_and_flatten_alt_are_equivalent();
}

/// The text of a run of chunks is the plain concatenation of the texts of
/// the chunks, each as `String::from_utf8_lossy` gives it: nothing is added,
/// dropped or changed between or inside them; a single chunk gives exactly
/// its own text.
pub proof fn law_decoded_is_concatenation(chunks: Seq<Seq<u8>>, bytes: Seq<u8>)
    ensures
        decoded(chunks) == chunks.map_values(|c: Seq<u8>| lossy_utf8(c)).flatten(),
        decoded(seq![bytes]) == lossy_utf8(bytes),
{
    law_concat_texts_is_flatten(lossy_texts(chunks));
    law_concat_texts_is_flatten(lossy_texts(seq![bytes]));
    assert(lossy_texts(seq![bytes]) =~= seq![lossy_utf8(bytes)]);
    seq![lossy_utf8(bytes)].lemma_flatten_one_element();
}

proof fn lemma_valid_texts_verbatim(taken: Seq<Seq<u8>>)
    requires
        forall|j: int|
            0 <= j < taken.len() ==> lossy_utf8(#[trigger] taken[j]) == decode_utf8(taken[j]),
    ensures
        decoded(taken) == taken.map_values(|c: Seq<u8>| decode_utf8(c)).flatten(),
{
    law_decoded_is_concatenation(taken, Seq::empty());
    assert(taken.map_values(|c: Seq<u8>| lossy_utf8(c)) =~= taken.map_values(
        |c: Seq<u8>| decode_utf8(c),
    ));
}

/// The state of the output stream of a session: every chunk that the reader
/// pushed is either already delivered or still queued, in the order pushed,
/// and the text handed out so far is the text of the delivered chunks.
pub open spec fn stream_intact(
    pushed: Seq<Seq<u8>>,
    delivered: Seq<Seq<u8>>,
    handed_out: Seq<char>,
    queue: Seq<Vec<u8>>,
) -> bool {
    &&& delivered + chunk_bytes(queue) == pushed
    &&& handed_out == decoded(delivered)
}

/// A read that queues a chunk (as `record_read` does for a read of some bytes)
/// keeps the output stream intact: the chunk joins the pushed ones, after them.
pub proof fn law_read_keeps_stream(
    pushed: Seq<Seq<u8>>,
    delivered: Seq<Seq<u8>>,
    handed_out: Seq<char>,
    before: Seq<Vec<u8>>,
    after: Seq<Vec<u8>>,
    bytes: Seq<u8>,
)
    requires
        stream_intact(pushed, delivered, handed_out, before),
        after.len() == before.len() + 1,
        after.take(before.len() as int) == before,
        after.last()@ == bytes,
    ensures
        stream_intact(pushed.push(bytes), delivered, handed_out, after),
{
    assert(chunk_bytes(after) =~= chunk_bytes(before).push(bytes)) by {
        assert forall|j: int| 0 <= j < before.len() implies after[j] == before[j] by {
            assert(after.take(before.len() as int)[j] == after[j]);
        }
    }
    assert(delivered + chunk_bytes(before).push(bytes) =~= (delivered + chunk_bytes(before)).push(
        bytes,
    ));
}

/// A poll (as `drain_output` does) keeps the output stream intact: the chunks
/// it takes move from the queue to the delivered ones, and its result extends
/// the text handed out, so across any sequence of reads and polls no output is
/// lost, duplicated or reordered.
pub proof fn law_poll_keeps_stream(
    pushed: Seq<Seq<u8>>,
    delivered: Seq<Seq<u8>>,
    handed_out: Seq<char>,
    before: Seq<Vec<u8>>,
    after: Seq<Vec<u8>>,
    out: Seq<char>,
    max_bytes: nat,
)
    requires
        stream_intact(pushed, delivered, handed_out, before),
        out == decoded(
            chunk_bytes(before).take(drain_count(chunk_bytes(before), max_bytes) as int),
        ),
        after == before.skip(drain_count(chunk_bytes(before), max_bytes) as int),
    ensures
        stream_intact(
            pushed,
            delivered + chunk_bytes(before).take(
                drain_count(chunk_bytes(before), max_bytes) as int,
            ),
            handed_out + out,
            after,
        ),
{
    let chunks = chunk_bytes(before);
    let k = drain_count(chunks, max_bytes);
    lemma_poll_take_count(lossy_texts(chunks), max_bytes, 0);
    assert(chunk_bytes(after) =~= chunks.skip(k as int));
    assert(chunks.take(k as int) + chunks.skip(k as int) =~= chunks);
    assert(delivered + chunks.take(k as int) + chunks.skip(k as int) =~= delivered + chunks);
    lemma_decoded_append(delivered, chunks.take(k as int));
}

/// Before the first read, the output stream is intact.
pub proof fn law_stream_starts_intact()
    ensures
        stream_intact(Seq::empty(), Seq::empty(), Seq::empty(), Seq::empty()),
{
    assert(Seq::<Seq<u8>>::empty() + chunk_bytes(Seq::<Vec<u8>>::empty()) =~= Seq::<
        Seq<u8>,
    >::empty());
    assert(lossy_texts(Seq::<Seq<u8>>::empty()) =~= Seq::<Seq<char>>::empty());
}

/// The first `n` bytes of `buf`, as a vector of their own.
fn copy_prefix(buf: &[u8], n: usize) -> (v: Vec<u8>)
    requires
        n <= buf@.len(),
    ensures
        v@ == buf@.take(n as int),
{
    let mut v: Vec<u8> = Vec::new();
    let mut i: usize = 0;
    while i < n
        invariant
            n <= buf@.len(),
            i <= n,
            v@ == buf@.take(i as int),
        decreases n - i,
    {
        v.push(buf[i]);
        assert(buf@.take(i + 1) == buf@.take(i as int).push(buf@[i as int]));
        i = i + 1;
    }
    v
}

/// What the output reader does with one read from the terminal into `buf`:
/// `read` is the number of bytes read, or `None` when the read failed. Bytes
/// that were read are queued as one chunk; a read of nothing queues nothing;
/// reading goes on until a read fails.
pub fn record_read(queue: &mut VecDeque<Vec<u8>>, buf: &[u8], read: Option<usize>) -> (keep_reading:
    bool)
    requires
        match read {
            Some(n) => n <= buf@.len(),
            None => true,
        },
    ensures
        keep_reading == read is Some,
        match read {
            Some(n) => if n > 0 {
                &&& final(queue)@.len() == old(queue)@.len() + 1
                &&& final(queue)@.take(old(queue)@.len() as int) == old(queue)@
                &&& final(queue)@.last()@ == buf@.take(n as int)
            } else {
                final(queue)@ == old(queue)@
            },
            None => final(queue)@ == old(queue)@,
        },
{
    match read {
        Some(n) => {
            if n > 0 {
                let chunk = copy_prefix(buf, n);
                queue.push_back(chunk);
                assert(queue@.take(old(queue)@.len() as int) =~= old(queue)@);
            }
            true
        },
        None => false,
    }
}

/// The directory a new shell starts in: the home directory that HOME names,
/// else the one that USERPROFILE names, else the current directory.
pub fn choose_home(home: Option<String>, user_profile: Option<String>) -> (dir: String)
    ensures
        dir@ == match home {
            Some(h) => h@,
            None => match user_profile {
                Some(u) => u@,
                None => "."@,
            },
        },
{
    match home {
        Some(h) => h,
        None => match user_profile {
            Some(u) => u,
            None => ".".to_string(),
        },
    }
}

/// The path at which Windows PowerShell is looked for, under the system root
/// (`C:\Windows` when the system root is unknown).
pub open spec fn powershell_location(system_root: Option<Seq<char>>) -> Seq<char> {
    let root = match system_root {
        Some(root) => root,
        None => "C:\\Windows"@,
    };
    root + "\\\\System32\\\\WindowsPowerShell\\\\v1.0\\\\powershell.exe"@
}

/// The path at which Windows PowerShell is looked for.
pub fn powershell_path(system_root: Option<String>) -> (path: String)
    ensures
        path@ == powershell_location(
            match system_root {
                Some(r) => Some(r@),
                None => None,
            },
        ),
{
    let root = match system_root {
        Some(r) => r,
        None => "C:\\Windows".to_string(),
    };
    root.concat("\\\\System32\\\\WindowsPowerShell\\\\v1.0\\\\powershell.exe")
}

/// The views of a list of strings.
pub open spec fn string_views(v: Seq<String>) -> Seq<Seq<char>> {
    v.map_values(|s: String| s@)
}

/// The default shell as a program and its arguments: on Windows, PowerShell
/// without logo and profile where it exists, else the command interpreter
/// that COMSPEC names (`cmd.exe` when unset); elsewhere, the shell that SHELL
/// names (`/bin/bash` when unset), interactive.
pub fn choose_shell(
    windows: bool,
    powershell: String,
    powershell_exists: bool,
    comspec: Option<String>,
    shell: Option<String>,
) -> (r: (String, Vec<String>))
    ensures
        windows && powershell_exists ==> r.0@ == powershell@ && string_views(r.1@) == seq![
            "-NoLogo"@,
            "-NoProfile"@,
        ],
        windows && !powershell_exists ==> r.0@ == (match comspec {
            Some(c) => c@,
            None => "cmd.exe"@,
        }) && r.1@.len() == 0,
        !windows ==> r.0@ == (match shell {
            Some(s) => s@,
            None => "/bin/bash"@,
        }) && string_views(r.1@) == seq!["-i"@],
{
    if windows {
        if powershell_exists {
            let mut args: Vec<String> = Vec::new();
            args.push("-NoLogo".to_string());
            args.push("-NoProfile".to_string());
            assert(string_views(args@) =~= seq!["-NoLogo"@, "-NoProfile"@]);
            return (powershell, args);
        }
        let program = match comspec {
            Some(c) => c,
            None => "cmd.exe".to_string(),
        };
        return (program, Vec::new());
    }
    let program = match shell {
        Some(s) => s,
        None => "/bin/bash".to_string(),
    };
    let mut args: Vec<String> = Vec::new();
    args.push("-i".to_string());
    assert(string_views(args@) =~= seq!["-i"@]);
    (program, args)
}

} // verus!
