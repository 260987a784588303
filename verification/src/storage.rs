//! Save files on disk: what decides how a save and its `.info` sidecar are replaced,
//! backed up and recovered, and how Steam library lists are read. The file system work
//! itself belongs to the caller.
use crate::history::{sha256, sha256_digest};
use crate::text::{chars_of, code_of, push_char, same_text};
use crate::wire::{failure, Error};
use crate::inventory::{lower, lower_code, text_before};
use vstd::prelude::*;

verus! {

broadcast use vstd::string::group_string_axioms;

/// The bytes whose digest identifies a save pair: the save, then a one and the sidecar
/// where there is one, else a zero.
pub open spec fn fingerprint_input(data: Seq<u8>, info: Option<Seq<u8>>) -> Seq<u8> {
    match info {
        Some(b) => data + seq![1u8] + b,
        None => data + seq![0u8],
    }
}

pub open spec fn opt_bytes(info: Option<Vec<u8>>) -> Option<Seq<u8>> {
    match info {
        Some(b) => Some(b@),
        None => None,
    }
}

/// The SHA-256 fingerprint of a save pair, which tells whether another program changed it.
pub fn fingerprint(data: &Vec<u8>, info: &Option<Vec<u8>>) -> (r: Vec<u8>)
    ensures
        r@ == sha256_digest(fingerprint_input(data@, opt_bytes(*info))),
{
    let mut all: Vec<u8> = Vec::new();
    let mut k: usize = 0;
    while k < data.len()
        invariant
            k <= data@.len(),
            all@ == data@.take(k as int),
        decreases data@.len() - k,
    {
        all.push(data[k]);
        assert(all@ =~= data@.take(k + 1));
        k = k + 1;
    }
    assert(data@.take(k as int) =~= data@);
    match info {
        Some(b) => {
            all.push(1u8);
            let ghost head = all@;
            let mut m: usize = 0;
            while m < b.len()
                invariant
                    m <= b@.len(),
                    all@ == head + b@.take(m as int),
                decreases b@.len() - m,
            {
                all.push(b[m]);
                assert(all@ =~= head + b@.take(m + 1));
                m = m + 1;
            }
            assert(b@.take(m as int) =~= b@);
            assert(all@ =~= fingerprint_input(data@, opt_bytes(*info)));
        },
        None => {
            all.push(0u8);
            assert(all@ =~= fingerprint_input(data@, opt_bytes(*info)));
        },
    }
    sha256(&all)
}

fn same_bytes(a: &Vec<u8>, b: &Vec<u8>) -> (r: bool)
    ensures
        r == (a@ == b@),
{
    if a.len() != b.len() {
        return false;
    }
    let mut k: usize = 0;
    while k < a.len()
        invariant
            a@.len() == b@.len(),
            k <= a@.len(),
            forall|m: int| 0 <= m < k ==> a@[m] == b@[m],
        decreases a@.len() - k,
    {
        if a[k] != b[k] {
            return false;
        }
        k = k + 1;
    }
    assert(a@ =~= b@);
    true
}

/// Refuses to go on where the pair on disk is no longer the one expected.
pub fn check_unchanged(current: &Option<Vec<u8>>, expected: &Option<Vec<u8>>) -> (r: Result<(), Error>)
    ensures
        r is Ok <==> opt_bytes(*current) == opt_bytes(*expected),
        r matches Err(e) ==> e.0@ == "EXTERNAL_CHANGE"@,
{
    let same = match (current, expected) {
        (Some(a), Some(b)) => same_bytes(a, b),
        (None, None) => true,
        _ => false,
    };
    if !same {
        return Err(failure("EXTERNAL_CHANGE"));
    }
    Ok(())
}

/// Whether the save pair on disk already holds what a backup would restore: the same save
/// bytes, and the same sidecar (or none on both sides).
pub fn pair_matches(
    current: &Option<Vec<u8>>,
    current_info: &Option<Vec<u8>>,
    data: &Vec<u8>,
    metadata: &Option<Vec<u8>>,
) -> (r: bool)
    ensures
        r == (opt_bytes(*current) == Some(data@) && opt_bytes(*current_info) == opt_bytes(*metadata)),
{
    let save_same = match current {
        Some(c) => same_bytes(c, data),
        None => false,
    };
    let info_same = match (current_info, metadata) {
        (Some(a), Some(b)) => same_bytes(a, b),
        (None, None) => true,
        _ => false,
    };
    save_same && info_same
}

/// Whether `s` ends in `.zip`, in any ASCII letter case.
pub open spec fn zip_suffix(s: Seq<char>) -> bool {
    s.len() >= 4 && forall|i: int| 0 <= i < 4 ==> lower_code(#[trigger] s[s.len() - 4 + i]) == ".zip"@[i] as int
}

/// Whether `name` can name a backup archive: not empty, a bare file name (`file_name` is the
/// last component of `name` as the platform reads paths), and ending in `.zip` in any
/// letter case.
pub fn backup_name_ok(name: &str, file_name: &str) -> (r: bool)
    ensures
        r == (name@.len() > 0 && name@ == file_name@ && zip_suffix(name@)),
{
    proof {
        reveal_strlit(".zip");
    }
    let cs = chars_of(name);
    let n = cs.len();
    if n == 0 || !same_text(name, file_name) || n < 4 {
        return false;
    }
    let suffix = chars_of(".zip");
    let mut i: usize = 0;
    while i < 4
        invariant
            cs@ == name@,
            suffix@ == ".zip"@,
            suffix@.len() == 4,
            n == cs@.len(),
            n >= 4,
            i <= 4,
            forall|m: int| 0 <= m < i ==> lower_code(#[trigger] name@[n - 4 + m]) == ".zip"@[m] as int,
        decreases 4 - i,
    {
        if lower(cs[n - 4 + i]) != code_of(suffix[i]) {
            return false;
        }
        i = i + 1;
    }
    true
}

/// Refuses a number of retained backups above fifty.
pub fn check_retention(retention: u8) -> (r: Result<(), Error>)
    ensures
        r is Ok <==> retention <= 50,
        r matches Err(e) ==> e.0@ == "Backup retention must be 0–50"@,
{
    if retention > 50 {
        return Err(failure("Backup retention must be 0–50"));
    }
    Ok(())
}

/// Whether the backups must first be searched for the pair being replaced: only when a
/// restore should not archive a pair twice, backups are kept, and there is a pair.
pub fn archive_check_needed(avoid_duplicate: bool, retention: u8, has_old: bool) -> (r: bool)
    ensures
        r == (avoid_duplicate && retention > 0 && has_old),
{
    avoid_duplicate && retention > 0 && has_old
}

/// Whether the pair being replaced is archived: backups are kept, there is a pair, and no
/// backup holds it already.
pub fn backup_needed(retention: u8, has_old: bool, already_archived: bool) -> (r: bool)
    ensures
        r == (retention > 0 && has_old && !already_archived),
{
    retention > 0 && has_old && !already_archived
}

/// What restoring a backup did: whether the pair was replaced, and whether the pair it
/// replaced was archived first.
pub struct RestoreResult {
    pub restored: bool,
    pub backup_created: bool,
}

/// What to do with one file of the pair.
pub enum FileAction {
    Write,
    Remove,
    Keep,
}

/// The sidecar after a save: written where the new pair has one, removed where it has none
/// but one exists.
pub fn sidecar_action(has_metadata: bool, exists: bool) -> (r: FileAction)
    ensures
        has_metadata ==> r is Write,
        !has_metadata && exists ==> r is Remove,
        !has_metadata && !exists ==> r is Keep,
{
    if has_metadata {
        FileAction::Write
    } else if exists {
        FileAction::Remove
    } else {
        FileAction::Keep
    }
}

/// What recovery does with an interrupted replacement: a journal that was not ready, or whose
/// replacement completed, is discarded; otherwise the previous pair is put back.
pub fn restore_needed(ready: bool, committed: bool) -> (r: bool)
    ensures
        r == (ready && !committed),
{
    ready && !committed
}

/// Putting back one file of the previous pair: its journal copy where there is one, else
/// removing the file that replaced nothing.
pub fn restore_action(has_old: bool, exists: bool) -> (r: FileAction)
    ensures
        has_old ==> r is Write,
        !has_old && exists ==> r is Remove,
        !has_old && !exists ==> r is Keep,
{
    sidecar_action(has_old, exists)
}

/// Whether a modification time sorts before another; an unknown time sorts first.
pub open spec fn earlier(a: Option<u64>, b: Option<u64>) -> bool {
    match (a, b) {
        (None, Some(_)) => true,
        (Some(x), Some(y)) => x < y,
        _ => false,
    }
}

/// Position at which an entry with time `t` goes into `order`: after every entry that is not
/// later.
pub open spec fn slot(order: Seq<usize>, times: Seq<Option<u64>>, t: Option<u64>) -> int
    decreases order.len(),
{
    if order.len() == 0 {
        0
    } else if earlier(t, times[order.last() as int]) {
        slot(order.drop_last(), times, t)
    } else {
        order.len() as int
    }
}

/// Entry positions ordered by time, oldest first, equal times in listing order.
pub open spec fn by_time(times: Seq<Option<u64>>, n: nat) -> Seq<usize>
    decreases n,
{
    if n == 0 {
        Seq::empty()
    } else {
        let order = by_time(times, (n - 1) as nat);
        order.insert(slot(order, times, times[n - 1]), (n - 1) as usize)
    }
}

proof fn lemma_slot_range(order: Seq<usize>, times: Seq<Option<u64>>, t: Option<u64>)
    ensures
        0 <= slot(order, times, t) <= order.len(),
    decreases order.len(),
{
    if order.len() > 0 {
        lemma_slot_range(order.drop_last(), times, t);
    }
}

proof fn lemma_by_time_len(times: Seq<Option<u64>>, n: nat)
    ensures
        by_time(times, n).len() == n,
    decreases n,
{
    if n > 0 {
        lemma_by_time_len(times, (n - 1) as nat);
        lemma_slot_range(by_time(times, (n - 1) as nat), times, times[n - 1]);
    }
}

fn is_earlier(a: Option<u64>, b: Option<u64>) -> (r: bool)
    ensures
        r == earlier(a, b),
{
    match (a, b) {
        (None, Some(_)) => true,
        (Some(x), Some(y)) => x < y,
        _ => false,
    }
}

/// The backups to delete so that at most `retention` remain: the oldest ones by modification
/// time, an unknown time counting as oldest and equal times going in listing order.
pub fn prune(times: &Vec<Option<u64>>, retention: u8) -> (r: Vec<usize>)
    ensures
        r@ == by_time(times@, times@.len()).take(
            if times@.len() > retention { times@.len() - retention } else { 0 },
        ),
        r@.len() == if times@.len() > retention { times@.len() - retention } else { 0 },
{
    let n = times.len();
    let mut order: Vec<usize> = Vec::new();
    let mut i: usize = 0;
    while i < n
        invariant
            n == times@.len(),
            i <= n,
            order@ == by_time(times@, i as nat),
            forall|q: int| 0 <= q < order@.len() ==> #[trigger] order@[q] < i,
        decreases n - i,
    {
        let t = times[i];
        proof {
            lemma_by_time_len(times@, i as nat);
        }
        let ghost o = order@;
        let mut p: usize = order.len();
        assert(o.take(p as int) =~= o);
        while p > 0 && is_earlier(t, times[order[p - 1]])
            invariant
                order@ == o,
                p <= o.len(),
                forall|q: int| 0 <= q < o.len() ==> #[trigger] o[q] < i,
                i < n,
                n == times@.len(),
                slot(o, times@, t) == slot(o.take(p as int), times@, t),
            decreases p,
        {
            assert(o.take(p as int).drop_last() =~= o.take(p - 1));
            p = p - 1;
        }
        proof {
            assert(slot(o.take(p as int), times@, t) == p) by {
                if p > 0 {
                    assert(o.take(p as int).last() == o[p - 1]);
                }
            }
        }
        order.insert(p, i);
        assert forall|q: int| 0 <= q < order@.len() implies #[trigger] order@[q] < i + 1 by {
            if q < p {
                assert(order@[q] == o[q]);
            } else if q > p {
                assert(order@[q] == o[q - 1]);
            }
        }
        i = i + 1;
    }
    let count = if n > retention as usize { n - retention as usize } else { 0 };
    proof {
        lemma_by_time_len(times@, n as nat);
    }
    let mut out: Vec<usize> = Vec::new();
    let mut k: usize = 0;
    while k < count
        invariant
            count <= order@.len(),
            k <= count,
            out@ == order@.take(k as int),
        decreases count - k,
    {
        out.push(order[k]);
        assert(out@ =~= order@.take(k + 1));
        k = k + 1;
    }
    out
}

/// The quoted tokens of a Valve key-value text from position `i` on, given whether a token
/// is open and what it holds so far, after the tokens `out` already read. Inside quotes a
/// backslash takes the next character as it is; a token still open at the end is kept.
pub open spec fn scan(s: Seq<char>, i: int, open: bool, cur: Seq<char>, out: Seq<Seq<char>>) -> Seq<Seq<char>>
    decreases s.len() - i,
{
    if i >= s.len() {
        if open {
            out.push(cur)
        } else {
            out
        }
    } else if !open {
        if s[i] == '"' {
            scan(s, i + 1, true, Seq::empty(), out)
        } else {
            scan(s, i + 1, false, cur, out)
        }
    } else if s[i] == '"' {
        scan(s, i + 1, false, Seq::empty(), out.push(cur))
    } else if s[i] == '\\' {
        if i + 1 < s.len() {
            scan(s, i + 2, true, cur.push(s[i + 1]), out)
        } else {
            scan(s, i + 1, true, cur, out)
        }
    } else {
        scan(s, i + 1, true, cur.push(s[i]), out)
    }
}

/// The quoted tokens of a Valve key-value text, in order.
pub open spec fn vdf_spec(s: Seq<char>) -> Seq<Seq<char>> {
    scan(s, 0, false, Seq::empty(), Seq::empty())
}

pub open spec fn texts(v: Seq<String>) -> Seq<Seq<char>> {
    v.map_values(|t: String| t@)
}

/// The quoted tokens of a Valve key-value text such as a Steam library list.
pub fn vdf_tokens(input: &str) -> (r: Vec<String>)
    ensures
        texts(r@) == vdf_spec(input@),
{
    let cs = chars_of(input);
    let n = cs.len();
    let mut out: Vec<String> = Vec::new();
    let mut cur = String::new();
    let mut open = false;
    let mut i: usize = 0;
    assert(texts(out@) =~= Seq::<Seq<char>>::empty());
    while i < n
        invariant
            cs@ == input@,
            n == cs@.len(),
            i <= n,
            scan(input@, i as int, open, cur@, texts(out@)) == vdf_spec(input@),
        decreases n - i,
    {
        let c = cs[i];
        if !open {
            if c == '"' {
                open = true;
                cur = String::new();
            }
            i = i + 1;
        } else if c == '"' {
            let done = cur;
            cur = String::new();
            let ghost before = texts(out@);
            let ghost d = done@;
            out.push(done);
            assert(texts(out@) =~= before.push(d));
            open = false;
            i = i + 1;
        } else if c == '\\' {
            if i + 1 < n {
                push_char(&mut cur, cs[i + 1]);
                i = i + 2;
            } else {
                i = i + 1;
            }
        } else {
            push_char(&mut cur, c);
            i = i + 1;
        }
    }
    if open {
        let ghost before = texts(out@);
        let ghost d = cur@;
        out.push(cur);
        assert(texts(out@) =~= before.push(d));
    }
    out
}

/// The values that follow a `path` token, in order.
pub open spec fn paths_in(ts: Seq<Seq<char>>) -> Seq<Seq<char>>
    decreases ts.len(),
{
    if ts.len() < 2 {
        Seq::empty()
    } else {
        let rest = paths_in(ts.drop_last());
        if ts[ts.len() - 2] == "path"@ {
            rest.push(ts.last())
        } else {
            rest
        }
    }
}

/// The library folders that a Steam library list names: each token after a `path` token.
pub fn library_paths(tokens: &Vec<String>) -> (r: Vec<String>)
    ensures
        texts(r@) == paths_in(texts(tokens@)),
{
    let mut out: Vec<String> = Vec::new();
    let ghost ts = texts(tokens@);
    if tokens.len() < 2 {
        assert(texts(out@) =~= paths_in(ts));
        return out;
    }
    let mut k: usize = 1;
    assert(texts(out@) =~= paths_in(ts.take(1)));
    while k < tokens.len()
        invariant
            ts == texts(tokens@),
            1 <= k <= tokens@.len(),
            texts(out@) == paths_in(ts.take(k as int)),
        decreases tokens@.len() - k,
    {
        let ghost before = texts(out@);
        assert(ts.take(k + 1).drop_last() =~= ts.take(k as int));
        assert(ts.take(k + 1)[k - 1] == ts[k - 1]);
        if same_text(tokens[k - 1].as_str(), "path") {
            out.push(tokens[k].clone());
            assert(texts(out@) =~= before.push(ts[k as int]));
        }
        k = k + 1;
    }
    assert(ts.take(k as int) =~= ts);
    out
}

/// Whether backup `a` is listed before backup `b`: newer first, then by name, last first.
pub open spec fn listed_before(a: (u64, String), b: (u64, String)) -> bool {
    a.0 > b.0 || (a.0 == b.0 && text_before(b.1@, a.1@))
}

/// Position at which backup `e` goes into `order`: after every backup listed before it or
/// equal to it.
pub open spec fn backup_slot(order: Seq<usize>, entries: Seq<(u64, String)>, e: (u64, String)) -> int
    decreases order.len(),
{
    if order.len() == 0 {
        0
    } else if listed_before(e, entries[order.last() as int]) {
        backup_slot(order.drop_last(), entries, e)
    } else {
        order.len() as int
    }
}

/// Backup positions in listing order, entries that tie in their original order.
pub open spec fn backup_order(entries: Seq<(u64, String)>, n: nat) -> Seq<usize>
    decreases n,
{
    if n == 0 {
        Seq::empty()
    } else {
        let order = backup_order(entries, (n - 1) as nat);
        order.insert(backup_slot(order, entries, entries[n - 1]), (n - 1) as usize)
    }
}

fn before_in_list(a: &(u64, String), b: &(u64, String)) -> (r: bool)
    ensures
        r == listed_before(*a, *b),
{
    a.0 > b.0 || (a.0 == b.0 && crate::inventory::text_less(b.1.as_str(), a.1.as_str()))
}

/// The order in which backups are listed: by modification time, newest first, then by
/// name, last first. Each backup is given as its modification time and name.
pub fn order_backups(entries: &Vec<(u64, String)>) -> (r: Vec<usize>)
    ensures
        r@ == backup_order(entries@, entries@.len()),
{
    let n = entries.len();
    let mut order: Vec<usize> = Vec::new();
    let mut i: usize = 0;
    while i < n
        invariant
            n == entries@.len(),
            i <= n,
            order@ == backup_order(entries@, i as nat),
            forall|q: int| 0 <= q < order@.len() ==> #[trigger] order@[q] < i,
        decreases n - i,
    {
        let ghost o = order@;
        let mut p: usize = order.len();
        assert(o.take(p as int) =~= o);
        while p > 0 && before_in_list(&entries[i], &entries[order[p - 1]])
            invariant
                order@ == o,
                p <= o.len(),
                forall|q: int| 0 <= q < o.len() ==> #[trigger] o[q] < i,
                i < n,
                n == entries@.len(),
                backup_slot(o, entries@, entries@[i as int]) == backup_slot(o.take(p as int), entries@, entries@[i as int]),
            decreases p,
        {
            assert(o.take(p as int).drop_last() =~= o.take(p - 1));
            p = p - 1;
        }
        proof {
            assert(backup_slot(o.take(p as int), entries@, entries@[i as int]) == p) by {
                if p > 0 {
                    assert(o.take(p as int).last() == o[p - 1]);
                }
            }
        }
        order.insert(p, i);
        assert forall|q: int| 0 <= q < order@.len() implies #[trigger] order@[q] < i + 1 by {
            if q < p {
                assert(order@[q] == o[q]);
            } else if q > p {
                assert(order@[q] == o[q - 1]);
            }
        }
        i = i + 1;
    }
    order
}

/// Whether a save's file name marks a backup the game made.
pub fn marks_backup(name: &str) -> (r: bool)
    ensures
        r == exists|i: int| 0 <= i && i + 8 <= name@.len() && #[trigger] name@.subrange(i, i + 8) == "_backup_"@,
{
    proof {
        reveal_strlit("_backup_");
    }
    let cs = chars_of(name);
    let word = chars_of("_backup_");
    let n = cs.len();
    if n < 8 {
        return false;
    }
    let mut i: usize = 0;
    while i <= n - 8
        invariant
            cs@ == name@,
            word@ == "_backup_"@,
            word@.len() == 8,
            n == cs@.len(),
            n >= 8,
            forall|m: int| 0 <= m < i ==> #[trigger] name@.subrange(m, m + 8) != "_backup_"@,
        decreases n - i,
    {
        let mut j: usize = 0;
        while j < 8 && cs[i + j] == word[j]
            invariant
                cs@ == name@,
                word@ == "_backup_"@,
                word@.len() == 8,
                n == cs@.len(),
                i + 8 <= n,
                j <= 8,
                forall|q: int| 0 <= q < j ==> name@[i + q] == word@[q],
            decreases 8 - j,
        {
            j = j + 1;
        }
        if j < 8 {
            assert(name@.subrange(i as int, i + 8)[j as int] != word@[j as int]);
        }
        if j == 8 {
            assert(name@.subrange(i as int, i + 8) =~= word@);
            return true;
        }
        i = i + 1;
    }
    false
}

} // verus!
