//! The bounded path index behind the changed-file filter: lowercase search
//! text for both sides of each change, and the rows whose text contains a
//! query. Work checks a shared generation so that superseded work stops.

use vstd::prelude::*;
use std::sync::atomic::AtomicU64;
use crate::text::{lossy, lossy_text, lowercase, to_lowercase, utf8_len};

verus! {

pub const MAX_PATHS: usize = 100_000;

pub const MAX_INDEX_BYTES: usize = 16_777_216;

pub const MAX_QUERY_BYTES: usize = 4096;

/// The longest single path the index takes, in bytes.
pub const MAX_PATH_BYTES: usize = 65_536;

/// How many entries are handled between two checks of the generation.
pub const CHECK_INTERVAL: usize = 128;

pub open spec fn superseded_message() -> Seq<char> {
    "Path filter superseded"@
}

pub open spec fn long_query_message() -> Seq<char> {
    "Path filter queries must be at most 4,096 bytes."@
}

pub open spec fn too_many_paths_message() -> Seq<char> {
    "Path filtering supports up to 100,000 changed files. Clear the filter to browse every file."@
}

pub open spec fn long_path_message() -> Seq<char> {
    "A changed path exceeds the 64 KiB filter limit. Clear the filter to browse every file."@
}

pub open spec fn index_limit_message() -> Seq<char> {
    "Changed paths exceed the 16 MiB filter limit. Clear the filter to browse every file."@
}

/// Work for `ticket` may go on only while the generation is still `ticket`.
pub fn checkpoint_at(current: u64, ticket: u64) -> (r: Result<(), String>)
    ensures
        current == ticket ==> r is Ok,
        current != ticket ==> r is Err && r->Err_0@ == superseded_message(),
{
    if current == ticket {
        Ok(())
    } else {
        Err("Path filter superseded".to_owned())
    }
}

/// Stop with the superseded error when the shared generation has moved on
/// from `ticket`. The generation can change at any moment, so either outcome
/// may come back.
pub fn checkpoint(cancellation: &AtomicU64, ticket: u64) -> (r: Result<(), String>)
    ensures
        r is Err ==> r->Err_0@ == superseded_message(),
{
    let current = cancellation.load(std::sync::atomic::Ordering::Relaxed);
    checkpoint_at(current, ticket)
}

/// Whether the bytes `needle` occur somewhere in `hay`.
pub open spec fn contains_bytes(hay: Seq<u8>, needle: Seq<u8>) -> bool {
    exists|k: int|
        0 <= k && k + needle.len() <= hay.len() && #[trigger] hay.subrange(k, k + needle.len())
            == needle
}

/// `str::contains` with a text pattern: the pattern's bytes occur in the
/// text's bytes.
pub fn text_contains(hay: &str, needle: &str) -> (r: bool)
    ensures
        r == contains_bytes(vstd::utf8::encode_utf8(hay@), vstd::utf8::encode_utf8(needle@)),
{
    let h = hay.as_bytes();
    let n = needle.as_bytes();
    let hl = h.len();
    if n.len() == 0 {
        proof {
            assert(h@.subrange(0, 0 + n@.len() as int) =~= n@);
            assert(contains_bytes(h@, n@));
        }
        return true;
    }
    if n.len() > hl {
        return false;
    }
    let last = hl - n.len();
    let mut k: usize = 0;
    while k <= last
        invariant
            k <= last + 1,
            hl == h@.len(),
            n@.len() > 0,
            last + n@.len() == h@.len(),
            h@ == vstd::utf8::encode_utf8(hay@),
            n@ == vstd::utf8::encode_utf8(needle@),
            forall|j: int| 0 <= j < k ==> #[trigger] h@.subrange(j, j + n@.len()) != n@,
        decreases last + 1 - k,
    {
        let mut i: usize = 0;
        while i < n.len() && h[k + i] == n[i]
            invariant
                k <= last,
                hl == h@.len(),
                last + n@.len() == h@.len(),
                i <= n@.len(),
                forall|m: int| 0 <= m < i ==> h@[k + m] == n@[m],
            decreases n@.len() - i,
        {
            i = i + 1;
        }
        if i == n.len() {
            proof {
                assert(h@.subrange(k as int, k + n@.len()) =~= n@);
            }
            return true;
        }
        proof {
            assert(h@.subrange(k as int, k + n@.len())[i as int] != n@[i as int]);
        }
        k = k + 1;
    }
    false
}

/// The search text of one change: its old and new path, lowercase.
pub open spec fn entry_view(entry: [String; 2]) -> (Seq<char>, Seq<char>) {
    (entry[0]@, entry[1]@)
}

pub open spec fn index_view(index: Seq<[String; 2]>) -> Seq<(Seq<char>, Seq<char>)> {
    index.map_values(|e: [String; 2]| entry_view(e))
}

/// Whether either side of an entry contains the query.
pub open spec fn entry_matches(entry: (Seq<char>, Seq<char>), query: Seq<char>) -> bool {
    contains_bytes(vstd::utf8::encode_utf8(entry.0), vstd::utf8::encode_utf8(query))
        || contains_bytes(vstd::utf8::encode_utf8(entry.1), vstd::utf8::encode_utf8(query))
}

/// The positions of the entries that contain the query, in index order.
pub open spec fn matching_positions(index: Seq<(Seq<char>, Seq<char>)>, query: Seq<char>) -> Seq<int>
    decreases index.len(),
{
    if index.len() == 0 {
        seq![]
    } else {
        matching_positions(index.drop_last(), query) + if entry_matches(index.last(), query) {
            seq![index.len() - 1]
        } else {
            Seq::<int>::empty()
        }
    }
}

pub open spec fn positions(rows: Seq<usize>) -> Seq<int> {
    rows.map_values(|r: usize| r as int)
}

/// The rows of `index` whose text contains `query`, which is already
/// lowercase, checking the generation every few entries.
pub fn matching_rows(index: &Vec<[String; 2]>, query: &str, cancellation: &AtomicU64, ticket: u64) -> (r: Result<Vec<usize>, String>)
    ensures
        r matches Ok(rows) ==> positions(rows@) == matching_positions(index_view(index@), query@),
        r matches Err(e) ==> e@ == superseded_message(),
{
    let mut rows: Vec<usize> = Vec::new();
    let mut i: usize = 0;
    while i < index.len()
        invariant
            i <= index@.len(),
            positions(rows@) == matching_positions(index_view(index@.take(i as int)), query@),
        decreases index@.len() - i,
    {
        if i % CHECK_INTERVAL == 0 {
            match checkpoint(cancellation, ticket) {
                Ok(()) => {},
                Err(e) => {
                    return Err(e);
                },
            }
        }
        let hit = text_contains(index[i][0].as_str(), query) || text_contains(
            index[i][1].as_str(),
            query,
        );
        let ghost before = rows@;
        let ghost prefix = index_view(index@.take(i as int));
        let ghost grown = index_view(index@.take(i + 1));
        proof {
            assert(grown.drop_last() =~= prefix);
            assert(grown.last() == entry_view(index@[i as int]));
        }
        if hit {
            rows.push(i);
            proof {
                assert(positions(rows@) =~= positions(before).push(i as int));
            }
        }
        proof {
            assert(positions(rows@) =~= matching_positions(grown, query@));
        }
        i = i + 1;
    }
    proof {
        assert(index@.take(index@.len() as int) =~= index@);
    }
    match checkpoint(cancellation, ticket) {
        Ok(()) => Ok(rows),
        Err(e) => Err(e),
    }
}

/// The rows whose text contains the query, case-insensitively. A query
/// over the bound is refused; otherwise the rows come back unless the
/// generation moved on from `ticket`.
pub fn matching(index: &Vec<[String; 2]>, query: &str, cancellation: &AtomicU64, ticket: u64) -> (r: Result<Vec<usize>, String>)
    ensures
        utf8_len(query@) > MAX_QUERY_BYTES ==> r is Err && r->Err_0@ == long_query_message(),
        r matches Ok(rows) ==> utf8_len(query@) <= MAX_QUERY_BYTES && positions(rows@)
            == matching_positions(index_view(index@), lowercase(query@)),
        r matches Err(e) ==> e@ == long_query_message() || e@ == superseded_message(),
        r matches Err(e) && e@ == long_query_message() ==> utf8_len(query@) > MAX_QUERY_BYTES,
{
    if query.as_bytes().len() > MAX_QUERY_BYTES {
        return Err("Path filter queries must be at most 4,096 bytes.".to_owned());
    }
    let lowered = to_lowercase(query);
    let r = matching_rows(index, lowered.as_str(), cancellation, ticket);
    proof {
        reveal_strlit("Path filter superseded");
        reveal_strlit("Path filter queries must be at most 4,096 bytes.");
        assert(superseded_message().len() != long_query_message().len());
    }
    r
}

/// The old and new path of one change, either of which may be absent.
pub open spec fn pair_view(pair: [Option<Vec<u8>>; 2]) -> (Option<Seq<u8>>, Option<Seq<u8>>) {
    (
        match pair[0] {
            Some(p) => Some(p@),
            None => None,
        },
        match pair[1] {
            Some(p) => Some(p@),
            None => None,
        },
    )
}

pub open spec fn pairs_view(pairs: Seq<[Option<Vec<u8>>; 2]>) -> Seq<(Option<Seq<u8>>, Option<Seq<u8>>)> {
    pairs.map_values(|p: [Option<Vec<u8>>; 2]| pair_view(p))
}

/// One side of a change in the index: its lowercase display text and the
/// index bytes used with it, or why it does not fit.
pub open spec fn side_step(path: Option<Seq<u8>>, bytes: int) -> Result<(Seq<char>, int), Seq<char>> {
    match path {
        None => Ok((Seq::<char>::empty(), bytes)),
        Some(p) => {
            let display = lossy_text(p);
            if utf8_len(display) > MAX_PATH_BYTES {
                Err(long_path_message())
            } else if utf8_len(display) > MAX_INDEX_BYTES - bytes {
                Err(index_limit_message())
            } else if bytes + utf8_len(lowercase(display)) > MAX_INDEX_BYTES {
                Err(index_limit_message())
            } else {
                Ok((lowercase(display), bytes + utf8_len(lowercase(display))))
            }
        },
    }
}

/// Both sides of a change, the old one first.
pub open spec fn entry_step(pair: (Option<Seq<u8>>, Option<Seq<u8>>), bytes: int) -> Result<
    ((Seq<char>, Seq<char>), int),
    Seq<char>,
> {
    match side_step(pair.0, bytes) {
        Err(e) => Err(e),
        Ok((old_text, after_old)) => match side_step(pair.1, after_old) {
            Err(e) => Err(e),
            Ok((new_text, after_new)) => Ok(((old_text, new_text), after_new)),
        },
    }
}

/// The index of the changes, with the bytes it uses, or why it cannot be
/// built: too many changes, a path too long, or too many bytes in all.
pub open spec fn prepared(pairs: Seq<(Option<Seq<u8>>, Option<Seq<u8>>)>) -> Result<
    (Seq<(Seq<char>, Seq<char>)>, int),
    Seq<char>,
>
    decreases pairs.len(),
{
    if pairs.len() == 0 {
        Ok((Seq::<(Seq<char>, Seq<char>)>::empty(), 0))
    } else {
        match prepared(pairs.drop_last()) {
            Err(e) => Err(e),
            Ok((index, bytes)) => if pairs.len() - 1 >= MAX_PATHS {
                Err(too_many_paths_message())
            } else {
                match entry_step(pairs.last(), bytes) {
                    Err(e) => Err(e),
                    Ok((entry, after)) => Ok((index.push(entry), after)),
                }
            },
        }
    }
}

fn prepare_side(path: &Option<Vec<u8>>, bytes: usize) -> (r: Result<(String, usize), String>)
    requires
        bytes <= MAX_INDEX_BYTES,
    ensures
        match side_step(
            match path {
                Some(p) => Some(p@),
                None => None,
            },
            bytes as int,
        ) {
            Ok((text, after)) => r matches Ok((s, b)) && s@ == text && b == after,
            Err(e) => r matches Err(m) && m@ == e,
        },
{
    match path {
        None => Ok((String::new(), bytes)),
        Some(p) => {
            let display = lossy(p.as_slice());
            let length = display.as_str().as_bytes().len();
            if length > MAX_PATH_BYTES {
                return Err(
                    "A changed path exceeds the 64 KiB filter limit. Clear the filter to browse every file.".to_owned(),
                );
            }
            if length > MAX_INDEX_BYTES - bytes {
                return Err(
                    "Changed paths exceed the 16 MiB filter limit. Clear the filter to browse every file.".to_owned(),
                );
            }
            let lowered = to_lowercase(display.as_str());
            let added = lowered.as_str().as_bytes().len();
            if added > MAX_INDEX_BYTES - bytes {
                return Err(
                    "Changed paths exceed the 16 MiB filter limit. Clear the filter to browse every file.".to_owned(),
                );
            }
            Ok((lowered, bytes + added))
        },
    }
}

/// The search index of the changes' paths. It is refused past its bounds;
/// otherwise it comes back unless the generation moved on from `ticket`.
pub fn prepare_paths(pairs: &Vec<[Option<Vec<u8>>; 2]>, cancellation: &AtomicU64, ticket: u64) -> (r: Result<Vec<[String; 2]>, String>)
    ensures
        r matches Ok(index) ==> prepared(pairs_view(pairs@)) matches Ok((built, _)) && index_view(
            index@,
        ) == built,
        r matches Err(e) ==> e@ == superseded_message() || prepared(pairs_view(pairs@)) == Err::<
            (Seq<(Seq<char>, Seq<char>)>, int),
            Seq<char>,
        >(e@),
        prepared(pairs_view(pairs@)) is Err ==> r is Err,
{
    let mut bytes: usize = 0;
    let mut index: Vec<[String; 2]> = Vec::new();
    let mut i: usize = 0;
    proof {
        assert(pairs_view(pairs@.take(0)) =~= Seq::<(Option<Seq<u8>>, Option<Seq<u8>>)>::empty());
        assert(index_view(index@) =~= Seq::<(Seq<char>, Seq<char>)>::empty());
    }
    while i < pairs.len()
        invariant
            i <= pairs@.len(),
            bytes <= MAX_INDEX_BYTES,
            prepared(pairs_view(pairs@.take(i as int))) == Ok::<
                (Seq<(Seq<char>, Seq<char>)>, int),
                Seq<char>,
            >((index_view(index@), bytes as int)),
        decreases pairs@.len() - i,
    {
        let ghost done = pairs_view(pairs@.take(i as int));
        let ghost grown = pairs_view(pairs@.take(i + 1));
        proof {
            assert(grown.drop_last() =~= done);
            assert(grown.last() == pair_view(pairs@[i as int]));
            assert(grown.len() == i + 1);
            assert(grown =~= pairs_view(pairs@).take(i + 1));
        }
        if i >= MAX_PATHS {
            proof {
                lemma_prepared_fails(pairs_view(pairs@), i + 1);
            }
            return Err(
                "Path filtering supports up to 100,000 changed files. Clear the filter to browse every file.".to_owned(),
            );
        }
        if i % CHECK_INTERVAL == 0 {
            match checkpoint(cancellation, ticket) {
                Ok(()) => {},
                Err(e) => {
                    return Err(e);
                },
            }
        }
        let (old_text, after_old) = match prepare_side(&pairs[i][0], bytes) {
            Ok(done_side) => done_side,
            Err(e) => {
                proof {
                    lemma_prepared_fails(pairs_view(pairs@), i + 1);
                }
                return Err(e);
            },
        };
        let (new_text, after_new) = match prepare_side(&pairs[i][1], after_old) {
            Ok(done_side) => done_side,
            Err(e) => {
                proof {
                    lemma_prepared_fails(pairs_view(pairs@), i + 1);
                }
                return Err(e);
            },
        };
        let ghost before = index_view(index@);
        index.push([old_text, new_text]);
        proof {
            assert(index_view(index@) =~= before.push(entry_view(index@[index@.len() - 1])));
        }
        bytes = after_new;
        i = i + 1;
    }
    proof {
        assert(pairs@.take(pairs@.len() as int) =~= pairs@);
    }
    Ok(index)
}

/// Once a prefix of the changes cannot be indexed, neither can all of them.
proof fn lemma_prepared_fails(pairs: Seq<(Option<Seq<u8>>, Option<Seq<u8>>)>, k: int)
    requires
        0 <= k <= pairs.len(),
        prepared(pairs.take(k)) is Err,
    ensures
        prepared(pairs) == prepared(pairs.take(k)),
    decreases pairs.len() - k,
{
    if k < pairs.len() {
        let next = pairs.take(k + 1);
        assert(next.drop_last() =~= pairs.take(k));
        lemma_prepared_fails(pairs, k + 1);
    } else {
        assert(pairs.take(k) =~= pairs);
    }
}

/// The search index of the changes, refusing more changes than the filter
/// supports before any work.
pub fn prepare_index(pairs: &Vec<[Option<Vec<u8>>; 2]>, cancellation: &AtomicU64, ticket: u64) -> (r: Result<Vec<[String; 2]>, String>)
    ensures
        pairs@.len() > MAX_PATHS ==> r is Err && r->Err_0@ == too_many_paths_message(),
        pairs@.len() <= MAX_PATHS ==> {
            &&& r matches Ok(index) ==> prepared(pairs_view(pairs@)) matches Ok((built, _))
                && index_view(index@) == built
            &&& r matches Err(e) ==> e@ == superseded_message() || prepared(pairs_view(pairs@))
                == Err::<(Seq<(Seq<char>, Seq<char>)>, int), Seq<char>>(e@)
            &&& prepared(pairs_view(pairs@)) is Err ==> r is Err
        },
{
    if pairs.len() > MAX_PATHS {
        return Err(
            "Path filtering supports up to 100,000 changed files. Clear the filter to browse every file.".to_owned(),
        );
    }
    prepare_paths(pairs, cancellation, ticket)
}

} // verus!
